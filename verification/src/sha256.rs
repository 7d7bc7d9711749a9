//! SHA-256, as FIPS 180-4 defines it, with the digest in lower-case hexadecimal.
use vstd::prelude::*;

verus! {

/// The round constants.
pub const K: [u32; 64] = [
    0x428a2f98, 0x71374491, 0xb5c0fbcf, 0xe9b5dba5, 0x3956c25b, 0x59f111f1, 0x923f82a4, 0xab1c5ed5,
    0xd807aa98, 0x12835b01, 0x243185be, 0x550c7dc3, 0x72be5d74, 0x80deb1fe, 0x9bdc06a7, 0xc19bf174,
    0xe49b69c1, 0xefbe4786, 0x0fc19dc6, 0x240ca1cc, 0x2de92c6f, 0x4a7484aa, 0x5cb0a9dc, 0x76f988da,
    0x983e5152, 0xa831c66d, 0xb00327c8, 0xbf597fc7, 0xc6e00bf3, 0xd5a79147, 0x06ca6351, 0x14292967,
    0x27b70a85, 0x2e1b2138, 0x4d2c6dfc, 0x53380d13, 0x650a7354, 0x766a0abb, 0x81c2c92e, 0x92722c85,
    0xa2bfe8a1, 0xa81a664b, 0xc24b8b70, 0xc76c51a3, 0xd192e819, 0xd6990624, 0xf40e3585, 0x106aa070,
    0x19a4c116, 0x1e376c08, 0x2748774c, 0x34b0bcb5, 0x391c0cb3, 0x4ed8aa4a, 0x5b9cca4f, 0x682e6ff3,
    0x748f82ee, 0x78a5636f, 0x84c87814, 0x8cc70208, 0x90befffa, 0xa4506ceb, 0xbef9a3f7, 0xc67178f2,
];

/// The eight words of the hash state.
pub struct State {
    pub a: u32,
    pub b: u32,
    pub c: u32,
    pub d: u32,
    pub e: u32,
    pub f: u32,
    pub g: u32,
    pub h: u32,
}

/// The state before the first block.
pub open spec fn initial() -> State {
    State {
        a: 0x6a09e667,
        b: 0xbb67ae85,
        c: 0x3c6ef372,
        d: 0xa54ff53a,
        e: 0x510e527f,
        f: 0x9b05688c,
        g: 0x1f83d9ab,
        h: 0x5be0cd19,
    }
}

/// Addition modulo 2 to the 32.
pub open spec fn plus(x: u32, y: u32) -> u32 {
    ((x + y) % 0x1_0000_0000) as u32
}

/// `x` rotated right by `n` bits.
pub open spec fn rotr(x: u32, n: u32) -> u32 {
    (x >> n) | (x << ((32 - n) as u32))
}

pub open spec fn small_sigma0(x: u32) -> u32 {
    rotr(x, 7) ^ rotr(x, 18) ^ (x >> 3u32)
}

pub open spec fn small_sigma1(x: u32) -> u32 {
    rotr(x, 17) ^ rotr(x, 19) ^ (x >> 10u32)
}

pub open spec fn big_sigma0(x: u32) -> u32 {
    rotr(x, 2) ^ rotr(x, 13) ^ rotr(x, 22)
}

pub open spec fn big_sigma1(x: u32) -> u32 {
    rotr(x, 6) ^ rotr(x, 11) ^ rotr(x, 25)
}

pub open spec fn choice(x: u32, y: u32, z: u32) -> u32 {
    (x & y) ^ (!x & z)
}

pub open spec fn majority(x: u32, y: u32, z: u32) -> u32 {
    (x & y) ^ (x & z) ^ (y & z)
}

/// The big-endian word of four bytes.
pub open spec fn word(b0: u8, b1: u8, b2: u8, b3: u8) -> u32 {
    (b0 * 0x100_0000 + b1 * 0x1_0000 + b2 * 0x100 + b3) as u32
}

/// Word `t` of the message schedule of a block of 64 bytes.
pub open spec fn schedule(block: Seq<u8>, t: nat) -> u32
    decreases t,
{
    if t < 16 {
        let i = 4 * (t as int);
        word(block[i], block[i + 1], block[i + 2], block[i + 3])
    } else {
        plus(
            plus(
                plus(
                    schedule(block, (t - 16) as nat),
                    small_sigma0(schedule(block, (t - 15) as nat)),
                ),
                schedule(block, (t - 7) as nat),
            ),
            small_sigma1(schedule(block, (t - 2) as nat)),
        )
    }
}

/// One round.
pub open spec fn round(s: State, k: u32, w: u32) -> State {
    let t1 = plus(plus(plus(plus(s.h, big_sigma1(s.e)), choice(s.e, s.f, s.g)), k), w);
    let t2 = plus(big_sigma0(s.a), majority(s.a, s.b, s.c));
    State { a: plus(t1, t2), b: s.a, c: s.b, d: s.c, e: plus(s.d, t1), f: s.e, g: s.f, h: s.g }
}

/// The state after the first `t` rounds of a block.
pub open spec fn rounds(s: State, block: Seq<u8>, t: nat) -> State
    decreases t,
{
    if t == 0 {
        s
    } else {
        round(rounds(s, block, (t - 1) as nat), K@[t - 1], schedule(block, (t - 1) as nat))
    }
}

/// The state after one block.
#[verifier::opaque]
pub open spec fn compress(s: State, block: Seq<u8>) -> State {
    let r = rounds(s, block, 64);
    State {
        a: plus(s.a, r.a),
        b: plus(s.b, r.b),
        c: plus(s.c, r.c),
        d: plus(s.d, r.d),
        e: plus(s.e, r.e),
        f: plus(s.f, r.f),
        g: plus(s.g, r.g),
        h: plus(s.h, r.h),
    }
}

/// The state after the first `n` blocks of a padded message.
pub open spec fn blocks(padded: Seq<u8>, n: nat) -> State
    decreases n,
{
    if n == 0 {
        initial()
    } else {
        compress(blocks(padded, (n - 1) as nat), padded.subrange(64 * (n - 1), 64 * (n as int)))
    }
}

/// The eight big-endian bytes of a number below 2 to the 64.
#[verifier::opaque]
pub open spec fn be_bytes(n: nat) -> Seq<u8> {
    seq![
        (n / 0x100_0000_0000_0000) as u8,
        (n / 0x1_0000_0000_0000 % 0x100) as u8,
        (n / 0x100_0000_0000 % 0x100) as u8,
        (n / 0x1_0000_0000 % 0x100) as u8,
        (n / 0x100_0000 % 0x100) as u8,
        (n / 0x1_0000 % 0x100) as u8,
        (n / 0x100 % 0x100) as u8,
        (n % 0x100) as u8,
    ]
}

/// How many zero bytes stand between the marker byte and the length.
pub open spec fn padding_zeros(len: nat) -> nat {
    ((119 - len % 64) % 64) as nat
}

/// The message with its marker byte, zeros and bit length, of which 64 bits are kept: a whole
/// number of blocks.
#[verifier::opaque]
pub open spec fn padded(message: Seq<u8>) -> Seq<u8> {
    message.push(0x80) + Seq::new(padding_zeros(message.len()), |i: int| 0u8) + be_bytes(
        8 * message.len() % 0x1_0000_0000_0000_0000,
    )
}

/// The big-endian bytes of a word.
#[verifier::opaque]
pub open spec fn word_bytes(w: u32) -> Seq<u8> {
    seq![
        (w / 0x100_0000) as u8,
        (w / 0x1_0000 % 0x100) as u8,
        (w / 0x100 % 0x100) as u8,
        (w % 0x100) as u8,
    ]
}

/// The bytes of a state.
pub open spec fn state_bytes(s: State) -> Seq<u8> {
    word_bytes(s.a) + word_bytes(s.b) + word_bytes(s.c) + word_bytes(s.d) + word_bytes(s.e)
        + word_bytes(s.f) + word_bytes(s.g) + word_bytes(s.h)
}

/// The SHA-256 digest of a message: 32 bytes.
pub open spec fn digest(message: Seq<u8>) -> Seq<u8> {
    let p = padded(message);
    state_bytes(blocks(p, p.len() / 64))
}

/// The lower-case hexadecimal digit of a number below sixteen.
pub open spec fn hex_digit(d: int) -> char {
    if d < 10 {
        (48 + d) as char
    } else {
        (87 + d) as char
    }
}

/// Two lower-case hexadecimal digits for each byte.
pub open spec fn hex(bytes: Seq<u8>) -> Seq<char>
    decreases bytes.len(),
{
    if bytes.len() == 0 {
        Seq::empty()
    } else {
        hex(bytes.drop_last()).push(hex_digit(bytes.last() as int / 16)).push(hex_digit(bytes.last() as int % 16))
    }
}

fn rotate(x: u32, n: u32) -> (r: u32)
    requires
        0 < n < 32,
    ensures
        r == rotr(x, n),
{
    (x >> n) | (x << (32 - n))
}

fn add32(x: u32, y: u32) -> (r: u32)
    ensures
        r == plus(x, y),
{
    x.wrapping_add(y)
}

/// The message schedule of a block.
fn expand(block: &[u8]) -> (w: Vec<u32>)
    requires
        block@.len() == 64,
    ensures
        w@.len() == 64,
        forall|t: int| 0 <= t < 64 ==> #[trigger] w@[t] == schedule(block@, t as nat),
{
    let mut w: Vec<u32> = Vec::new();
    let mut t: usize = 0;
    while t < 16
        invariant
            block@.len() == 64,
            t <= 16,
            w@.len() == t,
            forall|i: int| 0 <= i < t ==> #[trigger] w@[i] == schedule(block@, i as nat),
        decreases 16 - t,
    {
        let b0 = block[4 * t] as u32;
        let b1 = block[4 * t + 1] as u32;
        let b2 = block[4 * t + 2] as u32;
        let b3 = block[4 * t + 3] as u32;
        w.push(b0 * 0x100_0000 + b1 * 0x1_0000 + b2 * 0x100 + b3);
        t += 1;
    }
    while t < 64
        invariant
            16 <= t <= 64,
            w@.len() == t,
            forall|i: int| 0 <= i < t ==> #[trigger] w@[i] == schedule(block@, i as nat),
        decreases 64 - t,
    {
        let x = w[t - 15];
        let y = w[t - 2];
        let s0 = rotate(x, 7) ^ rotate(x, 18) ^ (x >> 3u32);
        let s1 = rotate(y, 17) ^ rotate(y, 19) ^ (y >> 10u32);
        let next = add32(add32(add32(w[t - 16], s0), w[t - 7]), s1);
        assert(next == schedule(block@, t as nat));
        w.push(next);
        t += 1;
    }
    w
}

/// One round.
fn step(s: State, k: u32, w: u32) -> (r: State)
    ensures
        r == round(s, k, w),
{
    let s1 = rotate(s.e, 6) ^ rotate(s.e, 11) ^ rotate(s.e, 25);
    let ch = (s.e & s.f) ^ (!s.e & s.g);
    let t1 = add32(add32(add32(add32(s.h, s1), ch), k), w);
    let s0 = rotate(s.a, 2) ^ rotate(s.a, 13) ^ rotate(s.a, 22);
    let mj = (s.a & s.b) ^ (s.a & s.c) ^ (s.b & s.c);
    let t2 = add32(s0, mj);
    State { a: add32(t1, t2), b: s.a, c: s.b, d: s.c, e: add32(s.d, t1), f: s.e, g: s.f, h: s.g }
}

/// The state after one more block.
fn absorb(s: State, block: &[u8]) -> (r: State)
    requires
        block@.len() == 64,
    ensures
        r == compress(s, block@),
{
    reveal(compress);
    let w = expand(block);
    let mut v = State { a: s.a, b: s.b, c: s.c, d: s.d, e: s.e, f: s.f, g: s.g, h: s.h };
    let mut t: usize = 0;
    while t < 64
        invariant
            t <= 64,
            w@.len() == 64,
            forall|i: int| 0 <= i < 64 ==> #[trigger] w@[i] == schedule(block@, i as nat),
            v == rounds(s, block@, t as nat),
        decreases 64 - t,
    {
        v = step(v, K[t], w[t]);
        t += 1;
    }
    State {
        a: add32(s.a, v.a),
        b: add32(s.b, v.b),
        c: add32(s.c, v.c),
        d: add32(s.d, v.d),
        e: add32(s.e, v.e),
        f: add32(s.f, v.f),
        g: add32(s.g, v.g),
        h: add32(s.h, v.h),
    }
}

fn push_length(out: &mut Vec<u8>, bits: u64)
    ensures
        final(out)@ == old(out)@ + be_bytes(bits as nat),
{
    reveal(be_bytes);
    out.push((bits / 0x100_0000_0000_0000) as u8);
    out.push((bits / 0x1_0000_0000_0000 % 0x100) as u8);
    out.push((bits / 0x100_0000_0000 % 0x100) as u8);
    out.push((bits / 0x1_0000_0000 % 0x100) as u8);
    out.push((bits / 0x100_0000 % 0x100) as u8);
    out.push((bits / 0x1_0000 % 0x100) as u8);
    out.push((bits / 0x100 % 0x100) as u8);
    out.push((bits % 0x100) as u8);
    assert(out@ =~= old(out)@ + be_bytes(bits as nat));
}

proof fn lemma_padding_arithmetic(n: int)
    requires
        n >= 0,
    ensures
        (n + 9 + (119 - n % 64) % 64) % 64 == 0,
{
    let q = n / 64;
    let r = n % 64;
    assert(n == 64 * q + r);
    if r < 56 {
        assert((119 - r) % 64 == 55 - r);
        assert(n + 9 + (55 - r) == 64 * (q + 1));
    } else {
        assert((119 - r) % 64 == 119 - r);
        assert(n + 9 + (119 - r) == 64 * (q + 2));
    }
}

/// A padded message is a whole number of blocks.
proof fn lemma_padded_len(message: Seq<u8>)
    ensures
        padded(message).len() % 64 == 0,
        padded(message).len() >= 64,
{
    reveal(padded);
    reveal(be_bytes);
    let n = message.len();
    assert(padded(message).len() == n + 1 + padding_zeros(n) + 8);
    lemma_padding_arithmetic(n as int);
}

/// The padded message.
fn pad(message: &[u8]) -> (r: Vec<u8>)
    ensures
        r@ == padded(message@),
        r@.len() % 64 == 0,
{
    let len: usize = message.len();
    let mut out: Vec<u8> = Vec::new();
    let mut i: usize = 0;
    while i < len
        invariant
            len == message@.len(),
            i <= len,
            out@ == message@.take(i as int),
        decreases len - i,
    {
        assert(message@.take(i + 1) =~= message@.take(i as int).push(message@[i as int]));
        out.push(message[i]);
        i += 1;
    }
    assert(message@.take(len as int) =~= message@);
    out.push(0x80);
    let zeros: usize = (119 - len % 64) % 64;
    let mut z: usize = 0;
    while z < zeros
        invariant
            z <= zeros,
            out@ == message@.push(0x80) + Seq::new(z as nat, |i: int| 0u8),
        decreases zeros - z,
    {
        out.push(0);
        z += 1;
        assert(out@ =~= message@.push(0x80) + Seq::new(z as nat, |i: int| 0u8));
    }
    let bits: u64 = len as u64 % 0x2000_0000_0000_0000 * 8;
    assert(bits == 8 * len % 0x1_0000_0000_0000_0000);
    push_length(&mut out, bits);
    proof {
        lemma_padded_len(message@);
        reveal(padded);
    }
    out
}

fn push_word(out: &mut Vec<u8>, w: u32)
    ensures
        final(out)@ == old(out)@ + word_bytes(w),
{
    reveal(word_bytes);
    out.push((w / 0x100_0000) as u8);
    out.push((w / 0x1_0000 % 0x100) as u8);
    out.push((w / 0x100 % 0x100) as u8);
    out.push((w % 0x100) as u8);
    assert(out@ =~= old(out)@ + word_bytes(w));
}

/// The SHA-256 digest of a message.
pub fn sha256(message: &[u8]) -> (r: Vec<u8>)
    ensures
        r@ == digest(message@),
        r@.len() == 32,
{
    let p = pad(message);
    let total: usize = p.len();
    let count: usize = total / 64;
    let mut s = State {
        a: 0x6a09e667,
        b: 0xbb67ae85,
        c: 0x3c6ef372,
        d: 0xa54ff53a,
        e: 0x510e527f,
        f: 0x9b05688c,
        g: 0x1f83d9ab,
        h: 0x5be0cd19,
    };
    let mut i: usize = 0;
    while i < count
        invariant
            p@ == padded(message@),
            total == p@.len(),
            count == total / 64,
            i <= count,
            s == blocks(p@, i as nat),
        decreases count - i,
    {
        let block = &p.as_slice()[64 * i..64 * i + 64];
        assert(block@ =~= p@.subrange(64 * i as int, 64 * (i + 1)));
        s = absorb(s, block);
        i += 1;
    }
    let mut out: Vec<u8> = Vec::new();
    push_word(&mut out, s.a);
    push_word(&mut out, s.b);
    push_word(&mut out, s.c);
    push_word(&mut out, s.d);
    push_word(&mut out, s.e);
    push_word(&mut out, s.f);
    push_word(&mut out, s.g);
    push_word(&mut out, s.h);
    assert(out@ =~= state_bytes(s));
    proof {
        law_digest_is_64_hex_digits(message@);
    }
    out
}

fn hex_char(d: u8) -> (r: char)
    requires
        d < 16,
    ensures
        r == hex_digit(d as int),
{
    if d < 10 {
        (48 + d) as char
    } else {
        (87 + d) as char
    }
}

/// The lower-case hexadecimal text of some bytes.
pub fn to_hex(bytes: &[u8]) -> (r: String)
    ensures
        r@ == hex(bytes@),
{
    let mut out = String::new();
    let mut i: usize = 0;
    while i < bytes.len()
        invariant
            i <= bytes@.len(),
            out@ == hex(bytes@.take(i as int)),
        decreases bytes@.len() - i,
    {
        assert(bytes@.take(i + 1).drop_last() =~= bytes@.take(i as int));
        out.push(hex_char(bytes[i] / 16));
        out.push(hex_char(bytes[i] % 16));
        i += 1;
    }
    assert(bytes@.take(bytes@.len() as int) =~= bytes@);
    out
}

/// The SHA-256 digest of a message, as 64 lower-case hexadecimal digits.
pub fn sha256_hex(bytes: &[u8]) -> (r: String)
    ensures
        r@ == hex(digest(bytes@)),
{
    let d = sha256(bytes);
    to_hex(d.as_slice())
}

/// Hexadecimal text has two characters for each byte, each of them one of `0`-`9` and `a`-`f`.
pub proof fn law_hex_shape(bytes: Seq<u8>)
    ensures
        hex(bytes).len() == 2 * bytes.len(),
        forall|i: int| 0 <= i < hex(bytes).len() ==> ('0' <= #[trigger] hex(bytes)[i] <= '9' || 'a' <= hex(bytes)[i] <= 'f'),
    decreases bytes.len(),
{
    if bytes.len() > 0 {
        law_hex_shape(bytes.drop_last());
    }
}

/// A digest has 32 bytes, so its hexadecimal text has 64 characters.
pub proof fn law_digest_is_64_hex_digits(message: Seq<u8>)
    ensures
        digest(message).len() == 32,
        hex(digest(message)).len() == 64,
        forall|i: int| 0 <= i < 64 ==> ('0' <= #[trigger] hex(digest(message))[i] <= '9' || 'a' <= hex(digest(message))[i] <= 'f'),
{
    reveal(word_bytes);
    law_hex_shape(digest(message));
}

/// Different bytes have different hexadecimal texts.
pub proof fn law_hex_tells_bytes_apart(a: Seq<u8>, b: Seq<u8>)
    requires
        hex(a) == hex(b),
    ensures
        a == b,
    decreases a.len(),
{
    law_hex_shape(a);
    law_hex_shape(b);
    if a.len() > 0 {
        let (s, t) = (hex(a), hex(b));
        assert(s.drop_last().drop_last() =~= hex(a.drop_last()));
        assert(t.drop_last().drop_last() =~= hex(b.drop_last()));
        law_hex_tells_bytes_apart(a.drop_last(), b.drop_last());
        assert(s[s.len() - 1] == hex_digit(a.last() as int % 16));
        assert(t[s.len() - 1] == hex_digit(b.last() as int % 16));
        assert(s[s.len() - 2] == hex_digit(a.last() as int / 16));
        assert(t[s.len() - 2] == hex_digit(b.last() as int / 16));
        assert(a.last() == b.last());
        assert(a =~= a.drop_last().push(a.last()));
        assert(b =~= b.drop_last().push(b.last()));
    } else {
        assert(a =~= b);
    }
}

} // verus!
