//! JSON numbers: integers as they are, and doubles by the bits of their IEEE 754 encoding.
//!
//! Two numbers are compared as doubles. The order of finite doubles is the order of their
//! encodings read as sign and magnitude, so every comparison is one of integers.
use vstd::arithmetic::power2;
use vstd::prelude::*;

verus! {

/// A JSON number.
#[derive(Debug)]
pub enum Number {
    /// A number that is not negative and was written as an integer.
    PosInt(u64),
    /// A negative number that was written as an integer.
    NegInt(i64),
    /// Any other number: the encoding of the double nearest to it, which is finite, and the
    /// text that JSON has for it.
    Float { bits: u64, text: String },
}

/// The model of a JSON number.
pub enum NumberView {
    PosInt(u64),
    NegInt(i64),
    Float { bits: u64, text: Seq<char> },
}

impl View for Number {
    type V = NumberView;

    open spec fn view(&self) -> NumberView {
        match *self {
            Number::PosInt(n) => NumberView::PosInt(n),
            Number::NegInt(n) => NumberView::NegInt(n),
            Number::Float { bits, text } => NumberView::Float { bits, text: text@ },
        }
    }
}

/// The position of the highest bit that is set.
pub open spec fn top_bit(n: nat) -> nat
    decreases n,
{
    if n < 2 {
        0
    } else {
        1 + top_bit(n / 2)
    }
}

/// The 53 significant bits of the double nearest to `n`, whose highest bit is at `e`. Of two
/// doubles that are equally near, the even one is taken.
pub open spec fn significand(n: nat, e: nat) -> nat {
    if e <= 52 {
        n * power2::pow2((52 - e) as nat)
    } else {
        let unit = power2::pow2((e - 52) as nat);
        let q = n / unit;
        let r = n % unit;
        if 2 * r > unit || (2 * r == unit && q % 2 == 1) {
            q + 1
        } else {
            q
        }
    }
}

/// The encoding of the double nearest to `n`: the biased exponent, then the significand
/// without its highest bit. A significand that rounds up to 54 bits carries into the exponent.
pub open spec fn double_bits(n: nat) -> nat {
    if n == 0 {
        0
    } else {
        (top_bit(n) + 1022) * 0x10_0000_0000_0000 + significand(n, top_bit(n))
    }
}

/// The encoding of a double, read as sign and magnitude.
pub open spec fn signed_magnitude(bits: u64) -> int {
    if bits < 0x8000_0000_0000_0000 {
        bits as int
    } else {
        -(bits - 0x8000_0000_0000_0000)
    }
}

/// The place of a number in the order of doubles.
pub open spec fn order_key(n: NumberView) -> int {
    match n {
        NumberView::PosInt(n) => double_bits(n as nat) as int,
        NumberView::NegInt(n) => if n < 0 {
            -(double_bits((-n) as nat) as int)
        } else {
            double_bits(n as nat) as int
        },
        NumberView::Float { bits, .. } => signed_magnitude(bits),
    }
}

/// Whether two numbers are the same JSON number. An integer is never the same as a double.
pub open spec fn same_number(a: NumberView, b: NumberView) -> bool {
    match (a, b) {
        (NumberView::PosInt(x), NumberView::PosInt(y)) => x == y,
        (NumberView::NegInt(x), NumberView::NegInt(y)) => x == y,
        (NumberView::Float { bits: x, .. }, NumberView::Float { bits: y, .. }) => signed_magnitude(x)
            == signed_magnitude(y),
        _ => false,
    }
}

/// The number as a signed 64-bit integer, where it was written as an integer and fits.
pub open spec fn as_i64(n: NumberView) -> Option<i64> {
    match n {
        NumberView::PosInt(n) => if n <= i64::MAX {
            Some(n as i64)
        } else {
            None
        },
        NumberView::NegInt(n) => Some(n),
        NumberView::Float { .. } => None,
    }
}

/// The encoding of the number as a double.
pub open spec fn as_double(n: NumberView) -> u64 {
    match n {
        NumberView::PosInt(n) => double_bits(n as nat) as u64,
        NumberView::NegInt(n) => if n < 0 {
            (0x8000_0000_0000_0000 + double_bits((-n) as nat)) as u64
        } else {
            double_bits(n as nat) as u64
        },
        NumberView::Float { bits, .. } => bits,
    }
}

/// The powers of two around the highest bit.
proof fn lemma_top_bit(n: nat)
    requires
        n > 0,
    ensures
        power2::pow2(top_bit(n)) <= n < 2 * power2::pow2(top_bit(n)),
    decreases n,
{
    broadcast use power2::lemma_pow2_unfold;

    if n < 2 {
        power2::lemma2_to64();
    } else {
        lemma_top_bit(n / 2);
    }
}

/// The highest bit is at `e` when `n` lies between two powers of two.
proof fn lemma_top_bit_is(n: nat, e: nat)
    requires
        power2::pow2(e) <= n < 2 * power2::pow2(e),
    ensures
        top_bit(n) == e,
    decreases e,
{
    broadcast use power2::lemma_pow2_unfold;

    power2::lemma2_to64();
    if e > 0 {
        power2::lemma_pow2_pos((e - 1) as nat);
        assert(power2::pow2(e) == 2 * power2::pow2((e - 1) as nat));
        lemma_top_bit_is(n / 2, (e - 1) as nat);
    }
}

/// A significand has 53 bits, or is the power of two above them.
proof fn lemma_significand_range(n: nat, e: nat)
    requires
        power2::pow2(e) <= n < 2 * power2::pow2(e),
    ensures
        0x10_0000_0000_0000 <= significand(n, e) <= 0x20_0000_0000_0000,
        e <= 52 ==> significand(n, e) < 0x20_0000_0000_0000,
{
    power2::lemma2_to64();
    power2::lemma2_to64_rest();
    if e <= 52 {
        let k = (52 - e) as nat;
        power2::lemma_pow2_adds(e, k);
        power2::lemma_pow2_pos(k);
        let p = power2::pow2(k);
        let b = power2::pow2(e);
        assert(b * p <= n * p && n * p < 2 * b * p && 2 * b * p == 2 * (b * p)) by (nonlinear_arith)
            requires
                b <= n,
                n < 2 * b,
                p > 0,
        ;
    } else {
        let k = (e - 52) as nat;
        power2::lemma_pow2_adds(52, k);
        power2::lemma_pow2_pos(k);
        let unit = power2::pow2(k);
        let b = power2::pow2(52);
        let q = n / unit;
        assert(b <= q < 2 * b) by (nonlinear_arith)
            requires
                unit > 0,
                b * unit <= n,
                n < 2 * (b * unit),
                q == n / unit,
        ;
    }
}

/// The encoding of a 64-bit integer leaves the sign bit clear.
proof fn lemma_double_bits_fit(n: nat)
    requires
        n < 0x1_0000_0000_0000_0000,
    ensures
        double_bits(n) < 0x8000_0000_0000_0000,
{
    if n > 0 {
        lemma_top_bit(n);
        let e = top_bit(n);
        if e >= 64 {
            power2::lemma2_to64_rest();
            if e > 64 {
                power2::lemma_pow2_strictly_increases(64, e);
            }
        }
        lemma_significand_range(n, e);
    }
}

/// The encoding of the double nearest to an integer.
fn nearest_double(n: u64) -> (r: u64)
    ensures
        r == double_bits(n as nat),
        r < 0x8000_0000_0000_0000,
{
    proof {
        power2::lemma2_to64();
        power2::lemma2_to64_rest();
    }
    if n == 0 {
        return 0;
    }
    let mut e: u64 = 0;
    let mut p: u64 = 1;
    while n / 2 >= p
        invariant
            n > 0,
            p == power2::pow2(e as nat),
            0 < p <= n,
            e < 64,
        decreases n - p,
    {
        proof {
            power2::lemma_pow2_unfold((e + 1) as nat);
            if e >= 63 {
                power2::lemma2_to64_rest();
            }
        }
        p = p * 2;
        e = e + 1;
    }
    proof {
        lemma_top_bit_is(n as nat, e as nat);
        lemma_significand_range(n as nat, e as nat);
        lemma_double_bits_fit(n as nat);
    }
    let m: u64;
    if e <= 52 {
        let scale: u64 = 0x10_0000_0000_0000 / p;
        proof {
            let k = (52 - e) as nat;
            power2::lemma_pow2_adds(e as nat, k);
            power2::lemma_pow2_pos(e as nat);
            let s = power2::pow2(k);
            assert(0x10_0000_0000_0000int / (p as int) == s) by (nonlinear_arith)
                requires
                    p > 0,
                    p * s == 0x10_0000_0000_0000,
            ;
        }
        m = n * scale;
    } else {
        let unit: u64 = p / 0x10_0000_0000_0000;
        proof {
            let k = (e - 52) as nat;
            power2::lemma_pow2_adds(52, k);
            power2::lemma_pow2_pos(k);
            let u = power2::pow2(k);
            assert(p == 0x10_0000_0000_0000 * u);
            assert(p / 0x10_0000_0000_0000 == u);
        }
        let q: u64 = n / unit;
        let r: u64 = n % unit;
        if r > unit - r || (r == unit - r && q % 2 == 1) {
            m = q + 1;
        } else {
            m = q;
        }
    }
    (e + 1022) * 0x10_0000_0000_0000 + m
}

impl Number {
    /// The place of the number in the order of doubles.
    pub fn order_key(&self) -> (r: i64)
        ensures
            r == order_key(self@),
    {
        match self {
            Number::PosInt(n) => nearest_double(*n) as i64,
            Number::NegInt(n) => if *n < 0 {
                let magnitude: u64 = (-(*n as i128)) as u64;
                -(nearest_double(magnitude) as i64)
            } else {
                nearest_double(*n as u64) as i64
            },
            Number::Float { bits, text: _ } => if *bits < 0x8000_0000_0000_0000 {
                *bits as i64
            } else {
                -((*bits - 0x8000_0000_0000_0000) as i64)
            },
        }
    }

    /// Whether this is the same number as another.
    pub fn same(&self, other: &Number) -> (r: bool)
        ensures
            r == same_number(self@, other@),
    {
        match (self, other) {
            (Number::PosInt(x), Number::PosInt(y)) => *x == *y,
            (Number::NegInt(x), Number::NegInt(y)) => *x == *y,
            (Number::Float { .. }, Number::Float { .. }) => self.order_key() == other.order_key(),
            _ => false,
        }
    }

    /// The number as a signed 64-bit integer, where it was written as an integer and fits.
    pub fn as_i64(&self) -> (r: Option<i64>)
        ensures
            r == as_i64(self@),
    {
        match self {
            Number::PosInt(n) => if *n <= 0x7fff_ffff_ffff_ffff {
                Some(*n as i64)
            } else {
                None
            },
            Number::NegInt(n) => Some(*n),
            Number::Float { .. } => None,
        }
    }

    /// The encoding of the number as a double.
    pub fn as_double(&self) -> (r: u64)
        ensures
            r == as_double(self@),
    {
        match self {
            Number::PosInt(n) => nearest_double(*n),
            Number::NegInt(n) => if *n < 0 {
                let magnitude: u64 = (-(*n as i128)) as u64;
                0x8000_0000_0000_0000 + nearest_double(magnitude)
            } else {
                nearest_double(*n as u64)
            },
            Number::Float { bits, text: _ } => *bits,
        }
    }
}

impl Clone for Number {
    fn clone(&self) -> (r: Number)
        ensures
            r@ == self@,
    {
        match self {
            Number::PosInt(n) => Number::PosInt(*n),
            Number::NegInt(n) => Number::NegInt(*n),
            Number::Float { bits, text } => Number::Float { bits: *bits, text: text.clone() },
        }
    }
}

/// Rounding keeps the order of two numbers with the same highest bit.
proof fn lemma_significand_monotone(a: nat, b: nat, e: nat)
    requires
        power2::pow2(e) <= a <= b < 2 * power2::pow2(e),
    ensures
        significand(a, e) <= significand(b, e),
        e <= 52 && a < b ==> significand(a, e) < significand(b, e),
{
    if e <= 52 {
        let p = power2::pow2((52 - e) as nat);
        power2::lemma_pow2_pos((52 - e) as nat);
        assert(a * p <= b * p && (a < b ==> a * p < b * p)) by (nonlinear_arith)
            requires
                a <= b,
                p > 0,
        ;
    } else {
        let unit = power2::pow2((e - 52) as nat);
        power2::lemma_pow2_pos((e - 52) as nat);
        let (qa, ra) = (a / unit, a % unit);
        let (qb, rb) = (b / unit, b % unit);
        assert(qa <= qb && (qa == qb ==> ra <= rb)) by (nonlinear_arith)
            requires
                a <= b,
                unit > 0,
                qa == a / unit,
                ra == a % unit,
                qb == b / unit,
                rb == b % unit,
        ;
    }
}

/// Rounding to doubles keeps the order of natural numbers.
proof fn lemma_double_bits_monotone(a: nat, b: nat)
    requires
        a <= b,
    ensures
        double_bits(a) <= double_bits(b),
        a < b <= 0x20_0000_0000_0000 ==> double_bits(a) < double_bits(b),
{
    power2::lemma2_to64();
    power2::lemma2_to64_rest();
    if b > 0 {
        lemma_top_bit(b);
        lemma_significand_range(b, top_bit(b));
    }
    if a > 0 {
        let ea = top_bit(a);
        let eb = top_bit(b);
        lemma_top_bit(a);
        lemma_significand_range(a, ea);
        if ea > eb {
            power2::lemma_pow2_strictly_increases(eb, ea);
            power2::lemma_pow2_unfold((eb + 1) as nat);
            if ea > eb + 1 {
                power2::lemma_pow2_strictly_increases((eb + 1) as nat, ea);
            }
        }
        if b <= 0x20_0000_0000_0000 && eb > 53 {
            power2::lemma_pow2_strictly_increases(53, eb);
        }
        if ea == eb {
            lemma_significand_monotone(a, b, ea);
        }
    }
}

/// Rounding never turns the order of two integers round, and integers of up to 53 bits, and the
/// next one, are ordered exactly as integers.
pub proof fn law_integers_keep_their_order(a: i64, b: i64)
    requires
        a <= b,
    ensures
        order_key(integer(a)) <= order_key(integer(b)),
        -0x20_0000_0000_0000 <= a && a < b && b <= 0x20_0000_0000_0000 ==> order_key(integer(a)) < order_key(
            integer(b),
        ),
{
    if a >= 0 {
        lemma_double_bits_monotone(a as nat, b as nat);
    } else if b < 0 {
        lemma_double_bits_monotone((-b) as nat, (-a) as nat);
    } else {
        lemma_double_bits_monotone(0, (-a) as nat);
        lemma_double_bits_monotone(0, b as nat);
    }
}

/// The JSON number of an integer.
pub open spec fn integer(n: i64) -> NumberView {
    if n < 0 {
        NumberView::NegInt(n)
    } else {
        NumberView::PosInt(n as u64)
    }
}

/// The value of the encoding of a double that is not below one, in units of two to the power of -52.
pub open spec fn scaled_value(bits: nat) -> nat {
    let exponent = bits / 0x10_0000_0000_0000;
    let fraction = bits % 0x10_0000_0000_0000;
    (fraction + 0x10_0000_0000_0000) * power2::pow2((exponent - 1023) as nat)
}

proof fn lemma_scaled_value(n: nat)
    requires
        n > 0,
    ensures
        scaled_value(double_bits(n)) == significand(n, top_bit(n)) * power2::pow2(top_bit(n)),
{
    let e = top_bit(n);
    lemma_top_bit(n);
    lemma_significand_range(n, e);
    let m = significand(n, e);
    let unit: nat = 0x10_0000_0000_0000;
    let bits = double_bits(n);
    assert(bits == (e + 1022) * unit + m);
    if m < 0x20_0000_0000_0000 {
        assert(bits / unit == e + 1023 && bits % unit == m - unit) by (nonlinear_arith)
            requires
                bits == (e + 1022) * unit + m,
                unit == 0x10_0000_0000_0000,
                unit <= m,
                m < 2 * unit,
        ;
    } else {
        assert(bits / unit == e + 1024 && bits % unit == 0) by (nonlinear_arith)
            requires
                bits == (e + 1022) * unit + m,
                unit == 0x10_0000_0000_0000,
                m == 2 * unit,
        ;
        power2::lemma_pow2_unfold((e + 1) as nat);
        let p = power2::pow2(e);
        assert(unit * (2 * p) == (2 * unit) * p) by (nonlinear_arith);
    }
}

/// An integer is rounded to the nearest double: the error is at most half of the distance between
/// two doubles around it, where it is half of it the encoding is even, and an integer of up to 53
/// bits is kept as it is.
pub proof fn law_integers_are_rounded_to_the_nearest(n: nat)
    requires
        n > 0,
    ensures
        ({
            let exact = n * 0x10_0000_0000_0000;
            let kept = scaled_value(double_bits(n));
            let step = power2::pow2(top_bit(n));
            &&& 2 * (kept - exact) <= step
            &&& 2 * (exact - kept) <= step
            &&& top_bit(n) > 52 && (2 * (kept - exact) == step || 2 * (exact - kept) == step) ==> double_bits(n) % 2
                == 0
            &&& n < 0x20_0000_0000_0000 ==> kept == exact
        }),
{
    let e = top_bit(n);
    lemma_scaled_value(n);
    lemma_top_bit(n);
    power2::lemma2_to64();
    power2::lemma2_to64_rest();
    power2::lemma_pow2_pos(e);
    let unit: nat = 0x10_0000_0000_0000;
    let step = power2::pow2(e);
    let m = significand(n, e);
    if n < 0x20_0000_0000_0000 && e > 52 {
        power2::lemma_pow2_strictly_increases(52, e);
        if e > 53 {
            power2::lemma_pow2_strictly_increases(53, e);
        }
        assert(power2::pow2(53) == 0x20_0000_0000_0000);
    }
    if e <= 52 {
        let k = (52 - e) as nat;
        power2::lemma_pow2_adds(k, e);
        let p = power2::pow2(k);
        assert((n * p) * step == n * (p * step)) by (nonlinear_arith);
    } else {
        let k = (e - 52) as nat;
        power2::lemma_pow2_adds(k, 52);
        power2::lemma_pow2_pos(k);
        let u = power2::pow2(k);
        let (q, r) = (n / u, n % u);
        assert(step == u * unit);
        assert(n == q * u + r && r < u) by (nonlinear_arith)
            requires
                u > 0,
                q == n / u,
                r == n % u,
        ;
        assert(n * unit == q * (u * unit) + r * unit) by (nonlinear_arith)
            requires
                n == q * u + r,
        ;
        assert((q + 1) * step == q * step + step) by (nonlinear_arith);
        assert(2 * r > u ==> 2 * (step - r * unit) <= step) by (nonlinear_arith)
            requires
                step == u * unit,
                unit > 0,
        ;
        assert(2 * r <= u ==> 2 * (r * unit) <= step) by (nonlinear_arith)
            requires
                step == u * unit,
                unit > 0,
        ;
        assert(2 * r == u ==> 2 * (r * unit) == step) by (nonlinear_arith)
            requires
                step == u * unit,
        ;
        assert(2 * (r * unit) == step || 2 * (step - r * unit) == step ==> 2 * r == u) by (nonlinear_arith)
            requires
                step == u * unit,
                unit > 0,
        ;
        let bits = double_bits(n);
        assert(bits == (e + 1022) * unit + m);
        assert(m % 2 == 0 ==> bits % 2 == 0) by (nonlinear_arith)
            requires
                bits == (e + 1022) * unit + m,
                unit == 0x10_0000_0000_0000,
        ;
    }
}

/// An integer that fits is read back from its number, and its double has its sign.
pub proof fn law_integers_read_back(n: i64)
    ensures
        as_i64(integer(n)) == Some(n),
        (as_double(integer(n)) >= 0x8000_0000_0000_0000) == (n < 0),
        signed_magnitude(as_double(integer(n))) == order_key(integer(n)),
{
    if n < 0 {
        lemma_double_bits_fit((-n) as nat);
    } else {
        lemma_double_bits_fit(n as nat);
    }
}

/// The value of the encoding of a double without its sign, in units of the smallest double.
pub open spec fn magnitude(bits: nat) -> nat {
    let exponent = bits / 0x10_0000_0000_0000;
    let fraction = bits % 0x10_0000_0000_0000;
    if exponent == 0 {
        fraction
    } else {
        (fraction + 0x10_0000_0000_0000) * power2::pow2((exponent - 1) as nat)
    }
}

/// The value of the encoding of a double, in units of the smallest double.
pub open spec fn value(bits: u64) -> int {
    if bits < 0x8000_0000_0000_0000 {
        magnitude(bits as nat) as int
    } else {
        -(magnitude((bits - 0x8000_0000_0000_0000) as nat) as int)
    }
}

proof fn lemma_magnitude_monotone(a: nat, b: nat)
    requires
        a < b,
    ensures
        magnitude(a) < magnitude(b),
{
    let unit: nat = 0x10_0000_0000_0000;
    let (e, f) = (a / unit, a % unit);
    let (g, h) = (b / unit, b % unit);
    assert(e <= g && (e == g ==> f < h) && f < unit);
    power2::lemma2_to64();
    if g > 0 {
        let q = power2::pow2((g - 1) as nat);
        power2::lemma_pow2_pos((g - 1) as nat);
        if e == g {
            assert((f + unit) * q < (h + unit) * q) by (nonlinear_arith)
                requires
                    f < h,
                    q > 0,
            ;
        } else {
            assert(unit * q <= (h + unit) * q) by (nonlinear_arith);
            if e == 0 {
                assert(unit <= unit * q) by (nonlinear_arith)
                    requires
                        q > 0,
                ;
            } else {
                let p = power2::pow2((e - 1) as nat);
                power2::lemma_pow2_pos((e - 1) as nat);
                power2::lemma_pow2_unfold(e);
                if e < g - 1 {
                    power2::lemma_pow2_strictly_increases(e, (g - 1) as nat);
                }
                assert(2 * p <= q);
                assert((f + unit) * p < unit * q) by (nonlinear_arith)
                    requires
                        f < unit,
                        p > 0,
                        2 * p <= q,
                ;
            }
        }
    }
}

/// Doubles are ordered by their values, and two of them are the same number where their values are
/// equal: zero is the same with either sign.
pub proof fn law_doubles_are_ordered_by_value(a: u64, b: u64, s: Seq<char>, t: Seq<char>)
    ensures
        ({
            let (x, y) = (NumberView::Float { bits: a, text: s }, NumberView::Float { bits: b, text: t });
            &&& order_key(x) < order_key(y) <==> value(a) < value(b)
            &&& same_number(x, y) <==> value(a) == value(b)
        }),
{
    let half: u64 = 0x8000_0000_0000_0000;
    let (m, n) = (
        if a < half { a as nat } else { (a - half) as nat },
        if b < half { b as nat } else { (b - half) as nat },
    );
    if m < n {
        lemma_magnitude_monotone(m, n);
    }
    if n < m {
        lemma_magnitude_monotone(n, m);
    }
    if m > 0 {
        lemma_magnitude_monotone(0, m);
    }
    if n > 0 {
        lemma_magnitude_monotone(0, n);
    }
    assert(magnitude(0) == 0);
}

/// A number bound as a double keeps its place in the order of numbers.
pub proof fn law_doubles_keep_the_order(n: NumberView)
    ensures
        signed_magnitude(as_double(n)) == order_key(n),
{
    match n {
        NumberView::PosInt(i) => lemma_double_bits_fit(i as nat),
        NumberView::NegInt(i) => lemma_double_bits_fit(
            if i < 0 {
                (-i) as nat
            } else {
                i as nat
            },
        ),
        _ => {},
    }
}

/// A number is an integer that fits exactly where it was written as one and is in range, and then it
/// is the one that was written.
pub proof fn law_only_integers_that_fit_are_integers(n: NumberView)
    ensures
        as_i64(n) matches Some(i) ==> match n {
            NumberView::PosInt(k) => i == k,
            NumberView::NegInt(k) => i == k,
            NumberView::Float { .. } => false,
        },
        as_i64(n) is None ==> match n {
            NumberView::PosInt(k) => k > i64::MAX,
            NumberView::NegInt(_) => false,
            NumberView::Float { .. } => true,
        },
{
}

/// A number that was written as an integer is never the same as one that was not, and integers are the
/// same where they are equal.
pub proof fn law_kinds_of_numbers_are_kept_apart(a: NumberView, b: NumberView)
    ensures
        a is Float != b is Float ==> !same_number(a, b),
        a is PosInt && b is NegInt ==> !same_number(a, b),
        a is NegInt && b is PosInt ==> !same_number(a, b),
        !(a is Float) && !(b is Float) ==> (same_number(a, b) <==> a == b),
{
}

} // verus!
