//! Text as a sequence of characters: equality, order, joining, decimal numbers.
use vstd::prelude::*;

verus! {

broadcast use vstd::string::group_string_axioms;

/// `String::push` appends one character to the end of the text.
pub assume_specification[ std::string::String::push ](s: &mut std::string::String, c: char)
    ensures
        final(s)@ == old(s)@.push(c),
;

/// The characters of each text of a list.
pub open spec fn texts(list: Seq<String>) -> Seq<Seq<char>> {
    Seq::new(list.len(), |i: int| list[i]@)
}

/// The order of texts: lexicographic by code point.
pub open spec fn leq(a: Seq<char>, b: Seq<char>) -> bool
    decreases a.len(),
{
    if a.len() == 0 {
        true
    } else if b.len() == 0 {
        false
    } else if a[0] == b[0] {
        leq(a.skip(1), b.skip(1))
    } else {
        a[0] < b[0]
    }
}

/// The texts of a list, one after the other, with `sep` between neighbours.
pub open spec fn joined(parts: Seq<Seq<char>>, sep: Seq<char>) -> Seq<char>
    decreases parts.len(),
{
    if parts.len() == 0 {
        Seq::empty()
    } else if parts.len() == 1 {
        parts[0]
    } else {
        joined(parts.drop_last(), sep) + sep + parts.last()
    }
}

/// Whether `needle` occurs in `hay` as a contiguous run.
pub open spec fn contains(hay: Seq<char>, needle: Seq<char>) -> bool {
    exists|i: int| 0 <= i <= hay.len() - needle.len() && #[trigger] hay.subrange(i, i + needle.len()) == needle
}

/// Whether `s` begins with `prefix`.
pub open spec fn starts_with(s: Seq<char>, prefix: Seq<char>) -> bool {
    s.len() >= prefix.len() && s.take(prefix.len() as int) == prefix
}

/// The character of one decimal digit.
pub open spec fn digit_char(d: nat) -> char {
    (48 + d) as char
}

/// The decimal digits of a natural number, without leading zeros.
pub open spec fn digits(n: nat) -> Seq<char>
    decreases n,
{
    if n < 10 {
        seq![digit_char(n)]
    } else {
        digits(n / 10).push(digit_char(n % 10))
    }
}

/// The decimal text of an integer.
pub open spec fn decimal(n: int) -> Seq<char> {
    if n < 0 {
        seq!['-'] + digits((-n) as nat)
    } else {
        digits(n as nat)
    }
}

/// Whether a text is made of decimal digits, at least one.
pub open spec fn all_digits(s: Seq<char>) -> bool {
    s.len() > 0 && forall|i: int| 0 <= i < s.len() ==> '0' <= #[trigger] s[i] <= '9'
}

/// The number that a run of decimal digits stands for.
pub open spec fn digits_value(s: Seq<char>) -> nat
    decreases s.len(),
{
    if s.len() == 0 {
        0
    } else {
        digits_value(s.drop_last()) * 10 + (s.last() as u32 - 48) as nat
    }
}

/// The integer that a text stands for: an optional sign, then decimal digits only.
pub open spec fn integer_value(s: Seq<char>) -> Option<int> {
    if s.len() > 0 && s[0] == '-' {
        if all_digits(s.skip(1)) {
            Some(-(digits_value(s.skip(1)) as int))
        } else {
            None
        }
    } else if s.len() > 0 && s[0] == '+' {
        if all_digits(s.skip(1)) {
            Some(digits_value(s.skip(1)) as int)
        } else {
            None
        }
    } else if all_digits(s) {
        Some(digits_value(s) as int)
    } else {
        None
    }
}

/// The signed 64-bit integer that a text stands for.
pub open spec fn parsed_i64(s: Seq<char>) -> Option<i64> {
    match integer_value(s) {
        Some(n) => if i64::MIN <= n <= i64::MAX {
            Some(n as i64)
        } else {
            None
        },
        None => None,
    }
}

/// The characters of a text.
pub fn chars_of(s: &str) -> (r: Vec<char>)
    ensures
        r@ == s@,
{
    let mut out: Vec<char> = Vec::new();
    for c in it: s.chars()
        invariant
            it.seq() == s@,
            out@ == s@.take(it.index()),
    {
        out.push(c);
        assert(s@.take(it.index() + 1) =~= s@.take(it.index()).push(c));
    }
    assert(s@.take(s@.len() as int) =~= s@);
    out
}

/// The text made of some characters.
pub fn text_of(chars: &[char]) -> (r: String)
    ensures
        r@ == chars@,
{
    let mut out = String::new();
    let mut i: usize = 0;
    while i < chars.len()
        invariant
            i <= chars@.len(),
            out@ == chars@.take(i as int),
        decreases chars@.len() - i,
    {
        assert(chars@.take(i + 1) =~= chars@.take(i as int).push(chars@[i as int]));
        out.push(chars[i]);
        i += 1;
    }
    assert(chars@.take(chars@.len() as int) =~= chars@);
    out
}

/// Copies of some texts.
pub fn copy_texts(list: &Vec<String>) -> (r: Vec<String>)
    ensures
        texts(r@) == texts(list@),
{
    let mut out: Vec<String> = Vec::new();
    let mut i: usize = 0;
    while i < list.len()
        invariant
            i <= list@.len(),
            out@.len() == i,
            forall|j: int| 0 <= j < i ==> (#[trigger] out@[j])@ == list@[j]@,
        decreases list@.len() - i,
    {
        out.push(list[i].clone());
        i += 1;
    }
    assert(texts(out@) =~= texts(list@));
    out
}

/// Whether two texts have the same characters.
pub fn same_text(a: &str, b: &str) -> (r: bool)
    ensures
        r == (a@ == b@),
{
    let x = a.as_bytes();
    let y = b.as_bytes();
    proof {
        vstd::utf8::encode_utf8_decode_utf8(a@);
        vstd::utf8::encode_utf8_decode_utf8(b@);
    }
    if x.len() != y.len() {
        return false;
    }
    let mut i: usize = 0;
    while i < x.len()
        invariant
            x@.len() == y@.len(),
            i <= x@.len(),
            x@ == vstd::utf8::encode_utf8(a@),
            y@ == vstd::utf8::encode_utf8(b@),
            forall|j: int| 0 <= j < i ==> x@[j] == y@[j],
        decreases x@.len() - i,
    {
        if x[i] != y[i] {
            return false;
        }
        i += 1;
    }
    assert(x@ =~= y@);
    true
}

/// Whether a text is one of a list.
pub fn has_text(list: &Vec<String>, s: &str) -> (r: bool)
    ensures
        r == texts(list@).contains(s@),
{
    let mut i: usize = 0;
    while i < list.len()
        invariant
            i <= list@.len(),
            forall|j: int| 0 <= j < i ==> (#[trigger] list@[j])@ != s@,
        decreases list@.len() - i,
    {
        if same_text(list[i].as_str(), s) {
            assert(texts(list@)[i as int] == s@);
            return true;
        }
        i += 1;
    }
    assert forall|j: int| 0 <= j < texts(list@).len() implies #[trigger] texts(list@)[j] != s@ by {
        assert(texts(list@)[j] == list@[j]@);
    }
    false
}

/// Whether `a` comes before `b`, or is `b`, in the order of texts.
pub fn text_leq(a: &str, b: &str) -> (r: bool)
    ensures
        r == leq(a@, b@),
{
    let x = chars_of(a);
    let y = chars_of(b);
    let mut i: usize = 0;
    assert(x@.skip(0) =~= x@);
    assert(y@.skip(0) =~= y@);
    while i < x.len() && i < y.len() && x[i] == y[i]
        invariant
            i <= x@.len(),
            i <= y@.len(),
            leq(x@, y@) == leq(x@.skip(i as int), y@.skip(i as int)),
        decreases x@.len() - i,
    {
        assert(x@.skip(i as int).skip(1) =~= x@.skip(i + 1));
        assert(y@.skip(i as int).skip(1) =~= y@.skip(i + 1));
        i += 1;
    }
    if i >= x.len() {
        true
    } else if i >= y.len() {
        false
    } else {
        x[i] < y[i]
    }
}

/// Joins the texts of a list with a separator.
pub fn join(parts: &Vec<String>, sep: &str) -> (r: String)
    ensures
        r@ == joined(texts(parts@), sep@),
{
    let mut out = String::new();
    let mut i: usize = 0;
    while i < parts.len()
        invariant
            i <= parts@.len(),
            out@ == joined(texts(parts@).take(i as int), sep@),
        decreases parts@.len() - i,
    {
        assert(texts(parts@).take(i + 1).drop_last() =~= texts(parts@).take(i as int));
        if i > 0 {
            out.append(sep);
        }
        out.append(parts[i].as_str());
        proof {
            if i == 0 {
                assert(out@ =~= parts@[0]@);
            }
        }
        i += 1;
    }
    assert(texts(parts@).take(parts@.len() as int) =~= texts(parts@));
    out
}

/// Whether `needle` occurs in `hay`.
pub fn contains_text(hay: &str, needle: &str) -> (r: bool)
    ensures
        r == contains(hay@, needle@),
{
    let h = chars_of(hay);
    let n = chars_of(needle);
    if n.len() > h.len() {
        return false;
    }
    let total: usize = h.len();
    let last: usize = total - n.len();
    let mut i: usize = 0;
    loop
        invariant
            h@ == hay@,
            n@ == needle@,
            total == h@.len(),
            last == total - n@.len(),
            i <= last,
            forall|j: int| 0 <= j < i ==> #[trigger] hay@.subrange(j, j + needle@.len()) != needle@,
        decreases last - i,
    {
        let mut k: usize = 0;
        while k < n.len() && h[i + k] == n[k]
            invariant
                i <= last,
                total == h@.len(),
                last == total - n@.len(),
                k <= n@.len(),
                forall|m: int| 0 <= m < k ==> h@[i + m] == n@[m],
            decreases n@.len() - k,
        {
            k += 1;
        }
        if k == n.len() {
            assert(hay@.subrange(i as int, i + needle@.len()) =~= needle@);
            return true;
        }
        assert(hay@.subrange(i as int, i + needle@.len())[k as int] != needle@[k as int]);
        if i == last {
            return false;
        }
        i += 1;
    }
}

/// Whether `s` begins with `prefix`.
pub fn has_prefix(s: &Vec<char>, prefix: &Vec<char>) -> (r: bool)
    ensures
        r == starts_with(s@, prefix@),
{
    if prefix.len() > s.len() {
        return false;
    }
    let mut i: usize = 0;
    while i < prefix.len()
        invariant
            i <= prefix@.len() <= s@.len(),
            forall|j: int| 0 <= j < i ==> s@[j] == prefix@[j],
        decreases prefix@.len() - i,
    {
        if s[i] != prefix[i] {
            assert(s@.take(prefix@.len() as int)[i as int] != prefix@[i as int]);
            return false;
        }
        i += 1;
    }
    assert(s@.take(prefix@.len() as int) =~= prefix@);
    true
}

/// The decimal text of an unsigned integer.
pub fn decimal_u64(n: u64) -> (r: String)
    ensures
        r@ == decimal(n as int),
    decreases n,
{
    let d: u8 = (n % 10) as u8;
    let c: char = (48u8 + d) as char;
    if n < 10 {
        let mut out = String::new();
        out.push(c);
        assert(out@ =~= seq![digit_char(n as nat)]);
        out
    } else {
        let mut out = decimal_u64(n / 10);
        out.push(c);
        out
    }
}

/// The decimal text of a signed integer.
pub fn decimal_i64(n: i64) -> (r: String)
    ensures
        r@ == decimal(n as int),
{
    if n < 0 {
        let magnitude: u64 = (-(n as i128)) as u64;
        let digits_text = decimal_u64(magnitude);
        let mut out = String::new();
        out.push('-');
        out.append(digits_text.as_str());
        assert(out@ =~= seq!['-'] + digits((-n) as nat));
        out
    } else {
        decimal_u64(n as u64)
    }
}

/// Dropping digits from the end of a run does not raise its value.
proof fn lemma_digits_value_monotone(s: Seq<char>, i: int)
    requires
        0 <= i <= s.len(),
        forall|j: int| 0 <= j < s.len() ==> '0' <= #[trigger] s[j] <= '9',
    ensures
        digits_value(s.take(i)) <= digits_value(s),
    decreases s.len(),
{
    if i == s.len() {
        assert(s.take(i) =~= s);
    } else {
        lemma_digits_value_monotone(s.drop_last(), i);
        assert(s.drop_last().take(i) =~= s.take(i));
    }
}

/// The signed 64-bit integer that a text stands for: `None` where the text is not an
/// optional sign followed by decimal digits, or the number does not fit.
pub fn parse_i64(s: &str) -> (r: Option<i64>)
    ensures
        r == parsed_i64(s@),
{
    let chars = chars_of(s);
    let mut start: usize = 0;
    let mut negative = false;
    if chars.len() > 0 && chars[0] == '-' {
        negative = true;
        start = 1;
    } else if chars.len() > 0 && chars[0] == '+' {
        start = 1;
    }
    let ghost run = chars@.skip(start as int);
    assert(chars@.skip(0) =~= chars@);
    if start >= chars.len() {
        return None;
    }
    let mut magnitude: u64 = 0;
    let mut i: usize = start;
    while i < chars.len()
        invariant
            start < chars@.len(),
            run == chars@.skip(start as int),
            start <= i <= chars@.len(),
            forall|j: int| 0 <= j < i - start ==> '0' <= #[trigger] run[j] <= '9',
            magnitude == digits_value(run.take(i - start)),
            magnitude <= 9223372036854775808,
            integer_value(s@) == (if all_digits(run) {
                Some(if negative { -(digits_value(run) as int) } else { digits_value(run) as int })
            } else {
                None
            }),
        decreases chars@.len() - i,
    {
        let c = chars[i];
        assert(run[i - start] == c);
        if c < '0' || c > '9' {
            return None;
        }
        let d: u64 = (c as u32 - 48) as u64;
        let next: u128 = magnitude as u128 * 10 + d as u128;
        assert(run.take(i + 1 - start).drop_last() =~= run.take(i - start));
        if next > 9223372036854775808 {
            proof {
                if all_digits(run) {
                    lemma_digits_value_monotone(run, i + 1 - start);
                }
            }
            return None;
        }
        magnitude = next as u64;
        i += 1;
    }
    assert(run.take(run.len() as int) =~= run);
    if negative {
        Some((-(magnitude as i128)) as i64)
    } else if magnitude == 9223372036854775808 {
        None
    } else {
        Some(magnitude as i64)
    }
}

/// The order of texts as a relation.
pub open spec fn order() -> spec_fn(Seq<char>, Seq<char>) -> bool {
    |a: Seq<char>, b: Seq<char>| leq(a, b)
}

proof fn lemma_leq_reflexive(a: Seq<char>)
    ensures
        leq(a, a),
    decreases a.len(),
{
    if a.len() > 0 {
        lemma_leq_reflexive(a.skip(1));
    }
}

proof fn lemma_leq_antisymmetric(a: Seq<char>, b: Seq<char>)
    requires
        leq(a, b),
        leq(b, a),
    ensures
        a == b,
    decreases a.len(),
{
    if a.len() > 0 && b.len() > 0 {
        lemma_leq_antisymmetric(a.skip(1), b.skip(1));
        assert(a =~= seq![a[0]] + a.skip(1));
        assert(b =~= seq![b[0]] + b.skip(1));
    } else {
        assert(a =~= b);
    }
}

proof fn lemma_leq_transitive(a: Seq<char>, b: Seq<char>, c: Seq<char>)
    requires
        leq(a, b),
        leq(b, c),
    ensures
        leq(a, c),
    decreases a.len(),
{
    if a.len() > 0 && b.len() > 0 && c.len() > 0 {
        if a[0] == b[0] && b[0] == c[0] {
            lemma_leq_transitive(a.skip(1), b.skip(1), c.skip(1));
        }
    }
}

proof fn lemma_leq_total(a: Seq<char>, b: Seq<char>)
    ensures
        leq(a, b) || leq(b, a),
    decreases a.len(),
{
    if a.len() > 0 && b.len() > 0 && a[0] == b[0] {
        lemma_leq_total(a.skip(1), b.skip(1));
    }
}

/// The order of texts is a total order.
pub proof fn lemma_order_is_total()
    ensures
        vstd::relations::total_ordering(order()),
{
    let r = order();
    assert forall|a: Seq<char>| #[trigger] r(a, a) by {
        lemma_leq_reflexive(a);
    }
    assert forall|a: Seq<char>, b: Seq<char>| #[trigger] r(a, b) && #[trigger] r(b, a) implies a == b by {
        lemma_leq_antisymmetric(a, b);
    }
    assert forall|a: Seq<char>, b: Seq<char>, c: Seq<char>| #[trigger] r(a, b) && #[trigger] r(b, c) implies r(a, c) by {
        lemma_leq_transitive(a, b, c);
    }
    assert forall|a: Seq<char>, b: Seq<char>| #[trigger] r(a, b) || #[trigger] r(b, a) by {
        lemma_leq_total(a, b);
    }
}

/// Reading the decimal digits of a natural number gives the number back.
pub proof fn lemma_digits_read_back(n: nat)
    ensures
        all_digits(digits(n)),
        digits_value(digits(n)) == n,
    decreases n,
{
    if n < 10 {
        reveal_with_fuel(digits_value, 2);
        assert(digits(n).drop_last() =~= Seq::<char>::empty());
    } else {
        lemma_digits_read_back(n / 10);
        assert(digits(n).drop_last() =~= digits(n / 10));
    }
}

/// Reading the decimal text of a signed 64-bit integer gives the integer back.
pub proof fn law_decimal_reads_back(n: i64)
    ensures
        parsed_i64(decimal(n as int)) == Some(n),
{
    if n < 0 {
        let d = digits((-n) as nat);
        lemma_digits_read_back((-n) as nat);
        assert((seq!['-'] + d).skip(1) =~= d);
    } else {
        lemma_digits_read_back(n as nat);
        assert('0' <= digits(n as nat)[0] <= '9');
    }
}

/// Two or more joined texts: the first, the separator, and the others joined.
pub proof fn lemma_joined_first(parts: Seq<Seq<char>>, sep: Seq<char>)
    requires
        parts.len() >= 2,
    ensures
        joined(parts, sep) == parts[0] + sep + joined(parts.skip(1), sep),
    decreases parts.len(),
{
    let rest = parts.skip(1);
    if parts.len() == 2 {
        assert(parts.drop_last()[0] == parts[0]);
        assert(joined(parts.drop_last(), sep) == parts[0]);
        assert(joined(rest, sep) == parts.last());
    } else {
        let front = parts.drop_last();
        lemma_joined_first(front, sep);
        assert(front.skip(1) =~= rest.drop_last());
        assert(joined(parts, sep) =~= parts[0] + sep + joined(rest, sep));
    }
}

/// Texts are ordered by the first character in which they differ, and a text stands before those
/// that go on behind it.
pub proof fn law_texts_are_ordered_by_code_points(a: Seq<char>, b: Seq<char>, k: int)
    requires
        0 <= k <= a.len(),
        k <= b.len(),
        forall|i: int| 0 <= i < k ==> #[trigger] a[i] == b[i],
    ensures
        k == a.len() ==> leq(a, b),
        k == b.len() && k < a.len() ==> !leq(a, b),
        k < a.len() && k < b.len() && a[k] != b[k] ==> leq(a, b) == (a[k] < b[k]),
    decreases k,
{
    if k > 0 {
        assert(a[0] == b[0]);
        let (s, t) = (a.skip(1), b.skip(1));
        assert forall|i: int| 0 <= i < k - 1 implies #[trigger] s[i] == t[i] by {
            assert(a[i + 1] == b[i + 1]);
        }
        law_texts_are_ordered_by_code_points(s, t, k - 1);
    }
}

/// Whether a text is the digits of a number in base ten, the last one that of the ones.
pub open spec fn writes(s: Seq<char>, n: nat) -> bool
    decreases s.len(),
{
    if s.len() == 0 {
        n == 0
    } else {
        &&& writes(s.drop_last(), n / 10)
        &&& s.last() == "0123456789"@[n as int % 10]
    }
}

proof fn lemma_digits_written(s: Seq<char>, n: nat)
    requires
        writes(s, n),
    ensures
        digits_value(s) == n,
        forall|i: int| 0 <= i < s.len() ==> '0' <= #[trigger] s[i] <= '9',
    decreases s.len(),
{
    reveal_strlit("0123456789");
    if s.len() > 0 {
        lemma_digits_written(s.drop_last(), n / 10);
        assert forall|i: int| 0 <= i < s.len() implies '0' <= #[trigger] s[i] <= '9' by {
            if i < s.len() - 1 {
                assert('0' <= s.drop_last()[i] <= '9');
            } else {
                assert(s[i] == s.last());
            }
        }
    }
}

/// An integer is read from its digits, with zeros in front or without, behind a sign or without one;
/// a number that does not fit is refused.
pub proof fn law_integers_are_read_from_their_digits(s: Seq<char>, n: nat)
    requires
        s.len() > 0,
        writes(s, n),
    ensures
        n <= i64::MAX ==> parsed_i64(s) == Some(n as i64) && parsed_i64(seq!['+'] + s) == Some(n as i64),
        n > i64::MAX ==> parsed_i64(s) is None && parsed_i64(seq!['+'] + s) is None,
        n <= -(i64::MIN as int) ==> parsed_i64(seq!['-'] + s) == Some((-n) as i64),
        n > -(i64::MIN as int) ==> parsed_i64(seq!['-'] + s) is None,
{
    lemma_digits_written(s, n);
    assert((seq!['+'] + s).skip(1) =~= s);
    assert((seq!['-'] + s).skip(1) =~= s);
    assert('0' <= s[0] <= '9');
}

/// A text with anything but digits behind its sign, or with nothing there, is no integer.
pub proof fn law_other_texts_are_no_integers(s: Seq<char>, i: int)
    ensures
        0 <= i < s.len() && !('0' <= s[i] <= '9') && !(i == 0 && (s[0] == '+' || s[0] == '-')) ==> parsed_i64(
            s,
        ) is None,
        s.len() == 0 ==> parsed_i64(s) is None,
        s.len() == 1 && !('0' <= s[0] <= '9') ==> parsed_i64(s) is None,
{
    if 0 < i < s.len() {
        assert(s.skip(1)[i - 1] == s[i]);
    }
}

proof fn lemma_digits_are_written(n: nat)
    ensures
        writes(digits(n), n),
        digits(n).len() > 0,
        n > 0 ==> digits(n)[0] != '0',
        n == 0 ==> digits(n).len() == 1,
    decreases n,
{
    reveal_strlit("0123456789");
    let d = digits(n);
    if n >= 10 {
        lemma_digits_are_written(n / 10);
        assert(d.drop_last() =~= digits(n / 10));
        assert(d[0] == digits(n / 10)[0]);
    } else {
        assert(d.drop_last() =~= Seq::empty());
        assert(writes(d.drop_last(), n / 10));
    }
}

/// An integer is written by its digits alone, without a zero in front, and behind a minus sign where
/// it is negative.
pub proof fn law_decimals_are_plain(n: nat)
    ensures
        writes(decimal(n as int), n),
        decimal(n as int).len() > 0,
        n > 0 ==> decimal(n as int)[0] != '0' && decimal(-(n as int)) == seq!['-'] + decimal(n as int),
        n == 0 ==> decimal(n as int).len() == 1,
{
    lemma_digits_are_written(n);
}

} // verus!
