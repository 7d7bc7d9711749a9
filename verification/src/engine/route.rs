//! Request paths and query strings.
use vstd::prelude::*;
use vstd::hash_map::StringHashMap;
use crate::text;

verus! {

broadcast use vstd::hash_map::group_hash_map_axioms;

/// What a request asks for: a shape by name, values for its parameters, and where the client is.
#[derive(Debug)]
pub struct Route {
    pub name: String,
    pub params: Vec<String>,
    pub offset: i64,
    pub live: bool,
    pub log_id: Option<String>,
    pub shape_handle: Option<String>,
}

/// The model of a route.
pub struct RouteView {
    pub name: Seq<char>,
    pub params: Seq<Seq<char>>,
    pub offset: i64,
    pub live: bool,
    pub log_id: Option<Seq<char>>,
    pub shape_handle: Option<Seq<char>>,
}

impl View for Route {
    type V = RouteView;

    open spec fn view(&self) -> RouteView {
        RouteView {
            name: self.name@,
            params: text::texts(self.params@),
            offset: self.offset,
            live: self.live,
            log_id: option_string(self.log_id),
            shape_handle: option_string(self.shape_handle),
        }
    }
}

/// The model of a text that may be missing.
pub open spec fn option_string(s: Option<String>) -> Option<Seq<char>> {
    match s {
        Some(s) => Some(s@),
        None => None,
    }
}

/// The model of a map from texts to texts.
pub open spec fn text_map(m: Map<Seq<char>, String>) -> Map<Seq<char>, Seq<char>> {
    m.map_values(|s: String| s@)
}

/// The value of a key in a map.
pub open spec fn entry(m: Map<Seq<char>, Seq<char>>, key: Seq<char>) -> Option<Seq<char>> {
    if m.contains_key(key) {
        Some(m[key])
    } else {
        None
    }
}

/// A text cut at every occurrence of a character.
pub open spec fn pieces(s: Seq<char>, sep: char) -> Seq<Seq<char>>
    decreases s.len(),
{
    if s.len() == 0 {
        seq![Seq::empty()]
    } else {
        let front = pieces(s.drop_last(), sep);
        if s.last() == sep {
            front.push(Seq::empty())
        } else {
            front.drop_last().push(front.last().push(s.last()))
        }
    }
}

/// The pieces that are not empty.
pub open spec fn non_empty(list: Seq<Seq<char>>) -> Seq<Seq<char>>
    decreases list.len(),
{
    if list.len() == 0 {
        Seq::empty()
    } else if list.last().len() == 0 {
        non_empty(list.drop_last())
    } else {
        non_empty(list.drop_last()).push(list.last())
    }
}

/// A text without the occurrences of a character at its start.
pub open spec fn trimmed(s: Seq<char>, c: char) -> Seq<char>
    decreases s.len(),
{
    if s.len() > 0 && s[0] == c {
        trimmed(s.skip(1), c)
    } else {
        s
    }
}

/// What stands before the first equals sign of a text.
pub open spec fn before_equals(s: Seq<char>) -> Seq<char>
    decreases s.len(),
{
    if s.len() == 0 || s[0] == '=' {
        Seq::empty()
    } else {
        seq![s[0]] + before_equals(s.skip(1))
    }
}

/// What stands behind the first equals sign of a text: nothing where there is none.
pub open spec fn behind_equals(s: Seq<char>) -> Seq<char>
    decreases s.len(),
{
    if s.len() == 0 {
        Seq::empty()
    } else if s[0] == '=' {
        s.skip(1)
    } else {
        behind_equals(s.skip(1))
    }
}

/// The value of a hexadecimal digit: zero for every other byte.
pub open spec fn hex_value(b: u8) -> int {
    if 48 <= b <= 57 {
        b - 48
    } else if 97 <= b <= 102 {
        b - 87
    } else if 65 <= b <= 70 {
        b - 55
    } else {
        0
    }
}

/// The bytes that an encoded value stands for: a plus sign is a space, and a percent sign with two
/// more bytes behind it is the byte that they give in hexadecimal.
pub open spec fn decoded(s: Seq<u8>) -> Seq<u8>
    decreases s.len(),
{
    if s.len() == 0 {
        Seq::empty()
    } else if s[0] == 43 {
        seq![32u8] + decoded(s.skip(1))
    } else if s[0] == 37 && s.len() > 2 {
        seq![(16 * hex_value(s[1]) + hex_value(s[2])) as u8] + decoded(s.skip(3))
    } else {
        seq![s[0]] + decoded(s.skip(1))
    }
}

/// The text of some bytes: empty where they are no UTF-8.
pub open spec fn utf8_or_empty(bytes: Seq<u8>) -> Seq<char> {
    if vstd::utf8::valid_utf8(bytes) {
        vstd::utf8::decode_utf8(bytes)
    } else {
        Seq::empty()
    }
}

/// The text that an encoded value stands for.
pub open spec fn url_decoded(s: Seq<char>) -> Seq<char> {
    utf8_or_empty(decoded(vstd::utf8::encode_utf8(s)))
}

/// The values by name that some pairs give: the last one of each name counts, and a pair without a
/// name does not.
pub open spec fn pairs_map(pairs: Seq<Seq<char>>) -> Map<Seq<char>, Seq<char>>
    decreases pairs.len(),
{
    if pairs.len() == 0 {
        Map::empty()
    } else {
        let front = pairs_map(pairs.drop_last());
        let name = before_equals(pairs.last());
        if name.len() == 0 {
            front
        } else {
            front.insert(name, url_decoded(behind_equals(pairs.last())))
        }
    }
}

/// The values by name of a query string.
pub open spec fn query_map(query: Seq<char>) -> Map<Seq<char>, Seq<char>> {
    pairs_map(pieces(trimmed(query, '?'), '&'))
}

/// The position that a query asks for: before the log where it gives none, or no number.
pub open spec fn query_offset(q: Map<Seq<char>, Seq<char>>) -> i64 {
    match entry(q, "offset"@) {
        Some(s) => match text::parsed_i64(s) {
            Some(n) => n,
            None => -1i64,
        },
        None => -1i64,
    }
}

/// The names in a path behind a prefix and a slash.
pub open spec fn path_parts(prefix: Seq<char>, path: Seq<char>) -> Seq<Seq<char>> {
    non_empty(pieces(path.skip(prefix.len() as int + 1), '/'))
}

/// What a path and a query string ask for: nothing where the path lacks the prefix or a name
/// behind it.
pub open spec fn routed(prefix: Seq<char>, path: Seq<char>, query: Seq<char>) -> Option<RouteView> {
    let parts = path_parts(prefix, path);
    let q = query_map(query);
    if text::starts_with(path, prefix + "/"@) && parts.len() > 0 {
        Some(
            RouteView {
                name: parts[0],
                params: parts.skip(1),
                offset: query_offset(q),
                live: entry(q, "live"@) == Some("true"@),
                log_id: entry(q, "log_id"@),
                shape_handle: entry(q, "shape_handle"@),
            },
        )
    } else {
        None
    }
}

/// The model of a route that may be missing.
pub open spec fn option_route(r: Option<Route>) -> Option<RouteView> {
    match r {
        Some(r) => Some(r@),
        None => None,
    }
}

/// The text of some bytes, by `String::from_utf8`, which fails where they are no UTF-8.
#[verifier::external_body]
pub(crate) fn utf8_text(bytes: Vec<u8>) -> (r: Option<String>)
    ensures
        r is Some <==> vstd::utf8::valid_utf8(bytes@),
        r matches Some(s) ==> s@ == vstd::utf8::decode_utf8(bytes@),
{
    String::from_utf8(bytes).ok()
}

fn hex_digit_value(b: u8) -> (r: u8)
    ensures
        r == hex_value(b),
        r < 16,
{
    if 48 <= b && b <= 57 {
        b - 48
    } else if 97 <= b && b <= 102 {
        b - 87
    } else if 65 <= b && b <= 70 {
        b - 55
    } else {
        0
    }
}

/// The text that an encoded value stands for.
pub fn url_decode(s: &str) -> (r: String)
    ensures
        r@ == url_decoded(s@),
{
    let bytes = s.as_bytes();
    let n: usize = bytes.len();
    let mut out: Vec<u8> = Vec::new();
    let mut i: usize = 0;
    assert(out@ + decoded(bytes@.skip(0)) =~= decoded(bytes@)) by {
        assert(bytes@.skip(0) =~= bytes@);
    }
    while i < n
        invariant
            n == bytes@.len(),
            i <= n,
            out@ + decoded(bytes@.skip(i as int)) == decoded(bytes@),
        decreases n - i,
    {
        let ghost rest = bytes@.skip(i as int);
        let ghost before = out@;
        assert(rest[0] == bytes@[i as int]);
        assert(rest.skip(1) =~= bytes@.skip(i + 1));
        let b: u8 = bytes[i];
        if b == 43 {
            out.push(32);
            i += 1;
            assert(out@ + decoded(rest.skip(1)) =~= before + decoded(rest));
        } else if b == 37 && n - i > 2 {
            assert(rest[1] == bytes@[i + 1] && rest[2] == bytes@[i + 2]);
            assert(rest.skip(3) =~= bytes@.skip(i + 3));
            let hi: u8 = hex_digit_value(bytes[i + 1]);
            let lo: u8 = hex_digit_value(bytes[i + 2]);
            out.push(hi * 16 + lo);
            i += 3;
            assert(out@ + decoded(rest.skip(3)) =~= before + decoded(rest));
        } else {
            out.push(b);
            i += 1;
            assert(out@ + decoded(rest.skip(1)) =~= before + decoded(rest));
        }
    }
    assert(bytes@.skip(n as int) =~= Seq::empty());
    assert(out@ =~= decoded(bytes@));
    match utf8_text(out) {
        Some(s) => s,
        None => String::new(),
    }
}

/// Cuts a text at every occurrence of a character.
pub fn split(chars: &[char], sep: char) -> (r: Vec<String>)
    ensures
        text::texts(r@) == pieces(chars@, sep),
{
    let mut out: Vec<String> = Vec::new();
    let mut current = String::new();
    let mut i: usize = 0;
    assert(text::texts(out@).push(current@) =~= pieces(chars@.take(0), sep));
    while i < chars.len()
        invariant
            i <= chars@.len(),
            text::texts(out@).push(current@) == pieces(chars@.take(i as int), sep),
        decreases chars@.len() - i,
    {
        let ghost front = pieces(chars@.take(i as int), sep);
        assert(chars@.take(i + 1).drop_last() =~= chars@.take(i as int));
        assert(front.drop_last() =~= text::texts(out@));
        assert(front.last() == current@);
        if chars[i] == sep {
            let mut done = String::new();
            std::mem::swap(&mut done, &mut current);
            out.push(done);
            assert(text::texts(out@) =~= front);
        } else {
            current.push(chars[i]);
        }
        i += 1;
    }
    assert(chars@.take(chars@.len() as int) =~= chars@);
    let ghost before = out@;
    let ghost last = current@;
    out.push(current);
    assert(text::texts(out@) =~= text::texts(before).push(last));
    out
}

fn keep_non_empty(list: Vec<String>) -> (r: Vec<String>)
    ensures
        text::texts(r@) == non_empty(text::texts(list@)),
{
    let ghost all = list@;
    let ghost ts = text::texts(list@);
    let mut out: Vec<String> = Vec::new();
    assert(text::texts(out@) =~= non_empty(ts.take(0)));
    for part in it: list
        invariant
            it.seq() == all,
            ts == text::texts(all),
            text::texts(out@) == non_empty(ts.take(it.index())),
    {
        assert(ts.take(it.index() + 1).drop_last() =~= ts.take(it.index()));
        assert(ts[it.index()] == part@);
        let ghost before = text::texts(out@);
        if !part.as_str().is_empty() {
            out.push(part);
            assert(text::texts(out@) =~= before.push(part@));
        }
    }
    assert(ts.take(ts.len() as int) =~= ts);
    out
}

fn split_pair(chars: &Vec<char>) -> (r: (String, String))
    ensures
        r.0@ == before_equals(chars@),
        r.1@ == behind_equals(chars@),
{
    let n: usize = chars.len();
    let mut i: usize = 0;
    assert(chars@.skip(0) =~= chars@);
    assert(chars@.take(0) + before_equals(chars@) =~= before_equals(chars@));
    while i < n && chars[i] != '='
        invariant
            n == chars@.len(),
            i <= n,
            chars@.take(i as int) + before_equals(chars@.skip(i as int)) == before_equals(chars@),
            behind_equals(chars@.skip(i as int)) == behind_equals(chars@),
        decreases n - i,
    {
        let ghost rest = chars@.skip(i as int);
        assert(rest[0] == chars@[i as int]);
        assert(rest.skip(1) =~= chars@.skip(i + 1));
        assert(chars@.take(i + 1) + before_equals(rest.skip(1)) =~= chars@.take(i as int) + before_equals(rest));
        i += 1;
    }
    let name = text::text_of(&chars.as_slice()[0..i]);
    assert(name@ =~= chars@.take(i as int) + before_equals(chars@.skip(i as int)));
    let value = if i < n {
        assert(chars@.skip(i as int).skip(1) =~= chars@.skip(i + 1));
        text::text_of(&chars.as_slice()[i + 1..n])
    } else {
        String::new()
    };
    (name, value)
}

/// The values by name of a query string.
pub fn parse_query(query: &str) -> (r: StringHashMap<String>)
    ensures
        text_map(r@) == query_map(query@),
{
    let chars = text::chars_of(query);
    let n: usize = chars.len();
    let mut start: usize = 0;
    assert(chars@.skip(0) =~= chars@);
    while start < n && chars[start] == '?'
        invariant
            n == chars@.len(),
            start <= n,
            trimmed(chars@.skip(start as int), '?') == trimmed(chars@, '?'),
        decreases n - start,
    {
        assert(chars@.skip(start as int).skip(1) =~= chars@.skip(start + 1));
        start += 1;
    }
    let ghost q = chars@.skip(start as int);
    let pairs = split(&chars.as_slice()[start..n], '&');
    assert(chars@.subrange(start as int, n as int) =~= q);
    let ghost ps = pieces(q, '&');
    let mut out: StringHashMap<String> = StringHashMap::new();
    let mut i: usize = 0;
    assert(text_map(out@) =~= pairs_map(ps.take(0)));
    while i < pairs.len()
        invariant
            i <= pairs@.len(),
            ps == text::texts(pairs@),
            text_map(out@) == pairs_map(ps.take(i as int)),
        decreases pairs@.len() - i,
    {
        assert(ps.take(i + 1).drop_last() =~= ps.take(i as int));
        assert(ps.take(i + 1).last() == pairs@[i as int]@);
        let pair = text::chars_of(pairs[i].as_str());
        let (name, value) = split_pair(&pair);
        if !name.as_str().is_empty() {
            let ghost before = out@;
            let ghost key = name@;
            let decoded_value = url_decode(value.as_str());
            out.insert(name, decoded_value);
            assert(text_map(out@) =~= text_map(before).insert(key, decoded_value@));
        }
        i += 1;
    }
    assert(ps.take(ps.len() as int) =~= ps);
    out
}

fn copy_entry(q: &StringHashMap<String>, key: &str) -> (r: Option<String>)
    ensures
        option_string(r) == entry(text_map(q@), key@),
{
    match q.get(key) {
        Some(s) => Some(s.clone()),
        None => None,
    }
}

/// The position that a query asks for.
pub fn asked_offset(q: &StringHashMap<String>) -> (r: i64)
    ensures
        r == query_offset(text_map(q@)),
{
    match q.get("offset") {
        Some(s) => match text::parse_i64(s.as_str()) {
            Some(n) => n,
            None => -1,
        },
        None => -1,
    }
}

/// What a path and a query string ask for.
pub fn parse_route(prefix: &str, path: &str, query: &str) -> (r: Option<Route>)
    ensures
        option_route(r) == routed(prefix@, path@, query@),
{
    let mut full = prefix.to_string();
    full.append("/");
    let want = text::chars_of(full.as_str());
    let chars = text::chars_of(path);
    proof {
        reveal_strlit("/");
    }
    if !text::has_prefix(&chars, &want) {
        return None;
    }
    let skipped: usize = want.len();
    let n: usize = chars.len();
    assert(chars@.subrange(skipped as int, n as int) =~= path@.skip(prefix@.len() as int + 1));
    let mut parts = keep_non_empty(split(&chars.as_slice()[skipped..n], '/'));
    if parts.len() == 0 {
        return None;
    }
    let ghost all = text::texts(parts@);
    let name = parts.remove(0);
    assert(text::texts(parts@) =~= all.skip(1));
    let q = parse_query(query);
    let offset: i64 = asked_offset(&q);
    let flag = copy_entry(&q, "live");
    let live = match flag {
        Some(s) => text::same_text(s.as_str(), "true"),
        None => false,
    };
    let log_id = copy_entry(&q, "log_id");
    let shape_handle = copy_entry(&q, "shape_handle");
    Some(Route { name, params: parts, offset, live, log_id, shape_handle })
}

/// The values of some parameters by name: as many as there are names.
pub open spec fn zipped(names: Seq<Seq<char>>, values: Seq<Seq<char>>) -> Map<Seq<char>, Seq<char>>
    decreases names.len(),
{
    if names.len() == 0 {
        Map::empty()
    } else {
        zipped(names.drop_last(), values).insert(names.last(), values[names.len() - 1])
    }
}

/// The values of some parameters by name: nothing where a name has no value or stands twice.
pub open spec fn bound_params(
    names: Seq<Seq<char>>,
    values: Seq<Seq<char>>,
) -> Option<Map<Seq<char>, Seq<char>>> {
    if names.len() <= values.len() && names.no_duplicates() {
        Some(zipped(names, values))
    } else {
        None
    }
}

/// The model of parameters that may be missing.
pub open spec fn option_params(
    r: Option<StringHashMap<String>>,
) -> Option<Map<Seq<char>, Seq<char>>> {
    match r {
        Some(m) => Some(text_map(m@)),
        None => None,
    }
}

proof fn lemma_zipped_keys(names: Seq<Seq<char>>, values: Seq<Seq<char>>)
    ensures
        forall|k: Seq<char>| zipped(names, values).contains_key(k) <==> names.contains(k),
    decreases names.len(),
{
    if names.len() > 0 {
        let front = names.drop_last();
        lemma_zipped_keys(front, values);
        assert forall|k: Seq<char>| zipped(names, values).contains_key(k) <==> names.contains(k) by {
            if front.contains(k) {
                let i = choose|i: int| 0 <= i < front.len() && front[i] == k;
                assert(names[i] == k);
            }
            if names.contains(k) {
                let i = choose|i: int| 0 <= i < names.len() && names[i] == k;
                if i < front.len() {
                    assert(front[i] == k);
                }
            }
            assert(names[names.len() - 1] == names.last());
        }
    }
}

/// The values of some parameters by name.
pub fn bind_params(names: &Vec<String>, values: &Vec<String>) -> (r: Option<StringHashMap<String>>)
    ensures
        option_params(r) == bound_params(text::texts(names@), text::texts(values@)),
{
    let ghost ns = text::texts(names@);
    let ghost vs = text::texts(values@);
    if names.len() > values.len() {
        return None;
    }
    let mut out: StringHashMap<String> = StringHashMap::new();
    let mut i: usize = 0;
    assert(text_map(out@) =~= zipped(ns.take(0), vs));
    while i < names.len()
        invariant
            i <= names@.len(),
            names@.len() <= values@.len(),
            ns == text::texts(names@),
            vs == text::texts(values@),
            ns.take(i as int).no_duplicates(),
            text_map(out@) == zipped(ns.take(i as int), vs),
        decreases names@.len() - i,
    {
        let ghost front = ns.take(i as int);
        assert(ns.take(i + 1).drop_last() =~= front);
        proof {
            lemma_zipped_keys(front, vs);
        }
        if out.contains_key(names[i].as_str()) {
            assert(text_map(out@).contains_key(ns[i as int]));
            assert(front.contains(ns[i as int]));
            let ghost j = choose|j: int| 0 <= j < front.len() && front[j] == ns[i as int];
            assert(ns[j] == ns[i as int]);
            return None;
        }
        assert(!text_map(out@).contains_key(ns[i as int]));
        let ghost next = ns.take(i + 1);
        assert(next.no_duplicates()) by {
            assert forall|a: int, b: int| 0 <= a < next.len() && 0 <= b < next.len() && a != b implies next[a]
                != next[b] by {
                if a < i && b < i {
                    assert(front[a] != front[b]);
                } else if a < i {
                    assert(front[a] == ns[a]);
                    assert(front.contains(ns[a]));
                } else {
                    assert(front[b] == ns[b]);
                    assert(front.contains(ns[b]));
                }
            }
        }
        let ghost before = out@;
        out.insert(names[i].clone(), values[i].clone());
        assert(text_map(out@) =~= text_map(before).insert(ns[i as int], vs[i as int]));
        i += 1;
    }
    assert(ns.take(ns.len() as int) =~= ns);
    Some(out)
}

/// Whether a character does not occur in a text.
pub open spec fn lacks(s: Seq<char>, c: char) -> bool {
    forall|i: int| 0 <= i < s.len() ==> #[trigger] s[i] != c
}

/// A text that is cut at a character is its pieces with the character between them, and none of
/// them has it.
pub proof fn law_pieces_join_back(s: Seq<char>, sep: char)
    ensures
        pieces(s, sep).len() > 0,
        text::joined(pieces(s, sep), seq![sep]) == s,
        forall|i: int| 0 <= i < pieces(s, sep).len() ==> lacks(#[trigger] pieces(s, sep)[i], sep),
    decreases s.len(),
{
    let all = pieces(s, sep);
    if s.len() > 0 {
        let front = pieces(s.drop_last(), sep);
        law_pieces_join_back(s.drop_last(), sep);
        if s.last() == sep {
            assert(all.drop_last() =~= front);
            assert(text::joined(all, seq![sep]) =~= s);
        } else {
            assert(all.drop_last() =~= front.drop_last());
            assert(lacks(front.last(), sep)) by {
                assert(front.last() == front[front.len() - 1]);
            }
            assert forall|i: int| 0 <= i < all.len() implies lacks(#[trigger] all[i], sep) by {
                if i < front.len() - 1 {
                    assert(all[i] == front[i]);
                }
            }
            assert(text::joined(all, seq![sep]) =~= text::joined(front, seq![sep]).push(s.last()));
            assert(s.drop_last().push(s.last()) =~= s);
        }
    }
}

proof fn lemma_pieces_of_parts(parts: Seq<Seq<char>>, sep: char)
    requires
        parts.len() > 0,
        forall|i: int| 0 <= i < parts.len() ==> lacks(#[trigger] parts[i], sep),
    ensures
        pieces(text::joined(parts, seq![sep]), sep) == parts,
    decreases parts.len(),
{
    if parts.len() == 1 {
        lemma_pieces_behind(seq![], parts[0], sep, true);
        assert(seq![] + parts[0] =~= parts[0]);
        assert(pieces(parts[0], sep) =~= parts);
    } else {
        let front = parts.drop_last();
        assert forall|i: int| 0 <= i < front.len() implies lacks(#[trigger] front[i], sep) by {
            assert(front[i] == parts[i]);
        }
        lemma_pieces_of_parts(front, sep);
        assert(lacks(parts[parts.len() - 1], sep));
        lemma_pieces_behind(text::joined(front, seq![sep]) + seq![sep], parts.last(), sep, false);
        let cut = text::joined(front, seq![sep]) + seq![sep];
        assert(cut.drop_last() =~= text::joined(front, seq![sep]));
        assert(pieces(cut, sep) =~= front.push(Seq::empty()));
        assert(pieces(cut, sep).drop_last().push(parts.last()) =~= parts);
    }
}

proof fn lemma_pieces_behind(s: Seq<char>, t: Seq<char>, sep: char, first: bool)
    requires
        lacks(t, sep),
        first ==> s.len() == 0,
        !first ==> s.len() > 0 && s.last() == sep,
    ensures
        pieces(s + t, sep) == pieces(s, sep).drop_last().push(t),
    decreases t.len(),
{
    if t.len() == 0 {
        assert(s + t =~= s);
        assert(t =~= Seq::empty());
        if first {
            assert(pieces(s, sep) =~= seq![Seq::empty()]);
        }
        assert(pieces(s, sep).last() =~= Seq::empty());
        assert(pieces(s, sep) =~= pieces(s, sep).drop_last().push(t));
    } else {
        let u = t.drop_last();
        assert forall|i: int| 0 <= i < u.len() implies #[trigger] u[i] != sep by {
            assert(u[i] == t[i]);
        }
        lemma_pieces_behind(s, u, sep, first);
        assert((s + t).drop_last() =~= s + u);
        assert(t[t.len() - 1] != sep);
        assert((s + t).last() == t.last());
        assert(u.push(t.last()) =~= t);
        assert(pieces(s + t, sep) =~= pieces(s, sep).drop_last().push(t));
    }
}

proof fn lemma_non_empty_all(list: Seq<Seq<char>>)
    requires
        forall|i: int| 0 <= i < list.len() ==> (#[trigger] list[i]).len() > 0,
    ensures
        non_empty(list) == list,
    decreases list.len(),
{
    if list.len() > 0 {
        let front = list.drop_last();
        assert forall|i: int| 0 <= i < front.len() implies (#[trigger] front[i]).len() > 0 by {
            assert(front[i] == list[i]);
        }
        lemma_non_empty_all(front);
        assert(list[list.len() - 1].len() > 0);
        assert(front.push(list.last()) =~= list);
    }
}

/// A path names a shape and gives its parameters: behind the prefix and a slash stand the name and
/// the values, with slashes between them. What a query string asks for is taken from it by name.
pub proof fn law_paths_read_back(prefix: Seq<char>, parts: Seq<Seq<char>>, query: Seq<char>)
    requires
        parts.len() > 0,
        forall|i: int| 0 <= i < parts.len() ==> (#[trigger] parts[i]).len() > 0 && lacks(parts[i], '/'),
    ensures
        ({
            let q = query_map(query);
            &&& routed(prefix, prefix + "/"@ + text::joined(parts, "/"@), query) matches Some(r)
            &&& r.name == parts[0]
            &&& r.params.len() == parts.len() - 1
            &&& forall|i: int| 0 <= i < r.params.len() ==> #[trigger] r.params[i] == parts[i + 1]
            &&& r.log_id == entry(q, "log_id"@)
            &&& r.shape_handle == entry(q, "shape_handle"@)
            &&& r.live <==> entry(q, "live"@) == Some("true"@)
            &&& entry(q, "offset"@) is None ==> r.offset == -1
            &&& entry(q, "offset"@) is Some && text::parsed_i64(entry(q, "offset"@)->0) is None ==> r.offset == -1
            &&& forall|n: i64| entry(q, "offset"@) == Some(#[trigger] text::decimal(n as int)) ==> r.offset == n
        }),
{
    reveal_strlit("/");
    let path = prefix + "/"@ + text::joined(parts, "/"@);
    assert("/"@ =~= seq!['/']);
    assert(path.take(prefix.len() as int + 1) =~= prefix + "/"@);
    assert(path.skip(prefix.len() as int + 1) =~= text::joined(parts, "/"@));
    lemma_pieces_of_parts(parts, '/');
    lemma_non_empty_all(parts);
    assert forall|n: i64| entry(query_map(query), "offset"@) == Some(#[trigger] text::decimal(n as int)) implies
        query_offset(query_map(query)) == n by {
        text::law_decimal_reads_back(n);
    }
}

/// A path without the prefix and a slash, and one that has nothing but slashes behind them, ask for
/// nothing.
pub proof fn law_other_paths_ask_for_nothing(prefix: Seq<char>, path: Seq<char>, query: Seq<char>)
    requires
        text::starts_with(path, prefix + "/"@) ==> forall|i: int|
            prefix.len() < i < path.len() ==> #[trigger] path[i] == '/',
    ensures
        routed(prefix, path, query) is None,
{
    reveal_strlit("/");
    if text::starts_with(path, prefix + "/"@) {
        let rest = path.skip(prefix.len() as int + 1);
        assert forall|i: int| 0 <= i < rest.len() implies #[trigger] rest[i] == '/' by {
            assert(path[i + prefix.len() + 1] == '/');
        }
        lemma_slashes_only(rest);
    }
}

proof fn lemma_slashes_only(s: Seq<char>)
    requires
        forall|i: int| 0 <= i < s.len() ==> #[trigger] s[i] == '/',
    ensures
        non_empty(pieces(s, '/')).len() == 0,
        pieces(s, '/').len() > 0,
    decreases s.len(),
{
    if s.len() > 0 {
        let u = s.drop_last();
        assert forall|i: int| 0 <= i < u.len() implies #[trigger] u[i] == '/' by {
            assert(u[i] == s[i]);
        }
        lemma_slashes_only(u);
        assert(s[s.len() - 1] == '/');
        assert(pieces(s, '/').drop_last() =~= pieces(u, '/'));
    } else {
        let all = pieces(s, '/');
        assert(all.drop_last() =~= Seq::empty());
        assert(all.last().len() == 0);
        assert(non_empty(all.drop_last()).len() == 0);
    }
}

/// The name of a pair is what stands before its first equals sign, and its value what stands behind
/// it; a pair without one is a name with an empty value.
pub proof fn law_pairs_read_back(name: Seq<char>, value: Seq<char>)
    requires
        lacks(name, '='),
    ensures
        before_equals(name + seq!['='] + value) == name,
        behind_equals(name + seq!['='] + value) == value,
        before_equals(name) == name,
        behind_equals(name) == Seq::<char>::empty(),
    decreases name.len(),
{
    let s = name + seq!['='] + value;
    if name.len() == 0 {
        assert(s.skip(1) =~= value);
        assert(name =~= Seq::empty());
    } else {
        let u = name.skip(1);
        assert(s.skip(1) =~= u + seq!['='] + value);
        assert forall|i: int| 0 <= i < u.len() implies #[trigger] u[i] != '=' by {
            assert(u[i] == name[i + 1]);
        }
        law_pairs_read_back(u, value);
        assert(s[0] == name[0]);
        assert(name =~= seq![name[0]] + u);
    }
}

/// A query string gives values by name: a pair behind some others sets the value of its name and
/// leaves all others as they are. Question marks in front do not count.
pub proof fn law_queries_read_back(query: Seq<char>, name: Seq<char>, value: Seq<char>)
    requires
        query.len() > 0,
        query[0] != '?',
        name.len() > 0,
        lacks(name, '='),
        lacks(name, '&'),
        lacks(value, '&'),
    ensures
        query_map(query + seq!['&'] + name + seq!['='] + value) == query_map(query).insert(
            name,
            url_decoded(value),
        ),
        name[0] != '?' ==> query_map(name + seq!['='] + value) == Map::<Seq<char>, Seq<char>>::empty().insert(
            name,
            url_decoded(value),
        ),
        query_map(seq!['?'] + query) == query_map(query),
{
    let pair = name + seq!['='] + value;
    law_pairs_read_back(name, value);
    assert forall|i: int| 0 <= i < pair.len() implies #[trigger] pair[i] != '&' by {
        if i < name.len() {
            assert(name[i] != '&');
        } else if i > name.len() {
            assert(value[i - name.len() - 1] != '&');
        }
    }
    let whole = query + seq!['&'] + name + seq!['='] + value;
    let cut = query + seq!['&'];
    assert(whole =~= cut + pair);
    assert(whole[0] == query[0]);
    lemma_pieces_behind(cut, pair, '&', false);
    assert(cut.drop_last() =~= query);
    assert(pieces(cut, '&').drop_last() =~= pieces(query, '&'));
    let all = pieces(whole, '&');
    assert(all.drop_last() =~= pieces(query, '&'));
    assert(all.last() == pair);
    lemma_pieces_behind(seq![], pair, '&', true);
    assert(seq![] + pair =~= pair);
    let one = pieces(pair, '&');
    assert(one.len() == 1 && one.last() == pair);
    assert(one.drop_last() =~= Seq::empty());
    assert(pairs_map(one.drop_last()) =~= Map::empty());
    assert(pair[0] == name[0]);
    assert((seq!['?'] + query).skip(1) =~= query);
}

/// Whether some bytes are the digits that write a number below sixteen in hexadecimal.
pub open spec fn is_hex_digit(digit: u8, n: int) -> bool {
    ||| 0 <= n < 10 && digit == 48 + n
    ||| 10 <= n < 16 && (digit == 97 + n - 10 || digit == 65 + n - 10)
}

/// Whether some bytes encode a byte: a plus sign a space, a percent sign and two hexadecimal digits
/// the byte that they write, and every other byte itself.
pub open spec fn encodes(bytes: Seq<u8>, b: u8) -> bool {
    ||| bytes == seq![43u8] && b == 32
    ||| bytes == seq![b] && b != 43 && b != 37
    ||| bytes.len() == 3 && bytes[0] == 37 && is_hex_digit(bytes[1], b as int / 16) && is_hex_digit(
        bytes[2],
        b as int % 16,
    )
}

/// The bytes of some codes one behind the other.
pub open spec fn concatenated(codes: Seq<Seq<u8>>) -> Seq<u8>
    decreases codes.len(),
{
    if codes.len() == 0 {
        Seq::empty()
    } else {
        codes[0] + concatenated(codes.skip(1))
    }
}

/// An encoded value reads back, however its bytes are encoded.
pub proof fn law_encoded_values_read_back(codes: Seq<Seq<u8>>, bytes: Seq<u8>)
    requires
        codes.len() == bytes.len(),
        forall|i: int| 0 <= i < bytes.len() ==> encodes(#[trigger] codes[i], bytes[i]),
    ensures
        decoded(concatenated(codes)) == bytes,
    decreases codes.len(),
{
    if codes.len() == 0 {
        assert(bytes =~= Seq::empty());
    } else {
        let (rest, left) = (codes.skip(1), bytes.skip(1));
        assert forall|i: int| 0 <= i < left.len() implies encodes(#[trigger] rest[i], left[i]) by {
            assert(encodes(codes[i + 1], bytes[i + 1]));
        }
        law_encoded_values_read_back(rest, left);
        let (code, b) = (codes[0], bytes[0]);
        assert(encodes(code, b));
        let s = concatenated(codes);
        assert(s == code + concatenated(rest));
        assert(s.skip(code.len() as int) =~= concatenated(rest));
        assert(s[0] == code[0]);
        assert(bytes =~= seq![b] + left);
        if code.len() == 3 {
            assert(s[1] == code[1] && s[2] == code[2]);
            assert(16 * hex_value(s[1]) + hex_value(s[2]) == b);
        }
    }
}

/// Parameters are bound by position: each name to the value at its place, and nothing else. They
/// fit where every name has a value and stands once.
pub proof fn law_parameters_are_bound_in_order(names: Seq<Seq<char>>, values: Seq<Seq<char>>)
    ensures
        bound_params(names, values) is Some <==> names.len() <= values.len() && forall|i: int, j: int|
            0 <= i < j < names.len() ==> names[i] != names[j],
        bound_params(names, values) matches Some(m) ==> {
            &&& forall|i: int|
                0 <= i < names.len() ==> m.contains_key(#[trigger] names[i]) && m[names[i]] == values[i]
            &&& forall|k: Seq<char>| #[trigger] m.contains_key(k) ==> names.contains(k)
        },
{
    lemma_zipped_keys(names, values);
    if names.no_duplicates() {
        lemma_zipped_values(names, values);
    }
    if forall|i: int, j: int| 0 <= i < j < names.len() ==> names[i] != names[j] {
        assert(names.no_duplicates());
    }
}

proof fn lemma_zipped_values(names: Seq<Seq<char>>, values: Seq<Seq<char>>)
    requires
        names.no_duplicates(),
    ensures
        forall|i: int|
            0 <= i < names.len() ==> zipped(names, values).contains_key(#[trigger] names[i]) && zipped(
                names,
                values,
            )[names[i]] == values[i],
    decreases names.len(),
{
    if names.len() > 0 {
        let front = names.drop_last();
        assert(front.no_duplicates());
        lemma_zipped_values(front, values);
        assert forall|i: int| 0 <= i < names.len() implies zipped(names, values).contains_key(#[trigger] names[i])
            && zipped(names, values)[names[i]] == values[i] by {
            if i < front.len() {
                assert(front[i] == names[i]);
                assert(names[i] != names[names.len() - 1]);
            }
        }
    }
}

/// A text reads back from a query string, however its bytes are encoded in it; bytes that are no
/// UTF-8 stand for the empty text.
pub proof fn law_texts_read_back(s: Seq<char>, codes: Seq<Seq<u8>>, bytes: Seq<u8>, t: Seq<char>)
    requires
        codes.len() == bytes.len(),
        forall|i: int| 0 <= i < bytes.len() ==> encodes(#[trigger] codes[i], bytes[i]),
        vstd::utf8::encode_utf8(s) == concatenated(codes),
    ensures
        bytes == vstd::utf8::encode_utf8(t) ==> url_decoded(s) == t,
        !vstd::utf8::valid_utf8(bytes) ==> url_decoded(s).len() == 0,
{
    law_encoded_values_read_back(codes, bytes);
    vstd::utf8::encode_utf8_decode_utf8(t);
    vstd::utf8::encode_utf8_valid_utf8(t);
}

/// A percent sign stands for itself where fewer than two bytes stand behind it, and what is no
/// hexadecimal digit behind one counts as zero.
pub proof fn law_stray_percent_signs(b: u8, high: u8, low: u8, rest: Seq<u8>)
    requires
        b != 43,
        b != 37,
        forall|n: int| !#[trigger] is_hex_digit(high, n),
        forall|n: int| !#[trigger] is_hex_digit(low, n),
    ensures
        decoded(seq![37u8]) == seq![37u8],
        decoded(seq![37u8, b]) == seq![37u8, b],
        decoded(seq![37u8, high, low] + rest) == seq![0u8] + decoded(rest),
{
    assert(seq![37u8].skip(1) =~= Seq::empty());
    assert(decoded(Seq::empty()) =~= Seq::empty());
    assert(decoded(seq![37u8]) =~= seq![37u8]);
    assert(seq![37u8, b].skip(1) =~= seq![b]);
    assert(seq![b].skip(1) =~= Seq::empty());
    assert(decoded(seq![b]) =~= seq![b]);
    assert(decoded(seq![37u8, b]) =~= seq![37u8, b]);
    let s = seq![37u8, high, low] + rest;
    assert(s.skip(3) =~= rest);
    assert(hex_value(high) == 0) by {
        assert(!is_hex_digit(high, high as int - 48));
        assert(!is_hex_digit(high, high as int - 87));
        assert(!is_hex_digit(high, high as int - 55));
    }
    assert(hex_value(low) == 0) by {
        assert(!is_hex_digit(low, low as int - 48));
        assert(!is_hex_digit(low, low as int - 87));
        assert(!is_hex_digit(low, low as int - 55));
    }
}

} // verus!
