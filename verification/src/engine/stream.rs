//! Shapes as a stream of server-sent events.
//!
//! A stream answers one request after the other for the same path: the one that opened it, and
//! then live requests that go on where the last answer ended. Each answer becomes some events to
//! write, and the query string of the next request.
use vstd::prelude::*;
use vstd::slice::slice_to_vec;
use crate::engine::replay;
use crate::engine::replay::ReplayView;
use crate::engine::route;
use crate::engine::snapshot;
use crate::engine::snapshot::SnapshotView;
use crate::json;
use crate::json::{Json, JsonView};
use crate::sha256;
use crate::text;

verus! {

/// What is written to keep a connection open, and to find out whether it still is.
pub open spec fn ping() -> Seq<char> {
    ": ping\n\n"@
}

/// The text of an event.
pub open spec fn frame(event: Seq<char>, body: JsonView) -> Seq<char> {
    "event: "@ + event + "\ndata: "@ + json::encoded(body) + "\n\n"@
}

/// Where a stream is.
pub enum Stream {
    /// Waits for the first answer.
    Opening { snapshot: bool },
    /// Waits for the answer behind a position.
    Open { offset: i64, log_id: String, shape_handle: String },
    /// Has ended.
    Closed,
}

/// The model of where a stream is.
pub enum StreamView {
    Opening { snapshot: bool },
    Open { offset: i64, log_id: Seq<char>, shape_handle: Seq<char> },
    Closed,
}

impl View for Stream {
    type V = StreamView;

    open spec fn view(&self) -> StreamView {
        match self {
            Stream::Opening { snapshot } => StreamView::Opening { snapshot: *snapshot },
            Stream::Open { offset, log_id, shape_handle } => StreamView::Open {
                offset: *offset,
                log_id: log_id@,
                shape_handle: shape_handle@,
            },
            Stream::Closed => StreamView::Closed,
        }
    }
}

/// What a stream does with an answer: the bytes to write, and the query string of the next
/// request, where there is one.
#[derive(Debug)]
pub struct Output {
    pub bytes: Vec<u8>,
    pub next_query: Option<String>,
}

/// The start of a stream: its first event is a snapshot where the request has no position.
pub open spec fn opened(query: Seq<char>) -> StreamView {
    StreamView::Opening { snapshot: route::query_offset(route::query_map(query)) == -1 }
}

/// The query string of the live request behind a position.
pub open spec fn continuation(offset: i64, log_id: Seq<char>, shape_handle: Seq<char>) -> Seq<char> {
    "offset="@ + text::decimal(offset as int) + "&log_id="@ + log_id + "&shape_handle="@ + shape_handle
        + "&live=true"@
}

/// The position that a body gives.
pub open spec fn body_offset(body: JsonView, otherwise: i64) -> i64 {
    match json::field(body, "offset"@) {
        Some(v) => match json::integer_of(v) {
            Some(n) => n,
            None => otherwise,
        },
        None => otherwise,
    }
}

/// A text that a body gives: empty where it gives none.
pub open spec fn body_text(body: JsonView, key: Seq<char>) -> Seq<char> {
    match json::field(body, key) {
        Some(v) => match json::text_of(v) {
            Some(s) => s,
            None => Seq::empty(),
        },
        None => Seq::empty(),
    }
}

/// Whether a body has messages.
pub open spec fn has_messages(body: JsonView) -> bool {
    match json::field(body, "messages"@) {
        Some(JsonView::Array(a)) => a.len() > 0,
        _ => false,
    }
}

/// What follows an answer: the state of the stream, the text to write, and the next query.
pub struct Advance {
    pub stream: StreamView,
    pub text: Seq<char>,
    pub next_query: Option<Seq<char>>,
}

/// A stream that goes on behind a position.
pub open spec fn going_on(offset: i64, log_id: Seq<char>, shape_handle: Seq<char>, text: Seq<char>) -> Advance {
    Advance {
        stream: StreamView::Open { offset, log_id, shape_handle },
        text,
        next_query: Some(continuation(offset, log_id, shape_handle)),
    }
}

/// Whether a body tells that the engine shuts down.
pub open spec fn shuts_down(body: JsonView) -> bool {
    json::field(body, "shutdown"@) == Some(JsonView::Bool(true))
}

/// A stream that ends.
pub open spec fn ending(text: Seq<char>) -> Advance {
    Advance { stream: StreamView::Closed, text, next_query: None }
}

/// A stream that has written an answer: it ends where the engine shuts down, and else goes on.
pub open spec fn written(
    body: JsonView,
    offset: i64,
    log_id: Seq<char>,
    shape_handle: Seq<char>,
    text: Seq<char>,
) -> Advance {
    if shuts_down(body) {
        ending(text)
    } else {
        going_on(offset, log_id, shape_handle, text)
    }
}

/// What a stream does with an answer. An error ends it, and so does the end of the engine. The
/// first answer is written whatever it holds; a later one only where it has messages, and each of
/// them with a ping.
pub open spec fn advanced(s: StreamView, status: u16, body: JsonView) -> Advance {
    if s is Closed {
        ending(Seq::empty())
    } else if status != 200 {
        ending(frame("error"@, body))
    } else {
        match s {
            StreamView::Opening { snapshot } => written(
                body,
                body_offset(body, 0),
                body_text(body, "log_id"@),
                body_text(body, "shape_handle"@),
                frame(
                    if snapshot {
                        "snapshot"@
                    } else {
                        "replay"@
                    },
                    body,
                ),
            ),
            StreamView::Open { offset, log_id, shape_handle } => if has_messages(body) {
                written(
                    body,
                    body_offset(body, offset),
                    log_id,
                    shape_handle,
                    frame("replay"@, body) + ping(),
                )
            } else {
                written(body, offset, log_id, shape_handle, ping())
            },
            StreamView::Closed => ending(Seq::empty()),
        }
    }
}

fn frame_text(event: &str, body: &Json) -> (r: String)
    ensures
        r@ == frame(event@, body@),
{
    let mut out = "event: ".to_string();
    out.append(event);
    out.append("\ndata: ");
    let data = body.to_text();
    out.append(data.as_str());
    out.append("\n\n");
    out
}

fn text_bytes(s: &str) -> (r: Vec<u8>)
    ensures
        r@ == vstd::utf8::encode_utf8(s@),
{
    slice_to_vec(s.as_bytes())
}

/// The bytes of an event.
pub fn sse_frame(event: &str, body: &Json) -> (r: Vec<u8>)
    ensures
        r@ == vstd::utf8::encode_utf8(frame(event@, body@)),
{
    let out = frame_text(event, body);
    text_bytes(out.as_str())
}

/// The start of a stream.
pub fn open_stream(query: &str) -> (r: Stream)
    ensures
        r@ == opened(query@),
{
    let q = route::parse_query(query);
    let offset: i64 = route::asked_offset(&q);
    Stream::Opening { snapshot: offset == -1 }
}

fn continuation_text(offset: i64, log_id: &str, shape_handle: &str) -> (r: String)
    ensures
        r@ == continuation(offset, log_id@, shape_handle@),
{
    let mut out = "offset=".to_string();
    let n = text::decimal_i64(offset);
    out.append(n.as_str());
    out.append("&log_id=");
    out.append(log_id);
    out.append("&shape_handle=");
    out.append(shape_handle);
    out.append("&live=true");
    out
}

fn offset_of(body: &Json, otherwise: i64) -> (r: i64)
    ensures
        r == body_offset(body@, otherwise),
{
    match body.get("offset") {
        Some(v) => match v.as_i64() {
            Some(n) => n,
            None => otherwise,
        },
        None => otherwise,
    }
}

fn text_in(body: &Json, key: &str) -> (r: String)
    ensures
        r@ == body_text(body@, key@),
{
    match body.get(key) {
        Some(v) => match v.as_text() {
            Some(s) => s.clone(),
            None => String::new(),
        },
        None => String::new(),
    }
}

fn holds_messages(body: &Json) -> (r: bool)
    ensures
        r == has_messages(body@),
{
    match body.get("messages") {
        Some(v) => match v {
            Json::Array(a) => {
                proof {
                    json::lemma_array_view(*a);
                }
                a.len() > 0
            },
            _ => false,
        },
        None => false,
    }
}

/// Whether a step of a stream is the one that its model makes.
pub open spec fn steps_as(r: (Stream, Output), a: Advance) -> bool {
    &&& r.0@ == a.stream
    &&& r.1.bytes@ == vstd::utf8::encode_utf8(a.text)
    &&& route::option_string(r.1.next_query) == a.next_query
}

fn tells_shutdown(body: &Json) -> (r: bool)
    ensures
        r == shuts_down(body@),
{
    match body.get("shutdown") {
        Some(v) => match v {
            Json::Bool(b) => *b,
            _ => false,
        },
        None => false,
    }
}

fn end(bytes: Vec<u8>) -> (r: (Stream, Output))
    ensures
        forall|text: Seq<char>| bytes@ == #[trigger] vstd::utf8::encode_utf8(text) ==> steps_as(r, ending(text)),
{
    (Stream::Closed, Output { bytes, next_query: None })
}

fn go_on(body: &Json, offset: i64, log_id: String, shape_handle: String, text: &str) -> (r: (Stream, Output))
    ensures
        steps_as(r, written(body@, offset, log_id@, shape_handle@, text@)),
{
    if tells_shutdown(body) {
        return end(text_bytes(text));
    }
    let q = continuation_text(offset, log_id.as_str(), shape_handle.as_str());
    let output = Output { bytes: text_bytes(text), next_query: Some(q) };
    (Stream::Open { offset, log_id, shape_handle }, output)
}

/// What a stream does with an answer.
pub fn advance(stream: Stream, status: u16, body: &Json) -> (r: (Stream, Output))
    ensures
        steps_as(r, advanced(stream@, status, body@)),
{
    match stream {
        Stream::Closed => {
            let none = String::new();
            end(text_bytes(none.as_str()))
        },
        Stream::Opening { snapshot } => {
            if status != 200 {
                return end(sse_frame("error", body));
            }
            let event = if snapshot {
                "snapshot"
            } else {
                "replay"
            };
            let text = frame_text(event, body);
            let log_id = text_in(body, "log_id");
            let shape_handle = text_in(body, "shape_handle");
            go_on(body, offset_of(body, 0), log_id, shape_handle, text.as_str())
        },
        Stream::Open { offset, log_id, shape_handle } => {
            if status != 200 {
                return end(sse_frame("error", body));
            }
            if holds_messages(body) {
                let mut text = frame_text("replay", body);
                text.append(": ping\n\n");
                go_on(body, offset_of(body, offset), log_id, shape_handle, text.as_str())
            } else {
                go_on(body, offset, log_id, shape_handle, ": ping\n\n")
            }
        },
    }
}

/// A stream ends with the engine: the answer that ends a wait because the engine shuts down is the
/// last that a stream asks for.
pub proof fn law_streams_end_with_the_engine(s: StreamView, r: ReplayView)
    ensures
        advanced(s, 200, replay::farewell_body(r)).stream is Closed,
        advanced(s, 200, replay::farewell_body(r)).next_query is None,
{
    replay::lemma_farewell_says_so(r);
}

/// A stream asks for nothing once it has ended, and an error ends it.
pub proof fn law_errors_end_streams(s: StreamView, status: u16, body: JsonView)
    requires
        s is Closed || status != 200,
    ensures
        advanced(s, status, body).stream is Closed,
        advanced(s, status, body).next_query is None,
{
}

/// A text whose characters stand for themselves in a query string.
pub open spec fn plain(s: Seq<char>) -> bool {
    forall|i: int| 0 <= i < s.len() ==> plain_char(#[trigger] s[i])
}

/// A character that stands for itself in a query string.
pub open spec fn plain_char(c: char) -> bool {
    '!' <= c <= '~' && c != '&' && c != '=' && c != '+' && c != '%' && c != '?'
}

proof fn lemma_pieces_len(s: Seq<char>, sep: char)
    ensures
        route::pieces(s, sep).len() > 0,
    decreases s.len(),
{
    if s.len() > 0 {
        lemma_pieces_len(s.drop_last(), sep);
    }
}

proof fn lemma_pieces_of_whole(s: Seq<char>, sep: char)
    requires
        forall|i: int| 0 <= i < s.len() ==> #[trigger] s[i] != sep,
    ensures
        route::pieces(s, sep) == seq![s],
    decreases s.len(),
{
    if s.len() > 0 {
        lemma_pieces_of_whole(s.drop_last(), sep);
        assert(s[s.len() - 1] != sep);
        assert(s.drop_last().push(s.last()) =~= s);
        assert(route::pieces(s, sep) =~= seq![s]);
    } else {
        assert(s =~= Seq::empty());
    }
}

/// A separator between two texts cuts them apart.
proof fn lemma_pieces_concat(a: Seq<char>, b: Seq<char>, sep: char)
    ensures
        route::pieces(a + seq![sep] + b, sep) == route::pieces(a, sep) + route::pieces(b, sep),
    decreases b.len(),
{
    let s = a + seq![sep] + b;
    if b.len() == 0 {
        assert(s.drop_last() =~= a);
        assert(route::pieces(s, sep) =~= route::pieces(a, sep) + route::pieces(b, sep));
    } else {
        assert(s.drop_last() =~= a + seq![sep] + b.drop_last());
        lemma_pieces_concat(a, b.drop_last(), sep);
        lemma_pieces_len(b.drop_last(), sep);
        assert(s.last() == b.last());
        assert(route::pieces(s, sep) =~= route::pieces(a, sep) + route::pieces(b, sep));
    }
}

proof fn lemma_pair(name: Seq<char>, value: Seq<char>)
    requires
        forall|i: int| 0 <= i < name.len() ==> #[trigger] name[i] != '=',
    ensures
        route::before_equals(name + seq!['='] + value) == name,
        route::behind_equals(name + seq!['='] + value) == value,
    decreases name.len(),
{
    let s = name + seq!['='] + value;
    if name.len() == 0 {
        assert(s.skip(1) =~= value);
    } else {
        assert(s.skip(1) =~= name.skip(1) + seq!['='] + value);
        assert forall|i: int| 0 <= i < name.skip(1).len() implies #[trigger] name.skip(1)[i] != '=' by {
            assert(name.skip(1)[i] == name[i + 1]);
        }
        lemma_pair(name.skip(1), value);
        assert(s[0] == name[0]);
        assert(name =~= seq![name[0]] + name.skip(1));
    }
}

proof fn lemma_decoded_plain(s: Seq<u8>)
    requires
        forall|i: int| 0 <= i < s.len() ==> #[trigger] s[i] != 43 && s[i] != 37,
    ensures
        route::decoded(s) == s,
    decreases s.len(),
{
    if s.len() > 0 {
        assert forall|i: int| 0 <= i < s.skip(1).len() implies #[trigger] s.skip(1)[i] != 43 && s.skip(1)[i]
            != 37 by {
            assert(s.skip(1)[i] == s[i + 1]);
        }
        lemma_decoded_plain(s.skip(1));
        assert(s[0] != 43 && s[0] != 37);
        assert(seq![s[0]] + s.skip(1) =~= s);
    }
}

/// A plain text stands for itself.
pub proof fn law_plain_text_stands_for_itself(s: Seq<char>)
    requires
        plain(s),
    ensures
        route::url_decoded(s) == s,
{
    broadcast use vstd::utf8::group_utf8_lib;

    assert forall|i: int| 0 <= i < s.len() implies '\0' <= #[trigger] s[i] <= '\u{7f}' by {
        assert(plain_char(s[i]));
    }
    assert(vstd::utf8::is_ascii_chars(s));
    vstd::utf8::is_ascii_chars_encode_utf8(s);
    let b = vstd::utf8::encode_utf8(s);
    assert forall|i: int| 0 <= i < b.len() implies #[trigger] b[i] != 43 && b[i] != 37 by {
        assert(plain_char(s[i]));
        assert(s[i] as u8 == b[i]);
    }
    lemma_decoded_plain(b);
}

proof fn lemma_digits_plain(n: nat)
    ensures
        plain(text::digits(n)),
    decreases n,
{
    if n >= 10 {
        lemma_digits_plain(n / 10);
    }
}

proof fn lemma_trimmed(s: Seq<char>)
    requires
        s.len() > 0,
        s[0] != '?',
    ensures
        route::trimmed(s, '?') == s,
{
}

/// The pairs of a continuation.
proof fn lemma_continuation_pairs(offset: i64, log_id: Seq<char>, shape_handle: Seq<char>)
    requires
        plain(log_id),
        plain(shape_handle),
    ensures
        route::pieces(continuation(offset, log_id, shape_handle), '&') == seq![
            "offset"@ + seq!['='] + text::decimal(offset as int),
            "log_id"@ + seq!['='] + log_id,
            "shape_handle"@ + seq!['='] + shape_handle,
            "live"@ + seq!['='] + "true"@,
        ],
        continuation(offset, log_id, shape_handle).len() > 0,
        continuation(offset, log_id, shape_handle)[0] != '?',
{
    reveal_strlit("offset=");
    reveal_strlit("&log_id=");
    reveal_strlit("&shape_handle=");
    reveal_strlit("&live=true");
    reveal_strlit("offset");
    reveal_strlit("log_id");
    reveal_strlit("shape_handle");
    reveal_strlit("live");
    reveal_strlit("true");
    let d = text::decimal(offset as int);
    lemma_decimal_plain(offset);
    let a = "offset"@ + seq!['='] + d;
    let b = "log_id"@ + seq!['='] + log_id;
    let c = "shape_handle"@ + seq!['='] + shape_handle;
    let e = "live"@ + seq!['='] + "true"@;
    assert("offset="@ =~= "offset"@ + seq!['=']);
    assert("&log_id="@ =~= seq!['&'] + "log_id"@ + seq!['=']);
    assert("&shape_handle="@ =~= seq!['&'] + "shape_handle"@ + seq!['=']);
    assert("&live=true"@ =~= seq!['&'] + "live"@ + seq!['='] + "true"@);
    let s = continuation(offset, log_id, shape_handle);
    assert(s =~= a + seq!['&'] + (b + seq!['&'] + (c + seq!['&'] + e)));
    assert(s[0] == "offset"@[0]);
    assert forall|i: int| 0 <= i < a.len() implies #[trigger] a[i] != '&' by {
        if i >= 7 {
            assert(plain_char(d[i - 7]));
        }
    }
    assert forall|i: int| 0 <= i < b.len() implies #[trigger] b[i] != '&' by {
        if i >= 7 {
            assert(plain_char(log_id[i - 7]));
        }
    }
    assert forall|i: int| 0 <= i < c.len() implies #[trigger] c[i] != '&' by {
        if i >= 13 {
            assert(plain_char(shape_handle[i - 13]));
        }
    }
    lemma_pieces_of_whole(a, '&');
    lemma_pieces_of_whole(b, '&');
    lemma_pieces_of_whole(c, '&');
    lemma_pieces_of_whole(e, '&');
    lemma_pieces_concat(c, e, '&');
    lemma_pieces_concat(b, c + seq!['&'] + e, '&');
    lemma_pieces_concat(a, b + seq!['&'] + (c + seq!['&'] + e), '&');
    assert(route::pieces(s, '&') =~= seq![a, b, c, e]);
}

proof fn lemma_decimal_plain(n: i64)
    ensures
        plain(text::decimal(n as int)),
{
    let d = text::decimal(n as int);
    if n < 0 {
        lemma_digits_plain((-(n as int)) as nat);
        assert forall|i: int| 0 <= i < d.len() implies plain_char(#[trigger] d[i]) by {
            if i > 0 {
                assert(d[i] == text::digits((-(n as int)) as nat)[i - 1]);
            }
        }
    } else {
        lemma_digits_plain(n as nat);
    }
}

/// The next request of a stream asks for what the last answer gave: its position, its log and its
/// shape, live.
pub proof fn law_continuation_reads_back(offset: i64, log_id: Seq<char>, shape_handle: Seq<char>)
    requires
        plain(log_id),
        plain(shape_handle),
    ensures
        ({
            let q = route::query_map(continuation(offset, log_id, shape_handle));
            &&& route::query_offset(q) == offset
            &&& route::entry(q, "log_id"@) == Some(log_id)
            &&& route::entry(q, "shape_handle"@) == Some(shape_handle)
            &&& route::entry(q, "live"@) == Some("true"@)
        }),
{
    reveal_strlit("offset");
    reveal_strlit("log_id");
    reveal_strlit("shape_handle");
    reveal_strlit("live");
    reveal_strlit("true");
    let s = continuation(offset, log_id, shape_handle);
    let d = text::decimal(offset as int);
    lemma_continuation_pairs(offset, log_id, shape_handle);
    lemma_trimmed(s);
    lemma_decimal_plain(offset);
    lemma_pair("offset"@, d);
    lemma_pair("log_id"@, log_id);
    lemma_pair("shape_handle"@, shape_handle);
    lemma_pair("live"@, "true"@);
    law_plain_text_stands_for_itself(d);
    law_plain_text_stands_for_itself(log_id);
    law_plain_text_stands_for_itself(shape_handle);
    law_plain_text_stands_for_itself("true"@);
    text::law_decimal_reads_back(offset);
    let ps = route::pieces(s, '&');
    let p3 = ps.drop_last();
    let p2 = p3.drop_last();
    let p1 = p2.drop_last();
    reveal_with_fuel(route::pairs_map, 5);
    assert("offset"@.len() == 6 && "log_id"@.len() == 6 && "shape_handle"@.len() == 12 && "live"@.len() == 4);
    assert("offset"@[0] != "log_id"@[0]);
    let q = route::pairs_map(ps);
    assert(p1.drop_last().len() == 0);
    assert(p1.last() == "offset"@ + seq!['='] + d);
    assert(p2.last() == "log_id"@ + seq!['='] + log_id);
    assert(p3.last() == "shape_handle"@ + seq!['='] + shape_handle);
    assert(ps.last() == "live"@ + seq!['='] + "true"@);
    assert(q == route::pairs_map(p3).insert("live"@, "true"@));
    assert(route::pairs_map(p3) == route::pairs_map(p2).insert("shape_handle"@, shape_handle));
    assert(route::pairs_map(p2) == route::pairs_map(p1).insert("log_id"@, log_id));
}

/// Identities and handles, which are hexadecimal, are plain.
pub proof fn law_identities_are_plain(bytes: Seq<u8>)
    ensures
        plain(sha256::hex(bytes)),
{
    sha256::law_hex_shape(bytes);
    assert forall|i: int| 0 <= i < sha256::hex(bytes).len() implies plain_char(
        #[trigger] sha256::hex(bytes)[i],
    ) by {}
}

/// Whether a stream goes on behind a position in a log, with a shape.
pub open spec fn goes_on_at(a: Advance, offset: i64, log_id: Seq<char>, shape_handle: Seq<char>) -> bool {
    &&& a.stream matches StreamView::Open { offset: o, log_id: l, shape_handle: h }
    &&& o == offset
    &&& l == log_id
    &&& h == shape_handle
    &&& a.next_query matches Some(q)
    &&& route::query_offset(route::query_map(q)) == offset
    &&& route::entry(route::query_map(q), "log_id"@) == Some(log_id)
    &&& route::entry(route::query_map(q), "shape_handle"@) == Some(shape_handle)
    &&& route::entry(route::query_map(q), "live"@) == Some("true"@)
}

/// Whether a text starts with an event that carries a body.
pub open spec fn carries(t: Seq<char>, event: Seq<char>, body: JsonView) -> bool {
    text::starts_with(t, "event: "@ + event + "\ndata: "@ + json::encoded(body) + "\n\n"@)
}

/// A stream that opens with a snapshot writes it, and goes on at the position, in the log and with
/// the shape of the snapshot.
pub proof fn law_streams_follow_a_snapshot(s: SnapshotView)
    requires
        plain(s.log_id),
        plain(s.shape_handle),
    ensures
        ({
            let a = advanced(StreamView::Opening { snapshot: true }, 200, snapshot::snapshot_body(s));
            &&& carries(a.text, "snapshot"@, snapshot::snapshot_body(s))
            &&& goes_on_at(a, s.offset, s.log_id, s.shape_handle)
        }),
{
    snapshot::law_snapshot_body_reads_back(s);
    law_continuation_reads_back(s.offset, s.log_id, s.shape_handle);
    snapshot::lemma_no_shutdown(s);
    let a = advanced(StreamView::Opening { snapshot: true }, 200, snapshot::snapshot_body(s));
    let t = "event: "@ + "snapshot"@ + "\ndata: "@ + json::encoded(snapshot::snapshot_body(s)) + "\n\n"@;
    assert(t.take(t.len() as int) =~= t);
}

/// A stream that opens with a replay writes it, and goes on where the replay ends.
pub proof fn law_streams_follow_a_replay(r: ReplayView)
    requires
        plain(r.log_id),
        plain(r.shape_handle),
    ensures
        ({
            let a = advanced(StreamView::Opening { snapshot: false }, 200, replay::replay_body(r));
            &&& carries(a.text, "replay"@, replay::replay_body(r))
            &&& goes_on_at(a, r.offset, r.log_id, r.shape_handle)
        }),
{
    replay::law_replay_body_reads_back(r);
    law_continuation_reads_back(r.offset, r.log_id, r.shape_handle);
    let t = "event: "@ + "replay"@ + "\ndata: "@ + json::encoded(replay::replay_body(r)) + "\n\n"@;
    assert(t.take(t.len() as int) =~= t);
}

/// An open stream writes a replay that has messages and goes on where it ends, in the log and with
/// the shape that it has; for one without messages it writes nothing of it and stays where it is.
/// Either way it finds out whether the client is still there.
pub proof fn law_streams_write_what_is_new(offset: i64, log_id: Seq<char>, shape_handle: Seq<char>, r: ReplayView)
    requires
        plain(log_id),
        plain(shape_handle),
    ensures
        ({
            let s = StreamView::Open { offset, log_id, shape_handle };
            let a = advanced(s, 200, replay::replay_body(r));
            &&& r.messages.len() > 0 ==> carries(a.text, "replay"@, replay::replay_body(r)) && goes_on_at(
                a,
                r.offset,
                log_id,
                shape_handle,
            )
            &&& r.messages.len() == 0 ==> a.text == ": ping\n\n"@ && goes_on_at(a, offset, log_id, shape_handle)
            &&& a.text.len() >= 8
            &&& a.text.skip(a.text.len() - 8) == ": ping\n\n"@
        }),
{
    replay::law_replay_body_reads_back(r);
    law_continuation_reads_back(offset, log_id, shape_handle);
    law_continuation_reads_back(r.offset, log_id, shape_handle);
    reveal_strlit(": ping\n\n");
    let t = "event: "@ + "replay"@ + "\ndata: "@ + json::encoded(replay::replay_body(r)) + "\n\n"@;
    assert((t + ping()).take(t.len() as int) =~= t);
    let s = StreamView::Open { offset, log_id, shape_handle };
    let a = advanced(s, 200, replay::replay_body(r));
    assert(a.text.skip(a.text.len() - 8) =~= ping());
}

/// An error is written to the client before a stream ends.
pub proof fn law_errors_are_written(s: StreamView, status: u16, body: JsonView)
    requires
        !(s is Closed),
        status != 200,
    ensures
        carries(advanced(s, status, body).text, "error"@, body),
{
    let t = "event: "@ + "error"@ + "\ndata: "@ + json::encoded(body) + "\n\n"@;
    assert(t.take(t.len() as int) =~= t);
}

/// A stream opens with a snapshot where the request gives no position, and else with a replay.
pub proof fn law_streams_open_by_position(query: Seq<char>, n: i64)
    ensures
        route::entry(route::query_map(query), "offset"@) is None ==> opened(query) == (StreamView::Opening {
            snapshot: true,
        }),
        route::entry(route::query_map(query), "offset"@) == Some(text::decimal(n as int)) ==> opened(query) == (
        StreamView::Opening { snapshot: n == -1 }),
{
    text::law_decimal_reads_back(n);
}

/// A body without a position leaves a stream where it is: at the start of the log where it opens.
pub proof fn law_bodies_without_a_position_keep_it(
    snapshot: bool,
    offset: i64,
    log_id: Seq<char>,
    shape_handle: Seq<char>,
    body: JsonView,
)
    requires
        json::field(body, "offset"@) is None,
        !shuts_down(body),
    ensures
        advanced(StreamView::Opening { snapshot }, 200, body).stream matches StreamView::Open { offset: o, .. } && o
            == 0,
        advanced(StreamView::Open { offset, log_id, shape_handle }, 200, body).stream == (StreamView::Open {
            offset,
            log_id,
            shape_handle,
        }),
{
}

/// What the last answer of an engine that shuts down brings is written before the stream ends.
pub proof fn law_last_messages_are_written(
    offset: i64,
    log_id: Seq<char>,
    shape_handle: Seq<char>,
    r: ReplayView,
)
    ensures
        carries(
            advanced(StreamView::Opening { snapshot: false }, 200, replay::farewell_body(r)).text,
            "replay"@,
            replay::farewell_body(r),
        ),
        r.messages.len() > 0 ==> carries(
            advanced(StreamView::Open { offset, log_id, shape_handle }, 200, replay::farewell_body(r)).text,
            "replay"@,
            replay::farewell_body(r),
        ),
{
    replay::law_farewell_body_reads_back(r);
    let t = "event: "@ + "replay"@ + "\ndata: "@ + json::encoded(replay::farewell_body(r)) + "\n\n"@;
    assert(t.take(t.len() as int) =~= t);
    assert((t + ping()).take(t.len() as int) =~= t);
}

} // verus!
