//! Shapes served over HTTP: who may read them, and what a request is answered with.
use vstd::prelude::*;
use crate::engine::snapshot;
use crate::json::Json;
use crate::registry::{Replay, Shape, ShapeMessage, ShapeRegistry, Snapshot};
use crate::sqlite;

verus! {

/// `http::HeaderMap`: the headers of a request.
#[verifier::external_type_specification]
#[verifier::external_body]
#[verifier::reject_recursive_types(T)]
pub struct ExHeaderMap<T>(http::HeaderMap<T>);

/// `http::HeaderValue`: the value of a header.
#[verifier::external_type_specification]
#[verifier::external_body]
pub struct ExHeaderValue(http::HeaderValue);

/// `http::Extensions`: what the application attached to a request.
#[verifier::external_type_specification]
#[verifier::external_body]
pub struct ExExtensions(http::Extensions);

/// The prefix of the paths of shapes.
pub const DEFAULT_ROUTE_PREFIX: &'static str = "/electrolite/v1";

/// What an authorization decides.
#[derive(Debug, Clone, Copy, PartialEq, Eq, Structural)]
pub enum AuthDecision {
    Allow,
    Deny,
}

/// What an authorization sees of a request: its headers, what the application attached to it, the
/// shape that it asks for, and where the client is.
#[derive(Debug)]
pub struct AuthContext<'a> {
    pub headers: &'a http::HeaderMap<http::HeaderValue>,
    pub extensions: &'a http::Extensions,
    pub shape: &'a Shape,
    pub shape_name: &'a str,
    pub offset: i64,
    pub live: bool,
}

/// Decides who may read a shape.
pub trait Authorizer: Send + Sync + 'static {
    fn authorize(&self, context: &AuthContext<'_>) -> AuthDecision;
}

/// Lets everybody read every shape.
#[derive(Debug, Clone, Copy)]
pub struct AllowAll;

impl Authorizer for AllowAll {
    fn authorize(&self, _context: &AuthContext<'_>) -> (r: AuthDecision)
        ensures
            r == AuthDecision::Allow,
    {
        AuthDecision::Allow
    }
}

/// Where a client is, and whether it waits for changes.
#[derive(Debug, Clone, Copy)]
pub struct ShapeQuery {
    pub offset: i64,
    pub live: bool,
}

/// The body of a response with data.
#[derive(Debug, Clone, PartialEq)]
pub enum ShapeResponse {
    Snapshot { rows: Vec<Json>, offset: i64 },
    Replay { messages: Vec<ShapeMessage>, offset: i64 },
}

impl From<Snapshot> for ShapeResponse {
    fn from(snapshot: Snapshot) -> (r: ShapeResponse) {
        ShapeResponse::Snapshot { rows: snapshot.rows, offset: snapshot.offset }
    }
}

impl vstd::std_specs::convert::FromSpecImpl<Snapshot> for ShapeResponse {
    open spec fn obeys_from_spec() -> bool {
        true
    }

    open spec fn from_spec(snapshot: Snapshot) -> ShapeResponse {
        ShapeResponse::Snapshot { rows: snapshot.rows, offset: snapshot.offset }
    }
}

impl From<Replay> for ShapeResponse {
    fn from(replay: Replay) -> (r: ShapeResponse) {
        ShapeResponse::Replay { messages: replay.messages, offset: replay.offset }
    }
}

impl vstd::std_specs::convert::FromSpecImpl<Replay> for ShapeResponse {
    open spec fn obeys_from_spec() -> bool {
        true
    }

    open spec fn from_spec(replay: Replay) -> ShapeResponse {
        ShapeResponse::Replay { messages: replay.messages, offset: replay.offset }
    }
}

/// The body of an error response.
#[derive(Debug, Clone, PartialEq)]
pub struct ErrorBody {
    pub error: String,
}

/// Why a request gets no data.
#[derive(Debug, Clone, Copy, PartialEq, Eq, Structural)]
pub enum ServerError {
    ShapeNotFound,
    ShapeDenied,
    ResyncRequired,
    Sqlite,
    Electrolite,
}

impl From<sqlite::Error> for ServerError {
    fn from(e: sqlite::Error) -> (r: ServerError) {
        ServerError::Electrolite
    }
}

impl vstd::std_specs::convert::FromSpecImpl<sqlite::Error> for ServerError {
    open spec fn obeys_from_spec() -> bool {
        true
    }

    open spec fn from_spec(e: sqlite::Error) -> ServerError {
        ServerError::Electrolite
    }
}

/// The status of an error response.
pub open spec fn error_status(e: ServerError) -> u16 {
    match e {
        ServerError::ShapeNotFound => 404,
        ServerError::ShapeDenied => 404,
        ServerError::ResyncRequired => 409,
        ServerError::Sqlite => 500,
        ServerError::Electrolite => 500,
    }
}

/// The text in the body of an error response.
pub open spec fn error_text(e: ServerError) -> Seq<char> {
    match e {
        ServerError::ShapeNotFound => "shape_not_found"@,
        ServerError::ShapeDenied => "shape_not_found"@,
        ServerError::ResyncRequired => "resync_required"@,
        ServerError::Sqlite => "internal_server_error"@,
        ServerError::Electrolite => "internal_server_error"@,
    }
}

impl ServerError {
    /// The status and the body of the error response.
    pub fn into_parts(self) -> (r: (u16, ErrorBody))
        ensures
            r.0 == error_status(self),
            r.1.error@ == error_text(self),
    {
        match self {
            ServerError::ShapeNotFound => (404, ErrorBody { error: "shape_not_found".to_string() }),
            ServerError::ShapeDenied => (404, ErrorBody { error: "shape_not_found".to_string() }),
            ServerError::ResyncRequired => (409, ErrorBody { error: "resync_required".to_string() }),
            ServerError::Sqlite => (500, ErrorBody { error: "internal_server_error".to_string() }),
            ServerError::Electrolite => (500, ErrorBody { error: "internal_server_error".to_string() }),
        }
    }
}

/// A shape that a client may not read is answered like one that does not exist.
pub proof fn law_denied_shapes_look_missing()
    ensures
        error_status(ServerError::ShapeDenied) == error_status(ServerError::ShapeNotFound),
        error_text(ServerError::ShapeDenied) == error_text(ServerError::ShapeNotFound),
{
}

/// What fails inside is answered alike, whatever it is.
pub proof fn law_internal_errors_look_alike(e: ServerError, f: ServerError)
    requires
        error_status(e) == 500,
        error_status(f) == 500,
    ensures
        error_text(e) == error_text(f),
{
}

/// A server: its database, its shapes, who may read them, how many changes a replay takes, and, in
/// milliseconds, how long a live request waits and how often it looks.
pub struct ServerState<A> {
    pub db_path: String,
    pub registry: ShapeRegistry,
    pub authorizer: A,
    pub replay_limit: i64,
    pub live_timeout: u64,
    pub poll_interval: u64,
}

impl<A: Authorizer> ServerState<A> {
    /// A server with replays of a thousand changes, whose live requests wait for twenty seconds and
    /// look four times a second.
    pub fn new(db_path: &str, registry: ShapeRegistry, authorizer: A) -> (r: Self)
        ensures
            r.db_path@ == db_path@,
            r.registry == registry,
            r.authorizer == authorizer,
            r.replay_limit == 1000,
            r.live_timeout == 20_000,
            r.poll_interval == 250,
    {
        ServerState {
            db_path: db_path.to_string(),
            registry,
            authorizer,
            replay_limit: 1000,
            live_timeout: 20_000,
            poll_interval: 250,
        }
    }

    /// The same server with replays of another size: at least one change.
    pub fn with_replay_limit(self, replay_limit: i64) -> (r: Self)
        ensures
            r == (ServerState {
                replay_limit: if replay_limit < 1 {
                    1
                } else {
                    replay_limit
                },
                ..self
            }),
    {
        let limit: i64 = if replay_limit < 1 {
            1
        } else {
            replay_limit
        };
        ServerState { replay_limit: limit, ..self }
    }

    /// The same server whose live requests wait for another time.
    pub fn with_live_timeout(self, live_timeout: u64) -> (r: Self)
        ensures
            r == (ServerState { live_timeout, ..self }),
    {
        ServerState { live_timeout, ..self }
    }

    /// The same server whose live requests look at another interval.
    pub fn with_poll_interval(self, poll_interval: u64) -> (r: Self)
        ensures
            r == (ServerState { poll_interval, ..self }),
    {
        ServerState { poll_interval, ..self }
    }
}

/// How a request is answered.
#[derive(Debug, Clone, Copy, PartialEq, Eq, Structural)]
pub enum Plan {
    /// With the rows as they are.
    Snapshot,
    /// With the messages behind its position, once there are any.
    Live,
    /// With the messages behind its position.
    Replay,
}

/// How a request is answered: a client without a position gets a snapshot, live or not.
pub open spec fn planned(query: ShapeQuery) -> Plan {
    if query.offset < 0 {
        Plan::Snapshot
    } else if query.live {
        Plan::Live
    } else {
        Plan::Replay
    }
}

/// How a request is answered.
pub fn plan(query: &ShapeQuery) -> (r: Plan)
    ensures
        r == planned(*query),
{
    if query.offset < 0 {
        Plan::Snapshot
    } else if query.live {
        Plan::Live
    } else {
        Plan::Replay
    }
}

/// What a decision makes of a request.
pub open spec fn decided(d: AuthDecision) -> Result<(), ServerError> {
    match d {
        AuthDecision::Allow => Ok(()),
        AuthDecision::Deny => Err(ServerError::ShapeDenied),
    }
}

/// What a decision makes of a request.
pub fn decide(d: AuthDecision) -> (r: Result<(), ServerError>)
    ensures
        r == decided(d),
{
    match d {
        AuthDecision::Allow => Ok(()),
        AuthDecision::Deny => Err(ServerError::ShapeDenied),
    }
}

/// Asks whether a client may read a shape.
pub fn authorize_shape<A: Authorizer>(
    authorizer: &A,
    headers: &http::HeaderMap<http::HeaderValue>,
    extensions: &http::Extensions,
    name: &str,
    shape: &Shape,
    query: &ShapeQuery,
) -> (r: Result<(), ServerError>)
    ensures
        exists|c: AuthContext, d: AuthDecision| #[trigger]
            call_ensures(A::authorize, (authorizer, &c), d) && asks(c, headers, extensions, name, shape, query)
                && r == decided(d),
{
    let context = AuthContext {
        headers,
        extensions,
        shape,
        shape_name: name,
        offset: query.offset,
        live: query.live,
    };
    let d = authorizer.authorize(&context);
    assert(call_ensures(A::authorize, (authorizer, &context), d));
    assert(asks(context, headers, extensions, name, shape, query));
    decide(d)
}

/// Whether a context is that of a request.
pub open spec fn asks(
    c: AuthContext,
    headers: &http::HeaderMap<http::HeaderValue>,
    extensions: &http::Extensions,
    name: &str,
    shape: &Shape,
    query: &ShapeQuery,
) -> bool {
    &&& c.headers == headers
    &&& c.extensions == extensions
    &&& c.shape == shape
    &&& c.shape_name == name
    &&& c.offset == query.offset
    &&& c.live == query.live
}

/// The shape and the plan of a request that may be answered. Nothing is read from the database for
/// it before.
pub fn get_shape<A: Authorizer>(
    state: &ServerState<A>,
    headers: &http::HeaderMap<http::HeaderValue>,
    extensions: &http::Extensions,
    name: &str,
    query: &ShapeQuery,
) -> (r: Result<(Shape, Plan), ServerError>)
    ensures
        !state.registry@.contains_key(name@) ==> r == Err::<(Shape, Plan), ServerError>(
            ServerError::ShapeNotFound,
        ),
        state.registry@.contains_key(name@) ==> exists|c: AuthContext, d: AuthDecision| #[trigger]
            call_ensures(A::authorize, (&state.authorizer, &c), d) && {
                &&& c.headers == headers
                &&& c.extensions == extensions
                &&& c.shape@ == state.registry@[name@]
                &&& c.shape_name == name
                &&& c.offset == query.offset
                &&& c.live == query.live
                &&& match r {
                    Ok(p) => d == AuthDecision::Allow && p.0@ == state.registry@[name@] && p.1 == planned(*query),
                    Err(e) => d == AuthDecision::Deny && e == ServerError::ShapeDenied,
                }
            },
{
    match state.registry.get(name) {
        None => Err(ServerError::ShapeNotFound),
        Some(shape) => {
            match authorize_shape(&state.authorizer, headers, extensions, name, shape, query) {
                Ok(()) => Ok((shape.clone(), plan(query))),
                Err(e) => Err(e),
            }
        },
    }
}

/// What becomes of a request with a position: it is refused where changes behind its position are
/// gone.
pub open spec fn checked(offset: i64, retained: i64) -> Result<(), ServerError> {
    if offset < retained {
        Err(ServerError::ResyncRequired)
    } else {
        Ok(())
    }
}

/// Refuses a position whose changes are gone: the client has to start over with a snapshot.
pub fn check_position(offset: i64, retained: i64) -> (r: Result<(), ServerError>)
    ensures
        r == checked(offset, retained),
        r is Err <==> offset < retained,
{
    if offset < retained {
        Err(ServerError::ResyncRequired)
    } else {
        Ok(())
    }
}

/// A client whose position is gone is told to start over.
pub proof fn law_gone_positions_resync(offset: i64, retained: i64)
    requires
        offset < retained,
    ensures
        checked(offset, retained) matches Err(e) && error_status(e) == 409 && error_text(e) == "resync_required"@,
{
}

/// A client that starts over is not refused again: the position of a snapshot is accepted as long
/// as nothing more is compacted.
pub proof fn law_snapshot_leads_to_replay(high_water: i64, retained: i64)
    ensures
        checked(snapshot::pinned(high_water, retained), retained) is Ok,
{
}

/// What a live request does once its replay is read.
#[derive(Debug, Clone, Copy, PartialEq, Eq, Structural)]
pub enum LiveStep {
    /// Answers with the replay.
    Respond,
    /// Answers that nothing has changed.
    NoContent,
    /// Reads again at a time, or once something has changed.
    Wait { until: u64 },
}

/// The sum of two times, as far as it can be written.
pub open spec fn later(a: u64, b: u64) -> u64 {
    if a + b > u64::MAX {
        u64::MAX
    } else {
        (a + b) as u64
    }
}

/// When a live request gives up.
pub fn deadline(start: u64, live_timeout: u64) -> (r: u64)
    ensures
        r == later(start, live_timeout),
{
    if start > u64::MAX - live_timeout {
        u64::MAX
    } else {
        start + live_timeout
    }
}

/// What a live request does once its replay is read: it answers with a replay that has gone
/// forward or has messages, gives up at its deadline, and else waits for the next look, at the
/// latest for the deadline.
pub open spec fn live_decision(
    replay_offset: i64,
    has_messages: bool,
    offset: i64,
    now: u64,
    deadline: u64,
    poll_interval: u64,
) -> LiveStep {
    if replay_offset > offset || has_messages {
        LiveStep::Respond
    } else if now >= deadline {
        LiveStep::NoContent
    } else if later(now, poll_interval) < deadline {
        LiveStep::Wait { until: later(now, poll_interval) }
    } else {
        LiveStep::Wait { until: deadline }
    }
}

/// What a live request does once its replay is read.
pub fn live_replay(replay: &Replay, offset: i64, now: u64, deadline: u64, poll_interval: u64) -> (r: LiveStep)
    ensures
        r == live_decision(replay.offset, replay.messages@.len() > 0, offset, now, deadline, poll_interval),
{
    if replay.offset > offset || replay.messages.len() > 0 {
        return LiveStep::Respond;
    }
    if now >= deadline {
        return LiveStep::NoContent;
    }
    let next_poll: u64 = self::deadline(now, poll_interval);
    if next_poll < deadline {
        LiveStep::Wait { until: next_poll }
    } else {
        LiveStep::Wait { until: deadline }
    }
}

/// A live request that has something to say says it at once, whatever the time.
pub proof fn law_news_is_answered_at_once(
    replay_offset: i64,
    has_messages: bool,
    offset: i64,
    now: u64,
    deadline: u64,
    poll_interval: u64,
)
    requires
        replay_offset > offset || has_messages,
    ensures
        live_decision(replay_offset, has_messages, offset, now, deadline, poll_interval) == LiveStep::Respond,
{
}

/// A live request never waits behind its deadline, and at its deadline it is answered.
pub proof fn law_live_requests_end(
    replay_offset: i64,
    has_messages: bool,
    offset: i64,
    now: u64,
    deadline: u64,
    poll_interval: u64,
)
    ensures
        live_decision(replay_offset, has_messages, offset, now, deadline, poll_interval) matches LiveStep::Wait {
            until,
        } ==> now < deadline && now <= until <= deadline,
        now >= deadline ==> !(live_decision(
            replay_offset,
            has_messages,
            offset,
            now,
            deadline,
            poll_interval,
        ) is Wait),
{
}

/// What a response says of an error: a shape that is missing or may not be read is not found, a
/// client whose position is gone has to start over, and every other error is one of the server.
pub proof fn law_error_responses_say_what_is_wrong(e: ServerError)
    ensures
        error_status(e) == 404 <==> e == ServerError::ShapeNotFound || e == ServerError::ShapeDenied,
        error_status(e) == 409 <==> e == ServerError::ResyncRequired,
        error_status(e) == 500 <==> e == ServerError::Sqlite || e == ServerError::Electrolite,
        error_status(e) == 404 ==> error_text(e) == "shape_not_found"@,
        error_status(e) == 409 ==> error_text(e) == "resync_required"@,
        error_status(e) == 500 ==> error_text(e) == "internal_server_error"@,
{
}

/// A client without a position gets a snapshot; one that has a position gets what is behind it, at
/// once or, where it asks to wait, once there is something.
pub proof fn law_positions_decide_the_plan(query: ShapeQuery)
    ensures
        planned(query) == Plan::Snapshot <==> query.offset < 0,
        planned(query) == Plan::Live <==> query.offset >= 0 && query.live,
        planned(query) == Plan::Replay <==> query.offset >= 0 && !query.live,
{
}

/// A client reads a shape where the authorization allows it, and else is answered as if there were
/// none.
pub proof fn law_decisions_are_kept(d: AuthDecision)
    ensures
        decided(d) is Ok <==> d == AuthDecision::Allow,
        decided(d) matches Err(e) ==> error_status(e) == error_status(ServerError::ShapeNotFound) && error_text(e)
            == error_text(ServerError::ShapeNotFound),
{
}

/// A position is accepted where no change behind it is gone.
pub proof fn law_kept_positions_are_accepted(offset: i64, retained: i64)
    ensures
        checked(offset, retained) is Ok <==> retained <= offset,
{
}

/// A live request without news waits for the interval, or until its deadline where that is earlier,
/// and gives up at its deadline, not before.
pub proof fn law_quiet_requests_wait(offset: i64, replay_offset: i64, now: u64, deadline: u64, poll_interval: u64)
    requires
        replay_offset <= offset,
    ensures
        live_decision(replay_offset, false, offset, now, deadline, poll_interval) == LiveStep::NoContent <==> now
            >= deadline,
        live_decision(replay_offset, false, offset, now, deadline, poll_interval) matches LiveStep::Wait { until } ==> {
            &&& until <= now + poll_interval
            &&& until == deadline || until == now + poll_interval
        },
        live_decision(replay_offset, false, offset, now, deadline, poll_interval) != LiveStep::Respond,
{
}

/// The deadline of a live request is its start and the time that it waits, as far as that can be
/// written.
pub proof fn law_deadlines_are_sums(start: u64, live_timeout: u64)
    ensures
        start + live_timeout <= u64::MAX ==> later(start, live_timeout) == start + live_timeout,
        start + live_timeout > u64::MAX ==> later(start, live_timeout) == u64::MAX,
        later(start, live_timeout) >= start,
{
}

} // verus!
