//! Requests: from a path and a query string to a response, one question at a time.
//!
//! A request goes through phases. In each of them it waits for the outcome of one action: asking
//! the application whether the request is authorized, reading the database, waiting for a change.
//! The application performs the action and hands the outcome back as an event.
use vstd::prelude::*;
use vstd::hash_map::StringHashMap;
use crate::engine::error::{Error, ErrorView};
use crate::engine::log::LogRowView;
use crate::engine::predicate::{Predicate, PredicateView};
use crate::engine::replay;
use crate::engine::replay::{Replay, ReplayView};
use crate::engine::replaying;
use crate::engine::route;
use crate::engine::route::{Route, RouteView};
use crate::engine::shape;
use crate::engine::shape::{Shape, ShapeView};
use crate::engine::snapshot;
use crate::engine::snapshot::{DescribedView, Snapshot, SnapshotView};
use crate::engine::table::TableInfoView;
use crate::json;
use crate::json::{Json, JsonObject, JsonView};
use crate::text;

verus! {

broadcast use vstd::hash_map::group_hash_map_axioms;

/// What the callbacks of a shape see of a request: the parameters by name and the context that the
/// application gave.
pub struct BuildContext<'a> {
    pub params: &'a StringHashMap<String>,
    pub context: &'a Json,
}

/// What the authorization of a shape sees of a request: besides, the audience of the shape.
pub struct AuthContext<'a> {
    pub params: &'a StringHashMap<String>,
    pub context: &'a Json,
    pub scope: &'a str,
}

/// A shape that clients ask for by name.
#[derive(Debug)]
pub struct ShapeDef {
    pub table: String,
    pub columns: Vec<String>,
    pub params: Vec<String>,
    pub schema_version: u32,
}

/// The model of a named shape.
pub struct ShapeDefView {
    pub table: Seq<char>,
    pub columns: Seq<Seq<char>>,
    pub params: Seq<Seq<char>>,
    pub schema_version: u32,
}

impl View for ShapeDef {
    type V = ShapeDefView;

    open spec fn view(&self) -> ShapeDefView {
        ShapeDefView {
            table: self.table@,
            columns: text::texts(self.columns@),
            params: text::texts(self.params@),
            schema_version: self.schema_version,
        }
    }
}

impl ShapeDef {
    /// A named shape without parameters, in the first version of its schema.
    pub fn new(table: &str, columns: Vec<String>) -> (r: Self)
        ensures
            r@ == (ShapeDefView {
                table: table@,
                columns: text::texts(columns@),
                params: Seq::empty(),
                schema_version: 1,
            }),
    {
        let params: Vec<String> = Vec::new();
        assert(text::texts(params@) =~= Seq::empty());
        ShapeDef { table: table.to_string(), columns, params, schema_version: 1 }
    }

    /// The same shape with these parameters.
    pub fn params(self, params: Vec<String>) -> (r: Self)
        ensures
            r@ == (ShapeDefView { params: text::texts(params@), ..self@ }),
    {
        ShapeDef { table: self.table, columns: self.columns, params, schema_version: self.schema_version }
    }
}

/// The named shapes of an application, the prefix of their paths, and the size of a replay.
pub struct Electrolite {
    pub shapes: StringHashMap<ShapeDef>,
    pub prefix: String,
    pub replay_limit: i64,
}

/// The model of an engine.
pub struct ElectroliteView {
    pub shapes: Map<Seq<char>, ShapeDefView>,
    pub prefix: Seq<char>,
    pub replay_limit: i64,
}

impl View for Electrolite {
    type V = ElectroliteView;

    open spec fn view(&self) -> ElectroliteView {
        ElectroliteView {
            shapes: self.shapes@.map_values(|d: ShapeDef| d@),
            prefix: self.prefix@,
            replay_limit: self.replay_limit,
        }
    }
}

impl Electrolite {
    /// An engine without shapes, with the usual prefix and replays of a thousand changes.
    pub fn new() -> (r: Self)
        ensures
            r@ == (ElectroliteView {
                shapes: Map::empty(),
                prefix: "/electrolite/v1"@,
                replay_limit: 1000,
            }),
    {
        let r = Electrolite {
            shapes: StringHashMap::new(),
            prefix: "/electrolite/v1".to_string(),
            replay_limit: 1000,
        };
        assert(r@.shapes =~= Map::empty());
        r
    }

    /// Adds a shape under a name, in place of one that had it.
    pub fn add_shape(&mut self, name: &str, def: ShapeDef) -> (r: &mut Self)
        ensures
            r@ == (ElectroliteView { shapes: old(self)@.shapes.insert(name@, def@), ..old(self)@ }),
            *final(self) == *final(r),
    {
        let ghost before = self@;
        self.shapes.insert(name.to_string(), def);
        assert(self@.shapes =~= before.shapes.insert(name@, def@));
        self
    }

    /// Sets the prefix of the paths of shapes.
    pub fn set_prefix(&mut self, prefix: &str) -> (r: &mut Self)
        ensures
            r@ == (ElectroliteView { prefix: prefix@, ..old(self)@ }),
            *final(self) == *final(r),
    {
        self.prefix = prefix.to_string();
        self
    }

    /// Sets the size of a replay: at least one change.
    pub fn set_replay_limit(&mut self, limit: i64) -> (r: &mut Self)
        ensures
            r@ == (ElectroliteView { replay_limit: replay::page_size(limit), ..old(self)@ }),
            *final(self) == *final(r),
    {
        self.replay_limit = replay::page_limit(limit);
        self
    }
}

/// A request for a known shape.
pub struct Request {
    pub route: Route,
    pub table: String,
    pub columns: Vec<String>,
    pub schema_version: u32,
    pub params: StringHashMap<String>,
}

/// The model of a request.
pub struct RequestView {
    pub route: RouteView,
    pub table: Seq<char>,
    pub columns: Seq<Seq<char>>,
    pub schema_version: u32,
    pub params: Map<Seq<char>, Seq<char>>,
}

impl View for Request {
    type V = RequestView;

    open spec fn view(&self) -> RequestView {
        RequestView {
            route: self.route@,
            table: self.table@,
            columns: text::texts(self.columns@),
            schema_version: self.schema_version,
            params: route::text_map(self.params@),
        }
    }
}

/// Where a request is.
pub enum Phase {
    /// Waits for the audience of the shape and whether the client belongs to it.
    Authorizing { request: Request },
    /// Waits for the predicate of the shape.
    Filtering { request: Request, scope: String },
    /// Waits for the identity of the log.
    Identifying { route: Route, shape: Shape },
    /// Waits for the handle of the shape.
    Naming { route: Route, shape: Shape },
    /// Waits for the snapshot or the replay.
    Reading { route: Route, shape: Shape },
    /// Waits for a change.
    Waiting { route: Route, shape: Shape },
    /// Waits for the replay behind a wait.
    Rereading { route: Route, shape: Shape, shutdown: bool },
    /// Is answered.
    Done,
}

/// The model of where a request is.
pub enum PhaseView {
    Authorizing { request: RequestView },
    Filtering { request: RequestView, scope: Seq<char> },
    Identifying { route: RouteView, shape: ShapeView },
    Naming { route: RouteView, shape: ShapeView },
    Reading { route: RouteView, shape: ShapeView },
    Waiting { route: RouteView, shape: ShapeView },
    Rereading { route: RouteView, shape: ShapeView, shutdown: bool },
    Done,
}

impl View for Phase {
    type V = PhaseView;

    open spec fn view(&self) -> PhaseView {
        match self {
            Phase::Authorizing { request } => PhaseView::Authorizing { request: request@ },
            Phase::Filtering { request, scope } => PhaseView::Filtering { request: request@, scope: scope@ },
            Phase::Identifying { route, shape } => PhaseView::Identifying { route: route@, shape: shape@ },
            Phase::Naming { route, shape } => PhaseView::Naming { route: route@, shape: shape@ },
            Phase::Reading { route, shape } => PhaseView::Reading { route: route@, shape: shape@ },
            Phase::Waiting { route, shape } => PhaseView::Waiting { route: route@, shape: shape@ },
            Phase::Rereading { route, shape, shutdown } => PhaseView::Rereading {
                route: route@,
                shape: shape@,
                shutdown: *shutdown,
            },
            Phase::Done => PhaseView::Done,
        }
    }
}

/// The outcome of an action.
pub enum Event {
    Authorized { allowed: bool, scope: String },
    Filtered(Predicate),
    LogId(Result<String, Error>),
    Handle(Result<String, Error>),
    Snapshot(Result<Snapshot, Error>),
    Replay(Result<Replay, Error>),
    Woken { shutdown: bool },
}

/// The model of an outcome.
pub enum EventView {
    Authorized { allowed: bool, scope: Seq<char> },
    Filtered(PredicateView),
    LogId(Result<Seq<char>, ErrorView>),
    Handle(Result<Seq<char>, ErrorView>),
    Snapshot(Result<SnapshotView, ErrorView>),
    Replay(Result<ReplayView, ErrorView>),
    Woken { shutdown: bool },
}

/// The model of a result.
pub open spec fn text_result(r: Result<String, Error>) -> Result<Seq<char>, ErrorView> {
    match r {
        Ok(s) => Ok(s@),
        Err(e) => Err(e@),
    }
}

impl View for Event {
    type V = EventView;

    open spec fn view(&self) -> EventView {
        match self {
            Event::Authorized { allowed, scope } => EventView::Authorized { allowed: *allowed, scope: scope@ },
            Event::Filtered(p) => EventView::Filtered(p@),
            Event::LogId(r) => EventView::LogId(text_result(*r)),
            Event::Handle(r) => EventView::Handle(text_result(*r)),
            Event::Snapshot(r) => EventView::Snapshot(
                match r {
                    Ok(s) => Ok(s@),
                    Err(e) => Err(e@),
                },
            ),
            Event::Replay(r) => EventView::Replay(
                match r {
                    Ok(s) => Ok(s@),
                    Err(e) => Err(e@),
                },
            ),
            Event::Woken { shutdown } => EventView::Woken { shutdown: *shutdown },
        }
    }
}

/// What the application does next for a request.
#[derive(Debug)]
pub enum Action {
    /// Find the audience of the shape, and whether the client belongs to it.
    Authorize,
    /// Build the predicate of the shape.
    Filter,
    /// Read the identity of the log.
    ReadLogId,
    /// Check the shape against its table, for its handle.
    Describe,
    /// Read a snapshot of the shape.
    ReadSnapshot,
    /// Read the replay of the shape behind the position of the client.
    ReadReplay,
    /// Wait for a change, a timeout or the end of the engine.
    Wait,
    /// Answer the request.
    Respond { status: u16, body: Json },
}

/// The model of an action.
pub enum ActionView {
    Authorize,
    Filter,
    ReadLogId,
    Describe,
    ReadSnapshot,
    ReadReplay,
    Wait,
    Respond { status: u16, body: JsonView },
}

impl View for Action {
    type V = ActionView;

    open spec fn view(&self) -> ActionView {
        match self {
            Action::Authorize => ActionView::Authorize,
            Action::Filter => ActionView::Filter,
            Action::ReadLogId => ActionView::ReadLogId,
            Action::Describe => ActionView::Describe,
            Action::ReadSnapshot => ActionView::ReadSnapshot,
            Action::ReadReplay => ActionView::ReadReplay,
            Action::Wait => ActionView::Wait,
            Action::Respond { status, body } => ActionView::Respond { status: *status, body: body@ },
        }
    }
}

/// The body of an error response.
pub open spec fn error_body(error: Seq<char>) -> JsonView {
    JsonView::Object(json::put(shape::no_entries(), "error"@, JsonView::Text(error)))
}

/// The end of a request.
pub open spec fn answer(status: u16, body: JsonView) -> (PhaseView, ActionView) {
    (PhaseView::Done, ActionView::Respond { status, body })
}

/// The answer for every shape that the client may not know of.
pub open spec fn not_found() -> (PhaseView, ActionView) {
    answer(404, error_body("shape_not_found"@))
}

/// The answer for every client whose copy cannot be brought up to date.
pub open spec fn resync() -> (PhaseView, ActionView) {
    answer(409, error_body("resync_required"@))
}

/// The answer for what is not the fault of the client.
pub open spec fn internal() -> (PhaseView, ActionView) {
    answer(500, error_body("internal"@))
}

/// The answer for an error.
pub open spec fn refused(e: ErrorView) -> (PhaseView, ActionView) {
    match e {
        ErrorView::ResyncRequired => resync(),
        ErrorView::BadInput(detail) => answer(
            400,
            JsonView::Object(
                json::put(
                    json::put(shape::no_entries(), "error"@, JsonView::Text("bad_request"@)),
                    "detail"@,
                    JsonView::Text(detail),
                ),
            ),
        ),
        _ => internal(),
    }
}

/// The shape that a request is for.
pub open spec fn requested(request: RequestView, scope: Seq<char>, p: PredicateView) -> ShapeView {
    ShapeView {
        table: request.table,
        columns: request.columns,
        predicate: p,
        auth_scope: scope,
        schema_version: request.schema_version,
    }
}

/// The start of a request: a path that names no shape, a name that is not known, and parameters
/// that do not fit are answered alike.
pub open spec fn begun(
    engine: ElectroliteView,
    path: Seq<char>,
    query: Seq<char>,
) -> (PhaseView, ActionView) {
    match route::routed(engine.prefix, path, query) {
        None => not_found(),
        Some(r) => if !engine.shapes.contains_key(r.name) {
            not_found()
        } else {
            let def = engine.shapes[r.name];
            match route::bound_params(def.params, r.params) {
                None => not_found(),
                Some(params) => (
                    PhaseView::Authorizing {
                        request: RequestView {
                            route: r,
                            table: def.table,
                            columns: def.columns,
                            schema_version: def.schema_version,
                            params,
                        },
                    },
                    ActionView::Authorize,
                ),
            }
        },
    }
}

/// The read of the data: a snapshot where the client has no position, else a replay.
pub open spec fn reading(route: RouteView, shape: ShapeView) -> (PhaseView, ActionView) {
    (
        PhaseView::Reading { route, shape },
        if route.offset < 0 {
            ActionView::ReadSnapshot
        } else {
            ActionView::ReadReplay
        },
    )
}

/// The answer where a shape could not be checked against its table, so that its handle is not known.
/// A predicate that makes no sense is a bad request. Otherwise the handle that the client names is
/// held against that of the shape as it is defined: a client that names another one has to start
/// over.
pub open spec fn unnamed(route: RouteView, shape: ShapeView, e: ErrorView) -> (PhaseView, ActionView) {
    if e is BadInput || route.shape_handle == Some(shape::shape_handle(shape)) {
        refused(e)
    } else {
        resync()
    }
}

/// The next phase and action of a request. A client with a position has to name the log that the
/// position is in, and the shape by its handle where it names one. A live request whose replay is
/// empty and up to date waits once, and is answered by the replay behind the wait.
pub open spec fn next(phase: PhaseView, event: EventView) -> (PhaseView, ActionView) {
    match (phase, event) {
        (PhaseView::Authorizing { request }, EventView::Authorized { allowed, scope }) => if allowed {
            (PhaseView::Filtering { request, scope }, ActionView::Filter)
        } else {
            not_found()
        },
        (PhaseView::Filtering { request, scope }, EventView::Filtered(p)) => (
            PhaseView::Identifying { route: request.route, shape: requested(request, scope, p) },
            ActionView::ReadLogId,
        ),
        (PhaseView::Identifying { route, shape }, EventView::LogId(r)) => match r {
            Err(_) => internal(),
            Ok(log_id) => if route.offset < 0 {
                reading(route, shape)
            } else if route.log_id != Some(log_id) {
                resync()
            } else if route.shape_handle is Some {
                (PhaseView::Naming { route, shape }, ActionView::Describe)
            } else {
                reading(route, shape)
            },
        },
        (PhaseView::Naming { route, shape }, EventView::Handle(r)) => match r {
            Err(e) => unnamed(route, shape, e),
            Ok(handle) => if route.shape_handle == Some(handle) {
                reading(route, shape)
            } else {
                resync()
            },
        },
        (PhaseView::Reading { route, shape }, EventView::Snapshot(r)) => match r {
            Err(e) => refused(e),
            Ok(s) => answer(200, snapshot::snapshot_body(s)),
        },
        (PhaseView::Reading { route, shape }, EventView::Replay(r)) => match r {
            Err(e) => refused(e),
            Ok(b) => if route.live && b.messages.len() == 0 && b.up_to_date {
                (PhaseView::Waiting { route, shape }, ActionView::Wait)
            } else {
                answer(200, replay::replay_body(b))
            },
        },
        (PhaseView::Waiting { route, shape }, EventView::Woken { shutdown }) => (
            PhaseView::Rereading { route, shape, shutdown },
            ActionView::ReadReplay,
        ),
        (PhaseView::Rereading { route, shape, shutdown }, EventView::Replay(r)) => match r {
            Err(e) => refused(e),
            Ok(b) => if shutdown {
                answer(200, replay::farewell_body(b))
            } else {
                answer(200, replay::replay_body(b))
            },
        },
        _ => internal(),
    }
}

/// The model of a phase and an action.
pub open spec fn step_view(r: (Phase, Action)) -> (PhaseView, ActionView) {
    (r.0@, r.1@)
}

fn respond_error(status: u16, error: &str) -> (r: (Phase, Action))
    ensures
        step_view(r) == answer(status, error_body(error@)),
{
    let mut o = JsonObject::new();
    o.insert("error".to_string(), Json::text(error));
    (Phase::Done, Action::Respond { status, body: Json::Object(o) })
}

/// The answer for an error.
pub fn refuse(e: &Error) -> (r: (Phase, Action))
    ensures
        step_view(r) == refused(e@),
{
    match e {
        Error::ResyncRequired => respond_error(409, "resync_required"),
        Error::BadInput(detail) => {
            let mut o = JsonObject::new();
            o.insert("error".to_string(), Json::text("bad_request"));
            o.insert("detail".to_string(), Json::text(detail.as_str()));
            (Phase::Done, Action::Respond { status: 400, body: Json::Object(o) })
        },
        Error::Bad(_) => respond_error(500, "internal"),
        Error::Sqlite(_) => respond_error(500, "internal"),
    }
}

impl Electrolite {
    /// The start of a request.
    pub fn begin(&self, path: &str, query: &str) -> (r: (Phase, Action))
        ensures
            step_view(r) == begun(self@, path@, query@),
    {
        let route = match route::parse_route(self.prefix.as_str(), path, query) {
            Some(route) => route,
            None => {
                return respond_error(404, "shape_not_found");
            },
        };
        match self.shapes.get(route.name.as_str()) {
            Some(def) => {
                assert(self@.shapes[route@.name] == def@);
                match route::bind_params(&def.params, &route.params) {
                    Some(params) => {
                        let request = Request {
                            route,
                            table: def.table.clone(),
                            columns: text::copy_texts(&def.columns),
                            schema_version: def.schema_version,
                            params,
                        };
                        (Phase::Authorizing { request }, Action::Authorize)
                    },
                    None => respond_error(404, "shape_not_found"),
                }
            },
            None => respond_error(404, "shape_not_found"),
        }
    }
}

fn read_data(route: Route, shape: Shape) -> (r: (Phase, Action))
    ensures
        step_view(r) == reading(route@, shape@),
{
    let action = if route.offset < 0 {
        Action::ReadSnapshot
    } else {
        Action::ReadReplay
    };
    (Phase::Reading { route, shape }, action)
}

fn is_text(a: &Option<String>, b: &str) -> (r: bool)
    ensures
        r == (route::option_string(*a) == Some(b@)),
{
    match a {
        Some(s) => text::same_text(s.as_str(), b),
        None => false,
    }
}

fn refuse_unnamed(route: &Route, shape: &Shape, e: &Error) -> (r: (Phase, Action))
    ensures
        step_view(r) == unnamed(route@, shape@, e@),
{
    if let Error::BadInput(_) = e {
        return refuse(e);
    }
    let defined = shape::normalize_shape(shape);
    let handle = shape::handle(&defined);
    if is_text(&route.shape_handle, handle.as_str()) {
        refuse(e)
    } else {
        respond_error(409, "resync_required")
    }
}

/// The audience of a shape: empty where none is found for it.
pub open spec fn audience_of(scope: Option<Seq<char>>) -> Seq<char> {
    match scope {
        Some(s) => s,
        None => Seq::empty(),
    }
}

/// The audience of a shape.
pub fn audience(scope: Option<String>) -> (r: String)
    ensures
        r@ == audience_of(route::option_string(scope)),
{
    match scope {
        Some(s) => s,
        None => String::new(),
    }
}

/// The outcome of an authorization: a shape without one is for everybody.
pub fn authorized(decision: Option<bool>, scope: Option<String>) -> (r: Event)
    ensures
        r@ == (EventView::Authorized {
            allowed: decision != Some(false),
            scope: audience_of(route::option_string(scope)),
        }),
{
    let allowed = match decision {
        Some(b) => b,
        None => true,
    };
    Event::Authorized { allowed, scope: audience(scope) }
}

/// The outcome of building a predicate: a shape without one has every row of its table.
pub fn filtered(predicate: Option<Predicate>) -> (r: Event)
    ensures
        r@ == EventView::Filtered(
            match predicate {
                Some(p) => p@,
                None => PredicateView::All,
            },
        ),
{
    match predicate {
        Some(p) => Event::Filtered(p),
        None => Event::Filtered(Predicate::All),
    }
}

/// The next phase and action of a request.
pub fn step(phase: Phase, event: Event) -> (r: (Phase, Action))
    ensures
        step_view(r) == next(phase@, event@),
{
    match (phase, event) {
        (Phase::Authorizing { request }, Event::Authorized { allowed, scope }) => {
            if allowed {
                (Phase::Filtering { request, scope }, Action::Filter)
            } else {
                respond_error(404, "shape_not_found")
            }
        },
        (Phase::Filtering { request, scope }, Event::Filtered(predicate)) => {
            let shape = Shape {
                table: request.table,
                columns: request.columns,
                predicate,
                auth_scope: scope,
                schema_version: request.schema_version,
            };
            (Phase::Identifying { route: request.route, shape }, Action::ReadLogId)
        },
        (Phase::Identifying { route, shape }, Event::LogId(r)) => match r {
            Err(_) => respond_error(500, "internal"),
            Ok(log_id) => {
                if route.offset < 0 {
                    read_data(route, shape)
                } else if !is_text(&route.log_id, log_id.as_str()) {
                    respond_error(409, "resync_required")
                } else if route.shape_handle.is_some() {
                    (Phase::Naming { route, shape }, Action::Describe)
                } else {
                    read_data(route, shape)
                }
            },
        },
        (Phase::Naming { route, shape }, Event::Handle(r)) => match r {
            Err(e) => refuse_unnamed(&route, &shape, &e),
            Ok(handle) => {
                if is_text(&route.shape_handle, handle.as_str()) {
                    read_data(route, shape)
                } else {
                    respond_error(409, "resync_required")
                }
            },
        },
        (Phase::Reading { .. }, Event::Snapshot(r)) => match r {
            Err(e) => refuse(&e),
            Ok(s) => (Phase::Done, Action::Respond { status: 200, body: snapshot::snapshot_to_json(&s) }),
        },
        (Phase::Reading { route, shape }, Event::Replay(r)) => match r {
            Err(e) => refuse(&e),
            Ok(b) => {
                if route.live && b.messages.len() == 0 && b.up_to_date {
                    (Phase::Waiting { route, shape }, Action::Wait)
                } else {
                    (Phase::Done, Action::Respond { status: 200, body: replay::replay_to_json(&b) })
                }
            },
        },
        (Phase::Waiting { route, shape }, Event::Woken { shutdown }) => (
            Phase::Rereading { route, shape, shutdown },
            Action::ReadReplay,
        ),
        (Phase::Rereading { shutdown, .. }, Event::Replay(r)) => match r {
            Err(e) => refuse(&e),
            Ok(b) => {
                if shutdown {
                    (Phase::Done, Action::Respond { status: 200, body: replay::farewell_to_json(&b) })
                } else {
                    (Phase::Done, Action::Respond { status: 200, body: replay::replay_to_json(&b) })
                }
            },
        },
        _ => respond_error(500, "internal"),
    }
}

/// Whether an action reads the database.
pub open spec fn reads_database(a: ActionView) -> bool {
    a is ReadLogId || a is Describe || a is ReadSnapshot || a is ReadReplay
}

/// Whether a request has been authorized.
pub open spec fn admitted(phase: PhaseView) -> bool {
    !(phase is Authorizing) && !(phase is Done)
}

/// Nothing of the database is read for a request before it is authorized: it starts unadmitted,
/// is admitted by nothing but an authorization that allows it, and an action that reads the
/// database comes with an admitted request only.
pub proof fn law_authorization_comes_first(
    engine: ElectroliteView,
    path: Seq<char>,
    query: Seq<char>,
    phase: PhaseView,
    event: EventView,
)
    ensures
        !admitted(begun(engine, path, query).0),
        !reads_database(begun(engine, path, query).1),
        reads_database(next(phase, event).1) ==> admitted(next(phase, event).0) && admitted(phase),
        admitted(next(phase, event).0) && !admitted(phase) ==> (event matches EventView::Authorized { allowed, .. }
            && allowed),
{
}

/// A client cannot tell a shape that it may not read from one that does not exist.
pub proof fn law_hidden_shapes_look_missing(
    engine: ElectroliteView,
    path: Seq<char>,
    query: Seq<char>,
    scope: Seq<char>,
)
    ensures
        begun(engine, path, query).1 is Respond ==> begun(engine, path, query) == not_found(),
        begun(engine, path, query).1 is Authorize ==> next(
            begun(engine, path, query).0,
            EventView::Authorized { allowed: false, scope },
        ) == not_found(),
{
}

/// How many more events a request takes at most.
pub open spec fn events_left(phase: PhaseView) -> nat {
    match phase {
        PhaseView::Authorizing { .. } => 7,
        PhaseView::Filtering { .. } => 6,
        PhaseView::Identifying { .. } => 5,
        PhaseView::Naming { .. } => 4,
        PhaseView::Reading { .. } => 3,
        PhaseView::Waiting { .. } => 2,
        PhaseView::Rereading { .. } => 1,
        PhaseView::Done => 0,
    }
}

/// Every request is answered: each event brings it nearer to its end, and it ends with a response.
pub proof fn law_requests_are_answered(phase: PhaseView, event: EventView)
    requires
        !(phase is Done),
    ensures
        events_left(next(phase, event).0) < events_left(phase),
        next(phase, event).0 is Done <==> next(phase, event).1 is Respond,
{
}

/// A snapshot leads to a replay: a client that comes back with the position, the log and the handle
/// of a snapshot is not asked to start over, as long as the log and the shape stay the same and
/// nothing is compacted. It reads the replay behind its position, which has the same handle, and is
/// answered with it, or waits first where it asks to and there is nothing to replay.
pub proof fn law_snapshot_leads_to_replay(
    route: RouteView,
    shape: ShapeView,
    info: TableInfoView,
    d: DescribedView,
    rows: Seq<JsonView>,
    high_water: i64,
    stored: Option<Seq<char>>,
    log_id: Seq<char>,
    log: Seq<LogRowView>,
    limit: i64,
)
    requires
        high_water >= 0,
        snapshot::described(info, shape) == Ok::<DescribedView, ErrorView>(d),
        ({
            let s = snapshot::taken(info, d, rows, high_water, replay::retained(stored), log_id);
            &&& route.offset == s.offset
            &&& route.log_id == Some(s.log_id)
            &&& route.shape_handle == Some(s.shape_handle)
        }),
    ensures
        ({
            let named = next(PhaseView::Identifying { route, shape }, EventView::LogId(Ok(log_id)));
            let data = next(named.0, EventView::Handle(Ok(d.shape_handle)));
            let r = replay::replay_of(d, log, route.offset, limit, log_id);
            let start = replaying::started(d, shape.table, route.offset, limit);
            let done = next(data.0, EventView::Replay(Ok(r)));
            &&& named.1 is Describe
            &&& data == reading(route, shape)
            &&& data.1 is ReadReplay
            &&& replaying::after_reads(start, log, stored, log_id, 5) == replaying::finished(Ok(r))
            &&& r.shape_handle == d.shape_handle
            &&& json::field(replay::replay_body(r), "shape_handle"@) == Some(JsonView::Text(d.shape_handle))
            &&& done == answer(200, replay::replay_body(r)) || (route.live && done == (
                PhaseView::Waiting { route, shape },
                ActionView::Wait,
            ))
        }),
{
    replaying::law_replay_reads_the_next_changes(d, shape.table, route.offset, limit, log, stored, log_id);
    replay::lemma_body_has_handle(replay::replay_of(d, log, route.offset, limit, log_id));
}

/// A client with a position in another log, or in a log that it does not name, has to start over.
pub proof fn law_foreign_logs_resync(route: RouteView, shape: ShapeView, log_id: Seq<char>)
    requires
        route.offset >= 0,
        route.log_id != Some(log_id),
    ensures
        next(PhaseView::Identifying { route, shape }, EventView::LogId(Ok(log_id))) == resync(),
{
}

/// A client that names a handle other than that of the shape has to start over, also where the
/// table of the shape cannot be read.
pub proof fn law_changed_shapes_resync(route: RouteView, shape: ShapeView, handle: Seq<char>, e: ErrorView)
    ensures
        route.shape_handle != Some(handle) ==> next(
            PhaseView::Naming { route, shape },
            EventView::Handle(Ok(handle)),
        ) == resync(),
        route.shape_handle != Some(shape::shape_handle(shape)) && !(e is BadInput) ==> next(
            PhaseView::Naming { route, shape },
            EventView::Handle(Err(e)),
        ) == resync(),
{
}

/// A request waits only where it is live and there is nothing to replay, and it waits once.
pub proof fn law_live_requests_wait_once(phase: PhaseView, event: EventView)
    ensures
        next(phase, event).1 is Wait ==> {
            &&& phase matches PhaseView::Reading { route, .. }
            &&& route.live
            &&& event matches EventView::Replay(Ok(b))
            &&& b.messages.len() == 0
            &&& b.up_to_date
        },
        (phase is Waiting || phase is Rereading) ==> !(next(phase, event).1 is Wait),
{
}

/// A client whose position is gone has to start over, whether it waits or not.
pub proof fn law_gone_positions_resync(route: RouteView, shape: ShapeView, shutdown: bool)
    ensures
        next(PhaseView::Reading { route, shape }, EventView::Replay(Err(ErrorView::ResyncRequired))) == resync(),
        next(
            PhaseView::Rereading { route, shape, shutdown },
            EventView::Replay(Err(ErrorView::ResyncRequired)),
        ) == resync(),
{
}

/// A predicate that makes no sense is a bad request, wherever it is found.
pub proof fn law_bad_input_is_a_bad_request(route: RouteView, shape: ShapeView, detail: Seq<char>)
    ensures
        ({
            let e = ErrorView::BadInput(detail);
            &&& refused(e).1 matches ActionView::Respond { status, .. } && status == 400
            &&& next(PhaseView::Naming { route, shape }, EventView::Handle(Err(e))) == refused(e)
            &&& next(PhaseView::Reading { route, shape }, EventView::Snapshot(Err(e))) == refused(e)
            &&& next(PhaseView::Reading { route, shape }, EventView::Replay(Err(e))) == refused(e)
        }),
{
}

/// What SQLite reports, and what is wrong with the database, stays inside: the answer is the same
/// whatever it is.
pub proof fn law_internal_errors_look_alike(a: Seq<char>, b: Seq<char>)
    ensures
        refused(ErrorView::Sqlite(a)) == internal(),
        refused(ErrorView::Bad(b)) == internal(),
{
}

/// A request that is authorized and has no position is answered with a snapshot of the shape that
/// it asks for.
pub proof fn law_new_clients_get_a_snapshot(
    request: RequestView,
    scope: Seq<char>,
    p: PredicateView,
    log_id: Seq<char>,
    s: SnapshotView,
)
    requires
        request.route.offset < 0,
    ensures
        ({
            let allowed = next(
                PhaseView::Authorizing { request },
                EventView::Authorized { allowed: true, scope },
            );
            let filtered = next(allowed.0, EventView::Filtered(p));
            let named = next(filtered.0, EventView::LogId(Ok(log_id)));
            &&& named.0 == (PhaseView::Reading { route: request.route, shape: requested(request, scope, p) })
            &&& named.1 is ReadSnapshot
            &&& next(named.0, EventView::Snapshot(Ok(s))) == answer(200, snapshot::snapshot_body(s))
        }),
{
}

/// The shape that a request reads, once it is known.
pub open spec fn shape_of(phase: PhaseView) -> Option<ShapeView> {
    match phase {
        PhaseView::Identifying { shape, .. } => Some(shape),
        PhaseView::Naming { shape, .. } => Some(shape),
        PhaseView::Reading { shape, .. } => Some(shape),
        PhaseView::Waiting { shape, .. } => Some(shape),
        PhaseView::Rereading { shape, .. } => Some(shape),
        _ => None,
    }
}

/// What a request asks for.
pub open spec fn route_of(phase: PhaseView) -> Option<RouteView> {
    match phase {
        PhaseView::Authorizing { request } => Some(request.route),
        PhaseView::Filtering { request, .. } => Some(request.route),
        PhaseView::Identifying { route, .. } => Some(route),
        PhaseView::Naming { route, .. } => Some(route),
        PhaseView::Reading { route, .. } => Some(route),
        PhaseView::Waiting { route, .. } => Some(route),
        PhaseView::Rereading { route, .. } => Some(route),
        PhaseView::Done => None,
    }
}

/// An authorized request reads the shape that it names, for the audience that it was authorized
/// for: the table, the columns and the version of the schema are those that are defined under the
/// name in the path, the predicate is the one that was built, and the audience the one that came
/// with the authorization.
pub proof fn law_requests_read_their_shape(
    engine: ElectroliteView,
    parts: Seq<Seq<char>>,
    query: Seq<char>,
    def: ShapeDefView,
    scope: Seq<char>,
    p: PredicateView,
)
    requires
        parts.len() > 0,
        forall|i: int| 0 <= i < parts.len() ==> (#[trigger] parts[i]).len() > 0 && route::lacks(parts[i], '/'),
        engine.shapes.contains_key(parts[0]),
        engine.shapes[parts[0]] == def,
        def.params.len() < parts.len(),
        def.params.no_duplicates(),
    ensures
        ({
            let asked = begun(engine, engine.prefix + "/"@ + text::joined(parts, "/"@), query);
            let allowed = next(asked.0, EventView::Authorized { allowed: true, scope });
            let filtered = next(allowed.0, EventView::Filtered(p));
            &&& asked.1 is Authorize
            &&& asked.0 matches PhaseView::Authorizing { request }
            &&& forall|i: int|
                0 <= i < def.params.len() ==> request.params.contains_key(#[trigger] def.params[i])
                    && request.params[def.params[i]] == parts[i + 1]
            &&& allowed.1 is Filter
            &&& filtered.1 is ReadLogId
            &&& shape_of(filtered.0) matches Some(shape)
            &&& shape.table == def.table
            &&& shape.columns == def.columns
            &&& shape.schema_version == def.schema_version
            &&& shape.predicate == p
            &&& shape.auth_scope == scope
            &&& route_of(filtered.0) == route::routed(
                engine.prefix,
                engine.prefix + "/"@ + text::joined(parts, "/"@),
                query,
            )
        }),
{
    let path = engine.prefix + "/"@ + text::joined(parts, "/"@);
    route::law_paths_read_back(engine.prefix, parts, query);
    let r = route::routed(engine.prefix, path, query)->0;
    route::law_parameters_are_bound_in_order(def.params, r.params);
}

/// A request keeps the shape that it reads and what it asks for until it is answered.
pub proof fn law_requests_keep_their_shape(phase: PhaseView, event: EventView)
    requires
        shape_of(phase) is Some,
        !(next(phase, event).0 is Done),
    ensures
        shape_of(next(phase, event).0) == shape_of(phase),
        route_of(next(phase, event).0) == route_of(phase),
{
}

/// Audiences are kept apart: two requests that differ in nothing but their audience read shapes
/// with different handles, as they are defined and as they are checked against a table, barring a
/// collision of SHA-256.
pub proof fn law_audiences_have_their_own_handles(
    request: RequestView,
    scope: Seq<char>,
    other: Seq<char>,
    p: PredicateView,
    info: TableInfoView,
)
    requires
        scope != other,
    ensures
        ({
            let a = next(
                next(PhaseView::Authorizing { request }, EventView::Authorized { allowed: true, scope }).0,
                EventView::Filtered(p),
            ).0;
            let b = next(
                next(PhaseView::Authorizing { request }, EventView::Authorized { allowed: true, scope: other }).0,
                EventView::Filtered(p),
            ).0;
            &&& shape_of(a) matches Some(s)
            &&& shape_of(b) matches Some(t)
            &&& shape::shape_handle(s) == shape::shape_handle(t) ==> shape::collide(
                shape::shape_json(s),
                shape::shape_json(t),
            )
            &&& snapshot::described(info, s) matches Ok(d) ==> {
                &&& snapshot::described(info, t) matches Ok(e)
                &&& d.shape_handle == e.shape_handle ==> shape::collide(
                    shape::shape_json(ShapeView { predicate: d.predicate, ..s }),
                    shape::shape_json(ShapeView { predicate: d.predicate, ..t }),
                )
            }
        }),
{
    let a = next(
        next(PhaseView::Authorizing { request }, EventView::Authorized { allowed: true, scope }).0,
        EventView::Filtered(p),
    ).0;
    let b = next(
        next(PhaseView::Authorizing { request }, EventView::Authorized { allowed: true, scope: other }).0,
        EventView::Filtered(p),
    ).0;
    let (s, t) = (shape_of(a)->0, shape_of(b)->0);
    assert(s.auth_scope == scope && t.auth_scope == other);
    lemma_other_audience_other_handle(s, t);
    if let Ok(d) = snapshot::described(info, s) {
        lemma_other_audience_other_handle(
            ShapeView { predicate: d.predicate, ..s },
            ShapeView { predicate: d.predicate, ..t },
        );
    }
}

proof fn lemma_other_audience_other_handle(s: ShapeView, t: ShapeView)
    requires
        s.auth_scope != t.auth_scope,
    ensures
        shape::shape_handle(s) == shape::shape_handle(t) ==> shape::collide(
            shape::shape_json(s),
            shape::shape_json(t),
        ),
{
    if shape::shape_handle(s) == shape::shape_handle(t) && !shape::collide(
        shape::shape_json(s),
        shape::shape_json(t),
    ) {
        shape::law_handles_tell_shapes_apart(s, t);
    }
}

/// The audience that is found for a shape is the one that its requests are authorized for, and
/// where none is found it is that of the empty text.
pub proof fn law_audiences_are_those_found(scope: Seq<char>)
    ensures
        audience_of(Some(scope)) == scope,
        audience_of(None).len() == 0,
{
}

/// What a response says of an error: its status tells whether the client has to start over, has
/// asked for something senseless, or is not at fault, and its body names the error. What makes no
/// sense is told to the client.
pub proof fn law_error_responses_say_what_is_wrong(e: ErrorView)
    ensures
        refused(e).0 is Done,
        refused(e).1 matches ActionView::Respond { status, body } && {
            match e {
                ErrorView::ResyncRequired => status == 409 && json::field(body, "error"@) == Some(
                    JsonView::Text("resync_required"@),
                ) && json::field(body, "detail"@) is None,
                ErrorView::BadInput(detail) => status == 400 && json::field(body, "error"@) == Some(
                    JsonView::Text("bad_request"@),
                ) && json::field(body, "detail"@) == Some(JsonView::Text(detail)),
                _ => status == 500 && json::field(body, "error"@) == Some(JsonView::Text("internal"@))
                    && json::field(body, "detail"@) is None,
            }
        },
        not_found().0 is Done,
        not_found().1 matches ActionView::Respond { status, body } && status == 404 && json::field(
            body,
            "error"@,
        ) == Some(JsonView::Text("shape_not_found"@)),
{
    reveal_strlit("error");
    reveal_strlit("detail");
    assert("error"@.len() != "detail"@.len());
    let none = shape::no_entries();
    json::lemma_lookups_after_put(none, "error"@, JsonView::Text("resync_required"@));
    json::lemma_lookups_after_put(none, "error"@, JsonView::Text("internal"@));
    json::lemma_lookups_after_put(none, "error"@, JsonView::Text("shape_not_found"@));
    json::lemma_lookups_after_put(none, "error"@, JsonView::Text("bad_request"@));
    if let ErrorView::BadInput(detail) = e {
        json::lemma_lookups_after_put(
            json::put(none, "error"@, JsonView::Text("bad_request"@)),
            "detail"@,
            JsonView::Text(detail),
        );
    }
}

/// What a request is answered with, once its data are read: the snapshot or the replay itself, with
/// a status of success. Where the engine ends while a request waits, the answer says so.
pub proof fn law_data_is_answered(
    route: RouteView,
    shape: ShapeView,
    s: SnapshotView,
    r: ReplayView,
    shutdown: bool,
)
    ensures
        next(PhaseView::Reading { route, shape }, EventView::Snapshot(Ok(s))).1 == (ActionView::Respond {
            status: 200,
            body: snapshot::snapshot_body(s),
        }),
        !route.live || r.messages.len() > 0 || !r.up_to_date ==> next(
            PhaseView::Reading { route, shape },
            EventView::Replay(Ok(r)),
        ).1 == (ActionView::Respond { status: 200, body: replay::replay_body(r) }),
        route.live && r.messages.len() == 0 && r.up_to_date ==> next(
            PhaseView::Reading { route, shape },
            EventView::Replay(Ok(r)),
        ).1 is Wait,
        next(PhaseView::Waiting { route, shape }, EventView::Woken { shutdown }).1 is ReadReplay,
        ({
            let woken = next(PhaseView::Waiting { route, shape }, EventView::Woken { shutdown });
            next(woken.0, EventView::Replay(Ok(r))).1 == (ActionView::Respond {
                status: 200,
                body: if shutdown {
                    replay::farewell_body(r)
                } else {
                    replay::replay_body(r)
                },
            })
        }),
{
}

/// A client that names the log it reads and the handle of the shape, and has a position, reads the
/// changes behind it; one that has none reads a snapshot, whatever it names.
pub proof fn law_positions_decide_what_is_read(route: RouteView, shape: ShapeView, log_id: Seq<char>, handle: Seq<char>)
    ensures
        route.offset < 0 ==> next(PhaseView::Identifying { route, shape }, EventView::LogId(Ok(log_id))).1 is ReadSnapshot,
        route.offset >= 0 && route.log_id == Some(log_id) && route.shape_handle is None ==> next(
            PhaseView::Identifying { route, shape },
            EventView::LogId(Ok(log_id)),
        ).1 is ReadReplay,
        route.offset >= 0 && route.log_id == Some(log_id) && route.shape_handle is Some ==> next(
            PhaseView::Identifying { route, shape },
            EventView::LogId(Ok(log_id)),
        ).1 is Describe,
        route.offset >= 0 && route.shape_handle == Some(handle) ==> next(
            PhaseView::Naming { route, shape },
            EventView::Handle(Ok(handle)),
        ).1 is ReadReplay,
{
}

/// A name that no shape is defined under is not found, and neither is a shape whose parameters do not
/// fit.
pub proof fn law_unknown_shapes_are_not_found(
    engine: ElectroliteView,
    parts: Seq<Seq<char>>,
    query: Seq<char>,
)
    requires
        parts.len() > 0,
        forall|i: int| 0 <= i < parts.len() ==> (#[trigger] parts[i]).len() > 0 && route::lacks(parts[i], '/'),
        !engine.shapes.contains_key(parts[0]) || engine.shapes[parts[0]].params.len() >= parts.len(),
    ensures
        begun(engine, engine.prefix + "/"@ + text::joined(parts, "/"@), query).1 matches ActionView::Respond {
            status,
            ..
        } && status == 404,
{
    route::law_paths_read_back(engine.prefix, parts, query);
    let r = route::routed(engine.prefix, engine.prefix + "/"@ + text::joined(parts, "/"@), query)->0;
    route::law_parameters_are_bound_in_order(engine.shapes[parts[0]].params, r.params);
}

/// A request for which the identity of the log cannot be read, and one that gets an outcome that it
/// did not wait for, is answered as an error of the server; one whose shape has the handle that the
/// client names is answered with the error itself.
pub proof fn law_other_outcomes_are_answered(
    route: RouteView,
    shape: ShapeView,
    request: RequestView,
    e: ErrorView,
    event: EventView,
)
    ensures
        next(PhaseView::Identifying { route, shape }, EventView::LogId(Err(e))).1 matches ActionView::Respond {
            status,
            ..
        } && status == 500,
        !(event is Authorized) ==> (next(PhaseView::Authorizing { request }, event).1 matches ActionView::Respond {
            status,
            ..
        } && status == 500),
        next(PhaseView::Done, event).1 matches ActionView::Respond { status, .. } && status == 500,
        route.shape_handle == Some(shape::shape_handle(shape)) ==> next(
            PhaseView::Naming { route, shape },
            EventView::Handle(Err(e)),
        ) == refused(e),
{
}

} // verus!
