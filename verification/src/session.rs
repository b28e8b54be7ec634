//! The life of one request: what the gateway does next, by what has happened so far.
//!
//! A request is authenticated and held against the rate limit and the cost limit. Once it is let
//! in, its body is read and the cache is asked. Only where the cache has no answer is a server
//! chosen, connected to and sent the request.
use vstd::prelude::*;

use crate::balance::{host_of, is_tls, upstream_host, upstream_is_tls};
use crate::bytes::{append_all, copy_range};
use crate::chunks::{chunks_ended, chunks_in, dechunk};
use crate::encoding::{decode_lossy, lossy};
use crate::http::{
    announced_length, announces_chunks, authenticate, bare_response, blank_bytes, body_bytes,
    body_of, body_start, content_length, field, find_body, format_response, has_chunked_coding,
    head_bytes, head_of, lemma_body_start, ok_response, parse_request, plain_response, request_in,
    rewrite_host, traced_response, typed_response, upstream_head, Request, RequestView,
};
use crate::metrics::{counters_text, handle_metrics, Counter, Metrics};
use crate::prompt::{
    body_model, cache_key, extract_and_normalize_prompt, generate_cache_key, is_chat, model_of_body,
    path_is_chat, prompt_of, unknown,
};
use crate::response::{
    no_tokens, read_framing, read_report, response_framing, response_report, unframed, Framing,
};
use crate::stats::{build_query, parse_filter, path_filter, query_for, text_in};
use crate::text::{begins, occurs, same_text, text_begins};
use crate::usage::TokenUsage;

verus! {

/// Why a request is refused.
#[derive(Clone, Copy, PartialEq, Eq, Structural)]
pub enum Refusal {
    MissingKey,
    InvalidKey,
    RateLimited,
    NotFound,
    BadGateway,
}

impl Refusal {
    /// The status of the response.
    pub open spec fn status(self) -> Seq<char> {
        match self {
            Refusal::MissingKey => "401 Unauthorized"@,
            Refusal::InvalidKey => "403 Forbidden"@,
            Refusal::RateLimited => "429 Too Many Requests"@,
            Refusal::NotFound => "404 Not Found"@,
            Refusal::BadGateway => "502 Bad Gateway"@,
        }
    }

    /// The body of the response.
    pub open spec fn reason(self) -> Seq<char> {
        match self {
            Refusal::MissingKey => "Missing API Key"@,
            Refusal::InvalidKey => "Invalid API Key"@,
            _ => ""@,
        }
    }

    /// Writes the response to a request that is refused.
    pub fn response(self, request_id: &str, millis: u128) -> (r: String)
        ensures
            r@ == traced_response(self.status(), self.reason(), request_id@, millis as nat),
    {
        match self {
            Refusal::MissingKey => format_response(
                "401 Unauthorized",
                "Missing API Key",
                request_id,
                millis,
            ),
            Refusal::InvalidKey => format_response(
                "403 Forbidden",
                "Invalid API Key",
                request_id,
                millis,
            ),
            Refusal::RateLimited => format_response(
                "429 Too Many Requests",
                "",
                request_id,
                millis,
            ),
            Refusal::NotFound => format_response("404 Not Found", "", request_id, millis),
            Refusal::BadGateway => format_response("502 Bad Gateway", "", request_id, millis),
        }
    }
}

/// What the gateway is waiting for.
#[derive(Clone, Copy, PartialEq, Eq, Structural)]
pub enum Stage {
    /// The header of the request.
    Request,
    /// The rendered usage of this process.
    Stats,
    /// The rendered usage in the database.
    StoredStats,
    /// Whether the API key is known.
    Key,
    /// Whether the rate limit leaves room.
    Bucket,
    /// Whether the cost limit is reached.
    Cost,
    /// The rest of the request body.
    Body,
    /// The chunks of the request body.
    BodyChunks,
    /// Whether the response is cached.
    Cache,
    /// Which server is to answer.
    Upstream,
    /// The connection to that server.
    Connection,
    /// The request to be sent.
    Sending,
    /// The header of the response.
    Head,
    /// The chunks of the response.
    Chunks,
    /// The rest of the response body.
    Rest,
    /// The end of a response that does not say where it ends.
    Tail,
    /// The end of a response that is passed on unread.
    Piping,
    /// The response to be delivered.
    Delivery,
    /// Nothing.
    Done,
}

/// What has happened, `T` being the type of a text and `B` that of a byte string.
pub enum EventOf<T, B> {
    /// The client sent some bytes.
    ClientBytes(B),
    /// The client sent its last byte.
    ClientClosed,
    /// Reading from the client failed.
    ClientFailed,
    /// The usage of this process, as JSON.
    StatsBody(T),
    /// The usage in the database, as JSON, or the message of a failure.
    StoredStatsBody(Result<T, T>),
    /// Whether the API key is known.
    KeyKnown(bool),
    /// Whether the rate limit left room.
    TokenTaken(bool),
    /// What the user spent in a day, where that reaches the limit.
    CostReached(Option<T>),
    /// The rest of the request body.
    BodyBytes(B),
    /// The cached response.
    CacheAnswer(Option<B>),
    /// The address of the server that is to answer.
    UpstreamSelected(Option<T>),
    /// Whether the connection to the server stands.
    Connected(bool),
    /// The request was sent.
    Sent,
    /// The server sent some bytes.
    UpstreamBytes(B),
    /// The server sent its last byte.
    UpstreamClosed,
    /// Both sides are done; whether without a failure.
    Piped(bool),
    /// The response was delivered.
    Delivered,
}

/// What is to be done, `T` being the type of a text and `B` that of a byte string.
pub enum ActionOf<T, B> {
    /// Read from the client.
    ReadClient,
    /// End without a response.
    Close,
    /// Render the usage of this process.
    RenderStats,
    /// Render the usage that the query gives for the user.
    QueryStats { query: T, user: Option<T> },
    /// Send the response and end.
    Reply(T),
    /// Look the API key up.
    LookUpKey(T),
    /// Ask the rate limit of the key on the path for room.
    TakeToken { api_key: T, path: T },
    /// Compare what the user spent in a day with the limit.
    QueryCost(T),
    /// Refuse the request and end.
    Refuse(Refusal),
    /// Read so many more bytes of the request body.
    ReadBody(usize),
    /// Look for a cached response.
    QueryCache(T),
    /// Send the cached response, note the hit and end.
    ReplyCached { response: B, user_id: T, path: T, model: T },
    /// Select a server for the path.
    SelectUpstream(T),
    /// Connect to the server.
    Connect { addr: T, host: T, tls: bool },
    /// Refuse the request for want of a server and end; `mark` tells whether the server is to
    /// be taken out of turn.
    Unreachable { path: T, addr: T, mark: bool },
    /// Send the request to the server.
    Forward { head: B, body: B },
    /// Read from the server.
    ReadUpstream,
    /// Read so many more bytes from the server.
    ReadUpstreamExact(usize),
    /// Pass on what either side sends.
    Pipe,
    /// Send the response to the client, and cache it under the key.
    Deliver { response: B, cache_key: Option<T> },
    /// Record the request and end.
    Record { user_id: T, path: T, model: T, tokens: TokenUsage, status: u16 },
    /// End as on a broken promise of the peer.
    Abort,
}

/// One request on its way, `T` being the type of a text and `B` that of a byte string.
pub struct SessionOf<T, B> {
    pub stage: Stage,
    /// The address of the client.
    pub ip: T,
    /// What the client has sent.
    pub buffer: B,
    pub path: T,
    /// The request goes to the chat completion endpoint.
    pub chat: bool,
    pub model: T,
    /// The body length that the request announces.
    pub announced: usize,
    /// The request body comes in chunks.
    pub chunked_body: bool,
    pub api_key: T,
    pub user_id: T,
    /// The address of the server.
    pub addr: T,
    pub cache_key: T,
    /// The request has a body.
    pub has_body: bool,
    /// What the server has sent.
    pub response: B,
    /// How the response is framed.
    pub framing: Framing,
    pub tokens: TokenUsage,
}

pub type Event = EventOf<String, Vec<u8>>;

pub type EventView = EventOf<Seq<char>, Seq<u8>>;

pub type Action = ActionOf<String, Vec<u8>>;

pub type ActionView = ActionOf<Seq<char>, Seq<u8>>;

pub type Session = SessionOf<String, Vec<u8>>;

pub type SessionView = SessionOf<Seq<char>, Seq<u8>>;

/// The bytes in an optional byte string.
pub open spec fn bytes_in(b: Option<Vec<u8>>) -> Option<Seq<u8>> {
    match b {
        Some(v) => Some(v@),
        None => None,
    }
}

impl View for EventOf<String, Vec<u8>> {
    type V = EventOf<Seq<char>, Seq<u8>>;

    open spec fn view(&self) -> EventOf<Seq<char>, Seq<u8>> {
        match *self {
            EventOf::ClientBytes(b) => EventOf::ClientBytes(b@),
            EventOf::ClientClosed => EventOf::ClientClosed,
            EventOf::ClientFailed => EventOf::ClientFailed,
            EventOf::StatsBody(s) => EventOf::StatsBody(s@),
            EventOf::StoredStatsBody(r) => EventOf::StoredStatsBody(
                match r {
                    Ok(s) => Ok(s@),
                    Err(s) => Err(s@),
                },
            ),
            EventOf::KeyKnown(b) => EventOf::KeyKnown(b),
            EventOf::TokenTaken(b) => EventOf::TokenTaken(b),
            EventOf::CostReached(s) => EventOf::CostReached(text_in(s)),
            EventOf::UpstreamSelected(s) => EventOf::UpstreamSelected(text_in(s)),
            EventOf::Connected(b) => EventOf::Connected(b),
            EventOf::BodyBytes(b) => EventOf::BodyBytes(b@),
            EventOf::CacheAnswer(b) => EventOf::CacheAnswer(bytes_in(b)),
            EventOf::Sent => EventOf::Sent,
            EventOf::UpstreamBytes(b) => EventOf::UpstreamBytes(b@),
            EventOf::UpstreamClosed => EventOf::UpstreamClosed,
            EventOf::Piped(b) => EventOf::Piped(b),
            EventOf::Delivered => EventOf::Delivered,
        }
    }
}

impl View for ActionOf<String, Vec<u8>> {
    type V = ActionOf<Seq<char>, Seq<u8>>;

    open spec fn view(&self) -> ActionOf<Seq<char>, Seq<u8>> {
        match *self {
            ActionOf::ReadClient => ActionOf::ReadClient,
            ActionOf::Close => ActionOf::Close,
            ActionOf::RenderStats => ActionOf::RenderStats,
            ActionOf::QueryStats { query, user } => ActionOf::QueryStats {
                query: query@,
                user: text_in(user),
            },
            ActionOf::Reply(s) => ActionOf::Reply(s@),
            ActionOf::LookUpKey(s) => ActionOf::LookUpKey(s@),
            ActionOf::TakeToken { api_key, path } => ActionOf::TakeToken {
                api_key: api_key@,
                path: path@,
            },
            ActionOf::QueryCost(s) => ActionOf::QueryCost(s@),
            ActionOf::SelectUpstream(s) => ActionOf::SelectUpstream(s@),
            ActionOf::Connect { addr, host, tls } => ActionOf::Connect {
                addr: addr@,
                host: host@,
                tls,
            },
            ActionOf::Refuse(r) => ActionOf::Refuse(r),
            ActionOf::Unreachable { path, addr, mark } => ActionOf::Unreachable {
                path: path@,
                addr: addr@,
                mark,
            },
            ActionOf::ReadBody(n) => ActionOf::ReadBody(n),
            ActionOf::QueryCache(s) => ActionOf::QueryCache(s@),
            ActionOf::ReplyCached { response, user_id, path, model } => ActionOf::ReplyCached {
                response: response@,
                user_id: user_id@,
                path: path@,
                model: model@,
            },
            ActionOf::Forward { head, body } => ActionOf::Forward { head: head@, body: body@ },
            ActionOf::ReadUpstream => ActionOf::ReadUpstream,
            ActionOf::ReadUpstreamExact(n) => ActionOf::ReadUpstreamExact(n),
            ActionOf::Pipe => ActionOf::Pipe,
            ActionOf::Deliver { response, cache_key } => ActionOf::Deliver {
                response: response@,
                cache_key: text_in(cache_key),
            },
            ActionOf::Record { user_id, path, model, tokens, status } => ActionOf::Record {
                user_id: user_id@,
                path: path@,
                model: model@,
                tokens,
                status,
            },
            ActionOf::Abort => ActionOf::Abort,
        }
    }
}

impl View for SessionOf<String, Vec<u8>> {
    type V = SessionOf<Seq<char>, Seq<u8>>;

    open spec fn view(&self) -> SessionOf<Seq<char>, Seq<u8>> {
        SessionOf {
            stage: self.stage,
            ip: self.ip@,
            buffer: self.buffer@,
            path: self.path@,
            chat: self.chat,
            model: self.model@,
            announced: self.announced,
            chunked_body: self.chunked_body,
            api_key: self.api_key@,
            user_id: self.user_id@,
            addr: self.addr@,
            cache_key: self.cache_key@,
            has_body: self.has_body,
            response: self.response@,
            framing: self.framing,
            tokens: self.tokens,
        }
    }
}

/// A session and what is to be done next.
pub type Step = (SessionView, ActionView);

/// The session in another stage.
pub open spec fn at(s: SessionView, stage: Stage) -> SessionView {
    SessionOf { stage, ..s }
}

/// The end of a session.
pub open spec fn ended(s: SessionView, action: ActionView) -> Step {
    (at(s, Stage::Done), action)
}

/// The user that a request is attributed to: the one that it names, or its key and the address
/// of the client, and the app that it names, or `default`.
pub open spec fn user_of(req: RequestView, api_key: Seq<char>, ip: Seq<char>) -> Seq<char> {
    let base = match field(req, "X-User-Id"@) {
        Some(u) => u,
        None => api_key + ":"@ + ip,
    };
    let app = match field(req, "X-App-Id"@) {
        Some(a) => a,
        None => "default"@,
    };
    base + ":"@ + app
}

/// A request that asks for the usage of this process.
pub open spec fn asks_stats(req: RequestView) -> bool {
    req.path == "/stats"@ && req.method == "GET"@
}

/// A request that asks for the usage in the database.
pub open spec fn asks_stored_stats(req: RequestView) -> bool {
    begins(req.path, "/stats-db"@) && req.method == "GET"@
}

/// The session once the header of its request is there.
pub open spec fn with_request(s: SessionView, req: RequestView) -> SessionView {
    SessionOf {
        path: req.path,
        chat: is_chat(req.path),
        announced: announced_length(req),
        chunked_body: has_chunked_body(s.buffer),
        ..s
    }
}

/// The session once its request presents a key.
pub open spec fn with_key(s: SessionView, req: RequestView, api_key: Seq<char>) -> SessionView {
    SessionOf { api_key, user_id: user_of(req, api_key, s.ip), ..s }
}

/// What follows a request, by what it says. `m` are the counters with the request counted.
pub open spec fn on_request(s: SessionView, req: RequestView, m: Metrics) -> Step {
    let t = with_request(s, req);
    if asks_stats(req) {
        (at(t, Stage::Stats), ActionOf::RenderStats)
    } else if req.path == "/metrics"@ {
        ended(t, ActionOf::Reply(typed_response("text/plain"@, counters_text(m))))
    } else if asks_stored_stats(req) {
        let filter = path_filter(req.path);
        (
            at(t, Stage::StoredStats),
            ActionOf::QueryStats { query: query_for(filter), user: filter.user },
        )
    } else {
        match field(req, "X-API-Key"@) {
            Some(k) => (at(with_key(t, req, k), Stage::Key), ActionOf::LookUpKey(k)),
            None => ended(t, ActionOf::Refuse(Refusal::MissingKey)),
        }
    }
}

/// The counters after a request, by what it says.
pub open spec fn count_request(req: RequestView, m: Metrics) -> Metrics {
    let counted = m.counted(Counter::RequestsTotal);
    if asks_stats(req) || req.path == "/metrics"@ || asks_stored_stats(req) {
        counted
    } else if field(req, "X-API-Key"@) is Some {
        counted.counted(Counter::AuthSuccess)
    } else {
        counted.counted(Counter::AuthFailures)
    }
}

/// The request in a buffer: what its header says.
pub open spec fn request_of(buffer: Seq<u8>) -> RequestView {
    request_in(lossy(head_of(buffer)))
}

/// The body of the request in a buffer comes in chunks.
pub open spec fn has_chunked_body(buffer: Seq<u8>) -> bool {
    announces_chunks(lossy(head_of(buffer)))
}

/// The data of the body of the request in a buffer.
pub open spec fn request_data(buffer: Seq<u8>) -> Seq<u8> {
    unframed(body_of(buffer), has_chunked_body(buffer))
}

/// The model that the request in a buffer names; only a chat request names one.
pub open spec fn request_model(buffer: Seq<u8>) -> Seq<char> {
    if is_chat(request_of(buffer).path) && body_start(buffer) is Some {
        body_model(request_data(buffer))
    } else {
        unknown()
    }
}

/// The normalized prompt of the request in a buffer.
pub open spec fn request_prompt(buffer: Seq<u8>) -> Seq<char> {
    prompt_of(lossy(request_data(buffer)))
}

/// The request that a session has received.
pub open spec fn received_request(s: SessionView) -> RequestView {
    request_of(s.buffer)
}

/// The session with more bytes of its request.
pub open spec fn with_bytes(s: SessionView, b: Seq<u8>) -> SessionView {
    SessionOf { buffer: s.buffer + b, ..s }
}

/// The session with more bytes of its response.
pub open spec fn with_response(s: SessionView, b: Seq<u8>) -> SessionView {
    SessionOf { response: s.response + b, ..s }
}

/// How much of a body is missing.
pub open spec fn missing(announced: usize, have: int) -> usize {
    if announced > have {
        (announced - have) as usize
    } else {
        0
    }
}

/// A server is looked for.
pub open spec fn select(s: SessionView) -> Step {
    (at(s, Stage::Upstream), ActionOf::SelectUpstream(s.path))
}

/// The request goes upstream.
pub open spec fn forward(s: SessionView) -> Step {
    (
        at(s, Stage::Sending),
        ActionOf::Forward {
            head: upstream_head(s.buffer, host_of(s.addr)),
            body: body_of(s.buffer),
        },
    )
}

/// The data of the request body that a session has received.
pub open spec fn body_data(s: SessionView) -> Seq<u8> {
    unframed(body_of(s.buffer), s.chunked_body)
}

/// The model that the request of a session names.
pub open spec fn named_model(s: SessionView) -> Seq<char> {
    if s.chat {
        body_model(body_data(s))
    } else {
        unknown()
    }
}

/// The normalized prompt of the request of a session.
pub open spec fn given_prompt(s: SessionView) -> Seq<char> {
    prompt_of(lossy(body_data(s)))
}

/// The session once all of its request is there.
pub open spec fn with_prompt(s: SessionView) -> SessionView {
    SessionOf {
        model: named_model(s),
        cache_key: cache_key(named_model(s), given_prompt(s)),
        has_body: lossy(body_data(s)).len() > 0,
        ..s
    }
}

/// All of the request is there: a chat request with a known model and a prompt is looked for in
/// the cache, any other needs a server.
pub open spec fn on_complete_request(s: SessionView) -> Step {
    let t = with_prompt(s);
    if s.chat && given_prompt(s).len() > 0 && named_model(s) != unknown() {
        (at(t, Stage::Cache), ActionOf::QueryCache(t.cache_key))
    } else {
        select(t)
    }
}

/// A part of a chunked request body is there: it is read on to its last chunk.
pub open spec fn on_body_chunks(s: SessionView) -> Step {
    if chunks_in(body_of(s.buffer)).ended {
        on_complete_request(s)
    } else {
        (at(s, Stage::BodyChunks), ActionOf::ReadClient)
    }
}

/// The request is let in: the rest of its body is read. One whose header never ended has no body,
/// and the chunks of a request that is passed on unread follow of themselves.
pub open spec fn on_admitted(s: SessionView) -> Step {
    match body_start(s.buffer) {
        Some(n) => {
            let rest = missing(s.announced, s.buffer.len() - n);
            if s.chat && s.chunked_body {
                on_body_chunks(s)
            } else if rest > 0 {
                (at(s, Stage::Body), ActionOf::ReadBody(rest))
            } else {
                on_complete_request(s)
            }
        },
        None => select(s),
    }
}

/// The session once its response has reported a model and the tokens used.
pub open spec fn with_report(
    s: SessionView,
    model: Option<Seq<char>>,
    tokens: TokenUsage,
) -> SessionView {
    SessionOf {
        model: match model {
            Some(m) => m,
            None => s.model,
        },
        tokens,
        ..s
    }
}

/// All of the response is there: it is delivered, and cached where its model is known and the
/// request had a body.
pub open spec fn on_complete_response(s: SessionView) -> Step {
    let report = response_report(s.response, s.framing);
    let t = with_report(s, report.model, report.tokens);
    (
        at(t, Stage::Delivery),
        ActionOf::Deliver {
            response: s.response,
            cache_key: if s.chat && s.has_body && t.model != unknown() {
                Some(s.cache_key)
            } else {
                None
            },
        },
    )
}

/// A part of a chunked response is there: it is read on to its last chunk.
pub open spec fn on_chunks(s: SessionView) -> Step {
    if chunks_in(body_of(s.response)).ended {
        on_complete_response(s)
    } else {
        (at(s, Stage::Chunks), ActionOf::ReadUpstream)
    }
}

/// A part of a response with the given length is there: it is read on up to that length.
pub open spec fn on_rest(s: SessionView, length: usize) -> Step {
    let rest = missing(length, body_of(s.response).len() as int);
    if rest > 0 {
        (at(s, Stage::Rest), ActionOf::ReadUpstreamExact(rest))
    } else {
        on_complete_response(s)
    }
}

/// The header of the response is there: the rest is read as it is framed. A response with neither
/// chunks nor a length is all there where its status says that no body follows, and else is read
/// until the server closes.
pub open spec fn on_response_head(s: SessionView) -> Step {
    let t = SessionOf { framing: response_framing(s.response), ..s };
    if t.framing.chunked {
        on_chunks(t)
    } else {
        match t.framing.length {
            Some(n) => on_rest(t, n),
            None => if t.framing.bodyless {
                on_complete_response(t)
            } else {
                (at(t, Stage::Tail), ActionOf::ReadUpstream)
            },
        }
    }
}

/// What is recorded of a request at its end.
pub open spec fn record_of(s: SessionView, status: u16) -> ActionView {
    ActionOf::Record {
        user_id: s.user_id,
        path: s.path,
        model: s.model,
        tokens: s.tokens,
        status,
    }
}

/// The status that is recorded of a request that went upstream.
pub open spec fn recorded_status(ok: bool) -> u16 {
    if ok {
        200
    } else {
        0
    }
}

/// What follows an event that was not waited for.
pub open spec fn stray(s: SessionView) -> Step {
    ended(s, ActionOf::Abort)
}

/// What follows an event while the request is read.
pub open spec fn next_in_request(s: SessionView, e: EventView, m: Metrics) -> Step {
    match e {
        EventOf::ClientBytes(b) => {
            let t = with_bytes(s, b);
            if occurs(t.buffer, blank_bytes()) {
                on_request(t, received_request(t), m.counted(Counter::RequestsTotal))
            } else {
                (t, ActionOf::ReadClient)
            }
        },
        EventOf::ClientClosed => on_request(
            s,
            received_request(s),
            m.counted(Counter::RequestsTotal),
        ),
        EventOf::ClientFailed => ended(s, ActionOf::Close),
        _ => stray(s),
    }
}

/// What follows when the usage in the database is rendered.
pub open spec fn on_stored_stats(s: SessionView, body: Result<Seq<char>, Seq<char>>) -> Step {
    match body {
        Ok(json) => ended(s, ActionOf::Reply(typed_response("application/json"@, json))),
        Err(message) => ended(
            s,
            ActionOf::Reply(
                bare_response("500 Internal Server Error"@, "DB query failed: "@ + message),
            ),
        ),
    }
}

/// What follows when it is known whether the API key is.
pub open spec fn on_key(s: SessionView, known: bool) -> Step {
    if known {
        (at(s, Stage::Bucket), ActionOf::TakeToken { api_key: s.api_key, path: s.path })
    } else {
        ended(s, ActionOf::Refuse(Refusal::InvalidKey))
    }
}

/// What follows when it is known whether the rate limit left room.
pub open spec fn on_token(s: SessionView, taken: bool) -> Step {
    if taken {
        (at(s, Stage::Cost), ActionOf::QueryCost(s.user_id))
    } else {
        ended(s, ActionOf::Refuse(Refusal::RateLimited))
    }
}

/// What follows when it is known what the user spent.
pub open spec fn on_cost(s: SessionView, reached: Option<Seq<char>>) -> Step {
    match reached {
        Some(used) => ended(
            s,
            ActionOf::Reply(
                bare_response(
                    "429 Too Many Requests"@,
                    "Daily limit exceeded. Used: $"@ + used,
                ),
            ),
        ),
        None => on_admitted(s),
    }
}

/// What follows a look into the cache.
pub open spec fn on_cache(s: SessionView, found: Option<Seq<u8>>) -> Step {
    match found {
        Some(response) => ended(
            s,
            ActionOf::ReplyCached {
                response,
                user_id: s.user_id,
                path: s.path,
                model: s.model,
            },
        ),
        None => select(s),
    }
}

/// What follows when a server was selected, or none serves the path.
pub open spec fn on_upstream(s: SessionView, selected: Option<Seq<char>>) -> Step {
    match selected {
        Some(addr) => (
            SessionOf { addr, stage: Stage::Connection, ..s },
            ActionOf::Connect { addr, host: host_of(addr), tls: is_tls(addr) },
        ),
        None => ended(s, ActionOf::Refuse(Refusal::NotFound)),
    }
}

/// What follows an attempt to connect. A request whose header never ended cannot be sent.
pub open spec fn on_connection(s: SessionView, ok: bool) -> Step {
    if !ok {
        ended(s, ActionOf::Unreachable { path: s.path, addr: s.addr, mark: !is_tls(s.addr) })
    } else if body_start(s.buffer) is Some {
        forward(s)
    } else {
        ended(s, ActionOf::Abort)
    }
}

/// What follows when the request was sent.
pub open spec fn on_sent(s: SessionView) -> Step {
    if s.chat {
        (at(s, Stage::Head), ActionOf::ReadUpstream)
    } else {
        (at(s, Stage::Piping), ActionOf::Pipe)
    }
}

/// What follows an event while the chunks of the request body are read. A body that breaks off is
/// taken as it is.
pub open spec fn next_in_body_chunks(s: SessionView, e: EventView) -> Step {
    match e {
        EventOf::ClientBytes(b) => on_body_chunks(with_bytes(s, b)),
        EventOf::ClientClosed => on_complete_request(s),
        EventOf::ClientFailed => on_complete_request(s),
        _ => stray(s),
    }
}

/// What follows an event while the header of the response is read. A response that breaks off
/// there is none.
pub open spec fn next_in_head(s: SessionView, e: EventView) -> Step {
    match e {
        EventOf::UpstreamBytes(b) => {
            let t = with_response(s, b);
            if occurs(t.response, blank_bytes()) {
                on_response_head(t)
            } else {
                (t, ActionOf::ReadUpstream)
            }
        },
        _ => stray(s),
    }
}

/// What follows an event while the chunks of the response are read.
pub open spec fn next_in_chunks(s: SessionView, e: EventView) -> Step {
    match e {
        EventOf::UpstreamBytes(b) => on_chunks(with_response(s, b)),
        EventOf::UpstreamClosed => on_complete_response(s),
        _ => stray(s),
    }
}

/// What follows an event while the rest of a response with a length is read.
pub open spec fn next_in_rest(s: SessionView, e: EventView) -> Step {
    match e {
        EventOf::UpstreamBytes(b) => on_rest(with_response(s, b), s.framing.length->0),
        _ => stray(s),
    }
}

/// What follows an event while a response is read that does not say where it ends.
pub open spec fn next_in_tail(s: SessionView, e: EventView) -> Step {
    match e {
        EventOf::UpstreamBytes(b) => (with_response(s, b), ActionOf::ReadUpstream),
        EventOf::UpstreamClosed => on_complete_response(s),
        _ => stray(s),
    }
}

/// What follows an event, and the session then.
pub open spec fn next(s: SessionView, e: EventView, m: Metrics) -> Step {
    match s.stage {
        Stage::Request => next_in_request(s, e, m),
        Stage::Stats => match e {
            EventOf::StatsBody(json) => ended(
                s,
                ActionOf::Reply(typed_response("application/json"@, json)),
            ),
            _ => stray(s),
        },
        Stage::StoredStats => match e {
            EventOf::StoredStatsBody(body) => on_stored_stats(s, body),
            _ => stray(s),
        },
        Stage::Key => match e {
            EventOf::KeyKnown(known) => on_key(s, known),
            _ => stray(s),
        },
        Stage::Bucket => match e {
            EventOf::TokenTaken(taken) => on_token(s, taken),
            _ => stray(s),
        },
        Stage::Cost => match e {
            EventOf::CostReached(reached) => on_cost(s, reached),
            _ => stray(s),
        },
        Stage::Body => match e {
            EventOf::BodyBytes(b) => on_complete_request(with_bytes(s, b)),
            _ => stray(s),
        },
        Stage::BodyChunks => next_in_body_chunks(s, e),
        Stage::Cache => match e {
            EventOf::CacheAnswer(found) => on_cache(s, found),
            _ => stray(s),
        },
        Stage::Upstream => match e {
            EventOf::UpstreamSelected(selected) => on_upstream(s, selected),
            _ => stray(s),
        },
        Stage::Connection => match e {
            EventOf::Connected(ok) => on_connection(s, ok),
            _ => stray(s),
        },
        Stage::Sending => match e {
            EventOf::Sent => on_sent(s),
            _ => stray(s),
        },
        Stage::Head => next_in_head(s, e),
        Stage::Chunks => next_in_chunks(s, e),
        Stage::Rest => next_in_rest(s, e),
        Stage::Tail => next_in_tail(s, e),
        Stage::Piping => match e {
            EventOf::Piped(ok) => ended(s, record_of(s, recorded_status(ok))),
            _ => stray(s),
        },
        Stage::Delivery => match e {
            EventOf::Delivered => ended(s, record_of(s, recorded_status(true))),
            _ => stray(s),
        },
        Stage::Done => stray(s),
    }
}

/// The counter of the outcome of a request for which a server was reached for.
pub open spec fn outcome_counter(ok: bool) -> Counter {
    if ok {
        Counter::UpstreamSuccess
    } else {
        Counter::UpstreamFailures
    }
}

/// The counters after an event.
pub open spec fn next_metrics(s: SessionView, e: EventView, m: Metrics) -> Metrics {
    match (s.stage, e) {
        (Stage::Request, EventOf::ClientBytes(b)) => {
            let t = with_bytes(s, b);
            if occurs(t.buffer, blank_bytes()) {
                count_request(received_request(t), m)
            } else {
                m
            }
        },
        (Stage::Request, EventOf::ClientClosed) => count_request(received_request(s), m),
        (Stage::Key, EventOf::KeyKnown(known)) => if known {
            m
        } else {
            m.counted(Counter::AuthFailures)
        },
        (Stage::Bucket, EventOf::TokenTaken(taken)) => if taken {
            m.counted(Counter::GatewayAccepted)
        } else {
            m.counted(Counter::RateLimited)
        },
        (Stage::Connection, EventOf::Connected(ok)) => if ok {
            m
        } else {
            m.counted(Counter::UpstreamFailures)
        },
        (Stage::Piping, EventOf::Piped(ok)) => m.counted(outcome_counter(ok)),
        (Stage::Delivery, EventOf::Delivered) => m.counted(Counter::UpstreamSuccess),
        _ => m,
    }
}

/// The session before anything has happened.
pub open spec fn fresh(ip: Seq<char>) -> SessionView {
    SessionOf {
        stage: Stage::Request,
        ip,
        buffer: Seq::empty(),
        path: Seq::empty(),
        chat: false,
        model: unknown(),
        announced: 0,
        chunked_body: false,
        api_key: Seq::empty(),
        user_id: Seq::empty(),
        addr: Seq::empty(),
        cache_key: Seq::empty(),
        has_body: false,
        response: Seq::empty(),
        framing: Framing { chunked: false, length: None, gzip: false, bodyless: false },
        tokens: no_tokens(),
    }
}

/// A session that reads the rest of a response knows its length.
pub open spec fn session_wf(s: SessionView) -> bool {
    s.stage is Rest ==> s.framing.length is Some
}

/// The user that a request is attributed to.
pub fn identify_user(req: &Request, api_key: &str, ip: &str) -> (r: String)
    ensures
        r@ == user_of(req@, api_key@, ip@),
{
    let mut user = match req.header("X-User-Id") {
        Some(u) => u,
        None => {
            let mut base = String::from_str(api_key);
            base.append(":");
            base.append(ip);
            base
        },
    };
    user.append(":");
    match req.header("X-App-Id") {
        Some(a) => {
            user.append(a.as_str());
        },
        None => {
            user.append("default");
        },
    }
    user
}

impl SessionOf<String, Vec<u8>> {
    /// A session with the client at the given address. The first thing to do is to read from it.
    pub fn new(ip: &str) -> (r: Session)
        ensures
            r@ == fresh(ip@),
            session_wf(r@),
    {
        let r = SessionOf {
            stage: Stage::Request,
            ip: String::from_str(ip),
            buffer: Vec::new(),
            path: String::new(),
            chat: false,
            model: String::from_str("unknown"),
            announced: 0,
            chunked_body: false,
            api_key: String::new(),
            user_id: String::new(),
            addr: String::new(),
            cache_key: String::new(),
            has_body: false,
            response: Vec::new(),
            framing: Framing { chunked: false, length: None, gzip: false, bodyless: false },
            tokens: TokenUsage { prompt_tokens: 0, completion_tokens: 0, total_tokens: 0 },
        };
        r
    }

    fn end(&mut self, action: Action) -> (r: Action)
        ensures
            r == action,
            final(self)@ == at(old(self)@, Stage::Done),
    {
        self.stage = Stage::Done;
        action
    }

    fn take_request(&mut self, metrics: &mut Metrics) -> (r: Action)
        ensures
            (final(self)@, r@) == on_request(
                old(self)@,
                received_request(old(self)@),
                old(metrics).counted(Counter::RequestsTotal),
            ),
            *final(metrics) == count_request(received_request(old(self)@), *old(metrics)),
            session_wf(final(self)@),
    {
        metrics.count(Counter::RequestsTotal);
        let text = decode_lossy(&head_bytes(&self.buffer));
        let req = parse_request(text.as_str());
        self.path = req.path.clone();
        self.chat = path_is_chat(req.path.as_str());
        self.announced = content_length(&req);
        self.chunked_body = has_chunked_coding(text.as_str());
        let get = same_text(req.method.as_str(), "GET");
        if get && same_text(req.path.as_str(), "/stats") {
            self.stage = Stage::Stats;
            return ActionOf::RenderStats;
        }
        match handle_metrics(&req, metrics) {
            Some(response) => {
                return self.end(ActionOf::Reply(response));
            },
            None => {},
        }
        if get && text_begins(req.path.as_str(), "/stats-db") {
            let filter = parse_filter(req.path.as_str());
            self.stage = Stage::StoredStats;
            return ActionOf::QueryStats { query: build_query(&filter), user: filter.user };
        }
        match authenticate(&req) {
            Some(key) => {
                metrics.count(Counter::AuthSuccess);
                self.user_id = identify_user(&req, key.as_str(), self.ip.as_str());
                self.api_key = key.clone();
                self.stage = Stage::Key;
                ActionOf::LookUpKey(key)
            },
            None => {
                metrics.count(Counter::AuthFailures);
                self.end(ActionOf::Refuse(Refusal::MissingKey))
            },
        }
    }

    fn select_upstream(&mut self) -> (r: Action)
        ensures
            (final(self)@, r@) == select(old(self)@),
            session_wf(final(self)@),
    {
        self.stage = Stage::Upstream;
        ActionOf::SelectUpstream(self.path.clone())
    }

    fn send_upstream(&mut self) -> (r: Action)
        ensures
            (final(self)@, r@) == on_connection(old(self)@, true),
            session_wf(final(self)@),
    {
        if find_body(&self.buffer).is_some() {
            let host = upstream_host(self.addr.as_str());
            let head = rewrite_host(&self.buffer, host.as_str());
            let body = body_bytes(&self.buffer);
            self.stage = Stage::Sending;
            ActionOf::Forward { head, body }
        } else {
            self.end(ActionOf::Abort)
        }
    }

    fn body_data(&self) -> (r: Vec<u8>)
        ensures
            r@ == body_data(self@),
    {
        let body = body_bytes(&self.buffer);
        if self.chunked_body {
            dechunk(&body)
        } else {
            body
        }
    }

    fn complete_request(&mut self) -> (r: Action)
        ensures
            (final(self)@, r@) == on_complete_request(old(self)@),
            session_wf(final(self)@),
    {
        let data = self.body_data();
        let text = decode_lossy(&data);
        let prompt = extract_and_normalize_prompt(text.as_str());
        let model = if self.chat {
            model_of_body(&data)
        } else {
            String::from_str("unknown")
        };
        let key = generate_cache_key(model.as_str(), prompt.as_str());
        let known = !same_text(model.as_str(), "unknown");
        self.model = model;
        self.cache_key = key.clone();
        self.has_body = !text.as_str().is_empty();
        if self.chat && !prompt.as_str().is_empty() && known {
            self.stage = Stage::Cache;
            ActionOf::QueryCache(key)
        } else {
            self.select_upstream()
        }
    }

    fn take_body_chunks(&mut self) -> (r: Action)
        ensures
            (final(self)@, r@) == on_body_chunks(old(self)@),
            session_wf(final(self)@),
    {
        if chunks_ended(&body_bytes(&self.buffer)) {
            self.complete_request()
        } else {
            self.stage = Stage::BodyChunks;
            ActionOf::ReadClient
        }
    }

    fn let_in(&mut self) -> (r: Action)
        ensures
            (final(self)@, r@) == on_admitted(old(self)@),
            session_wf(final(self)@),
    {
        match find_body(&self.buffer) {
            Some(n) => {
                let have: usize = self.buffer.len() - n;
                let rest: usize = self.announced.saturating_sub(have);
                if self.chat && self.chunked_body {
                    self.take_body_chunks()
                } else if rest > 0 {
                    self.stage = Stage::Body;
                    ActionOf::ReadBody(rest)
                } else {
                    self.complete_request()
                }
            },
            None => self.select_upstream(),
        }
    }

    fn complete_response(&mut self) -> (r: Action)
        ensures
            (final(self)@, r@) == on_complete_response(old(self)@),
            session_wf(final(self)@),
    {
        let report = read_report(&self.response, self.framing);
        match report.model {
            Some(model) => {
                self.model = model;
            },
            None => {},
        }
        self.tokens = report.tokens;
        self.stage = Stage::Delivery;
        let response = copy_range(&self.response, 0, self.response.len());
        assert(response@ =~= self.response@);
        let cache_key = if self.chat && self.has_body && !same_text(
            self.model.as_str(),
            "unknown",
        ) {
            Some(self.cache_key.clone())
        } else {
            None
        };
        ActionOf::Deliver { response, cache_key }
    }

    fn take_chunks(&mut self) -> (r: Action)
        ensures
            (final(self)@, r@) == on_chunks(old(self)@),
            session_wf(final(self)@),
    {
        if chunks_ended(&body_bytes(&self.response)) {
            self.complete_response()
        } else {
            self.stage = Stage::Chunks;
            ActionOf::ReadUpstream
        }
    }

    fn take_rest(&mut self, length: usize) -> (r: Action)
        requires
            old(self)@.framing.length is Some,
        ensures
            (final(self)@, r@) == on_rest(old(self)@, length),
            session_wf(final(self)@),
    {
        let have: usize = body_bytes(&self.response).len();
        let rest: usize = length.saturating_sub(have);
        if rest > 0 {
            self.stage = Stage::Rest;
            ActionOf::ReadUpstreamExact(rest)
        } else {
            self.complete_response()
        }
    }

    fn response_head(&mut self) -> (r: Action)
        ensures
            (final(self)@, r@) == on_response_head(old(self)@),
            session_wf(final(self)@),
    {
        let text = decode_lossy(&head_bytes(&self.response));
        self.framing = read_framing(text.as_str());
        if self.framing.chunked {
            self.take_chunks()
        } else {
            match self.framing.length {
                Some(n) => self.take_rest(n),
                None => if self.framing.bodyless {
                    self.complete_response()
                } else {
                    self.stage = Stage::Tail;
                    ActionOf::ReadUpstream
                },
            }
        }
    }

    fn record(&mut self, ok: bool, metrics: &mut Metrics) -> (r: Action)
        ensures
            (final(self)@, r@) == ended(old(self)@, record_of(old(self)@, recorded_status(ok))),
            *final(metrics) == old(metrics).counted(outcome_counter(ok)),
    {
        if ok {
            metrics.count(Counter::UpstreamSuccess);
        } else {
            metrics.count(Counter::UpstreamFailures);
        }
        let status: u16 = if ok {
            200
        } else {
            0
        };
        let action = ActionOf::Record {
            user_id: self.user_id.clone(),
            path: self.path.clone(),
            model: self.model.clone(),
            tokens: self.tokens,
            status,
        };
        self.end(action)
    }

    /// Takes an event in and decides what is to be done next.
    pub fn step(&mut self, event: Event, metrics: &mut Metrics) -> (r: Action)
        requires
            session_wf(old(self)@),
        ensures
            (final(self)@, r@) == next(old(self)@, event@, *old(metrics)),
            *final(metrics) == next_metrics(old(self)@, event@, *old(metrics)),
            session_wf(final(self)@),
    {
        match (self.stage, event) {
            (Stage::Request, EventOf::ClientBytes(b)) => {
                append_all(&mut self.buffer, &b);
                proof {
                    lemma_body_start(self.buffer@);
                }
                if find_body(&self.buffer).is_some() {
                    self.take_request(metrics)
                } else {
                    ActionOf::ReadClient
                }
            },
            (Stage::Request, EventOf::ClientClosed) => self.take_request(metrics),
            (Stage::Request, EventOf::ClientFailed) => self.end(ActionOf::Close),
            (Stage::Stats, EventOf::StatsBody(json)) => {
                let response = ok_response("application/json", json.as_str());
                self.end(ActionOf::Reply(response))
            },
            (Stage::StoredStats, EventOf::StoredStatsBody(Ok(json))) => {
                let response = ok_response("application/json", json.as_str());
                self.end(ActionOf::Reply(response))
            },
            (Stage::StoredStats, EventOf::StoredStatsBody(Err(message))) => {
                let mut body = String::from_str("DB query failed: ");
                body.append(message.as_str());
                let response = plain_response("500 Internal Server Error", body.as_str());
                self.end(ActionOf::Reply(response))
            },
            (Stage::Key, EventOf::KeyKnown(known)) => {
                if known {
                    self.stage = Stage::Bucket;
                    ActionOf::TakeToken { api_key: self.api_key.clone(), path: self.path.clone() }
                } else {
                    metrics.count(Counter::AuthFailures);
                    self.end(ActionOf::Refuse(Refusal::InvalidKey))
                }
            },
            (Stage::Bucket, EventOf::TokenTaken(taken)) => {
                if taken {
                    metrics.count(Counter::GatewayAccepted);
                    self.stage = Stage::Cost;
                    ActionOf::QueryCost(self.user_id.clone())
                } else {
                    metrics.count(Counter::RateLimited);
                    self.end(ActionOf::Refuse(Refusal::RateLimited))
                }
            },
            (Stage::Cost, EventOf::CostReached(Some(used))) => {
                let mut body = String::from_str("Daily limit exceeded. Used: $");
                body.append(used.as_str());
                let response = plain_response("429 Too Many Requests", body.as_str());
                self.end(ActionOf::Reply(response))
            },
            (Stage::Cost, EventOf::CostReached(None)) => self.let_in(),
            (Stage::Body, EventOf::BodyBytes(b)) => {
                append_all(&mut self.buffer, &b);
                self.complete_request()
            },
            (Stage::BodyChunks, EventOf::ClientBytes(b)) => {
                append_all(&mut self.buffer, &b);
                self.take_body_chunks()
            },
            (Stage::BodyChunks, EventOf::ClientClosed) => self.complete_request(),
            (Stage::BodyChunks, EventOf::ClientFailed) => self.complete_request(),
            (Stage::Cache, EventOf::CacheAnswer(Some(response))) => {
                let action = ActionOf::ReplyCached {
                    response,
                    user_id: self.user_id.clone(),
                    path: self.path.clone(),
                    model: self.model.clone(),
                };
                self.end(action)
            },
            (Stage::Cache, EventOf::CacheAnswer(None)) => self.select_upstream(),
            (Stage::Upstream, EventOf::UpstreamSelected(Some(addr))) => {
                let host = upstream_host(addr.as_str());
                let tls = upstream_is_tls(addr.as_str());
                self.addr = addr.clone();
                self.stage = Stage::Connection;
                ActionOf::Connect { addr, host, tls }
            },
            (Stage::Upstream, EventOf::UpstreamSelected(None)) => self.end(
                ActionOf::Refuse(Refusal::NotFound),
            ),
            (Stage::Connection, EventOf::Connected(ok)) => {
                if ok {
                    self.send_upstream()
                } else {
                    metrics.count(Counter::UpstreamFailures);
                    let action = ActionOf::Unreachable {
                        path: self.path.clone(),
                        addr: self.addr.clone(),
                        mark: !upstream_is_tls(self.addr.as_str()),
                    };
                    self.end(action)
                }
            },
            (Stage::Sending, EventOf::Sent) => {
                if self.chat {
                    self.stage = Stage::Head;
                    ActionOf::ReadUpstream
                } else {
                    self.stage = Stage::Piping;
                    ActionOf::Pipe
                }
            },
            (Stage::Head, EventOf::UpstreamBytes(b)) => {
                append_all(&mut self.response, &b);
                proof {
                    lemma_body_start(self.response@);
                }
                if find_body(&self.response).is_some() {
                    self.response_head()
                } else {
                    ActionOf::ReadUpstream
                }
            },
            (Stage::Chunks, EventOf::UpstreamBytes(b)) => {
                append_all(&mut self.response, &b);
                self.take_chunks()
            },
            (Stage::Chunks, EventOf::UpstreamClosed) => self.complete_response(),
            (Stage::Rest, EventOf::UpstreamBytes(b)) => {
                append_all(&mut self.response, &b);
                match self.framing.length {
                    Some(n) => self.take_rest(n),
                    None => self.end(ActionOf::Abort),
                }
            },
            (Stage::Tail, EventOf::UpstreamBytes(b)) => {
                append_all(&mut self.response, &b);
                ActionOf::ReadUpstream
            },
            (Stage::Tail, EventOf::UpstreamClosed) => self.complete_response(),
            (Stage::Piping, EventOf::Piped(ok)) => self.record(ok, metrics),
            (Stage::Delivery, EventOf::Delivered) => self.record(true, metrics),
            _ => self.end(ActionOf::Abort),
        }
    }
}

/// A request that names a user is attributed to that user, whatever its key and the address of its
/// client; one that names none to its key and that address. The app that it names, or `default`,
/// follows behind a colon.
pub proof fn law_user_is_the_one_named(
    req: RequestView,
    key: Seq<char>,
    ip: Seq<char>,
    other_key: Seq<char>,
    other_ip: Seq<char>,
)
    ensures
        req.headers.contains_key("X-User-Id"@) ==> {
            let u = req.headers["X-User-Id"@];
            &&& user_of(req, key, ip) == user_of(req, other_key, other_ip)
            &&& user_of(req, key, ip).len() > u.len()
            &&& user_of(req, key, ip).take(u.len() as int + 1) == u + ":"@
            &&& !req.headers.contains_key("X-App-Id"@) ==> user_of(req, key, ip) == u + ":default"@
            &&& req.headers.contains_key("X-App-Id"@) ==> user_of(req, key, ip) == u + ":"@
                + req.headers["X-App-Id"@]
        },
        !req.headers.contains_key("X-User-Id"@) ==> {
            let u = key + ":"@ + ip;
            &&& !req.headers.contains_key("X-App-Id"@) ==> user_of(req, key, ip) == u + ":default"@
            &&& req.headers.contains_key("X-App-Id"@) ==> user_of(req, key, ip) == u + ":"@
                + req.headers["X-App-Id"@]
        },
{
    reveal_strlit(":");
    reveal_strlit("default");
    reveal_strlit(":default");
    assert(":"@ + "default"@ =~= ":default"@);
    let base = if req.headers.contains_key("X-User-Id"@) {
        req.headers["X-User-Id"@]
    } else {
        key + ":"@ + ip
    };
    assert(base + ":"@ + "default"@ =~= base + ":default"@);
    assert(user_of(req, key, ip).take(base.len() as int + 1) =~= base + ":"@);
}

} // verus!
