//! What holds of every session, whatever happens in it.
use vstd::prelude::*;

use crate::balance::{host_of, is_tls};
use crate::chunks::{chunk_framed, chunks_in, joined, law_chunks_are_put_together};
use crate::encoding::lossy;
use crate::http::{
    announced_length, announces_chunks, bare_response, body_of, body_start, field, lemma_body_start,
    lemma_body_start_stays, request_in, typed_response, upstream_head, RequestView,
};
use crate::metrics::{counters_text, Counter, Metrics};
use crate::prompt::{body_model, cache_key, is_chat, prompt_of, unknown};
use crate::response::{no_tokens, response_framing, response_report};
use crate::session::{
    asks_stats, asks_stored_stats, count_request, fresh, has_chunked_body, next, next_metrics,
    on_body_chunks, on_chunks, on_complete_request, on_complete_response, on_request,
    on_response_head, on_rest, received_request, request_data, request_model, request_of,
    request_prompt, session_wf, user_of, with_bytes, with_response, ActionOf, ActionView, EventOf,
    EventView, Refusal, SessionOf, SessionView, Stage, Step,
};
use crate::stats::{path_filter, query_for};

verus! {

/// What has happened in a session, each event with the counters at that time.
pub type Trace = Seq<(EventView, Metrics)>;

/// The session after some events, and what is to be done then.
pub open spec fn after(ip: Seq<char>, trace: Trace) -> (SessionView, ActionView)
    decreases trace.len(),
{
    if trace.len() == 0 {
        (fresh(ip), ActionOf::ReadClient)
    } else {
        next(after(ip, trace.drop_last()).0, trace.last().0, trace.last().1)
    }
}

/// An event has happened.
pub open spec fn happened(trace: Trace, e: EventView) -> bool {
    exists|i: int| 0 <= i < trace.len() && (#[trigger] trace[i]).0 == e
}

/// The order of the stages that lead to an upstream server.
pub open spec fn rank(stage: Stage) -> int {
    match stage {
        Stage::Request => 0,
        Stage::Stats | Stage::StoredStats | Stage::Key => 1,
        Stage::Bucket => 2,
        Stage::Cost => 3,
        Stage::Body | Stage::BodyChunks => 4,
        Stage::Cache => 5,
        Stage::Upstream => 6,
        Stage::Connection => 7,
        Stage::Sending => 8,
        Stage::Head | Stage::Piping => 9,
        Stage::Chunks | Stage::Rest | Stage::Tail => 10,
        Stage::Delivery => 11,
        Stage::Done => 12,
    }
}

/// What is only done for a request that was let in: a server is chosen, connected to or spoken
/// to, or a cached response is looked for or sent.
pub open spec fn is_admitted(action: ActionView) -> bool {
    ||| action is ReadBody
    ||| action is QueryCache
    ||| action is ReplyCached
    ||| reaches_out(action)
    ||| action is Deliver
    ||| action is Record
}

/// A server is chosen, connected to, given up or spoken to.
pub open spec fn reaches_out(action: ActionView) -> bool {
    ||| action is SelectUpstream
    ||| action is Connect
    ||| action is Unreachable
    ||| action is Forward
    ||| action is ReadUpstream
    ||| action is ReadUpstreamExact
    ||| action is Pipe
}

proof fn lemma_happened_stays(trace: Trace, e: EventView)
    requires
        trace.len() > 0,
        happened(trace.drop_last(), e),
    ensures
        happened(trace, e),
{
    let t = trace.drop_last();
    let i = choose|i: int| 0 <= i < t.len() && (#[trigger] t[i]).0 == e;
    assert(trace[i].0 == e);
}

proof fn lemma_happened_last(trace: Trace)
    requires
        trace.len() > 0,
    ensures
        happened(trace, trace.last().0),
{
    assert(trace[trace.len() - 1].0 == trace.last().0);
}

/// What has happened by the time a session reaches a stage.
spec fn gates(trace: Trace, stage: Stage) -> bool {
    &&& 2 <= rank(stage) < 12 ==> happened(trace, EventOf::KeyKnown(true))
    &&& 3 <= rank(stage) < 12 ==> happened(trace, EventOf::TokenTaken(true))
    &&& 4 <= rank(stage) < 12 ==> happened(trace, EventOf::CostReached(None))
}

/// The stages follow each other, and each gate is passed by its own event.
spec fn orderly(s: SessionView, e: EventView, r: Step) -> bool {
    let from = rank(s.stage);
    let to = rank(r.0.stage);
    &&& from <= to
    &&& 2 <= to < 12 && from < 2 ==> e == EventOf::<Seq<char>, Seq<u8>>::KeyKnown(true)
    &&& 3 <= to < 12 && from < 3 ==> e == EventOf::<Seq<char>, Seq<u8>>::TokenTaken(true) && from
        == 2
    &&& 4 <= to < 12 && from < 4 ==> e == EventOf::<Seq<char>, Seq<u8>>::CostReached(None) && from
        == 3
    &&& is_admitted(r.1) ==> 4 <= to < 12 || 4 <= from < 12
    &&& reaches_out(r.1) ==> to >= 6
    &&& r.1 is ReplyCached ==> s.stage == Stage::Cache
}

proof fn lemma_on_request(s: SessionView, req: RequestView, m: Metrics)
    ensures
        ({
            let r = on_request(s, req, m);
            &&& rank(r.0.stage) == 1 || rank(r.0.stage) == 12
            &&& !is_admitted(r.1)
        }),
{
}

proof fn lemma_on_complete_request(s: SessionView)
    ensures
        5 <= rank(on_complete_request(s).0.stage) <= 6,
        rank(on_complete_request(s).0.stage) == 5 ==> !reaches_out(on_complete_request(s).1),
        !(on_complete_request(s).1 is ReplyCached),
{
}

proof fn lemma_on_body_chunks(s: SessionView)
    ensures
        4 <= rank(on_body_chunks(s).0.stage) <= 6,
        rank(on_body_chunks(s).0.stage) < 6 ==> !reaches_out(on_body_chunks(s).1),
        !(on_body_chunks(s).1 is ReplyCached),
{
    lemma_on_complete_request(s);
}

proof fn lemma_on_response_head(s: SessionView)
    ensures
        10 <= rank(on_response_head(s).0.stage) <= 11,
        !(on_response_head(s).1 is ReplyCached),
{
}

proof fn lemma_step(s: SessionView, e: EventView, m: Metrics)
    ensures
        orderly(s, e, next(s, e, m)),
{
    match s.stage {
        Stage::Request => {
            lemma_step_request(s, e, m);
        },
        Stage::Cost | Stage::Body | Stage::BodyChunks => {
            lemma_step_body(s, e, m);
        },
        Stage::Head | Stage::Chunks | Stage::Rest | Stage::Tail => {
            lemma_step_response(s, e, m);
        },
        _ => {},
    }
}

proof fn lemma_step_body(s: SessionView, e: EventView, m: Metrics)
    requires
        rank(s.stage) == 3 || rank(s.stage) == 4,
    ensures
        orderly(s, e, next(s, e, m)),
{
    lemma_on_complete_request(s);
    lemma_on_body_chunks(s);
    match e {
        EventOf::BodyBytes(b) => {
            lemma_on_complete_request(with_bytes(s, b));
        },
        EventOf::ClientBytes(b) => {
            lemma_on_body_chunks(with_bytes(s, b));
        },
        _ => {},
    }
}

proof fn lemma_step_response(s: SessionView, e: EventView, m: Metrics)
    requires
        s.stage == Stage::Head || rank(s.stage) == 10,
    ensures
        orderly(s, e, next(s, e, m)),
{
    if let EventOf::UpstreamBytes(b) = e {
        lemma_on_response_head(with_response(s, b));
    }
}

proof fn lemma_step_request(s: SessionView, e: EventView, m: Metrics)
    requires
        s.stage == Stage::Request,
    ensures
        orderly(s, e, next(s, e, m)),
{
    let counted = m.counted(Counter::RequestsTotal);
    match e {
        EventOf::ClientBytes(b) => {
            let t = with_bytes(s, b);
            lemma_on_request(t, received_request(t), counted);
        },
        EventOf::ClientClosed => {
            lemma_on_request(s, received_request(s), counted);
        },
        _ => {},
    }
}

proof fn lemma_gates(ip: Seq<char>, trace: Trace)
    ensures
        gates(trace, after(ip, trace).0.stage),
    decreases trace.len(),
{
    if trace.len() > 0 {
        let t = trace.drop_last();
        lemma_gates(ip, t);
        lemma_step(after(ip, t).0, trace.last().0, trace.last().1);
        lemma_happened_last(trace);
        if happened(t, EventOf::KeyKnown(true)) {
            lemma_happened_stays(trace, EventOf::KeyKnown(true));
        }
        if happened(t, EventOf::TokenTaken(true)) {
            lemma_happened_stays(trace, EventOf::TokenTaken(true));
        }
        if happened(t, EventOf::CostReached(None)) {
            lemma_happened_stays(trace, EventOf::CostReached(None));
        }
    }
}

/// No request reaches an upstream server or the cache unless its API key is known, the rate
/// limit left room for it and its user has not reached the cost limit.
pub proof fn law_upstream_only_when_admitted(ip: Seq<char>, trace: Trace)
    requires
        is_admitted(after(ip, trace).1),
    ensures
        happened(trace, EventOf::KeyKnown(true)),
        happened(trace, EventOf::TokenTaken(true)),
        happened(trace, EventOf::CostReached(None)),
{
    let t = trace.drop_last();
    lemma_gates(ip, trace);
    lemma_gates(ip, t);
    lemma_step(after(ip, t).0, trace.last().0, trace.last().1);
    if 4 <= rank(after(ip, t).0.stage) < 12 {
        lemma_happened_stays(trace, EventOf::KeyKnown(true));
        lemma_happened_stays(trace, EventOf::TokenTaken(true));
        lemma_happened_stays(trace, EventOf::CostReached(None));
    }
}

/// The request bytes that an event brings.
pub open spec fn client_part(e: EventView) -> Seq<u8> {
    match e {
        EventOf::ClientBytes(b) => b,
        EventOf::BodyBytes(b) => b,
        _ => Seq::empty(),
    }
}

/// The response bytes that an event brings.
pub open spec fn upstream_part(e: EventView) -> Seq<u8> {
    match e {
        EventOf::UpstreamBytes(b) => b,
        _ => Seq::empty(),
    }
}

/// All that the client has sent.
pub open spec fn client_sent(trace: Trace) -> Seq<u8>
    decreases trace.len(),
{
    if trace.len() == 0 {
        Seq::empty()
    } else {
        client_sent(trace.drop_last()) + client_part(trace.last().0)
    }
}

/// All that the server has sent.
pub open spec fn upstream_sent(trace: Trace) -> Seq<u8>
    decreases trace.len(),
{
    if trace.len() == 0 {
        Seq::empty()
    } else {
        upstream_sent(trace.drop_last()) + upstream_part(trace.last().0)
    }
}

/// What a session knows follows from the bytes it holds: of its request from its stage on, and of
/// the framing of its response once the header of that is there.
spec fn informed(s: SessionView) -> bool {
    &&& 1 <= rank(s.stage) < 12 ==> {
        &&& s.path == request_of(s.buffer).path
        &&& s.chat == is_chat(s.path)
        &&& s.chunked_body == has_chunked_body(s.buffer)
        &&& s.announced == announced_length(request_of(s.buffer))
    }
    &&& s.stage == Stage::Key || 2 <= rank(s.stage) < 12 ==> {
        &&& field(request_of(s.buffer), "X-API-Key"@) == Some(s.api_key)
        &&& s.user_id == user_of(request_of(s.buffer), s.api_key, s.ip)
    }
    &&& s.stage == Stage::Body ==> !(s.chat && s.chunked_body)
    &&& s.stage == Stage::Head || 10 <= rank(s.stage) < 12 ==> s.chat
    &&& 5 <= rank(s.stage) < 12 && body_start(s.buffer) is Some ==> s.has_body == (lossy(
        request_data(s.buffer),
    ).len() > 0)
    &&& rank(s.stage) == 4 || rank(s.stage) == 5 || 8 <= rank(s.stage) < 12 ==> body_start(
        s.buffer,
    ) is Some
    &&& rank(s.stage) < 5 ==> s.model == unknown()
    &&& 5 <= rank(s.stage) < 11 ==> s.model == request_model(s.buffer)
    &&& 5 <= rank(s.stage) < 12 && body_start(s.buffer) is Some ==> s.cache_key == cache_key(
        request_model(s.buffer),
        request_prompt(s.buffer),
    )
    &&& 10 <= rank(s.stage) < 12 ==> {
        &&& body_start(s.response) is Some
        &&& s.framing == response_framing(s.response)
    }
    &&& session_wf(s)
}

/// A request that the cache is asked for: a chat request with a known model and a prompt.
pub open spec fn wants_cache(buffer: Seq<u8>) -> bool {
    &&& is_chat(request_of(buffer).path)
    &&& request_model(buffer) != unknown()
    &&& request_prompt(buffer).len() > 0
}

/// What is to be done where all of the request is there says whether the cache is asked.
spec fn asks_rightly(buffer: Seq<u8>, action: ActionView) -> bool {
    &&& action is QueryCache <==> wants_cache(buffer)
    &&& action is QueryCache ==> action->QueryCache_0 == cache_key(
        request_model(buffer),
        request_prompt(buffer),
    )
    &&& action is QueryCache || action is SelectUpstream
}

/// All of a response is there, as it is framed; one that has a body and does not say where it
/// ends, or breaks off in its chunks, ended where the server closed.
pub open spec fn is_whole(response: Seq<u8>, closed: bool) -> bool {
    let framing = response_framing(response);
    &&& body_start(response) is Some
    &&& framing.chunked ==> chunks_in(body_of(response)).ended || closed
    &&& !framing.chunked ==> match framing.length {
        Some(n) => body_of(response).len() >= n,
        None => framing.bodyless || closed,
    }
}

/// A chunked request body has come to its end, or the client broke off.
spec fn ends_in_chunks(buffer: Seq<u8>, e: EventView) -> bool {
    chunks_in(body_of(buffer)).ended || e is ClientClosed || e is ClientFailed
}

/// What the actions of a session say of what it holds, and that it takes in the bytes that an
/// event brings.
spec fn faithful(s: SessionView, e: EventView, r: Step) -> bool {
    &&& r.1 matches ActionOf::Forward { head, body } ==> {
        &&& r.0.stage == Stage::Sending
        &&& head == upstream_head(r.0.buffer, host_of(r.0.addr))
        &&& body == body_of(r.0.buffer)
    }
    &&& r.1 matches ActionOf::Deliver { response, cache_key } ==> {
        &&& r.0.stage == Stage::Delivery
        &&& response == r.0.response
        &&& cache_key is Some ==> cache_key->0 == r.0.cache_key
        &&& cache_key is Some <==> r.0.has_body && r.0.model != unknown()
        &&& is_whole(response, e is UpstreamClosed)
    }
    &&& r.0.stage == Stage::Body ==> {
        &&& r.1 is ReadBody
        &&& r.1->ReadBody_0 + body_of(r.0.buffer).len() == r.0.announced
    }
    &&& r.1 is ReadBody ==> r.0.stage == Stage::Body
    &&& (r.1 is QueryCache || (r.1 is SelectUpstream && !(e is CacheAnswer))) && r.0.chat
        && r.0.chunked_body && body_start(r.0.buffer) is Some ==> ends_in_chunks(r.0.buffer, e)
    &&& r.1 is QueryCache ==> r.0.stage == Stage::Cache && s.stage != Stage::Cache
    &&& r.1 is SelectUpstream ==> r.0.stage == Stage::Upstream
    &&& r.1 is SelectUpstream && !(e is CacheAnswer) ==> asks_rightly(r.0.buffer, r.1)
    &&& r.1 is QueryCache ==> asks_rightly(r.0.buffer, r.1)
    &&& r.1 matches ActionOf::ReplyCached { response, .. } ==> e == EventOf::<
        Seq<char>,
        Seq<u8>,
    >::CacheAnswer(Some(response))
    &&& r.0.stage != Stage::Done ==> r.0.buffer == s.buffer + client_part(e) && r.0.response
        == s.response + upstream_part(e)
}

proof fn lemma_keeps_request(s: SessionView, m: Metrics)
    requires
        s.stage == Stage::Request,
        informed(s),
    ensures
        ({
            let r = on_request(s, received_request(s), m);
            &&& informed(r.0)
            &&& r.0.buffer == s.buffer && r.0.response == s.response
            &&& !is_admitted(r.1)
        }),
{
}

proof fn lemma_keeps_complete_request(s: SessionView)
    requires
        3 <= rank(s.stage) < 5,
        body_start(s.buffer) is Some,
        informed(s),
    ensures
        ({
            let r = on_complete_request(s);
            &&& informed(r.0)
            &&& r.0.buffer == s.buffer && r.0.response == s.response
            &&& asks_rightly(s.buffer, r.1)
            &&& r.1 is QueryCache ==> r.0.stage == Stage::Cache
            &&& r.1 is SelectUpstream ==> r.0.stage == Stage::Upstream
        }),
{
}

proof fn lemma_keeps_body_chunks(s: SessionView)
    requires
        3 <= rank(s.stage) < 5,
        body_start(s.buffer) is Some,
        informed(s),
    ensures
        ({
            let r = on_body_chunks(s);
            &&& informed(r.0)
            &&& r.0.buffer == s.buffer && r.0.response == s.response
            &&& r.1 is ReadClient || asks_rightly(s.buffer, r.1)
            &&& r.1 is ReadClient || chunks_in(body_of(s.buffer)).ended
            &&& r.0.stage != Stage::Body
            &&& r.1 is QueryCache ==> r.0.stage == Stage::Cache
            &&& r.1 is SelectUpstream ==> r.0.stage == Stage::Upstream
        }),
{
    lemma_keeps_complete_request(s);
}

proof fn lemma_keeps_complete_response(s: SessionView, closed: bool)
    requires
        8 < rank(s.stage) < 11,
        informed(SessionOf { stage: Stage::Tail, ..s }),
        is_whole(s.response, closed),
    ensures
        ({
            let r = on_complete_response(s);
            &&& informed(r.0)
            &&& r.0.buffer == s.buffer && r.0.response == s.response
            &&& r.0.stage == Stage::Delivery
            &&& r.1 is Deliver
            &&& r.1->Deliver_response == s.response
            &&& r.1->Deliver_cache_key is Some ==> r.1->Deliver_cache_key->0 == r.0.cache_key
        &&& r.1->Deliver_cache_key is Some <==> r.0.has_body && r.0.model != unknown()
        }),
{
}

/// What holds when a session reads its response on or has all of it.
spec fn reads_on(s: SessionView, closed: bool, r: Step) -> bool {
    &&& informed(r.0)
    &&& r.0.buffer == s.buffer && r.0.response == s.response
    &&& r.1 is ReadUpstream || r.1 is ReadUpstreamExact || {
        &&& r.1 is Deliver
        &&& r.0.stage == Stage::Delivery
        &&& r.1->Deliver_response == s.response
        &&& is_whole(s.response, closed)
        &&& r.1->Deliver_cache_key is Some ==> r.1->Deliver_cache_key->0 == r.0.cache_key
        &&& r.1->Deliver_cache_key is Some <==> r.0.has_body && r.0.model != unknown()
    }
}

proof fn lemma_keeps_chunks(s: SessionView)
    requires
        8 < rank(s.stage) < 11,
        informed(SessionOf { stage: Stage::Tail, ..s }),
        s.framing.chunked,
    ensures
        reads_on(s, false, on_chunks(s)),
{
    if chunks_in(body_of(s.response)).ended {
        lemma_keeps_complete_response(s, false);
    }
}

proof fn lemma_keeps_rest(s: SessionView, n: usize)
    requires
        8 < rank(s.stage) < 11,
        informed(SessionOf { stage: Stage::Tail, ..s }),
        !s.framing.chunked,
        s.framing.length == Some(n),
    ensures
        reads_on(s, false, on_rest(s, n)),
{
    if body_of(s.response).len() >= n {
        lemma_keeps_complete_response(s, false);
    }
}

proof fn lemma_keeps_response_head(s: SessionView)
    requires
        s.stage == Stage::Head,
        informed(s),
        body_start(s.response) is Some,
    ensures
        reads_on(s, false, on_response_head(s)),
{
    let t = SessionOf { framing: response_framing(s.response), ..s };
    if t.framing.chunked {
        lemma_keeps_chunks(t);
    } else {
        match t.framing.length {
            Some(n) => {
                lemma_keeps_rest(t, n);
            },
            None => {
                if t.framing.bodyless {
                    lemma_keeps_complete_response(t, false);
                }
            },
        }
    }
}

/// The stage at which a response is read goes with its framing.
spec fn paced(s: SessionView) -> bool {
    &&& s.stage == Stage::Chunks ==> s.framing.chunked
    &&& s.stage == Stage::Rest || s.stage == Stage::Tail ==> !s.framing.chunked
    &&& s.stage == Stage::Tail ==> s.framing.length is None
}

proof fn lemma_more_request(s: SessionView, b: Seq<u8>)
    requires
        rank(s.stage) == 4,
        informed(s),
    ensures
        informed(with_bytes(s, b)),
{
    lemma_body_start_stays(s.buffer, b);
}

proof fn lemma_more_response(s: SessionView, b: Seq<u8>)
    requires
        rank(s.stage) == 10,
        informed(s),
    ensures
        informed(with_response(s, b)),
{
    lemma_body_start_stays(s.response, b);
}

proof fn lemma_faithful_header(s: SessionView, e: EventView, m: Metrics)
    requires
        s.stage == Stage::Request,
        informed(s),
    ensures
        faithful(s, e, next(s, e, m)),
        informed(next(s, e, m).0),
{
    assert(s.buffer + Seq::empty() =~= s.buffer);
    assert(s.response + Seq::empty() =~= s.response);
    let counted = m.counted(Counter::RequestsTotal);
    match e {
        EventOf::ClientBytes(b) => {
            lemma_keeps_request(with_bytes(s, b), counted);
        },
        EventOf::ClientClosed => {
            lemma_keeps_request(s, counted);
        },
        _ => {},
    }
}

proof fn lemma_faithful_cost(s: SessionView, e: EventView, m: Metrics)
    requires
        s.stage == Stage::Cost,
        informed(s),
    ensures
        faithful(s, e, next(s, e, m)),
        informed(next(s, e, m).0),
{
    assert(s.buffer + Seq::empty() =~= s.buffer);
    assert(s.response + Seq::empty() =~= s.response);
    lemma_body_start(s.buffer);
    if body_start(s.buffer) is Some {
        lemma_keeps_complete_request(s);
        lemma_keeps_body_chunks(s);
    }
}

proof fn lemma_faithful_body(s: SessionView, e: EventView, m: Metrics)
    requires
        rank(s.stage) == 4,
        informed(s),
    ensures
        faithful(s, e, next(s, e, m)),
        informed(next(s, e, m).0),
{
    assert(s.buffer + Seq::empty() =~= s.buffer);
    assert(s.response + Seq::empty() =~= s.response);
    lemma_keeps_complete_request(s);
    match e {
        EventOf::BodyBytes(b) => {
            lemma_more_request(s, b);
            lemma_keeps_complete_request(with_bytes(s, b));
        },
        EventOf::ClientBytes(b) => {
            lemma_more_request(s, b);
            lemma_keeps_body_chunks(with_bytes(s, b));
        },
        _ => {},
    }
}

proof fn lemma_faithful_routing(s: SessionView, e: EventView, m: Metrics)
    requires
        rank(s.stage) == 1 || rank(s.stage) == 2 || 5 <= rank(s.stage) < 8,
        informed(s),
    ensures
        faithful(s, e, next(s, e, m)),
        informed(next(s, e, m).0),
{
    assert(s.buffer + Seq::empty() =~= s.buffer);
    assert(s.response + Seq::empty() =~= s.response);
}

proof fn lemma_faithful_response(s: SessionView, e: EventView, m: Metrics)
    requires
        8 <= rank(s.stage),
        informed(s),
        paced(s),
    ensures
        faithful(s, e, next(s, e, m)),
        informed(next(s, e, m).0),
{
    assert(s.buffer + Seq::empty() =~= s.buffer);
    assert(s.response + Seq::empty() =~= s.response);
    match s.stage {
        Stage::Head => {
            if let EventOf::UpstreamBytes(b) = e {
                let t = with_response(s, b);
                lemma_body_start(t.response);
                if body_start(t.response) is Some {
                    lemma_keeps_response_head(t);
                }
            }
        },
        Stage::Chunks => {
            match e {
                EventOf::UpstreamBytes(b) => {
                    lemma_more_response(s, b);
                    lemma_keeps_chunks(with_response(s, b));
                },
                EventOf::UpstreamClosed => {
                    lemma_keeps_complete_response(s, true);
                },
                _ => {},
            }
        },
        Stage::Rest => {
            if let EventOf::UpstreamBytes(b) = e {
                lemma_more_response(s, b);
                lemma_keeps_rest(with_response(s, b), s.framing.length->0);
            }
        },
        Stage::Tail => {
            match e {
                EventOf::UpstreamBytes(b) => {
                    lemma_more_response(s, b);
                },
                EventOf::UpstreamClosed => {
                    lemma_keeps_complete_response(s, true);
                },
                _ => {},
            }
        },
        _ => {},
    }
}

proof fn lemma_paced_request(s: SessionView, e: EventView, m: Metrics)
    requires
        s.stage == Stage::Request,
    ensures
        paced(next(s, e, m).0),
{
    let counted = m.counted(Counter::RequestsTotal);
    match e {
        EventOf::ClientBytes(b) => {
            let t = with_bytes(s, b);
            lemma_on_request(t, received_request(t), counted);
        },
        EventOf::ClientClosed => {
            lemma_on_request(s, received_request(s), counted);
        },
        _ => {},
    }
}

proof fn lemma_paced_body(s: SessionView, e: EventView, m: Metrics)
    requires
        rank(s.stage) == 3 || rank(s.stage) == 4,
    ensures
        paced(next(s, e, m).0),
{
    lemma_on_complete_request(s);
    lemma_on_body_chunks(s);
    match e {
        EventOf::BodyBytes(b) => {
            lemma_on_complete_request(with_bytes(s, b));
        },
        EventOf::ClientBytes(b) => {
            lemma_on_body_chunks(with_bytes(s, b));
        },
        _ => {},
    }
}

proof fn lemma_paced_response(s: SessionView, e: EventView, m: Metrics)
    requires
        s.stage == Stage::Head || rank(s.stage) == 10,
        paced(s),
    ensures
        paced(next(s, e, m).0),
{
}

proof fn lemma_paced(s: SessionView, e: EventView, m: Metrics)
    requires
        paced(s),
    ensures
        paced(next(s, e, m).0),
{
    if s.stage == Stage::Request {
        lemma_paced_request(s, e, m);
    } else if rank(s.stage) == 3 || rank(s.stage) == 4 {
        lemma_paced_body(s, e, m);
    } else if s.stage == Stage::Head || rank(s.stage) == 10 {
        lemma_paced_response(s, e, m);
    }
}

proof fn lemma_faithful(s: SessionView, e: EventView, m: Metrics)
    requires
        informed(s),
        paced(s),
    ensures
        faithful(s, e, next(s, e, m)),
        informed(next(s, e, m).0),
        paced(next(s, e, m).0),
{
    lemma_paced(s, e, m);
    if s.stage == Stage::Request {
        lemma_faithful_header(s, e, m);
    } else if s.stage == Stage::Cost {
        lemma_faithful_cost(s, e, m);
    } else if rank(s.stage) == 4 {
        lemma_faithful_body(s, e, m);
    } else if rank(s.stage) < 8 {
        lemma_faithful_routing(s, e, m);
    } else {
        lemma_faithful_response(s, e, m);
    }
}

proof fn lemma_bytes(ip: Seq<char>, trace: Trace)
    ensures
        informed(after(ip, trace).0),
        paced(after(ip, trace).0),
        after(ip, trace).0.stage != Stage::Done ==> after(ip, trace).0.buffer == client_sent(trace)
            && after(ip, trace).0.response == upstream_sent(trace),
    decreases trace.len(),
{
    if trace.len() > 0 {
        let t = trace.drop_last();
        lemma_bytes(ip, t);
        lemma_faithful(after(ip, t).0, trace.last().0, trace.last().1);
        lemma_step(after(ip, t).0, trace.last().0, trace.last().1);
    }
}

/// What the last event of a session did.
proof fn lemma_last_step(ip: Seq<char>, trace: Trace)
    requires
        trace.len() > 0,
    ensures
        faithful(after(ip, trace.drop_last()).0, trace.last().0, after(ip, trace)),
        orderly(after(ip, trace.drop_last()).0, trace.last().0, after(ip, trace)),
{
    let t = trace.drop_last();
    lemma_bytes(ip, t);
    lemma_faithful(after(ip, t).0, trace.last().0, trace.last().1);
    lemma_step(after(ip, t).0, trace.last().0, trace.last().1);
}

/// The request goes upstream as the client sent it: the header with only the host rewritten, and
/// the body byte for byte.
pub proof fn law_request_is_forwarded_unchanged(ip: Seq<char>, trace: Trace)
    requires
        after(ip, trace).1 is Forward,
    ensures
        ({
            let all = client_sent(trace);
            let host = host_of(after(ip, trace).0.addr);
            &&& body_start(all) is Some
            &&& after(ip, trace).1->head == upstream_head(all, host)
            &&& after(ip, trace).1->body == body_of(all)
        }),
{
    lemma_bytes(ip, trace);
    lemma_last_step(ip, trace);
}

/// The response reaches the client byte for byte as the server sent it, and all of it.
pub proof fn law_response_is_delivered_unchanged(ip: Seq<char>, trace: Trace)
    requires
        after(ip, trace).1 is Deliver,
    ensures
        after(ip, trace).1->Deliver_response == upstream_sent(trace),
        is_whole(upstream_sent(trace), trace.last().0 is UpstreamClosed),
{
    lemma_bytes(ip, trace);
    lemma_last_step(ip, trace);
}

/// Usage tracking is transparent: once all of a response is there it is delivered as it is,
/// whatever its body says.
pub proof fn law_usage_tracking_is_transparent(s: SessionView)
    ensures
        on_complete_response(s).1 is Deliver,
        on_complete_response(s).1->Deliver_response == s.response,
{
}

/// A response whose status says that no body follows, and that announces none, is delivered as
/// soon as its header is there.
pub proof fn law_response_without_body_is_not_waited_for(s: SessionView)
    requires
        response_framing(s.response).bodyless,
        !response_framing(s.response).chunked,
        response_framing(s.response).length is None,
    ensures
        on_response_head(s).1 is Deliver,
        on_response_head(s).1->Deliver_response == s.response,
{
}

/// No server is reached for before a session is at that stage.
proof fn lemma_history(ip: Seq<char>, trace: Trace, i: int)
    requires
        0 <= i <= trace.len(),
    ensures
        reaches_out(after(ip, trace.take(i)).1) ==> rank(after(ip, trace).0.stage) >= 6,
    decreases trace.len(),
{
    if i == trace.len() {
        assert(trace.take(i) =~= trace);
        if trace.len() > 0 {
            lemma_last_step(ip, trace);
        }
    } else {
        let t = trace.drop_last();
        assert(t.take(i) =~= trace.take(i));
        lemma_history(ip, t, i);
        lemma_last_step(ip, trace);
    }
}

/// A session has all of its request, and it has just been decided whether the cache is asked.
pub open spec fn request_decided(ip: Seq<char>, trace: Trace) -> bool {
    &&& trace.len() > 0
    &&& after(ip, trace).1 is QueryCache || (after(ip, trace).1 is SelectUpstream && !(
    trace.last().0 is CacheAnswer))
}

/// The cache is asked if and only if all that the client has sent is a chat request with a known
/// model and a prompt, and then under the key of that model and that prompt.
pub proof fn law_cache_is_asked_for_model_and_prompt(ip: Seq<char>, trace: Trace)
    requires
        request_decided(ip, trace),
    ensures
        ({
            let all = client_sent(trace);
            &&& after(ip, trace).1 is QueryCache <==> wants_cache(all)
            &&& after(ip, trace).1 is QueryCache ==> after(ip, trace).1->QueryCache_0
                == cache_key(request_model(all), request_prompt(all))
        }),
{
    lemma_bytes(ip, trace);
    lemma_last_step(ip, trace);
}

/// A request that the cache answers gets the cached bytes as they are, and no server was chosen,
/// connected to or sent anything for it.
pub proof fn law_cache_hit_needs_no_server(ip: Seq<char>, trace: Trace)
    requires
        after(ip, trace).1 is ReplyCached,
    ensures
        trace.len() > 0,
        trace.last().0 == EventOf::<Seq<char>, Seq<u8>>::CacheAnswer(
            Some(after(ip, trace).1->ReplyCached_response),
        ),
        forall|i: int|
            0 <= i <= trace.len() ==> !reaches_out(#[trigger] after(ip, trace.take(i)).1),
{
    let t = trace.drop_last();
    lemma_last_step(ip, trace);
    assert forall|i: int| 0 <= i <= trace.len() implies !reaches_out(
        #[trigger] after(ip, trace.take(i)).1,
    ) by {
        if i == trace.len() {
            assert(trace.take(i) =~= trace);
        } else {
            assert(t.take(i) =~= trace.take(i));
            lemma_history(ip, t, i);
        }
    }
}

/// Whenever the cache holds the response that a session asks for, that response is the answer.
pub proof fn law_cached_response_is_the_answer(
    ip: Seq<char>,
    trace: Trace,
    response: Seq<u8>,
    m: Metrics,
)
    requires
        after(ip, trace).1 is QueryCache,
    ensures
        ({
            let answered = trace.push((EventOf::CacheAnswer(Some(response)), m));
            &&& after(ip, answered).1 is ReplyCached
            &&& after(ip, answered).1->ReplyCached_response == response
        }),
{
    let answered = trace.push((EventOf::CacheAnswer(Some(response)), m));
    lemma_last_step(ip, trace);
    assert(answered.drop_last() =~= trace);
}

/// A response is cached under the key of the model and the prompt in all that the client has
/// sent.
pub proof fn law_cached_under_model_and_prompt(ip: Seq<char>, trace: Trace)
    requires
        after(ip, trace).1 is Deliver,
        after(ip, trace).1->Deliver_cache_key is Some,
    ensures
        ({
            let all = client_sent(trace);
            after(ip, trace).1->Deliver_cache_key->0 == cache_key(
                request_model(all),
                request_prompt(all),
            )
        }),
{
    lemma_bytes(ip, trace);
    lemma_last_step(ip, trace);
}

/// A chat request that has the model and the prompt of an earlier one, whoever sends it, is looked
/// up, and under the key that the response to the earlier one was cached under.
pub proof fn law_repeated_prompt_finds_the_response(
    ip1: Seq<char>,
    first: Trace,
    ip2: Seq<char>,
    second: Trace,
)
    requires
        after(ip1, first).1 is Deliver,
        after(ip1, first).1->Deliver_cache_key is Some,
        wants_cache(client_sent(first)),
        request_decided(ip2, second),
        is_chat(request_of(client_sent(second)).path),
        request_model(client_sent(second)) == request_model(client_sent(first)),
        request_prompt(client_sent(second)) == request_prompt(client_sent(first)),
    ensures
        after(ip2, second).1 is QueryCache,
        after(ip2, second).1->QueryCache_0 == after(ip1, first).1->Deliver_cache_key->0,
{
    law_cached_under_model_and_prompt(ip1, first);
    law_cache_is_asked_for_model_and_prompt(ip2, second);
}

/// A request that is refused is answered with the status for its reason, whatever else it says:
/// one without a key with 401, one with an unknown key with 403, one beyond the rate limit with
/// 429, one that no route serves with 404 and one whose server cannot be reached with 502.
pub proof fn law_refusals(s: SessionView, req: RequestView, m: Metrics)
    ensures
        !asks_stats(req) && !asks_stored_stats(req) && req.path != "/metrics"@ && field(
            req,
            "X-API-Key"@,
        ) is None ==> on_request(s, req, m).1 == ActionOf::<Seq<char>, Seq<u8>>::Refuse(
            Refusal::MissingKey,
        ),
        s.stage == Stage::Key ==> next(s, EventOf::KeyKnown(false), m).1 == ActionOf::<
            Seq<char>,
            Seq<u8>,
        >::Refuse(Refusal::InvalidKey),
        s.stage == Stage::Bucket ==> next(s, EventOf::TokenTaken(false), m).1 == ActionOf::<
            Seq<char>,
            Seq<u8>,
        >::Refuse(Refusal::RateLimited),
        s.stage == Stage::Upstream ==> next(s, EventOf::UpstreamSelected(None), m).1 == ActionOf::<
            Seq<char>,
            Seq<u8>,
        >::Refuse(Refusal::NotFound),
        s.stage == Stage::Connection ==> next(s, EventOf::Connected(false), m).1 is Unreachable,
        Refusal::MissingKey.status() == "401 Unauthorized"@,
        Refusal::InvalidKey.status() == "403 Forbidden"@,
        Refusal::RateLimited.status() == "429 Too Many Requests"@,
        Refusal::NotFound.status() == "404 Not Found"@,
        Refusal::BadGateway.status() == "502 Bad Gateway"@,
{
}

/// Refusals are counted, and so is a request that is let in: one without a key and one with an
/// unknown key as a failed authentication, one beyond the rate limit as such, and one that the
/// rate limit leaves room for as accepted.
pub proof fn law_refusals_are_counted(s: SessionView, req: RequestView, m: Metrics)
    ensures
        !asks_stats(req) && !asks_stored_stats(req) && req.path != "/metrics"@ && field(
            req,
            "X-API-Key"@,
        ) is None ==> count_request(req, m) == m.counted(Counter::RequestsTotal).counted(
            Counter::AuthFailures,
        ),
        s.stage == Stage::Key ==> next_metrics(s, EventOf::KeyKnown(false), m) == m.counted(
            Counter::AuthFailures,
        ),
        s.stage == Stage::Bucket ==> next_metrics(s, EventOf::TokenTaken(false), m) == m.counted(
            Counter::RateLimited,
        ),
        s.stage == Stage::Bucket ==> next_metrics(s, EventOf::TokenTaken(true), m) == m.counted(
            Counter::GatewayAccepted,
        ),
{
}

/// What came of reaching for a server is counted where the session ends with it, as a failure
/// where no connection was made or it broke off, and else as a success; a session that is over
/// counts nothing more.
pub proof fn law_outcomes_are_counted(s: SessionView, e: EventView, ok: bool, m: Metrics)
    ensures
        s.stage == Stage::Connection ==> next_metrics(s, EventOf::Connected(false), m)
            == m.counted(Counter::UpstreamFailures),
        s.stage == Stage::Connection ==> next(s, EventOf::Connected(false), m).0.stage
            == Stage::Done,
        s.stage == Stage::Piping ==> next_metrics(s, EventOf::Piped(true), m) == m.counted(
            Counter::UpstreamSuccess,
        ),
        s.stage == Stage::Piping ==> next_metrics(s, EventOf::Piped(false), m) == m.counted(
            Counter::UpstreamFailures,
        ),
        s.stage == Stage::Piping ==> next(s, EventOf::Piped(ok), m).0.stage == Stage::Done,
        s.stage == Stage::Delivery ==> next_metrics(s, EventOf::Delivered, m) == m.counted(
            Counter::UpstreamSuccess,
        ),
        s.stage == Stage::Delivery ==> next(s, EventOf::Delivered, m).0.stage == Stage::Done,
        s.stage == Stage::Done ==> next_metrics(s, e, m) == m && next(s, e, m).0.stage
            == Stage::Done,
        next_metrics(s, e, m).upstream_success != m.upstream_success || next_metrics(
            s,
            e,
            m,
        ).upstream_failures != m.upstream_failures ==> next(s, e, m).0.stage == Stage::Done,
{
}

proof fn lemma_rank_grows(ip: Seq<char>, trace: Trace, i: int)
    requires
        0 <= i <= trace.len(),
    ensures
        rank(after(ip, trace.take(i)).0.stage) <= rank(after(ip, trace).0.stage),
    decreases trace.len(),
{
    if i == trace.len() {
        assert(trace.take(i) =~= trace);
    } else {
        let t = trace.drop_last();
        assert(t.take(i) =~= trace.take(i));
        lemma_rank_grows(ip, t, i);
        lemma_step(after(ip, t).0, trace.last().0, trace.last().1);
    }
}

/// An event counts as a request.
pub open spec fn counts_request(s: SessionView, e: EventView, m: Metrics) -> bool {
    next_metrics(s, e, m).requests_total != m.requests_total
}

/// The `i`th event of a session counts as a request.
pub open spec fn counted_at(ip: Seq<char>, trace: Trace, i: int) -> bool {
    counts_request(after(ip, trace.take(i)).0, trace[i].0, trace[i].1)
}

proof fn lemma_counted(s: SessionView, e: EventView, m: Metrics)
    ensures
        counts_request(s, e, m) ==> s.stage == Stage::Request && rank(next(s, e, m).0.stage) >= 1,
{
    if s.stage == Stage::Request {
        let counted = m.counted(Counter::RequestsTotal);
        match e {
            EventOf::ClientBytes(b) => {
                let t = with_bytes(s, b);
                lemma_on_request(t, received_request(t), counted);
            },
            EventOf::ClientClosed => {
                lemma_on_request(s, received_request(s), counted);
            },
            _ => {},
        }
    }
}

/// A session is counted as a request at most once.
pub proof fn law_request_is_counted_once(ip: Seq<char>, trace: Trace, i: int, j: int)
    requires
        0 <= i < j < trace.len(),
        counted_at(ip, trace, i),
    ensures
        !counted_at(ip, trace, j),
{
    let first = trace.take(i + 1);
    assert(first.drop_last() =~= trace.take(i));
    lemma_counted(after(ip, trace.take(i)).0, trace[i].0, trace[i].1);
    assert(rank(after(ip, first).0.stage) >= 1);
    assert(trace.take(j).take(i + 1) =~= first);
    lemma_rank_grows(ip, trace.take(j), i + 1);
    lemma_counted(after(ip, trace.take(j)).0, trace[j].0, trace[j].1);
}

/// What a session holds of the usage that its response reports.
spec fn reported(s: SessionView) -> bool {
    let report = response_report(s.response, s.framing);
    &&& s.stage == Stage::Delivery ==> {
        &&& s.tokens == report.tokens
        &&& report.model is Some ==> s.model == report.model->0
    }
    &&& rank(s.stage) < 11 ==> s.tokens == no_tokens()
    &&& rank(s.stage) < 11 && (rank(s.stage) < 5 || !s.chat) ==> s.model == unknown()
    &&& s.stage == Stage::Piping ==> !s.chat
}

/// Who a session is for stays once it is known, and what is noted of it says so.
spec fn attributed(s: SessionView, r: Step) -> bool {
    &&& r.0.ip == s.ip
    &&& rank(s.stage) >= 1 && r.0.stage != Stage::Done ==> r.0.user_id == s.user_id && r.0.path
        == s.path
    &&& r.1 matches ActionOf::LookUpKey(key) ==> {
        &&& r.0.stage == Stage::Key
        &&& r.0.user_id == user_of(received_request(r.0), key, r.0.ip)
        &&& r.0.path == received_request(r.0).path
    }
    &&& r.1 matches ActionOf::Record { user_id, path, model, tokens, .. } ==> {
        &&& s.stage == Stage::Piping || s.stage == Stage::Delivery
        &&& user_id == s.user_id && path == s.path && model == s.model && tokens == s.tokens
    }
    &&& r.1 matches ActionOf::ReplyCached { user_id, path, model, .. } ==> {
        &&& s.stage == Stage::Cache
        &&& user_id == s.user_id && path == s.path && model == s.model
    }
}

proof fn lemma_notes_request(s: SessionView, m: Metrics)
    requires
        s.stage == Stage::Request,
        reported(s),
    ensures
        ({
            let r = on_request(s, received_request(s), m);
            reported(r.0) && attributed(s, r)
        }),
{
}

proof fn lemma_notes_body_chunks(s: SessionView)
    requires
        1 <= rank(s.stage) < 5,
        reported(s),
    ensures
        ({
            let r = on_complete_request(s);
            reported(r.0) && attributed(s, r)
        }),
        ({
            let r = on_body_chunks(s);
            reported(r.0) && attributed(s, r)
        }),
{
}

proof fn lemma_notes_complete_response(s: SessionView)
    requires
        8 < rank(s.stage) < 11,
        reported(s),
    ensures
        ({
            let r = on_complete_response(s);
            reported(r.0) && attributed(s, r)
        }),
{
}

proof fn lemma_notes_response_head(s: SessionView)
    requires
        s.stage == Stage::Head,
        reported(s),
    ensures
        ({
            let r = on_response_head(s);
            reported(r.0) && attributed(s, r)
        }),
{
    lemma_notes_complete_response(SessionOf { framing: response_framing(s.response), ..s });
}

proof fn lemma_notes_header(s: SessionView, e: EventView, m: Metrics)
    requires
        s.stage == Stage::Request,
        reported(s),
    ensures
        reported(next(s, e, m).0),
        attributed(s, next(s, e, m)),
{
    let counted = m.counted(Counter::RequestsTotal);
    match e {
        EventOf::ClientBytes(b) => {
            lemma_notes_request(with_bytes(s, b), counted);
        },
        EventOf::ClientClosed => {
            lemma_notes_request(s, counted);
        },
        _ => {},
    }
}

proof fn lemma_notes_body(s: SessionView, e: EventView, m: Metrics)
    requires
        rank(s.stage) == 3 || rank(s.stage) == 4,
        reported(s),
    ensures
        reported(next(s, e, m).0),
        attributed(s, next(s, e, m)),
{
    lemma_notes_body_chunks(s);
    match e {
        EventOf::BodyBytes(b) => {
            lemma_notes_body_chunks(with_bytes(s, b));
        },
        EventOf::ClientBytes(b) => {
            lemma_notes_body_chunks(with_bytes(s, b));
        },
        _ => {},
    }
}

proof fn lemma_notes_response(s: SessionView, e: EventView, m: Metrics)
    requires
        s.stage == Stage::Head || rank(s.stage) == 10,
        reported(s),
    ensures
        reported(next(s, e, m).0),
        attributed(s, next(s, e, m)),
{
    lemma_notes_complete_response(s);
    if let EventOf::UpstreamBytes(b) = e {
        let t = with_response(s, b);
        lemma_notes_complete_response(t);
        if s.stage == Stage::Head {
            lemma_notes_response_head(t);
        }
    }
}

proof fn lemma_notes(s: SessionView, e: EventView, m: Metrics)
    requires
        reported(s),
    ensures
        reported(next(s, e, m).0),
        attributed(s, next(s, e, m)),
{
    if s.stage == Stage::Request {
        lemma_notes_header(s, e, m);
    } else if rank(s.stage) == 3 || rank(s.stage) == 4 {
        lemma_notes_body(s, e, m);
    } else if s.stage == Stage::Head || rank(s.stage) == 10 {
        lemma_notes_response(s, e, m);
    }
}

proof fn lemma_reported(ip: Seq<char>, trace: Trace)
    ensures
        reported(after(ip, trace).0),
        after(ip, trace).0.ip == ip,
    decreases trace.len(),
{
    if trace.len() > 0 {
        let t = trace.drop_last();
        lemma_reported(ip, t);
        lemma_notes(after(ip, t).0, trace.last().0, trace.last().1);
    }
}

/// The usage that is recorded of a chat request is the one that its response reports, under the
/// model that the response names. Of a request that is passed on unread no usage is recorded, and
/// no model.
pub proof fn law_recorded_usage_is_what_the_response_reports(ip: Seq<char>, trace: Trace)
    requires
        after(ip, trace).1 is Record,
    ensures
        ({
            let s = after(ip, trace.drop_last()).0;
            let noted = after(ip, trace).1;
            let response = upstream_sent(trace.drop_last());
            let report = response_report(response, response_framing(response));
            &&& s.stage == Stage::Delivery || s.stage == Stage::Piping
            &&& s.stage == Stage::Delivery ==> {
                &&& noted->Record_tokens == report.tokens
                &&& report.model is Some ==> noted->Record_model == report.model->0
            }
            &&& s.stage == Stage::Piping ==> {
                &&& noted->Record_tokens == no_tokens()
                &&& noted->Record_model == unknown()
            }
        }),
{
    let t = trace.drop_last();
    lemma_bytes(ip, t);
    lemma_reported(ip, t);
    lemma_notes(after(ip, t).0, trace.last().0, trace.last().1);
}

proof fn lemma_attribution_stays(ip: Seq<char>, trace: Trace, i: int)
    requires
        0 <= i <= trace.len(),
        after(ip, trace.take(i)).1 is LookUpKey,
    ensures
        rank(after(ip, trace).0.stage) >= 1,
        after(ip, trace).0.stage != Stage::Done ==> after(ip, trace).0.user_id == after(
            ip,
            trace.take(i),
        ).0.user_id && after(ip, trace).0.path == after(ip, trace.take(i)).0.path,
    decreases trace.len(),
{
    if i == trace.len() {
        assert(trace.take(i) =~= trace);
        let t = trace.drop_last();
        lemma_reported(ip, t);
        lemma_notes(after(ip, t).0, trace.last().0, trace.last().1);
    } else {
        let t = trace.drop_last();
        assert(t.take(i) =~= trace.take(i));
        lemma_attribution_stays(ip, t, i);
        lemma_reported(ip, t);
        lemma_notes(after(ip, t).0, trace.last().0, trace.last().1);
        lemma_step(after(ip, t).0, trace.last().0, trace.last().1);
    }
}

/// What a session uses, or gets from the cache, is noted for the user that its request names, or
/// else for its key and the address of its client, and for the path of its request.
pub proof fn law_usage_is_attributed_to_the_user(ip: Seq<char>, trace: Trace, i: int)
    requires
        0 <= i < trace.len(),
        after(ip, trace.take(i)).1 is LookUpKey,
        after(ip, trace).1 is Record || after(ip, trace).1 is ReplyCached,
    ensures
        ({
            let req = received_request(after(ip, trace.take(i)).0);
            let user = user_of(req, after(ip, trace.take(i)).1->LookUpKey_0, ip);
            let noted = after(ip, trace).1;
            &&& noted is Record ==> noted->Record_user_id == user && noted->Record_path == req.path
            &&& noted is ReplyCached ==> noted->ReplyCached_user_id == user
                && noted->ReplyCached_path == req.path
        }),
{
    let t = trace.drop_last();
    let asked = trace.take(i);
    assert(t.take(i) =~= asked);
    lemma_attribution_stays(ip, t, i);
    lemma_reported(ip, t);
    lemma_notes(after(ip, t).0, trace.last().0, trace.last().1);
    lemma_reported(ip, asked);
    lemma_reported(ip, asked.drop_last());
    lemma_notes(after(ip, asked.drop_last()).0, asked.last().0, asked.last().1);
}

/// Each time the rest of a request body was asked for, as many bytes came as were asked for.
pub open spec fn bodies_come_whole(ip: Seq<char>, trace: Trace) -> bool {
    forall|i: int|
        0 <= i < trace.len() && (#[trigger] trace[i]).0 is BodyBytes && after(
            ip,
            trace.take(i),
        ).1 is ReadBody ==> trace[i].0->BodyBytes_0.len() == after(
            ip,
            trace.take(i),
        ).1->ReadBody_0
}

/// The body of a request is there as far as it was announced.
spec fn filled(s: SessionView) -> bool {
    &&& s.stage == Stage::BodyChunks ==> s.chat && s.chunked_body
    &&& 5 <= rank(s.stage) < 12 && body_start(s.buffer) is Some && !(s.chat && s.chunked_body)
        ==> body_of(s.buffer).len() >= s.announced
}

proof fn lemma_filled_body(s: SessionView, e: EventView, m: Metrics, asked: usize)
    requires
        rank(s.stage) == 4,
        informed(s),
        filled(s),
        s.stage == Stage::Body ==> asked + body_of(s.buffer).len() == s.announced,
        s.stage == Stage::Body && e is BodyBytes ==> e->BodyBytes_0.len() == asked,
    ensures
        filled(next(s, e, m).0),
{
    match e {
        EventOf::BodyBytes(b) => {
            lemma_body_start_stays(s.buffer, b);
            lemma_on_complete_request(with_bytes(s, b));
        },
        EventOf::ClientBytes(b) => {
            lemma_on_complete_request(with_bytes(s, b));
        },
        _ => {},
    }
}

proof fn lemma_filled_step(s: SessionView, e: EventView, m: Metrics, asked: usize)
    requires
        informed(s),
        filled(s),
        s.stage == Stage::Body ==> asked + body_of(s.buffer).len() == s.announced,
        s.stage == Stage::Body && e is BodyBytes ==> e->BodyBytes_0.len() == asked,
    ensures
        filled(next(s, e, m).0),
{
    if s.stage == Stage::Request {
        lemma_step(s, e, m);
    } else if rank(s.stage) == 4 {
        lemma_filled_body(s, e, m, asked);
    } else if 5 <= rank(s.stage) < 12 {
        lemma_keeps_what_was_read(s, e, m);
        lemma_step(s, e, m);
    } else if s.stage == Stage::Cost {
        lemma_body_start(s.buffer);
        lemma_on_complete_request(s);
    }
}

proof fn lemma_keeps_what_was_read(s: SessionView, e: EventView, m: Metrics)
    requires
        5 <= rank(s.stage) < 12,
    ensures
        ({
            let r = next(s, e, m).0;
            r.buffer == s.buffer && r.chat == s.chat && r.chunked_body == s.chunked_body
                && r.announced == s.announced
        }),
{
}

proof fn lemma_filled(ip: Seq<char>, trace: Trace)
    requires
        bodies_come_whole(ip, trace),
    ensures
        filled(after(ip, trace).0),
    decreases trace.len(),
{
    if trace.len() > 0 {
        let t = trace.drop_last();
        let e = trace.last().0;
        assert forall|i: int|
            0 <= i < t.len() && (#[trigger] t[i]).0 is BodyBytes && after(
                ip,
                t.take(i),
            ).1 is ReadBody implies t[i].0->BodyBytes_0.len() == after(
            ip,
            t.take(i),
        ).1->ReadBody_0 by {
            assert(t[i] == trace[i]);
            assert(t.take(i) =~= trace.take(i));
        }
        lemma_filled(ip, t);
        lemma_bytes(ip, t);
        let n = trace.len() - 1;
        assert(trace.take(n) =~= t);
        assert(trace[n] == trace.last());
        if after(ip, t).0.stage == Stage::Body {
            assert(t.len() > 0);
            lemma_last_step(ip, t);
        }
        lemma_filled_step(after(ip, t).0, e, trace.last().1, after(ip, t).1->ReadBody_0);
    }
}

/// When it is decided whether the cache is asked, and again when the request goes upstream, all of
/// its body has come from the client: as many bytes as it announces, or, for a chat request in
/// chunks, all up to its last chunk, unless the client broke off.
pub proof fn law_request_is_read_whole(ip: Seq<char>, trace: Trace)
    requires
        request_decided(ip, trace) || after(ip, trace).1 is Forward,
        bodies_come_whole(ip, trace),
        body_start(client_sent(trace)) is Some,
    ensures
        ({
            let all = client_sent(trace);
            let req = request_of(all);
            if is_chat(req.path) && has_chunked_body(all) {
                request_decided(ip, trace) ==> chunks_in(body_of(all)).ended
                    || trace.last().0 is ClientClosed || trace.last().0 is ClientFailed
            } else {
                body_of(all).len() >= announced_length(req)
            }
        }),
{
    lemma_bytes(ip, trace);
    lemma_last_step(ip, trace);
    lemma_filled(ip, trace);
}

/// What is still missing of a request body is read: as many bytes as it announces beyond those that
/// came with the header.
pub proof fn law_missing_body_is_read(ip: Seq<char>, trace: Trace)
    requires
        after(ip, trace).1 is ReadBody,
    ensures
        ({
            let all = client_sent(trace);
            after(ip, trace).1->ReadBody_0 == announced_length(request_of(all)) - body_of(all).len()
        }),
{
    lemma_bytes(ip, trace);
    lemma_last_step(ip, trace);
}

/// A step in which a session tells who and what its request is about.
spec fn named(r: Step) -> bool {
    &&& r.1 matches ActionOf::LookUpKey(key) ==> r.0.stage == Stage::Key && key == r.0.api_key
    &&& r.1 matches ActionOf::TakeToken { api_key, path } ==> {
        &&& r.0.stage == Stage::Bucket
        &&& api_key == r.0.api_key && path == r.0.path
    }
    &&& r.1 matches ActionOf::QueryCost(user) ==> r.0.stage == Stage::Cost && user == r.0.user_id
    &&& r.1 matches ActionOf::SelectUpstream(path) ==> r.0.stage == Stage::Upstream && path
        == r.0.path
}

proof fn lemma_named_request(s: SessionView, e: EventView, m: Metrics)
    requires
        s.stage == Stage::Request,
    ensures
        named(next(s, e, m)),
{
}

proof fn lemma_named_body(s: SessionView, e: EventView, m: Metrics)
    requires
        rank(s.stage) == 3 || rank(s.stage) == 4,
    ensures
        named(next(s, e, m)),
{
}

proof fn lemma_named_response(s: SessionView, e: EventView, m: Metrics)
    requires
        s.stage == Stage::Head || rank(s.stage) == 10,
    ensures
        named(next(s, e, m)),
{
}

proof fn lemma_named(s: SessionView, e: EventView, m: Metrics)
    ensures
        named(next(s, e, m)),
{
    if s.stage == Stage::Request {
        lemma_named_request(s, e, m);
    } else if rank(s.stage) == 3 || rank(s.stage) == 4 {
        lemma_named_body(s, e, m);
    } else if s.stage == Stage::Head || rank(s.stage) == 10 {
        lemma_named_response(s, e, m);
    }
}

/// The key that is looked up and whose rate limit is asked is the one in the request, the limit is
/// that of the request's path, the cost is that of the user that the request is attributed to, and
/// the server is selected for the request's path.
pub proof fn law_limits_go_by_the_request(ip: Seq<char>, trace: Trace)
    ensures
        ({
            let req = request_of(client_sent(trace));
            let action = after(ip, trace).1;
            &&& action matches ActionOf::LookUpKey(key) ==> {
                &&& req.headers.contains_key("X-API-Key"@)
                &&& key == req.headers["X-API-Key"@]
            }
            &&& action matches ActionOf::TakeToken { api_key, path } ==> {
                &&& req.headers.contains_key("X-API-Key"@)
                &&& api_key == req.headers["X-API-Key"@]
                &&& path == req.path
            }
            &&& action matches ActionOf::QueryCost(user) ==> {
                &&& req.headers.contains_key("X-API-Key"@)
                &&& user == user_of(req, req.headers["X-API-Key"@], ip)
            }
            &&& action matches ActionOf::SelectUpstream(path) ==> path == req.path
        }),
{
    if trace.len() > 0 {
        let t = trace.drop_last();
        lemma_bytes(ip, trace);
        lemma_reported(ip, trace);
        lemma_named(after(ip, t).0, trace.last().0, trace.last().1);
    }
}

/// A session connects to the server that was selected for it, under the name of that server's host
/// and with TLS where the server speaks it, and sends the request addressed to that host; where the
/// connection fails, it is that server which is given up, and only one without TLS is taken out of
/// turn.
pub proof fn law_selected_server_is_connected(s: SessionView, addr: Seq<char>, m: Metrics)
    requires
        s.stage == Stage::Upstream,
    ensures
        ({
            let r = next(s, EventOf::UpstreamSelected(Some(addr)), m);
            let failed = next(r.0, EventOf::Connected(false), m);
            &&& r.1 == ActionOf::<Seq<char>, Seq<u8>>::Connect {
                addr,
                host: host_of(addr),
                tls: is_tls(addr),
            }
            &&& r.0.addr == addr
            &&& failed.1 == ActionOf::<Seq<char>, Seq<u8>>::Unreachable {
                path: s.path,
                addr,
                mark: !is_tls(addr),
            }
            &&& body_start(s.buffer) is Some ==> next(r.0, EventOf::Connected(true), m).1
                == ActionOf::<Seq<char>, Seq<u8>>::Forward {
                head: upstream_head(s.buffer, host_of(addr)),
                body: body_of(s.buffer),
            }
        }),
{
}

/// A response is cached if and only if its request has a body text and a model is known for it, the
/// one that the response names or else the one that the request does.
pub proof fn law_what_is_cached(ip: Seq<char>, trace: Trace)
    requires
        after(ip, trace).1 is Deliver,
    ensures
        after(ip, trace).1->Deliver_cache_key is Some <==> {
            &&& lossy(request_data(client_sent(trace))).len() > 0
            &&& after(ip, trace).0.model != "unknown"@
        },
        ({
            let response = upstream_sent(trace);
            let report = response_report(response, response_framing(response));
            after(ip, trace).0.model == (match report.model {
                Some(m) => m,
                None => request_model(client_sent(trace)),
            })
        }),
{
    let t = trace.drop_last();
    lemma_bytes(ip, trace);
    lemma_bytes(ip, t);
    lemma_last_step(ip, trace);
    lemma_delivered_model(after(ip, t).0, trace.last().0, trace.last().1);
    lemma_body_start(client_sent(trace));
}

proof fn lemma_delivered_model(s: SessionView, e: EventView, m: Metrics)
    requires
        informed(s),
        next(s, e, m).1 is Deliver,
    ensures
        ({
            let r = next(s, e, m).0;
            let report = response_report(r.response, r.framing);
            &&& s.stage == Stage::Head || rank(s.stage) == 10
            &&& r.buffer == s.buffer
            &&& r.model == (match report.model {
                Some(name) => name,
                None => request_model(s.buffer),
            })
        }),
{
    if s.stage == Stage::Request {
        lemma_step(s, e, m);
        lemma_step_request(s, e, m);
        lemma_no_delivery(s, e, m);
    } else if rank(s.stage) == 3 || rank(s.stage) == 4 {
        lemma_no_delivery(s, e, m);
    }
}

proof fn lemma_no_delivery(s: SessionView, e: EventView, m: Metrics)
    requires
        s.stage == Stage::Request || rank(s.stage) == 3 || rank(s.stage) == 4,
    ensures
        !(next(s, e, m).1 is Deliver),
{
    if s.stage == Stage::Request {
        let counted = m.counted(Counter::RequestsTotal);
        match e {
            EventOf::ClientBytes(b) => {
                let t = with_bytes(s, b);
                lemma_on_request(t, received_request(t), counted);
            },
            EventOf::ClientClosed => {
                lemma_on_request(s, received_request(s), counted);
            },
            _ => {},
        }
    } else {
        lemma_no_delivery_of_body(s, e, m);
    }
}

proof fn lemma_no_delivery_of_body(s: SessionView, e: EventView, m: Metrics)
    requires
        rank(s.stage) == 3 || rank(s.stage) == 4,
    ensures
        !(next(s, e, m).1 is Deliver),
{
}

/// The event that a session waits for in a stage.
pub open spec fn is_awaited(stage: Stage, e: EventView) -> bool {
    match stage {
        Stage::Request => e is ClientBytes || e is ClientClosed || e is ClientFailed,
        Stage::Stats => e is StatsBody,
        Stage::StoredStats => e is StoredStatsBody,
        Stage::Key => e is KeyKnown,
        Stage::Bucket => e is TokenTaken,
        Stage::Cost => e is CostReached,
        Stage::Body => e is BodyBytes,
        Stage::BodyChunks => e is ClientBytes || e is ClientClosed || e is ClientFailed,
        Stage::Cache => e is CacheAnswer,
        Stage::Upstream => e is UpstreamSelected,
        Stage::Connection => e is Connected,
        Stage::Sending => e is Sent,
        Stage::Head => e is UpstreamBytes,
        Stage::Chunks => e is UpstreamBytes || e is UpstreamClosed,
        Stage::Rest => e is UpstreamBytes,
        Stage::Tail => e is UpstreamBytes || e is UpstreamClosed,
        Stage::Piping => e is Piped,
        Stage::Delivery => e is Delivered,
        Stage::Done => false,
    }
}

/// A session is never given up over an event that it waits for, except where a connection stands
/// for a request whose header never ended.
pub proof fn law_awaited_events_are_taken(s: SessionView, e: EventView, m: Metrics)
    requires
        is_awaited(s.stage, e),
        s.stage == Stage::Connection ==> body_start(s.buffer) is Some,
    ensures
        !(next(s, e, m).1 is Abort),
{
    if s.stage == Stage::Request {
        lemma_taken_request(s, e, m);
    } else if rank(s.stage) == 3 || rank(s.stage) == 4 {
        lemma_taken_body(s, e, m);
    } else if s.stage == Stage::Head || rank(s.stage) == 10 {
        lemma_taken_response(s, e, m);
    }
}

proof fn lemma_taken_request(s: SessionView, e: EventView, m: Metrics)
    requires
        s.stage == Stage::Request,
        is_awaited(s.stage, e),
    ensures
        !(next(s, e, m).1 is Abort),
{
}

proof fn lemma_taken_body(s: SessionView, e: EventView, m: Metrics)
    requires
        rank(s.stage) == 3 || rank(s.stage) == 4,
        is_awaited(s.stage, e),
    ensures
        !(next(s, e, m).1 is Abort),
{
}

proof fn lemma_taken_response(s: SessionView, e: EventView, m: Metrics)
    requires
        s.stage == Stage::Head || rank(s.stage) == 10,
        is_awaited(s.stage, e),
    ensures
        !(next(s, e, m).1 is Abort),
{
}

/// The gateway answers its own endpoints without a key: a GET for the usage in memory, a GET for
/// the usage in the database, as the query string asks, and any request for the counters. Of any
/// other request the key is looked up, and one without a key is refused. A request whose client
/// stops before its header ends is taken by what has come.
pub proof fn law_own_endpoints(s: SessionView, e: EventView, m: Metrics)
    requires
        s.stage == Stage::Request,
        e is ClientClosed || (e is ClientBytes && body_start(s.buffer + client_part(e)) is Some),
    ensures
        ({
            let req = request_of(s.buffer + client_part(e));
            let action = next(s, e, m).1;
            let get = req.method == "GET"@;
            let stored = req.path.len() >= 9 && req.path.take(9) == "/stats-db"@;
            if req.path == "/metrics"@ {
                action == ActionOf::<Seq<char>, Seq<u8>>::Reply(
                    typed_response("text/plain"@, counters_text(m.counted(Counter::RequestsTotal))),
                )
            } else if get && req.path == "/stats"@ {
                action is RenderStats
            } else if get && stored {
                action == ActionOf::<Seq<char>, Seq<u8>>::QueryStats {
                    query: query_for(path_filter(req.path)),
                    user: path_filter(req.path).user,
                }
            } else if req.headers.contains_key("X-API-Key"@) {
                action == ActionOf::<Seq<char>, Seq<u8>>::LookUpKey(req.headers["X-API-Key"@])
            } else {
                action == ActionOf::<Seq<char>, Seq<u8>>::Refuse(Refusal::MissingKey)
            }
        }),
{
    lemma_body_start(s.buffer + client_part(e));
    assert(s.buffer + Seq::empty() =~= s.buffer);
    lemma_own_paths();
}

proof fn lemma_own_paths()
    ensures
        "/metrics"@ != "/stats"@,
        "/metrics"@.len() == 8,
        "/stats-db"@.len() == 9,
        "/stats"@.len() == 6,
{
    reveal_strlit("/stats");
    reveal_strlit("/metrics");
    reveal_strlit("/stats-db");
    assert("/stats"@.len() == 6 && "/metrics"@.len() == 8);
}

/// What the gateway renders of its own is sent as JSON; a failure of the database, and a user who
/// has reached the cost limit, are told so.
pub proof fn law_own_replies(s: SessionView, text: Seq<char>, m: Metrics)
    ensures
        s.stage == Stage::Stats ==> next(s, EventOf::StatsBody(text), m).1 == ActionOf::<
            Seq<char>,
            Seq<u8>,
        >::Reply(typed_response("application/json"@, text)),
        s.stage == Stage::StoredStats ==> next(s, EventOf::StoredStatsBody(Ok(text)), m).1
            == ActionOf::<Seq<char>, Seq<u8>>::Reply(typed_response("application/json"@, text)),
        s.stage == Stage::StoredStats ==> next(s, EventOf::StoredStatsBody(Err(text)), m).1
            == ActionOf::<Seq<char>, Seq<u8>>::Reply(
            bare_response("500 Internal Server Error"@, "DB query failed: "@ + text),
        ),
        s.stage == Stage::Cost ==> next(s, EventOf::CostReached(Some(text)), m).1 == ActionOf::<
            Seq<char>,
            Seq<u8>,
        >::Reply(
            bare_response("429 Too Many Requests"@, "Daily limit exceeded. Used: $"@ + text),
        ),
{
}

/// A request without a key and one with an unknown key are told why they are refused; the other
/// refusals have no body.
pub proof fn law_reasons()
    ensures
        Refusal::MissingKey.reason() == "Missing API Key"@,
        Refusal::InvalidKey.reason() == "Invalid API Key"@,
        Refusal::RateLimited.reason() == ""@,
        Refusal::NotFound.reason() == ""@,
        Refusal::BadGateway.reason() == ""@,
{
}

/// Whatever a request passes leads it on: a known key to the rate limit, room left there to the
/// cost, a cost below the limit to its body, the cache or a server, an empty cache to a server, a
/// selected server to a connection and that to the request being sent.
pub proof fn law_each_step_leads_on(s: SessionView, addr: Seq<char>, m: Metrics)
    ensures
        s.stage == Stage::Key ==> next(s, EventOf::KeyKnown(true), m).1 is TakeToken,
        s.stage == Stage::Bucket ==> next(s, EventOf::TokenTaken(true), m).1 is QueryCost,
        s.stage == Stage::Cache ==> next(s, EventOf::CacheAnswer(None), m).1 is SelectUpstream,
        s.stage == Stage::Upstream ==> next(s, EventOf::UpstreamSelected(Some(addr)), m).1
            is Connect,
        s.stage == Stage::Connection && body_start(s.buffer) is Some ==> next(
            s,
            EventOf::Connected(true),
            m,
        ).1 is Forward,
{
}

/// A request that is let in is read on only where a part of its body is missing, and is decided on
/// as soon as all of it is there.
pub proof fn law_whole_request_is_not_waited_for(s: SessionView, m: Metrics)
    requires
        s.stage == Stage::Cost,
    ensures
        ({
            let r = next(s, EventOf::CostReached(None), m);
            let missing = s.announced as int - body_of(s.buffer).len();
            if body_start(s.buffer) is None {
                r.1 is SelectUpstream
            } else if s.chat && s.chunked_body {
                if chunks_in(body_of(s.buffer)).ended {
                    r.1 is QueryCache || r.1 is SelectUpstream
                } else {
                    r.1 is ReadClient && r.0.stage == Stage::BodyChunks
                }
            } else if missing > 0 {
                r.1 == ActionOf::<Seq<char>, Seq<u8>>::ReadBody(missing as usize)
            } else {
                r.1 is QueryCache || r.1 is SelectUpstream
            }
        }),
{
    lemma_body_start(s.buffer);
}

/// The chunks of a request body are read until the last one is there or the client breaks off.
pub proof fn law_body_chunks_are_read_to_the_last(s: SessionView, b: Seq<u8>, m: Metrics)
    requires
        s.stage == Stage::BodyChunks,
    ensures
        ({
            let r = next(s, EventOf::ClientBytes(b), m);
            if chunks_in(body_of(s.buffer + b)).ended {
                r.1 is QueryCache || r.1 is SelectUpstream
            } else {
                r.1 is ReadClient && r.0.stage == Stage::BodyChunks
            }
        }),
        next(s, EventOf::ClientClosed, m).1 is QueryCache || next(s, EventOf::ClientClosed, m).1
            is SelectUpstream,
        next(s, EventOf::ClientFailed, m).1 == next(s, EventOf::ClientClosed, m).1,
{
}

/// Once the header of a response is there, the response is read on only where a part of it is
/// missing: the rest of a body with a length by the number of bytes that is missing, chunks up to
/// the last one, and a body without either until the server closes. As soon as all of it is there
/// it is delivered.
pub proof fn law_whole_response_is_not_waited_for(s: SessionView, b: Seq<u8>, m: Metrics)
    requires
        s.stage == Stage::Head,
    ensures
        ({
            let all = s.response + b;
            let framing = response_framing(all);
            let action = next(s, EventOf::UpstreamBytes(b), m).1;
            if body_start(all) is None {
                action is ReadUpstream
            } else if framing.chunked {
                if chunks_in(body_of(all)).ended {
                    action is Deliver
                } else {
                    action is ReadUpstream
                }
            } else {
                match framing.length {
                    Some(n) => if n > body_of(all).len() {
                        action == ActionOf::<Seq<char>, Seq<u8>>::ReadUpstreamExact(
                            (n - body_of(all).len()) as usize,
                        )
                    } else {
                        action is Deliver
                    },
                    None => if framing.bodyless {
                        action is Deliver
                    } else {
                        action is ReadUpstream
                    },
                }
            }
        }),
{
    lemma_body_start(s.response + b);
}

/// A response that is being read is delivered as soon as the rest of it has come: the last chunk,
/// the bytes up to its length or, where it says neither, the end of the connection.
pub proof fn law_rest_of_a_response(s: SessionView, b: Seq<u8>, m: Metrics)
    ensures
        s.stage == Stage::Chunks && chunks_in(body_of(s.response + b)).ended ==> next(
            s,
            EventOf::UpstreamBytes(b),
            m,
        ).1 is Deliver,
        s.stage == Stage::Chunks && !chunks_in(body_of(s.response + b)).ended ==> next(
            s,
            EventOf::UpstreamBytes(b),
            m,
        ).1 is ReadUpstream,
        s.stage == Stage::Rest && s.framing.length is Some ==> {
            let n = s.framing.length->0;
            let have = body_of(s.response + b).len();
            let action = next(s, EventOf::UpstreamBytes(b), m).1;
            if n > have {
                action == ActionOf::<Seq<char>, Seq<u8>>::ReadUpstreamExact((n - have) as usize)
            } else {
                action is Deliver
            }
        },
        s.stage == Stage::Tail ==> next(s, EventOf::UpstreamBytes(b), m).1 is ReadUpstream,
        s.stage == Stage::Chunks || s.stage == Stage::Tail ==> next(
            s,
            EventOf::UpstreamClosed,
            m,
        ).1 is Deliver,
{
}

/// What a request says is in its header, and its data in what follows: all of it, or what its
/// chunks give where its header announces chunks. However the body is cut into chunks, a chat
/// request has the model and the prompt that the same body in one piece has.
pub proof fn law_data_of_a_request(whole: Seq<u8>, cut: Seq<u8>, pieces: Seq<Seq<u8>>)
    requires
        body_start(whole) == Some(whole.len() as int),
        body_start(cut) == Some(cut.len() as int),
        !announces_chunks(lossy(whole)),
        announces_chunks(lossy(cut)),
        forall|i: int| 0 <= i < pieces.len() ==> (#[trigger] pieces[i]).len() > 0,
    ensures
        ({
            let body = joined(pieces);
            let first = whole + body;
            let second = cut + chunk_framed(pieces);
            &&& request_of(first) == request_in(lossy(whole))
            &&& request_of(second) == request_in(lossy(cut))
            &&& request_data(first) == body
            &&& request_data(second) == body
            &&& request_prompt(first) == prompt_of(lossy(body))
            &&& request_prompt(second) == prompt_of(lossy(body))
            &&& request_model(first) == (if is_chat(request_of(first).path) {
                body_model(body)
            } else {
                "unknown"@
            })
            &&& request_model(second) == (if is_chat(request_of(second).path) {
                body_model(body)
            } else {
                "unknown"@
            })
        }),
{
    let framed = chunk_framed(pieces);
    lemma_body_start_stays(whole, joined(pieces));
    lemma_body_start_stays(cut, framed);
    assert(whole.take(whole.len() as int) =~= whole);
    assert(cut.take(cut.len() as int) =~= cut);
    assert(body_of(whole) + joined(pieces) =~= joined(pieces));
    assert(body_of(cut) + framed =~= framed);
    law_chunks_are_put_together(pieces);
}

/// What is noted of a request in the end is noted by what its client has sent: for the user and the
/// path of the request, and of an answer from the cache for the model that the request names.
pub proof fn law_noted_by_the_request(ip: Seq<char>, trace: Trace)
    requires
        after(ip, trace).1 is Record || after(ip, trace).1 is ReplyCached,
    ensures
        ({
            let req = request_of(client_sent(trace));
            let noted = after(ip, trace).1;
            &&& req.headers.contains_key("X-API-Key"@)
            &&& noted is Record ==> {
                &&& noted->Record_user_id == user_of(req, req.headers["X-API-Key"@], ip)
                &&& noted->Record_path == req.path
            }
            &&& noted is ReplyCached ==> {
                &&& noted->ReplyCached_user_id == user_of(req, req.headers["X-API-Key"@], ip)
                &&& noted->ReplyCached_path == req.path
                &&& noted->ReplyCached_model == request_model(client_sent(trace))
            }
        }),
{
    let t = trace.drop_last();
    lemma_bytes(ip, t);
    lemma_reported(ip, t);
    lemma_notes(after(ip, t).0, trace.last().0, trace.last().1);
    assert(client_sent(t) + Seq::empty() =~= client_sent(t));
    lemma_noted_by_plain_events(after(ip, t).0, trace.last().0, trace.last().1);
}

proof fn lemma_noted_by_plain_events(s: SessionView, e: EventView, m: Metrics)
    requires
        s.stage == Stage::Piping || s.stage == Stage::Delivery || s.stage == Stage::Cache,
        next(s, e, m).1 is Record || next(s, e, m).1 is ReplyCached,
    ensures
        client_part(e) == Seq::<u8>::empty(),
        upstream_part(e) == Seq::<u8>::empty(),
{
}

/// What a chat request used is recorded under the model that its response names, or else under the
/// one that the request does.
pub proof fn law_recorded_model(ip: Seq<char>, trace: Trace)
    requires
        after(ip, trace).1 is Record,
        is_chat(request_of(client_sent(trace)).path),
    ensures
        ({
            let response = upstream_sent(trace);
            let report = response_report(response, response_framing(response));
            &&& after(ip, trace).1->Record_tokens == report.tokens
            &&& after(ip, trace).1->Record_model == (match report.model {
                Some(name) => name,
                None => request_model(client_sent(trace)),
            })
        }),
{
    let t = trace.drop_last();
    let s = after(ip, t).0;
    lemma_bytes(ip, t);
    lemma_reported(ip, t);
    lemma_notes(s, trace.last().0, trace.last().1);
    lemma_noted_by_plain_events(s, trace.last().0, trace.last().1);
    assert(client_sent(t) + Seq::empty() =~= client_sent(t));
    assert(upstream_sent(t) + Seq::empty() =~= upstream_sent(t));
    if s.stage == Stage::Delivery {
        let u = t.drop_last();
        lemma_delivery(after(ip, u).0, t.last().0, t.last().1);
        law_what_is_cached(ip, t);
    }
}

proof fn lemma_delivery(s: SessionView, e: EventView, m: Metrics)
    ensures
        next(s, e, m).0.stage == Stage::Delivery ==> next(s, e, m).1 is Deliver,
{
    if s.stage == Stage::Request || rank(s.stage) == 3 || rank(s.stage) == 4 {
        lemma_step(s, e, m);
        if s.stage != Stage::Request {
            lemma_on_complete_request(s);
            lemma_on_body_chunks(s);
            match e {
                EventOf::BodyBytes(b) => {
                    lemma_on_complete_request(with_bytes(s, b));
                },
                EventOf::ClientBytes(b) => {
                    lemma_on_body_chunks(with_bytes(s, b));
                },
                _ => {},
            }
        }
    } else if s.stage == Stage::Head || rank(s.stage) == 10 {
        lemma_delivery_of_response(s, e, m);
    }
}

proof fn lemma_delivery_of_response(s: SessionView, e: EventView, m: Metrics)
    requires
        s.stage == Stage::Head || rank(s.stage) == 10,
    ensures
        next(s, e, m).0.stage == Stage::Delivery ==> next(s, e, m).1 is Deliver,
{
}

/// The header of a request is read on until its empty line is there, and the request is then taken;
/// so is one whose client sends no more.
pub proof fn law_header_is_read_to_its_end(s: SessionView, b: Seq<u8>, m: Metrics)
    requires
        s.stage == Stage::Request,
    ensures
        ({
            let r = next(s, EventOf::ClientBytes(b), m);
            &&& r.0.buffer == s.buffer + b
            &&& body_start(s.buffer + b) is None ==> r.1 is ReadClient && r.0.stage
                == Stage::Request
            &&& body_start(s.buffer + b) is Some ==> r.0.stage != Stage::Request
        }),
        next(s, EventOf::ClientClosed, m).0.stage != Stage::Request,
        next(s, EventOf::ClientFailed, m).1 is Close,
{
    let t = with_bytes(s, b);
    let counted = m.counted(Counter::RequestsTotal);
    lemma_body_start(t.buffer);
    lemma_on_request(t, received_request(t), counted);
    lemma_on_request(s, received_request(s), counted);
}

/// Once a request was sent, the response to a chat request is read and any other is passed on. What
/// is recorded in the end tells whether the connection held.
pub proof fn law_sent_requests_are_answered(s: SessionView, m: Metrics)
    ensures
        s.stage == Stage::Sending && s.chat ==> next(s, EventOf::Sent, m).1 is ReadUpstream,
        s.stage == Stage::Sending && !s.chat ==> next(s, EventOf::Sent, m).1 is Pipe,
        s.stage == Stage::Piping ==> next(s, EventOf::Piped(true), m).1->Record_status == 200,
        s.stage == Stage::Piping ==> next(s, EventOf::Piped(false), m).1->Record_status == 0,
        s.stage == Stage::Piping ==> next(s, EventOf::Piped(true), m).1 is Record,
        s.stage == Stage::Piping ==> next(s, EventOf::Piped(false), m).1 is Record,
        s.stage == Stage::Delivery ==> next(s, EventOf::Delivered, m).1 is Record && next(
            s,
            EventOf::Delivered,
            m,
        ).1->Record_status == 200,
{
}

/// Nothing is counted but requests, keys, rate limits and what came of reaching for a server, each
/// where it comes about.
pub proof fn law_nothing_else_is_counted(s: SessionView, e: EventView, m: Metrics)
    ensures
        s.stage != Stage::Request && s.stage != Stage::Key && s.stage != Stage::Bucket && s.stage
            != Stage::Connection && s.stage != Stage::Piping && s.stage != Stage::Delivery
            ==> next_metrics(s, e, m) == m,
        s.stage == Stage::Key && !(e is KeyKnown) ==> next_metrics(s, e, m) == m,
        s.stage == Stage::Key ==> next_metrics(s, EventOf::KeyKnown(true), m) == m,
        s.stage == Stage::Connection ==> next_metrics(s, EventOf::Connected(true), m) == m,
        s.stage == Stage::Request && !(e is ClientBytes) && !(e is ClientClosed) ==> next_metrics(
            s,
            e,
            m,
        ) == m,
{
}

/// A request is counted as soon as it is taken, and with it whether it presents a key; one for the
/// gateway's own endpoints is only counted.
pub proof fn law_requests_are_counted(s: SessionView, e: EventView, m: Metrics)
    requires
        s.stage == Stage::Request,
        e is ClientClosed || e is ClientBytes,
    ensures
        ({
            let all = s.buffer + client_part(e);
            let req = request_of(all);
            let get = req.method == "GET"@;
            let stored = req.path.len() >= 9 && req.path.take(9) == "/stats-db"@;
            let counted = m.counted(Counter::RequestsTotal);
            next_metrics(s, e, m) == (if e is ClientBytes && body_start(all) is None {
                m
            } else if req.path == "/metrics"@ || (get && (req.path == "/stats"@ || stored)) {
                counted
            } else if req.headers.contains_key("X-API-Key"@) {
                counted.counted(Counter::AuthSuccess)
            } else {
                counted.counted(Counter::AuthFailures)
            })
        }),
{
    lemma_body_start(s.buffer + client_part(e));
    assert(s.buffer + Seq::empty() =~= s.buffer);
    lemma_own_paths();
}

} // verus!
