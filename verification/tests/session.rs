use ai_gateway::http::parse_request;
use ai_gateway::metrics::Metrics;
use ai_gateway::prompt::generate_cache_key;
use ai_gateway::session::{identify_user, Action, ActionOf, Event, EventOf, Refusal, Session};

struct Run {
    session: Session,
    metrics: Metrics,
}

impl Run {
    fn new() -> Run {
        Run { session: Session::new("10.0.0.9"), metrics: Metrics::new() }
    }

    fn step(&mut self, event: Event) -> Action {
        self.session.step(event, &mut self.metrics)
    }

    fn client(&mut self, text: &str) -> Action {
        self.step(EventOf::ClientBytes(text.as_bytes().to_vec()))
    }

    fn upstream(&mut self, text: &str) -> Action {
        self.step(EventOf::UpstreamBytes(text.as_bytes().to_vec()))
    }

    /// Takes a request in that is let in.
    fn accepted(&mut self, text: &str) -> Action {
        assert!(matches!(self.client(text), ActionOf::LookUpKey(_)));
        assert!(matches!(self.step(EventOf::KeyKnown(true)), ActionOf::TakeToken { .. }));
        assert!(matches!(self.step(EventOf::TokenTaken(true)), ActionOf::QueryCost(_)));
        self.step(EventOf::CostReached(None))
    }

    /// Has the server at an address chosen and connected to.
    fn connect(&mut self, addr: &str) -> Action {
        let action = self.step(EventOf::UpstreamSelected(Some(addr.to_string())));
        assert!(matches!(action, ActionOf::Connect { .. }));
        self.step(EventOf::Connected(true))
    }
}

fn text(bytes: &[u8]) -> String {
    String::from_utf8(bytes.to_vec()).unwrap()
}

const BODY: &str = "{\"model\": \"gpt-4o\", \"messages\": [{\"content\": \"Hello, World.\"}]}";

fn chat() -> String {
    format!(
        "POST /v1/chat/completions HTTP/1.1\r\nHost: localhost\r\nX-API-Key: user1\r\nX-User-Id: user42\r\nX-App-Id: support\r\nContent-Length: {}\r\n\r\n{}",
        BODY.len(),
        BODY
    )
}

fn prompt_key() -> String {
    generate_cache_key("gpt-4o", "hello world")
}

#[test]
fn missing_key_is_refused() {
    let mut run = Run::new();
    let action = run.client("GET /test HTTP/1.1\r\n\r\n");
    assert!(matches!(action, ActionOf::Refuse(Refusal::MissingKey)));
    assert_eq!(
        Refusal::MissingKey.response("id", 3),
        "HTTP/1.1 401 Unauthorized\r\nX-Request-ID: id\r\nX-Response-Time: 3ms\r\nContent-Length: 15\r\n\r\nMissing API Key"
    );
    assert_eq!(run.metrics.requests_total, 1);
    assert_eq!(run.metrics.auth_failures, 1);
    assert_eq!(run.metrics.auth_success, 0);
}

#[test]
fn unknown_key_is_refused() {
    let mut run = Run::new();
    let action = run.client("GET /test HTTP/1.1\r\nX-API-Key: wrong_key\r\n\r\n");
    assert!(matches!(action, ActionOf::LookUpKey(ref k) if k == "wrong_key"));
    let action = run.step(EventOf::KeyKnown(false));
    assert!(matches!(action, ActionOf::Refuse(Refusal::InvalidKey)));
    assert_eq!(
        Refusal::InvalidKey.response("id", 0),
        "HTTP/1.1 403 Forbidden\r\nX-Request-ID: id\r\nX-Response-Time: 0ms\r\nContent-Length: 15\r\n\r\nInvalid API Key"
    );
    assert_eq!(run.metrics.auth_failures, 1);
    assert_eq!(run.metrics.auth_success, 1);
}

#[test]
fn rate_limit_is_enforced() {
    let mut run = Run::new();
    run.client("GET /test HTTP/1.1\r\nX-API-Key: user1\r\n\r\n");
    let action = run.step(EventOf::KeyKnown(true));
    assert!(
        matches!(action, ActionOf::TakeToken { ref api_key, ref path } if api_key == "user1" && path == "/test")
    );
    let action = run.step(EventOf::TokenTaken(false));
    assert!(matches!(action, ActionOf::Refuse(Refusal::RateLimited)));
    assert_eq!(
        Refusal::RateLimited.response("id", 1),
        "HTTP/1.1 429 Too Many Requests\r\nX-Request-ID: id\r\nX-Response-Time: 1ms\r\nContent-Length: 0\r\n\r\n"
    );
    assert_eq!(run.metrics.rate_limited, 1);
    assert_eq!(run.metrics.gateway_accepted, 0);
}

#[test]
fn cost_limit_is_enforced() {
    let mut run = Run::new();
    run.client("GET /test HTTP/1.1\r\nX-API-Key: user1\r\n\r\n");
    run.step(EventOf::KeyKnown(true));
    let action = run.step(EventOf::TokenTaken(true));
    assert!(matches!(action, ActionOf::QueryCost(ref u) if u == "user1:10.0.0.9:default"));
    let action = run.step(EventOf::CostReached(Some("0.020000".to_string())));
    let expected = "HTTP/1.1 429 Too Many Requests\r\nContent-Length: 37\r\n\r\nDaily limit exceeded. Used: $0.020000";
    assert!(matches!(action, ActionOf::Reply(ref r) if r == expected));
    assert_eq!(run.metrics.gateway_accepted, 1);
}

#[test]
fn path_without_a_route_is_refused() {
    let mut run = Run::new();
    let action = run.accepted("GET /nowhere HTTP/1.1\r\nX-API-Key: user1\r\n\r\n");
    assert!(matches!(action, ActionOf::SelectUpstream(ref p) if p == "/nowhere"));
    let action = run.step(EventOf::UpstreamSelected(None));
    assert!(matches!(action, ActionOf::Refuse(Refusal::NotFound)));
    assert!(Refusal::NotFound.response("id", 1).starts_with("HTTP/1.1 404 Not Found\r\n"));
}

#[test]
fn server_that_cannot_be_reached() {
    for (addr, mark) in [("127.0.0.1:9002", true), ("api.openai.com:443", false)] {
        let mut run = Run::new();
        run.accepted("GET /test/x HTTP/1.1\r\nX-API-Key: user1\r\n\r\n");
        run.step(EventOf::UpstreamSelected(Some(addr.to_string())));
        let action = run.step(EventOf::Connected(false));
        match action {
            ActionOf::Unreachable { path, addr: a, mark: m } => {
                assert_eq!(path, "/test/x");
                assert_eq!(a, addr);
                assert_eq!(m, mark);
            }
            _ => panic!("not given up"),
        }
        assert_eq!(run.metrics.upstream_failures, 1);
        assert_eq!(run.metrics.upstream_success, 0);
    }
    assert!(Refusal::BadGateway.response("id", 1).starts_with("HTTP/1.1 502 Bad Gateway\r\n"));
}

#[test]
fn users_of_requests() {
    let req = parse_request("GET / HTTP/1.1\r\nX-User-Id: user42\r\nX-App-Id: support\r\n\r\n");
    assert_eq!(identify_user(&req, "k", "1.2.3.4"), "user42:support");
    let req = parse_request("GET / HTTP/1.1\r\n\r\n");
    assert_eq!(identify_user(&req, "k", "1.2.3.4"), "k:1.2.3.4:default");
}

#[test]
fn cached_response_needs_no_server() {
    let mut run = Run::new();
    let action = run.accepted(&chat());
    assert!(matches!(action, ActionOf::QueryCache(ref k) if *k == prompt_key()));
    let action = run.step(EventOf::CacheAnswer(Some(b"cached".to_vec())));
    match action {
        ActionOf::ReplyCached { response, user_id, path, model } => {
            assert_eq!(response, b"cached".to_vec());
            assert_eq!(user_id, "user42:support");
            assert_eq!(path, "/v1/chat/completions");
            assert_eq!(model, "gpt-4o");
        }
        _ => panic!("no cached response"),
    }
}

#[test]
fn chat_request_is_forwarded_and_its_response_cached() {
    let mut run = Run::new();
    assert!(matches!(run.accepted(&chat()), ActionOf::QueryCache(_)));
    assert!(matches!(run.step(EventOf::CacheAnswer(None)), ActionOf::SelectUpstream(_)));
    let action = run.step(EventOf::UpstreamSelected(Some("api.openai.com:443".to_string())));
    assert!(
        matches!(action, ActionOf::Connect { ref addr, ref host, tls: true } if addr == "api.openai.com:443" && host == "api.openai.com")
    );
    match run.step(EventOf::Connected(true)) {
        ActionOf::Forward { head, body } => {
            assert_eq!(
                text(&head),
                format!(
                    "POST /v1/chat/completions HTTP/1.1\r\nHost: api.openai.com\r\nX-API-Key: user1\r\nX-User-Id: user42\r\nX-App-Id: support\r\nContent-Length: {}\r\n\r\n",
                    BODY.len()
                )
            );
            assert_eq!(text(&body), BODY);
        }
        _ => panic!("not forwarded"),
    }
    assert!(matches!(run.step(EventOf::Sent), ActionOf::ReadUpstream));
    assert!(matches!(run.upstream("HTTP/1.1 200 OK\r\nContent-Le"), ActionOf::ReadUpstream));
    let answer = "{\"model\": \"gpt-4o-2024\", \"usage\": {\"prompt_tokens\": 5, \"completion_tokens\": 6, \"total_tokens\": 11}}";
    let head = format!("ngth: {}\r\n\r\n", answer.len());
    assert!(matches!(run.upstream(&head), ActionOf::ReadUpstreamExact(n) if n == answer.len()));
    match run.upstream(answer) {
        ActionOf::Deliver { response, cache_key } => {
            assert_eq!(text(&response), format!("HTTP/1.1 200 OK\r\nContent-Le{}{}", head, answer));
            assert_eq!(cache_key, Some(prompt_key()));
        }
        _ => panic!("not delivered"),
    }
    match run.step(EventOf::Delivered) {
        ActionOf::Record { user_id, path, model, tokens, status } => {
            assert_eq!(user_id, "user42:support");
            assert_eq!(path, "/v1/chat/completions");
            assert_eq!(model, "gpt-4o-2024");
            assert_eq!(tokens.prompt_tokens, 5);
            assert_eq!(tokens.completion_tokens, 6);
            assert_eq!(tokens.total_tokens, 11);
            assert_eq!(status, 200);
        }
        _ => panic!("not recorded"),
    }
    assert_eq!(run.metrics.upstream_success, 1);
    assert_eq!(run.metrics.upstream_failures, 0);
    assert_eq!(run.metrics.requests_total, 1);
    assert_eq!(run.metrics.gateway_accepted, 1);
}

#[test]
fn the_same_prompt_is_asked_for_under_the_same_key() {
    let mut one = Run::new();
    let mut two = Run::new();
    let other = chat().replace("Hello, World.", "hello world  ").replace("user42", "user43");
    let first = one.accepted(&chat());
    let second = two.accepted(&other);
    match (first, second) {
        (ActionOf::QueryCache(a), ActionOf::QueryCache(b)) => assert_eq!(a, b),
        _ => panic!("the cache was not asked"),
    }
}

#[test]
fn rest_of_the_body_is_read_first() {
    let mut run = Run::new();
    let request = chat();
    let split = request.len() - 10;
    let action = run.accepted(&request[..split]);
    assert!(matches!(action, ActionOf::ReadBody(10)));
    let action = run.step(EventOf::BodyBytes(request[split..].as_bytes().to_vec()));
    assert!(matches!(action, ActionOf::QueryCache(ref k) if *k == prompt_key()));
    assert!(matches!(run.step(EventOf::CacheAnswer(None)), ActionOf::SelectUpstream(_)));
    match run.connect("api.openai.com:443") {
        ActionOf::Forward { body, .. } => assert_eq!(text(&body), BODY),
        _ => panic!("not forwarded"),
    }
}

#[test]
fn request_without_a_model_is_not_looked_up_nor_cached() {
    let mut run = Run::new();
    let action = run.accepted(
        "POST /v1/chat/completions HTTP/1.1\r\nX-API-Key: k\r\nContent-Length: 16\r\n\r\n{\"message\":\"hi\"}",
    );
    assert!(matches!(action, ActionOf::SelectUpstream(_)));
    run.connect("a:1");
    run.step(EventOf::Sent);
    let action = run.upstream("HTTP/1.1 200 OK\r\nContent-Length: 0\r\n\r\n");
    assert!(matches!(action, ActionOf::Deliver { cache_key: None, .. }));
}

#[test]
fn chunked_response() {
    let mut run = Run::new();
    run.accepted(&chat());
    run.step(EventOf::CacheAnswer(None));
    run.connect("a:1");
    run.step(EventOf::Sent);
    let action = run.upstream("HTTP/1.1 200 OK\r\nTransfer-Encoding: chunked\r\n\r\n2\r\n");
    assert!(matches!(action, ActionOf::ReadUpstream));
    assert!(matches!(run.upstream("{}\r\n"), ActionOf::ReadUpstream));
    match run.upstream("0\r\n\r\n") {
        ActionOf::Deliver { response, cache_key } => {
            assert!(text(&response).ends_with("\r\n\r\n2\r\n{}\r\n0\r\n\r\n"));
            assert_eq!(cache_key, Some(prompt_key()));
        }
        _ => panic!("not delivered"),
    }
}

#[test]
fn chunked_response_that_breaks_off() {
    let mut run = Run::new();
    run.accepted(&chat());
    run.step(EventOf::CacheAnswer(None));
    run.connect("a:1");
    run.step(EventOf::Sent);
    run.upstream("HTTP/1.1 200 OK\r\nTransfer-Encoding: chunked\r\n\r\n");
    assert!(matches!(run.step(EventOf::UpstreamClosed), ActionOf::Deliver { .. }));
}

#[test]
fn other_paths_are_passed_on_unread() {
    for (ok, status) in [(true, 200), (false, 0)] {
        let mut run = Run::new();
        let action = run.accepted("GET /test HTTP/1.1\r\nX-API-Key: k\r\n\r\n");
        assert!(matches!(action, ActionOf::SelectUpstream(_)));
        assert!(matches!(run.connect("127.0.0.1:9002"), ActionOf::Forward { .. }));
        assert!(matches!(run.step(EventOf::Sent), ActionOf::Pipe));
        match run.step(EventOf::Piped(ok)) {
            ActionOf::Record { model, status: s, tokens, .. } => {
                assert_eq!(model, "unknown");
                assert_eq!(s, status);
                assert_eq!(tokens.total_tokens, 0);
            }
            _ => panic!("not recorded"),
        }
        assert_eq!(run.metrics.upstream_success, if ok { 1 } else { 0 });
        assert_eq!(run.metrics.upstream_failures, if ok { 0 } else { 1 });
    }
}

#[test]
fn own_endpoints() {
    let mut run = Run::new();
    assert!(matches!(run.client("GET /stats HTTP/1.1\r\n\r\n"), ActionOf::RenderStats));
    let action = run.step(EventOf::StatsBody("{}".to_string()));
    let json = "HTTP/1.1 200 OK\r\nContent-Type: application/json\r\nContent-Length: 2\r\n\r\n{}";
    assert!(matches!(action, ActionOf::Reply(ref r) if r == json));

    let mut run = Run::new();
    let action = run.client("GET /metrics HTTP/1.1\r\n\r\n");
    assert!(matches!(action, ActionOf::Reply(ref r) if r.contains("\r\n\r\nrequests_total 1\nauth_failures 0\n")));

    let mut run = Run::new();
    match run.client("GET /stats-db?user=u HTTP/1.1\r\n\r\n") {
        ActionOf::QueryStats { query, user } => {
            assert!(query.contains("AND user_id = $1"));
            assert_eq!(user, Some("u".to_string()));
        }
        _ => panic!("not queried"),
    }
    let action = run.step(EventOf::StoredStatsBody(Ok("{}".to_string())));
    assert!(matches!(action, ActionOf::Reply(ref r) if r == json));

    let mut run = Run::new();
    run.client("GET /stats-db HTTP/1.1\r\n\r\n");
    let action = run.step(EventOf::StoredStatsBody(Err("db error".to_string())));
    let failed = "HTTP/1.1 500 Internal Server Error\r\nContent-Length: 25\r\n\r\nDB query failed: db error";
    assert!(matches!(action, ActionOf::Reply(ref r) if r == failed));

    let mut run = Run::new();
    let action = run.client("POST /stats HTTP/1.1\r\n\r\n");
    assert!(matches!(action, ActionOf::Refuse(Refusal::MissingKey)));
}

#[test]
fn request_in_parts() {
    let mut run = Run::new();
    assert!(matches!(run.client("GET /test HTTP/1.1\r\n"), ActionOf::ReadClient));
    assert_eq!(run.metrics.requests_total, 0);
    assert!(matches!(run.client("X-API-Key: k\r\n\r"), ActionOf::ReadClient));
    assert!(matches!(run.client("\n"), ActionOf::LookUpKey(_)));
    assert_eq!(run.metrics.requests_total, 1);
}

#[test]
fn request_that_is_not_text() {
    let mut run = Run::new();
    let action = run.step(EventOf::ClientBytes(b"GET /\xff HTTP/1.1\r\nX-API-Key: k\r\n\r\n".to_vec()));
    assert!(matches!(action, ActionOf::LookUpKey(_)));
    let action = run.step(EventOf::KeyKnown(true));
    assert!(matches!(action, ActionOf::TakeToken { ref path, .. } if path == "/\u{fffd}"));
}

#[test]
fn broken_off_requests_and_responses() {
    let mut run = Run::new();
    assert!(matches!(run.step(EventOf::ClientFailed), ActionOf::Close));
    assert_eq!(run.metrics.requests_total, 0);

    let mut run = Run::new();
    run.client("GET /test HTTP/1.1\r\nX-API-Key: k\r\n");
    assert!(matches!(run.step(EventOf::ClientClosed), ActionOf::LookUpKey(_)));
    run.step(EventOf::KeyKnown(true));
    run.step(EventOf::TokenTaken(true));
    assert!(matches!(run.step(EventOf::CostReached(None)), ActionOf::SelectUpstream(_)));
    assert!(matches!(run.connect("a:1"), ActionOf::Abort));

    let mut run = Run::new();
    run.accepted(&chat());
    run.step(EventOf::CacheAnswer(None));
    run.connect("a:1");
    run.step(EventOf::Sent);
    assert!(matches!(run.step(EventOf::UpstreamClosed), ActionOf::Abort));
}

/// A chat session that has sent its request.
fn sent() -> Run {
    let mut run = Run::new();
    run.accepted(&chat());
    run.step(EventOf::CacheAnswer(None));
    run.connect("a:1");
    run.step(EventOf::Sent);
    run
}

#[test]
fn response_without_a_document_is_delivered() {
    let mut run = sent();
    match run.upstream("HTTP/1.1 200 OK\r\nContent-Length: 5\r\n\r\n} x {") {
        ActionOf::Deliver { response, .. } => assert!(text(&response).ends_with("\r\n\r\n} x {")),
        _ => panic!("not delivered"),
    }
}

#[test]
fn response_without_a_length_is_read_to_its_end() {
    let mut run = sent();
    assert!(matches!(run.upstream("HTTP/1.1 200 OK\r\n\r\n{\"a\""), ActionOf::ReadUpstream));
    assert!(matches!(run.upstream(": 1}"), ActionOf::ReadUpstream));
    match run.step(EventOf::UpstreamClosed) {
        ActionOf::Deliver { response, cache_key } => {
            assert_eq!(text(&response), "HTTP/1.1 200 OK\r\n\r\n{\"a\": 1}");
            assert_eq!(cache_key, Some(prompt_key()));
        }
        _ => panic!("not delivered"),
    }
}

#[test]
fn response_without_a_body_is_not_waited_for() {
    for status in ["204 No Content", "304 Not Modified"] {
        let mut run = sent();
        let head = format!("HTTP/1.1 {}\r\nX: y\r\n\r\n", status);
        match run.upstream(&head) {
            ActionOf::Deliver { response, .. } => assert_eq!(text(&response), head),
            _ => panic!("not delivered"),
        }
    }
}

#[test]
fn phrase_in_another_field_announces_no_chunks() {
    let mut run = Run::new();
    let request = chat().replace("X-User-Id: user42", "X-User-Id: transfer-encoding: chunked");
    assert!(matches!(run.accepted(&request), ActionOf::QueryCache(ref k) if *k == prompt_key()));
}

#[test]
fn last_chunk_may_come_with_the_header() {
    let mut run = sent();
    let action = run.upstream(
        "HTTP/1.1 200 OK\r\nTransfer-Encoding: chunked\r\n\r\n2\r\n{}\r\n0\r\n\r\n",
    );
    assert!(matches!(action, ActionOf::Deliver { .. }));
}

#[test]
fn chunk_sizes_are_followed() {
    let mut run = sent();
    run.upstream("HTTP/1.1 200 OK\r\nTransfer-Encoding: chunked\r\n\r\n");
    assert!(matches!(run.upstream("10\r\n\r\n{\"model\": \"x\""), ActionOf::ReadUpstream));
    assert!(matches!(run.upstream("}\r\n0\r\n"), ActionOf::ReadUpstream));
    assert!(matches!(run.upstream("\r\n"), ActionOf::Deliver { .. }));
    assert_eq!(run.session.model, "x");
}

#[test]
fn usage_of_a_document_in_two_chunks() {
    let mut run = sent();
    run.upstream("HTTP/1.1 200 OK\r\nTransfer-Encoding: chunked\r\n\r\n");
    let (one, two) = "{\"usage\": {\"prompt_tokens\": 3, \"total_tokens\": 4}}".split_at(32);
    let first = format!("{:x}\r\n{}\r\n", one.len(), one);
    let second = format!("{:x}\r\n{}\r\n0\r\n\r\n", two.len(), two);
    assert!(matches!(run.upstream(&first), ActionOf::ReadUpstream));
    assert!(matches!(run.upstream(&second), ActionOf::Deliver { .. }));
    match run.step(EventOf::Delivered) {
        ActionOf::Record { tokens, .. } => {
            assert_eq!(tokens.prompt_tokens, 3);
            assert_eq!(tokens.total_tokens, 4);
        }
        _ => panic!("not recorded"),
    }
}

#[test]
fn framing_is_read_from_the_header_alone() {
    let mut run = sent();
    let body = "\r\nTransfer-Encoding: chunked\r\n";
    let head = format!("HTTP/1.1 200 OK\r\nContent-Length: {}\r\n\r\n", body.len());
    let action = run.upstream(&format!("{}{}", head, body));
    assert!(matches!(action, ActionOf::Deliver { .. }));
}

#[test]
fn rest_of_a_response_may_come_in_parts() {
    let mut run = sent();
    let action = run.upstream("HTTP/1.1 200 OK\r\nContent-Length: 6\r\n\r\nab");
    assert!(matches!(action, ActionOf::ReadUpstreamExact(4)));
    assert!(matches!(run.upstream("c"), ActionOf::ReadUpstreamExact(3)));
    assert!(matches!(run.upstream("def"), ActionOf::Deliver { .. }));
}

#[test]
fn chunked_request_is_read_to_its_last_chunk() {
    let mut run = Run::new();
    let head = "POST /v1/chat/completions HTTP/1.1\r\nX-API-Key: k\r\nTransfer-Encoding: chunked\r\n\r\n";
    let (one, two) = BODY.split_at(20);
    let first = format!("{:x}\r\n{}\r\n", one.len(), one);
    let second = format!("{:x}\r\n{}\r\n0\r\n\r\n", two.len(), two);
    let action = run.accepted(&format!("{}{}", head, first));
    assert!(matches!(action, ActionOf::ReadClient));
    let action = run.client(&second);
    assert!(matches!(action, ActionOf::QueryCache(ref k) if *k == prompt_key()));
    assert!(matches!(run.step(EventOf::CacheAnswer(None)), ActionOf::SelectUpstream(_)));
    match run.connect("a:1") {
        ActionOf::Forward { head: h, body } => {
            assert_eq!(text(&h), head);
            assert_eq!(text(&body), format!("{}{}", first, second));
        }
        _ => panic!("not forwarded"),
    }
}

#[test]
fn chunked_request_that_breaks_off() {
    let mut run = Run::new();
    let action = run.accepted(
        "POST /v1/chat/completions HTTP/1.1\r\nX-API-Key: k\r\nTransfer-Encoding: chunked\r\n\r\n5\r\n",
    );
    assert!(matches!(action, ActionOf::ReadClient));
    assert!(matches!(run.step(EventOf::ClientClosed), ActionOf::SelectUpstream(_)));
}

#[test]
fn events_out_of_turn_end_a_session() {
    let mut run = Run::new();
    assert!(matches!(run.step(EventOf::KeyKnown(true)), ActionOf::Abort));
    assert!(matches!(run.client("GET /test HTTP/1.1\r\n\r\n"), ActionOf::Abort));
    assert_eq!(run.metrics.requests_total, 0);
}
