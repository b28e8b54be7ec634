use ai_gateway::balance::{
    route_serves, upstream_host, upstream_is_tls, Balancers, Fit, LoadBalancer, Probe,
};
use ai_gateway::buckets::BucketTable;
use ai_gateway::http::parse_request;
use ai_gateway::metrics::{handle_metrics, metrics_text, Counter, Metrics};
use ai_gateway::retry::{Retry, RetryStep};
use ai_gateway::stats::{build_query, parse_filter, Range};
use ai_gateway::usage::{
    status_is_error, stored_count, stored_latency, Sample, TokenUsage, UsageTable,
};

fn addresses(list: &[&str]) -> LoadBalancer {
    LoadBalancer::new(list.iter().map(|a| a.to_string()).collect())
}

fn next(lb: &mut LoadBalancer) -> String {
    lb.next().unwrap_or("none".to_string())
}

#[test]
fn servers_take_turns() {
    let mut lb = addresses(&["a", "b", "c"]);
    let order: Vec<String> = (0..5).map(|_| next(&mut lb)).collect();
    assert_eq!(order, ["a", "b", "c", "a", "b"]);
    lb.mark_unhealthy("a");
    let order: Vec<String> = (0..4).map(|_| next(&mut lb)).collect();
    assert_eq!(order, ["c", "b", "c", "b"]);
    lb.mark_unhealthy("b");
    lb.mark_unhealthy("c");
    assert_eq!(lb.next(), None);
    lb.set_health("b", true);
    assert_eq!(next(&mut lb), "b");
    assert_eq!(next(&mut lb), "b");
    assert_eq!(addresses(&[]).next(), None);
}

fn routes() -> Balancers {
    let mut map = Balancers::new();
    map.insert("/test".to_string(), addresses(&["127.0.0.1:9002", "127.0.0.1:9003"]));
    map.insert("/v1".to_string(), addresses(&["api.openai.com:443"]));
    map
}

#[test]
fn routes_by_path() {
    let mut map = routes();
    assert_eq!(map.select("/v1/models"), Some("api.openai.com:443".to_string()));
    assert_eq!(map.select("/v1"), Some("api.openai.com:443".to_string()));
    assert_eq!(map.select("/v1x"), None);
    assert_eq!(map.select("/"), None);
    assert_eq!(map.select("/test"), Some("127.0.0.1:9002".to_string()));
    assert_eq!(map.select("/test/a"), Some("127.0.0.1:9003".to_string()));
    map.mark_unhealthy("/test/a", "127.0.0.1:9002");
    assert_eq!(map.select("/test"), Some("127.0.0.1:9003".to_string()));
    map.update_health("/test", "127.0.0.1:9003", false);
    assert_eq!(map.select("/test"), None);
    map.update_health("/v1", "127.0.0.1:9002", true);
    assert_eq!(map.select("/test"), None);
    map.update_health("/test", "127.0.0.1:9002", true);
    assert_eq!(map.select("/test"), Some("127.0.0.1:9002".to_string()));
    map.insert("/v1".to_string(), addresses(&["x:1"]));
    assert_eq!(map.select("/v1/a"), Some("x:1".to_string()));
    assert!(route_serves("/v1", "/v1/a"));
    assert!(!route_serves("/v1", "/v12"));
    assert!(!Fit::Named.test("/v1", "/v1/"));
    assert!(Fit::Serves.test("/v1", "/v1/"));
}

#[test]
fn servers_to_check() {
    let pairs = routes().targets();
    assert_eq!(
        pairs,
        [
            ("/test".to_string(), "127.0.0.1:9002".to_string()),
            ("/test".to_string(), "127.0.0.1:9003".to_string()),
            ("/v1".to_string(), "api.openai.com:443".to_string()),
        ]
    );
    assert!(Probe::Connected.healthy());
    assert!(!Probe::Refused.healthy());
    assert!(!Probe::TimedOut.healthy());
}

#[test]
fn addresses_of_servers() {
    assert!(upstream_is_tls("api.openai.com:443"));
    assert!(!upstream_is_tls("127.0.0.1:9443"));
    assert_eq!(upstream_host("api.openai.com:443"), "api.openai.com");
    assert_eq!(upstream_host("host"), "host");
    assert_eq!(upstream_host(":1:2"), "");
}

#[test]
fn two_attempts_to_connect() {
    let mut retry = Retry::new();
    assert!(matches!(retry.after(true), RetryStep::Connected { retried: false }));
    let mut retry = Retry::new();
    assert!(matches!(retry.after(false), RetryStep::Again));
    assert!(matches!(retry.after(true), RetryStep::Connected { retried: true }));
    let mut retry = Retry::new();
    assert!(matches!(retry.after(false), RetryStep::Again));
    assert!(matches!(retry.after(false), RetryStep::GiveUp));
}

#[test]
fn a_refused_server_stays_out_of_turn() {
    let mut map = routes();
    map.mark_unhealthy("/test", "127.0.0.1:9002");
    for (route, addr) in map.targets() {
        let probe = if addr == "127.0.0.1:9002" { Probe::Refused } else { Probe::Connected };
        map.update_health(&route, &addr, probe.healthy());
    }
    assert_eq!(map.select("/test"), Some("127.0.0.1:9003".to_string()));
    assert_eq!(map.select("/test"), Some("127.0.0.1:9003".to_string()));
}

#[test]
fn the_route_that_serves_a_path_is_marked() {
    let mut map = Balancers::new();
    map.insert("/v1".to_string(), addresses(&["a:1"]));
    map.insert("/v1beta".to_string(), addresses(&["a:1"]));
    map.mark_unhealthy("/v1beta/x", "a:1");
    assert_eq!(map.select("/v1beta/x"), None);
    assert_eq!(map.select("/v1/x"), Some("a:1".to_string()));
}

#[test]
fn one_bucket_for_a_key_and_route() {
    let mut table: BucketTable<i32> = BucketTable::new();
    *table.bucket("user1", "/test", 5) -= 1;
    *table.bucket("user1", "/v1", 7) -= 1;
    *table.bucket("user2", "/test", 9) -= 2;
    *table.bucket("user1", "/test", 100) -= 1;
    assert_eq!(*table.bucket("user1", "/test", 0), 3);
    assert_eq!(*table.bucket("user1", "/v1", 0), 6);
    assert_eq!(*table.bucket("user2", "/test", 0), 7);
    assert_eq!(table.len(), 3);
}

#[test]
fn counters() {
    let mut m = Metrics::new();
    m.count(Counter::RequestsTotal);
    m.count(Counter::RequestsTotal);
    m.count(Counter::AuthFailures);
    m.count(Counter::UpstreamSuccess);
    assert_eq!(
        metrics_text(&m),
        "requests_total 2\nauth_failures 1\nauth_success 0\nrate_limited 0\ngateway_accepted 0\nupstream_success 1\nupstream_failures 0\n"
    );
    m.requests_total = usize::MAX;
    m.count(Counter::RequestsTotal);
    assert_eq!(m.requests_total, 0);
    let text = metrics_text(&m);
    assert_eq!(
        handle_metrics(&parse_request("GET /metrics HTTP/1.1\r\n\r\n"), &m),
        Some(format!(
            "HTTP/1.1 200 OK\r\nContent-Type: text/plain\r\nContent-Length: {}\r\n\r\n{}",
            text.len(),
            text
        ))
    );
    assert_eq!(handle_metrics(&parse_request("GET /metrics/ HTTP/1.1\r\n\r\n"), &m), None);
}

#[test]
fn filters_of_the_stored_usage() {
    let f = parse_filter("/stats-db");
    assert_eq!(f.user, None);
    assert!(f.range == Range::Day);
    let f = parse_filter("/stats-db?user=user1:127.0.0.1&range=7d");
    assert_eq!(f.user, Some("user1:127.0.0.1".to_string()));
    assert!(f.range == Range::Week);
    assert!(parse_filter("/stats-db?range=all").range == Range::All);
    assert!(parse_filter("/stats-db?range=all&range=24h").range == Range::Day);
    assert!(parse_filter("/stats-db?range=all&range=1y").range == Range::All);
    assert_eq!(parse_filter("/stats-db?user").user, Some("".to_string()));
    assert_eq!(parse_filter("/stats-db?user=a=b").user, Some("a".to_string()));
    assert_eq!(parse_filter("/stats-db?User=a").user, None);
    assert_eq!(parse_filter("/stats-db?x=1?user=a&user=b").user, Some("b".to_string()));
}

#[test]
fn queries_of_the_stored_usage() {
    let tail = |path: &str| {
        let query = build_query(&parse_filter(path));
        let at = query.find("FROM usage_logs").unwrap();
        query[at..].to_string()
    };
    assert_eq!(
        tail("/stats-db"),
        "FROM usage_logs WHERE created_at > NOW() - INTERVAL '1 day' GROUP BY user_id, route, model"
    );
    assert_eq!(
        tail("/stats-db?range=7d&user=x"),
        "FROM usage_logs WHERE created_at > NOW() - INTERVAL '7 days' AND user_id = $1 GROUP BY user_id, route, model"
    );
    assert_eq!(tail("/stats-db?range=all"), "FROM usage_logs GROUP BY user_id, route, model");
    assert_eq!(
        tail("/stats-db?range=all&user=x"),
        "FROM usage_logs WHERE user_id = $1 GROUP BY user_id, route, model"
    );
    assert_eq!(tail("/stats-db?user=x"), tail("/stats-db?user=y'%20OR%201"));
    assert!(build_query(&parse_filter("/stats-db")).starts_with("SELECT \n                user_id,\n"));
}

fn sample(latency_ms: u128, status: u16, n: u64) -> Sample {
    Sample {
        latency_ms,
        status,
        tokens: TokenUsage { prompt_tokens: n, completion_tokens: 2 * n, total_tokens: 3 * n },
    }
}

#[test]
fn usage_is_recorded_once_and_in_one_place() {
    let mut table = UsageTable::new();
    assert_eq!(table.route_requests("u", "/v1"), Some(0));
    assert!(table.can_record("u", "/v1", "m", &sample(5, 200, 10)));
    assert_eq!(table.record("u", "/v1", "m", &sample(5, 200, 10)), 0);
    assert_eq!(table.record("u", "/v1", "n", &sample(1, 500, 0)), 1);
    assert_eq!(table.record("u", "/v1", "m", &sample(8, 404, 1)), 0);
    assert_eq!(table.record("v", "/v1", "m", &sample(1, 0, 0)), 2);
    assert_eq!(table.len(), 3);
    let e = table.entry(0);
    assert_eq!((e.user.as_str(), e.route.as_str(), e.model.as_str()), ("u", "/v1", "m"));
    assert_eq!(e.stats.requests, 2);
    assert_eq!(e.stats.errors, 1);
    assert_eq!(e.stats.total_latency, 13);
    assert_eq!(e.stats.avg_latency(), 6);
    assert_eq!(e.stats.prompt_tokens, 11);
    assert_eq!(e.stats.completion_tokens, 22);
    assert_eq!(e.stats.total_tokens, 33);
    assert_eq!(table.entry(2).stats.errors, 0);
    assert_eq!(table.route_requests("u", "/v1"), Some(3));
    assert_eq!(table.route_requests("u", "/v2"), Some(0));
    assert_eq!(table.find_line("v", "/v1", "m"), Some(2));
    assert_eq!(table.find_line("v", "/v1", "n"), None);
}

#[test]
fn cache_hits_use_nothing() {
    let mut hits = UsageTable::new();
    hits.record("u", "/v1", "m", &Sample::cache_hit());
    hits.record("u", "/v1", "m", &Sample::cache_hit());
    let stats = &hits.entry(0).stats;
    assert_eq!(stats.requests, 2);
    assert_eq!(stats.errors, 0);
    assert_eq!(stats.total_latency, 0);
    assert_eq!(stats.total_tokens, 0);
}

#[test]
fn usage_out_of_range_cannot_be_recorded() {
    let mut table = UsageTable::new();
    let big = Sample {
        latency_ms: 1,
        status: 200,
        tokens: TokenUsage { prompt_tokens: u64::MAX, completion_tokens: 0, total_tokens: 0 },
    };
    table.record("u", "/v1", "m", &big);
    assert!(!table.can_record("u", "/v1", "m", &sample(1, 200, 1)));
    assert!(table.can_record("u", "/v1", "m", &sample(1, 200, 0)));
    assert!(table.can_record("u", "/v1", "other", &sample(1, 200, 1)));
}

#[test]
fn numbers_as_the_database_holds_them() {
    assert!(status_is_error(400));
    assert!(!status_is_error(399));
    assert!(!status_is_error(0));
    for n in [0u64, 1, i64::MAX as u64, i64::MAX as u64 + 1, u64::MAX] {
        assert_eq!(stored_count(n), n as i64);
    }
    for n in [0u128, u64::MAX as u128, 1 << 64, u128::MAX, (1 << 64) + (1 << 63)] {
        assert_eq!(stored_latency(n), n as i64);
    }
}
