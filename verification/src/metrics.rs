//! The counters of the gateway.
use vstd::prelude::*;

use crate::http::{ok_response, typed_response, Request};
use crate::number::{decimal, law_decimal, push_decimal};
use crate::text::{law_lines, lines, same_text};

verus! {

/// What the gateway has counted so far. A counter that passes its largest value starts again
/// at zero.
#[derive(Clone, Copy)]
pub struct Metrics {
    pub requests_total: usize,
    pub auth_failures: usize,
    pub auth_success: usize,
    pub rate_limited: usize,
    pub gateway_accepted: usize,
    pub upstream_success: usize,
    pub upstream_failures: usize,
}

/// What is counted.
#[derive(Clone, Copy)]
pub enum Counter {
    RequestsTotal,
    AuthFailures,
    AuthSuccess,
    RateLimited,
    GatewayAccepted,
    UpstreamSuccess,
    UpstreamFailures,
}

/// A counter after one more count.
pub open spec fn next_count(n: usize) -> usize {
    if n == usize::MAX {
        0
    } else {
        (n + 1) as usize
    }
}

impl Metrics {
    /// The counters after one more count of `c`.
    pub open spec fn counted(self, c: Counter) -> Metrics {
        match c {
            Counter::RequestsTotal => Metrics {
                requests_total: next_count(self.requests_total),
                ..self
            },
            Counter::AuthFailures => Metrics {
                auth_failures: next_count(self.auth_failures),
                ..self
            },
            Counter::AuthSuccess => Metrics { auth_success: next_count(self.auth_success), ..self },
            Counter::RateLimited => Metrics { rate_limited: next_count(self.rate_limited), ..self },
            Counter::GatewayAccepted => Metrics {
                gateway_accepted: next_count(self.gateway_accepted),
                ..self
            },
            Counter::UpstreamSuccess => Metrics {
                upstream_success: next_count(self.upstream_success),
                ..self
            },
            Counter::UpstreamFailures => Metrics {
                upstream_failures: next_count(self.upstream_failures),
                ..self
            },
        }
    }

    /// Counters that have counted nothing.
    pub fn new() -> (r: Metrics)
        ensures
            r == (Metrics {
                requests_total: 0,
                auth_failures: 0,
                auth_success: 0,
                rate_limited: 0,
                gateway_accepted: 0,
                upstream_success: 0,
                upstream_failures: 0,
            }),
    {
        Metrics {
            requests_total: 0,
            auth_failures: 0,
            auth_success: 0,
            rate_limited: 0,
            gateway_accepted: 0,
            upstream_success: 0,
            upstream_failures: 0,
        }
    }

    /// Counts one more of `c`.
    pub fn count(&mut self, c: Counter)
        ensures
            *final(self) == old(self).counted(c),
    {
        match c {
            Counter::RequestsTotal => {
                self.requests_total = self.requests_total.wrapping_add(1);
            },
            Counter::AuthFailures => {
                self.auth_failures = self.auth_failures.wrapping_add(1);
            },
            Counter::AuthSuccess => {
                self.auth_success = self.auth_success.wrapping_add(1);
            },
            Counter::RateLimited => {
                self.rate_limited = self.rate_limited.wrapping_add(1);
            },
            Counter::GatewayAccepted => {
                self.gateway_accepted = self.gateway_accepted.wrapping_add(1);
            },
            Counter::UpstreamSuccess => {
                self.upstream_success = self.upstream_success.wrapping_add(1);
            },
            Counter::UpstreamFailures => {
                self.upstream_failures = self.upstream_failures.wrapping_add(1);
            },
        }
    }
}

/// One line for each counter: its name and its value.
pub open spec fn counters_text(m: Metrics) -> Seq<char> {
    "requests_total "@ + decimal(m.requests_total as nat) + "\nauth_failures "@ + decimal(
        m.auth_failures as nat,
    ) + "\nauth_success "@ + decimal(m.auth_success as nat) + "\nrate_limited "@ + decimal(
        m.rate_limited as nat,
    ) + "\ngateway_accepted "@ + decimal(m.gateway_accepted as nat) + "\nupstream_success "@
        + decimal(m.upstream_success as nat) + "\nupstream_failures "@ + decimal(
        m.upstream_failures as nat,
    ) + "\n"@
}

/// Writes the counters, one to a line.
pub fn metrics_text(m: &Metrics) -> (r: String)
    ensures
        r@ == counters_text(*m),
{
    let mut out = String::from_str("requests_total ");
    push_decimal(&mut out, m.requests_total as u128);
    out.append("\nauth_failures ");
    push_decimal(&mut out, m.auth_failures as u128);
    out.append("\nauth_success ");
    push_decimal(&mut out, m.auth_success as u128);
    out.append("\nrate_limited ");
    push_decimal(&mut out, m.rate_limited as u128);
    out.append("\ngateway_accepted ");
    push_decimal(&mut out, m.gateway_accepted as u128);
    out.append("\nupstream_success ");
    push_decimal(&mut out, m.upstream_success as u128);
    out.append("\nupstream_failures ");
    push_decimal(&mut out, m.upstream_failures as u128);
    out.append("\n");
    out
}

/// The response to a request for the counters; none to a request for another path.
pub fn handle_metrics(req: &Request, m: &Metrics) -> (r: Option<String>)
    ensures
        r is Some <==> req@.path == "/metrics"@,
        r is Some ==> r->0@ == typed_response("text/plain"@, counters_text(*m)),
{
    if same_text(req.path.as_str(), "/metrics") {
        let body = metrics_text(m);
        Some(ok_response("text/plain", body.as_str()))
    } else {
        None
    }
}

/// Counting adds one to the counter that is meant, and nothing to any other.
pub proof fn law_one_counter_grows(m: Metrics)
    requires
        m.requests_total < usize::MAX,
        m.auth_failures < usize::MAX,
        m.auth_success < usize::MAX,
        m.rate_limited < usize::MAX,
        m.gateway_accepted < usize::MAX,
        m.upstream_success < usize::MAX,
        m.upstream_failures < usize::MAX,
    ensures
        m.counted(Counter::RequestsTotal) == (Metrics {
            requests_total: (m.requests_total + 1) as usize,
            ..m
        }),
        m.counted(Counter::AuthFailures) == (Metrics {
            auth_failures: (m.auth_failures + 1) as usize,
            ..m
        }),
        m.counted(Counter::AuthSuccess) == (Metrics {
            auth_success: (m.auth_success + 1) as usize,
            ..m
        }),
        m.counted(Counter::RateLimited) == (Metrics {
            rate_limited: (m.rate_limited + 1) as usize,
            ..m
        }),
        m.counted(Counter::GatewayAccepted) == (Metrics {
            gateway_accepted: (m.gateway_accepted + 1) as usize,
            ..m
        }),
        m.counted(Counter::UpstreamSuccess) == (Metrics {
            upstream_success: (m.upstream_success + 1) as usize,
            ..m
        }),
        m.counted(Counter::UpstreamFailures) == (Metrics {
            upstream_failures: (m.upstream_failures + 1) as usize,
            ..m
        }),
{
}

proof fn lemma_counter_line(name: Seq<char>, n: nat, rest: Seq<char>)
    requires
        !name.contains('\n'),
    ensures
        lines(name + decimal(n) + (seq!['\n'] + rest)) == seq![name + decimal(n)] + lines(rest),
{
    law_decimal(n);
    let line = name + decimal(n);
    assert(!line.contains('\n')) by {
        assert forall|i: int| 0 <= i < line.len() implies line[i] != '\n' by {
            if i < name.len() {
                assert(name.contains(name[i]));
            } else {
                assert('0' <= decimal(n)[i - name.len()] <= '9');
            }
        }
    }
    assert(line.last() == decimal(n).last());
    law_lines(line, rest);
    assert(line + seq!['\n'] + rest =~= name + decimal(n) + (seq!['\n'] + rest));
}

/// The counters are listed one to a line, each with its name and its value in decimal.
pub proof fn law_counters_are_listed(m: Metrics)
    ensures
        lines(counters_text(m)) == seq![
            "requests_total "@ + decimal(m.requests_total as nat),
            "auth_failures "@ + decimal(m.auth_failures as nat),
            "auth_success "@ + decimal(m.auth_success as nat),
            "rate_limited "@ + decimal(m.rate_limited as nat),
            "gateway_accepted "@ + decimal(m.gateway_accepted as nat),
            "upstream_success "@ + decimal(m.upstream_success as nat),
            "upstream_failures "@ + decimal(m.upstream_failures as nat),
        ],
{
    reveal_strlit("requests_total ");
    reveal_strlit("auth_failures ");
    reveal_strlit("auth_success ");
    reveal_strlit("rate_limited ");
    reveal_strlit("gateway_accepted ");
    reveal_strlit("upstream_success ");
    reveal_strlit("upstream_failures ");
    reveal_strlit("\nauth_failures ");
    reveal_strlit("\nauth_success ");
    reveal_strlit("\nrate_limited ");
    reveal_strlit("\ngateway_accepted ");
    reveal_strlit("\nupstream_success ");
    reveal_strlit("\nupstream_failures ");
    reveal_strlit("\n");
    let feed = seq!['\n'];
    assert("\nauth_failures "@ =~= feed + "auth_failures "@);
    assert("\nauth_success "@ =~= feed + "auth_success "@);
    assert("\nrate_limited "@ =~= feed + "rate_limited "@);
    assert("\ngateway_accepted "@ =~= feed + "gateway_accepted "@);
    assert("\nupstream_success "@ =~= feed + "upstream_success "@);
    assert("\nupstream_failures "@ =~= feed + "upstream_failures "@);
    assert("\n"@ =~= feed + Seq::empty());
    let none = Seq::<char>::empty();
    let r7 = "upstream_failures "@ + decimal(m.upstream_failures as nat) + (feed + none);
    let r6 = "upstream_success "@ + decimal(m.upstream_success as nat) + (feed + r7);
    let r5 = "gateway_accepted "@ + decimal(m.gateway_accepted as nat) + (feed + r6);
    let r4 = "rate_limited "@ + decimal(m.rate_limited as nat) + (feed + r5);
    let r3 = "auth_success "@ + decimal(m.auth_success as nat) + (feed + r4);
    let r2 = "auth_failures "@ + decimal(m.auth_failures as nat) + (feed + r3);
    let r1 = "requests_total "@ + decimal(m.requests_total as nat) + (feed + r2);
    assert(counters_text(m) =~= r1);
    lemma_counter_line("requests_total "@, m.requests_total as nat, r2);
    lemma_counter_line("auth_failures "@, m.auth_failures as nat, r3);
    lemma_counter_line("auth_success "@, m.auth_success as nat, r4);
    lemma_counter_line("rate_limited "@, m.rate_limited as nat, r5);
    lemma_counter_line("gateway_accepted "@, m.gateway_accepted as nat, r6);
    lemma_counter_line("upstream_success "@, m.upstream_success as nat, r7);
    lemma_counter_line("upstream_failures "@, m.upstream_failures as nat, none);
    law_lines(none, none);
    assert(lines(counters_text(m)) =~= seq![
        "requests_total "@ + decimal(m.requests_total as nat),
        "auth_failures "@ + decimal(m.auth_failures as nat),
        "auth_success "@ + decimal(m.auth_success as nat),
        "rate_limited "@ + decimal(m.rate_limited as nat),
        "gateway_accepted "@ + decimal(m.gateway_accepted as nat),
        "upstream_success "@ + decimal(m.upstream_success as nat),
        "upstream_failures "@ + decimal(m.upstream_failures as nat),
    ]);
}

/// A counter at its largest value starts again at zero, and no other counter changes.
pub proof fn law_counters_start_again(m: Metrics)
    ensures
        m.requests_total == usize::MAX ==> m.counted(Counter::RequestsTotal) == (Metrics {
            requests_total: 0,
            ..m
        }),
        m.auth_failures == usize::MAX ==> m.counted(Counter::AuthFailures) == (Metrics {
            auth_failures: 0,
            ..m
        }),
        m.auth_success == usize::MAX ==> m.counted(Counter::AuthSuccess) == (Metrics {
            auth_success: 0,
            ..m
        }),
        m.rate_limited == usize::MAX ==> m.counted(Counter::RateLimited) == (Metrics {
            rate_limited: 0,
            ..m
        }),
        m.gateway_accepted == usize::MAX ==> m.counted(Counter::GatewayAccepted) == (Metrics {
            gateway_accepted: 0,
            ..m
        }),
        m.upstream_success == usize::MAX ==> m.counted(Counter::UpstreamSuccess) == (Metrics {
            upstream_success: 0,
            ..m
        }),
        m.upstream_failures == usize::MAX ==> m.counted(Counter::UpstreamFailures) == (Metrics {
            upstream_failures: 0,
            ..m
        }),
{
}

} // verus!
