//! Usage by user, route and model.
use vstd::prelude::*;

use crate::text::same_text;

verus! {

/// The tokens that one response reports.
#[derive(Clone, Copy)]
pub struct TokenUsage {
    pub prompt_tokens: u64,
    pub completion_tokens: u64,
    pub total_tokens: u64,
}

/// What a user has used of one model on one route.
#[derive(Clone, Copy)]
pub struct UserStats {
    pub requests: u64,
    pub total_latency: u128,
    pub errors: u64,
    pub prompt_tokens: u64,
    pub completion_tokens: u64,
    pub total_tokens: u64,
}

/// What one request adds to the statistics.
#[derive(Clone, Copy)]
pub struct Sample {
    pub latency_ms: u128,
    pub status: u16,
    pub tokens: TokenUsage,
}

impl Sample {
    /// What a request adds that the cache answered: no latency, no error and no tokens. Cache hits
    /// are recorded in a table of their own, apart from what went upstream.
    pub open spec fn hit() -> Sample {
        Sample {
            latency_ms: 0,
            status: 200,
            tokens: TokenUsage { prompt_tokens: 0, completion_tokens: 0, total_tokens: 0 },
        }
    }

    /// What a request adds that the cache answered.
    pub fn cache_hit() -> (r: Sample)
        ensures
            r == Sample::hit(),
    {
        Sample {
            latency_ms: 0,
            status: 200,
            tokens: TokenUsage { prompt_tokens: 0, completion_tokens: 0, total_tokens: 0 },
        }
    }
}

/// The response status tells of an error.
pub open spec fn is_error(status: u16) -> bool {
    status >= 400
}

/// Tells whether the response status tells of an error.
pub fn status_is_error(status: u16) -> (r: bool)
    ensures
        r == is_error(status),
{
    status >= 400
}

impl UserStats {
    /// Statistics before the first request.
    pub open spec fn zero() -> UserStats {
        UserStats {
            requests: 0,
            total_latency: 0,
            errors: 0,
            prompt_tokens: 0,
            completion_tokens: 0,
            total_tokens: 0,
        }
    }

    /// All totals stay in range when `s` is added.
    pub open spec fn has_room(self, s: Sample) -> bool {
        &&& self.requests + 1 <= u64::MAX
        &&& self.total_latency + s.latency_ms <= u128::MAX
        &&& is_error(s.status) ==> self.errors + 1 <= u64::MAX
        &&& self.prompt_tokens + s.tokens.prompt_tokens <= u64::MAX
        &&& self.completion_tokens + s.tokens.completion_tokens <= u64::MAX
        &&& self.total_tokens + s.tokens.total_tokens <= u64::MAX
    }

    /// The statistics after one more request.
    pub open spec fn plus(self, s: Sample) -> UserStats {
        UserStats {
            requests: (self.requests + 1) as u64,
            total_latency: (self.total_latency + s.latency_ms) as u128,
            errors: if is_error(s.status) {
                (self.errors + 1) as u64
            } else {
                self.errors
            },
            prompt_tokens: (self.prompt_tokens + s.tokens.prompt_tokens) as u64,
            completion_tokens: (self.completion_tokens + s.tokens.completion_tokens) as u64,
            total_tokens: (self.total_tokens + s.tokens.total_tokens) as u64,
        }
    }

    /// The mean latency, rounded down; zero before the first request.
    pub open spec fn mean_latency(self) -> nat {
        if self.requests > 0 {
            self.total_latency as nat / self.requests as nat
        } else {
            0
        }
    }

    /// Tells whether all totals stay in range when `s` is added.
    pub fn room_for(&self, s: &Sample) -> (r: bool)
        ensures
            r == self.has_room(*s),
    {
        self.requests < u64::MAX
            && self.total_latency <= u128::MAX - s.latency_ms
            && (!status_is_error(s.status) || self.errors < u64::MAX)
            && self.prompt_tokens <= u64::MAX - s.tokens.prompt_tokens
            && self.completion_tokens <= u64::MAX - s.tokens.completion_tokens
            && self.total_tokens <= u64::MAX - s.tokens.total_tokens
    }

    /// The statistics after one more request.
    pub fn add_sample(&self, s: &Sample) -> (r: UserStats)
        requires
            self.has_room(*s),
        ensures
            r == self.plus(*s),
    {
        UserStats {
            requests: self.requests + 1,
            total_latency: self.total_latency + s.latency_ms,
            errors: if status_is_error(s.status) {
                self.errors + 1
            } else {
                self.errors
            },
            prompt_tokens: self.prompt_tokens + s.tokens.prompt_tokens,
            completion_tokens: self.completion_tokens + s.tokens.completion_tokens,
            total_tokens: self.total_tokens + s.tokens.total_tokens,
        }
    }

    /// The mean latency in milliseconds.
    pub fn avg_latency(&self) -> (r: u128)
        ensures
            r == self.mean_latency(),
    {
        if self.requests > 0 {
            self.total_latency / (self.requests as u128)
        } else {
            0
        }
    }
}

/// Whose usage, of which route and which model.
pub type UsageKey = (Seq<char>, Seq<char>, Seq<char>);

/// One line of the usage table.
pub struct UsageEntry {
    pub user: String,
    pub route: String,
    pub model: String,
    pub stats: UserStats,
}

impl UsageEntry {
    /// What the line is about.
    pub open spec fn key(self) -> UsageKey {
        (self.user@, self.route@, self.model@)
    }
}

/// The usage of all users. Each user, route and model has one line, which keeps its place.
pub struct UsageTable {
    entries: Vec<UsageEntry>,
}

/// No two lines are about the same user, route and model.
pub open spec fn distinct(entries: Seq<UsageEntry>) -> bool {
    forall|i: int, j: int|
        0 <= i < j < entries.len() ==> (#[trigger] entries[i]).key() != (
        #[trigger] entries[j]).key()
}

/// The line about `key`, if there is one.
pub open spec fn line_of(entries: Seq<UsageEntry>, key: UsageKey) -> Option<int> {
    if exists|i: int| 0 <= i < entries.len() && (#[trigger] entries[i]).key() == key {
        Some(choose|i: int| 0 <= i < entries.len() && (#[trigger] entries[i]).key() == key)
    } else {
        None
    }
}

/// The requests of a user on a route, over all models.
pub open spec fn route_total(
    entries: Seq<UsageEntry>,
    user: Seq<char>,
    route: Seq<char>,
) -> nat
    decreases entries.len(),
{
    if entries.len() == 0 {
        0
    } else {
        let earlier = route_total(entries.drop_last(), user, route);
        if entries.last().user@ == user && entries.last().route@ == route {
            earlier + entries.last().stats.requests as nat
        } else {
            earlier
        }
    }
}

/// The statistics that some lines hold about `key`: zero where there is no line about it.
pub open spec fn stats_in(entries: Seq<UsageEntry>, key: UsageKey) -> UserStats {
    match line_of(entries, key) {
        Some(i) => entries[i].stats,
        None => UserStats::zero(),
    }
}

/// The lines `after` are the lines `before` with one request added to the line about `key`,
/// which stands at `place`: the line that was there, or a new one behind all others.
pub open spec fn recorded(
    before: Seq<UsageEntry>,
    after: Seq<UsageEntry>,
    key: UsageKey,
    sample: Sample,
    place: int,
) -> bool {
    let line = after[place];
    &&& line.key() == key
    &&& line.stats == stats_in(before, key).plus(sample)
    &&& match line_of(before, key) {
        Some(i) => place == i && after == before.update(i, line),
        None => place == before.len() && after == before.push(line),
    }
}

impl UsageTable {
    /// The lines of the table.
    pub closed spec fn lines(self) -> Seq<UsageEntry> {
        self.entries@
    }

    /// No two lines are about the same user, route and model.
    pub open spec fn wf(self) -> bool {
        distinct(self.lines())
    }

    /// The statistics about `key`: zero where nothing was recorded.
    pub open spec fn stats_of(self, key: UsageKey) -> UserStats {
        stats_in(self.lines(), key)
    }

    /// A table without lines.
    pub fn new() -> (r: UsageTable)
        ensures
            r.wf(),
            r.lines() == Seq::<UsageEntry>::empty(),
    {
        UsageTable { entries: Vec::new() }
    }

    /// The number of lines.
    pub fn len(&self) -> (r: usize)
        ensures
            r == self.lines().len(),
    {
        self.entries.len()
    }

    /// A line of the table.
    pub fn entry(&self, i: usize) -> (r: &UsageEntry)
        requires
            i < self.lines().len(),
        ensures
            *r == self.lines()[i as int],
    {
        &self.entries[i]
    }

    /// The place of the line about a user, route and model.
    pub fn find_line(&self, user: &str, route: &str, model: &str) -> (r: Option<usize>)
        requires
            self.wf(),
        ensures
            match r {
                Some(i) => line_of(self.lines(), (user@, route@, model@)) == Some(i as int) && i
                    < self.lines().len() && self.lines()[i as int].key() == (
                    user@,
                    route@,
                    model@,
                ),
                None => line_of(self.lines(), (user@, route@, model@)) is None,
            },
    {
        let n: usize = self.entries.len();
        let ghost key = (user@, route@, model@);
        for i in 0..n
            invariant
                n == self.lines().len(),
                self.wf(),
                self.lines() == self.entries@,
                key == (user@, route@, model@),
                forall|k: int| 0 <= k < i ==> (#[trigger] self.lines()[k]).key() != key,
        {
            let e = &self.entries[i];
            if same_text(e.user.as_str(), user) && same_text(e.route.as_str(), route) && same_text(
                e.model.as_str(),
                model,
            ) {
                proof {
                    assert(self.lines()[i as int].key() == key);
                    let c = choose|c: int|
                        0 <= c < self.lines().len() && (#[trigger] self.lines()[c]).key() == key;
                    if c < i {
                        assert(self.lines()[c].key() != self.lines()[i as int].key());
                    }
                    if i < c {
                        assert(self.lines()[i as int].key() != self.lines()[c].key());
                    }
                }
                return Some(i);
            }
        }
        None
    }

    /// Tells whether a request can be recorded with all totals in range.
    pub fn can_record(&self, user: &str, route: &str, model: &str, sample: &Sample) -> (r: bool)
        requires
            self.wf(),
        ensures
            r == self.stats_of((user@, route@, model@)).has_room(*sample),
    {
        match self.find_line(user, route, model) {
            Some(i) => self.entries[i].stats.room_for(sample),
            None => true,
        }
    }

    /// Records a request, and gives the place of the line that it was added to.
    pub fn record(&mut self, user: &str, route: &str, model: &str, sample: &Sample) -> (r: usize)
        requires
            old(self).wf(),
            old(self).stats_of((user@, route@, model@)).has_room(*sample),
        ensures
            final(self).wf(),
            recorded(
                old(self).lines(),
                final(self).lines(),
                (user@, route@, model@),
                *sample,
                r as int,
            ),
    {
        let ghost key = (user@, route@, model@);
        let ghost before = self.entries@;
        match self.find_line(user, route, model) {
            Some(i) => {
                let stats = self.entries[i].stats.add_sample(sample);
                let entry = UsageEntry {
                    user: String::from_str(user),
                    route: String::from_str(route),
                    model: String::from_str(model),
                    stats,
                };
                self.entries.set(i, entry);
                proof {
                    assert forall|a: int, b: int| 0 <= a < b < self.lines().len() implies (
                    #[trigger] self.lines()[a]).key() != (#[trigger] self.lines()[b]).key() by {
                        assert(before[a].key() != before[b].key());
                    }
                }
                i
            },
            None => {
                let zero = UserStats {
                    requests: 0,
                    total_latency: 0,
                    errors: 0,
                    prompt_tokens: 0,
                    completion_tokens: 0,
                    total_tokens: 0,
                };
                let entry = UsageEntry {
                    user: String::from_str(user),
                    route: String::from_str(route),
                    model: String::from_str(model),
                    stats: zero.add_sample(sample),
                };
                let place: usize = self.entries.len();
                self.entries.push(entry);
                proof {
                    assert(self.lines() =~= before.push(entry));
                    assert forall|a: int, b: int| 0 <= a < b < self.lines().len() implies (
                    #[trigger] self.lines()[a]).key() != (#[trigger] self.lines()[b]).key() by {
                        if b < before.len() {
                            assert(before[a].key() != before[b].key());
                        } else {
                            assert(before[a].key() != key);
                        }
                    }
                }
                place
            },
        }
    }

    /// The requests of a user on a route, over all models; `None` where the sum is out of range.
    pub fn route_requests(&self, user: &str, route: &str) -> (r: Option<u64>)
        ensures
            match r {
                Some(n) => n == route_total(self.lines(), user@, route@),
                None => route_total(self.lines(), user@, route@) > u64::MAX,
            },
    {
        let mut sum: u128 = 0;
        let n: usize = self.entries.len();
        for i in 0..n
            invariant
                n == self.entries@.len(),
                sum == route_total(self.entries@.take(i as int), user@, route@),
                sum <= i * u64::MAX,
        {
            let ghost seen = self.entries@.take(i + 1);
            assert(seen.drop_last() =~= self.entries@.take(i as int));
            assert(seen.last() == self.entries@[i as int]);
            assert(i * u64::MAX + u64::MAX <= u128::MAX) by (nonlinear_arith)
                requires
                    i <= u64::MAX,
            ;
            assert((i + 1) * u64::MAX == i * u64::MAX + u64::MAX) by (nonlinear_arith);
            let e = &self.entries[i];
            if same_text(e.user.as_str(), user) && same_text(e.route.as_str(), route) {
                sum = sum + e.stats.requests as u128;
            }
        }
        assert(self.entries@.take(n as int) =~= self.entries@);
        if sum <= u64::MAX as u128 {
            Some(sum as u64)
        } else {
            None
        }
    }
}

proof fn lemma_line_is(entries: Seq<UsageEntry>, key: UsageKey, i: int)
    requires
        distinct(entries),
        0 <= i < entries.len(),
        entries[i].key() == key,
    ensures
        line_of(entries, key) == Some(i),
{
    let c = choose|c: int| 0 <= c < entries.len() && (#[trigger] entries[c]).key() == key;
    if c < i {
        assert(entries[c].key() != entries[i].key());
    }
    if i < c {
        assert(entries[i].key() != entries[c].key());
    }
}

/// Recording a request adds it to the statistics about its user, route and model and leaves
/// all others as they were, and no line changes its place.
pub proof fn law_record_is_local(
    before: Seq<UsageEntry>,
    after: Seq<UsageEntry>,
    key: UsageKey,
    sample: Sample,
    place: int,
    other: UsageKey,
)
    requires
        distinct(before),
        recorded(before, after, key, sample, place),
    ensures
        distinct(after),
        stats_in(after, key) == stats_in(before, key).plus(sample),
        other != key ==> stats_in(after, other) == stats_in(before, other),
        line_of(before, other) is Some ==> line_of(after, other) == line_of(before, other),
{
    assert forall|a: int, b: int| 0 <= a < b < after.len() implies (#[trigger] after[a]).key() != (
    #[trigger] after[b]).key() by {
        if b < before.len() {
            assert(before[a].key() != before[b].key());
        } else {
            assert(before[a].key() != key);
        }
    }
    lemma_line_is(after, key, place);
    if line_of(before, other) is Some {
        let i = line_of(before, other)->0;
        assert(before[i].key() == other);
        assert(after[i].key() == other);
        lemma_line_is(after, other, i);
    } else if other != key {
        assert forall|i: int| 0 <= i < after.len() implies (#[trigger] after[i]).key() != other by {
            if i < before.len() && i != place {
                assert(before[i].key() != other);
            }
        }
    }
}

proof fn lemma_total_update(
    entries: Seq<UsageEntry>,
    i: int,
    line: UsageEntry,
    user: Seq<char>,
    route: Seq<char>,
)
    requires
        0 <= i < entries.len(),
        line.key() == entries[i].key(),
    ensures
        route_total(entries.update(i, line), user, route) == route_total(entries, user, route) + (
        if line.user@ == user && line.route@ == route {
            line.stats.requests - entries[i].stats.requests
        } else {
            0
        }),
    decreases entries.len(),
{
    let changed = entries.update(i, line);
    if i == entries.len() - 1 {
        assert(changed.drop_last() =~= entries.drop_last());
    } else {
        assert(changed.drop_last() =~= entries.drop_last().update(i, line));
        lemma_total_update(entries.drop_last(), i, line, user, route);
    }
}

/// Recording a request adds one to the requests of its user on its route and nothing to those
/// of other users or on other routes.
pub proof fn law_record_counts_once(
    before: Seq<UsageEntry>,
    after: Seq<UsageEntry>,
    key: UsageKey,
    sample: Sample,
    place: int,
    user: Seq<char>,
    route: Seq<char>,
)
    requires
        distinct(before),
        stats_in(before, key).has_room(sample),
        recorded(before, after, key, sample, place),
    ensures
        route_total(after, user, route) == route_total(before, user, route) + (if key.0 == user
            && key.1 == route {
            1int
        } else {
            0
        }),
{
    let line = after[place];
    match line_of(before, key) {
        Some(i) => {
            assert(before[i].key() == key);
            lemma_total_update(before, i, line, user, route);
        },
        None => {
            assert(after.drop_last() =~= before);
        },
    }
}

/// A count as a signed column of the database holds it: one out of its range wraps around.
pub open spec fn stored(n: nat) -> int {
    let low = n as int % 0x1_0000_0000_0000_0000;
    if low <= i64::MAX {
        low
    } else {
        low - 0x1_0000_0000_0000_0000
    }
}

/// A count of tokens as the database holds it.
pub fn stored_count(n: u64) -> (r: i64)
    ensures
        r == stored(n as nat),
{
    if n <= i64::MAX as u64 {
        n as i64
    } else {
        let above: u64 = u64::MAX - n;
        -1 - above as i64
    }
}

/// A latency as the database holds it.
pub fn stored_latency(n: u128) -> (r: i64)
    ensures
        r == stored(n as nat),
{
    let low: u64 = (n % 0x1_0000_0000_0000_0000) as u64;
    stored_count(low)
}

/// A cache hit is counted, and uses nothing.
pub proof fn law_hit_uses_nothing(stats: UserStats)
    requires
        stats.requests < u64::MAX,
    ensures
        stats.has_room(Sample::hit()),
        stats.plus(Sample::hit()) == (UserStats { requests: (stats.requests + 1) as u64, ..stats }),
{
}

/// Errors are never more than requests.
pub proof fn law_errors_within_requests(stats: UserStats, s: Sample)
    requires
        stats.errors <= stats.requests,
        stats.has_room(s),
    ensures
        UserStats::zero().errors <= UserStats::zero().requests,
        stats.plus(s).errors <= stats.plus(s).requests,
{
}

/// A request adds one to the requests, its latency and its tokens to their totals, and one to the
/// errors where its status is 400 or more.
pub proof fn law_sample_adds_up(stats: UserStats, s: Sample)
    requires
        stats.requests < u64::MAX,
        stats.errors < u64::MAX,
        stats.total_latency + s.latency_ms <= u128::MAX,
        stats.prompt_tokens + s.tokens.prompt_tokens <= u64::MAX,
        stats.completion_tokens + s.tokens.completion_tokens <= u64::MAX,
        stats.total_tokens + s.tokens.total_tokens <= u64::MAX,
    ensures
        stats.has_room(s),
        stats.plus(s).requests == stats.requests + 1,
        stats.plus(s).total_latency == stats.total_latency + s.latency_ms,
        stats.plus(s).errors == stats.errors + (if s.status >= 400 {
            1int
        } else {
            0
        }),
        stats.plus(s).prompt_tokens == stats.prompt_tokens + s.tokens.prompt_tokens,
        stats.plus(s).completion_tokens == stats.completion_tokens + s.tokens.completion_tokens,
        stats.plus(s).total_tokens == stats.total_tokens + s.tokens.total_tokens,
{
}

/// The mean latency is the total shared out over the requests, rounded down.
pub proof fn law_mean_latency(stats: UserStats)
    ensures
        stats.requests > 0 ==> stats.mean_latency() * stats.requests <= stats.total_latency < (
        stats.mean_latency() + 1) * stats.requests,
        stats.requests == 0 ==> stats.mean_latency() == 0,
{
    if stats.requests > 0 {
        let t = stats.total_latency as int;
        let n = stats.requests as int;
        assert((t / n) * n <= t < (t / n + 1) * n) by (nonlinear_arith)
            requires
                n > 0,
        ;
    }
}

/// The requests of a user on a route are those of every line about them, and no other's.
pub proof fn law_route_total(
    a: Seq<UsageEntry>,
    b: Seq<UsageEntry>,
    line: UsageEntry,
    user: Seq<char>,
    route: Seq<char>,
)
    ensures
        route_total(a + b, user, route) == route_total(a, user, route) + route_total(
            b,
            user,
            route,
        ),
        route_total(seq![line], user, route) == (if line.user@ == user && line.route@ == route {
            line.stats.requests as nat
        } else {
            0
        }),
        route_total(Seq::empty(), user, route) == 0,
    decreases b.len(),
{
    assert(seq![line].drop_last() =~= Seq::empty());
    assert(route_total(Seq::empty(), user, route) == 0);
    if b.len() == 0 {
        assert(a + b =~= a);
    } else {
        law_route_total(a, b.drop_last(), line, user, route);
        assert((a + b).drop_last() =~= a + b.drop_last());
    }
}

/// A count is stored as it is where it fits the column, and else as the number in its range that
/// differs from it by a multiple of the range.
pub proof fn law_stored(n: nat)
    ensures
        i64::MIN <= stored(n) <= i64::MAX,
        n <= i64::MAX ==> stored(n) == n,
        (n - stored(n)) % 0x1_0000_0000_0000_0000 == 0,
{
}

/// Of a user, route and model that no line is about, nothing is known to have been used; what a
/// line is about is what it says.
pub proof fn law_usage_is_looked_up(entries: Seq<UsageEntry>, key: UsageKey, i: int)
    requires
        distinct(entries),
    ensures
        (forall|j: int|
            0 <= j < entries.len() ==> (#[trigger] entries[j].user@, entries[j].route@, entries[j]
                .model@) != key) ==> stats_in(entries, key) == (UserStats {
            requests: 0,
            total_latency: 0,
            errors: 0,
            prompt_tokens: 0,
            completion_tokens: 0,
            total_tokens: 0,
        }),
        0 <= i < entries.len() && (entries[i].user@, entries[i].route@, entries[i].model@) == key
            ==> stats_in(entries, key) == entries[i].stats,
{
    if 0 <= i < entries.len() && (entries[i].user@, entries[i].route@, entries[i].model@) == key {
        lemma_line_is(entries, key, i);
    }
    if forall|j: int|
        0 <= j < entries.len() ==> (#[trigger] entries[j].user@, entries[j].route@, entries[j]
            .model@) != key {
        assert forall|j: int| 0 <= j < entries.len() implies (#[trigger] entries[j]).key()
            != key by {
            assert((entries[j].user@, entries[j].route@, entries[j].model@) != key);
        }
    }
}

} // verus!
