//! The query behind the stored usage statistics.
use vstd::prelude::*;

use crate::text::{
    chars_of, law_split, lemma_run, lemma_run_is, lemma_split_not_empty, run, run_end, same_text,
    slice_of, split_chars, split_on, string_of, views, Stop,
};

verus! {

/// How far back the statistics reach.
#[derive(Clone, Copy, PartialEq, Eq, Structural)]
pub enum Range {
    Day,
    Week,
    All,
}

/// Which usage the statistics cover: that of one user or of all, `T` being the type of a text.
pub struct FilterOf<T> {
    pub user: Option<T>,
    pub range: Range,
}

/// Which usage the statistics cover.
pub type StatsFilter = FilterOf<String>;

/// What a [`StatsFilter`] holds.
pub type FilterView = FilterOf<Seq<char>>;

/// The text in an optional string.
pub open spec fn text_in(s: Option<String>) -> Option<Seq<char>> {
    match s {
        Some(t) => Some(t@),
        None => None,
    }
}

impl View for FilterOf<String> {
    type V = FilterOf<Seq<char>>;

    open spec fn view(&self) -> FilterOf<Seq<char>> {
        FilterOf { user: text_in(self.user), range: self.range }
    }
}

/// The filter after one more `key=value` pair of the query string. What follows a second
/// equals sign is left out, and so is a pair with another key or an unknown range.
pub open spec fn with_pair(filter: FilterView, pair: Seq<char>) -> FilterView {
    let parts = split_on(pair, '=');
    let key = parts[0];
    let value = if parts.len() > 1 {
        parts[1]
    } else {
        Seq::empty()
    };
    if key == "user"@ {
        FilterOf { user: Some(value), range: filter.range }
    } else if key == "range"@ {
        if value == "24h"@ {
            FilterOf { user: filter.user, range: Range::Day }
        } else if value == "7d"@ {
            FilterOf { user: filter.user, range: Range::Week }
        } else if value == "all"@ {
            FilterOf { user: filter.user, range: Range::All }
        } else {
            filter
        }
    } else {
        filter
    }
}

/// The filter that some pairs make, starting from all users over one day.
pub open spec fn pairs_filter(pairs: Seq<Seq<char>>) -> FilterView
    decreases pairs.len(),
{
    if pairs.len() == 0 {
        FilterOf { user: None, range: Range::Day }
    } else {
        with_pair(pairs_filter(pairs.drop_last()), pairs.last())
    }
}

/// The filter that the query string of a path asks for.
pub open spec fn path_filter(path: Seq<char>) -> FilterView {
    let n = run(path, Stop::At('?'));
    if n < path.len() {
        pairs_filter(split_on(path.skip(n + 1), '&'))
    } else {
        pairs_filter(Seq::empty())
    }
}

fn apply_pair(filter: StatsFilter, pair: &Vec<char>) -> (r: StatsFilter)
    ensures
        r@ == with_pair(filter@, pair@),
{
    let parts = split_chars(pair, '=');
    proof {
        lemma_split_not_empty(pair@, '=');
        assert(views(parts@).len() == parts@.len());
    }
    let key = string_of(&parts[0]);
    let value = if parts.len() > 1 {
        string_of(&parts[1])
    } else {
        String::new()
    };
    assert(key@ == split_on(pair@, '=')[0]);
    let mut filter = filter;
    if same_text(key.as_str(), "user") {
        filter.user = Some(value);
    } else if same_text(key.as_str(), "range") {
        if same_text(value.as_str(), "24h") {
            filter.range = Range::Day;
        } else if same_text(value.as_str(), "7d") {
            filter.range = Range::Week;
        } else if same_text(value.as_str(), "all") {
            filter.range = Range::All;
        }
    }
    filter
}

/// Reads the filter from the query string of a path.
pub fn parse_filter(path: &str) -> (r: StatsFilter)
    ensures
        r@ == path_filter(path@),
{
    let chars = chars_of(path);
    assert(chars@.skip(0) =~= chars@);
    let mark: usize = run_end(&chars, 0, Stop::At('?'));
    let mut filter: StatsFilter = FilterOf { user: None, range: Range::Day };
    if mark < chars.len() {
        let query = slice_of(&chars, mark + 1, chars.len());
        assert(query@ =~= path@.skip(mark + 1));
        let pairs = split_chars(&query, '&');
        let ghost all = split_on(query@, '&');
        let n: usize = pairs.len();
        assert(all.take(0) =~= Seq::empty());
        for i in 0..n
            invariant
                n == pairs@.len(),
                views(pairs@) == all,
                filter@ == pairs_filter(all.take(i as int)),
        {
            let ghost seen = all.take(i + 1);
            assert(seen.drop_last() =~= all.take(i as int));
            assert(seen.last() == pairs@[i as int]@);
            filter = apply_pair(filter, &pairs[i]);
        }
        assert(all.take(n as int) =~= all);
    }
    filter
}

/// The columns of the statistics.
pub open spec fn select_text() -> Seq<char> {
    "SELECT 
                user_id,
                route,
                model,
                COUNT(*) as requests,

                -- ✅ cache hits
                SUM(
                    CASE 
                        WHEN total_tokens = 0 AND cost = 0 THEN 1 
                        ELSE 0 
                    END
                ) as cache_hits,

                SUM(total_tokens)::BIGINT as total_tokens,
                SUM(cost)::DOUBLE PRECISION as total_cost,
                AVG(latency_ms)::DOUBLE PRECISION as avg_latency

            FROM usage_logs"@
}

/// The query for the statistics that a filter covers. A user to filter by is its only parameter.
pub open spec fn query_for(filter: FilterView) -> Seq<char> {
    let bounded = match filter.range {
        Range::Day => select_text() + " WHERE created_at > NOW() - INTERVAL '"@ + "1 day"@ + "'"@,
        Range::Week => select_text() + " WHERE created_at > NOW() - INTERVAL '"@ + "7 days"@ + "'"@,
        Range::All => select_text(),
    };
    let chosen = if filter.user is None {
        bounded
    } else if filter.range is All {
        bounded + " WHERE user_id = $1"@
    } else {
        bounded + " AND user_id = $1"@
    };
    chosen + " GROUP BY user_id, route, model"@
}

/// Writes the query for the statistics that a filter covers.
pub fn build_query(filter: &StatsFilter) -> (r: String)
    ensures
        r@ == query_for(filter@),
{
    let mut query = String::from_str("SELECT 
                user_id,
                route,
                model,
                COUNT(*) as requests,

                -- ✅ cache hits
                SUM(
                    CASE 
                        WHEN total_tokens = 0 AND cost = 0 THEN 1 
                        ELSE 0 
                    END
                ) as cache_hits,

                SUM(total_tokens)::BIGINT as total_tokens,
                SUM(cost)::DOUBLE PRECISION as total_cost,
                AVG(latency_ms)::DOUBLE PRECISION as avg_latency

            FROM usage_logs");
    let bound: Option<&str> = match filter.range {
        Range::Day => Some("1 day"),
        Range::Week => Some("7 days"),
        Range::All => None,
    };
    match bound {
        Some(span) => {
            query.append(" WHERE created_at > NOW() - INTERVAL '");
            query.append(span);
            query.append("'");
            if filter.user.is_some() {
                query.append(" AND user_id = $1");
            }
        },
        None => {
            if filter.user.is_some() {
                query.append(" WHERE user_id = $1");
            }
        },
    }
    query.append(" GROUP BY user_id, route, model");
    query
}

/// What a client writes as a user never becomes part of the query: two filters over the same
/// range give the same query, whoever the user is.
pub proof fn law_user_stays_out_of_query(a: FilterView, b: FilterView)
    requires
        a.range == b.range,
        a.user is Some == b.user is Some,
    ensures
        query_for(a) == query_for(b),
{
}

/// A path without a question mark asks for all users over one day.
pub proof fn law_no_filter(path: Seq<char>)
    requires
        !path.contains('?'),
    ensures
        path_filter(path).user is None,
        path_filter(path).range == Range::Day,
{
    lemma_run(path, Stop::At('?'));
    let n = run(path, Stop::At('?'));
    if n < path.len() {
        assert(path.contains(path[n]));
    }
}

proof fn lemma_query_part(base: Seq<char>, query: Seq<char>)
    requires
        !base.contains('?'),
    ensures
        path_filter(base + seq!['?'] + query) == pairs_filter(split_on(query, '&')),
{
    let path = base + seq!['?'] + query;
    let n = base.len() as int;
    assert forall|i: int| 0 <= i < n implies !Stop::At('?').hit(#[trigger] path[i]) by {
        assert(base.contains(base[i]));
    }
    assert(path[n] == '?');
    lemma_run_is(path, Stop::At('?'), n);
    assert(path.skip(n + 1) =~= query);
}

/// Each pair of a query string is taken in turn, the last one last.
pub proof fn law_pairs_are_taken_in_turn(base: Seq<char>, query: Seq<char>, pair: Seq<char>)
    requires
        !base.contains('?'),
        !pair.contains('&'),
    ensures
        path_filter(base + seq!['?'] + (query + seq!['&'] + pair)) == with_pair(
            path_filter(base + seq!['?'] + query),
            pair,
        ),
        path_filter(base + seq!['?'] + pair) == with_pair(
            (FilterOf { user: None, range: Range::Day }),
            pair,
        ),
{
    lemma_query_part(base, query + seq!['&'] + pair);
    lemma_query_part(base, query);
    lemma_query_part(base, pair);
    law_split(query, '&', pair);
    law_split(pair, '&', pair);
    let all = split_on(query, '&') + seq![pair];
    assert(all.drop_last() =~= split_on(query, '&'));
    assert(seq![pair].drop_last() =~= Seq::empty());
    assert(pairs_filter(Seq::empty()) == (FilterOf::<Seq<char>> { user: None, range: Range::Day }));
}

/// A pair whose key is `user` sets the user to its value, whatever that is, and one whose key is
/// `range` the range, where its value is one of three; the other setting stays. A pair with
/// another key changes nothing, what follows a second equals sign is left out, and a key alone
/// has an empty value.
pub proof fn law_pair_sets_one_thing(
    filter: FilterView,
    key: Seq<char>,
    value: Seq<char>,
    rest: Seq<char>,
)
    requires
        !key.contains('='),
        !value.contains('='),
    ensures
        ({
            let set = with_pair(filter, key + seq!['='] + value);
            &&& set.user == (if key == "user"@ {
                Some(value)
            } else {
                filter.user
            })
            &&& set.range == (if key == "range"@ && value == "24h"@ {
                Range::Day
            } else if key == "range"@ && value == "7d"@ {
                Range::Week
            } else if key == "range"@ && value == "all"@ {
                Range::All
            } else {
                filter.range
            })
            &&& with_pair(filter, key + seq!['='] + value + seq!['='] + rest) == set
            &&& with_pair(filter, key) == with_pair(filter, key + seq!['='])
        }),
{
    law_split(key, '=', Seq::empty());
    law_split(Seq::empty(), '=', key);
    assert(key + seq!['='] + Seq::empty() =~= key + seq!['=']);
    assert(split_on(key, '=') =~= seq![key]);
    assert(split_on(key + seq!['='], '=') =~= seq![key, Seq::empty()]);
    reveal_strlit("user");
    reveal_strlit("range");
    reveal_strlit("24h");
    reveal_strlit("7d");
    reveal_strlit("all");
    let pair = key + seq!['='] + value;
    law_split(key, '=', value);
    law_split(value, '=', value);
    law_split(pair, '=', rest);
    assert(split_on(pair, '=') =~= seq![key, value]);
    let more = split_on(pair + seq!['='] + rest, '=');
    assert(more[0] == key);
    assert(more[1] == value);
    assert("user"@.len() == 4 && "range"@.len() == 5);
    assert("24h"@.len() == 3 && "7d"@.len() == 2 && "all"@.len() == 3);
    assert("24h"@[0] == '2' && "all"@[0] == 'a');
}

/// The query counts the requests and the cache hits of each user, route and model and sums up
/// their tokens, their cost and their latency, over the usage in range and of the user asked for.
pub proof fn law_query_covers_what_is_asked(user: Seq<char>)
    ensures
        ({
            let columns = "SELECT 
                user_id,
                route,
                model,
                COUNT(*) as requests,

                -- ✅ cache hits
                SUM(
                    CASE 
                        WHEN total_tokens = 0 AND cost = 0 THEN 1 
                        ELSE 0 
                    END
                ) as cache_hits,

                SUM(total_tokens)::BIGINT as total_tokens,
                SUM(cost)::DOUBLE PRECISION as total_cost,
                AVG(latency_ms)::DOUBLE PRECISION as avg_latency

            FROM usage_logs"@;
            let groups = " GROUP BY user_id, route, model"@;
            let day = " WHERE created_at > NOW() - INTERVAL '1 day'"@;
            let week = " WHERE created_at > NOW() - INTERVAL '7 days'"@;
            let one = " AND user_id = $1"@;
            &&& query_for(FilterOf { user: None, range: Range::All }) == columns + groups
            &&& query_for(FilterOf { user: Some(user), range: Range::All }) == columns
                + " WHERE user_id = $1"@ + groups
            &&& query_for(FilterOf { user: None, range: Range::Day }) == columns + day + groups
            &&& query_for(FilterOf { user: Some(user), range: Range::Day }) == columns + day + one
                + groups
            &&& query_for(FilterOf { user: None, range: Range::Week }) == columns + week + groups
            &&& query_for(FilterOf { user: Some(user), range: Range::Week }) == columns + week + one
                + groups
        }),
{
    reveal_strlit(" WHERE created_at > NOW() - INTERVAL '");
    reveal_strlit("1 day");
    reveal_strlit("7 days");
    reveal_strlit("'");
    reveal_strlit(" WHERE created_at > NOW() - INTERVAL '1 day'");
    reveal_strlit(" WHERE created_at > NOW() - INTERVAL '7 days'");
    let front = " WHERE created_at > NOW() - INTERVAL '"@;
    let day = " WHERE created_at > NOW() - INTERVAL '1 day'"@;
    let week = " WHERE created_at > NOW() - INTERVAL '7 days'"@;
    assert(front + "1 day"@ + "'"@ =~= day);
    assert(front + "7 days"@ + "'"@ =~= week);
    assert(select_text() + front + "1 day"@ + "'"@ =~= select_text() + day);
    assert(select_text() + front + "7 days"@ + "'"@ =~= select_text() + week);
}

} // verus!
