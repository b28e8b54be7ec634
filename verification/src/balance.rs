//! Upstream servers: which one serves a request, and which ones are healthy.
use vstd::prelude::*;

use crate::text::{
    begins, chars_of, ends, law_begins, law_ends, lemma_run_is, run, run_end, same_text, slice_of,
    string_of, text_begins, text_ends, Stop,
};

verus! {

/// A server, `T` being the type of a text.
pub struct BackendOf<T> {
    pub addr: T,
    pub healthy: bool,
}

/// A server that requests can be sent to.
pub type Backend = BackendOf<String>;

/// What a [`Backend`] holds.
pub type BackendView = BackendOf<Seq<char>>;

impl View for BackendOf<String> {
    type V = BackendOf<Seq<char>>;

    open spec fn view(&self) -> BackendOf<Seq<char>> {
        BackendOf { addr: self.addr@, healthy: self.healthy }
    }
}

/// What some servers hold.
pub open spec fn backend_views(v: Seq<Backend>) -> Seq<BackendView> {
    Seq::new(v.len(), |i: int| v[i]@)
}

/// The servers of one route, which take turns.
pub struct LoadBalancer {
    backends: Vec<Backend>,
    cursor: usize,
}

/// What a [`LoadBalancer`] holds: its servers, and the place of the one whose turn it is.
#[verifier::ext_equal]
pub struct BalancerView {
    pub backends: Seq<BackendView>,
    pub cursor: int,
}

/// The place `k` turns after `cursor` among `n`.
pub open spec fn turn(cursor: int, k: int, n: int) -> int {
    if cursor + k < n {
        cursor + k
    } else {
        cursor + k - n
    }
}

impl BalancerView {
    /// The turn is at a server, where there is one.
    pub open spec fn wf(self) -> bool {
        &&& 0 <= self.cursor
        &&& self.cursor < self.backends.len() || self.cursor == 0
    }

    /// The server `k` turns on is the first healthy one.
    pub open spec fn healthy_after(self, k: int) -> bool {
        let n = self.backends.len() as int;
        &&& 0 <= k < n
        &&& self.backends[turn(self.cursor, k, n)].healthy
        &&& forall|j: int|
            0 <= j < k ==> !(#[trigger] self.backends[turn(self.cursor, j, n)]).healthy
    }

    /// The place of the first healthy server from the one whose turn it is.
    pub open spec fn pick(self) -> Option<int> {
        if exists|k: int| self.healthy_after(k) {
            let k = choose|k: int| self.healthy_after(k);
            Some(turn(self.cursor, k, self.backends.len() as int))
        } else {
            None
        }
    }

    /// The balancer after the server that [`pick`](Self::pick) gives had its turn.
    pub open spec fn advanced(self) -> BalancerView {
        match self.pick() {
            Some(i) => BalancerView {
                backends: self.backends,
                cursor: turn(i, 1, self.backends.len() as int),
            },
            None => self,
        }
    }

    /// The address of the server that [`pick`](Self::pick) gives.
    pub open spec fn picked_addr(self) -> Option<Seq<char>> {
        match self.pick() {
            Some(i) => Some(self.backends[i].addr),
            None => None,
        }
    }

    /// The balancer with the health of the servers at `addr` set.
    pub open spec fn with_health(self, addr: Seq<char>, healthy: bool) -> BalancerView {
        BalancerView {
            backends: Seq::new(
                self.backends.len(),
                |i: int|
                    if self.backends[i].addr == addr {
                        BackendOf { addr, healthy }
                    } else {
                        self.backends[i]
                    },
            ),
            cursor: self.cursor,
        }
    }
}

impl View for LoadBalancer {
    type V = BalancerView;

    closed spec fn view(&self) -> BalancerView {
        BalancerView { backends: backend_views(self.backends@), cursor: self.cursor as int }
    }
}

proof fn lemma_pick_is(b: BalancerView, k: int)
    requires
        b.healthy_after(k),
    ensures
        b.pick() == Some(turn(b.cursor, k, b.backends.len() as int)),
{
    let n = b.backends.len() as int;
    let c = choose|c: int| b.healthy_after(c);
    if c < k {
        assert(!b.backends[turn(b.cursor, c, n)].healthy);
    }
    if k < c {
        assert(!b.backends[turn(b.cursor, k, n)].healthy);
    }
}

impl LoadBalancer {
    /// A balancer for the given addresses, all of them healthy, the first one to go first.
    pub fn new(addrs: Vec<String>) -> (r: LoadBalancer)
        ensures
            r@.wf(),
            r@.cursor == 0,
            r@.backends.len() == addrs@.len(),
            forall|i: int|
                0 <= i < addrs@.len() ==> #[trigger] r@.backends[i] == (BackendOf {
                    addr: addrs@[i]@,
                    healthy: true,
                }),
    {
        let mut backends: Vec<Backend> = Vec::new();
        let n: usize = addrs.len();
        for i in 0..n
            invariant
                n == addrs@.len(),
                backends@.len() == i,
                forall|k: int|
                    0 <= k < i ==> (#[trigger] backends@[k])@ == (BackendOf {
                        addr: addrs@[k]@,
                        healthy: true,
                    }),
        {
            backends.push(BackendOf { addr: addrs[i].clone(), healthy: true });
        }
        LoadBalancer { backends, cursor: 0 }
    }

    /// The address of the first healthy server from the one whose turn it is.
    pub fn next(&mut self) -> (r: Option<String>)
        requires
            old(self)@.wf(),
        ensures
            final(self)@.wf(),
            final(self)@ == old(self)@.advanced(),
            r is Some <==> old(self)@.pick() is Some,
            r is Some ==> Some(r->0@) == old(self)@.picked_addr(),
    {
        let ghost b = self@;
        let n: usize = self.backends.len();
        let mut k: usize = 0;
        while k < n
            invariant
                b == self@,
                b == old(self)@,
                b.wf(),
                k <= n,
                n == self.backends@.len(),
                forall|j: int|
                    0 <= j < k ==> !(#[trigger] b.backends[turn(b.cursor, j, n as int)]).healthy,
            decreases n - k,
        {
            let i: usize = if k < n - self.cursor {
                self.cursor + k
            } else {
                k - (n - self.cursor)
            };
            assert(i == turn(b.cursor, k as int, n as int));
            assert(self.backends@[i as int]@ == b.backends[i as int]);
            if self.backends[i].healthy {
                proof {
                    assert(b.healthy_after(k as int));
                    lemma_pick_is(b, k as int);
                }
                let addr = self.backends[i].addr.clone();
                self.cursor = if i + 1 < n {
                    i + 1
                } else {
                    0
                };
                assert(self@ =~= b.advanced());
                return Some(addr);
            }
            k += 1;
        }
        proof {
            assert forall|c: int| !b.healthy_after(c) by {
                if 0 <= c < n {
                    assert(!b.backends[turn(b.cursor, c, n as int)].healthy);
                }
            }
        }
        None
    }

    /// Sets the health of the servers at `addr`.
    pub fn set_health(&mut self, addr: &str, healthy: bool)
        ensures
            final(self)@ == old(self)@.with_health(addr@, healthy),
    {
        let ghost before = self.backends@;
        let n: usize = self.backends.len();
        for i in 0..n
            invariant
                n == self.backends@.len(),
                n == before.len(),
                self.cursor == old(self).cursor,
                before == old(self).backends@,
                forall|k: int| i <= k < n ==> #[trigger] self.backends@[k] == before[k],
                forall|k: int|
                    0 <= k < i ==> (#[trigger] self.backends@[k])@ == (if before[k].addr@ == addr@ {
                        BackendOf { addr: addr@, healthy }
                    } else {
                        before[k]@
                    }),
        {
            if same_text(self.backends[i].addr.as_str(), addr) {
                let changed = BackendOf { addr: self.backends[i].addr.clone(), healthy };
                self.backends.set(i, changed);
            }
        }
        assert(self@.backends =~= old(self)@.with_health(addr@, healthy).backends);
    }

    /// Takes the servers at `addr` out of turn.
    pub fn mark_unhealthy(&mut self, addr: &str)
        ensures
            final(self)@ == old(self)@.with_health(addr@, false),
    {
        self.set_health(addr, false);
    }
}

/// A route and the servers behind it.
pub struct Route {
    pub path: String,
    pub balancer: LoadBalancer,
}

/// What a [`Route`] holds.
#[verifier::ext_equal]
pub struct RouteView {
    pub path: Seq<char>,
    pub balancer: BalancerView,
}

impl View for Route {
    type V = RouteView;

    open spec fn view(&self) -> RouteView {
        RouteView { path: self.path@, balancer: self.balancer@ }
    }
}

/// All routes of the gateway.
pub struct Balancers {
    routes: Vec<Route>,
}

/// A request for `path` goes by `route`: the path is the route, or lies below it.
pub open spec fn serves(route: Seq<char>, path: Seq<char>) -> bool {
    path == route || begins(path, route + "/"@)
}

/// How a route is looked up.
#[derive(Clone, Copy)]
pub enum Fit {
    /// By what it serves.
    Serves,
    /// By its own text.
    Named,
}

impl Fit {
    /// A route fits `path`.
    pub open spec fn holds(self, route: Seq<char>, path: Seq<char>) -> bool {
        match self {
            Fit::Serves => serves(route, path),
            Fit::Named => route == path,
        }
    }

    /// Tells whether a route fits `path`.
    pub fn test(self, route: &str, path: &str) -> (r: bool)
        ensures
            r == self.holds(route@, path@),
    {
        match self {
            Fit::Serves => route_serves(route, path),
            Fit::Named => same_text(route, path),
        }
    }
}

/// The `i`th route is the first that fits `path`.
pub open spec fn first_fit(routes: Seq<RouteView>, fit: Fit, path: Seq<char>, i: int) -> bool {
    &&& 0 <= i < routes.len()
    &&& fit.holds(routes[i].path, path)
    &&& forall|j: int| 0 <= j < i ==> !fit.holds(#[trigger] routes[j].path, path)
}

/// The first route that fits `path`.
pub open spec fn fitting(routes: Seq<RouteView>, fit: Fit, path: Seq<char>) -> Option<int> {
    if exists|i: int| first_fit(routes, fit, path, i) {
        Some(choose|i: int| first_fit(routes, fit, path, i))
    } else {
        None
    }
}

proof fn lemma_fitting_is(routes: Seq<RouteView>, fit: Fit, path: Seq<char>, i: int)
    requires
        first_fit(routes, fit, path, i),
    ensures
        fitting(routes, fit, path) == Some(i),
{
    let c = choose|c: int| first_fit(routes, fit, path, c);
    if c < i {
        assert(!fit.holds(routes[c].path, path));
    }
    if i < c {
        assert(!fit.holds(routes[i].path, path));
    }
}

/// Some routes with one balancer replaced.
pub open spec fn with_balancer(routes: Seq<RouteView>, i: int, b: BalancerView) -> Seq<RouteView> {
    routes.update(i, RouteView { path: routes[i].path, balancer: b })
}

/// Tells whether a request for `path` goes by `route`.
pub fn route_serves(route: &str, path: &str) -> (r: bool)
    ensures
        r == serves(route@, path@),
{
    let mut below = String::from_str(route);
    below.append("/");
    same_text(path, route) || text_begins(path, below.as_str())
}

impl View for Balancers {
    type V = Seq<RouteView>;

    closed spec fn view(&self) -> Seq<RouteView> {
        Seq::new(self.routes@.len(), |i: int| self.routes@[i]@)
    }
}

/// Each balancer is in order, and no two routes have the same text.
pub open spec fn routes_wf(routes: Seq<RouteView>) -> bool {
    &&& forall|i: int| 0 <= i < routes.len() ==> (#[trigger] routes[i]).balancer.wf()
    &&& forall|i: int, j: int|
        0 <= i < j < routes.len() ==> #[trigger] routes[i].path != #[trigger] routes[j].path
}

proof fn lemma_with_balancer_wf(routes: Seq<RouteView>, i: int, b: BalancerView)
    requires
        routes_wf(routes),
        0 <= i < routes.len(),
        b.wf(),
    ensures
        routes_wf(with_balancer(routes, i, b)),
{
    let after = with_balancer(routes, i, b);
    assert forall|j: int, k: int| 0 <= j < k < after.len() implies #[trigger] after[j].path
        != #[trigger] after[k].path by {
        assert(routes[j].path != routes[k].path);
    }
}

/// The routes after one was set.
pub open spec fn inserted(routes: Seq<RouteView>, path: Seq<char>, b: BalancerView) -> Seq<
    RouteView,
> {
    match fitting(routes, Fit::Named, path) {
        Some(i) => with_balancer(routes, i, b),
        None => routes.push(RouteView { path, balancer: b }),
    }
}

/// The routes after a server was chosen for `path`.
pub open spec fn after_select(routes: Seq<RouteView>, path: Seq<char>) -> Seq<RouteView> {
    match fitting(routes, Fit::Serves, path) {
        Some(i) => with_balancer(routes, i, routes[i].balancer.advanced()),
        None => routes,
    }
}

/// The address of the server that is chosen for `path`.
pub open spec fn selected(routes: Seq<RouteView>, path: Seq<char>) -> Option<Seq<char>> {
    match fitting(routes, Fit::Serves, path) {
        Some(i) => routes[i].balancer.picked_addr(),
        None => None,
    }
}

/// The routes after the health of the servers at `addr` on the first fitting route was set.
pub open spec fn with_health(
    routes: Seq<RouteView>,
    fit: Fit,
    path: Seq<char>,
    addr: Seq<char>,
    healthy: bool,
) -> Seq<RouteView> {
    match fitting(routes, fit, path) {
        Some(i) => with_balancer(routes, i, routes[i].balancer.with_health(addr, healthy)),
        None => routes,
    }
}

/// The servers of some routes, each with the text of its route.
pub open spec fn targets_of(routes: Seq<RouteView>) -> Seq<(Seq<char>, Seq<char>)>
    decreases routes.len(),
{
    if routes.len() == 0 {
        Seq::empty()
    } else {
        let r = routes.last();
        targets_of(routes.drop_last()) + Seq::new(
            r.balancer.backends.len(),
            |i: int| (r.path, r.balancer.backends[i].addr),
        )
    }
}

/// The texts of a list of pairs of strings.
pub open spec fn pair_views(v: Seq<(String, String)>) -> Seq<(Seq<char>, Seq<char>)> {
    Seq::new(v.len(), |i: int| (v[i].0@, v[i].1@))
}

impl Balancers {
    /// No routes.
    pub fn new() -> (r: Balancers)
        ensures
            r@ == Seq::<RouteView>::empty(),
            routes_wf(r@),
    {
        let r = Balancers { routes: Vec::new() };
        assert(r@ =~= Seq::empty());
        r
    }

    fn find_route(&self, fit: Fit, path: &str) -> (r: Option<usize>)
        ensures
            match r {
                Some(i) => fitting(self@, fit, path@) == Some(i as int) && i < self.routes@.len(),
                None => fitting(self@, fit, path@) is None,
            },
    {
        let n: usize = self.routes.len();
        for i in 0..n
            invariant
                n == self.routes@.len(),
                n == self@.len(),
                forall|j: int| 0 <= j < i ==> !fit.holds(#[trigger] self@[j].path, path@),
        {
            assert(self.routes@[i as int]@ == self@[i as int]);
            if fit.test(self.routes[i].path.as_str(), path) {
                proof {
                    lemma_fitting_is(self@, fit, path@, i as int);
                }
                return Some(i);
            }
        }
        None
    }

    /// Sets the servers behind a route, which is new or is there already.
    pub fn insert(&mut self, path: String, balancer: LoadBalancer)
        requires
            routes_wf(old(self)@),
            balancer@.wf(),
        ensures
            routes_wf(final(self)@),
            final(self)@ == inserted(old(self)@, path@, balancer@),
    {
        let ghost before = self@;
        let ghost b = balancer@;
        match self.find_route(Fit::Named, path.as_str()) {
            Some(i) => {
                self.routes.set(i, Route { path, balancer });
                proof {
                    assert(self@ =~= with_balancer(before, i as int, b));
                    lemma_with_balancer_wf(before, i as int, b);
                }
            },
            None => {
                self.routes.push(Route { path, balancer });
                proof {
                    assert(self@ =~= before.push(RouteView { path: path@, balancer: b }));
                    lemma_unnamed(before, path@);
                }
            },
        }
    }

    /// The address of the server that serves `path`; it had its turn then.
    pub fn select(&mut self, path: &str) -> (r: Option<String>)
        requires
            routes_wf(old(self)@),
        ensures
            routes_wf(final(self)@),
            final(self)@ == after_select(old(self)@, path@),
            r is Some <==> selected(old(self)@, path@) is Some,
            r is Some ==> Some(r->0@) == selected(old(self)@, path@),
    {
        let ghost before = self@;
        match self.find_route(Fit::Serves, path) {
            Some(i) => {
                assert(self.routes@[i as int]@ == before[i as int]);
                assert(before[i as int].balancer.wf());
                let picked = self.routes[i].balancer.next();
                proof {
                    let b = before[i as int].balancer.advanced();
                    assert(self@ =~= with_balancer(before, i as int, b));
                    lemma_with_balancer_wf(before, i as int, b);
                }
                picked
            },
            None => None,
        }
    }

    /// Takes the servers at `addr` out of turn on the route that serves `path`.
    pub fn mark_unhealthy(&mut self, path: &str, addr: &str)
        requires
            routes_wf(old(self)@),
        ensures
            routes_wf(final(self)@),
            final(self)@ == with_health(old(self)@, Fit::Serves, path@, addr@, false),
    {
        self.set_where(Fit::Serves, path, addr, false);
    }

    /// Sets the health of the servers at `addr` on the given route.
    pub fn update_health(&mut self, route: &str, addr: &str, healthy: bool)
        requires
            routes_wf(old(self)@),
        ensures
            routes_wf(final(self)@),
            final(self)@ == with_health(old(self)@, Fit::Named, route@, addr@, healthy),
    {
        self.set_where(Fit::Named, route, addr, healthy);
    }

    fn set_where(&mut self, fit: Fit, path: &str, addr: &str, healthy: bool)
        requires
            routes_wf(old(self)@),
        ensures
            routes_wf(final(self)@),
            final(self)@ == with_health(old(self)@, fit, path@, addr@, healthy),
    {
        let ghost before = self@;
        match self.find_route(fit, path) {
            Some(i) => {
                assert(self.routes@[i as int]@ == before[i as int]);
                assert(before[i as int].balancer.wf());
                self.routes[i].balancer.set_health(addr, healthy);
                proof {
                    let b = before[i as int].balancer.with_health(addr@, healthy);
                    assert(self@ =~= with_balancer(before, i as int, b));
                    lemma_with_balancer_wf(before, i as int, b);
                }
            },
            None => {},
        }
    }

    /// The servers to check, each with its route.
    pub fn targets(&self) -> (r: Vec<(String, String)>)
        ensures
            pair_views(r@) == targets_of(self@),
    {
        let mut out: Vec<(String, String)> = Vec::new();
        let n: usize = self.routes.len();
        assert(self@.take(0) =~= Seq::empty());
        for i in 0..n
            invariant
                n == self.routes@.len(),
                n == self@.len(),
                pair_views(out@) == targets_of(self@.take(i as int)),
        {
            let ghost seen = self@.take(i + 1);
            assert(seen.drop_last() =~= self@.take(i as int));
            let ghost start = pair_views(out@);
            let route = &self.routes[i];
            let ghost mine = Seq::new(
                route@.balancer.backends.len(),
                |k: int| (route@.path, route@.balancer.backends[k].addr),
            );
            assert(seen.last() == route@);
            let m: usize = route.balancer.backends.len();
            assert(start + mine.take(0) =~= start);
            for j in 0..m
                invariant
                    m == route.balancer.backends@.len(),
                    mine == Seq::new(
                        route@.balancer.backends.len(),
                        |k: int| (route@.path, route@.balancer.backends[k].addr),
                    ),
                    pair_views(out@) == start + mine.take(j as int),
            {
                let ghost before = out@;
                assert(route@.balancer.backends[j as int] == route.balancer.backends@[j as int]@);
                out.push((route.path.clone(), route.balancer.backends[j].addr.clone()));
                assert(pair_views(out@) =~= pair_views(before).push(mine[j as int]));
                assert(start + mine.take(j + 1) =~= (start + mine.take(j as int)).push(
                    mine[j as int],
                ));
            }
            assert(mine.take(m as int) =~= mine);
        }
        assert(self@.take(n as int) =~= self@);
        out
    }
}

proof fn lemma_unnamed(routes: Seq<RouteView>, path: Seq<char>)
    requires
        fitting(routes, Fit::Named, path) is None,
    ensures
        forall|i: int| 0 <= i < routes.len() ==> #[trigger] routes[i].path != path,
{
    assert forall|i: int| 0 <= i < routes.len() implies #[trigger] routes[i].path != path by {
        if routes[i].path == path {
            lemma_least_named(routes, path, i);
        }
    }
}

proof fn lemma_least_named(routes: Seq<RouteView>, path: Seq<char>, w: int)
    requires
        0 <= w < routes.len(),
        routes[w].path == path,
    ensures
        exists|i: int| first_fit(routes, Fit::Named, path, i),
    decreases w,
{
    if exists|j: int| 0 <= j < w && #[trigger] routes[j].path == path {
        let j = choose|j: int| 0 <= j < w && #[trigger] routes[j].path == path;
        lemma_least_named(routes, path, j);
    } else {
        assert(first_fit(routes, Fit::Named, path, w));
    }
}

/// What came of an attempt to connect to a server.
#[derive(Clone, Copy)]
pub enum Probe {
    Connected,
    Refused,
    TimedOut,
}

impl Probe {
    /// Tells whether the server counts as healthy: it does where it took the connection.
    pub fn healthy(self) -> (r: bool)
        ensures
            r == (self is Connected),
    {
        match self {
            Probe::Connected => true,
            _ => false,
        }
    }
}

/// The server at an address speaks TLS.
pub open spec fn is_tls(addr: Seq<char>) -> bool {
    ends(addr, ":443"@)
}

/// The host of an address: what stands before the first colon.
pub open spec fn host_of(addr: Seq<char>) -> Seq<char> {
    addr.take(run(addr, Stop::At(':')))
}

/// Tells whether the server at an address speaks TLS.
pub fn upstream_is_tls(addr: &str) -> (r: bool)
    ensures
        r == is_tls(addr@),
{
    text_ends(addr, ":443")
}

/// The host of an address.
pub fn upstream_host(addr: &str) -> (r: String)
    ensures
        r@ == host_of(addr@),
{
    let chars = chars_of(addr);
    assert(chars@.skip(0) =~= chars@);
    let end: usize = run_end(&chars, 0, Stop::At(':'));
    let host = slice_of(&chars, 0, end);
    assert(host@ =~= host_of(addr@));
    string_of(&host)
}

proof fn lemma_turn_reaches(b: BalancerView, i: int)
    requires
        b.wf(),
        0 <= i < b.backends.len(),
    ensures
        ({
            let n = b.backends.len() as int;
            let k = if b.cursor <= i {
                i - b.cursor
            } else {
                i - b.cursor + n
            };
            0 <= k < n && turn(b.cursor, k, n) == i
        }),
{
}

proof fn lemma_least_healthy(b: BalancerView, w: int)
    requires
        b.wf(),
        0 <= w < b.backends.len(),
        b.backends[turn(b.cursor, w, b.backends.len() as int)].healthy,
    ensures
        exists|k: int| b.healthy_after(k),
    decreases w,
{
    let n = b.backends.len() as int;
    if exists|j: int| 0 <= j < w && (#[trigger] b.backends[turn(b.cursor, j, n)]).healthy {
        let j = choose|j: int| 0 <= j < w && (#[trigger] b.backends[turn(b.cursor, j, n)]).healthy;
        lemma_least_healthy(b, j);
    } else {
        assert(b.healthy_after(w));
    }
}

/// A server that is chosen is healthy, and one is chosen wherever one is healthy.
pub proof fn law_only_healthy_servers_are_chosen(b: BalancerView)
    requires
        b.wf(),
    ensures
        b.pick() matches Some(i) ==> 0 <= i < b.backends.len() && b.backends[i].healthy,
        b.pick() is Some <==> exists|i: int|
            0 <= i < b.backends.len() && (#[trigger] b.backends[i]).healthy,
{
    if exists|i: int| 0 <= i < b.backends.len() && (#[trigger] b.backends[i]).healthy {
        let i = choose|i: int| 0 <= i < b.backends.len() && (#[trigger] b.backends[i]).healthy;
        lemma_turn_reaches(b, i);
        let n = b.backends.len() as int;
        let k = if b.cursor <= i {
            i - b.cursor
        } else {
            i - b.cursor + n
        };
        assert(turn(b.cursor, k, n) == i);
        lemma_least_healthy(b, k);
    }
    if b.pick() is Some {
        let k = choose|k: int| b.healthy_after(k);
        assert(b.healthy_after(k));
        assert(b.backends[turn(b.cursor, k, b.backends.len() as int)].healthy);
    }
}

/// A server that was marked unhealthy is not chosen.
pub proof fn law_marked_servers_are_avoided(b: BalancerView, addr: Seq<char>)
    requires
        b.wf(),
    ensures
        b.with_health(addr, false).wf(),
        b.with_health(addr, false).picked_addr() != Some(addr),
{
    let c = b.with_health(addr, false);
    law_only_healthy_servers_are_chosen(c);
    if c.pick() is Some {
        let i = c.pick()->0;
        assert(c.backends[i].healthy);
    }
}

/// Once a server could not be reached for a path, the path is not sent to it again.
pub proof fn law_unreachable_server_is_not_selected(
    routes: Seq<RouteView>,
    path: Seq<char>,
    addr: Seq<char>,
)
    requires
        routes_wf(routes),
    ensures
        selected(with_health(routes, Fit::Serves, path, addr, false), path) != Some(addr),
{
    let after = with_health(routes, Fit::Serves, path, addr, false);
    match fitting(routes, Fit::Serves, path) {
        Some(i) => {
            assert(routes[i].balancer.wf());
            law_marked_servers_are_avoided(routes[i].balancer, addr);
            assert forall|j: int| 0 <= j < i implies !Fit::Serves.holds(
                #[trigger] after[j].path,
                path,
            ) by {
                assert(!Fit::Serves.holds(routes[j].path, path));
            }
            assert(first_fit(after, Fit::Serves, path, i));
            lemma_fitting_is(after, Fit::Serves, path, i);
        },
        None => {},
    }
}

/// Healthy servers take turns: the one whose turn it is is chosen, and the next one follows.
pub proof fn law_healthy_servers_take_turns(b: BalancerView)
    requires
        b.wf(),
        b.backends.len() > 0,
        forall|i: int| 0 <= i < b.backends.len() ==> (#[trigger] b.backends[i]).healthy,
    ensures
        b.pick() == Some(b.cursor),
        b.advanced().cursor == (b.cursor + 1) % (b.backends.len() as int),
        b.advanced().backends == b.backends,
{
    assert(b.backends[b.cursor].healthy);
    assert(b.healthy_after(0));
    lemma_pick_is(b, 0);
    let n = b.backends.len() as int;
    if b.cursor + 1 < n {
        assert((b.cursor + 1) % n == b.cursor + 1) by (nonlinear_arith)
            requires
                0 <= b.cursor + 1 < n,
        ;
    } else {
        assert(n % n == 0) by (nonlinear_arith)
            requires
                n > 0,
        ;
    }
}

/// A route serves its own path and every path below it, however deep, and no other.
pub proof fn law_route_serves_all_below(route: Seq<char>, rest: Seq<char>, path: Seq<char>)
    ensures
        serves(route, route),
        serves(route, route + "/"@ + rest),
        serves(route, path) <==> path == route || (route.len() < path.len() && path == route
            + "/"@ + path.skip(route.len() as int + 1)),
{
    reveal_strlit("/");
    let below = route + "/"@;
    law_begins(path, below, rest);
    assert(route + "/"@ + rest =~= below + rest);
    assert(below.len() == route.len() + 1);
}

/// The host of an address is what stands before its first colon, and all of an address without
/// one.
pub proof fn law_host(host: Seq<char>, rest: Seq<char>)
    requires
        !host.contains(':'),
    ensures
        host_of(host + ":"@ + rest) == host,
        host_of(host) == host,
{
    reveal_strlit(":");
    let addr = host + ":"@ + rest;
    let n = host.len() as int;
    assert forall|i: int| 0 <= i < n implies host[i] != ':' by {
        assert(host.contains(host[i]));
    }
    assert forall|i: int| 0 <= i < n implies !Stop::At(':').hit(#[trigger] addr[i]) by {
        assert(addr[i] == host[i]);
    }
    assert(addr[n] == ':');
    lemma_run_is(addr, Stop::At(':'), n);
    lemma_run_is(host, Stop::At(':'), n);
    assert(addr.take(n) =~= host);
    assert(host.take(n) =~= host);
}

/// A server speaks TLS if and only if its address ends with the port 443.
pub proof fn law_tls(host: Seq<char>, addr: Seq<char>)
    ensures
        is_tls(host + ":443"@),
        is_tls(addr) <==> 4 <= addr.len() && addr == addr.take(addr.len() - 4) + ":443"@,
{
    reveal_strlit(":443");
    law_ends(addr, ":443"@, host);
}

proof fn lemma_turn_mod(cursor: int, k: int, n: int)
    requires
        0 <= cursor < n,
        0 <= k <= n,
    ensures
        k < n ==> turn(cursor, k, n) == (cursor + k) % n,
        0 <= (cursor + k) % n < n,
{
    if cursor + k < n {
        assert((cursor + k) % n == cursor + k) by (nonlinear_arith)
            requires
                0 <= cursor + k < n,
        ;
    } else {
        assert((cursor + k) % n == cursor + k - n) by (nonlinear_arith)
            requires
                n <= cursor + k < 2 * n,
        ;
    }
    assert(0 <= (cursor + k) % n < n) by (nonlinear_arith)
        requires
            n > 0,
    ;
}

/// The server that is chosen is the first healthy one, going round from the one whose turn it is,
/// and the turn then passes to the one behind it. No server changes by that.
pub proof fn law_first_healthy_server_is_chosen(b: BalancerView, k: int)
    requires
        b.wf(),
        0 <= k < b.backends.len(),
        b.backends[(b.cursor + k) % (b.backends.len() as int)].healthy,
        forall|j: int|
            0 <= j < k ==> !b.backends[#[trigger] ((b.cursor + j) % (
            b.backends.len() as int))].healthy,
    ensures
        b.pick() == Some((b.cursor + k) % (b.backends.len() as int)),
        b.picked_addr() == Some(b.backends[(b.cursor + k) % (b.backends.len() as int)].addr),
        b.advanced().backends == b.backends,
        b.advanced().cursor == (b.cursor + k + 1) % (b.backends.len() as int),
{
    let n = b.backends.len() as int;
    lemma_turn_mod(b.cursor, k, n);
    assert forall|j: int| 0 <= j < k implies !(
    #[trigger] b.backends[turn(b.cursor, j, n)]).healthy by {
        lemma_turn_mod(b.cursor, j, n);
        assert(!b.backends[(b.cursor + j) % n].healthy);
    }
    assert(b.healthy_after(k));
    lemma_pick_is(b, k);
    let i = (b.cursor + k) % n;
    lemma_turn_mod(b.cursor, k + 1, n);
    assert(turn(i, 1, n) == (b.cursor + k + 1) % n) by {
        if b.cursor + k + 1 < n {
            assert((b.cursor + k + 1) % n == b.cursor + k + 1) by (nonlinear_arith)
                requires
                    0 <= b.cursor + k + 1 < n,
            ;
        } else if b.cursor + k + 1 == n {
            assert(n % n == 0) by (nonlinear_arith)
                requires
                    n > 0,
            ;
        } else if b.cursor + k + 1 < 2 * n {
            assert((b.cursor + k + 1) % n == b.cursor + k + 1 - n) by (nonlinear_arith)
                requires
                    n <= b.cursor + k + 1 < 2 * n,
            ;
        } else {
            assert((2 * n) % n == 0) by (nonlinear_arith)
                requires
                    n > 0,
            ;
        }
    }
}

/// Where no server is healthy none is chosen, and nothing changes.
pub proof fn law_no_healthy_server(b: BalancerView)
    requires
        b.wf(),
        forall|i: int| 0 <= i < b.backends.len() ==> !(#[trigger] b.backends[i]).healthy,
    ensures
        b.picked_addr() is None,
        b.advanced() == b,
{
    law_only_healthy_servers_are_chosen(b);
}

/// Setting the health of a server sets it at every place of its address, and changes no other
/// server, no address and no turn.
pub proof fn law_health_is_set_by_address(
    b: BalancerView,
    addr: Seq<char>,
    healthy: bool,
    i: int,
)
    requires
        0 <= i < b.backends.len(),
    ensures
        b.with_health(addr, healthy).backends.len() == b.backends.len(),
        b.with_health(addr, healthy).cursor == b.cursor,
        b.with_health(addr, healthy).backends[i].addr == b.backends[i].addr,
        b.with_health(addr, healthy).backends[i].healthy == (if b.backends[i].addr == addr {
            healthy
        } else {
            b.backends[i].healthy
        }),
{
}

/// The server for a path is chosen behind the first route that serves it, and only that route's
/// turn passes; a server is taken out of turn, or put back, there and nowhere else.
pub proof fn law_first_serving_route_is_taken(
    routes: Seq<RouteView>,
    path: Seq<char>,
    addr: Seq<char>,
    healthy: bool,
    i: int,
    j: int,
)
    requires
        0 <= i < routes.len(),
        serves(routes[i].path, path),
        forall|k: int| 0 <= k < i ==> !serves(#[trigger] routes[k].path, path),
        0 <= j < routes.len(),
    ensures
        selected(routes, path) == routes[i].balancer.picked_addr(),
        after_select(routes, path).len() == routes.len(),
        after_select(routes, path)[j].path == routes[j].path,
        after_select(routes, path)[j].balancer == (if j == i {
            routes[i].balancer.advanced()
        } else {
            routes[j].balancer
        }),
        with_health(routes, Fit::Serves, path, addr, healthy).len() == routes.len(),
        with_health(routes, Fit::Serves, path, addr, healthy)[j].path == routes[j].path,
        with_health(routes, Fit::Serves, path, addr, healthy)[j].balancer == (if j == i {
            routes[i].balancer.with_health(addr, healthy)
        } else {
            routes[j].balancer
        }),
{
    assert forall|k: int| 0 <= k < i implies !Fit::Serves.holds(
        #[trigger] routes[k].path,
        path,
    ) by {
        assert(!serves(routes[k].path, path));
    }
    assert(first_fit(routes, Fit::Serves, path, i));
    lemma_fitting_is(routes, Fit::Serves, path, i);
}

/// A path that no route serves gets no server, and changes nothing.
pub proof fn law_path_without_a_route(
    routes: Seq<RouteView>,
    path: Seq<char>,
    addr: Seq<char>,
    healthy: bool,
)
    requires
        forall|k: int| 0 <= k < routes.len() ==> !serves(#[trigger] routes[k].path, path),
    ensures
        selected(routes, path) is None,
        after_select(routes, path) == routes,
        with_health(routes, Fit::Serves, path, addr, healthy) == routes,
{
    assert forall|k: int| !first_fit(routes, Fit::Serves, path, k) by {
        if 0 <= k < routes.len() {
            assert(!serves(routes[k].path, path));
        }
    }
}

/// The health that a probe finds is set on the route that was probed, and on no other.
pub proof fn law_probe_is_noted_on_its_route(
    routes: Seq<RouteView>,
    i: int,
    addr: Seq<char>,
    healthy: bool,
    j: int,
)
    requires
        routes_wf(routes),
        0 <= i < routes.len(),
        0 <= j < routes.len(),
    ensures
        ({
            let after = with_health(routes, Fit::Named, routes[i].path, addr, healthy);
            &&& after.len() == routes.len()
            &&& after[j].path == routes[j].path
            &&& after[j].balancer == (if j == i {
                routes[i].balancer.with_health(addr, healthy)
            } else {
                routes[j].balancer
            })
        }),
{
    assert forall|k: int| 0 <= k < i implies !Fit::Named.holds(
        #[trigger] routes[k].path,
        routes[i].path,
    ) by {
        assert(routes[k].path != routes[i].path);
    }
    assert(first_fit(routes, Fit::Named, routes[i].path, i));
    lemma_fitting_is(routes, Fit::Named, routes[i].path, i);
}

/// Setting a route that is there replaces its servers and changes no other route; a new route
/// comes behind all others.
pub proof fn law_route_is_set(routes: Seq<RouteView>, path: Seq<char>, b: BalancerView, j: int)
    requires
        routes_wf(routes),
        0 <= j < routes.len(),
    ensures
        inserted(routes, path, b)[j].path == routes[j].path,
        inserted(routes, path, b)[j].balancer == (if routes[j].path == path {
            b
        } else {
            routes[j].balancer
        }),
        (forall|k: int| 0 <= k < routes.len() ==> #[trigger] routes[k].path != path) ==> inserted(
            routes,
            path,
            b,
        ) == routes.push(RouteView { path, balancer: b }),
        (exists|k: int| 0 <= k < routes.len() && #[trigger] routes[k].path == path) ==> inserted(
            routes,
            path,
            b,
        ).len() == routes.len(),
{
    if exists|k: int| 0 <= k < routes.len() && #[trigger] routes[k].path == path {
        let k = choose|k: int| 0 <= k < routes.len() && #[trigger] routes[k].path == path;
        assert forall|m: int| 0 <= m < k implies !Fit::Named.holds(
            #[trigger] routes[m].path,
            path,
        ) by {
            assert(routes[m].path != routes[k].path);
        }
        assert(first_fit(routes, Fit::Named, path, k));
        lemma_fitting_is(routes, Fit::Named, path, k);
        if j < k {
            assert(routes[j].path != routes[k].path);
        }
        if k < j {
            assert(routes[k].path != routes[j].path);
        }
    } else {
        assert forall|k: int| !first_fit(routes, Fit::Named, path, k) by {}
    }
}

/// Every server of every route is checked, with its route, and nothing else is.
pub proof fn law_all_servers_are_checked(routes: Seq<RouteView>, i: int, j: int)
    requires
        0 <= i < routes.len(),
        0 <= j < routes[i].balancer.backends.len(),
    ensures
        targets_of(routes).contains((routes[i].path, routes[i].balancer.backends[j].addr)),
    decreases routes.len(),
{
    let r = routes.last();
    let mine = Seq::new(
        r.balancer.backends.len(),
        |k: int| (r.path, r.balancer.backends[k].addr),
    );
    let earlier = targets_of(routes.drop_last());
    assert(targets_of(routes) == earlier + mine);
    if i == routes.len() - 1 {
        assert((earlier + mine)[earlier.len() + j] == mine[j]);
    } else {
        law_all_servers_are_checked(routes.drop_last(), i, j);
        let w = (routes[i].path, routes[i].balancer.backends[j].addr);
        let k = choose|k: int| 0 <= k < earlier.len() && earlier[k] == w;
        assert((earlier + mine)[k] == w);
    }
}

/// What is checked is a server of a route.
pub proof fn law_only_servers_are_checked(routes: Seq<RouteView>, k: int)
    requires
        0 <= k < targets_of(routes).len(),
    ensures
        exists|i: int, j: int|
            {
                &&& 0 <= i < routes.len()
                &&& 0 <= j < routes[i].balancer.backends.len()
                &&& targets_of(routes)[k] == (
                    #[trigger] routes[i].path,
                    #[trigger] routes[i].balancer.backends[j].addr,
                )
            },
    decreases routes.len(),
{
    let r = routes.last();
    let mine = Seq::new(
        r.balancer.backends.len(),
        |m: int| (r.path, r.balancer.backends[m].addr),
    );
    let t = routes.drop_last();
    let earlier = targets_of(t);
    assert(targets_of(routes) == earlier + mine);
    if k < earlier.len() {
        law_only_servers_are_checked(t, k);
        let (i, j) = choose|i: int, j: int|
            {
                &&& 0 <= i < t.len()
                &&& 0 <= j < t[i].balancer.backends.len()
                &&& earlier[k] == (
                    #[trigger] t[i].path,
                    #[trigger] t[i].balancer.backends[j].addr,
                )
            };
        assert(routes[i] == t[i]);
        assert(targets_of(routes)[k] == (
            routes[i].path,
            routes[i].balancer.backends[j].addr,
        ));
    } else {
        let i = routes.len() - 1;
        let j = k - earlier.len();
        assert(targets_of(routes)[k] == (
            routes[i].path,
            routes[i].balancer.backends[j].addr,
        ));
    }
}

/// The servers of some routes are checked route by route, those of each in their order.
pub proof fn law_servers_are_checked_in_order(
    a: Seq<RouteView>,
    b: Seq<RouteView>,
    route: RouteView,
)
    ensures
        targets_of(a + b) == targets_of(a) + targets_of(b),
        targets_of(seq![route]) == route.balancer.backends.map_values(
            |server: BackendView| (route.path, server.addr),
        ),
        targets_of(Seq::empty()) == Seq::<(Seq<char>, Seq<char>)>::empty(),
    decreases b.len(),
{
    assert(targets_of(Seq::empty()) =~= Seq::empty());
    let one = seq![route];
    assert(one.drop_last() =~= Seq::empty());
    assert(targets_of(one) =~= route.balancer.backends.map_values(
        |server: BackendView| (route.path, server.addr),
    ));
    if b.len() == 0 {
        assert(a + b =~= a);
        assert(targets_of(a) + targets_of(b) =~= targets_of(a));
    } else {
        law_servers_are_checked_in_order(a, b.drop_last(), route);
        assert((a + b).drop_last() =~= a + b.drop_last());
        let r = b.last();
        let mine = Seq::new(
            r.balancer.backends.len(),
            |k: int| (r.path, r.balancer.backends[k].addr),
        );
        assert(targets_of(a) + targets_of(b.drop_last()) + mine =~= targets_of(a) + (targets_of(
            b.drop_last(),
        ) + mine));
    }
}

/// A probe of a route that is not there changes nothing.
pub proof fn law_probe_without_a_route(
    routes: Seq<RouteView>,
    path: Seq<char>,
    addr: Seq<char>,
    healthy: bool,
)
    requires
        forall|k: int| 0 <= k < routes.len() ==> #[trigger] routes[k].path != path,
    ensures
        with_health(routes, Fit::Named, path, addr, healthy) == routes,
{
    assert forall|k: int| !first_fit(routes, Fit::Named, path, k) by {}
}

} // verus!
