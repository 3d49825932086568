//! Route tables.
//!
//! A router is an ordered table of routes. No two of its routes conflict: two
//! routes conflict where they have the same method and patterns that overlap.
//! So at most one route selects a request, whatever the order.

use crate::method::Method;
use crate::path::{segments_of, split_path, texts};
use crate::pattern::{
    begins_with, captures, param_views, pattern_accepts, pattern_selects, patterns_overlap,
    segment_accepts, segments_overlap, Param, ParamView, Pattern, SegmentView,
};
use vstd::prelude::*;

verus! {

/// One entry of a route table: a method and a pattern, bound to a handler.
#[derive(Debug, PartialEq, Eq)]
pub struct Route<H> {
    pub method: Method,
    pub pattern: Pattern,
    pub handler: H,
}

/// The mathematical value of a [`Route`].
pub struct RouteView<H> {
    pub method: Method,
    pub pattern: Seq<SegmentView>,
    pub handler: H,
}

impl<H> View for Route<H> {
    type V = RouteView<H>;

    open spec fn view(&self) -> RouteView<H> {
        RouteView { method: self.method, pattern: self.pattern@, handler: self.handler }
    }
}

/// The route that a request selected, and what its parameters bound.
#[derive(Debug)]
pub struct RouteMatch<'a, H> {
    pub handler: &'a H,
    pub params: Vec<Param>,
}

/// The mathematical value of a [`RouteMatch`].
pub struct RouteMatchView<H> {
    pub handler: H,
    pub params: Seq<ParamView>,
}

impl<'a, H> View for RouteMatch<'a, H> {
    type V = RouteMatchView<H>;

    open spec fn view(&self) -> RouteMatchView<H> {
        RouteMatchView { handler: *self.handler, params: param_views(self.params@) }
    }
}

/// The values of a sequence of routes.
pub open spec fn route_views<H>(v: Seq<Route<H>>) -> Seq<RouteView<H>> {
    v.map_values(|r: Route<H>| r@)
}

/// The two routes have the same method, and patterns that overlap.
pub open spec fn routes_conflict<H>(a: RouteView<H>, b: RouteView<H>) -> bool {
    a.method == b.method && patterns_overlap(a.pattern, b.pattern)
}

/// No two routes of the table conflict.
pub open spec fn exclusive<H>(routes: Seq<RouteView<H>>) -> bool {
    forall|i: int, j: int|
        0 <= i < j < routes.len() ==> !routes_conflict(#[trigger] routes[i], #[trigger] routes[j])
}

/// No route of `a` conflicts with a route of `b`.
pub open spec fn keep_apart<H>(a: Seq<RouteView<H>>, b: Seq<RouteView<H>>) -> bool {
    forall|i: int, j: int|
        0 <= i < a.len() && 0 <= j < b.len() ==> !routes_conflict(
            #[trigger] a[i],
            #[trigger] b[j],
        )
}

/// The route is bound to the method `method` and its pattern accepts `path`.
pub open spec fn route_selects<H>(route: RouteView<H>, method: Method, path: Seq<char>) -> bool {
    route.method == method && pattern_selects(route.pattern, path)
}

/// What selecting `route` by the path `path` yields.
pub open spec fn outcome<H>(route: RouteView<H>, path: Seq<char>) -> RouteMatchView<H>
    recommends
        pattern_selects(route.pattern, path),
{
    RouteMatchView {
        handler: route.handler,
        params: captures(route.pattern, segments_of(path).unwrap()),
    }
}

/// The route at place `i` selects the request, and none before it does.
pub open spec fn first_selecting<H>(
    routes: Seq<RouteView<H>>,
    method: Method,
    path: Seq<char>,
    i: int,
) -> bool {
    &&& 0 <= i < routes.len()
    &&& route_selects(routes[i], method, path)
    &&& forall|j: int| 0 <= j < i ==> !route_selects(#[trigger] routes[j], method, path)
}

/// What the table answers to a request: the outcome of the first route that
/// selects it, or `None` where no route does.
pub open spec fn dispatch_of<H>(routes: Seq<RouteView<H>>, method: Method, path: Seq<char>)
    -> Option<RouteMatchView<H>> {
    if exists|i: int| first_selecting(routes, method, path, i) {
        let i = choose|i: int| first_selecting(routes, method, path, i);
        Some(outcome(routes[i], path))
    } else {
        None
    }
}

/// The route with `prefix` before its pattern.
pub open spec fn prefixed_route<H>(prefix: Seq<SegmentView>, route: RouteView<H>) -> RouteView<H> {
    RouteView { method: route.method, pattern: prefix + route.pattern, handler: route.handler }
}

/// The routes with `prefix` before the pattern of each.
pub open spec fn prefixed<H>(prefix: Seq<SegmentView>, routes: Seq<RouteView<H>>) -> Seq<
    RouteView<H>,
> {
    routes.map_values(|r: RouteView<H>| prefixed_route(prefix, r))
}

/// The view of an optional match.
pub open spec fn match_view<'a, H>(m: Option<RouteMatch<'a, H>>) -> Option<RouteMatchView<H>> {
    match m {
        Some(found) => Some(found@),
        None => None,
    }
}

/// The route that binds `method` and `pattern` to `handler`.
pub open spec fn route_of<H>(method: Method, pattern: Seq<SegmentView>, handler: H) -> RouteView<
    H,
> {
    RouteView { method, pattern, handler }
}

/// Some route of the table is bound to `method` with a pattern that overlaps
/// `pattern`.
pub open spec fn claimed<H>(routes: Seq<RouteView<H>>, method: Method, pattern: Seq<SegmentView>)
    -> bool {
    exists|i: int|
        0 <= i < routes.len() && (#[trigger] routes[i]).method == method && patterns_overlap(
            routes[i].pattern,
            pattern,
        )
}

/// The request path lies under `prefix`: it is a path, and `prefix` accepts
/// its first segments.
pub open spec fn path_under(prefix: Seq<SegmentView>, path: Seq<char>) -> bool {
    segments_of(path) matches Some(segs) && segs.len() >= prefix.len() && pattern_accepts(
        prefix,
        segs.take(prefix.len() as int),
    )
}

/// An ordered table of routes, no two of which conflict.
#[derive(Debug, PartialEq, Eq)]
pub struct Router<H> {
    routes: Vec<Route<H>>,
}

impl<H> View for Router<H> {
    type V = Seq<RouteView<H>>;

    closed spec fn view(&self) -> Seq<RouteView<H>> {
        route_views(self.routes@)
    }
}

impl<H> Router<H> {
    #[verifier::type_invariant]
    spec fn routes_exclusive(self) -> bool {
        exclusive(self@)
    }

    /// The table without routes.
    pub fn new() -> (router: Router<H>)
        ensures
            router@ == Seq::<RouteView<H>>::empty(),
    {
        Router { routes: Vec::new() }
    }

    /// The number of routes.
    pub fn len(&self) -> (n: usize)
        ensures
            n == self@.len(),
    {
        self.routes.len()
    }

    /// The route at place `i`.
    pub fn get(&self, i: usize) -> (route: &Route<H>)
        requires
            i < self@.len(),
        ensures
            route@ == self@[i as int],
    {
        &self.routes[i]
    }

    /// Tells whether a route of this table is bound to `method` with a pattern
    /// that overlaps `pattern`.
    pub fn claims(&self, method: Method, pattern: &Pattern) -> (b: bool)
        ensures
            b == claimed(self@, method, pattern@),
    {
        let mut i: usize = 0;
        while i < self.routes.len()
            invariant
                i <= self.routes@.len(),
                forall|k: int|
                    0 <= k < i ==> !((#[trigger] self@[k]).method == method && patterns_overlap(
                        self@[k].pattern,
                        pattern@,
                    )),
            decreases self.routes@.len() - i,
        {
            let route = &self.routes[i];
            assert(route@ == self@[i as int]);
            if route.method == method && route.pattern.overlaps(pattern) {
                return true;
            }
            i += 1;
        }
        false
    }

    /// Tells whether a route of this table conflicts with a route of `other`.
    pub fn conflicts_with(&self, other: &Router<H>) -> (b: bool)
        ensures
            b == !keep_apart(self@, other@),
    {
        let mut j: usize = 0;
        while j < other.routes.len()
            invariant
                j <= other.routes@.len(),
                forall|i: int, k: int|
                    0 <= i < self@.len() && 0 <= k < j ==> !routes_conflict(
                        #[trigger] self@[i],
                        #[trigger] other@[k],
                    ),
            decreases other.routes@.len() - j,
        {
            let route = &other.routes[j];
            assert(route@ == other@[j as int]);
            if self.claims(route.method, &route.pattern) {
                let ghost i = choose|i: int|
                    0 <= i < self@.len() && (#[trigger] self@[i]).method == route.method
                        && patterns_overlap(self@[i].pattern, route.pattern@);
                assert(routes_conflict(self@[i], other@[j as int]));
                return true;
            }
            assert forall|i: int| 0 <= i < self@.len() implies !routes_conflict(
                #[trigger] self@[i],
                other@[j as int],
            ) by {
                if routes_conflict(self@[i], other@[j as int]) {
                    assert(claimed(self@, route.method, route.pattern@));
                }
            }
            j += 1;
        }
        false
    }

    /// This table with one more route, which binds `method` and `pattern` to
    /// `handler`.
    ///
    /// The new route must not conflict with a route of the table; `claims`
    /// tells whether it does.
    pub fn route(self, method: Method, pattern: Pattern, handler: H) -> (router: Router<H>)
        requires
            !claimed(self@, method, pattern@),
        ensures
            router@ == self@.push(route_of(method, pattern@, handler)),
            exclusive(router@),
    {
        proof {
            use_type_invariant(&self);
        }
        let ghost before = self@;
        let mut routes = self.routes;
        let route = Route { method, pattern, handler };
        proof {
            assert(route_views(routes@.push(route)) =~= before.push(route@));
            assert forall|i: int, j: int| 0 <= i < j < before.len() + 1 implies !routes_conflict(
                #[trigger] before.push(route@)[i],
                #[trigger] before.push(route@)[j],
            ) by {
                if j == before.len() && routes_conflict(before[i], route@) {
                    assert(claimed(before, method, pattern@));
                }
            }
        }
        routes.push(route);
        Router { routes }
    }

    /// This table with `prefix` before the pattern of each route.
    pub fn prefixed(self, prefix: &Pattern) -> (router: Router<H>)
        ensures
            router@ == prefixed(prefix@, self@),
            exclusive(router@),
    {
        proof {
            use_type_invariant(&self);
            lemma_prefixed_exclusive(prefix@, self@);
        }
        let ghost before = self@;
        let ghost given = self.routes@;
        let mut routes: Vec<Route<H>> = Vec::new();
        for route in it: self.routes
            invariant
                it.seq() == given,
                before == route_views(given),
                route_views(routes@) == prefixed(prefix@, before.take(it.index() as int)),
        {
            let ghost old_route = route@;
            let Route { method, pattern, handler } = route;
            let moved = Route { method, pattern: prefix.join(&pattern), handler };
            proof {
                assert(before[it.index() as int] == old_route);
                assert(moved@ == prefixed_route(prefix@, old_route));
                assert(route_views(routes@.push(moved)) =~= route_views(routes@).push(moved@));
                assert(before.take(it.index() + 1) =~= before.take(it.index() as int).push(
                    old_route,
                ));
                assert(prefixed(prefix@, before.take(it.index() as int).push(old_route))
                    =~= prefixed(prefix@, before.take(it.index() as int)).push(moved@));
            }
            routes.push(moved);
        }
        proof {
            assert(before.take(given.len() as int) =~= before);
        }
        Router { routes }
    }

    /// The routes of this table followed by those of `other`.
    ///
    /// No route of `other` may conflict with a route of this table;
    /// `conflicts_with` tells whether one does.
    pub fn merge(self, other: Router<H>) -> (router: Router<H>)
        requires
            keep_apart(self@, other@),
        ensures
            router@ == self@ + other@,
            exclusive(router@),
    {
        proof {
            use_type_invariant(&self);
            use_type_invariant(&other);
            lemma_merged_exclusive(self@, other@);
        }
        let ghost (a, b) = (self@, other@);
        let mut routes = self.routes;
        let mut more = other.routes;
        proof {
            assert(route_views(routes@ + more@) =~= a + b);
        }
        routes.append(&mut more);
        Router { routes }
    }

    /// The routes of this table followed by those of `sub`, each with
    /// `prefix` before its pattern.
    ///
    /// No route of `sub` under the prefix may conflict with a route of this
    /// table.
    pub fn nest(self, prefix: &Pattern, sub: Router<H>) -> (router: Router<H>)
        requires
            keep_apart(self@, prefixed(prefix@, sub@)),
        ensures
            router@ == self@ + prefixed(prefix@, sub@),
            exclusive(router@),
    {
        self.merge(sub.prefixed(prefix))
    }

    /// Answers a request: the handler of the route that selects it, with
    /// what the route's parameters bind in the path, or `None` where no
    /// route selects it. No two routes of the table conflict, so at most one
    /// route selects the request.
    pub fn dispatch<'a>(&'a self, method: Method, path: &str) -> (found: Option<RouteMatch<'a, H>>)
        ensures
            match_view(found) == dispatch_of(self@, method, path@),
            exclusive(self@),
    {
        proof {
            use_type_invariant(self);
        }
        let segs = match split_path(path) {
            Some(segs) => segs,
            None => {
                return None;
            },
        };
        let mut i: usize = 0;
        while i < self.routes.len()
            invariant
                i <= self.routes@.len(),
                exclusive(self@),
                segments_of(path@) == Some(texts(segs@)),
                forall|k: int| 0 <= k < i ==> !route_selects(#[trigger] self@[k], method, path@),
            decreases self.routes@.len() - i,
        {
            let route = &self.routes[i];
            assert(route@ == self@[i as int]);
            if route.method == method {
                if let Some(params) = route.pattern.capture(&segs) {
                    let found = RouteMatch { handler: &route.handler, params };
                    proof {
                        assert(first_selecting(self@, method, path@, i as int));
                        let chosen = choose|c: int| first_selecting(self@, method, path@, c);
                        assert(chosen == i);
                        assert(found@ == outcome(self@[i as int], path@));
                    }
                    return Some(found);
                }
            }
            i += 1;
        }
        None
    }
}

/// A pattern segment overlaps itself.
proof fn lemma_segment_overlaps_itself(seg: SegmentView)
    ensures
        segments_overlap(seg, seg),
{
}

/// A common prefix neither makes two patterns overlap nor keeps them from it.
pub proof fn lemma_prefix_keeps_overlap(
    prefix: Seq<SegmentView>,
    p: Seq<SegmentView>,
    q: Seq<SegmentView>,
)
    ensures
        patterns_overlap(prefix + p, prefix + q) == patterns_overlap(p, q),
{
    let (pp, pq) = (prefix + p, prefix + q);
    if patterns_overlap(p, q) {
        assert forall|i: int| 0 <= i < pp.len() implies segments_overlap(
            #[trigger] pp[i],
            pq[i],
        ) by {
            if i < prefix.len() {
                lemma_segment_overlaps_itself(prefix[i]);
            } else {
                assert(segments_overlap(p[i - prefix.len()], q[i - prefix.len()]));
            }
        }
    }
    if patterns_overlap(pp, pq) {
        assert(p.len() == q.len());
        assert forall|i: int| 0 <= i < p.len() implies segments_overlap(
            #[trigger] p[i],
            q[i],
        ) by {
            assert(segments_overlap(pp[i + prefix.len()], pq[i + prefix.len()]));
        }
    }
}

/// A table of which no two routes conflict stays so under a prefix.
pub proof fn lemma_prefixed_exclusive<H>(prefix: Seq<SegmentView>, routes: Seq<RouteView<H>>)
    requires
        exclusive(routes),
    ensures
        exclusive(prefixed(prefix, routes)),
{
    let moved = prefixed(prefix, routes);
    assert forall|i: int, j: int| 0 <= i < j < moved.len() implies !routes_conflict(
        #[trigger] moved[i],
        #[trigger] moved[j],
    ) by {
        lemma_prefix_keeps_overlap(prefix, routes[i].pattern, routes[j].pattern);
        assert(!routes_conflict(routes[i], routes[j]));
    }
}

/// Two tables that keep apart make one table of which no two routes conflict.
pub proof fn lemma_merged_exclusive<H>(a: Seq<RouteView<H>>, b: Seq<RouteView<H>>)
    requires
        exclusive(a),
        exclusive(b),
        keep_apart(a, b),
    ensures
        exclusive(a + b),
{
    let all = a + b;
    assert forall|i: int, j: int| 0 <= i < j < all.len() implies !routes_conflict(
        #[trigger] all[i],
        #[trigger] all[j],
    ) by {
        if j < a.len() {
            assert(!routes_conflict(a[i], a[j]));
        } else if i < a.len() {
            assert(!routes_conflict(a[i], b[j - a.len()]));
        } else {
            assert(!routes_conflict(b[i - a.len()], b[j - a.len()]));
        }
    }
}

/// Two patterns that accept the same path segments overlap.
pub proof fn lemma_accepting_patterns_overlap(
    p: Seq<SegmentView>,
    q: Seq<SegmentView>,
    segs: Seq<Seq<char>>,
)
    requires
        pattern_accepts(p, segs),
        pattern_accepts(q, segs),
    ensures
        patterns_overlap(p, q),
{
    assert forall|i: int| 0 <= i < p.len() implies segments_overlap(
        #[trigger] p[i],
        q[i],
    ) by {
        assert(segment_accepts(p[i], segs[i]));
        assert(segment_accepts(q[i], segs[i]));
    }
}

/// In a table of which no two routes conflict, a request is selected by at
/// most one route.
pub proof fn lemma_one_route_selects<H>(
    routes: Seq<RouteView<H>>,
    method: Method,
    path: Seq<char>,
    i: int,
    j: int,
)
    requires
        exclusive(routes),
        0 <= i < routes.len(),
        0 <= j < routes.len(),
        route_selects(routes[i], method, path),
        route_selects(routes[j], method, path),
    ensures
        i == j,
{
    let segs = segments_of(path).unwrap();
    lemma_accepting_patterns_overlap(routes[i].pattern, routes[j].pattern, segs);
    lemma_accepting_patterns_overlap(routes[j].pattern, routes[i].pattern, segs);
    if i < j {
        assert(routes_conflict(routes[i], routes[j]));
    } else if j < i {
        assert(routes_conflict(routes[j], routes[i]));
    }
}

/// A table answers `None` exactly where none of its routes selects the
/// request.
pub proof fn lemma_no_route_selects<H>(routes: Seq<RouteView<H>>, method: Method, path: Seq<char>)
    ensures
        dispatch_of(routes, method, path) is None <==> forall|i: int|
            0 <= i < routes.len() ==> !route_selects(#[trigger] routes[i], method, path),
{
    if exists|i: int| 0 <= i < routes.len() && route_selects(#[trigger] routes[i], method, path) {
        let i = choose|i: int|
            0 <= i < routes.len() && route_selects(#[trigger] routes[i], method, path);
        lemma_first_selecting_exists(routes, method, path, i);
    }
}

/// Where some route up to place `i` selects the request, a first one does.
proof fn lemma_first_selecting_exists<H>(
    routes: Seq<RouteView<H>>,
    method: Method,
    path: Seq<char>,
    i: int,
)
    requires
        0 <= i < routes.len(),
        route_selects(routes[i], method, path),
    ensures
        exists|k: int| first_selecting(routes, method, path, k),
    decreases i,
{
    if exists|j: int| 0 <= j < i && route_selects(#[trigger] routes[j], method, path) {
        let j = choose|j: int| 0 <= j < i && route_selects(#[trigger] routes[j], method, path);
        lemma_first_selecting_exists(routes, method, path, j);
    } else {
        assert(first_selecting(routes, method, path, i));
    }
}

/// In a table of which no two routes conflict, the answer to a request is the
/// outcome of the one route that selects it.
pub proof fn lemma_dispatch_selected<H>(
    routes: Seq<RouteView<H>>,
    method: Method,
    path: Seq<char>,
    i: int,
)
    requires
        exclusive(routes),
        0 <= i < routes.len(),
        route_selects(routes[i], method, path),
    ensures
        dispatch_of(routes, method, path) == Some(outcome(routes[i], path)),
{
    lemma_first_selecting_exists(routes, method, path, i);
    let k = choose|k: int| first_selecting(routes, method, path, k);
    lemma_one_route_selects(routes, method, path, i, k);
}

/// A route whose pattern begins with `prefix` selects only paths under
/// `prefix`.
pub proof fn lemma_selected_under_prefix(
    prefix: Seq<SegmentView>,
    pattern: Seq<SegmentView>,
    path: Seq<char>,
)
    requires
        begins_with(pattern, prefix),
        pattern_selects(pattern, path),
    ensures
        path_under(prefix, path),
{
    let segs = segments_of(path).unwrap();
    let n = prefix.len() as int;
    assert forall|i: int| 0 <= i < n implies segment_accepts(
        #[trigger] prefix[i],
        segs.take(n)[i],
    ) by {
        assert(prefix[i] == pattern.take(n)[i]);
        assert(segment_accepts(pattern[i], segs[i]));
    }
}

/// Nesting a table under a prefix into a parent keeps every route of the
/// parent at its place, and adds only routes whose patterns begin with the
/// prefix.
pub proof fn lemma_nest_adds_under_prefix<H>(
    parent: Seq<RouteView<H>>,
    prefix: Seq<SegmentView>,
    sub: Seq<RouteView<H>>,
)
    ensures
        (parent + prefixed(prefix, sub)).len() == parent.len() + sub.len(),
        forall|i: int|
            0 <= i < parent.len() ==> (#[trigger] (parent + prefixed(prefix, sub))[i]) == parent[i],
        forall|i: int|
            parent.len() <= i < parent.len() + sub.len() ==> begins_with(
                (#[trigger] (parent + prefixed(prefix, sub))[i]).pattern,
                prefix,
            ),
{
    let all = parent + prefixed(prefix, sub);
    assert forall|i: int| parent.len() <= i < parent.len() + sub.len() implies begins_with(
        (#[trigger] all[i]).pattern,
        prefix,
    ) by {
        let route = sub[i - parent.len()];
        assert(all[i] == prefixed_route(prefix, route));
        assert((prefix + route.pattern).take(prefix.len() as int) =~= prefix);
    }
}

/// Nesting a table under a prefix into a parent changes the answer to no
/// request whose path lies outside the prefix: such a request is answered as
/// the parent alone answers it.
pub proof fn lemma_nest_keeps_outside<H>(
    parent: Seq<RouteView<H>>,
    prefix: Seq<SegmentView>,
    sub: Seq<RouteView<H>>,
    method: Method,
    path: Seq<char>,
)
    requires
        !path_under(prefix, path),
    ensures
        dispatch_of(parent + prefixed(prefix, sub), method, path) == dispatch_of(
            parent,
            method,
            path,
        ),
{
    let all = parent + prefixed(prefix, sub);
    lemma_nest_adds_under_prefix(parent, prefix, sub);
    assert forall|i: int| parent.len() <= i < all.len() implies !route_selects(
        #[trigger] all[i],
        method,
        path,
    ) by {
        if route_selects(all[i], method, path) {
            lemma_selected_under_prefix(prefix, all[i].pattern, path);
        }
    }
    assert forall|i: int| first_selecting(all, method, path, i) <==> first_selecting(
        parent,
        method,
        path,
        i,
    ) by {
        if first_selecting(all, method, path, i) {
            assert(i < parent.len());
            assert forall|j: int| 0 <= j < i implies !route_selects(
                #[trigger] parent[j],
                method,
                path,
            ) by {
                assert(parent[j] == all[j]);
            }
        }
        if first_selecting(parent, method, path, i) {
            assert(all[i] == parent[i]);
            assert forall|j: int| 0 <= j < i implies !route_selects(
                #[trigger] all[j],
                method,
                path,
            ) by {
                assert(parent[j] == all[j]);
            }
        }
    }
    if exists|i: int| first_selecting(all, method, path, i) {
        let a = choose|i: int| first_selecting(all, method, path, i);
        let b = choose|i: int| first_selecting(parent, method, path, i);
        assert(first_selecting(parent, method, path, a));
        assert(first_selecting(all, method, path, b));
        if a < b {
            assert(route_selects(parent[a], method, path));
        } else if b < a {
            assert(route_selects(all[b], method, path));
        }
        assert(all[a] == parent[a]);
    }
}

} // verus!
