//! The laws of the router: what holds of every router, across calls.

use vstd::prelude::*;

use crate::error::RouteError;
use crate::matching::{captures, more_specific, pattern_matches, rank};
use crate::method_routing::{Method, MethodRouter};
use crate::path::{parse_pattern, parse_segment, split_slash, PatSeg};
use crate::path_router::{
    entry_wf, routes_wf, lemma_best_match_unique, lemma_user_routes_all, lemma_with_last_flagged, user_routes, request_segments, Endpoint, EndpointChange, EntryView,
    PathRouterView,
};
use crate::route::{Route, Target};
use crate::routing::RouterView;

verus! {

broadcast use vstd::string::group_string_axioms;

/// A pattern of static segments only.
pub open spec fn all_static(segs: Seq<PatSeg>) -> bool {
    forall|i: int| 0 <= i < segs.len() ==> (#[trigger] segs[i]) is Static
}

proof fn lemma_all_static_unbeaten(a: Seq<PatSeg>, b: Seq<PatSeg>)
    requires
        all_static(a),
    ensures
        !more_specific(b, a),
    decreases b.len(),
{
    if a.len() > 0 && b.len() > 0 {
        assert(a[0] is Static);
        if rank(b[0]) == rank(a[0]) {
            assert(all_static(a.drop_first())) by {
                assert forall|i: int| 0 <= i < a.drop_first().len() implies (
                #[trigger] a.drop_first()[i]) is Static by {
                    assert(a.drop_first()[i] == a[i + 1]);
                }
            }
            lemma_all_static_unbeaten(a.drop_first(), b.drop_first());
        }
    }
}

proof fn lemma_static_segments_match(segs: Seq<PatSeg>, req: Seq<Seq<char>>)
    requires
        segs.len() == req.len(),
        forall|k: int| 0 <= k < segs.len() ==> #[trigger] segs[k] == PatSeg::Static(req[k]),
    ensures
        pattern_matches(segs, req),
        captures(segs, req) == Seq::<(Seq<char>, Seq<char>)>::empty(),
    decreases segs.len(),
{
    if segs.len() > 0 {
        assert(segs[0] == PatSeg::Static(req[0]));
        assert forall|k: int| 0 <= k < segs.drop_first().len() implies #[trigger] segs.drop_first()[k]
            == PatSeg::Static(req.drop_first()[k]) by {
            assert(segs[k + 1] == PatSeg::Static(req[k + 1]));
        }
        lemma_static_segments_match(segs.drop_first(), req.drop_first());
    }
}

/// A path whose pattern has static segments only matches itself as a
/// request path, with no captures.
pub proof fn lemma_static_path_matches_itself(p: Seq<char>)
    requires
        p.len() > 0,
        p[0] == '/',
        parse_pattern(p) is Some,
        all_static(parse_pattern(p)->0),
    ensures
        request_segments(p) == Some(split_slash(p.drop_first())),
        pattern_matches(parse_pattern(p)->0, split_slash(p.drop_first())),
        captures(parse_pattern(p)->0, split_slash(p.drop_first())) == Seq::<
            (Seq<char>, Seq<char>),
        >::empty(),
{
    let req = split_slash(p.drop_first());
    let segs = parse_pattern(p)->0;
    assert forall|k: int| 0 <= k < segs.len() implies #[trigger] segs[k] == PatSeg::Static(
        req[k],
    ) by {
        assert(parse_segment(req[k]) is Some);
        assert(segs[k] == parse_segment(req[k])->0);
        assert(segs[k] is Static);
    }
    lemma_static_segments_match(segs, req);
}

/// A route of static segments only wins over every other route that
/// matches the same request path: a static route `/foo` takes precedence
/// over a capture `/{key}` (and over any wildcard).
pub proof fn lemma_static_route_wins<S>(pr: PathRouterView<S>, i: int, req: Seq<Seq<char>>)
    requires
        pr.wf(),
        0 <= i < pr.routes.len(),
        all_static(pr.routes[i].segs),
        pattern_matches(pr.routes[i].segs, req),
    ensures
        pr.is_best_match(i, req),
        pr.any_match(req),
        pr.best_index(req) == i,
{
    assert forall|j: int|
        #![trigger pr.routes[j]]
        pr.route_matches(j, req) implies !more_specific(pr.routes[j].segs, pr.routes[i].segs) by {
        lemma_all_static_unbeaten(pr.routes[i].segs, pr.routes[j].segs);
    }
    assert(pr.route_matches(i, req));
    assert(pr.is_best_match(i, req));
    let b = pr.best_index(req);
    lemma_best_match_unique(pr, req, i, b);
}

/// A request to the path of a route just registered, with a method that
/// the registered method router handles, reaches that service (for a path
/// of static segments, which no other route can outrank).
pub proof fn lemma_route_then_dispatch<S>(
    r: RouterView<S>,
    path: Seq<char>,
    mr: MethodRouter<S>,
    m: Method,
    rt: Route,
)
    requires
        r.wf(),
        r.spec_route(path, mr) is Ok,
        parse_pattern(path) is Some,
        all_static(parse_pattern(path)->0),
        mr.handler(m) == Some(rt),
    ensures
        r.spec_route(path, mr)->Ok_0.spec_dispatch(m, path) == (
            rt,
            Seq::<(Seq<char>, Seq<char>)>::empty(),
        ),
{
    let r2 = r.spec_route(path, mr)->Ok_0;
    let pr = r.path_router;
    let pr2 = r2.path_router;
    assert(pr2.wf()) by {
        crate::laws::lemma_route_keeps_wf(pr, path, mr);
    }
    lemma_static_path_matches_itself(path);
    let req = split_slash(path.drop_first());
    if pr.has_method_router_at(path) {
        let i = pr.method_router_index(path);
        let old_mr = pr.routes[i].endpoint->MethodRouter_0;
        let merged = old_mr.spec_merge(mr)->Ok_0;
        assert(entry_wf(pr.routes[i]));
        assert(pr2.routes[i].segs == parse_pattern(path)->0);
        assert(old_mr.handler(m) is None) by {
            if old_mr.handler(m) is Some {
                assert(old_mr.overlaps(mr));
            }
        }
        assert(merged.handler(m) == Some(rt)) by {
            match m {
                Method::Get => {},
                Method::Head => {},
                Method::Delete => {},
                Method::Options => {},
                Method::Patch => {},
                Method::Post => {},
                Method::Put => {},
                Method::Trace => {},
                Method::Connect => {},
                Method::Other => {},
            }
        }
        lemma_static_route_wins(pr2, i, req);
    } else {
        let i = pr.routes.len() as int;
        assert(pr2.routes[i].segs == parse_pattern(path)->0);
        assert(pr2.routes[i].endpoint == Endpoint::MethodRouter(mr));
        lemma_static_route_wins(pr2, i, req);
    }
}

/// Registering keeps a table well formed.
pub proof fn lemma_route_keeps_wf<S>(pr: PathRouterView<S>, path: Seq<char>, mr: MethodRouter<S>)
    requires
        pr.wf(),
        pr.spec_route(path, mr) is Ok,
    ensures
        pr.spec_route(path, mr)->Ok_0.wf(),
{
    let pr2 = pr.spec_route(path, mr)->Ok_0;
    if pr.has_method_router_at(path) {
        let i = pr.method_router_index(path);
        assert forall|k: int| 0 <= k < pr2.routes.len() implies entry_wf(#[trigger] pr2.routes[k]) by {
            assert(entry_wf(pr.routes[k]));
        }
        assert forall|a: int, b: int|
            0 <= a < pr2.routes.len() && 0 <= b < pr2.routes.len() && a != b implies !crate::matching::same_shape(
            #[trigger] pr2.routes[a].segs,
            #[trigger] pr2.routes[b].segs,
        ) by {
            assert(pr2.routes[a].segs == pr.routes[a].segs);
            assert(pr2.routes[b].segs == pr.routes[b].segs);
        }
    } else {
        let segs = parse_pattern(path)->0;
        assert forall|a: int, b: int|
            0 <= a < pr2.routes.len() && 0 <= b < pr2.routes.len() && a != b implies !crate::matching::same_shape(
            #[trigger] pr2.routes[a].segs,
            #[trigger] pr2.routes[b].segs,
        ) by {
            if a == pr.routes.len() {
                assert(!crate::matching::same_shape(pr.routes[b].segs, segs));
                if crate::matching::same_shape(segs, pr.routes[b].segs) {
                    crate::path_router::lemma_same_shape_symmetric(segs, pr.routes[b].segs);
                }
            } else if b == pr.routes.len() {
                assert(!crate::matching::same_shape(pr.routes[a].segs, segs));
            }
        }
    }
}

/// Registering the same method twice at the same path is refused: the
/// second method router overlaps the first.
pub proof fn lemma_same_method_twice_refused<S>(
    r: RouterView<S>,
    path: Seq<char>,
    first: MethodRouter<S>,
    second: MethodRouter<S>,
    m: Method,
)
    requires
        r.wf(),
        r.spec_route(path, first) is Ok,
        first.handler(m) is Some,
        second.handler(m) is Some,
    ensures
        r.spec_route(path, first)->Ok_0.spec_route(path, second) == Err::<
            RouterView<S>,
            RouteError,
        >(RouteError::OverlappingMethod),
{
    let pr = r.path_router;
    let pr2 = r.spec_route(path, first)->Ok_0.path_router;
    lemma_route_keeps_wf(pr, path, first);
    let i = if pr.has_method_router_at(path) {
        pr.method_router_index(path)
    } else {
        pr.routes.len() as int
    };
    assert(pr2.routes[i].path == path);
    assert(pr2.routes[i].endpoint is MethodRouter);
    let mr_i = pr2.routes[i].endpoint->MethodRouter_0;
    assert(mr_i.handler(m) is Some) by {
        if pr.has_method_router_at(path) {
            match m {
                Method::Get => {},
                Method::Head => {},
                Method::Delete => {},
                Method::Options => {},
                Method::Patch => {},
                Method::Post => {},
                Method::Put => {},
                Method::Trace => {},
                Method::Connect => {},
                Method::Other => {},
            }
        }
    }
    assert(pr2.has_method_router_at(path));
    let j = pr2.method_router_index(path);
    crate::path_router::lemma_path_unique(pr2.routes, i, j);
    assert(mr_i.overlaps(second));
}

/// Two well-formed tables whose routes have the same segments answer a
/// request path with the same route.
pub proof fn lemma_same_segments_same_match<S, S2>(
    a: PathRouterView<S>,
    b: PathRouterView<S2>,
    req: Seq<Seq<char>>,
)
    requires
        a.wf(),
        b.wf(),
        a.routes.len() == b.routes.len(),
        forall|k: int| 0 <= k < a.routes.len() ==> (#[trigger] a.routes[k]).segs == b.routes[k].segs,
    ensures
        a.any_match(req) == b.any_match(req),
        a.any_match(req) ==> a.best_index(req) == b.best_index(req),
{
    assert forall|k: int| a.route_matches(k, req) == b.route_matches(k, req) by {
        if 0 <= k < a.routes.len() {
            assert(a.routes[k].segs == b.routes[k].segs);
        }
    }
    assert forall|k: int| a.is_best_match(k, req) == b.is_best_match(k, req) by {
        if a.is_best_match(k, req) {
            assert forall|j: int|
                #![trigger b.routes[j]]
                b.route_matches(j, req) implies !more_specific(b.routes[j].segs, b.routes[k].segs) by {
                assert(a.route_matches(j, req));
                assert(a.routes[j].segs == b.routes[j].segs);
                assert(a.routes[k].segs == b.routes[k].segs);
            }
        }
        if b.is_best_match(k, req) {
            assert forall|j: int|
                #![trigger a.routes[j]]
                a.route_matches(j, req) implies !more_specific(a.routes[j].segs, a.routes[k].segs) by {
                assert(b.route_matches(j, req));
                assert(a.routes[j].segs == b.routes[j].segs);
                assert(a.routes[k].segs == b.routes[k].segs);
            }
        }
    }
    if a.any_match(req) {
        let w = choose|k: int| a.route_matches(k, req);
        assert(b.route_matches(w, req));
        lemma_best_exists(a, req, w);
        lemma_best_exists(b, req, w);
        let ia = a.best_index(req);
        let ib = b.best_index(req);
        assert(b.is_best_match(ia, req));
        lemma_best_match_unique(b, req, ia, ib);
    } else {
        if b.any_match(req) {
            let w = choose|k: int| b.route_matches(k, req);
            assert(a.route_matches(w, req));
        }
    }
}

/// Where some route matches a request path, a most specific one does.
pub proof fn lemma_best_exists<S>(pr: PathRouterView<S>, req: Seq<Seq<char>>, w: int)
    requires
        pr.route_matches(w, req),
    ensures
        exists|i: int| pr.is_best_match(i, req),
        pr.is_best_match(pr.best_index(req), req),
{
    let b = lemma_best_in_prefix(pr, req, pr.routes.len() as int);
    assert(b is Some);
    assert(pr.is_best_match(b->0, req));
}

/// The most specific of the first `n` routes that match `req`, if any does.
proof fn lemma_best_in_prefix<S>(pr: PathRouterView<S>, req: Seq<Seq<char>>, n: int) -> (b: Option<
    int,
>)
    requires
        0 <= n <= pr.routes.len(),
    ensures
        match b {
            Some(i) => 0 <= i < n && pr.route_matches(i, req) && forall|j: int|
                #![trigger pr.routes[j]]
                0 <= j < n && pr.route_matches(j, req) ==> !more_specific(
                    pr.routes[j].segs,
                    pr.routes[i].segs,
                ),
            None => forall|j: int| #![trigger pr.routes[j]] 0 <= j < n ==> !pr.route_matches(j, req),
        },
    decreases n,
{
    if n == 0 {
        None
    } else {
        let prev = lemma_best_in_prefix(pr, req, n - 1);
        let c = n - 1;
        if !pr.route_matches(c, req) {
            prev
        } else {
            crate::matching::lemma_more_specific_irreflexive(pr.routes[c].segs);
            match prev {
                None => Some(c),
                Some(i) => {
                    if more_specific(pr.routes[c].segs, pr.routes[i].segs) {
                        assert forall|j: int|
                            #![trigger pr.routes[j]]
                            0 <= j < n && pr.route_matches(j, req) implies !more_specific(
                            pr.routes[j].segs,
                            pr.routes[c].segs,
                        ) by {
                            if j < c && more_specific(pr.routes[j].segs, pr.routes[c].segs) {
                                crate::matching::lemma_more_specific_transitive(
                                    pr.routes[j].segs,
                                    pr.routes[c].segs,
                                    pr.routes[i].segs,
                                );
                            }
                        }
                        Some(c)
                    } else {
                        Some(i)
                    }
                },
            }
        }
    }
}

proof fn lemma_with_state_keeps_wf<S, S2>(pr: PathRouterView<S>, state: u64)
    requires
        pr.wf(),
    ensures
        pr.spec_with_state::<S2>(state).wf(),
        pr.spec_with_state::<S2>(state).routes.len() == pr.routes.len(),
        forall|k: int|
            0 <= k < pr.routes.len() ==> (#[trigger] pr.spec_with_state::<S2>(state).routes[k]).segs
                == pr.routes[k].segs,
{
    let q = pr.spec_with_state::<S2>(state);
    assert forall|k: int| 0 <= k < q.routes.len() implies entry_wf(#[trigger] q.routes[k]) by {
        assert(entry_wf(pr.routes[k]));
    }
    assert forall|a: int, b: int|
        0 <= a < q.routes.len() && 0 <= b < q.routes.len() && a != b implies !crate::matching::same_shape(
        #[trigger] q.routes[a].segs,
        #[trigger] q.routes[b].segs,
    ) by {
        assert(!crate::matching::same_shape(pr.routes[a].segs, pr.routes[b].segs));
    }
}

/// Supplying the state hands it to every answer that still needed one, and
/// changes nothing else: every request is answered by the same handler,
/// through the same layers, with the same captures.
pub proof fn lemma_with_state_hands_the_state<S, S2>(
    r: RouterView<S>,
    state: u64,
    m: Method,
    path: Seq<char>,
)
    requires
        r.wf(),
    ensures
        ({
            let before = r.spec_dispatch(m, path);
            r.spec_with_state::<S2>(state).spec_dispatch(m, path) == (
                before.0.spec_with_state(state),
                before.1,
            )
        }),
{
    let r2 = r.spec_with_state::<S2>(state);
    lemma_with_state_keeps_wf::<S, S2>(r.path_router, state);
    if request_segments(path) is Some {
        let req = request_segments(path)->0;
        lemma_same_segments_same_match(r.path_router, r2.path_router, req);
        if r.path_router.any_match(req) {
            let i = r.path_router.best_index(req);
            lemma_best_exists(r.path_router, req, choose|k: int| r.path_router.route_matches(k, req));
            match r.path_router.routes[i].endpoint {
                Endpoint::MethodRouter(mr) => {
                    match m {
                        Method::Get => {},
                        Method::Head => {},
                        Method::Delete => {},
                        Method::Options => {},
                        Method::Patch => {},
                        Method::Post => {},
                        Method::Put => {},
                        Method::Trace => {},
                        Method::Connect => {},
                        Method::Other => {},
                    }
                },
                Endpoint::Route(rt) => {},
            }
        }
    }
    match r.catch_all_fallback {
        crate::routing::Fallback::Default(_) => {},
        crate::routing::Fallback::Service(_) => {},
        crate::routing::Fallback::BoxedHandler(_) => {},
    }
}

/// A method-not-allowed fallback changes only the answers that came from
/// the default fallback of the method router that matched: those become
/// the handler.
pub proof fn lemma_method_not_allowed_fallback_dispatch<S>(
    r: RouterView<S>,
    handler: u64,
    m: Method,
    path: Seq<char>,
)
    requires
        r.wf(),
    ensures
        ({
            let r2 = RouterView {
                path_router: r.path_router.spec_method_not_allowed_fallback(handler),
                ..r
            };
            let before = r.spec_dispatch(m, path);
            let matched_method_router = request_segments(path) is Some && r.path_router.any_match(
                request_segments(path)->0,
            ) && r.path_router.routes[r.path_router.best_index(
                request_segments(path)->0,
            )].endpoint is MethodRouter;
            let mr = r.path_router.routes[r.path_router.best_index(
                request_segments(path)->0,
            )].endpoint->MethodRouter_0;
            r2.spec_dispatch(m, path) == (
                if matched_method_router && !mr.custom_fallback && mr.answers_with_fallback(m) {
                    Route::handler(handler)
                } else {
                    before.0
                },
                before.1,
            )
        }),
{
    let pr2 = r.path_router.spec_method_not_allowed_fallback(handler);
    lemma_map_endpoints_keeps_wf(r.path_router, EndpointChange::DefaultFallback(handler));
    if request_segments(path) is Some {
        let req = request_segments(path)->0;
        lemma_same_segments_same_match(r.path_router, pr2, req);
        if r.path_router.any_match(req) {
            let i = r.path_router.best_index(req);
            lemma_best_exists(r.path_router, req, choose|k: int| r.path_router.route_matches(k, req));
            match r.path_router.routes[i].endpoint {
                Endpoint::MethodRouter(mr) => {
                    match m {
                        Method::Get => {},
                        Method::Head => {},
                        Method::Delete => {},
                        Method::Options => {},
                        Method::Patch => {},
                        Method::Post => {},
                        Method::Put => {},
                        Method::Trace => {},
                        Method::Connect => {},
                        Method::Other => {},
                    }
                },
                Endpoint::Route(rt) => {},
            }
        }
    }
}

proof fn lemma_route_endpoint_grows<S>(pr: PathRouterView<S>, path: Seq<char>, e: Endpoint<S>)
    requires
        pr.spec_route_endpoint(path, e) is Ok,
    ensures
        ({
            let v = pr.spec_route_endpoint(path, e)->Ok_0;
            &&& v.has_path(path)
            &&& forall|q: Seq<char>| pr.has_path(q) ==> #[trigger] v.has_path(q)
            &&& v.v7_checks == pr.v7_checks
        }),
{
    let v = pr.spec_route_endpoint(path, e)->Ok_0;
    assert(v.routes[pr.routes.len() as int].path == path);
    assert forall|q: Seq<char>| pr.has_path(q) implies #[trigger] v.has_path(q) by {
        let i = choose|i: int| 0 <= i < pr.routes.len() && (#[trigger] pr.routes[i]).path == q;
        assert(v.routes[i] == pr.routes[i]);
    }
}

proof fn lemma_route_grows<S>(pr: PathRouterView<S>, path: Seq<char>, mr: MethodRouter<S>)
    requires
        pr.spec_route(path, mr) is Ok,
    ensures
        ({
            let v = pr.spec_route(path, mr)->Ok_0;
            &&& v.has_path(path)
            &&& forall|q: Seq<char>| pr.has_path(q) ==> #[trigger] v.has_path(q)
            &&& v.v7_checks == pr.v7_checks
        }),
{
    let v = pr.spec_route(path, mr)->Ok_0;
    if pr.has_method_router_at(path) {
        let i = pr.method_router_index(path);
        assert(v.routes[i].path == path);
        assert forall|q: Seq<char>| pr.has_path(q) implies #[trigger] v.has_path(q) by {
            let k = choose|k: int| 0 <= k < pr.routes.len() && (#[trigger] pr.routes[k]).path == q;
            assert(v.routes[k].path == pr.routes[k].path);
        }
    } else {
        lemma_route_endpoint_grows(pr, path, Endpoint::MethodRouter(mr));
    }
}

proof fn lemma_add_all_grows<S>(
    pr: PathRouterView<S>,
    es: Seq<EntryView<S>>,
    prefix: Option<Seq<char>>,
)
    requires
        pr.spec_add_all(es, prefix) is Ok,
    ensures
        ({
            let v = pr.spec_add_all(es, prefix)->Ok_0;
            &&& forall|q: Seq<char>| pr.has_path(q) ==> #[trigger] v.has_path(q)
            &&& forall|k: int|
                0 <= k < es.len() ==> v.has_path(
                    match prefix {
                        Some(p) => crate::path::nested_path(p, (#[trigger] es[k]).path),
                        None => es[k].path,
                    },
                )
            &&& v.v7_checks == pr.v7_checks
        }),
    decreases es.len(),
{
    if es.len() > 0 {
        let e = es[0];
        let path = match prefix {
            Some(p) => crate::path::nested_path(p, e.path),
            None => e.path,
        };
        let next = pr.spec_add_entry(e, prefix)->Ok_0;
        let endpoint = match prefix {
            Some(p) => e.endpoint.changed(EndpointChange::Strip(crate::path::prefix_depth(p) as usize)),
            None => e.endpoint,
        };
        let res = match endpoint {
            Endpoint::MethodRouter(mr) => pr.spec_route(path, mr),
            Endpoint::Route(rt) => pr.spec_route_endpoint(path, Endpoint::Route(rt)),
        };
        match endpoint {
            Endpoint::MethodRouter(mr) => lemma_route_grows(pr, path, mr),
            Endpoint::Route(rt) => lemma_route_endpoint_grows(pr, path, Endpoint::Route(rt)),
        }
        if prefix is None && e.fallback && !(e.endpoint is MethodRouter && pr.has_method_router_at(
            path,
        )) {
            lemma_with_last_flagged(res->Ok_0);
        }
        lemma_add_all_grows(next, es.drop_first(), prefix);
        let v = pr.spec_add_all(es, prefix)->Ok_0;
        assert forall|k: int| 0 <= k < es.len() implies v.has_path(
            match prefix {
                Some(p) => crate::path::nested_path(p, (#[trigger] es[k]).path),
                None => es[k].path,
            },
        ) by {
            if k > 0 {
                assert(es[k] == es.drop_first()[k - 1]);
            }
        }
    }
}

/// Merging keeps the routes of both routers: every path registered in
/// either is registered in the result. The checks for the old syntax stay
/// on if either router has them on, and the result has the default
/// fallback only if both had it.
pub proof fn lemma_merge_keeps_routes<S>(a: RouterView<S>, b: RouterView<S>)
    requires
        a.spec_merge(b) is Ok,
    ensures
        ({
            let v = a.spec_merge(b)->Ok_0;
            &&& forall|q: Seq<char>|
                a.path_router.has_path(q) || b.path_router.has_path(q)
                    ==> #[trigger] v.path_router.has_path(q)
            &&& v.path_router.v7_checks == (a.path_router.v7_checks || b.path_router.v7_checks)
            &&& v.default_fallback == (a.default_fallback && b.default_fallback)
        }),
{
    let start = PathRouterView {
        v7_checks: a.path_router.v7_checks || b.path_router.v7_checks,
        ..a.path_router
    };
    lemma_add_all_grows(start, b.path_router.routes, None);
    let v = a.spec_merge(b)->Ok_0;
    assert forall|q: Seq<char>|
        a.path_router.has_path(q) || b.path_router.has_path(q) implies #[trigger] v.path_router.has_path(q) by {
        if a.path_router.has_path(q) {
            let i = choose|i: int|
                0 <= i < a.path_router.routes.len() && (#[trigger] a.path_router.routes[i]).path
                    == q;
            assert(start.routes[i].path == q);
            assert(start.has_path(q));
        } else {
            let k = choose|k: int|
                0 <= k < b.path_router.routes.len() && (#[trigger] b.path_router.routes[k]).path
                    == q;
            assert(b.path_router.routes[k].path == q);
        }
    }
}

/// Nesting keeps the routes of the outer router, and registers each route
/// of the nested one at its path under the prefix. The checks for the old
/// syntax of the outer router do not change.
pub proof fn lemma_nest_keeps_routes<S>(a: RouterView<S>, prefix: Seq<char>, b: RouterView<S>)
    requires
        a.spec_nest(prefix, b) is Ok,
    ensures
        ({
            let v = a.spec_nest(prefix, b)->Ok_0;
            &&& forall|q: Seq<char>| a.path_router.has_path(q) ==> #[trigger] v.path_router.has_path(q)
            &&& forall|q: Seq<char>|
                b.path_router.has_path(q) ==> v.path_router.has_path(
                    #[trigger] crate::path::nested_path(prefix, q),
                )
            &&& v.path_router.v7_checks == a.path_router.v7_checks
            &&& v.default_fallback == a.default_fallback
            &&& v.catch_all_fallback == a.catch_all_fallback
        }),
{
    lemma_add_all_grows(a.path_router, b.path_router.routes, Some(prefix));
    let v = a.spec_nest(prefix, b)->Ok_0;
    assert forall|q: Seq<char>| b.path_router.has_path(q) implies v.path_router.has_path(
        #[trigger] crate::path::nested_path(prefix, q),
    ) by {
        let k = choose|k: int|
            0 <= k < b.path_router.routes.len() && (#[trigger] b.path_router.routes[k]).path == q;
        assert(b.path_router.routes[k].path == q);
    }
}

/// After `reset_fallback`, merging is refused only for the routes: the
/// routes of the fallback are gone, and the result takes the fallback of
/// the other router.
pub proof fn lemma_reset_fallback_then_merge<S>(a: RouterView<S>, b: RouterView<S>)
    ensures
        a.spec_reset_fallback().spec_merge(b) == match a.path_router.without_fallback_routes().spec_merge(
            b.path_router,
        ) {
            Ok(pr) => Ok(
                RouterView {
                    path_router: pr,
                    default_fallback: b.default_fallback,
                    catch_all_fallback: b.catch_all_fallback,
                },
            ),
            Err(e) => Err::<RouterView<S>, RouteError>(e),
        },
{
}

/// Registering a route of the fallback adds one route that `reset_fallback`
/// removes again.
proof fn lemma_user_routes_of_fallback_route<S>(pr: PathRouterView<S>, path: Seq<char>, ep: Endpoint<S>)
    ensures
        user_routes(crate::routing::route_fallback_or_keep(pr, path, ep).routes) == user_routes(
            pr.routes,
        ),
{
    if pr.spec_route_endpoint(path, ep) is Ok {
        let v = pr.spec_route_endpoint(path, ep)->Ok_0;
        let w = v.with_last_flagged();
        assert(w.routes.drop_last() =~= pr.routes);
    }
}

/// `reset_fallback` undoes `fallback`: a router with the default fallback,
/// none of whose routes a fallback registered, is given back as it was.
pub proof fn lemma_reset_fallback_undoes_fallback<S>(r: RouterView<S>, h: u64)
    requires
        r.wf(),
        r.catch_all_fallback == crate::routing::Fallback::<S>::Default(Route::plain(Target::NotFound)),
        forall|k: int| 0 <= k < r.path_router.routes.len() ==> !(#[trigger] r.path_router.routes[k]).fallback,
    ensures
        r.spec_fallback(h).spec_reset_fallback() == r,
{
    let ep = Endpoint::MethodRouter(crate::method_routing::spec_any::<S>(h));
    let pr0 = r.path_router;
    let pr1 = crate::routing::route_fallback_or_keep(pr0, seq!['/'], ep);
    let pr2 = crate::routing::route_fallback_or_keep(pr1, crate::routing::FALLBACK_PARAM_PATH@, ep);
    lemma_user_routes_of_fallback_route(pr0, seq!['/'], ep);
    lemma_user_routes_of_fallback_route(pr1, crate::routing::FALLBACK_PARAM_PATH@, ep);
    lemma_user_routes_all(pr0.routes);
    assert(pr2.v7_checks == pr0.v7_checks);
    assert(r.spec_fallback(h).spec_reset_fallback().path_router =~= pr0);
}

/// `reset_fallback` undoes `fallback_service` in the same way.
pub proof fn lemma_reset_fallback_undoes_fallback_service<S>(r: RouterView<S>, service: u64)
    requires
        r.wf(),
        r.catch_all_fallback == crate::routing::Fallback::<S>::Default(Route::plain(Target::NotFound)),
        forall|k: int| 0 <= k < r.path_router.routes.len() ==> !(#[trigger] r.path_router.routes[k]).fallback,
    ensures
        r.spec_fallback_service(service).spec_reset_fallback() == r,
{
    let ep = Endpoint::<S>::Route(Route::plain(Target::Handler(service)));
    let pr0 = r.path_router;
    let pr1 = crate::routing::route_fallback_or_keep(pr0, seq!['/'], ep);
    let pr2 = crate::routing::route_fallback_or_keep(pr1, crate::routing::FALLBACK_PARAM_PATH@, ep);
    lemma_user_routes_of_fallback_route(pr0, seq!['/'], ep);
    lemma_user_routes_of_fallback_route(pr1, crate::routing::FALLBACK_PARAM_PATH@, ep);
    lemma_user_routes_all(pr0.routes);
    assert(pr2.v7_checks == pr0.v7_checks);
    assert(r.spec_fallback_service(service).spec_reset_fallback().path_router =~= pr0);
}

/// Two routers that both have a fallback of their own cannot be merged.
pub proof fn lemma_merge_two_fallbacks_refused<S>(a: RouterView<S>, b: RouterView<S>)
    requires
        !a.default_fallback,
        !b.default_fallback,
    ensures
        a.spec_merge(b) == Err::<RouterView<S>, RouteError>(RouteError::MergeFallbacks),
{
}

proof fn lemma_fallback_path_parses()
    ensures
        crate::routing::FALLBACK_PARAM_PATH@.len() > 0,
        crate::routing::FALLBACK_PARAM_PATH@[0] == '/',
        crate::path::validate_path(true, crate::routing::FALLBACK_PARAM_PATH@) is None,
        parse_pattern(crate::routing::FALLBACK_PARAM_PATH@) is Some,
        parse_pattern(crate::routing::FALLBACK_PARAM_PATH@)->0.len() == 1,
        parse_pattern(crate::routing::FALLBACK_PARAM_PATH@)->0[0] is Wildcard,
{
    reveal_strlit("/{*__private__axum_fallback}");
    let p = crate::routing::FALLBACK_PARAM_PATH@;
    assert(p == "/{*__private__axum_fallback}"@);
    assert(p.len() == 28);
    let body = p.drop_first();
    assert(body.len() == 27);
    assert(body[0] == '{');
    assert(body[1] == '*');
    assert(body[26] == '}');
    let name = body.subrange(2, 26);
    assert(crate::path::no_braces(name));
    assert(forall|i: int| 0 <= i < body.len() ==> body[i] != '/');
    crate::path::lemma_split_no_slash(body);
    let segs = split_slash(body);
    assert(segs == seq![body]);
    assert(parse_segment(segs[0]) == Some(PatSeg::Wildcard(name)));
    assert(crate::path::segments_valid(segs));
    assert(p =~= seq!['/'] + body);
    crate::path::lemma_split_after_slash(body);
    let all = split_slash(p);
    assert(all == seq![Seq::<char>::empty(), body]);
    assert(all.drop_first() =~= seq![body]);
    assert(all.drop_first().drop_first() =~= Seq::<Seq<char>>::empty());
    assert(crate::path::v07_error(all.drop_first().drop_first()) is None);
    assert(crate::path::v07_error(all.drop_first()) is None);
    assert(crate::path::v07_error(all) is None);
}

proof fn lemma_root_path_parses()
    ensures
        crate::path::validate_path(true, seq!['/']) is None,
        parse_pattern(seq!['/']) == Some(seq![PatSeg::Static(Seq::<char>::empty())]),
{
    let p = seq!['/'];
    crate::path::lemma_split_after_slash(Seq::<char>::empty());
    assert(seq!['/'] + Seq::<char>::empty() =~= p);
    let all = split_slash(p);
    assert(split_slash(Seq::<char>::empty()) == seq![Seq::<char>::empty()]);
    assert(all =~= seq![Seq::<char>::empty(), Seq::<char>::empty()]);
    assert(all.drop_first() =~= seq![Seq::<char>::empty()]);
    assert(all.drop_first().drop_first() =~= Seq::<Seq<char>>::empty());
    assert(crate::path::v07_error(all.drop_first().drop_first()) is None);
    assert(crate::path::v07_error(all.drop_first()) is None);
    assert(crate::path::v07_error(all) is None);
    assert(p.drop_first() =~= Seq::<char>::empty());
    let segs = split_slash(p.drop_first());
    assert(parse_segment(Seq::<char>::empty()) == Some(PatSeg::Static(Seq::<char>::empty())));
    assert(crate::path::segments_valid(segs));
    assert(segs.map_values(|s: Seq<char>| parse_segment(s)->0) =~= seq![
        PatSeg::Static(Seq::<char>::empty()),
    ]);
}

/// Joining the segments of a text gives the text back.
pub proof fn lemma_join_split(s: Seq<char>)
    ensures
        crate::matching::join_slash(split_slash(s)) == s,
    decreases s.len(),
{
    if s.len() > 0 {
        lemma_join_split(s.drop_last());
        crate::path::lemma_split_slash_nonempty(s.drop_last());
        let p = split_slash(s.drop_last());
        if s.last() == '/' {
            let q = p.push(Seq::<char>::empty());
            assert(q.drop_last() =~= p);
            assert(crate::matching::join_slash(q) =~= s);
        } else {
            let q = p.update(p.len() - 1, p.last().push(s.last()));
            assert(s.drop_last().push(s.last()) =~= s);
            if p.len() == 1 {
                assert(q.len() == 1);
                assert(q[0] == p[0].push(s.last()));
                assert(crate::matching::join_slash(p) == p[0]);
                assert(crate::matching::join_slash(q) == q[0]);
                assert(crate::matching::join_slash(q) =~= s);
            } else {
                assert(q.drop_last() =~= p.drop_last());
                assert(crate::matching::join_slash(q) =~= s);
            }
        }
    }
}

/// Two patterns of the same shape match the same request paths.
pub proof fn lemma_same_shape_matches(a: Seq<PatSeg>, b: Seq<PatSeg>, req: Seq<Seq<char>>)
    requires
        crate::matching::same_shape(a, b),
        pattern_matches(b, req),
    ensures
        pattern_matches(a, req),
    decreases a.len(),
{
    if a.len() > 0 {
        assert(crate::matching::seg_same_shape(a[0], b[0]));
        assert(crate::matching::same_shape(a.drop_first(), b.drop_first())) by {
            assert forall|i: int| 0 <= i < a.drop_first().len() implies crate::matching::seg_same_shape(
                #[trigger] a.drop_first()[i],
                b.drop_first()[i],
            ) by {
                assert(crate::matching::seg_same_shape(a[i + 1], b[i + 1]));
            }
        }
        match (a[0], b[0]) {
            (PatSeg::Wildcard(_), PatSeg::Wildcard(_)) => {},
            _ => {
                lemma_same_shape_matches(a.drop_first(), b.drop_first(), req.drop_first());
            },
        }
    }
}

/// Registering a new route keeps a table well formed.
pub proof fn lemma_route_endpoint_keeps_wf<S>(pr: PathRouterView<S>, path: Seq<char>, e: Endpoint<S>)
    requires
        pr.wf(),
        pr.spec_route_endpoint(path, e) is Ok,
    ensures
        pr.spec_route_endpoint(path, e)->Ok_0.wf(),
{
    let pr2 = pr.spec_route_endpoint(path, e)->Ok_0;
    let segs = parse_pattern(path)->0;
    assert forall|a: int, b: int|
        0 <= a < pr2.routes.len() && 0 <= b < pr2.routes.len() && a != b implies !crate::matching::same_shape(
        #[trigger] pr2.routes[a].segs,
        #[trigger] pr2.routes[b].segs,
    ) by {
        if a == pr.routes.len() {
            assert(!crate::matching::same_shape(pr.routes[b].segs, segs));
            if crate::matching::same_shape(segs, pr.routes[b].segs) {
                crate::path_router::lemma_same_shape_symmetric(segs, pr.routes[b].segs);
            }
        } else if b == pr.routes.len() {
            assert(!crate::matching::same_shape(pr.routes[a].segs, segs));
        }
    }
}

/// The routes of a fallback catch every request that no route of the table
/// matched: the route that the request reaches holds the fallback's endpoint.
proof fn lemma_fallback_routes_catch_unmatched<S>(
    pr0: PathRouterView<S>,
    ep: Endpoint<S>,
    path: Seq<char>,
)
    requires
        pr0.wf(),
        !(request_segments(path) is Some && pr0.any_match(request_segments(path)->0)),
    ensures
        ({
            let pr2 = crate::routing::route_fallback_or_keep(
                crate::routing::route_fallback_or_keep(pr0, seq!['/'], ep),
                crate::routing::FALLBACK_PARAM_PATH@,
                ep,
            );
            &&& pr2.wf()
            &&& request_segments(path) is Some ==> pr2.any_match(request_segments(path)->0)
                && pr2.routes[pr2.best_index(request_segments(path)->0)].endpoint == ep
        }),
{
    let pr1 = crate::routing::route_fallback_or_keep(pr0, seq!['/'], ep);
    let fpp = crate::routing::FALLBACK_PARAM_PATH@;
    let pr2 = crate::routing::route_fallback_or_keep(pr1, fpp, ep);
    assert(pr1.wf()) by {
        if pr0.spec_route_endpoint(seq!['/'], ep) is Ok {
            lemma_route_endpoint_keeps_wf(pr0, seq!['/'], ep);
            lemma_route_endpoint_grows(pr0, seq!['/'], ep);
            lemma_with_last_flagged(pr0.spec_route_endpoint(seq!['/'], ep)->Ok_0);
        }
    }
    assert(pr2.wf()) by {
        if pr1.spec_route_endpoint(fpp, ep) is Ok {
            lemma_route_endpoint_keeps_wf(pr1, fpp, ep);
            lemma_route_endpoint_grows(pr1, fpp, ep);
            lemma_with_last_flagged(pr1.spec_route_endpoint(fpp, ep)->Ok_0);
        }
    }
    if request_segments(path) is Some {
        let req = request_segments(path)->0;
        let body = path.drop_first();
        lemma_join_split(body);
        crate::path::lemma_split_slash_nonempty(body);
        lemma_root_path_parses();
        lemma_fallback_path_parses();
        let root_segs = seq![PatSeg::Static(Seq::<char>::empty())];
        let wild = parse_pattern(fpp)->0;
        if body.len() == 0 {
            assert(body =~= Seq::<char>::empty());
            assert(req == seq![Seq::<char>::empty()]);
            assert(root_segs.drop_first() =~= Seq::<PatSeg>::empty());
            assert(req.drop_first() =~= Seq::<Seq<char>>::empty());
            assert(pattern_matches(root_segs.drop_first(), req.drop_first()));
            assert(pattern_matches(root_segs, req));
            assert(pr0.spec_route_endpoint(seq!['/'], ep) is Ok) by {
                if exists|i: int|
                    0 <= i < pr0.routes.len() && crate::matching::same_shape(
                        (#[trigger] pr0.routes[i]).segs,
                        root_segs,
                    ) {
                    let i = choose|i: int|
                        0 <= i < pr0.routes.len() && crate::matching::same_shape(
                            (#[trigger] pr0.routes[i]).segs,
                            root_segs,
                        );
                    lemma_same_shape_matches(pr0.routes[i].segs, root_segs, req);
                    assert(pr0.route_matches(i, req));
                }
            }
            let i = pr0.routes.len() as int;
            assert(pr1.routes[i].segs == root_segs);
            assert(pr2.routes[i] == pr1.routes[i]);
            assert(all_static(root_segs));
            lemma_static_route_wins(pr2, i, req);
        } else {
            assert(req != seq![Seq::<char>::empty()]) by {
                if req == seq![Seq::<char>::empty()] {
                    assert(crate::matching::join_slash(req) == Seq::<char>::empty());
                }
            }
            assert(crate::matching::join_slash(req).len() > 0);
            assert(pattern_matches(wild, req));
            assert(!pattern_matches(root_segs, req)) by {
                assert(root_segs.drop_first() =~= Seq::<PatSeg>::empty());
                if pattern_matches(root_segs, req) {
                    assert(pattern_matches(root_segs.drop_first(), req.drop_first()));
                    assert(req.drop_first().len() == 0);
                    assert(req =~= seq![Seq::<char>::empty()]);
                }
            }
            assert forall|k: int| 0 <= k < pr1.routes.len() implies !pr1.route_matches(k, req) by {
                if k < pr0.routes.len() {
                    assert(pr1.routes[k] == pr0.routes[k]);
                    assert(!pr0.route_matches(k, req));
                } else {
                    assert(pr1.routes[k].segs == root_segs);
                }
            }
            assert(pr1.spec_route_endpoint(fpp, ep) is Ok) by {
                if exists|i: int|
                    0 <= i < pr1.routes.len() && crate::matching::same_shape(
                        (#[trigger] pr1.routes[i]).segs,
                        wild,
                    ) {
                    let i = choose|i: int|
                        0 <= i < pr1.routes.len() && crate::matching::same_shape(
                            (#[trigger] pr1.routes[i]).segs,
                            wild,
                        );
                    lemma_same_shape_matches(pr1.routes[i].segs, wild, req);
                    assert(pr1.route_matches(i, req));
                }
            }
            let w = pr1.routes.len() as int;
            assert(pr2.routes[w].segs == wild);
            assert(pr2.route_matches(w, req));
            assert forall|j: int|
                #![trigger pr2.routes[j]]
                pr2.route_matches(j, req) implies j == w by {
                if j < w {
                    assert(pr2.routes[j] == pr1.routes[j]);
                    assert(!pr1.route_matches(j, req));
                }
            }
            crate::matching::lemma_more_specific_irreflexive(wild);
            assert(pr2.is_best_match(w, req));
            lemma_best_match_unique(pr2, req, w, pr2.best_index(req));
        }
    }
}

/// A fallback answers every request that no route of the router matched:
/// whatever its method and path, the request reaches the fallback handler.
pub proof fn lemma_fallback_answers_unmatched<S>(r: RouterView<S>, h: u64, m: Method, path: Seq<char>)
    requires
        r.wf(),
        !(request_segments(path) is Some && r.path_router.any_match(request_segments(path)->0)),
    ensures
        r.spec_fallback(h).spec_dispatch(m, path).0 == Route::handler(h),
{
    let ep = Endpoint::MethodRouter(crate::method_routing::spec_any::<S>(h));
    lemma_fallback_routes_catch_unmatched(r.path_router, ep, path);
    assert(crate::method_routing::spec_any::<S>(h).route_for(m) == Route::handler(h));
}

/// A fallback service answers every request that no route of the router
/// matched, whatever its method and path.
pub proof fn lemma_fallback_service_answers_unmatched<S>(
    r: RouterView<S>,
    service: u64,
    m: Method,
    path: Seq<char>,
)
    requires
        r.wf(),
        !(request_segments(path) is Some && r.path_router.any_match(request_segments(path)->0)),
    ensures
        r.spec_fallback_service(service).spec_dispatch(m, path).0 == Route::plain(
            Target::Handler(service),
        ),
{
    let ep = Endpoint::<S>::Route(Route::plain(Target::Handler(service)));
    lemma_fallback_routes_catch_unmatched(r.path_router, ep, path);
}

/// Changing every endpoint of a well-formed table keeps it well formed.
pub proof fn lemma_map_endpoints_keeps_wf<S>(pr: PathRouterView<S>, c: EndpointChange)
    requires
        pr.wf(),
    ensures
        pr.spec_map_endpoints(c).wf(),
        pr.spec_map_endpoints(c).routes.len() == pr.routes.len(),
        forall|k: int|
            0 <= k < pr.routes.len() ==> (#[trigger] pr.spec_map_endpoints(c).routes[k]).segs
                == pr.routes[k].segs,
{
    let pr2 = pr.spec_map_endpoints(c);
    assert forall|k: int| 0 <= k < pr2.routes.len() implies entry_wf(#[trigger] pr2.routes[k]) by {
        assert(entry_wf(pr.routes[k]));
    }
    assert forall|a: int, b: int|
        0 <= a < pr2.routes.len() && 0 <= b < pr2.routes.len() && a != b implies !crate::matching::same_shape(
        #[trigger] pr2.routes[a].segs,
        #[trigger] pr2.routes[b].segs,
    ) by {
        assert(!crate::matching::same_shape(pr.routes[a].segs, pr.routes[b].segs));
    }
}

/// Wrapping an endpoint in a layer wraps what it answers with, whatever the method.
pub proof fn lemma_endpoint_layer_route_for<S>(e: Endpoint<S>, l: u64, m: Method)
    ensures
        e.spec_layer(l).route_for(m) == e.route_for(m).spec_layer(l),
{
    match e {
        Endpoint::MethodRouter(mr) => {
            match m {
                Method::Get => {},
                Method::Head => {},
                Method::Delete => {},
                Method::Options => {},
                Method::Patch => {},
                Method::Post => {},
                Method::Put => {},
                Method::Trace => {},
                Method::Connect => {},
                Method::Other => {},
            }
        },
        Endpoint::Route(rt) => {},
    }
}

/// A layer wraps every answer of the router: whatever the request, it
/// reaches the same service as before, now wrapped in the layer, with the
/// same captures; the fallback's answers included.
pub proof fn lemma_layer_wraps_every_answer<S>(r: RouterView<S>, l: u64, m: Method, path: Seq<char>)
    requires
        r.wf(),
    ensures
        ({
            let before = r.spec_dispatch(m, path);
            r.spec_layer(l).spec_dispatch(m, path) == (before.0.spec_layer(l), before.1)
        }),
{
    let pr2 = r.path_router.spec_layer(l);
    lemma_map_endpoints_keeps_wf(r.path_router, EndpointChange::Layer(l));
    if request_segments(path) is Some {
        let req = request_segments(path)->0;
        lemma_same_segments_same_match(r.path_router, pr2, req);
        if r.path_router.any_match(req) {
            let i = r.path_router.best_index(req);
            lemma_best_exists(r.path_router, req, choose|k: int| r.path_router.route_matches(k, req));
            lemma_endpoint_layer_route_for(r.path_router.routes[i].endpoint, l, m);
        }
    }
    match r.catch_all_fallback {
        crate::routing::Fallback::Default(_) => {},
        crate::routing::Fallback::Service(_) => {},
        crate::routing::Fallback::BoxedHandler(_) => {},
    }
}

/// A route layer wraps the answers of the routes that match, and leaves the
/// fallback's answer to the requests that no route matches as it was.
pub proof fn lemma_route_layer_wraps_matched_answers<S>(
    r: RouterView<S>,
    l: u64,
    m: Method,
    path: Seq<char>,
)
    requires
        r.wf(),
    ensures
        ({
            let before = r.spec_dispatch(m, path);
            let matched = request_segments(path) is Some && r.path_router.any_match(
                request_segments(path)->0,
            );
            r.spec_route_layer(l).spec_dispatch(m, path) == (
                if matched {
                    before.0.spec_layer(l)
                } else {
                    before.0
                },
                before.1,
            )
        }),
{
    let pr2 = r.path_router.spec_layer(l);
    lemma_map_endpoints_keeps_wf(r.path_router, EndpointChange::Layer(l));
    if request_segments(path) is Some {
        let req = request_segments(path)->0;
        lemma_same_segments_same_match(r.path_router, pr2, req);
        if r.path_router.any_match(req) {
            let i = r.path_router.best_index(req);
            lemma_best_exists(r.path_router, req, choose|k: int| r.path_router.route_matches(k, req));
            lemma_endpoint_layer_route_for(r.path_router.routes[i].endpoint, l, m);
        }
    }
}

/// A route registered after a layer is not wrapped in it: a request to its
/// path (of static segments), with a method that its method router
/// handles, reaches that service as registered.
pub proof fn lemma_route_after_layer_unwrapped<S>(
    r: RouterView<S>,
    l: u64,
    path: Seq<char>,
    mr: MethodRouter<S>,
    m: Method,
    rt: Route,
)
    requires
        r.wf(),
        r.spec_layer(l).spec_route(path, mr) is Ok,
        parse_pattern(path) is Some,
        all_static(parse_pattern(path)->0),
        mr.handler(m) == Some(rt),
    ensures
        r.spec_layer(l).spec_route(path, mr)->Ok_0.spec_dispatch(m, path) == (
            rt,
            Seq::<(Seq<char>, Seq<char>)>::empty(),
        ),
{
    lemma_map_endpoints_keeps_wf(r.path_router, EndpointChange::Layer(l));
    match r.catch_all_fallback {
        crate::routing::Fallback::Default(_) => {},
        crate::routing::Fallback::Service(_) => {},
        crate::routing::Fallback::BoxedHandler(_) => {},
    }
    assert(r.spec_layer(l).wf());
    lemma_route_then_dispatch(r.spec_layer(l), path, mr, m, rt);
}

/// The merged router refuses the old syntax (segments that start with `:`
/// or `*`) unless both routers had turned those checks off; where both had,
/// no route is refused for it.
pub proof fn lemma_merge_keeps_old_syntax_checks<S>(
    a: RouterView<S>,
    b: RouterView<S>,
    path: Seq<char>,
    mr: MethodRouter<S>,
)
    requires
        a.spec_merge(b) is Ok,
    ensures
        ({
            let v = a.spec_merge(b)->Ok_0;
            let checks = a.path_router.v7_checks || b.path_router.v7_checks;
            &&& v.path_router.v7_checks == checks
            &&& crate::path::validate_path(checks, path) is Some ==> v.spec_route(path, mr) == Err::<
                RouterView<S>,
                RouteError,
            >(crate::path::validate_path(checks, path)->0)
            &&& !checks ==> v.spec_route(path, mr) != Err::<RouterView<S>, RouteError>(
                RouteError::ColonSegment,
            ) && v.spec_route(path, mr) != Err::<RouterView<S>, RouteError>(
                RouteError::AsteriskSegment,
            )
        }),
{
    lemma_merge_keeps_routes(a, b);
    let v = a.spec_merge(b)->Ok_0;
    let pr = v.path_router;
    if pr.has_method_router_at(path) {
        let i = pr.method_router_index(path);
        let old_mr = pr.routes[i].endpoint->MethodRouter_0;
        assert(old_mr.spec_merge(mr) is Err ==> (old_mr.spec_merge(mr)->Err_0
            == RouteError::OverlappingMethod || old_mr.spec_merge(mr)->Err_0
            == RouteError::OverlappingMethodFallback));
    }
}

/// The routes of a fallback leave alone the route that a request other than
/// `/` reaches, where a route of the table matched it.
proof fn lemma_fallback_routes_keep_matched<S>(pr0: PathRouterView<S>, ep: Endpoint<S>, path: Seq<char>)
    requires
        pr0.wf(),
        request_segments(path) is Some,
        pr0.any_match(request_segments(path)->0),
        path != seq!['/'],
    ensures
        ({
            let req = request_segments(path)->0;
            let pr2 = crate::routing::route_fallback_or_keep(
                crate::routing::route_fallback_or_keep(pr0, seq!['/'], ep),
                crate::routing::FALLBACK_PARAM_PATH@,
                ep,
            );
            let i = pr0.best_index(req);
            &&& pr2.any_match(req)
            &&& pr2.best_index(req) == i
            &&& 0 <= i < pr0.routes.len()
            &&& pr2.routes[i].segs == pr0.routes[i].segs
            &&& pr2.routes[i].endpoint == pr0.routes[i].endpoint
        }),
{
    let pr1 = crate::routing::route_fallback_or_keep(pr0, seq!['/'], ep);
    let fpp = crate::routing::FALLBACK_PARAM_PATH@;
    let pr2 = crate::routing::route_fallback_or_keep(pr1, fpp, ep);
    let req = request_segments(path)->0;
    let root_segs = seq![PatSeg::Static(Seq::<char>::empty())];
    lemma_root_path_parses();
    lemma_fallback_path_parses();
    let wild = parse_pattern(fpp)->0;
    assert(pr1.wf()) by {
        if pr0.spec_route_endpoint(seq!['/'], ep) is Ok {
            lemma_route_endpoint_keeps_wf(pr0, seq!['/'], ep);
            lemma_route_endpoint_grows(pr0, seq!['/'], ep);
            lemma_with_last_flagged(pr0.spec_route_endpoint(seq!['/'], ep)->Ok_0);
        }
    }
    assert(pr2.wf()) by {
        if pr1.spec_route_endpoint(fpp, ep) is Ok {
            lemma_route_endpoint_keeps_wf(pr1, fpp, ep);
            lemma_route_endpoint_grows(pr1, fpp, ep);
            lemma_with_last_flagged(pr1.spec_route_endpoint(fpp, ep)->Ok_0);
        }
    }
    let i = pr0.best_index(req);
    lemma_best_exists(pr0, req, choose|k: int| pr0.route_matches(k, req));
    // The routes of the router stay where they were.
    assert forall|k: int| 0 <= k < pr0.routes.len() implies #[trigger] pr2.routes[k].segs
        == pr0.routes[k].segs && pr2.routes[k].endpoint == pr0.routes[k].endpoint by {
        assert(pr1.routes[k].segs == pr0.routes[k].segs);
        assert(pr1.routes[k].endpoint == pr0.routes[k].endpoint);
    }
    // The root route of the fallback does not match: the path is not `/`.
    assert(!pattern_matches(root_segs, req)) by {
        if pattern_matches(root_segs, req) {
            assert(root_segs.drop_first() =~= Seq::<PatSeg>::empty());
            assert(pattern_matches(root_segs.drop_first(), req.drop_first()));
            assert(req =~= seq![Seq::<char>::empty()]);
            let body = path.drop_first();
            lemma_join_split(body);
            assert(crate::matching::join_slash(req) == Seq::<char>::empty());
            assert(body =~= Seq::<char>::empty());
            assert(path =~= seq!['/']);
        }
    }
    assert(pr2.is_best_match(i, req)) by {
        assert(pr2.route_matches(i, req));
        assert forall|j: int|
            #![trigger pr2.routes[j]]
            pr2.route_matches(j, req) implies !more_specific(pr2.routes[j].segs, pr2.routes[i].segs) by {
            if j < pr0.routes.len() {
                assert(pr0.route_matches(j, req));
            } else if j < pr1.routes.len() {
                assert(pr2.routes[j].segs == pr1.routes[j].segs);
                assert(pr1.routes[j].segs == root_segs);
            } else {
                assert(pr2.routes[j].segs == wild);
                // The wildcard route was added, so no route of the router is
                // a wildcard at the root: every one outranks it.
                assert(!crate::matching::same_shape(pr1.routes[i].segs, wild));
                assert(pr1.routes[i].segs == pr0.routes[i].segs);
                assert(pr0.routes[i].segs.len() > 0) by {
                    if pr0.routes[i].segs.len() == 0 {
                        assert(!pattern_matches(pr0.routes[i].segs, req));
                    }
                }
                if pr0.routes[i].segs[0] is Wildcard {
                    assert(pr0.routes[i].segs.len() == 1);
                    assert(crate::matching::same_shape(pr0.routes[i].segs, wild));
                }
            }
        }
    }
    lemma_best_match_unique(pr2, req, i, pr2.best_index(req));
}

/// A fallback leaves alone the answer to every request that a route of the
/// router matched, except a request to `/` itself: there the fallback's
/// own route at `/` (registered where no route has that exact path) outranks
/// a capture that matches the empty segment.
pub proof fn lemma_fallback_keeps_matched_answers<S>(
    r: RouterView<S>,
    h: u64,
    m: Method,
    path: Seq<char>,
)
    requires
        r.wf(),
        request_segments(path) is Some,
        r.path_router.any_match(request_segments(path)->0),
        path != seq!['/'],
    ensures
        r.spec_fallback(h).spec_dispatch(m, path) == r.spec_dispatch(m, path),
{
    let ep = Endpoint::MethodRouter(crate::method_routing::spec_any::<S>(h));
    lemma_fallback_routes_keep_matched(r.path_router, ep, path);
}

/// A fallback service leaves alone the answer to every request that a route
/// of the router matched, except a request to `/` itself, as a fallback
/// handler does.
pub proof fn lemma_fallback_service_keeps_matched_answers<S>(
    r: RouterView<S>,
    service: u64,
    m: Method,
    path: Seq<char>,
)
    requires
        r.wf(),
        request_segments(path) is Some,
        r.path_router.any_match(request_segments(path)->0),
        path != seq!['/'],
    ensures
        r.spec_fallback_service(service).spec_dispatch(m, path) == r.spec_dispatch(m, path),
{
    let ep = Endpoint::<S>::Route(Route::plain(Target::Handler(service)));
    lemma_fallback_routes_keep_matched(r.path_router, ep, path);
}

/// A handler fallback that is given the state answers as it answers when
/// the state comes with the request: supplying the state first and calling
/// afterwards is the same as calling with the state.
pub proof fn lemma_fallback_with_state_then_call<S, S2>(f: crate::routing::Fallback<S>, state: u64)
    ensures
        f.spec_with_state::<S2>(state).spec_route() == f.spec_route().spec_with_state(state),
{
}

/// Where a table changes only in routes that do not match `req` (and adds
/// only such routes), the request reaches the same route, at the same place.
proof fn lemma_unmatched_changes_keep_best<S>(
    pr: PathRouterView<S>,
    pr2: PathRouterView<S>,
    req: Seq<Seq<char>>,
)
    requires
        pr.wf(),
        pr2.wf(),
        pr2.routes.len() >= pr.routes.len(),
        forall|k: int|
            0 <= k < pr.routes.len() ==> (#[trigger] pr2.routes[k]).segs == pr.routes[k].segs
                && (pattern_matches(pr.routes[k].segs, req) ==> pr2.routes[k] == pr.routes[k]),
        forall|k: int|
            pr.routes.len() <= k < pr2.routes.len() ==> !pattern_matches(
                (#[trigger] pr2.routes[k]).segs,
                req,
            ),
    ensures
        pr2.any_match(req) == pr.any_match(req),
        pr.any_match(req) ==> pr2.best_index(req) == pr.best_index(req) && pr2.routes[pr.best_index(
            req,
        )] == pr.routes[pr.best_index(req)],
{
    assert forall|k: int| #[trigger] pr2.route_matches(k, req) ==> pr.route_matches(k, req) by {
        if pr2.route_matches(k, req) && k >= pr.routes.len() {
            assert(!pattern_matches(pr2.routes[k].segs, req));
        }
    }
    assert forall|k: int| #[trigger] pr.route_matches(k, req) ==> pr2.route_matches(k, req) by {
        if pr.route_matches(k, req) {
            assert(pr2.routes[k].segs == pr.routes[k].segs);
        }
    }
    if pr.any_match(req) {
        let i = pr.best_index(req);
        lemma_best_exists(pr, req, choose|k: int| pr.route_matches(k, req));
        assert(pr2.routes[i] == pr.routes[i]);
        assert(pr2.is_best_match(i, req)) by {
            assert(pr2.route_matches(i, req));
            assert forall|j: int|
                #![trigger pr2.routes[j]]
                pr2.route_matches(j, req) implies !more_specific(pr2.routes[j].segs, pr2.routes[i].segs) by {
                assert(pr.route_matches(j, req));
                assert(pr2.routes[j].segs == pr.routes[j].segs);
            }
        }
        lemma_best_match_unique(pr2, req, i, pr2.best_index(req));
    } else {
        if pr2.any_match(req) {
            let k = choose|k: int| pr2.route_matches(k, req);
            assert(pr.route_matches(k, req));
        }
    }
}

/// Registering a route leaves alone the answer to every request that its
/// pattern does not match: another route, or the fallback, answers it as
/// before.
pub proof fn lemma_route_keeps_other_answers<S>(
    r: RouterView<S>,
    path: Seq<char>,
    mr: MethodRouter<S>,
    m: Method,
    req_path: Seq<char>,
)
    requires
        r.wf(),
        r.spec_route(path, mr) is Ok,
        request_segments(req_path) is Some ==> !pattern_matches(
            parse_pattern(path)->0,
            request_segments(req_path)->0,
        ),
    ensures
        r.spec_route(path, mr)->Ok_0.spec_dispatch(m, req_path) == r.spec_dispatch(m, req_path),
{
    let pr = r.path_router;
    let pr2 = r.spec_route(path, mr)->Ok_0.path_router;
    lemma_route_keeps_wf(pr, path, mr);
    if request_segments(req_path) is Some {
        let req = request_segments(req_path)->0;
        if pr.has_method_router_at(path) {
            let i = pr.method_router_index(path);
            assert(entry_wf(pr.routes[i]));
            assert forall|k: int| 0 <= k < pr.routes.len() implies (#[trigger] pr2.routes[k]).segs
                == pr.routes[k].segs && (pattern_matches(pr.routes[k].segs, req) ==> pr2.routes[k]
                == pr.routes[k]) by {
                if k == i {
                    assert(pr.routes[i].segs == parse_pattern(path)->0);
                }
            }
        } else {
            assert forall|k: int| 0 <= k < pr.routes.len() implies (#[trigger] pr2.routes[k]).segs
                == pr.routes[k].segs && (pattern_matches(pr.routes[k].segs, req) ==> pr2.routes[k]
                == pr.routes[k]) by {
                assert(pr2.routes[k] == pr.routes[k]);
            }
            assert forall|k: int| pr.routes.len() <= k < pr2.routes.len() implies !pattern_matches(
                (#[trigger] pr2.routes[k]).segs,
                req,
            ) by {
                assert(pr2.routes[k].segs == parse_pattern(path)->0);
            }
        }
        lemma_unmatched_changes_keep_best(pr, pr2, req);
    }
}

/// Registering a service leaves alone the answer to every request that its
/// pattern does not match.
pub proof fn lemma_route_service_keeps_other_answers<S>(
    r: RouterView<S>,
    path: Seq<char>,
    service: u64,
    m: Method,
    req_path: Seq<char>,
)
    requires
        r.wf(),
        r.spec_route_service(path, service) is Ok,
        request_segments(req_path) is Some ==> !pattern_matches(
            parse_pattern(path)->0,
            request_segments(req_path)->0,
        ),
    ensures
        r.spec_route_service(path, service)->Ok_0.spec_dispatch(m, req_path) == r.spec_dispatch(
            m,
            req_path,
        ),
{
    let pr = r.path_router;
    let ep = Endpoint::<S>::Route(Route::plain(Target::Handler(service)));
    let pr2 = r.spec_route_service(path, service)->Ok_0.path_router;
    lemma_route_endpoint_keeps_wf(pr, path, ep);
    if request_segments(req_path) is Some {
        let req = request_segments(req_path)->0;
        assert forall|k: int| 0 <= k < pr.routes.len() implies (#[trigger] pr2.routes[k]).segs
            == pr.routes[k].segs && (pattern_matches(pr.routes[k].segs, req) ==> pr2.routes[k]
            == pr.routes[k]) by {
            assert(pr2.routes[k] == pr.routes[k]);
        }
        assert forall|k: int| pr.routes.len() <= k < pr2.routes.len() implies !pattern_matches(
            (#[trigger] pr2.routes[k]).segs,
            req,
        ) by {
            assert(pr2.routes[k].segs == parse_pattern(path)->0);
        }
        lemma_unmatched_changes_keep_best(pr, pr2, req);
    }
}

/// The table `pr2` keeps every route of `pr` where it was, with its
/// segments, and every route of `pr` that matches `req` unchanged; the routes
/// it adds do not match `req`.
pub open spec fn keeps_unmatched<S>(pr: PathRouterView<S>, pr2: PathRouterView<S>, req: Seq<Seq<char>>) -> bool {
    &&& pr2.routes.len() >= pr.routes.len()
    &&& forall|k: int|
        0 <= k < pr.routes.len() ==> (#[trigger] pr2.routes[k]).segs == pr.routes[k].segs
            && (pattern_matches(pr.routes[k].segs, req) ==> pr2.routes[k] == pr.routes[k])
    &&& forall|k: int|
        pr.routes.len() <= k < pr2.routes.len() ==> !pattern_matches(
            (#[trigger] pr2.routes[k]).segs,
            req,
        )
}

/// Registering an entry (of another table, not nested) whose pattern does
/// not match `req` keeps the table well formed and changes nothing `req` sees.
proof fn lemma_add_entry_keeps_unmatched<S>(pr: PathRouterView<S>, e: EntryView<S>, req: Seq<Seq<char>>)
    requires
        pr.wf(),
        entry_wf(e),
        !pattern_matches(e.segs, req),
        pr.spec_add_entry(e, None) is Ok,
    ensures
        pr.spec_add_entry(e, None)->Ok_0.wf(),
        keeps_unmatched(pr, pr.spec_add_entry(e, None)->Ok_0, req),
{
    let next = pr.spec_add_entry(e, None)->Ok_0;
    let res = match e.endpoint {
        Endpoint::MethodRouter(mr) => pr.spec_route(e.path, mr),
        Endpoint::Route(rt) => pr.spec_route_endpoint(e.path, Endpoint::Route(rt)),
    };
    let mid = res->Ok_0;
    if e.endpoint is MethodRouter && pr.has_method_router_at(e.path) {
        let mr = e.endpoint->MethodRouter_0;
        lemma_route_keeps_wf(pr, e.path, mr);
        let i = pr.method_router_index(e.path);
        assert(entry_wf(pr.routes[i]));
        assert forall|k: int| 0 <= k < pr.routes.len() implies (#[trigger] next.routes[k]).segs
            == pr.routes[k].segs && (pattern_matches(pr.routes[k].segs, req) ==> next.routes[k]
            == pr.routes[k]) by {
            if k == i {
                assert(pr.routes[i].segs == e.segs);
            }
        }
    } else {
        match e.endpoint {
            Endpoint::MethodRouter(mr) => {
                lemma_route_keeps_wf(pr, e.path, mr);
            },
            Endpoint::Route(rt) => {
                lemma_route_endpoint_keeps_wf(pr, e.path, Endpoint::Route(rt));
            },
        }
        assert(mid.routes.len() == pr.routes.len() + 1);
        assert(mid.routes[pr.routes.len() as int].segs == e.segs);
        if e.fallback {
            lemma_with_last_flagged(mid);
        }
        assert forall|k: int| 0 <= k < pr.routes.len() implies (#[trigger] next.routes[k]).segs
            == pr.routes[k].segs && (pattern_matches(pr.routes[k].segs, req) ==> next.routes[k]
            == pr.routes[k]) by {
            assert(mid.routes[k] == pr.routes[k]);
        }
        assert forall|k: int| pr.routes.len() <= k < next.routes.len() implies !pattern_matches(
            (#[trigger] next.routes[k]).segs,
            req,
        ) by {
            assert(k == pr.routes.len());
        }
    }
}

/// Registering entries (of another table, not nested) none of whose patterns
/// match `req` keeps the table well formed and changes nothing `req` sees.
proof fn lemma_add_all_keeps_unmatched<S>(
    pr: PathRouterView<S>,
    es: Seq<EntryView<S>>,
    req: Seq<Seq<char>>,
)
    requires
        pr.wf(),
        forall|k: int| 0 <= k < es.len() ==> entry_wf(#[trigger] es[k]),
        forall|k: int| 0 <= k < es.len() ==> !pattern_matches((#[trigger] es[k]).segs, req),
        pr.spec_add_all(es, None) is Ok,
    ensures
        pr.spec_add_all(es, None)->Ok_0.wf(),
        keeps_unmatched(pr, pr.spec_add_all(es, None)->Ok_0, req),
    decreases es.len(),
{
    if es.len() > 0 {
        assert(entry_wf(es[0]));
        assert(!pattern_matches(es[0].segs, req));
        lemma_add_entry_keeps_unmatched(pr, es[0], req);
        let next = pr.spec_add_entry(es[0], None)->Ok_0;
        let rest = es.drop_first();
        assert forall|k: int| 0 <= k < rest.len() implies entry_wf(#[trigger] rest[k]) by {
            assert(rest[k] == es[k + 1]);
            assert(entry_wf(es[k + 1]));
        }
        assert forall|k: int| 0 <= k < rest.len() implies !pattern_matches((#[trigger] rest[k]).segs, req) by {
            assert(rest[k] == es[k + 1]);
            assert(!pattern_matches(es[k + 1].segs, req));
        }
        lemma_add_all_keeps_unmatched(next, rest, req);
        let v = pr.spec_add_all(es, None)->Ok_0;
        assert forall|k: int| 0 <= k < pr.routes.len() implies (#[trigger] v.routes[k]).segs
            == pr.routes[k].segs && (pattern_matches(pr.routes[k].segs, req) ==> v.routes[k]
            == pr.routes[k]) by {
            assert(next.routes[k].segs == pr.routes[k].segs);
            assert(v.routes[k].segs == next.routes[k].segs);
        }
        assert forall|k: int| pr.routes.len() <= k < v.routes.len() implies !pattern_matches(
            (#[trigger] v.routes[k]).segs,
            req,
        ) by {
            if k < next.routes.len() {
                assert(!pattern_matches(next.routes[k].segs, req));
                assert(v.routes[k].segs == next.routes[k].segs);
            }
        }
    }
}

/// Merging keeps the answer of the first router to a request that a route
/// of the first router matches and no route of the second does.
pub proof fn lemma_merge_keeps_answers_of_first<S>(
    a: RouterView<S>,
    b: RouterView<S>,
    m: Method,
    path: Seq<char>,
)
    requires
        a.wf(),
        b.wf(),
        a.spec_merge(b) is Ok,
        request_segments(path) is Some,
        a.path_router.any_match(request_segments(path)->0),
        !b.path_router.any_match(request_segments(path)->0),
    ensures
        a.spec_merge(b)->Ok_0.spec_dispatch(m, path) == a.spec_dispatch(m, path),
{
    let req = request_segments(path)->0;
    let pr = PathRouterView {
        v7_checks: a.path_router.v7_checks || b.path_router.v7_checks,
        ..a.path_router
    };
    let es = b.path_router.routes;
    assert forall|k: int| 0 <= k < es.len() implies !pattern_matches((#[trigger] es[k]).segs, req) by {
        assert(!b.path_router.route_matches(k, req));
    }
    assert(a.path_router.spec_merge(b.path_router) == pr.spec_add_all(es, None));
    lemma_add_all_keeps_unmatched(pr, es, req);
    let v = a.spec_merge(b)->Ok_0.path_router;
    assert(v == pr.spec_add_all(es, None)->Ok_0);
    let w = choose|k: int| a.path_router.route_matches(k, req);
    assert(pr.route_matches(w, req));
    lemma_unmatched_changes_keep_best(pr, v, req);
    lemma_best_exists(pr, req, w);
    lemma_same_segments_same_match(pr, a.path_router, req);
}

/// A request that no route of either router matches is answered by the
/// fallback of the merged router: the one of the router that has a fallback
/// of its own, if either has.
pub proof fn lemma_merge_unmatched_goes_to_fallback<S>(
    a: RouterView<S>,
    b: RouterView<S>,
    m: Method,
    path: Seq<char>,
)
    requires
        a.wf(),
        b.wf(),
        a.spec_merge(b) is Ok,
        !(request_segments(path) is Some && a.path_router.any_match(request_segments(path)->0)),
        !(request_segments(path) is Some && b.path_router.any_match(request_segments(path)->0)),
    ensures
        a.spec_merge(b)->Ok_0.spec_dispatch(m, path) == (
            if !a.default_fallback {
                a.catch_all_fallback.spec_route()
            } else {
                b.catch_all_fallback.spec_route()
            },
            Seq::<(Seq<char>, Seq<char>)>::empty(),
        ),
{
    if request_segments(path) is Some {
        let req = request_segments(path)->0;
        let pr = PathRouterView {
            v7_checks: a.path_router.v7_checks || b.path_router.v7_checks,
            ..a.path_router
        };
        let es = b.path_router.routes;
        assert forall|k: int| 0 <= k < es.len() implies !pattern_matches((#[trigger] es[k]).segs, req) by {
            assert(!b.path_router.route_matches(k, req));
        }
        assert(a.path_router.spec_merge(b.path_router) == pr.spec_add_all(es, None));
        lemma_add_all_keeps_unmatched(pr, es, req);
        let v = a.spec_merge(b)->Ok_0.path_router;
        assert(v == pr.spec_add_all(es, None)->Ok_0);
        lemma_unmatched_changes_keep_best(pr, v, req);
        assert(!pr.any_match(req)) by {
            if pr.any_match(req) {
                let w = choose|k: int| pr.route_matches(k, req);
                assert(a.path_router.route_matches(w, req));
            }
        }
    }
    match a.catch_all_fallback {
        crate::routing::Fallback::Default(_) => {},
        crate::routing::Fallback::Service(_) => {},
        crate::routing::Fallback::BoxedHandler(_) => {},
    }
    match b.catch_all_fallback {
        crate::routing::Fallback::Default(_) => {},
        crate::routing::Fallback::Service(_) => {},
        crate::routing::Fallback::BoxedHandler(_) => {},
    }
}

/// The routes of `v` that match `req` are, in segments and endpoint,
/// among the first `n` entries of `b`; and each of those that matches `req`
/// is in `v`.
pub open spec fn routes_from<S>(v: PathRouterView<S>, b: Seq<EntryView<S>>, n: int, req: Seq<Seq<char>>) -> bool {
    &&& forall|j: int|
        #[trigger] v.route_matches(j, req) ==> exists|k: int|
            0 <= k < n && v.routes[j].segs == (#[trigger] b[k]).segs && v.routes[j].endpoint
                == b[k].endpoint
    &&& forall|k: int|
        0 <= k < n && pattern_matches((#[trigger] b[k]).segs, req) ==> exists|j: int|
            0 <= j < v.routes.len() && (#[trigger] v.routes[j]).segs == b[k].segs
                && v.routes[j].endpoint == b[k].endpoint
}

/// Registering the entries of a well-formed table, from the `n`-th on,
/// brings in its routes that match `req` as they are, where the routes
/// already there that match `req` came from its first `n` entries.
proof fn lemma_add_all_brings_matches<S>(
    pr: PathRouterView<S>,
    b: Seq<EntryView<S>>,
    n: int,
    req: Seq<Seq<char>>,
)
    requires
        pr.wf(),
        routes_wf(b),
        0 <= n <= b.len(),
        routes_from(pr, b, n, req),
        pr.spec_add_all(b.skip(n), None) is Ok,
    ensures
        pr.spec_add_all(b.skip(n), None)->Ok_0.wf(),
        routes_from(pr.spec_add_all(b.skip(n), None)->Ok_0, b, b.len() as int, req),
    decreases b.len() - n,
{
    if n < b.len() {
        let es = b.skip(n);
        let e = b[n];
        assert(es[0] == e);
        assert(es.drop_first() =~= b.skip(n + 1));
        assert(entry_wf(e));
        let next = pr.spec_add_entry(e, None)->Ok_0;
        if !pattern_matches(e.segs, req) {
            lemma_add_entry_keeps_unmatched(pr, e, req);
            assert forall|j: int| #[trigger] next.route_matches(j, req) implies exists|k: int|
                0 <= k < n + 1 && next.routes[j].segs == (#[trigger] b[k]).segs
                    && next.routes[j].endpoint == b[k].endpoint by {
                assert(j < pr.routes.len());
                assert(pr.route_matches(j, req));
                let k = choose|k: int|
                    0 <= k < n && pr.routes[j].segs == (#[trigger] b[k]).segs && pr.routes[j].endpoint
                        == b[k].endpoint;
                assert(next.routes[j] == pr.routes[j]);
            }
            assert forall|k: int| 0 <= k < n + 1 && pattern_matches((#[trigger] b[k]).segs, req) implies exists|j: int|
                0 <= j < next.routes.len() && (#[trigger] next.routes[j]).segs == b[k].segs
                    && next.routes[j].endpoint == b[k].endpoint by {
                assert(k < n);
                let j = choose|j: int|
                    0 <= j < pr.routes.len() && (#[trigger] pr.routes[j]).segs == b[k].segs
                        && pr.routes[j].endpoint == b[k].endpoint;
                assert(next.routes[j] == pr.routes[j]);
            }
        } else {
            // A route of `pr` at the same path would match `req`, so it would
            // come from an earlier entry of `b` of the same shape.
            assert(!(e.endpoint is MethodRouter && pr.has_method_router_at(e.path))) by {
                if e.endpoint is MethodRouter && pr.has_method_router_at(e.path) {
                    let i = pr.method_router_index(e.path);
                    assert(entry_wf(pr.routes[i]));
                    assert(pr.routes[i].segs == e.segs);
                    assert(pr.route_matches(i, req));
                    let k = choose|k: int|
                        0 <= k < n && pr.routes[i].segs == (#[trigger] b[k]).segs
                            && pr.routes[i].endpoint == b[k].endpoint;
                    crate::path_router::lemma_same_shape_reflexive(e.segs);
                    assert(crate::matching::same_shape(b[k].segs, b[n].segs));
                }
            }
            let res = match e.endpoint {
                Endpoint::MethodRouter(mr) => pr.spec_route(e.path, mr),
                Endpoint::Route(rt) => pr.spec_route_endpoint(e.path, Endpoint::Route(rt)),
            };
            let mid = res->Ok_0;
            match e.endpoint {
                Endpoint::MethodRouter(mr) => {
                    lemma_route_keeps_wf(pr, e.path, mr);
                },
                Endpoint::Route(rt) => {
                    lemma_route_endpoint_keeps_wf(pr, e.path, Endpoint::Route(rt));
                },
            }
            assert(mid.routes.len() == pr.routes.len() + 1);
            assert(mid.routes[pr.routes.len() as int].segs == e.segs);
            assert(mid.routes[pr.routes.len() as int].endpoint == e.endpoint);
            if e.fallback {
                lemma_with_last_flagged(mid);
            }
            assert(next.wf());
            let p = pr.routes.len() as int;
            assert(next.routes.len() == p + 1);
            assert forall|k: int| 0 <= k < p implies #[trigger] next.routes[k] == pr.routes[k] by {
                assert(mid.routes[k] == pr.routes[k]);
            }
            assert(next.routes[p].segs == e.segs && next.routes[p].endpoint == e.endpoint);
            assert forall|j: int| #[trigger] next.route_matches(j, req) implies exists|k: int|
                0 <= k < n + 1 && next.routes[j].segs == (#[trigger] b[k]).segs
                    && next.routes[j].endpoint == b[k].endpoint by {
                if j < p {
                    assert(next.routes[j] == pr.routes[j]);
                    assert(pr.route_matches(j, req));
                    let k = choose|k: int|
                        0 <= k < n && pr.routes[j].segs == (#[trigger] b[k]).segs
                            && pr.routes[j].endpoint == b[k].endpoint;
                } else {
                    assert(next.routes[j].segs == b[n].segs);
                }
            }
            assert forall|k: int| 0 <= k < n + 1 && pattern_matches((#[trigger] b[k]).segs, req) implies exists|j: int|
                0 <= j < next.routes.len() && (#[trigger] next.routes[j]).segs == b[k].segs
                    && next.routes[j].endpoint == b[k].endpoint by {
                if k < n {
                    let j = choose|j: int|
                        0 <= j < pr.routes.len() && (#[trigger] pr.routes[j]).segs == b[k].segs
                            && pr.routes[j].endpoint == b[k].endpoint;
                    assert(next.routes[j] == pr.routes[j]);
                } else {
                    assert(next.routes[p].segs == b[k].segs);
                }
            }
        }
        lemma_add_all_brings_matches(next, b, n + 1, req);
    } else {
        assert(b.skip(n).len() == 0);
    }
}

/// Merging keeps the answer of the second router to a request that a route
/// of the second router matches and no route of the first does.
pub proof fn lemma_merge_keeps_answers_of_second<S>(
    a: RouterView<S>,
    b: RouterView<S>,
    m: Method,
    path: Seq<char>,
)
    requires
        a.wf(),
        b.wf(),
        a.spec_merge(b) is Ok,
        request_segments(path) is Some,
        !a.path_router.any_match(request_segments(path)->0),
        b.path_router.any_match(request_segments(path)->0),
    ensures
        a.spec_merge(b)->Ok_0.spec_dispatch(m, path) == b.spec_dispatch(m, path),
{
    let req = request_segments(path)->0;
    let pr = PathRouterView {
        v7_checks: a.path_router.v7_checks || b.path_router.v7_checks,
        ..a.path_router
    };
    let bs = b.path_router.routes;
    assert(bs.skip(0) =~= bs);
    assert(a.path_router.spec_merge(b.path_router) == pr.spec_add_all(bs, None));
    assert(routes_from(pr, bs, 0, req)) by {
        assert forall|j: int| #[trigger] pr.route_matches(j, req) implies false by {
            assert(a.path_router.route_matches(j, req));
        }
    }
    lemma_add_all_brings_matches(pr, bs, 0, req);
    let v = a.spec_merge(b)->Ok_0.path_router;
    assert(v == pr.spec_add_all(bs, None)->Ok_0);
    let w = choose|k: int| b.path_router.route_matches(k, req);
    lemma_best_exists(b.path_router, req, w);
    let kb = b.path_router.best_index(req);
    assert(pattern_matches(bs[kb].segs, req));
    let j = choose|j: int|
        0 <= j < v.routes.len() && (#[trigger] v.routes[j]).segs == bs[kb].segs
            && v.routes[j].endpoint == bs[kb].endpoint;
    assert(v.is_best_match(j, req)) by {
        assert(v.route_matches(j, req));
        assert forall|j2: int|
            #![trigger v.routes[j2]]
            v.route_matches(j2, req) implies !more_specific(v.routes[j2].segs, v.routes[j].segs) by {
            let k2 = choose|k: int|
                0 <= k < bs.len() && v.routes[j2].segs == (#[trigger] bs[k]).segs
                    && v.routes[j2].endpoint == bs[k].endpoint;
            assert(b.path_router.route_matches(k2, req));
        }
    }
    lemma_best_match_unique(v, req, j, v.best_index(req));
}

/// Merging in either order gives the same answer to every request that the
/// routes of at most one of the routers match. For a request that no route
/// matches, it holds unless both routers have the default fallback and
/// those differ (as when only one of them was wrapped in a layer).
pub proof fn lemma_merge_order_keeps_answers<S>(
    a: RouterView<S>,
    b: RouterView<S>,
    m: Method,
    path: Seq<char>,
)
    requires
        a.wf(),
        b.wf(),
        a.spec_merge(b) is Ok,
        b.spec_merge(a) is Ok,
        !(request_segments(path) is Some && a.path_router.any_match(request_segments(path)->0)
            && b.path_router.any_match(request_segments(path)->0)),
        (request_segments(path) is Some && (a.path_router.any_match(request_segments(path)->0)
            || b.path_router.any_match(request_segments(path)->0))) || !a.default_fallback
            || !b.default_fallback || a.catch_all_fallback == b.catch_all_fallback,
    ensures
        a.spec_merge(b)->Ok_0.spec_dispatch(m, path) == b.spec_merge(a)->Ok_0.spec_dispatch(m, path),
{
    if request_segments(path) is Some && a.path_router.any_match(request_segments(path)->0) {
        lemma_merge_keeps_answers_of_first(a, b, m, path);
        lemma_merge_keeps_answers_of_second(b, a, m, path);
    } else if request_segments(path) is Some && b.path_router.any_match(request_segments(path)->0) {
        lemma_merge_keeps_answers_of_second(a, b, m, path);
        lemma_merge_keeps_answers_of_first(b, a, m, path);
    } else {
        lemma_merge_unmatched_goes_to_fallback(a, b, m, path);
        lemma_merge_unmatched_goes_to_fallback(b, a, m, path);
    }
}

/// After a layer, registering a route leaves every other answer as the layer
/// made it: a request that the new route's pattern does not match is
/// answered as before, wrapped in the layer.
pub proof fn lemma_layer_then_route_keeps_wrapped_answers<S>(
    r: RouterView<S>,
    l: u64,
    path: Seq<char>,
    mr: MethodRouter<S>,
    m: Method,
    req_path: Seq<char>,
)
    requires
        r.wf(),
        r.spec_layer(l).spec_route(path, mr) is Ok,
        request_segments(req_path) is Some ==> !pattern_matches(
            parse_pattern(path)->0,
            request_segments(req_path)->0,
        ),
    ensures
        ({
            let before = r.spec_dispatch(m, req_path);
            r.spec_layer(l).spec_route(path, mr)->Ok_0.spec_dispatch(m, req_path) == (
                before.0.spec_layer(l),
                before.1,
            )
        }),
{
    lemma_map_endpoints_keeps_wf(r.path_router, EndpointChange::Layer(l));
    match r.catch_all_fallback {
        crate::routing::Fallback::Default(_) => {},
        crate::routing::Fallback::Service(_) => {},
        crate::routing::Fallback::BoxedHandler(_) => {},
    }
    assert(r.spec_layer(l).wf());
    lemma_route_keeps_other_answers(r.spec_layer(l), path, mr, m, req_path);
    lemma_layer_wraps_every_answer(r, l, m, req_path);
}

/// The table of a router with one method router registered at `path`.
pub open spec fn one_route<S>(path: Seq<char>, mr: MethodRouter<S>, v7_checks: bool) -> PathRouterView<S> {
    PathRouterView {
        routes: seq![
            EntryView {
                path,
                segs: parse_pattern(path)->0,
                endpoint: Endpoint::MethodRouter(mr),
                fallback: false,
            },
        ],
        v7_checks,
    }
}

/// Merging in a table whose one route is a method router at `path` does
/// what registering that method router with `route` does: where a method
/// router is already registered at `path`, the two are united (and merging
/// is refused only where they overlap), else the route is added.
pub proof fn lemma_merge_method_router_is_route<S>(
    pr: PathRouterView<S>,
    path: Seq<char>,
    mr: MethodRouter<S>,
    v7_checks: bool,
)
    ensures
        pr.spec_merge(one_route(path, mr, v7_checks)) == (PathRouterView {
            v7_checks: pr.v7_checks || v7_checks,
            ..pr
        }).spec_route(path, mr),
        crate::path::validate_path(pr.v7_checks || v7_checks, path) is None
            && pr.has_method_router_at(path) ==> ({
            let i = pr.method_router_index(path);
            let here = pr.routes[i].endpoint->MethodRouter_0;
            match here.spec_merge(mr) {
                Ok(united) => pr.spec_merge(one_route(path, mr, v7_checks)) == Ok::<
                    PathRouterView<S>,
                    RouteError,
                >(
                    PathRouterView {
                        routes: pr.routes.update(
                            i,
                            EntryView {
                                endpoint: Endpoint::MethodRouter(united),
                                fallback: false,
                                ..pr.routes[i]
                            },
                        ),
                        v7_checks: pr.v7_checks || v7_checks,
                    },
                ),
                Err(e) => pr.spec_merge(one_route(path, mr, v7_checks)) == Err::<
                    PathRouterView<S>,
                    RouteError,
                >(e),
            }
        }),
{
    let q = PathRouterView { v7_checks: pr.v7_checks || v7_checks, ..pr };
    let es = one_route(path, mr, v7_checks).routes;
    assert(es.drop_first() =~= Seq::<EntryView<S>>::empty());
    assert(es[0].endpoint == Endpoint::<S>::MethodRouter(mr));
    assert(q.spec_add_entry(es[0], None) == q.spec_route(path, mr));
    match q.spec_add_entry(es[0], None) {
        Ok(next) => {
            assert(next.spec_add_all(es.drop_first(), None) == Ok::<PathRouterView<S>, RouteError>(next));
        },
        Err(_) => {},
    }
    assert(pr.spec_merge(one_route(path, mr, v7_checks)) == q.spec_add_all(es, None));
    assert(q.has_method_router_at(path) == pr.has_method_router_at(path));
    assert(q.method_router_index(path) == pr.method_router_index(path));
}

/// Nesting a table whose one route is a method router at `path` under
/// `prefix` does what registering that method router, nested (its services
/// then not seeing the prefix), at the nested path does.
pub proof fn lemma_nest_method_router_is_route<S>(
    pr: PathRouterView<S>,
    prefix: Seq<char>,
    path: Seq<char>,
    mr: MethodRouter<S>,
    v7_checks: bool,
)
    requires
        crate::path::validate_nest_path(pr.v7_checks, prefix) is None,
    ensures
        pr.spec_nest(prefix, one_route(path, mr, v7_checks)) == pr.spec_route(
            crate::path::nested_path(prefix, path),
            mr.spec_strip(crate::path::prefix_depth(prefix) as usize),
        ),
{
    let es = one_route(path, mr, v7_checks).routes;
    assert(es.drop_first() =~= Seq::<EntryView<S>>::empty());
    assert(es[0].endpoint == Endpoint::<S>::MethodRouter(mr));
    let pre = Some(prefix);
    let e2 = Endpoint::<S>::MethodRouter(mr).changed(
        EndpointChange::Strip(crate::path::prefix_depth(prefix) as usize),
    );
    assert(e2 == Endpoint::<S>::MethodRouter(mr.spec_strip(crate::path::prefix_depth(prefix) as usize)));
    assert(pr.spec_add_entry(es[0], pre) == pr.spec_route(
        crate::path::nested_path(prefix, path),
        mr.spec_strip(crate::path::prefix_depth(prefix) as usize),
    ));
    match pr.spec_add_entry(es[0], pre) {
        Ok(next) => {
            assert(next.spec_add_all(es.drop_first(), pre) == Ok::<PathRouterView<S>, RouteError>(next));
        },
        Err(_) => {},
    }
}

/// With the checks for the old syntax on, registering a path is refused as
/// soon as any of its segments is in that syntax (`:name` or `*name`),
/// with the kind of the first such segment.
pub proof fn lemma_route_refuses_old_syntax<S>(
    r: RouterView<S>,
    path: Seq<char>,
    mr: MethodRouter<S>,
    i: int,
)
    requires
        r.path_router.v7_checks,
        path.len() > 0,
        path[0] == '/',
        0 <= i < split_slash(path).len(),
        crate::path_laws::old_syntax(split_slash(path)[i]),
        forall|j: int| 0 <= j < i ==> !crate::path_laws::old_syntax(#[trigger] split_slash(path)[j]),
    ensures
        r.spec_route(path, mr) == Err::<RouterView<S>, RouteError>(
            if split_slash(path)[i][0] == ':' {
                RouteError::ColonSegment
            } else {
                RouteError::AsteriskSegment
            },
        ),
{
    crate::path_laws::lemma_old_syntax_refused(path);
}

/// A service nested at `p` is also registered at the text of `p` (without
/// a trailing `/`), one `/`, and a wildcard: the tail route has exactly one
/// segment, the wildcard, beyond the segments of the prefix.
pub proof fn lemma_nest_service_path_one_wildcard_deeper(p: Seq<char>)
    requires
        p.len() > 0,
    ensures
        crate::path_router::nest_service_path(p) == (if p.last() == '/' {
            p.drop_last()
        } else {
            p
        }) + crate::path_router::NEST_TAIL_PARAM_CAPTURE@,
        crate::path::slash_count(crate::path_router::nest_service_path(p)) == crate::path::prefix_depth(p)
            + 1,
{
    reveal_strlit("/{*__private__axum_nest_tail_param}");
    let cap = crate::path_router::NEST_TAIL_PARAM_CAPTURE@;
    let w = cap.drop_first();
    assert(cap =~= seq!['/'] + w);
    assert forall|i: int| 0 <= i < w.len() implies w[i] != '/' by {
        assert(w[i] == cap[i + 1]);
    }
    crate::path_laws::lemma_slash_count_none(w);
    crate::path_laws::lemma_slash_count_concat(seq!['/'], w);
    crate::path_laws::lemma_slash_count_one('/');
    if p.last() == '/' {
        assert(p.drop_last() + cap =~= p + w);
        crate::path_laws::lemma_slash_count_concat(p, w);
        assert(p.drop_last().push('/') =~= p);
    } else {
        crate::path_laws::lemma_slash_count_concat(p, cap);
    }
}

} // verus!