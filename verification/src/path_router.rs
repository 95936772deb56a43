//! The table of routes of a router: registration (with its checks), merging,
//! nesting, and finding the route that answers a request path.

use vstd::prelude::*;

use crate::error::RouteError;
use crate::matching::{
    captures, lemma_more_specific_irreflexive, lemma_more_specific_total,
    lemma_more_specific_transitive, match_segments, pattern_matches, more_specific, more_specific_exec, pair_views,
    same_shape, same_shape_exec, seg_same_shape, vec_chars_eq,
};
use crate::method_routing::{Method, MethodRouter};
use crate::path::{
    nested_path, nested_path_exec, parse_pattern, prefix_depth, prefix_depth_exec, parse_pattern_exec, seg_views, split_from,
    split_slash, validate_nest_path, validate_nest_path_exec, validate_path,
    validate_path_exec, views, PatSeg, Segment,
};
use crate::route::Route;

verus! {

/// What a path is routed to: handlers by method, or one service for all methods.
#[derive(Debug)]
pub enum Endpoint<S> {
    MethodRouter(MethodRouter<S>),
    Route(Route),
}

impl<S> Endpoint<S> {
    /// What answers a request with method `m` at this endpoint.
    pub open spec fn route_for(self, m: Method) -> Route {
        match self {
            Endpoint::MethodRouter(mr) => mr.route_for(m),
            Endpoint::Route(r) => r,
        }
    }

    /// The same endpoint, for another state type.
    pub open spec fn spec_with_state<S2>(self, state: u64) -> Endpoint<S2> {
        match self {
            Endpoint::MethodRouter(mr) => Endpoint::MethodRouter(mr.spec_with_state::<S2>(state)),
            Endpoint::Route(r) => Endpoint::Route(r.spec_with_state(state)),
        }
    }

    pub fn clone_endpoint(&self) -> (r: Self)
        ensures
            r == *self,
    {
        match self {
            Endpoint::MethodRouter(mr) => Endpoint::MethodRouter(mr.clone_router()),
            Endpoint::Route(r) => Endpoint::Route(r.clone_route()),
        }
    }

    pub fn route_for_method(&self, m: Method) -> (r: Route)
        ensures
            r == self.route_for(m),
    {
        match self {
            Endpoint::MethodRouter(mr) => mr.route_for_method(m),
            Endpoint::Route(r) => r.clone_route(),
        }
    }

    /// This endpoint wrapped in the layer `l`: every service of a method
    /// router, and its fallback, or the one service.
    pub open spec fn spec_layer(self, l: u64) -> Endpoint<S> {
        match self {
            Endpoint::MethodRouter(mr) => Endpoint::MethodRouter(mr.spec_layer(l)),
            Endpoint::Route(r) => Endpoint::Route(r.spec_layer(l)),
        }
    }

    /// Wraps this endpoint in the layer `l`.
    pub fn layer(self, l: u64) -> (r: Self)
        ensures
            r == self.spec_layer(l),
    {
        match self {
            Endpoint::MethodRouter(mr) => Endpoint::MethodRouter(mr.layer(l)),
            Endpoint::Route(r) => Endpoint::Route(r.layer(l)),
        }
    }
}

/// A change made to every endpoint of a table.
#[derive(Clone, Copy, Debug, PartialEq, Eq, Structural)]
pub enum EndpointChange {
    /// A method router with only the default fallback gets the handler with this id as its fallback.
    DefaultFallback(u64),
    /// The endpoint is wrapped in the layer with this id.
    Layer(u64),
    /// The endpoint is nested under a prefix of this many more segments.
    Strip(usize),
}

impl<S> Endpoint<S> {
    /// This endpoint with the change `c` made.
    pub open spec fn changed(self, c: EndpointChange) -> Endpoint<S> {
        match c {
            EndpointChange::DefaultFallback(handler) => match self {
                Endpoint::MethodRouter(mr) => Endpoint::MethodRouter(mr.with_default_fallback(handler)),
                Endpoint::Route(rt) => Endpoint::Route(rt),
            },
            EndpointChange::Layer(l) => self.spec_layer(l),
            EndpointChange::Strip(k) => match self {
                Endpoint::MethodRouter(mr) => Endpoint::MethodRouter(mr.spec_strip(k)),
                Endpoint::Route(rt) => Endpoint::Route(rt.spec_strip(k)),
            },
        }
    }

    /// Makes the change `c` to this endpoint.
    pub fn change(self, c: EndpointChange) -> (r: Self)
        ensures
            r == self.changed(c),
    {
        match c {
            EndpointChange::DefaultFallback(handler) => match self {
                Endpoint::MethodRouter(mr) => Endpoint::MethodRouter(mr.default_fallback(handler)),
                Endpoint::Route(rt) => Endpoint::Route(rt),
            },
            EndpointChange::Layer(l) => self.layer(l),
            EndpointChange::Strip(k) => match self {
                Endpoint::MethodRouter(mr) => Endpoint::MethodRouter(mr.strip(k)),
                Endpoint::Route(rt) => Endpoint::Route(rt.strip(k)),
            },
        }
    }
}

/// One registered route: the path it was registered at, its parsed segments
/// and its endpoint.
#[derive(Debug)]
pub struct RouteEntry<S> {
    pub path: Vec<char>,
    pub segments: Vec<Segment>,
    pub endpoint: Endpoint<S>,
    /// The route was registered by the router's fallback, not by the user.
    pub fallback: bool,
}

/// The mathematical form of a [`RouteEntry`].
pub struct EntryView<S> {
    pub path: Seq<char>,
    pub segs: Seq<PatSeg>,
    pub endpoint: Endpoint<S>,
    pub fallback: bool,
}

impl<S> View for RouteEntry<S> {
    type V = EntryView<S>;

    open spec fn view(&self) -> EntryView<S> {
        EntryView {
            path: self.path@,
            segs: seg_views(self.segments@),
            endpoint: self.endpoint,
            fallback: self.fallback,
        }
    }
}

/// The routes of a router, in registration order, and whether paths in the
/// syntax of the older version (`:name`, `*name`) are refused.
#[derive(Debug)]
pub struct PathRouter<S> {
    pub routes: Vec<RouteEntry<S>>,
    pub v7_checks: bool,
}

/// The views of a sequence of entries.
pub open spec fn entry_views<S>(v: Seq<RouteEntry<S>>) -> Seq<EntryView<S>> {
    v.map_values(|e: RouteEntry<S>| e@)
}

/// The mathematical form of a [`PathRouter`].
pub struct PathRouterView<S> {
    pub routes: Seq<EntryView<S>>,
    pub v7_checks: bool,
}

impl<S> View for PathRouter<S> {
    type V = PathRouterView<S>;

    open spec fn view(&self) -> PathRouterView<S> {
        PathRouterView {
            routes: entry_views(self.routes@),
            v7_checks: self.v7_checks,
        }
    }
}

/// An entry is well formed: its segments are those its path parses to.
pub open spec fn entry_wf<S>(e: EntryView<S>) -> bool {
    &&& e.path.len() > 0
    &&& e.path[0] == '/'
    &&& parse_pattern(e.path) == Some(e.segs)
}

/// A table of routes is well formed: every entry is, and no two overlap.
pub open spec fn routes_wf<S>(routes: Seq<EntryView<S>>) -> bool {
    &&& forall|i: int| 0 <= i < routes.len() ==> entry_wf(#[trigger] routes[i])
    &&& forall|i: int, j: int|
        0 <= i < routes.len() && 0 <= j < routes.len() && i != j ==> !same_shape(
            #[trigger] routes[i].segs,
            #[trigger] routes[j].segs,
        )
}

impl<S> PathRouterView<S> {
    pub open spec fn wf(self) -> bool {
        routes_wf(self.routes)
    }

    /// Some route was registered at exactly the path `path`.
    pub open spec fn has_path(self, path: Seq<char>) -> bool {
        exists|i: int| 0 <= i < self.routes.len() && (#[trigger] self.routes[i]).path == path
    }

    /// Some route with a method router was registered at exactly the path `path`.
    pub open spec fn has_method_router_at(self, path: Seq<char>) -> bool {
        exists|i: int|
            0 <= i < self.routes.len() && (#[trigger] self.routes[i]).path == path
                && self.routes[i].endpoint is MethodRouter
    }

    /// The index of the route with a method router at `path`.
    pub open spec fn method_router_index(self, path: Seq<char>) -> int {
        choose|i: int|
            0 <= i < self.routes.len() && (#[trigger] self.routes[i]).path == path
                && self.routes[i].endpoint is MethodRouter
    }

    /// What registering `endpoint` at `path` as a new route gives: the
    /// path's errors, a pattern that does not parse, or an overlap with a
    /// registered route; else the table with the new route at its end.
    pub open spec fn spec_route_endpoint(self, path: Seq<char>, endpoint: Endpoint<S>) -> Result<
        PathRouterView<S>,
        RouteError,
    > {
        if validate_path(self.v7_checks, path) is Some {
            Err(validate_path(self.v7_checks, path)->0)
        } else if parse_pattern(path) is None {
            Err(RouteError::InvalidPattern)
        } else if exists|i: int|
            0 <= i < self.routes.len() && same_shape(
                (#[trigger] self.routes[i]).segs,
                parse_pattern(path)->0,
            ) {
            Err(RouteError::Conflict)
        } else {
            Ok(
                PathRouterView {
                    routes: self.routes.push(
                        EntryView { path, segs: parse_pattern(path)->0, endpoint, fallback: false },
                    ),
                    ..self
                },
            )
        }
    }

    /// What registering the method router `mr` at `path` gives: where a
    /// method router is registered at that same path, the two are merged;
    /// else it is registered as a new route.
    pub open spec fn spec_route(self, path: Seq<char>, mr: MethodRouter<S>) -> Result<
        PathRouterView<S>,
        RouteError,
    > {
        if validate_path(self.v7_checks, path) is Some {
            Err(validate_path(self.v7_checks, path)->0)
        } else if self.has_method_router_at(path) {
            let i = self.method_router_index(path);
            match self.routes[i].endpoint->MethodRouter_0.spec_merge(mr) {
                Ok(merged) => Ok(
                    PathRouterView {
                        routes: self.routes.update(
                            i,
                            EntryView {
                                endpoint: Endpoint::MethodRouter(merged),
                                fallback: false,
                                ..self.routes[i]
                            },
                        ),
                        ..self
                    },
                ),
                Err(e) => Err(e),
            }
        } else {
            self.spec_route_endpoint(path, Endpoint::MethodRouter(mr))
        }
    }

    /// Registering one entry of another table, at its path, or nested under
    /// `prefix`, whose segments its services then do not see.
    pub open spec fn spec_add_entry(self, e: EntryView<S>, prefix: Option<Seq<char>>) -> Result<
        PathRouterView<S>,
        RouteError,
    > {
        let path = match prefix {
            Some(p) => nested_path(p, e.path),
            None => e.path,
        };
        let endpoint = match prefix {
            Some(p) => e.endpoint.changed(EndpointChange::Strip(prefix_depth(p) as usize)),
            None => e.endpoint,
        };
        let res = match endpoint {
            Endpoint::MethodRouter(mr) => self.spec_route(path, mr),
            Endpoint::Route(r) => self.spec_route_endpoint(path, Endpoint::Route(r)),
        };
        let added_new = !(e.endpoint is MethodRouter && self.has_method_router_at(path));
        if prefix is None && e.fallback && added_new {
            flag_last(res)
        } else {
            res
        }
    }

    /// This table with its last route marked as registered by the fallback.
    pub open spec fn with_last_flagged(self) -> PathRouterView<S> {
        PathRouterView {
            routes: self.routes.update(
                self.routes.len() - 1,
                EntryView { fallback: true, ..self.routes.last() },
            ),
            ..self
        }
    }

    /// This table without the routes registered by the fallback.
    pub open spec fn without_fallback_routes(self) -> PathRouterView<S> {
        PathRouterView { routes: user_routes(self.routes), ..self }
    }

    /// Registering the entries of another table in turn; the first error stops.
    pub open spec fn spec_add_all(self, es: Seq<EntryView<S>>, prefix: Option<Seq<char>>) -> Result<
        PathRouterView<S>,
        RouteError,
    >
        decreases es.len(),
    {
        if es.len() == 0 {
            Ok(self)
        } else {
            match self.spec_add_entry(es[0], prefix) {
                Ok(next) => next.spec_add_all(es.drop_first(), prefix),
                Err(e) => Err(e),
            }
        }
    }

    /// What merging `other` into this table gives: the checks for the old
    /// syntax stay on if either table has them on, and the routes of `other`
    /// are registered in turn.
    pub open spec fn spec_merge(self, other: PathRouterView<S>) -> Result<
        PathRouterView<S>,
        RouteError,
    > {
        PathRouterView { v7_checks: self.v7_checks || other.v7_checks, ..self }.spec_add_all(
            other.routes,
            None,
        )
    }

    /// What nesting `other` at `prefix` gives: the errors of the prefix, or
    /// the routes of `other` registered in turn under the prefix.
    pub open spec fn spec_nest(self, prefix: Seq<char>, other: PathRouterView<S>) -> Result<
        PathRouterView<S>,
        RouteError,
    > {
        if validate_nest_path(self.v7_checks, prefix) is Some {
            Err(validate_nest_path(self.v7_checks, prefix)->0)
        } else {
            self.spec_add_all(other.routes, Some(prefix))
        }
    }
}

/// The outcome of registering a route, with the new route marked as
/// registered by the fallback.
pub open spec fn flag_last<S>(res: Result<PathRouterView<S>, RouteError>) -> Result<
    PathRouterView<S>,
    RouteError,
> {
    match res {
        Ok(v) => Ok(v.with_last_flagged()),
        Err(e) => Err(e),
    }
}

/// The routes of `routes` that were not registered by the fallback, in order.
pub open spec fn user_routes<S>(routes: Seq<EntryView<S>>) -> Seq<EntryView<S>>
    decreases routes.len(),
{
    if routes.len() == 0 {
        routes
    } else if routes.last().fallback {
        user_routes(routes.drop_last())
    } else {
        user_routes(routes.drop_last()).push(routes.last())
    }
}

/// The name under which a nested service's route captures the rest of the path.
pub const NEST_TAIL_PARAM: &'static str = "__private__axum_nest_tail_param";

/// The wildcard segment, after a `/`, that a nested service's route ends with.
pub const NEST_TAIL_PARAM_CAPTURE: &'static str = "/{*__private__axum_nest_tail_param}";

/// The path at which a service nested at `prefix` takes the rest of the path.
pub open spec fn nest_service_path(prefix: Seq<char>) -> Seq<char> {
    if prefix.len() > 0 && prefix.last() == '/' {
        prefix + NEST_TAIL_PARAM_CAPTURE@.drop_first()
    } else {
        prefix + NEST_TAIL_PARAM_CAPTURE@
    }
}

impl<S> PathRouterView<S> {
    /// What nesting the service `svc` at `prefix` gives: the errors of the
    /// prefix; else the service, which then does not see the segments of the
    /// prefix, is registered at the prefix followed by a wildcard, at the
    /// prefix itself, and (where the prefix does not end with `/`) at the
    /// prefix followed by `/`; the first error stops.
    pub open spec fn spec_nest_service(self, prefix: Seq<char>, svc: Route) -> Result<
        PathRouterView<S>,
        RouteError,
    > {
        if validate_nest_path(self.v7_checks, prefix) is Some {
            Err(validate_nest_path(self.v7_checks, prefix)->0)
        } else {
            let e = Endpoint::Route(svc.spec_strip(prefix_depth(prefix) as usize));
            match self.spec_route_endpoint(nest_service_path(prefix), e) {
                Err(x) => Err(x),
                Ok(p1) => match p1.spec_route_endpoint(prefix, e) {
                    Err(x) => Err(x),
                    Ok(p2) => if prefix.last() != '/' {
                        p2.spec_route_endpoint(prefix.push('/'), e)
                    } else {
                        Ok(p2)
                    },
                },
            }
        }
    }
}

impl<S> PathRouter<S> {
    /// Nests the service `svc` at `prefix`.
    pub fn nest_service(self, prefix: &Vec<char>, svc: Route) -> (r: Result<Self, RouteError>)
        requires
            self@.wf(),
        ensures
            match r {
                Ok(pr) => self@.spec_nest_service(prefix@, svc) == Ok::<
                    PathRouterView<S>,
                    RouteError,
                >(pr@) && pr@.wf(),
                Err(e) => self@.spec_nest_service(prefix@, svc) == Err::<
                    PathRouterView<S>,
                    RouteError,
                >(e),
            },
    {
        if let Some(e) = validate_nest_path_exec(self.v7_checks, prefix) {
            return Err(e);
        }
        let n = prefix.len();
        let capture = crate::path::chars_of(NEST_TAIL_PARAM_CAPTURE);
        let ends_with_slash = prefix[n - 1] == '/';
        let mut tail_path = prefix.clone();
        let start: usize = if ends_with_slash { 1 } else { 0 };
        proof {
            reveal_strlit("/{*__private__axum_nest_tail_param}");
        }
        let mut i = start;
        while i < capture.len()
            invariant
                start <= i <= capture.len(),
                capture@ == NEST_TAIL_PARAM_CAPTURE@,
                tail_path@ == prefix@ + capture@.subrange(start as int, i as int),
            decreases capture.len() - i,
        {
            tail_path.push(capture[i]);
            i = i + 1;
            assert(tail_path@ =~= prefix@ + capture@.subrange(start as int, i as int));
        }
        proof {
            if ends_with_slash {
                assert(capture@.subrange(1, capture@.len() as int) =~= capture@.drop_first());
            } else {
                assert(capture@.subrange(0, capture@.len() as int) =~= capture@);
            }
            assert(tail_path@ == nest_service_path(prefix@));
        }
        let svc = svc.strip(prefix_depth_exec(prefix));
        let p1 = match self.route_endpoint(&tail_path, Endpoint::Route(svc.clone_route())) {
            Ok(p) => p,
            Err(x) => {
                return Err(x);
            },
        };
        let p2 = match p1.route_endpoint(prefix, Endpoint::Route(svc.clone_route())) {
            Ok(p) => p,
            Err(x) => {
                return Err(x);
            },
        };
        if !ends_with_slash {
            let mut with_slash = prefix.clone();
            with_slash.push('/');
            p2.route_endpoint(&with_slash, Endpoint::Route(svc))
        } else {
            Ok(p2)
        }
    }
}

pub proof fn lemma_same_shape_reflexive(a: Seq<PatSeg>)
    ensures
        same_shape(a, a),
{
    assert forall|i: int| 0 <= i < a.len() implies seg_same_shape(#[trigger] a[i], a[i]) by {
        match a[i] {
            PatSeg::Static(_) => {},
            PatSeg::Param(_) => {},
            PatSeg::Wildcard(_) => {},
        }
    }
}

/// In a well-formed table, at most one route was registered at a given path.
pub proof fn lemma_path_unique<S>(routes: Seq<EntryView<S>>, i: int, j: int)
    requires
        routes_wf(routes),
        0 <= i < routes.len(),
        0 <= j < routes.len(),
        routes[i].path == routes[j].path,
    ensures
        i == j,
{
    assert(entry_wf(routes[i]));
    assert(entry_wf(routes[j]));
    lemma_same_shape_reflexive(routes[i].segs);
}

/// A copy of a vector of segments.
pub fn clone_segments(v: &Vec<Segment>) -> (r: Vec<Segment>)
    ensures
        seg_views(r@) == seg_views(v@),
{
    let mut r: Vec<Segment> = Vec::new();
    let mut i: usize = 0;
    while i < v.len()
        invariant
            i <= v.len(),
            r@.len() == i,
            seg_views(r@) == seg_views(v@).take(i as int),
        decreases v.len() - i,
    {
        let ghost before = r@;
        let c = v[i].clone_segment();
        r.push(c);
        assert(r@ == before.push(c));
        assert(seg_views(v@)[i as int] == c@);
        assert forall|k: int| 0 <= k <= i implies seg_views(r@)[k] == seg_views(v@).take(
            i + 1,
        )[k] by {
            if k < i {
                assert(seg_views(r@)[k] == seg_views(before)[k]);
            }
        }
        i = i + 1;
        assert(seg_views(r@) =~= seg_views(v@).take(i as int));
    }
    assert(seg_views(v@).take(i as int) =~= seg_views(v@));
    r
}

impl<S> RouteEntry<S> {
    pub fn clone_entry(&self) -> (r: Self)
        ensures
            r@ == self@,
    {
        RouteEntry {
            path: self.path.clone(),
            segments: clone_segments(&self.segments),
            endpoint: self.endpoint.clone_endpoint(),
            fallback: self.fallback,
        }
    }
}

impl<S> PathRouter<S> {
    /// A table without routes, with the checks for the old syntax on.
    pub fn new() -> (r: Self)
        ensures
            r@ == (PathRouterView::<S> { routes: Seq::empty(), v7_checks: true }),
            r@.wf(),
    {
        let r = PathRouter { routes: Vec::new(), v7_checks: true };
        assert(r@.routes =~= Seq::<EntryView<S>>::empty());
        r
    }

    /// A copy of this table.
    pub fn clone_router(&self) -> (r: Self)
        ensures
            r@ == self@,
    {
        let mut routes: Vec<RouteEntry<S>> = Vec::new();
        let mut i: usize = 0;
        while i < self.routes.len()
            invariant
                i <= self.routes.len(),
                routes@.len() == i,
                entry_views(routes@) == self@.routes.take(i as int),
            decreases self.routes.len() - i,
        {
            let ghost before = routes@;
            let c = self.routes[i].clone_entry();
            routes.push(c);
            assert(routes@ == before.push(c));
            assert(self@.routes[i as int] == self.routes@[i as int]@);
            assert forall|k: int| 0 <= k <= i implies #[trigger] entry_views(routes@)[k] == self@.routes.take(i + 1)[k] by {
                if k < i {
                    assert(routes@[k] == before[k]);
                }
            }
            i = i + 1;
            assert(entry_views(routes@) =~= self@.routes.take(i as int));
        }
        assert(self@.routes.take(i as int) =~= self@.routes);
        PathRouter { routes, v7_checks: self.v7_checks }
    }

    /// Turns the checks for the old syntax off.
    pub fn without_v07_checks(self) -> (r: Self)
        ensures
            r@ == (PathRouterView { v7_checks: false, ..self@ }),
    {
        PathRouter { routes: self.routes, v7_checks: false }
    }

    /// Whether any route is registered.
    pub fn has_routes(&self) -> (r: bool)
        ensures
            r == (self@.routes.len() > 0),
    {
        self.routes.len() > 0
    }

    /// The index of the route with a method router registered at `path`.
    fn find_method_router(&self, path: &Vec<char>) -> (r: Option<usize>)
        requires
            self@.wf(),
        ensures
            match r {
                Some(i) => self@.has_method_router_at(path@) && i == self@.method_router_index(
                    path@,
                ),
                None => !self@.has_method_router_at(path@),
            },
    {
        let mut i: usize = 0;
        while i < self.routes.len()
            invariant
                i <= self.routes.len(),
                self@.wf(),
                forall|k: int|
                    0 <= k < i ==> !((#[trigger] self@.routes[k]).path == path@
                        && self@.routes[k].endpoint is MethodRouter),
            decreases self.routes.len() - i,
        {
            let e = &self.routes[i];
            assert(self@.routes[i as int] == e@);
            let is_mr = match &e.endpoint {
                Endpoint::MethodRouter(_) => true,
                Endpoint::Route(_) => false,
            };
            if is_mr && vec_chars_eq(&e.path, path) {
                proof {
                    assert(self@.has_method_router_at(path@));
                    let j = self@.method_router_index(path@);
                    lemma_path_unique(self@.routes, i as int, j);
                }
                return Some(i);
            }
            i = i + 1;
        }
        None
    }

    /// The checks of registering a new route at `path`: on success, the
    /// parsed segments of the path.
    pub fn check_route_endpoint(&self, path: &Vec<char>) -> (r: Result<Vec<Segment>, RouteError>)
        ensures
            match r {
                Ok(segs) => {
                    &&& validate_path(self@.v7_checks, path@) is None
                    &&& parse_pattern(path@) == Some(seg_views(segs@))
                    &&& forall|e: Endpoint<S>|
                        #![trigger self@.spec_route_endpoint(path@, e)]
                        self@.spec_route_endpoint(path@, e) is Ok
                },
                Err(err) => forall|e: Endpoint<S>|
                    #![trigger self@.spec_route_endpoint(path@, e)]
                    self@.spec_route_endpoint(path@, e) == Err::<PathRouterView<S>, RouteError>(
                        err,
                    ),
            },
    {
        if let Some(e) = validate_path_exec(self.v7_checks, path) {
            return Err(e);
        }
        let segs = match parse_pattern_exec(path) {
            Some(segs) => segs,
            None => {
                return Err(RouteError::InvalidPattern);
            },
        };
        let mut i: usize = 0;
        while i < self.routes.len()
            invariant
                i <= self.routes.len(),
                validate_path(self.v7_checks, path@) is None,
                parse_pattern(path@) == Some(seg_views(segs@)),
                forall|k: int|
                    0 <= k < i ==> !same_shape(
                        (#[trigger] self@.routes[k]).segs,
                        seg_views(segs@),
                    ),
            decreases self.routes.len() - i,
        {
            assert(self@.routes[i as int] == self.routes[i as int]@);
            if same_shape_exec(&self.routes[i].segments, &segs) {
                assert(same_shape(self@.routes[i as int].segs, parse_pattern(path@)->0));
                return Err(RouteError::Conflict);
            }
            i = i + 1;
        }
        Ok(segs)
    }

    /// Adds an entry whose checks passed.
    fn push_entry(self, path: &Vec<char>, segs: Vec<Segment>, endpoint: Endpoint<S>) -> (r: Self)
        requires
            self@.wf(),
            validate_path(self@.v7_checks, path@) is None,
            parse_pattern(path@) == Some(seg_views(segs@)),
            self@.spec_route_endpoint(path@, endpoint) is Ok,
        ensures
            self@.spec_route_endpoint(path@, endpoint) == Ok::<PathRouterView<S>, RouteError>(r@),
            r@.wf(),
    {
        let ghost old_routes = self@.routes;
        let ghost new_entry = EntryView {
            path: path@,
            segs: seg_views(segs@),
            endpoint,
            fallback: false,
        };
        let mut routes = self.routes;
        routes.push(RouteEntry { path: path.clone(), segments: segs, endpoint, fallback: false });
        let r = PathRouter { routes, v7_checks: self.v7_checks };
        proof {
            assert(r@.routes =~= old_routes.push(new_entry));
            assert forall|b: int| 0 <= b < old_routes.len() implies !same_shape(
                old_routes[b].segs,
                new_entry.segs,
            ) by {
                assert(old_routes[b] == self@.routes[b]);
            }
            assert forall|a: int, b: int|
                0 <= a < r@.routes.len() && 0 <= b < r@.routes.len() && a != b implies !same_shape(
                #[trigger] r@.routes[a].segs,
                #[trigger] r@.routes[b].segs,
            ) by {
                if a == old_routes.len() {
                    assert(!same_shape(old_routes[b].segs, new_entry.segs));
                    if same_shape(new_entry.segs, old_routes[b].segs) {
                        lemma_same_shape_symmetric(new_entry.segs, old_routes[b].segs);
                    }
                } else if b == old_routes.len() {
                    assert(!same_shape(old_routes[a].segs, new_entry.segs));
                }
            }
        }
        r
    }

    /// Registers `endpoint` at `path` as a new route.
    pub fn route_endpoint(self, path: &Vec<char>, endpoint: Endpoint<S>) -> (r: Result<
        Self,
        RouteError,
    >)
        requires
            self@.wf(),
        ensures
            match r {
                Ok(pr) => self@.spec_route_endpoint(path@, endpoint) == Ok::<
                    PathRouterView<S>,
                    RouteError,
                >(pr@) && pr@.wf(),
                Err(e) => self@.spec_route_endpoint(path@, endpoint) == Err::<
                    PathRouterView<S>,
                    RouteError,
                >(e),
            },
    {
        match self.check_route_endpoint(path) {
            Ok(segs) => {
                assert(self@.spec_route_endpoint(path@, endpoint) is Ok);
                Ok(self.push_entry(path, segs, endpoint))
            },
            Err(e) => {
                assert(self@.spec_route_endpoint(path@, endpoint) is Err);
                Err(e)
            },
        }
    }

    /// Registers `endpoint` at `path` as a new route where that succeeds;
    /// else the table stays as it was.
    pub fn route_endpoint_or_keep(self, path: &Vec<char>, endpoint: Endpoint<S>) -> (r: Self)
        requires
            self@.wf(),
        ensures
            r@ == match self@.spec_route_endpoint(path@, endpoint) {
                Ok(v) => v,
                Err(_) => self@,
            },
            r@.wf(),
    {
        match self.check_route_endpoint(path) {
            Ok(segs) => {
                assert(self@.spec_route_endpoint(path@, endpoint) is Ok);
                self.push_entry(path, segs, endpoint)
            },
            Err(e) => {
                assert(self@.spec_route_endpoint(path@, endpoint) is Err);
                self
            },
        }
    }

    /// Marks the last route of this table as registered by the fallback.
    pub fn flag_last(self) -> (r: Self)
        requires
            self@.wf(),
            self@.routes.len() > 0,
        ensures
            r@ == self@.with_last_flagged(),
            r@.wf(),
    {
        let ghost old = self@;
        let PathRouter { routes, v7_checks } = self;
        let mut routes = routes;
        let e = routes.pop().unwrap();
        let RouteEntry { path, segments, endpoint, fallback: _ } = e;
        routes.push(RouteEntry { path, segments, endpoint, fallback: true });
        let r = PathRouter { routes, v7_checks };
        proof {
            assert(r@.routes =~= old.with_last_flagged().routes);
            lemma_with_last_flagged(old);
        }
        r
    }

    /// Registers `endpoint` at `path` as a route of the fallback where that
    /// succeeds; else the table stays as it was.
    pub fn route_fallback_or_keep(self, path: &Vec<char>, endpoint: Endpoint<S>) -> (r: Self)
        requires
            self@.wf(),
        ensures
            r@ == match self@.spec_route_endpoint(path@, endpoint) {
                Ok(v) => v.with_last_flagged(),
                Err(_) => self@,
            },
            r@.wf(),
    {
        let ghost old = self@;
        match self.check_route_endpoint(path) {
            Ok(segs) => {
                assert(self@.spec_route_endpoint(path@, endpoint) is Ok);
                let pr = self.push_entry(path, segs, endpoint);
                assert(pr@.routes.len() == old.routes.len() + 1);
                pr.flag_last()
            },
            Err(e) => {
                assert(self@.spec_route_endpoint(path@, endpoint) is Err);
                self
            },
        }
    }

    /// Removes the routes that the fallback registered.
    pub fn remove_fallback_routes(self) -> (r: Self)
        requires
            self@.wf(),
        ensures
            r@ == self@.without_fallback_routes(),
            r@.wf(),
    {
        let ghost old = self@;
        let ghost all = self@.routes;
        let PathRouter { routes, v7_checks } = self;
        let mut rest = routes;
        let mut out: Vec<RouteEntry<S>> = Vec::new();
        let mut i: usize = 0;
        proof {
            assert(all.skip(0) =~= all);
            assert(all.take(0) =~= Seq::<EntryView<S>>::empty());
            assert(entry_views(out@) =~= Seq::<EntryView<S>>::empty());
            assert(entry_views(rest@) =~= all);
            assert(all.len() == rest.len());
        }
        while rest.len() > 0
            invariant
                all.len() <= usize::MAX,
                i + rest.len() == all.len(),
                entry_views(rest@) == all.skip(i as int),
                entry_views(out@) == user_routes(all.take(i as int)),
            decreases rest.len(),
        {
            let ghost before_rest = rest@;
            let ghost before_out = out@;
            let e = rest.remove(0);
            assert(e@ == all[i as int]) by {
                assert(entry_views(before_rest)[0] == e@);
            }
            assert(entry_views(rest@) =~= all.skip(i + 1)) by {
                assert forall|k: int| 0 <= k < rest.len() implies #[trigger] entry_views(rest@)[k]
                    == all.skip(i + 1)[k] by {
                    assert(rest@[k] == before_rest[k + 1]);
                    assert(entry_views(before_rest)[k + 1] == all.skip(i as int)[k + 1]);
                }
            }
            assert(all.take(i + 1).drop_last() =~= all.take(i as int));
            assert(all.take(i + 1).last() == all[i as int]);
            if !e.fallback {
                out.push(e);
                assert(entry_views(out@) =~= entry_views(before_out).push(all[i as int]));
            }
            i = i + 1;
        }
        assert(all.take(i as int) =~= all);
        let r = PathRouter { routes: out, v7_checks };
        proof {
            lemma_user_routes(all);
        }
        r
    }

    /// Registers the method router `mr` at `path`, merged with the method
    /// router already registered there if there is one.
    pub fn route(self, path: &Vec<char>, mr: MethodRouter<S>) -> (r: Result<Self, RouteError>)
        requires
            self@.wf(),
        ensures
            match r {
                Ok(pr) => self@.spec_route(path@, mr) == Ok::<PathRouterView<S>, RouteError>(pr@)
                    && pr@.wf(),
                Err(e) => self@.spec_route(path@, mr) == Err::<PathRouterView<S>, RouteError>(e),
            },
    {
        if let Some(e) = validate_path_exec(self.v7_checks, path) {
            return Err(e);
        }
        match self.find_method_router(path) {
            Some(i) => {
                let ghost old_routes = self@.routes;
                let mut routes = self.routes;
                let entry = routes.remove(i);
                assert(entry@ == old_routes[i as int]);
                let prev = match entry.endpoint {
                    Endpoint::MethodRouter(prev) => prev,
                    Endpoint::Route(_) => {
                        assert(false);
                        return Err(RouteError::Conflict);
                    },
                };
                match prev.merge_for_path(mr) {
                    Ok(merged) => {
                        let new_entry = RouteEntry {
                            path: entry.path,
                            segments: entry.segments,
                            endpoint: Endpoint::MethodRouter(merged),
                            fallback: false,
                        };
                        routes.insert(i, new_entry);
                        let r = PathRouter { routes, v7_checks: self.v7_checks };
                        proof {
                            assert(r@.routes =~= old_routes.update(
                                i as int,
                                EntryView {
                                    endpoint: Endpoint::MethodRouter(merged),
                                    fallback: false,
                                    ..old_routes[i as int]
                                },
                            ));
                            assert forall|k: int| 0 <= k < r@.routes.len() implies entry_wf(
                                #[trigger] r@.routes[k],
                            ) by {
                                assert(entry_wf(old_routes[k]));
                            }
                            assert forall|a: int, b: int|
                                0 <= a < r@.routes.len() && 0 <= b < r@.routes.len() && a
                                    != b implies !same_shape(
                                #[trigger] r@.routes[a].segs,
                                #[trigger] r@.routes[b].segs,
                            ) by {
                                assert(r@.routes[a].segs == old_routes[a].segs);
                                assert(r@.routes[b].segs == old_routes[b].segs);
                            }
                        }
                        Ok(r)
                    },
                    Err(e) => Err(e),
                }
            },
            None => {
                let PathRouter { routes, v7_checks } = self;
                PathRouter { routes, v7_checks }.route_endpoint(
                    path,
                    Endpoint::MethodRouter(mr),
                )
            },
        }
    }
}

impl<S> PathRouter<S> {
    /// Registers the entries of `others` in turn, at their paths or nested
    /// under `prefix`; the first error stops.
    pub fn add_all(self, others: Vec<RouteEntry<S>>, prefix: Option<&Vec<char>>) -> (r: Result<
        Self,
        RouteError,
    >)
        requires
            self@.wf(),
        ensures
            ({
                let pre = match prefix {
                    Some(p) => Some(p@),
                    None => None,
                };
                match r {
                    Ok(pr) => self@.spec_add_all(entry_views(others@), pre) == Ok::<
                        PathRouterView<S>,
                        RouteError,
                    >(pr@) && pr@.wf(),
                    Err(e) => self@.spec_add_all(entry_views(others@), pre) == Err::<
                        PathRouterView<S>,
                        RouteError,
                    >(e),
                }
            }),
    {
        let ghost pre = match prefix {
            Some(p) => Some(p@),
            None => None,
        };
        let ghost es = entry_views(others@);
        let ghost start = self@;
        let depth: usize = match prefix {
            Some(p) => prefix_depth_exec(p),
            None => 0,
        };
        let mut cur = self;
        let mut i: usize = 0;
        proof {
            assert(es.skip(0) =~= es);
        }
        while i < others.len()
            invariant
                es == entry_views(others@),
                pre == (match prefix {
                    Some(p) => Some(p@),
                    None => None::<Seq<char>>,
                }),
                i <= others.len(),
                start == self@,
                cur@.wf(),
                start.spec_add_all(es, pre) == cur@.spec_add_all(es.skip(i as int), pre),
                pre is Some ==> depth == prefix_depth(pre->0),
            decreases others.len() - i,
        {
            let e = &others[i];
            assert(es.skip(i as int)[0] == e@);
            assert(es.skip(i as int).drop_first() =~= es.skip(i + 1));
            let path = match prefix {
                Some(p) => nested_path_exec(p, &e.path),
                None => e.path.clone(),
            };
            let ghost cv = cur@;
            let added_new = match &e.endpoint {
                Endpoint::MethodRouter(_) => cur.find_method_router(&path).is_none(),
                Endpoint::Route(_) => true,
            };
            let flag = prefix.is_none() && e.fallback && added_new;
            let endpoint = match prefix {
                Some(_) => e.endpoint.clone_endpoint().change(EndpointChange::Strip(depth)),
                None => e.endpoint.clone_endpoint(),
            };
            let step = match endpoint {
                Endpoint::MethodRouter(mr) => cur.route(&path, mr),
                Endpoint::Route(rt) => cur.route_endpoint(&path, Endpoint::Route(rt)),
            };
            let step = match step {
                Ok(next) => if flag {
                    assert(next@.routes.len() == cv.routes.len() + 1);
                    Ok(next.flag_last())
                } else {
                    Ok(next)
                },
                Err(err) => Err(err),
            };
            match step {
                Ok(next) => {
                    assert(cv.spec_add_entry(es.skip(i as int)[0], pre) == Ok::<
                        PathRouterView<S>,
                        RouteError,
                    >(next@));
                    cur = next;
                },
                Err(err) => {
                    assert(cv.spec_add_entry(es.skip(i as int)[0], pre) == Err::<
                        PathRouterView<S>,
                        RouteError,
                    >(err));
                    assert(cv.spec_add_all(es.skip(i as int), pre) == Err::<
                        PathRouterView<S>,
                        RouteError,
                    >(err));
                    return Err(err);
                },
            }
            i = i + 1;
        }
        assert(es.skip(i as int).len() == 0);
        Ok(cur)
    }

    /// Merges the routes of `other` into this table.
    pub fn merge(self, other: PathRouter<S>) -> (r: Result<Self, RouteError>)
        requires
            self@.wf(),
        ensures
            match r {
                Ok(pr) => self@.spec_merge(other@) == Ok::<PathRouterView<S>, RouteError>(pr@)
                    && pr@.wf(),
                Err(e) => self@.spec_merge(other@) == Err::<PathRouterView<S>, RouteError>(e),
            },
    {
        let PathRouter { routes, v7_checks } = other;
        let me = PathRouter { routes: self.routes, v7_checks: self.v7_checks || v7_checks };
        me.add_all(routes, None)
    }

    /// Nests the routes of `other` under `prefix`.
    pub fn nest(self, prefix: &Vec<char>, other: PathRouter<S>) -> (r: Result<Self, RouteError>)
        requires
            self@.wf(),
        ensures
            match r {
                Ok(pr) => self@.spec_nest(prefix@, other@) == Ok::<PathRouterView<S>, RouteError>(
                    pr@,
                ) && pr@.wf(),
                Err(e) => self@.spec_nest(prefix@, other@) == Err::<PathRouterView<S>, RouteError>(
                    e,
                ),
            },
    {
        if let Some(e) = validate_nest_path_exec(self.v7_checks, prefix) {
            return Err(e);
        }
        let PathRouter { routes, v7_checks: _ } = other;
        self.add_all(routes, Some(prefix))
    }

    /// Makes the change `c` to every endpoint of this table.
    pub fn map_endpoints(self, c: EndpointChange) -> (r: Self)
        requires
            self@.wf(),
        ensures
            r@.wf(),
            r@ == self@.spec_map_endpoints(c),
    {
        let ghost old_view = self@;
        let PathRouter { routes, v7_checks } = self;
        let mut out: Vec<RouteEntry<S>> = Vec::new();
        let mut rest = routes;
        let ghost all = entry_views(rest@);
        let mut i: usize = 0;
        let mut src: Vec<RouteEntry<S>> = Vec::new();
        // Move the entries out in order: reverse into `src`, then pop.
        while rest.len() > 0
            invariant
                all == old_view.routes,
                src.len() + rest.len() == all.len(),
                entry_views(rest@) == all.take(rest.len() as int),
                forall|k: int|
                    0 <= k < src.len() ==> (#[trigger] src@[k])@ == all[all.len() - 1 - k],
            decreases rest.len(),
        {
            let ghost before_src = src@;
            let ghost before_rest = rest@;
            let e = rest.pop().unwrap();
            assert(e@ == all[rest.len() as int]) by {
                assert(entry_views(before_rest)[rest.len() as int] == e@);
            }
            src.push(e);
            assert(entry_views(rest@) =~= all.take(rest.len() as int)) by {
                assert forall|k: int| 0 <= k < rest.len() implies #[trigger] entry_views(rest@)[k]
                    == all.take(rest.len() as int)[k] by {
                    assert(rest@[k] == before_rest[k]);
                    assert(entry_views(before_rest)[k] == all.take(rest.len() + 1)[k]);
                }
            }
            assert forall|k: int| 0 <= k < src.len() implies (#[trigger] src@[k])@ == all[all.len()
                - 1 - k] by {
                if k < src.len() - 1 {
                    assert(src@[k] == before_src[k]);
                }
            }
        }
        while src.len() > 0
            invariant
                all == old_view.routes,
                all.len() <= usize::MAX,
                i + src.len() == all.len(),
                out.len() == i,
                forall|k: int|
                    0 <= k < src.len() ==> (#[trigger] src@[k])@ == all[all.len() - 1 - k],
                forall|k: int|
                    0 <= k < i ==> (#[trigger] out@[k])@ == (EntryView {
                        endpoint: all[k].endpoint.changed(c),
                        ..all[k]
                    }),
            decreases src.len(),
        {
            let ghost before_src = src@;
            let ghost before_out = out@;
            let e = src.pop().unwrap();
            assert(e@ == all[i as int]) by {
                assert(before_src[src.len() as int] == e);
            }
            let RouteEntry { path, segments, endpoint, fallback } = e;
            let endpoint = endpoint.change(c);
            out.push(RouteEntry { path, segments, endpoint, fallback });
            assert forall|k: int| 0 <= k < src.len() implies (#[trigger] src@[k])@ == all[all.len()
                - 1 - k] by {
                assert(src@[k] == before_src[k]);
            }
            assert forall|k: int| 0 <= k <= i implies (#[trigger] out@[k])@ == (EntryView {
                endpoint: all[k].endpoint.changed(c),
                ..all[k]
            }) by {
                if k < i {
                    assert(out@[k] == before_out[k]);
                }
            }
            i = i + 1;
        }
        let r = PathRouter { routes: out, v7_checks };
        proof {
            assert forall|k: int| 0 <= k < r@.routes.len() implies entry_wf(
                #[trigger] r@.routes[k],
            ) by {
                assert(r@.routes[k] == out@[k]@);
                assert(entry_wf(all[k]));
            }
            assert forall|a: int, b: int|
                0 <= a < r@.routes.len() && 0 <= b < r@.routes.len() && a != b implies !same_shape(
                #[trigger] r@.routes[a].segs,
                #[trigger] r@.routes[b].segs,
            ) by {
                assert(r@.routes[a] == out@[a]@);
                assert(r@.routes[b] == out@[b]@);
                assert(!same_shape(all[a].segs, all[b].segs));
            }
            assert forall|k: int| 0 <= k < old_view.routes.len() implies (
            #[trigger] r@.routes[k]) == (EntryView {
                endpoint: old_view.routes[k].endpoint.changed(c),
                ..old_view.routes[k]
            }) by {
                assert(r@.routes[k] == out@[k]@);
            }
            assert(r@.routes =~= old_view.spec_map_endpoints(c).routes);
        }
        r
    }

    /// Sets the fallback of every method router with only the default one to `handler`.
    pub fn method_not_allowed_fallback(self, handler: u64) -> (r: Self)
        requires
            self@.wf(),
        ensures
            r@.wf(),
            r@ == self@.spec_method_not_allowed_fallback(handler),
    {
        self.map_endpoints(EndpointChange::DefaultFallback(handler))
    }

    /// Wraps every endpoint of this table in the layer `l`.
    pub fn layer(self, l: u64) -> (r: Self)
        requires
            self@.wf(),
        ensures
            r@.wf(),
            r@ == self@.spec_layer(l),
    {
        self.map_endpoints(EndpointChange::Layer(l))
    }
}

/// The segments of a request path, if it starts with `/`.
pub open spec fn request_segments(path: Seq<char>) -> Option<Seq<Seq<char>>> {
    if path.len() > 0 && path[0] == '/' {
        Some(split_slash(path.drop_first()))
    } else {
        None
    }
}

impl<S> PathRouterView<S> {
    /// The route at `i` matches the request segments `req`.
    pub open spec fn route_matches(self, i: int, req: Seq<Seq<char>>) -> bool {
        0 <= i < self.routes.len() && pattern_matches(self.routes[i].segs, req)
    }

    /// The route at `i` matches `req`, and no matching route is more specific.
    pub open spec fn is_best_match(self, i: int, req: Seq<Seq<char>>) -> bool {
        &&& self.route_matches(i, req)
        &&& forall|j: int|
            #![trigger self.routes[j]]
            self.route_matches(j, req) ==> !more_specific(self.routes[j].segs, self.routes[i].segs)
    }

    /// Some route matches `req`.
    pub open spec fn any_match(self, req: Seq<Seq<char>>) -> bool {
        exists|i: int| #[trigger] self.route_matches(i, req)
    }

    /// This table with the change `c` made to every endpoint.
    pub open spec fn spec_map_endpoints(self, c: EndpointChange) -> PathRouterView<S> {
        PathRouterView {
            routes: Seq::new(
                self.routes.len(),
                |i: int| EntryView { endpoint: self.routes[i].endpoint.changed(c), ..self.routes[i] },
            ),
            v7_checks: self.v7_checks,
        }
    }

    /// This table with the fallback of every method router with only the
    /// default one set to `handler`.
    pub open spec fn spec_method_not_allowed_fallback(self, handler: u64) -> PathRouterView<S> {
        self.spec_map_endpoints(EndpointChange::DefaultFallback(handler))
    }

    /// This table with every endpoint wrapped in the layer `l`.
    pub open spec fn spec_layer(self, l: u64) -> PathRouterView<S> {
        self.spec_map_endpoints(EndpointChange::Layer(l))
    }

    /// The route at which a request with segments `req` ends, if any
    /// matches: the most specific one.
    pub open spec fn best_index(self, req: Seq<Seq<char>>) -> int {
        choose|i: int| self.is_best_match(i, req)
    }

    /// The same table, for another state type.
    pub open spec fn spec_with_state<S2>(self, state: u64) -> PathRouterView<S2> {
        PathRouterView {
            routes: Seq::new(
                self.routes.len(),
                |i: int|
                    EntryView {
                        path: self.routes[i].path,
                        segs: self.routes[i].segs,
                        endpoint: self.routes[i].endpoint.spec_with_state::<S2>(state),
                        fallback: self.routes[i].fallback,
                    },
            ),
            v7_checks: self.v7_checks,
        }
    }
}

impl<S> PathRouter<S> {
    /// The route that answers the request path `path`, with its captures:
    /// the most specific of the routes that match it.
    pub fn find_route(&self, path: &Vec<char>) -> (r: Option<(usize, Vec<(Vec<char>, Vec<char>)>)>)
        ensures
            match r {
                Some((i, caps)) => request_segments(path@) is Some && self@.is_best_match(
                    i as int,
                    request_segments(path@)->0,
                ) && pair_views(caps@) == captures(
                    self@.routes[i as int].segs,
                    request_segments(path@)->0,
                ),
                None => request_segments(path@) is None || !self@.any_match(
                    request_segments(path@)->0,
                ),
            },
    {
        if path.len() == 0 || path[0] != '/' {
            return None;
        }
        let req = split_from(path, 1);
        let ghost q = split_slash(path@.drop_first());
        proof {
            assert(path@.subrange(1, path.len() as int) =~= path@.drop_first());
        }
        let mut best: Option<(usize, Vec<(Vec<char>, Vec<char>)>)> = None;
        let mut i: usize = 0;
        while i < self.routes.len()
            invariant
                views(req@) == q,
                i <= self.routes.len(),
                match best {
                    Some((b, caps)) => b < i && self@.route_matches(b as int, q) && pair_views(
                        caps@,
                    ) == captures(self@.routes[b as int].segs, q) && forall|j: int|
                        #![trigger self@.routes[j]]
                        0 <= j < i && self@.route_matches(j, q) ==> !more_specific(
                            self@.routes[j].segs,
                            self@.routes[b as int].segs,
                        ),
                    None => forall|j: int|
                        #![trigger self@.routes[j]]
                        0 <= j < i ==> !self@.route_matches(j, q),
                },
            decreases self.routes.len() - i,
        {
            assert(self@.routes[i as int] == self.routes@[i as int]@);
            match match_segments(&self.routes[i].segments, &req) {
                Some(caps) => {
                    let take = match &best {
                        None => true,
                        Some((b, _)) => {
                            assert(self@.routes[*b as int] == self.routes@[*b as int]@);
                            more_specific_exec(&self.routes[i].segments, &self.routes[*b].segments)
                        },
                    };
                    if take {
                        proof {
                            lemma_more_specific_irreflexive(self@.routes[i as int].segs);
                            match &best {
                                Some((b, _)) => {
                                    let b = *b;
                                    assert forall|j: int|
                                        #![trigger self@.routes[j]]
                                        0 <= j < i && self@.route_matches(j, q) implies !more_specific(
                                        self@.routes[j].segs,
                                        self@.routes[i as int].segs,
                                    ) by {
                                        if more_specific(
                                            self@.routes[j].segs,
                                            self@.routes[i as int].segs,
                                        ) {
                                            lemma_more_specific_transitive(
                                                self@.routes[j].segs,
                                                self@.routes[i as int].segs,
                                                self@.routes[b as int].segs,
                                            );
                                        }
                                    }
                                },
                                None => {},
                            }
                        }
                        best = Some((i, caps));
                    }
                },
                None => {},
            }
            i = i + 1;
        }
        proof {
            match best {
                Some((b, _)) => {
                    assert(self@.is_best_match(b as int, q));
                },
                None => {
                    assert(!self@.any_match(q));
                },
            }
        }
        best
    }
}

impl<S> PathRouter<S> {
    /// The same table, for another state type.
    pub fn with_state<S2>(self, state: u64) -> (r: PathRouter<S2>)
        requires
            self@.wf(),
        ensures
            r@ == self@.spec_with_state::<S2>(state),
            r@.wf(),
    {
        let ghost all = self@.routes;
        let PathRouter { routes, v7_checks } = self;
        let mut rest = routes;
        let mut out: Vec<RouteEntry<S2>> = Vec::new();
        let mut i: usize = 0;
        proof {
            assert(all.skip(0) =~= all);
            assert(all.len() == rest.len());
        }
        while rest.len() > 0
            invariant
                all.len() <= usize::MAX,
                i + rest.len() == all.len(),
                entry_views(rest@) == all.skip(i as int),
                out.len() == i,
                forall|k: int|
                    0 <= k < i ==> (#[trigger] out@[k])@ == (EntryView {
                        path: all[k].path,
                        segs: all[k].segs,
                        endpoint: all[k].endpoint.spec_with_state::<S2>(state),
                        fallback: all[k].fallback,
                    }),
            decreases rest.len(),
        {
            let ghost before_rest = rest@;
            let ghost before_out = out@;
            let e = rest.remove(0);
            assert(e@ == all[i as int]) by {
                assert(entry_views(before_rest)[0] == e@);
            }
            assert(entry_views(rest@) =~= all.skip(i + 1)) by {
                assert forall|k: int| 0 <= k < rest.len() implies #[trigger] entry_views(rest@)[k]
                    == all.skip(i + 1)[k] by {
                    assert(rest@[k] == before_rest[k + 1]);
                    assert(entry_views(before_rest)[k + 1] == all.skip(i as int)[k + 1]);
                }
            }
            let RouteEntry { path, segments, endpoint, fallback } = e;
            let endpoint = match endpoint {
                Endpoint::MethodRouter(mr) => Endpoint::MethodRouter(mr.with_state::<S2>(state)),
                Endpoint::Route(rt) => Endpoint::Route(rt.with_state(state)),
            };
            out.push(RouteEntry { path, segments, endpoint, fallback });
            assert forall|k: int| 0 <= k <= i implies (#[trigger] out@[k])@ == (EntryView {
                path: all[k].path,
                segs: all[k].segs,
                endpoint: all[k].endpoint.spec_with_state::<S2>(state),
                fallback: all[k].fallback,
            }) by {
                if k < i {
                    assert(out@[k] == before_out[k]);
                }
            }
            i = i + 1;
        }
        let r = PathRouter { routes: out, v7_checks };
        proof {
            assert(r@.routes =~= self@.spec_with_state::<S2>(state).routes) by {
                assert forall|k: int| 0 <= k < r@.routes.len() implies #[trigger] r@.routes[k]
                    == self@.spec_with_state::<S2>(state).routes[k] by {
                    assert(r@.routes[k] == out@[k]@);
                }
            }
            assert forall|k: int| 0 <= k < r@.routes.len() implies entry_wf(
                #[trigger] r@.routes[k],
            ) by {
                assert(entry_wf(all[k]));
            }
            assert forall|a: int, b: int|
                0 <= a < r@.routes.len() && 0 <= b < r@.routes.len() && a != b implies !same_shape(
                #[trigger] r@.routes[a].segs,
                #[trigger] r@.routes[b].segs,
            ) by {
                assert(!same_shape(all[a].segs, all[b].segs));
            }
        }
        r
    }
}

/// In a well-formed table, the most specific route that matches a request
/// path is unique: the answer to a request does not depend on the order in
/// which the routes were registered.
pub proof fn lemma_best_match_unique<S>(pr: PathRouterView<S>, req: Seq<Seq<char>>, i: int, j: int)
    requires
        pr.wf(),
        pr.is_best_match(i, req),
        pr.is_best_match(j, req),
    ensures
        i == j,
{
    if i != j {
        assert(!same_shape(pr.routes[i].segs, pr.routes[j].segs));
        lemma_more_specific_total(pr.routes[i].segs, pr.routes[j].segs, req);
        assert(pr.route_matches(j, req));
        assert(pr.route_matches(i, req));
    }
}

/// Every route that stays after removing the fallback's routes is a route
/// of the table, and the table stays well formed.
pub proof fn lemma_user_routes<S>(routes: Seq<EntryView<S>>)
    ensures
        forall|k: int|
            0 <= k < user_routes(routes).len() ==> exists|j: int|
                0 <= j < routes.len() && #[trigger] user_routes(routes)[k] == routes[j],
        routes_wf(routes) ==> routes_wf(user_routes(routes)),
    decreases routes.len(),
{
    if routes.len() > 0 {
        let rest = routes.drop_last();
        let last = routes.last();
        lemma_user_routes(rest);
        let u = user_routes(rest);
        assert forall|k: int| 0 <= k < user_routes(routes).len() implies exists|j: int|
            0 <= j < routes.len() && #[trigger] user_routes(routes)[k] == routes[j] by {
            if k < u.len() {
                let j = choose|j: int| 0 <= j < rest.len() && u[k] == rest[j];
                assert(routes[j] == rest[j]);
            } else {
                assert(user_routes(routes)[k] == routes[routes.len() - 1]);
            }
        }
        if routes_wf(routes) {
            assert(routes_wf(rest)) by {
                assert forall|i: int| 0 <= i < rest.len() implies entry_wf(#[trigger] rest[i]) by {
                    assert(entry_wf(routes[i]));
                }
                assert forall|a: int, b: int|
                    0 <= a < rest.len() && 0 <= b < rest.len() && a != b implies !same_shape(
                    #[trigger] rest[a].segs,
                    #[trigger] rest[b].segs,
                ) by {
                    assert(!same_shape(routes[a].segs, routes[b].segs));
                }
            }
            if !last.fallback {
                let w = u.push(last);
                assert forall|i: int| 0 <= i < w.len() implies entry_wf(#[trigger] w[i]) by {
                    if i < u.len() {
                        assert(entry_wf(u[i]));
                    } else {
                        assert(entry_wf(routes[routes.len() - 1]));
                    }
                }
                assert forall|a: int, b: int|
                    0 <= a < w.len() && 0 <= b < w.len() && a != b implies !same_shape(
                    #[trigger] w[a].segs,
                    #[trigger] w[b].segs,
                ) by {
                    let n = routes.len() - 1;
                    if a < u.len() && b < u.len() {
                        assert(!same_shape(u[a].segs, u[b].segs));
                    } else if a < u.len() {
                        let j = choose|j: int| 0 <= j < rest.len() && u[a] == rest[j];
                        assert(routes[j] == rest[j]);
                        assert(!same_shape(routes[j].segs, routes[n].segs));
                    } else {
                        let j = choose|j: int| 0 <= j < rest.len() && u[b] == rest[j];
                        assert(routes[j] == rest[j]);
                        assert(!same_shape(routes[n].segs, routes[j].segs));
                    }
                }
            }
        }
    }
}

/// A table none of whose routes the fallback registered keeps all of them.
pub proof fn lemma_user_routes_all<S>(routes: Seq<EntryView<S>>)
    requires
        forall|k: int| 0 <= k < routes.len() ==> !(#[trigger] routes[k]).fallback,
    ensures
        user_routes(routes) == routes,
    decreases routes.len(),
{
    if routes.len() > 0 {
        let rest = routes.drop_last();
        assert forall|k: int| 0 <= k < rest.len() implies !(#[trigger] rest[k]).fallback by {
            assert(rest[k] == routes[k]);
        }
        lemma_user_routes_all(rest);
        assert(rest.push(routes.last()) =~= routes);
    }
}

/// Marking the last route as the fallback's keeps the paths, the segments
/// and the well-formedness of a table.
pub proof fn lemma_with_last_flagged<S>(v: PathRouterView<S>)
    requires
        v.routes.len() > 0,
    ensures
        v.with_last_flagged().routes.len() == v.routes.len(),
        v.with_last_flagged().v7_checks == v.v7_checks,
        forall|k: int|
            0 <= k < v.routes.len() ==> (#[trigger] v.with_last_flagged().routes[k]).path
                == v.routes[k].path && v.with_last_flagged().routes[k].segs == v.routes[k].segs
                && v.with_last_flagged().routes[k].endpoint == v.routes[k].endpoint,
        forall|q: Seq<char>| v.has_path(q) == #[trigger] v.with_last_flagged().has_path(q),
        v.wf() ==> v.with_last_flagged().wf(),
{
    let w = v.with_last_flagged();
    assert forall|q: Seq<char>| v.has_path(q) == #[trigger] w.has_path(q) by {
        if v.has_path(q) {
            let k = choose|k: int| 0 <= k < v.routes.len() && (#[trigger] v.routes[k]).path == q;
            assert(w.routes[k].path == q);
        }
        if w.has_path(q) {
            let k = choose|k: int| 0 <= k < w.routes.len() && (#[trigger] w.routes[k]).path == q;
            assert(v.routes[k].path == q);
        }
    }
    if v.wf() {
        assert forall|k: int| 0 <= k < w.routes.len() implies entry_wf(#[trigger] w.routes[k]) by {
            assert(entry_wf(v.routes[k]));
        }
        assert forall|a: int, b: int|
            0 <= a < w.routes.len() && 0 <= b < w.routes.len() && a != b implies !same_shape(
            #[trigger] w.routes[a].segs,
            #[trigger] w.routes[b].segs,
        ) by {
            assert(!same_shape(v.routes[a].segs, v.routes[b].segs));
        }
    }
}

pub proof fn lemma_same_shape_symmetric(a: Seq<PatSeg>, b: Seq<PatSeg>)
    requires
        same_shape(a, b),
    ensures
        same_shape(b, a),
{
    assert forall|i: int| 0 <= i < b.len() implies seg_same_shape(#[trigger] b[i], a[i]) by {
        assert(seg_same_shape(a[i], b[i]));
        match (a[i], b[i]) {
            (PatSeg::Static(_), PatSeg::Static(_)) => {},
            (PatSeg::Param(_), PatSeg::Param(_)) => {},
            (PatSeg::Wildcard(_), PatSeg::Wildcard(_)) => {},
            _ => {},
        }
    }
}

} // verus!
