//! The router: routes, nesting, merging, the fallback, and which handler
//! answers a request.

use vstd::prelude::*;

use core::marker::PhantomData;
use std::sync::Arc;

use crate::error::RouteError;
use crate::method_routing::{any, Method, MethodRouter};
use crate::path::chars_of;
use crate::path_router::{request_segments, Endpoint, PathRouter, PathRouterView};
use crate::route::{Layers, Route, StateSlot, Target};

verus! {

broadcast use vstd::string::group_string_axioms;

/// The name under which the fallback routes capture the rest of the path.
pub const FALLBACK_PARAM: &'static str = "__private__axum_fallback";

/// The path at which the fallback is registered for every path but `/`.
pub const FALLBACK_PARAM_PATH: &'static str = "/{*__private__axum_fallback}";

/// A handler that still needs the state of the router to run, and the
/// layers that will wrap it once it has the state.
#[derive(Debug)]
pub struct BoxedIntoRoute<S> {
    pub handler: u64,
    pub layers: Layers,
    pub state: PhantomData<S>,
}

impl<S> BoxedIntoRoute<S> {
    /// The service this handler becomes, handed the state `state`.
    pub open spec fn spec_into_route(self, state: StateSlot) -> Route {
        Route { target: Target::Handler(self.handler), layers: self.layers, state, strip: 0 }
    }

    /// The service this handler becomes, handed the state `state`.
    pub fn into_route(self, state: StateSlot) -> (r: Route)
        ensures
            r == self.spec_into_route(state),
    {
        Route { target: Target::Handler(self.handler), layers: self.layers, state, strip: 0 }
    }

    /// This handler, to be wrapped in the layer `l` once it has the state.
    pub open spec fn spec_layer(self, l: u64) -> BoxedIntoRoute<S> {
        BoxedIntoRoute { layers: Layers::Cons(l, Box::new(self.layers)), ..self }
    }

    /// Wraps this handler in the layer `l`, once it has the state.
    pub fn layer(self, l: u64) -> (r: Self)
        ensures
            r == self.spec_layer(l),
    {
        BoxedIntoRoute { handler: self.handler, layers: Layers::Cons(l, Box::new(self.layers)), state: PhantomData }
    }

    pub fn clone_boxed(&self) -> (r: Self)
        ensures
            r == *self,
    {
        BoxedIntoRoute { handler: self.handler, layers: self.layers.clone_layers(), state: PhantomData }
    }
}

/// What answers the requests that no route matches.
#[derive(Debug)]
pub enum Fallback<S> {
    /// The default: `404 Not Found`.
    Default(Route),
    /// A service of the user's.
    Service(Route),
    /// A handler of the user's, which still needs the state.
    BoxedHandler(BoxedIntoRoute<S>),
}

impl<S> Fallback<S> {
    /// What answers a request that reaches this fallback.
    pub open spec fn spec_route(self) -> Route {
        match self {
            Fallback::Default(r) => r,
            Fallback::Service(r) => r,
            Fallback::BoxedHandler(h) => h.spec_into_route(StateSlot::Missing),
        }
    }

    /// This fallback with its service wrapped in the layer `l`.
    pub open spec fn spec_layer(self, l: u64) -> Fallback<S> {
        match self {
            Fallback::Default(r) => Fallback::Default(r.spec_layer(l)),
            Fallback::Service(r) => Fallback::Service(r.spec_layer(l)),
            Fallback::BoxedHandler(h) => Fallback::BoxedHandler(h.spec_layer(l)),
        }
    }

    /// Wraps the service of this fallback in the layer `l`.
    pub fn layer(self, l: u64) -> (r: Self)
        ensures
            r == self.spec_layer(l),
    {
        match self {
            Fallback::Default(route) => Fallback::Default(route.layer(l)),
            Fallback::Service(route) => Fallback::Service(route.layer(l)),
            Fallback::BoxedHandler(h) => Fallback::BoxedHandler(h.layer(l)),
        }
    }

    /// The fallback of two merged routers: the one that is not the default,
    /// if at most one of them is a fallback of the user's.
    pub open spec fn spec_merge(self, other: Fallback<S>) -> Option<Fallback<S>> {
        if self is Default {
            Some(other)
        } else if other is Default {
            Some(self)
        } else {
            None
        }
    }

    /// This fallback once the state `state` is supplied: a handler becomes
    /// a service that is handed that state.
    pub open spec fn spec_with_state<S2>(self, state: u64) -> Fallback<S2> {
        match self {
            Fallback::Default(r) => Fallback::Default(r.spec_with_state(state)),
            Fallback::Service(r) => Fallback::Service(r.spec_with_state(state)),
            Fallback::BoxedHandler(h) => Fallback::Service(h.spec_into_route(StateSlot::Given(state))),
        }
    }

    /// Merges the fallbacks of two routers; `None` where both are the user's.
    pub fn merge(self, other: Self) -> (r: Option<Self>)
        ensures
            r == self.spec_merge(other),
    {
        match (self, other) {
            (Fallback::Default(_), pick) => Some(pick),
            (pick, Fallback::Default(_)) => Some(pick),
            _ => None,
        }
    }

    /// This fallback once the state `state` is supplied.
    pub fn with_state<S2>(self, state: u64) -> (r: Fallback<S2>)
        ensures
            r == self.spec_with_state::<S2>(state),
    {
        match self {
            Fallback::Default(route) => Fallback::Default(route.with_state(state)),
            Fallback::Service(route) => Fallback::Service(route.with_state(state)),
            Fallback::BoxedHandler(handler) => Fallback::Service(
                handler.into_route(StateSlot::Given(state)),
            ),
        }
    }

    /// What answers a request that reaches this fallback: a handler that
    /// still needs the state is handed the one the router is called with.
    pub fn call_with_state(&self) -> (r: Route)
        ensures
            r == self.spec_route(),
    {
        match self {
            Fallback::Default(route) => route.clone_route(),
            Fallback::Service(route) => route.clone_route(),
            Fallback::BoxedHandler(handler) => handler.clone_boxed().into_route(StateSlot::Missing),
        }
    }

    /// Whether this is the default fallback.
    pub fn is_default(&self) -> (r: bool)
        ensures
            r == (*self is Default),
    {
        match self {
            Fallback::Default(_) => true,
            _ => false,
        }
    }

    pub fn clone_fallback(&self) -> (r: Self)
        ensures
            r == *self,
    {
        match self {
            Fallback::Default(route) => Fallback::Default(route.clone_route()),
            Fallback::Service(route) => Fallback::Service(route.clone_route()),
            Fallback::BoxedHandler(h) => Fallback::BoxedHandler(h.clone_boxed()),
        }
    }
}

/// The parts of a router.
#[derive(Debug)]
pub struct RouterInner<S> {
    pub path_router: PathRouter<S>,
    pub default_fallback: bool,
    pub catch_all_fallback: Fallback<S>,
}

/// The mathematical form of a router.
pub struct RouterView<S> {
    pub path_router: PathRouterView<S>,
    pub default_fallback: bool,
    pub catch_all_fallback: Fallback<S>,
}

impl<S> View for RouterInner<S> {
    type V = RouterView<S>;

    open spec fn view(&self) -> RouterView<S> {
        RouterView {
            path_router: self.path_router@,
            default_fallback: self.default_fallback,
            catch_all_fallback: self.catch_all_fallback,
        }
    }
}

impl<S> RouterView<S> {
    /// A well-formed router: its table is, it has the default fallback
    /// exactly when it is marked so, and the default fallback answers
    /// `404 Not Found` (through whatever layers wrap it).
    pub open spec fn wf(self) -> bool {
        &&& self.path_router.wf()
        &&& self.default_fallback == (self.catch_all_fallback is Default)
        &&& self.catch_all_fallback is Default ==> self.catch_all_fallback->Default_0.target
            == Target::NotFound
    }
}

/// A router: the routes of an application, and its fallback. `S` is the
/// type of the state that its handlers still need.
#[derive(Debug)]
pub struct Router<S = ()> {
    inner: Arc<RouterInner<S>>,
}

impl<S> View for Router<S> {
    type V = RouterView<S>;

    closed spec fn view(&self) -> RouterView<S> {
        (*self.inner)@
    }
}

impl<S> Router<S> {
    /// Every router is well formed.
    #[verifier::type_invariant]
    spec fn router_wf(self) -> bool {
        (*self.inner)@.wf()
    }
}

/// `Arc::try_unwrap`: the value itself where this is the only reference,
/// else the reference back. The contract claims only that the value is the
/// same in both cases, as std documents.
#[verifier::external_body]
fn arc_try_unwrap<T>(a: Arc<T>) -> (r: Result<T, Arc<T>>)
    ensures
        match r {
            Ok(t) => t == *a,
            Err(b) => *b == *a,
        },
{
    Arc::try_unwrap(a)
}

/// `Arc::clone`: another reference to the same value, as std documents.
#[verifier::external_body]
fn arc_clone<T>(a: &Arc<T>) -> (r: Arc<T>)
    ensures
        *r == **a,
{
    Arc::clone(a)
}

/// `String::push`: appends one character, as std documents.
#[verifier::external_body]
fn string_push(s: &mut String, c: char)
    ensures
        final(s)@ == old(s)@.push(c),
{
    s.push(c)
}

/// The string of the characters `v`.
pub fn string_of(v: &Vec<char>) -> (r: String)
    ensures
        r@ == v@,
{
    let mut r = String::new();
    let mut i: usize = 0;
    while i < v.len()
        invariant
            i <= v.len(),
            r@ == v@.take(i as int),
        decreases v.len() - i,
    {
        string_push(&mut r, v[i]);
        i = i + 1;
        assert(r@ =~= v@.take(i as int));
    }
    assert(v@.take(i as int) =~= v@);
    r
}

/// The outcome of registering on a table, for the whole router.
pub open spec fn with_table<S>(r: RouterView<S>, t: Result<PathRouterView<S>, RouteError>) -> Result<
    RouterView<S>,
    RouteError,
> {
    match t {
        Ok(pr) => Ok(RouterView { path_router: pr, ..r }),
        Err(e) => Err(e),
    }
}

/// The table after registering `endpoint` at `path` as a route of the
/// fallback where that succeeds; else the table as it was.
pub open spec fn route_fallback_or_keep<S>(
    pr: PathRouterView<S>,
    path: Seq<char>,
    endpoint: Endpoint<S>,
) -> PathRouterView<S> {
    match pr.spec_route_endpoint(path, endpoint) {
        Ok(v) => v.with_last_flagged(),
        Err(_) => pr,
    }
}

/// What answers a request: the service, the captures of the route that
/// matched, and the path that the service sees (without the prefixes it was
/// nested under).
#[derive(Debug, Clone, PartialEq, Eq)]
pub struct Dispatch {
    pub route: Route,
    pub params: Vec<(String, String)>,
    pub path: String,
}

/// The (name, value) strings held by a vector of pairs.
pub open spec fn string_pair_views(v: Seq<(String, String)>) -> Seq<(Seq<char>, Seq<char>)> {
    v.map_values(|p: (String, String)| (p.0@, p.1@))
}

impl<S> RouterView<S> {
    /// The router that `Router::new` gives.
    pub open spec fn empty() -> RouterView<S> {
        RouterView {
            path_router: PathRouterView { routes: Seq::empty(), v7_checks: true },
            default_fallback: true,
            catch_all_fallback: Fallback::Default(Route::plain(Target::NotFound)),
        }
    }

    pub open spec fn spec_without_v07_checks(self) -> RouterView<S> {
        RouterView {
            path_router: PathRouterView { v7_checks: false, ..self.path_router },
            ..self
        }
    }

    /// What registering `mr` at `path` gives.
    pub open spec fn spec_route(self, path: Seq<char>, mr: MethodRouter<S>) -> Result<
        RouterView<S>,
        RouteError,
    > {
        with_table(self, self.path_router.spec_route(path, mr))
    }

    /// What registering the service `service` at `path` gives.
    pub open spec fn spec_route_service(self, path: Seq<char>, service: u64) -> Result<
        RouterView<S>,
        RouteError,
    > {
        with_table(
            self,
            self.path_router.spec_route_endpoint(path, Endpoint::Route(Route::plain(Target::Handler(service)))),
        )
    }

    /// What nesting `other` at `path` gives: nesting at the root is refused;
    /// the fallback of `other` is dropped.
    pub open spec fn spec_nest(self, path: Seq<char>, other: RouterView<S>) -> Result<
        RouterView<S>,
        RouteError,
    > {
        if path.len() == 0 || path == seq!['/'] {
            Err(RouteError::NestAtRoot)
        } else {
            with_table(self, self.path_router.spec_nest(path, other.path_router))
        }
    }

    /// What nesting the service `service` at `path` gives: nesting at the
    /// root is refused.
    pub open spec fn spec_nest_service(self, path: Seq<char>, service: u64) -> Result<
        RouterView<S>,
        RouteError,
    > {
        if path.len() == 0 || path == seq!['/'] {
            Err(RouteError::NestServiceAtRoot)
        } else {
            with_table(self, self.path_router.spec_nest_service(path, Route::plain(Target::Handler(service))))
        }
    }

    /// What merging `other` into this router gives: refused where both have
    /// a fallback of their own; else the routes of both, and the fallback
    /// that is not the default.
    pub open spec fn spec_merge(self, other: RouterView<S>) -> Result<RouterView<S>, RouteError> {
        if !self.default_fallback && !other.default_fallback {
            Err(RouteError::MergeFallbacks)
        } else {
            match self.path_router.spec_merge(other.path_router) {
                Ok(pr) => Ok(
                    RouterView {
                        path_router: pr,
                        default_fallback: self.default_fallback && other.default_fallback,
                        catch_all_fallback: self.catch_all_fallback.spec_merge(
                            other.catch_all_fallback,
                        )->0,
                    },
                ),
                Err(e) => Err(e),
            }
        }
    }

    /// Registers `endpoint` at `/` and at every other path, each where the
    /// table admits it; the router has a fallback of its own from then on.
    pub open spec fn spec_fallback_endpoint(self, endpoint: Endpoint<S>) -> RouterView<S> {
        RouterView {
            path_router: route_fallback_or_keep(
                route_fallback_or_keep(self.path_router, seq!['/'], endpoint),
                FALLBACK_PARAM_PATH@,
                endpoint,
            ),
            default_fallback: false,
            ..self
        }
    }

    /// The router with the handler `handler` as its fallback.
    pub open spec fn spec_fallback(self, handler: u64) -> RouterView<S> {
        RouterView {
            catch_all_fallback: Fallback::BoxedHandler(
                BoxedIntoRoute { handler, layers: Layers::Nil, state: PhantomData },
            ),
            ..self
        }.spec_fallback_endpoint(Endpoint::MethodRouter(crate::method_routing::spec_any(handler)))
    }

    /// The router with the service `service` as its fallback.
    pub open spec fn spec_fallback_service(self, service: u64) -> RouterView<S> {
        RouterView {
            catch_all_fallback: Fallback::Service(Route::plain(Target::Handler(service))),
            ..self
        }.spec_fallback_endpoint(Endpoint::Route(Route::plain(Target::Handler(service))))
    }

    /// The router with every route and its fallback wrapped in the layer `l`.
    pub open spec fn spec_layer(self, l: u64) -> RouterView<S> {
        RouterView {
            path_router: self.path_router.spec_layer(l),
            default_fallback: self.default_fallback,
            catch_all_fallback: self.catch_all_fallback.spec_layer(l),
        }
    }

    /// The router with every route, but not the fallback for unmatched
    /// requests, wrapped in the layer `l`.
    pub open spec fn spec_route_layer(self, l: u64) -> RouterView<S> {
        RouterView { path_router: self.path_router.spec_layer(l), ..self }
    }

    /// The router with the default fallback again, and without the routes
    /// that its fallback registered.
    pub open spec fn spec_reset_fallback(self) -> RouterView<S> {
        RouterView {
            path_router: self.path_router.without_fallback_routes(),
            default_fallback: true,
            catch_all_fallback: Fallback::Default(Route::plain(Target::NotFound)),
            ..self
        }
    }

    /// The router once its state is supplied.
    pub open spec fn spec_with_state<S2>(self, state: u64) -> RouterView<S2> {
        RouterView {
            path_router: self.path_router.spec_with_state::<S2>(state),
            default_fallback: self.default_fallback,
            catch_all_fallback: self.catch_all_fallback.spec_with_state::<S2>(state),
        }
    }

    /// What answers a request with method `m` and path `path`, and the
    /// captures handed to it: the most specific route that matches the path;
    /// where none does, the fallback, with no captures.
    pub open spec fn spec_dispatch(self, m: Method, path: Seq<char>) -> (Route, Seq<(Seq<char>, Seq<char>)>) {
        if request_segments(path) is Some && self.path_router.any_match(request_segments(path)->0) {
            let req = request_segments(path)->0;
            let i = self.path_router.best_index(req);
            (
                self.path_router.routes[i].endpoint.route_for(m),
                crate::matching::captures(self.path_router.routes[i].segs, req),
            )
        } else {
            (self.catch_all_fallback.spec_route(), Seq::empty())
        }
    }
}

impl<S> Router<S> {
    fn from_inner(inner: RouterInner<S>) -> (r: Self)
        requires
            inner@.wf(),
        ensures
            r@ == inner@,
    {
        Router { inner: Arc::new(inner) }
    }

    /// The parts of this router: the value itself where this is its only
    /// reference, else a copy.
    fn into_inner(self) -> (r: RouterInner<S>)
        ensures
            r@ == self@,
            r@.wf(),
    {
        proof {
            use_type_invariant(&self);
        }
        match arc_try_unwrap(self.inner) {
            Ok(inner) => inner,
            Err(arc) => RouterInner {
                path_router: arc.path_router.clone_router(),
                default_fallback: arc.default_fallback,
                catch_all_fallback: arc.catch_all_fallback.clone_fallback(),
            },
        }
    }

    /// A router without routes: it answers every request `404 Not Found`.
    pub fn new() -> (r: Self)
        ensures
            r@ == RouterView::<S>::empty(),
            r@.wf(),
    {
        Router {
            inner: Arc::new(
                RouterInner {
                    path_router: PathRouter::new(),
                    default_fallback: true,
                    catch_all_fallback: Fallback::Default(Route::new(Target::NotFound)),
                },
            ),
        }
    }

    /// Turns off the checks that refuse paths in the older syntax
    /// (segments that start with `:` or `*`).
    pub fn without_v07_checks(self) -> (r: Self)
        ensures
            r@ == self@.spec_without_v07_checks(),
            r@.wf(),
    {
        let this = self.into_inner();
        let RouterInner { path_router, default_fallback, catch_all_fallback } = this;
        Self::from_inner(
            RouterInner {
                path_router: path_router.without_v07_checks(),
                default_fallback,
                catch_all_fallback,
            },
        )
    }

    /// Registers `method_router` at `path`, or says why that is refused.
    pub fn try_route(self, path: &str, method_router: MethodRouter<S>) -> (r: Result<
        Self,
        RouteError,
    >)
        ensures
            match r {
                Ok(router) => self@.spec_route(path@, method_router) == Ok::<
                    RouterView<S>,
                    RouteError,
                >(router@) && router@.wf(),
                Err(e) => self@.spec_route(path@, method_router) == Err::<
                    RouterView<S>,
                    RouteError,
                >(e),
            },
    {
        let p = chars_of(path);
        let RouterInner { path_router, default_fallback, catch_all_fallback } = self.into_inner();
        match path_router.route(&p, method_router) {
            Ok(pr) => Ok(
                Self::from_inner(RouterInner { path_router: pr, default_fallback, catch_all_fallback }),
            ),
            Err(e) => Err(e),
        }
    }

    /// Registers `method_router` at `path`: requests whose path the pattern
    /// matches go to it. A route that would be refused is left out by `requires`;
    /// `try_route` says why a route is refused.
    pub fn route(self, path: &str, method_router: MethodRouter<S>) -> (r: Self)
        requires
            self@.spec_route(path@, method_router) is Ok,
        ensures
            self@.spec_route(path@, method_router) == Ok::<RouterView<S>, RouteError>(r@),
            r@.wf(),
    {
        match self.try_route(path, method_router) {
            Ok(r) => r,
            Err(_) => {
                assert(false);
                Router::new()
            },
        }
    }

    /// Registers the service `service` at `path`, or says why that is refused.
    pub fn try_route_service(self, path: &str, service: u64) -> (r: Result<Self, RouteError>)
        ensures
            match r {
                Ok(router) => self@.spec_route_service(path@, service) == Ok::<
                    RouterView<S>,
                    RouteError,
                >(router@) && router@.wf(),
                Err(e) => self@.spec_route_service(path@, service) == Err::<
                    RouterView<S>,
                    RouteError,
                >(e),
            },
    {
        let p = chars_of(path);
        let RouterInner { path_router, default_fallback, catch_all_fallback } = self.into_inner();
        match path_router.route_endpoint(&p, Endpoint::Route(Route::new(Target::Handler(service)))) {
            Ok(pr) => Ok(
                Self::from_inner(RouterInner { path_router: pr, default_fallback, catch_all_fallback }),
            ),
            Err(e) => Err(e),
        }
    }

    /// Registers the service `service` at `path`, for every method.
    pub fn route_service(self, path: &str, service: u64) -> (r: Self)
        requires
            self@.spec_route_service(path@, service) is Ok,
        ensures
            self@.spec_route_service(path@, service) == Ok::<RouterView<S>, RouteError>(r@),
            r@.wf(),
    {
        match self.try_route_service(path, service) {
            Ok(r) => r,
            Err(_) => {
                assert(false);
                Router::new()
            },
        }
    }

    /// Nests the routes of `router` at `path`, or says why that is refused.
    pub fn try_nest(self, path: &str, router: Self) -> (r: Result<Self, RouteError>)
        ensures
            match r {
                Ok(res) => self@.spec_nest(path@, router@) == Ok::<RouterView<S>, RouteError>(
                    res@,
                ) && res@.wf(),
                Err(e) => self@.spec_nest(path@, router@) == Err::<RouterView<S>, RouteError>(e),
            },
    {
        let p = chars_of(path);
        if p.len() == 0 || (p.len() == 1 && p[0] == '/') {
            proof {
                if p@.len() == 1 && p@[0] == '/' {
                    assert(p@ =~= seq!['/']);
                }
            }
            return Err(RouteError::NestAtRoot);
        }
        proof {
            if p@ == seq!['/'] {
                assert(p@.len() == 1 && p@[0] == '/');
            }
        }
        let RouterInner { path_router: nested, default_fallback: _, catch_all_fallback: _ } =
            router.into_inner();
        let RouterInner { path_router, default_fallback, catch_all_fallback } = self.into_inner();
        match path_router.nest(&p, nested) {
            Ok(pr) => Ok(
                Self::from_inner(RouterInner { path_router: pr, default_fallback, catch_all_fallback }),
            ),
            Err(e) => Err(e),
        }
    }

    /// Nests the routes of `router` at `path`: a route registered at `/p`
    /// in `router` is registered at `path/p` here. The fallback of `router`
    /// is dropped.
    pub fn nest(self, path: &str, router: Self) -> (r: Self)
        requires
            self@.spec_nest(path@, router@) is Ok,
        ensures
            self@.spec_nest(path@, router@) == Ok::<RouterView<S>, RouteError>(r@),
            r@.wf(),
    {
        match self.try_nest(path, router) {
            Ok(r) => r,
            Err(_) => {
                assert(false);
                Router::new()
            },
        }
    }

    /// Nests the service `service` at `path`, or says why that is refused.
    pub fn try_nest_service(self, path: &str, service: u64) -> (r: Result<Self, RouteError>)
        ensures
            match r {
                Ok(res) => self@.spec_nest_service(path@, service) == Ok::<
                    RouterView<S>,
                    RouteError,
                >(res@) && res@.wf(),
                Err(e) => self@.spec_nest_service(path@, service) == Err::<
                    RouterView<S>,
                    RouteError,
                >(e),
            },
    {
        let p = chars_of(path);
        if p.len() == 0 || (p.len() == 1 && p[0] == '/') {
            proof {
                if p@.len() == 1 && p@[0] == '/' {
                    assert(p@ =~= seq!['/']);
                }
            }
            return Err(RouteError::NestServiceAtRoot);
        }
        proof {
            if p@ == seq!['/'] {
                assert(p@.len() == 1 && p@[0] == '/');
            }
        }
        let RouterInner { path_router, default_fallback, catch_all_fallback } = self.into_inner();
        match path_router.nest_service(&p, Route::new(Target::Handler(service))) {
            Ok(pr) => Ok(
                Self::from_inner(RouterInner { path_router: pr, default_fallback, catch_all_fallback }),
            ),
            Err(e) => Err(e),
        }
    }

    /// Nests the service `service` at `path`: requests to the path and
    /// below it go to the service, whatever their method.
    pub fn nest_service(self, path: &str, service: u64) -> (r: Self)
        requires
            self@.spec_nest_service(path@, service) is Ok,
        ensures
            self@.spec_nest_service(path@, service) == Ok::<RouterView<S>, RouteError>(r@),
            r@.wf(),
    {
        match self.try_nest_service(path, service) {
            Ok(r) => r,
            Err(_) => {
                assert(false);
                Router::new()
            },
        }
    }

    /// Merges the routes and the fallback of `other` into this router, or
    /// says why that is refused.
    pub fn try_merge(self, other: Self) -> (r: Result<Self, RouteError>)
        ensures
            match r {
                Ok(res) => self@.spec_merge(other@) == Ok::<RouterView<S>, RouteError>(res@)
                    && res@.wf(),
                Err(e) => self@.spec_merge(other@) == Err::<RouterView<S>, RouteError>(e),
            },
    {
        let RouterInner {
            path_router: other_paths,
            default_fallback: other_default,
            catch_all_fallback: other_fallback,
        } = other.into_inner();
        let RouterInner { path_router, default_fallback, catch_all_fallback } = self.into_inner();
        let new_default = match (default_fallback, other_default) {
            (_, true) => default_fallback,
            (true, false) => false,
            (false, false) => {
                return Err(RouteError::MergeFallbacks);
            },
        };
        let pr = match path_router.merge(other_paths) {
            Ok(pr) => pr,
            Err(e) => {
                return Err(e);
            },
        };
        match catch_all_fallback.merge(other_fallback) {
            Some(fb) => Ok(
                Self::from_inner(
                    RouterInner {
                        path_router: pr,
                        default_fallback: new_default,
                        catch_all_fallback: fb,
                    },
                ),
            ),
            None => {
                assert(false);
                Err(RouteError::MergeFallbacks)
            },
        }
    }

    /// Merges the routes and the fallback of `other` into this router.
    pub fn merge(self, other: Self) -> (r: Self)
        requires
            self@.spec_merge(other@) is Ok,
        ensures
            self@.spec_merge(other@) == Ok::<RouterView<S>, RouteError>(r@),
            r@.wf(),
    {
        match self.try_merge(other) {
            Ok(r) => r,
            Err(_) => {
                assert(false);
                Router::new()
            },
        }
    }

    /// Whether any route is registered.
    pub fn has_routes(&self) -> (r: bool)
        ensures
            r == (self@.path_router.routes.len() > 0),
    {
        self.inner.path_router.has_routes()
    }

    /// Registers `endpoint` at `/` and at every other path, where the table
    /// admits it, with `catch_all_fallback` as the fallback for the rest.
    fn fallback_endpoint(self, endpoint: Endpoint<S>, catch_all_fallback: Fallback<S>) -> (r: Self)
        requires
            !(catch_all_fallback is Default),
        ensures
            r@ == (RouterView { catch_all_fallback, ..self@ }).spec_fallback_endpoint(endpoint),
            r@.wf(),
    {
        let RouterInner { path_router, default_fallback: _, catch_all_fallback: _ } =
            self.into_inner();
        let root: Vec<char> = vec!['/'];
        let any_path = chars_of(FALLBACK_PARAM_PATH);
        proof {
            assert(root@ =~= seq!['/']);
        }
        let pr = path_router.route_fallback_or_keep(&root, endpoint.clone_endpoint());
        let pr = pr.route_fallback_or_keep(&any_path, endpoint);
        Self::from_inner(RouterInner { path_router: pr, default_fallback: false, catch_all_fallback })
    }

    /// Sets the handler `handler` as the fallback: it answers the requests
    /// that no route matches.
    pub fn fallback(self, handler: u64) -> (r: Self)
        ensures
            r@ == self@.spec_fallback(handler),
            r@.wf(),
    {
        self.fallback_endpoint(
            Endpoint::MethodRouter(any(handler)),
            Fallback::BoxedHandler(BoxedIntoRoute { handler, layers: Layers::Nil, state: PhantomData }),
        )
    }

    /// Sets the service `service` as the fallback.
    pub fn fallback_service(self, service: u64) -> (r: Self)
        ensures
            r@ == self@.spec_fallback_service(service),
            r@.wf(),
    {
        self.fallback_endpoint(
            Endpoint::Route(Route::new(Target::Handler(service))),
            Fallback::Service(Route::new(Target::Handler(service))),
        )
    }

    /// Sets `handler` as the answer of every registered method router to the
    /// methods it has no handler for, where it has no fallback of its own.
    pub fn method_not_allowed_fallback(self, handler: u64) -> (r: Self)
        ensures
            r@ == (RouterView {
                path_router: self@.path_router.spec_method_not_allowed_fallback(handler),
                ..self@
            }),
            r@.wf(),
    {
        let RouterInner { path_router, default_fallback, catch_all_fallback } = self.into_inner();
        Self::from_inner(
            RouterInner {
                path_router: path_router.method_not_allowed_fallback(handler),
                default_fallback,
                catch_all_fallback,
            },
        )
    }

    /// Wraps every route of this router, and its fallback, in the layer `l`.
    /// Routes added afterwards are not wrapped.
    pub fn layer(self, l: u64) -> (r: Self)
        ensures
            r@ == self@.spec_layer(l),
            r@.wf(),
    {
        let RouterInner { path_router, default_fallback, catch_all_fallback } = self.into_inner();
        Self::from_inner(
            RouterInner {
                path_router: path_router.layer(l),
                default_fallback,
                catch_all_fallback: catch_all_fallback.layer(l),
            },
        )
    }

    /// Wraps every route of this router, but not the fallback that answers
    /// requests no route matches, in the layer `l`. A router without routes
    /// is left out by `requires`: the layer would wrap nothing.
    pub fn route_layer(self, l: u64) -> (r: Self)
        requires
            self@.path_router.routes.len() > 0,
        ensures
            r@ == self@.spec_route_layer(l),
            r@.wf(),
    {
        let RouterInner { path_router, default_fallback, catch_all_fallback } = self.into_inner();
        Self::from_inner(
            RouterInner { path_router: path_router.layer(l), default_fallback, catch_all_fallback },
        )
    }

    /// Gives the router the default fallback back, so that it can be merged
    /// with a router that has a fallback of its own.
    pub fn reset_fallback(self) -> (r: Self)
        ensures
            r@ == self@.spec_reset_fallback(),
            r@.wf(),
    {
        let RouterInner { path_router, default_fallback: _, catch_all_fallback: _ } =
            self.into_inner();
        Self::from_inner(
            RouterInner {
                path_router: path_router.remove_fallback_routes(),
                default_fallback: true,
                catch_all_fallback: Fallback::Default(Route::new(Target::NotFound)),
            },
        )
    }

    /// Supplies the state with id `state`: every handler that still needed
    /// a state, the fallback's included, is handed this one, and the router
    /// becomes one that needs a state of type `S2`.
    pub fn with_state<S2>(self, state: u64) -> (r: Router<S2>)
        ensures
            r@ == self@.spec_with_state::<S2>(state),
            r@.wf(),
    {
        let RouterInner { path_router, default_fallback, catch_all_fallback } = self.into_inner();
        let r = Router {
            inner: Arc::new(
                RouterInner {
                    path_router: path_router.with_state::<S2>(state),
                    default_fallback,
                    catch_all_fallback: catch_all_fallback.with_state::<S2>(state),
                },
            ),
        };
        r
    }

    /// What answers a request with method `method` at path `path`, and the
    /// captures of the route that matched.
    pub fn dispatch(&self, method: Method, path: &str) -> (r: Dispatch)
        ensures
            (r.route, string_pair_views(r.params@)) == self@.spec_dispatch(method, path@),
            r.path@ == crate::path::seen_path(path@, r.route.strip as nat),
    {
        proof {
            use_type_invariant(self);
        }
        let p = chars_of(path);
        match self.inner.path_router.find_route(&p) {
            Some((i, caps)) => {
                proof {
                    let req = request_segments(p@)->0;
                    assert(self@.path_router.route_matches(i as int, req));
                    let j = self@.path_router.best_index(req);
                    crate::path_router::lemma_best_match_unique(
                        self@.path_router,
                        req,
                        i as int,
                        j,
                    );
                }
                assert(self@.path_router.routes[i as int] == self.inner.path_router.routes@[i as int]@);
                let route = self.inner.path_router.routes[i].endpoint.route_for_method(method);
                let params = strings_of_pairs(&caps);
                let seen = string_of(&crate::path::seen_path_exec(&p, route.strip));
                Dispatch { route, params, path: seen }
            },
            None => {
                let route = self.inner.catch_all_fallback.call_with_state();
                let seen = string_of(&crate::path::seen_path_exec(&p, route.strip));
                Dispatch { route, params: Vec::new(), path: seen }
            },
        }
    }
}

/// The strings of character pairs.
pub fn strings_of_pairs(v: &Vec<(Vec<char>, Vec<char>)>) -> (r: Vec<(String, String)>)
    ensures
        string_pair_views(r@) == crate::matching::pair_views(v@),
{
    let mut r: Vec<(String, String)> = Vec::new();
    let mut i: usize = 0;
    while i < v.len()
        invariant
            i <= v.len(),
            r.len() == i,
            string_pair_views(r@) == crate::matching::pair_views(v@).take(i as int),
        decreases v.len() - i,
    {
        let ghost before = r@;
        let pair = (string_of(&v[i].0), string_of(&v[i].1));
        r.push(pair);
        assert(r@ == before.push(pair));
        assert forall|k: int| 0 <= k <= i implies #[trigger] string_pair_views(r@)[k]
            == crate::matching::pair_views(v@).take(i + 1)[k] by {
            if k < i {
                assert(r@[k] == before[k]);
            }
        }
        i = i + 1;
    }
    assert(crate::matching::pair_views(v@).take(i as int) =~= crate::matching::pair_views(v@));
    r
}

/// A router borrowed as a service with a fixed request body type `B`.
#[derive(Debug)]
pub struct RouterAsService<'a, B, S = ()> {
    pub router: &'a mut Router<S>,
    pub marker: PhantomData<B>,
}

/// A router turned into a service with a fixed request body type `B`.
#[derive(Debug)]
pub struct RouterIntoService<B, S = ()> {
    pub router: Router<S>,
    pub marker: PhantomData<B>,
}

/// A service that answers every connection with a copy of the service it holds.
pub struct IntoMakeService<T> {
    pub svc: T,
}

impl<T> IntoMakeService<T> {
    pub fn new(svc: T) -> (r: Self)
        ensures
            r.svc == svc,
    {
        IntoMakeService { svc }
    }
}

/// Like [`IntoMakeService`], and it hands the connection's information of
/// type `C` to the requests.
pub struct IntoMakeServiceWithConnectInfo<T, C> {
    pub svc: T,
    pub connect_info: PhantomData<C>,
}

impl<T, C> IntoMakeServiceWithConnectInfo<T, C> {
    pub fn new(svc: T) -> (r: Self)
        ensures
            r.svc == svc,
    {
        IntoMakeServiceWithConnectInfo { svc, connect_info: PhantomData }
    }
}

impl<S> IntoMakeService<Router<S>> {
    /// The service for a new connection: a copy of the router.
    pub fn make_service(&self) -> (r: Router<S>)
        ensures
            r@ == self.svc@,
    {
        self.svc.clone()
    }
}

/// A router that serves one connection, and that connection's information,
/// which it hands to every request it answers.
pub struct AddConnectInfo<C> {
    pub router: Router<()>,
    pub connect_info: C,
}

impl<C> IntoMakeServiceWithConnectInfo<Router<()>, C> {
    /// The service for a new connection whose information is `info`: a copy
    /// of the router, with that information.
    pub fn make_service(&self, info: C) -> (r: AddConnectInfo<C>)
        ensures
            r.router@ == self.svc@,
            r.connect_info == info,
    {
        AddConnectInfo { router: self.svc.clone(), connect_info: info }
    }
}

impl<C> AddConnectInfo<C> {
    /// What answers a request with method `method` at path `path`, as the
    /// router decides, and the connection's information that it is handed.
    pub fn dispatch(&self, method: Method, path: &str) -> (r: (Dispatch, &C))
        ensures
            (r.0.route, string_pair_views(r.0.params@)) == self.router@.spec_dispatch(method, path@),
            r.0.path@ == crate::path::seen_path(path@, r.0.route.strip as nat),
            *r.1 == self.connect_info,
    {
        (self.router.dispatch(method, path), &self.connect_info)
    }
}

impl<S> Router<S> {
    /// This router, borrowed as a service for request bodies of type `B`.
    pub fn as_service<B>(&mut self) -> (r: RouterAsService<'_, B, S>)
        ensures
            *r.router == *old(self),
            *final(self) == *final(r.router),
    {
        RouterAsService { router: self, marker: PhantomData }
    }

    /// This router, as a service for request bodies of type `B`.
    pub fn into_service<B>(self) -> (r: RouterIntoService<B, S>)
        ensures
            r.router == self,
    {
        RouterIntoService { router: self, marker: PhantomData }
    }
}

impl Router<()> {
    /// The service that gives each connection a copy of this router, as it
    /// is: a `Router<()>` needs no state, and the handlers still waiting for
    /// one get the unit state when it answers.
    pub fn into_make_service(self) -> (r: IntoMakeService<Router<()>>)
        ensures
            r.svc@ == self@,
            r.svc@.wf(),
    {
        proof {
            use_type_invariant(&self);
        }
        IntoMakeService::new(self)
    }

    /// Like [`Router::into_make_service`], and each connection's information
    /// of type `C` is handed to its requests (see `make_service`).
    pub fn into_make_service_with_connect_info<C>(self) -> (r: IntoMakeServiceWithConnectInfo<
        Router<()>,
        C,
    >)
        ensures
            r.svc@ == self@,
            r.svc@.wf(),
    {
        proof {
            use_type_invariant(&self);
        }
        IntoMakeServiceWithConnectInfo::new(self)
    }
}

impl<S> Clone for Router<S> {
    fn clone(&self) -> (r: Self)
        ensures
            r@ == self@,
    {
        proof {
            use_type_invariant(self);
        }
        Router { inner: arc_clone(&self.inner) }
    }
}

impl<S> Default for Router<S> {
    fn default() -> (r: Self)
        ensures
            r@ == RouterView::<S>::empty(),
            r@.wf(),
    {
        Router::new()
    }
}

impl<B, S> Clone for RouterIntoService<B, S> {
    fn clone(&self) -> (r: Self)
        ensures
            r.router@ == self.router@,
    {
        RouterIntoService { router: self.router.clone(), marker: PhantomData }
    }
}

} // verus!
