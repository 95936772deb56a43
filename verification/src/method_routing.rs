//! Routing a request by its method: one service per method, and a fallback
//! for the methods that have none.

use vstd::prelude::*;

use core::marker::PhantomData;

use crate::error::RouteError;
use crate::route::{Route, Target};

verus! {

/// The methods of HTTP.
#[derive(Clone, Copy, Debug, PartialEq, Eq, Structural)]
pub enum Method {
    Get,
    Head,
    Delete,
    Options,
    Patch,
    Post,
    Put,
    Trace,
    Connect,
    /// Any other method: only a fallback answers it.
    Other,
}

/// The services of one path, by method, and the fallback that answers the
/// methods without one: by default `405 Method Not Allowed`
/// (`custom_fallback` is false), else a handler of the user's.
#[derive(Debug)]
pub struct MethodRouter<S = ()> {
    pub get: Option<Route>,
    pub head: Option<Route>,
    pub delete: Option<Route>,
    pub options: Option<Route>,
    pub patch: Option<Route>,
    pub post: Option<Route>,
    pub put: Option<Route>,
    pub trace: Option<Route>,
    pub connect: Option<Route>,
    pub fallback: Route,
    pub custom_fallback: bool,
    pub state: PhantomData<S>,
}

/// `o` wrapped in the layer `l`, if it holds a service.
pub open spec fn opt_layer(o: Option<Route>, l: u64) -> Option<Route> {
    match o {
        Some(r) => Some(r.spec_layer(l)),
        None => None,
    }
}

/// `o` wrapped in the layer `l`, if it holds a service.
pub fn layer_opt(o: Option<Route>, l: u64) -> (r: Option<Route>)
    ensures
        r == opt_layer(o, l),
{
    match o {
        Some(route) => Some(route.layer(l)),
        None => None,
    }
}

/// `o` given the state `state`, if it holds a handler without one.
pub open spec fn opt_with_state(o: Option<Route>, state: u64) -> Option<Route> {
    match o {
        Some(r) => Some(r.spec_with_state(state)),
        None => None,
    }
}

/// `o` given the state `state`, if it holds a handler without one.
pub fn with_state_opt(o: Option<Route>, state: u64) -> (r: Option<Route>)
    ensures
        r == opt_with_state(o, state),
{
    match o {
        Some(route) => Some(route.with_state(state)),
        None => None,
    }
}

/// `o` nested under a prefix of `k` more segments, if it holds a service.
pub open spec fn opt_strip(o: Option<Route>, k: usize) -> Option<Route> {
    match o {
        Some(r) => Some(r.spec_strip(k)),
        None => None,
    }
}

/// `o` nested under a prefix of `k` more segments, if it holds a service.
pub fn strip_opt(o: Option<Route>, k: usize) -> (r: Option<Route>)
    ensures
        r == opt_strip(o, k),
{
    match o {
        Some(route) => Some(route.strip(k)),
        None => None,
    }
}

/// A copy of an optional service.
pub fn clone_opt(o: &Option<Route>) -> (r: Option<Route>)
    ensures
        r == *o,
{
    match o {
        Some(route) => Some(route.clone_route()),
        None => None,
    }
}

/// The first of two optional services that holds one.
pub open spec fn first_some(a: Option<Route>, b: Option<Route>) -> Option<Route> {
    if a is Some {
        a
    } else {
        b
    }
}

fn first_some_exec(a: Option<Route>, b: Option<Route>) -> (r: Option<Route>)
    ensures
        r == first_some(a, b),
{
    if a.is_some() {
        a
    } else {
        b
    }
}

impl<S> MethodRouter<S> {
    /// The service registered for `m`.
    pub open spec fn handler(self, m: Method) -> Option<Route> {
        match m {
            Method::Get => self.get,
            Method::Head => self.head,
            Method::Delete => self.delete,
            Method::Options => self.options,
            Method::Patch => self.patch,
            Method::Post => self.post,
            Method::Put => self.put,
            Method::Trace => self.trace,
            Method::Connect => self.connect,
            Method::Other => None,
        }
    }

    /// A request with method `m` reaches the fallback: there is no service
    /// for `m`, nor, for `HEAD`, one for `GET`.
    pub open spec fn answers_with_fallback(self, m: Method) -> bool {
        self.handler(m) is None && !(m == Method::Head && self.get is Some)
    }

    /// What answers a request with method `m`: its service; for `HEAD`
    /// without one, the `GET` service; else the fallback.
    pub open spec fn route_for(self, m: Method) -> Route {
        if self.handler(m) is Some {
            self.handler(m)->0
        } else if m == Method::Head && self.get is Some {
            self.get->0
        } else {
            self.fallback
        }
    }

    /// The same services, the handlers given the state `state`, for another
    /// state type.
    pub open spec fn spec_with_state<S2>(self, state: u64) -> MethodRouter<S2> {
        MethodRouter {
            get: opt_with_state(self.get, state),
            head: opt_with_state(self.head, state),
            delete: opt_with_state(self.delete, state),
            options: opt_with_state(self.options, state),
            patch: opt_with_state(self.patch, state),
            post: opt_with_state(self.post, state),
            put: opt_with_state(self.put, state),
            trace: opt_with_state(self.trace, state),
            connect: opt_with_state(self.connect, state),
            fallback: self.fallback.spec_with_state(state),
            custom_fallback: self.custom_fallback,
            state: PhantomData,
        }
    }

    /// This router, with the fallback set to `handler` if it had only the
    /// default one.
    pub open spec fn with_default_fallback(self, handler: u64) -> MethodRouter<S> {
        if !self.custom_fallback {
            MethodRouter {
                fallback: Route::handler(handler),
                custom_fallback: true,
                ..self
            }
        } else {
            self
        }
    }

    /// Both routers handle some method.
    pub open spec fn overlaps(self, other: MethodRouter<S>) -> bool {
        exists|m: Method| (#[trigger] self.handler(m)) is Some && other.handler(m) is Some
    }

    /// The services of both routers together; the fallback that is not the
    /// default (where both are, the one of `other`).
    pub open spec fn union(self, other: MethodRouter<S>) -> MethodRouter<S> {
        MethodRouter {
            get: first_some(self.get, other.get),
            head: first_some(self.head, other.head),
            delete: first_some(self.delete, other.delete),
            options: first_some(self.options, other.options),
            patch: first_some(self.patch, other.patch),
            post: first_some(self.post, other.post),
            put: first_some(self.put, other.put),
            trace: first_some(self.trace, other.trace),
            connect: first_some(self.connect, other.connect),
            fallback: if !self.custom_fallback { other.fallback } else { self.fallback },
            custom_fallback: self.custom_fallback || other.custom_fallback,
            state: PhantomData,
        }
    }

    /// What merging `other` into `self` gives: an error where both handle a
    /// method or both have a fallback of their own, else the union.
    pub open spec fn spec_merge(self, other: MethodRouter<S>) -> Result<MethodRouter<S>, RouteError> {
        if self.overlaps(other) {
            Err(RouteError::OverlappingMethod)
        } else if self.custom_fallback && other.custom_fallback {
            Err(RouteError::OverlappingMethodFallback)
        } else {
            Ok(self.union(other))
        }
    }

    /// Every service of this router, and its fallback, wrapped in the layer `l`.
    pub open spec fn spec_layer(self, l: u64) -> MethodRouter<S> {
        MethodRouter {
            get: opt_layer(self.get, l),
            head: opt_layer(self.head, l),
            delete: opt_layer(self.delete, l),
            options: opt_layer(self.options, l),
            patch: opt_layer(self.patch, l),
            post: opt_layer(self.post, l),
            put: opt_layer(self.put, l),
            trace: opt_layer(self.trace, l),
            connect: opt_layer(self.connect, l),
            fallback: self.fallback.spec_layer(l),
            ..self
        }
    }

    /// Every service of this router, and its fallback, nested under a prefix
    /// of `k` more segments.
    pub open spec fn spec_strip(self, k: usize) -> MethodRouter<S> {
        MethodRouter {
            get: opt_strip(self.get, k),
            head: opt_strip(self.head, k),
            delete: opt_strip(self.delete, k),
            options: opt_strip(self.options, k),
            patch: opt_strip(self.patch, k),
            post: opt_strip(self.post, k),
            put: opt_strip(self.put, k),
            trace: opt_strip(self.trace, k),
            connect: opt_strip(self.connect, k),
            fallback: self.fallback.spec_strip(k),
            ..self
        }
    }

    /// Every service of this router, but not its fallback, wrapped in the layer `l`.
    pub open spec fn spec_route_layer(self, l: u64) -> MethodRouter<S> {
        MethodRouter {
            get: opt_layer(self.get, l),
            head: opt_layer(self.head, l),
            delete: opt_layer(self.delete, l),
            options: opt_layer(self.options, l),
            patch: opt_layer(self.patch, l),
            post: opt_layer(self.post, l),
            put: opt_layer(self.put, l),
            trace: opt_layer(self.trace, l),
            connect: opt_layer(self.connect, l),
            ..self
        }
    }

    /// A router without services: every method is answered `405 Method Not Allowed`.
    pub fn new() -> (r: Self)
        ensures
            forall|m: Method| (#[trigger] r.handler(m)) is None,
            r.fallback == Route::plain(Target::MethodNotAllowed),
            !r.custom_fallback,
    {
        MethodRouter {
            get: None,
            head: None,
            delete: None,
            options: None,
            patch: None,
            post: None,
            put: None,
            trace: None,
            connect: None,
            fallback: Route::new(Target::MethodNotAllowed),
            custom_fallback: false,
            state: PhantomData,
        }
    }

    /// A copy of this router.
    pub fn clone_router(&self) -> (r: Self)
        ensures
            r == *self,
    {
        MethodRouter {
            get: clone_opt(&self.get),
            head: clone_opt(&self.head),
            delete: clone_opt(&self.delete),
            options: clone_opt(&self.options),
            patch: clone_opt(&self.patch),
            post: clone_opt(&self.post),
            put: clone_opt(&self.put),
            trace: clone_opt(&self.trace),
            connect: clone_opt(&self.connect),
            fallback: self.fallback.clone_route(),
            custom_fallback: self.custom_fallback,
            state: PhantomData,
        }
    }

    /// Registers the handler `handler` for the method `m`, which has none
    /// yet (registering a second one is left out by `requires`).
    pub fn on(self, m: Method, handler: u64) -> (r: Self)
        requires
            m != Method::Other,
            self.handler(m) is None,
        ensures
            r.handler(m) == Some(Route::handler(handler)),
            forall|m2: Method| m2 != m ==> #[trigger] r.handler(m2) == self.handler(m2),
            r.fallback == self.fallback,
            r.custom_fallback == self.custom_fallback,
    {
        let mut r = self;
        let route = Some(Route::new_handler(handler));
        match m {
            Method::Get => r.get = route,
            Method::Head => r.head = route,
            Method::Delete => r.delete = route,
            Method::Options => r.options = route,
            Method::Patch => r.patch = route,
            Method::Post => r.post = route,
            Method::Put => r.put = route,
            Method::Trace => r.trace = route,
            Method::Connect => r.connect = route,
            Method::Other => {},
        }
        r
    }

    /// Sets the handler `handler` as the answer to the methods without a service.
    pub fn fallback(self, handler: u64) -> (r: Self)
        ensures
            r == (MethodRouter {
                fallback: Route::handler(handler),
                custom_fallback: true,
                ..self
            }),
            forall|m: Method| #[trigger] r.handler(m) == self.handler(m),
    {
        let mut r = self;
        r.fallback = Route::new_handler(handler);
        r.custom_fallback = true;
        r
    }

    /// Sets the fallback to `handler` if this router has only the default one.
    pub fn default_fallback(self, handler: u64) -> (r: Self)
        ensures
            r == self.with_default_fallback(handler),
    {
        if !self.custom_fallback {
            self.fallback(handler)
        } else {
            self
        }
    }

    /// Gives the handlers of this router the state `state`: the router
    /// becomes one for another state type.
    pub fn with_state<S2>(self, state: u64) -> (r: MethodRouter<S2>)
        ensures
            r == self.spec_with_state::<S2>(state),
    {
        MethodRouter {
            get: with_state_opt(self.get, state),
            head: with_state_opt(self.head, state),
            delete: with_state_opt(self.delete, state),
            options: with_state_opt(self.options, state),
            patch: with_state_opt(self.patch, state),
            post: with_state_opt(self.post, state),
            put: with_state_opt(self.put, state),
            trace: with_state_opt(self.trace, state),
            connect: with_state_opt(self.connect, state),
            fallback: self.fallback.with_state(state),
            custom_fallback: self.custom_fallback,
            state: PhantomData,
        }
    }

    /// Wraps every service of this router, and its fallback, in the layer `l`.
    pub fn layer(self, l: u64) -> (r: Self)
        ensures
            r == self.spec_layer(l),
    {
        MethodRouter {
            get: layer_opt(self.get, l),
            head: layer_opt(self.head, l),
            delete: layer_opt(self.delete, l),
            options: layer_opt(self.options, l),
            patch: layer_opt(self.patch, l),
            post: layer_opt(self.post, l),
            put: layer_opt(self.put, l),
            trace: layer_opt(self.trace, l),
            connect: layer_opt(self.connect, l),
            fallback: self.fallback.layer(l),
            custom_fallback: self.custom_fallback,
            state: PhantomData,
        }
    }

    /// Nests every service of this router, and its fallback, under a prefix
    /// of `k` more segments.
    pub fn strip(self, k: usize) -> (r: Self)
        ensures
            r == self.spec_strip(k),
    {
        MethodRouter {
            get: strip_opt(self.get, k),
            head: strip_opt(self.head, k),
            delete: strip_opt(self.delete, k),
            options: strip_opt(self.options, k),
            patch: strip_opt(self.patch, k),
            post: strip_opt(self.post, k),
            put: strip_opt(self.put, k),
            trace: strip_opt(self.trace, k),
            connect: strip_opt(self.connect, k),
            fallback: self.fallback.strip(k),
            custom_fallback: self.custom_fallback,
            state: PhantomData,
        }
    }

    /// Wraps every service of this router, but not its fallback, in the layer `l`.
    pub fn route_layer(self, l: u64) -> (r: Self)
        ensures
            r == self.spec_route_layer(l),
    {
        MethodRouter {
            get: layer_opt(self.get, l),
            head: layer_opt(self.head, l),
            delete: layer_opt(self.delete, l),
            options: layer_opt(self.options, l),
            patch: layer_opt(self.patch, l),
            post: layer_opt(self.post, l),
            put: layer_opt(self.put, l),
            trace: layer_opt(self.trace, l),
            connect: layer_opt(self.connect, l),
            fallback: self.fallback,
            custom_fallback: self.custom_fallback,
            state: PhantomData,
        }
    }

    /// Merges the services of `other` into this router, for the path they
    /// are both registered at.
    pub fn merge_for_path(self, other: MethodRouter<S>) -> (r: Result<MethodRouter<S>, RouteError>)
        ensures
            r == self.spec_merge(other),
    {
        let both = (self.get.is_some() && other.get.is_some()) || (self.head.is_some()
            && other.head.is_some()) || (self.delete.is_some() && other.delete.is_some()) || (
        self.options.is_some() && other.options.is_some()) || (self.patch.is_some()
            && other.patch.is_some()) || (self.post.is_some() && other.post.is_some()) || (
        self.put.is_some() && other.put.is_some()) || (self.trace.is_some()
            && other.trace.is_some()) || (self.connect.is_some() && other.connect.is_some());
        if both {
            proof {
                let w = if self.get is Some && other.get is Some {
                    Method::Get
                } else if self.head is Some && other.head is Some {
                    Method::Head
                } else if self.delete is Some && other.delete is Some {
                    Method::Delete
                } else if self.options is Some && other.options is Some {
                    Method::Options
                } else if self.patch is Some && other.patch is Some {
                    Method::Patch
                } else if self.post is Some && other.post is Some {
                    Method::Post
                } else if self.put is Some && other.put is Some {
                    Method::Put
                } else if self.trace is Some && other.trace is Some {
                    Method::Trace
                } else {
                    Method::Connect
                };
                assert(self.handler(w) is Some && other.handler(w) is Some);
            }
            return Err(RouteError::OverlappingMethod);
        }
        proof {
            assert forall|m: Method| !((#[trigger] self.handler(m)) is Some && other.handler(
                m,
            ) is Some) by {
                match m {
                    Method::Get => {},
                    Method::Head => {},
                    Method::Delete => {},
                    Method::Options => {},
                    Method::Patch => {},
                    Method::Post => {},
                    Method::Put => {},
                    Method::Trace => {},
                    Method::Connect => {},
                    Method::Other => {},
                }
            }
        }
        if self.custom_fallback && other.custom_fallback {
            return Err(RouteError::OverlappingMethodFallback);
        }
        let custom = self.custom_fallback || other.custom_fallback;
        let fallback = if !self.custom_fallback {
            other.fallback
        } else {
            self.fallback
        };
        Ok(
            MethodRouter {
                get: first_some_exec(self.get, other.get),
                head: first_some_exec(self.head, other.head),
                delete: first_some_exec(self.delete, other.delete),
                options: first_some_exec(self.options, other.options),
                patch: first_some_exec(self.patch, other.patch),
                post: first_some_exec(self.post, other.post),
                put: first_some_exec(self.put, other.put),
                trace: first_some_exec(self.trace, other.trace),
                connect: first_some_exec(self.connect, other.connect),
                fallback,
                custom_fallback: custom,
                state: PhantomData,
            },
        )
    }

    /// What answers a request with method `m`.
    pub fn route_for_method(&self, m: Method) -> (r: Route)
        ensures
            r == self.route_for(m),
    {
        let h = match m {
            Method::Get => &self.get,
            Method::Head => &self.head,
            Method::Delete => &self.delete,
            Method::Options => &self.options,
            Method::Patch => &self.patch,
            Method::Post => &self.post,
            Method::Put => &self.put,
            Method::Trace => &self.trace,
            Method::Connect => &self.connect,
            Method::Other => {
                return self.fallback.clone_route();
            },
        };
        match h {
            Some(route) => route.clone_route(),
            None => {
                if m == Method::Head && self.get.is_some() {
                    match &self.get {
                        Some(route) => route.clone_route(),
                        None => self.fallback.clone_route(),
                    }
                } else {
                    self.fallback.clone_route()
                }
            },
        }
    }
}

/// A method router that sends requests with method `m` (one of the nine
/// named methods) to `handler`.
pub fn on<S>(m: Method, handler: u64) -> (r: MethodRouter<S>)
    requires
        m != Method::Other,
    ensures
        r.handler(m) == Some(Route::handler(handler)),
        forall|m2: Method| m2 != m ==> (#[trigger] r.handler(m2)) is None,
        r.fallback == Route::plain(Target::MethodNotAllowed),
        !r.custom_fallback,
{
    MethodRouter::new().on(m, handler)
}

/// A method router that sends `GET` (and so `HEAD`) requests to `handler`.
pub fn get<S>(handler: u64) -> (r: MethodRouter<S>)
    ensures
        r.handler(Method::Get) == Some(Route::handler(handler)),
        forall|m2: Method| m2 != Method::Get ==> (#[trigger] r.handler(m2)) is None,
        r.fallback == Route::plain(Target::MethodNotAllowed),
        !r.custom_fallback,
{
    on(Method::Get, handler)
}

/// A method router that sends `POST` requests to `handler`.
pub fn post<S>(handler: u64) -> (r: MethodRouter<S>)
    ensures
        r.handler(Method::Post) == Some(Route::handler(handler)),
        forall|m2: Method| m2 != Method::Post ==> (#[trigger] r.handler(m2)) is None,
        r.fallback == Route::plain(Target::MethodNotAllowed),
        !r.custom_fallback,
{
    on(Method::Post, handler)
}

/// A method router that sends `PUT` requests to `handler`.
pub fn put<S>(handler: u64) -> (r: MethodRouter<S>)
    ensures
        r.handler(Method::Put) == Some(Route::handler(handler)),
        forall|m2: Method| m2 != Method::Put ==> (#[trigger] r.handler(m2)) is None,
        r.fallback == Route::plain(Target::MethodNotAllowed),
        !r.custom_fallback,
{
    on(Method::Put, handler)
}

/// A method router that sends `DELETE` requests to `handler`.
pub fn delete<S>(handler: u64) -> (r: MethodRouter<S>)
    ensures
        r.handler(Method::Delete) == Some(Route::handler(handler)),
        forall|m2: Method| m2 != Method::Delete ==> (#[trigger] r.handler(m2)) is None,
        r.fallback == Route::plain(Target::MethodNotAllowed),
        !r.custom_fallback,
{
    on(Method::Delete, handler)
}

/// A method router that sends `PATCH` requests to `handler`.
pub fn patch<S>(handler: u64) -> (r: MethodRouter<S>)
    ensures
        r.handler(Method::Patch) == Some(Route::handler(handler)),
        forall|m2: Method| m2 != Method::Patch ==> (#[trigger] r.handler(m2)) is None,
        r.fallback == Route::plain(Target::MethodNotAllowed),
        !r.custom_fallback,
{
    on(Method::Patch, handler)
}

/// The method router that sends requests of every method to `handler`.
pub open spec fn spec_any<S>(handler: u64) -> MethodRouter<S> {
    MethodRouter {
        get: None,
        head: None,
        delete: None,
        options: None,
        patch: None,
        post: None,
        put: None,
        trace: None,
        connect: None,
        fallback: Route::handler(handler),
        custom_fallback: true,
        state: PhantomData,
    }
}

/// A method router that sends requests of every method to `handler`.
pub fn any<S>(handler: u64) -> (r: MethodRouter<S>)
    ensures
        r == spec_any::<S>(handler),
        forall|m2: Method| (#[trigger] r.handler(m2)) is None,
{
    MethodRouter {
        get: None,
        head: None,
        delete: None,
        options: None,
        patch: None,
        post: None,
        put: None,
        trace: None,
        connect: None,
        fallback: Route::new_handler(handler),
        custom_fallback: true,
        state: PhantomData,
    }
}

} // verus!
