//! What a request is finally handed to: a target, wrapped in the layers of
//! middleware that were applied to it.

use vstd::prelude::*;

verus! {

/// What answers a request. Handlers and services are held by their id: the
/// caller keeps the table from ids to the code they run.
#[derive(Clone, Copy, Debug, PartialEq, Eq, Structural)]
pub enum Target {
    /// The handler or service with this id.
    Handler(u64),
    /// The default fallback: `404 Not Found`.
    NotFound,
    /// The default answer of a method router without a handler for the method:
    /// `405 Method Not Allowed`.
    MethodNotAllowed,
    /// `500 Internal Server Error`.
    InternalError,
}

/// The layers of middleware around a service, outermost first. Layers are
/// held by their id, as handlers are.
#[derive(Debug, PartialEq, Eq)]
pub enum Layers {
    Nil,
    Cons(u64, Box<Layers>),
}

impl Layers {
    /// The ids of the layers, outermost first.
    pub open spec fn ids(self) -> Seq<u64>
        decreases self,
    {
        match self {
            Layers::Nil => Seq::empty(),
            Layers::Cons(l, rest) => seq![l] + rest.ids(),
        }
    }

    pub fn clone_layers(&self) -> (r: Self)
        ensures
            r == *self,
        decreases self,
    {
        match self {
            Layers::Nil => Layers::Nil,
            Layers::Cons(l, rest) => Layers::Cons(*l, Box::new(rest.clone_layers())),
        }
    }
}

/// The state of the router, as a handler sees it. States are held by their
/// id, as handlers are.
#[derive(Clone, Copy, Debug, PartialEq, Eq, Structural)]
pub enum StateSlot {
    /// A service, which takes no state.
    Unused,
    /// A handler whose router has not been given its state yet: it gets the
    /// state handed to the router when the request is answered.
    Missing,
    /// A handler that was given the state with this id.
    Given(u64),
}

/// A service: its target, the layers of middleware around it, the state
/// it is handed, and how many leading segments of the request path it does
/// not see (those of the prefixes it was nested under).
#[derive(Debug, PartialEq, Eq)]
pub struct Route {
    pub target: Target,
    pub layers: Layers,
    pub state: StateSlot,
    pub strip: usize,
}

impl Route {
    /// The service `target` without middleware, which takes no state.
    pub open spec fn plain(target: Target) -> Route {
        Route { target, layers: Layers::Nil, state: StateSlot::Unused, strip: 0 }
    }

    /// The handler `handler` without middleware, still without its state.
    pub open spec fn handler(handler: u64) -> Route {
        Route {
            target: Target::Handler(handler),
            layers: Layers::Nil,
            state: StateSlot::Missing,
            strip: 0,
        }
    }

    /// This service nested under a prefix of `k` more segments.
    pub open spec fn spec_strip(self, k: usize) -> Route {
        Route { strip: self.strip.saturating_add(k), ..self }
    }

    /// This service wrapped in the layer `l`.
    pub open spec fn spec_layer(self, l: u64) -> Route {
        Route { layers: Layers::Cons(l, Box::new(self.layers)), ..self }
    }

    /// This service, given the state `state` if it is a handler still without one.
    pub open spec fn spec_with_state(self, state: u64) -> Route {
        if self.state == StateSlot::Missing {
            Route { state: StateSlot::Given(state), ..self }
        } else {
            self
        }
    }

    /// The service `target` without middleware, which takes no state.
    pub fn new(target: Target) -> (r: Route)
        ensures
            r == Route::plain(target),
    {
        Route { target, layers: Layers::Nil, state: StateSlot::Unused, strip: 0 }
    }

    /// The handler `handler` without middleware, still without its state.
    pub fn new_handler(handler: u64) -> (r: Route)
        ensures
            r == Route::handler(handler),
    {
        Route {
            target: Target::Handler(handler),
            layers: Layers::Nil,
            state: StateSlot::Missing,
            strip: 0,
        }
    }

    /// Nests this service under a prefix of `k` more segments.
    pub fn strip(self, k: usize) -> (r: Route)
        ensures
            r == self.spec_strip(k),
    {
        Route {
            target: self.target,
            layers: self.layers,
            state: self.state,
            strip: self.strip.saturating_add(k),
        }
    }

    /// This service wrapped in the layer `l`.
    pub fn layer(self, l: u64) -> (r: Route)
        ensures
            r == self.spec_layer(l),
    {
        Route {
            target: self.target,
            layers: Layers::Cons(l, Box::new(self.layers)),
            state: self.state,
            strip: self.strip,
        }
    }

    /// Gives this service the state `state` if it is a handler still without one.
    pub fn with_state(self, state: u64) -> (r: Route)
        ensures
            r == self.spec_with_state(state),
    {
        match self.state {
            StateSlot::Missing => Route {
                target: self.target,
                layers: self.layers,
                state: StateSlot::Given(state),
                strip: self.strip,
            },
            _ => self,
        }
    }

    pub fn clone_route(&self) -> (r: Route)
        ensures
            r == *self,
    {
        Route {
            target: self.target,
            layers: self.layers.clone_layers(),
            state: self.state,
            strip: self.strip,
        }
    }
}

impl Clone for Layers {
    fn clone(&self) -> (r: Self)
        ensures
            r == *self,
    {
        self.clone_layers()
    }
}

impl Clone for Route {
    fn clone(&self) -> (r: Self)
        ensures
            r == *self,
    {
        self.clone_route()
    }
}

/// Takes the route out of `service`, which holds one. A slot already
/// emptied by an earlier call is left out by `requires`: there a debug build
/// stops with a panic (only a release build would answer `500 Internal
/// Server Error`).
pub fn take_route_or_internal_error(service: &mut Option<Route>) -> (r: Route)
    requires
        *old(service) is Some,
    ensures
        *final(service) == None::<Route>,
        r == (*old(service))->Some_0,
{
    match service.take() {
        Some(route) => route,
        None => Route::new(Target::InternalError),
    }
}

} // verus!
