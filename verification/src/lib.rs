//! A verified model of a request router in the style of axum.

pub mod error;
pub mod path;
pub mod matching;
pub mod route;
pub mod method_routing;
pub mod path_router;
pub mod routing;
pub mod extract;
pub mod response;
pub mod laws;
pub mod path_laws;
