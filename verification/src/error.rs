//! Why a route could not be registered.

use vstd::prelude::*;

verus! {

/// The reasons for which the router refuses a route, a nesting or a merge.
#[derive(Debug, Clone, Copy, PartialEq, Eq, Structural)]
pub enum RouteError {
    /// The path is empty.
    EmptyPath,
    /// The path does not start with `/`.
    MissingLeadingSlash,
    /// A segment starts with `:` while the checks for the old syntax are on.
    ColonSegment,
    /// A segment starts with `*` while the checks for the old syntax are on.
    AsteriskSegment,
    /// A segment misuses braces, has an empty capture name, or a wildcard is not last.
    InvalidPattern,
    /// The path overlaps a route that is already registered.
    Conflict,
    /// Both method routers of one path handle the same method.
    OverlappingMethod,
    /// Both method routers of one path have a fallback of their own.
    OverlappingMethodFallback,
    /// A router was nested at the root.
    NestAtRoot,
    /// A service was nested at the root.
    NestServiceAtRoot,
    /// The path to nest at holds a wildcard.
    NestWildcard,
    /// Both merged routers have a fallback of their own.
    MergeFallbacks,
}

impl RouteError {
    /// The text of the message with which the router reports this error.
    pub open spec fn message_text(self) -> Seq<char> {
        match self {
            RouteError::EmptyPath => "Paths must start with a `/`. Use \"/\" for root routes"@,
            RouteError::MissingLeadingSlash => "Paths must start with a `/`"@,
            RouteError::ColonSegment => "Path segments must not start with `:`. For capture groups, use `{capture}`. If you meant to literally match a segment starting with a colon, call `without_v07_checks` on the router."@,
            RouteError::AsteriskSegment => "Path segments must not start with `*`. For wildcard capture, use `{*wildcard}`. If you meant to literally match a segment starting with an asterisk, call `without_v07_checks` on the router."@,
            RouteError::InvalidPattern => "Invalid route: malformed capture or wildcard segment"@,
            RouteError::Conflict => "Invalid route: insertion failed due to conflict with previously registered route"@,
            RouteError::OverlappingMethod => "Overlapping method route. Cannot add two method routes that both handle the same method"@,
            RouteError::OverlappingMethodFallback => "Cannot merge two method routes that both define a fallback"@,
            RouteError::NestAtRoot => "Nesting at the root is no longer supported. Use merge instead."@,
            RouteError::NestServiceAtRoot => "Nesting at the root is no longer supported. Use fallback_service instead."@,
            RouteError::NestWildcard => "Invalid route: nested routes cannot contain wildcards (*)"@,
            RouteError::MergeFallbacks => "Cannot merge two `Router`s that both have a fallback"@,
        }
    }

    /// The message with which the router reports this error.
    pub fn message(&self) -> (r: &'static str)
        ensures
            r@ == self.message_text(),
    {
        match self {
            RouteError::EmptyPath => "Paths must start with a `/`. Use \"/\" for root routes",
            RouteError::MissingLeadingSlash => "Paths must start with a `/`",
            RouteError::ColonSegment => "Path segments must not start with `:`. For capture groups, use `{capture}`. If you meant to literally match a segment starting with a colon, call `without_v07_checks` on the router.",
            RouteError::AsteriskSegment => "Path segments must not start with `*`. For wildcard capture, use `{*wildcard}`. If you meant to literally match a segment starting with an asterisk, call `without_v07_checks` on the router.",
            RouteError::InvalidPattern => "Invalid route: malformed capture or wildcard segment",
            RouteError::Conflict => "Invalid route: insertion failed due to conflict with previously registered route",
            RouteError::OverlappingMethod => "Overlapping method route. Cannot add two method routes that both handle the same method",
            RouteError::OverlappingMethodFallback => "Cannot merge two method routes that both define a fallback",
            RouteError::NestAtRoot => "Nesting at the root is no longer supported. Use merge instead.",
            RouteError::NestServiceAtRoot => "Nesting at the root is no longer supported. Use fallback_service instead.",
            RouteError::NestWildcard => "Invalid route: nested routes cannot contain wildcards (*)",
            RouteError::MergeFallbacks => "Cannot merge two `Router`s that both have a fallback",
        }
    }
}

} // verus!
