# axum (verified router core)

A request router in the style of axum, written in Verus. Handlers, services,
middleware layers and states are held by numeric ids; the library decides,
for a request method and path, which id answers it, through which layers,
with which state, what the route captured, and which path the service sees
(nested services do not see the prefix they were nested under).

Layout:

- `src/path.rs` — the grammar of route paths: segments, captures `{name}`,
  wildcards `{*name}`, and the checks on a path before it is registered.
- `src/matching.rs` — matching a request path against a pattern, captures,
  and which of two matching patterns is more specific.
- `src/route.rs` — what a request is handed to: a target, its layers, its
  state and how many prefix segments it does not see.
- `src/method_routing.rs` — routing by method (`get`, `post`, `any`, ...).
- `src/path_router.rs` — the table of routes: registering, merging, nesting,
  and finding the most specific route for a path.
- `src/routing.rs` — `Router`: routes, nesting, merging, fallbacks, state,
  and `dispatch`.
- `src/extract.rs`, `src/response.rs` — extractor and response types, and the
  content-type check on request headers.
- `src/laws.rs` — properties of the router proved over all inputs.
- `app/lib.rs` — what runs around the library: `http` requests, handlers and
  middleware by id, serde for path captures, and the tower `Service`
  implementation.
