use axum::error::RouteError;
use axum::method_routing::{any, delete, get, post, Method, MethodRouter};
use axum::route::{Layers, Route, StateSlot, Target};
use axum::routing::{Dispatch, Router};

fn params(d: &Dispatch) -> Vec<(String, String)> {
    d.params.clone()
}

fn pair(a: &str, b: &str) -> (String, String) {
    (a.to_string(), b.to_string())
}

#[test]
fn traits() {
    fn assert_send<T: Send>() {}
    fn assert_sync<T: Sync>() {}
    assert_send::<Router<()>>();
    assert_sync::<Router<()>>();
    assert_send::<axum::routing::RouterIntoService<Vec<u8>, ()>>();
    assert_sync::<axum::routing::RouterIntoService<Vec<u8>, ()>>();
    assert_send::<axum::routing::RouterAsService<'static, Vec<u8>, ()>>();
    assert_sync::<axum::routing::RouterAsService<'static, Vec<u8>, ()>>();
}

#[test]
fn new_router_answers_not_found() {
    let app: Router = Router::new();
    assert!(!app.has_routes());
    let d = app.dispatch(Method::Get, "/anything");
    assert_eq!(d.route, Route::new(Target::NotFound));
    assert!(d.params.is_empty());
}

#[test]
fn static_route_reaches_its_handler() {
    let app: Router = Router::new().route("/users", get(1));
    assert!(app.has_routes());
    assert_eq!(app.dispatch(Method::Get, "/users").route, Route::new_handler(1));
    assert_eq!(app.dispatch(Method::Get, "/teams").route, Route::new(Target::NotFound));
}

#[test]
fn capture_is_extracted() {
    let app: Router = Router::new().route("/users/{id}", get(7));
    let d = app.dispatch(Method::Get, "/users/123");
    assert_eq!(d.route, Route::new_handler(7));
    assert_eq!(params(&d), vec![pair("id", "123")]);
}

#[test]
fn two_captures_are_extracted_in_order() {
    let app: Router = Router::new().route("/users/{id}/posts/{sub_id}", get(2));
    let d = app.dispatch(Method::Get, "/users/123/posts/456");
    assert_eq!(d.route, Route::new_handler(2));
    assert_eq!(params(&d), vec![pair("id", "123"), pair("sub_id", "456")]);
}

#[test]
fn date_captures() {
    let app: Router = Router::new().route("/date/{year}/{month}/{day}", get(3));
    let d = app.dispatch(Method::Get, "/date/2024/12/25");
    assert_eq!(d.route, Route::new_handler(3));
    assert_eq!(
        params(&d),
        vec![pair("year", "2024"), pair("month", "12"), pair("day", "25")]
    );
}

#[test]
fn empty_capture_matches() {
    let app: Router = Router::new().route("/users/{id}", get(1));
    let d = app.dispatch(Method::Get, "/users/");
    assert_eq!(d.route, Route::new_handler(1));
    assert_eq!(params(&d), vec![pair("id", "")]);
    assert_eq!(app.dispatch(Method::Get, "/users").route, Route::new(Target::NotFound));
    // A static route still wins over an empty capture.
    let app: Router = Router::new().route("/{key}", get(1)).route("/", get(2));
    assert_eq!(app.dispatch(Method::Get, "/").route, Route::new_handler(2));
}

#[test]
fn capture_in_post_and_delete() {
    let app: Router = Router::new()
        .route("/users/{id}", post(4))
        .route("/users/{id}", delete(5));
    let d = app.dispatch(Method::Post, "/users/123");
    assert_eq!(d.route, Route::new_handler(4));
    assert_eq!(params(&d), vec![pair("id", "123")]);
    assert_eq!(app.dispatch(Method::Delete, "/users/123").route, Route::new_handler(5));
    assert_eq!(app.dispatch(Method::Get, "/users/123").route, Route::new(Target::MethodNotAllowed));
}

#[test]
fn head_falls_back_to_get() {
    let app: Router = Router::new().route("/", get(9));
    assert_eq!(app.dispatch(Method::Head, "/").route, Route::new_handler(9));
    assert_eq!(app.dispatch(Method::Put, "/").route, Route::new(Target::MethodNotAllowed));
}

#[test]
fn static_route_wins_over_capture() {
    let app: Router = Router::new().route("/{key}", get(1)).route("/foo", get(2));
    assert_eq!(app.dispatch(Method::Get, "/foo").route, Route::new_handler(2));
    let d = app.dispatch(Method::Get, "/bar");
    assert_eq!(d.route, Route::new_handler(1));
    assert_eq!(params(&d), vec![pair("key", "bar")]);
}

#[test]
fn wildcard_does_not_match_empty_rest() {
    let app: Router = Router::new().route("/{*key}", get(1));
    assert_eq!(app.dispatch(Method::Get, "/").route, Route::new(Target::NotFound));
    assert_eq!(app.dispatch(Method::Get, "/a").route, Route::new_handler(1));
    assert_eq!(app.dispatch(Method::Get, "/a/").route, Route::new_handler(1));

    let app: Router = Router::new().route("/x/{*key}", get(1));
    assert_eq!(app.dispatch(Method::Get, "/x").route, Route::new(Target::NotFound));
    assert_eq!(app.dispatch(Method::Get, "/x/").route, Route::new(Target::NotFound));
    assert_eq!(app.dispatch(Method::Get, "/x/a").route, Route::new_handler(1));
    assert_eq!(app.dispatch(Method::Get, "/x/a/").route, Route::new_handler(1));
}

#[test]
fn wildcard_capture_excludes_leading_slash() {
    let app: Router = Router::new().route("/foo/{*rest}", get(1));
    let d = app.dispatch(Method::Get, "/foo/bar/baz");
    assert_eq!(params(&d), vec![pair("rest", "bar/baz")]);
}

#[test]
fn methods_added_one_by_one() {
    let app: Router = Router::new()
        .route("/", get(1))
        .route("/", post(2))
        .route("/", delete(3));
    assert_eq!(app.dispatch(Method::Get, "/").route, Route::new_handler(1));
    assert_eq!(app.dispatch(Method::Post, "/").route, Route::new_handler(2));
    assert_eq!(app.dispatch(Method::Delete, "/").route, Route::new_handler(3));
}

#[test]
fn same_method_twice_is_refused() {
    let app: Router = Router::new().route("/", get(1));
    assert_eq!(app.try_route("/", get(2)).err(), Some(RouteError::OverlappingMethod));
}

#[test]
fn overlapping_captures_are_refused() {
    let app: Router = Router::new().route("/{a}", get(1));
    assert_eq!(app.try_route("/{b}", post(2)).err(), Some(RouteError::Conflict));
}

#[test]
fn bad_paths_are_refused() {
    let app: Router = Router::new();
    assert_eq!(app.clone().try_route("", get(1)).err(), Some(RouteError::EmptyPath));
    assert_eq!(
        app.clone().try_route("users", get(1)).err(),
        Some(RouteError::MissingLeadingSlash)
    );
    assert_eq!(
        app.clone().try_route("/{*rest}/x", get(1)).err(),
        Some(RouteError::InvalidPattern)
    );
    assert_eq!(
        app.clone().try_route("/{}", get(1)).err(),
        Some(RouteError::InvalidPattern)
    );
}

#[test]
fn old_syntax_needs_the_checks_off() {
    let app: Router = Router::new();
    assert_eq!(
        app.clone().try_route("/:colon", get(1)).err(),
        Some(RouteError::ColonSegment)
    );
    assert_eq!(
        app.clone().try_route("/*asterisk", get(1)).err(),
        Some(RouteError::AsteriskSegment)
    );
    let app = app
        .without_v07_checks()
        .route("/:colon", get(1))
        .route("/*asterisk", get(2));
    assert_eq!(app.dispatch(Method::Get, "/:colon").route, Route::new_handler(1));
    assert_eq!(app.dispatch(Method::Get, "/*asterisk").route, Route::new_handler(2));
}

#[test]
fn merge_keeps_both_routers() {
    let users: Router = Router::new().route("/users", get(1)).route("/users/{id}", get(2));
    let teams: Router = Router::new().route("/teams", get(3));
    let app = Router::new().merge(users).merge(teams);
    assert_eq!(app.dispatch(Method::Get, "/users").route, Route::new_handler(1));
    assert_eq!(app.dispatch(Method::Get, "/users/5").route, Route::new_handler(2));
    assert_eq!(app.dispatch(Method::Get, "/teams").route, Route::new_handler(3));
}

#[test]
fn merge_of_two_fallbacks_is_refused() {
    let a: Router = Router::new().fallback(1);
    let b: Router = Router::new().fallback(2);
    assert_eq!(a.clone().try_merge(b.clone()).err(), Some(RouteError::MergeFallbacks));
    // After a reset, the routes of the first fallback are gone: the merge
    // succeeds and the second fallback answers.
    let merged = a.reset_fallback().try_merge(b.clone()).ok().unwrap();
    assert_eq!(merged.dispatch(Method::Get, "/nothing").route, Route::new_handler(2));
    assert_eq!(merged.dispatch(Method::Get, "/").route, Route::new_handler(2));
    // A router whose fallback was reset merges with one that has no fallback.
    let c: Router = Router::new().route("/x", get(3)).fallback(1).reset_fallback();
    let merged = Router::new().route("/y", get(4)).merge(c);
    assert_eq!(merged.dispatch(Method::Get, "/y").route, Route::new_handler(4));
    assert_eq!(merged.dispatch(Method::Get, "/x").route, Route::new_handler(3));
}

#[test]
fn nest_prefixes_routes() {
    let users: Router = Router::new().route("/{id}", get(1));
    let teams: Router = Router::new().route("/", post(2));
    let api = Router::new().nest("/users", users).nest("/teams", teams);
    let app = Router::new().nest("/api", api);
    let d = app.dispatch(Method::Get, "/api/users/7");
    assert_eq!(d.route, Route::new_handler(1).strip(2));
    assert_eq!(params(&d), vec![pair("id", "7")]);
    // The nested handler sees the path without the prefixes.
    assert_eq!(d.path, "/7");
    let d = app.dispatch(Method::Post, "/api/teams");
    assert_eq!(d.route, Route::new_handler(2).strip(2));
    assert_eq!(d.path, "/");
    assert_eq!(app.dispatch(Method::Post, "/api/teams/").route, Route::new(Target::NotFound));
}

#[test]
fn nest_at_trailing_slash() {
    let inner: Router = Router::new().route("/", get(1));
    let app = Router::new().nest("/foo/", inner);
    let d = app.dispatch(Method::Get, "/foo/");
    assert_eq!(d.route, Route::new_handler(1).strip(1));
    assert_eq!(d.path, "/");
    let d = app.dispatch(Method::Get, "/foo");
    assert_eq!(d.route, Route::new(Target::NotFound));
    assert_eq!(d.path, "/foo");
}

#[test]
fn nest_refusals() {
    let app: Router = Router::new();
    assert_eq!(
        app.clone().try_nest("/", Router::new()).err(),
        Some(RouteError::NestAtRoot)
    );
    assert_eq!(
        app.clone().try_nest("", Router::new()).err(),
        Some(RouteError::NestAtRoot)
    );
    assert_eq!(
        app.clone().try_nest("/{*rest}", Router::new()).err(),
        Some(RouteError::NestWildcard)
    );
}

#[test]
fn nest_with_outer_capture() {
    let users: Router = Router::new().route("/users/{id}", get(1));
    let app = Router::new().nest("/{version}/api", users);
    let d = app.dispatch(Method::Get, "/v1/api/users/3");
    assert_eq!(d.route, Route::new_handler(1).strip(2));
    assert_eq!(d.path, "/users/3");
    assert_eq!(params(&d), vec![pair("version", "v1"), pair("id", "3")]);
}

#[test]
fn fallback_answers_unmatched_requests() {
    let app: Router = Router::new().route("/foo", get(1)).fallback(9);
    assert_eq!(app.dispatch(Method::Get, "/foo").route, Route::new_handler(1));
    assert_eq!(app.dispatch(Method::Get, "/").route, Route::new_handler(9));
    assert_eq!(app.dispatch(Method::Post, "/bar/baz").route, Route::new_handler(9));
    assert_eq!(app.dispatch(Method::Connect, "").route, Route::new_handler(9));
    // A matched path with a method it lacks is answered by the method router.
    assert_eq!(app.dispatch(Method::Post, "/foo").route, Route::new(Target::MethodNotAllowed));
}

#[test]
fn method_not_allowed_fallback_applies_to_existing_routes() {
    let app: Router = Router::new()
        .route("/", get(1))
        .fallback(2)
        .method_not_allowed_fallback(3);
    assert_eq!(app.dispatch(Method::Get, "/").route, Route::new_handler(1));
    assert_eq!(app.dispatch(Method::Post, "/").route, Route::new_handler(3));
    assert_eq!(app.dispatch(Method::Get, "/hello").route, Route::new_handler(2));
}

#[test]
fn reset_fallback_restores_not_found() {
    let app: Router = Router::new().route("/a", get(1)).fallback(2).reset_fallback();
    assert_eq!(app.dispatch(Method::Connect, "").route, Route::new(Target::NotFound));
    assert_eq!(app.dispatch(Method::Get, "/").route, Route::new(Target::NotFound));
    assert_eq!(app.dispatch(Method::Post, "/x/y").route, Route::new(Target::NotFound));
    assert_eq!(app.dispatch(Method::Get, "/a").route, Route::new_handler(1));
    assert!(app.has_routes());
    let app: Router = Router::new().fallback_service(3).reset_fallback();
    assert_eq!(app.dispatch(Method::Get, "/").route, Route::new(Target::NotFound));
    assert!(!app.has_routes());
}

#[test]
fn route_service_serves_every_method() {
    let app: Router = Router::new().route_service("/static", 11);
    assert_eq!(app.dispatch(Method::Get, "/static").route, Route::new(Target::Handler(11)));
    assert_eq!(app.dispatch(Method::Patch, "/static").route, Route::new(Target::Handler(11)));
}

#[test]
fn fallback_service_answers_unmatched_requests() {
    let app: Router = Router::new().fallback_service(12);
    assert_eq!(app.dispatch(Method::Get, "/x/y").route, Route::new(Target::Handler(12)));
}

#[test]
fn with_state_hands_the_state_to_handlers() {
    let app: Router<u32> = Router::new()
        .route("/a/{b}", get(1))
        .route_service("/svc", 4)
        .fallback(2);
    let before = app.dispatch(Method::Get, "/a/x");
    assert_eq!(before.route.state, StateSlot::Missing);
    let done: Router<()> = app.with_state(5);
    let after = done.dispatch(Method::Get, "/a/x");
    assert_eq!(after.route, Route::new_handler(1).with_state(5));
    assert_eq!(after.route.state, StateSlot::Given(5));
    assert_eq!(before.params, after.params);
    // The handler fallback gets the state too; a service takes none.
    assert_eq!(done.dispatch(Method::Get, "/zzz").route.state, StateSlot::Given(5));
    assert_eq!(done.dispatch(Method::Get, "/svc").route.state, StateSlot::Unused);
    // A second state does not replace the first.
    let again: Router<()> = done.with_state(6);
    assert_eq!(again.dispatch(Method::Get, "/a/x").route.state, StateSlot::Given(5));
}

#[test]
fn into_make_service_holds_the_router() {
    let app: Router = Router::new().route("/", get(1));
    let svc = app.into_make_service();
    assert_eq!(svc.svc.dispatch(Method::Get, "/").route, Route::new_handler(1));
    let app: Router = Router::new().route("/", get(1));
    let svc = app.into_make_service_with_connect_info::<u8>();
    assert_eq!(svc.svc.dispatch(Method::Get, "/").route, Route::new_handler(1));
}

#[test]
fn services_from_router() {
    let mut app: Router = Router::new().route("/", any(4));
    {
        let s = app.as_service::<Vec<u8>>();
        assert_eq!(s.router.dispatch(Method::Trace, "/").route, Route::new_handler(4));
    }
    let s = app.into_service::<Vec<u8>>();
    assert_eq!(s.router.dispatch(Method::Options, "/").route, Route::new_handler(4));
}

#[test]
fn method_router_merge() {
    let a: MethodRouter = get(1);
    let b: MethodRouter = post(2);
    let m = a.merge_for_path(b).ok().unwrap();
    assert_eq!(m.get, Some(Route::new_handler(1)));
    assert_eq!(m.post, Some(Route::new_handler(2)));
    let c: MethodRouter = any(3);
    let d: MethodRouter = any(4);
    assert_eq!(c.merge_for_path(d).err(), Some(RouteError::OverlappingMethodFallback));
}

#[test]
fn nested_router_inherits_outer_fallback() {
    let api: Router = Router::new().route("/users", get(1));
    let app = Router::new().nest("/api", api).fallback(9);
    assert_eq!(app.dispatch(Method::Get, "/api/users").route, Route::new_handler(1).strip(1));
    let d = app.dispatch(Method::Get, "/api/not-found");
    assert_eq!(d.route, Route::new_handler(9));
    assert_eq!(d.path, "/api/not-found");
}

#[test]
fn nested_router_keeps_its_own_fallback() {
    let api: Router = Router::new().route("/users", get(1)).fallback(5);
    let app = Router::new().nest("/api", api).fallback(9);
    assert_eq!(app.dispatch(Method::Get, "/api/users").route, Route::new_handler(1).strip(1));
    let d = app.dispatch(Method::Get, "/api/not-found");
    assert_eq!(d.route, Route::new_handler(5).strip(1));
    assert_eq!(d.path, "/not-found");
    assert_eq!(app.dispatch(Method::Get, "/elsewhere").route, Route::new_handler(9));
}

#[test]
fn nest_service_serves_the_prefix_and_below() {
    let app: Router = Router::new().nest_service("/static", 20);
    let svc = Route::new(Target::Handler(20)).strip(1);
    assert_eq!(app.dispatch(Method::Get, "/static").route, svc);
    assert_eq!(app.dispatch(Method::Get, "/static").path, "/");
    assert_eq!(app.dispatch(Method::Get, "/static/").route, svc);
    let d = app.dispatch(Method::Post, "/static/a/b");
    assert_eq!(d.route, svc);
    assert_eq!(d.path, "/a/b");
    assert_eq!(params(&d), vec![pair("__private__axum_nest_tail_param", "a/b")]);
    assert_eq!(app.dispatch(Method::Get, "/other").route, Route::new(Target::NotFound));
    assert_eq!(
        Router::<()>::new().try_nest_service("/", 1).err(),
        Some(RouteError::NestServiceAtRoot)
    );
}

#[test]
fn layer_wraps_routes_and_fallback() {
    let app: Router = Router::new().route("/foo", get(1)).route_service("/svc", 2).layer(7);
    let wrapped = |t: Target| Route::new(t).layer(7);
    assert_eq!(app.dispatch(Method::Get, "/foo").route, Route::new_handler(1).layer(7));
    assert_eq!(app.dispatch(Method::Post, "/foo").route, wrapped(Target::MethodNotAllowed));
    assert_eq!(app.dispatch(Method::Put, "/svc").route, wrapped(Target::Handler(2)));
    assert_eq!(app.dispatch(Method::Get, "/missing").route, wrapped(Target::NotFound));
    // Routes added afterwards are not wrapped.
    let app = app.route("/bar", get(3));
    assert_eq!(app.dispatch(Method::Get, "/bar").route, Route::new_handler(3));
    // A second layer wraps the first.
    let app = app.layer(8);
    let d = app.dispatch(Method::Get, "/foo");
    assert_eq!(d.route.target, Target::Handler(1));
    assert_eq!(
        d.route.layers,
        Layers::Cons(8, Box::new(Layers::Cons(7, Box::new(Layers::Nil))))
    );
}

#[test]
fn layer_wraps_a_handler_fallback() {
    let app: Router<u32> = Router::new().route("/a", get(1)).fallback(9).layer(7);
    assert_eq!(
        app.dispatch(Method::Get, "/zzz").route,
        Route::new_handler(9).layer(7)
    );
    let done: Router<()> = app.with_state(3);
    assert_eq!(
        done.dispatch(Method::Get, "/zzz").route,
        Route::new_handler(9).layer(7).with_state(3)
    );
}

#[test]
fn route_layer_wraps_only_matched_routes() {
    let app: Router = Router::new().route("/foo", get(1)).route_layer(7);
    assert_eq!(
        app.dispatch(Method::Get, "/foo").route,
        Route::new_handler(1).layer(7)
    );
    // The path matched, so the method router's answer goes through the layer.
    assert_eq!(
        app.dispatch(Method::Post, "/foo").route,
        Route::new(Target::MethodNotAllowed).layer(7)
    );
    assert_eq!(app.dispatch(Method::Get, "/not-found").route, Route::new(Target::NotFound));
}

#[test]
fn method_router_layers() {
    let mr: MethodRouter = get(1);
    let all = mr.clone_router().layer(4);
    assert_eq!(all.get, Some(Route::new_handler(1).layer(4)));
    assert_eq!(all.fallback, Route::new(Target::MethodNotAllowed).layer(4));
    let some = mr.route_layer(4);
    assert_eq!(some.get, Some(Route::new_handler(1).layer(4)));
    assert_eq!(some.fallback, Route::new(Target::MethodNotAllowed));
}

#[test]
fn error_messages() {
    assert_eq!(RouteError::MissingLeadingSlash.message(), "Paths must start with a `/`");
    assert_eq!(
        RouteError::MergeFallbacks.message(),
        "Cannot merge two `Router`s that both have a fallback"
    );
}

#[test]
fn nest_service_at_root_message() {
    let e = Router::<()>::new().try_nest_service("", 1).err().unwrap();
    assert_eq!(e, RouteError::NestServiceAtRoot);
    assert_eq!(
        e.message(),
        "Nesting at the root is no longer supported. Use fallback_service instead."
    );
}

#[test]
fn fallback_keeps_matched_answers() {
    let app: Router = Router::new().route("/{key}", get(1)).fallback(2);
    assert_eq!(app.dispatch(Method::Get, "/a").route, Route::new_handler(1));
    assert_eq!(app.dispatch(Method::Get, "/a/b").route, Route::new_handler(2));
    // The fallback's own route at `/` outranks the empty capture.
    assert_eq!(app.dispatch(Method::Get, "/").route, Route::new_handler(2));
}

#[test]
fn merge_keeps_old_syntax_checks() {
    let off: Router = Router::new().without_v07_checks();
    let on: Router = Router::new();
    let merged = off.clone().merge(on);
    assert_eq!(
        merged.try_route("/:colon", get(1)).err(),
        Some(RouteError::ColonSegment)
    );
    let merged = off.clone().merge(Router::new().without_v07_checks());
    assert!(merged.try_route("/:colon", get(1)).is_ok());
}

#[test]
fn other_methods_reach_fallbacks() {
    let app: Router = Router::new().route("/any", any(4)).route("/get", get(1)).fallback(9);
    assert_eq!(app.dispatch(Method::Other, "/any").route, Route::new_handler(4));
    assert_eq!(app.dispatch(Method::Other, "/get").route, Route::new(Target::MethodNotAllowed));
    assert_eq!(app.dispatch(Method::Other, "/none").route, Route::new_handler(9));
}

#[test]
fn connect_info_is_handed_to_requests() {
    let app: Router = Router::new().route("/", get(1));
    let make = app.into_make_service_with_connect_info::<u32>();
    let conn = make.make_service(77);
    let (d, info) = conn.dispatch(Method::Get, "/");
    assert_eq!(d.route, Route::new_handler(1));
    assert_eq!(*info, 77);
    let make = Router::<()>::new().route("/", get(2)).into_make_service();
    assert_eq!(make.make_service().dispatch(Method::Get, "/").route, Route::new_handler(2));
}

#[test]
fn merge_keeps_each_routers_answers_in_either_order() {
    let a: Router = Router::new().route("/users/{id}", get(1)).fallback(9);
    let b: Router = Router::new().route("/teams", post(2)).route_service("/files", 3);
    let ab = a.clone().merge(b.clone());
    let ba = b.merge(a);
    for (m, p) in [
        (Method::Get, "/users/5"),
        (Method::Post, "/teams"),
        (Method::Get, "/teams"),
        (Method::Put, "/files"),
        (Method::Get, "/nowhere/else"),
    ] {
        assert_eq!(ab.dispatch(m, p), ba.dispatch(m, p));
    }
    assert_eq!(ab.dispatch(Method::Get, "/users/5").route, Route::new_handler(1));
    assert_eq!(ab.dispatch(Method::Put, "/files").route, Route::new(Target::Handler(3)));
    assert_eq!(ab.dispatch(Method::Get, "/nowhere/else").route, Route::new_handler(9));
}

#[test]
fn fallback_service_keeps_matched_answers() {
    let app: Router = Router::new().route("/a/{b}", get(1)).fallback_service(5);
    assert_eq!(app.dispatch(Method::Get, "/a/x").route, Route::new_handler(1));
    assert_eq!(app.dispatch(Method::Get, "/b").route, Route::new(Target::Handler(5)));
}

#[test]
fn new_route_keeps_other_answers() {
    let before: Router = Router::new().route("/a/{b}", get(1)).layer(7);
    let after = before.clone().route("/late", get(2));
    assert_eq!(after.dispatch(Method::Get, "/a/x"), before.dispatch(Method::Get, "/a/x"));
    assert_eq!(after.dispatch(Method::Get, "/zzz"), before.dispatch(Method::Get, "/zzz"));
    assert_eq!(after.dispatch(Method::Get, "/late").route, Route::new_handler(2));
}
