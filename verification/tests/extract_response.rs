use axum::extract::{has_content_type, State};
use axum::response::{Html, NoContent};
use axum::route::{take_route_or_internal_error, Route, Target};
use http::header::{HeaderValue, CONTENT_TYPE};
use http::{HeaderMap, StatusCode};

#[test]
fn no_content() {
    assert_eq!(
        NoContent.into_response().status(),
        StatusCode::NO_CONTENT.as_u16(),
    )
}

#[test]
fn html_sets_content_type() {
    let r = Html("<h1>Hello</h1>").into_response();
    assert_eq!(r.inner, "<h1>Hello</h1>");
    assert_eq!(
        r.headers,
        vec![("content-type".to_string(), "text/html; charset=utf-8".to_string())]
    );
    let h: Html<u8> = Html::from(3u8);
    assert_eq!(h.0, 3);
}

#[test]
fn content_type_checks() {
    let mut headers = HeaderMap::new();
    assert!(!has_content_type(&headers, "application/json"));
    headers.insert(CONTENT_TYPE, HeaderValue::from_static("application/json; charset=utf-8"));
    assert!(has_content_type(&headers, "application/json"));
    assert!(!has_content_type(&headers, "text/html"));
    headers.append(CONTENT_TYPE, HeaderValue::from_static("text/html"));
    assert!(has_content_type(&headers, "application/json"));
    let mut bad = HeaderMap::new();
    bad.insert(CONTENT_TYPE, HeaderValue::from_bytes(b"application/json\xff").unwrap());
    assert!(!has_content_type(&bad, "application/json"));
}

#[test]
fn state_derefs_to_its_value() {
    let mut s = State(5u32);
    assert_eq!(*s, 5);
    *s += 1;
    assert_eq!(s.0, 6);
}

#[test]
fn take_route_once() {
    let mut slot = Some(Route::new(Target::Handler(4)));
    assert_eq!(take_route_or_internal_error(&mut slot), Route::new(Target::Handler(4)));
    assert_eq!(slot, None);
}
