//! Responses: the head that a value turns into.

use vstd::prelude::*;


verus! {

broadcast use vstd::string::group_string_axioms;

/// The status and the headers of a response.
#[derive(Debug, Clone, PartialEq, Eq)]
pub struct ResponseHead {
    pub status: u16,
    pub headers: Vec<(String, String)>,
}

impl ResponseHead {
    /// The status code.
    pub fn status(&self) -> (r: u16)
        ensures
            r == self.status,
    {
        self.status
    }
}

/// A value to turn into a response, and headers to set on it.
#[derive(Debug)]
pub struct WithHeaders<T> {
    pub headers: Vec<(String, String)>,
    pub inner: T,
}

/// `http::header::CONTENT_TYPE`, as text: the crate defines it as `content-type`.
#[verifier::external_body]
fn content_type_header_name() -> (r: String)
    ensures
        r@ == "content-type"@,
{
    http::header::CONTENT_TYPE.as_str().to_string()
}

/// `mime::TEXT_HTML_UTF_8`, as text: the crate defines it as
/// `text/html; charset=utf-8`.
#[verifier::external_body]
fn text_html_utf_8() -> (r: String)
    ensures
        r@ == "text/html; charset=utf-8"@,
{
    mime::TEXT_HTML_UTF_8.as_ref().to_string()
}

/// `http::StatusCode::NO_CONTENT`, as a number: the crate defines it as 204.
#[verifier::external_body]
fn status_no_content() -> (r: u16)
    ensures
        r == 204,
{
    http::StatusCode::NO_CONTENT.as_u16()
}

/// An HTML response: the inner value, with the content type
/// `text/html; charset=utf-8`.
#[derive(Clone, Copy, Debug)]
pub struct Html<T>(pub T);

impl<T> Html<T> {
    /// The inner value, and the `content-type` header to set on it.
    pub fn into_response(self) -> (r: WithHeaders<T>)
        ensures
            r.inner == self.0,
            r.headers@.len() == 1,
            r.headers@[0].0@ == "content-type"@,
            r.headers@[0].1@ == "text/html; charset=utf-8"@,
    {
        let mut headers: Vec<(String, String)> = Vec::new();
        headers.push((content_type_header_name(), text_html_utf_8()));
        WithHeaders { headers, inner: self.0 }
    }
}

impl<T> From<T> for Html<T> {
    fn from(inner: T) -> (r: Self) {
        Html(inner)
    }
}

impl<T> vstd::std_specs::convert::FromSpecImpl<T> for Html<T> {
    open spec fn obeys_from_spec() -> bool {
        true
    }

    open spec fn from_spec(inner: T) -> Self {
        Html(inner)
    }
}

/// An empty response with the status `204 No Content`.
#[derive(Debug, Clone, Copy)]
pub struct NoContent;

impl NoContent {
    /// The head of the response: status 204, no headers.
    pub fn into_response(self) -> (r: ResponseHead)
        ensures
            r.status == 204,
            r.headers@.len() == 0,
    {
        ResponseHead { status: status_no_content(), headers: Vec::new() }
    }
}

} // verus!
