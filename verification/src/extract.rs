//! Extractors: what a handler takes from a request, and the checks on a
//! request's headers that they make.

use vstd::prelude::*;

use core::ops::{Deref, DerefMut};

use crate::path::chars_of;

verus! {

/// Marks an extractor that is built from the parts of a request. It is a
/// marker for types only: no value of it can be made outside this crate.
#[derive(Debug, Clone, Copy)]
pub struct ViaParts {
    never: (),
}

/// Marks an extractor that is built from the whole request. It is a marker
/// for types only: no value of it can be made outside this crate.
#[derive(Debug, Clone, Copy)]
pub struct ViaRequest {
    never: (),
}

/// The captures of the route that matched the request path, turned into `T`.
#[derive(Debug, Clone, Copy)]
pub struct Path<T>(pub T);

/// The state of the router, as a handler receives it.
#[derive(Debug, Default, Clone, Copy)]
pub struct State<S>(pub S);

impl<S> Deref for State<S> {
    type Target = S;

    fn deref(&self) -> (r: &S)
        ensures
            *r == self.0,
    {
        &self.0
    }
}

impl<S> DerefMut for State<S> {
    fn deref_mut(&mut self) -> (r: &mut S)
        ensures
            *r == old(self).0,
            final(self).0 == *final(r),
    {
        &mut self.0
    }
}

#[verifier::external_type_specification]
#[verifier::external_body]
#[verifier::reject_recursive_types(T)]
pub struct ExHeaderMap<T>(http::HeaderMap<T>);

#[verifier::external_type_specification]
#[verifier::external_body]
pub struct ExHeaderValue(http::HeaderValue);

/// The values of a header map: for each (lower-case) header name, its
/// values' bytes in the order they were added.
pub uninterp spec fn header_values(m: http::HeaderMap) -> Map<Seq<char>, Seq<Seq<u8>>>;

/// The first value of the `content-type` header of `m`, if there is one.
pub open spec fn first_content_type(m: http::HeaderMap) -> Option<Seq<u8>> {
    let vals = header_values(m);
    if vals.contains_key("content-type"@) && vals["content-type"@].len() > 0 {
        Some(vals["content-type"@][0])
    } else {
        None
    }
}

/// `HeaderMap::get` with the name `content-type`: the bytes of the first
/// value of that header, as the crate documents `get`.
#[verifier::external_body]
fn content_type_bytes(headers: &http::HeaderMap) -> (r: Option<Vec<u8>>)
    ensures
        match r {
            Some(v) => header_values(*headers).contains_key("content-type"@) && header_values(
                *headers,
            )["content-type"@].len() > 0 && v@ == header_values(*headers)["content-type"@][0],
            None => !(header_values(*headers).contains_key("content-type"@) && header_values(
                *headers,
            )["content-type"@].len() > 0),
        },
{
    match headers.get(http::header::CONTENT_TYPE) {
        Some(value) => Some(value.as_bytes().to_vec()),
        None => None,
    }
}

/// A byte that a header value may hold and still be read as text.
pub open spec fn is_visible_ascii(b: u8) -> bool {
    (32 <= b && b < 127) || b == 9
}

/// The bytes `v` start with the characters `prefix`.
pub open spec fn bytes_start_with(v: Seq<u8>, prefix: Seq<char>) -> bool {
    &&& prefix.len() <= v.len()
    &&& forall|i: int| 0 <= i < prefix.len() ==> v[i] as char == prefix[i]
}

/// Whether a request with a first `content-type` value `ct` has the content
/// type `expected`: the value is text and starts with `expected`.
pub open spec fn spec_has_content_type(ct: Option<Seq<u8>>, expected: Seq<char>) -> bool {
    match ct {
        None => false,
        Some(v) => (forall|i: int| 0 <= i < v.len() ==> is_visible_ascii(#[trigger] v[i]))
            && bytes_start_with(v, expected),
    }
}

/// Whether the first `content-type` header of `headers` is readable text
/// that starts with `expected_content_type`.
pub fn has_content_type(headers: &http::HeaderMap, expected_content_type: &str) -> (r: bool)
    ensures
        r == spec_has_content_type(first_content_type(*headers), expected_content_type@),
{
    let content_type = match content_type_bytes(headers) {
        Some(v) => v,
        None => {
            return false;
        },
    };
    let mut i: usize = 0;
    while i < content_type.len()
        invariant
            i <= content_type.len(),
            first_content_type(*headers) == Some(content_type@),
            forall|k: int| 0 <= k < i ==> is_visible_ascii(#[trigger] content_type@[k]),
        decreases content_type.len() - i,
    {
        let b = content_type[i];
        if !((32 <= b && b < 127) || b == 9) {
            assert(!is_visible_ascii(content_type@[i as int]));
            return false;
        }
        i = i + 1;
    }
    let expected = chars_of(expected_content_type);
    if expected.len() > content_type.len() {
        return false;
    }
    let mut j: usize = 0;
    while j < expected.len()
        invariant
            j <= expected.len() <= content_type.len(),
            expected@ == expected_content_type@,
            first_content_type(*headers) == Some(content_type@),
            forall|k: int| 0 <= k < content_type.len() ==> is_visible_ascii(#[trigger] content_type@[k]),
            forall|k: int| 0 <= k < j ==> content_type@[k] as char == expected@[k],
        decreases expected.len() - j,
    {
        if content_type[j] as char != expected[j] {
            assert(content_type@[j as int] as char != expected@[j as int]);
            return false;
        }
        j = j + 1;
    }
    true
}

} // verus!
