//! The request proxy's rules: which methods it forwards, which headers it
//! lets through, and the shape of what it hands back.
use std::collections::HashMap;
use vstd::prelude::*;

verus! {

/// Status, headers and body of a response.
#[derive(Debug)]
pub struct ProxyResponse {
    pub status: u16,
    pub headers: HashMap<String, String>,
    pub body: String,
}

/// A method that the proxy forwards.
#[derive(Clone, Copy, PartialEq, Eq, Debug)]
pub enum Method {
    Get,
    Post,
    Put,
    Patch,
    Delete,
}

/// What `str::to_uppercase` returns for the given text.
pub uninterp spec fn uppercase(text: Seq<char>) -> Seq<char>;

/// What `str::to_lowercase` returns for the given text.
pub uninterp spec fn lowercase(text: Seq<char>) -> Seq<char>;

/// Calls `str::to_uppercase`, whose result depends on the text alone.
#[verifier::external_body]
fn to_uppercase(text: &str) -> (upper: String)
    ensures
        upper@ == uppercase(text@),
{
    text.to_uppercase()
}

/// Calls `str::to_lowercase`, whose result depends on the text alone.
#[verifier::external_body]
fn to_lowercase(text: &str) -> (lower: String)
    ensures
        lower@ == lowercase(text@),
{
    text.to_lowercase()
}

/// The method that an upper-case name stands for.
pub open spec fn method_of(upper: Seq<char>) -> Option<Method> {
    if upper == "GET"@ {
        Some(Method::Get)
    } else if upper == "POST"@ {
        Some(Method::Post)
    } else if upper == "PUT"@ {
        Some(Method::Put)
    } else if upper == "PATCH"@ {
        Some(Method::Patch)
    } else if upper == "DELETE"@ {
        Some(Method::Delete)
    } else {
        None
    }
}

/// A header with this lower-case name stays behind: the proxy exists to
/// send requests without the web view's origin.
pub open spec fn is_withheld(lower: Seq<char>) -> bool {
    lower == "origin"@ || lower == "referer"@
}

/// The method for a name already in upper case, or `None` for a name
/// that the proxy does not forward.
pub fn method_named(upper: &String) -> (method: Option<Method>)
    ensures
        method == method_of(upper@),
{
    if *upper == String::from_str("GET") {
        Some(Method::Get)
    } else if *upper == String::from_str("POST") {
        Some(Method::Post)
    } else if *upper == String::from_str("PUT") {
        Some(Method::Put)
    } else if *upper == String::from_str("PATCH") {
        Some(Method::Patch)
    } else if *upper == String::from_str("DELETE") {
        Some(Method::Delete)
    } else {
        None
    }
}

/// The method of a request, whatever the case of its name.
pub fn parse_method(name: &str) -> (method: Option<Method>)
    ensures
        method == method_of(uppercase(name@)),
{
    let upper = to_uppercase(name);
    method_named(&upper)
}

/// Whether a header with a name already in lower case is forwarded.
pub fn forwards_lowercase_header(lower: &String) -> (forwarded: bool)
    ensures
        forwarded == !is_withheld(lower@),
{
    !(*lower == String::from_str("origin") || *lower == String::from_str("referer"))
}

/// Whether the proxy forwards a header, whatever the case of its name.
pub fn forwards_header(name: &str) -> (forwarded: bool)
    ensures
        forwarded == !is_withheld(lowercase(name@)),
{
    let lower = to_lowercase(name);
    forwards_lowercase_header(&lower)
}

} // verus!
