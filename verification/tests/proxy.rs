use lilapu_audio::proxy::{
    forwards_header, forwards_lowercase_header, method_named, parse_method, Method, ProxyResponse,
};
use std::collections::HashMap;

#[test]
fn methods_are_recognised_in_any_case() {
    assert_eq!(parse_method("GET"), Some(Method::Get));
    assert_eq!(parse_method("get"), Some(Method::Get));
    assert_eq!(parse_method("Post"), Some(Method::Post));
    assert_eq!(parse_method("pUt"), Some(Method::Put));
    assert_eq!(parse_method("patch"), Some(Method::Patch));
    assert_eq!(parse_method("delete"), Some(Method::Delete));
}

#[test]
fn other_methods_are_not_forwarded() {
    assert_eq!(parse_method("HEAD"), None);
    assert_eq!(parse_method("OPTIONS"), None);
    assert_eq!(parse_method(""), None);
    assert_eq!(parse_method("GET "), None);
}

#[test]
fn method_named_takes_upper_case_only() {
    assert_eq!(method_named(&"DELETE".to_string()), Some(Method::Delete));
    assert_eq!(method_named(&"delete".to_string()), None);
}

#[test]
fn origin_and_referer_stay_behind() {
    assert!(!forwards_header("Origin"));
    assert!(!forwards_header("origin"));
    assert!(!forwards_header("ORIGIN"));
    assert!(!forwards_header("Referer"));
    assert!(!forwards_header("referer"));
}

#[test]
fn other_headers_are_forwarded() {
    assert!(forwards_header("Authorization"));
    assert!(forwards_header("Content-Type"));
    assert!(forwards_header("X-Origin"));
    assert!(forwards_header(""));
    assert!(forwards_lowercase_header(&"Origin".to_string()));
    assert!(!forwards_lowercase_header(&"origin".to_string()));
}

#[test]
fn response_holds_status_headers_and_body() {
    let mut headers = HashMap::new();
    headers.insert("content-type".to_string(), "text/plain".to_string());
    let response = ProxyResponse { status: 200, headers, body: "ok".to_string() };
    assert_eq!(response.status, 200);
    assert_eq!(response.headers.get("content-type").map(|v| v.as_str()), Some("text/plain"));
    assert_eq!(response.body, "ok");
}
