use fd_handoff::forward::{failure_reply, proxy_request_uri, ProxyFailure, PROXY_HOST_HEADER};

#[test]
fn uri_without_query() {
    assert_eq!(proxy_request_uri("http://up:8080", "/a/b", None), "http://up:8080/a/b");
}

#[test]
fn uri_with_query() {
    assert_eq!(
        proxy_request_uri("http://up", "/s", Some("q=1&r=2")),
        "http://up/s?q=1&r=2"
    );
}

#[test]
fn uri_with_empty_query_keeps_mark() {
    assert_eq!(proxy_request_uri("http://up", "/", Some("")), "http://up/?");
    assert_eq!(PROXY_HOST_HEADER, "Proxy-Host");
}

#[test]
fn failures_answer_bad_request() {
    assert_eq!(failure_reply(ProxyFailure::MissingHost), (400, "Proxy-Host header is missing"));
    assert_eq!(
        failure_reply(ProxyFailure::InvalidHost),
        (400, "Proxy-Host header is not a valid string")
    );
    assert_eq!(failure_reply(ProxyFailure::UnreadableBody), (400, "Failed to read request body"));
    assert_eq!(failure_reply(ProxyFailure::NoClient), (400, "Failed to create a reqwest client"));
}
