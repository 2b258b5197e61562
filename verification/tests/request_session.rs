use linkup::request_session::{
    extract_tracestate_session, first_subdomain, session_names_from_request, HeaderMap, HeaderName,
};

#[test]
fn first_subdomain_of_urls() {
    assert_eq!(first_subdomain("https://my-session.example.com/path?q=1"), "my-session");
    assert_eq!(first_subdomain("example.com"), "example");
    assert_eq!(first_subdomain("http://localhost:80/"), "localhost:80");
    assert_eq!(first_subdomain("ws://a.b.c"), "a");
    assert_eq!(first_subdomain("https://x://y.z"), "y");
    assert_eq!(first_subdomain(""), "");
}

#[test]
fn tracestate_session() {
    assert_eq!(extract_tracestate_session("linkup-session=ws-session"), "ws-session");
    assert_eq!(
        extract_tracestate_session("vendor=1, linkup-session = abc , other=2"),
        "abc"
    );
    assert_eq!(extract_tracestate_session("vendor=1,other=2"), "");
    assert_eq!(
        extract_tracestate_session("linkup-session=first,linkup-session=second"),
        "first"
    );
    assert_eq!(extract_tracestate_session(""), "");
}

#[test]
fn headers_are_case_insensitive_and_replaced() {
    let mut headers = HeaderMap::new();
    headers.insert("Referer", "https://one.example.com");
    headers.insert("REFERER", "https://two.example.com");
    assert_eq!(headers.get(HeaderName::Referer), Some("https://two.example.com"));
    assert_eq!(headers.get(HeaderName::Origin), None);
}

#[test]
fn session_names_in_order() {
    let mut headers = HeaderMap::new();
    headers.insert("referer", "example.com");
    headers.insert("tracestate", "linkup-session=ws-session");
    headers.insert("Origin", "https://origin-session.example.com");
    headers.insert("X-Forwarded-Host", "fwd.example.com");
    let names = session_names_from_request("http://req-session.example.com/ws", &headers);
    assert_eq!(
        names,
        vec!["req-session", "fwd", "example", "origin-session", "ws-session"]
    );
    let none = HeaderMap::new();
    assert_eq!(session_names_from_request("http://a.b/c", &none), vec!["a"]);
}
