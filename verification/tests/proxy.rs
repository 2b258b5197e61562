use linkup::proxy::{
    header_contains_token, is_upgrade_request, proxy_failure_answer, request_url, uses_http1,
    ProxyFailure,
};

#[test]
fn header_tokens() {
    let values = vec!["keep-alive, Upgrade".to_string()];
    assert!(header_contains_token(&values, "upgrade"));
    assert!(!header_contains_token(&values, "close"));
    assert!(!header_contains_token(&["upgraded".to_string()], "upgrade"));
    assert!(is_upgrade_request(true, &values));
    assert!(!is_upgrade_request(false, &values));
}

#[test]
fn request_urls() {
    assert_eq!(request_url("http://a.com/x", true, None), "http://a.com/x");
    assert_eq!(request_url("/ws", false, Some("127.0.0.1:80")), "http://127.0.0.1:80/ws");
    assert_eq!(request_url("/ws", false, None), "http://localhost/ws");
    assert!(uses_http1(false, "http://localhost:3000"));
    assert!(!uses_http1(false, "https://example.com"));
    assert!(uses_http1(true, "https://example.com"));
}

#[test]
fn proxy_failures_are_answered_with_their_status() {
    let (status, message) = proxy_failure_answer(&ProxyFailure::NoSession);
    assert_eq!(status, 422);
    assert!(message.starts_with("Linkup was unable to determine the session origin"));
    assert!(message.ends_with("- Local Server"));
    let (status, message) = proxy_failure_answer(&ProxyFailure::NoTarget);
    assert_eq!(status, 404);
    assert!(message.starts_with("The request belonged to a session, but there was no target"));
    let (status, message) =
        proxy_failure_answer(&ProxyFailure::Upstream("connection refused".to_string()));
    assert_eq!(status, 502);
    assert_eq!(
        message,
        "Failed to proxy request - are all your servers started? connection refused"
    );
}
