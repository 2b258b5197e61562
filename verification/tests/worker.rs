use linkup::state::{Domain, Route, Session, SessionService};
use linkup::text::replace_str;
use linkup::worker::{
    after_existing_read, authenticate, delete_answer, tunneled_services, begin_upsert, check_upsert, preview_refusal, first_lookup_step, next_lookup_step, next_name_source,
    points_to_localhost, preview_services_allowed, route_local_services_to_tunnel,
    upsert_error_status, validate_name_reuse, AuthRejection, AuthorizationHeader, LookupStep,
    NameSource, SessionRegistryError, UpsertStep, VersionHeader, SESSION_TTL_SECONDS,
};

fn session(token: &str) -> Session {
    Session {
        session_token: token.to_string(),
        services: vec![],
        domains: vec![],
        cache_routes: None,
    }
}

fn preview_session() -> Session {
    Session {
        session_token: "preview".to_string(),
        services: vec![
            SessionService {
                name: "frontend".to_string(),
                location: "https://frontend.example.com".to_string(),
                rewrites: None,
            },
            SessionService {
                name: "backend".to_string(),
                location: "https://backend.example.com".to_string(),
                rewrites: None,
            },
        ],
        domains: vec![Domain {
            domain: "example.com".to_string(),
            default_service: "frontend".to_string(),
            routes: Some(vec![Route {
                path: "^/api(?:/|$)".to_string(),
                service: "backend".to_string(),
            }]),
        }],
        cache_routes: None,
    }
}

#[test]
fn rejects_reusing_a_name_with_another_token() {
    let first = preview_session();
    let mut second = first.clone();
    second.session_token = "another-token".to_string();

    let error = validate_name_reuse(Some(&first), &second).unwrap_err();

    assert!(matches!(error, SessionRegistryError::SessionNameConflict));
}

#[test]
fn storing_refuses_an_empty_name_before_reading_and_writes_for_seven_days() {
    assert!(matches!(
        begin_upsert(""),
        UpsertStep::Refuse(SessionRegistryError::EmptySessionName)
    ));
    assert!(matches!(begin_upsert("agent"), UpsertStep::ReadExisting));

    let first = preview_session();
    let mut other = first.clone();
    other.session_token = "another-token".to_string();
    assert!(matches!(
        after_existing_read(Some(&first), &other),
        UpsertStep::Refuse(SessionRegistryError::SessionNameConflict)
    ));
    assert!(matches!(
        after_existing_read(Some(&first), &first),
        UpsertStep::Write { ttl_seconds: 604800 }
    ));
    assert!(matches!(
        after_existing_read(None, &other),
        UpsertStep::Write { ttl_seconds: 604800 }
    ));
    assert_eq!(SESSION_TTL_SECONDS, 60 * 60 * 24 * 7);
}

#[test]
fn preview_with_a_localhost_service_is_refused_with_400() {
    assert_eq!(preview_refusal(&preview_session().services), None);
    let mut local = preview_session();
    local.services[1].location = "http://localhost:8001".to_string();
    assert_eq!(
        preview_refusal(&local.services),
        Some((400, "Preview session cannot contain services pointing to localhost"))
    );
}

#[test]
fn same_token_or_new_name_may_be_stored() {
    let first = session("t");
    assert!(validate_name_reuse(Some(&first), &session("t")).is_ok());
    assert!(validate_name_reuse(None, &first).is_ok());
    assert!(matches!(
        check_upsert("", None, &first),
        Err(SessionRegistryError::EmptySessionName)
    ));
    assert!(check_upsert("name", None, &first).is_ok());
}

#[test]
fn names_come_from_animals_then_random_characters() {
    let mut attempts = 0;
    for _ in 0..20 {
        let (source, next) = next_name_source(attempts);
        assert_eq!(source, NameSource::Animal);
        attempts = next;
    }
    assert_eq!(attempts, 20);
    assert_eq!(next_name_source(attempts), (NameSource::SixChars, 20));
}

#[test]
fn lookup_tries_names_in_order_and_stops_at_the_first_stored_session() {
    let url = "https://app.example.com/";
    let names = vec!["first".to_string(), "second".to_string()];

    assert!(matches!(first_lookup_step(url, &names), LookupStep::Read { index: 0 }));
    assert!(matches!(
        next_lookup_step(url, &names, 0, None),
        LookupStep::Read { index: 1 }
    ));
    match next_lookup_step(url, &names, 1, Some(session("t"))) {
        LookupStep::Found { name, session } => {
            assert_eq!(name, "second");
            assert_eq!(session.session_token, "t");
        }
        other => panic!("expected a session, got {other:?}"),
    }
    match next_lookup_step(url, &names, 1, None) {
        LookupStep::NotFound(SessionRegistryError::NoSessionForRequest(u)) => assert_eq!(u, url),
        other => panic!("expected no session, got {other:?}"),
    }
    match first_lookup_step(url, &vec![]) {
        LookupStep::NotFound(SessionRegistryError::NoSessionForRequest(u)) => assert_eq!(u, url),
        other => panic!("expected no session, got {other:?}"),
    }
}

fn service(name: &str, location: &str) -> SessionService {
    SessionService {
        name: name.to_string(),
        location: location.to_string(),
        rewrites: None,
    }
}

#[test]
fn localhost_services_are_recognised_by_their_host() {
    assert!(points_to_localhost("http://localhost:3000"));
    assert!(points_to_localhost("http://LOCALHOST:8000/api"));
    assert!(!points_to_localhost("https://frontend.example.com"));
    assert!(!points_to_localhost("http://127.0.0.1:3000"));
    assert!(!points_to_localhost("not a url"));
}

#[test]
fn preview_sessions_cannot_point_to_localhost() {
    let remote = vec![
        service("frontend", "https://frontend.example.com"),
        service("backend", "https://backend.example.com"),
    ];
    assert!(preview_services_allowed(&remote));
    let with_local = vec![
        service("frontend", "https://frontend.example.com"),
        service("backend", "http://localhost:8001"),
    ];
    assert!(!preview_services_allowed(&with_local));
    assert!(preview_services_allowed(&vec![]));
}

#[test]
fn tunneled_sessions_reach_local_services_through_the_tunnel() {
    let services = vec![
        service("frontend", "https://frontend.example.com"),
        service("backend", "http://localhost:8001"),
    ];
    let routed = route_local_services_to_tunnel(&services, "https://tunnel.example.com/");
    assert_eq!(routed.len(), 2);
    assert_eq!(routed[0].name, "frontend");
    assert_eq!(routed[0].location, "https://frontend.example.com");
    assert_eq!(routed[1].name, "backend");
    assert_eq!(routed[1].location, "https://tunnel.example.com/");
}

#[test]
fn a_taken_name_is_a_conflict_and_other_failures_are_server_errors() {
    assert_eq!(upsert_error_status(&SessionRegistryError::SessionNameConflict), 409);
    assert_eq!(upsert_error_status(&SessionRegistryError::EmptySessionName), 500);
    assert_eq!(upsert_error_status(&SessionRegistryError::Write("kv".to_string())), 500);
}

#[test]
fn replace_removes_every_occurrence() {
    assert_eq!(replace_str("Bearer token", "Bearer ", ""), "token");
    assert_eq!(replace_str("Bearer Bearer x", "Bearer ", ""), "x");
    assert_eq!(replace_str("aaa", "aa", "b"), "ba");
    assert_eq!(replace_str("abc", "x", "y"), "abc");
    assert_eq!(replace_str("", "x", "y"), "");
}

#[test]
fn api_requests_need_a_supported_version_and_the_worker_token() {
    let supported = VersionHeader::Parsed { older_than_supported: false, beta: false };
    let token = AuthorizationHeader::Text("Bearer secret".to_string());

    assert_eq!(
        authenticate("/linkup/sessions/tunneled", supported, &token, "secret"),
        Ok(())
    );
    assert_eq!(
        authenticate("/linkup/check", VersionHeader::Missing, &token, "secret"),
        Err(AuthRejection::MissingVersion)
    );
    assert_eq!(
        authenticate("/linkup/check", VersionHeader::Invalid, &token, "secret"),
        Err(AuthRejection::InvalidVersion)
    );
    let outdated = VersionHeader::Parsed { older_than_supported: true, beta: false };
    assert_eq!(
        authenticate("/linkup/check", outdated, &token, "secret"),
        Err(AuthRejection::OutdatedClient)
    );
    let outdated_beta = VersionHeader::Parsed { older_than_supported: true, beta: true };
    assert_eq!(authenticate("/linkup/check", outdated_beta, &token, "secret"), Ok(()));
    assert_eq!(
        authenticate("/linkup/check", supported, &AuthorizationHeader::Missing, "secret"),
        Err(AuthRejection::MissingAuthorization)
    );
    assert_eq!(
        authenticate("/linkup/check", supported, &AuthorizationHeader::Unreadable, "secret"),
        Err(AuthRejection::UnreadableAuthorization)
    );
    assert_eq!(
        authenticate("/linkup/check", supported, &token, "other"),
        Err(AuthRejection::WrongToken)
    );
    // Requests outside the API are not checked.
    assert_eq!(
        authenticate("/some/page", VersionHeader::Missing, &AuthorizationHeader::Missing, "secret"),
        Ok(())
    );
    assert_eq!(
        AuthRejection::MissingAuthorization.message(),
        Some("Missing authorization header.")
    );
    assert_eq!(AuthRejection::WrongToken.message(), None);
}

#[test]
fn tunnel_url_is_stored_as_the_url_crate_writes_it() {
    let services = vec![
        service("frontend", "https://frontend.example.com"),
        service("backend", "http://localhost:8001"),
    ];
    let routed = route_local_services_to_tunnel(&services, "https://tunnel.example.com");
    assert_eq!(routed[0].location, "https://frontend.example.com");
    assert_eq!(routed[1].location, "https://tunnel.example.com/");

    assert!(tunneled_services(&services, "not a url").is_none());
    let remote_only = vec![service("frontend", "https://frontend.example.com")];
    let kept = tunneled_services(&remote_only, "not a url").unwrap();
    assert_eq!(kept[0].location, "https://frontend.example.com");
    let routed = tunneled_services(&services, "https://tunnel.example.com:443").unwrap();
    assert_eq!(routed[1].location, "https://tunnel.example.com/");
}

#[test]
fn deleting_a_session_is_answered_by_its_outcome() {
    assert_eq!(delete_answer(&Ok(())), (204, None));
    assert_eq!(
        delete_answer(&Err(SessionRegistryError::SessionNotFound)),
        (404, Some("Session not found"))
    );
    assert_eq!(
        delete_answer(&Err(SessionRegistryError::SessionTokenMismatch)),
        (409, Some("Session token does not match"))
    );
    assert_eq!(
        delete_answer(&Err(SessionRegistryError::Write("kv".to_string()))),
        (500, None)
    );
}
