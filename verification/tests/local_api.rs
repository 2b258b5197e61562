use linkup::local_api::{local_delete_answer, session_dns_records, tunneled_worker_error_status};
use linkup::state::Domain;

fn domain(name: &str) -> Domain {
    Domain {
        domain: name.to_string(),
        default_service: "frontend".to_string(),
        routes: None,
    }
}

#[test]
fn each_domain_of_a_session_gets_a_record_under_the_session_name() {
    let records = session_dns_records("agent", &vec![domain("example.com"), domain("api.example.org")]);
    assert_eq!(records, vec!["agent.example.com".to_string(), "agent.api.example.org".to_string()]);
    assert!(session_dns_records("agent", &vec![]).is_empty());
}

#[test]
fn only_a_conflict_from_the_worker_is_passed_on() {
    assert_eq!(tunneled_worker_error_status(Some(409)), 409);
    assert_eq!(tunneled_worker_error_status(Some(400)), 500);
    assert_eq!(tunneled_worker_error_status(None), 500);
}

#[test]
fn local_delete_is_answered_by_its_outcome() {
    assert_eq!(local_delete_answer("agent", &Ok(true)), (204, None));
    assert_eq!(
        local_delete_answer("agent", &Ok(false)),
        (404, Some("Session 'agent' not found".to_string()))
    );
    assert_eq!(
        local_delete_answer("agent", &Err("disk full".to_string())),
        (500, Some("Failed to find session: disk full".to_string()))
    );
}
