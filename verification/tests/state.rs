use linkup::state::{
    Domain, LocalService, Route, ServiceConfig, ServiceTarget, SessionDefinition, SessionState,
    Sessions, State, STATE_VERSION,
};

fn service(name: &str, remote: &str, local: &str, directory: Option<&str>) -> LocalService {
    LocalService {
        current: ServiceTarget::Remote,
        config: ServiceConfig {
            name: name.to_string(),
            remote: remote.to_string(),
            local: local.to_string(),
            directory: directory.map(|d| d.to_string()),
            rewrites: None,
            health: None,
        },
    }
}

fn session(token: &str, domains: &[&str]) -> SessionState {
    SessionState {
        token: token.to_string(),
        config_path: "/worktree/linkup.yml".to_string(),
        services: vec![],
        domains: domains
            .iter()
            .map(|d| Domain {
                domain: d.to_string(),
                default_service: "frontend".to_string(),
                routes: None,
            })
            .collect(),
        cache_routes: None,
    }
}

#[test]
fn persists_sessions_and_keeps_the_first_as_default() {
    let mut state = State::new("https://worker.example.com".to_string(), "token".to_string());
    let tunnel_url = "https://tunnel.example.com".to_string();

    state.upsert_session("main".to_string(), session("session-token", &[]), tunnel_url.clone());
    state.upsert_session("agent".to_string(), session("session-token", &[]), tunnel_url.clone());

    assert_eq!(state.main_session.as_deref(), Some("main"));
    assert_eq!(state.sessions.len(), 2);
    assert_eq!(state.tunnel_url, Some(tunnel_url));

    state.delete_session("main");
    assert_eq!(state.main_session.as_deref(), Some("agent"));
    assert!(!state.sessions.contains_key("main"));
}

#[test]
fn new_state_is_empty_at_current_version() {
    let state = State::new("https://worker.example.com".to_string(), "t".to_string());
    assert_eq!(state.version, STATE_VERSION);
    assert!(state.has_supported_version());
    assert!(state.main_session.is_none());
    assert!(state.tunnel_url.is_none());
    assert_eq!(state.sessions.len(), 0);
    assert!(state.main_session().is_none());
}

#[test]
fn upsert_then_lookup_gives_the_session_back() {
    let mut state = State::new("w".to_string(), "t".to_string());
    state.upsert_session("b".to_string(), session("tb", &[]), "u1".to_string());
    state.upsert_session("a".to_string(), session("ta", &[]), "u2".to_string());
    state.upsert_session("b".to_string(), session("tb2", &[]), "u3".to_string());
    assert_eq!(state.sessions.get("b").unwrap().token, "tb2");
    assert_eq!(state.sessions.get("a").unwrap().token, "ta");
    assert_eq!(state.sessions.len(), 2);
    assert_eq!(state.tunnel_url.as_deref(), Some("u3"));
    // the first name stored stays the main session
    let (name, main) = state.main_session().unwrap();
    assert_eq!(name, "b");
    assert_eq!(main.token, "tb2");
}

#[test]
fn deleting_main_session_picks_least_remaining_name() {
    let mut state = State::new("w".to_string(), "t".to_string());
    for name in ["zeta", "beta", "alpha", "gamma"] {
        state.upsert_session(name.to_string(), session(name, &[]), "u".to_string());
    }
    assert_eq!(state.main_session.as_deref(), Some("zeta"));
    state.delete_session("zeta");
    assert_eq!(state.main_session.as_deref(), Some("alpha"));
    // deleting another session leaves the main session
    state.delete_session("gamma");
    assert_eq!(state.main_session.as_deref(), Some("alpha"));
    state.delete_session("beta");
    state.delete_session("alpha");
    assert!(state.main_session.is_none());
    assert_eq!(state.sessions.len(), 0);
    // deleting a missing name changes nothing
    state.delete_session("missing");
    assert_eq!(state.sessions.len(), 0);
}

#[test]
fn delete_undoes_upsert_of_new_name() {
    let mut state = State::new("w".to_string(), "t".to_string());
    state.upsert_session("main".to_string(), session("m", &[]), "u".to_string());
    state.upsert_session("extra".to_string(), session("e", &[]), "u".to_string());
    state.delete_session("extra");
    assert_eq!(state.sessions.len(), 1);
    assert!(state.sessions.contains_key("main"));
    assert_eq!(state.main_session.as_deref(), Some("main"));
}

#[test]
fn sessions_are_kept_in_name_order() {
    let mut sessions = Sessions::new();
    for name in ["m", "c", "x", "a"] {
        sessions.insert(name.to_string(), session(name, &[]));
    }
    let names: Vec<&str> = sessions.entries().iter().map(|(n, _)| n.as_str()).collect();
    assert_eq!(names, vec!["a", "c", "m", "x"]);
    assert_eq!(sessions.first_key().as_deref(), Some("a"));
    let removed = sessions.remove("c").unwrap();
    assert_eq!(removed.token, "c");
    assert!(sessions.remove("c").is_none());
    assert_eq!(sessions.len(), 3);
}

#[test]
fn domain_strings_lists_each_domain_once() {
    let mut state = State::new("w".to_string(), "t".to_string());
    state.upsert_session("a".to_string(), session("a", &["example.com", "test.dev"]), "u".to_string());
    state.upsert_session("b".to_string(), session("b", &["example.com", "other.io"]), "u".to_string());
    let mut domains = state.domain_strings();
    domains.sort();
    assert_eq!(domains, vec!["example.com", "other.io", "test.dev"]);
}

#[test]
fn current_url_follows_the_target() {
    let mut s = service("api", "https://api.example.com", "http://localhost:3000", None);
    assert_eq!(s.current_url(), "https://api.example.com");
    s.current = ServiceTarget::Local;
    assert_eq!(s.current_url(), "http://localhost:3000");
    assert_eq!(ServiceTarget::Local.as_str(), "local");
    assert_eq!(ServiceTarget::Remote.as_str(), "remote");
}

#[test]
fn definition_uses_current_urls() {
    let mut state_session = session("t", &["example.com"]);
    state_session.domains[0].routes = Some(vec![Route {
        path: "^/api".to_string(),
        service: "api".to_string(),
    }]);
    state_session.services = vec![
        service("frontend", "https://fe.example.com", "http://localhost:8000", None),
        service("api", "https://api.example.com", "http://localhost:3000", None),
    ];
    state_session.services[1].current = ServiceTarget::Local;
    let definition = SessionDefinition::from_session_state(&state_session);
    assert_eq!(definition.services.len(), 2);
    assert_eq!(definition.services[0].name, "frontend");
    assert_eq!(definition.services[0].location, "https://fe.example.com");
    assert_eq!(definition.services[1].location, "http://localhost:3000");
    assert_eq!(definition.domains[0].domain, "example.com");
    assert_eq!(definition.domains[0].routes.as_ref().unwrap()[0].path, "^/api");
}
