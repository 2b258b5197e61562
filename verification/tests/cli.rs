use linkup::cli::commands::route::{select_session, service_target, set_service_targets, TargetArg};
use linkup::cli::commands::sessions::create::{ensure_domains_are_managed, ensure_same_worker, set_initial_routes};
use linkup::cli::commands::sessions::delete::session_to_delete;
use linkup::cli::commands::start::{env_file_name, is_dev_env_file, service_env_locations, sessions_to_restore};
use linkup::cli::commands::stop::is_env_file;
use linkup::cli::local_server::{next_start_step, url, StartStep};
use linkup::cli::state::{from_config, is_legacy_state_file, managed_domains, session_from_config, top_level_domains, Config, LinkupConfig};
use linkup::cli::CliError;
use linkup::state::{Domain, LocalService, ServiceConfig, ServiceTarget, SessionState, State};

fn service_config(name: &str, remote: &str, local: &str, directory: Option<&str>) -> ServiceConfig {
    ServiceConfig {
        name: name.to_string(),
        remote: remote.to_string(),
        local: local.to_string(),
        directory: directory.map(|d| d.to_string()),
        rewrites: None,
        health: None,
    }
}

fn domain(name: &str) -> Domain {
    Domain {
        domain: name.to_string(),
        default_service: "frontend".to_string(),
        routes: None,
    }
}

fn session() -> SessionState {
    SessionState {
        token: "token".to_string(),
        config_path: "/tmp/linkup.yml".to_string(),
        services: ["frontend", "api"]
            .into_iter()
            .map(|name| LocalService {
                current: ServiceTarget::Remote,
                config: service_config(
                    name,
                    &format!("https://{name}.example.com"),
                    "http://localhost:3000",
                    None,
                ),
            })
            .collect(),
        domains: vec![],
        cache_routes: None,
    }
}

#[test]
fn selected_services_start_local() {
    let mut session = session();

    set_initial_routes(&mut session, &["api".to_string()], false).unwrap();

    assert_eq!(session.services[0].current, ServiceTarget::Remote);
    assert_eq!(session.services[1].current, ServiceTarget::Local);
}

#[test]
fn all_services_can_start_local() {
    let mut session = session();

    set_initial_routes(&mut session, &[], true).unwrap();

    assert!(
        session
            .services
            .iter()
            .all(|service| service.current == ServiceTarget::Local)
    );
}

#[test]
fn unknown_service_is_an_error_after_routing_the_earlier_ones() {
    let mut session = session();
    let result = set_initial_routes(
        &mut session,
        &["frontend".to_string(), "nope".to_string(), "api".to_string()],
        false,
    );
    match result {
        Err(CliError::ServiceNotFound(name)) => assert_eq!(name, "nope"),
        other => panic!("unexpected {other:?}"),
    }
    assert_eq!(session.services[0].current, ServiceTarget::Local);
    assert_eq!(session.services[1].current, ServiceTarget::Remote);
}

#[test]
fn route_targets_are_sorted_by_name() {
    let mut session = session();
    let targets = set_service_targets(&mut session, &[], true, service_target(TargetArg::Local)).unwrap();
    assert_eq!(
        targets,
        vec![
            ("api".to_string(), "http://localhost:3000".to_string()),
            ("frontend".to_string(), "http://localhost:3000".to_string()),
        ]
    );
    let targets = set_service_targets(
        &mut session,
        &["frontend".to_string()],
        false,
        service_target(TargetArg::Remote),
    )
    .unwrap();
    assert_eq!(
        targets,
        vec![("frontend".to_string(), "https://frontend.example.com".to_string())]
    );
    assert_eq!(session.services[0].current, ServiceTarget::Remote);
    assert_eq!(session.services[1].current, ServiceTarget::Local);
}

#[test]
fn route_sort_is_stable_for_equal_names() {
    let mut session = session();
    session.services.push(LocalService {
        current: ServiceTarget::Remote,
        config: service_config("api", "https://second-api.example.com", "http://localhost:4000", None),
    });
    let targets = set_service_targets(&mut session, &[], true, ServiceTarget::Remote).unwrap();
    assert_eq!(
        targets,
        vec![
            ("api".to_string(), "https://api.example.com".to_string()),
            ("api".to_string(), "https://second-api.example.com".to_string()),
            ("frontend".to_string(), "https://frontend.example.com".to_string()),
        ]
    );
}

fn config() -> Config {
    Config {
        linkup: LinkupConfig {
            worker_url: "https://remote-linkup.example.com".to_string(),
            worker_token: "test_token_123".to_string(),
            cache_routes: None,
        },
        services: vec![
            service_config("frontend", "http://remote-service1.example.com", "http://localhost:8000", None),
            service_config(
                "backend",
                "http://remote-service2.example.com",
                "http://localhost:8001",
                Some("../backend"),
            ),
        ],
        domains: vec![domain("example.com")],
    }
}

#[test]
fn config_creates_remote_session() {
    let config = config();
    let session = session_from_config(&config, "./path/to/config.yaml");

    assert_eq!(session.config_path, "./path/to/config.yaml");
    assert_eq!(session.services.len(), 2);
    assert_eq!(session.services[0].current, ServiceTarget::Remote);
    assert_eq!(
        session.services[1].config.directory.as_deref(),
        Some("../backend")
    );
    assert_eq!(session.domains[0].domain, "example.com");
    assert!(!session.token.is_empty());
}

#[test]
fn session_tokens_are_sixteen_alphanumerics() {
    let (state, session) = from_config(&config(), "/a/linkup.yml");
    assert_eq!(state.worker_url, "https://remote-linkup.example.com");
    assert_eq!(state.worker_token, "test_token_123");
    assert_eq!(state.sessions.len(), 0);
    assert_eq!(session.token.len(), 16);
    assert!(session.token.chars().all(|c| c.is_ascii_alphanumeric()));
}

#[test]
fn top_level_domains_drop_subdomains_of_listed_domains() {
    let domains: Vec<String> = ["api.example.com", "example.com", "test.dev", "a.b.test.dev", "other.io"]
        .iter()
        .map(|d| d.to_string())
        .collect();
    assert_eq!(
        top_level_domains(&domains),
        vec!["example.com".to_string(), "test.dev".to_string(), "other.io".to_string()]
    );
    let repeated = vec!["x.com".to_string(), "x.com".to_string()];
    assert_eq!(top_level_domains(&repeated), repeated);
}

#[test]
fn managed_domains_joins_config_and_state() {
    let mut state = State::new("w".to_string(), "t".to_string());
    let mut s = session();
    s.domains = vec![domain("example.com"), domain("state.dev")];
    state.upsert_session("main".to_string(), s, "u".to_string());
    let config_domains = vec![domain("example.com"), domain("config.io")];
    let mut all = managed_domains(Some(&state), Some(&config_domains));
    all.sort();
    assert_eq!(all, vec!["config.io", "example.com", "state.dev"]);
    assert!(managed_domains(None, None).is_empty());
}

#[test]
fn domains_must_be_managed() {
    let mut state = State::new("w".to_string(), "t".to_string());
    let mut s = session();
    s.domains = vec![domain("example.com")];
    state.upsert_session("main".to_string(), s, "u".to_string());
    assert!(ensure_domains_are_managed(&state, &[domain("example.com")]).is_ok());
    match ensure_domains_are_managed(
        &state,
        &[domain("new.dev"), domain("example.com"), domain("new.dev")],
    ) {
        Err(CliError::UnmanagedDomains(d)) => assert_eq!(d, vec!["new.dev".to_string()]),
        other => panic!("unexpected {other:?}"),
    }
    assert!(ensure_same_worker(&"w".to_string(), &state).is_ok());
    assert!(matches!(
        ensure_same_worker(&"other".to_string(), &state),
        Err(CliError::WorkerMismatch { .. })
    ));
}

#[test]
fn session_selection_and_deletion_checks() {
    let mut state = State::new("w".to_string(), "t".to_string());
    assert!(matches!(select_session(&state, None), Err(CliError::NoDefaultSession)));
    state.upsert_session("main".to_string(), session(), "u".to_string());
    state.upsert_session("other".to_string(), session(), "u".to_string());
    let (name, _) = select_session(&state, None).unwrap();
    assert_eq!(name, "main");
    let (name, _) = select_session(&state, Some("other".to_string())).unwrap();
    assert_eq!(name, "other");
    assert!(matches!(
        select_session(&state, Some("missing".to_string())),
        Err(CliError::SessionNotFound(_))
    ));
    assert!(matches!(
        session_to_delete(&state, &"main".to_string()),
        Err(CliError::MainSessionCannotBeDeleted)
    ));
    assert!(session_to_delete(&state, &"other".to_string()).is_ok());
    assert!(matches!(
        session_to_delete(&state, &"gone".to_string()),
        Err(CliError::SessionNotFound(_))
    ));
}

#[test]
fn sessions_to_restore_lists_stored_sessions() {
    let mut state = State::new("w".to_string(), "t".to_string());
    assert!(sessions_to_restore(None).is_none());
    assert!(sessions_to_restore(Some(&state)).is_none());
    state.upsert_session("b".to_string(), session(), "u".to_string());
    state.upsert_session("a".to_string(), session(), "u".to_string());
    let restored = sessions_to_restore(Some(&state)).unwrap();
    let names: Vec<Option<String>> = restored.iter().map(|(n, _)| n.clone()).collect();
    assert_eq!(names, vec![Some("a".to_string()), Some("b".to_string())]);
}

#[test]
fn env_files() {
    assert!(is_dev_env_file(".env.development.linkup"));
    assert!(!is_dev_env_file(".env.development"));
    assert!(!is_dev_env_file("env.linkup"));
    assert_eq!(env_file_name(".env.development.linkup"), ".env.development");
    assert!(is_env_file(".env"));
    assert!(is_env_file(".env.local"));
    assert!(!is_env_file("config.env"));
    let mut s = session();
    s.services[1].config.directory = Some("../api".to_string());
    assert_eq!(
        service_env_locations(&s),
        vec![("../api".to_string(), "/tmp/linkup.yml".to_string())]
    );
}

#[test]
fn waiting_for_the_local_server() {
    assert_eq!(next_start_step(true, 5), StartStep::Ready);
    assert_eq!(next_start_step(false, 0), StartStep::Retry { attempts: 1 });
    assert_eq!(next_start_step(false, 9), StartStep::Retry { attempts: 10 });
    assert_eq!(next_start_step(false, 10), StartStep::Unreachable);
    let mut attempts = 0;
    let mut checks = 0;
    loop {
        checks += 1;
        match next_start_step(false, attempts) {
            StartStep::Retry { attempts: a } => attempts = a,
            _ => break,
        }
    }
    assert_eq!(checks, 11);
    // The url crate drops the scheme's default port and adds the root path.
    assert_eq!(url(), Some("http://localhost/".to_string()));
}

#[test]
fn legacy_state_files_are_those_named_state_dash() {
    assert!(is_legacy_state_file("state-main"));
    assert!(is_legacy_state_file("state-"));
    assert!(!is_legacy_state_file("state"));
    assert!(!is_legacy_state_file("fingerprint"));
    assert!(!is_legacy_state_file("my-state-x"));
}
