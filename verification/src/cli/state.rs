use rand::distr::{Alphanumeric, SampleString};
use vstd::prelude::*;

use crate::state::{
    copy_domains, copy_opt_strings, domains_view, listed, manages_domain, opt_strings_view,
    services_view, Domain, DomainView, LocalService, LocalServiceView, ServiceConfig,
    ServiceConfigView, ServiceTarget, SessionState, State, StateView,
    STATE_VERSION,
};
use crate::text::{chars_of, ends_with, has_prefix, has_suffix, starts_with};

verus! {

// ---------------------------------------------------------------------------
// Configuration
// ---------------------------------------------------------------------------

/// The `linkup` part of a configuration file.
#[derive(Clone, Debug)]
pub struct LinkupConfig {
    pub worker_url: String,
    pub worker_token: String,
    /// Patterns of the paths whose responses may be cached.
    pub cache_routes: Option<Vec<String>>,
}

/// A configuration file: the worker, the services and the domains.
#[derive(Clone, Debug)]
pub struct Config {
    pub linkup: LinkupConfig,
    pub services: Vec<ServiceConfig>,
    pub domains: Vec<Domain>,
}

/// Whether `c` is an ASCII letter or digit.
pub open spec fn is_ascii_alphanumeric(c: char) -> bool {
    ('A' <= c && c <= 'Z') || ('a' <= c && c <= 'z') || ('0' <= c && c <= '9')
}

/// Calls `Alphanumeric.sample_string(&mut rand::rng(), 16)`: sixteen
/// characters drawn at random from `A-Z`, `a-z` and `0-9`.
#[verifier::external_body]
fn random_token() -> (res: String)
    ensures
        res@.len() == 16,
        forall|i: int| 0 <= i < 16 ==> is_ascii_alphanumeric(#[trigger] res@[i]),
{
    Alphanumeric.sample_string(&mut rand::rng(), 16)
}

/// The views of service configurations.
pub open spec fn service_config_views(s: Seq<ServiceConfig>) -> Seq<ServiceConfigView> {
    s.map_values(|c: ServiceConfig| c@)
}

/// The services of a configuration, all routed remotely.
pub open spec fn remote_services(configs: Seq<ServiceConfigView>) -> Seq<LocalServiceView> {
    configs.map_values(|c: ServiceConfigView| LocalServiceView { current: ServiceTarget::Remote, config: c })
}

/// A new session made from a configuration: a fresh random token, the path
/// of the configuration file, every service routed remotely, the domains and
/// cache routes of the configuration.
pub fn session_from_config(config: &Config, config_path: &str) -> (res: SessionState)
    ensures
        res@.token.len() == 16,
        forall|i: int| 0 <= i < 16 ==> is_ascii_alphanumeric(#[trigger] res@.token[i]),
        res@.config_path == config_path@,
        res@.services == remote_services(service_config_views(config.services@)),
        res@.domains == domains_view(config.domains@),
        res@.cache_routes == opt_strings_view(config.linkup.cache_routes),
{
    let token = random_token();
    let ghost cv = service_config_views(config.services@);
    let mut services: Vec<LocalService> = Vec::new();
    let mut i: usize = 0;
    while i < config.services.len()
        invariant
            i <= config.services.len(),
            services.len() == i,
            cv == service_config_views(config.services@),
            services_view(services@) == remote_services(cv).take(i as int),
        decreases config.services.len() - i,
    {
        services.push(LocalService { current: ServiceTarget::Remote, config: config.services[i].copy() });
        assert(services_view(services@) =~= remote_services(cv).take(i + 1));
        i = i + 1;
    }
    assert(remote_services(cv).take(config.services.len() as int) =~= remote_services(cv));
    let path = crate::text::string_of(&chars_of(config_path));
    SessionState {
        token,
        config_path: path,
        services,
        domains: copy_domains(&config.domains),
        cache_routes: copy_opt_strings(&config.linkup.cache_routes),
    }
}

/// A new state for the worker of a configuration, with the session made
/// from that configuration (not yet stored in the state).
pub fn from_config(config: &Config, config_path: &str) -> (res: (State, SessionState))
    ensures
        res.0.wf(),
        res.0@ == (StateView {
            version: STATE_VERSION,
            worker_url: config.linkup.worker_url@,
            worker_token: config.linkup.worker_token@,
            tunnel_url: None,
            main_session: None,
            sessions: Map::empty(),
        }),
        res.1@.token.len() == 16,
        res.1@.config_path == config_path@,
        res.1@.services == remote_services(service_config_views(config.services@)),
        res.1@.domains == domains_view(config.domains@),
        res.1@.cache_routes == opt_strings_view(config.linkup.cache_routes),
{
    let state = State::new(config.linkup.worker_url.clone(), config.linkup.worker_token.clone());
    let session = session_from_config(config, config_path);
    (state, session)
}

// ---------------------------------------------------------------------------
// Domains
// ---------------------------------------------------------------------------

/// Whether no other domain of the list is a suffix of `d` (`str::ends_with`,
/// which for UTF-8 text is the same on bytes and on characters).
pub open spec fn is_top_level(domains: Seq<Seq<char>>, d: Seq<char>) -> bool {
    !exists|j: int| 0 <= j < domains.len() && #[trigger] domains[j] != d && has_suffix(d, domains[j])
}

/// The domains of `part` that are top level among `all`, in order.
pub open spec fn top_level_of(all: Seq<Seq<char>>, part: Seq<Seq<char>>) -> Seq<Seq<char>>
    decreases part.len(),
{
    if part.len() == 0 {
        Seq::empty()
    } else {
        top_level_of(all, part.drop_last()) + if is_top_level(all, part.last()) {
            seq![part.last()]
        } else {
            Seq::empty()
        }
    }
}

/// The domains of a list that no other domain of the list is a suffix of, in
/// order.
pub fn top_level_domains(domains: &[String]) -> (res: Vec<String>)
    ensures
        crate::fingerprint::string_views(res@) == top_level_of(
            crate::fingerprint::string_views(domains@),
            crate::fingerprint::string_views(domains@),
        ),
{
    let ghost all = crate::fingerprint::string_views(domains@);
    let mut res: Vec<String> = Vec::new();
    let mut i: usize = 0;
    while i < domains.len()
        invariant
            i <= domains.len(),
            all == crate::fingerprint::string_views(domains@),
            crate::fingerprint::string_views(res@) == top_level_of(all, all.take(i as int)),
        decreases domains.len() - i,
    {
        let d = chars_of(domains[i].as_str());
        let mut covered = false;
        let mut j: usize = 0;
        while j < domains.len()
            invariant
                j <= domains.len(),
                d@ == all[i as int],
                all == crate::fingerprint::string_views(domains@),
                !covered ==> forall|k: int| 0 <= k < j ==> !(#[trigger] all[k] != d@ && has_suffix(d@, all[k])),
                covered ==> exists|k: int| 0 <= k < all.len() && #[trigger] all[k] != d@ && has_suffix(d@, all[k]),
            decreases domains.len() - j,
        {
            let other = chars_of(domains[j].as_str());
            assert(other@ == all[j as int]);
            if !crate::text::chars_eq(&other, &d) && ends_with(&d, &other) {
                covered = true;
            }
            j = j + 1;
        }
        let ghost before = crate::fingerprint::string_views(res@);
        if !covered {
            res.push(domains[i].clone());
        }
        proof {
            let t = all.take(i + 1);
            assert(t.drop_last() =~= all.take(i as int));
            assert(t.last() == all[i as int]);
            assert(crate::fingerprint::string_views(res@) =~= top_level_of(all, t));
        }
        i = i + 1;
    }
    assert(all.take(domains.len() as int) =~= all);
    res
}

/// Whether a domain is one of the configuration's or one the state manages.
pub open spec fn is_managed_domain(
    state: Option<StateView>,
    config_domains: Option<Seq<DomainView>>,
    d: Seq<char>,
) -> bool {
    ||| (config_domains matches Some(c) && exists|i: int| 0 <= i < c.len() && #[trigger] c[i].domain == d)
    ||| (state matches Some(s) && manages_domain(s.sessions, d))
}

/// The domains Linkup manages: those of the configuration (when it could be
/// loaded) and those of the sessions in the state, each once.
pub fn managed_domains(state: Option<&State>, config_domains: Option<&Vec<Domain>>) -> (res: Vec<String>)
    requires
        state matches Some(s) ==> s.wf(),
    ensures
        ({
            let sv = match state {
                Some(s) => Some(s@),
                None => None,
            };
            let cv = match config_domains {
                Some(c) => Some(domains_view(c@)),
                None => None,
            };
            &&& forall|j: int| 0 <= j < res@.len() ==> is_managed_domain(sv, cv, #[trigger] res@[j]@)
            &&& forall|d: Seq<char>| is_managed_domain(sv, cv, d) ==> listed(res@, d)
            &&& forall|a: int, b: int| 0 <= a < b < res@.len() ==> #[trigger] res@[a]@ != #[trigger] res@[b]@
        }),
{
    let ghost sv = match state {
        Some(s) => Some(s@),
        None => None,
    };
    let ghost cv = match config_domains {
        Some(c) => Some(domains_view(c@)),
        None => None,
    };
    let mut candidates: Vec<String> = Vec::new();
    match config_domains {
        Some(c) => {
            let mut i: usize = 0;
            while i < c.len()
                invariant
                    i <= c.len(),
                    cv == Some(domains_view(c@)),
                    candidates@.len() == i,
                    forall|x: int| 0 <= x < i ==> #[trigger] candidates@[x]@ == c@[x].domain@,
                decreases c.len() - i,
            {
                candidates.push(c[i].domain.clone());
                i = i + 1;
            }
        },
        None => {},
    }
    let ghost from_config = candidates@;
    let more: Vec<String> = match state {
        Some(s) => s.domain_strings(),
        None => Vec::new(),
    };
    assert(state matches Some(st) ==> (forall|j: int|
        0 <= j < more@.len() ==> manages_domain(st@.sessions, #[trigger] more@[j]@)) && (forall|
        d: Seq<char>,
    | manages_domain(st@.sessions, d) ==> listed(more@, d)));
    let mut k: usize = 0;
    while k < more.len()
        invariant
            k <= more.len(),
            candidates@.len() == from_config.len() + k,
            forall|x: int| 0 <= x < from_config.len() ==> #[trigger] candidates@[x] == from_config[x],
            forall|x: int| 0 <= x < k ==> #[trigger] candidates@[from_config.len() + x] == more@[x],
        decreases more.len() - k,
    {
        candidates.push(more[k].clone());
        k = k + 1;
    }
    // every candidate is managed
    proof {
        assert forall|j: int| 0 <= j < candidates@.len() implies is_managed_domain(sv, cv, #[trigger] candidates@[j]@) by {
            if j < from_config.len() {
                let c = config_domains.unwrap();
                assert(candidates@[j] == from_config[j]);
                assert(domains_view(c@)[j].domain == candidates@[j]@);
            } else {
                let x = j - from_config.len();
                assert(candidates@[from_config.len() + x] == more@[x]);
                assert(state is Some);
            }
        }
    }
    // keep each candidate once
    let mut res: Vec<String> = Vec::new();
    let mut i: usize = 0;
    while i < candidates.len()
        invariant
            i <= candidates.len(),
            forall|j: int| 0 <= j < res@.len() ==> exists|x: int| 0 <= x < candidates@.len() && #[trigger] res@[j]@ == candidates@[x]@,
            forall|x: int| 0 <= x < i ==> listed(res@, #[trigger] candidates@[x]@),
            forall|a: int, b: int| 0 <= a < b < res@.len() ==> #[trigger] res@[a]@ != #[trigger] res@[b]@,
        decreases candidates.len() - i,
    {
        let mut seen = false;
        let mut t: usize = 0;
        while t < res.len()
            invariant
                i < candidates.len(),
                t <= res.len(),
                !seen ==> forall|q: int| 0 <= q < t ==> res@[q]@ != candidates@[i as int]@,
                seen ==> listed(res@, candidates@[i as int]@),
            decreases res.len() - t,
        {
            if res[t] == candidates[i] {
                seen = true;
            }
            t = t + 1;
        }
        if !seen {
            let ghost before = res@;
            let n = candidates[i].clone();
            res.push(n);
            proof {
                assert forall|j: int| 0 <= j < res@.len() implies exists|x: int| 0 <= x < candidates@.len() && #[trigger] res@[j]@ == candidates@[x]@ by {
                    if j < before.len() {
                        assert(res@[j] == before[j]);
                    } else {
                        assert(res@[j]@ == candidates@[i as int]@);
                    }
                }
                assert forall|x: int| 0 <= x < i + 1 implies listed(res@, #[trigger] candidates@[x]@) by {
                    if x < i {
                        crate::state::lemma_listed_push(before, candidates@[x]@, n);
                    } else {
                        assert(res@[before.len() as int]@ == candidates@[x]@);
                    }
                }
                assert forall|a: int, b: int| 0 <= a < b < res@.len() implies #[trigger] res@[a]@ != #[trigger] res@[b]@ by {
                    assert(res@[a] == before[a]);
                    if b < before.len() {
                        assert(res@[b] == before[b]);
                    }
                }
            }
        }
        i = i + 1;
    }
    proof {
        assert forall|j: int| 0 <= j < res@.len() implies is_managed_domain(sv, cv, #[trigger] res@[j]@) by {
            let x = choose|x: int| 0 <= x < candidates@.len() && #[trigger] res@[j]@ == candidates@[x]@;
            assert(is_managed_domain(sv, cv, candidates@[x]@));
        }
        assert forall|d: Seq<char>| is_managed_domain(sv, cv, d) implies listed(res@, d) by {
            if config_domains is Some && (exists|i: int| 0 <= i < cv.unwrap().len() && #[trigger] cv.unwrap()[i].domain == d) {
                let c = config_domains.unwrap();
                let x = choose|x: int| 0 <= x < cv.unwrap().len() && #[trigger] cv.unwrap()[x].domain == d;
                assert(candidates@[x] == from_config[x]);
                assert(from_config[x]@ == c@[x].domain@);
                assert(listed(res@, candidates@[x]@));
            } else {
                let st = state.unwrap();
                assert(manages_domain(st@.sessions, d));
                assert(listed(more@, d));
                let x = choose|x: int| 0 <= x < more@.len() && #[trigger] more@[x]@ == d;
                assert(candidates@[from_config.len() + x] == more@[x]);
                assert(listed(res@, candidates@[from_config.len() + x]@));
            }
        }
    }
    res
}


/// The text `state-`: the start of the names of the state files that earlier
/// versions kept for each isolated session.
pub open spec fn legacy_state_prefix() -> Seq<char> {
    seq!['s', 't', 'a', 't', 'e', '-']
}

/// Whether a file of the Linkup directory is a leftover state file of an
/// earlier version (`state-*`), which is removed on start.
pub fn is_legacy_state_file(file_name: &str) -> (res: bool)
    ensures
        res == has_prefix(file_name@, legacy_state_prefix()),
{
    let prefix: Vec<char> = vec!['s', 't', 'a', 't', 'e', '-'];
    assert(prefix@ =~= legacy_state_prefix());
    starts_with(&chars_of(file_name), &prefix)
}

} // verus!
