use vstd::prelude::*;

use crate::cli::commands::route::{first_missing, route_all, route_named, set_service_targets, with_services};
use crate::cli::CliError;
use crate::fingerprint::string_views;
use crate::state::{listed, manages_domain, Domain, DomainView, ServiceTarget, SessionState, State, domains_view};

verus! {

/// Arguments of `linkup sessions create`.
#[derive(Clone, Debug)]
pub struct Args {
    /// A specific session name to request.
    pub name: Option<String>,
    /// Services to route locally from the start.
    pub local: Vec<String>,
    /// Route every service locally from the start.
    pub all_local: bool,
}

/// Routes services of a new session locally: all of them, or the first
/// service of each given name. A name no service has is an error; the
/// services of the names before it are routed by then.
pub fn set_initial_routes(
    session: &mut SessionState,
    local_services: &[String],
    all_local: bool,
) -> (res: Result<(), CliError>)
    ensures
        ({
            let old_services = old(session)@.services;
            let names = string_views(local_services@);
            if all_local {
                &&& final(session)@ == with_services(
                    old(session)@,
                    route_all(old_services, ServiceTarget::Local),
                )
                &&& res is Ok
            } else {
                match first_missing(old_services, names) {
                    None => {
                        &&& final(session)@ == with_services(
                            old(session)@,
                            route_named(old_services, names, ServiceTarget::Local),
                        )
                        &&& res is Ok
                    },
                    Some(p) => {
                        &&& final(session)@ == with_services(
                            old(session)@,
                            route_named(old_services, names.take(p), ServiceTarget::Local),
                        )
                        &&& res matches Err(CliError::ServiceNotFound(n)) && n@ == names[p]
                    },
                }
            }
        }),
{
    match set_service_targets(session, local_services, all_local, ServiceTarget::Local) {
        Ok(_) => Ok(()),
        Err(e) => Err(e),
    }
}

/// The domain names requested that the running instance does not manage,
/// each once.
pub open spec fn is_unmanaged(state: crate::state::StateView, domains: Seq<DomainView>, d: Seq<char>) -> bool {
    (exists|i: int| 0 <= i < domains.len() && #[trigger] domains[i].domain == d) && !manages_domain(
        state.sessions,
        d,
    )
}

/// Checks that the running instance manages every requested domain; the
/// error lists the others, each once.
pub fn ensure_domains_are_managed(state: &State, domains: &[Domain]) -> (res: Result<(), CliError>)
    requires
        state.wf(),
    ensures
        res is Ok <==> forall|i: int|
            0 <= i < domains@.len() ==> manages_domain(state@.sessions, #[trigger] domains@[i].domain@),
        res matches Err(e) ==> e matches CliError::UnmanagedDomains(u) && u@.len() > 0 && (forall|j: int|
            0 <= j < u@.len() ==> is_unmanaged(state@, domains_view(domains@), #[trigger] u@[j]@))
            && (forall|d: Seq<char>| is_unmanaged(state@, domains_view(domains@), d) ==> listed(u@, d))
            && (forall|a: int, b: int| 0 <= a < b < u@.len() ==> #[trigger] u@[a]@ != #[trigger] u@[b]@),
{
    let managed = state.domain_strings();
    let ghost dv = domains_view(domains@);
    let mut unmanaged: Vec<String> = Vec::new();
    let mut i: usize = 0;
    while i < domains.len()
        invariant
            i <= domains.len(),
            dv == domains_view(domains@),
            forall|j: int| 0 <= j < managed@.len() ==> manages_domain(state@.sessions, #[trigger] managed@[j]@),
            forall|d: Seq<char>| manages_domain(state@.sessions, d) ==> listed(managed@, d),
            forall|j: int| 0 <= j < unmanaged@.len() ==> is_unmanaged(state@, dv, #[trigger] unmanaged@[j]@),
            forall|x: int| 0 <= x < i && !manages_domain(state@.sessions, #[trigger] dv[x].domain) ==> listed(
                unmanaged@,
                dv[x].domain,
            ),
            forall|a: int, b: int| 0 <= a < b < unmanaged@.len() ==> #[trigger] unmanaged@[a]@ != #[trigger] unmanaged@[b]@,
        decreases domains.len() - i,
    {
        let d = &domains[i].domain;
        assert(d@ == dv[i as int].domain);
        let mut is_managed = false;
        let mut j: usize = 0;
        while j < managed.len()
            invariant
                j <= managed.len(),
                !is_managed ==> forall|t: int| 0 <= t < j ==> managed@[t]@ != d@,
                is_managed ==> listed(managed@, d@),
            decreases managed.len() - j,
        {
            if managed[j] == *d {
                is_managed = true;
            }
            j = j + 1;
        }
        proof {
            if is_managed {
                let t = choose|t: int| 0 <= t < managed@.len() && #[trigger] managed@[t]@ == d@;
                assert(manages_domain(state@.sessions, managed@[t]@));
            }
        }
        if !is_managed {
            let mut seen = false;
            let mut t: usize = 0;
            while t < unmanaged.len()
                invariant
                    t <= unmanaged.len(),
                    !seen ==> forall|q: int| 0 <= q < t ==> unmanaged@[q]@ != d@,
                    seen ==> listed(unmanaged@, d@),
                decreases unmanaged.len() - t,
            {
                if unmanaged[t] == *d {
                    seen = true;
                }
                t = t + 1;
            }
            if !seen {
                let ghost before = unmanaged@;
                let n = d.clone();
                unmanaged.push(n);
                proof {
                    assert(unmanaged@ == before.push(n));
                    if manages_domain(state@.sessions, d@) {
                        assert(listed(managed@, d@));
                        let t = choose|t: int| 0 <= t < managed@.len() && #[trigger] managed@[t]@ == d@;
                    }
                    assert(dv[i as int].domain == d@);
                    assert(is_unmanaged(state@, dv, d@));
                    assert forall|j2: int| 0 <= j2 < unmanaged@.len() implies is_unmanaged(
                        state@,
                        dv,
                        #[trigger] unmanaged@[j2]@,
                    ) by {
                        if j2 < before.len() {
                            assert(unmanaged@[j2] == before[j2]);
                        }
                    }
                    assert forall|a: int, b: int| 0 <= a < b < unmanaged@.len() implies #[trigger] unmanaged@[a]@
                        != #[trigger] unmanaged@[b]@ by {
                        assert(unmanaged@[a] == before[a]);
                        if b < before.len() {
                            assert(unmanaged@[b] == before[b]);
                        }
                    }
                    assert forall|x: int| 0 <= x < i + 1 && !manages_domain(state@.sessions, #[trigger] dv[x].domain) implies listed(
                        unmanaged@,
                        dv[x].domain,
                    ) by {
                        if x < i {
                            crate::state::lemma_listed_push(before, dv[x].domain, n);
                        } else {
                            assert(unmanaged@[before.len() as int]@ == dv[x].domain);
                        }
                    }
                }
            }
        }
        i = i + 1;
    }
    proof {
        assert forall|d: Seq<char>| is_unmanaged(state@, dv, d) implies listed(unmanaged@, d) by {
            let x = choose|x: int| 0 <= x < dv.len() && #[trigger] dv[x].domain == d;
        }
    }
    if unmanaged.len() == 0 {
        proof {
            assert forall|x: int| 0 <= x < domains@.len() implies manages_domain(
                state@.sessions,
                #[trigger] domains@[x].domain@,
            ) by {
                assert(dv[x].domain == domains@[x].domain@);
                if !manages_domain(state@.sessions, dv[x].domain) {
                    let t = choose|t: int| 0 <= t < unmanaged@.len() && #[trigger] unmanaged@[t]@ == dv[x].domain;
                }
            }
        }
        Ok(())
    } else {
        proof {
            let u0 = unmanaged@[0]@;
            assert(is_unmanaged(state@, dv, u0));
            let x = choose|x: int| 0 <= x < dv.len() && #[trigger] dv[x].domain == u0;
            assert(dv[x].domain == domains@[x].domain@);
            assert(!manages_domain(state@.sessions, domains@[x].domain@));
        }
        Err(CliError::UnmanagedDomains(unmanaged))
    }
}

/// Checks that a configuration names the worker the running instance is
/// connected to.
pub fn ensure_same_worker(config_worker_url: &String, state: &State) -> (res: Result<(), CliError>)
    ensures
        match res {
            Ok(()) => config_worker_url@ == state.worker_url@,
            Err(CliError::WorkerMismatch { config_worker, state_worker }) => config_worker_url@
                != state.worker_url@ && config_worker@ == config_worker_url@ && state_worker@
                == state.worker_url@,
            Err(_) => false,
        },
{
    if *config_worker_url != state.worker_url {
        Err(
            CliError::WorkerMismatch {
                config_worker: config_worker_url.clone(),
                state_worker: state.worker_url.clone(),
            },
        )
    } else {
        Ok(())
    }
}

} // verus!
