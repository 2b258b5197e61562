use vstd::prelude::*;

use crate::cli::CliError;
use crate::state::{
    services_view, url_for, LocalService, LocalServiceView, ServiceTarget, SessionState,
    SessionStateView, State,
};
use crate::fingerprint::string_views;
use crate::text::{chars_of, lex_le, lex_le_exec};

verus! {

/// The target given on the command line.
#[derive(Clone, Copy, Debug, PartialEq, Eq, Structural)]
pub enum TargetArg {
    Local,
    Remote,
}

/// Arguments of `linkup route`.
#[derive(Clone, Debug)]
pub struct Args {
    /// The session to update (the main session when absent).
    pub session: Option<String>,
    pub target: TargetArg,
    pub service_names: Vec<String>,
    /// Route all services.
    pub all: bool,
}

/// The service target a command-line target stands for.
pub open spec fn target_of(t: TargetArg) -> ServiceTarget {
    match t {
        TargetArg::Local => ServiceTarget::Local,
        TargetArg::Remote => ServiceTarget::Remote,
    }
}

/// The service target a command-line target stands for.
pub fn service_target(t: TargetArg) -> (res: ServiceTarget)
    ensures
        res == target_of(t),
{
    match t {
        TargetArg::Local => ServiceTarget::Local,
        TargetArg::Remote => ServiceTarget::Remote,
    }
}

/// The session a command works on: the one named on the command line, or
/// else the main session.
pub fn select_session(state: &State, session_arg: Option<String>) -> (res: Result<
    (String, SessionState),
    CliError,
>)
    requires
        state.wf(),
    ensures
        ({
            let name = match session_arg {
                Some(n) => Some(n@),
                None => state@.main_session,
            };
            match res {
                Ok((n, s)) => name == Some(n@) && state@.sessions.contains_key(n@) && s@
                    == state@.sessions[n@],
                Err(CliError::NoDefaultSession) => name is None,
                Err(CliError::SessionNotFound(n)) => name == Some(n@) && !state@.sessions.contains_key(
                    n@,
                ),
                Err(_) => false,
            }
        }),
{
    let name = match session_arg {
        Some(n) => n,
        None => match &state.main_session {
            Some(n) => n.clone(),
            None => {
                return Err(CliError::NoDefaultSession);
            },
        },
    };
    match state.sessions.get(name.as_str()) {
        Some(session) => {
            let copy = session.copy();
            Ok((name, copy))
        },
        None => Err(CliError::SessionNotFound(name)),
    }
}

// ---------------------------------------------------------------------------
// Service targets
// ---------------------------------------------------------------------------

/// The position of the first service with the given name, if any.
pub open spec fn first_named(services: Seq<LocalServiceView>, name: Seq<char>) -> Option<int>
    decreases services.len(),
{
    if services.len() == 0 {
        None
    } else if services[0].config.name == name {
        Some(0)
    } else {
        match first_named(services.drop_first(), name) {
            Some(i) => Some(i + 1),
            None => None,
        }
    }
}

proof fn lemma_first_named(services: Seq<LocalServiceView>, name: Seq<char>, i: int)
    requires
        0 <= i <= services.len(),
        forall|j: int| 0 <= j < i ==> services[j].config.name != name,
    ensures
        i < services.len() && services[i].config.name == name ==> first_named(services, name) == Some(i),
        i == services.len() ==> first_named(services, name) is None,
    decreases i,
{
    if i > 0 {
        lemma_first_named(services.drop_first(), name, i - 1);
    }
}

/// Whether the service at position `j` is the first service of one of the
/// names.
pub open spec fn is_named(services: Seq<LocalServiceView>, names: Seq<Seq<char>>, j: int) -> bool {
    exists|k: int| 0 <= k < names.len() && first_named(services, #[trigger] names[k]) == Some(j)
}

/// The service with its target set.
pub open spec fn retargeted(s: LocalServiceView, target: ServiceTarget) -> LocalServiceView {
    LocalServiceView { current: target, config: s.config }
}

/// The services after the first service of each name is routed to the target.
pub open spec fn route_named(
    services: Seq<LocalServiceView>,
    names: Seq<Seq<char>>,
    target: ServiceTarget,
) -> Seq<LocalServiceView> {
    Seq::new(
        services.len(),
        |j: int|
            if is_named(services, names, j) {
                retargeted(services[j], target)
            } else {
                services[j]
            },
    )
}

/// The services after every one is routed to the target.
pub open spec fn route_all(services: Seq<LocalServiceView>, target: ServiceTarget) -> Seq<
    LocalServiceView,
> {
    services.map_values(|s: LocalServiceView| retargeted(s, target))
}

/// A service's name with the URL it has for the target.
pub open spec fn target_pair(s: LocalServiceView, target: ServiceTarget) -> (Seq<char>, Seq<char>) {
    (s.config.name, url_for(s.config, target))
}

/// The name and URL of the first service of a name.
pub open spec fn named_pair(services: Seq<LocalServiceView>, name: Seq<char>, target: ServiceTarget) -> (
    Seq<char>,
    Seq<char>,
) {
    target_pair(services[first_named(services, name).unwrap()], target)
}

/// Whether position `k` holds the first name that no service has.
pub open spec fn is_first_missing(services: Seq<LocalServiceView>, names: Seq<Seq<char>>, k: int) -> bool {
    &&& 0 <= k < names.len()
    &&& first_named(services, names[k]) is None
    &&& forall|m: int| 0 <= m < k ==> first_named(services, #[trigger] names[m]) is Some
}

/// The first position whose name no service has, if any.
pub open spec fn first_missing(services: Seq<LocalServiceView>, names: Seq<Seq<char>>) -> Option<int> {
    if exists|k: int| 0 <= k < names.len() && first_named(services, #[trigger] names[k]) is None {
        Some(choose|k: int| is_first_missing(services, names, k))
    } else {
        None
    }
}

/// `x` put after the leading entries whose names are not above its own.
pub open spec fn insert_by_name(s: Seq<(Seq<char>, Seq<char>)>, x: (Seq<char>, Seq<char>)) -> Seq<
    (Seq<char>, Seq<char>),
>
    decreases s.len(),
{
    if s.len() == 0 {
        seq![x]
    } else if lex_le(s[0].0, x.0) {
        seq![s[0]] + insert_by_name(s.drop_first(), x)
    } else {
        seq![x] + s
    }
}

/// The entries sorted by name, entries with equal names in the order they
/// came in (what the stable `sort_by` on names gives).
pub open spec fn sort_by_name(s: Seq<(Seq<char>, Seq<char>)>) -> Seq<(Seq<char>, Seq<char>)>
    decreases s.len(),
{
    if s.len() == 0 {
        s
    } else {
        insert_by_name(sort_by_name(s.drop_last()), s.last())
    }
}

proof fn lemma_insert_by_name(s: Seq<(Seq<char>, Seq<char>)>, x: (Seq<char>, Seq<char>), k: int)
    requires
        0 <= k <= s.len(),
        forall|j: int| 0 <= j < k ==> lex_le(#[trigger] s[j].0, x.0),
        k < s.len() ==> !lex_le(s[k].0, x.0),
    ensures
        insert_by_name(s, x) == s.insert(k, x),
    decreases k,
{
    if k == 0 {
        if s.len() == 0 {
            assert(s.insert(0, x) =~= seq![x]);
        } else {
            assert(s.insert(0, x) =~= seq![x] + s);
        }
    } else {
        lemma_insert_by_name(s.drop_first(), x, k - 1);
        assert(seq![s[0]] + s.drop_first().insert(k - 1, x) =~= s.insert(k, x));
    }
}

/// The views of name and URL pairs.
pub open spec fn pairs_view(v: Seq<(String, String)>) -> Seq<(Seq<char>, Seq<char>)> {
    v.map_values(|p: (String, String)| (p.0@, p.1@))
}

/// Sorts name and URL pairs by name, keeping equal names in order.
fn sort_pairs_by_name(v: &Vec<(String, String)>) -> (res: Vec<(String, String)>)
    ensures
        pairs_view(res@) == sort_by_name(pairs_view(v@)),
{
    let ghost pv = pairs_view(v@);
    let mut sorted: Vec<(String, String)> = Vec::new();
    let mut i: usize = 0;
    assert(pv.take(0) =~= Seq::<(Seq<char>, Seq<char>)>::empty());
    while i < v.len()
        invariant
            i <= v.len(),
            pv == pairs_view(v@),
            pairs_view(sorted@) == sort_by_name(pv.take(i as int)),
        decreases v.len() - i,
    {
        let key = chars_of(v[i].0.as_str());
        let mut k: usize = 0;
        while k < sorted.len() && lex_le_exec(&chars_of(sorted[k].0.as_str()), &key)
            invariant
                k <= sorted.len(),
                key@ == pv[i as int].0,
                forall|j: int| 0 <= j < k ==> lex_le(#[trigger] pairs_view(sorted@)[j].0, key@),
            decreases sorted.len() - k,
        {
            k = k + 1;
        }
        let ghost s = pairs_view(sorted@);
        let x = (v[i].0.clone(), v[i].1.clone());
        proof {
            lemma_insert_by_name(s, pv[i as int], k as int);
            let t = pv.take(i + 1);
            assert(t.drop_last() =~= pv.take(i as int));
            assert(t.last() == pv[i as int]);
        }
        sorted.insert(k, x);
        assert(pairs_view(sorted@) =~= s.insert(k as int, pv[i as int]));
        i = i + 1;
    }
    assert(pv.take(v.len() as int) =~= pv);
    sorted
}

/// The position of the first service with the given name, if any.
fn find_service(services: &Vec<LocalService>, name: &String) -> (res: Option<usize>)
    ensures
        match res {
            Some(i) => i < services.len() && first_named(services_view(services@), name@) == Some(
                i as int,
            ),
            None => first_named(services_view(services@), name@) is None,
        },
{
    let ghost sv = services_view(services@);
    let mut i: usize = 0;
    while i < services.len()
        invariant
            i <= services.len(),
            sv == services_view(services@),
            forall|j: int| 0 <= j < i ==> sv[j].config.name != name@,
        decreases services.len() - i,
    {
        if services[i].config.name == *name {
            proof {
                lemma_first_named(sv, name@, i as int);
            }
            return Some(i);
        }
        i = i + 1;
    }
    proof {
        lemma_first_named(sv, name@, i as int);
    }
    None
}

/// The session with its services replaced.
pub open spec fn with_services(s: SessionStateView, services: Seq<LocalServiceView>) -> SessionStateView {
    SessionStateView { services, ..s }
}

/// Routes services of a session to a target: all of them, or the first
/// service of each given name. Gives the name and new URL of each routed
/// service, sorted by name. A name no service has is an error; the services
/// of the names before it are routed by then.
pub fn set_service_targets(
    session: &mut SessionState,
    service_names: &[String],
    all: bool,
    target: ServiceTarget,
) -> (res: Result<Vec<(String, String)>, CliError>)
    ensures
        ({
            let old_services = old(session)@.services;
            let names = string_views(service_names@);
            if all {
                &&& final(session)@ == with_services(old(session)@, route_all(old_services, target))
                &&& res matches Ok(t) && pairs_view(t@) == sort_by_name(
                    old_services.map_values(|s: LocalServiceView| target_pair(s, target)),
                )
            } else {
                match first_missing(old_services, names) {
                    None => {
                        &&& final(session)@ == with_services(
                            old(session)@,
                            route_named(old_services, names, target),
                        )
                        &&& res matches Ok(t) && pairs_view(t@) == sort_by_name(
                            names.map_values(|n: Seq<char>| named_pair(old_services, n, target)),
                        )
                    },
                    Some(p) => {
                        &&& final(session)@ == with_services(
                            old(session)@,
                            route_named(old_services, names.take(p), target),
                        )
                        &&& res matches Err(CliError::ServiceNotFound(n)) && n@ == names[p]
                    },
                }
            }
        }),
{
    let ghost old_session = session@;
    let ghost old_services = services_view(session.services@);
    let ghost names = string_views(service_names@);
    let mut new_targets: Vec<(String, String)> = Vec::new();
    assert(with_services(old_session, old_services) =~= old_session);
    if all {
        let mut j: usize = 0;
        assert(route_all(old_services, target).take(0) + old_services.skip(0) =~= old_services);
        assert(pairs_view(new_targets@) =~= old_services.map_values(
            |s: LocalServiceView| target_pair(s, target),
        ).take(0));
        while j < session.services.len()
            invariant
                j <= session.services.len(),
                old_services.len() == session.services.len(),
                session@ == with_services(
                    old_session,
                    route_all(old_services, target).take(j as int) + old_services.skip(j as int),
                ),
                pairs_view(new_targets@) == old_services.map_values(
                    |s: LocalServiceView| target_pair(s, target),
                ).take(j as int),
            decreases session.services.len() - j,
        {
            let ghost before = services_view(session.services@);
            assert(before[j as int] == old_services[j as int]);
            let updated = LocalService { current: target, config: session.services[j].config.copy() };
            let pair = (updated.config.name.clone(), updated.current_url());
            assert(updated@ == retargeted(old_services[j as int], target));
            assert((pair.0@, pair.1@) == target_pair(old_services[j as int], target));
            let ghost before_pairs = pairs_view(new_targets@);
            session.services.set(j, updated);
            new_targets.push(pair);
            proof {
                assert(pairs_view(new_targets@) =~= before_pairs.push((pair.0@, pair.1@)));
                assert(services_view(session.services@) =~= before.update(j as int, updated@));
                assert(route_all(old_services, target).take(j + 1) + old_services.skip(j + 1)
                    =~= services_view(session.services@));
                assert(pairs_view(new_targets@) =~= old_services.map_values(
                    |s: LocalServiceView| target_pair(s, target),
                ).take(j + 1));
            }
            j = j + 1;
        }
        proof {
            assert(route_all(old_services, target).take(old_services.len() as int)
                + old_services.skip(old_services.len() as int) =~= route_all(old_services, target));
            assert(old_services.map_values(|s: LocalServiceView| target_pair(s, target)).take(
                old_services.len() as int,
            ) =~= old_services.map_values(|s: LocalServiceView| target_pair(s, target)));
        }
    } else {
        let mut k: usize = 0;
        assert(route_named(old_services, names.take(0), target) =~= old_services);
        while k < service_names.len()
            invariant
                k <= service_names.len(),
                !all,
                names == string_views(service_names@),
                old_session == old(session)@,
                old_services == old(session)@.services,
                old_services.len() == session.services.len(),
                session@ == with_services(old_session, route_named(old_services, names.take(k as int), target)),
                forall|m: int| 0 <= m < k ==> first_named(old_services, #[trigger] names[m]) is Some,
                pairs_view(new_targets@) == names.take(k as int).map_values(
                    |n: Seq<char>| named_pair(old_services, n, target),
                ),
            decreases service_names.len() - k,
        {
            let name = &service_names[k];
            let ghost current = services_view(session.services@);
            proof {
                // routing keeps every name, so the first service of a name is the same
                assert forall|j: int| 0 <= j < current.len() implies #[trigger] current[j].config.name
                    == old_services[j].config.name by {}
                lemma_first_named_same_names(current, old_services, name@);
            }
            match find_service(&session.services, name) {
                None => {
                    proof {
                        assert(first_named(old_services, names[k as int]) is None);
                        assert(is_first_missing(old_services, names, k as int));
                        let c = choose|q: int| is_first_missing(old_services, names, q);
                        if c < k {
                            assert(first_named(old_services, names[c]) is Some);
                        } else if c > k {
                            assert(first_named(old_services, names[k as int]) is Some);
                        }
                        assert(c == k);
                        assert(first_missing(old_services, names) == Some(k as int));
                        assert(name@ == names[k as int]);
                    }
                    let missing = name.clone();
                    assert(missing@ == names[k as int]);

                    return Err(CliError::ServiceNotFound(missing));
                },
                Some(idx) => {
                    let updated = LocalService {
                        current: target,
                        config: session.services[idx].config.copy(),
                    };
                    let pair = (updated.config.name.clone(), updated.current_url());
                    let ghost uv = updated@;
                    let ghost before_pairs = pairs_view(new_targets@);
                    session.services.set(idx, updated);
                    new_targets.push(pair);
                    proof {
                        let after = services_view(session.services@);
                        let nprev = names.take(k as int);
                        let nk = names.take(k + 1);
                        assert(nk =~= nprev.push(name@));
                        assert(current == route_named(old_services, nprev, target));
                        assert(first_named(old_services, name@) == Some(idx as int));
                        assert(current[idx as int].config == old_services[idx as int].config);
                        assert(uv == retargeted(old_services[idx as int], target));
                        assert(after =~= current.update(idx as int, uv));
                        assert forall|j: int| 0 <= j < after.len() implies #[trigger] after[j]
                            == route_named(old_services, nk, target)[j] by {
                            if j == idx {
                                assert(nk[k as int] == name@);
                                assert(is_named(old_services, nk, j));
                            } else {
                                assert(after[j] == current[j]);
                                if is_named(old_services, nprev, j) {
                                    let q = choose|q: int| 0 <= q < nprev.len()
                                        && first_named(old_services, #[trigger] nprev[q]) == Some(j);
                                    assert(nk[q] == nprev[q]);
                                    assert(is_named(old_services, nk, j));
                                }
                                if is_named(old_services, nk, j) {
                                    let q = choose|q: int| 0 <= q < nk.len()
                                        && first_named(old_services, #[trigger] nk[q]) == Some(j);
                                    if q == k {
                                        assert(nk[q] == name@);
                                    }
                                    assert(nprev[q] == nk[q]);
                                    assert(is_named(old_services, nprev, j));
                                }
                            }
                        }
                        assert(after =~= route_named(old_services, nk, target));
                        assert((pair.0@, pair.1@) == named_pair(old_services, name@, target));
                        assert(pairs_view(new_targets@) =~= before_pairs.push((pair.0@, pair.1@)));
                        assert(pairs_view(new_targets@) =~= nk.map_values(
                            |n: Seq<char>| named_pair(old_services, n, target),
                        ));
                    }
                },
            }
            k = k + 1;
        }
        proof {
            assert(names.take(service_names.len() as int) =~= names);
            assert(!(exists|q: int| 0 <= q < names.len() && first_named(old_services, #[trigger] names[q]) is None));
        }
    }
    let sorted = sort_pairs_by_name(&new_targets);
    Ok(sorted)
}

/// Services with the same names, position by position, have the same first
/// service of each name.
proof fn lemma_first_named_same_names(a: Seq<LocalServiceView>, b: Seq<LocalServiceView>, name: Seq<char>)
    requires
        a.len() == b.len(),
        forall|j: int| 0 <= j < a.len() ==> #[trigger] a[j].config.name == b[j].config.name,
    ensures
        first_named(a, name) == first_named(b, name),
    decreases a.len(),
{
    if a.len() > 0 {
        lemma_first_named_same_names(a.drop_first(), b.drop_first(), name);
        assert(a[0].config.name == b[0].config.name);
    }
}

proof fn lemma_first_named_found(services: Seq<LocalServiceView>, name: Seq<char>)
    ensures
        first_named(services, name) matches Some(i) ==> 0 <= i < services.len()
            && services[i].config.name == name,
    decreases services.len(),
{
    if services.len() > 0 && services[0].config.name != name {
        lemma_first_named_found(services.drop_first(), name);
    }
}

proof fn lemma_insert_by_name_elements(s: Seq<(Seq<char>, Seq<char>)>, x: (Seq<char>, Seq<char>))
    ensures
        insert_by_name(s, x).len() == s.len() + 1,
        forall|k: int|
            0 <= k < insert_by_name(s, x).len() ==> #[trigger] insert_by_name(s, x)[k] == x
                || s.contains(insert_by_name(s, x)[k]),
    decreases s.len(),
{
    if s.len() > 0 && lex_le(s[0].0, x.0) {
        let rest = s.drop_first();
        lemma_insert_by_name_elements(rest, x);
        assert forall|k: int| 0 <= k < insert_by_name(s, x).len() implies #[trigger] insert_by_name(
            s,
            x,
        )[k] == x || s.contains(insert_by_name(s, x)[k]) by {
            if k == 0 {
                assert(s[0] == insert_by_name(s, x)[0]);
            } else {
                let e = insert_by_name(rest, x)[k - 1];
                assert(insert_by_name(s, x)[k] == e);
                if e != x {
                    let m = choose|m: int| 0 <= m < rest.len() && rest[m] == e;
                    assert(s[m + 1] == e);
                }
            }
        }
    } else if s.len() > 0 {
        assert forall|k: int| 0 <= k < insert_by_name(s, x).len() implies #[trigger] insert_by_name(
            s,
            x,
        )[k] == x || s.contains(insert_by_name(s, x)[k]) by {
            if k > 0 {
                assert(insert_by_name(s, x)[k] == s[k - 1]);
            }
        }
    }
}

proof fn lemma_sort_by_name_elements(s: Seq<(Seq<char>, Seq<char>)>)
    ensures
        sort_by_name(s).len() == s.len(),
        forall|k: int| 0 <= k < sort_by_name(s).len() ==> s.contains(#[trigger] sort_by_name(s)[k]),
    decreases s.len(),
{
    if s.len() > 0 {
        let init = s.drop_last();
        lemma_sort_by_name_elements(init);
        lemma_insert_by_name_elements(sort_by_name(init), s.last());
        assert forall|k: int| 0 <= k < sort_by_name(s).len() implies s.contains(
            #[trigger] sort_by_name(s)[k],
        ) by {
            let e = sort_by_name(s)[k];
            if e == s.last() {
                assert(s[s.len() - 1] == e);
            } else {
                let a = choose|a: int| 0 <= a < sort_by_name(init).len() && sort_by_name(init)[a] == e;
                let m = choose|m: int| 0 <= m < init.len() && init[m] == sort_by_name(init)[a];
                assert(s[m] == e);
            }
        }
    }
}

/// Whether a name and URL pair names a service of `routed` that is routed to
/// `target`, with the URL it has there: its local URL for a local target,
/// its remote URL for a remote one.
pub open spec fn routed_with_url(
    pair: (Seq<char>, Seq<char>),
    routed: Seq<LocalServiceView>,
    target: ServiceTarget,
) -> bool {
    exists|j: int|
        #![trigger routed[j]]
        {
            &&& 0 <= j < routed.len()
            &&& routed[j].config.name == pair.0
            &&& routed[j].current == target
            &&& target == ServiceTarget::Local ==> pair.1 == routed[j].config.local
            &&& target == ServiceTarget::Remote ==> pair.1 == routed[j].config.remote
        }
}

/// The name and new URL of every service, in the order of the services.
pub open spec fn all_target_pairs(services: Seq<LocalServiceView>, target: ServiceTarget) -> Seq<
    (Seq<char>, Seq<char>),
> {
    services.map_values(|s: LocalServiceView| target_pair(s, target))
}

/// The name and new URL of the first service of each name, in the order of
/// the names.
pub open spec fn named_target_pairs(
    services: Seq<LocalServiceView>,
    names: Seq<Seq<char>>,
    target: ServiceTarget,
) -> Seq<(Seq<char>, Seq<char>)> {
    names.map_values(|n: Seq<char>| named_pair(services, n, target))
}

/// Each pair that routing gives is the name of a service that was routed,
/// with the URL that service has afterwards: the URL of the target it was
/// routed to (its local URL when routed locally, its remote URL when routed
/// remotely), when all services are routed as when they are named.
pub proof fn law_routed_pairs_give_new_urls(
    services: Seq<LocalServiceView>,
    names: Seq<Seq<char>>,
    target: ServiceTarget,
)
    ensures
        ({
            let pairs = sort_by_name(all_target_pairs(services, target));
            let routed = route_all(services, target);
            forall|k: int|
                0 <= k < pairs.len() ==> routed_with_url(#[trigger] pairs[k], routed, target)
        }),
        (forall|k: int| 0 <= k < names.len() ==> first_named(services, #[trigger] names[k]) is Some)
            ==> ({
            let pairs = sort_by_name(named_target_pairs(services, names, target));
            let routed = route_named(services, names, target);
            forall|k: int|
                0 <= k < pairs.len() ==> routed_with_url(#[trigger] pairs[k], routed, target)
        }),
{
    let input = all_target_pairs(services, target);
    let routed = route_all(services, target);
    let pairs = sort_by_name(input);
    lemma_sort_by_name_elements(input);
    assert forall|k: int| #![trigger pairs[k]] 0 <= k < pairs.len() implies routed_with_url(pairs[k], routed, target) by {
        assert(input.contains(pairs[k]));
        let m = choose|m: int| 0 <= m < input.len() && input[m] == pairs[k];
        assert(routed[m] == retargeted(services[m], target));
    }
    if forall|k: int| 0 <= k < names.len() ==> first_named(services, #[trigger] names[k]) is Some {
        let input = named_target_pairs(services, names, target);
        let routed = route_named(services, names, target);
        let pairs = sort_by_name(input);
        lemma_sort_by_name_elements(input);
        assert forall|k: int| #![trigger pairs[k]] 0 <= k < pairs.len() implies routed_with_url(pairs[k], routed, target) by {
            assert(input.contains(pairs[k]));
            let m = choose|m: int| 0 <= m < input.len() && input[m] == pairs[k];
            let name = names[m];
            lemma_first_named_found(services, name);
            let i = first_named(services, name).unwrap();
            assert(is_named(services, names, i));
            assert(routed[i] == retargeted(services[i], target));
        }
    }
}

} // verus!
