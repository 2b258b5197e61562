use vstd::prelude::*;

use crate::text::{chars_of, str_eq, lemma_lex_le_antisymmetric, lemma_lex_le_total, lemma_lex_le_transitive, lex_le, lex_le_exec};

verus! {

/// The version of the state layout this library reads and writes.
pub const STATE_VERSION: u8 = 5;

// ---------------------------------------------------------------------------
// Configuration pieces carried in a session
// ---------------------------------------------------------------------------

/// Where a service is reached.
#[derive(Clone, Copy, Debug, PartialEq, Eq, Structural)]
pub enum ServiceTarget {
    Local,
    Remote,
}

impl ServiceTarget {
    /// The name of the target, as it is displayed: `local` or `remote`.
    pub fn as_str(&self) -> (res: &'static str)
        ensures
            res@ == (match *self {
                ServiceTarget::Local => "local"@,
                ServiceTarget::Remote => "remote"@,
            }),
    {
        match self {
            ServiceTarget::Local => "local",
            ServiceTarget::Remote => "remote",
        }
    }
}

/// A rewrite of request paths for a service.
#[derive(Clone, Debug)]
pub struct Rewrite {
    pub source: String,
    pub target: String,
}

pub ghost struct RewriteView {
    pub source: Seq<char>,
    pub target: Seq<char>,
}

impl View for Rewrite {
    type V = RewriteView;

    open spec fn view(&self) -> RewriteView {
        RewriteView { source: self.source@, target: self.target@ }
    }
}

/// The views of optional rewrites.
pub open spec fn rewrites_view(r: Option<Vec<Rewrite>>) -> Option<Seq<RewriteView>> {
    match r {
        Some(v) => Some(v@.map_values(|x: Rewrite| x@)),
        None => None,
    }
}

/// A copy of rewrites.
pub fn copy_rewrites(r: &Option<Vec<Rewrite>>) -> (res: Option<Vec<Rewrite>>)
    ensures
        rewrites_view(res) == rewrites_view(*r),
{
    match r {
        None => None,
        Some(v) => {
            let mut out: Vec<Rewrite> = Vec::new();
            let mut i: usize = 0;
            while i < v.len()
                invariant
                    i <= v.len(),
                    out.len() == i,
                    out@.map_values(|x: Rewrite| x@) == v@.map_values(|x: Rewrite| x@).take(i as int),
                decreases v.len() - i,
            {
                out.push(Rewrite { source: v[i].source.clone(), target: v[i].target.clone() });
                assert(out@.map_values(|x: Rewrite| x@) =~= v@.map_values(|x: Rewrite| x@).take(i + 1));
                i = i + 1;
            }
            assert(v@.map_values(|x: Rewrite| x@).take(v.len() as int) =~= v@.map_values(|x: Rewrite| x@));
            Some(out)
        },
    }
}

/// A copy of an optional list of strings.
pub fn copy_opt_strings(r: &Option<Vec<String>>) -> (res: Option<Vec<String>>)
    ensures
        opt_strings_view(res) == opt_strings_view(*r),
{
    match r {
        None => None,
        Some(v) => Some(copy_strings(v)),
    }
}

/// The views of an optional list of strings.
pub open spec fn opt_strings_view(r: Option<Vec<String>>) -> Option<Seq<Seq<char>>> {
    match r {
        Some(v) => Some(v@.map_values(|x: String| x@)),
        None => None,
    }
}

/// A copy of a list of strings.
pub fn copy_strings(v: &Vec<String>) -> (res: Vec<String>)
    ensures
        res@.map_values(|x: String| x@) == v@.map_values(|x: String| x@),
{
    let mut out: Vec<String> = Vec::new();
    let mut i: usize = 0;
    while i < v.len()
        invariant
            i <= v.len(),
            out.len() == i,
            out@.map_values(|x: String| x@) == v@.map_values(|x: String| x@).take(i as int),
        decreases v.len() - i,
    {
        out.push(v[i].clone());
        assert(out@.map_values(|x: String| x@) =~= v@.map_values(|x: String| x@).take(i + 1));
        i = i + 1;
    }
    assert(v@.map_values(|x: String| x@).take(v.len() as int) =~= v@.map_values(|x: String| x@));
    out
}

/// The configuration of one service.
#[derive(Clone, Debug)]
pub struct ServiceConfig {
    pub name: String,
    /// URL of the deployed service.
    pub remote: String,
    /// URL of the service on this machine.
    pub local: String,
    /// Directory of the service, relative to the configuration file.
    pub directory: Option<String>,
    pub rewrites: Option<Vec<Rewrite>>,
    /// Health-check path.
    pub health: Option<String>,
}

pub ghost struct ServiceConfigView {
    pub name: Seq<char>,
    pub remote: Seq<char>,
    pub local: Seq<char>,
    pub directory: Option<Seq<char>>,
    pub rewrites: Option<Seq<RewriteView>>,
    pub health: Option<Seq<char>>,
}

/// The view of an optional string.
pub open spec fn opt_view(s: Option<String>) -> Option<Seq<char>> {
    match s {
        Some(x) => Some(x@),
        None => None,
    }
}

/// A copy of an optional string.
pub fn copy_opt(s: &Option<String>) -> (res: Option<String>)
    ensures
        opt_view(res) == opt_view(*s),
{
    match s {
        Some(x) => Some(x.clone()),
        None => None,
    }
}

impl View for ServiceConfig {
    type V = ServiceConfigView;

    open spec fn view(&self) -> ServiceConfigView {
        ServiceConfigView {
            name: self.name@,
            remote: self.remote@,
            local: self.local@,
            directory: opt_view(self.directory),
            rewrites: rewrites_view(self.rewrites),
            health: opt_view(self.health),
        }
    }
}

impl ServiceConfig {
    /// A copy of this configuration.
    pub fn copy(&self) -> (res: ServiceConfig)
        ensures
            res@ == self@,
    {
        ServiceConfig {
            name: self.name.clone(),
            remote: self.remote.clone(),
            local: self.local.clone(),
            directory: copy_opt(&self.directory),
            rewrites: copy_rewrites(&self.rewrites),
            health: copy_opt(&self.health),
        }
    }
}

/// A service of a session, with where it is routed now.
#[derive(Clone, Debug)]
pub struct LocalService {
    pub current: ServiceTarget,
    pub config: ServiceConfig,
}

pub ghost struct LocalServiceView {
    pub current: ServiceTarget,
    pub config: ServiceConfigView,
}

impl View for LocalService {
    type V = LocalServiceView;

    open spec fn view(&self) -> LocalServiceView {
        LocalServiceView { current: self.current, config: self.config@ }
    }
}

/// The URL a service is reached at for a target.
pub open spec fn url_for(config: ServiceConfigView, target: ServiceTarget) -> Seq<char> {
    match target {
        ServiceTarget::Local => config.local,
        ServiceTarget::Remote => config.remote,
    }
}

impl LocalService {
    /// The URL of the service for its current target.
    pub fn current_url(&self) -> (res: String)
        ensures
            res@ == url_for(self.config@, self.current),
    {
        match self.current {
            ServiceTarget::Local => self.config.local.clone(),
            ServiceTarget::Remote => self.config.remote.clone(),
        }
    }

    /// A copy of this service.
    pub fn copy(&self) -> (res: LocalService)
        ensures
            res@ == self@,
    {
        LocalService { current: self.current, config: self.config.copy() }
    }
}

/// A routing rule of a domain: requests whose path matches `path` go to
/// `service`.
#[derive(Clone, Debug)]
pub struct Route {
    pub path: String,
    pub service: String,
}

pub ghost struct RouteView {
    pub path: Seq<char>,
    pub service: Seq<char>,
}

impl View for Route {
    type V = RouteView;

    open spec fn view(&self) -> RouteView {
        RouteView { path: self.path@, service: self.service@ }
    }
}

/// A domain served by a session.
#[derive(Clone, Debug)]
pub struct Domain {
    pub domain: String,
    pub default_service: String,
    pub routes: Option<Vec<Route>>,
}

pub ghost struct DomainView {
    pub domain: Seq<char>,
    pub default_service: Seq<char>,
    pub routes: Option<Seq<RouteView>>,
}

impl View for Domain {
    type V = DomainView;

    open spec fn view(&self) -> DomainView {
        DomainView {
            domain: self.domain@,
            default_service: self.default_service@,
            routes: match self.routes {
                Some(r) => Some(r@.map_values(|x: Route| x@)),
                None => None,
            },
        }
    }
}

impl Domain {
    /// A copy of this domain.
    pub fn copy(&self) -> (res: Domain)
        ensures
            res@ == self@,
    {
        let routes = match &self.routes {
            None => None,
            Some(v) => {
                let mut out: Vec<Route> = Vec::new();
                let mut i: usize = 0;
                while i < v.len()
                    invariant
                        i <= v.len(),
                        out.len() == i,
                        out@.map_values(|x: Route| x@) == v@.map_values(|x: Route| x@).take(
                            i as int,
                        ),
                    decreases v.len() - i,
                {
                    out.push(Route { path: v[i].path.clone(), service: v[i].service.clone() });
                    assert(out@.map_values(|x: Route| x@) =~= v@.map_values(|x: Route| x@).take(
                        i + 1,
                    ));
                    i = i + 1;
                }
                assert(v@.map_values(|x: Route| x@).take(v.len() as int) =~= v@.map_values(
                    |x: Route| x@,
                ));
                Some(out)
            },
        };
        Domain { domain: self.domain.clone(), default_service: self.default_service.clone(), routes }
    }
}

/// The views of a list of domains.
pub open spec fn domains_view(d: Seq<Domain>) -> Seq<DomainView> {
    d.map_values(|x: Domain| x@)
}

/// A copy of a list of domains.
pub fn copy_domains(v: &Vec<Domain>) -> (res: Vec<Domain>)
    ensures
        domains_view(res@) == domains_view(v@),
{
    let mut out: Vec<Domain> = Vec::new();
    let mut i: usize = 0;
    while i < v.len()
        invariant
            i <= v.len(),
            out.len() == i,
            domains_view(out@) == domains_view(v@).take(i as int),
        decreases v.len() - i,
    {
        out.push(v[i].copy());
        assert(domains_view(out@) =~= domains_view(v@).take(i + 1));
        i = i + 1;
    }
    assert(domains_view(v@).take(v.len() as int) =~= domains_view(v@));
    out
}

/// The views of a list of services.
pub open spec fn services_view(s: Seq<LocalService>) -> Seq<LocalServiceView> {
    s.map_values(|x: LocalService| x@)
}

/// A local session: its token, the configuration it came from, its services
/// with their current targets, and its domains.
#[derive(Clone, Debug)]
pub struct SessionState {
    pub token: String,
    pub config_path: String,
    pub services: Vec<LocalService>,
    pub domains: Vec<Domain>,
    /// Patterns of the paths whose responses may be cached.
    pub cache_routes: Option<Vec<String>>,
}

pub ghost struct SessionStateView {
    pub token: Seq<char>,
    pub config_path: Seq<char>,
    pub services: Seq<LocalServiceView>,
    pub domains: Seq<DomainView>,
    pub cache_routes: Option<Seq<Seq<char>>>,
}

impl View for SessionState {
    type V = SessionStateView;

    open spec fn view(&self) -> SessionStateView {
        SessionStateView {
            token: self.token@,
            config_path: self.config_path@,
            services: services_view(self.services@),
            domains: domains_view(self.domains@),
            cache_routes: opt_strings_view(self.cache_routes),
        }
    }
}

impl SessionState {
    /// A copy of this session.
    pub fn copy(&self) -> (res: SessionState)
        ensures
            res@ == self@,
    {
        let mut services: Vec<LocalService> = Vec::new();
        let mut i: usize = 0;
        while i < self.services.len()
            invariant
                i <= self.services.len(),
                services.len() == i,
                services_view(services@) == services_view(self.services@).take(i as int),
            decreases self.services.len() - i,
        {
            services.push(self.services[i].copy());
            assert(services_view(services@) =~= services_view(self.services@).take(i + 1));
            i = i + 1;
        }
        assert(services_view(self.services@).take(self.services.len() as int) =~= services_view(
            self.services@,
        ));
        SessionState {
            token: self.token.clone(),
            config_path: self.config_path.clone(),
            services,
            domains: copy_domains(&self.domains),
            cache_routes: copy_opt_strings(&self.cache_routes),
        }
    }
}


// ---------------------------------------------------------------------------
// Sessions by name
// ---------------------------------------------------------------------------

/// `a < b` in the order of `String`.
pub open spec fn lex_lt(a: Seq<char>, b: Seq<char>) -> bool {
    lex_le(a, b) && a != b
}

/// The names of a sequence of entries.
pub open spec fn entry_names(e: Seq<(String, SessionState)>) -> Seq<Seq<char>> {
    e.map_values(|p: (String, SessionState)| p.0@)
}

/// Names strictly increasing.
pub open spec fn strictly_sorted(names: Seq<Seq<char>>) -> bool {
    forall|i: int, j: int| 0 <= i < j < names.len() ==> lex_lt(#[trigger] names[i], #[trigger] names[j])
}

/// A position of the entry with the given name.
pub open spec fn position_of(e: Seq<(String, SessionState)>, k: Seq<char>) -> int {
    choose|i: int| 0 <= i < e.len() && #[trigger] e[i].0@ == k
}

/// The map from names to sessions that a sequence of entries stands for.
pub open spec fn entries_map(e: Seq<(String, SessionState)>) -> Map<Seq<char>, SessionStateView> {
    Map::new(
        |k: Seq<char>| exists|i: int| 0 <= i < e.len() && #[trigger] e[i].0@ == k,
        |k: Seq<char>| e[position_of(e, k)].1@,
    )
}

proof fn lemma_entries_map_at(e: Seq<(String, SessionState)>, i: int)
    requires
        strictly_sorted(entry_names(e)),
        0 <= i < e.len(),
    ensures
        entries_map(e).contains_key(e[i].0@),
        entries_map(e)[e[i].0@] == e[i].1@,
{
    let k = e[i].0@;
    assert(entry_names(e)[i] == k);
    let j = position_of(e, k);
    assert(entry_names(e)[j] == k);
    if j < i {
        assert(lex_lt(entry_names(e)[j], entry_names(e)[i]));
    } else if i < j {
        assert(lex_lt(entry_names(e)[i], entry_names(e)[j]));
    }
    assert(j == i);
}

/// The sessions of a state by name, kept in the order of their names (as a
/// `BTreeMap<String, SessionState>` keeps them).
#[derive(Clone, Debug)]
pub struct Sessions {
    entries: Vec<(String, SessionState)>,
}

impl View for Sessions {
    type V = Map<Seq<char>, SessionStateView>;

    closed spec fn view(&self) -> Map<Seq<char>, SessionStateView> {
        entries_map(self.entries@)
    }
}

impl Sessions {
    /// Names strictly increasing, so each name occurs once.
    pub closed spec fn wf(self) -> bool {
        strictly_sorted(entry_names(self.entries@))
    }

    /// The names, in increasing order.
    pub closed spec fn names(self) -> Seq<Seq<char>> {
        entry_names(self.entries@)
    }

    /// The entries, in the order of their names.
    pub closed spec fn entries_seq(self) -> Seq<(String, SessionState)> {
        self.entries@
    }

    /// What the names and the entries say of the map.
    pub proof fn lemma_view(self)
        requires
            self.wf(),
        ensures
            self.names().len() == self.entries_seq().len(),
            strictly_sorted(self.names()),
            forall|i: int|
                0 <= i < self.entries_seq().len() ==> self.names()[i] == #[trigger] self.entries_seq()[i].0@,
            forall|i: int|
                0 <= i < self.entries_seq().len() ==> self@.contains_key(#[trigger] self.entries_seq()[i].0@)
                    && self@[self.entries_seq()[i].0@] == self.entries_seq()[i].1@,
            forall|k: Seq<char>|
                #[trigger] self@.contains_key(k) ==> exists|i: int|
                    0 <= i < self.entries_seq().len() && self.entries_seq()[i].0@ == k,
    {
        assert forall|i: int| 0 <= i < self.entries_seq().len() implies self@.contains_key(
            #[trigger] self.entries_seq()[i].0@,
        ) && self@[self.entries_seq()[i].0@] == self.entries_seq()[i].1@ by {
            lemma_entries_map_at(self.entries@, i);
        }
    }

    /// Finitely many names hold a session.
    pub proof fn lemma_finite(self)
        ensures
            self@.dom().finite(),
    {
        let names = entry_names(self.entries@);
        vstd::seq_lib::seq_to_set_is_finite(names);
        assert(self@.dom() =~= names.to_set()) by {
            assert forall|k: Seq<char>| self@.dom().contains(k) implies names.to_set().contains(k) by {
                let i = choose|i: int| 0 <= i < self.entries@.len() && #[trigger] self.entries@[i].0@ == k;
                assert(names[i] == k);
            }
            assert forall|k: Seq<char>| names.to_set().contains(k) implies self@.dom().contains(k) by {
                let i = choose|i: int| 0 <= i < names.len() && names[i] == k;
                assert(self.entries@[i].0@ == k);
            }
        }
    }

    /// No sessions.
    pub fn new() -> (res: Sessions)
        ensures
            res.wf(),
            res@ == Map::<Seq<char>, SessionStateView>::empty(),
            res.names() == Seq::<Seq<char>>::empty(),
    {
        let res = Sessions { entries: Vec::new() };
        assert(res@ =~= Map::<Seq<char>, SessionStateView>::empty());
        assert(entry_names(res.entries@) =~= Seq::<Seq<char>>::empty());
        res
    }

    /// The number of sessions.
    pub fn len(&self) -> (res: usize)
        ensures
            res == self.names().len(),
    {
        self.entries.len()
    }

    /// The entries, in the order of their names.
    pub fn entries(&self) -> (res: &Vec<(String, SessionState)>)
        ensures
            res@ == self.entries_seq(),
    {
        &self.entries
    }

    /// The position of `name` among the names: the number of names below it,
    /// and whether the name at that position is `name` itself.
    fn position(&self, name: &Vec<char>) -> (res: (usize, bool))
        requires
            self.wf(),
        ensures
            res.0 <= self.entries@.len(),
            forall|j: int| 0 <= j < res.0 ==> lex_lt(#[trigger] entry_names(self.entries@)[j], name@),
            res.0 < self.entries@.len() ==> lex_le(name@, entry_names(self.entries@)[res.0 as int]),
            res.1 == (res.0 < self.entries@.len() && entry_names(self.entries@)[res.0 as int] == name@),
    {
        let mut k: usize = 0;
        while k < self.entries.len()
            invariant
                k <= self.entries@.len(),
                forall|j: int| 0 <= j < k ==> lex_lt(#[trigger] entry_names(self.entries@)[j], name@),
            decreases self.entries.len() - k,
        {
            let key = chars_of(self.entries[k].0.as_str());
            assert(key@ == entry_names(self.entries@)[k as int]);
            if lex_le_exec(name, &key) {
                let same = lex_le_exec(&key, name);
                proof {
                    if same {
                        lemma_lex_le_antisymmetric(key@, name@);
                    }
                }
                return (k, same);
            }
            proof {
                lemma_lex_le_total(name@, key@);
            }
            k = k + 1;
        }
        (k, false)
    }

    /// The session with the given name, if there is one.
    pub fn get(&self, name: &str) -> (res: Option<&SessionState>)
        requires
            self.wf(),
        ensures
            match res {
                Some(s) => self@.contains_key(name@) && s@ == self@[name@],
                None => !self@.contains_key(name@),
            },
    {
        let key = chars_of(name);
        let (k, found) = self.position(&key);
        if found {
            proof {
                lemma_entries_map_at(self.entries@, k as int);
            }
            Some(&self.entries[k].1)
        } else {
            proof {
                let e = self.entries@;
                assert forall|i: int| 0 <= i < e.len() implies e[i].0@ != name@ by {
                    assert(entry_names(e)[i] == e[i].0@);
                    if i < k {
                    } else if i == k {
                    } else if e[i].0@ == name@ {
                        assert(lex_lt(entry_names(e)[k as int], entry_names(e)[i]));
                        lemma_lex_le_antisymmetric(name@, entry_names(e)[k as int]);
                    }
                }
            }
            None
        }
    }

    /// Whether a session has the given name.
    pub fn contains_key(&self, name: &str) -> (res: bool)
        requires
            self.wf(),
        ensures
            res == self@.contains_key(name@),
    {
        self.get(name).is_some()
    }

    /// Sets the session of a name, adding the name if it is new.
    pub fn insert(&mut self, name: String, session: SessionState)
        requires
            old(self).wf(),
        ensures
            final(self).wf(),
            final(self)@ == old(self)@.insert(name@, session@),
    {
        let key = chars_of(name.as_str());
        let (k, found) = self.position(&key);
        let ghost e = self.entries@;
        let ghost sv = session@;
        let ghost nv = name@;
        if found {
            self.entries.set(k, (name, session));
        } else {
            self.entries.insert(k, (name, session));
        }
        proof {
            let f = self.entries@;
            let ne = entry_names(e);
            let nf = entry_names(f);
            if found {
                assert(nf =~= ne.update(k as int, nv));
            } else {
                assert(nf =~= ne.insert(k as int, nv));
            }
            assert forall|i: int, j: int| 0 <= i < j < nf.len() implies lex_lt(
                #[trigger] nf[i],
                #[trigger] nf[j],
            ) by {
                if found {
                    if i == k {
                        assert(ne[i] == nv);
                    } else if j == k {
                        assert(ne[j] == nv);
                    }
                } else {
                    if j < k {
                    } else if j == k {
                        assert(lex_lt(ne[i], nv));
                    } else if i == k {
                        // nv < ne[k] <= ne[j - 1]
                        assert(lex_le(nv, ne[k as int]));
                        assert(nv != ne[k as int]);
                        if j - 1 > k {
                            assert(lex_lt(ne[k as int], ne[j - 1]));
                            lemma_lex_le_transitive(nv, ne[k as int], ne[j - 1]);
                            if nv == ne[j - 1] {
                                lemma_lex_le_antisymmetric(nv, ne[k as int]);
                            }
                        }
                    } else if i < k {
                        assert(nf[i] == ne[i] && nf[j] == ne[j - 1]);
                    } else {
                        assert(nf[i] == ne[i - 1] && nf[j] == ne[j - 1]);
                    }
                }
            }
            let m = entries_map(e).insert(nv, sv);
            assert forall|q: Seq<char>| #[trigger] entries_map(f).contains_key(q) implies m.contains_key(q) by {
                let i = choose|i: int| 0 <= i < f.len() && #[trigger] f[i].0@ == q;
                if q != nv {
                    let j = if found || i < k { i } else { i - 1 };
                    assert(f[i] == e[j]);
                    assert(e[j].0@ == q);
                    assert(entries_map(e).contains_key(q));
                }
            }
            assert forall|q: Seq<char>| #[trigger] m.contains_key(q) implies entries_map(f).contains_key(q) by {
                if q == nv {
                    assert(f[k as int].0@ == nv);
                } else {
                    let i = choose|i: int| 0 <= i < e.len() && #[trigger] e[i].0@ == q;
                    assert(ne[i] == q);
                    let j = if found || i < k { i } else { i + 1 };
                    assert(f[j] == e[i]);
                    assert(f[j].0@ == q);
                }
            }
            assert forall|q: Seq<char>| #[trigger] entries_map(f).contains_key(q) implies entries_map(
                f,
            )[q] == m[q] by {
                let i = choose|i: int| 0 <= i < f.len() && #[trigger] f[i].0@ == q;
                lemma_entries_map_at(f, i);
                if q == nv {
                    if found {
                        if i != k {
                            assert(nf[i] == nf[k as int]);
                        }
                    } else {
                        if i != k {
                            assert(nf[i] == nf[k as int]);
                        }
                    }
                } else {
                    if found {
                        assert(f[i] == e[i]);
                        lemma_entries_map_at(e, i);
                    } else if i < k {
                        assert(f[i] == e[i]);
                        lemma_entries_map_at(e, i);
                    } else {
                        assert(f[i] == e[i - 1]);
                        lemma_entries_map_at(e, i - 1);
                    }
                }
            }
            assert(entries_map(f) =~= m);
        }
    }

    /// Removes the session of a name, and gives it back if there was one.
    pub fn remove(&mut self, name: &str) -> (res: Option<SessionState>)
        requires
            old(self).wf(),
        ensures
            final(self).wf(),
            final(self)@ == old(self)@.remove(name@),
            match res {
                Some(s) => old(self)@.contains_key(name@) && s@ == old(self)@[name@],
                None => !old(self)@.contains_key(name@),
            },
    {
        let key = chars_of(name);
        let (k, found) = self.position(&key);
        let ghost e = self.entries@;
        let ghost ne = entry_names(e);
        proof {
            if !found {
                assert forall|i: int| 0 <= i < e.len() implies e[i].0@ != name@ by {
                    assert(ne[i] == e[i].0@);
                    if i > k && e[i].0@ == name@ {
                        assert(lex_lt(ne[k as int], ne[i]));
                        lemma_lex_le_antisymmetric(name@, ne[k as int]);
                    }
                }
                assert(entries_map(e).remove(name@) =~= entries_map(e));
            } else {
                lemma_entries_map_at(e, k as int);
            }
        }
        if !found {
            return None;
        }
        let (_, removed) = self.entries.remove(k);
        proof {
            let f = self.entries@;
            let nf = entry_names(f);
            assert(nf =~= ne.remove(k as int));
            assert forall|i: int, j: int| 0 <= i < j < nf.len() implies lex_lt(
                #[trigger] nf[i],
                #[trigger] nf[j],
            ) by {
                if j < k {
                } else if i < k {
                    assert(nf[j] == ne[j + 1]);
                } else {
                    assert(nf[i] == ne[i + 1] && nf[j] == ne[j + 1]);
                }
            }
            let m = entries_map(e).remove(name@);
            assert forall|q: Seq<char>| #[trigger] entries_map(f).contains_key(q) <==> m.contains_key(q) by {
                if entries_map(f).contains_key(q) {
                    let i = choose|i: int| 0 <= i < f.len() && #[trigger] f[i].0@ == q;
                    if i < k {
                        assert(f[i] == e[i]);
                        assert(lex_lt(ne[i], ne[k as int]));
                    } else {
                        assert(f[i] == e[i + 1]);
                        assert(lex_lt(ne[k as int], ne[i + 1]));
                    }
                }
                if m.contains_key(q) {
                    let i = choose|i: int| 0 <= i < e.len() && #[trigger] e[i].0@ == q;
                    assert(ne[i] == q);
                    if i < k {
                        assert(f[i] == e[i]);
                    } else if i > k {
                        assert(f[i - 1] == e[i]);
                    }
                }
            }
            assert forall|q: Seq<char>| #[trigger] entries_map(f).contains_key(q) implies entries_map(
                f,
            )[q] == m[q] by {
                let i = choose|i: int| 0 <= i < f.len() && #[trigger] f[i].0@ == q;
                lemma_entries_map_at(f, i);
                if i < k {
                    assert(f[i] == e[i]);
                    lemma_entries_map_at(e, i);
                } else {
                    assert(f[i] == e[i + 1]);
                    lemma_entries_map_at(e, i + 1);
                }
            }
            assert(entries_map(f) =~= m);
        }
        Some(removed)
    }

    /// The smallest name, if there is any session.
    pub fn first_key(&self) -> (res: Option<String>)
        requires
            self.wf(),
        ensures
            match res {
                Some(k) => self@.contains_key(k@) && forall|q: Seq<char>| #[trigger]
                    self@.contains_key(q) ==> lex_le(k@, q),
                None => self@ == Map::<Seq<char>, SessionStateView>::empty(),
            },
    {
        proof {
            self.lemma_view();
        }
        if self.entries.len() == 0 {
            assert(self@ =~= Map::<Seq<char>, SessionStateView>::empty());
            None
        } else {
            let k = self.entries[0].0.clone();
            proof {
                let e = self.entries@;
                let ne = entry_names(e);
                assert forall|q: Seq<char>| #[trigger] self@.contains_key(q) implies lex_le(k@, q) by {
                    let i = choose|i: int| 0 <= i < e.len() && e[i].0@ == q;
                    assert(ne[i] == q && ne[0] == k@);
                    if i > 0 {
                        assert(lex_lt(ne[0], ne[i]));
                    } else {
                        lemma_lex_le_total(k@, k@);
                    }
                }
            }
            Some(k)
        }
    }
}


// ---------------------------------------------------------------------------
// The state of a Linkup installation
// ---------------------------------------------------------------------------

/// The least name of a map of sessions, if it has any.
pub open spec fn first_name(m: Map<Seq<char>, SessionStateView>) -> Option<Seq<char>> {
    if exists|k: Seq<char>| #[trigger] m.contains_key(k) {
        Some(
            choose|k: Seq<char>|
                #[trigger] m.contains_key(k) && forall|q: Seq<char>| #[trigger]
                    m.contains_key(q) ==> lex_le(k, q),
        )
    } else {
        None
    }
}

/// A name that is least in a map is its `first_name`.
pub proof fn lemma_first_name(m: Map<Seq<char>, SessionStateView>, k: Seq<char>)
    requires
        m.contains_key(k),
        forall|q: Seq<char>| #[trigger] m.contains_key(q) ==> lex_le(k, q),
    ensures
        first_name(m) == Some(k),
{
    let c = choose|c: Seq<char>|
        #[trigger] m.contains_key(c) && forall|q: Seq<char>| #[trigger] m.contains_key(q) ==> lex_le(c, q);
    assert(lex_le(c, k) && lex_le(k, c));
    lemma_lex_le_antisymmetric(c, k);
}

pub ghost struct StateView {
    pub version: u8,
    pub worker_url: Seq<char>,
    pub worker_token: Seq<char>,
    pub tunnel_url: Option<Seq<char>>,
    pub main_session: Option<Seq<char>>,
    pub sessions: Map<Seq<char>, SessionStateView>,
}

/// The state after a session is stored under a name with a tunnel URL: the
/// session is set under the name, the tunnel URL is set, and the name becomes
/// the main session when there was none.
pub open spec fn upserted(
    s: StateView,
    name: Seq<char>,
    session: SessionStateView,
    tunnel_url: Seq<char>,
) -> StateView {
    StateView {
        tunnel_url: Some(tunnel_url),
        main_session: if s.main_session is None {
            Some(name)
        } else {
            s.main_session
        },
        sessions: s.sessions.insert(name, session),
        ..s
    }
}

/// The state after the session of a name is deleted: the name is gone, and if
/// it was the main session, the least remaining name (if any) is the main
/// session.
pub open spec fn deleted(s: StateView, name: Seq<char>) -> StateView {
    let sessions = s.sessions.remove(name);
    StateView {
        main_session: if s.main_session == Some(name) {
            first_name(sessions)
        } else {
            s.main_session
        },
        sessions,
        ..s
    }
}

/// The main session, when there is one, names a stored session.
pub open spec fn main_session_is_stored(s: StateView) -> bool {
    match s.main_session {
        Some(n) => s.sessions.contains_key(n),
        None => true,
    }
}

/// Whether `d` is the domain of one of the sessions.
pub open spec fn manages_domain(sessions: Map<Seq<char>, SessionStateView>, d: Seq<char>) -> bool {
    exists|k: Seq<char>, i: int|
        #![trigger sessions[k].domains[i]]
        sessions.contains_key(k) && 0 <= i < sessions[k].domains.len()
            && sessions[k].domains[i].domain == d
}

/// Whether one of the strings is `d`.
pub open spec fn listed(res: Seq<String>, d: Seq<char>) -> bool {
    exists|j: int| 0 <= j < res.len() && #[trigger] res[j]@ == d
}

pub proof fn lemma_listed_push(res: Seq<String>, d: Seq<char>, n: String)
    requires
        listed(res, d),
    ensures
        listed(res.push(n), d),
{
    let j = choose|j: int| 0 <= j < res.len() && #[trigger] res[j]@ == d;
    assert(res.push(n)[j] == res[j]);
}

/// The state of a Linkup installation: the worker it talks to, the tunnel,
/// and the local sessions by name.
#[derive(Clone, Debug)]
pub struct State {
    pub version: u8,
    pub worker_url: String,
    pub worker_token: String,
    pub tunnel_url: Option<String>,
    pub main_session: Option<String>,
    pub sessions: Sessions,
}

impl View for State {
    type V = StateView;

    open spec fn view(&self) -> StateView {
        StateView {
            version: self.version,
            worker_url: self.worker_url@,
            worker_token: self.worker_token@,
            tunnel_url: opt_view(self.tunnel_url),
            main_session: opt_view(self.main_session),
            sessions: self.sessions@,
        }
    }
}

impl State {
    pub open spec fn wf(self) -> bool {
        self.sessions.wf()
    }

    /// A new state for a worker, at the current version, without tunnel or
    /// sessions.
    pub fn new(worker_url: String, worker_token: String) -> (res: State)
        ensures
            res.wf(),
            res@ == (StateView {
                version: STATE_VERSION,
                worker_url: worker_url@,
                worker_token: worker_token@,
                tunnel_url: None,
                main_session: None,
                sessions: Map::empty(),
            }),
    {
        State {
            version: STATE_VERSION,
            worker_url,
            worker_token,
            tunnel_url: None,
            main_session: None,
            sessions: Sessions::new(),
        }
    }

    /// Whether this library reads and writes state of this version.
    pub fn has_supported_version(&self) -> (res: bool)
        ensures
            res == (self.version == STATE_VERSION),
    {
        self.version == STATE_VERSION
    }

    /// The main session with its name, when it names a stored session.
    pub fn main_session(&self) -> (res: Option<(&str, &SessionState)>)
        requires
            self.wf(),
        ensures
            match res {
                Some((name, session)) => {
                    &&& self@.main_session == Some(name@)
                    &&& self@.sessions.contains_key(name@)
                    &&& session@ == self@.sessions[name@]
                },
                None => !main_session_is_stored(self@) || self@.main_session is None,
            },
    {
        match &self.main_session {
            None => None,
            Some(name) => {
                let name_str = name.as_str();
                match self.sessions.get(name_str) {
                    Some(session) => Some((name_str, session)),
                    None => None,
                }
            },
        }
    }

    /// The domains of all the sessions, each once.
    pub fn domain_strings(&self) -> (res: Vec<String>)
        requires
            self.wf(),
        ensures
            forall|j: int| 0 <= j < res@.len() ==> manages_domain(self@.sessions, #[trigger] res@[j]@),
            forall|d: Seq<char>| manages_domain(self@.sessions, d) ==> listed(res@, d),
            forall|a: int, b: int| 0 <= a < b < res@.len() ==> #[trigger] res@[a]@ != #[trigger] res@[b]@,
    {
        proof {
            self.sessions.lemma_view();
        }
        let entries = self.sessions.entries();
        let ghost e = entries@;
        let mut res: Vec<String> = Vec::new();
        let mut i: usize = 0;
        while i < entries.len()
            invariant
                i <= entries.len(),
                e == entries@,
                e == self.sessions.entries_seq(),
                forall|x: int| 0 <= x < e.len() ==> self@.sessions.contains_key(#[trigger] e[x].0@)
                    && self@.sessions[e[x].0@] == e[x].1@,
                forall|j: int| 0 <= j < res@.len() ==> manages_domain(self@.sessions, #[trigger] res@[j]@),
                forall|x: int, y: int|
                    #![trigger e[x].1.domains@[y]]
                    0 <= x < i && 0 <= y < e[x].1.domains@.len() ==> listed(res@, e[x].1.domains@[y].domain@),
                forall|a: int, b: int| 0 <= a < b < res@.len() ==> #[trigger] res@[a]@ != #[trigger] res@[b]@,
            decreases entries.len() - i,
        {
            let domains = &entries[i].1.domains;
            let mut y: usize = 0;
            while y < domains.len()
                invariant
                    i < entries.len(),
                    e == entries@,
                    domains@ == e[i as int].1.domains@,
                    y <= domains.len(),
                    self@.sessions.contains_key(e[i as int].0@),
                    self@.sessions[e[i as int].0@] == e[i as int].1@,
                    forall|j: int| 0 <= j < res@.len() ==> manages_domain(self@.sessions, #[trigger] res@[j]@),
                    forall|x: int, z: int|
                        #![trigger e[x].1.domains@[z]]
                        0 <= x < i && 0 <= z < e[x].1.domains@.len() ==> listed(res@, e[x].1.domains@[z].domain@),
                    forall|z: int| 0 <= z < y ==> listed(res@, #[trigger] domains@[z].domain@),
                    forall|a: int, b: int| 0 <= a < b < res@.len() ==> #[trigger] res@[a]@ != #[trigger] res@[b]@,
                decreases domains.len() - y,
            {
                let d = &domains[y].domain;
                proof {
                    let k = e[i as int].0@;
                    let sv = self@.sessions[k];
                    assert(sv.domains[y as int] == domains@[y as int]@);
                    assert(sv.domains[y as int].domain == d@);
                    assert(manages_domain(self@.sessions, d@));
                }
                let mut j: usize = 0;
                let mut seen = false;
                while j < res.len()
                    invariant
                        j <= res.len(),
                        !seen ==> forall|t: int| 0 <= t < j ==> res@[t]@ != d@,
                        seen ==> listed(res@, d@),
                    decreases res.len() - j,
                {
                    if res[j] == *d {
                        seen = true;
                    }
                    j = j + 1;
                }
                let ghost before = res@;
                if !seen {
                    let n = d.clone();
                    res.push(n);
                    assert(res@ == before.push(n));
                    assert(res@[res@.len() - 1]@ == d@);
                    assert forall|a: int, b: int| 0 <= a < b < res@.len() implies #[trigger] res@[a]@
                        != #[trigger] res@[b]@ by {
                        if b == res@.len() - 1 {
                            assert(res@[a] == before[a]);
                        } else {
                            assert(res@[a] == before[a] && res@[b] == before[b]);
                        }
                    }
                    assert forall|j2: int| 0 <= j2 < res@.len() implies manages_domain(
                        self@.sessions,
                        #[trigger] res@[j2]@,
                    ) by {
                        if j2 < before.len() {
                            assert(res@[j2] == before[j2]);
                        }
                    }
                    assert forall|x: int, z: int|
                        #![trigger e[x].1.domains@[z]]
                        0 <= x < i && 0 <= z < e[x].1.domains@.len() implies listed(res@, e[x].1.domains@[z].domain@) by {
                        lemma_listed_push(before, e[x].1.domains@[z].domain@, n);
                    }
                    assert forall|z: int| 0 <= z < y + 1 implies listed(res@, #[trigger] domains@[z].domain@) by {
                        if z < y {
                            lemma_listed_push(before, domains@[z].domain@, n);
                        } else {
                            assert(res@[res@.len() - 1]@ == domains@[z].domain@);
                        }
                    }
                }
                y = y + 1;
            }
            i = i + 1;
        }
        proof {
            assert forall|d: Seq<char>| manages_domain(self@.sessions, d) implies listed(res@, d) by {
                let (k, z) = choose|k: Seq<char>, z: int|
                    #![trigger self@.sessions[k].domains[z]]
                    self@.sessions.contains_key(k) && 0 <= z < self@.sessions[k].domains.len()
                        && self@.sessions[k].domains[z].domain == d;
                let x = choose|x: int| 0 <= x < e.len() && e[x].0@ == k;
                assert(self@.sessions[k] == e[x].1@);
                assert(self@.sessions[k].domains[z] == e[x].1.domains@[z]@);
                assert(e[x].1.domains@[z].domain@ == d);
            }
        }
        res
    }

    /// Stores a session under a name with the tunnel it is reached through;
    /// the first name stored becomes the main session.
    pub fn upsert_session(&mut self, name: String, session: SessionState, tunnel_url: String)
        requires
            old(self).wf(),
        ensures
            final(self).wf(),
            final(self)@ == upserted(old(self)@, name@, session@, tunnel_url@),
    {
        if self.main_session.is_none() {
            self.main_session = Some(name.clone());
        }
        self.sessions.insert(name, session);
        self.tunnel_url = Some(tunnel_url);
    }

    /// Deletes the session of a name; when it was the main session, the least
    /// remaining name becomes the main session.
    pub fn delete_session(&mut self, name: &str)
        requires
            old(self).wf(),
        ensures
            final(self).wf(),
            final(self)@ == deleted(old(self)@, name@),
    {
        let _ = self.sessions.remove(name);
        let is_main = match &self.main_session {
            Some(main) => str_eq(main.as_str(), name),
            None => false,
        };
        if is_main {
            let first = self.sessions.first_key();
            proof {
                match &first {
                    Some(k) => {
                        lemma_first_name(self.sessions@, k@);
                    },
                    None => {
                        assert(!(exists|k: Seq<char>| #[trigger] self.sessions@.contains_key(k)));
                    },
                }
            }
            self.main_session = first;
        }
    }
}


// ---------------------------------------------------------------------------
// Laws of storing and deleting sessions
// ---------------------------------------------------------------------------

/// A finite, non-empty map of sessions has a least name.
pub proof fn lemma_least_name_exists(m: Map<Seq<char>, SessionStateView>)
    requires
        m.dom().finite(),
        m.dom().len() > 0,
    ensures
        exists|k: Seq<char>|
            #[trigger] m.contains_key(k) && forall|q: Seq<char>| #[trigger] m.contains_key(q) ==> lex_le(k, q),
    decreases m.dom().len(),
{
    let x = m.dom().choose();
    let rest = m.remove(x);
    assert(rest.dom() =~= m.dom().remove(x));
    if rest.dom().len() == 0 {
        assert forall|q: Seq<char>| #[trigger] m.contains_key(q) implies lex_le(x, q) by {
            if q != x {
                assert(rest.dom().contains(q));
            }
            lemma_lex_le_total(x, x);
        }
    } else {
        lemma_least_name_exists(rest);
        let k = choose|k: Seq<char>|
            #[trigger] rest.contains_key(k) && forall|q: Seq<char>| #[trigger] rest.contains_key(q) ==> lex_le(k, q);
        lemma_lex_le_total(x, k);
        if lex_le(x, k) {
            assert forall|q: Seq<char>| #[trigger] m.contains_key(q) implies lex_le(x, q) by {
                if q != x {
                    assert(rest.contains_key(q));
                    lemma_lex_le_transitive(x, k, q);
                } else {
                    lemma_lex_le_total(x, x);
                }
            }
        } else {
            assert forall|q: Seq<char>| #[trigger] m.contains_key(q) implies lex_le(k, q) by {
                if q != x {
                    assert(rest.contains_key(q));
                }
            }
        }
    }
}

/// After a session is stored under a name, that name holds that session.
pub proof fn law_upsert_then_lookup(
    s: StateView,
    name: Seq<char>,
    session: SessionStateView,
    tunnel_url: Seq<char>,
)
    ensures
        upserted(s, name, session, tunnel_url).sessions.contains_key(name),
        upserted(s, name, session, tunnel_url).sessions[name] == session,
        upserted(s, name, session, tunnel_url).tunnel_url == Some(tunnel_url),
{
}

/// Storing a session leaves the sessions of other names as they were.
pub proof fn law_upsert_keeps_other_sessions(
    s: StateView,
    name: Seq<char>,
    session: SessionStateView,
    tunnel_url: Seq<char>,
    other: Seq<char>,
)
    requires
        other != name,
    ensures
        upserted(s, name, session, tunnel_url).sessions.contains_key(other)
            == s.sessions.contains_key(other),
        s.sessions.contains_key(other) ==> upserted(s, name, session, tunnel_url).sessions[other]
            == s.sessions[other],
{
}

/// The first session stored becomes the main session, and later ones never
/// replace it.
pub proof fn law_first_stored_session_stays_main(
    s: StateView,
    name: Seq<char>,
    session: SessionStateView,
    tunnel_url: Seq<char>,
)
    ensures
        s.main_session is None ==> upserted(s, name, session, tunnel_url).main_session == Some(name),
        s.main_session is Some ==> upserted(s, name, session, tunnel_url).main_session
            == s.main_session,
{
}

/// Deleting a session removes exactly that name.
pub proof fn law_delete_removes_only_that_session(s: StateView, name: Seq<char>, other: Seq<char>)
    ensures
        !deleted(s, name).sessions.contains_key(name),
        other != name ==> deleted(s, name).sessions.contains_key(other) == s.sessions.contains_key(
            other,
        ),
        other != name && s.sessions.contains_key(other) ==> deleted(s, name).sessions[other]
            == s.sessions[other],
{
}

/// Deleting the main session makes the least remaining name the main session;
/// deleting another session leaves the main session alone.
pub proof fn law_delete_moves_main_to_least_name(s: StateView, name: Seq<char>)
    requires
        s.sessions.dom().finite(),
    ensures
        s.main_session == Some(name) ==> match deleted(s, name).main_session {
            Some(k) => deleted(s, name).sessions.contains_key(k) && forall|q: Seq<char>|
                #[trigger] deleted(s, name).sessions.contains_key(q) ==> lex_le(k, q),
            None => deleted(s, name).sessions.dom().len() == 0,
        },
        s.main_session != Some(name) ==> deleted(s, name).main_session == s.main_session,
{
    let rest = s.sessions.remove(name);
    assert(rest.dom() =~= s.sessions.dom().remove(name));
    if s.main_session == Some(name) {
        if rest.dom().len() > 0 {
            lemma_least_name_exists(rest);
        } else {
            assert(!(exists|k: Seq<char>| #[trigger] rest.contains_key(k))) by {
                if exists|k: Seq<char>| #[trigger] rest.contains_key(k) {
                    let k = choose|k: Seq<char>| #[trigger] rest.contains_key(k);
                    assert(rest.dom().contains(k));
                }
            }
        }
    }
}

/// Deleting a session that was just stored under a new name gives back the
/// sessions as they were.
pub proof fn law_delete_undoes_upsert_of_new_name(
    s: StateView,
    name: Seq<char>,
    session: SessionStateView,
    tunnel_url: Seq<char>,
)
    requires
        !s.sessions.contains_key(name),
    ensures
        deleted(upserted(s, name, session, tunnel_url), name).sessions == s.sessions,
{
    assert(s.sessions.insert(name, session).remove(name) =~= s.sessions);
}

/// When the main session names a stored session, it still does after a
/// session is stored or deleted.
pub proof fn law_main_session_stays_stored(
    s: StateView,
    name: Seq<char>,
    session: SessionStateView,
    tunnel_url: Seq<char>,
)
    requires
        s.sessions.dom().finite(),
        main_session_is_stored(s),
    ensures
        main_session_is_stored(upserted(s, name, session, tunnel_url)),
        main_session_is_stored(deleted(s, name)),
{
    law_delete_moves_main_to_least_name(s, name);
}


// ---------------------------------------------------------------------------
// Session definitions, as the worker gets them
// ---------------------------------------------------------------------------

/// A service of a session definition: where it is reached.
#[derive(Clone, Debug)]
pub struct SessionService {
    pub name: String,
    pub location: String,
    pub rewrites: Option<Vec<Rewrite>>,
}

pub ghost struct SessionServiceView {
    pub name: Seq<char>,
    pub location: Seq<char>,
    pub rewrites: Option<Seq<RewriteView>>,
}

impl View for SessionService {
    type V = SessionServiceView;

    open spec fn view(&self) -> SessionServiceView {
        SessionServiceView {
            name: self.name@,
            location: self.location@,
            rewrites: rewrites_view(self.rewrites),
        }
    }
}

/// The definition of a session that is sent to the worker.
#[derive(Clone, Debug)]
pub struct SessionDefinition {
    pub services: Vec<SessionService>,
    pub domains: Vec<Domain>,
    pub cache_routes: Option<Vec<String>>,
}

pub ghost struct SessionDefinitionView {
    pub services: Seq<SessionServiceView>,
    pub domains: Seq<DomainView>,
    pub cache_routes: Option<Seq<Seq<char>>>,
}

/// The views of session services.
pub open spec fn session_services_view(s: Seq<SessionService>) -> Seq<SessionServiceView> {
    s.map_values(|x: SessionService| x@)
}

impl View for SessionDefinition {
    type V = SessionDefinitionView;

    open spec fn view(&self) -> SessionDefinitionView {
        SessionDefinitionView {
            services: session_services_view(self.services@),
            domains: domains_view(self.domains@),
            cache_routes: opt_strings_view(self.cache_routes),
        }
    }
}

/// The service of a definition that a local service stands for: its name,
/// the URL of its current target, and its rewrites.
pub open spec fn defined_service(s: LocalServiceView) -> SessionServiceView {
    SessionServiceView {
        name: s.config.name,
        location: url_for(s.config, s.current),
        rewrites: s.config.rewrites,
    }
}

/// The definition a local session stands for.
pub open spec fn definition_of(s: SessionStateView) -> SessionDefinitionView {
    SessionDefinitionView {
        services: s.services.map_values(|x: LocalServiceView| defined_service(x)),
        domains: s.domains,
        cache_routes: s.cache_routes,
    }
}

impl SessionDefinition {
    /// The definition a local session stands for: each service at the URL
    /// of its current target.
    pub fn from_session_state(session: &SessionState) -> (res: SessionDefinition)
        ensures
            res@ == definition_of(session@),
    {
        let ghost sv = services_view(session.services@);
        let mut services: Vec<SessionService> = Vec::new();
        let mut i: usize = 0;
        while i < session.services.len()
            invariant
                i <= session.services.len(),
                services.len() == i,
                sv == services_view(session.services@),
                session_services_view(services@) == sv.map_values(
                    |x: LocalServiceView| defined_service(x),
                ).take(i as int),
            decreases session.services.len() - i,
        {
            let service = &session.services[i];
            services.push(
                SessionService {
                    name: service.config.name.clone(),
                    location: service.current_url(),
                    rewrites: copy_rewrites(&service.config.rewrites),
                },
            );
            assert(session_services_view(services@) =~= sv.map_values(
                |x: LocalServiceView| defined_service(x),
            ).take(i + 1));
            i = i + 1;
        }
        assert(sv.map_values(|x: LocalServiceView| defined_service(x)).take(
            session.services.len() as int,
        ) =~= sv.map_values(|x: LocalServiceView| defined_service(x)));
        SessionDefinition {
            services,
            domains: copy_domains(&session.domains),
            cache_routes: copy_opt_strings(&session.cache_routes),
        }
    }
}

/// A session as the worker stores it: its token and definition.
#[derive(Clone, Debug)]
pub struct Session {
    pub session_token: String,
    pub services: Vec<SessionService>,
    pub domains: Vec<Domain>,
    pub cache_routes: Option<Vec<String>>,
}

} // verus!
