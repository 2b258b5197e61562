use vstd::prelude::*;

use crate::state::{services_view, SessionState, SessionStateView, State};
use crate::text::{chars_of, ends_with, has_prefix, has_suffix, starts_with, string_of};

verus! {

/// Arguments of `linkup start`.
#[derive(Clone, Debug)]
pub struct Args {}

/// An entry to restore holds the stored session of the given name.
pub open spec fn restored_as(
    state: crate::state::StateView,
    entry: (Option<String>, SessionState),
    name: Seq<char>,
) -> bool {
    match entry.0 {
        Some(n) => n@ == name && state.sessions.contains_key(name) && entry.1@ == state.sessions[name],
        None => false,
    }
}

/// The sessions to bring back on start: every stored session under its name,
/// in the order of the names; none when there is no state or it has no
/// session (a session is then made from the configuration).
pub fn sessions_to_restore(state: Option<&State>) -> (res: Option<Vec<(Option<String>, SessionState)>>)
    requires
        state matches Some(s) ==> s.wf(),
    ensures
        match state {
            Some(s) if s.sessions.names().len() > 0 => res matches Some(v) && v@.len()
                == s.sessions.names().len() && forall|i: int|
                0 <= i < v@.len() ==> restored_as(s@, #[trigger] v@[i], s.sessions.names()[i]),
            _ => res is None,
        },
{
    match state {
        None => None,
        Some(s) => {
            proof {
                s.sessions.lemma_view();
            }
            if s.sessions.len() == 0 {
                return None;
            }
            let entries = s.sessions.entries();
            let mut out: Vec<(Option<String>, SessionState)> = Vec::new();
            let mut i: usize = 0;
            while i < entries.len()
                invariant
                    i <= entries.len(),
                    entries@ == s.sessions.entries_seq(),
                    s.sessions.names().len() == entries@.len(),
                    forall|x: int| 0 <= x < entries@.len() ==> s.sessions.names()[x] == #[trigger] entries@[x].0@,
                    forall|x: int|
                        0 <= x < entries@.len() ==> s@.sessions.contains_key(#[trigger] entries@[x].0@)
                            && s@.sessions[entries@[x].0@] == entries@[x].1@,
                    out@.len() == i,
                    forall|x: int|
                        0 <= x < i ==> restored_as(s@, #[trigger] out@[x], s.sessions.names()[x]),
                decreases entries.len() - i,
            {
                let name = entries[i].0.clone();
                let session = entries[i].1.copy();
                out.push((Some(name), session));
                proof {
                    assert(entries@[i as int].0@ == s.sessions.names()[i as int]);
                }
                i = i + 1;
            }
            Some(out)
        },
    }
}

/// The directories and configuration paths of the services of a session
/// that name a directory, in the order of the services: where the
/// environment files are written on start and cleared on stop.
pub fn service_env_locations(session: &SessionState) -> (res: Vec<(String, String)>)
    ensures
        res@.map_values(|p: (String, String)| (p.0@, p.1@)) == env_locations(session@),
{
    let ghost sv = services_view(session.services@);
    let mut out: Vec<(String, String)> = Vec::new();
    let mut i: usize = 0;
    while i < session.services.len()
        invariant
            i <= session.services.len(),
            sv == services_view(session.services@),
            out@.map_values(|p: (String, String)| (p.0@, p.1@)) == env_locations_of(
                sv.take(i as int),
                session.config_path@,
            ),
        decreases session.services.len() - i,
    {
        let ghost before = out@.map_values(|p: (String, String)| (p.0@, p.1@));
        match &session.services[i].config.directory {
            Some(directory) => {
                out.push((directory.clone(), session.config_path.clone()));
            },
            None => {},
        }
        proof {
            let t = sv.take(i + 1);
            assert(t.drop_last() =~= sv.take(i as int));
            assert(t.last() == sv[i as int]);
            assert(out@.map_values(|p: (String, String)| (p.0@, p.1@)) =~= env_locations_of(
                t,
                session.config_path@,
            ));
        }
        i = i + 1;
    }
    assert(sv.take(session.services.len() as int) =~= sv);
    out
}

/// The directory and configuration path of each service that names a
/// directory.
pub open spec fn env_locations_of(
    services: Seq<crate::state::LocalServiceView>,
    config_path: Seq<char>,
) -> Seq<(Seq<char>, Seq<char>)>
    decreases services.len(),
{
    if services.len() == 0 {
        Seq::empty()
    } else {
        env_locations_of(services.drop_last(), config_path) + match services.last().config.directory {
            Some(d) => seq![(d, config_path)],
            None => Seq::empty(),
        }
    }
}

/// The environment file locations of a session.
pub open spec fn env_locations(session: SessionStateView) -> Seq<(Seq<char>, Seq<char>)> {
    env_locations_of(session.services, session.config_path)
}

/// The text `.env.`.
pub open spec fn dev_env_prefix() -> Seq<char> {
    seq!['.', 'e', 'n', 'v', '.']
}

/// The text `.linkup`.
pub open spec fn linkup_suffix() -> Seq<char> {
    seq!['.', 'l', 'i', 'n', 'k', 'u', 'p']
}

/// Whether a file of a service directory is a Linkup environment file: its
/// name starts with `.env.` and ends with `.linkup`.
pub fn is_dev_env_file(file_name: &str) -> (res: bool)
    ensures
        res == (has_suffix(file_name@, linkup_suffix()) && has_prefix(file_name@, dev_env_prefix())),
{
    let name = chars_of(file_name);
    let suffix: Vec<char> = vec!['.', 'l', 'i', 'n', 'k', 'u', 'p'];
    let prefix: Vec<char> = vec!['.', 'e', 'n', 'v', '.'];
    assert(suffix@ =~= linkup_suffix());
    assert(prefix@ =~= dev_env_prefix());
    ends_with(&name, &suffix) && starts_with(&name, &prefix)
}

/// The name of the environment file a Linkup environment file is written to:
/// its name without `.linkup` (the file stem).
pub fn env_file_name(dev_env_file_name: &str) -> (res: String)
    requires
        has_suffix(dev_env_file_name@, linkup_suffix()),
    ensures
        res@ == dev_env_file_name@.take(dev_env_file_name@.len() - 7),
{
    let name = chars_of(dev_env_file_name);
    let keep = name.len() - 7;
    let mut out: Vec<char> = Vec::new();
    let mut i: usize = 0;
    while i < keep
        invariant
            keep == name.len() - 7,
            i <= keep,
            out@ == name@.take(i as int),
        decreases keep - i,
    {
        out.push(name[i]);
        assert(out@ =~= name@.take(i + 1));
        i = i + 1;
    }
    string_of(&out)
}

/// The services that name a directory, in order.
pub open spec fn with_directory(services: Seq<crate::state::LocalServiceView>) -> Seq<
    crate::state::LocalServiceView,
> {
    services.filter(|s: crate::state::LocalServiceView| s.config.directory is Some)
}

/// Every service that names a directory gives one location, its directory
/// with the configuration path, in the order of the services, and no other
/// service gives one.
pub proof fn law_every_service_directory_is_listed(
    services: Seq<crate::state::LocalServiceView>,
    config_path: Seq<char>,
)
    ensures
        env_locations_of(services, config_path).len() == with_directory(services).len(),
        forall|i: int|
            0 <= i < with_directory(services).len() ==> #[trigger] env_locations_of(
                services,
                config_path,
            )[i] == (with_directory(services)[i].config.directory->0, config_path),
    decreases services.len(),
{
    if services.len() > 0 {
        law_every_service_directory_is_listed(services.drop_last(), config_path);
        reveal_with_fuel(Seq::filter, 2);
        assert(with_directory(services) == {
            let rest = with_directory(services.drop_last());
            if services.last().config.directory is Some {
                rest.push(services.last())
            } else {
                rest
            }
        });
    }
}

/// A further service leaves the locations of the earlier ones as they were,
/// and adds its own after them when it names a directory.
pub proof fn law_a_further_service_keeps_earlier_locations(
    services: Seq<crate::state::LocalServiceView>,
    further: crate::state::LocalServiceView,
    config_path: Seq<char>,
)
    ensures
        env_locations_of(services, config_path).is_prefix_of(
            env_locations_of(services.push(further), config_path),
        ),
        env_locations_of(services.push(further), config_path).len() == env_locations_of(
            services,
            config_path,
        ).len() + if further.config.directory is Some {
            1int
        } else {
            0int
        },
{
    assert(services.push(further).drop_last() =~= services);
    let before = env_locations_of(services, config_path);
    let after = env_locations_of(services.push(further), config_path);
    assert(after.subrange(0, before.len() as int) =~= before);
}

} // verus!
