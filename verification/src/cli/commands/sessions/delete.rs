use vstd::prelude::*;

use crate::cli::CliError;
use crate::state::{SessionState, State};

verus! {

/// Arguments of `linkup sessions delete`.
#[derive(Clone, Debug)]
pub struct Args {
    /// Name of the session to delete.
    pub name: String,
}

/// Checks that a session may be deleted and gives a copy of it: the main
/// session cannot be deleted, and the session must exist.
pub fn session_to_delete(state: &State, name: &String) -> (res: Result<SessionState, CliError>)
    requires
        state.wf(),
    ensures
        match res {
            Ok(s) => state@.main_session != Some(name@) && state@.sessions.contains_key(name@) && s@
                == state@.sessions[name@],
            Err(CliError::MainSessionCannotBeDeleted) => state@.main_session == Some(name@),
            Err(CliError::SessionNotFound(n)) => n@ == name@ && state@.main_session != Some(name@)
                && !state@.sessions.contains_key(name@),
            Err(_) => false,
        },
{
    let is_main = match &state.main_session {
        Some(main) => *main == *name,
        None => false,
    };
    if is_main {
        return Err(CliError::MainSessionCannotBeDeleted);
    }
    match state.sessions.get(name.as_str()) {
        Some(session) => Ok(session.copy()),
        None => Err(CliError::SessionNotFound(name.clone())),
    }
}

} // verus!
