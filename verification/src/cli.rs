use vstd::prelude::*;

pub mod commands;
pub mod local_server;
pub mod state;

verus! {

/// Why a command of the command-line tool could not go on.
#[derive(Clone, Debug)]
pub enum CliError {
    /// No service of the session has this name.
    ServiceNotFound(String),
    /// No session was named and none is the main session.
    NoDefaultSession,
    /// No session has this name.
    SessionNotFound(String),
    /// The main session cannot be deleted.
    MainSessionCannotBeDeleted,
    /// The configuration names another worker than the running instance.
    WorkerMismatch { config_worker: String, state_worker: String },
    /// The running instance does not manage these domains.
    UnmanagedDomains(Vec<String>),
}

} // verus!
