use vstd::prelude::*;

pub mod create;
pub mod delete;

verus! {

/// Arguments of `linkup sessions`.
#[derive(Clone, Debug)]
pub struct Args {
    pub command: Command,
}

/// The subcommands of `linkup sessions`.
#[derive(Clone, Debug)]
pub enum Command {
    /// Create an additional tunneled session.
    Create(create::Args),
    /// Create a preview session.
    CreatePreview,
    /// Delete an additional tunneled session.
    Delete(delete::Args),
}

} // verus!
