use vstd::prelude::*;

use crate::text::{chars_of, has_prefix, starts_with};

verus! {

/// Arguments of `linkup stop`.
#[derive(Clone, Debug)]
pub struct Args {}

/// The text `.env`.
pub open spec fn env_prefix() -> Seq<char> {
    seq!['.', 'e', 'n', 'v']
}

/// Whether a file of a service directory is an environment file, whose Linkup
/// part is cleared on stop: its name starts with `.env`.
pub fn is_env_file(file_name: &str) -> (res: bool)
    ensures
        res == has_prefix(file_name@, env_prefix()),
{
    let prefix: Vec<char> = vec!['.', 'e', 'n', 'v'];
    assert(prefix@ =~= env_prefix());
    starts_with(&chars_of(file_name), &prefix)
}

} // verus!
