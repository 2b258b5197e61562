use vstd::prelude::*;

verus! {

/// Arguments of `linkup server`.
#[derive(Clone, Debug)]
pub struct Args {
    /// Directory of the certificates the local server uses for HTTPS.
    pub certs_dir: String,
}

} // verus!
