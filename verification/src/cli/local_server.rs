use vstd::prelude::*;

use crate::urls::{serialize_url, url_serialization};

verus! {

/// The address the local server listens at: `http://localhost:80`.
pub open spec fn local_server_address() -> Seq<char> {
    seq!['h', 't', 't', 'p', ':', '/', '/', 'l', 'o', 'c', 'a', 'l', 'h', 'o', 's', 't', ':', '8', '0']
}

/// The URL of the local server: its address parsed by the `url` crate and
/// written as that crate writes it; nothing if it did not parse.
pub fn url() -> (res: Option<String>)
    ensures
        match res {
            Some(u) => url_serialization(local_server_address()) == Some(u@),
            None => url_serialization(local_server_address()) is None,
        },
{
    let address = "http://localhost:80";
    proof {
        reveal_strlit("http://localhost:80");
    }
    assert(address@ =~= local_server_address());
    serialize_url(address)
}

/// How many times the local server is checked again before giving up.
pub const MAX_START_ATTEMPTS: u8 = 10;

/// What to do while waiting for a freshly started local server.
#[derive(Clone, Copy, Debug, PartialEq, Eq, Structural)]
pub enum StartStep {
    /// The server answers: done.
    Ready,
    /// Wait a second, then check again; this is the given attempt.
    Retry { attempts: u8 },
    /// The server never answered: fail.
    Unreachable,
}

/// The next step of the wait, from whether the server answered and how many
/// attempts were made.
pub open spec fn start_step(reachable: bool, attempts: u8) -> StartStep {
    if reachable {
        StartStep::Ready
    } else if attempts < MAX_START_ATTEMPTS {
        StartStep::Retry { attempts: (attempts + 1) as u8 }
    } else {
        StartStep::Unreachable
    }
}

/// The next step of the wait for the local server (see `start_step`).
pub fn next_start_step(reachable: bool, attempts: u8) -> (res: StartStep)
    ensures
        res == start_step(reachable, attempts),
{
    if reachable {
        StartStep::Ready
    } else if attempts < MAX_START_ATTEMPTS {
        StartStep::Retry { attempts: attempts + 1 }
    } else {
        StartStep::Unreachable
    }
}

/// The number of checks before the wait ends, when the server never answers
/// and `attempts` were made.
pub open spec fn checks_until_given_up(attempts: u8) -> nat
    decreases MAX_START_ATTEMPTS - attempts,
{
    match start_step(false, attempts) {
        StartStep::Retry { attempts: next } => if next > attempts {
            1 + checks_until_given_up(next)
        } else {
            0
        },
        _ => 1,
    }
}

/// Each retry counts one more attempt, and a server that never answers is
/// given up after at most ten retries: eleven checks from the start.
pub proof fn law_wait_for_local_server_is_bounded(attempts: u8)
    requires
        attempts <= MAX_START_ATTEMPTS,
    ensures
        start_step(false, attempts) matches StartStep::Retry { attempts: next } ==> next == attempts
            + 1 && next <= MAX_START_ATTEMPTS,
        checks_until_given_up(attempts) == MAX_START_ATTEMPTS - attempts + 1,
    decreases MAX_START_ATTEMPTS - attempts,
{
    if attempts < MAX_START_ATTEMPTS {
        law_wait_for_local_server_is_bounded((attempts + 1) as u8);
    }
}

} // verus!
