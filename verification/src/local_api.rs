use vstd::prelude::*;

use crate::state::Domain;
use crate::text::push_char;

verus! {

/// The DNS name the local server answers for a domain of a session:
/// `{session_name}.{domain}`.
pub open spec fn session_dns_name(session_name: Seq<char>, domain: Seq<char>) -> Seq<char> {
    session_name + seq!['.'] + domain
}

/// The DNS names of a session, one for each of its domains, in the order of
/// the domains: registered when the session is stored, removed when it is
/// deleted.
pub fn session_dns_records(session_name: &str, domains: &Vec<Domain>) -> (res: Vec<String>)
    ensures
        res@.len() == domains@.len(),
        forall|i: int|
            0 <= i < domains@.len() ==> #[trigger] res@[i]@ == session_dns_name(
                session_name@,
                domains@[i].domain@,
            ),
{
    let mut out: Vec<String> = Vec::new();
    let mut i: usize = 0;
    while i < domains.len()
        invariant
            i <= domains.len(),
            out@.len() == i,
            forall|j: int|
                0 <= j < i ==> #[trigger] out@[j]@ == session_dns_name(
                    session_name@,
                    domains@[j].domain@,
                ),
        decreases domains.len() - i,
    {
        let mut name = session_name.to_string();
        push_char(&mut name, '.');
        name.append(domains[i].domain.as_str());
        out.push(name);
        i = i + 1;
    }
    out
}

/// The HTTP status the local server answers a failed request to the worker
/// for a tunneled session with: 409 when the worker answered 409, 500
/// otherwise (also when the worker could not be reached).
pub fn tunneled_worker_error_status(worker_status: Option<u16>) -> (res: u16)
    ensures
        res == (if worker_status == Some(409u16) {
            409u16
        } else {
            500u16
        }),
{
    match worker_status {
        Some(409) => 409,
        _ => 500,
    }
}

/// The status and message the local server answers a request to delete a
/// session with, given whether the session was found and deleted or the
/// error's text: 204 without a message when it was deleted; 404 "Session
/// '{name}' not found"; 500 "Failed to find session: {error}".
pub fn local_delete_answer(session_name: &str, outcome: &Result<bool, String>) -> (res: (
    u16,
    Option<String>,
))
    ensures
        match outcome {
            Ok(true) => res.0 == 204 && res.1 is None,
            Ok(false) => res.0 == 404 && (res.1 matches Some(m) && m@ == "Session '"@ + session_name@
                + "' not found"@),
            Err(e) => res.0 == 500 && (res.1 matches Some(m) && m@ == "Failed to find session: "@
                + e@),
        },
{
    match outcome {
        Ok(true) => (204, None),
        Ok(false) => {
            let mut m = "Session '".to_string();
            m.append(session_name);
            m.append("' not found");
            (404, Some(m))
        },
        Err(e) => {
            let mut m = "Failed to find session: ".to_string();
            m.append(e.as_str());
            (500, Some(m))
        },
    }
}

} // verus!
