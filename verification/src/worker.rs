use vstd::prelude::*;

use crate::state::{copy_rewrites, Session, SessionService, SessionServiceView};
use crate::urls::{host_of, serialize_url, url_host, url_serialization};
use crate::text::{chars_eq, chars_of, has_prefix, replace_all, replace_str, starts_with, str_eq};

verus! {

/// Why the session registry of the worker could not serve a request.
#[derive(Clone, Debug)]
pub enum SessionRegistryError {
    Read(String),
    Write(String),
    InvalidSession(String),
    EmptySessionName,
    SessionNameConflict,
    NoSessionForRequest(String),
    /// No session is stored under the name to delete.
    SessionNotFound,
    /// The session to delete has another token.
    SessionTokenMismatch,
}

/// A name already in use may only be taken again by a session with the same
/// token.
pub fn validate_name_reuse(existing: Option<&Session>, incoming: &Session) -> (res: Result<
    (),
    SessionRegistryError,
>)
    ensures
        match existing {
            Some(e) if e.session_token@ != incoming.session_token@ => res matches Err(
                SessionRegistryError::SessionNameConflict,
            ),
            _ => res is Ok,
        },
{
    match existing {
        Some(e) => {
            if e.session_token != incoming.session_token {
                Err(SessionRegistryError::SessionNameConflict)
            } else {
                Ok(())
            }
        },
        None => Ok(()),
    }
}

/// Whether a session may be stored under a name, given the session stored
/// there now: the name must not be empty, and an existing session under it
/// must have the same token.
pub fn check_upsert(name: &str, existing: Option<&Session>, incoming: &Session) -> (res: Result<
    (),
    SessionRegistryError,
>)
    ensures
        name@.len() == 0 ==> res matches Err(SessionRegistryError::EmptySessionName),
        name@.len() > 0 ==> match existing {
            Some(e) if e.session_token@ != incoming.session_token@ => res matches Err(
                SessionRegistryError::SessionNameConflict,
            ),
            _ => res is Ok,
        },
{
    if name.is_empty() {
        return Err(SessionRegistryError::EmptySessionName);
    }
    validate_name_reuse(existing, incoming)
}

/// What the registry does next while it looks for the session that serves a
/// request, trying the candidate names in order.
#[derive(Clone, Debug)]
pub enum LookupStep {
    /// Read the session stored under the candidate name at this index.
    Read { index: usize },
    /// The session stored under this name serves the request.
    Found { name: String, session: Session },
    /// No candidate name holds a session.
    NotFound(SessionRegistryError),
}

/// The first step of a lookup: read the first candidate name, or fail with
/// `NoSessionForRequest` carrying the request's URL when there is none.
pub fn first_lookup_step(url: &str, names: &Vec<String>) -> (res: LookupStep)
    ensures
        names@.len() > 0 ==> res == (LookupStep::Read { index: 0 }),
        names@.len() == 0 ==> (res matches LookupStep::NotFound(
            SessionRegistryError::NoSessionForRequest(u),
        ) && u@ == url@),
{
    if names.len() > 0 {
        LookupStep::Read { index: 0 }
    } else {
        LookupStep::NotFound(SessionRegistryError::NoSessionForRequest(url.to_string()))
    }
}

/// The step after the candidate name at `index` was read: a stored session
/// ends the lookup under that name; otherwise the next name is read, and after
/// the last one the lookup fails with `NoSessionForRequest` and the URL.
pub fn next_lookup_step(url: &str, names: &Vec<String>, index: usize, found: Option<Session>) -> (res:
    LookupStep)
    requires
        index < names@.len(),
    ensures
        found is Some ==> (res matches LookupStep::Found { name, session } && name@
            == names@[index as int]@ && session == found->0),
        found is None && index + 1 < names@.len() ==> res == (LookupStep::Read {
            index: (index + 1) as usize,
        }),
        found is None && index + 1 == names@.len() ==> (res matches LookupStep::NotFound(
            SessionRegistryError::NoSessionForRequest(u),
        ) && u@ == url@),
{
    match found {
        Some(session) => LookupStep::Found { name: names[index].clone(), session },
        None => {
            if index < names.len() - 1 {
                LookupStep::Read { index: index + 1 }
            } else {
                LookupStep::NotFound(SessionRegistryError::NoSessionForRequest(url.to_string()))
            }
        },
    }
}

/// How long a stored session lives without being stored again: seven days,
/// in seconds (60 * 60 * 24 * 7).
pub const SESSION_TTL_SECONDS: u64 = 604800;

/// What the registry does next while it stores a session under a name.
#[derive(Clone, Debug)]
pub enum UpsertStep {
    /// Read the session stored under the name now.
    ReadExisting,
    /// Write the session under the name, to expire after `ttl_seconds`.
    Write { ttl_seconds: u64 },
    /// Refuse to store the session.
    Refuse(SessionRegistryError),
}

/// The first step of storing a session: an empty name is refused before
/// anything is read; otherwise the session stored under the name is read.
pub fn begin_upsert(name: &str) -> (res: UpsertStep)
    ensures
        name@.len() == 0 ==> res matches UpsertStep::Refuse(SessionRegistryError::EmptySessionName),
        name@.len() > 0 ==> res matches UpsertStep::ReadExisting,
{
    if name.is_empty() {
        UpsertStep::Refuse(SessionRegistryError::EmptySessionName)
    } else {
        UpsertStep::ReadExisting
    }
}

/// The step after the session stored under the name was read: a session
/// with another token keeps the name, and the new one is refused; otherwise
/// the new session is written, to expire after `SESSION_TTL_SECONDS`.
pub fn after_existing_read(existing: Option<&Session>, incoming: &Session) -> (res: UpsertStep)
    ensures
        match existing {
            Some(e) if e.session_token@ != incoming.session_token@ => res matches UpsertStep::Refuse(
                SessionRegistryError::SessionNameConflict,
            ),
            _ => res matches UpsertStep::Write { ttl_seconds } && ttl_seconds == SESSION_TTL_SECONDS,
        },
{
    match validate_name_reuse(existing, incoming) {
        Ok(()) => UpsertStep::Write { ttl_seconds: SESSION_TTL_SECONDS },
        Err(e) => UpsertStep::Refuse(e),
    }
}

/// How many animal names are tried before six random characters are.
pub const ANIMAL_NAME_ATTEMPTS: u32 = 20;

/// Where the next candidate name for a tunneled session comes from.
#[derive(Clone, Copy, Debug, PartialEq, Eq, Structural)]
pub enum NameSource {
    /// A random animal name.
    Animal,
    /// Six random characters.
    SixChars,
}

/// The source of the next candidate name, and the number of animal names
/// tried with it: animal names first, twenty at most, then six random
/// characters.
pub fn next_name_source(animal_attempts: u32) -> (res: (NameSource, u32))
    ensures
        animal_attempts < ANIMAL_NAME_ATTEMPTS ==> res == (NameSource::Animal, (animal_attempts
            + 1) as u32),
        animal_attempts >= ANIMAL_NAME_ATTEMPTS ==> res == (NameSource::SixChars, animal_attempts),
{
    if animal_attempts < ANIMAL_NAME_ATTEMPTS {
        (NameSource::Animal, animal_attempts + 1)
    } else {
        (NameSource::SixChars, animal_attempts)
    }
}

// ---------------------------------------------------------------------------
// Storing sessions: what the handlers decide
// ---------------------------------------------------------------------------

/// The HTTP status a failed store of a session is answered with: 409 when the
/// name belongs to a session with another token, 500 otherwise.
pub fn upsert_error_status(error: &SessionRegistryError) -> (res: u16)
    ensures
        res == (if error is SessionNameConflict {
            409u16
        } else {
            500u16
        }),
{
    match error {
        SessionRegistryError::SessionNameConflict => 409,
        _ => 500,
    }
}

/// The status the worker answers a request to delete a session with, and
/// its fixed message where it has one: 204 when the session was deleted; 404
/// "Session not found"; 409 "Session token does not match"; 500 for any other
/// failure, whose message is the error's text.
pub fn delete_answer(res: &Result<(), SessionRegistryError>) -> (answer: (u16, Option<&'static str>))
    ensures
        match res {
            Ok(()) => answer == (204u16, None::<&'static str>),
            Err(SessionRegistryError::SessionNotFound) => answer == (404u16, Some("Session not found")),
            Err(SessionRegistryError::SessionTokenMismatch) => answer == (409u16, Some(
                "Session token does not match",
            )),
            Err(_) => answer == (500u16, None::<&'static str>),
        },
{
    match res {
        Ok(()) => (204, None),
        Err(SessionRegistryError::SessionNotFound) => (404, Some("Session not found")),
        Err(SessionRegistryError::SessionTokenMismatch) => (409, Some("Session token does not match")),
        Err(_) => (500, None),
    }
}

/// The host name `localhost`.
pub open spec fn localhost_name() -> Seq<char> {
    seq!['l', 'o', 'c', 'a', 'l', 'h', 'o', 's', 't']
}

/// Whether a service location is a URL whose host is `localhost`.
pub open spec fn is_local_location(location: Seq<char>) -> bool {
    url_host(location) == Some(localhost_name())
}

/// Whether a service location points to this machine (see
/// `is_local_location`).
pub fn points_to_localhost(location: &str) -> (res: bool)
    ensures
        res == is_local_location(location@),
{
    match host_of(location) {
        Some(host) => {
            let name: Vec<char> = vec!['l', 'o', 'c', 'a', 'l', 'h', 'o', 's', 't'];
            assert(name@ =~= localhost_name());
            chars_eq(&chars_of(host.as_str()), &name)
        },
        None => false,
    }
}

/// Whether a preview session may be stored: none of its services points to
/// localhost.
pub fn preview_services_allowed(services: &Vec<SessionService>) -> (res: bool)
    ensures
        res == forall|i: int|
            0 <= i < services@.len() ==> !is_local_location(#[trigger] services@[i].location@),
{
    let mut i: usize = 0;
    while i < services.len()
        invariant
            i <= services.len(),
            forall|j: int| 0 <= j < i ==> !is_local_location(#[trigger] services@[j].location@),
        decreases services.len() - i,
    {
        if points_to_localhost(services[i].location.as_str()) {
            return false;
        }
        i = i + 1;
    }
    true
}

/// The answer to a preview session with a service that points to localhost:
/// 400 with this message, and nothing is stored.
pub open spec fn preview_localhost_refusal() -> (u16, &'static str) {
    (400u16, "Preview session cannot contain services pointing to localhost")
}

/// How a request to store a preview session is refused before anything is
/// stored: with 400 and a message when one of its services points to
/// localhost; not at all otherwise.
pub fn preview_refusal(services: &Vec<SessionService>) -> (res: Option<(u16, &'static str)>)
    ensures
        res is Some <==> exists|i: int|
            0 <= i < services@.len() && is_local_location(#[trigger] services@[i].location@),
        res matches Some(r) ==> r == preview_localhost_refusal(),
{
    if preview_services_allowed(services) {
        None
    } else {
        Some((400, "Preview session cannot contain services pointing to localhost"))
    }
}

/// Whether one of the services points to localhost.
pub open spec fn has_local_service(services: Seq<SessionService>) -> bool {
    exists|i: int| 0 <= i < services.len() && is_local_location(#[trigger] services[i].location@)
}

/// The service as a tunneled session stores it: a service that points to
/// localhost is reached through the tunnel instead, at the tunnel's URL as
/// the `url` crate writes it.
pub open spec fn through_tunnel(s: SessionServiceView, tunnel_url: Seq<char>) -> SessionServiceView {
    SessionServiceView {
        name: s.name,
        location: if is_local_location(s.location) && url_serialization(tunnel_url) is Some {
            url_serialization(tunnel_url)->0
        } else {
            s.location
        },
        rewrites: s.rewrites,
    }
}

/// The services of a tunneled session, each service that points to
/// localhost pointed at the tunnel instead, in the same order. The tunnel's
/// URL must parse when a service points to localhost.
pub fn route_local_services_to_tunnel(services: &Vec<SessionService>, tunnel_url: &str) -> (res:
    Vec<SessionService>)
    requires
        has_local_service(services@) ==> url_serialization(tunnel_url@) is Some,
    ensures
        res@.len() == services@.len(),
        forall|i: int|
            0 <= i < services@.len() ==> #[trigger] res@[i]@ == through_tunnel(
                services@[i]@,
                tunnel_url@,
            ),
{
    let tunnel = serialize_url(tunnel_url);
    let mut out: Vec<SessionService> = Vec::new();
    let mut i: usize = 0;
    while i < services.len()
        invariant
            i <= services.len(),
            out@.len() == i,
            tunnel matches Some(t) ==> url_serialization(tunnel_url@) == Some(t@),
            tunnel is None ==> url_serialization(tunnel_url@) is None,
            forall|j: int|
                0 <= j < i ==> #[trigger] out@[j]@ == through_tunnel(services@[j]@, tunnel_url@),
        decreases services.len() - i,
    {
        let s = &services[i];
        let location = if points_to_localhost(s.location.as_str()) {
            match &tunnel {
                Some(t) => t.clone(),
                None => s.location.clone(),
            }
        } else {
            s.location.clone()
        };
        out.push(SessionService { name: s.name.clone(), location, rewrites: copy_rewrites(&s.rewrites) });
        i = i + 1;
    }
    out
}

/// The services of a tunneled session as they are stored (see
/// `route_local_services_to_tunnel`); nothing when a service points to
/// localhost and the tunnel's URL does not parse.
pub fn tunneled_services(services: &Vec<SessionService>, tunnel_url: &str) -> (res: Option<
    Vec<SessionService>,
>)
    ensures
        res is None <==> (has_local_service(services@) && url_serialization(tunnel_url@) is None),
        res matches Some(v) ==> v@.len() == services@.len() && forall|i: int|
            0 <= i < services@.len() ==> #[trigger] v@[i]@ == through_tunnel(
                services@[i]@,
                tunnel_url@,
            ),
{
    match serialize_url(tunnel_url) {
        Some(_) => Some(route_local_services_to_tunnel(services, tunnel_url)),
        None => {
            if preview_services_allowed(services) {
                Some(route_local_services_to_tunnel(services, tunnel_url))
            } else {
                None
            }
        },
    }
}

// ---------------------------------------------------------------------------
// Authenticating requests to the worker's own API
// ---------------------------------------------------------------------------

/// What the `x-linkup-version` header of a request says, as the version
/// parser reads it.
#[derive(Clone, Copy, Debug, PartialEq, Eq, Structural)]
pub enum VersionHeader {
    Missing,
    /// The header is not a version.
    Invalid,
    /// A version, with whether it is older than the oldest supported client
    /// and whether it is of the beta channel.
    Parsed { older_than_supported: bool, beta: bool },
}

/// The `authorization` header of a request.
#[derive(Clone, Debug)]
pub enum AuthorizationHeader {
    Missing,
    /// The value is not visible ASCII text.
    Unreadable,
    Text(String),
}

/// Why a request to the worker's API was refused; each is answered with 401.
#[derive(Clone, Copy, Debug, PartialEq, Eq, Structural)]
pub enum AuthRejection {
    MissingVersion,
    InvalidVersion,
    OutdatedClient,
    MissingAuthorization,
    UnreadableAuthorization,
    WrongToken,
}

impl AuthRejection {
    /// The body of the 401 answer, where there is one.
    pub fn message(&self) -> (res: Option<&'static str>)
        ensures
            match *self {
                AuthRejection::MissingVersion => res == Some(
                    "No x-linkup-version header, please upgrade your Linkup CLI.",
                ),
                AuthRejection::InvalidVersion => res == Some("Invalid x-linkup-version header."),
                AuthRejection::OutdatedClient => res == Some(
                    "Your Linkup CLI is outdated, please upgrade to the latest version.",
                ),
                AuthRejection::MissingAuthorization => res == Some("Missing authorization header."),
                _ => res is None,
            },
    {
        match self {
            AuthRejection::MissingVersion => Some(
                "No x-linkup-version header, please upgrade your Linkup CLI.",
            ),
            AuthRejection::InvalidVersion => Some("Invalid x-linkup-version header."),
            AuthRejection::OutdatedClient => Some(
                "Your Linkup CLI is outdated, please upgrade to the latest version.",
            ),
            AuthRejection::MissingAuthorization => Some("Missing authorization header."),
            _ => None,
        }
    }
}

/// The paths of the worker's own API start with `/linkup`.
pub open spec fn api_prefix() -> Seq<char> {
    seq!['/', 'l', 'i', 'n', 'k', 'u', 'p']
}

/// The text `Bearer `, which is removed from the authorization header
/// wherever it occurs before the token is compared.
pub open spec fn bearer() -> Seq<char> {
    seq!['B', 'e', 'a', 'r', 'e', 'r', ' ']
}

/// Whether a request is let through to the handlers: requests outside the
/// API always are; an API request needs a supported client version (an older
/// one only from the beta channel) and then the worker's token, with every
/// `Bearer ` removed, as its authorization.
pub open spec fn authentication(
    path: Seq<char>,
    version: VersionHeader,
    authorization: AuthorizationHeader,
    worker_token: Seq<char>,
) -> Result<(), AuthRejection> {
    if !has_prefix(path, api_prefix()) {
        Ok(())
    } else {
        match version {
            VersionHeader::Missing => Err(AuthRejection::MissingVersion),
            VersionHeader::Invalid => Err(AuthRejection::InvalidVersion),
            VersionHeader::Parsed { older_than_supported, beta } if older_than_supported && !beta => Err(
                AuthRejection::OutdatedClient,
            ),
            _ => match authorization {
                AuthorizationHeader::Missing => Err(AuthRejection::MissingAuthorization),
                AuthorizationHeader::Unreadable => Err(AuthRejection::UnreadableAuthorization),
                AuthorizationHeader::Text(t) => if replace_all(t@, bearer(), Seq::empty())
                    == worker_token {
                    Ok(())
                } else {
                    Err(AuthRejection::WrongToken)
                },
            },
        }
    }
}

/// Decides whether a request is let through (see `authentication`).
pub fn authenticate(
    path: &str,
    version: VersionHeader,
    authorization: &AuthorizationHeader,
    worker_token: &str,
) -> (res: Result<(), AuthRejection>)
    ensures
        res == authentication(path@, version, *authorization, worker_token@),
{
    let prefix: Vec<char> = vec!['/', 'l', 'i', 'n', 'k', 'u', 'p'];
    assert(prefix@ =~= api_prefix());
    if !starts_with(&chars_of(path), &prefix) {
        return Ok(());
    }
    match version {
        VersionHeader::Missing => {
            return Err(AuthRejection::MissingVersion);
        },
        VersionHeader::Invalid => {
            return Err(AuthRejection::InvalidVersion);
        },
        VersionHeader::Parsed { older_than_supported, beta } => {
            if older_than_supported && !beta {
                return Err(AuthRejection::OutdatedClient);
            }
        },
    }
    match authorization {
        AuthorizationHeader::Missing => Err(AuthRejection::MissingAuthorization),
        AuthorizationHeader::Unreadable => Err(AuthRejection::UnreadableAuthorization),
        AuthorizationHeader::Text(t) => {
            let bearer_text = "Bearer ";
            let empty = "";
            proof {
                reveal_strlit("Bearer ");
                reveal_strlit("");
                assert(bearer_text@ =~= bearer());
                assert(empty@ =~= Seq::<char>::empty());
            }
            let token = replace_str(t.as_str(), bearer_text, empty);
            if str_eq(token.as_str(), worker_token) {
                Ok(())
            } else {
                Err(AuthRejection::WrongToken)
            }
        },
    }
}

/// A request to the API is refused as outdated exactly when its client is
/// older than the oldest supported one and not of the beta channel; so a
/// client that is not older, of either channel, with the worker's token as
/// its authorization (once every `Bearer ` is removed), is let through.
pub proof fn law_only_old_non_beta_clients_are_outdated(
    path: Seq<char>,
    version: VersionHeader,
    authorization: AuthorizationHeader,
    worker_token: Seq<char>,
    beta: bool,
    token_header: String,
)
    ensures
        authentication(path, version, authorization, worker_token) == Err::<(), AuthRejection>(
            AuthRejection::OutdatedClient,
        ) <==> (has_prefix(path, api_prefix()) && version == (VersionHeader::Parsed {
            older_than_supported: true,
            beta: false,
        })),
        replace_all(token_header@, bearer(), Seq::empty()) == worker_token ==> authentication(
            path,
            VersionHeader::Parsed { older_than_supported: false, beta },
            AuthorizationHeader::Text(token_header),
            worker_token,
        ) == Ok::<(), AuthRejection>(()),
{
}

} // verus!
