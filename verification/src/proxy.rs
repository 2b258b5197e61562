use vstd::prelude::*;

use crate::request_session::{ascii_lower_char, trim_ws};
use crate::text::{chars_of, has_prefix, split_by, starts_with, string_of};

verus! {

/// Whether two texts are equal when ASCII letters are compared without case
/// (`str::eq_ignore_ascii_case`).
pub open spec fn eq_ignore_ascii_case(a: Seq<char>, b: Seq<char>) -> bool {
    a.len() == b.len() && forall|i: int| 0 <= i < a.len() ==> ascii_lower_char(#[trigger] a[i]) == ascii_lower_char(b[i])
}

/// The pieces of a text between commas.
pub open spec fn comma_pieces(value: Seq<char>) -> Seq<Seq<char>> {
    split_by(value, |c: char| c == ',')
}

/// Whether a comma-separated header value lists the token (pieces trimmed,
/// compared without ASCII case).
pub open spec fn value_lists_token(value: Seq<char>, token: Seq<char>) -> bool {
    exists|p: int|
        0 <= p < comma_pieces(value).len() && eq_ignore_ascii_case(
            trim_ws(#[trigger] comma_pieces(value)[p]),
            token,
        )
}

fn ascii_lower_exec(c: char) -> (res: char)
    ensures
        res == ascii_lower_char(c),
{
    if 'A' <= c && c <= 'Z' {
        ((c as u8) + 32) as char
    } else {
        c
    }
}

fn eq_ignore_ascii_case_exec(a: &Vec<char>, b: &Vec<char>) -> (res: bool)
    ensures
        res == eq_ignore_ascii_case(a@, b@),
{
    if a.len() != b.len() {
        return false;
    }
    let mut i: usize = 0;
    while i < a.len()
        invariant
            a.len() == b.len(),
            i <= a.len(),
            forall|j: int| 0 <= j < i ==> ascii_lower_char(#[trigger] a@[j]) == ascii_lower_char(b@[j]),
        decreases a.len() - i,
    {
        if ascii_lower_exec(a[i]) != ascii_lower_exec(b[i]) {
            return false;
        }
        i = i + 1;
    }
    true
}

/// Whether one comma-separated header value lists the token.
fn value_lists_token_exec(value: &str, token: &Vec<char>) -> (res: bool)
    ensures
        res == value_lists_token(value@, token@),
{
    let s = chars_of(value);
    let ghost comma = |c: char| c == ',';
    let mut start: usize = 0;
    let mut i: usize = 0;
    let mut found = false;
    assert(s@.take(0) =~= Seq::<char>::empty());
    assert(comma_pieces(s@.take(0)) =~= seq![Seq::<char>::empty()]);
    while i < s.len()
        invariant
            start <= i <= s.len(),
            comma == (|c: char| c == ','),
            comma_pieces(s@.take(i as int)).len() >= 1,
            comma_pieces(s@.take(i as int)).last() == s@.subrange(start as int, i as int),
            found == exists|p: int|
                0 <= p < comma_pieces(s@.take(i as int)).len() - 1 && eq_ignore_ascii_case(
                    trim_ws(#[trigger] comma_pieces(s@.take(i as int))[p]),
                    token@,
                ),
        decreases s.len() - i,
    {
        proof {
            crate::text::lemma_split_by_step(s@, i as int, |c: char| c == ',');
        }
        let ghost pieces = comma_pieces(s@.take(i as int));
        if s[i] == ',' {
            let piece = crate::request_session::trim_chars(&s, start, i);
            let hit = eq_ignore_ascii_case_exec(&piece, token);
            proof {
                let next = comma_pieces(s@.take(i + 1));
                assert(next =~= pieces.push(Seq::<char>::empty()));
                assert(next[pieces.len() - 1] == pieces.last());
                assert forall|p: int| 0 <= p < pieces.len() - 1 implies next[p] == pieces[p] by {}
                if found {
                    let p = choose|p: int|
                        0 <= p < pieces.len() - 1 && eq_ignore_ascii_case(trim_ws(#[trigger] pieces[p]), token@);
                    assert(next[p] == pieces[p]);
                }
                if hit {
                    assert(eq_ignore_ascii_case(trim_ws(next[pieces.len() - 1]), token@));
                }
                if (exists|p: int|
                    0 <= p < next.len() - 1 && eq_ignore_ascii_case(trim_ws(#[trigger] next[p]), token@)) {
                    let p = choose|p: int|
                        0 <= p < next.len() - 1 && eq_ignore_ascii_case(trim_ws(#[trigger] next[p]), token@);
                    if p < pieces.len() - 1 {
                        assert(next[p] == pieces[p]);
                    }
                }
            }
            found = found || hit;
            start = i + 1;
        } else {
            proof {
                let next = comma_pieces(s@.take(i + 1));
                assert(s@[i as int] != ',');
                assert(!((|c: char| c == ',')(s@[i as int])));
                assert(next.drop_last() == pieces.drop_last());
                assert(next.len() >= 1);
                assert(pieces.len() >= 1);
                assert(next.drop_last().len() == next.len() - 1);
                assert(next.len() == pieces.len());
                assert forall|p: int| 0 <= p < pieces.len() - 1 implies next[p] == pieces[p] by {
                    assert(next.drop_last()[p] == pieces.drop_last()[p]);
                }
                assert(next.last() =~= s@.subrange(start as int, i + 1));
                if found {
                    let p = choose|p: int|
                        0 <= p < pieces.len() - 1 && eq_ignore_ascii_case(trim_ws(#[trigger] pieces[p]), token@);
                    assert(next[p] == pieces[p]);
                }
                if (exists|p: int|
                    0 <= p < next.len() - 1 && eq_ignore_ascii_case(trim_ws(#[trigger] next[p]), token@)) {
                    let p = choose|p: int|
                        0 <= p < next.len() - 1 && eq_ignore_ascii_case(trim_ws(#[trigger] next[p]), token@);
                    assert(next[p] == pieces[p]);
                }
            }
        }
        i = i + 1;
    }
    assert(s@.take(s.len() as int) =~= s@);
    let last = crate::request_session::trim_chars(&s, start, s.len());
    let hit = eq_ignore_ascii_case_exec(&last, token);
    proof {
        let pieces = comma_pieces(s@);
        if hit {
            assert(eq_ignore_ascii_case(trim_ws(pieces[pieces.len() - 1]), token@));
        }
        if found {
            let p = choose|p: int|
                0 <= p < pieces.len() - 1 && eq_ignore_ascii_case(trim_ws(#[trigger] pieces[p]), token@);
        }
        if value_lists_token(value@, token@) {
            let p = choose|p: int|
                0 <= p < pieces.len() && eq_ignore_ascii_case(trim_ws(#[trigger] pieces[p]), token@);
        }
    }
    found || hit
}

/// Whether any value of a header lists the token, each value being a
/// comma-separated list (values that are not visible ASCII text are left
/// out by the caller).
pub fn header_contains_token(values: &[String], token: &str) -> (res: bool)
    ensures
        res == exists|i: int| 0 <= i < values@.len() && value_lists_token(#[trigger] values@[i]@, token@),
{
    let t = chars_of(token);
    let mut i: usize = 0;
    while i < values.len()
        invariant
            i <= values.len(),
            t@ == token@,
            forall|j: int| 0 <= j < i ==> !value_lists_token(#[trigger] values@[j]@, token@),
        decreases values.len() - i,
    {
        if value_lists_token_exec(values[i].as_str(), &t) {
            return true;
        }
        i = i + 1;
    }
    false
}

/// The text `http://`.
pub open spec fn http_scheme() -> Seq<char> {
    seq!['h', 't', 't', 'p', ':', '/', '/']
}

/// The text `localhost`.
pub open spec fn localhost() -> Seq<char> {
    seq!['l', 'o', 'c', 'a', 'l', 'h', 'o', 's', 't']
}

/// The full URL of a request: its URI when that has a scheme; otherwise
/// `http://`, the `host` header (or `localhost`), and the URI.
pub fn request_url(uri: &str, uri_has_scheme: bool, host: Option<&str>) -> (res: String)
    ensures
        uri_has_scheme ==> res@ == uri@,
        !uri_has_scheme ==> res@ == http_scheme() + match host {
            Some(h) => h@,
            None => localhost(),
        } + uri@,
{
    if uri_has_scheme {
        return string_of(&chars_of(uri));
    }
    let scheme: Vec<char> = vec!['h', 't', 't', 'p', ':', '/', '/'];
    let mut res = string_of(&scheme);
    match host {
        Some(h) => res.append(h),
        None => {
            let lh: Vec<char> = vec!['l', 'o', 'c', 'a', 'l', 'h', 'o', 's', 't'];
            let l = string_of(&lh);
            res.append(l.as_str());
        },
    }
    res.append(uri);
    assert(scheme@ =~= http_scheme());
    res
}

/// Whether a request asks for a protocol upgrade: it has an `upgrade`
/// header and its `connection` header lists `upgrade`.
pub fn is_upgrade_request(has_upgrade_header: bool, connection_values: &[String]) -> (res: bool)
    ensures
        res == (has_upgrade_header && exists|i: int|
            0 <= i < connection_values@.len() && value_lists_token(
                #[trigger] connection_values@[i]@,
                seq!['u', 'p', 'g', 'r', 'a', 'd', 'e'],
            )),
{
    if !has_upgrade_header {
        return false;
    }
    let token = string_of(&vec!['u', 'p', 'g', 'r', 'a', 'd', 'e']);
    let r = header_contains_token(connection_values, token.as_str());
    assert(token@ =~= seq!['u', 'p', 'g', 'r', 'a', 'd', 'e']);
    r
}

/// Whether the request to the target is sent as HTTP/1.1: for an upgrade,
/// or when the target is plain `http://`.
pub fn uses_http1(downstream_upgrade: bool, target_url: &str) -> (res: bool)
    ensures
        res == (downstream_upgrade || has_prefix(target_url@, http_scheme())),
{
    if downstream_upgrade {
        return true;
    }
    let scheme: Vec<char> = vec!['h', 't', 't', 'p', ':', '/', '/'];
    assert(scheme@ =~= http_scheme());
    starts_with(&chars_of(target_url), &scheme)
}

/// Why the local server's proxy could not forward a request.
#[derive(Clone, Debug)]
pub enum ProxyFailure {
    /// No session could be found for the request.
    NoSession,
    /// The session has no target service for the request.
    NoTarget,
    /// The request to the target service failed, with the error's text.
    Upstream(String),
}

/// The status and message the proxy answers a failure with: 422 when no
/// session is found, 404 when the session has no target for the request, and
/// 502 with the error's text when the target service could not be reached.
pub fn proxy_failure_answer(failure: &ProxyFailure) -> (res: (u16, String))
    ensures
        match failure {
            ProxyFailure::NoSession => res.0 == 422 && res.1@ == "Linkup was unable to determine the session origin of the request. Ensure that your request includes a valid session identifier in the referer or tracestate headers. - Local Server"@,
            ProxyFailure::NoTarget => res.0 == 404 && res.1@ == "The request belonged to a session, but there was no target for the request. Check that the routing rules in your linkup config have a match for this request. - Local Server"@,
            ProxyFailure::Upstream(e) => res.0 == 502 && res.1@
                == "Failed to proxy request - are all your servers started? "@ + e@,
        },
{
    match failure {
        ProxyFailure::NoSession => (
            422,
            "Linkup was unable to determine the session origin of the request. Ensure that your request includes a valid session identifier in the referer or tracestate headers. - Local Server".to_string(),
        ),
        ProxyFailure::NoTarget => (
            404,
            "The request belonged to a session, but there was no target for the request. Check that the routing rules in your linkup config have a match for this request. - Local Server".to_string(),
        ),
        ProxyFailure::Upstream(e) => {
            let mut message = "Failed to proxy request - are all your servers started? ".to_string();
            message.append(e.as_str());
            (502, message)
        },
    }
}

} // verus!
