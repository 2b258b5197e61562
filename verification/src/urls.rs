use vstd::prelude::*;

verus! {

/// What `Url::parse` followed by `Url::host_str` gives for a text: the host
/// of the URL, or nothing when the text is not a URL or the URL has no host.
pub uninterp spec fn url_host(text: Seq<char>) -> Option<Seq<char>>;

/// Calls `Url::parse` on a text and takes the host of the parsed URL
/// (`Url::host_str`); the result is named `url_host`.
#[verifier::external_body]
pub(crate) fn host_of(text: &str) -> (res: Option<String>)
    ensures
        match res {
            Some(h) => url_host(text@) == Some(h@),
            None => url_host(text@) is None,
        },
{
    match url::Url::parse(text) {
        Ok(url) => url.host_str().map(String::from),
        Err(_) => None,
    }
}

/// What `Url::parse` gives for a text, written out as the `url` crate writes
/// a URL (its serialization, `Url::as_str`): for instance without the
/// scheme's default port. Nothing when the text is not a URL.
pub uninterp spec fn url_serialization(text: Seq<char>) -> Option<Seq<char>>;

/// Calls `Url::parse` on a text and gives the parsed URL's serialization
/// (`String::from(Url)`); the result is named `url_serialization`.
#[verifier::external_body]
pub(crate) fn serialize_url(text: &str) -> (res: Option<String>)
    ensures
        match res {
            Some(u) => url_serialization(text@) == Some(u@),
            None => url_serialization(text@) is None,
        },
{
    match url::Url::parse(text) {
        Ok(url) => Some(String::from(url)),
        Err(_) => None,
    }
}

} // verus!
