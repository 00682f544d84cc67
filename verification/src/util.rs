//! Small utilities for reducing URLs from unknown sources to a canonical
//! crawl base: `scheme = https`, host only, no path, query, fragment,
//! credentials or port.

use vstd::prelude::*;
use vstd::string::StringExecFns;

verus! {

/// Errors raised while reducing a URL to a crawl base.
#[derive(Debug)]
pub enum UrlError {
    /// The text cannot serve as a crawl base: it does not parse as an
    /// absolute URL, cannot be a base, or names no host.
    InvalidHost,
    /// Never produced by this crate; kept so callers can match on a
    /// catch-all failure as the crawl tooling has historically exposed one.
    ImpossibleError,
}

/// The host name of an absolute URL, as the `url` crate parses it:
/// `None` when the text does not parse, cannot be a base, or has no host.
pub uninterp spec fn url_host(s: Seq<char>) -> Option<Seq<char>>;

/// The serialized path of an absolute URL, as the `url` crate parses it:
/// `None` when the text does not parse as an absolute URL.
pub uninterp spec fn url_path(s: Seq<char>) -> Option<Seq<char>>;

/// The canonical crawl-base text for a host name.
pub open spec fn base_str(host: Seq<char>) -> Seq<char> {
    "https://"@ + host + "/"@
}

/// Relies on `url::Url::parse`, `url::Url::cannot_be_a_base` and
/// `url::Url::host_str`: hands back the host name of `raw`, or `None`
/// when `raw` is not an absolute URL that can serve as a base with a host.
#[verifier::external_body]
pub(crate) fn parse_host(raw: &str) -> (r: Option<String>)
    ensures
        r is Some <==> url_host(raw@) is Some,
        r is Some ==> r->0@ == url_host(raw@)->0,
{
    match url::Url::parse(raw) {
        Ok(u) => {
            if u.cannot_be_a_base() {
                None
            } else {
                u.host_str().map(str::to_owned)
            }
        }
        Err(_) => None,
    }
}

/// Relies on `url::Url::parse` and `url::Url::path`: hands back the
/// serialized path of `raw`, or `None` when `raw` does not parse.
#[verifier::external_body]
fn parse_path(raw: &str) -> (r: Option<String>)
    ensures
        r is Some <==> url_path(raw@) is Some,
        r is Some ==> r->0@ == url_path(raw@)->0,
{
    match url::Url::parse(raw) {
        Ok(u) => Some(u.path().to_owned()),
        Err(_) => None,
    }
}

/// Builds the canonical crawl-base text `https://<host>/` for a host name.
pub(crate) fn base_text(host: &str) -> (r: String)
    ensures
        r@ == base_str(host@),
{
    let mut out = String::from_str("https://");
    out.append(host);
    out.append("/");
    out
}

/// Borrows URL text and returns a clone stripped of all information
/// outside of host and protocol, or `InvalidHost` when the text cannot
/// serve as a crawl base.
pub fn base_url(url: &str) -> (r: Result<String, UrlError>)
    ensures
        r is Ok <==> url_host(url@) is Some,
        r is Ok ==> r->Ok_0@ == base_str(url_host(url@)->0),
        r is Err ==> r->Err_0 == UrlError::InvalidHost,
{
    match parse_host(url) {
        Some(host) => Ok(base_text(host.as_str())),
        None => Err(UrlError::InvalidHost),
    }
}

/// Mutates URL text in place, stripping all information outside of host
/// and protocol; on failure the text is left unchanged.
pub fn to_base_url(url: &mut String) -> (r: Option<UrlError>)
    ensures
        r is None <==> url_host(old(url)@) is Some,
        r is None ==> final(url)@ == base_str(url_host(old(url)@)->0),
        r is Some ==> final(url)@ == old(url)@ && r->0 == UrlError::InvalidHost,
{
    match base_url(url.as_str()) {
        Ok(b) => {
            *url = b;
            None
        }
        Err(e) => Some(e),
    }
}

/// Borrows URL text and returns whether it is a suitable base URL with an
/// empty path and no further information, or `InvalidHost` when it cannot
/// serve as a crawl base at all.
pub fn is_host_only(url: &str) -> (r: Result<bool, UrlError>)
    ensures
        r is Ok <==> url_host(url@) is Some,
        r is Ok ==> r->Ok_0 == (url_path(url@) == Some("/"@)),
        r is Err ==> r->Err_0 == UrlError::InvalidHost,
{
    if parse_host(url).is_none() {
        return Err(UrlError::InvalidHost);
    }
    match parse_path(url) {
        Some(p) => Ok(p == String::from_str("/")),
        None => Ok(false),
    }
}

} // verus!
