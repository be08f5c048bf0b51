//! Same-host filtering of candidate URLs.
use vstd::prelude::*;

verus! {

/// The host component of a URL string as the `url` crate parses it: `None` when
/// the string does not parse as an absolute URL or has no host.
pub uninterp spec fn host_of(s: Seq<char>) -> Option<Seq<char>>;

/// Relies on `url::Url::parse` followed by `url::Url::host_str`: the host of the
/// parsed URL, or `None` when parsing fails or the URL has no host.
#[verifier::external_body]
fn url_host(s: &str) -> (r: Option<String>)
    ensures
        opt_view(r) == host_of(s@),
{
    match url::Url::parse(s) {
        Ok(parsed) => parsed.host_str().map(|h| h.to_string()),
        Err(_) => None,
    }
}

/// The character view of an optional string.
pub open spec fn opt_view(o: Option<String>) -> Option<Seq<char>> {
    match o {
        Some(s) => Some(s@),
        None => None,
    }
}

/// Two optional hosts agree when both are present and textually equal.
pub open spec fn hosts_agree(a: Option<Seq<char>>, b: Option<Seq<char>>) -> bool {
    a is Some && a == b
}

/// Whether `candidate` lies on the same host as `root`.
pub open spec fn same_host_spec(root: Seq<char>, candidate: Seq<char>) -> bool {
    hosts_agree(host_of(root), host_of(candidate))
}

/// Compares two hosts already extracted from URLs.
pub fn hosts_match(a: &Option<String>, b: &Option<String>) -> (r: bool)
    ensures
        r == hosts_agree(opt_view(*a), opt_view(*b)),
{
    match (a, b) {
        (Some(x), Some(y)) => x.eq(y),
        _ => false,
    }
}

/// Whether `candidate` is in scope for a crawl rooted at `root`. A string that
/// does not parse as a URL, or has no host, is out of scope.
pub fn same_host(root: &str, candidate: &str) -> (r: bool)
    ensures
        r == same_host_spec(root@, candidate@),
{
    let a = url_host(candidate);
    let b = url_host(root);
    hosts_match(&b, &a)
}

} // verus!
