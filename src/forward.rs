//! Where the proxy forwards a request.
use vstd::prelude::*;
use vstd::string::*;

verus! {

/// The header that names the upstream a request is forwarded to.
pub const PROXY_HOST_HEADER: &'static str = "Proxy-Host";

/// The upstream URI of a forwarded request: the target, then the request's
/// path, then `?` and the query when there is one.
pub open spec fn forward_uri(target: Seq<char>, path: Seq<char>, query: Option<Seq<char>>) -> Seq<
    char,
> {
    match query {
        Some(q) => target + path + seq!['?'] + q,
        None => target + path,
    }
}

/// Builds the upstream URI for a request to `path` with `query`, forwarded
/// to `target`.
pub fn proxy_request_uri(target: &str, path: &str, query: Option<&str>) -> (r: String)
    ensures
        r@ == forward_uri(target@, path@, match query {
            Some(q) => Some(q@),
            None => None,
        }),
{
    let mut uri = String::from_str(target);
    uri.append(path);
    match query {
        Some(q) => {
            proof {
                reveal_strlit("?");
            }
            uri.append("?");
            uri.append(q);
        },
        None => {},
    }
    uri
}

/// Why a request could not be forwarded before reaching the upstream.
#[derive(Clone, Copy, Debug, PartialEq, Eq, Structural)]
pub enum ProxyFailure {
    /// The request names no upstream.
    MissingHost,
    /// The upstream header is not visible ASCII text.
    InvalidHost,
    /// The request body could not be read.
    UnreadableBody,
    /// No HTTP client could be built.
    NoClient,
}

/// The status and text that answer a request that could not be forwarded.
pub fn failure_reply(f: ProxyFailure) -> (r: (u16, &'static str))
    ensures
        r.0 == 400,
        r.1@ == match f {
            ProxyFailure::MissingHost => "Proxy-Host header is missing"@,
            ProxyFailure::InvalidHost => "Proxy-Host header is not a valid string"@,
            ProxyFailure::UnreadableBody => "Failed to read request body"@,
            ProxyFailure::NoClient => "Failed to create a reqwest client"@,
        },
{
    match f {
        ProxyFailure::MissingHost => (400, "Proxy-Host header is missing"),
        ProxyFailure::InvalidHost => (400, "Proxy-Host header is not a valid string"),
        ProxyFailure::UnreadableBody => (400, "Failed to read request body"),
        ProxyFailure::NoClient => (400, "Failed to create a reqwest client"),
    }
}

} // verus!
