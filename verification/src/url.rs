//! Target URL validation: the engine only accepts a target that parses as a
//! URI with scheme `http` or `https` and a host. The URI grammar itself is
//! the `http` crate's; the checks on what it found are verified here.
use crate::cli::str_eq;
use vstd::prelude::*;

verus! {

/// The scheme and host a URI parse exposes, as plain character sequences.
pub struct UriView {
    pub scheme: Option<Seq<char>>,
    pub host: Option<Seq<char>>,
}

/// The scheme and host of a parsed URI, as plain strings.
pub struct UriParts {
    pub scheme: Option<String>,
    pub host: Option<String>,
}

/// What the `http` crate's URI parser makes of a text: nothing when the text
/// is not a URI, otherwise its scheme and host where present. The parse is a
/// function of the text alone.
pub uninterp spec fn uri_view_of(s: Seq<char>) -> Option<UriView>;

/// Relies on http::Uri::from_str to parse the text, and on Uri::scheme_str
/// and Uri::host to read the scheme and host out of the parse.
#[verifier::external_body]
fn parse_uri_parts(s: &str) -> (r: Option<UriParts>)
    ensures
        r is Some <==> uri_view_of(s@) is Some,
        r is Some ==> {
            let v = uri_view_of(s@).unwrap();
            let p = r.unwrap();
            &&& (p.scheme is Some <==> v.scheme is Some)
            &&& (p.scheme matches Some(ps) ==> v.scheme matches Some(vs) && ps@ == vs)
            &&& (p.host is Some <==> v.host is Some)
            &&& (p.host matches Some(ph) ==> v.host matches Some(vh) && ph@ == vh)
        },
{
    match s.parse::<http::Uri>() {
        Ok(u) => Some(
            UriParts {
                scheme: u.scheme_str().map(|x| x.to_string()),
                host: u.host().map(|x| x.to_string()),
            },
        ),
        Err(_) => None,
    }
}

/// Why a target URL is rejected.
#[derive(PartialEq, Eq, Structural, Clone, Copy, Debug)]
pub enum UrlError {
    /// The text does not parse as a URI at all.
    InvalidFormat,
    /// The URI carries no scheme.
    MissingScheme,
    /// The URI's scheme is neither `http` nor `https`.
    UnsupportedScheme,
    /// The URI names no host, or an empty one.
    MissingHost,
}

/// A target that passed every check: it parses as a URI whose scheme is
/// `http` or `https` and which names a non-empty host.
#[derive(Debug)]
pub struct ValidatedUrl {
    pub raw: String,
    pub scheme: String,
    pub host: String,
}

/// When a target text is acceptable: it parses, its scheme is `http` or
/// `https`, and its host is there and non-empty.
pub open spec fn url_ok(s: Seq<char>) -> bool {
    match uri_view_of(s) {
        Some(v) => (v.scheme == Some("http"@) || v.scheme == Some("https"@)) && (v.host
            matches Some(h) && h.len() > 0),
        None => false,
    }
}

/// Validate a target URL: it must parse as a URI, carry scheme `http` or
/// `https`, and name a non-empty host. Each rejection names the first failed
/// check, in that order.
pub fn parse_url(s: &str) -> (r: Result<ValidatedUrl, UrlError>)
    ensures
        r is Ok <==> url_ok(s@),
        match r {
            Ok(u) => {
                &&& u.raw@ == s@
                &&& (uri_view_of(s@) matches Some(v) && v.scheme == Some(u.scheme@) && v.host
                    == Some(u.host@))
                &&& (u.scheme@ == "http"@ || u.scheme@ == "https"@)
                &&& u.host@.len() > 0
            },
            Err(e) => {
                &&& (e == UrlError::InvalidFormat <==> uri_view_of(s@) is None)
                &&& (e == UrlError::MissingScheme <==> (uri_view_of(s@) matches Some(v)
                    && v.scheme is None))
                &&& (e == UrlError::UnsupportedScheme <==> (uri_view_of(s@) matches Some(v)
                    && v.scheme matches Some(sch) && sch != "http"@ && sch != "https"@))
                &&& (e == UrlError::MissingHost <==> (uri_view_of(s@) matches Some(v) && (v.scheme
                    == Some("http"@) || v.scheme == Some("https"@)) && !(v.host matches Some(h)
                    && h.len() > 0)))
            },
        },
{
    let parts = match parse_uri_parts(s) {
        Some(p) => p,
        None => {
            return Err(UrlError::InvalidFormat);
        },
    };
    let scheme = match parts.scheme {
        Some(sch) => sch,
        None => {
            return Err(UrlError::MissingScheme);
        },
    };
    if !(str_eq(scheme.as_str(), "http") || str_eq(scheme.as_str(), "https")) {
        return Err(UrlError::UnsupportedScheme);
    }
    let host = match parts.host {
        Some(h) => h,
        None => {
            return Err(UrlError::MissingHost);
        },
    };
    if host.as_str().is_empty() {
        return Err(UrlError::MissingHost);
    }
    Ok(ValidatedUrl { raw: s.to_owned(), scheme, host })
}

} // verus!
