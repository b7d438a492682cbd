//! The decisions of the HTTP client that follows redirects: after each response,
//! return it, follow its `Location`, or fail.

use vstd::prelude::*;
use crate::http::{starts_with, starts_with_chars};
use crate::text::{chars_to_string, push_str_chars, str_chars};

verus! {

/// The most redirects followed for one request.
pub const MAX_REDIRECTS: u8 = 10;

/// Whether an HTTP status code is a success (2xx), as http's `StatusCode::is_success`.
pub open spec fn is_success_status(code: u16) -> bool {
    200 <= code < 300
}

/// Whether an HTTP status code is a redirection (3xx), as http's
/// `StatusCode::is_redirection`.
pub open spec fn is_redirection_status(code: u16) -> bool {
    300 <= code < 400
}

/// The `Location` header of a response: absent, present but not visible ASCII, or
/// its text.
#[derive(Clone, Debug)]
pub enum LocationHeader {
    Missing,
    NotText,
    Text(String),
}

/// What the client does after a response.
#[derive(Clone, Copy, Debug, PartialEq, Eq, Structural)]
pub enum RedirectStep {
    /// The response is a success: return it.
    Success,
    /// Follow the location; `absolute` where it begins with `http`.
    Follow { absolute: bool },
    TooManyRedirects,
    MissingLocation,
    InvalidLocation,
    /// Any other status: fail with it.
    HttpError(u16),
}

/// The step after a response of status `status` with location `location`, the
/// client having followed `count` redirects; and the count after it.
pub open spec fn spec_redirect_step(count: u8, status: u16, location: Option<Option<Seq<char>>>) -> (u8, RedirectStep) {
    if is_success_status(status) {
        (count, RedirectStep::Success)
    } else if is_redirection_status(status) {
        let c = (count + 1) as u8;
        if c > MAX_REDIRECTS {
            (c, RedirectStep::TooManyRedirects)
        } else {
            match location {
                None => (c, RedirectStep::MissingLocation),
                Some(None) => (c, RedirectStep::InvalidLocation),
                Some(Some(l)) => (c, RedirectStep::Follow { absolute: starts_with(l, "http"@) }),
            }
        }
    } else {
        (count, RedirectStep::HttpError(status))
    }
}

/// How a redirect response is answered, for every count, status and location:
/// a 2xx status is returned with the count unchanged; any status outside 2xx and
/// 3xx is an error carrying it, count unchanged; a 3xx status counts one more
/// redirect and, past `MAX_REDIRECTS`, fails; under the limit, a missing or
/// unreadable location fails, and a location text is followed, as an absolute URL
/// where it begins with `http://` or `https://` and as a path of the current URL
/// where it begins with `/`.
pub proof fn lemma_redirect_step_law(count: u8, status: u16, location: Option<Option<Seq<char>>>)
    requires
        count < 255,
    ensures
        ({
            let (c, step) = spec_redirect_step(count, status, location);
            &&& 200 <= status < 300 ==> c == count && step == RedirectStep::Success
            &&& !(200 <= status < 400) ==> c == count && step == RedirectStep::HttpError(status)
            &&& 300 <= status < 400 ==> c == count + 1
            &&& (300 <= status < 400 && count + 1 > MAX_REDIRECTS) ==> step == RedirectStep::TooManyRedirects
            &&& (300 <= status < 400 && count + 1 <= MAX_REDIRECTS) ==> match location {
                None => step == RedirectStep::MissingLocation,
                Some(None) => step == RedirectStep::InvalidLocation,
                Some(Some(l)) => {
                    &&& step is Follow
                    &&& (starts_with(l, "http://"@) || starts_with(l, "https://"@)) ==> step
                        == RedirectStep::Follow { absolute: true }
                    &&& starts_with(l, "/"@) ==> step == RedirectStep::Follow { absolute: false }
                },
            }
        }),
{
    reveal_strlit("http");
    reveal_strlit("http://");
    reveal_strlit("https://");
    reveal_strlit("/");
    if let Some(Some(l)) = location {
        if starts_with(l, "http://"@) {
            assert(l.take(4) =~= l.take(7).take(4));
            assert(l.take(4) =~= "http"@);
        }
        if starts_with(l, "https://"@) {
            assert(l.take(4) =~= l.take(8).take(4));
            assert(l.take(4) =~= "http"@);
        }
        if starts_with(l, "/"@) {
            assert(l.take(1)[0] == '/');
            assert(l[0] == '/');
            if starts_with(l, "http"@) {
                assert(l.take(4)[0] == 'h');
                assert(l[0] == 'h');
            }
        }
    }
}

/// The text of a `Location` header, where it has one.
pub open spec fn location_text(l: LocationHeader) -> Option<Option<Seq<char>>> {
    match l {
        LocationHeader::Missing => None,
        LocationHeader::NotText => Some(None),
        LocationHeader::Text(s) => Some(Some(s@)),
    }
}

/// Decides what to do after a response; see `spec_redirect_step`.
pub fn next_redirect_step(redirect_count: &mut u8, status: u16, location: &LocationHeader) -> (step: RedirectStep)
    requires
        *old(redirect_count) < 255,
    ensures
        (*final(redirect_count), step) == spec_redirect_step(*old(redirect_count), status, location_text(*location)),
{
    if 200 <= status && status < 300 {
        return RedirectStep::Success;
    }
    if 300 <= status && status < 400 {
        *redirect_count = *redirect_count + 1;
        if *redirect_count > MAX_REDIRECTS {
            return RedirectStep::TooManyRedirects;
        }
        return match location {
            LocationHeader::Missing => RedirectStep::MissingLocation,
            LocationHeader::NotText => RedirectStep::InvalidLocation,
            LocationHeader::Text(l) => {
                let chars = str_chars(l.as_str());
                let p = str_chars("http");
                let absolute = starts_with_chars(chars.as_slice(), p.as_slice());
                RedirectStep::Follow { absolute }
            },
        };
    }
    RedirectStep::HttpError(status)
}

/// The text of the URI that http parses `s` as, or the text of its parse error.
pub uninterp spec fn uri_text(s: Seq<char>) -> Result<Seq<char>, Seq<char>>;

/// Parses `s` as a URI (http's `Uri::from_str`) and writes it out with its
/// `Display`; or gives the `Display` of the parse error.
#[verifier::external_body]
fn parse_uri(s: &str) -> (r: Result<String, String>)
    ensures
        match r {
            Ok(u) => uri_text(s@) == Ok::<Seq<char>, Seq<char>>(u@),
            Err(e) => uri_text(s@) == Err::<Seq<char>, Seq<char>>(e@),
        },
{
    match s.parse::<hyper::Uri>() {
        Ok(u) => Ok(u.to_string()),
        Err(e) => Err(e.to_string()),
    }
}

/// The text of an optional string.
pub open spec fn opt_string_text(o: Option<String>) -> Option<Seq<char>> {
    match o {
        Some(t) => Some(t@),
        None => None,
    }
}

/// The scheme and the authority, as text, of the URI that http parses `s` as
/// (each absent where the URI has none), or the text of the parse error.
pub uninterp spec fn uri_components_text(s: Seq<char>) -> Result<(Option<Seq<char>>, Option<Seq<char>>), Seq<char>>;

/// Parses `s` as a URI (http's `Uri::from_str`) and gives its `scheme_str` and
/// the text of its `authority`; or the `Display` of the parse error.
#[verifier::external_body]
fn uri_components(s: &str) -> (r: Result<(Option<String>, Option<String>), String>)
    ensures
        match r {
            Ok((scheme, authority)) => uri_components_text(s@) == Ok::<
                (Option<Seq<char>>, Option<Seq<char>>),
                Seq<char>,
            >((opt_string_text(scheme), opt_string_text(authority))),
            Err(e) => uri_components_text(s@) == Err::<(Option<Seq<char>>, Option<Seq<char>>), Seq<char>>(
                e@,
            ),
        },
{
    match s.parse::<hyper::Uri>() {
        Ok(u) => Ok((u.scheme_str().map(String::from), u.authority().map(hyper::http::uri::Authority::as_str).map(String::from))),
        Err(e) => Err(e.to_string()),
    }
}

/// The text of the error of http's parse of `s` as the path and query of a URI,
/// where the parse fails.
pub uninterp spec fn path_and_query_error_text(s: Seq<char>) -> Option<Seq<char>>;

/// Parses `s` as a path and query (http's `PathAndQuery::from_str`): nothing where
/// it parses, else the `Display` of the error.
#[verifier::external_body]
fn path_and_query_error(s: &str) -> (r: Option<String>)
    ensures
        path_and_query_error_text(s@) == opt_string_text(r),
{
    match s.parse::<hyper::http::uri::PathAndQuery>() {
        Ok(_) => None,
        Err(e) => Some(e.to_string()),
    }
}

/// The text of the URI that http builds from the given scheme, authority and path
/// and query, or the text of the error that the build gives.
pub uninterp spec fn uri_from_parts_text(scheme: Option<Seq<char>>, authority: Option<Seq<char>>, path: Seq<char>) -> Result<Seq<char>, Seq<char>>;

/// Builds a URI with http's `Uri::builder` from a scheme and an authority (each
/// set where present) and the path and query `path`, and writes it out with its
/// `Display`; or gives the `Display` of the build's error.
#[verifier::external_body]
fn uri_from_parts(scheme: Option<String>, authority: Option<String>, path: &str) -> (r: Result<String, String>)
    ensures
        match r {
            Ok(u) => uri_from_parts_text(opt_string_text(scheme), opt_string_text(authority), path@) == Ok::<
                Seq<char>,
                Seq<char>,
            >(u@),
            Err(e) => uri_from_parts_text(opt_string_text(scheme), opt_string_text(authority), path@) == Err::<
                Seq<char>,
                Seq<char>,
            >(e@),
        },
{
    let mut b = hyper::Uri::builder();
    if let Some(s) = scheme {
        b = b.scheme(s.as_str());
    }
    if let Some(a) = authority {
        b = b.authority(a.as_str());
    }
    match b.path_and_query(path).build() {
        Ok(u) => Ok(u.to_string()),
        Err(e) => Err(e.to_string()),
    }
}

/// The URI a redirect leads to, or the error message. An absolute location is
/// parsed as it stands (`Invalid URI: ` and the error's text where that fails). A
/// relative one keeps the scheme and authority of `current` (`Invalid URI: ` where
/// `current` does not parse) and takes `location` as the new path and query
/// (`Invalid path: ` where it does not parse as one, `Invalid URI parts: ` where
/// the parts make no URI).
pub open spec fn spec_redirect_target(current: Seq<char>, location: Seq<char>, absolute: bool) -> Result<Seq<char>, Seq<char>> {
    if absolute {
        match uri_text(location) {
            Ok(u) => Ok(u),
            Err(e) => Err("Invalid URI: "@ + e),
        }
    } else {
        match uri_components_text(current) {
            Err(e) => Err("Invalid URI: "@ + e),
            Ok((scheme, authority)) => match path_and_query_error_text(location) {
                Some(e) => Err("Invalid path: "@ + e),
                None => match uri_from_parts_text(scheme, authority, location) {
                    Ok(u) => Ok(u),
                    Err(e) => Err("Invalid URI parts: "@ + e),
                },
            },
        }
    }
}

/// Resolves the location of a redirect; see `spec_redirect_target`.
pub fn resolve_redirect(current: &str, location: &str, absolute: bool) -> (r: Result<String, String>)
    ensures
        match spec_redirect_target(current@, location@, absolute) {
            Ok(u) => r matches Ok(s) && s@ == u,
            Err(m) => r matches Err(s) && s@ == m,
        },
{
    if absolute {
        return match parse_uri(location) {
            Ok(u) => Ok(u),
            Err(e) => Err(prefixed("Invalid URI: ", &e)),
        };
    }
    let (scheme, authority) = match uri_components(current) {
        Ok(parts) => parts,
        Err(e) => return Err(prefixed("Invalid URI: ", &e)),
    };
    if let Some(e) = path_and_query_error(location) {
        return Err(prefixed("Invalid path: ", &e));
    }
    match uri_from_parts(scheme, authority, location) {
        Ok(u) => Ok(u),
        Err(e) => Err(prefixed("Invalid URI parts: ", &e)),
    }
}

/// `prefix` followed by `text`.
fn prefixed(prefix: &str, text: &String) -> (s: String)
    ensures
        s@ == prefix@ + text@,
{
    let mut v: Vec<char> = Vec::new();
    push_str_chars(&mut v, prefix);
    push_str_chars(&mut v, text.as_str());
    proof {
        assert(Seq::<char>::empty() + prefix@ + text@ =~= prefix@ + text@);
    }
    chars_to_string(v.as_slice())
}

} // verus!
