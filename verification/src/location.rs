//! Remote locations: the base URL of a published tree and the URLs of the
//! files under it.
use vstd::prelude::*;
use crate::text::chars_of;

verus! {

/// The name of the manifest document under the root of a tree.
pub const MANIFEST_NAME: &'static str = ".dumbsync";

/// The serialisation of the URL that `text` parses to, or `None` where it
/// is no absolute URL.
pub uninterp spec fn url_parsed(text: Seq<char>) -> Option<Seq<char>>;

/// The serialisation of the URL that `reference` resolves to against the
/// URL that `base` parses to, or `None` where either step fails.
pub uninterp spec fn url_joined(base: Seq<char>, reference: Seq<char>) -> Option<Seq<char>>;

/// `url::ParseError`: why the `url` crate rejected a text. It is carried
/// through unread.
#[verifier::external_type_specification]
#[verifier::external_body]
pub struct ExParseError(url::ParseError);

/// `url::Url::parse`, the URL handed back as its serialisation. Not proved:
/// that success and the serialisation depend on the text alone.
#[verifier::external_body]
fn parse_url(text: &str) -> (r: Result<String, url::ParseError>)
    ensures
        match r {
            Ok(s) => url_parsed(text@) == Some(s@),
            Err(_) => url_parsed(text@) is None,
        },
{
    url::Url::parse(text).map(String::from)
}

/// `url::Url::join` on the URL that `base` parses to, the result handed back
/// as its serialisation. Not proved: that success and the serialisation
/// depend on the two texts alone.
#[verifier::external_body]
fn join_url(base: &str, reference: &str) -> (r: Result<String, url::ParseError>)
    ensures
        match r {
            Ok(s) => url_joined(base@, reference@) == Some(s@),
            Err(_) => url_joined(base@, reference@) is None,
        },
{
    url::Url::parse(base)?.join(reference).map(String::from)
}

/// Why a location could not be formed.
#[derive(Copy, Clone, Debug, PartialEq, Eq, Structural)]
pub enum LocationError {
    /// The base is no absolute URL.
    MalformedBase,
    /// A path could not be resolved against the base.
    JoinFailed,
}

/// `url` with a slash at its end, added where it has none.
pub open spec fn with_trailing_slash(url: Seq<char>) -> Seq<char> {
    if url.len() > 0 && url.last() == '/' {
        url
    } else {
        url.push('/')
    }
}

/// The base location of `url`, given what parsing made of it.
pub open spec fn base_of(parsed: Option<Seq<char>>) -> Result<Seq<char>, LocationError> {
    match parsed {
        Some(s) => Ok(s),
        None => Err(LocationError::MalformedBase),
    }
}

/// The location of a path under a base, given what joining made of it.
pub open spec fn location_of(joined: Option<Seq<char>>) -> Result<Seq<char>, LocationError> {
    match joined {
        Some(s) => Ok(s),
        None => Err(LocationError::JoinFailed),
    }
}

/// A result of text, by the text's view.
pub open spec fn text_result(r: Result<String, LocationError>) -> Result<Seq<char>, LocationError> {
    match r {
        Ok(s) => Ok(s@),
        Err(e) => Err(e),
    }
}

/// Ends `url` with a slash, so that paths are resolved below it and not
/// beside its last segment.
pub fn normalize_base(url: &str) -> (r: String)
    ensures
        r@ == with_trailing_slash(url@),
{
    let chars = chars_of(url);
    let n = chars.len();
    let r = String::from_str(url);
    if n > 0 && chars[n - 1] == '/' {
        r
    } else {
        proof {
            reveal_strlit("/");
            assert("/"@ =~= seq!['/']);
            assert(url@ + seq!['/'] =~= url@.push('/'));
        }
        r.concat("/")
    }
}

/// The base location for `url`: the URL it parses to once it ends with a
/// slash.
pub fn base_location(url: &str) -> (r: Result<String, LocationError>)
    ensures
        text_result(r) == base_of(url_parsed(with_trailing_slash(url@))),
{
    let normal = normalize_base(url);
    match parse_url(normal.as_str()) {
        Ok(s) => Ok(s),
        Err(_) => Err(LocationError::MalformedBase),
    }
}

/// The location of the file `path` under `base`.
pub fn file_location(base: &str, path: &str) -> (r: Result<String, LocationError>)
    ensures
        text_result(r) == location_of(url_joined(base@, path@)),
{
    match join_url(base, path) {
        Ok(s) => Ok(s),
        Err(_) => Err(LocationError::JoinFailed),
    }
}

/// The location of the manifest document under `base`.
pub fn manifest_location(base: &str) -> (r: Result<String, LocationError>)
    ensures
        text_result(r) == location_of(url_joined(base@, MANIFEST_NAME@)),
{
    file_location(base, MANIFEST_NAME)
}

} // verus!
