//! Web addresses, as the `url` library reads them.

use vstd::prelude::*;

verus! {

/// The parts of a web address that decisions are made on.
#[derive(Debug, PartialEq, Eq)]
pub struct ParsedUrl {
    /// The whole address in its normal form.
    pub text: String,
    pub scheme: String,
    pub username: String,
    pub has_password: bool,
    pub host: Option<String>,
    pub path: String,
    pub path_segments: Option<Vec<String>>,
    pub has_query: bool,
    pub has_fragment: bool,
}

/// The parts that `reqwest::Url::parse` finds in a text, or why it finds none.
pub uninterp spec fn url_parts(text: Seq<char>) -> Result<ParsedUrl, String>;

/// Reads a web address with `reqwest::Url::parse` and takes its parts with the accessors of the
/// same type. What the parts are is left to that library: only that they are a function of the
/// text is claimed.
#[verifier::external_body]
pub(crate) fn parse_url(text: &str) -> (r: Result<ParsedUrl, String>)
    ensures
        r == url_parts(text@),
{
    let url = reqwest::Url::parse(text).map_err(|error| error.to_string())?;
    Ok(ParsedUrl {
        text: url.as_str().to_string(),
        scheme: url.scheme().to_string(),
        username: url.username().to_string(),
        has_password: url.password().is_some(),
        host: url.host_str().map(|host| host.to_string()),
        path: url.path().to_string(),
        path_segments: url.path_segments().map(|segments| segments.map(String::from).collect()),
        has_query: url.query().is_some(),
        has_fragment: url.fragment().is_some(),
    })
}

/// The address that `reqwest::Url::join` makes of a base and a reference, or why it makes none.
pub uninterp spec fn url_joined(base: Seq<char>, reference: Seq<char>) -> Result<String, String>;

/// Resolves a reference against a base with `reqwest::Url::join`. Only that the result is a
/// function of the two texts is claimed.
#[verifier::external_body]
pub(crate) fn join_url(base: &str, reference: &str) -> (r: Result<String, String>)
    ensures
        r == url_joined(base@, reference@),
{
    let base = reqwest::Url::parse(base).map_err(|error| error.to_string())?;
    let joined = base.join(reference).map_err(|error| error.to_string())?;
    Ok(joined.as_str().to_string())
}

} // verus!
