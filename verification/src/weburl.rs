//! URLs, parsed and serialised by the `url` crate.
use vstd::prelude::*;

use crate::config::opt_view;

verus! {

/// The parts of a parsed URL that the library reads: scheme, host, serialisation and the
/// decoded query pairs.
pub struct UrlParts {
    pub scheme: String,
    pub host: Option<String>,
    pub serialization: String,
    pub query: Vec<(String, String)>,
}

pub type UrlView = (Seq<char>, Option<Seq<char>>, Seq<char>, Seq<(Seq<char>, Seq<char>)>);

pub open spec fn pairs_view(v: Seq<(String, String)>) -> Seq<(Seq<char>, Seq<char>)> {
    v.map_values(|p: (String, String)| (p.0@, p.1@))
}

impl UrlParts {
    pub open spec fn parts(&self) -> UrlView {
        (self.scheme@, opt_view(self.host), self.serialization@, pairs_view(self.query@))
    }
}

/// What `url::Url::parse` gives for this input, read as (scheme, host, serialisation,
/// decoded query pairs); `None` when it refuses the input.
pub uninterp spec fn url_parse_result(input: Seq<char>) -> Option<UrlView>;

/// What the serialisation of `base` parsed by `url::Url::parse` becomes once each pair is
/// appended to its query with `append_pair`; when `base` does not parse, the text of the
/// parse error.
pub uninterp spec fn url_with_query_result(
    base: Seq<char>,
    pairs: Seq<(Seq<char>, Seq<char>)>,
) -> Result<Seq<char>, Seq<char>>;

/// `url::Url::parse`, read through `scheme`, `host_str`, `as_str` and `query_pairs`. The
/// WHATWG parsing rules are not restated; the result is named by `url_parse_result`. Two
/// facts that the crate keeps as invariants of every `Url` (`Url::check_invariants`) are
/// stated: the serialisation starts with the scheme and `:`, so it is not empty, and a URL
/// with a host parses from its own serialisation to the same parts.
#[verifier::external_body]
pub(crate) fn parse_url(input: &str) -> (r: Option<UrlParts>)
    ensures
        r is None <==> url_parse_result(input@) is None,
        r matches Some(p) ==> url_parse_result(input@) == Some(p.parts()),
        r matches Some(p) ==> p.serialization@.len() > 0,
        r matches Some(p) ==> (p.host is Some ==> url_parse_result(p.serialization@) == Some(
            p.parts(),
        )),
{
    let url = url::Url::parse(input).ok()?;
    Some(UrlParts {
        scheme: url.scheme().to_string(),
        host: url.host_str().map(|h| h.to_string()),
        serialization: url.as_str().to_string(),
        query: url.query_pairs().map(|(k, v)| (k.into_owned(), v.into_owned())).collect(),
    })
}

/// `url::Url::parse` of `base`, then `query_pairs_mut().append_pair` for each pair, then the
/// serialisation; or the parse error's text. The result is named by `url_with_query_result`.
#[verifier::external_body]
pub(crate) fn url_with_query(base: &str, pairs: &Vec<(String, String)>) -> (r: Result<
    String,
    String,
>)
    ensures
        url_with_query_result(base@, pairs_view(pairs@)) == match r {
            Ok(s) => Ok(s@),
            Err(e) => Err(e@),
        },
{
    let mut url = url::Url::parse(base).map_err(|e| e.to_string())?;
    {
        let mut query = url.query_pairs_mut();
        for (key, value) in pairs {
            query.append_pair(key, value);
        }
    }
    Ok(url.as_str().to_string())
}

/// An `http` or `https` URL with a host, in its serialised form (`None` for anything else).
pub open spec fn http_url_spec(input: Seq<char>) -> Option<Seq<char>> {
    match url_parse_result(input) {
        Some((scheme, host, serialization, _)) => if (scheme == "https"@ || scheme == "http"@)
            && host is Some {
            Some(serialization)
        } else {
            None
        },
        None => None,
    }
}

pub(crate) fn is_http_scheme(scheme: &String) -> (r: bool)
    ensures
        r == (scheme@ == "https"@ || scheme@ == "http"@),
{
    let cs = crate::text::chars_of(scheme.as_str());
    crate::text::eq_str(&cs, "https") || crate::text::eq_str(&cs, "http")
}

/// Parses `input` and keeps it only when it is an `http(s)` URL with a host.
pub(crate) fn http_url(input: &str) -> (r: Option<String>)
    ensures
        opt_view(r) == http_url_spec(input@),
        r matches Some(s) ==> s@.len() > 0 && http_url_spec(s@) == Some(s@),
{
    match parse_url(input) {
        Some(parts) => {
            if is_http_scheme(&parts.scheme) && parts.host.is_some() {
                Some(parts.serialization)
            } else {
                None
            }
        },
        None => None,
    }
}

} // verus!
