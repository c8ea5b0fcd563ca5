//! The URL parser of the `url` crate, as the rule and candidate logic sees it.
use vstd::prelude::*;
use crate::text::opt_text;

verus! {

/// The parts of a URL that the library reads: its scheme and, where the host is a domain name
/// (not an IP address), that domain.
pub struct ParsedUrl {
    pub scheme: String,
    pub domain: Option<String>,
}

/// A parse result taken as plain values.
pub open spec fn parsed_view(p: Option<ParsedUrl>) -> Option<(Seq<char>, Option<Seq<char>>)> {
    match p {
        Some(u) => Some((u.scheme@, opt_text(u.domain))),
        None => None,
    }
}

/// What `url::Url::parse` makes of `input`: `None` where it refuses the text as an absolute URL,
/// otherwise `Url::scheme` and `Url::domain` of the parsed URL.
pub uninterp spec fn url_parse(input: Seq<char>) -> Option<(Seq<char>, Option<Seq<char>>)>;

/// Calls `url::Url::parse` and reads `Url::scheme` and `Url::domain` of the result.
///
/// The contract claims only that the outcome is a function of the input text, named `url_parse`;
/// nothing is stated of what that function is.
#[verifier::external_body]
pub(crate) fn parse_url(input: &str) -> (r: Option<ParsedUrl>)
    ensures
        parsed_view(r) == url_parse(input@),
{
    match url::Url::parse(input) {
        Ok(url) => Some(
            ParsedUrl { scheme: url.scheme().to_string(), domain: url.domain().map(str::to_string) },
        ),
        Err(_) => None,
    }
}

} // verus!
