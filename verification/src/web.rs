//! Which texts are addresses of web pages.

use vstd::prelude::*;

verus! {

/// The scheme that `url::Url::parse` finds in a text, in lower case; `None`
/// where it does not accept the text as an absolute URL.
pub uninterp spec fn url_scheme(text: Seq<char>) -> Option<Seq<char>>;

/// A scheme of the web: `http` or `https`.
pub open spec fn web_scheme(scheme: Option<Seq<char>>) -> bool {
    scheme == Some("http"@) || scheme == Some("https"@)
}

/// The text is an absolute URL with a scheme of the web.
pub open spec fn web_url(text: Seq<char>) -> bool {
    web_scheme(url_scheme(text))
}

/// Parses `text` with `url::Url::parse` and hands back the scheme of the URL
/// (`url::Url::scheme`), or `None` where the parser refuses the text.
///
/// Trusted: the result is what the `url` crate computes. It depends on the
/// text alone, so the contract gives it the name [`url_scheme`].
#[verifier::external_body]
fn parse_scheme(text: &str) -> (r: Option<String>)
    ensures
        match r {
            Some(s) => url_scheme(text@) == Some(s@),
            None => url_scheme(text@) is None,
        },
{
    match url::Url::parse(text) {
        Ok(parsed) => Some(parsed.scheme().to_owned()),
        Err(_) => None,
    }
}

/// Whether a parsed scheme is `http` or `https`.
pub fn is_web_scheme(scheme: &Option<String>) -> (r: bool)
    ensures
        r == web_scheme(
            match scheme {
                Some(s) => Some(s@),
                None => None,
            },
        ),
{
    match scheme {
        None => false,
        Some(s) => {
            let http = "http".to_owned();
            let https = "https".to_owned();
            *s == http || *s == https
        },
    }
}

/// Whether `text` is an absolute `http` or `https` URL.
pub fn is_web_url(text: &str) -> (r: bool)
    ensures
        r == web_url(text@),
{
    let scheme = parse_scheme(text);
    is_web_scheme(&scheme)
}

} // verus!
