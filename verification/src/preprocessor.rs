//! The preprocessor's identity and configuration rules.

use vstd::prelude::*;
use vstd::string::*;

use crate::text::str_eq;

verus! {

/// The Kroki preprocessor.
pub struct KrokiPreprocessor;

impl KrokiPreprocessor {
    /// The preprocessor's registered name.
    pub fn name(&self) -> (r: &'static str)
        ensures
            r@ == "kroki-preprocessor"@,
    {
        "kroki-preprocessor"
    }

    /// Whether output for the given renderer is produced: HTML only.
    pub fn supports_renderer(&self, renderer: &str) -> (r: bool)
        ensures
            r == (renderer@ == "html"@),
    {
        str_eq(renderer, "html")
    }
}

/// The well-known public render-service endpoint.
pub fn default_endpoint() -> (r: String)
    ensures
        r@ == "https://kroki.io/"@,
{
    String::from_str("https://kroki.io/")
}

/// An endpoint with its trailing separator in place.
pub open spec fn normalized_endpoint(url: Seq<char>) -> Seq<char> {
    if url.len() > 0 && url.last() == '/' {
        url
    } else {
        url.push('/')
    }
}

/// Append the trailing separator to a configured endpoint unless it
/// already ends with one.
pub fn normalize_endpoint(url: &str) -> (r: String)
    ensures
        r@ == normalized_endpoint(url@),
{
    let n = url.unicode_len();
    if n > 0 && url.get_char(n - 1) == '/' {
        url.to_owned()
    } else {
        let mut s = url.to_owned();
        s.append("/");
        proof {
            reveal_strlit("/");
            assert(s@ =~= url@.push('/'));
        }
        s
    }
}

} // verus!
