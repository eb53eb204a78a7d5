//! The tracker's address.

use vstd::prelude::*;

verus! {

/// The absolute URL that the text is parsed as, in its serialized form;
/// `None` where the text is no absolute URL.
pub uninterp spec fn absolute_url(text: Seq<char>) -> Option<Seq<char>>;

/// `Url::parse` of the reqwest crate, believed and not proved: whether it
/// takes the text as an absolute URL, and the serialized form of the URL
/// that it returns, are named `absolute_url`.
#[verifier::external_body]
pub(crate) fn parse_url(text: &str) -> (r: Option<String>)
    ensures
        match r {
            Some(url) => absolute_url(text@) == Some(url@),
            None => absolute_url(text@).is_none(),
        },
{
    match reqwest::Url::parse(text) {
        Ok(url) => Some(String::from(url)),
        Err(_) => None,
    }
}

} // verus!
