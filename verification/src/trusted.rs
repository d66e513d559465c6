//! The calls this library makes into code that is not verified here. Each
//! contract below is taken on trust from the documentation of the function
//! that the body calls.

use vstd::prelude::*;

verus! {

/// The lowercase form of a text, as `str::to_lowercase` gives it.
pub uninterp spec fn lowercase(s: Seq<char>) -> Seq<char>;

/// What a search with the `regex` crate says of a pattern and a text: `None`
/// where `Regex::new` rejects the pattern, else whether `Regex::is_match`
/// finds a match anywhere in the text.
pub uninterp spec fn regex_search(pattern: Seq<char>, text: Seq<char>) -> Option<bool>;

/// Calls `str::to_lowercase`. Claimed: the result depends on the text alone.
#[verifier::external_body]
pub(crate) fn to_lower(s: &str) -> (r: String)
    ensures
        r@ == lowercase(s@),
{
    s.to_lowercase()
}

/// Collects characters into a `String`, as `String::from_iter` does.
/// Claimed: the string holds exactly these characters, in this order.
#[verifier::external_body]
pub(crate) fn string_of_chars(chars: &Vec<char>) -> (r: String)
    ensures
        r@ == chars@,
{
    chars.iter().collect()
}

/// Calls `regex::Regex::new` and, where the pattern compiles,
/// `regex::Regex::is_match`. Claimed: the outcome depends on the pattern and
/// the text alone.
#[verifier::external_body]
pub(crate) fn search(pattern: &str, text: &str) -> (r: Option<bool>)
    ensures
        r == regex_search(pattern@, text@),
{
    match regex::Regex::new(pattern) {
        Ok(re) => Some(re.is_match(text)),
        Err(_) => None,
    }
}

} // verus!
