//! Which file names look like secrets. Only names are inspected, never
//! contents.

use vstd::prelude::*;
use crate::path::{file_name_of, FilePath};
use crate::text::{begins_with, is_prefix, spells, to_chars};
use crate::trusted::{lowercase, regex_search, search, to_lower};

verus! {

/// The pattern for the word "secret" or "secrets" standing alone: bounded on
/// each side by an end of the text or by a character that is no lowercase
/// letter.
pub open spec fn secret_pattern() -> Seq<char> {
    "(?:^|[^a-z])secrets?(?:$|[^a-z])"@
}

/// Whether a lowercased name is a dotenv name: `.env` itself, or `.env.`
/// followed by anything.
pub open spec fn is_dotenv(lower: Seq<char>) -> bool {
    lower == ".env"@ || is_prefix(".env."@, lower)
}

/// Whether a lowercased name is secret-like, given what the search for the
/// secret word in it said.
pub open spec fn secret_verdict_of(lower: Seq<char>, found: Option<bool>) -> bool {
    is_dotenv(lower) || found == Some(true)
}

/// Whether a file name is secret-like.
pub open spec fn is_secret_name_spec(name: Seq<char>) -> bool {
    secret_verdict_of(lowercase(name), regex_search(secret_pattern(), lowercase(name)))
}

/// Whether a path is secret-like: whether its final name is, a path without
/// one counting as the empty name.
pub open spec fn is_secret(p: Seq<Seq<char>>) -> bool {
    is_secret_name_spec(
        match file_name_of(p) {
            Some(name) => name,
            None => Seq::empty(),
        },
    )
}

/// Decides whether a lowercased name is secret-like from the name and the
/// outcome of the search for the secret word in it.
pub fn secret_verdict(lower: &str, found: Option<bool>) -> (r: bool)
    ensures
        r == secret_verdict_of(lower@, found),
{
    let chars = to_chars(lower);
    if spells(&chars, ".env") || begins_with(&chars, ".env.") {
        return true;
    }
    match found {
        Some(b) => b,
        None => false,
    }
}

/// Whether a file name is secret-like.
pub fn is_secret_name(name: &str) -> (r: bool)
    ensures
        r == is_secret_name_spec(name@),
{
    let lower = to_lower(name);
    let found = search("(?:^|[^a-z])secrets?(?:$|[^a-z])", lower.as_str());
    secret_verdict(lower.as_str(), found)
}

/// Whether a path is secret-like, judged by its final name alone.
pub fn is_secret_path(p: &FilePath) -> (r: bool)
    ensures
        r == is_secret(p@),
{
    match p.file_name() {
        Some(name) => is_secret_name(name),
        None => {
            let empty = String::new();
            is_secret_name(empty.as_str())
        },
    }
}

} // verus!
