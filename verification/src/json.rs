//! The two calls into `serde_json`.
//!
//! A string of a command stands in its line as a JSON string literal. Which
//! literal `serde_json` writes for a text, and which text it reads from a
//! literal, is not written out here: each of the two has a name, and the two
//! wrappers are trusted to return what the names stand for. Nothing more is
//! taken on trust of `serde_json`: the codec reads every literal back before
//! it uses it.

use vstd::prelude::*;

verus! {

/// The error of `serde_json`. Nothing is known of what it holds.
#[verifier::external_type_specification]
#[verifier::external_body]
pub struct ExJsonError(serde_json::Error);

/// The bytes that `serde_json::to_vec` writes for the text `text`, or `None`
/// where it returns an error.
pub uninterp spec fn json_quoted(text: Seq<char>) -> Option<Seq<u8>>;

/// The text that `serde_json::from_slice` reads as a `String` from the bytes
/// `token`, or `None` where it returns an error.
pub uninterp spec fn json_unquoted(token: Seq<u8>) -> Option<Seq<char>>;

/// Calls `serde_json::to_vec` on a string slice, which writes the slice as
/// one JSON string literal. Trusted: the bytes that come back are those that
/// `json_quoted` names for the text, and an error comes back only where it
/// names none.
#[verifier::external_body]
pub(crate) fn quote(text: &str) -> (r: Result<Vec<u8>, serde_json::Error>)
    ensures
        match r {
            Ok(token) => json_quoted(text@) == Some(token@),
            Err(_) => json_quoted(text@) is None,
        },
{
    serde_json::to_vec(text)
}

/// Calls `serde_json::from_slice` for a `String`, which reads the bytes as
/// one JSON string literal and nothing after it. Trusted: the text that
/// comes back is the one that `json_unquoted` names for the bytes, and an
/// error comes back only where it names none.
#[verifier::external_body]
pub(crate) fn unquote(token: &[u8]) -> (r: Result<String, serde_json::Error>)
    ensures
        match r {
            Ok(text) => json_unquoted(token@) == Some(text@),
            Err(_) => json_unquoted(token@) is None,
        },
{
    serde_json::from_slice::<String>(token)
}

} // verus!
