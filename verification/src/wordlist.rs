//! Reading a blocklist that is kept as JSON: an array of strings.

use vstd::prelude::*;
use crate::sqids::texts;

verus! {

/// What `serde_json::from_str` makes of a text when asked for a list of
/// strings: the strings of the JSON array in their order, or `None` where the
/// text is no such array.
pub uninterp spec fn json_word_list(text: Seq<char>) -> Option<Seq<Seq<char>>>;

/// `serde_json::from_str` for a `Vec<String>`. Trusted: the outcome depends
/// on the text alone and is what `json_word_list` names, the parser's error
/// standing for `None`.
#[verifier::external_body]
fn parse_word_list(text: &str) -> (r: Option<Vec<String>>)
    ensures
        match r {
            Some(words) => json_word_list(text@) == Some(texts(words@)),
            None => json_word_list(text@) is None,
        },
{
    serde_json::from_str::<Vec<String>>(text).ok()
}


/// The words of a blocklist written as a JSON array of strings, or `None`
/// where the text is not one.
pub fn blocklist_from_json(text: &str) -> (r: Option<Vec<String>>)
    ensures
        match r {
            Some(words) => json_word_list(text@) == Some(texts(words@)),
            None => json_word_list(text@) is None,
        },
{
    parse_word_list(text)
}

} // verus!
