//! Deciding whether an identifier holds a word that must not appear.

use vstd::prelude::*;
use crate::text::{is_ascii_digit, ascii_digit};

verus! {

/// `word` stands in `id` at position `k`.
pub open spec fn occurs_at(word: Seq<char>, id: Seq<char>, k: int) -> bool {
    0 <= k && k + word.len() <= id.len() && id.subrange(k, k + word.len()) == word
}

/// `word` stands somewhere in `id`.
pub open spec fn occurs_in(word: Seq<char>, id: Seq<char>) -> bool {
    exists|k: int| occurs_at(word, id, k)
}

/// `word` holds one of `0`..`9`.
pub open spec fn has_digit(word: Seq<char>) -> bool {
    exists|i: int| 0 <= i < word.len() && is_ascii_digit(#[trigger] word[i])
}

/// Whether one word rules out an identifier, both in lower case. A word longer
/// than the identifier never does. A short word or a short identifier (three
/// characters or fewer) counts only where the two are equal; a word with a
/// digit where the identifier begins or ends with it; any other word where it
/// occurs anywhere.
pub open spec fn word_blocks(word: Seq<char>, id: Seq<char>) -> bool {
    word.len() <= id.len() && if id.len() <= 3 || word.len() <= 3 {
        id == word
    } else if has_digit(word) {
        occurs_at(word, id, 0) || occurs_at(word, id, id.len() - word.len())
    } else {
        occurs_in(word, id)
    }
}

/// Whether any word of the list rules out the identifier.
pub open spec fn blocked(id: Seq<char>, words: Seq<Seq<char>>) -> bool {
    exists|i: int| 0 <= i < words.len() && word_blocks(#[trigger] words[i], id)
}

/// The character sequences that a list of words holds.
pub open spec fn word_list(words: Seq<Vec<char>>) -> Seq<Seq<char>> {
    Seq::new(words.len(), |i: int| words[i]@)
}

/// Whether `word` stands in `id` at `k`.
pub fn matches_at(word: &[char], id: &[char], k: usize) -> (r: bool)
    ensures
        r == occurs_at(word@, id@, k as int),
{
    let n: usize = word.len();
    if k > id.len() || n > id.len() - k {
        return false;
    }
    let ghost part = id@.subrange(k as int, k + n);
    let mut i: usize = 0;
    while i < n
        invariant
            n == word@.len(),
            k + n <= id@.len() <= usize::MAX,
            i <= n,
            part == id@.subrange(k as int, k + n),
            forall|t: int| 0 <= t < i ==> part[t] == word@[t],
        decreases n - i,
    {
        if id[k + i] != word[i] {
            assert(part[i as int] != word@[i as int]);
            return false;
        }
        i += 1;
    }
    assert(part =~= word@);
    true
}

/// Whether `word` stands somewhere in `id`.
pub fn contains_word(word: &[char], id: &[char]) -> (r: bool)
    ensures
        r == occurs_in(word@, id@),
{
    if word.len() > id.len() {
        return false;
    }
    let last: usize = id.len() - word.len();
    let mut k: usize = 0;
    while k <= last
        invariant
            last == id@.len() - word@.len(),
            k <= last + 1,
            forall|t: int| 0 <= t < k ==> !occurs_at(word@, id@, t),
        decreases last + 1 - k,
    {
        if matches_at(word, id, k) {
            return true;
        }
        if k == last {
            return false;
        }
        k += 1;
    }
    false
}

/// Whether `word` holds a digit.
pub fn contains_digit(word: &[char]) -> (r: bool)
    ensures
        r == has_digit(word@),
{
    let mut i: usize = 0;
    while i < word.len()
        invariant
            i <= word@.len(),
            forall|t: int| 0 <= t < i ==> !is_ascii_digit(#[trigger] word@[t]),
        decreases word@.len() - i,
    {
        if ascii_digit(word[i]) {
            return true;
        }
        i += 1;
    }
    false
}

/// Whether `word` rules out `id`, both in lower case.
pub fn blocks(word: &[char], id: &[char]) -> (r: bool)
    ensures
        r == word_blocks(word@, id@),
{
    if word.len() > id.len() {
        return false;
    }
    if id.len() <= 3 || word.len() <= 3 {
        if word.len() != id.len() {
            return false;
        }
        let same: bool = matches_at(word, id, 0);
        assert(id@.subrange(0, id@.len() as int) =~= id@);
        same
    } else if contains_digit(word) {
        matches_at(word, id, 0) || matches_at(word, id, id.len() - word.len())
    } else {
        contains_word(word, id)
    }
}

/// Whether any word of `words` rules out the lower-case identifier `id`.
pub fn is_blocked(id: &[char], words: &Vec<Vec<char>>) -> (r: bool)
    ensures
        r == blocked(id@, word_list(words@)),
{
    let mut i: usize = 0;
    while i < words.len()
        invariant
            i <= words@.len(),
            forall|t: int| 0 <= t < i ==> !word_blocks(#[trigger] word_list(words@)[t], id@),
        decreases words@.len() - i,
    {
        if blocks(words[i].as_slice(), id) {
            assert(word_blocks(word_list(words@)[i as int], id@));
            return true;
        }
        i += 1;
    }
    false
}

} // verus!
