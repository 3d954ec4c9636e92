//! The encoder's configuration and construction.

use vstd::prelude::*;
use vstd::string::StringExecFns;
use crate::text::{
    all_single_byte, ascii_lower, ascii_lower_seq, chars_of, is_single_byte, lowercase_of,
    single_byte, to_ascii_lower,
};
use crate::codec::{all_in, position};
use crate::shuffle::{lemma_shuffled_keeps, shuffled};

verus! {

/// Why an encoder could not be built, or an identifier not be made.
#[derive(Debug, PartialEq, Eq, Structural)]
pub enum Error {
    /// The alphabet holds a character that takes more than one byte.
    AlphabetMultibyteCharacters,
    /// The alphabet holds fewer than three characters.
    AlphabetLength,
    /// The alphabet holds a character twice.
    AlphabetUniqueCharacters,
    /// Every candidate identifier was ruled out by the blocklist.
    BlocklistMaxAttempts,
}

impl Error {
    /// The error in words.
    pub fn message(&self) -> (r: String)
        ensures
            r@ == match self {
                Error::AlphabetMultibyteCharacters => "Alphabet cannot contain multibyte characters"@,
                Error::AlphabetLength => "Alphabet length must be at least 3"@,
                Error::AlphabetUniqueCharacters => "Alphabet must contain unique characters"@,
                Error::BlocklistMaxAttempts => "Reached max attempts to re-generate the ID"@,
            },
    {
        match self {
            Error::AlphabetMultibyteCharacters => String::from_str(
                "Alphabet cannot contain multibyte characters",
            ),
            Error::AlphabetLength => String::from_str("Alphabet length must be at least 3"),
            Error::AlphabetUniqueCharacters => String::from_str(
                "Alphabet must contain unique characters",
            ),
            Error::BlocklistMaxAttempts => String::from_str(
                "Reached max attempts to re-generate the ID",
            ),
        }
    }
}

/// The alphabet used where none is given: lower case, upper case, digits.
pub open spec fn default_alphabet() -> Seq<char> {
    "abcdefghijklmnopqrstuvwxyzABCDEFGHIJKLMNOPQRSTUVWXYZ0123456789"@
}

/// What an encoder is built from.
///
/// The library keeps no word list of its own: whoever builds options or an
/// encoder hands in the bundled word list, which is the blocklist wherever
/// none is given.
#[derive(Debug)]
pub struct Options {
    /// The characters that identifiers are written in.
    pub alphabet: String,
    /// The least length of an identifier.
    pub min_length: u8,
    /// Words that no identifier may hold. A word given twice counts once.
    pub blocklist: Vec<String>,
}

/// The character sequences of a list of strings.
pub open spec fn texts(words: Seq<String>) -> Seq<Seq<char>> {
    Seq::new(words.len(), |i: int| words[i]@)
}

impl Options {
    /// The options with each given part in place of its default. The
    /// default of the blocklist is the bundled word list, `bundled`.
    pub fn new(
        alphabet: Option<String>,
        min_length: Option<u8>,
        blocklist: Option<Vec<String>>,
        bundled: Vec<String>,
    ) -> (r: Options)
        ensures
            r.alphabet@ == match alphabet {
                Some(a) => a@,
                None => default_alphabet(),
            },
            r.min_length == match min_length {
                Some(m) => m,
                None => 0u8,
            },
            r.blocklist@ == match blocklist {
                Some(b) => b@,
                None => bundled@,
            },
    {
        let mut options = Options::default(bundled);
        if let Some(alphabet) = alphabet {
            options.alphabet = alphabet;
        }
        if let Some(min_length) = min_length {
            options.min_length = min_length;
        }
        if let Some(blocklist) = blocklist {
            options.blocklist = blocklist;
        }
        options
    }

    /// The default options: the default alphabet, no least length, and the
    /// bundled word list, `bundled`, as the blocklist.
    pub fn default(bundled: Vec<String>) -> (r: Options)
        ensures
            r.alphabet@ == default_alphabet(),
            r.min_length == 0,
            r.blocklist@ == bundled@,
    {
        Options {
            alphabet: String::from_str(
                "abcdefghijklmnopqrstuvwxyzABCDEFGHIJKLMNOPQRSTUVWXYZ0123456789",
            ),
            min_length: 0,
            blocklist: bundled,
        }
    }
}

/// The fault of a candidate alphabet, if it has one: a character of more than
/// one byte, else fewer than three characters, else a character that repeats.
pub open spec fn alphabet_fault(alphabet: Seq<char>) -> Option<Error> {
    if !all_single_byte(alphabet) {
        Some(Error::AlphabetMultibyteCharacters)
    } else if alphabet.len() < 3 {
        Some(Error::AlphabetLength)
    } else if !alphabet.no_duplicates() {
        Some(Error::AlphabetUniqueCharacters)
    } else {
        None
    }
}

/// The code of the default alphabet's character at position `i`: the lower
/// case letters, then the upper case letters, then the digits.
pub open spec fn default_code(i: int) -> int {
    if i < 26 {
        0x61 + i
    } else if i < 52 {
        0x41 + (i - 26)
    } else {
        0x30 + (i - 52)
    }
}

/// The default alphabet has 62 characters of one byte each, none twice.
pub proof fn lemma_default_alphabet_valid()
    ensures
        default_alphabet().len() == 62,
        alphabet_fault(default_alphabet()) is None,
{
    reveal_strlit("abcdefghijklmnopqrstuvwxyzABCDEFGHIJKLMNOPQRSTUVWXYZ0123456789");
    let s = default_alphabet();
    assert(s.len() == 62);
    assert forall|i: int| 0 <= i < 62 implies (#[trigger] s[i] as u32) as int == default_code(i) by {
        assert(i == 0 || i == 1 || i == 2 || i == 3 || i == 4 || i == 5 || i == 6 || i == 7 || i == 8 || i == 9 || i == 10 || i == 11 || i == 12 || i == 13 || i == 14 || i == 15 || i == 16 || i == 17 || i == 18 || i == 19 || i == 20 || i == 21 || i == 22 || i == 23 || i == 24 || i == 25 || i == 26 || i == 27 || i == 28 || i == 29 || i == 30 || i == 31 || i == 32 || i == 33 || i == 34 || i == 35 || i == 36 || i == 37 || i == 38 || i == 39 || i == 40 || i == 41 || i == 42 || i == 43 || i == 44 || i == 45 || i == 46 || i == 47 || i == 48 || i == 49 || i == 50 || i == 51 || i == 52 || i == 53 || i == 54 || i == 55 || i == 56 || i == 57 || i == 58 || i == 59 || i == 60 || i == 61);
    }
    assert forall|i: int, j: int| 0 <= i < 62 && 0 <= j < 62 && i != j implies s[i] != s[j] by {
        assert((s[i] as u32) as int == default_code(i));
        assert((s[j] as u32) as int == default_code(j));
    }
}

/// A lower-case word is kept in an encoder's blocklist where it has three
/// characters or more, all of them in the lower-case alphabet.
pub open spec fn keeps_word(lower_word: Seq<char>, lower_alphabet: Seq<char>) -> bool {
    lower_word.len() >= 3 && all_in(lower_word, lower_alphabet)
}

/// The blocklist of an encoder: the given words in lower case, in the order
/// given, without those that `keeps_word` rejects, and each only where it
/// comes first.
pub open spec fn kept_words(words: Seq<Seq<char>>, lower_alphabet: Seq<char>) -> Seq<Seq<char>>
    decreases words.len(),
{
    if words.len() == 0 {
        Seq::empty()
    } else {
        let before = kept_words(words.drop_last(), lower_alphabet);
        let word = lowercase_of(words.last());
        if keeps_word(word, lower_alphabet) && !before.contains(word) {
            before.push(word)
        } else {
            before
        }
    }
}

/// `w` is the lower-case form of one of `words`.
pub open spec fn is_lowercase_of_one(words: Seq<Seq<char>>, w: Seq<char>) -> bool {
    exists|i: int| 0 <= i < words.len() && lowercase_of(#[trigger] words[i]) == w
}

/// The blocklist of an encoder holds no word twice, and holds exactly the
/// lower-case forms of the given words that `keeps_word` accepts.
pub proof fn lemma_kept_words(words: Seq<Seq<char>>, lower_alphabet: Seq<char>)
    ensures
        kept_words(words, lower_alphabet).no_duplicates(),
        forall|w: Seq<char>| #[trigger]
            kept_words(words, lower_alphabet).contains(w) <==> keeps_word(w, lower_alphabet)
                && is_lowercase_of_one(words, w),
    decreases words.len(),
{
    let kept = kept_words(words, lower_alphabet);
    if words.len() > 0 {
        let front = words.drop_last();
        let before = kept_words(front, lower_alphabet);
        let word = lowercase_of(words.last());
        lemma_kept_words(front, lower_alphabet);
        assert forall|w: Seq<char>| #[trigger]
            kept.contains(w) <==> keeps_word(w, lower_alphabet) && is_lowercase_of_one(
                words,
                w,
            ) by {
            if kept.contains(w) {
                let k = choose|k: int| 0 <= k < kept.len() && kept[k] == w;
                if k < before.len() {
                    assert(before[k] == w);
                    assert(before.contains(w));
                    assert(is_lowercase_of_one(front, w));
                    let i = choose|i: int|
                        0 <= i < front.len() && lowercase_of(#[trigger] front[i]) == w;
                    assert(lowercase_of(words[i]) == w);
                } else {
                    assert(w == word);
                    assert(lowercase_of(words[words.len() - 1]) == w);
                }
            }
            if keeps_word(w, lower_alphabet) && is_lowercase_of_one(words, w) {
                let i = choose|i: int|
                    0 <= i < words.len() && lowercase_of(#[trigger] words[i]) == w;
                if i < front.len() {
                    assert(lowercase_of(front[i]) == w);
                    assert(is_lowercase_of_one(front, w));
                    assert(before.contains(w));
                    let k = choose|k: int| 0 <= k < before.len() && before[k] == w;
                    assert(kept[k] == w);
                } else if before.contains(w) {
                    let k = choose|k: int| 0 <= k < before.len() && before[k] == w;
                    assert(kept[k] == w);
                } else {
                    assert(kept[kept.len() - 1] == w);
                }
            }
        }
    }
}

/// What an encoder holds, as plain values.
pub ghost struct SqidsView {
    /// The alphabet, already permuted.
    pub alphabet: Seq<char>,
    /// The least length of an identifier.
    pub min_length: nat,
    /// The lower-case words that no identifier may hold.
    pub blocklist: Seq<Seq<char>>,
}

impl SqidsView {
    /// The alphabet has at least three characters, each of one byte, none
    /// twice; and the blocklist holds no word twice.
    pub open spec fn wf(self) -> bool {
        &&& self.alphabet.len() >= 3
        &&& self.alphabet.no_duplicates()
        &&& all_single_byte(self.alphabet)
        &&& self.blocklist.no_duplicates()
    }
}

/// An encoder and decoder of identifiers. It never changes once built.
#[derive(Debug)]
pub struct Sqids {
    pub(crate) alphabet: Vec<char>,
    pub(crate) min_length: u8,
    pub(crate) blocklist: Vec<Vec<char>>,
}

impl View for Sqids {
    type V = SqidsView;

    open(crate) spec fn view(&self) -> SqidsView {
        SqidsView {
            alphabet: self.alphabet@,
            min_length: self.min_length as nat,
            blocklist: crate::blocklist::word_list(self.blocklist@),
        }
    }
}

/// Whether every character takes one byte.
pub fn only_single_bytes(chars: &[char]) -> (r: bool)
    ensures
        r == all_single_byte(chars@),
{
    let mut i: usize = 0;
    while i < chars.len()
        invariant
            i <= chars@.len(),
            forall|k: int| 0 <= k < i ==> is_single_byte(#[trigger] chars@[k]),
        decreases chars@.len() - i,
    {
        if !single_byte(chars[i]) {
            return false;
        }
        i += 1;
    }
    true
}

/// Whether no character occurs twice.
pub fn all_distinct(chars: &[char]) -> (r: bool)
    ensures
        r == chars@.no_duplicates(),
{
    let mut i: usize = 0;
    while i < chars.len()
        invariant
            i <= chars@.len(),
            forall|a: int, b: int| 0 <= a < b < i ==> chars@[a] != chars@[b],
        decreases chars@.len() - i,
    {
        let mut j: usize = 0;
        while j < i
            invariant
                j <= i < chars@.len(),
                forall|a: int| 0 <= a < j ==> chars@[a] != chars@[i as int],
            decreases i - j,
        {
            if chars[j] == chars[i] {
                return false;
            }
            j += 1;
        }
        i += 1;
    }
    true
}

/// Whether every character of `text` occurs in `alphabet`.
pub fn all_chars_in(text: &[char], alphabet: &[char]) -> (r: bool)
    ensures
        r == all_in(text@, alphabet@),
{
    let mut i: usize = 0;
    while i < text.len()
        invariant
            i <= text@.len(),
            forall|k: int| 0 <= k < i ==> alphabet@.contains(#[trigger] text@[k]),
        decreases text@.len() - i,
    {
        if position(alphabet, text[i]) >= alphabet.len() {
            return false;
        }
        i += 1;
    }
    true
}

/// Each character in its ASCII lower-case form.
pub fn lower_chars(chars: &[char]) -> (r: Vec<char>)
    ensures
        r@ == ascii_lower_seq(chars@),
{
    let mut out: Vec<char> = Vec::new();
    let mut i: usize = 0;
    while i < chars.len()
        invariant
            i <= chars@.len(),
            out@.len() == i,
            forall|k: int| 0 <= k < i ==> out@[k] == ascii_lower(chars@[k]),
        decreases chars@.len() - i,
    {
        out.push(to_ascii_lower(chars[i]));
        i += 1;
    }
    assert(out@ =~= ascii_lower_seq(chars@));
    out
}

/// Whether an encoder over `lower_alphabet` keeps the lower-case word.
pub fn keeps(lower_word: &[char], lower_alphabet: &[char]) -> (r: bool)
    ensures
        r == keeps_word(lower_word@, lower_alphabet@),
{
    lower_word.len() >= 3 && all_chars_in(lower_word, lower_alphabet)
}

/// Whether `words` holds `word`.
pub fn holds_word(words: &Vec<Vec<char>>, word: &[char]) -> (r: bool)
    ensures
        r == crate::blocklist::word_list(words@).contains(word@),
{
    let mut i: usize = 0;
    while i < words.len()
        invariant
            i <= words@.len(),
            forall|k: int| 0 <= k < i ==> crate::blocklist::word_list(words@)[k] != word@,
        decreases words@.len() - i,
    {
        let other: &[char] = words[i].as_slice();
        if other.len() == word.len() && crate::blocklist::matches_at(word, other, 0) {
            assert(other@.subrange(0, other@.len() as int) =~= other@);
            assert(crate::blocklist::word_list(words@)[i as int] == word@);
            return true;
        }
        proof {
            if other@ == word@ {
                assert(other@.subrange(0, other@.len() as int) =~= other@);
            }
        }
        i += 1;
    }
    false
}

/// The words of `words` that an encoder over `lower_alphabet` keeps, in lower
/// case, each once.
pub fn filter_blocklist(words: &Vec<String>, lower_alphabet: &[char]) -> (r: Vec<Vec<char>>)
    ensures
        crate::blocklist::word_list(r@) == kept_words(texts(words@), lower_alphabet@),
        crate::blocklist::word_list(r@).no_duplicates(),
{
    let mut out: Vec<Vec<char>> = Vec::new();
    let mut i: usize = 0;
    assert(texts(words@).take(0).len() == 0);
    assert(crate::blocklist::word_list(out@) =~= Seq::<Seq<char>>::empty());
    while i < words.len()
        invariant
            i <= words@.len(),
            crate::blocklist::word_list(out@) == kept_words(
                texts(words@).take(i as int),
                lower_alphabet@,
            ),
        decreases words@.len() - i,
    {
        let lower: String = words[i].as_str().to_lowercase();
        let word: Vec<char> = chars_of(lower.as_str());
        let ghost before = crate::blocklist::word_list(out@);
        proof {
            let t = texts(words@).take(i as int + 1);
            assert(t.drop_last() =~= texts(words@).take(i as int));
            assert(t.last() == words@[i as int]@);
        }
        if keeps(word.as_slice(), lower_alphabet) && !holds_word(&out, word.as_slice()) {
            out.push(word);
            assert(crate::blocklist::word_list(out@) =~= before.push(word@));
        }
        i += 1;
    }
    assert(texts(words@).take(i as int) =~= texts(words@));
    proof {
        lemma_kept_words(texts(words@), lower_alphabet@);
    }
    out
}

impl Sqids {
    /// The default encoder: the default alphabet, no least length, and of
    /// the bundled word list, `bundled`, the words that can occur in an
    /// identifier. It never fails, the default alphabet being a valid one.
    pub fn default(bundled: Vec<String>) -> (r: Sqids)
        ensures
            r.wf(),
            r@.alphabet == shuffled(default_alphabet()),
            r@.min_length == 0,
            r@.blocklist == kept_words(texts(bundled@), ascii_lower_seq(default_alphabet())),
    {
        proof {
            lemma_default_alphabet_valid();
        }
        match Sqids::new(None, bundled) {
            Ok(sqids) => sqids,
            Err(_) => vstd::pervasive::unreached(),
        }
    }

    /// The encoder is usable: see [`SqidsView::wf`].
    pub open spec fn wf(&self) -> bool {
        self@.wf()
    }

    /// Every encoder is usable.
    #[verifier::type_invariant]
    pub(crate) open spec fn usable(self) -> bool {
        self.wf()
    }

    /// Builds an encoder from `options`, or from the default options where
    /// none are given: those have the bundled word list, `bundled`, as their
    /// blocklist. A faulty alphabet is refused; otherwise the encoder holds
    /// the permuted alphabet, the least length, and the words of the
    /// blocklist that can occur in an identifier, in lower case, each once.
    pub fn new(options: Option<Options>, bundled: Vec<String>) -> (r: Result<Sqids, Error>)
        ensures
            ({
                let alphabet = match options {
                    Some(o) => o.alphabet@,
                    None => default_alphabet(),
                };
                let min_length = match options {
                    Some(o) => o.min_length,
                    None => 0u8,
                };
                let words = match options {
                    Some(o) => texts(o.blocklist@),
                    None => texts(bundled@),
                };
                match r {
                    Ok(s) => {
                        &&& alphabet_fault(alphabet) is None
                        &&& s.wf()
                        &&& s@.alphabet == shuffled(alphabet)
                        &&& s@.min_length == min_length
                        &&& s@.blocklist == kept_words(words, ascii_lower_seq(alphabet))
                    },
                    Err(e) => alphabet_fault(alphabet) == Some(e),
                }
            }),
    {
        let options: Options = match options {
            Some(o) => o,
            None => Options::default(bundled),
        };
        let alphabet: Vec<char> = chars_of(options.alphabet.as_str());
        if !only_single_bytes(alphabet.as_slice()) {
            return Err(Error::AlphabetMultibyteCharacters);
        }
        if alphabet.len() < 3 {
            return Err(Error::AlphabetLength);
        }
        if !all_distinct(alphabet.as_slice()) {
            return Err(Error::AlphabetUniqueCharacters);
        }
        let lower_alphabet: Vec<char> = lower_chars(alphabet.as_slice());
        let blocklist: Vec<Vec<char>> = filter_blocklist(
            &options.blocklist,
            lower_alphabet.as_slice(),
        );
        let canonical: Vec<char> = Sqids::shuffle(alphabet.as_slice());
        proof {
            lemma_shuffled_keeps(alphabet@);
            assert(all_single_byte(canonical@)) by {
                assert forall|i: int| 0 <= i < canonical@.len() implies is_single_byte(
                    #[trigger] canonical@[i],
                ) by {
                    assert(canonical@.contains(canonical@[i]));
                    assert(alphabet@.contains(canonical@[i]));
                }
            }
        }
        Ok(Sqids { alphabet: canonical, min_length: options.min_length, blocklist })
    }
}

} // verus!
