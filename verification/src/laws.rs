//! What holds of encoding and decoding taken together.

use vstd::prelude::*;
use vstd::arithmetic::div_mod::lemma_mod_bound;
use crate::codec::{
    all_in, digits, lemma_digits_in_alphabet, lemma_first_index_absent, lemma_first_index_is,
    lemma_number_of_digits,
};
use crate::decoder::{decoded, decoded_rest};
use crate::encoder::{
    candidate, encoded, encoded_from, filler, joined, last_working, lemma_working_alphabet_keeps,
    offset, offset_sum, unpadded, working_alphabet,
};
use crate::shuffle::{lemma_shuffled_keeps, same_chars, shuffled, shuffled_times};
use crate::blocklist::{blocked, word_blocks};
use crate::sqids::{is_lowercase_of_one, keeps_word, kept_words, lemma_kept_words, SqidsView};
use crate::text::lowercase_of;

verus! {

/// Permuting any number of times keeps the length and the characters, and
/// brings in no character twice.
pub proof fn lemma_shuffled_times_keeps(s: Seq<char>, k: nat)
    ensures
        shuffled_times(s, k).len() == s.len(),
        same_chars(s, shuffled_times(s, k)),
        s.no_duplicates() ==> shuffled_times(s, k).no_duplicates(),
    decreases k,
{
    if k > 0 {
        lemma_shuffled_times_keeps(s, (k - 1) as nat);
        lemma_shuffled_keeps(shuffled_times(s, (k - 1) as nat));
    }
}

/// Permuting first and then `k` times is permuting `k + 1` times.
pub proof fn lemma_shuffled_times_shift(s: Seq<char>, k: nat)
    ensures
        shuffled_times(shuffled(s), k) == shuffled_times(s, k + 1),
    decreases k,
{
    if k == 0 {
        assert(shuffled_times(s, 0) == s);
        assert(shuffled_times(s, 1) == shuffled(shuffled_times(s, 0)));
    } else {
        lemma_shuffled_times_shift(s, (k - 1) as nat);
        assert(shuffled_times(s, k + 1) == shuffled(shuffled_times(s, k)));
    }
}

/// Filling has exactly the length asked for.
pub proof fn lemma_filler_len(working: Seq<char>, need: nat)
    requires
        working.len() > 0,
    ensures
        filler(working, need).len() == need,
    decreases need,
{
    if need > 0 {
        lemma_shuffled_keeps(working);
        let next = shuffled(working);
        let k = if need <= working.len() {
            need
        } else {
            working.len()
        };
        lemma_filler_len(next, (need - k) as nat);
    }
}

/// Filling is made of characters of the alphabet.
pub proof fn lemma_filler_in(working: Seq<char>, need: nat, alphabet: Seq<char>)
    requires
        same_chars(alphabet, working),
    ensures
        all_in(filler(working, need), alphabet),
    decreases need,
{
    if need > 0 && working.len() > 0 {
        lemma_shuffled_keeps(working);
        let next = shuffled(working);
        let k = if need <= working.len() {
            need
        } else {
            working.len()
        };
        lemma_filler_in(next, (need - k) as nat, alphabet);
        let head = next.take(k as int);
        let tail = filler(next, (need - k) as nat);
        assert forall|i: int| 0 <= i < filler(working, need).len() implies alphabet.contains(
            #[trigger] filler(working, need)[i],
        ) by {
            if i < k {
                assert(filler(working, need)[i] == next[i]);
                assert(next.contains(next[i]));
            } else {
                assert(filler(working, need)[i] == tail[i - k]);
            }
        }
    }
}

/// The written numbers are made of characters of the alphabet.
pub proof fn lemma_joined_in(numbers: Seq<u64>, working: Seq<char>, alphabet: Seq<char>)
    requires
        working.len() >= 3,
        same_chars(alphabet, working),
    ensures
        all_in(joined(numbers, working), alphabet),
    decreases numbers.len(),
{
    if numbers.len() > 0 {
        let set = working.skip(1);
        let d = digits(numbers[0] as nat, set);
        lemma_digits_in_alphabet(numbers[0] as nat, set);
        assert forall|i: int| 0 <= i < d.len() implies alphabet.contains(#[trigger] d[i]) by {
            assert(set.contains(d[i]));
            let j = choose|j: int| 0 <= j < set.len() && set[j] == d[i];
            assert(working[j + 1] == d[i]);
            assert(working.contains(d[i]));
        }
        if numbers.len() > 1 {
            lemma_shuffled_keeps(working);
            lemma_joined_in(numbers.skip(1), shuffled(working), alphabet);
            let rest = joined(numbers.skip(1), shuffled(working));
            let all = joined(numbers, working);
            assert(working.contains(working[0]));
            assert forall|i: int| 0 <= i < all.len() implies alphabet.contains(#[trigger] all[i]) by {
                if i < d.len() {
                    assert(all[i] == d[i]);
                } else if i == d.len() {
                    assert(all[i] == working[0]);
                } else {
                    assert(all[i] == rest[i - d.len() - 1]);
                }
            }
        }
    }
}

/// What may follow the last number: nothing, or the separator and then
/// filling, which begins with the separator that comes next.
pub open spec fn ends_reading(tail: Seq<char>, last: Seq<char>) -> bool {
    tail.len() == 0 || (tail[0] == last[0] && (tail.len() == 1 || tail[1] == shuffled(last)[0]))
}

/// Reading what was written gives the numbers back, whatever filling follows.
pub proof fn lemma_decoded_joined(numbers: Seq<u64>, working: Seq<char>, tail: Seq<char>)
    requires
        numbers.len() >= 1,
        working.len() >= 3,
        working.no_duplicates(),
        ends_reading(tail, last_working(working, numbers.len())),
    ensures
        decoded_rest(joined(numbers, working) + tail, working) == numbers,
    decreases numbers.len(),
{
    let separator = working[0];
    let set = working.skip(1);
    let v = numbers[0];
    let d = digits(v as nat, set);
    lemma_digits_in_alphabet(v as nat, set);
    assert(set.no_duplicates());
    lemma_number_of_digits(v as nat, set);
    assert forall|i: int| 0 <= i < d.len() implies d[i] != separator by {
        assert(set.contains(d[i]));
        let j = choose|j: int| 0 <= j < set.len() && set[j] == d[i];
        assert(working[j + 1] == d[i]);
    }
    let text = joined(numbers, working) + tail;
    let k = d.len() as int;
    lemma_shuffled_keeps(working);
    if numbers.len() == 1 {
        assert(last_working(working, 1) == working);
        assert(text =~= d + tail);
        if tail.len() == 0 {
            assert(text =~= d);
            lemma_first_index_absent(text, separator);
            assert(seq![v] =~= numbers);
        } else {
            assert(text[k] == separator);
            assert forall|i: int| 0 <= i < k implies text[i] != separator by {
                assert(text[i] == d[i]);
            }
            lemma_first_index_is(text, separator, k);
            assert(text.take(k) =~= d);
            let after = text.skip(k + 1);
            assert(after =~= tail.skip(1));
            if after.len() > 0 {
                assert(after[0] == shuffled(working)[0]);
                lemma_first_index_is(after, shuffled(working)[0], 0);
            }
            assert(decoded_rest(after, shuffled(working)) =~= Seq::<u64>::empty());
            assert(seq![v] + Seq::<u64>::empty() =~= numbers);
        }
    } else {
        let next = shuffled(working);
        let rest = joined(numbers.skip(1), next);
        assert(text =~= d.push(separator) + rest + tail);
        assert(text[k] == separator);
        assert forall|i: int| 0 <= i < k implies text[i] != separator by {
            assert(text[i] == d[i]);
        }
        lemma_first_index_is(text, separator, k);
        assert(text.take(k) =~= d);
        assert(text.skip(k + 1) =~= rest + tail);
        lemma_shuffled_times_shift(working, (numbers.len() - 2) as nat);
        assert(last_working(next, numbers.skip(1).len()) == last_working(working, numbers.len()));
        lemma_decoded_joined(numbers.skip(1), next, tail);
        assert(seq![v] + numbers.skip(1) =~= numbers);
    }
}

/// Each attempt's identifier is at least as long as asked, is written in the
/// alphabet, and reads back as the numbers it was made from.
pub proof fn lemma_candidate(s: SqidsView, numbers: Seq<u64>, increment: nat)
    requires
        s.wf(),
        numbers.len() > 0,
    ensures
        candidate(s.alphabet, s.min_length, numbers, increment).len() >= s.min_length,
        candidate(s.alphabet, s.min_length, numbers, increment).len() >= 2,
        all_in(candidate(s.alphabet, s.min_length, numbers, increment), s.alphabet),
        decoded(s.alphabet, candidate(s.alphabet, s.min_length, numbers, increment)) == numbers,
{
    let a = s.alphabet;
    let n = a.len() as int;
    let off = offset(a, numbers, increment) as int;
    let sum = offset_sum(a, numbers, numbers.len()) as int;
    lemma_mod_bound((sum % n) + increment, n);
    let w = working_alphabet(a, off);
    lemma_working_alphabet_keeps(a, off);
    let body = unpadded(a, numbers, increment);
    let id = candidate(a, s.min_length, numbers, increment);
    let last = last_working(w, numbers.len());
    lemma_shuffled_times_keeps(w, (numbers.len() - 1) as nat);
    lemma_shuffled_keeps(last);
    let need = (s.min_length - body.len() - 1) as nat;
    let tail = if body.len() >= s.min_length {
        Seq::<char>::empty()
    } else {
        seq![last[0]] + filler(last, need)
    };
    let written = joined(numbers, w);
    assert(id =~= seq![a[off]] + (written + tail));
    lemma_joined_in(numbers, w, a);
    lemma_digits_in_alphabet(numbers[0] as nat, w.skip(1));
    assert(written.len() >= 1);
    if body.len() < s.min_length {
        lemma_filler_len(last, need);
        lemma_filler_in(last, need, a);
        assert(last.contains(last[0]));
        if need > 0 {
            assert(filler(last, need)[0] == shuffled(last)[0]);
        }
        assert forall|i: int| 0 <= i < tail.len() implies a.contains(#[trigger] tail[i]) by {
            if i > 0 {
                assert(tail[i] == filler(last, need)[i - 1]);
            }
        }
    }
    assert(ends_reading(tail, last));
    assert(a.contains(a[off]));
    assert forall|i: int| 0 <= i < id.len() implies a.contains(#[trigger] id[i]) by {
        if i == 0 {
        } else if i - 1 < written.len() {
            assert(id[i] == written[i - 1]);
        } else {
            assert(id[i] == tail[i - 1 - written.len()]);
        }
    }
    lemma_first_index_is(a, a[off], off);
    assert(id.skip(1) =~= written + tail);
    lemma_decoded_joined(numbers, w, tail);
}

/// An identifier that comes out of the attempts is one attempt's identifier.
pub proof fn lemma_encoded_from(s: SqidsView, numbers: Seq<u64>, increment: nat)
    requires
        s.wf(),
        numbers.len() > 0,
    ensures
        match encoded_from(s.alphabet, s.min_length, s.blocklist, numbers, increment) {
            Some(id) => id.len() >= s.min_length && id.len() >= 2 && all_in(id, s.alphabet)
                && decoded(s.alphabet, id) == numbers,
            None => true,
        },
    decreases s.alphabet.len() + 1 - increment,
{
    if increment <= s.alphabet.len() {
        lemma_candidate(s, numbers, increment);
        lemma_encoded_from(s, numbers, increment + 1);
    }
}

/// Decoding undoes encoding: whenever numbers, at least one, are given an
/// identifier, that identifier holds exactly those numbers, in their order.
pub proof fn lemma_round_trip(s: SqidsView, numbers: Seq<u64>)
    requires
        s.wf(),
        numbers.len() > 0,
    ensures
        encoded(s.alphabet, s.min_length, s.blocklist, numbers) matches Some(id) ==> decoded(
            s.alphabet,
            id,
        ) == numbers,
{
    lemma_encoded_from(s, numbers, 0);
}

/// No numbers give the empty identifier, and the empty identifier holds no numbers.
pub proof fn lemma_empty(s: SqidsView)
    ensures
        encoded(s.alphabet, s.min_length, s.blocklist, Seq::<u64>::empty()) == Some(
            Seq::<char>::empty(),
        ),
        decoded(s.alphabet, Seq::<char>::empty()) == Seq::<u64>::empty(),
{
}

/// An identifier with a character from outside the alphabet holds no numbers.
pub proof fn lemma_unknown_character(s: SqidsView, id: Seq<char>, i: int)
    requires
        0 <= i < id.len(),
        !s.alphabet.contains(id[i]),
    ensures
        decoded(s.alphabet, id) == Seq::<u64>::empty(),
{
}

/// An identifier with a character that the alphabet an encoder was built
/// from does not hold, holds no numbers for that encoder.
pub proof fn lemma_unknown_configured_character(configured: Seq<char>, id: Seq<char>, i: int)
    requires
        0 <= i < id.len(),
        !configured.contains(id[i]),
    ensures
        decoded(shuffled(configured), id) == Seq::<u64>::empty(),
{
    lemma_shuffled_keeps(configured);
}

/// The identifier of one number or more is never shorter than the least length.
pub proof fn lemma_min_length(s: SqidsView, numbers: Seq<u64>)
    requires
        s.wf(),
        numbers.len() > 0,
    ensures
        encoded(s.alphabet, s.min_length, s.blocklist, numbers) matches Some(id) ==> id.len()
            >= s.min_length,
{
    lemma_encoded_from(s, numbers, 0);
}

/// With nothing on the blocklist, every sequence of numbers gets an
/// identifier, and it is the one of the first attempt.
pub proof fn lemma_empty_blocklist_succeeds(s: SqidsView, numbers: Seq<u64>)
    requires
        s.blocklist.len() == 0,
        numbers.len() > 0,
    ensures
        encoded(s.alphabet, s.min_length, s.blocklist, numbers) == Some(
            candidate(s.alphabet, s.min_length, numbers, 0),
        ),
{
}

/// What an encoder's blocklist rules out does not depend on how often or in
/// what order the words were given: an identifier in lower case is blocked
/// exactly where the lower-case form of one of the given words is kept and
/// rules it out.
pub proof fn lemma_blocked_by_given_words(
    words: Seq<Seq<char>>,
    lower_alphabet: Seq<char>,
    id: Seq<char>,
)
    ensures
        blocked(id, kept_words(words, lower_alphabet)) <==> exists|i: int|
            0 <= i < words.len() && keeps_word(lowercase_of(#[trigger] words[i]), lower_alphabet)
                && word_blocks(lowercase_of(words[i]), id),
{
    let kept = kept_words(words, lower_alphabet);
    lemma_kept_words(words, lower_alphabet);
    if blocked(id, kept) {
        let k = choose|k: int| 0 <= k < kept.len() && word_blocks(#[trigger] kept[k], id);
        assert(kept.contains(kept[k]));
        assert(is_lowercase_of_one(words, kept[k]));
        let i = choose|i: int| 0 <= i < words.len() && lowercase_of(#[trigger] words[i]) == kept[k];
        assert(keeps_word(lowercase_of(words[i]), lower_alphabet) && word_blocks(
            lowercase_of(words[i]),
            id,
        ));
    }
    if exists|i: int|
        0 <= i < words.len() && keeps_word(lowercase_of(#[trigger] words[i]), lower_alphabet)
            && word_blocks(lowercase_of(words[i]), id) {
        let i = choose|i: int|
            0 <= i < words.len() && keeps_word(lowercase_of(#[trigger] words[i]), lower_alphabet)
                && word_blocks(lowercase_of(words[i]), id);
        let w = lowercase_of(words[i]);
        assert(is_lowercase_of_one(words, w));
        assert(kept.contains(w));
        let k = choose|k: int| 0 <= k < kept.len() && kept[k] == w;
        assert(word_blocks(kept[k], id));
    }
}

/// Encoders that hold the same values give the same identifier to the same
/// numbers, and read the same numbers from the same identifier.
pub proof fn lemma_deterministic(
    a: SqidsView,
    b: SqidsView,
    numbers_a: Seq<u64>,
    numbers_b: Seq<u64>,
    id_a: Seq<char>,
    id_b: Seq<char>,
)
    requires
        a == b,
        numbers_a == numbers_b,
        id_a == id_b,
    ensures
        encoded(a.alphabet, a.min_length, a.blocklist, numbers_a) == encoded(
            b.alphabet,
            b.min_length,
            b.blocklist,
            numbers_b,
        ),
        decoded(a.alphabet, id_a) == decoded(b.alphabet, id_b),
{
}

} // verus!
