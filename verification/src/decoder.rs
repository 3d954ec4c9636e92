//! From an identifier back to its numbers.

use vstd::prelude::*;
use vstd::slice::{slice_subrange, slice_to_vec};
use crate::codec::{all_in, first_index, lemma_first_index_bounds, number_of, position};
use crate::encoder::{lemma_working_alphabet_keeps, rotate_reverse, working_alphabet};
use crate::shuffle::{lemma_shuffled_keeps, same_chars, shuffled};
use crate::sqids::{all_chars_in, Sqids};
use crate::text::chars_of;

verus! {

/// The numbers that `rest` holds under the working alphabet. Up to the first
/// separator (the working alphabet's first character) stands one number, in
/// the digits of the working alphabet without the separator; what follows the
/// separator is read under the permuted alphabet. An empty chunk ends the
/// reading.
pub open spec fn decoded_rest(rest: Seq<char>, working: Seq<char>) -> Seq<u64>
    decreases rest.len(),
{
    if rest.len() == 0 {
        Seq::empty()
    } else {
        let k = first_index(rest, working[0]);
        if k <= 0 {
            Seq::empty()
        } else if k >= rest.len() {
            seq![number_of(rest, working.skip(1)) as u64]
        } else {
            seq![number_of(rest.take(k), working.skip(1)) as u64] + decoded_rest(
                rest.skip(k + 1),
                shuffled(working),
            )
        }
    }
}

/// The numbers of an identifier: none for the empty identifier and for one
/// with a character outside the alphabet; else the first character gives the
/// working alphabet, and the rest holds the numbers.
pub open spec fn decoded(alphabet: Seq<char>, id: Seq<char>) -> Seq<u64> {
    if id.len() == 0 || !all_in(id, alphabet) {
        Seq::empty()
    } else {
        decoded_rest(id.skip(1), working_alphabet(alphabet, first_index(alphabet, id[0])))
    }
}

/// A chunk that holds characters of the alphabet, but not the separator, is
/// written in the digits that are left when the separator is taken out.
pub proof fn lemma_chunk_in_digits(chunk: Seq<char>, working: Seq<char>, alphabet: Seq<char>)
    requires
        working.len() >= 1,
        same_chars(alphabet, working),
        all_in(chunk, alphabet),
        forall|i: int| 0 <= i < chunk.len() ==> chunk[i] != working[0],
    ensures
        all_in(chunk, working.skip(1)),
{
    assert forall|i: int| 0 <= i < chunk.len() implies working.skip(1).contains(
        #[trigger] chunk[i],
    ) by {
        let c = chunk[i];
        assert(alphabet.contains(c));
        assert(working.contains(c));
        let j = choose|j: int| 0 <= j < working.len() && working[j] == c;
        assert(j != 0);
        assert(working.skip(1)[j - 1] == c);
    }
}

impl Sqids {
    /// The numbers that `id` holds. An identifier that is empty or has a
    /// character outside the alphabet holds none; one that breaks off holds
    /// those read up to there.
    pub fn decode(&self, id: &str) -> (r: Vec<u64>)
        ensures
            r@ == decoded(self@.alphabet, id@),
    {
        proof {
            use_type_invariant(self);
        }
        let mut ret: Vec<u64> = Vec::new();
        let chars: Vec<char> = chars_of(id);
        if chars.len() == 0 {
            return ret;
        }
        if !all_chars_in(chars.as_slice(), self.alphabet.as_slice()) {
            return ret;
        }
        let offset: usize = position(self.alphabet.as_slice(), chars[0]);
        assert(self@.alphabet.contains(chars@[0]));
        let mut working: Vec<char> = rotate_reverse(self.alphabet.as_slice(), offset);
        let mut rest: Vec<char> = slice_to_vec(slice_subrange(chars.as_slice(), 1, chars.len()));
        let ghost first = working@;
        let ghost all = rest@;
        proof {
            lemma_working_alphabet_keeps(self@.alphabet, offset as int);
            assert(all =~= id@.skip(1));
            assert(all_in(all, self@.alphabet)) by {
                assert forall|i: int| 0 <= i < all.len() implies self@.alphabet.contains(
                    #[trigger] all[i],
                ) by {
                    assert(all[i] == id@[i + 1]);
                }
            }
            assert(ret@ + decoded_rest(rest@, working@) =~= decoded_rest(all, first));
        }
        while rest.len() > 0
            invariant
                self.wf(),
                working@.len() == self@.alphabet.len(),
                same_chars(self@.alphabet, working@),
                all_in(rest@, self@.alphabet),
                ret@ + decoded_rest(rest@, working@) == decoded_rest(all, first),
                decoded_rest(all, first) == decoded(self@.alphabet, id@),
            decreases rest@.len(),
        {
            let separator: char = working[0];
            let k: usize = position(rest.as_slice(), separator);
            proof {
                lemma_first_index_bounds(rest@, separator);
            }
            if k == 0 {
                assert(ret@ + Seq::<u64>::empty() =~= ret@);
                return ret;
            }
            let ghost before = ret@;
            let ghost text = rest@;
            let ghost alphabet_now = working@;
            let chunk: &[char] = slice_subrange(rest.as_slice(), 0, k);
            let digit_set: &[char] = slice_subrange(working.as_slice(), 1, working.len());
            proof {
                assert(chunk@ =~= text.take(k as int));
                assert(k == text.len() ==> chunk@ =~= text);
                assert(all_in(chunk@, self@.alphabet)) by {
                    assert forall|i: int| 0 <= i < chunk@.len() implies self@.alphabet.contains(
                        #[trigger] chunk@[i],
                    ) by {
                        assert(chunk@[i] == text[i]);
                    }
                }
                lemma_chunk_in_digits(chunk@, alphabet_now, self@.alphabet);
            }
            let value: u64 = self.to_number(chunk, digit_set);
            ret.push(value);
            if k < rest.len() {
                let tail: Vec<char> = slice_to_vec(
                    slice_subrange(rest.as_slice(), k + 1, rest.len()),
                );
                working = Sqids::shuffle(working.as_slice());
                rest = tail;
                proof {
                    lemma_shuffled_keeps(alphabet_now);
                    assert(rest@ =~= text.skip(k as int + 1));
                    assert(all_in(rest@, self@.alphabet)) by {
                        assert forall|i: int| 0 <= i < rest@.len() implies self@.alphabet.contains(
                            #[trigger] rest@[i],
                        ) by {
                            assert(rest@[i] == text[i + k as int + 1]);
                        }
                    }
                    assert(ret@ + decoded_rest(rest@, working@) =~= before + decoded_rest(
                        text,
                        alphabet_now,
                    ));
                }
            } else {
                rest = Vec::new();
                proof {
                    assert(ret@ + decoded_rest(rest@, working@) =~= before + decoded_rest(
                        text,
                        alphabet_now,
                    ));
                }
            }
        }
        assert(ret@ + Seq::<u64>::empty() =~= ret@);
        ret
    }
}

} // verus!
