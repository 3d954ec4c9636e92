//! From numbers to an identifier.

use vstd::prelude::*;
use vstd::slice::slice_subrange;
use vstd::arithmetic::div_mod::{lemma_add_mod_noop_right, lemma_mod_bound};
use crate::blocklist::{blocked, is_blocked};
use crate::codec::digits;
use crate::shuffle::{same_chars, shuffled, shuffled_times};
use crate::sqids::{Error, Sqids};
use crate::text::{chars_of, lowercase_of, string_of};

verus! {

/// The sum that the offset is taken from, over the first `k` numbers: the
/// count of all numbers, and for each number its position plus the code of
/// the alphabet's character at the number modulo the alphabet's length.
pub open spec fn offset_sum(alphabet: Seq<char>, numbers: Seq<u64>, k: nat) -> nat
    decreases k,
{
    if k == 0 {
        numbers.len()
    } else {
        let c = alphabet[(numbers[k - 1] as nat % alphabet.len()) as int];
        offset_sum(alphabet, numbers, (k - 1) as nat) + (c as u32) as nat + (k - 1) as nat
    }
}

/// Where the alphabet is cut for the given numbers at the given attempt.
pub open spec fn offset(alphabet: Seq<char>, numbers: Seq<u64>, increment: nat) -> nat {
    let n = alphabet.len();
    ((offset_sum(alphabet, numbers, numbers.len()) % n) + increment) % n
}

/// `x` brought back into `0..n`, for `x` below `2 * n`.
pub open spec fn wrapped(x: int, n: int) -> int {
    if x >= n {
        x - n
    } else {
        x
    }
}

/// The alphabet read cyclically from `offset`, then reversed.
pub open spec fn working_alphabet(alphabet: Seq<char>, offset: int) -> Seq<char> {
    Seq::new(
        alphabet.len(),
        |i: int| alphabet[wrapped(offset + alphabet.len() - 1 - i, alphabet.len() as int)],
    )
}

/// The numbers written one after the other: each in the digits of the working
/// alphabet without its first character, that first character between two
/// numbers, and the working alphabet permuted after each separator.
pub open spec fn joined(numbers: Seq<u64>, working: Seq<char>) -> Seq<char>
    decreases numbers.len(),
{
    if numbers.len() == 0 {
        Seq::empty()
    } else if numbers.len() == 1 {
        digits(numbers[0] as nat, working.skip(1))
    } else {
        digits(numbers[0] as nat, working.skip(1)).push(working[0]) + joined(
            numbers.skip(1),
            shuffled(working),
        )
    }
}

/// `need` characters of filling: the working alphabet is permuted and as much
/// of its front as is still missing is taken, again and again.
pub open spec fn filler(working: Seq<char>, need: nat) -> Seq<char>
    decreases need,
{
    if need == 0 || working.len() == 0 {
        Seq::empty()
    } else {
        let next = shuffled(working);
        let k = if need <= working.len() {
            need
        } else {
            working.len()
        };
        next.take(k as int) + filler(next, (need - k) as nat)
    }
}

/// The working alphabet after the last of `count` numbers was written.
pub open spec fn last_working(working: Seq<char>, count: nat) -> Seq<char> {
    shuffled_times(
        working,
        if count == 0 {
            0
        } else {
            (count - 1) as nat
        },
    )
}

/// The identifier before filling: the alphabet's character at the offset,
/// then the numbers.
pub open spec fn unpadded(alphabet: Seq<char>, numbers: Seq<u64>, increment: nat) -> Seq<char> {
    let off = offset(alphabet, numbers, increment) as int;
    seq![alphabet[off]] + joined(numbers, working_alphabet(alphabet, off))
}

/// The identifier that attempt `increment` makes, blocked or not. Where the
/// numbers alone are shorter than `min_length`, a separator and filling follow.
pub open spec fn candidate(
    alphabet: Seq<char>,
    min_length: nat,
    numbers: Seq<u64>,
    increment: nat,
) -> Seq<char> {
    let off = offset(alphabet, numbers, increment) as int;
    let body = unpadded(alphabet, numbers, increment);
    if body.len() >= min_length {
        body
    } else {
        let last = last_working(working_alphabet(alphabet, off), numbers.len());
        body.push(last[0]) + filler(last, (min_length - body.len() - 1) as nat)
    }
}

/// The first candidate from attempt `increment` on that the blocklist lets
/// pass, or `None` where every attempt up to the alphabet's length is blocked.
pub open spec fn encoded_from(
    alphabet: Seq<char>,
    min_length: nat,
    blocklist: Seq<Seq<char>>,
    numbers: Seq<u64>,
    increment: nat,
) -> Option<Seq<char>>
    decreases alphabet.len() + 1 - increment,
{
    if increment > alphabet.len() {
        None
    } else {
        let id = candidate(alphabet, min_length, numbers, increment);
        if blocked(lowercase_of(id), blocklist) {
            encoded_from(alphabet, min_length, blocklist, numbers, increment + 1)
        } else {
            Some(id)
        }
    }
}

/// The identifier of `numbers`: empty for no numbers, else the first candidate
/// that is not blocked.
pub open spec fn encoded(
    alphabet: Seq<char>,
    min_length: nat,
    blocklist: Seq<Seq<char>>,
    numbers: Seq<u64>,
) -> Option<Seq<char>> {
    if numbers.len() == 0 {
        Some(Seq::empty())
    } else {
        encoded_from(alphabet, min_length, blocklist, numbers, 0)
    }
}

/// What cutting and reversing keeps of an alphabet: its length, its
/// characters, and that none of them occurs twice.
pub proof fn lemma_working_alphabet_keeps(alphabet: Seq<char>, offset: int)
    requires
        0 <= offset < alphabet.len(),
    ensures
        working_alphabet(alphabet, offset).len() == alphabet.len(),
        same_chars(alphabet, working_alphabet(alphabet, offset)),
        alphabet.no_duplicates() ==> working_alphabet(alphabet, offset).no_duplicates(),
        working_alphabet(alphabet, offset)[alphabet.len() - 1] == alphabet[offset],
{
    let n = alphabet.len() as int;
    let w = working_alphabet(alphabet, offset);
    assert forall|c: char| alphabet.contains(c) <==> w.contains(c) by {
        if alphabet.contains(c) {
            let j = choose|j: int| 0 <= j < n && alphabet[j] == c;
            let i = if j >= offset {
                n - 1 - (j - offset)
            } else {
                n - 1 - (j + n - offset)
            };
            assert(w[i] == c);
        }
        if w.contains(c) {
            let i = choose|i: int| 0 <= i < n && w[i] == c;
            assert(alphabet[wrapped(offset + n - 1 - i, n)] == c);
        }
    }
    if alphabet.no_duplicates() {
        assert forall|a: int, b: int| 0 <= a < n && 0 <= b < n && a != b implies w[a] != w[b] by {
            assert(wrapped(offset + n - 1 - a, n) != wrapped(offset + n - 1 - b, n));
        }
    }
}

/// Where the alphabet is cut for `numbers` at attempt `increment`.
pub fn offset_of(alphabet: &[char], numbers: &[u64], increment: usize) -> (r: usize)
    requires
        alphabet@.len() > 0,
    ensures
        r == offset(alphabet@, numbers@, increment as nat),
        r < alphabet@.len(),
{
    let n: usize = alphabet.len();
    let mut acc: usize = numbers.len() % n;
    let mut i: usize = 0;
    while i < numbers.len()
        invariant
            n == alphabet@.len(),
            n > 0,
            i <= numbers@.len(),
            acc < n,
            acc == offset_sum(alphabet@, numbers@, i as nat) % (n as nat),
        decreases numbers@.len() - i,
    {
        let c: char = alphabet[(numbers[i] % (n as u64)) as usize];
        let code: u32 = c as u32;
        let wide: u128 = (acc as u128) + (code as u128) + (i as u128);
        proof {
            let before = offset_sum(alphabet@, numbers@, i as nat) as int;
            lemma_add_mod_noop_right(code as int + i as int, before, n as int);
            lemma_mod_bound(wide as int, n as int);
        }
        acc = (wide % (n as u128)) as usize;
        i += 1;
    }
    proof {
        lemma_mod_bound(acc as int + increment as int, n as int);
    }
    (((acc as u128) + (increment as u128)) % (n as u128)) as usize
}

/// The alphabet read cyclically from `offset`, then reversed.
pub fn rotate_reverse(alphabet: &[char], offset: usize) -> (r: Vec<char>)
    requires
        offset < alphabet@.len(),
    ensures
        r@ == working_alphabet(alphabet@, offset as int),
{
    let n: usize = alphabet.len();
    let mut out: Vec<char> = Vec::new();
    let mut i: usize = 0;
    while i < n
        invariant
            n == alphabet@.len(),
            offset < n,
            i <= n,
            out@.len() == i,
            forall|k: int| 0 <= k < i ==> out@[k] == working_alphabet(alphabet@, offset as int)[k],
        decreases n - i,
    {
        let back: usize = n - 1 - i;
        let at: usize = if back >= n - offset {
            back - (n - offset)
        } else {
            offset + back
        };
        out.push(alphabet[at]);
        i += 1;
    }
    assert(out@ =~= working_alphabet(alphabet@, offset as int));
    out
}

impl Sqids {
    /// The identifier that attempt `increment` makes for `numbers`, whether
    /// or not the blocklist lets it pass.
    pub fn candidate_id(&self, numbers: &[u64], increment: usize) -> (id: Vec<char>)
        ensures
            id@ == candidate(self@.alphabet, self@.min_length, numbers@, increment as nat),
    {
        proof {
            use_type_invariant(self);
        }
        let count: usize = numbers.len();
        let off: usize = offset_of(self.alphabet.as_slice(), numbers, increment);
        let mut working: Vec<char> = rotate_reverse(self.alphabet.as_slice(), off);
        let ghost first = working@;
        let ghost target = unpadded(self@.alphabet, numbers@, increment as nat);
        let mut id: Vec<char> = Vec::new();
        id.push(self.alphabet[off]);
        let mut i: usize = 0;
        assert(numbers@.skip(0) =~= numbers@);
        assert(id@ =~= seq![self@.alphabet[off as int]]);
        assert(id@ + Seq::<char>::empty() =~= id@);
        while i < count
            invariant
                count == numbers@.len(),
                i <= count,
                working@.len() == first.len(),
                first.len() >= 3,
                target == seq![self@.alphabet[off as int]] + joined(numbers@, first),
                id@ + joined(numbers@.skip(i as int), working@) == target,
                i < count ==> working@ == shuffled_times(first, i as nat),
                i == count ==> working@ == last_working(first, count as nat),
            decreases count - i,
        {
            let ghost rest = numbers@.skip(i as int);
            let ghost before = id@;
            let ghost alphabet_now = working@;
            let digit_set: &[char] = slice_subrange(working.as_slice(), 1, working.len());
            let mut chunk: Vec<char> = self.to_id(numbers[i], digit_set);
            assert(chunk@ == digits(rest[0] as nat, alphabet_now.skip(1)));
            id.append(&mut chunk);
            if i < count - 1 {
                id.push(working[0]);
                working = Sqids::shuffle(working.as_slice());
                proof {
                    assert(rest.skip(1) =~= numbers@.skip(i as int + 1));
                    assert(id@ + joined(numbers@.skip(i as int + 1), working@) =~= before + joined(
                        rest,
                        alphabet_now,
                    ));
                }
            } else {
                proof {
                    assert(rest.len() == 1);
                    assert(numbers@.skip(i as int + 1).len() == 0);
                    assert(id@ + joined(numbers@.skip(i as int + 1), working@) =~= before + joined(
                        rest,
                        alphabet_now,
                    ));
                }
            }
            i += 1;
        }
        assert(numbers@.skip(count as int).len() == 0);
        assert(id@ =~= target);
        let min_length: usize = self.min_length as usize;
        if min_length > id.len() {
            let ghost last = working@;
            id.push(working[0]);
            assert(id@ == target.push(last[0]));
            assert(id@ + filler(working@, (min_length - id@.len()) as nat) == target.push(last[0])
                + filler(last, (min_length - target.len() - 1) as nat));
            while id.len() < min_length
                invariant
                    working@.len() == first.len(),
                    first.len() >= 3,
                    id@.len() <= min_length,
                    id@ + filler(working@, (min_length - id@.len()) as nat) == target.push(last[0])
                        + filler(last, (min_length - target.len() - 1) as nat),
                decreases min_length - id@.len(),
            {
                let ghost before = id@;
                let ghost alphabet_now = working@;
                let need: usize = min_length - id.len();
                working = Sqids::shuffle(working.as_slice());
                let take: usize = if need <= working.len() {
                    need
                } else {
                    working.len()
                };
                let mut k: usize = 0;
                while k < take
                    invariant
                        k <= take <= working@.len(),
                        id@ == before + working@.take(k as int),
                    decreases take - k,
                {
                    id.push(working[k]);
                    assert(working@.take(k as int + 1) =~= working@.take(k as int).push(
                        working@[k as int],
                    ));
                    assert(before + working@.take(k as int + 1) =~= (before + working@.take(
                        k as int,
                    )).push(working@[k as int]));
                    k += 1;
                }
                assert(id@ + filler(working@, (min_length - id@.len()) as nat) =~= before + filler(
                    alphabet_now,
                    need as nat,
                ));
            }
            assert(id@ + Seq::<char>::empty() =~= id@);
        }
        id
    }

    /// Whether the blocklist rules out `id`. The identifier is put in lower
    /// case first.
    pub fn is_blocked_id(&self, id: &str) -> (r: bool)
        ensures
            r == blocked(lowercase_of(id@), self@.blocklist),
    {
        let lower: String = id.to_lowercase();
        let chars: Vec<char> = chars_of(lower.as_str());
        is_blocked(chars.as_slice(), &self.blocklist)
    }

    /// The identifier of `numbers`, trying attempt `increment` and those after
    /// it until one is not blocked. Fails where none is left.
    pub fn encode_numbers(&self, numbers: &[u64], increment: usize) -> (r: Result<String, Error>)
        ensures
            match encoded_from(
                self@.alphabet,
                self@.min_length,
                self@.blocklist,
                numbers@,
                increment as nat,
            ) {
                Some(id) => match r {
                    Ok(s) => s@ == id,
                    Err(_) => false,
                },
                None => r == Err::<String, Error>(Error::BlocklistMaxAttempts),
            },
    {
        let n: usize = self.alphabet.len();
        let mut attempt: usize = increment;
        while attempt <= n
            invariant
                n == self@.alphabet.len(),
                encoded_from(
                    self@.alphabet,
                    self@.min_length,
                    self@.blocklist,
                    numbers@,
                    attempt as nat,
                ) == encoded_from(
                    self@.alphabet,
                    self@.min_length,
                    self@.blocklist,
                    numbers@,
                    increment as nat,
                ),
            decreases n + 1 - attempt,
        {
            let chars: Vec<char> = self.candidate_id(numbers, attempt);
            let id: String = string_of(chars.as_slice());
            if !self.is_blocked_id(id.as_str()) {
                return Ok(id);
            }
            if attempt == n {
                assert(encoded_from(
                    self@.alphabet,
                    self@.min_length,
                    self@.blocklist,
                    numbers@,
                    (attempt + 1) as nat,
                ) is None);
                return Err(Error::BlocklistMaxAttempts);
            }
            attempt += 1;
        }
        Err(Error::BlocklistMaxAttempts)
    }

    /// The identifier of `numbers`: the empty string for no numbers; else a
    /// prefix, the numbers in the digits of the alphabet, and filling up to
    /// the least length. Fails only where the blocklist rules out every attempt.
    pub fn encode(&self, numbers: &[u64]) -> (r: Result<String, Error>)
        ensures
            match encoded(self@.alphabet, self@.min_length, self@.blocklist, numbers@) {
                Some(id) => match r {
                    Ok(s) => s@ == id,
                    Err(_) => false,
                },
                None => r == Err::<String, Error>(Error::BlocklistMaxAttempts),
            },
    {
        if numbers.len() == 0 {
            return Ok(String::new());
        }
        self.encode_numbers(numbers, 0)
    }
}

} // verus!
