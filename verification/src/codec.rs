//! Writing one number in the digits of an alphabet, and reading it back.

use vstd::prelude::*;
use crate::sqids::Sqids;

verus! {

/// The position of the first `c` in `s`, or the length of `s` where there is none.
pub open spec fn first_index(s: Seq<char>, c: char) -> int
    decreases s.len(),
{
    if s.len() == 0 {
        0
    } else if s[0] == c {
        0
    } else {
        1 + first_index(s.skip(1), c)
    }
}

/// The first index lies within `0..=len`; below `len` it holds `c`, and no
/// earlier position does.
pub proof fn lemma_first_index_bounds(s: Seq<char>, c: char)
    ensures
        0 <= first_index(s, c) <= s.len(),
        first_index(s, c) < s.len() ==> s[first_index(s, c)] == c,
        forall|k: int| 0 <= k < first_index(s, c) ==> s[k] != c,
    decreases s.len(),
{
    if s.len() > 0 && s[0] != c {
        let t = s.skip(1);
        lemma_first_index_bounds(t, c);
        assert forall|k: int| 0 <= k < first_index(s, c) implies s[k] != c by {
            if k > 0 {
                assert(t[k - 1] == s[k]);
            }
        }
    }
}

/// A position that holds `c` with no `c` before it is the first index of `c`.
pub proof fn lemma_first_index_is(s: Seq<char>, c: char, i: int)
    requires
        0 <= i < s.len(),
        s[i] == c,
        forall|k: int| 0 <= k < i ==> s[k] != c,
    ensures
        first_index(s, c) == i,
{
    lemma_first_index_bounds(s, c);
}

/// Where `s` holds no `c`, the first index is the length of `s`.
pub proof fn lemma_first_index_absent(s: Seq<char>, c: char)
    requires
        forall|k: int| 0 <= k < s.len() ==> s[k] != c,
    ensures
        first_index(s, c) == s.len(),
{
    lemma_first_index_bounds(s, c);
}

/// Every character of `text` occurs in `alphabet`.
pub open spec fn all_in(text: Seq<char>, alphabet: Seq<char>) -> bool {
    forall|i: int| 0 <= i < text.len() ==> alphabet.contains(#[trigger] text[i])
}

/// The digits of `v` in base `alphabet.len()`, most significant first, each
/// written as the character that `alphabet` holds at the digit's value.
/// There is always at least one digit.
pub open spec fn digits(v: nat, alphabet: Seq<char>) -> Seq<char>
    decreases v,
    when alphabet.len() >= 2
    via digits_decreases
{
    let n = alphabet.len();
    if v < n {
        seq![alphabet[v as int]]
    } else {
        digits(v / n, alphabet).push(alphabet[(v % n) as int])
    }
}

#[via_fn]
proof fn digits_decreases(v: nat, alphabet: Seq<char>) {
    let n = alphabet.len();
    if v >= n {
        assert(v / n < v) by (nonlinear_arith)
            requires
                n >= 2,
                v >= n,
        ;
    }
}

/// One step of writing a number: the last digit is `v mod n`, and the digits
/// before it are those of `v / n`, unless that quotient is zero.
pub proof fn lemma_digits_step(v: nat, alphabet: Seq<char>)
    requires
        alphabet.len() >= 2,
    ensures
        0 <= v % alphabet.len() < alphabet.len(),
        v / alphabet.len() == 0 ==> digits(v, alphabet) == seq![
            alphabet[(v % alphabet.len()) as int],
        ],
        v / alphabet.len() != 0 ==> digits(v, alphabet) == digits(v / alphabet.len(), alphabet).push(
            alphabet[(v % alphabet.len()) as int],
        ),
{
    let n = alphabet.len();
    assert(0 <= v % n < n && (v / n == 0 <==> v < n) && (v < n ==> v % n == v))
        by (nonlinear_arith)
        requires
            n >= 2,
    ;
}

/// The number that `id` writes in base `alphabet.len()`, a digit's value being
/// the position of its character in `alphabet`; kept to 64 bits by wrapping.
pub open spec fn number_of(id: Seq<char>, alphabet: Seq<char>) -> nat
    decreases id.len(),
{
    if id.len() == 0 {
        0
    } else {
        ((number_of(id.drop_last(), alphabet) * alphabet.len() + first_index(alphabet, id.last()))
            % 0x1_0000_0000_0000_0000) as nat
    }
}

/// The digits of a number are taken from the alphabet, and there is at least one.
pub proof fn lemma_digits_in_alphabet(v: nat, alphabet: Seq<char>)
    requires
        alphabet.len() >= 2,
    ensures
        digits(v, alphabet).len() >= 1,
        all_in(digits(v, alphabet), alphabet),
    decreases v,
{
    let n = alphabet.len();
    if v < n {
        assert(alphabet.contains(alphabet[v as int]));
    } else {
        assert(v / n < v) by (nonlinear_arith)
            requires
                n >= 2,
                v >= n,
        ;
        lemma_digits_in_alphabet(v / n, alphabet);
        let d = digits(v / n, alphabet);
        assert(0 <= (v % n) < n) by (nonlinear_arith)
            requires
                n >= 2,
        ;
        assert(alphabet.contains(alphabet[(v % n) as int]));
        assert forall|i: int| 0 <= i < digits(v, alphabet).len() implies alphabet.contains(
            #[trigger] digits(v, alphabet)[i],
        ) by {
            if i < d.len() {
                assert(digits(v, alphabet)[i] == d[i]);
            }
        }
    }
}

/// Reading the digits of a 64-bit number gives the number back, where the
/// alphabet holds no character twice.
pub proof fn lemma_number_of_digits(v: nat, alphabet: Seq<char>)
    requires
        alphabet.len() >= 2,
        alphabet.no_duplicates(),
        v < 0x1_0000_0000_0000_0000,
    ensures
        number_of(digits(v, alphabet), alphabet) == v,
    decreases v,
{
    let n = alphabet.len();
    if v < n {
        let d = digits(v, alphabet);
        assert(d.drop_last().len() == 0);
        assert(number_of(d.drop_last(), alphabet) == 0);
        lemma_first_index_is(alphabet, alphabet[v as int], v as int);
        assert(d.last() == alphabet[v as int]);
        assert(0 * n == 0);
    } else {
        assert(v / n < v && 0 <= (v % n) < n && (v / n) * n + (v % n) == v) by (nonlinear_arith)
            requires
                n >= 2,
                v >= n,
        ;
        lemma_number_of_digits(v / n, alphabet);
        let d = digits(v, alphabet);
        let m = (v % n) as int;
        assert(d.drop_last() =~= digits(v / n, alphabet));
        assert(d.last() == alphabet[m]);
        lemma_first_index_is(alphabet, alphabet[m], m);
    }
}

/// The first position of `c` in `s`, or `s.len()` where `s` holds no `c`.
pub fn position(s: &[char], c: char) -> (r: usize)
    ensures
        r == first_index(s@, c),
        r <= s@.len(),
        r < s@.len() <==> s@.contains(c),
{
    let mut i: usize = 0;
    while i < s.len()
        invariant
            i <= s@.len(),
            forall|k: int| 0 <= k < i ==> s@[k] != c,
        decreases s@.len() - i,
    {
        if s[i] == c {
            proof {
                lemma_first_index_is(s@, c, i as int);
            }
            return i;
        }
        i += 1;
    }
    proof {
        lemma_first_index_absent(s@, c);
    }
    i
}

impl Sqids {
    /// Writes `num` in the digits of `alphabet`.
    pub fn to_id(&self, num: u64, alphabet: &[char]) -> (id: Vec<char>)
        requires
            alphabet@.len() >= 2,
        ensures
            id@ == digits(num as nat, alphabet@),
    {
        let n: u64 = alphabet.len() as u64;
        let mut id: Vec<char> = Vec::new();
        let mut rest: u64 = num;
        id.insert(0, alphabet[(rest % n) as usize]);
        rest = rest / n;
        proof {
            lemma_digits_step(num as nat, alphabet@);
            assert(id@ =~= seq![alphabet@[(num as nat % n as nat) as int]]);
            assert(digits(rest as nat, alphabet@).push(alphabet@[(num as nat % n as nat) as int])
                =~= digits(rest as nat, alphabet@) + id@);
        }
        while rest != 0
            invariant
                n == alphabet@.len(),
                n >= 2,
                digits(num as nat, alphabet@) == if rest == 0 {
                    id@
                } else {
                    digits(rest as nat, alphabet@) + id@
                },
            decreases rest,
        {
            let ghost before = id@;
            let ghost value = rest;
            id.insert(0, alphabet[(rest % n) as usize]);
            rest = rest / n;
            assert(rest < value) by (nonlinear_arith)
                requires
                    rest == value / n,
                    n >= 2,
                    value > 0,
            ;
            proof {
                let c = alphabet@[(value as nat % n as nat) as int];
                lemma_digits_step(value as nat, alphabet@);
                assert(id@ =~= seq![c] + before);
                if rest == 0 {
                    assert(digits(value as nat, alphabet@) + before =~= id@);
                } else {
                    assert(digits(value as nat, alphabet@) + before =~= digits(rest as nat, alphabet@)
                        + id@);
                }
            }
        }
        id
    }

    /// Reads `id` as a number in the digits of `alphabet`.
    pub fn to_number(&self, id: &[char], alphabet: &[char]) -> (r: u64)
        requires
            all_in(id@, alphabet@),
        ensures
            r == number_of(id@, alphabet@),
    {
        let n: usize = alphabet.len();
        let mut result: u64 = 0;
        let mut i: usize = 0;
        while i < id.len()
            invariant
                n == alphabet@.len(),
                i <= id@.len(),
                result == number_of(id@.take(i as int), alphabet@),
            decreases id@.len() - i,
        {
            let idx: usize = position(alphabet, id[i]);
            assert((result as u128) * (n as u128) + (idx as u128) <= 0xFFFF_FFFF_FFFF_FFFFu128
                * 0xFFFF_FFFF_FFFF_FFFFu128 + 0xFFFF_FFFF_FFFF_FFFFu128) by (nonlinear_arith)
                requires
                    result <= 0xFFFF_FFFF_FFFF_FFFFu128,
                    n <= 0xFFFF_FFFF_FFFF_FFFFu128,
                    idx <= 0xFFFF_FFFF_FFFF_FFFFu128,
            ;
            let wide: u128 = (result as u128) * (n as u128) + (idx as u128);
            proof {
                let t = id@.take(i as int + 1);
                assert(t.drop_last() =~= id@.take(i as int));
                assert(t.last() == id@[i as int]);
            }
            result = (wide % 0x1_0000_0000_0000_0000u128) as u64;
            i += 1;
        }
        assert(id@.take(i as int) =~= id@);
        result
    }
}

} // verus!
