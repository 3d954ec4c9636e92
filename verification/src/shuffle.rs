//! The content-seeded permutation that derives one alphabet from another.

use vstd::prelude::*;
use vstd::slice::slice_to_vec;
use crate::sqids::Sqids;

verus! {

/// `s` with the items at `i` and `r` exchanged.
pub open spec fn swapped(s: Seq<char>, i: int, r: int) -> Seq<char> {
    s.update(i, s[r]).update(r, s[i])
}

/// The position that step `i` exchanges position `i` with.
pub open spec fn swap_target(s: Seq<char>, i: int) -> int {
    let n = s.len() as int;
    let j = n - 1 - i;
    (i * j + (s[i] as u32) as int + (s[j] as u32) as int) % n
}

/// `s` after the first `k` steps of the permutation.
pub open spec fn shuffle_prefix(s: Seq<char>, k: nat) -> Seq<char>
    decreases k,
{
    if k == 0 {
        s
    } else {
        let p = shuffle_prefix(s, (k - 1) as nat);
        swapped(p, k - 1, swap_target(p, k - 1))
    }
}

/// The permutation of `s`: steps `0` to `len - 2`, each exchanging position
/// `i` with `(i * j + s[i] + s[j]) mod len`, where `j = len - 1 - i`.
pub open spec fn shuffled(s: Seq<char>) -> Seq<char> {
    if s.len() == 0 {
        s
    } else {
        shuffle_prefix(s, (s.len() - 1) as nat)
    }
}

/// `shuffled` applied `k` times.
pub open spec fn shuffled_times(s: Seq<char>, k: nat) -> Seq<char>
    decreases k,
{
    if k == 0 {
        s
    } else {
        shuffled(shuffled_times(s, (k - 1) as nat))
    }
}

/// Exchanging two items keeps the length and the multiset of items.
pub proof fn lemma_swapped_permutes(s: Seq<char>, i: int, r: int)
    requires
        0 <= i < s.len(),
        0 <= r < s.len(),
    ensures
        swapped(s, i, r).len() == s.len(),
        swapped(s, i, r).to_multiset() == s.to_multiset(),
{
    broadcast use vstd::seq_lib::to_multiset_update, vstd::seq_lib::to_multiset_contains;
    broadcast use vstd::multiset::group_multiset_axioms;
    let a = s.update(i, s[r]);
    assert(a.to_multiset() == s.to_multiset().insert(s[r]).remove(s[i]));
    assert(swapped(s, i, r).to_multiset() == a.to_multiset().insert(s[i]).remove(a[r]));
    assert(s.contains(s[i]) && s.contains(s[r]));
    assert(swapped(s, i, r).to_multiset() =~= s.to_multiset());
}

/// Each step of the permutation keeps the length and the multiset of items.
pub proof fn lemma_shuffle_prefix_permutes(s: Seq<char>, k: nat)
    requires
        k < s.len(),
    ensures
        shuffle_prefix(s, k).len() == s.len(),
        shuffle_prefix(s, k).to_multiset() == s.to_multiset(),
    decreases k,
{
    if k > 0 {
        lemma_shuffle_prefix_permutes(s, (k - 1) as nat);
        let p = shuffle_prefix(s, (k - 1) as nat);
        let n = p.len() as int;
        let j = n - 1 - (k - 1);
        assert(0 <= swap_target(p, k - 1) < n) by {
            vstd::arithmetic::div_mod::lemma_mod_bound((k - 1) * j + (p[k - 1] as u32) as int + (p[j] as u32) as int, n);
        }
        lemma_swapped_permutes(p, k - 1, swap_target(p, k - 1));
    }
}

/// The permutation reorders: the result has the length of the input and
/// holds exactly the same characters, each as often as the input does.
pub proof fn lemma_shuffled_permutes(s: Seq<char>)
    ensures
        shuffled(s).len() == s.len(),
        shuffled(s).to_multiset() == s.to_multiset(),
{
    if s.len() > 0 {
        lemma_shuffle_prefix_permutes(s, (s.len() - 1) as nat);
    }
}

/// Two sequences hold the same characters, whatever their order and number.
pub open spec fn same_chars(a: Seq<char>, b: Seq<char>) -> bool {
    forall|c: char| a.contains(c) <==> b.contains(c)
}

/// Two sequences with one multiset hold the same characters, and if one of
/// them holds no character twice, neither does the other.
pub proof fn lemma_permutation_keeps(a: Seq<char>, b: Seq<char>)
    requires
        a.to_multiset() == b.to_multiset(),
    ensures
        a.len() == b.len(),
        same_chars(a, b),
        a.no_duplicates() ==> b.no_duplicates(),
{
    broadcast use vstd::seq_lib::to_multiset_len;
    assert(a.len() == a.to_multiset().len());
    assert(b.len() == b.to_multiset().len());
    assert forall|c: char| a.contains(c) <==> b.contains(c) by {
        vstd::seq_lib::to_multiset_contains(a, c);
        vstd::seq_lib::to_multiset_contains(b, c);
    }
    if a.no_duplicates() {
        a.lemma_multiset_has_no_duplicates();
        b.lemma_multiset_has_no_duplicates_conv();
    }
}

/// What the permutation keeps of an alphabet: its length, its characters, and
/// that none of them occurs twice.
pub proof fn lemma_shuffled_keeps(s: Seq<char>)
    ensures
        shuffled(s).len() == s.len(),
        same_chars(s, shuffled(s)),
        s.no_duplicates() ==> shuffled(s).no_duplicates(),
{
    lemma_shuffled_permutes(s);
    lemma_permutation_keeps(s, shuffled(s));
}

impl Sqids {
    /// Permutes `alphabet`. The result is a function of the input alone.
    pub fn shuffle(alphabet: &[char]) -> (r: Vec<char>)
        ensures
            r@ == shuffled(alphabet@),
            r@.len() == alphabet@.len(),
            r@.to_multiset() == alphabet@.to_multiset(),
    {
        let mut chars: Vec<char> = slice_to_vec(alphabet);
        let n: usize = chars.len();
        proof {
            lemma_shuffled_permutes(alphabet@);
        }
        if n == 0 {
            return chars;
        }
        let mut i: usize = 0;
        while i < n - 1
            invariant
                n == alphabet@.len(),
                n > 0,
                chars@.len() == n,
                i <= n - 1,
                chars@ == shuffle_prefix(alphabet@, i as nat),
            decreases n - 1 - i,
        {
            let j: usize = n - 1 - i;
            let ci: char = chars[i];
            let cj: char = chars[j];
            assert((i as u128) * (j as u128) <= 0xFFFF_FFFF_FFFF_FFFFu128 * 0xFFFF_FFFF_FFFF_FFFFu128)
                by (nonlinear_arith)
                requires
                    i <= 0xFFFF_FFFF_FFFF_FFFFu128,
                    j <= 0xFFFF_FFFF_FFFF_FFFFu128,
            ;
            let oi: u32 = ci as u32;
            let oj: u32 = cj as u32;
            let sum: u128 = (i as u128) * (j as u128) + (oi as u128) + (oj as u128);
            let r: usize = (sum % (n as u128)) as usize;
            let ghost before = chars@;
            assert(r as int == swap_target(before, i as int));
            let cr: char = chars[r];
            chars.set(i, cr);
            chars.set(r, ci);
            assert(chars@ == swapped(before, i as int, r as int));
            i += 1;
        }
        chars
    }
}

} // verus!
