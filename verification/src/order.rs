//! Ordering predicates on integer sequences, the completion query, and the
//! in-place swap primitive shared by the step machines.

use vstd::prelude::*;

verus! {

/// Holds iff `s[i] <= s[j]` for every pair of positions `lo <= i <= j < hi`.
pub open spec fn ordered_between(s: Seq<i32>, lo: int, hi: int) -> bool {
    forall|i: int, j: int| lo <= i <= j < hi ==> s[i] <= s[j]
}

/// Holds iff the whole sequence is in non-decreasing order.
pub open spec fn ordered(s: Seq<i32>) -> bool {
    ordered_between(s, 0, s.len() as int)
}

/// The sequence with the values at positions `p` and `q` exchanged.
pub open spec fn swap_of(s: Seq<i32>, p: int, q: int) -> Seq<i32> {
    s.update(p, s[q]).update(q, s[p])
}

/// Exchanging two positions of a sequence preserves its multiset of values.
pub proof fn lemma_swap_multiset(s: Seq<i32>, p: int, q: int)
    requires
        0 <= p < s.len(),
        0 <= q < s.len(),
    ensures
        swap_of(s, p, q).to_multiset() == s.to_multiset(),
{
    broadcast use vstd::seq_lib::group_to_multiset_ensures;

    if p == q {
        assert(swap_of(s, p, q) =~= s);
    } else {
        let s1 = s.update(p, s[q]);
        assert(s1[q] == s[q]);
        assert(s.contains(s[p])) by {
            assert(s[p] == s[p]);
        }
        assert(s.to_multiset().count(s[p]) > 0);
        assert(swap_of(s, p, q).to_multiset() =~= s.to_multiset());
    }
}

/// Completion query: true iff every adjacent pair of `array` is in order.
/// This is the authoritative external completion test for a driver.
pub fn is_ordered(array: &Vec<i32>) -> (r: bool)
    ensures
        r == ordered(array@),
{
    let n = array.len();
    let mut k: usize = 1;
    while k < n
        invariant
            1 <= k,
            k <= n || n == 0,
            n == array@.len(),
            ordered_between(array@, 0, k as int),
        decreases n - k,
    {
        if array[k - 1] > array[k] {
            assert(!ordered(array@));
            return false;
        }
        k += 1;
    }
    true
}

/// Exchanges the values at positions `p` and `q` of `array` in place.
pub fn swap_in_place(array: &mut Vec<i32>, p: usize, q: usize)
    requires
        p < old(array)@.len(),
        q < old(array)@.len(),
    ensures
        final(array)@ == swap_of(old(array)@, p as int, q as int),
        final(array)@.len() == old(array)@.len(),
        final(array)@.to_multiset() == old(array)@.to_multiset(),
{
    let pv = array[p];
    let qv = array[q];
    array[p] = qv;
    array[q] = pv;
    proof {
        lemma_swap_multiset(old(array)@, p as int, q as int);
    }
}

} // verus!
