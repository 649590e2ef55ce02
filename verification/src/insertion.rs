//! Insertion-style step machine: one adjacent comparison per step, sinking
//! the element being inserted toward the front of the sorted prefix by single
//! swaps; when it settles, the prefix grows by one.

use vstd::prelude::*;
use crate::order::{ordered, ordered_between, swap_of, swap_in_place};
use crate::event::{StepEvent, step_changes};

verus! {

/// Resumable progress of an insertion sort: `k` is the index of the element
/// being inserted into the sorted prefix before it, `c` the position that
/// element currently occupies, `done` whether the sort has terminated.
pub struct InsertionState {
    pub k: usize,
    pub c: usize,
    pub done: bool,
}

impl InsertionState {
    /// Well-formedness with respect to the array being stepped over: indices
    /// in range, the region before the moving element and the region from it
    /// up to `k` each in order, and everything before it at most everything
    /// strictly after it within the prefix 0..=k.
    pub open spec fn inv(self, s: Seq<i32>) -> bool {
        let n = s.len() as int;
        &&& (self.done ==> ordered(s))
        &&& (!self.done && n >= 2 ==> {
            &&& 1 <= self.c <= self.k < n
            &&& ordered_between(s, 0, self.c as int)
            &&& ordered_between(s, self.c as int, self.k + 1)
            &&& (forall|x: int, y: int| 0 <= x < self.c < y <= self.k ==> s[x] <= s[y])
        })
    }

    /// Upper bound on how many more events this state can yield on an array
    /// of length `n`; every productive step strictly decreases it.
    pub open spec fn remaining(self, n: nat) -> nat {
        if self.done {
            0
        } else if n < 2 {
            1
        } else if 1 <= self.c <= self.k < n {
            ((n - self.k) * n + self.c) as nat
        } else {
            0
        }
    }

    /// Fresh progress state, valid for an array of any length.
    pub fn new() -> (r: InsertionState)
        ensures
            forall|s: Seq<i32>| #[trigger] r.inv(s),
            !r.done,
            r.k == 1,
            r.c == 1,
            forall|n: nat| #[trigger] r.remaining(n) <= n * n + 1,
    {
        let r = InsertionState { k: 1, c: 1, done: false };
        proof {
            assert forall|n: nat| #[trigger] r.remaining(n) <= n * n + 1 by {
                if n >= 2 {
                    assert((n - 1) * n + 1 <= n * n + 1) by (nonlinear_arith)
                        requires
                            n >= 2,
                    ;
                }
            }
        }
        r
    }
}

/// The pure transition function of the insertion machine: the progress state
/// that one step from `st` over `s` leaves behind.
pub open spec fn insertion_next(st: InsertionState, s: Seq<i32>) -> InsertionState {
    let n = s.len() as int;
    if st.done {
        st
    } else if n < 2 {
        InsertionState { k: st.k, c: st.c, done: true }
    } else if s[st.c - 1] > s[st.c as int] && st.c >= 2 {
        InsertionState { k: st.k, c: (st.c - 1) as usize, done: false }
    } else if st.k + 1 >= n {
        InsertionState { k: (st.k + 1) as usize, c: st.c, done: true }
    } else {
        InsertionState { k: (st.k + 1) as usize, c: (st.k + 1) as usize, done: false }
    }
}

/// The machine's progress state after `k` transitions over an array that
/// none of them changes.
pub open spec fn insertion_iterate(st: InsertionState, s: Seq<i32>, k: nat) -> InsertionState
    decreases k,
{
    if k == 0 {
        st
    } else {
        insertion_next(insertion_iterate(st, s, (k - 1) as nat), s)
    }
}

/// Law of idle correctness: on an already-sorted array of length `n >= 2`, a
/// fresh insertion machine settles each element with a single comparison —
/// `n - 1` of them in all, swapping nothing — and is terminal immediately
/// after the last one. (Each such transition leaves a sorted array
/// unchanged, so iterating the transition over `s` itself describes the
/// whole run.)
pub proof fn lemma_insertion_idle_pass(s: Seq<i32>, k: nat)
    requires
        ordered(s),
        2 <= s.len() <= usize::MAX,
        k <= s.len() - 1,
    ensures
        k < s.len() - 1 ==> insertion_iterate(
            InsertionState { k: 1, c: 1, done: false },
            s,
            k,
        ) == (InsertionState { k: (k + 1) as usize, c: (k + 1) as usize, done: false }),
        k == s.len() - 1 ==> insertion_iterate(
            InsertionState { k: 1, c: 1, done: false },
            s,
            k,
        ).done,
    decreases k,
{
    if k > 0 {
        lemma_insertion_idle_pass(s, (k - 1) as nat);
        let prev = insertion_iterate(InsertionState { k: 1, c: 1, done: false }, s, (k - 1) as nat);
        assert(s[prev.c - 1] <= s[prev.c as int]);
    }
}

/// One unit of insertion-sort work: compare the moving element with its left
/// neighbour; swap and keep sinking on strict misorder, otherwise the element
/// has settled and the next one starts moving; terminate when every element
/// has been inserted.
pub fn insertion_step(st: &mut InsertionState, array: &mut Vec<i32>) -> (r: Option<StepEvent>)
    requires
        old(st).inv(old(array)@),
    ensures
        final(st).inv(final(array)@),
        final(array)@.len() == old(array)@.len(),
        final(array)@.to_multiset() == old(array)@.to_multiset(),
        (r is None) <==> (old(st).done || old(array)@.len() == 0),
        r is None ==> final(array)@ == old(array)@ && final(st).done && ordered(final(array)@),
        old(st).done ==> *final(st) == *old(st),
        r is Some ==> final(st).remaining(old(array)@.len() as nat)
            < old(st).remaining(old(array)@.len() as nat),
        r matches Some(e) ==> step_changes(old(array)@, final(array)@, e),
        ordered(old(array)@) ==> final(array)@ == old(array)@,
        *final(st) == insertion_next(*old(st), old(array)@),
        r is Some && old(array)@.len() >= 2 ==> final(array)@ == (if old(array)@[old(st).c - 1]
            > old(array)@[old(st).c as int] {
            swap_of(old(array)@, old(st).c - 1, old(st).c as int)
        } else {
            old(array)@
        }),
        r matches Some(e) ==> if old(array)@.len() >= 2 {
            e.compared.0 == Some((old(st).c - 1) as usize) && e.compared.1 == Some(old(st).c)
        } else {
            e.compared.0 is None && e.compared.1 is None
        },
{
    let n = array.len();
    if st.done {
        return None;
    }
    if n == 0 {
        st.done = true;
        return None;
    }
    if n == 1 {
        st.done = true;
        return Some(StepEvent { compared: (None, None) });
    }
    let ghost s0 = array@;
    let ghost ni = n as int;
    let c = st.c;
    let k = st.k;
    let a = array[c - 1];
    let b = array[c];
    if a > b {
        swap_in_place(array, c - 1, c);
        let ghost s1 = array@;
        proof {
            assert(s1 == swap_of(s0, c - 1, c as int));
            // the two exchanged values keep both regions and the cross facts
            assert forall|x: int, y: int| c - 1 <= x <= y <= k implies s1[x] <= s1[y] by {
                if x == c - 1 && y == c {
                } else if x == c - 1 {
                    assert(s0[c as int] <= s0[y]);
                } else if x == c && c < y {
                    assert(s0[c - 1] <= s0[y]);
                }
            }
        }
        if c >= 2 {
            st.c = c - 1;
            proof {
                assert forall|x: int, y: int| 0 <= x < c - 1 < y <= k implies s1[x] <= s1[y] by {
                    if y == c {
                        assert(s0[x] <= s0[c - 1]);
                    }
                }
            }
        } else {
            // the moving element reached the front: this insertion is complete
            proof {
                assert forall|x: int, y: int| 0 <= x <= y <= k implies s1[x] <= s1[y] by {
                    assert(c == 1);
                }
            }
            st.k = k + 1;
            if k + 1 >= n {
                st.done = true;
            } else {
                st.c = k + 1;
            }
            proof {
                assert((ni - k - 1) * ni + ni == (ni - k) * ni) by (nonlinear_arith);
            }
        }
    } else {
        // the moving element has settled: the prefix 0..=k is in order
        proof {
            assert forall|x: int, y: int| 0 <= x <= y <= k implies s0[x] <= s0[y] by {
                if x < c && y == c {
                    assert(s0[x] <= s0[c - 1]);
                }
            }
        }
        st.k = k + 1;
        if k + 1 >= n {
            st.done = true;
        } else {
            st.c = k + 1;
        }
        proof {
            assert((ni - k - 1) * ni + ni == (ni - k) * ni) by (nonlinear_arith);
        }
    }
    proof {
        assert((ni - k) * ni >= 2) by (nonlinear_arith)
            requires
                ni >= 2,
                1 <= k < ni,
        ;
        if ordered(s0) {
            assert(s0[c - 1] <= s0[c as int]);
        }
    }
    Some(StepEvent { compared: (Some(c - 1), Some(c)) })
}

} // verus!
