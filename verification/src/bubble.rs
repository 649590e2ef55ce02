//! Bubble-style step machine: one adjacent comparison per step, passes over a
//! shrinking prefix, early exit when a whole pass swaps nothing.

use vstd::prelude::*;
use crate::order::{ordered, ordered_between, swap_of, swap_in_place};
use crate::event::{StepEvent, step_changes};

verus! {

/// Resumable progress of a bubble sort: the number of completed passes, the
/// index of the next adjacent comparison, whether the current pass has
/// swapped, and whether the sort has terminated.
pub struct BubbleState {
    pub pass: usize,
    pub i: usize,
    pub swapped: bool,
    pub done: bool,
}

impl BubbleState {
    /// Well-formedness of the cursor with respect to the array it has been
    /// stepping over: indices in range, the suffix already bubbled into place,
    /// the running maximum at the cursor, and the no-swap prefix in order.
    pub open spec fn inv(self, s: Seq<i32>) -> bool {
        let n = s.len() as int;
        &&& (self.done ==> ordered(s))
        &&& (!self.done && n >= 2 ==> {
            &&& self.pass < n - 1
            &&& self.i < n - 1 - self.pass
            &&& ordered_between(s, n - self.pass, n)
            &&& (forall|k: int, m: int| 0 <= k < n - self.pass <= m < n ==> s[k] <= s[m])
            &&& (forall|k: int| 0 <= k <= self.i ==> #[trigger] s[k] <= s[self.i as int])
            &&& (!self.swapped ==> ordered_between(s, 0, self.i + 1))
        })
    }

    /// Upper bound on how many more events this state can yield on an array
    /// of length `n`; every productive step strictly decreases it.
    pub open spec fn remaining(self, n: nat) -> nat {
        if self.done {
            0
        } else if n < 2 {
            1
        } else if self.pass < n - 1 && self.i < n - 1 - self.pass {
            ((n - 1 - self.pass) * (n - 1) + (n - 1 - self.pass - self.i)) as nat
        } else {
            0
        }
    }

    /// Fresh progress state, valid for an array of any length.
    pub fn new() -> (r: BubbleState)
        ensures
            forall|s: Seq<i32>| #[trigger] r.inv(s),
            !r.done,
            r.pass == 0,
            r.i == 0,
            !r.swapped,
            forall|n: nat| #[trigger] r.remaining(n) <= n * n + 1,
    {
        let r = BubbleState { pass: 0, i: 0, swapped: false, done: false };
        proof {
            assert forall|n: nat| #[trigger] r.remaining(n) <= n * n + 1 by {
                if n >= 2 {
                    assert((n - 1) * (n - 1) + (n - 1) <= n * n) by (nonlinear_arith)
                        requires
                            n >= 2,
                    ;
                }
            }
        }
        r
    }
}

/// The pure transition function of the bubble machine: the progress state
/// that one step from `st` over `s` leaves behind.
pub open spec fn bubble_next(st: BubbleState, s: Seq<i32>) -> BubbleState {
    let n = s.len() as int;
    if st.done {
        st
    } else if n < 2 {
        BubbleState { pass: st.pass, i: st.i, swapped: st.swapped, done: true }
    } else {
        let swapped = st.swapped || s[st.i as int] > s[st.i + 1];
        if st.i + 1 < n - 1 - st.pass {
            BubbleState { pass: st.pass, i: (st.i + 1) as usize, swapped, done: false }
        } else if !swapped || st.pass + 1 >= n - 1 {
            BubbleState { pass: st.pass, i: st.i, swapped, done: true }
        } else {
            BubbleState { pass: (st.pass + 1) as usize, i: 0, swapped: false, done: false }
        }
    }
}

/// The machine's progress state after `k` transitions over an array that
/// none of them changes.
pub open spec fn bubble_iterate(st: BubbleState, s: Seq<i32>, k: nat) -> BubbleState
    decreases k,
{
    if k == 0 {
        st
    } else {
        bubble_next(bubble_iterate(st, s, (k - 1) as nat), s)
    }
}

/// Law of idle correctness: on an already-sorted array of length `n >= 2`, a
/// fresh bubble machine performs exactly one confirmatory pass — its first
/// `n - 1` states walk the adjacent comparisons with the swapped flag never
/// set — and it is terminal immediately after the last of them. (Each such
/// transition leaves a sorted array unchanged, so iterating the transition
/// over `s` itself describes the whole run.)
pub proof fn lemma_bubble_idle_pass(s: Seq<i32>, k: nat)
    requires
        ordered(s),
        2 <= s.len() <= usize::MAX,
        k <= s.len() - 1,
    ensures
        k < s.len() - 1 ==> bubble_iterate(
            BubbleState { pass: 0, i: 0, swapped: false, done: false },
            s,
            k,
        ) == (BubbleState { pass: 0, i: k as usize, swapped: false, done: false }),
        k == s.len() - 1 ==> bubble_iterate(
            BubbleState { pass: 0, i: 0, swapped: false, done: false },
            s,
            k,
        ).done,
    decreases k,
{
    if k > 0 {
        lemma_bubble_idle_pass(s, (k - 1) as nat);
        let prev = bubble_iterate(
            BubbleState { pass: 0, i: 0, swapped: false, done: false },
            s,
            (k - 1) as nat,
        );
        assert(s[prev.i as int] <= s[prev.i + 1]);
    }
}

/// One unit of bubble-sort work: compare the cursor's adjacent pair, swap on
/// strict misorder, advance; terminate at the end of a swap-free pass or when
/// the pass count is exhausted.
pub fn bubble_step(st: &mut BubbleState, array: &mut Vec<i32>) -> (r: Option<StepEvent>)
    requires
        old(st).inv(old(array)@),
    ensures
        final(st).inv(final(array)@),
        final(array)@.len() == old(array)@.len(),
        final(array)@.to_multiset() == old(array)@.to_multiset(),
        (r is None) <==> (old(st).done || old(array)@.len() == 0),
        r is None ==> final(array)@ == old(array)@ && final(st).done && ordered(final(array)@),
        old(st).done ==> *final(st) == *old(st),
        r is Some ==> final(st).remaining(old(array)@.len() as nat)
            < old(st).remaining(old(array)@.len() as nat),
        r matches Some(e) ==> step_changes(old(array)@, final(array)@, e),
        ordered(old(array)@) ==> final(array)@ == old(array)@,
        *final(st) == bubble_next(*old(st), old(array)@),
        r is Some && old(array)@.len() >= 2 ==> final(array)@ == (if old(array)@[old(st).i as int]
            > old(array)@[old(st).i + 1] {
            swap_of(old(array)@, old(st).i as int, old(st).i + 1)
        } else {
            old(array)@
        }),
        r matches Some(e) ==> if old(array)@.len() >= 2 {
            e.compared.0 == Some(old(st).i) && e.compared.1 == Some((old(st).i + 1) as usize)
        } else {
            e.compared.0 is None && e.compared.1 is None
        },
{
    let n = array.len();
    if st.done {
        return None;
    }
    if n == 0 {
        st.done = true;
        return None;
    }
    if n == 1 {
        st.done = true;
        return Some(StepEvent { compared: (None, None) });
    }
    let ghost s0 = array@;
    let ghost ni = n as int;
    let ghost p = st.pass as int;
    let i = st.i;
    let a = array[i];
    let b = array[i + 1];
    if a > b {
        swap_in_place(array, i, i + 1);
        st.swapped = true;
    }
    let ghost s1 = array@;
    proof {
        // The element now at i + 1 tops the prefix 0..=i+1, and the suffix
        // and cross-domination facts survive the (prefix-internal) swap.
        assert forall|k: int| 0 <= k <= i + 1 implies #[trigger] s1[k] <= s1[i + 1] by {
            if a > b {
                assert(s1 == swap_of(s0, i as int, i + 1));
            }
        }
        assert(ordered_between(s1, ni - p, ni));
        assert forall|k: int, m: int| 0 <= k < ni - p <= m < ni implies s1[k] <= s1[m] by {
            if a > b {
                assert(s1 == swap_of(s0, i as int, i + 1));
                assert(i + 1 < ni - p);
            }
        }
    }
    if i + 1 < n - 1 - st.pass {
        st.i = i + 1;
        proof {
            if !st.swapped {
                assert(s1 == s0);
                assert forall|x: int, y: int| 0 <= x <= y < i + 2 implies s1[x] <= s1[y] by {
                    if y == i + 1 && x <= i {
                        assert(s0[x] <= s0[i as int]);
                    }
                }
            }
        }
    } else {
        // the current pass is complete; the prefix 0..n-pass ends in its maximum
        assert(i + 1 == ni - 1 - p);
        if !st.swapped {
            // a swap-free pass: the whole prefix is in order, hence the array is
            st.done = true;
            proof {
                assert(s1 == s0);
                assert forall|x: int, y: int| 0 <= x <= y < ni implies s1[x] <= s1[y] by {
                    if y < i + 2 {
                        if y == i + 1 && x <= i {
                            assert(s0[x] <= s0[i as int]);
                        }
                    } else {
                        assert(y >= ni - p);
                        if x < ni - p {
                        } else {
                            assert(ordered_between(s1, ni - p, ni));
                        }
                    }
                }
            }
        } else if st.pass + 1 >= n - 1 {
            // every pass has run; only the first position is left of the suffix
            st.done = true;
            proof {
                assert(p == ni - 2);
                assert(i == 0);
                assert forall|x: int, y: int| 0 <= x <= y < ni implies s1[x] <= s1[y] by {
                    if x == 0 && y == 1 {
                        assert(s1[0] <= s1[i + 1]);
                    } else if x < 2 <= y {
                    } else if 2 <= x {
                        assert(ordered_between(s1, ni - p, ni));
                    }
                }
            }
        } else {
            st.pass = st.pass + 1;
            st.i = 0;
            st.swapped = false;
            proof {
                // the maximum of the prefix has joined the ordered suffix
                assert forall|x: int, y: int| 0 <= x <= y < ni && ni - p - 1 <= x implies
                    s1[x] <= s1[y] by {
                    if x == ni - p - 1 && y >= ni - p {
                        assert(s1[x] <= s1[y]);
                    } else if x >= ni - p {
                        assert(ordered_between(s1, ni - p, ni));
                    }
                }
                assert forall|k: int, m: int| 0 <= k < ni - p - 1 <= m < ni implies
                    s1[k] <= s1[m] by {
                    if m == ni - p - 1 {
                        assert(s1[k] <= s1[i + 1]);
                    }
                }
                // the measure drops by a whole pass
                assert((ni - 1 - p - 1) * (ni - 1) + (ni - 1) == (ni - 1 - p) * (ni - 1))
                    by (nonlinear_arith)
                ;
                assert((ni - 2 - p) >= 1);
            }
        }
    }
    proof {
        if a > b {
            assert(s1 == swap_of(s0, i as int, i + 1));
        } else {
            assert(s1 == s0);
        }
        // a swap happens exactly on strict misorder of the compared pair
        assert(step_changes(s0, s1, StepEvent { compared: (Some(i), Some((i + 1) as usize)) }));
        if ordered(s0) {
            assert(s0[i as int] <= s0[i + 1]);
        }
        // the measure strictly decreases while work remains
        assert((ni - 1 - p) * (ni - 1) >= 1) by (nonlinear_arith)
            requires
                ni >= 2,
                0 <= p < ni - 1,
        ;
    }
    Some(StepEvent { compared: (Some(i), Some(i + 1)) })
}

} // verus!
