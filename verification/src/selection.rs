//! Selection-style step machine: one comparison of the scan element against
//! the running minimum per step; at the end of each scan the minimum is
//! swapped into place and the sorted prefix grows by one.

use vstd::prelude::*;
use crate::order::{ordered, ordered_between, swap_of, swap_in_place};
use crate::event::{StepEvent, step_changes};

verus! {

/// Resumable progress of a selection sort: the boundary of the sorted prefix,
/// the scan index, the index of the running minimum, and whether the sort has
/// terminated.
pub struct SelectionState {
    pub b: usize,
    pub j: usize,
    pub m: usize,
    pub done: bool,
}

impl SelectionState {
    /// Well-formedness with respect to the array being stepped over: indices
    /// in range, the prefix before `b` sorted and dominated by the suffix,
    /// and `m` the strict running minimum of the scanned part of the suffix.
    pub open spec fn inv(self, s: Seq<i32>) -> bool {
        let n = s.len() as int;
        &&& (self.done ==> ordered(s))
        &&& (!self.done && n >= 2 ==> {
            &&& self.b < n - 1
            &&& self.b <= self.m < self.j
            &&& self.b + 1 <= self.j <= n - 1
            &&& ordered_between(s, 0, self.b as int)
            &&& (forall|x: int, q: int| 0 <= x < self.b <= q < n ==> s[x] <= s[q])
            &&& (forall|t: int| self.b <= t < self.j ==> s[self.m as int] <= #[trigger] s[t])
            &&& (self.m != self.b ==> s[self.m as int] < s[self.b as int])
        })
    }

    /// Upper bound on how many more events this state can yield on an array
    /// of length `n`; every productive step strictly decreases it.
    pub open spec fn remaining(self, n: nat) -> nat {
        if self.done {
            0
        } else if n < 2 {
            1
        } else if self.b < n - 1 && self.j < n {
            ((n - 1 - self.b) * n + (n - self.j)) as nat
        } else {
            0
        }
    }

    /// Fresh progress state, valid for an array of any length.
    pub fn new() -> (r: SelectionState)
        ensures
            forall|s: Seq<i32>| #[trigger] r.inv(s),
            !r.done,
            r.b == 0,
            r.j == 1,
            r.m == 0,
            forall|n: nat| #[trigger] r.remaining(n) <= n * n + 1,
    {
        let r = SelectionState { b: 0, j: 1, m: 0, done: false };
        proof {
            assert forall|n: nat| #[trigger] r.remaining(n) <= n * n + 1 by {
                if n >= 2 {
                    assert((n - 1) * n + (n - 1) <= n * n) by (nonlinear_arith)
                        requires
                            n >= 2,
                    ;
                }
            }
        }
        r
    }
}

/// The event a selection step reports from a given state: mid-scan, the pair
/// (scan index, running minimum) just compared; at the end of a scan, the
/// pair of positions (boundary, final minimum) into which the swap goes.
pub open spec fn selection_event(st: SelectionState, s: Seq<i32>, e: StepEvent) -> bool {
    let n = s.len() as int;
    if n < 2 {
        e.compared.0 is None && e.compared.1 is None
    } else if st.j + 1 < n {
        e.compared == (Some(st.j), Some(st.m))
    } else {
        let m2: usize = if s[st.j as int] < s[st.m as int] { st.j } else { st.m };
        e.compared == (Some(st.b), Some(m2))
    }
}

/// The array a selection step leaves behind: unchanged mid-scan; at the end
/// of a scan, the final minimum swapped to the boundary when they differ.
pub open spec fn selection_array_after(st: SelectionState, s: Seq<i32>) -> Seq<i32> {
    let n = s.len() as int;
    if st.j + 1 < n {
        s
    } else {
        let m2: int = if s[st.j as int] < s[st.m as int] {
            st.j as int
        } else {
            st.m as int
        };
        if m2 != st.b {
            swap_of(s, st.b as int, m2)
        } else {
            s
        }
    }
}

/// The pure transition function of the selection machine: the progress state
/// that one step from `st` over `s` leaves behind.
pub open spec fn selection_next(st: SelectionState, s: Seq<i32>) -> SelectionState {
    let n = s.len() as int;
    if st.done {
        st
    } else if n < 2 {
        SelectionState { b: st.b, j: st.j, m: st.m, done: true }
    } else {
        let m2 = if s[st.j as int] < s[st.m as int] {
            st.j
        } else {
            st.m
        };
        if st.j + 1 < n {
            SelectionState { b: st.b, j: (st.j + 1) as usize, m: m2, done: false }
        } else if st.b + 1 >= n - 1 {
            SelectionState { b: st.b, j: st.j, m: st.m, done: true }
        } else {
            SelectionState {
                b: (st.b + 1) as usize,
                j: (st.b + 2) as usize,
                m: (st.b + 1) as usize,
                done: false,
            }
        }
    }
}

/// One unit of selection-sort work: compare the scan element with the running
/// minimum; when the scan is exhausted, swap the minimum to the boundary and
/// advance it, terminating once only the last element is left.
pub fn selection_step(st: &mut SelectionState, array: &mut Vec<i32>) -> (r: Option<StepEvent>)
    requires
        old(st).inv(old(array)@),
    ensures
        final(st).inv(final(array)@),
        final(array)@.len() == old(array)@.len(),
        final(array)@.to_multiset() == old(array)@.to_multiset(),
        (r is None) <==> (old(st).done || old(array)@.len() == 0),
        r is None ==> final(array)@ == old(array)@ && final(st).done && ordered(final(array)@),
        old(st).done ==> *final(st) == *old(st),
        r is Some ==> final(st).remaining(old(array)@.len() as nat)
            < old(st).remaining(old(array)@.len() as nat),
        r matches Some(e) ==> step_changes(old(array)@, final(array)@, e),
        ordered(old(array)@) ==> final(array)@ == old(array)@,
        *final(st) == selection_next(*old(st), old(array)@),
        r matches Some(e) ==> selection_event(*old(st), old(array)@, e),
        r is Some && old(array)@.len() >= 2 ==> final(array)@ == selection_array_after(
            *old(st),
            old(array)@,
        ),
{
    let n = array.len();
    if st.done {
        return None;
    }
    if n == 0 {
        st.done = true;
        return None;
    }
    if n == 1 {
        st.done = true;
        return Some(StepEvent { compared: (None, None) });
    }
    let ghost s0 = array@;
    let ghost ni = n as int;
    let b = st.b;
    let j = st.j;
    let m = st.m;
    let m2: usize = if array[j] < array[m] {
        j
    } else {
        m
    };
    proof {
        // m2 is the strict running minimum of s0[b..=j]
        assert forall|t: int| b <= t <= j implies s0[m2 as int] <= #[trigger] s0[t] by {}
        if m2 != b {
            assert(s0[m2 as int] < s0[b as int]);
        }
        if ordered(s0) {
            // on an ordered array the minimum never leaves the boundary
            assert(m == b);
            assert(m2 == b);
        }
    }
    if j + 1 < n {
        st.m = m2;
        st.j = j + 1;
        return Some(StepEvent { compared: (Some(j), Some(m)) });
    }
    // the scan is exhausted: place the minimum at the boundary
    assert(j == ni - 1);
    if m2 != b {
        swap_in_place(array, b, m2);
    }
    let ghost s1 = array@;
    proof {
        assert forall|t: int| b <= t < ni implies s1[b as int] <= #[trigger] s1[t] by {
            if m2 != b {
                assert(s1 == swap_of(s0, b as int, m2 as int));
            }
        }
        assert(ordered_between(s1, 0, b as int));
        assert forall|x: int, q: int| 0 <= x < b + 1 <= q < ni implies s1[x] <= s1[q] by {
            if m2 != b {
                assert(s1 == swap_of(s0, b as int, m2 as int));
            }
        }
    }
    if b + 1 >= n - 1 {
        st.done = true;
        proof {
            assert forall|x: int, y: int| 0 <= x <= y < ni implies s1[x] <= s1[y] by {
                if x < b + 1 && y >= b + 1 {
                    assert(s1[x] <= s1[y]);
                } else if x >= b + 1 {
                    assert(x == ni - 1 || x == y);
                }
            }
        }
    } else {
        st.b = b + 1;
        st.m = b + 1;
        st.j = b + 2;
        proof {
            assert forall|x: int, y: int| 0 <= x <= y < b + 1 implies s1[x] <= s1[y] by {
                if y == b {
                    assert(s1[x] <= s1[y]);
                }
            }
            // the measure drops by a whole scan
            assert((ni - 2 - b) * ni + ni == (ni - 1 - b) * ni) by (nonlinear_arith);
        }
    }
    proof {
        assert((ni - 1 - b) * ni >= 1) by (nonlinear_arith)
            requires
                ni >= 2,
                0 <= b < ni - 1,
        ;
    }
    Some(StepEvent { compared: (Some(b), Some(m2)) })
}

} // verus!
