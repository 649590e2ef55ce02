//! Partition-style (quick sort) step machine: an explicit stack of pending
//! sub-range bounds plus an in-progress partition cursor. One partition
//! comparison per step; a completed partition places the pivot, pushes the
//! two sub-ranges longer than one, and pops the next range to work on.

use vstd::prelude::*;
use crate::order::{ordered, swap_of, swap_in_place};
use crate::event::{StepEvent, step_changes};

verus! {

/// Resumable progress of a quick sort: pending `(low, high)` inclusive
/// sub-range bounds, the active range `lo..=hi` with its partition cursor
/// (`i` the boundary of the elements below the pivot, `j` the scan index),
/// whether a partition is in progress, and whether the sort has terminated.
pub struct QuickState {
    pub stack: Vec<(usize, usize)>,
    pub lo: usize,
    pub hi: usize,
    pub i: usize,
    pub j: usize,
    pub running: bool,
    pub done: bool,
}

/// Range `r` contains both positions `x` and `y`.
pub open spec fn covers(r: (usize, usize), x: int, y: int) -> bool {
    r.0 <= x && y <= r.1
}

/// Positions `x <= y` lie in one not-yet-finished region: the active range
/// or one pending sub-range. Pairs outside every region are already in their
/// final relative order.
pub open spec fn together(st: QuickState, x: int, y: int) -> bool {
    ||| (st.running && st.lo <= x && y <= st.hi)
    ||| exists|t: int| 0 <= t < st.stack@.len() && #[trigger] covers(st.stack@[t], x, y)
}

/// Every pair of positions that no region contains is already ordered.
pub open spec fn sep_ordered(st: QuickState, s: Seq<i32>) -> bool {
    forall|x: int, y: int|
        0 <= x <= y < s.len() && !together(st, x, y) ==> #[trigger] s[x] <= #[trigger] s[y]
}

/// The pending sub-ranges are proper, lie outside the active range, and are
/// mutually disjoint.
pub open spec fn stack_wf(stk: Seq<(usize, usize)>, lo: int, hi: int, n: int) -> bool {
    &&& (forall|t: int| 0 <= t < stk.len() ==> ((#[trigger] stk[t]).0 as int) < (stk[t].1 as int)
        < n)
    &&& (forall|t: int| 0 <= t < stk.len() ==> (((#[trigger] stk[t]).1 as int) < lo || hi < (
    stk[t].0 as int)))
    &&& (forall|t1: int, t2: int| 0 <= t1 < t2 < stk.len() ==> (((#[trigger] stk[t1]).1 as int)
        < ((#[trigger] stk[t2]).0 as int) || ((stk[t2].1 as int) < (stk[t1].0 as int))))
}

impl QuickState {
    /// Well-formedness with respect to the array being stepped over: the
    /// cursor in range, the two partition regions split by the pivot value at
    /// `hi`, the pending ranges disjoint, and every out-of-region pair
    /// already ordered.
    pub open spec fn inv(self, s: Seq<i32>) -> bool {
        let n = s.len() as int;
        &&& (self.done ==> ordered(s))
        &&& (self.done ==> !self.running)
        &&& (!self.running && !self.done ==> self.stack@.len() == 0)
        &&& (self.running && n >= 2 ==> {
            &&& self.lo <= self.i <= self.j <= self.hi < n
            &&& (forall|k: int| self.lo <= k < self.i ==> #[trigger] s[k] < s[self.hi as int])
            &&& (forall|k: int| self.i <= k < self.j ==> #[trigger] s[k] >= s[self.hi as int])
            &&& stack_wf(self.stack@, self.lo as int, self.hi as int, n)
            &&& sep_ordered(self, s)
        })
    }

    /// Fresh progress state, valid for an array of any length.
    pub fn new() -> (r: QuickState)
        ensures
            forall|s: Seq<i32>| #[trigger] r.inv(s),
            !r.done,
            !r.running,
            r.stack@.len() == 0,
            r.lo == 0 && r.hi == 0 && r.i == 0 && r.j == 0,
            forall|n: nat| #[trigger] r.remaining(n) <= n * n + 1,
    {
        QuickState { stack: Vec::new(), lo: 0, hi: 0, i: 0, j: 0, running: false, done: false }
    }
}

/// The cursor a step starts from: the stored one while a partition runs,
/// else the partition of the whole array that the first step begins.
pub open spec fn quick_cursor(pre: QuickState, n: int) -> (int, int, int, int) {
    if pre.running {
        (pre.lo as int, pre.hi as int, pre.i as int, pre.j as int)
    } else {
        (0, n - 1, 0, 0)
    }
}

/// The pending ranges after a completed partition pushes its sub-ranges
/// longer than one.
pub open spec fn quick_pushed(pre: QuickState, n: int) -> Seq<(usize, usize)> {
    let (lo1, hi1, i1, j1) = quick_cursor(pre, n);
    let with_left = if i1 - lo1 >= 2 {
        pre.stack@.push(((lo1 as usize), ((i1 - 1) as usize)))
    } else {
        pre.stack@
    };
    if hi1 - i1 >= 2 {
        with_left.push((((i1 + 1) as usize), (hi1 as usize)))
    } else {
        with_left
    }
}

/// The pure transition of the quick machine: how the progress state that one
/// step from `pre` over `s` leaves behind relates to `pre`. The relation
/// determines every field of the new state.
pub open spec fn quick_steps_to(pre: QuickState, s: Seq<i32>, post: QuickState) -> bool {
    let n = s.len() as int;
    if pre.done {
        post == pre
    } else if n < 2 {
        &&& post.stack@ == pre.stack@
        &&& post.lo == pre.lo && post.hi == pre.hi && post.i == pre.i && post.j == pre.j
        &&& !post.running && post.done
    } else {
        let (lo1, hi1, i1, j1) = quick_cursor(pre, n);
        if j1 < hi1 {
            &&& post.stack@ == pre.stack@
            &&& (post.lo as int) == lo1 && (post.hi as int) == hi1
            &&& post.running && !post.done
            &&& (post.j as int) == j1 + 1
            &&& (post.i as int) == (if s[j1] < s[hi1] {
                i1 + 1
            } else {
                i1
            })
        } else {
            let sap = quick_pushed(pre, n);
            if sap.len() == 0 {
                &&& post.stack@ == sap
                &&& !post.running && post.done
                &&& (post.lo as int) == lo1 && (post.hi as int) == hi1
                &&& (post.i as int) == i1 && (post.j as int) == j1
            } else {
                &&& post.stack@ == sap.drop_last()
                &&& post.running && !post.done
                &&& post.lo == sap.last().0 && post.hi == sap.last().1
                &&& post.i == sap.last().0 && post.j == sap.last().0
            }
        }
    }
}

/// The array a quick step leaves behind, as a function of the state and the
/// array alone.
pub open spec fn quick_array_after(pre: QuickState, s: Seq<i32>) -> Seq<i32> {
    let n = s.len() as int;
    if pre.done || n < 2 {
        s
    } else {
        let (lo1, hi1, i1, j1) = quick_cursor(pre, n);
        if j1 < hi1 {
            if s[j1] < s[hi1] {
                swap_of(s, i1, j1)
            } else {
                s
            }
        } else {
            if s[hi1] < s[i1] {
                swap_of(s, i1, hi1)
            } else {
                s
            }
        }
    }
}

/// The pair of positions a quick step reports, as a function of the state
/// and the array alone: the swapped pair when an element moves below the
/// pivot, the compared pair when it stays, the placement pair at the end of
/// a scan.
pub open spec fn quick_event(pre: QuickState, s: Seq<i32>) -> (Option<usize>, Option<usize>) {
    let n = s.len() as int;
    if n < 2 {
        (None, None)
    } else {
        let (lo1, hi1, i1, j1) = quick_cursor(pre, n);
        if j1 < hi1 {
            if s[j1] < s[hi1] {
                (Some(i1 as usize), Some(j1 as usize))
            } else {
                (Some(j1 as usize), Some(hi1 as usize))
            }
        } else {
            (Some(i1 as usize), Some(hi1 as usize))
        }
    }
}

impl QuickState {
    /// Steps the active range can still take: the square of its length less
    /// the comparisons already made in the current partition.
    pub open spec fn active_cost(self) -> int {
        let len = ((self.hi - self.lo) as int) + 1;
        len * len - ((self.j - self.lo) as int)
    }

    /// Upper bound on how many more events this state can yield on an array
    /// of length `n`; every productive step strictly decreases it.
    pub open spec fn remaining(self, n: nat) -> nat {
        if self.done {
            0
        } else if n < 2 {
            1
        } else if !self.running {
            (n * n + 1) as nat
        } else {
            (self.active_cost() + stack_cost(self.stack@)) as nat
        }
    }
}

/// No pending sub-range contains a pair that straddles the edge of the
/// active range, since every pending sub-range lies entirely outside it.
proof fn lemma_active_pair_free(st: QuickState, n: int, x: int, y: int)
    requires
        st.running,
        stack_wf(st.stack@, st.lo as int, st.hi as int, n),
        x <= y,
        ((st.lo as int) <= x <= (st.hi as int)) || ((st.lo as int) <= y <= (st.hi as int)),
        !((st.lo as int) <= x && y <= (st.hi as int)),
    ensures
        !together(st, x, y),
{
    assert forall|t: int| 0 <= t < st.stack@.len() implies !covers(st.stack@[t], x, y) by {
        let r = st.stack@[t];
        assert((r.1 as int) < (st.lo as int) || (st.hi as int) < (r.0 as int));
    }
}

/// Cost of one pending range: the square of its length, an upper bound on
/// the steps it and all its descendants can still take.
pub open spec fn range_cost(r: (usize, usize)) -> int {
    ((r.1 - r.0) + 1) * ((r.1 - r.0) + 1)
}

/// Summed cost of the pending ranges.
pub open spec fn stack_cost(stk: Seq<(usize, usize)>) -> int
    decreases stk.len(),
{
    if stk.len() == 0 {
        0
    } else {
        range_cost(stk.last()) + stack_cost(stk.drop_last())
    }
}

proof fn lemma_stack_cost_push(stk: Seq<(usize, usize)>, r: (usize, usize))
    ensures
        stack_cost(stk.push(r)) == stack_cost(stk) + range_cost(r),
{
    assert(stk.push(r).drop_last() =~= stk);
}

proof fn lemma_stack_cost_nonneg(stk: Seq<(usize, usize)>)
    requires
        forall|t: int| 0 <= t < stk.len() ==> ((#[trigger] stk[t]).0 as int) <= (stk[t].1 as int),
    ensures
        stack_cost(stk) >= 0,
    decreases stk.len(),
{
    if stk.len() > 0 {
        let r = stk.last();
        assert(range_cost(r) >= 0) by (nonlinear_arith)
            requires
                (r.0 as int) <= (r.1 as int),
        ;
        lemma_stack_cost_nonneg(stk.drop_last());
    }
}

/// Two states with the same regions keep pairs together alike; only the
/// partition cursor differs.
proof fn lemma_together_same_regions(a: QuickState, b: QuickState, x: int, y: int)
    requires
        a.running == b.running,
        a.lo == b.lo,
        a.hi == b.hi,
        a.stack@ == b.stack@,
        together(a, x, y),
    ensures
        together(b, x, y),
{
    if !(a.running && a.lo <= x && y <= a.hi) {
        let t = choose|t: int| 0 <= t < a.stack@.len() && #[trigger] covers(a.stack@[t], x, y);
        assert(covers(b.stack@[t], x, y));
    }
}

/// A pair whose ends do not both lie in the active range stays ordered when
/// two positions of the active range exchange their values: each moved value
/// still comes from the active range, and every active position was already
/// ordered against both ends outside it.
proof fn lemma_sep_after_active_swap(st: QuickState, s: Seq<i32>, a: int, b: int)
    requires
        st.running,
        stack_wf(st.stack@, st.lo as int, st.hi as int, s.len() as int),
        sep_ordered(st, s),
        st.lo <= a <= st.hi < s.len(),
        st.lo <= b <= st.hi,
    ensures
        sep_ordered(st, swap_of(s, a, b)),
{
    let s1 = swap_of(s, a, b);
    let n = s.len() as int;
    let lo = st.lo as int;
    let hi = st.hi as int;
    assert forall|x: int, y: int| 0 <= x <= y < n && !together(st, x, y) implies #[trigger] s1[x]
        <= #[trigger] s1[y] by {
        if lo <= x <= hi {
            assert(y > hi);
            let xa: int = if x == a {
                b
            } else if x == b {
                a
            } else {
                x
            };
            assert(s1[x] == s[xa]);
            assert(s1[y] == s[y]);
            lemma_active_pair_free(st, n, xa, y);
            assert(s[xa] <= s[y]);
        } else if lo <= y <= hi {
            assert(x < lo);
            let ya: int = if y == a {
                b
            } else if y == b {
                a
            } else {
                y
            };
            assert(s1[y] == s[ya]);
            assert(s1[x] == s[x]);
            lemma_active_pair_free(st, n, x, ya);
            assert(s[x] <= s[ya]);
        } else {
            assert(s1[x] == s[x] && s1[y] == s[y]);
            assert(s[x] <= s[y]);
        }
    }
}

/// One unit of quick-sort work: one partition comparison (with at most one
/// swap), or — once the scan meets the pivot — the pivot's placement, the
/// push of the resulting sub-ranges longer than one, and the pop of the next
/// range; terminal once no range is pending.
#[verifier::rlimit(100)]
pub fn quick_step(st: &mut QuickState, array: &mut Vec<i32>) -> (r: Option<StepEvent>)
    requires
        old(st).inv(old(array)@),
    ensures
        final(st).inv(final(array)@),
        final(array)@.len() == old(array)@.len(),
        final(array)@.to_multiset() == old(array)@.to_multiset(),
        (r is None) <==> (old(st).done || old(array)@.len() == 0),
        r is None ==> final(array)@ == old(array)@ && final(st).done && ordered(final(array)@),
        old(st).done ==> *final(st) == *old(st),
        r is Some ==> final(st).remaining(old(array)@.len() as nat)
            < old(st).remaining(old(array)@.len() as nat),
        r matches Some(e) ==> step_changes(old(array)@, final(array)@, e),
        ordered(old(array)@) ==> final(array)@ == old(array)@,
        quick_steps_to(*old(st), old(array)@, *final(st)),
        final(array)@ == quick_array_after(*old(st), old(array)@),
        r matches Some(e) ==> if old(array)@.len() >= 2 {
            e.compared == quick_event(*old(st), old(array)@)
        } else {
            e.compared.0 is None && e.compared.1 is None
        },
{
    let n = array.len();
    if st.done {
        return None;
    }
    if n == 0 {
        st.done = true;
        st.running = false;
        return None;
    }
    if n == 1 {
        st.done = true;
        st.running = false;
        return Some(StepEvent { compared: (None, None) });
    }
    let ghost s0 = array@;
    let ghost ni = n as int;
    if !st.running {
        // the first step begins the partition of the whole array
        st.running = true;
        st.lo = 0;
        st.hi = n - 1;
        st.i = 0;
        st.j = 0;
        proof {
            assert forall|x: int, y: int| 0 <= x <= y < ni && !together(*st, x, y) implies
                #[trigger] s0[x] <= #[trigger] s0[y] by {
                assert(together(*st, x, y));
            }
        }
    }
    let lo = st.lo;
    let hi = st.hi;
    let i = st.i;
    let j = st.j;
    let ghost pre = *st;
    proof {
        assert(pre.inv(s0));
        // a live partition never runs out of measure
        assert((hi - lo + 1) * (hi - lo + 1) > (hi as int) - lo) by (nonlinear_arith)
            requires
                0 <= (lo as int) <= (hi as int),
        ;
        lemma_stack_cost_nonneg(pre.stack@);
    }
    if j < hi {
        // one partition comparison of the scan element against the pivot
        let vj = array[j];
        let vh = array[hi];
        if vj < vh {
            // the element belongs below the pivot: grow the low region
            swap_in_place(array, i, j);
            st.i = i + 1;
            st.j = j + 1;
            let ghost s1 = array@;
            proof {
                assert(s1 == swap_of(s0, i as int, j as int));
                if i == j {
                    assert(s1 =~= s0);
                }
                assert(s1[hi as int] == s0[hi as int]);
                assert forall|k: int| lo <= k < i + 1 implies #[trigger] s1[k] < s1[hi as int] by {
                    if k == i {
                        assert(s1[k] == s0[j as int]);
                    }
                }
                assert forall|k: int| i + 1 <= k < j + 1 implies #[trigger] s1[k]
                    >= s1[hi as int] by {
                    if k == j && i < j {
                        assert(s1[k] == s0[i as int]);
                        assert(s0[i as int] >= s0[hi as int]);
                    }
                }
                lemma_sep_after_active_swap(pre, s0, i as int, j as int);
                assert forall|x: int, y: int| 0 <= x <= y < ni && !together(*st, x, y) implies
                    #[trigger] s1[x] <= #[trigger] s1[y] by {
                    if together(pre, x, y) {
                        lemma_together_same_regions(pre, *st, x, y);
                    }
                    assert(!together(pre, x, y));
                }
                if ordered(s0) {
                    // on an ordered array the low boundary never trails the scan
                    assert(i == j) by {
                        if i < j {
                            assert(s0[i as int] >= s0[hi as int]);
                            assert(s0[i as int] <= s0[j as int]);
                        }
                    }
                    assert(s1 =~= s0);
                }
            }
            return Some(StepEvent { compared: (Some(i), Some(j)) });
        } else {
            // the element stays in the high region
            st.j = j + 1;
            proof {
                assert forall|x: int, y: int| 0 <= x <= y < ni && !together(*st, x, y) implies
                    #[trigger] s0[x] <= #[trigger] s0[y] by {
                    if together(pre, x, y) {
                        lemma_together_same_regions(pre, *st, x, y);
                    }
                    assert(!together(pre, x, y));
                }
            }
            return Some(StepEvent { compared: (Some(j), Some(hi)) });
        }
    }
    // the scan met the pivot: place it between the two regions
    let vi = array[i];
    let vh = array[hi];
    if vh < vi {
        swap_in_place(array, i, hi);
    }
    let ghost s1 = array@;
    let ghost piv = s1[i as int];
    proof {
        assert(s1 =~= swap_of(s0, i as int, hi as int));
        assert(s1 == swap_of(s0, i as int, hi as int));
        if i < hi {
            assert(s0[i as int] >= s0[hi as int]);
        }
        assert(piv == s0[hi as int]);
        assert forall|k: int| lo <= k < i implies #[trigger] s1[k] < piv by {}
        assert forall|k: int| i < k <= hi implies #[trigger] s1[k] >= piv by {
            if k == hi {
                assert(s1[k] == s0[i as int]);
            }
        }
        lemma_sep_after_active_swap(pre, s0, i as int, hi as int);
        assert(sep_ordered(pre, s1));
        if ordered(s0) {
            assert(s0[i as int] <= s0[hi as int]);
            assert(s1 =~= s0);
        }
    }
    let ghost stk0 = pre.stack@;
    if i - lo >= 2 {
        st.stack.push((lo, i - 1));
    }
    let ghost stk1 = st.stack@;
    if hi - i >= 2 {
        st.stack.push((i + 1, hi));
    }
    let ghost sap = st.stack@;
    proof {
        // costs of the pushed sub-ranges
        if i - lo >= 2 {
            lemma_stack_cost_push(stk0, (lo, (i - 1) as usize));
        }
        if hi - i >= 2 {
            lemma_stack_cost_push(stk1, (((i + 1) as usize), hi));
        }
        // every entry is a proper range that avoids the pivot's position
        assert forall|t: int| 0 <= t < sap.len() implies ((#[trigger] sap[t]).0 as int) < (
        sap[t].1 as int) < ni && (((sap[t].1 as int) < (i as int) || (i as int) < (
        sap[t].0 as int))) by {
            if t < stk0.len() {
                assert(sap[t] == stk0[t]);
                assert((stk0[t].1 as int) < (lo as int) || (hi as int) < (stk0[t].0 as int));
            }
        }
        // the entries are pairwise disjoint
        assert forall|t1: int, t2: int| 0 <= t1 < t2 < sap.len() implies (((#[trigger] sap[t1]).1
            as int) < ((#[trigger] sap[t2]).0 as int) || ((sap[t2].1 as int) < (sap[t1].0
            as int))) by {
            if t2 < stk0.len() {
            } else if t1 < stk0.len() {
                assert((stk0[t1].1 as int) < (lo as int) || (hi as int) < (stk0[t1].0 as int));
                assert((lo as int) <= (sap[t2].0 as int) && (sap[t2].1 as int) <= (hi as int));
            } else {
                assert(sap[t1] == (lo, (i - 1) as usize));
                assert(sap[t2] == (((i + 1) as usize), hi));
            }
        }
        // the pushed sub-ranges lie inside the finished active range
        assert forall|t: int| stk0.len() <= t < sap.len() implies (lo as int) <= ((
        #[trigger] sap[t]).0 as int) && (sap[t].1 as int) <= (hi as int) by {}
        // the measure spent on this partition exceeds what its children need
        assert((i - lo) * (i - lo) + (hi - i) * (hi - i) < (hi - lo + 1) * (hi - lo + 1) - (hi
            - lo + 1) + 1) by (nonlinear_arith)
            requires
                0 <= (lo as int) <= (i as int) <= (hi as int),
        ;
    }
    let popped = st.stack.pop();
    match popped {
        None => {
            // no range is pending: the whole array is in order
            st.running = false;
            st.done = true;
            proof {
                assert(sap.len() == 0);
                assert(i <= lo + 1 && hi <= i + 1);
                assert forall|x: int, y: int| 0 <= x <= y < ni implies #[trigger] s1[x]
                    <= #[trigger] s1[y] by {
                    let loi = lo as int;
                    let hii = hi as int;
                    if x < y {
                        if loi <= x && y <= hii {
                            assert(s1[x] <= s1[y]);
                        } else {
                            if (loi <= x <= hii) || (loi <= y <= hii) {
                                lemma_active_pair_free(pre, ni, x, y);
                            }
                            assert(!together(pre, x, y));
                            assert(s1[x] <= s1[y]);
                        }
                    }
                }
            }
        },
        Some(r2) => {
            st.lo = r2.0;
            st.hi = r2.1;
            st.i = r2.0;
            st.j = r2.0;
            proof {
                assert(sap.len() > 0);
                assert(r2 == sap.last());
                assert(st.stack@ =~= sap.drop_last());
                assert(stack_cost(sap) == range_cost(r2) + stack_cost(st.stack@));
                lemma_stack_cost_nonneg(st.stack@);
                assert((r2.0 as int) < (r2.1 as int) < ni);
                // the new active range is one entry of the old stack; the rest
                // stays disjoint from it
                assert(stack_wf(st.stack@, r2.0 as int, r2.1 as int, ni)) by {
                    assert forall|t: int| 0 <= t < sap.len() - 1 implies ((#[trigger] sap[t]).1
                        as int) < (r2.0 as int) || ((r2.1 as int) < (sap[t].0 as int)) by {
                        assert(sap[sap.len() - 1] == r2);
                    }
                }
                // separation for the restructured regions
                assert forall|x: int, y: int| 0 <= x <= y < ni && !together(*st, x, y) implies
                    #[trigger] s1[x] <= #[trigger] s1[y] by {
                    let loi = lo as int;
                    let hii = hi as int;
                    let ii = i as int;
                    if x < y {
                        if loi <= x && y <= hii {
                            // inside the finished range: either the pair straddles
                            // the placed pivot, or it sits in one pushed sub-range
                            if y < ii {
                                assert(i >= lo + 2);
                                let tl: int = stk0.len() as int;
                                assert(sap[tl] == (lo, (i - 1) as usize));
                                assert(covers(sap[tl], x, y));
                                if tl == sap.len() - 1 {
                                    assert(together(*st, x, y));
                                } else {
                                    assert(st.stack@[tl] == sap[tl]);
                                    assert(together(*st, x, y));
                                }
                                assert(false);
                            } else if x > ii {
                                assert(hi >= i + 2);
                                let tr: int = sap.len() - 1;
                                assert(sap[tr] == (((i + 1) as usize), hi));
                                assert(covers(sap[tr], x, y));
                                assert(together(*st, x, y));
                                assert(false);
                            } else {
                                // x <= ii <= y and the pair is ordered through the pivot
                                assert(s1[x] <= s1[y]);
                            }
                        } else if (loi <= x <= hii) || (loi <= y <= hii) {
                            lemma_active_pair_free(pre, ni, x, y);
                            assert(s1[x] <= s1[y]);
                        } else {
                            // both ends outside the finished range: any old range
                            // holding the pair still holds it, as stack or active
                            if together(pre, x, y) {
                                let t = choose|t: int|
                                    0 <= t < stk0.len() && #[trigger] covers(stk0[t], x, y);
                                assert(sap[t] == stk0[t]);
                                if t == sap.len() - 1 {
                                    assert(together(*st, x, y));
                                } else {
                                    assert(st.stack@[t] == sap[t]);
                                    assert(together(*st, x, y));
                                }
                                assert(false);
                            }
                            assert(s1[x] <= s1[y]);
                        }
                    }
                }
            }
        },
    }
    Some(StepEvent { compared: (Some(i), Some(hi)) })
}

} // verus!
