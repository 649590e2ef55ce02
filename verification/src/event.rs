//! The algorithm selector, the per-step event, and the predicate that ties an
//! event to the array change of the step that produced it.

use vstd::prelude::*;
use crate::order::swap_of;

verus! {

/// Which sorting strategy an engine runs. The set is closed: an engine is
/// bound to one variant at construction and never changes it.
#[derive(Clone, Copy, Debug, PartialEq, Eq)]
pub enum Algorithm {
    Bubble,
    Selection,
    Insertion,
    Quick,
}

impl Default for Algorithm {
    fn default() -> (r: Algorithm)
        ensures
            r == Algorithm::Bubble,
    {
        Algorithm::Bubble
    }
}

/// What a single step touched: the two element positions most recently
/// compared (and, if the step swapped, the swapped pair). Either side may be
/// absent on a no-op or completion step.
#[derive(Clone, Copy, Debug, PartialEq, Eq)]
pub struct StepEvent {
    pub compared: (Option<usize>, Option<usize>),
}

/// How the array of a step relates to the event the step reported: either the
/// step left the array unchanged, or it exchanged exactly the two distinct
/// positions the event names, and only because the value at the earlier
/// position was strictly greater than the value at the later one. In
/// particular equal elements are never swapped.
pub open spec fn step_changes(s0: Seq<i32>, s1: Seq<i32>, e: StepEvent) -> bool {
    match e.compared {
        (Some(p), Some(q)) => {
            let lo = if p <= q { p as int } else { q as int };
            let hi = if p <= q { q as int } else { p as int };
            &&& p < s0.len()
            &&& q < s0.len()
            &&& (s1 == s0 || (p != q && s0[lo] > s0[hi] && s1 == swap_of(s0, p as int, q as int)))
        },
        (None, None) => s1 == s0,
        _ => false,
    }
}

} // verus!
