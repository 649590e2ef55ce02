//! The algorithm engine: owns the resumable progress state of one sorting
//! strategy, selected once at construction, and advances it by exactly one
//! unit of work per `step` call.

use vstd::prelude::*;
use crate::event::{Algorithm, StepEvent, step_changes};
use crate::order::{ordered, swap_of};
use crate::bubble::{BubbleState, bubble_step, bubble_next};
use crate::selection::{SelectionState, selection_step, selection_next, selection_array_after};
use crate::insertion::{InsertionState, insertion_step, insertion_next};
use crate::quick::{QuickState, quick_step, quick_steps_to, quick_array_after, quick_event};

verus! {

/// The tagged union of per-algorithm progress states. Owned exclusively by
/// the engine and never exposed.
enum Progress {
    Bubble(BubbleState),
    Selection(SelectionState),
    Insertion(InsertionState),
    Quick(QuickState),
}

/// An incremental sorting engine bound to one algorithm for one run. Each
/// `step` call performs one comparison (and at most one swap) on the array it
/// is handed and reports which positions it touched; `None` means the
/// algorithm had already terminated, and from then on the engine never
/// touches the array again.
pub struct Engine {
    prog: Progress,
}

impl Engine {
    /// The engine's progress state fits the array it has been stepping over;
    /// established for every array by `new` and preserved by every `step`.
    pub closed spec fn inv(self, s: Seq<i32>) -> bool {
        match self.prog {
            Progress::Bubble(st) => st.inv(s),
            Progress::Selection(st) => st.inv(s),
            Progress::Insertion(st) => st.inv(s),
            Progress::Quick(st) => st.inv(s),
        }
    }

    /// Whether the algorithm has reached its terminal condition.
    pub closed spec fn done(self) -> bool {
        match self.prog {
            Progress::Bubble(st) => st.done,
            Progress::Selection(st) => st.done,
            Progress::Insertion(st) => st.done,
            Progress::Quick(st) => st.done,
        }
    }

    /// Upper bound on how many more events the engine can yield on an array
    /// of length `n`; every `Some` step strictly decreases it.
    pub closed spec fn remaining(self, n: nat) -> nat {
        match self.prog {
            Progress::Bubble(st) => st.remaining(n),
            Progress::Selection(st) => st.remaining(n),
            Progress::Insertion(st) => st.remaining(n),
            Progress::Quick(st) => st.remaining(n),
        }
    }

    /// Which strategy this engine runs; fixed at construction.
    pub closed spec fn algorithm(self) -> Algorithm {
        match self.prog {
            Progress::Bubble(_) => Algorithm::Bubble,
            Progress::Selection(_) => Algorithm::Selection,
            Progress::Insertion(_) => Algorithm::Insertion,
            Progress::Quick(_) => Algorithm::Quick,
        }
    }

    /// The array a step from this state leaves behind, as a function of the
    /// state and the array alone: each step's effect is deterministic.
    pub closed spec fn array_after(self, s: Seq<i32>) -> Seq<i32> {
        if self.done() || s.len() < 2 {
            s
        } else {
            match self.prog {
                Progress::Bubble(st) => if s[st.i as int] > s[st.i + 1] {
                    swap_of(s, st.i as int, st.i + 1)
                } else {
                    s
                },
                Progress::Selection(st) => selection_array_after(st, s),
                Progress::Insertion(st) => if s[st.c - 1] > s[st.c as int] {
                    swap_of(s, st.c - 1, st.c as int)
                } else {
                    s
                },
                Progress::Quick(st) => quick_array_after(st, s),
            }
        }
    }

    /// The state `new` constructs for a selector: construction is
    /// deterministic up to the abstract content of the progress state, so
    /// two engines made from the same selector behave alike.
    pub closed spec fn is_initial(self, algo: Algorithm) -> bool {
        match (algo, self.prog) {
            (Algorithm::Bubble, Progress::Bubble(st)) => st == (BubbleState {
                pass: 0,
                i: 0,
                swapped: false,
                done: false,
            }),
            (Algorithm::Selection, Progress::Selection(st)) => st == (SelectionState {
                b: 0,
                j: 1,
                m: 0,
                done: false,
            }),
            (Algorithm::Insertion, Progress::Insertion(st)) => st == (InsertionState {
                k: 1,
                c: 1,
                done: false,
            }),
            (Algorithm::Quick, Progress::Quick(st)) => {
                &&& st.stack@.len() == 0
                &&& !st.running
                &&& !st.done
                &&& st.lo == 0 && st.hi == 0 && st.i == 0 && st.j == 0
            },
            _ => false,
        }
    }

    /// The pure transition of the engine: how the progress state that one
    /// `step` over `s` leaves behind relates to the state before it. The
    /// relation determines the new state from the old state and the array
    /// alone.
    pub closed spec fn steps_to(self, s: Seq<i32>, post: Engine) -> bool {
        match (self.prog, post.prog) {
            (Progress::Bubble(a), Progress::Bubble(b)) => b == bubble_next(a, s),
            (Progress::Selection(a), Progress::Selection(b)) => b == selection_next(a, s),
            (Progress::Insertion(a), Progress::Insertion(b)) => b == insertion_next(a, s),
            (Progress::Quick(a), Progress::Quick(b)) => quick_steps_to(a, s, b),
            _ => false,
        }
    }

    /// The pair of positions the next `step` over `s` reports, as a function
    /// of the state and the array alone.
    pub closed spec fn event_of(self, s: Seq<i32>) -> (Option<usize>, Option<usize>) {
        let n = s.len() as int;
        if n < 2 {
            (None, None)
        } else {
            match self.prog {
                Progress::Bubble(st) => (Some(st.i), Some((st.i + 1) as usize)),
                Progress::Selection(st) => if st.j + 1 < n {
                    (Some(st.j), Some(st.m))
                } else {
                    let m2 = if s[st.j as int] < s[st.m as int] {
                        st.j
                    } else {
                        st.m
                    };
                    (Some(st.b), Some(m2))
                },
                Progress::Insertion(st) => (Some((st.c - 1) as usize), Some(st.c)),
                Progress::Quick(st) => quick_event(st, s),
            }
        }
    }

    /// Constructs an engine with fresh, zeroed progress state for the chosen
    /// algorithm. Valid for an array of any length; no error condition.
    pub fn new(algo: Algorithm) -> (r: Engine)
        ensures
            r.is_initial(algo),
            r.algorithm() == algo,
            !r.done(),
            forall|s: Seq<i32>| #[trigger] r.inv(s),
            forall|n: nat| #[trigger] r.remaining(n) <= n * n + 1,
    {
        let prog = match algo {
            Algorithm::Bubble => Progress::Bubble(BubbleState::new()),
            Algorithm::Selection => Progress::Selection(SelectionState::new()),
            Algorithm::Insertion => Progress::Insertion(InsertionState::new()),
            Algorithm::Quick => Progress::Quick(QuickState::new()),
        };
        Engine { prog }
    }

    /// Performs exactly one unit of algorithmic work on `array` — one
    /// comparison, followed by a swap of the reported pair if it was strictly
    /// misordered — and advances the progress state. Returns the event
    /// describing what was touched, or `None` once the algorithm is terminal:
    /// from the first `None` on, every further call returns `None` and leaves
    /// both the array and the state unchanged.
    pub fn step(&mut self, array: &mut Vec<i32>) -> (r: Option<StepEvent>)
        requires
            old(self).inv(old(array)@),
        ensures
            final(self).inv(final(array)@),
            final(self).algorithm() == old(self).algorithm(),
            final(array)@.len() == old(array)@.len(),
            final(array)@.to_multiset() == old(array)@.to_multiset(),
            (r is None) <==> (old(self).done() || old(array)@.len() == 0),
            r is None ==> final(array)@ == old(array)@ && final(self).done() && ordered(
                final(array)@,
            ),
            old(self).done() ==> *final(self) == *old(self),
            r is Some ==> final(self).remaining(old(array)@.len() as nat) < old(self).remaining(
                old(array)@.len() as nat,
            ),
            r matches Some(e) ==> step_changes(old(array)@, final(array)@, e),
            old(self).steps_to(old(array)@, *final(self)),
            r matches Some(e) ==> e.compared == old(self).event_of(old(array)@),
            final(array)@ == old(self).array_after(old(array)@),
            ordered(old(array)@) ==> final(array)@ == old(array)@,
    {
        match &mut self.prog {
            Progress::Bubble(st) => bubble_step(st, array),
            Progress::Selection(st) => selection_step(st, array),
            Progress::Insertion(st) => insertion_step(st, array),
            Progress::Quick(st) => quick_step(st, array),
        }
    }
}

} // verus!
