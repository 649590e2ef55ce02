//! Randomized input generation: a fresh array of bar heights for one run.
//! The engine has no invariant on its input beyond what this states — `sz`
//! values within the configured bounds.

use vstd::prelude::*;

verus! {

/// Smallest height a generated bar can have.
pub const BAR_MIN: i32 = 10;

/// All generated bars are strictly below this height.
pub const BAR_MAX: i32 = 700;

/// Relies on rand::random_range: the sample lies in the given (non-empty)
/// half-open range. Nothing more is promised of a random value.
#[verifier::external_body]
fn random_in(lo: i32, hi: i32) -> (r: i32)
    requires
        lo < hi,
    ensures
        lo <= r < hi,
{
    rand::random_range(lo..hi)
}

/// Produces `sz` bar heights, each drawn from `BAR_MIN..BAR_MAX`. The result
/// may be in any order, already sorted, or full of duplicates; the engine
/// accepts all of them.
pub fn generate_bars(sz: usize) -> (r: Vec<i32>)
    ensures
        r@.len() == sz,
        forall|k: int| 0 <= k < r@.len() ==> BAR_MIN <= #[trigger] r@[k] < BAR_MAX,
{
    let mut v: Vec<i32> = Vec::new();
    let mut t: usize = 0;
    while t < sz
        invariant
            t <= sz,
            v@.len() == t,
            forall|k: int| 0 <= k < v@.len() ==> BAR_MIN <= #[trigger] v@[k] < BAR_MAX,
        decreases sz - t,
    {
        v.push(random_in(BAR_MIN, BAR_MAX));
        t += 1;
    }
    v
}

} // verus!
