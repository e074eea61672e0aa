//! Random draws used by the creatures.

use rand::Rng;
use vstd::prelude::*;

verus! {

/// Draws a number uniformly from `[low, high)` with the thread-local
/// generator of `rand` (`Rng::gen_range` on `rand::thread_rng()`).
/// Trusted: the documentation of `gen_range` promises a value in
/// `[low, high)` and a panic when `low >= high`, which `requires` rules out.
/// Which value comes out is left open: it rests on chance.
#[verifier::external_body]
pub(crate) fn gen_range(low: i64, high: i64) -> (r: i64)
    requires
        low < high,
    ensures
        low <= r < high,
{
    rand::thread_rng().gen_range(low, high)
}

} // verus!
