//! Random points for the clipping demonstration.
use vstd::prelude::*;
use rand::Rng;
use crate::canvas::Point2D;

verus! {

/// A value that `rand::Rng::gen_range` draws from `lo..hi` with the
/// thread-local generator of `rand::thread_rng`. The contract claims only
/// what holds of every draw: the value lies in the range. `gen_range`
/// panics on an empty range, so the range must not be empty.
#[verifier::external_body]
fn random_in_range(lo: i32, hi: i32) -> (r: i32)
    requires
        lo < hi,
    ensures
        lo <= r < hi,
{
    rand::thread_rng().gen_range(lo..hi)
}

/// Generates a random point
pub fn get_rng_point(width: i32, height: i32) -> (p: Point2D)
    requires
        10 < width,
        10 < height,
    ensures
        10 <= p.0 < width,
        10 <= p.1 < height,
{
    (random_in_range(10, width), random_in_range(10, height))
}

} // verus!
