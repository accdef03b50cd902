use vstd::prelude::*;

verus! {

/// Relies on rand's `thread_rng` and `Rng::gen_range` over `lo..hi`: the draw
/// is uniform over that range; all this contract states is that the result
/// lies in it, which holds of every outcome. The range must be non-empty,
/// else `gen_range` panics.
#[verifier::external_body]
pub(crate) fn rand_range(lo: u64, hi: u64) -> (r: u64)
    requires
        lo < hi,
    ensures
        lo <= r < hi,
{
    rand::Rng::gen_range(&mut rand::thread_rng(), lo..hi)
}

/// Relies on rand's `thread_rng` and `Rng::gen::<bool>`: a coin flip. Nothing
/// is promised of the outcome.
#[verifier::external_body]
pub(crate) fn rand_flip() -> (r: bool)
{
    rand::Rng::gen::<bool>(&mut rand::thread_rng())
}

} // verus!
