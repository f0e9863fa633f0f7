use rand::Rng;
use vstd::prelude::*;

verus! {

/// Relies on rand's `thread_rng` and `Rng::gen_range`: a value drawn from
/// `0..n`, which is not empty since `n > 0` (`gen_range` panics only on an
/// empty range).
#[verifier::external_body]
pub(crate) fn random_below(n: usize) -> (r: usize)
    requires
        n > 0,
    ensures
        r < n,
{
    rand::thread_rng().gen_range(0..n)
}

} // verus!
