use vstd::prelude::*;

use rand::RngExt;

verus! {

/// Relies on rand's `RngExt::random_range` over `0..n`: the result is a
/// uniformly drawn index strictly below `n`.  The call panics on an empty
/// range, so `n` must be positive.
#[verifier::external_body]
pub(crate) fn rand_below(n: usize) -> (r: usize)
    requires
        1 <= n,
    ensures
        r < n,
{
    rand::rng().random_range(0..n)
}

/// A uniformly random boolean, drawn through `rand_below`.
pub(crate) fn rand_bool() -> (r: bool) {
    rand_below(2) == 1
}

} // verus!
