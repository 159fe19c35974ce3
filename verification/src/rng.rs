use vstd::prelude::*;

use rand::RngExt;

verus! {

/// Relies on rand's `RngExt::random_range` on the thread-local generator:
/// it returns a value of the given range, and panics only when the range is
/// empty, which the precondition rules out (`rand::rng` itself can abort
/// only when the operating system's entropy source fails at first seeding).
/// Nothing is promised about which value comes back.
#[verifier::external_body]
pub(crate) fn random_below(n: usize) -> (r: usize)
    requires
        n > 0,
    ensures
        r < n,
{
    rand::rng().random_range(0..n)
}

} // verus!
