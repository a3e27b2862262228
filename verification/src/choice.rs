use vstd::prelude::*;

verus! {

/// Relies on `rand::random_range`: a uniformly chosen index below `n`,
/// drawn from the process-wide generator. Used to pick among equally
/// good candidates without a bias toward catalog order.
#[verifier::external_body]
pub(crate) fn choose_index(n: usize) -> (r: usize)
    requires
        1 <= n,
    ensures
        r < n,
{
    rand::random_range(0..n)
}

} // verus!
