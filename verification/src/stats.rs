use vstd::prelude::*;

verus! {

/// The delta degrees of freedom that a standard deviation uses when none is
/// given: 1, as pandas does (numpy's default is 0).
pub open spec fn ddof_or_default(ddof: Option<u32>) -> u32 {
    match ddof {
        Some(d) => d,
        None => 1,
    }
}

/// The number that the sum of squared deviations of `n` values is divided
/// by in a variance with `ddof` delta degrees of freedom: `n - ddof`, the
/// count taken as a `u32`.
pub fn variance_divisor(n: usize, ddof: Option<u32>) -> (d: u32)
    requires
        ddof_or_default(ddof) <= n as u32,
    ensures
        d == (n as u32) - ddof_or_default(ddof),
        ddof matches Some(k) ==> d == (n as u32) - k,
        ddof is None ==> d == (n as u32) - 1,
{
    let ddof = match ddof {
        Some(d) => d,
        None => 1,
    };
    n as u32 - ddof
}

/// A given ddof is used as it is, and a missing one counts as 1: the
/// divisor is that of the sample variance unless a ddof says otherwise.
pub proof fn lemma_ddof_default(k: u32)
    ensures
        ddof_or_default(Some(k)) == k,
        ddof_or_default(None) == 1,
{
}

} // verus!
