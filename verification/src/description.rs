//! The interval of times a batch stands for.

use vstd::prelude::*;

verus! {

/// Provenance of a batch: the half-open interval `[lower, upper)` of the times
/// of the updates it was built from, and the frontier `since` it was compacted to.
#[derive(Clone, Debug)]
pub struct Description {
    pub lower: Vec<u64>,
    pub upper: Vec<u64>,
    pub since: Vec<u64>,
}

/// Copies a frontier.
pub fn copy_frontier(f: &[u64]) -> (r: Vec<u64>)
    ensures
        r@ == f@,
{
    let mut r: Vec<u64> = Vec::new();
    let mut i: usize = 0;
    while i < f.len()
        invariant
            i <= f@.len(),
            r@ == f@.take(i as int),
        decreases f@.len() - i,
    {
        r.push(f[i]);
        assert(f@.take(i + 1) =~= f@.take(i as int).push(f@[i as int]));
        i += 1;
    }
    assert(f@.take(i as int) =~= f@);
    r
}

impl Description {
    pub fn new(lower: &[u64], upper: &[u64], since: &[u64]) -> (d: Description)
        ensures
            d.lower@ == lower@,
            d.upper@ == upper@,
            d.since@ == since@,
    {
        Description { lower: copy_frontier(lower), upper: copy_frontier(upper), since: copy_frontier(since) }
    }
}

} // verus!
