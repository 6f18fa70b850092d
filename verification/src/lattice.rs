//! Logical times and frontiers.
//!
//! Times are `u64` under the usual order, with `max` as join and `min` as meet.

use vstd::prelude::*;

verus! {

/// The least element of a non-empty frontier (`u64::MAX` for the empty one).
pub open spec fn floor(frontier: Seq<u64>) -> u64
    decreases frontier.len(),
{
    if frontier.len() == 0 {
        u64::MAX
    } else {
        let rest = floor(frontier.drop_last());
        if frontier.last() < rest { frontier.last() } else { rest }
    }
}

/// The least time at or after `t` that is at or after some element of `frontier`.
pub open spec fn advanced_time(t: u64, frontier: Seq<u64>) -> u64 {
    if t >= floor(frontier) { t } else { floor(frontier) }
}

/// `y` is at or after `t` and at or after some element of `frontier`.
pub open spec fn at_or_after(y: u64, t: u64, frontier: Seq<u64>) -> bool {
    y >= t && exists|i: int| 0 <= i < frontier.len() && #[trigger] frontier[i] <= y
}

/// `g` dominates `f`: every element of `g` is at or after some element of `f`.
pub open spec fn dominates(g: Seq<u64>, f: Seq<u64>) -> bool {
    forall|i: int| 0 <= i < g.len() ==> exists|j: int| 0 <= j < f.len() && f[j] <= #[trigger] g[i]
}

pub proof fn lemma_floor(frontier: Seq<u64>)
    ensures
        forall|i: int| 0 <= i < frontier.len() ==> floor(frontier) <= #[trigger] frontier[i],
        frontier.len() > 0 ==> exists|i: int| 0 <= i < frontier.len() && frontier[i] == floor(frontier),
    decreases frontier.len(),
{
    if frontier.len() > 0 {
        let front = frontier.drop_last();
        lemma_floor(front);
        if front.len() > 0 {
            let i = choose|i: int| 0 <= i < front.len() && front[i] == floor(front);
            assert(frontier[i] == front[i]);
        }
        assert(frontier[frontier.len() - 1] == frontier.last());
        assert forall|i: int| 0 <= i < frontier.len() implies floor(frontier) <= #[trigger] frontier[i] by {
            if i < front.len() {
                assert(front[i] == frontier[i]);
            }
        }
    }
}

/// Rounds `t` up to the frontier: the least time at or after `t` that some
/// element of the frontier precedes. An empty frontier admits no such time.
pub fn advance_time(t: u64, frontier: &[u64]) -> (r: Option<u64>)
    ensures
        r.is_some() <==> frontier@.len() > 0,
        r.is_some() ==> r.unwrap() == advanced_time(t, frontier@),
        r.is_some() ==> at_or_after(r.unwrap(), t, frontier@),
        r.is_some() ==> forall|y: u64| #[trigger] at_or_after(y, t, frontier@) ==> r.unwrap() <= y,
{
    if frontier.len() == 0 {
        return None;
    }
    let mut low: u64 = u64::MAX;
    let mut i: usize = 0;
    assert(frontier@.take(0) =~= Seq::<u64>::empty());
    while i < frontier.len()
        invariant
            i <= frontier@.len(),
            low == floor(frontier@.take(i as int)),
        decreases frontier@.len() - i,
    {
        assert(frontier@.take(i + 1).drop_last() =~= frontier@.take(i as int));
        if frontier[i] < low {
            low = frontier[i];
        }
        i += 1;
    }
    assert(frontier@.take(i as int) =~= frontier@);
    proof {
        lemma_floor(frontier@);
    }
    if t >= low { Some(t) } else { Some(low) }
}

} // verus!
