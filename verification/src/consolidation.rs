//! Consolidation: summing the multiplicities of equal positions.

use vstd::prelude::*;
use crate::update::{Update, same_slot, slot_lt, slot_sorted, consolidated, same_content, total, mass, Region, in_region, point, weight, weights_fit};
use crate::update::{lemma_total_push, lemma_mass_push, lemma_permutation, lemma_weight_at, lemma_occupied, lemma_total_concat, lemma_total_outside};

verus! {

/// `slice::sort_by_key` on the position `(key, val, time)`: the updates are
/// rearranged, none added or lost, so that positions never decrease.
#[verifier::external_body]
fn sort_by_slot(v: &mut Vec<Update>)
    ensures
        final(v)@.to_multiset() == old(v)@.to_multiset(),
        slot_sorted(final(v)@),
{
    v.sort_by_key(|u| (u.key, u.val, u.time));
}

/// Some update of `b` has the position of `u`.
pub open spec fn occurs(u: Update, b: Seq<Update>) -> bool {
    exists|j: int| 0 <= j < b.len() && same_slot(u, #[trigger] b[j])
}

/// Every position of `a` is a position of `b`.
pub open spec fn slots_within(a: Seq<Update>, b: Seq<Update>) -> bool {
    forall|i: int| 0 <= i < a.len() ==> occurs(#[trigger] a[i], b)
}

pub proof fn lemma_slots_within(a: Seq<Update>, b: Seq<Update>)
    requires
        consolidated(a),
        same_content(a, b),
    ensures
        slots_within(a, b),
{
    assert forall|i: int| 0 <= i < a.len() implies occurs(#[trigger] a[i], b) by {
        lemma_weight_at(a, i);
        let p = point(a[i].key, a[i].val, a[i].time);
        assert(total(a, p) == total(b, p));
        let j = lemma_occupied(b, a[i].key, a[i].val, a[i].time);
        assert(same_slot(a[i], b[j]));
    }
}

/// The updates of `s` at `(k, v, t)` all lie before index `i`, and `done`
/// holds none: what precedes `i` beyond `done` is the whole weight of the position.
proof fn lemma_run_weight(s: Seq<Update>, i: int, done: Seq<Update>, k: u64, v: u64, t: u64, acc: int)
    requires
        0 < i <= s.len(),
        slot_sorted(s),
        s[i - 1].key == k && s[i - 1].val == v && s[i - 1].time == t,
        i < s.len() ==> !(s[i].key == k && s[i].val == v && s[i].time == t),
        forall|j: int| 0 <= j < done.len() ==> !in_region(#[trigger] done[j], point(k, v, t)),
        total(done, point(k, v, t)) + acc == total(s.take(i), point(k, v, t)),
    ensures
        acc == weight(s, k, v, t),
{
    let p = point(k, v, t);
    let rest = s.skip(i);
    assert(s =~= s.take(i) + rest);
    lemma_total_concat(s.take(i), rest, p);
    lemma_total_outside(done, p);
    assert forall|j: int| 0 <= j < rest.len() implies !in_region(#[trigger] rest[j], p) by {
        assert(rest[j] == s[i + j]);
        assert(!slot_lt(s[i], s[i - 1]));
        if j > 0 {
            assert(!slot_lt(s[i + j], s[i]));
            assert(!slot_lt(s[i + j], s[i - 1]));
        }
    }
    lemma_total_outside(rest, p);
}

/// Sorts the updates by position, sums the multiplicities of equal positions
/// and drops the positions whose sum is zero.
pub fn consolidate(v: &mut Vec<Update>)
    requires
        weights_fit(old(v)@),
    ensures
        consolidated(final(v)@),
        same_content(final(v)@, old(v)@),
        mass(final(v)@) <= mass(old(v)@),
        final(v)@.len() <= old(v)@.len(),
        slots_within(final(v)@, old(v)@),
{
    sort_by_slot(v);
    proof {
        lemma_permutation(v@, old(v)@);
        vstd::seq_lib::to_multiset_len(v@);
        vstd::seq_lib::to_multiset_len(old(v)@);
        assert forall|k: u64, w: u64, t: u64| isize::MIN <= #[trigger] weight(v@, k, w, t) <= isize::MAX by {
            assert(weight(v@, k, w, t) == weight(old(v)@, k, w, t));
        }
    }
    let n = v.len();
    let mut out: Vec<Update> = Vec::new();
    if n > 0 {
        let first = v[0];
        let mut key: u64 = first.key;
        let mut val: u64 = first.val;
        let mut time: u64 = first.time;
        let mut sum: i128 = first.diff as i128;
        let mut run: usize = 1;
        let mut i: usize = 1;
        proof {
            assert(v@.take(1) =~= Seq::<Update>::empty().push(v@[0]));
            lemma_mass_push(Seq::<Update>::empty(), v@[0]);
            assert forall|p: Region| total(out@, p) + (if p(key, val, time) { sum as int } else { 0 })
                == #[trigger] total(v@.take(1), p) by {
                lemma_total_push(Seq::<Update>::empty(), v@[0], p);
            }
        }
        while i < n
            invariant
                1 <= i <= n,
                n == v@.len(),
                slot_sorted(v@),
                weights_fit(v@),
                1 <= run <= i,
                -(run as int) * 0x8000_0000_0000_0000 <= sum <= (run as int) * 0x8000_0000_0000_0000,
                v@[i - 1].key == key && v@[i - 1].val == val && v@[i - 1].time == time,
                consolidated(out@),
                out@.len() <= i - 1,
                forall|j: int| 0 <= j < out@.len() ==> slot_lt(#[trigger] out@[j], v@[i - 1]),
                forall|p: Region| total(out@, p) + (if p(key, val, time) { sum as int } else { 0 })
                    == #[trigger] total(v@.take(i as int), p),
                mass(out@) + (if sum < 0 { -(sum as int) } else { sum as int }) <= mass(v@.take(i as int)),
                mass(out@) >= 0,
            decreases n - i,
        {
            let u = v[i];
            proof {
                assert(v@.take(i + 1) =~= v@.take(i as int).push(u));
                lemma_mass_push(v@.take(i as int), u);
                assert forall|p: Region| #[trigger] total(v@.take(i + 1), p) == total(v@.take(i as int), p) + (if in_region(u, p) { u.diff as int } else { 0 }) by {
                    lemma_total_push(v@.take(i as int), u, p);
                }
                assert(!slot_lt(v@[i as int], v@[i - 1]));
            }
            if u.key == key && u.val == val && u.time == time {
                sum = sum + u.diff as i128;
                run = run + 1;
            } else {
                proof {
                    assert(total(out@, point(key, val, time)) + sum == total(v@.take(i as int), point(key, val, time)));
                    lemma_run_weight(v@, i as int, out@, key, val, time, sum as int);
                    assert(isize::MIN <= weight(v@, key, val, time) <= isize::MAX);
                }
                if sum != 0 {
                    let cur = Update { key: key, val: val, time: time, diff: sum as isize };
                    proof {
                        lemma_mass_push(out@, cur);
                        assert forall|p: Region| #[trigger] total(out@.push(cur), p) == total(out@, p) + (if in_region(cur, p) { cur.diff as int } else { 0 }) by {
                            lemma_total_push(out@, cur, p);
                        }
                    }
                    out.push(cur);
                }
                key = u.key;
                val = u.val;
                time = u.time;
                sum = u.diff as i128;
                run = 1;
            }
            i += 1;
        }
        proof {
            assert(v@.take(n as int) =~= v@);
            assert(total(out@, point(key, val, time)) + sum == total(v@.take(n as int), point(key, val, time)));
            lemma_run_weight(v@, n as int, out@, key, val, time, sum as int);
            assert(isize::MIN <= weight(v@, key, val, time) <= isize::MAX);
        }
        if sum != 0 {
            let cur = Update { key: key, val: val, time: time, diff: sum as isize };
            proof {
                lemma_mass_push(out@, cur);
                assert forall|p: Region| #[trigger] total(out@.push(cur), p) == total(out@, p) + (if in_region(cur, p) { cur.diff as int } else { 0 }) by {
                    lemma_total_push(out@, cur, p);
                }
            }
            out.push(cur);
        }
    } else {
        assert(v@ =~= out@);
    }
    proof {
        assert(same_content(out@, v@));
        lemma_slots_within(out@, old(v)@);
    }
    *v = out;
}

/// A consolidated collection followed by one whose positions all come later is consolidated.
pub proof fn lemma_consolidated_concat(a: Seq<Update>, b: Seq<Update>)
    requires
        consolidated(a),
        consolidated(b),
        forall|i: int, j: int| 0 <= i < a.len() && 0 <= j < b.len() ==> slot_lt(#[trigger] a[i], #[trigger] b[j]),
    ensures
        consolidated(a + b),
{
    let s = a + b;
    assert forall|i: int, j: int| 0 <= i < j < s.len() implies slot_lt(#[trigger] s[i], #[trigger] s[j]) by {
        if j < a.len() {
            assert(slot_lt(a[i], a[j]));
        } else if i >= a.len() {
            assert(slot_lt(b[i - a.len()], b[j - a.len()]));
        } else {
            assert(slot_lt(a[i], b[j - a.len()]));
        }
    }
}

pub proof fn lemma_mass_take(s: Seq<Update>, n: int)
    requires
        0 <= n <= s.len(),
    ensures
        0 <= mass(s.take(n)) <= mass(s),
    decreases s.len() - n,
{
    lemma_mass_push(s.take(n), arbitrary());
    if n < s.len() {
        lemma_mass_take(s, n + 1);
        assert(s.take(n + 1) =~= s.take(n).push(s[n]));
        lemma_mass_push(s.take(n), s[n]);
    } else {
        assert(s.take(n) =~= s);
    }
}

} // verus!
