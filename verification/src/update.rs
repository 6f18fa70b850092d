//! Update tuples and the mathematical model of a collection of them.

use vstd::prelude::*;
use vstd::seq_lib::*;

verus! {

/// One update: `diff` copies of `(key, val)` appear (or, if negative, disappear) at `time`.
///
/// A key is its own 64-bit hash, so the numeric order of keys is the hash order.
#[derive(Clone, Copy, Debug, PartialEq, Eq, Structural)]
pub struct Update {
    pub key: u64,
    pub val: u64,
    pub time: u64,
    pub diff: isize,
}

/// A set of positions `(key, val, time)`.
pub type Region = spec_fn(u64, u64, u64) -> bool;

/// The region holding the single position `(k, v, t)`.
pub open spec fn point(k: u64, v: u64, t: u64) -> Region {
    |a: u64, b: u64, c: u64| a == k && b == v && c == t
}

pub open spec fn same_slot(a: Update, b: Update) -> bool {
    a.key == b.key && a.val == b.val && a.time == b.time
}

/// Strict order on positions: by key, then value, then time.
pub open spec fn slot_lt(a: Update, b: Update) -> bool {
    a.key < b.key || (a.key == b.key && (a.val < b.val || (a.val == b.val && a.time < b.time)))
}

pub open spec fn in_region(u: Update, p: Region) -> bool {
    p(u.key, u.val, u.time)
}

pub open spec fn add_in(p: Region) -> spec_fn(int, Update) -> int {
    |acc: int, u: Update| if in_region(u, p) { acc + u.diff } else { acc }
}

/// The summed multiplicity of the updates of `s` whose position lies in `p`.
pub open spec fn total(s: Seq<Update>, p: Region) -> int {
    s.fold_left(0int, add_in(p))
}

/// The summed multiplicity that `s` gives to the position `(k, v, t)`.
pub open spec fn weight(s: Seq<Update>, k: u64, v: u64, t: u64) -> int {
    total(s, point(k, v, t))
}

pub open spec fn add_abs() -> spec_fn(int, Update) -> int {
    |acc: int, u: Update| if u.diff < 0 { acc - u.diff } else { acc + u.diff }
}

/// The sum of the absolute multiplicities of `s`.
pub open spec fn mass(s: Seq<Update>) -> int {
    s.fold_left(0int, add_abs())
}

/// Every weight of `s` fits a machine integer.
pub open spec fn weights_fit(s: Seq<Update>) -> bool {
    forall|k: u64, v: u64, t: u64| isize::MIN <= #[trigger] weight(s, k, v, t) <= isize::MAX
}

/// Two collections hold the same content: every region has the same total in both.
pub open spec fn same_content(a: Seq<Update>, b: Seq<Update>) -> bool {
    forall|p: Region| #![trigger total(a, p)] #![trigger total(b, p)] total(a, p) == total(b, p)
}

/// Positions strictly increase and no multiplicity is zero.
pub open spec fn consolidated(s: Seq<Update>) -> bool {
    &&& forall|i: int, j: int| 0 <= i < j < s.len() ==> slot_lt(#[trigger] s[i], #[trigger] s[j])
    &&& forall|i: int| 0 <= i < s.len() ==> (#[trigger] s[i]).diff != 0
}

/// Positions never decrease.
pub open spec fn slot_sorted(s: Seq<Update>) -> bool {
    forall|i: int, j: int| 0 <= i < j < s.len() ==> !slot_lt(#[trigger] s[j], #[trigger] s[i])
}

/// `s` with every time replaced by its image under `g`.
pub open spec fn moved(s: Seq<Update>, g: spec_fn(u64) -> u64) -> Seq<Update> {
    s.map_values(|u: Update| Update { key: u.key, val: u.val, time: g(u.time), diff: u.diff })
}

/// The positions that `g` carries into `p`.
pub open spec fn pulled(p: Region, g: spec_fn(u64) -> u64) -> Region {
    |k: u64, v: u64, t: u64| p(k, v, g(t))
}

/// The total that moved updates give a region is the total that the
/// updates before the move give the positions carried into it.
pub proof fn lemma_total_moved(s: Seq<Update>, g: spec_fn(u64) -> u64, p: Region)
    ensures
        total(moved(s, g), p) == total(s, pulled(p, g)),
        mass(moved(s, g)) == mass(s),
    decreases s.len(),
{
    if s.len() > 0 {
        lemma_total_moved(s.drop_last(), g, p);
        assert(moved(s, g).drop_last() =~= moved(s.drop_last(), g));
    }
}

/// Moving the times of collections of equal content gives collections of equal content.
pub proof fn lemma_moved_content(a: Seq<Update>, b: Seq<Update>, g: spec_fn(u64) -> u64)
    requires
        same_content(a, b),
    ensures
        same_content(moved(a, g), moved(b, g)),
{
    assert forall|p: Region| #[trigger] total(moved(a, g), p) == total(moved(b, g), p) by {
        lemma_total_moved(a, g, p);
        lemma_total_moved(b, g, p);
        assert(total(a, pulled(p, g)) == total(b, pulled(p, g)));
    }
}

/// Consolidated collections of equal content are equal.
pub proof fn lemma_canonical(a: Seq<Update>, b: Seq<Update>)
    requires
        consolidated(a),
        consolidated(b),
        same_content(a, b),
    ensures
        a == b,
    decreases a.len() + b.len(),
{
    if a.len() == 0 && b.len() == 0 {
        assert(a =~= b);
    } else if a.len() == 0 || b.len() == 0 {
        let (x, y) = if a.len() == 0 { (b, a) } else { (a, b) };
        lemma_weight_at(x, 0);
        assert(total(x, point(x[0].key, x[0].val, x[0].time)) == total(y, point(x[0].key, x[0].val, x[0].time)));
    } else {
        let la = a.last();
        let lb = b.last();
        lemma_weight_at(a, a.len() - 1);
        lemma_weight_at(b, b.len() - 1);
        assert(total(a, point(la.key, la.val, la.time)) == total(b, point(la.key, la.val, la.time)));
        assert(total(a, point(lb.key, lb.val, lb.time)) == total(b, point(lb.key, lb.val, lb.time)));
        let j = lemma_occupied(b, la.key, la.val, la.time);
        let i = lemma_occupied(a, lb.key, lb.val, lb.time);
        assert(j < b.len() - 1 ==> slot_lt(b[j], b[b.len() - 1]));
        assert(i < a.len() - 1 ==> slot_lt(a[i], a[a.len() - 1]));
        assert(la == lb);
        assert forall|p: Region| #[trigger] total(a.drop_last(), p) == total(b.drop_last(), p) by {
            assert(total(a, p) == total(b, p));
        }
        lemma_canonical(a.drop_last(), b.drop_last());
        assert(a =~= a.drop_last().push(la));
        assert(b =~= b.drop_last().push(lb));
    }
}

pub proof fn lemma_total_push(s: Seq<Update>, u: Update, p: Region)
    ensures
        total(s.push(u), p) == total(s, p) + (if in_region(u, p) { u.diff as int } else { 0 }),
{
    assert(s.push(u).drop_last() =~= s);
}

pub proof fn lemma_mass_push(s: Seq<Update>, u: Update)
    ensures
        mass(s.push(u)) == mass(s) + (if u.diff < 0 { -(u.diff as int) } else { u.diff as int }),
        mass(s) >= 0,
    decreases s.len(),
{
    assert(s.push(u).drop_last() =~= s);
    if s.len() > 0 {
        lemma_mass_push(s.drop_last(), s.last());
        assert(s.drop_last().push(s.last()) =~= s);
    }
}

pub proof fn lemma_total_concat(a: Seq<Update>, b: Seq<Update>, p: Region)
    ensures
        total(a + b, p) == total(a, p) + total(b, p),
    decreases b.len(),
{
    if b.len() == 0 {
        assert(a + b =~= a);
    } else {
        lemma_total_concat(a, b.drop_last(), p);
        assert((a + b).drop_last() =~= a + b.drop_last());
    }
}

pub proof fn lemma_mass_concat(a: Seq<Update>, b: Seq<Update>)
    ensures
        mass(a + b) == mass(a) + mass(b),
        mass(a) >= 0,
        mass(b) >= 0,
    decreases b.len(),
{
    lemma_mass_push(a, arbitrary());
    lemma_mass_push(b, arbitrary());
    if b.len() == 0 {
        assert(a + b =~= a);
    } else {
        lemma_mass_concat(a, b.drop_last());
        assert((a + b).drop_last() =~= a + b.drop_last());
    }
}

/// The total over a region that no update of `s` lies in is zero.
pub proof fn lemma_total_outside(s: Seq<Update>, p: Region)
    requires
        forall|i: int| 0 <= i < s.len() ==> !in_region(#[trigger] s[i], p),
    ensures
        total(s, p) == 0,
    decreases s.len(),
{
    if s.len() > 0 {
        lemma_total_outside(s.drop_last(), p);
    }
}

/// No total exceeds the mass in absolute value.
pub proof fn lemma_total_within_mass(s: Seq<Update>, p: Region)
    ensures
        -mass(s) <= total(s, p) <= mass(s),
    decreases s.len(),
{
    if s.len() > 0 {
        lemma_total_within_mass(s.drop_last(), p);
    }
}

/// A collection whose mass fits a machine integer has weights that fit.
pub proof fn lemma_mass_fits(s: Seq<Update>)
    requires
        mass(s) <= isize::MAX,
    ensures
        weights_fit(s),
{
    assert forall|k: u64, v: u64, t: u64| isize::MIN <= #[trigger] weight(s, k, v, t) <= isize::MAX by {
        lemma_total_within_mass(s, point(k, v, t));
    }
}

/// A rearrangement changes neither totals nor mass.
pub proof fn lemma_permutation(a: Seq<Update>, b: Seq<Update>)
    requires
        a.to_multiset() == b.to_multiset(),
    ensures
        same_content(a, b),
        mass(a) == mass(b),
{
    assert forall|p: Region| #[trigger] total(a, p) == total(b, p) by {
        lemma_fold_left_permutation(a, b, add_in(p), 0int);
    }
    lemma_fold_left_permutation(a, b, add_abs(), 0int);
}

/// In a consolidated collection the weight of an occupied position is the
/// multiplicity stored there.
pub proof fn lemma_weight_at(s: Seq<Update>, i: int)
    requires
        consolidated(s),
        0 <= i < s.len(),
    ensures
        weight(s, s[i].key, s[i].val, s[i].time) == s[i].diff,
    decreases s.len(),
{
    let p = point(s[i].key, s[i].val, s[i].time);
    let front = s.drop_last();
    if i == s.len() - 1 {
        assert forall|j: int| 0 <= j < front.len() implies !in_region(#[trigger] front[j], p) by {
            assert(slot_lt(s[j], s[i]));
        }
        lemma_total_outside(front, p);
    } else {
        assert(slot_lt(s[i], s[s.len() - 1]));
        lemma_weight_at(front, i);
    }
}

/// A position of non-zero weight is occupied.
pub proof fn lemma_occupied(s: Seq<Update>, k: u64, v: u64, t: u64) -> (i: int)
    requires
        weight(s, k, v, t) != 0,
    ensures
        0 <= i < s.len(),
        s[i].key == k && s[i].val == v && s[i].time == t,
    decreases s.len(),
{
    if s.len() == 0 {
        0
    } else if in_region(s.last(), point(k, v, t)) {
        s.len() - 1
    } else {
        lemma_occupied(s.drop_last(), k, v, t)
    }
}

} // verus!
