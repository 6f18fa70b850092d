//! Immutable batches of consolidated updates.

use std::rc::Rc;
use vstd::prelude::*;
use crate::update::{Update, Region, moved, point, same_slot, slot_lt, consolidated, same_content, total, weight, weights_fit, mass, in_region};
use crate::update::{lemma_total_push, lemma_mass_push, lemma_weight_at, lemma_total_concat, lemma_mass_concat, lemma_total_moved, lemma_total_outside};
use crate::lattice::{advanced_time, advance_time};
use crate::description::Description;
use crate::consolidation::{consolidate, lemma_mass_take, lemma_consolidated_concat, occurs, slots_within};
use crate::cursor::{LayerCursor, run_of_val};

verus! {

/// An immutable collection of update tuples, from a contiguous interval of logical times.
#[derive(Debug)]
pub struct Layer {
    /// The updates, ordered by key, then value, then time.
    pub layer: Vec<Update>,
    /// Description of the update times this layer represents.
    pub desc: Description,
}

/// Rounding a time up to `frontier`.
pub open spec fn rounding(frontier: Seq<u64>) -> spec_fn(u64) -> u64 {
    |t: u64| advanced_time(t, frontier)
}

/// `s` with every time rounded up to `frontier`.
pub open spec fn advanced(s: Seq<Update>, frontier: Seq<u64>) -> Seq<Update> {
    moved(s, rounding(frontier))
}

/// `r` gives every region the sum of what `a` and `b` give it.
pub open spec fn sums(r: Seq<Update>, a: Seq<Update>, b: Seq<Update>) -> bool {
    forall|p: Region| #[trigger] total(r, p) == total(a, p) + total(b, p)
}

impl View for Layer {
    type V = Seq<Update>;

    open spec fn view(&self) -> Seq<Update> {
        self.layer@
    }
}

impl Layer {
    /// The updates are consolidated: ordered, without repeated positions or zero multiplicities.
    pub open spec fn wf(&self) -> bool {
        consolidated(self@)
    }

    /// A layer without updates.
    pub fn empty() -> (r: Layer)
        ensures
            r.wf(),
            r@.len() == 0,
            r.desc.lower@.len() == 0 && r.desc.upper@.len() == 0 && r.desc.since@.len() == 0,
    {
        Layer { layer: Vec::new(), desc: Description { lower: Vec::new(), upper: Vec::new(), since: Vec::new() } }
    }

    /// The number of updates held.
    pub fn len(&self) -> (n: usize)
        ensures
            n == self@.len(),
    {
        self.layer.len()
    }

    /// Conducts a full merge, right away. Times not advanced.
    ///
    /// Every position carries the sum of the multiplicities it has in the two
    /// inputs; positions whose sum is zero are left out. The description of the
    /// result is empty.
    pub fn merge(&self, other: &Self) -> (r: Self)
        requires
            self.wf(),
            other.wf(),
            forall|k: u64, v: u64, t: u64|
                isize::MIN <= #[trigger] weight(self@, k, v, t) + weight(other@, k, v, t) <= isize::MAX,
        ensures
            r.wf(),
            sums(r@, self@, other@),
            r@.len() <= self@.len() + other@.len(),
            mass(r@) <= mass(self@) + mass(other@),
            other@.len() == 0 ==> r@ == self@,
            self@.len() == 0 ==> r@ == other@,
            r.desc.lower@.len() == 0 && r.desc.upper@.len() == 0 && r.desc.since@.len() == 0,
    {
        let a = &self.layer;
        let b = &other.layer;
        let mut out: Vec<Update> = Vec::new();
        let mut i: usize = 0;
        let mut j: usize = 0;
        proof {
            lemma_mass_take(a@, 0);
            lemma_mass_take(b@, 0);
            assert(a@.take(0) =~= Seq::<Update>::empty());
            assert(b@.take(0) =~= Seq::<Update>::empty());
        }
        while i < a.len() || j < b.len()
            invariant
                i <= a@.len(),
                j <= b@.len(),
                consolidated(a@),
                consolidated(b@),
                forall|k: u64, v: u64, t: u64|
                    isize::MIN <= #[trigger] weight(a@, k, v, t) + weight(b@, k, v, t) <= isize::MAX,
                consolidated(out@),
                out@.len() <= i + j,
                forall|x: int| 0 <= x < out@.len() && i < a@.len() ==> slot_lt(#[trigger] out@[x], a@[i as int]),
                forall|x: int| 0 <= x < out@.len() && j < b@.len() ==> slot_lt(#[trigger] out@[x], b@[j as int]),
                forall|p: Region| #[trigger] total(out@, p) == total(a@.take(i as int), p) + total(b@.take(j as int), p),
                mass(out@) <= mass(a@.take(i as int)) + mass(b@.take(j as int)),
                b@.len() == 0 ==> out@ == a@.take(i as int),
                a@.len() == 0 ==> out@ == b@.take(j as int),
            decreases a@.len() - i + b@.len() - j,
        {
            let take_a: bool = if i >= a.len() {
                false
            } else if j >= b.len() {
                true
            } else {
                !position_before(&b[j], &a[i])
            };
            let take_b: bool = if j >= b.len() {
                false
            } else if i >= a.len() {
                true
            } else {
                !position_before(&a[i], &b[j])
            };
            proof {
                if take_a {
                    assert(a@.take(i + 1) =~= a@.take(i as int).push(a@[i as int]));
                    lemma_mass_push(a@.take(i as int), a@[i as int]);
                    assert forall|p: Region| #[trigger] total(a@.take(i + 1), p) == total(a@.take(i as int), p) + (if in_region(a@[i as int], p) { a@[i as int].diff as int } else { 0 }) by {
                        lemma_total_push(a@.take(i as int), a@[i as int], p);
                    }
                }
                if take_b {
                    assert(b@.take(j + 1) =~= b@.take(j as int).push(b@[j as int]));
                    lemma_mass_push(b@.take(j as int), b@[j as int]);
                    assert forall|p: Region| #[trigger] total(b@.take(j + 1), p) == total(b@.take(j as int), p) + (if in_region(b@[j as int], p) { b@[j as int].diff as int } else { 0 }) by {
                        lemma_total_push(b@.take(j as int), b@[j as int], p);
                    }
                }
            }
            let ghost before = out@;
            if take_a && take_b {
                let x = a[i];
                let y = b[j];
                proof {
                    lemma_weight_at(a@, i as int);
                    lemma_weight_at(b@, j as int);
                    assert(isize::MIN <= weight(a@, x.key, x.val, x.time) + weight(b@, x.key, x.val, x.time) <= isize::MAX);
                }
                let sum: isize = x.diff + y.diff;
                if sum != 0 {
                    out.push(Update { key: x.key, val: x.val, time: x.time, diff: sum });
                }
                i += 1;
                j += 1;
            } else if take_a {
                out.push(a[i]);
                i += 1;
            } else {
                out.push(b[j]);
                j += 1;
            }
            proof {
                if out@.len() > before.len() {
                    let u = out@[before.len() as int];
                    assert(out@ =~= before.push(u));
                    lemma_mass_push(before, u);
                    assert forall|p: Region| #[trigger] total(out@, p) == total(before, p) + (if in_region(u, p) { u.diff as int } else { 0 }) by {
                        lemma_total_push(before, u, p);
                    }
                }
            }
        }
        proof {
            assert(a@.take(i as int) =~= a@);
            assert(b@.take(j as int) =~= b@);
        }
        Layer { layer: out, desc: Description { lower: Vec::new(), upper: Vec::new(), since: Vec::new() } }
    }

    /// Advances times in `layer` and consolidates differences for like times.
    ///
    /// The result holds, consolidated, the updates of `layer` with each time
    /// rounded up to `frontier`. It keeps the bounds of `layer` and records
    /// `frontier` as the frontier it was compacted to.
    pub fn advance_by(layer: &Rc<Self>, frontier: &[u64]) -> (r: Self)
        requires
            layer.wf(),
            layer@.len() > 0 ==> frontier@.len() > 0,
            weights_fit(advanced(layer@, frontier@)),
        ensures
            r.wf(),
            same_content(r@, advanced(layer@, frontier@)),
            r@.len() <= layer@.len(),
            mass(r@) <= mass(layer@),
            r.desc.lower@ == layer.desc.lower@,
            r.desc.upper@ == layer.desc.upper@,
            r.desc.since@ == frontier@,
    {
        let mut builder: Vec<Update> = Vec::new();
        let ghost s = layer@;
        let ghost f = frontier@;
        proof {
            lemma_mass_take(s, 0);
            assert(s.take(0) =~= Seq::<Update>::empty());
            assert(advanced(s.take(0), f) =~= Seq::<Update>::empty());
            assert(s.take(s.len() as int) =~= s);
        }
        if layer.len() > 0 {
            let mut cursor = LayerCursor::new(layer);

            while cursor.key_valid()
                invariant
                    cursor.wf(),
                    cursor.entries() == s,
                    f == frontier@,
                    f.len() > 0,
                    weights_fit(advanced(s, f)),
                    cursor.val_pos() == cursor.key_pos(),
                    emitted(builder@, s, cursor.val_pos(), f),
                    !cursor.spec_key_valid() ==> cursor.val_pos() == s.len(),
                decreases s.len() - cursor.key_pos(),
            {
                let ghost key_at = cursor.key_pos();
                while cursor.val_valid()
                    invariant
                        cursor.wf(),
                        cursor.entries() == s,
                        f == frontier@,
                        f.len() > 0,
                        weights_fit(advanced(s, f)),
                        cursor.key_pos() == key_at,
                        cursor.spec_key_valid(),
                        key_at == cursor.val_pos() ==> cursor.spec_val_valid(),
                        emitted(builder@, s, cursor.val_pos(), f),
                    decreases s.len() - cursor.val_pos(),
                {
                    let ghost at = cursor.val_pos();
                    let times = cursor.map_times();
                    let key = cursor.key();
                    let val = cursor.val();
                    let count = times.len();
                    assert(key == s[at].key) by {
                        assert(cursor.spec_val_valid());
                    }
                    let mut group: Vec<Update> = Vec::new();
                    let mut x: usize = 0;
                    proof {
                        assert(advanced(s.subrange(at, at), f) =~= Seq::<Update>::empty());
                    }
                    while x < count
                        invariant
                            x <= count,
                            count == times@.len(),
                            0 <= at,
                            at + count <= s.len(),
                            f == frontier@,
                            f.len() > 0,
                            key == s[at].key,
                            val == s[at].val,
                            forall|i: int| 0 <= i < times@.len() ==> (#[trigger] times@[i]).0 == s[at + i].time && times@[i].1 == s[at + i].diff,
                            run_of_val(s, at, at + count, key, val),
                            group@ == advanced(s.subrange(at, at + x), f),
                        decreases count - x,
                    {
                        let entry = times[x];
                        let time = advance_time(entry.0, frontier).unwrap();
                        let moved_entry = Update { key: key, val: val, time: time, diff: entry.1 };
                        proof {
                            assert(s.subrange(at, at + x + 1) =~= s.subrange(at, at + x).push(s[at + x]));
                            assert(s[at + x].key == key && s[at + x].val == val);
                            assert(advanced(s.subrange(at, at + x + 1), f) =~= group@.push(moved_entry));
                        }
                        group.push(moved_entry);
                        x += 1;
                    }
                    let ghost raw = group@;
                    proof {
                        lemma_total_moved(s.subrange(at, at + count), rounding(f), point(0, 0, 0));
                        lemma_group_fits(s, at, count as int, f);
                    }
                    consolidate(&mut group);
                    proof {
                        lemma_emit(builder@, s, at, count as int, f, group@);
                    }
                    builder.append(&mut group);
                    cursor.step_val();
                    assert(cursor.val_pos() == at + count);
                }
                cursor.step_key();
            }
        }
        Layer {
            layer: builder,
            desc: Description::new(layer.desc.lower.as_slice(), layer.desc.upper.as_slice(), frontier),
        }
    }
}

/// The key and value of `a` come strictly before those of `b`.
pub open spec fn group_lt(a: Update, b: Update) -> bool {
    a.key < b.key || (a.key == b.key && a.val < b.val)
}

/// `b` is what advancing the first `n` updates of `s` has produced: it
/// holds their content with times rounded up to `f`, consolidated, and its
/// keys and values come before those of the updates still to be advanced.
pub open spec fn emitted(b: Seq<Update>, s: Seq<Update>, n: int, f: Seq<u64>) -> bool {
    &&& 0 <= n <= s.len()
    &&& consolidated(s)
    &&& consolidated(b)
    &&& same_content(b, advanced(s.take(n), f))
    &&& mass(b) <= mass(s.take(n))
    &&& b.len() <= n
    &&& forall|x: int, y: int| 0 <= x < b.len() && n <= y < s.len() ==> group_lt(#[trigger] b[x], #[trigger] s[y])
    &&& boundary(s, n)
}

/// A new key or value starts at `n`: the keys and values before `n` come before those from `n` on.
pub open spec fn boundary(s: Seq<Update>, n: int) -> bool {
    forall|x: int, y: int| 0 <= x < n <= y < s.len() ==> group_lt(#[trigger] s[x], #[trigger] s[y])
}

/// The `m` updates from `n` on are all those of their key and value, so
/// their weights after advancing are weights of the whole collection.
pub proof fn lemma_group_fits(s: Seq<Update>, n: int, m: int, f: Seq<u64>)
    requires
        consolidated(s),
        0 <= n,
        m > 0,
        n + m <= s.len(),
        boundary(s, n),
        run_of_val(s, n, n + m, s[n].key, s[n].val),
        n + m < s.len() ==> s[n + m].key != s[n].key || s[n + m].val != s[n].val,
        weights_fit(advanced(s, f)),
    ensures
        weights_fit(advanced(s.subrange(n, n + m), f)),
        boundary(s, n + m),
{
    assert forall|x: int, y: int| 0 <= x < n + m <= y < s.len() implies group_lt(#[trigger] s[x], #[trigger] s[y]) by {
        if x < n {
            assert(group_lt(s[x], s[y]));
        } else {
            assert(s[x].key == s[n].key && s[x].val == s[n].val);
            assert(slot_lt(s[n], s[n + m]));
            if y > n + m {
                assert(slot_lt(s[n + m], s[y]));
            }
        }
    }
    let before = advanced(s.take(n), f);
    let part = advanced(s.subrange(n, n + m), f);
    let after = advanced(s.skip(n + m), f);
    assert(advanced(s, f) =~= before + part + after);
    assert forall|k: u64, v: u64, t: u64| isize::MIN <= #[trigger] weight(part, k, v, t) <= isize::MAX by {
        let p = point(k, v, t);
        if k == s[n].key && v == s[n].val {
            lemma_total_concat(before + part, after, p);
            lemma_total_concat(before, part, p);
            assert forall|x: int| 0 <= x < before.len() implies !in_region(#[trigger] before[x], p) by {
                assert(group_lt(s[x], s[n]));
            }
            assert forall|y: int| 0 <= y < after.len() implies !in_region(#[trigger] after[y], p) by {
                assert(after[y].key == s[n + m + y].key && after[y].val == s[n + m + y].val);
                assert(group_lt(s[n], s[n + m + y]));
            }
            lemma_total_outside(before, p);
            lemma_total_outside(after, p);
            assert(weight(part, k, v, t) == weight(advanced(s, f), k, v, t));
        } else {
            assert forall|x: int| 0 <= x < part.len() implies !in_region(#[trigger] part[x], p) by {
                assert(part[x].key == s[n + x].key && part[x].val == s[n + x].val);
                assert(s[n + x].key == s[n].key && s[n + x].val == s[n].val);
            }
            lemma_total_outside(part, p);
        }
    }
}

/// The first `n` updates split at `a` into the first `a` and the rest, and so do their content and mass.
pub proof fn lemma_split(s: Seq<Update>, a: int, n: int, f: Seq<u64>)
    requires
        0 <= a <= n <= s.len(),
    ensures
        advanced(s.take(n), f) == advanced(s.take(a), f) + advanced(s.subrange(a, n), f),
        mass(s.take(n)) == mass(s.take(a)) + mass(s.subrange(a, n)),
{
    assert(s.take(n) =~= s.take(a) + s.subrange(a, n));
    assert(advanced(s.take(n), f) =~= advanced(s.take(a), f) + advanced(s.subrange(a, n), f));
    lemma_mass_concat(s.take(a), s.subrange(a, n));
}

/// Emitting the consolidated group `g` of the `m` updates that follow the first `n` extends what was emitted.
pub proof fn lemma_emit(b: Seq<Update>, s: Seq<Update>, n: int, m: int, f: Seq<u64>, g: Seq<Update>)
    requires
        emitted(b, s, n, f),
        m > 0,
        n + m <= s.len(),
        run_of_val(s, n, n + m, s[n].key, s[n].val),
        n + m < s.len() ==> s[n + m].key != s[n].key || s[n + m].val != s[n].val,
        consolidated(g),
        same_content(g, advanced(s.subrange(n, n + m), f)),
        slots_within(g, advanced(s.subrange(n, n + m), f)),
        mass(g) <= mass(s.subrange(n, n + m)),
        g.len() <= m,
        boundary(s, n + m),
    ensures
        emitted(b + g, s, n + m, f),
{
    let part = advanced(s.subrange(n, n + m), f);
    lemma_split(s, n, n + m, f);
    assert forall|y: int| 0 <= y < g.len() implies (#[trigger] g[y]).key == s[n].key && g[y].val == s[n].val by {
        assert(occurs(g[y], part));
        let j = choose|j: int| 0 <= j < part.len() && same_slot(g[y], #[trigger] part[j]);
        assert(part[j].key == s[n + j].key && part[j].val == s[n + j].val);
        assert(s[n + j].key == s[n].key);
    }
    assert forall|x: int, y: int| 0 <= x < b.len() && 0 <= y < g.len() implies slot_lt(#[trigger] b[x], #[trigger] g[y]) by {
        assert(group_lt(b[x], s[n]));
    }
    lemma_consolidated_concat(b, g);
    lemma_mass_concat(b, g);
    assert forall|p: Region| total(b + g, p) == total(advanced(s.take(n + m), f), p) by {
        lemma_total_concat(b, g, p);
        lemma_total_concat(advanced(s.take(n), f), part, p);
    }
    let out = b + g;
    assert forall|x: int, y: int| 0 <= x < out.len() && n + m <= y < s.len() implies group_lt(#[trigger] out[x], #[trigger] s[y]) by {
        if x < b.len() {
            assert(group_lt(b[x], s[y]));
        } else {
            assert(out[x] == g[x - b.len()]);
            assert(slot_lt(s[n], s[n + m]));
            if y > n + m {
                assert(slot_lt(s[n + m], s[y]));
            }
        }
    }
}

/// Whether the position of `a` comes strictly before that of `b`.
pub fn position_before(a: &Update, b: &Update) -> (r: bool)
    ensures
        r == slot_lt(*a, *b),
{
    a.key < b.key || (a.key == b.key && (a.val < b.val || (a.val == b.val && a.time < b.time)))
}

} // verus!
