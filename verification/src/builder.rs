//! Builders: from pushed tuples to an immutable layer.

use std::rc::Rc;
use timely_sort::{LSBRadixSorter, RadixSorter, RadixSorterBase};
use vstd::prelude::*;
use crate::update::{Update, Region, slot_lt, same_slot, consolidated, same_content, total, mass, moved, point, weight, weights_fit, in_region};
use crate::update::{lemma_total_push, lemma_mass_push, lemma_total_concat, lemma_mass_concat, lemma_permutation, lemma_total_moved, lemma_moved_content, lemma_total_outside};
use crate::description::Description;
use crate::consolidation::{consolidate, lemma_mass_take, lemma_consolidated_concat, occurs};
use crate::layer::Layer;

verus! {

/// The number of tuples a builder buffers before it starts a new chunk.
pub const CHUNK: usize = 4096;

/// The chunks laid end to end.
pub open spec fn flat(chunks: Seq<Vec<Update>>) -> Seq<Update>
    decreases chunks.len(),
{
    if chunks.len() == 0 {
        Seq::empty()
    } else {
        flat(chunks.drop_last()) + chunks.last()@
    }
}

/// Keys never decrease.
pub open spec fn key_sorted(s: Seq<Update>) -> bool {
    forall|i: int, j: int| 0 <= i < j < s.len() ==> (#[trigger] s[i]).key <= (#[trigger] s[j]).key
}

/// The map that sends every time to `t0`.
pub open spec fn constant(t0: u64) -> spec_fn(u64) -> u64 {
    |t: u64| t0
}

/// `timely_sort::LSBRadixSorter::sort` with the key as radix: the chunks come
/// back holding the same updates, none added or lost, so that read chunk
/// after chunk their keys never decrease. The sorter reuses the chunks it is
/// handed as buffers and writes into them without a check, so no chunk may be
/// empty.
#[verifier::external_body]
fn radix_sort_by_key(chunks: &mut Vec<Vec<Update>>)
    requires
        forall|i: int| 0 <= i < old(chunks)@.len() ==> (#[trigger] old(chunks)@[i])@.len() > 0,
    ensures
        flat(final(chunks)@).to_multiset() == flat(old(chunks)@).to_multiset(),
        key_sorted(flat(final(chunks)@)),
{
    let mut sorter = LSBRadixSorter::new();
    sorter.sort(chunks, &|x: &Update| x.key);
}

/// Hands out the contents of `buffer` and leaves it empty.
fn take_buffer(buffer: &mut Vec<Update>) -> (r: Vec<Update>)
    ensures
        r@ == old(buffer)@,
        final(buffer)@.len() == 0,
{
    let mut r: Vec<Update> = Vec::new();
    r.append(buffer);
    r
}

/// Lays the chunks end to end.
pub fn flatten(chunks: &Vec<Vec<Update>>) -> (r: Vec<Update>)
    ensures
        r@ == flat(chunks@),
{
    let mut r: Vec<Update> = Vec::new();
    let mut c: usize = 0;
    assert(chunks@.take(0) =~= Seq::<Vec<Update>>::empty());
    while c < chunks.len()
        invariant
            c <= chunks@.len(),
            r@ == flat(chunks@.take(c as int)),
        decreases chunks@.len() - c,
    {
        let chunk = &chunks[c];
        let mut e: usize = 0;
        while e < chunk.len()
            invariant
                e <= chunk@.len(),
                r@ == flat(chunks@.take(c as int)) + chunk@.take(e as int),
            decreases chunk@.len() - e,
        {
            r.push(chunk[e]);
            assert(chunk@.take(e + 1) =~= chunk@.take(e as int).push(chunk@[e as int]));
            e += 1;
        }
        assert(chunk@.take(e as int) =~= chunk@);
        assert(chunks@.take(c + 1).drop_last() =~= chunks@.take(c as int));
        c += 1;
    }
    assert(chunks@.take(c as int) =~= chunks@);
    r
}

/// A copy of `v` with every time set to `t`.
pub fn retime(v: &Vec<Update>, t: u64) -> (r: Vec<Update>)
    ensures
        r@ == moved(v@, constant(t)),
{
    let mut r: Vec<Update> = Vec::new();
    let mut i: usize = 0;
    while i < v.len()
        invariant
            i <= v@.len(),
            r@ == moved(v@.take(i as int), constant(t)),
        decreases v@.len() - i,
    {
        let u = v[i];
        r.push(Update { key: u.key, val: u.val, time: t, diff: u.diff });
        assert(moved(v@.take(i + 1), constant(t)) =~= moved(v@.take(i as int), constant(t)).push(r@[i as int]));
        i += 1;
    }
    assert(v@.take(i as int) =~= v@);
    r
}

/// The updates of key `cur` among the first `i` of a key-sorted run, of
/// which `done` holds none and `group` all, are all of that key in the run:
/// the weights of `group` are weights of the whole run.
proof fn lemma_key_group_fits(run: Seq<Update>, i: int, t: u64, done: Seq<Update>, group: Seq<Update>, cur: u64)
    requires
        0 <= i <= run.len(),
        key_sorted(run),
        i > 0 ==> run[i - 1].key == cur,
        i < run.len() ==> run[i].key > cur || i == 0,
        i < run.len() && i == 0 ==> group.len() == 0,
        forall|x: int| 0 <= x < done.len() ==> (#[trigger] done[x]).key < cur,
        forall|x: int| 0 <= x < group.len() ==> (#[trigger] group[x]).key == cur,
        forall|p: Region| total(done, p) + total(group, p) == #[trigger] total(moved(run.take(i), constant(t)), p),
        weights_fit(moved(run, constant(t))),
    ensures
        weights_fit(group),
{
    let before = moved(run.take(i), constant(t));
    let after = moved(run.skip(i), constant(t));
    assert(run =~= run.take(i) + run.skip(i));
    assert(moved(run, constant(t)) =~= before + after);
    assert forall|k: u64, v: u64, w: u64| isize::MIN <= #[trigger] weight(group, k, v, w) <= isize::MAX by {
        let p = point(k, v, w);
        if k == cur && group.len() > 0 {
            lemma_total_concat(before, after, p);
            assert(total(done, p) + total(group, p) == total(before, p));
            lemma_total_outside(done, p);
            assert forall|y: int| 0 <= y < after.len() implies !in_region(#[trigger] after[y], p) by {
                assert(after[y].key == run[i + y].key);
                if y > 0 {
                    assert(run[i].key <= run[i + y].key);
                }
            }
            lemma_total_outside(after, p);
            assert(weight(group, k, v, w) == weight(moved(run, constant(t)), k, v, w));
        } else {
            lemma_total_outside(group, p);
        }
    }
}

/// A builder for creating layers from unsorted update tuples that share one time.
pub struct LayerBuilder {
    time: u64,
    buffer: Vec<Update>,
    buffers: Vec<Vec<Update>>,
}

impl LayerBuilder {
    /// The tuples pushed so far, in the order of the calls.
    pub closed spec fn pushed(&self) -> Seq<Update> {
        flat(self.buffers@) + self.buffer@
    }

    /// The time of the last tuple pushed.
    pub closed spec fn time(&self) -> u64 {
        self.time
    }

    /// Full chunks are set aside; the open one is not full.
    pub closed spec fn wf(&self) -> bool {
        &&& self.buffer@.len() < CHUNK
        &&& forall|i: int| 0 <= i < self.buffers@.len() ==> (#[trigger] self.buffers@[i])@.len() == CHUNK
    }

    pub fn new() -> (b: LayerBuilder)
        ensures
            b.wf(),
            b.pushed() == Seq::<Update>::empty(),
            b.time() == 0,
    {
        let b = LayerBuilder { time: 0, buffer: Vec::new(), buffers: Vec::new() };
        assert(b.pushed() =~= Seq::<Update>::empty());
        b
    }

    /// Adds the tuple `(key, val, time, diff)`.
    pub fn push(&mut self, tuple: (u64, u64, u64, isize))
        requires
            old(self).wf(),
        ensures
            final(self).wf(),
            final(self).time() == tuple.2,
            final(self).pushed() == old(self).pushed().push(
                (Update { key: tuple.0, val: tuple.1, time: tuple.2, diff: tuple.3 }),
            ),
    {
        let u = Update { key: tuple.0, val: tuple.1, time: tuple.2, diff: tuple.3 };
        self.time = tuple.2;
        self.buffer.push(u);
        assert(self.pushed() =~= old(self).pushed().push(u));
        if self.buffer.len() == CHUNK {
            let ghost before = self.pushed();
            let full = take_buffer(&mut self.buffer);
            self.buffers.push(full);
            proof {
                assert(self.buffers@.drop_last() =~= old(self).buffers@);
                assert(self.pushed() =~= before);
            }
        }
    }

    /// Finishes the layer: the pushed tuples, all taken at the time of the
    /// last one, consolidated. The layer stands for the times from `lower` up
    /// to `upper` and is compacted to `lower`.
    pub fn done(self, lower: &[u64], upper: &[u64]) -> (r: Rc<Layer>)
        requires
            self.wf(),
            weights_fit(moved(self.pushed(), constant(self.time()))),
        ensures
            r.wf(),
            same_content(r@, moved(self.pushed(), constant(self.time()))),
            r@.len() <= self.pushed().len(),
            mass(r@) <= mass(self.pushed()),
            r.desc.lower@ == lower@,
            r.desc.upper@ == upper@,
            r.desc.since@ == lower@,
    {
        let t = self.time;
        let ghost input = self.pushed();
        let ghost chunks = self.buffers@;
        let mut buffers = self.buffers;
        let mut buffer = self.buffer;
        let mut builder: Vec<Update> = Vec::new();
        // sort things, radix if many, `sort` if few.
        if buffers.len() > 0 {
            if buffer.len() > 0 {
                let rest = take_buffer(&mut buffer);
                buffers.push(rest);
                assert(buffers@.drop_last() =~= chunks);
            } else {
                assert(input =~= flat(buffers@));
            }
            assert(flat(buffers@) == input);
            radix_sort_by_key(&mut buffers);
            let run = flatten(&buffers);
            proof {
                lemma_permutation(run@, input);
                vstd::seq_lib::to_multiset_len(run@);
                vstd::seq_lib::to_multiset_len(input);
                lemma_moved_content(run@, input, constant(t));
                assert forall|k: u64, v: u64, w: u64| isize::MIN <= #[trigger] weight(moved(run@, constant(t)), k, v, w) <= isize::MAX by {
                    assert(weight(moved(run@, constant(t)), k, v, w) == weight(moved(input, constant(t)), k, v, w));
                }
                lemma_mass_take(run@, 0);
                assert(run@.take(0) =~= Seq::<Update>::empty());
                assert(moved(run@.take(0), constant(t)) =~= Seq::<Update>::empty());
            }
            let mut group: Vec<Update> = Vec::new();
            let mut current_hash: u64 = 0;
            let mut i: usize = 0;
            while i < run.len()
                invariant
                    i <= run@.len(),
                    key_sorted(run@),
                    weights_fit(moved(run@, constant(t))),
                    i > 0 ==> current_hash == run@[i - 1].key,
                    i == 0 ==> current_hash == 0 && group@.len() == 0,
                    forall|x: int| 0 <= x < group@.len() ==> (#[trigger] group@[x]).key == current_hash,
                    forall|x: int| 0 <= x < builder@.len() ==> (#[trigger] builder@[x]).key < current_hash,
                    consolidated(builder@),
                    builder@.len() + group@.len() <= i,
                    forall|p: Region| total(builder@, p) + total(group@, p) == #[trigger] total(moved(run@.take(i as int), constant(t)), p),
                    mass(builder@) + mass(group@) <= mass(run@.take(i as int)),
                    mass(run@.take(i as int)) <= mass(run@),
                    mass(builder@) >= 0,
                    mass(group@) >= 0,
                decreases run@.len() - i,
            {
                let u = run[i];
                if u.key != current_hash {
                    proof {
                        if i > 0 {
                            assert(run@[i - 1].key <= run@[i as int].key);
                        }
                    }
                    let ghost raw = group@;
                    let ghost previous = current_hash;
                    proof {
                        lemma_key_group_fits(run@, i as int, t, builder@, group@, current_hash);
                    }
                    current_hash = u.key;
                    consolidate(&mut group);
                    proof {
                        assert forall|x: int, y: int| 0 <= x < builder@.len() && 0 <= y < group@.len() implies slot_lt(#[trigger] builder@[x], #[trigger] group@[y]) by {
                            assert(occurs(group@[y], raw));
                            let j = choose|j: int| 0 <= j < raw.len() && same_slot(group@[y], #[trigger] raw[j]);
                            assert(raw[j].key == previous);
                        }
                        assert forall|x: int| 0 <= x < group@.len() implies (#[trigger] group@[x]).key < current_hash by {
                            assert(occurs(group@[x], raw));
                            let j = choose|j: int| 0 <= j < raw.len() && same_slot(group@[x], #[trigger] raw[j]);
                            assert(raw[j].key == previous);
                        }
                        lemma_consolidated_concat(builder@, group@);
                        lemma_mass_concat(builder@, group@);
                        assert forall|p: Region| #[trigger] total(builder@ + group@, p) == total(builder@, p) + total(raw, p) by {
                            lemma_total_concat(builder@, group@, p);
                            assert(total(group@, p) == total(raw, p));
                        }
                    }
                    builder.append(&mut group);
                    assert(group@ =~= Seq::<Update>::empty());
                }
                let placed = Update { key: u.key, val: u.val, time: t, diff: u.diff };
                proof {
                    assert(run@.take(i + 1) =~= run@.take(i as int).push(u));
                    assert(moved(run@.take(i + 1), constant(t)) =~= moved(run@.take(i as int), constant(t)).push(placed));
                    lemma_mass_push(run@.take(i as int), u);
                    lemma_mass_push(group@, placed);
                    lemma_mass_take(run@, i + 1);
                    assert forall|p: Region| total(builder@, p) + total(group@.push(placed), p) == #[trigger] total(moved(run@.take(i + 1), constant(t)), p) by {
                        lemma_total_push(group@, placed, p);
                        lemma_total_push(moved(run@.take(i as int), constant(t)), placed, p);
                        assert(total(builder@, p) + total(group@, p) == total(moved(run@.take(i as int), constant(t)), p));
                    }
                }
                group.push(placed);
                i += 1;
            }
            let ghost raw = group@;
            proof {
                lemma_key_group_fits(run@, i as int, t, builder@, group@, current_hash);
            }
            consolidate(&mut group);
            proof {
                assert(run@.take(i as int) =~= run@);
                assert forall|x: int, y: int| 0 <= x < builder@.len() && 0 <= y < group@.len() implies slot_lt(#[trigger] builder@[x], #[trigger] group@[y]) by {
                    assert(occurs(group@[y], raw));
                    let j = choose|j: int| 0 <= j < raw.len() && same_slot(group@[y], #[trigger] raw[j]);
                    assert(raw[j].key == current_hash);
                }
                lemma_consolidated_concat(builder@, group@);
                lemma_mass_concat(builder@, group@);
                assert forall|p: Region| #[trigger] total(builder@ + group@, p) == total(moved(input, constant(t)), p) by {
                    lemma_total_concat(builder@, group@, p);
                    assert(total(group@, p) == total(raw, p));
                    assert(total(builder@, p) + total(raw, p) == total(moved(run@, constant(t)), p));
                    assert(total(moved(run@, constant(t)), p) == total(moved(input, constant(t)), p));
                }
            }
            builder.append(&mut group);
        } else {
            assert(flat(buffers@) =~= Seq::<Update>::empty());
            assert(input =~= buffer@);
            builder = retime(&buffer, t);
            proof {
                lemma_total_moved(input, constant(t), point(0, 0, 0));
            }
            consolidate(&mut builder);
        }
        Rc::new(Layer { layer: builder, desc: Description::new(lower, upper, lower) })
    }
}

/// A builder for creating layers from update tuples that arrive in their final order.
pub struct OrdBuilder {
    builder: Vec<Update>,
}

impl OrdBuilder {
    /// The tuples pushed so far, in the order of the calls.
    pub closed spec fn pushed(&self) -> Seq<Update> {
        self.builder@
    }

    pub open spec fn wf(&self) -> bool {
        consolidated(self.pushed())
    }

    pub fn new() -> (b: OrdBuilder)
        ensures
            b.wf(),
            b.pushed() == Seq::<Update>::empty(),
    {
        OrdBuilder { builder: Vec::new() }
    }

    /// Adds the tuple `(key, val, time, diff)`, which comes after every tuple
    /// pushed before it and has a multiplicity other than zero.
    pub fn push(&mut self, tuple: (u64, u64, u64, isize))
        requires
            old(self).wf(),
            tuple.3 != 0,
            old(self).pushed().len() > 0 ==> slot_lt(
                old(self).pushed().last(),
                (Update { key: tuple.0, val: tuple.1, time: tuple.2, diff: tuple.3 }),
            ),
        ensures
            final(self).wf(),
            final(self).pushed() == old(self).pushed().push(
                (Update { key: tuple.0, val: tuple.1, time: tuple.2, diff: tuple.3 }),
            ),
    {
        let u = Update { key: tuple.0, val: tuple.1, time: tuple.2, diff: tuple.3 };
        proof {
            let s = self.builder@;
            assert forall|i: int| 0 <= i < s.len() implies slot_lt(#[trigger] s[i], u) by {
                if i < s.len() - 1 {
                    assert(slot_lt(s[i], s[s.len() - 1]));
                }
            }
        }
        self.builder.push(u);
    }

    /// Finishes the layer: the pushed tuples as they came. The layer stands
    /// for the times from `lower` up to `upper` and is compacted to `lower`.
    pub fn done(self, lower: &[u64], upper: &[u64]) -> (r: Rc<Layer>)
        requires
            self.wf(),
        ensures
            r.wf(),
            r@ == self.pushed(),
            r.desc.lower@ == lower@,
            r.desc.upper@ == upper@,
            r.desc.since@ == lower@,
    {
        Rc::new(Layer { layer: self.builder, desc: Description::new(lower, upper, lower) })
    }
}

} // verus!
