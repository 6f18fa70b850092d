//! The spine: a stack of layers kept short by merging.

use std::rc::Rc;
use vstd::prelude::*;
use crate::update::{Update, Region, consolidated, same_content, total, weight, weights_fit, mass, point};
use crate::update::{lemma_total_concat, lemma_mass_concat, lemma_total_within_mass, lemma_moved_content, lemma_canonical, lemma_total_moved, lemma_mass_fits};
use crate::description::copy_frontier;
use crate::layer::{Layer, advanced, rounding, sums};
use crate::cursor::LayerCursor;

verus! {

/// An append-only collection of update tuples.
///
/// A spine maintains a small number of immutable collections of update tuples, merging the collections when
/// two have similar sizes. In this way, it allows the addition of more tuples, which may then be merged with
/// other immutable collections.
#[derive(Debug)]
pub struct Spine {
    frontier: Vec<u64>,
    layers: Vec<Rc<Layer>>,
}

/// The updates of the layers of a stack, oldest layer first.
pub open spec fn stack_entries(ls: Seq<Rc<Layer>>) -> Seq<Update>
    decreases ls.len(),
{
    if ls.len() == 0 {
        Seq::empty()
    } else {
        stack_entries(ls.drop_last()) + ls.last()@
    }
}

/// Every layer is consolidated and holds at least one update.
pub open spec fn all_wf(ls: Seq<Rc<Layer>>) -> bool {
    forall|i: int| 0 <= i < ls.len() ==> (#[trigger] ls[i]).wf() && ls[i]@.len() > 0
}

/// Among the lowest `n` layers, each is at least twice as long as the one above it.
pub open spec fn geometric_upto(ls: Seq<Rc<Layer>>, n: int) -> bool {
    forall|i: int| 0 <= i < n - 1 && i + 1 < ls.len() ==> (#[trigger] ls[i])@.len() >= 2 * ls[i + 1]@.len()
}

/// Every layer is at least twice as long as the one above it.
pub open spec fn geometric(ls: Seq<Rc<Layer>>) -> bool {
    geometric_upto(ls, ls.len() as int)
}

/// What each layer of a stack holds.
pub open spec fn contents(ls: Seq<Rc<Layer>>) -> Seq<Seq<Update>> {
    ls.map_values(|l: Rc<Layer>| l@)
}

/// The merge of `a` and `b`: the consolidated collection that gives every
/// region the sum of what `a` and `b` give it.
pub open spec fn merged(a: Seq<Update>, b: Seq<Update>) -> Seq<Update> {
    choose|r: Seq<Update>| consolidated(r) && sums(r, a, b)
}

/// `a` compacted to `f`: the consolidated collection with the content of `a` advanced to `f`.
pub open spec fn compacted(a: Seq<Update>, f: Seq<u64>) -> Seq<Update> {
    choose|r: Seq<Update>| consolidated(r) && same_content(r, advanced(a, f))
}

/// `rest` with `r` on top, unless `r` is empty.
pub open spec fn with_top(rest: Seq<Seq<Update>>, r: Seq<Update>) -> Seq<Seq<Update>> {
    if r.len() > 0 {
        rest.push(r)
    } else {
        rest
    }
}

/// The stack after the layers shorter than a batch of `size` updates have
/// been merged: while the layer below the topmost is shorter than the batch,
/// the two topmost are merged.
pub open spec fn absorbed(ls: Seq<Seq<Update>>, size: int) -> Seq<Seq<Update>>
    decreases ls.len(),
{
    if ls.len() >= 2 && ls[ls.len() - 2].len() < size {
        absorbed(with_top(ls.take(ls.len() - 2), merged(ls[ls.len() - 1], ls[ls.len() - 2])), size)
    } else {
        ls
    }
}

/// The stack after doubling: while the layer below the topmost is less than
/// twice as long as the topmost, the two are merged, and the merge that
/// leaves no other layer is compacted to `f`.
pub open spec fn doubled(ls: Seq<Seq<Update>>, f: Seq<u64>) -> Seq<Seq<Update>>
    decreases ls.len(),
{
    if ls.len() >= 2 && ls[ls.len() - 2].len() < 2 * ls[ls.len() - 1].len() {
        let m = merged(ls[ls.len() - 1], ls[ls.len() - 2]);
        let rest = ls.take(ls.len() - 2);
        doubled(with_top(rest, if rest.len() == 0 { compacted(m, f) } else { m }), f)
    } else {
        ls
    }
}

/// The weights of `a` and `b` can be added position by position within the machine range.
pub open spec fn fit_together(a: Seq<Update>, b: Seq<Update>) -> bool {
    forall|k: u64, v: u64, t: u64| isize::MIN <= #[trigger] weight(a, k, v, t) + weight(b, k, v, t) <= isize::MAX
}

/// Every merge made while the layers shorter than a batch of `size` updates are merged stays within the machine range.
pub open spec fn absorb_fits(ls: Seq<Seq<Update>>, size: int) -> bool
    decreases ls.len(),
{
    if ls.len() >= 2 && ls[ls.len() - 2].len() < size {
        &&& fit_together(ls[ls.len() - 1], ls[ls.len() - 2])
        &&& absorb_fits(with_top(ls.take(ls.len() - 2), merged(ls[ls.len() - 1], ls[ls.len() - 2])), size)
    } else {
        true
    }
}

/// Every merge and the compaction made while doubling stay within the
/// machine range, and a compaction of anything finds a frontier to round up to.
pub open spec fn double_fits(ls: Seq<Seq<Update>>, f: Seq<u64>) -> bool
    decreases ls.len(),
{
    if ls.len() >= 2 && ls[ls.len() - 2].len() < 2 * ls[ls.len() - 1].len() {
        let m = merged(ls[ls.len() - 1], ls[ls.len() - 2]);
        let rest = ls.take(ls.len() - 2);
        &&& fit_together(ls[ls.len() - 1], ls[ls.len() - 2])
        &&& rest.len() == 0 ==> weights_fit(advanced(m, f)) && (m.len() > 0 ==> f.len() > 0)
        &&& double_fits(with_top(rest, if rest.len() == 0 { compacted(m, f) } else { m }), f)
    } else {
        true
    }
}

/// Taking in `batch` makes no sum that leaves the machine range, and no compaction without a frontier.
pub open spec fn insert_fits(ls: Seq<Seq<Update>>, batch: Seq<Update>, f: Seq<u64>) -> bool {
    batch.len() > 0 ==> absorb_fits(ls, batch.len() as int) && double_fits(
        absorbed(ls, batch.len() as int).push(batch),
        f,
    )
}

/// The stack after a batch has been taken in.
pub open spec fn inserted(ls: Seq<Seq<Update>>, batch: Seq<Update>, f: Seq<u64>) -> Seq<Seq<Update>> {
    if batch.len() == 0 {
        ls
    } else {
        doubled(absorbed(ls, batch.len() as int).push(batch), f)
    }
}

/// A consolidated collection with the sums of `a` and `b` is their merge.
pub proof fn lemma_merged(a: Seq<Update>, b: Seq<Update>, r: Seq<Update>)
    requires
        consolidated(r),
        sums(r, a, b),
    ensures
        merged(a, b) == r,
{
    let m = merged(a, b);
    assert(consolidated(m) && sums(m, a, b));
    assert forall|p: Region| total(m, p) == total(r, p) by {
        assert(total(m, p) == total(a, p) + total(b, p));
        assert(total(r, p) == total(a, p) + total(b, p));
    }
    lemma_canonical(m, r);
}

/// A consolidated collection with the content of `a` advanced to `f` is `a` compacted to `f`.
pub proof fn lemma_compacted(a: Seq<Update>, f: Seq<u64>, r: Seq<Update>)
    requires
        consolidated(r),
        same_content(r, advanced(a, f)),
    ensures
        compacted(a, f) == r,
{
    let c = compacted(a, f);
    assert(consolidated(c) && same_content(c, advanced(a, f)));
    lemma_canonical(c, r);
}

/// A batch of `size` updates goes on top of `ls` without any merge: there is
/// no layer, or the topmost is at least twice as long as the batch.
pub open spec fn settles(ls: Seq<Rc<Layer>>, size: int) -> bool {
    ls.len() == 0 || ls[ls.len() - 1]@.len() >= 2 * size
}

/// The stack that a merge of the two topmost layers of `stack` into `result` leaves.
pub open spec fn replaced_top(stack: Seq<Rc<Layer>>, result: Rc<Layer>) -> Seq<Rc<Layer>> {
    if result@.len() > 0 {
        stack.take(stack.len() - 2).push(result)
    } else {
        stack.take(stack.len() - 2)
    }
}

proof fn lemma_absorb(stack: Seq<Rc<Layer>>, result: Rc<Layer>, size: int)
    requires
        stack.len() >= 2,
        all_wf(stack),
        geometric_upto(stack, stack.len() - 1),
        stack[stack.len() - 1]@.len() < stack[stack.len() - 2]@.len(),
        stack[stack.len() - 2]@.len() < size,
        result.wf(),
        result@.len() <= stack[stack.len() - 1]@.len() + stack[stack.len() - 2]@.len(),
    ensures
        ({
            let next = replaced_top(stack, result);
            &&& all_wf(next)
            &&& geometric_upto(next, next.len() - 1)
            &&& next.len() >= 2 ==> next[next.len() - 1]@.len() < next[next.len() - 2]@.len()
            &&& geometric(next) || (next.len() >= 1 && next[next.len() - 1]@.len() < 2 * size)
        }),
{
    let n = stack.len() as int;
    let rest = stack.take(n - 2);
    let next = replaced_top(stack, result);
    assert forall|i: int| 0 <= i < rest.len() - 1 implies (#[trigger] rest[i])@.len() >= 2 * rest[i + 1]@.len() by {
        assert(stack[i]@.len() >= 2 * stack[i + 1]@.len());
    }
    assert forall|i: int| 0 <= i < rest.len() implies (#[trigger] rest[i]).wf() && rest[i]@.len() > 0 by {
        assert(stack[i].wf());
    }
    if n >= 3 {
        assert(stack[n - 3]@.len() >= 2 * stack[n - 2]@.len());
        assert(rest[n - 3] == stack[n - 3]);
    }
    assert(stack[n - 1].wf());
    if result@.len() > 0 {
        assert forall|i: int| 0 <= i < next.len() - 2 implies (#[trigger] next[i])@.len() >= 2 * next[i + 1]@.len() by {
            assert(next[i] == rest[i]);
            assert(next[i + 1] == rest[i + 1]);
        }
    } else {
        if n >= 4 {
            assert(rest[n - 4]@.len() >= 2 * rest[n - 3]@.len());
        }
    }
}

proof fn lemma_placed(below: Seq<Rc<Layer>>, layer: Rc<Layer>)
    requires
        all_wf(below),
        layer.wf(),
        layer@.len() > 0,
        geometric_upto(below, below.len() - 1),
        geometric(below) || (below.len() >= 1 && below[below.len() - 1]@.len() < 2 * layer@.len()),
    ensures
        ({
            let now = below.push(layer);
            &&& all_wf(now)
            &&& geometric_upto(now, now.len() - 2)
            &&& geometric_upto(now, now.len() - 1) || (now.len() >= 2 && now[now.len() - 2]@.len() < 2 * now[now.len() - 1]@.len())
        }),
{
    let now = below.push(layer);
    assert forall|i: int| 0 <= i < now.len() - 3 implies (#[trigger] now[i])@.len() >= 2 * now[i + 1]@.len() by {
        assert(below[i]@.len() >= 2 * below[i + 1]@.len());
    }
    if geometric(below) {
        assert forall|i: int| 0 <= i < now.len() - 2 implies (#[trigger] now[i])@.len() >= 2 * now[i + 1]@.len() by {
            assert(below[i]@.len() >= 2 * below[i + 1]@.len());
        }
    }
    assert forall|i: int| 0 <= i < now.len() implies (#[trigger] now[i]).wf() && now[i]@.len() > 0 by {
        if i < below.len() {
            assert(below[i].wf());
        }
    }
}

proof fn lemma_settled(ls: Seq<Rc<Layer>>)
    requires
        geometric_upto(ls, ls.len() - 1),
        ls.len() >= 2 ==> ls[ls.len() - 2]@.len() >= 2 * ls[ls.len() - 1]@.len(),
    ensures
        geometric(ls),
{
}

proof fn lemma_double(stack: Seq<Rc<Layer>>, result: Rc<Layer>)
    requires
        stack.len() >= 2,
        all_wf(stack),
        geometric_upto(stack, stack.len() - 2),
        result.wf(),
    ensures
        ({
            let next = replaced_top(stack, result);
            &&& all_wf(next)
            &&& geometric_upto(next, next.len() - 2)
            &&& geometric_upto(next, next.len() - 1)
        }),
{
    let n = stack.len() as int;
    let rest = stack.take(n - 2);
    let next = replaced_top(stack, result);
    assert forall|i: int| 0 <= i < rest.len() - 1 implies (#[trigger] rest[i])@.len() >= 2 * rest[i + 1]@.len() by {
        assert(stack[i]@.len() >= 2 * stack[i + 1]@.len());
    }
    assert forall|i: int| 0 <= i < rest.len() implies (#[trigger] rest[i]).wf() && rest[i]@.len() > 0 by {
        assert(stack[i].wf());
    }
    if result@.len() > 0 {
        assert forall|i: int| 0 <= i < next.len() - 2 implies (#[trigger] next[i])@.len() >= 2 * next[i + 1]@.len() by {
            assert(next[i] == rest[i]);
            assert(next[i + 1] == rest[i + 1]);
        }
    }
}

pub proof fn lemma_stack_push(ls: Seq<Rc<Layer>>, l: Rc<Layer>)
    ensures
        stack_entries(ls.push(l)) == stack_entries(ls) + l@,
{
    assert(ls.push(l).drop_last() =~= ls);
}

/// Appending the same updates to collections of equal content keeps the content equal.
pub proof fn lemma_content_concat(a: Seq<Update>, b: Seq<Update>, tail: Seq<Update>)
    requires
        same_content(a, b),
    ensures
        same_content(a + tail, b + tail),
{
    assert forall|p: Region| total(a + tail, p) == total(b + tail, p) by {
        lemma_total_concat(a, tail, p);
        lemma_total_concat(b, tail, p);
    }
}

/// Collections whose masses together fit a machine integer have weights whose sums fit.
pub proof fn lemma_sums_fit(a: Seq<Update>, b: Seq<Update>)
    requires
        mass(a) + mass(b) <= isize::MAX,
    ensures
        fit_together(a, b),
{
    assert forall|k: u64, v: u64, t: u64| isize::MIN <= #[trigger] weight(a, k, v, t) + weight(b, k, v, t) <= isize::MAX by {
        lemma_total_within_mass(a, point(k, v, t));
        lemma_total_within_mass(b, point(k, v, t));
    }
}

/// Whether `a < 2 * b`.
fn less_than_twice(a: usize, b: usize) -> (r: bool)
    ensures
        r == (a < 2 * b),
{
    a < b || a - b < b
}

/// The two topmost layers of a stack whose mass fits the machine range fit together.
proof fn lemma_top_fits(stack: Seq<Rc<Layer>>)
    requires
        stack.len() >= 2,
        mass(stack_entries(stack)) <= isize::MAX,
    ensures
        fit_together(stack[stack.len() - 1]@, stack[stack.len() - 2]@),
{
    let mid = stack.drop_last();
    let rest = mid.drop_last();
    assert(stack_entries(stack) == stack_entries(mid) + stack.last()@);
    assert(stack_entries(mid) == stack_entries(rest) + mid.last()@);
    lemma_mass_concat(stack_entries(mid), stack.last()@);
    lemma_mass_concat(stack_entries(rest), mid.last()@);
    lemma_sums_fit(stack.last()@, mid.last()@);
}

/// Takes the two topmost layers off the stack and merges them.
fn merge_top(layers: &mut Vec<Rc<Layer>>) -> (r: Layer)
    requires
        old(layers)@.len() >= 2,
        all_wf(old(layers)@),
        fit_together(old(layers)@[old(layers)@.len() - 1]@, old(layers)@[old(layers)@.len() - 2]@),
    ensures
        final(layers)@ == old(layers)@.take(old(layers)@.len() - 2),
        r.wf(),
        r@ == merged(old(layers)@[old(layers)@.len() - 1]@, old(layers)@[old(layers)@.len() - 2]@),
        same_content(stack_entries(final(layers)@) + r@, stack_entries(old(layers)@)),
        r@.len() <= old(layers)@[old(layers)@.len() - 1]@.len() + old(layers)@[old(layers)@.len() - 2]@.len(),
        (stack_entries(final(layers)@) + r@).len() <= stack_entries(old(layers)@).len(),
        mass(stack_entries(final(layers)@) + r@) <= mass(stack_entries(old(layers)@)),
        r.desc.lower@.len() == 0 && r.desc.upper@.len() == 0 && r.desc.since@.len() == 0,
{
    let ghost before = layers@;
    let layer1 = layers.pop().unwrap();
    let ghost mid = layers@;
    let layer2 = layers.pop().unwrap();
    let ghost rest = layers@;
    proof {
        assert(mid =~= before.drop_last());
        assert(rest =~= mid.drop_last());
        assert(rest =~= before.take(before.len() - 2));
        assert(before.last() == layer1);
        assert(mid.last() == layer2);
        assert(before[before.len() - 1].wf());
        assert(before[before.len() - 2].wf());
        assert(stack_entries(before) == stack_entries(mid) + layer1@);
        assert(stack_entries(mid) == stack_entries(rest) + layer2@);
        lemma_mass_concat(stack_entries(mid), layer1@);
        lemma_mass_concat(stack_entries(rest), layer2@);
    }
    let result = layer1.merge(&layer2);
    proof {
        lemma_merged(layer1@, layer2@, result@);
        lemma_mass_concat(stack_entries(rest), result@);
        assert forall|p: Region| total(stack_entries(rest) + result@, p) == total(stack_entries(before), p) by {
            lemma_total_concat(stack_entries(mid), layer1@, p);
            lemma_total_concat(stack_entries(rest), layer2@, p);
            lemma_total_concat(stack_entries(rest), result@, p);
        }
    }
    result
}

/// What the layers hold after a merge of the two topmost is what those below them hold, then the result.
proof fn lemma_replaced_contents(stack: Seq<Rc<Layer>>, result: Rc<Layer>)
    requires
        stack.len() >= 2,
    ensures
        contents(replaced_top(stack, result)) == with_top(contents(stack).take(stack.len() - 2), result@),
{
    assert(contents(replaced_top(stack, result)) =~= with_top(contents(stack).take(stack.len() - 2), result@));
}

/// The updates left by a merge of the two topmost layers are those below them, then the result.
proof fn lemma_replaced_entries(stack: Seq<Rc<Layer>>, result: Rc<Layer>)
    requires
        stack.len() >= 2,
    ensures
        stack_entries(replaced_top(stack, result)) == stack_entries(stack.take(stack.len() - 2)) + result@,
{
    let rest = stack.take(stack.len() - 2);
    if result@.len() > 0 {
        lemma_stack_push(rest, result);
    } else {
        assert(stack_entries(rest) + result@ =~= stack_entries(rest));
    }
}

impl Spine {
    /// The resident layers, oldest first.
    pub closed spec fn layers(&self) -> Seq<Rc<Layer>> {
        self.layers@
    }

    /// The frontier that the next compaction rounds times up to.
    pub closed spec fn frontier(&self) -> Seq<u64> {
        self.frontier@
    }

    /// All updates held, oldest layer first.
    pub open spec fn entries(&self) -> Seq<Update> {
        stack_entries(self.layers())
    }

    /// No layer is empty, each is consolidated, and each is at least twice as long as the next.
    pub open spec fn wf(&self) -> bool {
        all_wf(self.layers()) && geometric(self.layers())
    }

    /// A spine without layers, whose frontier is the single time `default`.
    pub fn new(default: u64) -> (s: Spine)
        ensures
            s.wf(),
            s.layers().len() == 0,
            s.frontier() == seq![default],
    {
        let mut frontier: Vec<u64> = Vec::new();
        frontier.push(default);
        assert(frontier@ =~= seq![default]);
        Spine { frontier, layers: Vec::new() }
    }

    /// Takes in a batch. An empty batch changes nothing. Otherwise resident
    /// layers shorter than the batch are merged among themselves, the batch is
    /// put on top, and the two topmost layers are merged for as long as the
    /// lower is less than twice as long as the upper. A merge that leaves a
    /// single layer also rounds its times up to the frontier.
    // Note: this does not perform progressive merging.
    #[verifier::rlimit(60)]
    pub fn insert(&mut self, layer: Rc<Layer>)
        requires
            old(self).wf(),
            layer.wf(),
            (old(self).frontier().len() > 0 && mass(old(self).entries()) + mass(layer@) <= isize::MAX) || insert_fits(
                contents(old(self).layers()),
                layer@,
                old(self).frontier(),
            ),
        ensures
            final(self).wf(),
            final(self).frontier() == old(self).frontier(),
            contents(final(self).layers()) == inserted(contents(old(self).layers()), layer@, old(self).frontier()),
            layer@.len() == 0 ==> final(self).layers() == old(self).layers(),
            layer@.len() > 0 && settles(old(self).layers(), layer@.len() as int) ==> final(self).layers() == old(self).layers().push(layer),
            final(self).layers().len() <= old(self).layers().len() + 1,
            same_content(final(self).entries(), old(self).entries() + layer@) || (final(self).layers().len() <= 1
                && same_content(
                final(self).entries(),
                advanced(old(self).entries() + layer@, old(self).frontier()),
            )),
            final(self).entries().len() <= old(self).entries().len() + layer@.len(),
            mass(final(self).entries()) <= mass(old(self).entries()) + mass(layer@),
    {
        let ghost resident = self.entries();
        let ghost input = self.entries() + layer@;
        let ghost front = self.frontier@;
        let ghost start = self.layers@;
        let ghost bounded = front.len() > 0 && mass(resident) + mass(layer@) <= isize::MAX;
        proof {
            lemma_mass_concat(resident, layer@);
        }
        if layer.len() > 0 {
            let size = layer.len();
            // while last two elements exist, both less than layer.len()
            while self.layers.len() >= 2 && self.layers[self.layers.len() - 2].len() < size
                invariant
                    self.frontier@ == front,
                    size == layer@.len(),
                    all_wf(self.layers@),
                    geometric_upto(self.layers@, self.layers@.len() - 1),
                    self.layers@.len() >= 2 ==> self.layers@[self.layers@.len() - 1]@.len() < self.layers@[self.layers@.len() - 2]@.len(),
                    geometric(self.layers@) || (self.layers@.len() >= 1 && self.layers@[self.layers@.len() - 1]@.len() < 2 * size),
                    same_content(stack_entries(self.layers@), resident),
                    geometric(start),
                    settles(start, size as int) ==> self.layers@ == start,
                    absorbed(contents(self.layers@), size as int) == absorbed(contents(start), size as int),
                    self.layers@.len() <= old(self).layers@.len(),
                    stack_entries(self.layers@).len() <= resident.len(),
                    mass(stack_entries(self.layers@)) <= mass(resident),
                    bounded == (front.len() > 0 && mass(resident) + mass(layer@) <= isize::MAX),
                    bounded || absorb_fits(contents(self.layers@), size as int),
                    mass(layer@) >= 0,
                decreases self.layers@.len(),
            {
                let ghost stack = self.layers@;
                proof {
                    if bounded {
                        lemma_top_fits(stack);
                    }
                }
                let result = Rc::new(merge_top(&mut self.layers));
                proof {
                    lemma_absorb(stack, result, size as int);
                    lemma_replaced_entries(stack, result);
                }
                if result.len() > 0 {
                    self.layers.push(result);
                }
                assert(self.layers@ == replaced_top(stack, result));
                proof {
                    lemma_replaced_contents(stack, result);
                }
            }

            let ghost below = self.layers@;
            proof {
                lemma_stack_push(below, layer);
                lemma_mass_concat(stack_entries(below), layer@);
                lemma_content_concat(stack_entries(below), resident, layer@);
                lemma_placed(below, layer);
            }
            self.layers.push(layer);
            proof {
                assert(contents(self.layers@) =~= contents(below).push(layer@));
            }
            let ghost placed = contents(self.layers@);

            while self.layers.len() >= 2 && less_than_twice(
                self.layers[self.layers.len() - 2].len(),
                self.layers[self.layers.len() - 1].len(),
            )
                invariant
                    self.frontier@ == front,
                    all_wf(self.layers@),
                    geometric_upto(self.layers@, self.layers@.len() - 2),
                    geometric_upto(self.layers@, self.layers@.len() - 1) || (self.layers@.len() >= 2 && self.layers@[self.layers@.len() - 2]@.len() < 2
                        * self.layers@[self.layers@.len() - 1]@.len()),
                    self.layers@.len() >= 2 ==> same_content(stack_entries(self.layers@), input),
                    same_content(stack_entries(self.layers@), input) || same_content(
                        stack_entries(self.layers@),
                        advanced(input, front),
                    ),
                    self.layers@.len() <= old(self).layers@.len() + 1,
                    size == layer@.len(),
                    settles(start, size as int) ==> self.layers@ == start.push(layer),
                    doubled(contents(self.layers@), front) == doubled(placed, front),
                    stack_entries(self.layers@).len() <= resident.len() + layer@.len(),
                    mass(stack_entries(self.layers@)) <= mass(resident) + mass(layer@),
                    bounded == (front.len() > 0 && mass(resident) + mass(layer@) <= isize::MAX),
                    bounded || double_fits(contents(self.layers@), front),
                decreases self.layers@.len(),
            {
                let ghost stack = self.layers@;
                proof {
                    if bounded {
                        lemma_top_fits(stack);
                    }
                }
                let merged = merge_top(&mut self.layers);
                let ghost rest = self.layers@;
                let ghost plain = merged@;
                let mut result = Rc::new(merged);

                // if we just merged the last layer, `advance_by` it.
                if self.layers.len() == 0 {
                    proof {
                        assert(stack_entries(rest) =~= Seq::<Update>::empty());
                        assert(stack_entries(rest) + plain =~= plain);
                        if bounded {
                            lemma_total_moved(plain, rounding(front), point(0, 0, 0));
                            lemma_mass_fits(advanced(plain, front));
                        } else {
                            assert(contents(stack).take(stack.len() - 2).len() == 0);
                        }
                    }
                    result = Rc::new(Layer::advance_by(&result, self.frontier.as_slice()));
                    proof {
                        lemma_compacted(plain, front, result@);
                        lemma_moved_content(plain, input, rounding(front));
                        assert(stack_entries(rest) + result@ =~= result@);
                    }
                }
                proof {
                    lemma_double(stack, result);
                    lemma_replaced_entries(stack, result);
                }
                if result.len() > 0 {
                    self.layers.push(result);
                }
                assert(self.layers@ == replaced_top(stack, result));
                proof {
                    lemma_replaced_contents(stack, result);
                }
            }
            proof {
                lemma_settled(self.layers@);
            }
        } else {
            proof {
                assert(layer@ =~= Seq::<Update>::empty());
                assert(input =~= resident);
            }
        }
    }

    /// One cursor for each resident layer, oldest layer first.
    pub fn cursor(&self) -> (r: Vec<LayerCursor>)
        requires
            self.wf(),
        ensures
            r@.len() == self.layers().len(),
            forall|i: int| 0 <= i < r@.len() ==> (#[trigger] r@[i]).wf() && r@[i].entries() == self.layers()[i]@
                && r@[i].key_pos() == 0 && r@[i].val_pos() == 0,
    {
        let mut cursors: Vec<LayerCursor> = Vec::new();
        let mut i: usize = 0;
        while i < self.layers.len()
            invariant
                i <= self.layers@.len(),
                all_wf(self.layers@),
                cursors@.len() == i,
                forall|x: int| 0 <= x < cursors@.len() ==> (#[trigger] cursors@[x]).wf() && cursors@[x].entries() == self.layers@[x]@
                    && cursors@[x].key_pos() == 0 && cursors@[x].val_pos() == 0,
            decreases self.layers@.len() - i,
        {
            let layer = &self.layers[i];
            if layer.len() > 0 {
                cursors.push(LayerCursor::new(layer));
            }
            i += 1;
        }
        cursors
    }

    /// Replaces the frontier. The resident layers stay as they are: the new
    /// frontier takes effect at the next compaction.
    pub fn advance_by(&mut self, frontier: &[u64])
        ensures
            final(self).frontier() == frontier@,
            final(self).layers() == old(self).layers(),
    {
        self.frontier = copy_frontier(frontier);
    }
}

} // verus!
