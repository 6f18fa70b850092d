//! Laws that relate the operations of the library.

use std::rc::Rc;
use vstd::prelude::*;
use crate::update::{Update, Region, consolidated, same_content, total, moved};
use crate::update::{lemma_canonical, lemma_permutation, lemma_moved_content};
use crate::lattice::{floor, advanced_time, dominates, lemma_floor};
use crate::layer::{Layer, advanced, rounding, sums};
use crate::builder::constant;
use crate::spine::{Spine, stack_entries, all_wf, geometric};

verus! {

/// Merging with an empty collection changes nothing: a consolidated
/// collection is the only consolidated result of merging it with nothing.
pub proof fn law_merge_with_empty(a: Seq<Update>, r: Seq<Update>)
    requires
        consolidated(a),
        consolidated(r),
        sums(r, a, Seq::<Update>::empty()),
    ensures
        r == a,
{
    assert forall|p: Region| total(r, p) == total(a, p) by {
        assert(total(r, p) == total(a, p) + total(Seq::<Update>::empty(), p));
    }
    lemma_canonical(r, a);
}

/// Merging is commutative: the merge of `a` with `b` is the merge of `b` with `a`.
pub proof fn law_merge_commutes(a: Seq<Update>, b: Seq<Update>, ab: Seq<Update>, ba: Seq<Update>)
    requires
        consolidated(ab),
        consolidated(ba),
        sums(ab, a, b),
        sums(ba, b, a),
    ensures
        ab == ba,
{
    assert forall|p: Region| total(ab, p) == total(ba, p) by {
        assert(total(ab, p) == total(a, p) + total(b, p));
        assert(total(ba, p) == total(b, p) + total(a, p));
    }
    lemma_canonical(ab, ba);
}

/// Merging is associative: merging `a` with `b` and the result with `c`
/// gives what merging `a` with the merge of `b` and `c` gives.
pub proof fn law_merge_associates(
    a: Seq<Update>,
    b: Seq<Update>,
    c: Seq<Update>,
    ab: Seq<Update>,
    bc: Seq<Update>,
    left: Seq<Update>,
    right: Seq<Update>,
)
    requires
        sums(ab, a, b),
        sums(bc, b, c),
        sums(left, ab, c),
        sums(right, a, bc),
        consolidated(left),
        consolidated(right),
    ensures
        left == right,
{
    assert forall|p: Region| total(left, p) == total(right, p) by {
        assert(total(left, p) == total(ab, p) + total(c, p));
        assert(total(ab, p) == total(a, p) + total(b, p));
        assert(total(right, p) == total(a, p) + total(bc, p));
        assert(total(bc, p) == total(b, p) + total(c, p));
    }
    lemma_canonical(left, right);
}

/// The two builders agree: when the tuples pushed to the buffering builder
/// all have the time `t`, and the ordered builder is fed a consolidated
/// rearrangement `sorted` of them, the buffering builder's result `built` is
/// what the ordered builder returns, `sorted` itself.
pub proof fn law_builders_agree(pushed: Seq<Update>, t: u64, sorted: Seq<Update>, built: Seq<Update>)
    requires
        forall|i: int| 0 <= i < pushed.len() ==> (#[trigger] pushed[i]).time == t,
        sorted.to_multiset() == pushed.to_multiset(),
        consolidated(sorted),
        consolidated(built),
        same_content(built, moved(pushed, constant(t))),
    ensures
        built == sorted,
{
    assert(moved(pushed, constant(t)) =~= pushed);
    lemma_permutation(sorted, pushed);
    lemma_canonical(built, sorted);
}

/// A frontier that dominates another has a floor at or above the other's.
pub proof fn lemma_floor_dominates(g: Seq<u64>, f: Seq<u64>)
    requires
        dominates(g, f),
    ensures
        floor(f) <= floor(g),
{
    lemma_floor(g);
    lemma_floor(f);
    if g.len() > 0 {
        let i = choose|i: int| 0 <= i < g.len() && g[i] == floor(g);
        let j = choose|j: int| 0 <= j < f.len() && f[j] <= g[i];
        assert(floor(f) <= f[j]);
    }
}

/// Rounding a time up to `f` and then to a frontier `g` that dominates `f`
/// is rounding it up to `g`.
pub proof fn law_advance_time_twice(t: u64, f: Seq<u64>, g: Seq<u64>)
    requires
        dominates(g, f),
    ensures
        advanced_time(advanced_time(t, f), g) == advanced_time(t, g),
{
    lemma_floor_dominates(g, f);
}

/// Advancing by `f` and then by a frontier `g` that dominates `f` is
/// advancing by `g`: with `first` the layer advanced by `f`, `second` that
/// layer advanced by `g`, and `direct` the layer advanced by `g` at once,
/// `second` and `direct` are equal.
pub proof fn law_advance_twice(
    s: Seq<Update>,
    f: Seq<u64>,
    g: Seq<u64>,
    first: Seq<Update>,
    second: Seq<Update>,
    direct: Seq<Update>,
)
    requires
        dominates(g, f),
        same_content(first, advanced(s, f)),
        consolidated(second),
        same_content(second, advanced(first, g)),
        consolidated(direct),
        same_content(direct, advanced(s, g)),
    ensures
        second == direct,
{
    lemma_moved_content(first, advanced(s, f), rounding(g));
    assert(advanced(advanced(s, f), g) =~= advanced(s, g)) by {
        assert forall|i: int| 0 <= i < s.len() implies advanced(advanced(s, f), g)[i] == advanced(s, g)[i] by {
            law_advance_time_twice(s[i].time, f, g);
        }
    }
    lemma_canonical(second, direct);
}

/// Two to the power `k`.
pub open spec fn two_to(k: nat) -> nat
    decreases k,
{
    if k == 0 {
        1
    } else {
        2 * two_to((k - 1) as nat)
    }
}

proof fn lemma_growth(ls: Seq<Rc<Layer>>, i: int)
    requires
        all_wf(ls),
        geometric(ls),
        0 <= i < ls.len(),
    ensures
        ls[i]@.len() >= two_to((ls.len() - 1 - i) as nat),
    decreases ls.len() - i,
{
    if i < ls.len() - 1 {
        lemma_growth(ls, i + 1);
        assert(ls[i]@.len() >= 2 * ls[i + 1]@.len());
    }
}

proof fn lemma_first_counted(ls: Seq<Rc<Layer>>)
    requires
        ls.len() > 0,
    ensures
        stack_entries(ls).len() >= ls[0]@.len(),
    decreases ls.len(),
{
    if ls.len() > 1 {
        lemma_first_counted(ls.drop_last());
    } else {
        assert(stack_entries(ls.drop_last()).len() >= 0);
    }
}

/// The number of layers is logarithmic in the number of updates held: a
/// spine of `n > 0` layers holds at least two to the power `n - 1` updates.
/// As no insertion adds more updates than its batch holds, a spine that has
/// taken in `N` updates has at most `log2(N) + 1` layers.
pub proof fn law_layer_count(spine: Spine)
    requires
        spine.wf(),
        spine.layers().len() > 0,
    ensures
        two_to((spine.layers().len() - 1) as nat) <= spine.entries().len(),
{
    lemma_growth(spine.layers(), 0);
    lemma_first_counted(spine.layers());
}

} // verus!
