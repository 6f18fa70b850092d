//! Navigation over the updates of one layer, grouped by key, then value.

use std::rc::Rc;
use vstd::prelude::*;
use crate::update::{Update, consolidated};
use crate::layer::Layer;

verus! {

/// A cursor for navigating a single layer.
///
/// The cursor stands on a key (the group of updates that starts at
/// `key_pos`) and, inside it, on a value (the group that starts at `val_pos`).
#[derive(Debug)]
pub struct LayerCursor {
    layer: Rc<Layer>,
    key_pos: usize,
    val_pos: usize,
}

/// `Rc::clone`: another handle to the same value.
#[verifier::external_body]
pub(crate) fn share(layer: &Rc<Layer>) -> (r: Rc<Layer>)
    ensures
        r == *layer,
{
    Rc::clone(layer)
}

/// The updates at `from .. to` all have the key `k`.
pub open spec fn run_of_key(s: Seq<Update>, from: int, to: int, k: u64) -> bool {
    forall|x: int| from <= x < to ==> (#[trigger] s[x]).key == k
}

/// The updates at `from .. to` all have the key `k` and the value `v`.
pub open spec fn run_of_val(s: Seq<Update>, from: int, to: int, k: u64, v: u64) -> bool {
    forall|x: int| from <= x < to ==> (#[trigger] s[x]).key == k && s[x].val == v
}

impl LayerCursor {
    /// The updates navigated.
    pub closed spec fn entries(&self) -> Seq<Update> {
        self.layer@
    }

    /// Where the current key's updates start.
    pub closed spec fn key_pos(&self) -> int {
        self.key_pos as int
    }

    /// Where the current value's updates start.
    pub closed spec fn val_pos(&self) -> int {
        self.val_pos as int
    }

    /// The value position lies in the current key's group, or at its end.
    pub open spec fn wf(&self) -> bool {
        &&& consolidated(self.entries())
        &&& 0 <= self.key_pos() <= self.val_pos() <= self.entries().len()
        &&& self.key_pos() < self.val_pos() ==> run_of_key(
            self.entries(),
            self.key_pos(),
            self.val_pos(),
            self.entries()[self.key_pos()].key,
        )
    }

    pub open spec fn spec_key_valid(&self) -> bool {
        self.key_pos() < self.entries().len()
    }

    pub open spec fn spec_val_valid(&self) -> bool {
        self.val_pos() < self.entries().len() && self.entries()[self.val_pos()].key
            == self.entries()[self.key_pos()].key
    }

    /// A cursor on the first key and value of `layer`.
    pub fn new(layer: &Rc<Layer>) -> (c: LayerCursor)
        requires
            layer.wf(),
        ensures
            c.wf(),
            c.entries() == layer@,
            c.key_pos() == 0,
            c.val_pos() == 0,
    {
        LayerCursor { layer: share(layer), key_pos: 0, val_pos: 0 }
    }

    /// Whether the cursor stands on a key.
    pub fn key_valid(&self) -> (r: bool)
        requires
            self.wf(),
        ensures
            r == self.spec_key_valid(),
    {
        self.key_pos < self.layer.layer.len()
    }

    /// Whether the cursor stands on a value of the current key.
    pub fn val_valid(&self) -> (r: bool)
        requires
            self.wf(),
        ensures
            r == self.spec_val_valid(),
    {
        self.val_pos < self.layer.layer.len() && self.layer.layer[self.val_pos].key
            == self.layer.layer[self.key_pos].key
    }

    /// The current key.
    pub fn key(&self) -> (k: u64)
        requires
            self.wf(),
            self.spec_key_valid(),
        ensures
            k == self.entries()[self.key_pos()].key,
    {
        self.layer.layer[self.key_pos].key
    }

    /// The current value.
    pub fn val(&self) -> (v: u64)
        requires
            self.wf(),
            self.spec_val_valid(),
        ensures
            v == self.entries()[self.val_pos()].val,
    {
        self.layer.layer[self.val_pos].val
    }

    /// The `(time, multiplicity)` entries under the current key and value, in
    /// order; none if the cursor stands on no value. The cursor does not move.
    pub fn map_times(&self) -> (r: Vec<(u64, isize)>)
        requires
            self.wf(),
        ensures
            !self.spec_val_valid() ==> r@.len() == 0,
            self.spec_val_valid() ==> r@.len() > 0,
            self.val_pos() + r@.len() <= self.entries().len(),
            forall|x: int| 0 <= x < r@.len() ==> (#[trigger] r@[x]).0 == self.entries()[self.val_pos() + x].time
                && r@[x].1 == self.entries()[self.val_pos() + x].diff,
            r@.len() > 0 ==> run_of_val(
                self.entries(),
                self.val_pos(),
                self.val_pos() + r@.len(),
                self.entries()[self.val_pos()].key,
                self.entries()[self.val_pos()].val,
            ),
            self.spec_val_valid() && self.val_pos() + r@.len() < self.entries().len() ==> {
                let next = self.entries()[self.val_pos() + r@.len()];
                next.key != self.entries()[self.val_pos()].key || next.val != self.entries()[self.val_pos()].val
            },
    {
        let mut r: Vec<(u64, isize)> = Vec::new();
        if !self.val_valid() {
            return r;
        }
        let n = self.layer.layer.len();
        let first = self.layer.layer[self.val_pos];
        let mut at: usize = self.val_pos;
        while at < n && self.layer.layer[at].key == first.key && self.layer.layer[at].val == first.val
            invariant
                self.val_pos <= at <= n,
                n == self.layer@.len(),
                first == self.layer@[self.val_pos as int],
                r@.len() == at - self.val_pos,
                at == self.val_pos ==> at < n,
                forall|x: int| 0 <= x < r@.len() ==> (#[trigger] r@[x]).0 == self.layer@[self.val_pos + x].time
                    && r@[x].1 == self.layer@[self.val_pos + x].diff,
                run_of_val(self.layer@, self.val_pos as int, at as int, first.key, first.val),
            decreases n - at,
        {
            let u = self.layer.layer[at];
            r.push((u.time, u.diff));
            at += 1;
        }
        r
    }

    /// Moves to the next key, and to its first value.
    pub fn step_key(&mut self)
        requires
            old(self).wf(),
        ensures
            final(self).wf(),
            final(self).entries() == old(self).entries(),
            final(self).val_pos() == final(self).key_pos(),
            !old(self).spec_key_valid() ==> final(self).key_pos() == old(self).key_pos(),
            old(self).spec_key_valid() ==> final(self).key_pos() > old(self).key_pos(),
            old(self).spec_key_valid() ==> run_of_key(
                old(self).entries(),
                old(self).key_pos(),
                final(self).key_pos(),
                old(self).entries()[old(self).key_pos()].key,
            ),
            final(self).spec_key_valid() && old(self).spec_key_valid() ==> final(self).entries()[final(self).key_pos()].key
                != old(self).entries()[old(self).key_pos()].key,
    {
        let n = self.layer.layer.len();
        if self.key_pos < n {
            let k = self.layer.layer[self.key_pos].key;
            let mut at: usize = self.key_pos + 1;
            while at < n && self.layer.layer[at].key == k
                invariant
                    self.key_pos < at <= n,
                    n == self.layer@.len(),
                    k == self.layer@[self.key_pos as int].key,
                    run_of_key(self.layer@, self.key_pos as int, at as int, k),
                decreases n - at,
            {
                at += 1;
            }
            self.key_pos = at;
        }
        self.val_pos = self.key_pos;
    }

    /// Moves forward, never backward, to the first key at or after `key`, and to its first value.
    pub fn seek_key(&mut self, key: &u64)
        requires
            old(self).wf(),
        ensures
            final(self).wf(),
            final(self).entries() == old(self).entries(),
            final(self).val_pos() == final(self).key_pos(),
            final(self).key_pos() >= old(self).key_pos(),
            forall|x: int| old(self).key_pos() <= x < final(self).key_pos() ==> (#[trigger] old(self).entries()[x]).key < *key,
            final(self).spec_key_valid() ==> final(self).entries()[final(self).key_pos()].key >= *key,
    {
        let n = self.layer.layer.len();
        let mut at: usize = self.key_pos;
        while at < n && self.layer.layer[at].key < *key
            invariant
                self.key_pos <= at <= n,
                n == self.layer@.len(),
                forall|x: int| self.key_pos <= x < at ==> (#[trigger] self.layer@[x]).key < *key,
            decreases n - at,
        {
            at += 1;
        }
        self.key_pos = at;
        self.val_pos = at;
    }

    /// Moves to the next value of the current key.
    pub fn step_val(&mut self)
        requires
            old(self).wf(),
        ensures
            final(self).wf(),
            final(self).entries() == old(self).entries(),
            final(self).key_pos() == old(self).key_pos(),
            !old(self).spec_val_valid() ==> final(self).val_pos() == old(self).val_pos(),
            old(self).spec_val_valid() ==> final(self).val_pos() > old(self).val_pos(),
            old(self).spec_val_valid() ==> run_of_val(
                old(self).entries(),
                old(self).val_pos(),
                final(self).val_pos(),
                old(self).entries()[old(self).val_pos()].key,
                old(self).entries()[old(self).val_pos()].val,
            ),
            old(self).spec_val_valid() && final(self).val_pos() < final(self).entries().len() ==> {
                let next = final(self).entries()[final(self).val_pos()];
                next.key != old(self).entries()[old(self).val_pos()].key || next.val != old(self).entries()[old(
                    self,
                ).val_pos()].val
            },
    {
        if self.val_valid() {
            let n = self.layer.layer.len();
            let first = self.layer.layer[self.val_pos];
            let mut at: usize = self.val_pos + 1;
            while at < n && self.layer.layer[at].key == first.key && self.layer.layer[at].val == first.val
                invariant
                    self.val_pos < at <= n,
                    n == self.layer@.len(),
                    first == self.layer@[self.val_pos as int],
                    run_of_val(self.layer@, self.val_pos as int, at as int, first.key, first.val),
                decreases n - at,
            {
                at += 1;
            }
            self.val_pos = at;
        }
    }

    /// Moves forward, never backward, to the first value of the current key at or after `val`.
    pub fn seek_val(&mut self, val: &u64)
        requires
            old(self).wf(),
        ensures
            final(self).wf(),
            final(self).entries() == old(self).entries(),
            final(self).key_pos() == old(self).key_pos(),
            final(self).val_pos() >= old(self).val_pos(),
            forall|x: int| old(self).val_pos() <= x < final(self).val_pos() ==> (#[trigger] old(self).entries()[x]).val < *val,
            final(self).spec_val_valid() ==> final(self).entries()[final(self).val_pos()].val >= *val,
            old(self).spec_val_valid() && !final(self).spec_val_valid() ==> forall|x: int| old(self).val_pos() <= x < old(self).entries().len()
                && (#[trigger] old(self).entries()[x]).key == old(self).entries()[old(self).key_pos()].key ==> old(self).entries()[x].val < *val,
    {
        if self.val_valid() {
            let n = self.layer.layer.len();
            let k = self.layer.layer[self.key_pos].key;
            let mut at: usize = self.val_pos;
            while at < n && self.layer.layer[at].key == k && self.layer.layer[at].val < *val
                invariant
                    self.key_pos <= self.val_pos <= at <= n,
                    self.key_pos < n,
                    n == self.layer@.len(),
                    consolidated(self.layer@),
                    k == self.layer@[self.key_pos as int].key,
                    run_of_key(self.layer@, self.key_pos as int, at as int, k),
                    forall|x: int| self.val_pos <= x < at ==> (#[trigger] self.layer@[x]).val < *val,
                decreases n - at,
            {
                at += 1;
            }
            proof {
                if at < n && self.layer@[at as int].key != k {
                    assert forall|x: int| at <= x < n implies (#[trigger] self.layer@[x]).key != k by {
                        if x > at {
                            assert(crate::update::slot_lt(self.layer@[at as int], self.layer@[x]));
                        }
                        if at > self.key_pos {
                            assert(crate::update::slot_lt(self.layer@[self.key_pos as int], self.layer@[at as int]));
                        }
                    }
                }
            }
            self.val_pos = at;
        }
    }

    /// Returns to the first key, and to its first value.
    pub fn rewind_keys(&mut self)
        requires
            old(self).wf(),
        ensures
            final(self).wf(),
            final(self).entries() == old(self).entries(),
            final(self).key_pos() == 0,
            final(self).val_pos() == 0,
    {
        self.key_pos = 0;
        self.val_pos = 0;
    }

    /// Returns to the first value of the current key.
    pub fn rewind_vals(&mut self)
        requires
            old(self).wf(),
        ensures
            final(self).wf(),
            final(self).entries() == old(self).entries(),
            final(self).key_pos() == old(self).key_pos(),
            final(self).val_pos() == old(self).key_pos(),
    {
        self.val_pos = self.key_pos;
    }
}

} // verus!
