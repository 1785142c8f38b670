//! Indexed Z-set batches: an immutable ordered trie mapping each key to a
//! multiset of `(value, weight)` tuples, with antichain bounds over the
//! unit timestamp lattice.

use vstd::prelude::*;

use crate::algebra::wadd;
use crate::trace::ordered::{lemma_trie_unique, OrderedBuilder, OrderedCursor, OrderedLayer};
use crate::trace::ordered_leaf::OrderedLeafCursor;
use crate::trace::zset_batch::Antichain;

verus! {

/// An immutable collection of update tuples, indexed by key and value.
#[derive(Debug, Clone, PartialEq, Eq)]
pub struct OrdIndexedZSet {
    /// Where all the data is.
    pub layer: OrderedLayer,
    /// The lower bound of the batch's timestamp interval.
    pub lower: Antichain,
    /// The upper bound of the batch's timestamp interval.
    pub upper: Antichain,
}

impl OrdIndexedZSet {
    /// The batch's trie is well-formed.
    pub open spec fn wf(self) -> bool {
        self.layer.wf()
    }

    /// The weight the pair `(k, v)` carries in the batch.
    pub open spec fn weight(self, k: u64, v: u64) -> i64 {
        self.layer.weight(k, v)
    }

    /// An empty batch covering the whole unit interval.
    pub fn empty(_time: ()) -> (r: Self)
        ensures
            r.wf(),
            r.layer.keys@.len() == 0,
            r.lower.has_elem,
            !r.upper.has_elem,
    {
        OrdIndexedZSet {
            layer: OrderedLayer::empty(),
            lower: Antichain::from_elem(()),
            upper: Antichain::new(),
        }
    }

    /// True if the batch holds no tuples.
    pub fn is_empty(&self) -> (r: bool)
        ensures
            r == (self.layer.keys@.len() == 0),
    {
        self.layer.is_empty()
    }

    /// The total number of leaf tuples in the batch.
    pub fn len(&self) -> (r: usize)
        ensures
            r == self.layer.vals@.len(),
    {
        self.layer.tuples()
    }

    /// The lower bound of the batch's timestamp interval.
    pub fn lower(&self) -> (r: &Antichain)
        ensures
            *r == self.lower,
    {
        &self.lower
    }

    /// The upper bound of the batch's timestamp interval.
    pub fn upper(&self) -> (r: &Antichain)
        ensures
            *r == self.upper,
    {
        &self.upper
    }

    /// A cursor over the batch's keys and values.
    pub fn cursor(&self) -> (c: OrdIndexedZSetCursor)
        requires
            self.wf(),
        ensures
            c.cursor.pos == 0,
            c.cursor.bounds.0 == 0,
            c.cursor.bounds.1 == self.layer.keys@.len(),
            c.cursor.wf_for(self.layer),
    {
        OrdIndexedZSetCursor { cursor: self.layer.cursor() }
    }

    /// Merges two batches: weights of shared `(key, value)` pairs
    /// accumulate, cancelled pairs are dropped, and keys left without
    /// values disappear.
    pub fn merge(&self, other: &Self) -> (r: Self)
        requires
            self.wf(),
            other.wf(),
        ensures
            r.wf(),
            forall|k: u64, v: u64|
                r.weight(k, v) == wadd(self.weight(k, v), other.weight(k, v)),
            r.lower.has_elem == (self.lower.has_elem || other.lower.has_elem),
            r.upper.has_elem == (self.upper.has_elem && other.upper.has_elem),
    {
        OrdIndexedZSet {
            layer: self.layer.merge(&other.layer),
            lower: self.lower.meet(&other.lower),
            upper: self.upper.join(&other.upper),
        }
    }

    /// Starts a fueled merge of two batches.
    pub fn begin_merge(&self, other: &Self) -> (r: OrdIndexedZSetMerger)
        ensures
            r.result.keys@.len() == 0,
            r.result.vals.vals@.len() == 0,
            r.result.wf(),
    {
        OrdIndexedZSetMerger::new(self, other)
    }

    /// Downgrades the batch's timestamps to the frontier; for the unit
    /// lattice there is nothing to change.
    pub fn recede_to(&mut self, _frontier: &())
        ensures
            *final(self) == *old(self),
    {
    }
}

/// Law: an indexed builder fed the tuples of a canonical indexed batch,
/// in the ascending `(key, value)` order its cursor yields them, emits
/// that batch tuple for tuple. `emitted` is any well-formed batch whose
/// weights equal the source's — which the builder's contract forces for
/// such a feed — and canonical tries of one indexed Z-set are unique, so
/// the emitted trie is the source's part for part.
pub proof fn lemma_indexed_builder_round_trip(b: OrdIndexedZSet, emitted: OrdIndexedZSet)
    requires
        b.wf(),
        emitted.wf(),
        forall|k: u64, v: u64| emitted.weight(k, v) == b.weight(k, v),
    ensures
        emitted.layer.keys@ == b.layer.keys@,
        emitted.layer.offs@ == b.layer.offs@,
        emitted.layer.vals@ == b.layer.vals@,
{
    assert forall|k: u64, v: u64|
        crate::trace::ordered::parts_weight(
            emitted.layer.keys@,
            emitted.layer.offs@,
            emitted.layer.vals@,
            k,
            v,
        ) == crate::trace::ordered::parts_weight(
            b.layer.keys@,
            b.layer.offs@,
            b.layer.vals@,
            k,
            v,
        ) by {
        assert(emitted.weight(k, v) == b.weight(k, v));
    }
    lemma_trie_unique(
        emitted.layer.keys@,
        emitted.layer.offs@,
        emitted.layer.vals@,
        b.layer.keys@,
        b.layer.offs@,
        b.layer.vals@,
    );
}

/// State for an in-progress merge of two indexed batches.
pub struct OrdIndexedZSetMerger {
    /// The result being assembled.
    pub result: OrderedBuilder,
}

impl OrdIndexedZSetMerger {
    /// Allocates a merger with capacity for the merge of the two batches.
    pub fn new(batch1: &OrdIndexedZSet, batch2: &OrdIndexedZSet) -> (r: Self)
        ensures
            r.result.keys@.len() == 0,
            r.result.vals.vals@.len() == 0,
            r.result.wf(),
    {
        OrdIndexedZSetMerger { result: OrderedBuilder::with_capacity(&batch1.layer, &batch2.layer) }
    }

    /// Performs the merge work, decrementing `fuel` by one unit per key
    /// and leaving at least one unit so that progress is guaranteed.
    pub fn work(&mut self, source1: &OrdIndexedZSet, source2: &OrdIndexedZSet, fuel: &mut isize)
        requires
            old(self).result.keys@.len() == 0,
            old(self).result.vals.vals@.len() == 0,
            old(self).result.wf(),
            source1.wf(),
            source2.wf(),
        ensures
            final(self).result.wf(),
            forall|k: u64, v: u64|
                final(self).result.weight(k, v) == wadd(
                    source1.weight(k, v),
                    source2.weight(k, v),
                ),
            *final(fuel) >= 1,
            *old(fuel) - final(self).result.keys@.len() >= 1 ==> *final(fuel) == *old(fuel)
                - final(self).result.keys@.len(),
    {
        let c1 = source1.layer.cursor();
        let c2 = source2.layer.cursor();
        let worked = self.result.push_merge((&source1.layer, c1), (&source2.layer, c2));
        let spent = if worked <= isize::MAX as usize {
            worked as isize
        } else {
            isize::MAX
        };
        if *fuel >= isize::MIN + spent {
            *fuel = *fuel - spent;
        } else {
            *fuel = isize::MIN;
        }
        if *fuel < 1 {
            *fuel = 1;
        }
    }

    /// Extracts the merged batch once the merge is exhausted.
    pub fn done(self) -> (r: OrdIndexedZSet)
        requires
            self.result.wf(),
        ensures
            r.wf(),
            forall|k: u64, v: u64| r.weight(k, v) == self.result.weight(k, v),
            r.lower.has_elem,
            !r.upper.has_elem,
    {
        let ghost gb = self.result;
        let layer = self.result.done();
        proof {
            assert forall|k: u64, v: u64|
                layer.weight(k, v) == gb.weight(k, v) by {
            }
        }
        OrdIndexedZSet {
            layer,
            lower: Antichain::from_elem(()),
            upper: Antichain::new(),
        }
    }
}

/// A cursor for navigating an indexed batch by key and, within a key, by
/// value.
#[derive(Debug)]
pub struct OrdIndexedZSetCursor {
    /// The underlying trie cursor with its child cursor.
    pub cursor: OrderedCursor,
}

impl OrdIndexedZSetCursor {
    /// The current key.
    pub fn key<'a>(&self, storage: &'a OrdIndexedZSet) -> (r: &'a u64)
        requires
            self.cursor.wf_for(storage.layer),
            self.cursor.pos < self.cursor.bounds.1,
        ensures
            *r == storage.layer.keys@[self.cursor.pos as int],
    {
        self.cursor.key(&storage.layer)
    }

    /// The current value under the current key.
    pub fn val(&self, storage: &OrdIndexedZSet) -> (r: u64)
        requires
            self.cursor.wf_for(storage.layer),
            self.cursor.pos < self.cursor.bounds.1,
            self.cursor.child.pos < self.cursor.child.bounds.1,
        ensures
            r == storage.layer.vals@[self.cursor.child.pos as int].0,
    {
        self.cursor.child.key(&storage.layer.vals).0
    }

    /// The weight of the current `(key, value)` pair.
    pub fn weight(&self, storage: &OrdIndexedZSet) -> (r: i64)
        requires
            self.cursor.wf_for(storage.layer),
            self.cursor.pos < self.cursor.bounds.1,
            self.cursor.child.pos < self.cursor.child.bounds.1,
        ensures
            r == storage.layer.vals@[self.cursor.child.pos as int].1,
    {
        self.cursor.child.key(&storage.layer.vals).1
    }

    /// True while the cursor points at a key.
    pub fn key_valid(&self, storage: &OrdIndexedZSet) -> (r: bool)
        ensures
            r == (self.cursor.pos < self.cursor.bounds.1),
    {
        self.cursor.valid(&storage.layer)
    }

    /// True while the cursor points at a value of the current key.
    pub fn val_valid(&self, storage: &OrdIndexedZSet) -> (r: bool)
        ensures
            r == (self.cursor.child.pos < self.cursor.child.bounds.1),
    {
        self.cursor.child.valid(&storage.layer.vals)
    }

    /// Moves to the next key.
    pub fn step_key(&mut self, storage: &OrdIndexedZSet)
        requires
            storage.wf(),
            old(self).cursor.wf_for(storage.layer),
            old(self).cursor.pos < old(self).cursor.bounds.1,
        ensures
            final(self).cursor.wf_for(storage.layer),
            final(self).cursor.pos == old(self).cursor.pos + 1,
            final(self).cursor.bounds == old(self).cursor.bounds,
    {
        self.cursor.step(&storage.layer);
    }

    /// Moves to the first key at or past the given key.
    pub fn seek_key(&mut self, storage: &OrdIndexedZSet, key: &u64)
        requires
            storage.wf(),
            old(self).cursor.wf_for(storage.layer),
        ensures
            final(self).cursor.wf_for(storage.layer),
            final(self).cursor.bounds == old(self).cursor.bounds,
            old(self).cursor.pos <= final(self).cursor.pos,
            forall|i: int|
                old(self).cursor.pos <= i < final(self).cursor.pos
                    ==> storage.layer.keys@[i] < *key,
            final(self).cursor.pos < final(self).cursor.bounds.1
                ==> storage.layer.keys@[final(self).cursor.pos as int] >= *key,
    {
        self.cursor.seek(&storage.layer, key);
    }

    /// Moves to the next value of the current key.
    pub fn step_val(&mut self, storage: &OrdIndexedZSet)
        requires
            old(self).cursor.child.wf_for(storage.layer.vals),
            old(self).cursor.child.pos < old(self).cursor.child.bounds.1,
        ensures
            final(self).cursor.pos == old(self).cursor.pos,
            final(self).cursor.bounds == old(self).cursor.bounds,
            final(self).cursor.child.wf_for(storage.layer.vals),
            final(self).cursor.child.pos == old(self).cursor.child.pos + 1,
            final(self).cursor.child.bounds == old(self).cursor.child.bounds,
    {
        self.cursor.child.step(&storage.layer.vals);
    }

    /// Rewinds to the first key of the batch.
    pub fn rewind_keys(&mut self, storage: &OrdIndexedZSet)
        requires
            storage.wf(),
            old(self).cursor.bounds.0 <= old(self).cursor.bounds.1 <= storage.layer.keys@.len(),
        ensures
            final(self).cursor.wf_for(storage.layer),
            final(self).cursor.bounds == old(self).cursor.bounds,
            final(self).cursor.pos == final(self).cursor.bounds.0,
    {
        self.cursor.rewind(&storage.layer);
    }
}

/// A builder for indexed batches from tuples already sorted by key and
/// value.
pub struct OrdIndexedZSetBuilder {
    /// The layer builder accepting the tuples.
    pub builder: OrderedBuilder,
}

impl OrdIndexedZSetBuilder {
    /// The accepted tuples stay a canonical trie.
    pub open spec fn wf(self) -> bool {
        self.builder.wf()
    }

    /// A new builder for a batch at the given time.
    pub fn new(_time: ()) -> (r: Self)
        ensures
            r.wf(),
            r.builder.keys@.len() == 0,
            r.builder.vals.vals@.len() == 0,
    {
        OrdIndexedZSetBuilder { builder: OrderedBuilder::new() }
    }

    /// A new builder with capacity for `cap` tuples.
    pub fn with_capacity(_time: (), cap: usize) -> (r: Self)
        ensures
            r.wf(),
            r.builder.keys@.len() == 0,
            r.builder.vals.vals@.len() == 0,
    {
        OrdIndexedZSetBuilder { builder: OrderedBuilder::with_key_capacity(cap) }
    }

    /// Accepts one `(key, value, weight)` tuple; tuples arrive in strictly
    /// ascending `(key, value)` order with no zero weights.
    pub fn push(&mut self, tuple: (u64, u64, i64))
        requires
            old(self).wf(),
            tuple.2 != 0i64,
            old(self).builder.keys@.len() > 0 ==> tuple.0 >= old(self).builder.keys@.last(),
            old(self).builder.keys@.len() > 0 && tuple.0 == old(self).builder.keys@.last()
                ==> old(self).builder.vals.vals@.len() > 0 && old(
                self,
            ).builder.vals.vals@.last().0 < tuple.1,
        ensures
            final(self).wf(),
            final(self).builder.keys@.len() > 0,
            final(self).builder.keys@.last() == tuple.0,
            final(self).builder.vals.vals@.len() > 0,
            final(self).builder.vals.vals@.last() == (tuple.1, tuple.2),
            forall|k: u64, v: u64|
                final(self).builder.weight(k, v) == wadd(
                    old(self).builder.weight(k, v),
                    if k == tuple.0 && v == tuple.1 {
                        tuple.2
                    } else {
                        0i64
                    },
                ),
    {
        let (key, val, diff) = tuple;
        self.builder.push_tuple((key, (val, diff)));
    }

    /// Finalizes the batch with bounds covering the unit interval.
    pub fn done(self) -> (r: OrdIndexedZSet)
        requires
            self.wf(),
        ensures
            r.wf(),
            forall|k: u64, v: u64| r.weight(k, v) == self.builder.weight(k, v),
            r.lower.has_elem,
            !r.upper.has_elem,
    {
        let ghost gb = self.builder;
        let layer = self.builder.done();
        proof {
            assert forall|k: u64, v: u64|
                layer.weight(k, v) == gb.weight(k, v) by {
            }
        }
        OrdIndexedZSet {
            layer,
            lower: Antichain::from_elem(()),
            upper: Antichain::new(),
        }
    }
}

} // verus!
