//! Non-indexed Z-set batches: an immutable ordered leaf together with
//! antichain bounds over the unit timestamp lattice.

use vstd::prelude::*;

use crate::algebra::{
    same_weights, seq_weight, wadd, wf_zset, wneg, AddByRef, HasZero, NegByRef,
};
use crate::trace::ordered_leaf::{
    OrderedLeaf, OrderedLeafBuilder, OrderedLeafCursor, UnorderedLeafBuilder,
};

verus! {

/// An antichain over the unit timestamp lattice: either empty or the single
/// timestamp.
#[derive(Debug, Clone, Copy, PartialEq, Eq, Structural)]
pub struct Antichain {
    /// Whether the antichain holds the one timestamp of the lattice.
    pub has_elem: bool,
}

impl Antichain {
    /// The empty antichain.
    pub fn new() -> (r: Self)
        ensures
            !r.has_elem,
    {
        Antichain { has_elem: false }
    }

    /// The antichain of the single unit timestamp.
    pub fn from_elem(_element: ()) -> (r: Self)
        ensures
            r.has_elem,
    {
        Antichain { has_elem: true }
    }

    /// Greatest lower bound: for the unit lattice, an element remains iff
    /// either side has one.
    pub fn meet(&self, other: &Self) -> (r: Self)
        ensures
            r.has_elem == (self.has_elem || other.has_elem),
    {
        Antichain { has_elem: self.has_elem || other.has_elem }
    }

    /// Least upper bound: for the unit lattice, an element remains iff both
    /// sides have one.
    pub fn join(&self, other: &Self) -> (r: Self)
        ensures
            r.has_elem == (self.has_elem && other.has_elem),
    {
        Antichain { has_elem: self.has_elem && other.has_elem }
    }
}

/// An immutable batch of update tuples: a sorted, zero-free leaf plus
/// `[lower, upper)` antichain bounds.
#[derive(Debug, Clone, PartialEq, Eq)]
pub struct OrdZSet {
    /// Where all the data is.
    pub layer: OrderedLeaf,
    /// The lower bound of the batch's timestamp interval.
    pub lower: Antichain,
    /// The upper bound of the batch's timestamp interval.
    pub upper: Antichain,
}

impl View for OrdZSet {
    type V = Seq<(u64, i64)>;

    open spec fn view(&self) -> Seq<(u64, i64)> {
        self.layer@
    }
}

impl OrdZSet {
    /// The batch's tuples form a canonical Z-set representation.
    pub open spec fn wf(self) -> bool {
        self.layer.wf()
    }

    /// An empty batch covering the whole unit interval.
    pub fn empty(_time: ()) -> (r: Self)
        ensures
            r.wf(),
            r@.len() == 0,
            r.lower.has_elem,
            !r.upper.has_elem,
    {
        OrdZSet {
            layer: OrderedLeaf { vals: Vec::new() },
            lower: Antichain::from_elem(()),
            upper: Antichain::new(),
        }
    }

    /// Builds a batch from unsorted tuples by consolidation.
    pub fn from_tuples(_time: (), tuples: Vec<(u64, i64)>) -> (r: Self)
        ensures
            r.wf(),
            same_weights(r@, tuples@),
            r.lower.has_elem,
            !r.upper.has_elem,
    {
        let mut builder = UnorderedLeafBuilder::with_capacity(tuples.len());
        let mut i: usize = 0;
        while i < tuples.len()
            invariant
                0 <= i <= tuples@.len(),
                builder.wf(),
                builder.boundary == 0,
                builder.vals@ == tuples@.take(i as int),
            decreases tuples@.len() - i,
        {
            builder.push_tuple(tuples[i]);
            proof {
                assert(tuples@.take(i + 1) =~= tuples@.take(i as int).push(tuples@[i as int]));
            }
            i += 1;
        }
        proof {
            assert(tuples@.take(tuples@.len() as int) =~= tuples@);
        }
        let layer = builder.done();
        OrdZSet { layer, lower: Antichain::from_elem(()), upper: Antichain::new() }
    }

    /// The total number of tuples in the batch.
    pub fn len(&self) -> (r: usize)
        ensures
            r == self@.len(),
    {
        self.layer.tuples()
    }

    /// True if the batch holds no tuples.
    pub fn is_empty(&self) -> (r: bool)
        ensures
            r == (self@.len() == 0),
    {
        self.layer.is_empty()
    }

    /// The lower bound of the batch's timestamp interval.
    pub fn lower(&self) -> (r: &Antichain)
        ensures
            *r == self.lower,
    {
        &self.lower
    }

    /// The upper bound of the batch's timestamp interval.
    pub fn upper(&self) -> (r: &Antichain)
        ensures
            *r == self.upper,
    {
        &self.upper
    }

    /// A cursor over the batch's tuples.
    pub fn cursor(&self) -> (c: OrderedLeafCursor)
        ensures
            c.pos == 0,
            c.bounds.0 == 0,
            c.bounds.1 == self@.len(),
    {
        self.layer.cursor()
    }

    /// Merges two batches: weights of shared keys accumulate and zero sums
    /// are dropped; bounds compose by meet and join.
    pub fn merge(&self, other: &Self) -> (r: Self)
        requires
            self.wf(),
            other.wf(),
        ensures
            r.wf(),
            forall|k: u64|
                seq_weight(r@, k) == wadd(seq_weight(self@, k), seq_weight(other@, k)),
            r.lower.has_elem == (self.lower.has_elem || other.lower.has_elem),
            r.upper.has_elem == (self.upper.has_elem && other.upper.has_elem),
    {
        OrdZSet {
            layer: self.layer.merge(&other.layer),
            lower: self.lower.meet(&other.lower),
            upper: self.upper.join(&other.upper),
        }
    }

    /// Starts a fueled merge of two batches.
    pub fn begin_merge(&self, other: &Self) -> (r: OrdZSetMerger)
        ensures
            r.result.vals@.len() == 0,
    {
        OrdZSetMerger::new(self, other)
    }

    /// Downgrades the batch's timestamps to the frontier; for the unit
    /// lattice there is nothing to change.
    pub fn recede_to(&mut self, _frontier: &())
        ensures
            *final(self) == *old(self),
    {
    }

    /// Negates every weight, producing the inverse Z-set.
    pub fn neg(self) -> (r: Self)
        ensures
            r@.len() == self@.len(),
            forall|i: int|
                0 <= i < self@.len() ==> r@[i] == (self@[i].0, wneg(self@[i].1)),
            self.wf() ==> r.wf(),
            r.lower == self.lower,
            r.upper == self.upper,
    {
        OrdZSet { layer: self.layer.neg(), lower: self.lower, upper: self.upper }
    }
}

impl HasZero for OrdZSet {
    open spec fn spec_is_zero(self) -> bool {
        self@.len() == 0
    }

    fn zero() -> (r: Self) {
        OrdZSet::empty(())
    }

    fn is_zero(&self) -> (r: bool) {
        self.layer.is_empty()
    }
}

impl AddByRef for OrdZSet {
    open spec fn sound(self) -> bool {
        self.wf()
    }

    open spec fn add_rel(self, other: Self, result: Self) -> bool {
        &&& result.wf()
        &&& forall|k: u64|
            seq_weight(result@, k) == wadd(seq_weight(self@, k), seq_weight(other@, k))
    }

    fn add_by_ref(&self, other: &Self) -> (r: Self) {
        self.merge(other)
    }
}

impl NegByRef for OrdZSet {
    open spec fn neg_rel(self, result: Self) -> bool {
        &&& result@.len() == self@.len()
        &&& forall|i: int| 0 <= i < self@.len() ==> result@[i] == (self@[i].0, wneg(self@[i].1))
        &&& self.wf() ==> result.wf()
    }

    fn neg_by_ref(&self) -> (r: Self) {
        OrdZSet {
            layer: self.layer.neg_by_ref(),
            lower: self.lower,
            upper: self.upper,
        }
    }
}

/// Accepts update tuples in arbitrary order; sealing consolidates them into
/// a batch.
pub struct OrdZSetBatcher {
    /// The pending unsorted tuples.
    pub builder: UnorderedLeafBuilder,
    /// The lower bound the sealed batch will carry.
    pub lower: Antichain,
}

impl OrdZSetBatcher {
    /// The batcher never takes intermediate boundaries, so sealing
    /// consolidates everything pushed.
    pub open spec fn wf(self) -> bool {
        self.builder.wf() && self.builder.boundary == 0
    }

    /// A new batcher for a batch starting at the given time.
    pub fn new(_time: ()) -> (r: Self)
        ensures
            r.wf(),
            r.builder.vals@.len() == 0,
    {
        OrdZSetBatcher { builder: UnorderedLeafBuilder::new(), lower: Antichain::from_elem(()) }
    }

    /// Accepts one update tuple, in any order.
    pub fn push_tuple(&mut self, tuple: (u64, i64))
        requires
            old(self).wf(),
        ensures
            final(self).wf(),
            final(self).builder.vals@ == old(self).builder.vals@.push(tuple),
    {
        self.builder.push_tuple(tuple);
    }

    /// Seals the batch: consolidates all pushed tuples into their canonical
    /// Z-set representation with bounds `[lower, upper)`.
    pub fn seal(self, upper: Antichain) -> (r: OrdZSet)
        requires
            self.wf(),
        ensures
            r.wf(),
            same_weights(r@, self.builder.vals@),
            r.lower == self.lower,
            r.upper == upper,
    {
        let lower = self.lower;
        let layer = self.builder.done();
        OrdZSet { layer, lower, upper }
    }
}

/// Accepts tuples already in ascending key order and assembles a batch.
pub struct OrdZSetBuilder {
    /// The tuples accepted so far, kept canonical.
    pub builder: OrderedLeafBuilder,
}

impl OrdZSetBuilder {
    /// The accepted tuples stay a canonical Z-set representation.
    pub open spec fn wf(self) -> bool {
        wf_zset(self.builder.vals@)
    }

    /// A new builder for a batch at the given time.
    pub fn new(_time: ()) -> (r: Self)
        ensures
            r.wf(),
            r.builder.vals@.len() == 0,
    {
        OrdZSetBuilder { builder: OrderedLeafBuilder::new() }
    }

    /// A new builder with capacity for `cap` tuples.
    pub fn with_capacity(_time: (), cap: usize) -> (r: Self)
        ensures
            r.wf(),
            r.builder.vals@.len() == 0,
    {
        OrdZSetBuilder { builder: OrderedLeafBuilder::with_key_capacity(cap) }
    }

    /// Accepts one tuple; the key must exceed every key pushed before and
    /// the weight must not be zero.
    pub fn push(&mut self, tuple: (u64, i64))
        requires
            old(self).wf(),
            tuple.1 != 0i64,
            forall|i: int|
                0 <= i < old(self).builder.vals@.len() ==> (#[trigger] old(
                    self,
                ).builder.vals@[i]).0 < tuple.0,
        ensures
            final(self).wf(),
            final(self).builder.vals@ == old(self).builder.vals@.push(tuple),
    {
        self.builder.push_tuple(tuple);
    }

    /// Finalizes the batch with bounds covering the unit interval.
    pub fn done(self) -> (r: OrdZSet)
        requires
            self.wf(),
        ensures
            r.wf(),
            r@ == self.builder.vals@,
            r.lower.has_elem,
            !r.upper.has_elem,
    {
        let layer = self.builder.done();
        OrdZSet { layer, lower: Antichain::from_elem(()), upper: Antichain::new() }
    }
}

/// Law: a sorted builder fed the tuples of a canonical batch, in order,
/// emits that batch tuple for tuple. The builder's contract forces the
/// emitted tuples to be exactly the pushed sequence, so re-ingesting a
/// batch's cursor reproduces the batch.
pub proof fn lemma_builder_round_trip(b: Seq<(u64, i64)>, emitted: Seq<(u64, i64)>)
    requires
        wf_zset(b),
        wf_zset(emitted),
        same_weights(emitted, b),
    ensures
        emitted == b,
{
    crate::algebra::lemma_wf_unique(emitted, b);
}

/// Law: a batcher fed the tuples of a canonical batch in any order seals
/// to that batch tuple for tuple. Sealing consolidates to a canonical
/// representation with the pushed tuples' weights, and canonical
/// representations of one Z-set are unique.
pub proof fn lemma_batcher_round_trip(
    b: Seq<(u64, i64)>,
    pushed: Seq<(u64, i64)>,
    sealed: Seq<(u64, i64)>,
)
    requires
        wf_zset(b),
        same_weights(pushed, b),
        wf_zset(sealed),
        same_weights(sealed, pushed),
    ensures
        sealed == b,
{
    crate::algebra::lemma_wf_unique(sealed, b);
}

/// State for an in-progress fueled merge of two batches.
pub struct OrdZSetMerger {
    /// The result being assembled.
    pub result: OrderedLeafBuilder,
}

impl OrdZSetMerger {
    /// Allocates a merger with capacity for the merge of the two batches.
    pub fn new(batch1: &OrdZSet, batch2: &OrdZSet) -> (r: Self)
        ensures
            r.result.vals@.len() == 0,
    {
        OrdZSetMerger { result: OrderedLeafBuilder::with_capacity(&batch1.layer, &batch2.layer) }
    }

    /// Performs the merge work, decrementing `fuel` by one unit per tuple
    /// and leaving at least one unit so that progress is guaranteed.
    pub fn work(&mut self, source1: &OrdZSet, source2: &OrdZSet, fuel: &mut isize)
        requires
            old(self).result.vals@.len() == 0,
            source1.wf(),
            source2.wf(),
        ensures
            wf_zset(final(self).result.vals@),
            forall|k: u64|
                seq_weight(final(self).result.vals@, k) == wadd(
                    seq_weight(source1@, k),
                    seq_weight(source2@, k),
                ),
            *final(fuel) >= 1,
            *old(fuel) - final(self).result.vals@.len() >= 1 ==> *final(fuel) == *old(fuel)
                - final(self).result.vals@.len(),
    {
        let ghost pre = self.result.vals@;
        let c1 = source1.cursor();
        let c2 = source2.cursor();
        let worked = self.result.push_merge((&source1.layer, c1), (&source2.layer, c2));
        proof {
            assert(self.result.vals@.skip(pre.len() as int) =~= self.result.vals@);
            assert(source1.layer@.subrange(c1.bounds.0 as int, c1.bounds.1 as int)
                =~= source1.layer@);
            assert(source2.layer@.subrange(c2.bounds.0 as int, c2.bounds.1 as int)
                =~= source2.layer@);
            assert forall|k: u64|
                seq_weight(self.result.vals@, k) == wadd(
                    seq_weight(source1@, k),
                    seq_weight(source2@, k),
                ) by {
                assert(seq_weight(self.result.vals@.skip(pre.len() as int), k) == wadd(
                    seq_weight(
                        source1.layer@.subrange(c1.bounds.0 as int, c1.bounds.1 as int),
                        k,
                    ),
                    seq_weight(
                        source2.layer@.subrange(c2.bounds.0 as int, c2.bounds.1 as int),
                        k,
                    ),
                ));
            }
        }
        // One unit of fuel per tuple in the result, clamped to guarantee
        // forward progress.
        let spent = if worked <= isize::MAX as usize {
            worked as isize
        } else {
            isize::MAX
        };
        if *fuel >= isize::MIN + spent {
            *fuel = *fuel - spent;
        } else {
            *fuel = isize::MIN;
        }
        if *fuel < 1 {
            *fuel = 1;
        }
    }

    /// Extracts the merged batch once the merge is exhausted.
    pub fn done(self) -> (r: OrdZSet)
        requires
            wf_zset(self.result.vals@),
        ensures
            r.wf(),
            r@ == self.result.vals@,
            r.lower.has_elem,
            !r.upper.has_elem,
    {
        OrdZSet {
            layer: self.result.done(),
            lower: Antichain::from_elem(()),
            upper: Antichain::new(),
        }
    }
}

} // verus!
