//! The leaf level of the trie: ordered `(key, weight)` tuples with
//! exponential-search navigation and algebraic merging.

use vstd::prelude::*;

use crate::algebra::{
    lemma_seq_weight_concat, lemma_seq_weight_push, lemma_wadd_rearrange, lemma_wadd_zero,
    lemma_wf_concat, same_weights, seq_weight, sorted_strict, wadd, wf_zset, wf_zset_range, wneg,
    AddByRef, HasZero, NegByRef,
};
use crate::consolidation::consolidate_slice;
use crate::trace::layers::advance;

verus! {

/// A layer of ordered values: a sorted, zero-free vector of tuples.
#[derive(Debug, Clone, PartialEq, Eq)]
pub struct OrderedLeaf {
    /// The tuples, sorted strictly ascending by key.
    pub vals: Vec<(u64, i64)>,
}

impl View for OrderedLeaf {
    type V = Seq<(u64, i64)>;

    open spec fn view(&self) -> Seq<(u64, i64)> {
        self.vals@
    }
}

impl OrderedLeaf {
    /// Canonical-representation invariant: keys strictly ascending and no
    /// tuple with weight zero.
    pub open spec fn wf(self) -> bool {
        wf_zset(self@)
    }

    /// The number of distinct keys, as distinct from the total number of
    /// tuples.
    pub fn keys(&self) -> (r: usize)
        ensures
            r == self@.len(),
    {
        self.vals.len()
    }

    /// The total number of tuples in the collection.
    pub fn tuples(&self) -> (r: usize)
        ensures
            r == self@.len(),
    {
        self.vals.len()
    }

    /// True if `self.keys()` is zero.
    pub fn is_empty(&self) -> (r: bool)
        ensures
            r == (self@.len() == 0),
    {
        self.vals.len() == 0
    }

    /// Returns a cursor over a range of data, commonly used to restrict
    /// navigation to sub-collections.
    pub fn cursor_from(&self, lower: usize, upper: usize) -> (c: OrderedLeafCursor)
        requires
            lower <= upper <= self@.len(),
        ensures
            c.pos == lower,
            c.bounds == (lower, upper),
    {
        OrderedLeafCursor { pos: lower, bounds: (lower, upper) }
    }

    /// Returns a cursor capable of navigating the whole collection.
    pub fn cursor(&self) -> (c: OrderedLeafCursor)
        ensures
            c.pos == 0,
            c.bounds.0 == 0,
            c.bounds.1 == self@.len(),
    {
        self.cursor_from(0, self.vals.len())
    }

    /// Merges two collections into a third, accumulating weights of shared
    /// keys and discarding tuples whose summed weight is zero.
    pub fn merge(&self, other: &Self) -> (r: Self)
        requires
            self.wf(),
            other.wf(),
        ensures
            r.wf(),
            forall|k: u64|
                seq_weight(r@, k) == wadd(seq_weight(self@, k), seq_weight(other@, k)),
    {
        let mut merger = OrderedLeafBuilder::with_capacity(self, other);
        let ghost pre = merger.vals@;
        let c1 = self.cursor();
        let c2 = other.cursor();
        merger.push_merge((self, c1), (other, c2));
        let ghost gvals = merger.vals@;
        proof {
            assert(gvals.skip(pre.len() as int) =~= gvals);
            assert(self@.subrange(c1.bounds.0 as int, c1.bounds.1 as int) =~= self@);
            assert(other@.subrange(c2.bounds.0 as int, c2.bounds.1 as int) =~= other@);
        }
        let r = merger.done();
        proof {
            assert forall|k: u64|
                seq_weight(r@, k) == wadd(seq_weight(self@, k), seq_weight(other@, k)) by {
                assert(seq_weight(gvals.skip(pre.len() as int), k) == wadd(
                    seq_weight(self@.subrange(c1.bounds.0 as int, c1.bounds.1 as int), k),
                    seq_weight(other@.subrange(c2.bounds.0 as int, c2.bounds.1 as int), k),
                ));
            }
        }
        r
    }
}

/// A builder for ordered values, fed by ranges of already sorted tuples.
pub struct OrderedLeafBuilder {
    /// The tuples accumulated so far.
    pub vals: Vec<(u64, i64)>,
}

impl OrderedLeafBuilder {
    /// Allocates a builder with capacity for the merge of the two tries.
    pub fn with_capacity(other1: &OrderedLeaf, other2: &OrderedLeaf) -> (r: Self)
        ensures
            r.vals@.len() == 0,
    {
        let cap = if usize::MAX - other1.vals.len() >= other2.vals.len() {
            other1.vals.len() + other2.vals.len()
        } else {
            usize::MAX
        };
        OrderedLeafBuilder { vals: Vec::with_capacity(cap) }
    }

    /// Allocates a builder with capacity for `cap` tuples.
    pub fn with_key_capacity(cap: usize) -> (r: Self)
        ensures
            r.vals@.len() == 0,
    {
        OrderedLeafBuilder { vals: Vec::with_capacity(cap) }
    }

    /// Allocates an empty builder.
    pub fn new() -> (r: Self)
        ensures
            r.vals@.len() == 0,
    {
        OrderedLeafBuilder { vals: Vec::new() }
    }

    /// Reports the number of tuples pushed so far, the boundary a parent
    /// layer records as an offset.
    pub fn boundary(&mut self) -> (r: usize)
        ensures
            *final(self) == *old(self),
            r == final(self).vals@.len(),
    {
        self.vals.len()
    }

    /// Pushes one tuple; the caller feeds tuples in strictly ascending key
    /// order to keep the result canonical.
    pub fn push_tuple(&mut self, tuple: (u64, i64))
        ensures
            final(self).vals@ == old(self).vals@.push(tuple),
    {
        self.vals.push(tuple)
    }

    /// Reports the number of tuples pushed so far.
    pub fn tuples(&self) -> (r: usize)
        ensures
            r == self.vals@.len(),
    {
        self.vals.len()
    }

    /// Finalizes the building process and returns the collection.
    pub fn done(self) -> (r: OrderedLeaf)
        requires
            wf_zset(self.vals@),
        ensures
            r.wf(),
            r@ == self.vals@,
    {
        OrderedLeaf { vals: self.vals }
    }

    /// Copies the range `other[lower..upper]` into this collection.
    pub fn copy_range(&mut self, other: &OrderedLeaf, lower: usize, upper: usize)
        requires
            lower <= upper <= other@.len(),
        ensures
            final(self).vals@ == old(self).vals@ + other@.subrange(lower as int, upper as int),
    {
        let mut i = lower;
        while i < upper
            invariant
                lower <= i <= upper <= other@.len(),
                self.vals@ == old(self).vals@ + other@.subrange(lower as int, i as int),
            decreases upper - i,
        {
            self.vals.push(other.vals[i]);
            proof {
                assert(self.vals@ =~= old(self).vals@ + other@.subrange(lower as int, i + 1));
            }
            i += 1;
        }
    }

    /// Merges the two cursor-delimited ranges of sorted tries into this
    /// collection, appending one canonical run that carries, for every key,
    /// the summed weight of the two ranges. Returns the total number of
    /// tuples in the builder.
    #[verifier::rlimit(50)]
    pub fn push_merge(
        &mut self,
        other1: (&OrderedLeaf, OrderedLeafCursor),
        other2: (&OrderedLeaf, OrderedLeafCursor),
    ) -> (r: usize)
        requires
            wf_zset_range(other1.0@, other1.1.bounds.0 as int, other1.1.bounds.1 as int),
            wf_zset_range(other2.0@, other2.1.bounds.0 as int, other2.1.bounds.1 as int),
            other1.1.bounds.0 <= other1.1.bounds.1 <= other1.0@.len(),
            other2.1.bounds.0 <= other2.1.bounds.1 <= other2.0@.len(),
        ensures
            r == final(self).vals@.len(),
            final(self).vals@.len() >= old(self).vals@.len(),
            final(self).vals@.take(old(self).vals@.len() as int) == old(self).vals@,
            wf_zset(final(self).vals@.skip(old(self).vals@.len() as int)),
            forall|k: u64|
                seq_weight(final(self).vals@.skip(old(self).vals@.len() as int), k) == wadd(
                    seq_weight(
                        other1.0@.subrange(other1.1.bounds.0 as int, other1.1.bounds.1 as int),
                        k,
                    ),
                    seq_weight(
                        other2.0@.subrange(other2.1.bounds.0 as int, other2.1.bounds.1 as int),
                        k,
                    ),
                ),
    {
        let (trie1, cursor1) = other1;
        let (trie2, cursor2) = other2;
        let mut lower1 = cursor1.bounds.0;
        let upper1 = cursor1.bounds.1;
        let mut lower2 = cursor2.bounds.0;
        let upper2 = cursor2.bounds.1;
        let ghost base = self.vals@;
        let ghost lo1 = lower1 as int;
        let ghost lo2 = lower2 as int;

        // While both mergees are still active.
        while lower1 < upper1 && lower2 < upper2
            invariant
                wf_zset_range(trie1@, lo1, upper1 as int),
                wf_zset_range(trie2@, lo2, upper2 as int),
                0 <= lo1 <= lower1 as int <= upper1 <= trie1@.len(),
                0 <= lo2 <= lower2 as int <= upper2 <= trie2@.len(),
                self.vals@.len() >= base.len(),
                self.vals@.take(base.len() as int) == base,
                wf_zset(self.vals@.skip(base.len() as int)),
                forall|k: u64|
                    seq_weight(self.vals@.skip(base.len() as int), k) == wadd(
                        seq_weight(trie1@.subrange(lo1, lower1 as int), k),
                        seq_weight(trie2@.subrange(lo2, lower2 as int), k),
                    ),
                self.vals@.len() > base.len() && (lower1 as int) < upper1 ==> self.vals@.last().0
                    < trie1@[lower1 as int].0,
                self.vals@.len() > base.len() && (lower2 as int) < upper2 ==> self.vals@.last().0
                    < trie2@[lower2 as int].0,
            decreases (upper1 - lower1) + (upper2 - lower2),
        {
            let k1 = trie1.vals[lower1].0;
            let k2 = trie2.vals[lower2].0;
            if k1 == k2 {
                let sum = trie1.vals[lower1].1.wrapping_add(trie2.vals[lower2].1);
                let ghost m_old = self.vals@.skip(base.len() as int);
                if sum != 0 {
                    self.vals.push((k1, sum));
                }
                proof {
                    let c1_old = trie1@.subrange(lo1, lower1 as int);
                    let c2_old = trie2@.subrange(lo2, lower2 as int);
                    let c1_new = trie1@.subrange(lo1, lower1 + 1);
                    let c2_new = trie2@.subrange(lo2, lower2 + 1);
                    assert(c1_new =~= c1_old.push(trie1@[lower1 as int]));
                    assert(c2_new =~= c2_old.push(trie2@[lower2 as int]));
                    let m_new = self.vals@.skip(base.len() as int);
                    if sum != 0 {
                        assert(m_new =~= m_old.push((k1, sum)));
                        assert(self.vals@.take(base.len() as int) =~= base);
                        lemma_wf_concat(m_old, seq![(k1, sum)]);
                        assert(m_old + seq![(k1, sum)] =~= m_new);
                    }
                    assert forall|k: u64|
                        seq_weight(m_new, k) == wadd(
                            seq_weight(c1_new, k),
                            seq_weight(c2_new, k),
                        ) by {
                        lemma_seq_weight_push(
                            c1_old,
                            trie1@[lower1 as int],
                            k,
                        );
                        lemma_seq_weight_push(
                            c2_old,
                            trie2@[lower2 as int],
                            k,
                        );
                        let w1 = if k1 == k { trie1@[lower1 as int].1 } else { 0i64 };
                        let w2 = if k2 == k { trie2@[lower2 as int].1 } else { 0i64 };
                        lemma_wadd_rearrange(
                            seq_weight(c1_old, k),
                            seq_weight(c2_old, k),
                            w1,
                            w2,
                        );
                        if sum != 0 {
                            lemma_seq_weight_push(m_old, (k1, sum), k);
                        } else {
                            if k == k1 {
                                lemma_wadd_zero(seq_weight(m_old, k));
                            } else {
                                lemma_wadd_zero(wadd(seq_weight(c1_old, k), seq_weight(c2_old, k)));
                            }
                        }
                    }
                }
                lower1 += 1;
                lower2 += 1;
            } else if k1 < k2 {
                // Determine how far we can advance lower1 until we reach or
                // pass lower2's key.
                let below2 = |x: &(u64, i64)| -> (b: bool)
                    ensures
                        b == (x.0 < k2),
                    {
                        x.0 < k2
                    };
                let adv = advance(
                    &trie1.vals,
                    lower1 + 1,
                    upper1,
                    below2,
                    Ghost(|t: (u64, i64)| t.0 < k2),
                );
                let step0 = 1 + adv;
                let step = if step0 < 1000 {
                    step0
                } else {
                    1000
                };
                let ghost m_old = self.vals@.skip(base.len() as int);
                self.copy_range(trie1, lower1, lower1 + step);
                proof {
                    let run = trie1@.subrange(lower1 as int, lower1 + step);
                    let m_new = self.vals@.skip(base.len() as int);
                    assert(m_new =~= m_old + run);
                    assert(self.vals@.take(base.len() as int) =~= base);
                    assert(forall|j: int|
                        lower1 as int <= j < lower1 + step ==> trie1@[j].0 < k2);
                    lemma_wf_concat(m_old, run);
                    let c1_old = trie1@.subrange(lo1, lower1 as int);
                    let c1_new = trie1@.subrange(lo1, lower1 + step);
                    assert(c1_new =~= c1_old + run);
                    assert forall|k: u64|
                        seq_weight(m_new, k) == wadd(
                            seq_weight(c1_new, k),
                            seq_weight(trie2@.subrange(lo2, lower2 as int), k),
                        ) by {
                        lemma_seq_weight_concat(m_old, run, k);
                        lemma_seq_weight_concat(c1_old, run, k);
                        let a2 = seq_weight(trie2@.subrange(lo2, lower2 as int), k);
                        lemma_wadd_rearrange(
                            seq_weight(c1_old, k),
                            a2,
                            seq_weight(run, k),
                            0i64,
                        );
                        lemma_wadd_zero(a2);
                        lemma_wadd_zero(seq_weight(run, k));
                    }
                }
                lower1 += step;
            } else {
                // Symmetric: advance lower2 until we reach or pass lower1's
                // key.
                let below1 = |x: &(u64, i64)| -> (b: bool)
                    ensures
                        b == (x.0 < k1),
                    {
                        x.0 < k1
                    };
                let adv = advance(
                    &trie2.vals,
                    lower2 + 1,
                    upper2,
                    below1,
                    Ghost(|t: (u64, i64)| t.0 < k1),
                );
                let step0 = 1 + adv;
                let step = if step0 < 1000 {
                    step0
                } else {
                    1000
                };
                let ghost m_old = self.vals@.skip(base.len() as int);
                self.copy_range(trie2, lower2, lower2 + step);
                proof {
                    let run = trie2@.subrange(lower2 as int, lower2 + step);
                    let m_new = self.vals@.skip(base.len() as int);
                    assert(m_new =~= m_old + run);
                    assert(self.vals@.take(base.len() as int) =~= base);
                    assert(forall|j: int|
                        lower2 as int <= j < lower2 + step ==> trie2@[j].0 < k1);
                    lemma_wf_concat(m_old, run);
                    let c2_old = trie2@.subrange(lo2, lower2 as int);
                    let c2_new = trie2@.subrange(lo2, lower2 + step);
                    assert(c2_new =~= c2_old + run);
                    assert forall|k: u64|
                        seq_weight(m_new, k) == wadd(
                            seq_weight(trie1@.subrange(lo1, lower1 as int), k),
                            seq_weight(c2_new, k),
                        ) by {
                        lemma_seq_weight_concat(m_old, run, k);
                        lemma_seq_weight_concat(c2_old, run, k);
                        let a1 = seq_weight(trie1@.subrange(lo1, lower1 as int), k);
                        lemma_wadd_rearrange(
                            a1,
                            seq_weight(c2_old, k),
                            0i64,
                            seq_weight(run, k),
                        );
                        lemma_wadd_zero(a1);
                        lemma_wadd_zero(seq_weight(run, k));
                    }
                }
                lower2 += step;
            }
        }

        if lower1 < upper1 {
            let ghost m_old = self.vals@.skip(base.len() as int);
            self.copy_range(trie1, lower1, upper1);
            proof {
                let run = trie1@.subrange(lower1 as int, upper1 as int);
                let m_new = self.vals@.skip(base.len() as int);
                assert(m_new =~= m_old + run);
                assert(self.vals@.take(base.len() as int) =~= base);
                lemma_wf_concat(m_old, run);
                let c1_old = trie1@.subrange(lo1, lower1 as int);
                let c1_new = trie1@.subrange(lo1, upper1 as int);
                assert(c1_new =~= c1_old + run);
                assert forall|k: u64|
                    seq_weight(m_new, k) == wadd(
                        seq_weight(c1_new, k),
                        seq_weight(trie2@.subrange(lo2, lower2 as int), k),
                    ) by {
                    lemma_seq_weight_concat(m_old, run, k);
                    lemma_seq_weight_concat(c1_old, run, k);
                    let a2 = seq_weight(trie2@.subrange(lo2, lower2 as int), k);
                    lemma_wadd_rearrange(
                        seq_weight(c1_old, k),
                        a2,
                        seq_weight(run, k),
                        0i64,
                    );
                    lemma_wadd_zero(a2);
                    lemma_wadd_zero(seq_weight(run, k));
                }
            }
        } else if lower2 < upper2 {
            let ghost m_old = self.vals@.skip(base.len() as int);
            self.copy_range(trie2, lower2, upper2);
            proof {
                let run = trie2@.subrange(lower2 as int, upper2 as int);
                let m_new = self.vals@.skip(base.len() as int);
                assert(m_new =~= m_old + run);
                assert(self.vals@.take(base.len() as int) =~= base);
                lemma_wf_concat(m_old, run);
                let c2_old = trie2@.subrange(lo2, lower2 as int);
                let c2_new = trie2@.subrange(lo2, upper2 as int);
                assert(c2_new =~= c2_old + run);
                assert forall|k: u64|
                    seq_weight(m_new, k) == wadd(
                        seq_weight(trie1@.subrange(lo1, lower1 as int), k),
                        seq_weight(c2_new, k),
                    ) by {
                    lemma_seq_weight_concat(m_old, run, k);
                    lemma_seq_weight_concat(c2_old, run, k);
                    let a1 = seq_weight(trie1@.subrange(lo1, lower1 as int), k);
                    lemma_wadd_rearrange(
                        a1,
                        seq_weight(c2_old, k),
                        0i64,
                        seq_weight(run, k),
                    );
                    lemma_wadd_zero(a1);
                    lemma_wadd_zero(seq_weight(run, k));
                }
            }
        }

        self.vals.len()
    }
}

impl OrderedLeaf {
    /// Merges two owned collections, reusing either side when the other is
    /// empty.
    pub fn add(self, rhs: Self) -> (r: Self)
        requires
            self.wf(),
            rhs.wf(),
        ensures
            r.wf(),
            forall|k: u64| seq_weight(r@, k) == wadd(seq_weight(self@, k), seq_weight(rhs@, k)),
    {
        if self.is_empty() {
            proof {
                assert forall|k: u64|
                    seq_weight(rhs@, k) == wadd(seq_weight(self@, k), seq_weight(rhs@, k)) by {
                    lemma_wadd_zero(seq_weight(rhs@, k));
                }
            }
            rhs
        } else if rhs.is_empty() {
            proof {
                assert forall|k: u64|
                    seq_weight(self@, k) == wadd(seq_weight(self@, k), seq_weight(rhs@, k)) by {
                    lemma_wadd_zero(seq_weight(self@, k));
                }
            }
            self
        } else {
            self.merge(&rhs)
        }
    }

    /// Merges an owned collection into this one.
    pub fn add_assign(&mut self, rhs: Self)
        requires
            old(self).wf(),
            rhs.wf(),
        ensures
            final(self).wf(),
            forall|k: u64|
                seq_weight(final(self)@, k) == wadd(seq_weight(old(self)@, k), seq_weight(rhs@, k)),
    {
        if !rhs.is_empty() {
            let merged = self.merge(&rhs);
            *self = merged;
        } else {
            proof {
                assert forall|k: u64|
                    seq_weight(self@, k) == wadd(seq_weight(self@, k), seq_weight(rhs@, k)) by {
                    lemma_wadd_zero(seq_weight(self@, k));
                }
            }
        }
    }

    /// Merges a borrowed collection into this one.
    pub fn add_assign_by_ref(&mut self, other: &Self)
        requires
            old(self).wf(),
            other.wf(),
        ensures
            final(self).wf(),
            forall|k: u64|
                seq_weight(final(self)@, k) == wadd(
                    seq_weight(old(self)@, k),
                    seq_weight(other@, k),
                ),
    {
        if !other.is_empty() {
            let merged = self.merge(other);
            *self = merged;
        } else {
            proof {
                assert forall|k: u64|
                    seq_weight(self@, k) == wadd(seq_weight(self@, k), seq_weight(other@, k)) by {
                    lemma_wadd_zero(seq_weight(self@, k));
                }
            }
        }
    }

    /// Negates every weight, producing the group inverse of the Z-set.
    pub fn neg(self) -> (r: Self)
        ensures
            r@.len() == self@.len(),
            forall|i: int|
                0 <= i < self@.len() ==> r@[i] == (self@[i].0, wneg(self@[i].1)),
            self.wf() ==> r.wf(),
    {
        self.neg_by_ref()
    }
}

impl crate::algebra::HasZero for OrderedLeaf {
    open spec fn spec_is_zero(self) -> bool {
        self@.len() == 0
    }

    fn zero() -> (r: Self) {
        OrderedLeaf { vals: Vec::new() }
    }

    fn is_zero(&self) -> (r: bool) {
        self.vals.len() == 0
    }
}

impl AddByRef for OrderedLeaf {
    open spec fn sound(self) -> bool {
        self.wf()
    }

    open spec fn add_rel(self, other: Self, result: Self) -> bool {
        &&& result.wf()
        &&& forall|k: u64|
            seq_weight(result@, k) == wadd(seq_weight(self@, k), seq_weight(other@, k))
    }

    fn add_by_ref(&self, other: &Self) -> (r: Self) {
        self.merge(other)
    }
}

impl NegByRef for OrderedLeaf {
    open spec fn neg_rel(self, result: Self) -> bool {
        &&& result@.len() == self@.len()
        &&& forall|i: int| 0 <= i < self@.len() ==> result@[i] == (self@[i].0, wneg(self@[i].1))
        &&& self.wf() ==> result.wf()
    }

    fn neg_by_ref(&self) -> (r: Self) {
        let mut vals: Vec<(u64, i64)> = Vec::with_capacity(self.vals.len());
        let mut i: usize = 0;
        while i < self.vals.len()
            invariant
                0 <= i <= self@.len(),
                vals@.len() == i,
                forall|j: int| 0 <= j < i ==> vals@[j] == (self@[j].0, wneg(self@[j].1)),
            decreases self@.len() - i,
        {
            let (k, w) = self.vals[i];
            vals.push((k, 0i64.wrapping_sub(w)));
            i += 1;
        }
        let r = OrderedLeaf { vals };
        proof {
            if r@.len() == self@.len() && self.wf() {
                assert(forall|i: int|
                    0 <= i < r@.len() ==> (#[trigger] r@[i]).0 == self@[i].0);
                assert forall|i: int| 0 <= i < r@.len() implies (#[trigger] r@[i]).1 != 0i64 by {
                    assert(self@[i].1 != 0i64);
                }
            }
        }
        r
    }
}

/// A builder for unordered tuples, consolidated at each boundary.
pub struct UnorderedLeafBuilder {
    /// The tuples pushed so far; those before `boundary` are consolidated.
    pub vals: Vec<(u64, i64)>,
    /// How much of `vals` has already been consolidated.
    pub boundary: usize,
}

impl UnorderedLeafBuilder {
    /// The boundary lies within the tuples pushed so far. Each boundary
    /// call consolidates only the pending tail, so tuples before distinct
    /// boundaries form separately canonical runs, not one sorted whole.
    pub open spec fn wf(self) -> bool {
        self.boundary <= self.vals@.len()
    }

    /// Allocates an empty builder.
    pub fn new() -> (r: Self)
        ensures
            r.vals@.len() == 0,
            r.boundary == 0,
            r.wf(),
    {
        proof {
            assert(Seq::<(u64, i64)>::empty().take(0) =~= Seq::<(u64, i64)>::empty());
        }
        UnorderedLeafBuilder { vals: Vec::new(), boundary: 0 }
    }

    /// Allocates a builder with capacity for `cap` tuples.
    pub fn with_capacity(cap: usize) -> (r: Self)
        ensures
            r.vals@.len() == 0,
            r.boundary == 0,
            r.wf(),
    {
        proof {
            assert(Seq::<(u64, i64)>::empty().take(0) =~= Seq::<(u64, i64)>::empty());
        }
        UnorderedLeafBuilder { vals: Vec::with_capacity(cap), boundary: 0 }
    }

    /// Pushes one tuple, in any order.
    pub fn push_tuple(&mut self, tuple: (u64, i64))
        requires
            old(self).wf(),
        ensures
            final(self).wf(),
            final(self).vals@ == old(self).vals@.push(tuple),
            final(self).boundary == old(self).boundary,
    {
        self.vals.push(tuple);
        proof {
            assert(self.vals@.take(self.boundary as int) =~= old(self).vals@.take(
                self.boundary as int,
            ));
        }
    }

    /// Reports the number of tuples pushed so far.
    pub fn tuples(&self) -> (r: usize)
        ensures
            r == self.vals@.len(),
    {
        self.vals.len()
    }

    /// Consolidates the pending tail, truncates to the survivors, and
    /// reports the new boundary.
    pub fn boundary(&mut self) -> (r: usize)
        requires
            old(self).wf(),
        ensures
            final(self).wf(),
            r == final(self).boundary == final(self).vals@.len(),
            old(self).boundary <= final(self).vals@.len(),
            final(self).vals@.take(old(self).boundary as int) == old(self).vals@.take(
                old(self).boundary as int,
            ),
            wf_zset(final(self).vals@.skip(old(self).boundary as int)),
            same_weights(
                final(self).vals@.skip(old(self).boundary as int),
                old(self).vals@.skip(old(self).boundary as int),
            ),
    {
        consolidate_slice(&mut self.vals, self.boundary);
        self.boundary = self.vals.len();
        proof {
            assert(self.vals@.take(self.vals@.len() as int) =~= self.vals@);
        }
        self.boundary
    }

    /// Finalizes the building process, consolidating any final tail: the
    /// tuples before the boundary are kept as they stand, and the pending
    /// tail is replaced by its canonical consolidation.
    ///
    /// When no intermediate boundary was taken, the result is the canonical
    /// Z-set of everything pushed.
    pub fn done(self) -> (r: OrderedLeaf)
        requires
            self.wf(),
        ensures
            self.boundary <= r@.len(),
            r@.take(self.boundary as int) == self.vals@.take(self.boundary as int),
            wf_zset(r@.skip(self.boundary as int)),
            same_weights(r@.skip(self.boundary as int), self.vals@.skip(self.boundary as int)),
            self.boundary == 0 ==> r.wf() && same_weights(r@, self.vals@),
    {
        let ghost pre = self;
        let mut building = self;
        building.boundary();
        proof {
            if pre.boundary == 0 {
                assert(building.vals@.skip(0) =~= building.vals@);
                assert(pre.vals@.skip(0) =~= pre.vals@);
            }
        }
        OrderedLeaf { vals: building.vals }
    }
}

/// Law: taking a boundary twice equals taking it once. `first` is any
/// builder state left by a `boundary` call (its boundary sits at the end
/// of its tuples), and `second` any state meeting `boundary`'s contract
/// applied to `first`: then `second` is `first` unchanged — consolidating
/// an already consolidated tail is the identity.
pub proof fn lemma_boundary_idempotent(first: UnorderedLeafBuilder, second: UnorderedLeafBuilder)
    requires
        first.boundary == first.vals@.len(),
        first.boundary <= second.vals@.len(),
        second.vals@.take(first.boundary as int) == first.vals@.take(first.boundary as int),
        wf_zset(second.vals@.skip(first.boundary as int)),
        same_weights(
            second.vals@.skip(first.boundary as int),
            first.vals@.skip(first.boundary as int),
        ),
        second.boundary == second.vals@.len(),
    ensures
        second.vals@ == first.vals@,
        second.boundary == first.boundary,
{
    let n = first.boundary as int;
    let tail = second.vals@.skip(n);
    let empty = Seq::<(u64, i64)>::empty();
    assert(first.vals@.skip(n) =~= empty);
    assert forall|k: u64| seq_weight(tail, k) == seq_weight(empty, k) by {
        assert(seq_weight(empty, k) == 0i64);
    }
    crate::algebra::lemma_wf_unique(tail, empty);
    assert(second.vals@ =~= second.vals@.take(n));
    assert(first.vals@ =~= first.vals@.take(n));
}

impl crate::trace::layers::Trie for OrderedLeaf {
    type Item = (u64, i64);

    type Cursor = OrderedLeafCursor;

    type MergeBuilder = OrderedLeafBuilder;

    type TupleBuilder = UnorderedLeafBuilder;

    fn keys(&self) -> usize {
        OrderedLeaf::keys(self)
    }

    fn tuples(&self) -> usize {
        OrderedLeaf::tuples(self)
    }

    fn is_empty(&self) -> bool {
        OrderedLeaf::is_empty(self)
    }
}

impl crate::trace::layers::Builder for OrderedLeafBuilder {
    type Trie = OrderedLeaf;

    open spec fn done_pre(self) -> bool {
        wf_zset(self.vals@)
    }

    open spec fn boundary_pre(self) -> bool {
        true
    }

    fn boundary(&mut self) -> usize {
        OrderedLeafBuilder::boundary(self)
    }

    fn done(self) -> OrderedLeaf {
        OrderedLeafBuilder::done(self)
    }
}

impl crate::trace::layers::MergeBuilder for OrderedLeafBuilder {
    fn with_capacity(other1: &OrderedLeaf, other2: &OrderedLeaf) -> Self {
        OrderedLeafBuilder::with_capacity(other1, other2)
    }

    fn with_key_capacity(cap: usize) -> Self {
        OrderedLeafBuilder::with_key_capacity(cap)
    }
}

impl crate::trace::layers::TupleBuilder for OrderedLeafBuilder {
    type Item = (u64, i64);

    open spec fn push_pre(self, tuple: (u64, i64)) -> bool {
        true
    }

    fn new() -> Self {
        OrderedLeafBuilder::new()
    }

    fn push_tuple(&mut self, tuple: (u64, i64)) {
        OrderedLeafBuilder::push_tuple(self, tuple)
    }

    fn tuples(&self) -> usize {
        OrderedLeafBuilder::tuples(self)
    }
}

impl crate::trace::layers::Builder for UnorderedLeafBuilder {
    type Trie = OrderedLeaf;

    open spec fn done_pre(self) -> bool {
        self.wf()
    }

    open spec fn boundary_pre(self) -> bool {
        self.wf()
    }

    fn boundary(&mut self) -> usize {
        UnorderedLeafBuilder::boundary(self)
    }

    fn done(self) -> OrderedLeaf {
        UnorderedLeafBuilder::done(self)
    }
}

impl crate::trace::layers::TupleBuilder for UnorderedLeafBuilder {
    type Item = (u64, i64);

    open spec fn push_pre(self, tuple: (u64, i64)) -> bool {
        self.wf()
    }

    fn new() -> Self {
        UnorderedLeafBuilder::new()
    }

    fn push_tuple(&mut self, tuple: (u64, i64)) {
        UnorderedLeafBuilder::push_tuple(self, tuple)
    }

    fn tuples(&self) -> usize {
        UnorderedLeafBuilder::tuples(self)
    }
}

impl crate::trace::layers::Cursor<OrderedLeaf> for OrderedLeafCursor {
    open spec fn nav_pre(self, storage: OrderedLeaf) -> bool {
        self.wf_for(storage) && self.pos < self.bounds.1
    }

    open spec fn rewind_pre(self, storage: OrderedLeaf) -> bool {
        true
    }

    open spec fn range_pre(storage: OrderedLeaf, lower: usize, upper: usize) -> bool {
        lower <= upper <= storage@.len()
    }

    fn valid(&self, storage: &OrderedLeaf) -> bool {
        OrderedLeafCursor::valid(self, storage)
    }

    fn step(&mut self, storage: &OrderedLeaf) {
        OrderedLeafCursor::step(self, storage)
    }

    fn rewind(&mut self, storage: &OrderedLeaf) {
        OrderedLeafCursor::rewind(self, storage)
    }

    fn reposition(&mut self, storage: &OrderedLeaf, lower: usize, upper: usize) {
        OrderedLeafCursor::reposition(self, storage, lower, upper)
    }
}

/// Law: merging any Z-set with the zero (empty) Z-set returns the first
/// argument unchanged. `r` is any result meeting `merge`'s contract.
pub proof fn lemma_merge_zero(a: OrderedLeaf, z: OrderedLeaf, r: OrderedLeaf)
    requires
        a.wf(),
        z@.len() == 0,
        r.wf(),
        forall|k: u64| seq_weight(r@, k) == wadd(seq_weight(a@, k), seq_weight(z@, k)),
    ensures
        r@ == a@,
{
    assert forall|k: u64| seq_weight(r@, k) == seq_weight(a@, k) by {
        lemma_wadd_zero(seq_weight(a@, k));
    }
    crate::algebra::lemma_wf_unique(r@, a@);
}

/// Law: a Z-set merged with its negation cancels entirely: weights form
/// an abelian group, so `merge(a, neg(a))` is the zero Z-set. `n` is the
/// negation and `r` any result meeting `merge`'s contract.
pub proof fn lemma_merge_neg_cancels(a: OrderedLeaf, n: OrderedLeaf, r: OrderedLeaf)
    requires
        a.wf(),
        n@.len() == a@.len(),
        forall|i: int| 0 <= i < a@.len() ==> n@[i] == (a@[i].0, wneg(a@[i].1)),
        r.wf(),
        forall|k: u64| seq_weight(r@, k) == wadd(seq_weight(a@, k), seq_weight(n@, k)),
    ensures
        r@.len() == 0,
{
    assert forall|k: u64| seq_weight(r@, k) == 0i64 by {
        crate::algebra::lemma_seq_weight_neg(a@, n@, k);
        crate::algebra::lemma_wadd_inverse(seq_weight(a@, k));
    }
    let empty = Seq::<(u64, i64)>::empty();
    assert forall|k: u64| seq_weight(r@, k) == seq_weight(empty, k) by {
        assert(seq_weight(empty, k) == 0i64);
    }
    crate::algebra::lemma_wf_unique(r@, empty);
}

/// Law: merging is commutative. `r1` and `r2` are any results meeting
/// `merge`'s contract for the two argument orders; they are equal.
pub proof fn lemma_merge_comm(a: OrderedLeaf, b: OrderedLeaf, r1: OrderedLeaf, r2: OrderedLeaf)
    requires
        a.wf(),
        b.wf(),
        r1.wf(),
        r2.wf(),
        forall|k: u64| seq_weight(r1@, k) == wadd(seq_weight(a@, k), seq_weight(b@, k)),
        forall|k: u64| seq_weight(r2@, k) == wadd(seq_weight(b@, k), seq_weight(a@, k)),
    ensures
        r1@ == r2@,
{
    assert forall|k: u64| seq_weight(r1@, k) == seq_weight(r2@, k) by {
        crate::algebra::lemma_wadd_comm(seq_weight(a@, k), seq_weight(b@, k));
    }
    crate::algebra::lemma_wf_unique(r1@, r2@);
}

/// A cursor for walking through a range of a sorted leaf.
#[derive(Clone, Copy, Debug)]
pub struct OrderedLeafCursor {
    /// Current position within the storage.
    pub pos: usize,
    /// The navigable range, lower inclusive, upper exclusive.
    pub bounds: (usize, usize),
}

impl OrderedLeafCursor {
    /// The cursor's range lies within the storage and its position within
    /// the range.
    pub open spec fn wf_for(self, storage: OrderedLeaf) -> bool {
        self.bounds.0 <= self.pos <= self.bounds.1 <= storage@.len()
    }

    /// Advances the cursor to the first tuple of the range at or after the
    /// given key, skipping with exponential search.
    pub fn seek_key(&mut self, storage: &OrderedLeaf, key: &u64)
        requires
            old(self).wf_for(*storage),
            sorted_strict(storage@),
        ensures
            final(self).wf_for(*storage),
            final(self).bounds == old(self).bounds,
            old(self).pos <= final(self).pos,
            forall|i: int| old(self).pos <= i < final(self).pos ==> storage@[i].0 < *key,
            final(self).pos < final(self).bounds.1 ==> storage@[final(self).pos as int].0
                >= *key,
    {
        let k = *key;
        let below = |x: &(u64, i64)| -> (b: bool)
            ensures
                b == (x.0 < k),
            {
                x.0 < k
            };
        let adv = advance(
            &storage.vals,
            self.pos,
            self.bounds.1,
            below,
            Ghost(|t: (u64, i64)| t.0 < k),
        );
        self.pos += adv;
    }

    /// The number of tuples in the cursor's range.
    pub fn keys(&self) -> (r: usize)
        requires
            self.bounds.0 <= self.bounds.1,
        ensures
            r == self.bounds.1 - self.bounds.0,
    {
        self.bounds.1 - self.bounds.0
    }

    /// Reveals the current tuple.
    pub fn key<'a>(&self, storage: &'a OrderedLeaf) -> (r: &'a (u64, i64))
        requires
            self.wf_for(*storage),
            self.pos < self.bounds.1,
        ensures
            *r == storage@[self.pos as int],
    {
        &storage.vals[self.pos]
    }

    /// Advances the cursor by one tuple.
    pub fn step(&mut self, storage: &OrderedLeaf)
        requires
            old(self).wf_for(*storage),
            old(self).pos < old(self).bounds.1,
        ensures
            final(self).wf_for(*storage),
            final(self).bounds == old(self).bounds,
            final(self).pos == old(self).pos + 1,
    {
        self.pos += 1;
    }

    /// Advances the cursor to the first tuple at or after the given tuple's
    /// key.
    pub fn seek(&mut self, storage: &OrderedLeaf, key: &(u64, i64))
        requires
            old(self).wf_for(*storage),
            sorted_strict(storage@),
        ensures
            final(self).wf_for(*storage),
            final(self).bounds == old(self).bounds,
            old(self).pos <= final(self).pos,
            forall|i: int| old(self).pos <= i < final(self).pos ==> storage@[i].0 < key.0,
            final(self).pos < final(self).bounds.1 ==> storage@[final(self).pos as int].0
                >= key.0,
    {
        self.seek_key(storage, &key.0);
    }

    /// True if the cursor points at a tuple of its range; false if it is
    /// exhausted.
    pub fn valid(&self, storage: &OrderedLeaf) -> (r: bool)
        ensures
            r == (self.pos < self.bounds.1),
    {
        self.pos < self.bounds.1
    }

    /// Rewinds the cursor to the lower bound of its range.
    pub fn rewind(&mut self, storage: &OrderedLeaf)
        ensures
            final(self).bounds == old(self).bounds,
            final(self).pos == final(self).bounds.0,
    {
        self.pos = self.bounds.0;
    }

    /// Repositions the cursor to a different range of the storage.
    pub fn reposition(&mut self, storage: &OrderedLeaf, lower: usize, upper: usize)
        requires
            lower <= upper <= storage@.len(),
        ensures
            final(self).pos == lower,
            final(self).bounds == (lower, upper),
            final(self).wf_for(*storage),
    {
        self.pos = lower;
        self.bounds = (lower, upper);
    }
}

} // verus!
