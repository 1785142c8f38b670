//! Shared machinery for trie-structured layers: the trie interface traits
//! and exponential-search advance.
//!
//! The traits name the shapes that trie-structured storage shares; each
//! concrete layer implements them, and states its exact contracts on its
//! own inherent methods, where callers use them.

use vstd::prelude::*;

verus! {

/// A collection of tuples, and types for building and enumerating them.
pub trait Trie: Sized {
    /// The type of item from which the collection is constructed.
    type Item;

    /// The type of cursor used to navigate the collection.
    type Cursor;

    /// The type used to merge instances of the collection together.
    type MergeBuilder;

    /// The type used to assemble instances from items.
    type TupleBuilder;

    /// The number of distinct keys, as distinct from the total number of
    /// tuples.
    fn keys(&self) -> usize;

    /// The total number of tuples in the collection.
    fn tuples(&self) -> usize;

    /// True if the collection holds no keys.
    fn is_empty(&self) -> bool;
}

/// A type used to assemble collections.
pub trait Builder: Sized {
    /// The type of collection produced.
    type Trie;

    /// What finalizing requires: that the accepted parts are canonical.
    spec fn done_pre(self) -> bool;

    /// What taking a boundary requires of the builder's state.
    spec fn boundary_pre(self) -> bool;

    /// Requests a commitment to the offset of the current-most
    /// sub-collection, reported to a parent as an offset.
    fn boundary(&mut self) -> usize
        requires
            old(self).boundary_pre(),
    ;

    /// Finalizes the building process and returns the collection.
    fn done(self) -> Self::Trie
        requires
            self.done_pre(),
    ;
}

/// A type used to assemble collections by merging other instances.
pub trait MergeBuilder: Builder {
    /// Allocates a builder with capacity for the merged data.
    fn with_capacity(other1: &Self::Trie, other2: &Self::Trie) -> Self;

    /// Allocates a builder with capacity for `cap` keys.
    fn with_key_capacity(cap: usize) -> Self;
}

/// A type used to assemble collections from ordered sequences of tuples.
pub trait TupleBuilder: Builder {
    /// The type of item accepted for construction.
    type Item;

    /// Allocates a new builder.
    fn new() -> Self;

    /// What accepting the tuple requires: the order and weight conditions
    /// the concrete builder imposes.
    spec fn push_pre(self, tuple: Self::Item) -> bool;

    /// Inserts a new tuple into the collection.
    fn push_tuple(&mut self, tuple: Self::Item)
        requires
            old(self).push_pre(tuple),
    ;

    /// The number of tuples accepted so far.
    fn tuples(&self) -> usize;
}

/// A type supporting navigation over borrowed storage.
///
/// The cursor holds positions only; the storage is passed to every
/// operation, so cursors never own tuples.
pub trait Cursor<Storage>: Sized {
    /// What stepping requires of cursor and storage together.
    spec fn nav_pre(self, storage: Storage) -> bool;

    /// What rewinding requires of cursor and storage together.
    spec fn rewind_pre(self, storage: Storage) -> bool;

    /// What a range must satisfy to reposition into it.
    spec fn range_pre(storage: Storage, lower: usize, upper: usize) -> bool;

    /// True if the cursor points at valid data; false if it is exhausted.
    fn valid(&self, storage: &Storage) -> bool;

    /// Advances the cursor by one element.
    fn step(&mut self, storage: &Storage)
        requires
            old(self).nav_pre(*storage),
    ;

    /// Rewinds the cursor to the lower bound of its range.
    fn rewind(&mut self, storage: &Storage)
        requires
            old(self).rewind_pre(*storage),
    ;

    /// Repositions the cursor to a different range of values.
    fn reposition(&mut self, storage: &Storage, lower: usize, upper: usize)
        requires
            Self::range_pre(*storage, lower, upper),
    ;
}

/// A storage together with a cursor into it: a navigable slice of a trie.
pub struct TrieSlice<'a, T: Trie> {
    /// The borrowed storage.
    pub storage: &'a T,
    /// The cursor over it.
    pub cursor: T::Cursor,
}

/// Reports the number of elements of `v[lo..hi]` satisfying the predicate.
///
/// This function *relies strongly* on the assumption that the predicate stays
/// false once it becomes false, a joint property of the predicate and the
/// range. That allows `advance` to use exponential (galloping) search and
/// count the satisfying prefix in time logarithmic in the result.
///
/// The ghost predicate `p` pins down what the closure decides; the result is
/// exactly the length of the maximal prefix of the range on which `p` holds.
pub fn advance<T, F: Fn(&T) -> bool>(
    v: &Vec<T>,
    lo: usize,
    hi: usize,
    f: F,
    Ghost(p): Ghost<spec_fn(T) -> bool>,
) -> (r: usize)
    requires
        lo <= hi <= v.len(),
        forall|i: int| lo <= i < hi ==> f.requires((&v@[i],)),
        forall|i: int, b: bool| lo <= i < hi && f.ensures((&v@[i],), b) ==> b == p(v@[i]),
        forall|i: int, j: int| lo <= i <= j < hi && p(v@[j]) ==> p(v@[i]),
    ensures
        r <= hi - lo,
        forall|i: int| lo <= i < lo + r ==> p(v@[i]),
        r < hi - lo ==> !p(v@[lo + r]),
{
    let n = hi - lo;
    let small_limit: usize = 8;

    // Exponential search if the answer is not within `small_limit`.
    if n > small_limit && f(&v[lo + small_limit]) {
        let mut index: usize = small_limit + 1;
        if index < n && f(&v[lo + index]) {
            // Advance in exponentially growing steps.
            let mut step: usize = 1;
            while step < n - index && f(&v[lo + index + step])
                invariant
                    lo <= hi <= v.len(),
                    n == hi - lo,
                    0 < index < n,
                    step >= 1,
                    p(v@[lo + index]),
                    forall|i: int| lo <= i < hi ==> f.requires((&v@[i],)),
                    forall|i: int, b: bool|
                        lo <= i < hi && f.ensures((&v@[i],), b) ==> b == p(v@[i]),
                    forall|i: int, j: int| lo <= i <= j < hi && p(v@[j]) ==> p(v@[i]),
                decreases n - index,
            {
                index += step;
                step = if step <= usize::MAX / 2 {
                    step * 2
                } else {
                    step
                };
            }
            // The satisfying prefix ends at or before `high`; refine by
            // binary search between the last two probes.
            let mut high: usize = if step < n - index {
                index + step
            } else {
                n
            };
            let mut low: usize = index + 1;
            while low < high
                invariant
                    lo <= hi <= v.len(),
                    n == hi - lo,
                    1 <= low <= high <= n,
                    p(v@[lo + low - 1]),
                    high == n || !p(v@[lo + high]),
                    forall|i: int| lo <= i < hi ==> f.requires((&v@[i],)),
                    forall|i: int, b: bool|
                        lo <= i < hi && f.ensures((&v@[i],), b) ==> b == p(v@[i]),
                    forall|i: int, j: int| lo <= i <= j < hi && p(v@[j]) ==> p(v@[i]),
                decreases high - low,
            {
                let mid = low + (high - low) / 2;
                if f(&v[lo + mid]) {
                    low = mid + 1;
                } else {
                    high = mid;
                }
            }
            proof {
                assert forall|i: int| lo <= i < lo + low implies p(v@[i]) by {
                    assert(p(v@[lo + low - 1]));
                }
            }
            low
        } else {
            // Exactly the elements up to and including `small_limit` satisfy.
            proof {
                assert forall|i: int| lo <= i < lo + index implies p(v@[i]) by {
                    assert(p(v@[lo + small_limit]));
                }
            }
            index
        }
    } else {
        // Count the satisfying prefix of the first few elements directly.
        let limit = if n < small_limit {
            n
        } else {
            small_limit
        };
        let mut i: usize = 0;
        let mut stopped = false;
        while i < limit && !stopped
            invariant
                lo <= hi <= v.len(),
                n == hi - lo,
                limit <= n,
                0 <= i <= limit,
                forall|j: int| lo <= j < lo + i ==> p(v@[j]),
                stopped ==> i < limit && !p(v@[lo + i]),
                forall|j: int| lo <= j < hi ==> f.requires((&v@[j],)),
                forall|j: int, b: bool|
                    lo <= j < hi && f.ensures((&v@[j],), b) ==> b == p(v@[j]),
            decreases limit - i + (if stopped { 0int } else { 1int }),
        {
            if f(&v[lo + i]) {
                i += 1;
            } else {
                stopped = true;
            }
        }
        proof {
            if !stopped && i == limit && limit < n {
                assert(limit == small_limit);
                assert(!p(v@[lo + small_limit]));
            }
        }
        i
    }
}

} // verus!
