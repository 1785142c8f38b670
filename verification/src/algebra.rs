//! Weight algebra and the sequence model of Z-sets.
//!
//! Weights form the abelian group of 64-bit integers under wrapping addition.
//! A Z-set is modelled by the total weight each key carries in a sequence of
//! `(key, weight)` tuples; a sorted, zero-free sequence is the canonical
//! representation of its Z-set, and that representation is unique.

use vstd::prelude::*;

verus! {

/// Wrapped addition of two weights: the group operation.
pub open spec fn wadd(a: i64, b: i64) -> i64 {
    vstd::wrapping::i64_specs::wrapping_add(a, b)
}

/// Wrapped negation of a weight: the group inverse.
pub open spec fn wneg(a: i64) -> i64 {
    vstd::wrapping::i64_specs::wrapping_sub(0i64, a)
}

pub proof fn lemma_wadd_zero(a: i64)
    ensures
        wadd(a, 0) == a,
        wadd(0, a) == a,
{
}

pub proof fn lemma_wadd_comm(a: i64, b: i64)
    ensures
        wadd(a, b) == wadd(b, a),
{
}

pub proof fn lemma_wadd_assoc(a: i64, b: i64, c: i64)
    ensures
        wadd(wadd(a, b), c) == wadd(a, wadd(b, c)),
{
}

pub proof fn lemma_wadd_inverse(a: i64)
    ensures
        wadd(a, wneg(a)) == 0,
{
}

/// Cancellation: wrapped sums with a common summand come from equal terms.
pub proof fn lemma_wadd_cancel(x: i64, y: i64, a: i64)
    requires
        wadd(x, a) == wadd(y, a),
    ensures
        x == y,
{
}

/// Regrouping of two wrapped sums: both sides wrap `a + b + c + d`.
pub proof fn lemma_wadd_rearrange(a: i64, b: i64, c: i64, d: i64)
    ensures
        wadd(wadd(a, b), wadd(c, d)) == wadd(wadd(a, c), wadd(b, d)),
{
}

/// Total weight that key `k` carries in the tuple sequence `s`.
pub open spec fn seq_weight(s: Seq<(u64, i64)>, k: u64) -> i64
    decreases s.len(),
{
    if s.len() == 0 {
        0i64
    } else {
        wadd(seq_weight(s.drop_last(), k), if s.last().0 == k { s.last().1 } else { 0i64 })
    }
}

/// Keys strictly ascending.
pub open spec fn sorted_strict(s: Seq<(u64, i64)>) -> bool {
    forall|i: int, j: int| 0 <= i < j < s.len() ==> s[i].0 < s[j].0
}

/// No tuple carries weight zero.
pub open spec fn no_zero_weights(s: Seq<(u64, i64)>) -> bool {
    forall|i: int| 0 <= i < s.len() ==> (#[trigger] s[i]).1 != 0i64
}

/// Canonical Z-set representation: sorted by key and zero-free.
pub open spec fn wf_zset(s: Seq<(u64, i64)>) -> bool {
    sorted_strict(s) && no_zero_weights(s)
}

/// The region `s[lo..hi]` on its own is a canonical Z-set representation:
/// keys strictly ascending and no zero weights within the region.
pub open spec fn wf_zset_range(s: Seq<(u64, i64)>, lo: int, hi: int) -> bool {
    &&& forall|i: int, j: int| lo <= i < j < hi ==> s[i].0 < s[j].0
    &&& forall|i: int| lo <= i < hi ==> (#[trigger] s[i]).1 != 0i64
}

/// A canonical subrange, viewed in place, is a canonical region.
pub proof fn lemma_wf_range_of_subrange(s: Seq<(u64, i64)>, lo: int, hi: int)
    requires
        0 <= lo <= hi <= s.len(),
        wf_zset(s.subrange(lo, hi)),
    ensures
        wf_zset_range(s, lo, hi),
{
    let sub = s.subrange(lo, hi);
    assert forall|i: int, j: int| lo <= i < j < hi implies s[i].0 < s[j].0 by {
        assert(sub[i - lo] == s[i]);
        assert(sub[j - lo] == s[j]);
    }
    assert forall|i: int| lo <= i < hi implies (#[trigger] s[i]).1 != 0i64 by {
        assert(sub[i - lo] == s[i]);
    }
}

/// Key `k` occurs in `s`.
pub open spec fn has_key(s: Seq<(u64, i64)>, k: u64) -> bool {
    exists|i: int| 0 <= i < s.len() && s[i].0 == k
}

/// Two sequences represent the same Z-set.
pub open spec fn same_weights(a: Seq<(u64, i64)>, b: Seq<(u64, i64)>) -> bool {
    forall|k: u64| seq_weight(a, k) == seq_weight(b, k)
}

pub proof fn lemma_seq_weight_push(s: Seq<(u64, i64)>, x: (u64, i64), k: u64)
    ensures
        seq_weight(s.push(x), k) == wadd(seq_weight(s, k), if x.0 == k { x.1 } else { 0i64 }),
{
    assert(s.push(x).drop_last() =~= s);
}

pub proof fn lemma_seq_weight_concat(a: Seq<(u64, i64)>, b: Seq<(u64, i64)>, k: u64)
    ensures
        seq_weight(a + b, k) == wadd(seq_weight(a, k), seq_weight(b, k)),
    decreases b.len(),
{
    if b.len() == 0 {
        assert(a + b =~= a);
    } else {
        let b0 = b.drop_last();
        lemma_seq_weight_concat(a, b0, k);
        assert((a + b).drop_last() =~= a + b0);
        lemma_wadd_assoc(seq_weight(a, k), seq_weight(b0, k), if b.last().0 == k { b.last().1 } else { 0i64 });
    }
}

/// Weight of `k` in the head-and-tail decomposition of a non-empty sequence.
pub proof fn lemma_seq_weight_skip1(s: Seq<(u64, i64)>, k: u64)
    requires
        s.len() > 0,
    ensures
        seq_weight(s, k) == wadd(if s[0].0 == k { s[0].1 } else { 0i64 }, seq_weight(s.skip(1), k)),
{
    let single = seq![s[0]];
    assert(s =~= single + s.skip(1));
    lemma_seq_weight_concat(single, s.skip(1), k);
    assert(single.drop_last() =~= Seq::<(u64, i64)>::empty());
    assert(seq_weight(single.drop_last(), k) == 0i64);
    assert(single.last() == s[0]);
    assert(seq_weight(single, k) == wadd(0i64, if s[0].0 == k { s[0].1 } else { 0i64 }));
    lemma_wadd_zero(if s[0].0 == k { s[0].1 } else { 0i64 });
    lemma_wadd_comm(if s[0].0 == k { s[0].1 } else { 0i64 }, seq_weight(s.skip(1), k));
}

pub proof fn lemma_seq_weight_absent(s: Seq<(u64, i64)>, k: u64)
    requires
        !has_key(s, k),
    ensures
        seq_weight(s, k) == 0i64,
    decreases s.len(),
{
    if s.len() > 0 {
        assert(s.drop_last().len() == s.len() - 1);
        assert(forall|i: int| 0 <= i < s.len() - 1 ==> s.drop_last()[i] == s[i]);
        lemma_seq_weight_absent(s.drop_last(), k);
    }
}

/// In a sorted sequence, the weight of a key is the weight of its unique tuple.
pub proof fn lemma_seq_weight_sorted(s: Seq<(u64, i64)>, i: int)
    requires
        sorted_strict(s),
        0 <= i < s.len(),
    ensures
        seq_weight(s, s[i].0) == s[i].1,
    decreases s.len(),
{
    let k = s[i].0;
    if i == s.len() - 1 {
        assert(forall|j: int| 0 <= j < s.len() - 1 ==> s.drop_last()[j] == s[j]);
        assert(!has_key(s.drop_last(), k));
        lemma_seq_weight_absent(s.drop_last(), k);
    } else {
        assert(forall|j: int| 0 <= j < s.len() - 1 ==> s.drop_last()[j] == s[j]);
        lemma_seq_weight_sorted(s.drop_last(), i);
        assert(s.last().0 != k);
    }
}

/// Negating every tuple's weight negates every key's total weight.
pub proof fn lemma_seq_weight_neg(s: Seq<(u64, i64)>, ns: Seq<(u64, i64)>, k: u64)
    requires
        ns.len() == s.len(),
        forall|i: int| 0 <= i < s.len() ==> ns[i] == (s[i].0, wneg(s[i].1)),
    ensures
        seq_weight(ns, k) == wneg(seq_weight(s, k)),
    decreases s.len(),
{
    if s.len() > 0 {
        assert(ns.drop_last().len() == s.drop_last().len());
        assert(forall|i: int|
            0 <= i < s.len() - 1 ==> s.drop_last()[i] == s[i] && ns.drop_last()[i] == ns[i]);
        lemma_seq_weight_neg(s.drop_last(), ns.drop_last(), k);
        assert(ns.last() == (s.last().0, wneg(s.last().1)));
    }
}

/// Concatenation of canonical runs whose key ranges are separated stays
/// canonical.
pub proof fn lemma_wf_concat(a: Seq<(u64, i64)>, b: Seq<(u64, i64)>)
    requires
        wf_zset(a),
        wf_zset(b),
        a.len() > 0 && b.len() > 0 ==> a.last().0 < b[0].0,
    ensures
        wf_zset(a + b),
{
    let c = a + b;
    assert forall|i: int, j: int| 0 <= i < j < c.len() implies c[i].0 < c[j].0 by {
        if i < a.len() && j >= a.len() {
            assert(c[i].0 <= a.last().0);
            assert(c[j].0 >= b[0].0);
        }
    }
    assert(forall|i: int| 0 <= i < c.len() ==> (#[trigger] c[i]).1 != 0i64);
}

/// Canonical representations of the same Z-set are equal.
pub proof fn lemma_wf_unique(a: Seq<(u64, i64)>, b: Seq<(u64, i64)>)
    requires
        wf_zset(a),
        wf_zset(b),
        same_weights(a, b),
    ensures
        a == b,
    decreases a.len() + b.len(),
{
    if a.len() == 0 {
        if b.len() > 0 {
            lemma_seq_weight_sorted(b, 0);
            lemma_seq_weight_absent(a, b[0].0);
        }
        assert(a =~= b);
    } else if b.len() == 0 {
        lemma_seq_weight_sorted(a, 0);
        lemma_seq_weight_absent(b, a[0].0);
        assert(a =~= b);
    } else {
        let ka = a[0].0;
        let kb = b[0].0;
        lemma_seq_weight_sorted(a, 0);
        lemma_seq_weight_sorted(b, 0);
        if ka < kb {
            assert(forall|i: int| 0 <= i < b.len() ==> b[i].0 >= kb);
            lemma_seq_weight_absent(b, ka);
            assert(false);
        }
        if kb < ka {
            assert(forall|i: int| 0 <= i < a.len() ==> a[i].0 >= ka);
            lemma_seq_weight_absent(a, kb);
            assert(false);
        }
        let ta = a.skip(1);
        let tb = b.skip(1);
        assert forall|k: u64| seq_weight(ta, k) == seq_weight(tb, k) by {
            lemma_seq_weight_skip1(a, k);
            lemma_seq_weight_skip1(b, k);
            if k == ka {
                if ta.len() > 0 || tb.len() > 0 {
                    assert(!has_key(ta, k));
                    assert(!has_key(tb, k));
                }
                lemma_seq_weight_absent(ta, k);
                lemma_seq_weight_absent(tb, k);
            } else {
                assert(wadd(0i64, seq_weight(ta, k)) == seq_weight(ta, k));
                assert(wadd(0i64, seq_weight(tb, k)) == seq_weight(tb, k));
            }
        }
        lemma_wf_unique(ta, tb);
        assert(a.len() == b.len());
        assert forall|i: int| 0 <= i < a.len() implies a[i] == b[i] by {
            if i == 0 {
                assert(a[0].1 == seq_weight(a, ka));
                assert(b[0].1 == seq_weight(b, ka));
            } else {
                assert(a[i] == ta[i - 1]);
                assert(b[i] == tb[i - 1]);
            }
        }
        assert(a =~= b);
    }
}

/// Addition of borrowed values in their group.
pub trait AddByRef: Sized {
    /// Whether the value is in the group's carrier: the canonical
    /// representation for collection-valued groups, everything for
    /// scalars.
    spec fn sound(self) -> bool;

    /// What it means for `result` to be the sum of `self` and `other`:
    /// implementations pin the result exactly, up to the canonical
    /// representation of the value.
    spec fn add_rel(self, other: Self, result: Self) -> bool;

    /// Adds two values.
    fn add_by_ref(&self, other: &Self) -> (r: Self)
        requires
            self.sound(),
            other.sound(),
        ensures
            self.add_rel(*other, r),
            r.sound(),
    ;
}

/// A value with a distinguished zero of its group.
pub trait HasZero: AddByRef {
    /// Whether this value is the zero of its group.
    spec fn spec_is_zero(self) -> bool;

    /// Returns a zero value.
    fn zero() -> (r: Self)
        ensures
            r.spec_is_zero(),
            r.sound(),
    ;

    /// Tests this value against zero.
    fn is_zero(&self) -> (r: bool)
        ensures
            r == self.spec_is_zero(),
    ;
}

/// Negation of a borrowed value in its group.
pub trait NegByRef: Sized {
    /// What it means for `result` to be the negation of `self`.
    spec fn neg_rel(self, result: Self) -> bool;

    /// Negates a value.
    fn neg_by_ref(&self) -> (r: Self)
        ensures
            self.neg_rel(r),
    ;
}

impl AddByRef for i64 {
    open spec fn sound(self) -> bool {
        true
    }

    open spec fn add_rel(self, other: Self, result: Self) -> bool {
        result == wadd(self, other)
    }

    fn add_by_ref(&self, other: &Self) -> (r: Self) {
        self.wrapping_add(*other)
    }
}

impl HasZero for i64 {
    open spec fn spec_is_zero(self) -> bool {
        self == 0i64
    }

    fn zero() -> (r: Self) {
        0i64
    }

    fn is_zero(&self) -> (r: bool) {
        *self == 0i64
    }
}

impl NegByRef for i64 {
    open spec fn neg_rel(self, result: Self) -> bool {
        result == wneg(self)
    }

    fn neg_by_ref(&self) -> (r: Self) {
        0i64.wrapping_sub(*self)
    }
}

} // verus!
