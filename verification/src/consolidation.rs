//! Sort-and-sum consolidation of unsorted `(key, weight)` tuples.
//!
//! Unsorted builders defer ordering until a boundary: the pending tail of
//! their tuple vector is sorted by key, weights of equal keys are summed, and
//! tuples whose summed weight is zero are dropped.

use vstd::prelude::*;

use crate::algebra::{
    has_key, lemma_seq_weight_absent, lemma_seq_weight_concat, lemma_wadd_zero, lemma_wf_unique,
    same_weights, seq_weight, wadd, wf_zset,
};

verus! {

/// Keys non-decreasing: the intermediate state between sorting and summing.
pub open spec fn sorted_nonstrict(s: Seq<(u64, i64)>) -> bool {
    forall|i: int, j: int| 0 <= i < j < s.len() ==> s[i].0 <= s[j].0
}

proof fn lemma_seq_weight_insert(s: Seq<(u64, i64)>, i: int, x: (u64, i64), k: u64)
    requires
        0 <= i <= s.len(),
    ensures
        seq_weight(s.insert(i, x), k) == wadd(
            seq_weight(s, k),
            if x.0 == k { x.1 } else { 0i64 },
        ),
{
    let left = s.take(i);
    let right = s.skip(i);
    assert(s.insert(i, x) =~= left + (seq![x] + right));
    assert(s =~= left + right);
    lemma_seq_weight_concat(left, seq![x] + right, k);
    lemma_seq_weight_concat(seq![x], right, k);
    lemma_seq_weight_concat(left, right, k);
    assert(seq![x].drop_last() =~= Seq::<(u64, i64)>::empty());
    assert(seq_weight(Seq::<(u64, i64)>::empty(), k) == 0i64);
    assert(seq![x].last() == x);
    let xw = if x.0 == k { x.1 } else { 0i64 };
    assert(seq_weight(seq![x], k) == wadd(0i64, xw));
}

/// Insert each pending tuple into its sorted position.
fn sort_region(v: &Vec<(u64, i64)>, from: usize) -> (r: Vec<(u64, i64)>)
    requires
        from <= v.len(),
    ensures
        sorted_nonstrict(r@),
        r@.len() == v@.len() - from,
        same_weights(r@, v@.skip(from as int)),
{
    let ghost tail = v@.skip(from as int);
    let mut r: Vec<(u64, i64)> = Vec::new();
    let mut p: usize = from;
    while p < v.len()
        invariant
            from <= p <= v.len(),
            tail == v@.skip(from as int),
            r@.len() == p - from,
            sorted_nonstrict(r@),
            forall|k: u64| seq_weight(r@, k) == seq_weight(v@.subrange(from as int, p as int), k),
        decreases v.len() - p,
    {
        let x = v[p];
        let mut i: usize = 0;
        while i < r.len() && r[i].0 <= x.0
            invariant
                0 <= i <= r.len(),
                forall|j: int| 0 <= j < i ==> r@[j].0 <= x.0,
            decreases r.len() - i,
        {
            i += 1;
        }
        let ghost r_old = r@;
        r.insert(i, x);
        proof {
            assert forall|k: u64|
                seq_weight(r@, k) == seq_weight(v@.subrange(from as int, p + 1), k) by {
                lemma_seq_weight_insert(r_old, i as int, x, k);
                assert(v@.subrange(from as int, p + 1).drop_last() =~= v@.subrange(
                    from as int,
                    p as int,
                ));
                assert(v@.subrange(from as int, p + 1).last() == x);
            }
        }
        p += 1;
    }
    proof {
        assert(v@.subrange(from as int, v@.len() as int) =~= tail);
    }
    r
}

/// Sum each run of equal keys in a sorted vector, dropping zero sums.
fn sum_runs(sorted: &Vec<(u64, i64)>) -> (r: Vec<(u64, i64)>)
    requires
        sorted_nonstrict(sorted@),
    ensures
        wf_zset(r@),
        same_weights(r@, sorted@),
{
    let mut r: Vec<(u64, i64)> = Vec::new();
    let mut p: usize = 0;
    while p < sorted.len()
        invariant
            0 <= p <= sorted.len(),
            sorted_nonstrict(sorted@),
            p < sorted.len() ==> (p == 0 || sorted@[p - 1].0 < sorted@[p as int].0),
            wf_zset(r@),
            forall|j: int| #![trigger r@[j]]
                0 <= j < r@.len() && p < sorted.len() ==> r@[j].0 < sorted@[p as int].0,
            forall|k: u64| seq_weight(r@, k) == seq_weight(sorted@.take(p as int), k),
        decreases sorted.len() - p,
    {
        let key = sorted[p].0;
        let mut sum: i64 = sorted[p].1;
        let mut q: usize = p + 1;
        proof {
            assert(sorted@.subrange(p as int, p + 1).drop_last() =~= Seq::<(u64, i64)>::empty());
            assert(seq_weight(Seq::<(u64, i64)>::empty(), key) == 0i64);
            assert(sorted@.subrange(p as int, p + 1).last() == sorted@[p as int]);
        }
        while q < sorted.len() && sorted[q].0 == key
            invariant
                p < q <= sorted.len(),
                sorted_nonstrict(sorted@),
                key == sorted@[p as int].0,
                forall|m: int| p <= m < q ==> sorted@[m].0 == key,
                sum == seq_weight(sorted@.subrange(p as int, q as int), key),
            decreases sorted.len() - q,
        {
            let ghost run_old = sorted@.subrange(p as int, q as int);
            sum = sum.wrapping_add(sorted[q].1);
            proof {
                assert(sorted@.subrange(p as int, q + 1).drop_last() =~= run_old);
                assert(sorted@.subrange(p as int, q + 1).last() == sorted@[q as int]);
            }
            q += 1;
        }
        let ghost run = sorted@.subrange(p as int, q as int);
        let ghost r_old = r@;
        if sum != 0 {
            r.push((key, sum));
        }
        proof {
            assert(q == sorted.len() || sorted@[q as int].0 > key);
            assert(sorted@.take(q as int) =~= sorted@.take(p as int) + run);
            assert(forall|m: int| 0 <= m < run.len() ==> (#[trigger] run[m]).0 == key);
            assert forall|k: u64|
                seq_weight(r@, k) == seq_weight(sorted@.take(q as int), k) by {
                let before = seq_weight(sorted@.take(p as int), k);
                assert(seq_weight(r_old, k) == before);
                lemma_seq_weight_concat(sorted@.take(p as int), run, k);
                if k == key {
                    assert(seq_weight(run, k) == sum);
                } else {
                    assert(!has_key(run, k));
                    lemma_seq_weight_absent(run, k);
                    lemma_wadd_zero(before);
                }
                if sum != 0 {
                    crate::algebra::lemma_seq_weight_push(r_old, (key, sum), k);
                } else {
                    if k == key {
                        lemma_wadd_zero(before);
                    }
                }
            }
        }
        p = q;
    }
    proof {
        assert(sorted@.take(sorted@.len() as int) =~= sorted@);
    }
    r
}

/// Sorts the tail `v[from..]` by key, sums the weights of equal keys, drops
/// tuples whose summed weight is zero, and truncates `v` to the survivors.
/// Returns the number of surviving tuples, so that `v.len() == from + r`.
///
/// The prefix `v[..from]` is left untouched; the new tail is the canonical
/// (sorted, zero-free) representation of the Z-set the old tail described.
pub fn consolidate_slice(v: &mut Vec<(u64, i64)>, from: usize) -> (r: usize)
    requires
        from <= old(v).len(),
    ensures
        final(v)@.len() == from + r,
        final(v)@.subrange(0, from as int) == old(v)@.subrange(0, from as int),
        wf_zset(final(v)@.skip(from as int)),
        same_weights(final(v)@.skip(from as int), old(v)@.skip(from as int)),
{
    let sorted = sort_region(v, from);
    let mut consolidated = sum_runs(&sorted);
    let r = consolidated.len();
    let ghost v_old = v@;
    let ghost cons = consolidated@;
    v.truncate(from);
    v.append(&mut consolidated);
    proof {
        assert(v@.subrange(0, from as int) =~= v_old.subrange(0, from as int));
        assert(v@.skip(from as int) =~= cons);
    }
    r
}

/// Consolidation is idempotent: a canonical region is a fixed point, so any
/// further pass over it (anything well-formed and weight-equal) returns the
/// region itself.
pub proof fn lemma_consolidate_idempotent(s: Seq<(u64, i64)>, t: Seq<(u64, i64)>)
    requires
        wf_zset(s),
        wf_zset(t),
        same_weights(t, s),
    ensures
        t == s,
{
    lemma_wf_unique(t, s);
}

} // verus!
