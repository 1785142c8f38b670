//! The fixed-point operator: runs a differential body to a fixed point,
//! combining its output with the outer input and applying a distinct step
//! each iteration.

use vstd::prelude::*;

use crate::algebra::{
    has_key, lemma_seq_weight_absent, lemma_seq_weight_push, lemma_wadd_zero, seq_weight, wadd,
    wf_zset,
};
use crate::trace::ordered_leaf::OrderedLeaf;
use crate::trace::zset_batch::{Antichain, OrdZSet};

verus! {

/// The distinct image of one weight: one for positive weights, nothing
/// otherwise.
pub open spec fn distinct_weight(w: i64) -> i64 {
    if w > 0 {
        1i64
    } else {
        0i64
    }
}

/// Turns a Z-set into its distinct image: every key with positive weight
/// is emitted with weight one, every other key is dropped.
pub fn distinct(z: &OrdZSet) -> (r: OrdZSet)
    requires
        z.wf(),
    ensures
        r.wf(),
        forall|k: u64| seq_weight(r@, k) == distinct_weight(seq_weight(z@, k)),
        r.lower.has_elem,
        !r.upper.has_elem,
{
    let mut vals: Vec<(u64, i64)> = Vec::new();
    let mut i: usize = 0;
    while i < z.layer.vals.len()
        invariant
            z.wf(),
            i <= z@.len(),
            wf_zset(vals@),
            forall|k: u64|
                seq_weight(vals@, k) == distinct_weight(seq_weight(z@.take(i as int), k)),
            vals@.len() > 0 && i < z@.len() ==> vals@.last().0 < z@[i as int].0,
        decreases z@.len() - i,
    {
        let ghost pre = vals@;
        let (key, w) = z.layer.vals[i];
        if w > 0 {
            vals.push((key, 1));
        }
        proof {
            assert(z@.take(i + 1).drop_last() =~= z@.take(i as int));
            assert(z@.take(i + 1).last() == z@[i as int]);
            assert(!has_key(z@.take(i as int), key));
            lemma_seq_weight_absent(z@.take(i as int), key);
            assert(!has_key(pre, key));
            lemma_seq_weight_absent(pre, key);
            assert forall|k: u64|
                seq_weight(vals@, k) == distinct_weight(
                    seq_weight(z@.take(i + 1), k),
                ) by {
                lemma_wadd_zero(seq_weight(z@.take(i as int), k));
                lemma_wadd_zero(1i64);
                if w > 0 {
                    lemma_seq_weight_push(pre, (key, 1i64), k);
                    if k != key {
                        lemma_wadd_zero(seq_weight(pre, k));
                    }
                }
            }
        }
        i += 1;
    }
    proof {
        assert(z@.take(z@.len() as int) =~= z@);
    }
    OrdZSet {
        layer: OrderedLeaf { vals },
        lower: Antichain::from_elem(()),
        upper: Antichain::new(),
    }
}

/// Whether two batches hold the same tuples.
pub fn zset_eq(a: &OrdZSet, b: &OrdZSet) -> (r: bool)
    ensures
        r == (a@ == b@),
{
    if a.layer.vals.len() != b.layer.vals.len() {
        return false;
    }
    let mut i: usize = 0;
    while i < a.layer.vals.len()
        invariant
            a@.len() == b@.len(),
            i <= a@.len(),
            forall|j: int| 0 <= j < i ==> a@[j] == b@[j],
        decreases a@.len() - i,
    {
        let (k1, w1) = a.layer.vals[i];
        let (k2, w2) = b.layer.vals[i];
        if k1 != k2 || w1 != w2 {
            return false;
        }
        i += 1;
    }
    proof {
        assert(a@ =~= b@);
    }
    true
}

/// `v` is a fixed point of the body over `input`: some output of the body
/// on `v`, summed with `input` and made distinct, is `v` again.
pub open spec fn is_fixed_point<F: Fn(&OrdZSet) -> OrdZSet>(
    body: F,
    input: OrdZSet,
    v: OrdZSet,
) -> bool {
    exists|b: OrdZSet|
        #[trigger] body.ensures((&v,), b) && (forall|k: u64|
            seq_weight(v@, k) == distinct_weight(
                wadd(seq_weight(input@, k), seq_weight(b@, k)),
            ))
}

/// Runs the body to a fixed point.
///
/// Starting from the distinct image of the input, each iteration feeds
/// the current Z-set to the body, sums the body's output with the input,
/// and takes the distinct image; the loop ends when an iteration changes
/// nothing. Returns the fixed point, or `None` if none was reached within
/// `steps` iterations.
pub fn fixed_point<F: Fn(&OrdZSet) -> OrdZSet>(input: &OrdZSet, body: F, steps: usize) -> (r:
    Option<OrdZSet>)
    requires
        input.wf(),
        forall|x: OrdZSet| x.wf() ==> #[trigger] body.requires((&x,)),
        forall|x: OrdZSet, y: OrdZSet| #[trigger] body.ensures((&x,), y) ==> y.wf(),
    ensures
        match r {
            Some(v) => v.wf() && is_fixed_point(body, *input, v),
            None => true,
        },
{
    let mut cur = distinct(input);
    let mut n: usize = 0;
    while n < steps
        invariant
            input.wf(),
            cur.wf(),
            n <= steps,
            forall|x: OrdZSet| x.wf() ==> #[trigger] body.requires((&x,)),
            forall|x: OrdZSet, y: OrdZSet| #[trigger] body.ensures((&x,), y) ==> y.wf(),
        decreases steps - n,
    {
        let delta = body(&cur);
        let summed = input.merge(&delta);
        let next = distinct(&summed);
        if zset_eq(&next, &cur) {
            proof {
                assert(body.ensures((&cur,), delta));
                assert(forall|k: u64|
                    seq_weight(cur@, k) == distinct_weight(
                        wadd(seq_weight(input@, k), seq_weight(delta@, k)),
                    ));
            }
            return Some(cur);
        }
        cur = next;
        n += 1;
    }
    None
}

} // verus!
