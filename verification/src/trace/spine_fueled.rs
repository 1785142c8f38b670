//! An append-only collection of update batches.
//!
//! The spine is a list of layers, each of which is vacant, holds a single
//! batch, or holds a pair of batches being merged into a batch for the next
//! layer. A batch at layer `i` is treated for accounting as if it held
//! exactly `2^i` tuples even when it holds fewer, which decouples eager
//! compaction from the level structure. Merge work is driven by fuel: every
//! insertion applies fuel proportional to the incoming batch's level, so
//! that merges complete before their layer is needed again; the merger
//! guarantees forward progress by leaving at least one unit of fuel, so a
//! merge in progress never survives the next round of fuel.

use vstd::prelude::*;

use crate::algebra::{
    lemma_wadd_assoc, lemma_wadd_cancel, lemma_wadd_comm, lemma_wadd_rearrange, lemma_wadd_zero,
    seq_weight, wadd,
};
use crate::trace::ordered_leaf::{OrderedLeaf, OrderedLeafCursor};
use crate::trace::zset_batch::{Antichain, OrdZSet, OrdZSetMerger};

verus! {

/// The progress of the pair of batches at one layer.
pub enum MergeVariant {
    /// An actual in-progress merge between two batches.
    InProgress(OrdZSet, OrdZSet, OrdZSetMerger),
    /// A merge that requires no further work. May or may not hold a batch.
    Complete(Option<OrdZSet>),
}

/// Describes the state of a layer.
pub enum MergeState {
    /// An empty layer, containing no updates.
    Vacant,
    /// A layer containing a single batch. `None` stands for a structurally
    /// empty batch present to keep maintenance work moving.
    Single(Option<OrdZSet>),
    /// A layer containing two batches in the process of merging.
    Double(MergeVariant),
}

/// The weight key `k` carries in an optional batch.
pub open spec fn opt_weight(b: Option<OrdZSet>, k: u64) -> i64 {
    match b {
        Some(batch) => seq_weight(batch@, k),
        None => 0i64,
    }
}

/// An optional batch is a canonical Z-set when present.
pub open spec fn opt_wf(b: Option<OrdZSet>) -> bool {
    match b {
        Some(batch) => batch.wf(),
        None => true,
    }
}

/// The weight key `k` carries in one layer.
pub open spec fn state_weight(m: MergeState, k: u64) -> i64 {
    match m {
        MergeState::Vacant => 0i64,
        MergeState::Single(b) => opt_weight(b, k),
        MergeState::Double(MergeVariant::InProgress(b1, b2, _)) => wadd(
            seq_weight(b1@, k),
            seq_weight(b2@, k),
        ),
        MergeState::Double(MergeVariant::Complete(b)) => opt_weight(b, k),
    }
}

/// The number of actual update tuples in one layer.
pub open spec fn state_len(m: MergeState) -> int {
    match m {
        MergeState::Vacant => 0,
        MergeState::Single(None) => 0,
        MergeState::Single(Some(b)) => b@.len() as int,
        MergeState::Double(MergeVariant::InProgress(b1, b2, _)) => b1@.len() + b2@.len()
            as int,
        MergeState::Double(MergeVariant::Complete(None)) => 0,
        MergeState::Double(MergeVariant::Complete(Some(b))) => b@.len() as int,
    }
}

/// The number of tuples an optional batch holds.
pub open spec fn opt_len(b: Option<OrdZSet>) -> int {
    match b {
        Some(batch) => batch@.len() as int,
        None => 0,
    }
}

/// The exact layer state `begin_merge` produces for each argument shape:
/// two batches start an in-progress merge with no work done yet, and any
/// `None` reduces the pair to an already completed carry-over.
pub open spec fn begin_merge_shape(
    r: MergeState,
    batch1: Option<OrdZSet>,
    batch2: Option<OrdZSet>,
) -> bool {
    match (batch1, batch2) {
        (Some(b1), Some(b2)) => (match r {
            MergeState::Double(MergeVariant::InProgress(x1, x2, m)) => x1 == b1 && x2 == b2
                && m.result.vals@.len() == 0,
            _ => false,
        }),
        (Some(b1), None) => r == MergeState::Double(MergeVariant::Complete(Some(b1))),
        (None, Some(b2)) => r == MergeState::Double(MergeVariant::Complete(Some(b2))),
        (None, None) => r == MergeState::Double(MergeVariant::Complete(None::<OrdZSet>)),
    }
}

/// Every batch in the layer is canonical, and an in-progress merge has not
/// yet written to its result.
pub open spec fn state_wf(m: MergeState) -> bool {
    match m {
        MergeState::Vacant => true,
        MergeState::Single(b) => opt_wf(b),
        MergeState::Double(MergeVariant::InProgress(b1, b2, merger)) => b1.wf() && b2.wf()
            && merger.result.vals@.len() == 0,
        MergeState::Double(MergeVariant::Complete(b)) => opt_wf(b),
    }
}

/// Whether the layer holds a pair of batches.
pub open spec fn state_is_double(m: MergeState) -> bool {
    m is Double
}

/// Whether the layer holds an in-progress merge.
pub open spec fn state_is_inprogress(m: MergeState) -> bool {
    match m {
        MergeState::Double(MergeVariant::InProgress(_, _, _)) => true,
        _ => false,
    }
}

/// The weight key `k` carries across a sequence of layers.
pub open spec fn states_weight(s: Seq<MergeState>, k: u64) -> i64
    decreases s.len(),
{
    if s.len() == 0 {
        0i64
    } else {
        wadd(states_weight(s.drop_last(), k), state_weight(s.last(), k))
    }
}

/// Replacing one layer changes the total weight by the difference of the
/// layer weights; stated without subtraction, as equal wrapped sums.
proof fn lemma_states_weight_update(s: Seq<MergeState>, i: int, m: MergeState, k: u64)
    requires
        0 <= i < s.len(),
    ensures
        wadd(states_weight(s.update(i, m), k), state_weight(s[i], k)) == wadd(
            states_weight(s, k),
            state_weight(m, k),
        ),
    decreases s.len(),
{
    let su = s.update(i, m);
    if i == s.len() - 1 {
        assert(su.drop_last() =~= s.drop_last());
        assert(su.last() == m);
        lemma_wadd_rearrange(
            states_weight(s.drop_last(), k),
            state_weight(m, k),
            state_weight(s[i], k),
            0i64,
        );
        lemma_wadd_zero(state_weight(s[i], k));
        lemma_wadd_zero(state_weight(m, k));
        lemma_wadd_zero(wadd(states_weight(s.drop_last(), k), state_weight(s[i], k)));
        lemma_wadd_comm(state_weight(m, k), state_weight(s[i], k));
        lemma_wadd_assoc(states_weight(s.drop_last(), k), state_weight(m, k), state_weight(s[i], k));
        lemma_wadd_assoc(states_weight(s.drop_last(), k), state_weight(s[i], k), state_weight(m, k));
    } else {
        assert(su.drop_last() =~= s.drop_last().update(i, m));
        assert(su.last() == s.last());
        lemma_states_weight_update(s.drop_last(), i, m, k);
        let a = states_weight(s.drop_last().update(i, m), k);
        let b = states_weight(s.drop_last(), k);
        let last = state_weight(s.last(), k);
        let old_i = state_weight(s[i], k);
        let mw = state_weight(m, k);
        // wadd(a, old_i) == wadd(b, mw)
        lemma_wadd_assoc(a, last, old_i);
        lemma_wadd_comm(last, old_i);
        lemma_wadd_assoc(a, old_i, last);
        lemma_wadd_assoc(b, mw, last);
        lemma_wadd_comm(mw, last);
        lemma_wadd_assoc(b, last, mw);
    }
}

/// Removing a layer that carries no weight leaves the total unchanged.
proof fn lemma_states_weight_remove(s: Seq<MergeState>, i: int, k: u64)
    requires
        0 <= i < s.len(),
        state_weight(s[i], k) == 0i64,
    ensures
        states_weight(s.remove(i), k) == states_weight(s, k),
    decreases s.len(),
{
    let sr = s.remove(i);
    if i == s.len() - 1 {
        assert(sr =~= s.drop_last());
        lemma_wadd_zero(states_weight(s.drop_last(), k));
    } else {
        assert(sr.drop_last() =~= s.drop_last().remove(i));
        assert(sr.last() == s.last());
        lemma_states_weight_remove(s.drop_last(), i, k);
    }
}

impl MergeVariant {
    /// Applies work, completing the merge; since the merger leaves at least
    /// one unit of fuel, an in-progress merge always completes here.
    pub fn work(&mut self, fuel: &mut isize)
        requires
            state_wf(MergeState::Double(*old(self))),
        ensures
            state_wf(MergeState::Double(*final(self))),
            forall|k: u64|
                state_weight(MergeState::Double(*final(self)), k) == state_weight(
                    MergeState::Double(*old(self)),
                    k,
                ),
            *old(self) is InProgress ==> *final(fuel) >= 1 && *final(self) is Complete,
            *old(self) is Complete ==> *final(self) == *old(self) && *final(fuel) == *old(fuel),
            *final(self) is Complete,
            *old(self) is InProgress ==> (match *final(self) {
                MergeVariant::Complete(b) => b is Some && b.unwrap().lower.has_elem
                    && !b.unwrap().upper.has_elem,
                _ => false,
            }),
    {
        let mut variant = MergeVariant::Complete(None);
        core::mem::swap(self, &mut variant);
        match variant {
            MergeVariant::InProgress(b1, b2, mut merge) => {
                merge.work(&b1, &b2, fuel);
                if *fuel > 0 {
                    let done = merge.done();
                    *self = MergeVariant::Complete(Some(done));
                } else {
                    *self = MergeVariant::InProgress(b1, b2, merge);
                }
            },
            MergeVariant::Complete(b) => {
                *self = MergeVariant::Complete(b);
            },
        }
    }

    /// Completes and extracts the batch, unless structurally empty: a
    /// completed variant hands its stored option back unchanged, and an
    /// in-progress merge runs to completion and hands back the merged
    /// batch with bounds covering the unit interval.
    pub fn complete(self) -> (r: Option<OrdZSet>)
        requires
            state_wf(MergeState::Double(self)),
        ensures
            opt_wf(r),
            forall|k: u64| opt_weight(r, k) == state_weight(MergeState::Double(self), k),
            (match self {
                MergeVariant::Complete(b) => r == b,
                MergeVariant::InProgress(_, _, _) => r is Some && r.unwrap().lower.has_elem
                    && !r.unwrap().upper.has_elem,
            }),
    {
        let mut this = self;
        let mut fuel = isize::MAX;
        this.work(&mut fuel);
        match this {
            MergeVariant::Complete(batch) => batch,
            MergeVariant::InProgress(_, _, _) => {
                proof {
                    assert(false);
                }
                None
            },
        }
    }
}

impl MergeState {
    /// The number of actual updates contained in the level, saturating at
    /// the machine word.
    pub fn len(&self) -> (r: usize)
        ensures
            state_len(*self) <= usize::MAX ==> r == state_len(*self),
            r <= state_len(*self),
            (r == 0) == (state_len(*self) == 0),
            *self is Single ==> r == state_len(*self),
    {
        match self {
            MergeState::Single(Some(b)) => b.len(),
            MergeState::Double(MergeVariant::InProgress(b1, b2, _)) => {
                let l1 = b1.len();
                let l2 = b2.len();
                if usize::MAX - l1 >= l2 {
                    l1 + l2
                } else {
                    usize::MAX
                }
            },
            MergeState::Double(MergeVariant::Complete(Some(b))) => b.len(),
            _ => 0,
        }
    }

    /// True only for the vacant layer.
    pub fn is_vacant(&self) -> (r: bool)
        ensures
            r == (*self is Vacant),
    {
        matches!(self, MergeState::Vacant)
    }

    /// True only for a layer holding a single batch.
    pub fn is_single(&self) -> (r: bool)
        ensures
            r == (*self is Single),
    {
        matches!(self, MergeState::Single(_))
    }

    /// True only for a layer holding a pair of batches.
    pub fn is_double(&self) -> (r: bool)
        ensures
            r == state_is_double(*self),
    {
        matches!(self, MergeState::Double(_))
    }

    /// True iff the layer is a completed merge, ready for extraction.
    pub fn is_complete(&self) -> (r: bool)
        ensures
            r == (match *self {
                MergeState::Double(MergeVariant::Complete(_)) => true,
                _ => false,
            }),
    {
        matches!(self, MergeState::Double(MergeVariant::Complete(_)))
    }

    /// True iff the layer holds an in-progress merge.
    pub fn is_inprogress(&self) -> (r: bool)
        ensures
            r == state_is_inprogress(*self),
    {
        matches!(self, MergeState::Double(MergeVariant::InProgress(..)))
    }

    /// Immediately completes any merge and extracts the batch, leaving the
    /// layer vacant. A vacant layer yields `None`; a stored option comes
    /// back exactly as it stands, so a structurally empty placeholder
    /// yields `None` and an empty stored batch yields `Some` of it; an
    /// in-progress merge runs to completion and yields the merged batch
    /// with bounds covering the unit interval.
    pub fn complete(&mut self) -> (r: Option<OrdZSet>)
        requires
            state_wf(*old(self)),
        ensures
            *final(self) is Vacant,
            opt_wf(r),
            forall|k: u64| opt_weight(r, k) == state_weight(*old(self), k),
            (match *old(self) {
                MergeState::Vacant => r is None,
                MergeState::Single(b) => r == b,
                MergeState::Double(MergeVariant::Complete(b)) => r == b,
                MergeState::Double(MergeVariant::InProgress(_, _, _)) => r is Some
                    && r.unwrap().lower.has_elem && !r.unwrap().upper.has_elem,
            }),
    {
        let mut taken = MergeState::Vacant;
        core::mem::swap(self, &mut taken);
        match taken {
            MergeState::Vacant => None,
            MergeState::Single(batch) => batch,
            MergeState::Double(variant) => variant.complete(),
        }
    }

    /// Performs a bounded amount of work towards a merge; only in-progress
    /// merges make progress, and they complete.
    pub fn work(&mut self, fuel: &mut isize)
        requires
            state_wf(*old(self)),
        ensures
            state_wf(*final(self)),
            forall|k: u64| state_weight(*final(self), k) == state_weight(*old(self), k),
            state_is_inprogress(*old(self)) ==> *final(fuel) >= 1 && (match *final(self) {
                MergeState::Double(MergeVariant::Complete(_)) => true,
                _ => false,
            }),
            !state_is_inprogress(*old(self)) ==> *final(self) == *old(self) && *final(fuel)
                == *old(fuel),
            state_is_double(*final(self)) == state_is_double(*old(self)),
    {
        let mut taken = MergeState::Vacant;
        core::mem::swap(self, &mut taken);
        match taken {
            MergeState::Double(mut layer) => {
                let was_inprogress = matches!(layer, MergeVariant::InProgress(..));
                if was_inprogress {
                    layer.work(fuel);
                }
                *self = MergeState::Double(layer);
            },
            other => {
                *self = other;
            },
        }
    }

    /// Extracts the merge state, leaving the layer vacant.
    pub fn take(&mut self) -> (r: Self)
        ensures
            r == *old(self),
            *final(self) is Vacant,
    {
        let mut taken = MergeState::Vacant;
        core::mem::swap(self, &mut taken);
        taken
    }

    /// Initiates the merge of an old batch with a new batch. Either batch
    /// may be `None`, standing for a structurally empty batch kept for
    /// bookkeeping; no computation is performed for those.
    pub fn begin_merge(batch1: Option<OrdZSet>, batch2: Option<OrdZSet>) -> (r: MergeState)
        requires
            opt_wf(batch1),
            opt_wf(batch2),
        ensures
            state_is_double(r),
            state_wf(r),
            forall|k: u64|
                state_weight(r, k) == wadd(opt_weight(batch1, k), opt_weight(batch2, k)),
            begin_merge_shape(r, batch1, batch2),
            state_len(r) == opt_len(batch1) + opt_len(batch2),
    {
        let variant = match (batch1, batch2) {
            (Some(batch1), Some(batch2)) => {
                let begin_merge = batch1.begin_merge(&batch2);
                MergeVariant::InProgress(batch1, batch2, begin_merge)
            },
            (None, Some(x)) => {
                proof {
                    assert forall|k: u64|
                        seq_weight(x@, k) == wadd(0i64, seq_weight(x@, k)) by {
                        lemma_wadd_zero(seq_weight(x@, k));
                        lemma_wadd_comm(seq_weight(x@, k), 0i64);
                    }
                }
                MergeVariant::Complete(Some(x))
            },
            (Some(x), None) => {
                proof {
                    assert forall|k: u64|
                        seq_weight(x@, k) == wadd(seq_weight(x@, k), 0i64) by {
                        lemma_wadd_zero(seq_weight(x@, k));
                    }
                }
                MergeVariant::Complete(Some(x))
            },
            (None, None) => MergeVariant::Complete(None),
        };
        MergeState::Double(variant)
    }
}

/// `2^k`, the nominal tuple capacity of level `k`.
pub open spec fn two_to(k: nat) -> nat
    decreases k,
{
    if k == 0 {
        1nat
    } else {
        2 * two_to((k - 1) as nat)
    }
}

/// `app` is the smallest level whose capacity holds `n` tuples.
pub open spec fn level_fits(n: int, app: nat) -> bool {
    n <= two_to(app) && (app > 0 ==> two_to((app - 1) as nat) < n)
}

/// The smallest level whose capacity holds `n` tuples.
fn level_of(n: usize) -> (r: usize)
    ensures
        n as nat <= two_to(r as nat),
        r > 0 ==> two_to((r - 1) as nat) < n as nat,
        level_fits(n as int, r as nat),
{
    let mut level: usize = 0;
    let mut cap: usize = 1;
    while cap < n && cap <= usize::MAX / 2
        invariant
            cap as nat == two_to(level as nat),
            level > 0 ==> two_to((level - 1) as nat) < n as nat,
            cap >= 1,
        decreases (if cap < n { n - cap } else { 0int }),
    {
        proof {
            assert(two_to((level + 1) as nat) == 2 * two_to(level as nat));
            lemma_two_to_exceeds_exponent(level as nat);
        }
        cap = cap * 2;
        level = level + 1;
    }
    if cap < n {
        proof {
            assert(two_to((level + 1) as nat) == 2 * two_to(level as nat));
            lemma_two_to_exceeds_exponent(level as nat);
        }
        level = level + 1;
    }
    level
}

/// A level's capacity exceeds the level number, so levels stay small.
proof fn lemma_two_to_exceeds_exponent(k: nat)
    ensures
        two_to(k) > k,
    decreases k,
{
    if k > 0 {
        lemma_two_to_exceeds_exponent((k - 1) as nat);
    }
}

/// Level capacities grow with the level.
proof fn lemma_two_to_monotonic(a: nat, b: nat)
    requires
        a <= b,
    ensures
        two_to(a) <= two_to(b),
    decreases b,
{
    if a < b {
        lemma_two_to_monotonic(a, (b - 1) as nat);
    }
}

/// Only one level is the smallest whose capacity holds `n` tuples.
proof fn lemma_level_fits_unique(n: int, a: nat, b: nat)
    requires
        level_fits(n, a),
        level_fits(n, b),
    ensures
        a == b,
{
    if a < b {
        lemma_two_to_monotonic(a, (b - 1) as nat);
    }
    if b < a {
        lemma_two_to_monotonic(b, (a - 1) as nat);
    }
}

/// A slot carrying neither updates nor a pending merge: vacant, or a
/// structurally empty placeholder batch.
pub open spec fn state_is_trivial(m: MergeState) -> bool {
    match m {
        MergeState::Vacant => true,
        MergeState::Single(b) => b is None,
        MergeState::Double(_) => false,
    }
}

/// Layer tidying absorbed exactly the `j` slots directly below the
/// topmost one: each was vacant or a placeholder, every other slot is
/// preserved in order, the walk never descended below the level fitting
/// the top's size, and it stopped only at that level or at a slot with
/// content.
pub open spec fn tidy_absorbs(after: Seq<MergeState>, before: Seq<MergeState>, j: int) -> bool {
    let n = before.len() as int;
    let top = before.last();
    &&& 0 <= j <= n - 1
    &&& after == before.take(n - 1 - j).push(top)
    &&& forall|t: int| 0 <= t < j ==> state_is_trivial(#[trigger] before[n - 2 - t])
    &&& forall|app: nat|
        #[trigger] level_fits(state_len(top), app) ==> (j > 0 ==> app <= n - 1 - j) && (n - 1 - j
            > app ==> !state_is_trivial(before[n - 2 - j]))
}

/// What layer tidying does: when the topmost slot holds a single batch,
/// some run of vacant or placeholder slots directly below it is absorbed,
/// and otherwise nothing changes.
pub open spec fn tidy_effect(after: Seq<MergeState>, before: Seq<MergeState>) -> bool {
    if before.len() == 0 || !(before.last() is Single) {
        after == before
    } else {
        exists|j: int| tidy_absorbs(after, before, j)
    }
}

/// No layer holds a pair of batches, and at most one holds any updates.
pub open spec fn states_reduced(s: Seq<MergeState>) -> bool {
    &&& forall|i: int| 0 <= i < s.len() ==> !state_is_double(#[trigger] s[i])
    &&& forall|i: int, j: int|
        0 <= i < j < s.len() ==> !(state_len(s[i]) > 0 && state_len(s[j]) > 0)
}

/// Every layer strictly below `lvl`, except a topmost slot, is vacant.
pub open spec fn lower_layers_vacant(s: Seq<MergeState>, lvl: int) -> bool {
    forall|i: int| 0 <= i < lvl && i < s.len() - 1 ==> (#[trigger] s[i]) is Vacant
}

/// The placeholder size `exert` derives from its fuel: the fuel itself,
/// clamped below at one virtual update.
pub open spec fn exert_nudge(fuel: isize) -> int {
    if fuel >= 1 {
        fuel as int
    } else {
        1
    }
}

/// Tidying preserves whether some layer holds a pair of batches: only
/// slots without content are absorbed, and every other slot survives.
proof fn lemma_tidy_effect_doubles(after: Seq<MergeState>, before: Seq<MergeState>)
    requires
        tidy_effect(after, before),
    ensures
        has_double_from(after, 0) == has_double_from(before, 0),
{
    if before.len() == 0 || !(before.last() is Single) {
        assert(after == before);
    } else {
        let j = choose|j: int| tidy_absorbs(after, before, j);
        let n = before.len() as int;
        let top = before.last();
        if has_double_from(before, 0) {
            let p = choose|p: int| 0 <= p < n && state_is_double(before[p]);
            assert(p != n - 1);
            if p >= n - 1 - j {
                let t = n - 2 - p;
                assert(state_is_trivial(before[n - 2 - t]));
                assert(false);
            }
            assert(after[p] == before[p]);
            assert(has_double_from(after, 0));
        }
        if has_double_from(after, 0) {
            let q = choose|q: int| 0 <= q < after.len() && state_is_double(after[q]);
            assert(after.len() == n - j);
            if q == n - 1 - j {
                assert(after[q] == top);
                assert(false);
            }
            assert(after[q] == before[q]);
            assert(has_double_from(before, 0));
        }
    }
}

/// Tidying preserves the reduced state: the absorbed slots carry no
/// updates, and the surviving slots keep their relative order.
proof fn lemma_tidy_effect_reduced(after: Seq<MergeState>, before: Seq<MergeState>)
    requires
        tidy_effect(after, before),
    ensures
        states_reduced(after) == states_reduced(before),
{
    if before.len() == 0 || !(before.last() is Single) {
        assert(after == before);
    } else {
        let j = choose|j: int| tidy_absorbs(after, before, j);
        let n = before.len() as int;
        let top = before.last();
        let m = n - 1 - j;
        assert(after.len() == m + 1);
        assert(forall|i: int| 0 <= i < m ==> after[i] == before[i]);
        assert(after[m] == top);
        assert forall|p: int| m <= p < n - 1 implies state_is_trivial(#[trigger] before[p]) by {
            let t = n - 2 - p;
            assert(state_is_trivial(before[n - 2 - t]));
        }
        if states_reduced(before) {
            assert forall|i: int, i2: int|
                0 <= i < i2 < after.len() implies !(state_len(after[i]) > 0 && state_len(
                after[i2],
            ) > 0) by {
                let p = if i < m { i } else { n - 1 };
                let p2 = if i2 < m { i2 } else { n - 1 };
                assert(after[i] == before[p]);
                assert(after[i2] == before[p2]);
                assert(!(state_len(before[p]) > 0 && state_len(before[p2]) > 0));
            }
            assert(states_reduced(after));
        }
        if states_reduced(after) {
            assert forall|p: int| 0 <= p < n implies !state_is_double(#[trigger] before[p]) by {
                if p < m {
                    assert(before[p] == after[p]);
                } else if p == n - 1 {
                    assert(before[p] == after[m]);
                } else {
                    assert(state_is_trivial(before[p]));
                }
            }
            assert forall|p: int, p2: int|
                0 <= p < p2 < n implies !(state_len(before[p]) > 0 && state_len(before[p2])
                > 0) by {
                if state_len(before[p]) > 0 && state_len(before[p2]) > 0 {
                    assert(!state_is_trivial(before[p]));
                    assert(!state_is_trivial(before[p2]));
                    let i = if p < m { p } else { m };
                    let i2 = if p2 < m { p2 } else { m };
                    assert(p < m || p == n - 1);
                    assert(p2 < m || p2 == n - 1);
                    assert(before[p] == after[i]);
                    assert(before[p2] == after[i2]);
                    assert(i < i2);
                    assert(!(state_len(after[i]) > 0 && state_len(after[i2]) > 0));
                }
            }
            assert(states_reduced(before));
        }
    }
}

/// Tidying keeps vacant layers below a level vacant: the surviving
/// prefix is preserved slot for slot.
proof fn lemma_tidy_effect_lower_vacant(after: Seq<MergeState>, before: Seq<MergeState>, lvl: int)
    requires
        tidy_effect(after, before),
        forall|i: int| 0 <= i < lvl && i < before.len() ==> (#[trigger] before[i]) is Vacant,
    ensures
        lower_layers_vacant(after, lvl),
{
    if before.len() == 0 || !(before.last() is Single) {
        assert(after == before);
    } else {
        let j = choose|j: int| tidy_absorbs(after, before, j);
        let n = before.len() as int;
        let m = n - 1 - j;
        assert forall|i: int| 0 <= i < lvl && i < after.len() - 1 implies (
        #[trigger] after[i]) is Vacant by {
            assert(after[i] == before[i]);
        }
    }
}

/// A code for the layer's shape: vacant, a single batch, or a pair.
pub open spec fn state_code(m: MergeState) -> int {
    match m {
        MergeState::Vacant => 0,
        MergeState::Single(_) => 1,
        MergeState::Double(_) => 2,
    }
}

/// Some layer at or after `i` holds a pair of batches.
pub open spec fn has_double_from(s: Seq<MergeState>, i: int) -> bool {
    exists|j: int| i <= j < s.len() && state_is_double(#[trigger] s[j])
}

/// A sequence of layers that each carry no weight carries none in total.
proof fn lemma_states_weight_all_zero(s: Seq<MergeState>, k: u64)
    requires
        forall|i: int| 0 <= i < s.len() ==> state_weight(#[trigger] s[i], k) == 0i64,
    ensures
        states_weight(s, k) == 0i64,
    decreases s.len(),
{
    if s.len() > 0 {
        lemma_states_weight_all_zero(s.drop_last(), k);
        lemma_wadd_zero(0i64);
    }
}

/// The total number of tuples across a sequence of layers.
pub open spec fn states_len(s: Seq<MergeState>) -> int
    decreases s.len(),
{
    if s.len() == 0 {
        0
    } else {
        states_len(s.drop_last()) + state_len(s.last())
    }
}

proof fn lemma_states_len_nonneg(s: Seq<MergeState>)
    ensures
        states_len(s) >= 0,
    decreases s.len(),
{
    if s.len() > 0 {
        lemma_states_len_nonneg(s.drop_last());
    }
}

/// The spine's scalar fields, unchanged by internal layer maintenance.
pub open spec fn same_scalars(a: Spine, b: Spine) -> bool {
    a.lower == b.lower && a.upper == b.upper && a.effort == b.effort && a.dirty == b.dirty
}

/// An append-only collection of update batches, organized into levels and
/// merged progressively as new batches arrive.
pub struct Spine {
    /// The levels, from the smallest upward.
    pub merging: Vec<MergeState>,
    /// The running lower bound over all inserted batches.
    pub lower: Antichain,
    /// The running upper bound over all inserted batches.
    pub upper: Antichain,
    /// Effort multiplier: how much merge fuel each insertion contributes.
    pub effort: usize,
    /// Set when a batch is inserted; cleared by the caller.
    pub dirty: bool,
}

impl Spine {
    /// Every layer is well-formed.
    pub open spec fn slots_wf(self) -> bool {
        forall|i: int| 0 <= i < self.merging@.len() ==> state_wf(#[trigger] self.merging@[i])
    }

    /// At most one layer holds a pair of batches: merges complete within one
    /// round of fuel, so pairs never accumulate.
    pub open spec fn at_most_one_double(self) -> bool {
        forall|i: int, j: int|
            0 <= i < j < self.merging@.len() ==> !(state_is_double(self.merging@[i])
                && state_is_double(self.merging@[j]))
    }

    /// The spine's structural invariant.
    pub open spec fn wf(self) -> bool {
        self.slots_wf() && self.at_most_one_double() && self.effort >= 1
    }

    /// The weight key `k` carries across the whole trace: the spine's Z-set.
    pub open spec fn weight(self, k: u64) -> i64 {
        states_weight(self.merging@, k)
    }

    /// No maintenance work remains: no pairs, and at most one non-empty
    /// layer.
    pub open spec fn is_reduced(self) -> bool {
        states_reduced(self.merging@)
    }

    /// Allocates a fueled spine with the given effort multiplier; zero
    /// effort is clamped to one.
    pub fn with_effort(effort: usize) -> (r: Self)
        ensures
            r.wf(),
            r.merging@.len() == 0,
            forall|k: u64| r.weight(k) == 0i64,
            r.lower.has_elem,
            !r.upper.has_elem,
            !r.dirty,
            r.effort == if effort == 0 { 1usize } else { effort },
    {
        let effort = if effort == 0 {
            1
        } else {
            effort
        };
        Spine {
            merging: Vec::new(),
            lower: Antichain::from_elem(()),
            upper: Antichain::new(),
            effort,
            dirty: false,
        }
    }

    /// Allocates a fueled spine with the default effort of one.
    pub fn new() -> (r: Self)
        ensures
            r.wf(),
            r.merging@.len() == 0,
            forall|k: u64| r.weight(k) == 0i64,
            r.lower.has_elem,
            !r.upper.has_elem,
            !r.dirty,
            r.effort == 1,
    {
        Self::with_effort(1)
    }

    /// The lower bound of the trace's timestamp interval.
    pub fn lower(&self) -> (r: &Antichain)
        ensures
            *r == self.lower,
    {
        &self.lower
    }

    /// The upper bound of the trace's timestamp interval.
    pub fn upper(&self) -> (r: &Antichain)
        ensures
            *r == self.upper,
    {
        &self.upper
    }

    /// True after an insertion, until the caller clears it.
    pub fn dirty(&self) -> (r: bool)
        ensures
            r == self.dirty,
    {
        self.dirty
    }

    /// Clears the dirty flag.
    pub fn clear_dirty_flag(&mut self)
        ensures
            *final(self) == (Spine { dirty: false, ..*old(self) }),
    {
        self.dirty = false;
    }

    /// The total number of tuples across all layers, saturating at the
    /// machine word.
    pub fn len(&self) -> (r: usize)
        ensures
            r <= states_len(self.merging@),
            states_len(self.merging@) <= usize::MAX ==> r == states_len(self.merging@),
    {
        let mut result: usize = 0;
        let mut index: usize = 0;
        while index < self.merging.len()
            invariant
                index <= self.merging@.len(),
                result <= states_len(self.merging@.take(index as int)),
                states_len(self.merging@.take(index as int)) <= usize::MAX ==> result
                    == states_len(self.merging@.take(index as int)),
            decreases self.merging@.len() - index,
        {
            proof {
                assert(self.merging@.take(index + 1).drop_last() =~= self.merging@.take(
                    index as int,
                ));
                assert(self.merging@.take(index + 1).last() == self.merging@[index as int]);
                lemma_states_len_nonneg(self.merging@.take(index as int));
            }
            let l = self.merging[index].len();
            if usize::MAX - result >= l {
                result = result + l;
            } else {
                result = usize::MAX;
            }
            index += 1;
        }
        proof {
            assert(self.merging@.take(self.merging@.len() as int) =~= self.merging@);
        }
        result
    }

    /// Inserts a batch at a specific layer.
    ///
    /// The layer must not already hold a pair of batches: the fueling
    /// discipline guarantees that every caller finds the target layer
    /// vacant or holding a single batch.
    fn insert_at(&mut self, batch: Option<OrdZSet>, index: usize)
        requires
            old(self).slots_wf(),
            opt_wf(batch),
            index < old(self).merging@.len() ==> !state_is_double(
                old(self).merging@[index as int],
            ),
        ensures
            final(self).slots_wf(),
            same_scalars(*final(self), *old(self)),
            final(self).merging@.len() == (if index + 1 > old(self).merging@.len() {
                index + 1
            } else {
                old(self).merging@.len() as int
            }),
            forall|i: int|
                0 <= i < final(self).merging@.len() && i != index
                    ==> final(self).merging@[i] == (if i < old(self).merging@.len() {
                    old(self).merging@[i]
                } else {
                    MergeState::Vacant
                }),
            state_is_double(final(self).merging@[index as int]) == (index < old(
                self,
            ).merging@.len() && old(self).merging@[index as int] is Single),
            forall|k: u64|
                states_weight(final(self).merging@, k) == wadd(
                    states_weight(old(self).merging@, k),
                    opt_weight(batch, k),
                ),
    {
        // Ensure the spine is large enough.
        while self.merging.len() <= index
            invariant
                old(self).merging@.len() <= self.merging@.len(),
                self.merging@.len() > old(self).merging@.len() ==> self.merging@.len() <= index
                    + 1,
                self.merging@.take(old(self).merging@.len() as int) == old(self).merging@,
                forall|i: int|
                    old(self).merging@.len() <= i < self.merging@.len()
                        ==> self.merging@[i] is Vacant,
                forall|k: u64|
                    states_weight(self.merging@, k) == states_weight(old(self).merging@, k),
                same_scalars(*self, *old(self)),
            decreases index + 1 - self.merging@.len(),
        {
            let ghost pre = self.merging@;
            self.merging.push(MergeState::Vacant);
            proof {
                assert(self.merging@.drop_last() =~= pre);
                assert(self.merging@.take(old(self).merging@.len() as int) =~= pre.take(
                    old(self).merging@.len() as int,
                ));
                assert forall|k: u64|
                    states_weight(self.merging@, k) == states_weight(pre, k) by {
                    lemma_wadd_zero(states_weight(pre, k));
                }
            }
        }

        let ghost padded = self.merging@;
        // Insert the batch at the location.
        let mut taken = MergeState::Vacant;
        core::mem::swap(&mut taken, &mut self.merging[index]);
        let ghost old_slot = padded[index as int];
        match taken {
            MergeState::Vacant => {
                self.merging[index] = MergeState::Single(batch);
            },
            MergeState::Single(old_batch) => {
                let merged = MergeState::begin_merge(old_batch, batch);
                self.merging[index] = merged;
            },
            MergeState::Double(d) => {
                proof {
                    assert(false);
                }
                self.merging[index] = MergeState::Double(d);
            },
        }
        proof {
            assert(self.merging@ =~= padded.update(
                index as int,
                self.merging@[index as int],
            ));
            let new_slot = self.merging@[index as int];
            assert forall|i: int|
                0 <= i < self.merging@.len() implies state_wf(#[trigger] self.merging@[i]) by {
                if i != index {
                    assert(self.merging@[i] == padded[i]);
                    if i < old(self).merging@.len() {
                        assert(padded[i] == old(self).merging@[i]);
                    }
                }
            }
            assert forall|k: u64|
                states_weight(self.merging@, k) == wadd(
                    states_weight(old(self).merging@, k),
                    opt_weight(batch, k),
                ) by {
                lemma_states_weight_update(padded, index as int, new_slot, k);
                let w_old = state_weight(old_slot, k);
                let w_new = state_weight(new_slot, k);
                let b = opt_weight(batch, k);
                // w_new == wadd(w_old, b) in every branch.
                if old_slot is Vacant {
                    lemma_wadd_zero(b);
                    lemma_wadd_comm(b, 0i64);
                }
                // wadd(W', w_old) == wadd(W, w_new) == wadd(W, wadd(w_old, b))
                lemma_wadd_comm(w_old, b);
                lemma_wadd_assoc(states_weight(padded, k), b, w_old);
                lemma_wadd_assoc(states_weight(padded, k), w_old, b);
                lemma_wadd_cancel(
                    states_weight(self.merging@, k),
                    wadd(states_weight(padded, k), b),
                    w_old,
                );
            }
        }
    }

    /// Completes and extracts whatever is at the layer, leaving it vacant.
    fn complete_at(&mut self, index: usize) -> (r: Option<OrdZSet>)
        requires
            old(self).slots_wf(),
            index < old(self).merging@.len(),
        ensures
            final(self).slots_wf(),
            same_scalars(*final(self), *old(self)),
            final(self).merging@ == old(self).merging@.update(index as int, MergeState::Vacant),
            opt_wf(r),
            forall|k: u64| opt_weight(r, k) == state_weight(old(self).merging@[index as int], k),
            forall|k: u64|
                wadd(states_weight(final(self).merging@, k), opt_weight(r, k)) == states_weight(
                    old(self).merging@,
                    k,
                ),
    {
        let mut taken = MergeState::Vacant;
        core::mem::swap(&mut taken, &mut self.merging[index]);
        let r = taken.complete();
        proof {
            assert forall|k: u64|
                wadd(states_weight(final(self).merging@, k), opt_weight(r, k)) == states_weight(
                    old(self).merging@,
                    k,
                ) by {
                lemma_states_weight_update(
                    old(self).merging@,
                    index as int,
                    MergeState::Vacant,
                    k,
                );
                let w_old = state_weight(old(self).merging@[index as int], k);
                lemma_wadd_zero(states_weight(old(self).merging@, k));
                // wadd(W', w_old) == wadd(W, 0) == W, and opt_weight(r) == w_old.
            }
        }
        r
    }

    /// Applies an amount of fuel to merges in progress.
    ///
    /// Each level receives the fuel independently. Because the merger
    /// clamps fuel to keep at least one unit, every merge this pass touches
    /// completes and is promoted to the next level, so no pair of batches
    /// survives it.
    pub fn apply_fuel(&mut self, fuel: &mut isize)
        requires
            old(self).wf(),
        ensures
            final(self).wf(),
            same_scalars(*final(self), *old(self)),
            forall|i: int|
                0 <= i < final(self).merging@.len() ==> !state_is_double(
                    #[trigger] final(self).merging@[i],
                ),
            forall|k: u64| final(self).weight(k) == old(self).weight(k),
            *final(fuel) == *old(fuel),
    {
        let mut index: usize = 0;
        while index < self.merging.len()
            invariant
                self.slots_wf(),
                self.at_most_one_double(),
                same_scalars(*self, *old(self)),
                index <= self.merging@.len(),
                forall|i: int|
                    0 <= i < index ==> !state_is_double(#[trigger] self.merging@[i]),
                forall|k: u64|
                    states_weight(self.merging@, k) == states_weight(old(self).merging@, k),
            decreases (if has_double_from(self.merging@, index as int) {
                1int
            } else {
                0int
            }), self.merging@.len() - index,
        {
            // Give each level independent fuel.
            let mut level_fuel = *fuel;
            let ghost pre = self.merging@;
            let mut state = MergeState::Vacant;
            core::mem::swap(&mut state, &mut self.merging[index]);
            let ghost hollowed = self.merging@;
            state.work(&mut level_fuel);
            proof {
                assert(hollowed =~= pre.update(index as int, MergeState::Vacant));
            }
            if state.is_complete() {
                // A completed merge moves immediately to the next level,
                // which the invariant guarantees holds no pair.
                let complete = state.complete();
                proof {
                    assert(state_is_double(pre[index as int]));
                }
                self.insert_at(complete, index + 1);
                proof {
                    assert forall|k: u64|
                        states_weight(self.merging@, k) == states_weight(
                            old(self).merging@,
                            k,
                        ) by {
                        lemma_states_weight_update(
                            pre,
                            index as int,
                            MergeState::Vacant,
                            k,
                        );
                        lemma_wadd_zero(states_weight(pre, k));
                    }
                    assert forall|i: int, j: int|
                        0 <= i < j < self.merging@.len() implies !(state_is_double(
                        self.merging@[i],
                    ) && state_is_double(self.merging@[j])) by {
                        if i != index + 1 && j != index + 1 {
                            assert(self.merging@[i] == (if i < hollowed.len() {
                                hollowed[i]
                            } else {
                                MergeState::Vacant
                            }));
                            assert(self.merging@[j] == (if j < hollowed.len() {
                                hollowed[j]
                            } else {
                                MergeState::Vacant
                            }));
                        }
                    }
                }
            } else {
                self.merging[index] = state;
                proof {
                    assert(self.merging@ =~= pre.update(index as int, state));
                    assert(!state_is_double(state));
                    assert forall|k: u64|
                        states_weight(self.merging@, k) == states_weight(
                            old(self).merging@,
                            k,
                        ) by {
                        lemma_states_weight_update(pre, index as int, state, k);
                        lemma_states_weight_update(
                            pre,
                            index as int,
                            MergeState::Vacant,
                            k,
                        );
                        lemma_wadd_cancel(
                            states_weight(self.merging@, k),
                            states_weight(pre, k),
                            state_weight(pre[index as int], k),
                        );
                    }
                    assert forall|i: int, j: int|
                        0 <= i < j < self.merging@.len() implies !(state_is_double(
                        self.merging@[i],
                    ) && state_is_double(self.merging@[j])) by {
                        assert(self.merging@[i] == (if i == index {
                            state
                        } else {
                            pre[i]
                        }));
                        assert(self.merging@[j] == (if j == index {
                            state
                        } else {
                            pre[j]
                        }));
                    }
                }
            }
            index += 1;
        }
    }

    /// Ensures that an insertion at the layer will succeed by rolling all
    /// batches at lower layers up into one batch promoted into the layer.
    fn roll_up(&mut self, index: usize)
        requires
            old(self).wf(),
            forall|i: int|
                0 <= i < old(self).merging@.len() ==> !state_is_double(
                    #[trigger] old(self).merging@[i],
                ),
        ensures
            final(self).wf(),
            same_scalars(*final(self), *old(self)),
            index < final(self).merging@.len(),
            forall|i: int| 0 <= i < index ==> final(self).merging@[i] is Vacant,
            !state_is_double(final(self).merging@[index as int]),
            forall|i: int|
                0 <= i < final(self).merging@.len() && i != index + 1 ==> !state_is_double(
                    #[trigger] final(self).merging@[i],
                ),
            (index + 1 < final(self).merging@.len() && state_is_double(
                final(self).merging@[index + 1],
            )) ==> final(self).merging@[index as int] is Vacant,
            forall|k: u64| final(self).weight(k) == old(self).weight(k),
    {
        // Ensure entries sufficient for the target layer.
        while self.merging.len() <= index
            invariant
                old(self).merging@.len() <= self.merging@.len(),
                self.merging@.len() > old(self).merging@.len() ==> self.merging@.len() <= index
                    + 1,
                self.merging@.take(old(self).merging@.len() as int) == old(self).merging@,
                forall|i: int|
                    old(self).merging@.len() <= i < self.merging@.len()
                        ==> self.merging@[i] is Vacant,
                forall|k: u64|
                    states_weight(self.merging@, k) == states_weight(old(self).merging@, k),
                same_scalars(*self, *old(self)),
            decreases index + 1 - self.merging@.len(),
        {
            let ghost pre = self.merging@;
            self.merging.push(MergeState::Vacant);
            proof {
                assert(self.merging@.drop_last() =~= pre);
                assert(self.merging@.take(old(self).merging@.len() as int) =~= pre.take(
                    old(self).merging@.len() as int,
                ));
                assert forall|k: u64|
                    states_weight(self.merging@, k) == states_weight(pre, k) by {
                    lemma_wadd_zero(states_weight(pre, k));
                }
            }
        }

        proof {
            assert forall|j: int|
                0 <= j < self.merging@.len() implies state_wf(#[trigger] self.merging@[j])
                && !state_is_double(self.merging@[j]) by {
                if j < old(self).merging@.len() {
                    assert(self.merging@.take(old(self).merging@.len() as int)[j]
                        == self.merging@[j]);
                }
            }
        }
        let ghost padded = self.merging@;

        // Collect and merge all batches at layers below the target.
        let mut merged: Option<OrdZSet> = None;
        let mut i: usize = 0;
        while i < index
            invariant
                i <= index < self.merging@.len(),
                self.merging@.len() == padded.len(),
                self.slots_wf(),
                opt_wf(merged),
                forall|j: int| 0 <= j < i ==> self.merging@[j] is Vacant,
                forall|j: int|
                    0 <= j < self.merging@.len() ==> !state_is_double(
                        #[trigger] self.merging@[j],
                    ),
                forall|j: int| i <= j < padded.len() ==> self.merging@[j] == padded[j],
                forall|k: u64|
                    wadd(states_weight(self.merging@, k), opt_weight(merged, k))
                        == states_weight(padded, k),
                same_scalars(*self, *old(self)),
            decreases index - i,
        {
            let ghost w_before = self.merging@;
            let ghost m_before = merged;
            self.insert_at(merged, i);
            let ghost w_mid = self.merging@;
            merged = self.complete_at(i);
            proof {
                assert(self.merging@ =~= w_mid.update(i as int, MergeState::Vacant));
                assert forall|j: int|
                    0 <= j < self.merging@.len() implies !state_is_double(
                    #[trigger] self.merging@[j],
                ) by {
                    if j != i {
                        assert(self.merging@[j] == w_mid[j]);
                        assert(w_mid[j] == w_before[j]);
                    }
                }
                assert forall|k: u64|
                    wadd(states_weight(self.merging@, k), opt_weight(merged, k))
                        == states_weight(padded, k) by {
                    assert(states_weight(w_mid, k) == wadd(
                        states_weight(w_before, k),
                        opt_weight(m_before, k),
                    ));
                    assert(wadd(states_weight(self.merging@, k), opt_weight(merged, k))
                        == states_weight(w_mid, k));
                }
            }
            i += 1;
        }

        // Introduce the rolled-up batch at the target layer.
        let ghost before_final = self.merging@;
        let ghost m_final = merged;
        self.insert_at(merged, index);
        proof {
            assert forall|k: u64|
                states_weight(self.merging@, k) == states_weight(padded, k) by {
                assert(states_weight(self.merging@, k) == wadd(
                    states_weight(before_final, k),
                    opt_weight(m_final, k),
                ));
            }
        }

        // If the insertion began a merge, complete it eagerly and promote
        // the result, so the upcoming insertion at the target layer finds
        // no pair.
        let is_dbl = self.merging[index].is_double();
        if is_dbl {
            let ghost w_a = self.merging@;
            let promoted = self.complete_at(index);
            let ghost w_b = self.merging@;
            let ghost m_p = promoted;
            self.insert_at(promoted, index + 1);
            proof {
                assert forall|k: u64|
                    states_weight(self.merging@, k) == states_weight(padded, k) by {
                    assert(wadd(states_weight(w_b, k), opt_weight(m_p, k)) == states_weight(
                        w_a,
                        k,
                    ));
                    assert(states_weight(self.merging@, k) == wadd(
                        states_weight(w_b, k),
                        opt_weight(m_p, k),
                    ));
                }
            }
        }
    }

    /// Attempts to draw the largest layer down to a level appropriate to
    /// its size by absorbing vacant and structurally empty layers below
    /// it; halts on a layer with real content or a pair of batches.
    fn tidy_layers(&mut self)
        requires
            old(self).wf(),
        ensures
            final(self).wf(),
            same_scalars(*final(self), *old(self)),
            forall|k: u64| final(self).weight(k) == old(self).weight(k),
            final(self).merging@.len() <= old(self).merging@.len(),
            tidy_effect(final(self).merging@, old(self).merging@),
    {
        if self.merging.len() == 0 {
            return ;
        }
        let mut length = self.merging.len();
        if !self.merging[length - 1].is_single() {
            return ;
        }
        // The level this layer's tuple count would call for.
        let appropriate_level = level_of(self.merging[length - 1].len());
        let ghost orig = self.merging@;
        let ghost n = orig.len() as int;
        proof {
            assert(self.merging@ =~= orig.take(n - 1).push(orig.last()));
        }

        // Continue only as far as is appropriate.
        while appropriate_level < length - 1
            invariant
                old(self).wf(),
                orig == old(self).merging@,
                n == orig.len(),
                orig.last() is Single,
                level_fits(state_len(orig.last()), appropriate_level as nat),
                self.slots_wf(),
                self.at_most_one_double(),
                same_scalars(*self, *old(self)),
                1 <= length == self.merging@.len() <= n,
                self.merging@ == orig.take(length - 1).push(orig.last()),
                forall|t: int|
                    0 <= t < n - length ==> state_is_trivial(#[trigger] orig[n - 2 - t]),
                length < n ==> (appropriate_level as int) < length,
                self.merging@[length - 1] is Single,
                forall|k: u64|
                    states_weight(self.merging@, k) == states_weight(old(self).merging@, k),
            decreases length,
        {
            let ghost pre = self.merging@;
            let mut taken = MergeState::Vacant;
            core::mem::swap(&mut taken, &mut self.merging[length - 2]);
            let ghost hollowed = self.merging@;
            proof {
                assert(hollowed =~= pre.update(length - 2, MergeState::Vacant));
                assert(pre[length - 2] == orig[length - 2]);
            }
            match taken {
                MergeState::Vacant => {
                    proof {
                        assert(state_is_trivial(orig[length - 2]));
                    }
                    let _removed = self.merging.remove(length - 2);
                    length = self.merging.len();
                },
                MergeState::Single(None) => {
                    proof {
                        assert(state_is_trivial(orig[length - 2]));
                    }
                    let _removed = self.merging.remove(length - 2);
                    length = self.merging.len();
                },
                other => {
                    self.merging[length - 2] = other;
                    proof {
                        assert(self.merging@ =~= pre);
                        let j = n - length;
                        assert(!state_is_trivial(orig[length - 2]));
                        assert forall|app: nat|
                            #[trigger] level_fits(state_len(orig.last()), app) implies (j > 0
                            ==> app <= n - 1 - j) && (n - 1 - j > app ==> !state_is_trivial(
                            orig[n - 2 - j],
                        )) by {
                            lemma_level_fits_unique(
                                state_len(orig.last()),
                                app,
                                appropriate_level as nat,
                            );
                        }
                        assert(tidy_absorbs(self.merging@, orig, j));
                    }
                    return ;
                },
            }
            proof {
                let removed_at = length as int - 1;
                assert(self.merging@ =~= hollowed.remove(removed_at));
                assert forall|k: u64|
                    states_weight(self.merging@, k) == states_weight(
                        old(self).merging@,
                        k,
                    ) by {
                    lemma_states_weight_update(
                        pre,
                        removed_at,
                        MergeState::Vacant,
                        k,
                    );
                    lemma_wadd_zero(states_weight(pre, k));
                    lemma_wadd_zero(states_weight(hollowed, k));
                    lemma_states_weight_remove(hollowed, removed_at, k);
                }
                assert forall|i: int|
                    0 <= i < self.merging@.len() implies state_wf(
                    #[trigger] self.merging@[i],
                ) by {
                    if i < removed_at {
                        assert(self.merging@[i] == hollowed[i]);
                    } else {
                        assert(self.merging@[i] == hollowed[i + 1]);
                    }
                }
                assert forall|i: int, j: int|
                    0 <= i < j < self.merging@.len() implies !(state_is_double(
                    self.merging@[i],
                ) && state_is_double(self.merging@[j])) by {
                    let pi = if i < removed_at {
                        i
                    } else {
                        i + 1
                    };
                    let pj = if j < removed_at {
                        j
                    } else {
                        j + 1
                    };
                    assert(self.merging@[i] == hollowed[pi]);
                    assert(self.merging@[j] == hollowed[pj]);
                }
                assert(self.merging@[length - 1] == hollowed[length as int]);
                assert(self.merging@ =~= orig.take(length - 1).push(orig.last()));
                assert forall|t: int|
                    0 <= t < n - length implies state_is_trivial(#[trigger] orig[n - 2 - t]) by {
                    if t == n - length - 1 {
                        assert(orig[n - 2 - t] == orig[length as int - 1]);
                    }
                }
            }
        }
        proof {
            let j = n - length;
            assert forall|app: nat|
                #[trigger] level_fits(state_len(orig.last()), app) implies (j > 0 ==> app <= n - 1
                - j) && (n - 1 - j > app ==> !state_is_trivial(orig[n - 2 - j])) by {
                lemma_level_fits_unique(state_len(orig.last()), app, appropriate_level as nat);
            }
            assert(tidy_absorbs(self.merging@, orig, j));
        }
    }

    /// Introduces a batch at an indicated level.
    ///
    /// The level is usually related to the batch's size, but an empty
    /// batch at a non-trivial level artificially fuels the computation to
    /// move merges along.
    pub fn introduce_batch(&mut self, batch: Option<OrdZSet>, batch_index: usize)
        requires
            old(self).wf(),
            opt_wf(batch),
        ensures
            final(self).wf(),
            same_scalars(*final(self), *old(self)),
            forall|k: u64|
                final(self).weight(k) == wadd(old(self).weight(k), opt_weight(batch, k)),
            lower_layers_vacant(final(self).merging@, batch_index as int),
    {
        // Eight units of fuel for each record the level nominally holds:
        // four per actual record and four per virtual record promoted from
        // below; scaled by the effort multiplier, saturating at the
        // machine limit.
        let mut base: usize = 8;
        let mut j: usize = 0;
        while j < batch_index && base <= usize::MAX / 2
            invariant
                base >= 8,
            decreases batch_index - j,
        {
            base = base * 2;
            j = j + 1;
        }
        let eff = self.effort;
        let scaled: usize = if base > usize::MAX / eff {
            usize::MAX
        } else {
            proof {
                assert(base * eff <= usize::MAX) by (nonlinear_arith)
                    requires
                        base <= usize::MAX / eff,
                        eff >= 1,
                        base >= 0,
                ;
            }
            base * eff
        };
        let mut fuel: isize = if scaled > isize::MAX as usize {
            isize::MAX
        } else {
            scaled as isize
        };

        // First give each in-progress merge its fuel: this is what ensures
        // merges complete before the updates they absorb arrive.
        self.apply_fuel(&mut fuel);
        let ghost after_fuel = *self;

        // Roll all layers below the target up into the target, so the new
        // batch lands in a layer without a pair.
        self.roll_up(batch_index);
        let ghost after_roll = *self;

        self.insert_at(batch, batch_index);
        proof {
            assert forall|i: int, j2: int|
                0 <= i < j2 < self.merging@.len() implies !(state_is_double(
                self.merging@[i],
            ) && state_is_double(self.merging@[j2])) by {
                if state_is_double(self.merging@[batch_index as int]) {
                    // The target layer held a single batch, so the roll-up
                    // left no pair anywhere else.
                    assert(after_roll.merging@[batch_index as int] is Single);
                    if batch_index + 1 < after_roll.merging@.len() && state_is_double(
                        after_roll.merging@[batch_index + 1],
                    ) {
                        assert(after_roll.merging@[batch_index as int] is Vacant);
                    }
                    if i != batch_index {
                        assert(self.merging@[i] == (if i < after_roll.merging@.len() {
                            after_roll.merging@[i]
                        } else {
                            MergeState::Vacant
                        }));
                    }
                    if j2 != batch_index {
                        assert(self.merging@[j2] == (if j2 < after_roll.merging@.len() {
                            after_roll.merging@[j2]
                        } else {
                            MergeState::Vacant
                        }));
                    }
                } else {
                    if i != batch_index {
                        assert(self.merging@[i] == (if i < after_roll.merging@.len() {
                            after_roll.merging@[i]
                        } else {
                            MergeState::Vacant
                        }));
                    }
                    if j2 != batch_index {
                        assert(self.merging@[j2] == (if j2 < after_roll.merging@.len() {
                            after_roll.merging@[j2]
                        } else {
                            MergeState::Vacant
                        }));
                    }
                }
            }
        }

        let ghost after_insert = *self;
        proof {
            assert forall|i: int|
                0 <= i < batch_index && i < after_insert.merging@.len() implies (
            #[trigger] after_insert.merging@[i]) is Vacant by {
                assert(after_insert.merging@[i] == after_roll.merging@[i]);
            }
        }

        // Tidy the largest layers: their descent is what ensures the
        // merging and eventual compaction of the whole trace.
        self.tidy_layers();
        proof {
            lemma_tidy_effect_lower_vacant(
                self.merging@,
                after_insert.merging@,
                batch_index as int,
            );
        }
    }

    /// Inserts a batch of updates into the trace.
    ///
    /// Empty batches are silently discarded; any other batch lands at the
    /// level matching its size, the running bounds are composed with the
    /// batch's, and the trace is marked dirty.
    pub fn insert(&mut self, batch: OrdZSet)
        requires
            old(self).wf(),
            batch.wf(),
            batch.lower != batch.upper,
        ensures
            final(self).wf(),
            batch@.len() == 0 ==> *final(self) == *old(self),
            batch@.len() > 0 ==> final(self).dirty && final(self).effort == old(self).effort
                && final(self).lower.has_elem == (old(self).lower.has_elem
                || batch.lower.has_elem) && final(self).upper.has_elem == (old(self).upper.has_elem
                && batch.upper.has_elem),
            forall|k: u64|
                final(self).weight(k) == wadd(old(self).weight(k), seq_weight(batch@, k)),
    {
        // Ignore empty batches.
        if batch.is_empty() {
            proof {
                assert forall|k: u64|
                    states_weight(self.merging@, k) == wadd(
                        states_weight(self.merging@, k),
                        seq_weight(batch@, k),
                    ) by {
                    lemma_wadd_zero(states_weight(self.merging@, k));
                }
            }
            return ;
        }

        self.dirty = true;
        let new_lower = self.lower.meet(&batch.lower);
        let new_upper = self.upper.join(&batch.upper);
        self.lower = new_lower;
        self.upper = new_upper;

        let index = level_of(batch.len());
        self.introduce_batch(Some(batch), index);
    }

    /// True iff there is at most one non-empty layer and no pair of
    /// batches: no maintenance work remains.
    pub fn reduced(&self) -> (r: bool)
        ensures
            r == self.is_reduced(),
    {
        let mut non_empty: usize = 0;
        let ghost mut witness: int = 0;
        let mut index: usize = 0;
        while index < self.merging.len()
            invariant
                index <= self.merging@.len(),
                forall|i: int|
                    0 <= i < index ==> !state_is_double(#[trigger] self.merging@[i]),
                non_empty <= 1,
                non_empty == 0 ==> forall|i: int|
                    0 <= i < index ==> state_len(#[trigger] self.merging@[i]) == 0,
                non_empty == 1 ==> 0 <= witness < index && state_len(
                    self.merging@[witness],
                ) > 0 && forall|i: int|
                    0 <= i < index && i != witness ==> state_len(
                        #[trigger] self.merging@[i],
                    ) == 0,
            decreases self.merging@.len() - index,
        {
            if self.merging[index].is_double() {
                return false;
            }
            if self.merging[index].len() > 0 {
                if non_empty >= 1 {
                    return false;
                }
                non_empty = non_empty + 1;
                proof {
                    witness = index as int;
                }
            }
            index += 1;
        }
        true
    }

    /// Applies some amount of effort to trace maintenance: completes
    /// pending merges if any exist, and otherwise introduces an empty
    /// placeholder batch sized to the effort to nudge the layers along.
    ///
    /// The fuel is only read, never decremented: each merge receives it
    /// independently. A reduced trace is merely tidied. When a pair of
    /// batches exists, the fuel drives every merge to completion, so no
    /// pair survives the call; when none exists, the placeholder lands at
    /// the level fitting the fuel, leaving the layers below it vacant.
    pub fn exert(&mut self, fuel: &mut isize)
        requires
            old(self).wf(),
        ensures
            final(self).wf(),
            same_scalars(*final(self), *old(self)),
            forall|k: u64| final(self).weight(k) == old(self).weight(k),
            *final(fuel) == *old(fuel),
            old(self).is_reduced() ==> tidy_effect(final(self).merging@, old(self).merging@),
            has_double_from(old(self).merging@, 0) ==> forall|i: int|
                0 <= i < final(self).merging@.len() ==> !state_is_double(
                    #[trigger] final(self).merging@[i],
                ),
            !old(self).is_reduced() && !has_double_from(old(self).merging@, 0) ==> forall|
                lvl: nat,
            |
                #[trigger] level_fits(exert_nudge(*old(fuel)), lvl) ==> lower_layers_vacant(
                    final(self).merging@,
                    lvl as int,
                ),
    {
        self.tidy_layers();
        let ghost tidied = *self;
        proof {
            lemma_tidy_effect_doubles(tidied.merging@, old(self).merging@);
            lemma_tidy_effect_reduced(tidied.merging@, old(self).merging@);
        }
        if !self.reduced() {
            let mut has_pair = false;
            let mut index: usize = 0;
            while index < self.merging.len()
                invariant
                    *self == tidied,
                    index <= self.merging@.len(),
                    has_pair ==> has_double_from(self.merging@, 0),
                    !has_pair ==> forall|i: int|
                        0 <= i < index ==> !state_is_double(#[trigger] self.merging@[i]),
                decreases self.merging@.len() - index,
            {
                if self.merging[index].is_double() {
                    has_pair = true;
                }
                index += 1;
            }
            if has_pair {
                // Merges exist: apply the fuel to them directly.
                self.apply_fuel(fuel);
            } else {
                // Introduce an empty batch with roughly the effort's number
                // of virtual updates.
                let f: usize = if *fuel >= 1 {
                    *fuel as usize
                } else {
                    1
                };
                let level = level_of(f);
                self.introduce_batch(None, level);
                proof {
                    assert forall|k: u64|
                        states_weight(self.merging@, k) == states_weight(
                            old(self).merging@,
                            k,
                        ) by {
                        assert(self.weight(k) == wadd(tidied.weight(k), opt_weight(None, k)));
                        assert(tidied.weight(k) == old(self).weight(k));
                        lemma_wadd_zero(tidied.weight(k));
                    }
                    assert(f as int == exert_nudge(*old(fuel)));
                    assert forall|lvl: nat|
                        #[trigger] level_fits(exert_nudge(*old(fuel)), lvl) implies
                        lower_layers_vacant(self.merging@, lvl as int) by {
                        lemma_level_fits_unique(exert_nudge(*old(fuel)), lvl, level as nat);
                    }
                }
            }
        }
    }

    /// Completes all in-progress merges, without starting any new ones.
    pub fn complete_merges(&mut self)
        requires
            old(self).wf(),
        ensures
            final(self).wf(),
            same_scalars(*final(self), *old(self)),
            forall|i: int|
                0 <= i < final(self).merging@.len() ==> !state_is_inprogress(
                    #[trigger] final(self).merging@[i],
                ),
            final(self).merging@.len() == old(self).merging@.len(),
            forall|i: int|
                0 <= i < old(self).merging@.len() && !state_is_inprogress(
                    old(self).merging@[i],
                ) ==> final(self).merging@[i] == #[trigger] old(self).merging@[i],
            forall|i: int, k: u64|
                0 <= i < old(self).merging@.len() ==> #[trigger] state_weight(
                    final(self).merging@[i],
                    k,
                ) == state_weight(old(self).merging@[i], k),
            forall|k: u64| final(self).weight(k) == old(self).weight(k),
    {
        let mut index: usize = 0;
        while index < self.merging.len()
            invariant
                self.slots_wf(),
                self.at_most_one_double(),
                same_scalars(*self, *old(self)),
                index <= self.merging@.len(),
                self.merging@.len() == old(self).merging@.len(),
                forall|i: int|
                    0 <= i < index ==> !state_is_inprogress(#[trigger] self.merging@[i]),
                forall|i: int|
                    0 <= i < old(self).merging@.len() && !state_is_inprogress(
                        old(self).merging@[i],
                    ) ==> self.merging@[i] == #[trigger] old(self).merging@[i],
                forall|i: int, k: u64|
                    0 <= i < old(self).merging@.len() ==> #[trigger] state_weight(
                        self.merging@[i],
                        k,
                    ) == state_weight(old(self).merging@[i], k),
                forall|k: u64|
                    states_weight(self.merging@, k) == states_weight(old(self).merging@, k),
            decreases self.merging@.len() - index,
        {
            let ghost pre = self.merging@;
            let mut state = MergeState::Vacant;
            core::mem::swap(&mut state, &mut self.merging[index]);
            if state.is_inprogress() {
                let mut fuel = isize::MAX;
                state.work(&mut fuel);
            }
            self.merging[index] = state;
            proof {
                assert(self.merging@ =~= pre.update(index as int, state));
                assert forall|k: u64|
                    states_weight(self.merging@, k) == states_weight(
                        old(self).merging@,
                        k,
                    ) by {
                    lemma_states_weight_update(pre, index as int, state, k);
                    lemma_wadd_cancel(
                        states_weight(self.merging@, k),
                        states_weight(pre, k),
                        state_weight(pre[index as int], k),
                    );
                }
                assert forall|i: int, j: int|
                    0 <= i < j < self.merging@.len() implies !(state_is_double(
                    self.merging@[i],
                ) && state_is_double(self.merging@[j])) by {
                    assert(self.merging@[i] == (if i == index {
                        state
                    } else {
                        pre[i]
                    }));
                    assert(self.merging@[j] == (if j == index {
                        state
                    } else {
                        pre[j]
                    }));
                }
            }
            index += 1;
        }
    }

    /// Downgrades batch timestamps to the frontier: all merges complete
    /// first, and in the unit lattice the timestamps themselves cannot
    /// recede, so every layer not holding an in-progress merge is left
    /// exactly as it stands and no layer's weights change.
    pub fn recede_to(&mut self, _frontier: &())
        requires
            old(self).wf(),
        ensures
            final(self).wf(),
            same_scalars(*final(self), *old(self)),
            forall|i: int|
                0 <= i < final(self).merging@.len() ==> !state_is_inprogress(
                    #[trigger] final(self).merging@[i],
                ),
            final(self).merging@.len() == old(self).merging@.len(),
            forall|i: int|
                0 <= i < old(self).merging@.len() && !state_is_inprogress(
                    old(self).merging@[i],
                ) ==> final(self).merging@[i] == #[trigger] old(self).merging@[i],
            forall|i: int, k: u64|
                0 <= i < old(self).merging@.len() ==> #[trigger] state_weight(
                    final(self).merging@[i],
                    k,
                ) == state_weight(old(self).merging@[i], k),
            forall|k: u64| final(self).weight(k) == old(self).weight(k),
    {
        // Complete all in-progress merges, as timestamps cannot be updated
        // in an ongoing merge.
        self.complete_merges();
    }

    /// Merges the trace's batches until nothing is left to merge, and
    /// returns the sole remaining batch: `None` exactly when the trace's
    /// Z-set carries no weight at all, and otherwise a non-empty batch
    /// carrying, for every key, the summed weight of every inserted batch.
    pub fn consolidate(self) -> (r: Option<OrdZSet>)
        requires
            self.wf(),
        ensures
            consolidated_ok(r, self),
    {
        let mut this = self;
        let mut acc = OrderedLeaf { vals: Vec::new() };
        let mut index: usize = 0;
        while index < this.merging.len()
            invariant
                this.slots_wf(),
                index <= this.merging@.len(),
                acc.wf(),
                forall|k: u64|
                    wadd(seq_weight(acc@, k), states_weight(this.merging@, k))
                        == states_weight(self.merging@, k),
                forall|i: int| 0 <= i < index ==> this.merging@[i] is Vacant,
            decreases this.merging@.len() - index,
        {
            let ghost pre = this.merging@;
            let ghost acc_pre = acc@;
            let b = this.complete_at(index);
            match b {
                Some(batch) => {
                    let merged = acc.merge(&batch.layer);
                    acc = merged;
                },
                None => {},
            }
            proof {
                assert forall|k: u64|
                    wadd(seq_weight(acc@, k), states_weight(this.merging@, k))
                        == states_weight(self.merging@, k) by {
                    let w_b = opt_weight(b, k);
                    let w_rest = states_weight(this.merging@, k);
                    // acc' == acc + b, and slot + rest == pre-total.
                    assert(wadd(w_rest, w_b) == states_weight(pre, k));
                    if b is Some {
                        assert(seq_weight(acc@, k) == wadd(seq_weight(acc_pre, k), w_b));
                    } else {
                        lemma_wadd_zero(seq_weight(acc_pre, k));
                    }
                    lemma_wadd_comm(w_rest, w_b);
                    lemma_wadd_assoc(seq_weight(acc_pre, k), w_b, w_rest);
                    lemma_wadd_assoc(seq_weight(acc_pre, k), states_weight(pre, k), 0i64);
                    lemma_wadd_zero(states_weight(pre, k));
                }
            }
            index += 1;
        }
        proof {
            assert forall|k: u64|
                seq_weight(acc@, k) == states_weight(self.merging@, k) by {
                lemma_states_weight_all_zero(this.merging@, k);
                lemma_wadd_zero(seq_weight(acc@, k));
            }
        }
        if acc.is_empty() {
            // Consolidated trace is empty.
            None
        } else {
            Some(
                OrdZSet {
                    layer: acc,
                    lower: Antichain::from_elem(()),
                    upper: Antichain::new(),
                },
            )
        }
    }

    /// Applies the function to every batch in the trace, largest layers
    /// first; a layer being merged presents both of its batches.
    pub fn map_batches<F: Fn(&OrdZSet)>(&self, f: F)
        requires
            forall|b: OrdZSet| #[trigger] f.requires((&b,)),
    {
        let mut index = self.merging.len();
        while index > 0
            invariant
                index <= self.merging@.len(),
                forall|b: OrdZSet| #[trigger] f.requires((&b,)),
            decreases index,
        {
            index -= 1;
            match &self.merging[index] {
                MergeState::Double(MergeVariant::InProgress(batch1, batch2, _)) => {
                    f(batch1);
                    f(batch2);
                },
                MergeState::Double(MergeVariant::Complete(Some(batch))) => f(batch),
                MergeState::Single(Some(batch)) => f(batch),
                _ => {},
            }
        }
    }

    /// Gathers every batch across the layers into one consolidated
    /// snapshot and returns a cursor over it: the union of the trace's
    /// tuples, with weights of coincident keys added.
    pub fn cursor(&self) -> (r: SpineCursor)
        requires
            self.wf(),
        ensures
            r.storage.wf(),
            forall|k: u64| seq_weight(r.storage@, k) == self.weight(k),
            r.cursor.pos == 0,
            r.cursor.bounds.0 == 0,
            r.cursor.bounds.1 == r.storage@.len(),
    {
        let mut acc = OrderedLeaf { vals: Vec::new() };
        let mut index: usize = 0;
        while index < self.merging.len()
            invariant
                self.slots_wf(),
                index <= self.merging@.len(),
                acc.wf(),
                forall|k: u64|
                    seq_weight(acc@, k) == states_weight(
                        self.merging@.take(index as int),
                        k,
                    ),
            decreases self.merging@.len() - index,
        {
            let ghost acc_pre = acc@;
            match &self.merging[index] {
                MergeState::Double(MergeVariant::InProgress(batch1, batch2, _)) => {
                    let m1 = acc.merge(&batch1.layer);
                    let m2 = m1.merge(&batch2.layer);
                    acc = m2;
                },
                MergeState::Double(MergeVariant::Complete(Some(batch))) => {
                    let m = acc.merge(&batch.layer);
                    acc = m;
                },
                MergeState::Single(Some(batch)) => {
                    let m = acc.merge(&batch.layer);
                    acc = m;
                },
                _ => {},
            }
            proof {
                assert(self.merging@.take(index + 1).drop_last() =~= self.merging@.take(
                    index as int,
                ));
                assert(self.merging@.take(index + 1).last() == self.merging@[index as int]);
                assert forall|k: u64|
                    seq_weight(acc@, k) == states_weight(
                        self.merging@.take(index + 1),
                        k,
                    ) by {
                    let st = self.merging@[index as int];
                    let before = states_weight(self.merging@.take(index as int), k);
                    match st {
                        MergeState::Double(MergeVariant::InProgress(b1, b2, _)) => {
                            lemma_wadd_assoc(
                                seq_weight(acc_pre, k),
                                seq_weight(b1@, k),
                                seq_weight(b2@, k),
                            );
                        },
                        _ => {
                            if state_weight(st, k) == 0i64 {
                                lemma_wadd_zero(seq_weight(acc_pre, k));
                            }
                        },
                    }
                }
            }
            index += 1;
        }
        proof {
            assert(self.merging@.take(self.merging@.len() as int) =~= self.merging@);
        }
        let cursor = acc.cursor();
        SpineCursor { storage: acc, cursor }
    }
}

/// What `consolidate` promises: `None` exactly for the weightless trace,
/// otherwise the canonical non-empty batch carrying the trace's Z-set.
pub open spec fn consolidated_ok(r: Option<OrdZSet>, s: Spine) -> bool {
    match r {
        None => forall|k: u64| s.weight(k) == 0i64,
        Some(b) => {
            &&& b.wf()
            &&& b@.len() > 0
            &&& forall|k: u64| seq_weight(b@, k) == s.weight(k)
            &&& b.lower.has_elem
            &&& !b.upper.has_elem
        },
    }
}

/// Law: no two layers of a well-formed spine hold pairs of batches at
/// once. Every public operation preserves the spine's invariant, and the
/// roll-up leaves the targeted layer pair-free, so an insertion never
/// lands on a layer still holding a pair — the internal insertion's
/// precondition, discharged at every call site.
pub proof fn lemma_no_two_pairs(s: Spine, i: int, j: int)
    requires
        s.wf(),
        0 <= i < j < s.merging@.len(),
        state_is_double(s.merging@[i]),
    ensures
        !state_is_double(s.merging@[j]),
{
}

/// Law: cursors taken before and after an insertion differ exactly by the
/// inserted batch. For every key, the weight in the snapshot taken after
/// `insert` is the weight in the snapshot taken before plus the batch's
/// weight — coincident keys add, fresh keys appear, cancelled keys leave.
pub proof fn lemma_cursor_insert_difference(
    before: Spine,
    after: Spine,
    batch: OrdZSet,
    snap_before: SpineCursor,
    snap_after: SpineCursor,
)
    requires
        forall|k: u64| seq_weight(snap_before.storage@, k) == before.weight(k),
        forall|k: u64| seq_weight(snap_after.storage@, k) == after.weight(k),
        forall|k: u64| after.weight(k) == wadd(before.weight(k), seq_weight(batch@, k)),
    ensures
        forall|k: u64|
            seq_weight(snap_after.storage@, k) == wadd(
                seq_weight(snap_before.storage@, k),
                seq_weight(batch@, k),
            ),
{
    assert forall|k: u64|
        seq_weight(snap_after.storage@, k) == wadd(
            seq_weight(snap_before.storage@, k),
            seq_weight(batch@, k),
        ) by {
        assert(seq_weight(snap_after.storage@, k) == after.weight(k));
        assert(seq_weight(snap_before.storage@, k) == before.weight(k));
        assert(after.weight(k) == wadd(before.weight(k), seq_weight(batch@, k)));
    }
}

/// A cursor over a consistent snapshot of a spine: the trace's batches
/// consolidated into one ordered leaf.
pub struct SpineCursor {
    /// The consolidated snapshot the cursor walks.
    pub storage: OrderedLeaf,
    /// The position within the snapshot.
    pub cursor: OrderedLeafCursor,
}

impl SpineCursor {
    /// The cursor's range lies within its snapshot.
    pub open spec fn wf(self) -> bool {
        self.storage.wf() && self.cursor.wf_for(self.storage) && self.cursor.bounds.0 == 0
            && self.cursor.bounds.1 == self.storage@.len()
    }

    /// True while the cursor points at a tuple.
    pub fn key_valid(&self) -> (r: bool)
        ensures
            r == (self.cursor.pos < self.cursor.bounds.1),
    {
        self.cursor.valid(&self.storage)
    }

    /// The key under the cursor.
    pub fn key(&self) -> (r: u64)
        requires
            self.wf(),
            self.cursor.pos < self.cursor.bounds.1,
        ensures
            r == self.storage@[self.cursor.pos as int].0,
    {
        self.cursor.key(&self.storage).0
    }

    /// The weight under the cursor.
    pub fn weight(&self) -> (r: i64)
        requires
            self.wf(),
            self.cursor.pos < self.cursor.bounds.1,
        ensures
            r == self.storage@[self.cursor.pos as int].1,
    {
        self.cursor.key(&self.storage).1
    }

    /// Advances to the next key.
    pub fn step_key(&mut self)
        requires
            old(self).wf(),
            old(self).cursor.pos < old(self).cursor.bounds.1,
        ensures
            final(self).wf(),
            final(self).storage == old(self).storage,
            final(self).cursor.pos == old(self).cursor.pos + 1,
    {
        let storage = &self.storage;
        self.cursor.step(storage);
    }

    /// Advances to the first key at or past the given one.
    pub fn seek_key(&mut self, key: &u64)
        requires
            old(self).wf(),
        ensures
            final(self).wf(),
            final(self).storage == old(self).storage,
            old(self).cursor.pos <= final(self).cursor.pos,
            forall|i: int|
                old(self).cursor.pos <= i < final(self).cursor.pos
                    ==> final(self).storage@[i].0 < *key,
            final(self).cursor.pos < final(self).cursor.bounds.1
                ==> final(self).storage@[final(self).cursor.pos as int].0 >= *key,
    {
        let storage = &self.storage;
        self.cursor.seek_key(storage, key);
    }

    /// Rewinds to the first key of the snapshot.
    pub fn rewind_keys(&mut self)
        requires
            old(self).wf(),
        ensures
            final(self).wf(),
            final(self).storage == old(self).storage,
            final(self).cursor.pos == 0,
    {
        let storage = &self.storage;
        self.cursor.rewind(storage);
    }
}

impl Spine {
    /// Describes the merge progress of the layers: a slot code (vacant,
    /// single, double) and the layer's tuple count. Intended for
    /// diagnostics rather than public consumption.
    pub fn describe(&self) -> (r: Vec<(usize, usize)>)
        ensures
            r@.len() == self.merging@.len(),
            forall|i: int|
                0 <= i < r@.len() ==> (#[trigger] r@[i]).0 == state_code(self.merging@[i]),
            forall|i: int|
                0 <= i < r@.len() && state_len(self.merging@[i]) <= usize::MAX ==> (
                #[trigger] r@[i]).1 == state_len(self.merging@[i]),
    {
        let mut r: Vec<(usize, usize)> = Vec::new();
        let mut index: usize = 0;
        while index < self.merging.len()
            invariant
                index <= self.merging@.len(),
                r@.len() == index,
                forall|i: int|
                    0 <= i < index ==> (#[trigger] r@[i]).0 == state_code(self.merging@[i]),
                forall|i: int|
                    0 <= i < index && state_len(self.merging@[i]) <= usize::MAX ==> (
                    #[trigger] r@[i]).1 == state_len(self.merging@[i]),
            decreases self.merging@.len() - index,
        {
            let state = &self.merging[index];
            let code: usize = if state.is_vacant() {
                0
            } else if state.is_single() {
                1
            } else {
                2
            };
            let l = state.len();
            r.push((code, l));
            index += 1;
        }
        r
    }
}

} // verus!
