use dbsp::consolidation::consolidate_slice;
use dbsp::trace::ordered_leaf::{OrderedLeaf, OrderedLeafBuilder, UnorderedLeafBuilder};
use dbsp::trace::spine_fueled::Spine;
use dbsp::trace::zset_batch::{Antichain, OrdZSet, OrdZSetBatcher, OrdZSetBuilder};
use std::cell::Cell;

fn leaf(tuples: Vec<(u64, i64)>) -> OrderedLeaf {
    OrderedLeaf { vals: tuples }
}

// Leaf merge with cancellation. Key 2 cancels, key 3 accumulates.
#[test]
fn leaf_merge_with_cancellation() {
    let a = leaf(vec![(1, 1), (2, 1), (3, 1)]);
    let b = leaf(vec![(2, -1), (3, 1), (4, 1)]);
    let merged = a.merge(&b);
    assert_eq!(merged.vals, vec![(1, 1), (3, 2), (4, 1)]);
}

// On concrete values: merging with the empty leaf returns the leaf, and
// merging commutes.
#[test]
fn leaf_merge_zero_and_commutes() {
    let a = leaf(vec![(1, 3), (7, -2)]);
    let z = leaf(vec![]);
    assert_eq!(a.merge(&z).vals, vec![(1, 3), (7, -2)]);
    assert_eq!(z.merge(&a).vals, vec![(1, 3), (7, -2)]);

    let b = leaf(vec![(0, 5), (7, 2), (9, 1)]);
    assert_eq!(a.merge(&b).vals, b.merge(&a).vals);
}

// On concrete values: sealed leaves have strictly ascending keys and no
// zero weights, whatever order the tuples arrived in.
#[test]
fn sealed_leaf_is_canonical() {
    let mut builder = UnorderedLeafBuilder::new();
    builder.push_tuple((5, 1));
    builder.push_tuple((2, 3));
    builder.push_tuple((5, -1));
    builder.push_tuple((9, 2));
    builder.push_tuple((2, 1));
    let sealed = builder.done();
    assert_eq!(sealed.vals, vec![(2, 4), (9, 2)]);
    for w in sealed.vals.windows(2) {
        assert!(w[0].0 < w[1].0);
    }
    for t in &sealed.vals {
        assert_ne!(t.1, 0);
    }
}

// On concrete values: consolidating twice equals consolidating once.
#[test]
fn consolidate_twice_equals_once() {
    let mut v = vec![(4u64, 1i64), (1, 2), (4, -1), (2, 0), (1, 1)];
    let r1 = consolidate_slice(&mut v, 0);
    let once = v.clone();
    let r2 = consolidate_slice(&mut v, 0);
    assert_eq!(r1, r2);
    assert_eq!(v, once);
    assert_eq!(v, vec![(1, 3)]);
}

// Consolidation leaves the prefix before `from` untouched.
#[test]
fn consolidate_keeps_prefix() {
    let mut v = vec![(9u64, 9i64), (3, 1), (1, 1), (3, -1)];
    let r = consolidate_slice(&mut v, 1);
    assert_eq!(r, 1);
    assert_eq!(v, vec![(9, 9), (1, 1)]);
}

// On concrete values, through the cursor's exponential search: seeking
// positions the cursor on the first key at or past the target, i.e. it
// skips exactly the prefix on which `key < target` holds.
#[test]
fn seek_counts_the_satisfying_prefix() {
    let tuples: Vec<(u64, i64)> = (0..100u64).map(|k| (3 * k, 1i64)).collect();
    let storage = leaf(tuples);
    let mut cursor = storage.cursor();
    cursor.seek_key(&storage, &91);
    assert_eq!(cursor.pos, 31);
    let mut c2 = storage.cursor();
    c2.seek_key(&storage, &90);
    assert_eq!(c2.pos, 30);
    let mut c3 = storage.cursor();
    c3.seek_key(&storage, &1000);
    assert_eq!(c3.pos, 100);
    assert!(!c3.valid(&storage));
}

// Stepping and rewinding a cursor.
#[test]
fn cursor_steps_and_rewinds() {
    let storage = leaf(vec![(1, 1), (5, 2), (9, 3)]);
    let mut cursor = storage.cursor();
    assert!(cursor.valid(&storage));
    assert_eq!(*cursor.key(&storage), (1, 1));
    cursor.step(&storage);
    assert_eq!(*cursor.key(&storage), (5, 2));
    cursor.step(&storage);
    cursor.step(&storage);
    assert!(!cursor.valid(&storage));
    cursor.rewind(&storage);
    assert_eq!(*cursor.key(&storage), (1, 1));
}

// Round trip: feed the sorted cursor of a batch back through the sorted builder
// and get the batch back tuple for tuple.
#[test]
fn builder_round_trip() {
    let b = OrdZSet::from_tuples((), vec![(4, 2), (1, 1), (9, -3)]);
    let mut rebuilt = OrdZSetBuilder::new(());
    let mut cursor = b.cursor();
    while cursor.valid(&b.layer) {
        let t = *cursor.key(&b.layer);
        rebuilt.push(t);
        cursor.step(&b.layer);
    }
    let b2 = rebuilt.done();
    assert_eq!(b2.layer.vals, b.layer.vals);
}

// Round trip: feed shuffled tuples of a batch through the batcher and get the
// batch back tuple for tuple.
#[test]
fn batcher_round_trip() {
    let b = OrdZSet::from_tuples((), vec![(1, 1), (4, 2), (9, -3)]);
    let mut batcher = OrdZSetBatcher::new(());
    batcher.push_tuple((9, -3));
    batcher.push_tuple((1, 2));
    batcher.push_tuple((4, 2));
    batcher.push_tuple((1, -1));
    let sealed = batcher.seal(Antichain::new());
    assert_eq!(sealed.layer.vals, b.layer.vals);
}

// Spine idempotence at effort one. Eight singleton batches with
// distinct keys consolidate to their eight-tuple union.
#[test]
fn spine_consolidates_eight_singletons() {
    let mut spine = Spine::with_effort(1);
    for k in 0..8u64 {
        spine.insert(OrdZSet::from_tuples((), vec![(k, 1)]));
    }
    let batch = spine.consolidate().expect("eight tuples remain");
    let expected: Vec<(u64, i64)> = (0..8u64).map(|k| (k, 1i64)).collect();
    assert_eq!(batch.layer.vals, expected);
}

// Weighted re-insertion annihilation. Inserting {a -> +1} and then
// {a -> -1} leaves only {b -> +1}.
#[test]
fn spine_annihilates_cancelled_key() {
    let a = 10u64;
    let b = 20u64;
    let mut spine = Spine::new();
    spine.insert(OrdZSet::from_tuples((), vec![(a, 1)]));
    spine.insert(OrdZSet::from_tuples((), vec![(b, 1)]));
    spine.insert(OrdZSet::from_tuples((), vec![(a, -1)]));
    let batch = spine.consolidate().expect("one tuple remains");
    assert_eq!(batch.layer.vals, vec![(b, 1)]);
}

// A spine whose insertions cancel completely consolidates to nothing.
#[test]
fn spine_consolidates_to_empty() {
    let mut spine = Spine::new();
    spine.insert(OrdZSet::from_tuples((), vec![(3, 5), (4, 1)]));
    spine.insert(OrdZSet::from_tuples((), vec![(3, -5), (4, -1)]));
    assert!(spine.consolidate().is_none());
}

// On concrete values: cursors taken before and after an insertion
// differ exactly by the inserted batch, with weight addition on
// coincident keys.
#[test]
fn cursor_difference_is_the_inserted_batch() {
    let mut spine = Spine::new();
    spine.insert(OrdZSet::from_tuples((), vec![(1, 1), (2, 2)]));
    let before = spine.cursor();
    spine.insert(OrdZSet::from_tuples((), vec![(2, 3), (5, 1)]));
    let after = spine.cursor();
    assert_eq!(before.storage.vals, vec![(1, 1), (2, 2)]);
    assert_eq!(after.storage.vals, vec![(1, 1), (2, 5), (5, 1)]);
}

// On concrete values: after arbitrary insert and exert steps,
// consolidation returns exactly the sum of all inserted batches.
#[test]
fn consolidate_after_exerts() {
    let mut spine = Spine::with_effort(2);
    spine.insert(OrdZSet::from_tuples((), vec![(1, 1), (7, 2)]));
    let mut fuel = 100isize;
    spine.exert(&mut fuel);
    spine.insert(OrdZSet::from_tuples((), vec![(7, -2), (9, 4)]));
    let mut fuel2 = 1000isize;
    spine.exert(&mut fuel2);
    spine.insert(OrdZSet::from_tuples((), vec![(2, 1)]));
    let batch = spine.consolidate().expect("three keys remain");
    assert_eq!(batch.layer.vals, vec![(1, 1), (2, 1), (9, 4)]);
}

// Empty batches are silently ignored on insert.
#[test]
fn empty_batches_are_ignored() {
    let mut spine = Spine::new();
    spine.insert(OrdZSet::empty(()));
    assert!(!spine.dirty());
    assert_eq!(spine.len(), 0);
    spine.insert(OrdZSet::from_tuples((), vec![(1, 1)]));
    assert!(spine.dirty());
    spine.clear_dirty_flag();
    assert!(!spine.dirty());
    assert_eq!(spine.len(), 1);
}

// The spine cursor navigates the union of all batches in key order.
#[test]
fn spine_cursor_navigates_union() {
    let mut spine = Spine::new();
    spine.insert(OrdZSet::from_tuples((), vec![(2, 1), (8, 1)]));
    spine.insert(OrdZSet::from_tuples((), vec![(4, 3)]));
    let mut cursor = spine.cursor();
    assert!(cursor.key_valid());
    assert_eq!(cursor.key(), 2);
    assert_eq!(cursor.weight(), 1);
    cursor.step_key();
    assert_eq!(cursor.key(), 4);
    assert_eq!(cursor.weight(), 3);
    cursor.seek_key(&7);
    assert_eq!(cursor.key(), 8);
    cursor.step_key();
    assert!(!cursor.key_valid());
    cursor.rewind_keys();
    assert_eq!(cursor.key(), 2);
}

// The describe diagnostic reports one code and length per level.
#[test]
fn describe_reports_levels() {
    let mut spine = Spine::new();
    spine.insert(OrdZSet::from_tuples((), vec![(1, 1), (2, 1), (3, 1)]));
    let description = spine.describe();
    let total: usize = description.iter().map(|d| d.1).sum();
    assert_eq!(total, 3);
    for d in &description {
        assert!(d.0 <= 2);
    }
}

// On concrete values: at no observable moment do two levels hold
// pairs of batches at once.
#[test]
fn at_most_one_level_holds_a_pair() {
    let mut spine = Spine::new();
    for step in 0..20u64 {
        let batch: Vec<(u64, i64)> = (0..(step % 5) + 1).map(|k| (step * 10 + k, 1i64)).collect();
        spine.insert(OrdZSet::from_tuples((), batch));
        let pairs = spine.describe().iter().filter(|d| d.0 == 2).count();
        assert!(pairs <= 1);
        if step % 3 == 0 {
            let mut fuel = 50isize;
            spine.exert(&mut fuel);
            let pairs_after = spine.describe().iter().filter(|d| d.0 == 2).count();
            assert!(pairs_after <= 1);
        }
    }
}

// Completing merges leaves no merge in progress; receding to a frontier
// is then possible and changes no weights.
#[test]
fn recede_completes_merges() {
    let mut spine = Spine::new();
    spine.insert(OrdZSet::from_tuples((), vec![(1, 1)]));
    spine.insert(OrdZSet::from_tuples((), vec![(2, 1)]));
    spine.recede_to(&());
    let batch = spine.consolidate().expect("two tuples remain");
    assert_eq!(batch.layer.vals, vec![(1, 1), (2, 1)]);
}

// The leaf's group operations: negation inverts weights; adding a leaf
// and its negation cancels.
#[test]
fn leaf_negation_cancels() {
    let a = leaf(vec![(1, 3), (2, -4)]);
    let n = a.clone().neg();
    assert_eq!(n.vals, vec![(1, -3), (2, 4)]);
    let sum = a.merge(&n);
    assert_eq!(sum.vals, vec![]);
}

// A merge builder copies disjoint ranges wholesale.
#[test]
fn merge_builder_copies_ranges() {
    let a = leaf(vec![(1, 1), (2, 1)]);
    let mut builder = OrderedLeafBuilder::new();
    builder.copy_range(&a, 0, 2);
    assert_eq!(builder.tuples(), 2);
    assert_eq!(builder.boundary(), 2);
    let done = builder.done();
    assert_eq!(done.vals, vec![(1, 1), (2, 1)]);
}

// Batch bounds compose by meet and join on insertion.
#[test]
fn spine_tracks_bounds() {
    let mut spine = Spine::new();
    assert!(spine.lower().has_elem);
    assert!(!spine.upper().has_elem);
    let batch = OrdZSet::from_tuples((), vec![(1, 1)]);
    assert!(batch.lower().has_elem);
    assert!(!batch.upper().has_elem);
    spine.insert(batch);
    assert!(spine.lower().has_elem);
    assert!(!spine.upper().has_elem);
}

// Mapping over the trace's batches visits every stored tuple.
#[test]
fn map_batches_visits_all_tuples() {
    let mut spine = Spine::new();
    spine.insert(OrdZSet::from_tuples((), vec![(1, 1), (2, 1)]));
    spine.insert(OrdZSet::from_tuples((), vec![(3, 1)]));
    let total = Cell::new(0usize);
    spine.map_batches(|b: &OrdZSet| {
        total.set(total.get() + b.layer.vals.len());
    });
    assert_eq!(total.get(), 3);
}

// Consolidation at the builder: a second boundary call right after the first changes
// nothing — the consolidated tail is a fixed point of consolidation.
#[test]
fn boundary_twice_is_noop() {
    let mut builder = UnorderedLeafBuilder::new();
    builder.push_tuple((3, 2));
    builder.push_tuple((1, 5));
    builder.push_tuple((3, -2));
    let first = builder.boundary();
    let vals_after_first = builder.vals.clone();
    assert_eq!(first, 1);
    assert_eq!(vals_after_first, vec![(1, 5)]);
    let second = builder.boundary();
    assert_eq!(second, first);
    assert_eq!(builder.vals, vals_after_first);
}

// Exerting reads the fuel but never decrements it: each merge receives
// the fuel independently.
#[test]
fn exert_leaves_fuel_unchanged() {
    let mut spine = Spine::new();
    spine.insert(OrdZSet::from_tuples((), vec![(1, 1)]));
    spine.insert(OrdZSet::from_tuples((), vec![(2, 1)]));
    let mut fuel = 37isize;
    spine.exert(&mut fuel);
    assert_eq!(fuel, 37);
    spine.exert(&mut fuel);
    assert_eq!(fuel, 37);
}

// When a pair of batches exists, one exert call drives every merge to
// completion: no level reports a pair afterwards.
#[test]
fn exert_clears_pending_pairs() {
    let mut spine = Spine::new();
    spine.introduce_batch(Some(OrdZSet::from_tuples((), vec![(1, 1), (2, 1)])), 2);
    spine.introduce_batch(Some(OrdZSet::from_tuples((), vec![(2, 1), (3, 1)])), 2);
    let pairs_before = spine.describe().iter().filter(|d| d.0 == 2).count();
    assert_eq!(pairs_before, 1);
    let mut fuel = 1isize;
    spine.exert(&mut fuel);
    let pairs_after = spine.describe().iter().filter(|d| d.0 == 2).count();
    assert_eq!(pairs_after, 0);
    let batch = spine.consolidate().expect("three keys remain");
    assert_eq!(batch.layer.vals, vec![(1, 1), (2, 2), (3, 1)]);
}
