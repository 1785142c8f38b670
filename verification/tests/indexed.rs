use dbsp::trace::indexed_zset_batch::{OrdIndexedZSet, OrdIndexedZSetBuilder};
use dbsp::trace::ordered::{OrderedBuilder, OrderedLayer};
use dbsp::trace::ordered_leaf::OrderedLeaf;

fn layer(keys: Vec<u64>, offs: Vec<usize>, vals: Vec<(u64, i64)>) -> OrderedLayer {
    OrderedLayer {
        keys,
        offs,
        vals: OrderedLeaf { vals },
    }
}

// Sealed layers have strictly ascending keys, non-empty children, and no
// zero weights; values stay grouped under their keys.
#[test]
fn builder_assembles_trie() {
    let mut builder = OrdIndexedZSetBuilder::new(());
    builder.push((1, 10, 1));
    builder.push((1, 11, 2));
    builder.push((2, 10, -1));
    builder.push((5, 7, 3));
    let batch = builder.done();
    assert_eq!(batch.layer.keys, vec![1, 2, 5]);
    assert_eq!(batch.layer.offs, vec![0, 2, 3, 4]);
    assert_eq!(
        batch.layer.vals.vals,
        vec![(10, 1), (11, 2), (10, -1), (7, 3)]
    );
}

// Merging indexed batches adds weights per (key, value) pair; a pair that
// cancels disappears, and a key whose pairs all cancel disappears with
// its children.
#[test]
fn indexed_merge_cancels_pairs_and_keys() {
    let a = OrdIndexedZSet {
        layer: layer(
            vec![1, 2],
            vec![0, 2, 3],
            vec![(10, 1), (11, 1), (20, 2)],
        ),
        lower: *OrdIndexedZSet::empty(()).lower(),
        upper: *OrdIndexedZSet::empty(()).upper(),
    };
    let b = OrdIndexedZSet {
        layer: layer(
            vec![1, 3],
            vec![0, 2, 3],
            vec![(10, -1), (11, 4), (30, 1)],
        ),
        lower: *OrdIndexedZSet::empty(()).lower(),
        upper: *OrdIndexedZSet::empty(()).upper(),
    };
    let merged = a.merge(&b);
    // Key 1: (10, 1 - 1) cancels, (11, 1 + 4) stays.
    assert_eq!(merged.layer.keys, vec![1, 2, 3]);
    assert_eq!(merged.layer.offs, vec![0, 1, 2, 3]);
    assert_eq!(merged.layer.vals.vals, vec![(11, 5), (20, 2), (30, 1)]);

    // A whole key cancelling leaves no trace of the key.
    let c = OrdIndexedZSet {
        layer: layer(vec![2], vec![0, 1], vec![(20, -2)]),
        lower: *OrdIndexedZSet::empty(()).lower(),
        upper: *OrdIndexedZSet::empty(()).upper(),
    };
    let gone = merged.merge(&c);
    assert_eq!(gone.layer.keys, vec![1, 3]);
    assert_eq!(gone.layer.vals.vals, vec![(11, 5), (30, 1)]);
}

// The fueled merger completes within one work call, leaving fuel for
// progress.
#[test]
fn indexed_merger_completes() {
    let a = OrdIndexedZSet {
        layer: layer(vec![1], vec![0, 1], vec![(10, 1)]),
        lower: *OrdIndexedZSet::empty(()).lower(),
        upper: *OrdIndexedZSet::empty(()).upper(),
    };
    let b = OrdIndexedZSet {
        layer: layer(vec![2], vec![0, 1], vec![(10, 1)]),
        lower: *OrdIndexedZSet::empty(()).lower(),
        upper: *OrdIndexedZSet::empty(()).upper(),
    };
    let mut merger = a.begin_merge(&b);
    let mut fuel = 1isize;
    merger.work(&a, &b, &mut fuel);
    assert!(fuel >= 1);
    let merged = merger.done();
    assert_eq!(merged.layer.keys, vec![1, 2]);
    assert_eq!(merged.layer.vals.vals, vec![(10, 1), (10, 1)]);
}

// The two-level cursor walks keys and values and seeks by key.
#[test]
fn indexed_cursor_navigates() {
    let batch = OrdIndexedZSet {
        layer: layer(
            vec![1, 4, 9],
            vec![0, 2, 3, 4],
            vec![(10, 1), (11, 2), (20, 3), (30, 4)],
        ),
        lower: *OrdIndexedZSet::empty(()).lower(),
        upper: *OrdIndexedZSet::empty(()).upper(),
    };
    let mut cursor = batch.cursor();
    assert!(cursor.key_valid(&batch));
    assert_eq!(*cursor.key(&batch), 1);
    assert_eq!(cursor.val(&batch), 10);
    assert_eq!(cursor.weight(&batch), 1);
    cursor.step_val(&batch);
    assert_eq!(cursor.val(&batch), 11);
    assert_eq!(cursor.weight(&batch), 2);
    cursor.step_val(&batch);
    assert!(!cursor.val_valid(&batch));
    cursor.step_key(&batch);
    assert_eq!(*cursor.key(&batch), 4);
    assert_eq!(cursor.val(&batch), 20);
    cursor.seek_key(&batch, &5);
    assert_eq!(*cursor.key(&batch), 9);
    assert_eq!(cursor.val(&batch), 30);
    cursor.step_key(&batch);
    assert!(!cursor.key_valid(&batch));
    cursor.rewind_keys(&batch);
    assert_eq!(*cursor.key(&batch), 1);
}

// A layer merge builder copies whole key ranges.
#[test]
fn layer_copy_range() {
    let a = layer(vec![3, 7], vec![0, 1, 3], vec![(1, 1), (2, 2), (3, 3)]);
    let mut builder = OrderedBuilder::new();
    builder.copy_range(&a, 0, 2);
    let out = builder.done();
    assert_eq!(out.keys, a.keys);
    assert_eq!(out.offs, a.offs);
    assert_eq!(out.vals.vals, a.vals.vals);
}

// Round trip: feed the cursor of an indexed batch, in the ascending
// (key, value) order it yields, back through the sorted indexed builder
// and get the batch back part for part.
#[test]
fn indexed_builder_round_trip() {
    let b = OrdIndexedZSet {
        layer: layer(
            vec![1, 4, 9],
            vec![0, 2, 3, 4],
            vec![(10, 1), (11, -2), (20, 3), (30, 4)],
        ),
        lower: *OrdIndexedZSet::empty(()).lower(),
        upper: *OrdIndexedZSet::empty(()).upper(),
    };
    let mut rebuilt = OrdIndexedZSetBuilder::new(());
    let mut cursor = b.cursor();
    while cursor.key_valid(&b) {
        let key = *cursor.key(&b);
        while cursor.val_valid(&b) {
            rebuilt.push((key, cursor.val(&b), cursor.weight(&b)));
            cursor.step_val(&b);
        }
        cursor.step_key(&b);
    }
    let b2 = rebuilt.done();
    assert_eq!(b2.layer.keys, b.layer.keys);
    assert_eq!(b2.layer.offs, b.layer.offs);
    assert_eq!(b2.layer.vals.vals, b.layer.vals.vals);
    assert!(b2.lower().has_elem);
    assert!(!b2.upper().has_elem);
}
