//! The inner trie level: sorted keys with offset-indexed sub-tries in one
//! shared leaf storage.

use vstd::prelude::*;

use crate::algebra::{lemma_seq_weight_push, lemma_wadd_zero, seq_weight, wadd, wf_zset};
use crate::trace::ordered_leaf::{OrderedLeaf, OrderedLeafBuilder, OrderedLeafCursor};

verus! {

/// Well-formed trie parts: `keys` strictly ascending; `offs` one longer
/// than `keys`, starting at zero, strictly increasing (no key has empty
/// children) and ending at the storage's length; each key's child range a
/// canonical Z-set within the shared storage.
pub open spec fn ranges_wf(keys: Seq<u64>, offs: Seq<usize>, vals: Seq<(u64, i64)>) -> bool {
    &&& offs.len() == keys.len() + 1
    &&& offs[0] == 0
    &&& forall|i: int, j: int| 0 <= i < j < keys.len() ==> keys[i] < keys[j]
    &&& forall|i: int| 0 <= i < keys.len() ==> (#[trigger] offs[i]) < offs[i + 1]
    &&& offs[keys.len() as int] == vals.len()
    &&& forall|i: int|
        0 <= i < keys.len() ==> wf_zset(
            vals.subrange((#[trigger] offs[i]) as int, offs[i + 1] as int),
        )
}

/// The offsets never decrease.
pub proof fn lemma_offs_monotonic(keys: Seq<u64>, offs: Seq<usize>, vals: Seq<(u64, i64)>, i: int, j: int)
    requires
        ranges_wf(keys, offs, vals),
        0 <= i <= j < offs.len(),
    ensures
        offs[i] <= offs[j],
    decreases j - i,
{
    if i < j {
        lemma_offs_monotonic(keys, offs, vals, i, j - 1);
        assert(offs[j - 1] < offs[j]);
    }
}

/// Whether the trie holds the key.
pub open spec fn parts_has_key(keys: Seq<u64>, k: u64) -> bool {
    exists|i: int| 0 <= i < keys.len() && keys[i] == k
}

/// The position of the key among the trie's keys.
pub open spec fn key_index(keys: Seq<u64>, k: u64) -> int {
    choose|i: int| 0 <= i < keys.len() && keys[i] == k
}

/// With ascending keys, the key at position `i` is found at position `i`.
pub proof fn lemma_key_index(keys: Seq<u64>, i: int)
    requires
        forall|a: int, b: int| 0 <= a < b < keys.len() ==> keys[a] < keys[b],
        0 <= i < keys.len(),
    ensures
        parts_has_key(keys, keys[i]),
        key_index(keys, keys[i]) == i,
{
    let k = keys[i];
    assert(parts_has_key(keys, k));
    let j = key_index(keys, k);
    if j < i {
        assert(keys[j] < keys[i]);
    }
    if j > i {
        assert(keys[i] < keys[j]);
    }
}

/// The trie's weights at the key in position `i` are the weights of that
/// key's child range.
pub proof fn lemma_weight_at(keys: Seq<u64>, offs: Seq<usize>, vals: Seq<(u64, i64)>, i: int)
    requires
        ranges_wf(keys, offs, vals),
        0 <= i < keys.len(),
    ensures
        forall|v: u64|
            parts_weight(keys, offs, vals, keys[i], v) == seq_weight(
                vals.subrange(offs[i] as int, offs[i + 1] as int),
                v,
            ),
{
    reveal(parts_weight);
    lemma_key_index(keys, i);
}

/// A key the trie does not hold carries no weight.
pub proof fn lemma_weight_absent(keys: Seq<u64>, offs: Seq<usize>, vals: Seq<(u64, i64)>, k: u64)
    requires
        !parts_has_key(keys, k),
    ensures
        forall|v: u64| parts_weight(keys, offs, vals, k, v) == 0i64,
{
    reveal(parts_weight);
}

/// The weight that the pair `(k, v)` carries in the trie: the weight of
/// `v` in `k`'s child range, if the trie holds `k`.
#[verifier::opaque]
pub open spec fn parts_weight(
    keys: Seq<u64>,
    offs: Seq<usize>,
    vals: Seq<(u64, i64)>,
    k: u64,
    v: u64,
) -> i64 {
    if parts_has_key(keys, k) {
        let i = key_index(keys, k);
        seq_weight(vals.subrange(offs[i] as int, offs[i + 1] as int), v)
    } else {
        0i64
    }
}

/// Appending one key with a non-empty canonical child range keeps the trie
/// well-formed, gives the new key the range's weights, and leaves every
/// other key's weights unchanged.
pub proof fn lemma_parts_extend(
    keys: Seq<u64>,
    offs: Seq<usize>,
    vals: Seq<(u64, i64)>,
    k_new: u64,
    ext: Seq<(u64, i64)>,
    new_off: usize,
)
    requires
        ranges_wf(keys, offs, vals),
        keys.len() > 0 ==> keys.last() < k_new,
        wf_zset(ext),
        ext.len() > 0,
        new_off == vals.len() + ext.len(),
    ensures
        ranges_wf(keys.push(k_new), offs.push(new_off), vals + ext),
        forall|v: u64|
            parts_weight(keys.push(k_new), offs.push(new_off), vals + ext, k_new, v)
                == seq_weight(ext, v),
        forall|k: u64, v: u64|
            k != k_new ==> parts_weight(keys.push(k_new), offs.push(new_off), vals + ext, k, v)
                == parts_weight(keys, offs, vals, k, v),
{
    reveal(parts_weight);
    let keys2 = keys.push(k_new);
    let offs2 = offs.push(new_off);
    let vals2 = vals + ext;
    let n = keys.len() as int;

    assert(offs2[n] == offs[n]);
    assert(offs2[n] == vals.len());
    assert forall|i: int, j: int| 0 <= i < j < keys2.len() implies keys2[i] < keys2[j] by {
        if j == n && i < n {
            assert(keys[i] <= keys.last());
        }
    }
    assert forall|i: int|
        0 <= i < keys2.len() implies (#[trigger] offs2[i]) < offs2[i + 1] by {
        if i < n {
            assert(offs2[i] == offs[i]);
            assert(offs2[i + 1] == offs[i + 1]);
        }
    }
    assert forall|i: int|
        0 <= i < keys2.len() implies wf_zset(
        vals2.subrange((#[trigger] offs2[i]) as int, offs2[i + 1] as int),
    ) by {
        if i < n {
            lemma_offs_monotonic(keys, offs, vals, i + 1, n);
            assert(vals2.subrange(offs2[i] as int, offs2[i + 1] as int) =~= vals.subrange(
                offs[i] as int,
                offs[i + 1] as int,
            ));
        } else {
            assert(vals2.subrange(offs2[n] as int, offs2[n + 1] as int) =~= ext);
        }
    }
    assert(ranges_wf(keys2, offs2, vals2));

    lemma_key_index(keys2, n);
    assert forall|v: u64|
        parts_weight(keys2, offs2, vals2, k_new, v) == seq_weight(ext, v) by {
        assert(vals2.subrange(offs2[n] as int, offs2[n + 1] as int) =~= ext);
    }
    assert forall|k: u64, v: u64|
        k != k_new implies parts_weight(keys2, offs2, vals2, k, v) == parts_weight(
        keys,
        offs,
        vals,
        k,
        v,
    ) by {
        if parts_has_key(keys, k) {
            let i = key_index(keys, k);
            lemma_key_index(keys, i);
            lemma_key_index(keys2, i);
            assert(key_index(keys2, k) == i);
            lemma_offs_monotonic(keys, offs, vals, i + 1, n);
            assert(vals2.subrange(offs2[i] as int, offs2[i + 1] as int) =~= vals.subrange(
                offs[i] as int,
                offs[i + 1] as int,
            ));
        } else {
            if parts_has_key(keys2, k) {
                let i = key_index(keys2, k);
                assert(keys2[i] == k);
                assert(i < n || keys2[i] == k_new);
                assert(keys[i] == k);
            }
        }
    }
}

/// Appending one tuple to the last key's child range keeps the trie
/// well-formed and adds the tuple's weight to that one pair.
pub proof fn lemma_parts_extend_last(
    keys: Seq<u64>,
    offs: Seq<usize>,
    vals: Seq<(u64, i64)>,
    x: (u64, i64),
)
    requires
        ranges_wf(keys, offs, vals),
        keys.len() > 0,
        x.1 != 0i64,
        forall|m: int|
            offs[keys.len() - 1] <= m < vals.len() ==> (#[trigger] vals[m]).0 < x.0,
        vals.len() < usize::MAX,
    ensures
        ranges_wf(keys, offs.update(keys.len() as int, (vals.len() + 1) as usize), vals.push(x)),
        forall|v: u64|
            parts_weight(
                keys,
                offs.update(keys.len() as int, (vals.len() + 1) as usize),
                vals.push(x),
                keys.last(),
                v,
            ) == wadd(
                parts_weight(keys, offs, vals, keys.last(), v),
                if v == x.0 {
                    x.1
                } else {
                    0i64
                },
            ),
        forall|k: u64, v: u64|
            k != keys.last() ==> parts_weight(
                keys,
                offs.update(keys.len() as int, (vals.len() + 1) as usize),
                vals.push(x),
                k,
                v,
            ) == parts_weight(keys, offs, vals, k, v),
{
    reveal(parts_weight);
    let n = keys.len() as int;
    let offs2 = offs.update(n, (vals.len() + 1) as usize);
    let vals2 = vals.push(x);
    let last = n - 1;

    assert forall|i: int|
        0 <= i < keys.len() implies (#[trigger] offs2[i]) < offs2[i + 1] by {
        if i < last {
            assert(offs2[i] == offs[i]);
            assert(offs2[i + 1] == offs[i + 1]);
        } else {
            lemma_offs_monotonic(keys, offs, vals, last, n);
        }
    }
    assert forall|i: int|
        0 <= i < keys.len() implies wf_zset(
        vals2.subrange((#[trigger] offs2[i]) as int, offs2[i + 1] as int),
    ) by {
        if i < last {
            lemma_offs_monotonic(keys, offs, vals, i + 1, n);
            assert(vals2.subrange(offs2[i] as int, offs2[i + 1] as int) =~= vals.subrange(
                offs[i] as int,
                offs[i + 1] as int,
            ));
        } else {
            let old_range = vals.subrange(offs[last] as int, offs[n] as int);
            let new_range = vals2.subrange(offs2[last] as int, offs2[n] as int);
            assert(new_range =~= old_range.push(x));
            assert(forall|m: int|
                0 <= m < old_range.len() ==> (#[trigger] old_range[m]).0 < x.0);
        }
    }
    assert(ranges_wf(keys, offs2, vals2));

    lemma_key_index(keys, last);
    assert forall|v: u64|
        parts_weight(keys, offs2, vals2, keys.last(), v) == wadd(
            parts_weight(keys, offs, vals, keys.last(), v),
            if v == x.0 {
                x.1
            } else {
                0i64
            },
        ) by {
        let old_range = vals.subrange(offs[last] as int, offs[n] as int);
        let new_range = vals2.subrange(offs2[last] as int, offs2[n] as int);
        assert(new_range =~= old_range.push(x));
        lemma_seq_weight_push(old_range, x, v);
    }
    assert forall|k: u64, v: u64|
        k != keys.last() implies parts_weight(keys, offs2, vals2, k, v) == parts_weight(
        keys,
        offs,
        vals,
        k,
        v,
    ) by {
        if parts_has_key(keys, k) {
            let i = key_index(keys, k);
            lemma_key_index(keys, i);
            assert(i < last);
            lemma_offs_monotonic(keys, offs, vals, i + 1, n);
            assert(vals2.subrange(offs2[i] as int, offs2[i + 1] as int) =~= vals.subrange(
                offs[i] as int,
                offs[i + 1] as int,
            ));
        }
    }
}

/// A key a well-formed trie holds carries a nonzero weight at the first
/// value of its child range: no key sits over an empty or cancelled range.
proof fn lemma_key_has_nonzero(keys: Seq<u64>, offs: Seq<usize>, vals: Seq<(u64, i64)>, i: int)
    requires
        ranges_wf(keys, offs, vals),
        0 <= i < keys.len(),
    ensures
        offs[i] < vals.len(),
        parts_weight(keys, offs, vals, keys[i], vals[offs[i] as int].0) != 0i64,
{
    lemma_weight_at(keys, offs, vals, i);
    lemma_offs_monotonic(keys, offs, vals, i + 1, keys.len() as int);
    let r = vals.subrange(offs[i] as int, offs[i + 1] as int);
    assert(r.len() > 0);
    assert(r[0] == vals[offs[i] as int]);
    crate::algebra::lemma_seq_weight_sorted(r, 0);
}

/// Dropping the last key and its child range keeps the trie well-formed,
/// leaves every other key's weights unchanged, and leaves the dropped key
/// absent.
proof fn lemma_parts_trim(keys: Seq<u64>, offs: Seq<usize>, vals: Seq<(u64, i64)>)
    requires
        ranges_wf(keys, offs, vals),
        keys.len() > 0,
    ensures
        ranges_wf(keys.drop_last(), offs.drop_last(), vals.take(offs[keys.len() - 1] as int)),
        forall|k: u64, v: u64|
            k != keys.last() ==> parts_weight(
                keys.drop_last(),
                offs.drop_last(),
                vals.take(offs[keys.len() - 1] as int),
                k,
                v,
            ) == parts_weight(keys, offs, vals, k, v),
        !parts_has_key(keys.drop_last(), keys.last()),
{
    reveal(parts_weight);
    let n = keys.len() - 1;
    let keysp = keys.drop_last();
    let offsp = offs.drop_last();
    let valsp = vals.take(offs[n] as int);
    assert(offs[n] < offs[n + 1]);
    assert(forall|i: int| 0 <= i < offsp.len() ==> offsp[i] == offs[i]);
    assert(forall|i: int| 0 <= i < keysp.len() ==> keysp[i] == keys[i]);
    assert(valsp.len() == offs[n]);
    assert forall|i: int|
        0 <= i < keysp.len() implies wf_zset(
        valsp.subrange((#[trigger] offsp[i]) as int, offsp[i + 1] as int),
    ) by {
        lemma_offs_monotonic(keys, offs, vals, i + 1, n);
        assert(valsp.subrange(offsp[i] as int, offsp[i + 1] as int) =~= vals.subrange(
            offs[i] as int,
            offs[i + 1] as int,
        ));
    }
    assert(ranges_wf(keysp, offsp, valsp));
    assert forall|k: u64, v: u64|
        k != keys.last() implies parts_weight(keysp, offsp, valsp, k, v) == parts_weight(
        keys,
        offs,
        vals,
        k,
        v,
    ) by {
        if parts_has_key(keysp, k) {
            let i = key_index(keysp, k);
            assert(keysp[i] == k);
            lemma_key_index(keysp, i);
            lemma_key_index(keys, i);
            lemma_offs_monotonic(keys, offs, vals, i + 1, n);
            assert(valsp.subrange(offsp[i] as int, offsp[i + 1] as int) =~= vals.subrange(
                offs[i] as int,
                offs[i + 1] as int,
            ));
        } else {
            if parts_has_key(keys, k) {
                let i = key_index(keys, k);
                assert(keys[i] == k);
                assert(i == n || keysp[i] == k);
            }
        }
    }
    if parts_has_key(keysp, keys.last()) {
        let i = key_index(keysp, keys.last());
        assert(keys[i] < keys[n]);
    }
}

/// Every key of the second trie appears in the first: the key carries a
/// nonzero weight, which an absent key cannot.
proof fn lemma_trie_key_present(
    keys1: Seq<u64>,
    offs1: Seq<usize>,
    vals1: Seq<(u64, i64)>,
    keys2: Seq<u64>,
    offs2: Seq<usize>,
    vals2: Seq<(u64, i64)>,
    i: int,
)
    requires
        ranges_wf(keys2, offs2, vals2),
        forall|k: u64, v: u64|
            parts_weight(keys1, offs1, vals1, k, v) == parts_weight(keys2, offs2, vals2, k, v),
        0 <= i < keys2.len(),
    ensures
        parts_has_key(keys1, keys2[i]),
{
    lemma_key_has_nonzero(keys2, offs2, vals2, i);
    if !parts_has_key(keys1, keys2[i]) {
        lemma_weight_absent(keys1, offs1, vals1, keys2[i]);
    }
}

/// Canonical tries are unique: two well-formed tries carrying the same
/// weight for every `(key, value)` pair are identical part for part —
/// the same keys, the same offsets, and the same leaf tuples.
#[verifier::rlimit(100)]
pub proof fn lemma_trie_unique(
    keys1: Seq<u64>,
    offs1: Seq<usize>,
    vals1: Seq<(u64, i64)>,
    keys2: Seq<u64>,
    offs2: Seq<usize>,
    vals2: Seq<(u64, i64)>,
)
    requires
        ranges_wf(keys1, offs1, vals1),
        ranges_wf(keys2, offs2, vals2),
        forall|k: u64, v: u64|
            parts_weight(keys1, offs1, vals1, k, v) == parts_weight(keys2, offs2, vals2, k, v),
    ensures
        keys1 == keys2,
        offs1 == offs2,
        vals1 == vals2,
    decreases keys1.len(),
{
    if keys1.len() == 0 && keys2.len() == 0 {
        assert(offs1 =~= offs2);
        assert(vals1 =~= vals2);
    } else if keys1.len() == 0 {
        lemma_trie_key_present(keys1, offs1, vals1, keys2, offs2, vals2, keys2.len() - 1);
        assert(false);
    } else if keys2.len() == 0 {
        assert forall|k: u64, v: u64|
            parts_weight(keys2, offs2, vals2, k, v) == parts_weight(
            keys1,
            offs1,
            vals1,
            k,
            v,
        ) by {}
        lemma_trie_key_present(keys2, offs2, vals2, keys1, offs1, vals1, keys1.len() - 1);
        assert(false);
    } else {
        let n1 = keys1.len() - 1;
        let n2 = keys2.len() - 1;
        lemma_trie_key_present(keys1, offs1, vals1, keys2, offs2, vals2, n2);
        assert forall|k: u64, v: u64|
            parts_weight(keys2, offs2, vals2, k, v) == parts_weight(
            keys1,
            offs1,
            vals1,
            k,
            v,
        ) by {}
        lemma_trie_key_present(keys2, offs2, vals2, keys1, offs1, vals1, n1);
        let i1 = key_index(keys1, keys2[n2]);
        assert(keys1[i1] == keys2[n2] && 0 <= i1 < keys1.len());
        let i2 = key_index(keys2, keys1[n1]);
        assert(keys2[i2] == keys1[n1] && 0 <= i2 < keys2.len());
        assert(keys2[n2] <= keys1[n1]);
        assert(keys1[n1] <= keys2[n2]);
        let k_last = keys1[n1];
        assert(keys2[n2] == k_last);

        // The last key's child ranges carry the same weights, so they are
        // the same canonical run.
        let r1 = vals1.subrange(offs1[n1] as int, offs1[n1 + 1] as int);
        let r2 = vals2.subrange(offs2[n2] as int, offs2[n2 + 1] as int);
        lemma_weight_at(keys1, offs1, vals1, n1);
        lemma_weight_at(keys2, offs2, vals2, n2);
        assert(wf_zset(vals1.subrange((offs1[n1]) as int, offs1[n1 + 1] as int)));
        assert(wf_zset(vals2.subrange((offs2[n2]) as int, offs2[n2 + 1] as int)));
        assert forall|v: u64| seq_weight(r1, v) == seq_weight(r2, v) by {
            assert(parts_weight(keys1, offs1, vals1, k_last, v) == seq_weight(r1, v));
            assert(parts_weight(keys2, offs2, vals2, k_last, v) == seq_weight(r2, v));
        }
        crate::algebra::lemma_wf_unique(r1, r2);

        // Trim the last key from both tries and recurse.
        lemma_parts_trim(keys1, offs1, vals1);
        lemma_parts_trim(keys2, offs2, vals2);
        let keys1p = keys1.drop_last();
        let offs1p = offs1.drop_last();
        let vals1p = vals1.take(offs1[n1] as int);
        let keys2p = keys2.drop_last();
        let offs2p = offs2.drop_last();
        let vals2p = vals2.take(offs2[n2] as int);
        assert forall|k: u64, v: u64|
            parts_weight(keys1p, offs1p, vals1p, k, v) == parts_weight(
            keys2p,
            offs2p,
            vals2p,
            k,
            v,
        ) by {
            if k != k_last {
                assert(parts_weight(keys1p, offs1p, vals1p, k, v) == parts_weight(
                    keys1,
                    offs1,
                    vals1,
                    k,
                    v,
                ));
                assert(parts_weight(keys2p, offs2p, vals2p, k, v) == parts_weight(
                    keys2,
                    offs2,
                    vals2,
                    k,
                    v,
                ));
            } else {
                lemma_weight_absent(keys1p, offs1p, vals1p, k);
                lemma_weight_absent(keys2p, offs2p, vals2p, k);
            }
        }
        lemma_trie_unique(keys1p, offs1p, vals1p, keys2p, offs2p, vals2p);

        // Reassemble: equal trimmed parts and equal last ranges give equal
        // tries.
        assert(keys1 =~= keys1p.push(k_last));
        assert(keys2 =~= keys2p.push(k_last));
        assert(keys1 == keys2);
        assert(vals1 =~= vals1p + r1);
        assert(vals2 =~= vals2p + r2);
        assert(vals1 == vals2);
        assert(offs1.last() == offs1[n1 + 1]);
        assert(offs1.last() == vals1.len());
        assert(offs2.last() == vals2.len());
        assert(offs1 =~= offs1p.push(offs1.last()));
        assert(offs2 =~= offs2p.push(offs2.last()));
        assert(offs1 == offs2);
    }
}

/// A trie node: a sorted array of keys and a parallel array of offsets
/// delimiting each key's child range within one shared leaf storage.
#[derive(Debug, Clone, PartialEq, Eq)]
pub struct OrderedLayer {
    /// The keys, strictly ascending.
    pub keys: Vec<u64>,
    /// For key `i`, its children occupy `vals[offs[i]..offs[i + 1]]`.
    pub offs: Vec<usize>,
    /// The shared child storage.
    pub vals: OrderedLeaf,
}

impl OrderedLayer {
    /// The trie's structural invariant.
    pub open spec fn wf(self) -> bool {
        ranges_wf(self.keys@, self.offs@, self.vals@)
    }

    /// The weight the pair `(k, v)` carries in the trie.
    pub open spec fn weight(self, k: u64, v: u64) -> i64 {
        parts_weight(self.keys@, self.offs@, self.vals@, k, v)
    }

    /// An empty trie.
    pub fn empty() -> (r: Self)
        ensures
            r.wf(),
            r.keys@.len() == 0,
            r.vals@.len() == 0,
    {
        let mut offs: Vec<usize> = Vec::new();
        offs.push(0);
        OrderedLayer { keys: Vec::new(), offs, vals: OrderedLeaf { vals: Vec::new() } }
    }

    /// The number of distinct keys at this level.
    pub fn keys(&self) -> (r: usize)
        ensures
            r == self.keys@.len(),
    {
        self.keys.len()
    }

    /// The total number of leaf tuples under this level.
    pub fn tuples(&self) -> (r: usize)
        ensures
            r == self.vals@.len(),
    {
        self.vals.tuples()
    }

    /// True if the trie holds no keys.
    pub fn is_empty(&self) -> (r: bool)
        ensures
            r == (self.keys@.len() == 0),
    {
        self.keys.len() == 0
    }

    /// A cursor over a range of the trie's keys.
    pub fn cursor_from(&self, lower: usize, upper: usize) -> (c: OrderedCursor)
        requires
            self.wf(),
            lower <= upper <= self.keys@.len(),
        ensures
            c.pos == lower,
            c.bounds == (lower, upper),
            c.wf_for(*self),
    {
        let child = if lower < upper {
            proof {
                lemma_offs_monotonic(self.keys@, self.offs@, self.vals@, lower + 1, self.keys@.len() as int);
            }
            self.vals.cursor_from(self.offs[lower], self.offs[lower + 1])
        } else {
            self.vals.cursor_from(0, 0)
        };
        OrderedCursor { pos: lower, bounds: (lower, upper), child }
    }

    /// A cursor over the whole trie.
    pub fn cursor(&self) -> (c: OrderedCursor)
        requires
            self.wf(),
        ensures
            c.pos == 0,
            c.bounds.0 == 0,
            c.bounds.1 == self.keys@.len(),
            c.wf_for(*self),
    {
        self.cursor_from(0, self.keys.len())
    }

    /// Merges two tries: each key's children merge algebraically, and keys
    /// whose merged children cancel entirely are dropped.
    #[verifier::rlimit(50)]
    pub fn merge(&self, other: &Self) -> (r: Self)
        requires
            self.wf(),
            other.wf(),
        ensures
            r.wf(),
            forall|k: u64, v: u64|
                r.weight(k, v) == wadd(self.weight(k, v), other.weight(k, v)),
    {
        let mut merger = OrderedBuilder::with_capacity(self, other);
        merger.push_merge((self, self.cursor()), (other, other.cursor()));
        let ghost gm = merger;
        let r = merger.done();
        proof {
            assert forall|k: u64, v: u64|
                r.weight(k, v) == wadd(self.weight(k, v), other.weight(k, v)) by {
                assert(gm.weight(k, v) == wadd(self.weight(k, v), other.weight(k, v)));
                assert(r.weight(k, v) == gm.weight(k, v));
            }
        }
        r
    }
}

/// Whether one of the first `n` keys is `k`.
pub open spec fn prefix_has(keys: Seq<u64>, n: int, k: u64) -> bool {
    exists|m: int| 0 <= m < n && keys[m] == k
}

/// A builder for ordered trie levels, fed by merges of whole key ranges
/// and by tuples in ascending order.
pub struct OrderedBuilder {
    /// The keys accepted so far, strictly ascending.
    pub keys: Vec<u64>,
    /// The child range boundaries, one more than the keys.
    pub offs: Vec<usize>,
    /// The builder for the shared child storage.
    pub vals: OrderedLeafBuilder,
}

impl OrderedBuilder {
    /// The accepted parts form a well-formed trie.
    pub open spec fn wf(self) -> bool {
        ranges_wf(self.keys@, self.offs@, self.vals.vals@)
    }

    /// The weight the pair `(k, v)` carries in the parts built so far.
    pub open spec fn weight(self, k: u64, v: u64) -> i64 {
        parts_weight(self.keys@, self.offs@, self.vals.vals@, k, v)
    }

    /// Allocates an empty builder.
    pub fn new() -> (r: Self)
        ensures
            r.wf(),
            r.keys@.len() == 0,
            r.vals.vals@.len() == 0,
    {
        let mut offs: Vec<usize> = Vec::new();
        offs.push(0);
        OrderedBuilder { keys: Vec::new(), offs, vals: OrderedLeafBuilder::new() }
    }

    /// Allocates a builder with capacity for the merge of the two tries.
    pub fn with_capacity(other1: &OrderedLayer, other2: &OrderedLayer) -> (r: Self)
        ensures
            r.wf(),
            r.keys@.len() == 0,
            r.vals.vals@.len() == 0,
    {
        let cap = if usize::MAX - other1.keys.len() >= other2.keys.len() {
            other1.keys.len() + other2.keys.len()
        } else {
            usize::MAX
        };
        Self::with_key_capacity(cap)
    }

    /// Allocates a builder with capacity for `cap` keys.
    pub fn with_key_capacity(cap: usize) -> (r: Self)
        ensures
            r.wf(),
            r.keys@.len() == 0,
            r.vals.vals@.len() == 0,
    {
        let mut offs: Vec<usize> = Vec::with_capacity(if cap < usize::MAX {
            cap + 1
        } else {
            cap
        });
        offs.push(0);
        OrderedBuilder {
            keys: Vec::with_capacity(cap),
            offs,
            vals: OrderedLeafBuilder::with_key_capacity(cap),
        }
    }

    /// Reports the number of keys accepted so far, the boundary a parent
    /// would record.
    pub fn boundary(&mut self) -> (r: usize)
        ensures
            *final(self) == *old(self),
            r == final(self).keys@.len(),
    {
        self.keys.len()
    }

    /// Reports the number of leaf tuples accepted so far.
    pub fn tuples(&self) -> (r: usize)
        ensures
            r == self.vals.vals@.len(),
    {
        self.vals.tuples()
    }

    /// Finalizes the building process and returns the trie.
    pub fn done(self) -> (r: OrderedLayer)
        requires
            self.wf(),
        ensures
            r.wf(),
            r.keys@ == self.keys@,
            r.offs@ == self.offs@,
            r.vals@ == self.vals.vals@,
    {
        let vals = OrderedLeaf { vals: self.vals.vals };
        OrderedLayer { keys: self.keys, offs: self.offs, vals }
    }

    /// Merges the two tries' key ranges into this builder: children of
    /// shared keys merge algebraically through the child builder, and a
    /// shared key whose merged children cancel entirely is dropped. The
    /// cursors delimit the ranges; the builder starts empty and the merge
    /// spans both tries in full. Returns the number of keys built.
    #[verifier::rlimit(100)]
    pub fn push_merge(
        &mut self,
        other1: (&OrderedLayer, OrderedCursor),
        other2: (&OrderedLayer, OrderedCursor),
    ) -> (r: usize)
        requires
            old(self).wf(),
            old(self).keys@.len() == 0,
            old(self).vals.vals@.len() == 0,
            other1.0.wf(),
            other2.0.wf(),
            other1.1.bounds.0 == 0 && other1.1.bounds.1 == other1.0.keys@.len(),
            other2.1.bounds.0 == 0 && other2.1.bounds.1 == other2.0.keys@.len(),
        ensures
            final(self).wf(),
            r == final(self).keys@.len(),
            forall|k: u64, v: u64|
                final(self).weight(k, v) == wadd(
                    other1.0.weight(k, v),
                    other2.0.weight(k, v),
                ),
    {
        let (trie1, _cursor1) = other1;
        let (trie2, _cursor2) = other2;
        let upper1 = trie1.keys.len();
        let upper2 = trie2.keys.len();
        let mut i1: usize = 0;
        let mut i2: usize = 0;
        proof {
            assert forall|k: u64, v: u64|
                self.weight(k, v) == wadd(
                    if prefix_has(trie1.keys@, 0int, k) {
                        trie1.weight(k, v)
                    } else {
                        0i64
                    },
                    if prefix_has(trie2.keys@, 0int, k) {
                        trie2.weight(k, v)
                    } else {
                        0i64
                    },
                ) by {
                lemma_weight_absent(self.keys@, self.offs@, self.vals.vals@, k);
                lemma_wadd_zero(0i64);
            }
        }

        while i1 < upper1 && i2 < upper2
            invariant
                trie1.wf(),
                trie2.wf(),
                self.wf(),
                i1 <= upper1 == trie1.keys@.len(),
                i2 <= upper2 == trie2.keys@.len(),
                self.keys@.len() > 0 && i1 < upper1 ==> self.keys@.last()
                    < trie1.keys@[i1 as int],
                self.keys@.len() > 0 && i2 < upper2 ==> self.keys@.last()
                    < trie2.keys@[i2 as int],
                forall|m: int|
                    0 <= m < i1 && i2 < upper2 ==> trie1.keys@[m] < trie2.keys@[i2 as int],
                forall|m: int|
                    0 <= m < i2 && i1 < upper1 ==> trie2.keys@[m] < trie1.keys@[i1 as int],
                forall|k: u64, v: u64|
                    self.weight(k, v) == wadd(
                        if prefix_has(trie1.keys@, i1 as int, k) {
                            trie1.weight(k, v)
                        } else {
                            0i64
                        },
                        if prefix_has(trie2.keys@, i2 as int, k) {
                            trie2.weight(k, v)
                        } else {
                            0i64
                        },
                    ),
            decreases (upper1 - i1) + (upper2 - i2),
        {
            let k1 = trie1.keys[i1];
            let k2 = trie2.keys[i2];
            if k1 == k2 {
                // Merge the two keys' children; keep the key only if
                // anything survives the merge.
                let ghost pre = *self;
                let lo1 = trie1.offs[i1];
                let hi1 = trie1.offs[i1 + 1];
                let lo2 = trie2.offs[i2];
                let hi2 = trie2.offs[i2 + 1];
                proof {
                    lemma_offs_monotonic(
                        trie1.keys@,
                        trie1.offs@,
                        trie1.vals@,
                        i1 as int + 1,
                        trie1.keys@.len() as int,
                    );
                    lemma_offs_monotonic(
                        trie2.keys@,
                        trie2.offs@,
                        trie2.vals@,
                        i2 as int + 1,
                        trie2.keys@.len() as int,
                    );
                }
                let c1 = trie1.vals.cursor_from(lo1, hi1);
                let c2 = trie2.vals.cursor_from(lo2, hi2);
                proof {
                    crate::algebra::lemma_wf_range_of_subrange(
                        trie1.vals@,
                        lo1 as int,
                        hi1 as int,
                    );
                    crate::algebra::lemma_wf_range_of_subrange(
                        trie2.vals@,
                        lo2 as int,
                        hi2 as int,
                    );
                }
                self.vals.push_merge((&trie1.vals, c1), (&trie2.vals, c2));
                let ghost m = self.vals.vals@.skip(pre.vals.vals@.len() as int);
                let ghost ext1 = trie1.vals@.subrange(lo1 as int, hi1 as int);
                let ghost ext2 = trie2.vals@.subrange(lo2 as int, hi2 as int);
                proof {
                    lemma_key_index(trie1.keys@, i1 as int);
                    lemma_key_index(trie2.keys@, i2 as int);
                    lemma_weight_at(trie1.keys@, trie1.offs@, trie1.vals@, i1 as int);
                    lemma_weight_at(trie2.keys@, trie2.offs@, trie2.vals@, i2 as int);
                    assert(!parts_has_key(pre.keys@, k1));
                }
                let before = self.vals.tuples();
                let last_off = self.offs[self.offs.len() - 1];
                let grew = before > last_off;
                if grew {
                    self.keys.push(k1);
                    self.offs.push(before);
                    proof {
                        assert(pre.vals.vals@ + m =~= self.vals.vals@);
                        lemma_parts_extend(
                            pre.keys@,
                            pre.offs@,
                            pre.vals.vals@,
                            k1,
                            m,
                            before,
                        );
                        assert(self.keys@ =~= pre.keys@.push(k1));
                        assert(self.offs@ =~= pre.offs@.push(before));
                    }
                } else {
                    proof {
                        assert(m =~= Seq::<(u64, i64)>::empty());
                        assert(self.vals.vals@ =~= pre.vals.vals@);
                        lemma_weight_absent(self.keys@, self.offs@, self.vals.vals@, k1);
                    }
                }
                proof {
                    assert forall|k: u64, v: u64|
                        self.weight(k, v) == wadd(
                            if prefix_has(trie1.keys@, i1 + 1, k) {
                                trie1.weight(k, v)
                            } else {
                                0i64
                            },
                            if prefix_has(trie2.keys@, i2 + 1, k) {
                                trie2.weight(k, v)
                            } else {
                                0i64
                            },
                        ) by {
                        assert(seq_weight(m, v) == wadd(seq_weight(ext1, v), seq_weight(ext2, v)));
                        assert(trie1.weight(k1, v) == seq_weight(ext1, v));
                        assert(trie2.weight(k2, v) == seq_weight(ext2, v));
                        if k == k1 {
                            assert(!prefix_has(trie1.keys@, i1 as int, k));
                            assert(!prefix_has(trie2.keys@, i2 as int, k));
                            if grew {
                                assert(self.weight(k1, v) == seq_weight(m, v));
                            } else {
                                assert(self.weight(k1, v) == 0i64);
                                assert(seq_weight(m, v) == 0i64);
                            }
                            lemma_wadd_zero(0i64);
                        } else {
                            assert(self.weight(k, v) == pre.weight(k, v));
                            assert(prefix_has(trie1.keys@, i1 + 1, k) == prefix_has(
                                trie1.keys@,
                                i1 as int,
                                k,
                            ));
                            assert(prefix_has(trie2.keys@, i2 + 1, k) == prefix_has(
                                trie2.keys@,
                                i2 as int,
                                k,
                            ));
                        }
                    }
                }
                i1 += 1;
                i2 += 1;
            } else if k1 < k2 {
                let ghost pre = *self;
                self.copy_range(trie1, i1, i1 + 1);
                proof {
                    lemma_key_index(trie1.keys@, i1 as int);
                    assert(trie1.keys@.subrange(i1 as int, i1 + 1) =~= seq![k1]);
                    assert forall|k: u64, v: u64|
                        self.weight(k, v) == wadd(
                            if prefix_has(trie1.keys@, i1 + 1, k) {
                                trie1.weight(k, v)
                            } else {
                                0i64
                            },
                            if prefix_has(trie2.keys@, i2 as int, k) {
                                trie2.weight(k, v)
                            } else {
                                0i64
                            },
                        ) by {
                        if k == k1 {
                            assert(trie1.keys@.subrange(i1 as int, i1 + 1)[0] == k);
                            assert(parts_has_key(trie1.keys@.subrange(i1 as int, i1 + 1), k));
                            assert(!prefix_has(trie1.keys@, i1 as int, k));
                            assert(!prefix_has(trie2.keys@, i2 as int, k));
                            lemma_wadd_zero(trie1.weight(k, v));
                            lemma_wadd_zero(0i64);
                        } else {
                            assert(!parts_has_key(trie1.keys@.subrange(i1 as int, i1 + 1), k));
                            assert(prefix_has(trie1.keys@, i1 + 1, k) == prefix_has(
                                trie1.keys@,
                                i1 as int,
                                k,
                            ));
                        }
                    }
                }
                i1 += 1;
            } else {
                let ghost pre = *self;
                self.copy_range(trie2, i2, i2 + 1);
                proof {
                    lemma_key_index(trie2.keys@, i2 as int);
                    assert(trie2.keys@.subrange(i2 as int, i2 + 1) =~= seq![k2]);
                    assert forall|k: u64, v: u64|
                        self.weight(k, v) == wadd(
                            if prefix_has(trie1.keys@, i1 as int, k) {
                                trie1.weight(k, v)
                            } else {
                                0i64
                            },
                            if prefix_has(trie2.keys@, i2 + 1, k) {
                                trie2.weight(k, v)
                            } else {
                                0i64
                            },
                        ) by {
                        if k == k2 {
                            assert(trie2.keys@.subrange(i2 as int, i2 + 1)[0] == k);
                            assert(parts_has_key(trie2.keys@.subrange(i2 as int, i2 + 1), k));
                            assert(!prefix_has(trie2.keys@, i2 as int, k));
                            assert(!prefix_has(trie1.keys@, i1 as int, k));
                            lemma_wadd_zero(trie2.weight(k, v));
                            crate::algebra::lemma_wadd_comm(trie2.weight(k, v), 0i64);
                        } else {
                            assert(!parts_has_key(trie2.keys@.subrange(i2 as int, i2 + 1), k));
                            assert(prefix_has(trie2.keys@, i2 + 1, k) == prefix_has(
                                trie2.keys@,
                                i2 as int,
                                k,
                            ));
                        }
                    }
                }
                i2 += 1;
            }
        }

        if i1 < upper1 {
            self.copy_range(trie1, i1, upper1);
            proof {
                assert forall|k: u64, v: u64|
                    self.weight(k, v) == wadd(
                        if prefix_has(trie1.keys@, upper1 as int, k) {
                            trie1.weight(k, v)
                        } else {
                            0i64
                        },
                        if prefix_has(trie2.keys@, i2 as int, k) {
                            trie2.weight(k, v)
                        } else {
                            0i64
                        },
                    ) by {
                    if parts_has_key(trie1.keys@.subrange(i1 as int, upper1 as int), k) {
                        let m = choose|m: int|
                            0 <= m < upper1 - i1 && trie1.keys@.subrange(
                                i1 as int,
                                upper1 as int,
                            )[m] == k;
                        assert(trie1.keys@[i1 + m] == k);
                        assert(!prefix_has(trie1.keys@, i1 as int, k));
                        assert(!prefix_has(trie2.keys@, i2 as int, k));
                        lemma_wadd_zero(trie1.weight(k, v));
                        lemma_wadd_zero(0i64);
                    } else {
                        assert forall|m: int|
                            i1 <= m < upper1 implies trie1.keys@[m] != k by {
                            assert(trie1.keys@.subrange(i1 as int, upper1 as int)[m - i1]
                                == trie1.keys@[m]);
                        }
                        assert(prefix_has(trie1.keys@, upper1 as int, k) == prefix_has(
                            trie1.keys@,
                            i1 as int,
                            k,
                        ));
                    }
                }
            }
        } else if i2 < upper2 {
            self.copy_range(trie2, i2, upper2);
            proof {
                assert forall|k: u64, v: u64|
                    self.weight(k, v) == wadd(
                        if prefix_has(trie1.keys@, i1 as int, k) {
                            trie1.weight(k, v)
                        } else {
                            0i64
                        },
                        if prefix_has(trie2.keys@, upper2 as int, k) {
                            trie2.weight(k, v)
                        } else {
                            0i64
                        },
                    ) by {
                    if parts_has_key(trie2.keys@.subrange(i2 as int, upper2 as int), k) {
                        let m = choose|m: int|
                            0 <= m < upper2 - i2 && trie2.keys@.subrange(
                                i2 as int,
                                upper2 as int,
                            )[m] == k;
                        assert(trie2.keys@[i2 + m] == k);
                        assert(!prefix_has(trie2.keys@, i2 as int, k));
                        assert(!prefix_has(trie1.keys@, i1 as int, k));
                        lemma_wadd_zero(trie2.weight(k, v));
                        crate::algebra::lemma_wadd_comm(trie2.weight(k, v), 0i64);
                    } else {
                        assert forall|m: int|
                            i2 <= m < upper2 implies trie2.keys@[m] != k by {
                            assert(trie2.keys@.subrange(i2 as int, upper2 as int)[m - i2]
                                == trie2.keys@[m]);
                        }
                        assert(prefix_has(trie2.keys@, upper2 as int, k) == prefix_has(
                            trie2.keys@,
                            i2 as int,
                            k,
                        ));
                    }
                }
            }
        }

        proof {
            assert forall|k: u64, v: u64|
                self.weight(k, v) == wadd(
                    other1.0.weight(k, v),
                    other2.0.weight(k, v),
                ) by {
                assert(prefix_has(trie1.keys@, upper1 as int, k) == parts_has_key(
                    trie1.keys@,
                    k,
                ));
                assert(prefix_has(trie2.keys@, upper2 as int, k) == parts_has_key(
                    trie2.keys@,
                    k,
                ));
                if !parts_has_key(trie1.keys@, k) {
                    lemma_weight_absent(trie1.keys@, trie1.offs@, trie1.vals@, k);
                }
                if !parts_has_key(trie2.keys@, k) {
                    lemma_weight_absent(trie2.keys@, trie2.offs@, trie2.vals@, k);
                }
            }
        }
        self.keys.len()
    }

    /// Accepts one `(key, (value, weight))` tuple. The caller feeds
    /// tuples with strictly ascending `(key, value)` pairs and no zero
    /// weights, so the parts stay canonical.
    pub fn push_tuple(&mut self, tuple: (u64, (u64, i64)))
        requires
            old(self).wf(),
            tuple.1.1 != 0i64,
            old(self).keys@.len() > 0 ==> tuple.0 >= old(self).keys@.last(),
            old(self).keys@.len() > 0 && tuple.0 == old(self).keys@.last() ==> old(
                self,
            ).vals.vals@.len() > 0 && old(self).vals.vals@.last().0 < tuple.1.0,
        ensures
            final(self).wf(),
            final(self).keys@.len() > 0,
            final(self).keys@.last() == tuple.0,
            final(self).vals.vals@.len() > 0,
            final(self).vals.vals@.last() == tuple.1,
            forall|k: u64, v: u64|
                final(self).weight(k, v) == wadd(
                    old(self).weight(k, v),
                    if k == tuple.0 && v == tuple.1.0 {
                        tuple.1.1
                    } else {
                        0i64
                    },
                ),
    {
        let (key, val_weight) = tuple;
        let n = self.keys.len();
        if n > 0 && self.keys[n - 1] == key {
            // The key continues: extend its child range.
            let ghost pre = *self;
            self.vals.push_tuple(val_weight);
            let m = self.offs.len();
            let new_len = self.vals.tuples();
            self.offs[m - 1] = new_len;
            proof {
                let lo = pre.offs@[pre.keys@.len() - 1] as int;
                let hi = pre.vals.vals@.len() as int;
                let sub = pre.vals.vals@.subrange(lo, hi);
                assert(wf_zset(sub));
                assert forall|mm: int|
                    lo <= mm < hi implies (#[trigger] pre.vals.vals@[mm]).0 < val_weight.0 by {
                    assert(sub[mm - lo] == pre.vals.vals@[mm]);
                    assert(sub[sub.len() - 1] == pre.vals.vals@[hi - 1]);
                    if mm < hi - 1 {
                        assert(sub[mm - lo].0 < sub[sub.len() - 1].0);
                    }
                }
                lemma_parts_extend_last(pre.keys@, pre.offs@, pre.vals.vals@, val_weight);
                assert(self.offs@ =~= pre.offs@.update(
                    pre.keys@.len() as int,
                    (pre.vals.vals@.len() + 1) as usize,
                ));
                assert(self.vals.vals@ =~= pre.vals.vals@.push(val_weight));
                assert forall|k: u64, v: u64|
                    self.weight(k, v) == wadd(
                        pre.weight(k, v),
                        if k == key && v == val_weight.0 {
                            val_weight.1
                        } else {
                            0i64
                        },
                    ) by {
                    if k != key {
                        lemma_wadd_zero(pre.weight(k, v));
                    } else if v != val_weight.0 {
                        lemma_wadd_zero(pre.weight(k, v));
                    }
                }
            }
        } else {
            // A fresh key with a fresh child range.
            let ghost pre = *self;
            self.vals.push_tuple(val_weight);
            self.keys.push(key);
            let new_off = self.vals.tuples();
            self.offs.push(new_off);
            proof {
                assert(seq![val_weight].len() == 1);
                assert(wf_zset(seq![val_weight]));
                lemma_parts_extend(
                    pre.keys@,
                    pre.offs@,
                    pre.vals.vals@,
                    key,
                    seq![val_weight],
                    new_off,
                );
                assert(self.keys@ =~= pre.keys@.push(key));
                assert(self.offs@ =~= pre.offs@.push(new_off));
                assert(self.vals.vals@ =~= pre.vals.vals@ + seq![val_weight]);
                assert(!parts_has_key(pre.keys@, key));
                lemma_weight_absent(pre.keys@, pre.offs@, pre.vals.vals@, key);
                assert forall|k: u64, v: u64|
                    self.weight(k, v) == wadd(
                        pre.weight(k, v),
                        if k == key && v == val_weight.0 {
                            val_weight.1
                        } else {
                            0i64
                        },
                    ) by {
                    if k == key {
                        assert(self.weight(key, v) == seq_weight(seq![val_weight], v));
                        assert(seq![val_weight].drop_last() =~= Seq::<(u64, i64)>::empty());
                        assert(seq_weight(Seq::<(u64, i64)>::empty(), v) == 0i64);
                        assert(seq![val_weight].last() == val_weight);
                        lemma_wadd_zero(if v == val_weight.0 {
                            val_weight.1
                        } else {
                            0i64
                        });
                        crate::algebra::lemma_wadd_comm(
                            if v == val_weight.0 {
                                val_weight.1
                            } else {
                                0i64
                            },
                            0i64,
                        );
                    } else {
                        lemma_wadd_zero(pre.weight(k, v));
                    }
                }
            }
        }
    }

    /// Copies the key range `other[lower..upper]`, with each key's
    /// children, into this builder.
    #[verifier::rlimit(50)]
    pub fn copy_range(&mut self, other: &OrderedLayer, lower: usize, upper: usize)
        requires
            old(self).wf(),
            other.wf(),
            lower <= upper <= other.keys@.len(),
            old(self).keys@.len() > 0 && lower < upper ==> old(self).keys@.last()
                < other.keys@[lower as int],
        ensures
            final(self).wf(),
            final(self).keys@ == old(self).keys@ + other.keys@.subrange(
                lower as int,
                upper as int,
            ),
            forall|k: u64, v: u64|
                parts_has_key(other.keys@.subrange(lower as int, upper as int), k)
                    ==> final(self).weight(k, v) == other.weight(k, v),
            forall|k: u64, v: u64|
                !parts_has_key(other.keys@.subrange(lower as int, upper as int), k)
                    ==> final(self).weight(k, v) == old(self).weight(k, v),
    {
        let mut i = lower;
        while i < upper
            invariant
                other.wf(),
                self.wf(),
                lower <= i <= upper <= other.keys@.len(),
                self.keys@ == old(self).keys@ + other.keys@.subrange(lower as int, i as int),
                self.keys@.len() > 0 && i < upper ==> self.keys@.last()
                    < other.keys@[i as int],
                forall|k: u64, v: u64|
                    parts_has_key(other.keys@.subrange(lower as int, i as int), k)
                        ==> self.weight(k, v) == other.weight(k, v),
                forall|k: u64, v: u64|
                    !parts_has_key(other.keys@.subrange(lower as int, i as int), k)
                        ==> self.weight(k, v) == old(self).weight(k, v),
            decreases upper - i,
        {
            let ghost pre = *self;
            let lo = other.offs[i];
            let hi = other.offs[i + 1];
            proof {
                lemma_offs_monotonic(
                    other.keys@,
                    other.offs@,
                    other.vals@,
                    i as int + 1,
                    other.keys@.len() as int,
                );
            }
            self.vals.copy_range(&other.vals, lo, hi);
            let key = other.keys[i];
            self.keys.push(key);
            let new_off = self.vals.tuples();
            self.offs.push(new_off);
            proof {
                let ext = other.vals@.subrange(lo as int, hi as int);
                lemma_key_index(other.keys@, i as int);
                lemma_weight_at(other.keys@, other.offs@, other.vals@, i as int);
                lemma_parts_extend(
                    pre.keys@,
                    pre.offs@,
                    pre.vals.vals@,
                    key,
                    ext,
                    new_off,
                );
                assert(self.keys@ =~= pre.keys@.push(key));
                assert(self.offs@ =~= pre.offs@.push(new_off));
                assert(self.vals.vals@ =~= pre.vals.vals@ + ext);
                assert(self.keys@ =~= old(self).keys@ + other.keys@.subrange(
                    lower as int,
                    i + 1,
                ));
                assert forall|k: u64, v: u64|
                    parts_has_key(other.keys@.subrange(lower as int, i + 1), k) implies self
                    .weight(k, v) == other.weight(k, v) by {
                    if k == key {
                        assert(other.weight(k, v) == seq_weight(ext, v));
                    } else {
                        assert(parts_has_key(
                            other.keys@.subrange(lower as int, i as int),
                            k,
                        ));
                    }
                }
                assert forall|k: u64, v: u64|
                    !parts_has_key(other.keys@.subrange(lower as int, i + 1), k) implies self
                    .weight(k, v) == old(self).weight(k, v) by {
                    assert(other.keys@.subrange(lower as int, i + 1)[i - lower] == key);
                    assert(k != key);
                    assert(!parts_has_key(other.keys@.subrange(lower as int, i as int), k));
                }
            }
            i += 1;
        }
        proof {
            assert(other.keys@.subrange(lower as int, i as int) =~= other.keys@.subrange(
                lower as int,
                upper as int,
            ));
        }
    }
}

/// A cursor through the keys of an ordered trie level, holding a child
/// cursor over the current key's children.
#[derive(Clone, Copy, Debug)]
pub struct OrderedCursor {
    /// Current position among the keys.
    pub pos: usize,
    /// The navigable key range, lower inclusive, upper exclusive.
    pub bounds: (usize, usize),
    /// A cursor over the current key's child range.
    pub child: OrderedLeafCursor,
}

impl OrderedCursor {
    /// The cursor's range lies within the trie, and while a key is under
    /// the cursor the child cursor covers that key's child range.
    pub open spec fn wf_for(self, storage: OrderedLayer) -> bool {
        &&& self.bounds.0 <= self.pos <= self.bounds.1 <= storage.keys@.len()
        &&& self.pos < self.bounds.1 ==> self.child.bounds.0 == storage.offs@[self.pos as int]
            && self.child.bounds.1 == storage.offs@[self.pos as int + 1]
            && self.child.wf_for(storage.vals)
    }

    /// Reveals the current key.
    pub fn key<'a>(&self, storage: &'a OrderedLayer) -> (r: &'a u64)
        requires
            self.wf_for(*storage),
            self.pos < self.bounds.1,
        ensures
            *r == storage.keys@[self.pos as int],
    {
        &storage.keys[self.pos]
    }

    /// Reveals the current key's children: the shared storage and a fresh
    /// cursor over the child range.
    pub fn values<'a>(&self, storage: &'a OrderedLayer) -> (r: (&'a OrderedLeaf, OrderedLeafCursor))
        requires
            self.wf_for(*storage),
            self.pos < self.bounds.1,
        ensures
            *(r.0) == storage.vals,
            r.1 == self.child,
    {
        (&storage.vals, self.child)
    }

    /// True if the cursor points at a key within its range.
    pub fn valid(&self, storage: &OrderedLayer) -> (r: bool)
        ensures
            r == (self.pos < self.bounds.1),
    {
        self.pos < self.bounds.1
    }

    /// Advances the cursor by one key, repositioning the child cursor.
    pub fn step(&mut self, storage: &OrderedLayer)
        requires
            storage.wf(),
            old(self).wf_for(*storage),
            old(self).pos < old(self).bounds.1,
        ensures
            final(self).wf_for(*storage),
            final(self).bounds == old(self).bounds,
            final(self).pos == old(self).pos + 1,
    {
        self.pos += 1;
        if self.pos < self.bounds.1 {
            proof {
                lemma_offs_monotonic(
                    storage.keys@,
                    storage.offs@,
                    storage.vals@,
                    self.pos as int + 1,
                    storage.keys@.len() as int,
                );
            }
            self.child.reposition(&storage.vals, storage.offs[self.pos], storage.offs[self.pos
                + 1]);
        }
    }

    /// Advances the cursor to the first key at or past the given key,
    /// skipping with exponential search.
    pub fn seek(&mut self, storage: &OrderedLayer, key: &u64)
        requires
            storage.wf(),
            old(self).wf_for(*storage),
        ensures
            final(self).wf_for(*storage),
            final(self).bounds == old(self).bounds,
            old(self).pos <= final(self).pos,
            forall|i: int|
                old(self).pos <= i < final(self).pos ==> storage.keys@[i] < *key,
            final(self).pos < final(self).bounds.1 ==> storage.keys@[final(self).pos as int]
                >= *key,
    {
        let k = *key;
        let below = |x: &u64| -> (b: bool)
            ensures
                b == (*x < k),
            {
                *x < k
            };
        let adv = crate::trace::layers::advance(
            &storage.keys,
            self.pos,
            self.bounds.1,
            below,
            Ghost(|t: u64| t < k),
        );
        self.pos += adv;
        if self.pos < self.bounds.1 {
            proof {
                lemma_offs_monotonic(
                    storage.keys@,
                    storage.offs@,
                    storage.vals@,
                    self.pos as int + 1,
                    storage.keys@.len() as int,
                );
            }
            self.child.reposition(&storage.vals, storage.offs[self.pos], storage.offs[self.pos
                + 1]);
        }
    }

    /// Rewinds the cursor to the lower bound of its range.
    pub fn rewind(&mut self, storage: &OrderedLayer)
        requires
            old(self).bounds.0 <= old(self).bounds.1 <= storage.keys@.len(),
            storage.wf(),
        ensures
            final(self).wf_for(*storage),
            final(self).bounds == old(self).bounds,
            final(self).pos == final(self).bounds.0,
    {
        self.pos = self.bounds.0;
        if self.pos < self.bounds.1 {
            proof {
                lemma_offs_monotonic(
                    storage.keys@,
                    storage.offs@,
                    storage.vals@,
                    self.pos as int + 1,
                    storage.keys@.len() as int,
                );
            }
            self.child.reposition(&storage.vals, storage.offs[self.pos], storage.offs[self.pos
                + 1]);
        }
    }

    /// Repositions the cursor to a different range of keys.
    pub fn reposition(&mut self, storage: &OrderedLayer, lower: usize, upper: usize)
        requires
            storage.wf(),
            lower <= upper <= storage.keys@.len(),
        ensures
            final(self).wf_for(*storage),
            final(self).pos == lower,
            final(self).bounds == (lower, upper),
    {
        self.pos = lower;
        self.bounds = (lower, upper);
        if self.pos < self.bounds.1 {
            proof {
                lemma_offs_monotonic(
                    storage.keys@,
                    storage.offs@,
                    storage.vals@,
                    self.pos as int + 1,
                    storage.keys@.len() as int,
                );
            }
            self.child.reposition(&storage.vals, storage.offs[self.pos], storage.offs[self.pos
                + 1]);
        }
    }
}

impl crate::trace::layers::Trie for OrderedLayer {
    type Item = (u64, (u64, i64));

    type Cursor = OrderedCursor;

    type MergeBuilder = OrderedBuilder;

    type TupleBuilder = OrderedBuilder;

    fn keys(&self) -> usize {
        OrderedLayer::keys(self)
    }

    fn tuples(&self) -> usize {
        OrderedLayer::tuples(self)
    }

    fn is_empty(&self) -> bool {
        OrderedLayer::is_empty(self)
    }
}

impl crate::trace::layers::Builder for OrderedBuilder {
    type Trie = OrderedLayer;

    open spec fn done_pre(self) -> bool {
        self.wf()
    }

    open spec fn boundary_pre(self) -> bool {
        true
    }

    fn boundary(&mut self) -> usize {
        OrderedBuilder::boundary(self)
    }

    fn done(self) -> OrderedLayer {
        OrderedBuilder::done(self)
    }
}

impl crate::trace::layers::MergeBuilder for OrderedBuilder {
    fn with_capacity(other1: &OrderedLayer, other2: &OrderedLayer) -> Self {
        OrderedBuilder::with_capacity(other1, other2)
    }

    fn with_key_capacity(cap: usize) -> Self {
        OrderedBuilder::with_key_capacity(cap)
    }
}

impl crate::trace::layers::TupleBuilder for OrderedBuilder {
    type Item = (u64, (u64, i64));

    open spec fn push_pre(self, tuple: (u64, (u64, i64))) -> bool {
        &&& self.wf()
        &&& tuple.1.1 != 0i64
        &&& self.keys@.len() > 0 ==> tuple.0 >= self.keys@.last()
        &&& self.keys@.len() > 0 && tuple.0 == self.keys@.last() ==> self.vals.vals@.len() > 0
            && self.vals.vals@.last().0 < tuple.1.0
    }

    fn new() -> Self {
        OrderedBuilder::new()
    }

    fn push_tuple(&mut self, tuple: (u64, (u64, i64))) {
        OrderedBuilder::push_tuple(self, tuple)
    }

    fn tuples(&self) -> usize {
        OrderedBuilder::tuples(self)
    }
}

impl crate::trace::layers::Cursor<OrderedLayer> for OrderedCursor {
    open spec fn nav_pre(self, storage: OrderedLayer) -> bool {
        storage.wf() && self.wf_for(storage) && self.pos < self.bounds.1
    }

    open spec fn rewind_pre(self, storage: OrderedLayer) -> bool {
        storage.wf() && self.bounds.0 <= self.bounds.1 <= storage.keys@.len()
    }

    open spec fn range_pre(storage: OrderedLayer, lower: usize, upper: usize) -> bool {
        storage.wf() && lower <= upper <= storage.keys@.len()
    }

    fn valid(&self, storage: &OrderedLayer) -> bool {
        OrderedCursor::valid(self, storage)
    }

    fn step(&mut self, storage: &OrderedLayer) {
        OrderedCursor::step(self, storage)
    }

    fn rewind(&mut self, storage: &OrderedLayer) {
        OrderedCursor::rewind(self, storage)
    }

    fn reposition(&mut self, storage: &OrderedLayer, lower: usize, upper: usize) {
        OrderedCursor::reposition(self, storage, lower, upper)
    }
}

} // verus!
