use dbsp::operator::iterate::{distinct, fixed_point, zset_eq};
use dbsp::trace::zset_batch::OrdZSet;

// Distinct keeps positive weights as one and drops the rest.
#[test]
fn distinct_normalizes_weights() {
    let z = OrdZSet::from_tuples((), vec![(1, 5), (2, -3), (3, 1)]);
    let d = distinct(&z);
    assert_eq!(d.layer.vals, vec![(1, 1), (3, 1)]);
}

#[test]
fn zset_eq_compares_tuples() {
    let a = OrdZSet::from_tuples((), vec![(1, 1), (2, 2)]);
    let b = OrdZSet::from_tuples((), vec![(2, 2), (1, 1)]);
    let c = OrdZSet::from_tuples((), vec![(1, 1)]);
    assert!(zset_eq(&a, &b));
    assert!(!zset_eq(&a, &c));
}

// Transitive closure by fixed point. Pairs (x, y) are encoded as the
// key 10 * x + y. The body composes the relation with itself; the input
// edges are unioned back in and the result made distinct each round.
#[test]
fn transitive_closure_reaches_fixed_point() {
    let edges = OrdZSet::from_tuples((), vec![(12, 1), (23, 1), (34, 1)]);
    let body = |cur: &OrdZSet| -> OrdZSet {
        let pairs: Vec<(u64, u64)> = cur
            .layer
            .vals
            .iter()
            .map(|&(k, _)| (k / 10, k % 10))
            .collect();
        let mut composed: Vec<(u64, i64)> = Vec::new();
        for &(a, b) in &pairs {
            for &(c, d) in &pairs {
                if b == c {
                    composed.push((10 * a + d, 1));
                }
            }
        }
        OrdZSet::from_tuples((), composed)
    };
    let closure = fixed_point(&edges, body, 100).expect("closure stabilizes");
    assert_eq!(
        closure.layer.vals,
        vec![(12, 1), (13, 1), (14, 1), (23, 1), (24, 1), (34, 1)]
    );
}

// A body that keeps inventing new keys never stabilizes within its step
// budget.
#[test]
fn runaway_body_exhausts_budget() {
    let input = OrdZSet::from_tuples((), vec![(1, 1)]);
    let body = |cur: &OrdZSet| -> OrdZSet {
        let max_key = cur.layer.vals.iter().map(|t| t.0).max().unwrap_or(0);
        OrdZSet::from_tuples((), vec![(max_key + 1, 1)])
    };
    assert!(fixed_point(&input, body, 10).is_none());
}
