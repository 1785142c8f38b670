use dbsp::circuit::Stream;
use dbsp::trace::zset_batch::OrdZSet;
use std::cell::Cell;

#[test]
fn scalar_integrate() {
    let source = Stream::from_vals(vec![1i64; 100]);
    let integral = source.integrate();
    let mut counter = 0i64;
    for i in 0..100 {
        counter += 1;
        assert_eq!(*integral.get(i), counter);
    }
}

#[test]
fn zset_integrate() {
    // The source stream: at step t, the Z-set {i -> +1 : i < t}.
    let mut source_vals: Vec<OrdZSet> = Vec::new();
    let mut s = OrdZSet::empty(());
    for counter1 in 0..100u64 {
        source_vals.push(s.clone());
        s = s.merge(&OrdZSet::from_tuples((), vec![(counter1, 1i64)]));
    }
    let source = Stream::from_vals(source_vals);
    let integral = source.integrate();

    let mut counter2: usize = 0;
    for step in 0..100 {
        let mut batch = Vec::with_capacity(counter2);
        for i in 0..counter2 {
            batch.push((i as u64, (counter2 - i) as i64));
        }
        assert_eq!(integral.get(step), &OrdZSet::from_tuples((), batch));
        counter2 += 1;
    }

    // The delayed view of the integral: each step shows the previous
    // step's value.
    let mut counter3: usize = 0;
    for step in 0..100 {
        let mut batch = Vec::with_capacity(counter3);
        for i in 1..counter3 {
            batch.push(((i - 1) as u64, (counter3 - i) as i64));
        }
        if step > 0 {
            assert_eq!(integral.get(step - 1), &OrdZSet::from_tuples((), batch));
        }
        counter3 += 1;
    }
}

#[test]
fn scalar_integrate_nested() {
    let mut input = vec![3i64, 4, 2, 5].into_iter();

    let mut expected_counters =
        vec![3, 2, 1, 0, 4, 3, 2, 1, 0, 2, 1, 0, 0, 0, 5, 4, 3, 2, 1, 0].into_iter();
    let mut expected_integrals =
        vec![3, 2, 1, 0, 7, 5, 3, 1, 0, 9, 6, 3, 1, 0, 14, 10, 6, 3, 1, 0].into_iter();
    let mut expected_outer_integrals = vec![6i64, 16, 19, 34].into_iter();

    // Drive the nested circuit: per outer step, the inner loop computes
    // plus_j = delta0_j + f(feedback_j) with f(n) = n - 1 floored at zero,
    // and runs until the nested integral reaches zero.
    let mut rows: Vec<Vec<i64>> = Vec::new();
    let mut prev_integral: Vec<i64> = Vec::new();
    for _ in 0..4 {
        let source_val = input.next().unwrap();
        let mut row: Vec<i64> = Vec::new();
        let mut cur_integral: Vec<i64> = Vec::new();
        let mut j = 0usize;
        loop {
            let delta0 = if j == 0 { source_val } else { 0 };
            let fb = if j == 0 { 0 } else { row[j - 1] };
            let n = delta0 + (if fb > 0 { fb - 1 } else { fb });
            row.push(n);
            assert_eq!(n, expected_counters.next().unwrap());
            let integral_elem = prev_integral.get(j).copied().unwrap_or(0) + n;
            cur_integral.push(integral_elem);
            if integral_elem == 0 {
                break;
            }
            j += 1;
        }
        // The integral keeps the longer row's tail.
        for j2 in cur_integral.len()..prev_integral.len() {
            cur_integral.push(prev_integral[j2]);
        }
        prev_integral = cur_integral;
        rows.push(row);
    }

    // The nested integral, computed by the library, matches the expected
    // per-element values.
    let nested = Stream::from_vals(
        rows.iter()
            .map(|r| Stream::from_vals(r.clone()))
            .collect::<Vec<_>>(),
    );
    let nested_integral = nested.integrate_nested();
    assert_eq!(nested_integral.len(), 4);
    for i in 0..4 {
        let integral_row = nested_integral.get(i);
        for j in 0..integral_row.len() {
            assert_eq!(*integral_row.get(j), expected_integrals.next().unwrap());
        }
    }

    // The exported outer value per step is the inner integral summed over
    // the inner timestamps: the last element of the row's own integral.
    for i in 0..4 {
        let integral_row = nested_integral.get(i);
        let row_sum = integral_row.integrate();
        let exported = *row_sum.get(row_sum.len() - 1);
        assert_eq!(exported, expected_outer_integrals.next().unwrap());
    }
}

#[test]
fn inspect_sees_every_element() {
    let seen = Cell::new(0i64);
    let source = Stream::from_vals(vec![5i64, 6, 7]);
    source.inspect(|n: &i64| {
        seen.set(seen.get() + *n);
    });
    assert_eq!(seen.get(), 18);
}
