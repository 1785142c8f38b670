//! Integration operators: running sums of a stream, and of a stream of
//! streams.

use vstd::prelude::*;

use crate::algebra::{AddByRef, HasZero};
use crate::circuit::Stream;

verus! {

/// Element `j` of the pointwise sum of two rows, with the shorter row
/// padded by zeros.
pub open spec fn row_elem_ok<D: AddByRef + HasZero>(a: Seq<D>, b: Seq<D>, x: D, j: int) -> bool {
    if j < a.len() && j < b.len() {
        a[j].add_rel(b[j], x)
    } else if j < a.len() {
        exists|z: D| z.spec_is_zero() && #[trigger] a[j].add_rel(z, x)
    } else {
        exists|z: D| z.spec_is_zero() && #[trigger] z.add_rel(b[j], x)
    }
}

/// `r` is the pointwise sum of rows `a` and `b`, the shorter padded by
/// zeros.
pub open spec fn row_add_rel<D: AddByRef + HasZero>(a: Seq<D>, b: Seq<D>, r: Seq<D>) -> bool {
    &&& r.len() == (if a.len() >= b.len() {
        a.len()
    } else {
        b.len()
    })
    &&& forall|j: int| 0 <= j < r.len() ==> row_elem_ok(a, b, #[trigger] r[j], j)
}

impl<D: AddByRef + HasZero> Stream<D> {
    /// Integrates the stream: computes the running sum of its values, so
    /// that element `i` of the result is the sum of the first `i + 1`
    /// input elements. Feeding a stream of ones yields one, two, three and
    /// so on.
    pub fn integrate(&self) -> (r: Stream<D>)
        requires
            forall|i: int| 0 <= i < self@.len() ==> (#[trigger] self@[i]).sound(),
        ensures
            r@.len() == self@.len(),
            forall|i: int| 0 <= i < r@.len() ==> (#[trigger] r@[i]).sound(),
            self@.len() > 0 ==> (exists|z: D|
                z.spec_is_zero() && #[trigger] z.add_rel(self@[0], r@[0])),
            forall|i: int| 1 <= i < self@.len() ==> (#[trigger] r@[i - 1]).add_rel(
                self@[i],
                r@[i],
            ),
    {
        let mut out: Vec<D> = Vec::new();
        if self.vals.len() > 0 {
            let z = D::zero();
            proof {
                assert((self@[0]).sound());
            }
            let first = z.add_by_ref(&self.vals[0]);
            out.push(first);
            let mut index: usize = 1;
            while index < self.vals.len()
                invariant
                    1 <= index <= self@.len(),
                    out@.len() == index,
                    forall|i: int| 0 <= i < self@.len() ==> (#[trigger] self@[i]).sound(),
                    forall|i: int| 0 <= i < index ==> (#[trigger] out@[i]).sound(),
                    z.spec_is_zero(),
                    z.add_rel(self@[0], out@[0]),
                    forall|i: int| 1 <= i < index ==> (#[trigger] out@[i - 1]).add_rel(
                        self@[i],
                        out@[i],
                    ),
                decreases self@.len() - index,
            {
                let next = out[index - 1].add_by_ref(&self.vals[index]);
                out.push(next);
                index += 1;
            }
            proof {
                assert(z.add_rel(self@[0], out@[0]));
            }
        }
        Stream { vals: out }
    }
}

/// The pointwise sum of two rows, the shorter padded by zeros.
fn row_plus<D: AddByRef + HasZero>(a: &Stream<D>, b: &Stream<D>) -> (r: Stream<D>)
    requires
        forall|j: int| 0 <= j < a@.len() ==> (#[trigger] a@[j]).sound(),
        forall|j: int| 0 <= j < b@.len() ==> (#[trigger] b@[j]).sound(),
    ensures
        row_add_rel(a@, b@, r@),
        forall|j: int| 0 <= j < r@.len() ==> (#[trigger] r@[j]).sound(),
{
    let z = D::zero();
    let a_len = a.vals.len();
    let b_len = b.vals.len();
    let n = if a_len >= b_len {
        a_len
    } else {
        b_len
    };
    let mut out: Vec<D> = Vec::new();
    let mut j: usize = 0;
    while j < n
        invariant
            j <= n,
            a_len == a@.len(),
            b_len == b@.len(),
            n == (if a@.len() >= b@.len() {
                a@.len()
            } else {
                b@.len()
            }),
            out@.len() == j,
            z.spec_is_zero(),
            z.sound(),
            forall|i: int| 0 <= i < a@.len() ==> (#[trigger] a@[i]).sound(),
            forall|i: int| 0 <= i < b@.len() ==> (#[trigger] b@[i]).sound(),
            forall|i: int| 0 <= i < j ==> row_elem_ok(a@, b@, #[trigger] out@[i], i),
            forall|i: int| 0 <= i < j ==> (#[trigger] out@[i]).sound(),
        decreases n - j,
    {
        if j < a_len && j < b_len {
            let x = a.vals[j].add_by_ref(&b.vals[j]);
            out.push(x);
        } else if j < a_len {
            let x = a.vals[j].add_by_ref(&z);
            out.push(x);
            proof {
                assert(a@[j as int].add_rel(z, out@[j as int]));
            }
        } else {
            let x = z.add_by_ref(&b.vals[j]);
            out.push(x);
            proof {
                assert(z.add_rel(b@[j as int], out@[j as int]));
            }
        }
        j += 1;
    }
    Stream { vals: out }
}

impl<D: AddByRef + HasZero> Stream<Stream<D>> {
    /// Integrates a stream of streams: rather than summing values within
    /// each nested stream, sums entire rows pointwise across the parent
    /// steps, with shorter rows padded by zeros. Row `i` of the result is
    /// the pointwise sum of the first `i + 1` input rows.
    pub fn integrate_nested(&self) -> (r: Stream<Stream<D>>)
        requires
            forall|i: int, j: int|
                0 <= i < self@.len() && 0 <= j < self@[i]@.len() ==> (
                #[trigger] self@[i]@[j]).sound(),
        ensures
            r@.len() == self@.len(),
            self@.len() > 0 ==> row_add_rel(Seq::<D>::empty(), self@[0]@, r@[0]@),
            forall|i: int| 1 <= i < self@.len() ==> row_add_rel(
                (#[trigger] r@[i - 1])@,
                self@[i]@,
                r@[i]@,
            ),
            forall|i: int, j: int|
                0 <= i < r@.len() && 0 <= j < r@[i]@.len() ==> (#[trigger] r@[i]@[j]).sound(),
    {
        let mut out: Vec<Stream<D>> = Vec::new();
        let mut index: usize = 0;
        while index < self.vals.len()
            invariant
                index <= self@.len(),
                out@.len() == index,
                forall|i: int, j: int|
                    0 <= i < self@.len() && 0 <= j < self@[i]@.len() ==> (
                    #[trigger] self@[i]@[j]).sound(),
                index > 0 ==> row_add_rel(Seq::<D>::empty(), self@[0]@, out@[0]@),
                forall|i: int| 1 <= i < index ==> row_add_rel(
                    (#[trigger] out@[i - 1])@,
                    self@[i]@,
                    out@[i]@,
                ),
                forall|i: int, j: int|
                    0 <= i < index && 0 <= j < out@[i]@.len() ==> (
                    #[trigger] out@[i]@[j]).sound(),
            decreases self@.len() - index,
        {
            if index == 0 {
                let empty: Stream<D> = Stream::new();
                let first = row_plus(&empty, &self.vals[0]);
                out.push(first);
                proof {
                    assert(empty@ =~= Seq::<D>::empty());
                }
            } else {
                let next = row_plus(&out[index - 1], &self.vals[index]);
                out.push(next);
            }
            index += 1;
        }
        Stream { vals: out }
    }
}

} // verus!
