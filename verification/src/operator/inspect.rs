//! A sink operator that inspects every element of its input stream by
//! applying a user-provided callback to it.

use vstd::prelude::*;

use crate::circuit::Stream;

verus! {

/// Sink operator that consumes values of type `T` and applies a
/// user-provided callback to each input.
pub struct Inspect<T, F> {
    /// The callback applied to every input.
    pub callback: F,
    /// Marks the input type the callback consumes.
    pub phantom: core::marker::PhantomData<T>,
}

impl<T, F: Fn(&T)> Inspect<T, F> {
    /// Creates a new instance of the operator that will apply `callback`
    /// to each value in the input stream.
    pub fn new(callback: F) -> (r: Self)
        ensures
            r.callback == callback,
    {
        Inspect { callback, phantom: core::marker::PhantomData }
    }

    /// Feeds one input value to the callback.
    pub fn eval(&mut self, input: &T)
        requires
            old(self).callback.requires((input,)),
        ensures
            final(self).callback == old(self).callback,
    {
        (self.callback)(input)
    }
}

impl<D> Stream<D> {
    /// Applies the [`Inspect`] operator to the stream: the callback sees
    /// every element, in order.
    pub fn inspect<F: Fn(&D)>(&self, callback: F)
        requires
            forall|i: int| 0 <= i < self@.len() ==> callback.requires((&self@[i],)),
    {
        let mut op = Inspect::new(callback);
        let mut index: usize = 0;
        while index < self.vals.len()
            invariant
                index <= self@.len(),
                op.callback == callback,
                forall|i: int| 0 <= i < self@.len() ==> callback.requires((&self@[i],)),
            decreases self@.len() - index,
        {
            op.eval(&self.vals[index]);
            index += 1;
        }
    }
}

} // verus!
