//! Streams: finite recorded prefixes of the value sequences that flow
//! between operators, one element per circuit step.

use vstd::prelude::*;

verus! {

/// A finite prefix of a stream of values, one per step.
pub struct Stream<D> {
    /// The recorded values, oldest first.
    pub vals: Vec<D>,
}

impl<D> View for Stream<D> {
    type V = Seq<D>;

    open spec fn view(&self) -> Seq<D> {
        self.vals@
    }
}

impl<D> Stream<D> {
    /// An empty stream.
    pub fn new() -> (r: Self)
        ensures
            r@.len() == 0,
    {
        Stream { vals: Vec::new() }
    }

    /// A stream over the given values.
    pub fn from_vals(vals: Vec<D>) -> (r: Self)
        ensures
            r@ == vals@,
    {
        Stream { vals }
    }

    /// Appends one value: the stream's next step.
    pub fn push(&mut self, value: D)
        ensures
            final(self)@ == old(self)@.push(value),
    {
        self.vals.push(value);
    }

    /// The number of recorded steps.
    pub fn len(&self) -> (r: usize)
        ensures
            r == self@.len(),
    {
        self.vals.len()
    }

    /// The value at the given step.
    pub fn get(&self, index: usize) -> (r: &D)
        requires
            index < self@.len(),
        ensures
            *r == self@[index as int],
    {
        &self.vals[index]
    }
}

} // verus!
