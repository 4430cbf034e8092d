//! A peer's work-processing capacity and the operations the pool needs on it.

use vstd::prelude::*;

verus! {

/// Capability set of a capacity value: it can be accumulated, depleted and
/// measured as an unsigned count for ratio computations.
pub trait Power: Sized {
    /// The mathematical capacity this value stands for.
    spec fn capacity(&self) -> nat;

    /// Increase `self` by `p`.
    fn add(&mut self, p: Self)
        requires
            old(self).capacity() + p.capacity() <= usize::MAX,
        ensures
            final(self).capacity() == old(self).capacity() + p.capacity(),
    ;

    /// Decrease `self` by `p`.  Depleting more than is present would be a
    /// caller error, so it is excluded up front.
    fn sub(&mut self, p: Self)
        requires
            p.capacity() <= old(self).capacity(),
        ensures
            final(self).capacity() == old(self).capacity() - p.capacity(),
    ;

    /// The capacity as an unsigned count.
    fn measure(&self) -> (m: usize)
        ensures
            m == self.capacity(),
    ;
}

/// An exact, integral hash-power measure.
#[derive(Clone, Copy, PartialEq, Eq, Structural, Debug)]
pub struct HashPower {
    pub value: usize,
}

impl HashPower {
    pub fn new(value: usize) -> (p: HashPower)
        ensures
            p.capacity() == value,
    {
        HashPower { value }
    }
}

impl Power for HashPower {
    open spec fn capacity(&self) -> nat {
        self.value as nat
    }

    fn add(&mut self, p: Self) {
        self.value = self.value + p.value;
    }

    fn sub(&mut self, p: Self) {
        self.value = self.value - p.value;
    }

    fn measure(&self) -> (m: usize) {
        self.value
    }
}

impl Default for HashPower {
    /// A zero capacity.
    fn default() -> (p: Self)
        ensures
            p.capacity() == 0,
    {
        HashPower { value: 0 }
    }
}

} // verus!
