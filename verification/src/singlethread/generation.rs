use vstd::prelude::*;

verus! {

/// A stabilization counter: starts at one and only ever grows by one.
#[derive(Debug, Clone, Copy, PartialEq, Eq, Structural, PartialOrd, Ord, Hash)]
pub struct Generation(u64);

impl Generation {
    /// The generation number.
    pub closed spec fn value(self) -> nat {
        self.0 as nat
    }

    #[verifier::type_invariant]
    spec fn nonzero(self) -> bool {
        self.0 >= 1
    }

    /// The first generation.
    pub fn new() -> (g: Generation)
        ensures
            g.value() == 1,
    {
        Generation(1)
    }

    /// Moves on to the next generation.
    pub fn increment(&mut self)
        requires
            old(self).value() < u64::MAX,
        ensures
            final(self).value() == old(self).value() + 1,
    {
        self.0 = self.0 + 1;
    }

    /// The generation number, as an integer.
    pub fn get(&self) -> (n: u64)
        ensures
            n == self.value(),
            n >= 1,
    {
        proof {
            use_type_invariant(self);
        }
        self.0
    }

    /// Compares two generations: true when `self` is no later than `other`.
    pub fn no_later_than(&self, other: &Generation) -> (r: bool)
        ensures
            r <==> self.value() <= other.value(),
    {
        self.0 <= other.0
    }
}

} // verus!
