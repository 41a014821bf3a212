use vstd::prelude::*;

verus! {

/// An exact non-negative rational `num / den`, not necessarily in lowest terms.
#[derive(Clone, Copy, Debug, PartialEq, Eq, Structural)]
pub struct Fraction {
    pub num: u128,
    pub den: u128,
}

impl Fraction {
    /// The fraction as a pair of mathematical integers.
    pub open spec fn pair(self) -> (int, int) {
        (self.num as int, self.den as int)
    }

    /// A value in the closed unit interval, with a positive denominator.
    pub open spec fn in_unit(self) -> bool {
        0 < self.den && self.num <= self.den
    }
}

} // verus!
