//! Exact fractions for the parameters that are not whole numbers.

use vstd::prelude::*;

verus! {

/// The fraction `num / den`.
#[derive(Clone, Copy, Debug)]
pub struct Ratio {
    pub num: u32,
    pub den: u32,
}

impl Ratio {
    /// Whether the fraction is greater than zero.
    pub open spec fn is_positive(self) -> bool {
        self.den > 0 && self.num > 0
    }

    /// Whether the fraction lies between zero and one, both included.
    pub open spec fn is_unit(self) -> bool {
        self.den > 0 && self.num <= self.den
    }

    /// The fraction `num / den`.
    pub fn new(num: u32, den: u32) -> (r: Ratio)
        ensures
            r.num == num,
            r.den == den,
    {
        Ratio { num, den }
    }

    /// The whole number `n` as a fraction.
    pub fn whole(n: u32) -> (r: Ratio)
        ensures
            r.num == n,
            r.den == 1,
    {
        Ratio { num: n, den: 1 }
    }
}

} // verus!
