//! Exact non-negative fractions, used for move power and its multipliers.

use vstd::prelude::*;

verus! {

/// A fraction with a positive denominator. It is kept as it was built, never
/// reduced, so a product of fractions is the product of their parts.
#[derive(Clone, Copy, Debug, PartialEq, Eq, Structural)]
pub struct Ratio {
    pub num: u64,
    pub den: u64,
}

/// The product of two fractions, part by part.
pub open spec fn product(a: (nat, nat), b: (nat, nat)) -> (nat, nat) {
    (a.0 * b.0, a.1 * b.1)
}

impl Ratio {
    pub open spec fn view(self) -> (nat, nat) {
        (self.num as nat, self.den as nat)
    }

    /// A proper fraction: the denominator is not zero.
    pub open spec fn wf(self) -> bool {
        self.den > 0
    }

    pub fn new(num: u64, den: u64) -> (r: Ratio)
        requires
            den > 0,
        ensures
            r.wf(),
            r@ == (num as nat, den as nat),
            r.num == num,
            r.den == den,
    {
        Ratio { num, den }
    }

    /// The whole number `n` as a fraction.
    pub fn whole(n: u64) -> (r: Ratio)
        ensures
            r.wf(),
            r@ == (n as nat, 1nat),
            r.num == n,
            r.den == 1,
    {
        Ratio { num: n, den: 1 }
    }

    /// Multiplies by another fraction.
    pub fn times(self, factor: Ratio) -> (r: Ratio)
        requires
            self.wf(),
            factor.wf(),
            self.num * factor.num <= u64::MAX,
            self.den * factor.den <= u64::MAX,
        ensures
            r.wf(),
            r@ == product(self@, factor@),
    {
        proof {
            assert(self.den * factor.den > 0) by (nonlinear_arith)
                requires
                    self.den > 0,
                    factor.den > 0,
            ;
        }
        Ratio { num: self.num * factor.num, den: self.den * factor.den }
    }

    /// Whether the fraction is at most the whole number `limit`.
    pub fn at_most(self, limit: u64) -> (r: bool)
        requires
            self.wf(),
            limit * self.den <= u64::MAX,
        ensures
            r == (self.num <= limit * self.den),
    {
        self.num <= limit * self.den
    }
}

} // verus!
