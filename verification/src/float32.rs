//! Single-precision numbers kept as their bit patterns.
//!
//! The library stores, compares and negates such numbers; their sums and
//! products are left to the caller, who has the machine's own number type.

use vstd::arithmetic::power2::{
    lemma_pow2_adds, lemma_pow2_pos, lemma_pow2_strictly_increases, pow2,
};
use vstd::prelude::*;

verus! {

/// The weight of the sign bit.
pub const SIGN_WEIGHT: u32 = 0x8000_0000;

/// The weight of the lowest exponent bit.
pub const EXPONENT_WEIGHT: u32 = 0x0080_0000;

/// A number in the IEEE 754 single-precision format, by its bit pattern.
#[derive(Clone, Copy, Debug, PartialEq, Eq, Structural)]
pub struct Float32 {
    pub bits: u32,
}

impl Float32 {
    pub open spec fn negative(self) -> bool {
        self.bits >= SIGN_WEIGHT
    }

    /// The pattern without its sign.
    pub open spec fn magnitude_bits(self) -> int {
        self.bits as int % SIGN_WEIGHT as int
    }

    pub open spec fn exponent(self) -> int {
        self.magnitude_bits() / EXPONENT_WEIGHT as int
    }

    pub open spec fn fraction(self) -> int {
        self.magnitude_bits() % EXPONENT_WEIGHT as int
    }

    /// Neither infinite nor not a number.
    pub open spec fn finite(self) -> bool {
        self.exponent() != 255
    }

    pub open spec fn nan(self) -> bool {
        self.exponent() == 255 && self.fraction() != 0
    }

    /// How far the number is from zero, in units of the smallest positive
    /// number. Infinity comes out larger than every finite number.
    pub open spec fn distance(self) -> int {
        if self.exponent() == 0 {
            self.fraction()
        } else {
            (EXPONENT_WEIGHT + self.fraction()) * pow2((self.exponent() - 1) as nat)
        }
    }

    /// The number itself, in units of the smallest positive number.
    pub open spec fn units(self) -> int {
        if self.negative() {
            -self.distance()
        } else {
            self.distance()
        }
    }

    /// The order of numbers; nothing is below or above what is not a number.
    pub open spec fn below(self, other: Float32) -> bool {
        !self.nan() && !other.nan() && self.units() < other.units()
    }

    /// Whether both are the same number; zero equals its opposite, and what
    /// is not a number equals nothing.
    pub open spec fn equals(self, other: Float32) -> bool {
        !self.nan() && !other.nan() && self.units() == other.units()
    }

    /// The number with its sign turned.
    pub open spec fn opposite(self) -> Float32 {
        if self.negative() {
            Float32 { bits: (self.bits - SIGN_WEIGHT) as u32 }
        } else {
            Float32 { bits: (self.bits + SIGN_WEIGHT) as u32 }
        }
    }

    pub fn is_finite(&self) -> (r: bool)
        ensures
            r == self.finite(),
    {
        (self.bits % SIGN_WEIGHT) / EXPONENT_WEIGHT != 255
    }

    pub fn is_nan(&self) -> (r: bool)
        ensures
            r == self.nan(),
    {
        let magnitude: u32 = self.bits % SIGN_WEIGHT;
        magnitude / EXPONENT_WEIGHT == 255 && magnitude % EXPONENT_WEIGHT != 0
    }

    /// Whether the number is zero, of either sign.
    pub fn is_zero(&self) -> (r: bool)
        ensures
            r == (self.units() == 0),
    {
        proof {
            lemma_order_of_magnitudes(Float32 { bits: 0 }, *self);
            lemma_distance_of_zero();
        }
        self.bits % SIGN_WEIGHT == 0
    }

    /// Whether the number is above zero.
    pub fn is_positive(&self) -> (r: bool)
        ensures
            r == (!self.nan() && self.units() > 0),
    {
        proof {
            lemma_order_of_magnitudes(Float32 { bits: 0 }, *self);
            lemma_distance_of_zero();
        }
        !self.is_nan() && self.bits > 0 && self.bits < SIGN_WEIGHT
    }

    pub fn negated(&self) -> (r: Float32)
        ensures
            r == self.opposite(),
    {
        if self.bits >= SIGN_WEIGHT {
            Float32 { bits: self.bits - SIGN_WEIGHT }
        } else {
            Float32 { bits: self.bits + SIGN_WEIGHT }
        }
    }

    pub fn is_equal(&self, other: &Float32) -> (r: bool)
        ensures
            r == self.equals(*other),
    {
        !self.is_nan() && !other.is_nan() && !self.is_below(other) && !other.is_below(self)
    }

    pub fn is_below(&self, other: &Float32) -> (r: bool)
        ensures
            r == self.below(*other),
    {
        if self.is_nan() || other.is_nan() {
            return false;
        }
        let mine: u32 = self.bits % SIGN_WEIGHT;
        let theirs: u32 = other.bits % SIGN_WEIGHT;
        proof {
            lemma_order_of_magnitudes(*self, *other);
            lemma_order_of_magnitudes(*other, *self);
            lemma_order_of_magnitudes(Float32 { bits: 0 }, *self);
            lemma_order_of_magnitudes(Float32 { bits: 0 }, *other);
            lemma_distance_of_zero();
        }
        if self.bits < SIGN_WEIGHT {
            other.bits < SIGN_WEIGHT && mine < theirs
        } else if other.bits < SIGN_WEIGHT {
            mine > 0 || theirs > 0
        } else {
            theirs < mine
        }
    }
}

proof fn lemma_distance_of_zero()
    ensures
        (Float32 { bits: 0 }).distance() == 0,
        (Float32 { bits: 0 }).magnitude_bits() == 0,
{
}

/// Patterns without sign are ordered as the distances that they stand for.
pub proof fn lemma_order_of_magnitudes(a: Float32, b: Float32)
    ensures
        a.magnitude_bits() < b.magnitude_bits() <==> a.distance() < b.distance(),
        a.magnitude_bits() == b.magnitude_bits() ==> a.distance() == b.distance(),
        a.distance() >= 0,
{
    lemma_distance_grows(a, b);
    lemma_distance_grows(b, a);
}

proof fn lemma_distance_grows(a: Float32, b: Float32)
    ensures
        a.magnitude_bits() < b.magnitude_bits() ==> a.distance() < b.distance(),
        a.distance() >= 0,
{
    let e = a.exponent();
    let f = b.exponent();
    if e > 0 {
        lemma_pow2_pos((e - 1) as nat);
        assert((EXPONENT_WEIGHT + a.fraction()) * pow2((e - 1) as nat) >= 0) by (nonlinear_arith)
            requires
                a.fraction() >= 0,
                pow2((e - 1) as nat) > 0,
        ;
    }
    if a.magnitude_bits() < b.magnitude_bits() {
        assert(e <= f);
        if f > 0 {
            let q = pow2((f - 1) as nat) as int;
            lemma_pow2_pos((f - 1) as nat);
            if e == f {
                assert((EXPONENT_WEIGHT + a.fraction()) * q < (EXPONENT_WEIGHT + b.fraction()) * q)
                    by (nonlinear_arith)
                    requires
                        a.fraction() < b.fraction(),
                        q > 0,
                ;
            } else if e == 0 {
                assert(EXPONENT_WEIGHT <= (EXPONENT_WEIGHT + b.fraction()) * q) by (nonlinear_arith)
                    requires
                        b.fraction() >= 0,
                        q >= 1,
                ;
            } else {
                let p = pow2((e - 1) as nat) as int;
                lemma_pow2_adds(1, (e - 1) as nat);
                lemma_pow2_grows(e as nat, (f - 1) as nat);
                assert(pow2(1) == 2) by {
                    vstd::arithmetic::power2::lemma2_to64();
                }
                assert(2 * p <= q);
                assert((EXPONENT_WEIGHT + a.fraction()) * p < (EXPONENT_WEIGHT + b.fraction()) * q)
                    by (nonlinear_arith)
                    requires
                        0 <= a.fraction() < EXPONENT_WEIGHT,
                        0 <= b.fraction(),
                        0 < p,
                        2 * p <= q,
                ;
            }
        }
    }
}

proof fn lemma_pow2_grows(a: nat, b: nat)
    requires
        a <= b,
    ensures
        pow2(a) <= pow2(b),
{
    if a < b {
        lemma_pow2_strictly_increases(a, b);
    }
}

/// Turning the sign of both sides turns the order.
pub proof fn lemma_opposites_turn_the_order(a: Float32, b: Float32)
    ensures
        a.opposite().below(b.opposite()) == b.below(a),
        a.opposite().opposite() == a,
{
}

} // verus!
