//! Quotients of single-precision numbers, compared without dividing.

use crate::float32::{Float32, EXPONENT_WEIGHT, SIGN_WEIGHT};
use vstd::arithmetic::power2::{
    lemma2_to64, lemma_pow2_adds, lemma_pow2_pos, lemma_pow2_strictly_increases,
    lemma_pow2_unfold, pow2,
};
use vstd::prelude::*;

verus! {

/// One is so many doublings of the smallest positive number.
pub const UNITS_OF_ONE: u32 = 149;

/// The positive number before `n`.
pub open spec fn before(n: Float32) -> Float32 {
    Float32 { bits: (n.bits - 1) as u32 }
}

/// Whether the single-precision quotient `a / b` of a number and a positive
/// one is at least `n`, a positive number with an even pattern. A quotient
/// is rounded to the nearest number, so it is at least `n` from halfway
/// between `n` and the number before it on. Infinity divided by infinity is
/// not a number.
pub open spec fn quotient_reaches(a: Float32, b: Float32, n: Float32) -> bool {
    &&& !a.nan()
    &&& b.finite()
    &&& if a.finite() {
        2 * a.units() * pow2(UNITS_OF_ONE as nat) >= b.units() * (n.units() + before(n).units())
    } else {
        !a.negative()
    }
}

/// The digits of a number and how many times they are doubled.
fn digits(x: &Float32) -> (r: (u32, u32))
    requires
        x.finite(),
    ensures
        x.distance() == r.0 * pow2(r.1 as nat),
        r.0 < 0x100_0000,
        r.1 <= 253,
        r.1 == if x.exponent() == 0 {
            0
        } else {
            x.exponent() - 1
        },
{
    let magnitude: u32 = x.bits % SIGN_WEIGHT;
    let exponent: u32 = magnitude / EXPONENT_WEIGHT;
    let fraction: u32 = magnitude % EXPONENT_WEIGHT;
    if exponent == 0 {
        proof {
            lemma2_to64();
        }
        (fraction, 0)
    } else {
        (EXPONENT_WEIGHT + fraction, exponent - 1)
    }
}

/// A number doubled so many times.
fn doubled(x: u128, times: u32) -> (r: u128)
    requires
        x < 0x4_0000_0000_0000,
        times <= 64,
    ensures
        r == x * pow2(times as nat),
{
    let mut r: u128 = x;
    let mut i: u32 = 0;
    proof {
        lemma2_to64();
    }
    while i < times
        invariant
            i <= times,
            times <= 64,
            x < 0x4_0000_0000_0000,
            r == x * pow2(i as nat),
        decreases times - i,
    {
        proof {
            lemma_pow2_unfold((i + 1) as nat);
            lemma2_to64();
            if i < 64 {
                lemma_pow2_strictly_increases(i as nat, 64);
            }
            let p = pow2(i as nat) as int;
            assert(x * p <= 0x4_0000_0000_0000 * 0x1_0000_0000_0000_0000) by (nonlinear_arith)
                requires
                    0 <= x < 0x4_0000_0000_0000,
                    0 <= p <= 0x1_0000_0000_0000_0000,
            ;
            assert(x * (2 * p) == 2 * (x * p)) by (nonlinear_arith);
        }
        r = 2 * r;
        i = i + 1;
    }
    r
}

/// Compares two numbers that are given by their digits.
fn at_least(x: u128, doublings: u32, y: u128, other_doublings: u32) -> (r: bool)
    requires
        x < 0x4_0000_0000_0000,
        0 < y < 0x4_0000_0000_0000,
        doublings <= 1000,
        other_doublings <= 1000,
    ensures
        r == (x * pow2(doublings as nat) >= y * pow2(other_doublings as nat)),
{
    if doublings >= other_doublings {
        let ghost q = pow2(other_doublings as nat) as int;
        let more: u32 = doublings - other_doublings;
        let ghost p = pow2(more as nat) as int;
        proof {
            lemma_pow2_adds(more as nat, other_doublings as nat);
            lemma_pow2_pos(other_doublings as nat);
            assert(x * (p * q) == (x * p) * q) by (nonlinear_arith);
            let a = x * p;
            let b = y as int;
            assert(a * q >= b * q <==> a >= b) by (nonlinear_arith)
                requires
                    q > 0,
            ;
        }
        if more > 64 {
            proof {
                lemma2_to64();
                lemma_pow2_strictly_increases(64, more as nat);
                assert(x > 0 ==> x * p >= p) by (nonlinear_arith)
                    requires
                        p > 0,
                        x >= 0,
                ;
                assert(x == 0 ==> x * p == 0) by (nonlinear_arith);
            }
            x > 0
        } else {
            doubled(x, more) >= y
        }
    } else {
        let ghost q = pow2(doublings as nat) as int;
        let more: u32 = other_doublings - doublings;
        let ghost p = pow2(more as nat) as int;
        proof {
            lemma_pow2_adds(more as nat, doublings as nat);
            lemma_pow2_pos(doublings as nat);
            assert(y * (p * q) == (y * p) * q) by (nonlinear_arith);
            let a = x as int;
            let b = y * p;
            assert(a * q >= b * q <==> a >= b) by (nonlinear_arith)
                requires
                    q > 0,
            ;
        }
        if more > 64 {
            proof {
                lemma2_to64();
                lemma_pow2_strictly_increases(64, more as nat);
                assert(y * p >= p) by (nonlinear_arith)
                    requires
                        p > 0,
                        y >= 1,
                ;
            }
            false
        } else {
            x >= doubled(y, more)
        }
    }
}

/// Compares a quotient of finite numbers.
fn finite_quotient_reaches(a: &Float32, b: &Float32, n: &Float32) -> (r: bool)
    requires
        a.finite() && !a.negative(),
        b.finite() && !b.negative(),
        b.distance() > 0,
        1 < n.bits < 0x7f80_0000,
    ensures
        r == quotient_reaches(*a, *b, *n),
{
    let (x, p) = digits(a);
    let (y, q) = digits(b);
    let (m, e) = digits(n);
    let last = Float32 { bits: n.bits - 1 };
    let (l, f) = digits(&last);
    assert(f == e || f + 1 == e);
    let sum: u32 = if f == e {
        m + l
    } else {
        2 * m + l
    };
    proof {
        let pf = pow2(f as nat) as int;
        lemma_pow2_pos(f as nat);
        if f == e {
            assert(m * pf + l * pf == (m + l) * pf) by (nonlinear_arith);
        } else {
            lemma_pow2_unfold(e as nat);
            assert(m * (2 * pf) + l * pf == (2 * m + l) * pf) by (nonlinear_arith);
        }
        assert(n.units() + last.units() == sum * pf);
        let pq = pow2(q as nat) as int;
        lemma_pow2_pos(q as nat);
        lemma_pow2_adds(q as nat, f as nat);
        assert((y * pq) * (sum * pf) == (y * sum) * (pq * pf)) by (nonlinear_arith);
        let pp = pow2(p as nat) as int;
        let one = pow2(UNITS_OF_ONE as nat) as int;
        lemma_pow2_adds(p as nat, UNITS_OF_ONE as nat);
        lemma_pow2_unfold((p + UNITS_OF_ONE + 1) as nat);
        assert(2 * (x * pp) * one == x * (2 * (pp * one))) by (nonlinear_arith);
        assert(y > 0) by (nonlinear_arith)
            requires
                y * pq > 0,
                y >= 0,
        ;
        assert(sum > 0) by {
            if l == 0 {
                assert(last.distance() == 0) by (nonlinear_arith)
                    requires
                        last.distance() == l * pf,
                        l == 0,
                ;
                crate::float32::lemma_order_of_magnitudes(Float32 { bits: 0 }, last);
            }
        }
        assert(0 < y * sum < 0x4_0000_0000_0000) by (nonlinear_arith)
            requires
                0 < y < 0x100_0000,
                0 < sum < 0x300_0000,
        ;
    }
    at_least(x as u128, p + UNITS_OF_ONE + 1, y as u128 * sum as u128, q + f)
}

/// Compares a quotient of a number and a positive one.
pub fn has_quotient(a: &Float32, b: &Float32, n: &Float32) -> (r: bool)
    requires
        !b.nan(),
        b.units() > 0,
        1 < n.bits < 0x7f80_0000,
    ensures
        r == quotient_reaches(*a, *b, *n),
{
    if a.is_nan() || !b.is_finite() {
        return false;
    }
    if !a.is_finite() {
        return a.bits < SIGN_WEIGHT;
    }
    proof {
        crate::float32::lemma_order_of_magnitudes(Float32 { bits: 0 }, *a);
        crate::float32::lemma_order_of_magnitudes(Float32 { bits: 0 }, *n);
        crate::float32::lemma_order_of_magnitudes(Float32 { bits: 0 }, before(*n));
    }
    if a.bits >= SIGN_WEIGHT {
        proof {
            let x = a.units();
            let one = pow2(UNITS_OF_ONE as nat) as int;
            let s = n.units() + before(*n).units();
            let y = b.units();
            lemma_pow2_pos(UNITS_OF_ONE as nat);
            assert(2 * x * one <= 0) by (nonlinear_arith)
                requires
                    x <= 0,
                    one > 0,
            ;
            assert(s > 0);
            assert(y * s > 0) by (nonlinear_arith)
                requires
                    y > 0,
                    s > 0,
            ;
        }
        return false;
    }
    finite_quotient_reaches(a, b, n)
}

} // verus!
