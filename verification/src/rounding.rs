//! Rounding whole numbers and their quotients as machine numbers are rounded:
//! to so many leading binary digits, to the nearest, and to the even one of
//! two that are equally near.

use vstd::arithmetic::div_mod::{
    lemma_fundamental_div_mod, lemma_fundamental_div_mod_converse, lemma_mod_bound,
    lemma_mod_multiples_basic,
};
use vstd::arithmetic::power2::{
    lemma2_to64, lemma_pow2_adds, lemma_pow2_pos, lemma_pow2_unfold, pow2,
};
use vstd::prelude::*;

verus! {

/// The first whole number that takes more digits than a single-precision
/// number keeps.
pub const SINGLE_RANGE: u128 = 0x100_0000;

/// The first whole number that takes more digits than a double-precision
/// number keeps.
pub const DOUBLE_RANGE: u128 = 0x20_0000_0000_0000;

/// The largest number that is rounded here.
pub const MOST_ROUNDED: u128 = 0x8000_0000_0000_0000_0000_0000_0000_0000;

/// How far apart the numbers around a whole number are that have no more
/// digits than those below `range`.
pub open spec fn spacing(n: int, range: int) -> int
    decreases n,
{
    if n < range || n < 2 {
        1
    } else {
        2 * spacing(n / 2, range)
    }
}

/// The whole number nearest to the quotient `n / d` of those that have no
/// more digits than those below `range`; of two that are equally near, the
/// even one.
pub open spec fn nearest(n: int, d: int, range: int) -> int {
    let unit = spacing(n / d, range);
    let step = unit * d;
    if 2 * (n % step) > step || (2 * (n % step) == step && n / step % 2 == 1) {
        (n / step + 1) * unit
    } else {
        n / step * unit
    }
}

/// The single-precision number nearest to a quotient, as far as it is a whole
/// number.
pub open spec fn nearest_single(n: int, d: int) -> int {
    nearest(n, d, SINGLE_RANGE as int)
}

/// The double-precision number nearest to a quotient, as far as it is a whole
/// number.
pub open spec fn nearest_double(n: int, d: int) -> int {
    nearest(n, d, DOUBLE_RANGE as int)
}

/// The spacing is a power of two, which divides every larger one.
pub proof fn lemma_spacing_divides(n: int, e: nat, range: int)
    requires
        range >= 4,
        0 <= n < range * pow2(e),
    ensures
        1 <= spacing(n, range) <= pow2(e),
        pow2(e) as int % spacing(n, range) == 0,
    decreases e,
{
    lemma_pow2_pos(e);
    if n >= range {
        if e == 0 {
            lemma2_to64();
        } else {
            lemma_pow2_unfold(e);
            let p = pow2((e - 1) as nat) as int;
            assert(range * (2 * p) == 2 * (range * p)) by (nonlinear_arith);
            lemma_spacing_divides(n / 2, (e - 1) as nat, range);
            let s = spacing(n / 2, range);
            let k = p / s;
            lemma_fundamental_div_mod(p, s);
            assert(2 * p == k * (2 * s)) by (nonlinear_arith)
                requires
                    p == s * k,
            ;
            lemma_mod_multiples_basic(k, 2 * s);
        }
    }
}

/// The spacing is no more than the number.
proof fn lemma_spacing_is_small(n: int, range: int)
    requires
        n >= 0,
        range >= 4,
    ensures
        1 <= spacing(n, range),
        spacing(n, range) == 1 || 2 * spacing(n, range) <= n,
    decreases n,
{
    if n >= range {
        lemma_spacing_is_small(n / 2, range);
    }
}

/// Rounding moves a quotient by no more than half the spacing.
pub proof fn lemma_rounding_is_near(n: int, d: int, range: int)
    requires
        n >= 0,
        d > 0,
        range >= 4,
    ensures
        nearest(n, d, range) >= 0,
        2 * (nearest(n, d, range) * d - n) <= spacing(n / d, range) * d,
        2 * (n - nearest(n, d, range) * d) <= spacing(n / d, range) * d,
{
    assert(n / d >= 0) by (nonlinear_arith)
        requires
            n >= 0,
            d > 0,
    ;
    lemma_spacing_is_small(n / d, range);
    let unit = spacing(n / d, range);
    let step = unit * d;
    assert(step > 0) by (nonlinear_arith)
        requires
            step == unit * d,
            unit >= 1,
            d > 0,
    ;
    lemma_fundamental_div_mod(n, step);
    lemma_mod_bound(n, step);
    let q = n / step;
    assert(q >= 0) by (nonlinear_arith)
        requires
            q == n / step,
            n >= 0,
            step > 0,
    ;
    assert(q * unit * d == step * q) by (nonlinear_arith)
        requires
            step == unit * d,
    ;
    assert((q + 1) * unit * d == step * q + step) by (nonlinear_arith)
        requires
            step == unit * d,
    ;
    assert(q * unit >= 0 && (q + 1) * unit >= 0) by (nonlinear_arith)
        requires
            q >= 0,
            unit >= 1,
    ;
}

/// The spacing is in proportion to the number.
pub proof fn lemma_spacing_in_proportion(n: int, range: int)
    requires
        n >= 0,
        range >= 4,
    ensures
        spacing(n, range) >= 1,
        n < range * spacing(n, range),
        n >= range ==> range * spacing(n, range) <= 2 * n,
    decreases n,
{
    if n >= range {
        lemma_spacing_in_proportion(n / 2, range);
        let s = spacing(n / 2, range);
        assert(range * (2 * s) == 2 * (range * s)) by (nonlinear_arith);
    }
}

/// Rounding a whole number moves it by a small part of itself.
pub proof fn lemma_rounding_in_proportion(n: int, range: int)
    requires
        n >= 0,
        range >= 4,
    ensures
        -n <= range * (nearest(n, 1, range) - n) <= n,
{
    lemma_spacing_in_proportion(n, range);
    lemma_rounding_is_near(n, 1, range);
    let s = spacing(n, range);
    let x = nearest(n, 1, range) - n;
    if n < range {
        assert(x == 0);
        assert(range * 0 == 0) by (nonlinear_arith);
    } else {
        assert(-n <= range * x <= n) by (nonlinear_arith)
            requires
                range * s <= 2 * n,
                -s <= 2 * x <= s,
                range >= 4,
        ;
    }
}

/// Half a step above a number with an even last digit is rounded down to it.
pub proof fn lemma_rounding_down_to_even(n: int, e: nat, range: int)
    requires
        range >= 4,
        range % 4 == 0,
        range * pow2(e) <= n,
        n <= range * pow2(e) + pow2(e),
    ensures
        nearest(n, 1, range) == range * pow2(e),
{
    let p = pow2(e) as int;
    lemma_pow2_pos(e);
    lemma_pow2_unfold((e + 1) as nat);
    assert(range * (2 * p) == 2 * (range * p)) by (nonlinear_arith);
    assert(range * p >= 4 * p) by (nonlinear_arith)
        requires
            range >= 4,
            p > 0,
    ;
    lemma_spacing_divides(n, (e + 1) as nat, range);
    lemma_spacing_in_proportion(n, range);
    let s = spacing(n, range);
    assert(s > p) by (nonlinear_arith)
        requires
            range * p <= n,
            n < range * s,
            range >= 4,
    ;
    lemma_fundamental_div_mod(2 * p, s);
    let k = 2 * p / s;
    assert(k == 1) by (nonlinear_arith)
        requires
            2 * p == s * k,
            p < s <= 2 * p,
            p > 0,
    ;
    assert(s == 2 * p);
    let h = range / 2;
    assert(n == s * h + (n - range * p)) by (nonlinear_arith)
        requires
            s == 2 * p,
            range == 2 * h,
    ;
    lemma_fundamental_div_mod_converse(n, s, h, n - range * p);
    assert(h * s == range * p) by (nonlinear_arith)
        requires
            s == 2 * p,
            range == 2 * h,
    ;
}

/// Rounding keeps a quotient below a bound that needs no rounding itself.
pub proof fn lemma_rounding_keeps_bounds(n: int, d: int, bound: int, e: nat, range: int)
    requires
        0 <= n <= bound * d,
        d > 0,
        range >= 4,
        bound < range * pow2(e),
        bound % pow2(e) as int == 0,
    ensures
        0 <= nearest(n, d, range) <= bound,
{
    lemma_rounding_is_near(n, d, range);
    lemma_pow2_pos(e);
    assert(0 <= n / d <= bound) by (nonlinear_arith)
        requires
            0 <= n <= bound * d,
            d > 0,
    ;
    lemma_spacing_divides(n / d, e, range);
    let unit = spacing(n / d, range);
    let p = pow2(e) as int;
    let step = unit * d;
    assert(step > 0) by (nonlinear_arith)
        requires
            step == unit * d,
            unit >= 1,
            d > 0,
    ;
    lemma_fundamental_div_mod(p, unit);
    lemma_fundamental_div_mod(bound, p);
    let b = p / unit;
    let a = bound / p;
    let c = b * a;
    assert(bound == unit * c) by (nonlinear_arith)
        requires
            bound == p * a,
            p == unit * b,
            c == b * a,
    ;
    assert(n <= step * c) by (nonlinear_arith)
        requires
            n <= bound * d,
            bound == unit * c,
            step == unit * d,
    ;
    lemma_fundamental_div_mod(n, step);
    lemma_mod_bound(n, step);
    let q = n / step;
    let r = n % step;
    assert(q < c || (q == c && r == 0)) by (nonlinear_arith)
        requires
            n == step * q + r,
            n <= step * c,
            r >= 0,
            step > 0,
    ;
    assert(q + 1 <= c ==> (q + 1) * unit <= unit * c) by (nonlinear_arith)
        requires
            unit >= 1,
    ;
    assert(q <= c ==> q * unit <= unit * c) by (nonlinear_arith)
        requires
            unit >= 1,
    ;
}

/// Rounding to double precision stays within what is rounded here.
pub proof fn lemma_double_is_rounded(n: int, d: int)
    requires
        0 <= n <= MOST_ROUNDED,
        d > 0,
    ensures
        0 <= nearest_double(n, d) <= MOST_ROUNDED,
{
    lemma2_to64();
    lemma_pow2_adds(64, 11);
    assert(n <= MOST_ROUNDED * d) by (nonlinear_arith)
        requires
            0 <= n <= MOST_ROUNDED,
            d >= 1,
    ;
    lemma_rounding_keeps_bounds(n, d, MOST_ROUNDED as int, 75, DOUBLE_RANGE as int);
}

fn find_spacing(n: u128, range: u128) -> (r: u128)
    requires
        range >= 4,
    ensures
        r == spacing(n as int, range as int),
        1 <= r,
        r == 1 || 2 * r <= n,
    decreases n,
{
    if n < range {
        1
    } else {
        2 * find_spacing(n / 2, range)
    }
}

/// Rounds a quotient.
pub fn round_quotient(n: u128, d: u128, range: u128) -> (r: u128)
    requires
        range >= 4,
        n <= MOST_ROUNDED,
        0 < d <= MOST_ROUNDED,
    ensures
        r == nearest(n as int, d as int, range as int),
{
    let whole: u128 = n / d;
    let unit: u128 = find_spacing(whole, range);
    proof {
        let u = unit as int;
        let w = whole as int;
        lemma_fundamental_div_mod(n as int, d as int);
        lemma_mod_bound(n as int, d as int);
        assert(0 < u * d <= n || u * d == d) by (nonlinear_arith)
            requires
                u == 1 || 2 * u <= w,
                u >= 1,
                d > 0,
                w >= 0,
                n >= d * w,
        ;
    }
    let step: u128 = unit * d;
    let q: u128 = n / step;
    let rest: u128 = n % step;
    proof {
        lemma_fundamental_div_mod(n as int, step as int);
        lemma_mod_bound(n as int, step as int);
        let u = unit as int;
        assert(0 <= q * u <= n) by (nonlinear_arith)
            requires
                n >= step * q,
                step == u * d,
                q >= 0,
                u >= 1,
                d >= 1,
        ;
        assert((q + 1) * u == q * u + u) by (nonlinear_arith);
        assert(u <= n || u == 1);
    }
    if rest > step - rest || (rest == step - rest && q % 2 == 1) {
        (q + 1) * unit
    } else {
        q * unit
    }
}

} // verus!
