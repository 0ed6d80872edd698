//! How the rounded operations respect the order of numbers.

use vstd::arithmetic::power2::*;
use vstd::prelude::*;

use crate::decimals::ONE;
use crate::double::Double;
use crate::magnitude;
use crate::magnitude::TWO_TO_64;
use crate::rounding;
use crate::rounding::{INFINITE, SCALE};

verus! {

/// Whether a pattern is a number with no sign bit set.
pub open spec fn unsigned(x: Double) -> bool {
    !x.is_nan() && !x.negative()
}

/// Finite numbers without a sign are ordered as their magnitudes.
pub proof fn order_is_that_of_magnitudes(a: Double, b: Double)
    requires
        unsigned(a),
        unsigned(b),
    ensures
        a.le(b) <==> a.units() <= b.units(),
        a.lt(b) <==> a.units() < b.units(),
{
    rounding::lemma_units_order(a.code() as int, b.code() as int);
    rounding::lemma_units_order(b.code() as int, a.code() as int);
}

/// The magnitude of the number 1.
pub proof fn lemma_one()
    ensures
        rounding::units(ONE as int) == pow2(SCALE as nat),
        pow2(SCALE as nat) > 0,
{
    lemma2_to64_rest();
    lemma_pow2_adds(52, 1022);
    lemma_pow2_pos(SCALE as nat);
}

/// A nearest code is no pattern beyond infinity.
pub proof fn lemma_nearest_in_range(num: int, den: int)
    requires
        0 <= num,
        den > 0,
    ensures
        rounding::nearest(num, den) <= INFINITE,
{
    rounding::lemma_nearest_exists(num, den);
}

/// A product of numbers without a sign is one, unless it is of zero and infinity.
pub proof fn lemma_times_unsigned(a: Double, b: Double)
    requires
        unsigned(a),
        unsigned(b),
        a.is_finite() || b.code() != 0,
        b.is_finite() || a.code() != 0,
    ensures
        unsigned(a.times(b)),
{
    magnitude::lemma_units_sign(a.code() as int);
    magnitude::lemma_units_sign(b.code() as int);
    lemma_one();
    let x = a.units();
    let y = b.units();
    assert(x * y >= 0) by (nonlinear_arith)
        requires
            x >= 0,
            y >= 0,
    ;
    lemma_nearest_in_range(x * y, pow2(SCALE as nat) as int);
}

/// A larger factor gives no smaller product.
pub proof fn lemma_times_monotone(a: Double, b: Double, c: Double)
    requires
        unsigned(a),
        unsigned(b),
        unsigned(c),
        a.le(b),
        c.is_finite(),
        c.code() > 0,
    ensures
        unsigned(a.times(c)),
        unsigned(b.times(c)),
        a.times(c).le(b.times(c)),
{
    lemma_times_unsigned(a, c);
    lemma_times_unsigned(b, c);
    if b.is_finite() {
        order_is_that_of_magnitudes(a, b);
        magnitude::lemma_units_sign(a.code() as int);
        magnitude::lemma_units_sign(c.code() as int);
        lemma_one();
        let x = a.units();
        let y = b.units();
        let z = c.units();
        let p = pow2(SCALE as nat) as int;
        assert(0 <= x * z <= y * z && x * z * p <= y * z * p) by (nonlinear_arith)
            requires
                0 <= x <= y,
                z >= 0,
                p > 0,
        ;
        rounding::lemma_nearest_monotone(x * z, p, y * z, p);
    }
}

/// Of two factors the larger one gives no smaller product with the same number.
pub proof fn lemma_times_monotone_right(c: Double, a: Double, b: Double)
    requires
        unsigned(a),
        unsigned(b),
        unsigned(c),
        a.le(b),
        a.code() > 0,
        b.is_finite(),
    ensures
        unsigned(c.times(a)),
        unsigned(c.times(b)),
        c.times(a).le(c.times(b)),
{
    lemma_times_unsigned(c, a);
    lemma_times_unsigned(c, b);
    if c.is_finite() {
        order_is_that_of_magnitudes(a, b);
        magnitude::lemma_units_sign(a.code() as int);
        magnitude::lemma_units_sign(c.code() as int);
        lemma_one();
        let x = a.units();
        let y = b.units();
        let z = c.units();
        let p = pow2(SCALE as nat) as int;
        assert(0 <= z * x <= z * y && z * x * p <= z * y * p) by (nonlinear_arith)
            requires
                0 <= x <= y,
                z >= 0,
                p > 0,
        ;
        rounding::lemma_nearest_monotone(z * x, p, z * y, p);
    }
}

/// One is the neutral factor of a number without a sign.
pub proof fn lemma_times_one(a: Double)
    requires
        unsigned(a),
    ensures
        a.times(Double::from_bits(ONE)) == a,
{
    if a.is_finite() {
        lemma_one();
        magnitude::lemma_units_sign(a.code() as int);
        let u = a.units();
        let p = pow2(SCALE as nat) as int;
        assert(u * p >= 0) by (nonlinear_arith)
            requires
                u >= 0,
                p > 0,
        ;
        rounding::lemma_exact(a.code() as int, u * p, p);
        rounding::lemma_nearest_is(a.code() as int, u * p, p);
    }
}

/// A sum of numbers without a sign is one.
pub proof fn lemma_plus_unsigned(a: Double, b: Double)
    requires
        unsigned(a),
        unsigned(b),
    ensures
        unsigned(a.plus(b)),
{
    magnitude::lemma_units_sign(a.code() as int);
    magnitude::lemma_units_sign(b.code() as int);
    lemma_nearest_in_range(a.units() + b.units(), 1);
}

/// Larger terms give no smaller sum.
pub proof fn lemma_plus_monotone(a: Double, b: Double, c: Double, d: Double)
    requires
        unsigned(a),
        unsigned(b),
        unsigned(c),
        unsigned(d),
        a.le(c),
        b.le(d),
    ensures
        unsigned(a.plus(b)),
        unsigned(c.plus(d)),
        a.plus(b).le(c.plus(d)),
{
    lemma_plus_unsigned(a, b);
    lemma_plus_unsigned(c, d);
    if c.is_finite() && d.is_finite() {
        magnitude::lemma_units_sign(a.code() as int);
        magnitude::lemma_units_sign(b.code() as int);
        order_is_that_of_magnitudes(a, c);
        order_is_that_of_magnitudes(b, d);
        rounding::lemma_nearest_monotone(
            a.units() + b.units(),
            1,
            c.units() + d.units(),
            1,
        );
    }
}

/// A larger number over a smaller one gives no smaller quotient.
pub proof fn lemma_over_monotone(a: Double, b: Double, c: Double, d: Double)
    requires
        unsigned(a),
        unsigned(b),
        unsigned(c),
        unsigned(d),
        a.is_finite(),
        c.is_finite(),
        b.is_finite(),
        d.is_finite(),
        b.code() > 0,
        d.code() > 0,
        a.le(c),
        d.le(b),
    ensures
        unsigned(a.over(b)),
        unsigned(c.over(d)),
        a.over(b).le(c.over(d)),
{
    lemma_one();
    magnitude::lemma_units_sign(a.code() as int);
    magnitude::lemma_units_sign(b.code() as int);
    magnitude::lemma_units_sign(c.code() as int);
    magnitude::lemma_units_sign(d.code() as int);
    order_is_that_of_magnitudes(a, c);
    order_is_that_of_magnitudes(d, b);
    let p = pow2(SCALE as nat) as int;
    let w = a.units();
    let x = b.units();
    let y = c.units();
    let z = d.units();
    assert(0 <= w * p && 0 <= y * p && w * p * z <= y * p * x) by (nonlinear_arith)
        requires
            0 <= w <= y,
            0 < z <= x,
            p > 0,
    ;
    lemma_nearest_in_range(w * p, x);
    lemma_nearest_in_range(y * p, z);
    rounding::lemma_nearest_monotone(w * p, x, y * p, z);
}

/// A number over itself is one.
pub proof fn lemma_over_itself(a: Double)
    requires
        unsigned(a),
        a.is_finite(),
        a.code() > 0,
    ensures
        a.over(a) == Double::from_bits(ONE),
{
    lemma_one();
    magnitude::lemma_units_sign(a.code() as int);
    let u = a.units();
    let p = pow2(SCALE as nat) as int;
    assert(p * u == u * p && u * p >= 0) by (nonlinear_arith)
        requires
            u >= 0,
            p > 0,
    ;
    rounding::lemma_exact(ONE as int, u * p, u);
    rounding::lemma_nearest_is(ONE as int, u * p, u);
}

/// A larger whole number is nearest to no smaller number.
pub proof fn lemma_of_integer_monotone(a: u64, b: u64)
    requires
        a <= b,
    ensures
        unsigned(Double::of_integer(a)),
        unsigned(Double::of_integer(b)),
        Double::of_integer(a).le(Double::of_integer(b)),
        Double::of_integer(b).le(Double::from_bits(TWO_TO_64)),
{
    lemma_one();
    let p = pow2(SCALE as nat) as int;
    let top = 0x1_0000_0000_0000_0000int;
    assert(0 <= a * p <= b * p <= top * p) by (nonlinear_arith)
        requires
            a <= b < top,
            0 <= a,
            p > 0,
    ;
    lemma_nearest_in_range(a * p, 1);
    lemma_nearest_in_range(b * p, 1);
    rounding::lemma_nearest_monotone(a * p, 1, b * p, 1);
    magnitude::lemma_two_to_64();
    rounding::lemma_exact(TWO_TO_64 as int, top * p, 1);
    rounding::lemma_nearest_is(TWO_TO_64 as int, top * p, 1);
    rounding::lemma_nearest_monotone(b * p, 1, top * p, 1);
}

/// A whole number of up to 53 binary digits is a number.
pub proof fn lemma_of_integer_exact(n: u64)
    requires
        n < 0x0020_0000_0000_0000,
    ensures
        Double::of_integer(n).units() == n * pow2(SCALE as nat),
        Double::of_integer(n).is_finite(),
        unsigned(Double::of_integer(n)),
{
    let code = magnitude::lemma_representable(n as int, SCALE as int);
}

/// A number is cut to one from 0 to the limit.
pub proof fn lemma_cut_in_range(x: Double, limit: int)
    requires
        0 <= limit,
    ensures
        0 <= x.cut(limit) <= limit,
{
    let p = pow2(SCALE as nat) as int;
    let u = x.units();
    lemma_one();
    magnitude::lemma_units_sign(x.code() as int);
    assert(u / p >= 0) by (nonlinear_arith)
        requires
            u >= 0,
            p > 0,
    ;
}

/// A larger number is not cut to a smaller one.
pub proof fn lemma_cut_monotone(a: Double, b: Double, limit: int)
    requires
        unsigned(a),
        unsigned(b),
        a.le(b),
        0 <= limit,
    ensures
        a.cut(limit) <= b.cut(limit),
{
    order_is_that_of_magnitudes(a, b);
    lemma_one();
    magnitude::lemma_units_sign(a.code() as int);
    let p = pow2(SCALE as nat) as int;
    let x = a.units();
    let y = b.units();
    assert(x / p <= y / p) by (nonlinear_arith)
        requires
            0 <= x <= y,
            p > 0,
    ;
}

} // verus!
