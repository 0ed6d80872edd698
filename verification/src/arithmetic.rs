//! What the operations on numbers and spans give, in terms of the values that the
//! bit patterns stand for.

use vstd::arithmetic::power2::*;
use vstd::prelude::*;

use crate::decimals;
use crate::decimals::{BILLION, HALF, ONE, THREE, THREE_HALVES, TWO};
use crate::double::Double;
use crate::magnitude;
use crate::order;
use crate::rounding;
use crate::rounding::{INFINITE, SCALE};
use crate::time::TimeSpan;
use crate::timing;

verus! {

/// The value of a finite number, in parts of two to the power of -1074.
pub open spec fn value(x: Double) -> int {
    if x.bits >= 0x8000_0000_0000_0000 {
        -rounding::units(x.bits - 0x8000_0000_0000_0000)
    } else {
        rounding::units(x.bits as int)
    }
}

/// A pattern is a sign bit before a code, and the codes above that of infinity are
/// not numbers.
pub proof fn patterns_are_signs_and_codes(x: Double)
    ensures
        Double::from_bits(x.bits) == x,
        x.code() < 0x8000_0000_0000_0000,
        x.bits == x.code() + if x.negative() {
            0x8000_0000_0000_0000int
        } else {
            0
        },
        x.is_nan() <==> x.code() > 0x7ff0_0000_0000_0000,
        x.is_finite() <==> x.code() < 0x7ff0_0000_0000_0000,
        x.units() == rounding::units(x.code() as int),
        value(x) == if x.negative() {
            -x.units()
        } else {
            x.units()
        },
        x.units() >= 0,
        x.units() == 0 <==> x.code() == 0,
{
    magnitude::lemma_units_sign(x.code() as int);
}

/// Finite numbers compare as their values, infinities lie beyond them on the side of
/// their sign, and what is not a number compares with nothing.
pub proof fn comparisons_are_of_values(a: Double, b: Double)
    ensures
        a.is_nan() || b.is_nan() ==> !a.lt(b) && !a.le(b),
        a.is_finite() && b.is_finite() ==> (a.lt(b) <==> value(a) < value(b)) && (a.le(b)
            <==> value(a) <= value(b)),
        a.is_finite() && b.code() == INFINITE ==> (a.lt(b) <==> !b.negative()) && (b.lt(a)
            <==> b.negative()),
        a.code() == INFINITE && b.code() == INFINITE ==> (a.lt(b) <==> a.negative()
            && !b.negative()),
        !a.is_nan() && !b.is_nan() ==> (a.le(b) <==> !b.lt(a)),
{
    magnitude::lemma_units_sign(a.code() as int);
    magnitude::lemma_units_sign(b.code() as int);
    rounding::lemma_units_order(a.code() as int, b.code() as int);
    rounding::lemma_units_order(b.code() as int, a.code() as int);
}

/// The product of finite numbers has the sign that the two signs make, and no
/// magnitude is nearer to the exact product. It does not matter which comes first.
pub proof fn products_are_nearest(a: Double, b: Double)
    ensures
        a.times(b) == b.times(a),
        a.is_nan() || b.is_nan() ==> a.times(b).bits == 0x7ff8_0000_0000_0000,
        a.is_finite() && b.is_finite() ==> {
            let r = a.times(b);
            &&& r.negative() == (a.negative() != b.negative())
            &&& rounding::is_nearest(
                r.code() as int,
                a.units() * b.units(),
                pow2(SCALE as nat) as int,
            )
        },
        a.code() == INFINITE && !b.is_nan() && b.code() != 0 ==> a.times(b).code() == INFINITE
            && a.times(b).negative() == (a.negative() != b.negative()),
        a.code() == INFINITE && b.code() == 0 ==> a.times(b).bits == 0x7ff8_0000_0000_0000,
{
    let x = a.units();
    let y = b.units();
    magnitude::lemma_units_sign(a.code() as int);
    magnitude::lemma_units_sign(b.code() as int);
    order::lemma_one();
    assert(x * y == y * x && x * y >= 0) by (nonlinear_arith)
        requires
            x >= 0,
            y >= 0,
    ;
    rounding::lemma_nearest_exists(x * y, pow2(SCALE as nat) as int);
}

/// The quotient of finite numbers, the second not zero, has the sign that the two
/// signs make, and no magnitude is nearer to the exact quotient.
pub proof fn quotients_are_nearest(a: Double, b: Double)
    ensures
        a.is_nan() || b.is_nan() ==> a.over(b).bits == 0x7ff8_0000_0000_0000,
        a.is_finite() && b.is_finite() && b.code() != 0 ==> {
            let r = a.over(b);
            &&& r.negative() == (a.negative() != b.negative())
            &&& rounding::is_nearest(
                r.code() as int,
                a.units() * pow2(SCALE as nat),
                b.units(),
            )
        },
        a.code() == INFINITE && b.is_finite() ==> a.over(b).code() == INFINITE && a.over(
            b,
        ).negative() == (a.negative() != b.negative()),
        a.code() == INFINITE && b.code() == INFINITE ==> a.over(b).bits == 0x7ff8_0000_0000_0000,
        a.is_finite() && b.code() == INFINITE ==> a.over(b).code() == 0 && a.over(b).negative() == (
        a.negative() != b.negative()),
        a.is_finite() && a.code() != 0 && b.code() == 0 ==> a.over(b).code() == INFINITE && a.over(
            b,
        ).negative() == (a.negative() != b.negative()),
        a.code() == 0 && b.code() == 0 ==> a.over(b).bits == 0x7ff8_0000_0000_0000,
{
    let x = a.units();
    let y = b.units();
    let p = pow2(SCALE as nat) as int;
    magnitude::lemma_units_sign(a.code() as int);
    magnitude::lemma_units_sign(b.code() as int);
    order::lemma_one();
    if b.is_finite() && b.code() != 0 {
        assert(x * p >= 0) by (nonlinear_arith)
            requires
                x >= 0,
                p > 0,
        ;
        rounding::lemma_nearest_exists(x * p, y);
    }
}

/// The sum of finite numbers has the sign of the exact sum, and no magnitude is
/// nearer to it. It does not matter which comes first. A sum of nothing is negative
/// only where both numbers are.
pub proof fn sums_are_nearest(a: Double, b: Double)
    ensures
        a.plus(b) == b.plus(a),
        a.is_nan() || b.is_nan() ==> a.plus(b).bits == 0x7ff8_0000_0000_0000,
        a.is_finite() && b.is_finite() ==> {
            let r = a.plus(b);
            let sum = value(a) + value(b);
            &&& sum > 0 ==> !r.negative() && rounding::is_nearest(r.code() as int, sum, 1)
            &&& sum < 0 ==> r.negative() && rounding::is_nearest(r.code() as int, -sum, 1)
            &&& sum == 0 ==> r.code() == 0 && r.negative() == (a.negative() && b.negative())
        },
        a.code() == INFINITE && b.is_finite() ==> a.plus(b) == a,
        a.code() == INFINITE && b.code() == INFINITE && a.negative() == b.negative() ==> a.plus(b)
            == a,
        a.code() == INFINITE && b.code() == INFINITE && a.negative() != b.negative() ==> a.plus(
            b,
        ).bits == 0x7ff8_0000_0000_0000,
{
    let x = a.units();
    let y = b.units();
    magnitude::lemma_units_sign(a.code() as int);
    magnitude::lemma_units_sign(b.code() as int);
    magnitude::lemma_zero(1);
    rounding::lemma_units_order(a.code() as int, b.code() as int);
    rounding::lemma_units_order(b.code() as int, a.code() as int);
    rounding::lemma_nearest_exists(x + y, 1);
    if x >= y {
        rounding::lemma_nearest_exists(x - y, 1);
    } else {
        rounding::lemma_nearest_exists(y - x, 1);
    }
}

/// A difference is the sum with the opposite number, which has the opposite value.
pub proof fn differences_are_sums(a: Double, b: Double)
    ensures
        a.minus(b) == a.plus(b.negated()),
        b.negated().code() == b.code(),
        b.negated().negative() == !b.negative(),
        value(b.negated()) == -value(b),
{
}

/// A whole number is rounded to the nearest number, which has no sign.
pub proof fn whole_numbers_are_nearest(n: u64)
    ensures
        !Double::of_integer(n).negative(),
        rounding::is_nearest(
            Double::of_integer(n).code() as int,
            n * pow2(SCALE as nat),
            1,
        ),
{
    let p = pow2(SCALE as nat) as int;
    order::lemma_one();
    assert(n * p >= 0) by (nonlinear_arith)
        requires
            n >= 0,
            p > 0,
    ;
    rounding::lemma_nearest_exists(n * p, 1);
}

/// A number is cut to the last whole number that is not above it, within bounds.
pub proof fn cuts_are_whole_parts(x: Double, limit: int)
    requires
        0 <= limit,
    ensures
        x.is_nan() || x.negative() ==> x.cut(limit) == 0,
        !x.is_nan() && !x.negative() ==> {
            let n = x.cut(limit);
            &&& 0 <= n <= limit
            &&& n * pow2(SCALE as nat) <= x.units()
            &&& n < limit ==> x.units() < (n + 1) * pow2(SCALE as nat)
        },
{
    let p = pow2(SCALE as nat) as int;
    let u = x.units();
    let whole = u / p;
    order::lemma_one();
    order::lemma_cut_in_range(x, limit);
    magnitude::lemma_units_sign(x.code() as int);
    assert(whole * p <= u < (whole + 1) * p) by (nonlinear_arith)
        requires
            whole == u / p,
            p > 0,
    ;
    assert(limit < whole ==> limit * p <= whole * p) by (nonlinear_arith)
        requires
            p > 0,
    ;
}

/// The larger of two numbers is one of them and no less than either. Where neither is
/// larger it is the first.
pub proof fn the_larger_is_no_less(a: Double, b: Double)
    ensures
        a.lt(b) ==> a.larger(b) == b,
        a.le(b) && b.le(a) ==> a.larger(b) == a,
        a.larger(b) == a || a.larger(b) == b,
        !a.is_nan() && !b.is_nan() ==> a.le(a.larger(b)) && b.le(a.larger(b)),
        a.is_nan() ==> a.larger(b) == b,
        b.is_nan() && !a.is_nan() ==> a.larger(b) == a,
{
}

/// A number within bounds is kept, and one beyond them gives the bound that it lies
/// beyond.
pub proof fn clamping_keeps_or_bounds(x: Double, lo: Double, hi: Double)
    requires
        lo.le(hi),
    ensures
        x.lt(lo) ==> x.clamp(lo, hi) == lo,
        hi.lt(x) ==> x.clamp(lo, hi) == hi,
        !x.lt(lo) && !hi.lt(x) ==> x.clamp(lo, hi) == x,
{
}

/// The span between two times has the nanoseconds that lie between them, or none.
pub proof fn spans_are_differences(later: TimeSpan, earlier: TimeSpan)
    requires
        later.nanos < 1_000_000_000,
        earlier.nanos < 1_000_000_000,
    ensures
        ({
            let r = later.since(earlier);
            let a = later.secs * 1_000_000_000 + later.nanos;
            let b = earlier.secs * 1_000_000_000 + earlier.nanos;
            &&& r.nanos < 1_000_000_000
            &&& r.secs * 1_000_000_000 + r.nanos == if a > b {
                a - b
            } else {
                0
            }
        }),
{
}

/// The span of a number of seconds has the whole number of nanoseconds that is
/// nearest to it, and of two the even one.
pub proof fn spans_are_nearest(secs: Double)
    requires
        !secs.negative(),
        secs.code() < 0x43f0_0000_0000_0000,
    ensures
        ({
            let r = TimeSpan::from_secs(secs);
            let n = r.secs * 1_000_000_000 + r.nanos;
            let off = 2 * (n * pow2(SCALE as nat) - secs.units() * 1_000_000_000);
            &&& r.nanos < 1_000_000_000
            &&& -(pow2(SCALE as nat) as int) <= off <= pow2(SCALE as nat)
            &&& off == pow2(SCALE as nat) || off == -(pow2(SCALE as nat) as int) ==> n % 2 == 0
        }),
{
    let p = pow2(SCALE as nat) as int;
    let u = secs.units();
    order::lemma_one();
    magnitude::lemma_units_sign(secs.code() as int);
    magnitude::lemma_below_two_to_64(secs.code() as int);
    let x = u * 1_000_000_000;
    let below = x / p;
    let rest = x % p;
    assert(x == below * p + rest && 0 <= rest < p) by (nonlinear_arith)
        requires
            below == x / p,
            rest == x % p,
            p > 0,
    ;
    assert(0 <= below <= (0x1_0000_0000_0000_0000 - 0x800) * 1_000_000_000) by (nonlinear_arith)
        requires
            x == below * p + rest,
            0 <= rest < p,
            0 <= x,
            x <= (0x1_0000_0000_0000_0000 - 0x800) * p * 1_000_000_000,
    ;
    let n = magnitude::round_half_even(x, p);
    let r = TimeSpan::from_secs(secs);
    assert(r.secs * 1_000_000_000 + r.nanos == n);
    assert((below + 1) * p == below * p + p) by (nonlinear_arith);
}

/// A span in seconds is the rounded sum of its whole seconds and of the rounded
/// fraction of a second that its nanoseconds make.
pub proof fn seconds_are_sums(t: TimeSpan)
    ensures
        t.as_secs() == Double::of_integer(t.secs).plus(
            Double::of_integer(t.nanos as u64).over(Double::from_bits(BILLION)),
        ),
{
}

/// A span of up to two to the power of 53 seconds is, in rounded seconds, off its
/// nanoseconds by little more than two parts in two to the power of 53.
pub proof fn seconds_are_close(t: TimeSpan)
    requires
        t.nanos < 1_000_000_000,
        t.secs < 0x20_0000_0000_0000,
    ensures
        ({
            let n = t.secs * 1_000_000_000 + t.nanos;
            let exact = n * pow2(SCALE as nat);
            let off = t.as_secs().units() * 1_000_000_000 - exact;
            let slack = 0x200_0000_0001 * exact;
            &&& !t.as_secs().negative()
            &&& t.as_secs().is_finite()
            &&& -slack <= 0x2000_0000_0000_0000_0000_0000 * off <= slack
        }),
{
    let p = pow2(SCALE as nat) as int;
    let billion = Double::from_bits(BILLION);
    let s = Double::of_integer(t.secs);
    let k = Double::of_integer(t.nanos as u64);
    let f = k.over(billion);
    let r = t.as_secs();
    order::lemma_one();
    order::lemma_of_integer_exact(t.secs);
    order::lemma_of_integer_exact(t.nanos as u64);
    timing::lemma_billion();
    timing::lemma_secs_finite(t);
    magnitude::lemma_units_sign(BILLION as int);
    magnitude::lemma_units_sign(s.code() as int);
    let nanos = t.nanos as int;
    let secs = t.secs as int;
    // The fraction of a second.
    let num = nanos * p * p;
    let den = 1_000_000_000 * p;
    lemma_top();
    let top = rounding::units(INFINITE as int);
    assert(0 <= num && den > 0 && num < top * den) by (nonlinear_arith)
        requires
            num == nanos * p * p,
            den == 1_000_000_000 * p,
            0 <= nanos < 1_000_000_000,
            p > 0,
            top >= p * 0x1_0000_0000_0000_0000,
    ;
    rounding::lemma_nearest_close(num, den);
    order::lemma_nearest_in_range(num, den);
    let fu = f.units();
    assert(fu == rounding::units(rounding::nearest(num, den) as int));
    magnitude::lemma_units_sign(f.code() as int);
    let fo = fu * 1_000_000_000 - nanos * p;
    let fs = nanos * p + 0x10_0000_0000_0000 * 1_000_000_000;
    assert(-fs <= 0x20_0000_0000_0000 * fo <= fs) by (nonlinear_arith)
        requires
            num == nanos * p * p,
            den == 1_000_000_000 * p,
            0x20_0000_0000_0000 * (fu * den - num) <= num + 0x10_0000_0000_0000 * den,
            0x20_0000_0000_0000 * (num - fu * den) <= num + 0x10_0000_0000_0000 * den,
            fo == fu * 1_000_000_000 - nanos * p,
            fs == nanos * p + 0x10_0000_0000_0000 * 1_000_000_000,
            p > 0,
    {
        assert(fu * den - num == fo * p);
        assert(num + 0x10_0000_0000_0000 * den == fs * p);
    }
    // The sum.
    timing::lemma_fraction_finite(t.nanos);
    order::lemma_plus_unsigned(s, f);
    let sum = s.units() + fu;
    assert(s.units() == secs * p);
    assert(secs * p < 0x20_0000_0000_0000 * p) by (nonlinear_arith)
        requires
            secs < 0x20_0000_0000_0000,
            p > 0,
    ;
    assert(nanos * p < 1_000_000_000 * p) by (nonlinear_arith)
        requires
            nanos < 1_000_000_000,
            p > 0,
    ;
    lemma_scale_is_large();
    assert(sum < top);
    rounding::lemma_nearest_close(sum, 1);
    let ru = r.units();
    assert(ru == rounding::units(rounding::nearest(sum, 1) as int));
    let n = secs * 1_000_000_000 + nanos;
    let exact = n * p;
    assert(exact == 1_000_000_000 * (secs * p) + nanos * p) by (nonlinear_arith)
        requires
            exact == n * p,
            n == secs * 1_000_000_000 + nanos,
    ;
    if n == 0 {
        magnitude::lemma_zero(1);
        magnitude::lemma_zero(den);
        magnitude::lemma_units_sign(0);
        assert(num == 0) by (nonlinear_arith)
            requires
                num == nanos * p * p,
                nanos == 0,
        ;
    } else {
        assert(exact >= p) by (nonlinear_arith)
            requires
                exact == n * p,
                n >= 1,
                p > 0,
        ;
        assert(secs * p >= 0 && nanos * p >= 0) by (nonlinear_arith)
            requires
                secs >= 0,
                nanos >= 0,
                p > 0,
        ;
    }
}

/// A quotient and a decimal lie as the exact quotient and the decimal fraction lie,
/// and never the other way round; beyond a margin of one part in two to the power
/// of 51 they are apart.
pub proof fn lemma_beside(a: Double, b: Double, bits: u64, num: int, den: int)
    requires
        order::unsigned(a),
        order::unsigned(b),
        a.is_finite(),
        b.is_finite(),
        b.code() > 0,
        bits < INFINITE,
        decimals::stands_for(bits, num, den),
        0 < num <= 0x10_0000,
        0 < den <= 0x10_0000,
    ensures
        ({
            let q = a.over(b);
            let mark = Double::from_bits(bits);
            let x = a.units() * den;
            let y = num * b.units();
            &&& order::unsigned(q)
            &&& x <= y ==> q.le(mark)
            &&& y <= x ==> mark.le(q)
            &&& 0x8_0000_0000_0000 * x >= 0x8_0000_0000_0001 * y ==> mark.lt(q)
            &&& 0x8_0000_0000_0000 * y >= 0x8_0000_0000_0001 * x ==> q.lt(mark)
        }),
{
    let q = a.over(b);
    let mark = Double::from_bits(bits);
    let p = pow2(SCALE as nat) as int;
    let u = a.units();
    let v = b.units();
    order::lemma_one();
    lemma_scale_is_large();
    lemma_top();
    magnitude::lemma_units_sign(a.code() as int);
    magnitude::lemma_units_sign(b.code() as int);
    assert(u * p >= 0 && num * p >= 0) by (nonlinear_arith)
        requires
            u >= 0,
            num > 0,
            p > 0,
    ;
    order::lemma_nearest_in_range(u * p, v);
    order::lemma_nearest_in_range(num * p, den);
    if u * den <= num * v {
        assert(u * p * den <= num * p * v) by (nonlinear_arith)
            requires
                u * den <= num * v,
                p > 0,
        ;
        rounding::lemma_nearest_monotone(u * p, v, num * p, den);
    }
    if num * v <= u * den {
        assert(num * p * v <= u * p * den) by (nonlinear_arith)
            requires
                num * v <= u * den,
                p > 0,
        ;
        rounding::lemma_nearest_monotone(num * p, den, u * p, v);
    }
    let m = mark.units();
    let r = q.units();
    assert(m >= 0 && r >= 0) by {
        magnitude::lemma_units_sign(mark.code() as int);
        magnitude::lemma_units_sign(q.code() as int);
    }
    order::order_is_that_of_magnitudes(q, mark);
    order::order_is_that_of_magnitudes(mark, q);
    let top = rounding::units(INFINITE as int);
    assert(num * p < top * den) by (nonlinear_arith)
        requires
            num <= 0x10_0000,
            den >= 1,
            p > 0,
            top >= p * 0x1_0000_0000_0000_0000,
    ;
    rounding::lemma_nearest_close(num * p, den);
    if 0x8_0000_0000_0000 * (u * den) >= 0x8_0000_0000_0001 * (num * v) && r <= m {
        if u * p < top * v {
            rounding::lemma_nearest_close(u * p, v);
            lemma_apart(u, v, r, num, den, m, p);
        } else {
            rounding::lemma_overflow(u * p, v);
            rounding::lemma_nearest_is(INFINITE as int, u * p, v);
            rounding::lemma_units_order(INFINITE as int, bits as int);
        }
    }
    if 0x8_0000_0000_0000 * (num * v) >= 0x8_0000_0000_0001 * (u * den) && m <= r {
        assert(u * p < top * v) by (nonlinear_arith)
            requires
                0x8_0000_0000_0000 * (num * v) >= 0x8_0000_0000_0001 * (u * den),
                num <= 0x10_0000,
                den >= 1,
                p > 0,
                u >= 0,
                v > 0,
                top >= p * 0x1_0000_0000_0000_0000,
        {
            assert(u <= u * den);
            assert(num * v <= 0x10_0000 * v);
            assert(u < 0x10_0001 * v);
            assert(u * p < 0x10_0001 * v * p);
            assert(0x10_0001 * v * p <= (p * 0x1_0000_0000_0000_0000) * v);
            assert((p * 0x1_0000_0000_0000_0000) * v <= top * v);
        }
        rounding::lemma_nearest_close(u * p, v);
        lemma_apart(num, den, m, u, v, r, p);
    }
}

/// Of two fractions that are apart by one part in two to the power of 51, the first
/// the larger and either of them no tiny one, the first is rounded to the larger
/// number.
proof fn lemma_apart(u: int, v: int, r: int, num: int, den: int, m: int, p: int)
    requires
        u >= 0,
        v > 0,
        num >= 0,
        den > 0,
        0x8_0000_0000_0000 * (u * den) >= 0x8_0000_0000_0001 * (num * v),
        0x20_0000_0000_0000 * (u * p - r * v) <= u * p + 0x10_0000_0000_0000 * v,
        0x20_0000_0000_0000 * (m * den - num * p) <= num * p + 0x10_0000_0000_0000 * den,
        0 < num <= 0x10_0000 && 0 < den <= 0x10_0000 || 0 < u <= 0x10_0000 && 0 < v <= 0x10_0000,
        p >= 0x1_0000_0000_0000_0000 * 0x1_0000_0000_0000_0000 * 0x1_0000_0000_0000_0000
            * 0x1_0000_0000_0000_0000,
    ensures
        m < r,
{
    if r <= m {
        let e = u * den;
        let f = num * v;
        let w = v * den;
        // Both bounds, brought to the denominator `v * den`.
        assert(0x20_0000_0000_0000 * (e * p - r * w) <= e * p + 0x10_0000_0000_0000 * w)
            by (nonlinear_arith)
            requires
                e == u * den,
                w == v * den,
                den > 0,
                0x20_0000_0000_0000 * (u * p - r * v) <= u * p + 0x10_0000_0000_0000 * v,
        {
            assert(0x20_0000_0000_0000 * (u * p - r * v) * den <= (u * p + 0x10_0000_0000_0000 * v)
                * den);
            assert((u * p) * den == e * p);
            assert((r * v) * den == r * w);
        }
        assert(0x20_0000_0000_0000 * (m * w - f * p) <= f * p + 0x10_0000_0000_0000 * w)
            by (nonlinear_arith)
            requires
                f == num * v,
                w == v * den,
                v > 0,
                0x20_0000_0000_0000 * (m * den - num * p) <= num * p + 0x10_0000_0000_0000 * den,
        {
            assert(0x20_0000_0000_0000 * (m * den - num * p) * v <= (num * p + 0x10_0000_0000_0000
                * den) * v);
            assert((num * p) * v == f * p);
            assert((m * den) * v == m * w);
        }
        assert(w > 0) by (nonlinear_arith)
            requires
                w == v * den,
                v > 0,
                den > 0,
        ;
        assert(r * w <= m * w) by (nonlinear_arith)
            requires
                r <= m,
                w > 0,
        ;
        let ep = e * p;
        let fp = f * p;
        assert(0x8_0000_0000_0000 * ep >= 0x8_0000_0000_0001 * fp) by (nonlinear_arith)
            requires
                0x8_0000_0000_0000 * e >= 0x8_0000_0000_0001 * f,
                ep == e * p,
                fp == f * p,
                p > 0,
        ;
        // One of the two is far above the smallest magnitude.
        if 0 < num <= 0x10_0000 && 0 < den <= 0x10_0000 {
            assert(fp >= 0x1_0000_0000_0000_0000 * 0x1_0000_0000_0000_0000 * w) by (nonlinear_arith)
                requires
                    fp == num * v * p,
                    w == v * den,
                    v > 0,
                    num >= 1,
                    0 < den <= 0x10_0000,
                    p >= 0x1_0000_0000_0000_0000 * 0x1_0000_0000_0000_0000 * 0x1_0000_0000_0000_0000
                        * 0x1_0000_0000_0000_0000,
            {
                assert(num * v >= v);
                assert(num * v * p >= v * p);
                assert(w <= v * 0x10_0000);
                assert(v * p >= v * (0x1_0000_0000_0000_0000 * 0x1_0000_0000_0000_0000
                    * 0x10_0000));
            }
        } else {
            assert(ep >= 0x1_0000_0000_0000_0000 * 0x1_0000_0000_0000_0000 * w) by (nonlinear_arith)
                requires
                    ep == u * den * p,
                    w == v * den,
                    den > 0,
                    u >= 1,
                    0 < v <= 0x10_0000,
                    p >= 0x1_0000_0000_0000_0000 * 0x1_0000_0000_0000_0000 * 0x1_0000_0000_0000_0000
                        * 0x1_0000_0000_0000_0000,
            {
                assert(u * den >= den);
                assert(u * den * p >= den * p);
                assert(w <= 0x10_0000 * den);
                assert(den * p >= den * (0x1_0000_0000_0000_0000 * 0x1_0000_0000_0000_0000
                    * 0x10_0000));
            }
        }
        assert(false);
    }
}

/// A product with a factor near `hundredths / 100` is near that many hundredths.
pub proof fn lemma_share(x: Double, f: Double, hundredths: int)
    requires
        order::unsigned(x),
        order::unsigned(f),
        x.is_finite(),
        f.is_finite(),
        0 <= hundredths <= 200,
        x.units() < 0x1_0000_0000_0000_0000_0000_0000 * pow2(SCALE as nat),
        f.units() <= 2 * pow2(SCALE as nat),
        -300 * pow2(SCALE as nat) <= 0x20_0000_0000_0000 * (100 * f.units() - hundredths * pow2(
            SCALE as nat,
        )) <= 300 * pow2(SCALE as nat),
    ensures
        ({
            let y = x.times(f);
            let slack = 500 * x.units() + 0x800_0000_0000_0000;
            &&& order::unsigned(y)
            &&& y.is_finite()
            &&& -slack <= 0x20_0000_0000_0000 * (100 * y.units() - hundredths * x.units()) <= slack
        }),
{
    let p = pow2(SCALE as nat) as int;
    let u = x.units();
    let v = f.units();
    let y = x.times(f);
    let r = y.units();
    let num = u * v;
    let top = rounding::units(INFINITE as int);
    order::lemma_one();
    lemma_scale_is_large();
    lemma_top();
    order::lemma_times_unsigned(x, f);
    magnitude::lemma_units_sign(x.code() as int);
    magnitude::lemma_units_sign(f.code() as int);
    magnitude::lemma_units_sign(y.code() as int);
    let up = u * p;
    assert(0 <= num <= 2 * up && up >= 0) by (nonlinear_arith)
        requires
            num == u * v,
            up == u * p,
            u >= 0,
            0 <= v <= 2 * p,
    ;
    lemma_far_top();
    let big = 0x1_0000_0000_0000_0000_0000_0000int;
    assert(num < top * p && 2 * num + 0x10_0000_0000_0000 * p < top * p) by (nonlinear_arith)
        requires
            num <= 2 * up,
            up == u * p,
            0 <= u < big * p,
            top >= 0x10_0000_0000_0000_0000_0000_0000 * p,
            p > 0,
            big == 0x1_0000_0000_0000_0000_0000_0000,
    {
        let pp = p * p;
        assert(pp >= p) by (nonlinear_arith)
            requires
                pp == p * p,
                p >= 1,
        ;
        assert(u * p <= (big * p) * p);
        assert((big * p) * p == big * pp);
        assert(top * p >= (0x10_0000_0000_0000_0000_0000_0000 * p) * p);
        assert((0x10_0000_0000_0000_0000_0000_0000 * p) * p == 16 * (big * pp));
    }
    rounding::lemma_nearest_close(num, p);
    assert(y.bits == rounding::nearest(num, p));
    let rp = r * p;
    assert(y.is_finite()) by {
        if !y.is_finite() {
            assert(r == top);
        }
    }
    let off = 100 * v - hundredths * p;
    assert(-300 * up <= 0x20_0000_0000_0000 * (100 * num - hundredths * up) <= 300 * up)
        by (nonlinear_arith)
        requires
            num == u * v,
            up == u * p,
            off == 100 * v - hundredths * p,
            -300 * p <= 0x20_0000_0000_0000 * off <= 300 * p,
            u >= 0,
    {
        let k = 0x20_0000_0000_0000 * off;
        assert(u * k <= u * (300 * p));
        assert(u * (-300 * p) <= u * k);
        assert(u * (300 * p) == 300 * up);
        assert(u * (-300 * p) == -300 * up);
        assert(u * off == 100 * num - hundredths * up) by (nonlinear_arith)
            requires
                off == 100 * v - hundredths * p,
                num == u * v,
                up == u * p,
        ;
        assert(u * k == 0x20_0000_0000_0000 * (u * off));
    }
    let hu = hundredths * up;
    let wide = 500 * up + 0x800_0000_0000_0000 * p;
    assert(-wide <= 0x20_0000_0000_0000 * (100 * rp - hu) <= wide);
    let diff = 100 * r - hundredths * u;
    let slack = 500 * u + 0x800_0000_0000_0000;
    assert(-slack <= 0x20_0000_0000_0000 * diff <= slack) by (nonlinear_arith)
        requires
            -wide <= 0x20_0000_0000_0000 * (100 * rp - hu) <= wide,
            wide == 500 * up + 0x800_0000_0000_0000 * p,
            rp == r * p,
            up == u * p,
            hu == hundredths * up,
            diff == 100 * r - hundredths * u,
            slack == 500 * u + 0x800_0000_0000_0000,
            p > 0,
    {
        assert(wide == slack * p);
        assert(hundredths * up == (hundredths * u) * p);
        assert(100 * rp - hu == diff * p);
        assert(0x20_0000_0000_0000 * (diff * p) == (0x20_0000_0000_0000 * diff) * p);
        assert(-(slack * p) == (-slack) * p);
    }
}

/// The magnitudes of the gains.
pub proof fn lemma_gains()
    ensures
        rounding::units(ONE as int) == pow2(SCALE as nat),
        rounding::units(TWO as int) == 2 * pow2(SCALE as nat),
        rounding::units(THREE as int) == 3 * pow2(SCALE as nat),
        2 * rounding::units(THREE_HALVES as int) == 3 * pow2(SCALE as nat),
        2 * rounding::units(HALF as int) == pow2(SCALE as nat),
{
    order::lemma_one();
    decimals::decimals_stand_for_their_numbers();
    order::lemma_of_integer_exact(2);
    order::lemma_of_integer_exact(3);
    lemma_pow2_unfold(SCALE as nat);
    let p = pow2(SCALE as nat) as int;
    let h = pow2(1073) as int;
    let code = magnitude::lemma_representable(3, 1073);
    assert(p == 2 * h);
    assert(3 * p >= 0 && rounding::units(code) * 2 == 3 * p);
    rounding::lemma_exact(code, 3 * p, 2);
    rounding::lemma_nearest_is(code, 3 * p, 2);
    let half = magnitude::lemma_representable(1, 1073);
    rounding::lemma_exact(half, p, 2);
    rounding::lemma_nearest_is(half, p, 2);
}

/// The place of infinity is far above any count of seconds.
pub proof fn lemma_top()
    ensures
        rounding::units(INFINITE as int) == 0x10_0000_0000_0000 * pow2(2046),
        rounding::units(INFINITE as int) >= pow2(SCALE as nat) * pow2(900),
        rounding::units(INFINITE as int) >= pow2(SCALE as nat) * 0x1_0000_0000_0000_0000,
        pow2(900) >= 0x1_0000_0000_0000_0000,
        pow2(900) > 0,
{
    lemma2_to64();
    lemma2_to64_rest();
    lemma_pow2_pos(SCALE as nat);
    lemma_pow2_adds(52, 2046);
    lemma_pow2_adds(SCALE as nat, 900);
    lemma_pow2_adds(SCALE as nat, 64);
    lemma_pow2_strictly_increases((SCALE + 900) as nat, 2098);
    lemma_pow2_strictly_increases((SCALE + 64) as nat, 2098);
    lemma_pow2_strictly_increases(64, 900);
    assert(rounding::units(INFINITE as int) == 0x10_0000_0000_0000 * pow2(2046));
}

/// The place of infinity is far above what the controller works with.
pub proof fn lemma_far_top()
    ensures
        rounding::units(INFINITE as int) >= 0x10_0000_0000_0000_0000_0000_0000 * pow2(
            SCALE as nat,
        ),
{
    let p = pow2(SCALE as nat) as int;
    let q = pow2(900) as int;
    order::lemma_one();
    lemma_top();
    lemma2_to64();
    lemma_pow2_adds(64, 64);
    lemma_pow2_strictly_increases(128, 900);
    let a = pow2(64) as int;
    assert(a * a == 0x1_0000_0000_0000_0000 * 0x1_0000_0000_0000_0000) by (nonlinear_arith)
        requires
            a == 0x1_0000_0000_0000_0000,
    ;
    assert(p * q >= 0x10_0000_0000_0000_0000_0000_0000 * p) by (nonlinear_arith)
        requires
            q >= 0x10_0000_0000_0000_0000_0000_0000,
            p > 0,
    ;
}

/// One is a great many of the smallest magnitude.
pub proof fn lemma_scale_is_large()
    ensures
        pow2(SCALE as nat) >= 0x1_0000_0000_0000_0000 * 0x1_0000_0000_0000_0000
            * 0x1_0000_0000_0000_0000 * 0x1_0000_0000_0000_0000,
{
    let a = pow2(64) as int;
    let b = pow2(128) as int;
    lemma2_to64();
    lemma_pow2_adds(64, 64);
    lemma_pow2_adds(128, 128);
    lemma_pow2_strictly_increases(256, SCALE as nat);
    assert(b * b == 0x1_0000_0000_0000_0000 * 0x1_0000_0000_0000_0000 * 0x1_0000_0000_0000_0000
        * 0x1_0000_0000_0000_0000) by (nonlinear_arith)
        requires
            a == 0x1_0000_0000_0000_0000,
            b == a * a,
    ;
}

} // verus!
