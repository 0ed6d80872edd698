//! Binary64 magnitudes as whole numbers, and rounding to the nearest of them.
//!
//! Every finite binary64 number is a whole multiple of two to the power of
//! -1074. Its magnitude code is its bit pattern without the sign bit, and codes
//! are ordered as the magnitudes that they stand for. This module says which
//! multiple a code stands for, and which code is nearest to a given fraction.

use vstd::arithmetic::power2::*;
use vstd::prelude::*;

verus! {

/// The code of the smallest normal number, and the weight of the bit that
/// normal numbers leave out.
pub const HIDDEN: u64 = 0x0010_0000_0000_0000;

/// The code of infinity. Codes above it are not numbers.
pub const INFINITE: u64 = 0x7ff0_0000_0000_0000;

/// How many powers of two below one the smallest magnitude lies.
pub const SCALE: u64 = 1074;

/// The exponent, counted in smallest magnitudes, of the last place of a code.
pub open spec fn last_place(code: int) -> int {
    if code < HIDDEN {
        0
    } else {
        code / (HIDDEN as int) - 1
    }
}

/// The whole number that is scaled by the last place of a code.
pub open spec fn significand(code: int) -> int {
    if code < HIDDEN {
        code
    } else {
        HIDDEN + code % (HIDDEN as int)
    }
}

/// The magnitude of a code, counted in smallest magnitudes. Infinity is put
/// where the number after the largest finite one would be.
pub open spec fn units(code: int) -> int {
    significand(code) * pow2(last_place(code) as nat)
}

/// How far a code is from the fraction `num / den`, in parts of `den`.
pub open spec fn error(code: int, num: int, den: int) -> int {
    let diff = units(code) * den - num;
    if diff < 0 {
        -diff
    } else {
        diff
    }
}

/// Whether no code is nearer to the fraction `num / den` than `code`, where of
/// two that are equally near the even one counts as nearer.
pub open spec fn is_nearest(code: int, num: int, den: int) -> bool {
    &&& 0 <= code <= INFINITE
    &&& forall|other: int|
        0 <= other <= INFINITE && other != code ==> {
            ||| error(code, num, den) < #[trigger] error(other, num, den)
            ||| error(code, num, den) == error(other, num, den) && code % 2 == 0
        }
}

/// The code that is nearest to the fraction `num / den`, counted in smallest
/// magnitudes.
pub open spec fn nearest(num: int, den: int) -> u64 {
    choose|code: u64| is_nearest(code as int, num, den)
}

/// The next code is one last place further on.
pub proof fn lemma_units_step(code: int)
    requires
        0 <= code,
    ensures
        last_place(code) >= 0,
        units(code + 1) == units(code) + pow2(last_place(code) as nat),
        pow2(last_place(code) as nat) > 0,
{
    let h = HIDDEN as int;
    let q = last_place(code);
    assert(q >= 0);
    lemma_pow2_pos(q as nat);
    if code < h {
        lemma2_to64();
        assert(h / h == 1 && h % h == 0);
        let p = pow2(0) as int;
        assert((code + 1) * p == code + 1 && code * p == code) by (nonlinear_arith)
            requires
                p == 1,
        ;
    } else {
        let f = code % h;
        if f + 1 < h {
            assert((code + 1) / h == code / h && (code + 1) % h == f + 1);
            assert((h + f + 1) * pow2(q as nat) == (h + f) * pow2(q as nat) + pow2(q as nat))
                by (nonlinear_arith);
        } else {
            assert((code + 1) / h == code / h + 1 && (code + 1) % h == 0);
            lemma_pow2_unfold((q + 1) as nat);
            assert(h * (2 * pow2(q as nat)) == (h + h - 1) * pow2(q as nat) + pow2(q as nat))
                by (nonlinear_arith);
        }
    }
}

/// A larger code has a larger magnitude.
pub proof fn lemma_units_increase(a: int, b: int)
    requires
        0 <= a < b,
    ensures
        units(a) < units(b),
    decreases b - a,
{
    lemma_units_step(b - 1);
    if a < b - 1 {
        lemma_units_increase(a, b - 1);
    }
}

/// Codes are ordered as their magnitudes.
pub proof fn lemma_units_order(a: int, b: int)
    requires
        0 <= a,
        0 <= b,
    ensures
        a <= b <==> units(a) <= units(b),
        units(a) >= 0,
{
    if a < b {
        lemma_units_increase(a, b);
    }
    if b < a {
        lemma_units_increase(b, a);
    }
    if a > 0 {
        lemma_units_increase(0, a);
    }
}

/// A fraction between two neighbours is nearest to the one on its side of the
/// middle, and in the middle to the even one.
pub proof fn lemma_between(code: int, num: int, den: int)
    requires
        0 <= code < INFINITE,
        den > 0,
        units(code) * den <= num < units(code + 1) * den,
    ensures
        2 * num < (units(code) + units(code + 1)) * den ==> is_nearest(code, num, den),
        2 * num > (units(code) + units(code + 1)) * den ==> is_nearest(code + 1, num, den),
        2 * num == (units(code) + units(code + 1)) * den ==> is_nearest(
            if code % 2 == 0 {
                code
            } else {
                code + 1
            },
            num,
            den,
        ),
{
    let lo = units(code);
    let hi = units(code + 1);
    assert((lo + hi) * den == lo * den + hi * den) by (nonlinear_arith);
    assert(error(code, num, den) == num - lo * den);
    assert(error(code + 1, num, den) == hi * den - num);
    let best = if 2 * num < (lo + hi) * den {
        code
    } else if 2 * num > (lo + hi) * den {
        code + 1
    } else if code % 2 == 0 {
        code
    } else {
        code + 1
    };
    assert forall|other: int| 0 <= other <= INFINITE && other != best implies {
        ||| error(best, num, den) < #[trigger] error(other, num, den)
        ||| error(best, num, den) == error(other, num, den) && best % 2 == 0
    } by {
        let u = units(other);
        if other < code {
            lemma_units_increase(other, code);
            assert(u * den < lo * den) by (nonlinear_arith)
                requires
                    u < lo,
                    den > 0,
            ;
        } else if other > code + 1 {
            lemma_units_increase(code + 1, other);
            assert(u * den > hi * den) by (nonlinear_arith)
                requires
                    u > hi,
                    den > 0,
            ;
        }
    }
    assert(is_nearest(best, num, den));
}

/// A fraction that is a magnitude is nearest to its own code.
pub proof fn lemma_exact(code: int, num: int, den: int)
    requires
        0 <= code <= INFINITE,
        den > 0,
        units(code) * den == num,
    ensures
        is_nearest(code, num, den),
{
    assert forall|other: int| 0 <= other <= INFINITE && other != code implies {
        ||| error(code, num, den) < #[trigger] error(other, num, den)
        ||| error(code, num, den) == error(other, num, den) && code % 2 == 0
    } by {
        lemma_units_order(other, code);
        lemma_units_order(code, other);
        let u = units(other);
        let v = units(code);
        assert(u * den != v * den) by (nonlinear_arith)
            requires
                u != v,
                den > 0,
        ;
    }
}

/// A fraction that is not below the place of infinity is nearest to infinity.
pub proof fn lemma_overflow(num: int, den: int)
    requires
        den > 0,
        num >= units(INFINITE as int) * den,
    ensures
        is_nearest(INFINITE as int, num, den),
{
    let top = INFINITE as int;
    assert forall|other: int| 0 <= other <= INFINITE && other != top implies {
        ||| error(top, num, den) < #[trigger] error(other, num, den)
        ||| error(top, num, den) == error(other, num, den) && top % 2 == 0
    } by {
        lemma_units_increase(other, top);
        let u = units(other);
        let v = units(top);
        assert(u * den < v * den) by (nonlinear_arith)
            requires
                u < v,
                den > 0,
        ;
    }
}

/// The place of a fraction among the codes: the last code that is not above it.
proof fn lemma_place_exists(top: int, num: int, den: int) -> (code: int)
    requires
        0 <= top <= INFINITE,
        den > 0,
        0 <= num,
    ensures
        0 <= code <= top,
        units(code) * den <= num,
        code < top ==> num < units(code + 1) * den,
    decreases top,
{
    if top == 0 {
        assert(units(0) * den == 0) by (nonlinear_arith)
            requires
                units(0) == significand(0) * pow2(last_place(0) as nat),
                significand(0) == 0,
        ;
        0
    } else if units(top) * den <= num {
        top
    } else {
        let code = lemma_place_exists(top - 1, num, den);
        code
    }
}

/// At most one code is nearest.
pub proof fn lemma_nearest_unique(a: int, b: int, num: int, den: int)
    requires
        den > 0,
        is_nearest(a, num, den),
        is_nearest(b, num, den),
    ensures
        a == b,
{
    if a != b {
        let lo = if a < b { a } else { b };
        let hi = if a < b { b } else { a };
        assert(error(lo, num, den) == error(hi, num, den));
        assert(lo % 2 == 0 && hi % 2 == 0);
        let mid = lo + 1;
        lemma_units_increase(lo, mid);
        lemma_units_increase(mid, hi);
        let u = units(lo);
        let v = units(mid);
        let w = units(hi);
        assert(u * den < v * den < w * den) by (nonlinear_arith)
            requires
                u < v < w,
                den > 0,
        ;
        assert(error(mid, num, den) < error(lo, num, den));
    }
}

/// Every fraction has a nearest code, and `nearest` gives it.
pub proof fn lemma_nearest_exists(num: int, den: int)
    requires
        den > 0,
        0 <= num,
    ensures
        is_nearest(nearest(num, den) as int, num, den),
{
    let code = lemma_place_exists(INFINITE as int, num, den);
    let witness = if code == INFINITE {
        lemma_overflow(num, den);
        code
    } else {
        lemma_between(code, num, den);
        if 2 * num < (units(code) + units(code + 1)) * den {
            code
        } else if 2 * num > (units(code) + units(code + 1)) * den {
            code + 1
        } else if code % 2 == 0 {
            code
        } else {
            code + 1
        }
    };
    assert(is_nearest(witness as u64 as int, num, den));
}

/// A code that is nearest is what `nearest` gives.
pub proof fn lemma_nearest_is(code: int, num: int, den: int)
    requires
        den > 0,
        0 <= num,
        is_nearest(code, num, den),
    ensures
        nearest(num, den) == code,
{
    lemma_nearest_exists(num, den);
    lemma_nearest_unique(code, nearest(num, den) as int, num, den);
}

/// A larger fraction is never rounded to a smaller code.
pub proof fn lemma_nearest_monotone(num1: int, den1: int, num2: int, den2: int)
    requires
        den1 > 0,
        den2 > 0,
        0 <= num1,
        0 <= num2,
        num1 * den2 <= num2 * den1,
    ensures
        nearest(num1, den1) <= nearest(num2, den2),
{
    lemma_nearest_exists(num1, den1);
    lemma_nearest_exists(num2, den2);
    let a = nearest(num1, den1) as int;
    let b = nearest(num2, den2) as int;
    if b < a {
        lemma_units_increase(b, a);
        let lo = units(b);
        let hi = units(a);
        assert(lo * den1 < hi * den1) by (nonlinear_arith)
            requires
                lo < hi,
                den1 > 0,
        ;
        assert(lo * den2 < hi * den2) by (nonlinear_arith)
            requires
                lo < hi,
                den2 > 0,
        ;
        // Each is at least as near to its fraction as the other one is.
        assert(error(a, num1, den1) <= error(b, num1, den1));
        assert(error(b, num2, den2) <= error(a, num2, den2));
        assert(2 * num1 >= lo * den1 + hi * den1);
        assert(2 * num2 <= lo * den2 + hi * den2);
        // So both fractions lie in the middle.
        assert(2 * num1 == lo * den1 + hi * den1) by (nonlinear_arith)
            requires
                num1 * den2 <= num2 * den1,
                2 * num1 >= lo * den1 + hi * den1,
                2 * num2 <= lo * den2 + hi * den2,
                den1 > 0,
                den2 > 0,
        ;
        assert(2 * num2 == lo * den2 + hi * den2) by (nonlinear_arith)
            requires
                num1 * den2 <= num2 * den1,
                2 * num1 == lo * den1 + hi * den1,
                2 * num2 <= lo * den2 + hi * den2,
                den1 > 0,
                den2 > 0,
        ;
        assert(a % 2 == 0 && b % 2 == 0);
        let mid = units(b + 1);
        lemma_units_increase(b, b + 1);
        lemma_units_increase(b + 1, a);
        assert(lo * den1 < mid * den1 < hi * den1) by (nonlinear_arith)
            requires
                lo < mid < hi,
                den1 > 0,
        ;
        assert(error(b + 1, num1, den1) < error(a, num1, den1));
    }
}

/// No magnitude is nearer to a fraction than the one that rounding gives, and where
/// another is as near, the code that rounding gives is even.
pub proof fn nothing_is_nearer(num: int, den: int, other: int)
    requires
        den > 0,
        0 <= num,
        0 <= other <= 0x7ff0_0000_0000_0000,
    ensures
        ({
            let code = nearest(num, den) as int;
            let off = units(code) * den - num;
            let other_off = units(other) * den - num;
            let distance = if off < 0 {
                -off
            } else {
                off
            };
            let other_distance = if other_off < 0 {
                -other_off
            } else {
                other_off
            };
            &&& code <= 0x7ff0_0000_0000_0000
            &&& distance <= other_distance
            &&& distance == other_distance && other != code ==> code % 2 == 0
        }),
{
    lemma_nearest_exists(num, den);
    let code = nearest(num, den) as int;
    assert(error(other, num, den) >= 0);
    assert(error(code, num, den) >= 0);
}

/// A fraction below the place of infinity is off its nearest code by no more than
/// one part in two to the power of 53, or half of the smallest magnitude.
pub proof fn lemma_nearest_close(num: int, den: int)
    requires
        den > 0,
        0 <= num,
        num < units(INFINITE as int) * den,
    ensures
        ({
            let r = units(nearest(num, den) as int);
            let slack = num + 0x0010_0000_0000_0000 * den;
            &&& 0x0020_0000_0000_0000 * (r * den - num) <= slack
            &&& 0x0020_0000_0000_0000 * (num - r * den) <= slack
        }),
{
    lemma_nearest_exists(num, den);
    let c = nearest(num, den) as int;
    let code = lemma_place_exists(INFINITE as int, num, den);
    lemma_units_step(code);
    let g = pow2(last_place(code) as nat) as int;
    let lo = units(code);
    let hi = units(code + 1);
    assert(hi * den == lo * den + g * den) by (nonlinear_arith)
        requires
            hi == lo + g,
    ;
    // The nearest code is no further off than either neighbour.
    let e = error(c, num, den);
    assert(e <= error(code, num, den) || c == code);
    assert(e <= error(code + 1, num, den) || c == code + 1);
    assert(2 * e <= g * den);
    if code < HIDDEN {
        lemma2_to64();
        assert(g * den == den) by (nonlinear_arith)
            requires
                g == 1,
        ;
    } else {
        let m = significand(code);
        assert(0x0010_0000_0000_0000 * (g * den) <= lo * den) by (nonlinear_arith)
            requires
                lo == m * g,
                m >= 0x0010_0000_0000_0000,
                g > 0,
                den > 0,
        ;
    }
}

/// The multiple of two to the power of -1074 that a code stands for, written out:
/// below the smallest normal number the code itself, and from there on its last 52
/// binary digits with a leading one, scaled by the digits before them.
pub proof fn codes_stand_for_multiples(code: int)
    requires
        0 <= code <= 0x7ff0_0000_0000_0000,
    ensures
        code < 0x10_0000_0000_0000 ==> units(code) == code,
        code >= 0x10_0000_0000_0000 ==> units(code) == (0x10_0000_0000_0000 + code
            % 0x10_0000_0000_0000) * pow2((code / 0x10_0000_0000_0000 - 1) as nat),
{
    lemma2_to64();
    let one = pow2(0) as int;
    assert(code * one == code) by (nonlinear_arith)
        requires
            one == 1,
    ;
}

} // verus!
