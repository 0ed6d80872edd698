//! The bit patterns of the numbers that the controller is tuned with.

use vstd::arithmetic::power2::*;
use vstd::prelude::*;

use crate::magnitude;
use crate::rounding;
use crate::rounding::{HIDDEN, INFINITE, SCALE};

verus! {

/// The number 0.
pub const ZERO: u64 = 0;

/// The number nearest to 0.0001.
pub const TEN_THOUSANDTH: u64 = 0x3f1a_36e2_eb1c_432d;

/// The number nearest to 0.001.
pub const THOUSANDTH: u64 = 0x3f50_624d_d2f1_a9fc;

/// The number nearest to 0.01.
pub const HUNDREDTH: u64 = 0x3f84_7ae1_47ae_147b;

/// The number nearest to 0.05.
pub const FIVE_HUNDREDTHS: u64 = 0x3fa9_9999_9999_999a;

/// The number nearest to 0.1.
pub const TENTH: u64 = 0x3fb9_9999_9999_999a;

/// The number nearest to 0.15.
pub const FIFTEEN_HUNDREDTHS: u64 = 0x3fc3_3333_3333_3333;

/// The number nearest to 0.5.
pub const HALF: u64 = 0x3fe0_0000_0000_0000;

/// The number nearest to 0.7.
pub const SEVEN_TENTHS: u64 = 0x3fe6_6666_6666_6666;

/// The number nearest to 0.8.
pub const EIGHT_TENTHS: u64 = 0x3fe9_9999_9999_999a;

/// The number nearest to 0.85.
pub const EIGHTY_FIVE_HUNDREDTHS: u64 = 0x3feb_3333_3333_3333;

/// The number nearest to 0.95.
pub const NINETY_FIVE_HUNDREDTHS: u64 = 0x3fee_6666_6666_6666;

/// The number nearest to 1.
pub const ONE: u64 = 0x3ff0_0000_0000_0000;

/// The number nearest to 1.1.
pub const ELEVEN_TENTHS: u64 = 0x3ff1_9999_9999_999a;

/// The number nearest to 1.2.
pub const SIX_FIFTHS: u64 = 0x3ff3_3333_3333_3333;

/// The number nearest to 1.25.
pub const FIVE_QUARTERS: u64 = 0x3ff4_0000_0000_0000;

/// The number nearest to 1.5.
pub const THREE_HALVES: u64 = 0x3ff8_0000_0000_0000;

/// The number nearest to 2.
pub const TWO: u64 = 0x4000_0000_0000_0000;

/// The number nearest to 3.
pub const THREE: u64 = 0x4008_0000_0000_0000;

/// The number nearest to 10.
pub const TEN: u64 = 0x4024_0000_0000_0000;

/// The number nearest to 1e6.
pub const MILLION: u64 = 0x412e_8480_0000_0000;

/// The number nearest to 1e9.
pub const BILLION: u64 = 0x41cd_cd65_0000_0000;

/// The number nearest to 5e9.
pub const FIVE_BILLION: u64 = 0x41f2_a05f_2000_0000;

/// Whether a bit pattern stands for the number nearest to the fraction
/// `num / den`.
pub open spec fn stands_for(bits: u64, num: int, den: int) -> bool {
    bits == rounding::nearest(num * pow2(SCALE as nat), den)
}

/// A normal pattern stands for a fraction that lies less than half a last place
/// from it.
proof fn lemma_stands_for(bits: u64, num: int, den: int, fine: int)
    requires
        HIDDEN <= bits < INFINITE,
        den > 0,
        num > 0,
        0 <= rounding::last_place(bits as int) <= SCALE,
        fine == pow2((SCALE - rounding::last_place(bits as int)) as nat),
        2 * (rounding::significand(bits as int) * den - num * fine) < den,
        2 * (num * fine - rounding::significand(bits as int) * den) < den,
        rounding::significand(bits as int) == HIDDEN ==> HIDDEN * den == num * fine,
    ensures
        stands_for(bits, num, den),
{
    let code = bits as int;
    let q = rounding::last_place(code);
    let m = rounding::significand(code);
    let w = pow2(q as nat) as int;
    let one = pow2(SCALE as nat) as int;
    lemma_pow2_pos(q as nat);
    lemma_pow2_adds((SCALE - q) as nat, q as nat);
    lemma_pow2_pos(SCALE as nat);
    rounding::lemma_units_step(code);
    let x = num * one;
    assert(x >= 0) by (nonlinear_arith)
        requires
            x == num * one,
            num > 0,
            one > 0,
    ;
    let u = rounding::units(code);
    let v = rounding::units(code + 1);
    let gap = num * fine - m * den;
    assert(x == u * den + gap * w) by (nonlinear_arith)
        requires
            x == num * one,
            one == fine * w,
            u == m * w,
            gap == num * fine - m * den,
    ;
    if gap >= 0 {
        assert(u * den <= x < v * den && 2 * x < (u + v) * den) by (nonlinear_arith)
            requires
                x == u * den + gap * w,
                v == u + w,
                0 <= gap,
                2 * gap < den,
                w > 0,
        ;
        rounding::lemma_between(code, x, den);
    } else {
        let below = rounding::units(code - 1);
        rounding::lemma_units_step(code - 1);
        assert(rounding::last_place(code - 1) == q);
        assert(below * den <= x < u * den && 2 * x > (below + u) * den) by (nonlinear_arith)
            requires
                x == u * den + gap * w,
                u == below + w,
                gap < 0,
                -2 * gap < den,
                w > 0,
                den > 0,
        ;
        rounding::lemma_between(code - 1, x, den);
    }
    rounding::lemma_nearest_is(code, x, den);
}

/// Each pattern of this module stands for the number that it is named after.
pub proof fn decimals_stand_for_their_numbers()
    ensures
        stands_for(ZERO, 0, 1),
        stands_for(TEN_THOUSANDTH, 1, 10000),
        stands_for(THOUSANDTH, 1, 1000),
        stands_for(HUNDREDTH, 1, 100),
        stands_for(FIVE_HUNDREDTHS, 5, 100),
        stands_for(TENTH, 1, 10),
        stands_for(FIFTEEN_HUNDREDTHS, 15, 100),
        stands_for(HALF, 1, 2),
        stands_for(SEVEN_TENTHS, 7, 10),
        stands_for(EIGHT_TENTHS, 8, 10),
        stands_for(EIGHTY_FIVE_HUNDREDTHS, 85, 100),
        stands_for(NINETY_FIVE_HUNDREDTHS, 95, 100),
        stands_for(ONE, 1, 1),
        stands_for(ELEVEN_TENTHS, 11, 10),
        stands_for(SIX_FIFTHS, 12, 10),
        stands_for(FIVE_QUARTERS, 5, 4),
        stands_for(THREE_HALVES, 3, 2),
        stands_for(TWO, 2, 1),
        stands_for(THREE, 3, 1),
        stands_for(TEN, 10, 1),
        stands_for(MILLION, 1000000, 1),
        stands_for(BILLION, 1000000000, 1),
        stands_for(FIVE_BILLION, 5000000000, 1),
{
    lemma2_to64();
    lemma2_to64_rest();
    lemma_pow2_adds(64, 2);
    magnitude::lemma_zero(1);
    lemma_stands_for(TEN_THOUSANDTH, 1, 10000, 0x40000000000000000);
    lemma_stands_for(THOUSANDTH, 1, 1000, 0x4000000000000000);
    lemma_stands_for(HUNDREDTH, 1, 100, 0x800000000000000);
    lemma_stands_for(FIVE_HUNDREDTHS, 5, 100, 0x200000000000000);
    lemma_stands_for(TENTH, 1, 10, 0x100000000000000);
    lemma_stands_for(FIFTEEN_HUNDREDTHS, 15, 100, 0x80000000000000);
    lemma_stands_for(HALF, 1, 2, 0x20000000000000);
    lemma_stands_for(SEVEN_TENTHS, 7, 10, 0x20000000000000);
    lemma_stands_for(EIGHT_TENTHS, 8, 10, 0x20000000000000);
    lemma_stands_for(EIGHTY_FIVE_HUNDREDTHS, 85, 100, 0x20000000000000);
    lemma_stands_for(NINETY_FIVE_HUNDREDTHS, 95, 100, 0x20000000000000);
    lemma_stands_for(ONE, 1, 1, 0x10000000000000);
    lemma_stands_for(ELEVEN_TENTHS, 11, 10, 0x10000000000000);
    lemma_stands_for(SIX_FIFTHS, 12, 10, 0x10000000000000);
    lemma_stands_for(FIVE_QUARTERS, 5, 4, 0x10000000000000);
    lemma_stands_for(THREE_HALVES, 3, 2, 0x10000000000000);
    lemma_stands_for(TWO, 2, 1, 0x8000000000000);
    lemma_stands_for(THREE, 3, 1, 0x8000000000000);
    lemma_stands_for(TEN, 10, 1, 0x2000000000000);
    lemma_stands_for(MILLION, 1000000, 1, 0x200000000);
    lemma_stands_for(BILLION, 1000000000, 1, 0x800000);
    lemma_stands_for(FIVE_BILLION, 5000000000, 1, 0x100000);
}

} // verus!
