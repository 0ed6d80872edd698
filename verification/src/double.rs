//! Binary64 numbers, held as their bit patterns.
//!
//! The operations are those of IEEE 754 with rounding to nearest, ties to even.
//! Every result that is not a number is the one quiet pattern `NAN`.

use vstd::arithmetic::power2::*;
use vstd::prelude::*;

use crate::magnitude;
use crate::magnitude::TWO_TO_64;
use crate::rounding;
use crate::rounding::{INFINITE, SCALE};

verus! {

/// The sign bit.
pub const SIGN: u64 = 0x8000_0000_0000_0000;

/// The pattern of a result that is not a number.
pub const NAN: u64 = 0x7ff8_0000_0000_0000;

/// A binary64 number. Two of them are equal here where their bit patterns are;
/// `le` and `lt` compare them as numbers.
#[derive(Clone, Copy, Debug, PartialEq, Eq, Structural)]
pub struct Double {
    pub bits: u64,
}

impl Double {
    /// The number with the given bit pattern.
    pub open spec fn spec_from_bits(bits: u64) -> Double {
        Double { bits }
    }

    /// Whether the sign bit is set.
    pub open spec fn spec_negative(self) -> bool {
        self.bits >= SIGN
    }

    /// The bit pattern without its sign bit.
    pub open spec fn spec_code(self) -> u64 {
        if self.bits >= SIGN {
            (self.bits - SIGN) as u64
        } else {
            self.bits
        }
    }

    /// Whether the pattern stands for no number.
    pub open spec fn spec_is_nan(self) -> bool {
        self.spec_code() > INFINITE
    }

    /// Whether the number is finite.
    pub open spec fn is_finite(self) -> bool {
        self.spec_code() < INFINITE
    }

    /// The rank of a number among all numbers. The two zeros share theirs.
    pub open spec fn rank(self) -> int {
        if self.spec_negative() {
            -(self.spec_code() as int)
        } else {
            self.spec_code() as int
        }
    }

    /// The magnitude, in parts of two to the power of -1074.
    pub open spec fn units(self) -> int {
        rounding::units(self.spec_code() as int)
    }

    /// The number with the given sign and code.
    pub open spec fn spec_signed(negative: bool, code: u64) -> Double {
        Double {
            bits: if negative {
                (code + SIGN) as u64
            } else {
                code
            },
        }
    }

    /// Whether `self < other`. False where either is not a number.
    pub open spec fn spec_lt(self, other: Double) -> bool {
        !self.spec_is_nan() && !other.spec_is_nan() && self.rank() < other.rank()
    }

    /// Whether `self <= other`. False where either is not a number.
    pub open spec fn spec_le(self, other: Double) -> bool {
        !self.spec_is_nan() && !other.spec_is_nan() && self.rank() <= other.rank()
    }

    /// The rounded product.
    pub open spec fn spec_times(self, other: Double) -> Double {
        let negative = self.spec_negative() != other.spec_negative();
        if self.spec_is_nan() || other.spec_is_nan() {
            Double { bits: NAN }
        } else if !self.is_finite() || !other.is_finite() {
            if self.spec_code() == 0 || other.spec_code() == 0 {
                Double { bits: NAN }
            } else {
                Double::spec_signed(negative, INFINITE)
            }
        } else {
            Double::spec_signed(
                negative,
                rounding::nearest(self.units() * other.units(), pow2(SCALE as nat) as int),
            )
        }
    }

    /// The rounded quotient.
    pub open spec fn spec_over(self, other: Double) -> Double {
        let negative = self.spec_negative() != other.spec_negative();
        if self.spec_is_nan() || other.spec_is_nan() {
            Double { bits: NAN }
        } else if !self.is_finite() {
            if !other.is_finite() {
                Double { bits: NAN }
            } else {
                Double::spec_signed(negative, INFINITE)
            }
        } else if !other.is_finite() {
            Double::spec_signed(negative, 0)
        } else if other.spec_code() == 0 {
            if self.spec_code() == 0 {
                Double { bits: NAN }
            } else {
                Double::spec_signed(negative, INFINITE)
            }
        } else {
            Double::spec_signed(
                negative,
                rounding::nearest(self.units() * pow2(SCALE as nat), other.units()),
            )
        }
    }

    /// The rounded sum. Opposite numbers add up to the positive zero.
    pub open spec fn spec_plus(self, other: Double) -> Double {
        let same = self.spec_negative() == other.spec_negative();
        if self.spec_is_nan() || other.spec_is_nan() {
            Double { bits: NAN }
        } else if !self.is_finite() {
            if !other.is_finite() && !same {
                Double { bits: NAN }
            } else {
                self
            }
        } else if !other.is_finite() {
            other
        } else if same {
            Double::spec_signed(
                self.spec_negative(),
                rounding::nearest(self.units() + other.units(), 1),
            )
        } else if self.spec_code() == other.spec_code() {
            Double { bits: 0 }
        } else if self.spec_code() > other.spec_code() {
            Double::spec_signed(
                self.spec_negative(),
                rounding::nearest(self.units() - other.units(), 1),
            )
        } else {
            Double::spec_signed(
                other.spec_negative(),
                rounding::nearest(other.units() - self.units(), 1),
            )
        }
    }

    /// The number with the other sign.
    pub open spec fn spec_negated(self) -> Double {
        Double::spec_signed(!self.spec_negative(), self.spec_code())
    }

    /// The rounded difference.
    pub open spec fn spec_minus(self, other: Double) -> Double {
        self.spec_plus(other.spec_negated())
    }

    /// The number nearest to a whole number.
    pub open spec fn spec_of_integer(n: u64) -> Double {
        Double { bits: rounding::nearest(n * pow2(SCALE as nat), 1) }
    }

    /// The number cut to a whole number from 0 to `limit`: what is not a number
    /// or is negative gives 0, and what is larger gives `limit`.
    pub open spec fn cut(self, limit: int) -> int {
        let whole = self.units() / (pow2(SCALE as nat) as int);
        if self.spec_is_nan() || self.spec_negative() {
            0
        } else if whole > limit {
            limit
        } else {
            whole
        }
    }

    /// The larger of two numbers, or the other one where one is not a number.
    pub open spec fn spec_larger(self, other: Double) -> Double {
        if self.spec_is_nan() || self.spec_lt(other) {
            other
        } else {
            self
        }
    }

    /// The number, or the bound that it lies beyond.
    pub open spec fn spec_clamp(self, lo: Double, hi: Double) -> Double {
        if self.spec_lt(lo) {
            lo
        } else if hi.spec_lt(self) {
            hi
        } else {
            self
        }
    }

    /// The number with the given bit pattern.
    #[verifier::when_used_as_spec(spec_from_bits)]
    pub fn from_bits(bits: u64) -> (r: Double)
        ensures
            r == Double::spec_from_bits(bits),
    {
        Double { bits }
    }

    /// The bit pattern of the number.
    pub fn to_bits(self) -> (bits: u64)
        ensures
            bits == self.bits,
    {
        self.bits
    }

    /// Whether the sign bit is set.
    #[verifier::when_used_as_spec(spec_negative)]
    pub fn negative(self) -> (r: bool)
        ensures
            r == self.spec_negative(),
    {
        self.bits >= SIGN
    }

    /// The bit pattern without its sign bit.
    #[verifier::when_used_as_spec(spec_code)]
    pub fn code(self) -> (r: u64)
        ensures
            r == self.spec_code(),
            r < SIGN,
    {
        if self.bits >= SIGN {
            self.bits - SIGN
        } else {
            self.bits
        }
    }

    /// Whether the pattern stands for no number.
    #[verifier::when_used_as_spec(spec_is_nan)]
    pub fn is_nan(self) -> (r: bool)
        ensures
            r == self.spec_is_nan(),
    {
        self.code() > INFINITE
    }

    /// The number with the given sign and code.
    #[verifier::when_used_as_spec(spec_signed)]
    fn signed(negative: bool, code: u64) -> (r: Double)
        requires
            code < SIGN,
        ensures
            r == Double::spec_signed(negative, code),
    {
        if negative {
            Double { bits: code + SIGN }
        } else {
            Double { bits: code }
        }
    }

    /// Whether `self < other`. False where either is not a number.
    #[verifier::when_used_as_spec(spec_lt)]
    pub fn lt(self, other: Double) -> (r: bool)
        ensures
            r == self.spec_lt(other),
    {
        if self.is_nan() || other.is_nan() {
            false
        } else if self.negative() {
            if other.negative() {
                self.code() > other.code()
            } else {
                self.code() != 0 || other.code() != 0
            }
        } else {
            !other.negative() && self.code() < other.code()
        }
    }

    /// Whether `self <= other`. False where either is not a number.
    #[verifier::when_used_as_spec(spec_le)]
    pub fn le(self, other: Double) -> (r: bool)
        ensures
            r == self.spec_le(other),
    {
        !self.is_nan() && !other.is_nan() && !other.lt(self)
    }

    /// The rounded product.
    #[verifier::when_used_as_spec(spec_times)]
    pub fn times(self, other: Double) -> (r: Double)
        ensures
            r == self.spec_times(other),
    {
        let negative: bool = self.negative() != other.negative();
        if self.is_nan() || other.is_nan() {
            Double { bits: NAN }
        } else if self.code() == INFINITE || other.code() == INFINITE {
            if self.code() == 0 || other.code() == 0 {
                Double { bits: NAN }
            } else {
                Double::signed(negative, INFINITE)
            }
        } else {
            Double::signed(negative, magnitude::product(self.code(), other.code()))
        }
    }

    /// The rounded quotient.
    #[verifier::when_used_as_spec(spec_over)]
    pub fn over(self, other: Double) -> (r: Double)
        ensures
            r == self.spec_over(other),
    {
        let negative: bool = self.negative() != other.negative();
        if self.is_nan() || other.is_nan() {
            Double { bits: NAN }
        } else if self.code() == INFINITE {
            if other.code() == INFINITE {
                Double { bits: NAN }
            } else {
                Double::signed(negative, INFINITE)
            }
        } else if other.code() == INFINITE {
            Double::signed(negative, 0)
        } else if other.code() == 0 {
            if self.code() == 0 {
                Double { bits: NAN }
            } else {
                Double::signed(negative, INFINITE)
            }
        } else {
            Double::signed(negative, magnitude::quotient(self.code(), other.code()))
        }
    }

    /// The rounded sum. Opposite numbers add up to the positive zero.
    #[verifier::when_used_as_spec(spec_plus)]
    pub fn plus(self, other: Double) -> (r: Double)
        ensures
            r == self.spec_plus(other),
    {
        let same: bool = self.negative() == other.negative();
        if self.is_nan() || other.is_nan() {
            Double { bits: NAN }
        } else if self.code() == INFINITE {
            if other.code() == INFINITE && !same {
                Double { bits: NAN }
            } else {
                self
            }
        } else if other.code() == INFINITE {
            other
        } else if same {
            Double::signed(self.negative(), magnitude::sum(self.code(), other.code()))
        } else if self.code() == other.code() {
            Double { bits: 0 }
        } else if self.code() > other.code() {
            Double::signed(self.negative(), magnitude::difference(self.code(), other.code()))
        } else {
            Double::signed(other.negative(), magnitude::difference(other.code(), self.code()))
        }
    }

    /// The number with the other sign.
    #[verifier::when_used_as_spec(spec_negated)]
    pub fn negated(self) -> (r: Double)
        ensures
            r == self.spec_negated(),
    {
        Double::signed(!self.negative(), self.code())
    }

    /// The rounded difference.
    #[verifier::when_used_as_spec(spec_minus)]
    pub fn minus(self, other: Double) -> (r: Double)
        ensures
            r == self.spec_minus(other),
    {
        self.plus(other.negated())
    }

    /// The number nearest to a whole number.
    #[verifier::when_used_as_spec(spec_of_integer)]
    pub fn of_integer(n: u64) -> (r: Double)
        ensures
            r == Double::spec_of_integer(n),
            !r.spec_is_nan(),
            !r.spec_negative(),
    {
        Double { bits: magnitude::of_integer(n) }
    }

    /// The number cut to a whole number of 64 binary digits.
    pub fn to_u64(self) -> (n: u64)
        ensures
            n == self.cut(u64::MAX as int),
    {
        if self.is_nan() || self.negative() {
            0
        } else {
            proof {
                self.lemma_whole_below();
            }
            magnitude::whole_part(self.code())
        }
    }

    /// The number cut to a whole number that counts bytes in memory.
    pub fn to_usize(self) -> (n: usize)
        ensures
            n == self.cut(usize::MAX as int),
    {
        if self.is_nan() || self.negative() {
            return 0;
        }
        proof {
            self.lemma_whole_below();
        }
        let n: u64 = magnitude::whole_part(self.code());
        if n > usize::MAX as u64 {
            usize::MAX
        } else {
            n as usize
        }
    }

    /// The whole part has at most 64 binary digits exactly where the number is
    /// below two to the power of 64.
    pub proof fn lemma_whole_below(self)
        requires
            !self.spec_is_nan(),
        ensures
            self.spec_code() >= TWO_TO_64 <==> self.units() / (pow2(SCALE as nat) as int)
                > u64::MAX,
    {
        let one = pow2(SCALE as nat) as int;
        let u = self.units();
        lemma_pow2_pos(SCALE as nat);
        magnitude::lemma_two_to_64();
        rounding::lemma_units_order(TWO_TO_64 as int, self.spec_code() as int);
        assert(u >= 0x1_0000_0000_0000_0000 * one <==> u / one >= 0x1_0000_0000_0000_0000)
            by (nonlinear_arith)
            requires
                one > 0,
        ;
    }

    /// The larger of two numbers, or the other one where one is not a number.
    #[verifier::when_used_as_spec(spec_larger)]
    pub fn larger(self, other: Double) -> (r: Double)
        ensures
            r == self.spec_larger(other),
    {
        if self.is_nan() || self.lt(other) {
            other
        } else {
            self
        }
    }

    /// The number, or the bound that it lies beyond.
    #[verifier::when_used_as_spec(spec_clamp)]
    pub fn clamp(self, lo: Double, hi: Double) -> (r: Double)
        requires
            lo.spec_le(hi),
        ensures
            r == self.spec_clamp(lo, hi),
    {
        if self.lt(lo) {
            lo
        } else if hi.lt(self) {
            hi
        } else {
            self
        }
    }
}

} // verus!
