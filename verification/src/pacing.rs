//! How far the pacing rate moves in one update, in exact numbers.

use vstd::arithmetic::power2::*;
use vstd::prelude::*;

use crate::arithmetic;
use crate::bbr::BbrState;
use crate::decimals;
use crate::decimals::{
    EIGHTY_FIVE_HUNDREDTHS, EIGHT_TENTHS, FIVE_BILLION, HALF, MILLION, NINETY_FIVE_HUNDREDTHS, ONE,
    SEVEN_TENTHS, THREE_HALVES, TWO, ZERO,
};
use crate::double::Double;
use crate::effects;
use crate::magnitude;
use crate::model::BbrModel;
use crate::order;
use crate::rounding;
use crate::rounding::{INFINITE, SCALE};
use crate::time::TimeSpan;

verus! {

/// A share of one and what is left of one, in exact hundredths.
proof fn lemma_shares(bits: u64, hundredths: int, num: int, den: int)
    requires
        bits < ONE,
        decimals::stands_for(bits, num, den),
        0 < hundredths < 100,
        0 < num < den <= 100,
        num * 100 == hundredths * den,
    ensures
        ({
            let part = Double::from_bits(bits);
            let rest = Double::from_bits(ONE).minus(part);
            let p = pow2(SCALE as nat) as int;
            &&& order::unsigned(rest)
            &&& rest.is_finite()
            &&& part.units() <= p
            &&& rest.units() <= 2 * p
            &&& -300 * p <= 0x20_0000_0000_0000 * (100 * part.units() - hundredths * p) <= 300 * p
            &&& -300 * p <= 0x20_0000_0000_0000 * (100 * rest.units() - (100 - hundredths) * p)
                <= 300 * p
        }),
{
    let part = Double::from_bits(bits);
    let one = Double::from_bits(ONE);
    let rest = one.minus(part);
    let p = pow2(SCALE as nat) as int;
    let v = part.units();
    let top = rounding::units(INFINITE as int);
    order::lemma_one();
    arithmetic::lemma_scale_is_large();
    arithmetic::lemma_top();
    magnitude::lemma_units_sign(bits as int);
    rounding::lemma_units_increase(bits as int, ONE as int);
    let np = num * p;
    assert(0 <= np < top * den) by (nonlinear_arith)
        requires
            np == num * p,
            0 < num < den,
            p > 0,
            top >= p * 0x1_0000_0000_0000_0000,
    {
        assert(num * p < den * p);
        assert(top * den >= (p * 0x1_0000_0000_0000_0000) * den);
        assert((p * 0x1_0000_0000_0000_0000) * den == 0x1_0000_0000_0000_0000 * (den * p));
    }
    rounding::lemma_nearest_close(np, den);
    let hp = hundredths * p;
    let off = 100 * v - hp;
    assert(-(hp + 100 * 0x10_0000_0000_0000) <= 0x20_0000_0000_0000 * off <= hp + 100
        * 0x10_0000_0000_0000) by (nonlinear_arith)
        requires
            np == num * p,
            hp == hundredths * p,
            off == 100 * v - hp,
            num * 100 == hundredths * den,
            den > 0,
            0x20_0000_0000_0000 * (v * den - np) <= np + 0x10_0000_0000_0000 * den,
            0x20_0000_0000_0000 * (np - v * den) <= np + 0x10_0000_0000_0000 * den,
    {
        assert(100 * np == hp * den) by (nonlinear_arith)
            requires
                np == num * p,
                hp == hundredths * p,
                num * 100 == hundredths * den,
        {
            assert(100 * (num * p) == (num * 100) * p);
            assert((hundredths * den) * p == (hundredths * p) * den);
        }
        assert(100 * (v * den - np) == off * den);
        let s = hp + 100 * 0x10_0000_0000_0000;
        assert(100 * (np + 0x10_0000_0000_0000 * den) == s * den);
        assert((0x20_0000_0000_0000 * off) * den == 0x20_0000_0000_0000 * (off * den));
        assert((-s) * den == -(s * den));
    }
    assert(hp <= 100 * p && hp >= 0) by (nonlinear_arith)
        requires
            hp == hundredths * p,
            0 <= hundredths <= 100,
            p > 0,
    ;
    let left = p - v;
    rounding::lemma_nearest_close(left, 1);
    order::lemma_nearest_in_range(left, 1);
    assert(rest.bits == rounding::nearest(left, 1));
    let code = rest.code() as int;
    assert(rest.is_finite()) by {
        if code == INFINITE {
            assert(rest.units() == top);
        }
    }
    assert((100 - hundredths) * p == 100 * p - hp) by (nonlinear_arith)
        requires
            hp == hundredths * p,
    ;
}

/// A multiple of the bandwidth, blended with the rate.
proof fn lemma_blend(
    rate: Double,
    bw: Double,
    bits: u64,
    num: int,
    den: int,
    hundredths: int,
    gain: u64,
    halves: int,
)
    requires
        order::unsigned(rate),
        order::unsigned(bw),
        rate.is_finite(),
        bw.is_finite(),
        rate.units() < 0x1_0000_0000_0000_0000 * pow2(SCALE as nat),
        bw.units() < 0x1_0000_0000_0000_0000 * pow2(SCALE as nat),
        bits < ONE,
        decimals::stands_for(bits, num, den),
        0 < hundredths < 100,
        0 < num < den <= 100,
        num * 100 == hundredths * den,
        gain < INFINITE,
        1 <= halves <= 4,
        2 * rounding::units(gain as int) == halves * pow2(SCALE as nat),
    ensures
        ({
            let part = Double::from_bits(bits);
            let kept = rate.times(Double::from_bits(ONE).minus(part));
            let blended = kept.plus(bw.times(Double::from_bits(gain)).times(part));
            let exact = 2 * ((100 - hundredths) * rate.units()) + hundredths * (halves
                * bw.units());
            let slack = 0x2000 * (rate.units() + bw.units()) + 0x1_0000_0000_0000_0000;
            &&& order::unsigned(blended)
            &&& -slack <= 0x20_0000_0000_0000 * (200 * blended.units() - exact) <= slack
        }),
{
    let p = pow2(SCALE as nat) as int;
    let part = Double::from_bits(bits);
    let rest = Double::from_bits(ONE).minus(part);
    let g = Double::from_bits(gain);
    let kept = rate.times(rest);
    let goal = bw.times(g);
    let moved = goal.times(part);
    let blended = kept.plus(moved);
    let top = rounding::units(INFINITE as int);
    order::lemma_one();
    arithmetic::lemma_scale_is_large();
    arithmetic::lemma_top();
    magnitude::lemma_units_sign(rate.code() as int);
    magnitude::lemma_units_sign(bw.code() as int);
    lemma_shares(bits, hundredths, num, den);
    let hp = halves * p;
    assert(hp <= 4 * p) by (nonlinear_arith)
        requires
            hp == halves * p,
            halves <= 4,
            p > 0,
    ;
    assert((50 * halves) * p == 50 * hp) by (nonlinear_arith)
        requires
            hp == halves * p,
    ;
    arithmetic::lemma_share(rate, rest, 100 - hundredths);
    arithmetic::lemma_share(bw, g, 50 * halves);
    magnitude::lemma_units_sign(kept.code() as int);
    magnitude::lemma_units_sign(goal.code() as int);
    let r = rate.units();
    let b = bw.units();
    let k = kept.units();
    let q = goal.units();
    let hb = halves * b;
    assert((50 * halves) * b == 50 * hb) by (nonlinear_arith)
        requires
            hb == halves * b,
    ;
    assert(0 <= hb <= 4 * b) by (nonlinear_arith)
        requires
            hb == halves * b,
            1 <= halves <= 4,
            b >= 0,
    ;
    assert(q <= 3 * b + 0x1000);
    arithmetic::lemma_share(goal, part, hundredths);
    magnitude::lemma_units_sign(moved.code() as int);
    let m = moved.units();
    let hq = hundredths * q;
    assert(0 <= hq <= 100 * q) by (nonlinear_arith)
        requires
            hq == hundredths * q,
            0 < hundredths < 100,
            q >= 0,
    ;
    let hr = (100 - hundredths) * r;
    assert(0 <= hr <= 100 * r) by (nonlinear_arith)
        requires
            hr == (100 - hundredths) * r,
            0 < hundredths < 100,
            r >= 0,
    ;
    order::lemma_plus_unsigned(kept, moved);
    let sum = k + m;
    arithmetic::lemma_far_top();
    assert(0 <= sum < top);
    rounding::lemma_nearest_close(sum, 1);
    assert(blended.bits == rounding::nearest(sum, 1));
    // The shares of the goal, beside those of the bandwidth.
    let e = 2 * q - hb;
    let near = 10 * b + 0x40_0000_0000_0000;
    assert(-near <= 0x20_0000_0000_0000 * e <= near);
    let he = hundredths * e;
    assert(-(100 * near) <= 0x20_0000_0000_0000 * he <= 100 * near) by (nonlinear_arith)
        requires
            he == hundredths * e,
            -near <= 0x20_0000_0000_0000 * e <= near,
            0 < hundredths < 100,
            near >= 0,
    {
        let x = 0x20_0000_0000_0000 * e;
        assert(hundredths * x <= hundredths * near);
        assert(hundredths * near <= 100 * near);
        assert(hundredths * (-near) <= hundredths * x);
        assert(hundredths * (-near) == -(hundredths * near));
        assert(hundredths * x == 0x20_0000_0000_0000 * he);
    }
    let goal_share = hundredths * hb;
    assert(he == 2 * hq - goal_share) by (nonlinear_arith)
        requires
            he == hundredths * e,
            e == 2 * q - hb,
            hq == hundredths * q,
            goal_share == hundredths * hb,
    ;
}

/// With a report, the pacing rate after an update that is due lies the given share of
/// the way from the one before to the multiple of the bandwidth that the state aims
/// at, within its bounds: 95% of the way to twice the bandwidth in the start-up, 85%
/// to one and a half times when probing, 80% to half when draining, and 70% to the
/// bandwidth when cruising. For a rate and a bandwidth below two to the power of 64
/// the rounding is off by less than one part in two to the power of 39.
pub proof fn the_rate_goes_its_share_of_the_way(
    s: BbrModel,
    now: TimeSpan,
    bw_now: TimeSpan,
    state_now: TimeSpan,
)
    requires
        s.wf(),
        now.wf(),
        bw_now.wf(),
        state_now.wf(),
        !now.since(s.last_ts).as_secs().lt(s.probe_interval),
        Double::from_bits(ZERO).lt(s.receiver_delivery_rate),
        order::unsigned(s.pacing_rate),
        s.pacing_rate.units() < 0x1_0000_0000_0000_0000 * pow2(SCALE as nat),
        s.rate_updated(now, bw_now, state_now).max_bw.units() < 0x1_0000_0000_0000_0000 * pow2(
            SCALE as nat,
        ),
    ensures
        ({
            let r = s.rate_updated(now, bw_now, state_now);
            let one = pow2(SCALE as nat) as int;
            let before = s.pacing_rate.units();
            let bandwidth = r.max_bw.units();
            let way = match r.state {
                BbrState::Startup => 10 * before + 380 * bandwidth,
                BbrState::ProbeUp => 30 * before + 255 * bandwidth,
                BbrState::ProbeDrain => 40 * before + 80 * bandwidth,
                BbrState::Cruise => 60 * before + 140 * bandwidth,
            };
            let bounded = if way < 200_000_000 * one {
                200_000_000 * one
            } else if way > 1_000_000_000_000 * one {
                1_000_000_000_000 * one
            } else {
                way
            };
            let slack = 0x2000 * (before + bandwidth) + 0x1_0000_0000_0000_0000;
            &&& !r.pacing_rate.negative()
            &&& r.pacing_rate.is_finite()
            &&& -slack <= 0x20_0000_0000_0000 * (200 * r.pacing_rate.units() - bounded) <= slack
        }),
{
    let r = s.rate_updated(now, bw_now, state_now);
    let p = pow2(SCALE as nat) as int;
    let low = Double::from_bits(MILLION);
    let high = Double::from_bits(FIVE_BILLION);
    let before = s.pacing_rate.units();
    let bandwidth = r.max_bw.units();
    effects::an_update_follows_the_report(s, now, bw_now, state_now);
    order::lemma_times_unsigned(s.receiver_delivery_rate, Double::from_bits(THREE_HALVES));
    assert(order::unsigned(r.max_bw));
    order::lemma_one();
    arithmetic::lemma_top();
    magnitude::lemma_units_sign(s.pacing_rate.code() as int);
    magnitude::lemma_units_sign(r.max_bw.code() as int);
    decimals::decimals_stand_for_their_numbers();
    arithmetic::lemma_gains();
    order::lemma_of_integer_exact(1_000_000);
    order::lemma_of_integer_exact(5_000_000_000);
    assert(low.units() == 1_000_000 * p);
    assert(high.units() == 5_000_000_000 * p);
    let one = Double::from_bits(ONE);
    let (part, gain) = match r.state {
        BbrState::Startup => {
            lemma_blend(s.pacing_rate, r.max_bw, NINETY_FIVE_HUNDREDTHS, 95, 100, 95, TWO, 4);
            (NINETY_FIVE_HUNDREDTHS, TWO)
        },
        BbrState::ProbeUp => {
            lemma_blend(
                s.pacing_rate,
                r.max_bw,
                EIGHTY_FIVE_HUNDREDTHS,
                85,
                100,
                85,
                THREE_HALVES,
                3,
            );
            (EIGHTY_FIVE_HUNDREDTHS, THREE_HALVES)
        },
        BbrState::ProbeDrain => {
            lemma_blend(s.pacing_rate, r.max_bw, EIGHT_TENTHS, 8, 10, 80, HALF, 1);
            (EIGHT_TENTHS, HALF)
        },
        BbrState::Cruise => {
            lemma_blend(s.pacing_rate, r.max_bw, SEVEN_TENTHS, 7, 10, 70, ONE, 2);
            (SEVEN_TENTHS, ONE)
        },
    };
    let blended = s.pacing_rate.times(one.minus(Double::from_bits(part))).plus(
        r.max_bw.times(Double::from_bits(gain)).times(Double::from_bits(part)),
    );
    assert(r.pacing_rate == blended.clamp(low, high));
    order::order_is_that_of_magnitudes(blended, low);
    order::order_is_that_of_magnitudes(high, blended);
}

} // verus!
