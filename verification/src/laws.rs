//! What holds of the controller as a whole.

use std::time::Instant;
use vstd::arithmetic::power2::*;
use vstd::prelude::*;

use crate::bbr::{BbrState, BwSample};
use crate::decimals;
use crate::decimals::{
    FIFTEEN_HUNDREDTHS, FIVE_HUNDREDTHS, HALF, MILLION, ONE, SIX_FIFTHS, TEN_THOUSANDTH,
    THOUSANDTH, THREE_HALVES, TWO, ZERO,
};
use crate::double::Double;
use crate::magnitude;
use crate::magnitude::TWO_TO_64;
use crate::model;
use crate::model::BbrModel;
use crate::order;
use crate::rounding;
use crate::rounding::{HIDDEN, SCALE};
use crate::time::TimeSpan;

verus! {

/// Before the receiver has reported a rate, an update leaves the pacing rate, the
/// bandwidth, its samples and the state as they are.
pub proof fn without_a_report_the_rate_stands(
    s: BbrModel,
    now: TimeSpan,
    bw_now: TimeSpan,
    state_now: TimeSpan,
)
    requires
        s.receiver_delivery_rate.le(Double::from_bits(ZERO)),
    ensures
        ({
            let r = s.rate_updated(now, bw_now, state_now);
            &&& r.pacing_rate == s.pacing_rate
            &&& r.max_bw == s.max_bw
            &&& r.bw_samples == s.bw_samples
            &&& r.state == s.state
            &&& r.state_start == s.state_start
        }),
{
}

/// No event but a positive report of the receiver changes what it has reported.
pub proof fn only_a_report_is_a_report(
    s: BbrModel,
    bytes: int,
    x: Double,
    t: TimeSpan,
    u: TimeSpan,
    v: TimeSpan,
    made_at: Instant,
)
    ensures
        BbrModel::initial(x, x, made_at).receiver_delivery_rate.le(Double::from_bits(ZERO)),
        s.sent(bytes).receiver_delivery_rate == s.receiver_delivery_rate,
        s.rtt_updated(x, t, u).receiver_delivery_rate == s.receiver_delivery_rate,
        s.loss_updated(x).receiver_delivery_rate == s.receiver_delivery_rate,
        s.rate_updated(t, u, v).receiver_delivery_rate == s.receiver_delivery_rate,
        x.le(Double::from_bits(ZERO)) ==> s.receiver_rate_updated(x) == s,
{
}

/// An update keeps the state or goes on to the one that follows it, so the
/// start-up is never entered again.
pub proof fn states_follow_the_cycle(
    s: BbrModel,
    now: TimeSpan,
    bw_now: TimeSpan,
    state_now: TimeSpan,
)
    ensures
        ({
            let r = s.rate_updated(now, bw_now, state_now);
            &&& r.state == s.state || r.state == model::successor(s.state)
            &&& r.state is Startup ==> s.state is Startup
        }),
{
}

/// A lower loss never makes a cruise longer.
pub proof fn less_loss_is_probed_no_later(a: Double, b: Double)
    requires
        a.le(b),
    ensures
        model::cruise_secs(a).le(model::cruise_secs(b)),
{
}

/// Cruising aims at the bandwidth itself, starting up and probing at no less than
/// it, and draining at no more.
pub proof fn the_target_matches_the_state(s: BbrModel)
    requires
        order::unsigned(s.max_bw),
    ensures
        s.state is Cruise ==> s.target_rate() == s.max_bw,
        s.state is Startup || s.state is ProbeUp ==> s.max_bw.le(s.target_rate()),
        s.state is ProbeDrain ==> s.target_rate().le(s.max_bw),
{
    let one = Double::from_bits(ONE);
    let gain = model::pacing_gain(s.state);
    order::lemma_times_one(s.max_bw);
    if s.state is ProbeDrain {
        order::lemma_times_monotone_right(s.max_bw, gain, one);
    } else {
        order::lemma_times_monotone_right(s.max_bw, one, gain);
    }
}

/// The pacing rate after an update follows from the rate before it, the bandwidth
/// and the state alone.
pub proof fn the_rate_follows_from_bandwidth_and_gain(a: BbrModel, b: BbrModel)
    requires
        a.pacing_rate == b.pacing_rate,
        a.max_bw == b.max_bw,
        a.state == b.state,
        a.wf(),
        b.wf(),
    ensures
        a.paced().pacing_rate == b.paced().pacing_rate,
{
}

/// The bandwidth is no smaller than any sample or the floor, and is one of them.
pub proof fn peak_is_the_largest(samples: Seq<BwSample>, floor: Double)
    requires
        !floor.is_nan(),
        forall|i: int| 0 <= i < samples.len() ==> !(#[trigger] samples[i]).bw.is_nan(),
    ensures
        floor.le(model::peak(samples, floor)),
        forall|i: int|
            0 <= i < samples.len() ==> (#[trigger] samples[i]).bw.le(model::peak(samples, floor)),
        model::peak(samples, floor) == floor || exists|i: int|
            0 <= i < samples.len() && model::peak(samples, floor) == (#[trigger] samples[i]).bw,
    decreases samples.len(),
{
    if samples.len() > 0 {
        let front = samples.drop_last();
        let n = samples.len() - 1;
        assert forall|i: int| 0 <= i < front.len() implies !(#[trigger] front[i]).bw.is_nan() by {
            assert(front[i] == samples[i]);
        }
        peak_is_the_largest(front, floor);
        let peak = model::peak(samples, floor);
        assert(!samples[n].bw.is_nan());
        assert forall|i: int| 0 <= i < samples.len() implies (#[trigger] samples[i]).bw.le(
            peak,
        ) by {
            if i < n {
                assert(front[i] == samples[i]);
            }
        }
        if peak == samples[n].bw {
        } else if peak != floor {
            let i = choose|i: int|
                0 <= i < front.len() && model::peak(front, floor) == (#[trigger] front[i]).bw;
            assert(samples[i].bw == peak);
        }
    }
}

/// When a round-trip time has been taken, the shortest one is no longer than it,
/// and is that one or the shortest one before.
pub proof fn min_rtt_is_no_longer_than_the_last(
    s: BbrModel,
    rtt: Double,
    now: TimeSpan,
    then: TimeSpan,
)
    requires
        Double::from_bits(ZERO).lt(rtt),
        !s.min_rtt.is_nan() || s.resets_min_rtt(rtt, now),
    ensures
        ({
            let r = s.rtt_updated(rtt, now, then);
            &&& r.last_rtt == rtt
            &&& r.min_rtt.le(r.last_rtt)
            &&& r.min_rtt == rtt || r.min_rtt == s.min_rtt
        }),
{
}

/// The last round-trip time counts at least once the shortest.
pub proof fn queue_ratio_is_at_least_one(s: BbrModel)
    requires
        s.min_rtt.le(s.last_rtt),
        s.min_rtt.is_finite() || s.min_rtt.negative(),
    ensures
        Double::from_bits(ONE).le(s.queue_ratio()),
{
    if Double::from_bits(ZERO).lt(s.min_rtt) {
        if s.last_rtt.is_finite() {
            order::lemma_over_itself(s.min_rtt);
            order::lemma_over_monotone(s.min_rtt, s.min_rtt, s.last_rtt, s.min_rtt);
        }
    }
}

/// A loss rate from 0 to 1 stays there when a loss from 0 to 1 is reported.
pub proof fn loss_rate_stays_a_share(s: BbrModel, loss: Double)
    requires
        Double::from_bits(ZERO).le(s.loss_rate),
        s.loss_rate.le(Double::from_bits(ONE)),
        Double::from_bits(ZERO).le(loss),
        loss.le(Double::from_bits(ONE)),
    ensures
        Double::from_bits(ZERO).le(s.loss_updated(loss).loss_rate),
        s.loss_updated(loss).loss_rate.le(Double::from_bits(ONE)),
{
    let half = Double::from_bits(HALF);
    let one = Double::from_bits(ONE);
    lemma_half_of_a_share(s.loss_rate);
    lemma_half_of_a_share(loss);
    let a = s.loss_rate.times(half);
    let b = loss.times(half);
    order::lemma_one();
    lemma_half();
    rounding::lemma_exact(ONE as int, half.units() + half.units(), 1);
    rounding::lemma_nearest_is(ONE as int, half.units() + half.units(), 1);
    assert(half.plus(half) == one);
    if !a.negative() && !b.negative() {
        order::lemma_plus_monotone(a, b, half, half);
    } else {
        // A negative one is the negative zero.
        magnitude::lemma_units_sign(0);
        magnitude::lemma_units_sign(a.code() as int);
        magnitude::lemma_units_sign(b.code() as int);
        if a.code() == b.code() {
            magnitude::lemma_zero(1);
        } else if a.code() == 0 {
            rounding::lemma_exact(b.code() as int, b.units(), 1);
            rounding::lemma_nearest_is(b.code() as int, b.units(), 1);
        } else {
            rounding::lemma_exact(a.code() as int, a.units(), 1);
            rounding::lemma_nearest_is(a.code() as int, a.units(), 1);
        }
    }
}

/// The loss rate after several losses were reported, first to last.
pub open spec fn after_losses(s: BbrModel, losses: Seq<Double>) -> BbrModel
    decreases losses.len(),
{
    if losses.len() == 0 {
        s
    } else {
        after_losses(s, losses.drop_last()).loss_updated(losses.last())
    }
}

/// Whatever losses from 0 to 1 are reported, and however many, a loss rate from 0
/// to 1 stays there.
pub proof fn loss_rate_stays_a_share_for_good(s: BbrModel, losses: Seq<Double>)
    requires
        Double::from_bits(ZERO).le(s.loss_rate),
        s.loss_rate.le(Double::from_bits(ONE)),
        forall|i: int|
            0 <= i < losses.len() ==> Double::from_bits(ZERO).le(#[trigger] losses[i])
                && losses[i].le(Double::from_bits(ONE)),
    ensures
        Double::from_bits(ZERO).le(after_losses(s, losses).loss_rate),
        after_losses(s, losses).loss_rate.le(Double::from_bits(ONE)),
    decreases losses.len(),
{
    if losses.len() > 0 {
        let front = losses.drop_last();
        assert forall|i: int| 0 <= i < front.len() implies Double::from_bits(ZERO).le(
            #[trigger] front[i],
        ) && front[i].le(Double::from_bits(ONE)) by {
            assert(front[i] == losses[i]);
        }
        loss_rate_stays_a_share_for_good(s, front);
        assert(losses.last() == losses[losses.len() - 1]);
        loss_rate_stays_a_share(after_losses(s, front), losses.last());
    }
}

/// The smoothed loss lies between the old one and the reported one, unless both are
/// the same odd multiple of the smallest number: that has no half to be added
/// twice.
pub proof fn the_smoothed_loss_lies_between(s: BbrModel, loss: Double)
    requires
        Double::from_bits(ZERO).le(s.loss_rate),
        Double::from_bits(ZERO).le(loss),
        s.loss_rate.code() == loss.code() && loss.code() < 2 * HIDDEN ==> loss.code() % 2 == 0,
    ensures
        s.loss_rate.le(loss) ==> s.loss_rate.le(s.loss_updated(loss).loss_rate)
            && s.loss_updated(loss).loss_rate.le(loss),
        loss.le(s.loss_rate) ==> loss.le(s.loss_updated(loss).loss_rate)
            && s.loss_updated(loss).loss_rate.le(s.loss_rate),
{
    let old = s.loss_rate;
    let half = Double::from_bits(HALF);
    let a = old.times(half);
    let b = loss.times(half);
    let r = a.plus(b);
    if old.is_finite() && loss.is_finite() {
        let u = old.units();
        let v = loss.units();
        lemma_half_within(old);
        lemma_half_within(loss);
        if loss.code() >= 2 * HIDDEN {
            magnitude::lemma_halved(loss.code() as int);
        } else {
            magnitude::lemma_small_units(loss.code() as int);
        }
        magnitude::lemma_units_sign(0);
        magnitude::lemma_units_sign(a.code() as int);
        magnitude::lemma_units_sign(b.code() as int);
        let sum = a.units() + b.units();
        order::lemma_nearest_in_range(sum, 1);
        magnitude::lemma_zero(1);
        assert(r.code() == rounding::nearest(sum, 1));
        assert(r.rank() >= 0);
        rounding::lemma_units_order(old.code() as int, loss.code() as int);
        rounding::lemma_units_order(loss.code() as int, old.code() as int);
        rounding::lemma_exact(old.code() as int, u, 1);
        rounding::lemma_nearest_is(old.code() as int, u, 1);
        rounding::lemma_exact(loss.code() as int, v, 1);
        rounding::lemma_nearest_is(loss.code() as int, v, 1);
        if u <= v {
            assert(u <= sum <= v);
            rounding::lemma_nearest_monotone(u, 1, sum, 1);
            rounding::lemma_nearest_monotone(sum, 1, v, 1);
        } else {
            assert(v <= sum <= u);
            rounding::lemma_nearest_monotone(v, 1, sum, 1);
            rounding::lemma_nearest_monotone(sum, 1, u, 1);
        }
    } else {
        if old.is_finite() {
            lemma_half_within(old);
        }
        if loss.is_finite() {
            lemma_half_within(loss);
        }
    }
}

/// Half of a finite number that is not negative is off by at most half of the
/// smallest number, and exact for an even multiple of it.
proof fn lemma_half_within(x: Double)
    requires
        Double::from_bits(ZERO).le(x),
        x.is_finite(),
    ensures
        ({
            let r = x.times(Double::from_bits(HALF));
            &&& r.is_finite()
            &&& r.negative() == x.negative()
            &&& -1 <= 2 * r.units() - x.units() <= 1
            &&& x.units() % 2 == 0 ==> 2 * r.units() == x.units()
            &&& x.units() >= 0
            &&& x.code() == 0 ==> r.code() == 0
        }),
{
    let code = x.code() as int;
    let u = x.units();
    let h = rounding::units(HALF as int);
    let p = pow2(SCALE as nat) as int;
    order::lemma_one();
    lemma_half();
    magnitude::lemma_units_sign(code);
    let num = u * h;
    assert(num >= 0 && 2 * num == u * p) by (nonlinear_arith)
        requires
            num == u * h,
            u >= 0,
            2 * h == p,
            p > 0,
    ;
    if code >= 2 * HIDDEN {
        let down = code - HIDDEN;
        magnitude::lemma_halved(code);
        let w = rounding::units(down);
        assert(w * p == num) by (nonlinear_arith)
            requires
                2 * w == u,
                2 * num == u * p,
        ;
        rounding::lemma_exact(down, num, p);
        rounding::lemma_nearest_is(down, num, p);
    } else {
        magnitude::lemma_small_units(code);
        let k = u / 2;
        magnitude::lemma_small_units(k);
        magnitude::lemma_small_units(k + 1);
        if u % 2 == 0 {
            assert(k * p == num) by (nonlinear_arith)
                requires
                    2 * k == u,
                    2 * num == u * p,
            ;
            rounding::lemma_exact(k, num, p);
            rounding::lemma_nearest_is(k, num, p);
        } else {
            assert(k * p <= num && num < (k + 1) * p && 2 * num == (k + (k + 1)) * p)
                by (nonlinear_arith)
                requires
                    2 * k + 1 == u,
                    2 * num == u * p,
                    p > 0,
            ;
            rounding::lemma_between(k, num, p);
            rounding::lemma_nearest_is(
                if k % 2 == 0 {
                    k
                } else {
                    k + 1
                },
                num,
                p,
            );
        }
    }
}

/// The magnitude of one half.
proof fn lemma_half()
    ensures
        2 * rounding::units(HALF as int) == pow2(SCALE as nat),
{
    order::lemma_one();
    lemma2_to64_rest();
    lemma_pow2_adds(52, 1021);
    lemma_pow2_unfold(SCALE as nat);
}

/// Half of a number from 0 to 1 is one from 0 to one half, where a negative zero
/// stays one.
proof fn lemma_half_of_a_share(x: Double)
    requires
        Double::from_bits(ZERO).le(x),
        x.le(Double::from_bits(ONE)),
    ensures
        ({
            let r = x.times(Double::from_bits(HALF));
            &&& !r.is_nan()
            &&& r.code() <= HALF
            &&& r.negative() ==> r.code() == 0
            &&& r.negative() == x.negative()
        }),
{
    let half = Double::from_bits(HALF);
    let p = pow2(SCALE as nat) as int;
    order::lemma_one();
    lemma_half();
    if x.negative() {
        magnitude::lemma_units_sign(0);
        let h = half.units();
        assert(x.units() * h == 0) by (nonlinear_arith)
            requires
                x.units() == 0,
        ;
        magnitude::lemma_zero(p);
    } else {
        let one = Double::from_bits(ONE);
        order::lemma_times_monotone(x, one, half);
        let h = half.units();
        assert(p * h == h * p && h * p >= 0) by (nonlinear_arith)
            requires
                p > 0,
                2 * h == p,
        ;
        rounding::lemma_exact(HALF as int, p * h, p);
        rounding::lemma_nearest_is(HALF as int, p * h, p);
    }
}

/// An update that sees a report of the receiver leaves the pacing rate within its
/// bounds, or not a number. It leaves a number where it found one, unless that was
/// negative infinity.
pub proof fn the_rate_stays_in_bounds(
    s: BbrModel,
    now: TimeSpan,
    bw_now: TimeSpan,
    state_now: TimeSpan,
)
    requires
        s.wf(),
        s.due(now),
        Double::from_bits(ZERO).lt(s.receiver_delivery_rate),
    ensures
        ({
            let r = s.rate_updated(now, bw_now, state_now).pacing_rate;
            &&& r.is_nan() || s.min_rate.le(r) && r.le(s.max_rate)
            &&& !s.pacing_rate.is_nan() && (s.pacing_rate.is_finite()
                || !s.pacing_rate.negative()) ==> !r.is_nan()
        }),
{
    let noted = BbrModel { delivered_prev: s.delivered_bytes, last_ts: now, ..s };
    let widened = noted.bandwidth_updated(s.receiver_delivery_rate, bw_now);
    let all = s.bw_samples.push(BwSample { bw: s.receiver_delivery_rate, time: bw_now });
    let start = model::live_is_suffix(all, bw_now, s.bw_window_secs);
    let kept = widened.bw_samples;
    assert forall|i: int| 0 <= i < kept.len() implies !(#[trigger] kept[i]).bw.is_nan() by {
        assert(kept[i] == all[start + i]);
        if start + i < s.bw_samples.len() {
            assert(all[start + i] == s.bw_samples[start + i]);
        }
    }
    peak_is_the_largest(kept, s.min_rate);
    assert(order::unsigned(widened.max_bw));
    order::lemma_times_unsigned(s.receiver_delivery_rate, Double::from_bits(THREE_HALVES));
    let dwell = now.since(s.state_start).as_secs();
    let moved = widened.transitioned(dwell, state_now);
    assert(order::unsigned(moved.max_bw));
    if !s.pacing_rate.is_nan() && (s.pacing_rate.is_finite() || !s.pacing_rate.negative()) {
        lemma_paced_is_a_number(moved);
    }
}

/// Blending a number with a target that has no sign gives a number.
proof fn lemma_paced_is_a_number(s: BbrModel)
    requires
        order::unsigned(s.max_bw),
        s.min_rate.le(s.max_rate),
        !s.pacing_rate.is_nan(),
        s.pacing_rate.is_finite() || !s.pacing_rate.negative(),
    ensures
        !s.paced().pacing_rate.is_nan(),
{
    let alpha = model::smoothing(s.state);
    let one = Double::from_bits(ONE);
    let rest = one.minus(alpha);
    lemma_rest_of_one(alpha);
    let p = s.pacing_rate;
    let kept = p.times(rest);
    order::lemma_times_unsigned(s.max_bw, model::pacing_gain(s.state));
    order::lemma_times_unsigned(s.target_rate(), alpha);
    let goal = s.target_rate().times(alpha);
    if !p.negative() {
        order::lemma_times_unsigned(p, rest);
        order::lemma_plus_unsigned(kept, goal);
    } else {
        let up = p.units();
        let uw = rest.units();
        let unit = pow2(SCALE as nat) as int;
        order::lemma_one();
        magnitude::lemma_units_sign(p.code() as int);
        magnitude::lemma_units_sign(rest.code() as int);
        order::order_is_that_of_magnitudes(rest, one);
        assert(0 <= up * uw && up * uw * 1 <= up * unit) by (nonlinear_arith)
            requires
                0 <= up,
                0 <= uw <= unit,
        ;
        rounding::lemma_exact(p.code() as int, up, 1);
        rounding::lemma_nearest_is(p.code() as int, up, 1);
        rounding::lemma_nearest_monotone(up * uw, unit, up, 1);
        assert(kept.is_finite() && kept.negative());
        magnitude::lemma_units_sign(kept.code() as int);
        magnitude::lemma_units_sign(goal.code() as int);
        rounding::lemma_units_order(kept.code() as int, goal.code() as int);
        rounding::lemma_units_order(goal.code() as int, kept.code() as int);
        if kept.code() < goal.code() {
            order::lemma_nearest_in_range(goal.units() - kept.units(), 1);
        } else {
            order::lemma_nearest_in_range(kept.units() - goal.units(), 1);
        }
    }
}

/// What is left of one is positive and no larger than one.
proof fn lemma_rest_of_one(alpha: Double)
    requires
        order::unsigned(alpha),
        alpha.code() < ONE,
    ensures
        ({
            let rest = Double::from_bits(ONE).minus(alpha);
            &&& order::unsigned(rest)
            &&& 0 < rest.code() <= ONE
        }),
{
    let u = rounding::units(ONE as int);
    let v = alpha.units();
    rounding::lemma_units_increase(alpha.code() as int, ONE as int);
    magnitude::lemma_units_sign(alpha.code() as int);
    lemma2_to64();
    let least = magnitude::lemma_representable(1, 0);
    magnitude::lemma_units_sign(least);
    assert(rounding::nearest(1, 1) == least);
    rounding::lemma_nearest_monotone(1, 1, u - v, 1);
    rounding::lemma_exact(ONE as int, u, 1);
    rounding::lemma_nearest_is(ONE as int, u, 1);
    rounding::lemma_nearest_monotone(u - v, 1, u, 1);
}

/// On leaving the start-up the bandwidth is at most twice what the receiver has
/// reported.
pub proof fn start_up_ends_without_an_overestimate(s: BbrModel, dwell: Double, now: TimeSpan)
    requires
        s.state is Startup,
        s.leaves(dwell),
        Double::from_bits(ZERO).lt(s.receiver_delivery_rate),
        !s.max_bw.is_nan(),
    ensures
        s.transitioned(dwell, now).max_bw.le(
            s.receiver_delivery_rate.times(Double::from_bits(TWO)),
        ),
{
    order::lemma_times_monotone_right(
        s.receiver_delivery_rate,
        Double::from_bits(THREE_HALVES),
        Double::from_bits(TWO),
    );
}

/// The share of redundancy lies between the bounds that were asked for.
pub proof fn redundancy_stays_in_bounds(s: BbrModel, min: Double, max: Double)
    requires
        min.le(max),
        s.lossless() || !s.loss_rate.is_nan(),
    ensures
        min.le(s.redundancy(min, max)),
        s.redundancy(min, max).le(max),
{
    if !s.lossless() {
        lemma_wanted_is_a_number(s, max);
    }
}

/// A loss that is a number calls for a share that is one.
proof fn lemma_wanted_is_a_number(s: BbrModel, max: Double)
    requires
        !max.is_nan(),
        !s.loss_rate.is_nan(),
        !s.loss_rate.lt(Double::from_bits(THOUSANDTH)),
    ensures
        !s.wanted_redundancy(max).is_nan(),
{
    if !Double::from_bits(FIFTEEN_HUNDREDTHS).lt(s.loss_rate) {
        order::lemma_times_unsigned(s.loss_rate, Double::from_bits(SIX_FIFTHS));
        order::lemma_times_unsigned(s.loss_rate, Double::from_bits(THREE_HALVES));
    }
}

/// More loss never calls for less redundancy, except where the factor drops at a
/// loss of 5%: there the share below may be the larger one.
pub proof fn more_loss_is_met_with_no_less_redundancy(
    a: BbrModel,
    b: BbrModel,
    min: Double,
    max: Double,
)
    requires
        min.le(max),
        a.receiver_delivery_rate == b.receiver_delivery_rate,
        a.loss_rate.le(b.loss_rate),
        a.loss_rate.lt(Double::from_bits(FIVE_HUNDREDTHS)) && Double::from_bits(
            FIVE_HUNDREDTHS,
        ).le(b.loss_rate) && b.loss_rate.le(Double::from_bits(FIFTEEN_HUNDREDTHS))
            ==> a.loss_rate.times(Double::from_bits(THREE_HALVES)).le(
            b.loss_rate.times(Double::from_bits(SIX_FIFTHS)),
        ) || a.lossless(),
    ensures
        a.redundancy(min, max).le(b.redundancy(min, max)),
{
    redundancy_stays_in_bounds(a, min, max);
    redundancy_stays_in_bounds(b, min, max);
    if !a.lossless() && !b.lossless() {
        lemma_wanted_is_a_number(a, max);
        lemma_wanted_is_a_number(b, max);
        if !Double::from_bits(FIFTEEN_HUNDREDTHS).lt(b.loss_rate) {
            order::lemma_times_monotone(
                a.loss_rate,
                b.loss_rate,
                Double::from_bits(SIX_FIFTHS),
            );
            order::lemma_times_monotone(
                a.loss_rate,
                b.loss_rate,
                Double::from_bits(THREE_HALVES),
            );
        }
    }
}

/// At any rate from the lowest one up, the delay of every packet can be told.
pub proof fn a_rate_in_bounds_has_a_delay(s: BbrModel, packet_size: usize)
    requires
        Double::from_bits(MILLION).le(s.pacing_rate),
    ensures
        s.delay_defined(packet_size),
{
    let n = Double::of_integer(packet_size as u64);
    let top = Double::from_bits(TWO_TO_64);
    let low = Double::from_bits(MILLION);
    order::lemma_of_integer_monotone(packet_size as u64, packet_size as u64);
    if s.pacing_rate.is_finite() {
        order::lemma_over_monotone(n, s.pacing_rate, top, low);
        // Two to the power of 64 over a million is below two to the power of 63.
        magnitude::lemma_two_to_64();
        order::lemma_one();
        decimals::decimals_stand_for_their_numbers();
        order::lemma_of_integer_exact(1_000_000);
        assert(low == Double::of_integer(1_000_000));
        let p = pow2(SCALE as nat) as int;
        let half = magnitude::lemma_representable(1, (SCALE + 63) as int);
        lemma2_to64_rest();
        lemma_pow2_adds(63, SCALE as nat);
        let ut = top.units();
        let ul = low.units();
        let h = 0x8000_0000_0000_0000 * p;
        assert(ut * p * 1 <= h * ul && 0 <= ut * p && 0 <= h && ul > 0) by (nonlinear_arith)
            requires
                ut == 0x1_0000_0000_0000_0000 * p,
                ul == 1_000_000 * p,
                h == 0x8000_0000_0000_0000 * p,
                p > 0,
        ;
        assert(1 * pow2((SCALE + 63) as nat) == h);
        rounding::lemma_nearest_monotone(ut * p, ul, h, 1);
        rounding::lemma_units_order(TWO_TO_64 as int, half);
        assert(half < TWO_TO_64);
    }
}

/// As many bytes may be in flight as the bandwidth-delay product has, or more.
pub proof fn inflight_limit_covers_the_bdp(s: BbrModel)
    ensures
        s.bdp() <= s.inflight_limit(),
{
    let d = s.max_bw.times(s.min_rtt);
    let n = s.bdp();
    let gain = model::inflight_gain(s.state);
    let one = Double::from_bits(ONE);
    let p = pow2(SCALE as nat) as int;
    order::lemma_one();
    let x = Double::of_integer(n as u64);
    order::lemma_cut_in_range(d, u64::MAX as int);
    order::lemma_of_integer_monotone(n as u64, n as u64);
    order::lemma_times_monotone_right(x, one, gain);
    order::lemma_times_one(x);
    order::lemma_cut_monotone(x, x.times(gain), u64::MAX as int);
    assert(x.cut(u64::MAX as int) >= n) by {
        lemma_cut_is_kept(d);
    }
}

/// The whole number that a number was cut to is cut to no smaller one.
proof fn lemma_cut_is_kept(d: Double)
    ensures
        Double::of_integer(d.cut(u64::MAX as int) as u64).cut(u64::MAX as int) >= d.cut(
            u64::MAX as int,
        ),
{
    let limit = u64::MAX as int;
    let n = d.cut(limit);
    let x = Double::of_integer(n as u64);
    let p = pow2(SCALE as nat) as int;
    order::lemma_one();
    order::lemma_cut_in_range(d, u64::MAX as int);
    order::lemma_of_integer_monotone(n as u64, n as u64);
    let u = d.units();
    if n < 0x0020_0000_0000_0000 {
        order::lemma_of_integer_exact(n as u64);
        assert((n * p) / p == n) by (nonlinear_arith)
            requires
                p > 0,
        ;
    } else if d.code() < TWO_TO_64 {
        // From 53 binary digits on a number is a whole one.
        d.lemma_whole_below();
        magnitude::lemma_large_is_whole(d.code() as int, n);
        assert((n * p) / p == n) by (nonlinear_arith)
            requires
                p > 0,
        ;
        rounding::lemma_exact(d.code() as int, n * p, 1);
        assert(n * p >= 0) by (nonlinear_arith)
            requires
                n >= 0,
                p > 0,
        ;
        rounding::lemma_nearest_is(d.code() as int, n * p, 1);
    } else {
        // The largest number of 64 binary digits is rounded up.
        magnitude::lemma_largest_rounds_up();
        magnitude::lemma_two_to_64();
        rounding::lemma_units_order(TWO_TO_64 as int, d.code() as int);
        assert(u / p >= 0x1_0000_0000_0000_0000) by (nonlinear_arith)
            requires
                u >= 0x1_0000_0000_0000_0000 * p,
                p > 0,
        ;
        assert(n == limit);
        assert((0x1_0000_0000_0000_0000 * p) / p == 0x1_0000_0000_0000_0000) by (nonlinear_arith)
            requires
                p > 0,
        ;
    }
}

/// The states in the order of what may be in flight: draining, cruising, probing,
/// starting up.
pub proof fn inflight_limits_are_ordered(s: BbrModel)
    ensures
        ({
            let limit = |state: BbrState| (BbrModel { state, ..s }).inflight_limit();
            &&& limit(BbrState::ProbeDrain) <= limit(BbrState::Cruise)
            &&& limit(BbrState::Cruise) <= limit(BbrState::ProbeUp)
            &&& limit(BbrState::ProbeUp) <= limit(BbrState::Startup)
        }),
{
    lemma_inflight_step(s, BbrState::ProbeDrain, BbrState::Cruise);
    lemma_inflight_step(s, BbrState::Cruise, BbrState::ProbeUp);
    lemma_inflight_step(s, BbrState::ProbeUp, BbrState::Startup);
}

/// A larger gain lets no fewer bytes be in flight.
proof fn lemma_inflight_step(s: BbrModel, low: BbrState, high: BbrState)
    requires
        model::inflight_gain(low).le(model::inflight_gain(high)),
    ensures
        (BbrModel { state: low, ..s }).inflight_limit() <= (BbrModel {
            state: high,
            ..s
        }).inflight_limit(),
{
    let n = s.bdp() as u64;
    let x = Double::of_integer(n);
    let a = model::inflight_gain(low);
    let b = model::inflight_gain(high);
    order::lemma_of_integer_monotone(n, n);
    order::lemma_times_monotone_right(x, a, b);
    order::lemma_cut_monotone(x.times(a), x.times(b), u64::MAX as int);
}

/// A larger packet waits no shorter.
pub proof fn larger_packets_wait_no_shorter(s: BbrModel, small: usize, large: usize)
    requires
        small <= large,
        s.delay_defined(large),
    ensures
        s.delay_defined(small),
        s.delay(small).total() <= s.delay(large).total(),
{
    let rate = s.pacing_rate;
    if !rate.le(Double::from_bits(ZERO)) {
        let x = Double::of_integer(small as u64);
        let y = Double::of_integer(large as u64);
        order::lemma_of_integer_monotone(small as u64, large as u64);
        if rate.is_finite() {
            order::lemma_over_monotone(x, rate, y, rate);
        }
        let dx = s.delay_secs(small);
        let dy = s.delay_secs(large);
        assert(order::unsigned(dx) && order::unsigned(dy) && dx.le(dy));
        lemma_from_secs_monotone(dx, dy);
    }
}

/// The span nearest to a number of seconds has the rounded nanoseconds, and is no
/// longer for a smaller number.
proof fn lemma_from_secs_monotone(a: Double, b: Double)
    requires
        order::unsigned(a),
        order::unsigned(b),
        a.le(b),
        b.lt(Double::from_bits(TWO_TO_64)),
    ensures
        TimeSpan::from_secs(b).total() == magnitude::round_half_even(
            b.units() * 1_000_000_000,
            pow2(SCALE as nat) as int,
        ),
        0 <= TimeSpan::from_secs(a).total() <= TimeSpan::from_secs(b).total(),
{
    let p = pow2(SCALE as nat) as int;
    order::lemma_one();
    order::order_is_that_of_magnitudes(a, b);
    magnitude::lemma_units_sign(a.code() as int);
    magnitude::lemma_below_two_to_64(b.code() as int);
    let x = a.units() * 1_000_000_000;
    let y = b.units() * 1_000_000_000;
    let f = x / p;
    let g = y / p;
    let limit = (0x1_0000_0000_0000_0000 - 0x800) * 1_000_000_000;
    assert(0 <= f <= g <= limit) by (nonlinear_arith)
        requires
            f == x / p,
            g == y / p,
            0 <= x <= y,
            y <= (0x1_0000_0000_0000_0000 - 0x800) * p * 1_000_000_000,
            limit == (0x1_0000_0000_0000_0000 - 0x800) * 1_000_000_000,
            p > 0,
    ;
    assert(f == g ==> x % p <= y % p) by (nonlinear_arith)
        requires
            f == x / p,
            g == y / p,
            0 <= x <= y,
            p > 0,
    ;
    let m = magnitude::round_half_even(x, p);
    let n = magnitude::round_half_even(y, p);
    assert(0 <= m <= n <= limit + 1);
    assert(TimeSpan::from_secs(a) == TimeSpan::of_total(m));
    assert(TimeSpan::from_secs(b) == TimeSpan::of_total(n));
    lemma_of_total(m);
    lemma_of_total(n);
}

/// A span of nanoseconds has that many of them.
proof fn lemma_of_total(n: int)
    requires
        0 <= n < 0x1_0000_0000_0000_0000 * 1_000_000_000,
    ensures
        TimeSpan::of_total(n).total() == n,
{
}

/// A packet is sent at once or after 100 microseconds or more, never sooner.
pub proof fn no_delay_is_shorter_than_100_microseconds(s: BbrModel, packet_size: usize)
    requires
        s.delay_defined(packet_size),
    ensures
        s.delay(packet_size).total() == 0 || s.delay(packet_size).total() >= 100_000,
{
    let d = s.delay_secs(packet_size);
    if !s.pacing_rate.le(Double::from_bits(ZERO)) && !d.lt(Double::from_bits(TEN_THOUSANDTH)) {
        let p = pow2(SCALE as nat) as int;
        let u = d.units();
        order::lemma_one();
        assert(0 < TEN_THOUSANDTH <= d.code() < TWO_TO_64);
        // The number 0.0001 is no less than a ten-thousandth.
        lemma2_to64();
        lemma_pow2_adds(64, 2);
        lemma_pow2_adds(66, 1008);
        rounding::lemma_units_order(TEN_THOUSANDTH as int, d.code() as int);
        lemma_pow2_pos(1008);
        let w = pow2(1008) as int;
        let m = 0x1a_36e2_eb1c_432dint;
        assert(rounding::significand(TEN_THOUSANDTH as int) == m);
        assert(rounding::units(TEN_THOUSANDTH as int) == m * w);
        assert(u * 1_000_000_000 >= 100_000 * p) by (nonlinear_arith)
            requires
                u >= m * w,
                m == 0x1a_36e2_eb1c_432d,
                p == 0x4_0000_0000_0000_0000 * w,
                w > 0,
        ;
        let floor = (u * 1_000_000_000) / p;
        assert(100_000 <= floor) by (nonlinear_arith)
            requires
                floor == (u * 1_000_000_000) / p,
                u * 1_000_000_000 >= 100_000 * p,
                p > 0,
        ;
        lemma_from_secs_monotone(d, d);
    }
}

} // verus!
