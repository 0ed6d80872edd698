//! What the events do to a controller, told by what was known before and what is
//! known after.

use vstd::arithmetic::power2::*;
use vstd::prelude::*;

use crate::arithmetic;
use crate::bbr::{BbrLite, BwSample};
use crate::decimals;
use crate::decimals::{
    EIGHTY_FIVE_HUNDREDTHS, EIGHT_TENTHS, ELEVEN_TENTHS, FIVE_BILLION, FIVE_HUNDREDTHS,
    FIVE_QUARTERS, HALF, HUNDREDTH, MILLION, NINETY_FIVE_HUNDREDTHS, ONE, SEVEN_TENTHS, TENTH,
    THOUSANDTH, THREE, THREE_HALVES, TWO, ZERO,
};
use crate::double::Double;
use crate::laws;
use crate::magnitude;
use crate::model;
use crate::model::BbrModel;
use crate::order;
use crate::rounding;
use crate::rounding::{INFINITE, SCALE};
use crate::time::TimeSpan;
use crate::timing;

verus! {

/// A look at the state changes nothing but the state, when it started and, at the
/// end of the start-up, the bandwidth.
pub proof fn a_transition_touches_the_state_alone(s: BbrModel, dwell: Double, now: TimeSpan)
    ensures
        ({
            let r = s.transitioned(dwell, now);
            &&& r.state_start == if r.state == s.state {
                s.state_start
            } else {
                now
            }
            &&& !(s.state is Startup) || r.state is Startup ==> r.max_bw == s.max_bw
            &&& r.pacing_rate == s.pacing_rate
            &&& r.min_rtt == s.min_rtt
            &&& r.last_rtt == s.last_rtt
            &&& r.delivered_bytes == s.delivered_bytes
            &&& r.delivered_prev == s.delivered_prev
            &&& r.last_ts == s.last_ts
            &&& r.bw_samples == s.bw_samples
            &&& r.bw_window_secs == s.bw_window_secs
            &&& r.min_rtt_timestamp == s.min_rtt_timestamp
            &&& r.rtt_sample_count == s.rtt_sample_count
            &&& r.loss_rate == s.loss_rate
            &&& r.receiver_delivery_rate == s.receiver_delivery_rate
            &&& r.probe_interval == s.probe_interval
            &&& r.min_rate == s.min_rate
            &&& r.max_rate == s.max_rate
            &&& r.made_at == s.made_at
        }),
{
}

/// The start-up ends in a cruise, and it does so after two seconds, at a loss above
/// 5%, or when the last round trip took more than twice as long as the shortest.
pub proof fn start_up_ends_on_time_loss_or_queue(s: BbrModel, dwell: Double, now: TimeSpan)
    requires
        s.state is Startup,
    ensures
        ({
            let r = s.transitioned(dwell, now);
            let queue = s.last_rtt.over(s.min_rtt);
            let measured = Double::from_bits(ZERO).lt(s.min_rtt);
            &&& r.state is Startup || r.state is Cruise
            &&& Double::from_bits(TWO).lt(dwell) ==> r.state is Cruise
            &&& Double::from_bits(FIVE_HUNDREDTHS).lt(s.loss_rate) ==> r.state is Cruise
            &&& measured && Double::from_bits(TWO).lt(queue) ==> r.state is Cruise
            &&& !Double::from_bits(TWO).lt(dwell) && !Double::from_bits(FIVE_HUNDREDTHS).lt(
                s.loss_rate,
            ) && !(measured && Double::from_bits(TWO).lt(queue)) ==> r.state is Startup
        }),
{
}

/// Probing ends in draining, and it does so after half a second, at a loss above
/// 5%, or when the last round trip took more than five quarters of the shortest.
pub proof fn probing_ends_on_time_loss_or_queue(s: BbrModel, dwell: Double, now: TimeSpan)
    requires
        s.state is ProbeUp,
    ensures
        ({
            let r = s.transitioned(dwell, now);
            let queue = s.last_rtt.over(s.min_rtt);
            let measured = Double::from_bits(ZERO).lt(s.min_rtt);
            &&& r.state is ProbeUp || r.state is ProbeDrain
            &&& Double::from_bits(HALF).lt(dwell) ==> r.state is ProbeDrain
            &&& Double::from_bits(FIVE_HUNDREDTHS).lt(s.loss_rate) ==> r.state is ProbeDrain
            &&& measured && Double::from_bits(FIVE_QUARTERS).lt(queue) ==> r.state is ProbeDrain
            &&& !Double::from_bits(HALF).lt(dwell) && !Double::from_bits(FIVE_HUNDREDTHS).lt(
                s.loss_rate,
            ) && !(measured && Double::from_bits(FIVE_QUARTERS).lt(queue)) ==> r.state is ProbeUp
        }),
{
}

/// Draining ends in a cruise, and it does so after half a second, or when the last
/// round trip took less than eleven tenths of the shortest. Without a shortest one
/// there is no queue to drain.
pub proof fn draining_ends_on_time_or_without_a_queue(s: BbrModel, dwell: Double, now: TimeSpan)
    requires
        s.state is ProbeDrain,
    ensures
        ({
            let r = s.transitioned(dwell, now);
            let queue = s.last_rtt.over(s.min_rtt);
            let measured = Double::from_bits(ZERO).lt(s.min_rtt);
            &&& r.state is ProbeDrain || r.state is Cruise
            &&& Double::from_bits(HALF).lt(dwell) ==> r.state is Cruise
            &&& !measured ==> r.state is Cruise
            &&& queue.lt(Double::from_bits(ELEVEN_TENTHS)) ==> r.state is Cruise
            &&& !Double::from_bits(HALF).lt(dwell) && measured && !queue.lt(
                Double::from_bits(ELEVEN_TENTHS),
            ) ==> r.state is ProbeDrain
        }),
{
}

/// A cruise ends in probing, and it does so after one second at a loss below 0.1%,
/// after two below 1%, after three below 10%, and never at a higher loss.
pub proof fn a_cruise_ends_on_time(s: BbrModel, dwell: Double, now: TimeSpan)
    requires
        s.state is Cruise,
    ensures
        ({
            let r = s.transitioned(dwell, now);
            let loss = s.loss_rate;
            &&& r.state is Cruise || r.state is ProbeUp
            &&& loss.lt(Double::from_bits(THOUSANDTH)) ==> (r.state is ProbeUp
                <==> Double::from_bits(ONE).lt(dwell))
            &&& Double::from_bits(THOUSANDTH).le(loss) && loss.lt(Double::from_bits(HUNDREDTH))
                ==> (r.state is ProbeUp <==> Double::from_bits(TWO).lt(dwell))
            &&& Double::from_bits(HUNDREDTH).le(loss) && loss.lt(Double::from_bits(TENTH)) ==> (
            r.state is ProbeUp <==> Double::from_bits(THREE).lt(dwell))
            &&& Double::from_bits(TENTH).le(loss) || loss.is_nan() ==> r.state is Cruise
        }),
{
}

/// On leaving the start-up a bandwidth above twice the reported rate becomes one and
/// a half times that rate, and any other stays.
pub proof fn start_up_ends_near_the_report(s: BbrModel, dwell: Double, now: TimeSpan)
    requires
        s.state is Startup,
        s.transitioned(dwell, now).state is Cruise,
    ensures
        ({
            let r = s.transitioned(dwell, now);
            let reported = s.receiver_delivery_rate;
            let double = reported.times(Double::from_bits(TWO));
            &&& Double::from_bits(ZERO).lt(reported) && double.lt(s.max_bw) ==> r.max_bw
                == reported.times(Double::from_bits(THREE_HALVES))
            &&& !Double::from_bits(ZERO).lt(reported) || !double.lt(s.max_bw) ==> r.max_bw
                == s.max_bw
        }),
{
}

/// With a shortest round-trip time, the queue is told by the quotient of the last
/// one and the shortest, however large that is, and a longer last round trip tells
/// of no shorter queue.
pub proof fn a_longer_round_trip_is_a_longer_queue(s: BbrModel, t: BbrModel)
    requires
        Double::from_bits(ZERO).lt(s.min_rtt),
        s.min_rtt.is_finite(),
        t.min_rtt == s.min_rtt,
        order::unsigned(s.last_rtt),
        s.last_rtt.le(t.last_rtt),
        t.last_rtt.is_finite(),
    ensures
        s.queue_ratio() == s.last_rtt.over(s.min_rtt),
        s.queue_ratio().le(t.queue_ratio()),
{
    if t.last_rtt.negative() {
        // Only the negative zero is no less than a number without a sign.
        assert(s.last_rtt.code() == 0 && t.last_rtt.code() == 0);
        let u = s.min_rtt.units();
        let p = pow2(SCALE as nat) as int;
        order::lemma_one();
        magnitude::lemma_units_sign(0);
        magnitude::lemma_units_sign(s.min_rtt.code() as int);
        magnitude::lemma_zero(u);
        let z = rounding::units(0);
        assert(z * p == 0) by (nonlinear_arith)
            requires
                z == 0,
        ;
    } else {
        order::lemma_over_monotone(s.last_rtt, s.min_rtt, t.last_rtt, t.min_rtt);
    }
}

/// A last round-trip time that lies within its mark, told by the exact values, ends
/// no state: up to twice the shortest one the start-up goes on, up to five quarters
/// of it probing, and from eleven tenths of it on draining.
pub proof fn short_queues_end_no_state(s: BbrModel, dwell: Double, now: TimeSpan)
    requires
        order::unsigned(s.last_rtt),
        order::unsigned(s.min_rtt),
        s.last_rtt.is_finite(),
        s.min_rtt.is_finite(),
        s.min_rtt.code() > 0,
    ensures
        ({
            let r = s.transitioned(dwell, now);
            let last = s.last_rtt.units();
            let least = s.min_rtt.units();
            &&& s.state is Startup && last <= 2 * least && dwell.le(Double::from_bits(TWO))
                && s.loss_rate.le(Double::from_bits(FIVE_HUNDREDTHS)) ==> r.state is Startup
            &&& s.state is ProbeUp && 4 * last <= 5 * least && dwell.le(Double::from_bits(HALF))
                && s.loss_rate.le(Double::from_bits(FIVE_HUNDREDTHS)) ==> r.state is ProbeUp
            &&& s.state is ProbeDrain && 10 * last >= 11 * least && dwell.le(
                Double::from_bits(HALF),
            ) ==> r.state is ProbeDrain
        }),
{
    magnitude::lemma_units_sign(s.min_rtt.code() as int);
    decimals::decimals_stand_for_their_numbers();
    arithmetic::lemma_beside(s.last_rtt, s.min_rtt, TWO, 2, 1);
    arithmetic::lemma_beside(s.last_rtt, s.min_rtt, FIVE_QUARTERS, 5, 4);
    arithmetic::lemma_beside(s.last_rtt, s.min_rtt, ELEVEN_TENTHS, 11, 10);
}

/// A last round-trip time that lies beyond its mark by one part in two to the power
/// of 51, told by the exact values, ends the state whatever else holds: more than twice
/// the shortest one the start-up, more than five quarters of it probing, and less
/// than eleven tenths of it draining.
pub proof fn queues_end_states(s: BbrModel, dwell: Double, now: TimeSpan)
    requires
        order::unsigned(s.last_rtt),
        order::unsigned(s.min_rtt),
        s.last_rtt.is_finite(),
        s.min_rtt.is_finite(),
        s.min_rtt.code() > 0,
    ensures
        ({
            let r = s.transitioned(dwell, now);
            let last = s.last_rtt.units();
            let least = s.min_rtt.units();
            let low = 0x8_0000_0000_0000int;
            let high = 0x8_0000_0000_0001int;
            &&& s.state is Startup && low * last >= high * (2 * least) ==> r.state is Cruise
            &&& s.state is ProbeUp && low * (4 * last) >= high * (5 * least)
                ==> r.state is ProbeDrain
            &&& s.state is ProbeDrain && high * (10 * last) <= low * (11 * least)
                ==> r.state is Cruise
        }),
{
    magnitude::lemma_units_sign(s.min_rtt.code() as int);
    decimals::decimals_stand_for_their_numbers();
    arithmetic::lemma_beside(s.last_rtt, s.min_rtt, TWO, 2, 1);
    arithmetic::lemma_beside(s.last_rtt, s.min_rtt, FIVE_QUARTERS, 5, 4);
    arithmetic::lemma_beside(s.last_rtt, s.min_rtt, ELEVEN_TENTHS, 11, 10);
}

/// The nanoseconds of a time.
pub open spec fn nanos(t: TimeSpan) -> int {
    t.secs * 1_000_000_000 + t.nanos
}

/// Whether a number is the largest of the bandwidths and of `floor`.
pub open spec fn is_largest(x: Double, samples: Seq<BwSample>, floor: Double) -> bool {
    &&& floor.le(x)
    &&& forall|i: int| 0 <= i < samples.len() ==> (#[trigger] samples[i]).bw.le(x)
    &&& x == floor || exists|i: int| 0 <= i < samples.len() && x == (#[trigger] samples[i]).bw
}

/// Whether `kept` is what remains of samples once those before the first one that is
/// at most two seconds old have gone.
pub open spec fn is_window(kept: Seq<BwSample>, all: Seq<BwSample>, now: TimeSpan) -> bool {
    exists|start: int|
        0 <= start <= all.len() && kept == #[trigger] all.skip(start) && (forall|i: int|
            0 <= i < start ==> nanos(now) - nanos((#[trigger] all[i]).time) > 2_000_000_000) && (
        start < all.len() ==> nanos(now) - nanos(all[start].time) <= 2_000_000_000)
}

/// The window takes in a positive rate with the time at which it was measured and
/// loses what is more than two seconds old, and the bandwidth is the largest that
/// is left, or a million where that is larger. Nothing else changes.
pub proof fn the_bandwidth_is_the_largest_of_two_seconds(
    s: BbrModel,
    rate: Double,
    now: TimeSpan,
)
    requires
        s.wf(),
        now.wf(),
    ensures
        ({
            let r = s.bandwidth_updated(rate, now);
            let sample = BwSample { bw: rate, time: now };
            &&& Double::from_bits(ZERO).lt(rate) ==> is_window(
                r.bw_samples,
                s.bw_samples.push(sample),
                now,
            ) && r.bw_samples.len() > 0 && r.bw_samples.last() == sample && rate.le(r.max_bw)
            &&& !Double::from_bits(ZERO).lt(rate) ==> is_window(r.bw_samples, s.bw_samples, now)
            &&& is_largest(r.max_bw, r.bw_samples, Double::from_bits(MILLION))
            &&& r.pacing_rate == s.pacing_rate
            &&& r.min_rtt == s.min_rtt
            &&& r.last_rtt == s.last_rtt
            &&& r.delivered_bytes == s.delivered_bytes
            &&& r.delivered_prev == s.delivered_prev
            &&& r.last_ts == s.last_ts
            &&& r.state == s.state
            &&& r.state_start == s.state_start
            &&& r.bw_window_secs == s.bw_window_secs
            &&& r.min_rtt_timestamp == s.min_rtt_timestamp
            &&& r.rtt_sample_count == s.rtt_sample_count
            &&& r.loss_rate == s.loss_rate
            &&& r.receiver_delivery_rate == s.receiver_delivery_rate
            &&& r.probe_interval == s.probe_interval
            &&& r.min_rate == s.min_rate
            &&& r.max_rate == s.max_rate
            &&& r.made_at == s.made_at
        }),
{
    let sample = BwSample { bw: rate, time: now };
    let all = if Double::from_bits(ZERO).lt(rate) {
        s.bw_samples.push(sample)
    } else {
        s.bw_samples
    };
    let r = s.bandwidth_updated(rate, now);
    assert forall|i: int| 0 <= i < all.len() implies (#[trigger] all[i]).time.wf()
        && Double::from_bits(ZERO).lt(all[i].bw) by {
        if i < s.bw_samples.len() {
            assert(all[i] == s.bw_samples[i]);
        }
    }
    let start = model::live_is_suffix(all, now, s.bw_window_secs);
    assert(r.bw_samples == all.skip(start));
    assert forall|i: int| 0 <= i < start implies nanos(now) - nanos((#[trigger] all[i]).time)
        > 2_000_000_000 by {
        timing::the_window_is_two_seconds(all[i], now);
        assert(model::expired(all[i], now, s.bw_window_secs));
    }
    if start < all.len() {
        timing::the_window_is_two_seconds(all[start], now);
    }
    assert(is_window(r.bw_samples, all, now));
    assert forall|i: int| 0 <= i < r.bw_samples.len() implies !(#[trigger] r.bw_samples[
        i
    ]).bw.is_nan() by {
        assert(r.bw_samples[i] == all[start + i]);
    }
    laws::peak_is_the_largest(r.bw_samples, s.min_rate);
    if Double::from_bits(ZERO).lt(rate) {
        let n = all.len() - 1;
        assert(all[n] == sample);
        assert(start <= n);
        assert(r.bw_samples.last() == all[n]);
        assert(r.bw_samples[r.bw_samples.len() - 1] == sample);
    }
}

/// An update that is not due changes nothing, and one without a report notes the
/// time and the bytes sent, nothing else. With the interval that a controller is
/// made with it is due once 50 milliseconds have passed.
pub proof fn updates_wait_for_their_time_and_a_report(
    s: BbrModel,
    now: TimeSpan,
    bw_now: TimeSpan,
    state_now: TimeSpan,
)
    requires
        s.wf(),
        now.wf(),
    ensures
        ({
            let r = s.rate_updated(now, bw_now, state_now);
            let early = now.since(s.last_ts).as_secs().lt(s.probe_interval);
            &&& s.probe_interval == Double::from_bits(FIVE_HUNDREDTHS) ==> (early <==> nanos(now)
                - nanos(s.last_ts) < 50_000_000)
            &&& early ==> r == s
            &&& !early && !Double::from_bits(ZERO).lt(s.receiver_delivery_rate) ==> r == (
            BbrModel { delivered_prev: s.delivered_bytes, last_ts: now, ..s })
        }),
{
    timing::marks_are_passed_to_the_nanosecond(now, s.last_ts);
}

/// With a report, an update that is due takes the reported rate, and no other, as a
/// sample into the window, dated with the time of the measurement, and looks at the
/// state with the bandwidth that comes of it. The state then sets the pacing rate:
/// in the start-up 95% of the way to twice the bandwidth, when probing 85% of the
/// way to one and a half times, when draining 80% of the way to half and when
/// cruising 70% of the way to the bandwidth, from a million to five billion.
pub proof fn an_update_follows_the_report(
    s: BbrModel,
    now: TimeSpan,
    bw_now: TimeSpan,
    state_now: TimeSpan,
)
    requires
        s.wf(),
        now.wf(),
        bw_now.wf(),
        state_now.wf(),
        !now.since(s.last_ts).as_secs().lt(s.probe_interval),
        Double::from_bits(ZERO).lt(s.receiver_delivery_rate),
    ensures
        ({
            let r = s.rate_updated(now, bw_now, state_now);
            let reported = s.receiver_delivery_rate;
            let sample = BwSample { bw: reported, time: bw_now };
            let one = Double::from_bits(ONE);
            let low = Double::from_bits(MILLION);
            let high = Double::from_bits(FIVE_BILLION);
            &&& is_window(r.bw_samples, s.bw_samples.push(sample), bw_now)
            &&& r.bw_samples.last() == sample
            &&& exists|peak: Double|
                {
                    &&& #[trigger] is_largest(peak, r.bw_samples, low)
                    &&& s.state is Startup && r.state !is Startup && reported.times(
                        Double::from_bits(TWO),
                    ).lt(peak) ==> r.max_bw == reported.times(Double::from_bits(THREE_HALVES))
                    &&& !(s.state is Startup && r.state !is Startup && reported.times(
                        Double::from_bits(TWO),
                    ).lt(peak)) ==> r.max_bw == peak
                }
            &&& r.state is Startup ==> {
                let part = Double::from_bits(NINETY_FIVE_HUNDREDTHS);
                let goal = r.max_bw.times(Double::from_bits(TWO));
                r.pacing_rate == s.pacing_rate.times(one.minus(part)).plus(goal.times(part)).clamp(
                    low,
                    high,
                )
            }
            &&& r.state is ProbeUp ==> {
                let part = Double::from_bits(EIGHTY_FIVE_HUNDREDTHS);
                let goal = r.max_bw.times(Double::from_bits(THREE_HALVES));
                r.pacing_rate == s.pacing_rate.times(one.minus(part)).plus(goal.times(part)).clamp(
                    low,
                    high,
                )
            }
            &&& r.state is ProbeDrain ==> {
                let part = Double::from_bits(EIGHT_TENTHS);
                let goal = r.max_bw.times(Double::from_bits(HALF));
                r.pacing_rate == s.pacing_rate.times(one.minus(part)).plus(goal.times(part)).clamp(
                    low,
                    high,
                )
            }
            &&& r.state is Cruise ==> {
                let part = Double::from_bits(SEVEN_TENTHS);
                let goal = r.max_bw.times(one);
                r.pacing_rate == s.pacing_rate.times(one.minus(part)).plus(goal.times(part)).clamp(
                    low,
                    high,
                )
            }
            &&& r.state_start == if r.state == s.state {
                s.state_start
            } else {
                state_now
            }
            &&& r.delivered_prev == s.delivered_bytes
            &&& r.last_ts == now
            &&& r.min_rtt == s.min_rtt
            &&& r.last_rtt == s.last_rtt
            &&& r.delivered_bytes == s.delivered_bytes
            &&& r.bw_window_secs == s.bw_window_secs
            &&& r.min_rtt_timestamp == s.min_rtt_timestamp
            &&& r.rtt_sample_count == s.rtt_sample_count
            &&& r.loss_rate == s.loss_rate
            &&& r.receiver_delivery_rate == s.receiver_delivery_rate
            &&& r.probe_interval == s.probe_interval
            &&& r.min_rate == s.min_rate
            &&& r.max_rate == s.max_rate
            &&& r.made_at == s.made_at
        }),
{
    let noted = BbrModel { delivered_prev: s.delivered_bytes, last_ts: now, ..s };
    let widened = noted.bandwidth_updated(s.receiver_delivery_rate, bw_now);
    the_bandwidth_is_the_largest_of_two_seconds(noted, s.receiver_delivery_rate, bw_now);
    let r = s.rate_updated(now, bw_now, state_now);
    assert(is_largest(widened.max_bw, r.bw_samples, Double::from_bits(MILLION)));
}

/// With a report, an update that is due is the measurement of the reported rate and
/// then a look at the state, which has lasted from its start until the update.
pub proof fn an_update_measures_and_then_looks(
    s: BbrModel,
    now: TimeSpan,
    bw_now: TimeSpan,
    state_now: TimeSpan,
)
    requires
        !now.since(s.last_ts).as_secs().lt(s.probe_interval),
        Double::from_bits(ZERO).lt(s.receiver_delivery_rate),
    ensures
        ({
            let r = s.rate_updated(now, bw_now, state_now);
            let measured = s.bandwidth_updated(s.receiver_delivery_rate, bw_now);
            let moved = measured.transitioned(now.since(s.state_start).as_secs(), state_now);
            &&& r.bw_samples == measured.bw_samples
            &&& r.max_bw == moved.max_bw
            &&& r.state == moved.state
            &&& r.state_start == moved.state_start
        }),
{
}

/// The state after an update that is due, with a report, told by the nanoseconds
/// that the state has lasted, the loss and the exact round-trip times.
pub proof fn an_update_moves_the_state(
    s: BbrModel,
    now: TimeSpan,
    bw_now: TimeSpan,
    state_now: TimeSpan,
)
    requires
        s.wf(),
        now.wf(),
        bw_now.wf(),
        state_now.wf(),
        !now.since(s.last_ts).as_secs().lt(s.probe_interval),
        Double::from_bits(ZERO).lt(s.receiver_delivery_rate),
        order::unsigned(s.last_rtt),
        order::unsigned(s.min_rtt),
        s.last_rtt.is_finite(),
        s.min_rtt.is_finite(),
        s.min_rtt.code() > 0,
    ensures
        ({
            let r = s.rate_updated(now, bw_now, state_now);
            let dwell = nanos(now) - nanos(s.state_start);
            let last = s.last_rtt.units();
            let least = s.min_rtt.units();
            let low = 0x8_0000_0000_0000int;
            let high = 0x8_0000_0000_0001int;
            let lossy = Double::from_bits(FIVE_HUNDREDTHS).lt(s.loss_rate);
            &&& s.state is Startup ==> {
                &&& r.state is Startup || r.state is Cruise
                &&& dwell > 2_000_000_000 || lossy || low * last >= high * (2 * least)
                    ==> r.state is Cruise
                &&& dwell <= 2_000_000_000 && !lossy && last <= 2 * least ==> r.state is Startup
            }
            &&& s.state is ProbeUp ==> {
                &&& r.state is ProbeUp || r.state is ProbeDrain
                &&& dwell > 500_000_000 || lossy || low * (4 * last) >= high * (5 * least)
                    ==> r.state is ProbeDrain
                &&& dwell <= 500_000_000 && !lossy && 4 * last <= 5 * least ==> r.state is ProbeUp
            }
            &&& s.state is ProbeDrain ==> {
                &&& r.state is ProbeDrain || r.state is Cruise
                &&& dwell > 500_000_000 || high * (10 * last) <= low * (11 * least)
                    ==> r.state is Cruise
                &&& dwell <= 500_000_000 && 10 * last >= 11 * least ==> r.state is ProbeDrain
            }
            &&& s.state is Cruise ==> {
                &&& r.state is Cruise || r.state is ProbeUp
                &&& s.loss_rate.lt(Double::from_bits(THOUSANDTH)) ==> (r.state is ProbeUp <==> dwell
                    > 1_000_000_000)
                &&& Double::from_bits(THOUSANDTH).le(s.loss_rate) && s.loss_rate.lt(
                    Double::from_bits(HUNDREDTH),
                ) ==> (r.state is ProbeUp <==> dwell > 2_000_000_000)
                &&& Double::from_bits(HUNDREDTH).le(s.loss_rate) && s.loss_rate.lt(
                    Double::from_bits(TENTH),
                ) ==> (r.state is ProbeUp <==> dwell > 3_000_000_000)
                &&& Double::from_bits(TENTH).le(s.loss_rate) || s.loss_rate.is_nan()
                    ==> r.state is Cruise
            }
        }),
{
    magnitude::lemma_units_sign(s.min_rtt.code() as int);
    decimals::decimals_stand_for_their_numbers();
    timing::marks_are_passed_to_the_nanosecond(now, s.state_start);
    arithmetic::lemma_beside(s.last_rtt, s.min_rtt, TWO, 2, 1);
    arithmetic::lemma_beside(s.last_rtt, s.min_rtt, FIVE_QUARTERS, 5, 4);
    arithmetic::lemma_beside(s.last_rtt, s.min_rtt, ELEVEN_TENTHS, 11, 10);
}

/// The counts of bytes decide nothing: controllers that differ in them alone have,
/// after the same update, the same bandwidth, samples, state and pacing rate.
pub proof fn bytes_sent_decide_nothing(
    s: BbrModel,
    t: BbrModel,
    now: TimeSpan,
    bw_now: TimeSpan,
    state_now: TimeSpan,
)
    requires
        t == (BbrModel {
            delivered_bytes: t.delivered_bytes,
            delivered_prev: t.delivered_prev,
            ..s
        }),
    ensures
        ({
            let q = s.rate_updated(now, bw_now, state_now);
            let r = t.rate_updated(now, bw_now, state_now);
            r == (BbrModel {
                delivered_bytes: r.delivered_bytes,
                delivered_prev: r.delivered_prev,
                ..q
            })
        }),
{
}

/// With no sample before, the bandwidth after an update that is due is the reported
/// rate. Where that is below a million it is a million, unless the start-up ends with
/// a report below half of that, which counts one and a half times.
pub proof fn a_first_report_is_the_bandwidth(
    s: BbrModel,
    now: TimeSpan,
    bw_now: TimeSpan,
    state_now: TimeSpan,
)
    requires
        s.wf(),
        now.wf(),
        bw_now.wf(),
        state_now.wf(),
        !now.since(s.last_ts).as_secs().lt(s.probe_interval),
        Double::from_bits(ZERO).lt(s.receiver_delivery_rate),
        s.bw_samples.len() == 0,
    ensures
        ({
            let r = s.rate_updated(now, bw_now, state_now);
            let reported = s.receiver_delivery_rate;
            let low = Double::from_bits(MILLION);
            &&& r.bw_samples == seq![BwSample { bw: reported, time: bw_now }]
            &&& low.le(reported) ==> r.max_bw == reported
            &&& reported.lt(low) && !(s.state is Startup && r.state !is Startup)
                ==> r.max_bw == low
            &&& reported.lt(low) && s.state is Startup && r.state !is Startup ==> r.max_bw
                == if reported.times(Double::from_bits(TWO)).lt(low) {
                reported.times(Double::from_bits(THREE_HALVES))
            } else {
                low
            }
        }),
{
    let noted = BbrModel { delivered_prev: s.delivered_bytes, last_ts: now, ..s };
    let widened = noted.bandwidth_updated(s.receiver_delivery_rate, bw_now);
    let sample = BwSample { bw: s.receiver_delivery_rate, time: bw_now };
    the_bandwidth_is_the_largest_of_two_seconds(noted, s.receiver_delivery_rate, bw_now);
    let all = s.bw_samples.push(sample);
    let start = choose|start: int|
        0 <= start <= all.len() && widened.bw_samples == #[trigger] all.skip(start);
    assert(widened.bw_samples.len() == all.len() - start);
    assert(widened.bw_samples == seq![sample]);
    assert(widened.bw_samples[0] == sample);
    order::lemma_times_monotone_right(
        s.receiver_delivery_rate,
        Double::from_bits(ONE),
        Double::from_bits(TWO),
    );
    order::lemma_times_one(s.receiver_delivery_rate);
}

/// A controller is made in the start-up with the given round-trip time and rate, a
/// bandwidth of a million, no samples, counts, losses or report, updates every 50
/// milliseconds, a window of two seconds and bounds from a million to five billion.
pub proof fn a_controller_starts_with_nothing_seen(
    rtt: Double,
    rate: Double,
    made_at: std::time::Instant,
)
    ensures
        ({
            let s = BbrModel::initial(rtt, rate, made_at);
            &&& s.pacing_rate == rate
            &&& s.min_rtt == rtt
            &&& s.last_rtt == rtt
            &&& s.max_bw == Double::from_bits(MILLION)
            &&& s.delivered_bytes == 0
            &&& s.delivered_prev == 0
            &&& nanos(s.last_ts) == 0
            &&& s.state is Startup
            &&& nanos(s.state_start) == 0
            &&& s.bw_samples.len() == 0
            &&& s.bw_window_secs == Double::from_bits(TWO)
            &&& nanos(s.min_rtt_timestamp) == 0
            &&& s.rtt_sample_count == 0
            &&& s.loss_rate == Double::from_bits(ZERO)
            &&& s.receiver_delivery_rate == Double::from_bits(ZERO)
            &&& s.probe_interval == Double::from_bits(FIVE_HUNDREDTHS)
            &&& s.min_rate == Double::from_bits(MILLION)
            &&& s.max_rate == Double::from_bits(FIVE_BILLION)
            &&& s.made_at == made_at
            &&& s.wf()
        }),
{
}

/// What the controller shows is what it knows.
pub proof fn what_is_shown_is_what_is_known(b: BbrLite)
    ensures
        b@.pacing_rate == b.pacing_rate,
        b@.min_rtt == b.min_rtt,
        b@.last_rtt == b.last_rtt,
        b@.max_bw == b.max_bw,
        b@.delivered_bytes == b.delivered_bytes,
        b@.delivered_prev == b.delivered_prev,
        b@.last_ts == b.last_ts,
        b@.state == b.state,
        b@.rtt_sample_count == b.rtt_sample_count,
        b@.loss_rate == b.loss_rate,
        b@.probe_interval == b.probe_interval,
{
}

/// Bytes that are sent add to their count and change nothing else.
pub proof fn bytes_sent_are_counted(s: BbrModel, bytes: int)
    requires
        0 <= bytes,
        s.delivered_bytes + bytes <= u64::MAX,
    ensures
        s.sent(bytes).delivered_bytes == s.delivered_bytes + bytes,
        s.sent(bytes) == (BbrModel { delivered_bytes: s.sent(bytes).delivered_bytes, ..s }),
{
}

/// A round-trip time of zero or below changes nothing. Any other is the last one and
/// is counted, and it is taken as the shortest one, with the time at which it was noted,
/// exactly where it is shorter or the shortest one is more than ten seconds old.
pub proof fn round_trips_are_noted(s: BbrModel, rtt: Double, now: TimeSpan, then: TimeSpan)
    requires
        s.min_rtt_timestamp.wf(),
        now.wf(),
        s.rtt_sample_count < u64::MAX || rtt.le(Double::from_bits(ZERO)),
    ensures
        ({
            let r = s.rtt_updated(rtt, now, then);
            let shortest = rtt.lt(s.min_rtt) || nanos(now) - nanos(s.min_rtt_timestamp)
                > 10_000_000_000;
            &&& rtt.le(Double::from_bits(ZERO)) ==> r == s
            &&& !rtt.le(Double::from_bits(ZERO)) ==> {
                &&& r.last_rtt == rtt
                &&& r.rtt_sample_count == s.rtt_sample_count + 1
                &&& shortest ==> r.min_rtt == rtt && r.min_rtt_timestamp == then
                &&& !shortest ==> r.min_rtt == s.min_rtt && r.min_rtt_timestamp
                    == s.min_rtt_timestamp
                &&& r == (BbrModel {
                    last_rtt: r.last_rtt,
                    rtt_sample_count: r.rtt_sample_count,
                    min_rtt: r.min_rtt,
                    min_rtt_timestamp: r.min_rtt_timestamp,
                    ..s
                })
            }
        }),
{
    timing::marks_are_passed_to_the_nanosecond(now, s.min_rtt_timestamp);
}

/// A positive rate is taken as the report, and no other, and nothing else changes.
pub proof fn positive_rates_are_reports(s: BbrModel, rate: Double)
    ensures
        ({
            let r = s.receiver_rate_updated(rate);
            &&& Double::from_bits(ZERO).lt(rate) ==> r.receiver_delivery_rate == rate
            &&& !Double::from_bits(ZERO).lt(rate) ==> r.receiver_delivery_rate
                == s.receiver_delivery_rate
            &&& r == (BbrModel { receiver_delivery_rate: r.receiver_delivery_rate, ..s })
        }),
{
}

/// A loss rate and the one before count the same, each by half, and nothing else
/// changes.
pub proof fn losses_count_the_same(s: BbrModel, t: BbrModel)
    ensures
        s.loss_updated(t.loss_rate).loss_rate == s.loss_rate.times(Double::from_bits(HALF)).plus(
            t.loss_rate.times(Double::from_bits(HALF)),
        ),
        s.loss_updated(t.loss_rate).loss_rate == t.loss_updated(s.loss_rate).loss_rate,
        s.loss_updated(t.loss_rate) == (BbrModel {
            loss_rate: s.loss_updated(t.loss_rate).loss_rate,
            ..s
        }),
{
    let half = Double::from_bits(HALF);
    arithmetic::sums_are_nearest(s.loss_rate.times(half), t.loss_rate.times(half));
}

/// The loss rate after a report is the mean of the one before and the reported one, off
/// by less than one part in two to the power of 51, for rates below two to the power of
/// 64.
pub proof fn the_loss_is_the_mean(s: BbrModel, loss: Double)
    requires
        order::unsigned(s.loss_rate),
        order::unsigned(loss),
        s.loss_rate.units() < 0x1_0000_0000_0000_0000 * pow2(SCALE as nat),
        loss.units() < 0x1_0000_0000_0000_0000 * pow2(SCALE as nat),
    ensures
        ({
            let r = s.loss_updated(loss).loss_rate;
            let sum = s.loss_rate.units() + loss.units();
            let slack = 4 * sum + 0x100_0000_0000_0000;
            &&& order::unsigned(r)
            &&& r.is_finite()
            &&& -slack <= 0x20_0000_0000_0000 * (2 * r.units() - sum) <= slack
        }),
{
    let half = Double::from_bits(HALF);
    let a = s.loss_rate.times(half);
    let b = loss.times(half);
    let top = rounding::units(INFINITE as int);
    order::lemma_one();
    arithmetic::lemma_top();
    lemma_half_close(s.loss_rate);
    lemma_half_close(loss);
    order::lemma_plus_unsigned(a, b);
    let sum = a.units() + b.units();
    arithmetic::lemma_far_top();
    arithmetic::lemma_scale_is_large();
    magnitude::lemma_units_sign(a.code() as int);
    magnitude::lemma_units_sign(b.code() as int);
    rounding::lemma_nearest_close(sum, 1);
    let r = a.plus(b);
    if r.code() == INFINITE {
        assert(r.units() == top);
    }
}

/// Half of a number is off its exact half by no more than one part in two to the power
/// of 53, or half of the smallest magnitude.
proof fn lemma_half_close(x: Double)
    requires
        order::unsigned(x),
        x.units() < 0x1_0000_0000_0000_0000 * pow2(SCALE as nat),
    ensures
        ({
            let h = x.times(Double::from_bits(HALF));
            let slack = x.units() + 0x20_0000_0000_0000;
            &&& order::unsigned(h)
            &&& h.is_finite()
            &&& -slack <= 0x20_0000_0000_0000 * (2 * h.units() - x.units()) <= slack
        }),
{
    let p = pow2(SCALE as nat) as int;
    let half = Double::from_bits(HALF);
    let h = x.times(half);
    let u = x.units();
    let v = half.units();
    let top = rounding::units(INFINITE as int);
    order::lemma_one();
    arithmetic::lemma_gains();
    arithmetic::lemma_top();
    arithmetic::lemma_scale_is_large();
    arithmetic::lemma_far_top();
    assert(x.is_finite());
    magnitude::lemma_units_sign(x.code() as int);
    order::lemma_times_unsigned(x, half);
    let num = u * v;
    let up = u * p;
    assert(2 * num == up && num >= 0 && num < top * p) by (nonlinear_arith)
        requires
            num == u * v,
            up == u * p,
            2 * v == p,
            0 <= u < top,
            p > 0,
    {
        assert(2 * (u * v) == u * (2 * v));
        assert(u * p < top * p);
        assert(u * p >= 0);
    }
    rounding::lemma_nearest_close(num, p);
    let r = h.units();
    let rp = r * p;
    assert(h.bits == rounding::nearest(num, p));
    let diff = 2 * r - u;
    let slack = u + 0x20_0000_0000_0000;
    assert(-slack <= 0x20_0000_0000_0000 * diff <= slack) by (nonlinear_arith)
        requires
            2 * num == up,
            up == u * p,
            rp == r * p,
            diff == 2 * r - u,
            slack == u + 0x20_0000_0000_0000,
            0x20_0000_0000_0000 * (rp - num) <= num + 0x10_0000_0000_0000 * p,
            0x20_0000_0000_0000 * (num - rp) <= num + 0x10_0000_0000_0000 * p,
            p > 0,
    {
        assert(diff * p == 2 * rp - up);
        assert(slack * p == up + 0x20_0000_0000_0000 * p);
        assert((0x20_0000_0000_0000 * diff) * p == 0x20_0000_0000_0000 * (diff * p));
        assert((-slack) * p == -(slack * p));
    }
    if h.code() == INFINITE {
        assert(r == top);
    }
}

} // verus!
