//! What the controller knows, and how each event changes it.

use std::time::Instant;
use vstd::prelude::*;

use crate::bbr::{BbrState, BwSample};
use crate::decimals::{
    EIGHTY_FIVE_HUNDREDTHS, EIGHT_TENTHS, ELEVEN_TENTHS, FIFTEEN_HUNDREDTHS, FIVE_BILLION,
    FIVE_HUNDREDTHS, FIVE_QUARTERS, HALF, HUNDREDTH, MILLION, NINETY_FIVE_HUNDREDTHS, ONE,
    SEVEN_TENTHS, SIX_FIFTHS, TEN, TENTH, TEN_THOUSANDTH, THOUSANDTH, THREE, THREE_HALVES, TWO,
    ZERO,
};
use crate::double::Double;
use crate::magnitude::TWO_TO_64;
use crate::time::TimeSpan;

verus! {

/// The state of a controller. Times are spans since `made_at`.
#[verifier::ext_equal]
pub struct BbrModel {
    pub pacing_rate: Double,
    pub min_rtt: Double,
    pub last_rtt: Double,
    pub max_bw: Double,
    pub delivered_bytes: u64,
    pub delivered_prev: u64,
    pub last_ts: TimeSpan,
    pub state: BbrState,
    pub state_start: TimeSpan,
    pub bw_samples: Seq<BwSample>,
    pub bw_window_secs: Double,
    pub min_rtt_timestamp: TimeSpan,
    pub rtt_sample_count: u64,
    pub loss_rate: Double,
    pub receiver_delivery_rate: Double,
    pub probe_interval: Double,
    pub min_rate: Double,
    pub max_rate: Double,
    pub made_at: Instant,
}

/// The state that follows another one when it is left.
pub open spec fn successor(state: BbrState) -> BbrState {
    match state {
        BbrState::Startup => BbrState::Cruise,
        BbrState::ProbeUp => BbrState::ProbeDrain,
        BbrState::ProbeDrain => BbrState::Cruise,
        BbrState::Cruise => BbrState::ProbeUp,
    }
}

/// How many times the bandwidth a state aims at.
pub open spec fn pacing_gain(state: BbrState) -> Double {
    match state {
        BbrState::Startup => Double::from_bits(TWO),
        BbrState::ProbeUp => Double::from_bits(THREE_HALVES),
        BbrState::ProbeDrain => Double::from_bits(HALF),
        BbrState::Cruise => Double::from_bits(ONE),
    }
}

/// How much of the way to its target the pacing rate goes in one update.
pub open spec fn smoothing(state: BbrState) -> Double {
    match state {
        BbrState::Startup => Double::from_bits(NINETY_FIVE_HUNDREDTHS),
        BbrState::ProbeUp => Double::from_bits(EIGHTY_FIVE_HUNDREDTHS),
        BbrState::ProbeDrain => Double::from_bits(EIGHT_TENTHS),
        BbrState::Cruise => Double::from_bits(SEVEN_TENTHS),
    }
}

/// How many times the bandwidth-delay product may be in flight in a state.
pub open spec fn inflight_gain(state: BbrState) -> Double {
    match state {
        BbrState::Startup => Double::from_bits(THREE),
        BbrState::ProbeUp => Double::from_bits(TWO),
        BbrState::ProbeDrain => Double::from_bits(ONE),
        BbrState::Cruise => Double::from_bits(THREE_HALVES),
    }
}

/// How many seconds a cruise lasts before the bandwidth is probed again.
pub open spec fn cruise_secs(loss_rate: Double) -> Double {
    if loss_rate.lt(Double::from_bits(THOUSANDTH)) {
        Double::from_bits(ONE)
    } else if loss_rate.lt(Double::from_bits(HUNDREDTH)) {
        Double::from_bits(TWO)
    } else {
        Double::from_bits(THREE)
    }
}

/// Whether a sample is older at `now` than the window is long.
pub open spec fn expired(sample: BwSample, now: TimeSpan, window: Double) -> bool {
    window.lt(now.since(sample.time).as_secs())
}

/// The samples from the first one on that has not expired.
pub open spec fn live(samples: Seq<BwSample>, now: TimeSpan, window: Double) -> Seq<BwSample>
    decreases samples.len(),
{
    if samples.len() > 0 && expired(samples[0], now, window) {
        live(samples.subrange(1, samples.len() as int), now, window)
    } else {
        samples
    }
}

/// The samples that are kept are the last ones: those before them have expired,
/// and the first of them has not.
pub proof fn live_is_suffix(samples: Seq<BwSample>, now: TimeSpan, window: Double) -> (start: int)
    ensures
        0 <= start <= samples.len(),
        live(samples, now, window) == samples.skip(start),
        forall|i: int| 0 <= i < start ==> expired(#[trigger] samples[i], now, window),
        start < samples.len() ==> !expired(samples[start], now, window),
    decreases samples.len(),
{
    if samples.len() > 0 && expired(samples[0], now, window) {
        let rest = samples.subrange(1, samples.len() as int);
        let start = live_is_suffix(rest, now, window);
        assert(rest.skip(start) == samples.skip(start + 1));
        assert forall|i: int| 0 <= i < start + 1 implies expired(
            #[trigger] samples[i],
            now,
            window,
        ) by {
            if i > 0 {
                assert(rest[i - 1] == samples[i]);
            }
        }
        start + 1
    } else {
        assert(samples.skip(0) == samples);
        0
    }
}

/// The largest bandwidth among samples, or `floor` where that is larger.
pub open spec fn peak(samples: Seq<BwSample>, floor: Double) -> Double
    decreases samples.len(),
{
    if samples.len() == 0 {
        floor
    } else {
        peak(samples.drop_last(), floor).larger(samples.last().bw)
    }
}

impl BbrModel {
    /// What every event keeps: the length of the window and the bounds of the rate
    /// are fixed, reported and sampled rates are positive, or zero before a report,
    /// and no time has a second or more in its nanoseconds.
    pub open spec fn wf(self) -> bool {
        &&& self.bw_window_secs == Double::from_bits(TWO)
        &&& self.min_rate == Double::from_bits(MILLION)
        &&& self.max_rate == Double::from_bits(FIVE_BILLION)
        &&& Double::from_bits(ZERO).le(self.receiver_delivery_rate)
        &&& forall|i: int|
            0 <= i < self.bw_samples.len() ==> Double::from_bits(ZERO).lt(
                (#[trigger] self.bw_samples[i]).bw,
            ) && self.bw_samples[i].time.wf()
        &&& self.last_ts.wf()
        &&& self.state_start.wf()
        &&& self.min_rtt_timestamp.wf()
    }

    /// A controller that has seen nothing since it was made.
    pub open spec fn initial(rtt: Double, rate: Double, made_at: Instant) -> BbrModel {
        let start = TimeSpan { secs: 0, nanos: 0 };
        BbrModel {
            pacing_rate: rate,
            min_rtt: rtt,
            last_rtt: rtt,
            max_bw: Double::from_bits(MILLION),
            delivered_bytes: 0,
            delivered_prev: 0,
            last_ts: start,
            state: BbrState::Startup,
            state_start: start,
            bw_samples: Seq::empty(),
            bw_window_secs: Double::from_bits(TWO),
            min_rtt_timestamp: start,
            rtt_sample_count: 0,
            loss_rate: Double::from_bits(ZERO),
            receiver_delivery_rate: Double::from_bits(ZERO),
            probe_interval: Double::from_bits(FIVE_HUNDREDTHS),
            min_rate: Double::from_bits(MILLION),
            max_rate: Double::from_bits(FIVE_BILLION),
            made_at,
        }
    }

    /// After the given number of bytes was sent.
    pub open spec fn sent(self, bytes: int) -> BbrModel {
        BbrModel { delivered_bytes: (self.delivered_bytes + bytes) as u64, ..self }
    }

    /// Whether a round-trip time is to be taken as the shortest: it is shorter,
    /// or the shortest one is older than ten seconds at `now`.
    pub open spec fn resets_min_rtt(self, rtt: Double, now: TimeSpan) -> bool {
        ||| rtt.lt(self.min_rtt)
        ||| Double::from_bits(TEN).lt(now.since(self.min_rtt_timestamp).as_secs())
    }

    /// After a round-trip time was measured, where the clock showed `now` when
    /// the age of the shortest one was asked for and `then` when a new one was
    /// noted. A time that is zero or below changes nothing.
    pub open spec fn rtt_updated(self, rtt: Double, now: TimeSpan, then: TimeSpan) -> BbrModel {
        if rtt.le(Double::from_bits(ZERO)) {
            self
        } else {
            let noted = BbrModel {
                last_rtt: rtt,
                rtt_sample_count: (self.rtt_sample_count + 1) as u64,
                ..self
            };
            if self.resets_min_rtt(rtt, now) {
                BbrModel { min_rtt: rtt, min_rtt_timestamp: then, ..noted }
            } else {
                noted
            }
        }
    }

    /// After a loss rate was reported: the mean of the old rate and the new.
    pub open spec fn loss_updated(self, loss_rate: Double) -> BbrModel {
        let half = Double::from_bits(HALF);
        BbrModel { loss_rate: self.loss_rate.times(half).plus(loss_rate.times(half)), ..self }
    }

    /// After the receiver reported a rate. Only a positive one is taken.
    pub open spec fn receiver_rate_updated(self, rate: Double) -> BbrModel {
        if Double::from_bits(ZERO).lt(rate) {
            BbrModel { receiver_delivery_rate: rate, ..self }
        } else {
            self
        }
    }

    /// The samples with a delivery rate that was measured at `now`. Only a positive
    /// rate becomes a sample.
    pub open spec fn candidates(self, delivery_rate: Double, now: TimeSpan) -> Seq<BwSample> {
        if Double::from_bits(ZERO).lt(delivery_rate) {
            self.bw_samples.push(BwSample { bw: delivery_rate, time: now })
        } else {
            self.bw_samples
        }
    }

    /// After a delivery rate was measured at `now`: a positive one becomes a
    /// sample, expired samples go, and the bandwidth is the largest that is
    /// left, or the lowest rate where that is larger.
    pub open spec fn bandwidth_updated(self, delivery_rate: Double, now: TimeSpan) -> BbrModel {
        let kept = live(self.candidates(delivery_rate, now), now, self.bw_window_secs);
        BbrModel { bw_samples: kept, max_bw: peak(kept, self.min_rate), ..self }
    }

    /// How many times the shortest round-trip time the last one took.
    pub open spec fn queue_ratio(self) -> Double {
        if Double::from_bits(ZERO).lt(self.min_rtt) {
            self.last_rtt.over(self.min_rtt)
        } else {
            Double::from_bits(ONE)
        }
    }

    /// Whether a state that has lasted for `dwell` seconds is left.
    pub open spec fn leaves(self, dwell: Double) -> bool {
        match self.state {
            BbrState::Startup => {
                ||| Double::from_bits(TWO).lt(dwell)
                ||| Double::from_bits(FIVE_HUNDREDTHS).lt(self.loss_rate)
                ||| Double::from_bits(TWO).lt(self.queue_ratio())
            },
            BbrState::ProbeUp => {
                ||| Double::from_bits(FIVE_QUARTERS).lt(self.queue_ratio())
                ||| Double::from_bits(HALF).lt(dwell)
                ||| Double::from_bits(FIVE_HUNDREDTHS).lt(self.loss_rate)
            },
            BbrState::ProbeDrain => {
                ||| self.queue_ratio().lt(Double::from_bits(ELEVEN_TENTHS))
                ||| Double::from_bits(HALF).lt(dwell)
            },
            BbrState::Cruise => {
                &&& cruise_secs(self.loss_rate).lt(dwell)
                &&& self.loss_rate.lt(Double::from_bits(TENTH))
            },
        }
    }

    /// Whether the bandwidth is more than twice what the receiver reported.
    pub open spec fn overestimates(self) -> bool {
        &&& Double::from_bits(ZERO).lt(self.receiver_delivery_rate)
        &&& self.receiver_delivery_rate.times(Double::from_bits(TWO)).lt(self.max_bw)
    }

    /// After the state was looked at, where it has lasted for `dwell` seconds and
    /// the next one starts at `now`. On leaving the start-up a bandwidth that was
    /// overestimated is brought down towards what the receiver reported.
    pub open spec fn transitioned(self, dwell: Double, now: TimeSpan) -> BbrModel {
        if !self.leaves(dwell) {
            self
        } else {
            BbrModel {
                state: successor(self.state),
                state_start: now,
                max_bw: if self.state is Startup && self.overestimates() {
                    self.receiver_delivery_rate.times(Double::from_bits(THREE_HALVES))
                } else {
                    self.max_bw
                },
                ..self
            }
        }
    }

    /// The rate that the state aims at.
    pub open spec fn target_rate(self) -> Double {
        self.max_bw.times(pacing_gain(self.state))
    }

    /// After the pacing rate has moved towards its target, within its bounds.
    pub open spec fn paced(self) -> BbrModel {
        let alpha = smoothing(self.state);
        let kept = self.pacing_rate.times(Double::from_bits(ONE).minus(alpha));
        let blended = kept.plus(self.target_rate().times(alpha));
        BbrModel { pacing_rate: blended.clamp(self.min_rate, self.max_rate), ..self }
    }

    /// Whether an update is due at `now`.
    pub open spec fn due(self, now: TimeSpan) -> bool {
        !now.since(self.last_ts).as_secs().lt(self.probe_interval)
    }

    /// After the periodic update, where the clock showed `now` when it began,
    /// `bw_now` when the bandwidth was measured and `state_now` when the state was
    /// left. Before the receiver has reported a rate nothing but the time and
    /// the count of bytes are noted.
    pub open spec fn rate_updated(
        self,
        now: TimeSpan,
        bw_now: TimeSpan,
        state_now: TimeSpan,
    ) -> BbrModel {
        let noted = BbrModel { delivered_prev: self.delivered_bytes, last_ts: now, ..self };
        if !self.due(now) {
            self
        } else if self.receiver_delivery_rate.le(Double::from_bits(ZERO)) {
            noted
        } else {
            let dwell = now.since(self.state_start).as_secs();
            noted.bandwidth_updated(self.receiver_delivery_rate, bw_now).transitioned(
                dwell,
                state_now,
            ).paced()
        }
    }

    /// How many seconds a packet takes at the pacing rate.
    pub open spec fn delay_secs(self, packet_size: usize) -> Double {
        Double::of_integer(packet_size as u64).over(self.pacing_rate)
    }

    /// Whether the delay of a packet can be told: the rate is not positive, or
    /// the delay is a number of seconds that has 64 binary digits.
    pub open spec fn delay_defined(self, packet_size: usize) -> bool {
        ||| self.pacing_rate.le(Double::from_bits(ZERO))
        ||| self.delay_secs(packet_size).lt(Double::from_bits(TWO_TO_64))
    }

    /// How long to wait before the next packet: a millisecond where there is no
    /// rate, and no time at all where it would be less than 100 microseconds.
    pub open spec fn delay(self, packet_size: usize) -> TimeSpan {
        if self.pacing_rate.le(Double::from_bits(ZERO)) {
            TimeSpan { secs: 0, nanos: 1_000_000 }
        } else if self.delay_secs(packet_size).lt(Double::from_bits(TEN_THOUSANDTH)) {
            TimeSpan { secs: 0, nanos: 0 }
        } else {
            TimeSpan::from_secs(self.delay_secs(packet_size))
        }
    }

    /// How many bytes may be sent within an interval.
    pub open spec fn budget(self, interval: TimeSpan) -> int {
        if self.pacing_rate.le(Double::from_bits(ZERO)) {
            0
        } else {
            self.pacing_rate.times(interval.as_secs()).cut(usize::MAX as int)
        }
    }

    /// The bandwidth-delay product in whole bytes.
    pub open spec fn bdp(self) -> int {
        self.max_bw.times(self.min_rtt).cut(u64::MAX as int)
    }

    /// How many bytes may be in flight.
    pub open spec fn inflight_limit(self) -> int {
        Double::of_integer(self.bdp() as u64).times(inflight_gain(self.state)).cut(u64::MAX as int)
    }

    /// Whether the losses call for no more than the least redundancy: the
    /// receiver has reported nothing, or less than one packet in a thousand is
    /// lost.
    pub open spec fn lossless(self) -> bool {
        ||| self.receiver_delivery_rate.le(Double::from_bits(ZERO))
        ||| self.loss_rate.lt(Double::from_bits(THOUSANDTH))
    }

    /// The share of redundancy that the losses call for, where `max` is the most:
    /// half as much again as is lost, from a loss of 5% on a fifth more than is
    /// lost, and above a loss of 15% the most.
    pub open spec fn wanted_redundancy(self, max: Double) -> Double {
        if Double::from_bits(FIFTEEN_HUNDREDTHS).lt(self.loss_rate) {
            max
        } else if Double::from_bits(FIVE_HUNDREDTHS).le(self.loss_rate) {
            self.loss_rate.times(Double::from_bits(SIX_FIFTHS))
        } else {
            self.loss_rate.times(Double::from_bits(THREE_HALVES))
        }
    }

    /// The share of redundancy to send, from `min` to `max`.
    pub open spec fn redundancy(self, min: Double, max: Double) -> Double {
        if self.lossless() {
            min
        } else {
            self.wanted_redundancy(max).clamp(min, max)
        }
    }
}

} // verus!
