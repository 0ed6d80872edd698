//! The controller: a pacing rate from the bandwidth that the receiver reports,
//! with a gain that cycles through four states.

use std::collections::VecDeque;
use std::time::Instant;
use vstd::prelude::*;

use crate::decimals::{
    EIGHTY_FIVE_HUNDREDTHS, EIGHT_TENTHS, ELEVEN_TENTHS, FIFTEEN_HUNDREDTHS, FIVE_BILLION,
    FIVE_HUNDREDTHS, FIVE_QUARTERS, HALF, HUNDREDTH, MILLION, NINETY_FIVE_HUNDREDTHS, ONE,
    SEVEN_TENTHS, SIX_FIFTHS, TEN, TENTH, TEN_THOUSANDTH, THOUSANDTH, THREE, THREE_HALVES, TWO,
    ZERO,
};
use crate::double::Double;
use crate::magnitude::TWO_TO_64;
use crate::model;
use crate::model::BbrModel;
use crate::time;
use crate::time::TimeSpan;

verus! {

/// What the controller is doing.
#[derive(Clone, Copy, Debug, PartialEq, Eq, Structural)]
pub enum BbrState {
    /// Finding the bandwidth fast, at the start.
    Startup,
    /// Sending more than the bandwidth, to see whether there is more of it.
    ProbeUp,
    /// Sending less than the bandwidth, to drain the queue.
    ProbeDrain,
    /// Sending at the bandwidth.
    Cruise,
}

/// A bandwidth and when it was measured.
#[derive(Clone, Copy, Debug)]
pub struct BwSample {
    pub bw: Double,
    pub time: TimeSpan,
}

/// A congestion controller. Rates are in bytes per second, and times are spans
/// since the controller was made.
#[derive(Debug)]
pub struct BbrLite {
    /// The current pacing rate.
    pub pacing_rate: Double,
    /// The shortest round-trip time, in seconds.
    pub min_rtt: Double,
    /// The last round-trip time, in seconds.
    pub last_rtt: Double,
    /// The largest bandwidth of the window.
    pub max_bw: Double,
    /// How many bytes were sent.
    pub delivered_bytes: u64,
    /// How many bytes had been sent at the last update.
    pub delivered_prev: u64,
    /// When the last update was.
    pub last_ts: TimeSpan,
    /// What the controller is doing.
    pub state: BbrState,
    /// How many round-trip times were measured.
    pub rtt_sample_count: u64,
    /// The smoothed loss rate, from 0 to 1.
    pub loss_rate: Double,
    /// How many seconds lie between two updates.
    pub probe_interval: Double,
    /// What only the controller itself changes.
    pub tracker: Tracker,
}

/// What a controller keeps to itself.
#[derive(Debug)]
pub struct Tracker {
    state_start: TimeSpan,
    bw_samples: VecDeque<BwSample>,
    bw_window_secs: Double,
    min_rtt_timestamp: TimeSpan,
    receiver_delivery_rate: Double,
    min_rate: Double,
    max_rate: Double,
    made_at: Instant,
}

impl Tracker {
    /// When the current state was entered.
    pub closed spec fn entered(&self) -> TimeSpan {
        self.state_start
    }

    /// The samples of the window, oldest first.
    pub closed spec fn samples(&self) -> Seq<BwSample> {
        self.bw_samples@
    }

    /// The length of the window in seconds.
    pub closed spec fn window(&self) -> Double {
        self.bw_window_secs
    }

    /// When the shortest round-trip time was measured.
    pub closed spec fn min_rtt_noted(&self) -> TimeSpan {
        self.min_rtt_timestamp
    }

    /// The rate that the receiver reported, or zero before it has.
    pub closed spec fn reported(&self) -> Double {
        self.receiver_delivery_rate
    }

    /// The lowest and the highest pacing rate.
    pub closed spec fn bounds(&self) -> (Double, Double) {
        (self.min_rate, self.max_rate)
    }

    /// The instant that times are counted from.
    pub closed spec fn origin(&self) -> Instant {
        self.made_at
    }
}

impl View for BbrLite {
    type V = BbrModel;

    open spec fn view(&self) -> BbrModel {
        BbrModel {
            pacing_rate: self.pacing_rate,
            min_rtt: self.min_rtt,
            last_rtt: self.last_rtt,
            max_bw: self.max_bw,
            delivered_bytes: self.delivered_bytes,
            delivered_prev: self.delivered_prev,
            last_ts: self.last_ts,
            state: self.state,
            state_start: self.tracker.entered(),
            bw_samples: self.tracker.samples(),
            bw_window_secs: self.tracker.window(),
            min_rtt_timestamp: self.tracker.min_rtt_noted(),
            rtt_sample_count: self.rtt_sample_count,
            loss_rate: self.loss_rate,
            receiver_delivery_rate: self.tracker.reported(),
            probe_interval: self.probe_interval,
            min_rate: self.tracker.bounds().0,
            max_rate: self.tracker.bounds().1,
            made_at: self.tracker.origin(),
        }
    }
}

impl BbrLite {
    /// A controller that starts with the given round-trip time and rate.
    pub fn new(initial_rtt: Double, initial_rate: Double) -> (r: BbrLite)
        ensures
            r@ == BbrModel::initial(initial_rtt, initial_rate, r@.made_at),
            time::was_present(r@.made_at),
            r@.wf(),
    {
        let made_at = time::present();
        let start = TimeSpan { secs: 0, nanos: 0 };
        BbrLite {
            pacing_rate: initial_rate,
            min_rtt: initial_rtt,
            last_rtt: initial_rtt,
            max_bw: Double::from_bits(MILLION),
            delivered_bytes: 0,
            delivered_prev: 0,
            last_ts: start,
            state: BbrState::Startup,
            rtt_sample_count: 0,
            loss_rate: Double::from_bits(ZERO),
            probe_interval: Double::from_bits(FIVE_HUNDREDTHS),
            tracker: Tracker {
                state_start: start,
                bw_samples: VecDeque::new(),
                bw_window_secs: Double::from_bits(TWO),
                min_rtt_timestamp: start,
                receiver_delivery_rate: Double::from_bits(ZERO),
                min_rate: Double::from_bits(MILLION),
                max_rate: Double::from_bits(FIVE_BILLION),
                made_at,
            },
        }
    }

    /// Notes that a packet was sent.
    pub fn on_packet_sent(&mut self, bytes: usize)
        requires
            old(self).delivered_bytes + bytes <= u64::MAX,
        ensures
            final(self)@ == old(self)@.sent(bytes as int),
            old(self)@.wf() ==> final(self)@.wf(),
    {
        self.delivered_bytes = self.delivered_bytes + bytes as u64;
    }

    /// Notes a round-trip time, given in seconds. The clock is read to ask for the
    /// age of the shortest one and to date a new one, each time for the time since
    /// the controller was made, and the result is that of `on_rtt_update_at` for
    /// what it showed.
    pub fn on_rtt_update(&mut self, rtt: Double)
        requires
            old(self)@.wf(),
            old(self).rtt_sample_count < u64::MAX || rtt.le(Double::from_bits(ZERO)),
        ensures
            exists|now: TimeSpan, then: TimeSpan|
                time::was_read(old(self)@.made_at, now) && time::was_read(
                    old(self)@.made_at,
                    then,
                ) && final(self)@ == #[trigger] old(self)@.rtt_updated(rtt, now, then),
            final(self)@.wf(),
    {
        let now = time::read_since(&self.tracker.made_at);
        let then = time::read_since(&self.tracker.made_at);
        self.on_rtt_update_at(rtt, now, then);
    }

    /// Notes a round-trip time, given in seconds, where the clock showed `now`
    /// when the age of the shortest one was asked for and `then` when a new one was
    /// noted.
    pub fn on_rtt_update_at(&mut self, rtt: Double, now: TimeSpan, then: TimeSpan)
        requires
            old(self)@.wf(),
            now.wf(),
            then.wf(),
            old(self).rtt_sample_count < u64::MAX || rtt.le(Double::from_bits(ZERO)),
        ensures
            final(self)@ == old(self)@.rtt_updated(rtt, now, then),
            final(self)@.wf(),
    {
        if rtt.le(Double::from_bits(ZERO)) {
            return;
        }
        self.last_rtt = rtt;
        self.rtt_sample_count = self.rtt_sample_count + 1;
        if rtt.lt(self.min_rtt)
            || Double::from_bits(TEN).lt(now.since(self.tracker.min_rtt_timestamp).as_secs()) {
            self.min_rtt = rtt;
            self.tracker.min_rtt_timestamp = then;
        }
    }

    /// Notes a loss rate, smoothing it with those before it.
    pub fn on_loss_update(&mut self, loss_rate: Double)
        ensures
            final(self)@ == old(self)@.loss_updated(loss_rate),
            old(self)@.wf() ==> final(self)@.wf(),
    {
        let half = Double::from_bits(HALF);
        self.loss_rate = self.loss_rate.times(half).plus(loss_rate.times(half));
    }

    /// Notes the rate at which the receiver gets data.
    pub fn on_receiver_rate_update(&mut self, rate_bytes_per_sec: Double)
        ensures
            final(self)@ == old(self)@.receiver_rate_updated(rate_bytes_per_sec),
            old(self)@.wf() ==> final(self)@.wf(),
    {
        if Double::from_bits(ZERO).lt(rate_bytes_per_sec) {
            self.tracker.receiver_delivery_rate = rate_bytes_per_sec;
        }
    }

    /// Takes a delivery rate, measured at `now`, into the window of samples.
    pub fn update_max_bw(&mut self, delivery_rate: Double, now: TimeSpan)
        requires
            old(self)@.wf(),
            now.wf(),
        ensures
            final(self)@ == old(self)@.bandwidth_updated(delivery_rate, now),
            final(self)@.wf(),
    {
        if Double::from_bits(ZERO).lt(delivery_rate) {
            self.tracker.bw_samples.push_back(BwSample { bw: delivery_rate, time: now });
        }
        let ghost all = self.tracker.bw_samples@;
        proof {
            assert forall|i: int| 0 <= i < all.len() implies Double::from_bits(ZERO).lt(
                (#[trigger] all[i]).bw,
            ) && all[i].time.wf() by {
                if i < old(self)@.bw_samples.len() {
                    assert(all[i] == old(self)@.bw_samples[i]);
                }
            }
            let _ = model::live_is_suffix(all, now, self.tracker.bw_window_secs);
        }
        drop_expired(&mut self.tracker.bw_samples, now, self.tracker.bw_window_secs);
        self.max_bw = peak_bandwidth(&self.tracker.bw_samples, self.tracker.min_rate);
    }

    /// Leaves the current state, which has lasted for `state_duration` seconds,
    /// where it is time to. The next one then starts at `now`.
    pub fn transition_state(&mut self, state_duration: Double, now: TimeSpan)
        requires
            now.wf(),
        ensures
            final(self)@ == old(self)@.transitioned(state_duration, now),
            old(self)@.wf() ==> final(self)@.wf(),
    {
        let queue_ratio: Double = if Double::from_bits(ZERO).lt(self.min_rtt) {
            self.last_rtt.over(self.min_rtt)
        } else {
            Double::from_bits(ONE)
        };
        match self.state {
            BbrState::Startup => {
                if Double::from_bits(TWO).lt(state_duration)
                    || Double::from_bits(FIVE_HUNDREDTHS).lt(self.loss_rate)
                    || Double::from_bits(TWO).lt(queue_ratio) {
                    self.state = BbrState::Cruise;
                    self.tracker.state_start = now;
                    let reported: Double = self.tracker.receiver_delivery_rate;
                    if Double::from_bits(ZERO).lt(reported)
                        && reported.times(Double::from_bits(TWO)).lt(self.max_bw) {
                        self.max_bw = reported.times(Double::from_bits(THREE_HALVES));
                    }
                }
            },
            BbrState::ProbeUp => {
                if Double::from_bits(FIVE_QUARTERS).lt(queue_ratio)
                    || Double::from_bits(HALF).lt(state_duration)
                    || Double::from_bits(FIVE_HUNDREDTHS).lt(self.loss_rate) {
                    self.state = BbrState::ProbeDrain;
                    self.tracker.state_start = now;
                }
            },
            BbrState::ProbeDrain => {
                if queue_ratio.lt(Double::from_bits(ELEVEN_TENTHS))
                    || Double::from_bits(HALF).lt(state_duration) {
                    self.state = BbrState::Cruise;
                    self.tracker.state_start = now;
                }
            },
            BbrState::Cruise => {
                let cruise_secs: Double = if self.loss_rate.lt(Double::from_bits(THOUSANDTH)) {
                    Double::from_bits(ONE)
                } else if self.loss_rate.lt(Double::from_bits(HUNDREDTH)) {
                    Double::from_bits(TWO)
                } else {
                    Double::from_bits(THREE)
                };
                if cruise_secs.lt(state_duration) && self.loss_rate.lt(Double::from_bits(TENTH)) {
                    self.state = BbrState::ProbeUp;
                    self.tracker.state_start = now;
                }
            },
        }
    }

    /// The periodic update. The clock is read to see whether it is due, to date the
    /// bandwidth and to date a new state, each time for the time since the
    /// controller was made, and the result is that of `update_rate_at` for what it
    /// showed.
    pub fn update_rate(&mut self)
        requires
            old(self)@.wf(),
        ensures
            exists|now: TimeSpan, bw_now: TimeSpan, state_now: TimeSpan|
                time::was_read(old(self)@.made_at, now) && time::was_read(
                    old(self)@.made_at,
                    bw_now,
                ) && time::was_read(old(self)@.made_at, state_now) && final(self)@
                    == #[trigger] old(self)@.rate_updated(now, bw_now, state_now),
            final(self)@.wf(),
    {
        let now = time::read_since(&self.tracker.made_at);
        let bw_now = time::read_since(&self.tracker.made_at);
        let state_now = time::read_since(&self.tracker.made_at);
        self.update_rate_at(now, bw_now, state_now);
    }

    /// The periodic update, where the clock showed `now` when it began, `bw_now`
    /// when the bandwidth was measured and `state_now` when a state was left.
    pub fn update_rate_at(&mut self, now: TimeSpan, bw_now: TimeSpan, state_now: TimeSpan)
        requires
            old(self)@.wf(),
            now.wf(),
            bw_now.wf(),
            state_now.wf(),
        ensures
            final(self)@ == old(self)@.rate_updated(now, bw_now, state_now),
            final(self)@.wf(),
    {
        if now.since(self.last_ts).as_secs().lt(self.probe_interval) {
            return;
        }
        self.delivered_prev = self.delivered_bytes;
        self.last_ts = now;
        // A rate that only the sender knows would feed on itself.
        if self.tracker.receiver_delivery_rate.le(Double::from_bits(ZERO)) {
            return;
        }
        self.update_max_bw(self.tracker.receiver_delivery_rate, bw_now);
        let state_duration: Double = now.since(self.tracker.state_start).as_secs();
        self.transition_state(state_duration, state_now);
        let gain: Double = match self.state {
            BbrState::Startup => Double::from_bits(TWO),
            BbrState::ProbeUp => Double::from_bits(THREE_HALVES),
            BbrState::ProbeDrain => Double::from_bits(HALF),
            BbrState::Cruise => Double::from_bits(ONE),
        };
        let target_rate: Double = self.max_bw.times(gain);
        let alpha: Double = match self.state {
            BbrState::Startup => Double::from_bits(NINETY_FIVE_HUNDREDTHS),
            BbrState::ProbeUp => Double::from_bits(EIGHTY_FIVE_HUNDREDTHS),
            BbrState::ProbeDrain => Double::from_bits(EIGHT_TENTHS),
            BbrState::Cruise => Double::from_bits(SEVEN_TENTHS),
        };
        let kept: Double = self.pacing_rate.times(Double::from_bits(ONE).minus(alpha));
        let blended: Double = kept.plus(target_rate.times(alpha));
        self.pacing_rate = blended.clamp(self.tracker.min_rate, self.tracker.max_rate);
    }

    /// Whether the delay of a packet can be told.
    pub fn has_delay(&self, packet_size: usize) -> (r: bool)
        ensures
            r == self@.delay_defined(packet_size),
    {
        self.pacing_rate.le(Double::from_bits(ZERO)) || Double::of_integer(
            packet_size as u64,
        ).over(self.pacing_rate).lt(Double::from_bits(TWO_TO_64))
    }

    /// How long to wait before the next packet.
    pub fn pacing_delay(&self, packet_size: usize) -> (r: TimeSpan)
        requires
            self@.delay_defined(packet_size),
        ensures
            r == self@.delay(packet_size),
            r.wf(),
    {
        if self.pacing_rate.le(Double::from_bits(ZERO)) {
            return TimeSpan { secs: 0, nanos: 1_000_000 };
        }
        let delay_secs: Double = Double::of_integer(packet_size as u64).over(self.pacing_rate);
        if delay_secs.lt(Double::from_bits(TEN_THOUSANDTH)) {
            TimeSpan { secs: 0, nanos: 0 }
        } else {
            TimeSpan::from_secs(delay_secs)
        }
    }

    /// How many bytes may be sent within an interval.
    pub fn bytes_per_interval(&self, interval: TimeSpan) -> (n: usize)
        ensures
            n == self@.budget(interval),
    {
        if self.pacing_rate.le(Double::from_bits(ZERO)) {
            return 0;
        }
        self.pacing_rate.times(interval.as_secs()).to_usize()
    }

    /// The bandwidth-delay product in bytes.
    pub fn bdp(&self) -> (n: u64)
        ensures
            n == self@.bdp(),
    {
        self.max_bw.times(self.min_rtt).to_u64()
    }

    /// How many bytes may be in flight.
    pub fn inflight_limit(&self) -> (n: u64)
        ensures
            n == self@.inflight_limit(),
    {
        let gain: Double = match self.state {
            BbrState::Startup => Double::from_bits(THREE),
            BbrState::ProbeUp => Double::from_bits(TWO),
            BbrState::ProbeDrain => Double::from_bits(ONE),
            BbrState::Cruise => Double::from_bits(THREE_HALVES),
        };
        Double::of_integer(self.bdp()).times(gain).to_u64()
    }

    /// Whether the losses call for no more than the least redundancy.
    pub fn lossless(&self) -> (r: bool)
        ensures
            r == self@.lossless(),
    {
        self.tracker.receiver_delivery_rate.le(Double::from_bits(ZERO)) || self.loss_rate.lt(
            Double::from_bits(THOUSANDTH),
        )
    }

    /// The share of redundancy to send, from `min` to `max`, as the losses call
    /// for it. What the receiver misses beyond that it asks for again, so the
    /// base share counts for nothing.
    pub fn recommended_redundancy(&self, _base: Double, min: Double, max: Double) -> (r: Double)
        requires
            self@.lossless() || min.le(max),
        ensures
            r == self@.redundancy(min, max),
    {
        if self.lossless() {
            return min;
        }
        let ratio: Double = if Double::from_bits(FIFTEEN_HUNDREDTHS).lt(self.loss_rate) {
            max
        } else if Double::from_bits(FIVE_HUNDREDTHS).le(self.loss_rate) {
            self.loss_rate.times(Double::from_bits(SIX_FIFTHS))
        } else {
            self.loss_rate.times(Double::from_bits(THREE_HALVES))
        };
        ratio.clamp(min, max)
    }
}

/// Takes the expired samples off the front.
fn drop_expired(samples: &mut VecDeque<BwSample>, now: TimeSpan, window: Double)
    requires
        now.wf(),
        forall|i: int| 0 <= i < old(samples)@.len() ==> (#[trigger] old(samples)@[i]).time.wf(),
    ensures
        final(samples)@ == model::live(old(samples)@, now, window),
{
    while samples.len() > 0 && window.lt(now.since(samples[0].time).as_secs())
        invariant
            now.wf(),
            forall|i: int| 0 <= i < samples@.len() ==> (#[trigger] samples@[i]).time.wf(),
            model::live(samples@, now, window) == model::live(old(samples)@, now, window),
        decreases samples@.len(),
    {
        let _ = samples.pop_front();
    }
}

/// The largest bandwidth among samples, or `floor` where that is larger.
fn peak_bandwidth(samples: &VecDeque<BwSample>, floor: Double) -> (max: Double)
    ensures
        max == model::peak(samples@, floor),
{
    let mut max: Double = floor;
    let mut i: usize = 0;
    while i < samples.len()
        invariant
            i <= samples@.len(),
            max == model::peak(samples@.take(i as int), floor),
        decreases samples@.len() - i,
    {
        proof {
            assert(samples@.take(i + 1).drop_last() == samples@.take(i as int));
        }
        max = max.larger(samples[i].bw);
        i = i + 1;
    }
    proof {
        assert(samples@.take(i as int) == samples@);
    }
    max
}

} // verus!
