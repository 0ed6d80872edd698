//! The controller: its scenarios, and its agreement with the same formulas in the
//! arithmetic of the machine.

use sfp::bbr::{BbrLite, BbrState};
use sfp::double::Double;
use sfp::time::TimeSpan;
use std::time::{Duration, Instant};

fn d(x: f64) -> Double {
    Double::from_bits(x.to_bits())
}

fn f(x: Double) -> f64 {
    f64::from_bits(x.to_bits())
}

fn ms(n: u64) -> TimeSpan {
    TimeSpan { secs: n / 1000, nanos: (n % 1000) as u32 * 1_000_000 }
}

fn ns(n: u64) -> TimeSpan {
    TimeSpan { secs: n / 1_000_000_000, nanos: (n % 1_000_000_000) as u32 }
}

fn update(b: &mut BbrLite, now: TimeSpan) {
    b.update_rate_at(now, now, now);
}

#[test]
fn a_new_controller() {
    let b = BbrLite::new(d(0.001), d(300_000_000.0));
    assert_eq!(f(b.pacing_rate), 300_000_000.0);
    assert_eq!(f(b.min_rtt), 0.001);
    assert_eq!(f(b.last_rtt), 0.001);
    assert_eq!(f(b.max_bw), 1_000_000.0);
    assert_eq!(b.delivered_bytes, 0);
    assert_eq!(b.delivered_prev, 0);
    assert_eq!(b.last_ts, ms(0));
    assert_eq!(b.state, BbrState::Startup);
    assert_eq!(b.rtt_sample_count, 0);
    assert_eq!(f(b.loss_rate), 0.0);
    assert_eq!(f(b.probe_interval), 0.05);
}

#[test]
fn sent_bytes_add_up() {
    let mut b = BbrLite::new(d(0.001), d(1e7));
    b.on_packet_sent(1200);
    b.on_packet_sent(0);
    b.on_packet_sent(300);
    assert_eq!(b.delivered_bytes, 1500);
    assert_eq!(b.delivered_prev, 0);
}

#[test]
fn round_trip_times() {
    let mut b = BbrLite::new(d(0.010), d(1e7));
    b.on_rtt_update_at(d(0.0), ms(1), ms(1));
    b.on_rtt_update_at(d(-1.0), ms(1), ms(1));
    assert_eq!(b.rtt_sample_count, 0);
    b.on_rtt_update_at(d(0.008), ms(1), ms(2));
    assert_eq!((f(b.min_rtt), f(b.last_rtt), b.rtt_sample_count), (0.008, 0.008, 1));
    b.on_rtt_update_at(d(0.020), ms(10_002), ms(10_002));
    assert_eq!((f(b.min_rtt), f(b.last_rtt), b.rtt_sample_count), (0.008, 0.020, 2));
    // One nanosecond past ten seconds the shortest one gives way.
    b.on_rtt_update_at(d(0.030), ns(10_002_000_001), ms(10_003));
    assert_eq!((f(b.min_rtt), f(b.last_rtt), b.rtt_sample_count), (0.030, 0.030, 3));
}

#[test]
fn loss_is_smoothed() {
    let mut b = BbrLite::new(d(0.001), d(1e7));
    b.on_loss_update(d(0.1));
    assert_eq!(f(b.loss_rate), 0.05);
    b.on_loss_update(d(0.1));
    assert_eq!(f(b.loss_rate), 0.05 * 0.5 + 0.1 * 0.5);
    b.on_loss_update(d(1.0));
    b.on_loss_update(d(1.0));
    assert!(f(b.loss_rate) >= 0.0 && f(b.loss_rate) <= 1.0);
}

#[test]
fn the_smoothed_loss_lies_between() {
    for (old, new) in [(0.0, 1.0), (0.3, 0.1), (0.1, 0.1), (1e-320, 3e-320), (5e-324, 1e-323)] {
        let mut b = BbrLite::new(d(0.001), d(1e7));
        b.loss_rate = d(old);
        b.on_loss_update(d(new));
        let got = f(b.loss_rate);
        assert!(f64::min(old, new) <= got && got <= f64::max(old, new), "{} {}", old, new);
    }
    // The smallest number has no half.
    let mut b = BbrLite::new(d(0.001), d(1e7));
    b.loss_rate = d(5e-324);
    b.on_loss_update(d(5e-324));
    assert_eq!(f(b.loss_rate), 0.0);
}

#[test]
fn without_a_report_the_rate_is_kept() {
    let mut b = BbrLite::new(d(0.001), d(300_000_000.0));
    b.on_receiver_rate_update(d(0.0));
    b.on_receiver_rate_update(d(-5.0));
    b.on_receiver_rate_update(d(f64::NAN));
    b.on_packet_sent(1000);
    update(&mut b, ms(5000));
    assert_eq!(f(b.pacing_rate), 300_000_000.0);
    assert_eq!(b.state, BbrState::Startup);
    assert_eq!(b.last_ts, ms(5000));
    assert_eq!(b.delivered_prev, 1000);
}

#[test]
fn updates_wait_for_the_interval() {
    let mut b = BbrLite::new(d(0.001), d(1e7));
    b.on_receiver_rate_update(d(2e7));
    update(&mut b, ns(49_999_999));
    assert_eq!(b.last_ts, ms(0));
    assert_eq!(f(b.pacing_rate), 1e7);
    update(&mut b, ms(50));
    assert_eq!(b.last_ts, ms(50));
    let alpha = 0.95;
    assert_eq!(f(b.max_bw), 2e7);
    assert_eq!(f(b.pacing_rate), 1e7 * (1.0 - alpha) + 2e7 * 2.0 * alpha);
}

#[test]
fn the_states_in_turn() {
    let mut b = BbrLite::new(d(0.010), d(1e7));
    b.on_receiver_rate_update(d(2e7));
    update(&mut b, ms(2000));
    assert_eq!(b.state, BbrState::Startup);
    update(&mut b, ms(2100));
    assert_eq!(b.state, BbrState::Cruise);
    update(&mut b, ms(3100));
    assert_eq!(b.state, BbrState::Cruise);
    update(&mut b, ms(3160));
    assert_eq!(b.state, BbrState::ProbeUp);
    update(&mut b, ms(3600));
    assert_eq!(b.state, BbrState::ProbeUp);
    update(&mut b, ms(3700));
    assert_eq!(b.state, BbrState::ProbeDrain);
    update(&mut b, ms(3800));
    assert_eq!(b.state, BbrState::Cruise);
}

#[test]
fn the_start_up_ends_in_a_cruise() {
    let mut b = BbrLite::new(d(0.05), d(1e7));
    b.transition_state(d(2.5), ms(2500));
    assert_eq!(b.state, BbrState::Cruise);
}

#[test]
fn loss_and_queues_end_the_start_up() {
    let mut b = BbrLite::new(d(0.010), d(1e7));
    b.on_loss_update(d(0.11));
    b.transition_state(d(0.1), ms(100));
    assert_eq!(b.state, BbrState::Cruise);

    let mut b = BbrLite::new(d(0.010), d(1e7));
    b.on_rtt_update_at(d(0.020), ms(1), ms(1));
    b.transition_state(d(0.1), ms(100));
    assert_eq!(b.state, BbrState::Startup);
    b.on_rtt_update_at(d(0.021), ms(1), ms(1));
    b.transition_state(d(0.1), ms(100));
    assert_eq!(b.state, BbrState::Cruise);
}

#[test]
fn probing_ends_in_draining() {
    let mut b = BbrLite::new(d(0.010), d(1e7));
    b.state = BbrState::ProbeUp;
    b.on_rtt_update_at(d(0.0125), ms(1), ms(1));
    b.transition_state(d(0.5), ms(100));
    assert_eq!(b.state, BbrState::ProbeUp);
    b.on_rtt_update_at(d(0.0126), ms(1), ms(1));
    b.transition_state(d(0.1), ms(100));
    assert_eq!(b.state, BbrState::ProbeDrain);
    // The queue is still full, and half a second has not passed.
    b.transition_state(d(0.5), ms(600));
    assert_eq!(b.state, BbrState::ProbeDrain);
    b.transition_state(d(0.51), ms(610));
    assert_eq!(b.state, BbrState::Cruise);
}

#[test]
fn cruises_are_longer_with_more_loss() {
    let waits = [(0.0, 1.0), (0.0009, 1.0), (0.001, 2.0), (0.009, 2.0), (0.01, 3.0), (0.09, 3.0)];
    for (loss, secs) in waits {
        let mut b = BbrLite::new(d(0.010), d(1e7));
        b.state = BbrState::Cruise;
        b.loss_rate = d(loss);
        b.transition_state(d(secs), ms(1));
        assert_eq!(b.state, BbrState::Cruise, "{}", loss);
        b.transition_state(d(secs + 0.001), ms(1));
        assert_eq!(b.state, BbrState::ProbeUp, "{}", loss);
    }
    let mut b = BbrLite::new(d(0.010), d(1e7));
    b.state = BbrState::Cruise;
    b.loss_rate = d(0.1);
    b.transition_state(d(100.0), ms(1));
    assert_eq!(b.state, BbrState::Cruise);
}

#[test]
fn an_overestimate_is_brought_down() {
    let mut b = BbrLite::new(d(0.010), d(1e7));
    b.on_receiver_rate_update(d(1e7));
    b.max_bw = d(2.1e7);
    b.transition_state(d(2.5), ms(2500));
    assert_eq!(f(b.max_bw), 1.5e7);

    let mut b = BbrLite::new(d(0.010), d(1e7));
    b.on_receiver_rate_update(d(1e7));
    b.max_bw = d(2e7);
    b.transition_state(d(2.5), ms(2500));
    assert_eq!(f(b.max_bw), 2e7);
}

#[test]
fn the_window_is_two_seconds_long() {
    let mut b = BbrLite::new(d(0.010), d(1e7));
    b.update_max_bw(d(9e7), ms(1000));
    assert_eq!(f(b.max_bw), 9e7);
    b.update_max_bw(d(3e7), ms(2000));
    assert_eq!(f(b.max_bw), 9e7);
    b.update_max_bw(d(2e7), ms(3000));
    assert_eq!(f(b.max_bw), 9e7);
    b.update_max_bw(d(0.0), ns(3_000_000_001));
    assert_eq!(f(b.max_bw), 3e7);
    b.update_max_bw(d(-1.0), ms(60_000));
    assert_eq!(f(b.max_bw), 1e6);
}

#[test]
fn the_rate_has_bounds() {
    let mut b = BbrLite::new(d(0.010), d(1e7));
    b.on_receiver_rate_update(d(f64::INFINITY));
    update(&mut b, ms(100));
    assert_eq!(f(b.pacing_rate), 5e9);
    let mut b = BbrLite::new(d(0.010), d(-1e12));
    b.on_receiver_rate_update(d(1.0));
    update(&mut b, ms(100));
    assert_eq!(f(b.pacing_rate), 1e6);
    let mut b = BbrLite::new(d(0.010), d(f64::NAN));
    b.on_receiver_rate_update(d(1e7));
    update(&mut b, ms(100));
    assert!(b.pacing_rate.is_nan());
}

#[test]
fn delays() {
    let mut b = BbrLite::new(d(0.010), d(1e6));
    assert_eq!(b.pacing_delay(1200), ns(1_200_000));
    assert_eq!(b.pacing_delay(100), ns(100_000));
    assert_eq!(b.pacing_delay(99), ns(0));
    assert_eq!(b.pacing_delay(0), ns(0));
    b.pacing_rate = d(0.0);
    assert_eq!(b.pacing_delay(1200), ms(1));
    b.pacing_rate = d(-3.0);
    assert_eq!(b.pacing_delay(1200), ms(1));
    b.pacing_rate = d(f64::INFINITY);
    assert_eq!(b.pacing_delay(1200), ns(0));
    b.pacing_rate = d(1e6);
    let longest = b.pacing_delay(usize::MAX);
    let want = Duration::from_secs_f64(usize::MAX as f64 / 1e6);
    assert_eq!((longest.secs, longest.nanos), (want.as_secs(), want.subsec_nanos()));
}

#[test]
fn budgets() {
    let mut b = BbrLite::new(d(0.010), d(1e6));
    assert_eq!(b.bytes_per_interval(ms(50)), 50_000);
    assert_eq!(b.bytes_per_interval(ms(0)), 0);
    b.pacing_rate = d(0.0);
    assert_eq!(b.bytes_per_interval(ms(50)), 0);
    b.pacing_rate = d(f64::NAN);
    assert_eq!(b.bytes_per_interval(ms(50)), 0);
    b.pacing_rate = d(f64::INFINITY);
    assert_eq!(b.bytes_per_interval(ms(50)), usize::MAX);
}

#[test]
fn bytes_in_flight() {
    let mut b = BbrLite::new(d(0.010), d(1e6));
    b.max_bw = d(1e8);
    assert_eq!(b.bdp(), 1_000_000);
    for (state, limit) in [
        (BbrState::Startup, 3_000_000),
        (BbrState::ProbeUp, 2_000_000),
        (BbrState::ProbeDrain, 1_000_000),
        (BbrState::Cruise, 1_500_000),
    ] {
        b.state = state;
        assert_eq!(b.inflight_limit(), limit);
        assert!(b.inflight_limit() >= b.bdp());
    }
    b.max_bw = d(1e300);
    assert_eq!(b.bdp(), u64::MAX);
    assert_eq!(b.inflight_limit(), u64::MAX);
}

#[test]
fn redundancy_follows_the_loss() {
    let mut b = BbrLite::new(d(0.010), d(1e6));
    let ask = |b: &BbrLite| f(b.recommended_redundancy(d(0.2), d(0.05), d(0.70)));
    b.loss_rate = d(0.5);
    assert_eq!(ask(&b), 0.05);
    b.on_receiver_rate_update(d(1e7));
    assert_eq!(ask(&b), 0.70);
    // No loss: the least redundancy.
    b.loss_rate = d(0.0);
    assert_eq!(ask(&b), 0.05);
    b.loss_rate = d(0.0009);
    assert_eq!(ask(&b), 0.05);
    // Half as much again as is lost.
    b.loss_rate = d(0.04);
    assert_eq!(ask(&b), 0.04 * 1.5);
    b.loss_rate = d(0.001);
    assert_eq!(ask(&b), 0.05);
    // At 5% a fifth more than is lost: 6%.
    b.loss_rate = d(0.05);
    assert_eq!(ask(&b), 0.06);
    b.loss_rate = d(0.1);
    assert_eq!(ask(&b), 0.1 * 1.2);
    b.loss_rate = d(0.15);
    assert_eq!(ask(&b), 0.15 * 1.2);
    b.loss_rate = d(0.151);
    assert_eq!(ask(&b), 0.70);
    // Where the factor drops, more loss can mean less redundancy.
    b.loss_rate = d(0.0499);
    assert!(ask(&b) > 0.06);
    b.loss_rate = d(f64::NAN);
    assert!(ask(&b).is_nan());
}

#[test]
fn the_clock_decides_whether_an_update_is_due() {
    let mut b = BbrLite::new(d(0.010), d(1e7));
    b.on_receiver_rate_update(d(2e7));
    b.probe_interval = d(3600.0);
    b.update_rate();
    assert_eq!(f(b.pacing_rate), 1e7);
    assert_eq!(b.last_ts, ms(0));
    b.probe_interval = d(0.05);
    let start = Instant::now();
    while start.elapsed() < Duration::from_millis(60) {}
    b.update_rate();
    assert_eq!(f(b.pacing_rate), 1e7 * (1.0 - 0.95) + 4e7 * 0.95);
    assert!(f(b.last_ts.as_secs()) >= 0.06);
}

#[test]
fn the_clock_dates_the_shortest_round_trip_time() {
    let mut b = BbrLite::new(d(0.010), d(1e7));
    b.on_rtt_update(d(0.020));
    assert_eq!((f(b.min_rtt), f(b.last_rtt)), (0.010, 0.020));
    b.on_rtt_update(d(0.005));
    assert_eq!((f(b.min_rtt), f(b.last_rtt)), (0.005, 0.005));
    b.on_rtt_update(d(0.0));
    assert_eq!(b.rtt_sample_count, 2);
}

#[test]
fn states_end_to_the_nanosecond() {
    // Start-up: two seconds. The queue stays full, so that draining takes its time.
    let mut b = BbrLite::new(d(0.010), d(1e7));
    b.on_receiver_rate_update(d(2e7));
    b.on_rtt_update_at(d(0.0115), ms(0), ms(0));
    update(&mut b, ns(1_900_000_000));
    update(&mut b, ns(2_000_000_000));
    assert_eq!(b.state, BbrState::Startup);
    b.probe_interval = d(0.0);
    update(&mut b, ns(2_000_000_001));
    assert_eq!(b.state, BbrState::Cruise);
    // Cruising without loss: one second.
    update(&mut b, ns(3_000_000_001));
    assert_eq!(b.state, BbrState::Cruise);
    update(&mut b, ns(3_000_000_002));
    assert_eq!(b.state, BbrState::ProbeUp);
    // Probing: half a second.
    update(&mut b, ns(3_500_000_002));
    assert_eq!(b.state, BbrState::ProbeUp);
    update(&mut b, ns(3_500_000_003));
    assert_eq!(b.state, BbrState::ProbeDrain);
    // Draining: half a second.
    update(&mut b, ns(4_000_000_003));
    assert_eq!(b.state, BbrState::ProbeDrain);
    update(&mut b, ns(4_000_000_004));
    assert_eq!(b.state, BbrState::Cruise);
}

#[test]
fn each_state_aims_at_its_target() {
    // Updates towards a target that stays the same come as close to it as rounding
    // lets them.
    for (state, gain) in [
        (BbrState::Startup, 2.0),
        (BbrState::ProbeUp, 1.5),
        (BbrState::ProbeDrain, 0.5),
        (BbrState::Cruise, 1.0),
    ] {
        let mut b = BbrLite::new(d(0.010), d(1e8));
        b.on_rtt_update_at(d(0.012), ms(0), ms(0));
        b.on_receiver_rate_update(d(4e7));
        b.probe_interval = d(0.0);
        b.state = state;
        for i in 1..100 {
            update(&mut b, ms(i));
        }
        assert_eq!(b.state, state);
        assert!((f(b.pacing_rate) - 4e7 * gain).abs() < 1.0);
    }
}

#[test]
fn delays_and_budgets_grow() {
    let mut b = BbrLite::new(d(0.010), d(1.3e6));
    let mut last = ns(0);
    for size in (0..100_000).step_by(371) {
        let wait = b.pacing_delay(size);
        assert!((wait.secs, wait.nanos) >= (last.secs, last.nanos));
        last = wait;
    }
    let mut last = 0;
    for i in 0..2_000 {
        let n = b.bytes_per_interval(ns(i * 123_457));
        assert!(n >= last);
        last = n;
    }
    let mut last = 0;
    for i in 0..2_000 {
        b.pacing_rate = d(i as f64 * 1234.5);
        let n = b.bytes_per_interval(ms(50));
        assert!(n >= last);
        last = n;
    }
    // So many seconds that fractions of them are rounded away.
    b.pacing_rate = d(1.0);
    let much = TimeSpan { secs: 9007199254740993, nanos: 999_999_999 };
    let more = TimeSpan { secs: 9007199254740994, nanos: 0 };
    assert!(b.bytes_per_interval(much) <= b.bytes_per_interval(more));
}

#[test]
fn the_window_over_a_history() {
    let mut b = BbrLite::new(d(0.010), d(1e7));
    let mut history: Vec<(f64, u64)> = Vec::new();
    for i in 0..300u64 {
        let (rate, at) = (1e6 + ((i * 7919) % 1013) as f64 * 1e5, i * 97);
        // Rates of zero or below and what is not a number are no samples.
        let rate = match i % 7 {
            3 => 0.0,
            4 => -rate,
            5 => f64::NAN,
            _ => rate,
        };
        b.update_max_bw(d(rate), ms(at));
        if rate > 0.0 {
            history.push((rate, at));
        }
        let recent = history.iter().filter(|x| at - x.1 <= 2000);
        assert_eq!(f(b.max_bw), recent.map(|x| x.0).fold(1e6, f64::max));
    }
}

#[test]
fn what_can_be_asked_for() {
    let mut b = BbrLite::new(d(0.010), d(1e6));
    assert!(b.has_delay(usize::MAX));
    b.pacing_rate = d(f64::NAN);
    assert!(!b.has_delay(1));
    b.pacing_rate = d(5e-324);
    assert!(!b.has_delay(1));
    assert!(b.has_delay(0));
    b.pacing_rate = d(-1.0);
    assert!(b.has_delay(1));
    b.loss_rate = d(0.2);
    assert!(b.lossless());
    b.on_receiver_rate_update(d(1e7));
    assert!(!b.lossless());
    b.loss_rate = d(0.0005);
    assert!(b.lossless());
    // Bounds that are the wrong way round do not matter without loss.
    assert_eq!(f(b.recommended_redundancy(d(0.0), d(0.9), d(0.1))), 0.9);
}

/// The controller in the arithmetic of the machine, with times in nanoseconds.
struct Machine {
    pacing_rate: f64,
    min_rtt: f64,
    last_rtt: f64,
    max_bw: f64,
    last_ts: u64,
    state: BbrState,
    state_start: u64,
    samples: Vec<(f64, u64)>,
    min_rtt_at: u64,
    loss_rate: f64,
    reported: f64,
}

fn secs(from: u64, to: u64) -> f64 {
    Duration::from_nanos(to.saturating_sub(from)).as_secs_f64()
}

impl Machine {
    fn rtt(&mut self, rtt: f64, now: u64) {
        if rtt <= 0.0 {
            return;
        }
        self.last_rtt = rtt;
        if rtt < self.min_rtt || secs(self.min_rtt_at, now) > 10.0 {
            self.min_rtt = rtt;
            self.min_rtt_at = now;
        }
    }

    fn update(&mut self, now: u64) {
        if secs(self.last_ts, now) < 0.05 {
            return;
        }
        self.last_ts = now;
        if self.reported <= 0.0 {
            return;
        }
        self.samples.push((self.reported, now));
        while !self.samples.is_empty() && secs(self.samples[0].1, now) > 2.0 {
            self.samples.remove(0);
        }
        self.max_bw = self.samples.iter().map(|s| s.0).fold(1e6, f64::max);
        self.step(secs(self.state_start, now), now);
        let (gain, alpha) = match self.state {
            BbrState::Startup => (2.0, 0.95),
            BbrState::ProbeUp => (1.5, 0.85),
            BbrState::ProbeDrain => (0.5, 0.8),
            BbrState::Cruise => (1.0, 0.7),
        };
        let rate = self.pacing_rate * (1.0 - alpha) + self.max_bw * gain * alpha;
        self.pacing_rate = rate.clamp(1e6, 5e9);
    }

    fn step(&mut self, dwell: f64, now: u64) {
        let ratio = if self.min_rtt > 0.0 { self.last_rtt / self.min_rtt } else { 1.0 };
        let loss = self.loss_rate;
        let next = match self.state {
            BbrState::Startup if dwell > 2.0 || loss > 0.05 || ratio > 2.0 => {
                if self.reported > 0.0 && self.max_bw > self.reported * 2.0 {
                    self.max_bw = self.reported * 1.5;
                }
                BbrState::Cruise
            }
            BbrState::ProbeUp if ratio > 1.25 || dwell > 0.5 || loss > 0.05 => BbrState::ProbeDrain,
            BbrState::ProbeDrain if ratio < 1.1 || dwell > 0.5 => BbrState::Cruise,
            BbrState::Cruise => {
                let wait = if loss < 0.001 {
                    1.0
                } else if loss < 0.01 {
                    2.0
                } else {
                    3.0
                };
                if dwell > wait && loss < 0.1 {
                    BbrState::ProbeUp
                } else {
                    return;
                }
            }
            _ => return,
        };
        self.state = next;
        self.state_start = now;
    }
}

#[test]
fn long_runs_agree_with_the_machine() {
    let mut seed: u64 = 7;
    let mut draw = |n: u64| {
        seed = seed.wrapping_mul(6364136223846793005).wrapping_add(1442695040888963407);
        (seed >> 33) % n
    };
    let mut seen = [false; 4];
    for _ in 0..40 {
        let rtt = (1 + draw(50)) as f64 / 1000.0;
        let rate = (1 + draw(300_000_000)) as f64;
        let mut b = BbrLite::new(d(rtt), d(rate));
        let mut m = Machine {
            pacing_rate: rate,
            min_rtt: rtt,
            last_rtt: rtt,
            max_bw: 1e6,
            last_ts: 0,
            state: BbrState::Startup,
            state_start: 0,
            samples: Vec::new(),
            min_rtt_at: 0,
            loss_rate: 0.0,
            reported: 0.0,
        };
        let lossy = draw(3);
        let mut now: u64 = 0;
        for _ in 0..400 {
            now += draw(120_000_000);
            match draw(6) {
                0 => {
                    let loss = draw(1 + 100 * lossy) as f64 / 1000.0;
                    b.on_loss_update(d(loss));
                    m.loss_rate = m.loss_rate * 0.5 + loss * 0.5;
                }
                1 => {
                    let got = draw(400_000_000) as f64 / 3.0;
                    b.on_receiver_rate_update(d(got));
                    if got > 0.0 {
                        m.reported = got;
                    }
                }
                2 => {
                    let rtt = rtt * (100 + draw(40)) as f64 / 100.0;
                    b.on_rtt_update_at(d(rtt), ns(now), ns(now));
                    m.rtt(rtt, now);
                }
                _ => {
                    update(&mut b, ns(now));
                    m.update(now);
                }
            }
            seen[b.state as usize] = true;
            assert_eq!(b.state, m.state);
            assert_eq!(b.pacing_rate.to_bits(), m.pacing_rate.to_bits());
            assert_eq!(b.max_bw.to_bits(), m.max_bw.to_bits());
            assert_eq!(b.min_rtt.to_bits(), m.min_rtt.to_bits());
            assert_eq!(b.last_rtt.to_bits(), m.last_rtt.to_bits());
            assert_eq!(b.loss_rate.to_bits(), m.loss_rate.to_bits());
            assert_eq!(b.last_ts, ns(m.last_ts));
            assert_eq!(b.bdp(), (m.max_bw * m.min_rtt) as u64);
            let interval = Duration::from_millis(50).as_secs_f64();
            assert_eq!(b.bytes_per_interval(ms(50)), (m.pacing_rate * interval) as usize);
            let wait = 100_000.0 / m.pacing_rate;
            let want = if wait < 0.0001 { Duration::ZERO } else { Duration::from_secs_f64(wait) };
            let got = b.pacing_delay(100_000);
            assert_eq!((got.secs, got.nanos), (want.as_secs(), want.subsec_nanos()));
        }
    }
    assert_eq!(seen, [true; 4]);
}
