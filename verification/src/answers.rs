//! What the controller answers, told by what it knows.

use vstd::arithmetic::power2::*;
use vstd::prelude::*;

use crate::arithmetic;
use crate::bbr::BbrState;
use crate::decimals;
use crate::decimals::{
    FIFTEEN_HUNDREDTHS, FIVE_HUNDREDTHS, ONE, SIX_FIFTHS, TEN_THOUSANDTH, THOUSANDTH, THREE,
    THREE_HALVES, TWO, ZERO,
};
use crate::double::Double;
use crate::magnitude;
use crate::magnitude::TWO_TO_64;
use crate::model::BbrModel;
use crate::order;
use crate::rounding;
use crate::rounding::{INFINITE, SCALE};
use crate::time::TimeSpan;

verus! {

/// Once the receiver has reported a rate, whatever it is, the loss sets the
/// redundancy, within bounds: above 15% the most, from 5% on 1.2 times the loss, from
/// 0.1% on 1.5 times the loss, and below that the least.
pub proof fn redundancy_matches_the_loss(s: BbrModel, min: Double, max: Double)
    requires
        !s.receiver_delivery_rate.le(Double::from_bits(ZERO)),
    ensures
        ({
            let r = s.redundancy(min, max);
            let loss = s.loss_rate;
            &&& loss.lt(Double::from_bits(THOUSANDTH)) ==> r == min
            &&& Double::from_bits(THOUSANDTH).le(loss) && loss.lt(
                Double::from_bits(FIVE_HUNDREDTHS),
            ) ==> r == loss.times(Double::from_bits(THREE_HALVES)).clamp(min, max)
            &&& Double::from_bits(FIVE_HUNDREDTHS).le(loss) && loss.le(
                Double::from_bits(FIFTEEN_HUNDREDTHS),
            ) ==> r == loss.times(Double::from_bits(SIX_FIFTHS)).clamp(min, max)
            &&& Double::from_bits(FIFTEEN_HUNDREDTHS).lt(loss) && min.le(max) ==> r == max
            &&& loss.is_nan() ==> r.is_nan()
            &&& s.lossless() <==> loss.lt(Double::from_bits(THOUSANDTH))
        }),
{
}

/// In exact numbers, once the receiver has reported a rate: from a loss of 5% to one of
/// 15% the redundancy is 120 hundredths of the loss, and from 0.1% to 5% it is 150,
/// within bounds, off by less than one part in two to the power of 50.
pub proof fn redundancy_is_a_multiple_of_the_loss(s: BbrModel, min: Double, max: Double)
    requires
        !s.receiver_delivery_rate.le(Double::from_bits(ZERO)),
        order::unsigned(min),
        order::unsigned(max),
        min.le(max),
        Double::from_bits(THOUSANDTH).le(s.loss_rate),
        s.loss_rate.le(Double::from_bits(FIFTEEN_HUNDREDTHS)),
    ensures
        ({
            let r = s.redundancy(min, max).units();
            let loss = s.loss_rate.units();
            let wanted = if s.loss_rate.lt(Double::from_bits(FIVE_HUNDREDTHS)) {
                150 * loss
            } else {
                120 * loss
            };
            let bounded = if wanted < 100 * min.units() {
                100 * min.units()
            } else if wanted > 100 * max.units() {
                100 * max.units()
            } else {
                wanted
            };
            let slack = 500 * loss + 0x800_0000_0000_0000;
            &&& order::unsigned(s.redundancy(min, max))
            &&& -slack <= 0x20_0000_0000_0000 * (100 * r - bounded) <= slack
        }),
{
    let p = pow2(SCALE as nat) as int;
    let loss = s.loss_rate;
    let fifth = Double::from_bits(SIX_FIFTHS);
    let half = Double::from_bits(THREE_HALVES);
    let one = Double::from_bits(ONE);
    order::lemma_one();
    arithmetic::lemma_top();
    arithmetic::lemma_scale_is_large();
    arithmetic::lemma_gains();
    decimals::decimals_stand_for_their_numbers();
    order::order_is_that_of_magnitudes(loss, one);
    order::order_is_that_of_magnitudes(fifth, Double::from_bits(TWO));
    magnitude::lemma_units_sign(loss.code() as int);
    rounding::lemma_nearest_close(12 * p, 10);
    arithmetic::lemma_share(loss, fifth, 120);
    arithmetic::lemma_share(loss, half, 150);
    magnitude::lemma_units_sign(min.code() as int);
    order::order_is_that_of_magnitudes(min, max);
    order::order_is_that_of_magnitudes(loss.times(fifth), min);
    order::order_is_that_of_magnitudes(max, loss.times(fifth));
    order::order_is_that_of_magnitudes(loss.times(half), min);
    order::order_is_that_of_magnitudes(max, loss.times(half));
}

/// Without a report there is nothing to go by but the least redundancy.
pub proof fn without_a_report_redundancy_is_least(s: BbrModel, min: Double, max: Double)
    requires
        s.receiver_delivery_rate.le(Double::from_bits(ZERO)),
    ensures
        s.redundancy(min, max) == min,
        s.lossless(),
{
}

/// The redundancy goes by the loss: controllers with a report and the same loss
/// answer the same, whatever was reported and whatever else they know.
pub proof fn redundancy_goes_by_the_loss(s: BbrModel, t: BbrModel, min: Double, max: Double)
    requires
        !s.receiver_delivery_rate.le(Double::from_bits(ZERO)),
        !t.receiver_delivery_rate.le(Double::from_bits(ZERO)),
        s.loss_rate == t.loss_rate,
    ensures
        s.redundancy(min, max) == t.redundancy(min, max),
        s.lossless() == t.lossless(),
{
}

/// What may be in flight goes by the bandwidth, the shortest round-trip time and the
/// state, and the bandwidth-delay product by the first two, whatever else is known.
pub proof fn inflight_limit_goes_by_bandwidth_delay_and_state(s: BbrModel, t: BbrModel)
    requires
        s.max_bw == t.max_bw,
        s.min_rtt == t.min_rtt,
    ensures
        s.bdp() == t.bdp(),
        s.state == t.state ==> s.inflight_limit() == t.inflight_limit(),
{
}

/// Below two to the power of 51 bytes, exactly three times the bandwidth-delay product
/// may be in flight in the start-up, twice as much when probing, as much when
/// draining, and half as much again, rounded down, when cruising.
pub proof fn inflight_limit_is_a_multiple_of_the_bdp(s: BbrModel)
    requires
        s.bdp() < 0x8_0000_0000_0000,
    ensures
        s.state is Startup ==> s.inflight_limit() == 3 * s.bdp(),
        s.state is ProbeUp ==> s.inflight_limit() == 2 * s.bdp(),
        s.state is ProbeDrain ==> s.inflight_limit() == s.bdp(),
        s.state is Cruise ==> s.inflight_limit() == (3 * s.bdp()) / 2,
{
    let n = s.bdp();
    let p = pow2(SCALE as nat) as int;
    order::lemma_one();
    order::lemma_cut_in_range(s.max_bw.times(s.min_rtt), u64::MAX as int);
    arithmetic::lemma_gains();
    let two = rounding::units(TWO as int);
    let three = rounding::units(THREE as int);
    let half = rounding::units(THREE_HALVES as int);
    assert(n * two == (2 * n) * p && n * three == (3 * n) * p && 2 * (n * half) == (3 * n) * p)
        by (nonlinear_arith)
        requires
            two == 2 * p,
            three == 3 * p,
            2 * half == 3 * p,
    ;
    match s.state {
        BbrState::Startup => {
            lemma_whole_multiple(n, THREE, 3 * n, SCALE as int, 3 * n);
        },
        BbrState::ProbeUp => {
            lemma_whole_multiple(n, TWO, 2 * n, SCALE as int, 2 * n);
        },
        BbrState::ProbeDrain => {
            lemma_whole_multiple(n, ONE, n, SCALE as int, n);
        },
        BbrState::Cruise => {
            lemma_whole_multiple(n, THREE_HALVES, 3 * n, 1073, (3 * n) / 2);
        },
    }
}

/// A whole number, multiplied by a number so that the product needs no rounding, is
/// cut to the whole part of that product.
proof fn lemma_whole_multiple(n: int, bits: u64, m: int, exp: int, whole: int)
    requires
        0 <= n < 0x20_0000_0000_0000,
        bits < INFINITE,
        0 <= m < 0x20_0000_0000_0000,
        exp == SCALE || exp == 1073,
        exp == SCALE ==> n * rounding::units(bits as int) == m * pow2(SCALE as nat) && whole == m,
        exp == 1073 ==> 2 * (n * rounding::units(bits as int)) == m * pow2(SCALE as nat) && whole
            == m / 2,
    ensures
        Double::of_integer(n as u64).times(Double::from_bits(bits)).cut(u64::MAX as int) == whole,
{
    let p = pow2(SCALE as nat) as int;
    let w = pow2(exp as nat) as int;
    let x = Double::of_integer(n as u64);
    let g = rounding::units(bits as int);
    order::lemma_one();
    lemma_pow2_unfold(SCALE as nat);
    order::lemma_of_integer_exact(n as u64);
    let code = magnitude::lemma_representable(m, exp);
    magnitude::lemma_units_sign(bits as int);
    magnitude::lemma_units_sign(code);
    let u = rounding::units(code);
    assert(u == n * g) by {
        if exp == 1073 {
            assert(2 * (m * w) == m * p) by (nonlinear_arith)
                requires
                    p == 2 * w,
            ;
        }
    }
    let num = x.units() * g;
    assert(u * p == num && num >= 0) by (nonlinear_arith)
        requires
            num == (n * p) * g,
            u == n * g,
            u >= 0,
            p > 0,
    ;
    rounding::lemma_exact(code, num, p);
    rounding::lemma_nearest_is(code, num, p);
    let r = x.times(Double::from_bits(bits));
    assert(r.bits == code);
    assert(u / p == whole) by (nonlinear_arith)
        requires
            p > 0,
            w > 0,
            u == m * w,
            m >= 0,
            w == p && whole == m || p == 2 * w && whole == m / 2,
    {
        if w == p {
            assert((m * p) / p == m);
        } else {
            let k = m / 2;
            let b = m % 2;
            assert(m == 2 * k + b && 0 <= b < 2);
            assert(m * w == k * p + b * w);
            assert(0 <= b * w < p);
            assert((k * p + b * w) / p == k);
        }
    }
}

/// The inflight limit for any bandwidth-delay product: the rounded multiple, cut to a
/// whole number of bytes.
pub proof fn inflight_limit_is_a_rounded_multiple(s: BbrModel)
    ensures
        ({
            let whole = Double::of_integer(s.bdp() as u64);
            let top = 0xffff_ffff_ffff_ffffint;
            &&& s.state is Startup ==> s.inflight_limit() == whole.times(
                Double::from_bits(THREE),
            ).cut(top)
            &&& s.state is ProbeUp ==> s.inflight_limit() == whole.times(
                Double::from_bits(TWO),
            ).cut(top)
            &&& s.state is ProbeDrain ==> s.inflight_limit() == whole.cut(top)
            &&& s.state is Cruise ==> s.inflight_limit() == whole.times(
                Double::from_bits(THREE_HALVES),
            ).cut(top)
        }),
{
    order::lemma_cut_in_range(s.max_bw.times(s.min_rtt), u64::MAX as int);
    order::lemma_of_integer_monotone(s.bdp() as u64, s.bdp() as u64);
    order::lemma_times_one(Double::of_integer(s.bdp() as u64));
}

/// The whole part of a rounded product is off the exact product by less than one byte
/// down and two up.
proof fn lemma_product_cut(a: Double, b: Double, limit: int)
    requires
        order::unsigned(a),
        order::unsigned(b),
        a.is_finite(),
        b.is_finite(),
        0 <= limit,
        a.units() * b.units() < 0x10_0000_0000_0000 * (pow2(SCALE as nat) * pow2(SCALE as nat)),
    ensures
        ({
            let n = a.times(b).cut(limit);
            let square = pow2(SCALE as nat) * pow2(SCALE as nat);
            &&& 0 <= n <= limit
            &&& (n - 1) * square <= a.units() * b.units()
            &&& n < limit ==> a.units() * b.units() < (n + 2) * square
        }),
{
    let p = pow2(SCALE as nat) as int;
    let w = p * p;
    let num = a.units() * b.units();
    let c = a.times(b);
    let u = c.units();
    let n = c.cut(limit);
    let top = rounding::units(INFINITE as int);
    order::lemma_one();
    arithmetic::lemma_scale_is_large();
    arithmetic::lemma_top();
    arithmetic::products_are_nearest(a, b);
    order::lemma_times_unsigned(a, b);
    arithmetic::cuts_are_whole_parts(c, limit);
    magnitude::lemma_units_sign(a.code() as int);
    magnitude::lemma_units_sign(b.code() as int);
    let x = a.units();
    let y = b.units();
    assert(num >= 0) by (nonlinear_arith)
        requires
            num == x * y,
            x >= 0,
            y >= 0,
    ;
    assert(w >= 0x1_0000_0000_0000_0000 * p && num < top * p) by (nonlinear_arith)
        requires
            w == p * p,
            p >= 0x1_0000_0000_0000_0000,
            num < 0x10_0000_0000_0000 * w,
            top >= p * 0x1_0000_0000_0000_0000,
    {
        assert(w == p * p);
        assert(top * p >= (p * 0x1_0000_0000_0000_0000) * p);
    }
    rounding::lemma_nearest_close(num, p);
    let v = u * p;
    assert(n * w <= v && (n < limit ==> v < (n + 1) * w)) by (nonlinear_arith)
        requires
            n * p <= u,
            n < limit ==> u < (n + 1) * p,
            v == u * p,
            w == p * p,
            p > 0,
    {
        assert(n * p * p <= u * p);
        assert(n * p * p == n * w);
        assert(n < limit ==> u * p < (n + 1) * p * p);
        assert((n + 1) * p * p == (n + 1) * w);
    }
    assert((n - 1) * w == n * w - w && (n + 1) * w == n * w + w && (n + 2) * w == n * w + 2 * w)
        by (nonlinear_arith);
}

/// The bandwidth-delay product is the whole part of the rounded product of the
/// bandwidth and the shortest round-trip time. Below two to the power of 52 bytes it
/// is off the whole part of the exact product by at most one byte.
pub proof fn the_bdp_is_bandwidth_times_delay(s: BbrModel)
    ensures
        s.bdp() == s.max_bw.times(s.min_rtt).cut(0xffff_ffff_ffff_ffff),
        order::unsigned(s.max_bw) && order::unsigned(s.min_rtt) && s.max_bw.is_finite()
            && s.min_rtt.is_finite() && s.max_bw.units() * s.min_rtt.units() < 0x10_0000_0000_0000
            * (pow2(SCALE as nat) * pow2(SCALE as nat)) ==> {
            let square = (pow2(SCALE as nat) * pow2(SCALE as nat)) as int;
            let exact = (s.max_bw.units() * s.min_rtt.units()) / square;
            exact - 1 <= s.bdp() <= exact + 1
        },
{
    let p = pow2(SCALE as nat) as int;
    let w = p * p;
    let num = s.max_bw.units() * s.min_rtt.units();
    if order::unsigned(s.max_bw) && order::unsigned(s.min_rtt) && s.max_bw.is_finite()
        && s.min_rtt.is_finite() && num < 0x10_0000_0000_0000 * w {
        order::lemma_one();
        lemma_product_cut(s.max_bw, s.min_rtt, u64::MAX as int);
        let n = s.bdp();
        let exact = num / w;
        assert(w > 0) by (nonlinear_arith)
            requires
                w == p * p,
                p > 0,
        ;
        assert(exact * w <= num < (exact + 1) * w) by (nonlinear_arith)
            requires
                exact == num / w,
                w > 0,
        ;
        assert(n - 1 < exact + 1) by (nonlinear_arith)
            requires
                (n - 1) * w <= num,
                num < (exact + 1) * w,
                w > 0,
        ;
        assert(exact < 0x10_0000_0000_0000) by (nonlinear_arith)
            requires
                exact * w <= num,
                num < 0x10_0000_0000_0000 * w,
                w > 0,
        ;
        assert(n < u64::MAX);
        assert(exact < n + 2) by (nonlinear_arith)
            requires
                exact * w <= num,
                num < (n + 2) * w,
                w > 0,
        ;
    }
}

/// The bytes of an interval are the whole part of the rounded product of the rate and
/// the seconds, whatever the interval, and nothing without a positive rate.
pub proof fn the_budget_is_rate_times_interval(s: BbrModel, interval: TimeSpan)
    ensures
        Double::from_bits(ZERO).lt(s.pacing_rate) ==> s.budget(interval) == s.pacing_rate.times(
            interval.as_secs(),
        ).cut(usize::MAX as int),
        !Double::from_bits(ZERO).lt(s.pacing_rate) ==> s.budget(interval) == 0,
{
}

/// For a rate and an interval that make less than two to the power of 51 bytes, the
/// budget is off the whole part of the exact product by at most one byte, or it is the
/// largest count of bytes where the product has as many. An interval that is worth two
/// bytes or more is never left without a budget.
pub proof fn the_budget_is_within_a_byte(s: BbrModel, interval: TimeSpan)
    requires
        order::unsigned(s.pacing_rate),
        s.pacing_rate.is_finite(),
        s.pacing_rate.code() > 0,
        interval.nanos < 1_000_000_000,
        interval.secs < 0x20_0000_0000_0000,
        s.pacing_rate.units() * (interval.secs * 1_000_000_000 + interval.nanos)
            < 0x8_0000_0000_0000 * (1_000_000_000 * pow2(SCALE as nat)),
    ensures
        ({
            let one = (1_000_000_000 * pow2(SCALE as nat)) as int;
            let exact = (s.pacing_rate.units() * (interval.secs * 1_000_000_000 + interval.nanos))
                / one;
            let n = s.budget(interval);
            &&& 0 <= n <= usize::MAX
            &&& n <= exact + 1
            &&& n < usize::MAX ==> exact - 1 <= n
            &&& exact >= 2 ==> n > 0
        }),
{
    let p = pow2(SCALE as nat) as int;
    let w = p * p;
    let limit = usize::MAX as int;
    let r = s.pacing_rate.units();
    let t = interval.as_secs();
    let secs = t.units();
    let span = interval.secs * 1_000_000_000 + interval.nanos;
    let one = 1_000_000_000 * p;
    let a = r * span;
    order::lemma_one();
    arithmetic::lemma_scale_is_large();
    magnitude::lemma_units_sign(s.pacing_rate.code() as int);
    magnitude::lemma_units_sign(t.code() as int);
    arithmetic::seconds_are_close(interval);
    assert(a >= 0 && one > 0 && w > 0) by (nonlinear_arith)
        requires
            a == r * span,
            r >= 0,
            span >= 0,
            one == 1_000_000_000 * p,
            w == p * p,
            p > 0,
    ;
    // The rate times the seconds, beside the rate times the nanoseconds.
    let ap = a * p;
    let num = r * secs;
    let off = secs * 1_000_000_000 - span * p;
    let far = 0x200_0000_0001 * (span * p);
    assert(-(0x200_0000_0001 * ap) <= 0x2000_0000_0000_0000_0000_0000 * (1_000_000_000 * num - ap)
        <= 0x200_0000_0001 * ap) by (nonlinear_arith)
        requires
            ap == (r * span) * p,
            num == r * secs,
            off == secs * 1_000_000_000 - span * p,
            far == 0x200_0000_0001 * (span * p),
            -far <= 0x2000_0000_0000_0000_0000_0000 * off <= far,
            r >= 0,
    {
        let k = 0x2000_0000_0000_0000_0000_0000 * off;
        assert(r * k <= r * far);
        assert(r * (-far) <= r * k);
        assert(r * far == 0x200_0000_0001 * ap);
        assert(r * (-far) == -(r * far));
        assert(r * off == 1_000_000_000 * num - ap);
        assert(r * k == 0x2000_0000_0000_0000_0000_0000 * (r * off));
    }
    assert(ap < 0x8_0000_0000_0000 * (1_000_000_000 * w) && ap >= 0) by (nonlinear_arith)
        requires
            ap == a * p,
            0 <= a < 0x8_0000_0000_0000 * (1_000_000_000 * p),
            w == p * p,
            p > 0,
    ;
    let c = s.pacing_rate.times(t);
    let u = c.units();
    let n = s.budget(interval);
    let top = rounding::units(INFINITE as int);
    arithmetic::lemma_top();
    order::lemma_times_unsigned(s.pacing_rate, t);
    arithmetic::cuts_are_whole_parts(c, limit);
    assert(num >= 0) by (nonlinear_arith)
        requires
            num == r * secs,
            r >= 0,
            secs >= 0,
    ;
    assert(num < 0x10_0000_0000_0000 * w);
    assert(w >= 0x1_0000_0000_0000_0000 * p && num < top * p) by (nonlinear_arith)
        requires
            w == p * p,
            p >= 0x1_0000_0000_0000_0000,
            num < 0x10_0000_0000_0000 * w,
            top >= p * 0x1_0000_0000_0000_0000,
    {
        assert(top * p >= (p * 0x1_0000_0000_0000_0000) * p);
    }
    rounding::lemma_nearest_close(num, p);
    let v = u * p;
    assert(n * w <= v && (n < limit ==> v < (n + 1) * w)) by (nonlinear_arith)
        requires
            n * p <= u,
            n < limit ==> u < (n + 1) * p,
            v == u * p,
            w == p * p,
            p > 0,
    {
        assert(n * p * p <= u * p);
        assert(n * p * p == n * w);
        assert(n < limit ==> u * p < (n + 1) * p * p);
        assert((n + 1) * p * p == (n + 1) * w);
    }
    assert((n + 1) * w == n * w + w) by (nonlinear_arith);
    let nw = n * w;
    assert(1_000_000_000 * nw < ap + 1_000_000_000 * w);
    assert(n < limit ==> ap < 1_000_000_000 * nw + 2 * (1_000_000_000 * w));
    // Back from the denominator `one * p` to `one`.
    assert((n - 1) * one < a && (n < limit ==> a < (n + 2) * one)) by (nonlinear_arith)
        requires
            nw == n * w,
            w == p * p,
            ap == a * p,
            one == 1_000_000_000 * p,
            1_000_000_000 * nw < ap + 1_000_000_000 * w,
            n < limit ==> ap < 1_000_000_000 * nw + 2 * (1_000_000_000 * w),
            p > 0,
    {
        assert(((n - 1) * one) * p == 1_000_000_000 * nw - 1_000_000_000 * w);
        assert(((n + 2) * one) * p == 1_000_000_000 * nw + 2 * (1_000_000_000 * w));
    }
    let exact = a / one;
    assert(exact * one <= a < (exact + 1) * one) by (nonlinear_arith)
        requires
            exact == a / one,
            one > 0,
    ;
    assert(n - 1 < exact + 1) by (nonlinear_arith)
        requires
            (n - 1) * one < a,
            a < (exact + 1) * one,
            one > 0,
    ;
    assert(n < limit ==> exact < n + 2) by (nonlinear_arith)
        requires
            n < limit ==> a < (n + 2) * one,
            exact * one <= a,
            one > 0,
    ;
}

/// The wait before a packet: a millisecond without a rate, otherwise the size over the
/// rate in seconds, to the nearest nanosecond, or no time where that is below 0.0001.
/// It can be told where that quotient is below two to the power of 64.
pub proof fn the_delay_is_size_over_rate(s: BbrModel, packet_size: usize)
    ensures
        ({
            let secs = Double::of_integer(packet_size as u64).over(s.pacing_rate);
            let idle = s.pacing_rate.le(Double::from_bits(ZERO));
            let t = s.delay(packet_size);
            &&& idle ==> t == (TimeSpan { secs: 0, nanos: 1_000_000 }) && s.delay_defined(
                packet_size,
            )
            &&& !idle && secs.lt(Double::from_bits(TEN_THOUSANDTH)) ==> t == (TimeSpan {
                secs: 0,
                nanos: 0,
            })
            &&& !idle && !secs.lt(Double::from_bits(TEN_THOUSANDTH)) ==> t == TimeSpan::from_secs(
                secs,
            )
            &&& !idle ==> (s.delay_defined(packet_size) <==> secs.lt(Double::from_bits(TWO_TO_64)))
        }),
{
}

/// For a size and a rate that make less than two to the power of 51 nanoseconds, a wait
/// of 100 microseconds or more is kept to the nanosecond, and a shorter one, by more
/// than one part in two to the power of 51, is none.
pub proof fn the_delay_is_within_a_nanosecond(s: BbrModel, packet_size: usize)
    requires
        order::unsigned(s.pacing_rate),
        s.pacing_rate.is_finite(),
        s.pacing_rate.code() > 0,
        packet_size < 0x20_0000_0000_0000,
        packet_size * 1_000_000_000 * pow2(SCALE as nat) < 0x8_0000_0000_0000
            * s.pacing_rate.units(),
    ensures
        ({
            let t = s.delay(packet_size);
            let wait = t.secs * 1_000_000_000 + t.nanos;
            let rate = s.pacing_rate.units();
            let exact = packet_size * 1_000_000_000 * pow2(SCALE as nat);
            &&& s.delay_defined(packet_size)
            &&& exact >= 100_000 * rate ==> -rate <= wait * rate - exact <= rate
            &&& 0x8_0000_0000_0001 * exact <= 0x8_0000_0000_0000 * (100_000 * rate) ==> wait == 0
        }),
{
    let p = pow2(SCALE as nat) as int;
    let size = packet_size as int;
    let a = Double::of_integer(packet_size as u64);
    let b = s.pacing_rate;
    let rate = b.units();
    let d = a.over(b);
    let exact = size * 1_000_000_000 * p;
    order::lemma_one();
    arithmetic::lemma_scale_is_large();
    arithmetic::lemma_top();
    order::lemma_of_integer_exact(packet_size as u64);
    magnitude::lemma_units_sign(b.code() as int);
    decimals::decimals_stand_for_their_numbers();
    arithmetic::lemma_beside(a, b, TEN_THOUSANDTH, 1, 10000);
    let sp = size * p;
    assert(exact == 1_000_000_000 * sp && sp >= 0) by (nonlinear_arith)
        requires
            exact == size * 1_000_000_000 * p,
            sp == size * p,
            size >= 0,
            p > 0,
    ;
    let num = sp * p;
    let rp = rate * p;
    let top = rounding::units(INFINITE as int);
    assert(0 <= num && 1_000_000_000 * num <= 0x8_0000_0000_0000 * rp && num < top * rate)
        by (nonlinear_arith)
        requires
            num == sp * p,
            rp == rate * p,
            sp >= 0,
            1_000_000_000 * sp < 0x8_0000_0000_0000 * rate,
            p > 0,
            rate > 0,
            top >= p * 0x1_0000_0000_0000_0000,
    {
        assert(1_000_000_000 * sp * p <= 0x8_0000_0000_0000 * rate * p);
        assert(0x8_0000_0000_0000 * rate * p == 0x8_0000_0000_0000 * rp);
        assert(sp < 0x8_0000_0000_0000 * rate);
        assert(sp * p < 0x8_0000_0000_0000 * rate * p);
        assert(top * rate >= (p * 0x1_0000_0000_0000_0000) * rate);
        assert(rate * p > 0);
        assert((p * 0x1_0000_0000_0000_0000) * rate == 0x1_0000_0000_0000_0000 * (rate * p));
    }
    rounding::lemma_nearest_close(num, rate);
    let x = d.units();
    assert(x == rounding::units(rounding::nearest(num, rate) as int));
    magnitude::lemma_units_sign(d.code() as int);
    // The quotient is far below two to the power of 64.
    magnitude::lemma_two_to_64();
    order::order_is_that_of_magnitudes(d, Double::from_bits(TWO_TO_64));
    let xr = x * rate;
    assert(x < 0x8_0000_0000_0000 * p) by (nonlinear_arith)
        requires
            xr == x * rate,
            rp == rate * p,
            0x20_0000_0000_0000 * (xr - num) <= num + 0x10_0000_0000_0000 * rate,
            1_000_000_000 * num <= 0x8_0000_0000_0000 * rp,
            rate > 0,
            p >= 0x1_0000_0000_0000_0000,
    {
        assert(rp >= 0x1_0000_0000_0000_0000 * rate) by (nonlinear_arith)
            requires
                rp == rate * p,
                rate > 0,
                p >= 0x1_0000_0000_0000_0000,
        ;
        assert(xr < 0x8_0000_0000_0000 * rp);
        assert((0x8_0000_0000_0000 * p) * rate == 0x8_0000_0000_0000 * rp);
    }
    assert(s.delay_defined(packet_size));
    if exact >= 100_000 * rate {
        assert(a.units() * 10000 >= rate);
        arithmetic::spans_are_nearest(d);
        let t = TimeSpan::from_secs(d);
        let wait = t.secs * 1_000_000_000 + t.nanos;
        let wr = wait * rate;
        let wp = wait * p;
        assert(s.delay(packet_size) == t);
        assert(-rp <= 2 * (wr * p - 1_000_000_000 * xr) <= rp) by (nonlinear_arith)
            requires
                rp == rate * p,
                wr == wait * rate,
                wp == wait * p,
                xr == x * rate,
                -p <= 2 * (wp - x * 1_000_000_000) <= p,
                rate > 0,
        {
            let k = 2 * (wp - x * 1_000_000_000);
            assert(k * rate <= p * rate);
            assert((-p) * rate <= k * rate);
            assert(wp * rate == wr * p);
            assert(k * rate == 2 * (wp * rate - 1_000_000_000 * (x * rate)));
        }
        assert(1_000_000_000 * num == exact * p) by (nonlinear_arith)
            requires
                num == sp * p,
                exact == 1_000_000_000 * sp,
        ;
        assert(rp >= 0x1_0000_0000_0000_0000 * rate) by (nonlinear_arith)
            requires
                rp == rate * p,
                rate > 0,
                p >= 0x1_0000_0000_0000_0000,
        ;
        let wrp = wr * p;
        let ep = exact * p;
        assert(-rp <= wrp - ep <= rp);
        assert(-rate <= wr - exact <= rate) by (nonlinear_arith)
            requires
                -rp <= wrp - ep <= rp,
                rp == rate * p,
                wrp == wr * p,
                ep == exact * p,
                p > 0,
        {
            assert(wrp - ep == (wr - exact) * p);
        }
    }
    if 0x8_0000_0000_0001 * exact <= 0x8_0000_0000_0000 * (100_000 * rate) {
        assert(0x8_0000_0000_0000 * rate >= 0x8_0000_0000_0001 * (a.units() * 10000));
    }
}

} // verus!
