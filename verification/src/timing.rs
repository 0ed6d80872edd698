//! The times at which the controller acts, to the nanosecond.
//!
//! The controller compares spans in rounded seconds. For spans that matter to it
//! this is the same as comparing whole nanoseconds.

use vstd::arithmetic::power2::*;
use vstd::prelude::*;

use crate::bbr::BwSample;
use crate::decimals;
use crate::decimals::{
    BILLION, FIVE_HUNDREDTHS, HALF, HUNDREDTH, ONE, TEN, TENTH, THOUSANDTH, THREE, TWO, ZERO,
};
use crate::double::Double;
use crate::magnitude;
use crate::model;
use crate::model::BbrModel;
use crate::order;
use crate::rounding;
use crate::rounding::SCALE;
use crate::time::{TimeSpan, NANOS_PER_SEC};

verus! {

/// A step of two to the power of -32 seconds, in smallest magnitudes.
spec fn tick() -> int {
    pow2(1042) as int
}

/// How many ticks a second has.
spec fn ticks_per_sec() -> int {
    0x1_0000_0000
}

/// The fraction of a second that nanoseconds make, rounded.
spec fn fraction(nanos: u32) -> Double {
    Double::of_integer(nanos as u64).over(Double::from_bits(BILLION))
}

proof fn lemma_tick()
    ensures
        pow2(SCALE as nat) == ticks_per_sec() * tick(),
        tick() > 0,
{
    lemma2_to64();
    lemma_pow2_adds(32, 1042);
    lemma_pow2_pos(1042);
}

/// The magnitude of a billion.
pub proof fn lemma_billion()
    ensures
        rounding::units(BILLION as int) == 1_000_000_000 * pow2(SCALE as nat),
{
    decimals::decimals_stand_for_their_numbers();
    order::lemma_of_integer_exact(1_000_000_000);
    assert(Double::of_integer(1_000_000_000) == Double::from_bits(BILLION));
}

/// The rounded fraction lies on the same side of every tick as the nanoseconds.
proof fn lemma_fraction(nanos: u32, j: int)
    requires
        nanos < NANOS_PER_SEC,
        0 <= j <= ticks_per_sec(),
    ensures
        order::unsigned(fraction(nanos)),
        fraction(nanos).is_finite(),
        nanos * ticks_per_sec() <= j * NANOS_PER_SEC ==> fraction(nanos).units() <= j * tick(),
        j * NANOS_PER_SEC <= nanos * ticks_per_sec() ==> j * tick() <= fraction(nanos).units(),
{
    let p = pow2(SCALE as nat) as int;
    let w = tick();
    let t = ticks_per_sec();
    let n = nanos as int;
    lemma_tick();
    lemma_billion();
    order::lemma_of_integer_exact(nanos as u64);
    order::lemma_one();
    let den = 1_000_000_000 * p;
    let num = n * p * p;
    assert(num >= 0 && den > 0) by (nonlinear_arith)
        requires
            num == n * p * p,
            den == 1_000_000_000 * p,
            n >= 0,
            p > 0,
    ;
    magnitude::lemma_units_sign(BILLION as int);
    let f = fraction(nanos);
    assert(f.bits == rounding::nearest(num, den)) by {
        order::lemma_nearest_in_range(num, den);
    }
    order::lemma_nearest_in_range(num, den);
    let code = magnitude::lemma_representable(j, 1042);
    let cut = j * w;
    assert(cut >= 0) by (nonlinear_arith)
        requires
            cut == j * w,
            j >= 0,
            w > 0,
    ;
    assert(n * t <= j * 1_000_000_000 ==> num * 1 <= cut * den) by (nonlinear_arith)
        requires
            num == n * p * p,
            den == 1_000_000_000 * p,
            cut == j * w,
            p == t * w,
            p > 0,
            w > 0,
            n >= 0,
    {
        if n * t <= j * 1_000_000_000 {
            assert(n * p * p == n * t * (w * p));
            assert(cut * den == j * 1_000_000_000 * (w * p));
            assert(n * t * (w * p) <= j * 1_000_000_000 * (w * p));
        }
    }
    assert(j * 1_000_000_000 <= n * t ==> cut * den <= num * 1) by (nonlinear_arith)
        requires
            num == n * p * p,
            den == 1_000_000_000 * p,
            cut == j * w,
            p == t * w,
            p > 0,
            w > 0,
            n >= 0,
    {
        if j * 1_000_000_000 <= n * t {
            assert(n * p * p == n * t * (w * p));
            assert(cut * den == j * 1_000_000_000 * (w * p));
            assert(n * t * (w * p) >= j * 1_000_000_000 * (w * p));
        }
    }
    if n * t <= j * 1_000_000_000 {
        rounding::lemma_nearest_monotone(num, den, cut, 1);
        rounding::lemma_units_order(f.code() as int, code);
    }
    if j * 1_000_000_000 <= n * t {
        rounding::lemma_nearest_monotone(cut, 1, num, den);
        rounding::lemma_units_order(code, f.code() as int);
    }
    // No fraction reaches infinity: it is at most one.
    let whole = magnitude::lemma_representable(t, 1042);
    let top = t * w;
    assert(num * 1 <= top * den) by (nonlinear_arith)
        requires
            num == n * p * p,
            den == 1_000_000_000 * p,
            top == p,
            n <= 1_000_000_000,
            p > 0,
    ;
    rounding::lemma_nearest_monotone(num, den, top, 1);
}

/// A span below 2^20 seconds lies, in rounded seconds, on the same side of every
/// tick as its nanoseconds do.
proof fn lemma_seconds(t: TimeSpan, j: int)
    requires
        t.wf(),
        t.secs < 0x10_0000,
        0 <= j <= 0x10_0000 * ticks_per_sec(),
    ensures
        order::unsigned(t.as_secs()),
        t.total() * ticks_per_sec() <= j * NANOS_PER_SEC ==> t.as_secs().units() <= j * tick(),
        j * NANOS_PER_SEC <= t.total() * ticks_per_sec() ==> j * tick() <= t.as_secs().units(),
{
    let w = tick();
    let secs = t.secs as int;
    let p = pow2(SCALE as nat) as int;
    lemma_tick();
    order::lemma_of_integer_exact(t.secs);
    let s = Double::of_integer(t.secs);
    let f = fraction(t.nanos);
    let own = j - secs * ticks_per_sec();
    let within = if own < 0 {
        0
    } else if own > ticks_per_sec() {
        ticks_per_sec()
    } else {
        own
    };
    lemma_fraction(t.nanos, within);
    order::lemma_plus_unsigned(s, f);
    magnitude::lemma_units_sign(s.code() as int);
    magnitude::lemma_units_sign(f.code() as int);
    let num = s.units() + f.units();
    let r = t.as_secs();
    let code = magnitude::lemma_representable(j, 1042);
    assert(s.units() == secs * ticks_per_sec() * w) by (nonlinear_arith)
        requires
            s.units() == secs * p,
            p == ticks_per_sec() * w,
    ;
    assert(j * w == secs * ticks_per_sec() * w + own * w) by (nonlinear_arith)
        requires
            own == j - secs * ticks_per_sec(),
    ;
    assert(j * w >= 0) by (nonlinear_arith)
        requires
            j >= 0,
            w > 0,
    ;
    if t.total() * ticks_per_sec() <= j * NANOS_PER_SEC {
        assert(own >= 0);
        assert(within * w <= own * w) by (nonlinear_arith)
            requires
                within <= own,
                w > 0,
        ;
        rounding::lemma_nearest_monotone(num, 1, j * w, 1);
        rounding::lemma_units_order(r.code() as int, code);
    }
    if j * NANOS_PER_SEC <= t.total() * ticks_per_sec() {
        assert(own <= within);
        assert(own * w <= within * w) by (nonlinear_arith)
            requires
                own <= within,
                w > 0,
        ;
        rounding::lemma_nearest_monotone(j * w, 1, num, 1);
        rounding::lemma_units_order(code, r.code() as int);
    }
}

/// A longer span is more in rounded seconds, where the shorter one is below 2^20
/// seconds, about twelve days.
proof fn lemma_longer(a: TimeSpan, b: TimeSpan)
    requires
        a.wf(),
        b.wf(),
        a.secs < 0x10_0000,
        a.total() < b.total(),
    ensures
        a.as_secs().lt(b.as_secs()),
{
    let w = tick();
    lemma_tick();
    let scaled = a.total() * ticks_per_sec();
    let j = (scaled + 999_999_999) / 1_000_000_000;
    assert(scaled <= j * 1_000_000_000 < scaled + 1_000_000_000);
    lemma_seconds(a, j);
    assert(j * w < (j + 1) * w) by (nonlinear_arith)
        requires
            w > 0,
    ;
    if b.secs < 0x10_0000 {
        assert((j + 1) * 1_000_000_000 <= b.total() * ticks_per_sec());
        lemma_seconds(b, j + 1);
        order::order_is_that_of_magnitudes(a.as_secs(), b.as_secs());
    } else {
        let n = 0x10_0000u64;
        let base = Double::of_integer(n);
        order::lemma_of_integer_exact(n);
        order::lemma_of_integer_monotone(n, b.secs);
        lemma_fraction(b.nanos, 0);
        let zero = Double::from_bits(ZERO);
        order::lemma_plus_monotone(base, zero, Double::of_integer(b.secs), fraction(b.nanos));
        magnitude::lemma_units_sign(0);
        magnitude::lemma_units_sign(base.code() as int);
        rounding::lemma_exact(base.code() as int, base.units(), 1);
        rounding::lemma_nearest_is(base.code() as int, base.units(), 1);
        assert(base.plus(zero) == base);
        assert(a.total() < 0x10_0000 * 1_000_000_000);
        assert(scaled + 1_000_000_000 <= 0x10_0000 * 0x1_0000_0000 * 1_000_000_000);
        assert(j < 0x10_0000 * ticks_per_sec());
        assert(j * w < n * pow2(SCALE as nat)) by (nonlinear_arith)
            requires
                j < 0x10_0000 * ticks_per_sec(),
                n == 0x10_0000,
                pow2(SCALE as nat) == ticks_per_sec() * w,
                w > 0,
        ;
        order::order_is_that_of_magnitudes(a.as_secs(), base);
    }
}

/// Whole seconds are kept by rounding.
proof fn lemma_whole_seconds(k: u64)
    requires
        k < 0x10_0000,
    ensures
        (TimeSpan { secs: k, nanos: 0 }).as_secs() == Double::of_integer(k),
{
    let s = Double::of_integer(k);
    let p = pow2(SCALE as nat) as int;
    order::lemma_one();
    order::lemma_of_integer_exact(k);
    order::lemma_of_integer_exact(0);
    lemma_billion();
    magnitude::lemma_units_sign(BILLION as int);
    magnitude::lemma_units_sign(0);
    magnitude::lemma_units_sign(Double::of_integer(0).code() as int);
    let u = rounding::units(BILLION as int);
    assert(0 * p == 0);
    magnitude::lemma_zero(u);
    assert(fraction(0) == Double::from_bits(0));
    magnitude::lemma_units_sign(s.code() as int);
    rounding::lemma_exact(s.code() as int, s.units(), 1);
    rounding::lemma_nearest_is(s.code() as int, s.units(), 1);
}

/// A fraction of a second is the number nearest to it.
proof fn lemma_part_of_a_second(nanos: u32, num: int, den: int)
    requires
        nanos < NANOS_PER_SEC,
        num >= 0,
        den > 0,
        nanos * den == num * NANOS_PER_SEC,
    ensures
        (TimeSpan { secs: 0, nanos }).as_secs().bits == rounding::nearest(
            num * pow2(SCALE as nat),
            den,
        ),
{
    let p = pow2(SCALE as nat) as int;
    let n = nanos as int;
    order::lemma_one();
    order::lemma_of_integer_exact(nanos as u64);
    order::lemma_of_integer_exact(0);
    lemma_billion();
    magnitude::lemma_units_sign(BILLION as int);
    magnitude::lemma_units_sign(Double::of_integer(0).code() as int);
    assert(0 * p == 0);
    let f = fraction(nanos);
    let a = n * p * p;
    let b = 1_000_000_000 * p;
    let c = num * p;
    assert(a >= 0 && b > 0 && c >= 0 && a * den == c * b) by (nonlinear_arith)
        requires
            a == n * p * p,
            b == 1_000_000_000 * p,
            c == num * p,
            n * den == num * 1_000_000_000,
            n >= 0,
            num >= 0,
            p > 0,
    ;
    rounding::lemma_nearest_monotone(a, b, c, den);
    rounding::lemma_nearest_monotone(c, den, a, b);
    order::lemma_nearest_in_range(a, b);
    assert(f.bits == rounding::nearest(a, b));
    lemma_fraction(nanos, 0);
    magnitude::lemma_units_sign(f.code() as int);
    rounding::lemma_exact(f.code() as int, f.units(), 1);
    rounding::lemma_nearest_is(f.code() as int, f.units(), 1);
}

/// A span is longer than a threshold in rounded seconds exactly where it is longer
/// in nanoseconds.
proof fn lemma_threshold(t: TimeSpan, mark: TimeSpan)
    requires
        t.wf(),
        mark.wf(),
        mark.secs < 0x10_0000,
    ensures
        mark.as_secs().lt(t.as_secs()) <==> t.total() > mark.total(),
        t.as_secs().lt(mark.as_secs()) <==> t.total() < mark.total(),
{
    if t.total() > mark.total() {
        lemma_longer(mark, t);
    } else if t.total() < mark.total() {
        lemma_longer(t, mark);
    } else {
        assert(t == mark);
    }
}

/// The span from one time to a later one has the nanoseconds between them.
proof fn lemma_since(later: TimeSpan, earlier: TimeSpan)
    requires
        later.wf(),
        earlier.wf(),
    ensures
        later.since(earlier).wf(),
        later.since(earlier).total() == if later.total() > earlier.total() {
            later.total() - earlier.total()
        } else {
            0
        },
{
}

/// A longer span is no less in rounded seconds.
pub proof fn longer_is_no_less_seconds(a: TimeSpan, b: TimeSpan)
    requires
        a.wf(),
        b.wf(),
        a.total() <= b.total(),
    ensures
        order::unsigned(a.as_secs()),
        order::unsigned(b.as_secs()),
        b.as_secs().is_finite(),
        a.as_secs().le(b.as_secs()),
{
    let x = Double::of_integer(a.secs);
    let y = Double::of_integer(b.secs);
    let f = fraction(a.nanos);
    let g = fraction(b.nanos);
    lemma_tick();
    lemma_fraction(a.nanos, ticks_per_sec() - 1);
    lemma_fraction(b.nanos, ticks_per_sec());
    order::lemma_of_integer_monotone(a.secs, b.secs);
    order::lemma_plus_unsigned(x, f);
    order::lemma_plus_unsigned(y, g);
    lemma_secs_finite(b);
    magnitude::lemma_units_sign(x.code() as int);
    magnitude::lemma_units_sign(y.code() as int);
    magnitude::lemma_units_sign(f.code() as int);
    magnitude::lemma_units_sign(g.code() as int);
    order::order_is_that_of_magnitudes(x, y);
    let p = pow2(SCALE as nat) as int;
    let w = tick();
    assert(f.units() < p) by (nonlinear_arith)
        requires
            f.units() <= (ticks_per_sec() - 1) * w,
            p == ticks_per_sec() * w,
            w > 0,
    ;
    if a.secs == b.secs {
        order::lemma_of_integer_exact(a.nanos as u64);
        order::lemma_of_integer_exact(b.nanos as u64);
        order::lemma_of_integer_monotone(a.nanos as u64, b.nanos as u64);
        let billion = Double::from_bits(BILLION);
        order::lemma_over_monotone(
            Double::of_integer(a.nanos as u64),
            billion,
            Double::of_integer(b.nanos as u64),
            billion,
        );
        order::lemma_plus_monotone(x, f, y, g);
    } else if x.units() + p <= y.units() {
        rounding::lemma_nearest_monotone(x.units() + f.units(), 1, y.units() + g.units(), 1);
    } else {
        // The whole seconds are so many that both are rounded to the same number,
        // and a fraction of a second does not count.
        lemma_many_seconds(a.secs, b.secs);
        rounding::lemma_units_step(x.code() as int);
        rounding::lemma_between(x.code() as int, x.units() + f.units(), 1);
        rounding::lemma_nearest_is(x.code() as int, x.units() + f.units(), 1);
        assert(a.as_secs() == x);
        rounding::lemma_exact(x.code() as int, x.units(), 1);
        rounding::lemma_nearest_is(x.code() as int, x.units(), 1);
        rounding::lemma_nearest_monotone(x.units(), 1, y.units() + g.units(), 1);
    }
}

/// Different whole seconds that are rounded to less than a second apart are rounded
/// to the same number, whose last place is two seconds or more.
proof fn lemma_many_seconds(m: u64, n: u64)
    requires
        m < n,
        Double::of_integer(n).units() < Double::of_integer(m).units() + pow2(SCALE as nat),
    ensures
        Double::of_integer(m) == Double::of_integer(n),
        2 * pow2(SCALE as nat) <= pow2(
            rounding::last_place(Double::of_integer(m).code() as int) as nat,
        ),
        Double::of_integer(m).is_finite(),
{
    let p = pow2(SCALE as nat) as int;
    let x = Double::of_integer(m);
    let y = Double::of_integer(n);
    order::lemma_one();
    order::lemma_of_integer_monotone(m, n);
    order::order_is_that_of_magnitudes(x, y);
    // The number two to the power of 53.
    let edge = 0x4340_0000_0000_0000u64;
    let two53 = 0x0020_0000_0000_0000u64;
    lemma2_to64_rest();
    lemma_pow2_adds(52, 1075);
    lemma_pow2_adds(53, SCALE as nat);
    assert(rounding::units(edge as int) == two53 * p);
    rounding::lemma_exact(edge as int, two53 * p, 1);
    assert(two53 * p >= 0) by (nonlinear_arith)
        requires
            p > 0,
    ;
    rounding::lemma_nearest_is(edge as int, two53 * p, 1);
    assert(Double::of_integer(two53).code() == edge);
    if m < two53 {
        order::lemma_of_integer_exact(m);
        let least = (m + 1) as u64;
        order::lemma_of_integer_monotone(least, n);
        order::order_is_that_of_magnitudes(Double::of_integer(least), y);
        if least < two53 {
            order::lemma_of_integer_exact(least);
        }
        assert(Double::of_integer(least).units() == least * p);
        assert((m + 1) * p == m * p + p) by (nonlinear_arith);
        assert(false);
    }
    order::lemma_of_integer_monotone(two53, m);
    let c = x.code() as int;
    assert(c >= edge);
    let q = rounding::last_place(c);
    assert(q >= 1075);
    lemma_pow2_unfold(1075);
    if q > 1075 {
        lemma_pow2_strictly_increases(1075, q as nat);
    }
    if y.code() > c {
        rounding::lemma_units_step(c);
        rounding::lemma_units_order(c + 1, y.code() as int);
        assert(false);
    }
}

/// The fraction of a second that nanoseconds make is a number without a sign.
pub proof fn lemma_fraction_finite(nanos: u32)
    requires
        nanos < NANOS_PER_SEC,
    ensures
        ({
            let f = Double::of_integer(nanos as u64).over(Double::from_bits(BILLION));
            order::unsigned(f) && f.is_finite()
        }),
{
    lemma_fraction(nanos, 0);
}

/// No span is an infinite number of seconds.
pub proof fn lemma_secs_finite(t: TimeSpan)
    requires
        t.wf(),
    ensures
        t.as_secs().is_finite(),
{
    let s = Double::of_integer(t.secs);
    let f = fraction(t.nanos);
    let p = pow2(SCALE as nat) as int;
    lemma_tick();
    lemma_fraction(t.nanos, ticks_per_sec());
    order::lemma_one();
    order::lemma_of_integer_monotone(t.secs, t.secs);
    order::order_is_that_of_magnitudes(s, Double::from_bits(magnitude::TWO_TO_64));
    magnitude::lemma_two_to_64();
    magnitude::lemma_units_sign(s.code() as int);
    magnitude::lemma_units_sign(f.code() as int);
    lemma2_to64();
    lemma_pow2_adds(64, SCALE as nat);
    lemma_pow2_unfold((SCALE + 65) as nat);
    let code = magnitude::lemma_representable(1, (SCALE + 65) as int);
    rounding::lemma_nearest_monotone(
        s.units() + f.units(),
        1,
        1 * pow2((SCALE + 65) as nat) as int,
        1,
    );
}

/// A higher rate or a longer interval allows no fewer bytes.
pub proof fn budgets_grow_with_rate_and_interval(
    s: BbrModel,
    t: BbrModel,
    short: TimeSpan,
    long: TimeSpan,
)
    requires
        s.pacing_rate.le(t.pacing_rate),
        short.wf(),
        long.wf(),
        short.total() <= long.total(),
    ensures
        s.budget(short) <= t.budget(long),
{
    let q = s.pacing_rate;
    let r = t.pacing_rate;
    let x = short.as_secs();
    let y = long.as_secs();
    let limit = usize::MAX as int;
    longer_is_no_less_seconds(short, long);
    longer_is_no_less_seconds(short, short);
    order::lemma_cut_in_range(r.times(y), limit);
    if !q.le(Double::from_bits(ZERO)) {
        if x.code() == 0 {
            lemma_times_nothing(q, x, limit);
        } else {
            order::lemma_times_monotone_right(q, x, y);
            order::lemma_times_monotone(q, r, y);
            order::lemma_cut_monotone(q.times(x), q.times(y), limit);
            order::lemma_cut_monotone(q.times(y), r.times(y), limit);
        }
    }
}

/// A product with zero is cut to nothing.
proof fn lemma_times_nothing(x: Double, zero: Double, limit: int)
    requires
        zero.code() == 0,
        0 <= limit,
    ensures
        x.times(zero).cut(limit) == 0,
{
    let p = pow2(SCALE as nat) as int;
    order::lemma_one();
    magnitude::lemma_units_sign(0);
    let u = x.units();
    let z = zero.units();
    assert(u * z == 0) by (nonlinear_arith)
        requires
            z == 0,
    ;
    magnitude::lemma_zero(p);
    assert(0int / p == 0) by (nonlinear_arith)
        requires
            p > 0,
    ;
}

/// A sample expires when it is more than two seconds old.
pub proof fn the_window_is_two_seconds(sample: BwSample, now: TimeSpan)
    requires
        now.wf(),
        sample.time.wf(),
    ensures
        model::expired(sample, now, Double::from_bits(TWO)) <==> now.total()
            - sample.time.total() > 2_000_000_000,
{
    decimals::decimals_stand_for_their_numbers();
    lemma_whole_seconds(2);
    lemma_since(now, sample.time);
    lemma_threshold(now.since(sample.time), TimeSpan { secs: 2, nanos: 0 });
}

/// Whether samples stand in the order in which they were measured.
pub open spec fn in_order(samples: Seq<BwSample>) -> bool {
    forall|i: int, j: int|
        0 <= i <= j < samples.len() ==> (#[trigger] samples[i]).time.total() <= (
        #[trigger] samples[j]).time.total()
}

/// While the clock does not go back, the samples stay in order, and those that are
/// kept when a rate was measured are exactly the ones that are at most two seconds
/// old, a new one among them.
pub proof fn the_window_holds_the_last_two_seconds(s: BbrModel, rate: Double, now: TimeSpan)
    requires
        s.wf(),
        now.wf(),
        in_order(s.bw_samples),
        s.bw_samples.len() > 0 ==> s.bw_samples.last().time.total() <= now.total(),
    ensures
        ({
            let all = s.candidates(rate, now);
            let kept = s.bandwidth_updated(rate, now).bw_samples;
            &&& in_order(kept)
            &&& Double::from_bits(ZERO).lt(rate) ==> kept.len() > 0 && kept.last() == (BwSample {
                bw: rate,
                time: now,
            })
            &&& exists|start: int|
                0 <= start <= all.len() && kept == #[trigger] all.skip(start) && forall|i: int|
                    0 <= i < all.len() ==> (i < start <==> now.total() - (
                    #[trigger] all[i]).time.total() > 2_000_000_000)
        }),
{
    let positive = Double::from_bits(ZERO).lt(rate);
    let old_len = s.bw_samples.len() as int;
    let all = s.candidates(rate, now);
    let kept = s.bandwidth_updated(rate, now).bw_samples;
    let start = model::live_is_suffix(all, now, s.bw_window_secs);
    assert forall|i: int| 0 <= i < all.len() implies (#[trigger] all[i]).time.wf() by {
        if i < old_len {
            assert(all[i] == s.bw_samples[i]);
        }
    }
    assert forall|i: int, j: int| 0 <= i <= j < all.len() implies (
    #[trigger] all[i]).time.total() <= (#[trigger] all[j]).time.total() by {
        if i < old_len {
            assert(all[i] == s.bw_samples[i]);
            assert(s.bw_samples[i].time.total() <= s.bw_samples[old_len - 1].time.total());
        }
        if j < old_len {
            assert(all[j] == s.bw_samples[j]);
        }
    }
    if positive {
        the_window_is_two_seconds(all[old_len], now);
        assert(start <= old_len);
        assert(kept.last() == all[old_len]);
    }
    if start < all.len() {
        the_window_is_two_seconds(all[start], now);
    }
    assert forall|i: int| 0 <= i < all.len() implies (i < start <==> now.total() - (
    #[trigger] all[i]).time.total() > 2_000_000_000) by {
        the_window_is_two_seconds(all[i], now);
        if i >= start {
            assert(all[start].time.total() <= all[i].time.total());
        }
    }
    assert forall|i: int, j: int| 0 <= i <= j < kept.len() implies (
    #[trigger] kept[i]).time.total() <= (#[trigger] kept[j]).time.total() by {
        assert(kept[i] == all[start + i] && kept[j] == all[start + j]);
    }
    assert(kept == all.skip(start));
}

/// After several rates were measured, first to last.
pub open spec fn after_rates(s: BbrModel, history: Seq<BwSample>) -> BbrModel
    decreases history.len(),
{
    if history.len() == 0 {
        s
    } else {
        after_rates(s, history.drop_last()).bandwidth_updated(
            history.last().bw,
            history.last().time,
        )
    }
}

/// The measurements that are samples: those of a positive rate.
pub open spec fn positive_rates(history: Seq<BwSample>) -> Seq<BwSample> {
    history.filter(|x: BwSample| Double::from_bits(ZERO).lt(x.bw))
}

/// The last measurement is a sample or not, after those before it.
proof fn lemma_positive_step(history: Seq<BwSample>)
    ensures
        history.len() == 0 ==> positive_rates(history).len() == 0,
        history.len() > 0 ==> positive_rates(history) == if Double::from_bits(ZERO).lt(
            history.last().bw,
        ) {
            positive_rates(history.drop_last()).push(history.last())
        } else {
            positive_rates(history.drop_last())
        },
{
    reveal(Seq::filter);
}

/// Samples stand in the order of the measurements, and none is later than the last
/// of these.
proof fn lemma_positive_rates(history: Seq<BwSample>)
    requires
        in_order(history),
        forall|i: int| 0 <= i < history.len() ==> (#[trigger] history[i]).time.wf(),
    ensures
        in_order(positive_rates(history)),
        forall|i: int|
            0 <= i < positive_rates(history).len() ==> {
                let x = #[trigger] positive_rates(history)[i];
                &&& Double::from_bits(ZERO).lt(x.bw)
                &&& x.time.wf()
                &&& history.len() > 0
                &&& x.time.total() <= history.last().time.total()
            },
    decreases history.len(),
{
    lemma_positive_step(history);
    if history.len() > 0 {
        let front = history.drop_last();
        let n = history.len() - 1;
        lemma_front_in_order(history);
        lemma_positive_rates(front);
        let all = positive_rates(history);
        let some = positive_rates(front);
        if n > 0 {
            assert(history[n - 1].time.total() <= history[n].time.total());
        }
        assert forall|i: int| 0 <= i < all.len() implies {
            let x = #[trigger] all[i];
            &&& Double::from_bits(ZERO).lt(x.bw)
            &&& x.time.wf()
            &&& x.time.total() <= history.last().time.total()
        } by {
            if i < some.len() {
                assert(all[i] == some[i]);
            } else {
                assert(all[i] == history[n]);
            }
        }
        assert forall|i: int, j: int| 0 <= i <= j < all.len() implies (
        #[trigger] all[i]).time.total() <= (#[trigger] all[j]).time.total() by {
            if j < some.len() {
                assert(all[i] == some[i] && all[j] == some[j]);
            }
        }
    }
}

/// Measurements in order are so without the last one.
proof fn lemma_front_in_order(history: Seq<BwSample>)
    requires
        history.len() > 0,
        in_order(history),
        forall|i: int| 0 <= i < history.len() ==> (#[trigger] history[i]).time.wf(),
    ensures
        in_order(history.drop_last()),
        forall|i: int|
            0 <= i < history.drop_last().len() ==> (
            #[trigger] history.drop_last()[i]).time.wf(),
{
    let front = history.drop_last();
    assert forall|i: int, j: int| 0 <= i <= j < front.len() implies (
    #[trigger] front[i]).time.total() <= (#[trigger] front[j]).time.total() by {
        assert(front[i] == history[i] && front[j] == history[j]);
    }
}

/// Over a whole history of rates, measured on a clock that does not go back, the
/// samples are exactly the positive measurements of the last two seconds, and the
/// bandwidth is the largest of them or the lowest rate.
pub proof fn the_window_holds_the_last_two_seconds_of_a_history(
    s: BbrModel,
    history: Seq<BwSample>,
)
    requires
        s.wf(),
        s.bw_samples.len() == 0,
        history.len() > 0,
        in_order(history),
        forall|i: int| 0 <= i < history.len() ==> (#[trigger] history[i]).time.wf(),
    ensures
        ({
            let r = after_rates(s, history);
            let now = history.last().time;
            let all = positive_rates(history);
            &&& r.wf()
            &&& r.max_bw == model::peak(r.bw_samples, s.min_rate)
            &&& exists|start: int|
                0 <= start <= all.len() && r.bw_samples == #[trigger] all.skip(start)
                    && forall|i: int|
                    0 <= i < all.len() ==> (i < start <==> now.total() - (
                    #[trigger] all[i]).time.total() > 2_000_000_000)
        }),
    decreases history.len(),
{
    let front = history.drop_last();
    let n = history.len() - 1;
    let last = history.last();
    let before = after_rates(s, front);
    let after = after_rates(s, history);
    let some = positive_rates(front);
    let all = positive_rates(history);
    lemma_front_in_order(history);
    lemma_positive_step(history);
    lemma_positive_step(front);
    lemma_positive_rates(front);
    lemma_positive_rates(history);
    // Which samples were left before the last measurement.
    let begin = if n == 0 {
        assert(s.bw_samples == some.skip(0));
        0
    } else {
        the_window_holds_the_last_two_seconds_of_a_history(s, front);
        let then = front.last().time;
        assert(front.last() == history[n - 1] && last == history[n]);
        let begin = choose|start: int|
            0 <= start <= some.len() && before.bw_samples == #[trigger] some.skip(start)
                && forall|i: int|
                0 <= i < some.len() ==> (i < start <==> then.total() - (
                #[trigger] some[i]).time.total() > 2_000_000_000);
        assert forall|i: int| 0 <= i < begin implies last.time.total() - (
        #[trigger] all[i]).time.total() > 2_000_000_000 by {
            assert(all[i] == some[i]);
        }
        begin
    };
    assert(before.wf() && before.min_rate == s.min_rate);
    let left = before.candidates(last.bw, last.time);
    assert(left == all.skip(begin));
    assert forall|i: int, j: int| 0 <= i <= j < before.bw_samples.len() implies (
    #[trigger] before.bw_samples[i]).time.total() <= (
    #[trigger] before.bw_samples[j]).time.total() by {
        assert(before.bw_samples[i] == some[begin + i]);
        assert(before.bw_samples[j] == some[begin + j]);
    }
    if before.bw_samples.len() > 0 {
        let k = some.len() - 1;
        assert(before.bw_samples.last() == some[k]);
        assert(all[k] == some[k]);
    }
    the_window_holds_the_last_two_seconds(before, last.bw, last.time);
    let more = choose|start: int|
        0 <= start <= left.len() && after.bw_samples == #[trigger] left.skip(start)
            && forall|i: int|
            0 <= i < left.len() ==> (i < start <==> last.time.total() - (
            #[trigger] left[i]).time.total() > 2_000_000_000);
    let start = begin + more;
    assert(after.bw_samples == all.skip(start));
    assert forall|i: int| 0 <= i < all.len() implies (i < start <==> last.time.total() - (
    #[trigger] all[i]).time.total() > 2_000_000_000) by {
        if i >= begin {
            assert(left[i - begin] == all[i]);
        }
    }
    assert forall|i: int| 0 <= i < after.bw_samples.len() implies Double::from_bits(ZERO).lt(
        (#[trigger] after.bw_samples[i]).bw,
    ) && after.bw_samples[i].time.wf() by {
        assert(after.bw_samples[i] == all[start + i]);
    }
}

/// Between two times, rounded seconds tell exactly whether half a second, one, two,
/// three or ten seconds have been passed, and whether 50 milliseconds are reached.
pub proof fn marks_are_passed_to_the_nanosecond(now: TimeSpan, start: TimeSpan)
    requires
        now.nanos < 1_000_000_000,
        start.nanos < 1_000_000_000,
    ensures
        ({
            let secs = now.since(start).as_secs();
            let nanos = (now.secs * 1_000_000_000 + now.nanos) - (start.secs * 1_000_000_000
                + start.nanos);
            &&& secs.lt(Double::from_bits(FIVE_HUNDREDTHS)) <==> nanos < 50_000_000
            &&& Double::from_bits(HALF).lt(secs) <==> nanos > 500_000_000
            &&& Double::from_bits(ONE).lt(secs) <==> nanos > 1_000_000_000
            &&& Double::from_bits(TWO).lt(secs) <==> nanos > 2_000_000_000
            &&& Double::from_bits(THREE).lt(secs) <==> nanos > 3_000_000_000
            &&& Double::from_bits(TEN).lt(secs) <==> nanos > 10_000_000_000
        }),
{
    decimals::decimals_stand_for_their_numbers();
    lemma_whole_seconds(1);
    lemma_whole_seconds(2);
    lemma_whole_seconds(3);
    lemma_whole_seconds(10);
    lemma_part_of_a_second(500_000_000, 1, 2);
    lemma_part_of_a_second(50_000_000, 5, 100);
    lemma_since(now, start);
    let span = now.since(start);
    lemma_threshold(span, TimeSpan { secs: 1, nanos: 0 });
    lemma_threshold(span, TimeSpan { secs: 2, nanos: 0 });
    lemma_threshold(span, TimeSpan { secs: 3, nanos: 0 });
    lemma_threshold(span, TimeSpan { secs: 10, nanos: 0 });
    lemma_threshold(span, TimeSpan { secs: 0, nanos: 500_000_000 });
    lemma_threshold(span, TimeSpan { secs: 0, nanos: 50_000_000 });
}

/// The shortest round-trip time gives way to a longer one exactly when it is more
/// than ten seconds old.
pub proof fn min_rtt_lasts_ten_seconds(s: BbrModel, rtt: Double, now: TimeSpan)
    requires
        s.wf(),
        now.wf(),
        !rtt.lt(s.min_rtt),
    ensures
        s.resets_min_rtt(rtt, now) <==> now.total() - s.min_rtt_timestamp.total()
            > 10_000_000_000,
{
    decimals::decimals_stand_for_their_numbers();
    lemma_whole_seconds(10);
    lemma_since(now, s.min_rtt_timestamp);
    lemma_threshold(now.since(s.min_rtt_timestamp), TimeSpan { secs: 10, nanos: 0 });
}

/// With the interval that a controller is made with, an update is due exactly when
/// 50 milliseconds have passed since the last one.
pub proof fn updates_are_due_every_50_milliseconds(s: BbrModel, now: TimeSpan)
    requires
        s.wf(),
        now.wf(),
        s.probe_interval == Double::from_bits(FIVE_HUNDREDTHS),
    ensures
        s.due(now) <==> now.total() - s.last_ts.total() >= 50_000_000,
{
    decimals::decimals_stand_for_their_numbers();
    lemma_part_of_a_second(50_000_000, 5, 100);
    lemma_since(now, s.last_ts);
    lemma_threshold(now.since(s.last_ts), TimeSpan { secs: 0, nanos: 50_000_000 });
}

/// The start-up is left after two seconds at the latest, probing and draining after
/// half a second, and without much loss a cruise after one second, with some after
/// two and with more after three. A cruise with a loss of a tenth or more goes on.
pub proof fn no_state_outlasts_its_time(s: BbrModel, now: TimeSpan)
    requires
        s.wf(),
        now.wf(),
    ensures
        ({
            let dwell = now.since(s.state_start).as_secs();
            let nanos = now.total() - s.state_start.total();
            &&& s.state is Startup && nanos > 2_000_000_000 ==> s.leaves(dwell)
            &&& s.state is ProbeUp && nanos > 500_000_000 ==> s.leaves(dwell)
            &&& s.state is ProbeDrain && nanos > 500_000_000 ==> s.leaves(dwell)
            &&& s.state is Cruise && s.loss_rate.lt(Double::from_bits(THOUSANDTH)) ==> (
            s.leaves(dwell) <==> nanos > 1_000_000_000)
            &&& s.state is Cruise && Double::from_bits(THOUSANDTH).le(s.loss_rate)
                && s.loss_rate.lt(Double::from_bits(HUNDREDTH)) ==> (s.leaves(dwell)
                <==> nanos > 2_000_000_000)
            &&& s.state is Cruise && Double::from_bits(HUNDREDTH).le(s.loss_rate)
                && s.loss_rate.lt(Double::from_bits(TENTH)) ==> (s.leaves(dwell)
                <==> nanos > 3_000_000_000)
            &&& s.state is Cruise && Double::from_bits(TENTH).le(s.loss_rate)
                ==> !s.leaves(dwell)
        }),
{
    decimals::decimals_stand_for_their_numbers();
    lemma_whole_seconds(1);
    lemma_whole_seconds(2);
    lemma_whole_seconds(3);
    lemma_part_of_a_second(500_000_000, 1, 2);
    lemma_since(now, s.state_start);
    let span = now.since(s.state_start);
    lemma_threshold(span, TimeSpan { secs: 1, nanos: 0 });
    lemma_threshold(span, TimeSpan { secs: 2, nanos: 0 });
    lemma_threshold(span, TimeSpan { secs: 3, nanos: 0 });
    lemma_threshold(span, TimeSpan { secs: 0, nanos: 500_000_000 });
}

} // verus!
