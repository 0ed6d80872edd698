//! Arithmetic on binary64 magnitudes, each operation rounded to the nearest code.

use vstd::arithmetic::div_mod::*;
use vstd::arithmetic::power2::*;
use vstd::prelude::*;

use crate::rounding;
use crate::rounding::{HIDDEN, INFINITE, SCALE};

verus! {

/// Twice `HIDDEN`: significands stay below it.
const SIGNIFICAND_END: u64 = 0x0020_0000_0000_0000;

/// The power of two that makes `exp` and any larger exponent whole.
spec fn lift(exp: int) -> int {
    if exp < 0 {
        -exp
    } else {
        0
    }
}

/// Whether the fraction `num / den` lies at `sig` times two to the power of
/// `exp` or above it by less than one in the last place, and above it exactly
/// where `sticky` holds.
spec fn brackets(sig: int, exp: int, sticky: bool, num: int, den: int) -> bool {
    let part = den * pow2((exp + lift(exp)) as nat);
    let whole = num * pow2(lift(exp) as nat);
    &&& sig * part <= whole < (sig + 1) * part
    &&& sticky <==> sig * part != whole
}

/// The codes of one binade carry their significand in their last digits.
proof fn lemma_units_cell(m: int, q: int)
    requires
        0 <= q,
        0 <= m < 2 * HIDDEN,
        q > 0 ==> m >= HIDDEN,
    ensures
        rounding::units(q * HIDDEN + m) == m * pow2(q as nat),
        rounding::units(q * HIDDEN + m + 1) == (m + 1) * pow2(q as nat),
{
    let h = HIDDEN as int;
    let code = q * h + m;
    if m >= h {
        assert(code / h == q + 1 && code % h == m - h) by (nonlinear_arith)
            requires
                h == 0x0010_0000_0000_0000,
                code == q * h + m,
                h <= m < 2 * h,
        ;
        assert(code >= h) by (nonlinear_arith)
            requires
                code == q * h + m,
                m >= h,
                q >= 0,
                h > 0,
        ;
    }
    rounding::lemma_units_step(code);
    assert((m + 1) * pow2(q as nat) == m * pow2(q as nat) + pow2(q as nat)) by (nonlinear_arith);
}

/// Cutting `drop` binary digits off a bracketed significand leaves the cell of
/// the fraction, and what was cut off says on which side of the middle it lies.
proof fn lemma_cut(
    sig: int,
    exp: int,
    sticky: bool,
    num: int,
    den: int,
    drop: int,
    kept: int,
    rest: int,
)
    requires
        den > 0,
        brackets(sig, exp, sticky, num, den),
        drop >= 1,
        exp + drop >= 0,
        sig == kept * pow2(drop as nat) + rest,
        0 <= rest < pow2(drop as nat),
    ensures
        kept * pow2((exp + drop) as nat) * den <= num,
        num < (kept + 1) * pow2((exp + drop) as nat) * den,
        2 * rest < pow2(drop as nat) ==> 2 * num < (2 * kept + 1) * pow2((exp + drop) as nat)
            * den,
        2 * rest > pow2(drop as nat) || 2 * rest == pow2(drop as nat) && sticky ==> 2 * num > (2
            * kept + 1) * pow2((exp + drop) as nat) * den,
        2 * rest == pow2(drop as nat) && !sticky ==> 2 * num == (2 * kept + 1) * pow2(
            (exp + drop) as nat,
        ) * den,
{
    let k = lift(exp);
    let scale = pow2(k as nat) as int;
    let step = pow2(drop as nat) as int;
    let place = pow2((exp + drop) as nat) as int;
    let part = den * pow2((exp + k) as nat);
    let cell = place * den;
    lemma_pow2_pos(k as nat);
    lemma_pow2_pos((exp + k) as nat);
    lemma_pow2_unfold(drop as nat);
    let half = pow2((drop - 1) as nat) as int;
    // step * part == cell * scale
    lemma_pow2_adds(drop as nat, (exp + k) as nat);
    lemma_pow2_adds((exp + drop) as nat, k as nat);
    assert(pow2((drop + exp + k) as nat) == step * pow2((exp + k) as nat));
    assert(pow2((drop + exp + k) as nat) == place * scale);
    let low = pow2((exp + k) as nat) as int;
    assert(part > 0 && step * part == cell * scale) by (nonlinear_arith)
        requires
            part == den * low,
            cell == place * den,
            step * low == place * scale,
            den > 0,
            low > 0,
    ;
    let over = num * scale - sig * part;
    assert(0 <= over < part) by (nonlinear_arith)
        requires
            over == num * scale - sig * part,
            sig * part <= num * scale < (sig + 1) * part,
    ;
    // num * scale == kept * cell * scale + rest * part + over
    assert(num * scale == kept * (cell * scale) + rest * part + over) by (nonlinear_arith)
        requires
            over == num * scale - sig * part,
            sig == kept * step + rest,
            step * part == cell * scale,
    ;
    assert(rest * part + over < cell * scale) by (nonlinear_arith)
        requires
            step * part == cell * scale,
            rest + 1 <= step,
            0 <= over < part,
            part > 0,
    ;
    assert(rest * part >= 0) by (nonlinear_arith)
        requires
            rest >= 0,
            part > 0,
    ;
    let beyond = rest * part + over;
    assert((num - kept * cell) * scale == beyond) by (nonlinear_arith)
        requires
            num * scale == kept * (cell * scale) + beyond,
    ;
    let gap = num - kept * cell;
    assert(0 <= gap < cell) by (nonlinear_arith)
        requires
            gap * scale == beyond,
            0 <= beyond < cell * scale,
            scale > 0,
    ;
    // Twice the gap against the cell, scaled: (2 * rest - step) * part + 2 * over.
    let side = (2 * rest - step) * part + 2 * over;
    assert((2 * gap - cell) * scale == side) by (nonlinear_arith)
        requires
            gap * scale == rest * part + over,
            step * part == cell * scale,
            side == (2 * rest - step) * part + 2 * over,
    ;
    if 2 * rest < step {
        assert(2 * rest - step <= -2);
        assert(side < 0) by (nonlinear_arith)
            requires
                side == (2 * rest - step) * part + 2 * over,
                2 * rest - step <= -2,
                0 <= over < part,
        ;
        assert(2 * gap < cell) by (nonlinear_arith)
            requires
                (2 * gap - cell) * scale == side,
                side < 0,
                scale > 0,
        ;
    } else if 2 * rest > step {
        assert(side > 0) by (nonlinear_arith)
            requires
                side == (2 * rest - step) * part + 2 * over,
                2 * rest - step >= 1,
                0 <= over,
                part > 0,
        ;
        assert(2 * gap > cell) by (nonlinear_arith)
            requires
                (2 * gap - cell) * scale == side,
                side > 0,
                scale > 0,
        ;
    } else {
        assert(side == 2 * over) by (nonlinear_arith)
            requires
                side == (2 * rest - step) * part + 2 * over,
                2 * rest == step,
        ;
        assert(sticky ==> 2 * gap > cell) by (nonlinear_arith)
            requires
                (2 * gap - cell) * scale == 2 * over,
                sticky ==> over > 0,
                scale > 0,
        ;
        assert(!sticky ==> 2 * gap == cell) by (nonlinear_arith)
            requires
                (2 * gap - cell) * scale == 2 * over,
                !sticky ==> over == 0,
                scale > 0,
        ;
    }
    assert(kept * place * den == kept * cell) by (nonlinear_arith)
        requires
            cell == place * den,
    ;
    assert((kept + 1) * place * den == kept * cell + cell) by (nonlinear_arith)
        requires
            cell == place * den,
    ;
    assert((2 * kept + 1) * place * den == 2 * (kept * cell) + cell) by (nonlinear_arith)
        requires
            cell == place * den,
    ;
}

/// Two to the power of `exp`.
fn power_of_two(exp: u64) -> (p: u128)
    requires
        exp < 128,
    ensures
        p == pow2(exp as nat),
{
    let mut p: u128 = 1;
    let mut i: u64 = 0;
    proof {
        lemma2_to64();
    }
    while i < exp
        invariant
            i <= exp < 128,
            p == pow2(i as nat),
        decreases exp - i,
    {
        proof {
            lemma_pow2_unfold((i + 1) as nat);
            lemma_fits_128((i + 1) as nat);
        }
        p = p * 2;
        i = i + 1;
    }
    p
}

/// Powers of two below the 128th fit in 128 digits.
proof fn lemma_fits_128(exp: nat)
    requires
        exp < 128,
    ensures
        pow2(exp) <= 0x8000_0000_0000_0000_0000_0000_0000_0000,
{
    lemma2_to64();
    lemma2_to64_rest();
    lemma_pow2_adds(64, 63);
    if exp < 127 {
        lemma_pow2_strictly_increases(exp, 127);
    }
}

/// How many binary digits a positive number has.
fn digits(x: u128) -> (n: u64)
    requires
        0 < x < 0x4000_0000_0000_0000_0000_0000_0000_0000,
    ensures
        1 <= n <= 126,
        pow2((n - 1) as nat) <= x < pow2(n as nat),
{
    let mut n: u64 = 1;
    let mut p: u128 = 2;
    proof {
        lemma2_to64();
        lemma2_to64_rest();
        lemma_pow2_adds(64, 62);
    }
    while p <= x
        invariant
            1 <= n <= 126,
            p == pow2(n as nat),
            pow2((n - 1) as nat) <= x,
            pow2(126) == 0x4000_0000_0000_0000_0000_0000_0000_0000,
            x < 0x4000_0000_0000_0000_0000_0000_0000_0000,
        decreases 126 - n,
    {
        proof {
            if n >= 126 {
                assert(false);
            }
            lemma_pow2_unfold((n + 1) as nat);
        }
        p = p * 2;
        n = n + 1;
    }
    n
}

/// The code nearest to a bracketed fraction.
fn round_bracketed(
    sig: u128,
    exp: i64,
    sticky: bool,
    Ghost(num): Ghost<int>,
    Ghost(den): Ghost<int>,
) -> (code: u64)
    requires
        0 < sig < 0x4000_0000_0000_0000_0000_0000_0000_0000,
        -10_000 < exp < 10_000,
        sticky ==> sig >= SIGNIFICAND_END,
        den > 0,
        brackets(sig as int, exp as int, sticky, num, den),
    ensures
        rounding::is_nearest(code as int, num, den),
{
    let n: u64 = digits(sig);
    let reach: i64 = n as i64 + exp;
    let place: i64 = if reach > 53 {
        reach - 53
    } else {
        0
    };
    if place > 2045 {
        proof {
            lemma_beyond(sig as int, exp as int, sticky, num, den, n as int);
        }
        return INFINITE;
    }
    if place <= exp {
        let up: u64 = (exp - place) as u64;
        proof {
            lemma_round_whole(sig as int, exp as int, sticky, num, den, n as int, place as int);
        }
        let kept: u128 = sig * power_of_two(up);
        return place as u64 * HIDDEN + kept as u64;
    }
    let drop: u64 = (place - exp) as u64;
    if drop >= 128 {
        proof {
            lemma_vanishes(sig as int, exp as int, sticky, num, den);
        }
        return 0;
    }
    let step: u128 = power_of_two(drop);
    proof {
        lemma_pow2_pos(drop as nat);
    }
    let kept: u128 = sig / step;
    let rest: u128 = sig % step;
    let half: u128 = step / 2;
    let up: bool = rest > half || (rest == half && (sticky || kept % 2 == 1));
    proof {
        lemma_pow2_unfold(drop as nat);
        assert(sig == kept * step + rest) by (nonlinear_arith)
            requires
                step > 0,
                kept == sig / step,
                rest == sig % step,
        ;
        lemma_kept(sig as int, n as int, drop as int, kept as int, rest as int);
        lemma_round_cut(
            sig as int,
            exp as int,
            sticky,
            num,
            den,
            drop as int,
            kept as int,
            rest as int,
        );
    }
    if up {
        place as u64 * HIDDEN + kept as u64 + 1
    } else {
        place as u64 * HIDDEN + kept as u64
    }
}

/// A bracketed significand whose last place is not below that of its code is
/// rounded without loss.
proof fn lemma_round_whole(
    sig: int,
    exp: int,
    sticky: bool,
    num: int,
    den: int,
    n: int,
    place: int,
)
    requires
        den > 0,
        1 <= n,
        pow2((n - 1) as nat) <= sig < pow2(n as nat),
        sticky ==> sig >= SIGNIFICAND_END,
        place == if n + exp > 53 {
            n + exp - 53
        } else {
            0
        },
        place <= 2045,
        place <= exp,
        brackets(sig, exp, sticky, num, den),
    ensures
        exp - place <= 52,
        0 <= sig * pow2((exp - place) as nat) < 2 * HIDDEN,
        rounding::is_nearest(place * HIDDEN + sig * pow2((exp - place) as nat), num, den),
{
    lemma2_to64_rest();
    let up = exp - place;
    assert(n + up <= 53);
    if n < 53 {
        lemma_pow2_strictly_increases(n as nat, 53);
    }
    assert(!sticky);
    lemma_shifted(sig, n, up);
    let m = sig * pow2(up as nat);
    lemma_units_cell(m, place);
    lemma_whole(sig, exp, num, den, place);
    rounding::lemma_exact(place * HIDDEN + m, num, den);
}

/// Cutting binary digits off a bracketed significand and rounding by what was
/// cut off gives the nearest code.
proof fn lemma_round_cut(
    sig: int,
    exp: int,
    sticky: bool,
    num: int,
    den: int,
    drop: int,
    kept: int,
    rest: int,
)
    requires
        den > 0,
        brackets(sig, exp, sticky, num, den),
        drop >= 1,
        0 <= exp + drop <= 2045,
        sig == kept * pow2(drop as nat) + rest,
        0 <= rest < pow2(drop as nat),
        0 <= kept < 2 * HIDDEN,
        exp + drop > 0 ==> kept >= HIDDEN,
    ensures
        rounding::is_nearest(
            (exp + drop) * HIDDEN + kept + if 2 * rest > pow2(drop as nat) || (2 * rest == pow2(
                drop as nat,
            ) && (sticky || kept % 2 == 1)) {
                1int
            } else {
                0int
            },
            num,
            den,
        ),
{
    lemma_cut(sig, exp, sticky, num, den, drop, kept, rest);
    let q = exp + drop;
    lemma_units_cell(kept, q);
    let code = q * HIDDEN + kept;
    let lo = rounding::units(code);
    let hi = rounding::units(code + 1);
    let w = pow2(q as nat) as int;
    assert(lo + hi == (2 * kept + 1) * w) by (nonlinear_arith)
        requires
            lo == kept * w,
            hi == (kept + 1) * w,
    ;
    rounding::lemma_between(code, num, den);
    assert(code % 2 == kept % 2);
}

/// A bracketed fraction whose digits reach past those of every finite magnitude
/// is nearest to infinity.
proof fn lemma_beyond(sig: int, exp: int, sticky: bool, num: int, den: int, n: int)
    requires
        den > 0,
        sig > 0,
        1 <= n,
        pow2((n - 1) as nat) <= sig,
        n + exp - 53 > 2045,
        brackets(sig, exp, sticky, num, den),
    ensures
        rounding::is_nearest(INFINITE as int, num, den),
{
    let k = lift(exp);
    let scale = pow2(k as nat) as int;
    let low = pow2((exp + k) as nat) as int;
    let part = den * low;
    lemma_pow2_pos(k as nat);
    lemma_pow2_pos((exp + k) as nat);
    lemma2_to64_rest();
    // The place of infinity is 2^52 * 2^2046.
    let top = rounding::units(INFINITE as int);
    assert(top == HIDDEN * pow2(2046));
    lemma_pow2_adds(52, 2046);
    assert(top == pow2(2098));
    // sig * low >= 2^(n - 1 + exp + k) >= 2^(2098 + k)
    lemma_pow2_adds((n - 1) as nat, (exp + k) as nat);
    lemma_pow2_adds(2098, k as nat);
    let reach = pow2((n - 1 + exp + k) as nat) as int;
    if 2098 < n - 1 + exp {
        lemma_pow2_strictly_increases((2098 + k) as nat, (n - 1 + exp + k) as nat);
    }
    assert(reach >= top * scale);
    let first = pow2((n - 1) as nat) as int;
    assert(sig * part >= reach * den) by (nonlinear_arith)
        requires
            part == den * low,
            first * low == reach,
            sig >= first,
            den > 0,
            low > 0,
    ;
    assert(reach * den >= top * scale * den) by (nonlinear_arith)
        requires
            reach >= top * scale,
            den > 0,
    ;
    assert(num >= top * den) by (nonlinear_arith)
        requires
            num * scale >= top * scale * den,
            scale > 0,
    ;
    rounding::lemma_overflow(num, den);
}

/// Appending binary digits keeps a number within as many more of them.
proof fn lemma_shifted(sig: int, n: int, up: int)
    requires
        1 <= n,
        0 <= up,
        n + up <= 53,
        pow2((n - 1) as nat) <= sig < pow2(n as nat),
    ensures
        0 <= sig * pow2(up as nat) < 2 * HIDDEN,
        n + up == 53 ==> sig * pow2(up as nat) >= HIDDEN,
{
    lemma2_to64_rest();
    let p = pow2(up as nat) as int;
    lemma_pow2_pos(up as nat);
    lemma_pow2_adds(n as nat, up as nat);
    lemma_pow2_adds((n - 1) as nat, up as nat);
    let a = pow2(n as nat) as int;
    let b = pow2((n - 1) as nat) as int;
    assert(b * p <= sig * p < a * p) by (nonlinear_arith)
        requires
            b <= sig < a,
            p > 0,
    ;
    lemma_pow2_pos((n - 1) as nat);
    assert(b * p >= 0) by (nonlinear_arith)
        requires
            b > 0,
            p > 0,
    ;
    if n + up < 53 {
        lemma_pow2_strictly_increases((n + up) as nat, 53);
    }
}

/// What is bracketed without a remainder is the significand, scaled.
proof fn lemma_whole(sig: int, exp: int, num: int, den: int, place: int)
    requires
        0 <= place <= exp,
        brackets(sig, exp, false, num, den),
    ensures
        sig * pow2((exp - place) as nat) * pow2(place as nat) * den == num,
{
    lemma2_to64();
    lemma_pow2_adds((exp - place) as nat, place as nat);
    let a = pow2((exp - place) as nat) as int;
    let b = pow2(place as nat) as int;
    let c = pow2(exp as nat) as int;
    let one = pow2(0) as int;
    assert(sig * a * b * den == num) by (nonlinear_arith)
        requires
            sig * (den * c) == num * one,
            one == 1,
            a * b == c,
    ;
}

/// A bracketed fraction that lies far below one is nearest to nothing.
proof fn lemma_vanishes(sig: int, exp: int, sticky: bool, num: int, den: int)
    requires
        den > 0,
        0 < sig < 0x4000_0000_0000_0000_0000_0000_0000_0000,
        exp <= -128,
        brackets(sig, exp, sticky, num, den),
    ensures
        rounding::is_nearest(0, num, den),
{
    lemma2_to64();
    let k = -exp;
    let scale = pow2(k as nat) as int;
    lemma_pow2_adds(64, 64);
    if k > 128 {
        lemma_pow2_strictly_increases(128, k as nat);
    }
    let one = pow2(0) as int;
    assert(2 * num < den && 0 <= num) by (nonlinear_arith)
        requires
            one == 1,
            sig * (den * one) <= num * scale,
            num * scale < (sig + 1) * (den * one),
            0 < sig,
            2 * (sig + 1) <= scale,
            den > 0,
    ;
    lemma_units_cell(0, 0);
    assert(rounding::units(0) == 0 * one);
    assert(rounding::units(1) == 1 * one);
    rounding::lemma_between(0, num, den);
}

/// Cutting off all but 53 binary digits leaves 53 of them, and cutting off more
/// leaves fewer.
proof fn lemma_kept(sig: int, n: int, drop: int, kept: int, rest: int)
    requires
        1 <= n,
        0 <= drop,
        n - 53 <= drop,
        pow2((n - 1) as nat) <= sig < pow2(n as nat),
        sig == kept * pow2(drop as nat) + rest,
        0 <= rest < pow2(drop as nat),
        0 <= kept,
    ensures
        kept < 2 * HIDDEN,
        drop == n - 53 ==> kept >= HIDDEN,
{
    lemma2_to64_rest();
    let p = pow2(drop as nat) as int;
    lemma_pow2_pos(drop as nat);
    lemma_pow2_adds(53, drop as nat);
    let end = 2 * HIDDEN;
    if n < 53 + drop {
        lemma_pow2_strictly_increases(n as nat, (53 + drop) as nat);
    }
    assert(kept < end) by (nonlinear_arith)
        requires
            kept * p + rest < end * p,
            rest >= 0,
            p > 0,
    ;
    if drop == n - 53 {
        lemma_pow2_adds(52, drop as nat);
        let h = HIDDEN as int;
        assert(kept >= h) by (nonlinear_arith)
            requires
                h * p <= kept * p + rest,
                rest < p,
                p > 0,
        ;
    }
}

/// The significand of a finite code and the exponent of its last place.
fn parts(code: u64) -> (r: (u64, u64))
    requires
        code < INFINITE,
    ensures
        r.0 == rounding::significand(code as int),
        r.1 == rounding::last_place(code as int),
        rounding::units(code as int) == r.0 * pow2(r.1 as nat),
        r.0 < SIGNIFICAND_END,
        r.1 <= 2045,
        r.1 > 0 ==> r.0 >= HIDDEN,
        r.0 == 0 <==> code == 0,
{
    if code < HIDDEN {
        (code, 0)
    } else {
        (HIDDEN + code % HIDDEN, code / HIDDEN - 1)
    }
}

/// No magnitude is negative, and only that of code zero is nothing.
pub proof fn lemma_units_sign(code: int)
    requires
        0 <= code,
    ensures
        rounding::units(code) >= 0,
        rounding::units(code) == 0 <==> code == 0,
{
    lemma2_to64();
    lemma_units_cell(0, 0);
    let one = pow2(0) as int;
    assert(0 * one == 0);
    rounding::lemma_units_order(0, code);
    rounding::lemma_units_order(code, 0);
}

/// The first codes count the smallest magnitudes themselves.
pub proof fn lemma_small_units(code: int)
    requires
        0 <= code < 2 * HIDDEN,
    ensures
        rounding::units(code) == code,
{
    lemma2_to64();
    lemma_units_cell(code, 0);
    let one = pow2(0) as int;
    assert(code * one == code) by (nonlinear_arith)
        requires
            one == 1,
    ;
}

/// One binade lower a magnitude is half as large.
pub proof fn lemma_halved(code: int)
    requires
        2 * HIDDEN <= code < INFINITE,
    ensures
        2 * rounding::units(code - HIDDEN) == rounding::units(code),
{
    let h = HIDDEN as int;
    let q = rounding::last_place(code);
    assert((code - h) / h == code / h - 1 && (code - h) % h == code % h);
    lemma_pow2_unfold(q as nat);
    let m = rounding::significand(code);
    let w = pow2((q - 1) as nat) as int;
    assert(2 * (m * w) == m * (2 * w)) by (nonlinear_arith);
}

/// Nothing is nearest to nothing.
pub proof fn lemma_zero(den: int)
    requires
        den > 0,
    ensures
        rounding::nearest(0, den) == 0,
{
    lemma_units_sign(0);
    let u = rounding::units(0);
    assert(u * den == 0) by (nonlinear_arith)
        requires
            u == 0,
    ;
    rounding::lemma_exact(0, 0, den);
    rounding::lemma_nearest_is(0, 0, den);
}

/// A positive number has some count of binary digits.
proof fn lemma_has_digits(x: int, most: nat) -> (n: int)
    requires
        0 < x < pow2(most),
    ensures
        1 <= n <= most,
        pow2((n - 1) as nat) <= x < pow2(n as nat),
    decreases most,
{
    lemma2_to64();
    if most == 0 {
        1
    } else if x >= pow2((most - 1) as nat) {
        most as int
    } else {
        lemma_has_digits(x, (most - 1) as nat)
    }
}

/// A number of up to 53 binary digits, scaled by a power of two, is a magnitude,
/// and rounding keeps it.
pub proof fn lemma_representable(n: int, exp: int) -> (code: int)
    requires
        0 <= n < 0x0020_0000_0000_0000,
        0 <= exp <= 1900,
    ensures
        0 <= code < INFINITE,
        rounding::units(code) == n * pow2(exp as nat),
        rounding::nearest(n * pow2(exp as nat), 1) == code,
{
    let num = n * pow2(exp as nat);
    if n == 0 {
        assert(num == 0) by (nonlinear_arith)
            requires
                num == n * pow2(exp as nat),
                n == 0,
        ;
        lemma_zero(1);
        lemma_units_sign(0);
        0
    } else {
        lemma2_to64_rest();
        lemma_pow2_pos(exp as nat);
        assert(num >= 0) by (nonlinear_arith)
            requires
                num == n * pow2(exp as nat),
                n > 0,
                pow2(exp as nat) > 0,
        ;
        let b = lemma_has_digits(n, 53);
        let q = if exp + b > 53 {
            exp + b - 53
        } else {
            0
        };
        let up = exp - q;
        lemma_shifted(n, b, up);
        let m = n * pow2(up as nat);
        lemma_pow2_adds(up as nat, q as nat);
        let p1 = pow2(up as nat) as int;
        let p2 = pow2(q as nat) as int;
        assert(m * p2 == n * (p1 * p2)) by (nonlinear_arith)
            requires
                m == n * p1,
        ;
        lemma_units_cell(m, q);
        let code = q * HIDDEN + m;
        rounding::lemma_exact(code, num, 1);
        rounding::lemma_nearest_is(code, num, 1);
        code
    }
}

/// The rounded product of two finite magnitudes.
pub fn product(a: u64, b: u64) -> (code: u64)
    requires
        a < INFINITE,
        b < INFINITE,
    ensures
        code == rounding::nearest(
            rounding::units(a as int) * rounding::units(b as int),
            pow2(SCALE as nat) as int,
        ),
        code <= INFINITE,
{
    let (ma, qa) = parts(a);
    let (mb, qb) = parts(b);
    let ghost ua = rounding::units(a as int);
    let ghost ub = rounding::units(b as int);
    let ghost den = pow2(SCALE as nat) as int;
    proof {
        lemma_pow2_pos(SCALE as nat);
        lemma_units_sign(a as int);
        lemma_units_sign(b as int);
    }
    if ma == 0 || mb == 0 {
        proof {
            assert(ua * ub == 0) by (nonlinear_arith)
                requires
                    ua == 0 || ub == 0,
            ;
            lemma_zero(den);
        }
        return 0;
    }
    proof {
        assert(0 < ma * mb < 0x0400_0000_0000_0000_0000_0000_0000) by (nonlinear_arith)
            requires
                0 < ma < 0x0020_0000_0000_0000,
                0 < mb < 0x0020_0000_0000_0000,
        ;
    }
    let sig: u128 = ma as u128 * mb as u128;
    let exp: i64 = qa as i64 + qb as i64 - SCALE as i64;
    proof {
        let k = lift(exp as int);
        let low = pow2((exp + k) as nat) as int;
        let scale = pow2(k as nat) as int;
        let pa = pow2(qa as nat) as int;
        let pb = pow2(qb as nat) as int;
        lemma_pow2_pos((exp + k) as nat);
        lemma_pow2_adds(SCALE as nat, (exp + k) as nat);
        lemma_pow2_adds(qa as nat, qb as nat);
        lemma_pow2_adds((qa + qb) as nat, k as nat);
        assert(SCALE + (exp + k) == qa + qb + k);
        assert(sig * (den * low) == ua * ub * scale) by (nonlinear_arith)
            requires
                sig == ma * mb,
                ua == ma * pa,
                ub == mb * pb,
                den * low == pa * pb * scale,
        ;
        assert(den * low > 0) by (nonlinear_arith)
            requires
                den > 0,
                low > 0,
        ;
        assert((sig + 1) * (den * low) == sig * (den * low) + den * low) by (nonlinear_arith);
        assert(brackets(sig as int, exp as int, false, ua * ub, den));
    }
    let code: u64 = round_bracketed(sig, exp, false, Ghost(ua * ub), Ghost(den));
    proof {
        assert(ua * ub >= 0) by (nonlinear_arith)
            requires
                ua >= 0,
                ub >= 0,
        ;
        rounding::lemma_nearest_is(code as int, ua * ub, den);
    }
    code
}

/// The rounded quotient of two finite magnitudes.
pub fn quotient(a: u64, b: u64) -> (code: u64)
    requires
        a < INFINITE,
        0 < b < INFINITE,
    ensures
        code == rounding::nearest(
            rounding::units(a as int) * pow2(SCALE as nat),
            rounding::units(b as int),
        ),
        code <= INFINITE,
{
    let (ma, qa) = parts(a);
    let (mb, qb) = parts(b);
    let ghost ua = rounding::units(a as int);
    let ghost ub = rounding::units(b as int);
    let ghost num = ua * pow2(SCALE as nat);
    proof {
        lemma_pow2_pos(SCALE as nat);
        lemma_units_sign(a as int);
        lemma_units_sign(b as int);
        lemma2_to64();
        lemma2_to64_rest();
    }
    if ma == 0 {
        proof {
            let p = pow2(SCALE as nat) as int;
            assert(ua * p == 0) by (nonlinear_arith)
                requires
                    ua == 0,
            ;
            lemma_zero(ub);
        }
        return 0;
    }
    let n: u64 = digits(ma as u128);
    proof {
        if n > 53 {
            if n > 54 {
                lemma_pow2_strictly_increases(53, (n - 1) as nat);
            }
            assert(false);
        }
    }
    let shift: u64 = 53 - n;
    proof {
        lemma_shifted(ma as int, n as int, shift as int);
        lemma_pow2_adds(shift as nat, 72);
        lemma_pow2_adds(64, 8);
    }
    let full: u128 = ma as u128 * power_of_two(shift);
    let wide: u128 = full * 0x100_0000_0000_0000_0000;
    let sig: u128 = wide / mb as u128;
    let rest: u128 = wide % mb as u128;
    let sticky: bool = rest != 0;
    let exp: i64 = qa as i64 - shift as i64 - 72 - qb as i64 + SCALE as i64;
    proof {
        let m = mb as int;
        assert(wide == sig * m + rest && 0 <= rest < m) by (nonlinear_arith)
            requires
                m > 0,
                sig == wide / mb as u128,
                rest == wide % mb as u128,
                m == mb,
        ;
        assert(sig >= 0x0020_0000_0000_0000) by (nonlinear_arith)
            requires
                wide == sig * m + rest,
                rest < m,
                m < 0x0020_0000_0000_0000,
                wide >= 0x0010_0000_0000_0000 * 0x100_0000_0000_0000_0000,
        ;
        assert(sig <= wide) by (nonlinear_arith)
            requires
                wide == sig * m + rest,
                rest >= 0,
                m >= 1,
                sig >= 0,
        ;
        let k = lift(exp as int);
        let low = pow2((exp + k) as nat) as int;
        let scale = pow2(k as nat) as int;
        let pa = pow2(qa as nat) as int;
        let pb = pow2(qb as nat) as int;
        let ps = pow2(SCALE as nat) as int;
        let grow = pow2((shift + 72) as nat) as int;
        let w = qb + exp + k;
        let pw = pow2(w as nat) as int;
        lemma_pow2_pos(w as nat);
        lemma_pow2_adds(qb as nat, (exp + k) as nat);
        lemma_pow2_adds(qa as nat, SCALE as nat);
        lemma_pow2_adds((qa + SCALE) as nat, k as nat);
        lemma_pow2_adds((shift + 72) as nat, w as nat);
        assert(shift + 72 + w == qa + SCALE + k);
        assert(grow * pw == pa * ps * scale);
        let p1 = pow2(shift as nat) as int;
        let p2 = pow2(72) as int;
        assert(wide == ma * grow) by (nonlinear_arith)
            requires
                wide == full * p2,
                full == ma * p1,
                grow == p1 * p2,
        ;
        assert(num * scale == wide * pw) by (nonlinear_arith)
            requires
                num == ua * ps,
                ua == ma * pa,
                wide == ma * grow,
                grow * pw == pa * ps * scale,
        ;
        assert(ub * low == m * pw) by (nonlinear_arith)
            requires
                ub == m * pb,
                pw == pb * low,
        ;
        assert(sig * (m * pw) <= wide * pw < (sig + 1) * (m * pw)) by (nonlinear_arith)
            requires
                wide == sig * m + rest,
                0 <= rest < m,
                pw > 0,
        ;
        assert(sticky <==> sig * (m * pw) != wide * pw) by (nonlinear_arith)
            requires
                wide == sig * m + rest,
                sticky <==> rest != 0,
                pw > 0,
        ;
        assert(brackets(sig as int, exp as int, sticky, num, ub));
        assert(num >= 0) by (nonlinear_arith)
            requires
                num == ua * ps,
                ua >= 0,
                ps > 0,
        ;
    }
    let code: u64 = round_bracketed(sig, exp, sticky, Ghost(num), Ghost(ub));
    proof {
        rounding::lemma_nearest_is(code as int, num, ub);
    }
    code
}

/// The code nearest to a whole number.
pub fn of_integer(n: u64) -> (code: u64)
    ensures
        code == rounding::nearest(n * pow2(SCALE as nat), 1),
        code <= INFINITE,
{
    let ghost p = pow2(SCALE as nat) as int;
    let ghost num = n * p;
    if n == 0 {
        proof {
            assert(num == 0) by (nonlinear_arith)
                requires
                    num == n * p,
                    n == 0,
            ;
            lemma_zero(1);
        }
        return 0;
    }
    proof {
        lemma_pow2_pos(SCALE as nat);
        lemma2_to64();
        let one = pow2(0) as int;
        assert(n * (1 * p) == num * one && (n + 1) * (1 * p) > num * one && num >= 0)
            by (nonlinear_arith)
            requires
                num == n * p,
                one == 1,
                p > 0,
                n > 0,
        ;
        assert(brackets(n as int, SCALE as int, false, num, 1));
    }
    let code: u64 = round_bracketed(n as u128, SCALE as i64, false, Ghost(num), Ghost(1int));
    proof {
        rounding::lemma_nearest_is(code as int, num, 1);
    }
    code
}

/// What is off a magnitude by less than a quarter of its last place is nearest
/// to it.
proof fn lemma_absorbed(code: int, num: int)
    requires
        HIDDEN <= code < INFINITE,
        rounding::last_place(code) >= 1,
        4 * (num - rounding::units(code)) < pow2(rounding::last_place(code) as nat),
        4 * (rounding::units(code) - num) < pow2(rounding::last_place(code) as nat),
    ensures
        rounding::is_nearest(code, num, 1),
{
    let q = rounding::last_place(code);
    rounding::lemma_units_step(code);
    rounding::lemma_units_step(code - 1);
    if num >= rounding::units(code) {
        rounding::lemma_between(code, num, 1);
    } else {
        let below = rounding::last_place(code - 1);
        assert(below >= q - 1);
        lemma_pow2_unfold(q as nat);
        if below > q - 1 {
            lemma_pow2_strictly_increases((q - 1) as nat, below as nat);
        }
        rounding::lemma_between(code - 1, num, 1);
    }
}

/// A larger code has its last place as high or higher.
proof fn lemma_last_place_order(a: int, b: int)
    requires
        0 <= b <= a,
    ensures
        rounding::last_place(b) <= rounding::last_place(a),
{
}

/// A magnitude whose last place is more than 60 places lower is below a quarter
/// of the last place of the other one.
proof fn lemma_far(m: int, qa: int, qb: int)
    requires
        0 <= m < 2 * HIDDEN,
        0 <= qb,
        qa - qb > 60,
    ensures
        4 * (m * pow2(qb as nat)) < pow2(qa as nat),
        0 <= m * pow2(qb as nat),
{
    lemma2_to64_rest();
    lemma2_to64();
    let p = pow2(qb as nat) as int;
    lemma_pow2_pos(qb as nat);
    lemma_pow2_adds(55, qb as nat);
    lemma_pow2_strictly_increases((55 + qb) as nat, qa as nat);
    assert(4 * (m * p) < 0x0080_0000_0000_0000 * p && 0 <= m * p) by (nonlinear_arith)
        requires
            0 <= m < 0x0020_0000_0000_0000,
            p > 0,
    ;
}

/// The wider of two significands, brought to the last place of the other one.
fn aligned(ma: u64, d: u64) -> (sig: u128)
    requires
        ma < SIGNIFICAND_END,
        d <= 60,
    ensures
        sig == ma * pow2(d as nat),
        sig < 0x0200_0000_0000_0000_0000_0000_0000_0000,
{
    proof {
        lemma2_to64_rest();
        lemma2_to64();
        lemma_pow2_pos(d as nat);
        if d < 60 {
            lemma_pow2_strictly_increases(d as nat, 60);
        }
        let p = pow2(d as nat) as int;
        assert(0 <= ma * p < 0x0200_0000_0000_0000_0000_0000_0000_0000) by (nonlinear_arith)
            requires
                ma < 0x0020_0000_0000_0000,
                0 < p <= 0x1000_0000_0000_0000,
        ;
    }
    ma as u128 * power_of_two(d)
}

/// A whole number of last places is bracketed without a remainder.
proof fn lemma_brackets_whole(sig: int, exp: int, num: int)
    requires
        0 <= exp,
        sig * pow2(exp as nat) == num,
    ensures
        brackets(sig, exp, false, num, 1),
{
    lemma2_to64();
    lemma_pow2_pos(exp as nat);
    let p = pow2(exp as nat) as int;
    let one = pow2(0) as int;
    assert(sig * (1 * p) == num * one && num * one < (sig + 1) * (1 * p)) by (nonlinear_arith)
        requires
            sig * p == num,
            one == 1,
            p > 0,
    ;
}

/// The rounded sum of two finite magnitudes.
pub fn sum(x: u64, y: u64) -> (code: u64)
    requires
        x < INFINITE,
        y < INFINITE,
    ensures
        code == rounding::nearest(rounding::units(x as int) + rounding::units(y as int), 1),
        code <= INFINITE,
{
    let a: u64 = if x >= y {
        x
    } else {
        y
    };
    let b: u64 = if x >= y {
        y
    } else {
        x
    };
    let (ma, qa) = parts(a);
    let (mb, qb) = parts(b);
    let ghost ua = rounding::units(a as int);
    let ghost ub = rounding::units(b as int);
    proof {
        lemma_units_sign(a as int);
        lemma_units_sign(b as int);
        lemma_last_place_order(a as int, b as int);
    }
    let d: u64 = qa - qb;
    if d > 60 {
        proof {
            lemma_far(mb as int, qa as int, qb as int);
            lemma_absorbed(a as int, ua + ub);
            rounding::lemma_nearest_is(a as int, ua + ub, 1);
        }
        return a;
    }
    if ma == 0 {
        proof {
            assert(b == 0);
            lemma_zero(1);
        }
        return 0;
    }
    let wide: u128 = aligned(ma, d);
    let sig: u128 = wide + mb as u128;
    proof {
        let pd = pow2(d as nat) as int;
        let pb = pow2(qb as nat) as int;
        lemma_pow2_adds(d as nat, qb as nat);
        lemma_pow2_pos(d as nat);
        assert(sig * pb == ua + ub && sig > 0) by (nonlinear_arith)
            requires
                sig == ma * pd + mb,
                ua == ma * (pd * pb),
                ub == mb * pb,
                ma > 0,
                mb >= 0,
                pd > 0,
        ;
        lemma_brackets_whole(sig as int, qb as int, ua + ub);
    }
    let code: u64 = round_bracketed(sig, qb as i64, false, Ghost(ua + ub), Ghost(1int));
    proof {
        rounding::lemma_nearest_is(code as int, ua + ub, 1);
    }
    code
}

/// The rounded difference of two finite magnitudes, the larger one first.
pub fn difference(a: u64, b: u64) -> (code: u64)
    requires
        b <= a < INFINITE,
    ensures
        code == rounding::nearest(rounding::units(a as int) - rounding::units(b as int), 1),
        code <= INFINITE,
{
    let (ma, qa) = parts(a);
    let (mb, qb) = parts(b);
    let ghost ua = rounding::units(a as int);
    let ghost ub = rounding::units(b as int);
    proof {
        lemma_units_sign(a as int);
        lemma_units_sign(b as int);
        rounding::lemma_units_order(b as int, a as int);
        lemma_last_place_order(a as int, b as int);
    }
    if a == b {
        proof {
            lemma_zero(1);
        }
        return 0;
    }
    let d: u64 = qa - qb;
    if d > 60 {
        proof {
            lemma_far(mb as int, qa as int, qb as int);
            lemma_absorbed(a as int, ua - ub);
            rounding::lemma_nearest_is(a as int, ua - ub, 1);
        }
        return a;
    }
    let wide: u128 = aligned(ma, d);
    proof {
        rounding::lemma_units_increase(b as int, a as int);
        let pd = pow2(d as nat) as int;
        let pb = pow2(qb as nat) as int;
        lemma_pow2_adds(d as nat, qb as nat);
        lemma_pow2_pos(qb as nat);
        assert((wide - mb) * pb == ua - ub) by (nonlinear_arith)
            requires
                wide == ma * pd,
                ua == ma * (pd * pb),
                ub == mb * pb,
        ;
        assert(wide > mb) by (nonlinear_arith)
            requires
                (wide - mb) * pb > 0,
                pb > 0,
        ;
        lemma_brackets_whole(wide - mb, qb as int, ua - ub);
    }
    let sig: u128 = wide - mb as u128;
    let code: u64 = round_bracketed(sig, qb as i64, false, Ghost(ua - ub), Ghost(1int));
    proof {
        rounding::lemma_nearest_is(code as int, ua - ub, 1);
    }
    code
}

/// The code of two to the power of 64.
pub const TWO_TO_64: u64 = 0x43f0_0000_0000_0000;

/// The magnitude of `TWO_TO_64`.
pub proof fn lemma_two_to_64()
    ensures
        rounding::units(TWO_TO_64 as int) == 0x1_0000_0000_0000_0000 * pow2(SCALE as nat),
{
    lemma2_to64();
    lemma2_to64_rest();
    lemma_pow2_adds(52, 1086);
    lemma_pow2_adds(64, SCALE as nat);
}

/// A magnitude below `TWO_TO_64` whose whole part has more than 53 binary digits
/// has nothing but the whole part.
pub proof fn lemma_large_is_whole(code: int, n: int)
    requires
        0 <= code < TWO_TO_64,
        n == rounding::units(code) / (pow2(SCALE as nat) as int),
        n >= 0x0020_0000_0000_0000,
    ensures
        rounding::units(code) == n * pow2(SCALE as nat),
{
    let q = rounding::last_place(code);
    let m = rounding::significand(code);
    let p = pow2(SCALE as nat) as int;
    let u = rounding::units(code);
    lemma_pow2_pos(SCALE as nat);
    assert(u >= n * p) by (nonlinear_arith)
        requires
            n == u / p,
            p > 0,
    ;
    if q < SCALE {
        lemma_pow2_strictly_increases(q as nat, SCALE as nat);
        let w = pow2(q as nat) as int;
        lemma_pow2_pos(q as nat);
        assert(m * w < n * p) by (nonlinear_arith)
            requires
                0 <= m < 0x0020_0000_0000_0000 <= n,
                0 < w < p,
        ;
        assert(false);
    }
    lemma_pow2_adds((q - SCALE) as nat, SCALE as nat);
    let k = pow2((q - SCALE) as nat) as int;
    assert(u == (m * k) * p) by (nonlinear_arith)
        requires
            u == m * (k * p),
    ;
    lemma_multiple(m * k, p);
}

/// The last magnitude below `TWO_TO_64`.
pub proof fn lemma_below_two_to_64(code: int)
    requires
        0 <= code < TWO_TO_64,
    ensures
        rounding::units(code) <= (0x1_0000_0000_0000_0000 - 0x800) * pow2(SCALE as nat),
        code == TWO_TO_64 - 1 ==> rounding::units(code) == (0x1_0000_0000_0000_0000 - 0x800)
            * pow2(SCALE as nat),
{
    let p = pow2(SCALE as nat) as int;
    let last = TWO_TO_64 - 1;
    lemma_two_to_64();
    rounding::lemma_units_step(last);
    // The last place there is two to the power of 11.
    lemma2_to64();
    lemma_pow2_adds(11, SCALE as nat);
    assert(rounding::last_place(last) == 1085);
    rounding::lemma_units_order(code, last);
    assert((0x1_0000_0000_0000_0000 - 0x800) * p == 0x1_0000_0000_0000_0000 * p - 0x800 * p)
        by (nonlinear_arith);
}

/// The largest whole number of 64 binary digits is nearest to `TWO_TO_64`.
pub proof fn lemma_largest_rounds_up()
    ensures
        rounding::nearest(u64::MAX * pow2(SCALE as nat), 1) == TWO_TO_64,
{
    let p = pow2(SCALE as nat) as int;
    lemma_pow2_pos(SCALE as nat);
    lemma_two_to_64();
    let code = TWO_TO_64 - 1;
    lemma_below_two_to_64(code);
    let num = u64::MAX * p;
    let lo = rounding::units(code);
    let hi = rounding::units(code + 1);
    assert(lo * 1 <= num && num < hi * 1 && 2 * num > (lo + hi) * 1) by (nonlinear_arith)
        requires
            hi == 0x1_0000_0000_0000_0000 * p,
            lo == (0x1_0000_0000_0000_0000 - 0x800) * p,
            num == 0xffff_ffff_ffff_ffff * p,
            p > 0,
    ;
    rounding::lemma_between(code, num, 1);
    rounding::lemma_nearest_is(TWO_TO_64 as int, num, 1);
}

/// A common factor leaves a quotient as it is and scales the remainder.
proof fn lemma_common_factor(t: int, p: int, w: int)
    requires
        t >= 0,
        p > 0,
        w > 0,
    ensures
        (t * w) / (p * w) == t / p,
        (t * w) % (p * w) == (t % p) * w,
        p * w > 0,
{
    let f = t / p;
    let r = t % p;
    assert(t == f * p + r && 0 <= r < p) by (nonlinear_arith)
        requires
            f == t / p,
            r == t % p,
            p > 0,
    ;
    assert(t * w == f * (p * w) + r * w && 0 <= r * w < p * w) by (nonlinear_arith)
        requires
            t == f * p + r,
            0 <= r < p,
            w > 0,
    ;
    lemma_fundamental_div_mod_converse(t * w, p * w, f, r * w);
}

/// A multiple divides without a remainder.
proof fn lemma_multiple(t: int, w: int)
    requires
        w > 0,
    ensures
        (t * w) / w == t,
        (t * w) % w == 0,
{
    lemma_fundamental_div_mod_converse(t * w, w, t, 0);
}

/// The whole part of a finite magnitude, or the largest number of 64 binary
/// digits where the whole part has more of them.
pub fn whole_part(code: u64) -> (n: u64)
    requires
        code <= INFINITE,
    ensures
        n == if code >= TWO_TO_64 {
            u64::MAX as int
        } else {
            rounding::units(code as int) / (pow2(SCALE as nat) as int)
        },
{
    if code >= TWO_TO_64 {
        return u64::MAX;
    }
    let (m, q) = parts(code);
    let ghost u = rounding::units(code as int);
    let ghost one = pow2(SCALE as nat) as int;
    proof {
        lemma_pow2_pos(SCALE as nat);
        lemma_pow2_pos(q as nat);
        lemma_two_to_64();
        rounding::lemma_units_increase(code as int, TWO_TO_64 as int);
    }
    if q >= SCALE {
        let up: u64 = q - SCALE;
        proof {
            lemma2_to64();
            lemma_pow2_adds(up as nat, SCALE as nat);
            let p = pow2(up as nat) as int;
            assert(u == (m * p) * one) by (nonlinear_arith)
                requires
                    u == m * (p * one),
            ;
            lemma_multiple(m * p, one);
            assert(m * p < 0x1_0000_0000_0000_0000) by (nonlinear_arith)
                requires
                    (m * p) * one < 0x1_0000_0000_0000_0000 * one,
                    one > 0,
            ;
        }
        (m as u128 * power_of_two(up)) as u64
    } else {
        let down: u64 = SCALE - q;
        proof {
            lemma_pow2_adds(down as nat, q as nat);
            lemma_pow2_pos(down as nat);
            lemma_common_factor(m as int, pow2(down as nat) as int, pow2(q as nat) as int);
        }
        if down >= 64 {
            proof {
                lemma2_to64();
                if down > 64 {
                    lemma_pow2_strictly_increases(64, down as nat);
                }
                lemma_fundamental_div_mod_converse(
                    m as int,
                    pow2(down as nat) as int,
                    0,
                    m as int,
                );
            }
            return 0;
        }
        proof {
            let p = pow2(down as nat) as int;
            assert(m as int / p <= m) by (nonlinear_arith)
                requires
                    p > 0,
                    m >= 0,
            ;
        }
        (m as u128 / power_of_two(down)) as u64
    }
}

/// The whole number nearest to the fraction `num / den`, and the even one of
/// two that are equally near.
pub open spec fn round_half_even(num: int, den: int) -> int {
    let below = num / den;
    let twice = 2 * (num % den);
    if twice < den || (twice == den && below % 2 == 0) {
        below
    } else {
        below + 1
    }
}

/// How many parts of one billionth a magnitude below `TWO_TO_64` holds, rounded
/// to the nearest whole number.
pub fn billionths(code: u64) -> (n: u128)
    requires
        code < TWO_TO_64,
    ensures
        n == round_half_even(
            rounding::units(code as int) * 1_000_000_000,
            pow2(SCALE as nat) as int,
        ),
        n < 0x1_0000_0000_0000_0000 * 1_000_000_000,
{
    let (m, q) = parts(code);
    let t: u128 = m as u128 * 1_000_000_000;
    let ghost u = rounding::units(code as int);
    let ghost one = pow2(SCALE as nat) as int;
    proof {
        lemma_pow2_pos(SCALE as nat);
        lemma_pow2_pos(q as nat);
        lemma_two_to_64();
        rounding::lemma_units_increase(code as int, TWO_TO_64 as int);
    }
    if q >= SCALE {
        let up: u64 = q - SCALE;
        proof {
            lemma2_to64();
            lemma_pow2_adds(up as nat, SCALE as nat);
            let p = pow2(up as nat) as int;
            assert(u * 1_000_000_000 == (t * p) * one) by (nonlinear_arith)
                requires
                    u == m * (p * one),
                    t == m * 1_000_000_000,
            ;
            lemma_multiple(t * p, one);
            assert(t * p < 0x1_0000_0000_0000_0000 * 1_000_000_000) by (nonlinear_arith)
                requires
                    (t * p) * one < 0x1_0000_0000_0000_0000 * one * 1_000_000_000,
                    one > 0,
            ;
        }
        return t * power_of_two(up);
    }
    let down: u64 = SCALE - q;
    proof {
        lemma_pow2_adds(down as nat, q as nat);
        lemma_pow2_pos(down as nat);
        lemma_common_factor(t as int, pow2(down as nat) as int, pow2(q as nat) as int);
        let w = pow2(q as nat) as int;
        assert(u * 1_000_000_000 == t * w) by (nonlinear_arith)
            requires
                u == m * w,
                t == m * 1_000_000_000,
        ;
    }
    if down >= 128 {
        proof {
            lemma2_to64();
            lemma_pow2_adds(64, 64);
            if down > 128 {
                lemma_pow2_strictly_increases(128, down as nat);
            }
            let p = pow2(down as nat) as int;
            let w = pow2(q as nat) as int;
            lemma_fundamental_div_mod_converse(t as int, p, 0, t as int);
            assert(2 * (t * w) < p * w) by (nonlinear_arith)
                requires
                    2 * t < p,
                    w > 0,
            ;
        }
        return 0;
    }
    let p: u128 = power_of_two(down);
    let below: u128 = t / p;
    let rest: u128 = t % p;
    let half: u128 = p / 2;
    proof {
        lemma_pow2_unfold(down as nat);
        let w = pow2(q as nat) as int;
        let pp = p as int;
        let r = rest as int;
        assert(2 * r < pp ==> 2 * (r * w) < pp * w) by (nonlinear_arith)
            requires
                w > 0,
        ;
        assert(2 * r == pp ==> 2 * (r * w) == pp * w) by (nonlinear_arith);
        assert(2 * r > pp ==> 2 * (r * w) > pp * w) by (nonlinear_arith)
            requires
                w > 0,
        ;
        assert(t as int / pp <= t) by (nonlinear_arith)
            requires
                pp > 0,
                t >= 0,
        ;
    }
    if rest < half || (rest == half && below % 2 == 0) {
        below
    } else {
        below + 1
    }
}

} // verus!
