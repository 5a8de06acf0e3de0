//! The arithmetic of pacing: how many workers bring a quota to its target at the reset.

use crate::double::{
    difference, is_finite, is_infinite, is_nan, is_negative, law_difference_is_bounded,
    law_difference_is_near, law_infinite_quotient_is_huge, law_integer_is_exact, law_integer_is_near, law_quotient_is_bounded,
    law_quotient_is_near, law_quotient_is_unsigned, lemma_magnitude, magnitude, of_integer, quotient, shifted_one,
    significand_of, split, step_of, unit_count, units_of, value, Double, Parts, INFINITY, SIGN,
};
use vstd::arithmetic::div_mod::{lemma_fundamental_div_mod, lemma_fundamental_div_mod_converse};
use vstd::arithmetic::power2::{
    lemma2_to64, lemma2_to64_rest, lemma_pow2_adds, lemma_pow2_pos, lemma_pow2_strictly_increases,
    pow2,
};
use vstd::prelude::*;

verus! {

/// The milliseconds of an hour.
pub open spec fn hour() -> Double {
    Double { bits: 0x414b_7740_0000_0000 }
}

/// A billionth: a ratio that is less than this above a whole number counts as that number.
pub open spec fn tolerance() -> Double {
    Double { bits: 0x3e11_2e0b_e826_d695 }
}

/// Milliseconds in hours.
pub open spec fn hours(milliseconds: int) -> Double {
    quotient(of_integer(milliseconds), hour())
}

/// What one worker burned of a quota in an hour.
pub open spec fn burn_rate(used: Double, before: Double, elapsed: int, workers: u32) -> Double {
    quotient(quotient(difference(used, before), hours(elapsed)), of_integer(workers as int))
}

/// The rate that brings a quota to its target within the remaining time, over one worker's rate.
pub open spec fn needed(target: Double, used: Double, remaining: int, burn: Double) -> Double {
    quotient(quotient(difference(target, used), hours(remaining)), burn)
}

/// A ratio rounded up to whole workers, but for the tolerance. A negative ratio, or none, asks for
/// no worker; a count that does not fit is the largest that does.
pub open spec fn whole_workers(ratio: Double) -> u32 {
    if is_nan(ratio) || is_negative(ratio) {
        0
    } else if is_infinite(ratio) {
        u32::MAX
    } else {
        let units = units_of(magnitude(ratio));
        let below = units / unit_count();
        let count = if units % unit_count() < units_of(magnitude(tolerance())) {
            below
        } else {
            below + 1
        };
        if count > u32::MAX {
            u32::MAX
        } else {
            count as u32
        }
    }
}

/// Milliseconds in hours.
fn to_hours(milliseconds: i64) -> (result: Double)
    ensures
        result == hours(milliseconds as int),
{
    Double::from_integer(milliseconds as i128).over(Double { bits: 0x414b_7740_0000_0000 })
}

/// Works out what one worker burned in an hour.
pub fn learn_rate(used: Double, before: Double, elapsed: i64, workers: u32) -> (rate: Double)
    ensures
        rate == burn_rate(used, before, elapsed as int, workers),
{
    used.minus(before).over(to_hours(elapsed)).over(Double::from_integer(workers as i128))
}

/// Works out the rate that is needed, over one worker's rate.
pub fn needed_ratio(target: Double, used: Double, remaining: i64, burn: Double) -> (ratio: Double)
    ensures
        ratio == needed(target, used, remaining as int, burn),
{
    target.minus(used).over(to_hours(remaining)).over(burn)
}

/// A finite number of fewer steps than one has, as a whole number of ones and a rest.
proof fn lemma_whole_and_rest(significand: int, step: nat, shift: nat)
    requires
        significand >= 0,
        step + shift == 1074,
    ensures
        (significand * pow2(step)) / unit_count() == significand / pow2(shift) as int,
        (significand * pow2(step)) % unit_count() == (significand % pow2(shift) as int) * pow2(step),
{
    let p = pow2(step) as int;
    let s = pow2(shift) as int;
    lemma_pow2_pos(step);
    lemma_pow2_pos(shift);
    lemma_pow2_adds(step, shift);
    lemma_fundamental_div_mod(significand, s);
    let q = significand / s;
    let r = significand % s;
    assert(significand * p == q * (p * s) + r * p) by (nonlinear_arith)
        requires
            significand == s * q + r,
    ;
    assert(0 <= r * p < p * s) by (nonlinear_arith)
        requires
            0 <= r < s,
            p > 0,
    ;
    lemma_fundamental_div_mod_converse(significand * p, p * s, q, r * p);
}

/// Rounds a ratio up to whole workers.
pub fn round_workers(ratio: Double) -> (workers: u32)
    ensures
        workers == whole_workers(ratio),
{
    let bits: u64 = ratio.magnitude_bits();
    if bits > INFINITY || ratio.bits >= SIGN {
        return 0;
    }
    if bits == INFINITY {
        return u32::MAX;
    }
    let parts: Parts = split(bits);
    let ghost m = parts.significand as int;
    let ghost k = parts.step as nat;
    if parts.step >= 1074 {
        proof {
            lemma_pow2_adds(1074, (k - 1074) as nat);
            lemma_pow2_pos((k - 1074) as nat);
            lemma_pow2_pos(1074);
            let e = pow2((k - 1074) as nat) as int;
            let u = unit_count();
            assert(m * (u * e) == (m * e) * u + 0) by (nonlinear_arith);
            lemma_fundamental_div_mod_converse(m * pow2(k), u, m * e, 0);
            assert(m * e >= m) by (nonlinear_arith)
                requires
                    m >= 0,
                    e >= 1,
            ;
        }
        return u32::MAX;
    }
    let shift: u32 = 1074 - parts.step;
    let mut below: u64 = 0;
    let mut rest: u64 = parts.significand;
    if shift < 64 {
        let power: u128 = shifted_one(shift);
        proof {
            lemma_pow2_pos(shift as nat);
            lemma_fundamental_div_mod(m, power as int);
            let q = m / power as int;
            assert(0 <= q <= m) by (nonlinear_arith)
                requires
                    m == power * q + m % power as int,
                    0 <= m % (power as int) < power,
                    power >= 1,
                    m >= 0,
            ;
        }
        below = (parts.significand as u128 / power) as u64;
        rest = (parts.significand as u128 % power) as u64;
    } else {
        proof {
            lemma2_to64();
            lemma2_to64_rest();
            if shift > 64 {
                lemma_pow2_strictly_increases(64, shift as nat);
            }
            lemma_fundamental_div_mod_converse(m, pow2(shift as nat) as int, 0, m);
        }
    }
    proof {
        lemma_whole_and_rest(m, k, shift as nat);
        lemma_pow2_pos(shift as nat);
        assert(rest == m % pow2(shift as nat) as int && below == m / pow2(shift as nat) as int);
        assert(step_of(magnitude(tolerance())) == 992);
        assert(significand_of(magnitude(tolerance())) == 0x11_2e0b_e826_d695);
    }
    let ghost r = rest as int;
    let within: bool = if parts.step < 992 {
        proof {
            lemma2_to64();
            lemma2_to64_rest();
            lemma_pow2_adds(53, k);
            lemma_pow2_adds(52, 992);
            if 53 + k < 1044 {
                lemma_pow2_strictly_increases((53 + k) as nat, 1044);
            }
            lemma_pow2_pos(k);
            lemma_pow2_pos(992);
            let p = pow2(k) as int;
            let t = pow2(992) as int;
            assert(r * p < 0x20_0000_0000_0000 * p) by (nonlinear_arith)
                requires
                    r < 0x20_0000_0000_0000,
                    p > 0,
            ;
            assert(0x11_2e0b_e826_d695 * t >= 0x10_0000_0000_0000 * t) by (nonlinear_arith)
                requires
                    t > 0,
            ;
        }
        true
    } else {
        let excess: u32 = parts.step - 992;
        let power: u128 = shifted_one(excess);
        proof {
            lemma2_to64();
            lemma2_to64_rest();
            lemma_pow2_adds(18, 64);
            lemma_pow2_adds(shift as nat, excess as nat);
            lemma_pow2_adds(992, excess as nat);
            lemma_pow2_pos(992);
            let s = pow2(shift as nat) as int;
            let e = power as int;
            let t = pow2(992) as int;
            assert(0 <= r * e <= s * e) by (nonlinear_arith)
                requires
                    0 <= r <= s,
                    e >= 0,
            ;
            assert(r * (t * e) < 0x11_2e0b_e826_d695 * t <==> r * e < 0x11_2e0b_e826_d695)
                by (nonlinear_arith)
                requires
                    t > 0,
            ;
        }
        rest as u128 * power < 0x11_2e0b_e826_d695
    };
    let count: u64 = if within {
        below
    } else {
        below + 1
    };
    if count > u32::MAX as u64 {
        u32::MAX
    } else {
        count as u32
    }
}

/// The count is the least that will do: it covers the ratio up to the tolerance, and one worker
/// fewer does not.
pub proof fn law_whole_workers_least(ratio: Double)
    requires
        !is_nan(ratio),
        !is_negative(ratio),
        !is_infinite(ratio),
    ensures
        whole_workers(ratio) < u32::MAX ==> whole_workers(ratio) * unit_count() + units_of(
            magnitude(tolerance()),
        ) > units_of(magnitude(ratio)),
        whole_workers(ratio) > 0 ==> (whole_workers(ratio) - 1) * unit_count() + units_of(
            magnitude(tolerance()),
        ) <= units_of(magnitude(ratio)),
{
    lemma_magnitude(magnitude(ratio));
    lemma_tolerance();
    let u = unit_count();
    lemma_pow2_pos(1074);
    let units = units_of(magnitude(ratio));
    lemma_fundamental_div_mod(units, u);
    let f = units / u;
    let rest = units % u;
    let t = units_of(magnitude(tolerance()));
    let w = whole_workers(ratio) as int;
    assert(f >= 0) by (nonlinear_arith)
        requires
            units == u * f + rest,
            rest < u,
            units >= 0,
            u > 0,
    ;
    assert(u * f == f * u) by (nonlinear_arith);
    assert((f + 1) * u == f * u + u) by (nonlinear_arith);
    assert((f - 1) * u == f * u - u) by (nonlinear_arith);
    if w == u32::MAX && f + 1 > w {
        let count = if rest < t {
            f
        } else {
            f + 1
        };
        if w < count {
            assert((w - 1) * u <= (count - 2) * u) by (nonlinear_arith)
                requires
                    w - 1 <= count - 2,
                    u > 0,
            ;
            assert((count - 2) * u <= (f - 1) * u) by (nonlinear_arith)
                requires
                    count - 2 <= f - 1,
                    u > 0,
            ;
        }
    }
}

/// The tolerance is less than one.
proof fn lemma_tolerance()
    ensures
        0 < units_of(magnitude(tolerance())) < unit_count(),
{
    assert(step_of(magnitude(tolerance())) == 992);
    assert(significand_of(magnitude(tolerance())) == 0x11_2e0b_e826_d695);
    lemma2_to64();
    lemma2_to64_rest();
    lemma_pow2_adds(53, 992);
    lemma_pow2_strictly_increases(1045, 1074);
    lemma_pow2_pos(992);
    let t = pow2(992) as int;
    assert(0 < 0x11_2e0b_e826_d695 * t < 0x20_0000_0000_0000 * t) by (nonlinear_arith)
        requires
            t > 0,
    ;
}

/// A number of units is another, up to one part in 2^53 or half of a third.
spec fn is_near(rounded: int, exact: int, step: int) -> bool {
    ||| -exact <= 0x20_0000_0000_0000 * (rounded - exact) <= exact
    ||| -step <= 2 * (rounded - exact) <= step
}

/// An hour has 3,600,000 milliseconds.
proof fn lemma_hour()
    ensures
        is_finite(hour()),
        value(hour()) == 3_600_000 * unit_count(),
{
    lemma2_to64();
    lemma2_to64_rest();
    lemma_pow2_adds(31, 1043);
    assert(step_of(magnitude(hour())) == 1043);
    assert(significand_of(magnitude(hour())) == 0x1b_7740_0000_0000);
    let p = pow2(1043) as int;
    assert(0x1b_7740_0000_0000 * p == 3_600_000 * (0x8000_0000 * p)) by (nonlinear_arith);
}

/// Milliseconds in hours are the 3,600,000th part of them, up to rounding.
pub proof fn law_hours(milliseconds: int)
    requires
        0 < milliseconds < 0x1_0000_0000_0000_0000,
    ensures
        is_finite(hours(milliseconds)),
        value(hours(milliseconds)) > 0,
        -(milliseconds * unit_count()) <= 0x8_0000_0000_0000 * (3_600_000 * value(
            hours(milliseconds),
        ) - milliseconds * unit_count()) <= milliseconds * unit_count(),
{
    let u = unit_count();
    lemma2_to64();
    lemma2_to64_rest();
    lemma_pow2_strictly_increases(64, 1074);
    lemma_pow2_adds(16, 64);
    lemma_pow2_strictly_increases(80, 1074);
    assert(u > 0x1_0000_0000_0000_0000_0000);
    lemma_hour();
    law_integer_is_near(milliseconds);
    let a = of_integer(milliseconds);
    let exact = milliseconds * u;
    assert(exact >= u) by (nonlinear_arith)
        requires
            exact == milliseconds * u,
            milliseconds >= 1,
            u > 0,
    ;
    let x = value(a);
    let y = value(hour());
    assert(x > 0);
    lemma_magnitude(magnitude(a));
    assert(x * u <= x * y) by (nonlinear_arith)
        requires
            x >= 0,
            u <= y,
    ;
    law_quotient_is_bounded(a, hour(), magnitude(a));
    law_quotient_is_near(a, hour());
    let h = value(hours(milliseconds));
    let g = 3_600_000 * h;
    assert(h * y == g * u && h * y - x * u == (g - x) * u) by (nonlinear_arith)
        requires
            y == 3_600_000 * u,
            g == 3_600_000 * h,
    ;
    if -(x * u) <= 0x20_0000_0000_0000 * (h * y - x * u) <= x * u {
        assert(-x <= 0x20_0000_0000_0000 * (g - x) <= x) by (nonlinear_arith)
            requires
                -(x * u) <= 0x20_0000_0000_0000 * ((g - x) * u) <= x * u,
                u > 0,
        ;
    } else {
        assert(-3_600_000 <= 2 * (g - x) <= 3_600_000) by (nonlinear_arith)
            requires
                -y <= 2 * ((g - x) * u) <= y,
                y == 3_600_000 * u,
                u > 0,
        ;
    }
}

/// The end of a chain of rounded quotients: a product that is near to a whole over some hours is
/// near to it over the milliseconds.
proof fn lemma_over_milliseconds(a: int, h: int, t: int, u: int, whole: int, step: int)
    requires
        a >= 0,
        h > 0,
        t > 0,
        u > 0,
        whole >= 0,
        step >= 0,
        -(t * u) <= 0x8_0000_0000_0000 * (3_600_000 * h - t * u) <= t * u,
        -(7 * whole + 0x20_0000_0000_0001 * (step * h)) <= 0x20_0000_0000_0000 * (a * h - whole) <= 7
            * whole + 0x20_0000_0000_0001 * (step * h),
    ensures
        -(16 * (3_600_000 * whole) + 0x80_0000_0000_0000 * (step * (t * u))) <= 0x20_0000_0000_0000
            * (a * (t * u) - 3_600_000 * whole) <= 16 * (3_600_000 * whole) + 0x80_0000_0000_0000
            * (step * (t * u)),
{
    let g = 3_600_000 * h;
    let tu = t * u;
    let k = 3_600_000 * whole;
    let ag = a * g;
    let p = a * tu;
    let sg = step * g;
    let s = step * tu;
    assert(ag == 3_600_000 * (a * h) && sg == 3_600_000 * (step * h)) by (nonlinear_arith)
        requires
            ag == a * g,
            sg == step * g,
            g == 3_600_000 * h,
    ;
    assert(tu > 0) by (nonlinear_arith)
        requires
            tu == t * u,
            t > 0,
            u > 0,
    ;
    assert(g <= 2 * tu);
    assert(0 <= sg <= 2 * s) by (nonlinear_arith)
        requires
            sg == step * g,
            s == step * tu,
            0 <= g <= 2 * tu,
            step >= 0,
    ;
    assert(p >= 0) by (nonlinear_arith)
        requires
            p == a * tu,
            a >= 0,
            tu > 0,
    ;
    assert(-p <= 0x8_0000_0000_0000 * (ag - p) <= p) by (nonlinear_arith)
        requires
            ag == a * g,
            p == a * tu,
            -tu <= 0x8_0000_0000_0000 * (g - tu) <= tu,
            a >= 0,
    ;
}

/// What was burned, in terms of the rounded steps by which a rate is worked out of it.
proof fn lemma_burned(
    change: int,
    c: int,
    u: int,
    h: int,
    t: int,
    q: int,
    b: int,
    w: int,
)
    requires
        change > 0,
        c > 0,
        u > 0,
        h > 0,
        t > 0,
        q >= 0,
        b >= 0,
        w > 0,
        -change <= 0x20_0000_0000_0000 * (c - change) <= change,
        -(t * u) <= 0x8_0000_0000_0000 * (3_600_000 * h - t * u) <= t * u,
        is_near(q * h, c * u, h),
        is_near(b * w, q, w),
    ensures
        -(3_600_000 * change + 0x8_0000_0000_0000 * (w * t)) <= 0x2_0000_0000_0000 * (b * w * t
            - 3_600_000 * change) <= 3_600_000 * change + 0x8_0000_0000_0000 * (w * t),
{
    let x = q * h;
    let y = c * u;
    let z = change * u;
    let a = b * w;
    let wh = w * h;
    assert(-z <= 0x20_0000_0000_0000 * (y - z) <= z && z > 0) by (nonlinear_arith)
        requires
            y == c * u,
            z == change * u,
            -change <= 0x20_0000_0000_0000 * (c - change) <= change,
            u > 0,
            change > 0,
    ;
    assert(x >= 0 && wh >= h && a >= 0) by (nonlinear_arith)
        requires
            x == q * h,
            wh == w * h,
            a == b * w,
            q >= 0,
            h > 0,
            w >= 1,
            b >= 0,
    ;
    let v = a * h;
    assert(is_near(v, x, wh)) by {
        if -q <= 0x20_0000_0000_0000 * (a - q) <= q {
            assert(-x <= 0x20_0000_0000_0000 * (v - x) <= x) by (nonlinear_arith)
                requires
                    v == a * h,
                    x == q * h,
                    -q <= 0x20_0000_0000_0000 * (a - q) <= q,
                    h > 0,
            ;
        } else {
            assert(-wh <= 2 * (v - x) <= wh) by (nonlinear_arith)
                requires
                    v == a * h,
                    x == q * h,
                    wh == w * h,
                    -w <= 2 * (a - q) <= w,
                    h > 0,
            ;
        }
    }
    assert(y >= 0);
    lemma_over_milliseconds(a, h, t, u, z, w);
    let p = a * t;
    let s = w * t;
    assert(a * (t * u) == p * u && w * (t * u) == s * u) by (nonlinear_arith)
        requires
            p == a * t,
            s == w * t,
    ;
    let m = 3_600_000 * change;
    assert(3_600_000 * z == m * u) by (nonlinear_arith)
        requires
            z == change * u,
            m == 3_600_000 * change,
    ;
    assert(-(16 * m + 0x80_0000_0000_0000 * s) <= 0x20_0000_0000_0000 * (p - m) <= 16 * m
        + 0x80_0000_0000_0000 * s) by (nonlinear_arith)
        requires
            -(16 * (m * u) + 0x80_0000_0000_0000 * (s * u)) <= 0x20_0000_0000_0000 * (p * u - m * u)
                <= 16 * (m * u) + 0x80_0000_0000_0000 * (s * u),
            u > 0,
    ;
}

/// What one worker burns in an hour, times the workers, times the time, is what was burned: the
/// rate, over `elapsed` milliseconds and by `workers`, makes up the change in use, up to one part
/// in 2^49 and four units. So twice the time gives half the rate, and twice the workers too.
pub proof fn law_burn_makes_up_the_change(used: Double, before: Double, elapsed: int, workers: u32)
    requires
        is_finite(used),
        is_finite(before),
        value(used) > value(before),
        value(used) - value(before) <= unit_count(),
        0 < elapsed < 0x1_0000_0000_0000_0000,
        workers > 0,
    ensures
        is_finite(burn_rate(used, before, elapsed, workers)),
        value(burn_rate(used, before, elapsed, workers)) >= 0,
        ({
            let burned = value(burn_rate(used, before, elapsed, workers)) * workers * elapsed;
            let change = 3_600_000 * (value(used) - value(before));
            -(change + 0x8_0000_0000_0000 * (workers * elapsed)) <= 0x2_0000_0000_0000 * (burned
                - change) <= change + 0x8_0000_0000_0000 * (workers * elapsed)
        }),
{
    let u = unit_count();
    lemma_pow2_pos(1074);
    law_difference_is_bounded(used, before);
    law_difference_is_near(used, before);
    law_hours(elapsed);
    let change = difference(used, before);
    let c = value(change);
    let time = hours(elapsed);
    let h = value(time);
    lemma_rate_is_bounded(c, h, elapsed, u);
    lemma_two_to_24();
    let bound = 0x4170_0000_0000_0000;
    law_quotient_is_bounded(change, time, bound);
    law_quotient_is_near(change, time);
    let rate = quotient(change, time);
    let q = value(rate);
    law_integer_is_exact(workers as int);
    let crew = of_integer(workers as int);
    let w = workers as int;
    assert(w * u >= u) by (nonlinear_arith)
        requires
            w >= 1,
            u > 0,
    ;
    lemma_magnitude(magnitude(rate));
    let wu = w * u;
    assert(q * u <= q * wu) by (nonlinear_arith)
        requires
            q >= 0,
            u <= wu,
    ;
    assert(q == units_of(magnitude(rate)));
    law_quotient_is_bounded(rate, crew, magnitude(rate));
    law_quotient_is_near(rate, crew);
    let b = value(quotient(rate, crew));
    let a = b * w;
    assert(b * (w * u) == a * u) by (nonlinear_arith)
        requires
            a == b * w,
    ;
    if -(q * u) <= 0x20_0000_0000_0000 * (a * u - q * u) <= q * u {
        assert(-q <= 0x20_0000_0000_0000 * (a - q) <= q) by (nonlinear_arith)
            requires
                -(q * u) <= 0x20_0000_0000_0000 * (a * u - q * u) <= q * u,
                u > 0,
        ;
    } else {
        assert(-w <= 2 * (a - q) <= w) by (nonlinear_arith)
            requires
                -(w * u) <= 2 * (a * u - q * u) <= w * u,
                u > 0,
        ;
    }
    lemma_burned(value(used) - value(before), c, u, h, elapsed, q, b, w);
}

proof fn lemma_two_to_24()
    ensures
        units_of(0x4170_0000_0000_0000) == 0x100_0000 * unit_count(),
{
    lemma2_to64();
    lemma2_to64_rest();
    lemma_pow2_adds(52, 1046);
    lemma_pow2_adds(24, 1074);
    assert(step_of(0x4170_0000_0000_0000) == 1046);
    assert(significand_of(0x4170_0000_0000_0000) == 0x10_0000_0000_0000);
}

proof fn lemma_rate_is_bounded(c: int, h: int, t: int, u: int)
    requires
        0 < c <= u,
        h > 0,
        t >= 1,
        -(t * u) <= 0x8_0000_0000_0000 * (3_600_000 * h - t * u),
    ensures
        c * u <= 0x100_0000 * u * h,
{
    assert(t * u >= u) by (nonlinear_arith)
        requires
            t >= 1,
            u > 0,
    ;
    assert(0x100_0000 * h >= u);
    assert(0x100_0000 * u * h == u * (0x100_0000 * h)) by (nonlinear_arith);
    assert(c * u <= u * u) by (nonlinear_arith)
        requires
            c <= u,
            u > 0,
    ;
    assert(u * u <= u * (0x100_0000 * h)) by (nonlinear_arith)
        requires
            u <= 0x100_0000 * h,
            u > 0,
    ;
}

/// What is needed, in terms of the rounded steps by which a ratio is worked out of it.
proof fn lemma_needed(rest: int, d: int, u: int, h: int, t: int, q: int, r: int, b: int)
    requires
        rest > 0,
        d > 0,
        u > 0,
        h > 0,
        t > 0,
        q >= 0,
        r >= 0,
        b > 0,
        -rest <= 0x20_0000_0000_0000 * (d - rest) <= rest,
        -(t * u) <= 0x8_0000_0000_0000 * (3_600_000 * h - t * u) <= t * u,
        is_near(q * h, d * u, h),
        is_near(r * b, q * u, b),
    ensures
        -(3_600_000 * rest * u + 0x8_0000_0000_0000 * ((b + u) * t)) <= 0x2_0000_0000_0000 * (r * b
            * t - 3_600_000 * rest * u) <= 3_600_000 * rest * u + 0x8_0000_0000_0000 * ((b + u) * t),
{
    let x = q * h;
    let y = d * u;
    let z = rest * u;
    assert(-z <= 0x20_0000_0000_0000 * (y - z) <= z && z > 0) by (nonlinear_arith)
        requires
            y == d * u,
            z == rest * u,
            -rest <= 0x20_0000_0000_0000 * (d - rest) <= rest,
            u > 0,
            rest > 0,
    ;
    let a = r * b;
    let v = a * h;
    let xu = x * u;
    let yu = y * u;
    let zu = z * u;
    let hu = h * u;
    let bh = b * h;
    assert(x >= 0 && a >= 0 && bh > 0 && hu > 0 && zu > 0) by (nonlinear_arith)
        requires
            x == q * h,
            a == r * b,
            bh == b * h,
            hu == h * u,
            zu == z * u,
            q >= 0,
            r >= 0,
            b > 0,
            h > 0,
            u > 0,
            z > 0,
    ;
    assert(-zu <= 0x20_0000_0000_0000 * (yu - zu) <= zu) by (nonlinear_arith)
        requires
            yu == y * u,
            zu == z * u,
            -z <= 0x20_0000_0000_0000 * (y - z) <= z,
            u > 0,
    ;
    assert(is_near(xu, yu, hu)) by {
        if -y <= 0x20_0000_0000_0000 * (x - y) <= y {
            assert(-yu <= 0x20_0000_0000_0000 * (xu - yu) <= yu) by (nonlinear_arith)
                requires
                    xu == x * u,
                    yu == y * u,
                    -y <= 0x20_0000_0000_0000 * (x - y) <= y,
                    u > 0,
            ;
        } else {
            assert(-hu <= 2 * (xu - yu) <= hu) by (nonlinear_arith)
                requires
                    xu == x * u,
                    yu == y * u,
                    hu == h * u,
                    -h <= 2 * (x - y) <= h,
                    u > 0,
            ;
        }
    }
    assert(is_near(v, xu, bh)) by {
        let qu = q * u;
        assert(xu == qu * h) by (nonlinear_arith)
            requires
                xu == x * u,
                x == q * h,
                qu == q * u,
        ;
        if -qu <= 0x20_0000_0000_0000 * (a - qu) <= qu {
            assert(-xu <= 0x20_0000_0000_0000 * (v - xu) <= xu) by (nonlinear_arith)
                requires
                    v == a * h,
                    xu == qu * h,
                    -qu <= 0x20_0000_0000_0000 * (a - qu) <= qu,
                    h > 0,
            ;
        } else {
            assert(-bh <= 2 * (v - xu) <= bh) by (nonlinear_arith)
                requires
                    v == a * h,
                    xu == qu * h,
                    bh == b * h,
                    -b <= 2 * (a - qu) <= b,
                    h > 0,
            ;
        }
    }
    let step = b + u;
    assert(step * h == bh + hu) by (nonlinear_arith)
        requires
            step == b + u,
            bh == b * h,
            hu == h * u,
    ;
    lemma_over_milliseconds(a, h, t, u, zu, step);
    let p = a * t;
    let s = step * t;
    let m = 3_600_000 * rest * u;
    assert(a * (t * u) == p * u && step * (t * u) == s * u) by (nonlinear_arith)
        requires
            p == a * t,
            s == step * t,
    ;
    assert(3_600_000 * zu == m * u) by (nonlinear_arith)
        requires
            zu == z * u,
            z == rest * u,
            m == 3_600_000 * rest * u,
    ;
    assert(-(16 * m + 0x80_0000_0000_0000 * s) <= 0x20_0000_0000_0000 * (p - m) <= 16 * m
        + 0x80_0000_0000_0000 * s) by (nonlinear_arith)
        requires
            -(16 * (m * u) + 0x80_0000_0000_0000 * (s * u)) <= 0x20_0000_0000_0000 * (p * u - m * u)
                <= 16 * (m * u) + 0x80_0000_0000_0000 * (s * u),
            u > 0,
    ;
}

/// The needed ratio, times one worker's rate, times the remaining time, is what is left to the
/// target, up to rounding.
pub proof fn law_needed_makes_up_the_rest(
    target: Double,
    used: Double,
    remaining: int,
    burn: Double,
)
    requires
        is_finite(target),
        is_finite(used),
        value(target) > value(used),
        value(target) - value(used) <= unit_count(),
        0 < remaining < 0x1_0000_0000_0000_0000,
        is_finite(burn),
        value(burn) > 0,
    ensures
        !is_nan(needed(target, used, remaining, burn)),
        !is_negative(needed(target, used, remaining, burn)),
        is_finite(needed(target, used, remaining, burn)) ==> ({
            let reached = value(needed(target, used, remaining, burn)) * value(burn) * remaining;
            let rest = 3_600_000 * (value(target) - value(used)) * unit_count();
            let slack = 0x8_0000_0000_0000 * ((value(burn) + unit_count()) * remaining);
            -(rest + slack) <= 0x2_0000_0000_0000 * (reached - rest) <= rest + slack
        }),
{
    let u = unit_count();
    lemma_pow2_pos(1074);
    law_difference_is_bounded(target, used);
    law_difference_is_near(target, used);
    law_hours(remaining);
    let rest = difference(target, used);
    let time = hours(remaining);
    lemma_rate_is_bounded(value(rest), value(time), remaining, u);
    lemma_two_to_24();
    law_quotient_is_bounded(rest, time, 0x4170_0000_0000_0000);
    law_quotient_is_near(rest, time);
    let rate = quotient(rest, time);
    law_quotient_is_unsigned(rest, time);
    law_quotient_is_unsigned(rate, burn);
    if is_finite(quotient(rate, burn)) {
        law_quotient_is_near(rate, burn);
        lemma_needed(
            value(target) - value(used),
            value(rest),
            u,
            value(time),
            remaining,
            value(rate),
            value(quotient(rate, burn)),
            value(burn),
        );
    }
}

/// The tolerance is a billionth.
pub proof fn law_tolerance_is_a_billionth()
    ensures
        unit_count() / 1_000_000_001 <= units_of(magnitude(tolerance())) <= unit_count()
            / 999_999_999,
{
    lemma2_to64();
    lemma2_to64_rest();
    assert(step_of(magnitude(tolerance())) == 992);
    assert(significand_of(magnitude(tolerance())) == 0x11_2e0b_e826_d695);
    lemma_pow2_adds(18, 64);
    lemma_pow2_adds(82, 992);
    lemma_pow2_pos(992);
    let p = pow2(992) as int;
    let t = 0x11_2e0b_e826_d695 * p;
    let u = unit_count();
    assert(u == 0x4_0000_0000_0000_0000_0000 * p);
    assert(999_999_999 * t <= u && u <= 1_000_000_001 * t) by (nonlinear_arith)
        requires
            t == 0x11_2e0b_e826_d695 * p,
            u == 0x4_0000_0000_0000_0000_0000 * p,
            p > 0,
    ;
    lemma_fundamental_div_mod(u, 999_999_999);
    lemma_fundamental_div_mod(u, 1_000_000_001);
}

/// A count of workers brings what is left of a quota to its end within the remaining milliseconds,
/// up to a billionth of a worker and rounding.
pub open spec fn is_enough(workers: int, rest: int, remaining: int, burn: int) -> bool {
    let u = unit_count();
    let goal = 3_600_000 * rest * u;
    let slack = goal + 0x8_0000_0000_0000 * ((burn + u) * remaining);
    0x2_0000_0000_0000 * goal <= 0x2_0000_0000_0000 * ((workers * u + u / 999_999_999) * burn
        * remaining) + slack
}

/// One worker fewer than a count does not bring what is left of a quota to its end, up to rounding.
pub open spec fn is_none_too_many(workers: int, rest: int, remaining: int, burn: int) -> bool {
    let u = unit_count();
    let goal = 3_600_000 * rest * u;
    let slack = goal + 0x8_0000_0000_0000 * ((burn + u) * remaining);
    workers > 0 ==> 0x2_0000_0000_0000 * (((workers - 1) * u + u / 1_000_000_001) * burn
        * remaining) <= 0x2_0000_0000_0000 * goal + slack
}

/// A rate alone, over the remaining time, comes to what is left, up to rounding.
proof fn lemma_rate_makes_up(rest: int, d: int, u: int, h: int, t: int, q: int)
    requires
        rest > 0,
        d > 0,
        u > 0,
        h > 0,
        t > 0,
        q >= 0,
        -rest <= 0x20_0000_0000_0000 * (d - rest) <= rest,
        -(t * u) <= 0x8_0000_0000_0000 * (3_600_000 * h - t * u) <= t * u,
        is_near(q * h, d * u, h),
    ensures
        0x2_0000_0000_0000 * (q * (t * u)) <= 0x2_0000_0000_0000 * (3_600_000 * rest * u) + 3_600_000
            * rest * u + 0x8_0000_0000_0000 * (u * t),
{
    let y = d * u;
    let z = rest * u;
    assert(-z <= 0x20_0000_0000_0000 * (y - z) <= z && z > 0) by (nonlinear_arith)
        requires
            y == d * u,
            z == rest * u,
            -rest <= 0x20_0000_0000_0000 * (d - rest) <= rest,
            u > 0,
            rest > 0,
    ;
    assert(q * h >= 0) by (nonlinear_arith)
        requires
            q >= 0,
            h > 0,
    ;
    lemma_over_milliseconds(q, h, t, u, z, 1);
    assert(3_600_000 * z == 3_600_000 * rest * u) by (nonlinear_arith)
        requires
            z == rest * u,
    ;
    assert(1 * (t * u) == u * t) by (nonlinear_arith);
}

/// The paced count brings what is left of a quota to the target at the reset, with no worker too
/// many. A count that does not fit is the largest that does.
pub proof fn law_paced_count_brings_to_target(
    target: Double,
    used: Double,
    remaining: int,
    burn: Double,
)
    requires
        is_finite(target),
        is_finite(used),
        value(target) > value(used),
        value(target) - value(used) <= unit_count(),
        0 < remaining < 0x1_0000_0000_0000_0000,
        is_finite(burn),
        value(burn) > 0,
    ensures
        ({
            let workers = whole_workers(needed(target, used, remaining, burn));
            let rest = value(target) - value(used);
            &&& workers < u32::MAX ==> is_enough(workers as int, rest, remaining, value(burn))
            &&& is_none_too_many(workers as int, rest, remaining, value(burn))
        }),
{
    let ratio = needed(target, used, remaining, burn);
    let w = whole_workers(ratio) as int;
    law_needed_makes_up_the_rest(target, used, remaining, burn);
    law_tolerance_is_a_billionth();
    lemma_pow2_pos(1074);
    let u = unit_count();
    let b = value(burn);
    let least = (w - 1) * u + u / 1_000_000_001;
    if is_finite(ratio) {
        law_whole_workers_least(ratio);
        let r = value(ratio);
        let most = w * u + u / 999_999_999;
        if w < u32::MAX {
            assert(r * b * remaining <= most * b * remaining) by (nonlinear_arith)
                requires
                    r <= most,
                    b > 0,
                    remaining > 0,
            ;
        }
        if w > 0 {
            assert(least * b * remaining <= r * b * remaining) by (nonlinear_arith)
                requires
                    least <= r,
                    b > 0,
                    remaining > 0,
            ;
        }
    } else {
        law_difference_is_bounded(target, used);
        law_difference_is_near(target, used);
        law_hours(remaining);
        let rest = difference(target, used);
        let time = hours(remaining);
        lemma_rate_is_bounded(value(rest), value(time), remaining, u);
        lemma_two_to_24();
        law_quotient_is_bounded(rest, time, 0x4170_0000_0000_0000);
        law_quotient_is_near(rest, time);
        let rate = quotient(rest, time);
        let q = value(rate);
        law_infinite_quotient_is_huge(rate, burn);
        lemma_rate_makes_up(
            value(target) - value(used),
            value(rest),
            u,
            value(time),
            remaining,
            q,
        );
        assert(least <= 0x1_0000_0000 * u) by (nonlinear_arith)
            requires
                least == (w - 1) * u + u / 1_000_000_001,
                w == 0xffff_ffff,
                u > 0,
        ;
        let tu = remaining * u;
        let ut = u * remaining;
        assert(least * b * remaining <= q * tu) by (nonlinear_arith)
            requires
                least <= 0x1_0000_0000 * u,
                q >= 0x1_0000_0000_0000_0000 * b,
                tu == remaining * u,
                b > 0,
                remaining > 0,
                u > 0,
        ;
        assert((b + u) * remaining >= ut) by (nonlinear_arith)
            requires
                ut == u * remaining,
                b > 0,
                remaining > 0,
        ;
    }
}

/// Where no time remains, there is no bound to what is needed.
pub proof fn law_no_time_needs_all(target: Double, used: Double, burn: Double)
    requires
        is_finite(target),
        is_finite(used),
        value(target) > value(used),
        value(target) - value(used) <= unit_count(),
        is_finite(burn),
        value(burn) > 0,
    ensures
        whole_workers(needed(target, used, 0, burn)) == u32::MAX,
{
    law_difference_is_bounded(target, used);
    law_integer_is_exact(0);
    lemma_hour();
    lemma_pow2_pos(1074);
    let none = of_integer(0);
    assert(0 * unit_count() == 0) by (nonlinear_arith);
    lemma_magnitude(magnitude(none));
    lemma_magnitude(magnitude(hour()));
    lemma_magnitude(magnitude(burn));
    lemma_magnitude(magnitude(difference(target, used)));
    assert(magnitude(hours(0)) == 0 && !is_negative(hours(0)));
    let rate = quotient(difference(target, used), hours(0));
    assert(is_infinite(rate) && !is_negative(rate));
}

/// A ratio that is no number or below nothing asks for no worker, and one without bound for as many
/// as there can be.
pub proof fn law_unbounded_ratios(ratio: Double)
    ensures
        is_nan(ratio) ==> whole_workers(ratio) == 0,
        is_finite(ratio) && value(ratio) <= 0 ==> whole_workers(ratio) == 0,
        is_infinite(ratio) && is_negative(ratio) ==> whole_workers(ratio) == 0,
        is_infinite(ratio) && !is_negative(ratio) ==> whole_workers(ratio) == u32::MAX,
{
    if is_finite(ratio) {
        lemma_magnitude(magnitude(ratio));
        if !is_negative(ratio) && value(ratio) <= 0 {
            lemma_tolerance();
            lemma_pow2_pos(1074);
            lemma_fundamental_div_mod_converse(0, unit_count(), 0, 0);
        }
    }
}

} // verus!
