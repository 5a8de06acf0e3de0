//! Double-precision numbers by their bits: order, difference and quotient as IEEE 754 has them.

use vstd::arithmetic::div_mod::{lemma_fundamental_div_mod, lemma_fundamental_div_mod_converse};
use vstd::arithmetic::power2::{
    lemma2_to64, lemma2_to64_rest, lemma_pow2_adds, lemma_pow2_pos, lemma_pow2_strictly_increases,
    lemma_pow2_unfold, pow2,
};
use vstd::prelude::*;

verus! {

/// The bits of infinity; a magnitude beyond them is no number.
pub const INFINITY: u64 = 0x7ff0_0000_0000_0000;

/// The sign bit.
pub const SIGN: u64 = 0x8000_0000_0000_0000;

/// A number in the IEEE 754 binary64 format.
#[derive(Clone, Copy, Debug, PartialEq, Eq, Structural)]
pub struct Double {
    pub bits: u64,
}

/// The number zero.
pub open spec fn zero() -> Double {
    Double { bits: 0 }
}

/// The number one.
pub open spec fn one() -> Double {
    Double { bits: 0x3ff0_0000_0000_0000 }
}

/// The mark of a result that is no number.
pub open spec fn not_a_number() -> Double {
    Double { bits: 0x7ff8_0000_0000_0000 }
}

/// The sign bit is set.
pub open spec fn is_negative(a: Double) -> bool {
    a.bits >= SIGN
}

/// The bits without the sign bit.
pub open spec fn magnitude(a: Double) -> int {
    if is_negative(a) {
        a.bits - SIGN
    } else {
        a.bits as int
    }
}

pub open spec fn is_nan(a: Double) -> bool {
    magnitude(a) > INFINITY
}

pub open spec fn is_infinite(a: Double) -> bool {
    magnitude(a) == INFINITY
}

pub open spec fn is_finite(a: Double) -> bool {
    magnitude(a) < INFINITY
}

/// A number of the given sign and magnitude.
pub open spec fn signed(negative: bool, magnitude: int) -> Double {
    Double {
        bits: if negative {
            (magnitude + SIGN) as u64
        } else {
            magnitude as u64
        },
    }
}

/// How often the significand is doubled.
pub open spec fn step_of(magnitude: int) -> nat {
    if magnitude / 0x10_0000_0000_0000 == 0 {
        0
    } else {
        (magnitude / 0x10_0000_0000_0000 - 1) as nat
    }
}

/// The significand.
pub open spec fn significand_of(magnitude: int) -> int {
    if magnitude / 0x10_0000_0000_0000 == 0 {
        magnitude
    } else {
        magnitude % 0x10_0000_0000_0000 + 0x10_0000_0000_0000
    }
}

/// A finite magnitude as a whole number of units, the least number above zero.
pub open spec fn units_of(magnitude: int) -> int {
    significand_of(magnitude) * pow2(step_of(magnitude))
}

/// How many units make one.
pub open spec fn unit_count() -> int {
    pow2(1074) as int
}

/// A finite number in units.
pub open spec fn value(a: Double) -> int {
    if is_negative(a) {
        -units_of(magnitude(a))
    } else {
        units_of(magnitude(a))
    }
}

/// A number's place in the order of numbers; both zeros have the same.
pub open spec fn place_in_order(a: Double) -> int {
    if is_negative(a) {
        -magnitude(a)
    } else {
        magnitude(a)
    }
}

/// One number is at least another. What is no number compares with nothing.
pub open spec fn reaches(a: Double, b: Double) -> bool {
    !is_nan(a) && !is_nan(b) && place_in_order(a) >= place_in_order(b)
}

/// One number is more than another.
pub open spec fn exceeds(a: Double, b: Double) -> bool {
    !is_nan(a) && !is_nan(b) && place_in_order(a) > place_in_order(b)
}

/// The whole number nearest to a ratio, the even one of two.
pub open spec fn nearest_whole(num: int, den: int) -> int {
    let quotient = num / den;
    let rest = num % den;
    if 2 * rest < den || (2 * rest == den && quotient % 2 == 0) {
        quotient
    } else {
        quotient + 1
    }
}

/// A ratio of units is to be written with a significand that is doubled `step` times.
pub open spec fn fits(num: int, den: int, step: nat) -> bool {
    &&& num < 0x20_0000_0000_0000 * (den * pow2(step))
    &&& step == 0 || num >= 0x10_0000_0000_0000 * (den * pow2(step))
}

/// What lies beyond the largest number is infinity.
pub open spec fn capped(magnitude: int) -> int {
    if magnitude > INFINITY {
        INFINITY as int
    } else {
        magnitude
    }
}

/// The magnitude of the number nearest to a ratio of units, the one with the even significand of
/// two.
pub open spec fn nearest(num: int, den: int) -> int {
    let step = choose|step: nat| fits(num, den, step);
    capped(step * 0x10_0000_0000_0000 + nearest_whole(num, den * pow2(step)))
}

/// The difference of two numbers.
pub open spec fn difference(a: Double, b: Double) -> Double {
    if is_nan(a) || is_nan(b) {
        not_a_number()
    } else if is_infinite(a) {
        if is_infinite(b) && is_negative(a) == is_negative(b) {
            not_a_number()
        } else {
            a
        }
    } else if is_infinite(b) {
        signed(!is_negative(b), INFINITY as int)
    } else if value(a) == value(b) {
        signed(is_negative(a) && !is_negative(b), 0)
    } else if value(a) > value(b) {
        signed(false, nearest(value(a) - value(b), 1))
    } else {
        signed(true, nearest(value(b) - value(a), 1))
    }
}

/// The quotient of two numbers.
pub open spec fn quotient(a: Double, b: Double) -> Double {
    let negative = is_negative(a) != is_negative(b);
    if is_nan(a) || is_nan(b) {
        not_a_number()
    } else if is_infinite(a) {
        if is_infinite(b) {
            not_a_number()
        } else {
            signed(negative, INFINITY as int)
        }
    } else if is_infinite(b) {
        signed(negative, 0)
    } else if magnitude(b) == 0 {
        if magnitude(a) == 0 {
            not_a_number()
        } else {
            signed(negative, INFINITY as int)
        }
    } else if magnitude(a) == 0 {
        signed(negative, 0)
    } else {
        signed(
            negative,
            nearest(units_of(magnitude(a)) * unit_count(), units_of(magnitude(b))),
        )
    }
}

/// The number nearest to an integer.
pub open spec fn of_integer(n: int) -> Double {
    if n < 0 {
        signed(true, nearest(-n * unit_count(), 1))
    } else {
        signed(false, nearest(n * unit_count(), 1))
    }
}

proof fn lemma_nearest_whole_scaled(num: int, den: int, c: int)
    requires
        num >= 0,
        den > 0,
        c > 0,
    ensures
        nearest_whole(num * c, den * c) == nearest_whole(num, den),
{
    let q = num / den;
    let r = num % den;
    lemma_fundamental_div_mod(num, den);
    assert(num * c == q * (den * c) + r * c) by (nonlinear_arith)
        requires
            num == den * q + r,
    ;
    assert(0 <= r * c < den * c) by (nonlinear_arith)
        requires
            0 <= r < den,
            c > 0,
    ;
    lemma_fundamental_div_mod_converse(num * c, den * c, q, r * c);
    assert(2 * (r * c) < den * c <==> 2 * r < den) by (nonlinear_arith)
        requires
            c > 0,
    ;
    assert(2 * (r * c) == den * c <==> 2 * r == den) by (nonlinear_arith)
        requires
            c > 0,
    ;
}

/// Equal ratios have the same nearest whole number.
proof fn lemma_nearest_whole_same(n1: int, d1: int, n2: int, d2: int)
    requires
        n1 >= 0,
        n2 >= 0,
        d1 > 0,
        d2 > 0,
        n1 * d2 == n2 * d1,
    ensures
        nearest_whole(n1, d1) == nearest_whole(n2, d2),
{
    lemma_nearest_whole_scaled(n1, d1, d2);
    lemma_nearest_whole_scaled(n2, d2, d1);
    assert(d1 * d2 == d2 * d1) by (nonlinear_arith);
}

proof fn lemma_fits_once(num: int, den: int, a: nat, b: nat)
    requires
        den > 0,
        fits(num, den, a),
        fits(num, den, b),
    ensures
        a == b,
{
    if a < b {
        lemma_fits_order(num, den, a, b);
    } else if b < a {
        lemma_fits_order(num, den, b, a);
    }
}

proof fn lemma_fits_order(num: int, den: int, a: nat, b: nat)
    requires
        den > 0,
        a < b,
        fits(num, den, b),
    ensures
        !fits(num, den, a),
{
    lemma_pow2_unfold((a + 1) as nat);
    if a + 1 < b {
        lemma_pow2_strictly_increases((a + 1) as nat, b);
    }
    let p = pow2(a) as int;
    let r = pow2(b) as int;
    assert(0x10_0000_0000_0000 * (den * r) >= 0x20_0000_0000_0000 * (den * p))
        by (nonlinear_arith)
        requires
            r >= 2 * p,
            den > 0,
    ;
}

/// The nearest number, found from another form of the ratio.
proof fn lemma_nearest(num: int, den: int, n: int, d: int, step: nat)
    requires
        num >= 0,
        den > 0,
        n >= 0,
        d > 0,
        num * d == n * (den * pow2(step)),
        n < 0x20_0000_0000_0000 * d,
        step == 0 || n >= 0x10_0000_0000_0000 * d,
    ensures
        nearest(num, den) == capped(step * 0x10_0000_0000_0000 + nearest_whole(n, d)),
{
    lemma_pow2_pos(step);
    let p = pow2(step) as int;
    let s = den * p;
    assert(s > 0) by (nonlinear_arith)
        requires
            s == den * p,
            den > 0,
            p > 0,
    ;
    assert(num < 0x20_0000_0000_0000 * s) by (nonlinear_arith)
        requires
            num * d == n * s,
            n < 0x20_0000_0000_0000 * d,
            d > 0,
            s > 0,
    ;
    if step != 0 {
        assert(num >= 0x10_0000_0000_0000 * s) by (nonlinear_arith)
            requires
                num * d == n * s,
                n >= 0x10_0000_0000_0000 * d,
                d > 0,
                s > 0,
        ;
    }
    assert(fits(num, den, step));
    let chosen = choose|step: nat| fits(num, den, step);
    lemma_fits_once(num, den, step, chosen);
    lemma_nearest_whole_same(num, s, n, d);
}

/// A magnitude is its significand, and its step in the bits above it.
pub proof fn lemma_magnitude(m: int)
    requires
        0 <= m < INFINITY,
    ensures
        m == step_of(m) * 0x10_0000_0000_0000 + significand_of(m),
        0 <= significand_of(m) < 0x20_0000_0000_0000,
        step_of(m) > 0 ==> significand_of(m) >= 0x10_0000_0000_0000,
        step_of(m) < 2046,
        significand_of(m) == 0 <==> m == 0,
        units_of(m) >= 0,
        units_of(m) == 0 <==> m == 0,
{
    lemma_pow2_pos(step_of(m));
    let p = pow2(step_of(m)) as int;
    let g = significand_of(m);
    assert(g * p >= 0 && (g * p == 0 <==> g == 0)) by (nonlinear_arith)
        requires
            g >= 0,
            p > 0,
    ;
}

/// A whole number of units that a number is, that number is nearest to.
pub proof fn law_exact_is_kept(m: int)
    requires
        0 <= m < INFINITY,
    ensures
        nearest(units_of(m), 1) == m,
{
    lemma_magnitude(m);
    let g = significand_of(m);
    let p = pow2(step_of(m)) as int;
    lemma_pow2_pos(step_of(m));
    assert(units_of(m) * 1 == g * (1 * p));
    lemma_fundamental_div_mod_converse(g, 1, g, 0);
    lemma_nearest(units_of(m), 1, g, 1, step_of(m));
}

/// The whole number nearest to a ratio.
fn divide_nearest(num: u128, den: u128) -> (quotient: u64)
    requires
        0 < den < 0x4000_0000_0000_0000_0000_0000_0000_0000,
        num < 0x20_0000_0000_0000 * den,
    ensures
        quotient == nearest_whole(num as int, den as int),
        quotient <= 0x20_0000_0000_0000,
{
    proof {
        lemma_fundamental_div_mod(num as int, den as int);
        let q = num as int / den as int;
        assert(q < 0x20_0000_0000_0000) by (nonlinear_arith)
            requires
                den * q <= num,
                num < 0x20_0000_0000_0000 * den,
                den > 0,
        ;
        assert(q >= 0) by (nonlinear_arith)
            requires
                num < den * q + den,
                num >= 0,
                den > 0,
        ;
    }
    let quotient: u64 = (num / den) as u64;
    let rest: u128 = num % den;
    if 2 * rest < den || (2 * rest == den && quotient % 2 == 0) {
        quotient
    } else {
        quotient + 1
    }
}

/// A ratio of units, with the powers of two in its terms moved.
proof fn lemma_moved(
    num: int,
    den: int,
    n: int,
    d: int,
    up: nat,
    down: nat,
    a: nat,
    b: nat,
    step: nat,
    shift: nat,
)
    requires
        num * (d * pow2(down)) == n * pow2(up) * den,
        down + step + a == up + b + shift,
    ensures
        num * (d * pow2(b) * pow2(shift)) == n * pow2(a) * (den * pow2(step)),
{
    let pd = pow2(down) as int;
    let pu = pow2(up) as int;
    let pa = pow2(a) as int;
    let pb = pow2(b) as int;
    let pk = pow2(step) as int;
    let ps = pow2(shift) as int;
    lemma_pow2_pos(down);
    lemma_pow2_adds(down, step);
    lemma_pow2_adds((down + step) as nat, a);
    lemma_pow2_adds(up, b);
    lemma_pow2_adds((up + b) as nat, shift);
    let x = num * (d * pb * ps);
    let y = n * pa * (den * pk);
    let m = pb * ps;
    let left = num * (d * pd);
    assert(x * pd == left * m) by {
        assert(d * pb * ps == d * m) by (nonlinear_arith)
            requires
                m == pb * ps,
        ;
        assert(num * (d * m) * pd == num * (d * pd) * m) by (nonlinear_arith);
    }
    assert(y * pd == left * m) by {
        let c = n * den;
        assert(n * pu * den == c * pu) by (nonlinear_arith)
            requires
                c == n * den,
        ;
        assert(n * pa * (den * pk) == c * (pa * pk)) by (nonlinear_arith)
            requires
                c == n * den,
        ;
        assert(c * (pa * pk) * pd == c * (pd * pk * pa)) by (nonlinear_arith);
        assert(c * pu * m == c * (pu * pb * ps)) by (nonlinear_arith)
            requires
                m == pb * ps,
        ;
    }
    assert(x == y) by (nonlinear_arith)
        requires
            x * pd == y * pd,
            pd > 0,
    ;
}

/// The magnitude nearest to `n * 2^t / d` units, which is the ratio `num / den`.
fn round_scaled(
    n: u128,
    d: u64,
    t: i64,
    Ghost(num): Ghost<int>,
    Ghost(den): Ghost<int>,
    Ghost(up): Ghost<nat>,
    Ghost(down): Ghost<nat>,
) -> (magnitude: u64)
    requires
        0 < n < 0x40_0000_0000_0000_0000_0000_0000_0000,
        0 < d < 0x20_0000_0000_0000,
        -10_000 < t < 10_000,
        t == up - down,
        num >= 0,
        den > 0,
        num * (d * pow2(down)) == n * pow2(up) * den,
    ensures
        magnitude == nearest(num, den),
        magnitude <= INFINITY,
{
    let mut top: u128 = n;
    let mut bottom: u128 = d as u128;
    let mut moved: i64 = 0;
    let ghost mut a: nat = 0;
    let ghost mut b: nat = 0;
    proof {
        lemma2_to64();
    }
    while top >= 0x20_0000_0000_0000 * bottom
        invariant
            top == n,
            n < 0x40_0000_0000_0000_0000_0000_0000_0000,
            bottom == d * pow2(b),
            0 < bottom < 0x4_0000_0000_0000_0000,
            moved == -b,
            b <= 200,
            b == 0 || top >= 0x10_0000_0000_0000 * bottom,
            b < bottom,
        decreases top - bottom,
    {
        proof {
            lemma_pow2_unfold((b + 1) as nat);
            let p = pow2(b) as int;
            assert(2 * (d * p) == d * (2 * p)) by (nonlinear_arith);
            lemma_small_step(bottom as int, b, d as int);
        }
        bottom = 2 * bottom;
        moved = moved - 1;
        proof {
            b = b + 1;
        }
    }
    while top < 0x10_0000_0000_0000 * bottom
        invariant
            0 < top < 0x20_0000_0000_0000 * bottom,
            top == n * pow2(a),
            bottom == d * pow2(b),
            0 < bottom < 0x4_0000_0000_0000_0000,
            moved == a - b,
            a <= 0x200,
            b <= 200,
            b == 0 || top >= 0x10_0000_0000_0000 * bottom,
            b > 0 ==> a == 0,
            b == 0 ==> bottom < 0x20_0000_0000_0000,
            n > 0,
        decreases 0x20_0000_0000_0000 * bottom - top,
    {
        proof {
            lemma_pow2_unfold((a + 1) as nat);
            let p = pow2(a) as int;
            assert(2 * (n * p) == n * (2 * p)) by (nonlinear_arith);
            lemma_few_doublings(n as int, a, top as int);
        }
        top = 2 * top;
        moved = moved + 1;
        proof {
            a = a + 1;
        }
    }
    let steps: i64 = t - moved;
    if steps >= 0 {
        proof {
            lemma_moved(num, den, n as int, d as int, up, down, a, b, steps as nat, 0);
            lemma_nearest(num, den, top as int, bottom as int, steps as nat);
        }
        let whole: u64 = divide_nearest(top, bottom);
        if steps >= 2047 {
            return INFINITY;
        }
        let magnitude: u64 = steps as u64 * 0x10_0000_0000_0000 + whole;
        if magnitude > INFINITY {
            INFINITY
        } else {
            magnitude
        }
    } else {
        let shift: i64 = -steps;
        let ghost divisor = bottom * pow2(shift as nat);
        proof {
            lemma_pow2_pos(shift as nat);
            let p = pow2(shift as nat) as int;
            let y = bottom as int;
            assert(divisor == y * p && divisor >= y) by (nonlinear_arith)
                requires
                    divisor == y * p,
                    p >= 1,
                    y > 0,
            ;
            lemma_pow2_adds(0, 0);
            lemma_moved(num, den, n as int, d as int, up, down, a, b, 0, shift as nat);
            assert(den * pow2(0) == den) by (nonlinear_arith)
                requires
                    pow2(0) == 1,
            ;
            lemma_nearest(num, den, top as int, divisor, 0);
        }
        if shift >= 60 {
            proof {
                lemma_pow2_60(shift as nat);
                let p = pow2(shift as nat) as int;
                let y = bottom as int;
                assert(2 * top < divisor) by (nonlinear_arith)
                    requires
                        divisor == y * p,
                        p >= 0x1000_0000_0000_0000,
                        y > 0,
                        top < 0x20_0000_0000_0000 * y,
                ;
                lemma_fundamental_div_mod_converse(top as int, divisor, 0, top as int);
            }
            return 0;
        }
        let power: u128 = shifted_one(shift as u32);
        proof {
            lemma_pow2_60_above(shift as nat);
            let y = bottom as int;
            let p = power as int;
            assert(y * p < 0x4000_0000_0000_0000_0000_0000_0000_0000) by (nonlinear_arith)
                requires
                    0 < y < 0x4_0000_0000_0000_0000,
                    0 < p <= 0x800_0000_0000_0000,
            ;
        }
        divide_nearest(top, bottom * power)
    }
}

proof fn lemma_small_step(bottom: int, b: nat, d: int)
    requires
        bottom == d * pow2(b),
        d > 0,
        0 < bottom < 0x2_0000_0000_0000_0000,
        b < bottom,
    ensures
        b < 66,
{
    if b >= 66 {
        lemma2_to64();
        lemma2_to64_rest();
        lemma_pow2_adds(2, 64);
        if b > 66 {
            lemma_pow2_strictly_increases(66, b);
        }
        let p = pow2(b) as int;
        assert(d * p >= p) by (nonlinear_arith)
            requires
                d >= 1,
                p >= 0,
        ;
    }
}

proof fn lemma_few_doublings(n: int, a: nat, top: int)
    requires
        n >= 1,
        top == n * pow2(a),
        top < 0x40_0000_0000_0000_0000_0000_0000_0000,
    ensures
        a < 0x200,
{
    if a >= 0x200 {
        lemma2_to64();
        lemma2_to64_rest();
        lemma_pow2_adds(64, 64);
        lemma_pow2_strictly_increases(128, a);
        let p = pow2(a) as int;
        assert(n * p >= p) by (nonlinear_arith)
            requires
                n >= 1,
                p >= 0,
        ;
    }
}

proof fn lemma_pow2_60(shift: nat)
    requires
        shift >= 60,
    ensures
        pow2(shift) >= 0x1000_0000_0000_0000,
{
    lemma2_to64();
    lemma2_to64_rest();
    if shift > 60 {
        lemma_pow2_strictly_increases(60, shift);
    }
}

proof fn lemma_pow2_60_above(shift: nat)
    requires
        shift < 60,
    ensures
        0 < pow2(shift) <= 0x800_0000_0000_0000,
{
    lemma2_to64();
    lemma2_to64_rest();
    lemma_pow2_pos(shift);
    if shift < 59 {
        lemma_pow2_strictly_increases(shift, 59);
    }
}

/// A power of two.
pub fn shifted_one(exponent: u32) -> (power: u128)
    requires
        exponent <= 100,
    ensures
        power == pow2(exponent as nat),
{
    let mut power: u128 = 1;
    let mut i: u32 = 0;
    proof {
        lemma2_to64();
        lemma2_to64_rest();
        lemma_pow2_adds(36, 64);
    }
    while i < exponent
        invariant
            i <= exponent <= 100,
            power == pow2(i as nat),
            pow2(100) == 0x10_0000_0000_0000_0000_0000_0000,
        decreases exponent - i,
    {
        proof {
            lemma_pow2_unfold((i + 1) as nat);
            if i + 1 < 100 {
                lemma_pow2_strictly_increases((i + 1) as nat, 100);
            }
        }
        power = 2 * power;
        i = i + 1;
    }
    power
}

/// The parts of a magnitude.
pub struct Parts {
    pub step: u32,
    pub significand: u64,
}

/// Takes a finite magnitude apart.
pub fn split(magnitude: u64) -> (parts: Parts)
    requires
        magnitude < INFINITY,
    ensures
        parts.step == step_of(magnitude as int),
        parts.significand == significand_of(magnitude as int),
        parts.step < 2046,
        parts.significand < 0x20_0000_0000_0000,
        parts.step > 0 ==> parts.significand >= 0x10_0000_0000_0000,
        parts.significand == 0 <==> magnitude == 0,
{
    let exponent: u64 = magnitude / 0x10_0000_0000_0000;
    if exponent == 0 {
        Parts { step: 0, significand: magnitude }
    } else {
        Parts {
            step: (exponent - 1) as u32,
            significand: magnitude % 0x10_0000_0000_0000 + 0x10_0000_0000_0000,
        }
    }
}

/// A number with a far smaller one added or taken away is itself.
proof fn lemma_far(m: int, small: int, step: nat, minus: bool)
    requires
        0 < m < INFINITY,
        step + 65 <= step_of(m),
        0 <= small < 0x20_0000_0000_0000,
    ensures
        ({
            let rest = small * pow2(step);
            let sum = if minus {
                units_of(m) - rest
            } else {
                units_of(m) + rest
            };
            sum > 0 && nearest(sum, 1) == m
        }),
{
    lemma_magnitude(m);
    let k = step_of(m);
    let g = significand_of(m);
    let rest = small * pow2(step);
    let w = pow2((k - 12) as nat) as int;
    let p = pow2(k) as int;
    lemma2_to64();
    lemma2_to64_rest();
    lemma_pow2_adds((k - 12) as nat, 12);
    assert(p == 4096 * w);
    lemma_pow2_adds(53, step);
    lemma_pow2_pos(step);
    lemma_pow2_pos((k - 12) as nat);
    if 53 + step < k - 12 {
        lemma_pow2_strictly_increases((53 + step) as nat, (k - 12) as nat);
    }
    let ps = pow2(step) as int;
    assert(0 <= rest < 0x20_0000_0000_0000 * ps) by (nonlinear_arith)
        requires
            rest == small * ps,
            0 <= small < 0x20_0000_0000_0000,
            ps > 0,
    ;
    assert(0 <= rest < w);
    let sum = if minus {
        units_of(m) - rest
    } else {
        units_of(m) + rest
    };
    assert(units_of(m) == g * p);
    assert(g * p >= 0x10_0000_0000_0000 * p) by (nonlinear_arith)
        requires
            g >= 0x10_0000_0000_0000,
            p > 0,
    ;
    assert(g * p <= 0x1f_ffff_ffff_ffff * p) by (nonlinear_arith)
        requires
            g <= 0x1f_ffff_ffff_ffff,
            p > 0,
    ;
    assert((g - 1) * p == g * p - p) by (nonlinear_arith);
    assert(p * g == g * p && p * (g - 1) == (g - 1) * p) by (nonlinear_arith);
    if !minus || rest == 0 {
        lemma_fundamental_div_mod_converse(sum, p, g, rest);
        lemma_nearest(sum, 1, sum, p, k);
    } else if g > 0x10_0000_0000_0000 {
        lemma_fundamental_div_mod_converse(sum, p, g - 1, p - rest);
        assert((g - 1) * p >= 0x10_0000_0000_0000 * p) by (nonlinear_arith)
            requires
                g - 1 >= 0x10_0000_0000_0000,
                p > 0,
        ;
        lemma_nearest(sum, 1, sum, p, k);
    } else {
        let half = 2048 * w;
        lemma_pow2_unfold(k);
        assert(half == pow2((k - 1) as nat));
        lemma_fundamental_div_mod_converse(sum, half, 0x1f_ffff_ffff_ffff, half - rest);
        lemma_nearest(sum, 1, sum, half, (k - 1) as nat);
    }
}

/// The sum of two numbers that are not larger than they have bits for; `a` has the larger step.
fn sum_ordered(
    a_negative: bool,
    a: u64,
    b_negative: bool,
    b: u64,
) -> (result: Double)
    requires
        a < INFINITY,
        b < INFINITY,
        step_of(a as int) >= step_of(b as int),
    ensures
        result == sum_of(a_negative, a as int, b_negative, b as int),
{
    let large: Parts = split(a);
    let small: Parts = split(b);
    let gap: u32 = large.step - small.step;
    proof {
        lemma_magnitude(a as int);
        lemma_magnitude(b as int);
    }
    if gap > 64 {
        proof {
            lemma_far(
                a as int,
                small.significand as int,
                small.step as nat,
                a_negative != b_negative,
            );
        }
        return make(a_negative, a);
    }
    let power: u128 = shifted_one(gap);
    let ghost p = pow2(small.step as nat) as int;
    proof {
        lemma_pow2_adds(small.step as nat, gap as nat);
        lemma_pow2_65(gap as nat);
        lemma_pow2_pos(small.step as nat);
        let m = large.significand as int;
        let w = power as int;
        assert(m * (p * w) == m * w * p) by (nonlinear_arith);
        assert(0 <= m * w <= 0x20_0000_0000_0000 * 0x1_0000_0000_0000_0000) by (nonlinear_arith)
            requires
                0 <= m <= 0x20_0000_0000_0000,
                0 <= w <= 0x1_0000_0000_0000_0000,
        ;
    }
    let lifted: u128 = large.significand as u128 * power;
    let other: u128 = small.significand as u128;
    let ghost x = units_of(a as int);
    let ghost y = units_of(b as int);
    assert(x == lifted * p && y == other * p);
    if a_negative == b_negative {
        let n: u128 = lifted + other;
        assert(x + y == n * p) by (nonlinear_arith)
            requires
                x == lifted * p,
                y == other * p,
                n == lifted + other,
        ;
        if n == 0 {
            assert(x + y == 0) by (nonlinear_arith)
                requires
                    x + y == n * p,
                    n == 0,
            ;
            return make(a_negative, 0);
        }
        assert(x + y > 0) by (nonlinear_arith)
            requires
                x + y == n * p,
                n > 0,
                p > 0,
        ;
        let magnitude: u64 = round_whole(n, small.step, Ghost(x + y));
        make(a_negative, magnitude)
    } else if lifted == other {
        make(false, 0)
    } else if lifted > other {
        let n: u128 = lifted - other;
        assert(x - y == n * p && x - y > 0) by (nonlinear_arith)
            requires
                x == lifted * p,
                y == other * p,
                n == lifted - other,
                n > 0,
                p > 0,
        ;
        let magnitude: u64 = round_whole(n, small.step, Ghost(x - y));
        make(a_negative, magnitude)
    } else {
        let n: u128 = other - lifted;
        assert(y - x == n * p && y - x > 0) by (nonlinear_arith)
            requires
                x == lifted * p,
                y == other * p,
                n == other - lifted,
                n > 0,
                p > 0,
        ;
        let magnitude: u64 = round_whole(n, small.step, Ghost(y - x));
        make(b_negative, magnitude)
    }
}

/// The sum of two finite numbers.
spec fn sum_of(a_negative: bool, a: int, b_negative: bool, b: int) -> Double {
    let x = if a_negative {
        -units_of(a)
    } else {
        units_of(a)
    };
    let y = if b_negative {
        -units_of(b)
    } else {
        units_of(b)
    };
    if x + y == 0 {
        signed(a_negative && b_negative, 0)
    } else if x + y > 0 {
        signed(false, nearest(x + y, 1))
    } else {
        signed(true, nearest(-(x + y), 1))
    }
}

proof fn lemma_pow2_65(gap: nat)
    requires
        gap <= 64,
    ensures
        0 < pow2(gap) <= 0x1_0000_0000_0000_0000,
{
    lemma2_to64();
    lemma2_to64_rest();
    lemma_pow2_pos(gap);
    if gap < 64 {
        lemma_pow2_strictly_increases(gap, 64);
    }
}

fn make(negative: bool, magnitude: u64) -> (result: Double)
    requires
        magnitude <= INFINITY,
    ensures
        result == signed(negative, magnitude as int),
{
    Double {
        bits: if negative {
            magnitude + SIGN
        } else {
            magnitude
        },
    }
}

/// The magnitude nearest to `n * 2^step` units.
fn round_whole(n: u128, step: u32, Ghost(num): Ghost<int>) -> (magnitude: u64)
    requires
        0 < n < 0x40_0000_0000_0000_0000_0000_0000_0000,
        step < 4000,
        num == n * pow2(step as nat),
    ensures
        magnitude == nearest(num, 1),
        magnitude <= INFINITY,
{
    proof {
        lemma2_to64();
        lemma_pow2_pos(step as nat);
        assert(num >= 0) by (nonlinear_arith)
            requires
                num == n * pow2(step as nat),
        ;
    }
    round_scaled(n, 1, step as i64, Ghost(num), Ghost(1int), Ghost(step as nat), Ghost(0nat))
}

impl Double {
    /// The bits without the sign bit.
    pub fn magnitude_bits(self) -> (bits: u64)
        ensures
            bits == magnitude(self),
            bits < SIGN,
    {
        if self.bits >= SIGN {
            self.bits - SIGN
        } else {
            self.bits
        }
    }

    fn place(self) -> (place: i64)
        ensures
            place == place_in_order(self),
    {
        let bits: u64 = self.magnitude_bits();
        if self.bits >= SIGN {
            -(bits as i64)
        } else {
            bits as i64
        }
    }

    /// Whether this is finite.
    pub fn is_finite(self) -> (result: bool)
        ensures
            result == is_finite(self),
    {
        self.magnitude_bits() < INFINITY
    }

    /// Whether this is at least `other`.
    pub fn reaches(self, other: Double) -> (result: bool)
        ensures
            result == reaches(self, other),
    {
        self.magnitude_bits() <= INFINITY && other.magnitude_bits() <= INFINITY && self.place()
            >= other.place()
    }

    /// Whether this is more than `other`.
    pub fn exceeds(self, other: Double) -> (result: bool)
        ensures
            result == exceeds(self, other),
    {
        self.magnitude_bits() <= INFINITY && other.magnitude_bits() <= INFINITY && self.place()
            > other.place()
    }

    /// This less `other`.
    pub fn minus(self, other: Double) -> (result: Double)
        ensures
            result == difference(self, other),
    {
        let a: u64 = self.magnitude_bits();
        let b: u64 = other.magnitude_bits();
        let a_negative: bool = self.bits >= SIGN;
        let b_negative: bool = other.bits >= SIGN;
        if a > INFINITY || b > INFINITY {
            return Double { bits: 0x7ff8_0000_0000_0000 };
        }
        if a == INFINITY {
            if b == INFINITY && a_negative == b_negative {
                return Double { bits: 0x7ff8_0000_0000_0000 };
            }
            return self;
        }
        if b == INFINITY {
            return make(!b_negative, INFINITY);
        }
        let a_step: u32 = split(a).step;
        let b_step: u32 = split(b).step;
        proof {
            lemma_magnitude(a as int);
            lemma_magnitude(b as int);
        }
        if a_step >= b_step {
            sum_ordered(a_negative, a, !b_negative, b)
        } else {
            sum_ordered(!b_negative, b, a_negative, a)
        }
    }

    /// This divided by `other`.
    pub fn over(self, other: Double) -> (result: Double)
        ensures
            result == quotient(self, other),
    {
        let a: u64 = self.magnitude_bits();
        let b: u64 = other.magnitude_bits();
        let negative: bool = (self.bits >= SIGN) != (other.bits >= SIGN);
        if a > INFINITY || b > INFINITY {
            return Double { bits: 0x7ff8_0000_0000_0000 };
        }
        if a == INFINITY {
            if b == INFINITY {
                return Double { bits: 0x7ff8_0000_0000_0000 };
            }
            return make(negative, INFINITY);
        }
        if b == INFINITY {
            return make(negative, 0);
        }
        if b == 0 {
            if a == 0 {
                return Double { bits: 0x7ff8_0000_0000_0000 };
            }
            return make(negative, INFINITY);
        }
        if a == 0 {
            return make(negative, 0);
        }
        let x: Parts = split(a);
        let y: Parts = split(b);
        let ghost num = units_of(a as int) * unit_count();
        let ghost den = units_of(b as int);
        proof {
            lemma_magnitude(a as int);
            lemma_magnitude(b as int);
            lemma_pow2_adds(x.step as nat, 1074);
            lemma_pow2_pos(1074);
            let m = x.significand as int;
            let p = pow2(x.step as nat) as int;
            let u = unit_count();
            assert(num == m * (p * u)) by (nonlinear_arith)
                requires
                    num == m * p * u,
            ;
            assert(num >= 0) by (nonlinear_arith)
                requires
                    num == units_of(a as int) * u,
                    units_of(a as int) >= 0,
                    u > 0,
            ;
        }
        let magnitude: u64 = round_scaled(
            x.significand as u128,
            y.significand,
            x.step as i64 + 1074 - y.step as i64,
            Ghost(num),
            Ghost(den),
            Ghost((x.step + 1074) as nat),
            Ghost(y.step as nat),
        );
        make(negative, magnitude)
    }

    /// The number nearest to an integer.
    pub fn from_integer(n: i128) -> (result: Double)
        requires
            -0x1_0000_0000_0000_0000 < n < 0x1_0000_0000_0000_0000,
        ensures
            result == of_integer(n as int),
    {
        if n == 0 {
            proof {
                lemma_zero_is_nearest();
                assert(0 * unit_count() == 0) by (nonlinear_arith);
            }
            return make(false, 0);
        }
        if n < 0 {
            let size: u128 = (-n) as u128;
            make(true, round_whole(size, 1074, Ghost(size * pow2(1074))))
        } else {
            let size: u128 = n as u128;
            make(false, round_whole(size, 1074, Ghost(size * pow2(1074))))
        }
    }
}

proof fn lemma_zero_is_nearest()
    ensures
        nearest(0, 1) == 0,
{
    lemma2_to64();
    lemma_nearest(0, 1, 0, 1, 0);
}

/// Every ratio of units can be written with some step.
proof fn lemma_fits_some(num: int, den: int, step: nat)
    requires
        num >= 0,
        den > 0,
        step == 0 || num >= 0x10_0000_0000_0000 * (den * pow2(step)),
    ensures
        exists|step: nat| fits(num, den, step),
    decreases num - den * pow2(step),
{
    if num < 0x20_0000_0000_0000 * (den * pow2(step)) {
        assert(fits(num, den, step));
    } else {
        lemma_pow2_unfold((step + 1) as nat);
        lemma_pow2_pos(step);
        let p = pow2(step) as int;
        let r = pow2((step + 1) as nat) as int;
        assert(den * r == 2 * (den * p) && den * p > 0) by (nonlinear_arith)
            requires
                r == 2 * p,
                p > 0,
                den > 0,
        ;
        lemma_fits_some(num, den, (step + 1) as nat);
    }
}

/// The units that make one are more than those of any lesser number.
proof fn lemma_less_than_one(m: int)
    requires
        0 <= m < 0x3ff0_0000_0000_0000,
    ensures
        0 <= units_of(m) < unit_count(),
{
    lemma_magnitude(m);
    let k = step_of(m);
    let g = significand_of(m);
    lemma2_to64();
    lemma2_to64_rest();
    lemma_pow2_pos(k);
    lemma_pow2_adds(53, k);
    if 53 + k < 1074 {
        lemma_pow2_strictly_increases((53 + k) as nat, 1074);
    }
    let p = pow2(k) as int;
    assert(g * p < 0x20_0000_0000_0000 * p) by (nonlinear_arith)
        requires
            g < 0x20_0000_0000_0000,
            p > 0,
    ;
}

/// What is above nothing and at most one is nearest to a number that is.
proof fn lemma_nearest_up_to_one(num: int)
    requires
        0 < num <= unit_count(),
    ensures
        0 < nearest(num, 1) <= 0x3ff0_0000_0000_0000,
{
    lemma2_to64();
    lemma2_to64_rest();
    lemma_fits_some(num, 1, 0);
    let k = choose|step: nat| fits(num, 1, step);
    assert(fits(num, 1, k));
    let p = pow2(k) as int;
    lemma_pow2_pos(k);
    assert(1 * p == p);
    lemma_fundamental_div_mod(num, p);
    let q = num / p;
    assert(0 <= q < 0x20_0000_0000_0000) by (nonlinear_arith)
        requires
            num == p * q + num % p,
            0 <= num % p < p,
            0 < num < 0x20_0000_0000_0000 * p,
            p > 0,
    ;
    if k == 0 {
        lemma_fundamental_div_mod_converse(num, 1, num, 0);
    } else {
        lemma_pow2_adds(52, k);
        if k > 1022 {
            lemma_pow2_strictly_increases(1074, (52 + k) as nat);
        } else if k == 1022 {
            assert(num == 0x10_0000_0000_0000 * p);
            lemma_fundamental_div_mod_converse(num, p, 0x10_0000_0000_0000, 0);
        }
    }
}

/// One less a number from nothing to below one is above nothing, and at most one.
pub proof fn law_rest_of_one_in_range(a: Double)
    requires
        reaches(a, zero()),
        exceeds(one(), a),
    ensures
        exceeds(difference(one(), a), zero()),
        reaches(one(), difference(one(), a)),
{
    let m = magnitude(a);
    lemma_less_than_one(m);
    lemma_one();
    assert(value(one()) == unit_count());
    if is_negative(a) {
        lemma_magnitude(m);
        assert(m == 0);
    }
    lemma_nearest_up_to_one(unit_count() - value(a));
}

/// The units of a magnitude that is put together of a step and a rounded significand.
proof fn lemma_rounded_units(step: nat, whole: int)
    requires
        0 <= whole <= 0x20_0000_0000_0000,
        step == 0 || whole >= 0x10_0000_0000_0000,
        step * 0x10_0000_0000_0000 + whole < INFINITY,
    ensures
        units_of(step * 0x10_0000_0000_0000 + whole) == whole * pow2(step),
{
    let m = step * 0x10_0000_0000_0000 + whole;
    lemma2_to64();
    lemma_pow2_unfold((step + 1) as nat);
    if whole == 0x20_0000_0000_0000 {
        assert(m == (step + 2) * 0x10_0000_0000_0000);
        assert(step_of(m) == step + 1);
        assert(significand_of(m) == 0x10_0000_0000_0000);
        let p = pow2(step) as int;
        assert(0x10_0000_0000_0000 * (2 * p) == 0x20_0000_0000_0000 * p) by (nonlinear_arith);
    } else if whole >= 0x10_0000_0000_0000 {
        assert(step_of(m) == step);
        assert(significand_of(m) == whole);
    }
}

/// A magnitude is found for every ratio, by way of some step and significand.
proof fn lemma_nearest_form(num: int, den: int) -> (form: (nat, int))
    requires
        num >= 0,
        den > 0,
    ensures
        fits(num, den, form.0),
        form.1 == nearest_whole(num, den * pow2(form.0)),
        0 <= form.1 <= 0x20_0000_0000_0000,
        form.0 == 0 || form.1 >= 0x10_0000_0000_0000,
        nearest(num, den) == capped(form.0 * 0x10_0000_0000_0000 + form.1),
        den * pow2(form.0) > 0,
        2 * (form.1 * (den * pow2(form.0)) - num) <= den * pow2(form.0),
        2 * (num - form.1 * (den * pow2(form.0))) <= den * pow2(form.0),
        nearest(num, den) < INFINITY ==> units_of(nearest(num, den)) == form.1 * pow2(form.0),
{
    lemma2_to64();
    assert(den * pow2(0) == den) by (nonlinear_arith)
        requires
            pow2(0) == 1,
    ;
    lemma_fits_some(num, den, 0);
    let k = choose|step: nat| fits(num, den, step);
    assert(fits(num, den, k));
    lemma_pow2_pos(k);
    let p = pow2(k) as int;
    let d = den * p;
    assert(d > 0) by (nonlinear_arith)
        requires
            d == den * p,
            den > 0,
            p > 0,
    ;
    lemma_fundamental_div_mod(num, d);
    let q = num / d;
    let r = num % d;
    assert(0 <= q < 0x20_0000_0000_0000) by (nonlinear_arith)
        requires
            num == d * q + r,
            0 <= r < d,
            0 <= num < 0x20_0000_0000_0000 * d,
    ;
    if k != 0 {
        assert(q >= 0x10_0000_0000_0000) by (nonlinear_arith)
            requires
                num == d * q + r,
                0 <= r < d,
                num >= 0x10_0000_0000_0000 * d,
        ;
    }
    let whole = nearest_whole(num, d);
    assert(q * d == d * q && (q + 1) * d == d * q + d) by (nonlinear_arith);
    if nearest(num, den) < INFINITY {
        lemma_rounded_units(k, whole);
    }
    (k, whole)
}

/// A rounded ratio is as near as half a step: either within one part in 2^53 of the ratio, or
/// within half a unit of it.
pub proof fn law_nearest_is_near(num: int, den: int)
    requires
        num >= 0,
        den > 0,
        nearest(num, den) < INFINITY,
    ensures
        nearest(num, den) >= 0,
        ({
            let rounded = units_of(nearest(num, den)) * den;
            ||| -num <= 0x20_0000_0000_0000 * (rounded - num) <= num
            ||| -den <= 2 * (rounded - num) <= den
        }),
{
    let (k, whole) = lemma_nearest_form(num, den);
    lemma_pow2_pos(k);
    lemma2_to64();
    let p = pow2(k) as int;
    let d = den * p;
    assert(whole * p * den == whole * (den * p)) by (nonlinear_arith);
    if k == 0 {
        assert(den * 1 == den);
    }
}

/// Where a unit is the whole of the denominator, nothing below one part in 2^53 is lost.
pub proof fn law_nearest_whole_is_near(num: int)
    requires
        num >= 0,
        nearest(num, 1) < INFINITY,
    ensures
        nearest(num, 1) >= 0,
        -num <= 0x20_0000_0000_0000 * (units_of(nearest(num, 1)) - num) <= num,
{
    law_nearest_is_near(num, 1);
}

/// Rounding keeps the order of ratios.
pub proof fn law_nearest_keeps_order(a: int, b: int, c: int, d: int)
    requires
        a >= 0,
        b > 0,
        c >= 0,
        d > 0,
        a * d <= c * b,
    ensures
        nearest(a, b) <= nearest(c, d),
{
    lemma_nearest_scaled(a, b, d);
    lemma_nearest_scaled(c, d, b);
    assert(b * d == d * b && b * d > 0) by (nonlinear_arith)
        requires
            b > 0,
            d > 0,
    ;
    assert(a * d >= 0 && c * b >= 0) by (nonlinear_arith)
        requires
            a >= 0,
            b > 0,
            c >= 0,
            d > 0,
    ;
    lemma_nearest_ordered(a * d, c * b, b * d);
}

proof fn lemma_nearest_scaled(num: int, den: int, c: int)
    requires
        num >= 0,
        den > 0,
        c > 0,
    ensures
        nearest(num * c, den * c) == nearest(num, den),
{
    let (k, whole) = lemma_nearest_form(num, den);
    lemma_pow2_pos(k);
    let p = pow2(k) as int;
    assert(num * c >= 0 && den * c > 0) by (nonlinear_arith)
        requires
            num >= 0,
            den > 0,
            c > 0,
    ;
    assert((num * c) * (den * p) == num * ((den * c) * p)) by (nonlinear_arith);
    lemma_nearest(num * c, den * c, num, den * p, k);
}

proof fn lemma_nearest_ordered(a: int, c: int, den: int)
    requires
        0 <= a <= c,
        den > 0,
    ensures
        nearest(a, den) <= nearest(c, den),
{
    let (k, x) = lemma_nearest_form(a, den);
    let (m, y) = lemma_nearest_form(c, den);
    lemma_pow2_pos(k);
    lemma_pow2_pos(m);
    let p = pow2(k) as int;
    let r = pow2(m) as int;
    if m < k {
        lemma_pow2_unfold((m + 1) as nat);
        if m + 1 < k {
            lemma_pow2_strictly_increases((m + 1) as nat, k);
        }
        assert(0x10_0000_0000_0000 * (den * p) >= 0x20_0000_0000_0000 * (den * r))
            by (nonlinear_arith)
            requires
                p >= 2 * r,
                den > 0,
        ;
    } else if k == m {
        let d = den * p;
        lemma_fundamental_div_mod(a, d);
        lemma_fundamental_div_mod(c, d);
        let qa = a / d;
        let qc = c / d;
        let ra = a % d;
        let rc = c % d;
        assert(qa <= qc) by (nonlinear_arith)
            requires
                a == d * qa + ra,
                c == d * qc + rc,
                0 <= ra < d,
                0 <= rc < d,
                a <= c,
        ;
        if qa == qc {
            assert(d * qa == d * qc);
        }
    }
}

/// The quotient of two positive numbers is the ratio, up to rounding.
pub proof fn law_quotient_is_near(a: Double, b: Double)
    requires
        is_finite(a),
        is_finite(b),
        value(a) >= 0,
        value(b) > 0,
        is_finite(quotient(a, b)),
    ensures
        value(quotient(a, b)) >= 0,
        ({
            let exact = value(a) * unit_count();
            let rounded = value(quotient(a, b)) * value(b);
            ||| -exact <= 0x20_0000_0000_0000 * (rounded - exact) <= exact
            ||| -value(b) <= 2 * (rounded - exact) <= value(b)
        }),
{
    lemma_value(a);
    lemma_value(b);
    lemma_pow2_pos(1074);
    let u = unit_count();
    if magnitude(a) == 0 {
        assert(0 * u == 0 && 0 * value(b) == 0) by (nonlinear_arith);
        assert(units_of(0) == 0) by {
            lemma_magnitude(0);
        }
    } else {
        let num = units_of(magnitude(a)) * u;
        assert(num >= 0) by (nonlinear_arith)
            requires
                num == units_of(magnitude(a)) * u,
                units_of(magnitude(a)) >= 0,
                u > 0,
        ;
        let (k, whole) = lemma_nearest_form(num, units_of(magnitude(b)));
        lemma_capped(k, whole);
        lemma_signed(false, nearest(num, units_of(magnitude(b))));
        law_nearest_is_near(num, units_of(magnitude(b)));
    }
}

proof fn lemma_capped(k: nat, whole: int)
    requires
        whole >= 0,
    ensures
        0 <= capped(k * 0x10_0000_0000_0000 + whole) <= INFINITY,
{
}

/// The sign and the magnitude of a number that is put together of them.
proof fn lemma_signed(negative: bool, m: int)
    requires
        0 <= m <= INFINITY,
    ensures
        magnitude(signed(negative, m)) == m,
        is_negative(signed(negative, m)) == negative,
{
}

/// A finite number's value has its sign.
proof fn lemma_value(a: Double)
    requires
        is_finite(a),
    ensures
        value(a) == 0 <==> magnitude(a) == 0,
        value(a) > 0 ==> !is_negative(a),
        value(a) < 0 ==> is_negative(a),
        is_negative(a) ==> value(a) == -units_of(magnitude(a)),
        !is_negative(a) ==> value(a) == units_of(magnitude(a)),
        units_of(magnitude(a)) >= 0,
{
    lemma_magnitude(magnitude(a));
}

/// The difference of two numbers, the first the larger, is the exact one, up to rounding.
pub proof fn law_difference_is_near(a: Double, b: Double)
    requires
        is_finite(a),
        is_finite(b),
        value(a) > value(b),
        is_finite(difference(a, b)),
    ensures
        value(difference(a, b)) > 0,
        -(value(a) - value(b)) <= 0x20_0000_0000_0000 * (value(difference(a, b)) - (value(a)
            - value(b))) <= value(a) - value(b),
{
    let num = value(a) - value(b);
    let (k, whole) = lemma_nearest_form(num, 1);
    lemma_capped(k, whole);
    lemma_signed(false, nearest(num, 1));
    law_nearest_whole_is_near(num);
}

/// An integer that a number can hold is held exactly.
pub proof fn law_integer_is_exact(n: int)
    requires
        0 <= n <= 0x20_0000_0000_0000,
    ensures
        is_finite(of_integer(n)),
        !is_negative(of_integer(n)),
        value(of_integer(n)) == n * unit_count(),
{
    lemma2_to64();
    lemma2_to64_rest();
    lemma_pow2_pos(1074);
    let u = unit_count();
    let num = n * u;
    assert(0 <= num <= 0x20_0000_0000_0000 * u) by (nonlinear_arith)
        requires
            num == n * u,
            0 <= n <= 0x20_0000_0000_0000,
            u > 0,
    ;
    let (k, whole) = lemma_nearest_form(num, 1);
    let p = pow2(k) as int;
    lemma_pow2_pos(k);
    lemma_pow2_adds(52, k);
    lemma_pow2_adds(53, 1074);
    if k > 1075 {
        lemma_pow2_strictly_increases(1127, (52 + k) as nat);
    }
    if k == 1075 {
        // Only the largest integer comes to this step, where it is halfway up.
        lemma_pow2_unfold(1075);
        assert(num == 0x10_0000_0000_0000 * p);
        lemma_fundamental_div_mod_converse(num, p, 0x10_0000_0000_0000, 0);
    } else {
        lemma_pow2_adds(k, (1074 - k) as nat);
        let e = pow2((1074 - k) as nat) as int;
        assert(num == (n * e) * p) by (nonlinear_arith)
            requires
                num == n * u,
                u == p * e,
        ;
        lemma_fundamental_div_mod_converse(num, p, n * e, 0);
    }
    assert(1 * p == p);
    assert(k * 0x10_0000_0000_0000 + whole < INFINITY);
    lemma_signed(false, nearest(num, 1));
    assert(whole * p == num) by {
        assert(num % p == 0);
        lemma_fundamental_div_mod(num, p);
        assert(p * (num / p) == (num / p) * p) by (nonlinear_arith);
    }
}

/// Every integer of 64 bits is held up to rounding.
pub proof fn law_integer_is_near(n: int)
    requires
        0 <= n < 0x1_0000_0000_0000_0000,
    ensures
        is_finite(of_integer(n)),
        value(of_integer(n)) >= 0,
        -(n * unit_count()) <= 0x20_0000_0000_0000 * (value(of_integer(n)) - n * unit_count()) <= n
            * unit_count(),
{
    lemma2_to64();
    lemma2_to64_rest();
    lemma_pow2_pos(1074);
    let u = unit_count();
    let num = n * u;
    assert(0 <= num < 0x1_0000_0000_0000_0000 * u) by (nonlinear_arith)
        requires
            num == n * u,
            0 <= n < 0x1_0000_0000_0000_0000,
            u > 0,
    ;
    let (k, whole) = lemma_nearest_form(num, 1);
    lemma_pow2_adds(52, k);
    lemma_pow2_adds(64, 1074);
    assert(1 * pow2(k) == pow2(k));
    if k > 1086 {
        lemma_pow2_strictly_increases(1138, (52 + k) as nat);
    }
    lemma_signed(false, nearest(num, 1));
    law_nearest_whole_is_near(num);
}

/// The order of numbers is the order of their values.
pub proof fn law_order_is_of_values(a: Double, b: Double)
    requires
        is_finite(a),
        is_finite(b),
    ensures
        reaches(a, b) <==> value(a) >= value(b),
        exceeds(a, b) <==> value(a) > value(b),
{
    lemma_value(a);
    lemma_value(b);
    lemma_units_ordered(magnitude(a), magnitude(b));
    lemma_units_ordered(magnitude(b), magnitude(a));
}

proof fn lemma_units_ordered(a: int, b: int)
    requires
        0 <= a < INFINITY,
        0 <= b < INFINITY,
    ensures
        a < b ==> units_of(a) < units_of(b),
        a == b ==> units_of(a) == units_of(b),
{
    if a < b {
        lemma_magnitude(a);
        lemma_magnitude(b);
        let k = step_of(a);
        let m = step_of(b);
        let x = significand_of(a);
        let y = significand_of(b);
        lemma_pow2_pos(k);
        let p = pow2(k) as int;
        if k == m {
            assert(x * p < y * p) by (nonlinear_arith)
                requires
                    x < y,
                    p > 0,
            ;
        } else {
            assert(k < m);
            lemma_pow2_unfold((k + 1) as nat);
            if k + 1 < m {
                lemma_pow2_strictly_increases((k + 1) as nat, m);
            }
            let r = pow2(m) as int;
            assert(x * p < y * r) by (nonlinear_arith)
                requires
                    0 <= x < 0x20_0000_0000_0000,
                    y >= 0x10_0000_0000_0000,
                    r >= 2 * p,
                    p > 0,
            ;
        }
    }
}

/// A quotient is no larger than what bounds the ratio.
pub proof fn law_quotient_is_bounded(a: Double, b: Double, bound: int)
    requires
        is_finite(a),
        is_finite(b),
        value(a) >= 0,
        value(b) > 0,
        0 <= bound < INFINITY,
        value(a) * unit_count() <= units_of(bound) * value(b),
    ensures
        magnitude(quotient(a, b)) <= bound,
        is_finite(quotient(a, b)),
{
    lemma_value(a);
    lemma_value(b);
    lemma_pow2_pos(1074);
    let u = unit_count();
    if magnitude(a) != 0 {
        let num = units_of(magnitude(a)) * u;
        let den = units_of(magnitude(b));
        assert(num >= 0) by (nonlinear_arith)
            requires
                num == units_of(magnitude(a)) * u,
                units_of(magnitude(a)) >= 0,
                u > 0,
        ;
        lemma_magnitude(bound);
        law_nearest_keeps_order(num, den, units_of(bound), 1);
        law_exact_is_kept(bound);
        let (k, whole) = lemma_nearest_form(num, den);
        lemma_capped(k, whole);
        lemma_signed(false, nearest(num, den));
    }
}

/// A difference of two numbers from nothing to one lies there too.
pub proof fn law_difference_is_bounded(a: Double, b: Double)
    requires
        is_finite(a),
        is_finite(b),
        value(a) > value(b),
        value(a) - value(b) <= unit_count(),
    ensures
        is_finite(difference(a, b)),
        0 < value(difference(a, b)) <= unit_count(),
{
    let num = value(a) - value(b);
    lemma_nearest_up_to_one(num);
    lemma_signed(false, nearest(num, 1));
    law_difference_is_near(a, b);
    let m = nearest(num, 1);
    lemma_one();
    lemma_units_ordered(m, 0x3ff0_0000_0000_0000);
}

/// One is as many units as make one.
proof fn lemma_one()
    ensures
        units_of(0x3ff0_0000_0000_0000) == unit_count(),
{
    lemma2_to64();
    lemma2_to64_rest();
    lemma_pow2_adds(52, 1022);
    assert(step_of(0x3ff0_0000_0000_0000) == 1022);
    assert(significand_of(0x3ff0_0000_0000_0000) == 0x10_0000_0000_0000);
}

/// The quotient of numbers that are not below nothing, the second above it, is not below nothing.
pub proof fn law_quotient_is_unsigned(a: Double, b: Double)
    requires
        is_finite(a),
        is_finite(b),
        !is_negative(a),
        value(b) > 0,
    ensures
        !is_nan(quotient(a, b)),
        !is_negative(quotient(a, b)),
{
    lemma_value(a);
    lemma_value(b);
    lemma_pow2_pos(1074);
    let u = unit_count();
    if magnitude(a) != 0 {
        let num = units_of(magnitude(a)) * u;
        assert(num >= 0) by (nonlinear_arith)
            requires
                num == units_of(magnitude(a)) * u,
                units_of(magnitude(a)) >= 0,
                u > 0,
        ;
        let (k, whole) = lemma_nearest_form(num, units_of(magnitude(b)));
        lemma_capped(k, whole);
        lemma_signed(false, nearest(num, units_of(magnitude(b))));
    }
}

/// Dividing by the same number keeps the order.
pub proof fn law_quotient_keeps_order(a: Double, b: Double, by: Double)
    requires
        is_finite(a),
        is_finite(b),
        is_finite(by),
        0 <= value(a) <= value(b),
        value(by) > 0,
        is_finite(quotient(a, by)),
        is_finite(quotient(b, by)),
    ensures
        value(quotient(a, by)) <= value(quotient(b, by)),
{
    lemma_value(a);
    lemma_value(b);
    lemma_value(by);
    lemma_pow2_pos(1074);
    law_quotient_is_near(a, by);
    law_quotient_is_near(b, by);
    let u = unit_count();
    let x = units_of(magnitude(a)) * u;
    let y = units_of(magnitude(b)) * u;
    let d = units_of(magnitude(by));
    if magnitude(a) != 0 && magnitude(b) != 0 {
        assert(0 <= x <= y && x * d <= y * d) by (nonlinear_arith)
            requires
                x == units_of(magnitude(a)) * u,
                y == units_of(magnitude(b)) * u,
                0 <= units_of(magnitude(a)) <= units_of(magnitude(b)),
                u > 0,
                d > 0,
        ;
        law_nearest_keeps_order(x, d, y, d);
        let (k, v) = lemma_nearest_form(x, d);
        let (l, w) = lemma_nearest_form(y, d);
        lemma_capped(k, v);
        lemma_capped(l, w);
        lemma_signed(false, nearest(x, d));
        lemma_signed(false, nearest(y, d));
        lemma_units_ordered(nearest(x, d), nearest(y, d));
    } else if magnitude(a) == 0 {
        lemma_magnitude(0);
        lemma_signed(is_negative(a) != is_negative(by), 0);
    }
}

/// A number divided by itself is one.
pub proof fn law_self_quotient_is_one(a: Double)
    requires
        is_finite(a),
        value(a) > 0,
    ensures
        quotient(a, a) == one(),
        is_finite(quotient(a, a)),
{
    lemma_value(a);
    lemma_one();
    lemma_pow2_pos(1074);
    let u = unit_count();
    let m = units_of(magnitude(a));
    assert(m * u == u * m) by (nonlinear_arith);
    assert(m * u >= 0) by (nonlinear_arith)
        requires
            m > 0,
            u > 0,
    ;
    lemma_nearest_scaled(u, 1, m);
    assert(1 * m == m);
    law_exact_is_kept(0x3ff0_0000_0000_0000);
}

/// One has as many units as make one.
pub proof fn law_one_is_one()
    ensures
        is_finite(one()),
        value(one()) == unit_count(),
{
    lemma_one();
}

/// A number of a lesser magnitude has no more units.
pub proof fn law_units_of_lesser(a: int, b: int)
    requires
        0 <= a < INFINITY,
        0 <= b < INFINITY,
        units_of(a) < units_of(b + 1),
        b + 1 < INFINITY,
    ensures
        units_of(a) <= units_of(b),
{
    lemma_units_ordered(b + 1, a);
    lemma_units_ordered(a, b);
}

/// A negative number divided by a positive one is below one.
pub proof fn law_quotient_of_negative(a: Double, b: Double)
    requires
        is_finite(a),
        is_finite(b),
        value(a) < 0,
        value(b) > 0,
    ensures
        is_negative(quotient(a, b)),
        !reaches(quotient(a, b), one()),
{
    lemma_value(a);
    lemma_value(b);
    lemma_pow2_pos(1074);
    let u = unit_count();
    let num = units_of(magnitude(a)) * u;
    assert(num >= 0) by (nonlinear_arith)
        requires
            num == units_of(magnitude(a)) * u,
            units_of(magnitude(a)) >= 0,
            u > 0,
    ;
    let (k, whole) = lemma_nearest_form(num, units_of(magnitude(b)));
    lemma_capped(k, whole);
    lemma_signed(true, nearest(num, units_of(magnitude(b))));
}

/// A quotient that is infinite is of a ratio beyond every number.
pub proof fn law_infinite_quotient_is_huge(a: Double, b: Double)
    requires
        is_finite(a),
        is_finite(b),
        value(a) >= 0,
        value(b) > 0,
        is_infinite(quotient(a, b)),
    ensures
        value(a) >= 0x1_0000_0000_0000_0000 * value(b),
{
    lemma_value(a);
    lemma_value(b);
    lemma_pow2_pos(1074);
    let u = unit_count();
    let num = units_of(magnitude(a)) * u;
    let den = units_of(magnitude(b));
    assert(num >= 0) by (nonlinear_arith)
        requires
            num == units_of(magnitude(a)) * u,
            units_of(magnitude(a)) >= 0,
            u > 0,
    ;
    if magnitude(a) != 0 {
        let (k, whole) = lemma_nearest_form(num, den);
        lemma_capped(k, whole);
        lemma_signed(false, nearest(num, den));
        assert(k >= 2045);
        lemma2_to64();
        lemma2_to64_rest();
        lemma_pow2_adds(64, 1074);
        if k > 1138 {
            lemma_pow2_strictly_increases(1138, k);
        }
        let p = pow2(k) as int;
        let v = value(a);
        assert(v >= 0x1_0000_0000_0000_0000 * den) by (nonlinear_arith)
            requires
                v * u >= 0x10_0000_0000_0000 * (den * p),
                p >= 0x1_0000_0000_0000_0000 * u,
                u > 0,
                den > 0,
        ;
    }
}

/// A negative integer is held as the positive one is, but for the sign.
pub proof fn law_negative_integer(n: int)
    requires
        -0x1_0000_0000_0000_0000 < n < 0,
    ensures
        is_negative(of_integer(n)),
        magnitude(of_integer(n)) == magnitude(of_integer(-n)),
{
    law_integer_is_near(-n);
    lemma_pow2_pos(1074);
    let u = unit_count();
    let num = -n * u;
    assert(num >= 0) by (nonlinear_arith)
        requires
            num == -n * u,
            n < 0,
            u > 0,
    ;
    let (k, whole) = lemma_nearest_form(num, 1);
    lemma_capped(k, whole);
    lemma_signed(true, nearest(num, 1));
    lemma_signed(false, nearest(num, 1));
}

} // verus!
