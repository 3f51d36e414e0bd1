//! Powers with fractional exponents, by square roots.
//!
//! Numbers here are natural and stand for so many parts of `FINE`.  The power of
//! `x` for an exponent below one follows the binary digits of the exponent: the
//! first digit stands for the square root of `x`, the second for the square root of
//! that, and so on; the power is the product of the roots whose digits are set.  The
//! laws at the end say how near that comes to the power of the reals, without roots:
//! both sides are raised to a whole power.

use vstd::arithmetic::power::{
    lemma_pow1, lemma_pow_adds, lemma_pow_distributes, lemma_pow_positive, pow,
};
use vstd::prelude::*;

verus! {

/// The parts in one.
pub const FINE: u128 = 10_000_000_000_000;

/// The parts of the exponent in one.
pub const EXPONENT_ONE: u64 = 1_000_000_000;

/// The binary digits of the exponent that are gone through.
pub const DIGITS: u32 = 48;

/// The largest number that roots and powers are taken of.
pub const MAX_BASE: u128 = 100_000_000_000_000_000_000_000;

/// The largest whole number whose square is at most `n`.
pub open spec fn whole_root(n: nat) -> nat
    decreases n,
{
    if n == 0 {
        0
    } else {
        let y = whole_root((n - 1) as nat);
        if (y + 1) * (y + 1) <= n {
            y + 1
        } else {
            y
        }
    }
}

pub proof fn lemma_whole_root(n: nat)
    ensures
        whole_root(n) * whole_root(n) <= n < (whole_root(n) + 1) * (whole_root(n) + 1),
    decreases n,
{
    assert((0nat + 1) * (0nat + 1) == 1) by (nonlinear_arith);
    if n > 0 {
        lemma_whole_root((n - 1) as nat);
        let y = whole_root((n - 1) as nat);
        let z = whole_root(n);
        assert((y + 2) * (y + 2) > (y + 1) * (y + 1)) by (nonlinear_arith);
        if (y + 1) * (y + 1) <= n {
            assert(z == y + 1 && z + 1 == y + 2);
        } else {
            assert(z == y);
        }
    } else {
        assert(whole_root(n) == 0);
    }
}

/// A number whose square is at most `n`, and the next one's is not, is its root.
proof fn lemma_is_whole_root(n: nat, y: nat)
    requires
        y * y <= n < (y + 1) * (y + 1),
    ensures
        whole_root(n) == y,
{
    lemma_whole_root(n);
    let z = whole_root(n);
    assert(z == y) by (nonlinear_arith)
        requires
            y * y <= n < (y + 1) * (y + 1),
            z * z <= n < (z + 1) * (z + 1),
    ;
}

proof fn lemma_whole_root_grows(a: nat, b: nat)
    requires
        a <= b,
    ensures
        whole_root(a) <= whole_root(b),
{
    lemma_whole_root(a);
    lemma_whole_root(b);
    let (x, y) = (whole_root(a), whole_root(b));
    assert(x <= y) by (nonlinear_arith)
        requires
            x * x <= a,
            a <= b,
            b < (y + 1) * (y + 1),
    ;
}

fn find_whole_root(n: u128) -> (r: u128)
    requires
        n < 0x100_0000_0000_0000_0000_0000_0000_0000,
    ensures
        r == whole_root(n as nat),
{
    let mut low: u128 = 0;
    let mut high: u128 = 0x1000_0000_0000_0000;
    assert(0x1000_0000_0000_0000u128 * 0x1000_0000_0000_0000u128
        == 0x100_0000_0000_0000_0000_0000_0000_0000) by (nonlinear_arith);
    while high - low > 1
        invariant
            low < high <= 0x1000_0000_0000_0000,
            low * low <= n < high * high,
        decreases high - low,
    {
        let middle: u128 = low + (high - low) / 2;
        assert(middle * middle <= 0x100_0000_0000_0000_0000_0000_0000_0000) by (nonlinear_arith)
            requires
                0 <= middle <= 0x1000_0000_0000_0000,
        ;
        if middle * middle <= n {
            low = middle;
        } else {
            high = middle;
        }
    }
    proof {
        lemma_is_whole_root(n as nat, low as nat);
    }
    low
}

/// The square root, in parts.
pub open spec fn root(x: nat) -> nat {
    whole_root(x * FINE as nat)
}

/// `x`, or one where `x` is less.
pub open spec fn at_least_one(x: nat) -> nat {
    if x < FINE {
        FINE as nat
    } else {
        x
    }
}

/// A root lies between the number and one.
proof fn lemma_root_bounds(x: nat)
    ensures
        root(x) <= at_least_one(x),
        root(x) * root(x) <= x * FINE,
{
    lemma_whole_root(x * FINE as nat);
    let (r, m) = (root(x), at_least_one(x));
    assert(x * FINE <= m * m) by (nonlinear_arith)
        requires
            x <= m,
            FINE <= m,
    ;
    assert(r <= m) by (nonlinear_arith)
        requires
            r * r <= m * m,
    ;
}

/// The power of `x` for an exponent of so many parts below one, along the first
/// `digits` of its binary digits.
pub open spec fn part_power(x: nat, exponent: nat, digits: nat) -> nat
    decreases digits,
{
    if digits == 0 {
        FINE as nat
    } else if 2 * exponent >= EXPONENT_ONE {
        root(x) * part_power(
            root(x),
            (2 * exponent - EXPONENT_ONE) as nat,
            (digits - 1) as nat,
        ) / FINE as nat
    } else {
        part_power(root(x), 2 * exponent, (digits - 1) as nat)
    }
}

/// A power lies between the number and one.
proof fn lemma_part_power_bounds(x: nat, exponent: nat, digits: nat)
    ensures
        part_power(x, exponent, digits) <= at_least_one(x),
        2 * exponent >= EXPONENT_ONE && digits > 0 ==> root(x) * part_power(
            root(x),
            (2 * exponent - EXPONENT_ONE) as nat,
            (digits - 1) as nat,
        ) <= at_least_one(x) * FINE,
    decreases digits,
{
    if digits > 0 {
        let r = root(x);
        lemma_root_bounds(x);
        if 2 * exponent >= EXPONENT_ONE {
            let e = (2 * exponent - EXPONENT_ONE) as nat;
            lemma_part_power_bounds(r, e, (digits - 1) as nat);
            let p = part_power(r, e, (digits - 1) as nat);
            let m = at_least_one(x);
            assert(r * p <= m * FINE) by {
                if r < FINE {
                    assert(r * p <= m * FINE) by (nonlinear_arith)
                        requires
                            p <= FINE,
                            r <= m,
                    ;
                } else {
                    assert(r * p <= r * r) by (nonlinear_arith)
                        requires
                            p <= r,
                    ;
                    assert(x * FINE <= m * FINE) by (nonlinear_arith)
                        requires
                            x <= m,
                    ;
                }
            }
            assert(r * p / FINE as nat <= m) by (nonlinear_arith)
                requires
                    r * p <= m * FINE,
                    FINE > 0,
            ;
        } else {
            lemma_part_power_bounds(r, 2 * exponent, (digits - 1) as nat);
        }
    }
}

/// The power of a number up to one falls short of it by little.
proof fn lemma_part_power_floor(x: nat, exponent: nat, digits: nat)
    requires
        x <= FINE,
    ensures
        x <= part_power(x, exponent, digits) + 4 * digits,
    decreases digits,
{
    if digits > 0 {
        let r = root(x);
        lemma_whole_root(x * FINE as nat);
        lemma_root_bounds(x);
        assert(x * x <= x * FINE) by (nonlinear_arith)
            requires
                x <= FINE,
        ;
        assert(x <= r) by (nonlinear_arith)
            requires
                x * x <= x * FINE,
                x * FINE < (r + 1) * (r + 1),
        ;
        if 2 * exponent >= EXPONENT_ONE {
            let e = (2 * exponent - EXPONENT_ONE) as nat;
            lemma_part_power_floor(r, e, (digits - 1) as nat);
            let p = part_power(r, e, (digits - 1) as nat);
            let lost = 4 * (digits - 1);
            assert((r + 1) * (r + 1) == r * r + 2 * r + 1) by (nonlinear_arith);
            assert(r * r <= r * p + r * lost) by (nonlinear_arith)
                requires
                    r <= p + lost,
            ;
            assert(r * lost <= FINE * lost) by (nonlinear_arith)
                requires
                    r <= FINE,
                    0 <= lost,
            ;
            assert(x * FINE <= r * p + FINE * lost + 3 * FINE);
            let q = r * p / FINE as nat;
            vstd::arithmetic::div_mod::lemma_fundamental_div_mod((r * p) as int, FINE as int);
            assert(x <= q + lost + 4) by (nonlinear_arith)
                requires
                    x * FINE <= r * p + FINE * lost + 3 * FINE,
                    r * p < FINE * q + FINE,
                    FINE > 0,
            ;
        } else {
            lemma_part_power_floor(r, 2 * exponent, (digits - 1) as nat);
        }
    }
}

/// The power grows with the number.
proof fn lemma_part_power_grows(x: nat, y: nat, exponent: nat, digits: nat)
    requires
        x <= y,
    ensures
        part_power(x, exponent, digits) <= part_power(y, exponent, digits),
    decreases digits,
{
    if digits > 0 {
        assert(x * FINE <= y * FINE) by (nonlinear_arith)
            requires
                x <= y,
        ;
        lemma_whole_root_grows(x * FINE as nat, y * FINE as nat);
        let (r, s) = (root(x), root(y));
        if 2 * exponent >= EXPONENT_ONE {
            let e = (2 * exponent - EXPONENT_ONE) as nat;
            lemma_part_power_grows(r, s, e, (digits - 1) as nat);
            let (p, q) = (
                part_power(r, e, (digits - 1) as nat),
                part_power(s, e, (digits - 1) as nat),
            );
            assert(r * p <= s * q) by (nonlinear_arith)
                requires
                    r <= s,
                    p <= q,
            ;
            vstd::arithmetic::div_mod::lemma_div_is_ordered(
                (r * p) as int,
                (s * q) as int,
                FINE as int,
            );
        } else {
            lemma_part_power_grows(r, s, 2 * exponent, (digits - 1) as nat);
        }
    }
}

fn find_part_power(x: u128, exponent: u64, digits: u32) -> (r: u128)
    requires
        x <= MAX_BASE,
        exponent < EXPONENT_ONE,
    ensures
        r == part_power(x as nat, exponent as nat, digits as nat),
        r <= at_least_one(x as nat),
    decreases digits,
{
    proof {
        lemma_part_power_bounds(x as nat, exponent as nat, digits as nat);
        lemma_root_bounds(x as nat);
        assert(x * FINE <= MAX_BASE * FINE && at_least_one(x as nat) * FINE <= MAX_BASE * FINE)
            by (nonlinear_arith)
            requires
                x <= MAX_BASE,
                at_least_one(x as nat) <= MAX_BASE,
        ;
        assert(MAX_BASE * FINE == 1_000_000_000_000_000_000_000_000_000_000_000_000)
            by (nonlinear_arith);
    }
    if digits == 0 {
        return FINE;
    }
    let r: u128 = find_whole_root(x * FINE);
    assert(r == root(x as nat));
    if 2 * exponent >= EXPONENT_ONE {
        let rest: u128 = find_part_power(r, 2 * exponent - EXPONENT_ONE, digits - 1);
        r * rest / FINE
    } else {
        find_part_power(r, 2 * exponent, digits - 1)
    }
}

/// The power of `x` for an exponent below one.
pub open spec fn fraction_power(x: nat, exponent: nat) -> nat {
    part_power(x, exponent, DIGITS as nat)
}

pub fn find_fraction_power(x: u128, exponent: u64) -> (r: u128)
    requires
        x <= MAX_BASE,
        exponent < EXPONENT_ONE,
    ensures
        r == fraction_power(x as nat, exponent as nat),
        r <= at_least_one(x as nat),
{
    find_part_power(x, exponent, DIGITS)
}

/// Powers grow with the number and lie, but for a few parts, between it and one.
pub proof fn lemma_fraction_power(x: nat, y: nat, exponent: nat)
    requires
        x <= y,
    ensures
        fraction_power(x, exponent) <= fraction_power(y, exponent),
        fraction_power(x, exponent) <= at_least_one(x),
        x <= FINE ==> x <= fraction_power(x, exponent) + 1_000,
{
    if x <= FINE {
        lemma_part_power_floor(x, exponent, DIGITS as nat);
    }
    lemma_part_power_grows(x, y, exponent, DIGITS as nat);
    lemma_part_power_bounds(x, exponent, DIGITS as nat);
}

/// The first `digits` binary digits of an exponent, read as a whole number.
pub open spec fn leading_digits(exponent: nat, digits: nat) -> nat {
    exponent * pow(2, digits) as nat / EXPONENT_ONE as nat
}

/// A fractional power of zero is zero.
pub proof fn lemma_zero_power(exponent: nat)
    requires
        0 < exponent < EXPONENT_ONE,
    ensures
        fraction_power(0, exponent) == 0,
{
    reveal_with_fuel(pow, 17);
    assert(pow(2, 16) == 65_536);
    lemma_pow_adds(2, 16, 16);
    lemma_pow_adds(2, 16, 32);
    assert(pow(2, 48) == 65_536 * (65_536 * 65_536));
    assert(exponent * pow(2, 48) >= EXPONENT_ONE) by (nonlinear_arith)
        requires
            exponent >= 1,
            pow(2, 48) == 65_536 * (65_536 * 65_536),
    ;
    lemma_no_power(exponent, 48);
}

proof fn lemma_no_power(exponent: nat, digits: nat)
    requires
        exponent < EXPONENT_ONE,
        exponent * pow(2, digits) >= EXPONENT_ONE,
    ensures
        part_power(0, exponent, digits) == 0,
    decreases digits,
{
    reveal(pow);
    lemma_whole_root(0);
    assert(root(0) == 0);
    if digits == 0 {
        assert(exponent * 1 == exponent);
    } else {
        let half = pow(2, (digits - 1) as nat);
        if 2 * exponent >= EXPONENT_ONE {
            let rest = part_power(
                root(0),
                (2 * exponent - EXPONENT_ONE) as nat,
                (digits - 1) as nat,
            );
            assert(0 * rest == 0) by (nonlinear_arith);
            assert(0nat / FINE as nat == 0);
        } else {
            assert(exponent * (2 * half) == (2 * exponent) * half) by (nonlinear_arith);
            lemma_no_power(2 * exponent, (digits - 1) as nat);
        }
    }
}

/// The first digit, and those behind it.
proof fn lemma_leading_digits(exponent: nat, digits: nat)
    requires
        digits > 0,
    ensures
        pow(2, digits) == 2 * pow(2, (digits - 1) as nat),
        pow(2, (digits - 1) as nat) > 0,
        2 * exponent < EXPONENT_ONE ==> leading_digits(exponent, digits) == leading_digits(
            2 * exponent,
            (digits - 1) as nat,
        ),
        2 * exponent >= EXPONENT_ONE ==> leading_digits(exponent, digits) == pow(
            2,
            (digits - 1) as nat,
        ) + leading_digits((2 * exponent - EXPONENT_ONE) as nat, (digits - 1) as nat),
{
    reveal(pow);
    lemma_pow_positive(2, (digits - 1) as nat);
    let half = pow(2, (digits - 1) as nat);
    let (e, one) = (exponent as int, EXPONENT_ONE as int);
    assert(e * (2 * half) == (2 * e) * half) by (nonlinear_arith);
    if 2 * exponent >= EXPONENT_ONE {
        assert((2 * e) * half == one * half + (2 * e - one) * half) by (nonlinear_arith);
        assert(0 <= (2 * e - one) * half) by (nonlinear_arith)
            requires
                2 * e >= one,
                half > 0,
        ;
        vstd::arithmetic::div_mod::lemma_hoist_over_denominator(
            (2 * e - one) * half,
            half,
            one as nat,
        );
        assert(one * half == half * one) by (nonlinear_arith);
    }
}

/// Powers grow with their base.
proof fn lemma_pow_grows(a: int, b: int, n: nat)
    requires
        0 <= a <= b,
    ensures
        0 <= pow(a, n) <= pow(b, n),
    decreases n,
{
    reveal(pow);
    if n > 0 {
        lemma_pow_grows(a, b, (n - 1) as nat);
        let (x, y) = (pow(a, (n - 1) as nat), pow(b, (n - 1) as nat));
        assert(0 <= a * x <= b * y) by (nonlinear_arith)
            requires
                0 <= a <= b,
                0 <= x <= y,
        ;
    }
}

/// The square of what a root's power comes to.
proof fn lemma_squared(power: int, h: nat, m: nat, r: int, x: int)
    requires
        0 <= power,
        0 <= r,
        0 <= x,
        r * r <= x * FINE,
        pow(power, h) * pow(FINE as int, m) <= pow(r, m) * pow(FINE as int, h),
    ensures
        pow(power, 2 * h) * pow(FINE as int, m) <= pow(x, m) * pow(FINE as int, 2 * h),
{
    let f = FINE as int;
    let (p, c, g, a, b) = (pow(power, h), pow(f, m), pow(f, h), pow(r, m), pow(x, m));
    lemma_pow_positive(f, m);
    lemma_pow_grows(0, power, h);
    lemma_pow_grows(0, r, m);
    lemma_pow_grows(0, x, m);
    lemma_pow_grows(0, f, h);
    lemma_pow_adds(power, h, h);
    lemma_pow_adds(f, h, h);
    lemma_pow_distributes(r, r, m);
    lemma_pow_distributes(x, f, m);
    assert(0 <= r * r) by (nonlinear_arith);
    lemma_pow_grows(r * r, x * f, m);
    assert(a * a <= b * c);
    assert(0 <= p * c) by (nonlinear_arith)
        requires
            0 <= p,
            0 <= c,
    ;
    assert((p * c) * (p * c) <= (a * g) * (a * g)) by (nonlinear_arith)
        requires
            0 <= p * c <= a * g,
    ;
    assert((a * g) * (a * g) == (a * a) * (g * g)) by (nonlinear_arith);
    assert((a * a) * (g * g) <= (b * c) * (g * g)) by (nonlinear_arith)
        requires
            a * a <= b * c,
            0 <= g * g,
    ;
    assert((p * p) * c * c <= b * (g * g) * c) by (nonlinear_arith)
        requires
            (p * c) * (p * c) <= (b * c) * (g * g),
    ;
    assert((p * p) * c <= b * (g * g)) by (nonlinear_arith)
        requires
            (p * p) * c * c <= b * (g * g) * c,
            c > 0,
    ;
}

/// What a set digit multiplies the power with.
proof fn lemma_times_root(power: int, rest: int, h: nat, m: nat, r: int, x: int)
    requires
        0 <= power,
        0 <= rest,
        0 <= r,
        0 <= x,
        r * r <= x * FINE,
        power * FINE <= r * rest,
        pow(rest, 2 * h) * pow(FINE as int, m) <= pow(x, m) * pow(FINE as int, 2 * h),
    ensures
        pow(power, 2 * h) * pow(FINE as int, h + m) <= pow(x, h + m) * pow(FINE as int, 2 * h),
{
    let f = FINE as int;
    let (p, q) = (pow(power, 2 * h), pow(rest, 2 * h));
    let (g, c, d, b) = (pow(f, h), pow(f, m), pow(x, h), pow(x, m));
    lemma_pow_positive(f, h);
    lemma_pow_grows(0, f, m);
    lemma_pow_grows(0, x, h);
    lemma_pow_grows(0, x, m);
    lemma_pow_grows(0, rest, 2 * h);
    lemma_pow_adds(f, h, h);
    lemma_pow_adds(f, h, m);
    lemma_pow_adds(x, h, m);
    lemma_pow_adds(r, h, h);
    lemma_pow_distributes(r, r, h);
    lemma_pow_distributes(x, f, h);
    lemma_pow_distributes(power, f, 2 * h);
    lemma_pow_distributes(r, rest, 2 * h);
    assert(0 <= r * r) by (nonlinear_arith);
    assert(0 <= power * f) by (nonlinear_arith)
        requires
            0 <= power,
            0 <= f,
    ;
    lemma_pow_grows(r * r, x * f, h);
    lemma_pow_grows(power * f, r * rest, 2 * h);
    assert(p * (g * g) <= pow(r, 2 * h) * q);
    assert(pow(r, 2 * h) * q <= (d * g) * q) by (nonlinear_arith)
        requires
            pow(r, 2 * h) <= d * g,
            0 <= q,
    ;
    assert(p * g <= d * q) by (nonlinear_arith)
        requires
            p * (g * g) <= (d * g) * q,
            g > 0,
    ;
    assert(p * g * c <= d * q * c) by (nonlinear_arith)
        requires
            p * g <= d * q,
            0 <= c,
    ;
    assert(d * (q * c) <= d * (b * (g * g))) by (nonlinear_arith)
        requires
            q * c <= b * (g * g),
            0 <= d,
    ;
    assert(p * (g * c) == p * g * c && d * q * c == d * (q * c) && d * (b * (g * g)) == d * b * (g
        * g)) by (nonlinear_arith);
}

proof fn lemma_part_power_below(x: nat, exponent: nat, digits: nat)
    requires
        exponent < EXPONENT_ONE,
    ensures
        ({
            let m = leading_digits(exponent, digits);
            let all = pow(2, digits) as nat;
            let power = part_power(x, exponent, digits) as int;
            pow(power, all) * pow(FINE as int, m) <= pow(x as int, m) * pow(FINE as int, all)
        }),
    decreases digits,
{
    let m = leading_digits(exponent, digits);
    if digits == 0 {
        reveal(pow);
        assert(exponent * 1nat / EXPONENT_ONE as nat == 0);
        assert(pow(2, 0) == 1 && m == 0);
        lemma_pow1(FINE as int);
    } else {
        lemma_leading_digits(exponent, digits);
        lemma_root_bounds(x);
        let h = pow(2, (digits - 1) as nat) as nat;
        let r = root(x);
        if 2 * exponent >= EXPONENT_ONE {
            let e = (2 * exponent - EXPONENT_ONE) as nat;
            lemma_part_power_below(r, e, (digits - 1) as nat);
            let rest = part_power(r, e, (digits - 1) as nat);
            let n = leading_digits(e, (digits - 1) as nat);
            lemma_squared(rest as int, h, n, r as int, x as int);
            let power = part_power(x, exponent, digits);
            vstd::arithmetic::div_mod::lemma_fundamental_div_mod((r * rest) as int, FINE as int);
            assert(power * FINE <= r * rest) by (nonlinear_arith)
                requires
                    FINE * power <= r * rest,
            ;
            lemma_times_root(power as int, rest as int, h, n, r as int, x as int);
        } else {
            lemma_part_power_below(r, 2 * exponent, (digits - 1) as nat);
            let rest = part_power(r, 2 * exponent, (digits - 1) as nat);
            lemma_squared(rest as int, h, m, r as int, x as int);
        }
    }
}

/// Law: the power is rounded down.  For an exponent whose leading binary digits make up
/// `m`, out of `all` that they can, `power / FINE` to the power of `all` is at most
/// `x / FINE` to the power of `m`.
pub proof fn law_fraction_power_is_not_above(x: nat, exponent: nat)
    requires
        exponent < EXPONENT_ONE,
    ensures
        ({
            let m = leading_digits(exponent, 48);
            let all = pow(2, 48) as nat;
            let power = fraction_power(x, exponent) as int;
            pow(power, all) * pow(FINE as int, m) <= pow(x as int, m) * pow(FINE as int, all)
        }),
{
    assert(DIGITS as nat == 48);
    lemma_part_power_below(x, exponent, DIGITS as nat);
}

/// What a root that is one too large makes of a power.
proof fn lemma_next_root(s: int, q: int, h: nat, m: nat, r: int)
    requires
        0 <= s,
        0 <= q,
        0 < r,
        m <= h,
        s * (r + 1) <= q * r,
        pow(r, m) * pow(FINE as int, h) <= pow(s, h) * pow(FINE as int, m),
    ensures
        pow(r + 1, m) * pow(FINE as int, h) <= pow(q, h) * pow(FINE as int, m),
{
    let f = FINE as int;
    let w = r + 1;
    let k = (h - m) as nat;
    lemma_pow_positive(r, h);
    lemma_pow_positive(w, h);
    lemma_pow_positive(w, m);
    lemma_pow_positive(f, m);
    lemma_pow_positive(f, h);
    lemma_pow_grows(0, r, m);
    lemma_pow_grows(r, w, k);
    lemma_pow_adds(r, m, k);
    lemma_pow_adds(w, m, k);
    lemma_pow_distributes(s, w, h);
    lemma_pow_distributes(q, r, h);
    assert(0 <= s * w) by (nonlinear_arith)
        requires
            0 <= s,
            0 <= w,
    ;
    lemma_pow_grows(s * w, q * r, h);
    let (a, b) = (pow(s, h), pow(q, h));
    let (rh, wh, rm, wm, rk, wk) = (
        pow(r, h),
        pow(w, h),
        pow(r, m),
        pow(w, m),
        pow(r, k),
        pow(w, k),
    );
    let (fm, fh) = (pow(f, m), pow(f, h));
    assert(a * wh * fm <= b * rh * fm) by (nonlinear_arith)
        requires
            a * wh <= b * rh,
            0 <= fm,
    ;
    assert(rm * fh * wh <= a * fm * wh) by (nonlinear_arith)
        requires
            rm * fh <= a * fm,
            0 <= wh,
    ;
    assert(rm * fh * wm * rk <= rm * fh * wm * wk) by (nonlinear_arith)
        requires
            rk <= wk,
            0 <= rm,
            0 <= fh,
            0 <= wm,
    ;
    assert(wm * fh * (rm * rk) == rm * fh * wm * rk && rm * fh * (wm * wk) == rm * fh * wm * wk)
        by (nonlinear_arith);
    assert(a * fm * wh == a * wh * fm && b * rh * fm == b * fm * rh) by (nonlinear_arith);
    assert(wm * fh * rh <= b * fm * rh);
    assert(wm * fh <= b * fm) by (nonlinear_arith)
        requires
            wm * fh * rh <= b * fm * rh,
            rh > 0,
    ;
}

/// The square of what a root's power falls short of.
proof fn lemma_squared_above(power: int, h: nat, m: nat, w: int, x: int)
    requires
        0 <= power,
        0 <= w,
        0 <= x,
        x * FINE <= w * w,
        pow(w, m) * pow(FINE as int, h) <= pow(power, h) * pow(FINE as int, m),
    ensures
        pow(x, m) * pow(FINE as int, 2 * h) <= pow(power, 2 * h) * pow(FINE as int, m),
{
    let f = FINE as int;
    let (p, c, g, a, b) = (pow(power, h), pow(f, m), pow(f, h), pow(w, m), pow(x, m));
    lemma_pow_positive(f, m);
    lemma_pow_positive(f, h);
    lemma_pow_grows(0, w, m);
    lemma_pow_grows(0, power, h);
    lemma_pow_adds(power, h, h);
    lemma_pow_adds(f, h, h);
    lemma_pow_distributes(w, w, m);
    lemma_pow_distributes(x, f, m);
    assert(0 <= x * f) by (nonlinear_arith)
        requires
            0 <= x,
            0 <= f,
    ;
    lemma_pow_grows(x * f, w * w, m);
    assert(b * c <= a * a);
    assert(0 <= a * g) by (nonlinear_arith)
        requires
            0 <= a,
            0 <= g,
    ;
    assert((a * g) * (a * g) <= (p * c) * (p * c)) by (nonlinear_arith)
        requires
            0 <= a * g <= p * c,
    ;
    assert((b * c) * (g * g) <= (a * a) * (g * g)) by (nonlinear_arith)
        requires
            b * c <= a * a,
    ;
    assert(b * (g * g) * c <= (p * p) * c * c) by (nonlinear_arith)
        requires
            (b * c) * (g * g) <= (a * a) * (g * g),
            (a * g) * (a * g) <= (p * c) * (p * c),
    ;
    assert(b * (g * g) <= (p * p) * c) by (nonlinear_arith)
        requires
            b * (g * g) * c <= (p * p) * c * c,
            c > 0,
    ;
}

/// What a set digit multiplies the power with, from above.
proof fn lemma_times_root_above(power: int, rest: int, h: nat, m: nat, w: int, x: int)
    requires
        0 <= power,
        0 <= rest,
        0 <= w,
        0 <= x,
        x * FINE <= w * w,
        w * rest <= power * FINE,
        pow(x, m) * pow(FINE as int, 2 * h) <= pow(rest, 2 * h) * pow(FINE as int, m),
    ensures
        pow(x, h + m) * pow(FINE as int, 2 * h) <= pow(power, 2 * h) * pow(FINE as int, h + m),
{
    let f = FINE as int;
    let (p, q) = (pow(power, 2 * h), pow(rest, 2 * h));
    let (g, c, d, b) = (pow(f, h), pow(f, m), pow(x, h), pow(x, m));
    lemma_pow_positive(f, h);
    lemma_pow_grows(0, f, m);
    lemma_pow_grows(0, x, h);
    lemma_pow_grows(0, rest, 2 * h);
    lemma_pow_adds(f, h, h);
    lemma_pow_adds(f, h, m);
    lemma_pow_adds(x, h, m);
    lemma_pow_adds(w, h, h);
    lemma_pow_distributes(w, w, h);
    lemma_pow_distributes(x, f, h);
    lemma_pow_distributes(power, f, 2 * h);
    lemma_pow_distributes(w, rest, 2 * h);
    assert(0 <= x * f && 0 <= w * rest) by (nonlinear_arith)
        requires
            0 <= x,
            0 <= f,
            0 <= w,
            0 <= rest,
    ;
    lemma_pow_grows(x * f, w * w, h);
    lemma_pow_grows(w * rest, power * f, 2 * h);
    assert(pow(w, 2 * h) * q <= p * (g * g));
    assert((d * g) * q <= pow(w, 2 * h) * q) by (nonlinear_arith)
        requires
            d * g <= pow(w, 2 * h),
            0 <= q,
    ;
    assert(d * q <= p * g) by (nonlinear_arith)
        requires
            (d * g) * q <= p * (g * g),
            g > 0,
    ;
    assert(d * q * c <= p * g * c) by (nonlinear_arith)
        requires
            d * q <= p * g,
            0 <= c,
    ;
    assert(d * (b * (g * g)) <= d * (q * c)) by (nonlinear_arith)
        requires
            b * (g * g) <= q * c,
            0 <= d,
    ;
    assert(p * (g * c) == p * g * c && d * q * c == d * (q * c) && d * (b * (g * g)) == d * b * (g
        * g)) by (nonlinear_arith);
}

/// By how many parts a power may fall short.
pub open spec fn shortfall(x: nat, digits: nat) -> nat {
    16 * digits * at_least_one(x) / FINE as nat
}

/// Roots of numbers from a quarter on lie there too.
proof fn lemma_root_range(x: nat)
    requires
        FINE <= 4 * x,
    ensures
        FINE <= 2 * root(x),
        x * FINE < (root(x) + 1) * (root(x) + 1),
{
    lemma_whole_root(x * FINE as nat);
    let (r, f) = (root(x) as int, FINE as int);
    let half = f / 2;
    assert(half <= r) by (nonlinear_arith)
        requires
            x * f < (r + 1) * (r + 1),
            f <= 4 * x,
            f == 2 * half,
            0 <= r,
            0 < half,
    ;
}

/// What falls short at one digit more.
proof fn lemma_shortfall(x: nat, digits: nat, rest: nat, power: nat)
    requires
        FINE <= 4 * x,
        0 < digits <= DIGITS,
        rest <= at_least_one(root(x)),
    ensures
        ({
            let r = root(x);
            let (less, more) = (shortfall(r, (digits - 1) as nat), shortfall(x, digits));
            &&& (rest + less) * (r + 1) <= (rest + less + 9) * r
            &&& less + 9 <= more
            &&& r * rest < (power + 1) * FINE ==> (r + 1) * (rest + less + 9) <= (power + more)
                * FINE
        }),
{
    lemma_root_range(x);
    lemma_root_bounds(x);
    let (r, f, d) = (root(x) as int, FINE as int, digits as int);
    let (big, small) = (at_least_one(x) as int, at_least_one(root(x)) as int);
    let (less, more) = (
        shortfall(root(x), (digits - 1) as nat) as int,
        shortfall(x, digits) as int,
    );
    vstd::arithmetic::div_mod::lemma_fundamental_div_mod(16 * (d - 1) * small, f);
    vstd::arithmetic::div_mod::lemma_fundamental_div_mod(16 * d * big, f);
    assert(f * less <= 16 * (d - 1) * small < f * less + f);
    assert(f * more <= 16 * d * big < f * more + f);
    assert(small <= big && small <= 2 * r);
    assert(less <= r) by (nonlinear_arith)
        requires
            f * less <= 16 * (d - 1) * small,
            small <= 2 * r,
            0 <= d - 1 <= 47,
            f >= 10_000,
            0 <= small,
            0 <= less,
    ;
    assert(rest + less <= 9 * r);
    assert((rest + less) * (r + 1) <= (rest + less + 9) * r) by (nonlinear_arith)
        requires
            rest + less <= 9 * r,
    ;
    assert(16 * (d - 1) * small <= 16 * (d - 1) * big) by (nonlinear_arith)
        requires
            small <= big,
            0 <= d - 1,
    ;
    assert(16 * d * big == 16 * (d - 1) * big + 16 * big) by (nonlinear_arith);
    assert(less + 9 <= more) by (nonlinear_arith)
        requires
            f * less <= 16 * (d - 1) * big,
            16 * (d - 1) * big + 16 * big < f * more + f,
            f <= big,
            0 < f,
    ;
    assert(r * less <= 16 * (d - 1) * big) by {
        if r >= f {
            assert(small == r);
            assert(r * r <= x * f);
            assert(f * (r * less) <= f * (16 * (d - 1) * x)) by (nonlinear_arith)
                requires
                    f * less <= 16 * (d - 1) * r,
                    r * r <= x * f,
                    0 <= d - 1,
                    0 <= r,
            ;
            assert(r * less <= 16 * (d - 1) * x) by (nonlinear_arith)
                requires
                    f * (r * less) <= f * (16 * (d - 1) * x),
                    0 < f,
            ;
            assert(16 * (d - 1) * x <= 16 * (d - 1) * big) by (nonlinear_arith)
                requires
                    x <= big,
                    0 <= d - 1,
            ;
        } else {
            assert(r * less <= f * less) by (nonlinear_arith)
                requires
                    r <= f,
                    0 <= less,
            ;
        }
    }
    if r * rest < (power + 1) * FINE {
        let p = power as int;
        let q = rest as int;
        assert((r + 1) * (q + less + 9) == r * q + q + r * less + less + 9 * r + 9)
            by (nonlinear_arith);
        assert((p + more) * f == p * f + f * more && (p + 1) * f == p * f + f) by (nonlinear_arith);
    }
}

/// Leading digits make up less than they can.
proof fn lemma_digits_bounded(exponent: nat, digits: nat)
    requires
        exponent < EXPONENT_ONE,
    ensures
        leading_digits(exponent, digits) <= pow(2, digits),
{
    lemma_pow_positive(2, digits);
    let (e, one, all) = (exponent as int, EXPONENT_ONE as int, pow(2, digits));
    assert(e * all <= one * all) by (nonlinear_arith)
        requires
            e <= one,
            0 <= all,
    ;
    assert(e * all / one <= all) by (nonlinear_arith)
        requires
            e * all <= one * all,
            0 < one,
    ;
}

proof fn lemma_part_power_above(x: nat, exponent: nat, digits: nat)
    requires
        exponent < EXPONENT_ONE,
        FINE <= 4 * x,
        digits <= DIGITS,
    ensures
        ({
            let m = leading_digits(exponent, digits);
            let all = pow(2, digits) as nat;
            let power = part_power(x, exponent, digits) + shortfall(x, digits);
            pow(x as int, m) * pow(FINE as int, all) <= pow(power as int, all) * pow(
                FINE as int,
                m,
            )
        }),
    decreases digits,
{
    let m = leading_digits(exponent, digits);
    if digits == 0 {
        reveal(pow);
        assert(exponent * 1nat / EXPONENT_ONE as nat == 0);
        assert(pow(2, 0) == 1 && m == 0);
        lemma_pow1(FINE as int);
        assert(16 * 0 * at_least_one(x) / FINE as nat == 0) by (nonlinear_arith);
        assert(shortfall(x, digits) == 0);
    } else {
        lemma_leading_digits(exponent, digits);
        lemma_root_range(x);
        let h = pow(2, (digits - 1) as nat) as nat;
        let r = root(x);
        let w = r as int + 1;
        let e = if 2 * exponent >= EXPONENT_ONE {
            (2 * exponent - EXPONENT_ONE) as nat
        } else {
            2 * exponent
        };
        let rest = part_power(r, e, (digits - 1) as nat);
        let n = leading_digits(e, (digits - 1) as nat);
        let less = shortfall(r, (digits - 1) as nat);
        let power = part_power(x, exponent, digits);
        lemma_part_power_above(r, e, (digits - 1) as nat);
        lemma_part_power_bounds(r, e, (digits - 1) as nat);
        lemma_digits_bounded(e, (digits - 1) as nat);
        lemma_shortfall(x, digits, rest, power);
        let near = (rest + less + 9) as int;
        lemma_next_root((rest + less) as int, near, h, n, r as int);
        lemma_squared_above(near, h, n, w, x as int);
        let more = power as int + shortfall(x, digits);
        if 2 * exponent >= EXPONENT_ONE {
            vstd::arithmetic::div_mod::lemma_fundamental_div_mod((r * rest) as int, FINE as int);
            assert(r * rest < (power + 1) * FINE) by (nonlinear_arith)
                requires
                    r * rest < FINE * power + FINE,
            ;
            lemma_times_root_above(more, near, h, n, w, x as int);
        } else {
            lemma_pow_grows(near, more, 2 * h);
            lemma_pow_positive(FINE as int, n);
            let (a, b, c) = (pow(near, 2 * h), pow(more, 2 * h), pow(FINE as int, n));
            assert(a * c <= b * c) by (nonlinear_arith)
                requires
                    a <= b,
                    0 <= c,
            ;
        }
    }
}

/// By how many parts a power of a number up to one may fall short.
pub open spec fn small_shortfall(x: nat, digits: nat) -> nat {
    8 * (FINE as nat / root(x)) + 32 * digits
}

/// Roots of numbers between nothing and one, and what one is to them.
proof fn lemma_small_root(x: nat)
    requires
        1 <= x <= FINE,
    ensures
        3_162_276 <= root(x) <= FINE,
        x <= root(x),
        x * FINE < (root(x) + 1) * (root(x) + 1),
        root(root(x)) >= 1,
        ({
            let (h, k) = (FINE as nat / root(x), FINE as nat / root(root(x)));
            &&& h * root(x) <= FINE < (h + 1) * root(x)
            &&& 8 * k <= 4 * h + 20
            &&& k <= 4_000
        }),
{
    lemma_whole_root(x * FINE as nat);
    lemma_root_bounds(x);
    let (r, f) = (root(x) as int, FINE as int);
    assert(f == 10_000_000_000_000);
    assert(3_162_276 <= r) by (nonlinear_arith)
        requires
            x * f < (r + 1) * (r + 1),
            1 <= x,
            f == 10_000_000_000_000,
            0 <= r,
    ;
    assert(x * x <= x * f) by (nonlinear_arith)
        requires
            x <= f,
    ;
    assert(x <= r) by (nonlinear_arith)
        requires
            x * x <= x * f,
            x * f < (r + 1) * (r + 1),
            0 <= r,
    ;
    lemma_whole_root((r * f) as nat);
    let s = root(root(x)) as int;
    assert(r * f < (s + 1) * (s + 1) && s * s <= r * f);
    assert(1 <= s) by (nonlinear_arith)
        requires
            r * f < (s + 1) * (s + 1),
            3_162_276 <= r,
            f == 10_000_000_000_000,
            0 <= s,
    ;
    let (h, k) = (f / r, f / s);
    vstd::arithmetic::div_mod::lemma_fundamental_div_mod(f, r);
    vstd::arithmetic::div_mod::lemma_fundamental_div_mod(f, s);
    assert(h * r <= f < (h + 1) * r) by (nonlinear_arith)
        requires
            f == r * h + f % r,
            0 <= f % r < r,
    ;
    assert(k * s <= f) by (nonlinear_arith)
        requires
            f == s * k + f % s,
            0 <= f % s,
    ;
    assert(0 <= k) by (nonlinear_arith)
        requires
            k == f / s,
            0 < s,
            0 < f,
    ;
    assert(r * f < 4 * (s * s)) by (nonlinear_arith)
        requires
            r * f < (s + 1) * (s + 1),
            1 <= s,
    ;
    assert((k * k) * (s * s) <= f * f) by (nonlinear_arith)
        requires
            0 <= k * s <= f,
    ;
    assert(0 <= k * s) by (nonlinear_arith)
        requires
            0 <= k,
            0 <= s,
    ;
    assert((k * k) * (r * f) <= 4 * (f * f)) by (nonlinear_arith)
        requires
            r * f < 4 * (s * s),
            (k * k) * (s * s) <= f * f,
            0 <= k * k,
    ;
    assert(0 <= k * k) by (nonlinear_arith);
    assert((k * k) * r <= 4 * f) by (nonlinear_arith)
        requires
            (k * k) * (r * f) <= 4 * (f * f),
            0 < f,
    ;
    assert(k * k <= 4 * (h + 1)) by (nonlinear_arith)
        requires
            (k * k) * r <= 4 * f,
            f < (h + 1) * r,
            0 < r,
    ;
    assert(8 * k <= k * k + 16) by (nonlinear_arith);
    assert(k <= 4_000) by (nonlinear_arith)
        requires
            (k * k) * r <= 4 * f,
            3_162_276 <= r,
            f == 10_000_000_000_000,
            0 <= k,
    ;
}

/// What falls short at one digit more, for numbers up to one.
proof fn lemma_small_shortfall(x: nat, digits: nat, rest: nat, power: nat)
    requires
        1 <= x <= FINE,
        0 < digits <= DIGITS,
        rest <= FINE,
    ensures
        ({
            let r = root(x);
            let t = FINE as nat / root(x) + 2;
            let (less, more) = (
                small_shortfall(r, (digits - 1) as nat),
                small_shortfall(x, digits),
            );
            &&& (rest + less) * (r + 1) <= (rest + less + t) * r
            &&& less + t <= more
            &&& r * rest < (power + 1) * FINE ==> (r + 1) * (rest + less + t) <= (power + more)
                * FINE
        }),
{
    lemma_small_root(x);
    let (r, f) = (root(x) as int, FINE as int);
    let (h, k) = (f / r, f / root(root(x)) as int);
    let t = h + 2;
    let (less, more) = (
        small_shortfall(root(x), (digits - 1) as nat) as int,
        small_shortfall(x, digits) as int,
    );
    assert(less == 8 * k + 32 * (digits - 1) && more == 8 * h + 32 * digits);
    assert(less <= r);
    assert(t * r == h * r + 2 * r && (h + 1) * r == h * r + r) by (nonlinear_arith)
        requires
            t == h + 2,
    ;
    assert(rest + less <= t * r);
    let q = rest as int;
    assert((q + less) * (r + 1) <= (q + less + t) * r) by (nonlinear_arith)
        requires
            q + less <= t * r,
    ;
    assert(less + t + 3 <= more);
    assert(0 <= h <= f) by (nonlinear_arith)
        requires
            h * r <= f,
            1 <= r,
            0 <= f,
            h == f / r,
    ;
    if r * rest < (power + 1) * FINE {
        let p = power as int;
        let l = less + t;
        assert(0 <= l <= f) by {
            assert(h <= 3_200_000) by (nonlinear_arith)
                requires
                    h * r <= f,
                    3_162_276 <= r,
                    f == 10_000_000_000_000,
                    0 <= h,
            ;
        }
        assert((r + 1) * (q + l) == r * q + q + r * l + l) by (nonlinear_arith);
        assert(r * l <= f * l) by (nonlinear_arith)
            requires
                r <= f,
                0 <= l,
        ;
        assert((p + more) * f == p * f + f * more && (p + 1) * f == p * f + f) by (nonlinear_arith);
        assert(f * more >= f * l + 3 * f) by (nonlinear_arith)
            requires
                more >= l + 3,
                0 <= f,
        ;
        assert((r + 1) * (q + l) <= (p + more) * f);
        assert(q + less + t == q + l);
    }
}

proof fn lemma_small_power_above(x: nat, exponent: nat, digits: nat)
    requires
        exponent < EXPONENT_ONE,
        1 <= x <= FINE,
        digits <= DIGITS,
    ensures
        ({
            let m = leading_digits(exponent, digits);
            let all = pow(2, digits) as nat;
            let power = part_power(x, exponent, digits) + small_shortfall(x, digits);
            pow(x as int, m) * pow(FINE as int, all) <= pow(power as int, all) * pow(
                FINE as int,
                m,
            )
        }),
    decreases digits,
{
    let m = leading_digits(exponent, digits);
    lemma_small_root(x);
    if digits == 0 {
        reveal(pow);
        assert(exponent * 1nat / EXPONENT_ONE as nat == 0);
        assert(pow(2, 0) == 1 && m == 0);
        let power = (part_power(x, exponent, 0) + small_shortfall(x, 0)) as int;
        lemma_pow1(FINE as int);
        lemma_pow1(power);
        assert(power >= FINE);
        assert(1 * pow(FINE as int, 1) <= pow(power, 1) * 1);
    } else {
        lemma_leading_digits(exponent, digits);
        let h = pow(2, (digits - 1) as nat) as nat;
        let r = root(x);
        let w = r as int + 1;
        let e = if 2 * exponent >= EXPONENT_ONE {
            (2 * exponent - EXPONENT_ONE) as nat
        } else {
            2 * exponent
        };
        let rest = part_power(r, e, (digits - 1) as nat);
        let n = leading_digits(e, (digits - 1) as nat);
        let less = small_shortfall(r, (digits - 1) as nat);
        let power = part_power(x, exponent, digits);
        let t = FINE as nat / root(x) + 2;
        lemma_small_power_above(r, e, (digits - 1) as nat);
        lemma_part_power_bounds(r, e, (digits - 1) as nat);
        lemma_digits_bounded(e, (digits - 1) as nat);
        lemma_small_shortfall(x, digits, rest, power);
        let near = (rest + less + t) as int;
        lemma_next_root((rest + less) as int, near, h, n, r as int);
        lemma_squared_above(near, h, n, w, x as int);
        let more = power as int + small_shortfall(x, digits);
        if 2 * exponent >= EXPONENT_ONE {
            vstd::arithmetic::div_mod::lemma_fundamental_div_mod((r * rest) as int, FINE as int);
            assert(r * rest < (power + 1) * FINE) by (nonlinear_arith)
                requires
                    r * rest < FINE * power + FINE,
            ;
            lemma_times_root_above(more, near, h, n, w, x as int);
        } else {
            lemma_pow_grows(near, more, 2 * h);
            lemma_pow_positive(FINE as int, n);
            let (a, b, c) = (pow(near, 2 * h), pow(more, 2 * h), pow(FINE as int, n));
            assert(a * c <= b * c) by (nonlinear_arith)
                requires
                    a <= b,
                    0 <= c,
            ;
        }
    }
}

/// Law: the power of a number up to one falls short by at most 1536 parts, and eight times
/// what one is to the number's root.  With so many parts more, `power / FINE` to the power
/// of `all` would be at least `x / FINE` to the power of `m`.
pub proof fn law_small_powers_fall_little_short(x: nat, exponent: nat)
    requires
        exponent < EXPONENT_ONE,
        1 <= x <= FINE,
    ensures
        ({
            let m = leading_digits(exponent, 48);
            let all = pow(2, 48) as nat;
            let lost = 8 * (FINE as nat / whole_root(x * FINE as nat)) + 1_536;
            let power = fraction_power(x, exponent) as int + lost;
            pow(x as int, m) * pow(FINE as int, all) <= pow(power, all) * pow(FINE as int, m)
        }),
{
    assert(DIGITS as nat == 48);
    lemma_small_power_above(x, exponent, DIGITS as nat);
    assert(DIGITS == 48);
}

/// Law: a whole root is the largest whole number whose square is no larger.
pub proof fn law_whole_roots(n: nat)
    ensures
        whole_root(n) * whole_root(n) <= n < (whole_root(n) + 1) * (whole_root(n) + 1),
{
    lemma_whole_root(n);
}

/// Law: the power of a number from a quarter on falls short by less than 768 parts, or as
/// many for each one of the number.  With so many parts more, `power / FINE` to the power
/// of `all` would be at least `x / FINE` to the power of `m`.
pub proof fn law_fraction_power_falls_little_short(x: nat, exponent: nat)
    requires
        exponent < EXPONENT_ONE,
        FINE <= 4 * x,
    ensures
        ({
            let m = leading_digits(exponent, 48);
            let all = pow(2, 48) as nat;
            let lost = 768 * (if x < FINE {
                FINE as int
            } else {
                x as int
            }) / FINE as int;
            let power = fraction_power(x, exponent) as int + lost;
            pow(x as int, m) * pow(FINE as int, all) <= pow(power, all) * pow(FINE as int, m)
        }),
{
    assert(DIGITS as nat == 48);
    lemma_part_power_above(x, exponent, DIGITS as nat);
    assert(DIGITS == 48);
    assert(16 * 48 * at_least_one(x) == 768 * at_least_one(x));
}

/// Law: the power of a number between a quarter and ten falls short by less than ten
/// thousand parts.  With so many parts more, `power / FINE` to the power of `all` would
/// be at least `x / FINE` to the power of `m`.
pub proof fn law_fraction_power_is_near(x: nat, exponent: nat)
    requires
        exponent < EXPONENT_ONE,
        FINE <= 4 * x,
        x <= 10 * FINE,
    ensures
        ({
            let m = leading_digits(exponent, 48);
            let all = pow(2, 48) as nat;
            let power = fraction_power(x, exponent) as int + 10_000;
            pow(x as int, m) * pow(FINE as int, all) <= pow(power, all) * pow(FINE as int, m)
        }),
{
    assert(DIGITS as nat == 48);
    lemma_part_power_above(x, exponent, DIGITS as nat);
    let (m, all) = (leading_digits(exponent, DIGITS as nat), pow(2, DIGITS as nat) as nat);
    let power = fraction_power(x, exponent) as int;
    let lost = shortfall(x, DIGITS as nat);
    assert(lost <= 10_000) by {
        let big = at_least_one(x) as int;
        assert(big <= 10 * FINE);
        assert(DIGITS == 48);
        assert(16 * 48 * big / FINE as int <= 7_680) by (nonlinear_arith)
            requires
                big <= 10 * FINE,
                0 < FINE,
        ;
    }
    lemma_pow_grows(power + lost, power + 10_000, all);
    lemma_pow_positive(FINE as int, m);
    let (a, b, c) = (pow(power + lost, all), pow(power + 10_000, all), pow(FINE as int, m));
    assert(a * c <= b * c) by (nonlinear_arith)
        requires
            a <= b,
            0 <= c,
    ;
}

} // verus!
