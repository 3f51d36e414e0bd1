//! Fixed-point numbers.
//!
//! A number is kept in billionths.  Results are cut down to the next billionth
//! and stop at the ends of the range; texts are rounded to the nearest digit.  Runs on
//! these numbers come out the same on every machine.

use crate::number::{
    as_real, counts_over, fits, hundredths, is_whole, keeps_order, lemma_product, linear_within,
    repeats, rounded_down, rounds_down, whole, Number,
};
use crate::power::{
    find_fraction_power, fraction_power, lemma_fraction_power, lemma_zero_power, FINE,
};
use crate::text::{
    decimal, decimal_text, digit, digit_text, digits_value, lemma_decimal_reads_back,
};
use vstd::prelude::*;

verus! {

/// The billionths in one.
pub const ONE: i64 = 1_000_000_000;

#[derive(Debug, Clone, Copy, PartialEq, Eq, Structural)]
pub struct Fixed {
    pub billionths: i64,
}

/// The number with the given billionths, or the nearer end of the range.
pub open spec fn saturated(billionths: int) -> Fixed {
    if billionths > i64::MAX {
        Fixed { billionths: i64::MAX }
    } else if billionths < i64::MIN {
        Fixed { billionths: i64::MIN }
    } else {
        Fixed { billionths: billionths as i64 }
    }
}

fn saturate(billionths: i128) -> (r: Fixed)
    ensures
        r == saturated(billionths as int),
{
    if billionths > i64::MAX as i128 {
        Fixed { billionths: i64::MAX }
    } else if billionths < i64::MIN as i128 {
        Fixed { billionths: i64::MIN }
    } else {
        Fixed { billionths: billionths as i64 }
    }
}

/// Division that cuts down towards the smaller number.
fn floor_div(a: i128, b: i128) -> (r: i128)
    requires
        0 < b <= 0x1_0000_0000_0000_0000,
        -0x4000_0000_0000_0000_0000_0000_0000_0000 <= a
            <= 0x4000_0000_0000_0000_0000_0000_0000_0000,
    ensures
        r == a as int / b as int,
{
    if a >= 0 {
        a / b
    } else {
        let up = (-a + (b - 1)) / b;
        proof {
            let (x, d, u) = (a as int, b as int, up as int);
            vstd::arithmetic::div_mod::lemma_fundamental_div_mod(d - 1 - x, d);
            let m = (d - 1 - x) % d;
            assert(x == d * (-u) + (d - 1 - m)) by (nonlinear_arith)
                requires
                    d - 1 - x == d * u + m,
            ;
            vstd::arithmetic::div_mod::lemma_fundamental_div_mod_converse(
                x,
                d,
                -u,
                d - 1 - m,
            );
        }
        -up
    }
}

/// `x` times the billionths in one.
fn scale(x: i128) -> (r: i128)
    requires
        -0x1_0000_0000_0000_0000 <= x <= 0x1_0000_0000_0000_0000,
    ensures
        r == x * ONE,
        -0x4000_0000_0000_0000_0000_0000_0000_0000 <= r
            <= 0x4000_0000_0000_0000_0000_0000_0000_0000,
{
    x * 1_000_000_000
}

/// The quotient; over zero, the end of the range on the side of `a`.
pub open spec fn divided(a: Fixed, b: Fixed) -> Fixed {
    let (x, y) = (a.billionths as int, b.billionths as int);
    if y > 0 {
        saturated(x * ONE / y)
    } else if y < 0 {
        saturated(-x * ONE / -y)
    } else if x > 0 {
        Fixed { billionths: i64::MAX }
    } else if x < 0 {
        Fixed { billionths: i64::MIN }
    } else {
        Fixed { billionths: 0 }
    }
}

fn divide(a: Fixed, b: Fixed) -> (r: Fixed)
    ensures
        r == divided(a, b),
{
    let x = a.billionths as i128;
    let y = b.billionths as i128;
    if y > 0 {
        saturate(floor_div(scale(x), y))
    } else if y < 0 {
        saturate(floor_div(scale(-x), -y))
    } else if x > 0 {
        Fixed { billionths: i64::MAX }
    } else if x < 0 {
        Fixed { billionths: i64::MIN }
    } else {
        Fixed { billionths: 0 }
    }
}

/// The product.
pub open spec fn multiplied(a: Fixed, b: Fixed) -> Fixed {
    saturated(a.billionths * b.billionths / ONE as int)
}

fn multiply(a: Fixed, b: Fixed) -> (r: Fixed)
    ensures
        r == multiplied(a, b),
{
    proof {
        let (x, y) = (a.billionths as int, b.billionths as int);
        assert(-0x4000_0000_0000_0000_0000_0000_0000_0000 <= x * y
            <= 0x4000_0000_0000_0000_0000_0000_0000_0000) by (nonlinear_arith)
            requires
                -0x8000_0000_0000_0000 <= x <= 0x8000_0000_0000_0000,
                -0x8000_0000_0000_0000 <= y <= 0x8000_0000_0000_0000,
        ;
    }
    saturate(floor_div(a.billionths as i128 * b.billionths as i128, ONE as i128))
}

/// `base` multiplied with itself `n` times over.
pub open spec fn repeated(base: Fixed, n: nat) -> Fixed
    decreases n,
{
    if n == 0 {
        Fixed { billionths: ONE }
    } else {
        multiplied(repeated(base, (n - 1) as nat), base)
    }
}

fn repeat(base: Fixed, n: u64) -> (r: Fixed)
    ensures
        r == repeated(base, n as nat),
{
    let mut power = Fixed { billionths: ONE };
    let mut i: u64 = 0;
    while i < n
        invariant
            i <= n,
            power == repeated(base, i as nat),
        decreases n - i,
    {
        power = multiply(power, base);
        i = i + 1;
    }
    power
}

/// The parts of `power` in a billionth.
pub const PARTS: i64 = 10_000;

/// The power for an exponent, in billionths, between zero and one; zero for a base
/// that is not above zero.
pub open spec fn rooted(base: Fixed, exponent: nat) -> Fixed {
    let x = if base.billionths < 0 {
        0
    } else {
        base.billionths as nat
    };
    saturated((fraction_power(x * PARTS as nat, exponent) / PARTS as nat) as int)
}

fn take_root(base: Fixed, exponent: u64) -> (r: Fixed)
    requires
        exponent < ONE,
    ensures
        r == rooted(base, exponent as nat),
{
    let x: u128 = if base.billionths < 0 {
        0
    } else {
        base.billionths as u128
    };
    let power = find_fraction_power(x * PARTS as u128, exponent);
    saturate((power / PARTS as u128) as i128)
}

/// The power for an exponent, in billionths, that is not below zero: the whole part
/// of the exponent multiplies the base with itself, the rest takes roots of it.
pub open spec fn raised(base: Fixed, exponent: nat) -> Fixed {
    let whole_part = repeated(base, exponent / ONE as nat);
    if exponent % ONE as nat == 0 {
        whole_part
    } else {
        multiplied(whole_part, rooted(base, exponent % ONE as nat))
    }
}

fn raise(base: Fixed, exponent: u64) -> (r: Fixed)
    ensures
        r == raised(base, exponent as nat),
{
    let whole_part = repeat(base, exponent / ONE as u64);
    if exponent % ONE as u64 == 0 {
        whole_part
    } else {
        multiply(whole_part, take_root(base, exponent % ONE as u64))
    }
}

/// One with `n` zeros behind it.
pub open spec fn ten_power(n: nat) -> nat
    decreases n,
{
    if n == 0 {
        1
    } else {
        10 * ten_power((n - 1) as nat)
    }
}

/// The billionths that the last of `places` digits stands for; one billionth beyond
/// the ninth digit.
pub open spec fn last_place(places: nat) -> nat {
    if places < 9 {
        ten_power((9 - places) as nat)
    } else {
        1
    }
}

fn find_last_place(places: usize) -> (r: u64)
    ensures
        r == last_place(places as nat),
        0 < r <= ONE,
{
    let mut unit: u64 = 1;
    let mut i: usize = 9;
    assert(ONE == 1_000_000_000);
    while i > places
        invariant
            places < 9 ==> places <= i,
            places >= 9 ==> i == 9,
            i <= 9,
            unit == ten_power((9 - i) as nat),
            i == 9 ==> unit == 1,
            i == 8 ==> unit == 10,
            i == 7 ==> unit == 100,
            i == 6 ==> unit == 1_000,
            i == 5 ==> unit == 10_000,
            i == 4 ==> unit == 100_000,
            i == 3 ==> unit == 1_000_000,
            i == 2 ==> unit == 10_000_000,
            i == 1 ==> unit == 100_000_000,
            i == 0 ==> unit == 1_000_000_000,
        decreases i,
    {
        unit = unit * 10;
        i = i - 1;
    }
    unit
}

/// The multiple of `unit` nearest to `size`; halfway between two, the even one.
pub open spec fn nearest(size: nat, unit: nat) -> nat {
    let below = size / unit;
    let rest = size % unit;
    if 2 * rest > unit || (2 * rest == unit && below % 2 == 1) {
        (below + 1) * unit
    } else {
        below * unit
    }
}

fn find_nearest(size: u64, unit: u64) -> (r: u64)
    requires
        size <= 0x8000_0000_0000_0000,
        0 < unit <= ONE,
    ensures
        r == nearest(size as nat, unit as nat),
{
    let below: u64 = size / unit;
    let rest: u64 = size % unit;
    proof {
        vstd::arithmetic::div_mod::lemma_fundamental_div_mod(size as int, unit as int);
        assert(below * unit + rest == size) by (nonlinear_arith)
            requires
                size == unit * below + rest,
        ;
        assert((below + 1) * unit == below * unit + unit) by (nonlinear_arith);
    }
    if 2 * rest > unit || (2 * rest == unit && below % 2 == 1) {
        (below + 1) * unit
    } else {
        below * unit
    }
}

/// The first `places` decimal digits of a number of billionths below one.
pub open spec fn fraction_digits(billionths: nat, places: nat) -> Seq<char>
    decreases places,
{
    if places == 0 {
        Seq::empty()
    } else {
        digit(billionths * 10 / ONE as nat) + fraction_digits(
            billionths * 10 % ONE as nat,
            (places - 1) as nat,
        )
    }
}

/// The decimal text, rounded to `places` digits behind the point.
pub open spec fn fixed_text(x: Fixed, places: nat) -> Seq<char> {
    let size = if x.billionths < 0 {
        -x.billionths
    } else {
        x.billionths as int
    };
    let rounded = nearest(size as nat, last_place(places));
    let sign = if x.billionths < 0 {
        "-"@
    } else {
        ""@
    };
    let point = if places == 0 {
        ""@
    } else {
        "."@
    };
    sign + decimal(rounded / ONE as nat) + point + fraction_digits(rounded % ONE as nat, places)
}

fn write_fixed(x: Fixed, places: usize) -> (r: String)
    ensures
        r@ == fixed_text(x, places as nat),
{
    let negative = x.billionths < 0;
    let size: u64 = if negative {
        (-(x.billionths as i128)) as u64
    } else {
        x.billionths as u64
    };
    let sign = if negative {
        "-".to_owned()
    } else {
        "".to_owned()
    };
    let rounded: u64 = find_nearest(size, find_last_place(places));
    let mut text = sign.concat(decimal_text(rounded / ONE as u64).as_str());
    text.append(
        if places == 0 {
            ""
        } else {
            "."
        },
    );
    let mut rest: u64 = rounded % ONE as u64;
    let mut left: usize = places;
    let ghost head = text@;
    let ghost whole = fraction_digits(rest as nat, places as nat);
    proof {
        assert(head + whole =~= head + whole);
    }
    while left > 0
        invariant
            rest < ONE,
            text@ + fraction_digits(rest as nat, left as nat) == head + whole,
        decreases left,
    {
        let next = rest * 10 / ONE as u64;
        let ghost seen = text@;
        text.append(digit_text(next));
        rest = rest * 10 % ONE as u64;
        left = left - 1;
        assert(seen + (digit(next as nat) + fraction_digits(rest as nat, left as nat)) =~= text@
            + fraction_digits(rest as nat, left as nat));
    }
    assert(text@ + fraction_digits(rest as nat, 0) =~= text@);
    assert(head + whole =~= fixed_text(x, places as nat));
    text
}

impl Number for Fixed {
    open spec fn fraction(num: i64, den: i64) -> Fixed {
        saturated(num * ONE / den as int)
    }

    open spec fn count(n: usize) -> Fixed {
        saturated(n * ONE)
    }

    open spec fn sum(self, other: Fixed) -> Fixed {
        saturated(self.billionths + other.billionths)
    }

    open spec fn difference(self, other: Fixed) -> Fixed {
        saturated(self.billionths - other.billionths)
    }

    open spec fn product(self, other: Fixed) -> Fixed {
        multiplied(self, other)
    }

    open spec fn quotient(self, other: Fixed) -> Fixed {
        divided(self, other)
    }

    /// What is left of `self` over the whole multiples of `other`, on the side of
    /// `self`; zero over zero.
    open spec fn remainder(self, other: Fixed) -> Fixed {
        let (x, y) = (self.billionths as int, other.billionths as int);
        let size = if y < 0 {
            -y
        } else {
            y
        };
        if y == 0 {
            saturated(0)
        } else if x < 0 {
            saturated(-(-x % size))
        } else {
            saturated(x % size)
        }
    }

    open spec fn opposite(self) -> Fixed {
        saturated(-self.billionths)
    }

    open spec fn magnitude(self) -> Fixed {
        if self.billionths < 0 {
            saturated(-self.billionths)
        } else {
            self
        }
    }

    open spec fn floored(self) -> Fixed {
        saturated(self.billionths as int / ONE as int * ONE)
    }

    open spec fn smaller(self, other: Fixed) -> Fixed {
        if other.billionths < self.billionths {
            other
        } else {
            self
        }
    }

    open spec fn larger(self, other: Fixed) -> Fixed {
        if self.billionths < other.billionths {
            other
        } else {
            self
        }
    }

    open spec fn power(self, exponent: Fixed) -> Fixed {
        if exponent.billionths < 0 {
            divided(
                Fixed { billionths: ONE },
                raised(self, (-exponent.billionths) as nat),
            )
        } else {
            raised(self, exponent.billionths as nat)
        }
    }

    open spec fn whole_power(self, exponent: i32) -> Fixed {
        if exponent < 0 {
            divided(Fixed { billionths: ONE }, repeated(self, (-exponent) as nat))
        } else {
            repeated(self, exponent as nat)
        }
    }

    open spec fn less(self, other: Fixed) -> bool {
        self.billionths < other.billionths
    }

    open spec fn at_most(self, other: Fixed) -> bool {
        self.billionths <= other.billionths
    }

    open spec fn text(self, places: usize) -> String {
        choose|text: String| text@ == fixed_text(self, places as nat)
    }

    fn ratio(num: i64, den: i64) -> (r: Fixed) {
        saturate(floor_div(scale(num as i128), den as i128))
    }

    fn from_count(n: usize) -> (r: Fixed) {
        saturate(scale(n as i128))
    }

    fn add(self, other: Fixed) -> (r: Fixed) {
        saturate(self.billionths as i128 + other.billionths as i128)
    }

    fn sub(self, other: Fixed) -> (r: Fixed) {
        saturate(self.billionths as i128 - other.billionths as i128)
    }

    fn mul(self, other: Fixed) -> (r: Fixed) {
        multiply(self, other)
    }

    fn div(self, other: Fixed) -> (r: Fixed) {
        divide(self, other)
    }

    fn rem(self, other: Fixed) -> (r: Fixed) {
        let x = self.billionths as i128;
        let y = other.billionths as i128;
        let size: i128 = if y < 0 {
            -y
        } else {
            y
        };
        if y == 0 {
            saturate(0)
        } else if x < 0 {
            saturate(-((-x) % size))
        } else {
            saturate(x % size)
        }
    }

    fn neg(self) -> (r: Fixed) {
        saturate(-(self.billionths as i128))
    }

    fn abs(self) -> (r: Fixed) {
        if self.billionths < 0 {
            saturate(-(self.billionths as i128))
        } else {
            self
        }
    }

    fn floor(self) -> (r: Fixed) {
        let whole = floor_div(self.billionths as i128, ONE as i128);
        saturate(scale(whole))
    }

    fn min(self, other: Fixed) -> (r: Fixed) {
        if other.billionths < self.billionths {
            other
        } else {
            self
        }
    }

    fn max(self, other: Fixed) -> (r: Fixed) {
        if self.billionths < other.billionths {
            other
        } else {
            self
        }
    }

    fn powf(self, exponent: Fixed) -> (r: Fixed) {
        if exponent.billionths < 0 {
            let size = (-(exponent.billionths as i128)) as u64;
            divide(Fixed { billionths: ONE }, raise(self, size))
        } else {
            raise(self, exponent.billionths as u64)
        }
    }

    fn powi(self, exponent: i32) -> (r: Fixed) {
        if exponent < 0 {
            let size = (-(exponent as i64)) as u64;
            divide(Fixed { billionths: ONE }, repeat(self, size))
        } else {
            repeat(self, exponent as u64)
        }
    }

    fn lt(self, other: Fixed) -> (r: bool) {
        self.billionths < other.billionths
    }

    fn le(self, other: Fixed) -> (r: bool) {
        self.billionths <= other.billionths
    }

    fn to_fixed(self, places: usize) -> (r: String)
        ensures
            r@ == fixed_text(self, places as nat),
    {
        let text = write_fixed(self, places);
        assert(text@ == fixed_text(self, places as nat));
        text
    }
}

/// What a fixed-point number stands for.
pub open spec fn fixed_value(x: Fixed) -> real {
    x.billionths as real / 1_000_000_000real
}

/// A range in which fixed-point numbers do not stop at its ends.
pub open spec fn fixed_limit() -> real {
    9_000_000_000real
}

/// By how much fixed-point numbers round.
pub open spec fn fixed_unit() -> real {
    1real / 1_000_000_000real
}

/// Law: within their range, fixed-point numbers add, subtract, compare and cut down
/// to whole numbers as the reals do.
pub proof fn law_fixed_is_linear()
    ensures
        linear_within(|x: Fixed| fixed_value(x), fixed_limit()),
{
    let val = |x: Fixed| fixed_value(x);
    assert forall|n: i64| fits(fixed_limit(), n as real) implies #[trigger] val(
        whole::<Fixed>(n),
    ) == n as real by {
        assert(n * ONE / 1int == n * ONE);
    }
    assert forall|n: i64| fits(fixed_limit() * 100real, n as real) implies #[trigger] val(
        hundredths::<Fixed>(n),
    ) * 100real == n as real by {
        assert(n * ONE / 100int == n * 10_000_000);
    }
    assert forall|a: Fixed|
        {
            &&& #[trigger] val(a.floored()) <= val(a)
            &&& fits(fixed_limit(), val(a)) ==> val(a) < val(a.floored()) + 1real && is_whole(
                val(a.floored()),
            )
        } by {
        let k = a.billionths as int / ONE as int;
        assert(k * ONE <= a.billionths < (k + 1) * ONE);
        if fits(fixed_limit(), val(a)) {
            assert(a.floored().billionths == k * ONE);
            assert(as_real(k) == val(a.floored()));
        }
    }
}

/// Whole numbers multiply as reals do.
proof fn lemma_real_product(x: int, y: int)
    ensures
        (x * y) as real == x as real * y as real,
    decreases
        if y < 0 {
            -y
        } else {
            y
        },
{
    let (xr, yr) = (x as real, y as real);
    if y > 0 {
        lemma_real_product(x, y - 1);
        assert((y - 1) as real == yr - 1real);
        assert(x * y == x * (y - 1) + x) by (nonlinear_arith);
        assert(xr * yr == xr * (yr - 1real) + xr) by (nonlinear_arith);
    } else if y < 0 {
        lemma_real_product(x, y + 1);
        assert((y + 1) as real == yr + 1real);
        assert(x * y == x * (y + 1) - x) by (nonlinear_arith);
        assert(xr * yr == xr * (yr + 1real) - xr) by (nonlinear_arith);
    } else {
        assert(x * y == 0) by (nonlinear_arith)
            requires
                y == 0,
        ;
        assert(xr * yr == 0real) by (nonlinear_arith)
            requires
                yr == 0real,
        ;
    }
}

/// Cutting down to a whole multiple of a positive number.
proof fn lemma_cut_down(x: int, d: int)
    requires
        d > 0,
    ensures
        (x / d) as real <= x as real / d as real,
        x as real / d as real - 1real <= (x / d) as real,
        x >= 0 ==> x / d >= 0,
{
    vstd::arithmetic::div_mod::lemma_fundamental_div_mod(x, d);
    let (q, m) = (x / d, x % d);
    let (xr, dr, qr, mr) = (x as real, d as real, q as real, m as real);
    assert(xr == dr * qr + mr) by {
        assert(x == d * q + m);
        lemma_real_product(d, q);
    }
    assert(qr <= xr / dr && xr / dr - 1real <= qr) by (nonlinear_arith)
        requires
            xr == dr * qr + mr,
            0real <= mr < dr,
    ;
    assert(x >= 0 ==> x / d >= 0) by (nonlinear_arith)
        requires
            d > 0,
    ;
}

/// A whole number of billionths, cut down from so many parts of a billionth, stands
/// for the real number rounded down.
proof fn lemma_cut_to_billionths(n: int, d: int)
    requires
        d > 0,
    ensures
        rounded_down(
            n as real / d as real / 1_000_000_000real,
            (n / d) as real / 1_000_000_000real,
            fixed_unit(),
        ),
{
    lemma_cut_down(n, d);
    let (nr, dr) = (n as real, d as real);
    let x = nr / dr / 1_000_000_000real;
    assert(x >= 0real ==> nr >= 0real) by (nonlinear_arith)
        requires
            x == nr / dr / 1_000_000_000real,
            dr > 0real,
    ;
    if is_whole(x) {
        let k = choose|k: int| #[trigger] as_real(k) == x;
        let kr = k as real;
        assert(nr == kr * 1_000_000_000real * dr) by (nonlinear_arith)
            requires
                kr == nr / dr / 1_000_000_000real,
                dr > 0real,
        ;
        lemma_real_product(k * 1_000_000_000, d);
        assert(n == k * 1_000_000_000 * d);
        vstd::arithmetic::div_mod::lemma_fundamental_div_mod_converse(
            n,
            d,
            k * 1_000_000_000,
            0,
        );
    }
}

/// Law: within their range, products and quotients of fixed-point numbers are those
/// of the reals, rounded down by at most a billionth.
pub proof fn law_fixed_rounds_down()
    ensures
        rounds_down(|x: Fixed| fixed_value(x), fixed_limit(), fixed_unit()),
{
    reveal(rounds_down);
    let val = |x: Fixed| fixed_value(x);
    assert forall|a: Fixed, b: Fixed| fits(fixed_limit(), val(a) * val(b)) implies rounded_down(
        val(a) * val(b),
        #[trigger] val(a.product(b)),
        fixed_unit(),
    ) by {
        let (x, y) = (a.billionths as int, b.billionths as int);
        lemma_cut_to_billionths(x * y, ONE as int);
        let (xr, yr) = (x as real, y as real);
        lemma_real_product(x, y);
        assert(val(a) * val(b) == xr * yr / 1_000_000_000real / 1_000_000_000real)
            by (nonlinear_arith)
            requires
                val(a) == xr / 1_000_000_000real,
                val(b) == yr / 1_000_000_000real,
        ;
    }
    assert forall|a: Fixed, b: Fixed|
        val(b) != 0real && fits(fixed_limit(), val(a) / val(b)) implies rounded_down(
        val(a) / val(b),
        #[trigger] val(a.quotient(b)),
        fixed_unit(),
    ) by {
        let (x, y) = (a.billionths as int, b.billionths as int);
        let (xr, yr) = (x as real, y as real);
        let (n, d) = if y > 0 {
            (x * ONE, y)
        } else {
            (-x * ONE, -y)
        };
        lemma_cut_to_billionths(n, d);
        let (nr, dr) = (n as real, d as real);
        assert(val(a) / val(b) == nr / dr / 1_000_000_000real) by (nonlinear_arith)
            requires
                val(a) == xr / 1_000_000_000real,
                val(b) == yr / 1_000_000_000real,
                yr != 0real,
                dr != 0real,
                (nr == xr * 1_000_000_000real && dr == yr) || (nr == -xr * 1_000_000_000real && dr
                    == -yr),
        ;
    }
    assert forall|a: Fixed, e: Fixed|
        0real < val(a) <= 1real && 0real <= val(e) <= 1real implies val(a) - fixed_unit()
        <= #[trigger] val(a.power(e)) by {
        lemma_raised(a, a, e.billionths as nat);
    }
}

/// Products grow with their factors.
proof fn lemma_multiplied_in_order(a: Fixed, b: Fixed, c: Fixed, d: Fixed)
    requires
        0 <= a.billionths <= b.billionths,
        0 <= c.billionths <= d.billionths,
    ensures
        0 <= multiplied(a, c).billionths <= multiplied(b, d).billionths,
{
    let (x, y, z, w) = (
        a.billionths as int,
        b.billionths as int,
        c.billionths as int,
        d.billionths as int,
    );
    assert(0 <= x * z <= y * w) by (nonlinear_arith)
        requires
            0 <= x <= y,
            0 <= z <= w,
    ;
    vstd::arithmetic::div_mod::lemma_div_is_ordered(x * z, y * w, ONE as int);
}

/// Whole powers grow with their base, and those of numbers up to one stay there.
proof fn lemma_repeated(a: Fixed, b: Fixed, n: nat)
    requires
        0 <= a.billionths <= b.billionths,
    ensures
        0 <= repeated(a, n).billionths <= repeated(b, n).billionths,
        b.billionths <= ONE ==> repeated(b, n).billionths <= ONE,
    decreases n,
{
    if n > 0 {
        lemma_repeated(a, b, (n - 1) as nat);
        lemma_multiplied_in_order(
            repeated(a, (n - 1) as nat),
            repeated(b, (n - 1) as nat),
            a,
            b,
        );
        if b.billionths <= ONE {
            let one = Fixed { billionths: ONE };
            lemma_multiplied_in_order(repeated(b, (n - 1) as nat), one, b, one);
            assert(multiplied(one, one) == one);
        }
    }
}

/// Roots grow with their base and lie, but for a billionth, between it and one.
proof fn lemma_rooted(a: Fixed, b: Fixed, exponent: nat)
    requires
        0 <= a.billionths <= b.billionths,
    ensures
        0 <= rooted(a, exponent).billionths <= rooted(b, exponent).billionths,
        rooted(a, exponent).billionths <= ONE || rooted(a, exponent).billionths <= a.billionths,
        a.billionths <= ONE ==> a.billionths <= rooted(a, exponent).billionths + 1,
{
    let (x, y) = (
        a.billionths as nat * PARTS as nat,
        b.billionths as nat * PARTS as nat,
    );
    assert(PARTS as nat == 10_000);
    assert(x == a.billionths * 10_000 && y == b.billionths * 10_000);
    lemma_fraction_power(x, y, exponent);
    vstd::arithmetic::div_mod::lemma_div_is_ordered(
        fraction_power(x, exponent) as int,
        fraction_power(y, exponent) as int,
        PARTS as int,
    );
}

/// Powers for exponents that are not below zero grow with their base; for exponents
/// up to one they lie, but for a billionth, between it and one.
proof fn lemma_raised(a: Fixed, b: Fixed, exponent: nat)
    requires
        0 <= a.billionths <= b.billionths,
    ensures
        0 <= raised(a, exponent).billionths <= raised(b, exponent).billionths,
        exponent <= ONE ==> raised(a, exponent).billionths <= ONE || raised(a, exponent).billionths
            <= a.billionths,
        exponent <= ONE && a.billionths <= ONE ==> a.billionths <= raised(a, exponent).billionths
            + 1,
{
    let (times, part) = (exponent / ONE as nat, exponent % ONE as nat);
    lemma_repeated(a, b, times);
    lemma_rooted(a, b, part);
    lemma_multiplied_in_order(
        repeated(a, times),
        repeated(b, times),
        rooted(a, part),
        rooted(b, part),
    );
    if exponent < ONE {
        vstd::arithmetic::div_mod::lemma_fundamental_div_mod_converse(
            exponent as int,
            ONE as int,
            0,
            exponent as int,
        );
        assert(repeated(a, 0).billionths == ONE);
        assert(times == 0 && part == exponent);
        assert(ONE * rooted(a, part).billionths / ONE as int == rooted(a, part).billionths);
    } else if exponent == ONE {
        vstd::arithmetic::div_mod::lemma_fundamental_div_mod_converse(
            exponent as int,
            ONE as int,
            1,
            0,
        );
        assert(times == 1 && part == 0);
        assert(repeated(a, 0).billionths == ONE);
        assert(repeated(a, 1) == multiplied(repeated(a, 0), a));
        assert(ONE * a.billionths / ONE as int == a.billionths);
    }
}

/// Quotients grow with what is divided and shrink with what divides.
proof fn lemma_divided_in_order(a: Fixed, b: Fixed, c: Fixed, d: Fixed)
    requires
        0 <= a.billionths <= b.billionths,
        0 < c.billionths <= d.billionths,
    ensures
        0 <= divided(a, d).billionths <= divided(b, c).billionths,
{
    let (x, y) = (a.billionths * ONE, b.billionths * ONE);
    let (z, w) = (c.billionths as int, d.billionths as int);
    vstd::arithmetic::div_mod::lemma_div_is_ordered(x, y, w);
    vstd::arithmetic::div_mod::lemma_div_is_ordered_by_denominator(y, z, w);
    vstd::arithmetic::div_mod::lemma_div_pos_is_pos(x, w);
}

/// Law: rounding and the ends of the range turn no two fixed-point numbers round.
pub proof fn law_fixed_keeps_order()
    ensures
        keeps_order(|x: Fixed| fixed_value(x)),
{
    reveal(keeps_order);
    let val = |x: Fixed| fixed_value(x);
    assert forall|a: Fixed, b: Fixed, c: Fixed, d: Fixed|
        #![trigger val(a.product(c)), val(b.product(d))]
        0real <= val(a) <= val(b) && 0real <= val(c) <= val(d) implies 0real <= val(a.product(c))
        <= val(b.product(d)) by {
        lemma_multiplied_in_order(a, b, c, d);
    }
    assert forall|a: Fixed, b: Fixed, c: Fixed|
        #![trigger val(a.product(c)), val(b.product(c))]
        val(a) <= val(b) && 0real <= val(c) implies val(a.product(c)) <= val(b.product(c)) by {
        let (x, y, z) = (a.billionths as int, b.billionths as int, c.billionths as int);
        assert(x * z <= y * z) by (nonlinear_arith)
            requires
                x <= y,
                0 <= z,
        ;
        vstd::arithmetic::div_mod::lemma_div_is_ordered(x * z, y * z, ONE as int);
    }
    assert forall|a: Fixed, b: Fixed| val(a) <= 0real && 0real <= val(b) implies #[trigger] val(
        a.product(b),
    ) <= 0real by {
        let (x, y) = (a.billionths as int, b.billionths as int);
        assert(x * y <= 0) by (nonlinear_arith)
            requires
                x <= 0,
                0 <= y,
        ;
        vstd::arithmetic::div_mod::lemma_div_is_ordered(x * y, 0, ONE as int);
    }
    assert forall|a: Fixed, b: Fixed, c: Fixed, d: Fixed|
        #![trigger val(a.quotient(d)), val(b.quotient(c))]
        0real <= val(a) <= val(b) && 0real < val(c) <= val(d) implies 0real <= val(a.quotient(d))
        <= val(b.quotient(c)) by {
        lemma_divided_in_order(a, b, c, d);
    }
    assert forall|a: Fixed, b: Fixed| val(a) <= 0real && 0real < val(b) implies #[trigger] val(
        a.quotient(b),
    ) <= 0real by {
        let (n, d) = (a.billionths * ONE, b.billionths as int);
        vstd::arithmetic::div_mod::lemma_div_is_ordered(n, 0, d);
        assert(0int / d == 0) by (nonlinear_arith)
            requires
                d > 0,
        ;
    }
    assert forall|a: Fixed, b: Fixed| val(a) >= 0real && val(b) > 0real implies 0real
        <= #[trigger] val(a.remainder(b)) < val(b) by {
        let (x, y) = (a.billionths as int, b.billionths as int);
        vstd::arithmetic::div_mod::lemma_mod_bound(x, y);
        assert(a.remainder(b).billionths == x % y);
    }
    assert forall|a: Fixed, b: Fixed, e: Fixed|
        #![trigger val(a.power(e)), val(b.power(e))]
        0real < val(a) <= val(b) && 0real <= val(e) implies 0real <= val(a.power(e)) <= val(
        b.power(e),
    ) by {
        lemma_raised(a, b, e.billionths as nat);
    }
    assert forall|a: Fixed, e: Fixed| 0real < val(a) && 0real <= val(e) <= 1real implies
        #[trigger] val(a.power(e)) <= if val(a) <= 1real {
        1real
    } else {
        val(a)
    } by {
        lemma_raised(a, a, e.billionths as nat);
    }
    assert forall|a: Fixed, n: i32| 0real <= val(a) <= 1real && n >= 0 implies 0real
        <= #[trigger] val(a.whole_power(n)) <= 1real by {
        lemma_repeated(a, a, n as nat);
    }
}

/// Law: whole powers of fixed-point numbers are products of equal factors, each rounded
/// down by at most a billionth.
pub proof fn law_fixed_repeats()
    ensures
        repeats(|x: Fixed| fixed_value(x), fixed_limit(), fixed_unit()),
{
    reveal(repeats);
    law_fixed_rounds_down();
    let val = |x: Fixed| fixed_value(x);
    assert forall|a: Fixed| #[trigger] val(a.whole_power(0)) == 1real by {
        assert(repeated(a, 0).billionths == ONE);
    }
    assert forall|a: Fixed, n: i32, k: i32|
        #![trigger val(a.whole_power(n)), val(a.whole_power(k))]
        0 <= n && k == n + 1 && fits(fixed_limit(), val(a.whole_power(n)) * val(a)) implies rounded_down(
        val(a.whole_power(n)) * val(a),
        val(a.whole_power(k)),
        fixed_unit(),
    ) by {
        assert(a.whole_power(k) == a.whole_power(n).product(a));
        lemma_product(val, fixed_limit(), fixed_unit(), a.whole_power(n), a);
    }
}

/// Law: within their range, the remainders of fixed-point counts are those of the whole
/// numbers.
pub proof fn law_fixed_counts_over()
    ensures
        counts_over(|x: Fixed| fixed_value(x), fixed_limit()),
{
    reveal(counts_over);
    let val = |x: Fixed| fixed_value(x);
    assert forall|n: usize, d: i64|
        d > 0 && fits(fixed_limit(), n as real) && fits(
            fixed_limit(),
            d as real,
        ) implies #[trigger] val(Fixed::count(n).remainder(whole(d))) == (n as int % d as int) as real
        by {
        assert(d * ONE / 1int == d * ONE);
        let (x, y) = (n as int, d as int);
        vstd::arithmetic::div_mod::lemma_fundamental_div_mod(x, y);
        let (q, r) = (x / y, x % y);
        assert(x * ONE == (y * ONE) * q + r * ONE) by (nonlinear_arith)
            requires
                x == y * q + r,
        ;
        vstd::arithmetic::div_mod::lemma_mod_bound(x, y);
        vstd::arithmetic::div_mod::lemma_fundamental_div_mod_converse(
            x * ONE,
            y * ONE,
            q,
            r * ONE,
        );
        assert(Fixed::count(n).billionths == x * ONE);
        assert(whole::<Fixed>(d).billionths == y * ONE);
        assert(Fixed::count(n).remainder(whole(d)).billionths == r * ONE);
    }
}

/// `x`, or the nearer end of the range.
pub open spec fn clipped(x: int) -> int {
    if x > 9_223_372_036_854_775_807 {
        9_223_372_036_854_775_807
    } else if x < -9_223_372_036_854_775_808 {
        -9_223_372_036_854_775_808
    } else {
        x
    }
}

/// `r` is `x` over `d`, cut down to a whole number, or the nearer end of the range.
pub open spec fn cut(x: int, d: int, r: int) -> bool {
    exists|q: int| #[trigger] (q * d) <= x < q * d + d && r == clipped(q)
}

proof fn lemma_cut(x: int, d: int)
    requires
        d > 0,
    ensures
        cut(x, d, saturated(x / d).billionths as int),
{
    vstd::arithmetic::div_mod::lemma_fundamental_div_mod(x, d);
    let q = x / d;
    assert(q * d == d * q) by (nonlinear_arith);
    assert(q * d <= x < q * d + d);
}

/// Law: fixed-point numbers add, subtract and negate as whole numbers of billionths, and
/// multiply and divide as such, cut down; all of them stop at the ends of the range.  Over
/// zero, the quotient is the end on the side of what is divided.
pub proof fn law_fixed_stops_at_the_ends(a: Fixed, b: Fixed, num: i64, den: i64, n: usize)
    requires
        den > 0,
    ensures
        a.sum(b).billionths == clipped(a.billionths + b.billionths),
        a.difference(b).billionths == clipped(a.billionths - b.billionths),
        a.opposite().billionths == clipped(-a.billionths),
        a.magnitude().billionths == clipped(
            if a.billionths < 0 {
                -a.billionths
            } else {
                a.billionths as int
            },
        ),
        Fixed::count(n).billionths == clipped(n * 1_000_000_000),
        cut(num * 1_000_000_000, den as int, Fixed::fraction(num, den).billionths as int),
        cut(
            a.billionths * b.billionths,
            1_000_000_000,
            a.product(b).billionths as int,
        ),
        b.billionths > 0 ==> cut(
            a.billionths * 1_000_000_000,
            b.billionths as int,
            a.quotient(b).billionths as int,
        ),
        b.billionths < 0 ==> cut(
            -a.billionths * 1_000_000_000,
            -b.billionths,
            a.quotient(b).billionths as int,
        ),
        b.billionths == 0 ==> a.quotient(b).billionths == if a.billionths > 0 {
            i64::MAX
        } else if a.billionths < 0 {
            i64::MIN
        } else {
            0
        },
        exists|k: int|
            a.floored().billionths == clipped(#[trigger] (k * 1_000_000_000)) && k * 1_000_000_000
                <= a.billionths < k * 1_000_000_000 + 1_000_000_000,
        a.smaller(b).billionths == if a.billionths <= b.billionths {
            a.billionths
        } else {
            b.billionths
        },
        a.larger(b).billionths == if a.billionths >= b.billionths {
            a.billionths
        } else {
            b.billionths
        },
        a.less(b) <==> a.billionths < b.billionths,
        a.at_most(b) <==> a.billionths <= b.billionths,
{
    let (x, y) = (a.billionths as int, b.billionths as int);
    lemma_cut(num * ONE, den as int);
    lemma_cut(x * y, ONE as int);
    if y > 0 {
        lemma_cut(x * ONE, y);
    } else if y < 0 {
        lemma_cut(-x * ONE, -y);
    }
    let k = x / ONE as int;
    assert(k * 1_000_000_000 <= x < k * 1_000_000_000 + 1_000_000_000);
    assert(a.floored().billionths == clipped(k * 1_000_000_000));
}

/// Law: the remainder is what is left over whole multiples of the divisor: smaller than it,
/// and on the side of what is divided.  Over zero there is none.
pub proof fn law_fixed_remainders(a: Fixed, b: Fixed)
    ensures
        b.billionths == 0 ==> a.remainder(b).billionths == 0,
        b.billionths != 0 ==> {
            let (x, y, r) = (
                a.billionths as int,
                b.billionths as int,
                a.remainder(b).billionths as int,
            );
            &&& exists|k: int| x == #[trigger] (k * y) + r
            &&& x >= 0 ==> 0 <= r
            &&& x <= 0 ==> r <= 0
            &&& y > 0 ==> -y < r < y
            &&& y < 0 ==> y < r < -y
        },
{
    let (x, y, r) = (a.billionths as int, b.billionths as int, a.remainder(b).billionths as int);
    if y != 0 {
        let size = if y < 0 {
            -y
        } else {
            y
        };
        let from = if x < 0 {
            -x
        } else {
            x
        };
        vstd::arithmetic::div_mod::lemma_fundamental_div_mod(from, size);
        vstd::arithmetic::div_mod::lemma_mod_bound(from, size);
        let (q, m) = (from / size, from % size);
        assert(r == if x < 0 {
            -m
        } else {
            m
        });
        let k = if (x < 0) == (y < 0) {
            q
        } else {
            -q
        };
        assert(x == k * y + r) by (nonlinear_arith)
            requires
                from == size * q + m,
                size == if y < 0 {
                    -y
                } else {
                    y
                },
                from == if x < 0 {
                    -x
                } else {
                    x
                },
                r == if x < 0 {
                    -m
                } else {
                    m
                },
                k == if (x < 0) == (y < 0) {
                    q
                } else {
                    -q
                },
        ;
    }
}

/// Parts, cut down to billionths.
proof fn lemma_down(fine: nat)
    requires
        fine <= 92_233_720_368_547_758_070_000,
    ensures
        fine / 10_000 * 10_000 <= fine < fine / 10_000 * 10_000 + 10_000,
        fine / 10_000 <= 9_223_372_036_854_775_807,
{
}

/// Law: a whole power is one product for each factor, and for an exponent below zero one
/// over that.  Other powers take the whole part of the exponent first, and go by `power`
/// for the rest; a fractional power of what is not above zero is zero.
pub proof fn law_fixed_powers(a: Fixed, n: i32, part: i64)
    requires
        0 <= n < i32::MAX,
        0 < part < 1_000_000_000,
    ensures
        a.whole_power(0).billionths == 1_000_000_000,
        a.whole_power((n + 1) as i32) == a.whole_power(n).product(a),
        n > 0 ==> a.whole_power((-n) as i32) == whole::<Fixed>(1).quotient(a.whole_power(n)),
        a.power(Fixed { billionths: (n * 1_000_000_000) as i64 }) == a.whole_power(n),
        a.power(Fixed { billionths: (n * 1_000_000_000 + part) as i64 }) == a.whole_power(
            n,
        ).product(a.power(Fixed { billionths: part })),
        a.power(Fixed { billionths: (-part) as i64 }) == whole::<Fixed>(1).quotient(
            a.power(Fixed { billionths: part }),
        ),
        a.billionths <= 0 ==> a.power(Fixed { billionths: part }).billionths == 0,
        a.billionths > 0 ==> {
            let power = a.power(Fixed { billionths: part }).billionths;
            let fine = fraction_power((a.billionths * 10_000) as nat, part as nat);
            power * 10_000 <= fine < power * 10_000 + 10_000
        },
{
    assert(repeated(a, 0).billionths == ONE);
    assert(whole::<Fixed>(1).billionths == ONE) by {
        assert(1 * ONE / 1int == ONE);
    }
    let e = n * 1_000_000_000 + part;
    assert(e / 1_000_000_000 == n && e % 1_000_000_000 == part);
    assert((n * 1_000_000_000) / 1_000_000_000 == n && (n * 1_000_000_000) % 1_000_000_000 == 0);
    assert(part as int / 1_000_000_000 == 0 && part as int % 1_000_000_000 == part);
    let root = rooted(a, part as nat);
    let one = Fixed { billionths: ONE };
    assert(multiplied(one, root) == root) by {
        assert(ONE * root.billionths / ONE as int == root.billionths);
    }
    assert(a.power(Fixed { billionths: part }) == root);
    if a.billionths > 0 {
        let x = a.billionths as nat;
        assert(PARTS as nat == 10_000);
        assert(x * PARTS as nat == (a.billionths * 10_000) as nat);
        lemma_fraction_power(x * PARTS as nat, x * PARTS as nat, part as nat);
        let fine = fraction_power(x * PARTS as nat, part as nat);
        assert(FINE as nat == 10_000_000_000_000);
        assert(fine <= 10_000_000_000_000 || fine <= x * 10_000);
        assert(x <= 9_223_372_036_854_775_807);
        assert(fine <= 92_233_720_368_547_758_070_000);
        lemma_down(fine);
    } else {
        lemma_zero_power(part as nat);
    }
}

/// One with zeros, and the billionths that are left for the last place.
proof fn lemma_last_place(places: nat)
    requires
        places <= 9,
    ensures
        last_place(places) > 0,
        ten_power(places) * last_place(places) == ONE,
        places > 0 ==> last_place((places - 1) as nat) == 10 * last_place(places),
{
    reveal_with_fuel(ten_power, 11);
    assert(ten_power(0) == 1);
    assert(ten_power(1) == 10);
    assert(ten_power(2) == 100);
    assert(ten_power(3) == 1_000);
    assert(ten_power(4) == 10_000);
    assert(ten_power(5) == 100_000);
    assert(ten_power(6) == 1_000_000);
    assert(ten_power(7) == 10_000_000);
    assert(ten_power(8) == 100_000_000);
    assert(ten_power(9) == 1_000_000_000);
    let (t, l) = (ten_power(places) as int, last_place(places) as int);
    assert((t == 1 && l == 1_000_000_000) || (t == 10 && l == 100_000_000) || (t == 100 && l
        == 10_000_000) || (t == 1_000 && l == 1_000_000) || (t == 10_000 && l == 100_000) || (t
        == 100_000 && l == 10_000) || (t == 1_000_000 && l == 1_000) || (t == 10_000_000 && l
        == 100) || (t == 100_000_000 && l == 10) || (t == 1_000_000_000 && l == 1));
    assert(t * l == 1_000_000_000) by (nonlinear_arith)
        requires
            (t == 1 && l == 1_000_000_000) || (t == 10 && l == 100_000_000) || (t == 100 && l
                == 10_000_000) || (t == 1_000 && l == 1_000_000) || (t == 10_000 && l == 100_000)
                || (t == 100_000 && l == 10_000) || (t == 1_000_000 && l == 1_000) || (t
                == 10_000_000 && l == 100) || (t == 100_000_000 && l == 10) || (t
                == 1_000_000_000 && l == 1),
    ;
}

/// A digit in front of others.
proof fn lemma_digit_in_front(d: nat, text: Seq<char>)
    requires
        d < 10,
        digits_value(text) is Some,
    ensures
        digits_value(digit(d) + text) == Some(
            (d * ten_power(text.len()) + digits_value(text)->0) as nat,
        ),
    decreases text.len(),
{
    let all = digit(d) + text;
    if text.len() == 0 {
        assert(all =~= digit(d));
        assert(all.drop_last() =~= Seq::empty());
        assert(digits_value(all.drop_last()) == Some(0nat));
        assert(all.last() == ('0' as int + d) as char);
        assert(ten_power(0) == 1);
        assert(d * 1 == d) by (nonlinear_arith);
        assert(digits_value(text) == Some(0nat));
    } else {
        assert(all.drop_last() =~= digit(d) + text.drop_last());
        assert(all.last() == text.last());
        lemma_digit_in_front(d, text.drop_last());
        let p = ten_power((text.len() - 1) as nat);
        assert(d * (10 * p) == 10 * (d * p)) by (nonlinear_arith);
    }
}

/// What the digits behind the point read as.
proof fn lemma_fraction_digits(billionths: nat, places: nat, unit: nat)
    requires
        places <= 9,
        unit == last_place(places),
        billionths < ONE,
        billionths % unit == 0,
    ensures
        fraction_digits(billionths, places).len() == places,
        digits_value(fraction_digits(billionths, places)) matches Some(n) && n * unit == billionths,
    decreases places,
{
    lemma_last_place(places);
    if places == 0 {
        assert(ten_power(0) == 1);
        assert(1 * unit == unit) by (nonlinear_arith);
        assert(unit == ONE);
        assert(billionths == 0) by {
            vstd::arithmetic::div_mod::lemma_small_mod(billionths, unit);
        }
        assert(digits_value(Seq::<char>::empty()) == Some(0nat));
        assert(0 * unit == 0) by (nonlinear_arith);
    } else {
        let (d, rest) = (billionths * 10 / ONE as nat, billionths * 10 % ONE as nat);
        let less = (places - 1) as nat;
        lemma_last_place(less);
        let wide = last_place(less) as int;
        assert(wide == 10 * unit);
        let t = ten_power(less) as int;
        assert(t * wide == ONE);
        let q = billionths as int / unit as int;
        vstd::arithmetic::div_mod::lemma_fundamental_div_mod(billionths as int, unit as int);
        assert(billionths == unit * q);
        let k = q - d * t;
        assert(rest == wide * k) by {
            assert(rest == billionths * 10 - d * ONE);
            assert(wide * k == wide * q - d * (t * wide)) by (nonlinear_arith)
                requires
                    k == q - d * t,
            ;
            assert(wide * q == 10 * (unit * q)) by (nonlinear_arith)
                requires
                    wide == 10 * unit,
            ;
        }
        assert(wide * k == k * wide) by (nonlinear_arith);
        vstd::arithmetic::div_mod::lemma_fundamental_div_mod_converse(rest as int, wide, k, 0);
        lemma_fraction_digits(rest, less, wide as nat);
        let tail = fraction_digits(rest, less);
        let n = digits_value(tail)->0;
        lemma_digit_in_front(d, tail);
        let all = d * t + n;
        assert(all * unit == billionths) by {
            assert((d * t + n) * (10 * unit) == d * (t * wide) + n * wide) by (nonlinear_arith)
                requires
                    wide == 10 * unit,
            ;
            assert((d * t + n) * (10 * unit) == 10 * ((d * t + n) * unit)) by (nonlinear_arith);
        }
    }
}

/// Law: the text of a number is its sign, the digits of the nearest multiple of its last
/// place, and a point in front of as many of them as there are places.  Read without the
/// point, and with zeros behind it up to the ninth place, the digits are that multiple.
pub proof fn law_fixed_texts_are_nearest(x: Fixed, places: nat)
    requires
        places <= 9,
    ensures
        ({
            let size = if x.billionths < 0 {
                -x.billionths
            } else {
                x.billionths as int
            };
            let unit = last_place(places) as int;
            let near = nearest(size as nat, unit as nat) as int;
            let sign = if x.billionths < 0 {
                "-"@
            } else {
                ""@
            };
            &&& unit > 0
            &&& near % unit == 0
            &&& -unit <= 2 * (near - size) <= unit
            &&& (2 * (near - size) == unit || 2 * (near - size) == -unit) ==> near / unit % 2 == 0
            &&& exists|high: Seq<char>, low: Seq<char>|
                {
                    &&& low.len() == places
                    &&& fixed_text(x, places) == sign + high + (if places == 0 {
                        ""@
                    } else {
                        "."@
                    }) + low
                    &&& high.len() > 0
                    &&& #[trigger] digits_value(high) matches Some(whole_part) && #[trigger] digits_value(
                        low,
                    ) matches Some(rest) && near == whole_part * 1_000_000_000 + rest * unit
                }
        }),
{
    let size = if x.billionths < 0 {
        -x.billionths
    } else {
        x.billionths as int
    };
    let unit = last_place(places) as int;
    lemma_last_place(places);
    let (below, rest) = (size / unit, size % unit);
    vstd::arithmetic::div_mod::lemma_fundamental_div_mod(size, unit);
    vstd::arithmetic::div_mod::lemma_mod_bound(size, unit);
    let near = nearest(size as nat, unit as nat) as int;
    let k = if 2 * rest > unit || (2 * rest == unit && below % 2 == 1) {
        below + 1
    } else {
        below
    };
    assert((below + 1) * unit == below * unit + unit && unit * below == below * unit)
        by (nonlinear_arith);
    assert(near == k * unit);
    assert(k * unit == unit * k) by (nonlinear_arith);
    vstd::arithmetic::div_mod::lemma_fundamental_div_mod_converse(near, unit, k, 0);
    let high = decimal((near / 1_000_000_000) as nat);
    let low = fraction_digits((near % 1_000_000_000) as nat, places);
    lemma_decimal_reads_back((near / 1_000_000_000) as nat);
    assert(near % 1_000_000_000 % unit == 0) by {
        let t = ten_power(places) as int;
        let w = near / 1_000_000_000;
        assert(t * unit == 1_000_000_000);
        assert(near % 1_000_000_000 == (k - t * w) * unit) by (nonlinear_arith)
            requires
                near == k * unit,
                near % 1_000_000_000 == near - 1_000_000_000 * w,
                t * unit == 1_000_000_000,
        ;
        vstd::arithmetic::div_mod::lemma_fundamental_div_mod_converse(
            near % 1_000_000_000,
            unit,
            k - t * w,
            0,
        );
    }
    lemma_fraction_digits((near % 1_000_000_000) as nat, places, unit as nat);
    assert(digits_value(high) is Some && digits_value(low) is Some);
}

/// What is left of a number of billionths below one behind so many digits.
spec fn behind(billionths: nat, places: nat) -> nat
    decreases places,
{
    if places == 0 {
        billionths
    } else {
        behind(billionths * 10 % ONE as nat, (places - 1) as nat)
    }
}

proof fn lemma_one_more_digit(billionths: nat, places: nat)
    ensures
        fraction_digits(billionths, places + 1) == fraction_digits(billionths, places) + digit(
            behind(billionths, places) * 10 / ONE as nat,
        ),
        behind(billionths, places + 1) == behind(billionths, places) * 10 % ONE as nat,
    decreases places,
{
    let next = billionths * 10 % ONE as nat;
    let first = digit(billionths * 10 / ONE as nat);
    if places == 0 {
        assert(fraction_digits(next, 0) =~= Seq::empty());
        assert(fraction_digits(billionths, 1) =~= first);
        assert(fraction_digits(billionths, 0) + first =~= first);
        assert(behind(next, 0) == next);
    } else {
        lemma_one_more_digit(next, (places - 1) as nat);
        let last = digit(behind(next, (places - 1) as nat) * 10 / ONE as nat);
        assert(fraction_digits(billionths, places + 1) == first + fraction_digits(next, places));
        assert(first + (fraction_digits(next, (places - 1) as nat) + last) =~= first
            + fraction_digits(next, (places - 1) as nat) + last);
    }
}

proof fn lemma_nothing_behind(billionths: nat, places: nat)
    requires
        billionths < ONE,
    ensures
        behind(billionths, places) < ONE,
        places <= 9 ==> behind(billionths, places) % ten_power(places) == 0,
        places >= 9 ==> behind(billionths, places) == 0,
    decreases places,
{
    if places == 0 {
        assert(ten_power(0) == 1);
    } else {
        let less = (places - 1) as nat;
        lemma_nothing_behind(billionths, less);
        lemma_one_more_digit(billionths, less);
        let before = behind(billionths, less) as int;
        if places <= 9 {
            let (t, u) = (ten_power(less) as int, ten_power(places) as int);
            assert(u == 10 * t);
            lemma_last_place(places);
            let rest = last_place(places) as int;
            assert(u * rest == ONE);
            assert(t > 0) by (nonlinear_arith)
                requires
                    u == 10 * t,
                    u * rest == 1_000_000_000,
                    rest > 0,
            ;
            let k = before / t;
            vstd::arithmetic::div_mod::lemma_fundamental_div_mod(before, t);
            assert(before == t * k);
            let q = before * 10 / ONE as int;
            let after = behind(billionths, places) as int;
            assert(after == before * 10 - ONE * q);
            assert(after == (k - rest * q) * u) by (nonlinear_arith)
                requires
                    after == before * 10 - 1_000_000_000 * q,
                    before == t * k,
                    u == 10 * t,
                    u * rest == 1_000_000_000,
            ;
            vstd::arithmetic::div_mod::lemma_fundamental_div_mod_converse(
                after,
                u,
                k - rest * q,
                0,
            );
            if places == 9 {
                assert(rest == 1) by {
                    assert(last_place(9) == 1);
                }
                assert(u == 1_000_000_000) by (nonlinear_arith)
                    requires
                        u * rest == 1_000_000_000,
                        rest == 1,
                ;
                vstd::arithmetic::div_mod::lemma_small_mod(after as nat, u as nat);
            }
        } else {
            assert(0nat * 10 % ONE as nat == 0);
        }
    }
}

/// Law: beyond the ninth digit behind the point there are only zeros.
pub proof fn law_fixed_texts_end_in_zeros(x: Fixed, places: nat)
    requires
        places >= 9,
    ensures
        fixed_text(x, places + 1) == fixed_text(x, places) + "0"@,
{
    let size = if x.billionths < 0 {
        -x.billionths
    } else {
        x.billionths as int
    };
    let rounded = nearest(size as nat, 1);
    let rest = rounded % ONE as nat;
    lemma_nothing_behind(rest, places);
    lemma_one_more_digit(rest, places);
    reveal_strlit("0");
    assert(digit(0) =~= "0"@);
    assert(fixed_text(x, places + 1) =~= fixed_text(x, places) + "0"@);
}

} // verus!
