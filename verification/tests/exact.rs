//! The simulation in fractions, where no arithmetic is lost.

use mundios::demo::create_demo_world;
use mundios::number::Number;
use mundios::shipment::CargoRoll;
use mundios::world::{total_money, World};

/// A fraction in lowest terms, with a positive denominator.
#[derive(Debug, Clone, Copy, PartialEq)]
struct Fraction {
    num: i128,
    den: i128,
}

fn divisor(a: i128, b: i128) -> i128 {
    if b == 0 {
        a
    } else {
        divisor(b, a % b)
    }
}

fn reduced(num: i128, den: i128) -> Fraction {
    let common = divisor(num.abs(), den.abs()).max(1);
    let sign: i128 = if den < 0 { -1 } else { 1 };
    Fraction { num: sign * num / common, den: sign * den / common }
}

fn times(a: i128, b: i128) -> i128 {
    a.checked_mul(b).expect("the fraction outgrows its type")
}

impl Number for Fraction {
    fn fraction(num: i64, den: i64) -> Fraction {
        reduced(num as i128, den as i128)
    }
    fn count(n: usize) -> Fraction {
        reduced(n as i128, 1)
    }
    fn sum(self, other: Fraction) -> Fraction {
        let common = divisor(self.den, other.den);
        let left = times(self.num, other.den / common);
        let right = times(other.num, self.den / common);
        reduced(left + right, times(self.den / common, other.den))
    }
    fn difference(self, other: Fraction) -> Fraction {
        self.sum(other.opposite())
    }
    fn product(self, other: Fraction) -> Fraction {
        let a = reduced(self.num, other.den);
        let b = reduced(other.num, self.den);
        reduced(times(a.num, b.num), times(a.den, b.den))
    }
    fn quotient(self, other: Fraction) -> Fraction {
        self.product(reduced(other.den, other.num))
    }
    fn remainder(self, other: Fraction) -> Fraction {
        let ratio = self.quotient(other);
        self.difference(other.product(reduced(ratio.num / ratio.den, 1)))
    }
    fn opposite(self) -> Fraction {
        Fraction { num: -self.num, den: self.den }
    }
    fn magnitude(self) -> Fraction {
        Fraction { num: self.num.abs(), den: self.den }
    }
    fn floored(self) -> Fraction {
        reduced(self.num.div_euclid(self.den), 1)
    }
    fn smaller(self, other: Fraction) -> Fraction {
        if other.less(self) {
            other
        } else {
            self
        }
    }
    fn larger(self, other: Fraction) -> Fraction {
        if self.less(other) {
            other
        } else {
            self
        }
    }
    /// A power of a positive number, to the nearest quarter above zero.
    fn power(self, exponent: Fraction) -> Fraction {
        let base = self.num as f64 / self.den as f64;
        let power = base.powf(exponent.num as f64 / exponent.den as f64);
        reduced(((power * 4.0).round() as i128).max(1), 4)
    }
    fn whole_power(self, exponent: i32) -> Fraction {
        let mut power = Self::count(1);
        for _ in 0i32..exponent {
            power = power.product(self);
        }
        power
    }
    fn less(self, other: Fraction) -> bool {
        self.difference(other).num < 0
    }
    fn at_most(self, other: Fraction) -> bool {
        self.difference(other).num <= 0
    }
    fn text(self, _places: usize) -> String {
        format!("{}/{}", self.num, self.den)
    }
    fn ratio(num: i64, den: i64) -> Fraction {
        Self::fraction(num, den)
    }
    fn from_count(n: usize) -> Fraction {
        Self::count(n)
    }
    fn add(self, other: Fraction) -> Fraction {
        self.sum(other)
    }
    fn sub(self, other: Fraction) -> Fraction {
        self.difference(other)
    }
    fn mul(self, other: Fraction) -> Fraction {
        self.product(other)
    }
    fn div(self, other: Fraction) -> Fraction {
        self.quotient(other)
    }
    fn rem(self, other: Fraction) -> Fraction {
        self.remainder(other)
    }
    fn neg(self) -> Fraction {
        self.opposite()
    }
    fn abs(self) -> Fraction {
        self.magnitude()
    }
    fn floor(self) -> Fraction {
        self.floored()
    }
    fn min(self, other: Fraction) -> Fraction {
        self.smaller(other)
    }
    fn max(self, other: Fraction) -> Fraction {
        self.larger(other)
    }
    fn powf(self, exponent: Fraction) -> Fraction {
        self.power(exponent)
    }
    fn powi(self, exponent: i32) -> Fraction {
        self.whole_power(exponent)
    }
    fn lt(self, other: Fraction) -> bool {
        self.less(other)
    }
    fn le(self, other: Fraction) -> bool {
        self.at_most(other)
    }
    fn to_fixed(self, places: usize) -> String {
        self.text(places)
    }
}

fn halved(n: usize) -> Vec<CargoRoll<Fraction>> {
    vec![CargoRoll { incident: Fraction::count(0), loss_fraction: Fraction::ratio(1, 2) }; n]
}

fn untouched(n: usize) -> Vec<CargoRoll<Fraction>> {
    vec![CargoRoll { incident: Fraction::count(1), loss_fraction: Fraction::count(0) }; n]
}

#[test]
fn months_conserve_money_to_the_last_fraction() {
    let mut here: World<Fraction> = create_demo_world();
    for month in 1u32..4 {
        here.tick_month(untouched);
        assert_eq!(here.month, month);
        assert_eq!(total_money(&here), Fraction::count(6500));
    }
    assert!(here.settlements[2].money.less(Fraction::count(0)));
}

#[test]
fn lost_cargo_costs_no_money() {
    let mut here: World<Fraction> = create_demo_world();
    for _ in 0usize..3 {
        here.tick_month(halved);
        assert_eq!(total_money(&here), Fraction::count(6500));
    }
    assert_eq!(here.expected_total_money, Fraction::count(6500));
}

#[test]
fn prices_stop_short_of_their_target() {
    let mut here: World<Fraction> = create_demo_world();
    // Greenworld keeps fifty times the tools that it wants in store.
    here.settlements[0].stockpiles.tools = Some(Fraction::count(750));
    here.update_prices();
    // A quarter to the power of seven tenths is next to a half: the target is ten.
    assert_eq!(here.settlements[0].prices.tools, Some(Fraction::ratio(35, 2)));
}
