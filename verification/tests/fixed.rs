//! Fixed-point numbers.

use mundios::demo::create_demo_world;
use mundios::fixed::{Fixed, ONE};
use mundios::goods::Good;
use mundios::number::{make_hundredths, make_whole, Number};
use mundios::power::{find_fraction_power, FINE};
use mundios::shipment::CargoRoll;
use mundios::world::{total_money, World};

fn billionths(n: i64) -> Fixed {
    Fixed { billionths: n }
}

fn whole(n: i64) -> Fixed {
    make_whole(n)
}

#[test]
fn fractions_are_cut_down() {
    assert_eq!(Fixed::ratio(1, 3), billionths(333_333_333));
    assert_eq!(Fixed::ratio(-1, 3), billionths(-333_333_334));
    assert_eq!(make_hundredths::<Fixed>(70), billionths(700_000_000));
    assert_eq!(Fixed::from_count(12), whole(12));
    assert_eq!(whole(1).billionths, ONE);
}

#[test]
fn sums_stop_at_the_ends_of_the_range() {
    assert_eq!(whole(2).add(whole(3)), whole(5));
    assert_eq!(whole(2).sub(whole(3)), whole(-1));
    assert_eq!(billionths(i64::MAX).add(whole(1)), billionths(i64::MAX));
    assert_eq!(billionths(i64::MIN).sub(whole(1)), billionths(i64::MIN));
    assert_eq!(billionths(i64::MIN).neg(), billionths(i64::MAX));
    assert_eq!(billionths(i64::MIN).abs(), billionths(i64::MAX));
    assert_eq!(whole(-4).abs(), whole(4));
}

#[test]
fn products_and_quotients() {
    assert_eq!(Fixed::ratio(5, 2).mul(Fixed::ratio(1, 2)), Fixed::ratio(5, 4));
    assert_eq!(billionths(-1).mul(Fixed::ratio(1, 2)), billionths(-1));
    assert_eq!(billionths(i64::MAX).mul(whole(-3)), billionths(i64::MIN));
    assert_eq!(whole(7).div(whole(2)), Fixed::ratio(7, 2));
    assert_eq!(whole(7).div(whole(-2)), Fixed::ratio(-7, 2));
    assert_eq!(whole(-1).div(whole(3)), billionths(-333_333_334));
    assert_eq!(whole(1).div(whole(0)), billionths(i64::MAX));
    assert_eq!(whole(-1).div(whole(0)), billionths(i64::MIN));
    assert_eq!(whole(0).div(whole(0)), whole(0));
}

#[test]
fn remainders_have_the_sign_of_the_dividend() {
    assert_eq!(whole(152).rem(whole(100)), whole(52));
    assert_eq!(whole(-152).rem(whole(100)), whole(-52));
    assert_eq!(whole(152).rem(whole(-100)), whole(52));
    assert_eq!(whole(5).rem(whole(0)), whole(0));
}

#[test]
fn floors_and_comparisons() {
    assert_eq!(Fixed::ratio(5, 2).floor(), whole(2));
    assert_eq!(Fixed::ratio(-5, 2).floor(), whole(-3));
    assert_eq!(whole(1).min(whole(2)), whole(1));
    assert_eq!(whole(1).max(whole(2)), whole(2));
    assert!(whole(1).lt(whole(2)) && !whole(2).lt(whole(2)));
    assert!(whole(2).le(whole(2)) && !whole(3).le(whole(2)));
}

#[test]
fn whole_powers_multiply() {
    assert_eq!(whole(3).powi(0), whole(1));
    assert_eq!(whole(3).powi(4), whole(81));
    assert_eq!(whole(2).powi(-2), Fixed::ratio(1, 4));
    assert_eq!(whole(3).powf(whole(2)), whole(9));
    assert_eq!(whole(3).powf(whole(0)), whole(1));
    assert_eq!(whole(2).powf(whole(-1)), Fixed::ratio(1, 2));
}

#[test]
fn fractional_powers_take_roots() {
    let seven_tenths = make_hundredths(70);
    assert_eq!(whole(10).powf(seven_tenths), billionths(5_011_872_336));
    assert_eq!(Fixed::ratio(1, 4).powf(seven_tenths), billionths(378_929_141));
    assert_eq!(whole(11).powf(seven_tenths), billionths(5_357_656_669));
    assert_eq!(whole(1).powf(seven_tenths), whole(1));
    assert_eq!(whole(2).powf(make_hundredths(50)), billionths(1_414_213_562));
    assert_eq!(whole(4).powf(Fixed::ratio(5, 2)), whole(32));
    assert_eq!(whole(4).powf(make_hundredths(-50)), Fixed::ratio(1, 2));
    assert_eq!(whole(0).powf(seven_tenths), whole(0));
    assert_eq!(whole(-3).powf(seven_tenths), whole(0));
    assert_eq!(billionths(1).powf(seven_tenths), billionths(501));
}

#[test]
fn powers_grow_with_their_base_and_lie_between_it_and_one() {
    let exponent = make_hundredths(70);
    let mut last = whole(0);
    for hundredth in 1i64..=1100 {
        let base: Fixed = make_hundredths(hundredth);
        let power = base.powf(exponent);
        assert!(last.le(power));
        assert!(power.le(base.max(whole(1))));
        assert!(base.min(whole(1)).le(power.add(billionths(1))));
        last = power;
    }
}

#[test]
fn roots_are_whole_roots() {
    // 2 * 10^13 parts of 10^13, to the power of one half.
    assert_eq!(find_fraction_power(20_000_000_000_000, 500_000_000), 14_142_135_623_730);
    assert_eq!(find_fraction_power(20_000_000_000_000, 0), FINE);
    assert_eq!(find_fraction_power(0, 500_000_000), 0);
}

#[test]
fn texts_are_rounded() {
    assert_eq!(Fixed::ratio(97, 100).to_fixed(1), "1.0");
    assert_eq!(Fixed::ratio(94, 100).to_fixed(1), "0.9");
    assert_eq!(Fixed::ratio(31_999, 1000).to_fixed(1), "32.0");
    assert_eq!(Fixed::ratio(31_999, 1000).to_fixed(0), "32");
    assert_eq!(Fixed::ratio(31_949, 1000).to_fixed(1), "31.9");
    assert_eq!(Fixed::ratio(-1, 4).to_fixed(2), "-0.25");
    assert_eq!(whole(5).to_fixed(2), "5.00");
    assert_eq!(billionths(7).to_fixed(11), "0.00000000700");
    assert_eq!(billionths(i64::MIN).to_fixed(0), "-9223372037");
    assert_eq!(billionths(i64::MAX).to_fixed(9), "9223372036.854775807");
}

#[test]
fn texts_are_those_of_floating_point() {
    // Values that both number types hold exactly, halfway between two texts or not.
    for eighths in -40i64..=40 {
        for places in 0usize..=3 {
            let text = Fixed::ratio(eighths, 8).to_fixed(places);
            assert_eq!(text, format!("{:.*}", places, eighths as f64 / 8.0));
        }
    }
}

#[test]
fn results_are_never_turned_round() {
    let samples: Vec<Fixed> = vec![
        billionths(0),
        billionths(1),
        billionths(333_333_333),
        whole(1),
        Fixed::ratio(7, 3),
        whole(1000),
        billionths(i64::MAX),
    ];
    for (i, &a) in samples.iter().enumerate() {
        for &b in &samples[i..] {
            for (k, &c) in samples.iter().enumerate() {
                for &d in &samples[k..] {
                    assert!(a.add(c).le(b.add(d)));
                    assert!(a.sub(d).le(b.sub(c)));
                    assert!(a.mul(c).le(b.mul(d)));
                    if whole(0).lt(c) {
                        assert!(a.div(d).le(b.div(c)));
                    }
                }
            }
        }
    }
}

#[test]
fn a_year_in_fixed_point() {
    let mut here: World<Fixed> = create_demo_world();
    for _ in 0usize..12 {
        here.tick_month(|n: usize| {
            vec![CargoRoll { incident: make_whole(1), loss_fraction: make_whole(0) }; n]
        });
        assert!(here.money_conserved());
    }
    assert_eq!(here.month, 12);
    assert!(total_money(&here).sub(whole(6500)).abs().lt(make_hundredths(1)));
}

#[test]
fn rounding_makes_no_money() {
    let mut here: World<Fixed> = create_demo_world();
    for _ in 0usize..12 {
        let before = total_money(&here);
        here.tick_month(|n: usize| {
            vec![CargoRoll { incident: make_whole(0), loss_fraction: Fixed::ratio(1, 3) }; n]
        });
        let after = total_money(&here);
        assert!(after.le(before));
        // No month of the demonstration moves a million on arrivals.
        assert!(before.sub(after).lt(Fixed::ratio(1, 1000)));
    }
}

#[test]
fn interest_is_rounded_down() {
    let mut here: World<Fixed> = create_demo_world();
    here.settlements[0].money = billionths(-1_000_000_049);
    here.settlements[1].money = whole(1);
    here.settlements[2].money = whole(2);
    here.service_debt_interest();
    // A fiftieth of the debt, less the part of a billionth; and thirds of it.
    assert_eq!(here.settlements[0].money, billionths(-1_020_000_049));
    assert_eq!(here.settlements[1].money, billionths(1_006_666_666));
    assert_eq!(here.settlements[2].money, billionths(2_013_333_333));
}

#[test]
fn prices_move_towards_their_targets() {
    let mut here: World<Fixed> = create_demo_world();
    here.settlements[0].stockpiles.insert(Good::Food, whole(0));
    here.update_prices();
    // Empty stores call for ten times the want: 10 * 10^0.7 = 50.118...
    assert_eq!(here.settlements[0].prices.get(Good::Food), Some(billionths(20_029_680_840)));
}
