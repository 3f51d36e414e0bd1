//! What always holds of settlements, their prices, and the news of them.
//!
//! Laws that only compare, add and subtract hold within the range of the number
//! type: `val` reads each number as a real, and the results that matter lie between
//! `-limit` and `limit`.  Laws that multiply hold up to so many units of rounding, a
//! unit being zero for arithmetic that loses nothing.

use crate::finance::{
    debited, payable, LOCAL_SPEND_PER_CAPACITY_PERCENT, TRADER_OPERATING_RESERVE,
    UPKEEP_PER_CAPACITY_PERCENT,
};
use crate::goods::{base_price, Good};
use crate::market::{
    asked, neighbors, next_price, rumor_noise, rumor_seed, scarcity, target_price, wanted_stock,
    EMPTY_STOCK_PERCENT, MAX_SCARCITY_PERCENT, MIN_SCARCITY_PERCENT, PRICE_ADJUSTMENT_PERCENT,
    PRICE_ELASTICITY_PERCENT, RUMOR_NOISE_PERCENT,
};
use crate::number::{
    as_real, fits, hundredths, keeps_order, lemma_product, lemma_products_in_order,
    lemma_quotient, linear_within, rounds_down, whole, Number,
};
use crate::production::{recovered_scale, PRODUCTION_RECOVERY_PERCENT};
use crate::route::{Route, FAMILIARITY_PERCENT};
use crate::settlement::{
    austere_share, Settlement, SettlementId, MAX_AUSTERITY_PERCENT, MAX_PROSPERITY_PERCENT,
    PROSPERITY_THRESHOLD,
};
use crate::trader::TraderId;
use crate::world::WorldModel;
use vstd::prelude::*;

verus! {

/// Law: a settlement pays a bill in full or up to its borrowing limit, and never
/// goes below that limit: it pays the smaller of the bill and what it can spend.
pub proof fn law_debit_respects_credit<N: Number>(
    val: spec_fn(N) -> real,
    limit: real,
    settlement: Settlement<N>,
    amount: N,
)
    requires
        linear_within(val, limit),
        fits(limit, val(settlement.money)),
        fits(limit, val(settlement.borrowing_limit())),
        fits(limit, val(settlement.money) + val(settlement.borrowing_limit())),
        val(amount) >= 0real,
    ensures
        0real <= val(payable(settlement, amount)) <= val(amount),
        val(settlement.money) - val(amount) >= -val(settlement.borrowing_limit()) ==> val(
            payable(settlement, amount),
        ) == val(amount),
        val(settlement.money) >= -val(settlement.borrowing_limit()) ==> val(
            debited(settlement, amount).money,
        ) >= -val(settlement.borrowing_limit()),
        val(settlement.money) < -val(settlement.borrowing_limit()) ==> val(
            debited(settlement, amount).money,
        ) == val(settlement.money),
        val(settlement.money) < 0real || val(settlement.money) + val(settlement.borrowing_limit())
            >= 0real ==> val(payable(settlement, amount)) == if val(amount) <= val(
            settlement.buying_power(),
        ) {
            val(amount)
        } else {
            val(settlement.buying_power())
        },
{
    assert(val(whole::<N>(0)) == 0real);
}

/// Law: a trader pays no more upkeep than they have, and none where they are in
/// debt; nobody pays a trader for keeping their carts.
pub proof fn law_upkeep_is_paid_by_the_trader<N: Number>(
    val: spec_fn(N) -> real,
    limit: real,
    model: WorldModel<N>,
    trader: int,
)
    requires
        linear_within(val, limit),
        limit >= 0real,
        val(
            model.traders[trader].trade_capacity.product(hundredths(UPKEEP_PER_CAPACITY_PERCENT)),
        ) >= 0real,
    ensures
        val(model.upkeep(trader)) >= 0real,
        val(model.traders[trader].money) <= 0real ==> val(model.upkeep(trader)) == 0real,
        val(model.traders[trader].money) >= 0real ==> val(model.upkeep(trader)) <= val(
            model.traders[trader].money,
        ),
        val(model.upkeep(trader)) <= val(
            model.traders[trader].trade_capacity.product(hundredths(UPKEEP_PER_CAPACITY_PERCENT)),
        ),
{
    assert(val(whole::<N>(0)) == 0real);
}

/// Law: what a trader spends where they are comes out of what lies above the
/// operating reserve.
pub proof fn law_reserve_is_kept<N: Number>(
    val: spec_fn(N) -> real,
    limit: real,
    model: WorldModel<N>,
    trader: int,
)
    requires
        linear_within(val, limit),
        limit >= 400real,
        fits(limit, val(model.traders[trader].money)),
        fits(limit, val(model.traders[trader].money) - 400real),
        val(model.traders[trader].trade_capacity.product(
            hundredths(LOCAL_SPEND_PER_CAPACITY_PERCENT),
        )) >= 0real,
    ensures
        val(model.local_spending(trader)) >= 0real,
        val(model.traders[trader].money) <= 400real ==> val(model.local_spending(trader)) == 0real,
        val(model.traders[trader].money) >= 400real ==> val(model.traders[trader].money) - val(
            model.local_spending(trader),
        ) >= 400real,
{
    assert(val(whole::<N>(TRADER_OPERATING_RESERVE)) == 400real);
    assert(val(whole::<N>(0)) == 0real);
}

/// Law: debt stress lies between zero and one.
pub proof fn law_stress_is_a_share<N: Number>(
    val: spec_fn(N) -> real,
    limit: real,
    settlement: Settlement<N>,
)
    requires
        linear_within(val, limit),
        limit >= 1real,
    ensures
        0real <= val(settlement.stress()) <= 1real,
        val(settlement.money) >= 0real ==> val(settlement.stress()) == 0real,
{
    assert(val(whole::<N>(0)) == 0real && val(whole::<N>(1)) == 1real);
}

/// Law: debt stress is the used part of the borrowing limit, rounded down by at most
/// a unit; all of it where more than the limit is owed or nothing can be borrowed.
pub proof fn law_stress_is_the_used_credit<N: Number>(
    val: spec_fn(N) -> real,
    limit: real,
    unit: real,
    settlement: Settlement<N>,
)
    requires
        linear_within(val, limit),
        rounds_down(val, limit, unit),
        keeps_order(val),
        limit >= 1real,
        fits(limit, val(settlement.money)),
        val(settlement.money) < 0real,
    ensures
        ({
            let (debt, credit) = (-val(settlement.money), val(settlement.borrowing_limit()));
            &&& 0real < credit && debt <= credit ==> debt / credit - unit <= val(
                settlement.stress(),
            ) <= debt / credit
            &&& credit <= 0real || debt >= credit ==> val(settlement.stress()) == 1real
        }),
{
    let (debt, credit) = (-val(settlement.money), val(settlement.borrowing_limit()));
    let (owed, most) = (settlement.money.opposite(), settlement.borrowing_limit());
    assert(val(whole::<N>(0)) == 0real && val(whole::<N>(1)) == 1real);
    if credit > 0real && debt <= credit {
        assert(0real < debt / credit <= 1real) by (nonlinear_arith)
            requires
                0real < debt <= credit,
        ;
        lemma_quotient(val, limit, unit, owed, most);
        if debt == credit {
            assert(debt / credit == 1real) by (nonlinear_arith)
                requires
                    debt == credit,
                    credit > 0real,
            ;
            assert(as_real(1) == 1real);
        }
    } else if credit > 0real {
        assert(credit / credit == 1real) by (nonlinear_arith)
            requires
                credit > 0real,
        ;
        assert(as_real(1) == 1real);
        lemma_quotient(val, limit, unit, most, most);
        reveal(keeps_order);
        assert(val(most.quotient(most)) <= val(owed.quotient(most)));
    }
}

/// Law: of two settlements with the same production, the one with less money is
/// under no less stress.
pub proof fn law_stress_grows_with_debt<N: Number>(
    val: spec_fn(N) -> real,
    limit: real,
    poorer: Settlement<N>,
    richer: Settlement<N>,
)
    requires
        linear_within(val, limit),
        keeps_order(val),
        limit >= 1real,
        poorer.production == richer.production,
        val(poorer.money) <= val(richer.money),
    ensures
        val(poorer.stress()) >= val(richer.stress()),
{
    law_stress_is_a_share(val, limit, poorer);
    law_stress_is_a_share(val, limit, richer);
    assert(val(whole::<N>(0)) == 0real && val(whole::<N>(1)) == 1real);
    if val(richer.money) < 0real {
        reveal(keeps_order);
        let most = richer.borrowing_limit();
        assert(val(whole::<N>(0).opposite()) == 0real);
        assert(0real <= val(richer.money.opposite()) <= val(poorer.money.opposite()));
        if val(most) > 0real {
            assert(val(richer.money.opposite().quotient(most)) <= val(
                poorer.money.opposite().quotient(most),
            ));
        }
    }
}

/// What a settlement that is not under stress asks for, as a share of its need.
pub open spec fn prosperous_share(money: real) -> real {
    if money <= 2500real {
        1real
    } else if money <= 5000real {
        1real + (money - 2500real) / 2500real / 4real
    } else {
        5real / 4real
    }
}

/// A settlement in debt.
proof fn lemma_austere_share<N: Number>(
    val: spec_fn(N) -> real,
    limit: real,
    unit: real,
    settlement: Settlement<N>,
)
    requires
        linear_within(val, limit),
        rounds_down(val, limit, unit),
        limit >= 1real,
    ensures
        ({
            let left = 1real - val(settlement.stress()) / 2real;
            let share = val(austere_share(settlement.stress()));
            left <= share <= left + unit && share <= 1real
        }),
        val(settlement.money) >= 0real ==> val(austere_share(settlement.stress())) == 1real,
{
    law_stress_is_a_share(val, limit, settlement);
    let stress = val(settlement.stress());
    let half = val(hundredths::<N>(MAX_AUSTERITY_PERCENT));
    assert(half * 100real == 50real);
    assert(half * stress == stress / 2real) by (nonlinear_arith)
        requires
            half * 100real == 50real,
    ;
    lemma_product(val, limit, unit, hundredths::<N>(MAX_AUSTERITY_PERCENT), settlement.stress());
    assert(val(whole::<N>(1)) == 1real);
    assert(as_real(0) == 0real);
}

/// Law: a settlement in debt asks for its need less half of its stress; one that
/// owes nothing asks for its need up to a treasury of 2500, for a share that grows
/// evenly from there, and for five quarters from 5000 on.  Rounding costs at most
/// three units.
pub proof fn law_appetite_follows_the_treasury<N: Number>(
    val: spec_fn(N) -> real,
    limit: real,
    unit: real,
    settlement: Settlement<N>,
)
    requires
        linear_within(val, limit),
        rounds_down(val, limit, unit),
        keeps_order(val),
        limit >= 2500real,
        fits(limit, val(settlement.money)),
    ensures
        ({
            let left = 1real - val(settlement.stress()) / 2real;
            val(settlement.money) < 0real ==> left <= val(settlement.appetite()) <= left + unit
        }),
        0real <= val(settlement.money) <= 2500real ==> val(settlement.appetite()) == 1real,
        val(settlement.money) >= 0real ==> prosperous_share(val(settlement.money)) - 3real * unit
            <= val(settlement.appetite()) <= prosperous_share(val(settlement.money)),
        val(settlement.money) < 0real ==> 1real / 2real <= val(settlement.appetite()) <= 1real,
        val(settlement.money) >= 0real ==> 1real <= val(settlement.appetite()) <= 5real / 4real,
{
    law_stress_is_a_share(val, limit, settlement);
    lemma_austere_share(val, limit, unit, settlement);
    let one = whole::<N>(1);
    let threshold = whole::<N>(PROSPERITY_THRESHOLD);
    assert(val(threshold) == 2500real && val(one) == 1real);
    assert(as_real(1) == 1real && 1real * 1real == 1real) by (nonlinear_arith);
    lemma_product(val, limit, unit, one, one);
    let money = val(settlement.money);
    if money > 2500real {
        let above = settlement.money.difference(threshold);
        assert(val(above) == money - 2500real);
        let part = (money - 2500real) / 2500real;
        assert(val(above) / val(threshold) == part) by (nonlinear_arith)
            requires
                val(above) == money - 2500real,
                val(threshold) == 2500real,
                part == (money - 2500real) / 2500real,
        ;
        lemma_quotient(val, limit, unit, above, threshold);
        let ratio = above.quotient(threshold);
        let surplus = ratio.smaller(one);
        let quarter = hundredths::<N>(MAX_PROSPERITY_PERCENT);
        assert(val(quarter) * 100real == 25real);
        assert(val(surplus) * val(quarter) == val(surplus) / 4real) by (nonlinear_arith)
            requires
                val(quarter) * 100real == 25real,
        ;
        lemma_product(val, limit, unit, surplus, quarter);
        let more = surplus.product(quarter);
        let bonus = one.sum(more);
        assert(val(bonus) == 1real + val(more));
        let austere = austere_share(settlement.stress());
        assert(val(austere) * val(bonus) == val(bonus)) by (nonlinear_arith)
            requires
                val(austere) == 1real,
        ;
        lemma_product(val, limit, unit, austere, bonus);
        assert(val(one.product(one)) <= val(austere.product(bonus))) by {
            reveal(keeps_order);
        }
        assert(settlement.appetite() == austere.product(bonus));
    }
}

/// Law: of two settlements with the same production, the one with more money asks
/// for no smaller a share of its need.
pub proof fn law_appetite_grows_with_money<N: Number>(
    val: spec_fn(N) -> real,
    limit: real,
    unit: real,
    poorer: Settlement<N>,
    richer: Settlement<N>,
)
    requires
        linear_within(val, limit),
        rounds_down(val, limit, unit),
        keeps_order(val),
        limit >= 2500real,
        fits(limit, val(poorer.money)),
        fits(limit, val(richer.money)),
        poorer.production == richer.production,
        val(poorer.money) <= val(richer.money),
    ensures
        val(poorer.appetite()) <= val(richer.appetite()),
{
    law_stress_grows_with_debt(val, limit, poorer, richer);
    law_appetite_follows_the_treasury(val, limit, unit, poorer);
    law_appetite_follows_the_treasury(val, limit, unit, richer);
    let one = whole::<N>(1);
    let threshold = whole::<N>(PROSPERITY_THRESHOLD);
    assert(val(threshold) == 2500real && val(one) == 1real);
    law_stress_is_a_share(val, limit, poorer);
    law_stress_is_a_share(val, limit, richer);
    if val(richer.money) < 0real {
        let half = hundredths::<N>(MAX_AUSTERITY_PERCENT);
        assert(val(half) * 100real == 50real);
        reveal(keeps_order);
        assert(val(half.product(richer.stress())) <= val(half.product(poorer.stress())));
        assert(val(austere_share(poorer.stress())) <= val(austere_share(richer.stress())));
    } else if val(poorer.money) > 2500real {
        lemma_austere_share(val, limit, unit, poorer);
        lemma_austere_share(val, limit, unit, richer);
        let quarter = hundredths::<N>(MAX_PROSPERITY_PERCENT);
        assert(val(quarter) * 100real == 25real);
        let (a, b) = (poorer.money.difference(threshold), richer.money.difference(threshold));
        assert(0real <= val(a) <= val(b));
        let (c, d) = (
            a.quotient(threshold).smaller(one),
            b.quotient(threshold).smaller(one),
        );
        assert(0real <= val(c) <= val(d)) by {
            reveal(keeps_order);
            assert(0real <= val(a.quotient(threshold)) <= val(b.quotient(threshold)));
        }
        let (e, f) = (one.sum(c.product(quarter)), one.sum(d.product(quarter)));
        assert(0real <= val(e) <= val(f)) by {
            reveal(keeps_order);
            assert(0real <= val(c.product(quarter)) <= val(d.product(quarter)));
            assert(val(one.sum(whole(0))) == 1real);
        }
        assert(val(austere_share(poorer.stress()).product(e)) <= val(
            austere_share(richer.stress()).product(f),
        )) by {
            reveal(keeps_order);
        }
    }
}

/// Law: production recovers a fifth at a time and never overshoots full output.
pub proof fn law_recovery_is_gradual<N: Number>(val: spec_fn(N) -> real, limit: real, scale: N)
    requires
        linear_within(val, limit),
        limit >= 2real,
        fits(limit, val(scale)),
    ensures
        val(scale) >= 1real ==> val(recovered_scale(Some(scale))) == val(scale),
        val(scale) <= 1real ==> val(scale) <= val(recovered_scale(Some(scale))) <= 1real,
        val(scale) <= 4real / 5real ==> val(recovered_scale(Some(scale))) == val(scale) + 1real
            / 5real,
        val(recovered_scale(None::<N>)) == 1real,
{
    assert(val(whole::<N>(1)) == 1real);
    assert(val(hundredths::<N>(PRODUCTION_RECOVERY_PERCENT)) * 100real == 20real);
}

/// Law: a trader who is at one end of a route runs seven tenths of its hazard, rounded
/// down by at most a unit.
pub proof fn law_familiar_routes_are_safer<N: Number>(
    val: spec_fn(N) -> real,
    limit: real,
    unit: real,
    route: Route<N>,
    place: SettlementId,
)
    requires
        linear_within(val, limit),
        rounds_down(val, limit, unit),
        limit >= 1real,
        fits(limit, val(route.monthly_incident_rate)),
    ensures
        route.touches(place) ==> {
            let share = val(route.monthly_incident_rate) * (7real / 10real);
            share - unit <= val(route.hazard_from(place)) <= share
        },
        !route.touches(place) ==> route.hazard_from(place) == route.monthly_incident_rate,
        val(route.monthly_incident_rate) > 0real && route.touches(place) ==> 0real <= val(
            route.hazard_from(place),
        ) < val(route.monthly_incident_rate),
{
    let factor = hundredths::<N>(FAMILIARITY_PERCENT);
    let rate = val(route.monthly_incident_rate);
    assert(val(factor) * 100real == 70real);
    assert(rate * val(factor) == rate * (7real / 10real)) by (nonlinear_arith)
        requires
            val(factor) * 100real == 70real,
    ;
    lemma_product(val, limit, unit, route.monthly_incident_rate, factor);
}

/// Law: at either end of a route its hazard is seven tenths of what it is elsewhere.
pub proof fn law_hazard_in_numbers<N: Number>(
    val: spec_fn(N) -> real,
    limit: real,
    unit: real,
    route: Route<N>,
    place: SettlementId,
)
    requires
        linear_within(val, limit),
        rounds_down(val, limit, unit),
        limit >= 1real,
        fits(limit, val(route.monthly_incident_rate)),
    ensures
        place == route.a || place == route.b ==> {
            let share = val(route.monthly_incident_rate) * 7real / 10real;
            share - unit <= val(route.hazard_from(place)) <= share
        },
        place != route.a && place != route.b ==> route.hazard_from(place)
            == route.monthly_incident_rate,
{
    law_familiar_routes_are_safer(val, limit, unit, route, place);
}

/// Law: the neighbors of a place are the other ends of the routes that have it at one end,
/// in the order of the routes, once for each of them.
pub proof fn law_neighbors_follow_the_routes<N: Number>(
    model: WorldModel<N>,
    route: Route<N>,
    place: SettlementId,
)
    ensures
        ({
            let none = WorldModel { routes: Seq::empty(), ..model };
            let more = WorldModel { routes: model.routes.push(route), ..model };
            &&& none.all_neighbors(place).len() == 0
            &&& more.all_neighbors(place) == if route.a == place {
                model.all_neighbors(place).push(route.b)
            } else if route.b == place {
                model.all_neighbors(place).push(route.a)
            } else {
                model.all_neighbors(place)
            }
        }),
{
    lemma_neighbors_before(model.routes, model.routes.push(route), place, model.routes.len() as int);
}

proof fn lemma_neighbors_before<N: Number>(
    routes: Seq<Route<N>>,
    more: Seq<Route<N>>,
    place: SettlementId,
    n: int,
)
    requires
        0 <= n <= routes.len() <= more.len(),
        forall|i: int| 0 <= i < routes.len() ==> more[i] == routes[i],
    ensures
        neighbors(more, place, n) == neighbors(routes, place, n),
    decreases n,
{
    if n > 0 {
        lemma_neighbors_before(routes, more, place, n - 1);
    }
}

/// Law: a price moves a quarter of the way towards its target; rounding costs at most
/// two units.
pub proof fn law_price_moves_towards_target<N: Number>(
    val: spec_fn(N) -> real,
    limit: real,
    unit: real,
    settlement: Settlement<N>,
    good: Good,
)
    requires
        linear_within(val, limit),
        rounds_down(val, limit, unit),
        limit >= 1real,
        fits(limit - 2real * unit, val(asked(settlement, good))),
        fits(limit - 2real * unit, val(target_price(settlement, good))),
    ensures
        ({
            let (p, t) = (val(asked(settlement, good)), val(target_price(settlement, good)));
            let q = val(next_price(settlement, good));
            &&& p + (t - p) / 4real - 2real * unit <= q <= p + (t - p) / 4real
            &&& p <= t ==> p - 2real * unit <= q <= t
            &&& p >= t ==> p >= q >= t - 2real * unit
            &&& p >= 0real && t >= 0real ==> q >= 0real
        }),
{
    let (price, target) = (asked(settlement, good), target_price(settlement, good));
    let (p, t) = (val(price), val(target));
    let speed = hundredths::<N>(PRICE_ADJUSTMENT_PERCENT);
    assert(val(speed) * 100real == 25real && val(whole::<N>(1)) == 1real);
    let rest = whole::<N>(1).difference(speed);
    assert(val(rest) == 1real - val(speed));
    assert(p * val(rest) == p * 3real / 4real && t * val(speed) == t / 4real) by (nonlinear_arith)
        requires
            val(speed) * 100real == 25real,
            val(rest) == 1real - val(speed),
    ;
    assert(0real <= unit) by {
        reveal(rounds_down);
    }
    lemma_product(val, limit, unit, price, rest);
    lemma_product(val, limit, unit, target, speed);
}

/// The ends of the band in which prices move: the base price, as scarce and as
/// plentiful as goods are taken to be.
pub open spec fn lowest_price<N: Number>(good: Good) -> N {
    base_price::<N>(good).product(
        hundredths::<N>(MIN_SCARCITY_PERCENT).power(hundredths(PRICE_ELASTICITY_PERCENT)),
    )
}

pub open spec fn highest_price<N: Number>(good: Good) -> N {
    base_price::<N>(good).product(
        hundredths::<N>(MAX_SCARCITY_PERCENT).power(hundredths(PRICE_ELASTICITY_PERCENT)),
    )
}

/// Law: targets lie in the band of prices, at its upper end where the stores are
/// empty; the band lies between nearly a quarter and ten times the base price.
pub proof fn law_targets_lie_in_the_band<N: Number>(
    val: spec_fn(N) -> real,
    limit: real,
    unit: real,
    settlement: Settlement<N>,
    good: Good,
)
    requires
        linear_within(val, limit),
        rounds_down(val, limit, unit),
        keeps_order(val),
        limit >= 200real,
    ensures
        ({
            let (low, high) = (val(lowest_price::<N>(good)), val(highest_price::<N>(good)));
            let target = val(target_price(settlement, good));
            let base = val(base_price::<N>(good));
            &&& base / 4real - base * unit - unit <= low <= target <= high <= base * 10real
            &&& 0real <= low
            &&& val(settlement.stockpiles.at_or(good, whole(0))) <= 1real / 100real ==> target
                == high
        }),
{
    let rate = scarcity(settlement, good);
    let e = hundredths::<N>(PRICE_ELASTICITY_PERCENT);
    let (least, most) = (hundredths::<N>(MIN_SCARCITY_PERCENT), hundredths::<N>(
        MAX_SCARCITY_PERCENT,
    ));
    assert(val(least) * 100real == 25real && val(most) * 100real == 1000real && val(e) * 100real
        == 70real);
    assert(val(hundredths::<N>(EMPTY_STOCK_PERCENT)) * 100real == 1real);
    assert(0real < val(least) <= val(rate) <= val(most));
    let (a, b, c) = (least.power(e), rate.power(e), most.power(e));
    let base = base_price::<N>(good);
    assert(8real <= val(base) <= 20real);
    assert(0real <= val(a) <= val(b) <= val(c) && val(c) <= 10real) by {
        reveal(keeps_order);
    }
    assert(1real / 4real - unit <= val(a)) by {
        reveal(rounds_down);
    }
    assert(0real <= val(base.product(a)) <= val(base.product(b)) && val(base.product(b)) <= val(
        base.product(c),
    )) by {
        reveal(keeps_order);
    }
    lemma_products_in_order(val(base), val(base), val(a), 10real);
    lemma_products_in_order(val(base), val(base), val(c), 10real);
    lemma_product(val, limit, unit, base, a);
    lemma_product(val, limit, unit, base, c);
    let (x, y) = (val(base), val(a));
    assert(x * y >= x / 4real - x * unit) by (nonlinear_arith)
        requires
            x >= 0real,
            y >= 1real / 4real - unit,
    ;
    if val(settlement.stockpiles.at_or(good, whole(0))) <= 1real / 100real {
        assert(rate == most);
    }
}

/// Law: a price that lies in the band, or up to eight units below it, stays there.
pub proof fn law_prices_stay_in_their_band<N: Number>(
    val: spec_fn(N) -> real,
    limit: real,
    unit: real,
    settlement: Settlement<N>,
    good: Good,
)
    requires
        linear_within(val, limit),
        rounds_down(val, limit, unit),
        keeps_order(val),
        limit >= 200real + 10real * unit,
    ensures
        ({
            let (low, high) = (val(lowest_price::<N>(good)), val(highest_price::<N>(good)));
            let (price, next) = (val(asked(settlement, good)), val(next_price(settlement, good)));
            low - 8real * unit <= price <= high ==> low - 8real * unit <= next <= high
        }),
{
    assert(0real <= unit) by {
        reveal(rounds_down);
    }
    law_targets_lie_in_the_band(val, limit, unit, settlement, good);
    let (low, high) = (val(lowest_price::<N>(good)), val(highest_price::<N>(good)));
    assert(val(base_price::<N>(good)) <= 20real);
    if low - 8real * unit <= val(asked(settlement, good)) <= high {
        law_price_moves_towards_target(val, limit, unit, settlement, good);
    }
}

/// Law: prices stay above zero once they are not below it, since every price
/// moves towards a target that is above zero.
pub proof fn law_prices_stay_positive<N: Number>(
    val: spec_fn(N) -> real,
    limit: real,
    unit: real,
    settlement: Settlement<N>,
    good: Good,
)
    requires
        linear_within(val, limit),
        rounds_down(val, limit, unit),
        keeps_order(val),
        limit >= 201real,
        unit <= 1real / 10real,
        0real <= val(asked(settlement, good)) <= limit - 2real * unit,
    ensures
        val(target_price(settlement, good)) > 0real,
        val(next_price(settlement, good)) > 0real,
{
    assert(0real <= unit) by {
        reveal(rounds_down);
    }
    law_targets_lie_in_the_band(val, limit, unit, settlement, good);
    let base = val(base_price::<N>(good));
    assert(8real <= base <= 20real);
    assert(base * unit <= base / 10real) by (nonlinear_arith)
        requires
            base >= 0real,
            unit <= 1real / 10real,
    ;
    law_price_moves_towards_target(val, limit, unit, settlement, good);
}

/// Law: of two settlements that differ in stock, the one with more of a good does
/// not set a higher price for it.
pub proof fn law_more_stock_never_raises_a_price<N: Number>(
    val: spec_fn(N) -> real,
    limit: real,
    shorter: Settlement<N>,
    fuller: Settlement<N>,
    good: Good,
)
    requires
        linear_within(val, limit),
        keeps_order(val),
        limit >= 20real,
        shorter.consumption == fuller.consumption,
        shorter.prices == fuller.prices,
        val(shorter.stockpiles.at_or(good, whole(0))) <= val(
            fuller.stockpiles.at_or(good, whole(0)),
        ),
    ensures
        val(target_price(fuller, good)) <= val(target_price(shorter, good)),
        val(next_price(fuller, good)) <= val(next_price(shorter, good)),
{
    let e = hundredths::<N>(PRICE_ELASTICITY_PERCENT);
    let (x, y) = (scarcity(fuller, good), scarcity(shorter, good));
    let want = wanted_stock(shorter, good);
    let (s, f) = (
        shorter.stockpiles.at_or(good, whole(0)),
        fuller.stockpiles.at_or(good, whole(0)),
    );
    let (least, most) = (hundredths::<N>(MIN_SCARCITY_PERCENT), hundredths::<N>(
        MAX_SCARCITY_PERCENT,
    ));
    assert(val(least) * 100real == 25real && val(most) * 100real == 1000real && val(e) * 100real
        == 70real);
    assert(val(hundredths::<N>(EMPTY_STOCK_PERCENT)) * 100real == 1real);
    let speed = hundredths::<N>(PRICE_ADJUSTMENT_PERCENT);
    assert(val(speed) * 100real == 25real);
    assert(0real < val(x) <= val(y)) by {
        if val(s) > 1real / 100real {
            reveal(keeps_order);
            if val(want) >= 0real {
                assert(val(want.quotient(f)) <= val(want.quotient(s)));
            } else {
                assert(val(want.quotient(f)) <= 0real && val(want.quotient(s)) <= 0real);
            }
        }
    }
    let base = base_price::<N>(good);
    assert(0real <= val(base));
    let (a, b) = (x.power(e), y.power(e));
    assert(0real <= val(a) <= val(b)) by {
        reveal(keeps_order);
    }
    let (c, d) = (base.product(a), base.product(b));
    assert(0real <= val(c) <= val(d)) by {
        reveal(keeps_order);
    }
    let rest = asked(shorter, good).product(whole::<N>(1).difference(speed));
    assert(val(rest.sum(c.product(speed))) <= val(rest.sum(d.product(speed)))) by {
        reveal(keeps_order);
        assert(val(c.product(speed)) <= val(d.product(speed)));
    }
}

/// Law: a rumor is wrong by at most a tenth of the price; rounding costs two units,
/// and as many for each one of the price.
pub proof fn law_rumor_is_nearly_right<N: Number>(
    val: spec_fn(N) -> real,
    limit: real,
    unit: real,
    model: WorldModel<N>,
    trader: TraderId,
    place: SettlementId,
    good: Good,
)
    requires
        linear_within(val, limit),
        rounds_down(val, limit, unit),
        keeps_order(val),
        limit >= 100real,
        unit <= 1real / 10real,
        0real <= val(model.price_at(place, good)) * (11real / 10real) <= limit,
    ensures
        ({
            let price = val(model.price_at(place, good));
            let told = val(model.rumor(trader, place, good));
            &&& price * (9real / 10real) - 2real * unit * (price + 1real) <= told
            &&& told <= price * (11real / 10real)
        }),
{
    let seed = N::count(rumor_seed(trader, place, good) as usize);
    let hundred = whole::<N>(100);
    let rest = seed.remainder(hundred);
    assert(val(hundred) == 100real);
    assert(val(seed) >= 0real);
    assert(0real <= val(rest) < 100real) by {
        reveal(keeps_order);
    }
    let part = rest.quotient(hundred);
    assert(0real <= val(rest) / val(hundred) < 1real) by (nonlinear_arith)
        requires
            val(hundred) == 100real,
            0real <= val(rest) < 100real,
    ;
    lemma_quotient(val, limit, unit, rest, hundred);
    let half = hundredths::<N>(50);
    let two = whole::<N>(2);
    let tenth = hundredths::<N>(RUMOR_NOISE_PERCENT);
    assert(val(half) * 100real == 50real && val(two) == 2real && val(tenth) * 100real == 10real);
    let off = part.difference(half);
    assert(val(off) == val(part) - 1real / 2real);
    assert(val(off) * val(two) == 2real * val(part) - 1real) by (nonlinear_arith)
        requires
            val(off) == val(part) - 1real / 2real,
            val(two) == 2real,
    ;
    lemma_product(val, limit, unit, off, two);
    let twice = off.product(two);
    assert(val(twice) * val(tenth) == val(twice) / 10real) by (nonlinear_arith)
        requires
            val(tenth) * 100real == 10real,
    ;
    lemma_product(val, limit, unit, twice, tenth);
    let noise = twice.product(tenth);
    assert(noise == rumor_noise::<N>(trader, place, good));
    assert(-1real / 10real - 2real * unit <= val(noise) <= 1real / 10real);
    let price = model.price_at(place, good);
    let factor = whole::<N>(1).sum(noise);
    assert(val(factor) == 1real + val(noise));
    let (p, w) = (val(price), val(factor));
    assert(p * (9real / 10real) - 2real * unit * p <= p * w <= p * (11real / 10real)
        && 0real <= p * w) by (nonlinear_arith)
        requires
            p >= 0real,
            9real / 10real - 2real * unit <= w <= 11real / 10real,
            0real <= w,
    ;
    lemma_product(val, limit, unit, price, factor);
    assert(2real * unit * (p + 1real) == 2real * unit * p + 2real * unit) by (nonlinear_arith);
}

/// Law: after the month's news, a trader remembers the prices of their location
/// and of their home base exactly as they are.
pub proof fn law_news_is_fresh_where_seen<N: Number>(
    model: WorldModel<N>,
    trader: TraderId,
    place: SettlementId,
    good: Good,
)
    requires
        trader < model.traders.len(),
        model.traders[trader as int].sees(place),
    ensures
        model.after_news().traders[trader as int].known_prices.contains_key((place, good)),
        model.after_news().traders[trader as int].known_prices[(place, good)] == model.price_at(
            place,
            good,
        ),
        model.after_news().perceived_price(trader, place, good) == model.price_at(place, good),
{
}

/// Law: of a market one hop away from the location or the home base, a trader
/// remembers after the month's news what rumor says of it.
pub proof fn law_news_is_rumor_one_hop_away<N: Number>(
    model: WorldModel<N>,
    trader: TraderId,
    place: SettlementId,
    good: Good,
)
    requires
        trader < model.traders.len(),
        !model.traders[trader as int].sees(place),
        model.all_neighbors(model.traders[trader as int].location).contains(place)
            || model.all_neighbors(model.traders[trader as int].home_base).contains(place),
    ensures
        model.after_news().traders[trader as int].known_prices.contains_key((place, good)),
        model.after_news().traders[trader as int].known_prices[(place, good)] == model.rumor(
            trader,
            place,
            good,
        ),
{
}

/// Law: of markets further away, the month's news leaves a trader's memory as it
/// was.
pub proof fn law_news_stops_after_one_hop<N: Number>(
    model: WorldModel<N>,
    trader: TraderId,
    place: SettlementId,
    good: Good,
)
    requires
        trader < model.traders.len(),
        !model.hears(
            model.traders[trader as int].location,
            model.traders[trader as int].home_base,
            place,
        ),
    ensures
        ({
            let before = model.traders[trader as int].known_prices;
            let after = model.after_news().traders[trader as int].known_prices;
            &&& after.contains_key((place, good)) <==> before.contains_key((place, good))
            &&& before.contains_key((place, good)) ==> after[(place, good)] == before[(
                place,
                good,
            )]
        }),
{
}

/// Being a neighbor is being at the far end of some route.
proof fn lemma_neighbors<N: Number>(
    routes: Seq<Route<N>>,
    place: SettlementId,
    other: SettlementId,
    n: int,
)
    requires
        0 <= n <= routes.len(),
    ensures
        neighbors(routes, place, n).contains(other) <==> exists|i: int|
            0 <= i < n && (#[trigger] routes[i]).touches(place) && routes[i].far_end(place)
                == other,
    decreases n,
{
    if n > 0 {
        lemma_neighbors(routes, place, other, n - 1);
        let before = neighbors(routes, place, n - 1);
        let all = neighbors(routes, place, n);
        if all.contains(other) {
            let k = choose|k: int| 0 <= k < all.len() && all[k] == other;
            if k < before.len() {
                assert(before[k] == other);
            } else {
                assert(routes[n - 1].touches(place) && routes[n - 1].far_end(place) == other);
            }
        }
        if before.contains(other) {
            let k = choose|k: int| 0 <= k < before.len() && before[k] == other;
            assert(all[k] == other);
        }
        if routes[n - 1].touches(place) && routes[n - 1].far_end(place) == other {
            assert(all[all.len() - 1] == other);
        }
    }
}

/// Law: settlements are neighbors of each other or not at all.
pub proof fn law_neighbors_are_mutual<N: Number>(
    model: WorldModel<N>,
    place: SettlementId,
    other: SettlementId,
)
    ensures
        model.all_neighbors(place).contains(other) <==> model.all_neighbors(other).contains(place),
{
    let n = model.routes.len() as int;
    lemma_neighbors(model.routes, place, other, n);
    lemma_neighbors(model.routes, other, place, n);
    if model.all_neighbors(place).contains(other) {
        let i = choose|i: int|
            0 <= i < n && (#[trigger] model.routes[i]).touches(place) && model.routes[i].far_end(
                place,
            ) == other;
        assert(model.routes[i].touches(other) && model.routes[i].far_end(other) == place);
    }
    if model.all_neighbors(other).contains(place) {
        let i = choose|i: int|
            0 <= i < n && (#[trigger] model.routes[i]).touches(other) && model.routes[i].far_end(
                other,
            ) == place;
        assert(model.routes[i].touches(place) && model.routes[i].far_end(place) == other);
    }
}

} // verus!
