//! What prices, the reports of them and the news of them come to, in reals.

use crate::accounts::{
    count_of, lemma_count_add, lemma_count_chain, lemma_count_short, lemma_part_in_chain,
};
use crate::dealing::need_of;
use crate::event::Event;
use crate::figures::{just_below, least, lemma_same_chain, most, worth};
use crate::goods::{base_price, Good};
use crate::laws::{law_price_moves_towards_target, law_targets_lie_in_the_band};
use crate::market::{
    asked, neighbors, next_price, price_report, pricing_report, relative_change, rumor_noise,
    rumor_seed, scarcity, target_price,
};
use crate::number::{
    counts_over, fits, hundredths, keeps_order, lemma_product, lemma_quotient,
    linear_within, rounds_down, whole, Number,
};
use crate::route::Route;
use crate::settlement::{Settlement, SettlementId};
use crate::trader::TraderId;
use crate::world::{chain, WorldModel};
use vstd::prelude::*;

verus! {

/// How scarce a good is: what a month and a half of consumption is to the stock, but no
/// less than a quarter and no more than ten, and ten where there is next to nothing.
pub open spec fn scarcity_of(need: real, stock: real) -> real {
    if stock <= 1real / 100real {
        10real
    } else {
        least(most(need * 3real / 2real / stock, 1real / 4real), 10real)
    }
}

/// Law: the target of a price is the base price times the scarcity, raised to seven
/// tenths as the number type raises it.  Rounding costs a unit for the product, and for the
/// scarcity one unit and as many as a hundredth goes into one.
pub proof fn law_target_in_numbers<N: Number>(
    val: spec_fn(N) -> real,
    limit: real,
    unit: real,
    settlement: Settlement<N>,
    good: Good,
)
    requires
        linear_within(val, limit),
        rounds_down(val, limit, unit),
        keeps_order(val),
        limit >= 200real,
        unit <= 1real / 10real,
        0real <= need_of(val, settlement, good) * 150real <= limit,
    ensures
        exists|rate: N, exponent: N|
            {
                &&& val(exponent) == 7real / 10real
                &&& just_below(
                    scarcity_of(
                        need_of(val, settlement, good),
                        val(settlement.stockpiles.at_or(good, whole(0))),
                    ),
                    val(rate),
                    101real * unit,
                )
                &&& just_below(
                    worth(good) * val(#[trigger] rate.power(exponent)),
                    val(target_price(settlement, good)),
                    unit,
                )
            },
{
    let rate = scarcity(settlement, good);
    let exponent = hundredths::<N>(70);
    let need = settlement.consumption.at_or(good, whole(1));
    let stock = settlement.stockpiles.at_or(good, whole(0));
    assert(val(whole::<N>(1)) == 1real && val(whole::<N>(0)) == 0real);
    assert(0real <= unit) by {
        reveal(rounds_down);
    }
    let (low, high, half_more) = (
        hundredths::<N>(25),
        hundredths::<N>(1000),
        hundredths::<N>(150),
    );
    assert(val(low) * 100real == 25real && val(high) * 100real == 1000real && val(half_more)
        * 100real == 150real && val(exponent) * 100real == 70real);
    assert(val(hundredths::<N>(1)) * 100real == 1real);
    let (n, s) = (val(need), val(stock));
    assert(n == need_of(val, settlement, good));
    if s > 1real / 100real {
        assert(n * val(half_more) == n * 3real / 2real) by (nonlinear_arith)
            requires
                val(half_more) * 100real == 150real,
        ;
        lemma_product(val, limit, unit, need, half_more);
        let want = need.product(half_more);
        let (w, ideal) = (val(want), n * 3real / 2real);
        let (a, b) = (ideal / s, w / s);
        assert(0real <= b <= a && a <= ideal * 100real && a <= b + 100real * unit)
            by (nonlinear_arith)
            requires
                a == ideal / s,
                b == w / s,
                0real <= w <= ideal,
                ideal - unit <= w,
                0real <= unit,
                s > 1real / 100real,
        ;
        lemma_quotient(val, limit, unit, want, stock);
    }
    law_targets_lie_in_the_band(val, limit, unit, settlement, good);
    let power = rate.power(exponent);
    let base = base_price::<N>(good);
    assert(val(whole::<N>(10)) == 10real && val(whole::<N>(8)) == 8real && val(whole::<N>(20))
        == 20real);
    assert(val(base) == worth(good));
    assert(0real <= val(power) <= 10real) by {
        reveal(keeps_order);
    }
    let (x, y) = (val(base), val(power));
    assert(0real <= x * y <= 200real) by (nonlinear_arith)
        requires
            0real <= x <= 20real,
            0real <= y <= 10real,
    ;
    lemma_product(val, limit, unit, base, power);
    assert(target_price(settlement, good) == base.product(power));
}

/// The event reports a new price of `good` at `place`.
pub open spec fn tells_price<N>(place: SettlementId, good: Good) -> spec_fn(Event<N>) -> bool {
    |event: Event<N>|
        event matches Event::PriceChanged { settlement, good: of, .. } && settlement == place && of
            == good
}

proof fn lemma_one_price<N: Number>(
    settlement: Settlement<N>,
    of: Good,
    place: SettlementId,
    good: Good,
)
    ensures
        count_of(price_report(settlement, of), tells_price(place, good)) == if settlement.id
            == place && of == good {
            price_report(settlement, good).len()
        } else {
            0nat
        },
        price_report(settlement, of).len() <= 1,
{
    let told = Event::PriceChanged {
        settlement: settlement.id,
        good: of,
        old_price: asked(settlement, of),
        new_price: next_price(settlement, of),
    };
    lemma_count_short(told, told, tells_price(place, good));
}

proof fn lemma_prices_counted<N: Number>(
    settlement: Settlement<N>,
    place: SettlementId,
    good: Good,
)
    ensures
        count_of(pricing_report(settlement), tells_price(place, good)) == if settlement.id == place {
            price_report(settlement, good).len()
        } else {
            0nat
        },
        settlement.id == place ==> forall|event: Event<N>|
            price_report(settlement, good).contains(event) ==> #[trigger] pricing_report(
                settlement,
            ).contains(event),
{
    let keep = tells_price(place, good);
    let food = price_report(settlement, Good::Food);
    let ore = price_report(settlement, Good::Ore);
    let tools = price_report(settlement, Good::Tools);
    lemma_one_price(settlement, Good::Food, place, good);
    lemma_one_price(settlement, Good::Ore, place, good);
    lemma_one_price(settlement, Good::Tools, place, good);
    lemma_count_add(food, ore, keep);
    lemma_count_add(food + ore, tools, keep);
    let all = pricing_report(settlement);
    let own = price_report(settlement, good);
    assert forall|event: Event<N>| own.contains(event) implies #[trigger] all.contains(event) by {
        let k = choose|k: int| 0 <= k < own.len() && own[k] == event;
        match good {
            Good::Food => {
                assert(all[k] == event);
            },
            Good::Ore => {
                assert(all[food.len() + k] == event);
            },
            Good::Tools => {
                assert(all[food.len() + ore.len() + k] == event);
            },
        }
    }
}

/// Law: every settlement has a new price for every good, a quarter of the way from the old
/// one to the target.  A change of more than a tenth of the old price is reported once,
/// with both prices, and a smaller one is not; only at a tenth itself rounding decides.
/// Prices of next to nothing are not reported.  Nothing else of the settlements changes.
pub proof fn law_price_update_in_numbers<N: Number>(
    val: spec_fn(N) -> real,
    limit: real,
    unit: real,
    model: WorldModel<N>,
    place: SettlementId,
    good: Good,
)
    requires
        linear_within(val, limit),
        rounds_down(val, limit, unit),
        limit >= 2real,
        unit <= 1real / 10real,
        model.numbered(),
        place < model.settlements.len(),
        ({
            let settlement = model.settlements[place as int];
            let (p, t) = (val(asked(settlement, good)), val(target_price(settlement, good)));
            &&& fits(limit - 2real * unit, t)
            &&& 0real <= p <= limit - 2real * unit
            &&& 0real <= t
            &&& p >= val(N::fraction(1, 10000)) ==> t <= limit * p
            &&& val(N::fraction(1, 10000)) > 0real
        }),
    ensures
        ({
            let settlement = model.settlements[place as int];
            let after = model.after_price_update();
            let now = after.settlements[place as int];
            let (old_price, t) = (asked(settlement, good), val(target_price(settlement, good)));
            let p = val(old_price);
            let reports = after.events.skip(model.events.len() as int);
            let told = count_of(reports, tells_price(place, good));
            &&& settlement.prices.at(good) is Some ==> Some(old_price) == settlement.prices.at(good)
            &&& settlement.prices.at(good) is None ==> old_price == base_price::<N>(good)
            &&& now.prices.at(good) is Some
            &&& just_below(p + (t - p) / 4real, val(now.prices.at(good)->0), 2real * unit)
            &&& now == (Settlement { prices: now.prices, ..settlement })
            &&& after.events == model.events + reports
            &&& after.settlements.len() == model.settlements.len()
            &&& told == 1 ==> reports.contains(
                Event::PriceChanged {
                    settlement: place,
                    good,
                    old_price,
                    new_price: now.prices.at(good)->0,
                },
            )
            &&& told <= 1
            &&& p < val(N::fraction(1, 10000)) ==> told == 0
            &&& p >= val(N::fraction(1, 10000)) ==> {
                let change = val(now.prices.at(good)->0) - p;
                &&& change > p / 10real + unit * p ==> told == 1
                &&& change < -p / 10real ==> told == 1
                &&& -p / 10real + unit * p <= change <= p / 10real ==> told == 0
            }
        }),
{
    let settlement = model.settlements[place as int];
    let after = model.after_price_update();
    let n = model.settlements.len() as int;
    let report = |i: int| pricing_report(model.settlements[i]);
    let reports = after.events.skip(model.events.len() as int);
    assert(settlement.id == place);
    assert(reports =~= chain(n, report));
    assert(after.events =~= model.events + reports);
    assert forall|i: int| 0 <= i < n && i != place implies count_of(
        #[trigger] report(i),
        tells_price(place, good),
    ) == 0 by {
        assert(model.settlements[i].id == i);
        lemma_prices_counted(model.settlements[i], place, good);
    }
    lemma_count_chain(n, report, tells_price(place, good), place as int);
    lemma_prices_counted(settlement, place, good);
    lemma_one_price(settlement, good, place, good);
    lemma_part_in_chain(n, report, place as int);
    assert(0real <= unit) by {
        reveal(rounds_down);
    }
    law_price_moves_towards_target(val, limit, unit, settlement, good);
    let (old_price, new_price) = (asked(settlement, good), next_price(settlement, good));
    let (p, q, t) = (val(old_price), val(new_price), val(target_price(settlement, good)));
    let own = price_report(settlement, good);
    if own.len() == 1 {
        assert(own.contains(own[0]));
        assert(report(place as int).contains(own[0]));
    }
    assert(after.settlements[place as int].prices.at(good) == Some(new_price));
    assert(val(hundredths::<N>(10)) * 100real == 10real && val(whole::<N>(0)) == 0real);
    if p >= val(N::fraction(1, 10000)) {
        let step = new_price.difference(old_price);
        let d = q - p;
        assert(val(step) == d);
        let part = d / p;
        assert(part * p == d) by (nonlinear_arith)
            requires
                part == d / p,
                p > 0real,
        ;
        assert(-1real <= part) by (nonlinear_arith)
            requires
                part * p == d,
                d >= -p,
                p > 0real,
        ;
        assert(part <= limit) by (nonlinear_arith)
            requires
                part * p == d,
                d <= limit * p,
                p > 0real,
        ;
        lemma_quotient(val, limit, unit, step, old_price);
        let change = val(step.quotient(old_price));
        assert(relative_change(old_price, new_price) == step.quotient(old_price));
        if d > p / 10real + unit * p {
            assert(part > 1real / 10real + unit) by (nonlinear_arith)
                requires
                    part * p == d,
                    d > p / 10real + unit * p,
                    p > 0real,
            ;
        }
        if d < -p / 10real {
            assert(part < -1real / 10real) by (nonlinear_arith)
                requires
                    part * p == d,
                    d < -p / 10real,
                    p > 0real,
            ;
        }
        if -p / 10real + unit * p <= d <= p / 10real {
            assert(-1real / 10real + unit <= part <= 1real / 10real) by (nonlinear_arith)
                requires
                    part * p == d,
                    -p / 10real + unit * p <= d <= p / 10real,
                    p > 0real,
            ;
        }
        assert(change >= -1real - unit);
        lemma_magnitude(val, limit, relative_change(old_price, new_price));
    } else {
        assert(relative_change(old_price, new_price) == whole::<N>(0));
        lemma_magnitude(val, limit, whole::<N>(0));
    }
}

/// The size of a change that lies in the range.
proof fn lemma_magnitude<N: Number>(val: spec_fn(N) -> real, limit: real, x: N)
    requires
        linear_within(val, limit),
        limit >= 1real,
        fits(limit, val(x)),
    ensures
        val(x.magnitude()) == if val(x) < 0real {
            -val(x)
        } else {
            val(x)
        },
{
}

/// Law: a price that a trader does not see is the one they last heard, or the base price
/// where they heard none, off by twelve hundredths of what their boldness has above a half.
pub proof fn law_perceived_price_in_numbers<N: Number>(
    val: spec_fn(N) -> real,
    limit: real,
    unit: real,
    model: WorldModel<N>,
    trader: TraderId,
    place: SettlementId,
    good: Good,
)
    requires
        linear_within(val, limit),
        rounds_down(val, limit, unit),
        limit >= 20real,
        unit <= 1real / 10real,
        0real <= val(model.traders[trader as int].risk_tolerance) <= 1real,
        ({
            let known = model.traders[trader as int].known_prices;
            known.contains_key((place, good)) ==> 0real <= val(known[(place, good)]) && val(
                known[(place, good)],
            ) * 2real <= limit
        }),
        limit >= 40real,
    ensures
        ({
            let judge = model.traders[trader as int];
            let seen = place == judge.location || place == judge.home_base;
            let heard = judge.known_prices.contains_key((place, good));
            let quote = if heard {
                val(judge.known_prices[(place, good)])
            } else {
                worth(good)
            };
            let ideal = quote * (1real + (val(judge.risk_tolerance) - 1real / 2real) * 12real
                / 100real);
            let perceived = model.perceived_price(trader, place, good);
            &&& seen && model.settlements[place as int].prices.at(good) is Some ==> Some(perceived)
                == model.settlements[place as int].prices.at(good)
            &&& !seen ==> just_below(ideal, val(perceived), quote * unit + unit)
        }),
{
    let judge = model.traders[trader as int];
    let tilt = judge.risk_tolerance.difference(hundredths(50));
    let twelve = hundredths::<N>(12);
    assert(val(hundredths::<N>(50)) * 100real == 50real && val(twelve) * 100real == 12real);
    assert(val(whole::<N>(1)) == 1real && val(whole::<N>(10)) == 10real && val(whole::<N>(8))
        == 8real && val(whole::<N>(20)) == 20real);
    let x = val(tilt);
    assert(x == val(judge.risk_tolerance) - 1real / 2real);
    assert(x * val(twelve) == x * 12real / 100real) by (nonlinear_arith)
        requires
            val(twelve) * 100real == 12real,
    ;
    lemma_product(val, limit, unit, tilt, twelve);
    let bias = tilt.product(twelve);
    let factor = whole::<N>(1).sum(bias);
    assert(val(factor) == 1real + val(bias));
    let quote = if judge.known_prices.contains_key((place, good)) {
        judge.known_prices[(place, good)]
    } else {
        base_price(good)
    };
    let (q, f, full) = (val(quote), val(factor), 1real + x * 12real / 100real);
    assert(full - unit <= f <= full && 0real <= f && full <= 2real);
    assert(q * full - q * unit <= q * f <= q * full && 0real <= q * f && q * f <= q * 2real)
        by (nonlinear_arith)
        requires
            0real <= q,
            full - unit <= f <= full,
            0real <= f,
            full <= 2real,
    ;
    lemma_product(val, limit, unit, quote, factor);
}

/// Law: a rumor is off by a fixed part of the price that depends on who hears it of which
/// price: between a tenth less and a tenth more, in steps of a five hundredth.
pub proof fn law_rumor_in_numbers<N: Number>(
    val: spec_fn(N) -> real,
    limit: real,
    unit: real,
    model: WorldModel<N>,
    trader: TraderId,
    place: SettlementId,
    good: Good,
)
    requires
        linear_within(val, limit),
        rounds_down(val, limit, unit),
        counts_over(val, limit),
        limit >= 100real,
        unit <= 1real / 10real,
        0real <= val(model.price_at(place, good)) * (11real / 10real) <= limit,
        rumor_seed(trader, place, good) <= usize::MAX,
        fits(limit, rumor_seed(trader, place, good) as real),
    ensures
        ({
            let mix = trader as int * 31 + place as int * 17 + (match good {
                Good::Food => 0int,
                Good::Ore => 7int,
                Good::Tools => 14int,
            });
            let price = val(model.price_at(place, good));
            let ideal = price * (1real + ((mix % 100) as real - 50real) / 500real);
            just_below(
                ideal,
                val(model.rumor(trader, place, good)),
                2real * unit * (price + 1real),
            )
        }),
{
    let mix = rumor_seed(trader, place, good);
    let seed = N::count(mix as usize);
    let hundred = whole::<N>(100);
    let rest = seed.remainder(hundred);
    assert(val(rest) == (mix % 100) as real) by {
        reveal(counts_over);
        assert(fits(limit, 100i64 as real));
        assert(mix as usize as int == mix);
    }
    assert(0 <= mix % 100 < 100);
    assert(val(hundred) == 100real);
    let r = (mix % 100) as real;
    assert(val(rest) / val(hundred) == r / 100real);
    lemma_quotient(val, limit, unit, rest, hundred);
    let part = rest.quotient(hundred);
    let half = hundredths::<N>(50);
    let two = whole::<N>(2);
    let tenth = hundredths::<N>(10);
    assert(val(half) * 100real == 50real && val(two) == 2real && val(tenth) * 100real == 10real);
    assert(val(whole::<N>(1)) == 1real);
    let off = part.difference(half);
    assert(val(off) == val(part) - 1real / 2real);
    assert(val(off) * val(two) == 2real * val(part) - 1real) by (nonlinear_arith)
        requires
            val(off) == val(part) - 1real / 2real,
            val(two) == 2real,
    ;
    lemma_product(val, limit, unit, off, two);
    let twice = off.product(two);
    assert(val(twice) * val(tenth) == val(twice) / 10real) by (nonlinear_arith)
        requires
            val(tenth) * 100real == 10real,
    ;
    lemma_product(val, limit, unit, twice, tenth);
    let noise = twice.product(tenth);
    assert(noise == rumor_noise::<N>(trader, place, good));
    let ideal = (r - 50real) / 500real;
    assert(ideal - 2real * unit <= val(noise) <= ideal);
    let price = model.price_at(place, good);
    let factor = whole::<N>(1).sum(noise);
    assert(val(factor) == 1real + val(noise));
    let (p, w, full) = (val(price), val(factor), 1real + ideal);
    assert(p * full - 2real * unit * p <= p * w <= p * full && 0real <= p * w && p * w <= p * (
    11real / 10real)) by (nonlinear_arith)
        requires
            p >= 0real,
            full - 2real * unit <= w <= full,
            full <= 11real / 10real,
            0real <= w,
    ;
    lemma_product(val, limit, unit, price, factor);
    assert(2real * unit * (p + 1real) == 2real * unit * p + 2real * unit) by (nonlinear_arith);
}

/// Law: after the month's news, a trader knows the prices of their location, of their home
/// base and of every place that a route joins to one of the two: as they are where they
/// see them, and as rumor has them elsewhere.  Of other places they know what they knew.
pub proof fn law_news_in_full<N: Number>(
    model: WorldModel<N>,
    trader: TraderId,
    place: SettlementId,
    good: Good,
)
    requires
        trader < model.traders.len(),
    ensures
        ({
            let listener = model.traders[trader as int];
            let after = model.after_news().traders[trader as int];
            let seen = place == listener.location || place == listener.home_base;
            let near = exists|i: int|
                {
                    let route = #[trigger] model.routes[i];
                    &&& 0 <= i < model.routes.len()
                    &&& {
                        ||| route.a == listener.location && route.b == place
                        ||| route.b == listener.location && route.a == place
                        ||| route.a == listener.home_base && route.b == place
                        ||| route.b == listener.home_base && route.a == place
                    }
                };
            &&& seen ==> after.known_prices.contains_key((place, good)) && after.known_prices[(
                place,
                good,
            )] == model.price_at(place, good)
            &&& !seen && near ==> after.known_prices.contains_key((place, good))
                && after.known_prices[(place, good)] == model.rumor(trader, place, good)
            &&& !seen && !near ==> {
                &&& after.known_prices.contains_key((place, good))
                    <==> listener.known_prices.contains_key((place, good))
                &&& after.known_prices.contains_key((place, good)) ==> after.known_prices[(
                    place,
                    good,
                )] == listener.known_prices[(place, good)]
            }
            &&& after.money == listener.money
            &&& after.location == listener.location
            &&& after.home_base == listener.home_base
        }),
        model.after_news() == (WorldModel { traders: model.after_news().traders, ..model }),
        model.after_news().traders.len() == model.traders.len(),
{
    let listener = model.traders[trader as int];
    lemma_far_ends(model.routes, listener.location, place, model.routes.len() as int);
    lemma_far_ends(model.routes, listener.home_base, place, model.routes.len() as int);
}

/// Being a neighbor is being at the other end of some route.
proof fn lemma_far_ends<N: Number>(
    routes: Seq<Route<N>>,
    here: SettlementId,
    place: SettlementId,
    n: int,
)
    requires
        0 <= n <= routes.len(),
    ensures
        here != place ==> (neighbors(routes, here, n).contains(place) <==> exists|i: int|
            {
                let route = #[trigger] routes[i];
                &&& 0 <= i < n
                &&& (route.a == here && route.b == place) || (route.b == here && route.a == place)
            }),
    decreases n,
{
    if n > 0 && here != place {
        lemma_far_ends(routes, here, place, n - 1);
        let before = neighbors(routes, here, n - 1);
        let all = neighbors(routes, here, n);
        let last = routes[n - 1];
        if all.contains(place) {
            let k = choose|k: int| 0 <= k < all.len() && all[k] == place;
            if k < before.len() {
                assert(before[k] == place);
            } else {
                assert(routes[n - 1] == last);
            }
        }
        if before.contains(place) {
            let k = choose|k: int| 0 <= k < before.len() && before[k] == place;
            assert(all[k] == place);
        }
        if (last.a == here && last.b == place) || (last.b == here && last.a == place) {
            assert(all[all.len() - 1] == place);
        }
    }
}

/// Law: the change from one number to another is the difference, as a part of the first;
/// from next to nothing there is none.
pub proof fn law_change_in_numbers<N: Number>(
    val: spec_fn(N) -> real,
    limit: real,
    unit: real,
    old_value: N,
    new_value: N,
)
    requires
        linear_within(val, limit),
        rounds_down(val, limit, unit),
        limit >= 0real,
        fits(limit, val(old_value)),
        fits(limit, val(new_value) - val(old_value)),
        val(N::fraction(1, 10000)) > 0real,
        val(old_value) != 0real ==> fits(
            limit,
            (val(new_value) - val(old_value)) / val(old_value),
        ),
    ensures
        ({
            let (p, q) = (val(old_value), val(new_value));
            let change = val(relative_change(old_value, new_value));
            let tiny = val(N::fraction(1, 10000));
            &&& -tiny < p < tiny ==> change == 0real
            &&& p >= tiny || p <= -tiny ==> just_below((q - p) / p, change, unit)
        }),
{
    assert(val(whole::<N>(0)) == 0real);
    let (p, q) = (val(old_value), val(new_value));
    let tiny = val(N::fraction(1, 10000));
    if p >= tiny || p <= -tiny {
        lemma_quotient(val, limit, unit, new_value.difference(old_value), old_value);
    }
}

/// What a settlement tells of its prices: every change of more than a tenth, as it is
/// worked out, in the order of the goods.
pub open spec fn told_of_prices<N: Number>(
    val: spec_fn(N) -> real,
    before: Settlement<N>,
    after: Settlement<N>,
) -> Seq<Event<N>> {
    let told = |good: Good|
        {
            let old_price = asked(before, good);
            let new_price = after.prices.at(good)->0;
            let change = val(relative_change(old_price, new_price));
            if change > 1real / 10real || change < -1real / 10real {
                seq![
                    Event::PriceChanged { settlement: before.id, good, old_price, new_price },
                ]
            } else {
                Seq::empty()
            }
        };
    told(Good::Food) + told(Good::Ore) + told(Good::Tools)
}

/// Law: changes of prices are told settlement by settlement, good by good, and nothing else
/// is told with them.
pub proof fn law_prices_are_told_in_order<N: Number>(
    val: spec_fn(N) -> real,
    limit: real,
    model: WorldModel<N>,
)
    requires
        linear_within(val, limit),
        limit >= 1real,
        forall|i: int, good: Good|
            0 <= i < model.settlements.len() ==> fits(
                limit,
                val(
                    relative_change(
                        asked(#[trigger] model.settlements[i], good),
                        #[trigger] next_price(model.settlements[i], good),
                    ),
                ),
            ),
    ensures
        model.after_price_update().events == model.events + chain(
            model.settlements.len() as int,
            |i: int|
                told_of_prices(
                    val,
                    model.settlements[i],
                    model.after_price_update().settlements[i],
                ),
        ),
{
    assert(val(hundredths::<N>(10)) * 100real == 10real);
    let n = model.settlements.len() as int;
    let after = model.after_price_update();
    let (a, b) = (
        |i: int| pricing_report(model.settlements[i]),
        |i: int| told_of_prices(val, model.settlements[i], after.settlements[i]),
    );
    assert forall|i: int| 0 <= i < n implies #[trigger] a(i) == b(i) by {
        let (s, t) = (model.settlements[i], after.settlements[i]);
        assert forall|good: Good| t.prices.at(good) == Some(#[trigger] next_price(s, good)) && fits(
            limit,
            val(relative_change(asked(s, good), next_price(s, good))),
        ) by {}
        let food = next_price(s, Good::Food);
        let ore = next_price(s, Good::Ore);
        let tools = next_price(s, Good::Tools);
        assert(pricing_report(s) =~= told_of_prices(val, s, t));
    }
    lemma_same_chain(n, a, b);
}

} // verus!
