//! In which order a month's steps come, and whose turn it is in each of them.

use crate::delivery::{moved, travel_report};
use crate::event::{shipments_created, Event};
use crate::finance::{lemma_collected_shape, lemma_debts_named, lemma_expenses_shape};
use crate::goods::Good;
use crate::number::{fits, hundredths, linear_within, whole, Number};
use crate::rounding::{purses, treasuries, wealth};
use crate::route::Route;
use crate::settlement::{Settlement, SettlementId};
use crate::shipment::CargoRoll;
use crate::trade::{lemma_best_wf, lemma_dispatch_wf, Deal, MAX_ROUNDS};
use crate::trader::{TraderId, TraderModel};
use crate::world::{settlement_money, trader_money, WorldModel};
use vstd::prelude::*;

verus! {

/// Law: a month begins on the calendar; routes are emptied, production recovers, goods are
/// made and eaten, prices are set and heard of, interest and expenses are paid, traders
/// send shipments off, and everything on the way, the new shipments among it, moves on.
pub proof fn law_a_month_in_order<N: Number>(model: WorldModel<N>, rolls: Seq<CargoRoll<N>>)
    requires
        model.month < u32::MAX,
    ensures
        ({
            let begun = WorldModel { month: (model.month + 1) as u32, ..model };
            let made = begun.after_route_reset().after_recovery().after_production();
            let eaten = made.after_consumption();
            let told = eaten.after_price_update();
            let paid = told.after_interest().after_expenses();
            model.after_month(rolls) == paid.after_trading().after_advance(rolls)
        }),
{
}

/// Law: at the beginning of a month every route is empty, and nothing else changes.
pub proof fn law_routes_are_emptied<N: Number>(
    val: spec_fn(N) -> real,
    limit: real,
    model: WorldModel<N>,
)
    requires
        linear_within(val, limit),
        limit >= 0real,
    ensures
        ({
            let after = model.after_route_reset();
            &&& after.routes.len() == model.routes.len()
            &&& forall|i: int|
                0 <= i < model.routes.len() ==> {
                    &&& val((#[trigger] after.routes[i]).used_capacity_this_month) == 0real
                    &&& after.routes[i] == (Route {
                        used_capacity_this_month: after.routes[i].used_capacity_this_month,
                        ..model.routes[i]
                    })
                }
            &&& after == (WorldModel { routes: after.routes, ..model })
        }),
{
}

/// Law: traders take turns, each once, from the first to the last: in paying their
/// expenses, upkeep first, and in sending shipments off with all of their capacity.
pub proof fn law_traders_take_turns<N: Number>(model: WorldModel<N>, n: int)
    requires
        0 <= n < model.traders.len() <= usize::MAX,
    ensures
        model.after_expenses_of(0) == model,
        model.after_expenses_of(n + 1) == model.after_expenses_of(n).after_upkeep(
            n as TraderId,
        ).after_local_spending(n as TraderId),
        model.after_expenses() == model.after_expenses_of(model.traders.len() as int),
        model.after_trading_of(0) == model,
        model.after_trading_of(n + 1) == model.after_trading_of(n).after_trading_by(
            n as TraderId,
        ),
        model.after_trading() == model.after_trading_of(model.traders.len() as int),
{
}

/// Law: shipments move on one after the other, each once, from the first to the last.  One
/// that has two months or more to go stays on the way with what its luck left it; any other
/// arrives with it.  What befell it on the way is reported before its arrival.
pub proof fn law_shipments_take_turns<N: Number>(
    model: WorldModel<N>,
    rolls: Seq<CargoRoll<N>>,
    n: int,
)
    requires
        0 <= n < model.shipments.len(),
    ensures
        ({
            let start = WorldModel { shipments: Seq::empty(), ..model };
            let before = start.after_travel_of(model.shipments, rolls, n);
            let after = start.after_travel_of(model.shipments, rolls, n + 1);
            let shipment = model.shipments[n];
            let left = moved(shipment, rolls[n]);
            let reported = WorldModel {
                events: before.events + travel_report(shipment, rolls[n]),
                ..before
            };
            &&& start.after_travel_of(model.shipments, rolls, 0) == start
            &&& shipment.months_remaining >= 2 ==> after == (WorldModel {
                shipments: before.shipments.push(left),
                ..reported
            })
            &&& shipment.months_remaining < 2 ==> after == reported.after_arrival(left)
            &&& model.after_advance(rolls) == start.after_travel_of(
                model.shipments,
                rolls,
                model.shipments.len() as int,
            )
        }),
{
    let start = WorldModel { shipments: Seq::empty(), ..model };
    assert(start.after_travel_of(model.shipments, rolls, 0) == start);
}

/// The sums of the money of the first settlements, and of the first traders, lie within
/// the range.
pub open spec fn sums_fit<N: Number>(
    val: spec_fn(N) -> real,
    limit: real,
    model: WorldModel<N>,
) -> bool {
    &&& forall|n: int|
        0 <= n <= model.settlements.len() ==> fits(
            limit,
            #[trigger] treasuries(val, model.settlements, n),
        )
    &&& forall|n: int|
        0 <= n <= model.traders.len() ==> fits(limit, #[trigger] purses(val, model.traders, n))
    &&& fits(limit, wealth(val, model))
}

proof fn lemma_treasuries<N: Number>(
    val: spec_fn(N) -> real,
    limit: real,
    model: WorldModel<N>,
    n: int,
)
    requires
        linear_within(val, limit),
        limit >= 0real,
        sums_fit(val, limit, model),
        0 <= n <= model.settlements.len(),
    ensures
        val(settlement_money(model.settlements, n)) == treasuries(val, model.settlements, n),
    decreases n,
{
    assert(val(whole::<N>(0)) == 0real);
    if n > 0 {
        lemma_treasuries(val, limit, model, n - 1);
        assert(fits(limit, treasuries(val, model.settlements, n)));
    }
}

proof fn lemma_purses<N: Number>(
    val: spec_fn(N) -> real,
    limit: real,
    model: WorldModel<N>,
    n: int,
)
    requires
        linear_within(val, limit),
        limit >= 0real,
        sums_fit(val, limit, model),
        0 <= n <= model.traders.len(),
    ensures
        val(trader_money(model.traders, n)) == purses(val, model.traders, n),
    decreases n,
{
    assert(val(whole::<N>(0)) == 0real);
    if n > 0 {
        lemma_purses(val, limit, model, n - 1);
        assert(fits(limit, purses(val, model.traders, n)));
    }
}

/// Law: all the money there is, is that of all settlements and all traders together; the
/// books balance if and only if it is less than a hundredth away from what it should be.
pub proof fn law_money_in_numbers<N: Number>(
    val: spec_fn(N) -> real,
    limit: real,
    model: WorldModel<N>,
)
    requires
        linear_within(val, limit),
        limit >= 1real,
        sums_fit(val, limit, model),
        fits(limit, wealth(val, model) - val(model.expected_total_money)),
    ensures
        val(trader_money(model.traders, model.traders.len() as int)) == purses(
            val,
            model.traders,
            model.traders.len() as int,
        ),
        val(model.total_money()) == wealth(val, model),
        ({
            let off = wealth(val, model) - val(model.expected_total_money);
            model.balanced() <==> -1real / 100real < off < 1real / 100real
        }),
{
    lemma_treasuries(val, limit, model, model.settlements.len() as int);
    lemma_purses(val, limit, model, model.traders.len() as int);
    assert(val(hundredths::<N>(1)) * 100real == 1real);
}

/// Law: one more event adds a shipment to the count if and only if it tells of one that
/// set out.
pub proof fn law_shipments_are_counted<N>(events: Seq<Event<N>>, event: Event<N>)
    ensures
        shipments_created(Seq::<Event<N>>::empty()) == 0,
        shipments_created(events.push(event)) == shipments_created(events) + if event
            is ShipmentCreated {
            1nat
        } else {
            0nat
        },
{
    reveal_with_fuel(Seq::filter, 2);
    assert(events.push(event).drop_last() =~= events);
}

/// Law: a visit leaves a trader with the prices of the place, for every good, and with
/// what they knew of all other places; nothing else changes.
pub proof fn law_a_visit_shows_the_prices<N: Number>(
    model: WorldModel<N>,
    trader: TraderId,
    place: SettlementId,
    good: Good,
    other: SettlementId,
)
    requires
        trader < model.traders.len(),
        other != place,
    ensures
        ({
            let after = model.after_visit(trader, place);
            let (before, now) = (
                model.traders[trader as int].known_prices,
                after.traders[trader as int].known_prices,
            );
            &&& now.contains_key((place, good))
            &&& now[(place, good)] == model.price_at(place, good)
            &&& now.contains_key((other, good)) <==> before.contains_key((other, good))
            &&& before.contains_key((other, good)) ==> now[(other, good)] == before[(other, good)]
            &&& after.traders[trader as int] == (TraderModel {
                known_prices: now,
                ..model.traders[trader as int]
            })
            &&& forall|i: int|
                0 <= i < model.traders.len() && i != trader ==> #[trigger] after.traders[i]
                    == model.traders[i]
            &&& after == (WorldModel { traders: after.traders, ..model })
        }),
{
}

/// The settlements are the same but for their money.
pub open spec fn only_money<N>(before: Seq<Settlement<N>>, after: Seq<Settlement<N>>) -> bool {
    &&& after.len() == before.len()
    &&& forall|i: int|
        0 <= i < before.len() ==> #[trigger] after[i] == (Settlement {
            money: after[i].money,
            ..before[i]
        })
}

/// The settlements are the same but for their stores.
pub open spec fn only_stores<N>(before: Seq<Settlement<N>>, after: Seq<Settlement<N>>) -> bool {
    &&& after.len() == before.len()
    &&& forall|i: int|
        0 <= i < before.len() ==> #[trigger] after[i] == (Settlement {
            stockpiles: after[i].stockpiles,
            ..before[i]
        })
}

/// Law: new prices change what settlements ask and what traders know, and nothing else.
pub proof fn law_prices_change_nothing_else<N: Number>(model: WorldModel<N>)
    requires
        model.wf(),
    ensures
        ({
            let after = model.after_price_update();
            &&& after == (WorldModel {
                settlements: after.settlements,
                traders: after.traders,
                events: after.events,
                ..model
            })
            &&& after.settlements.len() == model.settlements.len()
            &&& forall|i: int|
                0 <= i < model.settlements.len() ==> #[trigger] after.settlements[i] == (
                Settlement { prices: after.settlements[i].prices, ..model.settlements[i] })
            &&& after.traders.len() == model.traders.len()
            &&& forall|i: int|
                0 <= i < model.traders.len() ==> #[trigger] after.traders[i] == (TraderModel {
                    known_prices: after.traders[i].known_prices,
                    ..model.traders[i]
                })
        }),
{
    let after = model.after_price_update();
    assert forall|i: int| 0 <= i < model.traders.len() implies #[trigger] after.traders[i] == (
    TraderModel { known_prices: after.traders[i].known_prices, ..model.traders[i] }) by {
        assert(after.traders[i] == model.after_repricing().informed(i as TraderId));
    }
}

/// Law: interest changes the money of settlements, and nothing else.
pub proof fn law_interest_changes_nothing_else<N: Number>(model: WorldModel<N>)
    requires
        model.settlements_wf(),
    ensures
        only_money(model.settlements, model.after_interest().settlements),
        model.after_interest() == (WorldModel {
            settlements: model.after_interest().settlements,
            events: model.after_interest().events,
            ..model
        }),
{
    let owed = model.all_debts();
    lemma_debts_named(model.settlements, model.settlements.len() as int);
    lemma_collected_shape(model.settlements, owed, owed.len() as int);
}

/// Law: expenses change the money of settlements and traders, and nothing else.
pub proof fn law_expenses_change_nothing_else<N: Number>(model: WorldModel<N>, n: int)
    requires
        model.traders_wf(),
        0 <= n <= model.traders.len() <= usize::MAX,
    ensures
        ({
            let after = model.after_expenses_of(n);
            &&& only_money(model.settlements, after.settlements)
            &&& after.traders.len() == model.traders.len()
            &&& forall|i: int|
                0 <= i < model.traders.len() ==> #[trigger] after.traders[i] == (TraderModel {
                    money: after.traders[i].money,
                    ..model.traders[i]
                })
            &&& after == (WorldModel {
                settlements: after.settlements,
                traders: after.traders,
                events: after.events,
                ..model
            })
        }),
    decreases n,
{
    if n > 0 {
        law_expenses_change_nothing_else(model, n - 1);
        lemma_expenses_shape(model, n - 1);
        lemma_expenses_shape(model, n);
        let before = model.after_expenses_of(n - 1);
        let trader = (n - 1) as TraderId;
        assert(model.trader_wf(model.traders[n - 1]));
        assert(before.traders[n - 1].location == model.traders[n - 1].location);
        let kept = before.after_upkeep(trader);
        assert(kept.traders[n - 1].location == model.traders[n - 1].location);
        let after = model.after_expenses_of(n);
        assert forall|i: int| 0 <= i < model.traders.len() implies #[trigger] after.traders[i] == (
        TraderModel { money: after.traders[i].money, ..model.traders[i] }) by {
            let _ = before.traders[i];
            let _ = kept.traders[i];
        }
    }
}

proof fn lemma_rounds_change<N: Number>(
    model: WorldModel<N>,
    trader: TraderId,
    capacity: N,
    excluded: Seq<Deal>,
    rounds: nat,
)
    requires
        model.wf(),
        trader < model.traders.len(),
    ensures
        ({
            let after = model.after_rounds(trader, capacity, excluded, rounds);
            &&& after.wf()
            &&& only_stores(model.settlements, after.settlements)
            &&& after.routes.len() == model.routes.len()
            &&& forall|i: int|
                0 <= i < model.routes.len() ==> #[trigger] after.routes[i] == (Route {
                    used_capacity_this_month: after.routes[i].used_capacity_this_month,
                    ..model.routes[i]
                })
            &&& after == (WorldModel {
                settlements: after.settlements,
                routes: after.routes,
                shipments: after.shipments,
                events: after.events,
                ..model
            })
        }),
    decreases rounds,
{
    if rounds > 0 && whole::<N>(1).at_most(capacity) {
        match model.best_trade(trader, capacity, excluded) {
            None => {},
            Some(trade) => {
                lemma_best_wf(model, trader, capacity, excluded);
                let quantity = model.dispatched(trade, capacity);
                if quantity.less(whole(1)) {
                    lemma_rounds_change(
                        model,
                        trader,
                        capacity,
                        excluded.push((trade.seller, trade.buyer, trade.good)),
                        (rounds - 1) as nat,
                    );
                } else {
                    lemma_dispatch_wf(model, trader, trade, quantity);
                    let next = model.after_dispatch(trader, trade, quantity);
                    assert(only_stores(model.settlements, next.settlements));
                    lemma_rounds_change(
                        next,
                        trader,
                        capacity.difference(quantity),
                        excluded,
                        (rounds - 1) as nat,
                    );
                    let after = model.after_rounds(trader, capacity, excluded, rounds);
                    assert forall|i: int|
                        0 <= i < model.settlements.len() implies #[trigger] after.settlements[i]
                        == (Settlement {
                        stockpiles: after.settlements[i].stockpiles,
                        ..model.settlements[i]
                    }) by {
                        let _ = next.settlements[i];
                    }
                    assert forall|i: int|
                        0 <= i < model.routes.len() implies #[trigger] after.routes[i] == (Route {
                        used_capacity_this_month: after.routes[i].used_capacity_this_month,
                        ..model.routes[i]
                    }) by {
                        let _ = next.routes[i];
                    }
                }
            },
        }
    }
}

/// Law: trading changes the stores of settlements, what routes carry, and what is on the
/// way, and nothing else.
pub proof fn law_trading_changes_nothing_else<N: Number>(model: WorldModel<N>, n: int)
    requires
        model.wf(),
        0 <= n <= model.traders.len(),
    ensures
        ({
            let after = model.after_trading_of(n);
            &&& after.wf()
            &&& only_stores(model.settlements, after.settlements)
            &&& after.routes.len() == model.routes.len()
            &&& forall|i: int|
                0 <= i < model.routes.len() ==> #[trigger] after.routes[i] == (Route {
                    used_capacity_this_month: after.routes[i].used_capacity_this_month,
                    ..model.routes[i]
                })
            &&& after == (WorldModel {
                settlements: after.settlements,
                routes: after.routes,
                shipments: after.shipments,
                events: after.events,
                ..model
            })
        }),
    decreases n,
{
    if n > 0 {
        law_trading_changes_nothing_else(model, n - 1);
        let before = model.after_trading_of(n - 1);
        lemma_rounds_change(
            before,
            (n - 1) as TraderId,
            before.traders[n - 1].trade_capacity,
            Seq::empty(),
            MAX_ROUNDS as nat,
        );
        let after = model.after_trading_of(n);
        assert forall|i: int| 0 <= i < model.settlements.len() implies #[trigger] after.settlements[i]
            == (Settlement {
            stockpiles: after.settlements[i].stockpiles,
            ..model.settlements[i]
        }) by {
            let _ = before.settlements[i];
        }
        assert forall|i: int| 0 <= i < model.routes.len() implies #[trigger] after.routes[i] == (
        Route {
            used_capacity_this_month: after.routes[i].used_capacity_this_month,
            ..model.routes[i]
        }) by {
            let _ = before.routes[i];
        }
    }
}

} // verus!
