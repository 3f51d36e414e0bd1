//! Events name what exists, so that every month can be reported.

use crate::conservation::lemma_trading_keeps_balances;
use crate::delivery::{lemma_travel_wf, travel_report};
use crate::event::Event;
use crate::finance::{collected, lemma_debts_named, lemma_expenses_shape, Debt};
use crate::goods::Good;
use crate::market::pricing_report;
use crate::month::{
    lemma_expenses_wf, lemma_interest_wf, lemma_price_update_wf, lemma_supply_wf,
};
use crate::number::{whole, Number};
use crate::production::{consumption_report, meal_report, production_report};
use crate::settlement::Settlement;
use crate::shipment::{CargoRoll, Shipment};
use crate::trade::{lemma_best_wf, lemma_dispatch_wf, Deal, MAX_ROUNDS};
use crate::trader::TraderId;
use crate::world::{chain, lemma_chain_all, lemma_same_names_wf, WorldModel};
use vstd::prelude::*;

verus! {

impl<N: Number> WorldModel<N> {
    /// All that the events name exists.
    pub open spec fn events_wf(self) -> bool {
        forall|i: int| 0 <= i < self.events.len() ==> self.event_wf(#[trigger] self.events[i])
    }
}

/// A report of each settlement that names the settlement itself adds events that
/// name what exists.
proof fn lemma_reports_named<N: Number>(
    model: WorldModel<N>,
    report: spec_fn(int) -> Seq<Event<N>>,
    after: WorldModel<N>,
)
    requires
        model.events_wf(),
        after.events == model.events + chain(model.settlements.len() as int, report),
        after.settlements.len() == model.settlements.len(),
        after.traders.len() == model.traders.len(),
        forall|i: int, k: int|
            0 <= i < model.settlements.len() && 0 <= k < report(i).len() ==> model.event_wf(
                #[trigger] report(i)[k],
            ),
    ensures
        after.events_wf(),
{
    let named = |event: Event<N>| model.event_wf(event);
    let n = model.settlements.len() as int;
    lemma_chain_all(n, report, named);
    assert forall|i: int| 0 <= i < after.events.len() implies after.event_wf(
        #[trigger] after.events[i],
    ) by {
        if i < model.events.len() {
            assert(model.event_wf(model.events[i]));
        } else {
            let k = i - model.events.len();
            assert(named(chain(n, report)[k]));
        }
    }
}

proof fn lemma_production_report_named<N: Number>(
    model: WorldModel<N>,
    settlement: Settlement<N>,
)
    requires
        settlement.id < model.settlements.len(),
    ensures
        forall|k: int|
            0 <= k < production_report(settlement).len() ==> model.event_wf(
                #[trigger] production_report(settlement)[k],
            ),
{
}

proof fn lemma_meal_report_named<N: Number>(
    model: WorldModel<N>,
    settlement: Settlement<N>,
    good: Good,
    share: N,
)
    requires
        settlement.id < model.settlements.len(),
    ensures
        forall|k: int|
            0 <= k < meal_report(settlement, good, share).len() ==> model.event_wf(
                #[trigger] meal_report(settlement, good, share)[k],
            ),
{
}

proof fn lemma_consumption_report_named<N: Number>(
    model: WorldModel<N>,
    settlement: Settlement<N>,
)
    requires
        settlement.id < model.settlements.len(),
    ensures
        forall|k: int|
            0 <= k < consumption_report(settlement).len() ==> model.event_wf(
                #[trigger] consumption_report(settlement)[k],
            ),
{
    let share = settlement.appetite();
    let food = meal_report(settlement, Good::Food, share);
    let ore = meal_report(settlement, Good::Ore, share);
    let tools = meal_report(settlement, Good::Tools, share);
    lemma_meal_report_named(model, settlement, Good::Food, share);
    lemma_meal_report_named(model, settlement, Good::Ore, share);
    lemma_meal_report_named(model, settlement, Good::Tools, share);
    let all = consumption_report(settlement);
    let thrift = all.len() - food.len() - ore.len() - tools.len();
    assert forall|k: int| 0 <= k < all.len() implies model.event_wf(#[trigger] all[k]) by {
        if thrift <= k < thrift + food.len() {
            assert(all[k] == food[k - thrift]);
        } else if thrift + food.len() <= k < thrift + food.len() + ore.len() {
            assert(all[k] == ore[k - thrift - food.len()]);
        } else if thrift + food.len() + ore.len() <= k {
            assert(all[k] == tools[k - thrift - food.len() - ore.len()]);
        }
    }
}

proof fn lemma_supply_named<N: Number>(model: WorldModel<N>)
    requires
        model.wf(),
        model.events_wf(),
    ensures
        model.after_supply().events_wf(),
{
    lemma_supply_wf(model);
    let rested = model.after_new_month().after_route_reset().after_recovery();
    assert(model.same_names(rested));
    lemma_same_names_wf(model, rested);
    assert forall|i: int| 0 <= i < rested.events.len() implies rested.event_wf(
        #[trigger] rested.events[i],
    ) by {
        assert(model.event_wf(model.events[i]));
    }
    let made = rested.after_production();
    let output = |i: int| production_report(rested.settlements[i]);
    assert forall|i: int, k: int|
        0 <= i < rested.settlements.len() && 0 <= k < output(i).len() implies rested.event_wf(
        #[trigger] output(i)[k],
    ) by {
        lemma_production_report_named(rested, rested.settlements[i]);
    }
    lemma_reports_named(rested, output, made);
    let meals = |i: int| consumption_report(made.settlements[i]);
    assert forall|i: int, k: int|
        0 <= i < made.settlements.len() && 0 <= k < meals(i).len() implies made.event_wf(
        #[trigger] meals(i)[k],
    ) by {
        assert(made.settlements[i].id < made.settlements.len());
        lemma_consumption_report_named(made, made.settlements[i]);
    }
    lemma_reports_named(made, meals, made.after_consumption());
}

proof fn lemma_price_update_named<N: Number>(model: WorldModel<N>)
    requires
        model.wf(),
        model.events_wf(),
    ensures
        model.after_price_update().events_wf(),
{
    let report = |i: int| pricing_report(model.settlements[i]);
    lemma_reports_named(model, report, model.after_price_update());
}

proof fn lemma_collected_named<N: Number>(
    settlements: Seq<Settlement<N>>,
    owed: Seq<Debt<N>>,
    n: int,
    model: WorldModel<N>,
)
    requires
        n <= owed.len(),
        forall|k: int|
            0 <= k < owed.len() ==> (#[trigger] owed[k]).debtor < model.settlements.len(),
    ensures
        forall|i: int|
            0 <= i < collected(settlements, owed, n).events.len() ==> model.event_wf(
                #[trigger] collected(settlements, owed, n).events[i],
            ),
    decreases n,
{
    if n > 0 {
        lemma_collected_named(settlements, owed, n - 1, model);
        assert(owed[n - 1].debtor < model.settlements.len());
        let before = collected(settlements, owed, n - 1).events;
        let after = collected(settlements, owed, n).events;
        assert forall|i: int| 0 <= i < after.len() implies model.event_wf(
            #[trigger] after[i],
        ) by {
            if i < before.len() {
                assert(after[i] == before[i]);
            }
        }
    }
}

proof fn lemma_interest_named<N: Number>(model: WorldModel<N>)
    requires
        model.wf(),
        model.events_wf(),
    ensures
        model.after_interest().events_wf(),
{
    lemma_interest_wf(model);
    lemma_debts_named(model.settlements, model.settlements.len() as int);
    let owed = model.all_debts();
    lemma_collected_named(model.settlements, owed, owed.len() as int, model);
    let after = model.after_interest();
    assert forall|i: int| 0 <= i < after.events.len() implies after.event_wf(
        #[trigger] after.events[i],
    ) by {
        if i < model.events.len() {
            assert(model.event_wf(model.events[i]));
        } else {
            assert(model.event_wf(model.interest().events[i - model.events.len()]));
        }
    }
}

proof fn lemma_expenses_named<N: Number>(model: WorldModel<N>, n: int)
    requires
        model.wf(),
        model.events_wf(),
        0 <= n <= model.traders.len(),
    ensures
        model.after_expenses_of(n).events_wf(),
    decreases n,
{
    if n > 0 {
        lemma_expenses_named(model, n - 1);
        lemma_expenses_shape(model, n - 1);
        let before = model.after_expenses_of(n - 1);
        assert(model.trader_wf(model.traders[n - 1]));
        let kept = before.after_upkeep((n - 1) as TraderId);
        assert forall|i: int| 0 <= i < kept.events.len() implies kept.event_wf(
            #[trigger] kept.events[i],
        ) by {
            if i < before.events.len() {
                assert(before.event_wf(before.events[i]));
            }
        }
        let spent = kept.after_local_spending((n - 1) as TraderId);
        assert forall|i: int| 0 <= i < spent.events.len() implies spent.event_wf(
            #[trigger] spent.events[i],
        ) by {
            if i < kept.events.len() {
                assert(kept.event_wf(kept.events[i]));
            }
        }
    }
}

proof fn lemma_rounds_named<N: Number>(
    model: WorldModel<N>,
    trader: TraderId,
    capacity: N,
    excluded: Seq<Deal>,
    rounds: nat,
)
    requires
        model.wf(),
        model.events_wf(),
        trader < model.traders.len(),
    ensures
        model.after_rounds(trader, capacity, excluded, rounds).events_wf(),
    decreases rounds,
{
    if rounds > 0 && whole::<N>(1).at_most(capacity) {
        match model.best_trade(trader, capacity, excluded) {
            None => {},
            Some(trade) => {
                lemma_best_wf(model, trader, capacity, excluded);
                let quantity = model.dispatched(trade, capacity);
                if quantity.less(whole(1)) {
                    lemma_rounds_named(
                        model,
                        trader,
                        capacity,
                        excluded.push((trade.seller, trade.buyer, trade.good)),
                        (rounds - 1) as nat,
                    );
                } else {
                    lemma_dispatch_wf(model, trader, trade, quantity);
                    let sent = model.after_dispatch(trader, trade, quantity);
                    assert forall|i: int| 0 <= i < sent.events.len() implies sent.event_wf(
                        #[trigger] sent.events[i],
                    ) by {
                        if i < model.events.len() {
                            assert(model.event_wf(model.events[i]));
                        }
                    }
                    lemma_rounds_named(
                        sent,
                        trader,
                        capacity.difference(quantity),
                        excluded,
                        (rounds - 1) as nat,
                    );
                }
            },
        }
    }
}

proof fn lemma_trading_named<N: Number>(model: WorldModel<N>, n: int)
    requires
        model.wf(),
        model.events_wf(),
        0 <= n <= model.traders.len(),
    ensures
        model.after_trading_of(n).events_wf(),
    decreases n,
{
    if n > 0 {
        lemma_trading_named(model, n - 1);
        lemma_trading_keeps_balances(model, n - 1);
        let before = model.after_trading_of(n - 1);
        lemma_rounds_named(
            before,
            (n - 1) as TraderId,
            before.traders[n - 1].trade_capacity,
            Seq::empty(),
            MAX_ROUNDS as nat,
        );
    }
}

proof fn lemma_travel_named<N: Number>(
    model: WorldModel<N>,
    pending: Seq<Shipment<N>>,
    rolls: Seq<CargoRoll<N>>,
    n: int,
)
    requires
        model.wf(),
        model.priced(),
        0 <= n <= pending.len(),
        forall|k: int| 0 <= k < pending.len() ==> model.shipment_wf(#[trigger] pending[k]),
    ensures
        ({
            let after = model.after_travel_of(pending, rolls, n);
            &&& after.wf()
            &&& after.priced()
            &&& model.events_wf() ==> after.events_wf()
            &&& after.routes == model.routes
            &&& after.settlements.len() == model.settlements.len()
            &&& after.traders.len() == model.traders.len()
        }),
    decreases n,
{
    if n > 0 {
        lemma_travel_named(model, pending, rolls, n - 1);
        let before = model.after_travel_of(pending, rolls, n - 1);
        let shipment = pending[n - 1];
        assert(model.shipment_wf(shipment));
        lemma_travel_wf(before, shipment, rolls[n - 1]);
        let after = before.after_travel(shipment, rolls[n - 1]);
        let report = travel_report(shipment, rolls[n - 1]);
        if model.events_wf() {
            assert forall|i: int| 0 <= i < after.events.len() implies after.event_wf(
                #[trigger] after.events[i],
            ) by {
                if i < before.events.len() {
                    assert(before.event_wf(before.events[i]));
                    assert(after.events[i] == before.events[i]);
                } else if i < before.events.len() + report.len() {
                    assert(after.events[i] == report[i - before.events.len()]);
                }
            }
        }
    }
}

/// Law: a month keeps every identifier valid and every price quoted, and where
/// all events named settlements and traders that exist before, they do so after it.
pub proof fn law_events_name_what_exists<N: Number>(
    model: WorldModel<N>,
    rolls: Seq<CargoRoll<N>>,
)
    requires
        model.wf(),
    ensures
        model.after_month(rolls).wf(),
        model.after_month(rolls).priced(),
        model.after_month(rolls).settlements.len() == model.settlements.len(),
        model.after_month(rolls).traders.len() == model.traders.len(),
        model.events_wf() ==> model.after_month(rolls).events_wf(),
{
    let fed = model.after_supply();
    lemma_supply_wf(model);
    let quoted = fed.after_price_update();
    lemma_price_update_wf(fed);
    let serviced = quoted.after_interest();
    lemma_interest_wf(quoted);
    assert forall|i: int| 0 <= i < serviced.settlements.len() implies (
    #[trigger] serviced.settlements[i]).prices.total() by {
        assert(quoted.settlements[i].prices.total());
    }
    let paid = serviced.after_expenses();
    lemma_expenses_wf(serviced);
    let opened = paid.after_trading();
    lemma_trading_keeps_balances(paid, paid.traders.len() as int);
    assert forall|i: int| 0 <= i < opened.settlements.len() implies (
    #[trigger] opened.settlements[i]).prices.total() by {
        assert(paid.settlements[i].prices.total());
    }
    if model.events_wf() {
        lemma_supply_named(model);
        lemma_price_update_named(fed);
        lemma_interest_named(quoted);
        lemma_expenses_named(serviced, serviced.traders.len() as int);
        lemma_trading_named(paid, paid.traders.len() as int);
    }
    let emptied = WorldModel { shipments: Seq::empty(), ..opened };
    assert(emptied.wf()) by {
        assert forall|i: int| 0 <= i < emptied.routes.len() implies emptied.route_wf(
            #[trigger] emptied.routes[i],
        ) by {
            assert(opened.route_wf(opened.routes[i]));
        }
        assert forall|i: int| 0 <= i < emptied.traders.len() implies emptied.trader_wf(
            #[trigger] emptied.traders[i],
        ) by {
            assert(opened.trader_wf(opened.traders[i]));
        }
    }
    if model.events_wf() {
        assert forall|i: int| 0 <= i < emptied.events.len() implies emptied.event_wf(
            #[trigger] emptied.events[i],
        ) by {
            assert(opened.event_wf(opened.events[i]));
        }
    }
    assert forall|k: int| 0 <= k < opened.shipments.len() implies emptied.shipment_wf(
        #[trigger] opened.shipments[k],
    ) by {
        assert(opened.shipment_wf(opened.shipments[k]));
    }
    lemma_travel_named(emptied, opened.shipments, rolls, opened.shipments.len() as int);
}

} // verus!
