//! What a month leaves as it was.

use crate::arrivals::{law_shipments_travel_or_arrive, still_on_the_way};
use crate::conservation::{law_month_passes, lemma_trading_keeps_balances};
use crate::delivery::{lemma_travel_wf, moved, travel_report};
use crate::finance::{lemma_collected_shape, lemma_debts_named, lemma_expenses_shape};
use crate::month::{
    lemma_expenses_wf, lemma_interest_wf, lemma_price_update_wf, lemma_supply_wf,
};
use crate::number::{whole, Number};
use crate::production::{consumed, lemma_shortfalls_named, lemma_shortfalls_shape};
use crate::route::Route;
use crate::settlement::Settlement;
use crate::shipment::{CargoRoll, Shipment};
use crate::trade::{lemma_best_wf, lemma_dispatch_wf, Deal, MAX_ROUNDS};
use crate::trader::{TraderId, TraderModel};
use crate::world::{lemma_same_names_wf, WorldModel};
use vstd::prelude::*;

verus! {

/// The settlement is the same but for its money, stores, prices and production scales.
pub open spec fn same_settlement<N>(before: Settlement<N>, after: Settlement<N>) -> bool {
    &&& after.id == before.id
    &&& after.name == before.name
    &&& after.production == before.production
    &&& after.consumption == before.consumption
}

/// The route is the same but for the capacity in use.
pub open spec fn same_route<N>(before: Route<N>, after: Route<N>) -> bool {
    after == (Route { used_capacity_this_month: after.used_capacity_this_month, ..before })
}

/// The trader is the same but for their money, location and memory.
pub open spec fn same_trader<N>(before: TraderModel<N>, after: TraderModel<N>) -> bool {
    after == (TraderModel {
        money: after.money,
        location: after.location,
        known_prices: after.known_prices,
        ..before
    })
}

/// Settlements, routes and traders are the same ones, in the same order, and the events
/// go on from where they were.
pub open spec fn keeps<N>(before: WorldModel<N>, after: WorldModel<N>) -> bool {
    &&& after.settlements.len() == before.settlements.len()
    &&& forall|i: int|
        0 <= i < before.settlements.len() ==> same_settlement(
            before.settlements[i],
            #[trigger] after.settlements[i],
        )
    &&& after.routes.len() == before.routes.len()
    &&& forall|i: int|
        0 <= i < before.routes.len() ==> same_route(before.routes[i], #[trigger] after.routes[i])
    &&& after.traders.len() == before.traders.len()
    &&& forall|i: int|
        0 <= i < before.traders.len() ==> same_trader(
            before.traders[i],
            #[trigger] after.traders[i],
        )
    &&& before.events.is_prefix_of(after.events)
}

proof fn lemma_keeps_on<N>(a: WorldModel<N>, b: WorldModel<N>, c: WorldModel<N>)
    requires
        keeps(a, b),
        keeps(b, c),
    ensures
        keeps(a, c),
{
    assert forall|i: int| 0 <= i < a.settlements.len() implies same_settlement(
        a.settlements[i],
        #[trigger] c.settlements[i],
    ) by {
        assert(same_settlement(a.settlements[i], b.settlements[i]));
    }
    assert forall|i: int| 0 <= i < a.routes.len() implies same_route(
        a.routes[i],
        #[trigger] c.routes[i],
    ) by {
        assert(same_route(a.routes[i], b.routes[i]));
    }
    assert forall|i: int| 0 <= i < a.traders.len() implies same_trader(
        a.traders[i],
        #[trigger] c.traders[i],
    ) by {
        assert(same_trader(a.traders[i], b.traders[i]));
    }
    assert(a.events =~= c.events.subrange(0, a.events.len() as int));
}

proof fn lemma_supply_keeps<N: Number>(model: WorldModel<N>)
    requires
        model.wf(),
    ensures
        keeps(model, model.after_supply()),
{
    lemma_supply_wf(model);
    let made = model.after_new_month().after_route_reset().after_recovery().after_production();
    assert(keeps(model, made));
    let fed = Seq::new(made.settlements.len(), |i: int| consumed(made.settlements[i]));
    let missing = made.all_shortfalls();
    lemma_shortfalls_named(made);
    lemma_shortfalls_shape(fed, missing, missing.len() as int);
    assert(keeps(made, made.after_consumption()));
    lemma_keeps_on(model, made, made.after_consumption());
}

proof fn lemma_prices_keep<N: Number>(model: WorldModel<N>)
    requires
        model.wf(),
    ensures
        keeps(model, model.after_price_update()),
{
    let after = model.after_price_update();
    assert forall|i: int| 0 <= i < model.traders.len() implies same_trader(
        model.traders[i],
        #[trigger] after.traders[i],
    ) by {
        assert(after.traders[i] == model.after_repricing().informed(i as TraderId));
    }
}

proof fn lemma_interest_keeps<N: Number>(model: WorldModel<N>)
    requires
        model.wf(),
    ensures
        keeps(model, model.after_interest()),
{
    let owed = model.all_debts();
    lemma_debts_named(model.settlements, model.settlements.len() as int);
    lemma_collected_shape(model.settlements, owed, owed.len() as int);
}

proof fn lemma_expenses_keep<N: Number>(model: WorldModel<N>, n: int)
    requires
        model.wf(),
        0 <= n <= model.traders.len(),
    ensures
        keeps(model, model.after_expenses_of(n)),
    decreases n,
{
    if n > 0 {
        lemma_expenses_keep(model, n - 1);
        lemma_expenses_shape(model, n - 1);
        let before = model.after_expenses_of(n - 1);
        let trader = (n - 1) as TraderId;
        assert(model.trader_wf(model.traders[n - 1]));
        assert(before.traders[n - 1].location == model.traders[n - 1].location);
        let kept = before.after_upkeep(trader);
        assert(keeps(before, kept));
        assert(kept.traders[n - 1].location == model.traders[n - 1].location);
        let spent = kept.after_local_spending(trader);
        assert(keeps(kept, spent));
        lemma_keeps_on(before, kept, spent);
        lemma_keeps_on(model, before, spent);
    }
}

proof fn lemma_rounds_keep<N: Number>(
    model: WorldModel<N>,
    trader: TraderId,
    capacity: N,
    excluded: Seq<Deal>,
    rounds: nat,
)
    requires
        model.wf(),
        trader < model.traders.len(),
    ensures
        keeps(model, model.after_rounds(trader, capacity, excluded, rounds)),
    decreases rounds,
{
    if rounds > 0 && whole::<N>(1).at_most(capacity) {
        match model.best_trade(trader, capacity, excluded) {
            None => {},
            Some(trade) => {
                lemma_best_wf(model, trader, capacity, excluded);
                let quantity = model.dispatched(trade, capacity);
                if quantity.less(whole(1)) {
                    lemma_rounds_keep(
                        model,
                        trader,
                        capacity,
                        excluded.push((trade.seller, trade.buyer, trade.good)),
                        (rounds - 1) as nat,
                    );
                } else {
                    lemma_dispatch_wf(model, trader, trade, quantity);
                    let next = model.after_dispatch(trader, trade, quantity);
                    assert(keeps(model, next));
                    let rest = capacity.difference(quantity);
                    lemma_rounds_keep(next, trader, rest, excluded, (rounds - 1) as nat);
                    lemma_keeps_on(
                        model,
                        next,
                        next.after_rounds(trader, rest, excluded, (rounds - 1) as nat),
                    );
                }
            },
        }
    }
}

proof fn lemma_trading_keeps<N: Number>(model: WorldModel<N>, n: int)
    requires
        model.wf(),
        0 <= n <= model.traders.len(),
    ensures
        keeps(model, model.after_trading_of(n)),
    decreases n,
{
    if n > 0 {
        lemma_trading_keeps(model, n - 1);
        lemma_trading_keeps_balances(model, n - 1);
        let before = model.after_trading_of(n - 1);
        let trader = (n - 1) as TraderId;
        lemma_rounds_keep(
            before,
            trader,
            before.traders[n - 1].trade_capacity,
            Seq::empty(),
            MAX_ROUNDS as nat,
        );
        lemma_keeps_on(model, before, before.after_trading_by(trader));
    }
}

proof fn lemma_arrival_keeps<N: Number>(model: WorldModel<N>, shipment: Shipment<N>)
    requires
        model.wf(),
        model.shipment_wf(shipment),
    ensures
        keeps(model, model.after_arrival(shipment)),
{
    assert(model.route_wf(model.routes[shipment.route as int]));
}

proof fn lemma_travel_keeps<N: Number>(
    model: WorldModel<N>,
    pending: Seq<Shipment<N>>,
    rolls: Seq<CargoRoll<N>>,
    n: int,
)
    requires
        model.wf(),
        model.priced(),
        0 <= n <= pending.len(),
        forall|k: int| 0 <= k < pending.len() ==> model.shipment_wf(#[trigger] pending[k]),
    ensures
        model.after_travel_of(pending, rolls, n).wf(),
        model.after_travel_of(pending, rolls, n).priced(),
        keeps(model, model.after_travel_of(pending, rolls, n)),
    decreases n,
{
    if n > 0 {
        lemma_travel_keeps(model, pending, rolls, n - 1);
        let before = model.after_travel_of(pending, rolls, n - 1);
        let after = model.after_travel_of(pending, rolls, n);
        let (last, roll) = (pending[n - 1], rolls[n - 1]);
        assert(model.shipment_wf(last));
        lemma_travel_wf(before, last, roll);
        let reported = WorldModel {
            events: before.events + travel_report(last, roll),
            ..before
        };
        assert(keeps(before, reported));
        let shipment = moved(last, roll);
        if shipment.months_remaining > 0 {
            assert(keeps(reported, after));
        } else {
            assert(reported.wf()) by {
                assert(before.same_names(reported));
                lemma_same_names_wf(before, reported);
            }
            lemma_arrival_keeps(reported, shipment);
        }
        lemma_keeps_on(before, reported, after);
        lemma_keeps_on(model, before, after);
    }
}

/// What is still on the way has months to go.
proof fn lemma_months_to_go<N: Number>(
    pending: Seq<Shipment<N>>,
    rolls: Seq<CargoRoll<N>>,
    n: int,
)
    ensures
        forall|k: int|
            0 <= k < still_on_the_way(pending, rolls, n).len() ==> (
            #[trigger] still_on_the_way(pending, rolls, n)[k]).months_remaining >= 1,
    decreases n,
{
    if n > 0 {
        lemma_months_to_go(pending, rolls, n - 1);
    }
}

/// Law: a month keeps the settlements, routes and traders: their names, identifiers,
/// production, consumption, capacities, costs, hazards and homes; earlier events stay
/// where they are, and what is left on the way has at least a month to go.
pub proof fn law_a_month_keeps<N: Number>(model: WorldModel<N>, rolls: Seq<CargoRoll<N>>)
    requires
        model.wf(),
        model.month < u32::MAX,
    ensures
        ({
            let after = model.after_month(rolls);
            &&& keeps(model, after)
            &&& after.wf()
            &&& after.priced()
            &&& after.month == model.month + 1
            &&& after.expected_total_money == model.expected_total_money
            &&& forall|k: int|
                0 <= k < after.shipments.len() ==> (
                #[trigger] after.shipments[k]).months_remaining >= 1
        }),
{
    law_month_passes(model, rolls);
    let supplied = model.after_supply();
    lemma_supply_wf(model);
    lemma_supply_keeps(model);
    let told = supplied.after_price_update();
    lemma_price_update_wf(supplied);
    lemma_prices_keep(supplied);
    lemma_keeps_on(model, supplied, told);
    let serviced = told.after_interest();
    lemma_interest_wf(told);
    lemma_interest_keeps(told);
    lemma_keeps_on(model, told, serviced);
    assert(serviced.priced()) by {
        assert forall|i: int| 0 <= i < serviced.settlements.len() implies (
        #[trigger] serviced.settlements[i]).prices.total() by {
            assert(told.settlements[i].prices.total());
        }
    }
    let paid = serviced.after_expenses();
    lemma_expenses_wf(serviced);
    lemma_expenses_keep(serviced, serviced.traders.len() as int);
    lemma_keeps_on(model, serviced, paid);
    let opened = paid.after_trading();
    lemma_trading_keeps(paid, paid.traders.len() as int);
    lemma_trading_keeps_balances(paid, paid.traders.len() as int);
    lemma_keeps_on(model, paid, opened);
    assert(opened.priced()) by {
        assert forall|i: int| 0 <= i < opened.settlements.len() implies (
        #[trigger] opened.settlements[i]).prices.total() by {
            assert(paid.settlements[i].prices.total());
        }
    }
    let emptied = WorldModel { shipments: Seq::empty(), ..opened };
    assert(emptied.wf() && emptied.priced()) by {
        assert forall|i: int| 0 <= i < emptied.routes.len() implies emptied.route_wf(
            #[trigger] emptied.routes[i],
        ) by {
            assert(opened.route_wf(opened.routes[i]));
        }
        assert forall|i: int| 0 <= i < emptied.traders.len() implies emptied.trader_wf(
            #[trigger] emptied.traders[i],
        ) by {
            assert(opened.trader_wf(opened.traders[i]));
        }
    }
    assert forall|k: int| 0 <= k < opened.shipments.len() implies emptied.shipment_wf(
        #[trigger] opened.shipments[k],
    ) by {
        assert(opened.shipment_wf(opened.shipments[k]));
    }
    let n = opened.shipments.len() as int;
    lemma_travel_keeps(emptied, opened.shipments, rolls, n);
    lemma_keeps_on(model, emptied, opened.after_advance(rolls));
    law_shipments_travel_or_arrive(opened, rolls);
    lemma_months_to_go(opened.shipments, rolls, n);
}

proof fn lemma_keeps_itself<N>(model: WorldModel<N>)
    ensures
        keeps(model, model),
{
    assert(model.events =~= model.events.subrange(0, model.events.len() as int));
}

/// Law: however many months pass, settlements, routes and traders are the same ones,
/// and no event that was once reported goes away.
pub proof fn law_months_keep<N: Number>(model: WorldModel<N>, luck: Seq<Seq<CargoRoll<N>>>)
    requires
        model.wf(),
        model.month + luck.len() <= u32::MAX,
    ensures
        keeps(model, model.after_months(luck)),
        model.after_months(luck).wf(),
        model.after_months(luck).month == model.month + luck.len(),
        model.after_months(luck).expected_total_money == model.expected_total_money,
    decreases luck.len(),
{
    if luck.len() == 0 {
        lemma_keeps_itself(model);
    } else {
        law_months_keep(model, luck.drop_last());
        let before = model.after_months(luck.drop_last());
        law_a_month_keeps(before, luck.last());
        lemma_keeps_on(model, before, before.after_month(luck.last()));
    }
}

} // verus!
