//! What always holds of shipments on their way and of those that arrive.

use crate::delivery::{
    lemma_settled_shape, lemma_travel_wf, moved, paid_share, travel_report,
    MAX_TRADER_MARGIN_PERCENT,
};
use crate::event::Event;
use crate::finance::{headroom, payable};
use crate::goods::Good;
use crate::number::{
    as_real, fits, hundredths, keeps_order, lemma_product, lemma_quotient, linear_within,
    rounds_down, whole, Number,
};
use crate::settlement::{Settlement, SettlementId};
use crate::shipment::{cargo_left, cargo_loss, CargoRoll, Shipment};
use crate::trader::{TraderId, TraderModel};
use crate::world::{chain, lemma_same_names_wf, WorldModel};
use vstd::prelude::*;

verus! {

/// Law: what an incident takes and what it leaves make up the cargo, and neither
/// is below zero.
pub proof fn law_cargo_is_lost_or_left<N: Number>(
    val: spec_fn(N) -> real,
    limit: real,
    unit: real,
    quantity: N,
    rate: N,
    roll: CargoRoll<N>,
)
    requires
        linear_within(val, limit),
        rounds_down(val, limit, unit),
        0real <= val(quantity) <= limit,
        0real <= val(roll.loss_fraction) <= 1real,
    ensures
        cargo_loss(quantity, rate, roll) is Some <==> val(roll.incident) < val(rate),
        0real <= val(cargo_left(quantity, rate, roll)) <= val(quantity),
        cargo_loss(quantity, rate, roll) matches Some(lost) ==> 0real <= val(lost) && val(lost)
            + val(cargo_left(quantity, rate, roll)) == val(quantity),
{
    reveal(rounds_down);
    let (q, f) = (val(quantity), val(roll.loss_fraction));
    assert(0real <= q * f <= q) by (nonlinear_arith)
        requires
            q >= 0real,
            0real <= f <= 1real,
    ;
    assert(fits(limit, val(quantity) * val(roll.loss_fraction)));
    assert(val(quantity.product(roll.loss_fraction)) <= q);
}

/// Law: an incident happens where the first number drawn lies below the rate, and takes the
/// part of the cargo that the second number says; without one, nothing changes.
pub proof fn law_cargo_loss_in_numbers<N: Number>(
    val: spec_fn(N) -> real,
    limit: real,
    unit: real,
    quantity: N,
    rate: N,
    roll: CargoRoll<N>,
)
    requires
        linear_within(val, limit),
        rounds_down(val, limit, unit),
        0real <= val(quantity) <= limit,
        0real <= val(roll.loss_fraction) <= 1real,
    ensures
        ({
            let (q, f) = (val(quantity), val(roll.loss_fraction));
            let left = cargo_left(quantity, rate, roll);
            &&& val(roll.incident) < val(rate) ==> {
                &&& cargo_loss(quantity, rate, roll) matches Some(lost) && q * f - unit <= val(lost)
                    && val(lost) <= q * f && val(lost) >= 0real && val(left) == q - val(lost)
                &&& q * (1real - f) <= val(left) <= q * (1real - f) + unit
            }
            &&& val(roll.incident) >= val(rate) ==> {
                &&& cargo_loss(quantity, rate, roll) is None
                &&& left == quantity
            }
        }),
{
    law_cargo_is_lost_or_left(val, limit, unit, quantity, rate, roll);
    let (q, f) = (val(quantity), val(roll.loss_fraction));
    assert(0real <= q * f <= q && q * (1real - f) == q - q * f) by (nonlinear_arith)
        requires
            q >= 0real,
            0real <= f <= 1real,
    ;
    lemma_product(val, limit, unit, quantity, roll.loss_fraction);
}

/// Law: a shipment that is still on its way has, after a month, a month less to go and the
/// cargo that its luck left it; what it lost is reported with what remains, and nothing is
/// reported where nothing happened.  One that has no months to go is not at risk.
pub proof fn law_a_month_on_the_way<N: Number>(
    val: spec_fn(N) -> real,
    limit: real,
    unit: real,
    shipment: Shipment<N>,
    roll: CargoRoll<N>,
)
    requires
        linear_within(val, limit),
        rounds_down(val, limit, unit),
        0real <= val(shipment.quantity) <= limit,
        0real <= val(roll.loss_fraction) <= 1real,
    ensures
        ({
            let after = moved(shipment, roll);
            let (q, f) = (val(shipment.quantity), val(roll.loss_fraction));
            let left = val(after.quantity);
            let hit = val(roll.incident) < val(shipment.effective_monthly_incident_rate);
            &&& shipment.months_remaining == 0 ==> after == shipment && travel_report(
                shipment,
                roll,
            ).len() == 0
            &&& shipment.months_remaining > 0 ==> after == (Shipment {
                quantity: after.quantity,
                months_remaining: (shipment.months_remaining - 1) as u32,
                ..shipment
            })
            &&& shipment.months_remaining > 0 && !hit ==> after.quantity == shipment.quantity
                && travel_report(shipment, roll).len() == 0
            &&& shipment.months_remaining > 0 && hit ==> {
                &&& q * (1real - f) <= left <= q * (1real - f) + unit
                &&& exists|lost: N|
                    {
                        &&& #[trigger] val(lost) == q - left
                        &&& travel_report(shipment, roll) == seq![
                            Event::CargoLost {
                                trader: shipment.trader,
                                good: shipment.good,
                                lost,
                                remaining: after.quantity,
                                route: shipment.route,
                            },
                        ]
                    }
            }
        }),
{
    let rate = shipment.effective_monthly_incident_rate;
    law_cargo_loss_in_numbers(val, limit, unit, shipment.quantity, rate, roll);
    if shipment.months_remaining > 0 && val(roll.incident) < val(rate) {
        let lost = cargo_loss(shipment.quantity, rate, roll)->0;
        let after = moved(shipment, roll);
        assert(val(lost) == val(shipment.quantity) - val(after.quantity));
    }
}

/// Law: a month on the way changes a shipment's quantity and its remaining time
/// only; its hazard in particular was settled when it set out.
pub proof fn law_hazard_is_frozen<N: Number>(shipment: Shipment<N>, roll: CargoRoll<N>)
    ensures
        moved(shipment, roll).effective_monthly_incident_rate
            == shipment.effective_monthly_incident_rate,
        moved(shipment, roll) == (Shipment {
            quantity: moved(shipment, roll).quantity,
            months_remaining: moved(shipment, roll).months_remaining,
            ..shipment
        }),
        shipment.months_remaining > 0 ==> moved(shipment, roll).months_remaining
            == shipment.months_remaining - 1,
{
}

/// Those of the first `n` pending shipments that are still on the way a month
/// later.
pub open spec fn still_on_the_way<N: Number>(
    pending: Seq<Shipment<N>>,
    rolls: Seq<CargoRoll<N>>,
    n: int,
) -> Seq<Shipment<N>>
    decreases n,
{
    if n <= 0 {
        Seq::empty()
    } else {
        let before = still_on_the_way(pending, rolls, n - 1);
        let last = moved(pending[n - 1], rolls[n - 1]);
        if last.months_remaining > 0 {
            before.push(last)
        } else {
            before
        }
    }
}

proof fn lemma_travelers<N: Number>(
    model: WorldModel<N>,
    pending: Seq<Shipment<N>>,
    rolls: Seq<CargoRoll<N>>,
    n: int,
)
    requires
        model.shipments == Seq::<Shipment<N>>::empty(),
    ensures
        model.after_travel_of(pending, rolls, n).shipments == still_on_the_way(pending, rolls, n),
    decreases n,
{
    if n > 0 {
        lemma_travelers(model, pending, rolls, n - 1);
    }
}

/// Law: a month later, the shipments on the way are those that still have months
/// to go, in the order in which they set out; all others have arrived.
pub proof fn law_shipments_travel_or_arrive<N: Number>(
    model: WorldModel<N>,
    rolls: Seq<CargoRoll<N>>,
)
    ensures
        model.after_advance(rolls).shipments == still_on_the_way(
            model.shipments,
            rolls,
            model.shipments.len() as int,
        ),
{
    let emptied = WorldModel { shipments: Seq::empty(), ..model };
    lemma_travelers(emptied, model.shipments, rolls, model.shipments.len() as int);
}

/// Law: when a shipment arrives, its trader is where the buyer is and knows the
/// prices there.
pub proof fn law_arrival_brings_the_trader<N: Number>(
    model: WorldModel<N>,
    shipment: Shipment<N>,
    good: Good,
)
    requires
        model.wf(),
        model.shipment_wf(shipment),
    ensures
        ({
            let after = model.after_arrival(shipment);
            let trader = after.traders[shipment.trader as int];
            &&& trader.location == shipment.buyer
            &&& trader.home_base == model.traders[shipment.trader as int].home_base
            &&& trader.known_prices.contains_key((shipment.buyer, good))
            &&& trader.known_prices[(shipment.buyer, good)] == after.price_at(
                shipment.buyer,
                good,
            )
        }),
{
    lemma_settled_shape(model, shipment);
    assert(model.settled(shipment)[shipment.buyer as int].prices
        == model.settlements[shipment.buyer as int].prices);
}


/// A shipment that arrives this month.
pub open spec fn arrives<N>(shipment: Shipment<N>) -> bool {
    shipment.months_remaining <= 1
}

/// Every shipment that stays on the way has between nothing and all of the cargo
/// that it had.
proof fn lemma_travelers_shrink<N: Number>(
    val: spec_fn(N) -> real,
    limit: real,
    unit: real,
    pending: Seq<Shipment<N>>,
    rolls: Seq<CargoRoll<N>>,
    n: int,
)
    requires
        linear_within(val, limit),
        rounds_down(val, limit, unit),
        0 <= n <= pending.len() <= rolls.len(),
        forall|k: int|
            0 <= k < pending.len() ==> 0real <= val((#[trigger] pending[k]).quantity) <= limit,
        forall|k: int|
            0 <= k < rolls.len() ==> 0real <= val((#[trigger] rolls[k]).loss_fraction) <= 1real,
    ensures
        forall|j: int|
            0 <= j < still_on_the_way(pending, rolls, n).len() ==> exists|k: int|
                {
                    &&& 0 <= k < n
                    &&& !arrives(pending[k])
                    &&& (#[trigger] still_on_the_way(pending, rolls, n)[j]) == moved(
                        #[trigger] pending[k],
                        rolls[k],
                    )
                    &&& moved(pending[k], rolls[k]).months_remaining
                        == pending[k].months_remaining - 1
                    &&& 0real <= val(moved(pending[k], rolls[k]).quantity) <= val(
                        pending[k].quantity,
                    )
                },
    decreases n,
{
    if n > 0 {
        lemma_travelers_shrink(val, limit, unit, pending, rolls, n - 1);
        let before = still_on_the_way(pending, rolls, n - 1);
        let all = still_on_the_way(pending, rolls, n);
        let last = pending[n - 1];
        assert(0real <= val(rolls[n - 1].loss_fraction) <= 1real);
        law_cargo_is_lost_or_left(
            val,
            limit,
            unit,
            last.quantity,
            last.effective_monthly_incident_rate,
            rolls[n - 1],
        );
        assert forall|j: int| 0 <= j < all.len() implies exists|k: int|
            {
                &&& 0 <= k < n
                &&& !arrives(pending[k])
                &&& (#[trigger] all[j]) == moved(#[trigger] pending[k], rolls[k])
                &&& moved(pending[k], rolls[k]).months_remaining == pending[k].months_remaining
                    - 1
                &&& 0real <= val(moved(pending[k], rolls[k]).quantity) <= val(pending[k].quantity)
            } by {
            if j < before.len() {
                assert(all[j] == before[j]);
            } else {
                assert(all[j] == moved(pending[n - 1], rolls[n - 1]));
            }
        }
    }
}

/// Law: every shipment that is on the way after a month was on the way before it,
/// with a month more to go, and has between nothing and all of the cargo that it
/// had.
pub proof fn law_shipments_on_the_way_shrink<N: Number>(
    val: spec_fn(N) -> real,
    limit: real,
    unit: real,
    model: WorldModel<N>,
    rolls: Seq<CargoRoll<N>>,
)
    requires
        linear_within(val, limit),
        rounds_down(val, limit, unit),
        model.shipments.len() <= rolls.len(),
        forall|k: int|
            0 <= k < model.shipments.len() ==> 0real <= val(
                (#[trigger] model.shipments[k]).quantity,
            ) <= limit,
        forall|k: int|
            0 <= k < rolls.len() ==> 0real <= val((#[trigger] rolls[k]).loss_fraction) <= 1real,
    ensures
        forall|j: int|
            0 <= j < model.after_advance(rolls).shipments.len() ==> exists|k: int|
                {
                    &&& 0 <= k < model.shipments.len()
                    &&& !arrives(model.shipments[k])
                    &&& (#[trigger] model.after_advance(rolls).shipments[j]) == moved(
                        #[trigger] model.shipments[k],
                        rolls[k],
                    )
                    &&& moved(model.shipments[k], rolls[k]).months_remaining
                        == model.shipments[k].months_remaining - 1
                    &&& 0real <= val(moved(model.shipments[k], rolls[k]).quantity) <= val(
                        model.shipments[k].quantity,
                    )
                },
{
    law_shipments_travel_or_arrive(model, rolls);
    lemma_travelers_shrink(
        val,
        limit,
        unit,
        model.shipments,
        rolls,
        model.shipments.len() as int,
    );
}

/// What is reported of an arrival.
pub open spec fn arrival_event<N: Number>(
    model: WorldModel<N>,
    shipment: Shipment<N>,
) -> Event<N> {
    let share = model.share_paid(shipment);
    Event::ShipmentArrived {
        trader: shipment.trader,
        good: shipment.good,
        quantity: shipment.quantity.product(share),
        initial_quantity: shipment.initial_quantity,
        seller: shipment.seller,
        buyer: shipment.buyer,
        profit: model.invoice_of(shipment).profit.product(share),
    }
}

/// What is reported of the `k`-th shipment's month: what it lost on the way, if it
/// lost anything, and that it arrived, if it did.
pub open spec fn journey_report<N: Number>(
    model: WorldModel<N>,
    pending: Seq<Shipment<N>>,
    rolls: Seq<CargoRoll<N>>,
    k: int,
) -> Seq<Event<N>> {
    travel_report(pending[k], rolls[k]) + if arrives(pending[k]) {
        seq![
            arrival_event(
                model.after_travel_of(pending, rolls, k),
                moved(pending[k], rolls[k]),
            ),
        ]
    } else {
        seq![]
    }
}

/// What is reported of the month of the first `n` shipments, one after the other.
pub open spec fn journey_reports<N: Number>(
    model: WorldModel<N>,
    pending: Seq<Shipment<N>>,
    rolls: Seq<CargoRoll<N>>,
    n: int,
) -> Seq<Event<N>> {
    chain(n, |k: int| journey_report(model, pending, rolls, k))
}

/// How many arrivals the events report.
pub open spec fn arrivals_in<N>(events: Seq<Event<N>>) -> nat
    decreases events.len(),
{
    if events.len() == 0 {
        0
    } else {
        arrivals_in(events.drop_last()) + if events.last() is ShipmentArrived {
            1nat
        } else {
            0nat
        }
    }
}

/// How many of the first `n` shipments arrive.
pub open spec fn arriving<N>(pending: Seq<Shipment<N>>, n: int) -> nat
    decreases n,
{
    if n <= 0 {
        0
    } else {
        arriving(pending, n - 1) + if arrives(pending[n - 1]) {
            1nat
        } else {
            0nat
        }
    }
}

proof fn lemma_arrivals_add<N>(a: Seq<Event<N>>, b: Seq<Event<N>>)
    ensures
        arrivals_in(a + b) == arrivals_in(a) + arrivals_in(b),
    decreases b.len(),
{
    if b.len() == 0 {
        assert(a + b =~= a);
    } else {
        lemma_arrivals_add(a, b.drop_last());
        assert((a + b).drop_last() =~= a + b.drop_last());
    }
}

/// The money of `trader` who starts with `money` and earns the profits, or bears
/// the losses, of their arrivals.
pub open spec fn earned<N: Number>(money: N, events: Seq<Event<N>>, trader: TraderId) -> N
    decreases events.len(),
{
    if events.len() == 0 {
        money
    } else {
        let before = earned(money, events.drop_last(), trader);
        match events.last() {
            Event::ShipmentArrived { trader: who, profit, .. } => if who == trader {
                before.sum(profit)
            } else {
                before
            },
            _ => before,
        }
    }
}

proof fn lemma_earned_add<N: Number>(
    money: N,
    a: Seq<Event<N>>,
    b: Seq<Event<N>>,
    trader: TraderId,
)
    ensures
        earned(money, a + b, trader) == earned(earned(money, a, trader), b, trader),
    decreases b.len(),
{
    if b.len() == 0 {
        assert(a + b =~= a);
    } else {
        lemma_earned_add(money, a, b.drop_last(), trader);
        assert((a + b).drop_last() =~= a + b.drop_last());
    }
}

/// The profits of `trader` that the events report, together.
pub open spec fn profits<N: Number>(
    val: spec_fn(N) -> real,
    events: Seq<Event<N>>,
    trader: TraderId,
) -> real
    decreases events.len(),
{
    if events.len() == 0 {
        0real
    } else {
        profits(val, events.drop_last(), trader) + match events.last() {
            Event::ShipmentArrived { trader: who, profit, .. } => if who == trader {
                val(profit)
            } else {
                0real
            },
            _ => 0real,
        }
    }
}

/// The money of `trader` stays between `-limit` and `limit` as the events come in.
pub open spec fn earnings_fit<N: Number>(
    val: spec_fn(N) -> real,
    limit: real,
    money: N,
    events: Seq<Event<N>>,
    trader: TraderId,
) -> bool {
    forall|k: int|
        0 <= k <= events.len() ==> fits(
            limit,
            val(money) + #[trigger] profits(val, events.take(k), trader),
        )
}

proof fn lemma_earned_is_a_sum<N: Number>(
    val: spec_fn(N) -> real,
    limit: real,
    money: N,
    events: Seq<Event<N>>,
    trader: TraderId,
)
    requires
        linear_within(val, limit),
        earnings_fit(val, limit, money, events, trader),
    ensures
        val(earned(money, events, trader)) == val(money) + profits(val, events, trader),
    decreases events.len(),
{
    if events.len() > 0 {
        let before = events.drop_last();
        assert(events.take(events.len() as int) =~= events);
        assert forall|k: int| 0 <= k <= before.len() implies fits(
            limit,
            val(money) + #[trigger] profits(val, before.take(k), trader),
        ) by {
            assert(before.take(k) =~= events.take(k));
        }
        lemma_earned_is_a_sum(val, limit, money, before, trader);
        assert(fits(
            limit,
            val(money) + profits(val, events.take(events.len() as int), trader),
        ));
    }
}

/// The buyer of the last of the first `n` shipments with which `trader` arrives.
pub open spec fn last_destination<N>(
    pending: Seq<Shipment<N>>,
    trader: TraderId,
    n: int,
) -> Option<SettlementId>
    decreases n,
{
    if n <= 0 {
        None
    } else if arrives(pending[n - 1]) && pending[n - 1].trader == trader {
        Some(pending[n - 1].buyer)
    } else {
        last_destination(pending, trader, n - 1)
    }
}

/// One of the first `n` shipments brings `trader` to `place`.
pub open spec fn visited<N>(
    pending: Seq<Shipment<N>>,
    trader: TraderId,
    place: SettlementId,
    n: int,
) -> bool {
    exists|k: int|
        0 <= k < n && arrives(#[trigger] pending[k]) && pending[k].trader == trader
            && pending[k].buyer == place
}

/// Calendar, routes, and all of the settlements but their money and stores are as
/// they were.
pub open spec fn rest_kept<N: Number>(before: WorldModel<N>, after: WorldModel<N>) -> bool {
    &&& after.month == before.month
    &&& after.expected_total_money == before.expected_total_money
    &&& after.routes == before.routes
    &&& after.settlements.len() == before.settlements.len()
    &&& after.traders.len() == before.traders.len()
    &&& forall|i: int|
        0 <= i < before.settlements.len() ==> #[trigger] after.settlements[i] == (Settlement {
            money: after.settlements[i].money,
            stockpiles: after.settlements[i].stockpiles,
            ..before.settlements[i]
        })
}

/// The trader moved with the arrivals among the first `n` shipments, and with
/// nothing else: to the buyer of the last of them, with the profits of all of them.
pub open spec fn moved_with<N: Number>(
    old_trader: TraderModel<N>,
    new_trader: TraderModel<N>,
    pending: Seq<Shipment<N>>,
    reports: Seq<Event<N>>,
    n: int,
    trader: TraderId,
) -> bool {
    &&& new_trader == (TraderModel {
        money: earned(old_trader.money, reports, trader),
        location: match last_destination(pending, trader, n) {
            Some(place) => place,
            None => old_trader.location,
        },
        known_prices: new_trader.known_prices,
        ..old_trader
    })
    &&& last_destination(pending, trader, n) is None ==> new_trader == old_trader
}

/// The trader knows the prices of the buyers of the arrivals among the first `n`
/// shipments, and remembers of other places what they did.
pub open spec fn knows_buyers<N: Number>(
    market: WorldModel<N>,
    old_trader: TraderModel<N>,
    new_trader: TraderModel<N>,
    pending: Seq<Shipment<N>>,
    n: int,
    trader: TraderId,
) -> bool {
    forall|place: SettlementId, good: Good|
        #![trigger new_trader.known_prices.contains_key((place, good))]
        if visited(pending, trader, place, n) {
            &&& new_trader.known_prices.contains_key((place, good))
            &&& new_trader.known_prices[(place, good)] == market.price_at(place, good)
        } else {
            &&& new_trader.known_prices.contains_key((place, good))
                <==> old_trader.known_prices.contains_key((place, good))
            &&& old_trader.known_prices.contains_key((place, good))
                ==> new_trader.known_prices[(place, good)] == old_trader.known_prices[(
                place,
                good,
            )]
        }
}

/// What the month of the first `n` shipments does to the world, seen at `trader`.
pub open spec fn well_traveled<N: Number>(
    before: WorldModel<N>,
    after: WorldModel<N>,
    pending: Seq<Shipment<N>>,
    rolls: Seq<CargoRoll<N>>,
    n: int,
    trader: TraderId,
) -> bool {
    let reports = journey_reports(before, pending, rolls, n);
    let old_trader = before.traders[trader as int];
    let new_trader = after.traders[trader as int];
    &&& rest_kept(before, after)
    &&& after.events == before.events + reports
    &&& arrivals_in(reports) == arriving(pending, n)
    &&& moved_with(old_trader, new_trader, pending, reports, n, trader)
    &&& knows_buyers(before, old_trader, new_trader, pending, n, trader)
}

/// One report more.
proof fn lemma_one_report<N: Number>(
    model: WorldModel<N>,
    pending: Seq<Shipment<N>>,
    rolls: Seq<CargoRoll<N>>,
    n: int,
    money: N,
    trader: TraderId,
)
    requires
        n > 0,
    ensures
        ({
            let before = journey_reports(model, pending, rolls, n - 1);
            let all = journey_reports(model, pending, rolls, n);
            let state = model.after_travel_of(pending, rolls, n - 1);
            let shipment = moved(pending[n - 1], rolls[n - 1]);
            let share = state.share_paid(shipment);
            &&& all == before + journey_report(model, pending, rolls, n - 1)
            &&& arrivals_in(all) == arrivals_in(before) + if arrives(pending[n - 1]) {
                1nat
            } else {
                0nat
            }
            &&& earned(money, all, trader) == if arrives(pending[n - 1]) && pending[n - 1].trader
                == trader {
                earned(money, before, trader).sum(
                    state.invoice_of(shipment).profit.product(share),
                )
            } else {
                earned(money, before, trader)
            }
        }),
{
    let before = journey_reports(model, pending, rolls, n - 1);
    let one = journey_report(model, pending, rolls, n - 1);
    let way = travel_report(pending[n - 1], rolls[n - 1]);
    lemma_arrivals_add(before, one);
    lemma_earned_add(money, before, one, trader);
    let state = model.after_travel_of(pending, rolls, n - 1);
    let shipment = moved(pending[n - 1], rolls[n - 1]);
    assert(arrivals_in(way) == 0 && earned(earned(money, before, trader), way, trader) == earned(
        money,
        before,
        trader,
    )) by {
        if way.len() > 0 {
            assert(way.drop_last() =~= Seq::empty());
            assert(arrivals_in(way.drop_last()) == 0);
            assert(earned(earned(money, before, trader), way.drop_last(), trader) == earned(
                money,
                before,
                trader,
            ));
        }
    }
    if arrives(pending[n - 1]) {
        assert(one.drop_last() =~= way);
        assert(one.last() == arrival_event(state, shipment));
    } else {
        assert(one =~= way);
    }
}

proof fn lemma_rest_kept<N: Number>(
    model: WorldModel<N>,
    pending: Seq<Shipment<N>>,
    rolls: Seq<CargoRoll<N>>,
    n: int,
)
    requires
        model.wf(),
        model.priced(),
        0 <= n <= pending.len(),
        forall|k: int| 0 <= k < pending.len() ==> model.shipment_wf(#[trigger] pending[k]),
    ensures
        model.after_travel_of(pending, rolls, n).wf(),
        model.after_travel_of(pending, rolls, n).priced(),
        rest_kept(model, model.after_travel_of(pending, rolls, n)),
    decreases n,
{
    if n > 0 {
        lemma_rest_kept(model, pending, rolls, n - 1);
        let before = model.after_travel_of(pending, rolls, n - 1);
        let after = model.after_travel_of(pending, rolls, n);
        assert(model.shipment_wf(pending[n - 1]));
        lemma_travel_wf(before, pending[n - 1], rolls[n - 1]);
        assert(before.route_wf(before.routes[pending[n - 1].route as int]));
        assert forall|i: int| 0 <= i < model.settlements.len() implies #[trigger] after.settlements[i]
            == (Settlement {
            money: after.settlements[i].money,
            stockpiles: after.settlements[i].stockpiles,
            ..model.settlements[i]
        }) by {
            assert(before.settlements[i] == (Settlement {
                money: before.settlements[i].money,
                stockpiles: before.settlements[i].stockpiles,
                ..model.settlements[i]
            }));
        }
    }
}

proof fn lemma_reported<N: Number>(
    model: WorldModel<N>,
    pending: Seq<Shipment<N>>,
    rolls: Seq<CargoRoll<N>>,
    n: int,
)
    requires
        0 <= n <= pending.len(),
    ensures
        model.after_travel_of(pending, rolls, n).events == model.events + journey_reports(
            model,
            pending,
            rolls,
            n,
        ),
        arrivals_in(journey_reports(model, pending, rolls, n)) == arriving(pending, n),
    decreases n,
{
    if n > 0 {
        lemma_reported(model, pending, rolls, n - 1);
        let before = model.after_travel_of(pending, rolls, n - 1);
        let last = pending[n - 1];
        let shipment = moved(last, rolls[n - 1]);
        lemma_one_report(model, pending, rolls, n, model.expected_total_money, 0);
        let reported = WorldModel {
            events: before.events + travel_report(last, rolls[n - 1]),
            ..before
        };
        assert(reported.invoice_of(shipment) == before.invoice_of(shipment));
        assert(reported.share_paid(shipment) == before.share_paid(shipment));
        assert(model.after_travel_of(pending, rolls, n).events =~= model.events + journey_reports(
            model,
            pending,
            rolls,
            n,
        ));
    } else {
        let none = journey_reports(model, pending, rolls, n);
        assert(none =~= Seq::empty());
        assert(model.events + none =~= model.events);
    }
}

proof fn lemma_trader_followed<N: Number>(
    model: WorldModel<N>,
    pending: Seq<Shipment<N>>,
    rolls: Seq<CargoRoll<N>>,
    n: int,
    trader: TraderId,
)
    requires
        model.wf(),
        model.priced(),
        0 <= n <= pending.len(),
        forall|k: int| 0 <= k < pending.len() ==> model.shipment_wf(#[trigger] pending[k]),
        trader < model.traders.len(),
    ensures
        ({
            let old_trader = model.traders[trader as int];
            let new_trader = model.after_travel_of(pending, rolls, n).traders[trader as int];
            let reports = journey_reports(model, pending, rolls, n);
            &&& moved_with(old_trader, new_trader, pending, reports, n, trader)
            &&& knows_buyers(model, old_trader, new_trader, pending, n, trader)
        }),
    decreases n,
{
    let old_trader = model.traders[trader as int];
    if n > 0 {
        lemma_trader_followed(model, pending, rolls, n - 1, trader);
        lemma_rest_kept(model, pending, rolls, n - 1);
        lemma_one_report(model, pending, rolls, n, old_trader.money, trader);
        let before = model.after_travel_of(pending, rolls, n - 1);
        let after = model.after_travel_of(pending, rolls, n);
        let last = pending[n - 1];
        let shipment = moved(last, rolls[n - 1]);
        assert(model.shipment_wf(last));
        let reported = WorldModel {
            events: before.events + travel_report(last, rolls[n - 1]),
            ..before
        };
        assert(reported.invoice_of(shipment) == before.invoice_of(shipment));
        assert(reported.share_paid(shipment) == before.share_paid(shipment));
        let mid_trader = before.traders[trader as int];
        let new_trader = after.traders[trader as int];
        if !(arrives(last) && last.trader == trader) {
            assert(new_trader == mid_trader);
        }
        lemma_visits(model, before, pending, rolls, n, trader);
    } else {
        assert(journey_reports(model, pending, rolls, n) =~= Seq::empty());
    }
}

/// One more arrival, seen at one trader.
proof fn lemma_visits<N: Number>(
    model: WorldModel<N>,
    before: WorldModel<N>,
    pending: Seq<Shipment<N>>,
    rolls: Seq<CargoRoll<N>>,
    n: int,
    trader: TraderId,
)
    requires
        0 < n <= pending.len(),
        before.wf(),
        rest_kept(model, before),
        model.shipment_wf(pending[n - 1]),
        trader < model.traders.len(),
        knows_buyers(
            model,
            model.traders[trader as int],
            before.traders[trader as int],
            pending,
            n - 1,
            trader,
        ),
    ensures
        knows_buyers(
            model,
            model.traders[trader as int],
            before.after_travel(pending[n - 1], rolls[n - 1]).traders[trader as int],
            pending,
            n,
            trader,
        ),
{
    let last = pending[n - 1];
    let shipment = moved(last, rolls[n - 1]);
    let after = before.after_travel(last, rolls[n - 1]);
    let old_trader = model.traders[trader as int];
    let mid_trader = before.traders[trader as int];
    let new_trader = after.traders[trader as int];
    let reported = WorldModel {
        events: before.events + travel_report(last, rolls[n - 1]),
        ..before
    };
    assert(reported.wf()) by {
        assert(before.same_names(reported));
        lemma_same_names_wf(before, reported);
    }
    assert(reported.shipment_wf(shipment));
    lemma_settled_shape(reported, shipment);
    assert(before.settlements[last.buyer as int].prices
        == model.settlements[last.buyer as int].prices);
    assert forall|place: SettlementId, good: Good|
        #![trigger new_trader.known_prices.contains_key((place, good))]
        if visited(pending, trader, place, n) {
            &&& new_trader.known_prices.contains_key((place, good))
            &&& new_trader.known_prices[(place, good)] == model.price_at(place, good)
        } else {
            &&& new_trader.known_prices.contains_key((place, good))
                <==> old_trader.known_prices.contains_key((place, good))
            &&& old_trader.known_prices.contains_key((place, good))
                ==> new_trader.known_prices[(place, good)] == old_trader.known_prices[(
                place,
                good,
            )]
        } by {
        let _ = mid_trader.known_prices.contains_key((place, good));
        let here = arrives(last) && last.trader == trader && last.buyer == place;
        assert(visited(pending, trader, place, n) <==> here || visited(
            pending,
            trader,
            place,
            n - 1,
        )) by {
            if here {
                assert(arrives(pending[n - 1]));
            }
        }
    }
}

/// Law: a month on the road leaves prices, production, consumption, routes, calendar
/// and earlier events alone.  Every shipment that arrives is reported exactly once,
/// and no other is.  A trader's money changes by the profits and losses that are
/// reported of them.  A trader who arrives is where the last of their buyers is, and
/// knows the prices of all the buyers; one who does not is as before.
pub proof fn law_advance_is_all_there_is<N: Number>(
    model: WorldModel<N>,
    rolls: Seq<CargoRoll<N>>,
    trader: TraderId,
)
    requires
        model.wf(),
        model.priced(),
        trader < model.traders.len(),
    ensures
        well_traveled(
            WorldModel { shipments: Seq::empty(), ..model },
            model.after_advance(rolls),
            model.shipments,
            rolls,
            model.shipments.len() as int,
            trader,
        ),
{
    let emptied = WorldModel { shipments: Seq::empty(), ..model };
    assert(emptied.wf()) by {
        assert forall|i: int| 0 <= i < emptied.routes.len() implies emptied.route_wf(
            #[trigger] emptied.routes[i],
        ) by {
            assert(model.route_wf(model.routes[i]));
        }
        assert forall|i: int| 0 <= i < emptied.traders.len() implies emptied.trader_wf(
            #[trigger] emptied.traders[i],
        ) by {
            assert(model.trader_wf(model.traders[i]));
        }
    }
    assert forall|i: int| 0 <= i < emptied.settlements.len() implies (
    #[trigger] emptied.settlements[i]).prices.total() by {
        assert(model.settlements[i].prices.total());
    }
    assert forall|k: int| 0 <= k < model.shipments.len() implies emptied.shipment_wf(
        #[trigger] model.shipments[k],
    ) by {
        assert(model.shipment_wf(model.shipments[k]));
    }
    let n = model.shipments.len() as int;
    lemma_rest_kept(emptied, model.shipments, rolls, n);
    lemma_reported(emptied, model.shipments, rolls, n);
    lemma_trader_followed(emptied, model.shipments, rolls, n, trader);
}

/// Law: over a month on the road, a trader's money changes by the sum of the profits
/// that are reported of them.
pub proof fn law_profits_reach_the_trader<N: Number>(
    val: spec_fn(N) -> real,
    limit: real,
    model: WorldModel<N>,
    rolls: Seq<CargoRoll<N>>,
    trader: TraderId,
)
    requires
        linear_within(val, limit),
        model.wf(),
        model.priced(),
        trader < model.traders.len(),
        earnings_fit(
            val,
            limit,
            model.traders[trader as int].money,
            model.after_advance(rolls).events.skip(model.events.len() as int),
            trader,
        ),
    ensures
        val(model.after_advance(rolls).traders[trader as int].money) == val(
            model.traders[trader as int].money,
        ) + profits(
            val,
            model.after_advance(rolls).events.skip(model.events.len() as int),
            trader,
        ),
{
    law_advance_is_all_there_is(model, rolls, trader);
    let emptied = WorldModel { shipments: Seq::empty(), ..model };
    let reports = journey_reports(
        emptied,
        model.shipments,
        rolls,
        model.shipments.len() as int,
    );
    assert(model.after_advance(rolls).events.skip(model.events.len() as int) =~= reports);
    lemma_earned_is_a_sum(val, limit, model.traders[trader as int].money, reports, trader);
}

/// The part of a bill that is paid lies between zero and one.
proof fn lemma_share_is_a_share<N: Number>(
    val: spec_fn(N) -> real,
    limit: real,
    unit: real,
    buyer: Settlement<N>,
    revenue: N,
)
    requires
        linear_within(val, limit),
        rounds_down(val, limit, unit),
        limit >= 1real,
    ensures
        0real <= val(paid_share(buyer, revenue)) <= 1real,
        val(revenue) <= 0real ==> val(paid_share(buyer, revenue)) == 0real,
{
    assert(val(whole::<N>(0)) == 0real);
    if val(revenue) > 0real {
        let (paid, all) = (val(payable(buyer, revenue)), val(revenue));
        assert(val(headroom(buyer)) >= 0real);
        assert(0real <= paid / all <= 1real) by (nonlinear_arith)
            requires
                0real <= paid <= all,
                all > 0real,
        ;
        lemma_quotient(val, limit, unit, payable(buyer, revenue), revenue);
    }
}

/// Law: the profit that is reported of an arrival is at most fifteen hundredths of
/// what the reported quantity, and a unit of rounding more, costs the buyer.
pub proof fn law_reported_profit_is_capped<N: Number>(
    val: spec_fn(N) -> real,
    limit: real,
    unit: real,
    model: WorldModel<N>,
    shipment: Shipment<N>,
)
    requires
        linear_within(val, limit),
        rounds_down(val, limit, unit),
        keeps_order(val),
        limit >= 1real,
        fits(limit, val(shipment.quantity)),
        fits(
            limit,
            val(shipment.quantity) * val(model.price_at(shipment.buyer, shipment.good)),
        ),
    ensures
        ({
            let price = val(model.price_at(shipment.buyer, shipment.good));
            arrival_event(model, shipment) matches Event::ShipmentArrived { quantity, profit, .. }
                ==> {
                &&& price >= 0real ==> val(profit) <= (val(quantity) + unit) * price * (15real
                    / 100real)
                &&& price < 0real ==> val(profit) <= val(quantity) * price * (15real / 100real)
            }
        }),
{
    let buyer = model.settlements[shipment.buyer as int];
    let bill = model.invoice_of(shipment);
    let sell_price = model.price_at(shipment.buyer, shipment.good);
    let share = model.share_paid(shipment);
    lemma_share_is_a_share(val, limit, unit, buyer, bill.revenue);
    lemma_product(val, limit, unit, shipment.quantity, sell_price);
    let (q, p, s, revenue) = (val(shipment.quantity), val(sell_price), val(share), val(bill.revenue));
    assert(fits(limit, q * s)) by (nonlinear_arith)
        requires
            fits(limit, q),
            0real <= s <= 1real,
    ;
    lemma_product(val, limit, unit, shipment.quantity, share);
    let delivered = val(shipment.quantity.product(share));
    let profit = val(bill.profit);
    let gain = val(bill.profit.product(share));
    let margin = hundredths::<N>(MAX_TRADER_MARGIN_PERCENT);
    assert(val(margin) * 100real == 15real);
    if revenue <= 0real {
        assert(profit * s == 0real && q * s == 0real) by (nonlinear_arith)
            requires
                s == 0real,
        ;
        assert(as_real(0) == 0real);
        lemma_product(val, limit, unit, bill.profit, share);
        assert(gain == 0real && delivered == 0real);
        assert(p >= 0real ==> 0real <= (delivered + unit) * p * (15real / 100real))
            by (nonlinear_arith)
            requires
                delivered == 0real,
                unit >= 0real,
        ;
        assert(delivered * p * (15real / 100real) == 0real) by (nonlinear_arith)
            requires
                delivered == 0real,
        ;
    } else {
        assert(revenue * val(margin) == revenue * 15real / 100real) by (nonlinear_arith)
            requires
                val(margin) * 100real == 15real,
        ;
        lemma_product(val, limit, unit, bill.revenue, margin);
        assert(profit <= revenue * 15real / 100real);
        assert(gain <= q * p * s * (15real / 100real)) by {
            if profit > 0real {
                assert(0real <= profit * s <= profit) by (nonlinear_arith)
                    requires
                        profit > 0real,
                        0real <= s <= 1real,
                ;
                lemma_product(val, limit, unit, bill.profit, share);
                assert(profit * s <= q * p * s * (15real / 100real)) by (nonlinear_arith)
                    requires
                        profit <= revenue * 15real / 100real,
                        revenue <= q * p,
                        0real <= s,
                ;
            } else {
                reveal(keeps_order);
                assert(gain <= 0real);
                assert(0real <= q * p * s * (15real / 100real)) by (nonlinear_arith)
                    requires
                        0real <= q * p,
                        0real <= s,
                ;
            }
        }
        assert(p >= 0real ==> q * p * s * (15real / 100real) <= (delivered + unit) * p * (15real
            / 100real)) by (nonlinear_arith)
            requires
                q * s <= delivered + unit,
        ;
        assert(p < 0real ==> q * p * s * (15real / 100real) <= delivered * p * (15real / 100real))
            by (nonlinear_arith)
            requires
                delivered <= q * s,
        ;
    }
}

} // verus!
