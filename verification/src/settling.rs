//! What everyone gets when a shipment arrives, in reals, as far as the arithmetic is exact.

use crate::delivery::{
    after_receipt, lemma_settled_shape, supplied, MAX_TRADER_MARGIN_PERCENT,
};
use crate::event::Event;
use crate::figures::{least, most};
use crate::finance::{debited, headroom, payable};
use crate::goods::Good;
use crate::number::{exact, hundredths, linear, multiplicative, whole, Number};
use crate::settlement::{Settlement, SettlementId};
use crate::shipment::Shipment;
use crate::trader::TraderModel;
use crate::world::WorldModel;
use vstd::prelude::*;

verus! {

/// The account of an arrival, in reals: what the buyer is to pay, what the seller is owed,
/// what the way costs, what the trader may keep and what the buyer gets back, and what the
/// buyer can pay.
pub struct Account {
    pub revenue: real,
    pub purchase: real,
    pub transport: real,
    pub profit: real,
    pub rebate: real,
    pub paid: real,
    pub share: real,
}

/// The account of `quantity` units, out of `loaded` that were bought at `bought_at`, that
/// sell at `price` and came at `cost` each, to a buyer who can pay out `means`: the trader
/// keeps fifteen hundredths of the revenue at most, and gives the rest back.
pub open spec fn account(
    quantity: real,
    loaded: real,
    bought_at: real,
    price: real,
    cost: real,
    means: real,
) -> Account {
    let revenue = quantity * price;
    let purchase = loaded * bought_at;
    let transport = quantity * cost;
    let gain = revenue - purchase - transport;
    let profit = least(gain, revenue * 15real / 100real);
    let paid = least(revenue, most(means, 0real));
    Account {
        revenue,
        purchase,
        transport,
        profit,
        rebate: gain - profit,
        paid,
        share: if revenue > 0real {
            paid / revenue
        } else {
            0real
        },
    }
}

/// The account of a shipment that arrives now.
pub open spec fn account_of<N: Number>(
    val: spec_fn(N) -> real,
    model: WorldModel<N>,
    shipment: Shipment<N>,
) -> Account {
    let buyer = model.settlements[shipment.buyer as int];
    account(
        val(shipment.quantity),
        val(shipment.initial_quantity),
        val(shipment.buy_price),
        val(model.price_at(shipment.buyer, shipment.good)),
        val(model.routes[shipment.route as int].cost_per_unit),
        val(buyer.money) + val(buyer.borrowing_limit()),
    )
}

/// What the treasury of `place` gains from an arrival: the buyer pays and gets the rebate,
/// the seller gets the price, and each end of the route half of the transport cost, all by
/// the share of the bill that is paid.
pub open spec fn gain_of<N: Number>(
    val: spec_fn(N) -> real,
    model: WorldModel<N>,
    shipment: Shipment<N>,
    place: SettlementId,
) -> real {
    let bill = account_of(val, model, shipment);
    let route = model.routes[shipment.route as int];
    (if place == shipment.buyer {
        bill.rebate * bill.share - bill.paid
    } else {
        0real
    }) + (if place == shipment.seller {
        bill.purchase * bill.share
    } else {
        0real
    }) + (if place == route.a {
        bill.transport * bill.share / 2real
    } else {
        0real
    }) + (if place == route.b {
        bill.transport * bill.share / 2real
    } else {
        0real
    })
}

/// The account as it is kept is the account of the reals.
proof fn lemma_account<N: Number>(
    val: spec_fn(N) -> real,
    model: WorldModel<N>,
    shipment: Shipment<N>,
)
    requires
        exact(val),
    ensures
        ({
            let bill = model.invoice_of(shipment);
            let real_bill = account_of(val, model, shipment);
            &&& val(bill.revenue) == real_bill.revenue
            &&& val(bill.purchase) == real_bill.purchase
            &&& val(bill.transport) == real_bill.transport
            &&& val(bill.profit) == real_bill.profit
            &&& val(bill.rebate) == real_bill.rebate
            &&& val(
                payable(model.settlements[shipment.buyer as int], bill.revenue),
            ) == real_bill.paid
            &&& val(model.share_paid(shipment)) == real_bill.share
        }),
{
    reveal(multiplicative);
    let bill = model.invoice_of(shipment);
    let margin = hundredths::<N>(MAX_TRADER_MARGIN_PERCENT);
    let r = val(bill.revenue);
    assert(val(margin) * 100real == 15real);
    assert(r * val(margin) == r * 15real / 100real) by (nonlinear_arith)
        requires
            val(margin) * 100real == 15real,
    ;
    let buyer = model.settlements[shipment.buyer as int];
    assert(val(headroom(buyer)) == most(val(buyer.money) + val(buyer.borrowing_limit()), 0real));
}

proof fn lemma_money_in<N: Number>(
    val: spec_fn(N) -> real,
    settlements: Seq<Settlement<N>>,
    place: SettlementId,
    amount: N,
    i: int,
)
    requires
        linear(val),
        place < settlements.len(),
        0 <= i < settlements.len(),
    ensures
        after_receipt(settlements, place, amount).len() == settlements.len(),
        val(after_receipt(settlements, place, amount)[i].money) == val(settlements[i].money) + if i
            == place {
            val(amount)
        } else {
            0real
        },
        after_receipt(settlements, place, amount)[i] == (Settlement {
            money: after_receipt(settlements, place, amount)[i].money,
            ..settlements[i]
        }),
{
}

/// Law: when a shipment arrives, every treasury gains what is its part of the account, and
/// no other; the goods that are paid for reach the buyer's stores; the trader gets the
/// profit on them, is where the buyer is and knows the prices there; and the arrival is
/// reported with what was delivered and what it earned.
pub proof fn law_arrival_in_numbers<N: Number>(
    val: spec_fn(N) -> real,
    model: WorldModel<N>,
    shipment: Shipment<N>,
    place: SettlementId,
    good: Good,
)
    requires
        exact(val),
        model.wf(),
        model.shipment_wf(shipment),
        place < model.settlements.len(),
    ensures
        ({
            let after = model.after_arrival(shipment);
            let bill = account_of(val, model, shipment);
            let (before, now) = (model.settlements[place as int], after.settlements[place as int]);
            let (old_trader, new_trader) = (
                model.traders[shipment.trader as int],
                after.traders[shipment.trader as int],
            );
            &&& val(now.money) == val(before.money) + gain_of(val, model, shipment, place)
            &&& val(now.stockpiles.at_or(good, whole(0))) == val(
                before.stockpiles.at_or(good, whole(0)),
            ) + if place == shipment.buyer && good == shipment.good {
                val(shipment.quantity) * bill.share
            } else {
                0real
            }
            &&& now == (Settlement {
                money: now.money,
                stockpiles: now.stockpiles,
                ..before
            })
            &&& after.settlements.len() == model.settlements.len()
            &&& val(new_trader.money) == val(old_trader.money) + bill.profit * bill.share
            &&& new_trader.location == shipment.buyer
            &&& new_trader.known_prices.contains_key((shipment.buyer, good))
            &&& new_trader.known_prices[(shipment.buyer, good)] == model.price_at(
                shipment.buyer,
                good,
            )
            &&& place != shipment.buyer ==> {
                &&& new_trader.known_prices.contains_key((place, good))
                    <==> old_trader.known_prices.contains_key((place, good))
                &&& old_trader.known_prices.contains_key((place, good))
                    ==> new_trader.known_prices[(place, good)] == old_trader.known_prices[(
                    place,
                    good,
                )]
            }
            &&& new_trader == (TraderModel {
                money: new_trader.money,
                location: new_trader.location,
                known_prices: new_trader.known_prices,
                ..old_trader
            })
            &&& forall|i: int|
                0 <= i < model.traders.len() && i != shipment.trader ==> #[trigger] after.traders[i]
                    == model.traders[i]
            &&& after.traders.len() == model.traders.len()
            &&& after.routes == model.routes
            &&& after.shipments == model.shipments
            &&& after.month == model.month
            &&& after.expected_total_money == model.expected_total_money
            &&& after.events.len() == model.events.len() + 1
            &&& after.events.drop_last() == model.events
            &&& after.events.last() matches Event::ShipmentArrived {
                trader,
                good: of,
                quantity,
                initial_quantity,
                seller,
                buyer,
                profit,
            } && {
                &&& trader == shipment.trader
                &&& of == shipment.good
                &&& val(quantity) == val(shipment.quantity) * bill.share
                &&& initial_quantity == shipment.initial_quantity
                &&& seller == shipment.seller
                &&& buyer == shipment.buyer
                &&& val(profit) == bill.profit * bill.share
            }
        }),
{
    lemma_settled_shape(model, shipment);
    lemma_account(val, model, shipment);
    let route = model.routes[shipment.route as int];
    assert(model.route_wf(route));
    let bill = model.invoice_of(shipment);
    let share = model.share_paid(shipment);
    let toll = bill.transport.product(share).quotient(whole(2));
    let payer = model.settlements[shipment.buyer as int];
    let buyer = debited(payer, bill.revenue);
    let delivered = supplied(buyer, shipment, shipment.quantity.product(share));
    let s0 = model.settlements.update(shipment.buyer as int, delivered);
    let s1 = after_receipt(s0, shipment.buyer, bill.rebate.product(share));
    let s2 = after_receipt(s1, shipment.seller, bill.purchase.product(share));
    let s3 = after_receipt(s2, route.a, toll);
    let s4 = after_receipt(s3, route.b, toll);
    let i = place as int;
    lemma_money_in(val, s0, shipment.buyer, bill.rebate.product(share), i);
    lemma_money_in(val, s1, shipment.seller, bill.purchase.product(share), i);
    lemma_money_in(val, s2, route.a, toll, i);
    lemma_money_in(val, s3, route.b, toll, i);
    assert(model.settled(shipment) == s4);
    reveal(multiplicative);
    let carriage = val(bill.transport) * val(share);
    let two = val(whole::<N>(2));
    assert(val(toll) == carriage / two);
    assert(carriage / two == carriage / 2real) by (nonlinear_arith)
        requires
            two == 2real,
    ;
    let after = model.after_arrival(shipment);
    assert(after.settlements == s4);
    assert(model.settled(shipment)[shipment.buyer as int].prices
        == model.settlements[shipment.buyer as int].prices);
    assert(after.events.drop_last() =~= model.events);
}

} // verus!
