//! Shipments on their way, and the settling of accounts when they arrive.

use crate::event::Event;
use crate::finance::{debited, payable};
use crate::number::{hundredths, make_hundredths, make_whole, whole, Number};
use crate::settlement::{Settlement, SettlementId};
use crate::shipment::{apply_monthly_cargo_risk, cargo_left, cargo_loss, CargoRoll, Shipment};
use crate::trader::TraderModel;
use crate::world::{World, WorldModel};
use vstd::prelude::*;

verus! {

/// Traders cannot keep more than this part of import revenue as profit, in
/// hundredths.
pub const MAX_TRADER_MARGIN_PERCENT: i64 = 15;

/// A shipment one month on.
pub open spec fn moved<N: Number>(shipment: Shipment<N>, roll: CargoRoll<N>) -> Shipment<N> {
    if shipment.months_remaining > 0 {
        Shipment {
            quantity: cargo_left(
                shipment.quantity,
                shipment.effective_monthly_incident_rate,
                roll,
            ),
            months_remaining: (shipment.months_remaining - 1) as u32,
            ..shipment
        }
    } else {
        shipment
    }
}

/// What is reported of a shipment's month on the way.
pub open spec fn travel_report<N: Number>(
    shipment: Shipment<N>,
    roll: CargoRoll<N>,
) -> Seq<Event<N>> {
    if shipment.months_remaining > 0 {
        match cargo_loss(shipment.quantity, shipment.effective_monthly_incident_rate, roll) {
            Some(lost) => seq![
                Event::CargoLost {
                    trader: shipment.trader,
                    good: shipment.good,
                    lost,
                    remaining: moved(shipment, roll).quantity,
                    route: shipment.route,
                },
            ],
            None => seq![],
        }
    } else {
        seq![]
    }
}

/// The account of an arrived shipment, as if the buyer could pay it all.
#[derive(Debug, Clone, Copy)]
pub struct Invoice<N> {
    pub revenue: N,
    pub purchase: N,
    pub transport: N,
    pub profit: N,
    pub rebate: N,
}

/// The account of a shipment that sells at `sell_price` and came at
/// `cost_per_unit`: the trader's profit is capped, and the buyer gets back what
/// lies above the cap.
pub open spec fn invoice<N: Number>(
    shipment: Shipment<N>,
    sell_price: N,
    cost_per_unit: N,
) -> Invoice<N> {
    let revenue = shipment.quantity.product(sell_price);
    let purchase = shipment.initial_quantity.product(shipment.buy_price);
    let transport = shipment.quantity.product(cost_per_unit);
    let raw_profit = revenue.difference(purchase).difference(transport);
    let profit = raw_profit.smaller(revenue.product(hundredths(MAX_TRADER_MARGIN_PERCENT)));
    Invoice {
        revenue,
        purchase,
        transport,
        profit,
        rebate: raw_profit.difference(profit).larger(whole(0)),
    }
}

/// The part of the bill that the buyer pays.
pub open spec fn paid_share<N: Number>(buyer: Settlement<N>, revenue: N) -> N {
    if whole::<N>(0).less(revenue) {
        payable(buyer, revenue).quotient(revenue)
    } else {
        whole(0)
    }
}

/// The settlement with delivered goods in store.
pub open spec fn supplied<N: Number>(
    buyer: Settlement<N>,
    shipment: Shipment<N>,
    delivered: N,
) -> Settlement<N> {
    let stock = match buyer.stockpiles.at(shipment.good) {
        Some(stock) => stock.sum(delivered),
        None => delivered,
    };
    Settlement { stockpiles: buyer.stockpiles.with(shipment.good, stock), ..buyer }
}

/// Money comes in at one of the settlements.
pub open spec fn after_receipt<N: Number>(
    settlements: Seq<Settlement<N>>,
    place: SettlementId,
    amount: N,
) -> Seq<Settlement<N>> {
    settlements.update(
        place as int,
        Settlement {
            money: settlements[place as int].money.sum(amount),
            ..settlements[place as int]
        },
    )
}

impl<N: Number> WorldModel<N> {
    pub open spec fn invoice_of(self, shipment: Shipment<N>) -> Invoice<N> {
        invoice(
            shipment,
            self.price_at(shipment.buyer, shipment.good),
            self.routes[shipment.route as int].cost_per_unit,
        )
    }

    pub open spec fn share_paid(self, shipment: Shipment<N>) -> N {
        paid_share(
            self.settlements[shipment.buyer as int],
            self.invoice_of(shipment).revenue,
        )
    }

    /// The settlements when an arrived shipment has been settled: the buyer paid
    /// what they could, got that part of the goods and of the rebate; the seller
    /// got that part of the price; and the ends of the route got, half each, that
    /// part of the transport cost.
    pub open spec fn settled(self, shipment: Shipment<N>) -> Seq<Settlement<N>> {
        let bill = self.invoice_of(shipment);
        let share = self.share_paid(shipment);
        let route = self.routes[shipment.route as int];
        let toll = bill.transport.product(share).quotient(whole(2));
        let buyer = debited(self.settlements[shipment.buyer as int], bill.revenue);
        let delivered = supplied(buyer, shipment, shipment.quantity.product(share));
        let s0 = self.settlements.update(shipment.buyer as int, delivered);
        let s1 = after_receipt(s0, shipment.buyer, bill.rebate.product(share));
        let s2 = after_receipt(s1, shipment.seller, bill.purchase.product(share));
        let s3 = after_receipt(s2, route.a, toll);
        after_receipt(s3, route.b, toll)
    }

    /// A shipment has arrived: accounts are settled, and the trader is where the
    /// buyer is and knows the prices there.
    pub open spec fn after_arrival(self, shipment: Shipment<N>) -> Self {
        let bill = self.invoice_of(shipment);
        let share = self.share_paid(shipment);
        let trader = self.traders[shipment.trader as int];
        let profit = bill.profit.product(share);
        let settled = WorldModel {
            settlements: self.settled(shipment),
            traders: self.traders.update(
                shipment.trader as int,
                TraderModel {
                    money: trader.money.sum(profit),
                    location: shipment.buyer,
                    ..trader
                },
            ),
            ..self
        }.after_visit(shipment.trader, shipment.buyer);
        WorldModel {
            events: settled.events.push(
                Event::ShipmentArrived {
                    trader: shipment.trader,
                    good: shipment.good,
                    quantity: shipment.quantity.product(share),
                    initial_quantity: shipment.initial_quantity,
                    seller: shipment.seller,
                    buyer: shipment.buyer,
                    profit,
                },
            ),
            ..settled
        }
    }

    /// One shipment's month: it stays on the way, or it arrives.
    pub open spec fn after_travel(self, shipment: Shipment<N>, roll: CargoRoll<N>) -> Self {
        let moved = moved(shipment, roll);
        let reported = WorldModel {
            events: self.events + travel_report(shipment, roll),
            ..self
        };
        if moved.months_remaining > 0 {
            WorldModel { shipments: self.shipments.push(moved), ..reported }
        } else {
            reported.after_arrival(moved)
        }
    }

    /// The month of the first `n` of the pending shipments, one after the other.
    pub open spec fn after_travel_of(
        self,
        pending: Seq<Shipment<N>>,
        rolls: Seq<CargoRoll<N>>,
        n: int,
    ) -> Self
        decreases n,
    {
        if n <= 0 {
            self
        } else {
            self.after_travel_of(pending, rolls, n - 1).after_travel(
                pending[n - 1],
                rolls[n - 1],
            )
        }
    }

    pub open spec fn after_advance(self, rolls: Seq<CargoRoll<N>>) -> Self {
        WorldModel { shipments: Seq::empty(), ..self }.after_travel_of(
            self.shipments,
            rolls,
            self.shipments.len() as int,
        )
    }
}

/// Settling an arrived shipment leaves prices and identifiers as they are.
pub proof fn lemma_settled_shape<N: Number>(model: WorldModel<N>, shipment: Shipment<N>)
    requires
        model.wf(),
        model.shipment_wf(shipment),
    ensures
        model.settled(shipment).len() == model.settlements.len(),
        forall|i: int|
            0 <= i < model.settlements.len() ==> {
                &&& (#[trigger] model.settled(shipment)[i]).id == model.settlements[i].id
                &&& model.settled(shipment)[i].prices == model.settlements[i].prices
            },
{
    assert(model.route_wf(model.routes[shipment.route as int]));
}

pub proof fn lemma_arrival_wf<N: Number>(model: WorldModel<N>, shipment: Shipment<N>)
    requires
        model.wf(),
        model.priced(),
        model.shipment_wf(shipment),
    ensures
        model.after_arrival(shipment).wf(),
        model.after_arrival(shipment).priced(),
        model.after_arrival(shipment).routes == model.routes,
        model.after_arrival(shipment).settlements.len() == model.settlements.len(),
        model.after_arrival(shipment).traders.len() == model.traders.len(),
{
    lemma_settled_shape(model, shipment);
    let after = model.after_arrival(shipment);
    assert(after.settlements == model.settled(shipment));
    assert(after.traders.len() == model.traders.len());
    assert forall|i: int| 0 <= i < after.settlements.len() implies (
    #[trigger] after.settlements[i]).id < after.settlements.len() by {
        assert(model.settlements[i].id < model.settlements.len());
    }
    assert forall|i: int| 0 <= i < after.settlements.len() implies (
    #[trigger] after.settlements[i]).prices.total() by {
        assert(model.settlements[i].prices.total());
    }
    assert forall|i: int| 0 <= i < after.routes.len() implies after.route_wf(
        #[trigger] after.routes[i],
    ) by {
        assert(model.route_wf(model.routes[i]));
    }
    assert forall|i: int| 0 <= i < after.traders.len() implies after.trader_wf(
        #[trigger] after.traders[i],
    ) by {
        assert(model.trader_wf(model.traders[i]));
    }
    assert forall|i: int| 0 <= i < after.shipments.len() implies after.shipment_wf(
        #[trigger] after.shipments[i],
    ) by {
        assert(model.shipment_wf(model.shipments[i]));
    }
}

/// A month on the way keeps every identifier valid and every price quoted.
pub proof fn lemma_travel_wf<N: Number>(
    model: WorldModel<N>,
    shipment: Shipment<N>,
    roll: CargoRoll<N>,
)
    requires
        model.wf(),
        model.priced(),
        model.shipment_wf(shipment),
    ensures
        model.after_travel(shipment, roll).wf(),
        model.after_travel(shipment, roll).priced(),
        model.after_travel(shipment, roll).routes == model.routes,
        model.after_travel(shipment, roll).settlements.len() == model.settlements.len(),
        model.after_travel(shipment, roll).traders.len() == model.traders.len(),
{
    let moved = moved(shipment, roll);
    let reported = WorldModel { events: model.events + travel_report(shipment, roll), ..model };
    let sent = WorldModel { shipments: model.shipments.push(moved), ..reported };
    assert forall|i: int| 0 <= i < model.routes.len() implies reported.route_wf(
        #[trigger] model.routes[i],
    ) && sent.route_wf(model.routes[i]) by {
        assert(model.route_wf(model.routes[i]));
    }
    assert forall|i: int| 0 <= i < model.traders.len() implies reported.trader_wf(
        #[trigger] model.traders[i],
    ) && sent.trader_wf(model.traders[i]) by {
        assert(model.trader_wf(model.traders[i]));
    }
    assert forall|i: int| 0 <= i < model.shipments.len() implies reported.shipment_wf(
        #[trigger] model.shipments[i],
    ) by {
        assert(model.shipment_wf(model.shipments[i]));
    }
    assert forall|i: int| 0 <= i < sent.shipments.len() implies sent.shipment_wf(
        #[trigger] sent.shipments[i],
    ) by {
        if i < model.shipments.len() {
            assert(model.shipment_wf(model.shipments[i]));
        }
    }
    assert(reported.priced()) by {
        assert(reported.settlements == model.settlements);
    }
    assert(sent.priced()) by {
        assert(sent.settlements == model.settlements);
    }
    if moved.months_remaining == 0 {
        lemma_arrival_wf(reported, moved);
    }
}

impl<N: Number> World<N> {
    fn receive(&mut self, place: SettlementId, amount: N)
        requires
            place < old(self)@.settlements.len(),
        ensures
            final(self)@ == (WorldModel {
                settlements: after_receipt(old(self)@.settlements, place, amount),
                ..old(self)@
            }),
    {
        self.settlements[place].money = self.settlements[place].money.add(amount);
        assert(self@ =~= (WorldModel {
            settlements: after_receipt(old(self)@.settlements, place, amount),
            ..old(self)@
        }));
    }

    fn arrive(&mut self, shipment: &Shipment<N>)
        requires
            old(self)@.wf(),
            old(self)@.priced(),
            old(self)@.shipment_wf(*shipment),
        ensures
            final(self)@ == old(self)@.after_arrival(*shipment),
    {
        let ghost start = self@;
        assert(start.settlements[shipment.buyer as int].prices.total());
        assert(start.route_wf(start.routes[shipment.route as int]));
        proof {
            lemma_settled_shape(start, *shipment);
        }
        let sell_price = self.settlements[shipment.buyer].prices.get(shipment.good).unwrap();
        let route = self.routes[shipment.route];
        let revenue = shipment.quantity.mul(sell_price);
        let purchase = shipment.initial_quantity.mul(shipment.buy_price);
        let transport = shipment.quantity.mul(route.cost_per_unit);
        let raw_profit = revenue.sub(purchase).sub(transport);
        let profit_cap = revenue.mul(make_hundredths(MAX_TRADER_MARGIN_PERCENT));
        let profit = raw_profit.min(profit_cap);
        let rebate = raw_profit.sub(profit).max(make_whole(0));

        let paid = self.try_debit_settlement(shipment.buyer, revenue);
        let share = if make_whole::<N>(0).lt(revenue) {
            paid.div(revenue)
        } else {
            make_whole(0)
        };
        let delivered = shipment.quantity.mul(share);
        let toll = transport.mul(share).div(make_whole(2));
        let stock = match self.settlements[shipment.buyer].stockpiles.get(shipment.good) {
            Some(stock) => stock.add(delivered),
            None => delivered,
        };
        self.settlements[shipment.buyer].stockpiles.insert(shipment.good, stock);
        assert(self@.settlements =~= start.settlements.update(
            shipment.buyer as int,
            supplied(
                debited(start.settlements[shipment.buyer as int], revenue),
                *shipment,
                delivered,
            ),
        ));
        self.receive(shipment.buyer, rebate.mul(share));
        self.receive(shipment.seller, purchase.mul(share));
        self.receive(route.a, toll);
        self.receive(route.b, toll);
        assert(self@.settlements == start.settled(*shipment));
        assert(self@.traders.len() == start.traders.len());

        let gain = profit.mul(share);
        self.traders[shipment.trader].money = self.traders[shipment.trader].money.add(gain);
        self.traders[shipment.trader].location = shipment.buyer;
        assert(self@ =~= (WorldModel {
            settlements: start.settled(*shipment),
            traders: start.traders.update(
                shipment.trader as int,
                TraderModel {
                    money: start.traders[shipment.trader as int].money.sum(gain),
                    location: shipment.buyer,
                    ..start.traders[shipment.trader as int]
                },
            ),
            ..start
        }));
        self.sync_trader_prices_at(shipment.trader, shipment.buyer);
        self.events.push(
            Event::ShipmentArrived {
                trader: shipment.trader,
                good: shipment.good,
                quantity: delivered,
                initial_quantity: shipment.initial_quantity,
                seller: shipment.seller,
                buyer: shipment.buyer,
                profit: gain,
            },
        );
        assert(self@ =~= start.after_arrival(*shipment));
    }

    fn travel(&mut self, pending: &Shipment<N>, roll: &CargoRoll<N>)
        requires
            old(self)@.wf(),
            old(self)@.priced(),
            old(self)@.shipment_wf(*pending),
        ensures
            final(self)@ == old(self)@.after_travel(*pending, *roll),
    {
        let ghost start = self@;
        let mut shipment = *pending;
        if shipment.months_remaining > 0 {
            let mut quantity = shipment.quantity;
            let lost = apply_monthly_cargo_risk(
                &mut quantity,
                shipment.effective_monthly_incident_rate,
                roll,
            );
            shipment.quantity = quantity;
            if let Some(lost) = lost {
                self.events.push(
                    Event::CargoLost {
                        trader: shipment.trader,
                        good: shipment.good,
                        lost,
                        remaining: quantity,
                        route: shipment.route,
                    },
                );
            }
            shipment.months_remaining = shipment.months_remaining - 1;
        }
        assert(shipment == moved(*pending, *roll));
        assert(self@ =~= (WorldModel {
            events: start.events + travel_report(*pending, *roll),
            ..start
        }));
        if shipment.months_remaining > 0 {
            self.shipments.push(shipment);
            assert(self@ =~= start.after_travel(*pending, *roll));
        } else {
            proof {
                assert forall|i: int| 0 <= i < start.routes.len() implies self@.route_wf(
                    #[trigger] start.routes[i],
                ) by {
                    assert(start.route_wf(start.routes[i]));
                }
                assert forall|i: int| 0 <= i < start.traders.len() implies self@.trader_wf(
                    #[trigger] start.traders[i],
                ) by {
                    assert(start.trader_wf(start.traders[i]));
                }
                assert forall|i: int| 0 <= i < start.shipments.len() implies self@.shipment_wf(
                    #[trigger] start.shipments[i],
                ) by {
                    assert(start.shipment_wf(start.shipments[i]));
                }
                assert(self@.priced()) by {
                    assert(self@.settlements == start.settlements);
                }
            }
            self.arrive(&shipment);
        }
    }

    /// Every shipment travels for a month; `rolls` holds the luck of each.
    pub fn advance_shipments(&mut self, rolls: &Vec<CargoRoll<N>>)
        requires
            old(self)@.wf(),
            old(self)@.priced(),
            rolls@.len() >= old(self)@.shipments.len(),
        ensures
            final(self)@ == old(self)@.after_advance(rolls@),
            final(self)@.wf(),
            final(self)@.priced(),
    {
        let ghost start = self@;
        let mut pending: Vec<Shipment<N>> = Vec::new();
        std::mem::swap(&mut pending, &mut self.shipments);
        let ghost emptied = WorldModel { shipments: Seq::empty(), ..start };
        assert(self@ =~= emptied);
        assert(self@.wf()) by {
            assert forall|i: int| 0 <= i < start.routes.len() implies self@.route_wf(
                #[trigger] start.routes[i],
            ) by {
                assert(start.route_wf(start.routes[i]));
            }
            assert forall|i: int| 0 <= i < start.traders.len() implies self@.trader_wf(
                #[trigger] start.traders[i],
            ) by {
                assert(start.trader_wf(start.traders[i]));
            }
        }
        let mut i: usize = 0;
        while i < pending.len()
            invariant
                i <= pending@.len(),
                start.wf(),
                pending@ == start.shipments,
                rolls@.len() >= pending@.len(),
                self@ == emptied.after_travel_of(pending@, rolls@, i as int),
                self@.wf(),
                self@.priced(),
                self@.routes == start.routes,
                self@.settlements.len() == start.settlements.len(),
                self@.traders.len() == start.traders.len(),
            decreases pending@.len() - i,
        {
            assert(start.shipment_wf(start.shipments[i as int]));
            proof {
                lemma_travel_wf(self@, pending@[i as int], rolls@[i as int]);
            }
            self.travel(&pending[i], &rolls[i]);
            i = i + 1;
        }
    }
}

} // verus!
