//! The shipments that traders send out.

use crate::event::Event;
use crate::goods::{good_of, Good};
use crate::market::{wanted_stock, STOCK_TARGET_PERCENT};
use crate::number::{clamp, clamped, hundredths, make_hundredths, make_whole, whole, Number};
use crate::route::{effective_monthly_incident_rate, Route, RouteId};
use crate::settlement::{settlement_purchasing_power, Settlement, SettlementId};
use crate::shipment::Shipment;
use crate::trader::TraderId;
use crate::world::{World, WorldModel};
use vstd::prelude::*;

verus! {

/// Minimum spread per unit that a trader wants to see, in hundredths.
pub const MIN_HEURISTIC_SPREAD_PERCENT: i64 = 50;

/// The most rounds of dispatching that a trader goes through in a month.  A round
/// sends at least one unit or rules a trade out, so no real month comes near; the
/// bound ends months in which the capacity is so large that taking a unit away
/// leaves it unchanged.
pub const MAX_ROUNDS: u64 = u64::MAX;

#[derive(Debug, Clone, Copy)]
pub struct TradeOpportunity<N> {
    pub seller: SettlementId,
    pub buyer: SettlementId,
    pub route: RouteId,
    pub good: Good,
    pub buyer_price: N,
    pub suggested_quantity: N,
    pub score: N,
}

/// A seller, a buyer and a good.
pub type Deal = (SettlementId, SettlementId, Good);

/// What a settlement lacks to its wanted stock.
pub open spec fn lack<N: Number>(buyer: Settlement<N>, good: Good) -> N {
    wanted_stock(buyer, good).difference(buyer.stockpiles.at_or(good, whole(0))).larger(whole(0))
}

/// How pressing the lack is, from zero to one.
pub open spec fn urgency<N: Number>(buyer: Settlement<N>, good: Good) -> N {
    clamped(
        lack(buyer, good).quotient(buyer.consumption.at_or(good, whole(1))),
        whole(0),
        whole(2),
    ).smaller(whole(1))
}

/// The spread below which a trader does not move: bold traders and pressing
/// needs lower it.
pub open spec fn least_spread<N: Number>(boldness: N, pressure: N) -> N {
    hundredths::<N>(MIN_HEURISTIC_SPREAD_PERCENT).product(
        hundredths::<N>(130).difference(boldness).difference(
            hundredths::<N>(30).product(pressure),
        ),
    )
}

/// What is left of a trade's appeal to a trader under the risk of the way.
pub open spec fn risk_discount<N: Number>(hazard: N, travel_months: u32, boldness: N) -> N {
    let safe_arrival = whole::<N>(1).difference(hazard).whole_power(travel_months as i32);
    let cumulative_risk = whole::<N>(1).difference(safe_arrival);
    whole::<N>(1).difference(cumulative_risk.product(whole::<N>(1).difference(boldness)))
}

/// The more attractive of the best trade so far and another one; the earlier one
/// where they are equal.
pub open spec fn better<N: Number>(
    best: Option<TradeOpportunity<N>>,
    other: Option<TradeOpportunity<N>>,
) -> Option<TradeOpportunity<N>> {
    match (best, other) {
        (_, None) => best,
        (None, Some(_)) => other,
        (Some(b), Some(o)) => if b.score.less(o.score) {
            other
        } else {
            best
        },
    }
}

impl<N: Number> WorldModel<N> {
    pub open spec fn stock(self, place: SettlementId, good: Good) -> N {
        self.settlements[place as int].stockpiles.at_or(good, whole(0))
    }

    /// What a trader expects to gain per unit.
    pub open spec fn spread(
        self,
        trader: TraderId,
        route: Route<N>,
        seller: SettlementId,
        buyer: SettlementId,
        good: Good,
    ) -> N {
        self.perceived_price(trader, buyer, good).difference(
            self.perceived_price(trader, seller, good),
        ).difference(route.cost_per_unit)
    }

    /// The quantity that a trader has in mind: whole units that the seller has,
    /// the buyer lacks and the trader can carry.
    pub open spec fn suggested(
        self,
        seller: SettlementId,
        buyer: SettlementId,
        good: Good,
        max_capacity: N,
    ) -> N {
        self.stock(seller, good).smaller(lack(self.settlements[buyer as int], good)).smaller(
            max_capacity,
        ).floored()
    }

    /// How attractive a trade is to a trader.
    pub open spec fn score(
        self,
        trader: TraderId,
        max_capacity: N,
        route: Route<N>,
        seller: SettlementId,
        buyer: SettlementId,
        good: Good,
    ) -> N {
        let judge = self.traders[trader as int];
        let pressure = urgency(self.settlements[buyer as int], good);
        self.spread(trader, route, seller, buyer, good).product(
            self.suggested(seller, buyer, good, max_capacity),
        ).product(
            risk_discount(
                route.hazard_from(judge.location),
                route.travel_months,
                judge.risk_tolerance,
            ),
        ).product(hundredths::<N>(40).sum(hundredths::<N>(60).product(pressure)))
    }

    /// A trader considers the trade: the buyer lacks at least a unit, the spread
    /// is worth the while, at least a unit can go, and the whole is attractive.
    pub open spec fn worthwhile(
        self,
        trader: TraderId,
        max_capacity: N,
        route: Route<N>,
        seller: SettlementId,
        buyer: SettlementId,
        good: Good,
    ) -> bool {
        let place = self.settlements[buyer as int];
        let boldness = self.traders[trader as int].risk_tolerance;
        &&& !lack(place, good).less(whole(1))
        &&& !self.spread(trader, route, seller, buyer, good).less(
            least_spread(boldness, urgency(place, good)),
        )
        &&& !self.suggested(seller, buyer, good, max_capacity).less(whole(1))
        &&& !self.score(trader, max_capacity, route, seller, buyer, good).at_most(whole(0))
    }

    /// The trade of one good in one direction of one route, where the trader
    /// considers it and it has not been ruled out.
    pub open spec fn opportunity(
        self,
        trader: TraderId,
        max_capacity: N,
        excluded: Seq<Deal>,
        route: Route<N>,
        seller: SettlementId,
        buyer: SettlementId,
        good: Good,
    ) -> Option<TradeOpportunity<N>> {
        if !excluded.contains((seller, buyer, good)) && self.worthwhile(
            trader,
            max_capacity,
            route,
            seller,
            buyer,
            good,
        ) {
            Some(
                TradeOpportunity {
                    seller,
                    buyer,
                    route: route.id,
                    good,
                    buyer_price: self.perceived_price(trader, buyer, good),
                    suggested_quantity: self.suggested(seller, buyer, good, max_capacity),
                    score: self.score(trader, max_capacity, route, seller, buyer, good),
                },
            )
        } else {
            None
        }
    }

    /// The `k`-th trade that there is: each route has six, three goods in each of
    /// two directions.
    pub open spec fn offer(
        self,
        trader: TraderId,
        max_capacity: N,
        excluded: Seq<Deal>,
        k: int,
    ) -> Option<TradeOpportunity<N>> {
        let route = self.routes[k / 6];
        let good = good_of(k % 3);
        if k % 6 < 3 {
            self.opportunity(trader, max_capacity, excluded, route, route.a, route.b, good)
        } else {
            self.opportunity(trader, max_capacity, excluded, route, route.b, route.a, good)
        }
    }

    /// The best of the first `n` trades that there are.
    pub open spec fn best_of(
        self,
        trader: TraderId,
        max_capacity: N,
        excluded: Seq<Deal>,
        n: int,
    ) -> Option<TradeOpportunity<N>>
        decreases n,
    {
        if n <= 0 {
            None
        } else {
            better(
                self.best_of(trader, max_capacity, excluded, n - 1),
                self.offer(trader, max_capacity, excluded, n - 1),
            )
        }
    }

    pub open spec fn best_trade(
        self,
        trader: TraderId,
        max_capacity: N,
        excluded: Seq<Deal>,
    ) -> Option<TradeOpportunity<N>> {
        self.best_of(trader, max_capacity, excluded, 6 * self.routes.len() as int)
    }

    /// The quantity that really goes: whole units that the seller has, the buyer
    /// can pay for, the route has room for and the trader can carry.
    pub open spec fn dispatched(self, trade: TradeOpportunity<N>, capacity: N) -> N {
        let route = self.routes[trade.route as int];
        let affordable = self.settlements[trade.buyer as int].buying_power().quotient(
            self.price_at(trade.buyer, trade.good),
        );
        trade.suggested_quantity.smaller(self.stock(trade.seller, trade.good)).smaller(
            affordable,
        ).smaller(route.capacity_per_month.difference(route.used_capacity_this_month)).smaller(
            capacity,
        ).floored()
    }

    /// The shipment of `quantity` units that a trade leads to.
    pub open spec fn cargo(
        self,
        trader: TraderId,
        trade: TradeOpportunity<N>,
        quantity: N,
    ) -> Shipment<N> {
        let route = self.routes[trade.route as int];
        Shipment {
            trader,
            good: trade.good,
            quantity,
            initial_quantity: quantity,
            capacity_units: quantity,
            seller: trade.seller,
            buyer: trade.buyer,
            route: trade.route,
            buy_price: self.price_at(trade.seller, trade.good),
            expected_sell_price: trade.buyer_price,
            transport_cost_per_unit: route.cost_per_unit,
            effective_monthly_incident_rate: route.hazard_from(
                self.traders[trader as int].location,
            ),
            months_remaining: route.travel_months,
        }
    }

    /// `quantity` units leave the seller's stores and take up room on the route.
    pub open spec fn after_dispatch(
        self,
        trader: TraderId,
        trade: TradeOpportunity<N>,
        quantity: N,
    ) -> Self {
        let seller = self.settlements[trade.seller as int];
        let route = self.routes[trade.route as int];
        WorldModel {
            settlements: self.settlements.update(
                trade.seller as int,
                Settlement {
                    stockpiles: seller.stockpiles.with(
                        trade.good,
                        self.stock(trade.seller, trade.good).difference(quantity),
                    ),
                    ..seller
                },
            ),
            routes: self.routes.update(
                trade.route as int,
                Route {
                    used_capacity_this_month: route.used_capacity_this_month.sum(quantity),
                    ..route
                },
            ),
            shipments: self.shipments.push(self.cargo(trader, trade, quantity)),
            events: self.events.push(
                Event::ShipmentCreated {
                    trader,
                    good: trade.good,
                    quantity,
                    seller: trade.seller,
                    buyer: trade.buyer,
                },
            ),
            ..self
        }
    }

    /// A trader with `capacity` to spare sends off the best trade they see, and
    /// goes on with what is left; a trade of which not even a unit can go is ruled
    /// out.
    pub open spec fn after_rounds(
        self,
        trader: TraderId,
        capacity: N,
        excluded: Seq<Deal>,
        rounds: nat,
    ) -> Self
        decreases rounds,
    {
        if rounds == 0 || !whole::<N>(1).at_most(capacity) {
            self
        } else {
            match self.best_trade(trader, capacity, excluded) {
                None => self,
                Some(trade) => {
                    let quantity = self.dispatched(trade, capacity);
                    if quantity.less(whole(1)) {
                        self.after_rounds(
                            trader,
                            capacity,
                            excluded.push((trade.seller, trade.buyer, trade.good)),
                            (rounds - 1) as nat,
                        )
                    } else {
                        self.after_dispatch(trader, trade, quantity).after_rounds(
                            trader,
                            capacity.difference(quantity),
                            excluded,
                            (rounds - 1) as nat,
                        )
                    }
                },
            }
        }
    }

    /// A trader's month of dispatching.
    pub open spec fn after_trading_by(self, trader: TraderId) -> Self {
        self.after_rounds(
            trader,
            self.traders[trader as int].trade_capacity,
            Seq::empty(),
            MAX_ROUNDS as nat,
        )
    }

    /// The first `n` traders dispatch, one after the other.
    pub open spec fn after_trading_of(self, n: int) -> Self
        decreases n,
    {
        if n <= 0 {
            self
        } else {
            self.after_trading_of(n - 1).after_trading_by((n - 1) as TraderId)
        }
    }

    pub open spec fn after_trading(self) -> Self {
        self.after_trading_of(self.traders.len() as int)
    }

    pub open spec fn after_route_reset(self) -> Self {
        WorldModel {
            routes: Seq::new(
                self.routes.len(),
                |i: int| Route { used_capacity_this_month: whole(0), ..self.routes[i] },
            ),
            ..self
        }
    }

    /// A trade whose seller, buyer and route exist.
    pub open spec fn trade_wf(self, trade: TradeOpportunity<N>) -> bool {
        &&& trade.seller < self.settlements.len()
        &&& trade.buyer < self.settlements.len()
        &&& trade.route < self.routes.len()
    }
}

/// The best trade is one of the trades that there are.
pub proof fn lemma_best_is_an_offer<N: Number>(
    model: WorldModel<N>,
    trader: TraderId,
    max_capacity: N,
    excluded: Seq<Deal>,
    n: int,
)
    requires
        model.best_of(trader, max_capacity, excluded, n) is Some,
    ensures
        exists|k: int|
            0 <= k < n && #[trigger] model.offer(trader, max_capacity, excluded, k)
                == model.best_of(trader, max_capacity, excluded, n),
    decreases n,
{
    if model.offer(trader, max_capacity, excluded, n - 1) != model.best_of(
        trader,
        max_capacity,
        excluded,
        n,
    ) {
        lemma_best_is_an_offer(model, trader, max_capacity, excluded, n - 1);
    }
}

pub proof fn lemma_best_wf<N: Number>(
    model: WorldModel<N>,
    trader: TraderId,
    max_capacity: N,
    excluded: Seq<Deal>,
)
    requires
        model.routes_wf(),
    ensures
        model.best_trade(trader, max_capacity, excluded) matches Some(trade) ==> model.trade_wf(
            trade,
        ),
{
    if model.best_trade(trader, max_capacity, excluded) is Some {
        let n = 6 * model.routes.len() as int;
        lemma_best_is_an_offer(model, trader, max_capacity, excluded, n);
        let k = choose|k: int|
            0 <= k < n && #[trigger] model.offer(trader, max_capacity, excluded, k)
                == model.best_of(trader, max_capacity, excluded, n);
        assert(model.route_wf(model.routes[k / 6]));
    }
}

/// Dispatching keeps every identifier valid and every price quoted.
pub proof fn lemma_dispatch_wf<N: Number>(
    model: WorldModel<N>,
    trader: TraderId,
    trade: TradeOpportunity<N>,
    quantity: N,
)
    requires
        model.routes_wf(),
        model.trade_wf(trade),
        trader < model.traders.len(),
    ensures
        model.after_dispatch(trader, trade, quantity).routes_wf(),
        model.wf() ==> model.after_dispatch(trader, trade, quantity).wf(),
        model.priced() ==> model.after_dispatch(trader, trade, quantity).priced(),
{
    let after = model.after_dispatch(trader, trade, quantity);
    assert forall|i: int| 0 <= i < after.routes.len() implies after.route_wf(
        #[trigger] after.routes[i],
    ) by {
        assert(model.route_wf(model.routes[i]));
    }
    if model.wf() {
        assert forall|i: int| 0 <= i < after.settlements.len() implies (
        #[trigger] after.settlements[i]).id < after.settlements.len() by {
            assert(model.settlements[i].id < model.settlements.len());
        }
        assert forall|i: int| 0 <= i < after.traders.len() implies after.trader_wf(
            #[trigger] after.traders[i],
        ) by {
            assert(model.trader_wf(model.traders[i]));
        }
        assert forall|i: int| 0 <= i < after.shipments.len() implies after.shipment_wf(
            #[trigger] after.shipments[i],
        ) by {
            if i < model.shipments.len() {
                assert(model.shipment_wf(model.shipments[i]));
            }
        }
    }
    if model.priced() {
        assert forall|i: int| 0 <= i < after.settlements.len() implies (
        #[trigger] after.settlements[i]).prices.total() by {
            assert(model.settlements[i].prices.total());
        }
    }
}

fn is_excluded(excluded: &Vec<Deal>, seller: SettlementId, buyer: SettlementId, good: Good) -> (r:
    bool)
    ensures
        r == excluded@.contains((seller, buyer, good)),
{
    let mut i: usize = 0;
    while i < excluded.len()
        invariant
            i <= excluded@.len(),
            forall|j: int| 0 <= j < i ==> excluded@[j] != (seller, buyer, good),
        decreases excluded@.len() - i,
    {
        let deal = excluded[i];
        if deal.0 == seller && deal.1 == buyer && deal.2 == good {
            assert(excluded@[i as int] == (seller, buyer, good));
            return true;
        }
        i = i + 1;
    }
    false
}

impl<N: Number> World<N> {
    pub fn reset_route_capacity(&mut self)
        ensures
            final(self)@ == old(self)@.after_route_reset(),
    {
        let mut i: usize = 0;
        while i < self.routes.len()
            invariant
                i <= self.routes@.len(),
                self.routes@.len() == old(self).routes@.len(),
                self@ == (WorldModel { routes: self.routes@, ..old(self)@ }),
                forall|j: int|
                    0 <= j < self.routes@.len() ==> #[trigger] self.routes@[j] == if j < i {
                        Route { used_capacity_this_month: whole(0), ..old(self).routes@[j] }
                    } else {
                        old(self).routes@[j]
                    },
            decreases self.routes@.len() - i,
        {
            self.routes[i].used_capacity_this_month = make_whole(0);
            i = i + 1;
        }
        assert(self@ =~= old(self)@.after_route_reset());
    }

    /// The better of `best` and one more trade.
    fn consider(
        &self,
        best: Option<TradeOpportunity<N>>,
        trader_id: TraderId,
        max_capacity: N,
        excluded: &Vec<Deal>,
        route: &Route<N>,
        deal: Deal,
    ) -> (r: Option<TradeOpportunity<N>>)
        requires
            self@.priced(),
            trader_id < self@.traders.len(),
            deal.0 < self@.settlements.len(),
            deal.1 < self@.settlements.len(),
        ensures
            r == better(
                best,
                self@.opportunity(
                    trader_id,
                    max_capacity,
                    excluded@,
                    *route,
                    deal.0,
                    deal.1,
                    deal.2,
                ),
            ),
    {
        let seller_id = deal.0;
        let buyer_id = deal.1;
        let good = deal.2;
        if is_excluded(excluded, seller_id, buyer_id, good) {
            return best;
        }
        assert(self@.settlements[seller_id as int].prices.total());
        assert(self@.settlements[buyer_id as int].prices.total());
        let trader = &self.traders[trader_id];
        assert(self@.traders[trader_id as int] == trader@);
        let buyer = &self.settlements[buyer_id];
        let seller_price = self.trader_perceived_price(trader_id, seller_id, good);
        let buyer_price = self.trader_perceived_price(trader_id, buyer_id, good);
        let spread = buyer_price.sub(seller_price).sub(route.cost_per_unit);

        let monthly_need = buyer.consumption.get_or(good, make_whole(1));
        let target_stock = monthly_need.mul(make_hundredths(STOCK_TARGET_PERCENT));
        let buyer_stock = buyer.stockpiles.get_or(good, make_whole(0));
        let shortage = target_stock.sub(buyer_stock).max(make_whole(0));
        if shortage.lt(make_whole(1)) {
            return best;
        }
        let buyer_urgency = clamp(
            shortage.div(monthly_need),
            make_whole(0),
            make_whole(2),
        ).min(make_whole(1));
        let min_spread = make_hundredths::<N>(MIN_HEURISTIC_SPREAD_PERCENT).mul(
            make_hundredths::<N>(130).sub(trader.risk_tolerance).sub(
                make_hundredths::<N>(30).mul(buyer_urgency),
            ),
        );
        if spread.lt(min_spread) {
            return best;
        }
        let stock = self.settlements[seller_id].stockpiles.get_or(good, make_whole(0));
        let suggested_quantity = stock.min(shortage).min(max_capacity).floor();
        if suggested_quantity.lt(make_whole(1)) {
            return best;
        }
        let hazard = effective_monthly_incident_rate(route, trader.location);
        let safe_arrival = make_whole::<N>(1).sub(hazard).powi(route.travel_months as i32);
        let cumulative_risk = make_whole::<N>(1).sub(safe_arrival);
        let discount = make_whole::<N>(1).sub(
            cumulative_risk.mul(make_whole::<N>(1).sub(trader.risk_tolerance)),
        );
        let score = spread.mul(suggested_quantity).mul(discount).mul(
            make_hundredths::<N>(40).add(make_hundredths::<N>(60).mul(buyer_urgency)),
        );
        if score.le(make_whole(0)) {
            return best;
        }
        let found = TradeOpportunity {
            seller: seller_id,
            buyer: buyer_id,
            route: route.id,
            good,
            buyer_price,
            suggested_quantity,
            score,
        };
        match best {
            None => Some(found),
            Some(b) => if b.score.lt(score) {
                Some(found)
            } else {
                best
            },
        }
    }

    pub fn best_trade_for_trader(
        &self,
        trader_id: TraderId,
        max_capacity: N,
        excluded: &Vec<Deal>,
    ) -> (r: Option<TradeOpportunity<N>>)
        requires
            self@.ends_wf(),
            self@.priced(),
            trader_id < self@.traders.len(),
        ensures
            r == self@.best_trade(trader_id, max_capacity, excluded@),
    {
        let mut best: Option<TradeOpportunity<N>> = None;
        let mut i: usize = 0;
        while i < self.routes.len()
            invariant
                i <= self.routes@.len(),
                self@.ends_wf(),
                self@.priced(),
                trader_id < self@.traders.len(),
                best == self@.best_of(trader_id, max_capacity, excluded@, 6 * i),
            decreases self.routes@.len() - i,
        {
            let route = self.routes[i];
            assert(self@.routes[i as int].a < self@.settlements.len());
            proof {
                reveal_with_fuel(WorldModel::best_of, 7);
                assert((6 * i + 0) / 6 == i && (6 * i + 1) / 6 == i && (6 * i + 2) / 6 == i);
                assert((6 * i + 3) / 6 == i && (6 * i + 4) / 6 == i && (6 * i + 5) / 6 == i);
            }
            best = self.consider(
                best,
                trader_id,
                max_capacity,
                excluded,
                &route,
                (route.a, route.b, Good::Food),
            );
            best = self.consider(
                best,
                trader_id,
                max_capacity,
                excluded,
                &route,
                (route.a, route.b, Good::Ore),
            );
            best = self.consider(
                best,
                trader_id,
                max_capacity,
                excluded,
                &route,
                (route.a, route.b, Good::Tools),
            );
            best = self.consider(
                best,
                trader_id,
                max_capacity,
                excluded,
                &route,
                (route.b, route.a, Good::Food),
            );
            best = self.consider(
                best,
                trader_id,
                max_capacity,
                excluded,
                &route,
                (route.b, route.a, Good::Ore),
            );
            best = self.consider(
                best,
                trader_id,
                max_capacity,
                excluded,
                &route,
                (route.b, route.a, Good::Tools),
            );
            i = i + 1;
        }
        best
    }

    /// Sends off one trade; the quantity that went, or none where not even a unit
    /// can go.
    fn dispatch(&mut self, trader_id: TraderId, trade: &TradeOpportunity<N>, capacity: N) -> (r:
        Option<N>)
        requires
            old(self)@.priced(),
            trader_id < old(self)@.traders.len(),
            old(self)@.trade_wf(*trade),
        ensures
            ({
                let quantity = old(self)@.dispatched(*trade, capacity);
                if quantity.less(whole(1)) {
                    r is None && final(self)@ == old(self)@
                } else {
                    r == Some(quantity) && final(self)@ == old(self)@.after_dispatch(
                        trader_id,
                        *trade,
                        quantity,
                    )
                }
            }),
    {
        let seller_id = trade.seller;
        let buyer_id = trade.buyer;
        let good = trade.good;
        assert(self@.settlements[seller_id as int].prices.total());
        assert(self@.settlements[buyer_id as int].prices.total());
        let buy_price = self.settlements[seller_id].prices.get(good).unwrap();
        let actual_buyer_price = self.settlements[buyer_id].prices.get(good).unwrap();
        let seller_stock = self.settlements[seller_id].stockpiles.get_or(good, make_whole(0));
        let buyer_spending_power = settlement_purchasing_power(&self.settlements[buyer_id]);
        let affordable_by_buyer = buyer_spending_power.div(actual_buyer_price);
        let route = self.routes[trade.route];
        let route_capacity_left = route.capacity_per_month.sub(route.used_capacity_this_month);
        let quantity = trade.suggested_quantity.min(seller_stock).min(affordable_by_buyer).min(
            route_capacity_left,
        ).min(capacity).floor();
        if quantity.lt(make_whole(1)) {
            return None;
        }
        let location = self.traders[trader_id].location;
        assert(self@.traders[trader_id as int].location == location);
        let shipment = Shipment {
            trader: trader_id,
            good,
            quantity,
            initial_quantity: quantity,
            capacity_units: quantity,
            seller: seller_id,
            buyer: buyer_id,
            route: trade.route,
            buy_price,
            expected_sell_price: trade.buyer_price,
            transport_cost_per_unit: route.cost_per_unit,
            effective_monthly_incident_rate: effective_monthly_incident_rate(&route, location),
            months_remaining: route.travel_months,
        };
        self.settlements[seller_id].stockpiles.insert(good, seller_stock.sub(quantity));
        self.routes[trade.route].used_capacity_this_month =
        route.used_capacity_this_month.add(quantity);
        self.shipments.push(shipment);
        self.events.push(
            Event::ShipmentCreated {
                trader: trader_id,
                good,
                quantity,
                seller: seller_id,
                buyer: buyer_id,
            },
        );
        assert(self@ =~= old(self)@.after_dispatch(trader_id, *trade, quantity));
        Some(quantity)
    }

    fn create_shipments_of(&mut self, trader_id: TraderId)
        requires
            old(self)@.routes_wf(),
            old(self)@.priced(),
            trader_id < old(self)@.traders.len(),
        ensures
            final(self)@ == old(self)@.after_trading_by(trader_id),
            final(self)@.routes_wf(),
            old(self)@.wf() ==> final(self)@.wf(),
            final(self)@.priced(),
            final(self)@.traders == old(self)@.traders,
    {
        let ghost start = self@;
        let mut capacity = self.traders[trader_id].trade_capacity;
        assert(capacity == start.traders[trader_id as int].trade_capacity);
        let mut blocked: Vec<Deal> = Vec::new();
        let mut rounds: u64 = MAX_ROUNDS;
        assert(blocked@ =~= Seq::<Deal>::empty());
        while rounds > 0 && make_whole::<N>(1).le(capacity)
            invariant_except_break
                self@.after_rounds(trader_id, capacity, blocked@, rounds as nat)
                    == start.after_trading_by(trader_id),
            invariant
                self@.routes_wf(),
                start.wf() ==> self@.wf(),
                self@.priced(),
                self@.traders == start.traders,
                trader_id < start.traders.len(),
            ensures
                self@ == start.after_trading_by(trader_id),
            decreases rounds,
        {
            let trade = match self.best_trade_for_trader(trader_id, capacity, &blocked) {
                Some(trade) => trade,
                None => {
                    break;
                },
            };
            proof {
                lemma_best_wf(self@, trader_id, capacity, blocked@);
                lemma_dispatch_wf(self@, trader_id, trade, self@.dispatched(trade, capacity));
            }
            match self.dispatch(trader_id, &trade, capacity) {
                Some(quantity) => {
                    capacity = capacity.sub(quantity);
                },
                None => {
                    blocked.push((trade.seller, trade.buyer, trade.good));
                },
            }
            rounds = rounds - 1;
        }
    }

    pub fn create_trade_shipments(&mut self)
        requires
            old(self)@.routes_wf(),
            old(self)@.priced(),
        ensures
            final(self)@ == old(self)@.after_trading(),
            old(self)@.wf() ==> final(self)@.wf(),
            final(self)@.priced(),
    {
        let ghost start = self@;
        let trader_count: usize = self.traders.len();
        let mut trader_id: usize = 0;
        while trader_id < trader_count
            invariant
                trader_id <= trader_count == start.traders.len(),
                self@.routes_wf(),
                start.wf() ==> self@.wf(),
                self@.priced(),
                self@.traders == start.traders,
                self@ == start.after_trading_of(trader_id as int),
            decreases trader_count - trader_id,
        {
            self.create_shipments_of(trader_id);
            trader_id = trader_id + 1;
        }
    }
}

} // verus!
