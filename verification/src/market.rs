//! Prices, and what traders know of them.

use crate::event::Event;
use crate::goods::{base_price, good_index, index_of, make_base_price, Good, GoodMap};
use crate::number::{clamp, clamped, hundredths, make_hundredths, make_whole, whole, Number};
use crate::route::Route;
use crate::settlement::{Settlement, SettlementId};
use crate::trader::{TraderId, TraderModel};
use crate::world::{chain, World, WorldModel};
use vstd::prelude::*;

verus! {

/// Target stockpile, in hundredths of a month's consumption.
pub const STOCK_TARGET_PERCENT: i64 = 150;

/// Stores of at most this many hundredths of a unit count as empty.
pub const EMPTY_STOCK_PERCENT: i64 = 1;

/// The scarcity ratio stays between these two, in hundredths.
pub const MIN_SCARCITY_PERCENT: i64 = 25;

pub const MAX_SCARCITY_PERCENT: i64 = 1000;

/// The exponent with which prices follow scarcity, in hundredths.
pub const PRICE_ELASTICITY_PERCENT: i64 = 70;

/// The part of the way to its target that a price moves in a month, in hundredths.
pub const PRICE_ADJUSTMENT_PERCENT: i64 = 25;

/// Price changes above this, in hundredths, are reported.
pub const PRICE_REPORT_PERCENT: i64 = 10;

/// How wrong one-hop market rumors can be, in hundredths, up or down.
pub const RUMOR_NOISE_PERCENT: i64 = 10;

/// How much a trader's boldness colours second-hand prices, in hundredths.
pub const PRICE_BIAS_PERCENT: i64 = 12;

/// The change from `old_value` to `new_value` as a fraction of `old_value`.
pub open spec fn relative_change<N: Number>(old_value: N, new_value: N) -> N {
    if old_value.magnitude().less(N::fraction(1, 10000)) {
        whole(0)
    } else {
        new_value.difference(old_value).quotient(old_value)
    }
}

pub fn percentage_change<N: Number>(old_value: N, new_value: N) -> (r: N)
    ensures
        r == relative_change(old_value, new_value),
{
    if old_value.abs().lt(N::ratio(1, 10000)) {
        make_whole(0)
    } else {
        new_value.sub(old_value).div(old_value)
    }
}

/// The price that a settlement asks, or the base price where it asks none.
pub open spec fn asked<N: Number>(settlement: Settlement<N>, good: Good) -> N {
    settlement.prices.at_or(good, base_price(good))
}

/// The stock of a good that a settlement wants to have.
pub open spec fn wanted_stock<N: Number>(settlement: Settlement<N>, good: Good) -> N {
    settlement.consumption.at_or(good, whole(1)).product(hundredths(STOCK_TARGET_PERCENT))
}

/// How much a settlement wants for each unit that it has.
pub open spec fn scarcity<N: Number>(settlement: Settlement<N>, good: Good) -> N {
    let stock = settlement.stockpiles.at_or(good, whole(0));
    let ratio = if stock.at_most(hundredths(EMPTY_STOCK_PERCENT)) {
        hundredths(MAX_SCARCITY_PERCENT)
    } else {
        wanted_stock(settlement, good).quotient(stock)
    };
    clamped(ratio, hundredths(MIN_SCARCITY_PERCENT), hundredths(MAX_SCARCITY_PERCENT))
}

/// The price that the stores of a settlement call for.
pub open spec fn target_price<N: Number>(settlement: Settlement<N>, good: Good) -> N {
    base_price::<N>(good).product(
        scarcity(settlement, good).power(hundredths(PRICE_ELASTICITY_PERCENT)),
    )
}

/// The asked price, moved part of the way to its target.
pub open spec fn next_price<N: Number>(settlement: Settlement<N>, good: Good) -> N {
    let speed = hundredths::<N>(PRICE_ADJUSTMENT_PERCENT);
    asked(settlement, good).product(whole::<N>(1).difference(speed)).sum(
        target_price(settlement, good).product(speed),
    )
}

/// The settlement with this month's prices.
pub open spec fn repriced<N: Number>(settlement: Settlement<N>) -> Settlement<N> {
    Settlement {
        prices: GoodMap {
            food: Some(next_price(settlement, Good::Food)),
            ore: Some(next_price(settlement, Good::Ore)),
            tools: Some(next_price(settlement, Good::Tools)),
        },
        ..settlement
    }
}

pub open spec fn price_report<N: Number>(settlement: Settlement<N>, good: Good) -> Seq<Event<N>> {
    let old_price = asked(settlement, good);
    let new_price = next_price(settlement, good);
    if hundredths::<N>(PRICE_REPORT_PERCENT).less(
        relative_change(old_price, new_price).magnitude(),
    ) {
        seq![Event::PriceChanged { settlement: settlement.id, good, old_price, new_price }]
    } else {
        seq![]
    }
}

/// What a settlement reports of its prices.
pub open spec fn pricing_report<N: Number>(settlement: Settlement<N>) -> Seq<Event<N>> {
    price_report(settlement, Good::Food) + price_report(settlement, Good::Ore) + price_report(
        settlement,
        Good::Tools,
    )
}

/// The far ends of those of the first `n` routes that touch `place`.
pub open spec fn neighbors<N: Number>(
    routes: Seq<Route<N>>,
    place: SettlementId,
    n: int,
) -> Seq<SettlementId>
    decreases n,
{
    if n <= 0 {
        Seq::empty()
    } else if routes[n - 1].touches(place) {
        neighbors(routes, place, n - 1).push(routes[n - 1].far_end(place))
    } else {
        neighbors(routes, place, n - 1)
    }
}

/// Each place comes before the ones behind it.
pub open spec fn increasing(places: Seq<SettlementId>) -> bool {
    forall|i: int, j: int| 0 <= i < j < places.len() ==> places[i] < places[j]
}

/// A number that looks random but depends on its arguments alone.
pub open spec fn rumor_seed(trader: TraderId, settlement: SettlementId, good: Good) -> int {
    trader * 31 + settlement * 17 + index_of(good) * 7
}

/// The error of a rumor, as a fraction of the price.
pub open spec fn rumor_noise<N: Number>(
    trader: TraderId,
    settlement: SettlementId,
    good: Good,
) -> N {
    let seed = N::count(rumor_seed(trader, settlement, good) as usize);
    let spread = seed.remainder(whole(100)).quotient(whole(100)).difference(hundredths(50));
    spread.product(whole(2)).product(hundredths(RUMOR_NOISE_PERCENT))
}

impl<N: Number> TraderModel<N> {
    /// The trader sees the market of `place` with their own eyes.
    pub open spec fn sees(self, place: SettlementId) -> bool {
        place == self.location || place == self.home_base
    }
}

impl<N: Number> WorldModel<N> {
    pub open spec fn all_neighbors(self, place: SettlementId) -> Seq<SettlementId> {
        neighbors(self.routes, place, self.routes.len() as int)
    }

    /// News of `place` reaches someone at `location` with home at `home_base`:
    /// it is one of the two, or one hop away from one of the two.
    pub open spec fn hears(
        self,
        location: SettlementId,
        home_base: SettlementId,
        place: SettlementId,
    ) -> bool {
        ||| place == location
        ||| place == home_base
        ||| self.all_neighbors(location).contains(place)
        ||| self.all_neighbors(home_base).contains(place)
    }

    /// The price of a good in a market that asks one.
    pub open spec fn price_at(self, place: SettlementId, good: Good) -> N {
        self.settlements[place as int].prices.at(good)->0
    }

    /// What a trader is told of a price.
    pub open spec fn rumor(self, trader: TraderId, place: SettlementId, good: Good) -> N {
        self.price_at(place, good).product(
            whole::<N>(1).sum(rumor_noise(trader, place, good)),
        )
    }

    /// What a trader learns of a price: the price itself where they see it, a
    /// rumor elsewhere.
    pub open spec fn news(self, trader: TraderId, place: SettlementId, good: Good) -> N {
        if self.traders[trader as int].sees(place) {
            self.price_at(place, good)
        } else {
            self.rumor(trader, place, good)
        }
    }

    /// Everything that a trader learns this month.
    pub open spec fn all_news(self, trader: TraderId) -> Map<(SettlementId, Good), N> {
        let place = self.traders[trader as int];
        Map::new(
            |key: (SettlementId, Good)| self.hears(place.location, place.home_base, key.0),
            |key: (SettlementId, Good)| self.news(trader, key.0, key.1),
        )
    }

    /// A trader who has heard this month's news.
    pub open spec fn informed(self, trader: TraderId) -> TraderModel<N> {
        TraderModel {
            known_prices: self.traders[trader as int].known_prices.union_prefer_right(
                self.all_news(trader),
            ),
            ..self.traders[trader as int]
        }
    }

    pub open spec fn after_news(self) -> Self {
        WorldModel {
            traders: Seq::new(self.traders.len(), |i: int| self.informed(i as TraderId)),
            ..self
        }
    }

    /// The world after a trader noted all prices of one market.
    pub open spec fn after_visit(self, trader: TraderId, place: SettlementId) -> Self {
        let visitor = self.traders[trader as int];
        WorldModel {
            traders: self.traders.update(
                trader as int,
                TraderModel {
                    known_prices: visitor.known_prices.insert(
                        (place, Good::Food),
                        self.price_at(place, Good::Food),
                    ).insert((place, Good::Ore), self.price_at(place, Good::Ore)).insert(
                        (place, Good::Tools),
                        self.price_at(place, Good::Tools),
                    ),
                    ..visitor
                },
            ),
            ..self
        }
    }

    /// Every settlement has this month's prices.
    pub open spec fn after_repricing(self) -> Self {
        WorldModel {
            settlements: Seq::new(self.settlements.len(), |i: int| repriced(self.settlements[i])),
            events: self.events + chain(
                self.settlements.len() as int,
                |i: int| pricing_report(self.settlements[i]),
            ),
            ..self
        }
    }

    pub open spec fn after_price_update(self) -> Self {
        self.after_repricing().after_news()
    }

    /// The price that a trader reckons with: the price itself where they see it;
    /// elsewhere what they last heard, or else the base price, as their boldness
    /// colours it.
    pub open spec fn perceived_price(
        self,
        trader: TraderId,
        place: SettlementId,
        good: Good,
    ) -> N {
        let judge = self.traders[trader as int];
        if judge.sees(place) {
            self.price_at(place, good)
        } else {
            let quote = if judge.known_prices.contains_key((place, good)) {
                judge.known_prices[(place, good)]
            } else {
                base_price(good)
            };
            let bias = judge.risk_tolerance.difference(hundredths(50)).product(
                hundredths(PRICE_BIAS_PERCENT),
            );
            quote.product(whole::<N>(1).sum(bias))
        }
    }
}

fn update_price<N: Number>(settlement: &Settlement<N>, events: &mut Vec<Event<N>>, good: Good) -> (r:
    N)
    ensures
        r == next_price(*settlement, good),
        final(events)@ == old(events)@ + price_report(*settlement, good),
{
    let base: N = make_base_price(good);
    let old_price = settlement.prices.get_or(good, base);
    let stockpile = settlement.stockpiles.get_or(good, make_whole(0));
    let monthly_need = settlement.consumption.get_or(good, make_whole(1));
    let target_stockpile = monthly_need.mul(make_hundredths(STOCK_TARGET_PERCENT));
    let ratio = if stockpile.le(make_hundredths(EMPTY_STOCK_PERCENT)) {
        make_hundredths(MAX_SCARCITY_PERCENT)
    } else {
        target_stockpile.div(stockpile)
    };
    let scarcity_ratio = clamp(
        ratio,
        make_hundredths(MIN_SCARCITY_PERCENT),
        make_hundredths(MAX_SCARCITY_PERCENT),
    );
    let elasticity = make_hundredths(PRICE_ELASTICITY_PERCENT);
    let target = base.mul(scarcity_ratio.powf(elasticity));
    let speed: N = make_hundredths(PRICE_ADJUSTMENT_PERCENT);
    let new_price = old_price.mul(make_whole::<N>(1).sub(speed)).add(target.mul(speed));
    let change = percentage_change(old_price, new_price).abs();
    if make_hundredths::<N>(PRICE_REPORT_PERCENT).lt(change) {
        events.push(
            Event::PriceChanged { settlement: settlement.id, good, old_price, new_price },
        );
    }
    assert(events@ =~= old(events)@ + price_report(*settlement, good));
    new_price
}

/// Puts `place` into an increasing list, unless it is there already.
fn note_market(places: &mut Vec<SettlementId>, place: SettlementId)
    requires
        increasing(old(places)@),
    ensures
        increasing(final(places)@),
        forall|p: SettlementId| #[trigger]
            final(places)@.contains(p) <==> old(places)@.contains(p) || p == place,
{
    let mut i: usize = 0;
    while i < places.len() && places[i] < place
        invariant
            i <= places@.len(),
            places@ == old(places)@,
            forall|j: int| 0 <= j < i ==> places@[j] < place,
        decreases places@.len() - i,
    {
        i = i + 1;
    }
    let ghost before = places@;
    if i < places.len() && places[i] == place {
        assert(before[i as int] == place);
        return;
    }
    places.insert(i, place);
    let ghost after = places@;
    assert(after[i as int] == place);
    assert forall|p: SettlementId| #[trigger]
        after.contains(p) <==> before.contains(p) || p == place by {
        if before.contains(p) {
            let j = choose|j: int| 0 <= j < before.len() && before[j] == p;
            if j < i {
                assert(after[j] == p);
            } else {
                assert(after[j + 1] == p);
            }
        }
        if after.contains(p) {
            let j = choose|j: int| 0 <= j < after.len() && after[j] == p;
            if j < i {
                assert(before[j] == p);
            } else if j > i {
                assert(before[j - 1] == p);
            }
        }
    }
}

/// Neighbors are settlements that exist.
pub proof fn lemma_neighbors_named<N: Number>(model: WorldModel<N>, place: SettlementId, n: int)
    requires
        model.ends_wf(),
        0 <= n <= model.routes.len(),
    ensures
        forall|k: int|
            0 <= k < neighbors(model.routes, place, n).len() ==> #[trigger] neighbors(
                model.routes,
                place,
                n,
            )[k] < model.settlements.len(),
    decreases n,
{
    if n > 0 {
        lemma_neighbors_named(model, place, n - 1);
        let _ = model.routes[n - 1].a;
        let before = neighbors(model.routes, place, n - 1);
        let all = neighbors(model.routes, place, n);
        assert forall|k: int| 0 <= k < all.len() implies #[trigger] all[k]
            < model.settlements.len() by {
            if k < before.len() {
                assert(all[k] == before[k]);
            }
        }
    }
}

impl<N: Number> World<N> {
    pub fn update_prices(&mut self)
        requires
            old(self)@.ends_wf(),
            old(self)@.traders_wf(),
            old(self)@.seeds_fit(),
        ensures
            final(self)@ == old(self)@.after_price_update(),
            final(self)@.priced(),
    {
        let ghost report = |i: int| pricing_report(old(self)@.settlements[i]);
        let mut i: usize = 0;
        while i < self.settlements.len()
            invariant
                i <= self.settlements@.len(),
                self.settlements@.len() == old(self).settlements@.len(),
                report == (|i: int| pricing_report(old(self)@.settlements[i])),
                self@ == (WorldModel {
                    settlements: self.settlements@,
                    events: old(self)@.events + chain(i as int, report),
                    ..old(self)@
                }),
                forall|j: int|
                    0 <= j < self.settlements@.len() ==> #[trigger] self.settlements@[j] == if j < i {
                        repriced(old(self).settlements@[j])
                    } else {
                        old(self).settlements@[j]
                    },
            decreases self.settlements@.len() - i,
        {
            let ghost before = self@;
            let food = update_price(&self.settlements[i], &mut self.events, Good::Food);
            let ore = update_price(&self.settlements[i], &mut self.events, Good::Ore);
            let tools = update_price(&self.settlements[i], &mut self.events, Good::Tools);
            self.settlements[i].prices = GoodMap {
                food: Some(food),
                ore: Some(ore),
                tools: Some(tools),
            };
            assert(self.events@ =~= before.events + report(i as int));
            i = i + 1;
            assert(self.events@ =~= old(self)@.events + chain(i as int, report));
        }
        assert(self@ =~= old(self)@.after_repricing());
        proof {
            let start = old(self)@;
            assert forall|i: int| 0 <= i < self@.traders.len() implies self@.trader_wf(
                #[trigger] self@.traders[i],
            ) by {
                assert(start.trader_wf(start.traders[i]));
            }
            assert forall|i: int| 0 <= i < self@.routes.len() implies (
            #[trigger] self@.routes[i]).a < self@.settlements.len() && self@.routes[i].b
                < self@.settlements.len() by {
                assert(start.routes[i].a < start.settlements.len());
            }
        }
        self.refresh_trader_price_knowledge();
    }

    pub fn route_neighbors(&self, settlement_id: SettlementId) -> (r: Vec<SettlementId>)
        ensures
            r@ == self@.all_neighbors(settlement_id),
    {
        let mut found: Vec<SettlementId> = Vec::new();
        let mut i: usize = 0;
        while i < self.routes.len()
            invariant
                i <= self.routes@.len(),
                found@ == neighbors(self@.routes, settlement_id, i as int),
            decreases self.routes@.len() - i,
        {
            let route = self.routes[i];
            if route.a == settlement_id {
                found.push(route.b);
            } else if route.b == settlement_id {
                found.push(route.a);
            }
            i = i + 1;
        }
        found
    }

    pub fn markets_heard_by(&self, location: SettlementId, home_base: SettlementId) -> (r: Vec<
        SettlementId,
    >)
        ensures
            increasing(r@),
            forall|place: SettlementId| #[trigger]
                r@.contains(place) <==> self@.hears(location, home_base, place),
    {
        let mut heard: Vec<SettlementId> = Vec::new();
        note_market(&mut heard, location);
        note_market(&mut heard, home_base);
        let near_location = self.route_neighbors(location);
        let near_home = self.route_neighbors(home_base);
        let mut i: usize = 0;
        while i < near_location.len()
            invariant
                i <= near_location@.len(),
                increasing(heard@),
                forall|place: SettlementId| #[trigger]
                    heard@.contains(place) <==> place == location || place == home_base || exists|
                        j: int,
                    |
                        0 <= j < i && near_location@[j] == place,
            decreases near_location@.len() - i,
        {
            note_market(&mut heard, near_location[i]);
            i = i + 1;
        }
        let mut k: usize = 0;
        while k < near_home.len()
            invariant
                k <= near_home@.len(),
                increasing(heard@),
                forall|place: SettlementId| #[trigger]
                    heard@.contains(place) <==> place == location || place == home_base
                        || near_location@.contains(place) || exists|j: int|
                        0 <= j < k && near_home@[j] == place,
            decreases near_home@.len() - k,
        {
            note_market(&mut heard, near_home[k]);
            k = k + 1;
        }
        heard
    }

    pub fn rumor_price(&self, trader_id: TraderId, settlement_id: SettlementId, good: Good) -> (r: N)
        requires
            settlement_id < self@.settlements.len(),
            self@.settlements[settlement_id as int].prices.at(good) is Some,
            rumor_seed(trader_id, settlement_id, good) <= usize::MAX,
        ensures
            r == self@.rumor(trader_id, settlement_id, good),
    {
        let actual = self.settlements[settlement_id].prices.get(good).unwrap();
        let seed: usize = trader_id * 31 + settlement_id * 17 + good_index(good) * 7;
        let spread = N::from_count(seed).rem(make_whole(100)).div(make_whole(100)).sub(
            make_hundredths(50),
        );
        let noise = spread.mul(make_whole(2)).mul(make_hundredths(RUMOR_NOISE_PERCENT));
        actual.mul(make_whole::<N>(1).add(noise))
    }

    /// One price as a trader learns it.
    fn learn(&self, trader_id: TraderId, settlement_id: SettlementId, good: Good) -> (r: N)
        requires
            self@.seeds_fit(),
            self@.priced(),
            trader_id < self@.traders.len(),
            settlement_id < self@.settlements.len(),
        ensures
            r == self@.news(trader_id, settlement_id, good),
    {
        assert(self@.settlements[settlement_id as int].prices.total());
        let trader = &self.traders[trader_id];
        assert(self@.traders[trader_id as int] == trader@);
        if settlement_id == trader.location || settlement_id == trader.home_base {
            self.settlements[settlement_id].prices.get(good).unwrap()
        } else {
            assert(trader_id * 31 + settlement_id * 17 + index_of(good) * 7 <= usize::MAX);
            self.rumor_price(trader_id, settlement_id, good)
        }
    }

    pub fn refresh_trader_price_knowledge(&mut self)
        requires
            old(self)@.ends_wf(),
            old(self)@.traders_wf(),
            old(self)@.seeds_fit(),
            old(self)@.priced(),
        ensures
            final(self)@ == old(self)@.after_news(),
    {
        let ghost start = self@;
        let count: usize = self.traders.len();
        let mut trader_id: usize = 0;
        while trader_id < count
            invariant
                start.ends_wf(),
                start.traders_wf(),
                start.seeds_fit(),
                start.priced(),
                trader_id <= count == start.traders.len(),
                self@ == (WorldModel { traders: self@.traders, ..start }),
                self@.traders.len() == count,
                forall|j: int|
                    0 <= j < count ==> #[trigger] self@.traders[j] == if j < trader_id {
                        start.informed(j as TraderId)
                    } else {
                        start.traders[j]
                    },
            decreases count - trader_id,
        {
            let location = self.traders[trader_id].location;
            let home_base = self.traders[trader_id].home_base;
            assert(self@.traders[trader_id as int] == start.traders[trader_id as int]);
            let heard = self.markets_heard_by(location, home_base);
            proof {
                lemma_neighbors_named(start, location, start.routes.len() as int);
                lemma_neighbors_named(start, home_base, start.routes.len() as int);
                assert(start.trader_wf(start.traders[trader_id as int]));
                assert forall|m: int| 0 <= m < heard@.len() implies #[trigger] heard@[m]
                    < start.settlements.len() by {
                    assert(heard@.contains(heard@[m]));
                }
            }
            self.hear(trader_id, &heard);
            proof {
                let after = self@.traders[trader_id as int].known_prices;
                assert forall|key: (SettlementId, Good)|
                    start.hears(location, home_base, key.0) <==> heard@.contains(key.0) by {}
                assert(after =~= start.informed(trader_id).known_prices);
                assert(self@.traders[trader_id as int] =~= start.informed(trader_id));
            }
            trader_id = trader_id + 1;
        }
        assert(self@ =~= start.after_news());
    }

    /// A trader takes note of all prices of the given markets.
    fn hear(&mut self, trader_id: TraderId, heard: &Vec<SettlementId>)
        requires
            old(self)@.seeds_fit(),
            old(self)@.priced(),
            trader_id < old(self)@.traders.len(),
            forall|m: int| 0 <= m < heard@.len() ==> #[trigger] heard@[m] < old(self)@.settlements.len(),
        ensures
            ({
                let listener = old(self)@.traders[trader_id as int];
                let told = Map::new(
                    |key: (SettlementId, Good)| heard@.contains(key.0),
                    |key: (SettlementId, Good)| old(self)@.news(trader_id, key.0, key.1),
                );
                final(self)@ == (WorldModel {
                    traders: old(self)@.traders.update(
                        trader_id as int,
                        TraderModel {
                            known_prices: listener.known_prices.union_prefer_right(told),
                            ..listener
                        },
                    ),
                    ..old(self)@
                })
            }),
    {
        let ghost start = self@;
        let ghost known = start.traders[trader_id as int].known_prices;
        let mut m: usize = 0;
        while m < heard.len()
            invariant
                m <= heard@.len(),
                start.seeds_fit(),
                start.priced(),
                trader_id < start.traders.len(),
                known == start.traders[trader_id as int].known_prices,
                forall|m: int| 0 <= m < heard@.len() ==> #[trigger] heard@[m] < start.settlements.len(),
                self@ == (WorldModel {
                    traders: start.traders.update(
                        trader_id as int,
                        TraderModel {
                            known_prices: self@.traders[trader_id as int].known_prices,
                            ..start.traders[trader_id as int]
                        },
                    ),
                    ..start
                }),
                self@.priced(),
                forall|key: (SettlementId, Good)| #[trigger]
                    self@.traders[trader_id as int].known_prices.contains_key(key) <==> (
                    known.contains_key(key) || exists|j: int| 0 <= j < m && heard@[j] == key.0),
                forall|key: (SettlementId, Good)| #[trigger]
                    self@.traders[trader_id as int].known_prices.contains_key(key) ==> self@.traders[trader_id as int].known_prices[key]
                        == if exists|j: int| 0 <= j < m && heard@[j] == key.0 {
                        start.news(trader_id, key.0, key.1)
                    } else {
                        known[key]
                    },
            decreases heard@.len() - m,
        {
            let place = heard[m];
            let ghost before = self@;
            let food = self.learn(trader_id, place, Good::Food);
            let ore = self.learn(trader_id, place, Good::Ore);
            let tools = self.learn(trader_id, place, Good::Tools);
            assert(self@.traders[trader_id as int] == self.traders@[trader_id as int]@);
            self.traders[trader_id].known_prices.insert(place, Good::Food, food);
            self.traders[trader_id].known_prices.insert(place, Good::Ore, ore);
            self.traders[trader_id].known_prices.insert(place, Good::Tools, tools);
            proof {
                let noted = self@.traders[trader_id as int];
                assert(noted == self.traders@[trader_id as int]@);
                assert(noted == TraderModel {
                    known_prices: noted.known_prices,
                    ..before.traders[trader_id as int]
                });
                assert(forall|i: int|
                    0 <= i < before.traders.len() && i != trader_id ==> #[trigger] self@.traders[i]
                        == before.traders[i]);
                assert(noted.known_prices =~= before.traders[trader_id as int].known_prices.insert(
                    (place, Good::Food),
                    food,
                ).insert((place, Good::Ore), ore).insert((place, Good::Tools), tools));
                assert(self@ =~= (WorldModel {
                    traders: start.traders.update(
                        trader_id as int,
                        TraderModel {
                            known_prices: self@.traders[trader_id as int].known_prices,
                            ..start.traders[trader_id as int]
                        },
                    ),
                    ..start
                }));
                assert forall|key: (SettlementId, Good)| (exists|j: int|
                    0 <= j < m + 1 && heard@[j] == key.0) <==> (key.0 == place || exists|j: int|
                    0 <= j < m && heard@[j] == key.0) by {
                    assert(heard@[m as int] == place);
                }
            }
            m = m + 1;
        }
        proof {
            let told = Map::new(
                |key: (SettlementId, Good)| heard@.contains(key.0),
                |key: (SettlementId, Good)| start.news(trader_id, key.0, key.1),
            );
            assert(self@.traders[trader_id as int].known_prices =~= known.union_prefer_right(told));
        }
    }

    pub fn sync_trader_prices_at(&mut self, trader_id: TraderId, settlement_id: SettlementId)
        requires
            trader_id < old(self)@.traders.len(),
            settlement_id < old(self)@.settlements.len(),
            old(self)@.settlements[settlement_id as int].prices.total(),
        ensures
            final(self)@ == old(self)@.after_visit(trader_id, settlement_id),
    {
        let prices = self.settlements[settlement_id].prices;
        let food = prices.get(Good::Food).unwrap();
        let ore = prices.get(Good::Ore).unwrap();
        let tools = prices.get(Good::Tools).unwrap();
        self.traders[trader_id].known_prices.insert(settlement_id, Good::Food, food);
        self.traders[trader_id].known_prices.insert(settlement_id, Good::Ore, ore);
        self.traders[trader_id].known_prices.insert(settlement_id, Good::Tools, tools);
        assert(self@ =~= old(self)@.after_visit(trader_id, settlement_id));
    }

    /// Fresh quotes at the trader's location and home; rumors or memory elsewhere.
    pub fn trader_perceived_price(
        &self,
        trader_id: TraderId,
        settlement_id: SettlementId,
        good: Good,
    ) -> (r: N)
        requires
            trader_id < self@.traders.len(),
            self@.traders[trader_id as int].sees(settlement_id) ==> {
                &&& settlement_id < self@.settlements.len()
                &&& self@.settlements[settlement_id as int].prices.at(good) is Some
            },
        ensures
            r == self@.perceived_price(trader_id, settlement_id, good),
    {
        let trader = &self.traders[trader_id];
        assert(self@.traders[trader_id as int] == trader@);
        if settlement_id == trader.location || settlement_id == trader.home_base {
            return self.settlements[settlement_id].prices.get(good).unwrap();
        }
        let quote = match trader.known_prices.get(settlement_id, good) {
            Some(price) => price,
            None => make_base_price(good),
        };
        let bias = trader.risk_tolerance.sub(make_hundredths(50)).mul(
            make_hundredths(PRICE_BIAS_PERCENT),
        );
        quote.mul(make_whole::<N>(1).add(bias))
    }
}

} // verus!
