//! The simulation in floating point.

use mundios::demo::create_demo_world;
use mundios::event::{count_shipments, Event};
use mundios::goods::{base_prices, good_index, good_name, Good, GoodMap};
use mundios::market::percentage_change;
use mundios::number::{clamp, Number};
use mundios::route::{effective_monthly_incident_rate, Route};
use mundios::settlement::{
    austerity_multiplier, consumption_multiplier, credit_limit, debt_stress,
    monthly_production_value, settlement_purchasing_power, Settlement,
};
use mundios::shipment::{apply_monthly_cargo_risk, CargoRoll, Shipment};
use mundios::summary::{long_run_summary, RunRecord};
use mundios::trader::{PriceMemory, Trader};
use mundios::world::{sum_trader_money, total_money, World};

#[derive(Debug, Clone, Copy, PartialEq)]
struct Real(f64);

impl Number for Real {
    fn fraction(num: i64, den: i64) -> Real {
        Real(num as f64 / den as f64)
    }
    fn count(n: usize) -> Real {
        Real(n as f64)
    }
    fn sum(self, other: Real) -> Real {
        Real(self.0 + other.0)
    }
    fn difference(self, other: Real) -> Real {
        Real(self.0 - other.0)
    }
    fn product(self, other: Real) -> Real {
        Real(self.0 * other.0)
    }
    fn quotient(self, other: Real) -> Real {
        Real(self.0 / other.0)
    }
    fn remainder(self, other: Real) -> Real {
        Real(self.0 % other.0)
    }
    fn opposite(self) -> Real {
        Real(-self.0)
    }
    fn magnitude(self) -> Real {
        Real(self.0.abs())
    }
    fn floored(self) -> Real {
        Real(self.0.floor())
    }
    fn smaller(self, other: Real) -> Real {
        Real(self.0.min(other.0))
    }
    fn larger(self, other: Real) -> Real {
        Real(self.0.max(other.0))
    }
    fn power(self, exponent: Real) -> Real {
        Real(self.0.powf(exponent.0))
    }
    fn whole_power(self, exponent: i32) -> Real {
        Real(self.0.powi(exponent))
    }
    fn less(self, other: Real) -> bool {
        self.0 < other.0
    }
    fn at_most(self, other: Real) -> bool {
        self.0 <= other.0
    }
    fn text(self, places: usize) -> String {
        format!("{:.*}", places, self.0)
    }
    fn ratio(num: i64, den: i64) -> Real {
        Self::fraction(num, den)
    }
    fn from_count(n: usize) -> Real {
        Self::count(n)
    }
    fn add(self, other: Real) -> Real {
        self.sum(other)
    }
    fn sub(self, other: Real) -> Real {
        self.difference(other)
    }
    fn mul(self, other: Real) -> Real {
        self.product(other)
    }
    fn div(self, other: Real) -> Real {
        self.quotient(other)
    }
    fn rem(self, other: Real) -> Real {
        self.remainder(other)
    }
    fn neg(self) -> Real {
        self.opposite()
    }
    fn abs(self) -> Real {
        self.magnitude()
    }
    fn floor(self) -> Real {
        self.floored()
    }
    fn min(self, other: Real) -> Real {
        self.smaller(other)
    }
    fn max(self, other: Real) -> Real {
        self.larger(other)
    }
    fn powf(self, exponent: Real) -> Real {
        self.power(exponent)
    }
    fn powi(self, exponent: i32) -> Real {
        self.whole_power(exponent)
    }
    fn lt(self, other: Real) -> bool {
        self.less(other)
    }
    fn le(self, other: Real) -> bool {
        self.at_most(other)
    }
    fn to_fixed(self, places: usize) -> String {
        self.text(places)
    }
}

fn goods(food: Option<f64>, ore: Option<f64>, tools: Option<f64>) -> GoodMap<Real> {
    GoodMap { food: food.map(Real), ore: ore.map(Real), tools: tools.map(Real) }
}

fn prices(food: f64, ore: f64, tools: f64) -> GoodMap<Real> {
    goods(Some(food), Some(ore), Some(tools))
}

/// A settlement that makes ten of food a month: it may borrow 300.
fn farm(id: usize, money: f64) -> Settlement<Real> {
    Settlement {
        id,
        name: format!("Farm {}", id),
        stockpiles: goods(None, None, None),
        prices: prices(10.0, 8.0, 20.0),
        production: goods(Some(10.0), None, None),
        consumption: goods(None, None, None),
        money: Real(money),
        production_scale: goods(None, None, None),
    }
}

fn route(id: usize, a: usize, b: usize) -> Route<Real> {
    Route {
        id,
        a,
        b,
        travel_months: 1,
        capacity_per_month: Real(100.0),
        used_capacity_this_month: Real(0.0),
        cost_per_unit: Real(2.0),
        monthly_incident_rate: Real(0.1),
    }
}

fn trader(id: usize, place: usize, money: f64, capacity: f64) -> Trader<Real> {
    Trader {
        id,
        name: format!("Trader {}", id),
        location: place,
        home_base: place,
        money: Real(money),
        trade_capacity: Real(capacity),
        risk_tolerance: Real(0.5),
        known_prices: PriceMemory::new(),
    }
}

fn world(
    settlements: Vec<Settlement<Real>>,
    routes: Vec<Route<Real>>,
    traders: Vec<Trader<Real>>,
) -> World<Real> {
    World {
        month: 0,
        expected_total_money: Real(0.0),
        settlements,
        routes,
        traders,
        shipments: Vec::new(),
        events: Vec::new(),
    }
}

fn shipment(quantity: f64, months_remaining: u32) -> Shipment<Real> {
    Shipment {
        trader: 0,
        good: Good::Food,
        quantity: Real(quantity),
        initial_quantity: Real(quantity),
        capacity_units: Real(quantity),
        seller: 0,
        buyer: 1,
        route: 0,
        buy_price: Real(10.0),
        expected_sell_price: Real(20.0),
        transport_cost_per_unit: Real(2.0),
        effective_monthly_incident_rate: Real(0.07),
        months_remaining,
    }
}

fn calm(n: usize) -> Vec<CargoRoll<Real>> {
    vec![CargoRoll { incident: Real(1.0), loss_fraction: Real(0.0) }; n]
}

fn stormy(n: usize) -> Vec<CargoRoll<Real>> {
    vec![CargoRoll { incident: Real(0.0), loss_fraction: Real(0.25) }; n]
}

fn near(got: Real, expected: f64) -> bool {
    (got.0 - expected).abs() < 1e-6
}

#[test]
fn goods_have_names_and_an_order() {
    assert_eq!(good_name(Good::Food), "Food");
    assert_eq!(good_name(Good::Ore), "Ore");
    assert_eq!(good_name(Good::Tools), "Tools");
    assert_eq!(good_index(Good::Food), 0);
    assert_eq!(good_index(Good::Ore), 1);
    assert_eq!(good_index(Good::Tools), 2);
}

#[test]
fn good_maps_keep_what_was_put_in() {
    let mut map: GoodMap<Real> = GoodMap::new();
    assert_eq!(map.get(Good::Ore), None);
    map.insert(Good::Ore, Real(4.0));
    map.insert(Good::Ore, Real(5.0));
    assert_eq!(map.get(Good::Ore), Some(Real(5.0)));
    assert_eq!(map.get(Good::Food), None);
    assert_eq!(map.get_or(Good::Tools, Real(7.0)), Real(7.0));
    assert_eq!(base_prices::<Real>(), prices(10.0, 8.0, 20.0));
}

#[test]
fn clamping_moves_to_the_nearer_end() {
    assert_eq!(clamp(Real(0.1), Real(0.25), Real(10.0)), Real(0.25));
    assert_eq!(clamp(Real(11.0), Real(0.25), Real(10.0)), Real(10.0));
    assert_eq!(clamp(Real(3.0), Real(0.25), Real(10.0)), Real(3.0));
}

#[test]
fn credit_is_three_months_of_production() {
    let mut place = farm(0, 0.0);
    place.production = goods(Some(320.0), Some(2.0), Some(1.0));
    assert_eq!(monthly_production_value(&place), Real(3236.0));
    assert_eq!(credit_limit(&place), Real(9708.0));
}

#[test]
fn debt_stress_runs_from_zero_to_one() {
    assert_eq!(debt_stress(&farm(0, 0.0)), Real(0.0));
    assert_eq!(debt_stress(&farm(0, -75.0)), Real(0.25));
    assert_eq!(debt_stress(&farm(0, -900.0)), Real(1.0));
    let mut barren = farm(0, -1.0);
    barren.production = goods(None, None, None);
    assert_eq!(debt_stress(&barren), Real(1.0));
}

#[test]
fn appetite_follows_the_treasury() {
    assert_eq!(austerity_multiplier(Real(0.5)), Real(0.75));
    assert_eq!(consumption_multiplier(&farm(0, 100.0)), Real(1.0));
    assert_eq!(consumption_multiplier(&farm(0, 2500.0)), Real(1.0));
    assert_eq!(consumption_multiplier(&farm(0, -300.0)), Real(0.5));
    assert_eq!(consumption_multiplier(&farm(0, 3750.0)), Real(1.125));
    assert_eq!(consumption_multiplier(&farm(0, 99_999.0)), Real(1.25));
}

#[test]
fn buying_power_is_cash_and_credit() {
    assert_eq!(settlement_purchasing_power(&farm(0, 50.0)), Real(350.0));
    assert_eq!(settlement_purchasing_power(&farm(0, -100.0)), Real(200.0));
    assert_eq!(settlement_purchasing_power(&farm(0, -500.0)), Real(0.0));
}

#[test]
fn changes_are_relative() {
    assert_eq!(percentage_change(Real(10.0), Real(12.5)), Real(0.25));
    assert_eq!(percentage_change(Real(10.0), Real(5.0)), Real(-0.5));
    assert_eq!(percentage_change(Real(0.00001), Real(5.0)), Real(0.0));
}

#[test]
fn familiar_routes_are_safer() {
    let way = route(0, 3, 5);
    assert_eq!(effective_monthly_incident_rate(&way, 3), Real(0.1 * 0.7));
    assert_eq!(effective_monthly_incident_rate(&way, 5), Real(0.1 * 0.7));
    assert_eq!(effective_monthly_incident_rate(&way, 4), Real(0.1));
}

#[test]
fn incidents_take_a_part_of_the_cargo() {
    let mut quantity = Real(80.0);
    let hit = CargoRoll { incident: Real(0.04), loss_fraction: Real(0.25) };
    assert_eq!(apply_monthly_cargo_risk(&mut quantity, Real(0.05), &hit), Some(Real(20.0)));
    assert_eq!(quantity, Real(60.0));
    let miss = CargoRoll { incident: Real(0.05), loss_fraction: Real(0.25) };
    assert_eq!(apply_monthly_cargo_risk(&mut quantity, Real(0.05), &miss), None);
    assert_eq!(quantity, Real(60.0));
}

#[test]
fn memory_keeps_the_last_price() {
    let mut memory: PriceMemory<Real> = PriceMemory::new();
    assert_eq!(memory.get(1, Good::Food), None);
    memory.insert(1, Good::Food, Real(3.0));
    memory.insert(2, Good::Food, Real(4.0));
    memory.insert(1, Good::Food, Real(5.0));
    assert_eq!(memory.get(1, Good::Food), Some(Real(5.0)));
    assert_eq!(memory.get(2, Good::Food), Some(Real(4.0)));
    assert_eq!(memory.get(1, Good::Ore), None);
}

#[test]
fn production_recovers_a_fifth_a_month() {
    let mut place = farm(0, 0.0);
    place.production_scale = goods(Some(0.5), None, Some(0.9));
    let mut here = world(vec![place], vec![], vec![]);
    here.recover_production_capacity();
    assert_eq!(here.settlements[0].production_scale, goods(Some(0.7), Some(1.0), Some(1.0)));
}

#[test]
fn production_is_scaled_and_stored() {
    let mut place = farm(4, 0.0);
    place.id = 0;
    place.production_scale = goods(Some(0.5), None, None);
    let mut here = world(vec![place], vec![], vec![]);
    here.produce();
    here.produce();
    assert_eq!(here.settlements[0].stockpiles, goods(Some(10.0), None, None));
    let made = Event::Produced { settlement: 0, good: Good::Food, amount: Real(5.0) };
    assert_eq!(here.events, vec![made, made]);
}

#[test]
fn hunger_cuts_all_production() {
    let mut place = farm(0, 0.0);
    place.consumption = goods(Some(40.0), None, None);
    place.stockpiles = goods(Some(10.0), None, None);
    let mut here = world(vec![place], vec![], vec![]);
    here.consume();
    assert_eq!(here.settlements[0].stockpiles.food, Some(Real(0.0)));
    assert_eq!(here.settlements[0].production_scale, goods(Some(0.25), None, None));
    assert_eq!(
        here.events,
        vec![
            Event::Consumed { settlement: 0, good: Good::Food, amount: Real(10.0) },
            Event::Shortage { settlement: 0, good: Good::Food, unmet: Real(30.0) },
        ]
    );
}

#[test]
fn only_the_toolmaker_needs_ore_for_tools() {
    let mut places = vec![farm(0, 0.0), farm(1, 0.0), farm(2, 0.0)];
    for place in &mut places {
        place.consumption = goods(None, Some(8.0), None);
        place.stockpiles = goods(None, Some(2.0), None);
    }
    let mut here = world(places, vec![], vec![]);
    here.consume();
    assert_eq!(here.settlements[1].production_scale, goods(None, None, None));
    assert_eq!(here.settlements[2].production_scale, goods(None, None, Some(0.25)));
}

#[test]
fn no_need_means_no_shortage_effects() {
    let mut here = world(vec![farm(0, 0.0)], vec![], vec![]);
    here.apply_shortage_effects(0, Good::Food, Real(0.0), Real(0.0));
    assert_eq!(here.settlements[0].production_scale, goods(None, None, None));
    here.apply_shortage_effects(0, Good::Tools, Real(4.0), Real(1.0));
    assert_eq!(here.settlements[0].production_scale, goods(None, None, None));
    here.apply_shortage_effects(0, Good::Food, Real(4.0), Real(1.0));
    assert_eq!(here.settlements[0].production_scale, goods(Some(0.25), None, None));
}

#[test]
fn debtors_eat_less() {
    let mut place = farm(0, -150.0);
    place.consumption = goods(Some(8.0), None, None);
    place.stockpiles = goods(Some(10.0), None, None);
    let mut here = world(vec![place], vec![], vec![]);
    here.consume();
    assert_eq!(here.settlements[0].stockpiles.food, Some(Real(4.0)));
    assert_eq!(
        here.events,
        vec![
            Event::Austerity { settlement: 0, multiplier: Real(0.75) },
            Event::Consumed { settlement: 0, good: Good::Food, amount: Real(6.0) },
        ]
    );
}

#[test]
fn debits_stop_at_the_credit_limit() {
    let mut here = world(vec![farm(0, 100.0)], vec![], vec![]);
    assert_eq!(here.try_debit_settlement(0, Real(150.0)), Real(150.0));
    assert_eq!(here.settlements[0].money, Real(-50.0));
    assert_eq!(here.try_debit_settlement(0, Real(500.0)), Real(250.0));
    assert_eq!(here.settlements[0].money, Real(-300.0));
    assert_eq!(here.try_debit_settlement(0, Real(1.0)), Real(0.0));
}

#[test]
fn interest_goes_to_creditors_in_proportion() {
    let mut here = world(vec![farm(0, -100.0), farm(1, 300.0), farm(2, 100.0)], vec![], vec![]);
    here.service_debt_interest();
    assert_eq!(here.settlements[0].money, Real(-102.0));
    assert_eq!(here.settlements[1].money, Real(301.5));
    assert_eq!(here.settlements[2].money, Real(100.5));
    assert_eq!(here.events, vec![Event::DebtInterest { debtor: 0, amount: Real(2.0) }]);
}

#[test]
fn interest_without_creditors_is_lost() {
    let mut here = world(vec![farm(0, -100.0), farm(1, -50.0)], vec![], vec![]);
    here.service_debt_interest();
    assert_eq!(here.settlements[0].money, Real(-102.0));
    assert_eq!(here.settlements[1].money, Real(-51.0));
    assert_eq!(total_money(&here), Real(-153.0));
}

#[test]
fn nobody_in_debt_pays_no_interest() {
    let mut here = world(vec![farm(0, 0.0), farm(1, 50.0)], vec![], vec![]);
    here.service_debt_interest();
    assert_eq!(total_money(&here), Real(50.0));
    assert!(here.events.is_empty());
}

#[test]
fn traders_keep_their_reserve() {
    let mut here = world(
        vec![farm(0, 0.0)],
        vec![],
        vec![trader(0, 0, 1000.0, 80.0), trader(1, 0, 450.0, 80.0), trader(2, 0, 10.0, 80.0)],
    );
    here.pay_trader_expenses();
    assert_eq!(here.traders[0].money, Real(876.0));
    assert_eq!(here.traders[1].money, Real(400.0));
    assert_eq!(here.traders[2].money, Real(0.0));
    assert_eq!(here.settlements[0].money, Real(184.0));
    assert_eq!(
        here.events,
        vec![
            Event::UpkeepPaid { trader: 0, home_base: 0, amount: Real(40.0) },
            Event::LocalSpending { trader: 0, settlement: 0, amount: Real(84.0) },
            Event::UpkeepPaid { trader: 1, home_base: 0, amount: Real(40.0) },
            Event::LocalSpending { trader: 1, settlement: 0, amount: Real(10.0) },
            Event::UpkeepPaid { trader: 2, home_base: 0, amount: Real(10.0) },
        ]
    );
}

#[test]
fn scarcity_drives_prices() {
    let mut place = farm(0, 0.0);
    place.consumption = goods(Some(100.0), None, None);
    place.stockpiles = goods(Some(150.0), Some(0.01), Some(60.0));
    place.prices = goods(Some(10.0), None, Some(20.0));
    let mut here = world(vec![place], vec![], vec![]);
    here.update_prices();
    let now = &here.settlements[0].prices;
    assert!(near(now.food.unwrap(), 10.0));
    assert!(near(now.ore.unwrap(), 8.0 * 0.75 + 8.0 * 10f64.powf(0.7) * 0.25));
    assert!(near(now.tools.unwrap(), 20.0 * 0.75 + 20.0 * 0.25f64.powf(0.7) * 0.25));
    assert_eq!(here.events.len(), 2);
}

#[test]
fn neighbors_are_mutual() {
    let here = world(
        vec![farm(0, 0.0), farm(1, 0.0), farm(2, 0.0)],
        vec![route(0, 0, 1), route(1, 2, 0)],
        vec![],
    );
    assert_eq!(here.route_neighbors(0), vec![1, 2]);
    assert_eq!(here.route_neighbors(1), vec![0]);
    assert_eq!(here.route_neighbors(2), vec![0]);
    assert_eq!(here.markets_heard_by(1, 1), vec![0, 1]);
    assert_eq!(here.markets_heard_by(1, 2), vec![0, 1, 2]);
}

#[test]
fn rumors_are_off_by_a_tenth_at_most() {
    let mut places = Vec::new();
    for id in 0usize..6 {
        places.push(farm(id, 0.0));
    }
    let here = world(places, vec![], vec![trader(0, 0, 0.0, 0.0), trader(1, 0, 0.0, 0.0)]);
    assert!(near(here.rumor_price(1, 2, Good::Ore), 8.0 * (1.0 + (0.72 - 0.5) * 0.2)));
    assert!(near(here.rumor_price(0, 0, Good::Food), 9.0));
    for id in 0usize..2 {
        for place in 0usize..6 {
            let told = here.rumor_price(id, place, Good::Tools).0;
            assert!(18.0 <= told && told <= 22.0);
        }
    }
}

#[test]
fn news_is_fresh_at_hand_and_rumor_one_hop_away() {
    let mut here = world(
        vec![farm(0, 0.0), farm(1, 0.0), farm(2, 0.0)],
        vec![route(0, 0, 1), route(1, 1, 2)],
        vec![trader(0, 0, 0.0, 0.0)],
    );
    here.refresh_trader_price_knowledge();
    let known = &here.traders[0].known_prices;
    assert_eq!(known.get(0, Good::Tools), Some(Real(20.0)));
    assert_eq!(known.get(1, Good::Tools), Some(here.rumor_price(0, 1, Good::Tools)));
    assert_eq!(known.get(2, Good::Tools), None);
    here.sync_trader_prices_at(0, 2);
    assert_eq!(here.traders[0].known_prices.get(2, Good::Tools), Some(Real(20.0)));
}

#[test]
fn far_prices_are_colored_by_boldness() {
    let mut here = world(
        vec![farm(0, 0.0), farm(1, 0.0)],
        vec![],
        vec![trader(0, 0, 0.0, 0.0)],
    );
    here.traders[0].risk_tolerance = Real(1.0);
    assert_eq!(here.trader_perceived_price(0, 0, Good::Ore), Real(8.0));
    assert!(near(here.trader_perceived_price(0, 1, Good::Ore), 8.0 * 1.06));
    here.traders[0].known_prices.insert(1, Good::Ore, Real(12.0));
    assert!(near(here.trader_perceived_price(0, 1, Good::Ore), 12.0 * 1.06));
}

/// A seller of food, a buyer who lacks 45 units of it, and a trader between them.
fn market() -> World<Real> {
    let mut seller = farm(0, 0.0);
    seller.stockpiles = goods(Some(100.0), Some(9.0), Some(9.0));
    let mut buyer = farm(1, 1000.0);
    buyer.stockpiles = goods(None, Some(9.0), Some(9.0));
    buyer.consumption = goods(Some(30.0), None, None);
    buyer.prices = prices(20.0, 8.0, 20.0);
    let mut here = world(vec![seller, buyer], vec![route(0, 0, 1)], vec![trader(0, 0, 0.0, 80.0)]);
    here.traders[0].known_prices.insert(1, Good::Food, Real(20.0));
    here
}

#[test]
fn the_best_trade_is_found() {
    let here = market();
    let best = here.best_trade_for_trader(0, Real(80.0), &vec![]).unwrap();
    assert_eq!((best.seller, best.buyer, best.route, best.good), (0, 1, 0, Good::Food));
    assert_eq!(best.suggested_quantity, Real(45.0));
    assert_eq!(best.buyer_price, Real(20.0));
    assert!(near(best.score, 8.0 * 45.0 * (1.0 - 0.07 * 0.5) * 1.0));
    let smaller = here.best_trade_for_trader(0, Real(7.5), &vec![]).unwrap();
    assert_eq!(smaller.suggested_quantity, Real(7.0));
    assert!(here.best_trade_for_trader(0, Real(0.5), &vec![]).is_none());
    assert!(here.best_trade_for_trader(0, Real(80.0), &vec![(0, 1, Good::Food)]).is_none());
    assert!(here.best_trade_for_trader(0, Real(80.0), &vec![(1, 0, Good::Food)]).is_some());
}

#[test]
fn thin_spreads_are_not_worth_it() {
    let mut here = market();
    here.traders[0].known_prices.insert(1, Good::Food, Real(12.2));
    assert!(here.best_trade_for_trader(0, Real(80.0), &vec![]).is_none());
    here.traders[0].known_prices.insert(1, Good::Food, Real(12.3));
    assert!(here.best_trade_for_trader(0, Real(80.0), &vec![]).is_some());
}

#[test]
fn shipments_leave_within_all_limits() {
    let mut here = market();
    here.routes[0].capacity_per_month = Real(30.0);
    here.create_trade_shipments();
    assert_eq!(here.shipments.len(), 1);
    let sent = here.shipments[0];
    assert_eq!(sent.quantity, Real(30.0));
    assert_eq!(sent.initial_quantity, Real(30.0));
    assert_eq!(sent.capacity_units, Real(30.0));
    assert_eq!(sent.buy_price, Real(10.0));
    assert_eq!(sent.expected_sell_price, Real(20.0));
    assert_eq!(sent.transport_cost_per_unit, Real(2.0));
    assert_eq!(sent.effective_monthly_incident_rate, Real(0.1 * 0.7));
    assert_eq!(sent.months_remaining, 1);
    assert_eq!(here.settlements[0].stockpiles.food, Some(Real(70.0)));
    assert_eq!(here.routes[0].used_capacity_this_month, Real(30.0));
    assert_eq!(count_shipments(&here.events), 1);
    here.reset_route_capacity();
    assert_eq!(here.routes[0].used_capacity_this_month, Real(0.0));
}

#[test]
fn buyers_without_means_are_passed_over() {
    let mut here = market();
    here.settlements[1].money = Real(-281.0);
    here.create_trade_shipments();
    assert!(here.shipments.is_empty());
    assert!(here.events.is_empty());
    here.settlements[1].money = Real(-280.0);
    here.create_trade_shipments();
    assert!(here.shipments.iter().all(|sent| sent.quantity == Real(1.0)));
    assert_eq!(here.shipments.len(), 80);
}

#[test]
fn shipments_on_the_way_keep_their_hazard() {
    let mut here = market();
    here.shipments = vec![shipment(40.0, 3)];
    here.advance_shipments(&stormy(1));
    assert_eq!(here.shipments.len(), 1);
    assert_eq!(here.shipments[0].quantity, Real(30.0));
    assert_eq!(here.shipments[0].initial_quantity, Real(40.0));
    assert_eq!(here.shipments[0].months_remaining, 2);
    assert_eq!(here.shipments[0].effective_monthly_incident_rate, Real(0.07));
    let lost = Event::CargoLost {
        trader: 0,
        good: Good::Food,
        lost: Real(10.0),
        remaining: Real(30.0),
        route: 0,
    };
    assert_eq!(here.events, vec![lost]);
}

#[test]
fn arrivals_are_settled() {
    let mut here = market();
    here.shipments = vec![shipment(10.0, 1)];
    here.advance_shipments(&calm(1));
    // 200 of revenue: 100 to the seller, 20 for transport, 30 at most to the trader.
    assert!(here.shipments.is_empty());
    assert_eq!(here.traders[0].money, Real(30.0));
    assert_eq!(here.settlements[0].money, Real(110.0));
    assert_eq!(here.settlements[1].money, Real(860.0));
    assert_eq!(here.settlements[1].stockpiles.food, Some(Real(10.0)));
    assert_eq!(here.traders[0].location, 1);
    assert_eq!(here.traders[0].home_base, 0);
    assert_eq!(here.traders[0].known_prices.get(1, Good::Food), Some(Real(20.0)));
    assert_eq!(total_money(&here), Real(1000.0));
    let arrived = Event::ShipmentArrived {
        trader: 0,
        good: Good::Food,
        quantity: Real(10.0),
        initial_quantity: Real(10.0),
        seller: 0,
        buyer: 1,
        profit: Real(30.0),
    };
    assert_eq!(here.events, vec![arrived]);
}

#[test]
fn poor_buyers_take_a_part_of_the_cargo() {
    let mut here = market();
    here.settlements[1].money = Real(-200.0);
    here.shipments = vec![shipment(10.0, 1)];
    here.advance_shipments(&calm(1));
    // Half of the 200 can be paid, so half of everything changes hands.
    assert_eq!(here.settlements[1].stockpiles.food, Some(Real(5.0)));
    assert_eq!(here.traders[0].money, Real(15.0));
    assert_eq!(here.settlements[0].money, Real(55.0));
    assert_eq!(here.settlements[1].money, Real(-270.0));
    assert_eq!(total_money(&here), Real(-200.0));
}

#[test]
fn lost_cargo_can_cost_the_trader() {
    let mut here = market();
    here.shipments = vec![shipment(10.0, 1)];
    here.advance_shipments(&vec![CargoRoll { incident: Real(0.0), loss_fraction: Real(0.9) }]);
    assert!(near(here.traders[0].money, 20.0 - 100.0 - 2.0));
    assert!(near(total_money(&here), 1000.0));
    here.shipments = vec![shipment(10.0, 1)];
    here.advance_shipments(&vec![CargoRoll { incident: Real(0.0), loss_fraction: Real(1.0) }]);
    assert!(near(total_money(&here), 1000.0));
}

#[test]
fn the_demonstration_starts_balanced() {
    let here: World<Real> = create_demo_world();
    assert_eq!(here.month, 0);
    assert_eq!(total_money(&here), Real(6500.0));
    assert_eq!(sum_trader_money(&here), Real(2000.0));
    assert_eq!(here.expected_total_money, Real(6500.0));
    assert!(here.money_conserved());
    let names: Vec<&str> = here.settlements.iter().map(|place| place.name.as_str()).collect();
    assert_eq!(names, vec!["Greenworld", "Ironmoon", "Forge Prime"]);
    assert_eq!(here.settlements[0].stockpiles, prices(500.0, 20.0, 30.0));
    assert_eq!(here.settlements[1].stockpiles, prices(120.0, 200.0, 20.0));
    assert_eq!(here.settlements[2].stockpiles, prices(120.0, 80.0, 80.0));
    assert_eq!(here.settlements[1].production, goods(None, Some(120.0), None));
    assert_eq!(here.settlements[2].consumption, goods(Some(120.0), Some(90.0), None));
    assert_eq!(here.settlements[2].prices, prices(10.0, 8.0, 20.0));
    assert_eq!(here.routes[1].travel_months, 2);
    assert_eq!(here.routes[1].monthly_incident_rate, Real(0.08));
    assert_eq!(here.traders[0].name, "Free Merchants");
    assert_eq!(here.traders[1].name, "Ironmoon Haulers");
    assert_eq!(here.traders[0].risk_tolerance, Real(0.55));
    assert_eq!(here.traders[0].known_prices.get(0, Good::Food), Some(Real(10.0)));
    assert!(here.traders[0].known_prices.get(2, Good::Food).is_some());
}

#[test]
fn a_month_without_incidents() {
    let mut here: World<Real> = create_demo_world();
    here.tick_month(calm);
    assert_eq!(here.month, 1);
    assert_eq!(here.events.len(), 27);
    assert_eq!(count_shipments(&here.events), 3);
    assert!(near(here.settlements[0].money, 2568.7322854069));
    assert!(near(here.settlements[1].money, 1624.0));
    assert!(near(here.settlements[2].money, 254.82250198287304));
    assert!(near(here.traders[0].money, 1116.3561700881817));
    assert!(near(here.traders[1].money, 936.0890425220455));
    assert_eq!(here.settlements[0].stockpiles, prices(640.0, 20.0, 20.0));
    assert!(near(here.settlements[2].prices.food.unwrap(), 20.029680840681806));
    assert!(near(here.settlements[1].prices.tools.unwrap(), 29.329095065249476));
    assert_eq!(here.shipments.len(), 1);
    assert_eq!((here.traders[0].location, here.traders[1].location), (2, 2));
    assert_eq!(
        here.events[22],
        Event::ShipmentCreated {
            trader: 0,
            good: Good::Food,
            quantity: Real(80.0),
            seller: 0,
            buyer: 2,
        }
    );
    assert!(here.money_conserved());
}

#[test]
fn a_month_of_incidents() {
    let mut here: World<Real> = create_demo_world();
    here.tick_month(stormy);
    assert_eq!(here.events.len(), 30);
    assert!(near(here.settlements[0].money, 2543.7322854069));
    assert!(near(here.settlements[2].money, 354.93380513542974));
    assert!(near(here.traders[0].money, 1056.2671275661362));
    assert_eq!(here.settlements[2].stockpiles, prices(75.0, 0.0, 150.0));
    assert!(here.money_conserved());
}

#[test]
fn three_months_without_incidents() {
    let mut here: World<Real> = create_demo_world();
    for _ in 0usize..3 {
        here.tick_month(calm);
        assert!(here.money_conserved());
    }
    assert_eq!(here.month, 3);
    assert!(near(here.settlements[0].money, 5181.245313708566));
    assert!(near(here.settlements[1].money, 850.2504120150927));
    assert!(near(here.settlements[2].money, -2613.230207338552));
    assert!(near(here.traders[0].money, 1534.0207792238016));
    assert!(near(here.traders[1].money, 1547.7137023910918));
    assert!(near(here.settlements[0].stockpiles.food.unwrap(), 787.97828));
    assert!(here.shipments.is_empty());
}

#[test]
fn a_year_of_incidents() {
    let mut here: World<Real> = create_demo_world();
    let mut record = RunRecord::new();
    for _ in 0usize..12 {
        here.tick_month(stormy);
        assert!(here.money_conserved());
        let events = record.close_month(&mut here);
        assert!(!events.is_empty());
        assert!(here.events.is_empty());
    }
    assert_eq!(record.shipments.len(), 12);
    assert_eq!(record.shipments[0], 3);
    assert_eq!(record.shipments[11], 32);
    assert!(near(record.money[0][2], 354.93380513542974));
    assert!(near(record.money[11][0], 9855.19926380175));
    assert!(near(record.money[11][1], -2874.138019415118));
    assert!(near(here.traders[1].money, 1769.7241748500182));
}

#[test]
fn stocks_and_routes_stay_within_limits() {
    let mut here: World<Real> = create_demo_world();
    for _ in 0usize..24 {
        here.tick_month(calm);
        for way in &here.routes {
            assert!(way.used_capacity_this_month.0 <= way.capacity_per_month.0);
        }
        for place in &here.settlements {
            for good in [Good::Food, Good::Ore, Good::Tools] {
                assert!(place.stockpiles.get_or(good, Real(0.0)).0 >= 0.0);
            }
        }
    }
}

#[test]
fn opening_a_month_moves_no_shipment() {
    let mut here: World<Real> = create_demo_world();
    here.open_month();
    assert_eq!(here.month, 1);
    assert_eq!(here.shipments.len(), 3);
    assert_eq!(here.traders[0].location, 0);
    assert!(here.money_conserved());
}

#[test]
fn prices_stay_positive() {
    let mut here: World<Real> = create_demo_world();
    for _ in 0usize..24 {
        here.tick_month(stormy);
        for place in &here.settlements {
            for good in [Good::Food, Good::Ore, Good::Tools] {
                assert!(place.prices.get(good).unwrap().0 > 0.0);
            }
        }
    }
}

#[test]
fn shipments_travel_or_arrive() {
    let mut here = market();
    here.shipments = vec![shipment(1.0, 3), shipment(2.0, 1), shipment(3.0, 2)];
    here.advance_shipments(&calm(3));
    let left: Vec<(Real, u32)> =
        here.shipments.iter().map(|sent| (sent.quantity, sent.months_remaining)).collect();
    assert_eq!(left, vec![(Real(1.0), 2), (Real(3.0), 1)]);
    assert_eq!(here.settlements[1].stockpiles.food, Some(Real(2.0)));
}

#[test]
fn traders_in_debt_pay_no_upkeep() {
    let mut here: World<Real> = create_demo_world();
    here.traders[0].money = Real(-50.0);
    here.pay_trader_expenses();
    assert_eq!(here.traders[0].money, Real(-50.0));
    assert_eq!(here.settlements[0].money, Real(1500.0));
    assert!(here.events.iter().all(|event| match event {
        Event::UpkeepPaid { trader, .. } | Event::LocalSpending { trader, .. } => *trader != 0,
        _ => true,
    }));
    assert_eq!(here.traders[1].money, Real(876.0));
}

#[test]
fn a_year_with_an_indebted_trader_balances() {
    let mut here: World<Real> = create_demo_world();
    here.traders[0].money = Real(-50.0);
    let before = total_money(&here).0;
    for _ in 0usize..12 {
        here.tick_month(calm);
    }
    assert!((total_money(&here).0 - before).abs() < 0.01);
}

#[test]
fn prices_stay_in_their_band() {
    let mut here: World<Real> = create_demo_world();
    let (low, high) = (0.25f64.powf(0.7), 10f64.powf(0.7));
    for _ in 0usize..24 {
        here.tick_month(calm);
        for place in &here.settlements {
            for (good, base) in [(Good::Food, 10.0), (Good::Ore, 8.0), (Good::Tools, 20.0)] {
                let price = place.prices.get(good).unwrap().0;
                assert!(base * low - 1e-9 <= price && price <= base * high + 1e-9);
            }
        }
    }
}

#[test]
fn more_stock_never_raises_a_price() {
    let mut last = f64::INFINITY;
    for stock in [0.0, 0.01, 0.02, 5.0, 10.0, 40.0, 150.0, 1000.0, 1e9] {
        let mut place = farm(0, 0.0);
        place.consumption = goods(Some(100.0), None, None);
        place.stockpiles = goods(Some(stock), None, None);
        let mut here = world(vec![place], vec![], vec![]);
        here.update_prices();
        let price = here.settlements[0].prices.food.unwrap().0;
        assert!(price <= last);
        last = price;
    }
}

#[test]
fn goods_and_room_are_accounted_for() {
    let mut here: World<Real> = create_demo_world();
    here.tick_month(calm);
    here.shipments.clear();
    here.events.clear();
    here.reset_route_capacity();
    let before = here.clone();
    here.create_trade_shipments();
    assert!(!here.shipments.is_empty());
    for (place, settlement) in here.settlements.iter().enumerate() {
        for good in [Good::Food, Good::Ore, Good::Tools] {
            let sold: f64 = here
                .shipments
                .iter()
                .filter(|sent| sent.seller == place && sent.good == good)
                .map(|sent| sent.quantity.0)
                .sum();
            let old = before.settlements[place].stockpiles.get_or(good, Real(0.0)).0;
            let now = settlement.stockpiles.get_or(good, Real(0.0)).0;
            assert!((now + sold - old).abs() < 1e-9 && now >= 0.0);
        }
    }
    for (id, way) in here.routes.iter().enumerate() {
        let carried: f64 =
            here.shipments.iter().filter(|sent| sent.route == id).map(|sent| sent.quantity.0).sum();
        assert_eq!(way.used_capacity_this_month, Real(carried));
    }
    for (id, who) in here.traders.iter().enumerate() {
        let sent: f64 =
            here.shipments.iter().filter(|sent| sent.trader == id).map(|sent| sent.quantity.0).sum();
        assert!(sent <= who.trade_capacity.0);
    }
    for sent in &here.shipments {
        assert!(sent.quantity.0 >= 1.0 && sent.quantity.0 == sent.quantity.0.floor());
        let price = here.settlements[sent.buyer].prices.get(sent.good).unwrap().0;
        let means = settlement_purchasing_power(&here.settlements[sent.buyer]).0;
        assert!(sent.quantity.0 * price <= means + 1e-9);
    }
}

#[test]
fn ruling_out_another_trade_keeps_the_choice() {
    let mut here: World<Real> = create_demo_world();
    here.tick_month(calm);
    let best = here.best_trade_for_trader(0, Real(80.0), &vec![]).unwrap();
    let triple = (best.seller, best.buyer, best.good);
    for seller in 0usize..3 {
        for buyer in 0usize..3 {
            for good in [Good::Food, Good::Ore, Good::Tools] {
                let other = here.best_trade_for_trader(0, Real(80.0), &vec![(seller, buyer, good)]);
                if (seller, buyer, good) != triple {
                    let other = other.unwrap();
                    assert_eq!((other.seller, other.buyer, other.good), triple);
                    assert_eq!(other.score, best.score);
                } else if let Some(other) = other {
                    assert_ne!((other.seller, other.buyer, other.good), triple);
                    assert!(other.score.0 <= best.score.0);
                }
            }
        }
    }
}

#[test]
fn bolder_traders_refuse_nothing_more() {
    let mut here = market();
    here.traders[0].home_base = 1;
    let mut last = 0.0;
    for boldness in [0.0, 0.25, 0.5, 0.75, 1.0] {
        here.traders[0].risk_tolerance = Real(boldness);
        let best = here.best_trade_for_trader(0, Real(80.0), &vec![]).unwrap();
        assert!(best.score.0 >= last);
        last = best.score.0;
    }
}

#[test]
fn traders_end_where_they_arrived_last() {
    let mut here = market();
    let mut back = shipment(4.0, 0);
    back.seller = 1;
    back.buyer = 0;
    here.shipments = vec![shipment(1.0, 1), back, shipment(2.0, 2)];
    here.traders.push(trader(1, 1, 7.0, 80.0));
    here.advance_shipments(&calm(3));
    assert_eq!(here.traders[0].location, 0);
    assert_eq!(here.traders[0].known_prices.get(0, Good::Tools), Some(Real(20.0)));
    assert_eq!(here.traders[0].known_prices.get(1, Good::Food), Some(Real(20.0)));
    assert_eq!(here.traders[1].money, Real(7.0));
    assert_eq!(here.traders[1].location, 1);
    let mut profits = 0.0;
    let mut arrivals = 0usize;
    for event in &here.events {
        if let Event::ShipmentArrived { quantity, buyer, good, profit, .. } = event {
            let price = here.settlements[*buyer].prices.get(*good).unwrap().0;
            assert!(profit.0 <= 0.15 * quantity.0 * price + 1e-9);
            profits += profit.0;
            arrivals += 1;
        }
    }
    assert_eq!(arrivals, 2);
    assert!(near(here.traders[0].money, profits));
}

#[test]
fn interest_is_limited_by_credit() {
    let mut here = world(vec![farm(0, -299.0), farm(1, 0.0), farm(2, 50.0)], vec![], vec![]);
    here.service_debt_interest();
    assert_eq!(here.settlements[0].money, Real(-300.0));
    assert_eq!(here.settlements[1].money, Real(0.0));
    assert_eq!(here.settlements[2].money, Real(51.0));
    assert_eq!(here.events, vec![Event::DebtInterest { debtor: 0, amount: Real(1.0) }]);
}

#[test]
fn expenses_reach_home_and_location() {
    let mut away = trader(0, 1, 1000.0, 80.0);
    away.home_base = 0;
    let mut here = world(vec![farm(0, 1.0), farm(1, 2.0)], vec![], vec![away]);
    here.pay_trader_expenses();
    assert_eq!(here.settlements[0].money, Real(41.0));
    assert_eq!(here.settlements[1].money, Real(86.0));
    assert_eq!(here.traders[0].money, Real(876.0));
}

#[test]
fn consumption_leaves_the_rest() {
    let mut hungry = farm(0, -150.0);
    hungry.consumption = goods(Some(8.0), None, None);
    hungry.stockpiles = goods(Some(3.0), Some(7.0), None);
    hungry.production_scale = goods(Some(1.0), Some(0.5), None);
    let mut fed = farm(1, 100.0);
    fed.consumption = goods(Some(4.0), None, Some(2.0));
    fed.stockpiles = goods(Some(9.0), Some(1.0), Some(2.0));
    fed.production_scale = goods(Some(0.4), None, None);
    let mut here = world(vec![hungry, fed], vec![route(0, 0, 1)], vec![trader(0, 0, 50.0, 10.0)]);
    here.shipments = vec![shipment(5.0, 2)];
    here.events = vec![Event::DebtInterest { debtor: 0, amount: Real(3.0) }];
    let before = here.clone();
    here.consume();
    // Thrift is told once, with the share that is asked for, and only of the debtor.
    let thrift: Vec<&Event<Real>> =
        here.events.iter().filter(|event| matches!(event, Event::Austerity { .. })).collect();
    assert_eq!(thrift, vec![&Event::Austerity { settlement: 0, multiplier: Real(0.75) }]);
    assert_eq!(here.events[0], before.events[0]);
    assert_eq!(here.settlements[0].stockpiles, goods(Some(0.0), Some(7.0), None));
    assert_eq!(here.settlements[0].production_scale, goods(Some(0.5), Some(0.5), None));
    assert_eq!(here.settlements[1].stockpiles, goods(Some(5.0), Some(1.0), Some(0.0)));
    assert_eq!(here.settlements[1].production_scale, before.settlements[1].production_scale);
    for (old, new) in before.settlements.iter().zip(&here.settlements) {
        assert_eq!(new.money, old.money);
        assert_eq!(new.prices, old.prices);
        assert_eq!(new.production, old.production);
        assert_eq!(new.consumption, old.consumption);
    }
    assert_eq!(here.shipments.len(), 1);
    assert_eq!(here.traders[0].money, Real(50.0));
    assert_eq!(here.routes[0].used_capacity_this_month, Real(0.0));
}

#[test]
fn a_month_keeps_names_and_homes() {
    let mut here: World<Real> = create_demo_world();
    for month in 0u32..12 {
        let before = here.clone();
        here.tick_month(stormy);
        assert_eq!(here.month, month + 1);
        assert_eq!(here.expected_total_money, before.expected_total_money);
        for (old, new) in before.settlements.iter().zip(&here.settlements) {
            assert_eq!((new.id, &new.name), (old.id, &old.name));
            assert_eq!(new.production, old.production);
            assert_eq!(new.consumption, old.consumption);
        }
        for (old, new) in before.routes.iter().zip(&here.routes) {
            assert_eq!((new.id, new.a, new.b), (old.id, old.a, old.b));
            assert_eq!(new.travel_months, old.travel_months);
            assert_eq!(new.capacity_per_month, old.capacity_per_month);
            assert_eq!(new.monthly_incident_rate, old.monthly_incident_rate);
        }
        for (old, new) in before.traders.iter().zip(&here.traders) {
            assert_eq!((new.id, &new.name, new.home_base), (old.id, &old.name, old.home_base));
            assert_eq!(new.trade_capacity, old.trade_capacity);
            assert_eq!(new.risk_tolerance, old.risk_tolerance);
        }
        assert_eq!(here.events[..before.events.len()], before.events[..]);
        assert!(here.shipments.iter().all(|shipment| shipment.months_remaining >= 1));
    }
}

#[test]
fn prices_need_no_valid_shipments() {
    // A shipment of a trader, between places and on a route that do not exist.
    let mut stray = shipment(5.0, 1);
    stray.trader = 9;
    stray.seller = 9;
    stray.buyer = 9;
    stray.route = 9;
    let mut here = market();
    here.shipments = vec![stray];
    here.update_prices();
    assert!(here.best_trade_for_trader(0, Real(10.0), &vec![]).is_some());
    here.create_trade_shipments();
    assert!(here.shipments.len() > 1);
}

#[test]
fn a_run_of_no_months_has_no_average() {
    let here: World<Real> = create_demo_world();
    let summary = long_run_summary(0, &vec![], &vec![], &here);
    assert_eq!(summary.lines[0], "Avg shipments/month: NaN");
}
