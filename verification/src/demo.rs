//! The world that the demonstration starts from.

use crate::goods::{base_price, base_prices, Good, GoodMap};
use crate::number::{hundredths, linear_within, make_hundredths, make_whole, whole, Number};
use crate::route::{Route, RouteId};
use crate::settlement::{Settlement, SettlementId};
use crate::trader::{PriceMemory, Trader, TraderId, TraderModel};
use crate::world::{
    lemma_same_names_wf, settlement_money, total_money, trader_money, World, WorldModel,
};
use vstd::prelude::*;

verus! {

/// Whole amounts per good.
pub open spec fn amounts<N: Number>(
    food: Option<i64>,
    ore: Option<i64>,
    tools: Option<i64>,
) -> GoodMap<N> {
    GoodMap { food: amount(food), ore: amount(ore), tools: amount(tools) }
}

pub open spec fn amount<N: Number>(n: Option<i64>) -> Option<N> {
    match n {
        Some(n) => Some(whole(n)),
        None => None,
    }
}

fn make_amount<N: Number>(n: Option<i64>) -> (r: Option<N>)
    ensures
        r == amount::<N>(n),
{
    match n {
        Some(n) => Some(make_whole(n)),
        None => None,
    }
}

fn make_amounts<N: Number>(food: Option<i64>, ore: Option<i64>, tools: Option<i64>) -> (r: GoodMap<
    N,
>)
    ensures
        r == amounts::<N>(food, ore, tools),
{
    GoodMap { food: make_amount(food), ore: make_amount(ore), tools: make_amount(tools) }
}

/// Every good at its base price.
pub open spec fn opening_prices<N: Number>() -> GoodMap<N> {
    GoodMap {
        food: Some(base_price(Good::Food)),
        ore: Some(base_price(Good::Ore)),
        tools: Some(base_price(Good::Tools)),
    }
}

/// A settlement as the demonstration starts: 1500 in the treasury, base prices,
/// and no record of past shortages.
pub open spec fn opens_as<N: Number>(
    settlement: Settlement<N>,
    id: SettlementId,
    name: Seq<char>,
    stockpiles: GoodMap<N>,
    production: GoodMap<N>,
    consumption: GoodMap<N>,
) -> bool {
    &&& settlement.id == id
    &&& settlement.name@ == name
    &&& settlement.stockpiles == stockpiles
    &&& settlement.prices == opening_prices::<N>()
    &&& settlement.production == production
    &&& settlement.consumption == consumption
    &&& settlement.money == whole::<N>(1500)
    &&& settlement.production_scale == amounts::<N>(None, None, None)
}

fn open_settlement<N: Number>(
    id: SettlementId,
    name: &str,
    stockpiles: GoodMap<N>,
    production: GoodMap<N>,
    consumption: GoodMap<N>,
) -> (r: Settlement<N>)
    ensures
        opens_as(r, id, name@, stockpiles, production, consumption),
{
    let prices = base_prices::<N>();
    assert(prices.at(Good::Food) == Some(base_price::<N>(Good::Food)));
    assert(prices.at(Good::Ore) == Some(base_price::<N>(Good::Ore)));
    assert(prices.at(Good::Tools) == Some(base_price::<N>(Good::Tools)));
    Settlement {
        id,
        name: name.to_owned(),
        stockpiles,
        prices,
        production,
        consumption,
        money: make_whole(1500),
        production_scale: make_amounts(None, None, None),
    }
}

/// A route as the demonstration starts: room for 100 units, at 2 a unit.
pub open spec fn opening_route<N: Number>(
    id: RouteId,
    a: SettlementId,
    b: SettlementId,
    travel_months: u32,
    hazard_percent: i64,
) -> Route<N> {
    Route {
        id,
        a,
        b,
        travel_months,
        capacity_per_month: whole(100),
        used_capacity_this_month: whole(0),
        cost_per_unit: whole(2),
        monthly_incident_rate: hundredths(hazard_percent),
    }
}

fn open_route<N: Number>(
    id: RouteId,
    a: SettlementId,
    b: SettlementId,
    travel_months: u32,
    hazard_percent: i64,
) -> (r: Route<N>)
    ensures
        r == opening_route::<N>(id, a, b, travel_months, hazard_percent),
{
    Route {
        id,
        a,
        b,
        travel_months,
        capacity_per_month: make_whole(100),
        used_capacity_this_month: make_whole(0),
        cost_per_unit: make_whole(2),
        monthly_incident_rate: make_hundredths(hazard_percent),
    }
}

/// A trader as the demonstration starts: at home, with 1000 in hand, a capacity of
/// 80 and no price in mind.
pub open spec fn trades_as<N: Number>(
    trader: TraderModel<N>,
    id: TraderId,
    name: Seq<char>,
    home: SettlementId,
    boldness_percent: i64,
) -> bool {
    &&& trader.id == id
    &&& trader.name@ == name
    &&& trader.location == home
    &&& trader.home_base == home
    &&& trader.money == whole::<N>(1000)
    &&& trader.trade_capacity == whole::<N>(80)
    &&& trader.risk_tolerance == hundredths::<N>(boldness_percent)
    &&& trader.known_prices == Map::<(SettlementId, Good), N>::empty()
}

fn open_trader<N: Number>(
    id: TraderId,
    name: &str,
    home: SettlementId,
    boldness_percent: i64,
) -> (r: Trader<N>)
    ensures
        trades_as(r@, id, name@, home, boldness_percent),
{
    Trader {
        id,
        name: name.to_owned(),
        location: home,
        home_base: home,
        money: make_whole(1000),
        trade_capacity: make_whole(80),
        risk_tolerance: make_hundredths(boldness_percent),
        known_prices: PriceMemory::new(),
    }
}

/// The demonstration before any news has spread: a farm world, a mining world and
/// a factory world, a route between each two of them, and two traders.
pub open spec fn is_demo_start<N: Number>(model: WorldModel<N>) -> bool {
    &&& model.month == 0
    &&& model.expected_total_money == whole::<N>(0)
    &&& model.settlements.len() == 3
    &&& opens_as(
        model.settlements[0],
        0,
        "Greenworld"@,
        amounts(Some(500), Some(20), Some(30)),
        amounts(Some(320), None, None),
        amounts(Some(80), None, Some(10)),
    )
    &&& opens_as(
        model.settlements[1],
        1,
        "Ironmoon"@,
        amounts(Some(120), Some(200), Some(20)),
        amounts(None, Some(120), None),
        amounts(Some(100), None, Some(15)),
    )
    &&& opens_as(
        model.settlements[2],
        2,
        "Forge Prime"@,
        amounts(Some(120), Some(80), Some(80)),
        amounts(None, None, Some(70)),
        amounts(Some(120), Some(90), None),
    )
    &&& model.routes == seq![
        opening_route::<N>(0, 0, 1, 1, 5),
        opening_route::<N>(1, 1, 2, 2, 8),
        opening_route::<N>(2, 2, 0, 1, 5),
    ]
    &&& model.traders.len() == 2
    &&& trades_as(model.traders[0], 0, "Free Merchants"@, 0, 55)
    &&& trades_as(model.traders[1], 1, "Ironmoon Haulers"@, 1, 75)
    &&& model.shipments.len() == 0
    &&& model.events.len() == 0
}

/// The demonstration once the traders have heard the news: the money that there is
/// is the money that there should be.
pub open spec fn demo_from<N: Number>(start: WorldModel<N>) -> WorldModel<N> {
    WorldModel {
        expected_total_money: start.after_news().total_money(),
        ..start.after_news()
    }
}

proof fn lemma_demo_start_wf<N: Number>(model: WorldModel<N>)
    requires
        is_demo_start(model),
    ensures
        model.wf(),
        model.priced(),
        model.events_wf(),
{
    assert forall|i: int| 0 <= i < model.settlements.len() implies (
    #[trigger] model.settlements[i]).id < model.settlements.len()
        && model.settlements[i].prices.total() by {
        assert(i == 0 || i == 1 || i == 2);
    }
    assert forall|i: int| 0 <= i < model.routes.len() implies model.route_wf(
        #[trigger] model.routes[i],
    ) by {
        assert(i == 0 || i == 1 || i == 2);
    }
    assert forall|i: int| 0 <= i < model.traders.len() implies model.trader_wf(
        #[trigger] model.traders[i],
    ) by {
        assert(i == 0 || i == 1);
    }
}

/// Law: the demonstration is a valid world in which every price is quoted and
/// every event can be reported.
pub proof fn law_demo_is_valid<N: Number>(start: WorldModel<N>)
    requires
        is_demo_start(start),
    ensures
        demo_from(start).wf(),
        demo_from(start).priced(),
        demo_from(start).events_wf(),
{
    lemma_demo_start_wf(start);
    let after = demo_from(start);
    assert(start.same_names(after));
    lemma_same_names_wf(start, after);
    assert forall|i: int| 0 <= i < after.settlements.len() implies (
    #[trigger] after.settlements[i]).prices.total() by {
        assert(start.settlements[i].prices.total());
    }
}

/// Law: the demonstration starts with 6500, all of it accounted for.
pub proof fn law_demo_money<N: Number>(
    val: spec_fn(N) -> real,
    limit: real,
    start: WorldModel<N>,
)
    requires
        linear_within(val, limit),
        limit >= 6500real,
        is_demo_start(start),
    ensures
        val(demo_from(start).total_money()) == 6500real,
        demo_from(start).balanced(),
{
    let after = demo_from(start);
    assert(val(whole::<N>(0)) == 0real && val(whole::<N>(1000)) == 1000real && val(
        whole::<N>(1500),
    ) == 1500real);
    assert(val(hundredths::<N>(1)) * 100real == 1real);
    reveal_with_fuel(settlement_money, 4);
    reveal_with_fuel(trader_money, 3);
    assert(after.traders[0].money == start.traders[0].money);
    assert(after.traders[1].money == start.traders[1].money);
    assert(val(settlement_money(after.settlements, 3)) == 4500real);
    assert(val(trader_money(after.traders, 2)) == 2000real);
    assert(after.total_money() == after.expected_total_money);
}

/// The amounts of food, ore and tools on a list, in reals.
pub open spec fn lists<N: Number>(
    val: spec_fn(N) -> real,
    list: GoodMap<N>,
    food: Option<int>,
    ore: Option<int>,
    tools: Option<int>,
) -> bool {
    let same = |got: Option<N>, n: Option<int>|
        match (got, n) {
            (Some(x), Some(n)) => val(x) == n as real,
            (None, None) => true,
            _ => false,
        };
    same(list.at(Good::Food), food) && same(list.at(Good::Ore), ore) && same(
        list.at(Good::Tools),
        tools,
    )
}

/// A route of the demonstration, in reals.
pub open spec fn runs<N: Number>(
    val: spec_fn(N) -> real,
    route: Route<N>,
    a: SettlementId,
    b: SettlementId,
    months: u32,
    hazard: real,
) -> bool {
    &&& route.a == a && route.b == b && route.travel_months == months
    &&& val(route.capacity_per_month) == 100real && val(route.used_capacity_this_month) == 0real
    &&& val(route.cost_per_unit) == 2real && val(route.monthly_incident_rate) == hazard
}

/// Law: what the demonstration starts from, in numbers: three worlds with 1500 each, that
/// grow, dig and forge, and need what the others have; three routes; and two traders with
/// 1000 and room for 80 units each, one of them bolder than the other.
pub proof fn law_demo_in_numbers<N: Number>(
    val: spec_fn(N) -> real,
    limit: real,
    start: WorldModel<N>,
)
    requires
        linear_within(val, limit),
        limit >= 6500real,
        is_demo_start(start),
    ensures
        ({
            let demo = demo_from(start);
            let (farm, mine, forge) = (
                demo.settlements[0],
                demo.settlements[1],
                demo.settlements[2],
            );
            let (first, second) = (demo.traders[0], demo.traders[1]);
            &&& demo.settlements.len() == 3 && demo.routes.len() == 3 && demo.traders.len() == 2
            &&& demo.shipments.len() == 0 && demo.events.len() == 0 && demo.month == 0
            &&& farm.name@ == "Greenworld"@ && mine.name@ == "Ironmoon"@ && forge.name@
                == "Forge Prime"@
            &&& val(farm.money) == 1500real && val(mine.money) == 1500real && val(forge.money)
                == 1500real
            &&& lists(val, farm.stockpiles, Some(500), Some(20), Some(30))
            &&& lists(val, farm.production, Some(320), None, None)
            &&& lists(val, farm.consumption, Some(80), None, Some(10))
            &&& lists(val, mine.stockpiles, Some(120), Some(200), Some(20))
            &&& lists(val, mine.production, None, Some(120), None)
            &&& lists(val, mine.consumption, Some(100), None, Some(15))
            &&& lists(val, forge.stockpiles, Some(120), Some(80), Some(80))
            &&& lists(val, forge.production, None, None, Some(70))
            &&& lists(val, forge.consumption, Some(120), Some(90), None)
            &&& forall|i: int|
                0 <= i < 3 ==> {
                    &&& lists(val, (#[trigger] demo.settlements[i]).prices, Some(10), Some(8), Some(20))
                    &&& lists(val, demo.settlements[i].production_scale, None, None, None)
                    &&& demo.settlements[i].id == i
                    &&& demo.routes[i].id == i
                }
            &&& runs(val, demo.routes[0], 0, 1, 1, 5real / 100real)
            &&& runs(val, demo.routes[1], 1, 2, 2, 8real / 100real)
            &&& runs(val, demo.routes[2], 2, 0, 1, 5real / 100real)
            &&& first.name@ == "Free Merchants"@ && second.name@ == "Ironmoon Haulers"@
            &&& first.location == 0 && first.home_base == 0
            &&& second.location == 1 && second.home_base == 1
            &&& val(first.money) == 1000real && val(second.money) == 1000real
            &&& val(first.trade_capacity) == 80real && val(second.trade_capacity) == 80real
            &&& val(first.risk_tolerance) == 55real / 100real && val(second.risk_tolerance)
                == 75real / 100real
            &&& val(demo.expected_total_money) == 6500real
        }),
{
    law_demo_money(val, limit, start);
    let demo = demo_from(start);
    assert(val(whole::<N>(0)) == 0real && val(whole::<N>(1500)) == 1500real && val(
        whole::<N>(1000),
    ) == 1000real && val(whole::<N>(80)) == 80real && val(whole::<N>(100)) == 100real && val(
        whole::<N>(2),
    ) == 2real);
    assert(val(whole::<N>(10)) == 10real && val(whole::<N>(8)) == 8real && val(whole::<N>(20))
        == 20real);
    assert(val(whole::<N>(500)) == 500real && val(whole::<N>(30)) == 30real && val(
        whole::<N>(320),
    ) == 320real && val(whole::<N>(120)) == 120real && val(whole::<N>(200)) == 200real && val(
        whole::<N>(15),
    ) == 15real && val(whole::<N>(70)) == 70real && val(whole::<N>(90)) == 90real);
    assert(val(hundredths::<N>(5)) * 100real == 5real && val(hundredths::<N>(8)) * 100real == 8real
        && val(hundredths::<N>(55)) * 100real == 55real && val(hundredths::<N>(75)) * 100real
        == 75real);
    assert forall|i: int| 0 <= i < 3 implies {
        &&& lists(val, (#[trigger] demo.settlements[i]).prices, Some(10), Some(8), Some(20))
        &&& lists(val, demo.settlements[i].production_scale, None, None, None)
        &&& demo.settlements[i].id == i
        &&& demo.routes[i].id == i
    } by {
        assert(i == 0 || i == 1 || i == 2);
    }
}

pub fn create_demo_world<N: Number>() -> (r: World<N>)
    ensures
        exists|start: WorldModel<N>| #[trigger] is_demo_start(start) && r@ == demo_from(start),
        r@.wf(),
        r@.priced(),
        r@.events_wf(),
        r@.month == 0,
        r@.settlements.len() == 3,
{
    let farm_world = open_settlement(
        0,
        "Greenworld",
        make_amounts(Some(500), Some(20), Some(30)),
        make_amounts(Some(320), None, None),
        make_amounts(Some(80), None, Some(10)),
    );
    let mining_world = open_settlement(
        1,
        "Ironmoon",
        make_amounts(Some(120), Some(200), Some(20)),
        make_amounts(None, Some(120), None),
        make_amounts(Some(100), None, Some(15)),
    );
    let factory_world = open_settlement(
        2,
        "Forge Prime",
        make_amounts(Some(120), Some(80), Some(80)),
        make_amounts(None, None, Some(70)),
        make_amounts(Some(120), Some(90), None),
    );
    let mut world = World {
        month: 0,
        expected_total_money: make_whole(0),
        settlements: vec![farm_world, mining_world, factory_world],
        routes: vec![
            open_route(0, 0, 1, 1, 5),
            open_route(1, 1, 2, 2, 8),
            open_route(2, 2, 0, 1, 5),
        ],
        traders: vec![
            open_trader(0, "Free Merchants", 0, 55),
            open_trader(1, "Ironmoon Haulers", 1, 75),
        ],
        shipments: Vec::new(),
        events: Vec::new(),
    };
    let ghost start = world@;
    proof {
        assert(start.routes =~= seq![
            opening_route::<N>(0, 0, 1, 1, 5),
            opening_route::<N>(1, 1, 2, 2, 8),
            opening_route::<N>(2, 2, 0, 1, 5),
        ]);
        assert(is_demo_start(start));
        lemma_demo_start_wf(start);
        law_demo_is_valid(start);
    }
    world.refresh_trader_price_knowledge();
    world.expected_total_money = total_money(&world);
    assert(world@ =~= demo_from(start));
    world
}

} // verus!
