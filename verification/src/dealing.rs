//! What trades look like to traders, in reals: what a market lacks, what a trip risks,
//! what a trade is worth, and how much of it goes.

use crate::event::Event;
use crate::figures::{just_below, least, most};
use crate::goods::{good_of, index_of, Good};
use crate::number::{
    as_real, fits, hundredths, is_whole, keeps_order, lemma_product, lemma_products_in_order,
    lemma_quotient, lemma_whole_power, linear_within, ordered, real_power, repeats, rounds_down, whole,
    Number,
};
use crate::route::Route;
use crate::settlement::{Settlement, SettlementId};
use crate::trade::{
    lack, least_spread, lemma_best_is_an_offer, risk_discount, urgency, Deal, TradeOpportunity,
};
use crate::trader::TraderId;
use crate::trading::{lemma_best_is_best, lemma_picked_is_first_best};
use crate::world::WorldModel;
use vstd::prelude::*;

verus! {

/// What is left of the appeal of a trip of so many months, with this hazard in each of
/// them, to someone with this boldness.
pub open spec fn trip_discount(hazard: real, months: nat, boldness: real) -> real {
    1real - (1real - real_power(1real - hazard, months)) * (1real - boldness)
}

/// Law: the risk of a trip compounds over its months.  Rounding takes up to a unit for
/// each month, or adds up to one.
pub proof fn law_risk_compounds<N: Number>(
    val: spec_fn(N) -> real,
    limit: real,
    unit: real,
    hazard: N,
    months: u32,
    boldness: N,
)
    requires
        linear_within(val, limit),
        rounds_down(val, limit, unit),
        repeats(val, limit, unit),
        limit >= 1real,
        0real <= val(hazard) <= 1real,
        months <= i32::MAX,
        0real <= val(boldness) <= 1real,
    ensures
        ({
            let ideal = trip_discount(val(hazard), months as nat, val(boldness));
            let discount = val(risk_discount(hazard, months, boldness));
            &&& ideal - months as real * unit <= discount <= ideal + unit
            &&& 0real <= discount <= 1real
            &&& 0real <= ideal <= 1real
        }),
{
    let one = whole::<N>(1);
    assert(val(one) == 1real);
    assert(0real <= unit) by {
        reveal(rounds_down);
    }
    let base = one.difference(hazard);
    assert(val(base) == 1real - val(hazard));
    lemma_whole_power(val, limit, unit, base, months as i32);
    let safe = base.whole_power(months as i32);
    let risk = one.difference(safe);
    assert(val(risk) == 1real - val(safe));
    let shy = one.difference(boldness);
    assert(val(shy) == 1real - val(boldness));
    lemma_products_in_order(val(risk), 1real, val(shy), 1real);
    lemma_product(val, limit, unit, risk, shy);
    let (r, s) = (val(risk), val(shy));
    let q = 1real - real_power(1real - val(hazard), months as nat);
    let lost = months as real * unit;
    lemma_products_in_order(q, 1real, s, 1real);
    assert(0real <= lost) by (nonlinear_arith)
        requires
            lost == months as real * unit,
            0real <= unit,
            0real <= months as real,
    ;
    assert(q * s <= r * s <= q * s + lost) by (nonlinear_arith)
        requires
            q <= r <= q + lost,
            0real <= s <= 1real,
            0real <= lost,
    ;
}

/// Law: of two trips with the same hazard in each month, the longer one is marked down
/// more, by anyone who is not bold enough to ignore it.
pub proof fn law_longer_trips_are_riskier(hazard: real, months: nat, more: nat, boldness: real)
    requires
        0real < hazard < 1real,
        boldness < 1real,
        more > 0,
    ensures
        trip_discount(hazard, months + more, boldness) < trip_discount(hazard, months, boldness),
{
    let x = 1real - hazard;
    lemma_power_shrinks(x, months, more);
    let (a, b, s) = (real_power(x, months), real_power(x, months + more), 1real - boldness);
    assert((1real - a) * s < (1real - b) * s) by (nonlinear_arith)
        requires
            b < a,
            0real < s,
    ;
}

proof fn lemma_power_shrinks(x: real, n: nat, more: nat)
    requires
        0real < x < 1real,
        more > 0,
    ensures
        0real < real_power(x, n + more) < real_power(x, n),
    decreases n + more,
{
    lemma_power_positive(x, n);
    let k = (n + more - 1) as nat;
    let p = real_power(x, k);
    lemma_power_positive(x, k);
    assert(real_power(x, n + more) == p * x);
    assert(0real < p * x < p) by (nonlinear_arith)
        requires
            0real < p,
            0real < x < 1real,
    ;
    if more > 1 {
        lemma_power_shrinks(x, n, (more - 1) as nat);
    }
}

proof fn lemma_power_positive(x: real, n: nat)
    requires
        0real < x,
    ensures
        0real < real_power(x, n),
    decreases n,
{
    if n > 0 {
        lemma_power_positive(x, (n - 1) as nat);
        let p = real_power(x, (n - 1) as nat);
        assert(0real < p * x) by (nonlinear_arith)
            requires
                0real < p,
                0real < x,
        ;
    }
}

/// What a settlement consumes of a good in a month, or one where it names nothing.
pub open spec fn need_of<N: Number>(
    val: spec_fn(N) -> real,
    settlement: Settlement<N>,
    good: Good,
) -> real {
    match settlement.consumption.at(good) {
        Some(need) => val(need),
        None => 1real,
    }
}

/// Law: a settlement lacks what it has less than a month and a half of its consumption, and
/// the lack is as pressing as the part of a month that it makes up, up to one.
pub proof fn law_urgency_in_numbers<N: Number>(
    val: spec_fn(N) -> real,
    limit: real,
    unit: real,
    settlement: Settlement<N>,
    good: Good,
)
    requires
        linear_within(val, limit),
        rounds_down(val, limit, unit),
        limit >= 2real,
        unit <= 1real,
        0real <= need_of(val, settlement, good) * 3real / 2real <= limit,
        0real <= val(settlement.stockpiles.at_or(good, whole(0))) <= limit - 1real,
    ensures
        ({
            let need = need_of(val, settlement, good);
            let stock = val(settlement.stockpiles.at_or(good, whole(0)));
            let missing = most(need * 3real / 2real - stock, 0real);
            &&& just_below(missing, val(lack(settlement, good)), unit)
            &&& 0real <= val(lack(settlement, good))
            &&& 0real < need ==> just_below(
                least(val(lack(settlement, good)) / need, 1real),
                val(urgency(settlement, good)),
                unit,
            )
            &&& 0real <= val(urgency(settlement, good)) <= 1real
        }),
{
    let need = settlement.consumption.at_or(good, whole(1));
    let stock = settlement.stockpiles.at_or(good, whole(0));
    let half_more = hundredths::<N>(150);
    assert(val(half_more) * 100real == 150real);
    assert(val(whole::<N>(0)) == 0real && val(whole::<N>(1)) == 1real && val(whole::<N>(2))
        == 2real);
    let n = val(need);
    assert(n == need_of(val, settlement, good));
    assert(n * val(half_more) == n * 3real / 2real) by (nonlinear_arith)
        requires
            val(half_more) * 100real == 150real,
    ;
    lemma_product(val, limit, unit, need, half_more);
    let l = val(lack(settlement, good));
    if 0real < n {
        let part = l / n;
        assert(0real <= part) by (nonlinear_arith)
            requires
                part == l / n,
                0real <= l,
                0real < n,
        ;
        assert(part <= 3real / 2real) by (nonlinear_arith)
            requires
                part == l / n,
                l <= n * 3real / 2real,
                0real < n,
        ;
        lemma_quotient(val, limit, unit, lack(settlement, good), need);
    }
}

/// The spread below which a trader does not move.
pub open spec fn spread_floor(boldness: real, pressure: real) -> real {
    (13real / 10real - boldness - pressure * 3real / 10real) / 2real
}

proof fn lemma_spread_floor<N: Number>(
    val: spec_fn(N) -> real,
    limit: real,
    unit: real,
    boldness: N,
    pressure: N,
)
    requires
        linear_within(val, limit),
        rounds_down(val, limit, unit),
        limit >= 2real,
        unit <= 1real / 10real,
        0real <= val(boldness) <= 1real,
        0real <= val(pressure) <= 1real,
    ensures
        ({
            let floor = spread_floor(val(boldness), val(pressure));
            floor - unit <= val(least_spread(boldness, pressure)) <= floor + unit
        }),
{
    let third = hundredths::<N>(30);
    let start = hundredths::<N>(130);
    let half = hundredths::<N>(50);
    assert(val(third) * 100real == 30real && val(start) * 100real == 130real && val(half) * 100real
        == 50real);
    let p = val(pressure);
    assert(val(third) * p == p * 3real / 10real) by (nonlinear_arith)
        requires
            val(third) * 100real == 30real,
    ;
    lemma_product(val, limit, unit, third, pressure);
    let x = start.difference(boldness).difference(third.product(pressure));
    assert(val(start.difference(boldness)) == 13real / 10real - val(boldness));
    let y = val(x);
    assert(val(half) * y == y / 2real) by (nonlinear_arith)
        requires
            val(half) * 100real == 50real,
    ;
    lemma_product(val, limit, unit, half, x);
}

/// How attractive a trade is: what it gains, marked down for the risk of the trip, and for
/// how far the buyer can do without.
pub open spec fn appeal(
    spread: real,
    quantity: real,
    hazard: real,
    months: nat,
    boldness: real,
    pressure: real,
) -> real {
    spread * quantity * trip_discount(hazard, months, boldness) * (2real / 5real + pressure * 3real
        / 5real)
}

/// By how much rounding may take the score of a trade away from its appeal.
pub open spec fn score_slack(gain: real, months: nat, unit: real) -> real {
    gain * (months as real + 2real) * unit + 3real * unit
}

/// What a trader expects to gain per unit, in reals.
pub open spec fn spread_of<N: Number>(
    val: spec_fn(N) -> real,
    model: WorldModel<N>,
    trader: TraderId,
    route: Route<N>,
    seller: SettlementId,
    buyer: SettlementId,
    good: Good,
) -> real {
    val(model.perceived_price(trader, buyer, good)) - val(
        model.perceived_price(trader, seller, good),
    ) - val(route.cost_per_unit)
}

/// What a trade is judged by lies within the range.
pub open spec fn prospect_fits<N: Number>(
    val: spec_fn(N) -> real,
    limit: real,
    model: WorldModel<N>,
    trader: TraderId,
    max_capacity: N,
    route: Route<N>,
    seller: SettlementId,
    buyer: SettlementId,
    good: Good,
) -> bool {
    let judge = model.traders[trader as int];
    let ahead = val(model.perceived_price(trader, buyer, good)) - val(
        model.perceived_price(trader, seller, good),
    );
    let spread = spread_of(val, model, trader, route, seller, buyer, good);
    let place = model.settlements[buyer as int];
    &&& 0real <= val(judge.risk_tolerance) <= 1real
    &&& 0real <= val(route.hazard_from(judge.location)) <= 1real
    &&& route.travel_months <= i32::MAX
    &&& 0real <= val(max_capacity) <= limit
    &&& 0real <= val(model.stock(seller, good)) <= limit
    &&& 0real <= val(lack(place, good)) <= limit
    &&& fits(limit, ahead)
    &&& fits(limit, spread)
    &&& fits(limit, spread * val(max_capacity))
}

/// The quantity of a trade: whole units that the seller has, the buyer lacks and the trader
/// can carry.
pub open spec fn is_quantity<N: Number>(
    val: spec_fn(N) -> real,
    model: WorldModel<N>,
    max_capacity: N,
    seller: SettlementId,
    buyer: SettlementId,
    good: Good,
    quantity: real,
) -> bool {
    let all = least(
        least(
            val(model.stock(seller, good)),
            val(lack(model.settlements[buyer as int], good)),
        ),
        val(max_capacity),
    );
    &&& is_whole(quantity)
    &&& quantity <= all
    &&& all < quantity + 1real
}

proof fn lemma_whole_is_one(x: real, a: real, b: real)
    requires
        is_whole(a),
        is_whole(b),
        a <= x < a + 1real,
        b <= x < b + 1real,
    ensures
        a == b,
{
    let i = choose|i: int| #[trigger] as_real(i) == a;
    let j = choose|j: int| #[trigger] as_real(j) == b;
    assert(i as real > j as real - 1real && (j as real) > i as real - 1real);
    assert(i == j);
}

/// Law: a trade is scored by its spread, its quantity, the risk of the whole trip and the
/// buyer's urgency.
pub proof fn law_score_in_numbers<N: Number>(
    val: spec_fn(N) -> real,
    limit: real,
    unit: real,
    model: WorldModel<N>,
    trader: TraderId,
    max_capacity: N,
    route: Route<N>,
    seller: SettlementId,
    buyer: SettlementId,
    good: Good,
)
    requires
        linear_within(val, limit),
        rounds_down(val, limit, unit),
        repeats(val, limit, unit),
        limit >= 2real,
        prospect_fits(
            val,
            limit,
            model,
            trader,
            max_capacity,
            route,
            seller,
            buyer,
            good,
        ),
        0real <= val(urgency(model.settlements[buyer as int], good)) <= 1real,
        spread_of(val, model, trader, route, seller, buyer, good) >= 0real,
    ensures
        ({
            let judge = model.traders[trader as int];
            let spread = spread_of(val, model, trader, route, seller, buyer, good);
            let quantity = val(model.suggested(seller, buyer, good, max_capacity));
            let months = route.travel_months as nat;
            let ideal = appeal(
                spread,
                quantity,
                val(route.hazard_from(judge.location)),
                months,
                val(judge.risk_tolerance),
                val(urgency(model.settlements[buyer as int], good)),
            );
            let score = val(model.score(trader, max_capacity, route, seller, buyer, good));
            &&& val(model.spread(trader, route, seller, buyer, good)) == spread
            &&& is_quantity(val, model, max_capacity, seller, buyer, good, quantity)
            &&& 0real <= quantity
            &&& ideal - score_slack(spread * quantity, months, unit) <= score
            &&& score <= ideal + score_slack(spread * quantity, months, unit)
        }),
{
    let judge = model.traders[trader as int];
    let place = model.settlements[buyer as int];
    let spread = model.spread(trader, route, seller, buyer, good);
    let quantity = model.suggested(seller, buyer, good, max_capacity);
    let hazard = route.hazard_from(judge.location);
    let discount = risk_discount(hazard, route.travel_months, judge.risk_tolerance);
    let pressure = urgency(place, good);
    assert(0real <= unit) by {
        reveal(rounds_down);
    }
    let (s, q) = (val(spread), val(quantity));
    assert(s == spread_of(val, model, trader, route, seller, buyer, good));
    let all = least(least(val(model.stock(seller, good)), val(lack(place, good))), val(max_capacity));
    assert(is_quantity(val, model, max_capacity, seller, buyer, good, q));
    assert(0real <= q) by {
        let k = choose|k: int| #[trigger] as_real(k) == q;
        assert(k as real > -1real);
        assert(k >= 0);
    }
    law_risk_compounds(val, limit, unit, hazard, route.travel_months, judge.risk_tolerance);
    let m = route.travel_months as real;
    let ideal = trip_discount(val(hazard), route.travel_months as nat, val(judge.risk_tolerance));
    let cap = val(max_capacity);
    assert(0real <= s * q <= s * cap) by (nonlinear_arith)
        requires
            0real <= s,
            0real <= q <= cap,
    ;
    lemma_product(val, limit, unit, spread, quantity);
    let gain = spread.product(quantity);
    let (g, d) = (val(gain), val(discount));
    lemma_products_in_order(g, g, d, 1real);
    assert(0real <= g * d <= g) by (nonlinear_arith)
        requires
            0real <= g,
            0real <= d <= 1real,
    ;
    lemma_product(val, limit, unit, gain, discount);
    let marked = gain.product(discount);
    let sixty = hundredths::<N>(60);
    let forty = hundredths::<N>(40);
    assert(val(sixty) * 100real == 60real && val(forty) * 100real == 40real);
    let u = val(pressure);
    assert(val(sixty) * u == u * 3real / 5real) by (nonlinear_arith)
        requires
            val(sixty) * 100real == 60real,
    ;
    lemma_product(val, limit, unit, sixty, pressure);
    let weight = forty.sum(sixty.product(pressure));
    let (k, w, full) = (val(marked), val(weight), 2real / 5real + u * 3real / 5real);
    assert(full - unit <= w <= full <= 1real && 0real <= w);
    assert(0real <= k * w <= k) by (nonlinear_arith)
        requires
            0real <= k,
            0real <= w <= 1real,
    ;
    lemma_product(val, limit, unit, marked, weight);
    let score = val(marked.product(weight));
    lemma_score_bounds(s * q, g, d, ideal, k, w, full, score, m, unit);
}

/// How rounding adds up in a score.
proof fn lemma_score_bounds(
    gain: real,
    g: real,
    d: real,
    ideal: real,
    k: real,
    w: real,
    full: real,
    score: real,
    m: real,
    unit: real,
)
    requires
        0real <= unit,
        0real <= m,
        0real <= gain,
        gain - unit <= g <= gain,
        0real <= d <= 1real,
        0real <= ideal <= 1real,
        ideal - m * unit <= d <= ideal + unit,
        g * d - unit <= k <= g * d,
        full - unit <= w <= full <= 1real,
        0real <= w,
        k * w - unit <= score <= k * w,
    ensures
        gain * ideal * full - (gain * (m + 2real) * unit + 3real * unit) <= score,
        score <= gain * ideal * full + (gain * (m + 2real) * unit + 3real * unit),
{
    let lost = m * unit;
    assert(0real <= lost && m * unit == lost) by (nonlinear_arith)
        requires
            lost == m * unit,
            0real <= m,
            0real <= unit,
    ;
    let gu = gain * unit;
    let gl = gain * lost;
    assert(0real <= gu && 0real <= gl) by (nonlinear_arith)
        requires
            gu == gain * unit,
            gl == gain * lost,
            0real <= gain,
            0real <= unit,
            0real <= lost,
    ;
    assert(gain * (m + 2real) * unit == gl + 2real * gu) by (nonlinear_arith)
        requires
            gl == gain * lost,
            gu == gain * unit,
            lost == m * unit,
    ;
    assert(gain * d - unit <= g * d <= gain * d) by (nonlinear_arith)
        requires
            gain - unit <= g <= gain,
            0real <= d <= 1real,
            0real <= unit,
    ;
    assert(gain * ideal - gl <= gain * d <= gain * ideal + gu) by (nonlinear_arith)
        requires
            ideal - lost <= d <= ideal + unit,
            0real <= gain,
            gl == gain * lost,
            gu == gain * unit,
    ;
    let i = gain * ideal;
    assert(0real <= i <= gain) by (nonlinear_arith)
        requires
            i == gain * ideal,
            0real <= gain,
            0real <= ideal <= 1real,
    ;
    assert(i - gl - 2real * unit <= k <= i + gu);
    assert((i + gu) * w <= i * full + gu) by (nonlinear_arith)
        requires
            0real <= i,
            0real <= gu,
            0real <= w <= full,
            full <= 1real,
    ;
    assert(k * w <= (i + gu) * w) by (nonlinear_arith)
        requires
            k <= i + gu,
            0real <= w,
    ;
    let low = gl + 2real * unit;
    assert(k * w >= (i - low) * w) by (nonlinear_arith)
        requires
            k >= i - low,
            0real <= w,
    ;
    assert((i - low) * w >= i * w - low) by (nonlinear_arith)
        requires
            0real <= w <= 1real,
            0real <= low,
    ;
    assert(i * w >= i * full - i * unit) by (nonlinear_arith)
        requires
            full - unit <= w,
            0real <= i,
    ;
    assert(i * unit <= gu) by (nonlinear_arith)
        requires
            0real <= i <= gain,
            0real <= unit,
            gu == gain * unit,
    ;
}

/// The ends of a route, in the direction of a trade.
pub open spec fn seller_of<N>(route: Route<N>, forward: bool) -> SettlementId {
    if forward {
        route.a
    } else {
        route.b
    }
}

pub open spec fn buyer_of<N>(route: Route<N>, forward: bool) -> SettlementId {
    if forward {
        route.b
    } else {
        route.a
    }
}

/// How pressing a lack is lies between zero and one.
proof fn lemma_urgency_range<N: Number>(
    val: spec_fn(N) -> real,
    limit: real,
    settlement: Settlement<N>,
    good: Good,
)
    requires
        linear_within(val, limit),
        limit >= 2real,
    ensures
        0real <= val(urgency(settlement, good)) <= 1real,
{
    assert(val(whole::<N>(0)) == 0real && val(whole::<N>(1)) == 1real && val(whole::<N>(2))
        == 2real);
}

/// The appeal of a trade of `quantity` units, in reals.
pub open spec fn appeal_of<N: Number>(
    val: spec_fn(N) -> real,
    model: WorldModel<N>,
    trader: TraderId,
    route: Route<N>,
    seller: SettlementId,
    buyer: SettlementId,
    good: Good,
    quantity: real,
) -> real {
    let judge = model.traders[trader as int];
    appeal(
        spread_of(val, model, trader, route, seller, buyer, good),
        quantity,
        val(route.hazard_from(judge.location)),
        route.travel_months as nat,
        val(judge.risk_tolerance),
        val(urgency(model.settlements[buyer as int], good)),
    )
}

/// How far the score of a trade of `quantity` units may be from its appeal.
pub open spec fn slack_of<N: Number>(
    val: spec_fn(N) -> real,
    unit: real,
    model: WorldModel<N>,
    trader: TraderId,
    route: Route<N>,
    seller: SettlementId,
    buyer: SettlementId,
    good: Good,
    quantity: real,
) -> real {
    score_slack(
        spread_of(val, model, trader, route, seller, buyer, good) * quantity,
        route.travel_months as nat,
        unit,
    )
}

/// Law: a trader passes over no trade that is better than the one they pick.  For every
/// route, each of its directions and every good: if the deal has not been ruled out, the
/// buyer lacks a unit or more, a unit or more can go, the spread is wide enough and the
/// trade has some appeal, then a trade is picked, and its score is no less than that
/// appeal.
pub proof fn law_no_trade_is_better<N: Number>(
    val: spec_fn(N) -> real,
    limit: real,
    unit: real,
    model: WorldModel<N>,
    trader: TraderId,
    max_capacity: N,
    excluded: Seq<Deal>,
    i: int,
    forward: bool,
    good: Good,
    quantity: real,
)
    requires
        linear_within(val, limit),
        rounds_down(val, limit, unit),
        repeats(val, limit, unit),
        limit >= 2real,
        unit <= 1real / 10real,
        0 <= i < model.routes.len(),
        ({
            let route = model.routes[i];
            let (seller, buyer) = (seller_of(route, forward), buyer_of(route, forward));
            let place = model.settlements[buyer as int];
            let boldness = val(model.traders[trader as int].risk_tolerance);
            &&& prospect_fits(
                val,
                limit,
                model,
                trader,
                max_capacity,
                route,
                seller,
                buyer,
                good,
            )
            &&& !excluded.contains((seller, buyer, good))
            &&& val(lack(place, good)) >= 1real
            &&& is_quantity(val, model, max_capacity, seller, buyer, good, quantity)
            &&& quantity >= 1real
            &&& spread_of(val, model, trader, route, seller, buyer, good) >= spread_floor(
                boldness,
                val(urgency(place, good)),
            ) + unit
            &&& appeal_of(val, model, trader, route, seller, buyer, good, quantity) > slack_of(
                val,
                unit,
                model,
                trader,
                route,
                seller,
                buyer,
                good,
                quantity,
            )
        }),
    ensures
        ({
            let route = model.routes[i];
            let (seller, buyer) = (seller_of(route, forward), buyer_of(route, forward));
            let best = model.best_trade(trader, max_capacity, excluded);
            &&& best is Some
            &&& val(best->0.score) >= appeal_of(
                val,
                model,
                trader,
                route,
                seller,
                buyer,
                good,
                quantity,
            ) - slack_of(val, unit, model, trader, route, seller, buyer, good, quantity)
        }),
{
    let route = model.routes[i];
    let (seller, buyer) = (seller_of(route, forward), buyer_of(route, forward));
    let place = model.settlements[buyer as int];
    let boldness = model.traders[trader as int].risk_tolerance;
    assert(val(whole::<N>(0)) == 0real && val(whole::<N>(1)) == 1real);
    assert(0real <= unit) by {
        reveal(rounds_down);
    }
    lemma_urgency_range(val, limit, place, good);
    lemma_spread_floor(val, limit, unit, boldness, urgency(place, good));
    law_score_in_numbers(
        val,
        limit,
        unit,
        model,
        trader,
        max_capacity,
        route,
        seller,
        buyer,
        good,
    );
    let all = least(
        least(val(model.stock(seller, good)), val(lack(place, good))),
        val(max_capacity),
    );
    lemma_whole_is_one(
        all,
        quantity,
        val(model.suggested(seller, buyer, good, max_capacity)),
    );
    let k = if forward {
        6 * i + index_of(good)
    } else {
        6 * i + 3 + index_of(good)
    };
    let n = 6 * model.routes.len() as int;
    assert(0 <= k < n && k / 6 == i && k % 3 == index_of(good) && (k % 6 < 3 <==> forward));
    assert(good_of(index_of(good)) == good);
    assert(model.worthwhile(trader, max_capacity, route, seller, buyer, good));
    assert(model.offer(trader, max_capacity, excluded, k) is Some);
    lemma_best_is_best(val, model, trader, max_capacity, excluded, n, k);
}

/// A trade of one good along one route in one direction, as a trader judges it: the buyer
/// lacks a unit or more, the spread is wide enough, and quantity and score are what they
/// should be.
pub open spec fn well_judged<N: Number>(
    val: spec_fn(N) -> real,
    unit: real,
    model: WorldModel<N>,
    trader: TraderId,
    max_capacity: N,
    excluded: Seq<Deal>,
    route: Route<N>,
    forward: bool,
    trade: TradeOpportunity<N>,
) -> bool {
    let (seller, buyer) = (seller_of(route, forward), buyer_of(route, forward));
    let place = model.settlements[buyer as int];
    let good = trade.good;
    let quantity = val(trade.suggested_quantity);
    let boldness = val(model.traders[trader as int].risk_tolerance);
    let spread = spread_of(val, model, trader, route, seller, buyer, good);
    let ideal = appeal_of(val, model, trader, route, seller, buyer, good, quantity);
    let slack = slack_of(val, unit, model, trader, route, seller, buyer, good, quantity);
    &&& trade.route == route.id
    &&& trade.seller == seller
    &&& trade.buyer == buyer
    &&& trade.buyer_price == model.perceived_price(trader, buyer, good)
    &&& !excluded.contains((seller, buyer, good))
    &&& val(lack(place, good)) >= 1real
    &&& is_quantity(val, model, max_capacity, seller, buyer, good, quantity)
    &&& quantity >= 1real
    &&& spread >= spread_floor(boldness, val(urgency(place, good))) - unit
    &&& spread > 0real
    &&& val(trade.score) > 0real
    &&& ideal - slack <= val(trade.score) <= ideal + slack
}

/// Law: the trade that a trader picks runs along one of the routes, has not been ruled out,
/// fills a lack, is worth its spread, and has the quantity and the score that it should.
pub proof fn law_best_trade_in_numbers<N: Number>(
    val: spec_fn(N) -> real,
    limit: real,
    unit: real,
    model: WorldModel<N>,
    trader: TraderId,
    max_capacity: N,
    excluded: Seq<Deal>,
)
    requires
        linear_within(val, limit),
        rounds_down(val, limit, unit),
        repeats(val, limit, unit),
        keeps_order(val),
        limit >= 2real,
        unit <= 1real / 10real,
        model.best_trade(trader, max_capacity, excluded) is Some,
        forall|i: int, forward: bool, good: Good|
            0 <= i < model.routes.len() ==> #[trigger] prospect_fits(
                val,
                limit,
                model,
                trader,
                max_capacity,
                model.routes[i],
                seller_of(model.routes[i], forward),
                buyer_of(model.routes[i], forward),
                good,
            ),
    ensures
        exists|i: int, forward: bool|
            0 <= i < model.routes.len() && #[trigger] well_judged(
                val,
                unit,
                model,
                trader,
                max_capacity,
                excluded,
                model.routes[i],
                forward,
                model.best_trade(trader, max_capacity, excluded)->0,
            ),
{
    let n = 6 * model.routes.len() as int;
    lemma_best_is_an_offer(model, trader, max_capacity, excluded, n);
    let trade = model.best_trade(trader, max_capacity, excluded)->0;
    let k = choose|k: int|
        0 <= k < n && #[trigger] model.offer(trader, max_capacity, excluded, k)
            == model.best_of(trader, max_capacity, excluded, n);
    let i = k / 6;
    let forward = k % 6 < 3;
    let good = good_of(k % 3);
    assert(0 <= i < model.routes.len());
    let route = model.routes[i];
    let (seller, buyer) = (seller_of(route, forward), buyer_of(route, forward));
    let place = model.settlements[buyer as int];
    let boldness = model.traders[trader as int].risk_tolerance;
    assert(prospect_fits(val, limit, model, trader, max_capacity, route, seller, buyer, good));
    assert(model.worthwhile(trader, max_capacity, route, seller, buyer, good));
    assert(trade.good == good && trade.seller == seller && trade.buyer == buyer);
    assert(val(whole::<N>(0)) == 0real && val(whole::<N>(1)) == 1real);
    assert(0real <= unit) by {
        reveal(rounds_down);
    }
    lemma_urgency_range(val, limit, place, good);
    let pressure = urgency(place, good);
    lemma_spread_floor(val, limit, unit, boldness, pressure);
    let spread = model.spread(trader, route, seller, buyer, good);
    assert(val(spread) == spread_of(val, model, trader, route, seller, buyer, good));
    let quantity = model.suggested(seller, buyer, good, max_capacity);
    let discount = risk_discount(
        route.hazard_from(model.traders[trader as int].location),
        route.travel_months,
        boldness,
    );
    law_risk_compounds(
        val,
        limit,
        unit,
        route.hazard_from(model.traders[trader as int].location),
        route.travel_months,
        boldness,
    );
    let weight = hundredths::<N>(40).sum(hundredths::<N>(60).product(pressure));
    assert(val(weight) >= 0real) by {
        assert(val(hundredths::<N>(60)) * 100real == 60real && val(hundredths::<N>(40)) * 100real
            == 40real);
        lemma_products_in_order(val(hundredths::<N>(60)), 1real, val(pressure), 1real);
        lemma_product(val, limit, unit, hundredths::<N>(60), pressure);
    }
    let gain = spread.product(quantity);
    assert(val(spread) > 0real) by {
        reveal(keeps_order);
        if val(spread) <= 0real {
            assert(val(gain) <= 0real);
            assert(val(gain.product(discount)) <= 0real);
            assert(val(gain.product(discount).product(weight)) <= 0real);
        }
    }
    law_score_in_numbers(
        val,
        limit,
        unit,
        model,
        trader,
        max_capacity,
        route,
        seller,
        buyer,
        good,
    );
    assert(well_judged(
        val,
        unit,
        model,
        trader,
        max_capacity,
        excluded,
        model.routes[i],
        forward,
        trade,
    ));
}

/// Law: as many whole units go as the trader has in mind, the seller has, the buyer can pay
/// for, the route has room for and the trader can carry; not a unit less than can go.
pub proof fn law_dispatch_in_numbers<N: Number>(
    val: spec_fn(N) -> real,
    limit: real,
    unit: real,
    model: WorldModel<N>,
    trade: TradeOpportunity<N>,
    capacity: N,
)
    requires
        linear_within(val, limit),
        rounds_down(val, limit, unit),
        ({
            let route = model.routes[trade.route as int];
            let price = val(model.price_at(trade.buyer, trade.good));
            let means = val(model.settlements[trade.buyer as int].buying_power());
            let stock = val(model.stock(trade.seller, trade.good));
            &&& price > 0real
            &&& fits(limit - unit, means / price)
            &&& fits(limit, stock)
            &&& fits(limit, val(capacity))
            &&& fits(limit, val(trade.suggested_quantity))
            &&& fits(limit, val(route.capacity_per_month) - val(route.used_capacity_this_month))
        }),
    ensures
        ({
            let route = model.routes[trade.route as int];
            let price = val(model.price_at(trade.buyer, trade.good));
            let means = val(model.settlements[trade.buyer as int].buying_power());
            let room = val(route.capacity_per_month) - val(route.used_capacity_this_month);
            let quantity = val(model.dispatched(trade, capacity));
            let all = least(
                least(
                    least(
                        least(
                            val(trade.suggested_quantity),
                            val(model.stock(trade.seller, trade.good)),
                        ),
                        means / price,
                    ),
                    room,
                ),
                val(capacity),
            );
            &&& is_whole(quantity)
            &&& quantity <= all
            &&& all < quantity + 1real + unit
        }),
{
    let power = model.settlements[trade.buyer as int].buying_power();
    let price = model.price_at(trade.buyer, trade.good);
    assert(0real <= unit) by {
        reveal(rounds_down);
    }
    lemma_quotient(val, limit, unit, power, price);
    let route = model.routes[trade.route as int];
    let all = trade.suggested_quantity.smaller(model.stock(trade.seller, trade.good)).smaller(
        power.quotient(price),
    ).smaller(route.capacity_per_month.difference(route.used_capacity_this_month)).smaller(
        capacity,
    );
    assert(fits(limit, val(all)));
    assert(model.dispatched(trade, capacity) == all.floored());
}

/// Law: what is dispatched leaves the seller's stores, takes up room on the route and sets
/// out at the prices, with the hazard and for the months that hold when it sets out; one
/// event tells of it, and nothing else changes.
pub proof fn law_dispatch_sets_out<N: Number>(
    val: spec_fn(N) -> real,
    limit: real,
    model: WorldModel<N>,
    trader: TraderId,
    trade: TradeOpportunity<N>,
    quantity: N,
)
    requires
        linear_within(val, limit),
        model.trade_wf(trade),
        fits(limit, val(model.stock(trade.seller, trade.good)) - val(quantity)),
        fits(
            limit,
            val(model.routes[trade.route as int].used_capacity_this_month) + val(quantity),
        ),
    ensures
        ({
            let after = model.after_dispatch(trader, trade, quantity);
            let (way, from) = (trade.route as int, trade.seller as int);
            let route = model.routes[way];
            let sent = after.shipments[model.shipments.len() as int];
            &&& after.shipments == model.shipments.push(sent)
            &&& sent.trader == trader
            &&& sent.good == trade.good
            &&& sent.seller == trade.seller
            &&& sent.buyer == trade.buyer
            &&& sent.route == trade.route
            &&& sent.quantity == quantity
            &&& sent.initial_quantity == quantity
            &&& sent.capacity_units == quantity
            &&& model.settlements[from].prices.at(trade.good) is Some ==> Some(sent.buy_price)
                == model.settlements[from].prices.at(trade.good)
            &&& sent.expected_sell_price == trade.buyer_price
            &&& sent.transport_cost_per_unit == route.cost_per_unit
            &&& sent.effective_monthly_incident_rate == route.hazard_from(
                model.traders[trader as int].location,
            )
            &&& sent.months_remaining == route.travel_months
            &&& val(after.stock(trade.seller, trade.good)) == val(
                model.stock(trade.seller, trade.good),
            ) - val(quantity)
            &&& val(after.routes[way].used_capacity_this_month) == val(
                route.used_capacity_this_month,
            ) + val(quantity)
            &&& after.events == model.events.push(
                Event::ShipmentCreated {
                    trader,
                    good: trade.good,
                    quantity,
                    seller: trade.seller,
                    buyer: trade.buyer,
                },
            )
            &&& forall|place: SettlementId, good: Good|
                place < model.settlements.len() && (place != trade.seller || good != trade.good)
                    ==> after.settlements[place as int].stockpiles.at(good)
                    == #[trigger] model.settlements[place as int].stockpiles.at(good)
            &&& forall|i: int|
                0 <= i < model.settlements.len() ==> (Settlement {
                    stockpiles: model.settlements[i].stockpiles,
                    ..#[trigger] after.settlements[i]
                }) == model.settlements[i]
            &&& forall|i: int|
                0 <= i < model.routes.len() && i != way ==> #[trigger] after.routes[i]
                    == model.routes[i]
            &&& after.routes[way] == (Route {
                used_capacity_this_month: after.routes[way].used_capacity_this_month,
                ..route
            })
            &&& after.traders == model.traders
            &&& after.settlements.len() == model.settlements.len()
            &&& after.routes.len() == model.routes.len()
            &&& after.month == model.month
            &&& after.expected_total_money == model.expected_total_money
        }),
{
}

/// The place of a trade in the order in which a trader goes through them: route by route,
/// there before back, and food before ore before tools.
pub open spec fn rank(i: int, forward: bool, good: Good) -> int {
    6 * i + (if forward {
        0int
    } else {
        3int
    }) + (match good {
        Good::Food => 0int,
        Good::Ore => 1int,
        Good::Tools => 2int,
    })
}

/// The trade of one good along one route in one direction, if a trader considers it.
pub open spec fn prospect<N: Number>(
    model: WorldModel<N>,
    trader: TraderId,
    max_capacity: N,
    excluded: Seq<Deal>,
    i: int,
    forward: bool,
    good: Good,
) -> Option<TradeOpportunity<N>> {
    let route = model.routes[i];
    model.opportunity(
        trader,
        max_capacity,
        excluded,
        route,
        seller_of(route, forward),
        buyer_of(route, forward),
        good,
    )
}

/// Law: of trades that are equally good, a trader picks the one that comes first.
pub proof fn law_the_first_of_the_best_is_picked<N: Number>(
    val: spec_fn(N) -> real,
    model: WorldModel<N>,
    trader: TraderId,
    max_capacity: N,
    excluded: Seq<Deal>,
)
    requires
        ordered(val),
        model.best_trade(trader, max_capacity, excluded) is Some,
    ensures
        ({
            let best = model.best_trade(trader, max_capacity, excluded);
            exists|i: int, forward: bool, good: Good|
                {
                    &&& 0 <= i < model.routes.len()
                    &&& #[trigger] prospect(
                        model,
                        trader,
                        max_capacity,
                        excluded,
                        i,
                        forward,
                        good,
                    ) == best
                    &&& forall|j: int, back: bool, other: Good|
                        0 <= j < model.routes.len() && (#[trigger] prospect(
                            model,
                            trader,
                            max_capacity,
                            excluded,
                            j,
                            back,
                            other,
                        )) is Some && rank(j, back, other) < rank(i, forward, good) ==> val(
                            prospect(
                                model,
                                trader,
                                max_capacity,
                                excluded,
                                j,
                                back,
                                other,
                            )->0.score,
                        ) < val(best->0.score)
                }
        }),
{
    let n = 6 * model.routes.len() as int;
    let best = model.best_trade(trader, max_capacity, excluded);
    let k = lemma_picked_is_first_best(val, model, trader, max_capacity, excluded, n);
    let (i, forward, good) = (k / 6, k % 6 < 3, good_of(k % 3));
    assert(0 <= i < model.routes.len());
    assert(rank(i, forward, good) == k);
    assert(prospect(model, trader, max_capacity, excluded, i, forward, good) == best);
    assert forall|j: int, back: bool, other: Good|
        0 <= j < model.routes.len() && (#[trigger] prospect(
            model,
            trader,
            max_capacity,
            excluded,
            j,
            back,
            other,
        )) is Some && rank(j, back, other) < rank(i, forward, good) implies val(
        prospect(model, trader, max_capacity, excluded, j, back, other)->0.score,
    ) < val(best->0.score) by {
        let m = rank(j, back, other);
        assert(m / 6 == j && m % 3 == index_of(other) && (m % 6 < 3 <==> back));
        assert(good_of(index_of(other)) == other);
        assert(model.offer(trader, max_capacity, excluded, m) == prospect(
            model,
            trader,
            max_capacity,
            excluded,
            j,
            back,
            other,
        ));
    }
}

} // verus!
