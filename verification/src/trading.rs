//! What always holds of the trades that traders pick and send off.
//!
//! The laws hold within the range of the number type: `val` reads each number as a
//! real, and stocks, routes and capacities lie below `limit`.

use crate::goods::{good_of, Good};
use crate::number::{
    hundredths, is_whole, keeps_order, lemma_product, lemma_products_in_order, lemma_quotient,
    linear_within, ordered, rounds_down, whole, Number,
};
use crate::route::{Route, RouteId, FAMILIARITY_PERCENT};
use crate::settlement::SettlementId;
use crate::shipment::Shipment;
use crate::trade::{
    least_spread, lemma_best_is_an_offer, lemma_best_wf, lemma_dispatch_wf,
    risk_discount, urgency, Deal, TradeOpportunity, MAX_ROUNDS, MIN_HEURISTIC_SPREAD_PERCENT,
};
use crate::trader::{TraderId, TraderModel};
use crate::world::WorldModel;
use vstd::prelude::*;

verus! {

/// The best of the first trades is at least as attractive as each of them.
pub proof fn lemma_best_is_best<N: Number>(
    val: spec_fn(N) -> real,
    model: WorldModel<N>,
    trader: TraderId,
    max_capacity: N,
    excluded: Seq<Deal>,
    n: int,
    k: int,
)
    requires
        ordered(val),
        0 <= k < n,
        model.offer(trader, max_capacity, excluded, k) is Some,
    ensures
        ({
            let best = model.best_of(trader, max_capacity, excluded, n);
            &&& best is Some
            &&& val(best->0.score) >= val(
                (model.offer(trader, max_capacity, excluded, k)->0).score,
            )
        }),
    decreases n,
{
    if k < n - 1 {
        lemma_best_is_best(val, model, trader, max_capacity, excluded, n - 1, k);
    }
}

/// Law: the trade that a trader picks is one of those that they consider, and no
/// other of those is more attractive to them; they pick none only where there is
/// none.
pub proof fn law_best_trade_is_best<N: Number>(
    val: spec_fn(N) -> real,
    model: WorldModel<N>,
    trader: TraderId,
    max_capacity: N,
    excluded: Seq<Deal>,
)
    requires
        ordered(val),
    ensures
        ({
            let best = model.best_trade(trader, max_capacity, excluded);
            let n = 6 * model.routes.len();
            &&& best is Some ==> exists|k: int|
                0 <= k < n && #[trigger] model.offer(trader, max_capacity, excluded, k) == best
            &&& forall|k: int|
                0 <= k < n && (
                #[trigger] model.offer(trader, max_capacity, excluded, k)) is Some ==> {
                    &&& best is Some
                    &&& val((model.offer(trader, max_capacity, excluded, k)->0).score) <= val(
                        best->0.score,
                    )
                }
        }),
{
    let best = model.best_trade(trader, max_capacity, excluded);
    let n = 6 * model.routes.len() as int;
    if best is Some {
        lemma_best_is_an_offer(model, trader, max_capacity, excluded, n);
    }
    assert forall|k: int|
        0 <= k < n && (
        #[trigger] model.offer(trader, max_capacity, excluded, k)) is Some implies {
        &&& best is Some
        &&& val((model.offer(trader, max_capacity, excluded, k)->0).score) <= val(best->0.score)
    } by {
        lemma_best_is_best(val, model, trader, max_capacity, excluded, n, k);
    }
}

/// The `k`-th trade is the first of the best among the first `n`.
pub open spec fn is_first_best<N: Number>(
    val: spec_fn(N) -> real,
    model: WorldModel<N>,
    trader: TraderId,
    max_capacity: N,
    excluded: Seq<Deal>,
    n: int,
    k: int,
) -> bool {
    let chosen = model.offer(trader, max_capacity, excluded, k);
    &&& 0 <= k < n
    &&& chosen is Some
    &&& forall|j: int|
        0 <= j < n && (#[trigger] model.offer(trader, max_capacity, excluded, j)) is Some ==> {
            let score = val((model.offer(trader, max_capacity, excluded, j)->0).score);
            if j < k {
                score < val((chosen->0).score)
            } else {
                score <= val((chosen->0).score)
            }
        }
}

/// What is picked among the first trades is the first of the best.
pub proof fn lemma_picked_is_first_best<N: Number>(
    val: spec_fn(N) -> real,
    model: WorldModel<N>,
    trader: TraderId,
    max_capacity: N,
    excluded: Seq<Deal>,
    n: int,
) -> (k: int)
    requires
        ordered(val),
        model.best_of(trader, max_capacity, excluded, n) is Some,
    ensures
        is_first_best(val, model, trader, max_capacity, excluded, n, k),
        model.offer(trader, max_capacity, excluded, k) == model.best_of(
            trader,
            max_capacity,
            excluded,
            n,
        ),
    decreases n,
{
    let before = model.best_of(trader, max_capacity, excluded, n - 1);
    let last = model.offer(trader, max_capacity, excluded, n - 1);
    if before is None {
        assert forall|j: int|
            0 <= j < n && (#[trigger] model.offer(
                trader,
                max_capacity,
                excluded,
                j,
            )) is Some implies j == n - 1 by {
            if j < n - 1 {
                lemma_best_is_best(val, model, trader, max_capacity, excluded, n - 1, j);
            }
        }
        n - 1
    } else {
        let k = lemma_picked_is_first_best(
            val,
            model,
            trader,
            max_capacity,
            excluded,
            n - 1,
        );
        if last is Some && (before->0).score.less((last->0).score) {
            n - 1
        } else {
            k
        }
    }
}

/// The first of the best is what is picked.
proof fn lemma_first_best_is_picked<N: Number>(
    val: spec_fn(N) -> real,
    model: WorldModel<N>,
    trader: TraderId,
    max_capacity: N,
    excluded: Seq<Deal>,
    n: int,
    k: int,
)
    requires
        ordered(val),
        is_first_best(val, model, trader, max_capacity, excluded, n, k),
    ensures
        model.best_of(trader, max_capacity, excluded, n) == model.offer(
            trader,
            max_capacity,
            excluded,
            k,
        ),
{
    lemma_best_is_best(val, model, trader, max_capacity, excluded, n, k);
    let m = lemma_picked_is_first_best(val, model, trader, max_capacity, excluded, n);
    assert(m == k) by {
        let _ = model.offer(trader, max_capacity, excluded, m);
        let _ = model.offer(trader, max_capacity, excluded, k);
    }
}

/// The `k`-th trade that there is on the given routes.
pub open spec fn deal_at<N: Number>(routes: Seq<Route<N>>, k: int) -> Deal {
    let route = routes[k / 6];
    if k % 6 < 3 {
        (route.a, route.b, good_of(k % 3))
    } else {
        (route.b, route.a, good_of(k % 3))
    }
}

/// How many of the first `n` trades that there are have not been ruled out.
pub open spec fn open_deals<N: Number>(
    routes: Seq<Route<N>>,
    excluded: Seq<Deal>,
    n: int,
) -> nat
    decreases n,
{
    if n <= 0 {
        0
    } else {
        open_deals(routes, excluded, n - 1) + if excluded.contains(deal_at(routes, n - 1)) {
            0nat
        } else {
            1nat
        }
    }
}

pub proof fn lemma_open_deals_bounded<N: Number>(routes: Seq<Route<N>>, excluded: Seq<Deal>, n: int)
    requires
        0 <= n,
    ensures
        open_deals(routes, excluded, n) <= n,
    decreases n,
{
    if n > 0 {
        lemma_open_deals_bounded(routes, excluded, n - 1);
    }
}

/// Ruling out a trade that was open leaves at least one open trade less.
pub proof fn lemma_deal_ruled_out<N: Number>(
    routes: Seq<Route<N>>,
    excluded: Seq<Deal>,
    deal: Deal,
    n: int,
)
    requires
        0 <= n,
    ensures
        open_deals(routes, excluded.push(deal), n) <= open_deals(routes, excluded, n),
        forall|k: int|
            0 <= k < n && #[trigger] deal_at(routes, k) == deal && !excluded.contains(deal) ==> 
                open_deals(routes, excluded.push(deal), n) < open_deals(routes, excluded, n),
    decreases n,
{
    if n > 0 {
        lemma_deal_ruled_out(routes, excluded, deal, n - 1);
        let last = deal_at(routes, n - 1);
        let more = excluded.push(deal);
        if excluded.contains(last) {
            let i = choose|i: int| 0 <= i < excluded.len() && excluded[i] == last;
            assert(more[i] == last);
        }
        assert(more[excluded.len() as int] == deal);
        if more.contains(last) && last != deal {
            let i = choose|i: int| 0 <= i < more.len() && more[i] == last;
            assert(excluded[i] == last);
        }
    }
}

/// Routes with the same ends have the same open trades.
pub proof fn lemma_same_ends<N: Number>(
    before: Seq<Route<N>>,
    after: Seq<Route<N>>,
    excluded: Seq<Deal>,
    n: int,
)
    requires
        before.len() == after.len(),
        0 <= n <= 6 * before.len(),
        forall|i: int|
            0 <= i < before.len() ==> (#[trigger] after[i]).a == before[i].a && after[i].b
                == before[i].b,
    ensures
        open_deals(after, excluded, n) == open_deals(before, excluded, n),
    decreases n,
{
    if n > 0 {
        lemma_same_ends(before, after, excluded, n - 1);
        assert(deal_at(after, n - 1) == deal_at(before, n - 1));
    }
}

/// Ruling out one more trade takes away the offers of that trade and no others.
proof fn lemma_offer_ruled_out<N: Number>(
    model: WorldModel<N>,
    trader: TraderId,
    max_capacity: N,
    excluded: Seq<Deal>,
    deal: Deal,
    k: int,
)
    ensures
        model.offer(trader, max_capacity, excluded.push(deal), k) == if deal_at(model.routes, k)
            == deal {
            None
        } else {
            model.offer(trader, max_capacity, excluded, k)
        },
        model.offer(trader, max_capacity, excluded, k) matches Some(trade) ==> {
            &&& (trade.seller, trade.buyer, trade.good) == deal_at(model.routes, k)
            &&& !excluded.contains(deal_at(model.routes, k))
        },
{
    let at = deal_at(model.routes, k);
    let more = excluded.push(deal);
    assert(more[excluded.len() as int] == deal);
    if excluded.contains(at) {
        let i = choose|i: int| 0 <= i < excluded.len() && excluded[i] == at;
        assert(more[i] == at);
    }
    if more.contains(at) && at != deal {
        let i = choose|i: int| 0 <= i < more.len() && more[i] == at;
        assert(excluded[i] == at);
    }
}

/// Law: the trade that a trader picks has not been ruled out.  Ruling out another
/// trade leaves the choice as it is; ruling out the chosen one leaves none, or
/// another one that is no more attractive.
pub proof fn law_ruling_out_another_trade_keeps_the_choice<N: Number>(
    val: spec_fn(N) -> real,
    model: WorldModel<N>,
    trader: TraderId,
    max_capacity: N,
    excluded: Seq<Deal>,
    deal: Deal,
)
    requires
        ordered(val),
        model.best_trade(trader, max_capacity, excluded) is Some,
    ensures
        ({
            let chosen = model.best_trade(trader, max_capacity, excluded)->0;
            let triple = (chosen.seller, chosen.buyer, chosen.good);
            let next = model.best_trade(trader, max_capacity, excluded.push(deal));
            &&& !excluded.contains(triple)
            &&& deal != triple ==> next == Some(chosen)
            &&& deal == triple ==> (next matches Some(other) ==> {
                &&& (other.seller, other.buyer, other.good) != triple
                &&& val(other.score) <= val(chosen.score)
            })
        }),
{
    let n = 6 * model.routes.len() as int;
    let more = excluded.push(deal);
    let chosen = model.best_trade(trader, max_capacity, excluded)->0;
    let triple = (chosen.seller, chosen.buyer, chosen.good);
    let k = lemma_picked_is_first_best(val, model, trader, max_capacity, excluded, n);
    lemma_offer_ruled_out(model, trader, max_capacity, excluded, deal, k);
    if deal != triple {
        assert forall|j: int|
            0 <= j < n && (#[trigger] model.offer(trader, max_capacity, more, j)) is Some implies {
            let score = val((model.offer(trader, max_capacity, more, j)->0).score);
            if j < k {
                score < val(chosen.score)
            } else {
                score <= val(chosen.score)
            }
        } by {
            lemma_offer_ruled_out(model, trader, max_capacity, excluded, deal, j);
            let _ = model.offer(trader, max_capacity, excluded, j);
        }
        lemma_first_best_is_picked(val, model, trader, max_capacity, more, n, k);
    } else if model.best_trade(trader, max_capacity, more) is Some {
        let m = lemma_picked_is_first_best(val, model, trader, max_capacity, more, n);
        lemma_offer_ruled_out(model, trader, max_capacity, excluded, deal, m);
        lemma_best_is_best(val, model, trader, max_capacity, excluded, n, m);
    }
}

/// Stores are not overdrawn, routes are not overfull, and both lie in range.
pub open spec fn within_limits<N: Number>(
    val: spec_fn(N) -> real,
    limit: real,
    model: WorldModel<N>,
) -> bool {
    &&& forall|i: int, good: Good|
        #![trigger model.settlements[i].stockpiles.at_or(good, whole(0))]
        0 <= i < model.settlements.len() ==> 0real <= val(
            model.settlements[i].stockpiles.at_or(good, whole(0)),
        ) <= limit
    &&& forall|i: int|
        0 <= i < model.routes.len() ==> 0real <= val(
            (#[trigger] model.routes[i]).used_capacity_this_month,
        ) <= val(model.routes[i].capacity_per_month) <= limit
}

/// Law: what goes off is a whole number of units, at least one, and no more than
/// the seller has, the route has room for and the trader can carry.
pub proof fn law_dispatch_is_within_limits<N: Number>(
    val: spec_fn(N) -> real,
    limit: real,
    model: WorldModel<N>,
    trade: TradeOpportunity<N>,
    capacity: N,
)
    requires
        linear_within(val, limit),
        limit >= 1real,
        model.trade_wf(trade),
        within_limits(val, limit, model),
        !model.dispatched(trade, capacity).less(whole(1)),
    ensures
        ({
            let quantity = val(model.dispatched(trade, capacity));
            let route = model.routes[trade.route as int];
            &&& 1real <= quantity
            &&& is_whole(quantity)
            &&& quantity <= val(trade.suggested_quantity)
            &&& quantity <= val(model.stock(trade.seller, trade.good))
            &&& quantity <= val(route.capacity_per_month) - val(route.used_capacity_this_month)
            &&& quantity <= val(capacity)
        }),
{
    assert(val(whole::<N>(1)) == 1real);
    let route = model.routes[trade.route as int];
    assert(0real <= val(route.used_capacity_this_month) <= val(route.capacity_per_month) <= limit);
    let _ = model.settlements[trade.seller as int].stockpiles.at_or(trade.good, whole(0));
}

/// Law: the buyer can pay, in cash and credit, for what is sent to them.  Rounding
/// costs them nothing: what they can afford is rounded down.
pub proof fn law_buyer_can_pay<N: Number>(
    val: spec_fn(N) -> real,
    limit: real,
    unit: real,
    model: WorldModel<N>,
    trade: TradeOpportunity<N>,
    capacity: N,
)
    requires
        linear_within(val, limit),
        rounds_down(val, limit, unit),
        val(model.price_at(trade.buyer, trade.good)) > 0real,
        val(model.stock(trade.seller, trade.good)) <= limit,
        -limit * val(model.price_at(trade.buyer, trade.good)) <= val(
            model.settlements[trade.buyer as int].buying_power(),
        ),
    ensures
        val(model.dispatched(trade, capacity)) * val(model.price_at(trade.buyer, trade.good))
            <= val(model.settlements[trade.buyer as int].buying_power()),
{
    let power = model.settlements[trade.buyer as int].buying_power();
    let price = model.price_at(trade.buyer, trade.good);
    let (w, p) = (val(power), val(price));
    let quantity = val(model.dispatched(trade, capacity));
    let most = w / p;
    assert(-limit <= most) by (nonlinear_arith)
        requires
            most == w / p,
            p > 0real,
            -limit * p <= w,
    ;
    if most <= limit {
        lemma_quotient(val, limit, unit, power, price);
    }
    assert(quantity <= most);
    assert(quantity * p <= w) by (nonlinear_arith)
        requires
            quantity <= most,
            most == w / p,
            p > 0real,
    ;
}

/// The cargo of those of the given shipments that `keep` holds of, together.
pub open spec fn tally<N: Number>(
    val: spec_fn(N) -> real,
    shipments: Seq<Shipment<N>>,
    keep: spec_fn(Shipment<N>) -> bool,
) -> real
    decreases shipments.len(),
{
    if shipments.len() == 0 {
        0real
    } else {
        tally(val, shipments.drop_last(), keep) + if keep(shipments.last()) {
            val(shipments.last().quantity)
        } else {
            0real
        }
    }
}

/// The shipment is sent by `trader`.
pub open spec fn sent_by<N>(trader: TraderId) -> spec_fn(Shipment<N>) -> bool {
    |shipment: Shipment<N>| shipment.trader == trader
}

/// The shipment is `good` that `seller` sold.
pub open spec fn sold_from<N>(seller: SettlementId, good: Good) -> spec_fn(Shipment<N>) -> bool {
    |shipment: Shipment<N>| shipment.seller == seller && shipment.good == good
}

/// The shipment goes along `route`.
pub open spec fn goes_along<N>(route: RouteId) -> spec_fn(Shipment<N>) -> bool {
    |shipment: Shipment<N>| shipment.route == route
}

/// One list goes on where the other ends.
pub open spec fn goes_on<A>(before: Seq<A>, after: Seq<A>) -> bool {
    &&& before.len() <= after.len()
    &&& forall|k: int| 0 <= k < before.len() ==> #[trigger] after[k] == before[k]
}

/// One more shipment adds its cargo to the tally that it belongs to.
pub proof fn lemma_tally_push<N: Number>(
    val: spec_fn(N) -> real,
    shipments: Seq<Shipment<N>>,
    one: Shipment<N>,
    keep: spec_fn(Shipment<N>) -> bool,
)
    ensures
        tally(val, shipments.push(one), keep) == tally(val, shipments, keep) + if keep(one) {
            val(one.quantity)
        } else {
            0real
        },
{
    assert(shipments.push(one).drop_last() =~= shipments);
}

pub proof fn lemma_dispatch_keeps_limits<N: Number>(
    val: spec_fn(N) -> real,
    limit: real,
    model: WorldModel<N>,
    trader: TraderId,
    trade: TradeOpportunity<N>,
    capacity: N,
)
    requires
        linear_within(val, limit),
        limit >= 1real,
        model.trade_wf(trade),
        within_limits(val, limit, model),
        !model.dispatched(trade, capacity).less(whole(1)),
    ensures
        within_limits(
            val,
            limit,
            model.after_dispatch(trader, trade, model.dispatched(trade, capacity)),
        ),
{
    law_dispatch_is_within_limits(val, limit, model, trade, capacity);
    let after = model.after_dispatch(trader, trade, model.dispatched(trade, capacity));
    assert forall|i: int, good: Good|
        #![trigger after.settlements[i].stockpiles.at_or(good, whole(0))]
        0 <= i < after.settlements.len() implies 0real <= val(
        after.settlements[i].stockpiles.at_or(good, whole(0)),
    ) <= limit by {
        let _ = model.settlements[i].stockpiles.at_or(good, whole(0));
    }
    assert forall|i: int| 0 <= i < after.routes.len() implies 0real <= val(
        (#[trigger] after.routes[i]).used_capacity_this_month,
    ) <= val(after.routes[i].capacity_per_month) <= limit by {
        let _ = model.routes[i];
    }
}

/// What a trader's rounds of dispatching, from one state of the world to another,
/// do to stores, routes and shipments; `who`, `place`, `good` and `way` are a
/// trader, a settlement, a good and a route to look at.
pub open spec fn well_dispatched<N: Number>(
    val: spec_fn(N) -> real,
    before: WorldModel<N>,
    after: WorldModel<N>,
    trader: TraderId,
    capacity: N,
    who: TraderId,
    place: SettlementId,
    good: Good,
    way: RouteId,
) -> bool {
    let sent = tally(val, after.shipments, sent_by(trader)) - tally(
        val,
        before.shipments,
        sent_by(trader),
    );
    &&& after.wf()
    &&& after.traders == before.traders
    &&& after.settlements.len() == before.settlements.len()
    &&& after.routes.len() == before.routes.len()
    &&& goes_on(before.shipments, after.shipments)
    &&& forall|k: int|
        before.shipments.len() <= k < after.shipments.len() ==> {
            &&& (#[trigger] after.shipments[k]).trader == trader
            &&& val(after.shipments[k].quantity) >= 1real
            &&& is_whole(val(after.shipments[k].quantity))
        }
    &&& (after.shipments.len() - before.shipments.len()) as real <= sent <= val(capacity)
    &&& who != trader ==> tally(val, after.shipments, sent_by(who)) == tally(
        val,
        before.shipments,
        sent_by(who),
    )
    &&& place < before.settlements.len() ==> val(after.stock(place, good)) + tally(
        val,
        after.shipments,
        sold_from(place, good),
    ) == val(before.stock(place, good)) + tally(val, before.shipments, sold_from(place, good))
    &&& way < before.routes.len() ==> val(after.routes[way as int].used_capacity_this_month) - tally(
        val,
        after.shipments,
        goes_along(way),
    ) == val(before.routes[way as int].used_capacity_this_month) - tally(
        val,
        before.shipments,
        goes_along(way),
    )
}

/// Law: over a trader's month of dispatching, stores are not overdrawn and routes
/// are not overfull; the new shipments are whole numbers of units, each at least
/// one, and together no more than the trader's capacity; what left a store is what
/// was sent from it, and what fills a route is what was sent along it.
pub proof fn law_rounds_stay_within_limits<N: Number>(
    val: spec_fn(N) -> real,
    limit: real,
    model: WorldModel<N>,
    trader: TraderId,
    capacity: N,
    excluded: Seq<Deal>,
    rounds: nat,
    who: TraderId,
    place: SettlementId,
    good: Good,
    way: RouteId,
)
    requires
        linear_within(val, limit),
        limit >= 1real,
        model.wf(),
        trader < model.traders.len(),
        within_limits(val, limit, model),
        0real <= val(capacity) <= limit,
    ensures
        ({
            let after = model.after_rounds(trader, capacity, excluded, rounds);
            &&& within_limits(val, limit, after)
            &&& well_dispatched(val, model, after, trader, capacity, who, place, good, way)
        }),
    decreases rounds,
{
    if rounds > 0 && whole::<N>(1).at_most(capacity) {
        match model.best_trade(trader, capacity, excluded) {
            None => {},
            Some(trade) => {
                lemma_best_wf(model, trader, capacity, excluded);
                let quantity = model.dispatched(trade, capacity);
                if quantity.less(whole(1)) {
                    law_rounds_stay_within_limits(
                        val,
                        limit,
                        model,
                        trader,
                        capacity,
                        excluded.push((trade.seller, trade.buyer, trade.good)),
                        (rounds - 1) as nat,
                        who,
                        place,
                        good,
                        way,
                    );
                } else {
                    let sent = model.after_dispatch(trader, trade, quantity);
                    let one = model.cargo(trader, trade, quantity);
                    lemma_dispatch_wf(model, trader, trade, quantity);
                    lemma_dispatch_keeps_limits(val, limit, model, trader, trade, capacity);
                    law_dispatch_is_within_limits(val, limit, model, trade, capacity);
                    lemma_tally_push(val, model.shipments, one, sent_by(trader));
                    lemma_tally_push(val, model.shipments, one, sent_by(who));
                    lemma_tally_push(val, model.shipments, one, sold_from(place, good));
                    lemma_tally_push(val, model.shipments, one, goes_along(way));
                    let rest = capacity.difference(quantity);
                    law_rounds_stay_within_limits(
                        val,
                        limit,
                        sent,
                        trader,
                        rest,
                        excluded,
                        (rounds - 1) as nat,
                        who,
                        place,
                        good,
                        way,
                    );
                    lemma_rounds_join(
                        val,
                        limit,
                        model,
                        trader,
                        trade,
                        capacity,
                        sent.after_rounds(trader, rest, excluded, (rounds - 1) as nat),
                        who,
                        place,
                        good,
                        way,
                    );
                }
            },
        }
    }
}

/// One dispatch and the rounds behind it are rounds again.
proof fn lemma_rounds_join<N: Number>(
    val: spec_fn(N) -> real,
    limit: real,
    model: WorldModel<N>,
    trader: TraderId,
    trade: TradeOpportunity<N>,
    capacity: N,
    after: WorldModel<N>,
    who: TraderId,
    place: SettlementId,
    good: Good,
    way: RouteId,
)
    requires
        linear_within(val, limit),
        limit >= 1real,
        model.trade_wf(trade),
        within_limits(val, limit, model),
        0real <= val(capacity) <= limit,
        !model.dispatched(trade, capacity).less(whole(1)),
        well_dispatched(
            val,
            model.after_dispatch(trader, trade, model.dispatched(trade, capacity)),
            after,
            trader,
            capacity.difference(model.dispatched(trade, capacity)),
            who,
            place,
            good,
            way,
        ),
    ensures
        well_dispatched(val, model, after, trader, capacity, who, place, good, way),
{
    let quantity = model.dispatched(trade, capacity);
    let sent = model.after_dispatch(trader, trade, quantity);
    let one = model.cargo(trader, trade, quantity);
    law_dispatch_is_within_limits(val, limit, model, trade, capacity);
    lemma_tally_push(val, model.shipments, one, sent_by(trader));
    lemma_tally_push(val, model.shipments, one, sent_by(who));
    lemma_tally_push(val, model.shipments, one, sold_from(place, good));
    lemma_tally_push(val, model.shipments, one, goes_along(way));
    let _ = model.settlements[place as int].stockpiles.at_or(good, whole(0));
    let _ = model.routes[way as int];
    let room = model.routes[trade.route as int];
    assert(val(room.used_capacity_this_month.sum(quantity)) == val(room.used_capacity_this_month)
        + val(quantity));
    assert(val(model.stock(trade.seller, trade.good).difference(quantity)) == val(
        model.stock(trade.seller, trade.good),
    ) - val(quantity));
    assert(sent.shipments[model.shipments.len() as int] == one);
    assert forall|k: int| 0 <= k < model.shipments.len() implies #[trigger] after.shipments[k]
        == model.shipments[k] by {
        assert(sent.shipments[k] == model.shipments[k]);
    }
    assert forall|k: int| model.shipments.len() <= k < after.shipments.len() implies {
        &&& (#[trigger] after.shipments[k]).trader == trader
        &&& val(after.shipments[k].quantity) >= 1real
        &&& is_whole(val(after.shipments[k].quantity))
    } by {
        if k == model.shipments.len() {
            assert(after.shipments[k] == sent.shipments[k]);
        }
    }
}

/// What trading, from one state of the world to another, does to stores, routes and
/// shipments, where the first `n` traders have dispatched; `who`, `place`, `good`
/// and `way` are a trader, a settlement, a good and a route to look at.
pub open spec fn well_traded<N: Number>(
    val: spec_fn(N) -> real,
    before: WorldModel<N>,
    after: WorldModel<N>,
    n: int,
    who: TraderId,
    place: SettlementId,
    good: Good,
    way: RouteId,
) -> bool {
    let sent = tally(val, after.shipments, sent_by(who)) - tally(
        val,
        before.shipments,
        sent_by(who),
    );
    &&& goes_on(before.shipments, after.shipments)
    &&& forall|k: int|
        before.shipments.len() <= k < after.shipments.len() ==> {
            &&& val((#[trigger] after.shipments[k]).quantity) >= 1real
            &&& is_whole(val(after.shipments[k].quantity))
        }
    &&& who < n ==> 0real <= sent <= val(before.traders[who as int].trade_capacity)
    &&& who >= n ==> sent == 0real
    &&& place < before.settlements.len() ==> val(after.stock(place, good)) + tally(
        val,
        after.shipments,
        sold_from(place, good),
    ) == val(before.stock(place, good)) + tally(val, before.shipments, sold_from(place, good))
    &&& way < before.routes.len() ==> val(after.routes[way as int].used_capacity_this_month) - tally(
        val,
        after.shipments,
        goes_along(way),
    ) == val(before.routes[way as int].used_capacity_this_month) - tally(
        val,
        before.shipments,
        goes_along(way),
    )
}

/// Every trader's capacity is in range, and none is below zero.
pub open spec fn able<N: Number>(
    val: spec_fn(N) -> real,
    limit: real,
    model: WorldModel<N>,
) -> bool {
    forall|i: int|
        0 <= i < model.traders.len() ==> 0real <= val(
            (#[trigger] model.traders[i]).trade_capacity,
        ) <= limit
}

proof fn lemma_trading_keeps_limits<N: Number>(
    val: spec_fn(N) -> real,
    limit: real,
    model: WorldModel<N>,
    n: int,
    who: TraderId,
    place: SettlementId,
    good: Good,
    way: RouteId,
)
    requires
        linear_within(val, limit),
        limit >= 1real,
        model.wf(),
        within_limits(val, limit, model),
        able(val, limit, model),
        0 <= n <= model.traders.len(),
    ensures
        ({
            let after = model.after_trading_of(n);
            &&& within_limits(val, limit, after)
            &&& after.wf()
            &&& after.traders == model.traders
            &&& after.settlements.len() == model.settlements.len()
            &&& after.routes.len() == model.routes.len()
            &&& well_traded(val, model, after, n, who, place, good, way)
        }),
    decreases n,
{
    if n > 0 {
        lemma_trading_keeps_limits(val, limit, model, n - 1, who, place, good, way);
        let before = model.after_trading_of(n - 1);
        let trader = (n - 1) as TraderId;
        assert(0real <= val(model.traders[n - 1].trade_capacity) <= limit);
        law_rounds_stay_within_limits(
            val,
            limit,
            before,
            trader,
            before.traders[n - 1].trade_capacity,
            Seq::empty(),
            MAX_ROUNDS as nat,
            who,
            place,
            good,
            way,
        );
        let after = model.after_trading_of(n);
        assert forall|k: int| 0 <= k < model.shipments.len() implies #[trigger] after.shipments[k]
            == model.shipments[k] by {
            assert(before.shipments[k] == model.shipments[k]);
        }
        assert forall|k: int| model.shipments.len() <= k < after.shipments.len() implies {
            &&& val((#[trigger] after.shipments[k]).quantity) >= 1real
            &&& is_whole(val(after.shipments[k].quantity))
        } by {
            if k < before.shipments.len() {
                assert(after.shipments[k] == before.shipments[k]);
            }
        }
    }
}

/// Law: when all traders have dispatched, no store is overdrawn and no route is
/// overfull; the new shipments are whole numbers of units, each at least one; those
/// of each trader are together no more than the trader's capacity; what left a store
/// is what was sent from it, and what fills a route is what was sent along it.
pub proof fn law_trading_stays_within_limits<N: Number>(
    val: spec_fn(N) -> real,
    limit: real,
    model: WorldModel<N>,
    who: TraderId,
    place: SettlementId,
    good: Good,
    way: RouteId,
)
    requires
        linear_within(val, limit),
        limit >= 1real,
        model.wf(),
        within_limits(val, limit, model),
        able(val, limit, model),
        who < model.traders.len(),
    ensures
        within_limits(val, limit, model.after_trading()),
        well_traded(
            val,
            model,
            model.after_trading(),
            model.traders.len() as int,
            who,
            place,
            good,
            way,
        ),
{
    lemma_trading_keeps_limits(
        val,
        limit,
        model,
        model.traders.len() as int,
        who,
        place,
        good,
        way,
    );
}

/// Law: trading fills no store: no settlement has more of a good afterwards than
/// before.
pub proof fn law_trading_fills_no_store<N: Number>(
    val: spec_fn(N) -> real,
    limit: real,
    model: WorldModel<N>,
    place: SettlementId,
    good: Good,
)
    requires
        linear_within(val, limit),
        limit >= 1real,
        model.wf(),
        within_limits(val, limit, model),
        able(val, limit, model),
        place < model.settlements.len(),
    ensures
        val(model.after_trading().stock(place, good)) <= val(model.stock(place, good)),
{
    let after = model.after_trading();
    lemma_trading_keeps_limits(
        val,
        limit,
        model,
        model.traders.len() as int,
        0,
        place,
        good,
        0,
    );
    lemma_tally_grows(val, model.shipments, after.shipments, sold_from(place, good));
}

/// Shipments that are added add to every tally.
proof fn lemma_tally_grows<N: Number>(
    val: spec_fn(N) -> real,
    before: Seq<Shipment<N>>,
    after: Seq<Shipment<N>>,
    keep: spec_fn(Shipment<N>) -> bool,
)
    requires
        goes_on(before, after),
        forall|k: int|
            before.len() <= k < after.len() ==> val((#[trigger] after[k]).quantity) >= 1real,
    ensures
        tally(val, before, keep) <= tally(val, after, keep),
    decreases after.len(),
{
    if after.len() == before.len() {
        assert(after =~= before);
    } else {
        lemma_tally_grows(val, before, after.drop_last(), keep);
    }
}

/// Law: a trader's dispatching comes to an end by itself.  Each round sends off
/// at least one unit of the capacity or rules out one more trade, so further
/// rounds change nothing.
pub proof fn law_rounds_come_to_an_end<N: Number>(
    val: spec_fn(N) -> real,
    limit: real,
    model: WorldModel<N>,
    trader: TraderId,
    capacity: N,
    excluded: Seq<Deal>,
    rounds: nat,
    more: nat,
)
    requires
        linear_within(val, limit),
        limit >= 1real,
        model.wf(),
        trader < model.traders.len(),
        within_limits(val, limit, model),
        0real <= val(capacity) <= limit,
        rounds as real > val(capacity) + open_deals(
            model.routes,
            excluded,
            6 * model.routes.len() as int,
        ) as real,
    ensures
        model.after_rounds(trader, capacity, excluded, rounds + more) == model.after_rounds(
            trader,
            capacity,
            excluded,
            rounds,
        ),
    decreases rounds,
{
    let n = 6 * model.routes.len() as int;
    assert(val(whole::<N>(1)) == 1real);
    if whole::<N>(1).at_most(capacity) {
        match model.best_trade(trader, capacity, excluded) {
            None => {},
            Some(trade) => {
                lemma_best_wf(model, trader, capacity, excluded);
                let quantity = model.dispatched(trade, capacity);
                assert((rounds + more - 1) as nat == (rounds - 1) as nat + more);
                if quantity.less(whole(1)) {
                    let deal = (trade.seller, trade.buyer, trade.good);
                    lemma_best_is_an_offer(model, trader, capacity, excluded, n);
                    let k = choose|k: int|
                        0 <= k < n && #[trigger] model.offer(trader, capacity, excluded, k)
                            == Some(trade);
                    assert(deal_at(model.routes, k) == deal);
                    lemma_deal_ruled_out(model.routes, excluded, deal, n);
                    law_rounds_come_to_an_end(
                        val,
                        limit,
                        model,
                        trader,
                        capacity,
                        excluded.push(deal),
                        (rounds - 1) as nat,
                        more,
                    );
                } else {
                    let sent = model.after_dispatch(trader, trade, quantity);
                    lemma_dispatch_wf(model, trader, trade, quantity);
                    lemma_same_ends(model.routes, sent.routes, excluded, n);
                    lemma_dispatch_keeps_limits(val, limit, model, trader, trade, capacity);
                    law_dispatch_is_within_limits(val, limit, model, trade, capacity);
                    law_rounds_come_to_an_end(
                        val,
                        limit,
                        sent,
                        trader,
                        capacity.difference(quantity),
                        excluded,
                        (rounds - 1) as nat,
                        more,
                    );
                }
            },
        }
    }
}

/// Law: the bound on the rounds of a month is out of reach for every trader whose
/// capacity and number of possible trades stay below it.
pub proof fn law_month_has_rounds_enough<N: Number>(
    val: spec_fn(N) -> real,
    limit: real,
    model: WorldModel<N>,
    trader: TraderId,
    more: nat,
)
    requires
        linear_within(val, limit),
        limit >= 1real,
        model.wf(),
        trader < model.traders.len(),
        within_limits(val, limit, model),
        able(val, limit, model),
        MAX_ROUNDS as real > val(model.traders[trader as int].trade_capacity) + (6
            * model.routes.len()) as real,
    ensures
        model.after_trading_by(trader) == model.after_rounds(
            trader,
            model.traders[trader as int].trade_capacity,
            Seq::empty(),
            MAX_ROUNDS as nat + more,
        ),
{
    lemma_open_deals_bounded(model.routes, Seq::empty(), 6 * model.routes.len() as int);
    law_rounds_come_to_an_end(
        val,
        limit,
        model,
        trader,
        model.traders[trader as int].trade_capacity,
        Seq::empty(),
        MAX_ROUNDS as nat,
        more,
    );
}

/// The world with one trader bolder or more cautious.
pub open spec fn with_boldness<N: Number>(
    model: WorldModel<N>,
    trader: TraderId,
    boldness: N,
) -> WorldModel<N> {
    WorldModel {
        traders: model.traders.update(
            trader as int,
            TraderModel { risk_tolerance: boldness, ..model.traders[trader as int] },
        ),
        ..model
    }
}

/// The trader sees both ends of the route, whose hazard is a probability and whose
/// months of travel are few enough to be counted.
pub open spec fn familiar<N: Number>(
    val: spec_fn(N) -> real,
    judge: TraderModel<N>,
    route: Route<N>,
) -> bool {
    &&& judge.sees(route.a) && judge.sees(route.b)
    &&& 0real <= val(route.monthly_incident_rate) <= 1real
    &&& route.travel_months <= i32::MAX
}

/// Bolder traders mark trades down less for their risk, and move for a smaller
/// spread.
proof fn lemma_boldness<N: Number>(
    val: spec_fn(N) -> real,
    limit: real,
    unit: real,
    hazard: N,
    months: u32,
    pressure: N,
    shy: N,
    bold: N,
)
    requires
        linear_within(val, limit),
        rounds_down(val, limit, unit),
        keeps_order(val),
        limit >= 2real,
        0real <= val(hazard) <= 1real,
        months <= i32::MAX,
        0real <= val(pressure) <= 1real,
        0real <= val(shy) <= val(bold) <= 1real,
    ensures
        0real <= val(risk_discount(hazard, months, shy)) <= val(
            risk_discount(hazard, months, bold),
        ),
        val(least_spread(bold, pressure)) <= val(least_spread(shy, pressure)),
{
    let one = whole::<N>(1);
    assert(val(one) == 1real);
    let safe = one.difference(hazard).whole_power(months as i32);
    assert(0real <= val(safe) <= 1real) by {
        assert(val(one.difference(hazard)) == 1real - val(hazard));
        reveal(keeps_order);
    }
    let risk = one.difference(safe);
    assert(val(risk) == 1real - val(safe));
    let (s, b) = (one.difference(shy), one.difference(bold));
    assert(val(s) == 1real - val(shy) && val(b) == 1real - val(bold));
    assert(0real <= val(risk.product(b)) <= val(risk.product(s))) by {
        reveal(keeps_order);
    }
    lemma_products_in_order(val(risk), 1real, val(s), 1real);
    lemma_product(val, limit, unit, risk, s);
    let third = hundredths::<N>(30).product(pressure);
    assert(val(hundredths::<N>(30)) * 100real == 30real && val(hundredths::<N>(130)) * 100real
        == 130real);
    lemma_products_in_order(val(hundredths::<N>(30)), 3real / 10real, val(pressure), 1real);
    lemma_product(val, limit, unit, hundredths::<N>(30), pressure);
    let (x, y) = (
        hundredths::<N>(130).difference(shy).difference(third),
        hundredths::<N>(130).difference(bold).difference(third),
    );
    assert(0real <= val(y) <= val(x));
    assert(val(hundredths::<N>(MIN_HEURISTIC_SPREAD_PERCENT)) * 100real == 50real);
    reveal(keeps_order);
}

/// How pressing a lack is lies between zero and one.
proof fn lemma_urgency_is_a_share<N: Number>(
    val: spec_fn(N) -> real,
    limit: real,
    model: WorldModel<N>,
    buyer: SettlementId,
    good: Good,
)
    requires
        linear_within(val, limit),
        limit >= 2real,
    ensures
        0real <= val(urgency(model.settlements[buyer as int], good)) <= 1real,
{
    assert(val(whole::<N>(0)) == 0real && val(whole::<N>(1)) == 1real && val(whole::<N>(2))
        == 2real);
}

/// A bolder trader considers what a cautious one does, and finds it no less
/// attractive.
proof fn lemma_bolder_offer<N: Number>(
    val: spec_fn(N) -> real,
    limit: real,
    unit: real,
    model: WorldModel<N>,
    trader: TraderId,
    boldness: N,
    max_capacity: N,
    route: Route<N>,
    seller: SettlementId,
    buyer: SettlementId,
    good: Good,
)
    requires
        linear_within(val, limit),
        rounds_down(val, limit, unit),
        keeps_order(val),
        limit >= 2real,
        trader < model.traders.len(),
        0real <= val(model.traders[trader as int].risk_tolerance) <= val(boldness) <= 1real,
        familiar(val, model.traders[trader as int], route),
        (seller == route.a && buyer == route.b) || (seller == route.b && buyer == route.a),
        model.worthwhile(trader, max_capacity, route, seller, buyer, good),
    ensures
        ({
            let bolder = with_boldness(model, trader, boldness);
            &&& bolder.worthwhile(trader, max_capacity, route, seller, buyer, good)
            &&& val(model.score(trader, max_capacity, route, seller, buyer, good)) <= val(
                bolder.score(trader, max_capacity, route, seller, buyer, good),
            )
        }),
{
    let bolder = with_boldness(model, trader, boldness);
    let judge = model.traders[trader as int];
    let hazard = route.hazard_from(judge.location);
    let pressure = urgency(model.settlements[buyer as int], good);
    assert(val(whole::<N>(0)) == 0real && val(whole::<N>(1)) == 1real);
    lemma_urgency_is_a_share(val, limit, model, buyer, good);
    assert(0real <= val(hazard) <= 1real) by {
        let factor = hundredths::<N>(FAMILIARITY_PERCENT);
        let rate = val(route.monthly_incident_rate);
        assert(val(factor) * 100real == 70real);
        lemma_products_in_order(rate, 1real, val(factor), 1real);
        lemma_product(val, limit, unit, route.monthly_incident_rate, factor);
    }
    lemma_boldness(
        val,
        limit,
        unit,
        hazard,
        route.travel_months,
        pressure,
        judge.risk_tolerance,
        boldness,
    );
    let spread = model.spread(trader, route, seller, buyer, good);
    assert(bolder.spread(trader, route, seller, buyer, good) == spread);
    let quantity = model.suggested(seller, buyer, good, max_capacity);
    let d1 = risk_discount(hazard, route.travel_months, judge.risk_tolerance);
    let d2 = risk_discount(hazard, route.travel_months, boldness);
    let weight = hundredths::<N>(40).sum(hundredths::<N>(60).product(pressure));
    assert(val(weight) >= 0real) by {
        assert(val(hundredths::<N>(60)) * 100real == 60real && val(hundredths::<N>(40)) * 100real
            == 40real);
        lemma_products_in_order(val(hundredths::<N>(60)), 1real, val(pressure), 1real);
        lemma_product(val, limit, unit, hundredths::<N>(60), pressure);
    }
    let gain = spread.product(quantity);
    let (first, second) = (gain.product(d1), gain.product(d2));
    assert(val(quantity) >= 1real);
    assert(val(first.product(weight)) > 0real);
    reveal(keeps_order);
    if val(spread) <= 0real {
        assert(val(gain) <= 0real);
        assert(val(first) <= 0real);
        assert(val(first.product(weight)) <= 0real);
    }
    assert(0real <= val(spread.product(quantity)));
    assert(0real <= val(first) <= val(second));
    assert(val(first.product(weight)) <= val(second.product(weight)));
}

/// Law: a bolder trader never refuses or marks down what a cautious one would take,
/// where both quotes are fresh to them.
pub proof fn law_bolder_traders_refuse_nothing_more<N: Number>(
    val: spec_fn(N) -> real,
    limit: real,
    unit: real,
    model: WorldModel<N>,
    trader: TraderId,
    boldness: N,
    max_capacity: N,
    excluded: Seq<Deal>,
)
    requires
        linear_within(val, limit),
        rounds_down(val, limit, unit),
        keeps_order(val),
        limit >= 2real,
        trader < model.traders.len(),
        0real <= val(model.traders[trader as int].risk_tolerance) <= val(boldness) <= 1real,
        forall|i: int|
            0 <= i < model.routes.len() ==> familiar(
                val,
                model.traders[trader as int],
                #[trigger] model.routes[i],
            ),
        model.best_trade(trader, max_capacity, excluded) is Some,
    ensures
        ({
            let bolder = with_boldness(model, trader, boldness);
            let found = bolder.best_trade(trader, max_capacity, excluded);
            &&& found is Some
            &&& val(found->0.score) >= val(
                (model.best_trade(trader, max_capacity, excluded)->0).score,
            )
        }),
{
    let n = 6 * model.routes.len() as int;
    let bolder = with_boldness(model, trader, boldness);
    lemma_best_is_an_offer(model, trader, max_capacity, excluded, n);
    let k = choose|k: int|
        0 <= k < n && #[trigger] model.offer(trader, max_capacity, excluded, k)
            == model.best_of(trader, max_capacity, excluded, n);
    let route = model.routes[k / 6];
    assert(familiar(val, model.traders[trader as int], route));
    let (seller, buyer, good) = deal_at(model.routes, k);
    lemma_bolder_offer(
        val,
        limit,
        unit,
        model,
        trader,
        boldness,
        max_capacity,
        route,
        seller,
        buyer,
        good,
    );
    lemma_best_is_best(val, bolder, trader, max_capacity, excluded, n, k);
}

} // verus!
