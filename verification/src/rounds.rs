//! When a trader is done for the month.

use crate::number::{as_real, fits, linear_within, whole, Number};
use crate::route::Route;
use crate::trade::{
    lemma_best_is_an_offer, lemma_best_wf, lemma_dispatch_wf, Deal, TradeOpportunity, MAX_ROUNDS,
};
use crate::trader::TraderId;
use crate::trading::{
    able, deal_at, law_dispatch_is_within_limits, law_rounds_stay_within_limits,
    lemma_deal_ruled_out, lemma_dispatch_keeps_limits, lemma_open_deals_bounded, lemma_same_ends, lemma_tally_push,
    open_deals, sent_by, tally, within_limits,
};
use crate::world::WorldModel;
use vstd::prelude::*;

verus! {

/// The room that is left on a route.
pub open spec fn room<N: Number>(val: spec_fn(N) -> real, route: Route<N>) -> real {
    val(route.capacity_per_month) - val(route.used_capacity_this_month)
}

/// Not a whole unit can go: some route between the two places has less room than that, or
/// the buyer cannot pay for it.
pub open spec fn blocked<N: Number>(
    val: spec_fn(N) -> real,
    model: WorldModel<N>,
    deal: Deal,
) -> bool {
    exists|i: int|
        {
            let route = #[trigger] model.routes[i];
            let means = model.settlements[deal.1 as int].buying_power();
            &&& 0 <= i < model.routes.len()
            &&& (route.a == deal.0 && route.b == deal.1) || (route.b == deal.0 && route.a
                == deal.1)
            &&& room(val, model.routes[route.id as int]) < 1real || val(
                means.quotient(model.price_at(deal.1, deal.2)),
            ) < 1real
        }
}

/// Routes are no emptier, and what settlements can pay, make and ask is the same.
pub open spec fn tighter<N: Number>(
    val: spec_fn(N) -> real,
    before: WorldModel<N>,
    after: WorldModel<N>,
) -> bool {
    &&& after.routes.len() == before.routes.len()
    &&& forall|i: int|
        0 <= i < before.routes.len() ==> {
            &&& (#[trigger] after.routes[i]).id == before.routes[i].id
            &&& after.routes[i].a == before.routes[i].a
            &&& after.routes[i].b == before.routes[i].b
            &&& room(val, after.routes[i]) <= room(val, before.routes[i])
        }
    &&& after.settlements.len() == before.settlements.len()
    &&& forall|i: int|
        0 <= i < before.settlements.len() ==> {
            &&& (#[trigger] after.settlements[i]).money == before.settlements[i].money
            &&& after.settlements[i].production == before.settlements[i].production
            &&& after.settlements[i].prices == before.settlements[i].prices
        }
}

proof fn lemma_still_blocked<N: Number>(
    val: spec_fn(N) -> real,
    before: WorldModel<N>,
    after: WorldModel<N>,
    deal: Deal,
)
    requires
        before.wf(),
        tighter(val, before, after),
        blocked(val, before, deal),
    ensures
        blocked(val, after, deal),
{
    let i = choose|i: int|
        {
            let route = #[trigger] before.routes[i];
            let means = before.settlements[deal.1 as int].buying_power();
            &&& 0 <= i < before.routes.len()
            &&& (route.a == deal.0 && route.b == deal.1) || (route.b == deal.0 && route.a
                == deal.1)
            &&& room(val, before.routes[route.id as int]) < 1real || val(
                means.quotient(before.price_at(deal.1, deal.2)),
            ) < 1real
        };
    assert(before.route_wf(before.routes[i]));
    let route = after.routes[i];
    assert(route.id == before.routes[i].id);
    let id = route.id as int;
    assert(room(val, after.routes[id]) <= room(val, before.routes[id]));
    let (x, y) = (before.settlements[deal.1 as int], after.settlements[deal.1 as int]);
    assert(x.money == y.money && x.production == y.production && x.prices == y.prices);
    assert(x.buying_power() == y.buying_power());
}

proof fn lemma_tighter_on<N: Number>(
    val: spec_fn(N) -> real,
    a: WorldModel<N>,
    b: WorldModel<N>,
    c: WorldModel<N>,
)
    requires
        tighter(val, a, b),
        tighter(val, b, c),
    ensures
        tighter(val, a, c),
{
    assert forall|i: int| 0 <= i < a.routes.len() implies {
        &&& (#[trigger] c.routes[i]).id == a.routes[i].id
        &&& c.routes[i].a == a.routes[i].a
        &&& c.routes[i].b == a.routes[i].b
        &&& room(val, c.routes[i]) <= room(val, a.routes[i])
    } by {
        assert(room(val, b.routes[i]) <= room(val, a.routes[i]));
    }
    assert forall|i: int| 0 <= i < a.settlements.len() implies {
        &&& (#[trigger] c.settlements[i]).money == a.settlements[i].money
        &&& c.settlements[i].production == a.settlements[i].production
        &&& c.settlements[i].prices == a.settlements[i].prices
    } by {
        assert(b.settlements[i].money == a.settlements[i].money);
    }
}

/// A trade of which nothing goes is blocked.
proof fn lemma_nothing_goes<N: Number>(
    val: spec_fn(N) -> real,
    limit: real,
    model: WorldModel<N>,
    trader: TraderId,
    capacity: N,
    excluded: Seq<Deal>,
    trade: TradeOpportunity<N>,
)
    requires
        linear_within(val, limit),
        limit >= 1real,
        model.wf(),
        within_limits(val, limit, model),
        1real <= val(capacity) <= limit,
        model.best_trade(trader, capacity, excluded) == Some(trade),
        model.dispatched(trade, capacity).less(whole(1)),
    ensures
        blocked(val, model, (trade.seller, trade.buyer, trade.good)),
{
    let n = 6 * model.routes.len() as int;
    lemma_best_wf(model, trader, capacity, excluded);
    lemma_best_is_an_offer(model, trader, capacity, excluded, n);
    let k = choose|k: int|
        0 <= k < n && #[trigger] model.offer(trader, capacity, excluded, k)
            == model.best_of(trader, capacity, excluded, n);
    let i = k / 6;
    let route = model.routes[i];
    assert(model.route_wf(route));
    assert(trade.route == route.id);
    assert(val(whole::<N>(1)) == 1real);
    let way = model.routes[route.id as int];
    assert(0real <= val(way.used_capacity_this_month) <= val(way.capacity_per_month) <= limit);
    let stock = model.stock(trade.seller, trade.good);
    let _ = model.settlements[trade.seller as int].stockpiles.at_or(trade.good, whole(0));
    assert(0real <= val(stock) <= limit);
    let means = model.settlements[trade.buyer as int].buying_power();
    let price = model.price_at(trade.buyer, trade.good);
    let left = way.capacity_per_month.difference(way.used_capacity_this_month);
    assert(val(left) == room(val, way));
    let all = trade.suggested_quantity.smaller(stock).smaller(means.quotient(price)).smaller(
        left,
    ).smaller(capacity);
    assert(model.dispatched(trade, capacity) == all.floored());
    assert(val(trade.suggested_quantity) >= 1real);
    assert(val(trade.suggested_quantity) <= val(stock));
    if val(all) >= 1real {
        assert(fits(limit, val(all)));
        let j = choose|j: int| #[trigger] as_real(j) == val(all.floored());
        assert(j as real > 0real);
        assert(j >= 1);
        assert(val(all.floored()) >= 1real);
    }
    assert(val(all) < 1real);
    assert(model.routes[i] == route);
}

/// What one dispatch leaves to the next.
proof fn lemma_dispatch_tightens<N: Number>(
    val: spec_fn(N) -> real,
    limit: real,
    model: WorldModel<N>,
    trader: TraderId,
    trade: TradeOpportunity<N>,
    capacity: N,
)
    requires
        linear_within(val, limit),
        limit >= 1real,
        model.trade_wf(trade),
        within_limits(val, limit, model),
        0real <= val(capacity) <= limit,
        !model.dispatched(trade, capacity).less(whole(1)),
    ensures
        tighter(
            val,
            model,
            model.after_dispatch(trader, trade, model.dispatched(trade, capacity)),
        ),
        val(capacity.difference(model.dispatched(trade, capacity))) == val(capacity) - val(
            model.dispatched(trade, capacity),
        ),
        0real <= val(capacity) - val(model.dispatched(trade, capacity)),
{
    law_dispatch_is_within_limits(val, limit, model, trade, capacity);
    let quantity = model.dispatched(trade, capacity);
    let after = model.after_dispatch(trader, trade, quantity);
    let way = model.routes[trade.route as int];
    assert(0real <= val(way.used_capacity_this_month) <= val(way.capacity_per_month) <= limit);
    assert forall|i: int| 0 <= i < model.routes.len() implies {
        &&& (#[trigger] after.routes[i]).id == model.routes[i].id
        &&& after.routes[i].a == model.routes[i].a
        &&& after.routes[i].b == model.routes[i].b
        &&& room(val, after.routes[i]) <= room(val, model.routes[i])
    } by {
        let _ = model.routes[i];
    }
}

/// What there is to say of a trader's month when the rounds are over: so much capacity is
/// `left`, and so many deals are `ruled` out.
pub open spec fn done<N: Number>(
    val: spec_fn(N) -> real,
    before: WorldModel<N>,
    after: WorldModel<N>,
    trader: TraderId,
    capacity: N,
    excluded: Seq<Deal>,
    left: N,
    ruled: Seq<Deal>,
) -> bool {
    &&& val(left) == val(capacity) - (tally(val, after.shipments, sent_by(trader)) - tally(
        val,
        before.shipments,
        sent_by(trader),
    ))
    &&& val(left) < 1real || after.best_trade(trader, left, ruled) is None
    &&& excluded.len() <= ruled.len()
    &&& forall|k: int| 0 <= k < excluded.len() ==> #[trigger] ruled[k] == excluded[k]
    &&& forall|k: int|
        excluded.len() <= k < ruled.len() ==> blocked(val, after, #[trigger] ruled[k])
}

proof fn lemma_done<N: Number>(
    val: spec_fn(N) -> real,
    limit: real,
    model: WorldModel<N>,
    trader: TraderId,
    capacity: N,
    excluded: Seq<Deal>,
    rounds: nat,
) -> (r: (N, Seq<Deal>))
    requires
        linear_within(val, limit),
        limit >= 1real,
        model.wf(),
        trader < model.traders.len(),
        within_limits(val, limit, model),
        0real <= val(capacity) <= limit,
        rounds as real > val(capacity) + open_deals(
            model.routes,
            excluded,
            6 * model.routes.len() as int,
        ) as real,
    ensures
        done(
            val,
            model,
            model.after_rounds(trader, capacity, excluded, rounds),
            trader,
            capacity,
            excluded,
            r.0,
            r.1,
        ),
        tighter(val, model, model.after_rounds(trader, capacity, excluded, rounds)),
    decreases rounds,
{
    let n = 6 * model.routes.len() as int;
    assert(val(whole::<N>(1)) == 1real);
    let after = model.after_rounds(trader, capacity, excluded, rounds);
    if !whole::<N>(1).at_most(capacity) {
        (capacity, excluded)
    } else {
        match model.best_trade(trader, capacity, excluded) {
            None => (capacity, excluded),
            Some(trade) => {
                lemma_best_wf(model, trader, capacity, excluded);
                let quantity = model.dispatched(trade, capacity);
                if quantity.less(whole(1)) {
                    let deal = (trade.seller, trade.buyer, trade.good);
                    lemma_nothing_goes(val, limit, model, trader, capacity, excluded, trade);
                    lemma_best_is_an_offer(model, trader, capacity, excluded, n);
                    let k = choose|k: int|
                        0 <= k < n && #[trigger] model.offer(trader, capacity, excluded, k)
                            == Some(trade);
                    assert(deal_at(model.routes, k) == deal);
                    lemma_deal_ruled_out(model.routes, excluded, deal, n);
                    let out = excluded.push(deal);
                    let r = lemma_done(
                        val,
                        limit,
                        model,
                        trader,
                        capacity,
                        out,
                        (rounds - 1) as nat,
                    );
                    lemma_still_blocked(val, model, after, deal);
                    assert forall|k: int| 0 <= k < excluded.len() implies #[trigger] r.1[k]
                        == excluded[k] by {
                        assert(r.1[k] == out[k]);
                    }
                    assert(r.1[excluded.len() as int] == out[excluded.len() as int]);
                    r
                } else {
                    let sent = model.after_dispatch(trader, trade, quantity);
                    lemma_dispatch_wf(model, trader, trade, quantity);
                    lemma_same_ends(model.routes, sent.routes, excluded, n);
                    lemma_dispatch_keeps_limits(val, limit, model, trader, trade, capacity);
                    law_dispatch_is_within_limits(val, limit, model, trade, capacity);
                    lemma_dispatch_tightens(val, limit, model, trader, trade, capacity);
                    let r = lemma_done(
                        val,
                        limit,
                        sent,
                        trader,
                        capacity.difference(quantity),
                        excluded,
                        (rounds - 1) as nat,
                    );
                    lemma_tighter_on(val, model, sent, after);
                    lemma_tally_push(
                        val,
                        model.shipments,
                        model.cargo(trader, trade, quantity),
                        sent_by(trader),
                    );
                    r
                }
            },
        }
    }
}

/// Law: a trader goes on until they are done: when the month's dispatching is over, less
/// than a unit of their capacity is left, or no trade is worth their while but those of
/// which not a whole unit can go, since a route is full or the buyer cannot pay.
pub proof fn law_traders_go_on_until_done<N: Number>(
    val: spec_fn(N) -> real,
    limit: real,
    model: WorldModel<N>,
    trader: TraderId,
)
    requires
        linear_within(val, limit),
        limit >= 1real,
        model.wf(),
        trader < model.traders.len(),
        within_limits(val, limit, model),
        able(val, limit, model),
        18_446_744_073_709_551_615real > val(model.traders[trader as int].trade_capacity) + (6
            * model.routes.len()) as real,
    ensures
        exists|left: N, ruled: Seq<Deal>|
            #[trigger] done(
                val,
                model,
                model.after_trading_by(trader),
                trader,
                model.traders[trader as int].trade_capacity,
                Seq::empty(),
                left,
                ruled,
            ),
{
    lemma_open_deals_bounded(model.routes, Seq::empty(), 6 * model.routes.len() as int);
    let _ = model.traders[trader as int].trade_capacity;
    let r = lemma_done(
        val,
        limit,
        model,
        trader,
        model.traders[trader as int].trade_capacity,
        Seq::empty(),
        MAX_ROUNDS as nat,
    );
    let capacity = model.traders[trader as int].trade_capacity;
    assert(model.after_trading_by(trader) == model.after_rounds(
        trader,
        capacity,
        Seq::empty(),
        MAX_ROUNDS as nat,
    ));
    assert(done(
        val,
        model,
        model.after_trading_by(trader),
        trader,
        capacity,
        Seq::empty(),
        r.0,
        r.1,
    ));
}

/// Law: a trader sends off the best trade first, as much of it as can go, and goes on with
/// the capacity that is left; where not a unit of it can go, they look for the next best
/// without it.
pub proof fn law_best_trade_goes_first<N: Number>(
    val: spec_fn(N) -> real,
    limit: real,
    model: WorldModel<N>,
    trader: TraderId,
    capacity: N,
    excluded: Seq<Deal>,
    rounds: nat,
)
    requires
        linear_within(val, limit),
        limit >= 1real,
        model.wf(),
        trader < model.traders.len(),
        within_limits(val, limit, model),
        1real <= val(capacity) <= limit,
        rounds > 0,
        model.best_trade(trader, capacity, excluded) is Some,
    ensures
        ({
            let trade = model.best_trade(trader, capacity, excluded)->0;
            let quantity = model.dispatched(trade, capacity);
            let after = model.after_rounds(trader, capacity, excluded, rounds);
            let first = after.shipments[model.shipments.len() as int];
            &&& val(quantity) >= 1real ==> {
                &&& after.shipments.len() > model.shipments.len()
                &&& first.trader == trader
                &&& first.seller == trade.seller
                &&& first.buyer == trade.buyer
                &&& first.good == trade.good
                &&& first.route == trade.route
                &&& first.quantity == quantity
                &&& after == model.after_dispatch(trader, trade, quantity).after_rounds(
                    trader,
                    capacity.difference(quantity),
                    excluded,
                    (rounds - 1) as nat,
                )
            }
            &&& val(quantity) < 1real ==> after == model.after_rounds(
                trader,
                capacity,
                excluded.push((trade.seller, trade.buyer, trade.good)),
                (rounds - 1) as nat,
            )
        }),
{
    assert(val(whole::<N>(1)) == 1real);
    let trade = model.best_trade(trader, capacity, excluded)->0;
    let quantity = model.dispatched(trade, capacity);
    if val(quantity) >= 1real {
        lemma_best_wf(model, trader, capacity, excluded);
        let sent = model.after_dispatch(trader, trade, quantity);
        lemma_dispatch_wf(model, trader, trade, quantity);
        lemma_dispatch_keeps_limits(val, limit, model, trader, trade, capacity);
        lemma_dispatch_tightens(val, limit, model, trader, trade, capacity);
        law_rounds_stay_within_limits(
            val,
            limit,
            sent,
            trader,
            capacity.difference(quantity),
            excluded,
            (rounds - 1) as nat,
            0,
            0,
            trade.good,
            0,
        );
        assert(sent.shipments[model.shipments.len() as int] == model.cargo(
            trader,
            trade,
            quantity,
        ));
    }
}

} // verus!
