//! Money is neither made nor lost.
//!
//! Where a step of the month moves no money, the world's money is the same
//! number before and after, whichever way the number type rounds.  Where money
//! moves, it is the same as far as the arithmetic is exact.

use crate::delivery::{
    after_receipt, invoice, lemma_settled_shape, lemma_travel_wf, moved, paid_share, supplied,
    travel_report, MAX_TRADER_MARGIN_PERCENT,
};
use crate::finance::{
    collected, credited, creditor_pool, debited, debts, headroom, interest_on,
    lemma_collected_shape, lemma_debts_named, lemma_expenses_shape, payable, Debt,
};
use crate::goods::{base_price, Good};
use crate::market::asked;
use crate::month::{
    lemma_expenses_wf, lemma_interest_wf, lemma_price_update_wf, lemma_supply_wf,
};
use crate::laws::law_prices_stay_positive;
use crate::number::{
    exact, fits, hundredths, law_exact_arithmetic_rounds_nothing, lemma_product, linear,
    linear_within, multiplicative, rounds_down, whole, Number,
};
use crate::production::{consumed, lemma_shortfalls_named, lemma_shortfalls_shape};
use crate::settlement::{Settlement, SettlementId};
use crate::shipment::{CargoRoll, Shipment};
use crate::trade::{lemma_best_wf, lemma_dispatch_wf, Deal, MAX_ROUNDS};
use crate::trader::{TraderId, TraderModel};
use crate::world::{lemma_same_names_wf, settlement_money, trader_money, WorldModel};
use vstd::prelude::*;

verus! {

/// Equal balances add up to the same number.
pub proof fn lemma_settlement_money_same<N: Number>(
    before: Seq<Settlement<N>>,
    after: Seq<Settlement<N>>,
    n: int,
)
    requires
        forall|i: int| 0 <= i < n ==> (#[trigger] after[i]).money == before[i].money,
    ensures
        settlement_money(after, n) == settlement_money(before, n),
    decreases n,
{
    if n > 0 {
        lemma_settlement_money_same(before, after, n - 1);
        assert(after[n - 1].money == before[n - 1].money);
    }
}

pub proof fn lemma_trader_money_same<N: Number>(
    before: Seq<TraderModel<N>>,
    after: Seq<TraderModel<N>>,
    n: int,
)
    requires
        forall|i: int| 0 <= i < n ==> (#[trigger] after[i]).money == before[i].money,
    ensures
        trader_money(after, n) == trader_money(before, n),
    decreases n,
{
    if n > 0 {
        lemma_trader_money_same(before, after, n - 1);
        assert(after[n - 1].money == before[n - 1].money);
    }
}

/// One new balance changes the sum by as much as the balance changed.
proof fn lemma_settlement_money_update<N: Number>(
    val: spec_fn(N) -> real,
    settlements: Seq<Settlement<N>>,
    at: int,
    settlement: Settlement<N>,
    n: int,
)
    requires
        linear(val),
        0 <= at < settlements.len(),
        n <= settlements.len(),
    ensures
        val(settlement_money(settlements.update(at, settlement), n)) == val(
            settlement_money(settlements, n),
        ) + if at < n {
            val(settlement.money) - val(settlements[at].money)
        } else {
            0real
        },
    decreases n,
{
    if n > 0 {
        lemma_settlement_money_update(val, settlements, at, settlement, n - 1);
    }
}

proof fn lemma_trader_money_update<N: Number>(
    val: spec_fn(N) -> real,
    traders: Seq<TraderModel<N>>,
    at: int,
    trader: TraderModel<N>,
    n: int,
)
    requires
        linear(val),
        0 <= at < traders.len(),
        n <= traders.len(),
    ensures
        val(trader_money(traders.update(at, trader), n)) == val(trader_money(traders, n))
            + if at < n {
            val(trader.money) - val(traders[at].money)
        } else {
            0real
        },
    decreases n,
{
    if n > 0 {
        lemma_trader_money_update(val, traders, at, trader, n - 1);
    }
}

/// Law: recovery, production, consumption and the shortages that follow move no
/// money, whichever way numbers round.
pub proof fn law_supply_moves_no_money<N: Number>(model: WorldModel<N>)
    requires
        model.wf(),
    ensures
        model.after_supply().total_money() == model.total_money(),
{
    lemma_supply_wf(model);
    let made = model.after_new_month().after_route_reset().after_recovery().after_production();
    let fed = Seq::new(made.settlements.len(), |i: int| consumed(made.settlements[i]));
    let missing = made.all_shortfalls();
    lemma_shortfalls_named(made);
    lemma_shortfalls_shape(fed, missing, missing.len() as int);
    let after = model.after_supply();
    lemma_settlement_money_same(
        model.settlements,
        after.settlements,
        model.settlements.len() as int,
    );
}

/// Law: new prices and the news of them move no money, whichever way numbers
/// round.
pub proof fn law_price_update_moves_no_money<N: Number>(model: WorldModel<N>)
    requires
        model.wf(),
    ensures
        model.after_price_update().total_money() == model.total_money(),
{
    let after = model.after_price_update();
    lemma_settlement_money_same(
        model.settlements,
        after.settlements,
        model.settlements.len() as int,
    );
    assert forall|i: int| 0 <= i < model.traders.len() implies (#[trigger] after.traders[i]).money
        == model.traders[i].money by {
        assert(after.traders[i] == model.after_repricing().informed(i as TraderId));
    }
    lemma_trader_money_same(model.traders, after.traders, model.traders.len() as int);
}

/// Sending shipments off changes no balance, and keeps identifiers and prices.
proof fn lemma_rounds_keep_balances<N: Number>(
    model: WorldModel<N>,
    trader: TraderId,
    capacity: N,
    excluded: Seq<Deal>,
    rounds: nat,
)
    requires
        model.wf(),
        trader < model.traders.len(),
    ensures
        ({
            let after = model.after_rounds(trader, capacity, excluded, rounds);
            &&& after.wf()
            &&& after.traders == model.traders
            &&& after.settlements.len() == model.settlements.len()
            &&& forall|i: int|
                0 <= i < model.settlements.len() ==> {
                    &&& (#[trigger] after.settlements[i]).money == model.settlements[i].money
                    &&& after.settlements[i].prices == model.settlements[i].prices
                }
        }),
    decreases rounds,
{
    if rounds > 0 && whole::<N>(1).at_most(capacity) {
        match model.best_trade(trader, capacity, excluded) {
            None => {},
            Some(trade) => {
                lemma_best_wf(model, trader, capacity, excluded);
                let quantity = model.dispatched(trade, capacity);
                if quantity.less(whole(1)) {
                    lemma_rounds_keep_balances(
                        model,
                        trader,
                        capacity,
                        excluded.push((trade.seller, trade.buyer, trade.good)),
                        (rounds - 1) as nat,
                    );
                } else {
                    lemma_dispatch_wf(model, trader, trade, quantity);
                    lemma_rounds_keep_balances(
                        model.after_dispatch(trader, trade, quantity),
                        trader,
                        capacity.difference(quantity),
                        excluded,
                        (rounds - 1) as nat,
                    );
                }
            },
        }
    }
}

/// What all traders send off changes no balance, and keeps identifiers and prices.
pub proof fn lemma_trading_keeps_balances<N: Number>(model: WorldModel<N>, n: int)
    requires
        model.wf(),
        0 <= n <= model.traders.len(),
    ensures
        ({
            let after = model.after_trading_of(n);
            &&& after.wf()
            &&& after.traders == model.traders
            &&& after.settlements.len() == model.settlements.len()
            &&& forall|i: int|
                0 <= i < model.settlements.len() ==> {
                    &&& (#[trigger] after.settlements[i]).money == model.settlements[i].money
                    &&& after.settlements[i].prices == model.settlements[i].prices
                }
        }),
    decreases n,
{
    if n > 0 {
        lemma_trading_keeps_balances(model, n - 1);
        let before = model.after_trading_of(n - 1);
        lemma_rounds_keep_balances(
            before,
            (n - 1) as TraderId,
            before.traders[n - 1].trade_capacity,
            Seq::empty(),
            MAX_ROUNDS as nat,
        );
    }
}

/// Law: sending shipments off moves no money, whichever way numbers round.
pub proof fn law_trading_moves_no_money<N: Number>(model: WorldModel<N>)
    requires
        model.wf(),
    ensures
        model.after_trading().total_money() == model.total_money(),
{
    lemma_trading_keeps_balances(model, model.traders.len() as int);
    lemma_settlement_money_same(
        model.settlements,
        model.after_trading().settlements,
        model.settlements.len() as int,
    );
}

/// What the payers of interest lost is what was collected.
proof fn lemma_collection_balances<N: Number>(
    val: spec_fn(N) -> real,
    settlements: Seq<Settlement<N>>,
    owed: Seq<Debt<N>>,
    n: int,
)
    requires
        exact(val),
        0 <= n <= owed.len(),
        forall|k: int| 0 <= k < owed.len() ==> (#[trigger] owed[k]).debtor < settlements.len(),
        forall|k: int| 0 <= k < owed.len() ==> val((#[trigger] owed[k]).amount) >= 0real,
    ensures
        val(
            settlement_money(
                collected(settlements, owed, n).settlements,
                settlements.len() as int,
            ),
        ) + val(collected(settlements, owed, n).total) == val(
            settlement_money(settlements, settlements.len() as int),
        ),
        val(collected(settlements, owed, n).total) >= 0real,
    decreases n,
{
    if n > 0 {
        lemma_collection_balances(val, settlements, owed, n - 1);
        lemma_collected_shape(settlements, owed, n - 1);
        let before = collected(settlements, owed, n - 1);
        let debt = owed[n - 1];
        let payer = before.settlements[debt.debtor as int];
        lemma_settlement_money_update(
            val,
            before.settlements,
            debt.debtor as int,
            debited(payer, interest_on(debt)),
            settlements.len() as int,
        );
        assert(val(interest_on(debt)) >= 0real) by {
            reveal(multiplicative);
            let x = val(debt.amount);
            assert(x * (2real / 100real) >= 0real) by (nonlinear_arith)
                requires
                    x >= 0real,
            ;
        }
        assert(val(headroom(payer)) >= 0real);
    }
}

/// Debts are positive.
proof fn lemma_debts_positive<N: Number>(
    val: spec_fn(N) -> real,
    settlements: Seq<Settlement<N>>,
    n: int,
)
    requires
        exact(val),
        0 <= n <= settlements.len(),
    ensures
        forall|k: int|
            0 <= k < debts(settlements, n).len() ==> val(
                (#[trigger] debts(settlements, n)[k]).amount,
            ) > 0real,
    decreases n,
{
    if n > 0 {
        lemma_debts_positive(val, settlements, n - 1);
        let before = debts(settlements, n - 1);
        let all = debts(settlements, n);
        assert forall|k: int| 0 <= k < all.len() implies val((#[trigger] all[k]).amount)
            > 0real by {
            if k < before.len() {
                assert(all[k] == before[k]);
            }
        }
    }
}

/// Shares in proportion to the balances add up to the same proportion of them.
proof fn lemma_credits_add_up<N: Number>(
    val: spec_fn(N) -> real,
    settlements: Seq<Settlement<N>>,
    interest: N,
    pool: N,
    n: int,
)
    requires
        exact(val),
        val(pool) > 0real,
        0 <= n <= settlements.len(),
    ensures
        val(
            settlement_money(
                Seq::new(settlements.len(), |i: int| credited(settlements[i], interest, pool)),
                n,
            ),
        ) == val(settlement_money(settlements, n)) + val(interest) * val(
            creditor_pool(settlements, n),
        ) / val(pool),
    decreases n,
{
    reveal(multiplicative);
    let t = val(interest);
    let p = val(pool);
    if n > 0 {
        lemma_credits_add_up(val, settlements, interest, pool, n - 1);
        let m = val(settlements[n - 1].money);
        let r = val(creditor_pool(settlements, n - 1));
        assert((t * m) / p + (t * r) / p == (t * (r + m)) / p) by (nonlinear_arith)
            requires
                p > 0real,
        ;
    } else {
        assert((t * 0real) / p == 0real) by (nonlinear_arith)
            requires
                p > 0real,
        ;
    }
}

/// Interest that is collected reaches someone: nobody owes, or somebody has a
/// positive balance when it is handed out.
pub open spec fn interest_reaches_someone<N: Number>(model: WorldModel<N>) -> bool {
    model.all_debts().len() == 0 || !model.pool().at_most(whole(0))
}

/// Law: what debtors pay in interest is what creditors receive.
pub proof fn law_interest_conserves_money<N: Number>(
    val: spec_fn(N) -> real,
    model: WorldModel<N>,
)
    requires
        exact(val),
        model.wf(),
        interest_reaches_someone(model),
    ensures
        val(model.after_interest().total_money()) == val(model.total_money()),
{
    if model.all_debts().len() > 0 {
        let n = model.settlements.len() as int;
        let owed = model.all_debts();
        let collection = model.interest();
        lemma_debts_named(model.settlements, n);
        lemma_debts_positive(val, model.settlements, n);
        lemma_collected_shape(model.settlements, owed, owed.len() as int);
        lemma_collection_balances(val, model.settlements, owed, owed.len() as int);
        if model.interest_is_shared() {
            let t = val(collection.total);
            let p = val(model.pool());
            lemma_credits_add_up(val, collection.settlements, collection.total, model.pool(), n);
            assert((t * p) / p == t) by (nonlinear_arith)
                requires
                    p > 0real,
            ;
            assert(model.after_interest().settlements =~= Seq::new(
                collection.settlements.len(),
                |i: int| credited(collection.settlements[i], collection.total, model.pool()),
            ));
        }
    }
}

proof fn lemma_payment_conserves<N: Number>(
    val: spec_fn(N) -> real,
    model: WorldModel<N>,
    trader: int,
    settlement: int,
    amount: N,
)
    requires
        linear(val),
        0 <= trader < model.traders.len(),
        0 <= settlement < model.settlements.len(),
    ensures
        val(model.after_payment(trader, settlement, amount).total_money()) == val(
            model.total_money(),
        ),
{
    let after = model.after_payment(trader, settlement, amount);
    lemma_settlement_money_update(
        val,
        model.settlements,
        settlement,
        after.settlements[settlement],
        model.settlements.len() as int,
    );
    lemma_trader_money_update(
        val,
        model.traders,
        trader,
        after.traders[trader],
        model.traders.len() as int,
    );
    assert(after.settlements =~= model.settlements.update(
        settlement,
        after.settlements[settlement],
    ));
    assert(after.traders =~= model.traders.update(trader, after.traders[trader]));
}

proof fn lemma_expenses_conserve<N: Number>(
    val: spec_fn(N) -> real,
    model: WorldModel<N>,
    n: int,
)
    requires
        exact(val),
        model.wf(),
        0 <= n <= model.traders.len(),
    ensures
        val(model.after_expenses_of(n).total_money()) == val(model.total_money()),
    decreases n,
{
    if n > 0 {
        lemma_expenses_conserve(val, model, n - 1);
        lemma_expenses_shape(model, n - 1);
        let before = model.after_expenses_of(n - 1);
        assert(model.trader_wf(model.traders[n - 1]));
        let trader = (n - 1) as TraderId;
        lemma_payment_conserves(
            val,
            before,
            n - 1,
            before.traders[n - 1].home_base as int,
            before.upkeep(n - 1),
        );
        let kept = before.after_upkeep(trader);
        assert(val(kept.total_money()) == val(before.total_money()));
        lemma_payment_conserves(
            val,
            kept,
            n - 1,
            kept.traders[n - 1].location as int,
            kept.local_spending(n - 1),
        );
    }
}

/// Law: what traders spend is what settlements take in.
pub proof fn law_expenses_conserve_money<N: Number>(val: spec_fn(N) -> real, model: WorldModel<N>)
    requires
        exact(val),
        model.wf(),
    ensures
        val(model.after_expenses().total_money()) == val(model.total_money()),
{
    lemma_expenses_conserve(val, model, model.traders.len() as int);
}

/// Law: the account of a shipment adds up: the seller, the carriers, the trader
/// and the buyer's rebate share the revenue, and the trader's part of it is at
/// most fifteen hundredths.
pub proof fn law_invoice_adds_up<N: Number>(
    val: spec_fn(N) -> real,
    limit: real,
    unit: real,
    shipment: Shipment<N>,
    sell_price: N,
    cost_per_unit: N,
)
    requires
        linear_within(val, limit),
        rounds_down(val, limit, unit),
        limit >= 1real,
        ({
            let bill = invoice(shipment, sell_price, cost_per_unit);
            let gain = val(bill.revenue) - val(bill.purchase);
            &&& fits(limit, val(bill.revenue))
            &&& fits(limit, gain)
            &&& fits(limit, gain - val(bill.transport))
            &&& fits(limit, gain - val(bill.transport) - val(bill.profit))
        }),
    ensures
        ({
            let bill = invoice(shipment, sell_price, cost_per_unit);
            &&& val(bill.purchase) + val(bill.transport) + val(bill.profit) + val(bill.rebate)
                == val(bill.revenue)
            &&& val(bill.profit) <= val(bill.revenue) * (15real / 100real)
            &&& val(bill.rebate) >= 0real
        }),
{
    let bill = invoice(shipment, sell_price, cost_per_unit);
    let margin = hundredths::<N>(MAX_TRADER_MARGIN_PERCENT);
    let revenue = val(bill.revenue);
    assert(val(margin) * 100real == 15real && val(whole::<N>(0)) == 0real);
    assert(revenue * val(margin) == revenue * (15real / 100real)) by (nonlinear_arith)
        requires
            val(margin) * 100real == 15real,
    ;
    lemma_product(val, limit, unit, bill.revenue, margin);
}

/// How far a real is from zero.
spec fn size(x: real) -> real {
    if x < 0real {
        -x
    } else {
        x
    }
}

/// The paid share of a bill is what is paid of it.
proof fn lemma_share_of_the_bill<N: Number>(
    val: spec_fn(N) -> real,
    buyer: Settlement<N>,
    revenue: N,
)
    requires
        exact(val),
        val(revenue) >= 0real,
    ensures
        val(paid_share(buyer, revenue)) * val(revenue) == val(payable(buyer, revenue)),
{
    reveal(multiplicative);
    let (s, r, p) = (
        val(paid_share(buyer, revenue)),
        val(revenue),
        val(payable(buyer, revenue)),
    );
    assert(val(headroom(buyer)) >= 0real);
    if r > 0real {
        assert(s == p / r);
        assert((p / r) * r == p) by (nonlinear_arith)
            requires
                r > 0real,
        ;
    } else {
        assert(s == 0real && p == 0real);
        assert(s * r == 0real) by (nonlinear_arith)
            requires
                s == 0real,
        ;
    }
}

/// Law: when a shipment arrives, what the buyer pays is what the others receive,
/// though the buyer pay only a part of the bill.
pub proof fn law_arrival_conserves_money<N: Number>(
    val: spec_fn(N) -> real,
    model: WorldModel<N>,
    shipment: Shipment<N>,
)
    requires
        exact(val),
        model.wf(),
        model.shipment_wf(shipment),
        val(model.invoice_of(shipment).revenue) >= 0real,
    ensures
        val(model.after_arrival(shipment).total_money()) == val(model.total_money()),
{
    let n = model.settlements.len() as int;
    let bill = model.invoice_of(shipment);
    let share = model.share_paid(shipment);
    let route = model.routes[shipment.route as int];
    assert(model.route_wf(route));
    let toll = bill.transport.product(share).quotient(whole(2));
    let buyer = debited(model.settlements[shipment.buyer as int], bill.revenue);
    let delivered = supplied(buyer, shipment, shipment.quantity.product(share));
    let s0 = model.settlements.update(shipment.buyer as int, delivered);
    let s1 = after_receipt(s0, shipment.buyer, bill.rebate.product(share));
    let s2 = after_receipt(s1, shipment.seller, bill.purchase.product(share));
    let s3 = after_receipt(s2, route.a, toll);
    let s4 = after_receipt(s3, route.b, toll);
    let paid = payable(model.settlements[shipment.buyer as int], bill.revenue);
    lemma_settlement_money_update(val, model.settlements, shipment.buyer as int, delivered, n);
    lemma_receipt(val, s0, shipment.buyer, bill.rebate.product(share));
    lemma_receipt(val, s1, shipment.seller, bill.purchase.product(share));
    lemma_receipt(val, s2, route.a, toll);
    lemma_receipt(val, s3, route.b, toll);
    reveal(multiplicative);
    let carriage = val(bill.transport.product(share));
    let two = val(whole::<N>(2));
    assert(val(toll) == carriage / two);
    assert(carriage / two + carriage / two == carriage) by (nonlinear_arith)
        requires
            two == 2real,
    ;
    assert(model.settled(shipment) == s4);
    assert(val(settlement_money(s4, n)) == val(settlement_money(model.settlements, n)) - val(paid)
        + val(bill.rebate) * val(share) + val(bill.purchase) * val(share) + val(bill.transport)
        * val(share));
    let after = model.after_arrival(shipment);
    let t0 = model.traders[shipment.trader as int];
    let t1 = after.traders[shipment.trader as int];
    assert(after.traders =~= model.traders.update(shipment.trader as int, t1));
    lemma_trader_money_update(
        val,
        model.traders,
        shipment.trader as int,
        t1,
        model.traders.len() as int,
    );
    let gain = val(bill.revenue) - val(bill.purchase);
    let limit = 1real + size(val(bill.revenue)) + size(gain) + size(gain - val(bill.transport))
        + size(gain - val(bill.transport) - val(bill.profit));
    law_exact_arithmetic_rounds_nothing(val, limit);
    law_invoice_adds_up(
        val,
        limit,
        0real,
        shipment,
        model.price_at(shipment.buyer, shipment.good),
        route.cost_per_unit,
    );
    let (a, b, c, d, r, s, p) = (
        val(bill.rebate),
        val(bill.purchase),
        val(bill.transport),
        val(bill.profit),
        val(bill.revenue),
        val(share),
        val(paid),
    );
    lemma_share_of_the_bill(val, model.settlements[shipment.buyer as int], bill.revenue);
    assert(a * s + b * s + c * s + d * s == s * r) by (nonlinear_arith)
        requires
            b + c + d + a == r,
    ;
}

proof fn lemma_receipt<N: Number>(
    val: spec_fn(N) -> real,
    settlements: Seq<Settlement<N>>,
    place: SettlementId,
    amount: N,
)
    requires
        linear(val),
        place < settlements.len(),
    ensures
        after_receipt(settlements, place, amount).len() == settlements.len(),
        val(
            settlement_money(
                after_receipt(settlements, place, amount),
                settlements.len() as int,
            ),
        ) == val(settlement_money(settlements, settlements.len() as int)) + val(amount),
{
    lemma_settlement_money_update(
        val,
        settlements,
        place as int,
        Settlement {
            money: settlements[place as int].money.sum(amount),
            ..settlements[place as int]
        },
        settlements.len() as int,
    );
}

/// No price and no cargo is below zero.
pub open spec fn sound<N: Number>(val: spec_fn(N) -> real, model: WorldModel<N>) -> bool {
    &&& forall|i: int|
        0 <= i < model.settlements.len() ==> sound_prices(val, #[trigger] model.settlements[i])
    &&& forall|k: int|
        0 <= k < model.shipments.len() ==> val((#[trigger] model.shipments[k]).quantity) >= 0real
}

pub open spec fn sound_prices<N: Number>(
    val: spec_fn(N) -> real,
    settlement: Settlement<N>,
) -> bool {
    forall|good: Good|
        (#[trigger] settlement.prices.at(good)) is Some ==> val(settlement.prices.at(good)->0)
            >= 0real
}

/// The luck of every shipment takes between nothing and all of its cargo.
pub open spec fn fair<N: Number>(val: spec_fn(N) -> real, rolls: Seq<CargoRoll<N>>) -> bool {
    forall|k: int|
        0 <= k < rolls.len() ==> 0real <= val((#[trigger] rolls[k]).loss_fraction) <= 1real
}

proof fn lemma_price_update_sound<N: Number>(val: spec_fn(N) -> real, model: WorldModel<N>)
    requires
        exact(val),
        sound(val, model),
    ensures
        sound(val, model.after_price_update()),
{
    let after = model.after_price_update();
    assert forall|i: int| 0 <= i < after.settlements.len() implies sound_prices(
        val,
        #[trigger] after.settlements[i],
    ) by {
        let before = model.settlements[i];
        assert(sound_prices(val, before));
        assert forall|good: Good| (
        #[trigger] after.settlements[i].prices.at(good)) is Some implies val(
            after.settlements[i].prices.at(good)->0,
        ) >= 0real by {
            assert(val(asked(before, good)) >= 0real) by {
                assert(val(base_price::<N>(good)) >= 0real);
                let _ = before.prices.at(good);
            }
            let limit = 300real + val(asked(before, good));
            law_exact_arithmetic_rounds_nothing(val, limit);
            law_prices_stay_positive(val, limit, 0real, before, good);
        }
    }
}

/// Where prices and shipments are the same, soundness is.
proof fn lemma_sound_kept<N: Number>(
    val: spec_fn(N) -> real,
    before: WorldModel<N>,
    after: WorldModel<N>,
)
    requires
        sound(val, before),
        after.settlements.len() == before.settlements.len(),
        forall|i: int|
            0 <= i < before.settlements.len() ==> (#[trigger] after.settlements[i]).prices
                == before.settlements[i].prices,
        after.shipments == before.shipments,
    ensures
        sound(val, after),
{
    assert forall|i: int| 0 <= i < after.settlements.len() implies sound_prices(
        val,
        #[trigger] after.settlements[i],
    ) by {
        assert(sound_prices(val, before.settlements[i]));
    }
}

/// New cargo is at least one unit.
proof fn lemma_rounds_cargo<N: Number>(
    val: spec_fn(N) -> real,
    model: WorldModel<N>,
    trader: TraderId,
    capacity: N,
    excluded: Seq<Deal>,
    rounds: nat,
)
    requires
        linear(val),
        forall|k: int|
            0 <= k < model.shipments.len() ==> val((#[trigger] model.shipments[k]).quantity)
                >= 0real,
    ensures
        ({
            let after = model.after_rounds(trader, capacity, excluded, rounds);
            forall|k: int|
                0 <= k < after.shipments.len() ==> val((#[trigger] after.shipments[k]).quantity)
                    >= 0real
        }),
    decreases rounds,
{
    if rounds > 0 && whole::<N>(1).at_most(capacity) {
        match model.best_trade(trader, capacity, excluded) {
            None => {},
            Some(trade) => {
                let quantity = model.dispatched(trade, capacity);
                if quantity.less(whole(1)) {
                    lemma_rounds_cargo(
                        val,
                        model,
                        trader,
                        capacity,
                        excluded.push((trade.seller, trade.buyer, trade.good)),
                        (rounds - 1) as nat,
                    );
                } else {
                    let sent = model.after_dispatch(trader, trade, quantity);
                    assert forall|k: int| 0 <= k < sent.shipments.len() implies val(
                        (#[trigger] sent.shipments[k]).quantity,
                    ) >= 0real by {
                        if k < model.shipments.len() {
                            assert(sent.shipments[k] == model.shipments[k]);
                        }
                    }
                    lemma_rounds_cargo(
                        val,
                        sent,
                        trader,
                        capacity.difference(quantity),
                        excluded,
                        (rounds - 1) as nat,
                    );
                }
            },
        }
    }
}

proof fn lemma_trading_cargo<N: Number>(val: spec_fn(N) -> real, model: WorldModel<N>, n: int)
    requires
        linear(val),
        forall|k: int|
            0 <= k < model.shipments.len() ==> val((#[trigger] model.shipments[k]).quantity)
                >= 0real,
    ensures
        forall|k: int|
            0 <= k < model.after_trading_of(n).shipments.len() ==> val(
                (#[trigger] model.after_trading_of(n).shipments[k]).quantity,
            ) >= 0real,
    decreases n,
{
    if n > 0 {
        lemma_trading_cargo(val, model, n - 1);
        let before = model.after_trading_of(n - 1);
        lemma_rounds_cargo(
            val,
            before,
            (n - 1) as TraderId,
            before.traders[(n - 1) as TraderId as int].trade_capacity,
            Seq::empty(),
            MAX_ROUNDS as nat,
        );
    }
}

/// A month on the way moves money around and keeps the world sound.
proof fn lemma_travel_conserves<N: Number>(
    val: spec_fn(N) -> real,
    model: WorldModel<N>,
    shipment: Shipment<N>,
    roll: CargoRoll<N>,
)
    requires
        exact(val),
        model.wf(),
        model.priced(),
        model.shipment_wf(shipment),
        sound(val, model),
        val(shipment.quantity) >= 0real,
        0real <= val(roll.loss_fraction) <= 1real,
    ensures
        val(model.after_travel(shipment, roll).total_money()) == val(model.total_money()),
        sound(val, model.after_travel(shipment, roll)),
{
    let moved = moved(shipment, roll);
    let reported = WorldModel { events: model.events + travel_report(shipment, roll), ..model };
    lemma_moved_cargo(val, shipment, roll);
    lemma_sound_kept(val, model, reported);
    lemma_travel_wf(model, shipment, roll);
    if moved.months_remaining > 0 {
        let after = model.after_travel(shipment, roll);
        assert forall|k: int| 0 <= k < after.shipments.len() implies val(
            (#[trigger] after.shipments[k]).quantity,
        ) >= 0real by {
            if k < model.shipments.len() {
                assert(after.shipments[k] == model.shipments[k]);
            }
        }
        assert forall|i: int| 0 <= i < after.settlements.len() implies sound_prices(
            val,
            #[trigger] after.settlements[i],
        ) by {
            assert(sound_prices(val, model.settlements[i]));
        }
    } else {
        assert(reported.same_names(model) && model.same_names(reported));
        lemma_same_names_wf(model, reported);
        let buyer = model.settlements[moved.buyer as int];
        assert(sound_prices(val, buyer) && buyer.prices.total());
        assert(buyer.prices.at(moved.good) is Some);
        let price = val(model.price_at(moved.buyer, moved.good));
        let quantity = val(moved.quantity);
        assert(val(reported.invoice_of(moved).revenue) == quantity * price) by {
            reveal(multiplicative);
        }
        assert(quantity * price >= 0real) by (nonlinear_arith)
            requires
                quantity >= 0real,
                price >= 0real,
        ;
        law_arrival_conserves_money(val, reported, moved);
        lemma_settled_shape(reported, moved);
        lemma_sound_kept(val, reported, reported.after_arrival(moved));
    }
}

/// What the way leaves of a cargo is not below zero.
proof fn lemma_moved_cargo<N: Number>(
    val: spec_fn(N) -> real,
    shipment: Shipment<N>,
    roll: CargoRoll<N>,
)
    requires
        exact(val),
        val(shipment.quantity) >= 0real,
        0real <= val(roll.loss_fraction) <= 1real,
    ensures
        0real <= val(moved(shipment, roll).quantity) <= val(shipment.quantity),
{
    reveal(multiplicative);
    let (q, f) = (val(shipment.quantity), val(roll.loss_fraction));
    assert(0real <= q - q * f <= q) by (nonlinear_arith)
        requires
            q >= 0real,
            0real <= f <= 1real,
    ;
}

proof fn lemma_advance_conserves<N: Number>(
    val: spec_fn(N) -> real,
    model: WorldModel<N>,
    pending: Seq<Shipment<N>>,
    rolls: Seq<CargoRoll<N>>,
    n: int,
)
    requires
        exact(val),
        model.wf(),
        model.priced(),
        sound(val, model),
        fair(val, rolls),
        0 <= n <= pending.len() <= rolls.len(),
        forall|k: int| 0 <= k < pending.len() ==> model.shipment_wf(#[trigger] pending[k]),
        forall|k: int| 0 <= k < pending.len() ==> val((#[trigger] pending[k]).quantity) >= 0real,
    ensures
        ({
            let after = model.after_travel_of(pending, rolls, n);
            &&& val(after.total_money()) == val(model.total_money())
            &&& sound(val, after)
            &&& after.wf()
            &&& after.priced()
            &&& after.routes == model.routes
            &&& after.settlements.len() == model.settlements.len()
            &&& after.traders.len() == model.traders.len()
        }),
    decreases n,
{
    if n > 0 {
        lemma_advance_conserves(val, model, pending, rolls, n - 1);
        let before = model.after_travel_of(pending, rolls, n - 1);
        assert(model.shipment_wf(pending[n - 1]));
        lemma_travel_conserves(val, before, pending[n - 1], rolls[n - 1]);
        lemma_travel_wf(before, pending[n - 1], rolls[n - 1]);
    }
}

/// Law: moving shipments on, and settling those that arrive, moves money around
/// and keeps prices and cargo from falling below zero.
pub proof fn law_advance_conserves_money<N: Number>(
    val: spec_fn(N) -> real,
    model: WorldModel<N>,
    rolls: Seq<CargoRoll<N>>,
)
    requires
        exact(val),
        model.wf(),
        model.priced(),
        sound(val, model),
        fair(val, rolls),
        rolls.len() >= model.shipments.len(),
    ensures
        val(model.after_advance(rolls).total_money()) == val(model.total_money()),
        sound(val, model.after_advance(rolls)),
        model.after_advance(rolls).wf(),
        model.after_advance(rolls).priced(),
{
    let emptied = WorldModel { shipments: Seq::empty(), ..model };
    assert(emptied.wf()) by {
        assert forall|i: int| 0 <= i < emptied.routes.len() implies emptied.route_wf(
            #[trigger] emptied.routes[i],
        ) by {
            assert(model.route_wf(model.routes[i]));
        }
        assert forall|i: int| 0 <= i < emptied.traders.len() implies emptied.trader_wf(
            #[trigger] emptied.traders[i],
        ) by {
            assert(model.trader_wf(model.traders[i]));
        }
    }
    assert forall|i: int| 0 <= i < emptied.settlements.len() implies sound_prices(
        val,
        #[trigger] emptied.settlements[i],
    ) by {
        assert(sound_prices(val, model.settlements[i]));
    }
    assert forall|k: int| 0 <= k < model.shipments.len() implies emptied.shipment_wf(
        #[trigger] model.shipments[k],
    ) by {
        assert(model.shipment_wf(model.shipments[k]));
    }
    assert(emptied.total_money() == model.total_money());
    lemma_advance_conserves(
        val,
        emptied,
        model.shipments,
        rolls,
        model.shipments.len() as int,
    );
}

/// Law: a month conserves money.  It starts with prices and cargo that are not
/// below zero, and ends so; the interest that is collected must reach someone.
pub proof fn law_month_conserves_money<N: Number>(
    val: spec_fn(N) -> real,
    model: WorldModel<N>,
    rolls: Seq<CargoRoll<N>>,
)
    requires
        exact(val),
        model.wf(),
        sound(val, model),
        fair(val, rolls),
        rolls.len() >= model.after_opening().shipments.len(),
        interest_reaches_someone(model.after_supply().after_price_update()),
    ensures
        val(model.after_month(rolls).total_money()) == val(model.total_money()),
        sound(val, model.after_month(rolls)),
        model.after_month(rolls).wf(),
        model.after_month(rolls).priced(),
{
    let fed = model.after_supply();
    law_supply_moves_no_money(model);
    lemma_supply_wf(model);
    lemma_supply_keeps_prices(model);
    lemma_sound_kept(val, model, fed);

    let quoted = fed.after_price_update();
    law_price_update_moves_no_money(fed);
    lemma_price_update_wf(fed);
    lemma_price_update_sound(val, fed);

    let serviced = quoted.after_interest();
    law_interest_conserves_money(val, quoted);
    lemma_interest_wf(quoted);
    lemma_sound_kept(val, quoted, serviced);
    assert forall|i: int| 0 <= i < serviced.settlements.len() implies (
    #[trigger] serviced.settlements[i]).prices.total() by {
        assert(quoted.settlements[i].prices.total());
    }

    let paid = serviced.after_expenses();
    law_expenses_conserve_money(val, serviced);
    lemma_expenses_wf(serviced);
    lemma_expenses_shape(serviced, serviced.traders.len() as int);
    lemma_sound_kept(val, serviced, paid);

    let opened = paid.after_trading();
    law_trading_moves_no_money(paid);
    lemma_trading_keeps_balances(paid, paid.traders.len() as int);
    lemma_trading_cargo(val, paid, paid.traders.len() as int);
    assert forall|i: int| 0 <= i < opened.settlements.len() implies sound_prices(
        val,
        #[trigger] opened.settlements[i],
    ) && opened.settlements[i].prices.total() by {
        assert(sound_prices(val, paid.settlements[i]));
        assert(paid.settlements[i].prices.total());
    }
    law_advance_conserves_money(val, opened, rolls);
}

/// Production and consumption leave prices alone.
proof fn lemma_supply_keeps_prices<N: Number>(model: WorldModel<N>)
    requires
        model.wf(),
    ensures
        forall|i: int|
            0 <= i < model.settlements.len() ==> (#[trigger] model.after_supply().settlements[i]).prices
                == model.settlements[i].prices,
{
    lemma_supply_wf(model);
    let made = model.after_new_month().after_route_reset().after_recovery().after_production();
    let fed = Seq::new(made.settlements.len(), |i: int| consumed(made.settlements[i]));
    let missing = made.all_shortfalls();
    lemma_shortfalls_named(made);
    lemma_shortfalls_shape(fed, missing, missing.len() as int);
}

proof fn lemma_expenses_keep_records<N: Number>(model: WorldModel<N>, n: int)
    ensures
        model.after_expenses_of(n).month == model.month,
        model.after_expenses_of(n).expected_total_money == model.expected_total_money,
    decreases n,
{
    if n > 0 {
        lemma_expenses_keep_records(model, n - 1);
    }
}

proof fn lemma_rounds_keep_records<N: Number>(
    model: WorldModel<N>,
    trader: TraderId,
    capacity: N,
    excluded: Seq<Deal>,
    rounds: nat,
)
    ensures
        ({
            let after = model.after_rounds(trader, capacity, excluded, rounds);
            after.month == model.month && after.expected_total_money == model.expected_total_money
        }),
    decreases rounds,
{
    if rounds > 0 {
        match model.best_trade(trader, capacity, excluded) {
            None => {},
            Some(trade) => {
                let quantity = model.dispatched(trade, capacity);
                lemma_rounds_keep_records(
                    model,
                    trader,
                    capacity,
                    excluded.push((trade.seller, trade.buyer, trade.good)),
                    (rounds - 1) as nat,
                );
                lemma_rounds_keep_records(
                    model.after_dispatch(trader, trade, quantity),
                    trader,
                    capacity.difference(quantity),
                    excluded,
                    (rounds - 1) as nat,
                );
            },
        }
    }
}

proof fn lemma_trading_keeps_records<N: Number>(model: WorldModel<N>, n: int)
    ensures
        model.after_trading_of(n).month == model.month,
        model.after_trading_of(n).expected_total_money == model.expected_total_money,
    decreases n,
{
    if n > 0 {
        lemma_trading_keeps_records(model, n - 1);
        let before = model.after_trading_of(n - 1);
        lemma_rounds_keep_records(
            before,
            (n - 1) as TraderId,
            before.traders[((n - 1) as TraderId) as int].trade_capacity,
            Seq::empty(),
            MAX_ROUNDS as nat,
        );
    }
}

proof fn lemma_travel_keeps_records<N: Number>(
    model: WorldModel<N>,
    pending: Seq<Shipment<N>>,
    rolls: Seq<CargoRoll<N>>,
    n: int,
)
    ensures
        model.after_travel_of(pending, rolls, n).month == model.month,
        model.after_travel_of(pending, rolls, n).expected_total_money
            == model.expected_total_money,
    decreases n,
{
    if n > 0 {
        lemma_travel_keeps_records(model, pending, rolls, n - 1);
    }
}

/// Law: a month moves the calendar on by one and leaves alone what the money in
/// the world should be.
pub proof fn law_month_passes<N: Number>(model: WorldModel<N>, rolls: Seq<CargoRoll<N>>)
    requires
        model.month < u32::MAX,
    ensures
        model.after_month(rolls).month == model.month + 1,
        model.after_month(rolls).expected_total_money == model.expected_total_money,
{
    let serviced = model.after_supply().after_price_update().after_interest();
    lemma_expenses_keep_records(serviced, serviced.traders.len() as int);
    let paid = model.after_accounts();
    lemma_trading_keeps_records(paid, paid.traders.len() as int);
    let opened = model.after_opening();
    let emptied = WorldModel { shipments: Seq::empty(), ..opened };
    lemma_travel_keeps_records(emptied, opened.shipments, rolls, opened.shipments.len() as int);
}

impl<N: Number> WorldModel<N> {
    /// As many months as `luck` has entries, with the luck of each.
    pub open spec fn after_months(self, luck: Seq<Seq<CargoRoll<N>>>) -> Self
        decreases luck.len(),
    {
        if luck.len() == 0 {
            self
        } else {
            self.after_months(luck.drop_last()).after_month(luck.last())
        }
    }
}

/// Each month has luck for all shipments, and the interest of each month reaches
/// someone.
pub open spec fn months_in_order<N: Number>(
    val: spec_fn(N) -> real,
    model: WorldModel<N>,
    luck: Seq<Seq<CargoRoll<N>>>,
) -> bool
    decreases luck.len(),
{
    luck.len() == 0 || {
        let before = model.after_months(luck.drop_last());
        &&& months_in_order(val, model, luck.drop_last())
        &&& fair(val, luck.last())
        &&& luck.last().len() >= before.after_opening().shipments.len()
        &&& interest_reaches_someone(before.after_supply().after_price_update())
    }
}

/// Law: however many months pass, the world holds the money that it started with,
/// and where that is what it should be, its books balance.
pub proof fn law_months_conserve_money<N: Number>(
    val: spec_fn(N) -> real,
    model: WorldModel<N>,
    luck: Seq<Seq<CargoRoll<N>>>,
)
    requires
        exact(val),
        model.wf(),
        sound(val, model),
        months_in_order(val, model, luck),
        model.month + luck.len() <= u32::MAX,
    ensures
        val(model.after_months(luck).total_money()) == val(model.total_money()),
        sound(val, model.after_months(luck)),
        model.after_months(luck).wf(),
        model.after_months(luck).month == model.month + luck.len(),
        model.after_months(luck).expected_total_money == model.expected_total_money,
        val(model.total_money()) == val(model.expected_total_money) ==> model.after_months(
            luck,
        ).balanced(),
    decreases luck.len(),
{
    if luck.len() > 0 {
        law_months_conserve_money(val, model, luck.drop_last());
        let before = model.after_months(luck.drop_last());
        law_month_conserves_money(val, before, luck.last());
        law_month_passes(before, luck.last());
    }
}

} // verus!
