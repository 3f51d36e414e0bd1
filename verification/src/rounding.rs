//! What rounding does to the world's money.
//!
//! Numbers of a fixed size round, and they have a range.  As long as nothing leaves
//! the range, rounding makes no money, and what it loses stays below a bound that
//! the laws here give.

use crate::conservation::{interest_reaches_someone, lemma_trading_keeps_balances};
use crate::delivery::{after_receipt, lemma_travel_wf, moved, supplied, travel_report};
use crate::finance::{
    collected, credited, creditor_pool, debited, debts, headroom, interest_on,
    lemma_collected_shape, lemma_debts_named, lemma_expenses_shape, payable, Debt,
    DEBT_INTEREST_PERCENT,
};
use crate::fixed::{
    fixed_limit, fixed_unit, fixed_value, law_fixed_is_linear, law_fixed_rounds_down, Fixed,
};
use crate::month::{
    lemma_expenses_wf, lemma_interest_wf, lemma_price_update_wf, lemma_supply_wf,
};
use crate::naming::law_events_name_what_exists;
use crate::number::{fits, hundredths, linear_within, rounds_down, whole, Number};
use crate::production::{consumed, lemma_shortfalls_named, lemma_shortfalls_shape};
use crate::settlement::{Settlement, SettlementId};
use crate::shipment::{CargoRoll, Shipment};
use crate::trader::{TraderId, TraderModel};
use crate::world::{lemma_same_names_wf, WorldModel};
use vstd::prelude::*;

verus! {

/// The treasuries of the first `n` settlements together, as a real.
pub open spec fn treasuries<N: Number>(
    val: spec_fn(N) -> real,
    settlements: Seq<Settlement<N>>,
    n: int,
) -> real
    decreases n,
{
    if n <= 0 {
        0real
    } else {
        treasuries(val, settlements, n - 1) + val(settlements[n - 1].money)
    }
}

/// The money of the first `n` traders together, as a real.
pub open spec fn purses<N: Number>(
    val: spec_fn(N) -> real,
    traders: Seq<TraderModel<N>>,
    n: int,
) -> real
    decreases n,
{
    if n <= 0 {
        0real
    } else {
        purses(val, traders, n - 1) + val(traders[n - 1].money)
    }
}

/// All the money there is, as a real.
pub open spec fn wealth<N: Number>(val: spec_fn(N) -> real, model: WorldModel<N>) -> real {
    treasuries(val, model.settlements, model.settlements.len() as int) + purses(
        val,
        model.traders,
        model.traders.len() as int,
    )
}

proof fn lemma_same_treasuries<N: Number>(
    val: spec_fn(N) -> real,
    before: Seq<Settlement<N>>,
    after: Seq<Settlement<N>>,
    n: int,
)
    requires
        forall|i: int| 0 <= i < n ==> (#[trigger] after[i]).money == before[i].money,
    ensures
        treasuries(val, after, n) == treasuries(val, before, n),
    decreases n,
{
    if n > 0 {
        lemma_same_treasuries(val, before, after, n - 1);
        assert(after[n - 1].money == before[n - 1].money);
    }
}

proof fn lemma_same_purses<N: Number>(
    val: spec_fn(N) -> real,
    before: Seq<TraderModel<N>>,
    after: Seq<TraderModel<N>>,
    n: int,
)
    requires
        forall|i: int| 0 <= i < n ==> (#[trigger] after[i]).money == before[i].money,
    ensures
        purses(val, after, n) == purses(val, before, n),
    decreases n,
{
    if n > 0 {
        lemma_same_purses(val, before, after, n - 1);
        assert(after[n - 1].money == before[n - 1].money);
    }
}

proof fn lemma_new_treasury<N: Number>(
    val: spec_fn(N) -> real,
    settlements: Seq<Settlement<N>>,
    at: int,
    settlement: Settlement<N>,
    n: int,
)
    requires
        0 <= at < settlements.len(),
        n <= settlements.len(),
    ensures
        treasuries(val, settlements.update(at, settlement), n) == treasuries(val, settlements, n)
            + if at < n {
            val(settlement.money) - val(settlements[at].money)
        } else {
            0real
        },
    decreases n,
{
    if n > 0 {
        lemma_new_treasury(val, settlements, at, settlement, n - 1);
    }
}

proof fn lemma_new_purse<N: Number>(
    val: spec_fn(N) -> real,
    traders: Seq<TraderModel<N>>,
    at: int,
    trader: TraderModel<N>,
    n: int,
)
    requires
        0 <= at < traders.len(),
        n <= traders.len(),
    ensures
        purses(val, traders.update(at, trader), n) == purses(val, traders, n) + if at < n {
            val(trader.money) - val(traders[at].money)
        } else {
            0real
        },
    decreases n,
{
    if n > 0 {
        lemma_new_purse(val, traders, at, trader, n - 1);
    }
}

/// The balances that a payment leads to are in range.
pub open spec fn payment_fits<N: Number>(
    val: spec_fn(N) -> real,
    limit: real,
    model: WorldModel<N>,
    trader: int,
    settlement: int,
    amount: N,
) -> bool {
    &&& fits(limit, val(model.traders[trader].money) - val(amount))
    &&& fits(limit, val(model.settlements[settlement].money) + val(amount))
}

proof fn lemma_payment<N: Number>(
    val: spec_fn(N) -> real,
    limit: real,
    model: WorldModel<N>,
    trader: int,
    settlement: int,
    amount: N,
)
    requires
        linear_within(val, limit),
        0 <= trader < model.traders.len(),
        0 <= settlement < model.settlements.len(),
        payment_fits(val, limit, model, trader, settlement, amount),
    ensures
        wealth(val, model.after_payment(trader, settlement, amount)) == wealth(val, model),
{
    let after = model.after_payment(trader, settlement, amount);
    lemma_new_treasury(
        val,
        model.settlements,
        settlement,
        after.settlements[settlement],
        model.settlements.len() as int,
    );
    lemma_new_purse(
        val,
        model.traders,
        trader,
        after.traders[trader],
        model.traders.len() as int,
    );
    assert(after.settlements =~= model.settlements.update(
        settlement,
        after.settlements[settlement],
    ));
    assert(after.traders =~= model.traders.update(trader, after.traders[trader]));
}

/// The balances that the expenses of the first `n` traders lead to are in range.
pub open spec fn expenses_fit<N: Number>(
    val: spec_fn(N) -> real,
    limit: real,
    model: WorldModel<N>,
    n: int,
) -> bool
    decreases n,
{
    n <= 0 || {
        let before = model.after_expenses_of(n - 1);
        let kept = before.after_upkeep((n - 1) as TraderId);
        &&& expenses_fit(val, limit, model, n - 1)
        &&& payment_fits(
            val,
            limit,
            before,
            n - 1,
            before.traders[n - 1].home_base as int,
            before.upkeep(n - 1),
        )
        &&& payment_fits(
            val,
            limit,
            kept,
            n - 1,
            kept.traders[n - 1].location as int,
            kept.local_spending(n - 1),
        )
    }
}

proof fn lemma_expenses<N: Number>(
    val: spec_fn(N) -> real,
    limit: real,
    model: WorldModel<N>,
    n: int,
)
    requires
        linear_within(val, limit),
        model.traders_wf(),
        0 <= n <= model.traders.len() <= usize::MAX,
        expenses_fit(val, limit, model, n),
    ensures
        wealth(val, model.after_expenses_of(n)) == wealth(val, model),
    decreases n,
{
    if n > 0 {
        lemma_expenses(val, limit, model, n - 1);
        lemma_expenses_shape(model, n - 1);
        let before = model.after_expenses_of(n - 1);
        assert(model.trader_wf(model.traders[n - 1]));
        let trader = (n - 1) as TraderId;
        lemma_payment(
            val,
            limit,
            before,
            n - 1,
            before.traders[n - 1].home_base as int,
            before.upkeep(n - 1),
        );
        let kept = before.after_upkeep(trader);
        assert(wealth(val, kept) == wealth(val, before));
        lemma_payment(
            val,
            limit,
            kept,
            n - 1,
            kept.traders[n - 1].location as int,
            kept.local_spending(n - 1),
        );
    }
}

/// Law: in range, what traders spend is what settlements take in, to the last unit.
pub proof fn law_expenses_round_nothing<N: Number>(
    val: spec_fn(N) -> real,
    limit: real,
    model: WorldModel<N>,
)
    requires
        linear_within(val, limit),
        model.traders_wf(),
        model.traders.len() <= usize::MAX,
        expenses_fit(val, limit, model, model.traders.len() as int),
    ensures
        wealth(val, model.after_expenses()) == wealth(val, model),
{
    lemma_expenses(val, limit, model, model.traders.len() as int);
}

/// What the collection of interest on the first `n` debts leads to is in range.
pub open spec fn collection_fits<N: Number>(
    val: spec_fn(N) -> real,
    limit: real,
    settlements: Seq<Settlement<N>>,
    owed: Seq<Debt<N>>,
    n: int,
) -> bool
    decreases n,
{
    n <= 0 || {
        let before = collected(settlements, owed, n - 1);
        let debt = owed[n - 1];
        let payer = before.settlements[debt.debtor as int];
        let paid = payable(payer, interest_on(debt));
        &&& collection_fits(val, limit, settlements, owed, n - 1)
        &&& val(debt.amount) >= 0real
        &&& fits(limit, val(debt.amount))
        &&& fits(limit, val(payer.money) - val(paid))
        &&& fits(limit, val(before.total) + val(paid))
    }
}

proof fn lemma_collection<N: Number>(
    val: spec_fn(N) -> real,
    limit: real,
    unit: real,
    settlements: Seq<Settlement<N>>,
    owed: Seq<Debt<N>>,
    n: int,
)
    requires
        linear_within(val, limit),
        rounds_down(val, limit, unit),
        limit >= 1real,
        0 <= n <= owed.len(),
        forall|k: int| 0 <= k < owed.len() ==> (#[trigger] owed[k]).debtor < settlements.len(),
        collection_fits(val, limit, settlements, owed, n),
    ensures
        treasuries(
            val,
            collected(settlements, owed, n).settlements,
            settlements.len() as int,
        ) + val(collected(settlements, owed, n).total) == treasuries(
            val,
            settlements,
            settlements.len() as int,
        ),
        val(collected(settlements, owed, n).total) >= 0real,
    decreases n,
{
    assert(val(whole::<N>(0)) == 0real);
    if n > 0 {
        lemma_collection(val, limit, unit, settlements, owed, n - 1);
        lemma_collected_shape(settlements, owed, n - 1);
        let before = collected(settlements, owed, n - 1);
        let debt = owed[n - 1];
        let payer = before.settlements[debt.debtor as int];
        lemma_new_treasury(
            val,
            before.settlements,
            debt.debtor as int,
            debited(payer, interest_on(debt)),
            settlements.len() as int,
        );
        assert(val(interest_on(debt)) >= 0real) by {
            reveal(rounds_down);
            let x = val(debt.amount);
            let rate = val(hundredths::<N>(DEBT_INTEREST_PERCENT));
            assert(rate * 100real == 2real);
            assert(0real <= x * rate <= x) by (nonlinear_arith)
                requires
                    x >= 0real,
                    rate * 100real == 2real,
            ;
            assert(fits(limit, val(debt.amount) * rate));
        }
        assert(val(headroom(payer)) >= 0real);
    }
}

/// What the sharing of interest among the first `n` settlements leads to is in range.
pub open spec fn sharing_fits<N: Number>(
    val: spec_fn(N) -> real,
    limit: real,
    settlements: Seq<Settlement<N>>,
    interest: N,
    pool: N,
    n: int,
) -> bool
    decreases n,
{
    n <= 0 || {
        let money = settlements[n - 1].money;
        let part = interest.product(money);
        &&& sharing_fits(val, limit, settlements, interest, pool, n - 1)
        &&& fits(limit, val(creditor_pool(settlements, n - 1)) + val(money))
        &&& val(money) > 0real ==> {
            &&& fits(limit, val(interest) * val(money))
            &&& fits(limit, val(part) / val(pool))
            &&& fits(limit, val(money) + val(part.quotient(pool)))
        }
    }
}

/// Shares, rounded down.
proof fn lemma_shares<N: Number>(
    val: spec_fn(N) -> real,
    limit: real,
    unit: real,
    settlements: Seq<Settlement<N>>,
    interest: N,
    pool: N,
    n: int,
)
    requires
        linear_within(val, limit),
        rounds_down(val, limit, unit),
        limit >= 1real,
        unit >= 0real,
        val(pool) > 0real,
        val(interest) >= 0real,
        0 <= n <= settlements.len(),
        sharing_fits(val, limit, settlements, interest, pool, n),
    ensures
        ({
            let handed = treasuries(
                val,
                Seq::new(settlements.len(), |i: int| credited(settlements[i], interest, pool)),
                n,
            ) - treasuries(val, settlements, n);
            let fair = val(interest) * val(creditor_pool(settlements, n)) / val(pool);
            fair - n as real * (unit + unit / val(pool)) <= handed <= fair
        }),
    decreases n,
{
    assert(val(whole::<N>(0)) == 0real);
    let (t, p) = (val(interest), val(pool));
    assert(unit / p >= 0real) by (nonlinear_arith)
        requires
            unit >= 0real,
            p > 0real,
    ;
    let slip = unit + unit / p;
    if n > 0 {
        lemma_shares(val, limit, unit, settlements, interest, pool, n - 1);
        let money = settlements[n - 1].money;
        let m = val(money);
        let r = val(creditor_pool(settlements, n - 1));
        let k = (n - 1) as real;
        assert(n as real == k + 1real);
        assert((k + 1real) * slip == k * slip + slip) by (nonlinear_arith);
        if m > 0real {
            let part = val(interest.product(money));
            let share = val(interest.product(money).quotient(pool));
            assert(t * m - unit <= part <= t * m && part / p - unit <= share <= part / p) by {
                reveal(rounds_down);
            }
            assert((t * r) / p + (t * m) / p == (t * (r + m)) / p) by (nonlinear_arith)
                requires
                    p > 0real,
            ;
            assert((t * m) / p - slip <= share <= (t * m) / p) by (nonlinear_arith)
                requires
                    p > 0real,
                    t * m - unit <= part <= t * m,
                    part / p - unit <= share <= part / p,
                    slip == unit + unit / p,
            ;
        }
    } else {
        assert((t * 0real) / p == 0real) by (nonlinear_arith)
            requires
                p > 0real,
        ;
        assert(0real * slip == 0real) by (nonlinear_arith);
    }
}

/// What servicing debts leads to is in range.
pub open spec fn interest_fits<N: Number>(
    val: spec_fn(N) -> real,
    limit: real,
    model: WorldModel<N>,
) -> bool {
    let owed = model.all_debts();
    &&& collection_fits(val, limit, model.settlements, owed, owed.len() as int)
    &&& model.interest_is_shared() ==> sharing_fits(
        val,
        limit,
        model.interest().settlements,
        model.interest().total,
        model.pool(),
        model.settlements.len() as int,
    )
}

/// What rounding may lose of the interest: for each settlement a unit, and a unit
/// over the positive balances.
pub open spec fn interest_slip<N: Number>(
    val: spec_fn(N) -> real,
    unit: real,
    model: WorldModel<N>,
) -> real {
    if model.all_debts().len() > 0 && model.interest_is_shared() {
        model.settlements.len() as real * (unit + unit / val(model.pool()))
    } else {
        0real
    }
}

/// Law: in range, interest makes no money; where it reaches someone, rounding loses
/// no more of it than `interest_slip`.
pub proof fn law_interest_rounds_little<N: Number>(
    val: spec_fn(N) -> real,
    limit: real,
    unit: real,
    model: WorldModel<N>,
)
    requires
        linear_within(val, limit),
        rounds_down(val, limit, unit),
        limit >= 1real,
        unit >= 0real,
        model.settlements_wf(),
        interest_fits(val, limit, model),
    ensures
        wealth(val, model.after_interest()) <= wealth(val, model),
        interest_reaches_someone(model) ==> wealth(val, model.after_interest()) >= wealth(
            val,
            model,
        ) - interest_slip(val, unit, model),
        interest_slip(val, unit, model) >= 0real,
{
    assert(val(whole::<N>(0)) == 0real);
    if model.all_debts().len() > 0 {
        let n = model.settlements.len() as int;
        let owed = model.all_debts();
        let collection = model.interest();
        lemma_debts_named(model.settlements, n);
        lemma_collected_shape(model.settlements, owed, owed.len() as int);
        lemma_collection(val, limit, unit, model.settlements, owed, owed.len() as int);
        if model.interest_is_shared() {
            let t = val(collection.total);
            let p = val(model.pool());
            lemma_shares(
                val,
                limit,
                unit,
                collection.settlements,
                collection.total,
                model.pool(),
                n,
            );
            assert((t * p) / p == t) by (nonlinear_arith)
                requires
                    p > 0real,
            ;
            let k = n as real;
            assert(k * (unit + unit / p) >= 0real) by (nonlinear_arith)
                requires
                    k >= 0real,
                    unit >= 0real,
                    p > 0real,
            ;
            assert(model.after_interest().settlements =~= Seq::new(
                collection.settlements.len(),
                |i: int| credited(collection.settlements[i], collection.total, model.pool()),
            ));
        }
    }
}

/// What settling an arrival leads to is in range, and no part of it is below zero
/// that should not be.
pub open spec fn arrival_fits<N: Number>(
    val: spec_fn(N) -> real,
    limit: real,
    model: WorldModel<N>,
    shipment: Shipment<N>,
) -> bool {
    let bill = model.invoice_of(shipment);
    let share = model.share_paid(shipment);
    let route = model.routes[shipment.route as int];
    let carriage = bill.transport.product(share);
    let toll = carriage.quotient(whole(2));
    let payer = model.settlements[shipment.buyer as int];
    let paid = payable(payer, bill.revenue);
    let buyer = debited(payer, bill.revenue);
    let delivered = supplied(buyer, shipment, shipment.quantity.product(share));
    let s0 = model.settlements.update(shipment.buyer as int, delivered);
    let s1 = after_receipt(s0, shipment.buyer, bill.rebate.product(share));
    let s2 = after_receipt(s1, shipment.seller, bill.purchase.product(share));
    let s3 = after_receipt(s2, route.a, toll);
    let (r, b, c) = (val(bill.revenue), val(bill.purchase), val(bill.transport));
    &&& 0real <= r <= limit
    &&& fits(limit, r - b)
    &&& fits(limit, r - b - c)
    &&& fits(limit, r - b - c - val(bill.profit))
    &&& fits(limit, b)
    &&& fits(limit, c)
    &&& fits(limit, val(bill.profit))
    &&& fits(limit, val(payer.money) - val(paid))
    &&& fits(limit, val(carriage))
    &&& fits(
        limit,
        val(s0[shipment.buyer as int].money) + val(bill.rebate.product(share)),
    )
    &&& fits(
        limit,
        val(s1[shipment.seller as int].money) + val(bill.purchase.product(share)),
    )
    &&& fits(limit, val(s2[route.a as int].money) + val(toll))
    &&& fits(limit, val(s3[route.b as int].money) + val(toll))
    &&& fits(
        limit,
        val(model.traders[shipment.trader as int].money) + val(bill.profit.product(share)),
    )
}

/// What rounding may lose when an arrival is settled: a unit for each unit of money
/// in the bill, and six more.
pub open spec fn arrival_slip<N: Number>(
    val: spec_fn(N) -> real,
    unit: real,
    model: WorldModel<N>,
    shipment: Shipment<N>,
) -> real {
    unit * (val(model.invoice_of(shipment).revenue) + 6real)
}

proof fn lemma_receipt_in_range<N: Number>(
    val: spec_fn(N) -> real,
    limit: real,
    settlements: Seq<Settlement<N>>,
    place: SettlementId,
    amount: N,
)
    requires
        linear_within(val, limit),
        place < settlements.len(),
        fits(limit, val(settlements[place as int].money) + val(amount)),
    ensures
        after_receipt(settlements, place, amount).len() == settlements.len(),
        treasuries(
            val,
            after_receipt(settlements, place, amount),
            settlements.len() as int,
        ) == treasuries(val, settlements, settlements.len() as int) + val(amount),
{
    lemma_new_treasury(
        val,
        settlements,
        place as int,
        Settlement {
            money: settlements[place as int].money.sum(amount),
            ..settlements[place as int]
        },
        settlements.len() as int,
    );
}

/// A part of the bill, times the share that is paid.
proof fn lemma_scaled<N: Number>(
    val: spec_fn(N) -> real,
    limit: real,
    unit: real,
    x: N,
    share: N,
)
    requires
        rounds_down(val, limit, unit),
        unit >= 0real,
        fits(limit, val(x)),
        0real <= val(share) <= 1real,
    ensures
        val(x) * val(share) - unit <= val(x.product(share)) <= val(x) * val(share),
        val(share) == 0real ==> val(x.product(share)) == 0real,
{
    reveal(rounds_down);
    let (a, s) = (val(x), val(share));
    assert(fits(limit, a * s)) by {
        assert(-limit <= a * s <= limit) by (nonlinear_arith)
            requires
                -limit <= a <= limit,
                0real <= s <= 1real,
        ;
    }
    if s == 0real {
        assert(a * s == 0real) by (nonlinear_arith)
            requires
                s == 0real,
        ;
    }
}

/// Law: in range, settling an arrival makes no money, and rounding loses no more of
/// it than `arrival_slip`.
pub proof fn law_arrival_rounds_little<N: Number>(
    val: spec_fn(N) -> real,
    limit: real,
    unit: real,
    model: WorldModel<N>,
    shipment: Shipment<N>,
)
    requires
        linear_within(val, limit),
        rounds_down(val, limit, unit),
        limit >= 2real,
        0real <= unit,
        model.wf(),
        model.shipment_wf(shipment),
        arrival_fits(val, limit, model, shipment),
    ensures
        wealth(val, model) - arrival_slip(val, unit, model, shipment) <= wealth(
            val,
            model.after_arrival(shipment),
        ) <= wealth(val, model),
        arrival_slip(val, unit, model, shipment) >= 0real,
{
    let n = model.settlements.len() as int;
    let bill = model.invoice_of(shipment);
    let share = model.share_paid(shipment);
    let route = model.routes[shipment.route as int];
    assert(model.route_wf(route));
    assert(val(whole::<N>(0)) == 0real && val(whole::<N>(2)) == 2real);
    let carriage = bill.transport.product(share);
    let toll = carriage.quotient(whole(2));
    let payer = model.settlements[shipment.buyer as int];
    let paid = payable(payer, bill.revenue);
    let buyer = debited(payer, bill.revenue);
    let delivered = supplied(buyer, shipment, shipment.quantity.product(share));
    let s0 = model.settlements.update(shipment.buyer as int, delivered);
    let s1 = after_receipt(s0, shipment.buyer, bill.rebate.product(share));
    let s2 = after_receipt(s1, shipment.seller, bill.purchase.product(share));
    let s3 = after_receipt(s2, route.a, toll);
    let s4 = after_receipt(s3, route.b, toll);
    lemma_new_treasury(val, model.settlements, shipment.buyer as int, delivered, n);
    lemma_receipt_in_range(val, limit, s0, shipment.buyer, bill.rebate.product(share));
    lemma_receipt_in_range(val, limit, s1, shipment.seller, bill.purchase.product(share));
    lemma_receipt_in_range(val, limit, s2, route.a, toll);
    lemma_receipt_in_range(val, limit, s3, route.b, toll);
    assert(model.settled(shipment) == s4);
    let after = model.after_arrival(shipment);
    let t1 = after.traders[shipment.trader as int];
    assert(after.traders =~= model.traders.update(shipment.trader as int, t1));
    lemma_new_purse(
        val,
        model.traders,
        shipment.trader as int,
        t1,
        model.traders.len() as int,
    );
    let (a, b, c, d, r, s, p) = (
        val(bill.rebate),
        val(bill.purchase),
        val(bill.transport),
        val(bill.profit),
        val(bill.revenue),
        val(share),
        val(paid),
    );
    assert(val(headroom(payer)) >= 0real);
    assert(0real <= p <= r);
    assert(a + b + c + d == r);
    assert(0real <= s <= 1real && p - r * unit <= r * s <= p) by {
        if r > 0real {
            assert(0real <= p / r <= 1real) by (nonlinear_arith)
                requires
                    0real <= p <= r,
                    r > 0real,
            ;
            assert(p / r - unit <= s <= p / r && s >= 0real) by {
                reveal(rounds_down);
                assert(fits(limit, val(paid) / val(bill.revenue)));
            }
            assert(p - r * unit <= r * s <= p) by (nonlinear_arith)
                requires
                    r > 0real,
                    p / r - unit <= s <= p / r,
            ;
        } else {
            assert(s == 0real && r == 0real && p == 0real);
            assert(r * s == 0real && r * unit == 0real) by (nonlinear_arith)
                requires
                    r == 0real,
            ;
        }
    }
    lemma_scaled(val, limit, unit, bill.rebate, share);
    lemma_scaled(val, limit, unit, bill.purchase, share);
    lemma_scaled(val, limit, unit, bill.transport, share);
    lemma_scaled(val, limit, unit, bill.profit, share);
    let v = val(carriage);
    assert(v / 2real - unit <= val(toll) <= v / 2real) by {
        reveal(rounds_down);
        let two = val(whole::<N>(2));
        assert(v / two == v / 2real);
        assert(fits(limit, val(carriage) / two));
    }
    assert(a * s + b * s + c * s + d * s == r * s) by (nonlinear_arith)
        requires
            a + b + c + d == r,
    ;
    assert(unit * (r + 6real) == r * unit + 6real * unit) by (nonlinear_arith);
    assert(r * unit >= 0real) by (nonlinear_arith)
        requires
            r >= 0real,
            unit >= 0real,
    ;
}

/// What settling the arrivals among the first `n` shipments leads to is in range.
pub open spec fn travel_fits<N: Number>(
    val: spec_fn(N) -> real,
    limit: real,
    model: WorldModel<N>,
    pending: Seq<Shipment<N>>,
    rolls: Seq<CargoRoll<N>>,
    n: int,
) -> bool
    decreases n,
{
    n <= 0 || {
        let before = model.after_travel_of(pending, rolls, n - 1);
        let shipment = moved(pending[n - 1], rolls[n - 1]);
        &&& travel_fits(val, limit, model, pending, rolls, n - 1)
        &&& shipment.months_remaining == 0 ==> arrival_fits(val, limit, before, shipment)
    }
}

/// What rounding may lose on the arrivals among the first `n` shipments.
pub open spec fn travel_slip<N: Number>(
    val: spec_fn(N) -> real,
    unit: real,
    model: WorldModel<N>,
    pending: Seq<Shipment<N>>,
    rolls: Seq<CargoRoll<N>>,
    n: int,
) -> real
    decreases n,
{
    if n <= 0 {
        0real
    } else {
        let before = model.after_travel_of(pending, rolls, n - 1);
        let shipment = moved(pending[n - 1], rolls[n - 1]);
        travel_slip(val, unit, model, pending, rolls, n - 1) + if shipment.months_remaining
            == 0 {
            arrival_slip(val, unit, before, shipment)
        } else {
            0real
        }
    }
}

proof fn lemma_travel<N: Number>(
    val: spec_fn(N) -> real,
    limit: real,
    unit: real,
    model: WorldModel<N>,
    pending: Seq<Shipment<N>>,
    rolls: Seq<CargoRoll<N>>,
    n: int,
)
    requires
        linear_within(val, limit),
        rounds_down(val, limit, unit),
        limit >= 2real,
        0real <= unit,
        model.wf(),
        model.priced(),
        0 <= n <= pending.len(),
        forall|k: int| 0 <= k < pending.len() ==> model.shipment_wf(#[trigger] pending[k]),
        travel_fits(val, limit, model, pending, rolls, n),
    ensures
        ({
            let after = model.after_travel_of(pending, rolls, n);
            &&& after.wf()
            &&& after.priced()
            &&& after.routes == model.routes
            &&& after.settlements.len() == model.settlements.len()
            &&& after.traders.len() == model.traders.len()
            &&& wealth(val, model) - travel_slip(val, unit, model, pending, rolls, n) <= wealth(
                val,
                after,
            ) <= wealth(val, model)
            &&& travel_slip(val, unit, model, pending, rolls, n) >= 0real
        }),
    decreases n,
{
    if n > 0 {
        lemma_travel(val, limit, unit, model, pending, rolls, n - 1);
        let before = model.after_travel_of(pending, rolls, n - 1);
        let last = pending[n - 1];
        let shipment = moved(last, rolls[n - 1]);
        assert(model.shipment_wf(last));
        lemma_travel_wf(before, last, rolls[n - 1]);
        if shipment.months_remaining == 0 {
            let reported = WorldModel {
                events: before.events + travel_report(last, rolls[n - 1]),
                ..before
            };
            assert(before.same_names(reported));
            lemma_same_names_wf(before, reported);
            assert(reported.invoice_of(shipment) == before.invoice_of(shipment));
            assert(reported.share_paid(shipment) == before.share_paid(shipment));
            law_arrival_rounds_little(val, limit, unit, reported, shipment);
        }
    }
}

/// What settling the arrivals of a month leads to is in range.
pub open spec fn advance_fits<N: Number>(
    val: spec_fn(N) -> real,
    limit: real,
    model: WorldModel<N>,
    rolls: Seq<CargoRoll<N>>,
) -> bool {
    travel_fits(
        val,
        limit,
        WorldModel { shipments: Seq::empty(), ..model },
        model.shipments,
        rolls,
        model.shipments.len() as int,
    )
}

/// What rounding may lose on the arrivals of a month.
pub open spec fn advance_slip<N: Number>(
    val: spec_fn(N) -> real,
    unit: real,
    model: WorldModel<N>,
    rolls: Seq<CargoRoll<N>>,
) -> real {
    travel_slip(
        val,
        unit,
        WorldModel { shipments: Seq::empty(), ..model },
        model.shipments,
        rolls,
        model.shipments.len() as int,
    )
}

/// Law: in range, whatever is lost on the road, left unpaid, capped or rebated,
/// moving shipments on makes no money, and rounding loses no more of it than
/// `advance_slip`.
pub proof fn law_advance_rounds_little<N: Number>(
    val: spec_fn(N) -> real,
    limit: real,
    unit: real,
    model: WorldModel<N>,
    rolls: Seq<CargoRoll<N>>,
)
    requires
        linear_within(val, limit),
        rounds_down(val, limit, unit),
        limit >= 2real,
        0real <= unit,
        model.wf(),
        model.priced(),
        advance_fits(val, limit, model, rolls),
    ensures
        wealth(val, model) - advance_slip(val, unit, model, rolls) <= wealth(
            val,
            model.after_advance(rolls),
        ) <= wealth(val, model),
        advance_slip(val, unit, model, rolls) >= 0real,
{
    let emptied = WorldModel { shipments: Seq::empty(), ..model };
    assert(emptied.wf()) by {
        assert forall|i: int| 0 <= i < emptied.routes.len() implies emptied.route_wf(
            #[trigger] emptied.routes[i],
        ) by {
            assert(model.route_wf(model.routes[i]));
        }
        assert forall|i: int| 0 <= i < emptied.traders.len() implies emptied.trader_wf(
            #[trigger] emptied.traders[i],
        ) by {
            assert(model.trader_wf(model.traders[i]));
        }
    }
    assert forall|i: int| 0 <= i < emptied.settlements.len() implies (
    #[trigger] emptied.settlements[i]).prices.total() by {
        assert(model.settlements[i].prices.total());
    }
    assert forall|k: int| 0 <= k < model.shipments.len() implies emptied.shipment_wf(
        #[trigger] model.shipments[k],
    ) by {
        assert(model.shipment_wf(model.shipments[k]));
    }
    lemma_travel(
        val,
        limit,
        unit,
        emptied,
        model.shipments,
        rolls,
        model.shipments.len() as int,
    );
}

/// What a month leads to is in range.
pub open spec fn month_fits<N: Number>(
    val: spec_fn(N) -> real,
    limit: real,
    model: WorldModel<N>,
    rolls: Seq<CargoRoll<N>>,
) -> bool {
    let quoted = model.after_supply().after_price_update();
    let serviced = quoted.after_interest();
    &&& interest_fits(val, limit, quoted)
    &&& expenses_fit(val, limit, serviced, serviced.traders.len() as int)
    &&& advance_fits(val, limit, model.after_opening(), rolls)
}

/// What rounding may lose in a month.
pub open spec fn month_slip<N: Number>(
    val: spec_fn(N) -> real,
    unit: real,
    model: WorldModel<N>,
    rolls: Seq<CargoRoll<N>>,
) -> real {
    interest_slip(val, unit, model.after_supply().after_price_update()) + advance_slip(
        val,
        unit,
        model.after_opening(),
        rolls,
    )
}

/// Law: in range, a month makes no money; where the interest that is collected
/// reaches someone, rounding loses no more of it than `month_slip`.
pub proof fn law_month_rounds_little<N: Number>(
    val: spec_fn(N) -> real,
    limit: real,
    unit: real,
    model: WorldModel<N>,
    rolls: Seq<CargoRoll<N>>,
)
    requires
        linear_within(val, limit),
        rounds_down(val, limit, unit),
        limit >= 2real,
        0real <= unit,
        model.wf(),
        month_fits(val, limit, model, rolls),
    ensures
        wealth(val, model.after_month(rolls)) <= wealth(val, model),
        interest_reaches_someone(model.after_supply().after_price_update()) ==> wealth(
            val,
            model.after_month(rolls),
        ) >= wealth(val, model) - month_slip(val, unit, model, rolls),
        month_slip(val, unit, model, rolls) >= 0real,
{
    let fed = model.after_supply();
    lemma_supply_wf(model);
    lemma_supply_wealth(val, model);

    let quoted = fed.after_price_update();
    lemma_price_update_wf(fed);
    lemma_price_update_wealth(val, fed);

    let serviced = quoted.after_interest();
    law_interest_rounds_little(val, limit, unit, quoted);
    lemma_interest_wf(quoted);
    assert forall|i: int| 0 <= i < serviced.settlements.len() implies (
    #[trigger] serviced.settlements[i]).prices.total() by {
        assert(quoted.settlements[i].prices.total());
    }

    let paid = serviced.after_expenses();
    law_expenses_round_nothing(val, limit, serviced);
    lemma_expenses_wf(serviced);

    let opened = paid.after_trading();
    lemma_trading_keeps_balances(paid, paid.traders.len() as int);
    lemma_same_treasuries(
        val,
        paid.settlements,
        opened.settlements,
        paid.settlements.len() as int,
    );
    assert(wealth(val, opened) == wealth(val, paid));
    assert forall|i: int| 0 <= i < opened.settlements.len() implies (
    #[trigger] opened.settlements[i]).prices.total() by {
        assert(paid.settlements[i].prices.total());
    }
    law_advance_rounds_little(val, limit, unit, opened, rolls);
}

/// What the months lead to is in range, and the interest of each reaches someone.
pub open spec fn months_fit<N: Number>(
    val: spec_fn(N) -> real,
    limit: real,
    model: WorldModel<N>,
    luck: Seq<Seq<CargoRoll<N>>>,
) -> bool
    decreases luck.len(),
{
    luck.len() == 0 || {
        let before = model.after_months(luck.drop_last());
        &&& months_fit(val, limit, model, luck.drop_last())
        &&& month_fits(val, limit, before, luck.last())
        &&& interest_reaches_someone(before.after_supply().after_price_update())
    }
}

/// What rounding may lose in the months.
pub open spec fn months_slip<N: Number>(
    val: spec_fn(N) -> real,
    unit: real,
    model: WorldModel<N>,
    luck: Seq<Seq<CargoRoll<N>>>,
) -> real
    decreases luck.len(),
{
    if luck.len() == 0 {
        0real
    } else {
        months_slip(val, unit, model, luck.drop_last()) + month_slip(
            val,
            unit,
            model.after_months(luck.drop_last()),
            luck.last(),
        )
    }
}

/// Law: in range, however many months pass, they make no money, and rounding loses
/// no more of it than `months_slip`.
pub proof fn law_months_round_little<N: Number>(
    val: spec_fn(N) -> real,
    limit: real,
    unit: real,
    model: WorldModel<N>,
    luck: Seq<Seq<CargoRoll<N>>>,
)
    requires
        linear_within(val, limit),
        rounds_down(val, limit, unit),
        limit >= 2real,
        0real <= unit,
        model.wf(),
        months_fit(val, limit, model, luck),
    ensures
        wealth(val, model) - months_slip(val, unit, model, luck) <= wealth(
            val,
            model.after_months(luck),
        ) <= wealth(val, model),
        model.after_months(luck).wf(),
    decreases luck.len(),
{
    if luck.len() > 0 {
        law_months_round_little(val, limit, unit, model, luck.drop_last());
        let before = model.after_months(luck.drop_last());
        law_month_rounds_little(val, limit, unit, before, luck.last());
        law_events_name_what_exists(before, luck.last());
    }
}

proof fn lemma_supply_wealth<N: Number>(val: spec_fn(N) -> real, model: WorldModel<N>)
    requires
        model.wf(),
    ensures
        wealth(val, model.after_supply()) == wealth(val, model),
{
    lemma_supply_wf(model);
    let made = model.after_new_month().after_route_reset().after_recovery().after_production();
    let fed = Seq::new(made.settlements.len(), |i: int| consumed(made.settlements[i]));
    let missing = made.all_shortfalls();
    lemma_shortfalls_named(made);
    lemma_shortfalls_shape(fed, missing, missing.len() as int);
    lemma_same_treasuries(
        val,
        model.settlements,
        model.after_supply().settlements,
        model.settlements.len() as int,
    );
}

proof fn lemma_price_update_wealth<N: Number>(val: spec_fn(N) -> real, model: WorldModel<N>)
    requires
        model.wf(),
    ensures
        wealth(val, model.after_price_update()) == wealth(val, model),
{
    let after = model.after_price_update();
    lemma_same_treasuries(
        val,
        model.settlements,
        after.settlements,
        model.settlements.len() as int,
    );
    assert forall|i: int| 0 <= i < model.traders.len() implies (#[trigger] after.traders[i]).money
        == model.traders[i].money by {
        assert(after.traders[i] == model.after_repricing().informed(i as TraderId));
    }
    lemma_same_purses(val, model.traders, after.traders, model.traders.len() as int);
}

/// Law: months in fixed-point numbers that stay in their range make no money; they
/// lose no more than a billionth for each unit of money that changes hands on
/// arrivals, six billionths for each arrival, and what rounding takes of the interest.
pub proof fn law_fixed_months_round_little(
    model: WorldModel<Fixed>,
    luck: Seq<Seq<CargoRoll<Fixed>>>,
)
    requires
        model.wf(),
        months_fit(|x: Fixed| fixed_value(x), fixed_limit(), model, luck),
    ensures
        ({
            let val = |x: Fixed| fixed_value(x);
            wealth(val, model) - months_slip(val, fixed_unit(), model, luck) <= wealth(
                val,
                model.after_months(luck),
            ) <= wealth(val, model)
        }),
{
    law_fixed_is_linear();
    law_fixed_rounds_down();
    law_months_round_little(|x: Fixed| fixed_value(x), fixed_limit(), fixed_unit(), model, luck);
}

} // verus!
