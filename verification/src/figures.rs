//! What settlements, their production and the expenses of traders come to, in reals.
//!
//! Each law gives the figure that the reals have, worked out from what went in, and how
//! far rounding may take the result below it.

use crate::accounts::{
    count_of, curtailed_by, law_consumption_comes_from_stores, law_consumption_leaves_the_rest,
    lemma_count_add, lemma_count_chain, lemma_count_short, lemma_part_in_chain, tells_consumed,
    tells_shortage, tells_thrift,
};
use crate::event::Event;
use crate::finance::lemma_expenses_shape;
use crate::goods::{base_price, Good};
use crate::number::{
    fits, hundredths, lemma_product, lemma_quotient, linear, linear_within, ordered, rounds_down,
    whole, Number,
};
use crate::production::{
    consumption_report, demand, fulfillment, meal_report, meal_shortfall, output_report, production_report, served, shortfalls,
};
use crate::settlement::{austere_share, Settlement, SettlementId};
use crate::trader::TraderId;
use crate::world::{chain, WorldModel};
use vstd::prelude::*;

verus! {

/// The smaller of two reals.
pub open spec fn least(x: real, y: real) -> real {
    if x <= y {
        x
    } else {
        y
    }
}

/// The larger of two reals.
pub open spec fn most(x: real, y: real) -> real {
    if x >= y {
        x
    } else {
        y
    }
}

/// `got` is `ideal` or less, by at most `slack`.
pub open spec fn just_below(ideal: real, got: real, slack: real) -> bool {
    ideal - slack <= got <= ideal
}

/// What a good is worth where supply meets demand.
pub open spec fn worth(good: Good) -> real {
    match good {
        Good::Food => 10real,
        Good::Ore => 8real,
        Good::Tools => 20real,
    }
}

/// The amount of `good` on a list, or zero where none is on it.
pub open spec fn amount_of<N: Number>(val: spec_fn(N) -> real, amount: Option<N>) -> real {
    match amount {
        Some(amount) => val(amount),
        None => 0real,
    }
}

/// What the settlement makes in a month at full capacity, at what it is worth.
pub open spec fn monthly_worth<N: Number>(
    val: spec_fn(N) -> real,
    settlement: Settlement<N>,
) -> real {
    amount_of(val, settlement.production.at(Good::Food)) * 10real + amount_of(
        val,
        settlement.production.at(Good::Ore),
    ) * 8real + amount_of(val, settlement.production.at(Good::Tools)) * 20real
}

/// The worth of each product, a month's and three months' worth of all of them lie within
/// the range.
pub open spec fn worth_fits<N: Number>(
    val: spec_fn(N) -> real,
    limit: real,
    unit: real,
    settlement: Settlement<N>,
) -> bool {
    let share = (limit - 10real * unit) / 9real;
    &&& fits(share, amount_of(val, settlement.production.at(Good::Food)) * 10real)
    &&& fits(share, amount_of(val, settlement.production.at(Good::Ore)) * 8real)
    &&& fits(share, amount_of(val, settlement.production.at(Good::Tools)) * 20real)
}

/// Law: a settlement may borrow three months of its production.
pub proof fn law_credit_in_numbers<N: Number>(
    val: spec_fn(N) -> real,
    limit: real,
    unit: real,
    settlement: Settlement<N>,
)
    requires
        linear_within(val, limit),
        rounds_down(val, limit, unit),
        limit >= 20real,
        worth_fits(val, limit, unit, settlement),
    ensures
        just_below(
            monthly_worth(val, settlement),
            val(settlement.production_value()),
            3real * unit,
        ),
        just_below(
            3real * monthly_worth(val, settlement),
            val(settlement.borrowing_limit()),
            10real * unit,
        ),
{
    let (food, ore, tools) = (
        settlement.production.at(Good::Food),
        settlement.production.at(Good::Ore),
        settlement.production.at(Good::Tools),
    );
    assert(0real <= unit) by {
        reveal(rounds_down);
    }
    assert(val(whole::<N>(0)) == 0real && val(whole::<N>(10)) == 10real && val(whole::<N>(8))
        == 8real && val(whole::<N>(20)) == 20real && val(whole::<N>(3)) == 3real);
    if food is Some {
        lemma_product(val, limit, unit, food->0, base_price(Good::Food));
    }
    if ore is Some {
        lemma_product(val, limit, unit, ore->0, base_price(Good::Ore));
    }
    if tools is Some {
        lemma_product(val, limit, unit, tools->0, base_price(Good::Tools));
    }
    let value = settlement.production_value();
    lemma_product(val, limit, unit, value, whole::<N>(3));
}

/// Law: a settlement can spend what it has and may still borrow; where it is deeper in debt
/// than it may be, nothing.
pub proof fn law_buying_power_in_numbers<N: Number>(
    val: spec_fn(N) -> real,
    limit: real,
    settlement: Settlement<N>,
)
    requires
        linear_within(val, limit),
        limit >= 0real,
        fits(limit, val(settlement.money) + val(settlement.borrowing_limit())),
    ensures
        ({
            let means = val(settlement.money) + val(settlement.borrowing_limit());
            val(settlement.buying_power()) == if val(settlement.money) >= 0real {
                means
            } else {
                most(means, 0real)
            }
        }),
{
    assert(val(whole::<N>(0)) == 0real);
}

/// Law: upkeep is half of a trader's capacity, or what they have where that is less.
pub proof fn law_upkeep_in_numbers<N: Number>(
    val: spec_fn(N) -> real,
    limit: real,
    unit: real,
    model: WorldModel<N>,
    trader: int,
)
    requires
        linear_within(val, limit),
        rounds_down(val, limit, unit),
        limit >= 1real,
        fits(limit, val(model.traders[trader].trade_capacity)),
    ensures
        ({
            let payer = model.traders[trader];
            let capacity = val(payer.trade_capacity);
            just_below(
                least(capacity / 2real, most(val(payer.money), 0real)),
                val(model.upkeep(trader)),
                unit,
            )
        }),
{
    let payer = model.traders[trader];
    let half = hundredths::<N>(50);
    let capacity = val(payer.trade_capacity);
    assert(val(half) * 100real == 50real && val(whole::<N>(0)) == 0real);
    assert(capacity * val(half) == capacity / 2real) by (nonlinear_arith)
        requires
            val(half) * 100real == 50real,
    ;
    lemma_product(val, limit, unit, payer.trade_capacity, half);
}

/// What a trader with this money and this capacity spends where they are.
pub open spec fn local_figure(money: real, capacity: real) -> real {
    let above = most(money - 400real, 0real);
    least(above, most(capacity / 2real, above * 15real / 100real))
}

/// Law: a trader spends half of their capacity, or fifteen hundredths of what lies above
/// the reserve of 400 where that is more, but nothing of the reserve.
pub proof fn law_local_spending_in_numbers<N: Number>(
    val: spec_fn(N) -> real,
    limit: real,
    unit: real,
    model: WorldModel<N>,
    trader: int,
)
    requires
        linear_within(val, limit),
        rounds_down(val, limit, unit),
        limit >= 400real,
        fits(limit, val(model.traders[trader].trade_capacity)),
        fits(limit, val(model.traders[trader].money)),
        fits(limit, val(model.traders[trader].money) - 400real),
    ensures
        ({
            let payer = model.traders[trader];
            just_below(
                local_figure(val(payer.money), val(payer.trade_capacity)),
                val(model.local_spending(trader)),
                unit,
            )
        }),
{
    let payer = model.traders[trader];
    let half = hundredths::<N>(50);
    let part = hundredths::<N>(15);
    let capacity = val(payer.trade_capacity);
    assert(val(half) * 100real == 50real && val(part) * 100real == 15real);
    assert(val(whole::<N>(0)) == 0real && val(whole::<N>(400)) == 400real);
    assert(0real <= unit) by {
        reveal(rounds_down);
    }
    assert(capacity * val(half) == capacity / 2real) by (nonlinear_arith)
        requires
            val(half) * 100real == 50real,
    ;
    lemma_product(val, limit, unit, payer.trade_capacity, half);
    let spendable = payer.money.difference(whole(400)).larger(whole(0));
    let above = val(spendable);
    assert(above == most(val(payer.money) - 400real, 0real));
    assert(above * val(part) == above * 15real / 100real) by (nonlinear_arith)
        requires
            val(part) * 100real == 15real,
    ;
    lemma_product(val, limit, unit, spendable, part);
}

/// A trader's money stays within the range as they pay their expenses.
pub open spec fn purse_fits<N: Number>(
    val: spec_fn(N) -> real,
    limit: real,
    money: N,
    capacity: N,
) -> bool {
    &&& fits(limit, val(capacity))
    &&& val(capacity) >= 0real
    &&& fits(limit - 400real, val(money))
}

/// Law: each trader pays their own upkeep and local spending, once, whatever the others
/// do: what is left is their money, less the upkeep, less what they then spend.
pub proof fn law_expenses_in_numbers<N: Number>(
    val: spec_fn(N) -> real,
    limit: real,
    unit: real,
    model: WorldModel<N>,
    trader: TraderId,
)
    requires
        linear_within(val, limit),
        rounds_down(val, limit, unit),
        limit >= 800real,
        unit <= 1real,
        model.traders_wf(),
        model.traders.len() <= usize::MAX,
        trader < model.traders.len(),
        purse_fits(
            val,
            limit,
            model.traders[trader as int].money,
            model.traders[trader as int].trade_capacity,
        ),
    ensures
        ({
            let payer = model.traders[trader as int];
            let (money, capacity) = (val(payer.money), val(payer.trade_capacity));
            let left = val(model.after_expenses().traders[trader as int].money);
            let kept = money - least(capacity / 2real, most(money, 0real));
            &&& kept - local_figure(kept, capacity) <= left
            &&& left <= kept - local_figure(kept, capacity) + 3real * unit
        }),
{
    let n = model.traders.len() as int;
    lemma_own_expenses(model, trader, n);
    let payer = model.traders[trader as int];
    let t = trader as int;
    law_upkeep_in_numbers(val, limit, unit, model, t);
    assert(0real <= unit) by {
        reveal(rounds_down);
    }
    let (money, capacity) = (val(payer.money), val(payer.trade_capacity));
    let upkeep = model.upkeep(t);
    let kept = model.after_upkeep(trader);
    assert(model.trader_wf(model.traders[t]));
    assert(kept.traders[t].money == payer.money.difference(upkeep));
    assert(val(whole::<N>(0)) == 0real);
    assert(money <= 0real ==> val(upkeep) <= 0real);
    assert(val(kept.traders[t].money) == money - val(upkeep));
    law_local_spending_in_numbers(val, limit, unit, kept, t);
    let (a, b) = (
        money - least(capacity / 2real, most(money, 0real)),
        val(kept.traders[t].money),
    );
    assert(a <= b <= a + unit);
    assert(local_figure(a, capacity) <= local_figure(b, capacity) <= local_figure(a, capacity)
        + unit);
}

/// A trader's expenses depend on that trader alone.
proof fn lemma_own_expenses<N: Number>(model: WorldModel<N>, trader: TraderId, n: int)
    requires
        model.traders_wf(),
        trader < model.traders.len() <= usize::MAX,
        0 <= n <= model.traders.len(),
    ensures
        ({
            let after = model.after_expenses_of(n);
            let t = trader as int;
            let kept = model.after_upkeep(trader);
            &&& model.same_names(after)
            &&& after.traders[t].trade_capacity == model.traders[t].trade_capacity
            &&& after.traders[t].money == if t < n {
                model.traders[t].money.difference(model.upkeep(t)).difference(
                    kept.local_spending(t),
                )
            } else {
                model.traders[t].money
            }
        }),
    decreases n,
{
    if n > 0 {
        lemma_own_expenses(model, trader, n - 1);
        lemma_expenses_shape(model, n - 1);
        lemma_expenses_shape(model, n);
        let before = model.after_expenses_of(n - 1);
        let payer = (n - 1) as TraderId;
        assert(model.trader_wf(model.traders[n - 1]));
        assert(before.trader_wf(before.traders[n - 1]));
        let kept = before.after_upkeep(payer);
        let after = kept.after_local_spending(payer);
        assert(model.trader_wf(model.traders[trader as int]));
        if trader as int == n - 1 {
            assert(kept.traders[n - 1].money == model.after_upkeep(trader).traders[n - 1].money);
            assert(kept.traders[n - 1].trade_capacity
                == model.after_upkeep(trader).traders[n - 1].trade_capacity);
        }
    }
}

/// Law: upkeep and local spending are reported, in this order, if and only if anything is
/// paid, with the amount, who paid it and where.
pub proof fn law_expenses_are_reported<N: Number>(model: WorldModel<N>, trader: TraderId)
    requires
        model.traders_wf(),
        trader < model.traders.len(),
    ensures
        ({
            let payer = model.traders[trader as int];
            let kept = model.after_upkeep(trader);
            let after = kept.after_local_spending(trader);
            let upkeep = model.upkeep(trader as int);
            let local = kept.local_spending(trader as int);
            let first = if whole::<N>(0).less(upkeep) {
                seq![Event::UpkeepPaid { trader, home_base: payer.home_base, amount: upkeep }]
            } else {
                Seq::empty()
            };
            let second = if whole::<N>(0).less(local) {
                seq![Event::LocalSpending { trader, settlement: payer.location, amount: local }]
            } else {
                Seq::empty()
            };
            after.events == model.events + first + second
        }),
{
    assert(model.trader_wf(model.traders[trader as int]));
    let payer = model.traders[trader as int];
    let kept = model.after_upkeep(trader);
    let after = kept.after_local_spending(trader);
    let upkeep = model.upkeep(trader as int);
    let local = kept.local_spending(trader as int);
    let first = if whole::<N>(0).less(upkeep) {
        seq![Event::UpkeepPaid { trader, home_base: payer.home_base, amount: upkeep }]
    } else {
        Seq::empty()
    };
    let second = if whole::<N>(0).less(local) {
        seq![Event::LocalSpending { trader, settlement: payer.location, amount: local }]
    } else {
        Seq::empty()
    };
    assert(kept.events =~= model.events + first);
    assert(after.events =~= model.events + first + second);
}

/// Law: what is there of a good after production is what was there and what was made: the
/// monthly amount, scaled by what the production has recovered to; of other goods there is
/// what there was.  Production is reported once for each good that is made, and nothing
/// but stores changes.
pub proof fn law_production_in_numbers<N: Number>(
    val: spec_fn(N) -> real,
    limit: real,
    unit: real,
    model: WorldModel<N>,
    place: SettlementId,
    good: Good,
)
    requires
        linear_within(val, limit),
        rounds_down(val, limit, unit),
        limit >= 1real,
        model.numbered(),
        place < model.settlements.len(),
        ({
            let settlement = model.settlements[place as int];
            let stock = val(settlement.stockpiles.at_or(good, whole(0)));
            let amount = amount_of(val, settlement.production.at(good));
            let scale = val(settlement.production_scale.at_or(good, whole(1)));
            &&& fits(limit - unit, stock + amount * scale)
            &&& fits(limit, amount * scale)
        }),
    ensures
        ({
            let settlement = model.settlements[place as int];
            let after = model.after_production();
            let now = after.settlements[place as int];
            let stock = val(settlement.stockpiles.at_or(good, whole(0)));
            let new_stock = val(now.stockpiles.at_or(good, whole(0)));
            let amount = amount_of(val, settlement.production.at(good));
            let scale = val(settlement.production_scale.at_or(good, whole(1)));
            let reports = after.events.skip(model.events.len() as int);
            &&& settlement.production.at(good) is Some ==> {
                &&& just_below(stock + amount * scale, new_stock, unit)
                &&& count_of(reports, tells_produced(place, good)) == 1
                &&& exists|made: N|
                    {
                        &&& #[trigger] reports.contains(
                            Event::Produced { settlement: place, good, amount: made },
                        )
                        &&& val(made) == new_stock - stock
                    }
            }
            &&& settlement.production.at(good) is None ==> {
                &&& now.stockpiles.at(good) == settlement.stockpiles.at(good)
                &&& count_of(reports, tells_produced(place, good)) == 0
            }
            &&& now == (Settlement { stockpiles: now.stockpiles, ..settlement })
            &&& after.settlements.len() == model.settlements.len()
            &&& after.events == model.events + reports
            &&& after == (WorldModel {
                settlements: after.settlements,
                events: after.events,
                ..model
            })
        }),
{
    let settlement = model.settlements[place as int];
    let after = model.after_production();
    let n = model.settlements.len() as int;
    let report = |i: int| production_report(model.settlements[i]);
    let reports = after.events.skip(model.events.len() as int);
    assert(settlement.id == place);
    assert(reports =~= chain(n, report));
    assert(after.events =~= model.events + reports);
    assert forall|i: int| 0 <= i < n && i != place implies count_of(
        #[trigger] report(i),
        tells_produced(place, good),
    ) == 0 by {
        assert(model.settlements[i].id == i);
        lemma_output_counted(model.settlements[i], place, good);
    }
    lemma_count_chain(n, report, tells_produced(place, good), place as int);
    lemma_output_counted(settlement, place, good);
    lemma_part_in_chain(n, report, place as int);
    if settlement.production.at(good) is Some {
        let (amount, scale) = (
            settlement.production.at(good)->0,
            settlement.production_scale.at_or(good, whole(1)),
        );
        lemma_product(val, limit, unit, amount, scale);
        let made = amount.product(scale);
        let told = Event::Produced { settlement: place, good, amount: made };
        let own = report(place as int);
        let food = output_report(settlement, Good::Food);
        let ore = output_report(settlement, Good::Ore);
        match good {
            Good::Food => {
                assert(own[0] == told);
            },
            Good::Ore => {
                assert(own[food.len() as int] == told);
            },
            Good::Tools => {
                assert(own[(food.len() + ore.len()) as int] == told);
            },
        }
        assert(own.contains(told));
        assert(reports.contains(told));
    }
}

/// The event reports what `place` made of `good`.
pub open spec fn tells_produced<N>(
    place: SettlementId,
    good: Good,
) -> spec_fn(Event<N>) -> bool {
    |event: Event<N>|
        event matches Event::Produced { settlement, good: of, .. } && settlement == place && of
            == good
}

proof fn lemma_output_counted<N: Number>(
    settlement: Settlement<N>,
    place: SettlementId,
    good: Good,
)
    ensures
        count_of(production_report(settlement), tells_produced(place, good)) == if settlement.id
            == place && settlement.production.at(good) is Some {
            1nat
        } else {
            0nat
        },
{
    let keep = tells_produced(place, good);
    let food = output_report(settlement, Good::Food);
    let ore = output_report(settlement, Good::Ore);
    let tools = output_report(settlement, Good::Tools);
    lemma_one_output(settlement, Good::Food, place, good);
    lemma_one_output(settlement, Good::Ore, place, good);
    lemma_one_output(settlement, Good::Tools, place, good);
    lemma_count_add(food, ore, keep);
    lemma_count_add(food + ore, tools, keep);
}

proof fn lemma_one_output<N: Number>(
    settlement: Settlement<N>,
    of: Good,
    place: SettlementId,
    good: Good,
)
    ensures
        count_of(output_report(settlement, of), tells_produced(place, good)) == if settlement.id
            == place && of == good && settlement.production.at(good) is Some {
            1nat
        } else {
            0nat
        },
{
    let made = settlement.production.at(of)->0.product(
        settlement.production_scale.at_or(of, whole(1)),
    );
    let told = Event::Produced { settlement: settlement.id, good: of, amount: made };
    lemma_count_short(told, told, tells_produced(place, good));
}

/// Law: after a month of recovery, each production scale is a fifth higher but no higher
/// than one; a scale of one or more stays, and one that was not set is one.
pub proof fn law_recovery_in_numbers<N: Number>(
    val: spec_fn(N) -> real,
    limit: real,
    model: WorldModel<N>,
    place: int,
    good: Good,
)
    requires
        linear_within(val, limit),
        limit >= 2real,
        0 <= place < model.settlements.len(),
        fits(limit, amount_of(val, model.settlements[place].production_scale.at(good))),
    ensures
        ({
            let before = model.settlements[place];
            let after = model.after_recovery().settlements[place];
            &&& after.production_scale.at(good) is Some
            &&& val(after.production_scale.at(good)->0) == match before.production_scale.at(good) {
                Some(scale) => if val(scale) < 1real {
                    least(val(scale) + 1real / 5real, 1real)
                } else {
                    val(scale)
                },
                None => 1real,
            }
            &&& after == (Settlement { production_scale: after.production_scale, ..before })
        }),
        model.after_recovery() == (WorldModel {
            settlements: model.after_recovery().settlements,
            ..model
        }),
        model.after_recovery().settlements.len() == model.settlements.len(),
{
    assert(val(whole::<N>(1)) == 1real);
    assert(val(hundredths::<N>(20)) * 100real == 20real);
}

/// What a settlement wants of a good that it consumes.
pub open spec fn wanted<N: Number>(settlement: Settlement<N>, good: Good) -> N {
    settlement.consumption.at(good)->0.product(settlement.appetite())
}

/// The stores of the settlement hold less of the good than it wants.
pub open spec fn lacking<N: Number>(
    val: spec_fn(N) -> real,
    settlement: Settlement<N>,
    good: Good,
) -> bool {
    &&& settlement.consumption.at(good) is Some
    &&& val(settlement.stockpiles.at_or(good, whole(0))) < val(wanted(settlement, good))
}

/// The part of what the settlement wants that its stores hold.
pub open spec fn met<N: Number>(
    val: spec_fn(N) -> real,
    settlement: Settlement<N>,
    good: Good,
) -> real {
    val(settlement.stockpiles.at_or(good, whole(0))) / val(wanted(settlement, good))
}

/// Law: where food is short, everything that the settlement makes is scaled to the part of
/// the food that there was; where ore is short, so are the tools of the third settlement,
/// by the part of the ore; all other scales stay as they are.
pub proof fn law_shortage_in_numbers<N: Number>(
    val: spec_fn(N) -> real,
    limit: real,
    unit: real,
    model: WorldModel<N>,
    place: SettlementId,
    good: Good,
)
    requires
        linear_within(val, limit),
        rounds_down(val, limit, unit),
        limit >= 1real,
        model.numbered(),
        place < model.settlements.len(),
        val(model.settlements[place as int].stockpiles.at_or(Good::Food, whole(0))) >= 0real,
        val(model.settlements[place as int].stockpiles.at_or(Good::Ore, whole(0))) >= 0real,
        val(model.settlements[place as int].stockpiles.at_or(Good::Tools, whole(0))) >= 0real,
    ensures
        ({
            let settlement = model.settlements[place as int];
            let scale = model.after_consumption().settlements[place as int].production_scale.at(
                good,
            );
            if place == 2 && good == Good::Tools && lacking(val, settlement, Good::Ore) {
                scale matches Some(x) && just_below(
                    met(val, settlement, Good::Ore),
                    val(x),
                    unit,
                ) && 0real <= val(x)
            } else if settlement.production.at(good) is Some && lacking(
                val,
                settlement,
                Good::Food,
            ) {
                scale matches Some(x) && just_below(
                    met(val, settlement, Good::Food),
                    val(x),
                    unit,
                ) && 0real <= val(x)
            } else {
                scale == settlement.production_scale.at(good)
            }
        }),
{
    let settlement = model.settlements[place as int];
    let share = settlement.appetite();
    assert(settlement.id == place);
    law_consumption_leaves_the_rest(model, place);
    let own = shortfalls(settlement);
    let (food, ore, tools) = (
        meal_shortfall(settlement, Good::Food, share),
        meal_shortfall(settlement, Good::Ore, share),
        meal_shortfall(settlement, Good::Tools, share),
    );
    assert(val(whole::<N>(0)) == 0real && val(whole::<N>(1)) == 1real);
    assert(own =~= food + ore + tools);
    reveal_with_fuel(curtailed_by, 4);
    if lacking(val, settlement, Good::Food) {
        lemma_met(val, limit, unit, settlement, Good::Food);
        assert(own[0] == food[0]);
    }
    if lacking(val, settlement, Good::Ore) {
        lemma_met(val, limit, unit, settlement, Good::Ore);
        assert(own[food.len() as int] == ore[0]);
    }
    if lacking(val, settlement, Good::Tools) {
        lemma_met(val, limit, unit, settlement, Good::Tools);
        assert(own[(food.len() + ore.len()) as int] == tools[0]);
    }
    assert(food.len() <= 1 && ore.len() <= 1 && tools.len() <= 1);
}

/// The part of a need that was met, as it is worked out.
proof fn lemma_met<N: Number>(
    val: spec_fn(N) -> real,
    limit: real,
    unit: real,
    settlement: Settlement<N>,
    good: Good,
)
    requires
        linear_within(val, limit),
        rounds_down(val, limit, unit),
        limit >= 1real,
        lacking(val, settlement, good),
        val(settlement.stockpiles.at_or(good, whole(0))) >= 0real,
    ensures
        ({
            let missing = meal_shortfall(settlement, good, settlement.appetite());
            &&& missing.len() == 1
            &&& missing[0].good == good
            &&& missing[0].settlement == settlement.id
            &&& !missing[0].needed.at_most(whole(0))
            &&& just_below(met(val, settlement, good), val(fulfillment(missing[0])), unit)
            &&& 0real <= val(fulfillment(missing[0]))
        }),
{
    let want = wanted(settlement, good);
    let eaten = want.smaller(settlement.stockpiles.at_or(good, whole(0)));
    let (h, w) = (val(eaten), val(want));
    assert(val(whole::<N>(0)) == 0real && val(whole::<N>(1)) == 1real);
    assert(0real <= h / w < 1real) by (nonlinear_arith)
        requires
            0real <= h < w,
    ;
    lemma_quotient(val, limit, unit, eaten, want);
}

/// Law: of a good that it consumes, a settlement eats its need times its appetite, or what
/// there is where that is less.  What it eats is gone from the stores and reported; where
/// the stores hold less than it wants, what is missing is reported, and where they hold
/// enough, nothing is.
pub proof fn law_consumption_in_numbers<N: Number>(
    val: spec_fn(N) -> real,
    limit: real,
    unit: real,
    model: WorldModel<N>,
    place: SettlementId,
    good: Good,
)
    requires
        linear_within(val, limit),
        rounds_down(val, limit, unit),
        limit >= 0real,
        model.numbered(),
        place < model.settlements.len(),
        model.settlements[place as int].consumption.at(good) is Some,
        0real <= val(model.settlements[place as int].stockpiles.at_or(good, whole(0))) <= limit,
        0real <= val(model.settlements[place as int].consumption.at(good)->0) * val(
            model.settlements[place as int].appetite(),
        ) <= limit,
    ensures
        ({
            let settlement = model.settlements[place as int];
            let want = val(settlement.consumption.at(good)->0) * val(settlement.appetite());
            let have = val(settlement.stockpiles.at_or(good, whole(0)));
            let after = model.after_consumption();
            let left = val(after.settlements[place as int].stockpiles.at_or(good, whole(0)));
            let reports = after.events.skip(model.events.len() as int);
            &&& just_below(least(want, have), have - left, unit)
            &&& 0real <= left
            &&& count_of(reports, tells_consumed(place, good)) == 1
            &&& exists|amount: N|
                {
                    &&& #[trigger] reports.contains(
                        Event::Consumed { settlement: place, good, amount },
                    )
                    &&& val(amount) == have - left
                }
            &&& have >= want ==> count_of(reports, tells_shortage(place, good)) == 0
            &&& have < want - unit ==> {
                &&& count_of(reports, tells_shortage(place, good)) == 1
                &&& exists|unmet: N|
                    {
                        &&& #[trigger] reports.contains(
                            Event::Shortage { settlement: place, good, unmet },
                        )
                        &&& just_below(want - have, val(unmet), unit)
                    }
            }
        }),
{
    let settlement = model.settlements[place as int];
    let (need, share) = (settlement.consumption.at(good)->0, settlement.appetite());
    lemma_product(val, limit, unit, need, share);
    let asked_for = need.product(share);
    assert(demand(settlement, good, share) == Some(asked_for));
    law_consumption_comes_from_stores(val, limit, model, place, good);
    let amount = served(settlement, good, asked_for);
    let after = model.after_consumption();
    let reports = after.events.skip(model.events.len() as int);
    assert(reports.contains(Event::Consumed { settlement: place, good, amount }));
    let unmet = asked_for.difference(amount);
    let short = Event::Shortage { settlement: place, good, unmet };
    let want = val(need) * val(share);
    let have = val(settlement.stockpiles.at_or(good, whole(0)));
    if have < want - unit {
        assert(reports.contains(short));
    }
}

/// What the first `n` traders pay to `place`: upkeep where it is their home, and what they
/// spend where they are.
pub open spec fn takings<N: Number>(
    val: spec_fn(N) -> real,
    model: WorldModel<N>,
    place: SettlementId,
    n: int,
) -> real
    decreases n,
{
    if n <= 0 {
        0real
    } else {
        let trader = (n - 1) as TraderId;
        takings(val, model, place, n - 1) + (if model.traders[n - 1].home_base == place {
            val(model.upkeep(n - 1))
        } else {
            0real
        }) + (if model.traders[n - 1].location == place {
            val(model.after_upkeep(trader).local_spending(n - 1))
        } else {
            0real
        })
    }
}

/// Law: every settlement takes in the upkeep of the traders whose home it is, and what
/// those spend who are there, and nothing else.
pub proof fn law_expenses_are_taken_in<N: Number>(
    val: spec_fn(N) -> real,
    model: WorldModel<N>,
    place: SettlementId,
    n: int,
)
    requires
        linear(val),
        model.traders_wf(),
        model.traders.len() <= usize::MAX,
        place < model.settlements.len(),
        0 <= n <= model.traders.len(),
    ensures
        val(model.after_expenses_of(n).settlements[place as int].money) == val(
            model.settlements[place as int].money,
        ) + takings(val, model, place, n),
    decreases n,
{
    if n > 0 {
        law_expenses_are_taken_in(val, model, place, n - 1);
        let before = model.after_expenses_of(n - 1);
        let trader = (n - 1) as TraderId;
        lemma_own_expenses(model, trader, n - 1);
        lemma_expenses_shape(model, n - 1);
        assert(model.trader_wf(model.traders[n - 1]));
        assert(before.traders[n - 1].location == model.traders[n - 1].location);
        let kept = before.after_upkeep(trader);
        assert(before.upkeep(n - 1) == model.upkeep(n - 1));
        assert(kept.traders[n - 1].money == model.after_upkeep(trader).traders[n - 1].money);
        assert(kept.traders[n - 1].trade_capacity
            == model.after_upkeep(trader).traders[n - 1].trade_capacity);
        assert(kept.local_spending(n - 1) == model.after_upkeep(trader).local_spending(n - 1));
        assert(kept.traders[n - 1].location == model.traders[n - 1].location);
    }
}

/// Law: a settlement that asks for less than 99 hundredths of its need says so, once, with
/// the share that it asks for, and no other does.
pub proof fn law_thrift_in_numbers<N: Number>(
    val: spec_fn(N) -> real,
    limit: real,
    model: WorldModel<N>,
    place: SettlementId,
)
    requires
        linear_within(val, limit),
        limit >= 1real,
        model.numbered(),
        place < model.settlements.len(),
    ensures
        ({
            let share = model.settlements[place as int].appetite();
            let reports = model.after_consumption().events.skip(model.events.len() as int);
            &&& count_of(reports, tells_thrift(place)) == if val(share) < 99real / 100real {
                1nat
            } else {
                0nat
            }
            &&& val(share) < 99real / 100real ==> reports.contains(
                Event::Austerity { settlement: place, multiplier: share },
            )
        }),
{
    law_consumption_leaves_the_rest(model, place);
    assert(val(hundredths::<N>(99)) * 100real == 99real);
}

/// Law: what is left of consumption is all of it, less half of the stress.
pub proof fn law_austerity_in_numbers<N: Number>(
    val: spec_fn(N) -> real,
    limit: real,
    unit: real,
    stress: N,
)
    requires
        linear_within(val, limit),
        rounds_down(val, limit, unit),
        limit >= 1real,
        fits(limit, val(stress)),
        fits(limit - unit, 1real - val(stress) / 2real),
    ensures
        just_below(
            1real - val(stress) / 2real + unit,
            val(austere_share(stress)),
            unit,
        ),
{
    let half = hundredths::<N>(50);
    assert(val(half) * 100real == 50real && val(whole::<N>(1)) == 1real);
    let s = val(stress);
    assert(val(half) * s == s / 2real) by (nonlinear_arith)
        requires
            val(half) * 100real == 50real,
    ;
    assert(0real <= unit) by {
        reveal(rounds_down);
    }
    lemma_product(val, limit, unit, half, stress);
}

/// What a settlement tells of one good that it makes.
pub open spec fn told_of_making<N: Number>(settlement: Settlement<N>, good: Good) -> Seq<Event<N>> {
    match settlement.production.at(good) {
        Some(amount) => {
            let scale = match settlement.production_scale.at(good) {
                Some(scale) => scale,
                None => whole(1),
            };
            let made = amount.product(scale);
            seq![Event::Produced { settlement: settlement.id, good, amount: made }]
        },
        None => Seq::empty(),
    }
}

/// What a settlement tells of its production: every good that it makes, in the order of the
/// goods, with the amount.
pub open spec fn told_of_production<N: Number>(settlement: Settlement<N>) -> Seq<Event<N>> {
    told_of_making(settlement, Good::Food) + told_of_making(settlement, Good::Ore)
        + told_of_making(settlement, Good::Tools)
}

/// What a settlement tells of one good that it consumes: what it ate, and what was missing.
pub open spec fn told_of_eating<N: Number>(
    val: spec_fn(N) -> real,
    settlement: Settlement<N>,
    good: Good,
) -> Seq<Event<N>> {
    match settlement.consumption.at(good) {
        Some(need) => {
            let want = need.product(settlement.appetite());
            let amount = want.smaller(settlement.stockpiles.at_or(good, whole(0)));
            let eaten = Event::Consumed { settlement: settlement.id, good, amount };
            let unmet = want.difference(amount);
            if val(amount) < val(want) {
                seq![eaten, Event::Shortage { settlement: settlement.id, good, unmet }]
            } else {
                seq![eaten]
            }
        },
        None => Seq::empty(),
    }
}

/// What a settlement tells of its consumption: its thrift, and of every good that it
/// consumes, in the order of the goods, what it ate and what was missing.
pub open spec fn told_of_consumption<N: Number>(
    val: spec_fn(N) -> real,
    settlement: Settlement<N>,
) -> Seq<Event<N>> {
    let share = settlement.appetite();
    let thrift = if val(share) < 99real / 100real {
        seq![Event::Austerity { settlement: settlement.id, multiplier: share }]
    } else {
        Seq::empty()
    };
    thrift + told_of_eating(val, settlement, Good::Food) + told_of_eating(
        val,
        settlement,
        Good::Ore,
    ) + told_of_eating(val, settlement, Good::Tools)
}

proof fn lemma_told<N: Number>(val: spec_fn(N) -> real, settlement: Settlement<N>, good: Good)
    requires
        ordered(val),
    ensures
        output_report(settlement, good) == told_of_making(settlement, good),
        meal_report(settlement, good, settlement.appetite()) == told_of_eating(
            val,
            settlement,
            good,
        ),
{
    assert(output_report(settlement, good) =~= told_of_making(settlement, good));
    assert(meal_report(settlement, good, settlement.appetite()) =~= told_of_eating(
        val,
        settlement,
        good,
    ));
}

proof fn lemma_all_told<N: Number>(
    val: spec_fn(N) -> real,
    limit: real,
    settlement: Settlement<N>,
)
    requires
        linear_within(val, limit),
        limit >= 1real,
    ensures
        production_report(settlement) == told_of_production(settlement),
        consumption_report(settlement) == told_of_consumption(val, settlement),
{
    assert(val(hundredths::<N>(99)) * 100real == 99real);
    lemma_told(val, settlement, Good::Food);
    lemma_told(val, settlement, Good::Ore);
    lemma_told(val, settlement, Good::Tools);
}

/// Law: production and consumption are told settlement by settlement, good by good, and
/// nothing else is told with them.
pub proof fn law_supply_is_told_in_order<N: Number>(
    val: spec_fn(N) -> real,
    limit: real,
    model: WorldModel<N>,
)
    requires
        linear_within(val, limit),
        limit >= 1real,
    ensures
        model.after_production().events == model.events + chain(
            model.settlements.len() as int,
            |i: int| told_of_production(model.settlements[i]),
        ),
        model.after_consumption().events == model.events + chain(
            model.settlements.len() as int,
            |i: int| told_of_consumption(val, model.settlements[i]),
        ),
{
    let n = model.settlements.len() as int;
    let (a, b) = (
        |i: int| production_report(model.settlements[i]),
        |i: int| told_of_production(model.settlements[i]),
    );
    let (c, d) = (
        |i: int| consumption_report(model.settlements[i]),
        |i: int| told_of_consumption(val, model.settlements[i]),
    );
    assert forall|i: int| 0 <= i < n implies #[trigger] a(i) == b(i) by {
        lemma_all_told(val, limit, model.settlements[i]);
    }
    assert forall|i: int| 0 <= i < n implies #[trigger] c(i) == d(i) by {
        lemma_all_told(val, limit, model.settlements[i]);
    }
    lemma_same_chain(n, a, b);
    lemma_same_chain(n, c, d);
}

/// Chains of equal parts are equal.
pub proof fn lemma_same_chain<A>(n: int, a: spec_fn(int) -> Seq<A>, b: spec_fn(int) -> Seq<A>)
    requires
        forall|i: int| 0 <= i < n ==> #[trigger] a(i) == b(i),
    ensures
        chain(n, a) == chain(n, b),
    decreases n,
{
    if n > 0 {
        lemma_same_chain(n - 1, a, b);
        assert(a(n - 1) == b(n - 1));
    }
}

} // verus!
