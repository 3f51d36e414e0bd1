//! What a month does to each settlement and each trader by itself: what is eaten,
//! what interest is paid and received, and what traders spend.

use crate::event::Event;
use crate::finance::{
    collected, credited, creditor_pool, debited, debts, interest_on, payable, Debt,
    DEBT_INTEREST_PERCENT,
};
use crate::goods::Good;
use crate::number::{
    fits, hundredths, lemma_product, lemma_products_in_order, lemma_quotient, linear_within,
    rounds_down, whole, Number,
};
use crate::production::{
    after_shortfalls, consumed, consumption_report, curtailed, demand, lemma_shortfalls_named,
    lemma_shortfalls_shape, meal_report, meal_shortfall, served, shortfalls, Shortfall,
    AUSTERITY_REPORT_PERCENT,
};
use crate::settlement::{Settlement, SettlementId};
use crate::trader::{TraderId, TraderModel};
use crate::world::{chain, WorldModel};
use vstd::prelude::*;

verus! {

/// How many of the events `keep` holds of.
pub open spec fn count_of<N>(events: Seq<Event<N>>, keep: spec_fn(Event<N>) -> bool) -> nat
    decreases events.len(),
{
    if events.len() == 0 {
        0
    } else {
        count_of(events.drop_last(), keep) + if keep(events.last()) {
            1nat
        } else {
            0nat
        }
    }
}

/// The event reports what `place` consumed of `good`.
pub open spec fn tells_consumed<N>(
    place: SettlementId,
    good: Good,
) -> spec_fn(Event<N>) -> bool {
    |event: Event<N>|
        event matches Event::Consumed { settlement, good: of, .. } && settlement == place && of
            == good
}

/// The event reports what `place` lacked of `good`.
pub open spec fn tells_shortage<N>(
    place: SettlementId,
    good: Good,
) -> spec_fn(Event<N>) -> bool {
    |event: Event<N>|
        event matches Event::Shortage { settlement, good: of, .. } && settlement == place && of
            == good
}

/// The event reports interest that `place` paid.
pub open spec fn tells_interest<N>(place: SettlementId) -> spec_fn(Event<N>) -> bool {
    |event: Event<N>| event matches Event::DebtInterest { debtor, .. } && debtor == place
}

pub proof fn lemma_count_add<N>(
    a: Seq<Event<N>>,
    b: Seq<Event<N>>,
    keep: spec_fn(Event<N>) -> bool,
)
    ensures
        count_of(a + b, keep) == count_of(a, keep) + count_of(b, keep),
    decreases b.len(),
{
    if b.len() == 0 {
        assert(a + b =~= a);
    } else {
        lemma_count_add(a, b.drop_last(), keep);
        assert((a + b).drop_last() =~= a + b.drop_last());
    }
}

/// Where only one part of a chain holds events of a sort, the chain holds as many
/// of them as that part.
pub proof fn lemma_count_chain<N>(
    n: int,
    part: spec_fn(int) -> Seq<Event<N>>,
    keep: spec_fn(Event<N>) -> bool,
    at: int,
)
    requires
        0 <= at,
        forall|i: int| 0 <= i < n && i != at ==> count_of(#[trigger] part(i), keep) == 0,
    ensures
        count_of(chain(n, part), keep) == if at < n {
            count_of(part(at), keep)
        } else {
            0
        },
    decreases n,
{
    if n > 0 {
        lemma_count_chain(n - 1, part, keep, at);
        lemma_count_add(chain(n - 1, part), part(n - 1), keep);
        let _ = part(n - 1);
    }
}

/// Short reports, counted.
pub proof fn lemma_count_short<N>(a: Event<N>, b: Event<N>, keep: spec_fn(Event<N>) -> bool)
    ensures
        count_of(Seq::<Event<N>>::empty(), keep) == 0,
        count_of(seq![a], keep) == if keep(a) {
            1nat
        } else {
            0nat
        },
        count_of(seq![a].push(b), keep) == (if keep(a) {
            1nat
        } else {
            0nat
        }) + (if keep(b) {
            1nat
        } else {
            0nat
        }),
{
    let one = seq![a];
    assert(one.drop_last() =~= Seq::<Event<N>>::empty());
    assert(count_of(one.drop_last(), keep) == 0);
    assert(one.last() == a);
    assert(one.push(b).drop_last() =~= one);
    assert(one.push(b).last() == b);
    assert(count_of(one, keep) == if keep(a) {
        1nat
    } else {
        0nat
    });
}

/// The report of one meal, counted.
proof fn lemma_meal_counted<N: Number>(
    settlement: Settlement<N>,
    of: Good,
    share: N,
    place: SettlementId,
    good: Good,
)
    ensures
        ({
            let report = meal_report(settlement, of, share);
            let here = settlement.id == place && of == good && demand(settlement, of, share) is Some;
            let wanted = demand(settlement, of, share)->0;
            &&& count_of(report, tells_consumed(place, good)) == if here {
                1nat
            } else {
                0nat
            }
            &&& count_of(report, tells_shortage(place, good)) == if here && served(
                settlement,
                of,
                wanted,
            ).less(wanted) {
                1nat
            } else {
                0nat
            }
        }),
{
    if demand(settlement, of, share) is Some {
        let wanted = demand(settlement, of, share)->0;
        let amount = served(settlement, of, wanted);
        let eaten = Event::Consumed { settlement: settlement.id, good: of, amount };
        let short = Event::Shortage {
            settlement: settlement.id,
            good: of,
            unmet: wanted.difference(amount),
        };
        lemma_count_short(eaten, short, tells_consumed(place, good));
        lemma_count_short(eaten, short, tells_shortage(place, good));
    }
}

/// The report of a settlement's consumption, counted.
proof fn lemma_meals_counted<N: Number>(
    settlement: Settlement<N>,
    place: SettlementId,
    good: Good,
)
    ensures
        ({
            let report = consumption_report(settlement);
            let share = settlement.appetite();
            let here = settlement.id == place && demand(settlement, good, share) is Some;
            let wanted = demand(settlement, good, share)->0;
            &&& count_of(report, tells_consumed(place, good)) == if here {
                1nat
            } else {
                0nat
            }
            &&& count_of(report, tells_shortage(place, good)) == if here && served(
                settlement,
                good,
                wanted,
            ).less(wanted) {
                1nat
            } else {
                0nat
            }
        }),
{
    let share = settlement.appetite();
    let food = meal_report(settlement, Good::Food, share);
    let ore = meal_report(settlement, Good::Ore, share);
    let tools = meal_report(settlement, Good::Tools, share);
    lemma_meal_counted(settlement, Good::Food, share, place, good);
    lemma_meal_counted(settlement, Good::Ore, share, place, good);
    lemma_meal_counted(settlement, Good::Tools, share, place, good);
    let thrift = Event::Austerity { settlement: settlement.id, multiplier: share };
    let start = if share.less(hundredths(AUSTERITY_REPORT_PERCENT)) {
        seq![thrift]
    } else {
        seq![]
    };
    let eat = tells_consumed(place, good);
    let lack = tells_shortage(place, good);
    lemma_count_short(thrift, thrift, eat);
    lemma_count_short(thrift, thrift, lack);
    lemma_count_add(start, food, eat);
    lemma_count_add(start, food, lack);
    lemma_count_add(start + food, ore, eat);
    lemma_count_add(start + food, ore, lack);
    lemma_count_add(start + food + ore, tools, eat);
    lemma_count_add(start + food + ore, tools, lack);
    assert(consumption_report(settlement) =~= start + food + ore + tools);
}

/// Law: a settlement eats the smaller of what it wants and what it has.  What it
/// eats is gone from its stores, which are not overdrawn; what it eats and what it
/// lacks is together what it wants.  Every good that it wants is reported once as
/// consumed, and once as short if and only if there was too little of it.
pub proof fn law_consumption_comes_from_stores<N: Number>(
    val: spec_fn(N) -> real,
    limit: real,
    model: WorldModel<N>,
    place: SettlementId,
    good: Good,
)
    requires
        linear_within(val, limit),
        limit >= 0real,
        model.numbered(),
        place < model.settlements.len(),
        demand(
            model.settlements[place as int],
            good,
            model.settlements[place as int].appetite(),
        ) is Some,
        0real <= val(model.settlements[place as int].stockpiles.at_or(good, whole(0))) <= limit,
        0real <= val(
            demand(
                model.settlements[place as int],
                good,
                model.settlements[place as int].appetite(),
            )->0,
        ) <= limit,
    ensures
        ({
            let settlement = model.settlements[place as int];
            let wanted = demand(settlement, good, settlement.appetite())->0;
            let need = val(wanted);
            let have = val(settlement.stockpiles.at_or(good, whole(0)));
            let amount = served(settlement, good, wanted);
            let after = model.after_consumption();
            let reports = after.events.skip(model.events.len() as int);
            &&& val(amount) == if need <= have {
                need
            } else {
                have
            }
            &&& val(after.settlements[place as int].stockpiles.at_or(good, whole(0))) == have - val(
                amount,
            )
            &&& have - val(amount) >= 0real
            &&& count_of(reports, tells_consumed(place, good)) == 1
            &&& reports.contains(Event::Consumed { settlement: place, good, amount })
            &&& count_of(reports, tells_shortage(place, good)) == if have < need {
                1nat
            } else {
                0nat
            }
            &&& have < need ==> {
                let unmet = wanted.difference(amount);
                &&& reports.contains(Event::Shortage { settlement: place, good, unmet })
                &&& val(unmet) == need - have
                &&& val(amount) + val(unmet) == need
            }
        }),
{
    let settlement = model.settlements[place as int];
    let share = settlement.appetite();
    let wanted = demand(settlement, good, share)->0;
    let amount = served(settlement, good, wanted);
    let report = |i: int| consumption_report(model.settlements[i]);
    let n = model.settlements.len() as int;
    let after = model.after_consumption();
    let reports = after.events.skip(model.events.len() as int);
    assert(settlement.id == place);
    assert(after.events == model.events + chain(n, report));
    assert(reports =~= chain(n, report));
    assert forall|i: int| 0 <= i < n && i != place implies count_of(
        #[trigger] report(i),
        tells_consumed(place, good),
    ) == 0 && count_of(report(i), tells_shortage(place, good)) == 0 by {
        assert(model.settlements[i].id == i);
        lemma_meals_counted(model.settlements[i], place, good);
    }
    lemma_count_chain(n, report, tells_consumed(place, good), place as int);
    lemma_count_chain(n, report, tells_shortage(place, good), place as int);
    lemma_meals_counted(settlement, place, good);
    assert(model.settlements_wf());
    lemma_shortfalls_named(model);
    let missing = model.all_shortfalls();
    let eaten = Seq::new(model.settlements.len(), |i: int| consumed(model.settlements[i]));
    lemma_shortfalls_shape(eaten, missing, missing.len() as int);
    assert(after.settlements[place as int].stockpiles == consumed(settlement).stockpiles);
    lemma_part_in_chain(n, report, place as int);
    lemma_meal_in_report(settlement, good);
    let meal = meal_report(settlement, good, share);
    assert(meal[0] == Event::Consumed { settlement: place, good, amount });
    assert(meal.contains(meal[0]));
    if amount.less(wanted) {
        assert(meal[1] == Event::Shortage {
            settlement: place,
            good,
            unmet: wanted.difference(amount),
        });
        assert(meal.contains(meal[1]));
    }
}

/// What is in a part is in the chain.
pub proof fn lemma_part_in_chain<A>(n: int, part: spec_fn(int) -> Seq<A>, at: int)
    requires
        0 <= at < n,
    ensures
        forall|x: A| part(at).contains(x) ==> #[trigger] chain(n, part).contains(x),
    decreases n,
{
    let before = chain(n - 1, part);
    assert forall|x: A| part(at).contains(x) implies #[trigger] chain(n, part).contains(x) by {
        if at == n - 1 {
            let last = part(at);
            let k = choose|k: int| 0 <= k < last.len() && last[k] == x;
            assert(chain(n, part) == before + last);
            assert(chain(n, part)[before.len() + k] == x);
        } else {
            lemma_part_in_chain(n - 1, part, at);
            assert(before.contains(x));
            let k = choose|k: int| 0 <= k < before.len() && before[k] == x;
            assert(chain(n, part)[k] == x);
        }
    }
}

/// What is reported of a meal is in the report of the settlement.
proof fn lemma_meal_in_report<N: Number>(settlement: Settlement<N>, good: Good)
    ensures
        forall|event: Event<N>|
            meal_report(settlement, good, settlement.appetite()).contains(event)
                ==> #[trigger] consumption_report(settlement).contains(event),
{
    let share = settlement.appetite();
    let all = consumption_report(settlement);
    let food = meal_report(settlement, Good::Food, share);
    let ore = meal_report(settlement, Good::Ore, share);
    let tools = meal_report(settlement, Good::Tools, share);
    let meal = meal_report(settlement, good, share);
    let thrift = all.len() - food.len() - ore.len() - tools.len();
    assert forall|event: Event<N>| meal.contains(event) implies #[trigger] all.contains(event) by {
        let k = choose|k: int| 0 <= k < meal.len() && meal[k] == event;
        match good {
            Good::Food => {
                assert(all[thrift + k] == event);
            },
            Good::Ore => {
                assert(all[thrift + food.len() + k] == event);
            },
            Good::Tools => {
                assert(all[thrift + food.len() + ore.len() + k] == event);
            },
        }
    }
}

/// The settlement under the first `n` of its shortfalls, one after the other.
pub open spec fn curtailed_by<N: Number>(
    settlement: Settlement<N>,
    missing: Seq<Shortfall<N>>,
    n: int,
) -> Settlement<N>
    decreases n,
{
    if n <= 0 {
        settlement
    } else {
        curtailed(curtailed_by(settlement, missing, n - 1), missing[n - 1])
    }
}

/// Shortfalls that follow others work on what those left.
proof fn lemma_shortfalls_add<N: Number>(
    settlements: Seq<Settlement<N>>,
    a: Seq<Shortfall<N>>,
    b: Seq<Shortfall<N>>,
    n: int,
)
    requires
        0 <= n <= a.len() + b.len(),
    ensures
        after_shortfalls(settlements, a + b, n) == if n <= a.len() {
            after_shortfalls(settlements, a, n)
        } else {
            after_shortfalls(
                after_shortfalls(settlements, a, a.len() as int),
                b,
                n - a.len(),
            )
        },
    decreases n,
{
    if n > 0 {
        lemma_shortfalls_add(settlements, a, b, n - 1);
        let middle = after_shortfalls(settlements, a, a.len() as int);
        assert(after_shortfalls(middle, b, 0) == middle);
    }
}

/// The shortfalls of one settlement change that settlement.
proof fn lemma_own_shortfalls<N: Number>(
    settlements: Seq<Settlement<N>>,
    missing: Seq<Shortfall<N>>,
    n: int,
    place: int,
)
    requires
        0 <= place < settlements.len(),
        0 <= n <= missing.len(),
        forall|k: int| 0 <= k < missing.len() ==> (#[trigger] missing[k]).settlement == place,
    ensures
        after_shortfalls(settlements, missing, n) == settlements.update(
            place,
            curtailed_by(settlements[place], missing, n),
        ),
    decreases n,
{
    if n > 0 {
        lemma_own_shortfalls(settlements, missing, n - 1, place);
        assert(missing[n - 1].settlement == place);
    }
    assert(after_shortfalls(settlements, missing, n) =~= settlements.update(
        place,
        curtailed_by(settlements[place], missing, n),
    ));
}

/// Of the shortfalls of the first `n` settlements, each settlement feels its own.
proof fn lemma_shortfalls_by_settlement<N: Number>(
    model: WorldModel<N>,
    eaten: Seq<Settlement<N>>,
    n: int,
)
    requires
        model.numbered(),
        0 <= n <= model.settlements.len() == eaten.len(),
    ensures
        ({
            let missing = chain(n, |i: int| shortfalls(model.settlements[i]));
            let after = after_shortfalls(eaten, missing, missing.len() as int);
            &&& after.len() == eaten.len()
            &&& forall|i: int|
                0 <= i < eaten.len() ==> #[trigger] after[i] == if i < n {
                    let own = shortfalls(model.settlements[i]);
                    curtailed_by(eaten[i], own, own.len() as int)
                } else {
                    eaten[i]
                }
        }),
    decreases n,
{
    if n > 0 {
        lemma_shortfalls_by_settlement(model, eaten, n - 1);
        let part = |i: int| shortfalls(model.settlements[i]);
        let (before, own) = (chain(n - 1, part), part(n - 1));
        assert(chain(n, part) == before + own);
        assert(model.settlements[n - 1].id == n - 1);
        let so_far = after_shortfalls(eaten, before, before.len() as int);
        lemma_shortfalls_add(eaten, before, own, (before.len() + own.len()) as int);
        lemma_own_shortfalls(so_far, own, own.len() as int, n - 1);
        assert(so_far[n - 1] == eaten[n - 1]);
        if own.len() == 0 {
            assert(before + own =~= before);
        }
    }
}

/// The event reports that `place` saves.
pub open spec fn tells_thrift<N>(place: SettlementId) -> spec_fn(Event<N>) -> bool {
    |event: Event<N>| event matches Event::Austerity { settlement, .. } && settlement == place
}

/// Reports of thrift among those of a settlement's consumption.
proof fn lemma_thrift_counted<N: Number>(settlement: Settlement<N>, place: SettlementId)
    ensures
        count_of(consumption_report(settlement), tells_thrift(place)) == if settlement.id == place
            && settlement.appetite().less(hundredths(AUSTERITY_REPORT_PERCENT)) {
            1nat
        } else {
            0nat
        },
{
    let share = settlement.appetite();
    let keep = tells_thrift(place);
    let food = meal_report(settlement, Good::Food, share);
    let ore = meal_report(settlement, Good::Ore, share);
    let tools = meal_report(settlement, Good::Tools, share);
    let thrift = Event::Austerity { settlement: settlement.id, multiplier: share };
    let start = if share.less(hundredths(AUSTERITY_REPORT_PERCENT)) {
        seq![thrift]
    } else {
        seq![]
    };
    lemma_count_short(thrift, thrift, keep);
    lemma_meal_tells_no_thrift(settlement, Good::Food, share, place);
    lemma_meal_tells_no_thrift(settlement, Good::Ore, share, place);
    lemma_meal_tells_no_thrift(settlement, Good::Tools, share, place);
    lemma_count_add(start, food, keep);
    lemma_count_add(start + food, ore, keep);
    lemma_count_add(start + food + ore, tools, keep);
    assert(consumption_report(settlement) =~= start + food + ore + tools);
}

proof fn lemma_meal_tells_no_thrift<N: Number>(
    settlement: Settlement<N>,
    good: Good,
    share: N,
    place: SettlementId,
)
    ensures
        count_of(meal_report(settlement, good, share), tells_thrift(place)) == 0,
{
    if demand(settlement, good, share) is Some {
        let wanted = demand(settlement, good, share)->0;
        let amount = served(settlement, good, wanted);
        let eaten = Event::Consumed { settlement: settlement.id, good, amount };
        let short = Event::Shortage {
            settlement: settlement.id,
            good,
            unmet: wanted.difference(amount),
        };
        lemma_count_short(eaten, short, tells_thrift(place));
    }
}

/// Shortfalls change production scales only.
proof fn lemma_curtailed_by<N: Number>(
    settlement: Settlement<N>,
    missing: Seq<Shortfall<N>>,
    n: int,
)
    ensures
        curtailed_by(settlement, missing, n) == (Settlement {
            production_scale: curtailed_by(settlement, missing, n).production_scale,
            ..settlement
        }),
    decreases n,
{
    if n > 0 {
        lemma_curtailed_by(settlement, missing, n - 1);
    }
}

/// The stores of the settlement meet all of its demand.
pub open spec fn lacks_nothing<N: Number>(settlement: Settlement<N>) -> bool {
    forall|good: Good|
        (#[trigger] demand(settlement, good, settlement.appetite())) matches Some(wanted)
            ==> !served(settlement, good, wanted).less(wanted)
}

/// Law: consumption and its shortages change stores and production scales, and nothing
/// else: stores of goods that are not consumed stay as they are, and so do the scales
/// of a settlement that lacks nothing; the scales of the others feel their own
/// shortages only.  Thrift is reported once, with the share of the need that is asked
/// for, if and only if that share is below 99 hundredths; earlier events stay.
pub proof fn law_consumption_leaves_the_rest<N: Number>(
    model: WorldModel<N>,
    place: SettlementId,
)
    requires
        model.numbered(),
        place < model.settlements.len(),
    ensures
        ({
            let settlement = model.settlements[place as int];
            let share = settlement.appetite();
            let after = model.after_consumption();
            let fed_up = after.settlements[place as int];
            let reports = after.events.skip(model.events.len() as int);
            let own = shortfalls(settlement);
            &&& after == (WorldModel {
                settlements: after.settlements,
                events: after.events,
                ..model
            })
            &&& after.settlements.len() == model.settlements.len()
            &&& after.events == model.events + reports
            &&& fed_up == (Settlement {
                stockpiles: fed_up.stockpiles,
                production_scale: fed_up.production_scale,
                ..settlement
            })
            &&& forall|good: Good|
                settlement.consumption.at(good) is None ==> #[trigger] fed_up.stockpiles.at(good)
                    == settlement.stockpiles.at(good)
            &&& fed_up.production_scale == curtailed_by(
                settlement,
                own,
                own.len() as int,
            ).production_scale
            &&& lacks_nothing(settlement) ==> fed_up.production_scale
                == settlement.production_scale
            &&& count_of(reports, tells_thrift(place)) == if share.less(
                hundredths(AUSTERITY_REPORT_PERCENT),
            ) {
                1nat
            } else {
                0nat
            }
            &&& share.less(hundredths(AUSTERITY_REPORT_PERCENT)) ==> reports.contains(
                Event::Austerity { settlement: place, multiplier: share },
            )
        }),
{
    let settlement = model.settlements[place as int];
    let share = settlement.appetite();
    let n = model.settlements.len() as int;
    let after = model.after_consumption();
    let report = |i: int| consumption_report(model.settlements[i]);
    let reports = after.events.skip(model.events.len() as int);
    assert(settlement.id == place);
    assert(reports =~= chain(n, report));
    assert forall|i: int| 0 <= i < n && i != place implies count_of(
        #[trigger] report(i),
        tells_thrift(place),
    ) == 0 by {
        assert(model.settlements[i].id == i);
        lemma_thrift_counted(model.settlements[i], place);
    }
    lemma_count_chain(n, report, tells_thrift(place), place as int);
    lemma_thrift_counted(settlement, place);
    lemma_part_in_chain(n, report, place as int);
    if share.less(hundredths(AUSTERITY_REPORT_PERCENT)) {
        let own_report = consumption_report(settlement);
        assert(own_report[0] == Event::Austerity { settlement: place, multiplier: share });
        assert(report(place as int).contains(own_report[0]));
    }
    let eaten = Seq::new(model.settlements.len(), |i: int| consumed(model.settlements[i]));
    lemma_shortfalls_by_settlement(model, eaten, n);
    let own = shortfalls(settlement);
    let hungry = consumed(settlement);
    assert(after.settlements[place as int] == curtailed_by(hungry, own, own.len() as int));
    lemma_curtailed_by(hungry, own, own.len() as int);
    lemma_same_scales(settlement, hungry, own, own.len() as int);
    if lacks_nothing(settlement) {
        assert(demand(settlement, Good::Food, share) == demand(settlement, Good::Food, share));
        assert(meal_shortfall(settlement, Good::Food, share).len() == 0);
        assert(meal_shortfall(settlement, Good::Ore, share).len() == 0);
        assert(meal_shortfall(settlement, Good::Tools, share).len() == 0);
        assert(own.len() == 0);
    }
}

/// Shortfalls work alike on settlements that make the same.
proof fn lemma_same_scales<N: Number>(
    a: Settlement<N>,
    b: Settlement<N>,
    missing: Seq<Shortfall<N>>,
    n: int,
)
    requires
        a.production == b.production,
        a.production_scale == b.production_scale,
    ensures
        curtailed_by(a, missing, n).production_scale == curtailed_by(b, missing, n).production_scale,
    decreases n,
{
    if n > 0 {
        lemma_same_scales(a, b, missing, n - 1);
        lemma_curtailed_by(a, missing, n - 1);
        lemma_curtailed_by(b, missing, n - 1);
    }
}

/// A settlement after it paid interest on its debt, if it has one.
pub open spec fn serviced<N: Number>(settlement: Settlement<N>, place: SettlementId) -> Settlement<
    N,
> {
    if settlement.money.less(whole(0)) {
        debited(settlement, interest_of(settlement, place))
    } else {
        settlement
    }
}

/// The interest that falls due on the debt of a settlement.
pub open spec fn interest_of<N: Number>(settlement: Settlement<N>, place: SettlementId) -> N {
    interest_on(Debt { debtor: place, amount: settlement.money.opposite() })
}

/// What a settlement reports of the interest that it pays.
pub open spec fn interest_report<N: Number>(
    settlement: Settlement<N>,
    place: SettlementId,
) -> Seq<Event<N>> {
    let paid = payable(settlement, interest_of(settlement, place));
    if settlement.money.less(whole(0)) && whole::<N>(0).less(paid) {
        seq![Event::DebtInterest { debtor: place, amount: paid }]
    } else {
        seq![]
    }
}

/// The interest that the first `n` settlements pay.
pub open spec fn interest_paid<N: Number>(settlements: Seq<Settlement<N>>, n: int) -> N
    decreases n,
{
    if n <= 0 {
        whole(0)
    } else if settlements[n - 1].money.less(whole(0)) {
        interest_paid(settlements, n - 1).sum(
            payable(settlements[n - 1], interest_of(settlements[n - 1], (n - 1) as SettlementId)),
        )
    } else {
        interest_paid(settlements, n - 1)
    }
}

/// Debts behind those that are collected do not matter.
proof fn lemma_collected_prefix<N: Number>(
    settlements: Seq<Settlement<N>>,
    owed: Seq<Debt<N>>,
    more: Debt<N>,
    n: int,
)
    requires
        n <= owed.len(),
    ensures
        collected(settlements, owed.push(more), n) == collected(settlements, owed, n),
    decreases n,
{
    if n > 0 {
        lemma_collected_prefix(settlements, owed, more, n - 1);
    }
}

/// The collection of interest, settlement by settlement.
proof fn lemma_collected_by_settlement<N: Number>(settlements: Seq<Settlement<N>>, n: int)
    requires
        0 <= n <= settlements.len() <= usize::MAX,
        forall|i: int| 0 <= i < settlements.len() ==> (#[trigger] settlements[i]).id == i,
    ensures
        ({
            let owed = debts(settlements, n);
            let done = collected(settlements, owed, owed.len() as int);
            &&& done.settlements.len() == settlements.len()
            &&& forall|i: int|
                0 <= i < settlements.len() ==> #[trigger] done.settlements[i] == if i < n {
                    serviced(settlements[i], i as SettlementId)
                } else {
                    settlements[i]
                }
            &&& done.events == chain(
                n,
                |i: int| interest_report(settlements[i], i as SettlementId),
            )
            &&& done.total == interest_paid(settlements, n)
        }),
    decreases n,
{
    if n > 0 {
        lemma_collected_by_settlement(settlements, n - 1);
        let before = debts(settlements, n - 1);
        let owed = debts(settlements, n);
        let report = |i: int| interest_report(settlements[i], i as SettlementId);
        let s = settlements[n - 1];
        let k = before.len() as int;
        if s.money.less(whole(0)) {
            let debt = Debt { debtor: s.id, amount: s.money.opposite() };
            lemma_collected_prefix(settlements, before, debt, k);
            let done = collected(settlements, owed, owed.len() as int);
            assert(owed == before.push(debt));
            assert(owed[k] == debt);
            assert(debt.debtor == (n - 1) as SettlementId);
            assert(done.events =~= chain(n, report));
        } else {
            assert(collected(settlements, owed, owed.len() as int).events =~= chain(n, report));
        }
    }
}

/// Law: interest, settlement by settlement and whichever way numbers round: each
/// debtor pays interest on its debt as far as its credit goes, and nobody else pays;
/// what is collected is what they paid; and where someone has a positive balance,
/// each such settlement receives a share in proportion to it.
pub proof fn law_interest_by_settlement<N: Number>(model: WorldModel<N>, place: SettlementId)
    requires
        model.numbered(),
        model.settlements.len() <= usize::MAX,
        place < model.settlements.len(),
    ensures
        ({
            let n = model.settlements.len() as int;
            let settlement = model.settlements[place as int];
            let after = model.after_interest();
            let paid_up = serviced(settlement, place);
            &&& model.interest().settlements[place as int] == paid_up
            &&& model.interest().total == interest_paid(model.settlements, n)
            &&& after.settlements.len() == n
            &&& after.settlements[place as int] == if model.all_debts().len() > 0
                && model.interest_is_shared() {
                credited(paid_up, interest_paid(model.settlements, n), model.pool())
            } else {
                paid_up
            }
            &&& after.events == model.events + chain(
                n,
                |i: int| interest_report(model.settlements[i], i as SettlementId),
            )
            &&& model.all_debts().len() == 0 ==> after == model
        }),
{
    let n = model.settlements.len() as int;
    lemma_collected_by_settlement(model.settlements, n);
    let report = |i: int| interest_report(model.settlements[i], i as SettlementId);
    if model.all_debts().len() == 0 {
        lemma_no_debts(model.settlements, n, place as int);
        assert(model.interest().events =~= Seq::empty());
        assert(model.events + chain(n, report) =~= model.events);
    }
}

/// Where there are no debts, nobody's money is below zero.
proof fn lemma_no_debts<N: Number>(settlements: Seq<Settlement<N>>, n: int, i: int)
    requires
        debts(settlements, n).len() == 0,
        0 <= i < n,
    ensures
        !settlements[i].money.less(whole(0)),
    decreases n,
{
    if i < n - 1 {
        lemma_no_debts(settlements, n - 1, i);
    }
}

/// The interest that a settlement with this balance and this credit pays.
pub open spec fn due(money: real, credit: real) -> real {
    let interest = -money / 50real;
    let room = if money + credit >= 0real {
        money + credit
    } else {
        0real
    };
    if money >= 0real {
        0real
    } else if interest <= room {
        interest
    } else {
        room
    }
}

/// The interest of the first `n` settlements, together.
pub open spec fn all_due<N: Number>(
    val: spec_fn(N) -> real,
    settlements: Seq<Settlement<N>>,
    n: int,
) -> real
    decreases n,
{
    if n <= 0 {
        0real
    } else {
        all_due(val, settlements, n - 1) + due(
            val(settlements[n - 1].money),
            val(settlements[n - 1].borrowing_limit()),
        )
    }
}

/// The positive balances of the first `n` settlements, together.
pub open spec fn all_owned<N: Number>(
    val: spec_fn(N) -> real,
    settlements: Seq<Settlement<N>>,
    n: int,
) -> real
    decreases n,
{
    if n <= 0 {
        0real
    } else {
        all_owned(val, settlements, n - 1) + if val(settlements[n - 1].money) > 0real {
            val(settlements[n - 1].money)
        } else {
            0real
        }
    }
}

/// Balances, credit and interest lie within the range, and so do the products from
/// which the shares of the interest are taken.
pub open spec fn dues_fit<N: Number>(
    val: spec_fn(N) -> real,
    limit: real,
    settlements: Seq<Settlement<N>>,
) -> bool {
    let n = settlements.len() as int;
    &&& forall|i: int|
        0 <= i < n ==> {
            let credit = val((#[trigger] settlements[i]).borrowing_limit());
            &&& fits(limit, val(settlements[i].money))
            &&& fits(limit, credit)
            &&& fits(limit, val(settlements[i].money) + credit)
        }
    &&& all_due(val, settlements, n) + all_owned(val, settlements, n) <= limit
    &&& all_due(val, settlements, n) * all_owned(val, settlements, n) <= limit
}

/// What a debtor pays is its due, rounded down.
proof fn lemma_due<N: Number>(
    val: spec_fn(N) -> real,
    limit: real,
    unit: real,
    settlement: Settlement<N>,
    place: SettlementId,
)
    requires
        linear_within(val, limit),
        rounds_down(val, limit, unit),
        limit >= 1real,
        fits(limit, val(settlement.money)),
        fits(limit, val(settlement.borrowing_limit())),
        fits(limit, val(settlement.money) + val(settlement.borrowing_limit())),
        val(settlement.money) < 0real,
    ensures
        ({
            let owed = due(val(settlement.money), val(settlement.borrowing_limit()));
            let paid = val(payable(settlement, interest_of(settlement, place)));
            &&& 0real <= paid <= owed <= paid + unit
            &&& val(serviced(settlement, place).money) == val(settlement.money) - paid
        }),
{
    let rate = hundredths::<N>(DEBT_INTEREST_PERCENT);
    let debt = settlement.money.opposite();
    assert(val(whole::<N>(0)) == 0real);
    assert(val(rate) * 100real == 2real);
    assert(val(debt) * val(rate) == val(debt) / 50real) by (nonlinear_arith)
        requires
            val(rate) * 100real == 2real,
    ;
    lemma_product(val, limit, unit, debt, rate);
}

/// What is due or owned grows from settlement to settlement.
proof fn lemma_due_grows<N: Number>(
    val: spec_fn(N) -> real,
    settlements: Seq<Settlement<N>>,
    m: int,
    n: int,
)
    requires
        0 <= m <= n,
    ensures
        0real <= all_due(val, settlements, m) <= all_due(val, settlements, n),
        0real <= all_owned(val, settlements, m) <= all_owned(val, settlements, n),
    decreases n,
{
    if m < n {
        lemma_due_grows(val, settlements, m, n - 1);
    } else if n > 0 {
        lemma_due_grows(val, settlements, n - 1, n - 1);
    }
}

proof fn lemma_all_due<N: Number>(
    val: spec_fn(N) -> real,
    limit: real,
    unit: real,
    settlements: Seq<Settlement<N>>,
    n: int,
)
    requires
        linear_within(val, limit),
        rounds_down(val, limit, unit),
        limit >= 1real,
        dues_fit(val, limit, settlements),
        0 <= n <= settlements.len(),
    ensures
        ({
            let paid = val(interest_paid(settlements, n));
            &&& 0real <= paid <= all_due(val, settlements, n)
            &&& all_due(val, settlements, n) <= paid + n as real * unit
        }),
    decreases n,
{
    assert(val(whole::<N>(0)) == 0real);
    if n > 0 {
        lemma_all_due(val, limit, unit, settlements, n - 1);
        lemma_due_grows(val, settlements, n, settlements.len() as int);
        lemma_due_grows(val, settlements, n - 1, n);
        assert(n as real * unit == (n - 1) as real * unit + unit) by (nonlinear_arith)
            requires
                n as real == (n - 1) as real + 1real,
        ;
        assert(0real <= unit) by {
            reveal(rounds_down);
        }
        let s = settlements[n - 1];
        if val(s.money) < 0real {
            lemma_due(val, limit, unit, s, (n - 1) as SettlementId);
        }
    } else {
        assert(n as real * unit == 0real) by (nonlinear_arith)
            requires
                n as real == 0real,
        ;
    }
}

proof fn lemma_pool<N: Number>(
    val: spec_fn(N) -> real,
    limit: real,
    unit: real,
    settlements: Seq<Settlement<N>>,
    after: Seq<Settlement<N>>,
    n: int,
)
    requires
        linear_within(val, limit),
        rounds_down(val, limit, unit),
        limit >= 1real,
        dues_fit(val, limit, settlements),
        0 <= n <= settlements.len() == after.len(),
        forall|i: int|
            0 <= i < settlements.len() ==> #[trigger] after[i] == serviced(
                settlements[i],
                i as SettlementId,
            ),
    ensures
        val(creditor_pool(after, n)) == all_owned(val, settlements, n),
    decreases n,
{
    assert(val(whole::<N>(0)) == 0real);
    if n > 0 {
        lemma_pool(val, limit, unit, settlements, after, n - 1);
        lemma_due_grows(val, settlements, n, settlements.len() as int);
        lemma_due_grows(val, settlements, n - 1, n);
        assert(after[n - 1] == serviced(settlements[n - 1], (n - 1) as SettlementId));
        let s = settlements[n - 1];
        if val(s.money) < 0real {
            lemma_due(val, limit, unit, s, (n - 1) as SettlementId);
        }
    }
}

/// A positive balance is part of all that is owned.
proof fn lemma_owned_part<N: Number>(
    val: spec_fn(N) -> real,
    settlements: Seq<Settlement<N>>,
    n: int,
    i: int,
)
    requires
        0 <= i < n <= settlements.len(),
        val(settlements[i].money) > 0real,
    ensures
        val(settlements[i].money) <= all_owned(val, settlements, n),
    decreases n,
{
    lemma_due_grows(val, settlements, n - 1, n - 1);
    if i < n - 1 {
        lemma_owned_part(val, settlements, n - 1, i);
    }
}

/// What a creditor gets of the interest is its part, rounded down.
proof fn lemma_gain<N: Number>(
    val: spec_fn(N) -> real,
    limit: real,
    unit: real,
    interest: N,
    money: N,
    pool: N,
)
    requires
        rounds_down(val, limit, unit),
        0real <= val(interest) <= limit,
        0real < val(money) <= val(pool),
        val(interest) * val(money) <= limit,
    ensures
        ({
            let gain = val(interest.product(money).quotient(pool));
            let part = val(interest) * val(money) / val(pool);
            &&& 0real <= gain <= part <= val(interest)
            &&& part - unit - unit / val(pool) <= gain
        }),
{
    let (t, m, p) = (val(interest), val(money), val(pool));
    assert(0real <= t * m) by (nonlinear_arith)
        requires
            0real <= t,
            0real < m,
    ;
    lemma_product(val, limit, unit, interest, money);
    let share = interest.product(money);
    let x = val(share);
    let (part, cut) = (t * m / p, x / p);
    assert(part <= t && 0real <= cut <= part && part - unit / p <= cut) by (nonlinear_arith)
        requires
            part == t * m / p,
            cut == x / p,
            0real <= x,
            t * m - unit <= x <= t * m,
            0real <= t,
            0real < m <= p,
    ;
    lemma_quotient(val, limit, unit, share, pool);
}

/// Law: a debtor pays a fiftieth of its debt, or what its credit leaves; a settlement
/// without money neither pays nor receives; and one with money receives, of all that
/// is paid, its part of all the positive balances.  A payment is reported once if
/// and only if it is above zero.  Payments and parts are rounded down: each payment by
/// at most a unit, each part by a unit and by a unit's part of the positive balances.
pub proof fn law_interest_in_numbers<N: Number>(
    val: spec_fn(N) -> real,
    limit: real,
    unit: real,
    model: WorldModel<N>,
    place: SettlementId,
)
    requires
        linear_within(val, limit),
        rounds_down(val, limit, unit),
        limit >= 1real,
        dues_fit(val, limit, model.settlements),
        model.numbered(),
        model.settlements.len() <= usize::MAX,
        place < model.settlements.len(),
    ensures
        ({
            let n = model.settlements.len() as int;
            let settlement = model.settlements[place as int];
            let (money, credit) = (val(settlement.money), val(settlement.borrowing_limit()));
            let after = model.after_interest();
            let new_money = val(after.settlements[place as int].money);
            let paid = val(interest_paid(model.settlements, n));
            let owned = all_owned(val, model.settlements, n);
            let part = paid * money / owned;
            &&& money < 0real ==> money - due(money, credit) <= new_money <= money - due(
                money,
                credit,
            ) + unit
            &&& money == 0real ==> new_money == 0real
            &&& money > 0real ==> money + part - unit - unit / owned <= new_money <= money + part
            &&& money > 0real ==> money <= new_money
            &&& 0real <= paid <= all_due(val, model.settlements, n) <= paid + n as real * unit
            &&& count_of(
                after.events.skip(model.events.len() as int),
                tells_interest(place),
            ) == if new_money < money {
                1nat
            } else {
                0nat
            }
        }),
{
    let n = model.settlements.len() as int;
    let settlement = model.settlements[place as int];
    let (money, credit) = (val(settlement.money), val(settlement.borrowing_limit()));
    let after = model.after_interest();
    let total = interest_paid(model.settlements, n);
    assert(val(whole::<N>(0)) == 0real);
    assert(0real <= unit) by {
        reveal(rounds_down);
    }
    law_interest_by_settlement(model, place);
    lemma_collected_by_settlement(model.settlements, n);
    lemma_all_due(val, limit, unit, model.settlements, n);
    lemma_pool(val, limit, unit, model.settlements, model.interest().settlements, n);
    lemma_due_grows(val, model.settlements, n, n);
    if money < 0real {
        lemma_due(val, limit, unit, settlement, place);
    }
    let owned = all_owned(val, model.settlements, n);
    let t = val(total);
    if money > 0real {
        lemma_owned_part(val, model.settlements, n, place as int);
        let all = all_due(val, model.settlements, n);
        lemma_products_in_order(t, all, money, owned);
        if model.all_debts().len() == 0 || !model.interest_is_shared() {
            assert(t == 0real) by {
                if model.all_debts().len() == 0 {
                    lemma_nothing_due(val, limit, model.settlements, n, n);
                }
            }
            assert(t * money / owned == 0real && 0real <= unit / owned) by (nonlinear_arith)
                requires
                    t == 0real,
                    owned > 0real,
                    unit >= 0real,
            ;
        } else {
            lemma_gain(val, limit, unit, total, settlement.money, model.pool());
            let gain = total.product(settlement.money).quotient(model.pool());
            assert(after.settlements[place as int].money == settlement.money.sum(gain));
            assert(val(settlement.money.sum(gain)) == money + val(gain));
        }
    }
    let report = |i: int| interest_report(model.settlements[i], i as SettlementId);
    assert(after.events.skip(model.events.len() as int) =~= chain(n, report));
    assert forall|i: int| 0 <= i < n && i != place implies count_of(
        #[trigger] report(i),
        tells_interest(place),
    ) == 0 by {
        let told = Event::DebtInterest {
            debtor: i as SettlementId,
            amount: payable(
                model.settlements[i],
                interest_of(model.settlements[i], i as SettlementId),
            ),
        };
        lemma_count_short(told, told, tells_interest(place));
    }
    lemma_count_chain(n, report, tells_interest(place), place as int);
    let told = Event::DebtInterest {
        debtor: place,
        amount: payable(settlement, interest_of(settlement, place)),
    };
    lemma_count_short(told, told, tells_interest(place));
}

/// Where there are no debts, nothing is due.
proof fn lemma_nothing_due<N: Number>(
    val: spec_fn(N) -> real,
    limit: real,
    settlements: Seq<Settlement<N>>,
    all: int,
    n: int,
)
    requires
        linear_within(val, limit),
        limit >= 0real,
        debts(settlements, all).len() == 0,
        0 <= n <= all,
    ensures
        all_due(val, settlements, n) == 0real,
    decreases n,
{
    if n > 0 {
        lemma_nothing_due(val, limit, settlements, all, n - 1);
        lemma_no_debts(settlements, all, n - 1);
        assert(val(whole::<N>(0)) == 0real);
    }
}

/// Law: what one trader's expenses do, whichever way numbers round: the home base
/// receives the upkeep, the place where the trader is what they spend there, and
/// the trader pays both; no other balance changes.
pub proof fn law_expenses_of_a_trader<N: Number>(model: WorldModel<N>, trader: TraderId)
    requires
        model.traders_wf(),
        trader < model.traders.len(),
    ensures
        ({
            let payer = model.traders[trader as int];
            let upkeep = model.upkeep(trader as int);
            let kept = model.after_upkeep(trader);
            let local = kept.local_spending(trader as int);
            let after = kept.after_local_spending(trader);
            let (home, here) = (payer.home_base as int, payer.location as int);
            &&& after.traders.len() == model.traders.len()
            &&& after.traders[trader as int] == (TraderModel {
                money: payer.money.difference(upkeep).difference(local),
                ..payer
            })
            &&& forall|i: int|
                0 <= i < model.traders.len() && i != trader ==> #[trigger] after.traders[i]
                    == model.traders[i]
            &&& after.settlements.len() == model.settlements.len()
            &&& home != here ==> after.settlements[home].money
                == model.settlements[home].money.sum(upkeep)
            &&& home != here ==> after.settlements[here].money
                == model.settlements[here].money.sum(local)
            &&& home == here ==> after.settlements[home].money
                == model.settlements[home].money.sum(upkeep).sum(local)
            &&& forall|i: int|
                0 <= i < model.settlements.len() && i != home && i != here
                    ==> #[trigger] after.settlements[i] == model.settlements[i]
            &&& after.routes == model.routes
            &&& after.shipments == model.shipments
        }),
{
    assert(model.trader_wf(model.traders[trader as int]));
}

} // verus!
