//! Production, consumption, and the shortages that follow.

use crate::event::Event;
use crate::goods::{Good, GoodMap};
use crate::number::{clamp, clamped, hundredths, make_hundredths, make_whole, whole, Number};
use crate::settlement::{consumption_multiplier, Settlement, SettlementId};
use crate::world::{chain, lemma_chain_all, World, WorldModel};
use vstd::prelude::*;

verus! {

/// What production regains in a month after a shortage, in hundredths.
pub const PRODUCTION_RECOVERY_PERCENT: i64 = 20;

/// Consumption below this share of the need, in hundredths, is reported.
pub const AUSTERITY_REPORT_PERCENT: i64 = 99;

/// The settlement whose tools are made from ore.
pub const TOOLMAKER: SettlementId = 2;

/// A production scale one month on.
pub open spec fn recovered_scale<N: Number>(scale: Option<N>) -> N {
    let now = match scale {
        Some(scale) => scale,
        None => whole(1),
    };
    if now.less(whole(1)) {
        now.sum(hundredths(PRODUCTION_RECOVERY_PERCENT)).smaller(whole(1))
    } else {
        now
    }
}

/// A settlement whose production has recovered for a month.
pub open spec fn recovered<N: Number>(settlement: Settlement<N>) -> Settlement<N> {
    Settlement {
        production_scale: GoodMap {
            food: Some(recovered_scale(settlement.production_scale.food)),
            ore: Some(recovered_scale(settlement.production_scale.ore)),
            tools: Some(recovered_scale(settlement.production_scale.tools)),
        },
        ..settlement
    }
}

/// This month's output of a good, where the settlement makes it.
pub open spec fn output<N: Number>(settlement: Settlement<N>, good: Good) -> Option<N> {
    match settlement.production.at(good) {
        Some(amount) => Some(amount.product(settlement.production_scale.at_or(good, whole(1)))),
        None => None,
    }
}

/// The settlement with its output of one good in store.
pub open spec fn stocked<N: Number>(settlement: Settlement<N>, good: Good) -> Settlement<N> {
    match output(settlement, good) {
        Some(amount) => Settlement {
            stockpiles: settlement.stockpiles.with(
                good,
                settlement.stockpiles.at_or(good, whole(0)).sum(amount),
            ),
            ..settlement
        },
        None => settlement,
    }
}

/// The settlement with all its output in store.
pub open spec fn produced<N: Number>(settlement: Settlement<N>) -> Settlement<N> {
    stocked(stocked(stocked(settlement, Good::Food), Good::Ore), Good::Tools)
}

pub open spec fn output_report<N: Number>(settlement: Settlement<N>, good: Good) -> Seq<Event<N>> {
    match output(settlement, good) {
        Some(amount) => seq![Event::Produced { settlement: settlement.id, good, amount }],
        None => seq![],
    }
}

/// What a settlement reports of its production.
pub open spec fn production_report<N: Number>(settlement: Settlement<N>) -> Seq<Event<N>> {
    output_report(settlement, Good::Food) + output_report(settlement, Good::Ore) + output_report(
        settlement,
        Good::Tools,
    )
}

/// Consumption that the stores could not meet.
#[derive(Debug, Clone, Copy)]
pub struct Shortfall<N> {
    pub settlement: SettlementId,
    pub good: Good,
    pub needed: N,
    pub consumed: N,
}

/// What a settlement that asks for `share` of its need wants of a good.
pub open spec fn demand<N: Number>(settlement: Settlement<N>, good: Good, share: N) -> Option<N> {
    match settlement.consumption.at(good) {
        Some(needed) => Some(needed.product(share)),
        None => None,
    }
}

/// What the stores give of `wanted`.
pub open spec fn served<N: Number>(settlement: Settlement<N>, good: Good, wanted: N) -> N {
    wanted.smaller(settlement.stockpiles.at_or(good, whole(0)))
}

/// The settlement after its consumption of one good.
pub open spec fn fed<N: Number>(settlement: Settlement<N>, good: Good, share: N) -> Settlement<N> {
    match demand(settlement, good, share) {
        Some(wanted) => Settlement {
            stockpiles: settlement.stockpiles.with(
                good,
                settlement.stockpiles.at_or(good, whole(0)).difference(
                    served(settlement, good, wanted),
                ),
            ),
            ..settlement
        },
        None => settlement,
    }
}

/// The settlement after all its consumption.
pub open spec fn consumed<N: Number>(settlement: Settlement<N>) -> Settlement<N> {
    let share = settlement.appetite();
    fed(fed(fed(settlement, Good::Food, share), Good::Ore, share), Good::Tools, share)
}

pub open spec fn meal_report<N: Number>(
    settlement: Settlement<N>,
    good: Good,
    share: N,
) -> Seq<Event<N>> {
    match demand(settlement, good, share) {
        Some(wanted) => {
            let amount = served(settlement, good, wanted);
            let eaten = seq![Event::Consumed { settlement: settlement.id, good, amount }];
            if amount.less(wanted) {
                eaten.push(
                    Event::Shortage {
                        settlement: settlement.id,
                        good,
                        unmet: wanted.difference(amount),
                    },
                )
            } else {
                eaten
            }
        },
        None => seq![],
    }
}

pub open spec fn meal_shortfall<N: Number>(
    settlement: Settlement<N>,
    good: Good,
    share: N,
) -> Seq<Shortfall<N>> {
    match demand(settlement, good, share) {
        Some(wanted) => {
            let amount = served(settlement, good, wanted);
            if amount.less(wanted) {
                seq![
                    Shortfall {
                        settlement: settlement.id,
                        good,
                        needed: wanted,
                        consumed: amount,
                    },
                ]
            } else {
                seq![]
            }
        },
        None => seq![],
    }
}

/// What a settlement reports of its consumption.
pub open spec fn consumption_report<N: Number>(settlement: Settlement<N>) -> Seq<Event<N>> {
    let share = settlement.appetite();
    let thrift = if share.less(hundredths(AUSTERITY_REPORT_PERCENT)) {
        seq![Event::Austerity { settlement: settlement.id, multiplier: share }]
    } else {
        seq![]
    };
    thrift + meal_report(settlement, Good::Food, share) + meal_report(settlement, Good::Ore, share)
        + meal_report(settlement, Good::Tools, share)
}

/// The shortfalls of a settlement's consumption.
pub open spec fn shortfalls<N: Number>(settlement: Settlement<N>) -> Seq<Shortfall<N>> {
    let share = settlement.appetite();
    meal_shortfall(settlement, Good::Food, share) + meal_shortfall(settlement, Good::Ore, share)
        + meal_shortfall(settlement, Good::Tools, share)
}

/// The part of the need that was met, from zero to one.
pub open spec fn fulfillment<N: Number>(shortfall: Shortfall<N>) -> N {
    clamped(shortfall.consumed.quotient(shortfall.needed), whole(0), whole(1))
}

/// The scale of a product in a settlement that lacks food.
pub open spec fn hungry_scale<N>(product: Option<N>, scale: Option<N>, met: N) -> Option<N> {
    if product is Some {
        Some(met)
    } else {
        scale
    }
}

/// The settlement under the effects of a shortfall: hungry people make less of
/// everything, and without ore the toolmaker makes fewer tools.
pub open spec fn curtailed<N: Number>(
    settlement: Settlement<N>,
    shortfall: Shortfall<N>,
) -> Settlement<N> {
    let met = fulfillment(shortfall);
    let scale = settlement.production_scale;
    if shortfall.needed.at_most(whole(0)) {
        settlement
    } else if shortfall.good == Good::Food {
        Settlement {
            production_scale: GoodMap {
                food: hungry_scale(settlement.production.food, scale.food, met),
                ore: hungry_scale(settlement.production.ore, scale.ore, met),
                tools: hungry_scale(settlement.production.tools, scale.tools, met),
            },
            ..settlement
        }
    } else if shortfall.good == Good::Ore && shortfall.settlement == TOOLMAKER {
        Settlement { production_scale: scale.with(Good::Tools, met), ..settlement }
    } else {
        settlement
    }
}

/// The settlements under the first `n` shortfalls, one after the other.
pub open spec fn after_shortfalls<N: Number>(
    settlements: Seq<Settlement<N>>,
    shortfalls: Seq<Shortfall<N>>,
    n: int,
) -> Seq<Settlement<N>>
    decreases n,
{
    if n <= 0 {
        settlements
    } else {
        let before = after_shortfalls(settlements, shortfalls, n - 1);
        let hit = shortfalls[n - 1].settlement as int;
        before.update(hit, curtailed(before[hit], shortfalls[n - 1]))
    }
}

impl<N: Number> WorldModel<N> {
    pub open spec fn after_recovery(self) -> Self {
        WorldModel {
            settlements: Seq::new(
                self.settlements.len(),
                |i: int| recovered(self.settlements[i]),
            ),
            ..self
        }
    }

    pub open spec fn after_production(self) -> Self {
        WorldModel {
            settlements: Seq::new(self.settlements.len(), |i: int| produced(self.settlements[i])),
            events: self.events + chain(
                self.settlements.len() as int,
                |i: int| production_report(self.settlements[i]),
            ),
            ..self
        }
    }

    /// The shortfalls of this month's consumption, settlement by settlement.
    pub open spec fn all_shortfalls(self) -> Seq<Shortfall<N>> {
        chain(self.settlements.len() as int, |i: int| shortfalls(self.settlements[i]))
    }

    pub open spec fn after_consumption(self) -> Self {
        let fed = Seq::new(self.settlements.len(), |i: int| consumed(self.settlements[i]));
        let missing = self.all_shortfalls();
        WorldModel {
            settlements: after_shortfalls(fed, missing, missing.len() as int),
            events: self.events + chain(
                self.settlements.len() as int,
                |i: int| consumption_report(self.settlements[i]),
            ),
            ..self
        }
    }
}

fn recover_scale<N: Number>(scale: Option<N>) -> (r: N)
    ensures
        r == recovered_scale(scale),
{
    let now = match scale {
        Some(scale) => scale,
        None => make_whole(1),
    };
    if now.lt(make_whole(1)) {
        now.add(make_hundredths(PRODUCTION_RECOVERY_PERCENT)).min(make_whole(1))
    } else {
        now
    }
}

fn produce_good<N: Number>(
    settlement: &mut Settlement<N>,
    events: &mut Vec<Event<N>>,
    good: Good,
)
    ensures
        *final(settlement) == stocked(*old(settlement), good),
        final(events)@ == old(events)@ + output_report(*old(settlement), good),
{
    match settlement.production.get(good) {
        Some(amount) => {
            let scale = settlement.production_scale.get_or(good, make_whole(1));
            let made = amount.mul(scale);
            let stock = settlement.stockpiles.get_or(good, make_whole(0)).add(made);
            settlement.stockpiles.insert(good, stock);
            events.push(Event::Produced { settlement: settlement.id, good, amount: made });
            assert(events@ =~= old(events)@ + output_report(*old(settlement), good));
        },
        None => {
            assert(events@ =~= old(events)@ + output_report(*old(settlement), good));
        },
    }
}

fn consume_good<N: Number>(
    settlement: &mut Settlement<N>,
    events: &mut Vec<Event<N>>,
    missing: &mut Vec<Shortfall<N>>,
    good: Good,
    share: N,
)
    ensures
        *final(settlement) == fed(*old(settlement), good, share),
        final(events)@ == old(events)@ + meal_report(*old(settlement), good, share),
        final(missing)@ == old(missing)@ + meal_shortfall(*old(settlement), good, share),
{
    match settlement.consumption.get(good) {
        Some(needed) => {
            let wanted = needed.mul(share);
            let available = settlement.stockpiles.get_or(good, make_whole(0));
            let amount = wanted.min(available);
            settlement.stockpiles.insert(good, available.sub(amount));
            events.push(Event::Consumed { settlement: settlement.id, good, amount });
            if amount.lt(wanted) {
                events.push(
                    Event::Shortage { settlement: settlement.id, good, unmet: wanted.sub(amount) },
                );
                missing.push(
                    Shortfall {
                        settlement: settlement.id,
                        good,
                        needed: wanted,
                        consumed: amount,
                    },
                );
            }
        },
        None => {},
    }
    assert(events@ =~= old(events)@ + meal_report(*old(settlement), good, share));
    assert(missing@ =~= old(missing)@ + meal_shortfall(*old(settlement), good, share));
}

fn consume_at<N: Number>(
    settlement: &mut Settlement<N>,
    events: &mut Vec<Event<N>>,
    missing: &mut Vec<Shortfall<N>>,
)
    ensures
        *final(settlement) == consumed(*old(settlement)),
        final(events)@ == old(events)@ + consumption_report(*old(settlement)),
        final(missing)@ == old(missing)@ + shortfalls(*old(settlement)),
{
    let share = consumption_multiplier(settlement);
    if share.lt(make_hundredths(AUSTERITY_REPORT_PERCENT)) {
        events.push(Event::Austerity { settlement: settlement.id, multiplier: share });
    }
    consume_good(settlement, events, missing, Good::Food, share);
    consume_good(settlement, events, missing, Good::Ore, share);
    consume_good(settlement, events, missing, Good::Tools, share);
    assert(events@ =~= old(events)@ + consumption_report(*old(settlement)));
    assert(missing@ =~= old(missing)@ + shortfalls(*old(settlement)));
}

/// Shortfalls name settlements that exist.
pub proof fn lemma_shortfalls_named<N: Number>(model: WorldModel<N>)
    requires
        model.settlements_wf(),
    ensures
        forall|k: int|
            0 <= k < model.all_shortfalls().len() ==> (
            #[trigger] model.all_shortfalls()[k]).settlement < model.settlements.len(),
{
    let part = |i: int| shortfalls(model.settlements[i]);
    let named = |lacking: Shortfall<N>| lacking.settlement < model.settlements.len();
    lemma_chain_all(model.settlements.len() as int, part, named);
    assert(model.all_shortfalls() == chain(model.settlements.len() as int, part));
    assert forall|k: int| 0 <= k < model.all_shortfalls().len() implies (
    #[trigger] model.all_shortfalls()[k]).settlement < model.settlements.len() by {
        assert(named(model.all_shortfalls()[k]));
    }
}

/// Shortfalls change production scales only.
pub proof fn lemma_shortfalls_shape<N: Number>(
    settlements: Seq<Settlement<N>>,
    missing: Seq<Shortfall<N>>,
    n: int,
)
    requires
        n <= missing.len(),
        forall|k: int|
            0 <= k < missing.len() ==> (#[trigger] missing[k]).settlement < settlements.len(),
    ensures
        after_shortfalls(settlements, missing, n).len() == settlements.len(),
        forall|i: int|
            0 <= i < settlements.len() ==> #[trigger] after_shortfalls(settlements, missing, n)[i]
                == (Settlement {
                production_scale: after_shortfalls(settlements, missing, n)[i].production_scale,
                ..settlements[i]
            }),
    decreases n,
{
    if n > 0 {
        lemma_shortfalls_shape(settlements, missing, n - 1);
    }
}

impl<N: Number> World<N> {
    pub fn recover_production_capacity(&mut self)
        ensures
            final(self)@ == old(self)@.after_recovery(),
    {
        let mut i: usize = 0;
        while i < self.settlements.len()
            invariant
                i <= self.settlements@.len(),
                self.settlements@.len() == old(self).settlements@.len(),
                self@ == (WorldModel { settlements: self.settlements@, ..old(self)@ }),
                forall|j: int|
                    0 <= j < self.settlements@.len() ==> #[trigger] self.settlements@[j] == if j < i {
                        recovered(old(self).settlements@[j])
                    } else {
                        old(self).settlements@[j]
                    },
            decreases self.settlements@.len() - i,
        {
            let scale = self.settlements[i].production_scale;
            self.settlements[i].production_scale = GoodMap {
                food: Some(recover_scale(scale.food)),
                ore: Some(recover_scale(scale.ore)),
                tools: Some(recover_scale(scale.tools)),
            };
            i = i + 1;
        }
        assert(self@ =~= old(self)@.after_recovery());
    }

    pub fn produce(&mut self)
        ensures
            final(self)@ == old(self)@.after_production(),
    {
        let ghost report = |i: int| production_report(old(self)@.settlements[i]);
        let mut i: usize = 0;
        while i < self.settlements.len()
            invariant
                i <= self.settlements@.len(),
                self.settlements@.len() == old(self).settlements@.len(),
                report == (|i: int| production_report(old(self)@.settlements[i])),
                self@ == (WorldModel {
                    settlements: self.settlements@,
                    events: old(self)@.events + chain(i as int, report),
                    ..old(self)@
                }),
                forall|j: int|
                    0 <= j < self.settlements@.len() ==> #[trigger] self.settlements@[j] == if j < i {
                        produced(old(self).settlements@[j])
                    } else {
                        old(self).settlements@[j]
                    },
            decreases self.settlements@.len() - i,
        {
            let ghost before = self@;
            produce_good(&mut self.settlements[i], &mut self.events, Good::Food);
            produce_good(&mut self.settlements[i], &mut self.events, Good::Ore);
            produce_good(&mut self.settlements[i], &mut self.events, Good::Tools);
            assert(self.events@ =~= before.events + report(i as int));
            i = i + 1;
            assert(self.events@ =~= old(self)@.events + chain(i as int, report));
        }
        assert(self@ =~= old(self)@.after_production());
    }

    pub fn apply_shortage_effects(
        &mut self,
        settlement_id: SettlementId,
        good: Good,
        needed: N,
        consumed: N,
    )
        requires
            needed.at_most(whole(0)) || settlement_id < old(self).settlements@.len(),
        ensures
            needed.at_most(whole(0)) ==> final(self)@ == old(self)@,
            settlement_id < old(self).settlements@.len() ==> final(self)@ == (WorldModel {
                settlements: old(self)@.settlements.update(
                    settlement_id as int,
                    curtailed(
                        old(self)@.settlements[settlement_id as int],
                        Shortfall { settlement: settlement_id, good, needed, consumed },
                    ),
                ),
                ..old(self)@
            }),
            !needed.at_most(whole(0)) ==> {
                let (before, after) = (
                    old(self)@.settlements[settlement_id as int],
                    final(self)@.settlements[settlement_id as int],
                );
                let part = clamped(consumed.quotient(needed), whole(0), whole(1));
                &&& forall|of: Good| #[trigger]
                    after.production_scale.at(of) == if good == Good::Food
                        && before.production.at(of) is Some {
                        Some(part)
                    } else if good == Good::Ore && settlement_id == 2 && of == Good::Tools {
                        Some(part)
                    } else {
                        before.production_scale.at(of)
                    }
                &&& after == (Settlement { production_scale: after.production_scale, ..before })
            },
    {
        let ghost shortfall = Shortfall { settlement: settlement_id, good, needed, consumed };
        if needed.le(make_whole(0)) {
            assert(settlement_id < self@.settlements.len() ==> self@.settlements
                =~= old(self)@.settlements.update(
                settlement_id as int,
                curtailed(old(self)@.settlements[settlement_id as int], shortfall),
            ));
            return;
        }
        let met = clamp(consumed.div(needed), make_whole(0), make_whole(1));
        let production = self.settlements[settlement_id].production;
        if good == Good::Food {
            if production.food.is_some() {
                self.settlements[settlement_id].production_scale.food = Some(met);
            }
            if production.ore.is_some() {
                self.settlements[settlement_id].production_scale.ore = Some(met);
            }
            if production.tools.is_some() {
                self.settlements[settlement_id].production_scale.tools = Some(met);
            }
        } else if good == Good::Ore && settlement_id == TOOLMAKER {
            self.settlements[settlement_id].production_scale.insert(Good::Tools, met);
        }
        assert(self@.settlements =~= old(self)@.settlements.update(
            settlement_id as int,
            curtailed(old(self)@.settlements[settlement_id as int], shortfall),
        ));
    }

    pub fn consume(&mut self)
        requires
            old(self)@.settlements_wf(),
        ensures
            final(self)@ == old(self)@.after_consumption(),
    {
        let mut missing: Vec<Shortfall<N>> = Vec::new();
        let ghost report = |i: int| consumption_report(old(self)@.settlements[i]);
        let ghost lack = |i: int| shortfalls(old(self)@.settlements[i]);
        let mut i: usize = 0;
        while i < self.settlements.len()
            invariant
                i <= self.settlements@.len(),
                self.settlements@.len() == old(self).settlements@.len(),
                report == (|i: int| consumption_report(old(self)@.settlements[i])),
                lack == (|i: int| shortfalls(old(self)@.settlements[i])),
                missing@ == chain(i as int, lack),
                self@ == (WorldModel {
                    settlements: self.settlements@,
                    events: old(self)@.events + chain(i as int, report),
                    ..old(self)@
                }),
                forall|j: int|
                    0 <= j < self.settlements@.len() ==> #[trigger] self.settlements@[j] == if j < i {
                        crate::production::consumed(old(self).settlements@[j])
                    } else {
                        old(self).settlements@[j]
                    },
            decreases self.settlements@.len() - i,
        {
            let ghost before = self@;
            consume_at(&mut self.settlements[i], &mut self.events, &mut missing);
            assert(self.events@ =~= before.events + report(i as int));
            i = i + 1;
            assert(self.events@ =~= old(self)@.events + chain(i as int, report));
        }
        let ghost fed = self@;
        assert(fed.settlements =~= Seq::new(
            old(self)@.settlements.len(),
            |i: int| crate::production::consumed(old(self)@.settlements[i]),
        ));
        proof {
            lemma_shortfalls_named(old(self)@);
        }
        assert(missing@ == old(self)@.all_shortfalls());
        let mut k: usize = 0;
        while k < missing.len()
            invariant
                k <= missing@.len(),
                missing@ == old(self)@.all_shortfalls(),
                forall|k: int|
                    0 <= k < missing@.len() ==> (#[trigger] missing@[k]).settlement
                        < fed.settlements.len(),
                self@ == (WorldModel {
                    settlements: after_shortfalls(fed.settlements, missing@, k as int),
                    ..fed
                }),
            decreases missing@.len() - k,
        {
            let lacking = missing[k];
            proof {
                lemma_shortfalls_shape(fed.settlements, missing@, k as int);
            }
            self.apply_shortage_effects(
                lacking.settlement,
                lacking.good,
                lacking.needed,
                lacking.consumed,
            );
            k = k + 1;
        }
        assert(self@ =~= old(self)@.after_consumption());
    }
}

} // verus!
