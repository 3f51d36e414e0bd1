//! A settlement: its stores, its treasury, and what its treasury lets it do.

use crate::goods::{base_price, make_base_price, Good, GoodMap};
use crate::number::{clamp, clamped, hundredths, make_hundredths, make_whole, whole, Number};
use vstd::prelude::*;

verus! {

pub type SettlementId = usize;

/// Settlements may borrow against this many months of production.
pub const CREDIT_MONTHS_OF_PRODUCTION: i64 = 3;

/// At full debt stress, consumption is cut by this many hundredths.
pub const MAX_AUSTERITY_PERCENT: i64 = 50;

/// Above this treasury balance, settlements gradually consume more.
pub const PROSPERITY_THRESHOLD: i64 = 2500;

/// The extra consumption of the richest settlements, in hundredths.
pub const MAX_PROSPERITY_PERCENT: i64 = 25;

#[derive(Debug, Clone)]
pub struct Settlement<N> {
    pub id: SettlementId,
    pub name: String,
    pub stockpiles: GoodMap<N>,
    pub prices: GoodMap<N>,
    pub production: GoodMap<N>,
    pub consumption: GoodMap<N>,
    pub money: N,
    /// Scales output after shortages (one is full capacity).
    pub production_scale: GoodMap<N>,
}

/// `subtotal` with one product of the settlement added, at its base price.
pub open spec fn production_subtotal<N: Number>(subtotal: N, amount: Option<N>, good: Good) -> N {
    match amount {
        Some(amount) => subtotal.sum(amount.product(base_price(good))),
        None => subtotal,
    }
}

impl<N: Number> Settlement<N> {
    /// A month's full output, valued at base prices.
    pub open spec fn production_value(self) -> N {
        let food = production_subtotal(whole(0), self.production.food, Good::Food);
        let ore = production_subtotal(food, self.production.ore, Good::Ore);
        production_subtotal(ore, self.production.tools, Good::Tools)
    }

    /// How far below zero the treasury may go.
    pub open spec fn borrowing_limit(self) -> N {
        self.production_value().product(whole(CREDIT_MONTHS_OF_PRODUCTION))
    }

    /// The part of the borrowing limit that is used up, from zero to one.
    pub open spec fn stress(self) -> N {
        if whole::<N>(0).at_most(self.money) {
            whole(0)
        } else if self.borrowing_limit().at_most(whole(0)) {
            whole(1)
        } else {
            clamped(self.money.opposite().quotient(self.borrowing_limit()), whole(0), whole(1))
        }
    }

    /// The share of its need that the settlement asks for this month.
    pub open spec fn appetite(self) -> N {
        let austere = austere_share(self.stress());
        let threshold = whole::<N>(PROSPERITY_THRESHOLD);
        if threshold.less(self.money) {
            let surplus = self.money.difference(threshold).quotient(threshold).smaller(whole(1));
            austere.product(whole::<N>(1).sum(surplus.product(hundredths(MAX_PROSPERITY_PERCENT))))
        } else {
            austere
        }
    }

    /// Cash on hand plus what can still be borrowed.
    pub open spec fn buying_power(self) -> N {
        if whole::<N>(0).at_most(self.money) {
            self.money.sum(self.borrowing_limit())
        } else {
            self.borrowing_limit().sum(self.money).larger(whole(0))
        }
    }
}

/// What is left of consumption under the given debt stress.
pub open spec fn austere_share<N: Number>(stress: N) -> N {
    whole::<N>(1).difference(hundredths::<N>(MAX_AUSTERITY_PERCENT).product(stress))
}

fn add_production<N: Number>(subtotal: N, amount: Option<N>, good: Good) -> (r: N)
    ensures
        r == production_subtotal(subtotal, amount, good),
{
    match amount {
        Some(amount) => subtotal.add(amount.mul(make_base_price(good))),
        None => subtotal,
    }
}

pub fn monthly_production_value<N: Number>(settlement: &Settlement<N>) -> (r: N)
    ensures
        r == settlement.production_value(),
{
    let food = add_production(make_whole(0), settlement.production.food, Good::Food);
    let ore = add_production(food, settlement.production.ore, Good::Ore);
    add_production(ore, settlement.production.tools, Good::Tools)
}

pub fn credit_limit<N: Number>(settlement: &Settlement<N>) -> (r: N)
    ensures
        r == settlement.borrowing_limit(),
{
    monthly_production_value(settlement).mul(make_whole(CREDIT_MONTHS_OF_PRODUCTION))
}

pub fn debt_stress<N: Number>(settlement: &Settlement<N>) -> (r: N)
    ensures
        r == settlement.stress(),
{
    if make_whole::<N>(0).le(settlement.money) {
        return make_whole(0);
    }
    let debt = settlement.money.neg();
    let limit = credit_limit(settlement);
    if limit.le(make_whole(0)) {
        return make_whole(1);
    }
    clamp(debt.div(limit), make_whole(0), make_whole(1))
}

pub fn austerity_multiplier<N: Number>(debt_stress: N) -> (r: N)
    ensures
        r == austere_share(debt_stress),
{
    make_whole::<N>(1).sub(make_hundredths::<N>(MAX_AUSTERITY_PERCENT).mul(debt_stress))
}

pub fn consumption_multiplier<N: Number>(settlement: &Settlement<N>) -> (r: N)
    ensures
        r == settlement.appetite(),
{
    let multiplier = austerity_multiplier(debt_stress(settlement));
    let threshold = make_whole::<N>(PROSPERITY_THRESHOLD);
    if threshold.lt(settlement.money) {
        let surplus = settlement.money.sub(threshold).div(threshold).min(make_whole(1));
        let prosperity = surplus.mul(make_hundredths(MAX_PROSPERITY_PERCENT));
        multiplier.mul(make_whole::<N>(1).add(prosperity))
    } else {
        multiplier
    }
}

/// Cash on hand plus remaining borrowing capacity.
pub fn settlement_purchasing_power<N: Number>(settlement: &Settlement<N>) -> (r: N)
    ensures
        r == settlement.buying_power(),
{
    let limit = credit_limit(settlement);
    if make_whole::<N>(0).le(settlement.money) {
        settlement.money.add(limit)
    } else {
        limit.add(settlement.money).max(make_whole(0))
    }
}

} // verus!
