//! Goods, and amounts kept per good.

use crate::number::{whole, make_whole, Number};
use vstd::prelude::*;

verus! {

#[derive(Debug, Clone, Copy, PartialEq, Eq, Hash, Structural)]
pub enum Good {
    Food,
    Ore,
    Tools,
}

/// The printed name of a good.
pub open spec fn name_of(good: Good) -> Seq<char> {
    match good {
        Good::Food => "Food"@,
        Good::Ore => "Ore"@,
        Good::Tools => "Tools"@,
    }
}

pub fn good_name(good: Good) -> (r: &'static str)
    ensures
        r@ == name_of(good),
{
    match good {
        Good::Food => "Food",
        Good::Ore => "Ore",
        Good::Tools => "Tools",
    }
}

/// The place of a good in the order in which goods are always gone through.
pub open spec fn index_of(good: Good) -> int {
    match good {
        Good::Food => 0,
        Good::Ore => 1,
        Good::Tools => 2,
    }
}

pub fn good_index(good: Good) -> (r: usize)
    ensures
        r == index_of(good),
{
    match good {
        Good::Food => 0,
        Good::Ore => 1,
        Good::Tools => 2,
    }
}

/// The good at a place of that order.
pub open spec fn good_of(index: int) -> Good {
    if index == 0 {
        Good::Food
    } else if index == 1 {
        Good::Ore
    } else {
        Good::Tools
    }
}

/// A map from goods to amounts.
#[derive(Debug, Clone, Copy, PartialEq)]
pub struct GoodMap<N> {
    pub food: Option<N>,
    pub ore: Option<N>,
    pub tools: Option<N>,
}

impl<N> View for GoodMap<N> {
    type V = Map<Good, N>;

    open spec fn view(&self) -> Map<Good, N> {
        Map::new(|good: Good| self.at(good) is Some, |good: Good| self.at(good)->0)
    }
}

impl<N> GoodMap<N> {
    /// The amount kept for `good`, if any.
    pub open spec fn at(self, good: Good) -> Option<N> {
        match good {
            Good::Food => self.food,
            Good::Ore => self.ore,
            Good::Tools => self.tools,
        }
    }

    /// The amount kept for `good`, or `default` where none is kept.
    pub open spec fn at_or(self, good: Good, default: N) -> N {
        match self.at(good) {
            Some(amount) => amount,
            None => default,
        }
    }

    /// The map with `amount` kept for `good`.
    pub open spec fn with(self, good: Good, amount: N) -> Self {
        match good {
            Good::Food => GoodMap { food: Some(amount), ..self },
            Good::Ore => GoodMap { ore: Some(amount), ..self },
            Good::Tools => GoodMap { tools: Some(amount), ..self },
        }
    }

    /// Every good has an amount.
    pub open spec fn total(self) -> bool {
        self.food is Some && self.ore is Some && self.tools is Some
    }

    pub fn new() -> (r: Self)
        ensures
            r@ == Map::<Good, N>::empty(),
            forall|good: Good| r.at(good) is None,
    {
        let r = GoodMap { food: None, ore: None, tools: None };
        assert(r@ =~= Map::<Good, N>::empty());
        r
    }

    pub fn insert(&mut self, good: Good, amount: N)
        ensures
            *final(self) == old(self).with(good, amount),
            final(self)@ == old(self)@.insert(good, amount),
    {
        match good {
            Good::Food => {
                self.food = Some(amount);
            },
            Good::Ore => {
                self.ore = Some(amount);
            },
            Good::Tools => {
                self.tools = Some(amount);
            },
        }
        assert(self@ =~= old(self)@.insert(good, amount));
    }
}

impl<N: Number> GoodMap<N> {
    pub fn get(&self, good: Good) -> (r: Option<N>)
        ensures
            r == self.at(good),
            r is Some <==> self@.contains_key(good),
            r is Some ==> r->0 == self@[good],
    {
        match good {
            Good::Food => self.food,
            Good::Ore => self.ore,
            Good::Tools => self.tools,
        }
    }

    pub fn get_or(&self, good: Good, default: N) -> (r: N)
        ensures
            r == self.at_or(good, default),
    {
        match self.get(good) {
            Some(amount) => amount,
            None => default,
        }
    }
}

/// What a good is worth where supply meets demand.
pub open spec fn base_price<N: Number>(good: Good) -> N {
    match good {
        Good::Food => whole(10),
        Good::Ore => whole(8),
        Good::Tools => whole(20),
    }
}

pub fn base_prices<N: Number>() -> (r: GoodMap<N>)
    ensures
        forall|good: Good| #[trigger] r.at(good) == Some(base_price::<N>(good)),
{
    GoodMap {
        food: Some(make_whole(10)),
        ore: Some(make_whole(8)),
        tools: Some(make_whole(20)),
    }
}

/// The base price of one good.
pub fn make_base_price<N: Number>(good: Good) -> (r: N)
    ensures
        r == base_price::<N>(good),
{
    match good {
        Good::Food => make_whole(10),
        Good::Ore => make_whole(8),
        Good::Tools => make_whole(20),
    }
}

} // verus!
