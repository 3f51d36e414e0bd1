//! A month of the simulation.

use crate::event::Event;
use crate::finance::{lemma_collected_shape, lemma_debts_named, lemma_expenses_shape};
use crate::naming::law_events_name_what_exists;
use crate::number::Number;
use crate::production::{consumed, lemma_shortfalls_named, lemma_shortfalls_shape};
use crate::shipment::CargoRoll;
use crate::world::{lemma_same_names_wf, World, WorldModel};
use vstd::prelude::*;

verus! {

impl<N: Number> WorldModel<N> {
    /// The next month has begun.
    pub open spec fn after_new_month(self) -> Self {
        WorldModel { month: (self.month + 1) as u32, ..self }
    }

    /// The month up to consumption.
    pub open spec fn after_supply(self) -> Self {
        let rested = self.after_new_month().after_route_reset().after_recovery();
        rested.after_production().after_consumption()
    }

    /// The month up to the payment of expenses.
    pub open spec fn after_accounts(self) -> Self {
        self.after_supply().after_price_update().after_interest().after_expenses()
    }

    /// The month up to the point where shipments move on.
    pub open spec fn after_opening(self) -> Self {
        self.after_accounts().after_trading()
    }

    /// The whole month, with `rolls` for the luck of the shipments.
    pub open spec fn after_month(self, rolls: Seq<CargoRoll<N>>) -> Self {
        self.after_opening().after_advance(rolls)
    }
}

/// Recovery, production and consumption keep every identifier valid.
pub proof fn lemma_supply_wf<N: Number>(model: WorldModel<N>)
    requires
        model.wf(),
    ensures
        model.after_new_month().after_route_reset().after_recovery().after_production().wf(),
        model.after_supply().wf(),
        model.same_names(model.after_supply()),
{
    let made = model.after_new_month().after_route_reset().after_recovery().after_production();
    assert(model.same_names(made));
    lemma_same_names_wf(model, made);
    lemma_shortfalls_named(made);
    let fed = Seq::new(made.settlements.len(), |i: int| consumed(made.settlements[i]));
    let missing = made.all_shortfalls();
    lemma_shortfalls_shape(fed, missing, missing.len() as int);
    assert(made.same_names(made.after_consumption()));
    lemma_same_names_wf(made, made.after_consumption());
}

/// New prices and the news of them keep every identifier valid.
pub proof fn lemma_price_update_wf<N: Number>(model: WorldModel<N>)
    requires
        model.wf(),
    ensures
        model.after_repricing().wf(),
        model.after_price_update().wf(),
        model.after_price_update().priced(),
{
    assert(model.same_names(model.after_repricing()));
    lemma_same_names_wf(model, model.after_repricing());
    assert(model.same_names(model.after_price_update()));
    lemma_same_names_wf(model, model.after_price_update());
}

/// Interest keeps every identifier valid and every price quoted.
pub proof fn lemma_interest_wf<N: Number>(model: WorldModel<N>)
    requires
        model.wf(),
    ensures
        model.after_interest().wf(),
        model.same_names(model.after_interest()),
        forall|i: int|
            0 <= i < model.settlements.len() ==> (
            #[trigger] model.after_interest().settlements[i]).prices
                == model.settlements[i].prices,
{
    let owed = model.all_debts();
    lemma_debts_named(model.settlements, model.settlements.len() as int);
    lemma_collected_shape(model.settlements, owed, owed.len() as int);
    assert(model.same_names(model.after_interest()));
    lemma_same_names_wf(model, model.after_interest());
}

/// Expenses keep every identifier valid and every price quoted.
pub proof fn lemma_expenses_wf<N: Number>(model: WorldModel<N>)
    requires
        model.wf(),
    ensures
        model.after_expenses().wf(),
        model.same_names(model.after_expenses()),
        model.priced() ==> model.after_expenses().priced(),
{
    lemma_expenses_shape(model, model.traders.len() as int);
    lemma_same_names_wf(model, model.after_expenses());
    if model.priced() {
        assert forall|i: int| 0 <= i < model.settlements.len() implies (
        #[trigger] model.after_expenses().settlements[i]).prices.total() by {
            assert(model.settlements[i].prices.total());
        }
    }
}

impl<N: Number> World<N> {
    /// The month up to the point where shipments move on.
    pub fn open_month(&mut self)
        requires
            old(self)@.wf(),
            old(self)@.month < u32::MAX,
        ensures
            final(self)@ == old(self)@.after_opening(),
            final(self)@.wf(),
            final(self)@.priced(),
    {
        let ghost start = self@;
        self.month = self.month + 1;
        assert(self@ =~= start.after_new_month());
        self.reset_route_capacity();
        self.recover_production_capacity();
        self.produce();
        proof {
            lemma_supply_wf(start);
        }
        self.consume();
        let ghost supplied = self@;
        self.update_prices();
        proof {
            lemma_price_update_wf(supplied);
            lemma_interest_wf(self@);
        }
        let ghost priced = self@;
        self.service_debt_interest();
        proof {
            assert forall|i: int| 0 <= i < self@.settlements.len() implies (
            #[trigger] self@.settlements[i]).prices.total() by {
                assert(priced.settlements[i].prices.total());
            }
            lemma_expenses_wf(self@);
        }
        self.pay_trader_expenses();
        self.create_trade_shipments();
    }

    /// A month of the simulation.  `draw` gives, for a number of shipments, the
    /// luck of each.
    pub fn tick_month<F: FnOnce(usize) -> Vec<CargoRoll<N>>>(&mut self, draw: F)
        requires
            old(self)@.wf(),
            old(self)@.month < u32::MAX,
            forall|n: usize| call_requires(draw, (n,)),
            forall|n: usize, rolls: Vec<CargoRoll<N>>|
                call_ensures(draw, (n,), rolls) ==> rolls@.len() >= n,
        ensures
            final(self)@.wf(),
            final(self)@.priced(),
            final(self)@.settlements.len() == old(self)@.settlements.len(),
            old(self)@.events_wf() ==> final(self)@.events_wf(),
            old(self)@.after_opening().shipments.len() <= usize::MAX,
            exists|rolls: Vec<CargoRoll<N>>|
                {
                    &&& #[trigger] call_ensures(
                        draw,
                        (old(self)@.after_opening().shipments.len() as usize,),
                        rolls,
                    )
                    &&& final(self)@ == old(self)@.after_month(rolls@)
                },
    {
        self.open_month();
        let rolls = draw(self.shipments.len());
        assert(old(self)@.after_opening().shipments.len() as usize == self.shipments.len());
        self.advance_shipments(&rolls);
        proof {
            law_events_name_what_exists(old(self)@, rolls@);
        }
    }

    /// Takes the events that have gathered out of the world.
    pub fn take_events(&mut self) -> (r: Vec<Event<N>>)
        ensures
            r@ == old(self)@.events,
            final(self)@ == (WorldModel { events: Seq::empty(), ..old(self)@ }),
            old(self)@.wf() ==> final(self)@.wf(),
            old(self)@.priced() ==> final(self)@.priced(),
            final(self)@.events_wf(),
            old(self)@.events_wf() ==> forall|i: int|
                0 <= i < r@.len() ==> final(self)@.event_wf(#[trigger] r@[i]),
    {
        let ghost start = self@;
        let mut events: Vec<Event<N>> = Vec::new();
        std::mem::swap(&mut events, &mut self.events);
        assert(self@ =~= WorldModel { events: Seq::empty(), ..start });
        proof {
            if start.wf() {
                lemma_same_names_wf(start, self@);
            }
            if start.events_wf() {
                assert forall|i: int| 0 <= i < events@.len() implies self@.event_wf(
                    #[trigger] events@[i],
                ) by {
                    assert(start.event_wf(start.events[i]));
                }
            }
        }
        events
    }
}

} // verus!
