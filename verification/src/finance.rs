//! Debt, interest, and what traders spend.

use crate::event::Event;
use crate::number::{hundredths, make_hundredths, make_whole, whole, Number};
use crate::settlement::{credit_limit, Settlement, SettlementId};
use crate::trader::{TraderId, TraderModel};
use crate::world::{World, WorldModel};
use vstd::prelude::*;

verus! {

/// Monthly interest on settlement debt, in hundredths; paid to settlements with
/// positive balances.
pub const DEBT_INTEREST_PERCENT: i64 = 2;

/// Monthly upkeep per unit of trade capacity, in hundredths, paid to the home base.
pub const UPKEEP_PER_CAPACITY_PERCENT: i64 = 50;

/// Crew, supplies and services per unit of trade capacity, in hundredths, bought
/// where the trader is.
pub const LOCAL_SPEND_PER_CAPACITY_PERCENT: i64 = 50;

/// The part of a trader's wealth above the reserve that is spent locally each
/// month, in hundredths.
pub const TRADER_REPATRIATION_PERCENT: i64 = 15;

/// Minimum cash that traders keep to operate the next month's routes.
pub const TRADER_OPERATING_RESERVE: i64 = 400;

/// What a settlement can still pay out before it reaches its borrowing limit.
pub open spec fn headroom<N: Number>(settlement: Settlement<N>) -> N {
    settlement.money.difference(settlement.borrowing_limit().opposite()).larger(whole(0))
}

/// What a settlement that is billed `amount` pays.
pub open spec fn payable<N: Number>(settlement: Settlement<N>, amount: N) -> N {
    amount.smaller(headroom(settlement))
}

/// The settlement after it paid what it could of `amount`.
pub open spec fn debited<N: Number>(settlement: Settlement<N>, amount: N) -> Settlement<N> {
    Settlement { money: settlement.money.difference(payable(settlement, amount)), ..settlement }
}

/// What a settlement owed when interest fell due.
#[derive(Debug, Clone, Copy)]
pub struct Debt<N> {
    pub debtor: SettlementId,
    pub amount: N,
}

/// The debts of the first `n` settlements.
pub open spec fn debts<N: Number>(settlements: Seq<Settlement<N>>, n: int) -> Seq<Debt<N>>
    decreases n,
{
    if n <= 0 {
        Seq::empty()
    } else if settlements[n - 1].money.less(whole(0)) {
        debts(settlements, n - 1).push(
            Debt { debtor: settlements[n - 1].id, amount: settlements[n - 1].money.opposite() },
        )
    } else {
        debts(settlements, n - 1)
    }
}

/// Interest as it is collected: the settlements that paid, what was reported,
/// and what came together.
#[verifier::ext_equal]
pub struct Collection<N> {
    pub settlements: Seq<Settlement<N>>,
    pub events: Seq<Event<N>>,
    pub total: N,
}

/// The interest on a debt.
pub open spec fn interest_on<N: Number>(debt: Debt<N>) -> N {
    debt.amount.product(hundredths(DEBT_INTEREST_PERCENT))
}

/// The collection of interest on the first `n` debts.
pub open spec fn collected<N: Number>(
    settlements: Seq<Settlement<N>>,
    owed: Seq<Debt<N>>,
    n: int,
) -> Collection<N>
    decreases n,
{
    if n <= 0 {
        Collection { settlements, events: Seq::empty(), total: whole(0) }
    } else {
        let before = collected(settlements, owed, n - 1);
        let debt = owed[n - 1];
        let payer = before.settlements[debt.debtor as int];
        let paid = payable(payer, interest_on(debt));
        Collection {
            settlements: before.settlements.update(
                debt.debtor as int,
                debited(payer, interest_on(debt)),
            ),
            events: if whole::<N>(0).less(paid) {
                before.events.push(Event::DebtInterest { debtor: debt.debtor, amount: paid })
            } else {
                before.events
            },
            total: before.total.sum(paid),
        }
    }
}

/// The positive balances of the first `n` settlements together.
pub open spec fn creditor_pool<N: Number>(settlements: Seq<Settlement<N>>, n: int) -> N
    decreases n,
{
    if n <= 0 {
        whole(0)
    } else if whole::<N>(0).less(settlements[n - 1].money) {
        creditor_pool(settlements, n - 1).sum(settlements[n - 1].money)
    } else {
        creditor_pool(settlements, n - 1)
    }
}

/// The settlement with its share of the interest: in proportion to its balance.
pub open spec fn credited<N: Number>(
    settlement: Settlement<N>,
    interest: N,
    pool: N,
) -> Settlement<N> {
    if settlement.money.at_most(whole(0)) {
        settlement
    } else {
        Settlement {
            money: settlement.money.sum(interest.product(settlement.money).quotient(pool)),
            ..settlement
        }
    }
}

impl<N: Number> WorldModel<N> {
    /// What the settlements in debt owe.
    pub open spec fn all_debts(self) -> Seq<Debt<N>> {
        debts(self.settlements, self.settlements.len() as int)
    }

    /// This month's collection of interest.
    pub open spec fn interest(self) -> Collection<N> {
        collected(self.settlements, self.all_debts(), self.all_debts().len() as int)
    }

    /// What the creditors own when the collected interest is handed out.
    pub open spec fn pool(self) -> N {
        creditor_pool(self.interest().settlements, self.settlements.len() as int)
    }

    /// There is interest to hand out, and someone to receive it.
    pub open spec fn interest_is_shared(self) -> bool {
        !self.pool().at_most(whole(0)) && !self.interest().total.at_most(whole(0))
    }

    pub open spec fn after_interest(self) -> Self {
        let collection = self.interest();
        if self.all_debts().len() == 0 {
            self
        } else {
            WorldModel {
                settlements: if self.interest_is_shared() {
                    Seq::new(
                        self.settlements.len(),
                        |i: int|
                            credited(collection.settlements[i], collection.total, self.pool()),
                    )
                } else {
                    collection.settlements
                },
                events: self.events + collection.events,
                ..self
            }
        }
    }

    /// `amount` moves from a trader to a settlement.
    pub open spec fn after_payment(self, trader: int, settlement: int, amount: N) -> Self {
        WorldModel {
            traders: self.traders.update(
                trader,
                TraderModel {
                    money: self.traders[trader].money.difference(amount),
                    ..self.traders[trader]
                },
            ),
            settlements: self.settlements.update(
                settlement,
                Settlement {
                    money: self.settlements[settlement].money.sum(amount),
                    ..self.settlements[settlement]
                },
            ),
            ..self
        }
    }

    /// The upkeep that a trader can pay: all of it, or what they have; nothing
    /// where they are in debt.
    pub open spec fn upkeep(self, trader: int) -> N {
        self.traders[trader].trade_capacity.product(hundredths(UPKEEP_PER_CAPACITY_PERCENT)).smaller(
            self.traders[trader].money.larger(whole(0)),
        )
    }

    pub open spec fn after_upkeep(self, trader: TraderId) -> Self {
        let amount = self.upkeep(trader as int);
        let home_base = self.traders[trader as int].home_base;
        let paid = self.after_payment(trader as int, home_base as int, amount);
        if whole::<N>(0).less(amount) {
            WorldModel {
                events: paid.events.push(Event::UpkeepPaid { trader, home_base, amount }),
                ..paid
            }
        } else {
            paid
        }
    }

    /// What a trader spends where they are: enough for the capacity or a part of
    /// their wealth, whichever is more, but nothing of the reserve.
    pub open spec fn local_spending(self, trader: int) -> N {
        let spendable = self.traders[trader].money.difference(whole(TRADER_OPERATING_RESERVE)).larger(
            whole(0),
        );
        self.traders[trader].trade_capacity.product(
            hundredths(LOCAL_SPEND_PER_CAPACITY_PERCENT),
        ).larger(spendable.product(hundredths(TRADER_REPATRIATION_PERCENT))).smaller(spendable)
    }

    pub open spec fn after_local_spending(self, trader: TraderId) -> Self {
        let amount = self.local_spending(trader as int);
        let settlement = self.traders[trader as int].location;
        let paid = self.after_payment(trader as int, settlement as int, amount);
        if whole::<N>(0).less(amount) {
            WorldModel {
                events: paid.events.push(Event::LocalSpending { trader, settlement, amount }),
                ..paid
            }
        } else {
            paid
        }
    }

    /// The expenses of the first `n` traders, one after the other.
    pub open spec fn after_expenses_of(self, n: int) -> Self
        decreases n,
    {
        if n <= 0 {
            self
        } else {
            self.after_expenses_of(n - 1).after_upkeep((n - 1) as TraderId).after_local_spending(
                (n - 1) as TraderId,
            )
        }
    }

    pub open spec fn after_expenses(self) -> Self {
        self.after_expenses_of(self.traders.len() as int)
    }
}

/// Debts name settlements that exist.
pub proof fn lemma_debts_named<N: Number>(settlements: Seq<Settlement<N>>, n: int)
    requires
        0 <= n <= settlements.len(),
        forall|i: int|
            0 <= i < settlements.len() ==> (#[trigger] settlements[i]).id < settlements.len(),
    ensures
        debts(settlements, n).len() <= n,
        forall|k: int|
            0 <= k < debts(settlements, n).len() ==> (#[trigger] debts(settlements, n)[k]).debtor
                < settlements.len(),
    decreases n,
{
    if n > 0 {
        lemma_debts_named(settlements, n - 1);
    }
}

/// Collecting interest changes balances only.
pub proof fn lemma_collected_shape<N: Number>(
    settlements: Seq<Settlement<N>>,
    owed: Seq<Debt<N>>,
    n: int,
)
    requires
        n <= owed.len(),
        forall|k: int| 0 <= k < owed.len() ==> (#[trigger] owed[k]).debtor < settlements.len(),
    ensures
        collected(settlements, owed, n).settlements.len() == settlements.len(),
        forall|i: int|
            0 <= i < settlements.len() ==> #[trigger] collected(
                settlements,
                owed,
                n,
            ).settlements[i] == (Settlement {
                money: collected(settlements, owed, n).settlements[i].money,
                ..settlements[i]
            }),
    decreases n,
{
    if n > 0 {
        lemma_collected_shape(settlements, owed, n - 1);
    }
}

/// Expenses change the balances of settlements only.
pub proof fn lemma_expenses_shape<N: Number>(model: WorldModel<N>, n: int)
    requires
        model.traders_wf(),
        0 <= n <= model.traders.len(),
    ensures
        model.same_names(model.after_expenses_of(n)),
        forall|i: int|
            0 <= i < model.settlements.len() ==> #[trigger] model.after_expenses_of(
                n,
            ).settlements[i] == (Settlement {
                money: model.after_expenses_of(n).settlements[i].money,
                ..model.settlements[i]
            }),
    decreases n,
{
    if n > 0 {
        lemma_expenses_shape(model, n - 1);
        let before = model.after_expenses_of(n - 1);
        assert(model.trader_wf(model.traders[n - 1]));
        let kept = before.after_upkeep((n - 1) as TraderId);
        assert(before.same_names(kept));
        let spent = kept.after_local_spending((n - 1) as TraderId);
        assert(kept.same_names(spent));
    }
}

impl<N: Number> World<N> {
    pub fn try_debit_settlement(&mut self, settlement_id: SettlementId, amount: N) -> (paid: N)
        requires
            settlement_id < old(self).settlements@.len(),
        ensures
            paid == payable(old(self)@.settlements[settlement_id as int], amount),
            final(self)@ == (WorldModel {
                settlements: old(self)@.settlements.update(
                    settlement_id as int,
                    debited(old(self)@.settlements[settlement_id as int], amount),
                ),
                ..old(self)@
            }),
    {
        let floor = credit_limit(&self.settlements[settlement_id]).neg();
        let available = self.settlements[settlement_id].money.sub(floor).max(make_whole(0));
        let paid = amount.min(available);
        self.settlements[settlement_id].money = self.settlements[settlement_id].money.sub(paid);
        assert(self@.settlements =~= old(self)@.settlements.update(
            settlement_id as int,
            debited(old(self)@.settlements[settlement_id as int], amount),
        ));
        paid
    }

    pub fn service_debt_interest(&mut self)
        requires
            old(self)@.settlements_wf(),
        ensures
            final(self)@ == old(self)@.after_interest(),
    {
        let mut owed: Vec<Debt<N>> = Vec::new();
        let count: usize = self.settlements.len();
        let mut i: usize = 0;
        while i < count
            invariant
                i <= count == self.settlements@.len(),
                owed@ == debts(self@.settlements, i as int),
            decreases count - i,
        {
            let money = self.settlements[i].money;
            if money.lt(make_whole(0)) {
                owed.push(Debt { debtor: self.settlements[i].id, amount: money.neg() });
            }
            i = i + 1;
        }
        if owed.len() == 0 {
            return;
        }
        let ghost start = self@;
        proof {
            lemma_debts_named(start.settlements, start.settlements.len() as int);
        }
        let mut total: N = make_whole(0);
        let mut k: usize = 0;
        while k < owed.len()
            invariant
                k <= owed@.len(),
                owed@ == start.all_debts(),
                forall|k: int|
                    0 <= k < owed@.len() ==> (#[trigger] owed@[k]).debtor < start.settlements.len(),
                total == collected(start.settlements, owed@, k as int).total,
                self@ == (WorldModel {
                    settlements: collected(start.settlements, owed@, k as int).settlements,
                    events: start.events + collected(start.settlements, owed@, k as int).events,
                    ..start
                }),
            decreases owed@.len() - k,
        {
            proof {
                lemma_collected_shape(start.settlements, owed@, k as int);
            }
            let debt = owed[k];
            let interest = debt.amount.mul(make_hundredths(DEBT_INTEREST_PERCENT));
            let paid = self.try_debit_settlement(debt.debtor, interest);
            total = total.add(paid);
            if make_whole::<N>(0).lt(paid) {
                self.events.push(Event::DebtInterest { debtor: debt.debtor, amount: paid });
            }
            k = k + 1;
            assert(self@ =~= (WorldModel {
                settlements: collected(start.settlements, owed@, k as int).settlements,
                events: start.events + collected(start.settlements, owed@, k as int).events,
                ..start
            }));
        }
        let ghost paid_up = self@;
        proof {
            lemma_collected_shape(start.settlements, owed@, k as int);
        }
        let mut pool: N = make_whole(0);
        let mut j: usize = 0;
        while j < count
            invariant
                j <= count == self.settlements@.len(),
                pool == creditor_pool(self@.settlements, j as int),
            decreases count - j,
        {
            let money = self.settlements[j].money;
            if make_whole::<N>(0).lt(money) {
                pool = pool.add(money);
            }
            j = j + 1;
        }
        if pool.le(make_whole(0)) || total.le(make_whole(0)) {
            assert(self@ =~= start.after_interest());
            return;
        }
        let mut c: usize = 0;
        while c < count
            invariant
                c <= count == self.settlements@.len(),
                self.settlements@.len() == paid_up.settlements.len(),
                self@ == (WorldModel { settlements: self.settlements@, ..paid_up }),
                forall|j: int|
                    0 <= j < count ==> #[trigger] self.settlements@[j] == if j < c {
                        credited(paid_up.settlements[j], total, pool)
                    } else {
                        paid_up.settlements[j]
                    },
            decreases count - c,
        {
            let money = self.settlements[c].money;
            if !money.le(make_whole(0)) {
                self.settlements[c].money = money.add(total.mul(money).div(pool));
            }
            c = c + 1;
        }
        assert(self@ =~= start.after_interest());
    }

    fn pay(&mut self, trader_id: TraderId, settlement_id: SettlementId, amount: N)
        requires
            trader_id < old(self)@.traders.len(),
            settlement_id < old(self)@.settlements.len(),
        ensures
            final(self)@ == old(self)@.after_payment(
                trader_id as int,
                settlement_id as int,
                amount,
            ),
    {
        self.traders[trader_id].money = self.traders[trader_id].money.sub(amount);
        self.settlements[settlement_id].money = self.settlements[settlement_id].money.add(amount);
        assert(self@ =~= old(self)@.after_payment(trader_id as int, settlement_id as int, amount));
    }

    pub fn pay_trader_expenses(&mut self)
        requires
            old(self)@.traders_wf(),
        ensures
            final(self)@ == old(self)@.after_expenses(),
    {
        let ghost start = self@;
        let count: usize = self.traders.len();
        let mut trader_id: usize = 0;
        while trader_id < count
            invariant
                start.traders_wf(),
                trader_id <= count == start.traders.len(),
                self@ == start.after_expenses_of(trader_id as int),
            decreases count - trader_id,
        {
            proof {
                lemma_expenses_shape(start, trader_id as int);
            }
            let location = self.traders[trader_id].location;
            let home_base = self.traders[trader_id].home_base;
            assert(start.trader_wf(start.traders[trader_id as int]));
            assert(self@.traders[trader_id as int].location == location);
            assert(self@.traders[trader_id as int].home_base == home_base);

            let upkeep = self.traders[trader_id].trade_capacity.mul(
                make_hundredths(UPKEEP_PER_CAPACITY_PERCENT),
            ).min(self.traders[trader_id].money.max(make_whole(0)));
            self.pay(trader_id, home_base, upkeep);
            if make_whole::<N>(0).lt(upkeep) {
                self.events.push(
                    Event::UpkeepPaid { trader: trader_id, home_base, amount: upkeep },
                );
            }
            assert(self@ =~= start.after_expenses_of(trader_id as int).after_upkeep(trader_id));
            assert(self@.traders.len() == count);

            let capacity_spend = self.traders[trader_id].trade_capacity.mul(
                make_hundredths(LOCAL_SPEND_PER_CAPACITY_PERCENT),
            );
            let spendable = self.traders[trader_id].money.sub(
                make_whole(TRADER_OPERATING_RESERVE),
            ).max(make_whole(0));
            let wealth_spend = spendable.mul(make_hundredths(TRADER_REPATRIATION_PERCENT));
            let local = capacity_spend.max(wealth_spend).min(spendable);
            self.pay(trader_id, location, local);
            if make_whole::<N>(0).lt(local) {
                self.events.push(
                    Event::LocalSpending { trader: trader_id, settlement: location, amount: local },
                );
            }
            assert(self@ =~= start.after_expenses_of(trader_id as int).after_upkeep(
                trader_id,
            ).after_local_spending(trader_id));
            trader_id = trader_id + 1;
        }
    }
}

} // verus!
