//! The state of the simulation.

use crate::event::Event;
use crate::number::{whole, hundredths, make_hundredths, make_whole, Number};
use crate::route::Route;
use crate::settlement::Settlement;
use crate::shipment::Shipment;
use crate::trader::{Trader, TraderModel};
use vstd::prelude::*;

verus! {

#[derive(Debug, Clone)]
pub struct World<N> {
    pub month: u32,
    pub expected_total_money: N,
    pub settlements: Vec<Settlement<N>>,
    pub routes: Vec<Route<N>>,
    pub traders: Vec<Trader<N>>,
    pub shipments: Vec<Shipment<N>>,
    pub events: Vec<Event<N>>,
}

/// The state of the simulation, with its lists as sequences.
#[verifier::ext_equal]
pub struct WorldModel<N> {
    pub month: u32,
    pub expected_total_money: N,
    pub settlements: Seq<Settlement<N>>,
    pub routes: Seq<Route<N>>,
    pub traders: Seq<TraderModel<N>>,
    pub shipments: Seq<Shipment<N>>,
    pub events: Seq<Event<N>>,
}

impl<N> View for World<N> {
    type V = WorldModel<N>;

    open spec fn view(&self) -> WorldModel<N> {
        WorldModel {
            month: self.month,
            expected_total_money: self.expected_total_money,
            settlements: self.settlements@,
            routes: self.routes@,
            traders: Seq::new(self.traders@.len(), |i: int| self.traders@[i]@),
            shipments: self.shipments@,
            events: self.events@,
        }
    }
}

/// The parts `part(0)`, `part(1)`, up to `part(n - 1)`, one behind the other.
pub open spec fn chain<A>(n: int, part: spec_fn(int) -> Seq<A>) -> Seq<A>
    decreases n,
{
    if n <= 0 {
        Seq::empty()
    } else {
        chain(n - 1, part) + part(n - 1)
    }
}

/// What holds of all elements of all parts holds of all elements of the chain.
pub proof fn lemma_chain_all<A>(n: int, part: spec_fn(int) -> Seq<A>, holds: spec_fn(A) -> bool)
    requires
        forall|i: int, k: int|
            0 <= i < n && 0 <= k < part(i).len() ==> holds(#[trigger] part(i)[k]),
    ensures
        forall|k: int| 0 <= k < chain(n, part).len() ==> holds(#[trigger] chain(n, part)[k]),
    decreases n,
{
    if n > 0 {
        lemma_chain_all(n - 1, part, holds);
        let first = chain(n - 1, part);
        assert forall|k: int| 0 <= k < chain(n, part).len() implies holds(
            #[trigger] chain(n, part)[k],
        ) by {
            if k < first.len() {
                assert(chain(n, part)[k] == first[k]);
            } else {
                assert(chain(n, part)[k] == part(n - 1)[k - first.len()]);
            }
        }
    }
}

/// The treasuries of the first `n` settlements together.
pub open spec fn settlement_money<N: Number>(settlements: Seq<Settlement<N>>, n: int) -> N
    decreases n,
{
    if n <= 0 {
        whole(0)
    } else {
        settlement_money(settlements, n - 1).sum(settlements[n - 1].money)
    }
}

/// The money of the first `n` traders together.
pub open spec fn trader_money<N: Number>(traders: Seq<TraderModel<N>>, n: int) -> N
    decreases n,
{
    if n <= 0 {
        whole(0)
    } else {
        trader_money(traders, n - 1).sum(traders[n - 1].money)
    }
}

impl<N: Number> WorldModel<N> {
    /// The identifiers of the settlements name settlements.
    pub open spec fn settlements_wf(self) -> bool {
        forall|i: int|
            0 <= i < self.settlements.len() ==> (#[trigger] self.settlements[i]).id
                < self.settlements.len()
    }

    /// The traders are, and have their home, in settlements that exist.
    pub open spec fn traders_wf(self) -> bool {
        forall|i: int|
            0 <= i < self.traders.len() ==> self.trader_wf(#[trigger] self.traders[i])
    }

    /// The identifiers of the routes name routes, and their ends settlements.
    pub open spec fn routes_wf(self) -> bool {
        forall|i: int| 0 <= i < self.routes.len() ==> self.route_wf(#[trigger] self.routes[i])
    }

    /// The ends of the routes are settlements that exist.
    pub open spec fn ends_wf(self) -> bool {
        forall|i: int|
            0 <= i < self.routes.len() ==> (#[trigger] self.routes[i]).a < self.settlements.len()
                && self.routes[i].b < self.settlements.len()
    }

    /// Identifiers are small enough to be mixed into one machine word.
    pub open spec fn seeds_fit(self) -> bool {
        self.traders.len() * 31 + self.settlements.len() * 17 + 14 <= usize::MAX
    }

    /// Every settlement's identifier is its place in the list.
    pub open spec fn numbered(self) -> bool {
        forall|i: int|
            0 <= i < self.settlements.len() ==> (#[trigger] self.settlements[i]).id == i
    }

    /// Every identifier names something, and identifiers are small enough to be
    /// mixed into one machine word.
    pub open spec fn wf(self) -> bool {
        &&& self.settlements_wf()
        &&& self.routes_wf()
        &&& self.traders_wf()
        &&& forall|i: int|
            0 <= i < self.shipments.len() ==> self.shipment_wf(#[trigger] self.shipments[i])
        &&& self.seeds_fit()
    }

    pub open spec fn route_wf(self, route: Route<N>) -> bool {
        &&& route.id < self.routes.len()
        &&& route.a < self.settlements.len()
        &&& route.b < self.settlements.len()
    }

    pub open spec fn trader_wf(self, trader: TraderModel<N>) -> bool {
        &&& trader.location < self.settlements.len()
        &&& trader.home_base < self.settlements.len()
    }

    pub open spec fn shipment_wf(self, shipment: Shipment<N>) -> bool {
        &&& shipment.trader < self.traders.len()
        &&& shipment.seller < self.settlements.len()
        &&& shipment.buyer < self.settlements.len()
        &&& shipment.route < self.routes.len()
    }

    /// Every settlement quotes a price for every good.
    pub open spec fn priced(self) -> bool {
        forall|i: int|
            0 <= i < self.settlements.len() ==> (#[trigger] self.settlements[i]).prices.total()
    }

    /// Two worlds in which the same identifiers name the same things.
    pub open spec fn same_names(self, other: Self) -> bool {
        &&& self.settlements.len() == other.settlements.len()
        &&& forall|i: int|
            0 <= i < self.settlements.len() ==> (#[trigger] other.settlements[i]).id
                == self.settlements[i].id
        &&& self.routes.len() == other.routes.len()
        &&& forall|i: int|
            0 <= i < self.routes.len() ==> {
                &&& (#[trigger] other.routes[i]).id == self.routes[i].id
                &&& other.routes[i].a == self.routes[i].a
                &&& other.routes[i].b == self.routes[i].b
            }
        &&& self.traders.len() == other.traders.len()
        &&& forall|i: int|
            0 <= i < self.traders.len() ==> {
                &&& (#[trigger] other.traders[i]).location == self.traders[i].location
                &&& other.traders[i].home_base == self.traders[i].home_base
            }
        &&& self.shipments == other.shipments
    }

    /// All the money there is.
    pub open spec fn total_money(self) -> N {
        settlement_money(self.settlements, self.settlements.len() as int).sum(
            trader_money(self.traders, self.traders.len() as int),
        )
    }

    /// The money in the world is within a hundredth of what it should be.
    pub open spec fn balanced(self) -> bool {
        self.total_money().difference(self.expected_total_money).magnitude().less(hundredths(1))
    }
}

/// Where the names are the same, one world is well-formed if the other is.
pub proof fn lemma_same_names_wf<N: Number>(before: WorldModel<N>, after: WorldModel<N>)
    requires
        before.wf(),
        before.same_names(after),
    ensures
        after.wf(),
{
    assert forall|i: int| 0 <= i < after.settlements.len() implies (
    #[trigger] after.settlements[i]).id < after.settlements.len() by {
        assert(before.settlements[i].id < before.settlements.len());
    }
    assert forall|i: int| 0 <= i < after.routes.len() implies after.route_wf(
        #[trigger] after.routes[i],
    ) by {
        assert(before.route_wf(before.routes[i]));
    }
    assert forall|i: int| 0 <= i < after.traders.len() implies after.trader_wf(
        #[trigger] after.traders[i],
    ) by {
        assert(before.trader_wf(before.traders[i]));
    }
    assert forall|i: int| 0 <= i < after.shipments.len() implies after.shipment_wf(
        #[trigger] after.shipments[i],
    ) by {
        assert(before.shipment_wf(before.shipments[i]));
    }
}

/// The money of all traders together.
pub fn sum_trader_money<N: Number>(world: &World<N>) -> (r: N)
    ensures
        r == trader_money(world@.traders, world@.traders.len() as int),
{
    let mut total: N = make_whole(0);
    let mut i: usize = 0;
    while i < world.traders.len()
        invariant
            i <= world.traders@.len(),
            total == trader_money(world@.traders, i as int),
        decreases world.traders@.len() - i,
    {
        total = total.add(world.traders[i].money);
        i = i + 1;
    }
    total
}

pub fn total_money<N: Number>(world: &World<N>) -> (r: N)
    ensures
        r == world@.total_money(),
{
    let mut settlements: N = make_whole(0);
    let mut i: usize = 0;
    while i < world.settlements.len()
        invariant
            i <= world.settlements@.len(),
            settlements == settlement_money(world@.settlements, i as int),
        decreases world.settlements@.len() - i,
    {
        settlements = settlements.add(world.settlements[i].money);
        i = i + 1;
    }
    settlements.add(sum_trader_money(world))
}

impl<N: Number> World<N> {
    /// Whether the money in the world is, up to a hundredth, what it should be.
    pub fn money_conserved(&self) -> (r: bool)
        ensures
            r == self@.balanced(),
    {
        total_money(self).sub(self.expected_total_money).abs().lt(make_hundredths(1))
    }
}

} // verus!
