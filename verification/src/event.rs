//! What happened in a month.

use crate::goods::Good;
use crate::route::RouteId;
use crate::settlement::SettlementId;
use crate::trader::TraderId;
use vstd::prelude::*;

verus! {

#[derive(Debug, Clone, Copy, PartialEq)]
pub enum Event<N> {
    Produced { settlement: SettlementId, good: Good, amount: N },
    Consumed { settlement: SettlementId, good: Good, amount: N },
    Shortage { settlement: SettlementId, good: Good, unmet: N },
    PriceChanged { settlement: SettlementId, good: Good, old_price: N, new_price: N },
    UpkeepPaid { trader: TraderId, home_base: SettlementId, amount: N },
    LocalSpending { trader: TraderId, settlement: SettlementId, amount: N },
    DebtInterest { debtor: SettlementId, amount: N },
    Austerity { settlement: SettlementId, multiplier: N },
    ShipmentCreated {
        trader: TraderId,
        good: Good,
        quantity: N,
        seller: SettlementId,
        buyer: SettlementId,
    },
    CargoLost { trader: TraderId, good: Good, lost: N, remaining: N, route: RouteId },
    ShipmentArrived {
        trader: TraderId,
        good: Good,
        quantity: N,
        initial_quantity: N,
        seller: SettlementId,
        buyer: SettlementId,
        profit: N,
    },
}

/// The number of shipments that the events report as created.
pub open spec fn shipments_created<N>(events: Seq<Event<N>>) -> nat {
    events.filter(|event: Event<N>| event is ShipmentCreated).len()
}

pub fn count_shipments<N>(events: &Vec<Event<N>>) -> (r: usize)
    ensures
        r == shipments_created(events@),
{
    let mut created: usize = 0;
    let mut i: usize = 0;
    while i < events.len()
        invariant
            i <= events@.len(),
            created <= i,
            created == shipments_created(events@.take(i as int)),
        decreases events@.len() - i,
    {
        proof {
            reveal_with_fuel(Seq::filter, 2);
            assert(events@.take(i + 1).drop_last() =~= events@.take(i as int));
        }
        match &events[i] {
            Event::ShipmentCreated { .. } => {
                created = created + 1;
            },
            _ => {},
        }
        i = i + 1;
    }
    assert(events@.take(i as int) =~= events@);
    created
}

} // verus!
