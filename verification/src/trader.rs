//! Traders, and the prices that they remember.

use crate::goods::Good;
use crate::settlement::SettlementId;
use vstd::prelude::*;

verus! {

pub type TraderId = usize;

/// One remembered price.
#[derive(Debug, Clone, Copy)]
pub struct PriceNote<N> {
    pub settlement: SettlementId,
    pub good: Good,
    pub price: N,
}

/// The first place at or after `from` where `notes` has a price for the pair.
pub open spec fn note_position<N>(
    notes: Seq<PriceNote<N>>,
    settlement: SettlementId,
    good: Good,
    from: int,
) -> int
    decreases notes.len() - from,
{
    if from >= notes.len() {
        notes.len() as int
    } else if notes[from].settlement == settlement && notes[from].good == good {
        from
    } else {
        note_position(notes, settlement, good, from + 1)
    }
}

proof fn lemma_note_position<N>(
    notes: Seq<PriceNote<N>>,
    settlement: SettlementId,
    good: Good,
    from: int,
)
    requires
        0 <= from <= notes.len(),
    ensures
        from <= note_position(notes, settlement, good, from) <= notes.len(),
        note_position(notes, settlement, good, from) < notes.len() ==> {
            let i = note_position(notes, settlement, good, from);
            notes[i].settlement == settlement && notes[i].good == good
        },
        forall|i: int|
            from <= i < note_position(notes, settlement, good, from) ==> !(
            (#[trigger] notes[i]).settlement == settlement && notes[i].good == good),
    decreases notes.len() - from,
{
    if from < notes.len() && !(notes[from].settlement == settlement && notes[from].good == good) {
        lemma_note_position(notes, settlement, good, from + 1);
    }
}

/// A place that has the pair, and before which nothing has it, is its position.
proof fn lemma_note_position_is<N>(
    notes: Seq<PriceNote<N>>,
    settlement: SettlementId,
    good: Good,
    from: int,
    at: int,
)
    requires
        0 <= from <= at <= notes.len(),
        at < notes.len() ==> notes[at].settlement == settlement && notes[at].good == good,
        forall|i: int|
            from <= i < at ==> !((#[trigger] notes[i]).settlement == settlement && notes[i].good
                == good),
    ensures
        note_position(notes, settlement, good, from) == at,
    decreases notes.len() - from,
{
    if from < at {
        assert(!(notes[from].settlement == settlement && notes[from].good == good));
        lemma_note_position_is(notes, settlement, good, from + 1, at);
    }
}

/// A map from settlements and goods to the price that was last noted.
#[derive(Debug, Clone)]
pub struct PriceMemory<N> {
    pub notes: Vec<PriceNote<N>>,
}

impl<N> View for PriceMemory<N> {
    type V = Map<(SettlementId, Good), N>;

    open spec fn view(&self) -> Map<(SettlementId, Good), N> {
        Map::new(
            |key: (SettlementId, Good)|
                note_position(self.notes@, key.0, key.1, 0) < self.notes@.len(),
            |key: (SettlementId, Good)|
                self.notes@[note_position(self.notes@, key.0, key.1, 0)].price,
        )
    }
}

impl<N: Copy> PriceMemory<N> {
    pub fn new() -> (r: Self)
        ensures
            r@ == Map::<(SettlementId, Good), N>::empty(),
    {
        let r = PriceMemory { notes: Vec::new() };
        assert(r@ =~= Map::<(SettlementId, Good), N>::empty());
        r
    }

    fn find(&self, settlement: SettlementId, good: Good) -> (r: usize)
        ensures
            r == note_position(self.notes@, settlement, good, 0),
            r <= self.notes@.len(),
    {
        let mut i: usize = 0;
        while i < self.notes.len() && !(self.notes[i].settlement == settlement
            && self.notes[i].good == good)
            invariant
                i <= self.notes@.len(),
                forall|j: int|
                    0 <= j < i ==> !((#[trigger] self.notes@[j]).settlement == settlement
                        && self.notes@[j].good == good),
            decreases self.notes@.len() - i,
        {
            i = i + 1;
        }
        proof {
            lemma_note_position_is(self.notes@, settlement, good, 0, i as int);
        }
        i
    }

    pub fn get(&self, settlement: SettlementId, good: Good) -> (r: Option<N>)
        ensures
            r is Some <==> self@.contains_key((settlement, good)),
            r is Some ==> r->0 == self@[(settlement, good)],
    {
        let i = self.find(settlement, good);
        if i < self.notes.len() {
            Some(self.notes[i].price)
        } else {
            None
        }
    }

    pub fn insert(&mut self, settlement: SettlementId, good: Good, price: N)
        ensures
            final(self)@ == old(self)@.insert((settlement, good), price),
    {
        let i = self.find(settlement, good);
        let ghost before = self.notes@;
        proof {
            lemma_note_position(before, settlement, good, 0);
        }
        let note = PriceNote { settlement, good, price };
        if i < self.notes.len() {
            self.notes.set(i, note);
        } else {
            self.notes.push(note);
        }
        let ghost after = self.notes@;
        assert forall|key: (SettlementId, Good)| key != (settlement, good) implies {
            let p = note_position(before, key.0, key.1, 0);
            let q = #[trigger] note_position(after, key.0, key.1, 0);
            &&& p < before.len() <==> q < after.len()
            &&& p < before.len() ==> q == p && after[q] == before[p]
        } by {
            lemma_note_position(before, key.0, key.1, 0);
            let p = note_position(before, key.0, key.1, 0);
            if p < before.len() {
                lemma_note_position_is(after, key.0, key.1, 0, p);
            } else {
                lemma_note_position_is(after, key.0, key.1, 0, after.len() as int);
            }
        }
        proof {
            lemma_note_position_is(after, settlement, good, 0, i as int);
        }
        assert(self@ =~= old(self)@.insert((settlement, good), price));
    }
}

#[derive(Debug, Clone)]
pub struct Trader<N> {
    pub id: TraderId,
    pub name: String,
    /// Where the trader is: routes that touch it are less hazardous to them.
    pub location: SettlementId,
    /// Where the trader hires and maintains carts; receives the monthly upkeep.
    pub home_base: SettlementId,
    pub money: N,
    /// Monthly pool of trade activity; each shipment uses at least one unit.
    pub trade_capacity: N,
    /// From zero to one: willingness to run routes with cargo risk.
    pub risk_tolerance: N,
    /// Last observed prices; fresh at the current location and home base only.
    pub known_prices: PriceMemory<N>,
}

/// A trader, with their memory as a map.
#[verifier::ext_equal]
pub struct TraderModel<N> {
    pub id: TraderId,
    pub name: String,
    pub location: SettlementId,
    pub home_base: SettlementId,
    pub money: N,
    pub trade_capacity: N,
    pub risk_tolerance: N,
    pub known_prices: Map<(SettlementId, Good), N>,
}

impl<N> View for Trader<N> {
    type V = TraderModel<N>;

    open spec fn view(&self) -> TraderModel<N> {
        TraderModel {
            id: self.id,
            name: self.name,
            location: self.location,
            home_base: self.home_base,
            money: self.money,
            trade_capacity: self.trade_capacity,
            risk_tolerance: self.risk_tolerance,
            known_prices: self.known_prices@,
        }
    }
}

} // verus!
