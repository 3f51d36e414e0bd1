//! Cargo on its way, and what may happen to it.

use crate::goods::Good;
use crate::number::Number;
use crate::route::RouteId;
use crate::settlement::SettlementId;
use crate::trader::TraderId;
use vstd::prelude::*;

verus! {

#[derive(Debug, Clone, Copy)]
pub struct Shipment<N> {
    pub trader: TraderId,
    pub good: Good,
    pub quantity: N,
    pub initial_quantity: N,
    pub capacity_units: N,
    pub seller: SettlementId,
    pub buyer: SettlementId,
    pub route: RouteId,
    pub buy_price: N,
    pub expected_sell_price: N,
    pub transport_cost_per_unit: N,
    /// Frozen at creation so mid-trip location changes do not alter rolls.
    pub effective_monthly_incident_rate: N,
    pub months_remaining: u32,
}

/// A month's luck of one shipment: two numbers drawn evenly between zero and
/// one.  An incident happens where the first lies below the shipment's rate; the
/// second is the part of the cargo that is then lost.
#[derive(Debug, Clone, Copy)]
pub struct CargoRoll<N> {
    pub incident: N,
    pub loss_fraction: N,
}

/// The cargo that an incident takes, if one happens.
pub open spec fn cargo_loss<N: Number>(quantity: N, rate: N, roll: CargoRoll<N>) -> Option<N> {
    if rate.at_most(roll.incident) {
        None
    } else {
        Some(quantity.product(roll.loss_fraction))
    }
}

/// What is left of the cargo.
pub open spec fn cargo_left<N: Number>(quantity: N, rate: N, roll: CargoRoll<N>) -> N {
    match cargo_loss(quantity, rate, roll) {
        Some(lost) => quantity.difference(lost),
        None => quantity,
    }
}

pub fn apply_monthly_cargo_risk<N: Number>(
    quantity: &mut N,
    monthly_incident_rate: N,
    roll: &CargoRoll<N>,
) -> (r: Option<N>)
    ensures
        r == cargo_loss(*old(quantity), monthly_incident_rate, *roll),
        *final(quantity) == cargo_left(*old(quantity), monthly_incident_rate, *roll),
{
    if monthly_incident_rate.le(roll.incident) {
        return None;
    }
    let lost = quantity.mul(roll.loss_fraction);
    *quantity = quantity.sub(lost);
    Some(lost)
}

} // verus!
