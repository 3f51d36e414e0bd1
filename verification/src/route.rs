//! Routes between settlements.

use crate::number::{hundredths, make_hundredths, Number};
use crate::settlement::SettlementId;
use vstd::prelude::*;

verus! {

pub type RouteId = usize;

/// Hazard multiplier, in hundredths, where the trader's location is on the route.
pub const FAMILIARITY_PERCENT: i64 = 70;

#[derive(Debug, Clone, Copy)]
pub struct Route<N> {
    pub id: RouteId,
    pub a: SettlementId,
    pub b: SettlementId,
    pub travel_months: u32,
    pub capacity_per_month: N,
    pub used_capacity_this_month: N,
    pub cost_per_unit: N,
    /// Per-month probability of a cargo loss event while in transit.
    pub monthly_incident_rate: N,
}

impl<N: Number> Route<N> {
    /// The route has `place` at one of its ends.
    pub open spec fn touches(self, place: SettlementId) -> bool {
        place == self.a || place == self.b
    }

    /// The monthly incident rate for a trader who is at `place`.
    pub open spec fn hazard_from(self, place: SettlementId) -> N {
        if self.touches(place) {
            self.monthly_incident_rate.product(hundredths(FAMILIARITY_PERCENT))
        } else {
            self.monthly_incident_rate
        }
    }

    /// The end of the route that is not `place`.
    pub open spec fn far_end(self, place: SettlementId) -> SettlementId {
        if place == self.a {
            self.b
        } else {
            self.a
        }
    }
}

pub fn effective_monthly_incident_rate<N: Number>(
    route: &Route<N>,
    trader_location: SettlementId,
) -> (r: N)
    ensures
        r == route.hazard_from(trader_location),
{
    let base = route.monthly_incident_rate;
    if trader_location == route.a || trader_location == route.b {
        base.mul(make_hundredths(FAMILIARITY_PERCENT))
    } else {
        base
    }
}

} // verus!
