//! The month's events, put into words.

use crate::event::Event;
use crate::goods::Good;
use crate::market::{percentage_change, relative_change};
use crate::number::{
    as_real, fits, hundredths, lemma_product, lemma_quotient, linear_within, make_hundredths,
    make_whole, rounds_down, whole, Number,
};
use crate::settlement::SettlementId;
use crate::trader::TraderId;
use crate::world::{World, WorldModel};
use vstd::prelude::*;

verus! {

/// The colors that reports use.
#[derive(Debug, Clone, Copy, PartialEq, Eq, Structural)]
pub enum Color {
    Green,
    Yellow,
    Cyan,
    Magenta,
    Blue,
    Red,
}

/// The color of a good.
pub open spec fn color_of(good: Good) -> Color {
    match good {
        Good::Food => Color::Green,
        Good::Ore => Color::Yellow,
        Good::Tools => Color::Cyan,
    }
}

pub fn good_color(good: Good) -> (r: Color)
    ensures
        r == color_of(good),
{
    match good {
        Good::Food => Color::Green,
        Good::Ore => Color::Yellow,
        Good::Tools => Color::Cyan,
    }
}

/// An event as one row of a table.
#[derive(Debug, Clone)]
pub struct EventRow {
    pub kind: &'static str,
    pub kind_color: Color,
    pub kind_bold: bool,
    pub place: String,
    pub good: Option<Good>,
    pub details: String,
    pub details_color: Option<Color>,
}

/// An event row, with its texts as sequences.
#[verifier::ext_equal]
pub struct RowModel {
    pub kind: Seq<char>,
    pub kind_color: Color,
    pub kind_bold: bool,
    pub place: Seq<char>,
    pub good: Option<Good>,
    pub details: Seq<char>,
    pub details_color: Option<Color>,
}

impl View for EventRow {
    type V = RowModel;

    open spec fn view(&self) -> RowModel {
        RowModel {
            kind: self.kind@,
            kind_color: self.kind_color,
            kind_bold: self.kind_bold,
            place: self.place@,
            good: self.good,
            details: self.details@,
            details_color: self.details_color,
        }
    }
}

/// The change from one price to another, in hundredths of the first.
pub open spec fn change_percent<N: Number>(old_price: N, new_price: N) -> N {
    relative_change(old_price, new_price).product(whole(100))
}

/// A change of price: both prices, the direction and the change.
pub open spec fn price_change_text<N: Number>(old_price: N, new_price: N) -> Seq<char> {
    let arrow = if old_price.at_most(new_price) {
        "↑"@
    } else {
        "↓"@
    };
    let sign = if whole::<N>(0).at_most(change_percent(old_price, new_price)) {
        "+"@
    } else {
        ""@
    };
    old_price.text(2)@ + " → "@ + new_price.text(2)@ + " ("@ + arrow + " "@ + sign
        + change_percent(old_price, new_price).text(1)@ + "%)"@
}

/// Green for a rise, red for a fall.
pub open spec fn price_change_color<N: Number>(old_price: N, new_price: N) -> Color {
    if whole::<N>(0).at_most(change_percent(old_price, new_price)) {
        Color::Green
    } else {
        Color::Red
    }
}

pub fn format_price_change<N: Number>(old_price: N, new_price: N) -> (r: (String, Color))
    ensures
        r.0@ == price_change_text(old_price, new_price),
        r.1 == price_change_color(old_price, new_price),
{
    let percent = percentage_change(old_price, new_price).mul(make_whole(100));
    let arrow = if old_price.le(new_price) {
        "↑"
    } else {
        "↓"
    };
    let rises = make_whole::<N>(0).le(percent);
    let sign = if rises {
        "+"
    } else {
        ""
    };
    let color = if rises {
        Color::Green
    } else {
        Color::Red
    };
    let text = old_price.to_fixed(2).concat(" → ").concat(new_price.to_fixed(2).as_str()).concat(
        " (",
    ).concat(arrow).concat(" ").concat(sign).concat(percent.to_fixed(1).as_str()).concat("%)");
    (text, color)
}

/// What arrived, out of what set out where that differs, and the profit on it.
pub open spec fn arrival_text<N: Number>(quantity: N, initial_quantity: N, profit: N) -> Seq<
    char,
> {
    let gain = if whole::<N>(0).at_most(profit) {
        "+"@ + profit.text(1)@
    } else {
        profit.text(1)@
    };
    if hundredths::<N>(1).less(initial_quantity.difference(quantity).magnitude()) {
        quantity.text(0)@ + "/"@ + initial_quantity.text(0)@ + " ("@ + gain + ")"@
    } else {
        quantity.text(0)@ + " ("@ + gain + ")"@
    }
}

fn format_arrival<N: Number>(quantity: N, initial_quantity: N, profit: N) -> (r: String)
    ensures
        r@ == arrival_text(quantity, initial_quantity, profit),
{
    let gain = if make_whole::<N>(0).le(profit) {
        "+".to_owned().concat(profit.to_fixed(1).as_str())
    } else {
        profit.to_fixed(1)
    };
    if make_hundredths::<N>(1).lt(initial_quantity.sub(quantity).abs()) {
        quantity.to_fixed(0).concat("/").concat(initial_quantity.to_fixed(0).as_str()).concat(
            " (",
        ).concat(gain.as_str()).concat(")")
    } else {
        quantity.to_fixed(0).concat(" (").concat(gain.as_str()).concat(")")
    }
}

impl<N: Number> WorldModel<N> {
    pub open spec fn settlement_name(self, place: SettlementId) -> Seq<char> {
        self.settlements[place as int].name@
    }

    pub open spec fn trader_name(self, trader: TraderId) -> Seq<char> {
        self.traders[trader as int].name@
    }

    /// A trader, and a settlement that they pay.
    pub open spec fn payment_text(self, trader: TraderId, place: SettlementId) -> Seq<char> {
        self.trader_name(trader) + " → "@ + self.settlement_name(place)
    }

    /// A trader, and the settlements between which they trade.
    pub open spec fn journey_text(
        self,
        trader: TraderId,
        seller: SettlementId,
        buyer: SettlementId,
    ) -> Seq<char> {
        self.trader_name(trader) + ": "@ + self.settlement_name(seller) + " → "@
            + self.settlement_name(buyer)
    }

    /// The settlements and traders that the event names exist.
    pub open spec fn event_wf(self, event: Event<N>) -> bool {
        let places = self.settlements.len();
        let traders = self.traders.len();
        match event {
            Event::Produced { settlement, .. } => settlement < places,
            Event::Consumed { settlement, .. } => settlement < places,
            Event::Shortage { settlement, .. } => settlement < places,
            Event::PriceChanged { settlement, .. } => settlement < places,
            Event::UpkeepPaid { trader, home_base, .. } => trader < traders && home_base < places,
            Event::LocalSpending { trader, settlement, .. } => trader < traders && settlement
                < places,
            Event::DebtInterest { debtor, .. } => debtor < places,
            Event::Austerity { settlement, .. } => settlement < places,
            Event::ShipmentCreated { trader, seller, buyer, .. } => trader < traders && seller
                < places && buyer < places,
            Event::CargoLost { trader, .. } => trader < traders,
            Event::ShipmentArrived { trader, seller, buyer, .. } => trader < traders && seller
                < places && buyer < places,
        }
    }

    /// The row for an event.
    pub open spec fn event_row(self, event: Event<N>) -> RowModel {
        match event {
            Event::Produced { settlement, good, amount } => RowModel {
                kind: "Produced"@,
                kind_color: Color::Green,
                kind_bold: false,
                place: self.settlement_name(settlement),
                good: Some(good),
                details: "+"@ + amount.text(1)@,
                details_color: Some(Color::Green),
            },
            Event::Consumed { settlement, good, amount } => RowModel {
                kind: "Consumed"@,
                kind_color: Color::Blue,
                kind_bold: false,
                place: self.settlement_name(settlement),
                good: Some(good),
                details: "-"@ + amount.text(1)@,
                details_color: None,
            },
            Event::Shortage { settlement, good, unmet } => RowModel {
                kind: "Shortage"@,
                kind_color: Color::Red,
                kind_bold: true,
                place: self.settlement_name(settlement),
                good: Some(good),
                details: "unmet "@ + unmet.text(1)@,
                details_color: Some(Color::Red),
            },
            Event::PriceChanged { settlement, good, old_price, new_price } => RowModel {
                kind: "Price"@,
                kind_color: Color::Magenta,
                kind_bold: false,
                place: self.settlement_name(settlement),
                good: Some(good),
                details: price_change_text(old_price, new_price),
                details_color: Some(price_change_color(old_price, new_price)),
            },
            Event::UpkeepPaid { trader, home_base, amount } => RowModel {
                kind: "Upkeep"@,
                kind_color: Color::Yellow,
                kind_bold: false,
                place: self.payment_text(trader, home_base),
                good: None,
                details: "-"@ + amount.text(1)@,
                details_color: Some(Color::Yellow),
            },
            Event::LocalSpending { trader, settlement, amount } => RowModel {
                kind: "LocalSpend"@,
                kind_color: Color::Yellow,
                kind_bold: false,
                place: self.payment_text(trader, settlement),
                good: None,
                details: "-"@ + amount.text(1)@,
                details_color: Some(Color::Yellow),
            },
            Event::DebtInterest { debtor, amount } => RowModel {
                kind: "Interest"@,
                kind_color: Color::Red,
                kind_bold: false,
                place: self.settlement_name(debtor),
                good: None,
                details: "-"@ + amount.text(1)@,
                details_color: Some(Color::Red),
            },
            Event::Austerity { settlement, multiplier } => RowModel {
                kind: "Austerity"@,
                kind_color: Color::Red,
                kind_bold: false,
                place: self.settlement_name(settlement),
                good: None,
                details: multiplier.text(0)@ + "% demand"@,
                details_color: Some(Color::Red),
            },
            Event::ShipmentCreated { trader, good, quantity, seller, buyer } => RowModel {
                kind: "Shipment"@,
                kind_color: Color::Cyan,
                kind_bold: false,
                place: self.journey_text(trader, seller, buyer),
                good: Some(good),
                details: quantity.text(0)@ + " units"@,
                details_color: None,
            },
            Event::CargoLost { trader, good, lost, remaining, .. } => RowModel {
                kind: "CargoLost"@,
                kind_color: Color::Red,
                kind_bold: true,
                place: self.trader_name(trader),
                good: Some(good),
                details: "-"@ + lost.text(1)@ + ", "@ + remaining.text(1)@ + " left"@,
                details_color: Some(Color::Red),
            },
            Event::ShipmentArrived {
                trader,
                good,
                quantity,
                initial_quantity,
                seller,
                buyer,
                profit,
            } => RowModel {
                kind: "Arrived"@,
                kind_color: Color::Green,
                kind_bold: true,
                place: self.journey_text(trader, seller, buyer),
                good: Some(good),
                details: arrival_text(quantity, initial_quantity, profit),
                details_color: Some(
                    if whole::<N>(0).at_most(profit) {
                        Color::Green
                    } else {
                        Color::Red
                    },
                ),
            },
        }
    }
}

impl<N: Number> World<N> {
    fn payment(&self, trader: TraderId, place: SettlementId) -> (r: String)
        requires
            trader < self@.traders.len(),
            place < self@.settlements.len(),
        ensures
            r@ == self@.payment_text(trader, place),
    {
        self.traders[trader].name.clone().concat(" → ").concat(
            self.settlements[place].name.as_str(),
        )
    }

    fn journey(&self, trader: TraderId, seller: SettlementId, buyer: SettlementId) -> (r: String)
        requires
            trader < self@.traders.len(),
            seller < self@.settlements.len(),
            buyer < self@.settlements.len(),
        ensures
            r@ == self@.journey_text(trader, seller, buyer),
    {
        self.traders[trader].name.clone().concat(": ").concat(
            self.settlements[seller].name.as_str(),
        ).concat(" → ").concat(self.settlements[buyer].name.as_str())
    }
}

pub fn format_event<N: Number>(event: &Event<N>, world: &World<N>) -> (r: EventRow)
    requires
        world@.event_wf(*event),
    ensures
        r@ == world@.event_row(*event),
{
    match *event {
        Event::Produced { settlement, good, amount } => EventRow {
            kind: "Produced",
            kind_color: Color::Green,
            kind_bold: false,
            place: world.settlements[settlement].name.clone(),
            good: Some(good),
            details: "+".to_owned().concat(amount.to_fixed(1).as_str()),
            details_color: Some(Color::Green),
        },
        Event::Consumed { settlement, good, amount } => EventRow {
            kind: "Consumed",
            kind_color: Color::Blue,
            kind_bold: false,
            place: world.settlements[settlement].name.clone(),
            good: Some(good),
            details: "-".to_owned().concat(amount.to_fixed(1).as_str()),
            details_color: None,
        },
        Event::Shortage { settlement, good, unmet } => EventRow {
            kind: "Shortage",
            kind_color: Color::Red,
            kind_bold: true,
            place: world.settlements[settlement].name.clone(),
            good: Some(good),
            details: "unmet ".to_owned().concat(unmet.to_fixed(1).as_str()),
            details_color: Some(Color::Red),
        },
        Event::PriceChanged { settlement, good, old_price, new_price } => {
            let (details, details_color) = format_price_change(old_price, new_price);
            EventRow {
                kind: "Price",
                kind_color: Color::Magenta,
                kind_bold: false,
                place: world.settlements[settlement].name.clone(),
                good: Some(good),
                details,
                details_color: Some(details_color),
            }
        },
        Event::UpkeepPaid { trader, home_base, amount } => EventRow {
            kind: "Upkeep",
            kind_color: Color::Yellow,
            kind_bold: false,
            place: world.payment(trader, home_base),
            good: None,
            details: "-".to_owned().concat(amount.to_fixed(1).as_str()),
            details_color: Some(Color::Yellow),
        },
        Event::LocalSpending { trader, settlement, amount } => EventRow {
            kind: "LocalSpend",
            kind_color: Color::Yellow,
            kind_bold: false,
            place: world.payment(trader, settlement),
            good: None,
            details: "-".to_owned().concat(amount.to_fixed(1).as_str()),
            details_color: Some(Color::Yellow),
        },
        Event::DebtInterest { debtor, amount } => EventRow {
            kind: "Interest",
            kind_color: Color::Red,
            kind_bold: false,
            place: world.settlements[debtor].name.clone(),
            good: None,
            details: "-".to_owned().concat(amount.to_fixed(1).as_str()),
            details_color: Some(Color::Red),
        },
        Event::Austerity { settlement, multiplier } => EventRow {
            kind: "Austerity",
            kind_color: Color::Red,
            kind_bold: false,
            place: world.settlements[settlement].name.clone(),
            good: None,
            details: multiplier.to_fixed(0).concat("% demand"),
            details_color: Some(Color::Red),
        },
        Event::ShipmentCreated { trader, good, quantity, seller, buyer } => EventRow {
            kind: "Shipment",
            kind_color: Color::Cyan,
            kind_bold: false,
            place: world.journey(trader, seller, buyer),
            good: Some(good),
            details: quantity.to_fixed(0).concat(" units"),
            details_color: None,
        },
        Event::CargoLost { trader, good, lost, remaining, route: _ } => EventRow {
            kind: "CargoLost",
            kind_color: Color::Red,
            kind_bold: true,
            place: world.traders[trader].name.clone(),
            good: Some(good),
            details: "-".to_owned().concat(lost.to_fixed(1).as_str()).concat(", ").concat(
                remaining.to_fixed(1).as_str(),
            ).concat(" left"),
            details_color: Some(Color::Red),
        },
        Event::ShipmentArrived {
            trader,
            good,
            quantity,
            initial_quantity,
            seller,
            buyer,
            profit,
        } => EventRow {
            kind: "Arrived",
            kind_color: Color::Green,
            kind_bold: true,
            place: world.journey(trader, seller, buyer),
            good: Some(good),
            details: format_arrival(quantity, initial_quantity, profit),
            details_color: Some(
                if make_whole::<N>(0).le(profit) {
                    Color::Green
                } else {
                    Color::Red
                },
            ),
        },
    }
}

/// Law: a change of price is told by both prices, an arrow that points up unless the price
/// fell, and the change in hundredths of the old price, with a plus sign and in green
/// unless it is below zero; a price of next to nothing does not change.
pub proof fn law_price_change_in_numbers<N: Number>(
    val: spec_fn(N) -> real,
    limit: real,
    unit: real,
    old_price: N,
    new_price: N,
)
    requires
        linear_within(val, limit),
        rounds_down(val, limit, unit),
        limit >= 100real,
        unit <= 1real / 100real,
        fits(limit, val(old_price)),
        fits(limit, val(new_price) - val(old_price)),
        val(N::fraction(1, 10000)) > 0real,
        val(old_price) != 0real ==> fits(
            limit - 1real,
            (val(new_price) - val(old_price)) / val(old_price) * 100real,
        ),
    ensures
        exists|percent: N|
            {
                let (p, q) = (val(old_price), val(new_price));
                let size = if p < 0real {
                    -p
                } else {
                    p
                };
                &&& size < val(N::fraction(1, 10000)) ==> val(percent) == 0real
                &&& size >= val(N::fraction(1, 10000)) ==> (q - p) / p * 100real - 101real * unit
                    <= val(percent) <= (q - p) / p * 100real
                &&& price_change_text(old_price, new_price) == old_price.text(2)@ + " → "@
                    + new_price.text(2)@ + " ("@ + (if p <= q {
                    "↑"@
                } else {
                    "↓"@
                }) + " "@ + (if val(percent) >= 0real {
                    "+"@
                } else {
                    ""@
                }) + #[trigger] percent.text(1)@ + "%)"@
                &&& price_change_color(old_price, new_price) == if val(percent) >= 0real {
                    Color::Green
                } else {
                    Color::Red
                }
            },
{
    let (p, q) = (val(old_price), val(new_price));
    let percent = change_percent(old_price, new_price);
    let hundred = whole::<N>(100);
    assert(val(whole::<N>(0)) == 0real && val(hundred) == 100real);
    assert(0real <= unit) by {
        reveal(rounds_down);
    }
    let change = relative_change(old_price, new_price);
    if old_price.magnitude().less(N::fraction(1, 10000)) {
        assert(val(change) * val(hundred) == 0real) by (nonlinear_arith)
            requires
                val(change) == 0real,
        ;
        assert(as_real(0) == 0real);
        lemma_product(val, limit, unit, change, hundred);
    } else {
        let part = (q - p) / p;
        assert(fits(limit - 1real, part * 100real));
        assert(fits(limit, part));
        lemma_quotient(val, limit, unit, new_price.difference(old_price), old_price);
        let c = val(change);
        assert(c * val(hundred) == c * 100real);
        lemma_product(val, limit, unit, change, hundred);
        assert(part * 100real - 101real * unit <= val(percent) <= part * 100real);
    }
    let text = percent.text(1);
    assert(price_change_text(old_price, new_price) == old_price.text(2)@ + " → "@ + new_price.text(
        2,
    )@ + " ("@ + (if p <= q {
        "↑"@
    } else {
        "↓"@
    }) + " "@ + (if val(percent) >= 0real {
        "+"@
    } else {
        ""@
    }) + percent.text(1)@ + "%)"@);
}

/// Law: an arrival is told by what arrived, by what set out behind a slash if and only if
/// more than a hundredth of a unit was lost or won, and by the profit, with a plus sign
/// unless it is below zero.
pub proof fn law_arrival_text_in_numbers<N: Number>(
    val: spec_fn(N) -> real,
    limit: real,
    quantity: N,
    initial_quantity: N,
    profit: N,
)
    requires
        linear_within(val, limit),
        limit >= 1real,
        fits(limit, val(initial_quantity) - val(quantity)),
    ensures
        ({
            let lost = val(initial_quantity) - val(quantity);
            let loaded = if lost > 1real / 100real || lost < -1real / 100real {
                "/"@ + initial_quantity.text(0)@
            } else {
                ""@
            };
            let sign = if val(profit) >= 0real {
                "+"@
            } else {
                ""@
            };
            arrival_text(quantity, initial_quantity, profit) =~= quantity.text(0)@ + loaded + " ("@
                + sign + profit.text(1)@ + ")"@
        }),
{
    assert(val(whole::<N>(0)) == 0real);
    assert(val(hundredths::<N>(1)) * 100real == 1real);
    reveal_strlit("");
}

/// Law: every event has a row that says what happened, to whom or where, with which good,
/// and how much of it.
pub proof fn law_rows_tell_what_happened<N: Number>(
    val: spec_fn(N) -> real,
    limit: real,
    model: WorldModel<N>,
    event: Event<N>,
)
    requires
        linear_within(val, limit),
        limit >= 0real,
    ensures
        ({
            let row = model.event_row(event);
            match event {
                Event::Produced { settlement, good, amount } => {
                    &&& row.kind == "Produced"@ && row.kind_color == Color::Green && !row.kind_bold
                    &&& row.place == model.settlements[settlement as int].name@
                    &&& row.good == Some(good) && row.details == "+"@ + amount.text(1)@
                    &&& row.details_color == Some(Color::Green)
                },
                Event::Consumed { settlement, good, amount } => {
                    &&& row.kind == "Consumed"@ && row.kind_color == Color::Blue && !row.kind_bold
                    &&& row.place == model.settlements[settlement as int].name@
                    &&& row.good == Some(good) && row.details == "-"@ + amount.text(1)@
                    &&& row.details_color is None
                },
                Event::Shortage { settlement, good, unmet } => {
                    &&& row.kind == "Shortage"@ && row.kind_color == Color::Red && row.kind_bold
                    &&& row.place == model.settlements[settlement as int].name@
                    &&& row.good == Some(good) && row.details == "unmet "@ + unmet.text(1)@
                    &&& row.details_color == Some(Color::Red)
                },
                Event::PriceChanged { settlement, good, old_price, new_price } => {
                    &&& row.kind == "Price"@ && row.kind_color == Color::Magenta && !row.kind_bold
                    &&& row.place == model.settlements[settlement as int].name@
                    &&& row.good == Some(good)
                    &&& row.details == price_change_text(old_price, new_price)
                    &&& row.details_color == Some(price_change_color(old_price, new_price))
                },
                Event::UpkeepPaid { trader, home_base, amount } => {
                    &&& row.kind == "Upkeep"@ && row.kind_color == Color::Yellow && !row.kind_bold
                    &&& row.place == model.traders[trader as int].name@ + " → "@
                        + model.settlements[home_base as int].name@
                    &&& row.good is None && row.details == "-"@ + amount.text(1)@
                    &&& row.details_color == Some(Color::Yellow)
                },
                Event::LocalSpending { trader, settlement, amount } => {
                    &&& row.kind == "LocalSpend"@ && row.kind_color == Color::Yellow
                        && !row.kind_bold
                    &&& row.place == model.traders[trader as int].name@ + " → "@
                        + model.settlements[settlement as int].name@
                    &&& row.good is None && row.details == "-"@ + amount.text(1)@
                    &&& row.details_color == Some(Color::Yellow)
                },
                Event::DebtInterest { debtor, amount } => {
                    &&& row.kind == "Interest"@ && row.kind_color == Color::Red && !row.kind_bold
                    &&& row.place == model.settlements[debtor as int].name@
                    &&& row.good is None && row.details == "-"@ + amount.text(1)@
                    &&& row.details_color == Some(Color::Red)
                },
                Event::Austerity { settlement, multiplier } => {
                    &&& row.kind == "Austerity"@ && row.kind_color == Color::Red && !row.kind_bold
                    &&& row.place == model.settlements[settlement as int].name@
                    &&& row.good is None && row.details == multiplier.text(0)@ + "% demand"@
                    &&& row.details_color == Some(Color::Red)
                },
                Event::ShipmentCreated { trader, good, quantity, seller, buyer } => {
                    &&& row.kind == "Shipment"@ && row.kind_color == Color::Cyan && !row.kind_bold
                    &&& row.place == model.traders[trader as int].name@ + ": "@
                        + model.settlements[seller as int].name@ + " → "@
                        + model.settlements[buyer as int].name@
                    &&& row.good == Some(good) && row.details == quantity.text(0)@ + " units"@
                    &&& row.details_color is None
                },
                Event::CargoLost { trader, good, lost, remaining, .. } => {
                    &&& row.kind == "CargoLost"@ && row.kind_color == Color::Red && row.kind_bold
                    &&& row.place == model.traders[trader as int].name@
                    &&& row.good == Some(good)
                    &&& row.details == "-"@ + lost.text(1)@ + ", "@ + remaining.text(1)@ + " left"@
                    &&& row.details_color == Some(Color::Red)
                },
                Event::ShipmentArrived {
                    trader,
                    good,
                    quantity,
                    initial_quantity,
                    seller,
                    buyer,
                    profit,
                } => {
                    &&& row.kind == "Arrived"@ && row.kind_color == Color::Green && row.kind_bold
                    &&& row.place == model.traders[trader as int].name@ + ": "@
                        + model.settlements[seller as int].name@ + " → "@
                        + model.settlements[buyer as int].name@
                    &&& row.good == Some(good)
                    &&& row.details == arrival_text(quantity, initial_quantity, profit)
                    &&& row.details_color == Some(
                        if val(profit) >= 0real {
                            Color::Green
                        } else {
                            Color::Red
                        },
                    )
                },
            }
        }),
{
    assert(val(whole::<N>(0)) == 0real);
}

} // verus!
