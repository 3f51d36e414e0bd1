//! The command line, reports and tables.

use comfy_table::presets::{ASCII_FULL, UTF8_FULL_CONDENSED};
use comfy_table::{Attribute, Cell, CellAlignment, Color as Paint, ContentArrangement, Table};
use mundios::args::{parse_args, usage, wants_summary, ArgsError, Request};
use mundios::demo::create_demo_world;
use mundios::event::Event;
use mundios::fixed::Fixed;
use mundios::goods::Good;
use mundios::number::{make_whole, Number};
use mundios::report::{format_event, format_price_change, good_color, Color};
use mundios::shipment::CargoRoll;
use mundios::summary::{format_month_title, long_run_summary, RunRecord};
use mundios::tables::{
    event_details_cell, event_kind_cell, events_report, events_table, good_cell, header_cell,
    num_cell, place_cell, settlements_table, styled_table, traders_table, EventsReport,
};
use mundios::text::{decimal_text, digit_text, parse_u32};
use mundios::world::World;

fn tenths(n: i64) -> Fixed {
    Fixed::ratio(n, 10)
}

fn whole(n: i64) -> Fixed {
    make_whole(n)
}

fn demo() -> World<Fixed> {
    create_demo_world()
}

fn args(list: &[&str]) -> Vec<String> {
    list.iter().map(|arg| arg.to_string()).collect()
}

fn header_of(table: &Table) -> Vec<Cell> {
    table.header().unwrap().cell_iter().cloned().collect()
}

fn row_of(table: &Table, index: usize) -> Vec<Cell> {
    table.row(index).unwrap().cell_iter().cloned().collect()
}

fn heading(label: &str) -> Cell {
    Cell::new(label).fg(Paint::Cyan).add_attribute(Attribute::Bold)
}

fn left(text: &str) -> Cell {
    Cell::new(text).set_alignment(CellAlignment::Left)
}

fn right(text: &str) -> Cell {
    Cell::new(text).set_alignment(CellAlignment::Right)
}

#[test]
fn naturals_in_decimal() {
    assert_eq!(digit_text(7), "7");
    assert_eq!(decimal_text(0), "0");
    assert_eq!(decimal_text(10), "10");
    assert_eq!(decimal_text(6500), "6500");
    assert_eq!(decimal_text(u64::MAX), "18446744073709551615");
}

#[test]
fn texts_of_naturals_read_back() {
    for n in [0u32, 7, 10, 12, 999, 65_536, u32::MAX] {
        assert_eq!(parse_u32(decimal_text(n as u64).as_str()), Some(n));
        assert_eq!(parse_u32(decimal_text(n as u64).as_str()), n.to_string().parse().ok());
    }
}

#[test]
fn only_naturals_that_fit_are_read() {
    for text in [
        "", "+", "-", "-1", "-0", "+5", "++5", "5+", " 5", "5 ", "1_000", "0x10", "007",
        "4294967295", "4294967296", "42949672950", "0000000000000000005", "12a", "３",
    ] {
        assert_eq!(parse_u32(text), text.parse::<u32>().ok(), "{}", text);
    }
}

#[test]
fn the_command_line_has_defaults() {
    assert_eq!(parse_args(&args(&[])), Ok(Request::Run { months: 12, quiet: false }));
    assert_eq!(
        parse_args(&args(&["--months", "36", "--quiet"])),
        Ok(Request::Run { months: 36, quiet: true })
    );
    assert_eq!(
        parse_args(&args(&["-q", "what", "-m", "3", "-m", "4"])),
        Ok(Request::Run { months: 4, quiet: true })
    );
    assert_eq!(parse_args(&args(&["-h"])), Ok(Request::Help));
    assert_eq!(parse_args(&args(&["--help", "-m"])), Ok(Request::Help));
    assert_eq!(usage(), "Usage: mundios [--months N] [--quiet]");
}

#[test]
fn the_command_line_can_be_wrong() {
    assert_eq!(parse_args(&args(&["-q", "--months"])), Err(ArgsError::MissingMonths));
    assert_eq!(ArgsError::MissingMonths.message(), "missing value for --months");
    assert_eq!(ArgsError::InvalidMonths.message(), "months must be a u32");
    assert_eq!(parse_args(&args(&["-m", "many", "--help"])), Err(ArgsError::InvalidMonths));
    assert_eq!(parse_args(&args(&["-m", "--quiet"])), Err(ArgsError::InvalidMonths));
}

#[test]
fn long_and_quiet_runs_are_summed_up() {
    assert!(wants_summary(1, true));
    assert!(wants_summary(25, false));
    assert!(!wants_summary(24, false));
}

#[test]
fn goods_have_colors() {
    assert_eq!(good_color(Good::Food), Color::Green);
    assert_eq!(good_color(Good::Ore), Color::Yellow);
    assert_eq!(good_color(Good::Tools), Color::Cyan);
}

#[test]
fn price_changes_in_words() {
    let rise = format_price_change(whole(10), tenths(125));
    assert_eq!(rise, ("10.00 → 12.50 (↑ +25.0%)".to_string(), Color::Green));
    let fall = format_price_change(whole(10), whole(8));
    assert_eq!(fall, ("10.00 → 8.00 (↓ -20.0%)".to_string(), Color::Red));
}

/// The row of an event: kind, color, bold, place, good, details, color.
fn row(
    event: Event<Fixed>,
) -> (&'static str, Color, bool, String, Option<Good>, String, Option<Color>) {
    let row = format_event(&event, &demo());
    (
        row.kind,
        row.kind_color,
        row.kind_bold,
        row.place,
        row.good,
        row.details,
        row.details_color,
    )
}

#[test]
fn supply_in_words() {
    let (settlement, good) = (1usize, Good::Ore);
    let place = "Ironmoon".to_string();
    assert_eq!(
        row(Event::Produced { settlement, good, amount: tenths(15) }),
        (
            "Produced",
            Color::Green,
            false,
            place.clone(),
            Some(good),
            "+1.5".to_string(),
            Some(Color::Green),
        )
    );
    assert_eq!(
        row(Event::Consumed { settlement, good, amount: tenths(15) }),
        ("Consumed", Color::Blue, false, place.clone(), Some(good), "-1.5".to_string(), None)
    );
    assert_eq!(
        row(Event::Shortage { settlement, good, unmet: tenths(15) }),
        (
            "Shortage",
            Color::Red,
            true,
            place.clone(),
            Some(good),
            "unmet 1.5".to_string(),
            Some(Color::Red),
        )
    );
    assert_eq!(
        row(Event::Austerity { settlement, multiplier: whole(1) }),
        (
            "Austerity",
            Color::Red,
            false,
            place.clone(),
            None,
            "1% demand".to_string(),
            Some(Color::Red),
        )
    );
    assert_eq!(
        row(Event::PriceChanged { settlement, good, old_price: whole(8), new_price: whole(6) }),
        (
            "Price",
            Color::Magenta,
            false,
            place,
            Some(good),
            "8.00 → 6.00 (↓ -25.0%)".to_string(),
            Some(Color::Red),
        )
    );
}

#[test]
fn payments_in_words() {
    assert_eq!(
        row(Event::UpkeepPaid { trader: 1, home_base: 2, amount: whole(40) }),
        (
            "Upkeep",
            Color::Yellow,
            false,
            "Ironmoon Haulers → Forge Prime".to_string(),
            None,
            "-40.0".to_string(),
            Some(Color::Yellow),
        )
    );
    assert_eq!(
        row(Event::LocalSpending { trader: 0, settlement: 0, amount: whole(84) }),
        (
            "LocalSpend",
            Color::Yellow,
            false,
            "Free Merchants → Greenworld".to_string(),
            None,
            "-84.0".to_string(),
            Some(Color::Yellow),
        )
    );
    assert_eq!(
        row(Event::DebtInterest { debtor: 2, amount: whole(2) }),
        (
            "Interest",
            Color::Red,
            false,
            "Forge Prime".to_string(),
            None,
            "-2.0".to_string(),
            Some(Color::Red),
        )
    );
}

#[test]
fn shipments_in_words() {
    let (trader, good, seller, buyer) = (0usize, Good::Food, 0usize, 2usize);
    let way = "Free Merchants: Greenworld → Forge Prime".to_string();
    assert_eq!(
        row(Event::ShipmentCreated { trader, good, quantity: whole(80), seller, buyer }),
        ("Shipment", Color::Cyan, false, way.clone(), Some(good), "80 units".to_string(), None)
    );
    assert_eq!(
        row(Event::CargoLost { trader, good, lost: whole(20), remaining: whole(60), route: 2 }),
        (
            "CargoLost",
            Color::Red,
            true,
            "Free Merchants".to_string(),
            Some(good),
            "-20.0, 60.0 left".to_string(),
            Some(Color::Red),
        )
    );
    let arrived = |quantity: i64, profit: i64| Event::ShipmentArrived {
        trader,
        good,
        quantity: whole(quantity),
        initial_quantity: whole(80),
        seller,
        buyer,
        profit: tenths(profit),
    };
    assert_eq!(
        row(arrived(80, 2403)),
        (
            "Arrived",
            Color::Green,
            true,
            way.clone(),
            Some(good),
            "80 (+240.3)".to_string(),
            Some(Color::Green),
        )
    );
    assert_eq!(
        row(arrived(60, -15)),
        (
            "Arrived",
            Color::Green,
            true,
            way,
            Some(good),
            "60/80 (-1.5)".to_string(),
            Some(Color::Red),
        )
    );
}

#[test]
fn cells_are_styled() {
    assert_eq!(header_cell("Money"), heading("Money"));
    assert_eq!(place_cell("Ironmoon"), left("Ironmoon").add_attribute(Attribute::Bold));
    assert_eq!(good_cell(Good::Food), left("Food").fg(Paint::Green));
    assert_eq!(good_cell(Good::Ore), left("Ore").fg(Paint::Yellow));
    assert_eq!(good_cell(Good::Tools), left("Tools").fg(Paint::Cyan));
    assert_eq!(num_cell("1.5"), right("1.5"));
    assert_eq!(num_cell("1.5").content(), "1.5");
}

#[test]
fn event_cells_are_styled() {
    let world = demo();
    let shortage = Event::Shortage { settlement: 0, good: Good::Ore, unmet: whole(1) };
    let bad = format_event(&shortage, &world);
    assert_eq!(
        event_kind_cell(&bad),
        left("Shortage").fg(Paint::Red).add_attribute(Attribute::Bold)
    );
    assert_eq!(event_details_cell(&bad), left("unmet 1.0").fg(Paint::Red));
    let consumed = Event::Consumed { settlement: 0, good: Good::Ore, amount: whole(1) };
    let plain = format_event(&consumed, &world);
    assert_eq!(event_kind_cell(&plain), left("Consumed").fg(Paint::Blue));
    assert_eq!(event_details_cell(&plain), left("-1.0"));
    let price = Event::PriceChanged {
        settlement: 0,
        good: Good::Ore,
        old_price: whole(4),
        new_price: whole(5),
    };
    assert_eq!(event_kind_cell(&format_event(&price, &world)), left("Price").fg(Paint::Magenta));
}

#[test]
fn tables_are_styled() {
    let mut fresh = Table::new();
    assert_eq!(fresh.current_style_as_preset(), ASCII_FULL);
    assert_eq!(ASCII_FULL, "||--+==+|-+||++++++");
    assert!(matches!(fresh.content_arrangement(), ContentArrangement::Disabled));
    let mut table = styled_table();
    assert_eq!(table.current_style_as_preset(), UTF8_FULL_CONDENSED);
    assert_eq!(UTF8_FULL_CONDENSED, "││──╞═╪╡┆    ┬┴┌┐└┘");
    assert!(matches!(table.content_arrangement(), ContentArrangement::Dynamic));
    assert!(table.header().is_none());
    assert_eq!(table.row_iter().count(), 0);
}

#[test]
fn months_without_events_are_reported_in_a_line() {
    let world = demo();
    match events_report(&vec![], &world) {
        EventsReport::Dimmed(line) => assert_eq!(line, "  (no events this month)"),
        EventsReport::Listed(_) => panic!("there is nothing to list"),
    }
    let events = vec![Event::DebtInterest { debtor: 2, amount: whole(2) }];
    match events_report(&events, &world) {
        EventsReport::Dimmed(_) => panic!("there is an event to list"),
        EventsReport::Listed(table) => {
            assert_eq!(row_of(&table, 0), row_of(&events_table(&events, &world), 0));
            assert_eq!(table.row_iter().count(), 1);
        }
    }
}

#[test]
fn events_become_rows() {
    let world = demo();
    assert_eq!(events_table(&vec![], &world).row_iter().count(), 0);
    let events = vec![
        Event::Produced { settlement: 0, good: Good::Food, amount: whole(320) },
        Event::DebtInterest { debtor: 2, amount: whole(2) },
    ];
    let table = events_table(&events, &world);
    assert_eq!(
        header_of(&table),
        vec![heading("Type"), heading("Where / Who"), heading("Good"), heading("Details")]
    );
    assert_eq!(table.row_iter().count(), 2);
    assert_eq!(
        row_of(&table, 0),
        vec![
            left("Produced").fg(Paint::Green),
            left("Greenworld").add_attribute(Attribute::Bold),
            left("Food").fg(Paint::Green),
            left("+320.0").fg(Paint::Green),
        ]
    );
    assert_eq!(
        row_of(&table, 1),
        vec![
            left("Interest").fg(Paint::Red),
            left("Forge Prime").add_attribute(Attribute::Bold),
            left("—"),
            left("-2.0").fg(Paint::Red),
        ]
    );
}

#[test]
fn settlements_become_rows() {
    let mut world = demo();
    world.settlements[1].stockpiles.tools = None;
    world.settlements[1].prices.ore = None;
    let table = settlements_table(&world.settlements);
    assert_eq!(
        header_of(&table),
        vec![
            heading("Settlement"),
            heading("Money"),
            heading("Food").fg(Paint::Green),
            heading("Ore").fg(Paint::Yellow),
            heading("Tools").fg(Paint::Cyan),
            heading("Food $").fg(Paint::Green),
            heading("Ore $").fg(Paint::Yellow),
            heading("Tools $").fg(Paint::Cyan),
        ]
    );
    assert_eq!(table.row_iter().count(), 3);
    assert_eq!(
        row_of(&table, 1),
        vec![
            left("Ironmoon").add_attribute(Attribute::Bold),
            right("1500.0").fg(Paint::Green),
            right("120.0"),
            right("200.0"),
            right("0.0"),
            right("10.00"),
            right("0.00"),
            right("20.00"),
        ]
    );
}

#[test]
fn traders_become_rows() {
    let mut world = demo();
    world.traders[0].location = 2;
    let table = traders_table(&world.traders, &world.settlements);
    assert_eq!(
        header_of(&table),
        vec![
            heading("Trader"),
            heading("Location"),
            heading("Home"),
            heading("Money"),
            heading("Capacity"),
            heading("Risk tol"),
        ]
    );
    assert_eq!(
        row_of(&table, 0),
        vec![
            left("Free Merchants").add_attribute(Attribute::Bold),
            left("Forge Prime"),
            left("Greenworld"),
            right("1000.0").fg(Paint::Green),
            right("80/mo"),
            right("0.55"),
        ]
    );
    assert_eq!(row_of(&table, 1)[1], left("Ironmoon"));
}

#[test]
fn tables_can_be_drawn() {
    let world = demo();
    let mut table = traders_table(&world.traders, &world.settlements);
    table.force_no_tty();
    let drawn = table.to_string();
    assert!(drawn.starts_with("┌"));
    assert!(drawn.contains("Ironmoon Haulers"));
    assert!(drawn.contains("┆"));
}

#[test]
fn long_runs_are_summed_up() {
    let mut world = demo();
    world.settlements[0].money = whole(1600);
    let money = vec![
        [whole(1500), whole(1500), whole(-20)],
        [whole(1700), whole(1400), whole(30)],
        [whole(1600), whole(1450), whole(10)],
    ];
    let summary = long_run_summary(4, &vec![3, 0, 2, 0], &money, &world);
    assert_eq!(summary.title, "Long-run summary (4 months)");
    assert_eq!(
        summary.lines,
        vec![
            "Avg shipments/month: 1.2",
            "Months without trade: 2/4",
            "",
            "  Greenworld: min $1500, max $1700, final $1600",
            "  Ironmoon: min $1400, max $1500, final $1500",
            "  Forge Prime: min $-20, max $30, final $1500",
            "  Traders total: $2000",
            "  Total money: $6600 (conserved: $6500)",
        ]
    );
}

#[test]
fn empty_runs_are_summed_up() {
    let summary = long_run_summary(0, &vec![], &vec![], &demo());
    assert_eq!(summary.lines[1], "Months without trade: 0/0");
    assert_eq!(summary.lines[3], "  Greenworld: min $0, max $0, final $1500");
}

#[test]
fn months_have_titles() {
    assert_eq!(format_month_title(12), "═══ Month 12 ═══");
}

#[test]
fn every_month_can_be_reported() {
    let mut world = demo();
    let mut record = RunRecord::new();
    for _ in 0usize..24 {
        world.tick_month(|n: usize| {
            vec![CargoRoll { incident: whole(0), loss_fraction: tenths(1) }; n]
        });
        let events = record.close_month(&mut world);
        let table = events_table(&events, &world);
        assert_eq!(table.row_iter().count(), events.len());
        assert_eq!(settlements_table(&world.settlements).row_iter().count(), 3);
        assert_eq!(traders_table(&world.traders, &world.settlements).row_iter().count(), 2);
    }
    let summary = long_run_summary(24, &record.shipments, &record.money, &world);
    assert_eq!(summary.title, "Long-run summary (24 months)");
    assert_eq!(summary.lines.len(), 8);
}
