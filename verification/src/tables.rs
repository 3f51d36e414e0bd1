//! Reports as tables of styled cells.

use crate::event::Event;
use crate::goods::{good_name, name_of, Good};
use crate::number::{make_whole, whole, Number};
use crate::report::{color_of, format_event, good_color, Color, EventRow, RowModel};
use crate::settlement::Settlement;
use crate::trader::Trader;
use crate::world::{World, WorldModel};
use comfy_table::presets::UTF8_FULL_CONDENSED;
use comfy_table::{Attribute, Cell, CellAlignment, ContentArrangement, Table};
use vstd::prelude::*;

verus! {

/// `comfy_table::Cell`.
#[verifier::external_type_specification]
#[verifier::external_body]
pub struct ExCell(Cell);

/// `comfy_table::Table`.
#[verifier::external_type_specification]
#[verifier::external_body]
pub struct ExTable(Table);

/// The side of a cell on which its text stands.
#[derive(Debug, Clone, Copy, PartialEq, Eq, Structural)]
pub enum Alignment {
    Left,
    Right,
}

/// What a cell holds: its text, and how the text is styled.
#[verifier::ext_equal]
pub struct CellLook {
    pub text: Seq<char>,
    pub color: Option<Color>,
    pub bold: bool,
    pub alignment: Option<Alignment>,
}

/// What a table holds: its header, its rows from the first to the last, the
/// characters that its lines are drawn with (a blank where none is drawn), and
/// whether its columns are fitted to the width of the terminal.
#[verifier::ext_equal]
pub struct TableLook {
    pub header: Option<Seq<CellLook>>,
    pub rows: Seq<Seq<CellLook>>,
    pub lines: Seq<char>,
    pub fitted: bool,
}

/// What a `comfy_table::Cell` holds.
pub uninterp spec fn cell_look(cell: Cell) -> CellLook;

/// What a `comfy_table::Table` holds.
pub uninterp spec fn table_look(table: Table) -> TableLook;

/// What each of the given cells holds.
pub open spec fn looks(cells: Seq<Cell>) -> Seq<CellLook> {
    cells.map_values(|cell: Cell| cell_look(cell))
}

/// Text without any style.
pub open spec fn plain(text: Seq<char>) -> CellLook {
    CellLook { text, color: None, bold: false, alignment: None }
}

/// `comfy_table::Cell::new`: a cell with the given text, without color, attribute
/// or alignment.
#[verifier::external_body]
fn new_cell(text: &str) -> (r: Cell)
    ensures
        cell_look(r) == plain(text@),
{
    Cell::new(text)
}

/// `comfy_table::Cell::fg`: gives the text a color and leaves the rest of the
/// cell as it is.
#[verifier::external_body]
fn colored(cell: Cell, color: Color) -> (r: Cell)
    ensures
        cell_look(r) == (CellLook { color: Some(color), ..cell_look(cell) }),
{
    cell.fg(
        match color {
            Color::Green => comfy_table::Color::Green,
            Color::Yellow => comfy_table::Color::Yellow,
            Color::Cyan => comfy_table::Color::Cyan,
            Color::Magenta => comfy_table::Color::Magenta,
            Color::Blue => comfy_table::Color::Blue,
            Color::Red => comfy_table::Color::Red,
        },
    )
}

/// `comfy_table::Cell::add_attribute`, with the attribute `Bold`: makes the text
/// bold and leaves the rest of the cell as it is.
#[verifier::external_body]
fn bold(cell: Cell) -> (r: Cell)
    ensures
        cell_look(r) == (CellLook { bold: true, ..cell_look(cell) }),
{
    cell.add_attribute(Attribute::Bold)
}

/// `comfy_table::Cell::set_alignment`: puts the text on a side and leaves the rest
/// of the cell as it is.
#[verifier::external_body]
fn aligned(cell: Cell, alignment: Alignment) -> (r: Cell)
    ensures
        cell_look(r) == (CellLook { alignment: Some(alignment), ..cell_look(cell) }),
{
    cell.set_alignment(
        match alignment {
            Alignment::Left => CellAlignment::Left,
            Alignment::Right => CellAlignment::Right,
        },
    )
}

/// The lines of a new table.
pub open spec fn default_lines() -> Seq<char> {
    "||--+==+|-+||++++++"@
}

/// A frame, a double line below the header, and dotted lines between the columns.
pub open spec fn condensed_lines() -> Seq<char> {
    "││──╞═╪╡┆    ┬┴┌┐└┘"@
}

/// `comfy_table::Table::new`: a table without header and rows, drawn with the
/// lines of `comfy_table::presets::ASCII_FULL`, that is not fitted to the terminal.
#[verifier::external_body]
fn new_table() -> (r: Table)
    ensures
        table_look(r) == (TableLook {
            header: None,
            rows: Seq::empty(),
            lines: default_lines(),
            fitted: false,
        }),
{
    Table::new()
}

/// `comfy_table::Table::load_preset`, with `comfy_table::presets::UTF8_FULL_CONDENSED`:
/// draws the table with the lines of that preset and leaves the rest of the table as
/// it is.
#[verifier::external_body]
fn load_condensed(table: &mut Table)
    ensures
        table_look(*final(table)) == (TableLook {
            lines: condensed_lines(),
            ..table_look(*old(table))
        }),
{
    table.load_preset(UTF8_FULL_CONDENSED);
}

/// `comfy_table::Table::set_content_arrangement`, with `Dynamic`: has the columns
/// fitted to the width of the terminal and leaves the rest of the table as it is.
#[verifier::external_body]
fn fit_to_terminal(table: &mut Table)
    ensures
        table_look(*final(table)) == (TableLook { fitted: true, ..table_look(*old(table)) }),
{
    table.set_content_arrangement(ContentArrangement::Dynamic);
}

/// `comfy_table::Table::set_header`: makes the given cells the header and leaves
/// the rest of the table as it is.
#[verifier::external_body]
fn set_header(table: &mut Table, cells: Vec<Cell>)
    ensures
        table_look(*final(table)) == (TableLook {
            header: Some(looks(cells@)),
            ..table_look(*old(table))
        }),
{
    table.set_header(cells);
}

/// `comfy_table::Table::add_row`: adds the given cells as the last row and leaves
/// the rest of the table as it is.
#[verifier::external_body]
fn add_row(table: &mut Table, cells: Vec<Cell>)
    ensures
        table_look(*final(table)) == (TableLook {
            rows: table_look(*old(table)).rows.push(looks(cells@)),
            ..table_look(*old(table))
        }),
{
    table.add_row(cells);
}

/// The heading of a column.
pub open spec fn heading(label: Seq<char>) -> CellLook {
    CellLook { text: label, color: Some(Color::Cyan), bold: true, alignment: None }
}

pub fn header_cell(label: &str) -> (r: Cell)
    ensures
        cell_look(r) == heading(label@),
{
    bold(colored(new_cell(label), Color::Cyan))
}

/// The heading of a column about one good, in the color of the good.
pub open spec fn good_heading(label: Seq<char>, good: Good) -> CellLook {
    CellLook { color: Some(color_of(good)), ..heading(label) }
}

fn good_header_cell(label: &str, good: Good) -> (r: Cell)
    ensures
        cell_look(r) == good_heading(label@, good),
{
    colored(header_cell(label), good_color(good))
}

/// Text on the left.
pub open spec fn left(text: Seq<char>) -> CellLook {
    CellLook { alignment: Some(Alignment::Left), ..plain(text) }
}

fn left_cell(text: &str) -> (r: Cell)
    ensures
        cell_look(r) == left(text@),
{
    aligned(new_cell(text), Alignment::Left)
}

/// The name of a place or of a person.
pub open spec fn place(name: Seq<char>) -> CellLook {
    CellLook { bold: true, ..left(name) }
}

pub fn place_cell(name: &str) -> (r: Cell)
    ensures
        cell_look(r) == place(name@),
{
    aligned(bold(new_cell(name)), Alignment::Left)
}

/// The name of a good, in its color.
pub open spec fn good_label(good: Good) -> CellLook {
    CellLook { color: Some(color_of(good)), ..left(name_of(good)) }
}

pub fn good_cell(good: Good) -> (r: Cell)
    ensures
        cell_look(r) == good_label(good),
{
    aligned(colored(new_cell(good_name(good)), good_color(good)), Alignment::Left)
}

/// A number, on the right.
pub open spec fn figure(value: Seq<char>) -> CellLook {
    CellLook { alignment: Some(Alignment::Right), ..plain(value) }
}

pub fn num_cell(value: &str) -> (r: Cell)
    ensures
        cell_look(r) == figure(value@),
{
    aligned(new_cell(value), Alignment::Right)
}

/// An amount of money, on the right.
pub open spec fn money(value: Seq<char>) -> CellLook {
    CellLook { color: Some(Color::Green), ..figure(value) }
}

fn money_cell(value: &str) -> (r: Cell)
    ensures
        cell_look(r) == money(value@),
{
    colored(num_cell(value), Color::Green)
}

/// The kind of an event.
pub open spec fn event_kind(row: RowModel) -> CellLook {
    CellLook { color: Some(row.kind_color), bold: row.kind_bold, ..left(row.kind) }
}

pub fn event_kind_cell(row: &EventRow) -> (r: Cell)
    ensures
        cell_look(r) == event_kind(row@),
{
    let mut cell = colored(new_cell(row.kind), row.kind_color);
    if row.kind_bold {
        cell = bold(cell);
    }
    aligned(cell, Alignment::Left)
}

/// The details of an event.
pub open spec fn event_details(row: RowModel) -> CellLook {
    CellLook { color: row.details_color, ..left(row.details) }
}

pub fn event_details_cell(row: &EventRow) -> (r: Cell)
    ensures
        cell_look(r) == event_details(row@),
{
    let cell = left_cell(row.details.as_str());
    match row.details_color {
        Some(color) => colored(cell, color),
        None => cell,
    }
}

/// The good of an event, or a dash.
pub open spec fn event_good(row: RowModel) -> CellLook {
    match row.good {
        Some(good) => good_label(good),
        None => left("—"@),
    }
}

fn event_good_cell(row: &EventRow) -> (r: Cell)
    ensures
        cell_look(r) == event_good(row@),
{
    match row.good {
        Some(good) => good_cell(good),
        None => left_cell("—"),
    }
}

/// A table without header and rows, in the style of all reports.
pub open spec fn blank_table() -> TableLook {
    TableLook {
        header: None,
        rows: Seq::empty(),
        lines: condensed_lines(),
        fitted: true,
    }
}

pub fn styled_table() -> (r: Table)
    ensures
        table_look(r) == blank_table(),
{
    let mut table = new_table();
    load_condensed(&mut table);
    fit_to_terminal(&mut table);
    table
}

pub open spec fn events_header() -> Seq<CellLook> {
    seq![heading("Type"@), heading("Where / Who"@), heading("Good"@), heading("Details"@)]
}

/// The cells of an event's row.
pub open spec fn event_cells(row: RowModel) -> Seq<CellLook> {
    seq![event_kind(row), place(row.place), event_good(row), event_details(row)]
}

/// The table of the given events, in their order.
pub open spec fn events_look<N: Number>(
    model: WorldModel<N>,
    events: Seq<Event<N>>,
) -> TableLook {
    TableLook {
        header: Some(events_header()),
        rows: Seq::new(events.len(), |i: int| event_cells(model.event_row(events[i]))),
        ..blank_table()
    }
}

fn event_row_cells(row: &EventRow) -> (r: Vec<Cell>)
    ensures
        looks(r@) == event_cells(row@),
{
    let cells = vec![
        event_kind_cell(row),
        place_cell(row.place.as_str()),
        event_good_cell(row),
        event_details_cell(row),
    ];
    assert(looks(cells@) =~= event_cells(row@));
    cells
}

/// What is printed of a month's events.
pub enum EventsReport {
    /// A dimmed line of text.
    Dimmed(&'static str),
    Listed(Table),
}

/// The report of a month's events: a table of them, or a line that says so where
/// nothing happened.
pub fn events_report<N: Number>(events: &Vec<Event<N>>, world: &World<N>) -> (r: EventsReport)
    requires
        forall|i: int| 0 <= i < events@.len() ==> world@.event_wf(#[trigger] events@[i]),
    ensures
        match r {
            EventsReport::Dimmed(line) => events@.len() == 0 && line@
                == "  (no events this month)"@,
            EventsReport::Listed(table) => events@.len() > 0 && table_look(table) == events_look(
                world@,
                events@,
            ),
        },
{
    if events.len() == 0 {
        EventsReport::Dimmed("  (no events this month)")
    } else {
        EventsReport::Listed(events_table(events, world))
    }
}

pub fn events_table<N: Number>(events: &Vec<Event<N>>, world: &World<N>) -> (r: Table)
    requires
        forall|i: int| 0 <= i < events@.len() ==> world@.event_wf(#[trigger] events@[i]),
    ensures
        table_look(r) == events_look(world@, events@),
{
    let mut table = styled_table();
    let header = vec![
        header_cell("Type"),
        header_cell("Where / Who"),
        header_cell("Good"),
        header_cell("Details"),
    ];
    assert(looks(header@) =~= events_header());
    set_header(&mut table, header);
    let ghost all = events_look(world@, events@);
    let mut i: usize = 0;
    assert(all.rows.take(0) =~= Seq::empty());
    while i < events.len()
        invariant
            i <= events@.len(),
            forall|i: int| 0 <= i < events@.len() ==> world@.event_wf(#[trigger] events@[i]),
            all == events_look(world@, events@),
            table_look(table) == (TableLook { rows: all.rows.take(i as int), ..all }),
        decreases events@.len() - i,
    {
        let row = format_event(&events[i], world);
        add_row(&mut table, event_row_cells(&row));
        assert(all.rows.take(i + 1) =~= all.rows.take(i as int).push(all.rows[i as int]));
        i = i + 1;
    }
    assert(all.rows.take(i as int) =~= all.rows);
    table
}

pub open spec fn settlements_header() -> Seq<CellLook> {
    seq![
        heading("Settlement"@),
        heading("Money"@),
        good_heading("Food"@, Good::Food),
        good_heading("Ore"@, Good::Ore),
        good_heading("Tools"@, Good::Tools),
        good_heading("Food $"@, Good::Food),
        good_heading("Ore $"@, Good::Ore),
        good_heading("Tools $"@, Good::Tools),
    ]
}

/// The cells of a settlement's row: its name, its treasury, its stores and its
/// prices; zero where it keeps or quotes nothing.
pub open spec fn settlement_cells<N: Number>(settlement: Settlement<N>) -> Seq<CellLook> {
    seq![
        place(settlement.name@),
        money(settlement.money.text(1)@),
        figure(settlement.stockpiles.at_or(Good::Food, whole(0)).text(1)@),
        figure(settlement.stockpiles.at_or(Good::Ore, whole(0)).text(1)@),
        figure(settlement.stockpiles.at_or(Good::Tools, whole(0)).text(1)@),
        figure(settlement.prices.at_or(Good::Food, whole(0)).text(2)@),
        figure(settlement.prices.at_or(Good::Ore, whole(0)).text(2)@),
        figure(settlement.prices.at_or(Good::Tools, whole(0)).text(2)@),
    ]
}

/// The table of the given settlements, in their order.
pub open spec fn settlements_look<N: Number>(settlements: Seq<Settlement<N>>) -> TableLook {
    TableLook {
        header: Some(settlements_header()),
        rows: Seq::new(settlements.len(), |i: int| settlement_cells(settlements[i])),
        ..blank_table()
    }
}

fn stock_cell<N: Number>(settlement: &Settlement<N>, good: Good) -> (r: Cell)
    ensures
        cell_look(r) == figure(settlement.stockpiles.at_or(good, whole(0)).text(1)@),
{
    num_cell(settlement.stockpiles.get_or(good, make_whole(0)).to_fixed(1).as_str())
}

fn price_cell<N: Number>(settlement: &Settlement<N>, good: Good) -> (r: Cell)
    ensures
        cell_look(r) == figure(settlement.prices.at_or(good, whole(0)).text(2)@),
{
    num_cell(settlement.prices.get_or(good, make_whole(0)).to_fixed(2).as_str())
}

fn settlement_row_cells<N: Number>(settlement: &Settlement<N>) -> (r: Vec<Cell>)
    ensures
        looks(r@) == settlement_cells(*settlement),
{
    let cells = vec![
        place_cell(settlement.name.as_str()),
        money_cell(settlement.money.to_fixed(1).as_str()),
        stock_cell(settlement, Good::Food),
        stock_cell(settlement, Good::Ore),
        stock_cell(settlement, Good::Tools),
        price_cell(settlement, Good::Food),
        price_cell(settlement, Good::Ore),
        price_cell(settlement, Good::Tools),
    ];
    assert(looks(cells@) =~= settlement_cells(*settlement));
    cells
}

pub fn settlements_table<N: Number>(settlements: &Vec<Settlement<N>>) -> (r: Table)
    ensures
        table_look(r) == settlements_look(settlements@),
{
    let mut table = styled_table();
    let header = vec![
        header_cell("Settlement"),
        header_cell("Money"),
        good_header_cell("Food", Good::Food),
        good_header_cell("Ore", Good::Ore),
        good_header_cell("Tools", Good::Tools),
        good_header_cell("Food $", Good::Food),
        good_header_cell("Ore $", Good::Ore),
        good_header_cell("Tools $", Good::Tools),
    ];
    assert(looks(header@) =~= settlements_header());
    set_header(&mut table, header);
    let ghost all = settlements_look(settlements@);
    let mut i: usize = 0;
    assert(all.rows.take(0) =~= Seq::empty());
    while i < settlements.len()
        invariant
            i <= settlements@.len(),
            all == settlements_look(settlements@),
            table_look(table) == (TableLook { rows: all.rows.take(i as int), ..all }),
        decreases settlements@.len() - i,
    {
        add_row(&mut table, settlement_row_cells(&settlements[i]));
        assert(all.rows.take(i + 1) =~= all.rows.take(i as int).push(all.rows[i as int]));
        i = i + 1;
    }
    assert(all.rows.take(i as int) =~= all.rows);
    table
}

pub open spec fn traders_header() -> Seq<CellLook> {
    seq![
        heading("Trader"@),
        heading("Location"@),
        heading("Home"@),
        heading("Money"@),
        heading("Capacity"@),
        heading("Risk tol"@),
    ]
}

/// The cells of a trader's row: their name, where they are and where their home
/// is, their money, their monthly capacity and how much risk they take.
pub open spec fn trader_cells<N: Number>(
    trader: Trader<N>,
    settlements: Seq<Settlement<N>>,
) -> Seq<CellLook> {
    seq![
        place(trader.name@),
        left(settlements[trader.location as int].name@),
        left(settlements[trader.home_base as int].name@),
        money(trader.money.text(1)@),
        figure(trader.trade_capacity.text(0)@ + "/mo"@),
        figure(trader.risk_tolerance.text(2)@),
    ]
}

/// The table of the given traders, in their order.
pub open spec fn traders_look<N: Number>(
    traders: Seq<Trader<N>>,
    settlements: Seq<Settlement<N>>,
) -> TableLook {
    TableLook {
        header: Some(traders_header()),
        rows: Seq::new(traders.len(), |i: int| trader_cells(traders[i], settlements)),
        ..blank_table()
    }
}

fn trader_row_cells<N: Number>(trader: &Trader<N>, settlements: &Vec<Settlement<N>>) -> (r: Vec<
    Cell,
>)
    requires
        trader.location < settlements@.len(),
        trader.home_base < settlements@.len(),
    ensures
        looks(r@) == trader_cells(*trader, settlements@),
{
    let cells = vec![
        place_cell(trader.name.as_str()),
        left_cell(settlements[trader.location].name.as_str()),
        left_cell(settlements[trader.home_base].name.as_str()),
        money_cell(trader.money.to_fixed(1).as_str()),
        num_cell(trader.trade_capacity.to_fixed(0).concat("/mo").as_str()),
        num_cell(trader.risk_tolerance.to_fixed(2).as_str()),
    ];
    assert(looks(cells@) =~= trader_cells(*trader, settlements@));
    cells
}

pub fn traders_table<N: Number>(
    traders: &Vec<Trader<N>>,
    settlements: &Vec<Settlement<N>>,
) -> (r: Table)
    requires
        forall|i: int|
            0 <= i < traders@.len() ==> {
                &&& (#[trigger] traders@[i]).location < settlements@.len()
                &&& traders@[i].home_base < settlements@.len()
            },
    ensures
        table_look(r) == traders_look(traders@, settlements@),
{
    let mut table = styled_table();
    let header = vec![
        header_cell("Trader"),
        header_cell("Location"),
        header_cell("Home"),
        header_cell("Money"),
        header_cell("Capacity"),
        header_cell("Risk tol"),
    ];
    assert(looks(header@) =~= traders_header());
    set_header(&mut table, header);
    let ghost all = traders_look(traders@, settlements@);
    let mut i: usize = 0;
    assert(all.rows.take(0) =~= Seq::empty());
    while i < traders.len()
        invariant
            i <= traders@.len(),
            forall|i: int|
                0 <= i < traders@.len() ==> {
                    &&& (#[trigger] traders@[i]).location < settlements@.len()
                    &&& traders@[i].home_base < settlements@.len()
                },
            all == traders_look(traders@, settlements@),
            table_look(table) == (TableLook { rows: all.rows.take(i as int), ..all }),
        decreases traders@.len() - i,
    {
        add_row(&mut table, trader_row_cells(&traders[i], settlements));
        assert(all.rows.take(i + 1) =~= all.rows.take(i as int).push(all.rows[i as int]));
        i = i + 1;
    }
    assert(all.rows.take(i as int) =~= all.rows);
    table
}

/// A cell with this text on this side, bold or not, in this color or in none.
pub open spec fn shows(
    cell: CellLook,
    text: Seq<char>,
    alignment: Option<Alignment>,
    bold: bool,
    color: Option<Color>,
) -> bool {
    &&& cell.text == text
    &&& cell.alignment == alignment
    &&& cell.bold == bold
    &&& cell.color == color
}

/// Law: the table of settlements has a row for each, in their order: its name, its money,
/// what it has of every good and what it asks for it; what it does not name is zero.
pub proof fn law_settlements_have_rows<N: Number>(settlements: Seq<Settlement<N>>, i: int)
    requires
        0 <= i < settlements.len(),
    ensures
        ({
            let look = settlements_look(settlements);
            let (place, row) = (settlements[i], look.rows[i]);
            let (left, right) = (Some(Alignment::Left), Some(Alignment::Right));
            let stock = |good: Good|
                match place.stockpiles.at(good) {
                    Some(stock) => stock.text(1)@,
                    None => whole::<N>(0).text(1)@,
                };
            let price = |good: Good|
                match place.prices.at(good) {
                    Some(price) => price.text(2)@,
                    None => whole::<N>(0).text(2)@,
                };
            let head = look.header->0;
            &&& look.rows.len() == settlements.len()
            &&& row.len() == 8
            &&& shows(row[0], place.name@, left, true, None)
            &&& shows(row[1], place.money.text(1)@, right, false, Some(Color::Green))
            &&& shows(row[2], stock(Good::Food), right, false, None)
            &&& shows(row[3], stock(Good::Ore), right, false, None)
            &&& shows(row[4], stock(Good::Tools), right, false, None)
            &&& shows(row[5], price(Good::Food), right, false, None)
            &&& shows(row[6], price(Good::Ore), right, false, None)
            &&& shows(row[7], price(Good::Tools), right, false, None)
            &&& look.header is Some && head.len() == 8
            &&& shows(head[0], "Settlement"@, None, true, Some(Color::Cyan))
            &&& shows(head[1], "Money"@, None, true, Some(Color::Cyan))
            &&& shows(head[2], "Food"@, None, true, Some(Color::Green))
            &&& shows(head[3], "Ore"@, None, true, Some(Color::Yellow))
            &&& shows(head[4], "Tools"@, None, true, Some(Color::Cyan))
            &&& shows(head[5], "Food $"@, None, true, Some(Color::Green))
            &&& shows(head[6], "Ore $"@, None, true, Some(Color::Yellow))
            &&& shows(head[7], "Tools $"@, None, true, Some(Color::Cyan))
            &&& look.fitted
            &&& look.lines == "││──╞═╪╡┆    ┬┴┌┐└┘"@
        }),
{
}

/// Law: the table of traders has a row for each, in their order: their name, where they are
/// and where their home is, their money, their capacity a month and how bold they are.
pub proof fn law_traders_have_rows<N: Number>(
    traders: Seq<Trader<N>>,
    settlements: Seq<Settlement<N>>,
    i: int,
)
    requires
        0 <= i < traders.len(),
    ensures
        ({
            let look = traders_look(traders, settlements);
            let (who, row) = (traders[i], look.rows[i]);
            let (left, right) = (Some(Alignment::Left), Some(Alignment::Right));
            let head = look.header->0;
            &&& look.rows.len() == traders.len()
            &&& row.len() == 6
            &&& shows(row[0], who.name@, left, true, None)
            &&& shows(row[1], settlements[who.location as int].name@, left, false, None)
            &&& shows(row[2], settlements[who.home_base as int].name@, left, false, None)
            &&& shows(row[3], who.money.text(1)@, right, false, Some(Color::Green))
            &&& shows(row[4], who.trade_capacity.text(0)@ + "/mo"@, right, false, None)
            &&& shows(row[5], who.risk_tolerance.text(2)@, right, false, None)
            &&& look.header is Some && head.len() == 6
            &&& shows(head[0], "Trader"@, None, true, Some(Color::Cyan))
            &&& shows(head[1], "Location"@, None, true, Some(Color::Cyan))
            &&& shows(head[2], "Home"@, None, true, Some(Color::Cyan))
            &&& shows(head[3], "Money"@, None, true, Some(Color::Cyan))
            &&& shows(head[4], "Capacity"@, None, true, Some(Color::Cyan))
            &&& shows(head[5], "Risk tol"@, None, true, Some(Color::Cyan))
            &&& look.fitted
            &&& look.lines == "││──╞═╪╡┆    ┬┴┌┐└┘"@
        }),
{
}

/// Law: the table of events has a row for each, in their order: what sort it is, who or
/// where it was, the good in its color or a dash where there is none, and the details.
pub proof fn law_events_have_rows<N: Number>(
    model: WorldModel<N>,
    events: Seq<Event<N>>,
    i: int,
)
    requires
        0 <= i < events.len(),
    ensures
        ({
            let look = events_look(model, events);
            let (told, row) = (model.event_row(events[i]), look.rows[i]);
            let left = Some(Alignment::Left);
            let head = look.header->0;
            &&& look.rows.len() == events.len()
            &&& row.len() == 4
            &&& shows(row[0], told.kind, left, told.kind_bold, Some(told.kind_color))
            &&& shows(row[1], told.place, left, true, None)
            &&& match told.good {
                Some(Good::Food) => shows(row[2], "Food"@, left, false, Some(Color::Green)),
                Some(Good::Ore) => shows(row[2], "Ore"@, left, false, Some(Color::Yellow)),
                Some(Good::Tools) => shows(row[2], "Tools"@, left, false, Some(Color::Cyan)),
                None => shows(row[2], "—"@, left, false, None),
            }
            &&& shows(row[3], told.details, left, false, told.details_color)
            &&& look.header is Some && head.len() == 4
            &&& shows(head[0], "Type"@, None, true, Some(Color::Cyan))
            &&& shows(head[1], "Where / Who"@, None, true, Some(Color::Cyan))
            &&& shows(head[2], "Good"@, None, true, Some(Color::Cyan))
            &&& shows(head[3], "Details"@, None, true, Some(Color::Cyan))
            &&& look.fitted
            &&& look.lines == "││──╞═╪╡┆    ┬┴┌┐└┘"@
        }),
{
}

} // verus!
