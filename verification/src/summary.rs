//! The summary of a long run.

use crate::event::{count_shipments, shipments_created, Event};
use crate::number::{
    fits, lemma_quotient, linear_within, make_whole, ordered, rounded_down, rounds_down, whole,
    Number,
};
use crate::text::{decimal, decimal_text};
use crate::world::{sum_trader_money, total_money, trader_money, World, WorldModel};
use vstd::prelude::*;

verus! {

/// All the shipments of the given months.
pub open spec fn shipment_total(shipments: Seq<u32>) -> nat
    decreases shipments.len(),
{
    if shipments.len() == 0 {
        0
    } else {
        shipment_total(shipments.drop_last()) + shipments.last() as nat
    }
}

/// The months in which nothing was sent off.
pub open spec fn idle_months(shipments: Seq<u32>) -> nat {
    shipments.filter(|sent: u32| sent == 0).len()
}

/// The lowest balance of settlement `i` in the first `n` months.
pub open spec fn lowest<N: Number>(money: Seq<[N; 3]>, i: int, n: int) -> N
    decreases n,
{
    if n <= 0 {
        whole(0)
    } else if n == 1 {
        money[0][i]
    } else {
        lowest(money, i, n - 1).smaller(money[n - 1][i])
    }
}

/// The highest balance of settlement `i` in the first `n` months.
pub open spec fn highest<N: Number>(money: Seq<[N; 3]>, i: int, n: int) -> N
    decreases n,
{
    if n <= 0 {
        whole(0)
    } else if n == 1 {
        money[0][i]
    } else {
        highest(money, i, n - 1).larger(money[n - 1][i])
    }
}

/// The shipments of a month, on average.
pub open spec fn average_shipments<N: Number>(months: u32, shipments: Seq<u32>) -> N {
    N::count(shipment_total(shipments) as usize).quotient(N::count(months as usize))
}

pub open spec fn summary_title(months: u32) -> Seq<char> {
    "Long-run summary ("@ + decimal(months as nat) + " months)"@
}

/// The names under which the summary lists settlements.
pub open spec fn listed_name(i: int) -> Seq<char> {
    if i == 0 {
        "Greenworld"@
    } else if i == 1 {
        "Ironmoon"@
    } else {
        "Forge Prime"@
    }
}

/// What the summary says of settlement `i`.
pub open spec fn settlement_line<N: Number>(
    model: WorldModel<N>,
    money: Seq<[N; 3]>,
    i: int,
) -> Seq<char> {
    "  "@ + listed_name(i) + ": min $"@ + lowest(money, i, money.len() as int).text(0)@ + ", max $"@
        + highest(money, i, money.len() as int).text(0)@ + ", final $"@
        + model.settlements[i].money.text(0)@
}

/// The lines of the summary below its title.
pub open spec fn summary_lines<N: Number>(
    months: u32,
    shipments: Seq<u32>,
    money: Seq<[N; 3]>,
    model: WorldModel<N>,
) -> Seq<Seq<char>> {
    seq![
        "Avg shipments/month: "@ + average_shipments::<N>(months, shipments).text(1)@,
        "Months without trade: "@ + decimal(idle_months(shipments)) + "/"@ + decimal(
            months as nat,
        ),
        ""@,
        settlement_line(model, money, 0),
        settlement_line(model, money, 1),
        settlement_line(model, money, 2),
        "  Traders total: $"@ + trader_money(model.traders, model.traders.len() as int).text(0)@,
        "  Total money: $"@ + model.total_money().text(0)@ + " (conserved: $"@
            + model.expected_total_money.text(0)@ + ")"@,
    ]
}

/// The summary of a long run: a title, and the lines below it.
#[derive(Debug, Clone)]
pub struct LongRunSummary {
    pub title: String,
    pub lines: Vec<String>,
}

proof fn lemma_total_grows(shipments: Seq<u32>, n: int)
    requires
        0 <= n <= shipments.len(),
    ensures
        shipment_total(shipments.take(n)) <= shipment_total(shipments),
    decreases shipments.len() - n,
{
    if n < shipments.len() {
        lemma_total_grows(shipments, n + 1);
        assert(shipments.take(n + 1).drop_last() =~= shipments.take(n));
    } else {
        assert(shipments.take(n) =~= shipments);
    }
}

fn add_up(shipments: &Vec<u32>) -> (r: u32)
    requires
        shipment_total(shipments@) <= u32::MAX,
    ensures
        r == shipment_total(shipments@),
{
    let mut total: u32 = 0;
    let mut i: usize = 0;
    while i < shipments.len()
        invariant
            i <= shipments@.len(),
            shipment_total(shipments@) <= u32::MAX,
            total == shipment_total(shipments@.take(i as int)),
        decreases shipments@.len() - i,
    {
        proof {
            assert(shipments@.take(i + 1).drop_last() =~= shipments@.take(i as int));
            lemma_total_grows(shipments@, i + 1);
        }
        total = total + shipments[i];
        i = i + 1;
    }
    assert(shipments@.take(i as int) =~= shipments@);
    total
}

fn count_idle(shipments: &Vec<u32>) -> (r: usize)
    ensures
        r == idle_months(shipments@),
{
    let mut idle: usize = 0;
    let mut i: usize = 0;
    while i < shipments.len()
        invariant
            i <= shipments@.len(),
            idle <= i,
            idle == idle_months(shipments@.take(i as int)),
        decreases shipments@.len() - i,
    {
        proof {
            reveal_with_fuel(Seq::filter, 2);
            assert(shipments@.take(i + 1).drop_last() =~= shipments@.take(i as int));
        }
        if shipments[i] == 0 {
            idle = idle + 1;
        }
        i = i + 1;
    }
    assert(shipments@.take(i as int) =~= shipments@);
    idle
}

fn find_extremes<N: Number>(money: &Vec<[N; 3]>, i: usize) -> (r: (N, N))
    requires
        i < 3,
    ensures
        r.0 == lowest(money@, i as int, money@.len() as int),
        r.1 == highest(money@, i as int, money@.len() as int),
{
    if money.len() == 0 {
        return (make_whole(0), make_whole(0));
    }
    let mut low = money[0][i];
    let mut high = money[0][i];
    let mut n: usize = 1;
    while n < money.len()
        invariant
            i < 3,
            1 <= n <= money@.len(),
            low == lowest(money@, i as int, n as int),
            high == highest(money@, i as int, n as int),
        decreases money@.len() - n,
    {
        low = low.min(money[n][i]);
        high = high.max(money[n][i]);
        n = n + 1;
    }
    (low, high)
}

fn describe_settlement<N: Number>(
    world: &World<N>,
    money: &Vec<[N; 3]>,
    i: usize,
    name: &str,
) -> (r: String)
    requires
        i < 3,
        i < world@.settlements.len(),
        name@ == listed_name(i as int),
    ensures
        r@ == settlement_line(world@, money@, i as int),
{
    let (low, high) = find_extremes(money, i);
    "  ".to_owned().concat(name).concat(": min $").concat(low.to_fixed(0).as_str()).concat(
        ", max $",
    ).concat(high.to_fixed(0).as_str()).concat(", final $").concat(
        world.settlements[i].money.to_fixed(0).as_str(),
    )
}

/// Sums up a run of `months` months.
pub fn long_run_summary<N: Number>(
    months: u32,
    shipments: &Vec<u32>,
    money: &Vec<[N; 3]>,
    world: &World<N>,
) -> (r: LongRunSummary)
    requires
        shipment_total(shipments@) <= u32::MAX,
        world@.settlements.len() >= 3,
    ensures
        r.title@ == summary_title(months),
        r.lines@.map_values(|line: String| line@) == summary_lines(
            months,
            shipments@,
            money@,
            world@,
        ),
{
    let average = N::from_count(add_up(shipments) as usize).div(N::from_count(months as usize));
    let idle = count_idle(shipments);
    let title = "Long-run summary (".to_owned().concat(
        decimal_text(months as u64).as_str(),
    ).concat(" months)");
    let lines = vec![
        "Avg shipments/month: ".to_owned().concat(average.to_fixed(1).as_str()),
        "Months without trade: ".to_owned().concat(decimal_text(idle as u64).as_str()).concat(
            "/",
        ).concat(decimal_text(months as u64).as_str()),
        "".to_owned(),
        describe_settlement(world, money, 0, "Greenworld"),
        describe_settlement(world, money, 1, "Ironmoon"),
        describe_settlement(world, money, 2, "Forge Prime"),
        "  Traders total: $".to_owned().concat(sum_trader_money(world).to_fixed(0).as_str()),
        "  Total money: $".to_owned().concat(total_money(world).to_fixed(0).as_str()).concat(
            " (conserved: $",
        ).concat(world.expected_total_money.to_fixed(0).as_str()).concat(")"),
    ];
    assert(lines@.map_values(|line: String| line@) =~= summary_lines(
        months,
        shipments@,
        money@,
        world@,
    ));
    LongRunSummary { title, lines }
}

proof fn lemma_extremes<N: Number>(
    val: spec_fn(N) -> real,
    money: Seq<[N; 3]>,
    i: int,
    n: int,
)
    requires
        ordered(val),
        0 < n <= money.len(),
    ensures
        forall|k: int|
            0 <= k < n ==> val(lowest(money, i, n)) <= val(#[trigger] money[k][i]) <= val(
                highest(money, i, n),
            ),
        exists|k: int| 0 <= k < n && val(lowest(money, i, n)) == val(#[trigger] money[k][i]),
        exists|k: int| 0 <= k < n && val(highest(money, i, n)) == val(#[trigger] money[k][i]),
    decreases n,
{
    if n == 1 {
        assert(val(lowest(money, i, n)) == val(money[0][i]));
        assert(val(highest(money, i, n)) == val(money[0][i]));
    } else {
        lemma_extremes(val, money, i, n - 1);
        let low = choose|k: int|
            0 <= k < n - 1 && val(lowest(money, i, n - 1)) == val(#[trigger] money[k][i]);
        let high = choose|k: int|
            0 <= k < n - 1 && val(highest(money, i, n - 1)) == val(#[trigger] money[k][i]);
        let last = money[n - 1][i];
        assert(val(lowest(money, i, n)) == if val(money[low][i]) <= val(last) {
            val(money[low][i])
        } else {
            val(last)
        });
        assert(val(highest(money, i, n)) == if val(money[high][i]) >= val(last) {
            val(money[high][i])
        } else {
            val(last)
        });
    }
}

/// Law: the summary lists for each of the first three settlements, under its name, a
/// minimum that is one of the recorded balances and at most each of them, a maximum that is
/// one of them and at least each of them, and the balance that the settlement has now.
pub proof fn law_summary_lists_the_extremes<N: Number>(
    val: spec_fn(N) -> real,
    months: u32,
    shipments: Seq<u32>,
    money: Seq<[N; 3]>,
    model: WorldModel<N>,
    i: int,
)
    requires
        ordered(val),
        0 <= i < 3,
        money.len() > 0,
    ensures
        exists|low: N, high: N|
            {
                &&& forall|k: int|
                    0 <= k < money.len() ==> #[trigger] val(low) <= val(#[trigger] money[k][i])
                        <= val(high)
                &&& exists|k: int| 0 <= k < money.len() && val(low) == val(#[trigger] money[k][i])
                &&& exists|k: int| 0 <= k < money.len() && val(high) == val(#[trigger] money[k][i])
                &&& summary_lines(months, shipments, money, model)[3 + i] == "  "@ + (if i == 0 {
                    "Greenworld"@
                } else if i == 1 {
                    "Ironmoon"@
                } else {
                    "Forge Prime"@
                }) + ": min $"@ + #[trigger] low.text(0)@ + ", max $"@ + #[trigger] high.text(
                    0,
                )@ + ", final $"@ + model.settlements[i].money.text(0)@
            },
{
    let n = money.len() as int;
    lemma_extremes(val, money, i, n);
    let (low, high) = (lowest(money, i, n), highest(money, i, n));
    let (a, b) = (low.text(0), high.text(0));
    assert(summary_lines(months, shipments, money, model)[3 + i] == settlement_line(
        model,
        money,
        i,
    ));
}

/// Law: where nothing is on record, the minimum and the maximum are zero.
pub proof fn law_summary_of_nothing<N: Number>(
    months: u32,
    shipments: Seq<u32>,
    model: WorldModel<N>,
    i: int,
)
    requires
        0 <= i < 3,
    ensures
        summary_lines(months, shipments, Seq::<[N; 3]>::empty(), model)[3 + i] == "  "@ + (if i
            == 0 {
            "Greenworld"@
        } else if i == 1 {
            "Ironmoon"@
        } else {
            "Forge Prime"@
        }) + ": min $"@ + whole::<N>(0).text(0)@ + ", max $"@ + whole::<N>(0).text(0)@
            + ", final $"@ + model.settlements[i].money.text(0)@,
{
    let none = Seq::<[N; 3]>::empty();
    assert(summary_lines(months, shipments, none, model)[3 + i] == settlement_line(
        model,
        none,
        i,
    ));
}

/// Law: a month more adds its shipments to the total, and itself to the idle months if and
/// only if it saw none.
pub proof fn law_months_add_up(shipments: Seq<u32>, sent: u32)
    ensures
        shipment_total(Seq::<u32>::empty()) == 0,
        shipment_total(shipments.push(sent)) == shipment_total(shipments) + sent,
        idle_months(Seq::<u32>::empty()) == 0,
        idle_months(shipments.push(sent)) == idle_months(shipments) + if sent == 0 {
            1nat
        } else {
            0nat
        },
{
    reveal_with_fuel(Seq::filter, 2);
    assert(shipments.push(sent).drop_last() =~= shipments);
}

/// Law: the summary gives the shipments of all months over the number of months, how many
/// of the months saw none, and the money of the traders, of all together, and as it should
/// be.
pub proof fn law_summary_gives_the_average<N: Number>(
    val: spec_fn(N) -> real,
    limit: real,
    unit: real,
    months: u32,
    shipments: Seq<u32>,
    money: Seq<[N; 3]>,
    model: WorldModel<N>,
)
    requires
        linear_within(val, limit),
        rounds_down(val, limit, unit),
        months > 0,
        fits(limit, months as real),
        fits(limit, shipment_total(shipments) as real),
        shipment_total(shipments) <= u32::MAX,
    ensures
        exists|average: N|
            {
                &&& rounded_down(
                    shipment_total(shipments) as real / months as real,
                    val(average),
                    unit,
                )
                &&& summary_lines(months, shipments, money, model)[0] == "Avg shipments/month: "@
                    + #[trigger] average.text(1)@
            },
        summary_lines(months, shipments, money, model)[1] == "Months without trade: "@ + decimal(
            idle_months(shipments),
        ) + "/"@ + decimal(months as nat),
        summary_lines(months, shipments, money, model).len() == 8,
        summary_lines(months, shipments, money, model)[2] == ""@,
        summary_lines(months, shipments, money, model)[6] == "  Traders total: $"@ + trader_money(
            model.traders,
            model.traders.len() as int,
        ).text(0)@,
        summary_lines(months, shipments, money, model)[7] == "  Total money: $"@
            + model.total_money().text(0)@ + " (conserved: $"@
            + model.expected_total_money.text(0)@ + ")"@,
        summary_title(months) == "Long-run summary ("@ + decimal(months as nat) + " months)"@,
{
    let total = shipment_total(shipments);
    let (a, b) = (N::count(total as usize), N::count(months as usize));
    assert(val(a) == total as real && val(b) == months as real);
    let (t, m) = (total as real, months as real);
    assert(0real <= t / m <= t) by (nonlinear_arith)
        requires
            0real <= t,
            1real <= m,
    ;
    lemma_quotient(val, limit, unit, a, b);
    let average = average_shipments::<N>(months, shipments);
    assert(average == a.quotient(b));
    assert(rounded_down(t / m, val(average), unit));
    assert(summary_lines(months, shipments, money, model)[0] == "Avg shipments/month: "@
        + average.text(1)@);
}

/// The title of a month's report.
pub open spec fn month_title(month: u32) -> Seq<char> {
    "═══ Month "@ + decimal(month as nat) + " ═══"@
}

pub fn format_month_title(month: u32) -> (r: String)
    ensures
        r@ == month_title(month),
        r@ == "═══ Month "@ + decimal(month as nat) + " ═══"@,
{
    "═══ Month ".to_owned().concat(decimal_text(month as u64).as_str()).concat(" ═══")
}

/// What a run leaves on record of its months: the shipments that each saw, and what
/// the treasuries of the first three settlements held at the end of each.
#[derive(Debug, Clone)]
pub struct RunRecord<N> {
    pub shipments: Vec<u32>,
    pub money: Vec<[N; 3]>,
}

impl<N: Number> RunRecord<N> {
    pub fn new() -> (r: Self)
        ensures
            r.shipments@ == Seq::<u32>::empty(),
            r.money@ == Seq::<[N; 3]>::empty(),
    {
        RunRecord { shipments: Vec::new(), money: Vec::new() }
    }

    /// Takes down the month that has just passed, and hands out its events.
    pub fn close_month(&mut self, world: &mut World<N>) -> (r: Vec<Event<N>>)
        requires
            old(world)@.settlements.len() >= 3,
        ensures
            r@ == old(world)@.events,
            final(world)@ == (WorldModel { events: Seq::empty(), ..old(world)@ }),
            old(world)@.wf() ==> final(world)@.wf(),
            old(world)@.priced() ==> final(world)@.priced(),
            final(world)@.events_wf(),
            old(world)@.events_wf() ==> forall|i: int|
                0 <= i < r@.len() ==> final(world)@.event_wf(#[trigger] r@[i]),
            final(self).shipments@ == old(self).shipments@.push(
                shipments_created(old(world)@.events) as u32,
            ),
            final(self).money@.len() == old(self).money@.len() + 1,
            final(self).money@.drop_last() == old(self).money@,
            forall|i: int|
                0 <= i < 3 ==> #[trigger] final(self).money@.last()[i]
                    == old(world)@.settlements[i].money,
    {
        let events = world.take_events();
        self.shipments.push(count_shipments(&events) as u32);
        self.money.push(
            [
                world.settlements[0].money,
                world.settlements[1].money,
                world.settlements[2].money,
            ],
        );
        assert(self.money@.drop_last() =~= old(self).money@);
        events
    }
}

} // verus!
