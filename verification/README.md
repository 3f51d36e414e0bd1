# mundios

A small economic simulation. Settlements produce, consume, borrow and set
prices; traders carry goods between them, hear rumors of far markets and run
the risk of the road. A month at a time, everything that happens is reported.

The library under `src/` is verified with Verus:

- `number` is the arithmetic that everything runs on, as a trait; `fixed` is a
  fixed-point number type, and `power` takes its fractional powers.
- `goods`, `settlement`, `route`, `trader`, `shipment`, `event` and `world` hold
  the state of the simulation and its well-formedness.
- `production`, `market`, `finance`, `trade` and `delivery` are the steps of a
  month, and `month` puts them together. Each step states the whole state that it
  leaves behind.
- `conservation`, `rounding`, `laws`, `accounts`, `trading`, `arrivals`, `keeping`
  and `naming` prove what holds across the steps.
- `demo` is the world that the program starts from.
- `report`, `tables`, `summary`, `text` and `args` turn events into words and
  tables, and read the command line.

What the steps state holds whichever way numbers round. The laws about amounts
come with a premise on the arithmetic:

- Laws that compare, add and subtract (that stores, routes, credit and reserves
  are not overdrawn, that goods are accounted for, that the best trade is picked)
  hold within the range of the number type.
- Laws that multiply and divide (where prices, rumors, interest, appetite and
  profits lie) hold for arithmetic that rounds down, up to a stated number of units.
- Laws that say which of two results is the larger (that more stock never raises a
  price, that a bolder trader refuses nothing more) hold for arithmetic that keeps
  order, with no loss at all.
- That money is conserved to the last unit holds for arithmetic that never rounds and
  never runs out of range, which no number type of a fixed size is. For such types
  `rounding` proves what is left of it: as long as nothing leaves the range, a month
  makes no money, and what rounding loses stays below a stated bound.

Fixed-point numbers meet the first three premises, and arithmetic that never rounds
meets all four, with a unit of zero.

The program under `app/` runs the demonstration in floating point, draws the
dice and prints the reports:

    mundios [--months N] [--quiet]

It simulates twelve months unless told otherwise, and ends quiet or long runs
with a summary.
