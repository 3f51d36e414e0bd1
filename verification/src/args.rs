//! The command line.

use crate::text::{parse_u32, u32_value};
use vstd::prelude::*;

verus! {

/// The number of months to simulate where the command line names none.
pub const DEFAULT_MONTHS: u32 = 12;

/// Runs of more months than this end with a summary.
pub const LONG_RUN_MONTHS: u32 = 24;

/// What the command line asks for.
#[derive(Debug, Clone, Copy, PartialEq, Eq)]
pub enum Request {
    Run { months: u32, quiet: bool },
    Help,
}

/// What is wrong with the command line.
#[derive(Debug, Clone, Copy, PartialEq, Eq)]
pub enum ArgsError {
    /// Nothing follows `--months`.
    MissingMonths,
    /// What follows `--months` is not a `u32`.
    InvalidMonths,
}

impl ArgsError {
    pub fn message(&self) -> (r: &'static str)
        ensures
            r@ == match *self {
                ArgsError::MissingMonths => "missing value for --months"@,
                ArgsError::InvalidMonths => "months must be a u32"@,
            },
    {
        match self {
            ArgsError::MissingMonths => "missing value for --months",
            ArgsError::InvalidMonths => "months must be a u32",
        }
    }
}

/// What is printed where help is asked for.
pub fn usage() -> (r: &'static str)
    ensures
        r@ == "Usage: mundios [--months N] [--quiet]"@,
{
    "Usage: mundios [--months N] [--quiet]"
}

pub open spec fn is_months_flag(arg: Seq<char>) -> bool {
    arg == "--months"@ || arg == "-m"@
}

pub open spec fn is_quiet_flag(arg: Seq<char>) -> bool {
    arg == "--quiet"@ || arg == "-q"@
}

pub open spec fn is_help_flag(arg: Seq<char>) -> bool {
    arg == "--help"@ || arg == "-h"@
}

/// What the arguments from the `i`-th on ask for, where those before it have
/// settled on `months` and `quiet`.  The first argument that asks for help or is
/// in error decides; arguments that mean nothing are passed over.
pub open spec fn request_from(
    args: Seq<String>,
    i: int,
    months: u32,
    quiet: bool,
) -> Result<Request, ArgsError>
    decreases args.len() - i,
{
    if i >= args.len() {
        Ok(Request::Run { months, quiet })
    } else if is_months_flag(args[i]@) {
        if i + 1 >= args.len() {
            Err(ArgsError::MissingMonths)
        } else {
            match u32_value(args[i + 1]@) {
                Some(months) => request_from(args, i + 2, months, quiet),
                None => Err(ArgsError::InvalidMonths),
            }
        }
    } else if is_quiet_flag(args[i]@) {
        request_from(args, i + 1, months, true)
    } else if is_help_flag(args[i]@) {
        Ok(Request::Help)
    } else {
        request_from(args, i + 1, months, quiet)
    }
}

/// Reads the arguments that follow the program's name.
pub fn parse_args(args: &Vec<String>) -> (r: Result<Request, ArgsError>)
    ensures
        r == request_from(args@, 0, DEFAULT_MONTHS, false),
{
    let mut months: u32 = DEFAULT_MONTHS;
    let mut quiet = false;
    let mut i: usize = 0;
    while i < args.len()
        invariant
            i <= args@.len(),
            request_from(args@, i as int, months, quiet) == request_from(
                args@,
                0,
                DEFAULT_MONTHS,
                false,
            ),
        decreases args@.len() - i,
    {
        let arg = &args[i];
        if *arg == "--months".to_owned() || *arg == "-m".to_owned() {
            if i + 1 >= args.len() {
                return Err(ArgsError::MissingMonths);
            }
            match parse_u32(args[i + 1].as_str()) {
                Some(value) => {
                    months = value;
                },
                None => {
                    return Err(ArgsError::InvalidMonths);
                },
            }
            i = i + 2;
        } else if *arg == "--quiet".to_owned() || *arg == "-q".to_owned() {
            quiet = true;
            i = i + 1;
        } else if *arg == "--help".to_owned() || *arg == "-h".to_owned() {
            return Ok(Request::Help);
        } else {
            i = i + 1;
        }
    }
    Ok(Request::Run { months, quiet })
}

/// Whether a run ends with a summary.
pub fn wants_summary(months: u32, quiet: bool) -> (r: bool)
    ensures
        r == (quiet || months > LONG_RUN_MONTHS),
        r <==> quiet || months > 24,
{
    quiet || months > LONG_RUN_MONTHS
}

/// What the arguments have settled on where they ask for a run.
proof fn lemma_scanned(
    args: Seq<String>,
    more: Seq<String>,
    i: int,
    months: u32,
    quiet: bool,
)
    requires
        0 <= i <= args.len(),
    ensures
        request_from(args, i, months, quiet) matches Ok(Request::Run { months: m, quiet: q })
            ==> request_from(args + more, i, months, quiet) == request_from(
            args + more,
            args.len() as int,
            m,
            q,
        ),
        request_from(args, i, months, quiet) == Ok::<Request, ArgsError>(Request::Help)
            ==> request_from(args + more, i, months, quiet) == Ok::<Request, ArgsError>(
            Request::Help,
        ),
        request_from(args, i, months, quiet) == Err::<Request, ArgsError>(
            ArgsError::InvalidMonths,
        ) ==> request_from(args + more, i, months, quiet) == Err::<Request, ArgsError>(
            ArgsError::InvalidMonths,
        ),
    decreases args.len() - i,
{
    if i < args.len() {
        assert((args + more)[i] == args[i]);
        if is_months_flag(args[i]@) {
            if i + 1 < args.len() {
                assert((args + more)[i + 1] == args[i + 1]);
                match u32_value(args[i + 1]@) {
                    Some(given) => lemma_scanned(args, more, i + 2, given, quiet),
                    None => {},
                }
            }
        } else if is_quiet_flag(args[i]@) {
            lemma_scanned(args, more, i + 1, months, true);
        } else if !is_help_flag(args[i]@) {
            lemma_scanned(args, more, i + 1, months, quiet);
        }
    }
}

/// Law: without arguments, twelve months are simulated and reported.  Arguments that follow
/// others that ask for a run change it: a quiet flag silences it, a months flag with a
/// number sets its length, without a number or with something else it is an error, a help
/// flag asks for help, and anything else changes nothing.  What follows a help flag or an
/// error changes nothing either.
pub proof fn law_arguments_follow_each_other(args: Seq<String>, arg: String, number: String)
    ensures
        request_from(Seq::empty(), 0, DEFAULT_MONTHS, false) == Ok::<Request, ArgsError>(
            Request::Run { months: 12, quiet: false },
        ),
        ({
            let months_flag = arg@ == "--months"@ || arg@ == "-m"@;
            let quiet_flag = arg@ == "--quiet"@ || arg@ == "-q"@;
            let help_flag = arg@ == "--help"@ || arg@ == "-h"@;
            let before = request_from(args, 0, DEFAULT_MONTHS, false);
            let one = request_from(args.push(arg), 0, DEFAULT_MONTHS, false);
            let two = request_from(args.push(arg).push(number), 0, DEFAULT_MONTHS, false);
            &&& before matches Ok(Request::Run { months, quiet }) ==> {
                &&& months_flag ==> one == Err::<Request, ArgsError>(ArgsError::MissingMonths)
                &&& months_flag ==> two == match u32_value(number@) {
                    Some(given) => Ok::<Request, ArgsError>(
                        Request::Run { months: given, quiet },
                    ),
                    None => Err(ArgsError::InvalidMonths),
                }
                &&& quiet_flag ==> one == Ok::<Request, ArgsError>(
                    Request::Run { months, quiet: true },
                )
                &&& help_flag ==> one == Ok::<Request, ArgsError>(Request::Help)
                &&& !months_flag && !quiet_flag && !help_flag ==> one == before
            }
            &&& before == Ok::<Request, ArgsError>(Request::Help) ==> one == before
            &&& before == Err::<Request, ArgsError>(ArgsError::InvalidMonths) ==> one == before
        }),
{
    let one = seq![arg];
    let two = seq![arg, number];
    assert(args + one =~= args.push(arg));
    assert(args + two =~= args.push(arg).push(number));
    lemma_scanned(args, one, 0, DEFAULT_MONTHS, false);
    lemma_scanned(args, two, 0, DEFAULT_MONTHS, false);
    let n = args.len() as int;
    let (a, b) = (args.push(arg), args.push(arg).push(number));
    assert(a[n] == arg && b[n] == arg && b[n + 1] == number);
    reveal_strlit("--months");
    reveal_strlit("-m");
    reveal_strlit("--quiet");
    reveal_strlit("-q");
    reveal_strlit("--help");
    reveal_strlit("-h");
    assert("--months"@.len() == 8 && "-m"@.len() == 2 && "--quiet"@.len() == 7 && "-q"@.len() == 2
        && "--help"@.len() == 6 && "-h"@.len() == 2);
    assert("-m"@[1] == 'm' && "-q"@[1] == 'q' && "-h"@[1] == 'h');
    if let Ok(Request::Run { months, quiet }) = request_from(args, 0, DEFAULT_MONTHS, false) {
        reveal_with_fuel(request_from, 3);
        assert(request_from(a, n + 1, months, true) == Ok::<Request, ArgsError>(
            Request::Run { months, quiet: true },
        ));
        assert(request_from(a, n + 1, months, quiet) == Ok::<Request, ArgsError>(
            Request::Run { months, quiet },
        ));
    }
}

} // verus!
