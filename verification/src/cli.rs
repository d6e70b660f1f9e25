//! Command-line options.
use crate::text::{push_str, to_chars};
use vstd::prelude::*;
use vstd::string::StringExecFns;

verus! {

/// The help text.
pub const USAGE: &'static str = "otm — Open Task Manager in the terminal

Usage: otm [options]

Options:
  -i, --interval <ms>  refresh interval in milliseconds (default 1500, min 250)
  -h, --help           show this help
  -V, --version        show version

Press ? inside the app for key bindings.";

/// The refresh interval when none is given, in milliseconds.
pub const DEFAULT_INTERVAL_MS: u64 = 1500;

/// The shortest refresh interval accepted, in milliseconds.
pub const MIN_INTERVAL_MS: u64 = 250;

/// What the command line asks for.
#[derive(Clone, Copy, PartialEq, Eq, Structural, Debug)]
pub enum Command {
    /// Run with this refresh interval in milliseconds.
    Run(u64),
    /// Print the help text.
    Help,
    /// Print the version.
    Version,
}

pub open spec fn is_digit(c: char) -> bool {
    '0' <= c && c <= '9'
}

pub open spec fn digit_value(c: char) -> nat {
    (c as u32 - '0' as u32) as nat
}

/// The value of a string of decimal digits.
pub open spec fn decimal_value(s: Seq<char>) -> nat
    decreases s.len(),
{
    if s.len() == 0 {
        0
    } else {
        decimal_value(s.drop_last()) * 10 + digit_value(s.last())
    }
}

/// The digits of a number in the form `u64::from_str` accepts: an optional `+`, then at
/// least one decimal digit and nothing else.
pub open spec fn number_digits(s: Seq<char>) -> Seq<char> {
    if s.len() > 0 && s[0] == '+' {
        s.drop_first()
    } else {
        s
    }
}

/// The number a text denotes, if it is one that fits in a `u64`.
pub open spec fn parse_u64_spec(s: Seq<char>) -> Option<u64> {
    let d = number_digits(s);
    if d.len() > 0 && (forall|i: int| 0 <= i < d.len() ==> is_digit(#[trigger] d[i])) && decimal_value(d)
        <= u64::MAX {
        Some(decimal_value(d) as u64)
    } else {
        None
    }
}

/// Parses a decimal `u64` the way `str::parse::<u64>` does: an optional `+`, then digits,
/// without spaces and without overflow.
pub fn parse_u64(s: &str) -> (r: Option<u64>)
    ensures
        r == parse_u64_spec(s@),
{
    let cs = to_chars(s);
    let start: usize = if cs.len() > 0 && cs[0] == '+' {
        1
    } else {
        0
    };
    let ghost d = number_digits(s@);
    proof {
        assert(d =~= cs@.skip(start as int));
    }
    if start >= cs.len() {
        return None;
    }
    let mut value: u64 = 0;
    let mut i: usize = start;
    while i < cs.len()
        invariant
            start <= i <= cs.len(),
            start < cs.len(),
            cs@ == s@,
            d == cs@.skip(start as int),
            d == number_digits(s@),
            forall|j: int| 0 <= j < i - start ==> is_digit(#[trigger] d[j]),
            value == decimal_value(d.take(i - start)),
        decreases cs.len() - i,
    {
        let c = cs[i];
        proof {
            assert(d.take(i - start + 1).drop_last() =~= d.take(i - start));
            assert(d[i - start] == c);
        }
        if !('0' <= c && c <= '9') {
            proof {
                assert(!is_digit(d[i - start]));
                assert(!(forall|j: int| 0 <= j < d.len() ==> is_digit(#[trigger] d[j])));
            }
            return None;
        }
        let digit = (c as u32 - '0' as u32) as u64;
        proof {
            assert(decimal_value(d.take(i - start + 1)) == value * 10 + digit);
            if forall|j: int| 0 <= j < d.len() ==> is_digit(#[trigger] d[j]) {
                lemma_prefix_le(d, i - start + 1);
            }
        }
        match value.checked_mul(10) {
            Some(v) => match v.checked_add(digit) {
                Some(w) => {
                    value = w;
                },
                None => {
                    return None;
                },
            },
            None => {
                proof {
                    assert(value * 10 + digit > u64::MAX);
                }
                return None;
            },
        }
        i = i + 1;
    }
    proof {
        assert(d.take(i - start) =~= d);
    }
    Some(value)
}

proof fn lemma_prefix_le(d: Seq<char>, k: int)
    requires
        0 <= k <= d.len(),
        forall|j: int| 0 <= j < d.len() ==> is_digit(#[trigger] d[j]),
    ensures
        decimal_value(d) >= decimal_value(d.take(k)),
    decreases d.len(),
{
    if k < d.len() {
        let init = d.drop_last();
        assert(init.take(k) =~= d.take(k));
        assert forall|j: int| 0 <= j < init.len() implies is_digit(#[trigger] init[j]) by {
            assert(init[j] == d[j]);
        }
        lemma_prefix_le(init, k);
        assert(decimal_value(d) == decimal_value(init) * 10 + digit_value(d.last()));
        assert(decimal_value(init) * 10 >= decimal_value(init)) by (nonlinear_arith);
    } else {
        assert(d.take(k) =~= d);
    }
}

/// The outcome of the options: a command, or the message to print before exiting with an
/// error.
pub open spec fn parse_args_spec(args: Seq<Seq<char>>, interval: u64) -> Result<Command, Seq<char>>
    decreases args.len(),
{
    if args.len() == 0 {
        Ok(Command::Run(interval))
    } else {
        let arg = args[0];
        if arg == "-h"@ || arg == "--help"@ {
            Ok(Command::Help)
        } else if arg == "-V"@ || arg == "--version"@ {
            Ok(Command::Version)
        } else if arg == "-i"@ || arg == "--interval"@ {
            if args.len() < 2 {
                Err("--interval needs a value in milliseconds"@)
            } else {
                match parse_u64_spec(args[1]) {
                    Some(ms) => parse_args_spec(
                        args.skip(2),
                        if ms > MIN_INTERVAL_MS {
                            ms
                        } else {
                            MIN_INTERVAL_MS
                        },
                    ),
                    None => Err("invalid interval: "@ + args[1]),
                }
            }
        } else {
            Err("unknown option: "@ + arg + "\n\n"@ + USAGE@)
        }
    }
}

pub open spec fn arg_views(args: Seq<String>) -> Seq<Seq<char>> {
    Seq::new(args.len(), |i: int| args[i]@)
}

fn str_is(s: &String, t: &str) -> (r: bool)
    ensures
        r == (s@ == t@),
{
    let u = String::from_str(t);
    *s == u
}

/// Reads the options (the arguments after the program name): `-h`/`--help`, `-V`/`--version`
/// and `-i`/`--interval <ms>` (at least 250 ms). Help and version take effect as soon as they
/// are read.
pub fn parse_args(args: &Vec<String>) -> (r: Result<Command, String>)
    ensures
        match r {
            Ok(c) => parse_args_spec(arg_views(args@), DEFAULT_INTERVAL_MS) == Ok::<Command, Seq<char>>(c),
            Err(m) => parse_args_spec(arg_views(args@), DEFAULT_INTERVAL_MS) == Err::<Command, Seq<char>>(m@),
        },
{
    let mut interval: u64 = DEFAULT_INTERVAL_MS;
    let mut i: usize = 0;
    let ghost all = arg_views(args@);
    proof {
        assert(all.skip(0) =~= all);
    }
    while i < args.len()
        invariant
            i <= args.len(),
            all == arg_views(args@),
            parse_args_spec(all, DEFAULT_INTERVAL_MS) == parse_args_spec(all.skip(i as int), interval),
        decreases args.len() - i,
    {
        let ghost rest = all.skip(i as int);
        proof {
            assert(rest[0] == args@[i as int]@);
        }
        let arg = &args[i];
        if str_is(arg, "-h") || str_is(arg, "--help") {
            return Ok(Command::Help);
        } else if str_is(arg, "-V") || str_is(arg, "--version") {
            return Ok(Command::Version);
        } else if str_is(arg, "-i") || str_is(arg, "--interval") {
            if i + 1 >= args.len() {
                return Err(String::from_str("--interval needs a value in milliseconds"));
            }
            let value = &args[i + 1];
            proof {
                assert(rest[1] == value@);
                assert(rest.skip(2) =~= all.skip(i + 2));
            }
            match parse_u64(value.as_str()) {
                Some(ms) => {
                    interval = if ms > MIN_INTERVAL_MS {
                        ms
                    } else {
                        MIN_INTERVAL_MS
                    };
                },
                None => {
                    let mut m = String::from_str("invalid interval: ");
                    push_str(&mut m, value.as_str());
                    return Err(m);
                },
            }
            i = i + 2;
        } else {
            let mut m = String::from_str("unknown option: ");
            push_str(&mut m, arg.as_str());
            push_str(&mut m, "\n\n");
            push_str(&mut m, USAGE);
            return Err(m);
        }
    }
    Ok(Command::Run(interval))
}

} // verus!
