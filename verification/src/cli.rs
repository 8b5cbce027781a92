//! Command-line configuration: which input to scan, how to print results,
//! whether to redact, and how verbose to be.
//!
//! The grammar: `--input`/`-i` takes the path to scan (required);
//! `--output`/`-o` takes `json` or `text`; `--redact`/`-r` switches
//! redaction on; `--verbose` and the bundled short form `-v`, `-vv`, …
//! raise the verbosity, saturating at its maximum.  Anything else is
//! rejected.

use vstd::prelude::*;

verus! {

/// Supported output formats.
#[derive(Copy, Clone, PartialEq, Eq, PartialOrd, Ord, Debug, Structural)]
pub enum OutputFormat {
    Json,
    Text,
}

/// A parsed command line.
#[derive(Debug)]
pub struct Cli {
    pub input: String,
    pub output: OutputFormat,
    pub redact: bool,
    pub verbose: u8,
}

/// Why a command line was rejected.
#[derive(Debug)]
pub enum CliError {
    MissingInput,
    MissingValue(String),
    InvalidValue(String),
    UnknownArgument(String),
}

/// The parse state: the options seen so far, with their defaults before
/// anything is seen.
pub struct CliModel {
    pub input: Option<Seq<char>>,
    pub output: OutputFormat,
    pub redact: bool,
    pub verbose: u8,
}

/// What parsing a command line yields.
pub enum ParseOutcome {
    Accepted(CliModel),
    MissingInput,
    MissingValue(Seq<char>),
    InvalidValue(Seq<char>),
    UnknownArgument(Seq<char>),
}

/// A bundled short verbosity flag: `-` followed by one or more `v`.
pub open spec fn is_verbose_flag(a: Seq<char>) -> bool {
    &&& a.len() >= 2
    &&& a[0] == '-'
    &&& forall|k: int| 1 <= k < a.len() ==> a[k] == 'v'
}

/// Raise the verbosity by `k`, saturating at the maximum.
pub open spec fn bump_verbose(v: u8, k: int) -> u8 {
    if v + k > 255 {
        255
    } else {
        (v + k) as u8
    }
}

/// The defaults before any option is seen: JSON output, no redaction,
/// quiet.
pub open spec fn initial_cli_state() -> CliModel {
    CliModel { input: None, output: OutputFormat::Json, redact: false, verbose: 0 }
}

/// A finished parse is accepted exactly when the input was given.
pub open spec fn finish_parse(st: CliModel) -> ParseOutcome {
    match st.input {
        Some(_) => ParseOutcome::Accepted(st),
        None => ParseOutcome::MissingInput,
    }
}

/// Parse the arguments from index `i` on, starting in state `st`.
pub open spec fn parse_from_state(args: Seq<Seq<char>>, i: int, st: CliModel) -> ParseOutcome
    decreases args.len() - i,
{
    if !(0 <= i < args.len()) {
        finish_parse(st)
    } else {
        let a = args[i];
        if a == "--input"@ || a == "-i"@ {
            if i + 1 < args.len() {
                parse_from_state(
                    args,
                    i + 2,
                    CliModel { input: Some(args[i + 1]), ..st },
                )
            } else {
                ParseOutcome::MissingValue(a)
            }
        } else if a == "--output"@ || a == "-o"@ {
            if i + 1 >= args.len() {
                ParseOutcome::MissingValue(a)
            } else if args[i + 1] == "json"@ {
                parse_from_state(args, i + 2, CliModel { output: OutputFormat::Json, ..st })
            } else if args[i + 1] == "text"@ {
                parse_from_state(args, i + 2, CliModel { output: OutputFormat::Text, ..st })
            } else {
                ParseOutcome::InvalidValue(args[i + 1])
            }
        } else if a == "--redact"@ || a == "-r"@ {
            parse_from_state(args, i + 1, CliModel { redact: true, ..st })
        } else if a == "--verbose"@ {
            parse_from_state(
                args,
                i + 1,
                CliModel { verbose: bump_verbose(st.verbose, 1), ..st },
            )
        } else if is_verbose_flag(a) {
            parse_from_state(
                args,
                i + 1,
                CliModel { verbose: bump_verbose(st.verbose, a.len() - 1), ..st },
            )
        } else {
            ParseOutcome::UnknownArgument(a)
        }
    }
}

/// The views of a list of argument strings.
pub open spec fn arg_views(args: Seq<String>) -> Seq<Seq<char>> {
    args.map_values(|a: String| a@)
}

/// How an executable parse result realises a parse outcome.
pub open spec fn parse_result_matches(r: Result<Cli, CliError>, o: ParseOutcome) -> bool {
    match (r, o) {
        (Ok(c), ParseOutcome::Accepted(m)) => {
            &&& m.input == Some(c.input@)
            &&& c.output == m.output
            &&& c.redact == m.redact
            &&& c.verbose == m.verbose
        },
        (Err(CliError::MissingInput), ParseOutcome::MissingInput) => true,
        (Err(CliError::MissingValue(s)), ParseOutcome::MissingValue(t)) => s@ == t,
        (Err(CliError::InvalidValue(s)), ParseOutcome::InvalidValue(t)) => s@ == t,
        (Err(CliError::UnknownArgument(s)), ParseOutcome::UnknownArgument(t)) => s@ == t,
        _ => false,
    }
}

/// Character-wise string equality.
fn str_eq(a: &str, b: &str) -> (r: bool)
    ensures
        r == (a@ == b@),
{
    let n = a.unicode_len();
    if n != b.unicode_len() {
        return false;
    }
    let mut k: usize = 0;
    while k < n
        invariant
            k <= n,
            n == a@.len(),
            n == b@.len(),
            forall|t: int| 0 <= t < k ==> a@[t] == b@[t],
        decreases n - k,
    {
        if a.get_char(k) != b.get_char(k) {
            return false;
        }
        k = k + 1;
    }
    proof {
        assert(a@ =~= b@);
    }
    true
}

/// Whether `a` is a bundled short verbosity flag (`-v`, `-vv`, …).
fn is_verbose_arg(a: &str) -> (r: bool)
    ensures
        r == is_verbose_flag(a@),
{
    let n = a.unicode_len();
    if n < 2 {
        return false;
    }
    if a.get_char(0) != '-' {
        return false;
    }
    let mut k: usize = 1;
    while k < n
        invariant
            1 <= k <= n,
            n == a@.len(),
            a@[0] == '-',
            forall|t: int| 1 <= t < k ==> a@[t] == 'v',
        decreases n - k,
    {
        if a.get_char(k) != 'v' {
            proof {
                assert(a@[k as int] != 'v');
            }
            return false;
        }
        k = k + 1;
    }
    true
}

impl Cli {
    /// Parse a command line; the first element is the program name and is
    /// ignored.  Exactly the well-formed lines with an input are accepted;
    /// each kind of mistake is reported with the argument that caused it.
    pub fn parse_from(args: &Vec<String>) -> (r: Result<Cli, CliError>)
        ensures
            parse_result_matches(
                r,
                parse_from_state(arg_views(args@), 1, initial_cli_state()),
            ),
    {
        let ghost argv = arg_views(args@);
        let ghost goal = parse_from_state(argv, 1, initial_cli_state());
        let mut input: Option<String> = None;
        let mut output: OutputFormat = OutputFormat::Json;
        let mut redact: bool = false;
        let mut verbose: u8 = 0;
        let mut i: usize = 1;
        let n = args.len();
        while i < n
            invariant
                1 <= i,
                n == args@.len(),
                argv == arg_views(args@),
                goal == parse_from_state(argv, 1, initial_cli_state()),
                goal == parse_from_state(
                    argv,
                    i as int,
                    CliModel {
                        input: match input {
                            Some(s) => Some(s@),
                            None => None,
                        },
                        output,
                        redact,
                        verbose,
                    },
                ),
            decreases n - i,
        {
            let arg = &args[i];
            proof {
                assert(argv[i as int] == args@[i as int]@);
            }
            if str_eq(arg.as_str(), "--input") || str_eq(arg.as_str(), "-i") {
                if i + 1 < n {
                    proof {
                        assert(argv[i as int + 1] == args@[i as int + 1]@);
                    }
                    input = Some(args[i + 1].clone());
                    i = i + 2;
                } else {
                    return Err(CliError::MissingValue(arg.clone()));
                }
            } else if str_eq(arg.as_str(), "--output") || str_eq(arg.as_str(), "-o") {
                if i + 1 >= n {
                    return Err(CliError::MissingValue(arg.clone()));
                }
                let value = &args[i + 1];
                proof {
                    assert(argv[i as int + 1] == args@[i as int + 1]@);
                }
                if str_eq(value.as_str(), "json") {
                    output = OutputFormat::Json;
                    i = i + 2;
                } else if str_eq(value.as_str(), "text") {
                    output = OutputFormat::Text;
                    i = i + 2;
                } else {
                    return Err(CliError::InvalidValue(value.clone()));
                }
            } else if str_eq(arg.as_str(), "--redact") || str_eq(arg.as_str(), "-r") {
                redact = true;
                i = i + 1;
            } else if str_eq(arg.as_str(), "--verbose") {
                verbose = if verbose == 255 {
                    255
                } else {
                    verbose + 1
                };
                i = i + 1;
            } else if is_verbose_arg(arg.as_str()) {
                let count = arg.as_str().unicode_len() - 1;
                verbose = if count > (255 - verbose) as usize {
                    255
                } else {
                    verbose + (count as u8)
                };
                i = i + 1;
            } else {
                return Err(CliError::UnknownArgument(arg.clone()));
            }
        }
        match input {
            Some(s) => Ok(Cli { input: s, output, redact, verbose }),
            None => Err(CliError::MissingInput),
        }
    }
}

} // verus!
