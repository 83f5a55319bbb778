//! The argument vector: the program's name, then a mode, a threshold and a
//! command.

use crate::text::str_eq;
use crate::threshold::{decimal_of, is_decimal, is_negative, Decimal, Threshold, ThresholdError};
use vstd::prelude::*;

verus! {

/// Which of the three ratios is held against the threshold.
#[derive(Clone, Copy, Debug, PartialEq, Eq, Structural)]
pub enum ComparationMode {
    RAM,
    SWAP,
    COMB,
}

/// Why an argument vector is turned down.
#[derive(Clone, Copy, Debug, PartialEq, Eq, Structural)]
pub enum InputError {
    /// One of the arguments is a help flag.
    HelpRequested,
    /// There are not exactly three arguments behind the program's name.
    WrongArgumentCount,
    /// The first argument is none of `RAM`, `SWAP`, `COMB`.
    UnknownMode,
    /// The second argument is not a decimal number.
    ThresholdMalformed,
    /// The second argument is a number, but not strictly between 0 and 100.
    ThresholdOutOfRange,
}

/// The mode that `name` spells, letter for letter.
pub open spec fn mode_named(name: Seq<char>) -> Option<ComparationMode> {
    if name == "RAM"@ {
        Some(ComparationMode::RAM)
    } else if name == "SWAP"@ {
        Some(ComparationMode::SWAP)
    } else if name == "COMB"@ {
        Some(ComparationMode::COMB)
    } else {
        None
    }
}

/// Whether `arg` is one of the six flags that ask for help.
pub open spec fn is_help_flag(arg: Seq<char>) -> bool {
    ||| arg == "-h"@
    ||| arg == "/h"@
    ||| arg == "/help"@
    ||| arg == "--help"@
    ||| arg == "/?"@
    ||| arg == "-?"@
}

/// Whether any of `args`, the program's name included, is a help flag.
pub open spec fn asks_for_help(args: Seq<Seq<char>>) -> bool {
    exists|i: int| 0 <= i < args.len() && is_help_flag(#[trigger] args[i])
}

/// The arguments as sequences of characters.
pub open spec fn arg_views(args: Seq<String>) -> Seq<Seq<char>> {
    Seq::new(args.len(), |i: int| args[i]@)
}

/// What a valid argument vector asks for: the view of an `Invocation`.
pub struct Request {
    pub mode: ComparationMode,
    pub threshold: Decimal,
    pub command: Seq<char>,
}

/// What the argument vector `args` amounts to. The checks are made in this
/// order, and the first that fails names the error: no help flag anywhere;
/// four entries; a known mode; a threshold that is a decimal number; its
/// value strictly between 0 and 100. The command is taken as it stands.
pub open spec fn checked(args: Seq<Seq<char>>) -> Result<Request, InputError> {
    if asks_for_help(args) {
        Err(InputError::HelpRequested)
    } else if args.len() != 4 {
        Err(InputError::WrongArgumentCount)
    } else if mode_named(args[1]) is None {
        Err(InputError::UnknownMode)
    } else if !is_decimal(args[2]) {
        Err(InputError::ThresholdMalformed)
    } else if is_negative(args[2]) || !decimal_of(args[2]).in_range() {
        Err(InputError::ThresholdOutOfRange)
    } else {
        Ok(Request { mode: mode_named(args[1])->0, threshold: decimal_of(args[2]), command: args[3] })
    }
}

impl<'a> TryFrom<&'a str> for ComparationMode {
    type Error = InputError;

    /// The mode that `value` spells; any other string is an unknown mode.
    fn try_from(value: &'a str) -> (r: Result<ComparationMode, InputError>)
        ensures
            r == match mode_named(value@) {
                Some(mode) => Ok::<ComparationMode, InputError>(mode),
                None => Err(InputError::UnknownMode),
            },
    {
        if str_eq(value, "RAM") {
            Ok(ComparationMode::RAM)
        } else if str_eq(value, "SWAP") {
            Ok(ComparationMode::SWAP)
        } else if str_eq(value, "COMB") {
            Ok(ComparationMode::COMB)
        } else {
            Err(InputError::UnknownMode)
        }
    }
}

impl<'a> vstd::std_specs::convert::TryFromSpecImpl<&'a str> for ComparationMode {
    open spec fn obeys_try_from_spec() -> bool {
        true
    }

    open spec fn try_from_spec(value: &'a str) -> Result<ComparationMode, InputError> {
        match mode_named(value@) {
            Some(mode) => Ok(mode),
            None => Err(InputError::UnknownMode),
        }
    }
}

/// Whether `arg` is a help flag.
fn help_flag(arg: &str) -> (b: bool)
    ensures
        b == is_help_flag(arg@),
{
    str_eq(arg, "-h") || str_eq(arg, "/h") || str_eq(arg, "/help") || str_eq(arg, "--help")
        || str_eq(arg, "/?") || str_eq(arg, "-?")
}

/// Whether the argument vector asks for help: whether any of its entries,
/// the program's name included, is one of `-h`, `/h`, `/help`, `--help`, `/?`,
/// `-?`.
pub fn argvec_asks_for_help(args: &Vec<String>) -> (help: bool)
    ensures
        help == asks_for_help(arg_views(args@)),
{
    let ghost views = arg_views(args@);
    let mut i: usize = 0;
    while i < args.len()
        invariant
            i <= args.len(),
            views == arg_views(args@),
            forall|k: int| 0 <= k < i ==> !is_help_flag(#[trigger] views[k]),
        decreases args.len() - i,
    {
        if help_flag(args[i].as_str()) {
            assert(is_help_flag(views[i as int]));
            return true;
        }
        i += 1;
    }
    false
}

/// A mode, a threshold and a command: what a valid argument vector holds.
#[derive(Clone, Debug, PartialEq, Eq)]
pub struct Invocation {
    pub mode: ComparationMode,
    pub threshold: Threshold,
    pub command: String,
}

impl View for Invocation {
    type V = Request;

    open spec fn view(&self) -> Request {
        Request { mode: self.mode, threshold: self.threshold@, command: self.command@ }
    }
}

/// Checks the argument vector, the program's name first. It is `Ok` exactly
/// where `checked` is, and then holds the mode, the threshold and the third
/// argument unchanged; otherwise it is the error that `checked` names.
pub fn validate(args: &Vec<String>) -> (r: Result<Invocation, InputError>)
    ensures
        match r {
            Ok(invocation) => checked(arg_views(args@)) == Ok::<Request, InputError>(invocation@),
            Err(e) => checked(arg_views(args@)) == Err::<Request, InputError>(e),
        },
{
    let ghost views = arg_views(args@);
    if argvec_asks_for_help(args) {
        return Err(InputError::HelpRequested);
    }
    if args.len() != 4 {
        return Err(InputError::WrongArgumentCount);
    }
    assert(views[1] == args@[1]@ && views[2] == args@[2]@ && views[3] == args@[3]@);
    let mode = match ComparationMode::try_from(args[1].as_str()) {
        Ok(mode) => mode,
        Err(e) => {
            return Err(e);
        },
    };
    let threshold = match Threshold::parse(args[2].as_str()) {
        Ok(threshold) => threshold,
        Err(ThresholdError::Malformed) => {
            return Err(InputError::ThresholdMalformed);
        },
        Err(ThresholdError::OutOfRange) => {
            return Err(InputError::ThresholdOutOfRange);
        },
    };
    Ok(Invocation { mode, threshold, command: args[3].clone() })
}

} // verus!
