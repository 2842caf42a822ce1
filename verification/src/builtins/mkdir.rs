//! `mkdir`: make directories.

use crate::builtins::{about, arg_at, Status};
use crate::text::{chars_of, texts};
use vstd::prelude::*;

verus! {

/// Why `mkdir` refuses its arguments. An argument is named by its index.
#[derive(Clone, Copy, Debug, PartialEq, Eq, Structural)]
pub enum MkdirError {
    /// `-m` is the last argument.
    ModeNeedsArgument,
    /// An option that is not known.
    UnsupportedOption(usize),
    /// No operands.
    MissingOperand,
}

/// What `mkdir` is asked to do.
#[derive(Clone, Copy, Debug, PartialEq, Eq, Structural)]
pub struct MkdirPlan {
    /// `-p`: make missing parents too, and accept directories that exist.
    pub parents: bool,
    /// The index of the first operand.
    pub first: usize,
}

/// Whether the options in `args[i..]`, after those that gave `parents`, ask for parents,
/// and the index of the first operand. `-m` takes a mode, which is ignored; any other
/// option with a `p` in it counts as `-p`; `--` ends the options.
pub open spec fn options_from(args: Seq<Seq<char>>, i: int, parents: bool) -> Result<
    (bool, int),
    MkdirError,
>
    decreases args.len() - i,
{
    if i >= args.len() {
        Ok((parents, i))
    } else if args[i] == seq!['-', '-'] {
        Ok((parents, i + 1))
    } else if args[i] == seq!['-', 'm'] {
        if i + 1 >= args.len() {
            Err(MkdirError::ModeNeedsArgument)
        } else {
            options_from(args, i + 2, parents)
        }
    } else if args[i].len() > 0 && args[i][0] == '-' {
        if args[i].contains('p') {
            options_from(args, i + 1, true)
        } else {
            Err(MkdirError::UnsupportedOption(i as usize))
        }
    } else {
        Ok((parents, i))
    }
}

/// What the arguments of `mkdir` ask for.
pub open spec fn plan_of(args: Seq<Seq<char>>) -> Result<MkdirPlan, MkdirError> {
    match options_from(args, 1, false) {
        Err(e) => Err(e),
        Ok((parents, first)) => if first == args.len() {
            Err(MkdirError::MissingOperand)
        } else {
            Ok(MkdirPlan { parents, first: first as usize })
        },
    }
}

/// Parse leading options; returns whether parents are made and the index of the first
/// operand.
#[verifier::loop_isolation(false)]
pub fn parse_options(args: &[Vec<char>]) -> (r: Result<(bool, usize), MkdirError>)
    requires
        args@.len() > 0,
    ensures
        options_from(texts(args@), 1, false) == (match r {
            Ok((p, first)) => Ok((p, first as int)),
            Err(e) => Err(e),
        }),
        r matches Ok((p, first)) ==> 1 <= first <= args@.len(),
{
    let mut parents: bool = false;
    let mut i: usize = 1;
    while i < args.len()
        invariant
            1 <= i <= args@.len(),
            options_from(texts(args@), 1, false) == options_from(texts(args@), i as int, parents),
        decreases args@.len() - i,
    {
        let arg = args[i].as_slice();
        assert(texts(args@)[i as int] == arg@);
        if arg.len() == 2 && arg[0] == '-' && arg[1] == '-' {
            assert(arg@ =~= seq!['-', '-']);
            return Ok((parents, i + 1));
        }
        assert(arg@ != seq!['-', '-']) by {
            if arg@ == seq!['-', '-'] {
                assert(arg@.len() == 2 && arg@[0] == '-' && arg@[1] == '-');
            }
        }
        if arg.len() == 2 && arg[0] == '-' && arg[1] == 'm' {
            assert(arg@ =~= seq!['-', 'm']);
            // Mode bits have no effect here; accept and skip the mode operand.
            if i + 1 >= args.len() {
                return Err(MkdirError::ModeNeedsArgument);
            }
            i += 2;
        } else {
            assert(arg@ != seq!['-', 'm']) by {
                if arg@ == seq!['-', 'm'] {
                    assert(arg@.len() == 2 && arg@[0] == '-' && arg@[1] == 'm');
                }
            }
            if !(arg.len() > 0 && arg[0] == '-') {
                return Ok((parents, i));
            }
            if crate::text::holds(arg, 'p') {
                parents = true;
                i += 1;
            } else {
                return Err(MkdirError::UnsupportedOption(i));
            }
        }
    }
    Ok((parents, i))
}

/// What `mkdir` is asked to do.
pub fn mkdir(args: &[Vec<char>]) -> (r: Result<MkdirPlan, MkdirError>)
    requires
        args@.len() > 0,
    ensures
        r == plan_of(texts(args@)),
        r matches Ok(p) ==> 1 <= p.first < args@.len(),
{
    match parse_options(args) {
        Err(e) => Err(e),
        Ok((parents, first)) => {
            if first == args.len() {
                Err(MkdirError::MissingOperand)
            } else {
                Ok(MkdirPlan { parents, first })
            }
        },
    }
}

/// The text that reports an error.
pub open spec fn message_of(e: MkdirError, args: Seq<Seq<char>>) -> Seq<char> {
    match e {
        MkdirError::ModeNeedsArgument => "option requires an argument -- m"@,
        MkdirError::UnsupportedOption(i) => "unsupported option: "@ + arg_at(args, i as int),
        MkdirError::MissingOperand => "missing operand"@,
    }
}

impl MkdirError {
    /// The status to return.
    pub fn status(self) -> (r: Status)
        ensures
            r == Status::InvalidArgs,
    {
        Status::InvalidArgs
    }

    /// The text to report.
    pub fn message(self, args: &[Vec<char>]) -> (r: Vec<char>)
        ensures
            r@ == message_of(self, texts(args@)),
    {
        match self {
            MkdirError::ModeNeedsArgument => chars_of("option requires an argument -- m"),
            MkdirError::UnsupportedOption(i) => about("unsupported option: ", args, i),
            MkdirError::MissingOperand => chars_of("missing operand"),
        }
    }
}

} // verus!
