//! `rm`: remove files and directories.

use crate::builtins::{about, arg_at, is_failure, status_over, Handled, Status};
use crate::text::{chars_of, texts};
use vstd::prelude::*;

verus! {

/// The options of `rm`.
#[derive(Clone, Copy, Debug, PartialEq, Eq, Structural)]
pub struct RmOptions {
    /// `-f`: no operands are fine.
    pub force: bool,
    /// `-r` or `-R`: directories are removed with what they hold.
    pub recursive: bool,
}

/// Why `rm` refuses its arguments. An argument is named by its index.
#[derive(Clone, Copy, Debug, PartialEq, Eq, Structural)]
pub enum RmError {
    /// An option with an unknown letter.
    UnsupportedOption(usize),
    /// No operands.
    MissingOperand,
}

/// What `rm` is asked to do: its options, and the index of the first operand.
#[derive(Clone, Copy, Debug, PartialEq, Eq, Structural)]
pub struct RmPlan {
    pub options: RmOptions,
    pub first: usize,
}

/// The options after the letters `flags[j..]`, or nothing if one is unknown.
pub open spec fn flags_from(flags: Seq<char>, j: int, opts: RmOptions) -> Option<RmOptions>
    decreases flags.len() - j,
{
    if j >= flags.len() {
        Some(opts)
    } else if flags[j] == 'f' {
        flags_from(flags, j + 1, RmOptions { force: true, ..opts })
    } else if flags[j] == 'r' || flags[j] == 'R' {
        flags_from(flags, j + 1, RmOptions { recursive: true, ..opts })
    } else {
        None
    }
}

/// The options in `args[i..]` on top of `opts`, and the index of the first operand.
/// `--` ends the options; a lone `-` is an operand.
pub open spec fn options_from(args: Seq<Seq<char>>, i: int, opts: RmOptions) -> Result<
    (RmOptions, int),
    RmError,
>
    decreases args.len() - i,
{
    if i >= args.len() {
        Ok((opts, i))
    } else if args[i] == seq!['-', '-'] {
        Ok((opts, i + 1))
    } else if args[i].len() >= 2 && args[i][0] == '-' {
        match flags_from(args[i], 1, opts) {
            Some(o) => options_from(args, i + 1, o),
            None => Err(RmError::UnsupportedOption(i as usize)),
        }
    } else {
        Ok((opts, i))
    }
}

/// What the arguments of `rm` ask for.
pub open spec fn plan_of(args: Seq<Seq<char>>) -> Result<RmPlan, RmError> {
    match options_from(args, 1, RmOptions { force: false, recursive: false }) {
        Err(e) => Err(e),
        Ok((options, first)) => if first == args.len() && !options.force {
            Err(RmError::MissingOperand)
        } else {
            Ok(RmPlan { options, first: first as usize })
        },
    }
}

/// Reads the letters of one option argument.
#[verifier::loop_isolation(false)]
fn parse_flags(arg: &[char], opts: RmOptions) -> (r: Option<RmOptions>)
    ensures
        r == flags_from(arg@, 1, opts),
{
    let mut o = opts;
    let mut j: usize = 1;
    while j < arg.len()
        invariant
            1 <= j,
            flags_from(arg@, 1, opts) == flags_from(arg@, j as int, o),
        decreases arg@.len() - j,
    {
        if arg[j] == 'f' {
            o = RmOptions { force: true, recursive: o.recursive };
        } else if arg[j] == 'r' || arg[j] == 'R' {
            o = RmOptions { force: o.force, recursive: true };
        } else {
            return None;
        }
        j += 1;
    }
    Some(o)
}

/// Parse leading options; returns the options and the index of the first operand.
#[verifier::loop_isolation(false)]
pub fn parse_options(args: &[Vec<char>]) -> (r: Result<(RmOptions, usize), RmError>)
    requires
        args@.len() > 0,
    ensures
        options_from(texts(args@), 1, (RmOptions { force: false, recursive: false })) == (match r {
            Ok((o, first)) => Ok((o, first as int)),
            Err(e) => Err(e),
        }),
        r matches Ok((o, first)) ==> 1 <= first <= args@.len(),
{
    let mut opts = RmOptions { force: false, recursive: false };
    let ghost all = options_from(texts(args@), 1, opts);
    let mut i: usize = 1;
    while i < args.len()
        invariant
            1 <= i <= args@.len(),
            all == options_from(texts(args@), i as int, opts),
        decreases args@.len() - i,
    {
        let arg = args[i].as_slice();
        assert(texts(args@)[i as int] == arg@);
        if arg.len() == 2 && arg[0] == '-' && arg[1] == '-' {
            assert(arg@ =~= seq!['-', '-']);
            return Ok((opts, i + 1));
        }
        assert(arg@ != seq!['-', '-']) by {
            if arg@ == seq!['-', '-'] {
                assert(arg@.len() == 2 && arg@[0] == '-' && arg@[1] == '-');
            }
        }
        if !(arg.len() >= 2 && arg[0] == '-') {
            return Ok((opts, i));
        }
        match parse_flags(arg, opts) {
            Some(o) => {
                opts = o;
            },
            None => {
                return Err(RmError::UnsupportedOption(i));
            },
        }
        i += 1;
    }
    Ok((opts, i))
}

/// What `rm` is asked to do. With `-f` there may be nothing to do.
pub fn rm(args: &[Vec<char>]) -> (r: Result<RmPlan, RmError>)
    requires
        args@.len() > 0,
    ensures
        r == plan_of(texts(args@)),
        r matches Ok(p) ==> 1 <= p.first <= args@.len(),
{
    match parse_options(args) {
        Err(e) => Err(e),
        Ok((options, first)) => {
            if first == args.len() && !options.force {
                Err(RmError::MissingOperand)
            } else {
                Ok(RmPlan { options, first })
            }
        },
    }
}

/// What a look at an operand, without following links, found.
#[derive(Clone, Copy, Debug, PartialEq, Eq, Structural)]
pub enum Found {
    Directory,
    Other,
    /// The look failed; the operand is known not to exist or not.
    Failed { not_found: bool },
}

/// What to do about an operand.
#[derive(Clone, Copy, Debug, PartialEq, Eq, Structural)]
pub enum RmAction {
    /// Remove a directory and what it holds.
    RemoveTree,
    /// Remove an empty directory.
    RemoveDirectory,
    /// Remove a file.
    RemoveFile,
    /// Nothing; the operand counts as removed.
    Nothing,
    /// Treat the failed look as the failure to remove the operand.
    Fail,
}

/// What to do about an operand.
pub open spec fn action_for(found: Found, options: RmOptions) -> RmAction {
    match found {
        Found::Directory => if options.recursive {
            RmAction::RemoveTree
        } else {
            RmAction::RemoveDirectory
        },
        Found::Other => RmAction::RemoveFile,
        Found::Failed { not_found } => if options.force && not_found {
            RmAction::Nothing
        } else {
            RmAction::Fail
        },
    }
}

/// Whether a failure to remove an operand is reported. One that did not exist is passed
/// over, also where only the system's error code (2: no such file, 3: no such path) says so.
pub open spec fn reports(not_found: bool, os_code: Option<i32>) -> bool {
    !(not_found || os_code == Some(2i32) || os_code == Some(3i32))
}

/// Decides what to do about an operand.
pub fn action(found: Found, options: RmOptions) -> (r: RmAction)
    ensures
        r == action_for(found, options),
{
    match found {
        Found::Directory => {
            if options.recursive {
                RmAction::RemoveTree
            } else {
                RmAction::RemoveDirectory
            }
        },
        Found::Other => RmAction::RemoveFile,
        Found::Failed { not_found } => {
            if options.force && not_found {
                RmAction::Nothing
            } else {
                RmAction::Fail
            }
        },
    }
}

/// Whether a failure to remove an operand is reported.
pub fn is_reported(not_found: bool, os_code: Option<i32>) -> (r: bool)
    ensures
        r == reports(not_found, os_code),
{
    if not_found {
        return false;
    }
    match os_code {
        Some(code) => code != 2 && code != 3,
        None => true,
    }
}

/// How the removal of an operand ended.
#[derive(Clone, Copy, Debug, PartialEq, Eq, Structural)]
pub enum Removal {
    Done,
    /// It failed, because the operand does not exist or not, with the system's error code.
    Failed { not_found: bool, os_code: Option<i32> },
}

/// What became of an operand.
pub open spec fn outcome_of(removal: Removal) -> Handled {
    match removal {
        Removal::Done => Handled::Done,
        Removal::Failed { not_found, os_code } => if reports(not_found, os_code) {
            Handled::Failed
        } else {
            Handled::PassedOver
        },
    }
}

/// What became of an operand.
pub fn rm_outcome(removal: Removal) -> (r: Handled)
    ensures
        r == outcome_of(removal),
{
    match removal {
        Removal::Done => Handled::Done,
        Removal::Failed { not_found, os_code } => {
            if is_reported(not_found, os_code) {
                Handled::Failed
            } else {
                Handled::PassedOver
            }
        },
    }
}

/// The text that reports an error.
pub open spec fn message_of(e: RmError, args: Seq<Seq<char>>) -> Seq<char> {
    match e {
        RmError::UnsupportedOption(i) => "unsupported option: "@ + arg_at(args, i as int),
        RmError::MissingOperand => "missing operand"@,
    }
}

impl RmError {
    /// The status to return.
    pub fn status(self) -> (r: Status)
        ensures
            r == Status::InvalidArgs,
    {
        Status::InvalidArgs
    }

    /// The text to report.
    pub fn message(self, args: &[Vec<char>]) -> (r: Vec<char>)
        ensures
            r@ == message_of(self, texts(args@)),
    {
        match self {
            RmError::UnsupportedOption(i) => about("unsupported option: ", args, i),
            RmError::MissingOperand => chars_of("missing operand"),
        }
    }
}

/// An operand that does not exist never makes `rm` fail, with or without `-f`: there is
/// nothing to do, or the failure is passed over.
pub proof fn law_missing_operand_is_no_failure(options: RmOptions, os_code: Option<i32>)
    ensures
        action_for(Found::Failed { not_found: true }, options) == RmAction::Nothing || (action_for(
            Found::Failed { not_found: true },
            options,
        ) == RmAction::Fail && !reports(true, os_code)),
{
}

/// `rm` fails exactly if some removal failed other than because its operand did not exist.
pub proof fn law_status_of_removals(removals: Seq<Removal>)
    ensures
        status_over(removals.map_values(|m: Removal| outcome_of(m))) == if exists|i: int|
            0 <= i < removals.len() && ((#[trigger] removals[i]) matches Removal::Failed {
                not_found,
                os_code,
            } && reports(not_found, os_code)) {
            Err::<(), Status>(Status::CmdError)
        } else {
            Ok(())
        },
{
    let outcomes = removals.map_values(|m: Removal| outcome_of(m));
    assert forall|i: int| 0 <= i < removals.len() implies #[trigger] outcomes[i] == outcome_of(
        #[trigger] removals[i],
    ) by {}
    if status_over(outcomes) is Err {
        let i = choose|i: int| 0 <= i < outcomes.len() && is_failure(
            #[trigger] outcomes[i],
        );
        assert(outcome_of(removals[i]) == Handled::Failed);
    }
    if exists|i: int|
        0 <= i < removals.len() && ((#[trigger] removals[i]) matches Removal::Failed {
            not_found,
            os_code,
        } && reports(not_found, os_code)) {
        let i = choose|i: int|
            0 <= i < removals.len() && ((#[trigger] removals[i]) matches Removal::Failed {
                not_found,
                os_code,
            } && reports(not_found, os_code));
        assert(is_failure(outcomes[i]));
    }
}

/// What is done to an operand: a directory is removed with what it holds only if that was asked
/// for, and other files are removed alone; what is not there is passed over only if forced.
pub proof fn law_actions(options: RmOptions, not_found: bool)
    ensures
        action_for(Found::Directory, options) == RmAction::RemoveTree <==> options.recursive,
        action_for(Found::Directory, options) == RmAction::RemoveDirectory <==> !options.recursive,
        action_for(Found::Other, options) == RmAction::RemoveFile,
        action_for(Found::Failed { not_found }, options) == RmAction::Nothing <==> options.force
            && not_found,
        action_for(Found::Failed { not_found }, options) == RmAction::Fail <==> !(options.force
            && not_found),
{
}

/// A failure is reported unless it says, in one way or another, that there is nothing to remove.
pub proof fn law_reports(not_found: bool, code: i32)
    ensures
        reports(false, None),
        !reports(true, None),
        !reports(true, Some(code)),
        reports(false, Some(code)) <==> code != 2 && code != 3,
        outcome_of(Removal::Done) == Handled::Done,
        outcome_of(Removal::Failed { not_found, os_code: Some(code) }) != Handled::Done,
        outcome_of(Removal::Failed { not_found, os_code: Some(code) }) == Handled::Failed
            <==> reports(not_found, Some(code)),
{
}

} // verus!
