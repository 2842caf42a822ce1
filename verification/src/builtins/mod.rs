//! The decisions behind the builtins: option parsing, what to do for each operand, and
//! the status to return.

use crate::text::{chars_of, copy_text, push_str, push_text, texts};
use vstd::prelude::*;

pub mod kill;
pub mod kill_laws;
pub mod mkdir;
pub mod mktemp;
pub mod option_laws;
pub mod outcome_laws;
pub mod render_man;
pub mod rm;
pub mod seq;
pub mod seq_format;
pub mod seq_laws;
pub mod seq_option_laws;
pub mod sleep;
pub mod touch;

verus! {

/// How a builtin fails.
#[derive(Clone, Copy, Debug, PartialEq, Eq, Structural)]
pub enum Status {
    /// The command could not do its work.
    CmdError,
    /// The command was called with arguments it does not accept.
    InvalidArgs,
}

/// What became of an operand.
#[derive(Clone, Copy, Debug, PartialEq, Eq, Structural)]
pub enum Handled {
    /// It was dealt with.
    Done,
    /// It was not, and nothing is said about that.
    PassedOver,
    /// It was not, which is reported.
    Failed,
}

/// Whether an operand makes the command fail.
pub open spec fn is_failure(outcome: Handled) -> bool {
    outcome == Handled::Failed
}

/// The status of a command after some of its operands: it failed exactly if one of them did.
pub open spec fn status_over(outcomes: Seq<Handled>) -> Result<(), Status> {
    if exists|i: int| 0 <= i < outcomes.len() && is_failure(#[trigger] outcomes[i]) {
        Err(Status::CmdError)
    } else {
        Ok(())
    }
}

/// What became of an operand whose failure is always reported.
pub fn handled(ok: bool) -> (r: Handled)
    ensures
        r == if ok {
            Handled::Done
        } else {
            Handled::Failed
        },
{
    if ok {
        Handled::Done
    } else {
        Handled::Failed
    }
}

/// The status of a command that worked through its operands.
pub fn overall(outcomes: &[Handled]) -> (r: Result<(), Status>)
    ensures
        r == status_over(outcomes@),
        r is Ok <==> forall|i: int|
            0 <= i < outcomes@.len() ==> !is_failure(#[trigger] outcomes@[i]),
{
    let mut i: usize = 0;
    while i < outcomes.len()
        invariant
            i <= outcomes@.len(),
            forall|k: int| 0 <= k < i ==> !is_failure(#[trigger] outcomes@[k]),
        decreases outcomes@.len() - i,
    {
        if outcomes[i] == Handled::Failed {
            assert(is_failure(outcomes@[i as int]));
            return Err(Status::CmdError);
        }
        i += 1;
    }
    Ok(())
}

/// The index of the operand to deal with next, among `count` arguments whose operands begin at
/// `first`: each is tried once, in order, whatever became of those before it.
pub fn next_operand(first: usize, outcomes: &[Handled], count: usize) -> (r: Option<usize>)
    requires
        first <= count,
    ensures
        r == if first + outcomes@.len() < count {
            Some((first + outcomes@.len()) as usize)
        } else {
            None
        },
{
    if outcomes.len() < count - first {
        Some(first + outcomes.len())
    } else {
        None
    }
}

/// The report about an operand: there is one exactly if it failed.
pub fn failure_message(outcome: Handled, path: &[char], cause: &str) -> (r: Option<Vec<char>>)
    ensures
        (match r {
            Some(m) => Some(m@),
            None => None,
        }) == if is_failure(outcome) {
            Some(path@ + ": "@ + cause@)
        } else {
            None
        },
{
    if outcome == Handled::Failed {
        Some(path_message(path, cause))
    } else {
        None
    }
}

/// The argument at an index, or nothing if there is no such argument.
pub open spec fn arg_at(args: Seq<Seq<char>>, i: int) -> Seq<char> {
    if 0 <= i < args.len() {
        args[i]
    } else {
        Seq::empty()
    }
}

/// A text followed by the argument at an index.
pub fn about(what: &str, args: &[Vec<char>], i: usize) -> (r: Vec<char>)
    ensures
        r@ == what@ + arg_at(texts(args@), i as int),
{
    let mut m = chars_of(what);
    if i < args.len() {
        push_text(&mut m, args[i].as_slice());
    }
    assert(m@ =~= what@ + arg_at(texts(args@), i as int));
    m
}

/// What is reported of an operand that could not be dealt with.
pub fn path_message(path: &[char], cause: &str) -> (r: Vec<char>)
    ensures
        r@ == path@ + ": "@ + cause@,
{
    let mut m = copy_text(path);
    push_str(&mut m, ": ");
    push_str(&mut m, cause);
    m
}

/// Operands are dealt with one after the other, and the command fails if one of them does.
pub proof fn law_operands_in_order(
    first: usize,
    outcomes: &[Handled],
    count: usize,
    next: Option<usize>,
    status: Result<(), Status>,
)
    requires
        first <= count,
        call_ensures(next_operand, (first, outcomes, count), next),
        call_ensures(overall, (outcomes,), status),
    ensures
        next matches Some(i) ==> i - first == outcomes@.len() && i < count,
        next is None <==> outcomes@.len() >= count - first,
        status is Err <==> outcomes@.contains(Handled::Failed),
        status matches Err(e) ==> e == Status::CmdError,
{
    if status is Err {
        let k = choose|i: int| 0 <= i < outcomes@.len() && is_failure(#[trigger] outcomes@[i]);
        assert(outcomes@[k] == Handled::Failed);
    }
    if outcomes@.contains(Handled::Failed) {
        let k = choose|i: int| 0 <= i < outcomes@.len() && outcomes@[i] == Handled::Failed;
        assert(is_failure(outcomes@[k]));
    }
}

} // verus!
