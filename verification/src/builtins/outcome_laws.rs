//! What comes of an operand and of a command, and what is said about it.

use crate::builtins::kill;
use crate::builtins::kill::{
    choose_signal, exit_after_self_signal, list_line, KillError, Lookup, Signal, SignalSpec,
};
use crate::builtins::mkdir;
use crate::builtins::mkdir::MkdirError;
use crate::builtins::mktemp;
use crate::builtins::mktemp::{after_attempt, seed, AfterAttempt, Attempt, MktempError};
use crate::builtins::rm;
use crate::builtins::rm::RmError;
use crate::builtins::seq::SeqError;
use crate::builtins::sleep;
use crate::builtins::sleep::{next_nap, SleepError};
use crate::builtins::touch;
use crate::builtins::touch::{touch_outcome, TouchError, TouchOptions, TouchOutcome};
use crate::builtins::Status;
use crate::number::{law_int_text_reads_back, signed_value};
use crate::text::has_suffix;
use vstd::prelude::*;

verus! {

/// A signal that was named is the one that is sent, and SIGTERM only where none was named; an
/// unknown one is an error whatever the operands are, and no operands are an error otherwise.
pub proof fn law_signal_choice(
    s: SignalSpec,
    named: Signal,
    parsed: Option<Signal>,
    term: Signal,
    operands: usize,
    unknown: Result<Signal, KillError>,
    given: Result<Signal, KillError>,
    default: Result<Signal, KillError>,
)
    requires
        call_ensures(choose_signal, (Some(s), None, term, operands), unknown),
        call_ensures(choose_signal, (Some(s), Some(named), term, operands), given),
        call_ensures(choose_signal, (None, parsed, term, operands), default),
    ensures
        unknown == Err::<Signal, KillError>(KillError::UnknownSignal(s)),
        operands > 0 ==> given == Ok::<Signal, KillError>(named) && default == Ok::<
            Signal,
            KillError,
        >(term),
        operands == 0 ==> given == Err::<Signal, KillError>(KillError::NoOperands) && default
            == Err::<Signal, KillError>(KillError::NoOperands),
{
}

/// The shell exits, with the signal above 128, only where a signal that ends it went to itself or
/// to its group.
pub proof fn law_own_signals(pid: i32, own_pid: i32, signal: i32, ends: bool, r: Option<i32>)
    requires
        signal <= i32::MAX - 128,
        call_ensures(exit_after_self_signal, (pid, own_pid, signal, ends), r),
    ensures
        r is Some <==> ends && (pid == 0 || pid == own_pid),
        r matches Some(status) ==> status - signal == 128,
{
}

/// `kill -l` gives the name for a number and the number for a name.
pub proof fn law_list_lines(code: i32, name: Vec<char>, numeric: bool)
    ensures
        list_line(Lookup { found: Some((code, name)), numeric: true }) == Some(name@),
        list_line(Lookup { found: Some((code, name)), numeric: false }) matches Some(line)
            && signed_value(line) == Some(code as int),
        list_line(Lookup { found: None, numeric }) is None,
{
    law_int_text_reads_back(code as int);
}

/// A file is touched if it could be opened and its times, where any were to be set, were set.
pub proof fn law_touched(opened: bool, options: TouchOptions, set: bool, r: TouchOutcome)
    requires
        call_ensures(touch_outcome, (opened, options, set), r),
    ensures
        r == TouchOutcome::Done <==> opened && (options.timestamp is None || set),
        r == TouchOutcome::NotOpened <==> !opened,
{
}

/// A name that exists is followed by another, up to the limit of tries; any other failure ends
/// the search at once, and a success too.
pub proof fn law_attempts(tries: u32, made: AfterAttempt, exists_already: AfterAttempt, failed:
    AfterAttempt)
    requires
        call_ensures(after_attempt, (tries, Attempt::Created), made),
        call_ensures(after_attempt, (tries, Attempt::AlreadyExists), exists_already),
        call_ensures(after_attempt, (tries, Attempt::Failed), failed),
    ensures
        made == AfterAttempt::Print,
        failed == AfterAttempt::Fail,
        exists_already == AfterAttempt::Retry <==> tries < 256,
        exists_already == AfterAttempt::GiveUp <==> tries >= 256,
{
}

/// Two searches at one time in one process start from different states if they are counted
/// differently.
pub proof fn law_seeds_differ(nanos: Option<u64>, pid: u32, a: u64, b: u64, x: u64, y: u64)
    requires
        a != b,
        call_ensures(seed, (nanos, pid, a), x),
        call_ensures(seed, (nanos, pid, b), y),
    ensures
        x != y,
{
    let high = (pid as u64) << 32u64;
    let base: u64 = match nanos {
        Some(n) => n,
        None => mktemp::GOLDEN,
    };
    let front = base ^ high;
    assert(a != b ==> front ^ a != front ^ b) by (bit_vector);
}

/// A nap is never longer than what remains nor than a twentieth of a second, and something is
/// slept as long as something remains; a signal ends the naps.
pub proof fn law_naps(remaining: u64, nap: Option<u64>, cancelled: Option<u64>)
    requires
        call_ensures(next_nap, (remaining, false), nap),
        call_ensures(next_nap, (remaining, true), cancelled),
    ensures
        cancelled is None,
        nap is None <==> remaining == 0,
        nap matches Some(n) ==> 0 < n <= remaining && n <= 50_000_000 && (n == remaining || n
            == 50_000_000),
{
}

/// Which errors of `seq` lie in the numbers, and which in how it was called.
pub proof fn law_seq_status(e: SeqError)
    ensures
        crate::builtins::seq::status_of(e) == Status::CmdError <==> e is InvalidNumber || e is ZeroIncrement,
        crate::builtins::seq::status_of(e) == Status::InvalidArgs <==> !(e is InvalidNumber) && !(e
            is ZeroIncrement),
{
}

/// That no name was found is the only error of `mktemp` that does not lie in how it was called.
pub proof fn law_mktemp_status(e: MktempError)
    ensures
        mktemp::status_of(e) == Status::CmdError <==> e is Exhausted,
        mktemp::status_of(e) == Status::InvalidArgs <==> !(e is Exhausted),
{
}

/// The end of a text made of two is its second part.
proof fn lemma_ends(a: Seq<char>, b: Seq<char>)
    ensures
        has_suffix(a + b, b),
{
    assert((a + b).skip(a.len() as int) =~= b);
}

/// A message about an argument names that argument at its end.
pub proof fn law_messages_name_the_argument(args: Seq<Seq<char>>, i: usize)
    requires
        i < args.len(),
    ensures
        has_suffix(rm::message_of(RmError::UnsupportedOption(i), args), args[i as int]),
        has_suffix(mkdir::message_of(MkdirError::UnsupportedOption(i), args), args[i as int]),
        has_suffix(mktemp::message_of(MktempError::UnsupportedOption(i), args), args[i as int]),
        has_suffix(mktemp::message_of(MktempError::TooFewX(i), args), args[i as int]),
        has_suffix(touch::message_of(TouchError::UnsupportedOption(i), args), args[i as int]),
        has_suffix(touch::message_of(TouchError::InvalidDate(i), args), args[i as int]),
        has_suffix(sleep::message_of(SleepError::InvalidInterval(i), args), args[i as int]),
        has_suffix(crate::builtins::seq::message_of(SeqError::UnsupportedOption(i), args), args[i as int]),
        has_suffix(crate::builtins::seq::message_of(SeqError::InvalidNumber(i), args), args[i as int]),
{
    let a = args[i as int];
    lemma_ends("unsupported option: "@, a);
    lemma_ends("too few X's in template: "@, a);
    lemma_ends("invalid date format: "@, a);
    lemma_ends("invalid time interval: "@, a);
    lemma_ends("invalid floating point argument: "@, a);
}

/// The messages of `kill` begin with the command, and one about a signal holds the text that was
/// to name it.
pub proof fn law_kill_messages(args: Seq<Seq<char>>, s: SignalSpec)
    requires
        args.len() > 0,
        s.arg < args.len(),
        s.skip <= args[s.arg as int].len(),
    ensures
        ({
            let cmd = args[0];
            let n = cmd.len() as int;
            let m = kill::message_of(KillError::UnknownSignal(s), args);
            let text = args[s.arg as int].skip(s.skip as int);
            &&& m.take(n) == cmd
            &&& m.subrange(n + 2, n + 2 + text.len()) == text
            &&& kill::message_of(KillError::SignalMissing, args).take(n) == cmd
            &&& kill::message_of(KillError::NoOperands, args).take(n) == cmd
        }),
{
    reveal_strlit(": ");
    let cmd = args[0];
    let n = cmd.len() as int;
    let text = args[s.arg as int].skip(s.skip as int);
    let m = kill::message_of(KillError::UnknownSignal(s), args);
    assert(": "@.len() == 2);
    assert(m =~= cmd + ": "@ + text + ": unknown signal"@);
    assert(m.take(n) =~= cmd);
    assert(m.subrange(n + 2, n + 2 + text.len()) =~= text);
    assert(kill::message_of(KillError::SignalMissing, args).take(n) =~= cmd);
    assert(kill::message_of(KillError::NoOperands, args).take(n) =~= cmd);
}

} // verus!
