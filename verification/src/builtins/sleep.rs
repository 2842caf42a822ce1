//! `sleep`: wait for the sum of some intervals, each a number with a unit.
//!
//! The numbers have fractions; what they add up to is computed outside.

use crate::builtins::{about, arg_at, Status};
use crate::number::{float_text_ok, is_float_text};
use crate::text::{chars_of, copy_text, is_text, is_white_space, texts, trim, trimmed};
use vstd::prelude::*;
use vstd::slice::slice_subrange;

verus! {

/// The longest time to wait before looking for a signal, in nanoseconds.
pub const LONGEST_NAP: u64 = 50_000_000;

/// The seconds in a unit of time.
pub open spec fn unit_seconds(c: char) -> Option<u32> {
    if c == 's' {
        Some(1)
    } else if c == 'm' {
        Some(60)
    } else if c == 'h' {
        Some(3600)
    } else if c == 'd' {
        Some(86400)
    } else {
        None
    }
}

/// An interval: a number, and the seconds in its unit.
pub struct Interval {
    pub number: Vec<char>,
    pub seconds: u32,
}

/// The number and the seconds of its unit in the text of an interval: `NUMBER[smhd]`, white
/// space around it aside.
pub open spec fn interval_parts(s: Seq<char>) -> (Seq<char>, u32) {
    let t = trimmed(s);
    if t.len() > 0 && unit_seconds(t.last()) is Some {
        (t.drop_last(), unit_seconds(t.last())->0)
    } else {
        (t, 1)
    }
}

/// The interval that a text writes, if its number is one.
pub open spec fn interval_of(s: Seq<char>) -> Option<(Seq<char>, u32)> {
    if is_float_text(interval_parts(s).0) {
        Some(interval_parts(s))
    } else {
        None
    }
}

/// Reads the seconds in a unit.
fn read_unit(c: char) -> (r: Option<u32>)
    ensures
        r == unit_seconds(c),
{
    if c == 's' {
        Some(1)
    } else if c == 'm' {
        Some(60)
    } else if c == 'h' {
        Some(3600)
    } else if c == 'd' {
        Some(86400)
    } else {
        None
    }
}

/// Parse a single `NUMBER[smhd]` interval. The number is one in the notation of floating-point
/// numbers; that it is finite and not negative is left to be tested.
pub fn parse_interval(arg: &[char]) -> (r: Option<Interval>)
    ensures
        interval_of(arg@) == (match r {
            Some(i) => Some((i.number@, i.seconds)),
            None => None,
        }),
{
    let t = trim(arg);
    let mut end: usize = t.len();
    let mut seconds: u32 = 1;
    if end > 0 {
        if let Some(s) = read_unit(t[end - 1]) {
            seconds = s;
            end -= 1;
        }
    }
    let number = slice_subrange(t, 0, end);
    assert(number@ =~= interval_parts(arg@).0);
    if float_text_ok(number) {
        Some(Interval { number: copy_text(number), seconds })
    } else {
        None
    }
}

/// Why `sleep` does not wait.
#[derive(Clone, Copy, Debug, PartialEq, Eq, Structural)]
pub enum SleepError {
    /// No operand.
    MissingOperand,
    /// The argument at this index is no interval.
    InvalidInterval(usize),
}

/// The index of the first operand: a `--` before the operands is skipped.
pub open spec fn first_operand(args: Seq<Seq<char>>) -> int {
    if args.len() > 1 && args[1] == "--"@ {
        2
    } else {
        1
    }
}

/// The index of the first interval to wait for.
pub fn sleep(args: &[Vec<char>]) -> (r: Result<usize, SleepError>)
    requires
        args@.len() > 0,
    ensures
        r == if first_operand(texts(args@)) < args@.len() {
            Ok::<usize, SleepError>(first_operand(texts(args@)) as usize)
        } else {
            Err(SleepError::MissingOperand)
        },
{
    let mut first: usize = 1;
    if args.len() > 1 {
        assert(texts(args@)[1] == args@[1]@);
        if is_text(args[1].as_slice(), "--") {
            first = 2;
        }
    }
    if first < args.len() {
        Ok(first)
    } else {
        Err(SleepError::MissingOperand)
    }
}

/// The message for an error.
pub open spec fn message_of(e: SleepError, args: Seq<Seq<char>>) -> Seq<char> {
    match e {
        SleepError::MissingOperand => "missing operand"@,
        SleepError::InvalidInterval(i) => "invalid time interval: "@ + arg_at(args, i as int),
    }
}

impl SleepError {
    /// The status to return.
    pub fn status(self) -> (r: Status)
        ensures
            r == Status::InvalidArgs,
    {
        Status::InvalidArgs
    }

    /// The text to report.
    pub fn message(self, args: &[Vec<char>]) -> (r: Vec<char>)
        ensures
            r@ == message_of(self, texts(args@)),
    {
        match self {
            SleepError::MissingOperand => chars_of("missing operand"),
            SleepError::InvalidInterval(i) => about("invalid time interval: ", args, i),
        }
    }
}

/// How long to wait next, in nanoseconds, while `remaining` are left; nothing at the end, or
/// after a signal that asks for it.
pub fn next_nap(remaining: u64, cancelled: bool) -> (r: Option<u64>)
    ensures
        r == if remaining == 0 || cancelled {
            None
        } else if remaining < LONGEST_NAP {
            Some(remaining)
        } else {
            Some(LONGEST_NAP)
        },
{
    if remaining == 0 || cancelled {
        None
    } else if remaining < LONGEST_NAP {
        Some(remaining)
    } else {
        Some(LONGEST_NAP)
    }
}

/// A number without a unit counts seconds.
pub proof fn law_default_unit_is_seconds(s: Seq<char>)
    requires
        s.len() > 0,
        !is_white_space(s[0]),
        !is_white_space(s.last()),
        unit_seconds(s.last()) is None,
    ensures
        interval_of(s) == interval_of(s.push('s')),
{
    assert(s.push('s').drop_last() =~= s);
}

/// A minute has sixty seconds, an hour sixty minutes, a day twenty-four hours: the unit is the
/// letter behind the number.
pub proof fn law_units(number: Seq<char>)
    requires
        number.len() > 0,
        !is_white_space(number[0]),
        is_float_text(number),
    ensures
        interval_of(number.push('s')) == Some((number, 1u32)),
        interval_of(number.push('m')) == Some((number, 60u32)),
        interval_of(number.push('h')) == Some((number, 3600u32)),
        interval_of(number.push('d')) == Some((number, 86400u32)),
{
    assert(number.push('s').drop_last() =~= number);
    assert(number.push('m').drop_last() =~= number);
    assert(number.push('h').drop_last() =~= number);
    assert(number.push('d').drop_last() =~= number);
}

/// A `--` in front of the operands is skipped, and nothing else is.
pub proof fn law_first_operand(cmd: Seq<char>, operand: Seq<char>, rest: Seq<Seq<char>>)
    requires
        operand != seq!['-', '-'],
    ensures
        first_operand(seq![cmd, seq!['-', '-']] + rest) == 2,
        first_operand(seq![cmd, operand] + rest) == 1,
        first_operand(seq![cmd]) == 1,
{
    reveal_strlit("--");
    assert("--"@ =~= seq!['-', '-']);
    assert((seq![cmd, seq!['-', '-']] + rest)[1] == seq!['-', '-']);
    assert((seq![cmd, operand] + rest)[1] == operand);
}

} // verus!
