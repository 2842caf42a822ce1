//! `touch`: create files and set their modification time.

use crate::builtins::{about, arg_at, path_message, Handled, Status};
use crate::number::{all_digits, decimal, has_only_digits, lemma_decimal_bound, parse_digits};
use crate::text::{chars_of, push_str, push_text, texts};
use vstd::prelude::*;
use vstd::slice::slice_subrange;

verus! {

/// The year that a date belongs to when years begin in March.
pub open spec fn march_year(year: int, month: int) -> int {
    if month <= 2 {
        year - 1
    } else {
        year
    }
}

/// The number of a month when years begin in March.
pub open spec fn march_month(month: int) -> int {
    if month > 2 {
        month - 3
    } else {
        month + 9
    }
}

/// Days since 1970-01-01 in the Gregorian calendar, extended to all years.
pub open spec fn civil_days(year: int, month: int, day: int) -> int {
    let y = march_year(year, month);
    365 * y + y / 4 - y / 100 + y / 400 + (153 * march_month(month) + 2) / 5 + day - 719469
}

/// Whether [`days_from_civil`] can count a date in its machine integers.
pub open spec fn civil_fits(year: int, month: int, day: int) -> bool {
    let y = march_year(year, month);
    let of_month = (153 * march_month(month) + 2) / 5;
    let of_year = y % 400;
    &&& y - 399 >= i32::MIN
    &&& 153 * march_month(month) + 2 <= u32::MAX
    &&& 1 <= of_month + day
    &&& of_year * 365 + of_year / 4 - of_year / 100 + of_month + day - 1 <= u32::MAX
    &&& of_month + day <= u32::MAX
}

/// Days since 1970-01-01.
pub fn days_from_civil(year: i32, month: u32, day: u32) -> (r: i64)
    requires
        civil_fits(year as int, month as int, day as int),
    ensures
        r == civil_days(year as int, month as int, day as int),
{
    let y: i32 = if month <= 2 {
        year - 1
    } else {
        year
    };
    // Eras of 400 years.
    let shifted: i32 = if y >= 0 {
        y
    } else {
        y - 399
    };
    let era: i32 = shifted / 400;
    assert(era == y as int / 400);
    let yoe: u32 = (y - era * 400) as u32;
    assert(yoe == y as int % 400);
    let mp: u32 = if month > 2 {
        month - 3
    } else {
        month + 9
    };
    let doy: u32 = (153 * mp + 2) / 5 + day - 1;
    let doe: u32 = yoe * 365 + yoe / 4 - yoe / 100 + doy;
    assert(y == 400 * era + yoe);
    assert(y as int / 4 == 100 * era + yoe as int / 4);
    assert(y as int / 100 == 4 * era + yoe as int / 100);
    (era as i64) * 146_097 + (doe as i64) - 719_468
}

/// Whether a year has a 29th of February.
pub open spec fn is_leap(year: int) -> bool {
    year % 4 == 0 && (year % 100 != 0 || year % 400 == 0)
}

/// The length of a month.
pub open spec fn days_in_month(year: int, month: int) -> int {
    if month == 2 {
        if is_leap(year) {
            29
        } else {
            28
        }
    } else if month == 4 || month == 6 || month == 9 || month == 11 {
        30
    } else {
        31
    }
}

/// The day after a date.
pub open spec fn next_day(year: int, month: int, day: int) -> (int, int, int) {
    if day < days_in_month(year, month) {
        (year, month, day + 1)
    } else if month < 12 {
        (year, month + 1, 1)
    } else {
        (year + 1, 1, 1)
    }
}

/// The count starts at 1970-01-01.
pub proof fn law_epoch()
    ensures
        civil_days(1970, 1, 1) == 0,
{
}

proof fn lemma_next_year(y: int)
    ensures
        (y + 1) / 4 == y / 4 + (if (y + 1) % 4 == 0 {
            1int
        } else {
            0
        }),
        (y + 1) / 100 == y / 100 + (if (y + 1) % 100 == 0 {
            1int
        } else {
            0
        }),
        (y + 1) / 400 == y / 400 + (if (y + 1) % 400 == 0 {
            1int
        } else {
            0
        }),
{
}

/// The count goes up by one from each day to the next.
pub proof fn law_days_are_consecutive(year: int, month: int, day: int)
    requires
        1 <= month <= 12,
        1 <= day <= days_in_month(year, month),
    ensures
        ({
            let (y, m, d) = next_day(year, month, day);
            civil_days(y, m, d) == civil_days(year, month, day) + 1
        }),
{
    if day == days_in_month(year, month) && month == 2 {
        lemma_next_year(year - 1);
        if year % 400 == 0 {
            assert(year % 100 == 0);
        }
        if year % 100 == 0 {
            assert(year % 4 == 0);
        }
    }
}

/// The part of a timestamp from character `from` to character `to`, as a number.
pub open spec fn field(s: Seq<char>, from: int, to: int) -> int {
    decimal(s.subrange(from, to))
}

/// The seconds since 1970-01-01 00:00 that a timestamp `YYYYMMDDhhmm` stands for. Days up
/// to 31 are accepted in every month.
pub open spec fn timestamp_seconds(s: Seq<char>) -> Option<int> {
    if s.len() != 12 || !all_digits(s) {
        None
    } else {
        let month = field(s, 4, 6);
        let day = field(s, 6, 8);
        let hour = field(s, 8, 10);
        let minute = field(s, 10, 12);
        if 1 <= month <= 12 && 1 <= day <= 31 && hour <= 23 && minute <= 59 {
            Some(civil_days(field(s, 0, 4), month, day) * 86400 + hour * 3600 + minute * 60)
        } else {
            None
        }
    }
}

/// Reads some digits of a timestamp.
fn read_field(s: &[char], from: usize, to: usize) -> (r: u32)
    requires
        from < to <= s@.len(),
        to - from <= 4,
        all_digits(s@),
    ensures
        r == field(s@, from as int, to as int),
        r <= 9999,
{
    let part = slice_subrange(s, from, to);
    proof {
        assert forall|k: int| 0 <= k < part@.len() implies crate::number::is_digit(
            #[trigger] part@[k],
        ) by {
            assert(crate::number::is_digit(s@[k + from]));
        }
        lemma_decimal_bound(part@);
    }
    match parse_digits(part, 9999) {
        Some(v) => v as u32,
        None => 0,
    }
}

/// The seconds since 1970-01-01 00:00 that a timestamp stands for.
pub fn parse_touch_timestamp(s: &[char]) -> (r: Option<i64>)
    ensures
        timestamp_seconds(s@) == (match r {
            Some(v) => Some(v as int),
            None => None,
        }),
{
    if s.len() != 12 || !has_only_digits(s) {
        return None;
    }
    let year: u32 = read_field(s, 0, 4);
    let month: u32 = read_field(s, 4, 6);
    let day: u32 = read_field(s, 6, 8);
    let hour: u32 = read_field(s, 8, 10);
    let minute: u32 = read_field(s, 10, 12);
    if !(1 <= month && month <= 12) || !(1 <= day && day <= 31) || hour > 23 || minute > 59 {
        return None;
    }
    let days: i64 = days_from_civil(year as i32, month, day);
    Some(days * 86_400 + (hour * 3600 + minute * 60) as i64)
}

/// Why `touch` refuses its arguments. An argument is named by its index.
#[derive(Clone, Copy, Debug, PartialEq, Eq, Structural)]
pub enum TouchError {
    /// `-t` is the last argument.
    TimestampNeedsArgument,
    /// The timestamp is not a date.
    InvalidDate(usize),
    /// An option that is not known.
    UnsupportedOption(usize),
    /// No operands.
    MissingOperand,
}

/// The options of `touch`.
#[derive(Clone, Copy, Debug, PartialEq, Eq, Structural)]
pub struct TouchOptions {
    /// `-m`.
    pub mtime_only: bool,
    /// `-t`: the modification time to set, in seconds since 1970-01-01 00:00.
    pub timestamp: Option<i64>,
}

/// What `touch` is asked to do: its options, and the index of the first operand.
#[derive(Clone, Copy, Debug, PartialEq, Eq, Structural)]
pub struct TouchPlan {
    pub options: TouchOptions,
    pub first: usize,
}

/// The options in `args[i..]` on top of `opts`, and the index of the first operand.
pub open spec fn options_from(args: Seq<Seq<char>>, i: int, opts: TouchOptions) -> Result<
    (TouchOptions, int),
    TouchError,
>
    decreases args.len() - i,
{
    if i >= args.len() {
        Ok((opts, i))
    } else if args[i] == seq!['-', '-'] {
        Ok((opts, i + 1))
    } else if args[i] == seq!['-', 'm'] {
        options_from(args, i + 1, TouchOptions { mtime_only: true, ..opts })
    } else if args[i] == seq!['-', 't'] {
        if i + 1 >= args.len() {
            Err(TouchError::TimestampNeedsArgument)
        } else {
            match timestamp_seconds(args[i + 1]) {
                Some(v) => options_from(
                    args,
                    i + 2,
                    TouchOptions { timestamp: Some(v as i64), ..opts },
                ),
                None => Err(TouchError::InvalidDate((i + 1) as usize)),
            }
        }
    } else if args[i].len() > 0 && args[i][0] == '-' {
        Err(TouchError::UnsupportedOption(i as usize))
    } else {
        Ok((opts, i))
    }
}

/// No options.
pub open spec fn no_options() -> TouchOptions {
    TouchOptions { mtime_only: false, timestamp: None }
}

/// What the arguments of `touch` ask for.
pub open spec fn plan_of(args: Seq<Seq<char>>) -> Result<TouchPlan, TouchError> {
    match options_from(args, 1, no_options()) {
        Err(e) => Err(e),
        Ok((options, first)) => if first == args.len() {
            Err(TouchError::MissingOperand)
        } else {
            Ok(TouchPlan { options, first: first as usize })
        },
    }
}

/// Parse leading options; returns the options and the index of the first operand.
#[verifier::loop_isolation(false)]
pub fn parse_options(args: &[Vec<char>]) -> (r: Result<(TouchOptions, usize), TouchError>)
    requires
        args@.len() > 0,
    ensures
        options_from(texts(args@), 1, no_options()) == (match r {
            Ok((o, first)) => Ok((o, first as int)),
            Err(e) => Err(e),
        }),
        r matches Ok((o, first)) ==> 1 <= first <= args@.len(),
{
    let mut opts = TouchOptions { mtime_only: false, timestamp: None };
    let mut i: usize = 1;
    while i < args.len()
        invariant
            1 <= i <= args@.len(),
            options_from(texts(args@), 1, no_options()) == options_from(
                texts(args@),
                i as int,
                opts,
            ),
        decreases args@.len() - i,
    {
        let arg = args[i].as_slice();
        assert(texts(args@)[i as int] == arg@);
        let dash: bool = arg.len() > 0 && arg[0] == '-';
        if !dash {
            assert(arg@ != seq!['-', '-'] && arg@ != seq!['-', 'm'] && arg@ != seq!['-', 't']) by {
                assert(seq!['-', '-'][0] == '-');
                assert(seq!['-', 'm'][0] == '-');
                assert(seq!['-', 't'][0] == '-');
            }
            return Ok((opts, i));
        }
        let letter: Option<char> = if arg.len() == 2 {
            Some(arg[1])
        } else {
            None
        };
        assert(arg@ == seq!['-', '-'] <==> letter == Some('-')) by {
            if letter == Some('-') {
                assert(arg@ =~= seq!['-', '-']);
            } else {
                assert(seq!['-', '-'][1] == '-');
            }
        }
        assert(arg@ == seq!['-', 'm'] <==> letter == Some('m')) by {
            if letter == Some('m') {
                assert(arg@ =~= seq!['-', 'm']);
            } else {
                assert(seq!['-', 'm'][1] == 'm');
            }
        }
        assert(arg@ == seq!['-', 't'] <==> letter == Some('t')) by {
            if letter == Some('t') {
                assert(arg@ =~= seq!['-', 't']);
            } else {
                assert(seq!['-', 't'][1] == 't');
            }
        }
        match letter {
            Some('-') => {
                return Ok((opts, i + 1));
            },
            Some('m') => {
                opts = TouchOptions { mtime_only: true, timestamp: opts.timestamp };
                i += 1;
            },
            Some('t') => {
                if i + 1 >= args.len() {
                    return Err(TouchError::TimestampNeedsArgument);
                }
                assert(texts(args@)[i + 1] == args@[i + 1]@);
                match parse_touch_timestamp(args[i + 1].as_slice()) {
                    Some(v) => {
                        opts = TouchOptions { mtime_only: opts.mtime_only, timestamp: Some(v) };
                    },
                    None => {
                        return Err(TouchError::InvalidDate(i + 1));
                    },
                }
                i += 2;
            },
            _ => {
                return Err(TouchError::UnsupportedOption(i));
            },
        }
    }
    Ok((opts, i))
}

/// What `touch` is asked to do.
pub fn touch(args: &[Vec<char>]) -> (r: Result<TouchPlan, TouchError>)
    requires
        args@.len() > 0,
    ensures
        r == plan_of(texts(args@)),
        r matches Ok(p) ==> 1 <= p.first < args@.len(),
{
    match parse_options(args) {
        Err(e) => Err(e),
        Ok((options, first)) => {
            if first == args.len() {
                Err(TouchError::MissingOperand)
            } else {
                Ok(TouchPlan { options, first })
            }
        },
    }
}

/// The text that reports an error.
pub open spec fn message_of(e: TouchError, args: Seq<Seq<char>>) -> Seq<char> {
    match e {
        TouchError::TimestampNeedsArgument => "option requires an argument -- t"@,
        TouchError::InvalidDate(i) => "invalid date format: "@ + arg_at(args, i as int),
        TouchError::UnsupportedOption(i) => "unsupported option: "@ + arg_at(args, i as int),
        TouchError::MissingOperand => "missing file operand"@,
    }
}

impl TouchError {
    /// The status to return.
    pub fn status(self) -> (r: Status)
        ensures
            r == Status::InvalidArgs,
    {
        Status::InvalidArgs
    }

    /// The text to report.
    pub fn message(self, args: &[Vec<char>]) -> (r: Vec<char>)
        ensures
            r@ == message_of(self, texts(args@)),
    {
        match self {
            TouchError::TimestampNeedsArgument => chars_of("option requires an argument -- t"),
            TouchError::InvalidDate(i) => about("invalid date format: ", args, i),
            TouchError::UnsupportedOption(i) => about("unsupported option: ", args, i),
            TouchError::MissingOperand => chars_of("missing file operand"),
        }
    }
}

/// What is reported of an operand whose times could not be set.
fn times_message(path: &[char]) -> (r: Vec<char>)
    ensures
        r@ == "setting times of "@ + path@ + " failed"@,
{
    let mut m = chars_of("setting times of ");
    push_text(&mut m, path);
    push_str(&mut m, " failed");
    m
}

/// How far an operand got.
#[derive(Clone, Copy, Debug, PartialEq, Eq, Structural)]
pub enum TouchOutcome {
    Done,
    /// The file could not be created or opened.
    NotOpened,
    /// Its times could not be set.
    TimesNotSet,
}

/// How far an operand got. Times are set only where a timestamp was given; `times_set` tells
/// whether that worked.
pub fn touch_outcome(opened: bool, options: TouchOptions, times_set: bool) -> (r: TouchOutcome)
    ensures
        r == if !opened {
            TouchOutcome::NotOpened
        } else if options.timestamp is Some && !times_set {
            TouchOutcome::TimesNotSet
        } else {
            TouchOutcome::Done
        },
{
    if !opened {
        TouchOutcome::NotOpened
    } else if options.timestamp.is_some() && !times_set {
        TouchOutcome::TimesNotSet
    } else {
        TouchOutcome::Done
    }
}

impl TouchOutcome {
    /// What became of the operand.
    pub fn handled(self) -> (r: Handled)
        ensures
            r == if self == TouchOutcome::Done {
                Handled::Done
            } else {
                Handled::Failed
            },
    {
        match self {
            TouchOutcome::Done => Handled::Done,
            _ => Handled::Failed,
        }
    }

    /// The report about the operand, if there is one.
    pub fn message(self, path: &[char], cause: &str) -> (r: Option<Vec<char>>)
        ensures
            (match r {
                Some(m) => Some(m@),
                None => None,
            }) == (match self {
                TouchOutcome::Done => None,
                TouchOutcome::NotOpened => Some(path@ + ": "@ + cause@),
                TouchOutcome::TimesNotSet => Some("setting times of "@ + path@ + " failed"@),
            }),
    {
        match self {
            TouchOutcome::Done => None,
            TouchOutcome::NotOpened => Some(path_message(path, cause)),
            TouchOutcome::TimesNotSet => Some(times_message(path)),
        }
    }
}

/// Which timestamps are accepted: twelve digits, with a month, a day, an hour and a minute that
/// can be.
pub proof fn law_timestamp_accepted(s: Seq<char>)
    ensures
        timestamp_seconds(s) is Some <==> s.len() == 12 && all_digits(s) && 1 <= decimal(
            s.subrange(4, 6),
        ) <= 12 && 1 <= decimal(s.subrange(6, 8)) <= 31 && decimal(s.subrange(8, 10)) <= 23
            && decimal(s.subrange(10, 12)) <= 59,
{
}

/// Midnight of the first day of 1970 is second zero.
pub proof fn law_timestamp_epoch(s: Seq<char>)
    requires
        s.len() == 12,
        all_digits(s),
        decimal(s.subrange(0, 4)) == 1970,
        decimal(s.subrange(4, 6)) == 1,
        decimal(s.subrange(6, 8)) == 1,
        decimal(s.subrange(8, 10)) == 0,
        decimal(s.subrange(10, 12)) == 0,
    ensures
        timestamp_seconds(s) == Some(0int),
{
    law_epoch();
}

/// Of two timestamps on the same day, the time between them is that between their hours and
/// minutes; a timestamp of the next day at the same time is a day later.
pub proof fn law_timestamp_differences(a: Seq<char>, b: Seq<char>, s: int, t: int)
    requires
        timestamp_seconds(a) == Some(s),
        timestamp_seconds(b) == Some(t),
    ensures
        a.subrange(0, 8) == b.subrange(0, 8) ==> t - s == (decimal(b.subrange(8, 10)) - decimal(
            a.subrange(8, 10),
        )) * 3600 + (decimal(b.subrange(10, 12)) - decimal(a.subrange(10, 12))) * 60,
        decimal(a.subrange(6, 8)) <= days_in_month(
            decimal(a.subrange(0, 4)),
            decimal(a.subrange(4, 6)),
        ) && next_day(
            decimal(a.subrange(0, 4)),
            decimal(a.subrange(4, 6)),
            decimal(a.subrange(6, 8)),
        ) == (
            decimal(b.subrange(0, 4)),
            decimal(b.subrange(4, 6)),
            decimal(b.subrange(6, 8)),
        ) && a.subrange(8, 12) == b.subrange(8, 12) ==> t - s == 86400,
{
    let y = decimal(a.subrange(0, 4));
    let m = decimal(a.subrange(4, 6));
    let d = decimal(a.subrange(6, 8));
    if a.subrange(0, 8) == b.subrange(0, 8) {
        assert(a.subrange(0, 4) =~= a.subrange(0, 8).subrange(0, 4));
        assert(a.subrange(4, 6) =~= a.subrange(0, 8).subrange(4, 6));
        assert(a.subrange(6, 8) =~= a.subrange(0, 8).subrange(6, 8));
        assert(b.subrange(0, 4) =~= b.subrange(0, 8).subrange(0, 4));
        assert(b.subrange(4, 6) =~= b.subrange(0, 8).subrange(4, 6));
        assert(b.subrange(6, 8) =~= b.subrange(0, 8).subrange(6, 8));
    }
    if a.subrange(8, 12) == b.subrange(8, 12) {
        assert(a.subrange(8, 10) =~= a.subrange(8, 12).subrange(0, 2));
        assert(a.subrange(10, 12) =~= a.subrange(8, 12).subrange(2, 4));
        assert(b.subrange(8, 10) =~= b.subrange(8, 12).subrange(0, 2));
        assert(b.subrange(10, 12) =~= b.subrange(8, 12).subrange(2, 4));
    }
    if d <= days_in_month(y, m) {
        law_days_are_consecutive(y, m, d);
    }
}

/// A day further in a month, even beyond its end, is a day later.
pub proof fn law_days_add(year: int, month: int, day: int, more: int)
    ensures
        civil_days(year, month, day + more) == civil_days(year, month, day) + more,
{
}

} // verus!
