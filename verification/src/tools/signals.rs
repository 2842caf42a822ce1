//! Signal names and numbers.

use crate::number::{
    all_digits, int_text, is_digit, law_int_text_reads_back, parse_i32, signed_value,
    unsigned_value, within,
};
use crate::text::{
    ascii_upper, begins_with, chars_of, has_prefix, is_text, is_white_space, to_upper_text, trim,
    trim_end, trim_start, trimmed, upper_text,
};
use vstd::prelude::*;
use vstd::slice::slice_subrange;

verus! {

/// The number of the signal with a name, written in upper case without `SIG`.
pub open spec fn number_of(name: Seq<char>) -> Option<i32> {
    if name == "HUP"@ {
        Some(1)
    } else if name == "INT"@ {
        Some(2)
    } else if name == "QUIT"@ {
        Some(3)
    } else if name == "ILL"@ {
        Some(4)
    } else if name == "TRAP"@ {
        Some(5)
    } else if name == "ABRT"@ || name == "IOT"@ {
        Some(6)
    } else if name == "BUS"@ {
        Some(7)
    } else if name == "FPE"@ {
        Some(8)
    } else if name == "KILL"@ {
        Some(9)
    } else if name == "USR1"@ {
        Some(10)
    } else if name == "SEGV"@ {
        Some(11)
    } else if name == "USR2"@ {
        Some(12)
    } else if name == "PIPE"@ {
        Some(13)
    } else if name == "ALRM"@ {
        Some(14)
    } else if name == "TERM"@ {
        Some(15)
    } else if name == "STKFLT"@ {
        Some(16)
    } else if name == "CHLD"@ || name == "CLD"@ {
        Some(17)
    } else if name == "CONT"@ {
        Some(18)
    } else if name == "STOP"@ {
        Some(19)
    } else if name == "TSTP"@ {
        Some(20)
    } else if name == "TTIN"@ {
        Some(21)
    } else if name == "TTOU"@ {
        Some(22)
    } else if name == "URG"@ {
        Some(23)
    } else if name == "XCPU"@ {
        Some(24)
    } else if name == "XFSZ"@ {
        Some(25)
    } else if name == "VTALRM"@ {
        Some(26)
    } else if name == "PROF"@ {
        Some(27)
    } else if name == "WINCH"@ {
        Some(28)
    } else if name == "IO"@ || name == "POLL"@ {
        Some(29)
    } else if name == "PWR"@ {
        Some(30)
    } else if name == "SYS"@ {
        Some(31)
    } else {
        None
    }
}

/// The name of the signal with a number from 1 to 31, without `SIG`.
pub open spec fn name_of(n: int) -> Seq<char> {
    if n == 1 {
        "HUP"@
    } else if n == 2 {
        "INT"@
    } else if n == 3 {
        "QUIT"@
    } else if n == 4 {
        "ILL"@
    } else if n == 5 {
        "TRAP"@
    } else if n == 6 {
        "ABRT"@
    } else if n == 7 {
        "BUS"@
    } else if n == 8 {
        "FPE"@
    } else if n == 9 {
        "KILL"@
    } else if n == 10 {
        "USR1"@
    } else if n == 11 {
        "SEGV"@
    } else if n == 12 {
        "USR2"@
    } else if n == 13 {
        "PIPE"@
    } else if n == 14 {
        "ALRM"@
    } else if n == 15 {
        "TERM"@
    } else if n == 16 {
        "STKFLT"@
    } else if n == 17 {
        "CHLD"@
    } else if n == 18 {
        "CONT"@
    } else if n == 19 {
        "STOP"@
    } else if n == 20 {
        "TSTP"@
    } else if n == 21 {
        "TTIN"@
    } else if n == 22 {
        "TTOU"@
    } else if n == 23 {
        "URG"@
    } else if n == 24 {
        "XCPU"@
    } else if n == 25 {
        "XFSZ"@
    } else if n == 26 {
        "VTALRM"@
    } else if n == 27 {
        "PROF"@
    } else if n == 28 {
        "WINCH"@
    } else if n == 29 {
        "IO"@
    } else if n == 30 {
        "PWR"@
    } else {
        "SYS"@
    }
}

/// A text without the prefix `SIG`.
pub open spec fn without_sig(s: Seq<char>) -> Seq<char> {
    if has_prefix(s, "SIG"@) {
        s.skip(3)
    } else {
        s
    }
}

/// The signal that a text names or numbers.
pub open spec fn signal_of(s: Seq<char>) -> Option<i32> {
    let t = trimmed(s);
    match within(signed_value(t), i32::MIN as int, i32::MAX as int) {
        Some(n) => Some(n as i32),
        None => number_of(without_sig(upper_text(t))),
    }
}

/// The number of the signal with a name.
fn find_number(name: &[char]) -> (r: Option<i32>)
    ensures
        r == number_of(name@),
{
    if is_text(name, "HUP") {
        Some(1)
    } else if is_text(name, "INT") {
        Some(2)
    } else if is_text(name, "QUIT") {
        Some(3)
    } else if is_text(name, "ILL") {
        Some(4)
    } else if is_text(name, "TRAP") {
        Some(5)
    } else if is_text(name, "ABRT") || is_text(name, "IOT") {
        Some(6)
    } else if is_text(name, "BUS") {
        Some(7)
    } else if is_text(name, "FPE") {
        Some(8)
    } else if is_text(name, "KILL") {
        Some(9)
    } else if is_text(name, "USR1") {
        Some(10)
    } else if is_text(name, "SEGV") {
        Some(11)
    } else if is_text(name, "USR2") {
        Some(12)
    } else if is_text(name, "PIPE") {
        Some(13)
    } else if is_text(name, "ALRM") {
        Some(14)
    } else if is_text(name, "TERM") {
        Some(15)
    } else if is_text(name, "STKFLT") {
        Some(16)
    } else if is_text(name, "CHLD") || is_text(name, "CLD") {
        Some(17)
    } else if is_text(name, "CONT") {
        Some(18)
    } else if is_text(name, "STOP") {
        Some(19)
    } else if is_text(name, "TSTP") {
        Some(20)
    } else if is_text(name, "TTIN") {
        Some(21)
    } else if is_text(name, "TTOU") {
        Some(22)
    } else if is_text(name, "URG") {
        Some(23)
    } else if is_text(name, "XCPU") {
        Some(24)
    } else if is_text(name, "XFSZ") {
        Some(25)
    } else if is_text(name, "VTALRM") {
        Some(26)
    } else if is_text(name, "PROF") {
        Some(27)
    } else if is_text(name, "WINCH") {
        Some(28)
    } else if is_text(name, "IO") || is_text(name, "POLL") {
        Some(29)
    } else if is_text(name, "PWR") {
        Some(30)
    } else if is_text(name, "SYS") {
        Some(31)
    } else {
        None
    }
}

/// The name of the signal with a number from 1 to 31, without `SIG`.
pub fn signal_name(n: usize) -> (r: &'static str)
    requires
        1 <= n <= 31,
    ensures
        r@ == name_of(n as int),
{
    if n == 1 {
        "HUP"
    } else if n == 2 {
        "INT"
    } else if n == 3 {
        "QUIT"
    } else if n == 4 {
        "ILL"
    } else if n == 5 {
        "TRAP"
    } else if n == 6 {
        "ABRT"
    } else if n == 7 {
        "BUS"
    } else if n == 8 {
        "FPE"
    } else if n == 9 {
        "KILL"
    } else if n == 10 {
        "USR1"
    } else if n == 11 {
        "SEGV"
    } else if n == 12 {
        "USR2"
    } else if n == 13 {
        "PIPE"
    } else if n == 14 {
        "ALRM"
    } else if n == 15 {
        "TERM"
    } else if n == 16 {
        "STKFLT"
    } else if n == 17 {
        "CHLD"
    } else if n == 18 {
        "CONT"
    } else if n == 19 {
        "STOP"
    } else if n == 20 {
        "TSTP"
    } else if n == 21 {
        "TTIN"
    } else if n == 22 {
        "TTOU"
    } else if n == 23 {
        "URG"
    } else if n == 24 {
        "XCPU"
    } else if n == 25 {
        "XFSZ"
    } else if n == 26 {
        "VTALRM"
    } else if n == 27 {
        "PROF"
    } else if n == 28 {
        "WINCH"
    } else if n == 29 {
        "IO"
    } else if n == 30 {
        "PWR"
    } else {
        "SYS"
    }
}

/// Map a signal name (with or without the `SIG` prefix) or number to its number.
pub fn sig_from_spec(s: &[char]) -> (r: Option<i32>)
    ensures
        r == signal_of(s@),
{
    let t = trim(s);
    if let Some(n) = parse_i32(t) {
        return Some(n);
    }
    let u = to_upper_text(t);
    let sig = chars_of("SIG");
    proof {
        reveal_strlit("SIG");
    }
    if begins_with(u.as_slice(), sig.as_slice()) {
        assert(u@.subrange(3, u@.len() as int) =~= u@.skip(3));
        find_number(slice_subrange(u.as_slice(), 3, u.len()))
    } else {
        find_number(u.as_slice())
    }
}

/// Each of the 31 names leads back to its number.
pub proof fn law_names_lead_back(n: int)
    requires
        1 <= n <= 31,
    ensures
        number_of(name_of(n)) == Some(n as i32),
{
    reveal_strlit("HUP");
    assert("HUP"@.len() == 3 && "HUP"@[0] == 'H' && "HUP"@[1] == 'U' && "HUP"@[2] == 'P');
    reveal_strlit("INT");
    assert("INT"@.len() == 3 && "INT"@[0] == 'I' && "INT"@[1] == 'N' && "INT"@[2] == 'T');
    reveal_strlit("QUIT");
    assert("QUIT"@.len() == 4 && "QUIT"@[0] == 'Q' && "QUIT"@[1] == 'U' && "QUIT"@[2] == 'I' && "QUIT"@[3] == 'T');
    reveal_strlit("ILL");
    assert("ILL"@.len() == 3 && "ILL"@[0] == 'I' && "ILL"@[1] == 'L' && "ILL"@[2] == 'L');
    reveal_strlit("TRAP");
    assert("TRAP"@.len() == 4 && "TRAP"@[0] == 'T' && "TRAP"@[1] == 'R' && "TRAP"@[2] == 'A' && "TRAP"@[3] == 'P');
    reveal_strlit("ABRT");
    assert("ABRT"@.len() == 4 && "ABRT"@[0] == 'A' && "ABRT"@[1] == 'B' && "ABRT"@[2] == 'R' && "ABRT"@[3] == 'T');
    reveal_strlit("BUS");
    assert("BUS"@.len() == 3 && "BUS"@[0] == 'B' && "BUS"@[1] == 'U' && "BUS"@[2] == 'S');
    reveal_strlit("FPE");
    assert("FPE"@.len() == 3 && "FPE"@[0] == 'F' && "FPE"@[1] == 'P' && "FPE"@[2] == 'E');
    reveal_strlit("KILL");
    assert("KILL"@.len() == 4 && "KILL"@[0] == 'K' && "KILL"@[1] == 'I' && "KILL"@[2] == 'L' && "KILL"@[3] == 'L');
    reveal_strlit("USR1");
    assert("USR1"@.len() == 4 && "USR1"@[0] == 'U' && "USR1"@[1] == 'S' && "USR1"@[2] == 'R' && "USR1"@[3] == '1');
    reveal_strlit("SEGV");
    assert("SEGV"@.len() == 4 && "SEGV"@[0] == 'S' && "SEGV"@[1] == 'E' && "SEGV"@[2] == 'G' && "SEGV"@[3] == 'V');
    reveal_strlit("USR2");
    assert("USR2"@.len() == 4 && "USR2"@[0] == 'U' && "USR2"@[1] == 'S' && "USR2"@[2] == 'R' && "USR2"@[3] == '2');
    reveal_strlit("PIPE");
    assert("PIPE"@.len() == 4 && "PIPE"@[0] == 'P' && "PIPE"@[1] == 'I' && "PIPE"@[2] == 'P' && "PIPE"@[3] == 'E');
    reveal_strlit("ALRM");
    assert("ALRM"@.len() == 4 && "ALRM"@[0] == 'A' && "ALRM"@[1] == 'L' && "ALRM"@[2] == 'R' && "ALRM"@[3] == 'M');
    reveal_strlit("TERM");
    assert("TERM"@.len() == 4 && "TERM"@[0] == 'T' && "TERM"@[1] == 'E' && "TERM"@[2] == 'R' && "TERM"@[3] == 'M');
    reveal_strlit("STKFLT");
    assert("STKFLT"@.len() == 6 && "STKFLT"@[0] == 'S' && "STKFLT"@[1] == 'T' && "STKFLT"@[2] == 'K' && "STKFLT"@[3] == 'F');
    reveal_strlit("CHLD");
    assert("CHLD"@.len() == 4 && "CHLD"@[0] == 'C' && "CHLD"@[1] == 'H' && "CHLD"@[2] == 'L' && "CHLD"@[3] == 'D');
    reveal_strlit("CONT");
    assert("CONT"@.len() == 4 && "CONT"@[0] == 'C' && "CONT"@[1] == 'O' && "CONT"@[2] == 'N' && "CONT"@[3] == 'T');
    reveal_strlit("STOP");
    assert("STOP"@.len() == 4 && "STOP"@[0] == 'S' && "STOP"@[1] == 'T' && "STOP"@[2] == 'O' && "STOP"@[3] == 'P');
    reveal_strlit("TSTP");
    assert("TSTP"@.len() == 4 && "TSTP"@[0] == 'T' && "TSTP"@[1] == 'S' && "TSTP"@[2] == 'T' && "TSTP"@[3] == 'P');
    reveal_strlit("TTIN");
    assert("TTIN"@.len() == 4 && "TTIN"@[0] == 'T' && "TTIN"@[1] == 'T' && "TTIN"@[2] == 'I' && "TTIN"@[3] == 'N');
    reveal_strlit("TTOU");
    assert("TTOU"@.len() == 4 && "TTOU"@[0] == 'T' && "TTOU"@[1] == 'T' && "TTOU"@[2] == 'O' && "TTOU"@[3] == 'U');
    reveal_strlit("URG");
    assert("URG"@.len() == 3 && "URG"@[0] == 'U' && "URG"@[1] == 'R' && "URG"@[2] == 'G');
    reveal_strlit("XCPU");
    assert("XCPU"@.len() == 4 && "XCPU"@[0] == 'X' && "XCPU"@[1] == 'C' && "XCPU"@[2] == 'P' && "XCPU"@[3] == 'U');
    reveal_strlit("XFSZ");
    assert("XFSZ"@.len() == 4 && "XFSZ"@[0] == 'X' && "XFSZ"@[1] == 'F' && "XFSZ"@[2] == 'S' && "XFSZ"@[3] == 'Z');
    reveal_strlit("VTALRM");
    assert("VTALRM"@.len() == 6 && "VTALRM"@[0] == 'V' && "VTALRM"@[1] == 'T' && "VTALRM"@[2] == 'A' && "VTALRM"@[3] == 'L');
    reveal_strlit("PROF");
    assert("PROF"@.len() == 4 && "PROF"@[0] == 'P' && "PROF"@[1] == 'R' && "PROF"@[2] == 'O' && "PROF"@[3] == 'F');
    reveal_strlit("WINCH");
    assert("WINCH"@.len() == 5 && "WINCH"@[0] == 'W' && "WINCH"@[1] == 'I' && "WINCH"@[2] == 'N' && "WINCH"@[3] == 'C');
    reveal_strlit("IO");
    assert("IO"@.len() == 2 && "IO"@[0] == 'I' && "IO"@[1] == 'O');
    reveal_strlit("PWR");
    assert("PWR"@.len() == 3 && "PWR"@[0] == 'P' && "PWR"@[1] == 'W' && "PWR"@[2] == 'R');
    reveal_strlit("SYS");
    assert("SYS"@.len() == 3 && "SYS"@[0] == 'S' && "SYS"@[1] == 'Y' && "SYS"@[2] == 'S');
    reveal_strlit("IOT");
    assert("IOT"@.len() == 3 && "IOT"@[0] == 'I' && "IOT"@[1] == 'O' && "IOT"@[2] == 'T');
    reveal_strlit("CLD");
    assert("CLD"@.len() == 3 && "CLD"@[0] == 'C' && "CLD"@[1] == 'L' && "CLD"@[2] == 'D');
    reveal_strlit("POLL");
    assert("POLL"@.len() == 4 && "POLL"@[0] == 'P' && "POLL"@[1] == 'O' && "POLL"@[2] == 'L' && "POLL"@[3] == 'L');
}

/// What names a signal holds upper case letters and digits only, and begins with a letter.
proof fn lemma_name_shape(n: int)
    requires
        1 <= n <= 31,
    ensures
        ({
            let s = name_of(n);
            &&& s.len() >= 2
            &&& 'A' <= s[0] <= 'Z'
            &&& !has_prefix(s, "SIG"@)
            &&& forall|i: int| 0 <= i < s.len() ==> 'A' <= #[trigger] s[i] <= 'Z' || is_digit(s[i])
        }),
{
    reveal_strlit("HUP");
    reveal_strlit("INT");
    reveal_strlit("QUIT");
    reveal_strlit("ILL");
    reveal_strlit("TRAP");
    reveal_strlit("ABRT");
    reveal_strlit("BUS");
    reveal_strlit("FPE");
    reveal_strlit("KILL");
    reveal_strlit("USR1");
    reveal_strlit("SEGV");
    reveal_strlit("USR2");
    reveal_strlit("PIPE");
    reveal_strlit("ALRM");
    reveal_strlit("TERM");
    reveal_strlit("STKFLT");
    reveal_strlit("CHLD");
    reveal_strlit("CONT");
    reveal_strlit("STOP");
    reveal_strlit("TSTP");
    reveal_strlit("TTIN");
    reveal_strlit("TTOU");
    reveal_strlit("URG");
    reveal_strlit("XCPU");
    reveal_strlit("XFSZ");
    reveal_strlit("VTALRM");
    reveal_strlit("PROF");
    reveal_strlit("WINCH");
    reveal_strlit("IO");
    reveal_strlit("PWR");
    reveal_strlit("SYS");
    reveal_strlit("IOT");
    reveal_strlit("CLD");
    reveal_strlit("POLL");
    reveal_strlit("SIG");
    let s = name_of(n);
    assert(!has_prefix(s, "SIG"@)) by {
        if has_prefix(s, "SIG"@) {
            let p = s.take(3);
            assert(p[0] == 'S' && p[1] == 'I' && p[2] == 'G');
            assert(s[0] == 'S' && s[1] == 'I' && s[2] == 'G');
        }
    }
}

proof fn lemma_trimmed_plain(s: Seq<char>)
    requires
        s.len() > 0,
        !is_white_space(s[0]),
        !is_white_space(s.last()),
    ensures
        trimmed(s) == s,
{
}

/// A signal can be named with or without `SIG`.
pub proof fn law_sig_prefix_is_optional(n: int)
    requires
        1 <= n <= 31,
    ensures
        signal_of(name_of(n)) == Some(n as i32),
        signal_of("SIG"@ + name_of(n)) == Some(n as i32),
{
    let s = name_of(n);
    let long = "SIG"@ + s;
    reveal_strlit("SIG");
    lemma_name_shape(n);
    law_names_lead_back(n);
    lemma_trimmed_plain(s);
    lemma_trimmed_plain(long);
    assert(upper_text(s) =~= s);
    assert(upper_text(long) =~= long) by {
        assert forall|i: int| 0 <= i < long.len() implies ascii_upper(#[trigger] long[i])
            == long[i] by {
            if i >= 3 {
                assert(long[i] == s[i - 3]);
            }
        }
    }
    assert(long.take(3) =~= "SIG"@);
    assert(long.skip(3) =~= s);
    assert(!is_digit(s[0]));
    assert(!is_digit(long[0]));
    assert(signed_value(s) is None);
    assert(signed_value(long) is None);
}

proof fn lemma_upper_trims(s: Seq<char>)
    ensures
        trim_start(upper_text(s)) == upper_text(trim_start(s)),
    decreases s.len(),
{
    if s.len() > 0 {
        assert(upper_text(s)[0] == ascii_upper(s[0]));
        if is_white_space(s[0]) {
            lemma_upper_trims(s.drop_first());
            assert(upper_text(s).drop_first() =~= upper_text(s.drop_first()));
        }
    }
}

proof fn lemma_upper_trims_end(s: Seq<char>)
    ensures
        trim_end(upper_text(s)) == upper_text(trim_end(s)),
    decreases s.len(),
{
    if s.len() > 0 {
        assert(upper_text(s).last() == ascii_upper(s.last()));
        if is_white_space(s.last()) {
            lemma_upper_trims_end(s.drop_last());
            assert(upper_text(s).drop_last() =~= upper_text(s.drop_last()));
        }
    }
}

proof fn lemma_upper_digits(s: Seq<char>)
    ensures
        all_digits(upper_text(s)) == all_digits(s),
        all_digits(s) ==> upper_text(s) == s,
{
    let u = upper_text(s);
    if all_digits(s) {
        assert forall|i: int| 0 <= i < u.len() implies is_digit(#[trigger] u[i]) by {
            assert(is_digit(s[i]));
        }
        assert(u =~= s);
    } else {
        let k = choose|k: int| 0 <= k < s.len() && !is_digit(#[trigger] s[k]);
        assert(u[k] == ascii_upper(s[k]));
        assert(!is_digit(u[k]));
    }
}

proof fn lemma_upper_value(s: Seq<char>)
    ensures
        signed_value(upper_text(s)) == signed_value(s),
{
    let u = upper_text(s);
    lemma_upper_digits(s);
    if s.len() > 0 {
        assert(u[0] == ascii_upper(s[0]));
        lemma_upper_digits(s.drop_first());
        assert(u.drop_first() =~= upper_text(s.drop_first()));
    }
    assert(unsigned_value(u) == unsigned_value(s));
}

/// The case of ASCII letters does not matter.
pub proof fn law_signal_case_is_idle(s: Seq<char>)
    ensures
        signal_of(upper_text(s)) == signal_of(s),
{
    lemma_upper_trims(s);
    lemma_upper_trims_end(trim_start(s));
    let t = trimmed(s);
    lemma_upper_value(t);
    assert(upper_text(upper_text(t)) =~= upper_text(t));
}

/// The ways to write a signal: its name in any case, with or without `SIG`, or its number, with
/// white space around it or not.
pub open spec fn writes_signal(s: Seq<char>, n: int) -> bool {
    let t = trimmed(s);
    ||| upper_text(t) == name_of(n)
    ||| upper_text(t) == "SIG"@ + name_of(n)
    ||| t == int_text(n)
}

/// Every way to write a signal leads to its number.
pub proof fn law_signal_reads_back(s: Seq<char>, n: int)
    requires
        1 <= n <= 31,
        writes_signal(s, n),
    ensures
        signal_of(s) == Some(n as i32),
{
    let t = trimmed(s);
    let name = name_of(n);
    let long = "SIG"@ + name;
    reveal_strlit("SIG");
    lemma_name_shape(n);
    law_names_lead_back(n);
    lemma_upper_value(t);
    assert(!is_digit(name[0]));
    assert(!is_digit(long[0]));
    assert(signed_value(name) is None);
    assert(signed_value(long) is None);
    assert(long.take(3) =~= "SIG"@);
    assert(long.skip(3) =~= name);
    law_int_text_reads_back(n);
}

proof fn lemma_trim_front(before: Seq<char>, rest: Seq<char>)
    requires
        forall|i: int| 0 <= i < before.len() ==> is_white_space(#[trigger] before[i]),
    ensures
        trim_start(before + rest) == trim_start(rest),
    decreases before.len(),
{
    if before.len() == 0 {
        assert(before + rest =~= rest);
    } else {
        let tail = before.drop_first();
        assert forall|i: int| 0 <= i < tail.len() implies is_white_space(#[trigger] tail[i]) by {
            assert(is_white_space(before[i + 1]));
        }
        lemma_trim_front(tail, rest);
        assert((before + rest).drop_first() =~= tail + rest);
        assert(is_white_space(before[0]));
    }
}

proof fn lemma_trim_back(front: Seq<char>, after: Seq<char>)
    requires
        forall|i: int| 0 <= i < after.len() ==> is_white_space(#[trigger] after[i]),
    ensures
        trim_end(front + after) == trim_end(front),
    decreases after.len(),
{
    if after.len() == 0 {
        assert(front + after =~= front);
    } else {
        let head = after.drop_last();
        assert forall|i: int| 0 <= i < head.len() implies is_white_space(#[trigger] head[i]) by {
            assert(is_white_space(after[i]));
        }
        lemma_trim_back(front, head);
        assert((front + after).drop_last() =~= front + head);
        assert(is_white_space(after[after.len() - 1]));
    }
}

/// White space around the text of a signal does not matter.
pub proof fn law_white_space_is_idle(before: Seq<char>, s: Seq<char>, after: Seq<char>)
    requires
        s.len() > 0,
        !is_white_space(s[0]),
        !is_white_space(s.last()),
        forall|i: int| 0 <= i < before.len() ==> is_white_space(#[trigger] before[i]),
        forall|i: int| 0 <= i < after.len() ==> is_white_space(#[trigger] after[i]),
    ensures
        signal_of(before + s + after) == signal_of(s),
{
    assert(before + s + after =~= before + (s + after));
    lemma_trim_front(before, s + after);
    assert((s + after)[0] == s[0]);
    lemma_trim_back(s, after);
    lemma_trimmed_plain(s);
}

/// The names in the order of their numbers, from 1 on.
pub open spec fn signal_names() -> Seq<Seq<char>> {
    seq![
        "HUP"@,
        "INT"@,
        "QUIT"@,
        "ILL"@,
        "TRAP"@,
        "ABRT"@,
        "BUS"@,
        "FPE"@,
        "KILL"@,
        "USR1"@,
        "SEGV"@,
        "USR2"@,
        "PIPE"@,
        "ALRM"@,
        "TERM"@,
        "STKFLT"@,
        "CHLD"@,
        "CONT"@,
        "STOP"@,
        "TSTP"@,
        "TTIN"@,
        "TTOU"@,
        "URG"@,
        "XCPU"@,
        "XFSZ"@,
        "VTALRM"@,
        "PROF"@,
        "WINCH"@,
        "IO"@,
        "PWR"@,
        "SYS"@,
    ]
}

/// A signal's name is the one that stands for its number, and only that name or one of the three
/// other names leads to the number.
pub proof fn law_signal_numbers(n: int, name: Seq<char>)
    requires
        1 <= n <= 31,
    ensures
        name_of(n) == signal_names()[n - 1],
        number_of(name) == Some(n as i32) ==> name == signal_names()[n - 1] || (n == 6 && name
            == "IOT"@) || (n == 17 && name == "CLD"@) || (n == 29 && name == "POLL"@),
        number_of(name) matches Some(m) ==> 1 <= m <= 31,
        number_of("IOT"@) is Some,
        number_of("CLD"@) is Some,
        number_of("POLL"@) is Some,
{
}

/// A number stands for itself.
pub proof fn law_numbers_are_signals(s: Seq<char>, n: int)
    requires
        signed_value(trimmed(s)) == Some(n),
        i32::MIN <= n <= i32::MAX,
    ensures
        signal_of(s) == Some(n as i32),
{
}

/// A text that is no number is a signal only if its name, in upper case and without a `SIG` in
/// front, is one.
pub proof fn law_other_texts_are_names(s: Seq<char>, name: Seq<char>)
    requires
        signed_value(trimmed(s)) is None,
        upper_text(trimmed(s)) == name || upper_text(trimmed(s)) == seq!['S', 'I', 'G'] + name,
        name.len() < 3 || name.take(3) != seq!['S', 'I', 'G'],
    ensures
        signal_of(s) == number_of(name),
{
    reveal_strlit("SIG");
    assert("SIG"@ =~= seq!['S', 'I', 'G']);
    let long = seq!['S', 'I', 'G'] + name;
    assert(long.take(3) =~= seq!['S', 'I', 'G']);
    assert(long.skip(3) =~= name);
}

} // verus!
