//! A helper program that shows what a process inherits.

use crate::number::{
    digits, int_text, is_digit, law_digits_read_back, law_int_text_reads_back, parse_i32,
    parse_u32, signed_value, unsigned_value, within, write_digits, write_int,
};
use crate::text::{
    chars_of, copy_text, is_text, is_white_space, join, join_texts, law_words_of_joined, maybe,
    split_words, texts, words,
};
use vstd::prelude::*;

verus! {

/// What the helper can be asked for.
#[derive(Clone, Copy, Debug, PartialEq, Eq, Structural)]
pub enum Command {
    PrintFds,
    PrintPidThenSleep,
    PrintPgrp,
    PrintBlockedSignals,
    PrintIgnoredSignals,
    SigkillSelf,
    SigintSelf,
    SigintParent,
    ReportForeground,
    Help,
    /// No command, or one that does not exist.
    Unknown,
}

/// The command that the first argument names.
pub open spec fn command_of(args: Seq<Seq<char>>) -> Command {
    if args.len() < 2 {
        Command::Unknown
    } else if args[1] == "print_fds"@ {
        Command::PrintFds
    } else if args[1] == "print_pid_then_sleep"@ {
        Command::PrintPidThenSleep
    } else if args[1] == "print_pgrp"@ {
        Command::PrintPgrp
    } else if args[1] == "print_blocked_signals"@ {
        Command::PrintBlockedSignals
    } else if args[1] == "print_ignored_signals"@ {
        Command::PrintIgnoredSignals
    } else if args[1] == "sigkill_self"@ {
        Command::SigkillSelf
    } else if args[1] == "sigint_self"@ {
        Command::SigintSelf
    } else if args[1] == "sigint_parent"@ {
        Command::SigintParent
    } else if args[1] == "report_foreground"@ {
        Command::ReportForeground
    } else if args[1] == "help"@ {
        Command::Help
    } else {
        Command::Unknown
    }
}

/// The command that the first argument names; `args` begins with the program's name.
pub fn command(args: &[Vec<char>]) -> (r: Command)
    ensures
        r == command_of(texts(args@)),
{
    if args.len() < 2 {
        return Command::Unknown;
    }
    let a = args[1].as_slice();
    assert(texts(args@)[1] == a@);
    if is_text(a, "print_fds") {
        Command::PrintFds
    } else if is_text(a, "print_pid_then_sleep") {
        Command::PrintPidThenSleep
    } else if is_text(a, "print_pgrp") {
        Command::PrintPgrp
    } else if is_text(a, "print_blocked_signals") {
        Command::PrintBlockedSignals
    } else if is_text(a, "print_ignored_signals") {
        Command::PrintIgnoredSignals
    } else if is_text(a, "sigkill_self") {
        Command::SigkillSelf
    } else if is_text(a, "sigint_self") {
        Command::SigintSelf
    } else if is_text(a, "sigint_parent") {
        Command::SigintParent
    } else if is_text(a, "report_foreground") {
        Command::ReportForeground
    } else if is_text(a, "help") {
        Command::Help
    } else {
        Command::Unknown
    }
}

/// An increasing list with a number in its place, once.
pub open spec fn with_number(list: Seq<i32>, n: i32) -> Seq<i32>
    decreases list.len(),
{
    if list.len() == 0 || list.last() < n {
        list.push(n)
    } else if list.last() == n {
        list
    } else {
        with_number(list.drop_last(), n).push(list.last())
    }
}

/// The number that a word writes, if it is an `i32`.
pub open spec fn fd_in(word: Seq<char>) -> Option<int> {
    within(signed_value(word), i32::MIN as int, i32::MAX as int)
}

/// The numbers among some words, increasing and each once.
pub open spec fn fds_in(list: Seq<Seq<char>>) -> Seq<i32>
    decreases list.len(),
{
    if list.len() == 0 {
        Seq::empty()
    } else {
        match fd_in(list.last()) {
            Some(n) => with_number(fds_in(list.drop_last()), n as i32),
            None => fds_in(list.drop_last()),
        }
    }
}

/// Numbers in a line.
pub open spec fn fd_line(fds: Seq<i32>) -> Seq<char> {
    join(Seq::new(fds.len(), |i: int| int_text(fds[i] as int)), seq![' '])
}

/// Puts a number in its place.
fn insert_number(list: &mut Vec<i32>, n: i32)
    ensures
        final(list)@ == with_number(old(list)@, n),
{
    let ghost before = list@;
    let mut i: usize = list.len();
    assert(before.take(i as int) =~= before);
    assert(with_number(before, n) =~= with_number(before.take(i as int), n) + before.skip(i as int));
    while i > 0 && list[i - 1] > n
        invariant
            i <= before.len(),
            list@ == before,
            with_number(before, n) == with_number(before.take(i as int), n) + before.skip(i as int),
        decreases i,
    {
        let ghost front = before.take(i as int);
        assert(front.drop_last() =~= before.take(i as int - 1));
        assert(front.last() == before[i - 1]);
        assert(with_number(front, n) + before.skip(i as int) =~= with_number(
            before.take(i as int - 1),
            n,
        ) + before.skip(i as int - 1));
        i -= 1;
    }
    let ghost front = before.take(i as int);
    if i > 0 && list[i - 1] == n {
        assert(front.last() == before[i - 1]);
        assert(front + before.skip(i as int) =~= before);
    } else {
        assert(i > 0 ==> front.last() == before[i - 1]);
        assert(with_number(front, n) == front.push(n));
        list.insert(i, n);
        assert(list@ =~= front.push(n) + before.skip(i as int));
    }
}

/// The open descriptors that a map lists (`0 1 2`, if there is none), increasing and each once.
pub fn listed_fds(map: &Option<Vec<char>>) -> (r: Vec<i32>)
    ensures
        r@ == fds_in(
            words(
                match *map {
                    Some(m) => m@,
                    None => "0 1 2"@,
                },
            ),
        ),
{
    let text = match map {
        Some(m) => copy_text(m.as_slice()),
        None => chars_of("0 1 2"),
    };
    let list = split_words(text.as_slice());
    let ghost all = words(text@);
    let mut fds: Vec<i32> = Vec::new();
    let mut i: usize = 0;
    assert(fds@ =~= fds_in(all.take(0)));
    while i < list.len()
        invariant
            i <= list@.len(),
            all == texts(list@),
            fds@ == fds_in(all.take(i as int)),
        decreases list@.len() - i,
    {
        let ghost next = all.take(i as int + 1);
        assert(next.drop_last() =~= all.take(i as int));
        assert(next.last() == list@[i as int]@);
        if let Some(n) = parse_i32(list[i].as_slice()) {
            insert_number(&mut fds, n);
        }
        i += 1;
    }
    assert(all.take(i as int) =~= all);
    fds
}

/// The line that shows the open descriptors.
pub fn print_fds(map: &Option<Vec<char>>) -> (r: Vec<char>)
    ensures
        r@ == fd_line(
            fds_in(
                words(
                    match *map {
                        Some(m) => m@,
                        None => "0 1 2"@,
                    },
                ),
            ),
        ),
{
    let fds = listed_fds(map);
    let mut parts: Vec<Vec<char>> = Vec::new();
    let mut i: usize = 0;
    while i < fds.len()
        invariant
            i <= fds@.len(),
            parts@.len() == i,
            forall|k: int| 0 <= k < i ==> parts@[k]@ == int_text(fds@[k] as int),
        decreases fds@.len() - i,
    {
        parts.push(write_int(fds[i] as i64));
        i += 1;
    }
    assert(texts(parts@) =~= Seq::new(fds@.len(), |i: int| int_text(fds@[i] as int)));
    let sep: &[char] = &[' '];
    assert(sep@ =~= seq![' ']);
    join_texts(parts.as_slice(), sep)
}

/// The line that shows the process group: the one that the variable gives, or the process' own.
pub fn print_pgrp(group: &Option<Vec<char>>, own_pid: u32) -> (r: Vec<char>)
    ensures
        r@ == (match maybe(*group) {
            Some(g) => if g == "self"@ || g.len() == 0 {
                int_text(own_pid as int)
            } else {
                g
            },
            None => int_text(own_pid as int),
        }),
{
    if let Some(g) = group {
        if !is_text(g.as_slice(), "self") && g.len() > 0 {
            return copy_text(g.as_slice());
        }
    }
    write_digits(own_pid as u64)
}

/// The parent process to interrupt, if the variable gives one.
pub fn sigint_parent(pid: &Option<Vec<char>>) -> (r: Option<u32>)
    ensures
        (match r {
            Some(p) => Some(p as int),
            None => None,
        }) == (match maybe(*pid) {
            Some(s) => within(unsigned_value(s), 0, u32::MAX as int),
            None => None,
        }),
{
    match pid {
        Some(s) => parse_u32(s.as_slice()),
        None => None,
    }
}

/// Whether a list increases.
pub open spec fn increasing(list: Seq<i32>) -> bool {
    forall|i: int, j: int| 0 <= i < j < list.len() ==> list[i] < list[j]
}

proof fn lemma_with_number(list: Seq<i32>, n: i32)
    requires
        increasing(list),
    ensures
        increasing(with_number(list, n)),
        forall|m: i32| #[trigger] with_number(list, n).contains(m) <==> list.contains(m) || m == n,
        with_number(list, n).last() == if list.len() > 0 && list.last() > n {
            list.last()
        } else {
            n
        },
        with_number(list, n).len() > 0,
    decreases list.len(),
{
    let out = with_number(list, n);
    if list.len() == 0 || list.last() < n {
        assert forall|m: i32| #[trigger] out.contains(m) <==> list.contains(m) || m == n by {
            lemma_push_holds(list, n, m);
        }
    } else if list.last() == n {
        assert(list.contains(list[list.len() - 1]));
    } else {
        let front = list.drop_last();
        let last = list.last();
        assert(increasing(front)) by {
            assert forall|i: int, j: int| 0 <= i < j < front.len() implies front[i] < front[j] by {
                assert(list[i] < list[j]);
            }
        }
        lemma_with_number(front, n);
        let shorter = with_number(front, n);
        assert(front.len() > 0 ==> front.last() == list[list.len() - 2]);
        assert(shorter.last() < last);
        assert forall|i: int, j: int| 0 <= i < j < out.len() implies out[i] < out[j] by {
            if j == shorter.len() {
                assert(shorter[i] <= shorter[shorter.len() - 1]);
            }
        }
        assert forall|m: i32| #[trigger] out.contains(m) <==> list.contains(m) || m == n by {
            lemma_push_holds(shorter, last, m);
            lemma_push_holds(front, last, m);
            assert(front.push(last) =~= list);
            assert(shorter.contains(m) <==> front.contains(m) || m == n);
        }
    }
}

proof fn lemma_push_holds(list: Seq<i32>, last: i32, m: i32)
    ensures
        list.push(last).contains(m) <==> list.contains(m) || m == last,
{
    let longer = list.push(last);
    if list.contains(m) {
        let k = choose|k: int| 0 <= k < list.len() && list[k] == m;
        assert(longer[k] == m);
    }
    assert(longer[list.len() as int] == last);
    if longer.contains(m) && m != last {
        let k = choose|k: int| 0 <= k < longer.len() && longer[k] == m;
        assert(list[k] == m);
    }
}

/// The descriptors increase, and they are exactly the numbers among the words.
pub proof fn law_fds_are_sorted(list: Seq<Seq<char>>)
    ensures
        increasing(fds_in(list)),
        forall|n: i32|
            #[trigger] fds_in(list).contains(n) <==> exists|k: int|
                0 <= k < list.len() && fd_in(#[trigger] list[k]) == Some(n as int),
    decreases list.len(),
{
    if list.len() > 0 {
        let front = list.drop_last();
        law_fds_are_sorted(front);
        let last = list.last();
        if let Some(v) = fd_in(last) {
            lemma_with_number(fds_in(front), v as i32);
        }
        assert forall|n: i32| #[trigger]
            fds_in(list).contains(n) <==> exists|k: int|
                0 <= k < list.len() && fd_in(#[trigger] list[k]) == Some(n as int) by {
            let earlier = fds_in(front).contains(n);
            if earlier {
                let k = choose|k: int|
                    0 <= k < front.len() && fd_in(#[trigger] front[k]) == Some(n as int);
                assert(fd_in(list[k]) == Some(n as int));
            }
            if fd_in(last) == Some(n as int) {
                assert(fd_in(list[list.len() - 1]) == Some(n as int));
            }
            if exists|k: int| 0 <= k < list.len() && fd_in(#[trigger] list[k]) == Some(n as int) {
                let k = choose|k: int|
                    0 <= k < list.len() && fd_in(#[trigger] list[k]) == Some(n as int);
                if k < front.len() {
                    assert(fd_in(front[k]) == Some(n as int));
                }
            }
        }
    }
}

/// The line of descriptors names each of them once, in order: reading it gives them back.
pub proof fn law_fd_line_reads_back(fds: Seq<i32>)
    requires
        increasing(fds),
    ensures
        words(fd_line(fds)).len() == fds.len(),
        fds_in(words(fd_line(fds))) == fds,
{
    let list = Seq::new(fds.len(), |i: int| int_text(fds[i] as int));
    assert forall|i: int| 0 <= i < list.len() implies (#[trigger] list[i]).len() > 0 && forall|
        k: int,
    | 0 <= k < list[i].len() ==> !is_white_space(#[trigger] list[i][k]) by {
        lemma_int_word(fds[i] as int);
    }
    law_words_of_joined(list);
    lemma_fds_in_texts(fds);
}

proof fn lemma_int_word(n: int)
    ensures
        int_text(n).len() > 0,
        forall|k: int| 0 <= k < int_text(n).len() ==> !is_white_space(#[trigger] int_text(n)[k]),
{
    let t = int_text(n);
    law_digits_read_back(n as nat);
    law_digits_read_back((-n) as nat);
    assert forall|k: int| 0 <= k < t.len() implies !is_white_space(#[trigger] t[k]) by {
        if n < 0 {
            if k > 0 {
                assert(is_digit(digits((-n) as nat)[k - 1]));
            }
        } else {
            assert(is_digit(digits(n as nat)[k]));
        }
    }
}

proof fn lemma_fds_in_texts(fds: Seq<i32>)
    requires
        increasing(fds),
    ensures
        fds_in(Seq::new(fds.len(), |i: int| int_text(fds[i] as int))) == fds,
    decreases fds.len(),
{
    let list = Seq::new(fds.len(), |i: int| int_text(fds[i] as int));
    if fds.len() == 0 {
        assert(fds_in(list) =~= fds);
    } else {
        let front = fds.drop_last();
        assert(increasing(front)) by {
            assert forall|i: int, j: int| 0 <= i < j < front.len() implies front[i] < front[j] by {
                assert(fds[i] < fds[j]);
            }
        }
        lemma_fds_in_texts(front);
        assert(list.drop_last() =~= Seq::new(front.len(), |i: int| int_text(front[i] as int)));
        law_int_text_reads_back(fds.last() as int);
        if front.len() > 0 {
            assert(fds[fds.len() - 2] < fds[fds.len() - 1]);
            assert(front.last() == fds[fds.len() - 2]);
        }
        assert(front.push(fds.last()) =~= fds);
    }
}

/// Each command is asked for by its own name, and everything else asks for none.
pub proof fn law_commands(args: Seq<Seq<char>>)
    ensures
        args.len() < 2 ==> command_of(args) == Command::Unknown,
        args.len() >= 2 ==> {
            let a = args[1];
            match command_of(args) {
                Command::PrintFds => a == "print_fds"@,
                Command::PrintPidThenSleep => a == "print_pid_then_sleep"@,
                Command::PrintPgrp => a == "print_pgrp"@,
                Command::PrintBlockedSignals => a == "print_blocked_signals"@,
                Command::PrintIgnoredSignals => a == "print_ignored_signals"@,
                Command::SigkillSelf => a == "sigkill_self"@,
                Command::SigintSelf => a == "sigint_self"@,
                Command::SigintParent => a == "sigint_parent"@,
                Command::ReportForeground => a == "report_foreground"@,
                Command::Help => a == "help"@,
                Command::Unknown => a != "print_fds"@ && a != "print_pid_then_sleep"@ && a
                    != "print_pgrp"@ && a != "print_blocked_signals"@ && a
                    != "print_ignored_signals"@ && a != "sigkill_self"@ && a != "sigint_self"@ && a
                    != "sigint_parent"@ && a != "report_foreground"@ && a != "help"@,
            }
        },
{
}

/// The group is shown as it is named, and as the process's own id where it is not named or named
/// as its own.
pub proof fn law_group_shown(group: &Option<Vec<char>>, own_pid: u32, r: Vec<char>)
    requires
        call_ensures(print_pgrp, (group, own_pid), r),
    ensures
        maybe(*group) is None || maybe(*group)->0.len() == 0 || maybe(*group)->0 == seq![
            's',
            'e',
            'l',
            'f',
        ] ==> signed_value(r@) == Some(own_pid as int),
        maybe(*group) matches Some(g) && g.len() > 0 && g != seq!['s', 'e', 'l', 'f'] ==> r@
            == maybe(*group)->0,
{
    reveal_strlit("self");
    assert("self"@ =~= seq!['s', 'e', 'l', 'f']);
    law_int_text_reads_back(own_pid as int);
}

} // verus!
