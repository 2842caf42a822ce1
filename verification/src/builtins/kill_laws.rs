//! What the command line of `kill` asks for.

use crate::builtins::kill::{
    jobs_after, known_names, request_of, spec_text, status_of_all, Delivery, JobView, KillRequest,
    Signal, SignalClass,
};
use crate::builtins::Status;
use vstd::prelude::*;

verus! {

/// What the words of the command line are made of.
proof fn lemma_words()
    ensures
        "--"@ == seq!['-', '-'],
        "-l"@ == seq!['-', 'l'],
        "-L"@ == seq!['-', 'L'],
        "-s"@ == seq!['-', 's'],
        "--list"@ == seq!['-', '-', 'l', 'i', 's', 't'],
        "--signal"@ == seq!['-', '-', 's', 'i', 'g', 'n', 'a', 'l'],
{
    reveal_strlit("--");
    reveal_strlit("-l");
    reveal_strlit("-L");
    reveal_strlit("-s");
    reveal_strlit("--list");
    reveal_strlit("--signal");
    assert("--"@ =~= seq!['-', '-']);
    assert("-l"@ =~= seq!['-', 'l']);
    assert("-L"@ =~= seq!['-', 'L']);
    assert("-s"@ =~= seq!['-', 's']);
    assert("--list"@ =~= seq!['-', '-', 'l', 'i', 's', 't']);
    assert("--signal"@ =~= seq!['-', '-', 's', 'i', 'g', 'n', 'a', 'l']);
}

/// `-` and a text, of which no option is made, sends the signal that the text names, whether it
/// is a name or a number, to the operands behind it.
pub proof fn law_dash_names_a_signal(cmd: Seq<char>, text: Seq<char>, rest: Seq<Seq<char>>)
    requires
        text.len() > 0,
        text != seq!['-'],
        text != seq!['l'],
        text != seq!['L'],
        text != seq!['s'],
        text != seq!['-', 'l', 'i', 's', 't'],
        text != seq!['-', 's', 'i', 'g', 'n', 'a', 'l'],
    ensures
        ({
            let args = seq![cmd, seq!['-'] + text] + rest;
            request_of(args) matches KillRequest::Send { signal: Some(s), first } && first == 2
                && spec_text(args, s) == text && args.skip(first as int) == rest
        }),
{
    lemma_words();
    let arg = seq!['-'] + text;
    let args = seq![cmd, arg] + rest;
    assert(args[1] == arg);
    assert(arg.skip(1) =~= text);
    assert("--"@.skip(1) =~= seq!['-']);
    assert("-l"@.skip(1) =~= seq!['l']);
    assert("-L"@.skip(1) =~= seq!['L']);
    assert("-s"@.skip(1) =~= seq!['s']);
    assert("--list"@.skip(1) =~= seq!['-', 'l', 'i', 's', 't']);
    assert("--signal"@.skip(1) =~= seq!['-', 's', 'i', 'g', 'n', 'a', 'l']);
    assert(args.skip(2) =~= rest);
}

/// The signal behind `-s` or `--signal` is the whole next argument, and the operands follow it;
/// without a next argument there is none.
pub proof fn law_signal_option(
    cmd: Seq<char>,
    option: Seq<char>,
    text: Seq<char>,
    rest: Seq<Seq<char>>,
)
    requires
        option == seq!['-', 's'] || option == seq!['-', '-', 's', 'i', 'g', 'n', 'a', 'l'],
    ensures
        ({
            let args = seq![cmd, option, text] + rest;
            request_of(args) matches KillRequest::Send { signal: Some(s), first } && first == 3
                && spec_text(args, s) == text && args.skip(first as int) == rest
        }),
        request_of(seq![cmd, option]) == KillRequest::SignalMissing,
{
    lemma_words();
    let args = seq![cmd, option, text] + rest;
    assert(args[1] == option);
    assert(option[1] == 's' || option.len() == 8);
    assert(text.skip(0) =~= text);
    assert(args[2] == text);
    assert(args.skip(3) =~= rest);
    assert(seq![cmd, option][1] == option);
    assert("--"@.len() == 2 && "--"@[1] == '-');
    assert("-l"@.len() == 2 && "-l"@[1] == 'l');
    assert("-L"@.len() == 2 && "-L"@[1] == 'L');
    assert("--list"@.len() == 6);
}

/// `-s` and `--signal` ask for the same signal and operands that `-` directly before the
/// signal asks for.
pub proof fn law_signal_forms_agree(cmd: Seq<char>, text: Seq<char>, rest: Seq<Seq<char>>)
    requires
        text.len() > 0,
        text[0] != '-',
        text != seq!['l'],
        text != seq!['L'],
        text != seq!['s'],
    ensures
        ({
            let a = seq![cmd, seq!['-'] + text] + rest;
            let b = seq![cmd, seq!['-', 's'], text] + rest;
            match (request_of(a), request_of(b)) {
                (
                    KillRequest::Send { signal: Some(s), first: i },
                    KillRequest::Send { signal: Some(t), first: j },
                ) => spec_text(a, s) == spec_text(b, t) && a.skip(i as int) == b.skip(j as int),
                _ => false,
            }
        }),
{
    law_dash_names_a_signal(cmd, text, rest);
    law_signal_option(cmd, seq!['-', 's'], text, rest);
}

/// `-l`, `-L` and `--list` ask for a list of what follows them.
pub proof fn law_list_option(cmd: Seq<char>, option: Seq<char>, rest: Seq<Seq<char>>)
    requires
        option == seq!['-', 'l'] || option == seq!['-', 'L'] || option == seq![
            '-',
            '-',
            'l',
            'i',
            's',
            't',
        ],
    ensures
        request_of(seq![cmd, option] + rest) == (KillRequest::List { first: 2 }),
{
    lemma_words();
    let args = seq![cmd, option] + rest;
    assert(args[1] == option);
    assert("--"@.len() == 2 && "--"@[1] == '-');
    assert(option[1] == 'l' || option[1] == 'L' || option.len() == 6);
}

/// Behind `--` there are only operands.
pub proof fn law_double_dash_ends_options(cmd: Seq<char>, rest: Seq<Seq<char>>)
    ensures
        request_of(seq![cmd, seq!['-', '-']] + rest) == (KillRequest::Send {
            signal: None,
            first: 2,
        }),
{
    lemma_words();
    assert((seq![cmd, seq!['-', '-']] + rest)[1] == seq!['-', '-']);
}

/// An argument that does not begin with `-`, or is only that, is the first operand.
pub proof fn law_operands_alone(cmd: Seq<char>, operand: Seq<char>, rest: Seq<Seq<char>>)
    requires
        operand.len() > 1 ==> operand[0] != '-',
    ensures
        request_of(seq![cmd, operand] + rest) == (KillRequest::Send { signal: None, first: 1 }),
        request_of(seq![cmd]) == (KillRequest::Send { signal: None, first: 1 }),
{
    lemma_words();
    let args = seq![cmd, operand] + rest;
    assert(args[1] == operand);
    assert("--"@.len() == 2 && "--"@[0] == '-');
    assert("-l"@.len() == 2 && "-l"@[0] == '-');
    assert("-L"@.len() == 2 && "-L"@[0] == '-');
    assert("-s"@.len() == 2 && "-s"@[0] == '-');
    assert("--list"@.len() == 6 && "--list"@[0] == '-');
    assert("--signal"@.len() == 8 && "--signal"@[0] == '-');
}

/// The last operand that failed decides the status, whatever was sent behind it.
pub proof fn law_last_failure_decides(before: Seq<Delivery>, failure: Delivery, sent: Seq<Delivery>)
    requires
        !(failure is Sent),
        forall|i: int| 0 <= i < sent.len() ==> #[trigger] sent[i] is Sent,
    ensures
        status_of_all(before.push(failure) + sent) == if failure == Delivery::NotAPid {
            Err::<(), Status>(Status::InvalidArgs)
        } else {
            Err(Status::CmdError)
        },
    decreases sent.len(),
{
    let all = before.push(failure) + sent;
    if sent.len() == 0 {
        assert(all =~= before.push(failure));
        assert(all.last() == failure);
    } else {
        let fewer = sent.drop_last();
        assert forall|i: int| 0 <= i < fewer.len() implies #[trigger] fewer[i] is Sent by {
            assert(sent[i] is Sent);
        }
        law_last_failure_decides(before, failure, fewer);
        assert(all.drop_last() =~= before.push(failure) + fewer);
        assert(all.last() == sent[sent.len() - 1]);
    }
}

/// A stop marks exactly the process that it was sent to, with the signal in the second byte of
/// the status that tells of a stop, and takes the job of that process out of the foreground; no
/// other process and no other job is touched.
pub proof fn law_stop_marks_one_process(jobs: Seq<JobView>, pid: i32, signal: Signal, i: int, k: int)
    requires
        signal.class == SignalClass::Stop || signal.class == SignalClass::TerminalStop,
        0 <= signal.raw <= 127,
        0 <= i < jobs.len(),
        0 <= k < jobs[i].processes.len(),
    ensures
        ({
            let before = jobs[i].processes[k];
            let after = jobs_after(jobs, pid, signal)[i].processes[k];
            &&& jobs_after(jobs, pid, signal).len() == jobs.len()
            &&& jobs_after(jobs, pid, signal)[i].processes.len() == jobs[i].processes.len()
            &&& before.pid == Some(pid) ==> after.pid == before.pid && after.stopped
                && after.status == 256 * signal.raw + 127 && !jobs_after(
                jobs,
                pid,
                signal,
            )[i].foreground
            &&& before.pid != Some(pid) ==> after == before
            &&& (forall|j: int|
                0 <= j < jobs[i].processes.len() ==> (#[trigger] jobs[i].processes[j]).pid != Some(
                    pid,
                )) ==> jobs_after(jobs, pid, signal)[i].foreground == jobs[i].foreground
        }),
{
    let raw = signal.raw;
    assert((raw << 8) | 0x7f == 256 * raw + 127) by (bit_vector)
        requires
            0 <= raw <= 127,
    ;
}

/// A continued process is no longer stopped, and reports that it goes on; its job stays where it
/// is, and no other process is touched.
pub proof fn law_continue_marks_one_process(
    jobs: Seq<JobView>,
    pid: i32,
    signal: Signal,
    i: int,
    k: int,
)
    requires
        signal.class == SignalClass::Continue,
        0 <= i < jobs.len(),
        0 <= k < jobs[i].processes.len(),
    ensures
        ({
            let before = jobs[i].processes[k];
            let after = jobs_after(jobs, pid, signal)[i].processes[k];
            &&& jobs_after(jobs, pid, signal)[i].foreground == jobs[i].foreground
            &&& before.pid == Some(pid) ==> after.pid == before.pid && !after.stopped
                && after.status == 0xffff
            &&& before.pid != Some(pid) ==> after == before
        }),
{
}

/// A list of names is listed name by name, without those that stand for no signal.
pub proof fn law_known_names(a: Seq<Seq<char>>, name: Seq<char>, b: Seq<Seq<char>>)
    ensures
        known_names(a + b) == known_names(a) + known_names(b),
        known_names(seq![name]) == if name == seq!['U', 'n', 'k', 'n', 'o', 'w', 'n'] {
            Seq::<Seq<char>>::empty()
        } else {
            seq![name]
        },
    decreases b.len(),
{
    reveal_strlit("Unknown");
    assert("Unknown"@ =~= seq!['U', 'n', 'k', 'n', 'o', 'w', 'n']);
    let none = Seq::<Seq<char>>::empty();
    assert(seq![name].drop_last() =~= none);
    assert(known_names(none) =~= none);
    assert(known_names(seq![name]) =~= if name == "Unknown"@ {
        none
    } else {
        seq![name]
    });
    if b.len() == 0 {
        assert(a + b =~= a);
        assert(known_names(b) =~= none);
        assert(known_names(a) + known_names(b) =~= known_names(a));
    } else {
        law_known_names(a, name, b.drop_last());
        assert((a + b).drop_last() =~= a + b.drop_last());
        assert((a + b).last() == b.last());
        assert(known_names(a + b) =~= known_names(a) + known_names(b));
    }
}

} // verus!
