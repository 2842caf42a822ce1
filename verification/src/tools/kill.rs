//! A native `kill`: its command line, what it does to a process, and what it reports.

use crate::builtins::kill::{signal_text, spec_text, SignalSpec};
use crate::number::{digits, parse_u32, unsigned_value, within, write_digits};
use crate::text::{chars_of, is_text, push_str, push_text, texts};
use crate::tools::signals::{name_of, sig_from_spec, signal_name, signal_of};
use vstd::prelude::*;
use vstd::slice::slice_subrange;

verus! {

/// Why `kill` stops before it signals anything.
#[derive(Clone, Copy, Debug, PartialEq, Eq, Structural)]
pub enum KillError {
    /// `-s` without an argument.
    MissingArgument,
    /// A signal that does not exist.
    InvalidSignal(SignalSpec),
    /// No process is given.
    NoPids,
}

/// What `kill` is asked to do.
pub enum KillPlan {
    /// List the signals.
    List,
    /// Signal the processes that the arguments at these indices name.
    Send { signal: i32, pids: Vec<usize> },
}

/// The contents of [`KillPlan`].
#[verifier::ext_equal]
pub enum KillPlanView {
    List,
    Send { signal: i32, pids: Seq<usize> },
}

impl View for KillPlan {
    type V = KillPlanView;

    open spec fn view(&self) -> KillPlanView {
        match self {
            KillPlan::List => KillPlanView::List,
            KillPlan::Send { signal, pids } => KillPlanView::Send { signal: *signal, pids: pids@ },
        }
    }
}

/// Whether an argument asks for the list of signals.
pub open spec fn asks_for_list(a: Seq<char>) -> bool {
    a == "-l"@ || a == "--list"@
}

/// Whether the argument after this one names the signal.
pub open spec fn takes_signal(a: Seq<char>) -> bool {
    a == "-s"@ || a == "-n"@ || a == "--signal"@
}

/// Whether an argument is an operand rather than an option.
pub open spec fn is_operand(a: Seq<char>) -> bool {
    a.len() == 0 || a[0] != '-' || a == "-"@
}

/// What the arguments from index `i` on ask for, after a signal, some operands and maybe `--`
/// have been seen.
pub open spec fn plan_from(
    args: Seq<Seq<char>>,
    i: int,
    signal: i32,
    pids: Seq<usize>,
    operands_only: bool,
) -> Result<KillPlanView, KillError>
    decreases args.len() - i,
{
    if i < 0 || i >= args.len() {
        if pids.len() == 0 {
            Err(KillError::NoPids)
        } else {
            Ok(KillPlanView::Send { signal, pids })
        }
    } else if operands_only || is_operand(args[i]) {
        plan_from(args, i + 1, signal, pids.push(i as usize), operands_only)
    } else if args[i] == "--"@ {
        plan_from(args, i + 1, signal, pids, true)
    } else if asks_for_list(args[i]) {
        Ok(KillPlanView::List)
    } else if takes_signal(args[i]) {
        if i + 1 >= args.len() {
            Err(KillError::MissingArgument)
        } else {
            match signal_of(args[i + 1]) {
                Some(s) => plan_from(args, i + 2, s, pids, operands_only),
                None => Err(KillError::InvalidSignal(SignalSpec { arg: (i + 1) as usize, skip: 0 })),
            }
        }
    } else {
        match signal_of(args[i].skip(1)) {
            Some(s) => plan_from(args, i + 1, s, pids, operands_only),
            None => Err(KillError::InvalidSignal(SignalSpec { arg: i as usize, skip: 1 })),
        }
    }
}

/// What the arguments ask for: the last signal given counts, and without one it is the default,
/// SIGTERM.
pub open spec fn plan_of(args: Seq<Seq<char>>) -> Result<KillPlanView, KillError> {
    plan_from(args, 0, 15, Seq::empty(), false)
}

/// What `kill` is asked to do; `args` are the arguments behind the program's name.
#[verifier::loop_isolation(false)]
pub fn plan(args: &[Vec<char>]) -> (r: Result<KillPlan, KillError>)
    ensures
        plan_of(texts(args@)) == (match r {
            Ok(p) => Ok(p@),
            Err(e) => Err(e),
        }),
        r matches Ok(KillPlan::Send { signal, pids }) ==> forall|k: int|
            0 <= k < pids@.len() ==> (#[trigger] pids@[k]) < args@.len(),
        r matches Err(KillError::InvalidSignal(s)) ==> s.arg < args@.len() && s.skip
            <= args@[s.arg as int]@.len(),
{
    let ghost all = texts(args@);
    let mut signal: i32 = 15;
    let mut pids: Vec<usize> = Vec::new();
    let mut operands_only: bool = false;
    let mut i: usize = 0;
    assert(pids@ =~= Seq::<usize>::empty());
    while i < args.len()
        invariant
            i <= args@.len(),
            plan_of(all) == plan_from(all, i as int, signal, pids@, operands_only),
            forall|k: int| 0 <= k < pids@.len() ==> (#[trigger] pids@[k]) < args@.len(),
        decreases args@.len() - i,
    {
        let a = args[i].as_slice();
        assert(all[i as int] == a@);
        if operands_only || a.len() == 0 || a[0] != '-' || is_text(a, "-") {
            pids.push(i);
            i += 1;
        } else if is_text(a, "--") {
            operands_only = true;
            i += 1;
        } else if is_text(a, "-l") || is_text(a, "--list") {
            return Ok(KillPlan::List);
        } else if is_text(a, "-s") || is_text(a, "-n") || is_text(a, "--signal") {
            if i + 1 >= args.len() {
                return Err(KillError::MissingArgument);
            }
            assert(all[i + 1] == args@[i + 1]@);
            match sig_from_spec(args[i + 1].as_slice()) {
                Some(s) => {
                    signal = s;
                },
                None => {
                    return Err(KillError::InvalidSignal(SignalSpec { arg: i + 1, skip: 0 }));
                },
            }
            i += 2;
        } else {
            assert(a@.subrange(1, a@.len() as int) =~= a@.skip(1));
            match sig_from_spec(slice_subrange(a, 1, a.len())) {
                Some(s) => {
                    signal = s;
                },
                None => {
                    return Err(KillError::InvalidSignal(SignalSpec { arg: i, skip: 1 }));
                },
            }
            i += 1;
        }
    }
    if pids.len() == 0 {
        return Err(KillError::NoPids);
    }
    Ok(KillPlan::Send { signal, pids })
}

/// The message for an error.
pub open spec fn message_of(e: KillError, args: Seq<Seq<char>>) -> Seq<char> {
    match e {
        KillError::MissingArgument => "kill: option requires an argument"@,
        KillError::InvalidSignal(s) => "kill: invalid signal: "@ + spec_text(args, s),
        KillError::NoPids => "kill: usage: kill [-s sigspec | -signum | -sigspec] pid..."@,
    }
}

/// The message for an error.
pub fn usage_error(e: KillError, args: &[Vec<char>]) -> (r: Vec<char>)
    requires
        e matches KillError::InvalidSignal(s) ==> s.arg < args@.len() && s.skip
            <= args@[s.arg as int]@.len(),
    ensures
        r@ == message_of(e, texts(args@)),
{
    match e {
        KillError::MissingArgument => chars_of("kill: option requires an argument"),
        KillError::InvalidSignal(s) => {
            let mut m = chars_of("kill: invalid signal: ");
            let t = signal_text(args, s);
            push_text(&mut m, t.as_slice());
            m
        },
        KillError::NoPids => chars_of("kill: usage: kill [-s sigspec | -signum | -sigspec] pid..."),
    }
}

impl KillError {
    /// The exit status of the program.
    pub fn status(self) -> (r: i32)
        ensures
            r == 2,
    {
        2
    }
}

/// The exit status of the program after its work: 1 if one of the operands named no process or
/// did not get its signal, which `failed` tells of each. Listing the signals has no operands.
pub fn exit_status(failed: &[bool]) -> (r: i32)
    ensures
        r == if exists|i: int| 0 <= i < failed@.len() && failed@[i] {
            1i32
        } else {
            0i32
        },
{
    let mut i: usize = 0;
    while i < failed.len()
        invariant
            i <= failed@.len(),
            forall|k: int| 0 <= k < i ==> !failed@[k],
        decreases failed@.len() - i,
    {
        if failed[i] {
            return 1;
        }
        i += 1;
    }
    0
}

/// A text without its leading hyphens.
pub open spec fn without_hyphens(s: Seq<char>) -> Seq<char>
    decreases s.len(),
{
    if s.len() > 0 && s[0] == '-' {
        without_hyphens(s.drop_first())
    } else {
        s
    }
}

/// The process that an operand names. A negative number is a process group; job groups are keyed
/// on the leader's id, so its absolute value is the target.
pub fn target_pid(operand: &[char]) -> (r: Option<u32>)
    ensures
        within(unsigned_value(without_hyphens(operand@)), 0, u32::MAX as int) == (match r {
            Some(p) => Some(p as int),
            None => None,
        }),
{
    let mut from: usize = 0;
    assert(operand@.skip(0) =~= operand@);
    while from < operand.len() && operand[from] == '-'
        invariant
            from <= operand@.len(),
            without_hyphens(operand@) == without_hyphens(operand@.skip(from as int)),
        decreases operand@.len() - from,
    {
        assert(operand@.skip(from as int).drop_first() =~= operand@.skip(from as int + 1));
        from += 1;
    }
    assert(operand@.subrange(from as int, operand@.len() as int) =~= operand@.skip(from as int));
    parse_u32(slice_subrange(operand, from, operand.len()))
}

/// What a signal does to a process.
#[derive(Clone, Copy, Debug, PartialEq, Eq, Structural)]
pub enum Effect {
    /// Nothing: it only tells whether the process exists.
    Probe,
    /// The whole process goes on.
    Resume,
    /// The whole process stops.
    Suspend,
    /// The process ends with an exit code.
    Terminate(u32),
}

/// What a signal does to a process. Apart from stopping and continuing every signal is fatal;
/// the exit code follows the POSIX convention of 128 + signal number, modulo the codes that there
/// are.
pub open spec fn effect_of(signal: i32) -> Effect {
    if signal == 0 {
        Effect::Probe
    } else if signal == 18 {
        Effect::Resume
    } else if signal == 19 || signal == 20 {
        Effect::Suspend
    } else {
        Effect::Terminate(((128 + signal) % 0x1_0000_0000) as u32)
    }
}

/// What a signal does to a process.
pub fn effect(signal: i32) -> (r: Effect)
    ensures
        r == effect_of(signal),
{
    if signal == 0 {
        Effect::Probe
    } else if signal == 18 {
        Effect::Resume
    } else if signal == 19 || signal == 20 {
        Effect::Suspend
    } else {
        let code: i64 = 128 + signal as i64;
        if code < 0 {
            Effect::Terminate((code + 0x1_0000_0000) as u32)
        } else {
            Effect::Terminate(code as u32)
        }
    }
}

/// Why a signal was not delivered.
#[derive(Clone, Copy, Debug, PartialEq, Eq, Structural)]
pub enum DeliverError {
    NoSuchProcess,
    SuspendUnavailable,
    OperationFailed,
    NotPermitted,
}

/// Whether a signal was delivered: `available` tells whether the system offers the operation (it
/// always offers to end a process), `opened` whether the process could be opened, and `done`
/// whether the operation succeeded.
pub fn deliver(effect: Effect, available: bool, opened: bool, done: bool) -> (r: Result<
    (),
    DeliverError,
>)
    ensures
        r == (match effect {
            Effect::Probe => if opened {
                Ok(())
            } else {
                Err(DeliverError::NoSuchProcess)
            },
            Effect::Resume | Effect::Suspend => if !available {
                Err(DeliverError::SuspendUnavailable)
            } else if !opened {
                Err(DeliverError::NoSuchProcess)
            } else if !done {
                Err(DeliverError::OperationFailed)
            } else {
                Ok(())
            },
            Effect::Terminate(_) => if !opened {
                Err(DeliverError::NoSuchProcess)
            } else if !done {
                Err(DeliverError::NotPermitted)
            } else {
                Ok(())
            },
        }),
{
    let suspends: bool = matches!(effect, Effect::Resume | Effect::Suspend);
    if suspends && !available {
        return Err(DeliverError::SuspendUnavailable);
    }
    if !opened {
        return Err(DeliverError::NoSuchProcess);
    }
    match effect {
        Effect::Probe => Ok(()),
        Effect::Resume | Effect::Suspend => {
            if done {
                Ok(())
            } else {
                Err(DeliverError::OperationFailed)
            }
        },
        Effect::Terminate(_) => {
            if done {
                Ok(())
            } else {
                Err(DeliverError::NotPermitted)
            }
        },
    }
}

/// The wording of an error.
pub open spec fn wording(e: DeliverError) -> Seq<char> {
    match e {
        DeliverError::NoSuchProcess => "No such process"@,
        DeliverError::SuspendUnavailable => "suspend/resume unavailable"@,
        DeliverError::OperationFailed => "operation failed"@,
        DeliverError::NotPermitted => "operation not permitted"@,
    }
}

/// The message for a signal that was not delivered.
pub fn deliver_message(pid: u32, e: DeliverError) -> (r: Vec<char>)
    ensures
        r@ == "kill: ("@ + digits(pid as nat) + ") - "@ + wording(e),
{
    let mut m = chars_of("kill: (");
    let d = write_digits(pid as u64);
    push_text(&mut m, d.as_slice());
    push_str(&mut m, ") - ");
    match e {
        DeliverError::NoSuchProcess => push_str(&mut m, "No such process"),
        DeliverError::SuspendUnavailable => push_str(&mut m, "suspend/resume unavailable"),
        DeliverError::OperationFailed => push_str(&mut m, "operation failed"),
        DeliverError::NotPermitted => push_str(&mut m, "operation not permitted"),
    }
    m
}

/// The message for an operand that names no process.
pub fn invalid_pid_message(operand: &[char]) -> (r: Vec<char>)
    ensures
        r@ == "kill: invalid pid: "@ + operand@,
{
    let mut m = chars_of("kill: invalid pid: ");
    push_text(&mut m, operand);
    m
}

/// The entry for a signal in the list: its number in two columns, then its name.
pub open spec fn entry(n: int) -> Seq<char> {
    let number = if n < 10 {
        seq![' '] + digits(n as nat)
    } else {
        digits(n as nat)
    };
    let line_end = if n % 5 == 0 {
        seq!['\n']
    } else {
        Seq::empty()
    };
    number + ") SIG"@ + name_of(n) + "  "@ + line_end
}

/// The entries for the first `n` signals.
pub open spec fn entries(n: int) -> Seq<char>
    decreases n,
{
    if n <= 0 {
        Seq::empty()
    } else {
        entries(n - 1) + entry(n)
    }
}

/// The list of signals, five in a line.
pub fn signal_table() -> (r: Vec<char>)
    ensures
        r@ == entries(31) + seq!['\n'],
{
    let mut out: Vec<char> = Vec::new();
    let mut n: usize = 1;
    assert(out@ =~= entries(0));
    while n <= 31
        invariant
            1 <= n <= 32,
            out@ == entries(n - 1),
        decreases 32 - n,
    {
        let ghost before = out@;
        if n < 10 {
            out.push(' ');
        }
        let d = write_digits(n as u64);
        push_text(&mut out, d.as_slice());
        push_str(&mut out, ") SIG");
        push_str(&mut out, signal_name(n));
        push_str(&mut out, "  ");
        if n % 5 == 0 {
            out.push('\n');
        }
        assert(out@ =~= before + entry(n as int));
        n += 1;
    }
    out.push('\n');
    assert(out@ =~= entries(31) + seq!['\n']);
    out
}

/// Operands after `--` are operands even if they look like options.
pub proof fn law_all_operands_after_dashes(
    args: Seq<Seq<char>>,
    i: int,
    signal: i32,
    pids: Seq<usize>,
)
    requires
        0 <= i <= args.len(),
        pids.len() > 0 || i < args.len(),
    ensures
        plan_from(args, i, signal, pids, true) == Ok::<KillPlanView, KillError>(
            KillPlanView::Send {
                signal,
                pids: pids + Seq::new((args.len() - i) as nat, |k: int| (i + k) as usize),
            },
        ),
    decreases args.len() - i,
{
    let rest = Seq::new((args.len() - i) as nat, |k: int| (i + k) as usize);
    if i < args.len() {
        law_all_operands_after_dashes(args, i + 1, signal, pids.push(i as usize));
        let later = Seq::new((args.len() - i - 1) as nat, |k: int| (i + 1 + k) as usize);
        assert(pids.push(i as usize) + later =~= pids + rest);
    } else {
        assert(pids + rest =~= pids);
    }
}

/// A process that a signal ends exits with 128 + the signal's number.
pub proof fn law_fatal_exit_code(signal: i32)
    requires
        1 <= signal <= 31,
        signal < 18 || signal > 20,
    ensures
        effect_of(signal) == Effect::Terminate((128 + signal) as u32),
{
}

/// Arguments that are no options are read one after the other.
proof fn lemma_operands(
    args: Seq<Seq<char>>,
    i: int,
    j: int,
    signal: i32,
    pids: Seq<usize>,
)
    requires
        0 <= i <= j <= args.len(),
        forall|k: int| i <= k < j ==> is_operand(#[trigger] args[k]),
    ensures
        plan_from(args, i, signal, pids, false) == plan_from(
            args,
            j,
            signal,
            pids + Seq::new((j - i) as nat, |k: int| (i + k) as usize),
            false,
        ),
    decreases j - i,
{
    let some = Seq::new((j - i) as nat, |k: int| (i + k) as usize);
    if i < j {
        assert(is_operand(args[i]));
        lemma_operands(args, i + 1, j, signal, pids.push(i as usize));
        let later = Seq::new((j - i - 1) as nat, |k: int| (i + 1 + k) as usize);
        assert(pids.push(i as usize) + later =~= pids + some);
    } else {
        assert(pids + some =~= pids);
    }
}

/// The words that are options, in letters.
proof fn lemma_option_words()
    ensures
        "-"@ == seq!['-'],
        "--"@ == seq!['-', '-'],
        "-l"@ == seq!['-', 'l'],
        "-s"@ == seq!['-', 's'],
        "-n"@ == seq!['-', 'n'],
        "--list"@ == seq!['-', '-', 'l', 'i', 's', 't'],
        "--signal"@ == seq!['-', '-', 's', 'i', 'g', 'n', 'a', 'l'],
{
    reveal_strlit("-");
    reveal_strlit("--");
    reveal_strlit("-l");
    reveal_strlit("-s");
    reveal_strlit("-n");
    reveal_strlit("--list");
    reveal_strlit("--signal");
    assert("-"@ =~= seq!['-']);
    assert("--"@ =~= seq!['-', '-']);
    assert("-l"@ =~= seq!['-', 'l']);
    assert("-s"@ =~= seq!['-', 's']);
    assert("-n"@ =~= seq!['-', 'n']);
    assert("--list"@ =~= seq!['-', '-', 'l', 'i', 's', 't']);
    assert("--signal"@ =~= seq!['-', '-', 's', 'i', 'g', 'n', 'a', 'l']);
}

/// Whether no argument is an option: none begins with `-`, except for `-` alone.
pub open spec fn all_operands(args: Seq<Seq<char>>) -> bool {
    forall|k: int|
        0 <= k < args.len() ==> (#[trigger] args[k]).len() == 0 || args[k][0] != '-' || args[k]
            == seq!['-']
}

proof fn lemma_plan_operands(
    args: Seq<Seq<char>>,
    ops: Seq<Seq<char>>,
    at: int,
    signal: i32,
    pids: Seq<usize>,
)
    requires
        0 <= at <= args.len(),
        args.skip(at) == ops,
        all_operands(ops),
        pids.len() + ops.len() > 0,
    ensures
        plan_from(args, at, signal, pids, false) == Ok::<KillPlanView, KillError>(
            KillPlanView::Send {
                signal,
                pids: pids + Seq::new(ops.len(), |k: int| (at + k) as usize),
            },
        ),
{
    lemma_option_words();
    assert(ops.len() == args.len() - at);
    assert forall|k: int| at <= k < args.len() implies is_operand(#[trigger] args[k]) by {
        assert(ops[k - at] == args[k]);
    }
    lemma_operands(args, at, args.len() as int, signal, pids);
}

/// Without an option the processes get SIGTERM; without a process nothing is sent.
pub proof fn law_term_is_the_default(ops: Seq<Seq<char>>)
    requires
        all_operands(ops),
    ensures
        plan_of(ops) == if ops.len() == 0 {
            Err(KillError::NoPids)
        } else {
            Ok::<KillPlanView, KillError>(
                KillPlanView::Send { signal: 15, pids: Seq::new(ops.len(), |k: int| k as usize) },
            )
        },
{
    if ops.len() > 0 {
        assert(ops.skip(0) =~= ops);
        lemma_plan_operands(ops, ops, 0, 15, Seq::empty());
        assert(Seq::<usize>::empty() + Seq::new(ops.len(), |k: int| (0 + k) as usize) =~= Seq::new(
            ops.len(),
            |k: int| k as usize,
        ));
    }
}

/// The signal behind `-s`, `-n` or `--signal` goes to all processes behind it.
pub proof fn law_signal_option(option: Seq<char>, text: Seq<char>, ops: Seq<Seq<char>>)
    requires
        option == seq!['-', 's'] || option == seq!['-', 'n'] || option == seq![
            '-',
            '-',
            's',
            'i',
            'g',
            'n',
            'a',
            'l',
        ],
        all_operands(ops),
        ops.len() > 0,
    ensures
        plan_of(seq![option, text] + ops) == (match signal_of(text) {
            Some(signal) => Ok::<KillPlanView, KillError>(
                KillPlanView::Send {
                    signal,
                    pids: Seq::new(ops.len(), |k: int| (2 + k) as usize),
                },
            ),
            None => Err(KillError::InvalidSignal(SignalSpec { arg: 1, skip: 0 })),
        }),
        plan_of(seq![option]) == Err::<KillPlanView, KillError>(KillError::MissingArgument),
{
    lemma_option_words();
    let args = seq![option, text] + ops;
    assert(args[0] == option && args[1] == text);
    assert(args.skip(2) =~= ops);
    assert(option.len() >= 2 && option[0] == '-');
    assert(option[1] == 's' || option[1] == 'n' || option.len() == 8);
    assert(!is_operand(option));
    assert(option != "--"@) by {
        assert("--"@.len() == 2 && "--"@[1] == '-');
    }
    assert(option != "-l"@) by {
        assert("-l"@.len() == 2 && "-l"@[1] == 'l');
    }
    assert(option != "--list"@) by {
        assert("--list"@.len() == 6);
    }
    match signal_of(text) {
        Some(signal) => {
            lemma_plan_operands(args, ops, 2, signal, Seq::empty());
            assert(Seq::<usize>::empty() + Seq::new(ops.len(), |k: int| (2 + k) as usize)
                =~= Seq::new(ops.len(), |k: int| (2 + k) as usize));
        },
        None => {},
    }
    assert(seq![option][0] == option);
}

/// Whether `-` before a text is no option, but names a signal.
pub open spec fn is_signal_text(text: Seq<char>) -> bool {
    &&& text.len() > 0
    &&& text != seq!['-']
    &&& text != seq!['l']
    &&& text != seq!['s']
    &&& text != seq!['n']
    &&& text != seq!['-', 'l', 'i', 's', 't']
    &&& text != seq!['-', 's', 'i', 'g', 'n', 'a', 'l']
}

proof fn lemma_dash_signal(
    args: Seq<Seq<char>>,
    i: int,
    text: Seq<char>,
    signal: i32,
    pids: Seq<usize>,
)
    requires
        0 <= i < args.len(),
        args[i] == seq!['-'] + text,
        is_signal_text(text),
    ensures
        plan_from(args, i, signal, pids, false) == (match signal_of(text) {
            Some(s) => plan_from(args, i + 1, s, pids, false),
            None => Err(KillError::InvalidSignal(SignalSpec { arg: i as usize, skip: 1 })),
        }),
{
    lemma_option_words();
    let arg = seq!['-'] + text;
    assert(arg.skip(1) =~= text);
    assert(arg.len() > 1 && arg[0] == '-');
    assert("--"@.skip(1) =~= seq!['-']);
    assert("-l"@.skip(1) =~= seq!['l']);
    assert("-s"@.skip(1) =~= seq!['s']);
    assert("-n"@.skip(1) =~= seq!['n']);
    assert("--list"@.skip(1) =~= seq!['-', 'l', 'i', 's', 't']);
    assert("--signal"@.skip(1) =~= seq!['-', 's', 'i', 'g', 'n', 'a', 'l']);
    assert("-"@.len() == 1);
    assert(!is_operand(arg));
}

/// The signal directly behind a `-` goes to all processes, whether they stand before or behind
/// it; of two the later counts.
pub proof fn law_dash_signal(
    text: Seq<char>,
    other: Seq<char>,
    ops: Seq<Seq<char>>,
    signal: i32,
    later: i32,
)
    requires
        is_signal_text(text),
        is_signal_text(other),
        signal_of(text) == Some(signal),
        signal_of(other) == Some(later),
        all_operands(ops),
        ops.len() > 0,
    ensures
        plan_of(seq![seq!['-'] + text] + ops) == Ok::<KillPlanView, KillError>(
            KillPlanView::Send { signal, pids: Seq::new(ops.len(), |k: int| (1 + k) as usize) },
        ),
        plan_of(ops.push(seq!['-'] + text)) == Ok::<KillPlanView, KillError>(
            KillPlanView::Send { signal, pids: Seq::new(ops.len(), |k: int| k as usize) },
        ),
        plan_of(seq![seq!['-'] + text, seq!['-'] + other] + ops) == Ok::<KillPlanView, KillError>(
            KillPlanView::Send {
                signal: later,
                pids: Seq::new(ops.len(), |k: int| (2 + k) as usize),
            },
        ),
{
    let none = Seq::<usize>::empty();
    let a = seq![seq!['-'] + text] + ops;
    assert(a[0] == seq!['-'] + text);
    assert(a.skip(1) =~= ops);
    lemma_dash_signal(a, 0, text, 15, none);
    lemma_plan_operands(a, ops, 1, signal, none);
    assert(none + Seq::new(ops.len(), |k: int| (1 + k) as usize) =~= Seq::new(
        ops.len(),
        |k: int| (1 + k) as usize,
    ));
    let b = ops.push(seq!['-'] + text);
    let n = ops.len() as int;
    lemma_option_words();
    assert forall|k: int| 0 <= k < n implies is_operand(#[trigger] b[k]) by {
        assert(b[k] == ops[k]);
    }
    lemma_operands(b, 0, n, 15, none);
    let pids = none + Seq::new(ops.len(), |k: int| (0 + k) as usize);
    assert(pids =~= Seq::new(ops.len(), |k: int| k as usize));
    lemma_dash_signal(b, n, text, 15, pids);
    assert(plan_from(b, n + 1, signal, pids, false) == Ok::<KillPlanView, KillError>(
        KillPlanView::Send { signal, pids },
    ));
    let c = seq![seq!['-'] + text, seq!['-'] + other] + ops;
    assert(c[0] == seq!['-'] + text && c[1] == seq!['-'] + other);
    assert(c.skip(2) =~= ops);
    lemma_dash_signal(c, 0, text, 15, none);
    lemma_dash_signal(c, 1, other, signal, none);
    lemma_plan_operands(c, ops, 2, later, none);
    assert(none + Seq::new(ops.len(), |k: int| (2 + k) as usize) =~= Seq::new(
        ops.len(),
        |k: int| (2 + k) as usize,
    ));
}

/// An unknown signal is refused, and a signal alone reaches no process.
pub proof fn law_dash_signal_alone(text: Seq<char>, rest: Seq<Seq<char>>)
    requires
        is_signal_text(text),
    ensures
        signal_of(text) is None ==> plan_of(seq![seq!['-'] + text] + rest) == Err::<
            KillPlanView,
            KillError,
        >(KillError::InvalidSignal(SignalSpec { arg: 0, skip: 1 })),
        signal_of(text) is Some ==> plan_of(seq![seq!['-'] + text]) == Err::<
            KillPlanView,
            KillError,
        >(KillError::NoPids),
{
    let a = seq![seq!['-'] + text] + rest;
    assert(a[0] == seq!['-'] + text);
    lemma_dash_signal(a, 0, text, 15, Seq::empty());
    let b = seq![seq!['-'] + text];
    lemma_dash_signal(b, 0, text, 15, Seq::empty());
}

/// `-l` or `--list` asks for the list, whatever processes stand before it and whatever follows.
pub proof fn law_list_option(ops: Seq<Seq<char>>, option: Seq<char>, rest: Seq<Seq<char>>)
    requires
        all_operands(ops),
        option == seq!['-', 'l'] || option == seq!['-', '-', 'l', 'i', 's', 't'],
    ensures
        plan_of(ops + seq![option] + rest) == Ok::<KillPlanView, KillError>(KillPlanView::List),
{
    lemma_option_words();
    let args = ops + seq![option] + rest;
    let n = ops.len() as int;
    assert forall|k: int| 0 <= k < n implies is_operand(#[trigger] args[k]) by {
        assert(args[k] == ops[k]);
    }
    lemma_operands(args, 0, n, 15, Seq::empty());
    assert(args[n] == option);
    assert(option[1] == 'l' || option.len() == 6);
    assert(option.len() >= 2 && option[0] == '-');
    assert("--"@.len() == 2 && "--"@[1] == '-');
    assert("-"@.len() == 1);
}

/// Only the existence is asked for by signal 0; 18 lets a process go on, 19 and 20 stop it, and
/// every other signal ends it.
pub proof fn law_effects(signal: i32)
    ensures
        effect_of(signal) == Effect::Probe <==> signal == 0,
        effect_of(signal) == Effect::Resume <==> signal == 18,
        effect_of(signal) == Effect::Suspend <==> signal == 19 || signal == 20,
        effect_of(signal) is Terminate <==> signal != 0 && !(18 <= signal <= 20),
        effect_of(signal) matches Effect::Terminate(code) ==> signal >= 0 ==> code == 128 + signal,
{
}

/// Hyphens in front of a process id are left out, and nothing else is.
pub proof fn law_hyphens_in_front(n: nat, s: Seq<char>)
    requires
        s.len() > 0 ==> s[0] != '-',
    ensures
        without_hyphens(Seq::new(n, |i: int| '-') + s) == s,
    decreases n,
{
    let all = Seq::new(n, |i: int| '-') + s;
    if n == 0 {
        assert(all =~= s);
    } else {
        law_hyphens_in_front((n - 1) as nat, s);
        assert(all[0] == '-');
        assert(all.drop_first() =~= Seq::new((n - 1) as nat, |i: int| '-') + s);
    }
}

/// What a request leads to: it fails if there is no such process; stopping and going on can also
/// be unavailable, and that comes first; what was tried and did not work fails in its own way.
pub proof fn law_delivery(
    e: Effect,
    available: bool,
    opened: bool,
    done: bool,
    r: Result<(), DeliverError>,
)
    requires
        call_ensures(deliver, (e, available, opened, done), r),
    ensures
        r is Ok <==> opened && (e == Effect::Probe || done) && (available || e == Effect::Probe || e
            is Terminate),
        r == Err::<(), DeliverError>(DeliverError::SuspendUnavailable) <==> !available && (e
            == Effect::Resume || e == Effect::Suspend),
        r == Err::<(), DeliverError>(DeliverError::NoSuchProcess) <==> !opened && (available || e
            == Effect::Probe || e is Terminate),
        r == Err::<(), DeliverError>(DeliverError::NotPermitted) ==> e is Terminate,
        r == Err::<(), DeliverError>(DeliverError::OperationFailed) ==> e == Effect::Resume || e
            == Effect::Suspend,
{
}

/// An entry of the table is the number in two places, the name behind `) SIG`, two spaces, and a
/// line break where it is the fifth in its line; the table has the entries in order.
pub proof fn law_table(n: int)
    requires
        1 <= n <= 31,
    ensures
        ({
            let e = entry(n);
            let name = name_of(n);
            &&& e.len() == 2 + 5 + name.len() + 2 + (if n % 5 == 0 {
                1int
            } else {
                0int
            })
            &&& e.subrange(7, name.len() as int + 7) == name
            &&& e.subrange(2, 7) == seq![')', ' ', 'S', 'I', 'G']
            &&& n >= 10 ==> e.take(2) == digits(n as nat)
            &&& n < 10 ==> e[0] == ' ' && e.subrange(1, 2) == digits(n as nat)
            &&& e.last() == '\n' <==> n % 5 == 0
            &&& entries(n) == entries(n - 1) + e
        }),
{
    reveal_strlit(") SIG");
    reveal_strlit("  ");
    assert(") SIG"@ =~= seq![')', ' ', 'S', 'I', 'G']);
    assert("  "@.len() == 2 && "  "@[1] == ' ');
    let e = entry(n);
    let name = name_of(n);
    reveal_with_fuel(digits, 3);
    assert(digits(n as nat).len() == if n < 10 {
        1nat
    } else {
        2
    });
    assert(e.subrange(7, name.len() as int + 7) =~= name);
    assert(e.subrange(2, 7) =~= seq![')', ' ', 'S', 'I', 'G']);
    if n >= 10 {
        assert(e.take(2) =~= digits(n as nat));
    } else {
        assert(e.subrange(1, 2) =~= digits(n as nat));
    }
}

/// Behind `--` everything is an operand, and what was read before it stays: the processes, and
/// the signal.
pub proof fn law_double_dash(
    ops: Seq<Seq<char>>,
    text: Seq<char>,
    signal: i32,
    rest: Seq<Seq<char>>,
)
    requires
        all_operands(ops),
        is_signal_text(text),
        signal_of(text) == Some(signal),
        ops.len() + rest.len() > 0,
    ensures
        ({
            let n = ops.len() as int;
            let pids = Seq::new(ops.len(), |k: int| k as usize);
            &&& plan_of(ops + seq![seq!['-', '-']] + rest) == Ok::<KillPlanView, KillError>(
                KillPlanView::Send {
                    signal: 15,
                    pids: pids + Seq::new(rest.len(), |k: int| (n + 1 + k) as usize),
                },
            )
            &&& plan_of(ops + seq![seq!['-'] + text, seq!['-', '-']] + rest) == Ok::<
                KillPlanView,
                KillError,
            >(
                KillPlanView::Send {
                    signal,
                    pids: pids + Seq::new(rest.len(), |k: int| (n + 2 + k) as usize),
                },
            )
        }),
{
    lemma_option_words();
    let none = Seq::<usize>::empty();
    let n = ops.len() as int;
    let pids = Seq::new(ops.len(), |k: int| k as usize);
    let dashes = seq!['-', '-'];
    assert(dashes[0] == '-' && dashes.len() == 2);
    assert(!is_operand(dashes)) by {
        assert("-"@.len() == 1);
    }
    let a = ops + seq![dashes] + rest;
    assert forall|k: int| 0 <= k < n implies is_operand(#[trigger] a[k]) by {
        assert(a[k] == ops[k]);
    }
    lemma_operands(a, 0, n, 15, none);
    assert(none + Seq::new(ops.len(), |k: int| (0 + k) as usize) =~= pids);
    assert(a[n] == dashes);
    law_all_operands_after_dashes(a, n + 1, 15, pids);
    assert(Seq::new((a.len() - (n + 1)) as nat, |k: int| (n + 1 + k) as usize) =~= Seq::new(
        rest.len(),
        |k: int| (n + 1 + k) as usize,
    ));
    let b = ops + seq![seq!['-'] + text, dashes] + rest;
    assert forall|k: int| 0 <= k < n implies is_operand(#[trigger] b[k]) by {
        assert(b[k] == ops[k]);
    }
    lemma_operands(b, 0, n, 15, none);
    assert(b[n] == seq!['-'] + text && b[n + 1] == dashes);
    lemma_dash_signal(b, n, text, 15, pids);
    law_all_operands_after_dashes(b, n + 2, signal, pids);
    assert(Seq::new((b.len() - (n + 2)) as nat, |k: int| (n + 2 + k) as usize) =~= Seq::new(
        rest.len(),
        |k: int| (n + 2 + k) as usize,
    ));
}

} // verus!
