//! `kill`: send signals to processes.
//!
//! The texts that name signals and processes are read outside, and signals are delivered
//! there. Here stand the reading of the command line, the state of the jobs afterwards,
//! and what is reported.

use crate::builtins::Status;
use crate::number::{int_text, write_int};
use crate::text::{copy_text, is_text, join, join_texts, push_str, push_text, texts};
use vstd::prelude::*;
use vstd::slice::slice_subrange;

verus! {

/// What a signal does to the process that gets it, as far as jobs are concerned.
#[derive(Clone, Copy, Debug, PartialEq, Eq, Structural)]
pub enum SignalClass {
    /// SIGSTOP.
    Stop,
    /// SIGTSTP.
    TerminalStop,
    /// SIGCONT.
    Continue,
    /// Any other signal.
    Other,
}

/// A signal that the system knows.
#[derive(Clone, Copy, Debug, PartialEq, Eq, Structural)]
pub struct Signal {
    /// Its number.
    pub raw: i32,
    pub class: SignalClass,
}

/// The numbers that stand for the same signals on every Unix system: SIGHUP, SIGINT, SIGQUIT,
/// SIGILL, SIGABRT, SIGFPE, SIGKILL, SIGSEGV, SIGALRM and SIGTERM, in this order. None of them
/// stops or continues a process.
pub open spec fn is_common_signal(code: i32) -> bool {
    code == 1 || code == 2 || code == 3 || code == 4 || code == 6 || code == 8 || code == 9 || code
        == 11 || code == 14 || code == 15
}

/// Whether a number can be that of a signal at all.
pub open spec fn can_be_signal(code: i32) -> bool {
    1 <= code <= 64
}

/// `nix::sys::signal::Signal::try_from`, on a signal number. It gives the signal with that
/// number, if the system has one. The common signals are there on every system that nix is
/// built for, under the numbers that libc gives them, and no signal has a number outside of 1
/// to 64. Which other numbers stand for signals, and which of those stop or continue a process,
/// differs from system to system and is not stated.
#[verifier::external_body]
pub fn system_signal(code: i32) -> (r: Option<Signal>)
    ensures
        r matches Some(s) ==> s.raw == code,
        is_common_signal(code) ==> r == Some(Signal { raw: code, class: SignalClass::Other }),
        !can_be_signal(code) ==> r is None,
{
    match nix::sys::signal::Signal::try_from(code) {
        Ok(nix::sys::signal::Signal::SIGSTOP) => {
            Some(Signal { raw: code, class: SignalClass::Stop })
        },
        Ok(nix::sys::signal::Signal::SIGTSTP) => {
            Some(Signal { raw: code, class: SignalClass::TerminalStop })
        },
        Ok(nix::sys::signal::Signal::SIGCONT) => {
            Some(Signal { raw: code, class: SignalClass::Continue })
        },
        Ok(_) => Some(Signal { raw: code, class: SignalClass::Other }),
        Err(_) => None,
    }
}

/// The signal with a number, if the system has one: what `system_signal` gives for it. Every
/// system has the common ones.
pub fn to_nix_signal(code: i32) -> (r: Option<Signal>)
    ensures
        call_ensures(system_signal, (code,), r),
        r matches Some(s) ==> s.raw == code,
        is_common_signal(code) ==> r == Some(Signal { raw: code, class: SignalClass::Other }),
        !can_be_signal(code) ==> r is None,
{
    system_signal(code)
}

/// A process of a job.
#[derive(Clone, Copy, Debug, PartialEq, Eq, Structural)]
pub struct Process {
    /// Its id, if it was started.
    pub pid: Option<i32>,
    /// Its status, as `waitpid` would report it.
    pub status: i32,
    /// Whether it is stopped.
    pub stopped: bool,
}

/// A job.
pub struct Job {
    pub processes: Vec<Process>,
    /// Whether its group is in the foreground.
    pub foreground: bool,
}

/// The contents of [`Job`].
#[verifier::ext_equal]
pub struct JobView {
    pub processes: Seq<Process>,
    pub foreground: bool,
}

impl View for Job {
    type V = JobView;

    open spec fn view(&self) -> JobView {
        JobView { processes: self.processes@, foreground: self.foreground }
    }
}

/// The contents of a list of jobs.
pub open spec fn job_views(jobs: Seq<Job>) -> Seq<JobView> {
    Seq::new(jobs.len(), |i: int| jobs[i]@)
}

/// Whether a signal stops a process (true) or lets it go on (false), and the status that
/// `waitpid` reports for it; nothing for the other signals.
pub open spec fn stop_effect(signal: Signal) -> Option<(bool, i32)> {
    match signal.class {
        SignalClass::Stop | SignalClass::TerminalStop => Some((true, (signal.raw << 8) | 0x7f)),
        SignalClass::Continue => Some((false, 0xffff)),
        SignalClass::Other => None,
    }
}

/// A process after process `pid` was stopped or continued.
pub open spec fn process_after(p: Process, pid: i32, stopped: bool, status: i32) -> Process {
    if p.pid == Some(pid) {
        Process { pid: p.pid, status, stopped }
    } else {
        p
    }
}

/// Whether a job has a process with an id.
pub open spec fn has_pid(job: JobView, pid: i32) -> bool {
    exists|k: int| 0 <= k < job.processes.len() && (#[trigger] job.processes[k]).pid == Some(pid)
}

/// A job after process `pid` was stopped or continued: a job that was stopped leaves the
/// foreground.
pub open spec fn job_after(job: JobView, pid: i32, stopped: bool, status: i32) -> JobView {
    JobView {
        processes: Seq::new(
            job.processes.len(),
            |k: int| process_after(job.processes[k], pid, stopped, status),
        ),
        foreground: job.foreground && !(stopped && has_pid(job, pid)),
    }
}

/// The jobs after a signal was delivered to process `pid`.
pub open spec fn jobs_after(jobs: Seq<JobView>, pid: i32, signal: Signal) -> Seq<JobView> {
    match stop_effect(signal) {
        Some((stopped, status)) => Seq::new(
            jobs.len(),
            |i: int| job_after(jobs[i], pid, stopped, status),
        ),
        None => jobs,
    }
}

/// Marks the processes of one job.
fn mark_job(job: &mut Job, pid: i32, stopped: bool, status: i32)
    ensures
        final(job)@ == job_after(old(job)@, pid, stopped, status),
{
    let ghost before = job@;
    let n: usize = job.processes.len();
    let mut matched: bool = false;
    let mut k: usize = 0;
    while k < n
        invariant
            k <= n,
            n == before.processes.len(),
            job.processes@.len() == n,
            job.foreground == before.foreground,
            forall|j: int|
                0 <= j < k ==> job.processes@[j] == process_after(
                    before.processes[j],
                    pid,
                    stopped,
                    status,
                ),
            forall|j: int| k <= j < n ==> job.processes@[j] == before.processes[j],
            matched == exists|j: int|
                0 <= j < k && (#[trigger] before.processes[j]).pid == Some(pid),
        decreases n - k,
    {
        let p: Process = job.processes[k];
        assert(p == before.processes[k as int]);
        let hit: bool = match p.pid {
            Some(id) => id == pid,
            None => false,
        };
        if hit {
            job.processes[k] = Process { pid: p.pid, status, stopped };
            matched = true;
            assert(before.processes[k as int].pid == Some(pid));
        }
        k += 1;
    }
    assert(job.processes@ =~= job_after(before, pid, stopped, status).processes);
    if matched && stopped {
        job.foreground = false;
    }
}

/// Reflect a stop/continue that was just delivered into the owning job's state.
///
/// Where stopping a child produces no `waitpid`-observable status, the reaper never learns
/// that the job stopped or resumed; the matching process' state is then updated directly.
pub fn reflect_stop_state(jobs: &mut Vec<Job>, pid: i32, signal: Signal)
    ensures
        job_views(final(jobs)@) == jobs_after(job_views(old(jobs)@), pid, signal),
{
    let (stopped, status): (bool, i32) = match signal.class {
        SignalClass::Stop | SignalClass::TerminalStop => (true, (signal.raw << 8) | 0x7f),
        SignalClass::Continue => (false, 0xffff),
        SignalClass::Other => {
            return ;
        },
    };
    let ghost before = job_views(jobs@);
    let n: usize = jobs.len();
    let mut i: usize = 0;
    while i < n
        invariant
            i <= n,
            n == before.len(),
            jobs@.len() == n,
            forall|j: int| 0 <= j < i ==> jobs@[j]@ == job_after(before[j], pid, stopped, status),
            forall|j: int| i <= j < n ==> (#[trigger] jobs@[j])@ == before[j],
        decreases n - i,
    {
        assert(jobs@[i as int]@ == before[i as int]);
        mark_job(&mut jobs[i], pid, stopped, status);
        i += 1;
    }
    assert(job_views(jobs@) =~= jobs_after(before, pid, signal));
}

/// Where the name or number of a signal stands: in argument `arg`, without its first
/// `skip` characters.
#[derive(Clone, Copy, Debug, PartialEq, Eq, Structural)]
pub struct SignalSpec {
    pub arg: usize,
    pub skip: usize,
}

/// What `kill` is asked to do. Operands are named by the index of the first.
#[derive(Clone, Copy, Debug, PartialEq, Eq, Structural)]
pub enum KillRequest {
    /// List signals, or translate those that the operands name.
    List { first: usize },
    /// Send a signal to the processes that the operands name: SIGTERM, if none is given.
    Send { signal: Option<SignalSpec>, first: usize },
    /// `-s` is the last argument.
    SignalMissing,
}

/// What the arguments of `kill` ask for. Only the first argument can be an option: `-s SIG`,
/// `-SIG`, `-NUM`, or `-l`; `--` stands before operands only.
pub open spec fn request_of(args: Seq<Seq<char>>) -> KillRequest {
    if args.len() <= 1 {
        KillRequest::Send { signal: None, first: args.len() as usize }
    } else if args[1] == "--"@ {
        KillRequest::Send { signal: None, first: 2 }
    } else if args[1] == "-l"@ || args[1] == "--list"@ || args[1] == "-L"@ {
        KillRequest::List { first: 2 }
    } else if args[1] == "-s"@ || args[1] == "--signal"@ {
        if args.len() == 2 {
            KillRequest::SignalMissing
        } else {
            KillRequest::Send { signal: Some(SignalSpec { arg: 2, skip: 0 }), first: 3 }
        }
    } else if args[1].len() > 1 && args[1][0] == '-' {
        KillRequest::Send { signal: Some(SignalSpec { arg: 1, skip: 1 }), first: 2 }
    } else {
        KillRequest::Send { signal: None, first: 1 }
    }
}

/// What `kill` is asked to do.
pub fn kill(args: &[Vec<char>]) -> (r: KillRequest)
    requires
        args@.len() > 0,
    ensures
        r == request_of(texts(args@)),
        r matches KillRequest::List { first } ==> first <= args@.len(),
        r matches KillRequest::Send { signal, first } ==> first <= args@.len() && (signal matches Some(
            s,
        ) ==> s.arg < args@.len() && s.skip <= args@[s.arg as int]@.len()),
{
    if args.len() == 1 {
        return KillRequest::Send { signal: None, first: 1 };
    }
    let arg = args[1].as_slice();
    assert(texts(args@)[1] == arg@);
    if is_text(arg, "--") {
        return KillRequest::Send { signal: None, first: 2 };
    }
    if is_text(arg, "-l") || is_text(arg, "--list") || is_text(arg, "-L") {
        return KillRequest::List { first: 2 };
    }
    if is_text(arg, "-s") || is_text(arg, "--signal") {
        if args.len() == 2 {
            return KillRequest::SignalMissing;
        }
        return KillRequest::Send { signal: Some(SignalSpec { arg: 2, skip: 0 }), first: 3 };
    }
    if arg.len() > 1 && arg[0] == '-' {
        return KillRequest::Send { signal: Some(SignalSpec { arg: 1, skip: 1 }), first: 2 };
    }
    KillRequest::Send { signal: None, first: 1 }
}

/// The text that names a signal.
pub open spec fn spec_text(args: Seq<Seq<char>>, s: SignalSpec) -> Seq<char> {
    args[s.arg as int].skip(s.skip as int)
}

/// The text that names a signal.
pub fn signal_text(args: &[Vec<char>], s: SignalSpec) -> (r: Vec<char>)
    requires
        s.arg < args@.len(),
        s.skip <= args@[s.arg as int]@.len(),
    ensures
        r@ == spec_text(texts(args@), s),
{
    let arg = args[s.arg].as_slice();
    assert(arg@.subrange(s.skip as int, arg@.len() as int) =~= arg@.skip(s.skip as int));
    copy_text(slice_subrange(arg, s.skip, arg.len()))
}

/// Why `kill` stops before it sends anything.
#[derive(Clone, Copy, Debug, PartialEq, Eq, Structural)]
pub enum KillError {
    /// `-s` without a signal.
    SignalMissing,
    /// A signal that the system does not have.
    UnknownSignal(SignalSpec),
    /// No operands.
    NoOperands,
}

/// Decides which signal to send. `parsed` is the signal that the text at `signal` names, if
/// it names one; `term` is SIGTERM; `operands` is the number of operands.
pub fn choose_signal(
    signal: Option<SignalSpec>,
    parsed: Option<Signal>,
    term: Signal,
    operands: usize,
) -> (r: Result<Signal, KillError>)
    ensures
        r == (match (signal, parsed) {
            (Some(s), None) => Err(KillError::UnknownSignal(s)),
            (Some(s), Some(p)) => if operands == 0 {
                Err(KillError::NoOperands)
            } else {
                Ok(p)
            },
            (None, _) => if operands == 0 {
                Err(KillError::NoOperands)
            } else {
                Ok(term)
            },
        }),
{
    let chosen: Signal = match signal {
        Some(s) => match parsed {
            Some(p) => p,
            None => {
                return Err(KillError::UnknownSignal(s));
            },
        },
        None => term,
    };
    if operands == 0 {
        return Err(KillError::NoOperands);
    }
    Ok(chosen)
}

/// What became of an operand.
#[derive(Clone, Copy, Debug, PartialEq, Eq, Structural)]
pub enum Delivery {
    /// It is not the id of a process.
    NotAPid,
    /// The signal could not be sent.
    Failed(i32),
    /// The signal was sent.
    Sent(i32),
}

/// What to do about an operand.
#[derive(Clone, Copy, Debug, PartialEq, Eq, Structural)]
pub enum KillStep {
    /// Send the signal to this process.
    Send(i32),
    /// Nothing more: this became of it.
    Done(Delivery),
}

/// What to do about an operand that writes a number, or none.
pub open spec fn step_for(parsed: Option<i32>) -> KillStep {
    match parsed {
        Some(pid) => KillStep::Send(pid),
        None => KillStep::Done(Delivery::NotAPid),
    }
}

/// What to do about an operand, given the number that it writes, if it writes one.
pub fn next_delivery(parsed: Option<i32>) -> (r: KillStep)
    ensures
        r == step_for(parsed),
{
    match parsed {
        Some(pid) => KillStep::Send(pid),
        None => KillStep::Done(Delivery::NotAPid),
    }
}

/// What became of an operand whose signal was to be sent.
pub fn after_send(pid: i32, sent: bool) -> (r: Delivery)
    ensures
        r == if sent {
            Delivery::Sent(pid)
        } else {
            Delivery::Failed(pid)
        },
{
    if sent {
        Delivery::Sent(pid)
    } else {
        Delivery::Failed(pid)
    }
}

/// What to do about all operands.
pub open spec fn steps_for(parsed: Seq<Option<i32>>) -> Seq<KillStep> {
    parsed.map_values(|p: Option<i32>| step_for(p))
}

/// What to do about all operands: one step for each, in order.
pub fn kill_steps(parsed: &[Option<i32>]) -> (r: Vec<KillStep>)
    ensures
        r@ == steps_for(parsed@),
{
    let mut steps: Vec<KillStep> = Vec::new();
    let mut i: usize = 0;
    while i < parsed.len()
        invariant
            i <= parsed@.len(),
            steps@.len() == i,
            forall|k: int| 0 <= k < i ==> steps@[k] == step_for(parsed@[k]),
        decreases parsed@.len() - i,
    {
        steps.push(next_delivery(parsed[i]));
        i += 1;
    }
    assert(steps@ =~= steps_for(parsed@));
    steps
}

/// The sends that some steps make, each to a process with the signal.
pub open spec fn sends_of(steps: Seq<KillStep>, signal: Signal) -> Seq<(i32, Signal)>
    decreases steps.len(),
{
    if steps.len() == 0 {
        Seq::empty()
    } else {
        let before = sends_of(steps.drop_last(), signal);
        match steps.last() {
            KillStep::Send(pid) => before.push((pid, signal)),
            KillStep::Done(_) => before,
        }
    }
}

/// The numbers among what some operands write.
pub open spec fn numbers_in(parsed: Seq<Option<i32>>) -> Seq<i32>
    decreases parsed.len(),
{
    if parsed.len() == 0 {
        Seq::empty()
    } else {
        let before = numbers_in(parsed.drop_last());
        match parsed.last() {
            Some(pid) => before.push(pid),
            None => before,
        }
    }
}

/// The signal is sent once for each operand that writes a number, in the order of the operands,
/// and for no other.
pub proof fn law_one_send_per_operand(parsed: Seq<Option<i32>>, signal: Signal)
    ensures
        sends_of(steps_for(parsed), signal) == numbers_in(parsed).map_values(
            |pid: i32| (pid, signal),
        ),
    decreases parsed.len(),
{
    let sends = sends_of(steps_for(parsed), signal);
    if parsed.len() > 0 {
        law_one_send_per_operand(parsed.drop_last(), signal);
        assert(steps_for(parsed).drop_last() =~= steps_for(parsed.drop_last()));
    }
    assert(sends =~= numbers_in(parsed).map_values(|pid: i32| (pid, signal)));
}

/// The status after an operand.
pub open spec fn status_after(status: Result<(), Status>, delivery: Delivery) -> Result<(), Status> {
    match delivery {
        Delivery::NotAPid => Err(Status::InvalidArgs),
        Delivery::Failed(_) => Err(Status::CmdError),
        Delivery::Sent(_) => status,
    }
}

/// The status after all operands.
pub open spec fn status_of_all(deliveries: Seq<Delivery>) -> Result<(), Status>
    decreases deliveries.len(),
{
    if deliveries.len() == 0 {
        Ok(())
    } else {
        status_after(status_of_all(deliveries.drop_last()), deliveries.last())
    }
}

/// The status after all operands: the last one that went wrong decides.
pub fn kill_status(deliveries: &[Delivery]) -> (r: Result<(), Status>)
    ensures
        r == status_of_all(deliveries@),
{
    let mut status: Result<(), Status> = Ok(());
    let mut i: usize = 0;
    while i < deliveries.len()
        invariant
            i <= deliveries@.len(),
            status == status_of_all(deliveries@.take(i as int)),
        decreases deliveries@.len() - i,
    {
        assert(deliveries@.take(i as int + 1).drop_last() =~= deliveries@.take(i as int));
        match deliveries[i] {
            Delivery::NotAPid => {
                status = Err(Status::InvalidArgs);
            },
            Delivery::Failed(_) => {
                status = Err(Status::CmdError);
            },
            Delivery::Sent(_) => {},
        }
        i += 1;
    }
    assert(deliveries@.take(i as int) =~= deliveries@);
    status
}

/// The status is success exactly if every operand got its signal.
pub proof fn law_success_means_all_sent(deliveries: Seq<Delivery>)
    ensures
        status_of_all(deliveries) is Ok <==> forall|i: int|
            0 <= i < deliveries.len() ==> (#[trigger] deliveries[i]) is Sent,
    decreases deliveries.len(),
{
    if deliveries.len() > 0 {
        let front = deliveries.drop_last();
        law_success_means_all_sent(front);
        if status_of_all(deliveries) is Ok {
            assert forall|i: int| 0 <= i < deliveries.len() implies (
            #[trigger] deliveries[i]) is Sent by {
                if i < front.len() {
                    assert(front[i] is Sent);
                }
            }
        } else if deliveries.last() is Sent {
            let k = choose|k: int| 0 <= k < front.len() && !((#[trigger] front[k]) is Sent);
            assert(!(deliveries[k] is Sent));
        } else {
            assert(!(deliveries[deliveries.len() - 1] is Sent));
        }
    }
}

/// After a signal was sent to this very process (or its group, process id 0), the status to
/// exit with, if the signal's default action is to end the process.
pub fn exit_after_self_signal(pid: i32, own_pid: i32, signal: i32, ends_process: bool) -> (r:
    Option<i32>)
    requires
        signal <= i32::MAX - 128,
    ensures
        r == if (pid == 0 || pid == own_pid) && ends_process {
            Some((128 + signal) as i32)
        } else {
            None
        },
{
    if (pid == 0 || pid == own_pid) && ends_process {
        Some(128 + signal)
    } else {
        None
    }
}

/// The message for an error.
pub open spec fn message_of(e: KillError, args: Seq<Seq<char>>) -> Seq<char> {
    match e {
        KillError::SignalMissing => args[0] + ": -s requires a signal name"@,
        KillError::UnknownSignal(s) => unknown_signal(args[0], spec_text(args, s)),
        KillError::NoOperands => args[0] + ": expected at least one process id"@,
    }
}

impl KillError {
    /// The text to report.
    pub fn message(self, args: &[Vec<char>]) -> (r: Vec<char>)
        requires
            args@.len() > 0,
            self matches KillError::UnknownSignal(s) ==> s.arg < args@.len() && s.skip
                <= args@[s.arg as int]@.len(),
        ensures
            r@ == message_of(self, texts(args@)),
    {
        let mut m = copy_text(args[0].as_slice());
        match self {
            KillError::SignalMissing => {
                push_str(&mut m, ": -s requires a signal name");
            },
            KillError::UnknownSignal(s) => {
                let t = signal_text(args, s);
                return unknown_signal_message(args[0].as_slice(), t.as_slice());
            },
            KillError::NoOperands => {
                push_str(&mut m, ": expected at least one process id");
            },
        }
        m
    }

    /// The status to return.
    pub fn status(self) -> (r: Status)
        ensures
            r == Status::InvalidArgs,
    {
        Status::InvalidArgs
    }
}

/// The message about an operand, if something went wrong.
pub fn delivery_message(cmd: &[char], operand: &[char], delivery: Delivery) -> (r: Option<Vec<char>>)
    ensures
        (match r {
            Some(m) => Some(m@),
            None => None,
        }) == (match delivery {
            Delivery::NotAPid => Some(cmd@ + ": '"@ + operand@ + "' is not a valid process id"@),
            Delivery::Failed(pid) => Some(
                cmd@ + ": Failed to send signal to job "@ + int_text(pid as int),
            ),
            Delivery::Sent(_) => None,
        }),
{
    let mut m = copy_text(cmd);
    match delivery {
        Delivery::NotAPid => {
            push_str(&mut m, ": '");
            push_text(&mut m, operand);
            push_str(&mut m, "' is not a valid process id");
            Some(m)
        },
        Delivery::Failed(pid) => {
            push_str(&mut m, ": Failed to send signal to job ");
            let d = write_int(pid as i64);
            push_text(&mut m, d.as_slice());
            Some(m)
        },
        Delivery::Sent(_) => None,
    }
}

/// What is reported of a text that names no signal.
pub open spec fn unknown_signal(cmd: Seq<char>, spec: Seq<char>) -> Seq<char> {
    cmd + ": "@ + spec + ": unknown signal"@
}

/// What is reported of a text that names no signal.
pub fn unknown_signal_message(cmd: &[char], spec: &[char]) -> (r: Vec<char>)
    ensures
        r@ == unknown_signal(cmd@, spec@),
{
    let mut m = copy_text(cmd);
    push_str(&mut m, ": ");
    push_text(&mut m, spec);
    push_str(&mut m, ": unknown signal");
    m
}

/// What is known of a signal that an operand of `kill -l` names.
pub struct Lookup {
    /// Its number and name, if there is such a signal.
    pub found: Option<(i32, Vec<char>)>,
    /// Whether the operand is a number.
    pub numeric: bool,
}

/// The line that `kill -l` prints for an operand: the name for a number, the number for a
/// name, nothing for what is no signal.
pub open spec fn list_line(l: Lookup) -> Option<Seq<char>> {
    match l.found {
        Some((code, name)) => if l.numeric {
            Some(name@)
        } else {
            Some(int_text(code as int))
        },
        None => None,
    }
}

/// Translates the operands of `kill -l`: a line for each, or nothing where it names no
/// signal; and the status.
pub fn builtin_kill_list(lookups: &[Lookup]) -> (r: (Vec<Option<Vec<char>>>, Result<(), Status>))
    ensures
        r.0@.len() == lookups@.len(),
        forall|i: int|
            0 <= i < lookups@.len() ==> list_line(#[trigger] lookups@[i]) == (match r.0@[i] {
                Some(line) => Some(line@),
                None => None,
            }),
        r.1 == if exists|i: int| 0 <= i < lookups@.len() && (#[trigger] lookups@[i]).found is None {
            Err::<(), Status>(Status::InvalidArgs)
        } else {
            Ok(())
        },
{
    let mut lines: Vec<Option<Vec<char>>> = Vec::new();
    let mut bad: bool = false;
    let mut i: usize = 0;
    while i < lookups.len()
        invariant
            i <= lookups@.len(),
            lines@.len() == i,
            forall|k: int|
                0 <= k < i ==> list_line(#[trigger] lookups@[k]) == (match lines@[k] {
                    Some(line) => Some(line@),
                    None => None,
                }),
            bad == exists|k: int| 0 <= k < i && (#[trigger] lookups@[k]).found is None,
        decreases lookups@.len() - i,
    {
        let l = &lookups[i];
        match &l.found {
            Some((code, name)) => {
                if l.numeric {
                    lines.push(Some(copy_text(name.as_slice())));
                } else {
                    lines.push(Some(write_int(*code as i64)));
                }
            },
            None => {
                lines.push(None);
                bad = true;
                assert(lookups@[i as int].found is None);
            },
        }
        i += 1;
    }
    if bad {
        (lines, Err(Status::InvalidArgs))
    } else {
        (lines, Ok(()))
    }
}

/// The names that stand for signals: `Unknown` stands for none.
pub open spec fn known_names(names: Seq<Seq<char>>) -> Seq<Seq<char>>
    decreases names.len(),
{
    if names.len() == 0 {
        Seq::empty()
    } else if names.last() == "Unknown"@ {
        known_names(names.drop_last())
    } else {
        known_names(names.drop_last()).push(names.last())
    }
}

/// The line that lists all signals, given the names of the signal numbers in order.
pub fn signal_list(names: &[Vec<char>]) -> (r: Vec<char>)
    ensures
        r@ == join(known_names(texts(names@)), seq![' ']),
{
    let mut known: Vec<Vec<char>> = Vec::new();
    let ghost all = texts(names@);
    let mut i: usize = 0;
    assert(texts(known@) =~= known_names(all.take(0)));
    while i < names.len()
        invariant
            i <= names@.len(),
            all == texts(names@),
            texts(known@) == known_names(all.take(i as int)),
        decreases names@.len() - i,
    {
        let ghost before = texts(known@);
        let ghost next = all.take(i as int + 1);
        assert(next.drop_last() =~= all.take(i as int));
        assert(next.last() == names@[i as int]@);
        if !is_text(names[i].as_slice(), "Unknown") {
            known.push(copy_text(names[i].as_slice()));
            assert(texts(known@) =~= before.push(names@[i as int]@));
        }
        i += 1;
    }
    assert(all.take(i as int) =~= all);
    let sep: &[char] = &[' '];
    assert(sep@ =~= seq![' ']);
    join_texts(known.as_slice(), sep)
}

/// A signal that neither stops nor continues leaves the jobs as they are.
pub proof fn law_other_signals_leave_jobs(jobs: Seq<JobView>, pid: i32, signal: Signal)
    requires
        signal.class == SignalClass::Other,
    ensures
        jobs_after(jobs, pid, signal) == jobs,
{
}

/// Delivering the same stop or continue again changes nothing more.
pub proof fn law_reflect_is_idempotent(jobs: Seq<JobView>, pid: i32, signal: Signal)
    ensures
        jobs_after(jobs_after(jobs, pid, signal), pid, signal) == jobs_after(jobs, pid, signal),
{
    if let Some((stopped, status)) = stop_effect(signal) {
        let once = jobs_after(jobs, pid, signal);
        let twice = jobs_after(once, pid, signal);
        assert forall|i: int| 0 <= i < jobs.len() implies twice[i] == #[trigger] once[i] by {
            assert(twice[i].processes =~= once[i].processes);
            if has_pid(once[i], pid) {
                let k = choose|k: int|
                    0 <= k < once[i].processes.len() && (#[trigger] once[i].processes[k]).pid
                        == Some(pid);
                assert(jobs[i].processes[k].pid == Some(pid));
            }
        }
        assert(twice =~= once);
    }
}

/// A process that is stopped and then continued counts as running; what belongs to other
/// processes is as before.
pub proof fn law_stop_then_continue(job: JobView, pid: i32, stop: Signal, cont: Signal, k: int)
    requires
        stop.class == SignalClass::Stop || stop.class == SignalClass::TerminalStop,
        cont.class == SignalClass::Continue,
        0 <= k < job.processes.len(),
    ensures
        ({
            let after = jobs_after(jobs_after(seq![job], pid, stop), pid, cont)[0];
            if job.processes[k].pid == Some(pid) {
                !after.processes[k].stopped
            } else {
                after.processes[k] == job.processes[k]
            }
        }),
{
}

} // verus!
