use fishbowl::builtins::kill::SignalSpec;
use fishbowl::man_pages::{docs_wanted, weigh, sphinx_args, Docs, Run, Consequence};
use fishbowl::notifier::{
    file_changed, has_whole_records, notification_fd_became_readable, watch_loop, watch_target,
    WatchStep,
};
use fishbowl::terminal::isatty;
use fishbowl::tools::kill::{
    deliver, deliver_message, effect, exit_status, invalid_pid_message, plan, signal_table, target_pid,
    usage_error, DeliverError, Effect, KillError, KillPlan,
};
use fishbowl::tools::signals::{sig_from_spec, signal_name};
use fishbowl::tools::test_helper::{
    command, listed_fds, print_fds, print_pgrp, sigint_parent, Command,
};

fn chars(s: &str) -> Vec<char> {
    s.chars().collect()
}

fn text(v: &[char]) -> String {
    v.iter().collect()
}

fn args(list: &[&str]) -> Vec<Vec<char>> {
    list.iter().map(|s| chars(s)).collect()
}

fn sig(s: &str) -> Option<i32> {
    sig_from_spec(&chars(s))
}

#[test]
fn signal_specs() {
    for n in 1..=31 {
        let name = signal_name(n);
        assert_eq!(sig(name), Some(n as i32));
        assert_eq!(sig(&format!("SIG{name}")), Some(n as i32));
        assert_eq!(sig(&format!("\t{}\n", name.to_lowercase())), Some(n as i32));
        assert_eq!(sig(&format!(" {n} ")), Some(n as i32));
        assert_eq!(sig(&format!(" sig{} ", name.to_lowercase())), Some(n as i32));
    }
    assert_eq!(sig("IOT"), Some(6));
    assert_eq!(sig("cld"), Some(17));
    assert_eq!(sig("POLL"), Some(29));
    assert_eq!(sig("9"), Some(9));
    assert_eq!(sig(" -7 "), Some(-7));
    assert_eq!(sig("+0"), Some(0));
    assert_eq!(sig("2147483647"), Some(i32::MAX));
    for bad in ["", "SIG", "SIGSIGKILL", "2147483648", "KIL", "1x", "K ILL"] {
        assert_eq!(sig(bad), None, "{bad:?}");
    }
}

fn planned(list: &[&str]) -> Result<Option<(i32, Vec<usize>)>, KillError> {
    plan(&args(list)).map(|p| match p {
        KillPlan::List => None,
        KillPlan::Send { signal, pids } => Some((signal, pids)),
    })
}

#[test]
fn kill_command_line() {
    assert_eq!(planned(&["7"]), Ok(Some((15, vec![0]))));
    assert_eq!(planned(&["-9", "7", "8"]), Ok(Some((9, vec![1, 2]))));
    assert_eq!(planned(&["7", "-KILL", "8"]), Ok(Some((9, vec![0, 2]))));
    assert_eq!(planned(&["-s", "HUP", "7"]), Ok(Some((1, vec![2]))));
    assert_eq!(planned(&["-n", "2", "7"]), Ok(Some((2, vec![2]))));
    assert_eq!(planned(&["--signal", "sigint", "7"]), Ok(Some((2, vec![2]))));
    assert_eq!(planned(&["-9", "-15", "7"]), Ok(Some((15, vec![2]))));
    assert_eq!(planned(&["--", "-7", "-l"]), Ok(Some((15, vec![1, 2]))));
    assert_eq!(planned(&["-", "x"]), Ok(Some((15, vec![0, 1]))));
    assert_eq!(planned(&[""]), Ok(Some((15, vec![0]))));
    assert_eq!(planned(&["7", "-l", "-bad"]), Ok(None));
    assert_eq!(planned(&["--list"]), Ok(None));
    assert_eq!(planned(&[]), Err(KillError::NoPids));
    assert_eq!(planned(&["-9"]), Err(KillError::NoPids));
    assert_eq!(planned(&["7", "-s"]), Err(KillError::MissingArgument));
    let bad = |arg: usize, skip: usize| Err(KillError::InvalidSignal(SignalSpec { arg, skip }));
    assert_eq!(planned(&["-s", "nope", "7"]), bad(1, 0));
    assert_eq!(planned(&["7", "-nope"]), bad(1, 1));
    assert_eq!(planned(&["-L"]), bad(0, 1));
}

#[test]
fn kill_messages() {
    let a = args(&["-nope"]);
    let e = KillError::InvalidSignal(SignalSpec { arg: 0, skip: 1 });
    assert_eq!(text(&usage_error(e, &a)), "kill: invalid signal: nope");
    assert_eq!(
        text(&usage_error(KillError::MissingArgument, &a)),
        "kill: option requires an argument"
    );
    assert_eq!(
        text(&usage_error(KillError::NoPids, &a)),
        "kill: usage: kill [-s sigspec | -signum | -sigspec] pid..."
    );
    assert_eq!(text(&invalid_pid_message(&chars("x"))), "kill: invalid pid: x");
    let msg = |e: DeliverError| text(&deliver_message(42, e));
    assert_eq!(msg(DeliverError::NoSuchProcess), "kill: (42) - No such process");
    assert_eq!(msg(DeliverError::SuspendUnavailable), "kill: (42) - suspend/resume unavailable");
    assert_eq!(msg(DeliverError::OperationFailed), "kill: (42) - operation failed");
    assert_eq!(msg(DeliverError::NotPermitted), "kill: (42) - operation not permitted");
}

#[test]
fn kill_targets() {
    let pid = |s: &str| target_pid(&chars(s));
    assert_eq!(pid("42"), Some(42));
    assert_eq!(pid("-42"), Some(42));
    assert_eq!(pid("--42"), Some(42));
    assert_eq!(pid("+42"), Some(42));
    assert_eq!(pid("4294967295"), Some(u32::MAX));
    for bad in ["", "-", "4294967296", " 42", "4x"] {
        assert_eq!(pid(bad), None, "{bad:?}");
    }
}

#[test]
fn exit_statuses() {
    assert_eq!(exit_status(&[]), 0);
    assert_eq!(exit_status(&[false, false]), 0);
    assert_eq!(exit_status(&[false, true, false]), 1);
    assert_eq!(KillError::MissingArgument.status(), 2);
    assert_eq!(KillError::NoPids.status(), 2);
}

#[test]
fn effects_of_signals() {
    assert_eq!(effect(0), Effect::Probe);
    assert_eq!(effect(18), Effect::Resume);
    assert_eq!(effect(19), Effect::Suspend);
    assert_eq!(effect(20), Effect::Suspend);
    assert_eq!(effect(9), Effect::Terminate(137));
    assert_eq!(effect(15), Effect::Terminate(143));
    for s in [-1, -128, -129, -500, i32::MIN, i32::MAX, 64] {
        assert_eq!(effect(s), Effect::Terminate(128i32.wrapping_add(s) as u32));
    }
}

#[test]
fn deliveries() {
    let gone = Err(DeliverError::NoSuchProcess);
    assert_eq!(deliver(Effect::Probe, false, true, false), Ok(()));
    assert_eq!(deliver(Effect::Probe, false, false, false), gone);
    for e in [Effect::Resume, Effect::Suspend] {
        assert_eq!(deliver(e, true, true, true), Ok(()));
        assert_eq!(deliver(e, false, false, true), Err(DeliverError::SuspendUnavailable));
        assert_eq!(deliver(e, true, false, true), gone);
        assert_eq!(deliver(e, true, true, false), Err(DeliverError::OperationFailed));
    }
    assert_eq!(deliver(Effect::Terminate(1), false, true, true), Ok(()));
    assert_eq!(deliver(Effect::Terminate(1), true, false, true), gone);
    assert_eq!(deliver(Effect::Terminate(1), true, true, false), Err(DeliverError::NotPermitted));
}

#[test]
fn the_table_of_signals() {
    let mut expected = String::new();
    for n in 1..=31 {
        expected += &format!("{:2}) SIG{}  ", n, signal_name(n));
        if n % 5 == 0 {
            expected.push('\n');
        }
    }
    expected.push('\n');
    assert_eq!(text(&signal_table()), expected);
    assert!(expected.starts_with(" 1) SIGHUP   2) SIGINT  "));
}

#[test]
fn helper_commands() {
    let cmd = |l: &[&str]| command(&args(l));
    assert_eq!(cmd(&["h", "print_fds"]), Command::PrintFds);
    assert_eq!(cmd(&["h", "print_pid_then_sleep"]), Command::PrintPidThenSleep);
    assert_eq!(cmd(&["h", "print_pgrp"]), Command::PrintPgrp);
    assert_eq!(cmd(&["h", "print_blocked_signals"]), Command::PrintBlockedSignals);
    assert_eq!(cmd(&["h", "print_ignored_signals"]), Command::PrintIgnoredSignals);
    assert_eq!(cmd(&["h", "sigkill_self"]), Command::SigkillSelf);
    assert_eq!(cmd(&["h", "sigint_self"]), Command::SigintSelf);
    assert_eq!(cmd(&["h", "sigint_parent", "x"]), Command::SigintParent);
    assert_eq!(cmd(&["h", "report_foreground"]), Command::ReportForeground);
    assert_eq!(cmd(&["h", "help"]), Command::Help);
    assert_eq!(cmd(&["h", "nope"]), Command::Unknown);
    assert_eq!(cmd(&["h"]), Command::Unknown);
    assert_eq!(cmd(&[]), Command::Unknown);
}

#[test]
fn inherited_descriptors() {
    let line = |m: Option<&str>| text(&print_fds(&m.map(chars)));
    assert_eq!(line(None), "0 1 2");
    assert_eq!(line(Some("")), "");
    assert_eq!(line(Some(" 2\t10 1  2 -3 x 1 ")), "-3 1 2 10");
    assert_eq!(line(Some("5\n4\u{3000}3")), "3 4 5");
    assert_eq!(listed_fds(&Some(chars("9 8 9999999999 7"))), [7, 8, 9]);
}

#[test]
fn process_groups() {
    let line = |g: Option<&str>| text(&print_pgrp(&g.map(chars), 77));
    assert_eq!(line(None), "77");
    assert_eq!(line(Some("self")), "77");
    assert_eq!(line(Some("")), "77");
    assert_eq!(line(Some("12")), "12");
    assert_eq!(sigint_parent(&Some(chars("12"))), Some(12));
    assert_eq!(sigint_parent(&Some(chars(" 12"))), None);
    assert_eq!(sigint_parent(&None), None);
}

#[test]
fn terminals() {
    assert!(isatty(1));
    assert!(isatty(64));
    assert!(!isatty(0));
}

/// A buffer with a record for each name.
fn records(names: &[&[u16]]) -> Vec<u32> {
    let mut buffer: Vec<u32> = Vec::new();
    for (i, name) in names.iter().enumerate() {
        let words = name.len().div_ceil(2);
        let next = if i + 1 < names.len() { (3 + words) * 4 } else { 0 };
        buffer.push(next as u32);
        buffer.push(1);
        buffer.push((name.len() * 2) as u32);
        for pair in name.chunks(2) {
            let high = pair.get(1).copied().unwrap_or(0);
            buffer.push(pair[0] as u32 | (high as u32) << 16);
        }
    }
    buffer.resize(buffer.len() + 8, 0);
    buffer
}

fn utf16(s: &str) -> Vec<u16> {
    s.encode_utf16().collect()
}

fn changed(names: &[&str], base: &str) -> bool {
    let wide: Vec<Vec<u16>> = names.iter().map(|n| utf16(n)).collect();
    let refs: Vec<&[u16]> = wide.iter().map(|v| v.as_slice()).collect();
    let buffer = records(&refs);
    assert!(has_whole_records(&buffer));
    file_changed(&buffer, &chars(base))
}

#[test]
fn changes_of_the_file() {
    assert!(changed(&["fish_variables"], "fish_variables"));
    assert!(changed(&["Fish_Variables"], "fish_variables"));
    assert!(changed(&["a", "bc", "fish_variables"], "FISH_VARIABLES"));
    assert!(!changed(&["fish_variable"], "fish_variables"));
    assert!(!changed(&["a", "b"], "fish_variables"));
    assert!(changed(&["x", "\u{1f41f}\u{e9}"], "\u{1f41f}\u{e9}"));
    assert!(!changed(&["\u{c9}"], "\u{e9}"));
    assert!(changed(&[""], ""));
}

#[test]
fn undecodable_names() {
    // A lone surrogate is replaced.
    let buffer = records(&[&[0xd83d, 0x61]]);
    assert!(file_changed(&buffer, &chars("\u{fffd}a")));
    assert!(file_changed(&records(&[&[0xdc00]]), &chars("\u{fffd}")));
    assert!(file_changed(&records(&[&[0xd83d]]), &chars("\u{fffd}")));
    for units in [vec![0x41, 0xd83d, 0xdc1f, 0xdc1f], vec![0xd83d, 0xd83d, 0xdc1f]] {
        let name = String::from_utf16_lossy(&units);
        assert!(file_changed(&records(&[&units]), &chars(&name)));
    }
}

#[test]
fn broken_records() {
    assert!(!has_whole_records(&[]));
    assert!(!has_whole_records(&[0, 1]));
    assert!(has_whole_records(&[0, 1, 0]));
    assert!(!has_whole_records(&[0, 1, 2]));
    assert!(has_whole_records(&[0, 1, 4, 0]));
    assert!(!has_whole_records(&[2, 1, 0, 0, 0, 0]));
    assert!(!has_whole_records(&[400, 1, 0, 0]));
    assert!(has_whole_records(&[12, 1, 0, 0, 1, 0]));
}

#[test]
fn steps_of_the_watcher() {
    let name = utf16("f");
    let buffer = records(&[&name]);
    let f = chars("f");
    assert_eq!(watch_loop(true, true, 16, &buffer, &f), WatchStep::Stop);
    assert_eq!(watch_loop(false, false, 16, &buffer, &f), WatchStep::Stop);
    assert_eq!(watch_loop(false, true, 0, &[], &f), WatchStep::Notify);
    assert_eq!(watch_loop(false, true, 16, &buffer, &f), WatchStep::Notify);
    assert_eq!(watch_loop(false, true, 16, &buffer, &chars("g")), WatchStep::Wait);
}

#[test]
fn what_is_watched() {
    let (dir, base) = watch_target(&chars("/home/me/fish_variables"));
    assert_eq!((text(&dir), text(&base)), ("/home/me".to_string(), "fish_variables".to_string()));
    assert!(notification_fd_became_readable(Some(1)));
    assert!(!notification_fd_became_readable(Some(0)));
    assert!(!notification_fd_became_readable(None));
}

#[test]
fn manual_pages_are_optional() {
    let docs = |v: Option<&str>| docs_wanted(&v.map(chars));
    assert_eq!(docs(None), Docs::Wanted);
    assert_eq!(docs(Some("0")), Docs::Disabled);
    assert_eq!(docs(Some("1")), Docs::Required);
    assert_eq!(docs(Some("yes")), Docs::Wanted);
    let quiet = Consequence { show_errors: false, show_output: false, warn: false, fatal: false };
    for run in [Run::NotFound, Run::NotStarted, Run::Lost] {
        assert_eq!(weigh(Docs::Wanted, run), Consequence { warn: true, ..quiet });
        assert_eq!(weigh(Docs::Required, run), Consequence { fatal: true, ..quiet });
    }
    let ended = |success: bool, output: bool, errors: bool| Run::Ended { success, output, errors };
    assert_eq!(weigh(Docs::Required, ended(true, false, false)), quiet);
    assert_eq!(
        weigh(Docs::Required, ended(true, false, true)),
        Consequence { show_errors: true, ..quiet }
    );
    assert_eq!(
        weigh(Docs::Wanted, ended(true, true, false)),
        Consequence { show_output: true, warn: true, ..quiet }
    );
    assert_eq!(
        weigh(Docs::Required, ended(false, false, true)),
        Consequence { show_errors: true, fatal: true, ..quiet }
    );
}

#[test]
fn how_sphinx_is_called() {
    let list: Vec<String> =
        sphinx_args(&chars("s"), &chars("d"), &chars("p")).iter().map(|a| text(a)).collect();
    assert_eq!(list, ["-j", "auto", "-q", "-b", "man", "-c", "s", "-d", "d", "s", "p"]);
}
