use fishbowl::builtins::kill::{
    after_send, builtin_kill_list, choose_signal, delivery_message, exit_after_self_signal, kill,
    kill_status, kill_steps, next_delivery, reflect_stop_state, signal_list, signal_text,
    to_nix_signal, unknown_signal_message, Delivery, Job, KillError, KillRequest, KillStep, Lookup,
    Process, Signal, SignalClass, SignalSpec,
};
use fishbowl::builtins::mkdir::{mkdir, MkdirError};
use fishbowl::builtins::mktemp::{
    after_attempt, instantiate_template, mktemp, next_suffix, seed, AfterAttempt, Attempt,
    MktempError, GOLDEN, MAX_TRIES,
};
use fishbowl::builtins::render_man::{render_man, width_from_vars, RenderManError};
use fishbowl::builtins::rm::{
    action, is_reported, rm, rm_outcome, Found, Removal, RmAction, RmError, RmOptions,
};
use fishbowl::builtins::seq::{
    finish_float, is_option, seq_in_range, zero_pad, SeqError, SeqOutcome,
};
use fishbowl::builtins::seq_format::{dress, parse_format, FormatError};
use fishbowl::builtins::sleep::{next_nap, parse_interval, sleep, SleepError, LONGEST_NAP};
use fishbowl::builtins::touch::{
    days_from_civil, parse_touch_timestamp, touch, touch_outcome, TouchError, TouchOptions,
    TouchOutcome,
};
use fishbowl::builtins::{
    failure_message, handled, next_operand, overall, path_message, Handled, Status,
};

fn chars(s: &str) -> Vec<char> {
    s.chars().collect()
}

fn text(v: &[char]) -> String {
    v.iter().collect()
}

fn args(list: &[&str]) -> Vec<Vec<char>> {
    list.iter().map(|s| chars(s)).collect()
}

fn printed(list: &[&str]) -> String {
    let a = args(list);
    assert!(seq_in_range(&a));
    match fishbowl::builtins::seq::seq(&a) {
        Ok(SeqOutcome::Print(t)) => text(&t),
        Ok(SeqOutcome::Compute(_)) => "<float>".to_string(),
        Err(e) => format!("<{}: {}>", if e.status() == Status::CmdError { 1 } else { 2 }, text(&e.message(&a))),
    }
}

#[test]
fn seq_of_integers() {
    assert_eq!(printed(&["seq", "3"]), "1\n2\n3\n");
    assert_eq!(printed(&["seq", "2", "4"]), "2\n3\n4\n");
    assert_eq!(printed(&["seq", "1", "2", "6"]), "1\n3\n5\n");
    assert_eq!(printed(&["seq", "3", "-1", "1"]), "3\n2\n1\n");
    assert_eq!(printed(&["seq", "-2", "0"]), "-2\n-1\n0\n");
    assert_eq!(printed(&["seq", "3", "1"]), "");
    assert_eq!(printed(&["seq", "0"]), "");
    assert_eq!(printed(&["seq", " 2 "]), "1\n2\n");
    assert_eq!(printed(&["seq", "+2"]), "1\n2\n");
    assert_eq!(printed(&["seq", "--", "-1", "0"]), "-1\n0\n");
}

#[test]
fn seq_defaults_to_one() {
    for last in ["0", "1", "7", "-3"] {
        assert_eq!(printed(&["seq", last]), printed(&["seq", "1", last]));
        assert_eq!(printed(&["seq", last]), printed(&["seq", "1", "1", last]));
    }
}

#[test]
fn seq_options() {
    assert_eq!(printed(&["seq", "-s", ",", "3"]), "1,2,3\n");
    assert_eq!(printed(&["seq", "-s,", "3"]), "1,2,3\n");
    assert_eq!(printed(&["seq", "--separator=, ", "3"]), "1, 2, 3\n");
    assert_eq!(printed(&["seq", "--separator", "-", "3"]), "1-2-3\n");
    assert_eq!(printed(&["seq", "-w", "8", "10"]), "08\n09\n10\n");
    assert_eq!(printed(&["seq", "-ws:", "-1", "1"]), "-1:00:01\n");
    assert_eq!(printed(&["seq", "--equal-width", "99", "100"]), "099\n100\n");
    assert_eq!(printed(&["seq", "-w", "1", "5", "100"]).lines().next(), Some("001"));
}

#[test]
fn seq_errors() {
    assert_eq!(printed(&["seq"]), "<2: expected 1, 2 or 3 operands, got 0>");
    assert_eq!(
        printed(&["seq", "1", "2", "3", "4"]),
        "<2: expected 1, 2 or 3 operands, got 4>"
    );
    assert_eq!(printed(&["seq", "x"]), "<1: invalid floating point argument: x>");
    assert_eq!(printed(&["seq", "1", "0", "5"]), "<1: zero increment value is not allowed>");
    assert_eq!(printed(&["seq", "-s"]), "<2: option requires an argument -- 's'>");
    assert_eq!(printed(&["seq", "-f"]), "<2: option requires an argument -- 'f'>");
    assert_eq!(
        printed(&["seq", "--separator"]),
        "<2: option '--separator' requires an argument>"
    );
    assert_eq!(printed(&["seq", "--format"]), "<2: option '--format' requires an argument>");
    assert_eq!(printed(&["seq", "-x", "1"]), "<2: unsupported option: -x>");
    assert_eq!(printed(&["seq", "--bogus", "1"]), "<2: unsupported option: --bogus>");
    assert_eq!(printed(&["seq", "-f", "x", "1"]), "<2: format has no % directive>");
    assert_eq!(printed(&["seq", "-f", "%d", "1"]), "<2: format has unknown directive: %d>");
    assert_eq!(printed(&["seq", "-f", "%g%g", "1"]), "<2: format has too many % directives>");
    assert_eq!(printed(&["seq", "-f", "%5.", "1"]), "<2: format ends in %>");
    assert_eq!(
        printed(&["seq", "-w", "-f", "%g", "1"]),
        "<2: format string may not be specified when printing equal width strings>"
    );
}

#[test]
fn seq_in_floating_point() {
    let a = args(&["seq", "-w", "0.5", "1.25", "3"]);
    let Ok(SeqOutcome::Compute(f)) = fishbowl::builtins::seq::seq(&a) else { panic!("not floating") };
    assert_eq!((f.first, f.step, f.last, f.precision), (Some(2), Some(3), 4, 2));
    let terms = args(&["0.50", "1.75", "3.00"]);
    assert_eq!(
        text(&finish_float(&f, &terms, &chars("0.50"), &chars("13.00"))),
        "00.50\n01.75\n03.00\n"
    );
    assert_eq!(text(&finish_float(&f, &[], &chars("0.50"), &chars("3.00"))), "");
    for list in [["seq", "1e2"], ["seq", "inf"], ["seq", "NaN"], ["seq", ".5"]] {
        assert!(matches!(fishbowl::builtins::seq::seq(&args(&list)), Ok(SeqOutcome::Compute(_))), "{list:?}");
    }
    let Ok(SeqOutcome::Compute(f)) = fishbowl::builtins::seq::seq(&args(&["seq", "-f", "a%%%03gb", "2"])) else {
        panic!("not floating")
    };
    let format = f.format.unwrap();
    assert_eq!(text(&dress(&format, &chars("002"))), "a%002b");
    assert_eq!((f.first, f.step, f.last, f.precision), (None, None, 3, 0));
}

#[test]
fn seq_formats() {
    let parts = |s: &str| {
        parse_format(&chars(s)).map(|f| (text(&f.prefix), text(&f.directive), text(&f.suffix)))
    };
    let ok = |a: &str, b: &str, c: &str| Ok((a.to_string(), b.to_string(), c.to_string()));
    assert_eq!(parts("%g"), ok("", "%g", ""));
    assert_eq!(parts("x%fy"), ok("x", "%f", "y"));
    assert_eq!(parts("%-+# 08.3Lex"), ok("", "%-+# 08.3e", "x"));
    assert_eq!(parts("%%%a%%"), ok("%", "%a", "%"));
    assert_eq!(parts("%.E"), ok("", "%.E", ""));
    assert_eq!(parts(""), Err(FormatError::NoDirective));
    assert_eq!(parts("100%%"), Err(FormatError::NoDirective));
    assert_eq!(parts("%"), Err(FormatError::EndsInDirective));
    assert_eq!(parts("%5L"), Err(FormatError::EndsInDirective));
    assert_eq!(parts("%s"), Err(FormatError::UnknownDirective('s')));
    assert_eq!(parts("%g %"), Err(FormatError::TooManyDirectives));
}

#[test]
fn seq_knows_its_limits() {
    assert!(seq_in_range(&args(&["seq", "1", "10"])));
    assert!(!seq_in_range(&args(&["seq", "9223372036854775807", "9223372036854775807"])));
    assert!(!seq_in_range(&args(&["seq", "1", "9223372036854775807", "5"])));
    assert!(seq_in_range(&args(&["seq", "5", "9223372036854775807", "1"])));
    assert!(seq_in_range(&args(&["seq", "bad"])));
    // Beyond 53 bits the terms are those of double precision.
    assert_eq!(printed(&["seq", "9007199254740993", "9007199254740993"]), "9007199254740992\n");
}

#[test]
fn seq_options_and_numbers() {
    for o in ["-w", "-s", "--", "--x", "-x1"] {
        assert!(is_option(&chars(o)), "{o}");
    }
    for n in ["-", "-1", "-.5", "1", "", "x"] {
        assert!(!is_option(&chars(n)), "{n}");
    }
}

#[test]
fn zero_padding() {
    let pad = |s: &str, w: usize| text(&zero_pad(&chars(s), w));
    assert_eq!(pad("7", 3), "007");
    assert_eq!(pad("-7", 4), "-007");
    assert_eq!(pad("1234", 3), "1234");
    assert_eq!(pad("", 2), "00");
    assert_eq!(pad("-", 3), "-00");
    assert_eq!(pad("\u{e9}", 3), "0\u{e9}");
}

#[test]
fn rm_arguments() {
    let plan = |l: &[&str]| rm(&args(l));
    assert_eq!(plan(&["rm", "-rf", "a"]).unwrap().options, RmOptions { force: true, recursive: true });
    assert_eq!(plan(&["rm", "-R", "-f", "a"]).unwrap().first, 3);
    assert_eq!(plan(&["rm", "a", "-r"]).unwrap().options, RmOptions { force: false, recursive: false });
    assert_eq!(plan(&["rm", "-", "x"]).unwrap().first, 1);
    assert_eq!(plan(&["rm", "--", "-f"]).unwrap().first, 2);
    assert_eq!(plan(&["rm", "-f"]).unwrap().first, 2);
    assert_eq!(plan(&["rm"]), Err(RmError::MissingOperand));
    assert_eq!(plan(&["rm", "--"]), Err(RmError::MissingOperand));
    assert_eq!(plan(&["rm", "-f", "-rx"]), Err(RmError::UnsupportedOption(2)));
    let a = args(&["rm", "-rx"]);
    let e = rm(&a).unwrap_err();
    assert_eq!(text(&e.message(&a)), "unsupported option: -rx");
    assert_eq!(e.status(), Status::InvalidArgs);
    assert_eq!(text(&RmError::MissingOperand.message(&a)), "missing operand");
}

#[test]
fn rm_operands() {
    let opts = |force: bool, recursive: bool| RmOptions { force, recursive };
    assert_eq!(action(Found::Directory, opts(false, true)), RmAction::RemoveTree);
    assert_eq!(action(Found::Directory, opts(true, false)), RmAction::RemoveDirectory);
    assert_eq!(action(Found::Other, opts(true, true)), RmAction::RemoveFile);
    assert_eq!(action(Found::Failed { not_found: true }, opts(true, false)), RmAction::Nothing);
    assert_eq!(action(Found::Failed { not_found: true }, opts(false, false)), RmAction::Fail);
    assert_eq!(action(Found::Failed { not_found: false }, opts(true, false)), RmAction::Fail);
    assert!(!is_reported(true, None));
    assert!(!is_reported(false, Some(2)));
    assert!(!is_reported(false, Some(3)));
    assert!(is_reported(false, Some(5)));
    assert!(is_reported(false, None));
    let failed = |not_found: bool, os_code: Option<i32>| {
        rm_outcome(Removal::Failed { not_found, os_code })
    };
    assert_eq!(rm_outcome(Removal::Done), Handled::Done);
    assert_eq!(failed(true, None), Handled::PassedOver);
    assert_eq!(failed(false, Some(2)), Handled::PassedOver);
    assert_eq!(failed(false, Some(13)), Handled::Failed);
    assert_eq!(overall(&[Handled::Done, Handled::PassedOver]), Ok(()));
    assert_eq!(overall(&[failed(false, None), Handled::Done]), Err(Status::CmdError));
    assert_eq!(overall(&[]), Ok(()));
}

#[test]
fn every_operand_is_tried() {
    let mut outcomes = Vec::new();
    let mut tried = Vec::new();
    while let Some(i) = next_operand(2, &outcomes, 5) {
        tried.push(i);
        outcomes.push(handled(i != 2));
    }
    assert_eq!(tried, [2, 3, 4]);
    assert_eq!(overall(&outcomes), Err(Status::CmdError));
    assert_eq!(next_operand(5, &[], 5), None);
    let message = |h: Handled| failure_message(h, &chars("f"), "no").map(|m| text(&m));
    assert_eq!(message(Handled::Failed).as_deref(), Some("f: no"));
    assert_eq!(message(Handled::Done), None);
    assert_eq!(message(Handled::PassedOver), None);
}

#[test]
fn touched_operands() {
    let with = TouchOptions { mtime_only: false, timestamp: Some(0) };
    let without = TouchOptions { mtime_only: true, timestamp: None };
    assert_eq!(touch_outcome(true, without, false), TouchOutcome::Done);
    assert_eq!(touch_outcome(true, with, true), TouchOutcome::Done);
    assert_eq!(touch_outcome(true, with, false), TouchOutcome::TimesNotSet);
    assert_eq!(touch_outcome(false, with, false), TouchOutcome::NotOpened);
    let message = |o: TouchOutcome| o.message(&chars("f"), "no").map(|m| text(&m));
    assert_eq!(message(TouchOutcome::Done), None);
    assert_eq!(message(TouchOutcome::NotOpened).as_deref(), Some("f: no"));
    assert_eq!(message(TouchOutcome::TimesNotSet).as_deref(), Some("setting times of f failed"));
    assert_eq!(TouchOutcome::Done.handled(), Handled::Done);
    assert_eq!(TouchOutcome::TimesNotSet.handled(), Handled::Failed);
}

#[test]
fn one_send_per_operand() {
    assert_eq!(
        kill_steps(&[Some(3), None, Some(3), Some(-1)]),
        [
            KillStep::Send(3),
            KillStep::Done(Delivery::NotAPid),
            KillStep::Send(3),
            KillStep::Send(-1),
        ]
    );
    assert_eq!(next_delivery(Some(0)), KillStep::Send(0));
    assert_eq!(after_send(3, true), Delivery::Sent(3));
    assert_eq!(after_send(3, false), Delivery::Failed(3));
}

#[test]
fn mkdir_arguments() {
    let plan = |l: &[&str]| mkdir(&args(l));
    let p = plan(&["mkdir", "-p", "a"]).unwrap();
    assert_eq!((p.parents, p.first), (true, 2));
    let p = plan(&["mkdir", "-m", "755", "a"]).unwrap();
    assert_eq!((p.parents, p.first), (false, 3));
    let p = plan(&["mkdir", "-vp", "--", "-x"]).unwrap();
    assert_eq!((p.parents, p.first), (true, 3));
    assert!(plan(&["mkdir", "--parents", "a"]).unwrap().parents);
    assert_eq!(plan(&["mkdir"]), Err(MkdirError::MissingOperand));
    assert_eq!(plan(&["mkdir", "-p"]), Err(MkdirError::MissingOperand));
    assert_eq!(plan(&["mkdir", "-m"]), Err(MkdirError::ModeNeedsArgument));
    assert_eq!(plan(&["mkdir", "-v", "a"]), Err(MkdirError::UnsupportedOption(1)));
    assert_eq!(plan(&["mkdir", "-", "a"]), Err(MkdirError::UnsupportedOption(1)));
    let a = args(&["mkdir", "-v"]);
    assert_eq!(text(&MkdirError::UnsupportedOption(1).message(&a)), "unsupported option: -v");
    assert_eq!(text(&MkdirError::ModeNeedsArgument.message(&a)), "option requires an argument -- m");
    assert_eq!(text(&MkdirError::MissingOperand.message(&a)), "missing operand");
    assert_eq!(MkdirError::MissingOperand.status(), Status::InvalidArgs);
}

#[test]
fn touch_arguments() {
    let plan = |l: &[&str]| touch(&args(l));
    let p = plan(&["touch", "-m", "-t", "197001020000", "f"]).unwrap();
    assert_eq!(p.options, TouchOptions { mtime_only: true, timestamp: Some(86400) });
    assert_eq!(p.first, 4);
    assert_eq!(plan(&["touch", "f"]).unwrap().first, 1);
    assert_eq!(plan(&["touch", "--", "-m"]).unwrap().first, 2);
    assert_eq!(plan(&["touch"]), Err(TouchError::MissingOperand));
    assert_eq!(plan(&["touch", "-t"]), Err(TouchError::TimestampNeedsArgument));
    assert_eq!(plan(&["touch", "-t", "1970", "f"]), Err(TouchError::InvalidDate(2)));
    assert_eq!(plan(&["touch", "-a", "f"]), Err(TouchError::UnsupportedOption(1)));
    let a = args(&["touch", "-t", "1970"]);
    assert_eq!(text(&TouchError::InvalidDate(2).message(&a)), "invalid date format: 1970");
    assert_eq!(
        text(&TouchError::TimestampNeedsArgument.message(&a)),
        "option requires an argument -- t"
    );
    assert_eq!(text(&TouchError::UnsupportedOption(1).message(&a)), "unsupported option: -t");
    assert_eq!(text(&TouchError::MissingOperand.message(&a)), "missing file operand");
    assert_eq!(TouchError::InvalidDate(2).status(), Status::InvalidArgs);
}

#[test]
fn timestamps() {
    let at = |s: &str| parse_touch_timestamp(&chars(s));
    assert_eq!(at("197001010000"), Some(0));
    assert_eq!(at("200001010000"), Some(946_684_800));
    assert_eq!(at("196912312359"), Some(-60));
    assert_eq!(at("202402290130"), Some(1_709_170_200));
    assert_eq!(at("202302310000"), Some(1_677_801_600));
    assert_eq!(at("000001010000"), Some(-62_167_219_200));
    for bad in ["", "20000101000", "2000010100000", "200013010000", "200000010000", "200001320000",
        "200001000000", "200001012400", "200001010060", "20000101000x"] {
        assert_eq!(at(bad), None, "{bad}");
    }
}

#[test]
fn days_of_the_calendar() {
    assert_eq!(days_from_civil(1970, 1, 1), 0);
    assert_eq!(days_from_civil(2000, 3, 1) - days_from_civil(2000, 2, 29), 1);
    assert_eq!(days_from_civil(1900, 3, 1) - days_from_civil(1900, 2, 28), 1);
    assert_eq!(days_from_civil(0, 3, 1), -719_468);
    assert_eq!(days_from_civil(-1, 12, 31) + 1, days_from_civil(0, 1, 1));
    assert_eq!(days_from_civil(2400, 1, 1) - days_from_civil(2000, 1, 1), 146_097);
}

#[test]
fn mktemp_arguments() {
    let plan = |l: &[&str]| mktemp(&args(l)).map(|p| (p.directory, text(&p.template)));
    let default = "/tmp/tmp.XXXXXXXXXX".to_string();
    assert_eq!(plan(&["mktemp"]), Ok((false, default.clone())));
    assert_eq!(plan(&["mktemp", "-d"]), Ok((true, default)));
    assert_eq!(plan(&["mktemp", "-qd", "aX"]), Ok((true, "aX".to_string())));
    assert_eq!(plan(&["mktemp", "--", "-X"]), Ok((false, "-X".to_string())));
    assert_eq!(plan(&["mktemp", "-u"]), Err(MktempError::UnsupportedOption(1)));
    assert_eq!(plan(&["mktemp", "aX", "bX"]), Err(MktempError::TooManyTemplates));
    assert_eq!(plan(&["mktemp", "a"]), Err(MktempError::TooFewX(1)));
    assert_eq!(plan(&["mktemp", ""]), Err(MktempError::TooFewX(1)));
    let a = args(&["mktemp", "Xa"]);
    assert_eq!(text(&MktempError::TooFewX(1).message(&a)), "too few X's in template: Xa");
    assert_eq!(text(&MktempError::TooManyTemplates.message(&a)), "too many templates");
    assert_eq!(text(&MktempError::UnsupportedOption(1).message(&a)), "unsupported option: Xa");
    assert_eq!(
        text(&MktempError::Exhausted.message(&a)),
        "failed to create a unique temporary path"
    );
    assert_eq!(MktempError::Exhausted.status(), Status::CmdError);
    assert_eq!(MktempError::TooFewX(1).status(), Status::InvalidArgs);
}

#[test]
fn temporary_names() {
    let name = text(&instantiate_template(&chars("/tmp/aXb.XXXX"), 42).unwrap());
    assert!(name.starts_with("/tmp/aXb."));
    assert_eq!(name.len(), "/tmp/aXb.XXXX".len());
    assert!(name[9..].chars().all(|c| c.is_ascii_alphanumeric()));
    assert!(instantiate_template(&chars("abc"), 42).is_none());
    assert!(instantiate_template(&[], 42).is_none());
    assert_eq!(text(&next_suffix(7, 0)), "");
    // The generator, step by step.
    let alphabet = b"abcdefghijklmnopqrstuvwxyzABCDEFGHIJKLMNOPQRSTUVWXYZ0123456789";
    let mut state: u64 = 42;
    let mut expected = String::new();
    for _ in 0..20 {
        state ^= state >> 12;
        state ^= state << 25;
        state ^= state >> 27;
        let v = state.wrapping_mul(0x2545_F491_4F6C_DD1D);
        expected.push(alphabet[(v as usize) % alphabet.len()] as char);
    }
    assert_eq!(text(&next_suffix(42, 20)), expected);
    assert_eq!(seed(Some(5), 3, 1), 5 ^ (3 << 32) ^ 1);
    assert_eq!(seed(None, 0, 0), GOLDEN);
}

#[test]
fn attempts_at_names() {
    assert_eq!(after_attempt(1, Attempt::Created), AfterAttempt::Print);
    assert_eq!(after_attempt(1, Attempt::AlreadyExists), AfterAttempt::Retry);
    assert_eq!(after_attempt(MAX_TRIES - 1, Attempt::AlreadyExists), AfterAttempt::Retry);
    assert_eq!(after_attempt(MAX_TRIES, Attempt::AlreadyExists), AfterAttempt::GiveUp);
    assert_eq!(after_attempt(1, Attempt::Failed), AfterAttempt::Fail);
}

#[test]
fn kill_arguments() {
    let req = |l: &[&str]| kill(&args(l));
    let send = |arg: usize, skip: usize, first: usize| KillRequest::Send {
        signal: Some(SignalSpec { arg, skip }),
        first,
    };
    let plain = |first: usize| KillRequest::Send { signal: None, first };
    assert_eq!(req(&["kill"]), plain(1));
    assert_eq!(req(&["kill", "7"]), plain(1));
    assert_eq!(req(&["kill", "--", "-7"]), plain(2));
    assert_eq!(req(&["kill", "-"]), plain(1));
    assert_eq!(req(&["kill", ""]), plain(1));
    assert_eq!(req(&["kill", "-9", "7"]), send(1, 1, 2));
    assert_eq!(req(&["kill", "-s", "KILL", "7"]), send(2, 0, 3));
    assert_eq!(req(&["kill", "--signal", "KILL"]), send(2, 0, 3));
    assert_eq!(req(&["kill", "-s"]), KillRequest::SignalMissing);
    for l in ["-l", "--list", "-L"] {
        assert_eq!(req(&["kill", l, "9"]), KillRequest::List { first: 2 });
    }
    // Only the first argument can be an option.
    assert_eq!(req(&["kill", "7", "-9"]), plain(1));
    let a = args(&["kill", "-HUP", "7"]);
    assert_eq!(text(&signal_text(&a, SignalSpec { arg: 1, skip: 1 })), "HUP");
}

#[test]
fn kill_chooses_a_signal() {
    let term = Signal { raw: 15, class: SignalClass::Other };
    let stop = Signal { raw: 19, class: SignalClass::Stop };
    let spec = SignalSpec { arg: 1, skip: 1 };
    assert_eq!(choose_signal(None, None, term, 1), Ok(term));
    assert_eq!(choose_signal(Some(spec), Some(stop), term, 1), Ok(stop));
    assert_eq!(choose_signal(Some(spec), None, term, 0), Err(KillError::UnknownSignal(spec)));
    assert_eq!(choose_signal(Some(spec), Some(stop), term, 0), Err(KillError::NoOperands));
    assert_eq!(choose_signal(None, None, term, 0), Err(KillError::NoOperands));
    let a = args(&["kill", "-BAD"]);
    assert_eq!(text(&KillError::UnknownSignal(spec).message(&a)), "kill: BAD: unknown signal");
    assert_eq!(text(&KillError::SignalMissing.message(&a)), "kill: -s requires a signal name");
    assert_eq!(
        text(&KillError::NoOperands.message(&a)),
        "kill: expected at least one process id"
    );
    assert_eq!(KillError::NoOperands.status(), Status::InvalidArgs);
}

#[test]
fn kill_deliveries() {
    assert_eq!(kill_status(&[]), Ok(()));
    assert_eq!(kill_status(&[Delivery::Sent(1), Delivery::Sent(2)]), Ok(()));
    assert_eq!(kill_status(&[Delivery::NotAPid, Delivery::Failed(3), Delivery::Sent(4)]), Err(Status::CmdError));
    assert_eq!(kill_status(&[Delivery::Failed(3), Delivery::NotAPid]), Err(Status::InvalidArgs));
    let msg = |d: Delivery| delivery_message(&chars("kill"), &chars("x"), d).map(|m| text(&m));
    assert_eq!(msg(Delivery::Sent(3)), None);
    assert_eq!(msg(Delivery::NotAPid).unwrap(), "kill: 'x' is not a valid process id");
    assert_eq!(msg(Delivery::Failed(-3)).unwrap(), "kill: Failed to send signal to job -3");
}

#[test]
fn kill_lists_signals() {
    assert_eq!(text(&signal_list(&args(&["SIGHUP", "Unknown", "SIGINT"]))), "SIGHUP SIGINT");
    assert_eq!(text(&signal_list(&[])), "");
    let found = |numeric: bool| Lookup { found: Some((9, chars("SIGKILL"))), numeric };
    let (lines, status) = builtin_kill_list(&[found(true), found(false)]);
    assert_eq!(text(lines[0].as_ref().unwrap()), "SIGKILL");
    assert_eq!(text(lines[1].as_ref().unwrap()), "9");
    assert_eq!(status, Ok(()));
    let none = Lookup { found: None, numeric: false };
    let (lines, status) = builtin_kill_list(&[none, found(true)]);
    assert!(lines[0].is_none() && lines[1].is_some());
    assert_eq!(status, Err(Status::InvalidArgs));
}

#[test]
fn signals_of_the_system() {
    assert_eq!(to_nix_signal(0), None);
    assert_eq!(to_nix_signal(-1), None);
    assert_eq!(to_nix_signal(65), None);
    assert_eq!(to_nix_signal(100_000), None);
    assert_eq!(to_nix_signal(i32::MIN), None);
    for code in [1, 2, 3, 4, 6, 8, 9, 11, 14, 15] {
        assert_eq!(to_nix_signal(code), Some(Signal { raw: code, class: SignalClass::Other }));
    }
    assert_eq!(libc::SIGHUP, 1);
    assert_eq!(libc::SIGABRT, 6);
    assert_eq!(libc::SIGTERM, 15);
    assert_eq!(to_nix_signal(libc::SIGSTOP), Some(Signal { raw: libc::SIGSTOP, class: SignalClass::Stop }));
    assert_eq!(
        to_nix_signal(libc::SIGTSTP),
        Some(Signal { raw: libc::SIGTSTP, class: SignalClass::TerminalStop })
    );
    assert_eq!(
        to_nix_signal(libc::SIGCONT),
        Some(Signal { raw: libc::SIGCONT, class: SignalClass::Continue })
    );
    assert_eq!(
        to_nix_signal(libc::SIGKILL),
        Some(Signal { raw: libc::SIGKILL, class: SignalClass::Other })
    );
}

fn process(pid: Option<i32>) -> Process {
    Process { pid, status: 0, stopped: false }
}

#[test]
fn stopped_jobs() {
    let mut jobs = vec![
        Job { processes: vec![process(Some(1)), process(Some(2))], foreground: true },
        Job { processes: vec![process(None), process(Some(3))], foreground: true },
    ];
    let stop = Signal { raw: 19, class: SignalClass::Stop };
    reflect_stop_state(&mut jobs, 2, stop);
    assert_eq!(jobs[0].processes[1], Process { pid: Some(2), status: 0x137f, stopped: true });
    assert_eq!(jobs[0].processes[0], process(Some(1)));
    assert!(!jobs[0].foreground);
    assert!(jobs[1].foreground);
    assert_eq!(jobs[1].processes, [process(None), process(Some(3))]);
    let cont = Signal { raw: 18, class: SignalClass::Continue };
    reflect_stop_state(&mut jobs, 2, cont);
    assert_eq!(jobs[0].processes[1], Process { pid: Some(2), status: 0xffff, stopped: false });
    assert!(!jobs[0].foreground);
    reflect_stop_state(&mut jobs, 3, cont);
    assert!(jobs[1].foreground);
    let before = jobs[1].processes.clone();
    reflect_stop_state(&mut jobs, 3, Signal { raw: 9, class: SignalClass::Other });
    assert_eq!(jobs[1].processes, before);
}

#[test]
fn signals_to_oneself() {
    assert_eq!(exit_after_self_signal(0, 5, 15, true), Some(143));
    assert_eq!(exit_after_self_signal(5, 5, 2, true), Some(130));
    assert_eq!(exit_after_self_signal(5, 5, 2, false), None);
    assert_eq!(exit_after_self_signal(6, 5, 2, true), None);
}

#[test]
fn man_pages() {
    let width = |a: Option<&str>, b: Option<&str>| width_from_vars(&a.map(chars), &b.map(chars));
    assert_eq!(width(None, None), 80);
    assert_eq!(width(Some("100"), Some("50")), 100);
    assert_eq!(width(Some(" 100\n"), None), 100);
    assert_eq!(width(Some("0"), Some("50")), 50);
    assert_eq!(width(Some("wide"), Some("+50")), 50);
    assert_eq!(width(Some("-5"), Some("")), 80);
    assert_eq!(render_man(&args(&["m", "p.1"])).map(|p| text(&p)), Ok("p.1".to_string()));
    assert_eq!(render_man(&args(&["m"])), Err(RenderManError::ExpectedPath));
    assert_eq!(render_man(&args(&["m", "a", "b"])), Err(RenderManError::ExpectedPath));
    assert_eq!(
        text(&RenderManError::ExpectedPath.message(&[], "")),
        "expected a single man-page path"
    );
    assert_eq!(text(&RenderManError::Unreadable.message(&chars("p.1"), "gone")), "p.1: gone");
    assert_eq!(RenderManError::ExpectedPath.status(), Status::InvalidArgs);
    assert_eq!(RenderManError::Unreadable.status(), Status::CmdError);
}

#[test]
fn messages_about_operands() {
    assert_eq!(text(&path_message(&chars("a/b"), "gone")), "a/b: gone");
    let m = unknown_signal_message(&chars("kill"), &chars("x"));
    assert_eq!(text(&m), "kill: x: unknown signal");
}

#[test]
fn sleep_intervals() {
    let parts = |s: &str| parse_interval(&chars(s)).map(|i| (text(&i.number), i.seconds));
    let ok = |n: &str, s: u32| Some((n.to_string(), s));
    assert_eq!(parts("5"), ok("5", 1));
    assert_eq!(parts("5s"), ok("5", 1));
    assert_eq!(parts(" 0.3m "), ok("0.3", 60));
    assert_eq!(parts("1e3h"), ok("1e3", 3600));
    assert_eq!(parts("2d"), ok("2", 86400));
    assert_eq!(parts("-1"), ok("-1", 1));
    assert_eq!(parts("inf"), ok("inf", 1));
    for bad in ["", "  ", "s", "5x", "1ms", "5 s", "d"] {
        assert_eq!(parts(bad), None, "{bad:?}");
    }
}

#[test]
fn sleep_operands() {
    assert_eq!(sleep(&args(&["sleep", "1"])), Ok(1));
    assert_eq!(sleep(&args(&["sleep", "--", "1"])), Ok(2));
    assert_eq!(sleep(&args(&["sleep"])), Err(SleepError::MissingOperand));
    assert_eq!(sleep(&args(&["sleep", "--"])), Err(SleepError::MissingOperand));
    let a = args(&["sleep", "x"]);
    assert_eq!(text(&SleepError::MissingOperand.message(&a)), "missing operand");
    assert_eq!(text(&SleepError::InvalidInterval(1).message(&a)), "invalid time interval: x");
    assert_eq!(SleepError::InvalidInterval(1).status(), Status::InvalidArgs);
}

#[test]
fn naps() {
    assert_eq!(next_nap(0, false), None);
    assert_eq!(next_nap(5, true), None);
    assert_eq!(next_nap(5, false), Some(5));
    assert_eq!(next_nap(LONGEST_NAP, false), Some(LONGEST_NAP));
    assert_eq!(next_nap(LONGEST_NAP + 1, false), Some(50_000_000));
}

#[test]
fn seq_error_is_named_by_index() {
    assert_eq!(fishbowl::builtins::seq::seq(&args(&["seq", "1", "y", "z"])).err(), Some(SeqError::InvalidNumber(2)));
    assert_eq!(
        fishbowl::builtins::seq::seq(&args(&["seq", "-f", "%q", "1"])).err(),
        Some(SeqError::InvalidFormat(FormatError::UnknownDirective('q')))
    );
}
