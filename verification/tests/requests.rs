//! Building, the overwrite guard, the environment and the command line.

use redo_msh::building::{
    build_start, capture_name, command_line, interpreter_spawn_error, is_stale_temp, is_target,
    judge, lock_wait, plan_build, rename_step, reported_exit, sanitize, still_needed, temp_output,
    temp_place, BuildError, Facts, LockWait, Look, Output, Plan, Ran, RenameStep,
};
use redo_msh::num::NumberFault;
use redo_msh::cli::{
    extract_jobs, prog_name, run, run_forward, CliError, Command, Flags, Parsed, Request,
};
use redo_msh::context::{child_env, inherited, normalize_target, owner_id};
use redo_msh::db::{DbOp, DepKind};
use redo_msh::logs::Event;
use redo_msh::num::{hex_text, int_text, nat_text, parse_i32, parse_i64, parse_usize};
use redo_msh::overwrite::{
    after_answer, ago, check_not_hand_edited, hash8, overwrite_all, overwrite_none,
    overwrite_problem, parse_answer, Answer, Evidence, Guard, Mode,
};
use redo_msh::paths::FsPath;
use redo_msh::requests::{
    always, cycle_error, distinct_targets, ifchange, ifcreate, record_edges, record_sources,
    run_done, Awaited, Wanted,
};
use redo_msh::root::Root;
use redo_msh::stamp::Stamp;
use redo_msh::waits::EdgeRef;

fn words(v: &[&str]) -> Vec<String> {
    v.iter().map(|s| s.to_string()).collect()
}

#[test]
fn numbers_read_back() {
    for n in [0i64, 7, 10, 12345, -1, -90, i64::MAX, i64::MIN] {
        assert_eq!(int_text(n), format!("{n}"));
        assert_eq!(parse_i64(&int_text(n)), Some(n));
    }
    assert_eq!(nat_text(u128::MAX), format!("{}", u128::MAX));
    assert_eq!(hex_text(0), "0");
    assert_eq!(hex_text(0xdead_beef), "deadbeef");
    for s in ["", "+", "-", "x", "1x", " 1", "9223372036854775808", "--1", "+-1"] {
        assert_eq!(parse_i64(s), s.parse::<i64>().ok(), "{s:?}");
    }
    for s in ["+7", "-0", "007", "-9223372036854775808"] {
        assert_eq!(parse_i64(s), s.parse::<i64>().ok(), "{s:?}");
    }
    for s in ["", "-1", "-0", "+3", "18446744073709551615", "18446744073709551616"] {
        assert_eq!(parse_usize(s), s.parse::<usize>().ok(), "{s:?}");
    }
    for s in ["2147483647", "2147483648", "-2147483648", "-2147483649"] {
        assert_eq!(parse_i32(s), s.parse::<i32>().ok(), "{s:?}");
    }
}

#[test]
fn intent_decides_what_is_a_target() {
    // exists, generated, exact do-file, any do-file
    assert!(!is_target(true, false, false, true));
    assert!(is_target(true, false, true, true));
    assert!(is_target(true, true, false, true));
    assert!(is_target(false, false, false, true));
    assert!(!is_target(false, false, false, false));
    let base = Facts {
        exists: true,
        exists_as_file: true,
        generated: false,
        exact_dofile: false,
        any_dofile: true,
        force: false,
    };
    assert_eq!(plan_build(&base), Plan::Static);
    assert_eq!(plan_build(&Facts { force: true, ..base }), Plan::Run);
    assert_eq!(plan_build(&Facts { exact_dofile: true, ..base }), Plan::Run);
    assert_eq!(plan_build(&Facts { generated: true, ..base }), Plan::Run);
    let none = Facts { any_dofile: false, ..base };
    assert_eq!(plan_build(&Facts { generated: true, ..none }), Plan::Static);
    let gone = Facts { exists: false, exists_as_file: false, ..none };
    assert_eq!(plan_build(&gone), Plan::NoRule);
    assert_eq!(plan_build(&Facts { any_dofile: true, ..gone }), Plan::Run);
}

#[test]
fn chains_are_checked() {
    assert_eq!(build_start(&words(&["a", "b"]), "c"), Ok(()));
    let e = build_start(&words(&["a", "b"]), "A").unwrap_err();
    assert_eq!(e.message(), "dependency cycle detected: a -> b -> A");
    let deep: Vec<String> = (0..64).map(|i| format!("t{i}")).collect();
    let e = build_start(&deep, "x").unwrap_err();
    assert_eq!(e.message(), "dependency chain deeper than 64 at x");
    assert_eq!(build_start(&deep[..63], "x"), Ok(()));
    assert_eq!(
        cycle_error(&[], "p", "d").message(),
        "dependency cycle detected: p -> d"
    );
    assert_eq!(
        cycle_error(&words(&["a", "p"]), "p", "d").message(),
        "dependency cycle detected: a -> p -> d"
    );
}

#[test]
fn locks_are_waited_for() {
    assert_eq!(lock_wait(false, false), LockWait::Block);
    assert_eq!(lock_wait(true, false), LockWait::Poll);
    assert_eq!(lock_wait(false, true), LockWait::Poll);
    assert!(still_needed(true, Some(3), 3));
    assert!(!still_needed(false, Some(3), 3));
    assert!(still_needed(false, Some(2), 3));
    assert!(still_needed(false, None, 3));
}

#[test]
fn runs_are_judged() {
    let file = |t| Some(Look { dir: false, modified: Some(t) });
    let dir = Some(Look { dir: true, modified: Some(1) });
    let base = Ran { before: None, after: None, code: Some(0), temp_exists: false, captured: 0 };
    assert_eq!(judge("t", &base), Ok(Output::Phony));
    assert_eq!(judge("t", &Ran { temp_exists: true, ..base }), Ok(Output::Temp));
    assert_eq!(judge("t", &Ran { captured: 3, ..base }), Ok(Output::Captured));
    let msg = |r: Ran| judge("t", &r).unwrap_err().message();
    assert_eq!(
        msg(Ran { temp_exists: true, captured: 3, ..base }),
        "do-file for t wrote to both stdout and $3; choose one (status messages go to stderr)"
    );
    assert_eq!(msg(Ran { code: Some(2), ..base }), "do-file for t failed (exit 2)");
    assert_eq!(msg(Ran { code: None, ..base }), "do-file for t failed (exit signal)");
    let direct = "do-file for t modified the target directly; write to $3 or stdout, not $1";
    assert_eq!(msg(Ran { after: file(1), ..base }), direct);
    assert_eq!(msg(Ran { before: file(1), after: file(2), ..base }), direct);
    assert_eq!(judge("t", &Ran { before: file(1), after: file(1), ..base }), Ok(Output::Phony));
    assert_eq!(judge("t", &Ran { before: file(1), ..base }), Ok(Output::Phony));
    assert_eq!(judge("t", &Ran { after: dir, ..base }), Ok(Output::Phony));
    assert_eq!(reported_exit(Some(5)), 5);
    assert_eq!(reported_exit(None), 1);
}

#[test]
fn names_of_temporaries() {
    assert_eq!(temp_output("sub/a.txt", 12), "sub/a.txt.redo-tmp.12");
    assert_eq!(sanitize("a/b c-é9"), "a_b_c__9");
    assert_eq!(capture_name("a/b", 3), "stdout.3.a_b");
    assert!(is_stale_temp("a.txt.redo-tmp.99", "a.txt"));
    assert!(!is_stale_temp("a.txt", "a.txt"));
    let dodir = FsPath::parse("/p/d");
    let (dir, name) = temp_place(&dodir, "sub/a.txt").unwrap();
    assert_eq!((dir.to_text().as_str(), name.as_str()), ("/p/d/sub", "a.txt"));
    let (dir, name) = temp_place(&dodir, "a.txt").unwrap();
    assert_eq!((dir.to_text().as_str(), name.as_str()), ("/p/d", "a.txt"));
    assert!(temp_place(&dodir, "..").is_none());
    assert_eq!(rename_step(0, 10, true), RenameStep::Retry(2));
    assert_eq!(rename_step(3, 10, true), RenameStep::Retry(16));
    assert_eq!(rename_step(9, 10, true), RenameStep::Fail);
    assert_eq!(rename_step(0, 10, false), RenameStep::Fail);
    assert_eq!(rename_step(0, 1, true), RenameStep::Fail);
    assert_eq!(
        command_line(&words(&["sh", "-e"]), "/p/a.do", "a", "a", "a.redo-tmp.1"),
        words(&["sh", "-e", "/p/a.do", "a", "a", "a.redo-tmp.1"])
    );
}

#[test]
fn a_missing_interpreter_is_explained() {
    let interp = words(&["msh", "-x"]);
    let s = interpreter_spawn_error(&interp, "/p/a.do", "not found", true, &Some(words(&["/bin"])));
    assert!(s.starts_with("cannot run do-file /p/a.do\n\nredo-msh does not execute"));
    assert!(s.contains("interpreter is 'msh' (full command: msh -x /p/a.do), and spawning"));
    assert!(s.contains("\n  /bin\n"));
    assert!(s.ends_with("different interpreter in redo.toml at the project root."));
    let s = interpreter_spawn_error(&interp, "/p/a.do", "denied", false, &None);
    assert!(s.ends_with("failed:\n\n  denied\n"));
    let s = interpreter_spawn_error(&interp, "/p/a.do", "gone", true, &None);
    assert!(s.contains("  (PATH is not set)\n"));
}

#[test]
fn quotes_are_those_of_debug() {
    let e = BuildError::NoRule { target: "a\"b\n".into() };
    assert_eq!(e.message(), format!("no .do file found to build target {:?}", "a\"b\n"));
    let e = BuildError::Aborted { target: "t".into() };
    assert!(e.is_abort());
    assert_eq!(
        e.message(),
        "speculation aborted: the build of t is no longer needed here (it will be re-run when \
         genuinely needed)"
    );
    let e = BuildError::Refused { problem: "p".into() };
    assert!(!e.is_abort());
    assert!(e.message().starts_with("p\nRefusing to overwrite it."));
}

#[test]
fn dependencies_are_sorted_out() {
    let w = |dep: &str, buildable: bool, there: bool| Wanted {
        dep: dep.into(),
        buildable,
        exists: there,
    };
    let (srcs, tgts) =
        ifchange(&[w("a", false, true), w("b", true, false), w("c", true, true)]).unwrap();
    assert_eq!(srcs, vec!["a"]);
    assert_eq!(tgts, vec!["b", "c"]);
    assert_eq!(
        ifchange(&[w("a", false, true), w("x", false, false), w("y", false, false)]),
        Err(BuildError::NoSource { dep: "x".into() })
    );
    let stamp = Some(Stamp { mtime: 1, size: 2, csum: "c".into() });
    let ops = record_edges(&Some("t".into()), &words(&["a"]), &[stamp.clone()]);
    match &ops[0] {
        DbOp::RecordDep(d) => {
            assert_eq!((d.target.as_str(), d.kind), ("t", DepKind::IfChange));
            assert_eq!(d.csum.as_deref(), Some("c"));
        }
        _ => panic!(),
    }
    assert!(record_edges(&None, &words(&["a"]), &[stamp.clone()]).is_empty());
    assert_eq!(record_sources(&words(&["a", "b"]), &[stamp, None], 4).len(), 2);
}

#[test]
fn absence_is_recorded_up_to_the_first_failure() {
    let a = |dep: &str, there: bool| Awaited { dep: dep.into(), exists: there };
    let parent = Some("t".to_string());
    let (ops, err) = ifcreate(&parent, &[a("x", false), a("y", true), a("z", false)]);
    assert_eq!(ops.len(), 1);
    assert_eq!(err.unwrap().message(), "redo-msh ifcreate: \"y\" already exists");
    let (ops, err) = ifcreate(&parent, &[a("x", false)]);
    assert_eq!((ops.len(), err), (1, None));
    let (ops, err) = ifcreate(&None, &[a("x", false)]);
    assert!(ops.is_empty());
    assert_eq!(
        err.unwrap().message(),
        "redo-msh ifcreate must be called from within a do-file"
    );
    assert_eq!(
        always(&None).unwrap_err().message(),
        "redo-msh always must be called from within a do-file"
    );
    assert!(matches!(always(&parent), Ok(DbOp::RecordDep(d)) if d.kind == DepKind::Always));
}

#[test]
fn targets_are_built_once() {
    assert_eq!(distinct_targets(&words(&["a", "B", "A", "b", "c"])), vec!["a", "B", "c"]);
    assert_eq!(run_done(3, true), Event::Done { session: 3, exit: 0, target: "-".into() });
    assert_eq!(run_done(3, false), Event::Done { session: 3, exit: 1, target: "-".into() });
}

#[test]
fn hand_edits_are_protected() {
    let e = |generated, recorded: Option<&str>, current: &str| Evidence {
        generated,
        recorded: recorded.map(|s| s.to_string()),
        current: current.into(),
        built_at: Some(0),
        modified: Some(60_000_000_000),
    };
    let now = 100_000_000_000;
    assert_eq!(overwrite_problem("t", &e(true, Some("abc"), "abc"), now), None);
    assert_eq!(overwrite_problem("t", &e(true, None, "abc"), now), None);
    assert_eq!(
        overwrite_problem("t", &e(true, Some("0123456789"), "abcdefghij"), now).unwrap(),
        "t was modified outside redo since redo last built it:\n\
         - redo built it 100 seconds ago and recorded content hash 01234567...\n\
         - the file on disk hashes abcdefgh... and was last modified 40 seconds ago"
    );
    let p = overwrite_problem("t", &e(false, None, "x"), now).unwrap();
    assert!(p.starts_with("t exists (last modified 40 seconds ago) but redo has no record"));
    let unknown = Evidence { built_at: None, modified: None, ..e(true, Some("a"), "b") };
    let p = overwrite_problem("t", &unknown, now).unwrap();
    assert!(p.contains("redo built it previously") && p.ends_with("at an unknown time"));
}

#[test]
fn the_guard_asks_only_on_demand() {
    // problem, all, none, demanded, user
    assert_eq!(check_not_hand_edited(false, false, true, false, false), Guard::Proceed);
    assert_eq!(check_not_hand_edited(true, true, false, false, false), Guard::Overwrite);
    assert_eq!(check_not_hand_edited(true, false, false, false, true), Guard::Abort);
    assert_eq!(check_not_hand_edited(true, false, false, true, true), Guard::Prompt);
    assert_eq!(check_not_hand_edited(true, false, true, true, true), Guard::Refuse);
    assert_eq!(check_not_hand_edited(true, false, false, true, false), Guard::Refuse);
    assert!(overwrite_all(Mode::All, None));
    assert!(overwrite_all(Mode::Ask, Some("1")));
    assert!(!overwrite_all(Mode::Ask, Some("0")));
    assert!(!overwrite_all(Mode::Quit, None));
    assert!(overwrite_none(Mode::Quit, None));
    assert!(overwrite_none(Mode::Ask, Some("1")));
    assert!(!overwrite_none(Mode::Ask, None));
}

#[test]
fn answers_are_understood() {
    for (s, a) in [
        ("y\n", Answer::Yes),
        ("  YES \r\n", Answer::Yes),
        ("a", Answer::All),
        ("All", Answer::All),
        ("\tq\u{a0}", Answer::Quit),
        ("quit", Answer::Quit),
        ("n", Answer::No),
        ("", Answer::No),
        ("yess", Answer::No),
    ] {
        assert_eq!(parse_answer(s), a, "{s:?}");
    }
    assert_eq!(after_answer(Mode::Ask, Answer::Yes), (true, Mode::Ask));
    assert_eq!(after_answer(Mode::Ask, Answer::No), (false, Mode::Ask));
    assert_eq!(after_answer(Mode::Ask, Answer::All), (true, Mode::All));
    assert_eq!(after_answer(Mode::Ask, Answer::Quit), (false, Mode::Quit));
}

#[test]
fn ages_in_words() {
    let s = 1_000_000_000i64;
    assert_eq!(ago(0, 0), "just now");
    assert_eq!(ago(s, 0), "just now");
    assert_eq!(ago(2 * s, 0), "2 seconds ago");
    assert_eq!(ago(119 * s, 0), "119 seconds ago");
    assert_eq!(ago(120 * s, 0), "2 minutes ago");
    assert_eq!(ago(7199 * s, 0), "119 minutes ago");
    assert_eq!(ago(7200 * s, 0), "2 hours ago");
    assert_eq!(ago(48 * 3600 * s, 0), "2 days ago");
    assert_eq!(ago(0, s / 2), "just now");
    assert_eq!(ago(0, s), "in the future (clock skew?)");
    assert_eq!(hash8(&Some("0123456789".into())), "01234567…");
    assert_eq!(hash8(&Some("abc".into())), "abc…");
    assert_eq!(hash8(&None), "(none)");
}

#[test]
fn state_flows_through_the_environment() {
    let watch = vec![EdgeRef { owner: "o".into(), waiter: "w".into(), dep: "d".into() }];
    let env = child_env("/p", "t", -4, 2, &words(&["a", "b"]), &watch, Mode::All, None);
    let get = |n: &str| env.iter().find(|e| e.name == n).and_then(|e| e.value.clone());
    assert_eq!(get("REDO_ROOT").as_deref(), Some("/p"));
    assert_eq!(get("REDO_SPEC_WATCH").as_deref(), Some("o\u{1f}w\u{1f}d"));
    assert_eq!(get("REDO_YES").as_deref(), Some("1"));
    assert_eq!(get("REDO_LOG_PATH"), None);
    let i = inherited(
        get("REDO_SESSION").as_deref(),
        get("REDO_DEPTH").as_deref(),
        get("REDO_CHAIN").as_deref(),
        get("REDO_TARGET").as_deref(),
    );
    assert_eq!(i.session, Some(-4));
    assert_eq!(i.depth, 3);
    assert_eq!(i.chain, vec!["a", "b", "t"]);
    assert_eq!(i.target.as_deref(), Some("t"));
    let env = child_env("/p", "t", 1, 0, &[], &[], Mode::Quit, Some("/l".into()));
    assert!(env.iter().any(|e| e.name == "REDO_NO"));
    assert!(env.iter().any(|e| e.name == "REDO_SPEC_WATCH" && e.value.is_none()));
    assert!(env.iter().any(|e| e.name == "REDO_LOG_PATH" && e.value.as_deref() == Some("/l")));
    let i = inherited(Some("x"), Some("-1"), None, Some(""));
    assert_eq!((i.session, i.depth, i.chain, i.target), (None, 0, vec![], None));
    assert_eq!(owner_id(12, 255), "12-ff");
}

#[test]
fn names_outside_the_project_are_errors() {
    let root = Root { dir: FsPath::parse("/p") };
    let cwd = FsPath::parse("/p/sub");
    assert_eq!(normalize_target(&root, &cwd, "../a/./b").unwrap(), "a/b");
    assert_eq!(
        normalize_target(&root, &cwd, "../../x").unwrap_err().message(),
        "target \"../../x\" is outside the project root /p"
    );
}

#[test]
fn options_are_taken_out() {
    let p = |v: &[&str]| extract_jobs(&words(v));
    let flags = |yes| Flags { yes, verbose: false, debug_jobs: false };
    let ok = |jobs, rest: &[&str], yes| Ok(Parsed { jobs, rest: words(rest), flags: flags(yes) });
    assert_eq!(p(&[]), ok(1, &[], false));
    assert_eq!(p(&["-j", "4", "a"]), ok(4, &["a"], false));
    assert_eq!(p(&["-j4", "a"]), ok(4, &["a"], false));
    assert_eq!(p(&["--jobs", "4"]), ok(4, &[], false));
    assert_eq!(p(&["a", "--jobs=8", "b", "-y"]), ok(8, &["a", "b"], true));
    assert_eq!(p(&["-j0"]), ok(1, &[], false));
    assert_eq!(p(&["-j2", "-j3", "--yes"]), ok(3, &[], true));
    assert_eq!(
        p(&["--verbose", "a", "--debug-jobs"]),
        Ok(Parsed {
            jobs: 1,
            rest: words(&["a"]),
            flags: Flags { yes: false, verbose: true, debug_jobs: true },
        })
    );
    assert_eq!(p(&["-v", "--verbose=1"]), ok(1, &["-v", "--verbose=1"], false));
    assert_eq!(p(&["-j"]), Err(CliError::MissingNumber { option: "-j".into() }));
    let bad = |t: &str, fault| Err(CliError::BadNumber { text: t.into(), fault });
    assert_eq!(p(&["--jobs=x"]), bad("x", NumberFault::InvalidDigit));
    assert_eq!(p(&["--jobs="]), bad("", NumberFault::Empty));
    assert_eq!(p(&["-j+"]), bad("+", NumberFault::InvalidDigit));
    assert_eq!(p(&["-j-1"]), bad("-1", NumberFault::InvalidDigit));
    // Digits that exceed the bound come before what follows them.
    let big = "340282366920938463463374607431768211456x";
    assert_eq!(p(&["-j", big]), bad(big, NumberFault::TooLarge));
    assert_eq!(p(&["-j", "12x"]), bad("12x", NumberFault::InvalidDigit));
    for t in ["", "+", "-1", "x", "12x", big] {
        let std_text = t.parse::<usize>().unwrap_err().to_string();
        let message = p(&["-j", t]).unwrap_err().message();
        assert_eq!(message, format!("invalid job count {t:?}: {std_text}"));
    }
    assert_eq!(p(&["--jobs"]).unwrap_err().message(), "--jobs requires a number");
}

#[test]
fn commands_are_recognized() {
    let r = |v: &[&str]| run(&words(v)).unwrap().command;
    let none = Flags { yes: false, verbose: false, debug_jobs: false };
    let plain = |command| Ok(Request { command, flags: none });
    let build = |t: &[&str], jobs| Command::Build { targets: words(t), jobs };
    assert_eq!(r(&[]), build(&["all"], 1));
    assert_eq!(r(&["a", "b", "-j2"]), build(&["a", "b"], 2));
    assert_eq!(r(&["root", "d"]), Command::Root(words(&["d"])));
    assert_eq!(r(&["ifchange", "d"]), Command::IfChange(words(&["d"])));
    assert_eq!(
        run(&words(&["-y", "ifchange", "d"])),
        Ok(Request {
            command: Command::IfChange(words(&["d"])),
            flags: Flags { yes: true, ..none },
        })
    );
    assert_eq!(
        run(&words(&["ood", "--verbose"])),
        Ok(Request { command: Command::Ood, flags: Flags { verbose: true, ..none } })
    );
    assert_eq!(
        run_forward(None, &words(&["--debug-jobs", "t", "-j3"])),
        Ok(Request {
            command: build(&["t"], 3),
            flags: Flags { debug_jobs: true, ..none },
        })
    );
    assert_eq!(run(&words(&["--verbose", "-h"])), plain(Command::Help));
    assert_eq!(r(&["ifcreate", "d"]), Command::IfCreate(words(&["d"])));
    assert_eq!(r(&["always"]), Command::Always);
    assert_eq!(r(&["stamp"]), Command::Stamp);
    assert_eq!(r(&["sources"]), Command::Sources);
    assert_eq!(r(&["targets"]), Command::Targets);
    assert_eq!(r(&["ood"]), Command::Ood);
    assert_eq!(r(&["tree", "x"]), Command::Tree(words(&["x"])));
    assert_eq!(r(&["help"]), Command::Help);
    assert_eq!(r(&["x", "--version"]), Command::Version);
    assert_eq!(r(&["x", "--version", "-h"]), Command::Help);
    assert_eq!(
        run_forward(Some("ifchange"), &words(&["-j2"])),
        plain(Command::IfChange(words(&["-j2"])))
    );
    assert_eq!(run_forward(Some("ifcreate"), &[]), plain(Command::IfCreate(vec![])));
    assert_eq!(run_forward(Some("always"), &[]), plain(Command::Always));
    assert_eq!(run_forward(Some("stamp"), &[]), plain(Command::Stamp));
    assert_eq!(
        run_forward(Some("x"), &[]).unwrap_err().message(),
        "internal: unknown forwarder verb \"x\""
    );
    assert_eq!(prog_name(None), "redo");
    assert_eq!(prog_name(Some("stamp")), "redo-stamp");
}
