//! Logs, events and the follower.

use redo_msh::follow::{Action, Follower, LineReader};
use redo_msh::lock::{lock_path, probe_unlocked, target_key, Probe};
use redo_msh::logs::{
    event_parse, gc_logs, gc_stale, gc_step, keep_logs, log_temp_name, logs_dir, run_lock_path,
    run_log_path, target_log_path, DoneGuard, Event, GcStep, DEPTH_MAX, EVENT_LINE_BYTES_MAX,
    LINE_BYTES_MAX, RUN_TARGET,
};
use redo_msh::paths::FsPath;
use redo_msh::root::Root;

fn root() -> Root {
    Root { dir: FsPath::parse("/proj") }
}

fn roundtrip(ev: Event) {
    let line = ev.encode();
    let stripped = line.strip_suffix('\n').unwrap().as_bytes();
    assert_eq!(event_parse(stripped), Some(ev));
}

#[test]
fn event_roundtrip_every_kind() {
    roundtrip(Event::Do { session: 7, target: "sub dir/out.txt".into() });
    roundtrip(Event::Done { session: 7, exit: 0, target: "a.txt".into() });
    roundtrip(Event::Done { session: 7, exit: 127, target: "a b.txt".into() });
    roundtrip(Event::Waiting { session: 1, target: "x".into() });
    roundtrip(Event::Done { session: 3, exit: 1, target: RUN_TARGET.into() });
}

#[test]
fn event_parse_rejects_malformed() {
    let cases: &[&[u8]] = &[
        b"",
        b"plain user output",
        b"@REDOM1:do:5@ ",
        b"@REDOM1:do:5@x",
        b"@REDOM1:do:@ t",
        b"@REDOM1:do:-1@ t",
        b"@REDOM1:frob:5@ t",
        b"@REDOM1:done:5@ t",
        b"@REDOM1:done:5@ x t",
        b"@REDOM1:done:5@ 0 ",
        b"@REDOM2:do:5@ t",
        b" @REDOM1:do:5@ t",
    ];
    for c in cases {
        assert_eq!(event_parse(c), None, "should reject {:?}", String::from_utf8_lossy(c));
    }
    // Oversized lines are user output even if they start with the sentinel.
    let mut big = b"@REDOM1:do:5@ ".to_vec();
    big.extend(std::iter::repeat(b'a').take(EVENT_LINE_BYTES_MAX));
    assert_eq!(event_parse(&big), None);
}

#[test]
fn event_parse_traversal_payload_is_display_only() {
    // A hostile payload parses as an event, but the path the follower would open
    // is hash-derived inside logs/: traversal is impossible.
    let ev = event_parse(b"@REDOM1:do:5@ ../../etc/passwd").unwrap();
    let p = target_log_path(&root(), &ev.target());
    assert!(p.starts_with(&logs_dir(&root())));
    let name = p.file_name().unwrap();
    assert!(name.starts_with("t.") && name.ends_with(".log"));
    assert_eq!(name.len(), "t.".len() + 32 + ".log".len());
}

#[test]
fn log_and_lock_share_one_key() {
    let log = target_log_path(&root(), "Sub/Out.txt");
    let lock = lock_path(&root(), "sub/out.txt");
    let log_key = log.file_name().unwrap();
    let lock_key = lock.file_name().unwrap();
    assert_eq!(
        log_key.trim_start_matches("t.").trim_end_matches(".log"),
        lock_key.trim_end_matches(".lock")
    );
}

#[test]
fn events_have_exact_lines() {
    let e = Event::Done { session: 12, exit: -3, target: "a@ b".into() };
    assert_eq!(e.encode(), "@REDOM1:done:12@ -3 a@ b\n");
    roundtrip(e);
    roundtrip(Event::Do { session: 0, target: "ü:x@ y".into() });
    assert_eq!(
        Event::Waiting { session: 1, target: "x".into() }.encode(),
        "@REDOM1:waiting:1@ x\n"
    );
    assert_eq!(event_parse(b"@REDOM1:do:+5@ t"), Some(Event::Do { session: 5, target: "t".into() }));
    assert_eq!(event_parse(&[0xff, 0xfe]), None);
    assert_eq!(event_parse(b"@REDOM1:done:5@ 2147483648 t"), None);
    assert_eq!(event_parse(b"@REDOM1:do:9223372036854775808@ t"), None);
}

#[test]
fn paths_of_a_run() {
    assert_eq!(logs_dir(&root()).to_text(), "/proj/.redom/logs");
    assert_eq!(run_log_path(&root(), 42).to_text(), "/proj/.redom/logs/run.42.log");
    assert_eq!(run_lock_path(&root(), 42).to_text(), "/proj/.redom/logs/run.42.lock");
    assert_ne!(run_log_path(&root(), 42), run_lock_path(&root(), 42));
    assert_eq!(log_temp_name("run.1.log", 77), "run.1.log.77.tmp");
    assert!(keep_logs(Some("1")));
    assert!(!keep_logs(Some("0")));
    assert!(!keep_logs(None));
}

#[test]
fn keys_are_the_first_half_of_the_hash() {
    let whole = blake3::hash(b"sub/out.txt").to_hex().to_string();
    assert_eq!(target_key("Sub/OUT.txt"), whole[..32]);
    assert_ne!(target_key("a"), target_key("b"));
    assert!(probe_unlocked(Probe::Missing));
    assert!(probe_unlocked(Probe::Free));
    assert!(!probe_unlocked(Probe::Held));
    assert!(!probe_unlocked(Probe::Unreadable));
}

#[test]
fn a_done_guard_terminates_every_build() {
    let path = || FsPath::parse("/proj/log");
    let mut g = DoneGuard::new(path(), 3, "t".into());
    assert_eq!(g.terminator(), Some(Event::Done { session: 3, exit: 1, target: "t".into() }));
    g.record_exit(7);
    assert_eq!(g.terminator(), Some(Event::Done { session: 3, exit: 7, target: "t".into() }));
    // A clean do-file without a commit still ends as failed.
    g.record_exit(0);
    assert_eq!(g.terminator(), Some(Event::Done { session: 3, exit: 1, target: "t".into() }));
    assert_eq!(g.commit_success(), Event::Done { session: 3, exit: 0, target: "t".into() });
    assert_eq!(g.terminator(), None);
}

#[test]
fn the_sweep_spares_what_lives() {
    assert_eq!(gc_step("run.5.log", 5), GcStep::Keep);
    assert_eq!(gc_step("run.5.lock", 5), GcStep::Keep);
    assert_eq!(gc_step("run.55.log", 5), GcStep::ProbeRun("run.55.lock".into()));
    assert_eq!(gc_step("run.4.lock", 5), GcStep::ProbeRun("run.4.lock".into()));
    assert_eq!(gc_step("t.abc.log", 5), GcStep::ProbeKey("abc".into()));
    assert_eq!(gc_step("t.abc.log.9.tmp", 5), GcStep::Remove);
    assert_eq!(gc_step("notes.txt", 5), GcStep::Keep);
    assert!(gc_stale(&GcStep::Remove, Probe::Held));
    assert!(!gc_stale(&GcStep::ProbeKey("k".into()), Probe::Held));
    let names: Vec<String> =
        ["run.5.log", "run.4.log", "t.a.log", "x.tmp", "y"].iter().map(|s| s.to_string()).collect();
    let probes = [Probe::Free, Probe::Free, Probe::Held, Probe::Held, Probe::Free];
    assert_eq!(gc_logs(&names, &probes, 5, false), vec![1, 3]);
    assert!(gc_logs(&names, &probes, 5, true).is_empty());
}

#[test]
fn lines_come_out_whole() {
    let mut r = LineReader::new();
    assert_eq!(r.next_line(), None);
    r.feed(b"one\r\ntw");
    assert_eq!(r.next_line(), Some(b"one".to_vec()));
    assert_eq!(r.next_line(), None);
    r.feed(b"o\n\nrest");
    assert_eq!(r.next_line(), Some(b"two".to_vec()));
    assert_eq!(r.next_line(), Some(b"".to_vec()));
    assert_eq!(r.next_line(), None);
    assert_eq!(r.take_partial(), b"rest".to_vec());
    assert_eq!(r.take_partial(), b"".to_vec());
}

#[test]
fn an_endless_line_is_flushed() {
    let mut r = LineReader::new();
    r.feed(&vec![b'x'; LINE_BYTES_MAX]);
    assert_eq!(r.next_line().map(|l| l.len()), Some(LINE_BYTES_MAX));
    assert_eq!(r.next_line(), None);
}

fn note(s: &str) -> Action {
    Action::Note(s.to_string())
}

#[test]
fn the_follower_walks_depth_first() {
    let mut f = Follower::new(1, false);
    let out = f.on_line(b"@REDOM1:do:1@ a");
    assert_eq!(out, vec![note("redo  a"), Action::Open { target: "a".into(), indent: 0 }]);
    assert_eq!(f.on_opened("a".into(), 0, true), vec![]);
    assert_eq!(f.on_line(b"hello"), vec![Action::Line(b"hello".to_vec())]);
    let out = f.on_line(b"@REDOM1:do:1@ b");
    assert_eq!(out, vec![note("  redo  b"), Action::Open { target: "b".into(), indent: 1 }]);
    assert_eq!(f.on_opened("b".into(), 1, true), vec![]);
    // A `done` for another target is user output.
    assert_eq!(
        f.on_line(b"@REDOM1:done:1@ 0 a"),
        vec![Action::Line(b"@REDOM1:done:1@ 0 a".to_vec())]
    );
    assert_eq!(
        f.on_line(b"@REDOM1:done:1@ 2 b"),
        vec![
            note("  redo  b  (failed, exit 2)"),
            Action::Close { target: "b".into(), remove: true },
        ]
    );
    // Back in a, which was interrupted.
    assert_eq!(
        f.on_line(b"more"),
        vec![note("redo  a  (resumed)"), Action::Line(b"more".to_vec())]
    );
    // A shared dependency is announced again but not replayed.
    assert_eq!(f.on_line(b"@REDOM1:do:1@ B"), vec![note("  redo  B")]);
    assert_eq!(
        f.on_line(b"@REDOM1:waiting:1@ c"),
        vec![note("  redo  c  (waiting on lock)")]
    );
    assert_eq!(
        f.on_line(b"@REDOM1:done:9@ 0 a"),
        vec![
            Action::Close { target: "a".into(), remove: false },
            note("redo  a  (built by another redo run)"),
        ]
    );
    assert!(!f.is_done());
    assert_eq!(
        f.on_line(b"@REDOM1:done:1@ 1 -"),
        vec![Action::Close { target: "-".into(), remove: false }]
    );
    assert!(f.is_done());
}

#[test]
fn a_silent_log_with_a_free_lock_has_crashed() {
    let mut f = Follower::new(1, false);
    // The run trace never crashes; pauses grow up to a bound.
    assert_eq!(f.on_pause(Probe::Free), vec![Action::Sleep(10)]);
    assert_eq!(f.on_pause(Probe::Free), vec![Action::Sleep(20)]);
    f.on_line(b"@REDOM1:do:1@ a");
    f.on_opened("a".into(), 0, true);
    assert_eq!(f.on_pause(Probe::Held), vec![Action::Sleep(10)]);
    f.feed(b"partial");
    assert_eq!(f.next_line(), None);
    assert_eq!(
        f.on_pause(Probe::Missing),
        vec![
            Action::Line(b"partial".to_vec()),
            note("redo  a  (crashed)"),
            Action::Close { target: "a".into(), remove: false },
        ]
    );
    assert!(!f.is_done());
}

#[test]
fn pauses_are_bounded() {
    let mut f = Follower::new(1, false);
    let mut last = vec![];
    for _ in 0..40 {
        last = f.on_pause(Probe::Held);
    }
    assert_eq!(last, vec![Action::Sleep(200)]);
}

#[test]
fn a_missing_log_is_noted() {
    let mut f = Follower::new(1, true);
    f.on_line(b"@REDOM1:do:1@ a");
    assert_eq!(f.on_opened("a".into(), 0, false), vec![note("redo  a  (log missing)")]);
    // Kept logs are not removed.
    f.on_line(b"@REDOM1:do:1@ b");
    f.on_opened("b".into(), 0, true);
    assert_eq!(
        f.on_line(b"@REDOM1:done:1@ 0 b"),
        vec![Action::Close { target: "b".into(), remove: false }]
    );
}

#[test]
fn the_walk_is_bounded() {
    let mut f = Follower::new(1, false);
    for i in 0..DEPTH_MAX {
        f.on_line(format!("@REDOM1:do:1@ t{i}").as_bytes());
        f.on_opened(format!("t{i}"), i, true);
    }
    let out = f.on_line(b"@REDOM1:do:1@ deep");
    assert_eq!(out.len(), 2);
    assert_eq!(
        out[1],
        Action::Note(format!("{}redo  deep  (too deep to trace)", "  ".repeat(DEPTH_MAX)))
    );
}
