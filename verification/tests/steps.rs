//! Builds, step by step.

use redo_msh::building::{BuildError, Facts, LockWait, Look, Output, Ran};
use redo_msh::db::{DbOp, DepKind, Store};
use redo_msh::logs::Event;
use redo_msh::overwrite;
use redo_msh::paths::FsPath;
use redo_msh::stamp::Stamp;
use redo_msh::steps::{Answer, Build, End, Job, Step};

const SESSION: i64 = 7;

fn job(target: &str) -> Job {
    Job {
        target: target.to_string(),
        force: false,
        session: SESSION,
        chain: Vec::new(),
        watched: false,
        abandonable: false,
        log: Some(FsPath::parse("/proj/.redom/logs/t.log")),
    }
}

fn stamp(csum: &str) -> Option<Stamp> {
    Some(Stamp { mtime: 1_000_000_001, size: 3, csum: csum.to_string() })
}

fn fresh() -> Facts {
    Facts {
        exists: false,
        exists_as_file: false,
        generated: false,
        exact_dofile: true,
        any_dofile: true,
        force: false,
    }
}

fn free() -> Answer {
    Answer::Guarded { problem: None, all: false, none: false, demanded: true, user_present: false }
}

fn in_the_way(all: bool, none: bool, demanded: bool, user_present: bool) -> Answer {
    Answer::Guarded { problem: Some("mine".to_string()), all, none, demanded, user_present }
}

fn rule() -> Answer {
    Answer::Rule { dofile: "t.do".to_string(), stamp: stamp("d"), absent: vec!["x.do".to_string()] }
}

fn exited(code: Option<i32>) -> Ran {
    Ran { before: None, after: None, code, temp_exists: true, captured: 0 }
}

fn done(exit: i32) -> Step {
    Step::Terminate(Event::Done { session: SESSION, exit, target: "t".to_string() })
}

/// The build that the answers lead to, and its last step.
fn drive(job: Job, answers: Vec<Answer>) -> (Build, Step) {
    let (mut b, mut s) = Build::begin(job);
    for a in answers {
        s = b.next(a);
    }
    (b, s)
}

/// A build whose do-file is to be started.
fn launched(job: Job) -> (Build, Step) {
    let traced = job.log.is_some();
    let mut answers = vec![
        Answer::Locked(true),
        Answer::Settled(None),
        Answer::Found(fresh()),
        free(),
        rule(),
        Answer::Done,
        Answer::Done,
    ];
    if traced {
        answers.push(Answer::Done);
        answers.push(Answer::Done);
    }
    drive(job, answers)
}

#[test]
fn a_build_takes_its_steps_in_order() {
    let mut store = Store::new();
    let (mut b, s) = Build::begin(job("t"));
    assert_eq!(s, Step::TryLock);
    assert_eq!(b.next(Answer::Locked(true)), Step::ReadRun);
    assert_eq!(b.next(Answer::Settled(Some(SESSION - 1))), Step::Look);
    assert_eq!(b.next(Answer::Found(fresh())), Step::Guard);
    assert_eq!(b.next(free()), Step::StampRule);
    match b.next(rule()) {
        Step::Apply(ops) => store.apply_all(&ops),
        other => panic!("{other:?}"),
    }
    let kinds: Vec<DepKind> = store.read_deps("t").iter().map(|d| d.kind).collect();
    assert_eq!(kinds, vec![DepKind::Uncommitted, DepKind::DoFile, DepKind::IfCreate]);
    assert_eq!(b.next(Answer::Done), Step::Prepare);
    assert_eq!(b.next(Answer::Done), Step::OpenLog(FsPath::parse("/proj/.redom/logs/t.log")));
    let event = Event::Do { session: SESSION, target: "t".to_string() };
    assert_eq!(b.next(Answer::Done), Step::Announce(event));
    assert_eq!(b.next(Answer::Done), Step::Launch);
    assert_eq!(b.next(Answer::Done), Step::Await(LockWait::Block));
    assert_eq!(b.next(Answer::Ran(exited(Some(0)))), Step::Place(Output::Temp));
    assert_eq!(b.next(Answer::Done), Step::StampOutput);
    match b.next(Answer::Produced { stamp: stamp("o"), now: 5 }) {
        Step::Apply(ops) => store.apply_all(&ops),
        other => panic!("{other:?}"),
    }
    assert_eq!(store.file_runid("t"), Some(SESSION));
    assert!(store.read_deps("t").iter().all(|d| d.kind != DepKind::Uncommitted));
    assert_eq!(b.next(Answer::Done), done(0));
    assert_eq!(b.next(Answer::Done), Step::Clean);
    assert_eq!(b.next(Answer::Done), Step::End(End::Built));
    assert_eq!(b.next(Answer::Done), Step::End(End::Trouble));
}

#[test]
fn a_build_without_a_trace_has_no_log() {
    let mut j = job("t");
    j.log = None;
    let (mut b, s) = launched(j);
    assert_eq!(s, Step::Launch);
    assert_eq!(b.unterminated(), None);
    b.next(Answer::Done);
    b.next(Answer::Ran(exited(Some(0))));
    b.next(Answer::Done);
    b.next(Answer::Produced { stamp: None, now: 5 });
    assert_eq!(b.next(Answer::Done), Step::Clean);
    assert_eq!(b.next(Answer::Done), Step::End(End::Built));
}

#[test]
fn a_cycle_or_a_deep_chain_takes_no_lock() {
    let mut j = job("t");
    j.chain = vec!["a".to_string(), "T".to_string()];
    let (_, s) = Build::begin(j);
    let path = vec!["a".to_string(), "T".to_string()];
    assert_eq!(s, Step::End(End::Failed(BuildError::Cycle { path, target: "t".to_string() })));
    let mut j = job("t");
    j.chain = (0..64).map(|i| format!("c{i}")).collect();
    let (_, s) = Build::begin(j);
    assert_eq!(s, Step::End(End::Failed(BuildError::TooDeep { target: "t".to_string() })));
}

#[test]
fn demanded_work_blocks_on_a_held_lock() {
    let (mut b, s) = drive(job("t"), vec![Answer::Locked(false)]);
    let waiting = Event::Waiting { session: SESSION, target: "t".to_string() };
    assert_eq!(s, Step::Announce(waiting));
    assert_eq!(b.next(Answer::Done), Step::Block);
    assert_eq!(b.next(Answer::Locked(true)), Step::ReadRun);
    // Somebody built it while we waited.
    assert_eq!(b.next(Answer::Settled(Some(SESSION))), Step::End(End::Skipped));
}

#[test]
fn a_forced_target_is_built_again() {
    let mut j = job("t");
    j.force = true;
    let (_, s) = drive(j, vec![Answer::Locked(true), Answer::Settled(Some(SESSION))]);
    assert_eq!(s, Step::Look);
}

#[test]
fn speculative_work_stays_interruptible() {
    let mut j = job("t");
    j.abandonable = true;
    let (mut b, s) = drive(j, vec![Answer::Locked(false), Answer::Done]);
    assert_eq!(s, Step::Poll);
    assert_eq!(b.next(Answer::Alive(true)), Step::TryLock);
    assert_eq!(b.next(Answer::Locked(false)), Step::Pause);
    assert_eq!(b.next(Answer::Done), Step::Poll);
    assert_eq!(b.next(Answer::Alive(false)), Step::End(End::Dead));
}

#[test]
fn a_dead_speculation_stops_its_do_file() {
    let mut j = job("t");
    j.watched = true;
    let (mut b, s) = launched(j);
    assert_eq!(s, Step::Launch);
    assert_eq!(b.next(Answer::Done), Step::Await(LockWait::Poll));
    assert_eq!(b.next(Answer::Dead), Step::Kill);
    assert_eq!(b.next(Answer::Done), done(1));
    assert_eq!(b.next(Answer::Done), Step::Clean);
    let e = BuildError::Aborted { target: "t".to_string() };
    assert_eq!(b.next(Answer::Done), Step::End(End::Failed(e)));
}

#[test]
fn a_source_is_recorded_and_not_built() {
    let facts = Facts { exists: true, exists_as_file: true, exact_dofile: false, ..fresh() };
    let (mut b, s) =
        drive(job("t"), vec![Answer::Locked(true), Answer::Settled(None), Answer::Found(facts)]);
    assert_eq!(s, Step::StampSource);
    let mut store = Store::new();
    match b.next(Answer::Stamped(stamp("s"))) {
        Step::Apply(ops) => store.apply_all(&ops),
        other => panic!("{other:?}"),
    }
    assert!(!store.is_generated("t"));
    assert_eq!(store.file_runid("T"), Some(SESSION));
    assert_eq!(b.next(Answer::Done), Step::End(End::Source));
}

#[test]
fn a_target_without_a_rule_fails() {
    let facts = Facts { exact_dofile: false, any_dofile: false, ..fresh() };
    let (_, s) =
        drive(job("t"), vec![Answer::Locked(true), Answer::Settled(None), Answer::Found(facts)]);
    assert_eq!(s, Step::End(End::Failed(BuildError::NoRule { target: "t".to_string() })));
}

fn at_guard() -> Build {
    let answers = vec![Answer::Locked(true), Answer::Settled(None), Answer::Found(fresh())];
    let (b, s) = drive(job("t"), answers);
    assert_eq!(s, Step::Guard);
    b
}

#[test]
fn a_file_in_the_way_is_guarded() {
    let refused = || Step::End(End::Failed(BuildError::Refused { problem: "mine".to_string() }));
    // Consent was given before.
    let mut b = at_guard();
    assert_eq!(b.next(in_the_way(true, false, true, false)), Step::Overwriting("mine".to_string()));
    assert_eq!(b.next(Answer::Done), Step::StampRule);
    // Nobody is there to ask; or nobody wants to be asked.
    assert_eq!(at_guard().next(in_the_way(false, false, true, false)), refused());
    assert_eq!(at_guard().next(in_the_way(false, true, true, true)), refused());
    // Speculation never asks.
    let e = BuildError::Aborted { target: "t".to_string() };
    assert_eq!(at_guard().next(in_the_way(false, false, false, true)), Step::End(End::Failed(e)));
    // The user decides.
    for (said, goes_on) in [
        (overwrite::Answer::Yes, true),
        (overwrite::Answer::All, true),
        (overwrite::Answer::No, false),
        (overwrite::Answer::Quit, false),
    ] {
        let mut b = at_guard();
        assert_eq!(b.next(in_the_way(false, false, true, true)), Step::Prompt("mine".to_string()));
        let next = b.next(Answer::Answered(said));
        assert_eq!(next, if goes_on { Step::StampRule } else { refused() });
    }
}

#[test]
fn a_failed_do_file_terminates_its_log() {
    let (mut b, _) = launched(job("t"));
    b.next(Answer::Done);
    assert_eq!(b.next(Answer::Ran(exited(Some(3)))), done(3));
    assert_eq!(b.unterminated(), None);
    assert_eq!(b.next(Answer::Done), Step::Clean);
    let e = BuildError::Failed { target: "t".to_string(), code: Some(3) };
    assert_eq!(b.next(Answer::Done), Step::End(End::Failed(e)));
    // Killed by a signal.
    let (mut b, _) = launched(job("t"));
    b.next(Answer::Done);
    assert_eq!(b.next(Answer::Ran(exited(None))), done(1));
    // A do-file that succeeded, but wrote to both outputs.
    let (mut b, _) = launched(job("t"));
    b.next(Answer::Done);
    let both = Ran { captured: 2, ..exited(Some(0)) };
    assert_eq!(b.next(Answer::Ran(both)), done(1));
    // One that wrote to the target itself.
    let (mut b, _) = launched(job("t"));
    b.next(Answer::Done);
    let direct = Ran { after: Some(Look { dir: false, modified: Some(1) }), ..exited(Some(0)) };
    assert_eq!(b.next(Answer::Ran(direct)), done(1));
    b.next(Answer::Done);
    let e = BuildError::ModifiedDirectly { target: "t".to_string() };
    assert_eq!(b.next(Answer::Done), Step::End(End::Failed(e)));
}

#[test]
fn trouble_unwinds_from_every_step() {
    // Before anything was prepared, there is nothing to undo.
    for n in 0..6 {
        let answers = vec![
            Answer::Locked(true),
            Answer::Settled(None),
            Answer::Found(fresh()),
            free(),
            rule(),
        ];
        let mut answers: Vec<Answer> = answers.into_iter().take(n).collect();
        answers.push(Answer::Trouble);
        let (_, s) = drive(job("t"), answers);
        assert_eq!(s, Step::End(End::Trouble));
    }
    // Without a log that somebody was led to, only files go.
    let (mut b, s) = drive(
        job("t"),
        vec![
            Answer::Locked(true),
            Answer::Settled(None),
            Answer::Found(fresh()),
            free(),
            rule(),
            Answer::Done,
            Answer::Trouble,
        ],
    );
    assert_eq!(s, Step::Clean);
    assert_eq!(b.next(Answer::Done), Step::End(End::Trouble));
    // From then on, the log is terminated too: even if the do-file succeeded.
    let (mut b, _) = launched(job("t"));
    let owed = Event::Done { session: SESSION, exit: 1, target: "t".to_string() };
    assert_eq!(b.unterminated(), Some(owed));
    assert_eq!(b.next(Answer::Trouble), done(1));
    let (mut b, _) = launched(job("t"));
    b.next(Answer::Done);
    b.next(Answer::Ran(exited(Some(0))));
    assert_eq!(b.next(Answer::Trouble), done(1));
    assert_eq!(b.next(Answer::Done), Step::Clean);
    assert_eq!(b.next(Answer::Done), Step::End(End::Trouble));
}

#[test]
fn an_answer_that_does_not_fit_counts_as_trouble() {
    let (_, s) = drive(job("t"), vec![Answer::Alive(true)]);
    assert_eq!(s, Step::End(End::Trouble));
}

#[test]
fn a_crash_at_any_point_leaves_the_target_marked() {
    let mut store = Store::new();
    let mut j = job("t");
    j.log = None;
    let (mut b, mut s) = Build::begin(j);
    let answers = vec![
        Answer::Locked(true),
        Answer::Settled(None),
        Answer::Found(fresh()),
        free(),
        rule(),
        Answer::Done,
        Answer::Done,
        Answer::Done,
        Answer::Ran(exited(Some(0))),
        Answer::Done,
    ];
    for a in answers {
        s = b.next(a);
        if let Step::Apply(ops) = &s {
            store.apply_all(ops);
        }
    }
    assert_eq!(s, Step::StampOutput);
    // Another build commits meanwhile.
    store.apply_all(&[DbOp::ClearDeps { target: "u".to_string() }]);
    store.apply_all(&[DbOp::DropMarker { target: "u".to_string() }]);
    assert!(store.read_deps("T").iter().any(|d| d.kind == DepKind::Uncommitted));
}
