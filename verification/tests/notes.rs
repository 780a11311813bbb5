//! The traces, in words.

use redo_msh::building::Facts;
use redo_msh::check::{Answer, Item, Waited};
use redo_msh::db::{DepKind, DepRow, FileRow, Store};
use redo_msh::jobserver::{Jobserver, Pool};
use redo_msh::notes::{
    already_settled, building_with, built_meanwhile, created_note, csum_note, decision_line,
    demand_note, drain_notes, edge_note, group_note, inherited_note, is_on, item_notes, jobs_line,
    kind_note, marking_verified, no_token, ood_notes, plan_note, row_note, settled_note, slot_note,
    source_refreshed, target_note, verdict_note, ENV_DEBUG_JOBS, ENV_VERBOSE, NO_PARENT,
};
use redo_msh::outdated::{is_ood_static, Meta, Now};
use redo_msh::parallel::{ensure_all, Failure, Outcome, Registry};
use redo_msh::stamp::Stamp;
use redo_msh::waits::{SoftOutcome, WaitGraph};

fn names(v: &[&str]) -> Vec<String> {
    v.iter().map(|s| s.to_string()).collect()
}

fn hash(s: &str) -> Option<String> {
    Some(s.to_string())
}

const OLD: &str = "0123456789abcdef";
const NEW: &str = "fedcba9876543210";

#[test]
fn a_trace_is_on_for_a_one() {
    assert_eq!((ENV_VERBOSE, ENV_DEBUG_JOBS), ("REDO_VERBOSE", "REDO_DEBUG_JOBS"));
    assert!(is_on(Some("1")));
    for off in [None, Some(""), Some("0"), Some("11"), Some("true")] {
        assert!(!is_on(off));
    }
    assert_eq!(decision_line("x"), "redo-msh -v: x\n");
    assert_eq!(jobs_line("x"), "redo-msh jobs: x\n");
}

#[test]
fn a_path_is_a_target_for_a_reason() {
    let rule = Some("default.c.do".to_string());
    assert_eq!(
        target_note("a.c", true, false, true, &rule),
        "a.c: buildable target: it exists on disk and redo never built it, but the exact do-file \
         a.c.do states it is a target"
    );
    assert_eq!(
        target_note("a.c", true, false, false, &rule),
        "a.c: static source: it exists on disk, redo has no record of building it, and only a \
         default.*.do could match (djb's static-file rule)"
    );
    let yes = "a.c: buildable target (do-file: default.c.do)";
    assert_eq!(target_note("a.c", true, true, false, &rule), yes);
    assert_eq!(target_note("a.c", false, false, true, &rule), yes);
    assert_eq!(
        target_note("a.c", false, false, false, &None),
        "a.c: not buildable: no do-file matches"
    );
}

#[test]
fn rows_and_marks_speak_for_themselves() {
    assert_eq!(
        row_note("t", &None, true).unwrap(),
        "t: OUT OF DATE: redo has no record of ever building it"
    );
    assert_eq!(
        row_note("t", &Some(hash(OLD)), false).unwrap(),
        "t: OUT OF DATE: the previously built output is missing from disk"
    );
    assert_eq!(row_note("t", &Some(hash(OLD)), true), None);
    assert_eq!(row_note("t", &Some(None), false), None);
    assert_eq!(
        kind_note("t", DepKind::Always).unwrap(),
        "t: OUT OF DATE: its do-file called redo-always"
    );
    assert_eq!(
        kind_note("t", DepKind::Uncommitted).unwrap(),
        "t: OUT OF DATE: the last build failed or crashed before committing"
    );
    assert_eq!(kind_note("t", DepKind::IfChange), None);
}

#[test]
fn checks_say_what_they_found() {
    let one = |i: Item, a: Answer| {
        let mut v = item_notes("t", &i, &a);
        assert_eq!(v.len(), 1);
        v.pop().unwrap()
    };
    let dep = || "d".to_string();
    let rule = || Item::DoFile { dep: dep(), csum: hash(OLD) };
    assert_eq!(
        one(rule(), Answer::Csum(hash(NEW))),
        "t: OUT OF DATE: do-file d changed (hash was 01234567… at last build, is now fedcba98…)"
    );
    assert_eq!(
        one(rule(), Answer::Csum(None)),
        "t: OUT OF DATE: do-file d changed (hash was 01234567… at last build, is now (none))"
    );
    assert_eq!(one(rule(), Answer::Csum(hash(OLD))), "t: do-file d unchanged (hash 01234567…)");
    assert_eq!(
        one(Item::IfCreate { dep: dep() }, Answer::Exists(true)),
        "t: OUT OF DATE: d now exists (the target depends on it NOT existing — at build time it \
         was a missing do-file candidate or an ifcreate path)"
    );
    assert_eq!(
        one(Item::IfCreate { dep: dep() }, Answer::Exists(false)),
        "t: ifcreate dependency d is still absent"
    );
    for buildable in [false, true] {
        let item = || {
            if buildable {
                Item::Dep { dep: dep(), csum: hash(OLD) }
            } else {
                Item::Source { dep: dep(), csum: hash(OLD) }
            }
        };
        assert_eq!(
            one(item(), Answer::Csum(None)),
            "t: OUT OF DATE: dependency d no longer exists"
        );
        assert_eq!(
            one(item(), Answer::Csum(hash(NEW))),
            "t: OUT OF DATE: dependency d changed (hash was 01234567… at last build, is now \
             fedcba98…)"
        );
        assert_eq!(
            one(item(), Answer::Csum(hash(OLD))),
            "t: dependency d unchanged (hash 01234567…)"
        );
    }
    let deps = names(&["a", "b", "c"]);
    assert_eq!(
        one(
            Item::Edges { deps: deps.clone() },
            Answer::Edges(vec![SoftOutcome::Inserted, SoftOutcome::Cycle, SoftOutcome::Cycle])
        ),
        "t: waiting for recorded dependency b would close a dependency cycle; treating it as out \
         of date (the do-file is the ground truth for whether the cycle is real)"
    );
    assert_eq!(
        one(Item::Wait { dep: dep() }, Answer::Waited(Waited::SoftFailed("boom".into()))),
        "t: OUT OF DATE: recorded dependency d failed to build (boom); rebuilding — its do-file \
         decides whether the dependency is still real"
    );
    assert_eq!(
        one(Item::Wait { dep: dep() }, Answer::Waited(Waited::Evicted)),
        "t: OUT OF DATE: a running do-file's dependency demand superseded our speculative wait on \
         d (edge evicted); rebuilding"
    );
    assert_eq!(
        one(Item::Guard { dep: dep() }, Answer::Alive(false)),
        "t: OUT OF DATE: a checker wait edge was evicted by a real dependency demand; rebuilding \
         instead of verifying"
    );
    let activate = Item::Activate { deps, must: false };
    assert_eq!(
        item_notes("t", &activate, &Answer::Activated(vec![false, true, false])),
        vec![
            "a: NOT speculating: waiting for it here could close a dependency cycle (creation edge \
             refused)",
            "c: NOT speculating: waiting for it here could close a dependency cycle (creation edge \
             refused)",
        ]
    );
    // Nothing is said of what went well, nor of an answer to something else.
    for (i, a) in [
        (Item::Guard { dep: dep() }, Answer::Alive(true)),
        (Item::Wait { dep: dep() }, Answer::Waited(Waited::Done)),
        (Item::Edges { deps: names(&["a"]) }, Answer::Edges(vec![SoftOutcome::Inserted])),
        (Item::Guard { dep: dep() }, Answer::Exists(true)),
    ] {
        assert!(item_notes("t", &i, &a).is_empty());
    }
}

#[test]
fn a_verdict_counts_what_was_compared() {
    let d = |s: &str| s.to_string();
    let plan = vec![
        Item::Activate { deps: names(&["b"]), must: false },
        Item::DoFile { dep: d("t.do"), csum: None },
        Item::IfCreate { dep: d("n") },
        Item::Source { dep: d("s"), csum: None },
        Item::Edges { deps: names(&["b"]) },
        Item::Wait { dep: d("b") },
        Item::Dep { dep: d("b"), csum: None },
        Item::Guard { dep: d("b") },
    ];
    assert_eq!(
        verdict_note("t", &plan),
        "t: UP TO DATE: all 4 recorded dependencies are unchanged"
    );
    assert_eq!(
        verdict_note("t", &[]),
        "t: UP TO DATE: all 0 recorded dependencies are unchanged"
    );
    assert_eq!(
        already_settled("t"),
        "t: skipping: already built or verified earlier in this run"
    );
    assert_eq!(marking_verified("t"), "t: up to date; marking it verified for this run");
    assert_eq!(
        built_meanwhile("t"),
        "t: skipping: another process built it while we waited for its lock"
    );
}

#[test]
fn a_build_says_what_it_comes_to() {
    let f = Facts {
        exists: true,
        exists_as_file: true,
        generated: false,
        exact_dofile: false,
        any_dofile: true,
        force: false,
    };
    assert_eq!(
        plan_note("t", &f, "default.do").unwrap(),
        "t: NOT building: recording it as a static source (it exists, redo never built it, and no \
         exact t.do exists)"
    );
    assert_eq!(
        plan_note("t", &Facts { force: true, ..f }, "default.do").unwrap(),
        "t: building with do-file default.do (forced: named at the command line)"
    );
    let built = Facts { generated: true, ..f };
    assert_eq!(plan_note("t", &built, "default.do"), Some(building_with("t", "default.do")));
    assert_eq!(building_with("t", "default.do"), "t: building with do-file default.do");
    assert_eq!(
        plan_note("t", &Facts { any_dofile: false, ..built }, "").unwrap(),
        "t: NOT building: no do-file matches any more, but the file exists — re-recording it as a \
         static source"
    );
    let nothing = Facts { exists: false, exists_as_file: false, any_dofile: false, ..f };
    assert_eq!(plan_note("t", &nothing, ""), None);
}

#[test]
fn requests_say_what_they_record() {
    assert_eq!(
        source_refreshed("d"),
        "d: source file (nothing builds it); refreshing its stamp"
    );
    let stamp = Some(Stamp { mtime: 1, size: 2, csum: OLD.into() });
    assert_eq!(edge_note("p", "d", &stamp), "p: recorded dependency on d (hash 01234567…)");
    assert_eq!(edge_note("p", "d", &None), "p: recorded dependency on d (hash (none))");
    assert_eq!(
        NO_PARENT,
        "not inside a do-file (no REDO_TARGET): dependencies were brought up to date but no edges \
         were recorded"
    );
}

#[test]
fn a_hash_is_trusted_or_read_for_a_reason() {
    let fine = 1_000_000_001;
    let meta = |mtime| Some(Meta { mtime, len: 5, dir: false });
    let cached = |mtime, size| Some(Stamp { mtime, size, csum: OLD.into() });
    let note = |m, c| csum_note("p", &m, &c, &hash(NEW)).unwrap();
    assert_eq!(
        note(meta(fine), cached(fine, 5)),
        "p: mtime and size match the cache and the mtime has sub-second precision; trusting cached \
         hash 01234567… without re-reading"
    );
    for (c, m, why) in [
        (None, meta(fine), "no cached stamp"),
        (cached(fine + 1, 6), meta(fine), "mtime changed"),
        (cached(fine, 6), meta(fine), "size changed"),
        (
            cached(2_000_000_000, 5),
            meta(2_000_000_000),
            "whole-second mtime cannot be trusted",
        ),
    ] {
        assert_eq!(note(m, c), format!("p: hashed the file contents ({why}): fedcba98…"));
    }
    assert_eq!(csum_note("p", &None, &cached(fine, 5), &None), None);
}

#[test]
fn the_list_of_outdated_targets_gives_its_reasons() {
    let stamp = Some(Stamp { mtime: 1, size: 1, csum: OLD.into() });
    let none: Option<Stamp> = None;
    let now = |exists: bool, csum: Option<&str>| Now { exists, csum: csum.map(str::to_string) };
    let mut s = Store::new();
    assert_eq!(
        ood_notes(&s, "t", true, &[]),
        vec!["t: OUT OF DATE: redo has no record of ever building it"]
    );
    s.upsert_file(&FileRow::new("t", Some("t.do".into()), Some(1), &stamp, 1));
    assert_eq!(
        ood_notes(&s, "t", false, &[]),
        vec!["t: OUT OF DATE: the previously built output is missing from disk"]
    );
    s.record_dep(&DepRow::new("t", DepKind::IfChange, Some("a".into()), &stamp));
    s.record_dep(&DepRow::new("t", DepKind::IfCreate, Some("n".into()), &none));
    let same = [now(true, Some(OLD)), now(false, None)];
    assert!(!is_ood_static(&s, "t", true, &same));
    assert_eq!(
        ood_notes(&s, "t", true, &same),
        vec![
            "t: dependency a unchanged (hash 01234567…)",
            "t: ifcreate dependency n is still absent",
            "t: UP TO DATE: all recorded dependencies are unchanged",
        ]
    );
    // The first reason is the last.
    assert_eq!(
        ood_notes(&s, "t", true, &[now(true, Some(NEW)), now(true, None)]),
        vec![
            "t: OUT OF DATE: dependency a changed (hash was 01234567… at last build, is now \
             fedcba98…)",
        ]
    );
    assert_eq!(
        ood_notes(&s, "t", true, &[now(true, Some(OLD)), now(true, None)]),
        vec![
            "t: dependency a unchanged (hash 01234567…)",
            "t: OUT OF DATE: n now exists (ifcreate dependency)",
        ]
    );
    s.record_dep(&DepRow::new("t", DepKind::Always, None, &none));
    let notes = ood_notes(&s, "t", true, &[now(true, Some(OLD)), now(false, None), now(false, None)]);
    assert_eq!(notes[2], "t: OUT OF DATE: its do-file called redo-always");
    assert_eq!(notes.len(), 3);
}

#[test]
fn pools_and_tokens_are_traced() {
    let pipe = Jobserver { pool: Pool::Pipe { rfd: 3, wfd: 4 } };
    assert_eq!(
        created_note(8, &pipe),
        "jobserver: created for -j8: token pipe (fds 3,4), shared across the process tree"
    );
    let local = Jobserver::init_local(3);
    assert_eq!(
        inherited_note(Some("local:3"), &local),
        "jobserver: inherited (REDO_JOBSERVER=local:3): in-process counter (2 extra tokens, NOT \
         shared with child redo processes)"
    );
    assert_eq!(
        inherited_note(None, &local),
        "jobserver: none in environment: serial (own token only)"
    );
    assert_eq!(slot_note("t", true, false), "t: build slot: own token");
    assert_eq!(slot_note("t", false, false), "t: build slot: pool token");
    assert_eq!(slot_note("t", true, true), "t: build slot: own token (after wait)");
    assert_eq!(slot_note("t", false, true), "t: build slot: pool token (after wait)");
    assert_eq!(no_token("t"), "t: no token free; polling until one is released");
}

#[test]
fn groups_and_demands_are_traced() {
    assert_eq!(group_note(&names(&["a", "b"])), "parallel group of 2: a, b");
    assert_eq!(
        demand_note("p", "d", true),
        "p: demand on d evicted a speculative build (aborted) to avoid a wait cycle; retrying"
    );
    assert_eq!(
        demand_note("p", "d", false),
        "p: demand on d evicted a speculative checker wait to avoid a wait cycle; retrying"
    );
    let mut reg = Registry::new(Vec::new());
    let (mut group, _) = ensure_all(&mut reg, &names(&["a", "b", "c"]), false);
    assert_eq!(settled_note(&group, &Outcome::Done, false), None);
    let quarantined = || Outcome::SpecFailed("gone".into());
    reg.settle(0, Some(Failure { message: "gone".into(), aborted: true }));
    assert_eq!(
        settled_note(&group, &quarantined(), false).unwrap(),
        "a: speculative attempt was quarantined (gone); re-running it as a demanded build"
    );
    let failed = "a: failed; waiting for the rest of the group";
    assert_eq!(settled_note(&group, &quarantined(), true).unwrap(), failed);
    assert_eq!(settled_note(&group, &Outcome::Failed("x".into()), false).unwrap(), failed);
    // Only the first failure is told.
    group.observe(&mut reg, Outcome::Failed("x".into()), false);
    assert_eq!(settled_note(&group, &Outcome::Failed("y".into()), false), None);
}

#[test]
fn a_task_is_told_once_to_stop() {
    let mut reg = Registry::new(Vec::new());
    let mut g = WaitGraph::new();
    ensure_all(&mut reg, &names(&["a"]), false);
    reg.activate_spec(&mut g, "1-aa", "\u{1}top:x", &names(&["b", "c"]), &[]);
    reg.settle(2, None);
    assert_eq!(
        drain_notes(&reg),
        vec![
            "b: abandoning speculative task at drain (undemanded; will be re-run when genuinely \
             needed)",
        ]
    );
    assert_eq!(reg.drain(&mut g, "1-aa", "\u{1}top:x"), vec![0, 1]);
    assert!(drain_notes(&reg).is_empty());
}
