//! The registry of tasks, tokens, and the checking phase.

use redo_msh::check::{check_plan, check_recorded, edges_inserted, Answer, Item, Verdict, Waited};
use redo_msh::db::{DepKind, DepRow};
use redo_msh::jobserver::{extra_tokens, pipe_read, Jobserver, PipeRead, Pool, Take, TokenSrc};
use redo_msh::parallel::{
    abort_check, abort_unless_lineage_demanded, creation_waiter, ensure, ensure_all,
    speculation_dead, task_start, Claim, Failure, Group, Outcome, Registry, SpecAborted, State,
    TaskStart, TokenStep, WatchStep,
};
use redo_msh::requests::{Demand, DemandStep};
use redo_msh::stamp::Stamp;
use redo_msh::waits::{
    edge_alive, try_demand, try_soft, DemandOutcome, EdgeKind, EdgeRef, SoftOutcome, WaitGraph,
};

const ME: &str = "1-aa";

fn names(v: &[&str]) -> Vec<String> {
    v.iter().map(|s| s.to_string()).collect()
}

fn failed(m: &str) -> Option<Failure> {
    Some(Failure { message: m.into(), aborted: false })
}

#[test]
fn each_target_is_claimed_once() {
    let mut reg = Registry::new(Vec::new());
    let (_, claims) = ensure_all(&mut reg, &names(&["a", "B", "A"]), false);
    assert_eq!(
        claims,
        vec![
            Claim { id: 0, fresh: true, upgrade: false },
            Claim { id: 1, fresh: true, upgrade: false },
            Claim { id: 0, fresh: false, upgrade: false },
        ]
    );
    assert_eq!(reg.find("b"), Some(1));
    assert_eq!(reg.find("c"), None);
}

#[test]
fn speculation_is_shared_and_upgraded() {
    let mut reg = Registry::new(Vec::new());
    let mut g = WaitGraph::new();
    let out = reg.activate_spec(&mut g, ME, "\u{1}top:x", &names(&["a", "b"]), &[]);
    assert_eq!(out, vec![Some(0), Some(1)]);
    assert!(!reg.tasks[0].demanded);
    assert_eq!(g.edges().len(), 2);
    // A second round shares what is claimed.
    let out = reg.activate_spec(&mut g, ME, "\u{1}top:x", &names(&["A", "c"]), &[]);
    assert_eq!(out, vec![Some(0), Some(2)]);
    // A demand upgrades; at the top level the upgrade must enter the graph.
    let (_, claims) = ensure(&mut reg, "a", true);
    assert_eq!(claims, vec![Claim { id: 0, fresh: false, upgrade: true }]);
    let (_, claims) = ensure(&mut reg, "a", true);
    assert_eq!(claims, vec![Claim { id: 0, fresh: false, upgrade: false }]);
    assert!(reg.tasks[0].demanded);
}

#[test]
fn speculation_that_closes_a_cycle_never_starts() {
    let mut reg = Registry::new(Vec::new());
    let mut g = WaitGraph::new();
    assert_eq!(try_demand(&mut g, "other", "a", "ctx"), DemandOutcome::Inserted);
    let out = reg.activate_spec(&mut g, ME, "ctx", &names(&["b", "a", "d"]), &[]);
    assert_eq!(out, vec![Some(0), None, Some(1)]);
    assert_eq!(reg.tasks.len(), 2);
    assert_eq!(reg.tasks[1].target, "d");
}

#[test]
fn failures_are_graded() {
    let mut reg = Registry::new(Vec::new());
    let mut g = WaitGraph::new();
    reg.activate_spec(&mut g, ME, "ctx", &names(&["s"]), &[]);
    ensure(&mut reg, "d", false);
    ensure(&mut reg, "x", false);
    ensure(&mut reg, "ok", false);
    reg.settle(0, failed("soft"));
    reg.settle(1, failed("hard"));
    reg.settle(2, Some(Failure { message: "gone".into(), aborted: true }));
    reg.settle(3, None);
    assert_eq!(reg.tasks[0].state, State::SpecFailed("soft".into()));
    assert_eq!(reg.tasks[1].state, State::Failed("hard".into()));
    assert_eq!(reg.tasks[2].state, State::SpecFailed("gone".into()));
    assert_eq!(reg.tasks[3].state, State::Done);
    assert_eq!(reg.outcome(1), Some(Outcome::Failed("hard".into())));
    assert_eq!(reg.outcome(3), Some(Outcome::Done));
    // A demand claims a quarantined target anew, and leaves a settled one.
    assert_eq!(reg.reclaim("S"), (4, true));
    assert_eq!(reg.reclaim("s"), (4, false));
    assert_eq!(reg.reclaim("d"), (1, false));
    assert_eq!(reg.outcome(4), None);
}

#[test]
fn a_pool_grants_what_is_free() {
    for j in 1..4 {
        let mut js = Jobserver::init_local(j);
        for _ in 1..j {
            assert_eq!(js.try_acquire(), Take::Granted);
        }
        assert_eq!(js.try_acquire(), Take::Refused);
        // One that is returned can be taken once more, and no other.
        if j > 1 {
            assert!(!js.release());
            assert_eq!(js.try_acquire(), Take::Granted);
            assert_eq!(js.try_acquire(), Take::Refused);
        }
    }
}

#[test]
fn processes_share_what_is_free() {
    // Two processes with a token each, and a pool of one for both.
    let shared = || Jobserver { pool: Pool::Pipe { rfd: 3, wfd: 4 } };
    let mut free = 1;
    let mut run = |reg: &mut Registry, jobs: &mut Jobserver| match reg.acquire_token(jobs, None, None)
    {
        TokenStep::Own => Some(TokenSrc::Own),
        TokenStep::Ask if free > 0 => {
            free -= 1;
            Some(TokenSrc::Pool)
        }
        TokenStep::Ask => None,
        other => panic!("{other:?}"),
    };
    let (mut top, mut top_jobs) = (Registry::new(Vec::new()), shared());
    let (mut sub, mut sub_jobs) = (Registry::new(Vec::new()), shared());
    assert_eq!(run(&mut top, &mut top_jobs), Some(TokenSrc::Own));
    assert_eq!(run(&mut sub, &mut sub_jobs), Some(TokenSrc::Own));
    assert_eq!(run(&mut sub, &mut sub_jobs), Some(TokenSrc::Pool));
    assert_eq!(run(&mut top, &mut top_jobs), None);
    assert!(sub.release_token(&mut sub_jobs, TokenSrc::Pool), "the pool gets it back");
    assert!(!sub.release_token(&mut sub_jobs, TokenSrc::Own));
    assert_eq!(run(&mut sub, &mut sub_jobs), Some(TokenSrc::Own));
}

#[test]
fn a_group_reports_its_first_failure() {
    let mut reg = Registry::new(Vec::new());
    let (mut group, _) = ensure_all(&mut reg, &names(&["a", "b", "c"]), false);
    assert_eq!(group.waits_for(), Some(0));
    assert_eq!(group.observe(&mut reg, Outcome::Done, false), None);
    assert_eq!(group.observe(&mut reg, Outcome::Failed("one".into()), false), None);
    assert_eq!(group.waits_for(), Some(2));
    assert_eq!(group.observe(&mut reg, Outcome::Failed("two".into()), false), None);
    assert_eq!(group.waits_for(), None);
    assert_eq!(group.result(), Err("one".to_string()));
}

#[test]
fn a_demand_does_not_adopt_a_quarantined_failure() {
    let mut reg = Registry::new(Vec::new());
    let (mut group, _) = ensure(&mut reg, "a", false);
    let quarantined = || Outcome::SpecFailed("q".into());
    reg.settle(0, Some(Failure { message: "q".into(), aborted: true }));
    assert_eq!(group.observe(&mut reg, quarantined(), false), Some(1));
    assert_eq!(group.waits_for(), Some(1));
    reg.settle(1, Some(Failure { message: "q".into(), aborted: true }));
    assert_eq!(group.observe(&mut reg, quarantined(), false), Some(2));
    // After two reclaims the failure counts.
    assert_eq!(group.observe(&mut reg, quarantined(), false), None);
    assert_eq!(group.result(), Err("q".to_string()));
    // A process that is unwinding itself reclaims nothing.
    let mut reg = Registry::new(Vec::new());
    let (mut group, _): (Group, Vec<Claim>) = ensure(&mut reg, "a", false);
    assert_eq!(group.observe(&mut reg, quarantined(), true), None);
    assert_eq!(group.result(), Err("q".to_string()));
}

#[test]
fn draining_abandons_what_nobody_wants() {
    let mut reg = Registry::new(Vec::new());
    let mut g = WaitGraph::new();
    reg.activate_spec(&mut g, ME, "Ctx", &names(&["a", "b"]), &[]);
    ensure(&mut reg, "b", false);
    assert_eq!(try_demand(&mut g, ME, "ctx", "b"), DemandOutcome::Inserted);
    assert_eq!(reg.drain(&mut g, ME, "Ctx"), vec![0, 1]);
    assert!(reg.tasks[0].abandon);
    assert!(!reg.tasks[1].abandon);
    let edge = |dep: &str| EdgeRef { owner: ME.into(), waiter: "ctx".into(), dep: dep.into() };
    assert!(!edge_alive(&g, &edge("a")));
    assert!(edge_alive(&g, &edge("b")));
    reg.settle(0, Some(Failure { message: "stop".into(), aborted: true }));
    assert_eq!(reg.drain(&mut g, ME, "Ctx"), vec![1]);
    reg.settle(1, None);
    assert!(reg.drain(&mut g, ME, "Ctx").is_empty());
    assert!(g.edges().is_empty());
}

#[test]
fn waits_are_interruptible() {
    let mut reg = Registry::new(Vec::new());
    ensure(&mut reg, "a", false);
    assert!(reg.want(0));
    assert!(!reg.want(0));
    assert_eq!(reg.watched_step(0, true, false), WatchStep::Wait);
    assert_eq!(reg.watched_step(0, false, true), WatchStep::Evicted);
    assert_eq!(reg.watched_step(0, true, true), WatchStep::Abort);
    reg.settle(0, failed("m"));
    assert_eq!(reg.watched_step(0, false, true), WatchStep::SoftFailed("m".into()));
    ensure(&mut reg, "b", false);
    reg.settle(1, None);
    assert_eq!(reg.watched_step(1, false, false), WatchStep::Done);
}

#[test]
fn task_threads_inherit_the_process_watch() {
    let base = EdgeRef { owner: "p".into(), waiter: "w".into(), dep: "d".into() };
    let reg = Registry::new(vec![base.clone()]);
    let chain = names(&["x", "y"]);
    let c = reg.task_context(ME, "Ctx", "T", true, &chain);
    assert_eq!(c.watch, vec![base.clone()]);
    assert_eq!(c.chain, chain);
    let c = reg.task_context(ME, "Ctx", "T", false, &chain);
    assert_eq!(c.watch.len(), 2);
    assert_eq!(c.watch[1], EdgeRef { owner: ME.into(), waiter: "ctx".into(), dep: "t".into() });
    assert!(c.chain.is_empty());
    assert_eq!(creation_waiter(&Some("t".into()), ME), "t");
    assert_eq!(creation_waiter(&None, ME), "\u{1}top:1-aa");
}

#[test]
fn dead_speculation_is_noticed() {
    let mut g = WaitGraph::new();
    assert_eq!(try_soft(&mut g, ME, "a", "b", EdgeKind::Creation, &[]), SoftOutcome::Inserted);
    let watch = vec![EdgeRef { owner: ME.into(), waiter: "a".into(), dep: "b".into() }];
    assert!(!speculation_dead(None, &watch, &g));
    assert!(!speculation_dead(Some(false), &watch, &g));
    assert!(speculation_dead(Some(true), &[], &g));
    assert!(abort_check(None, &watch, &g).is_ok());
    assert!(speculation_dead(None, &watch, &WaitGraph::new()));
    let e: SpecAborted = abort_check(None, &watch, &WaitGraph::new()).unwrap_err();
    assert_eq!(
        e.text(),
        "speculation aborted: no longer needed here (it will be re-run when genuinely needed)"
    );
}

#[test]
fn a_lineage_is_aborted_from_below_unless_demanded() {
    let mut g = WaitGraph::new();
    let edge = |w: &str, d: &str| EdgeRef { owner: ME.into(), waiter: w.into(), dep: d.into() };
    assert_eq!(try_soft(&mut g, ME, "a", "b", EdgeKind::Creation, &[]), SoftOutcome::Inserted);
    assert_eq!(try_demand(&mut g, ME, "b", "c"), DemandOutcome::Inserted);
    let watch = vec![edge("a", "b"), edge("b", "c")];
    assert!(!abort_unless_lineage_demanded(&mut g, &[]));
    assert!(!abort_unless_lineage_demanded(&mut g, &watch[1..]));
    // The creation edge above makes the lineage speculative: it is aborted.
    assert!(abort_unless_lineage_demanded(&mut g, &watch));
    assert!(!edge_alive(&g, &watch[0]));
    // The waits of the instance that it created go with it.
    assert!(!edge_alive(&g, &watch[1]));
    assert!(g.edges().is_empty());
    // An orphan counts as aborted too.
    assert!(abort_unless_lineage_demanded(&mut g, &watch));
    // A demanded lineage goes on.
    assert_eq!(try_demand(&mut g, ME, "a", "b"), DemandOutcome::Inserted);
    assert!(!abort_unless_lineage_demanded(&mut g, &watch[..1]));
}

#[test]
fn only_the_nearest_undemanded_creation_is_aborted() {
    let mut g = WaitGraph::new();
    let edge = |w: &str, d: &str| EdgeRef { owner: ME.into(), waiter: w.into(), dep: d.into() };
    for (w, d) in [("a", "b"), ("b", "c"), ("x", "y")] {
        assert_eq!(try_soft(&mut g, ME, w, d, EdgeKind::Creation, &[]), SoftOutcome::Inserted);
    }
    let watch = vec![edge("a", "b"), edge("b", "c")];
    assert!(abort_unless_lineage_demanded(&mut g, &watch));
    assert!(!edge_alive(&g, &watch[1]));
    assert!(edge_alive(&g, &watch[0]) && edge_alive(&g, &edge("x", "y")));
}

#[test]
fn a_group_leaves_tokens_and_watch_alone() {
    let watch = vec![EdgeRef { owner: ME.into(), waiter: "a".into(), dep: "b".into() }];
    let mut reg = Registry::new(watch.clone());
    let mut jobs = Jobserver::init_local(1);
    assert_eq!(reg.acquire_token(&mut jobs, None, None), TokenStep::Own);
    let (mut group, _) = ensure_all(&mut reg, &names(&["t", "u"]), false);
    reg.settle(0, Some(Failure { message: "q".into(), aborted: true }));
    assert_eq!(group.observe(&mut reg, Outcome::SpecFailed("q".into()), false), Some(2));
    assert_eq!(group.observe(&mut reg, Outcome::Done, false), None);
    assert!(reg.own_busy);
    assert_eq!(reg.env_watch, watch);
}

#[test]
fn speculation_uses_surplus_tokens_only() {
    let mut reg = Registry::new(Vec::new());
    let mut jobs = Jobserver::init_local(2);
    // Speculative and unwanted: the pool, never the own token.
    let spec = |reg: &mut Registry, jobs: &mut Jobserver| {
        reg.acquire_token(jobs, Some(false), Some(false))
    };
    assert_eq!(spec(&mut reg, &mut jobs), TokenStep::Pool);
    assert_eq!(spec(&mut reg, &mut jobs), TokenStep::Wait);
    assert!(!reg.own_busy);
    // Wanted: the own token.
    assert_eq!(reg.acquire_token(&mut jobs, Some(false), Some(true)), TokenStep::Own);
    assert_eq!(reg.acquire_token(&mut jobs, None, None), TokenStep::Wait);
    assert!(!reg.release_token(&mut jobs, TokenSrc::Own));
    assert_eq!(reg.acquire_token(&mut jobs, None, None), TokenStep::Own);
    assert!(!reg.release_token(&mut jobs, TokenSrc::Pool));
    assert_eq!(reg.acquire_token(&mut jobs, Some(true), None), TokenStep::Pool);
    let mut pipe = Jobserver { pool: Pool::Pipe { rfd: 3, wfd: 4 } };
    assert_eq!(reg.acquire_token(&mut pipe, None, None), TokenStep::Ask);
    assert!(reg.release_token(&mut pipe, TokenSrc::Pool));
}

#[test]
fn pools_are_inherited() {
    let pipe = Jobserver { pool: Pool::Pipe { rfd: 3, wfd: 14 } };
    assert_eq!(pipe.env_spec(8), "3,14");
    assert_eq!(Jobserver::from_env(Some("3,14"), false), pipe);
    assert_eq!(pipe.describe(), "token pipe (fds 3,14), shared across the process tree");
    let local = Jobserver::init_local(4);
    assert_eq!(local.env_spec(4), "local:4");
    assert_eq!(Jobserver::from_env(Some("local:4"), false), local);
    assert_eq!(
        local.describe(),
        "in-process counter (3 extra tokens, NOT shared with child redo processes)"
    );
    let sem = Jobserver { pool: Pool::Sem { name: "n".into() } };
    assert_eq!(sem.env_spec(4), "winsem:n");
    assert_eq!(Jobserver::from_env(Some("winsem:n"), true), sem);
    assert_eq!(sem.describe(), "named semaphore, shared across the process tree");
    let serial = Jobserver { pool: Pool::Local { extra: 0 } };
    for s in [None, Some("nonsense"), Some("3,x"), Some("local:x"), Some("local:0")] {
        assert_eq!(Jobserver::from_env(s, false), serial);
    }
    assert_eq!(Jobserver::from_env(Some("3,14"), true), serial);
    assert_eq!(extra_tokens(0), 0);
    assert_eq!(extra_tokens(5), 4);
}

#[test]
fn tokens_are_conserved() {
    let mut js = Jobserver::init_local(3);
    assert_eq!(js.try_acquire(), Take::Granted);
    assert_eq!(js.try_acquire(), Take::Granted);
    assert_eq!(js.try_acquire(), Take::Refused);
    assert!(!js.release());
    assert_eq!(js.try_acquire(), Take::Granted);
    assert_eq!(pipe_read(1, false), PipeRead::Granted);
    assert_eq!(pipe_read(-1, true), PipeRead::Again);
    assert_eq!(pipe_read(-1, false), PipeRead::Refused);
    assert_eq!(pipe_read(0, true), PipeRead::Refused);
}

#[test]
fn settled_targets_are_skipped() {
    assert_eq!(task_start(false, Some(4), 4), TaskStart::Skip);
    assert_eq!(task_start(false, Some(3), 4), TaskStart::Check);
    assert_eq!(task_start(false, None, 4), TaskStart::Check);
    assert_eq!(task_start(true, Some(4), 4), TaskStart::Build);
}

fn dep(kind: DepKind, name: Option<&str>, csum: Option<&str>) -> DepRow {
    let stamp = csum.map(|c| Stamp { mtime: 0, size: 0, csum: c.into() });
    DepRow::new("t", kind, name.map(|s| s.to_string()), &stamp)
}

fn csum(c: &str) -> Answer {
    Answer::Csum(Some(c.into()))
}

#[test]
fn checks_come_in_order() {
    let deps = [
        dep(DepKind::IfChange, Some("b"), Some("cb")),
        dep(DepKind::DoFile, Some("t.do"), Some("cd")),
        dep(DepKind::IfChange, Some("s"), Some("cs")),
        dep(DepKind::IfCreate, Some("n"), None),
    ];
    let row = Some(Some("ct".to_string()));
    let plan = check_plan(&row, true, &deps, &[true, false, false, false]);
    let b = || "b".to_string();
    assert_eq!(
        plan,
        vec![
            Item::Activate { deps: vec![b()], must: false },
            Item::DoFile { dep: "t.do".into(), csum: Some("cd".into()) },
            Item::IfCreate { dep: "n".into() },
            Item::Source { dep: "s".into(), csum: Some("cs".into()) },
            Item::Edges { deps: vec![b()] },
            Item::Wait { dep: b() },
            Item::Dep { dep: b(), csum: Some("cb".into()) },
            Item::Guard { dep: b() },
        ]
    );
    let good = vec![
        Answer::Activated(vec![true]),
        csum("cd"),
        Answer::Exists(false),
        csum("cs"),
        Answer::Edges(vec![SoftOutcome::Inserted]),
        Answer::Waited(Waited::Done),
        csum("cb"),
        Answer::Alive(true),
    ];
    for n in 0..good.len() {
        assert_eq!(check_recorded(&plan, &good[..n]), Verdict::Ask(n));
    }
    assert_eq!(check_recorded(&plan, &good), Verdict::UpToDate);
    assert!(edges_inserted(&good));
    assert!(!edges_inserted(&good[..4]));
    let bad = vec![
        Answer::Activated(vec![false]),
        csum("xx"),
        Answer::Exists(true),
        Answer::Csum(None),
        Answer::Edges(vec![SoftOutcome::Cycle]),
        Answer::Waited(Waited::Evicted),
        csum("yy"),
        Answer::Alive(false),
    ];
    for n in 0..good.len() {
        let mut a = good[..n].to_vec();
        a.push(bad[n].clone());
        assert_eq!(check_recorded(&plan, &a), Verdict::Rebuild, "{n}");
    }
    let mut a = good[..5].to_vec();
    a.push(Answer::Waited(Waited::SoftFailed("m".into())));
    assert_eq!(check_recorded(&plan, &a), Verdict::Rebuild);
}

#[test]
fn some_targets_must_be_rebuilt_anyway() {
    let must = |plan: Vec<Item>| matches!(plan[0], Item::Activate { must: true, .. });
    let built = Some(Some("c".to_string()));
    assert!(must(check_plan(&None, true, &[], &[])));
    assert!(must(check_plan(&built, false, &[], &[])));
    assert!(!must(check_plan(&Some(None), false, &[], &[])), "phony");
    assert!(!must(check_plan(&built, true, &[], &[])));
    assert!(must(check_plan(&built, true, &[dep(DepKind::Always, None, None)], &[false])));
    assert!(must(check_plan(&built, true, &[dep(DepKind::Uncommitted, None, None)], &[false])));
    // Dependencies are activated all the same.
    let plan = check_plan(&None, true, &[dep(DepKind::IfChange, Some("b"), None)], &[true]);
    assert_eq!(plan[0], Item::Activate { deps: vec!["b".into()], must: true });
    assert_eq!(
        check_recorded(&plan, &[Answer::Activated(vec![true])]),
        Verdict::Rebuild
    );
}

#[test]
fn a_real_cycle_is_trusted_late() {
    let mut d = Demand::new();
    assert_eq!(d.observe(DemandOutcome::RealCycle), DemandStep::Collect);
    assert_eq!(d.observe(DemandOutcome::RealCycle), DemandStep::Cycle);
    let mut d = Demand::new();
    assert_eq!(
        d.observe(DemandOutcome::Evicted { aborted_lineage: false }),
        DemandStep::Retry
    );
    assert_eq!(d.observe(DemandOutcome::Evicted { aborted_lineage: true }), DemandStep::Retry);
    assert_eq!(d.observe(DemandOutcome::RealCycle), DemandStep::Collect);
    for _ in 0..400 {
        assert_eq!(d.observe(DemandOutcome::RealCycle), DemandStep::Pause);
    }
    assert_eq!(d.observe(DemandOutcome::RealCycle), DemandStep::Cycle);
    assert_eq!(Demand::new().observe(DemandOutcome::Inserted), DemandStep::Done);
}

#[test]
fn held_and_free_tokens_add_up() {
    let mut reg = Registry::new(Vec::new());
    let mut jobs = Jobserver::init_local(3);
    // Speculation that nobody waits for leaves the own token alone.
    assert_eq!(reg.acquire_token(&mut jobs, Some(false), Some(false)), TokenStep::Pool);
    assert_eq!(reg.acquire_token(&mut jobs, None, None), TokenStep::Own);
    assert_eq!(reg.acquire_token(&mut jobs, Some(true), None), TokenStep::Pool);
    // All three are held.
    assert_eq!(reg.acquire_token(&mut jobs, None, None), TokenStep::Wait);
    assert!(!reg.release_token(&mut jobs, TokenSrc::Own));
    assert_eq!(reg.acquire_token(&mut jobs, Some(false), Some(true)), TokenStep::Own);
    assert!(!reg.release_token(&mut jobs, TokenSrc::Pool));
    assert_eq!(reg.acquire_token(&mut jobs, None, None), TokenStep::Pool);
    assert_eq!(reg.acquire_token(&mut jobs, None, None), TokenStep::Wait);
}
