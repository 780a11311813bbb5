//! The waits-for graph.

use redo_msh::lock::Probe;
use redo_msh::waits::{
    abort_creation, clear_waiter, drop_creation, edge_alive, edge_demanded, gc_dead_edges,
    live_lock_name, owner_alive, sweep_candidate, try_demand, try_demand_batch, try_soft,
    try_soft_batch, watch_dead, watch_from_env, watch_to_env, DemandOutcome, Edge, EdgeKind,
    EdgeRef, SoftOutcome, WaitGraph,
};

const ME: &str = "1-aa";

fn soft(g: &mut WaitGraph, w: &str, d: &str, kind: EdgeKind) -> SoftOutcome {
    try_soft(g, ME, w, d, kind, &[])
}

fn edge(owner: &str, waiter: &str, dep: &str) -> EdgeRef {
    EdgeRef { owner: owner.into(), waiter: waiter.into(), dep: dep.into() }
}

#[test]
fn soft_cycle_is_refused_and_edge_not_inserted() {
    let mut g = WaitGraph::new();
    assert_eq!(soft(&mut g, "a", "b", EdgeKind::Checker), SoftOutcome::Inserted);
    // b -> a closes the cycle: refused, atomically.
    assert_eq!(soft(&mut g, "b", "a", EdgeKind::Checker), SoftOutcome::Cycle);
    // Case-insensitive identity: A/B are the same nodes.
    assert_eq!(soft(&mut g, "B", "A", EdgeKind::Creation), SoftOutcome::Cycle);
    // Self-wait is a cycle.
    assert_eq!(soft(&mut g, "c", "c", EdgeKind::Creation), SoftOutcome::Cycle);

    // Transitive: a -> b, b -> c, then c -> a is refused.
    assert_eq!(soft(&mut g, "b", "c", EdgeKind::Checker), SoftOutcome::Inserted);
    assert_eq!(soft(&mut g, "c", "a", EdgeKind::Checker), SoftOutcome::Cycle);

    // Settling b unblocks: after b's edges leave, c -> a inserts.
    clear_waiter(&mut g, ME, "b");
    assert_eq!(soft(&mut g, "c", "a", EdgeKind::Checker), SoftOutcome::Inserted);
}

#[test]
fn all_hard_cycle_is_a_real_error() {
    let mut g = WaitGraph::new();
    assert_eq!(try_demand(&mut g, ME, "a", "b"), DemandOutcome::Inserted);
    assert_eq!(try_demand(&mut g, ME, "b", "a"), DemandOutcome::RealCycle);
}

#[test]
fn demand_evicts_checker_edge_and_then_inserts() {
    let mut g = WaitGraph::new();
    // A speculative checker wait a -> b...
    assert_eq!(soft(&mut g, "a", "b", EdgeKind::Checker), SoftOutcome::Inserted);
    // ...must yield to the real demand b -> a: the checker edge is evicted (not
    // a real cycle), and the retry inserts.
    assert_eq!(
        try_demand(&mut g, ME, "b", "a"),
        DemandOutcome::Evicted { aborted_lineage: false }
    );
    assert!(!edge_alive(&g, &edge(ME, "a", "b")), "checker edge must be evicted");
    assert_eq!(try_demand(&mut g, ME, "b", "a"), DemandOutcome::Inserted);
}

#[test]
fn demand_evicts_creation_edge_and_cuts_the_instance_loose() {
    let mut g = WaitGraph::new();
    // ctx speculatively spawned s; s's own build then hard-demanded x.
    assert_eq!(soft(&mut g, "ctx", "s", EdgeKind::Creation), SoftOutcome::Inserted);
    assert_eq!(try_demand(&mut g, ME, "s", "x"), DemandOutcome::Inserted);
    // A real demand x -> ctx cycles through ctx -> s -> x; the only soft edge on
    // the path is the creation edge, so the speculative instance s is aborted
    // and its own outgoing edges cut with it.
    assert_eq!(
        try_demand(&mut g, ME, "x", "ctx"),
        DemandOutcome::Evicted { aborted_lineage: true }
    );
    assert!(
        !edge_alive(&g, &edge(ME, "s", "x")),
        "the aborted instance's outgoing edges must be cut"
    );
    assert_eq!(try_demand(&mut g, ME, "x", "ctx"), DemandOutcome::Inserted);
}

#[test]
fn demand_upgrade_supersedes_creation_edge_and_stays_alive() {
    let mut g = WaitGraph::new();
    assert_eq!(soft(&mut g, "ctx", "d", EdgeKind::Creation), SoftOutcome::Inserted);
    // The same process later demands d from the same waiter name: the creation
    // edge is superseded in place; the watch (any-kind presence) stays alive.
    assert_eq!(try_demand(&mut g, ME, "ctx", "d"), DemandOutcome::Inserted);
    let e = edge(ME, "ctx", "d");
    assert!(edge_alive(&g, &e), "upgraded edge must stay alive");
    let rows = g.edges();
    assert_eq!(rows.len(), 1);
    assert_eq!(rows[0].kind, EdgeKind::Demand);
    // It can no longer be aborted.
    assert!(!abort_creation(&mut g, &e));
    drop_creation(&mut g, &e);
    assert!(edge_demanded(&g, &e));
}

#[test]
fn dead_owner_edges_are_not_cycles() {
    // Plant an edge from a fabricated dead owner.
    let mut g = WaitGraph::from_rows(&[Edge {
        owner: "dead-1".into(),
        waiter: "a".into(),
        dep: "b".into(),
        kind: EdgeKind::Checker,
    }]);
    // b -> a would close a cycle over the dead edge; the retry must clear it and
    // let the wait proceed.
    let dead = vec!["dead-1".to_string()];
    assert_eq!(
        try_soft(&mut g, ME, "b", "a", EdgeKind::Checker, &dead),
        SoftOutcome::Inserted
    );
    let left = g.edges().iter().filter(|e| e.owner == "dead-1").count();
    assert_eq!(left, 0, "dead owner's edges must be GC'd");
}

#[test]
fn watch_env_roundtrip() {
    let watch = vec![
        EdgeRef { owner: "123-abc".into(), waiter: "x".into(), dep: "s".into() },
        EdgeRef { owner: "9-f".into(), waiter: "y".into(), dep: "t".into() },
    ];
    assert_eq!(watch_from_env(&watch_to_env(&watch)), watch);
    assert!(watch_from_env("").is_empty());
}

#[test]
fn malformed_watch_records_are_skipped() {
    assert_eq!(
        watch_from_env("a\u{1f}b\u{1e}\u{1e}o\u{1f}w\u{1f}d\u{1f}more"),
        vec![edge("o", "w", "d")]
    );
}

#[test]
fn one_row_per_key() {
    let row = |kind| Edge { owner: "o".into(), waiter: "a".into(), dep: "b".into(), kind };
    let g = WaitGraph::from_rows(&[row(EdgeKind::Checker), row(EdgeKind::Demand)]);
    assert_eq!(g.edges(), vec![row(EdgeKind::Checker)]);
}

#[test]
fn a_checker_edge_is_evicted_before_a_creation_edge() {
    let mut g = WaitGraph::new();
    assert_eq!(soft(&mut g, "a", "b", EdgeKind::Creation), SoftOutcome::Inserted);
    assert_eq!(soft(&mut g, "b", "c", EdgeKind::Checker), SoftOutcome::Inserted);
    assert_eq!(
        try_demand(&mut g, ME, "c", "a"),
        DemandOutcome::Evicted { aborted_lineage: false }
    );
    assert!(edge_alive(&g, &edge(ME, "a", "b")));
    assert!(!edge_alive(&g, &edge(ME, "b", "c")));
}

#[test]
fn batches_see_their_own_inserts() {
    let mut g = WaitGraph::new();
    assert_eq!(soft(&mut g, "c", "w", EdgeKind::Checker), SoftOutcome::Inserted);
    let deps = vec!["a".to_string(), "c".to_string(), "W".to_string()];
    let out = try_soft_batch(&mut g, ME, "w", &deps, EdgeKind::Checker, &[]);
    assert_eq!(out, vec![SoftOutcome::Inserted, SoftOutcome::Cycle, SoftOutcome::Cycle]);
    assert!(edge_alive(&g, &edge(ME, "w", "a")));
    assert!(!edge_alive(&g, &edge(ME, "w", "c")));
    assert!(try_soft_batch(&mut g, ME, "w", &[], EdgeKind::Checker, &[]).is_empty());
}

#[test]
fn a_sentinel_is_never_refused() {
    let mut g = WaitGraph::new();
    let deps = vec!["a".to_string(), "b".to_string()];
    let out = try_soft_batch(&mut g, ME, "\u{1}top:x", &deps, EdgeKind::Creation, &[]);
    assert_eq!(out, vec![SoftOutcome::Inserted, SoftOutcome::Inserted]);
}

#[test]
fn a_refused_batch_is_tried_again_without_the_dead() {
    let mut g = WaitGraph::from_rows(&[Edge {
        owner: "dead".into(),
        waiter: "b".into(),
        dep: "w".into(),
        kind: EdgeKind::Demand,
    }]);
    let deps = vec!["a".to_string(), "b".to_string()];
    let dead = vec!["dead".to_string(), ME.to_string()];
    let out = try_soft_batch(&mut g, ME, "w", &deps, EdgeKind::Checker, &dead);
    assert_eq!(out, vec![SoftOutcome::Inserted, SoftOutcome::Inserted]);
    assert_eq!(g.edges().len(), 2);
}

#[test]
fn a_batch_is_its_members_in_turn() {
    let rows = [
        Edge { owner: "dead".into(), waiter: "b".into(), dep: "w".into(), kind: EdgeKind::Demand },
        Edge { owner: "2-bb".into(), waiter: "c".into(), dep: "w".into(), kind: EdgeKind::Checker },
    ];
    let deps: Vec<String> = ["a", "b", "c", "a", "W"].iter().map(|d| d.to_string()).collect();
    let dead = vec!["dead".to_string()];
    for waiter in ["w", "\u{1}top:x"] {
        for kind in [EdgeKind::Checker, EdgeKind::Creation] {
            let mut batch = WaitGraph::from_rows(&rows);
            let mut singles = WaitGraph::from_rows(&rows);
            let at_once = try_soft_batch(&mut batch, ME, waiter, &deps, kind, &dead);
            let in_turn: Vec<SoftOutcome> = deps
                .iter()
                .map(|d| try_soft(&mut singles, ME, waiter, d, kind, &dead))
                .collect();
            assert_eq!(at_once, in_turn);
            assert_eq!(batch.edges(), singles.edges());
        }
    }
}

#[test]
fn demand_batches_report_cycles() {
    let mut g = WaitGraph::new();
    assert_eq!(try_demand(&mut g, ME, "b", "w"), DemandOutcome::Inserted);
    let deps = vec!["a".to_string(), "b".to_string()];
    assert_eq!(try_demand_batch(&mut g, ME, "w", &deps), vec![true, false]);
    assert!(edge_demanded(&g, &edge(ME, "w", "a")));
}

#[test]
fn aborting_a_creation_edge_cuts_its_instance() {
    let mut g = WaitGraph::new();
    assert_eq!(soft(&mut g, "ctx", "s", EdgeKind::Creation), SoftOutcome::Inserted);
    assert_eq!(try_demand(&mut g, ME, "s", "x"), DemandOutcome::Inserted);
    assert!(abort_creation(&mut g, &edge(ME, "ctx", "s")));
    assert!(g.edges().is_empty());
    assert!(!abort_creation(&mut g, &edge(ME, "ctx", "s")));
}

#[test]
fn a_watch_is_dead_once_an_edge_is_gone() {
    let mut g = WaitGraph::new();
    assert_eq!(soft(&mut g, "a", "b", EdgeKind::Creation), SoftOutcome::Inserted);
    let watch = vec![edge(ME, "a", "b")];
    assert!(!watch_dead(&g, &watch));
    assert!(!watch_dead(&g, &[]));
    clear_waiter(&mut g, ME, "A");
    assert!(watch_dead(&g, &watch));
}

#[test]
fn only_the_dead_are_collected() {
    let row = |owner: &str| Edge {
        owner: owner.into(),
        waiter: "a".into(),
        dep: "b".into(),
        kind: EdgeKind::Demand,
    };
    let mut g = WaitGraph::from_rows(&[row("x"), row("y"), row(ME)]);
    assert_eq!(g.owners(), vec!["x", "y", ME]);
    gc_dead_edges(&mut g, ME, &["x".to_string(), ME.to_string()]);
    assert_eq!(g.owners(), vec!["y", ME]);
    assert!(g.reachable("a", "b", true));
    assert!(g.reachable("z", "z", true));
    assert!(!g.reachable("b", "a", false));
}

#[test]
fn liveness_locks_name_their_owner() {
    assert_eq!(live_lock_name("7-ab"), "w.7-ab.lock");
    assert_eq!(sweep_candidate("w.7-ab.lock", ME).as_deref(), Some("7-ab"));
    assert_eq!(sweep_candidate(&live_lock_name(ME), ME), None);
    assert_eq!(sweep_candidate("w.lock", ME), None);
    assert_eq!(sweep_candidate("abc.lock", ME), None);
    assert!(owner_alive(Probe::Held));
    assert!(owner_alive(Probe::Unreadable));
    assert!(!owner_alive(Probe::Free));
    assert!(!owner_alive(Probe::Missing));
}
