//! Requests for dependencies, step by step.

use redo_msh::asking::{Answer, Asking, Step};
use redo_msh::building::BuildError;
use redo_msh::db::{DepKind, Store};
use redo_msh::requests::Wanted;
use redo_msh::stamp::Stamp;

const SESSION: i64 = 7;

fn want(dep: &str, buildable: bool, exists: bool) -> Wanted {
    Wanted { dep: dep.to_string(), buildable, exists }
}

fn names(v: &[&str]) -> Vec<String> {
    v.iter().map(|s| s.to_string()).collect()
}

fn stamp(csum: &str) -> Option<Stamp> {
    Some(Stamp { mtime: 1_000_000_001, size: 3, csum: csum.to_string() })
}

fn begin(parent: Option<&str>, items: &[Wanted]) -> (Asking, Step) {
    Asking::begin(parent.map(|p| p.to_string()), SESSION, items).unwrap()
}

fn applied(s: Step, store: &mut Store) {
    match s {
        Step::Apply(ops) => store.apply_all(&ops),
        other => panic!("{other:?}"),
    }
}

#[test]
fn a_request_takes_its_steps_in_order() {
    let mut store = Store::new();
    let items = [want("src", false, true), want("a", true, false), want("b", true, true)];
    let (mut k, s) = begin(Some("t"), &items);
    assert_eq!(s, Step::Stamp(names(&["src"])));
    applied(k.next(Answer::Stamps(vec![stamp("s")])), &mut store);
    assert_eq!(store.file_runid("src"), Some(SESSION));
    assert_eq!(k.next(Answer::Done), Step::DemandAll(names(&["a", "b"])));
    assert_eq!(k.next(Answer::Inserted(vec![true, false])), Step::Demand("b".to_string()));
    assert_eq!(k.next(Answer::Done), Step::Ensure(names(&["a", "b"])));
    assert_eq!(k.next(Answer::Done), Step::Drain);
    assert_eq!(k.next(Answer::Done), Step::ClearEdges);
    assert_eq!(k.next(Answer::Done), Step::Stamp(names(&["src", "a", "b"])));
    applied(k.next(Answer::Stamps(vec![stamp("s"), stamp("a"), None])), &mut store);
    let deps: Vec<(DepKind, Option<String>, Option<String>)> =
        store.read_deps("t").into_iter().map(|d| (d.kind, d.dep, d.csum)).collect();
    let edge = |d: &str, c: Option<&str>| {
        (DepKind::IfChange, Some(d.to_string()), c.map(|c| c.to_string()))
    };
    assert_eq!(deps, vec![edge("src", Some("s")), edge("a", Some("a")), edge("b", None)]);
    assert_eq!(k.next(Answer::Done), Step::End(true));
    assert_eq!(k.next(Answer::Done), Step::End(false));
}

#[test]
fn demands_leave_the_graph_when_one_fails() {
    let items = [want("a", true, false), want("b", true, false)];
    let until_demand = || {
        let (mut k, _) = begin(Some("t"), &items);
        assert!(matches!(k.next(Answer::Stamps(vec![])), Step::Apply(_)));
        assert_eq!(k.next(Answer::Done), Step::DemandAll(names(&["a", "b"])));
        k
    };
    // An edge that closes a cycle.
    let mut k = until_demand();
    assert_eq!(k.next(Answer::Inserted(vec![true, false])), Step::Demand("b".to_string()));
    assert_eq!(k.next(Answer::Failed), Step::ClearEdges);
    assert_eq!(k.next(Answer::Done), Step::End(false));
    // A batch that could not be written.
    let mut k = until_demand();
    assert_eq!(k.next(Answer::Failed), Step::ClearEdges);
    assert_eq!(k.next(Answer::Failed), Step::End(false));
}

#[test]
fn every_edge_is_insisted_on() {
    let items = [want("a", true, false), want("b", true, false), want("c", true, false)];
    let (mut k, _) = begin(Some("t"), &items);
    k.next(Answer::Stamps(Vec::new()));
    k.next(Answer::Done);
    assert_eq!(k.next(Answer::Inserted(vec![false, true, false])), Step::Demand("a".to_string()));
    assert_eq!(k.next(Answer::Done), Step::Demand("c".to_string()));
    // A real cycle ends the request, once the demands have left the graph.
    assert_eq!(k.next(Answer::Failed), Step::ClearEdges);
    assert_eq!(k.next(Answer::Done), Step::End(false));
}

#[test]
fn a_failed_target_records_no_edge() {
    let (mut k, _) = begin(Some("t"), &[want("a", true, false)]);
    k.next(Answer::Stamps(Vec::new()));
    k.next(Answer::Done);
    assert_eq!(k.next(Answer::Inserted(vec![true])), Step::Ensure(names(&["a"])));
    assert_eq!(k.next(Answer::Failed), Step::Drain);
    assert_eq!(k.next(Answer::Done), Step::ClearEdges);
    assert_eq!(k.next(Answer::Done), Step::End(false));
}

#[test]
fn outside_a_do_file_nothing_is_recorded() {
    let (mut k, _) = begin(None, &[want("a", true, false)]);
    k.next(Answer::Stamps(Vec::new()));
    assert_eq!(k.next(Answer::Done), Step::Ensure(names(&["a"])));
    assert_eq!(k.next(Answer::Done), Step::Drain);
    assert_eq!(k.next(Answer::Done), Step::End(true));
    let (mut k, _) = begin(None, &[want("src", false, true)]);
    k.next(Answer::Stamps(vec![stamp("s")]));
    assert_eq!(k.next(Answer::Done), Step::End(true));
}

#[test]
fn sources_alone_need_no_demand() {
    let (mut k, _) = begin(Some("t"), &[want("src", false, true)]);
    k.next(Answer::Stamps(vec![stamp("s")]));
    assert_eq!(k.next(Answer::Done), Step::Stamp(names(&["src"])));
}

#[test]
fn answers_that_do_not_fit_end_a_request() {
    let (mut k, _) = begin(Some("t"), &[want("src", false, true)]);
    assert_eq!(k.next(Answer::Stamps(Vec::new())), Step::End(false));
    let (mut k, _) = begin(Some("t"), &[want("a", true, true)]);
    k.next(Answer::Stamps(Vec::new()));
    k.next(Answer::Done);
    assert_eq!(k.next(Answer::Inserted(Vec::new())), Step::ClearEdges);
    assert_eq!(k.next(Answer::Inserted(Vec::new())), Step::End(false));
    let (mut k, _) = begin(Some("t"), &[want("src", false, true)]);
    assert_eq!(k.next(Answer::Failed), Step::End(false));
}

#[test]
fn nothing_behind_a_dependency_is_an_error() {
    let items = [want("a", true, false), want("x", false, false), want("y", false, false)];
    match Asking::begin(Some("t".to_string()), SESSION, &items) {
        Err(e) => assert_eq!(e, BuildError::NoSource { dep: "x".to_string() }),
        Ok(_) => panic!("nothing stands behind x"),
    }
}
