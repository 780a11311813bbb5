//! Paths and cycles in a waits-for graph.
//!
//! A graph is a set of typed edges between target names. This module holds
//! what the graph operations rest on: reachability as the existence of a
//! path, and how inserting or removing edges changes it.

use vstd::prelude::*;

verus! {

/// Edge types: a demand edge is hard, the other two are soft.
#[derive(Debug, Clone, Copy, PartialEq, Eq, Structural)]
pub enum EdgeKind {
    /// A running do-file's wait: hard, ground truth.
    Demand,
    /// A checking-phase wait on a recorded dependency: soft.
    Checker,
    /// A speculative task spawned on behalf of the process's context target:
    /// soft; it makes the eventual drain wait visible.
    Creation,
}

/// One edge of the graph, as a mathematical value.
#[verifier::ext_equal]
pub struct EdgeView {
    pub owner: Seq<char>,
    pub waiter: Seq<char>,
    pub dep: Seq<char>,
    pub kind: EdgeKind,
}

/// Whether the graph holds an edge from `a` to `b`; with `hard`, a demand
/// edge.
pub open spec fn joined(g: Set<EdgeView>, hard: bool, a: Seq<char>, b: Seq<char>) -> bool {
    exists|e: EdgeView|
        #[trigger] g.contains(e) && e.waiter == a && e.dep == b && (hard ==> e.kind is Demand)
}

/// Whether the `i`-th step of `p` follows an edge.
pub open spec fn step(g: Set<EdgeView>, hard: bool, p: Seq<Seq<char>>, i: int) -> bool {
    joined(g, hard, p[i], p[i + 1])
}

/// Whether `p` is a path: every step follows an edge. One node alone is a
/// path.
pub open spec fn is_path(g: Set<EdgeView>, hard: bool, p: Seq<Seq<char>>) -> bool {
    &&& p.len() >= 1
    &&& forall|i: int| 0 <= i < p.len() - 1 ==> #[trigger] step(g, hard, p, i)
}

/// Whether a path leads from `a` to `b`; every node reaches itself.
pub open spec fn reach(g: Set<EdgeView>, hard: bool, a: Seq<char>, b: Seq<char>) -> bool {
    exists|p: Seq<Seq<char>>| #[trigger] is_path(g, hard, p) && p[0] == a && p.last() == b
}

/// Whether no path of at least one step leads from a node back to itself.
pub open spec fn acyclic(g: Set<EdgeView>) -> bool {
    forall|p: Seq<Seq<char>>| #[trigger]
        is_path(g, false, p) && p.len() >= 2 ==> p[0] != p.last()
}

/// Every node reaches itself.
pub proof fn lemma_reach_self(g: Set<EdgeView>, hard: bool, a: Seq<char>)
    ensures
        reach(g, hard, a, a),
{
    assert(is_path(g, hard, seq![a]));
}

/// A path may be extended by an edge at its end.
pub proof fn lemma_reach_push(
    g: Set<EdgeView>,
    hard: bool,
    a: Seq<char>,
    b: Seq<char>,
    c: Seq<char>,
)
    requires
        reach(g, hard, a, b),
        joined(g, hard, b, c),
    ensures
        reach(g, hard, a, c),
{
    let p = choose|p: Seq<Seq<char>>| #[trigger]
        is_path(g, hard, p) && p[0] == a && p.last() == b;
    let q = p.push(c);
    assert forall|i: int| 0 <= i < q.len() - 1 implies #[trigger] step(g, hard, q, i) by {
        if i < p.len() - 1 {
            assert(step(g, hard, p, i));
        }
    }
    assert(is_path(g, hard, q) && q[0] == a && q.last() == c);
}

/// Two paths that meet make one path.
pub proof fn lemma_path_join(
    g: Set<EdgeView>,
    hard: bool,
    p: Seq<Seq<char>>,
    q: Seq<Seq<char>>,
)
    requires
        is_path(g, hard, p),
        is_path(g, hard, q),
        p.last() == q[0],
    ensures
        is_path(g, hard, p + q.skip(1)),
        (p + q.skip(1))[0] == p[0],
        (p + q.skip(1)).last() == q.last(),
        (p + q.skip(1)).len() == p.len() + q.len() - 1,
{
    let r = p + q.skip(1);
    assert forall|i: int| 0 <= i < r.len() - 1 implies #[trigger] step(g, hard, r, i) by {
        if i < p.len() - 1 {
            assert(step(g, hard, p, i));
        } else {
            let k = i - (p.len() - 1);
            assert(step(g, hard, q, k));
            assert(r[i] == q[k]);
            assert(r[i + 1] == q[k + 1]);
        }
    }
    assert(r.last() == q.last());
}

/// Reachability is transitive.
pub proof fn lemma_reach_trans(
    g: Set<EdgeView>,
    hard: bool,
    a: Seq<char>,
    b: Seq<char>,
    c: Seq<char>,
)
    requires
        reach(g, hard, a, b),
        reach(g, hard, b, c),
    ensures
        reach(g, hard, a, c),
{
    let p = choose|p: Seq<Seq<char>>| #[trigger]
        is_path(g, hard, p) && p[0] == a && p.last() == b;
    let q = choose|q: Seq<Seq<char>>| #[trigger]
        is_path(g, hard, q) && q[0] == b && q.last() == c;
    lemma_path_join(g, hard, p, q);
}

/// A piece of a path is a path.
pub proof fn lemma_path_piece(
    g: Set<EdgeView>,
    hard: bool,
    p: Seq<Seq<char>>,
    from: int,
    to: int,
)
    requires
        is_path(g, hard, p),
        0 <= from < to <= p.len(),
    ensures
        is_path(g, hard, p.subrange(from, to)),
{
    let q = p.subrange(from, to);
    assert forall|i: int| 0 <= i < q.len() - 1 implies #[trigger] step(g, hard, q, i) by {
        assert(step(g, hard, p, from + i));
        assert(q[i] == p[from + i]);
        assert(q[i + 1] == p[from + i + 1]);
    }
}

/// A set of names that holds `a` and is closed under edges holds every name
/// that `a` reaches.
pub proof fn lemma_reach_closed(
    g: Set<EdgeView>,
    hard: bool,
    names: Set<Seq<char>>,
    p: Seq<Seq<char>>,
)
    requires
        is_path(g, hard, p),
        names.contains(p[0]),
        forall|x: Seq<char>, y: Seq<char>| #[trigger]
            joined(g, hard, x, y) && names.contains(x) ==> names.contains(y),
    ensures
        names.contains(p.last()),
    decreases p.len(),
{
    if p.len() > 1 {
        let q = p.drop_last();
        lemma_path_piece(g, hard, p, 0, p.len() - 1);
        assert(q =~= p.subrange(0, p.len() - 1));
        lemma_reach_closed(g, hard, names, q);
        assert(step(g, hard, p, p.len() - 2));
        assert(joined(g, hard, q.last(), p.last()));
    }
}

/// A path in a graph is a path in every larger graph.
pub proof fn lemma_path_grows(
    g: Set<EdgeView>,
    h: Set<EdgeView>,
    hard: bool,
    p: Seq<Seq<char>>,
)
    requires
        g.subset_of(h),
        is_path(g, hard, p),
    ensures
        is_path(h, hard, p),
{
    assert forall|i: int| 0 <= i < p.len() - 1 implies #[trigger] step(h, hard, p, i) by {
        assert(step(g, hard, p, i));
        let e = choose|e: EdgeView| #[trigger]
            g.contains(e) && e.waiter == p[i] && e.dep == p[i + 1] && (hard ==> e.kind is Demand);
        assert(h.contains(e));
    }
}

/// Removing edges cannot close a cycle.
pub proof fn lemma_acyclic_shrinks(g: Set<EdgeView>, h: Set<EdgeView>)
    requires
        acyclic(h),
        g.subset_of(h),
    ensures
        acyclic(g),
{
    assert forall|p: Seq<Seq<char>>| #[trigger]
        is_path(g, false, p) && p.len() >= 2 implies p[0] != p.last() by {
        lemma_path_grows(g, h, false, p);
    }
}

/// A path into the tail of a fresh edge can do without that edge: the edge
/// leaves the node that the path was to arrive at.
proof fn lemma_path_without(g: Set<EdgeView>, e: EdgeView, p: Seq<Seq<char>>)
    requires
        is_path(g.insert(e), false, p),
        p.last() == e.waiter,
    ensures
        reach(g, false, p[0], e.waiter),
    decreases p.len(),
{
    let h = g.insert(e);
    if p[0] == e.waiter {
        lemma_reach_self(g, false, e.waiter);
    } else {
        assert(p.len() >= 2);
        let q = p.subrange(1, p.len() as int);
        lemma_path_piece(h, false, p, 1, p.len() as int);
        assert(q.last() == p.last());
        lemma_path_without(g, e, q);
        assert(step(h, false, p, 0));
        let f = choose|f: EdgeView| #[trigger]
            h.contains(f) && f.waiter == p[0] && f.dep == p[1] && (false ==> f.kind is Demand);
        assert(g.contains(f));
        assert(joined(g, false, p[0], p[1]));
        lemma_reach_self(g, false, p[0]);
        lemma_reach_push(g, false, p[0], p[0], p[1]);
        lemma_reach_trans(g, false, p[0], p[1], e.waiter);
    }
}

/// Inserting an edge whose head does not reach its tail keeps the graph
/// acyclic.
pub proof fn lemma_acyclic_insert(g: Set<EdgeView>, e: EdgeView)
    requires
        acyclic(g),
        !reach(g, false, e.dep, e.waiter),
    ensures
        acyclic(g.insert(e)),
{
    let h = g.insert(e);
    assert forall|p: Seq<Seq<char>>| #[trigger]
        is_path(h, false, p) && p.len() >= 2 implies p[0] != p.last() by {
        if p[0] == p.last() {
            if exists|i: int| 0 <= i < p.len() - 1 && #[trigger] p[i] == e.waiter && p[i + 1]
                == e.dep {
                let i = choose|i: int|
                    0 <= i < p.len() - 1 && #[trigger] p[i] == e.waiter && p[i + 1] == e.dep;
                let tail = p.subrange(i + 1, p.len() as int);
                let head = p.subrange(0, i + 1);
                lemma_path_piece(h, false, p, i + 1, p.len() as int);
                lemma_path_piece(h, false, p, 0, i + 1);
                assert(tail.last() == p.last());
                lemma_path_join(h, false, tail, head);
                let round = tail + head.skip(1);
                assert(round[0] == e.dep);
                assert(round.last() == e.waiter);
                lemma_path_without(g, e, round);
            } else {
                assert forall|i: int| 0 <= i < p.len() - 1 implies #[trigger] step(
                    g,
                    false,
                    p,
                    i,
                ) by {
                    assert(step(h, false, p, i));
                    let f = choose|f: EdgeView| #[trigger]
                        h.contains(f) && f.waiter == p[i] && f.dep == p[i + 1] && (false
                            ==> f.kind is Demand);
                    assert(p[i] == p[i]);
                    assert(g.contains(f));
                }
                assert(is_path(g, false, p));
            }
        }
    }
}

/// A path on which no soft edge lies between two given nodes is a hard path:
/// if `a` reaches `b` but not over demand edges alone, then some soft edge
/// lies on a path from `a` to `b`.
pub proof fn lemma_soft_on_path(g: Set<EdgeView>, p: Seq<Seq<char>>)
    requires
        is_path(g, false, p),
        !reach(g, true, p[0], p.last()),
    ensures
        exists|e: EdgeView| #[trigger]
            g.contains(e) && !(e.kind is Demand) && reach(g, false, p[0], e.waiter) && reach(
                g,
                false,
                e.dep,
                p.last(),
            ),
{
    if forall|i: int|
        0 <= i < p.len() - 1 ==> joined(g, true, #[trigger] p[i], p[i + 1]) {
        assert forall|i: int| 0 <= i < p.len() - 1 implies #[trigger] step(g, true, p, i) by {
            assert(joined(g, true, p[i], p[i + 1]));
        }
        assert(is_path(g, true, p));
        assert(false);
    } else {
        let i = choose|i: int|
            0 <= i < p.len() - 1 && !joined(g, true, #[trigger] p[i], p[i + 1]);
        assert(step(g, false, p, i));
        let e = choose|e: EdgeView| #[trigger]
            g.contains(e) && e.waiter == p[i] && e.dep == p[i + 1] && (false ==> e.kind is Demand);
        assert(!(e.kind is Demand));
        let head = p.subrange(0, i + 1);
        let tail = p.subrange(i + 1, p.len() as int);
        lemma_path_piece(g, false, p, 0, i + 1);
        lemma_path_piece(g, false, p, i + 1, p.len() as int);
        assert(head[0] == p[0] && head.last() == e.waiter);
        assert(tail[0] == e.dep && tail.last() == p.last());
        assert(reach(g, false, p[0], e.waiter));
        assert(reach(g, false, e.dep, p.last()));
    }
}

}
