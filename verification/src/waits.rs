//! The shared waits-for graph: cross-worker, cross-process cycle handling.
//!
//! An edge `waiter -> dep` means "some traversal of `waiter` is (about to be)
//! blocked until `dep` settles". Every such wait is an edge of this one graph,
//! inserted together with a cycle check, so that no cycle of waits can form:
//!
//! * a soft insert that would close a cycle is refused;
//! * a hard insert that would close an all-hard cycle is a real dependency
//!   cycle, an error;
//! * a hard insert that would close a cycle riding a soft edge makes the
//!   speculation yield: one soft edge on the cycle is evicted (checker edges
//!   first, evicting one only costs a rebuild) and the caller retries. Evicting
//!   a creation edge aborts a speculative instance, whose own outgoing edges
//!   are dropped with it.
//!
//! Every edge records the owner that inserted it. Edges of an owner that is
//! provably dead are garbage, and are collected when a cycle check first comes
//! back positive.
//!
//! Target names are compared up to ASCII letter case; edges hold them folded.

use crate::reach::{
    acyclic, is_path, joined, lemma_acyclic_insert, lemma_acyclic_shrinks, lemma_path_piece,
    lemma_reach_closed, lemma_reach_push, lemma_reach_self, lemma_soft_on_path, reach, step,
};
pub use crate::reach::{EdgeKind, EdgeView};
use crate::text::{
    cat, cat3, join, join_with, lemma_split_append, lemma_split_free, lemma_split_join, lower,
    occurs, same, split, split_on, strip_prefix, strip_suffix, texts, to_lower,
};
use crate::lock::{probe_unlocked, Probe};
use crate::seqs::{lemma_push_contains};
use vstd::prelude::*;

verus! {

/// What a soft check-and-insert decided.
#[derive(Debug, Clone, Copy, PartialEq, Eq, Structural)]
pub enum SoftOutcome {
    /// The edge is recorded; the wait (or spawn) may proceed.
    Inserted,
    /// The edge would close a cycle: refused, nothing inserted. The caller
    /// takes the rebuild path (checker) or skips the spawn (creation).
    Cycle,
}

/// One step of the hard check-and-insert. The caller loops.
#[derive(Debug, Clone, Copy, PartialEq, Eq, Structural)]
pub enum DemandOutcome {
    /// The demand edge is recorded, superseding a creation edge for the same
    /// dependency.
    Inserted,
    /// A cycle made only of hard edges: a real dependency cycle.
    RealCycle,
    /// A cycle riding soft edges: one soft edge was evicted. Retry.
    Evicted {
        /// Whether the eviction aborted a speculative lineage (a creation
        /// edge): its residual edges may take a moment to dissolve, so a real
        /// cycle seen shortly after should be checked again before it is
        /// trusted.
        aborted_lineage: bool,
    },
}

/// Identifies one edge, for liveness watches and interruptible waits. `waiter`
/// and `dep` are folded.
#[derive(Debug, Clone, PartialEq, Eq)]
pub struct EdgeRef {
    pub owner: String,
    pub waiter: String,
    pub dep: String,
}

/// An edge reference, as a mathematical value.
#[verifier::ext_equal]
pub struct EdgeRefView {
    pub owner: Seq<char>,
    pub waiter: Seq<char>,
    pub dep: Seq<char>,
}

impl View for EdgeRef {
    type V = EdgeRefView;

    open spec fn view(&self) -> EdgeRefView {
        EdgeRefView { owner: self.owner@, waiter: self.waiter@, dep: self.dep@ }
    }
}

/// One row of the graph.
#[derive(Debug, Clone, PartialEq, Eq)]
pub struct Edge {
    pub owner: String,
    pub waiter: String,
    pub dep: String,
    pub kind: EdgeKind,
}

impl View for Edge {
    type V = EdgeView;

    open spec fn view(&self) -> EdgeView {
        EdgeView {
            owner: self.owner@,
            waiter: self.waiter@,
            dep: self.dep@,
            kind: self.kind,
        }
    }
}

impl Edge {
    /// The same edge again.
    pub fn copy(&self) -> (r: Edge)
        ensures
            r@ == self@,
    {
        Edge {
            owner: self.owner.clone(),
            waiter: self.waiter.clone(),
            dep: self.dep.clone(),
            kind: self.kind,
        }
    }
}

/// Whether two edges have the same key; a graph holds one edge per key.
pub open spec fn same_key(a: EdgeView, b: EdgeView) -> bool {
    a.owner == b.owner && a.waiter == b.waiter && a.dep == b.dep
}

/// Whether the graph holds an edge under the key of `e`, of any kind.
pub open spec fn has_key(g: Set<EdgeView>, e: EdgeView) -> bool {
    exists|f: EdgeView| #[trigger] g.contains(f) && same_key(f, e)
}

/// Whether the graph holds the edge that `r` refers to, of any kind.
pub open spec fn alive(g: Set<EdgeView>, r: EdgeRefView) -> bool {
    exists|f: EdgeView| #[trigger]
        g.contains(f) && f.owner == r.owner && f.waiter == r.waiter && f.dep == r.dep
}

/// `e` inserted unless its key is taken.
pub open spec fn put_new(g: Set<EdgeView>, e: EdgeView) -> Set<EdgeView> {
    if has_key(g, e) {
        g
    } else {
        g.insert(e)
    }
}

/// `e` inserted in place of what its key held.
pub open spec fn put_over(g: Set<EdgeView>, e: EdgeView) -> Set<EdgeView> {
    g.filter(|f: EdgeView| !same_key(f, e)).insert(e)
}

/// The graph without the edges of dead owners; one's own edges stay.
pub open spec fn collected(g: Set<EdgeView>, me: Seq<char>, dead: Seq<Seq<char>>) -> Set<
    EdgeView,
> {
    g.filter(|e: EdgeView| e.owner == me || !dead.contains(e.owner))
}

/// The views of a list of edges.
pub open spec fn rows(s: Seq<Edge>) -> Seq<EdgeView> {
    s.map_values(|e: Edge| e@)
}

/// What a removal takes out of the graph.
pub enum Cut {
    /// The edge under one key.
    Key(EdgeRef),
    /// Every edge that leaves a target.
    Waiter(String),
    /// Every edge that leaves a target and belongs to one owner.
    Owned { owner: String, waiter: String },
    /// Every edge of the given owners.
    Owners(Vec<String>),
}

impl Cut {
    /// Whether the removal takes `e`.
    pub open spec fn takes(&self, e: EdgeView) -> bool {
        match self {
            Cut::Key(r) => e.owner == r.owner@ && e.waiter == r.waiter@ && e.dep == r.dep@,
            Cut::Waiter(w) => e.waiter == w@,
            Cut::Owned { owner, waiter } => e.owner == owner@ && e.waiter == waiter@,
            Cut::Owners(list) => texts(list@).contains(e.owner),
        }
    }

    fn hits(&self, e: &Edge) -> (r: bool)
        ensures
            r == self.takes(e@),
    {
        match self {
            Cut::Key(r) => e.owner == r.owner && e.waiter == r.waiter && e.dep == r.dep,
            Cut::Waiter(w) => e.waiter == *w,
            Cut::Owned { owner, waiter } => e.owner == *owner && e.waiter == *waiter,
            Cut::Owners(list) => crate::text::lists(list.as_slice(), e.owner.as_str()),
        }
    }
}

/// The waits-for graph: one edge per key.
pub struct WaitGraph {
    edges: Vec<Edge>,
}

impl View for WaitGraph {
    type V = Set<EdgeView>;

    closed spec fn view(&self) -> Set<EdgeView> {
        rows(self.edges@).to_set()
    }
}

impl WaitGraph {
    /// No two rows share a key.
    pub closed spec fn wf(&self) -> bool {
        forall|i: int, j: int|
            0 <= i < j < self.edges.len() ==> !same_key(
                #[trigger] self.edges[i]@,
                #[trigger] self.edges[j]@,
            )
    }

    /// The graph without edges.
    pub fn new() -> (g: WaitGraph)
        ensures
            g.wf(),
            g@ == Set::<EdgeView>::empty(),
    {
        let g = WaitGraph { edges: Vec::new() };
        assert(g@ =~= Set::<EdgeView>::empty());
        g
    }

    /// The rows of the graph, in no particular order.
    pub fn edges(&self) -> (out: Vec<Edge>)
        requires
            self.wf(),
        ensures
            rows(out@).to_set() == self@,
            rows(out@).no_duplicates(),
    {
        let mut out: Vec<Edge> = Vec::new();
        for i in 0..self.edges.len()
            invariant
                out.len() == i,
                forall|k: int| 0 <= k < i ==> #[trigger] out@[k]@ == self.edges@[k]@,
        {
            out.push(self.edges[i].copy());
        }
        assert(rows(out@) =~= rows(self.edges@));
        assert(rows(out@).no_duplicates()) by {
            assert forall|i: int, j: int|
                0 <= i < rows(out@).len() && 0 <= j < rows(out@).len() && i != j implies rows(
                out@,
            )[i] != rows(out@)[j] by {
                assert(rows(out@)[i] == self.edges[i]@);
                assert(rows(out@)[j] == self.edges[j]@);
            }
        }
        out
    }

    /// Where the edge under the key of `e` stands, if the graph holds one.
    fn find(&self, owner: &str, waiter: &str, dep: &str) -> (r: Option<usize>)
        ensures
            r matches Some(i) ==> i < self.edges.len() && self.edges[i as int]@.owner == owner@
                && self.edges[i as int]@.waiter == waiter@ && self.edges[i as int]@.dep == dep@,
            r is None ==> forall|k: int|
                0 <= k < self.edges.len() ==> {
                    let e = #[trigger] self.edges[k]@;
                    !(e.owner == owner@ && e.waiter == waiter@ && e.dep == dep@)
                },
    {
        for i in 0..self.edges.len()
            invariant
                forall|k: int|
                    0 <= k < i ==> {
                        let e = #[trigger] self.edges[k]@;
                        !(e.owner == owner@ && e.waiter == waiter@ && e.dep == dep@)
                    },
        {
            let e = &self.edges[i];
            if same(e.owner.as_str(), owner) && same(e.waiter.as_str(), waiter) && same(
                e.dep.as_str(),
                dep,
            ) {
                return Some(i);
            }
        }
        None
    }

    /// Membership in the view is membership in the rows.
    proof fn lemma_holds(&self, e: EdgeView)
        ensures
            self@.contains(e) <==> exists|i: int|
                0 <= i < self.edges.len() && #[trigger] self.edges[i]@ == e,
    {
        if self@.contains(e) {
            let i = choose|i: int| 0 <= i < rows(self.edges@).len() && rows(self.edges@)[i] == e;
            assert(self.edges[i]@ == e);
        }
        if exists|i: int| 0 <= i < self.edges.len() && #[trigger] self.edges[i]@ == e {
            let i = choose|i: int| 0 <= i < self.edges.len() && #[trigger] self.edges[i]@ == e;
            assert(rows(self.edges@)[i] == e);
        }
    }

    /// Insert an edge whose key is free.
    fn push_edge(&mut self, e: Edge)
        requires
            old(self).wf(),
            !has_key(old(self)@, e@),
        ensures
            final(self).wf(),
            final(self)@ == old(self)@.insert(e@),
    {
        let ghost before = *self;
        let ghost v = e@;
        proof {
            assert forall|i: int| 0 <= i < before.edges.len() implies !same_key(
                #[trigger] before.edges[i]@,
                v,
            ) by {
                before.lemma_holds(before.edges[i]@);
            }
        }
        self.edges.push(e);
        proof {
            assert(rows(self.edges@) =~= rows(before.edges@).push(v));
            assert forall|x: EdgeView| self@.contains(x) <==> before@.insert(v).contains(x) by {
                self.lemma_holds(x);
                before.lemma_holds(x);
                if before@.contains(x) {
                    let i = choose|i: int|
                        0 <= i < before.edges.len() && #[trigger] before.edges[i]@ == x;
                    assert(self.edges[i]@ == x);
                }
                if x == v {
                    assert(self.edges[before.edges.len() as int]@ == x);
                }
            }
            assert(self@ =~= before@.insert(v));
        }
    }

    /// Remove what the cut takes.
    pub fn cut(&mut self, what: &Cut)
        requires
            old(self).wf(),
        ensures
            final(self).wf(),
            final(self)@ == old(self)@.filter(|e: EdgeView| !what.takes(e)),
    {
        let mut kept: Vec<Edge> = Vec::new();
        let ghost mut origin: Seq<int> = Seq::empty();
        for i in 0..self.edges.len()
            invariant
                self.wf(),
                origin.len() == kept.len(),
                forall|k: int|
                    0 <= k < kept.len() ==> 0 <= #[trigger] origin[k] < i && kept@[k]@
                        == self.edges[origin[k]]@ && !what.takes(kept@[k]@),
                forall|k: int, l: int|
                    0 <= k < l < kept.len() ==> #[trigger] origin[k] < #[trigger] origin[l],
                forall|j: int|
                    0 <= j < i && !what.takes(#[trigger] self.edges[j]@) ==> exists|k: int|
                        0 <= k < kept.len() && #[trigger] origin[k] == j,
        {
            let ghost before = origin;
            let ghost held = kept@;
            if !what.hits(&self.edges[i]) {
                kept.push(self.edges[i].copy());
                proof {
                    origin = origin.push(i as int);
                }
            }
            assert forall|j: int|
                0 <= j < i + 1 && !what.takes(#[trigger] self.edges[j]@) implies exists|k: int|
                0 <= k < kept.len() && #[trigger] origin[k] == j by {
                if j < i {
                    let k = choose|k: int| 0 <= k < held.len() && #[trigger] before[k] == j;
                    assert(origin[k] == j);
                } else {
                    assert(origin[held.len() as int] == j);
                }
            }
        }
        let ghost old_edges = self.edges@;
        let ghost before = *self;
        self.edges = kept;
        proof {
            assert forall|i: int, j: int| 0 <= i < j < self.edges.len() implies !same_key(
                #[trigger] self.edges[i]@,
                #[trigger] self.edges[j]@,
            ) by {
                assert(origin[i] < origin[j]);
                assert(!same_key(before.edges[origin[i]]@, before.edges[origin[j]]@));
            }
            let want = before@.filter(|e: EdgeView| !what.takes(e));
            assert forall|x: EdgeView| self@.contains(x) <==> want.contains(x) by {
                self.lemma_holds(x);
                before.lemma_holds(x);
                if self@.contains(x) {
                    let k = choose|k: int|
                        0 <= k < self.edges.len() && #[trigger] self.edges[k]@ == x;
                    assert(before.edges[origin[k]]@ == x);
                }
                if want.contains(x) {
                    let j = choose|j: int|
                        0 <= j < before.edges.len() && #[trigger] before.edges[j]@ == x;
                    let k = choose|k: int| 0 <= k < self.edges.len() && #[trigger] origin[k] == j;
                    assert(self.edges[k]@ == x);
                }
            }
            assert(self@ =~= want);
        }
    }

    /// Insert an edge unless its key is taken.
    fn insert_new(&mut self, e: Edge)
        requires
            old(self).wf(),
        ensures
            final(self).wf(),
            final(self)@ == put_new(old(self)@, e@),
    {
        match self.find(e.owner.as_str(), e.waiter.as_str(), e.dep.as_str()) {
            Some(i) => {
                proof {
                    self.lemma_holds(self.edges[i as int]@);
                    assert(has_key(self@, e@));
                }
            },
            None => {
                proof {
                    assert forall|f: EdgeView| #[trigger] self@.contains(f) implies !same_key(
                        f,
                        e@,
                    ) by {
                        self.lemma_holds(f);
                    }
                }
                self.push_edge(e);
            },
        }
    }

    /// Insert an edge in place of what its key holds.
    fn insert_over(&mut self, e: Edge)
        requires
            old(self).wf(),
        ensures
            final(self).wf(),
            final(self)@ == put_over(old(self)@, e@),
    {
        let ghost before = self@;
        let key = Cut::Key(
            EdgeRef { owner: e.owner.clone(), waiter: e.waiter.clone(), dep: e.dep.clone() },
        );
        self.cut(&key);
        assert(self@ =~= before.filter(|f: EdgeView| !same_key(f, e@)));
        self.push_edge(e);
    }

    /// A graph of the given rows; of several rows under one key the first
    /// counts.
    pub fn from_rows(list: &[Edge]) -> (g: WaitGraph)
        ensures
            g.wf(),
            g@ == loaded(rows(list@)),
    {
        let mut g = WaitGraph::new();
        for i in 0..list.len()
            invariant
                g.wf(),
                g@ == loaded(rows(list@).take(i as int)),
        {
            g.insert_new(list[i].copy());
            assert(rows(list@).take(i + 1).drop_last() =~= rows(list@).take(i as int));
            assert(rows(list@).take(i + 1).last() == list@[i as int]@);
        }
        assert(rows(list@).take(list.len() as int) =~= rows(list@));
        g
    }

    /// The names that `from` reaches, itself among them; with `hard`, over
    /// demand edges alone.
    fn reached(&self, from: &str, hard: bool) -> (out: Vec<String>)
        ensures
            forall|x: Seq<char>|
                texts(out@).contains(x) <==> #[trigger] reach(self@, hard, from@, x),
    {
        let mut seen: Vec<String> = Vec::new();
        seen.push(from.to_owned());
        let ghost pool = seq![from@] + rows(self.edges@).map_values(|e: EdgeView| e.dep);
        proof {
            lemma_reach_self(self@, hard, from@);
            assert(pool[0] == from@);
        }
        let mut i: usize = 0;
        while i < seen.len()
            invariant
                i <= seen.len(),
                seen.len() >= 1,
                seen@[0]@ == from@,
                pool == seq![from@] + rows(self.edges@).map_values(|e: EdgeView| e.dep),
                texts(seen@).no_duplicates(),
                forall|k: int| 0 <= k < seen.len() ==> pool.contains(#[trigger] texts(seen@)[k]),
                forall|k: int|
                    0 <= k < seen.len() ==> reach(
                        self@,
                        hard,
                        from@,
                        #[trigger] texts(seen@)[k],
                    ),
                forall|k: int, j: int|
                    0 <= k < i && 0 <= j < self.edges.len() && #[trigger] self.edges[j]@.waiter
                        == #[trigger] texts(seen@)[k] && (hard ==> self.edges[j]@.kind is Demand)
                        ==> texts(seen@).contains(self.edges[j]@.dep),
            decreases self.edges.len() + 1 - i,
        {
            proof {
                lemma_fits(texts(seen@), pool);
            }
            let here = seen[i].clone();
            for j in 0..self.edges.len()
                invariant
                    i < seen.len(),
                    here@ == texts(seen@)[i as int],
                    seen@[0]@ == from@,
                    pool == seq![from@] + rows(self.edges@).map_values(|e: EdgeView| e.dep),
                    texts(seen@).no_duplicates(),
                    forall|k: int|
                        0 <= k < seen.len() ==> pool.contains(#[trigger] texts(seen@)[k]),
                    forall|k: int|
                        0 <= k < seen.len() ==> reach(
                            self@,
                            hard,
                            from@,
                            #[trigger] texts(seen@)[k],
                        ),
                    forall|k: int, l: int|
                        0 <= k < i && 0 <= l < self.edges.len() && #[trigger] self.edges[l]@.waiter
                            == #[trigger] texts(seen@)[k] && (hard
                            ==> self.edges[l]@.kind is Demand) ==> texts(seen@).contains(
                            self.edges[l]@.dep,
                        ),
                    forall|l: int|
                        0 <= l < j && #[trigger] self.edges[l]@.waiter == here@ && (hard
                            ==> self.edges[l]@.kind is Demand) ==> texts(seen@).contains(
                            self.edges[l]@.dep,
                        ),
            {
                let e = &self.edges[j];
                if e.waiter == here && (!hard || e.kind == EdgeKind::Demand)
                    && !crate::text::lists(seen.as_slice(), e.dep.as_str()) {
                    let ghost before = texts(seen@);
                    proof {
                        self.lemma_holds(e@);
                        assert(self.edges[j as int]@ == e@);
                        assert(self@.contains(e@));
                        assert(joined(self@, hard, here@, e@.dep));
                        lemma_reach_push(self@, hard, from@, here@, e@.dep);
                        assert(pool[j + 1] == e@.dep);
                    }
                    seen.push(e.dep.clone());
                    proof {
                        assert(texts(seen@) =~= before.push(e@.dep));
                        assert(texts(seen@)[before.len() as int] == e@.dep);
                        assert forall|x: Seq<char>| before.contains(x) implies texts(
                            seen@,
                        ).contains(x) by {
                            let k = choose|k: int| 0 <= k < before.len() && before[k] == x;
                            assert(texts(seen@)[k] == x);
                        }
                    }
                }
            }
            i += 1;
        }
        proof {
            let names = texts(seen@).to_set();
            assert forall|x: Seq<char>, y: Seq<char>| #[trigger]
                joined(self@, hard, x, y) && names.contains(x) implies names.contains(y) by {
                let e = choose|e: EdgeView| #[trigger]
                    self@.contains(e) && e.waiter == x && e.dep == y && (hard ==> e.kind is Demand);
                self.lemma_holds(e);
                let l = choose|l: int| 0 <= l < self.edges.len() && #[trigger] self.edges[l]@ == e;
                let k = choose|k: int| 0 <= k < texts(seen@).len() && texts(seen@)[k] == x;
                assert(self.edges[l]@.waiter == texts(seen@)[k]);
            }
            assert forall|x: Seq<char>| texts(seen@).contains(x) <==> #[trigger] reach(
                self@,
                hard,
                from@,
                x,
            ) by {
                if reach(self@, hard, from@, x) {
                    let p = choose|p: Seq<Seq<char>>| #[trigger]
                        is_path(self@, hard, p) && p[0] == from@ && p.last() == x;
                    assert(texts(seen@)[0] == from@);
                    lemma_reach_closed(self@, hard, names, p);
                }
            }
        }
        seen
    }

    /// Whether a path leads from `from` to `to`; with `hard`, over demand
    /// edges alone.
    pub fn reachable(&self, from: &str, to: &str, hard: bool) -> (r: bool)
        ensures
            r == reach(self@, hard, from@, to@),
    {
        let names = self.reached(from, hard);
        crate::text::lists(names.as_slice(), to)
    }
}

/// A list without duplicates is no longer than a list that holds its items.
proof fn lemma_fits(s: Seq<Seq<char>>, pool: Seq<Seq<char>>)
    requires
        s.no_duplicates(),
        forall|k: int| 0 <= k < s.len() ==> pool.contains(#[trigger] s[k]),
    ensures
        s.len() <= pool.len(),
{
    s.unique_seq_to_set();
    pool.lemma_cardinality_of_set();
    assert(s.to_set().subset_of(pool.to_set()));
    vstd::set_lib::lemma_len_subset(s.to_set(), pool.to_set());
}

/// The graph of a list of rows; of several rows under one key the first
/// counts.
pub open spec fn loaded(list: Seq<EdgeView>) -> Set<EdgeView>
    decreases list.len(),
{
    if list.len() == 0 {
        Set::empty()
    } else {
        put_new(loaded(list.drop_last()), list.last())
    }
}

/// The edge that a wait of `waiter` on `dep` is recorded as.
pub open spec fn wait_edge(
    me: Seq<char>,
    waiter: Seq<char>,
    dep: Seq<char>,
    kind: EdgeKind,
) -> EdgeView {
    EdgeView { owner: me, waiter: lower(waiter), dep: lower(dep), kind }
}

/// Whether inserting `e` would close a cycle.
pub open spec fn closes(g: Set<EdgeView>, e: EdgeView) -> bool {
    reach(g, false, e.dep, e.waiter)
}

/// Whether `x` is a soft edge on a path from `d` to `w`.
pub open spec fn soft_between(
    g: Set<EdgeView>,
    d: Seq<char>,
    w: Seq<char>,
    x: EdgeView,
) -> bool {
    g.contains(x) && !(x.kind is Demand) && reach(g, false, d, x.waiter) && reach(
        g,
        false,
        x.dep,
        w,
    )
}

/// Whether a checker edge lies on a path from `d` to `w`.
pub open spec fn checker_between(g: Set<EdgeView>, d: Seq<char>, w: Seq<char>) -> bool {
    exists|x: EdgeView| #[trigger] g.contains(x) && soft_between(g, d, w, x) && x.kind is Checker
}

/// The graph after `x` was evicted: with a creation edge go the edges that
/// leave the speculative instance it created.
pub open spec fn evicted(g: Set<EdgeView>, x: EdgeView) -> Set<EdgeView> {
    if x.kind is Creation {
        g.remove(x).filter(|f: EdgeView| f.waiter != x.dep)
    } else {
        g.remove(x)
    }
}

/// One edge per key, said of the view.
pub open spec fn keyed(g: Set<EdgeView>) -> bool {
    forall|a: EdgeView, b: EdgeView| #[trigger]
        g.contains(a) && #[trigger] g.contains(b) && same_key(a, b) ==> a == b
}

/// Inserting an edge that closes no cycle keeps the graph acyclic, whichever
/// way a taken key is treated.
proof fn lemma_put_acyclic(g: Set<EdgeView>, e: EdgeView)
    requires
        !closes(g, e),
    ensures
        acyclic(g) ==> acyclic(put_new(g, e)) && acyclic(put_over(g, e)),
{
    if acyclic(g) {
        let rest = g.filter(|f: EdgeView| !same_key(f, e));
        lemma_acyclic_shrinks(rest, g);
        if reach(rest, false, e.dep, e.waiter) {
            let p = choose|p: Seq<Seq<char>>| #[trigger]
                is_path(rest, false, p) && p[0] == e.dep && p.last() == e.waiter;
            crate::reach::lemma_path_grows(rest, g, false, p);
        }
        lemma_acyclic_insert(rest, e);
        lemma_acyclic_insert(g, e);
    }
}

impl WaitGraph {
    /// A well-formed graph holds one edge per key.
    pub proof fn lemma_keyed(&self)
        requires
            self.wf(),
        ensures
            keyed(self@),
    {
        assert forall|a: EdgeView, b: EdgeView| #[trigger]
            self@.contains(a) && #[trigger] self@.contains(b) && same_key(a, b) implies a == b by {
            self.lemma_holds(a);
            self.lemma_holds(b);
            let i = choose|i: int| 0 <= i < self.edges.len() && #[trigger] self.edges[i]@ == a;
            let j = choose|j: int| 0 <= j < self.edges.len() && #[trigger] self.edges[j]@ == b;
            if i < j {
                assert(!same_key(self.edges[i]@, self.edges[j]@));
            } else if j < i {
                assert(!same_key(self.edges[j]@, self.edges[i]@));
            }
        }
    }

    /// Whether a wait of `waiter` on `dep` would close a cycle.
    pub fn closes_cycle(&self, waiter: &str, dep: &str) -> (r: bool)
        ensures
            r == reach(self@, false, lower(dep@), lower(waiter@)),
    {
        self.reachable(to_lower(dep).as_str(), to_lower(waiter).as_str(), false)
    }

    /// The owners of edges, each once.
    pub fn owners(&self) -> (out: Vec<String>)
        ensures
            texts(out@).no_duplicates(),
            forall|o: Seq<char>|
                #![trigger texts(out@).contains(o)]
                texts(out@).contains(o) <==> exists|e: EdgeView| #[trigger]
                    self@.contains(e) && e.owner == o,
    {
        let mut out: Vec<String> = Vec::new();
        for i in 0..self.edges.len()
            invariant
                texts(out@).no_duplicates(),
                forall|k: int|
                    0 <= k < out.len() ==> exists|j: int|
                        0 <= j < self.edges.len() && self.edges[j]@.owner == #[trigger] texts(
                            out@,
                        )[k],
                forall|j: int|
                    0 <= j < i ==> texts(out@).contains(#[trigger] self.edges[j]@.owner),
        {
            let o = self.edges[i].owner.as_str();
            if !crate::text::lists(out.as_slice(), o) {
                let ghost before = texts(out@);
                out.push(o.to_owned());
                proof {
                    assert(texts(out@) =~= before.push(o@));
                    assert(texts(out@)[before.len() as int] == o@);
                    assert forall|k: int| 0 <= k < out.len() implies exists|j: int|
                        0 <= j < self.edges.len() && self.edges[j]@.owner == #[trigger] texts(
                            out@,
                        )[k] by {
                        if k < before.len() {
                            assert(texts(out@)[k] == before[k]);
                        } else {
                            assert(self.edges[i as int]@.owner == texts(out@)[k]);
                        }
                    }
                    assert forall|x: Seq<char>| before.contains(x) implies texts(
                        out@,
                    ).contains(x) by {
                        let k = choose|k: int| 0 <= k < before.len() && before[k] == x;
                        assert(texts(out@)[k] == x);
                    }
                }
            }
        }
        proof {
            assert forall|o: Seq<char>|
                #![trigger texts(out@).contains(o)]
                texts(out@).contains(o) <==> exists|e: EdgeView| #[trigger]
                    self@.contains(e) && e.owner == o by {
                if texts(out@).contains(o) {
                    let k = choose|k: int| 0 <= k < out.len() && texts(out@)[k] == o;
                    let j = choose|j: int|
                        0 <= j < self.edges.len() && self.edges[j]@.owner == texts(out@)[k];
                    self.lemma_holds(self.edges[j]@);
                    assert(self@.contains(self.edges[j]@));
                }
                if exists|e: EdgeView| #[trigger] self@.contains(e) && e.owner == o {
                    let e = choose|e: EdgeView| #[trigger] self@.contains(e) && e.owner == o;
                    self.lemma_holds(e);
                    let j = choose|j: int|
                        0 <= j < self.edges.len() && #[trigger] self.edges[j]@ == e;
                    assert(texts(out@).contains(self.edges[j]@.owner));
                }
            }
        }
        out
    }

    /// The first edge of the given soft kind on a path from `d` to `w`.
    fn soft_of_kind(&self, d: &str, w: &str, kind: EdgeKind) -> (r: Option<usize>)
        requires
            !(kind is Demand),
        ensures
            r matches Some(i) ==> i < self.edges.len() && self.edges[i as int].kind == kind
                && soft_between(self@, d@, w@, self.edges[i as int]@),
            r is None ==> forall|x: EdgeView| #[trigger]
                self@.contains(x) && x.kind == kind ==> !soft_between(self@, d@, w@, x),
    {
        let fwd = self.reached(d, false);
        for i in 0..self.edges.len()
            invariant
                !(kind is Demand),
                forall|x: Seq<char>|
                    texts(fwd@).contains(x) <==> #[trigger] reach(self@, false, d@, x),
                forall|k: int|
                    0 <= k < i && #[trigger] self.edges[k]@.kind == kind ==> !soft_between(
                        self@,
                        d@,
                        w@,
                        self.edges[k]@,
                    ),
        {
            let e = &self.edges[i];
            proof {
                self.lemma_holds(e@);
                assert(self.edges[i as int]@ == e@);
            }
            if e.kind == kind && crate::text::lists(fwd.as_slice(), e.waiter.as_str())
                && self.reachable(e.dep.as_str(), w, false) {
                assert(reach(self@, false, d@, e@.waiter));
                return Some(i);
            }
            assert(texts(fwd@).contains(e@.waiter) <==> reach(self@, false, d@, e@.waiter));
        }
        proof {
            assert forall|x: EdgeView| #[trigger]
                self@.contains(x) && x.kind == kind implies !soft_between(self@, d@, w@, x) by {
                self.lemma_holds(x);
                let k = choose|k: int| 0 <= k < self.edges.len() && #[trigger] self.edges[k]@ == x;
                assert(self.edges[k]@.kind == kind);
            }
        }
        None
    }
}

/// Delete the edges of owners that are provably dead; one's own stay.
pub fn gc_dead_edges(g: &mut WaitGraph, me: &str, dead: &[String])
    requires
        old(g).wf(),
    ensures
        final(g).wf(),
        final(g)@ == collected(old(g)@, me@, texts(dead@)),
        acyclic(old(g)@) ==> acyclic(final(g)@),
{
    let mut gone: Vec<String> = Vec::new();
    for i in 0..dead.len()
        invariant
            forall|x: Seq<char>|
                #![trigger texts(gone@).contains(x)]
                texts(gone@).contains(x) <==> x != me@ && texts(dead@).take(i as int).contains(x),
    {
        let ghost before = texts(gone@);
        let ghost seen = texts(dead@).take(i as int);
        assert(texts(dead@).take(i + 1) =~= seen.push(dead@[i as int]@));
        if !same(dead[i].as_str(), me) {
            gone.push(dead[i].clone());
            assert(texts(gone@) =~= before.push(dead@[i as int]@));
        }
        assert forall|x: Seq<char>|
            #![trigger texts(gone@).contains(x)]
            texts(gone@).contains(x) <==> x != me@ && texts(dead@).take(i + 1).contains(x) by {
            lemma_push_contains(before, dead@[i as int]@, x);
            lemma_push_contains(seen, dead@[i as int]@, x);
            assert(before.contains(x) <==> x != me@ && seen.contains(x));
        }
    }
    assert(texts(dead@).take(dead.len() as int) =~= texts(dead@));
    let ghost before = g@;
    g.cut(&Cut::Owners(gone));
    assert(g@ =~= collected(before, me@, texts(dead@)));
    proof {
        if acyclic(before) {
            lemma_acyclic_shrinks(g@, before);
        }
    }
}

/// The soft check-and-insert, once: refused if the edge would close a cycle,
/// else recorded unless the key is taken (a demand edge outranks it, an edge
/// of the same kind is shared).
pub open spec fn soft_step(g: Set<EdgeView>, e: EdgeView) -> (Set<EdgeView>, SoftOutcome) {
    if closes(g, e) {
        (g, SoftOutcome::Cycle)
    } else {
        (put_new(g, e), SoftOutcome::Inserted)
    }
}

/// The soft check-and-insert: on a positive cycle check the edges of dead owners are
/// collected, and the check is made again.
pub open spec fn soft_once(g: Set<EdgeView>, e: EdgeView, dead: Seq<Seq<char>>) -> (
    Set<EdgeView>,
    SoftOutcome,
) {
    let first = soft_step(g, e);
    if first.1 is Inserted {
        first
    } else {
        soft_step(collected(g, e.owner, dead), e)
    }
}

/// Atomic soft check-and-insert of a checker wait or a creation edge. `dead`
/// names owners that are provably dead: on a positive cycle check their edges
/// are collected once and the check made again, so that the leftovers of a
/// crashed traversal cannot force a needless rebuild.
pub fn try_soft(
    g: &mut WaitGraph,
    me: &str,
    waiter: &str,
    dep: &str,
    kind: EdgeKind,
    dead: &[String],
) -> (r: SoftOutcome)
    requires
        old(g).wf(),
        !(kind is Demand),
    ensures
        final(g).wf(),
        (final(g)@, r) == soft_once(
            old(g)@,
            wait_edge(me@, waiter@, dep@, kind),
            texts(dead@),
        ),
        acyclic(old(g)@) ==> acyclic(final(g)@),
{
    let ghost e = wait_edge(me@, waiter@, dep@, kind);
    if g.closes_cycle(waiter, dep) {
        gc_dead_edges(g, me, dead);
        if g.closes_cycle(waiter, dep) {
            return SoftOutcome::Cycle;
        }
    }
    proof {
        lemma_put_acyclic(g@, e);
    }
    g.insert_new(
        Edge { owner: me.to_owned(), waiter: to_lower(waiter), dep: to_lower(dep), kind },
    );
    SoftOutcome::Inserted
}

/// Whether a waiter name is a sentinel, which no edge leads to.
pub open spec fn sentinel(waiter: Seq<char>) -> bool {
    waiter.len() > 0 && waiter[0] == '\u{1}'
}

/// The soft inserts of a batch, one after the other: each check sees the
/// inserts before it. The checks of a sentinel waiter are skipped.
pub open spec fn soft_run(
    g: Set<EdgeView>,
    me: Seq<char>,
    waiter: Seq<char>,
    deps: Seq<Seq<char>>,
    kind: EdgeKind,
) -> (Set<EdgeView>, Seq<SoftOutcome>)
    decreases deps.len(),
{
    if deps.len() == 0 {
        (g, Seq::empty())
    } else {
        let front = soft_run(g, me, waiter, deps.drop_last(), kind);
        let e = wait_edge(me, waiter, deps.last(), kind);
        if sentinel(waiter) {
            (put_new(front.0, e), front.1.push(SoftOutcome::Inserted))
        } else {
            let last = soft_step(front.0, e);
            (last.0, front.1.push(last.1))
        }
    }
}

/// Whether nothing was refused.
pub open spec fn all_inserted(s: Seq<SoftOutcome>) -> bool {
    forall|i: int| 0 <= i < s.len() ==> #[trigger] s[i] is Inserted
}

/// A batch of soft inserts: if any is refused, the edges of dead owners are
/// collected, and the batch is tried again.
pub open spec fn soft_batch(
    g: Set<EdgeView>,
    me: Seq<char>,
    waiter: Seq<char>,
    deps: Seq<Seq<char>>,
    kind: EdgeKind,
    dead: Seq<Seq<char>>,
) -> (Set<EdgeView>, Seq<SoftOutcome>) {
    let first = soft_run(g, me, waiter, deps, kind);
    if all_inserted(first.1) {
        first
    } else {
        soft_run(collected(first.0, me, dead), me, waiter, deps, kind)
    }
}

/// Single soft inserts for one waiter, one call after the other.
pub open spec fn soft_turns(
    g: Set<EdgeView>,
    me: Seq<char>,
    waiter: Seq<char>,
    deps: Seq<Seq<char>>,
    kind: EdgeKind,
    dead: Seq<Seq<char>>,
) -> (Set<EdgeView>, Seq<SoftOutcome>)
    decreases deps.len(),
{
    if deps.len() == 0 {
        (g, Seq::empty())
    } else {
        let front = soft_turns(g, me, waiter, deps.drop_last(), kind, dead);
        let last = soft_once(front.0, wait_edge(me, waiter, deps.last(), kind), dead);
        (last.0, front.1.push(last.1))
    }
}

/// Whether no edge of the graph, and no dependency of the batch, leads to
/// `waiter`.
pub open spec fn nothing_leads_to(
    g: Set<EdgeView>,
    waiter: Seq<char>,
    deps: Seq<Seq<char>>,
) -> bool {
    &&& forall|e: EdgeView| #[trigger] g.contains(e) ==> e.dep != lower(waiter)
    &&& forall|i: int| 0 <= i < deps.len() ==> lower(#[trigger] deps[i]) != lower(waiter)
}

/// A batch of soft inserts keeps the graph acyclic; for a sentinel waiter, as
/// long as nothing leads to it.
proof fn lemma_soft_run_acyclic(
    g: Set<EdgeView>,
    me: Seq<char>,
    waiter: Seq<char>,
    deps: Seq<Seq<char>>,
    kind: EdgeKind,
)
    requires
        acyclic(g),
        sentinel(waiter) ==> nothing_leads_to(g, waiter, deps),
    ensures
        acyclic(soft_run(g, me, waiter, deps, kind).0),
        sentinel(waiter) ==> nothing_leads_to(soft_run(g, me, waiter, deps, kind).0, waiter, deps),
    decreases deps.len(),
{
    if deps.len() > 0 {
        let init = deps.drop_last();
        assert(sentinel(waiter) ==> nothing_leads_to(g, waiter, init)) by {
            if sentinel(waiter) {
                assert forall|i: int| 0 <= i < init.len() implies lower(#[trigger] init[i]) != lower(
                    waiter,
                ) by {
                    assert(init[i] == deps[i]);
                }
            }
        }
        lemma_soft_run_acyclic(g, me, waiter, init, kind);
        let front = soft_run(g, me, waiter, init, kind).0;
        let e = wait_edge(me, waiter, deps.last(), kind);
        if sentinel(waiter) {
            assert(deps[deps.len() - 1] == deps.last());
            if closes(front, e) {
                let p = choose|p: Seq<Seq<char>>| #[trigger]
                    is_path(front, false, p) && p[0] == e.dep && p.last() == e.waiter;
                assert(p.len() >= 2);
                assert(step(front, false, p, p.len() - 2));
                assert(joined(front, false, p[p.len() - 2], p.last()));
            }
            lemma_put_acyclic(front, e);
        } else if !closes(front, e) {
            lemma_put_acyclic(front, e);
        }
    }
}

/// One pass over a batch of soft inserts.
fn soft_pass(
    g: &mut WaitGraph,
    me: &str,
    waiter: &str,
    deps: &[String],
    kind: EdgeKind,
) -> (out: Vec<SoftOutcome>)
    requires
        old(g).wf(),
    ensures
        final(g).wf(),
        (final(g)@, out@) == soft_run(old(g)@, me@, waiter@, texts(deps@), kind),
{
    let cs = crate::text::to_chars(waiter);
    let unreachable_waiter = cs.len() > 0 && cs[0] == '\u{1}';
    let mut out: Vec<SoftOutcome> = Vec::new();
    let ghost before = g@;
    for i in 0..deps.len()
        invariant
            g.wf(),
            unreachable_waiter == sentinel(waiter@),
            (g@, out@) == soft_run(before, me@, waiter@, texts(deps@).take(i as int), kind),
    {
        let ghost part = texts(deps@).take(i + 1);
        assert(part.drop_last() =~= texts(deps@).take(i as int));
        assert(part.last() == deps@[i as int]@);
        let dep = deps[i].as_str();
        if !unreachable_waiter && g.closes_cycle(waiter, dep) {
            out.push(SoftOutcome::Cycle);
        } else {
            g.insert_new(
                Edge { owner: me.to_owned(), waiter: to_lower(waiter), dep: to_lower(dep), kind },
            );
            out.push(SoftOutcome::Inserted);
        }
    }
    assert(texts(deps@).take(deps.len() as int) =~= texts(deps@));
    out
}

/// Batched form of [`try_soft`]: many edges for one waiter name, checked and
/// inserted one after the other. If any is refused, the edges of dead owners
/// are collected and the batch is run once more.
pub fn try_soft_batch(
    g: &mut WaitGraph,
    me: &str,
    waiter: &str,
    deps: &[String],
    kind: EdgeKind,
    dead: &[String],
) -> (out: Vec<SoftOutcome>)
    requires
        old(g).wf(),
        !(kind is Demand),
    ensures
        final(g).wf(),
        (final(g)@, out@) == soft_batch(
            old(g)@,
            me@,
            waiter@,
            texts(deps@),
            kind,
            texts(dead@),
        ),
        acyclic(old(g)@) && (sentinel(waiter@) ==> nothing_leads_to(
            old(g)@,
            waiter@,
            texts(deps@),
        )) ==> acyclic(final(g)@),
{
    let ghost start = g@;
    let ghost keeps = acyclic(start) && (sentinel(waiter@) ==> nothing_leads_to(
        start,
        waiter@,
        texts(deps@),
    ));
    proof {
        if keeps {
            lemma_soft_run_acyclic(start, me@, waiter@, texts(deps@), kind);
        }
    }
    let out = soft_pass(g, me, waiter, deps, kind);
    let mut all = true;
    for i in 0..out.len()
        invariant
            all == forall|k: int| 0 <= k < i ==> #[trigger] out@[k] is Inserted,
    {
        if out[i] != SoftOutcome::Inserted {
            assert(!(out@[i as int] is Inserted));
            all = false;
        }
    }
    if all {
        return out;
    }
    gc_dead_edges(g, me, dead);
    proof {
        if keeps {
            lemma_soft_run_acyclic(g@, me@, waiter@, texts(deps@), kind);
        }
    }
    soft_pass(g, me, waiter, deps, kind)
}

/// The hard inserts of a batch, one after the other: a dependency whose edge
/// closes no cycle is recorded, superseding what its key held; the others are
/// left out.
pub open spec fn demand_run(
    g: Set<EdgeView>,
    me: Seq<char>,
    waiter: Seq<char>,
    deps: Seq<Seq<char>>,
) -> (Set<EdgeView>, Seq<bool>)
    decreases deps.len(),
{
    if deps.len() == 0 {
        (g, Seq::empty())
    } else {
        let front = demand_run(g, me, waiter, deps.drop_last());
        let e = wait_edge(me, waiter, deps.last(), EdgeKind::Demand);
        if closes(front.0, e) {
            (front.0, front.1.push(false))
        } else {
            (put_over(front.0, e), front.1.push(true))
        }
    }
}

/// Batched happy path of the hard check-and-insert: for each dependency,
/// whether its edge was inserted. Those that hit a cycle are left to
/// [`try_demand`].
pub fn try_demand_batch(g: &mut WaitGraph, me: &str, waiter: &str, deps: &[String]) -> (out: Vec<
    bool,
>)
    requires
        old(g).wf(),
    ensures
        final(g).wf(),
        (final(g)@, out@) == demand_run(old(g)@, me@, waiter@, texts(deps@)),
        acyclic(old(g)@) ==> acyclic(final(g)@),
{
    let mut out: Vec<bool> = Vec::new();
    let ghost before = g@;
    for i in 0..deps.len()
        invariant
            g.wf(),
            (g@, out@) == demand_run(before, me@, waiter@, texts(deps@).take(i as int)),
            acyclic(before) ==> acyclic(g@),
    {
        let ghost part = texts(deps@).take(i + 1);
        assert(part.drop_last() =~= texts(deps@).take(i as int));
        assert(part.last() == deps@[i as int]@);
        let dep = deps[i].as_str();
        let ghost e = wait_edge(me@, waiter@, dep@, EdgeKind::Demand);
        if g.closes_cycle(waiter, dep) {
            out.push(false);
        } else {
            proof {
                lemma_put_acyclic(g@, e);
            }
            g.insert_over(
                Edge {
                    owner: me.to_owned(),
                    waiter: to_lower(waiter),
                    dep: to_lower(dep),
                    kind: EdgeKind::Demand,
                },
            );
            out.push(true);
        }
    }
    assert(texts(deps@).take(deps.len() as int) =~= texts(deps@));
    out
}

/// One atomic step of the hard check-and-insert for `waiter -> dep`. The edge
/// is inserted if it closes no cycle, superseding a creation edge at the same
/// key. A cycle of hard edges alone is real. Else one soft edge on a cycle is
/// evicted, a checker edge if there is one.
pub fn try_demand(g: &mut WaitGraph, me: &str, waiter: &str, dep: &str) -> (r: DemandOutcome)
    requires
        old(g).wf(),
    ensures
        final(g).wf(),
        ({
            let e = wait_edge(me@, waiter@, dep@, EdgeKind::Demand);
            if !closes(old(g)@, e) {
                r is Inserted && final(g)@ == put_over(old(g)@, e)
            } else if reach(old(g)@, true, e.dep, e.waiter) {
                r is RealCycle && final(g)@ == old(g)@
            } else {
                &&& r == (DemandOutcome::Evicted {
                    aborted_lineage: !checker_between(old(g)@, e.dep, e.waiter),
                })
                &&& exists|x: EdgeView| #[trigger]
                    old(g)@.contains(x) && soft_between(old(g)@, e.dep, e.waiter, x)
                        && x.kind == (if checker_between(old(g)@, e.dep, e.waiter) {
                        EdgeKind::Checker
                    } else {
                        EdgeKind::Creation
                    }) && final(g)@ == evicted(old(g)@, x)
            }
        }),
        acyclic(old(g)@) ==> acyclic(final(g)@),
{
    let w = to_lower(waiter);
    let d = to_lower(dep);
    let ghost before = g@;
    let ghost e = wait_edge(me@, waiter@, dep@, EdgeKind::Demand);
    if !g.reachable(d.as_str(), w.as_str(), false) {
        proof {
            lemma_put_acyclic(g@, e);
        }
        g.insert_over(Edge { owner: me.to_owned(), waiter: w, dep: d, kind: EdgeKind::Demand });
        return DemandOutcome::Inserted;
    }
    if g.reachable(d.as_str(), w.as_str(), true) {
        return DemandOutcome::RealCycle;
    }
    proof {
        g.lemma_keyed();
        let p = choose|p: Seq<Seq<char>>| #[trigger]
            is_path(g@, false, p) && p[0] == d@ && p.last() == w@;
        lemma_soft_on_path(g@, p);
    }
    let first = g.soft_of_kind(d.as_str(), w.as_str(), EdgeKind::Checker);
    let (at, aborted) = match first {
        Some(i) => (i, false),
        None => match g.soft_of_kind(d.as_str(), w.as_str(), EdgeKind::Creation) {
            Some(i) => (i, true),
            None => {
                proof {
                    let x = choose|x: EdgeView| #[trigger]
                        g@.contains(x) && !(x.kind is Demand) && reach(g@, false, d@, x.waiter)
                            && reach(g@, false, x.dep, w@);
                    assert(soft_between(g@, d@, w@, x));
                    assert(false);
                }
                return DemandOutcome::RealCycle;
            },
        },
    };
    let x = g.edges[at].copy();
    proof {
        g.lemma_holds(x@);
        assert(g@.contains(x@));
        assert(aborted == !checker_between(g@, d@, w@));
    }
    let key = Cut::Key(
        EdgeRef { owner: x.owner.clone(), waiter: x.waiter.clone(), dep: x.dep.clone() },
    );
    g.cut(&key);
    assert(g@ =~= before.remove(x@)) by {
        assert forall|f: EdgeView| g@.contains(f) <==> before.remove(x@).contains(f) by {
            if before.contains(f) && key.takes(f) {
                assert(same_key(f, x@));
            }
        }
    }
    if aborted {
        let whole = Cut::Waiter(x.dep.clone());
        g.cut(&whole);
        assert(g@ =~= before.remove(x@).filter(|f: EdgeView| f.waiter != x@.dep));
    }
    assert(g@ == evicted(before, x@));
    proof {
        if acyclic(before) {
            lemma_acyclic_shrinks(g@, before);
        }
    }
    DemandOutcome::Evicted { aborted_lineage: aborted }
}

/// The creation edge that `r` refers to.
pub open spec fn creation_at(r: EdgeRefView) -> EdgeView {
    EdgeView { owner: r.owner, waiter: r.waiter, dep: r.dep, kind: EdgeKind::Creation }
}

/// Abort a speculative lineage from below: delete the creation edge that
/// guards it, and with it the edges that leave the aborted instance. `false`,
/// with nothing changed, if the lineage was demanded meanwhile: its work then
/// counts as demanded after all.
pub fn abort_creation(g: &mut WaitGraph, e: &EdgeRef) -> (r: bool)
    requires
        old(g).wf(),
    ensures
        final(g).wf(),
        r == old(g)@.contains(creation_at(e@)),
        final(g)@ == if r {
            evicted(old(g)@, creation_at(e@))
        } else {
            old(g)@
        },
        acyclic(old(g)@) ==> acyclic(final(g)@),
{
    let ghost before = g@;
    if !edge_is(g, e, EdgeKind::Creation) {
        return false;
    }
    drop_creation(g, e);
    g.cut(&Cut::Waiter(e.dep.clone()));
    assert(g@ =~= evicted(before, creation_at(e@)));
    proof {
        if acyclic(before) {
            lemma_acyclic_shrinks(g@, before);
        }
    }
    true
}

/// Delete a creation edge, if it still is one: an edge that was upgraded to a
/// demand stays.
pub fn drop_creation(g: &mut WaitGraph, e: &EdgeRef)
    requires
        old(g).wf(),
    ensures
        final(g).wf(),
        final(g)@ == old(g)@.remove(creation_at(e@)),
        acyclic(old(g)@) ==> acyclic(final(g)@),
{
    let ghost before = g@;
    proof {
        g.lemma_keyed();
        if acyclic(before) {
            lemma_acyclic_shrinks(before.remove(creation_at(e@)), before);
        }
    }
    if !edge_is(g, e, EdgeKind::Creation) {
        assert(g@ =~= before.remove(creation_at(e@)));
        return;
    }
    let key = Cut::Key(
        EdgeRef { owner: e.owner.clone(), waiter: e.waiter.clone(), dep: e.dep.clone() },
    );
    g.cut(&key);
    assert(g@ =~= before.remove(creation_at(e@))) by {
        assert forall|f: EdgeView| g@.contains(f) <==> before.remove(creation_at(e@)).contains(
            f,
        ) by {
            if before.contains(f) && key.takes(f) {
                assert(same_key(f, creation_at(e@)));
            }
        }
    }
}

/// Whether an edge is still present, of any kind: an upgraded creation edge is
/// alive as a demand edge.
pub fn edge_alive(g: &WaitGraph, e: &EdgeRef) -> (r: bool)
    ensures
        r == alive(g@, e@),
{
    match g.find(e.owner.as_str(), e.waiter.as_str(), e.dep.as_str()) {
        Some(i) => {
            proof {
                g.lemma_holds(g.edges[i as int]@);
                assert(g@.contains(g.edges[i as int]@));
            }
            true
        },
        None => {
            proof {
                assert forall|f: EdgeView| #[trigger] g@.contains(f) implies !(f.owner
                    == e@.owner && f.waiter == e@.waiter && f.dep == e@.dep) by {
                    g.lemma_holds(f);
                }
            }
            false
        },
    }
}

/// Whether an edge is present and of the given kind.
fn edge_is(g: &WaitGraph, e: &EdgeRef, kind: EdgeKind) -> (r: bool)
    requires
        g.wf(),
    ensures
        r == g@.contains(
            EdgeView { owner: e@.owner, waiter: e@.waiter, dep: e@.dep, kind },
        ),
{
    let ghost want = EdgeView { owner: e@.owner, waiter: e@.waiter, dep: e@.dep, kind };
    proof {
        g.lemma_keyed();
        g.lemma_holds(want);
    }
    match g.find(e.owner.as_str(), e.waiter.as_str(), e.dep.as_str()) {
        None => false,
        Some(i) => {
            proof {
                g.lemma_holds(g.edges[i as int]@);
                assert(g@.contains(g.edges[i as int]@));
                assert(same_key(g.edges[i as int]@, want));
            }
            g.edges[i].kind == kind
        },
    }
}

/// Whether an edge is present as a demand.
pub fn edge_demanded(g: &WaitGraph, e: &EdgeRef) -> (r: bool)
    requires
        g.wf(),
    ensures
        r == g@.contains(
            EdgeView {
                owner: e@.owner,
                waiter: e@.waiter,
                dep: e@.dep,
                kind: EdgeKind::Demand,
            },
        ),
{
    edge_is(g, e, EdgeKind::Demand)
}

/// Whether any edge of a speculation watch has disappeared, the abort signal
/// for a speculative lineage. An empty watch is never dead.
pub fn watch_dead(g: &WaitGraph, watch: &[EdgeRef]) -> (r: bool)
    ensures
        r == exists|i: int| 0 <= i < watch.len() && !alive(g@, #[trigger] watch@[i]@),
{
    for i in 0..watch.len()
        invariant
            forall|k: int| 0 <= k < i ==> alive(g@, #[trigger] watch@[k]@),
    {
        if !edge_alive(g, &watch[i]) {
            assert(!alive(g@, watch@[i as int]@));
            return true;
        }
    }
    false
}

/// Drop every edge that `me` recorded for `waiter`: a settled target no longer
/// blocks, so its edges leave the graph.
pub fn clear_waiter(g: &mut WaitGraph, me: &str, waiter: &str)
    requires
        old(g).wf(),
    ensures
        final(g).wf(),
        final(g)@ == old(g)@.filter(
            |e: EdgeView| !(e.owner == me@ && e.waiter == lower(waiter@)),
        ),
        acyclic(old(g)@) ==> acyclic(final(g)@),
{
    let ghost before = g@;
    g.cut(&Cut::Owned { owner: me.to_owned(), waiter: to_lower(waiter) });
    assert(g@ =~= before.filter(|e: EdgeView| !(e.owner == me@ && e.waiter == lower(waiter@))));
    proof {
        if acyclic(before) {
            lemma_acyclic_shrinks(g@, before);
        }
    }
}

/// The name of the file whose lock proves that an owner is alive.
pub open spec fn lock_name(owner: Seq<char>) -> Seq<char> {
    "w."@ + owner + ".lock"@
}

/// The name of the file whose lock proves that `owner` is alive.
pub fn live_lock_name(owner: &str) -> (s: String)
    ensures
        s@ == lock_name(owner@),
{
    cat(cat("w.", owner).as_str(), ".lock")
}

/// The owner whose liveness a lock file name speaks of, if it is one and not
/// one's own: the session-start sweep removes such a file once it wins the
/// lock.
pub fn sweep_candidate(name: &str, me: &str) -> (r: Option<String>)
    ensures
        match r {
            Some(o) => name@ == lock_name(o@) && o@ != me@,
            None => forall|o: Seq<char>| o != me@ ==> name@ != #[trigger] lock_name(o),
        },
{
    proof {
        reveal_strlit("w.");
        reveal_strlit(".lock");
    }
    match strip_prefix(name, "w.") {
        None => {
            proof {
                assert forall|o: Seq<char>| name@ != #[trigger] lock_name(o) by {
                    assert(lock_name(o).take(2) =~= "w."@);
                }
            }
            None
        },
        Some(rest) => match strip_suffix(rest.as_str(), ".lock") {
            None => {
                proof {
                    assert forall|o: Seq<char>| name@ != #[trigger] lock_name(o) by {
                        let t = lock_name(o).skip(2);
                        assert(t =~= o + ".lock"@);
                        assert(t.skip(t.len() - 5) =~= ".lock"@);
                    }
                }
                None
            },
            Some(o) => {
                proof {
                    assert(rest@ =~= o@ + ".lock"@);
                    assert(name@ =~= "w."@ + rest@);
                    assert(name@ =~= lock_name(o@));
                    assert forall|x: Seq<char>| name@ == #[trigger] lock_name(x) implies x
                        == o@ by {
                        assert(lock_name(x).len() == lock_name(o@).len());
                        assert(x =~= lock_name(x).subrange(2, 2 + x.len() as int));
                        assert(o@ =~= lock_name(o@).subrange(2, 2 + o@.len() as int));
                    }
                }
                if same(o.as_str(), me) {
                    None
                } else {
                    Some(o)
                }
            },
        },
    }
}

/// Whether an owner is still alive. A missing file or a winnable lock proves
/// death; where it cannot be told, the safe answer is that it lives.
pub fn owner_alive(probe: Probe) -> (r: bool)
    ensures
        r == (probe is Held || probe is Unreadable),
{
    !probe_unlocked(probe)
}

/// The environment variable that carries the creation edges guarding a
/// process's speculative lineage; any of them disappearing means "abort".
pub const ENV_SPEC_WATCH: &'static str = "REDO_SPEC_WATCH";

/// One edge reference as text: its fields, separated by U+001F.
pub open spec fn record(r: EdgeRefView) -> Seq<char> {
    r.owner + seq!['\u{1f}'] + r.waiter + seq!['\u{1f}'] + r.dep
}

/// A watch as text: its records, separated by U+001E.
pub open spec fn watch_text(watch: Seq<EdgeRefView>) -> Seq<char> {
    join(watch.map_values(|r: EdgeRefView| record(r)), seq!['\u{1e}'])
}

/// The edge reference that a record holds: its first three fields.
pub open spec fn record_value(s: Seq<char>) -> Option<EdgeRefView> {
    let f = split(s, '\u{1f}');
    if s.len() > 0 && f.len() >= 3 {
        Some(EdgeRefView { owner: f[0], waiter: f[1], dep: f[2] })
    } else {
        None
    }
}

/// The watch that a text holds; records that are empty or short are skipped.
pub open spec fn watch_value(s: Seq<char>) -> Seq<EdgeRefView> {
    split(s, '\u{1e}').filter_map(|r: Seq<char>| record_value(r))
}

/// The views of a watch.
pub open spec fn refs(watch: Seq<EdgeRef>) -> Seq<EdgeRefView> {
    watch.map_values(|r: EdgeRef| r@)
}

/// A watch as text, for the environment.
pub fn watch_to_env(watch: &[EdgeRef]) -> (s: String)
    ensures
        s@ == watch_text(refs(watch@)),
{
    let mut parts: Vec<String> = Vec::new();
    for i in 0..watch.len()
        invariant
            texts(parts@) == refs(watch@).map_values(|r: EdgeRefView| record(r)).take(i as int),
    {
        let e = &watch[i];
        let ghost before = texts(parts@);
        let head = cat3(e.owner.as_str(), "\u{1f}", e.waiter.as_str());
        let whole = cat3(head.as_str(), "\u{1f}", e.dep.as_str());
        proof {
            reveal_strlit("\u{1f}");
            assert("\u{1f}"@ =~= seq!['\u{1f}']);
            assert(whole@ =~= record(e@));
        }
        parts.push(whole);
        assert(texts(parts@) =~= before.push(record(e@)));
    }
    proof {
        let all = refs(watch@).map_values(|r: EdgeRefView| record(r));
        assert(all.take(watch.len() as int) =~= all);
        reveal_strlit("\u{1e}");
        assert("\u{1e}"@ =~= seq!['\u{1e}']);
    }
    join_with(parts.as_slice(), "\u{1e}")
}

/// The watch that an environment value holds.
pub fn watch_from_env(s: &str) -> (out: Vec<EdgeRef>)
    ensures
        refs(out@) == watch_value(s@),
{
    let parts = split_on(s, '\u{1e}');
    let ghost f = |r: Seq<char>| record_value(r);
    let mut out: Vec<EdgeRef> = Vec::new();
    for i in 0..parts.len()
        invariant
            f == (|r: Seq<char>| record_value(r)),
            refs(out@) == texts(parts@).take(i as int).filter_map(f),
    {
        let ghost before = refs(out@);
        proof {
            texts(parts@).lemma_filter_map_take_succ(f, i as int);
        }
        let part = parts[i].as_str();
        assert(texts(parts@)[i as int] == part@);
        let fields = split_on(part, '\u{1f}');
        if part.unicode_len() > 0 && fields.len() >= 3 {
            let e = EdgeRef {
                owner: fields[0].clone(),
                waiter: fields[1].clone(),
                dep: fields[2].clone(),
            };
            assert(texts(fields@)[0] == e.owner@);
            assert(texts(fields@)[1] == e.waiter@);
            assert(texts(fields@)[2] == e.dep@);
            assert(f(part@) == Some(e@));
            let ghost v = e@;
            out.push(e);
            assert(refs(out@) =~= before.push(v));
        } else {
            assert(f(part@) is None);
        }
    }
    assert(texts(parts@).take(parts.len() as int) =~= texts(parts@));
    out
}

/// Whether no field of an edge reference holds a separator.
pub open spec fn plain(r: EdgeRefView) -> bool {
    &&& !occurs(r.owner, '\u{1e}') && !occurs(r.owner, '\u{1f}')
    &&& !occurs(r.waiter, '\u{1e}') && !occurs(r.waiter, '\u{1f}')
    &&& !occurs(r.dep, '\u{1e}') && !occurs(r.dep, '\u{1f}')
}

/// What a record holds is the edge reference it was made from.
proof fn lemma_record_value(r: EdgeRefView)
    requires
        plain(r),
    ensures
        record_value(record(r)) == Some(r),
        !occurs(record(r), '\u{1e}'),
{
    let us = '\u{1f}';
    let head = r.owner + seq![us] + r.waiter;
    lemma_split_free(r.owner, us);
    lemma_split_append(r.owner, r.waiter, us);
    lemma_split_append(head, r.dep, us);
    assert(record(r) =~= head + seq![us] + r.dep);
    assert(record(r).len() > 0);
    let f = split(record(r), us);
    assert(f =~= seq![r.owner, r.waiter, r.dep]);
    if occurs(record(r), '\u{1e}') {
        let k = choose|k: int| 0 <= k < record(r).len() && record(r)[k] == '\u{1e}';
        let a = r.owner.len();
        let b = a + 1 + r.waiter.len();
        if k < a {
            assert(r.owner[k] == '\u{1e}');
        } else if k == a {
        } else if k < b {
            assert(r.waiter[k - a - 1] == '\u{1e}');
        } else if k == b {
        } else {
            assert(r.dep[k - b - 1] == '\u{1e}');
        }
    }
}

/// Mapping the records of a list back gives the list.
proof fn lemma_records(watch: Seq<EdgeRefView>)
    requires
        forall|i: int| 0 <= i < watch.len() ==> plain(#[trigger] watch[i]),
    ensures
        watch.map_values(|r: EdgeRefView| record(r)).filter_map(|r: Seq<char>| record_value(r))
            == watch,
    decreases watch.len(),
{
    let f = |r: Seq<char>| record_value(r);
    let all = watch.map_values(|r: EdgeRefView| record(r));
    if watch.len() == 0 {
        assert(all.filter_map(f) =~= watch);
    } else {
        let front = watch.drop_last();
        assert forall|i: int| 0 <= i < front.len() implies plain(#[trigger] front[i]) by {
            assert(front[i] == watch[i]);
        }
        lemma_records(front);
        assert(all.drop_last() =~= front.map_values(|r: EdgeRefView| record(r)));
        let n = all.len() - 1;
        all.lemma_filter_map_take_succ(f, n);
        assert(all.take(n + 1) =~= all);
        assert(all.take(n) =~= all.drop_last());
        assert(plain(watch[n]));
        lemma_record_value(watch[n]);
        assert(f(all[n]) == Some(watch[n]));
        assert(all.filter_map(f) =~= watch);
    }
}

/// A watch survives the environment: reading back what was written gives the
/// same edges in the same order, as long as no field holds a separator.
pub proof fn law_watch_roundtrip(watch: Seq<EdgeRefView>)
    requires
        forall|i: int| 0 <= i < watch.len() ==> plain(#[trigger] watch[i]),
    ensures
        watch_value(watch_text(watch)) == watch,
{
    let all = watch.map_values(|r: EdgeRefView| record(r));
    let f = |r: Seq<char>| record_value(r);
    if watch.len() == 0 {
        let s = watch_text(watch);
        assert(s =~= Seq::<char>::empty());
        let one = split(s, '\u{1e}');
        assert(one =~= seq![Seq::<char>::empty()]);
        one.lemma_filter_map_take_succ(f, 0);
        assert(one.take(1) =~= one);
        assert(one.take(0) =~= Seq::<Seq<char>>::empty());
        assert(f(one[0]) is None);
        assert(watch_value(s) =~= watch);
    } else {
        assert forall|i: int| 0 <= i < all.len() implies !occurs(#[trigger] all[i], '\u{1e}') by {
            assert(plain(watch[i]));
            lemma_record_value(watch[i]);
        }
        lemma_split_join(all, '\u{1e}');
        lemma_records(watch);
    }
}

/// Whether two graphs differ only in edges that leave `w`.
spec fn alike_off(g: Set<EdgeView>, h: Set<EdgeView>, w: Seq<char>) -> bool {
    forall|e: EdgeView| e.waiter != w ==> (#[trigger] g.contains(e) <==> h.contains(e))
}

/// Edges that leave a target do not matter for what leads to it.
proof fn lemma_path_off(g: Set<EdgeView>, h: Set<EdgeView>, p: Seq<Seq<char>>, w: Seq<char>)
    requires
        alike_off(g, h, w),
        is_path(g, false, p),
        p.last() == w,
    ensures
        reach(h, false, p[0], w),
    decreases p.len(),
{
    if p[0] == w {
        crate::reach::lemma_reach_self(h, false, w);
    } else {
        assert(p.len() >= 2);
        let tail = p.skip(1);
        assert forall|i: int| 0 <= i < tail.len() - 1 implies #[trigger] step(
            g,
            false,
            tail,
            i,
        ) by {
            assert(step(g, false, p, i + 1));
        }
        lemma_path_off(g, h, tail, w);
        assert(step(g, false, p, 0));
        let e = choose|e: EdgeView| #[trigger] g.contains(e) && e.waiter == p[0] && e.dep == p[1];
        assert(h.contains(e));
        assert(joined(h, false, p[0], p[1]));
        crate::reach::lemma_reach_self(h, false, p[0]);
        crate::reach::lemma_reach_push(h, false, p[0], p[0], p[1]);
        crate::reach::lemma_reach_trans(h, false, p[0], p[1], w);
    }
}

proof fn lemma_closes_off(g: Set<EdgeView>, h: Set<EdgeView>, e: EdgeView)
    requires
        alike_off(g, h, e.waiter),
    ensures
        closes(g, e) == closes(h, e),
{
    if closes(g, e) {
        let p = choose|p: Seq<Seq<char>>| #[trigger]
            is_path(g, false, p) && p[0] == e.dep && p.last() == e.waiter;
        lemma_path_off(g, h, p, e.waiter);
    }
    if closes(h, e) {
        let p = choose|p: Seq<Seq<char>>| #[trigger]
            is_path(h, false, p) && p[0] == e.dep && p.last() == e.waiter;
        assert(alike_off(h, g, e.waiter)) by {
            assert forall|f: EdgeView| f.waiter != e.waiter implies (#[trigger] h.contains(f)
                <==> g.contains(f)) by {
                assert(g.contains(f) <==> h.contains(f));
            }
        }
        lemma_path_off(h, g, p, e.waiter);
    }
}

/// Whether `f` is an edge of the batch that is new to `g` and closes no cycle in
/// `seen`.
spec fn batch_edge(
    g: Set<EdgeView>,
    seen: Set<EdgeView>,
    me: Seq<char>,
    waiter: Seq<char>,
    deps: Seq<Seq<char>>,
    kind: EdgeKind,
    f: EdgeView,
) -> bool {
    &&& !has_key(g, f)
    &&& !closes(seen, f)
    &&& exists|i: int| 0 <= i < deps.len() && f == wait_edge(me, waiter, #[trigger] deps[i], kind)
}

/// Whether `h` is `g` with the edges of the batch that close no cycle in `seen`.
spec fn with_batch(
    h: Set<EdgeView>,
    g: Set<EdgeView>,
    seen: Set<EdgeView>,
    me: Seq<char>,
    waiter: Seq<char>,
    deps: Seq<Seq<char>>,
    kind: EdgeKind,
) -> bool {
    forall|f: EdgeView| #[trigger]
        h.contains(f) <==> g.contains(f) || batch_edge(g, seen, me, waiter, deps, kind, f)
}

/// The outcomes of a batch whose cycles are looked for in `seen`.
spec fn outcomes(
    seen: Set<EdgeView>,
    me: Seq<char>,
    waiter: Seq<char>,
    deps: Seq<Seq<char>>,
    kind: EdgeKind,
) -> Seq<SoftOutcome> {
    Seq::new(
        deps.len(),
        |i: int|
            if closes(seen, wait_edge(me, waiter, deps[i], kind)) {
                SoftOutcome::Cycle
            } else {
                SoftOutcome::Inserted
            },
    )
}

proof fn lemma_batch_alike(
    h: Set<EdgeView>,
    g: Set<EdgeView>,
    seen: Set<EdgeView>,
    me: Seq<char>,
    waiter: Seq<char>,
    deps: Seq<Seq<char>>,
    kind: EdgeKind,
)
    requires
        with_batch(h, g, seen, me, waiter, deps, kind),
    ensures
        alike_off(h, g, lower(waiter)),
{
}

/// One more edge of a batch.
proof fn lemma_batch_push(
    h: Set<EdgeView>,
    g: Set<EdgeView>,
    seen: Set<EdgeView>,
    me: Seq<char>,
    waiter: Seq<char>,
    deps: Seq<Seq<char>>,
    kind: EdgeKind,
)
    requires
        deps.len() > 0,
        with_batch(h, g, seen, me, waiter, deps.drop_last(), kind),
    ensures
        ({
            let e = wait_edge(me, waiter, deps.last(), kind);
            &&& !closes(seen, e) ==> with_batch(put_new(h, e), g, seen, me, waiter, deps, kind)
            &&& closes(seen, e) ==> with_batch(h, g, seen, me, waiter, deps, kind)
        }),
{
    let front = deps.drop_last();
    let e = wait_edge(me, waiter, deps.last(), kind);
    assert forall|f: EdgeView| #[trigger]
        batch_edge(g, seen, me, waiter, deps, kind, f) <==> batch_edge(
            g,
            seen,
            me,
            waiter,
            front,
            kind,
            f,
        ) || (f == e && !has_key(g, f) && !closes(seen, f)) by {
        if batch_edge(g, seen, me, waiter, front, kind, f) {
            let i = choose|i: int|
                0 <= i < front.len() && f == wait_edge(me, waiter, #[trigger] front[i], kind);
            assert(deps[i] == front[i]);
        }
        if batch_edge(g, seen, me, waiter, deps, kind, f) {
            let i = choose|i: int|
                0 <= i < deps.len() && f == wait_edge(me, waiter, #[trigger] deps[i], kind);
            if i < front.len() {
                assert(front[i] == deps[i]);
            }
        }
        if f == e && !has_key(g, f) && !closes(seen, f) {
            assert(deps[deps.len() - 1] == deps.last());
        }
    }
    if !closes(seen, e) {
        assert(has_key(h, e) ==> h.contains(e) || has_key(g, e)) by {
            if has_key(h, e) {
                let f = choose|f: EdgeView| #[trigger] h.contains(f) && same_key(f, e);
                if !g.contains(f) {
                    assert(f == e);
                }
            }
        }
        assert(has_key(g, e) ==> has_key(h, e)) by {
            if has_key(g, e) {
                let f = choose|f: EdgeView| #[trigger] g.contains(f) && same_key(f, e);
                assert(h.contains(f));
            }
        }
        assert forall|f: EdgeView| #[trigger]
            put_new(h, e).contains(f) <==> g.contains(f) || batch_edge(
                g,
                seen,
                me,
                waiter,
                deps,
                kind,
                f,
            ) by {
            assert(h.contains(f) <==> g.contains(f) || batch_edge(
                g,
                seen,
                me,
                waiter,
                front,
                kind,
                f,
            ));
        }
    }
}

/// Nothing closes a cycle with a waiter that nothing leads to.
proof fn lemma_unreached(
    g: Set<EdgeView>,
    me: Seq<char>,
    waiter: Seq<char>,
    deps: Seq<Seq<char>>,
    kind: EdgeKind,
    i: int,
)
    requires
        nothing_leads_to(g, waiter, deps),
        0 <= i < deps.len(),
    ensures
        !closes(g, wait_edge(me, waiter, deps[i], kind)),
{
    let e = wait_edge(me, waiter, deps[i], kind);
    if closes(g, e) {
        let p = choose|p: Seq<Seq<char>>| #[trigger]
            is_path(g, false, p) && p[0] == e.dep && p.last() == e.waiter;
        assert(p.len() >= 2);
        assert(step(g, false, p, p.len() - 2));
        assert(joined(g, false, p[p.len() - 2], p.last()));
    }
}

proof fn lemma_leads_front(g: Set<EdgeView>, waiter: Seq<char>, deps: Seq<Seq<char>>)
    requires
        deps.len() > 0,
        nothing_leads_to(g, waiter, deps),
    ensures
        nothing_leads_to(g, waiter, deps.drop_last()),
{
    assert forall|i: int| 0 <= i < deps.len() - 1 implies lower(
        #[trigger] deps.drop_last()[i],
    ) != lower(waiter) by {
        assert(deps.drop_last()[i] == deps[i]);
    }
}

/// What a batch of soft inserts comes to: the checks do not depend on each other,
/// since edges that leave the waiter do not lead to it.
proof fn lemma_soft_run(
    g: Set<EdgeView>,
    me: Seq<char>,
    waiter: Seq<char>,
    deps: Seq<Seq<char>>,
    kind: EdgeKind,
)
    requires
        sentinel(waiter) ==> nothing_leads_to(g, waiter, deps),
    ensures
        ({
            let run = soft_run(g, me, waiter, deps, kind);
            &&& with_batch(run.0, g, g, me, waiter, deps, kind)
            &&& run.1 == outcomes(g, me, waiter, deps, kind)
        }),
    decreases deps.len(),
{
    let run = soft_run(g, me, waiter, deps, kind);
    if deps.len() == 0 {
        assert(run.1 =~= outcomes(g, me, waiter, deps, kind));
    } else {
        let init = deps.drop_last();
        if sentinel(waiter) {
            lemma_leads_front(g, waiter, deps);
            lemma_unreached(g, me, waiter, deps, kind, deps.len() - 1);
        }
        lemma_soft_run(g, me, waiter, init, kind);
        let front = soft_run(g, me, waiter, init, kind);
        let e = wait_edge(me, waiter, deps.last(), kind);
        lemma_batch_alike(front.0, g, g, me, waiter, init, kind);
        lemma_closes_off(front.0, g, e);
        lemma_batch_push(front.0, g, g, me, waiter, deps, kind);
        assert(run.1 =~= outcomes(g, me, waiter, deps, kind));
    }
}

/// Collecting keeps the edges of a batch, and what closed no cycle closes none.
proof fn lemma_batch_collected(
    h: Set<EdgeView>,
    g: Set<EdgeView>,
    me: Seq<char>,
    waiter: Seq<char>,
    deps: Seq<Seq<char>>,
    kind: EdgeKind,
    dead: Seq<Seq<char>>,
)
    requires
        with_batch(h, g, g, me, waiter, deps, kind),
    ensures
        ({
            let low = collected(g, me, dead);
            &&& alike_off(collected(h, me, dead), low, lower(waiter))
            &&& forall|f: EdgeView|
                f.owner == me ==> (#[trigger] has_key(low, f) <==> has_key(g, f))
            &&& forall|f: EdgeView| #[trigger] closes(low, f) ==> closes(g, f)
            &&& forall|f: EdgeView| #[trigger]
                collected(h, me, dead).contains(f) <==> low.contains(f) || batch_edge(
                    g,
                    g,
                    me,
                    waiter,
                    deps,
                    kind,
                    f,
                )
        }),
{
    let low = collected(g, me, dead);
    assert forall|f: EdgeView| f.owner == me implies (#[trigger] has_key(low, f) <==> has_key(
        g,
        f,
    )) by {
        if has_key(g, f) {
            let x = choose|x: EdgeView| #[trigger] g.contains(x) && same_key(x, f);
            assert(low.contains(x));
        }
        if has_key(low, f) {
            let x = choose|x: EdgeView| #[trigger] low.contains(x) && same_key(x, f);
            assert(g.contains(x));
        }
    }
    assert forall|f: EdgeView| #[trigger] closes(low, f) implies closes(g, f) by {
        let p = choose|p: Seq<Seq<char>>| #[trigger]
            is_path(low, false, p) && p[0] == f.dep && p.last() == f.waiter;
        crate::reach::lemma_path_grows(low, g, false, p);
    }
}

/// What single soft inserts in turn come to: the batch on the graph as it is, if
/// nothing is refused there, else on the collected one.
proof fn lemma_soft_turns(
    g: Set<EdgeView>,
    me: Seq<char>,
    waiter: Seq<char>,
    deps: Seq<Seq<char>>,
    kind: EdgeKind,
    dead: Seq<Seq<char>>,
)
    ensures
        ({
            let turns = soft_turns(g, me, waiter, deps, kind, dead);
            let low = collected(g, me, dead);
            if all_inserted(outcomes(g, me, waiter, deps, kind)) {
                with_batch(turns.0, g, g, me, waiter, deps, kind) && turns.1 == outcomes(
                    g,
                    me,
                    waiter,
                    deps,
                    kind,
                )
            } else {
                with_batch(turns.0, low, low, me, waiter, deps, kind) && turns.1 == outcomes(
                    low,
                    me,
                    waiter,
                    deps,
                    kind,
                )
            }
        }),
    decreases deps.len(),
{
    let turns = soft_turns(g, me, waiter, deps, kind, dead);
    let low = collected(g, me, dead);
    let here = outcomes(g, me, waiter, deps, kind);
    let there = outcomes(low, me, waiter, deps, kind);
    if deps.len() == 0 {
        assert(turns.1 =~= here);
    } else {
        let init = deps.drop_last();
        lemma_soft_turns(g, me, waiter, init, kind, dead);
        let front = soft_turns(g, me, waiter, init, kind, dead);
        let e = wait_edge(me, waiter, deps.last(), kind);
        let was_here = outcomes(g, me, waiter, init, kind);
        let was_there = outcomes(low, me, waiter, init, kind);
        assert(here.drop_last() =~= was_here);
        assert(there.drop_last() =~= was_there);
        assert(all_inserted(here) <==> all_inserted(was_here) && !closes(g, e)) by {
            if all_inserted(here) {
                assert(here[deps.len() - 1] is Inserted);
                assert forall|i: int| 0 <= i < was_here.len() implies #[trigger] was_here[i]
                    is Inserted by {
                    assert(here[i] is Inserted);
                }
            }
            if all_inserted(was_here) && !closes(g, e) {
                assert forall|i: int| 0 <= i < here.len() implies #[trigger] here[i] is Inserted by {
                    if i < was_here.len() {
                        assert(was_here[i] is Inserted);
                    }
                }
            }
        }
        if all_inserted(was_here) {
            lemma_batch_alike(front.0, g, g, me, waiter, init, kind);
            lemma_closes_off(front.0, g, e);
            lemma_batch_push(front.0, g, g, me, waiter, deps, kind);
            if closes(g, e) {
                let mid = collected(front.0, me, dead);
                lemma_batch_collected(front.0, g, me, waiter, init, kind, dead);
                assert(with_batch(mid, low, low, me, waiter, init, kind)) by {
                    assert forall|f: EdgeView| #[trigger] mid.contains(f) <==> low.contains(f)
                        || batch_edge(low, low, me, waiter, init, kind, f) by {
                        if batch_edge(low, low, me, waiter, init, kind, f) {
                            let i = choose|i: int|
                                0 <= i < init.len() && f == wait_edge(
                                    me,
                                    waiter,
                                    #[trigger] init[i],
                                    kind,
                                );
                            assert(was_here[i] is Inserted);
                            assert(batch_edge(g, g, me, waiter, init, kind, f));
                        }
                    }
                }
                lemma_closes_off(mid, low, e);
                lemma_batch_push(mid, low, low, me, waiter, deps, kind);
                assert(was_here =~= was_there) by {
                    assert forall|i: int| 0 <= i < was_here.len() implies was_here[i]
                        == was_there[i] by {
                        assert(was_here[i] is Inserted);
                        assert(closes(low, wait_edge(me, waiter, init[i], kind)) ==> closes(
                            g,
                            wait_edge(me, waiter, init[i], kind),
                        ));
                    }
                }
                assert(turns.1 =~= there);
            } else {
                assert(turns.1 =~= here);
            }
        } else {
            lemma_batch_alike(front.0, low, low, me, waiter, init, kind);
            lemma_closes_off(front.0, low, e);
            lemma_batch_push(front.0, low, low, me, waiter, deps, kind);
            assert(collected(front.0, me, dead) =~= front.0);
            assert(turns.1 =~= there);
        }
    }
}

/// A batch of soft inserts comes to the same as single ones in turn, the collection of
/// dead owners included: the same outcomes, and the same graph. A refusal does not
/// stop those that follow. For a sentinel waiter, as long as nothing leads to it.
pub proof fn law_batch_is_singles_in_turn(
    g: Set<EdgeView>,
    me: Seq<char>,
    waiter: Seq<char>,
    deps: Seq<Seq<char>>,
    kind: EdgeKind,
    dead: Seq<Seq<char>>,
)
    requires
        sentinel(waiter) ==> nothing_leads_to(g, waiter, deps),
    ensures
        soft_batch(g, me, waiter, deps, kind, dead) == soft_turns(
            g,
            me,
            waiter,
            deps,
            kind,
            dead,
        ),
        soft_batch(g, me, waiter, deps, kind, dead).1.len() == deps.len(),
        deps.len() == 0 ==> soft_batch(g, me, waiter, deps, kind, dead).0 == g,
{
    let batch = soft_batch(g, me, waiter, deps, kind, dead);
    let turns = soft_turns(g, me, waiter, deps, kind, dead);
    let low = collected(g, me, dead);
    lemma_soft_run(g, me, waiter, deps, kind);
    lemma_soft_turns(g, me, waiter, deps, kind, dead);
    let first = soft_run(g, me, waiter, deps, kind);
    if all_inserted(first.1) {
        assert(batch.0 =~= turns.0);
    } else {
        let mid = collected(first.0, me, dead);
        lemma_batch_collected(first.0, g, me, waiter, deps, kind, dead);
        if sentinel(waiter) {
            let i = choose|i: int| 0 <= i < first.1.len() && !(#[trigger] first.1[i] is Inserted);
            lemma_unreached(g, me, waiter, deps, kind, i);
        }
        lemma_soft_run(mid, me, waiter, deps, kind);
        assert forall|i: int| 0 <= i < deps.len() implies closes(
            mid,
            wait_edge(me, waiter, #[trigger] deps[i], kind),
        ) == closes(low, wait_edge(me, waiter, deps[i], kind)) by {
            lemma_closes_off(mid, low, wait_edge(me, waiter, deps[i], kind));
        }
        assert(batch.1 =~= turns.1);
        assert forall|f: EdgeView| batch.0.contains(f) <==> turns.0.contains(f) by {
            assert(batch.0.contains(f) <==> mid.contains(f) || batch_edge(
                mid,
                mid,
                me,
                waiter,
                deps,
                kind,
                f,
            ));
            if batch_edge(mid, mid, me, waiter, deps, kind, f) {
                lemma_closes_off(mid, low, f);
                assert(has_key(low, f) ==> has_key(mid, f)) by {
                    if has_key(low, f) {
                        let x = choose|x: EdgeView| #[trigger] low.contains(x) && same_key(x, f);
                        assert(mid.contains(x));
                    }
                }
                assert(batch_edge(low, low, me, waiter, deps, kind, f));
            }
            if batch_edge(g, g, me, waiter, deps, kind, f) {
                assert(closes(low, f) ==> closes(g, f));
                assert(batch_edge(low, low, me, waiter, deps, kind, f));
            }
            if batch_edge(low, low, me, waiter, deps, kind, f) && !mid.contains(f) {
                lemma_closes_off(mid, low, f);
                assert(!has_key(mid, f)) by {
                    if has_key(mid, f) {
                        let x = choose|x: EdgeView| #[trigger] mid.contains(x) && same_key(x, f);
                        if low.contains(x) {
                            assert(has_key(low, f));
                        } else {
                            assert(x == f);
                        }
                    }
                }
                assert(batch_edge(mid, mid, me, waiter, deps, kind, f));
            }
        }
        assert(batch.0 =~= turns.0);
    }
}

/// An eviction makes the graph strictly smaller, so retrying a demand ends:
/// there are at most as many evictions in a row as there are edges.
pub proof fn law_eviction_progress(g: Set<EdgeView>, x: EdgeView)
    requires
        g.finite(),
        g.contains(x),
    ensures
        evicted(g, x).subset_of(g),
        evicted(g, x).len() < g.len(),
        evicted(g, x).finite(),
{
    assert(g.remove(x).len() == g.len() - 1);
    vstd::set_lib::lemma_len_subset(evicted(g, x), g.remove(x));
}

/// A demand supersedes a creation edge in place: the edge stays alive, so the
/// watch on it does not fire, and it can no longer be aborted.
pub proof fn law_upgrade_is_final(g: Set<EdgeView>, r: EdgeRefView)
    ensures
        ({
            let e = EdgeView {
                owner: r.owner,
                waiter: r.waiter,
                dep: r.dep,
                kind: EdgeKind::Demand,
            };
            &&& alive(put_over(g, e), r)
            &&& !put_over(g, e).contains(creation_at(r))
            &&& forall|o: EdgeRefView| o != r ==> (#[trigger] alive(put_over(g, e), o) <==> alive(
                g,
                o,
            ))
        }),
{
    let e = EdgeView { owner: r.owner, waiter: r.waiter, dep: r.dep, kind: EdgeKind::Demand };
    let h = put_over(g, e);
    assert(h.contains(e));
    assert(same_key(creation_at(r), e));
    assert forall|o: EdgeRefView| o != r implies (#[trigger] alive(h, o) <==> alive(g, o)) by {
        if alive(g, o) {
            let f = choose|f: EdgeView| #[trigger]
                g.contains(f) && f.owner == o.owner && f.waiter == o.waiter && f.dep == o.dep;
            assert(h.contains(f));
        }
        if alive(h, o) {
            let f = choose|f: EdgeView| #[trigger]
                h.contains(f) && f.owner == o.owner && f.waiter == o.waiter && f.dep == o.dep;
            assert(g.contains(f));
        }
    }
}

/// A graph that waits nowhere else holds a path of any length.
proof fn lemma_long_path(g: Set<EdgeView>, n: nat) -> (p: Seq<Seq<char>>)
    requires
        exists|e: EdgeView| g.contains(e),
        forall|e: EdgeView| #[trigger]
            g.contains(e) ==> exists|f: EdgeView| #[trigger] g.contains(f) && f.waiter == e.dep,
    ensures
        is_path(g, false, p),
        p.len() == n + 1,
        forall|i: int|
            0 <= i < p.len() ==> exists|e: EdgeView| #[trigger]
                g.contains(e) && e.dep == #[trigger] p[i],
    decreases n,
{
    if n == 0 {
        let e = choose|e: EdgeView| g.contains(e);
        let p = seq![e.dep];
        assert(is_path(g, false, p));
        p
    } else {
        let p = lemma_long_path(g, (n - 1) as nat);
        let e = choose|e: EdgeView| #[trigger] g.contains(e) && e.dep == p[p.len() - 1];
        let f = choose|f: EdgeView| #[trigger] g.contains(f) && f.waiter == e.dep;
        let q = p.push(f.dep);
        assert forall|i: int| 0 <= i < q.len() - 1 implies #[trigger] step(g, false, q, i) by {
            if i < p.len() - 1 {
                assert(step(g, false, p, i));
            } else {
                assert(joined(g, false, q[i], q[i + 1]));
            }
        }
        assert forall|i: int| 0 <= i < q.len() implies exists|e: EdgeView| #[trigger]
            g.contains(e) && e.dep == #[trigger] q[i] by {
            if i < p.len() {
                assert(q[i] == p[i]);
            } else {
                assert(g.contains(f) && f.dep == q[i]);
            }
        }
        q
    }
}

/// A list longer than the set its items come from holds some item twice.
proof fn lemma_repeats(p: Seq<Seq<char>>, names: Set<Seq<char>>) -> (r: (int, int))
    requires
        names.finite(),
        p.len() > names.len(),
        forall|i: int| 0 <= i < p.len() ==> names.contains(#[trigger] p[i]),
    ensures
        0 <= r.0 < r.1 < p.len(),
        p[r.0] == p[r.1],
{
    if p.no_duplicates() {
        p.unique_seq_to_set();
        assert(p.to_set().subset_of(names));
        vstd::set_lib::lemma_len_subset(p.to_set(), names);
    }
    let (i, j) = choose|i: int, j: int|
        0 <= i < p.len() && 0 <= j < p.len() && i != j && p[i] == p[j];
    if i < j {
        (i, j)
    } else {
        (j, i)
    }
}

/// If everything that is waited for waits itself, there is a cycle.
proof fn lemma_no_sink_is_cyclic(g: Set<EdgeView>)
    requires
        g.finite(),
        exists|e: EdgeView| g.contains(e),
        forall|e: EdgeView| #[trigger]
            g.contains(e) ==> exists|f: EdgeView| #[trigger] g.contains(f) && f.waiter == e.dep,
    ensures
        !acyclic(g),
{
    let dep = |e: EdgeView| e.dep;
    let names = g.map(dep);
    g.lemma_map_finite(dep);
    let p = lemma_long_path(g, names.len());
    assert forall|i: int| 0 <= i < p.len() implies names.contains(#[trigger] p[i]) by {
        let e = choose|e: EdgeView| #[trigger] g.contains(e) && e.dep == p[i];
        assert(names.contains(dep(e)));
    }
    let (a, b) = lemma_repeats(p, names);
    let q = p.subrange(a, b + 1);
    lemma_path_piece(g, false, p, a, b + 1);
    assert(q[0] == p[a] && q.last() == p[b] && q.len() >= 2);
}

/// Waits cannot deadlock: as long as the graph is acyclic, something that is
/// waited for waits for nothing itself.
pub proof fn law_someone_can_proceed(g: Set<EdgeView>)
    requires
        acyclic(g),
        g.finite(),
        exists|e: EdgeView| g.contains(e),
    ensures
        exists|e: EdgeView| #[trigger]
            g.contains(e) && forall|f: EdgeView| #[trigger] g.contains(f) ==> f.waiter != e.dep,
{
    if forall|e: EdgeView| #[trigger]
        g.contains(e) ==> exists|f: EdgeView| #[trigger] g.contains(f) && f.waiter == e.dep {
        lemma_no_sink_is_cyclic(g);
    }
}

impl WaitGraph {
    /// As long as the graph is acyclic, which every operation keeps it, some
    /// target that is waited for can proceed.
    pub proof fn law_no_deadlock(&self)
        requires
            acyclic(self@),
            exists|e: EdgeView| self@.contains(e),
        ensures
            exists|e: EdgeView| #[trigger]
                self@.contains(e) && forall|f: EdgeView| #[trigger]
                    self@.contains(f) ==> f.waiter != e.dep,
    {
        vstd::seq_lib::seq_to_set_is_finite(rows(self.edges@));
        law_someone_can_proceed(self@);
    }
}

/// What two graphs agree on of the ways between nodes.
proof fn lemma_ways_stay(g: Set<EdgeView>, h: Set<EdgeView>, a: Seq<char>, b: Seq<char>)
    requires
        forall|x: Seq<char>, y: Seq<char>| #[trigger]
            joined(g, false, x, y) ==> joined(h, false, x, y),
        reach(g, false, a, b),
    ensures
        reach(h, false, a, b),
{
    let p = choose|p: Seq<Seq<char>>| #[trigger]
        is_path(g, false, p) && p[0] == a && p.last() == b;
    assert forall|i: int| 0 <= i < p.len() - 1 implies #[trigger] step(h, false, p, i) by {
        assert(step(g, false, p, i));
        assert(joined(g, false, p[i], p[i + 1]));
    }
    assert(is_path(h, false, p));
}

/// An edge that is put into a graph is found there, whatever its key held before; a soft one
/// yields to what the key held, a demand does not. No other edge comes or goes, and no way is
/// lost.
pub proof fn law_edges_are_put(g: Set<EdgeView>, e: EdgeView, f: EdgeView)
    ensures
        put_over(g, e).contains(e),
        has_key(put_new(g, e), e),
        !has_key(g, e) ==> put_new(g, e).contains(e),
        has_key(g, e) ==> put_new(g, e) == g,
        !same_key(f, e) ==> (put_over(g, e).contains(f) <==> g.contains(f)),
        !same_key(f, e) ==> (put_new(g, e).contains(f) <==> g.contains(f)),
        same_key(f, e) && f != e ==> !put_over(g, e).contains(f),
        keyed(g) ==> keyed(put_new(g, e)) && keyed(put_over(g, e)),
        forall|x: Seq<char>, y: Seq<char>| #[trigger]
            joined(g, false, x, y) ==> joined(put_over(g, e), false, x, y) && joined(
                put_new(g, e),
                false,
                x,
                y,
            ),
{
    if !has_key(g, e) {
        assert(put_new(g, e).contains(e) && same_key(e, e));
    }
    assert forall|x: Seq<char>, y: Seq<char>| #[trigger] joined(g, false, x, y) implies joined(
        put_over(g, e),
        false,
        x,
        y,
    ) && joined(put_new(g, e), false, x, y) by {
        let k = choose|k: EdgeView| #[trigger] g.contains(k) && k.waiter == x && k.dep == y;
        assert(put_new(g, e).contains(k));
        if same_key(k, e) {
            assert(put_over(g, e).contains(e));
        } else {
            assert(put_over(g, e).contains(k));
        }
    }
}

/// Only the edges of dead owners are collected, and never one's own.
pub proof fn law_only_the_dead_are_collected(
    g: Set<EdgeView>,
    me: Seq<char>,
    dead: Seq<Seq<char>>,
    e: EdgeView,
)
    ensures
        collected(g, me, dead).subset_of(g),
        g.contains(e) && e.owner == me ==> collected(g, me, dead).contains(e),
        g.contains(e) && !dead.contains(e.owner) ==> collected(g, me, dead).contains(e),
        dead.contains(e.owner) && e.owner != me ==> !collected(g, me, dead).contains(e),
{
}

/// A soft wait is refused exactly if it would close a cycle among the edges of those that live;
/// else it is recorded. Whatever is decided, no edge of the living is lost, no other is added,
/// and a graph without cycles has none afterwards.
pub proof fn law_soft_wait_is_refused_for_a_cycle(
    g: Set<EdgeView>,
    e: EdgeView,
    dead: Seq<Seq<char>>,
    f: EdgeView,
)
    ensures
        soft_once(g, e, dead).1 is Cycle <==> reach(
            collected(g, e.owner, dead),
            false,
            e.dep,
            e.waiter,
        ),
        soft_once(g, e, dead).1 is Inserted ==> has_key(soft_once(g, e, dead).0, e),
        soft_once(g, e, dead).0.contains(f) ==> g.contains(f) || f == e,
        g.contains(f) && (f.owner == e.owner || !dead.contains(f.owner)) ==> soft_once(
            g,
            e,
            dead,
        ).0.contains(f),
        soft_once(g, e, dead).1 is Cycle && f == e && !g.contains(e) ==> !soft_once(
            g,
            e,
            dead,
        ).0.contains(f),
        acyclic(g) ==> acyclic(soft_once(g, e, dead).0),
{
    let low = collected(g, e.owner, dead);
    if reach(low, false, e.dep, e.waiter) {
        let p = choose|p: Seq<Seq<char>>| #[trigger]
            is_path(low, false, p) && p[0] == e.dep && p.last() == e.waiter;
        crate::reach::lemma_path_grows(low, g, false, p);
    }
    law_edges_are_put(g, e, f);
    law_edges_are_put(low, e, f);
    if acyclic(g) {
        lemma_acyclic_shrinks(low, g);
        if !closes(g, e) {
            lemma_put_acyclic(g, e);
        } else if !closes(low, e) {
            lemma_put_acyclic(low, e);
        }
    }
}

/// A batch of demands tells of each dependency whether its edge stands: those it took stand as
/// demands, those it left out would close a cycle. Nothing else changes: no other edge comes or
/// goes.
pub proof fn law_demands_of_a_batch(
    g: Set<EdgeView>,
    me: Seq<char>,
    waiter: Seq<char>,
    deps: Seq<Seq<char>>,
    i: int,
)
    requires
        0 <= i < deps.len(),
    ensures
        ({
            let (after, taken) = demand_run(g, me, waiter, deps);
            let e = wait_edge(me, waiter, deps[i], EdgeKind::Demand);
            &&& taken.len() == deps.len()
            &&& taken[i] ==> after.contains(e)
            &&& !taken[i] ==> reach(after, false, e.dep, e.waiter)
            &&& forall|f: EdgeView| #[trigger]
                after.contains(f) && !g.contains(f) ==> f.kind is Demand && f.owner == me
                    && f.waiter == lower(waiter) && exists|k: int|
                    0 <= k < deps.len() && f.dep == lower(#[trigger] deps[k])
            &&& forall|f: EdgeView| #[trigger]
                g.contains(f) && !(f.owner == me && f.waiter == lower(waiter)) ==> after.contains(
                    f,
                )
            &&& acyclic(g) ==> acyclic(after)
        }),
{
    lemma_demand_run(g, me, waiter, deps);
    lemma_demand_at(g, me, waiter, deps, i);
}

proof fn lemma_demand_run(
    g: Set<EdgeView>,
    me: Seq<char>,
    waiter: Seq<char>,
    deps: Seq<Seq<char>>,
)
    ensures
        ({
            let (after, taken) = demand_run(g, me, waiter, deps);
            &&& taken.len() == deps.len()
            &&& forall|f: EdgeView| #[trigger]
                after.contains(f) && !g.contains(f) ==> f.kind is Demand && f.owner == me
                    && f.waiter == lower(waiter) && exists|k: int|
                    0 <= k < deps.len() && f.dep == lower(#[trigger] deps[k])
            &&& forall|f: EdgeView| #[trigger]
                g.contains(f) && !(f.owner == me && f.waiter == lower(waiter)) ==> after.contains(
                    f,
                )
            &&& acyclic(g) ==> acyclic(after)
        }),
    decreases deps.len(),
{
    if deps.len() > 0 {
        let init = deps.drop_last();
        lemma_demand_run(g, me, waiter, init);
        let front = demand_run(g, me, waiter, init);
        let after = demand_run(g, me, waiter, deps).0;
        let e = wait_edge(me, waiter, deps.last(), EdgeKind::Demand);
        if !closes(front.0, e) {
            lemma_put_acyclic(front.0, e);
        }
        assert forall|f: EdgeView| #[trigger]
            after.contains(f) && !g.contains(f) implies f.kind is Demand && f.owner == me
            && f.waiter == lower(waiter) && exists|k: int|
            0 <= k < deps.len() && f.dep == lower(#[trigger] deps[k]) by {
            if f == e {
                assert(deps[deps.len() - 1] == deps.last());
            } else {
                assert(front.0.contains(f));
                let k = choose|k: int| 0 <= k < init.len() && f.dep == lower(#[trigger] init[k]);
                assert(deps[k] == init[k]);
            }
        }
        assert forall|f: EdgeView| #[trigger]
            g.contains(f) && !(f.owner == me && f.waiter == lower(waiter)) implies after.contains(
            f,
        ) by {
            assert(front.0.contains(f));
        }
    }
}

proof fn lemma_demand_at(
    g: Set<EdgeView>,
    me: Seq<char>,
    waiter: Seq<char>,
    deps: Seq<Seq<char>>,
    i: int,
)
    requires
        0 <= i < deps.len(),
    ensures
        ({
            let (after, taken) = demand_run(g, me, waiter, deps);
            let e = wait_edge(me, waiter, deps[i], EdgeKind::Demand);
            &&& taken[i] ==> after.contains(e)
            &&& !taken[i] ==> reach(after, false, e.dep, e.waiter)
        }),
    decreases deps.len(),
{
    let init = deps.drop_last();
    lemma_demand_run(g, me, waiter, init);
    let front = demand_run(g, me, waiter, init);
    let (after, taken) = demand_run(g, me, waiter, deps);
    let last = wait_edge(me, waiter, deps.last(), EdgeKind::Demand);
    let e = wait_edge(me, waiter, deps[i], EdgeKind::Demand);
    law_edges_are_put(front.0, last, e);
    if i < init.len() {
        lemma_demand_at(g, me, waiter, init, i);
        assert(init[i] == deps[i]);
        assert(taken[i] == front.1[i]);
        if !taken[i] {
            lemma_ways_stay(front.0, after, e.dep, e.waiter);
        } else if same_key(e, last) {
            assert(e == last);
        }
    }
}

/// An eviction takes the edge and, if the edge created a speculative instance, what that instance
/// waits for; nothing else goes.
pub proof fn law_eviction_takes_the_instance(g: Set<EdgeView>, x: EdgeView, f: EdgeView)
    ensures
        !evicted(g, x).contains(x),
        evicted(g, x).contains(f) ==> g.contains(f),
        x.kind is Creation && f.waiter == x.dep ==> !evicted(g, x).contains(f),
        g.contains(f) && f != x && f.waiter != x.dep ==> evicted(g, x).contains(f),
        g.contains(f) && f != x && !(x.kind is Creation) ==> evicted(g, x).contains(f),
{
}

/// Which edges a demand may push aside: soft ones on a way from what is demanded back to who
/// demands it. That of a check goes first: one that created an instance goes only where no check
/// lies on such a way.
pub proof fn law_checks_are_pushed_aside_first(
    g: Set<EdgeView>,
    d: Seq<char>,
    w: Seq<char>,
    x: EdgeView,
)
    ensures
        g.contains(x) && x.kind is Checker && reach(g, false, d, x.waiter) && reach(
            g,
            false,
            x.dep,
            w,
        ) ==> checker_between(g, d, w),
        checker_between(g, d, w) ==> exists|y: EdgeView| #[trigger]
            g.contains(y) && y.kind is Checker && reach(g, false, d, y.waiter) && reach(
                g,
                false,
                y.dep,
                w,
            ),
        soft_between(g, d, w, x) ==> !(x.kind is Demand) && reach(g, false, d, w),
        g.contains(x) && x.kind is Creation && reach(g, false, d, x.waiter) && reach(
            g,
            false,
            x.dep,
            w,
        ) ==> soft_between(g, d, w, x),
{
    if soft_between(g, d, w, x) {
        assert(joined(g, false, x.waiter, x.dep));
        lemma_reach_push(g, false, d, x.waiter, x.dep);
        crate::reach::lemma_reach_trans(g, false, d, x.dep, w);
    }
}

/// Waits are recorded under names up to letter case: the same wait said in another case is the
/// same edge, and different waits are different edges.
pub proof fn law_waits_up_to_case(
    me: Seq<char>,
    a: Seq<char>,
    b: Seq<char>,
    c: Seq<char>,
    d: Seq<char>,
    kind: EdgeKind,
)
    ensures
        wait_edge(me, a, b, kind) == wait_edge(me, c, d, kind) <==> lower(a) == lower(c) && lower(b)
            == lower(d),
        wait_edge(me, a, b, kind).owner == me && wait_edge(me, a, b, kind).kind == kind,
        wait_edge(me, a, b, kind).waiter == lower(a) && wait_edge(me, a, b, kind).dep == lower(b),
        a == b || lower(a) == lower(b) ==> closes(Set::empty(), wait_edge(me, a, b, kind)),
{
    if lower(a) == lower(b) {
        lemma_reach_self(Set::<EdgeView>::empty(), false, lower(b));
    }
}

/// A graph that is loaded holds the rows it was made of, one for each key: the first.
pub proof fn law_first_row_of_a_key_counts(list: Seq<EdgeView>, i: int)
    requires
        0 <= i < list.len(),
    ensures
        keyed(loaded(list)),
        has_key(loaded(list), list[i]),
        (forall|k: int| 0 <= k < i ==> !same_key(#[trigger] list[k], list[i])) ==> loaded(
            list,
        ).contains(list[i]),
        forall|f: EdgeView| #[trigger] loaded(list).contains(f) ==> list.contains(f),
    decreases list.len(),
{
    let front = list.drop_last();
    lemma_loaded(front);
    lemma_loaded(list);
    law_edges_are_put(loaded(front), list.last(), list[i]);
    if i < front.len() {
        law_first_row_of_a_key_counts(front, i);
        assert(front[i] == list[i]);
        let f = choose|f: EdgeView| #[trigger]
            loaded(front).contains(f) && same_key(f, list[i]);
        assert(loaded(list).contains(f));
        if forall|k: int| 0 <= k < i ==> !same_key(#[trigger] list[k], list[i]) {
            assert forall|k: int| 0 <= k < i implies !same_key(#[trigger] front[k], front[i]) by {
                assert(front[k] == list[k]);
            }
        }
    } else if forall|k: int| 0 <= k < i ==> !same_key(#[trigger] list[k], list[i]) {
        if has_key(loaded(front), list.last()) {
            let f = choose|f: EdgeView| #[trigger]
                loaded(front).contains(f) && same_key(f, list.last());
            let k = choose|k: int| 0 <= k < front.len() && front[k] == f;
            assert(list[k] == f);
        }
    }
}

proof fn lemma_loaded(list: Seq<EdgeView>)
    ensures
        keyed(loaded(list)),
        forall|f: EdgeView| #[trigger] loaded(list).contains(f) ==> list.contains(f),
    decreases list.len(),
{
    if list.len() > 0 {
        let front = list.drop_last();
        lemma_loaded(front);
        law_edges_are_put(loaded(front), list.last(), list.last());
        assert forall|f: EdgeView| #[trigger] loaded(list).contains(f) implies list.contains(f) by {
            if loaded(front).contains(f) {
                let k = choose|k: int| 0 <= k < front.len() && front[k] == f;
                assert(list[k] == f);
            } else {
                assert(list[list.len() - 1] == f);
            }
        }
    }
}

/// Different owners prove that they live by different locks.
pub proof fn law_one_lock_per_owner(a: Seq<char>, b: Seq<char>)
    ensures
        lock_name(a) == lock_name(b) ==> a == b,
{
    let n = "w."@.len() as int;
    let m = ".lock"@.len() as int;
    assert(lock_name(a).subrange(n, lock_name(a).len() - m) =~= a);
    assert(lock_name(b).subrange(n, lock_name(b).len() - m) =~= b);
}

}
