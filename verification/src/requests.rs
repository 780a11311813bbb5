//! What the commands within a do-file, and the top-level command, come to:
//! which dependencies are built, which edges are recorded, and how a demand
//! enters the waits-for graph.

use crate::building::BuildError;
use crate::db::{
    dep_view, file_view, ops, same_name, stamp_view, DbOp, DepKind, DepRow, FileRow, OpView,
};
use crate::logs::{Event, EventView, RUN_TARGET};
use crate::stamp::{Stamp, StampView};
use crate::text::{copy_texts, same_folded, texts};
use crate::waits::DemandOutcome;
use vstd::prelude::*;

verus! {

/// A dependency that a do-file asked for.
#[derive(Debug, PartialEq, Eq)]
pub struct Wanted {
    pub dep: String,
    /// Whether redo can build it.
    pub buildable: bool,
    /// Whether something is there under its name.
    pub exists: bool,
}

/// The names of the dependencies that are buildable, or that are not.
pub open spec fn wanted_names(items: Seq<Wanted>, buildable: bool) -> Seq<Seq<char>>
    decreases items.len(),
{
    if items.len() == 0 {
        Seq::empty()
    } else {
        let front = wanted_names(items.drop_last(), buildable);
        if items.last().buildable == buildable {
            front.push(items.last().dep@)
        } else {
            front
        }
    }
}

/// Whether nothing stands behind a dependency.
pub open spec fn missing(w: Wanted) -> bool {
    !w.buildable && !w.exists
}

/// Which of the dependencies that a do-file asked for are sources, to be
/// stamped, and which are targets, to be brought up to date; it is an error if
/// neither a do-file nor a file stands behind one.
pub fn ifchange(items: &[Wanted]) -> (r: Result<(Vec<String>, Vec<String>), BuildError>)
    ensures
        match r {
            Ok((sources, targets)) => (forall|i: int|
                0 <= i < items.len() ==> !missing(#[trigger] items@[i])) && texts(sources@)
                == wanted_names(items@, false) && texts(targets@) == wanted_names(items@, true),
            Err(e) => exists|i: int|
                0 <= i < items.len() && missing(#[trigger] items@[i]) && (forall|j: int|
                    0 <= j < i ==> !missing(#[trigger] items@[j])) && (
                e matches BuildError::NoSource { dep } && dep@ == items@[i].dep@),
        },
{
    let mut sources: Vec<String> = Vec::new();
    let mut targets: Vec<String> = Vec::new();
    assert(texts(sources@) =~= Seq::<Seq<char>>::empty());
    assert(texts(targets@) =~= Seq::<Seq<char>>::empty());
    for i in 0..items.len()
        invariant
            forall|k: int| 0 <= k < i ==> !missing(#[trigger] items@[k]),
            texts(sources@) == wanted_names(items@.take(i as int), false),
            texts(targets@) == wanted_names(items@.take(i as int), true),
    {
        let w = &items[i];
        assert(items@.take(i + 1).drop_last() =~= items@.take(i as int));
        assert(items@.take(i + 1).last() == items@[i as int]);
        if !w.buildable && !w.exists {
            assert(missing(items@[i as int]));
            return Err(BuildError::NoSource { dep: w.dep.clone() });
        }
        let ghost s0 = texts(sources@);
        let ghost t0 = texts(targets@);
        if w.buildable {
            targets.push(w.dep.clone());
            assert(texts(targets@) =~= t0.push(w.dep@));
        } else {
            sources.push(w.dep.clone());
            assert(texts(sources@) =~= s0.push(w.dep@));
        }
    }
    assert(items@.take(items.len() as int) =~= items@);
    Ok((sources, targets))
}

/// The views of optional stamps.
pub open spec fn stamp_views(v: Seq<Option<Stamp>>) -> Seq<Option<StampView>> {
    v.map_values(|s: Option<Stamp>| stamp_view(s))
}

/// The changes that record the stamps of sources.
pub open spec fn source_changes(
    deps: Seq<Seq<char>>,
    stamps: Seq<Option<StampView>>,
    session: i64,
) -> Seq<OpView> {
    Seq::new(
        deps.len(),
        |i: int| OpView::UpsertFile(file_view(deps[i], None, None, stamps[i], session)),
    )
}

/// The changes that record the stamps of sources.
pub fn record_sources(deps: &[String], stamps: &[Option<Stamp>], session: i64) -> (out: Vec<DbOp>)
    requires
        deps.len() == stamps.len(),
    ensures
        ops(out@) == source_changes(texts(deps@), stamp_views(stamps@), session),
{
    let ghost want = source_changes(texts(deps@), stamp_views(stamps@), session);
    let mut out: Vec<DbOp> = Vec::new();
    for i in 0..deps.len()
        invariant
            deps.len() == stamps.len(),
            want == source_changes(texts(deps@), stamp_views(stamps@), session),
            ops(out@) == want.take(i as int),
    {
        let ghost before = ops(out@);
        let op = DbOp::UpsertFile(FileRow::new(deps[i].as_str(), None, None, &stamps[i], session));
        let ghost ov = op@;
        assert(texts(deps@)[i as int] == deps@[i as int]@);
        assert(stamp_views(stamps@)[i as int] == stamp_view(stamps@[i as int]));
        assert(ov == want[i as int]);
        out.push(op);
        assert(ops(out@) =~= before.push(ov));
        assert(ops(out@) =~= want.take(i + 1));
    }
    assert(want.take(want.len() as int) =~= want);
    out
}

/// The changes that record the edges from a do-file's target.
pub open spec fn edge_changes(
    parent: Seq<char>,
    deps: Seq<Seq<char>>,
    stamps: Seq<Option<StampView>>,
) -> Seq<OpView> {
    Seq::new(
        deps.len(),
        |i: int|
            OpView::RecordDep(dep_view(parent, DepKind::IfChange, Some(deps[i]), stamps[i])),
    )
}

/// The changes that record the edges from the target whose do-file asked; none
/// outside a do-file.
pub fn record_edges(parent: &Option<String>, deps: &[String], stamps: &[Option<Stamp>]) -> (out:
    Vec<DbOp>)
    requires
        deps.len() == stamps.len(),
    ensures
        ops(out@) == match *parent {
            Some(p) => edge_changes(p@, texts(deps@), stamp_views(stamps@)),
            None => Seq::empty(),
        },
{
    let mut out: Vec<DbOp> = Vec::new();
    let p = match parent {
        None => {
            assert(ops(out@) =~= Seq::<OpView>::empty());
            return out;
        },
        Some(p) => p,
    };
    let ghost want = edge_changes(p@, texts(deps@), stamp_views(stamps@));
    for i in 0..deps.len()
        invariant
            deps.len() == stamps.len(),
            want == edge_changes(p@, texts(deps@), stamp_views(stamps@)),
            ops(out@) == want.take(i as int),
    {
        let ghost before = ops(out@);
        let op = DbOp::RecordDep(
            DepRow::new(p.as_str(), DepKind::IfChange, Some(deps[i].clone()), &stamps[i]),
        );
        let ghost ov = op@;
        assert(texts(deps@)[i as int] == deps@[i as int]@);
        assert(stamp_views(stamps@)[i as int] == stamp_view(stamps@[i as int]));
        assert(ov == want[i as int]);
        out.push(op);
        assert(ops(out@) =~= before.push(ov));
        assert(ops(out@) =~= want.take(i + 1));
    }
    assert(want.take(want.len() as int) =~= want);
    out
}

/// A path that a target depends on not existing.
#[derive(Debug, PartialEq, Eq)]
pub struct Awaited {
    pub dep: String,
    pub exists: bool,
}

/// The first path of a list that exists.
pub open spec fn first_existing(items: Seq<Awaited>) -> int
    decreases items.len(),
{
    if items.len() == 0 {
        0
    } else if items[0].exists {
        0
    } else {
        1 + first_existing(items.skip(1))
    }
}

/// The changes that record that a target depends on paths not existing.
pub open spec fn absence_changes(parent: Seq<char>, items: Seq<Awaited>) -> Seq<OpView> {
    Seq::new(
        items.len(),
        |i: int|
            OpView::RecordDep(dep_view(parent, DepKind::IfCreate, Some(items[i].dep@), None)),
    )
}

/// Record that the current target depends on paths not existing. Paths are
/// recorded up to the first that exists, which is an error; so is a call from
/// outside a do-file.
pub fn ifcreate(parent: &Option<String>, items: &[Awaited]) -> (r: (
    Vec<DbOp>,
    Option<BuildError>,
))
    ensures
        match *parent {
            None => ops(r.0@) == Seq::<OpView>::empty() && (
            r.1 matches Some(BuildError::NotInDofile { verb }) && verb@ == "ifcreate"@),
            Some(p) => {
                let n = first_existing(items@);
                &&& 0 <= n <= items.len()
                &&& ops(r.0@) == absence_changes(p@, items@.take(n))
                &&& if n == items.len() {
                    r.1 is None
                } else {
                    r.1 matches Some(BuildError::AlreadyExists { dep }) && dep@ == items@[n].dep@
                }
            },
        },
{
    let mut out: Vec<DbOp> = Vec::new();
    assert(ops(out@) =~= Seq::<OpView>::empty());
    let p = match parent {
        None => {
            return (out, Some(BuildError::NotInDofile { verb: "ifcreate".to_owned() }));
        },
        Some(p) => p,
    };
    let none: Option<Stamp> = None;
    assert(items@.skip(0) =~= items@);
    assert(absence_changes(p@, items@.take(0)) =~= Seq::<OpView>::empty());
    for i in 0..items.len()
        invariant
            none is None,
            *parent == Some(*p),
            first_existing(items@) == i + first_existing(items@.skip(i as int)),
            ops(out@) == absence_changes(p@, items@.take(i as int)),
            forall|k: int| 0 <= k < i ==> !(#[trigger] items@[k]).exists,
    {
        let ghost rest = items@.skip(i as int);
        assert(rest[0] == items@[i as int]);
        assert(rest.skip(1) =~= items@.skip(i + 1));
        if items[i].exists {
            return (out, Some(BuildError::AlreadyExists { dep: items[i].dep.clone() }));
        }
        let ghost before = ops(out@);
        let op = DbOp::RecordDep(
            DepRow::new(p.as_str(), DepKind::IfCreate, Some(items[i].dep.clone()), &none),
        );
        let ghost ov = op@;
        out.push(op);
        assert(ops(out@) =~= before.push(ov));
        assert(ops(out@) =~= absence_changes(p@, items@.take(i + 1)));
    }
    assert(items@.skip(items.len() as int) =~= Seq::<Awaited>::empty());
    (out, None)
}

/// Mark the current target as always out of date; an error outside a do-file.
pub fn always(parent: &Option<String>) -> (r: Result<DbOp, BuildError>)
    ensures
        match *parent {
            Some(p) => r matches Ok(op) && op@ == OpView::RecordDep(
                dep_view(p@, DepKind::Always, None, None),
            ),
            None => r matches Err(BuildError::NotInDofile { verb }) && verb@ == "always"@,
        },
{
    match parent {
        Some(p) => {
            let none: Option<Stamp> = None;
            Ok(DbOp::RecordDep(DepRow::new(p.as_str(), DepKind::Always, None, &none)))
        },
        None => Err(BuildError::NotInDofile { verb: "always".to_owned() }),
    }
}

/// How often a real cycle is looked at again after a speculative lineage was
/// aborted, while its residual edges dissolve.
pub const STABILIZE_MAX: u32 = 400;

/// A demand that enters the waits-for graph, over evictions and retries.
#[derive(Debug, Clone, Copy, PartialEq, Eq, Structural)]
pub struct Demand {
    /// Whether the edges of dead owners were collected.
    pub collected: bool,
    /// Whether a speculative lineage was aborted.
    pub aborted: bool,
    /// How often a real cycle was looked at again since.
    pub waited: u32,
}

/// What a demand does next.
#[derive(Debug, Clone, Copy, PartialEq, Eq, Structural)]
pub enum DemandStep {
    /// The edge is in the graph.
    Done,
    /// Try again at once.
    Retry,
    /// Collect the edges of dead owners, then try again.
    Collect,
    /// Pause, then try again.
    Pause,
    /// It is a real dependency cycle.
    Cycle,
}

/// What a demand does next, given how a try went. A real cycle is trusted only
/// after the edges of dead owners were collected and, if a lineage was aborted,
/// after it had time to dissolve.
pub open spec fn demand_step(d: Demand, o: DemandOutcome) -> (Demand, DemandStep) {
    match o {
        DemandOutcome::Inserted => (d, DemandStep::Done),
        DemandOutcome::Evicted { aborted_lineage } => (
            Demand { aborted: d.aborted || aborted_lineage, ..d },
            DemandStep::Retry,
        ),
        DemandOutcome::RealCycle => if !d.collected {
            (Demand { collected: true, ..d }, DemandStep::Collect)
        } else if d.aborted && d.waited < STABILIZE_MAX {
            (Demand { waited: (d.waited + 1) as u32, ..d }, DemandStep::Pause)
        } else {
            (d, DemandStep::Cycle)
        },
    }
}

impl Demand {
    /// A demand that was not tried yet.
    pub fn new() -> (d: Demand)
        ensures
            d == (Demand { collected: false, aborted: false, waited: 0 }),
    {
        Demand { collected: false, aborted: false, waited: 0 }
    }

    /// What to do next, given how a try went.
    pub fn observe(&mut self, o: DemandOutcome) -> (r: DemandStep)
        ensures
            (*final(self), r) == demand_step(*old(self), o),
    {
        match o {
            DemandOutcome::Inserted => DemandStep::Done,
            DemandOutcome::Evicted { aborted_lineage } => {
                self.aborted = self.aborted || aborted_lineage;
                DemandStep::Retry
            },
            DemandOutcome::RealCycle => {
                if !self.collected {
                    self.collected = true;
                    return DemandStep::Collect;
                }
                if self.aborted && self.waited < STABILIZE_MAX {
                    self.waited = self.waited + 1;
                    return DemandStep::Pause;
                }
                DemandStep::Cycle
            },
        }
    }
}

/// How many more real cycles a demand looks at before it trusts one.
pub open spec fn patience(d: Demand) -> int {
    (if d.collected {
        0int
    } else {
        1int
    }) + (if d.waited < STABILIZE_MAX {
        STABILIZE_MAX - d.waited
    } else {
        0
    })
}

/// A demand on a real cycle ends: each look at one uses up patience, and without
/// patience the cycle is reported. A cycle is never reported before the edges of
/// dead owners were collected.
pub proof fn law_demand_ends(d: Demand)
    ensures
        ({
            let step = demand_step(d, DemandOutcome::RealCycle);
            &&& !(step.1 is Cycle) ==> 0 <= patience(step.0) < patience(d)
            &&& patience(d) == 0 ==> step.1 is Cycle
            &&& step.1 is Cycle ==> d.collected
        }),
{
}

/// The error that a real cycle is reported as: the chain of do-files that run
/// inside each other leads to the dependency.
pub fn cycle_error(chain: &[String], parent: &str, dep: &str) -> (e: BuildError)
    ensures
        e matches BuildError::Cycle { path, target } && target@ == dep@ && texts(path@) == if
            chain.len() == 0 {
            seq![parent@]
        } else {
            texts(chain@)
        },
{
    let path = if chain.len() == 0 {
        let mut one: Vec<String> = Vec::new();
        one.push(parent.to_owned());
        assert(texts(one@) =~= seq![parent@]);
        one
    } else {
        copy_texts(chain)
    };
    BuildError::Cycle { path, target: dep.to_owned() }
}

/// Whether a name is among some, in whatever case.
pub open spec fn named(list: Seq<Seq<char>>, name: Seq<char>) -> bool {
    exists|i: int| 0 <= i < list.len() && same_name(#[trigger] list[i], name)
}

/// The targets without repetitions; the first occurrence of each counts.
pub open spec fn distinct(targets: Seq<Seq<char>>) -> Seq<Seq<char>>
    decreases targets.len(),
{
    if targets.len() == 0 {
        Seq::empty()
    } else {
        let front = distinct(targets.drop_last());
        if named(front, targets.last()) {
            front
        } else {
            front.push(targets.last())
        }
    }
}

/// The targets to build, without repetitions: building one twice in a session
/// would pull its log from under the follower.
pub fn distinct_targets(targets: &[String]) -> (out: Vec<String>)
    ensures
        texts(out@) == distinct(texts(targets@)),
{
    let mut out: Vec<String> = Vec::new();
    let ghost all = texts(targets@);
    assert(texts(out@) =~= distinct(all.take(0)));
    for i in 0..targets.len()
        invariant
            all == texts(targets@),
            texts(out@) == distinct(all.take(i as int)),
    {
        assert(all.take(i + 1).drop_last() =~= all.take(i as int));
        assert(all.take(i + 1).last() == targets@[i as int]@);
        let ghost before = texts(out@);
        let mut seen = false;
        for k in 0..out.len()
            invariant
                i < targets.len(),
                before == texts(out@),
                seen == exists|j: int|
                    0 <= j < k && same_name(#[trigger] before[j], targets@[i as int]@),
        {
            if same_folded(out[k].as_str(), targets[i].as_str()) {
                assert(same_name(before[k as int], targets@[i as int]@));
                seen = true;
            }
        }
        assert(seen == named(before, targets@[i as int]@));
        if !seen {
            out.push(targets[i].clone());
            assert(texts(out@) =~= before.push(targets@[i as int]@));
        }
    }
    assert(all.take(all.len() as int) =~= all);
    out
}

/// No target is built twice, and none that was named is left out.
pub proof fn law_distinct(targets: Seq<Seq<char>>)
    ensures
        forall|i: int, j: int|
            0 <= i < j < distinct(targets).len() ==> !same_name(
                #[trigger] distinct(targets)[i],
                #[trigger] distinct(targets)[j],
            ),
        forall|i: int| 0 <= i < targets.len() ==> named(distinct(targets), #[trigger] targets[i]),
    decreases targets.len(),
{
    if targets.len() > 0 {
        let front = distinct(targets.drop_last());
        let out = distinct(targets);
        law_distinct(targets.drop_last());
        assert forall|i: int, j: int| 0 <= i < j < out.len() implies !same_name(
            #[trigger] out[i],
            #[trigger] out[j],
        ) by {
            if j < front.len() {
                assert(out[i] == front[i] && out[j] == front[j]);
            } else {
                assert(out[i] == front[i]);
            }
        }
        assert forall|i: int| 0 <= i < targets.len() implies named(out, #[trigger] targets[i]) by {
            if i < targets.len() - 1 {
                assert(targets.drop_last()[i] == targets[i]);
                assert(named(front, targets.drop_last()[i]));
                let k = choose|k: int|
                    0 <= k < front.len() && same_name(#[trigger] front[k], targets[i]);
                assert(out[k] == front[k]);
            } else if !named(front, targets.last()) {
                assert(same_name(out[front.len() as int], targets[i]));
            }
        }
    }
}

/// The event that ends the trace of a run.
pub fn run_done(session: i64, ok: bool) -> (e: Event)
    ensures
        e@ == (EventView::Done {
            session: session as int,
            exit: if ok {
                0
            } else {
                1
            },
            target: RUN_TARGET@,
        }),
{
    Event::Done {
        session,
        exit: if ok {
            0
        } else {
            1
        },
        target: RUN_TARGET.to_owned(),
    }
}

/// What a do-file asked for is divided, and nothing of it lost: a name is among the sources if
/// it was asked for and cannot be built, among the targets if it can; in the order it was asked
/// for.
pub proof fn law_wanted_are_divided(items: Seq<Wanted>, buildable: bool, name: Seq<char>)
    ensures
        wanted_names(items, buildable).contains(name) <==> exists|i: int|
            0 <= i < items.len() && (#[trigger] items[i]).dep@ == name && items[i].buildable
                == buildable,
        wanted_names(items, true).len() + wanted_names(items, false).len() == items.len(),
        forall|w: Wanted| #[trigger] wanted_names(items.push(w), buildable) == if w.buildable
            == buildable {
            wanted_names(items, buildable).push(w.dep@)
        } else {
            wanted_names(items, buildable)
        },
    decreases items.len(),
{
    assert forall|w: Wanted| #[trigger] wanted_names(items.push(w), buildable) == if w.buildable
        == buildable {
        wanted_names(items, buildable).push(w.dep@)
    } else {
        wanted_names(items, buildable)
    } by {
        assert(items.push(w).drop_last() =~= items);
    }
    if items.len() > 0 {
        let front = items.drop_last();
        let n = items.len() - 1;
        law_wanted_are_divided(front, buildable, name);
        crate::seqs::lemma_push_contains(
            wanted_names(front, buildable),
            items.last().dep@,
            name,
        );
        if exists|i: int|
            0 <= i < front.len() && (#[trigger] front[i]).dep@ == name && front[i].buildable
                == buildable {
            let i = choose|i: int|
                0 <= i < front.len() && (#[trigger] front[i]).dep@ == name && front[i].buildable
                    == buildable;
            assert(items[i].dep@ == name);
        }
        if exists|i: int|
            0 <= i < items.len() && (#[trigger] items[i]).dep@ == name && items[i].buildable
                == buildable {
            let i = choose|i: int|
                0 <= i < items.len() && (#[trigger] items[i]).dep@ == name && items[i].buildable
                    == buildable;
            if i < n {
                assert(front[i].dep@ == name);
            }
        }
        assert(items[n] == items.last());
    }
}

/// A source is recorded as it is: with its stamp, as one that no do-file made, and as settled in
/// this session. There is one change for each.
pub proof fn law_sources_are_recorded(
    deps: Seq<Seq<char>>,
    stamps: Seq<Option<StampView>>,
    session: i64,
    i: int,
)
    requires
        stamps.len() == deps.len(),
        0 <= i < deps.len(),
    ensures
        source_changes(deps, stamps, session).len() == deps.len(),
        source_changes(deps, stamps, session)[i] matches OpView::UpsertFile(f) && f.path == deps[i]
            && f.dofile is None && f.runid == Some(session) && f.csum == (match stamps[i] {
            Some(s) => Some(s.csum),
            None => None,
        }) && f.mtime == (match stamps[i] {
            Some(s) => Some(s.mtime),
            None => None,
        }) && f.size == (match stamps[i] {
            Some(s) => Some(s.size),
            None => None,
        }),
{
}

/// A dependency is recorded with the content it had: an edge from the target whose do-file asked
/// to each dependency it asked for, with the dependency's checksum.
pub proof fn law_edges_hold_what_was_seen(
    parent: Seq<char>,
    deps: Seq<Seq<char>>,
    stamps: Seq<Option<StampView>>,
    i: int,
)
    requires
        stamps.len() == deps.len(),
        0 <= i < deps.len(),
    ensures
        edge_changes(parent, deps, stamps).len() == deps.len(),
        edge_changes(parent, deps, stamps)[i] matches OpView::RecordDep(d) && d.target == parent
            && d.kind is IfChange && d.dep == Some(deps[i]) && d.csum == (match stamps[i] {
            Some(s) => Some(s.csum),
            None => None,
        }),
{
}

/// A path that exists ends a request for absences: all before it are absent, and it is the first
/// that is not; each of those before is recorded, as an edge on its absence.
pub proof fn law_absences_up_to_the_first_existing(
    parent: Seq<char>,
    items: Seq<Awaited>,
    i: int,
)
    ensures
        0 <= first_existing(items) <= items.len(),
        0 <= i < first_existing(items) ==> !items[i].exists,
        first_existing(items) < items.len() ==> items[first_existing(items)].exists,
        0 <= i < items.len() ==> absence_changes(parent, items).len() == items.len() && (
        absence_changes(parent, items)[i] matches OpView::RecordDep(d) && d.target == parent
            && d.kind is IfCreate && d.dep == Some(items[i].dep@)),
    decreases items.len(),
{
    if items.len() > 0 && !items[0].exists {
        let rest = items.skip(1);
        law_absences_up_to_the_first_existing(parent, rest, i - 1);
        let n = first_existing(rest);
        if n < rest.len() {
            assert(rest[n] == items[n + 1]);
        }
        if 0 < i < first_existing(items) {
            assert(rest[i - 1] == items[i]);
        }
    }
}

/// A demand goes on until its edge is in the graph or the cycle is certain: an inserted edge ends
/// it, an eviction is tried again at once, and a cycle is certain once the edges of the dead are
/// gone and, after an abort, every chance to dissolve was given.
pub proof fn law_demand_is_patient(d: Demand, o: DemandOutcome)
    ensures
        o is Inserted <==> demand_step(d, o).1 is Done,
        o is Evicted <==> demand_step(d, o).1 is Retry,
        demand_step(d, o).1 is Cycle <==> o is RealCycle && d.collected && (!d.aborted || d.waited
            >= 400),
        demand_step(d, o).1 is Collect <==> o is RealCycle && !d.collected,
        d.aborted ==> demand_step(d, o).0.aborted,
        o matches DemandOutcome::Evicted { aborted_lineage } && aborted_lineage ==> demand_step(
            d,
            o,
        ).0.aborted,
        demand_step(d, o).0.aborted && !d.aborted ==> o == (DemandOutcome::Evicted {
            aborted_lineage: true,
        }),
{
}

/// Of the targets that were named, each counts where it was named first, and as it was written
/// there; none is made up.
pub proof fn law_first_naming_counts(targets: Seq<Seq<char>>, i: int)
    ensures
        0 <= i < distinct(targets).len() ==> targets.contains(distinct(targets)[i]),
        0 <= i < targets.len() && (forall|j: int|
            0 <= j < i ==> !same_name(#[trigger] targets[j], targets[i])) ==> distinct(
            targets,
        ).contains(targets[i]),
        forall|x: Seq<char>| #[trigger]
            distinct(targets.push(x)).take(distinct(targets).len() as int) == distinct(targets),
    decreases targets.len(),
{
    let out = distinct(targets);
    assert forall|x: Seq<char>| #[trigger]
        distinct(targets.push(x)).take(out.len() as int) == out by {
        assert(targets.push(x).drop_last() =~= targets);
        assert(distinct(targets.push(x)).take(out.len() as int) =~= out);
    }
    if targets.len() > 0 {
        let rest = targets.drop_last();
        let front = distinct(rest);
        let n = targets.len() - 1;
        assert(targets[n] == targets.last());
        law_first_naming_counts(rest, i);
        if 0 <= i < out.len() {
            if i < front.len() {
                assert(out[i] == front[i]);
                let k = choose|k: int| 0 <= k < rest.len() && rest[k] == front[i];
                assert(targets[k] == out[i]);
            } else {
                assert(out[i] == targets[n]);
            }
        }
        if 0 <= i < targets.len() && (forall|j: int|
            0 <= j < i ==> !same_name(#[trigger] targets[j], targets[i])) {
            if i < n {
                assert(rest[i] == targets[i]);
                assert forall|j: int| 0 <= j < i implies !same_name(#[trigger] rest[j], rest[i]) by {
                    assert(!same_name(targets[j], targets[i]));
                }
                assert(front.contains(targets[i]));
                let k = choose|k: int| 0 <= k < front.len() && front[k] == targets[i];
                assert(out[k] == targets[i]);
            } else {
                lemma_distinct_within(rest);
                if named(front, targets[n]) {
                    let k = choose|k: int|
                        0 <= k < front.len() && same_name(#[trigger] front[k], targets[n]);
                    let m = choose|m: int| 0 <= m < rest.len() && rest[m] == front[k];
                    assert(same_name(targets[m], targets[n]));
                }
                assert(out[front.len() as int] == targets[n]);
            }
        }
    }
}

proof fn lemma_distinct_within(targets: Seq<Seq<char>>)
    ensures
        forall|i: int|
            0 <= i < distinct(targets).len() ==> targets.contains(#[trigger] distinct(targets)[i]),
    decreases targets.len(),
{
    if targets.len() > 0 {
        let rest = targets.drop_last();
        let front = distinct(rest);
        lemma_distinct_within(rest);
        assert forall|i: int| 0 <= i < distinct(targets).len() implies targets.contains(
            #[trigger] distinct(targets)[i],
        ) by {
            if i < front.len() {
                assert(distinct(targets)[i] == front[i]);
                let k = choose|k: int| 0 <= k < rest.len() && rest[k] == front[i];
                assert(targets[k] == front[i]);
            } else {
                assert(targets[targets.len() - 1] == distinct(targets)[i]);
            }
        }
    }
}

}
