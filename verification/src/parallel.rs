//! The parallel ensure engine.
//!
//! Within a process and a session each target is claimed exactly once by a task
//! of the [`Registry`]. A task carries a grade: *demanded* (a real request
//! asked for it) or *speculative* (started from recorded edges). The grade
//! decides how a failure is reported: a demanded task's failure is an error; a
//! speculative task's failure, or an abort, is quarantined: reported to no one,
//! and the task is claimed anew when a real demand arrives.
//!
//! Every wait is an edge of the waits-for graph ([`crate::waits`]). Starting a
//! speculative task inserts a creation edge, refused if it would close a cycle,
//! so that speculation that could deadlock never starts.
//!
//! A task holds a token only while it builds; speculation uses the process's
//! own token only when somebody waits for its result.

use crate::db::same_name;
use crate::jobserver::{returned, taken, Jobserver, PoolView, Take, TokenSrc};
use crate::reach::acyclic;
use crate::text::{cat, copy_texts, lower, opt, same_folded, texts, to_lower};
use crate::waits::{
    alive, creation_at, evicted, nothing_leads_to, refs, sentinel, soft_batch, soft_run, watch_dead, EdgeKind, EdgeRef, EdgeRefView, EdgeView,
    SoftOutcome, WaitGraph,
};
use crate::seqs::lemma_filter_prefix;
use vstd::prelude::*;

verus! {

/// The error that a speculative lineage unwinds with once it is dead (evicted,
/// abandoned, or aborted from below). It is quarantined whatever the task's
/// grade says by then: a demand that arrives meanwhile claims the task anew.
#[derive(Debug)]
pub struct SpecAborted(pub String);

impl SpecAborted {
    /// The error in words.
    pub fn text(&self) -> (s: String)
        ensures
            s@ == "speculation aborted: "@ + self.0@,
    {
        cat("speculation aborted: ", self.0.as_str())
    }
}

/// Where a task stands.
#[derive(Debug, PartialEq, Eq)]
pub enum State {
    Running,
    Done,
    /// A demanded build failed: a real, reported error.
    Failed(String),
    /// A speculative build failed or was aborted: quarantined, and claimed anew
    /// by a later real demand.
    SpecFailed(String),
}

/// Where a task stands, as a mathematical value.
pub enum StateView {
    Running,
    Done,
    Failed(Seq<char>),
    SpecFailed(Seq<char>),
}

impl View for State {
    type V = StateView;

    open spec fn view(&self) -> StateView {
        match self {
            State::Running => StateView::Running,
            State::Done => StateView::Done,
            State::Failed(m) => StateView::Failed(m@),
            State::SpecFailed(m) => StateView::SpecFailed(m@),
        }
    }
}

/// A target's claim and its settled outcome.
#[derive(Debug, PartialEq, Eq)]
pub struct Task {
    pub target: String,
    /// Whether any real demand asked for this target.
    pub demanded: bool,
    /// Whether a checker waits for the result.
    pub wanted: bool,
    /// Whether the task was told to stop.
    pub abandon: bool,
    pub state: State,
}

/// A task, as a mathematical value.
#[verifier::ext_equal]
pub struct TaskView {
    pub target: Seq<char>,
    pub demanded: bool,
    pub wanted: bool,
    pub abandon: bool,
    pub state: StateView,
}

impl View for Task {
    type V = TaskView;

    open spec fn view(&self) -> TaskView {
        TaskView {
            target: self.target@,
            demanded: self.demanded,
            wanted: self.wanted,
            abandon: self.abandon,
            state: self.state@,
        }
    }
}

/// The views of a list of tasks.
pub open spec fn task_views(v: Seq<Task>) -> Seq<TaskView> {
    v.map_values(|t: Task| t@)
}

/// A fresh task.
pub open spec fn fresh_task(target: Seq<char>, demanded: bool) -> TaskView {
    TaskView {
        target,
        demanded,
        wanted: false,
        abandon: false,
        state: StateView::Running,
    }
}

/// The task that claims a target now: the last one for its name. Earlier ones
/// were superseded.
pub open spec fn claim_of(tasks: Seq<TaskView>, name: Seq<char>) -> Option<int>
    decreases tasks.len(),
{
    if tasks.len() == 0 {
        None
    } else if same_name(tasks.last().target, name) {
        Some(tasks.len() - 1)
    } else {
        claim_of(tasks.drop_last(), name)
    }
}

/// A claim is a task for the name, and no later task is.
pub proof fn lemma_claim(tasks: Seq<TaskView>, name: Seq<char>)
    ensures
        match claim_of(tasks, name) {
            Some(i) => 0 <= i < tasks.len() && same_name(tasks[i].target, name) && forall|j: int|
                i < j < tasks.len() ==> !same_name((#[trigger] tasks[j]).target, name),
            None => forall|j: int|
                0 <= j < tasks.len() ==> !same_name((#[trigger] tasks[j]).target, name),
        },
    decreases tasks.len(),
{
    if tasks.len() > 0 && !same_name(tasks.last().target, name) {
        let front = tasks.drop_last();
        lemma_claim(front, name);
        assert forall|j: int| 0 <= j < front.len() implies #[trigger] tasks[j] == front[j] by {}
    }
}

/// A claim made by a demand.
#[derive(Debug, Clone, Copy, PartialEq, Eq, Structural)]
pub struct Claim {
    /// The task.
    pub id: usize,
    /// Whether the task is new and must be started.
    pub fresh: bool,
    /// Whether a speculative task was upgraded that no demand edge covers yet:
    /// that of a top-level process, which inserts none of its own.
    pub upgrade: bool,
}

/// One demanded claim: an existing task is shared and upgraded in place, a
/// quarantined failure is claimed anew.
pub open spec fn claim_step(
    tasks: Seq<TaskView>,
    target: Seq<char>,
    top: bool,
) -> (Seq<TaskView>, Claim) {
    match claim_of(tasks, target) {
        Some(i) => if tasks[i].state is SpecFailed {
            (
                tasks.push(fresh_task(target, true)),
                Claim { id: tasks.len() as usize, fresh: true, upgrade: false },
            )
        } else {
            (
                tasks.update(i, TaskView { demanded: true, ..tasks[i] }),
                Claim { id: i as usize, fresh: false, upgrade: top && !tasks[i].demanded },
            )
        },
        None => (
            tasks.push(fresh_task(target, true)),
            Claim { id: tasks.len() as usize, fresh: true, upgrade: false },
        ),
    }
}

/// Demanded claims, one after the other.
pub open spec fn claim_run(
    tasks: Seq<TaskView>,
    targets: Seq<Seq<char>>,
    top: bool,
) -> (Seq<TaskView>, Seq<Claim>)
    decreases targets.len(),
{
    if targets.len() == 0 {
        (tasks, Seq::empty())
    } else {
        let front = claim_run(tasks, targets.drop_last(), top);
        let last = claim_step(front.0, targets.last(), top);
        (last.0, front.1.push(last.1))
    }
}

/// The names among `deps` that nobody claimed.
pub open spec fn unclaimed(tasks: Seq<TaskView>, deps: Seq<Seq<char>>) -> Seq<Seq<char>> {
    deps.filter(|d: Seq<char>| claim_of(tasks, d) is None)
}

/// Speculative claims: a claimed target is shared as it is; an unclaimed one
/// gets a task unless its creation edge was refused.
pub open spec fn spec_run(
    tasks: Seq<TaskView>,
    deps: Seq<Seq<char>>,
    outcomes: Seq<SoftOutcome>,
) -> (Seq<TaskView>, Seq<Option<usize>>)
    decreases deps.len(),
{
    if deps.len() == 0 {
        (tasks, Seq::empty())
    } else {
        let front = spec_run(tasks, deps.drop_last(), outcomes);
        match claim_of(tasks, deps.last()) {
            Some(i) => (front.0, front.1.push(Some(i as usize))),
            None => if outcomes[unclaimed(tasks, deps.drop_last()).len() as int] is Inserted {
                (
                    front.0.push(fresh_task(deps.last(), false)),
                    front.1.push(Some(front.0.len() as usize)),
                )
            } else {
                (front.0, front.1.push(None))
            },
        }
    }
}

/// The registry of tasks of a process.
pub struct Registry {
    pub tasks: Vec<Task>,
    /// Whether the process's own token is in use.
    pub own_busy: bool,
    /// The creation edges that guard the whole process.
    pub env_watch: Vec<EdgeRef>,
}

impl Registry {
    /// The tasks, as mathematical values.
    pub open spec fn view_tasks(&self) -> Seq<TaskView> {
        task_views(self.tasks@)
    }

    /// A registry without tasks.
    pub fn new(env_watch: Vec<EdgeRef>) -> (r: Registry)
        ensures
            r.view_tasks() == Seq::<TaskView>::empty(),
            !r.own_busy,
            r.env_watch == env_watch,
    {
        let r = Registry { tasks: Vec::new(), own_busy: false, env_watch };
        assert(r.view_tasks() =~= Seq::<TaskView>::empty());
        r
    }

    /// The task that claims a target.
    pub fn find(&self, target: &str) -> (r: Option<usize>)
        ensures
            match r {
                Some(i) => i < self.tasks.len() && claim_of(self.view_tasks(), target@) == Some(
                    i as int,
                ),
                None => claim_of(self.view_tasks(), target@) is None,
            },
    {
        let ghost all = self.view_tasks();
        let mut i: usize = self.tasks.len();
        assert(all.take(i as int) =~= all);
        while i > 0
            invariant
                i <= self.tasks.len(),
                all == self.view_tasks(),
                claim_of(all, target@) == claim_of(all.take(i as int), target@),
            decreases i,
        {
            let t = &self.tasks[i - 1];
            assert(all.take(i as int).last() == t@);
            assert(all.take(i as int).drop_last() =~= all.take(i - 1));
            if same_folded(t.target.as_str(), target) {
                return Some(i - 1);
            }
            i = i - 1;
        }
        None
    }

    fn push_task(&mut self, target: &str, demanded: bool) -> (id: usize)
        ensures
            id == old(self).tasks.len(),
            final(self).tasks.len() == old(self).tasks.len() + 1,
            final(self).view_tasks() == old(self).view_tasks().push(
                fresh_task(target@, demanded),
            ),
            final(self).own_busy == old(self).own_busy,
            final(self).env_watch == old(self).env_watch,
    {
        let ghost before = self.view_tasks();
        let id: usize = self.tasks.len();
        let t = Task {
            target: target.to_owned(),
            demanded,
            wanted: false,
            abandon: false,
            state: State::Running,
        };
        let ghost tv = t@;
        self.tasks.push(t);
        assert(self.view_tasks() =~= before.push(tv));
        id
    }

    /// Claim a demanded task for one target.
    fn claim(&mut self, target: &str, top: bool) -> (c: Claim)
        ensures
            (final(self).view_tasks(), c) == claim_step(old(self).view_tasks(), target@, top),
            c.id < final(self).tasks.len(),
            final(self).tasks.len() >= old(self).tasks.len(),
            final(self).own_busy == old(self).own_busy,
            final(self).env_watch == old(self).env_watch,
    {
        let ghost before = self.view_tasks();
        match self.find(target) {
            Some(i) => {
                assert(before[i as int] == self.tasks@[i as int]@);
                let quarantined = match &self.tasks[i].state {
                    State::SpecFailed(_) => true,
                    _ => false,
                };
                if quarantined {
                    let id = self.push_task(target, true);
                    return Claim { id, fresh: true, upgrade: false };
                }
                let upgrade = top && !self.tasks[i].demanded;
                self.tasks[i].demanded = true;
                assert(self.view_tasks() =~= before.update(
                    i as int,
                    TaskView { demanded: true, ..before[i as int] },
                ));
                Claim { id: i, fresh: false, upgrade }
            },
            None => {
                let id = self.push_task(target, true);
                Claim { id, fresh: true, upgrade: false }
            },
        }
    }

    /// Claim a demanded task per target. All claims are made before any task is
    /// started, so that several targets requested together can never lose one
    /// to speculation on behalf of the first.
    pub fn activate_demanded(&mut self, targets: &[String], top: bool) -> (out: Vec<Claim>)
        ensures
            (final(self).view_tasks(), out@) == claim_run(
                old(self).view_tasks(),
                texts(targets@),
                top,
            ),
            out.len() == targets.len(),
            forall|i: int| 0 <= i < out.len() ==> (#[trigger] out@[i]).id < final(self).tasks.len(),
            final(self).own_busy == old(self).own_busy,
            final(self).env_watch == old(self).env_watch,
    {
        let ghost start = self.view_tasks();
        let mut out: Vec<Claim> = Vec::new();
        for i in 0..targets.len()
            invariant
                out.len() == i,
                (self.view_tasks(), out@) == claim_run(
                    start,
                    texts(targets@).take(i as int),
                    top,
                ),
                forall|k: int| 0 <= k < out.len() ==> (#[trigger] out@[k]).id < self.tasks.len(),
                self.own_busy == old(self).own_busy,
                self.env_watch == old(self).env_watch,
        {
            let ghost part = texts(targets@).take(i + 1);
            assert(part.drop_last() =~= texts(targets@).take(i as int));
            assert(part.last() == targets@[i as int]@);
            let c = self.claim(targets[i].as_str(), top);
            out.push(c);
        }
        assert(texts(targets@).take(targets.len() as int) =~= texts(targets@));
        out
    }

    /// Claim a quarantined target anew under a real demand, unless another
    /// demander already did. The task, and whether it is new.
    pub fn reclaim(&mut self, target: &str) -> (r: (usize, bool))
        ensures
            r.0 < final(self).tasks.len(),
            final(self).tasks.len() >= old(self).tasks.len(),
            final(self).own_busy == old(self).own_busy,
            final(self).env_watch == old(self).env_watch,
            ({
                let tasks = old(self).view_tasks();
                match claim_of(tasks, target@) {
                    Some(i) => if tasks[i].state is SpecFailed {
                        r == (tasks.len() as usize, true) && final(self).view_tasks()
                            == tasks.push(fresh_task(target@, true))
                    } else {
                        r == (i as usize, false) && final(self).view_tasks() == tasks
                    },
                    None => r == (tasks.len() as usize, true) && final(self).view_tasks()
                        == tasks.push(fresh_task(target@, true)),
                }
            }),
    {
        let ghost before = self.view_tasks();
        if let Some(i) = self.find(target) {
            assert(before[i as int] == self.tasks@[i as int]@);
            let quarantined = match &self.tasks[i].state {
                State::SpecFailed(_) => true,
                _ => false,
            };
            if !quarantined {
                return (i, false);
            }
        }
        let id = self.push_task(target, true);
        (id, true)
    }

    /// Claim speculative tasks for recorded dependencies. The creation edges of
    /// the new ones enter the graph as one batch; `None` means that the edge was
    /// refused because waiting for it could close a cycle. New tasks are those
    /// from the old number of tasks on; they must be started.
    pub fn activate_spec(
        &mut self,
        g: &mut WaitGraph,
        me: &str,
        waiter: &str,
        deps: &[String],
        dead: &[String],
    ) -> (out: Vec<Option<usize>>)
        requires
            old(g).wf(),
        ensures
            final(g).wf(),
            final(self).own_busy == old(self).own_busy,
            final(self).env_watch == old(self).env_watch,
            ({
                let tasks = old(self).view_tasks();
                let run = soft_batch(
                    old(g)@,
                    me@,
                    waiter@,
                    unclaimed(tasks, texts(deps@)),
                    EdgeKind::Creation,
                    texts(dead@),
                );
                &&& final(g)@ == run.0
                &&& (final(self).view_tasks(), out@) == spec_run(tasks, texts(deps@), run.1)
            }),
            acyclic(old(g)@) && (sentinel(waiter@) ==> nothing_leads_to(
                old(g)@,
                waiter@,
                unclaimed(old(self).view_tasks(), texts(deps@)),
            )) ==> acyclic(final(g)@),
    {
        let ghost tasks = self.view_tasks();
        let ghost all = texts(deps@);
        let ghost p = |d: Seq<char>| claim_of(tasks, d) is None;
        let mut fresh: Vec<String> = Vec::new();
        let mut slots: Vec<Option<usize>> = Vec::new();
        assert(all.take(0).filter(p) =~= Seq::<Seq<char>>::empty()) by {
            reveal(Seq::filter);
        }
        for i in 0..deps.len()
            invariant
                tasks == self.view_tasks(),
                all == texts(deps@),
                p == (|d: Seq<char>| claim_of(tasks, d) is None),
                texts(fresh@) == all.take(i as int).filter(p),
                slots.len() == i,
                forall|k: int|
                    0 <= k < i ==> match #[trigger] slots@[k] {
                        Some(n) => claim_of(tasks, all[k]) == Some(n as int),
                        None => claim_of(tasks, all[k]) is None,
                    },
                self.own_busy == old(self).own_busy,
                self.env_watch == old(self).env_watch,
        {
            let ghost before = texts(fresh@);
            proof {
                crate::seqs::lemma_filter_step(all, i as int, p);
                assert(all[i as int] == deps@[i as int]@);
            }
            match self.find(deps[i].as_str()) {
                Some(n) => {
                    slots.push(Some(n));
                },
                None => {
                    fresh.push(deps[i].clone());
                    assert(texts(fresh@) =~= before.push(all[i as int]));
                    slots.push(None);
                },
            }
        }
        assert(all.take(all.len() as int) =~= all);
        assert(texts(fresh@) == unclaimed(tasks, all));
        let outcomes = crate::waits::try_soft_batch(
            g,
            me,
            waiter,
            fresh.as_slice(),
            EdgeKind::Creation,
            dead,
        );
        proof {
            lemma_soft_len(old(g)@, me@, waiter@, texts(fresh@), EdgeKind::Creation);
            let first = soft_run(old(g)@, me@, waiter@, texts(fresh@), EdgeKind::Creation);
            lemma_soft_len(
                crate::waits::collected(first.0, me@, texts(dead@)),
                me@,
                waiter@,
                texts(fresh@),
                EdgeKind::Creation,
            );
            assert(outcomes.len() == fresh.len());
        }
        let mut out: Vec<Option<usize>> = Vec::new();
        let mut used: usize = 0;
        assert(all.take(0).filter(p) =~= Seq::<Seq<char>>::empty()) by {
            reveal(Seq::filter);
        }
        for i in 0..deps.len()
            invariant
                all == texts(deps@),
                p == (|d: Seq<char>| claim_of(tasks, d) is None),
                slots.len() == deps.len(),
                forall|k: int|
                    0 <= k < slots.len() ==> match #[trigger] slots@[k] {
                        Some(n) => claim_of(tasks, all[k]) == Some(n as int),
                        None => claim_of(tasks, all[k]) is None,
                    },
                used == all.take(i as int).filter(p).len(),
                outcomes.len() == all.filter(p).len(),
                (self.view_tasks(), out@) == spec_run(tasks, all.take(i as int), outcomes@),
                self.own_busy == old(self).own_busy,
                self.env_watch == old(self).env_watch,
        {
            let ghost part = all.take(i + 1);
            proof {
                assert(part.drop_last() =~= all.take(i as int));
                assert(part.last() == all[i as int]);
                crate::seqs::lemma_filter_step(all, i as int, p);
                lemma_filter_prefix(all, i + 1, p);
                assert(unclaimed(tasks, all.take(i as int)) == all.take(i as int).filter(p));
            }
            match slots[i] {
                Some(n) => {
                    out.push(Some(n));
                },
                None => {
                    let o = outcomes[used];
                    used = used + 1;
                    match o {
                        SoftOutcome::Cycle => {
                            out.push(None);
                        },
                        SoftOutcome::Inserted => {
                            assert(all[i as int] == deps@[i as int]@);
                            let id = self.push_task(deps[i].as_str(), false);
                            out.push(Some(id));
                        },
                    }
                },
            }
        }
        out
    }
}

/// A batch of soft inserts has one outcome per dependency.
proof fn lemma_soft_len(
    g: Set<EdgeView>,
    me: Seq<char>,
    waiter: Seq<char>,
    deps: Seq<Seq<char>>,
    kind: EdgeKind,
)
    ensures
        soft_run(g, me, waiter, deps, kind).1.len() == deps.len(),
    decreases deps.len(),
{
    if deps.len() > 0 {
        lemma_soft_len(g, me, waiter, deps.drop_last(), kind);
    }
}

/// Why a task failed.
#[derive(Debug, PartialEq, Eq)]
pub struct Failure {
    pub message: String,
    /// Whether it was a [`SpecAborted`].
    pub aborted: bool,
}

/// How a task settles. A failure is reported only if the task was demanded and
/// not aborted; every other one is quarantined.
pub open spec fn settled(t: TaskView, message: Option<Seq<char>>, aborted: bool) -> TaskView {
    TaskView {
        state: match message {
            None => StateView::Done,
            Some(m) => if t.demanded && !aborted {
                StateView::Failed(m)
            } else {
                StateView::SpecFailed(m)
            },
        },
        ..t
    }
}

/// The message of an optional failure.
pub open spec fn failure_text(f: Option<Failure>) -> Option<Seq<char>> {
    match f {
        Some(f) => Some(f.message@),
        None => None,
    }
}

/// Whether an optional failure was an abort.
pub open spec fn failure_aborted(f: Option<Failure>) -> bool {
    f matches Some(f) && f.aborted
}

/// A settled outcome, as a waiter observes it.
#[derive(Debug, PartialEq, Eq)]
pub enum Outcome {
    Done,
    Failed(String),
    SpecFailed(String),
}

/// Whether a task is the claim of its target and has not settled.
pub open spec fn pending(tasks: Seq<TaskView>, i: int) -> bool {
    0 <= i < tasks.len() && tasks[i].state is Running && claim_of(tasks, tasks[i].target) == Some(i)
}

/// Whether a task is told to stop when the process drains: it is pending, and
/// nobody demanded it.
pub open spec fn abandoned(tasks: Seq<TaskView>, i: int) -> bool {
    pending(tasks, i) && !tasks[i].demanded
}

/// The tasks after the process told the undemanded ones to stop.
pub open spec fn drained_tasks(tasks: Seq<TaskView>) -> Seq<TaskView> {
    Seq::new(
        tasks.len(),
        |i: int|
            if abandoned(tasks, i) {
                TaskView { abandon: true, ..tasks[i] }
            } else {
                tasks[i]
            },
    )
}

/// The creation edge of a task.
pub open spec fn task_edge(me: Seq<char>, waiter: Seq<char>, target: Seq<char>) -> EdgeRefView {
    EdgeRefView { owner: me, waiter: lower(waiter), dep: lower(target) }
}

/// The graph after the creation edges of newly abandoned tasks were deleted.
pub open spec fn drained_graph(
    g: Set<EdgeView>,
    tasks: Seq<TaskView>,
    me: Seq<char>,
    waiter: Seq<char>,
) -> Set<EdgeView> {
    g.filter(
        |e: EdgeView|
            !(exists|i: int| #[trigger]
                abandoned(tasks, i) && !tasks[i].abandon && e == creation_at(
                    task_edge(me, waiter, tasks[i].target),
                )),
    )
}

impl Registry {
    /// Settle a task: done, or failed for a reason.
    pub fn settle(&mut self, id: usize, failure: Option<Failure>)
        requires
            id < old(self).tasks.len(),
        ensures
            final(self).view_tasks() == old(self).view_tasks().update(
                id as int,
                settled(
                    old(self).view_tasks()[id as int],
                    failure_text(failure),
                    failure_aborted(failure),
                ),
            ),
            final(self).tasks.len() == old(self).tasks.len(),
            final(self).own_busy == old(self).own_busy,
            final(self).env_watch == old(self).env_watch,
    {
        let ghost before = self.view_tasks();
        assert(before[id as int] == self.tasks@[id as int]@);
        let state = match failure {
            None => State::Done,
            Some(f) => if self.tasks[id].demanded && !f.aborted {
                State::Failed(f.message)
            } else {
                State::SpecFailed(f.message)
            },
        };
        self.tasks[id].state = state;
        assert(self.view_tasks() =~= before.update(
            id as int,
            settled(before[id as int], failure_text(failure), failure_aborted(failure)),
        ));
    }

    /// The outcome of a task, once it settled.
    pub fn outcome(&self, id: usize) -> (r: Option<Outcome>)
        requires
            id < self.tasks.len(),
        ensures
            match self.view_tasks()[id as int].state {
                StateView::Running => r is None,
                StateView::Done => r matches Some(Outcome::Done),
                StateView::Failed(m) => r matches Some(Outcome::Failed(s)) && s@ == m,
                StateView::SpecFailed(m) => r matches Some(Outcome::SpecFailed(s)) && s@ == m,
            },
    {
        assert(self.view_tasks()[id as int] == self.tasks@[id as int]@);
        match &self.tasks[id].state {
            State::Running => None,
            State::Done => Some(Outcome::Done),
            State::Failed(m) => Some(Outcome::Failed(m.clone())),
            State::SpecFailed(m) => Some(Outcome::SpecFailed(m.clone())),
        }
    }

    /// A checker waits for a task: it may use the own token even while it is
    /// speculative. `true` if nobody waited for it before.
    pub fn want(&mut self, id: usize) -> (first: bool)
        requires
            id < old(self).tasks.len(),
        ensures
            first == !old(self).view_tasks()[id as int].wanted,
            final(self).view_tasks() == old(self).view_tasks().update(
                id as int,
                TaskView { wanted: true, ..old(self).view_tasks()[id as int] },
            ),
            final(self).tasks.len() == old(self).tasks.len(),
            final(self).own_busy == old(self).own_busy,
            final(self).env_watch == old(self).env_watch,
    {
        let ghost before = self.view_tasks();
        assert(before[id as int] == self.tasks@[id as int]@);
        let first = !self.tasks[id].wanted;
        self.tasks[id].wanted = true;
        assert(self.view_tasks() =~= before.update(
            id as int,
            TaskView { wanted: true, ..before[id as int] },
        ));
        first
    }

    /// Before a process returns: the tasks it must still wait for. Those nobody
    /// demanded are told to stop, and their creation edges are deleted, so that
    /// speculation cannot hold the process hostage. Once none is left, the
    /// edges of the process's waiter guard nothing and are cleared.
    pub fn drain(&mut self, g: &mut WaitGraph, me: &str, waiter: &str) -> (out: Vec<usize>)
        requires
            old(g).wf(),
        ensures
            final(g).wf(),
            final(self).own_busy == old(self).own_busy,
            final(self).env_watch == old(self).env_watch,
            final(self).view_tasks() == drained_tasks(old(self).view_tasks()),
            forall|i: int|
                0 <= i < old(self).tasks.len() ==> (out@.contains(i as usize) <==> #[trigger]
                    pending(old(self).view_tasks(), i)),
            forall|k: int, l: int|
                0 <= k < l < out.len() ==> #[trigger] out@[k] < #[trigger] out@[l],
            forall|k: int| 0 <= k < out.len() ==> #[trigger] out@[k] < old(self).tasks.len(),
            final(g)@ == if out.len() == 0 {
                old(g)@.filter(|e: EdgeView| !(e.owner == me@ && e.waiter == lower(waiter@)))
            } else {
                drained_graph(old(g)@, old(self).view_tasks(), me@, waiter@)
            },
            acyclic(old(g)@) ==> acyclic(final(g)@),
    {
        let ghost tasks = self.view_tasks();
        let ghost graph = g@;
        let folded = to_lower(waiter);
        let mut out: Vec<usize> = Vec::new();
        let mut stops: Vec<usize> = Vec::new();
        let n = self.tasks.len();
        for i in 0..n
            invariant
                n == self.tasks.len(),
                tasks == self.view_tasks(),
                forall|k: int| 0 <= k < out.len() ==> (#[trigger] out@[k]) < i && pending(
                    tasks,
                    out@[k] as int,
                ),
                forall|k: int, l: int|
                    0 <= k < l < out.len() ==> #[trigger] out@[k] < #[trigger] out@[l],
                forall|j: int| 0 <= j < i && #[trigger] pending(tasks, j) ==> out@.contains(
                    j as usize,
                ),
                forall|k: int| 0 <= k < stops.len() ==> (#[trigger] stops@[k]) < i && abandoned(
                    tasks,
                    stops@[k] as int,
                ),
                forall|j: int| 0 <= j < i && #[trigger] abandoned(tasks, j) ==> stops@.contains(
                    j as usize,
                ),
                self.own_busy == old(self).own_busy,
                self.env_watch == old(self).env_watch,
        {
            assert(tasks[i as int] == self.tasks@[i as int]@);
            let running = match &self.tasks[i].state {
                State::Running => true,
                _ => false,
            };
            let claims = match self.find(self.tasks[i].target.as_str()) {
                Some(j) => j == i,
                None => false,
            };
            let ghost o0 = out@;
            let ghost s0 = stops@;
            if running && claims {
                out.push(i);
                assert(out@[o0.len() as int] == i);
                if !self.tasks[i].demanded {
                    stops.push(i);
                    assert(stops@[s0.len() as int] == i);
                }
            }
            assert(pending(tasks, i as int) == (running && claims));
            assert forall|j: int| 0 <= j < i + 1 && #[trigger] pending(tasks, j) implies out@.contains(
                j as usize,
            ) by {
                if j < i {
                    assert(o0.contains(j as usize));
                    let k = choose|k: int| 0 <= k < o0.len() && o0[k] == j as usize;
                    assert(out@[k] == j as usize);
                }
            }
            assert forall|j: int| 0 <= j < i + 1 && #[trigger] abandoned(
                tasks,
                j,
            ) implies stops@.contains(j as usize) by {
                if j < i {
                    assert(s0.contains(j as usize));
                    let k = choose|k: int| 0 <= k < s0.len() && s0[k] == j as usize;
                    assert(stops@[k] == j as usize);
                } else {
                    assert(pending(tasks, j));
                }
            }
        }
        assert forall|i: int| 0 <= i < tasks.len() implies (out@.contains(i as usize) <==> #[trigger]
            pending(tasks, i)) by {
            if out@.contains(i as usize) {
                let k = choose|k: int| 0 <= k < out.len() && out@[k] == i as usize;
                assert(pending(tasks, out@[k] as int));
            }
        }
        if out.len() == 0 {
            crate::waits::clear_waiter(g, me, waiter);
            assert forall|i: int| !#[trigger] abandoned(tasks, i) by {
                if pending(tasks, i) {
                    assert(out@.contains(i as usize));
                }
            }
            assert(self.view_tasks() =~= drained_tasks(tasks));
            return out;
        }
        let ghost gone = |e: EdgeView, m: int|
            exists|k: int|
                0 <= k < m && !tasks[#[trigger] stops@[k] as int].abandon && e == creation_at(
                    task_edge(me@, waiter@, tasks[stops@[k] as int].target),
                );
        assert(graph.filter(|e: EdgeView| !gone(e, 0)) =~= graph);
        for s in 0..stops.len()
            invariant
                g.wf(),
                folded@ == lower(waiter@),
                n == self.tasks.len(),
                tasks.len() == n,
                gone == (|e: EdgeView, m: int|
                    exists|k: int|
                        0 <= k < m && !tasks[#[trigger] stops@[k] as int].abandon && e
                            == creation_at(
                            task_edge(me@, waiter@, tasks[stops@[k] as int].target),
                        )),
                forall|k: int| 0 <= k < stops.len() ==> (#[trigger] stops@[k]) < n && abandoned(
                    tasks,
                    stops@[k] as int,
                ),
                forall|k: int| 0 <= k < n ==> (#[trigger] self.tasks@[k])@ == tasks[k],
                g@ == graph.filter(|e: EdgeView| !gone(e, s as int)),
                acyclic(graph) ==> acyclic(g@),
                self.own_busy == old(self).own_busy,
                self.env_watch == old(self).env_watch,
        {
            let i = stops[s];
            assert(abandoned(tasks, stops@[s as int] as int));
            let ghost held = g@;
            let t = &self.tasks[i];
            assert(t@ == tasks[i as int]);
            if !t.abandon {
                let r = EdgeRef {
                    owner: me.to_owned(),
                    waiter: folded.clone(),
                    dep: to_lower(t.target.as_str()),
                };
                assert(r@ == task_edge(me@, waiter@, tasks[i as int].target));
                crate::waits::drop_creation(g, &r);
            }
            assert(g@ =~= graph.filter(|e: EdgeView| !gone(e, s + 1))) by {
                assert forall|e: EdgeView| g@.contains(e) <==> graph.filter(
                    |e: EdgeView| !gone(e, s + 1),
                ).contains(e) by {
                    let x = creation_at(task_edge(me@, waiter@, tasks[i as int].target));
                    if gone(e, s as int) {
                        let k = choose|k: int|
                            0 <= k < s && !tasks[#[trigger] stops@[k] as int].abandon && e
                                == creation_at(
                                task_edge(me@, waiter@, tasks[stops@[k] as int].target),
                            );
                        assert(0 <= k < s + 1 && !tasks[stops@[k] as int].abandon);
                        assert(gone(e, s + 1));
                    }
                    if gone(e, s + 1) && !gone(e, s as int) {
                        let k = choose|k: int|
                            0 <= k < s + 1 && !tasks[#[trigger] stops@[k] as int].abandon && e
                                == creation_at(
                                task_edge(me@, waiter@, tasks[stops@[k] as int].target),
                            );
                        if k < s {
                            assert(0 <= k < s && !tasks[stops@[k] as int].abandon);
                            assert(gone(e, s as int));
                        }
                        assert(k == s);
                    }
                    if !tasks[i as int].abandon && e == x {
                        assert(0 <= s < s + 1 && !tasks[stops@[s as int] as int].abandon);
                        assert(gone(e, s + 1));
                    }
                }
            }
        }
        assert(g@ =~= drained_graph(graph, tasks, me@, waiter@)) by {
            assert forall|e: EdgeView| g@.contains(e) <==> drained_graph(
                graph,
                tasks,
                me@,
                waiter@,
            ).contains(e) by {
                if gone(e, stops.len() as int) {
                    let k = choose|k: int|
                        0 <= k < stops.len() && !tasks[#[trigger] stops@[k] as int].abandon && e
                            == creation_at(
                            task_edge(me@, waiter@, tasks[stops@[k] as int].target),
                        );
                    assert(abandoned(tasks, stops@[k] as int));
                }
                if exists|i: int| #[trigger]
                    abandoned(tasks, i) && !tasks[i].abandon && e == creation_at(
                        task_edge(me@, waiter@, tasks[i].target),
                    ) {
                    let i = choose|i: int| #[trigger]
                        abandoned(tasks, i) && !tasks[i].abandon && e == creation_at(
                            task_edge(me@, waiter@, tasks[i].target),
                        );
                    assert(stops@.contains(i as usize));
                    let k = choose|k: int| 0 <= k < stops.len() && stops@[k] == i as usize;
                    assert(!tasks[stops@[k] as int].abandon);
                    assert(gone(e, stops.len() as int));
                }
            }
        }
        for s in 0..stops.len()
            invariant
                n == self.tasks.len(),
                tasks.len() == n,
                forall|k: int| 0 <= k < stops.len() ==> (#[trigger] stops@[k]) < n && abandoned(
                    tasks,
                    stops@[k] as int,
                ),
                forall|k: int|
                    0 <= k < n ==> ((#[trigger] self.tasks@[k])@ == tasks[k] || (abandoned(
                        tasks,
                        k,
                    ) && self.tasks@[k]@ == (TaskView { abandon: true, ..tasks[k] }))),
                forall|l: int|
                    0 <= l < s ==> self.tasks@[(#[trigger] stops@[l]) as int]@ == (TaskView {
                        abandon: true,
                        ..tasks[stops@[l] as int]
                    }),
                self.own_busy == old(self).own_busy,
                self.env_watch == old(self).env_watch,
        {
            let i = stops[s];
            assert(abandoned(tasks, stops@[s as int] as int));
            let ghost before = self.tasks@;
            assert(before[i as int]@ == tasks[i as int] || before[i as int]@ == (TaskView {
                abandon: true,
                ..tasks[i as int]
            }));
            self.tasks[i].abandon = true;
            assert(self.tasks@[i as int]@ == (TaskView { abandon: true, ..tasks[i as int] }));
            assert forall|k: int| 0 <= k < n && k != i implies (#[trigger] self.tasks@[k])
                == before[k] by {}
        }
        assert(self.view_tasks() =~= drained_tasks(tasks)) by {
            assert forall|i: int| 0 <= i < n implies self.view_tasks()[i] == drained_tasks(
                tasks,
            )[i] by {
                assert(self.view_tasks()[i] == self.tasks@[i]@);
                if abandoned(tasks, i) {
                    assert(stops@.contains(i as usize));
                    let k = choose|k: int| 0 <= k < stops.len() && stops@[k] == i as usize;
                    assert(self.tasks@[stops@[k] as int]@ == (TaskView {
                        abandon: true,
                        ..tasks[i]
                    }));
                }
            }
        }
        out
    }
}

/// The waiter name under which a process starts speculative tasks: its context
/// target, or for a top-level process, which has no name that anyone could wait
/// on, a sentinel that nothing leads to.
pub open spec fn waiter_name(target: Option<Seq<char>>, me: Seq<char>) -> Seq<char> {
    match target {
        Some(t) => t,
        None => "\u{1}top:"@ + me,
    }
}

/// The waiter name under which a process starts speculative tasks.
pub fn creation_waiter(target: &Option<String>, me: &str) -> (s: String)
    ensures
        s@ == waiter_name(opt(*target), me@),
{
    match target {
        Some(t) => t.clone(),
        None => cat("\u{1}top:", me),
    }
}

/// A top-level process's waiter name is a sentinel.
pub proof fn law_top_waiter_is_a_sentinel(me: Seq<char>)
    ensures
        crate::waits::sentinel(waiter_name(None, me)),
{
    reveal_strlit("\u{1}top:");
}

/// What a task's thread inherits.
#[derive(Debug, PartialEq, Eq)]
pub struct TaskContext {
    /// The creation edges whose disappearance means "abort".
    pub watch: Vec<EdgeRef>,
    /// The targets whose do-files the task runs inside of.
    pub chain: Vec<String>,
}

fn copy_refs(v: &[EdgeRef]) -> (out: Vec<EdgeRef>)
    ensures
        refs(out@) == refs(v@),
{
    let mut out: Vec<EdgeRef> = Vec::new();
    for i in 0..v.len()
        invariant
            refs(out@) == refs(v@).take(i as int),
    {
        let ghost before = refs(out@);
        let r = EdgeRef {
            owner: v[i].owner.clone(),
            waiter: v[i].waiter.clone(),
            dep: v[i].dep.clone(),
        };
        let ghost rv = r@;
        out.push(r);
        assert(refs(out@) =~= before.push(rv));
        assert(refs(v@)[i as int] == rv);
        assert(refs(out@) =~= refs(v@).take(i + 1));
    }
    assert(refs(v@).take(v.len() as int) =~= refs(v@));
    out
}

impl Registry {
    /// What a task's thread inherits: the watch of the process, never that of
    /// the thread that starts it, since a sibling's fate is its own. A
    /// speculative task watches its creation edge too, and is on no do-file's
    /// call stack, so its chain is empty.
    pub fn task_context(
        &self,
        me: &str,
        waiter: &str,
        target: &str,
        demanded: bool,
        chain: &[String],
    ) -> (c: TaskContext)
        ensures
            refs(c.watch@) == if demanded {
                refs(self.env_watch@)
            } else {
                refs(self.env_watch@).push(task_edge(me@, waiter@, target@))
            },
            texts(c.chain@) == if demanded {
                texts(chain@)
            } else {
                Seq::empty()
            },
    {
        let mut watch = copy_refs(self.env_watch.as_slice());
        if demanded {
            return TaskContext { watch, chain: copy_texts(chain) };
        }
        let ghost before = refs(watch@);
        let r = EdgeRef {
            owner: me.to_owned(),
            waiter: to_lower(waiter),
            dep: to_lower(target),
        };
        let ghost rv = r@;
        watch.push(r);
        assert(refs(watch@) =~= before.push(rv));
        let c = TaskContext { watch, chain: Vec::new() };
        assert(texts(c.chain@) =~= Seq::<Seq<char>>::empty());
        c
    }

    /// One try to get a token for a build: the process's own if it is free and
    /// the task may use it, else one from the pool. A task that is still
    /// speculative, and that nobody waits for, uses surplus parallelism only.
    pub fn acquire_token(
        &mut self,
        jobs: &mut Jobserver,
        demanded: Option<bool>,
        wanted: Option<bool>,
    ) -> (r: TokenStep)
        ensures
            final(self).tasks == old(self).tasks,
            final(self).env_watch == old(self).env_watch,
            (TokenState { own_busy: final(self).own_busy, pool: final(jobs)@ }, r) == token_taken(
                TokenState { own_busy: old(self).own_busy, pool: old(jobs)@ },
                own_eligible(demanded, wanted),
            ),
    {
        let eligible = match demanded {
            None => true,
            Some(d) => d,
        } || match wanted {
            None => false,
            Some(w) => w,
        };
        if eligible && !self.own_busy {
            self.own_busy = true;
            return TokenStep::Own;
        }
        match jobs.try_acquire() {
            Take::Granted => TokenStep::Pool,
            Take::Refused => TokenStep::Wait,
            Take::Ask => TokenStep::Ask,
        }
    }

    /// Return a token where it came from. `true` if it is to be put back into a
    /// pool outside the process.
    pub fn release_token(&mut self, jobs: &mut Jobserver, src: TokenSrc) -> (tell: bool)
        ensures
            final(self).tasks == old(self).tasks,
            final(self).env_watch == old(self).env_watch,
            (TokenState { own_busy: final(self).own_busy, pool: final(jobs)@ }, tell)
                == token_returned(
                TokenState { own_busy: old(self).own_busy, pool: old(jobs)@ },
                src,
            ),
    {
        match src {
            TokenSrc::Own => {
                self.own_busy = false;
                false
            },
            TokenSrc::Pool => jobs.release(),
        }
    }
}

/// Whether a task may use the process's own token: it was demanded, from birth
/// or by now, or somebody waits for it.
pub open spec fn own_eligible(demanded: Option<bool>, wanted: Option<bool>) -> bool {
    (demanded is None || demanded->0) || (wanted is Some && wanted->0)
}

/// What a try to get a token gave.
#[derive(Debug, Clone, Copy, PartialEq, Eq, Structural)]
pub enum TokenStep {
    /// The own token.
    Own,
    /// A token from the pool.
    Pool,
    /// The pool is outside the process: ask it.
    Ask,
    /// None is free.
    Wait,
}

/// The tokens of a process: whether its own is in use, and the pool.
#[verifier::ext_equal]
pub struct TokenState {
    pub own_busy: bool,
    pub pool: PoolView,
}

/// A try to get a token, for a task that may or may not use the own one.
pub open spec fn token_taken(st: TokenState, own_ok: bool) -> (TokenState, TokenStep) {
    if own_ok && !st.own_busy {
        (TokenState { own_busy: true, ..st }, TokenStep::Own)
    } else {
        let (pool, r) = taken(st.pool);
        (
            TokenState { pool, ..st },
            match r {
                Take::Granted => TokenStep::Pool,
                Take::Refused => TokenStep::Wait,
                Take::Ask => TokenStep::Ask,
            },
        )
    }
}

/// The return of a token, and whether a pool outside the process gets it.
pub open spec fn token_returned(st: TokenState, src: TokenSrc) -> (TokenState, bool) {
    match src {
        TokenSrc::Own => (TokenState { own_busy: false, ..st }, false),
        TokenSrc::Pool => {
            let (pool, tell) = returned(st.pool);
            (TokenState { pool, ..st }, tell)
        },
    }
}

/// One step in the life of the tokens of a process.
pub enum TokenMove {
    /// A task tries to get one.
    Take { own_ok: bool },
    /// A build ends, and its token is returned.
    Return(TokenSrc),
}

/// The tokens and those that builds hold, after a history of moves.
pub struct TokenRun {
    pub tokens: TokenState,
    /// Builds that hold the own token.
    pub own: int,
    /// Builds that hold a token from the pool.
    pub pool: int,
}

/// A step of a history: a token that was granted is held, one that is returned
/// is held no more.
pub open spec fn token_step(r: TokenRun, m: TokenMove) -> TokenRun {
    match m {
        TokenMove::Take { own_ok } => {
            let t = token_taken(r.tokens, own_ok);
            TokenRun {
                tokens: t.0,
                own: if t.1 is Own {
                    r.own + 1
                } else {
                    r.own
                },
                pool: if t.1 is Pool {
                    r.pool + 1
                } else {
                    r.pool
                },
            }
        },
        TokenMove::Return(src) => TokenRun {
            tokens: token_returned(r.tokens, src).0,
            own: if src is Own {
                r.own - 1
            } else {
                r.own
            },
            pool: if src is Own {
                r.pool
            } else {
                r.pool - 1
            },
        },
    }
}

/// The state after a history that starts with all tokens free and a pool of
/// `j - 1` in this process.
pub open spec fn token_history(j: int, moves: Seq<TokenMove>) -> TokenRun
    decreases moves.len(),
{
    if moves.len() == 0 {
        TokenRun {
            tokens: TokenState { own_busy: false, pool: PoolView::Local { extra: j - 1 } },
            own: 0,
            pool: 0,
        }
    } else {
        token_step(token_history(j, moves.drop_last()), moves.last())
    }
}

/// Whether a history returns only tokens that some build holds.
pub open spec fn honest(j: int, moves: Seq<TokenMove>) -> bool
    decreases moves.len(),
{
    moves.len() == 0 || (honest(j, moves.drop_last()) && match moves.last() {
        TokenMove::Take { .. } => true,
        TokenMove::Return(src) => {
            let r = token_history(j, moves.drop_last());
            if src is Own {
                r.own > 0
            } else {
                r.pool > 0
            }
        },
    })
}

/// No token is lost or duplicated, and at most `j` builds of a process hold one
/// at a time: after every history of tries and returns, what builds hold and what
/// is free add up to `j`.
pub proof fn law_tokens_conserved(j: int, moves: Seq<TokenMove>)
    requires
        1 <= j <= usize::MAX,
        honest(j, moves),
    ensures
        ({
            let r = token_history(j, moves);
            &&& r.tokens.pool matches PoolView::Local { extra }
            &&& extra >= 0
            &&& r.own == if r.tokens.own_busy {
                1int
            } else {
                0int
            }
            &&& r.pool >= 0
            &&& r.pool + extra == j - 1
            &&& r.own + r.pool <= j
        }),
    decreases moves.len(),
{
    if moves.len() > 0 {
        law_tokens_conserved(j, moves.drop_last());
    }
}

/// Nobody starves while a token is free: a try by a task that may use the own
/// token fails only while all `j` are held.
pub proof fn law_free_token_is_granted(j: int, moves: Seq<TokenMove>)
    requires
        1 <= j <= usize::MAX,
        honest(j, moves),
    ensures
        ({
            let r = token_history(j, moves);
            token_taken(r.tokens, true).1 is Wait ==> r.own + r.pool == j
        }),
{
    law_tokens_conserved(j, moves);
}

/// Whether speculative work is dead: its task was told to stop, or an edge that
/// it watches is gone.
pub fn speculation_dead(abandon: Option<bool>, watch: &[EdgeRef], g: &WaitGraph) -> (r: bool)
    ensures
        r == dead_lineage(abandon, refs(watch@), g@),
{
    match abandon {
        Some(flag) => {
            if flag {
                return true;
            }
        },
        None => {},
    }
    let dead = watch_dead(g, watch);
    proof {
        let w = refs(watch@);
        if dead {
            let i = choose|i: int| 0 <= i < watch.len() && !alive(g@, #[trigger] watch@[i]@);
            assert(w[i] == watch@[i]@);
        }
        if exists|i: int| 0 <= i < w.len() && !alive(g@, #[trigger] w[i]) {
            let i = choose|i: int| 0 <= i < w.len() && !alive(g@, #[trigger] w[i]);
            assert(w[i] == watch@[i]@);
        }
    }
    dead
}

/// Whether speculative work is dead.
pub open spec fn dead_lineage(
    abandon: Option<bool>,
    watch: Seq<EdgeRefView>,
    g: Set<EdgeView>,
) -> bool {
    (abandon is Some && abandon->0) || exists|i: int|
        0 <= i < watch.len() && !alive(g, #[trigger] watch[i])
}

/// Fail if this work is speculative and dead.
pub fn abort_check(abandon: Option<bool>, watch: &[EdgeRef], g: &WaitGraph) -> (r: Result<
    (),
    SpecAborted,
>)
    ensures
        match r {
            Ok(_) => !dead_lineage(abandon, refs(watch@), g@),
            Err(e) => dead_lineage(abandon, refs(watch@), g@) && e.0@
                == "no longer needed here (it will be re-run when genuinely needed)"@,
        },
{
    if speculation_dead(abandon, watch, g) {
        Err(
            SpecAborted(
                "no longer needed here (it will be re-run when genuinely needed)".to_owned(),
            ),
        )
    } else {
        Ok(())
    }
}

/// Abort a speculative lineage from below, unless it was demanded. A file that
/// was edited by hand may only be asked about where every creation edge that
/// guards the work has become a demand. Otherwise the nearest creation edge is
/// deleted, which aborts the lineage, and the work counts as aborted; so it does
/// if an edge is gone already.
pub fn abort_unless_lineage_demanded(g: &mut WaitGraph, watch: &[EdgeRef]) -> (aborted: bool)
    requires
        old(g).wf(),
    ensures
        final(g).wf(),
        aborted == !lineage_demanded(old(g)@, refs(watch@)),
        !aborted ==> final(g)@ == old(g)@,
        forall|k: int| #[trigger]
            nearest_undemanded(old(g)@, refs(watch@), k) ==> final(g)@ == aborted_at(
                old(g)@,
                refs(watch@)[k],
            ),
        acyclic(old(g)@) ==> acyclic(final(g)@),
{
    let ghost graph = g@;
    let ghost w = refs(watch@);
    proof {
        g.lemma_keyed();
    }
    let mut i: usize = watch.len();
    while i > 0
        invariant
            i <= watch.len(),
            g.wf(),
            g@ == graph,
            graph == old(g)@,
            crate::waits::keyed(graph),
            w == refs(watch@),
            forall|k: int| i <= k < watch.len() ==> demanded_edge(graph, #[trigger] w[k]),
        decreases i,
    {
        let e = &watch[i - 1];
        assert(w[i - 1] == e@);
        if !crate::waits::edge_alive(g, e) {
            assert(!demanded_edge(graph, w[i - 1])) by {
                if demanded_edge(graph, w[i - 1]) {
                    assert(graph.contains(demand_at(w[i - 1])));
                }
            }
            return true;
        }
        if crate::waits::abort_creation(g, e) {
            assert(!demanded_edge(graph, w[i - 1])) by {
                if demanded_edge(graph, w[i - 1]) {
                    assert(crate::waits::same_key(demand_at(e@), creation_at(e@)));
                }
            }
            assert(graph.contains(creation_at(watch@[i - 1]@)));
            return true;
        }
        let kind_is_demand = crate::waits::edge_demanded(g, e);
        if !kind_is_demand {
            return true;
        }
        i = i - 1;
    }
    false
}

/// The demand edge that `r` refers to.
pub open spec fn demand_at(r: EdgeRefView) -> EdgeView {
    EdgeView { owner: r.owner, waiter: r.waiter, dep: r.dep, kind: EdgeKind::Demand }
}

/// Whether an edge has become a demand.
pub open spec fn demanded_edge(g: Set<EdgeView>, r: EdgeRefView) -> bool {
    g.contains(demand_at(r))
}

/// Whether every creation edge that guards some work has become a demand.
pub open spec fn lineage_demanded(g: Set<EdgeView>, watch: Seq<EdgeRefView>) -> bool {
    forall|i: int| 0 <= i < watch.len() ==> demanded_edge(g, #[trigger] watch[i])
}

/// Whether the `k`-th edge that guards some work is the nearest that has not become
/// a demand: all that follow it have.
pub open spec fn nearest_undemanded(g: Set<EdgeView>, watch: Seq<EdgeRefView>, k: int) -> bool {
    &&& 0 <= k < watch.len()
    &&& !demanded_edge(g, watch[k])
    &&& forall|j: int| k < j < watch.len() ==> demanded_edge(g, #[trigger] watch[j])
}

/// The graph after the abort of what a creation edge guards: the edge goes, and with
/// it the edges that leave what it guards. Nothing goes if the edge is gone already.
pub open spec fn aborted_at(g: Set<EdgeView>, r: EdgeRefView) -> Set<EdgeView> {
    if g.contains(creation_at(r)) {
        evicted(g, creation_at(r))
    } else {
        g
    }
}

/// An undemanded lineage has a nearest edge that has not become a demand.
proof fn lemma_nearest_undemanded(g: Set<EdgeView>, watch: Seq<EdgeRefView>)
    requires
        !lineage_demanded(g, watch),
    ensures
        exists|k: int| #[trigger] nearest_undemanded(g, watch, k),
    decreases watch.len(),
{
    let n = watch.len() - 1;
    if n >= 0 && demanded_edge(g, watch[n]) {
        let front = watch.drop_last();
        let i = choose|i: int| 0 <= i < watch.len() && !demanded_edge(g, #[trigger] watch[i]);
        assert(front[i] == watch[i]);
        lemma_nearest_undemanded(g, front);
        let k = choose|k: int| #[trigger] nearest_undemanded(g, front, k);
        assert forall|j: int| k < j < watch.len() implies demanded_edge(g, #[trigger] watch[j]) by {
            if j < n {
                assert(front[j] == watch[j]);
            }
        }
        assert(nearest_undemanded(g, watch, k));
    } else if n >= 0 {
        assert(nearest_undemanded(g, watch, n));
    }
}

/// The edge of a check that `r` refers to.
pub open spec fn checker_at(r: EdgeRefView) -> EdgeView {
    EdgeView { owner: r.owner, waiter: r.waiter, dep: r.dep, kind: EdgeKind::Checker }
}

/// Work that was not demanded all the way up is dead once it was aborted from below:
/// whoever watches the edges that guard it finds one gone. No edge of a check shares
/// its key with an edge that guards work.
pub proof fn law_undemanded_lineage_dies(g: Set<EdgeView>, watch: Seq<EdgeRefView>)
    requires
        crate::waits::keyed(g),
        !lineage_demanded(g, watch),
        forall|i: int| 0 <= i < watch.len() ==> !g.contains(checker_at(#[trigger] watch[i])),
    ensures
        exists|k: int| #[trigger]
            nearest_undemanded(g, watch, k) && dead_lineage(None, watch, aborted_at(g, watch[k])),
{
    lemma_nearest_undemanded(g, watch);
    let k = choose|k: int| #[trigger] nearest_undemanded(g, watch, k);
    let r = watch[k];
    let after = aborted_at(g, r);
    assert(!alive(after, r)) by {
        if alive(after, r) {
            let e = choose|e: EdgeView| #[trigger]
                after.contains(e) && e.owner == r.owner && e.waiter == r.waiter && e.dep == r.dep;
            assert(g.contains(e));
            assert(crate::waits::same_key(e, creation_at(r)));
            if e.kind is Demand {
                assert(e == demand_at(r));
            } else if e.kind is Checker {
                assert(e == checker_at(r));
            }
        }
    }
}

/// What a task does first.
#[derive(Debug, Clone, Copy, PartialEq, Eq, Structural)]
pub enum TaskStart {
    /// Nothing: the target was built or verified earlier in this run.
    Skip,
    /// Check the recorded dependencies.
    Check,
    /// Build, without checking.
    Build,
}

/// What a task does first: a forced target is built, one that was settled in
/// this session already is skipped, any other is checked.
pub open spec fn first_step(force: bool, runid: Option<i64>, session: i64) -> TaskStart {
    if force {
        TaskStart::Build
    } else if runid == Some(session) {
        TaskStart::Skip
    } else {
        TaskStart::Check
    }
}

/// What a task does first.
pub fn task_start(force: bool, runid: Option<i64>, session: i64) -> (r: TaskStart)
    ensures
        r == first_step(force, runid, session),
{
    if force {
        return TaskStart::Build;
    }
    match runid {
        Some(n) => if n == session {
            TaskStart::Skip
        } else {
            TaskStart::Check
        },
        None => TaskStart::Check,
    }
}

/// What a checker that waits for a task does next.
#[derive(Debug, PartialEq, Eq)]
pub enum WatchStep {
    Done,
    /// The task failed, in whatever way: soft for the checker.
    SoftFailed(String),
    /// The checker's edge was evicted: stop waiting.
    Evicted,
    /// The checker's own lineage is dead.
    Abort,
    /// Wait on.
    Wait,
}

impl Registry {
    /// What a checker that waits for a task does next, given whether its own
    /// edge still stands and whether its own lineage is dead. A task that
    /// settled counts before either.
    pub fn watched_step(&self, id: usize, edge_alive: bool, dead: bool) -> (r: WatchStep)
        requires
            id < self.tasks.len(),
        ensures
            match self.view_tasks()[id as int].state {
                StateView::Done => r is Done,
                StateView::Failed(m) => r matches WatchStep::SoftFailed(s) && s@ == m,
                StateView::SpecFailed(m) => r matches WatchStep::SoftFailed(s) && s@ == m,
                StateView::Running => if !edge_alive {
                    r is Evicted
                } else if dead {
                    r is Abort
                } else {
                    r is Wait
                },
            },
    {
        match self.outcome(id) {
            Some(Outcome::Done) => WatchStep::Done,
            Some(Outcome::Failed(m)) => WatchStep::SoftFailed(m),
            Some(Outcome::SpecFailed(m)) => WatchStep::SoftFailed(m),
            None => if !edge_alive {
                WatchStep::Evicted
            } else if dead {
                WatchStep::Abort
            } else {
                WatchStep::Wait
            },
        }
    }
}

/// How often a quarantined target is claimed anew before its failure counts.
pub const RECLAIMS_MAX: u32 = 2;

/// A group of demanded targets that is brought up to date: all are waited for,
/// even after a failure, and the first failure is reported.
#[derive(Debug, PartialEq, Eq)]
pub struct Group {
    pub targets: Vec<String>,
    /// The task of each target.
    pub ids: Vec<usize>,
    /// The target that is waited for.
    pub at: usize,
    /// How often it was claimed anew.
    pub reclaims: u32,
    pub first_err: Option<String>,
}

/// The progress of a group, as a mathematical value.
#[verifier::ext_equal]
pub struct GroupView {
    pub ids: Seq<usize>,
    pub at: int,
    pub reclaims: int,
    pub first_err: Option<Seq<char>>,
}

impl View for Group {
    type V = GroupView;

    open spec fn view(&self) -> GroupView {
        GroupView {
            ids: self.ids@,
            at: self.at as int,
            reclaims: self.reclaims as int,
            first_err: opt(self.first_err),
        }
    }
}

/// The group after the current target settled, with a failure or without.
pub open spec fn group_next(g: GroupView, failure: Option<Seq<char>>) -> GroupView {
    GroupView {
        at: g.at + 1,
        reclaims: 0,
        first_err: if g.first_err is Some {
            g.first_err
        } else {
            failure
        },
        ..g
    }
}

/// Whether the outcome of the current target is final: a quarantined one is
/// claimed anew, unless the process itself is unwinding or it happened too
/// often.
pub open spec fn final_outcome(g: GroupView, o: Outcome, dead: bool) -> bool {
    o is SpecFailed ==> dead || g.reclaims >= RECLAIMS_MAX
}

/// The failure that an outcome reports.
pub open spec fn outcome_failure(o: Outcome) -> Option<Seq<char>> {
    match o {
        Outcome::Done => None,
        Outcome::Failed(m) => Some(m@),
        Outcome::SpecFailed(m) => Some(m@),
    }
}

/// The group after the task that it waits for settled; `id` is the task that a
/// target which is claimed anew gets.
pub open spec fn group_step(g: GroupView, o: Outcome, dead: bool, id: usize) -> GroupView {
    if final_outcome(g, o, dead) {
        group_next(g, outcome_failure(o))
    } else {
        GroupView { ids: g.ids.update(g.at, id), reclaims: g.reclaims + 1, ..g }
    }
}

impl Group {
    /// Well-formed: there is a task per target.
    pub open spec fn wf(&self) -> bool {
        self.ids.len() == self.targets.len() && self.at <= self.ids.len() && self.reclaims
            <= RECLAIMS_MAX
    }

    /// The task to wait for, until all settled.
    pub fn waits_for(&self) -> (r: Option<usize>)
        requires
            self.wf(),
        ensures
            r == if self@.at < self@.ids.len() {
                Some(self@.ids[self@.at])
            } else {
                None
            },
    {
        if self.at < self.ids.len() {
            Some(self.ids[self.at])
        } else {
            None
        }
    }

    /// The task that is waited for settled; `dead` tells whether the process's
    /// own lineage is dead. A real demand never adopts a speculative failure:
    /// the target is claimed anew, and a task that is returned must be started.
    pub fn observe(&mut self, reg: &mut Registry, outcome: Outcome, dead: bool) -> (start: Option<
        usize,
    >)
        requires
            old(self).wf(),
            old(self)@.at < old(self)@.ids.len(),
        ensures
            final(self).wf(),
            final(self).targets == old(self).targets,
            final(reg).tasks.len() >= old(reg).tasks.len(),
            if final_outcome(old(self)@, outcome, dead) {
                &&& final(self)@ == group_step(old(self)@, outcome, dead, 0)
                &&& start is None
                &&& *final(reg) == *old(reg)
            } else {
                let name = old(self).targets@[old(self)@.at]@;
                let tasks = old(reg).view_tasks();
                let held = claim_of(tasks, name);
                let shared = held is Some && !(tasks[held->0].state is SpecFailed);
                let id = if shared {
                    held->0 as usize
                } else {
                    tasks.len() as usize
                };
                &&& final(self)@ == group_step(old(self)@, outcome, dead, id)
                &&& start == if shared {
                    None
                } else {
                    Some(id)
                }
                &&& final(reg).view_tasks() == if shared {
                    tasks
                } else {
                    tasks.push(fresh_task(name, true))
                }
            },
            final(reg).own_busy == old(reg).own_busy,
            final(reg).env_watch == old(reg).env_watch,
    {
        let failure = match outcome {
            Outcome::Done => None,
            Outcome::Failed(m) => Some(m),
            Outcome::SpecFailed(m) => {
                if !dead && self.reclaims < RECLAIMS_MAX {
                    let (id, fresh) = reg.reclaim(self.targets[self.at].as_str());
                    self.reclaims = self.reclaims + 1;
                    self.ids.set(self.at, id);
                    return if fresh {
                        Some(id)
                    } else {
                        None
                    };
                }
                Some(m)
            },
        };
        self.at = self.at + 1;
        self.reclaims = 0;
        if self.first_err.is_none() {
            self.first_err = failure;
        }
        None
    }

    /// How bringing the group up to date went, once all settled: the first
    /// failure, if there was one.
    pub fn result(&self) -> (r: Result<(), String>)
        ensures
            match r {
                Ok(_) => self@.first_err is None,
                Err(m) => self@.first_err == Some(m@),
            },
    {
        match &self.first_err {
            Some(m) => Err(m.clone()),
            None => Ok(()),
        }
    }
}

/// What a group was told at one time: how the task that it waits for settled, whether
/// the process's own lineage is dead, and the task that a new claim got.
pub struct Told {
    pub outcome: Outcome,
    pub dead: bool,
    pub id: usize,
}

/// A group after a history of outcomes, and the final outcome of each target that it
/// has done with, in the order of the list: none if it ended done, else the failure.
pub open spec fn group_history(g: GroupView, told: Seq<Told>) -> (GroupView, Seq<Option<Seq<char>>>)
    decreases told.len(),
{
    if told.len() == 0 {
        (g, Seq::empty())
    } else {
        let (now, ends) = group_history(g, told.drop_last());
        let t = told.last();
        (
            group_step(now, t.outcome, t.dead, t.id),
            if final_outcome(now, t.outcome, t.dead) {
                ends.push(outcome_failure(t.outcome))
            } else {
                ends
            },
        )
    }
}

/// Whether a group waited for a task whenever it was told of one.
pub open spec fn awaited(g: GroupView, told: Seq<Told>) -> bool
    decreases told.len(),
{
    told.len() == 0 || (awaited(g, told.drop_last()) && {
        let now = group_history(g, told.drop_last()).0;
        now.at < now.ids.len()
    })
}

/// The first failure of a list of outcomes.
pub open spec fn first_failure(ends: Seq<Option<Seq<char>>>) -> Option<Seq<char>>
    decreases ends.len(),
{
    if ends.len() == 0 {
        None
    } else if first_failure(ends.drop_last()) is Some {
        first_failure(ends.drop_last())
    } else {
        ends.last()
    }
}

proof fn lemma_first_failure(ends: Seq<Option<Seq<char>>>)
    ensures
        match first_failure(ends) {
            None => forall|k: int| 0 <= k < ends.len() ==> #[trigger] ends[k] is None,
            Some(m) => exists|k: int|
                0 <= k < ends.len() && #[trigger] ends[k] == Some(m) && forall|i: int|
                    0 <= i < k ==> #[trigger] ends[i] is None,
        },
    decreases ends.len(),
{
    if ends.len() > 0 {
        let front = ends.drop_last();
        lemma_first_failure(front);
        let n = ends.len() - 1;
        match first_failure(front) {
            Some(m) => {
                let k = choose|k: int|
                    0 <= k < front.len() && #[trigger] front[k] == Some(m) && forall|i: int|
                        0 <= i < k ==> #[trigger] front[i] is None;
                assert(ends[k] == Some(m));
                assert forall|i: int| 0 <= i < k implies #[trigger] ends[i] is None by {
                    assert(front[i] is None);
                }
            },
            None => {
                assert forall|i: int| 0 <= i < n implies #[trigger] ends[i] is None by {
                    assert(front[i] is None);
                }
                assert(ends[n] == ends.last());
            },
        }
    }
}

proof fn lemma_group_history(g: GroupView, told: Seq<Told>)
    requires
        g.at == 0,
        g.reclaims == 0,
        g.first_err is None,
        awaited(g, told),
    ensures
        ({
            let (now, ends) = group_history(g, told);
            &&& now.ids.len() == g.ids.len()
            &&& now.at == ends.len() <= g.ids.len()
            &&& 0 <= now.reclaims <= RECLAIMS_MAX
            &&& now.first_err == first_failure(ends)
            &&& told.len() <= (RECLAIMS_MAX + 1) * now.at + now.reclaims
        }),
    decreases told.len(),
{
    if told.len() > 0 {
        lemma_group_history(g, told.drop_last());
        let (now, ends) = group_history(g, told.drop_last());
        let next = group_history(g, told).1;
        if next.len() > ends.len() {
            assert(next.drop_last() =~= ends);
        }
    }
}

/// A group is waited for as a whole: whatever fails, it waits until each target has a
/// final outcome, which comes after a bounded number of new claims. It went well exactly
/// if every target ended done; else its result is the failure that comes first in the
/// order of the list.
pub proof fn law_group_settles(g: GroupView, told: Seq<Told>)
    requires
        g.at == 0,
        g.reclaims == 0,
        g.first_err is None,
        awaited(g, told),
    ensures
        ({
            let (now, ends) = group_history(g, told);
            &&& now.at == ends.len()
            &&& now.at < now.ids.len() <==> ends.len() < g.ids.len()
            &&& told.len() <= (RECLAIMS_MAX + 1) * g.ids.len()
            &&& now.first_err is None <==> forall|k: int|
                0 <= k < ends.len() ==> #[trigger] ends[k] is None
            &&& now.first_err is Some ==> exists|k: int|
                0 <= k < ends.len() && #[trigger] ends[k] == now.first_err && forall|i: int|
                    0 <= i < k ==> #[trigger] ends[i] is None
        }),
{
    lemma_group_history(g, told);
    lemma_first_failure(group_history(g, told).1);
    if told.len() > 0 {
        lemma_group_history(g, told.drop_last());
    }
}

/// The tasks of a list of claims.
pub open spec fn claim_ids(c: Seq<Claim>) -> Seq<usize> {
    c.map_values(|c: Claim| c.id)
}

/// Bring a group of demanded targets up to date: claim a task for each, and wait
/// for them as a [`Group`]. The claims tell which tasks must be started, and
/// which upgrades must enter the graph.
pub fn ensure_all(reg: &mut Registry, targets: &[String], top: bool) -> (r: (Group, Vec<Claim>))
    ensures
        (final(reg).view_tasks(), r.1@) == claim_run(
            old(reg).view_tasks(),
            texts(targets@),
            top,
        ),
        final(reg).own_busy == old(reg).own_busy,
        final(reg).env_watch == old(reg).env_watch,
        r.0.wf(),
        texts(r.0.targets@) == texts(targets@),
        r.0@ == (GroupView { ids: claim_ids(r.1@), at: 0, reclaims: 0, first_err: None }),
{
    let claims = reg.activate_demanded(targets, top);
    let mut ids: Vec<usize> = Vec::new();
    for i in 0..claims.len()
        invariant
            ids@ == claim_ids(claims@).take(i as int),
    {
        ids.push(claims[i].id);
        assert(ids@ =~= claim_ids(claims@).take(i + 1));
    }
    assert(claim_ids(claims@).take(claims.len() as int) =~= claim_ids(claims@));
    let names = copy_texts(targets);
    assert(texts(names@).len() == names.len());
    assert(texts(targets@).len() == targets.len());
    let group = Group { targets: names, ids, at: 0, reclaims: 0, first_err: None };
    (group, claims)
}

/// Bring one target up to date.
pub fn ensure(reg: &mut Registry, target: &str, top: bool) -> (r: (Group, Vec<Claim>))
    ensures
        ({
            let one = claim_step(old(reg).view_tasks(), target@, top);
            &&& final(reg).view_tasks() == one.0
            &&& r.1@ == seq![one.1]
            &&& r.0.wf()
            &&& texts(r.0.targets@) == seq![target@]
            &&& r.0@ == (GroupView { ids: seq![one.1.id], at: 0, reclaims: 0, first_err: None })
        }),
        final(reg).own_busy == old(reg).own_busy,
        final(reg).env_watch == old(reg).env_watch,
{
    let ghost tasks = reg.view_tasks();
    let mut list: Vec<String> = Vec::new();
    list.push(target.to_owned());
    proof {
        assert(texts(list@) =~= seq![target@]);
        let one = seq![target@];
        assert(one.drop_last() =~= Seq::<Seq<char>>::empty());
        assert(one.last() == target@);
        assert(claim_run(tasks, one.drop_last(), top) == (tasks, Seq::<Claim>::empty()));
        let step = claim_step(tasks, target@, top);
        assert(Seq::<Claim>::empty().push(step.1) =~= seq![step.1]);
        assert(claim_run(tasks, one, top) == (step.0, Seq::<Claim>::empty().push(step.1)));
    }
    let r = ensure_all(reg, list.as_slice(), top);
    assert(claim_ids(r.1@) =~= seq![r.1@[0].id]);
    r
}

/// A speculative failure is reported to no one, and no more is an abort: only a
/// failure of a demanded task that was not aborted counts.
pub proof fn law_quarantine(t: TaskView, m: Seq<char>, aborted: bool)
    ensures
        settled(t, Some(m), aborted).state is Failed <==> t.demanded && !aborted,
        settled(t, Some(m), aborted).state is SpecFailed <==> !t.demanded || aborted,
        settled(t, None, aborted).state is Done,
{
}

/// Each target is claimed once: after a demand there is a task for it that was
/// demanded and not quarantined, and a further demand finds the same one.
pub proof fn law_one_claim(tasks: Seq<TaskView>, target: Seq<char>, other: Seq<char>, top: bool)
    requires
        same_name(target, other),
        tasks.len() < usize::MAX,
    ensures
        ({
            let first = claim_step(tasks, target, top);
            let second = claim_step(first.0, other, top);
            &&& claim_of(first.0, target) == Some(first.1.id as int)
            &&& first.0[first.1.id as int].demanded
            &&& !(first.0[first.1.id as int].state is SpecFailed)
            &&& second.1.id == first.1.id
            &&& !second.1.fresh
            &&& second.0 == first.0
        }),
{
    lemma_claim(tasks, target);
    let first = claim_step(tasks, target, top);
    lemma_claim(first.0, target);
    lemma_claim(first.0, other);
    let i = first.1.id as int;
    match claim_of(tasks, target) {
        Some(k) => {
            if !(tasks[k].state is SpecFailed) {
                assert(first.0[k].target == tasks[k].target);
                assert forall|j: int| k < j < first.0.len() implies !same_name(
                    (#[trigger] first.0[j]).target,
                    target,
                ) by {
                    assert(first.0[j] == tasks[j]);
                }
                assert(claim_of(first.0, target) == Some(k));
            } else {
                assert(first.0.last() == fresh_task(target, true));
            }
        },
        None => {
            assert(first.0.last() == fresh_task(target, true));
        },
    }
    assert(claim_of(first.0, target) == Some(i));
    assert(claim_of(first.0, other) == Some(i)) by {
        assert(same_name(first.0[i].target, other));
    }
    assert(first.0.update(i, TaskView { demanded: true, ..first.0[i] }) =~= first.0);
}

/// What a demand does to the tasks: a target that nobody claimed, or whose claim was quarantined,
/// gets a new task, which runs and was told nothing; any other shares the task it has, which goes
/// on as it is, now demanded. All other tasks stay as they are.
pub proof fn law_demand_shares_or_starts(tasks: Seq<TaskView>, target: Seq<char>, top: bool)
    requires
        tasks.len() < usize::MAX,
    ensures
        ({
            let (after, c) = claim_step(tasks, target, top);
            let id = c.id as int;
            &&& c.fresh <==> forall|k: int|
                0 <= k < tasks.len() && same_name((#[trigger] tasks[k]).target, target) ==> {
                    ||| tasks[k].state is SpecFailed
                    ||| exists|l: int|
                        k < l < tasks.len() && same_name((#[trigger] tasks[l]).target, target)
                }
            &&& 0 <= id < after.len()
            &&& c.fresh ==> id == tasks.len() && after.len() == tasks.len() + 1
                && after[id].target == target && after[id].state is Running && !after[id].abandon
                && !after[id].wanted
            &&& !c.fresh ==> after.len() == tasks.len() && same_name(tasks[id].target, target)
                && after[id].target == tasks[id].target && after[id].state == tasks[id].state
                && after[id].abandon == tasks[id].abandon && after[id].wanted == tasks[id].wanted
            &&& after[id].demanded
            &&& c.upgrade <==> !c.fresh && top && !tasks[id].demanded
            &&& forall|k: int|
                0 <= k < tasks.len() && k != id ==> #[trigger] after[k] == tasks[k]
        }),
{
    lemma_claim(tasks, target);
    let (after, c) = claim_step(tasks, target, top);
    match claim_of(tasks, target) {
        Some(i) => {
            if tasks[i].state is SpecFailed {
                assert forall|k: int|
                    0 <= k < tasks.len() && same_name((#[trigger] tasks[k]).target, target) implies {
                    ||| tasks[k].state is SpecFailed
                    ||| exists|l: int|
                        k < l < tasks.len() && same_name((#[trigger] tasks[l]).target, target)
                } by {
                    if k < i {
                        assert(same_name(tasks[i].target, target));
                    }
                }
            } else {
                assert(same_name(tasks[i].target, target));
            }
        },
        None => {},
    }
}

/// A claim that stands outlasts further demands.
proof fn lemma_claim_outlasts(
    tasks: Seq<TaskView>,
    name: Seq<char>,
    k: int,
    target: Seq<char>,
    top: bool,
)
    requires
        tasks.len() < usize::MAX,
        claim_of(tasks, name) == Some(k),
        tasks[k].demanded,
        !(tasks[k].state is SpecFailed),
    ensures
        ({
            let (after, c) = claim_step(tasks, target, top);
            &&& claim_of(after, name) == Some(k)
            &&& after[k].demanded && !(after[k].state is SpecFailed)
            &&& same_name(target, name) ==> c.id == k && !c.fresh && !c.upgrade
        }),
{
    lemma_claim(tasks, name);
    lemma_claim(tasks, target);
    let (after, c) = claim_step(tasks, target, top);
    lemma_claim(after, name);
    law_demand_shares_or_starts(tasks, target, top);
    if same_name(target, name) {
        if let Some(i) = claim_of(tasks, target) {
            if i < k {
                assert(!same_name(tasks[k].target, target));
            } else if k < i {
                assert(!same_name(tasks[i].target, name));
            }
        } else {
            assert(!same_name(tasks[k].target, target));
        }
    }
    match claim_of(after, name) {
        Some(i) => {
            if i > k {
                if i < tasks.len() {
                    assert(after[i].target == tasks[i].target);
                    assert(!same_name(tasks[i].target, name));
                } else {
                    assert(after[i].target == target);
                }
            } else if i < k {
                assert(after[k].target == tasks[k].target);
                assert(!same_name(after[k].target, name));
            }
        },
        None => {
            assert(after[k].target == tasks[k].target);
            assert(!same_name(after[k].target, name));
        },
    }
}

/// A group of demands claims each target, and each once: every target of the list ends with the
/// task that it was given, which was demanded; names that are the same up to case share one task,
/// and only the first of them can start it.
pub proof fn law_group_claims_each_target_once(
    tasks: Seq<TaskView>,
    targets: Seq<Seq<char>>,
    top: bool,
    i: int,
    j: int,
)
    requires
        tasks.len() + targets.len() < usize::MAX,
        0 <= i < targets.len(),
        0 <= j < targets.len(),
    ensures
        ({
            let (after, claims) = claim_run(tasks, targets, top);
            let id = claims[i].id as int;
            &&& claims.len() == targets.len()
            &&& claim_of(after, targets[i]) == Some(id)
            &&& after[id].demanded && !(after[id].state is SpecFailed)
            &&& same_name(targets[i], targets[j]) ==> claims[i].id == claims[j].id
            &&& same_name(targets[i], targets[j]) && i < j ==> !claims[j].fresh
            &&& claims[i].fresh ==> after[id].state is Running
        }),
{
    lemma_group_claims(tasks, targets, top, i);
    lemma_group_claims(tasks, targets, top, j);
    let (after, claims) = claim_run(tasks, targets, top);
    if same_name(targets[i], targets[j]) {
        lemma_same_claim(after, targets[i], targets[j]);
        if i < j {
            lemma_later_claim(tasks, targets, top, i, j);
        }
    }
}

proof fn lemma_same_claim(tasks: Seq<TaskView>, a: Seq<char>, b: Seq<char>)
    requires
        same_name(a, b),
    ensures
        claim_of(tasks, a) == claim_of(tasks, b),
    decreases tasks.len(),
{
    if tasks.len() > 0 {
        lemma_same_claim(tasks.drop_last(), a, b);
    }
}

proof fn lemma_claims_len(tasks: Seq<TaskView>, targets: Seq<Seq<char>>, top: bool)
    ensures
        claim_run(tasks, targets, top).1.len() == targets.len(),
        tasks.len() <= claim_run(tasks, targets, top).0.len() <= tasks.len() + targets.len(),
    decreases targets.len(),
{
    if targets.len() > 0 {
        lemma_claims_len(tasks, targets.drop_last(), top);
        lemma_claim(claim_run(tasks, targets.drop_last(), top).0, targets.last());
    }
}

proof fn lemma_group_claims(tasks: Seq<TaskView>, targets: Seq<Seq<char>>, top: bool, i: int)
    requires
        tasks.len() + targets.len() < usize::MAX,
        0 <= i < targets.len(),
    ensures
        ({
            let (after, claims) = claim_run(tasks, targets, top);
            let id = claims[i].id as int;
            &&& claims.len() == targets.len()
            &&& claim_of(after, targets[i]) == Some(id)
            &&& after[id].demanded && !(after[id].state is SpecFailed)
            &&& claims[i].fresh ==> after[id].state is Running
        }),
    decreases targets.len(),
{
    let init = targets.drop_last();
    let front = claim_run(tasks, init, top);
    lemma_claims_len(tasks, init, top);
    lemma_claims_len(tasks, targets, top);
    let (after, claims) = claim_run(tasks, targets, top);
    if i < init.len() {
        lemma_group_claims(tasks, init, top, i);
        assert(init[i] == targets[i]);
        assert(claims[i] == front.1[i]);
        let id = claims[i].id as int;
        lemma_claim(front.0, targets[i]);
        lemma_claim_outlasts(front.0, targets[i], id, targets.last(), top);
        law_demand_shares_or_starts(front.0, targets.last(), top);
        assert(after[id].state == front.0[id].state);
    } else {
        assert(targets[i] == targets.last());
        law_one_claim(front.0, targets.last(), targets.last(), top);
        law_demand_shares_or_starts(front.0, targets.last(), top);
    }
}

proof fn lemma_later_claim(
    tasks: Seq<TaskView>,
    targets: Seq<Seq<char>>,
    top: bool,
    i: int,
    j: int,
)
    requires
        tasks.len() + targets.len() < usize::MAX,
        0 <= i < j < targets.len(),
        same_name(targets[i], targets[j]),
    ensures
        !claim_run(tasks, targets, top).1[j].fresh,
    decreases targets.len(),
{
    let init = targets.drop_last();
    let front = claim_run(tasks, init, top);
    lemma_claims_len(tasks, init, top);
    if j < init.len() {
        assert(init[i] == targets[i] && init[j] == targets[j]);
        lemma_later_claim(tasks, init, top, i, j);
    } else {
        assert(init[i] == targets[i]);
        assert(targets[j] == targets.last());
        lemma_group_claims(tasks, init, top, i);
        let id = front.1[i].id as int;
        lemma_claim_outlasts(front.0, targets[i], id, targets.last(), top);
    }
}

/// What speculation does to the tasks: none that is there changes; a dependency that is claimed is
/// shared; one that is not gets a task of its own that nobody demanded if its creation edge was
/// recorded, and none if it was refused.
pub proof fn law_speculation_starts_what_is_allowed(
    tasks: Seq<TaskView>,
    deps: Seq<Seq<char>>,
    outcomes: Seq<SoftOutcome>,
    i: int,
)
    requires
        tasks.len() + deps.len() < usize::MAX,
        0 <= i < deps.len(),
        outcomes.len() == unclaimed(tasks, deps).len(),
    ensures
        ({
            let (after, out) = spec_run(tasks, deps, outcomes);
            &&& out.len() == deps.len()
            &&& after.len() >= tasks.len() && after.take(tasks.len() as int) == tasks
            &&& claim_of(tasks, deps[i]) matches Some(k) ==> out[i] == Some(k as usize)
            &&& claim_of(tasks, deps[i]) is None ==> exists|k: int|
                0 <= k < outcomes.len() && unclaimed(tasks, deps)[k] == deps[i] && (
                #[trigger] outcomes[k] is Inserted <==> out[i] is Some)
            &&& claim_of(tasks, deps[i]) is None && out[i] is Some ==> tasks.len() <= out[i]->0
                < after.len() && after[out[i]->0 as int] == fresh_task(deps[i], false)
        }),
{
    lemma_speculation(tasks, deps, outcomes, i);
    if claim_of(tasks, deps[i]) is None {
        lemma_unclaimed_at(tasks, deps, i);
        let k = unclaimed(tasks, deps.take(i)).len() as int;
        assert(outcomes[k] is Inserted <==> spec_run(tasks, deps, outcomes).1[i] is Some);
    }
}

proof fn lemma_unclaimed_at(tasks: Seq<TaskView>, deps: Seq<Seq<char>>, i: int)
    requires
        0 <= i < deps.len(),
        claim_of(tasks, deps[i]) is None,
    ensures
        unclaimed(tasks, deps.take(i)).len() < unclaimed(tasks, deps).len(),
        unclaimed(tasks, deps)[unclaimed(tasks, deps.take(i)).len() as int] == deps[i],
    decreases deps.len(),
{
    reveal(Seq::filter);
    let init = deps.drop_last();
    if i < init.len() {
        assert(init[i] == deps[i]);
        assert(init.take(i) =~= deps.take(i));
        lemma_unclaimed_at(tasks, init, i);
    } else {
        assert(deps.take(i) =~= init);
    }
}

proof fn lemma_speculation(
    tasks: Seq<TaskView>,
    deps: Seq<Seq<char>>,
    outcomes: Seq<SoftOutcome>,
    i: int,
)
    requires
        tasks.len() + deps.len() < usize::MAX,
        0 <= i < deps.len(),
    ensures
        ({
            let (after, out) = spec_run(tasks, deps, outcomes);
            &&& out.len() == deps.len()
            &&& tasks.len() <= after.len() <= tasks.len() + deps.len()
            &&& after.take(tasks.len() as int) == tasks
            &&& claim_of(tasks, deps[i]) matches Some(k) ==> out[i] == Some(k as usize)
            &&& claim_of(tasks, deps[i]) is None ==> (outcomes[unclaimed(
                tasks,
                deps.take(i),
            ).len() as int] is Inserted <==> out[i] is Some)
            &&& claim_of(tasks, deps[i]) is None && out[i] is Some ==> tasks.len() <= out[i]->0
                < after.len() && after[out[i]->0 as int] == fresh_task(deps[i], false)
        }),
    decreases deps.len(),
{
    let init = deps.drop_last();
    let front = spec_run(tasks, init, outcomes);
    let (after, out) = spec_run(tasks, deps, outcomes);
    if init.len() > 0 {
        let m = if i < init.len() {
            i
        } else {
            0
        };
        lemma_speculation(tasks, init, outcomes, m);
        assert(init[m] == deps[m]);
        assert(init.take(m) =~= deps.take(m));
    } else {
        assert(front.0 == tasks);
        assert(tasks.take(tasks.len() as int) =~= tasks);
    }
    assert(after.take(tasks.len() as int) =~= front.0.take(tasks.len() as int));
    if i == init.len() {
        assert(deps.take(i) =~= init);
        assert(deps[i] == deps.last());
    } else {
        assert(out[i] == front.1[i]);
    }
}

/// Settling a task changes how it stands and nothing else of it.
pub proof fn law_settling_keeps_the_rest(t: TaskView, message: Option<Seq<char>>, aborted: bool)
    ensures
        settled(t, message, aborted).target == t.target,
        settled(t, message, aborted).demanded == t.demanded,
        settled(t, message, aborted).wanted == t.wanted,
        settled(t, message, aborted).abandon == t.abandon,
        !(settled(t, message, aborted).state is Running),
        message matches Some(m) ==> settled(t, message, aborted).state == StateView::Failed(m)
            || settled(t, message, aborted).state == StateView::SpecFailed(m),
{
}

/// When a process drains, it tells to stop what still runs as the claim of its target and was
/// demanded by nobody; no task that was demanded, that has settled or that was superseded is
/// told. Of the graph go the creation edges of what it told, and nothing else.
pub proof fn law_draining_stops_only_speculation(
    tasks: Seq<TaskView>,
    i: int,
    g: Set<EdgeView>,
    me: Seq<char>,
    waiter: Seq<char>,
    e: EdgeView,
)
    requires
        0 <= i < tasks.len(),
    ensures
        drained_tasks(tasks).len() == tasks.len(),
        drained_tasks(tasks)[i].state == tasks[i].state,
        drained_tasks(tasks)[i].target == tasks[i].target,
        drained_tasks(tasks)[i].demanded == tasks[i].demanded,
        drained_tasks(tasks)[i].wanted == tasks[i].wanted,
        drained_tasks(tasks)[i].abandon <==> tasks[i].abandon || (tasks[i].state is Running
            && !tasks[i].demanded && forall|k: int|
            i < k < tasks.len() ==> !same_name((#[trigger] tasks[k]).target, tasks[i].target)),
        drained_graph(g, tasks, me, waiter).subset_of(g),
        g.contains(e) && !drained_graph(g, tasks, me, waiter).contains(e) ==> e.kind is Creation
            && e.owner == me && e.waiter == lower(waiter) && exists|k: int|
            0 <= k < tasks.len() && lower((#[trigger] tasks[k]).target) == e.dep
                && !tasks[k].demanded && tasks[k].state is Running,
        drained_tasks(tasks)[i].abandon && !tasks[i].abandon ==> !drained_graph(
            g,
            tasks,
            me,
            waiter,
        ).contains(
            EdgeView {
                owner: me,
                waiter: lower(waiter),
                dep: lower(tasks[i].target),
                kind: EdgeKind::Creation,
            },
        ),
{
    lemma_claim(tasks, tasks[i].target);
    if let Some(k) = claim_of(tasks, tasks[i].target) {
        if k > i {
            assert(same_name(tasks[k].target, tasks[i].target));
        } else if k < i {
            assert(!same_name(tasks[i].target, tasks[i].target));
        }
    } else {
        assert(!same_name(tasks[i].target, tasks[i].target));
    }
    if drained_tasks(tasks)[i].abandon && !tasks[i].abandon {
        assert(abandoned(tasks, i));
        assert(creation_at(task_edge(me, waiter, tasks[i].target)) == (EdgeView {
            owner: me,
            waiter: lower(waiter),
            dep: lower(tasks[i].target),
            kind: EdgeKind::Creation,
        }));
    }
    if g.contains(e) && !drained_graph(g, tasks, me, waiter).contains(e) {
        let k = choose|k: int| #[trigger]
            abandoned(tasks, k) && !tasks[k].abandon && e == creation_at(
                task_edge(me, waiter, tasks[k].target),
            );
        assert(lower(tasks[k].target) == e.dep);
    }
}

/// A speculative task watches the very edge that its creation recorded.
pub proof fn law_task_watches_its_creation(me: Seq<char>, waiter: Seq<char>, target: Seq<char>)
    ensures
        creation_at(task_edge(me, waiter, target)) == crate::waits::wait_edge(
            me,
            waiter,
            target,
            EdgeKind::Creation,
        ),
{
}

/// Work is dead once it was told to stop or one of the edges that guard it is gone, and not
/// before; work that is guarded by nothing dies only by being told. Where every edge that guards
/// it was demanded it lives.
pub proof fn law_what_kills_a_lineage(
    abandon: Option<bool>,
    watch: Seq<EdgeRefView>,
    g: Set<EdgeView>,
    i: int,
)
    ensures
        abandon == Some(true) ==> dead_lineage(abandon, watch, g),
        0 <= i < watch.len() && !alive(g, watch[i]) ==> dead_lineage(abandon, watch, g),
        abandon != Some(true) && watch.len() == 0 ==> !dead_lineage(abandon, watch, g),
        abandon != Some(true) && lineage_demanded(g, watch) ==> !dead_lineage(abandon, watch, g),
        abandon != Some(true) && (forall|k: int|
            0 <= k < watch.len() ==> alive(g, #[trigger] watch[k])) ==> !dead_lineage(
            abandon,
            watch,
            g,
        ),
{
    if lineage_demanded(g, watch) {
        assert forall|k: int| 0 <= k < watch.len() implies alive(g, #[trigger] watch[k]) by {
            assert(g.contains(demand_at(watch[k])));
        }
    }
}

/// An abort from below takes the creation edge that guards the work, never a demand, and leaves
/// whatever does not belong to what the edge guards.
pub proof fn law_abort_takes_no_demand(g: Set<EdgeView>, r: EdgeRefView, f: EdgeView)
    ensures
        !aborted_at(g, r).contains(creation_at(r)),
        g.contains(f) && f.waiter != r.dep && f != creation_at(r) ==> aborted_at(g, r).contains(f),
        aborted_at(g, r).contains(f) ==> g.contains(f),
        !g.contains(creation_at(r)) ==> aborted_at(g, r) == g,
{
}

/// Which tasks may use the process's own token: all but those that are still speculative and
/// that nobody waits for. Those use surplus tokens only, and never touch the own one.
pub proof fn law_speculation_uses_surplus(
    demanded: Option<bool>,
    wanted: Option<bool>,
    st: TokenState,
)
    ensures
        !own_eligible(demanded, wanted) <==> demanded == Some(false) && wanted != Some(true),
        !(token_taken(st, false).1 is Own),
        token_taken(st, false).0.own_busy == st.own_busy,
        token_taken(st, true).1 is Own <==> !st.own_busy,
        token_taken(st, true).1 is Own ==> token_taken(st, true).0.own_busy && token_taken(
            st,
            true,
        ).0.pool == st.pool,
        token_returned(st, TokenSrc::Own).0.pool == st.pool && !token_returned(
            st,
            TokenSrc::Own,
        ).0.own_busy && !token_returned(st, TokenSrc::Own).1,
        token_returned(st, TokenSrc::Pool).0.own_busy == st.own_busy,
{
}

/// What a task does first: it builds exactly if it was forced; a target that was settled in this
/// session rests, and one that was settled in another, or never, is checked.
pub proof fn law_forced_is_built(force: bool, runid: Option<i64>, session: i64, other: i64)
    requires
        other != session,
    ensures
        first_step(force, runid, session) is Build <==> force,
        first_step(false, Some(session), session) is Skip,
        first_step(false, Some(other), session) is Check,
        first_step(false, None, session) is Check,
{
}

/// A real demand never adopts a speculative failure at once: the target is claimed anew and
/// waited for again, twice at most, unless the process itself is unwinding. Any other outcome is
/// final: the group goes on to the next target, and a failure is kept unless there was one.
pub proof fn law_quarantined_is_tried_again(g: GroupView, o: Outcome, dead: bool, id: usize)
    requires
        0 <= g.at < g.ids.len(),
    ensures
        ({
            let next = group_step(g, o, dead, id);
            let again = o is SpecFailed && !dead && g.reclaims < 2;
            &&& again ==> next.at == g.at && next.ids[g.at] == id && next.first_err == g.first_err
                && next.reclaims == g.reclaims + 1
            &&& !again ==> next.at == g.at + 1 && next.ids == g.ids && next.reclaims == 0
            &&& !again && g.first_err is Some ==> next.first_err == g.first_err
            &&& !again && g.first_err is None ==> next.first_err == match o {
                Outcome::Done => None,
                Outcome::Failed(m) => Some(m@),
                Outcome::SpecFailed(m) => Some(m@),
            }
            &&& next.ids.len() == g.ids.len()
            &&& forall|k: int|
                0 <= k < g.ids.len() && k != g.at ==> #[trigger] next.ids[k] == g.ids[k]
        }),
{
}

/// A process below a do-file waits under the name of the target of that do-file; top-level
/// processes wait under names that differ from one to the next.
pub proof fn law_waiter_names(t: Seq<char>, a: Seq<char>, b: Seq<char>)
    ensures
        waiter_name(Some(t), a) == t,
        waiter_name(None, a) == waiter_name(None, b) ==> a == b,
{
    let n = "\u{1}top:"@.len() as int;
    assert(waiter_name(None, a).skip(n) =~= a);
    assert(waiter_name(None, b).skip(n) =~= b);
}

}
