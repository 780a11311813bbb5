//! What a do-file's request for dependencies comes to, step by step.
//!
//! Sources are stamped. Targets are brought up to date; before any of them is
//! waited for, the waits enter the waits-for graph as demands, which leave it again
//! before the request ends, also where one of them closes a cycle. All tasks of the
//! process settle before the request returns to the do-file. Only then the
//! dependencies are stamped, and recorded as edges of the target whose do-file
//! asked. The caller performs the [`Step`] it is given and tells the [`Answer`],
//! upon which [`Asking::next`] gives the next step, up to [`Step::End`].

use crate::building::BuildError;
use crate::db::{ops, DbOp, OpView};
use crate::requests::{
    edge_changes, ifchange, missing, record_edges, record_sources, source_changes, stamp_views,
    wanted_names, Wanted,
};
use crate::stamp::{Stamp, StampView};
use crate::text::{copy_opt, copy_texts, opt, texts};
use vstd::prelude::*;

verus! {

/// A step of a request, for the caller to perform.
#[derive(Debug, PartialEq, Eq)]
pub enum Step {
    /// Tell [`Answer::Stamps`]: the stamps of these files.
    Stamp(Vec<String>),
    /// Apply changes to the build state, all or none.
    Apply(Vec<DbOp>),
    /// Insert the demand edges that close no cycle. Tell [`Answer::Inserted`].
    DemandAll(Vec<String>),
    /// Insert a demand edge that meets a cycle.
    Demand(String),
    /// Bring these targets up to date.
    Ensure(Vec<String>),
    /// Wait for every task of the process.
    Drain,
    /// Remove the demand edges.
    ClearEdges,
    /// The request is over: whether all went well.
    End(bool),
}

/// A step, as a mathematical value.
#[verifier::ext_equal]
pub enum StepView {
    Stamp(Seq<Seq<char>>),
    Apply(Seq<OpView>),
    DemandAll(Seq<Seq<char>>),
    Demand(Seq<char>),
    Ensure(Seq<Seq<char>>),
    Drain,
    ClearEdges,
    End(bool),
}

impl View for Step {
    type V = StepView;

    open spec fn view(&self) -> StepView {
        match self {
            Step::Stamp(v) => StepView::Stamp(texts(v@)),
            Step::Apply(list) => StepView::Apply(ops(list@)),
            Step::DemandAll(v) => StepView::DemandAll(texts(v@)),
            Step::Demand(d) => StepView::Demand(d@),
            Step::Ensure(v) => StepView::Ensure(texts(v@)),
            Step::Drain => StepView::Drain,
            Step::ClearEdges => StepView::ClearEdges,
            Step::End(ok) => StepView::End(*ok),
        }
    }
}

/// What performing a step came to.
#[derive(Debug)]
pub enum Answer {
    /// It was done.
    Done,
    /// It failed.
    Failed,
    /// The stamps that were asked for.
    Stamps(Vec<Option<Stamp>>),
    /// Of each target, whether its demand edge was inserted.
    Inserted(Vec<bool>),
}

/// What performing a step came to, as a mathematical value.
pub enum AnswerView {
    Done,
    Failed,
    Stamps(Seq<Option<StampView>>),
    Inserted(Seq<bool>),
}

impl View for Answer {
    type V = AnswerView;

    open spec fn view(&self) -> AnswerView {
        match self {
            Answer::Done => AnswerView::Done,
            Answer::Failed => AnswerView::Failed,
            Answer::Stamps(v) => AnswerView::Stamps(stamp_views(v@)),
            Answer::Inserted(v) => AnswerView::Inserted(v@),
        }
    }
}

/// The step that a request waits for the answer to.
#[derive(Debug, Clone, Copy, PartialEq, Eq, Structural)]
pub enum Phase {
    Stamping,
    Recording,
    Demanding,
    Insisting,
    Ensuring,
    Draining,
    Clearing,
    Gathering,
    Linking,
    Ended,
}

/// A request under way.
pub struct Asking {
    parent: Option<String>,
    session: i64,
    /// What was asked for.
    deps: Vec<String>,
    sources: Vec<String>,
    targets: Vec<String>,
    /// Of each target, whether its demand edge was inserted.
    inserted: Vec<bool>,
    /// The target whose edge is being inserted.
    at: usize,
    /// Whether the targets were brought up to date.
    ok: bool,
    phase: Phase,
}

/// A request under way, as a mathematical value.
#[verifier::ext_equal]
pub struct AskView {
    pub parent: Option<Seq<char>>,
    pub session: i64,
    pub deps: Seq<Seq<char>>,
    pub sources: Seq<Seq<char>>,
    pub targets: Seq<Seq<char>>,
    pub inserted: Seq<bool>,
    pub at: int,
    pub ok: bool,
    pub phase: Phase,
}

impl View for Asking {
    type V = AskView;

    closed spec fn view(&self) -> AskView {
        AskView {
            parent: opt(self.parent),
            session: self.session,
            deps: texts(self.deps@),
            sources: texts(self.sources@),
            targets: texts(self.targets@),
            inserted: self.inserted@,
            at: self.at as int,
            ok: self.ok,
            phase: self.phase,
        }
    }
}

/// The names of what was asked for.
pub open spec fn names(items: Seq<Wanted>) -> Seq<Seq<char>> {
    items.map_values(|w: Wanted| w.dep@)
}

/// The state of a request at its start.
pub open spec fn start(parent: Option<Seq<char>>, session: i64, items: Seq<Wanted>) -> AskView {
    AskView {
        parent,
        session,
        deps: names(items),
        sources: wanted_names(items, false),
        targets: wanted_names(items, true),
        inserted: Seq::empty(),
        at: 0,
        ok: true,
        phase: Phase::Stamping,
    }
}

/// The first target from `i` on whose demand edge is not inserted; the number of
/// targets if there is none.
pub open spec fn first_open(inserted: Seq<bool>, i: int) -> int
    decreases inserted.len() - i,
{
    if i < 0 || i >= inserted.len() || !inserted[i] {
        i
    } else {
        first_open(inserted, i + 1)
    }
}

/// The next step of a request.
pub open spec fn on(r: AskView, phase: Phase, s: StepView) -> (AskView, StepView) {
    (AskView { phase, ..r }, s)
}

/// The next demand edge to insert, from a target on; once all are, the targets
/// are brought up to date.
pub open spec fn insist(r: AskView, from: int) -> (AskView, StepView) {
    let i = first_open(r.inserted, from);
    if i < r.inserted.len() {
        on(AskView { at: i, ..r }, Phase::Insisting, StepView::Demand(r.targets[i]))
    } else {
        on(r, Phase::Ensuring, StepView::Ensure(r.targets))
    }
}

/// The end of a request.
pub open spec fn end(r: AskView, ok: bool) -> (AskView, StepView) {
    on(r, Phase::Ended, StepView::End(ok))
}

/// What follows once the targets are up to date: within a do-file, the edges.
pub open spec fn gather(r: AskView) -> (AskView, StepView) {
    if r.parent is Some {
        on(r, Phase::Gathering, StepView::Stamp(r.deps))
    } else {
        end(r, true)
    }
}

/// What follows once a demand failed: those that were inserted leave the graph.
pub open spec fn give_up(r: AskView) -> (AskView, StepView) {
    on(AskView { ok: false, ..r }, Phase::Clearing, StepView::ClearEdges)
}

/// The step after an answer. An answer that does not fit the step counts as a
/// failure of it.
pub open spec fn after(r: AskView, a: AnswerView) -> (AskView, StepView) {
    match (r.phase, a) {
        (Phase::Stamping, AnswerView::Stamps(v)) => if v.len() == r.sources.len() {
            on(
                r,
                Phase::Recording,
                StepView::Apply(source_changes(r.sources, v, r.session)),
            )
        } else {
            end(r, false)
        },
        (Phase::Recording, AnswerView::Done) => if r.targets.len() == 0 {
            gather(r)
        } else if r.parent is Some {
            on(r, Phase::Demanding, StepView::DemandAll(r.targets))
        } else {
            on(r, Phase::Ensuring, StepView::Ensure(r.targets))
        },
        (Phase::Demanding, AnswerView::Inserted(v)) => if v.len() == r.targets.len() {
            insist(AskView { inserted: v, ..r }, 0)
        } else {
            give_up(r)
        },
        (Phase::Demanding, _) => give_up(r),
        (Phase::Insisting, AnswerView::Done) => insist(
            AskView { inserted: r.inserted.update(r.at, true), ..r },
            r.at + 1,
        ),
        (Phase::Insisting, _) => give_up(r),
        (Phase::Ensuring, a) => on(
            AskView { ok: a is Done, ..r },
            Phase::Draining,
            StepView::Drain,
        ),
        (Phase::Draining, _) => if r.parent is Some {
            on(r, Phase::Clearing, StepView::ClearEdges)
        } else {
            end(r, r.ok)
        },
        (Phase::Clearing, _) => if r.ok {
            gather(r)
        } else {
            end(r, false)
        },
        (Phase::Gathering, AnswerView::Stamps(v)) => if v.len() == r.deps.len()
            && r.parent is Some {
            on(
                r,
                Phase::Linking,
                StepView::Apply(edge_changes(r.parent->0, r.deps, v)),
            )
        } else {
            end(r, false)
        },
        (Phase::Linking, AnswerView::Done) => end(r, true),
        _ => end(r, false),
    }
}

impl Asking {
    /// Well-formed: a demand edge that is being inserted is one of those that are
    /// asked for.
    pub closed spec fn wf(&self) -> bool {
        &&& self.phase is Insisting ==> self.inserted.len() == self.targets.len() && self.at
            < self.inserted.len()
        &&& self.phase is Gathering ==> self.parent is Some
    }

    /// Start a request: its first step; or the error of the first dependency that
    /// nothing stands behind.
    pub fn begin(parent: Option<String>, session: i64, items: &[Wanted]) -> (r: Result<
        (Asking, Step),
        BuildError,
    >)
        ensures
            match r {
                Ok((k, s)) => k.wf() && k@ == start(opt(parent), session, items@) && s@
                    == StepView::Stamp(k@.sources) && forall|i: int|
                    0 <= i < items.len() ==> !missing(#[trigger] items@[i]),
                Err(e) => exists|i: int|
                    0 <= i < items.len() && missing(#[trigger] items@[i]) && (forall|j: int|
                        0 <= j < i ==> !missing(#[trigger] items@[j])) && (
                    e matches BuildError::NoSource { dep } && dep@ == items@[i].dep@),
            },
    {
        let (sources, targets) = match ifchange(items) {
            Ok(p) => p,
            Err(e) => return Err(e),
        };
        let mut deps: Vec<String> = Vec::new();
        for i in 0..items.len()
            invariant
                texts(deps@) == names(items@).take(i as int),
        {
            let ghost before = texts(deps@);
            let d = items[i].dep.clone();
            let ghost dv = d@;
            deps.push(d);
            assert(texts(deps@) =~= before.push(dv));
            assert(texts(deps@) =~= names(items@).take(i + 1));
        }
        assert(names(items@).take(items.len() as int) =~= names(items@));
        let s = Step::Stamp(copy_texts(sources.as_slice()));
        let k = Asking {
            parent,
            session,
            deps,
            sources,
            targets,
            inserted: Vec::new(),
            at: 0,
            ok: true,
            phase: Phase::Stamping,
        };
        assert(k@.inserted =~= Seq::<bool>::empty());
        Ok((k, s))
    }

    fn to(&mut self, phase: Phase, s: Step) -> (r: Step)
        requires
            !(phase is Insisting || phase is Gathering),
        ensures
            final(self).wf(),
            (final(self)@, r@) == on(old(self)@, phase, s@),
    {
        self.phase = phase;
        s
    }

    fn end(&mut self, ok: bool) -> (s: Step)
        ensures
            final(self).wf(),
            (final(self)@, s@) == end(old(self)@, ok),
    {
        self.to(Phase::Ended, Step::End(ok))
    }

    fn gather(&mut self) -> (s: Step)
        ensures
            final(self).wf(),
            (final(self)@, s@) == gather(old(self)@),
    {
        if self.parent.is_some() {
            self.phase = Phase::Gathering;
            Step::Stamp(copy_texts(self.deps.as_slice()))
        } else {
            self.end(true)
        }
    }

    fn give_up(&mut self) -> (s: Step)
        ensures
            final(self).wf(),
            (final(self)@, s@) == give_up(old(self)@),
    {
        self.ok = false;
        self.to(Phase::Clearing, Step::ClearEdges)
    }

    fn insist(&mut self, from: usize) -> (s: Step)
        requires
            old(self)@.inserted.len() == old(self)@.targets.len(),
            from <= old(self)@.inserted.len(),
        ensures
            final(self).wf(),
            (final(self)@, s@) == insist(old(self)@, from as int),
    {
        assert(self.inserted@ == self@.inserted);
        assert(self.targets.len() == self@.targets.len());
        let mut i = from;
        while i < self.inserted.len() && self.inserted[i]
            invariant
                from <= i <= self.inserted.len(),
                first_open(self.inserted@, from as int) == first_open(self.inserted@, i as int),
            decreases self.inserted.len() - i,
        {
            i = i + 1;
        }
        if i < self.inserted.len() {
            self.at = i;
            self.phase = Phase::Insisting;
            Step::Demand(self.targets[i].clone())
        } else {
            let list = copy_texts(self.targets.as_slice());
            self.to(Phase::Ensuring, Step::Ensure(list))
        }
    }

    /// The next step, given what performing the last one came to.
    pub fn next(&mut self, a: Answer) -> (s: Step)
        requires
            old(self).wf(),
        ensures
            final(self).wf(),
            (final(self)@, s@) == after(old(self)@, a@),
    {
        match (self.phase, a) {
            (Phase::Stamping, Answer::Stamps(v)) => if v.len() == self.sources.len() {
                let list = record_sources(self.sources.as_slice(), v.as_slice(), self.session);
                self.to(Phase::Recording, Step::Apply(list))
            } else {
                self.end(false)
            },
            (Phase::Recording, Answer::Done) => if self.targets.len() == 0 {
                self.gather()
            } else {
                let list = copy_texts(self.targets.as_slice());
                if self.parent.is_some() {
                    self.to(Phase::Demanding, Step::DemandAll(list))
                } else {
                    self.to(Phase::Ensuring, Step::Ensure(list))
                }
            },
            (Phase::Demanding, Answer::Inserted(v)) => if v.len() == self.targets.len() {
                self.inserted = v;
                self.insist(0)
            } else {
                self.give_up()
            },
            (Phase::Demanding, _) => self.give_up(),
            (Phase::Insisting, Answer::Done) => {
                let i = self.at;
                self.inserted.set(i, true);
                self.insist(i + 1)
            },
            (Phase::Insisting, _) => self.give_up(),
            (Phase::Ensuring, a) => {
                self.ok = match a {
                    Answer::Done => true,
                    _ => false,
                };
                self.to(Phase::Draining, Step::Drain)
            },
            (Phase::Draining, _) => if self.parent.is_some() {
                self.to(Phase::Clearing, Step::ClearEdges)
            } else {
                let ok = self.ok;
                self.end(ok)
            },
            (Phase::Clearing, _) => if self.ok {
                self.gather()
            } else {
                self.end(false)
            },
            (Phase::Gathering, Answer::Stamps(v)) => if v.len() == self.deps.len() {
                let parent = copy_opt(&self.parent);
                let list = record_edges(&parent, self.deps.as_slice(), v.as_slice());
                self.to(Phase::Linking, Step::Apply(list))
            } else {
                self.end(false)
            },
            (Phase::Linking, Answer::Done) => self.end(true),
            _ => self.end(false),
        }
    }
}

/// The state after a history of answers, and the steps that were given: the first
/// one, and one upon each answer.
pub open spec fn history(r: AskView, answers: Seq<AnswerView>) -> (AskView, Seq<StepView>)
    decreases answers.len(),
{
    if answers.len() == 0 {
        (r, seq![StepView::Stamp(r.sources)])
    } else {
        let before = history(r, answers.drop_last());
        let now = after(before.0, answers.last());
        (now.0, before.1.push(now.1))
    }
}

/// Whether a demand edge is in the graph: it was inserted with the others, or on
/// its own.
pub open spec fn demanded(
    steps: Seq<StepView>,
    answers: Seq<AnswerView>,
    targets: Seq<Seq<char>>,
    k: int,
) -> bool {
    exists|i: int|
        #![trigger answers[i]]
        0 <= i < answers.len() && i < steps.len() && entered(steps[i], answers[i], targets, k)
}

/// Whether an answer to a step tells that a demand edge was inserted.
pub open spec fn entered(
    s: StepView,
    a: AnswerView,
    targets: Seq<Seq<char>>,
    k: int,
) -> bool {
    match (s, a) {
        (StepView::DemandAll(list), AnswerView::Inserted(v)) => list == targets && v.len()
            == targets.len() && v[k],
        (StepView::Demand(d), AnswerView::Done) => d == targets[k],
        _ => false,
    }
}

/// Whether an earlier step was answered that it was done.
pub open spec fn performed(
    steps: Seq<StepView>,
    answers: Seq<AnswerView>,
    s: StepView,
) -> bool {
    exists|i: int|
        #![trigger answers[i]]
        0 <= i < answers.len() && i < steps.len() && steps[i] == s && answers[i] is Done
}

proof fn lemma_history(r: AskView, answers: Seq<AnswerView>)
    requires
        r.phase is Stamping,
        r.inserted.len() == 0,
    ensures
        ({
            let (now, steps) = history(r, answers);
            &&& steps.len() == answers.len() + 1
            &&& now.parent == r.parent && now.deps == r.deps && now.targets == r.targets
            &&& now.sources == r.sources
            &&& now.phase is Demanding ==> steps.last() == StepView::DemandAll(r.targets)
                && r.parent is Some
            &&& now.phase is Insisting ==> 0 <= now.at < r.targets.len() && now.inserted.len()
                == r.targets.len() && steps.last() == StepView::Demand(r.targets[now.at])
                && forall|k: int| 0 <= k < now.at ==> #[trigger] now.inserted[k]
            &&& steps.last() is Ensure <==> now.phase is Ensuring
            &&& now.phase is Ensuring ==> steps.last() == StepView::Ensure(r.targets)
            &&& now.phase is Ensuring && r.parent is Some ==> now.inserted.len()
                == r.targets.len() && forall|k: int|
                0 <= k < r.targets.len() ==> #[trigger] now.inserted[k]
            &&& now.phase is Gathering ==> r.parent is Some
            &&& steps.last() is End <==> now.phase is Ended
        }),
    decreases answers.len(),
{
    if answers.len() > 0 {
        let front = answers.drop_last();
        lemma_history(r, front);
        let (now, steps) = history(r, front);
        match (now.phase, answers.last()) {
            (Phase::Demanding, AnswerView::Inserted(v)) => {
                if v.len() == r.targets.len() {
                    lemma_first_open(v, 0);
                }
            },
            (Phase::Insisting, AnswerView::Done) => {
                let v = now.inserted.update(now.at, true);
                assert forall|k: int| 0 <= k < now.at + 1 implies #[trigger] v[k] by {
                    if k < now.at {
                        assert(now.inserted[k]);
                    }
                }
                lemma_first_open(v, now.at + 1);
            },
            _ => {},
        }
    }
}

proof fn lemma_first_open(v: Seq<bool>, i: int)
    requires
        0 <= i <= v.len(),
        forall|k: int| 0 <= k < i ==> #[trigger] v[k],
    ensures
        i <= first_open(v, i) <= v.len(),
        forall|k: int| 0 <= k < first_open(v, i) ==> #[trigger] v[k],
    decreases v.len() - i,
{
    if i < v.len() && v[i] {
        lemma_first_open(v, i + 1);
    }
}

proof fn lemma_demanded(r: AskView, answers: Seq<AnswerView>, k: int)
    requires
        r.phase is Stamping,
        r.inserted.len() == 0,
        0 <= k < r.targets.len(),
    ensures
        ({
            let (now, steps) = history(r, answers);
            now.inserted.len() == r.targets.len() && now.inserted[k] ==> demanded(
                steps,
                answers,
                r.targets,
                k,
            )
        }),
    decreases answers.len(),
{
    lemma_history(r, answers);
    if answers.len() > 0 {
        let front = answers.drop_last();
        lemma_history(r, front);
        lemma_demanded(r, front, k);
        let (now, steps) = history(r, front);
        let (next, all) = history(r, answers);
        let n = front.len() as int;
        assert(answers[n] == answers.last() && all[n] == steps.last());
        if demanded(steps, front, r.targets, k) {
            let i = choose|i: int|
                #![trigger front[i]]
                0 <= i < front.len() && i < steps.len() && entered(
                    steps[i],
                    front[i],
                    r.targets,
                    k,
                );
            assert(answers[i] == front[i] && all[i] == steps[i]);
            assert(demanded(all, answers, r.targets, k));
        } else if next.inserted.len() == r.targets.len() && next.inserted[k] {
            assert(entered(steps.last(), answers.last(), r.targets, k));
            assert(demanded(all, answers, r.targets, k));
        }
    }
}

/// Every wait is declared before it starts: within a do-file, the targets are
/// waited for only once the demand edge of each is in the graph.
pub proof fn law_waits_are_declared(
    parent: Option<Seq<char>>,
    session: i64,
    items: Seq<Wanted>,
    answers: Seq<AnswerView>,
    k: int,
)
    requires
        parent is Some,
        history(start(parent, session, items), answers).1.last() is Ensure,
        0 <= k < wanted_names(items, true).len(),
    ensures
        demanded(
            history(start(parent, session, items), answers).1,
            answers,
            wanted_names(items, true),
            k,
        ),
{
    let r = start(parent, session, items);
    lemma_history(r, answers);
    lemma_demanded(r, answers, k);
    assert(history(r, answers).0.inserted[k]);
}

proof fn lemma_settled(r: AskView, answers: Seq<AnswerView>)
    requires
        r.phase is Stamping,
        r.inserted.len() == 0,
    ensures
        ({
            let (now, steps) = history(r, answers);
            let asked = exists|i: int| 0 <= i < steps.len() && (#[trigger] steps[i]) is Ensure;
            let drained = exists|i: int| 0 <= i < steps.len() && (#[trigger] steps[i]) is Drain;
            let well = performed(steps, answers, StepView::Ensure(r.targets));
            &&& asked ==> now.phase is Ensuring || drained
            &&& (now.phase is Draining || now.phase is Clearing) && now.ok ==> well
            &&& now.phase is Draining || (now.phase is Clearing && now.ok) ==> drained
            &&& (now.phase is Gathering || now.phase is Linking) && r.targets.len() > 0 ==> well
                && drained
            &&& steps.last() == StepView::End(true) && r.targets.len() > 0 ==> well && drained
        }),
    decreases answers.len(),
{
    lemma_history(r, answers);
    if answers.len() > 0 {
        let front = answers.drop_last();
        lemma_history(r, front);
        lemma_settled(r, front);
        let (now, steps) = history(r, front);
        let (next, all) = history(r, answers);
        let n = front.len() as int;
        let e = StepView::Ensure(r.targets);
        assert(answers[n] == answers.last() && all[n] == steps.last());
        assert(all[n + 1] == after(now, answers.last()).1);
        assert forall|i: int| 0 <= i < steps.len() implies all[i] == #[trigger] steps[i] by {}
        if performed(steps, front, e) {
            let i = choose|i: int|
                #![trigger front[i]]
                0 <= i < front.len() && i < steps.len() && steps[i] == e && front[i] is Done;
            assert(answers[i] == front[i] && all[i] == steps[i]);
            assert(performed(all, answers, e));
        }
        if now.phase is Ensuring && answers.last() is Done {
            assert(performed(all, answers, e));
        }
        if exists|i: int| 0 <= i < steps.len() && (#[trigger] steps[i]) is Drain {
            let i = choose|i: int| 0 <= i < steps.len() && (#[trigger] steps[i]) is Drain;
            assert(all[i] is Drain);
        }
        if exists|i: int| 0 <= i < all.len() && (#[trigger] all[i]) is Ensure {
            let i = choose|i: int| 0 <= i < all.len() && (#[trigger] all[i]) is Ensure;
            if i < steps.len() {
                assert(steps[i] is Ensure);
            }
        }
    }
}

/// Nothing that a request started outlives it: if targets were to be brought up
/// to date, all tasks of the process were waited for before it ended.
pub proof fn law_request_drains(
    parent: Option<Seq<char>>,
    session: i64,
    items: Seq<Wanted>,
    answers: Seq<AnswerView>,
    i: int,
)
    requires
        history(start(parent, session, items), answers).1.last() is End,
        0 <= i < answers.len(),
        history(start(parent, session, items), answers).1[i] is Ensure,
    ensures
        history(start(parent, session, items), answers).1.contains(StepView::Drain),
{
    let r = start(parent, session, items);
    lemma_history(r, answers);
    lemma_settled(r, answers);
    let steps = history(r, answers).1;
    let k = choose|k: int| 0 <= k < steps.len() && (#[trigger] steps[k]) is Drain;
    assert(steps[k] == StepView::Drain);
}

/// A dependency's stamp is taken only after the dependency settled well: whenever
/// edges are to be recorded, the targets were brought up to date and all tasks
/// waited for.
pub proof fn law_edges_follow_settling(
    parent: Option<Seq<char>>,
    session: i64,
    items: Seq<Wanted>,
    answers: Seq<AnswerView>,
)
    requires
        ({
            let (r, steps) = history(start(parent, session, items), answers);
            r.phase is Gathering || r.phase is Linking || steps.last() == StepView::End(true)
        }),
        wanted_names(items, true).len() > 0,
    ensures
        ({
            let steps = history(start(parent, session, items), answers).1;
            &&& performed(steps, answers, StepView::Ensure(wanted_names(items, true)))
            &&& steps.contains(StepView::Drain)
        }),
{
    let r = start(parent, session, items);
    lemma_history(r, answers);
    lemma_settled(r, answers);
    let steps = history(r, answers).1;
    let k = choose|k: int| 0 <= k < steps.len() && (#[trigger] steps[k]) is Drain;
    assert(steps[k] == StepView::Drain);
}

/// Whether a step lets demands enter the graph, or waits under them.
pub open spec fn under_demand(s: StepView) -> bool {
    s is DemandAll || s is Demand || s is Ensure
}

proof fn lemma_cleared(r: AskView, answers: Seq<AnswerView>, i: int)
    requires
        r.phase is Stamping,
        r.inserted.len() == 0,
        r.parent is Some,
        0 <= i < history(r, answers).1.len(),
        under_demand(history(r, answers).1[i]),
    ensures
        ({
            let (now, steps) = history(r, answers);
            now.phase is Demanding || now.phase is Insisting || now.phase is Ensuring || now.phase
                is Draining || exists|k: int|
                i < k < steps.len() && #[trigger] steps[k] == StepView::ClearEdges
        }),
    decreases answers.len(),
{
    lemma_history(r, answers);
    if answers.len() > 0 {
        let front = answers.drop_last();
        lemma_history(r, front);
        let (now, steps) = history(r, front);
        let all = history(r, answers).1;
        let n = steps.len() as int;
        if i < n {
            assert(all[i] == steps[i]);
            lemma_cleared(r, front, i);
            if exists|k: int| i < k < n && #[trigger] steps[k] == StepView::ClearEdges {
                let k = choose|k: int| i < k < n && #[trigger] steps[k] == StepView::ClearEdges;
                assert(all[k] == StepView::ClearEdges);
            } else {
                assert(all[n] == after(now, answers.last()).1);
            }
        } else {
            assert(all[i] == after(now, answers.last()).1);
        }
    }
}

/// What a request declares, it takes back: within a do-file, once demands were to enter
/// the graph or targets were waited for under them, the demands are cleared before the
/// request ends, however it ends.
pub proof fn law_demands_are_cleared(
    parent: Option<Seq<char>>,
    session: i64,
    items: Seq<Wanted>,
    answers: Seq<AnswerView>,
    i: int,
)
    requires
        parent is Some,
        history(start(parent, session, items), answers).1.last() is End,
        0 <= i < history(start(parent, session, items), answers).1.len(),
        under_demand(history(start(parent, session, items), answers).1[i]),
    ensures
        exists|k: int|
            i < k < answers.len() && #[trigger] history(start(parent, session, items), answers).1[k]
                == StepView::ClearEdges,
{
    let r = start(parent, session, items);
    lemma_history(r, answers);
    lemma_cleared(r, answers, i);
    let steps = history(r, answers).1;
    let k = choose|k: int| i < k < steps.len() && #[trigger] steps[k] == StepView::ClearEdges;
    assert(steps[k] == StepView::ClearEdges);
}

/// One more answer.
proof fn lemma_then(r: AskView, answers: Seq<AnswerView>, a: AnswerView)
    ensures
        history(r, answers.push(a)) == ({
            let (now, steps) = history(r, answers);
            let next = after(now, a);
            (next.0, steps.push(next.1))
        }),
{
    assert(answers.push(a).drop_last() =~= answers);
}

/// What a request comes to within a do-file if all goes well: the sources are stamped and
/// recorded, the targets are declared and brought up to date, everything that was started is
/// waited for, the declarations go, and at last all that was asked for is stamped and recorded as
/// dependencies of the target.
pub proof fn law_request_of_a_do_file(
    parent: Seq<char>,
    session: i64,
    items: Seq<Wanted>,
    seen: Seq<Option<StampView>>,
    stamps: Seq<Option<StampView>>,
    a: AnswerView,
)
    requires
        wanted_names(items, true).len() > 0,
        seen.len() == wanted_names(items, false).len(),
        stamps.len() == names(items).len(),
    ensures
        ({
            let targets = wanted_names(items, true);
            let sources = wanted_names(items, false);
            let r = start(Some(parent), session, items);
            history(
                r,
                seq![
                    AnswerView::Stamps(seen),
                    AnswerView::Done,
                    AnswerView::Inserted(Seq::new(targets.len(), |i: int| true)),
                    AnswerView::Done,
                    a,
                    a,
                    AnswerView::Stamps(stamps),
                    AnswerView::Done,
                ],
            ).1 == seq![
                StepView::Stamp(sources),
                StepView::Apply(source_changes(sources, seen, session)),
                StepView::DemandAll(targets),
                StepView::Ensure(targets),
                StepView::Drain,
                StepView::ClearEdges,
                StepView::Stamp(names(items)),
                StepView::Apply(edge_changes(parent, names(items), stamps)),
                StepView::End(true),
            ]
        }),
{
    let targets = wanted_names(items, true);
    let sources = wanted_names(items, false);
    let r = start(Some(parent), session, items);
    let all = Seq::new(targets.len(), |i: int| true);
    let s0 = Seq::<AnswerView>::empty();
    let s1 = s0.push(AnswerView::Stamps(seen));
    let s2 = s1.push(AnswerView::Done);
    let s3 = s2.push(AnswerView::Inserted(all));
    let s4 = s3.push(AnswerView::Done);
    let s5 = s4.push(a);
    let s6 = s5.push(a);
    let s7 = s6.push(AnswerView::Stamps(stamps));
    let s8 = s7.push(AnswerView::Done);
    lemma_then(r, s0, AnswerView::Stamps(seen));
    lemma_then(r, s1, AnswerView::Done);
    lemma_all_open(all, 0);
    lemma_then(r, s2, AnswerView::Inserted(all));
    lemma_then(r, s3, AnswerView::Done);
    lemma_then(r, s4, a);
    lemma_then(r, s5, a);
    lemma_then(r, s6, AnswerView::Stamps(stamps));
    lemma_then(r, s7, AnswerView::Done);
    assert(s8 =~= seq![
        AnswerView::Stamps(seen),
        AnswerView::Done,
        AnswerView::Inserted(all),
        AnswerView::Done,
        a,
        a,
        AnswerView::Stamps(stamps),
        AnswerView::Done,
    ]);
    assert(history(r, s8).1 =~= seq![
        StepView::Stamp(sources),
        StepView::Apply(source_changes(sources, seen, session)),
        StepView::DemandAll(targets),
        StepView::Ensure(targets),
        StepView::Drain,
        StepView::ClearEdges,
        StepView::Stamp(names(items)),
        StepView::Apply(edge_changes(parent, names(items), stamps)),
        StepView::End(true),
    ]);
}

/// If every edge is inserted, none is open.
proof fn lemma_all_open(inserted: Seq<bool>, i: int)
    requires
        0 <= i <= inserted.len(),
        forall|k: int| 0 <= k < inserted.len() ==> #[trigger] inserted[k],
    ensures
        first_open(inserted, i) == inserted.len(),
    decreases inserted.len() - i,
{
    if i < inserted.len() {
        lemma_all_open(inserted, i + 1);
    }
}

/// What a request comes to outside of do-files: sources are recorded, targets are brought up to
/// date, everything that was started is waited for; the request went well exactly if the targets
/// came up to date. Nothing is declared, and no dependency is recorded.
pub proof fn law_request_of_the_user(
    session: i64,
    items: Seq<Wanted>,
    seen: Seq<Option<StampView>>,
    made: AnswerView,
    a: AnswerView,
)
    requires
        wanted_names(items, true).len() > 0,
        seen.len() == wanted_names(items, false).len(),
    ensures
        ({
            let targets = wanted_names(items, true);
            let sources = wanted_names(items, false);
            history(
                start(None, session, items),
                seq![AnswerView::Stamps(seen), AnswerView::Done, made, a],
            ).1 == seq![
                StepView::Stamp(sources),
                StepView::Apply(source_changes(sources, seen, session)),
                StepView::Ensure(targets),
                StepView::Drain,
                StepView::End(made is Done),
            ]
        }),
{
    let targets = wanted_names(items, true);
    let sources = wanted_names(items, false);
    let r = start(None, session, items);
    let s0 = Seq::<AnswerView>::empty();
    let s1 = s0.push(AnswerView::Stamps(seen));
    let s2 = s1.push(AnswerView::Done);
    let s3 = s2.push(made);
    let s4 = s3.push(a);
    lemma_then(r, s0, AnswerView::Stamps(seen));
    lemma_then(r, s1, AnswerView::Done);
    lemma_then(r, s2, made);
    lemma_then(r, s3, a);
    assert(s4 =~= seq![AnswerView::Stamps(seen), AnswerView::Done, made, a]);
    assert(history(r, s4).1 =~= seq![
        StepView::Stamp(sources),
        StepView::Apply(source_changes(sources, seen, session)),
        StepView::Ensure(targets),
        StepView::Drain,
        StepView::End(made is Done),
    ]);
}

/// Whether the dependencies of a target were recorded as they were seen.
pub open spec fn linked(
    steps: Seq<StepView>,
    answers: Seq<AnswerView>,
    parent: Seq<char>,
    deps: Seq<Seq<char>>,
) -> bool {
    exists|v: Seq<Option<StampView>>|
        #![trigger edge_changes(parent, deps, v)]
        v.len() == deps.len() && performed(
            steps,
            answers,
            StepView::Apply(edge_changes(parent, deps, v)),
        ) && answers.contains(AnswerView::Stamps(v))
}

proof fn lemma_linked(r: AskView, answers: Seq<AnswerView>)
    requires
        r.phase is Stamping,
        r.inserted.len() == 0,
        r.parent is Some,
    ensures
        ({
            let (now, steps) = history(r, answers);
            &&& now.phase is Linking ==> exists|v: Seq<Option<StampView>>|
                #![trigger edge_changes(r.parent->0, r.deps, v)]
                v.len() == r.deps.len() && steps.last() == StepView::Apply(
                    edge_changes(r.parent->0, r.deps, v),
                ) && answers.contains(AnswerView::Stamps(v))
            &&& steps.last() == StepView::End(true) ==> linked(
                steps,
                answers,
                r.parent->0,
                r.deps,
            )
        }),
    decreases answers.len(),
{
    lemma_history(r, answers);
    if answers.len() > 0 {
        let front = answers.drop_last();
        lemma_history(r, front);
        lemma_linked(r, front);
        let (now, steps) = history(r, front);
        let (next, all) = history(r, answers);
        let n = front.len() as int;
        assert(answers[n] == answers.last() && all[n] == steps.last());
        if next.phase is Linking {
            match answers.last() {
                AnswerView::Stamps(v) => {
                    assert(answers.contains(AnswerView::Stamps(v)));
                    assert(all.last() == StepView::Apply(edge_changes(r.parent->0, r.deps, v)));
                },
                _ => {},
            }
        }
        if all.last() == StepView::End(true) {
            assert(now.phase is Linking && answers.last() is Done);
            let v = choose|v: Seq<Option<StampView>>|
                #![trigger edge_changes(r.parent->0, r.deps, v)]
                v.len() == r.deps.len() && steps.last() == StepView::Apply(
                    edge_changes(r.parent->0, r.deps, v),
                ) && front.contains(AnswerView::Stamps(v));
            let k = choose|k: int| 0 <= k < front.len() && front[k] == AnswerView::Stamps(v);
            assert(answers[k] == AnswerView::Stamps(v));
            assert(performed(all, answers, StepView::Apply(edge_changes(r.parent->0, r.deps, v))));
        }
    }
}

/// A request of a do-file goes well only once all that was asked for is recorded as dependencies,
/// each with the stamp that was seen of it.
pub proof fn law_asked_means_recorded(
    parent: Seq<char>,
    session: i64,
    items: Seq<Wanted>,
    answers: Seq<AnswerView>,
)
    requires
        history(start(Some(parent), session, items), answers).1.last() == StepView::End(true),
    ensures
        linked(
            history(start(Some(parent), session, items), answers).1,
            answers,
            parent,
            names(items),
        ),
{
    lemma_linked(start(Some(parent), session, items), answers);
}

}
