//! The work of a task, from its start until it settles.
//!
//! A task looks whether its target was settled in this session already, checks
//! the recorded dependencies, and builds if it must. The caller performs the
//! [`Step`] it is given and tells the [`Answer`], upon which [`Work::next`] gives
//! the next step, up to [`Step::Settle`]. The edges under which the check waited
//! leave the graph before the build starts, since from then on only the target's
//! own do-file waits for anything. A token is taken before the build, which takes
//! the target's lock, never after; and it is returned whatever the build came to.

use crate::db::{ops, DbOp, OpView};
use crate::jobserver::TokenSrc;
use crate::parallel::{first_step, task_start, TaskStart};
use vstd::prelude::*;

verus! {

/// A step of a task, for the caller to perform.
#[derive(Debug, PartialEq, Eq)]
pub enum Step {
    /// Tell [`Answer::Settled`]: the session that settled the target last.
    ReadRun,
    /// Check the recorded dependencies. Tell [`Answer::Checked`].
    Check,
    /// Refresh the cached stamp of the target, which is up to date.
    Refresh,
    /// Apply changes to the build state.
    Apply(Vec<DbOp>),
    /// Remove the edges that the check waited under.
    ClearEdges,
    /// Get a token. Tell [`Answer::Granted`].
    TakeToken,
    /// Build the target.
    Build,
    /// Return a token where it came from.
    ReturnToken(TokenSrc),
    /// Settle the task: whether all went well.
    Settle(bool),
}

/// A step, as a mathematical value.
#[verifier::ext_equal]
pub enum StepView {
    ReadRun,
    Check,
    Refresh,
    Apply(Seq<OpView>),
    ClearEdges,
    TakeToken,
    Build,
    ReturnToken(TokenSrc),
    Settle(bool),
}

impl View for Step {
    type V = StepView;

    open spec fn view(&self) -> StepView {
        match self {
            Step::ReadRun => StepView::ReadRun,
            Step::Check => StepView::Check,
            Step::Refresh => StepView::Refresh,
            Step::Apply(list) => StepView::Apply(ops(list@)),
            Step::ClearEdges => StepView::ClearEdges,
            Step::TakeToken => StepView::TakeToken,
            Step::Build => StepView::Build,
            Step::ReturnToken(src) => StepView::ReturnToken(*src),
            Step::Settle(ok) => StepView::Settle(*ok),
        }
    }
}

/// What performing a step came to.
#[derive(Debug, Clone, Copy, PartialEq, Eq, Structural)]
pub enum Answer {
    /// It was done.
    Done,
    /// It failed.
    Failed,
    /// The session that settled the target last.
    Settled(Option<i64>),
    /// Whether the target must be built, if that could be told, and whether edges
    /// were inserted.
    Checked { rebuild: Option<bool>, edges: bool },
    /// A token was granted.
    Granted(TokenSrc),
}

/// The step that a task waits for the answer to.
#[derive(Debug, Clone, Copy, PartialEq, Eq, Structural)]
pub enum Phase {
    Reading,
    Checking,
    Refreshing,
    Recording,
    /// The edges of the check go; a build may follow.
    Clearing { build: bool, ok: bool },
    Waiting,
    Building { src: TokenSrc },
    Returning { ok: bool },
    Settled,
}

/// A task at work.
pub struct Work {
    target: String,
    force: bool,
    session: i64,
    /// Whether edges that the check inserted are still in the graph.
    edges: bool,
    phase: Phase,
}

/// A task at work, as a mathematical value.
#[verifier::ext_equal]
pub struct WorkView {
    pub target: Seq<char>,
    pub force: bool,
    pub session: i64,
    pub edges: bool,
    pub phase: Phase,
}

impl View for Work {
    type V = WorkView;

    closed spec fn view(&self) -> WorkView {
        WorkView {
            target: self.target@,
            force: self.force,
            session: self.session,
            edges: self.edges,
            phase: self.phase,
        }
    }
}

/// The next step of a task.
pub open spec fn on(w: WorkView, phase: Phase, s: StepView) -> (WorkView, StepView) {
    (WorkView { phase, ..w }, s)
}

/// The way out of a task: edges that are still there go first.
pub open spec fn leave(w: WorkView, ok: bool) -> (WorkView, StepView) {
    if w.edges {
        on(
            WorkView { edges: false, ..w },
            Phase::Clearing { build: false, ok },
            StepView::ClearEdges,
        )
    } else {
        on(w, Phase::Settled, StepView::Settle(ok))
    }
}

/// The step after an answer. An answer that does not fit the step counts as a
/// failure of it.
pub open spec fn after(w: WorkView, a: Answer) -> (WorkView, StepView) {
    match (w.phase, a) {
        (Phase::Reading, Answer::Settled(runid)) => match first_step(w.force, runid, w.session) {
            TaskStart::Skip => leave(w, true),
            TaskStart::Check => on(w, Phase::Checking, StepView::Check),
            TaskStart::Build => on(w, Phase::Waiting, StepView::TakeToken),
        },
        (Phase::Checking, Answer::Checked { rebuild, edges }) => {
            let w = WorkView { edges, ..w };
            match rebuild {
                None => leave(w, false),
                Some(false) => on(w, Phase::Refreshing, StepView::Refresh),
                Some(true) => if edges {
                    on(
                        WorkView { edges: false, ..w },
                        Phase::Clearing { build: true, ok: true },
                        StepView::ClearEdges,
                    )
                } else {
                    on(w, Phase::Waiting, StepView::TakeToken)
                },
            }
        },
        (Phase::Refreshing, Answer::Done) => on(
            w,
            Phase::Recording,
            StepView::Apply(seq![OpView::SetRunid { path: w.target, runid: w.session }]),
        ),
        (Phase::Recording, Answer::Done) => leave(w, true),
        (Phase::Clearing { build, ok }, _) => if build {
            on(w, Phase::Waiting, StepView::TakeToken)
        } else {
            on(w, Phase::Settled, StepView::Settle(ok))
        },
        (Phase::Waiting, Answer::Granted(src)) => on(w, Phase::Building { src }, StepView::Build),
        (Phase::Building { src }, a) => on(
            w,
            Phase::Returning { ok: a is Done },
            StepView::ReturnToken(src),
        ),
        (Phase::Returning { ok }, _) => leave(w, ok),
        // Nothing follows the end.
        (Phase::Settled, _) => on(w, Phase::Settled, StepView::Settle(false)),
        _ => leave(w, false),
    }
}

impl Work {
    /// Start the work of a task: its first step.
    pub fn begin(target: &str, force: bool, session: i64) -> (r: (Work, Step))
        ensures
            r.0@ == (WorkView {
                target: target@,
                force,
                session,
                edges: false,
                phase: Phase::Reading,
            }),
            r.1@ == StepView::ReadRun,
    {
        let w = Work {
            target: target.to_owned(),
            force,
            session,
            edges: false,
            phase: Phase::Reading,
        };
        (w, Step::ReadRun)
    }

    fn to(&mut self, phase: Phase, s: Step) -> (r: Step)
        ensures
            (final(self)@, r@) == on(old(self)@, phase, s@),
    {
        self.phase = phase;
        s
    }

    fn leave(&mut self, ok: bool) -> (s: Step)
        ensures
            (final(self)@, s@) == leave(old(self)@, ok),
    {
        if self.edges {
            self.edges = false;
            self.to(Phase::Clearing { build: false, ok }, Step::ClearEdges)
        } else {
            self.to(Phase::Settled, Step::Settle(ok))
        }
    }

    /// The next step, given what performing the last one came to.
    pub fn next(&mut self, a: Answer) -> (s: Step)
        ensures
            (final(self)@, s@) == after(old(self)@, a),
    {
        match (self.phase, a) {
            (Phase::Reading, Answer::Settled(runid)) => match task_start(
                self.force,
                runid,
                self.session,
            ) {
                TaskStart::Skip => self.leave(true),
                TaskStart::Check => self.to(Phase::Checking, Step::Check),
                TaskStart::Build => self.to(Phase::Waiting, Step::TakeToken),
            },
            (Phase::Checking, Answer::Checked { rebuild, edges }) => {
                self.edges = edges;
                match rebuild {
                    None => self.leave(false),
                    Some(false) => self.to(Phase::Refreshing, Step::Refresh),
                    Some(true) => if edges {
                        self.edges = false;
                        self.to(Phase::Clearing { build: true, ok: true }, Step::ClearEdges)
                    } else {
                        self.to(Phase::Waiting, Step::TakeToken)
                    },
                }
            },
            (Phase::Refreshing, Answer::Done) => {
                let mut list: Vec<DbOp> = Vec::new();
                list.push(DbOp::SetRunid { path: self.target.clone(), runid: self.session });
                assert(ops(list@) =~= seq![
                    OpView::SetRunid { path: self.target@, runid: self.session },
                ]);
                self.to(Phase::Recording, Step::Apply(list))
            },
            (Phase::Recording, Answer::Done) => self.leave(true),
            (Phase::Clearing { build, ok }, _) => if build {
                self.to(Phase::Waiting, Step::TakeToken)
            } else {
                self.to(Phase::Settled, Step::Settle(ok))
            },
            (Phase::Waiting, Answer::Granted(src)) => self.to(Phase::Building { src }, Step::Build),
            (Phase::Building { src }, a) => {
                let ok = match a {
                    Answer::Done => true,
                    _ => false,
                };
                self.to(Phase::Returning { ok }, Step::ReturnToken(src))
            },
            (Phase::Returning { ok }, _) => self.leave(ok),
            (Phase::Settled, _) => Step::Settle(false),
            _ => self.leave(false),
        }
    }
}

/// The state after a history of answers, and the steps that were given: the first
/// one, and one upon each answer.
pub open spec fn history(
    target: Seq<char>,
    force: bool,
    session: i64,
    answers: Seq<Answer>,
) -> (WorkView, Seq<StepView>)
    decreases answers.len(),
{
    if answers.len() == 0 {
        (
            WorkView { target, force, session, edges: false, phase: Phase::Reading },
            seq![StepView::ReadRun],
        )
    } else {
        let before = history(target, force, session, answers.drop_last());
        let now = after(before.0, answers.last());
        (now.0, before.1.push(now.1))
    }
}

/// How many of the answers grant a token.
pub open spec fn granted(steps: Seq<StepView>, answers: Seq<Answer>) -> int
    decreases answers.len(),
{
    if answers.len() == 0 {
        0
    } else {
        let n = answers.len() - 1;
        granted(steps, answers.drop_last()) + if steps[n] is TakeToken && answers[n] is Granted {
            1int
        } else {
            0int
        }
    }
}

/// How many of the steps return a token.
pub open spec fn returned(steps: Seq<StepView>) -> int
    decreases steps.len(),
{
    if steps.len() == 0 {
        0
    } else {
        returned(steps.drop_last()) + if steps.last() is ReturnToken {
            1int
        } else {
            0int
        }
    }
}

proof fn lemma_granted_more(steps: Seq<StepView>, s: StepView, answers: Seq<Answer>)
    requires
        answers.len() <= steps.len(),
    ensures
        granted(steps.push(s), answers) == granted(steps, answers),
    decreases answers.len(),
{
    if answers.len() > 0 {
        lemma_granted_more(steps, s, answers.drop_last());
        assert(steps.push(s)[answers.len() - 1] == steps[answers.len() - 1]);
    }
}

proof fn lemma_history(target: Seq<char>, force: bool, session: i64, answers: Seq<Answer>)
    ensures
        ({
            let (w, steps) = history(target, force, session, answers);
            &&& steps.len() == answers.len() + 1
            &&& w.target == target && w.session == session && w.force == force
            &&& w.phase is Reading <==> steps.last() is ReadRun
            &&& w.phase is Waiting <==> steps.last() is TakeToken
            &&& w.phase is Building <==> steps.last() is Build
            &&& w.phase is Settled <==> steps.last() is Settle
            &&& w.phase is Returning <==> steps.last() is ReturnToken
            &&& w.edges ==> w.phase is Refreshing || w.phase is Recording
            &&& granted(steps, answers) - returned(steps) == if w.phase is Building {
                1int
            } else {
                0int
            }
        }),
    decreases answers.len(),
{
    if answers.len() > 0 {
        let front = answers.drop_last();
        lemma_history(target, force, session, front);
        let (w, steps) = history(target, force, session, front);
        let s = after(w, answers.last()).1;
        lemma_granted_more(steps, s, front);
        assert(steps.push(s).drop_last() =~= steps);
        assert(steps.push(s)[answers.len() - 1] == steps.last());
    } else {
        let steps = history(target, force, session, answers).1;
        assert(steps.drop_last() =~= Seq::<StepView>::empty());
        reveal_with_fuel(returned, 2);
    }
}

/// A build runs with exactly one token, and every token that was granted is
/// returned before the task settles.
pub proof fn law_tokens_are_returned(
    target: Seq<char>,
    force: bool,
    session: i64,
    answers: Seq<Answer>,
)
    ensures
        ({
            let steps = history(target, force, session, answers).1;
            let held = granted(steps, answers) - returned(steps);
            &&& steps.last() is Build ==> held == 1
            &&& steps.last() is Settle ==> held == 0
            &&& steps.last() is TakeToken ==> held == 0
        }),
{
    lemma_history(target, force, session, answers);
}

/// No edge of the check is in the graph while the target is built, while a token
/// is waited for, or once the task settled.
pub proof fn law_edges_are_cleared(
    target: Seq<char>,
    force: bool,
    session: i64,
    answers: Seq<Answer>,
)
    ensures
        ({
            let (w, steps) = history(target, force, session, answers);
            steps.last() is TakeToken || steps.last() is Build || steps.last() is Settle
                ==> !w.edges
        }),
{
    lemma_history(target, force, session, answers);
}

/// Whether an answer to a step is a reason to settle well: the target was settled
/// in this session before, was found to be up to date and recorded so, or was
/// built.
pub open spec fn reason(
    target: Seq<char>,
    force: bool,
    session: i64,
    s: StepView,
    a: Answer,
) -> bool {
    match s {
        StepView::ReadRun => !force && a == Answer::Settled(Some(session)),
        StepView::Apply(list) => a is Done && list == seq![
            OpView::SetRunid { path: target, runid: session },
        ],
        StepView::Build => a is Done,
        _ => false,
    }
}

/// Whether there was a reason to settle well.
pub open spec fn has_reason(
    target: Seq<char>,
    force: bool,
    session: i64,
    steps: Seq<StepView>,
    answers: Seq<Answer>,
) -> bool {
    exists|i: int|
        #![trigger answers[i]]
        0 <= i < answers.len() && reason(target, force, session, steps[i], answers[i])
}

proof fn lemma_reason(target: Seq<char>, force: bool, session: i64, answers: Seq<Answer>)
    ensures
        ({
            let (w, steps) = history(target, force, session, answers);
            &&& w.phase is Recording ==> steps.last() == StepView::Apply(
                seq![OpView::SetRunid { path: target, runid: session }],
            )
            &&& w.phase matches Phase::Clearing { build: false, ok: true } ==> has_reason(
                target,
                force,
                session,
                steps,
                answers,
            )
            &&& w.phase matches Phase::Returning { ok: true } ==> has_reason(
                target,
                force,
                session,
                steps,
                answers,
            )
            &&& steps.last() == StepView::Settle(true) ==> has_reason(
                target,
                force,
                session,
                steps,
                answers,
            )
        }),
    decreases answers.len(),
{
    lemma_history(target, force, session, answers);
    if answers.len() > 0 {
        let front = answers.drop_last();
        lemma_history(target, force, session, front);
        lemma_reason(target, force, session, front);
        let (w, steps) = history(target, force, session, front);
        let all = history(target, force, session, answers).1;
        let n = front.len() as int;
        assert(answers[n] == answers.last() && all[n] == steps.last());
        if has_reason(target, force, session, steps, front) {
            let i = choose|i: int|
                #![trigger front[i]]
                0 <= i < front.len() && reason(target, force, session, steps[i], front[i]);
            assert(answers[i] == front[i] && all[i] == steps[i]);
            assert(has_reason(target, force, session, all, answers));
        }
        if reason(target, force, session, steps.last(), answers.last()) {
            assert(has_reason(target, force, session, all, answers));
        }
    }
}

/// A task settles well only for a reason.
pub proof fn law_settles_well_for_a_reason(
    target: Seq<char>,
    force: bool,
    session: i64,
    answers: Seq<Answer>,
)
    requires
        history(target, force, session, answers).1.last() == StepView::Settle(true),
    ensures
        has_reason(
            target,
            force,
            session,
            history(target, force, session, answers).1,
            answers,
        ),
{
    lemma_reason(target, force, session, answers);
}

/// One more answer.
proof fn lemma_then(
    target: Seq<char>,
    force: bool,
    session: i64,
    answers: Seq<Answer>,
    a: Answer,
)
    ensures
        history(target, force, session, answers.push(a)) == ({
            let (w, steps) = history(target, force, session, answers);
            let now = after(w, a);
            (now.0, steps.push(now.1))
        }),
{
    assert(answers.push(a).drop_last() =~= answers);
}

/// What a task comes to. One whose target was settled in this session rests. One whose target is
/// up to date refreshes its stamp, records that it was settled, and goes no further. One whose
/// target must be built gets a token, builds, and returns the token where it came from; what the
/// build came to is what the task comes to. Edges of the check go before.
pub proof fn law_what_a_task_comes_to(
    target: Seq<char>,
    session: i64,
    last: Option<i64>,
    src: TokenSrc,
    built: Answer,
    a: Answer,
)
    requires
        last != Some(session),
    ensures
        history(target, false, session, seq![Answer::Settled(Some(session))]).1 == seq![
            StepView::ReadRun,
            StepView::Settle(true),
        ],
        history(
            target,
            false,
            session,
            seq![
                Answer::Settled(last),
                Answer::Checked { rebuild: Some(false), edges: false },
                Answer::Done,
                Answer::Done,
            ],
        ).1 == seq![
            StepView::ReadRun,
            StepView::Check,
            StepView::Refresh,
            StepView::Apply(seq![OpView::SetRunid { path: target, runid: session }]),
            StepView::Settle(true),
        ],
        history(
            target,
            false,
            session,
            seq![
                Answer::Settled(last),
                Answer::Checked { rebuild: Some(true), edges: true },
                a,
                Answer::Granted(src),
                built,
                a,
            ],
        ).1 == seq![
            StepView::ReadRun,
            StepView::Check,
            StepView::ClearEdges,
            StepView::TakeToken,
            StepView::Build,
            StepView::ReturnToken(src),
            StepView::Settle(built is Done),
        ],
        history(
            target,
            false,
            session,
            seq![Answer::Settled(last), Answer::Checked { rebuild: None, edges: false }],
        ).1 == seq![StepView::ReadRun, StepView::Check, StepView::Settle(false)],
        history(
            target,
            true,
            session,
            seq![Answer::Settled(last), Answer::Granted(src), built, a],
        ).1 == seq![
            StepView::ReadRun,
            StepView::TakeToken,
            StepView::Build,
            StepView::ReturnToken(src),
            StepView::Settle(built is Done),
        ],
{
    let s0 = Seq::<Answer>::empty();
    let rests = Answer::Settled(Some(session));
    lemma_then(target, false, session, s0, rests);
    assert(s0.push(rests) =~= seq![rests]);
    assert(history(target, false, session, seq![rests]).1 =~= seq![
        StepView::ReadRun,
        StepView::Settle(true),
    ]);
    lemma_up_to_date(target, session, last);
    lemma_rebuilt(target, session, last, src, built, a);
    let first = Answer::Settled(last);
    let unclear = Answer::Checked { rebuild: None, edges: false };
    lemma_then(target, false, session, s0, first);
    lemma_then(target, false, session, s0.push(first), unclear);
    assert(s0.push(first).push(unclear) =~= seq![first, unclear]);
    assert(history(target, false, session, seq![first, unclear]).1 =~= seq![
        StepView::ReadRun,
        StepView::Check,
        StepView::Settle(false),
    ]);
    lemma_forced(target, session, last, src, built, a);
}

proof fn lemma_up_to_date(target: Seq<char>, session: i64, last: Option<i64>)
    requires
        last != Some(session),
    ensures
        history(
            target,
            false,
            session,
            seq![
                Answer::Settled(last),
                Answer::Checked { rebuild: Some(false), edges: false },
                Answer::Done,
                Answer::Done,
            ],
        ).1 == seq![
            StepView::ReadRun,
            StepView::Check,
            StepView::Refresh,
            StepView::Apply(seq![OpView::SetRunid { path: target, runid: session }]),
            StepView::Settle(true),
        ],
{
    let s0 = Seq::<Answer>::empty();
    let s1 = s0.push(Answer::Settled(last));
    let same = Answer::Checked { rebuild: Some(false), edges: false };
    let s2 = s1.push(same);
    let s3 = s2.push(Answer::Done);
    lemma_then(target, false, session, s0, Answer::Settled(last));
    lemma_then(target, false, session, s1, same);
    lemma_then(target, false, session, s2, Answer::Done);
    lemma_then(target, false, session, s3, Answer::Done);
    assert(s3.push(Answer::Done) =~= seq![
        Answer::Settled(last),
        same,
        Answer::Done,
        Answer::Done,
    ]);
    assert(history(target, false, session, s3.push(Answer::Done)).1 =~= seq![
        StepView::ReadRun,
        StepView::Check,
        StepView::Refresh,
        StepView::Apply(seq![OpView::SetRunid { path: target, runid: session }]),
        StepView::Settle(true),
    ]);
}

proof fn lemma_rebuilt(
    target: Seq<char>,
    session: i64,
    last: Option<i64>,
    src: TokenSrc,
    built: Answer,
    a: Answer,
)
    requires
        last != Some(session),
    ensures
        history(
            target,
            false,
            session,
            seq![
                Answer::Settled(last),
                Answer::Checked { rebuild: Some(true), edges: true },
                a,
                Answer::Granted(src),
                built,
                a,
            ],
        ).1 == seq![
            StepView::ReadRun,
            StepView::Check,
            StepView::ClearEdges,
            StepView::TakeToken,
            StepView::Build,
            StepView::ReturnToken(src),
            StepView::Settle(built is Done),
        ],
{
    let s0 = Seq::<Answer>::empty();
    let s1 = s0.push(Answer::Settled(last));
    let stale = Answer::Checked { rebuild: Some(true), edges: true };
    let s2 = s1.push(stale);
    let s3 = s2.push(a);
    let s4 = s3.push(Answer::Granted(src));
    let s5 = s4.push(built);
    lemma_then(target, false, session, s0, Answer::Settled(last));
    lemma_then(target, false, session, s1, stale);
    lemma_then(target, false, session, s2, a);
    lemma_then(target, false, session, s3, Answer::Granted(src));
    lemma_then(target, false, session, s4, built);
    lemma_then(target, false, session, s5, a);
    assert(s5.push(a) =~= seq![Answer::Settled(last), stale, a, Answer::Granted(src), built, a]);
    assert(history(target, false, session, s5.push(a)).1 =~= seq![
        StepView::ReadRun,
        StepView::Check,
        StepView::ClearEdges,
        StepView::TakeToken,
        StepView::Build,
        StepView::ReturnToken(src),
        StepView::Settle(built is Done),
    ]);
}

proof fn lemma_forced(
    target: Seq<char>,
    session: i64,
    last: Option<i64>,
    src: TokenSrc,
    built: Answer,
    a: Answer,
)
    ensures
        history(
            target,
            true,
            session,
            seq![Answer::Settled(last), Answer::Granted(src), built, a],
        ).1 == seq![
            StepView::ReadRun,
            StepView::TakeToken,
            StepView::Build,
            StepView::ReturnToken(src),
            StepView::Settle(built is Done),
        ],
{
    let s0 = Seq::<Answer>::empty();
    let s1 = s0.push(Answer::Settled(last));
    let s2 = s1.push(Answer::Granted(src));
    let s3 = s2.push(built);
    lemma_then(target, true, session, s0, Answer::Settled(last));
    lemma_then(target, true, session, s1, Answer::Granted(src));
    lemma_then(target, true, session, s2, built);
    lemma_then(target, true, session, s3, a);
    assert(s3.push(a) =~= seq![Answer::Settled(last), Answer::Granted(src), built, a]);
    assert(history(target, true, session, s3.push(a)).1 =~= seq![
        StepView::ReadRun,
        StepView::TakeToken,
        StepView::Build,
        StepView::ReturnToken(src),
        StepView::Settle(built is Done),
    ]);
}

/// Whether a check came out that a target must be built.
pub open spec fn found_stale(answers: Seq<Answer>) -> bool {
    exists|i: int|
        0 <= i < answers.len() && (#[trigger] answers[i] matches Answer::Checked {
            rebuild: Some(true),
            ..
        })
}

/// No target is built without need: only if it is forced, or a check came out that it must be. A
/// token goes back where it came from.
pub proof fn law_no_needless_build(
    target: Seq<char>,
    force: bool,
    session: i64,
    answers: Seq<Answer>,
)
    ensures
        ({
            let s = history(target, force, session, answers).1.last();
            &&& s is Build || s is TakeToken ==> force || found_stale(answers)
            &&& s matches StepView::ReturnToken(src) ==> answers.contains(Answer::Granted(src))
        }),
{
    lemma_history(target, force, session, answers);
    lemma_needed(target, force, session, answers);
}

proof fn lemma_needed(target: Seq<char>, force: bool, session: i64, answers: Seq<Answer>)
    ensures
        ({
            let (w, steps) = history(target, force, session, answers);
            let s = steps.last();
            &&& w.phase is Waiting || w.phase is Building || w.phase is Returning || (
            w.phase matches Phase::Clearing { build: true, .. }) ==> force || found_stale(answers)
            &&& w.phase matches Phase::Building { src } ==> answers.contains(Answer::Granted(src))
            &&& s matches StepView::ReturnToken(src) ==> answers.contains(Answer::Granted(src))
        }),
    decreases answers.len(),
{
    lemma_history(target, force, session, answers);
    if answers.len() > 0 {
        let front = answers.drop_last();
        lemma_history(target, force, session, front);
        lemma_needed(target, force, session, front);
        let w = history(target, force, session, front).0;
        let n = front.len() as int;
        assert(answers[n] == answers.last());
        if found_stale(front) {
            let i = choose|i: int|
                0 <= i < front.len() && (#[trigger] front[i] matches Answer::Checked {
                    rebuild: Some(true),
                    ..
                });
            assert(answers[i] == front[i]);
        }
        if let Phase::Building { src } = w.phase {
            let i = choose|i: int| 0 <= i < front.len() && front[i] == Answer::Granted(src);
            assert(answers[i] == Answer::Granted(src));
        }
    }
}

}
