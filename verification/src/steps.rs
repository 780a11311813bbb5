//! The steps of a build, one after the other.
//!
//! Building a target alternates between deciding and doing: take its lock, look
//! whether it is still to be built, guard a file that redo does not own, mark the
//! build as in flight, run the do-file, put its output in place, commit. The doing
//! is the caller's: it performs the [`Step`] it is given and tells the [`Answer`],
//! upon which [`Build::next`] gives the next step, up to [`Step::End`]. Whatever
//! goes wrong on the way, the log of the target is terminated and the temporary
//! files are removed before the lock is released.

use crate::building::{
    begin_build, begin_changes, build_start, commit_build, commit_changes, judge, judged,
    lock_wait, needed, plan_build, plan_for, reported_exit, start_fault, static_ops, still_needed,
    BuildError, ErrorView, Facts, LockWait, Output, Plan, Ran,
};
use crate::db::{file_view, ops, stamp_view, DbOp, OpView};
use crate::logs::{DoneGuard, Event, EventView};
use crate::overwrite::{check_not_hand_edited, guard_for, Guard};
use crate::paths::{Comp, FsPath};
use crate::seqs::lemma_push_contains;
use crate::stamp::{Stamp, StampView};
use crate::text::{opt, texts};
use vstd::prelude::*;

verus! {

/// What a build is given.
pub struct Job {
    pub target: String,
    /// Build even if the target was settled in this session already.
    pub force: bool,
    pub session: i64,
    /// The targets whose do-files run around the build.
    pub chain: Vec<String>,
    /// Whether the work belongs to a speculation that may be superseded.
    pub watched: bool,
    /// Whether the work may be told to stop.
    pub abandonable: bool,
    /// The target's log, if the run is traced.
    pub log: Option<FsPath>,
}

/// What a build is given, as a mathematical value.
#[verifier::ext_equal]
pub struct JobView {
    pub target: Seq<char>,
    pub force: bool,
    pub session: i64,
    pub chain: Seq<Seq<char>>,
    pub watched: bool,
    pub abandonable: bool,
    pub log: Option<Seq<Comp>>,
}

/// The view of an optional path.
pub open spec fn path_view(p: Option<FsPath>) -> Option<Seq<Comp>> {
    match p {
        Some(p) => Some(p@),
        None => None,
    }
}

impl View for Job {
    type V = JobView;

    open spec fn view(&self) -> JobView {
        JobView {
            target: self.target@,
            force: self.force,
            session: self.session,
            chain: texts(self.chain@),
            watched: self.watched,
            abandonable: self.abandonable,
            log: path_view(self.log),
        }
    }
}

/// How a build ended.
#[derive(Debug, PartialEq, Eq)]
pub enum End {
    /// The target was built.
    Built,
    /// Somebody else built it in this session.
    Skipped,
    /// It is a source, and was recorded as such.
    Source,
    /// It was not built, for a reason.
    Failed(BuildError),
    /// The speculation died while it waited for the lock.
    Dead,
    /// A step could not be performed.
    Trouble,
}

/// How a build ended, as a mathematical value.
#[verifier::ext_equal]
pub enum EndView {
    Built,
    Skipped,
    Source,
    Failed(ErrorView),
    Dead,
    Trouble,
}

impl View for End {
    type V = EndView;

    open spec fn view(&self) -> EndView {
        match self {
            End::Built => EndView::Built,
            End::Skipped => EndView::Skipped,
            End::Source => EndView::Source,
            End::Failed(e) => EndView::Failed(e@),
            End::Dead => EndView::Dead,
            End::Trouble => EndView::Trouble,
        }
    }
}

/// A step of a build, for the caller to perform.
#[derive(Debug, PartialEq, Eq)]
pub enum Step {
    /// Try to take the target's lock. Tell [`Answer::Locked`].
    TryLock,
    /// Append an event to the trace of the run.
    Announce(Event),
    /// Take the lock, however long it takes. Tell [`Answer::Locked`].
    Block,
    /// Tell [`Answer::Alive`]: whether the work is still needed.
    Poll,
    /// Wait for a moment.
    Pause,
    /// Tell [`Answer::Settled`]: the session that settled the target last.
    ReadRun,
    /// Tell [`Answer::Found`]: what is known of the target.
    Look,
    /// Tell [`Answer::Stamped`]: the stamp of the target, which is a source.
    StampSource,
    /// Apply changes to the build state, all or none.
    Apply(Vec<DbOp>),
    /// Tell [`Answer::Guarded`]: whether a file that redo does not own is in the
    /// way.
    Guard,
    /// Say that such a file is built over.
    Overwriting(String),
    /// Ask the user about such a file. Tell [`Answer::Answered`].
    Prompt(String),
    /// Tell [`Answer::Rule`]: the do-file and its stamp.
    StampRule,
    /// Sweep stale temporary files, and create those of this build.
    Prepare,
    /// Create the target's log.
    OpenLog(FsPath),
    /// Start the do-file.
    Launch,
    /// Wait for the do-file. Tell [`Answer::Ran`]; or, where the work is to be
    /// watched meanwhile, [`Answer::Dead`] if it is no longer needed.
    Await(LockWait),
    /// Stop the do-file.
    Kill,
    /// Put the output in place.
    Place(Output),
    /// Tell [`Answer::Produced`]: the stamp of the output.
    StampOutput,
    /// Append the terminator to the target's log.
    Terminate(Event),
    /// Remove the temporary files.
    Clean,
    /// Release the lock: the build is over.
    End(End),
}

/// A step, as a mathematical value.
#[verifier::ext_equal]
pub enum StepView {
    TryLock,
    Announce(EventView),
    Block,
    Poll,
    Pause,
    ReadRun,
    Look,
    StampSource,
    Apply(Seq<OpView>),
    Guard,
    Overwriting(Seq<char>),
    Prompt(Seq<char>),
    StampRule,
    Prepare,
    OpenLog(Seq<Comp>),
    Launch,
    Await(LockWait),
    Kill,
    Place(Output),
    StampOutput,
    Terminate(EventView),
    Clean,
    End(EndView),
}

impl View for Step {
    type V = StepView;

    open spec fn view(&self) -> StepView {
        match self {
            Step::TryLock => StepView::TryLock,
            Step::Announce(e) => StepView::Announce(e@),
            Step::Block => StepView::Block,
            Step::Poll => StepView::Poll,
            Step::Pause => StepView::Pause,
            Step::ReadRun => StepView::ReadRun,
            Step::Look => StepView::Look,
            Step::StampSource => StepView::StampSource,
            Step::Apply(list) => StepView::Apply(ops(list@)),
            Step::Guard => StepView::Guard,
            Step::Overwriting(p) => StepView::Overwriting(p@),
            Step::Prompt(p) => StepView::Prompt(p@),
            Step::StampRule => StepView::StampRule,
            Step::Prepare => StepView::Prepare,
            Step::OpenLog(p) => StepView::OpenLog(p@),
            Step::Launch => StepView::Launch,
            Step::Await(w) => StepView::Await(*w),
            Step::Kill => StepView::Kill,
            Step::Place(o) => StepView::Place(*o),
            Step::StampOutput => StepView::StampOutput,
            Step::Terminate(e) => StepView::Terminate(e@),
            Step::Clean => StepView::Clean,
            Step::End(e) => StepView::End(e@),
        }
    }
}

/// What performing a step came to.
#[derive(Debug)]
pub enum Answer {
    /// It was done.
    Done,
    /// It could not be done.
    Trouble,
    /// Whether the lock was taken.
    Locked(bool),
    /// Whether the work is still needed.
    Alive(bool),
    /// The session that settled the target last.
    Settled(Option<i64>),
    /// What is known of the target.
    Found(Facts),
    /// The stamp of a source.
    Stamped(Option<Stamp>),
    /// Whether a file that redo does not own is in the way, and what is known
    /// about consent.
    Guarded {
        problem: Option<String>,
        all: bool,
        none: bool,
        demanded: bool,
        user_present: bool,
    },
    /// The user's answer.
    Answered(crate::overwrite::Answer),
    /// The do-file, its stamp, and the do-files that would have been preferred.
    Rule { dofile: String, stamp: Option<Stamp>, absent: Vec<String> },
    /// The do-file ended.
    Ran(Ran),
    /// The work is no longer needed.
    Dead,
    /// The stamp of the output, and the time.
    Produced { stamp: Option<Stamp>, now: i64 },
}

/// What performing a step came to, as a mathematical value.
pub enum AnswerView {
    Done,
    Trouble,
    Locked(bool),
    Alive(bool),
    Settled(Option<i64>),
    Found(Facts),
    Stamped(Option<StampView>),
    Guarded {
        problem: Option<Seq<char>>,
        all: bool,
        none: bool,
        demanded: bool,
        user_present: bool,
    },
    Answered(crate::overwrite::Answer),
    Rule { dofile: Seq<char>, stamp: Option<StampView>, absent: Seq<Seq<char>> },
    Ran(Ran),
    Dead,
    Produced { stamp: Option<StampView>, now: i64 },
}

impl View for Answer {
    type V = AnswerView;

    open spec fn view(&self) -> AnswerView {
        match self {
            Answer::Done => AnswerView::Done,
            Answer::Trouble => AnswerView::Trouble,
            Answer::Locked(b) => AnswerView::Locked(*b),
            Answer::Alive(b) => AnswerView::Alive(*b),
            Answer::Settled(r) => AnswerView::Settled(*r),
            Answer::Found(f) => AnswerView::Found(*f),
            Answer::Stamped(s) => AnswerView::Stamped(stamp_view(*s)),
            Answer::Guarded { problem, all, none, demanded, user_present } => AnswerView::Guarded {
                problem: opt(*problem),
                all: *all,
                none: *none,
                demanded: *demanded,
                user_present: *user_present,
            },
            Answer::Answered(a) => AnswerView::Answered(*a),
            Answer::Rule { dofile, stamp, absent } => AnswerView::Rule {
                dofile: dofile@,
                stamp: stamp_view(*stamp),
                absent: texts(absent@),
            },
            Answer::Ran(r) => AnswerView::Ran(*r),
            Answer::Dead => AnswerView::Dead,
            Answer::Produced { stamp, now } => AnswerView::Produced {
                stamp: stamp_view(*stamp),
                now: *now,
            },
        }
    }
}

/// The step that a build waits for the answer to.
#[derive(Debug, Clone, Copy, PartialEq, Eq, Structural)]
pub enum Phase {
    Locking,
    Announcing,
    Relocking,
    Blocking,
    Polling,
    Pausing,
    Reading,
    Looking,
    Stamping,
    Recording,
    Guarding,
    Overwriting,
    Prompting,
    Ruling,
    Marking,
    Preparing,
    Logging,
    Tracing,
    Launching,
    Awaiting,
    Killing,
    Placing,
    Measuring,
    Committing,
    Terminating,
    Cleaning,
    Ended,
}

/// A build under way.
pub struct Build {
    job: Job,
    phase: Phase,
    /// The do-file that is run.
    rule: String,
    /// The file that is in the way, in words.
    problem: String,
    /// What terminates the target's log, from the event that leads to it on.
    guard: Option<DoneGuard>,
    /// Whether there are temporary files.
    prepared: bool,
    end: Option<End>,
}

/// A build under way, as a mathematical value.
#[verifier::ext_equal]
pub struct BuildView {
    pub job: JobView,
    pub phase: Phase,
    pub rule: Seq<char>,
    pub problem: Seq<char>,
    /// The exit code that the log is owed, once an event led to it.
    pub owed: Option<int>,
    pub prepared: bool,
    pub end: Option<EndView>,
}

/// The view of an optional end.
pub open spec fn end_view(e: Option<End>) -> Option<EndView> {
    match e {
        Some(e) => Some(e@),
        None => None,
    }
}

impl View for Build {
    type V = BuildView;

    closed spec fn view(&self) -> BuildView {
        BuildView {
            job: self.job@,
            phase: self.phase,
            rule: self.rule@,
            problem: self.problem@,
            owed: match self.guard {
                Some(g) => Some(g.exit as int),
                None => None,
            },
            prepared: self.prepared,
            end: end_view(self.end),
        }
    }
}

/// The event that terminates the log of a build.
pub open spec fn last_event(job: JobView, end: EndView, exit: int) -> EventView {
    EventView::Done {
        session: job.session as int,
        exit: if end is Built {
            0
        } else if exit == 0 {
            1
        } else {
            exit
        },
        target: job.target,
    }
}

/// The way out of a build that ends: terminate the log, remove the temporary
/// files, release the lock, each if there is something to do.
pub open spec fn leave(b: BuildView, end: EndView) -> (BuildView, StepView) {
    match b.owed {
        Some(exit) => (
            BuildView { phase: Phase::Terminating, end: Some(end), ..b },
            StepView::Terminate(last_event(b.job, end, exit)),
        ),
        None => if b.prepared {
            (BuildView { phase: Phase::Cleaning, end: Some(end), ..b }, StepView::Clean)
        } else {
            (BuildView { phase: Phase::Ended, ..b }, StepView::End(end))
        },
    }
}

/// The next step of a build that goes on.
pub open spec fn on(b: BuildView, phase: Phase, s: StepView) -> (BuildView, StepView) {
    (BuildView { phase, ..b }, s)
}

/// How a job waits: demanded work may block, other work must stay interruptible.
pub open spec fn patience(job: JobView) -> LockWait {
    if job.watched || job.abandonable {
        LockWait::Poll
    } else {
        LockWait::Block
    }
}

/// The first step of a build.
pub open spec fn first(job: JobView) -> (BuildView, StepView) {
    let b = BuildView {
        job,
        phase: Phase::Locking,
        rule: Seq::empty(),
        problem: Seq::empty(),
        owed: None,
        prepared: false,
        end: None,
    };
    match start_fault(job.chain, job.target) {
        Some(e) => leave(b, EndView::Failed(e)),
        None => (b, StepView::TryLock),
    }
}

/// The step after an answer. An answer that does not fit the step counts as one
/// that the step could not be performed.
pub open spec fn after(b: BuildView, a: AnswerView) -> (BuildView, StepView) {
    let aborted = EndView::Failed(ErrorView::Aborted { target: b.job.target });
    match (b.phase, a) {
        (Phase::Locking, AnswerView::Locked(won)) => if won {
            on(b, Phase::Reading, StepView::ReadRun)
        } else {
            on(
                b,
                Phase::Announcing,
                StepView::Announce(
                    EventView::Waiting { session: b.job.session as int, target: b.job.target },
                ),
            )
        },
        (Phase::Announcing, _) => if patience(b.job) is Block {
            on(b, Phase::Blocking, StepView::Block)
        } else {
            on(b, Phase::Polling, StepView::Poll)
        },
        (Phase::Blocking, AnswerView::Locked(true)) => on(b, Phase::Reading, StepView::ReadRun),
        (Phase::Polling, AnswerView::Alive(alive)) => if alive {
            on(b, Phase::Relocking, StepView::TryLock)
        } else {
            leave(b, EndView::Dead)
        },
        (Phase::Relocking, AnswerView::Locked(won)) => if won {
            on(b, Phase::Reading, StepView::ReadRun)
        } else {
            on(b, Phase::Pausing, StepView::Pause)
        },
        (Phase::Pausing, _) => on(b, Phase::Polling, StepView::Poll),
        (Phase::Reading, AnswerView::Settled(runid)) => if needed(
            b.job.force,
            runid,
            b.job.session,
        ) {
            on(b, Phase::Looking, StepView::Look)
        } else {
            leave(b, EndView::Skipped)
        },
        (Phase::Looking, AnswerView::Found(f)) => match plan_for(
            Facts { force: b.job.force, ..f },
        ) {
            Plan::Static => on(b, Phase::Stamping, StepView::StampSource),
            Plan::NoRule => leave(
                b,
                EndView::Failed(ErrorView::NoRule { target: b.job.target }),
            ),
            Plan::Run => on(b, Phase::Guarding, StepView::Guard),
        },
        (Phase::Stamping, AnswerView::Stamped(s)) => on(
            b,
            Phase::Recording,
            StepView::Apply(
                seq![
                    OpView::UpsertFile(
                        file_view(b.job.target, None, None, s, b.job.session),
                    ),
                ],
            ),
        ),
        (Phase::Recording, AnswerView::Done) => leave(b, EndView::Source),
        (
            Phase::Guarding,
            AnswerView::Guarded { problem, all, none, demanded, user_present },
        ) => {
            let words = match problem {
                Some(p) => p,
                None => Seq::empty(),
            };
            let b = BuildView { problem: words, ..b };
            match guard_for(problem is Some, all, none, demanded, user_present) {
                Guard::Proceed => on(b, Phase::Ruling, StepView::StampRule),
                Guard::Overwrite => on(b, Phase::Overwriting, StepView::Overwriting(words)),
                Guard::Abort => leave(b, aborted),
                Guard::Prompt => on(b, Phase::Prompting, StepView::Prompt(words)),
                Guard::Refuse => leave(b, EndView::Failed(ErrorView::Refused { problem: words })),
            }
        },
        (Phase::Overwriting, _) => on(b, Phase::Ruling, StepView::StampRule),
        (Phase::Prompting, AnswerView::Answered(said)) => if said is Yes || said is All {
            on(b, Phase::Ruling, StepView::StampRule)
        } else {
            leave(b, EndView::Failed(ErrorView::Refused { problem: b.problem }))
        },
        (Phase::Ruling, AnswerView::Rule { dofile, stamp, absent }) => on(
            BuildView { rule: dofile, ..b },
            Phase::Marking,
            StepView::Apply(begin_changes(b.job.target, dofile, stamp, absent)),
        ),
        (Phase::Marking, AnswerView::Done) => on(
            BuildView { prepared: true, ..b },
            Phase::Preparing,
            StepView::Prepare,
        ),
        (Phase::Preparing, AnswerView::Done) => match b.job.log {
            Some(p) => on(b, Phase::Logging, StepView::OpenLog(p)),
            None => on(b, Phase::Launching, StepView::Launch),
        },
        (Phase::Logging, AnswerView::Done) => on(
            b,
            Phase::Tracing,
            StepView::Announce(
                EventView::Do { session: b.job.session as int, target: b.job.target },
            ),
        ),
        (Phase::Tracing, _) => on(
            BuildView { owed: Some(1), ..b },
            Phase::Launching,
            StepView::Launch,
        ),
        (Phase::Launching, AnswerView::Done) => on(
            b,
            Phase::Awaiting,
            StepView::Await(patience(b.job)),
        ),
        (Phase::Awaiting, AnswerView::Ran(ran)) => {
            let b = BuildView {
                owed: match b.owed {
                    Some(_) => Some(
                        match ran.code {
                            Some(c) => c as int,
                            None => 1,
                        },
                    ),
                    None => None,
                },
                ..b
            };
            match judged(b.job.target, ran) {
                Ok(o) => on(b, Phase::Placing, StepView::Place(o)),
                Err(e) => leave(b, EndView::Failed(e)),
            }
        },
        (Phase::Awaiting, AnswerView::Dead) => on(b, Phase::Killing, StepView::Kill),
        (Phase::Killing, _) => leave(b, aborted),
        (Phase::Placing, AnswerView::Done) => on(b, Phase::Measuring, StepView::StampOutput),
        (Phase::Measuring, AnswerView::Produced { stamp, now }) => on(
            b,
            Phase::Committing,
            StepView::Apply(commit_changes(b.job.target, b.rule, now, stamp, b.job.session)),
        ),
        (Phase::Committing, AnswerView::Done) => leave(b, EndView::Built),
        (Phase::Terminating, _) => on(b, Phase::Cleaning, StepView::Clean),
        (Phase::Cleaning, _) => on(
            BuildView { end: None, ..b },
            Phase::Ended,
            StepView::End(b.end->0),
        ),
        // Nothing follows the end.
        (Phase::Ended, _) => on(b, Phase::Ended, StepView::End(EndView::Trouble)),
        _ => leave(b, EndView::Trouble),
    }
}

impl Build {
    /// Well-formed: what is owed to the log belongs to the job, and is settled
    /// only on the way out; an output is put in place only after a success; and
    /// the way out knows the end.
    pub closed spec fn wf(&self) -> bool {
        &&& self.guard matches Some(g) ==> {
            &&& g.session == self.job.session
            &&& g.target@ == self.job.target@
            &&& g.committed ==> self.phase is Terminating || self.phase is Cleaning
                || self.phase is Ended
            &&& (self.phase is Placing || self.phase is Measuring || self.phase is Committing)
                ==> g.exit == 0
        }
        &&& (self.phase is Logging || self.phase is Tracing) ==> self.job.log is Some
        &&& (self.phase is Terminating || self.phase is Cleaning) ==> self.end is Some
    }

    /// Start a build: its first step.
    pub fn begin(job: Job) -> (r: (Build, Step))
        ensures
            r.0.wf(),
            (r.0@, r.1@) == first(job@),
    {
        let fault = build_start(job.chain.as_slice(), job.target.as_str());
        let mut b = Build {
            job,
            phase: Phase::Locking,
            rule: String::new(),
            problem: String::new(),
            guard: None,
            prepared: false,
            end: None,
        };
        match fault {
            Ok(_) => (b, Step::TryLock),
            Err(e) => {
                let s = b.leave(End::Failed(e));
                (b, s)
            },
        }
    }

    /// The event that the target's log is still owed, for a caller that cannot go
    /// on.
    pub fn unterminated(&self) -> (r: Option<Event>)
        requires
            self.wf(),
        ensures
            r matches Some(e) ==> self@.owed is Some && e@ == last_event(
                self@.job,
                EndView::Trouble,
                self@.owed->0,
            ),
            r is None <==> self@.owed is None || self@.phase is Terminating || self@.phase
                is Cleaning || self@.phase is Ended,
    {
        match self.phase {
            Phase::Terminating | Phase::Cleaning | Phase::Ended => return None,
            _ => {},
        }
        match &self.guard {
            Some(g) => g.terminator(),
            None => None,
        }
    }

    fn leave(&mut self, end: End) -> (s: Step)
        requires
            old(self).wf(),
            !(old(self).phase is Terminating || old(self).phase is Cleaning || old(self).phase
                is Ended),
            end@ is Built ==> old(self).phase is Committing,
        ensures
            final(self).wf(),
            (final(self)@, s@) == leave(old(self)@, end@),
    {
        let built = match &end {
            End::Built => true,
            _ => false,
        };
        match self.guard.take() {
            Some(mut g) => {
                let e = if built {
                    Some(g.commit_success())
                } else {
                    g.terminator()
                };
                self.guard = Some(g);
                self.phase = Phase::Terminating;
                self.end = Some(end);
                match e {
                    Some(e) => Step::Terminate(e),
                    None => Step::Clean,
                }
            },
            None => {
                if self.prepared {
                    self.phase = Phase::Cleaning;
                    self.end = Some(end);
                    Step::Clean
                } else {
                    self.phase = Phase::Ended;
                    Step::End(end)
                }
            },
        }
    }

    fn to(&mut self, phase: Phase, s: Step) -> (r: Step)
        requires
            old(self).wf(),
            old(self).guard is None || !old(self).guard->0.committed || phase is Cleaning || phase
                is Ended,
            (phase is Placing || phase is Measuring || phase is Committing) && old(self).guard
                is Some ==> old(self).guard->0.exit == 0,
            (phase is Logging || phase is Tracing) ==> old(self).job.log is Some,
            (phase is Terminating || phase is Cleaning) ==> old(self).end is Some,
        ensures
            final(self).wf(),
            (final(self)@, r@) == on(old(self)@, phase, s@),
    {
        self.phase = phase;
        s
    }

    fn guarded(
        &mut self,
        problem: Option<String>,
        all: bool,
        none: bool,
        demanded: bool,
        user_present: bool,
    ) -> (s: Step)
        requires
            old(self).wf(),
            old(self).phase is Guarding,
        ensures
            final(self).wf(),
            (final(self)@, s@) == after(
                old(self)@,
                AnswerView::Guarded { problem: opt(problem), all, none, demanded, user_present },
            ),
    {
        let verdict = check_not_hand_edited(
            problem.is_some(),
            all,
            none,
            demanded,
            user_present,
        );
        let words = match problem {
            Some(p) => p,
            None => String::new(),
        };
        self.problem = words.clone();
        match verdict {
            Guard::Proceed => self.to(Phase::Ruling, Step::StampRule),
            Guard::Overwrite => self.to(Phase::Overwriting, Step::Overwriting(words)),
            Guard::Abort => {
                let target = self.job.target.clone();
                self.leave(End::Failed(BuildError::Aborted { target }))
            },
            Guard::Prompt => self.to(Phase::Prompting, Step::Prompt(words)),
            Guard::Refuse => self.leave(End::Failed(BuildError::Refused { problem: words })),
        }
    }

    fn ran(&mut self, ran: Ran) -> (s: Step)
        requires
            old(self).wf(),
            old(self).phase is Awaiting,
        ensures
            final(self).wf(),
            (final(self)@, s@) == after(old(self)@, AnswerView::Ran(ran)),
    {
        match self.guard.take() {
            Some(mut g) => {
                g.record_exit(reported_exit(ran.code));
                self.guard = Some(g);
            },
            None => {},
        }
        match judge(self.job.target.as_str(), &ran) {
            Ok(o) => self.to(Phase::Placing, Step::Place(o)),
            Err(e) => self.leave(End::Failed(e)),
        }
    }

    fn patience(&self) -> (w: LockWait)
        ensures
            w == patience(self@.job),
    {
        lock_wait(self.job.watched, self.job.abandonable)
    }

    /// The next step, given what performing the last one came to.
    pub fn next(&mut self, a: Answer) -> (s: Step)
        requires
            old(self).wf(),
        ensures
            final(self).wf(),
            (final(self)@, s@) == after(old(self)@, a@),
    {
        let target = self.job.target.clone();
        let session = self.job.session;
        match (self.phase, a) {
            (Phase::Locking, Answer::Locked(won)) => if won {
                self.to(Phase::Reading, Step::ReadRun)
            } else {
                self.to(Phase::Announcing, Step::Announce(Event::Waiting { session, target }))
            },
            (Phase::Announcing, _) => match self.patience() {
                LockWait::Block => self.to(Phase::Blocking, Step::Block),
                LockWait::Poll => self.to(Phase::Polling, Step::Poll),
            },
            (Phase::Blocking, Answer::Locked(true)) => self.to(Phase::Reading, Step::ReadRun),
            (Phase::Polling, Answer::Alive(alive)) => if alive {
                self.to(Phase::Relocking, Step::TryLock)
            } else {
                self.leave(End::Dead)
            },
            (Phase::Relocking, Answer::Locked(won)) => if won {
                self.to(Phase::Reading, Step::ReadRun)
            } else {
                self.to(Phase::Pausing, Step::Pause)
            },
            (Phase::Pausing, _) => self.to(Phase::Polling, Step::Poll),
            (Phase::Reading, Answer::Settled(runid)) => if still_needed(
                self.job.force,
                runid,
                session,
            ) {
                self.to(Phase::Looking, Step::Look)
            } else {
                self.leave(End::Skipped)
            },
            (Phase::Looking, Answer::Found(f)) => {
                let f = Facts { force: self.job.force, ..f };
                match plan_build(&f) {
                    Plan::Static => self.to(Phase::Stamping, Step::StampSource),
                    Plan::NoRule => self.leave(End::Failed(BuildError::NoRule { target })),
                    Plan::Run => self.to(Phase::Guarding, Step::Guard),
                }
            },
            (Phase::Stamping, Answer::Stamped(stamp)) => {
                let list = static_ops(target.as_str(), &stamp, session);
                self.to(Phase::Recording, Step::Apply(list))
            },
            (Phase::Recording, Answer::Done) => self.leave(End::Source),
            (
                Phase::Guarding,
                Answer::Guarded { problem, all, none, demanded, user_present },
            ) => self.guarded(problem, all, none, demanded, user_present),
            (Phase::Overwriting, _) => self.to(Phase::Ruling, Step::StampRule),
            (Phase::Prompting, Answer::Answered(said)) => match said {
                crate::overwrite::Answer::Yes | crate::overwrite::Answer::All => self.to(
                    Phase::Ruling,
                    Step::StampRule,
                ),
                _ => {
                    let problem = self.problem.clone();
                    self.leave(End::Failed(BuildError::Refused { problem }))
                },
            },
            (Phase::Ruling, Answer::Rule { dofile, stamp, absent }) => {
                let list = begin_build(
                    target.as_str(),
                    dofile.as_str(),
                    &stamp,
                    absent.as_slice(),
                );
                self.rule = dofile;
                self.to(Phase::Marking, Step::Apply(list))
            },
            (Phase::Marking, Answer::Done) => {
                self.prepared = true;
                self.to(Phase::Preparing, Step::Prepare)
            },
            (Phase::Preparing, Answer::Done) => {
                let path = match &self.job.log {
                    Some(p) => Some(p.copy()),
                    None => None,
                };
                match path {
                    Some(p) => self.to(Phase::Logging, Step::OpenLog(p)),
                    None => self.to(Phase::Launching, Step::Launch),
                }
            },
            (Phase::Logging, Answer::Done) => self.to(
                Phase::Tracing,
                Step::Announce(Event::Do { session, target }),
            ),
            (Phase::Tracing, _) => {
                let path = match &self.job.log {
                    Some(p) => p.copy(),
                    None => FsPath { comps: Vec::new() },
                };
                self.guard = Some(DoneGuard::new(path, session, target));
                self.to(Phase::Launching, Step::Launch)
            },
            (Phase::Launching, Answer::Done) => {
                let w = self.patience();
                self.to(Phase::Awaiting, Step::Await(w))
            },
            (Phase::Awaiting, Answer::Ran(ran)) => self.ran(ran),
            (Phase::Awaiting, Answer::Dead) => self.to(Phase::Killing, Step::Kill),
            (Phase::Killing, _) => self.leave(End::Failed(BuildError::Aborted { target })),
            (Phase::Placing, Answer::Done) => self.to(Phase::Measuring, Step::StampOutput),
            (Phase::Measuring, Answer::Produced { stamp, now }) => {
                let list = commit_build(
                    target.as_str(),
                    self.rule.as_str(),
                    now,
                    &stamp,
                    session,
                );
                self.to(Phase::Committing, Step::Apply(list))
            },
            (Phase::Committing, Answer::Done) => self.leave(End::Built),
            (Phase::Terminating, _) => self.to(Phase::Cleaning, Step::Clean),
            (Phase::Cleaning, _) => {
                let end = match self.end.take() {
                    Some(e) => e,
                    None => End::Trouble,
                };
                self.phase = Phase::Ended;
                Step::End(end)
            },
            (Phase::Ended, _) => Step::End(End::Trouble),
            _ => self.leave(End::Trouble),
        }
    }
}

/// Whether a step is among those given.
pub open spec fn given(steps: Seq<StepView>, p: spec_fn(StepView) -> bool) -> bool {
    exists|i: int| 0 <= i < steps.len() && p(#[trigger] steps[i])
}

/// The state after a history of answers, and the steps that were given: the first
/// one, and one upon each answer.
pub open spec fn history(job: JobView, answers: Seq<AnswerView>) -> (BuildView, Seq<StepView>)
    decreases answers.len(),
{
    if answers.len() == 0 {
        (first(job).0, seq![first(job).1])
    } else {
        let before = history(job, answers.drop_last());
        let now = after(before.0, answers.last());
        (now.0, before.1.push(now.1))
    }
}

/// Whether the lock was won: a step that takes it was answered so.
pub open spec fn lock_won(steps: Seq<StepView>, answers: Seq<AnswerView>) -> bool {
    exists|i: int|
        #![trigger answers[i]]
        0 <= i < answers.len() && i < steps.len() && answers[i] == AnswerView::Locked(true) && (
        steps[i] is TryLock || steps[i] is Block)
}

/// Whether the build was marked as in flight, and the changes were applied.
pub open spec fn marked(
    steps: Seq<StepView>,
    answers: Seq<AnswerView>,
    target: Seq<char>,
    rule: Seq<char>,
) -> bool {
    exists|i: int, stamp: Option<StampView>, absent: Seq<Seq<char>>|
        #![trigger answers[i], begin_changes(target, rule, stamp, absent)]
        0 <= i < answers.len() && i < steps.len() && answers[i] is Done && steps[i]
            == StepView::Apply(begin_changes(target, rule, stamp, absent))
}

/// Whether the do-file ran, with this outcome.
pub open spec fn ran_with(answers: Seq<AnswerView>, ran: Ran) -> bool {
    answers.contains(AnswerView::Ran(ran))
}

/// Whether the do-file ran, and its one output was put in place.
pub open spec fn placed(
    steps: Seq<StepView>,
    answers: Seq<AnswerView>,
    target: Seq<char>,
) -> bool {
    exists|ran: Ran, i: int|
        #![trigger answers[i], judged(target, ran)]
        ran_with(answers, ran) && judged(target, ran) is Ok && 0 <= i < answers.len() && i
            < steps.len() && answers[i] is Done && steps[i] == StepView::Place(
            judged(target, ran)->Ok_0,
        )
}

/// Whether the build was committed: the changes that record its output and drop
/// the marker were applied.
pub open spec fn committed(
    steps: Seq<StepView>,
    answers: Seq<AnswerView>,
    job: JobView,
    rule: Seq<char>,
) -> bool {
    exists|i: int, stamp: Option<StampView>, now: i64|
        #![trigger answers[i], commit_changes(job.target, rule, now, stamp, job.session)]
        0 <= i < answers.len() && i < steps.len() && answers[i] is Done && steps[i]
            == StepView::Apply(commit_changes(job.target, rule, now, stamp, job.session))
}

proof fn lemma_history(job: JobView, answers: Seq<AnswerView>)
    ensures
        history(job, answers).1.len() == answers.len() + 1,
        history(job, answers).0.job == job,
    decreases answers.len(),
{
    if answers.len() > 0 {
        lemma_history(job, answers.drop_last());
    }
}

proof fn lemma_given_push(steps: Seq<StepView>, s: StepView, p: spec_fn(StepView) -> bool)
    ensures
        given(steps.push(s), p) <==> given(steps, p) || p(s),
{
    let more = steps.push(s);
    if given(steps, p) {
        let i = choose|i: int| 0 <= i < steps.len() && p(#[trigger] steps[i]);
        assert(more[i] == steps[i]);
    }
    if p(s) {
        assert(more[steps.len() as int] == s);
    }
    if given(more, p) {
        let i = choose|i: int| 0 <= i < more.len() && p(#[trigger] more[i]);
        if i < steps.len() {
            assert(more[i] == steps[i]);
        }
    }
}

/// Whether a phase comes before the lock is won.
pub open spec fn unlocked(phase: Phase) -> bool {
    phase is Locking || phase is Announcing || phase is Relocking || phase is Blocking || phase
        is Polling || phase is Pausing
}

proof fn lemma_lock(job: JobView, answers: Seq<AnswerView>)
    ensures
        ({
            let (b, steps) = history(job, answers);
            &&& (b.phase is Locking || b.phase is Relocking) ==> steps.last() is TryLock
            &&& b.phase is Blocking ==> steps.last() is Block
            &&& unlocked(b.phase) ==> !b.prepared && b.owed is None
            &&& !unlocked(b.phase) && !(b.phase is Ended) ==> lock_won(steps, answers)
        }),
    decreases answers.len(),
{
    lemma_history(job, answers);
    if answers.len() > 0 {
        let front = answers.drop_last();
        lemma_history(job, front);
        lemma_lock(job, front);
        let (b, steps) = history(job, front);
        let (next, all) = history(job, answers);
        if lock_won(steps, front) {
            let i = choose|i: int|
                #![trigger front[i]]
                0 <= i < front.len() && i < steps.len() && front[i] == AnswerView::Locked(true) && (
                steps[i] is TryLock || steps[i] is Block);
            assert(answers[i] == front[i] && all[i] == steps[i]);
            assert(lock_won(all, answers));
        } else if !unlocked(next.phase) && !(next.phase is Ended) {
            let i = front.len() as int;
            assert(answers[i] == answers.last() && all[i] == steps.last());
            assert(lock_won(all, answers));
        }
    }
}

/// Nothing is done about a target before its lock is won: only taking the lock,
/// waiting for it and giving up come before.
pub proof fn law_lock_first(job: JobView, answers: Seq<AnswerView>)
    ensures
        ({
            let (b, steps) = history(job, answers);
            match steps.last() {
                StepView::TryLock | StepView::Block | StepView::Poll | StepView::Pause => true,
                StepView::Announce(e) => e is Do ==> lock_won(steps, answers),
                StepView::End(_) => true,
                _ => lock_won(steps, answers),
            }
        }),
{
    lemma_history(job, answers);
    lemma_lock(job, answers);
    if answers.len() > 0 {
        lemma_history(job, answers.drop_last());
        lemma_lock(job, answers.drop_last());
    }
}

/// Whether a phase comes after changes were given to apply.
pub open spec fn changing(phase: Phase) -> bool {
    match phase {
        Phase::Recording | Phase::Marking | Phase::Preparing | Phase::Logging | Phase::Tracing
        | Phase::Launching | Phase::Awaiting | Phase::Killing | Phase::Placing | Phase::Measuring
        | Phase::Committing | Phase::Terminating | Phase::Cleaning | Phase::Ended => true,
        _ => false,
    }
}

/// Whether an end says that no attempt was made: there was nothing to do, the
/// build may not start, there is no rule, or a file is in the way.
pub open spec fn untouched(e: EndView) -> bool {
    match e {
        EndView::Skipped | EndView::Dead => true,
        EndView::Failed(ErrorView::Cycle { .. }) | EndView::Failed(ErrorView::TooDeep { .. }) => true,
        EndView::Failed(ErrorView::NoRule { .. }) | EndView::Failed(ErrorView::Refused { .. }) => true,
        _ => false,
    }
}

proof fn lemma_untouched(job: JobView, answers: Seq<AnswerView>)
    ensures
        ({
            let (b, steps) = history(job, answers);
            let touched = given(steps, |s: StepView| s is Apply);
            &&& touched ==> changing(b.phase)
            &&& touched && (b.phase is Terminating || b.phase is Cleaning) ==> !untouched(b.end->0)
            &&& touched ==> (steps.last() matches StepView::End(e) ==> !untouched(e))
            &&& !touched ==> !b.prepared && b.owed is None && (changing(b.phase) ==> b.phase is Ended)
        }),
    decreases answers.len(),
{
    let p = |s: StepView| s is Apply;
    lemma_history(job, answers);
    if answers.len() > 0 {
        let front = answers.drop_last();
        lemma_history(job, front);
        lemma_untouched(job, front);
        let (b, steps) = history(job, front);
        lemma_given_push(steps, after(b, answers.last()).1, p);
    } else {
        let steps = history(job, answers).1;
        if given(steps, p) {
            let i = choose|i: int| 0 <= i < steps.len() && p(#[trigger] steps[i]);
            assert(steps[i] == first(job).1);
        }
    }
}

/// A build that is refused, skipped, or given up before it starts leaves no trace:
/// nothing was changed in the build state.
pub proof fn law_refusal_leaves_no_trace(job: JobView, answers: Seq<AnswerView>, e: EndView)
    requires
        history(job, answers).1.last() == StepView::End(e),
        untouched(e),
    ensures
        !given(history(job, answers).1, |s: StepView| s is Apply),
{
    lemma_untouched(job, answers);
}

/// Whether a phase comes after the build was marked.
pub open spec fn in_flight(phase: Phase) -> bool {
    match phase {
        Phase::Preparing | Phase::Logging | Phase::Tracing | Phase::Launching | Phase::Awaiting
        | Phase::Killing | Phase::Placing | Phase::Measuring | Phase::Committing => true,
        _ => false,
    }
}

proof fn lemma_marked(job: JobView, answers: Seq<AnswerView>)
    ensures
        ({
            let (b, steps) = history(job, answers);
            &&& b.phase is Marking ==> exists|stamp: Option<StampView>, absent: Seq<Seq<char>>|
                steps.last() == StepView::Apply(
                    #[trigger] begin_changes(job.target, b.rule, stamp, absent),
                )
            &&& in_flight(b.phase) ==> marked(steps, answers, job.target, b.rule)
        }),
    decreases answers.len(),
{
    lemma_history(job, answers);
    if answers.len() > 0 {
        let front = answers.drop_last();
        lemma_history(job, front);
        lemma_marked(job, front);
        let (b, steps) = history(job, front);
        let (next, all) = history(job, answers);
        let last = answers.last();
        if in_flight(b.phase) && in_flight(next.phase) {
            let (i, stamp, absent) = choose|
                i: int,
                stamp: Option<StampView>,
                absent: Seq<Seq<char>>,
            |
                #![trigger front[i], begin_changes(job.target, b.rule, stamp, absent)]
                0 <= i < front.len() && i < steps.len() && front[i] is Done && steps[i]
                    == StepView::Apply(begin_changes(job.target, b.rule, stamp, absent));
            assert(answers[i] == front[i] && all[i] == steps[i]);
            assert(next.rule == b.rule);
            assert(marked(all, answers, job.target, next.rule));
        } else if in_flight(next.phase) {
            assert(b.phase is Marking && last is Done);
            let (stamp, absent) = choose|stamp: Option<StampView>, absent: Seq<Seq<char>>|
                steps.last() == StepView::Apply(
                    #[trigger] begin_changes(job.target, b.rule, stamp, absent),
                );
            let i = front.len() as int;
            assert(answers[i] == last && all[i] == steps.last());
            assert(marked(all, answers, job.target, next.rule));
        } else if next.phase is Marking {
            match last {
                AnswerView::Rule { dofile, stamp, absent } => {
                    assert(all.last() == StepView::Apply(
                        begin_changes(job.target, next.rule, stamp, absent),
                    ));
                },
                _ => {},
            }
        }
    }
}

/// No do-file runs before the build is marked as in flight: whenever it is to be
/// started, the changes that forget the edges and set the marker were applied.
pub proof fn law_marked_before_launch(job: JobView, answers: Seq<AnswerView>)
    requires
        history(job, answers).1.last() is Launch,
    ensures
        marked(history(job, answers).1, answers, job.target, history(job, answers).0.rule),
{
    lemma_history(job, answers);
    lemma_marked(job, answers);
    if answers.len() > 0 {
        lemma_history(job, answers.drop_last());
    }
}

/// Whether a phase comes after the output was put in place.
pub open spec fn in_place(phase: Phase) -> bool {
    phase is Measuring || phase is Committing
}

proof fn lemma_placed(job: JobView, answers: Seq<AnswerView>)
    ensures
        ({
            let (b, steps) = history(job, answers);
            &&& b.phase is Placing ==> exists|ran: Ran|
                ran_with(answers, ran) && (#[trigger] judged(job.target, ran)) is Ok && steps.last()
                    == StepView::Place(judged(job.target, ran)->Ok_0)
            &&& in_place(b.phase) ==> placed(steps, answers, job.target)
        }),
    decreases answers.len(),
{
    lemma_history(job, answers);
    if answers.len() > 0 {
        let front = answers.drop_last();
        lemma_history(job, front);
        lemma_placed(job, front);
        let (b, steps) = history(job, front);
        let (next, all) = history(job, answers);
        let last = answers.last();
        assert forall|ran: Ran| ran_with(front, ran) implies ran_with(answers, ran) by {
            let i = choose|i: int| 0 <= i < front.len() && front[i] == AnswerView::Ran(ran);
            assert(answers[i] == AnswerView::Ran(ran));
        }
        if in_place(next.phase) {
            if in_place(b.phase) {
                let (ran, i) = choose|ran: Ran, i: int|
                    #![trigger front[i], judged(job.target, ran)]
                    ran_with(front, ran) && judged(job.target, ran) is Ok && 0 <= i < front.len()
                        && i < steps.len() && front[i] is Done && steps[i] == StepView::Place(
                        judged(job.target, ran)->Ok_0,
                    );
                assert(ran_with(answers, ran));
                assert(answers[i] == front[i] && all[i] == steps[i]);
            } else {
                assert(b.phase is Placing && last is Done);
                let ran = choose|ran: Ran|
                    ran_with(front, ran) && (#[trigger] judged(job.target, ran)) is Ok
                        && steps.last() == StepView::Place(judged(job.target, ran)->Ok_0);
                let i = front.len() as int;
                assert(ran_with(answers, ran));
                assert(answers[i] == last && all[i] == steps.last());
            }
            assert(placed(all, answers, job.target));
        } else if next.phase is Placing {
            match last {
                AnswerView::Ran(ran) => {
                    assert(answers[front.len() as int] == AnswerView::Ran(ran));
                    assert(ran_with(answers, ran));
                    assert(judged(job.target, ran) is Ok);
                },
                _ => {},
            }
        }
    }
}

proof fn lemma_committed(job: JobView, answers: Seq<AnswerView>)
    ensures
        ({
            let (b, steps) = history(job, answers);
            let done = marked(steps, answers, job.target, b.rule) && placed(
                steps,
                answers,
                job.target,
            ) && committed(steps, answers, job, b.rule);
            &&& b.phase is Committing ==> exists|stamp: Option<StampView>, now: i64|
                steps.last() == StepView::Apply(
                    #[trigger] commit_changes(job.target, b.rule, now, stamp, job.session),
                )
            &&& (b.phase is Terminating || b.phase is Cleaning) && b.end->0 is Built ==> done
            &&& steps.last() == StepView::End(EndView::Built) ==> done
        }),
    decreases answers.len(),
{
    lemma_history(job, answers);
    if answers.len() > 0 {
        let front = answers.drop_last();
        lemma_history(job, front);
        lemma_committed(job, front);
        lemma_marked(job, front);
        lemma_placed(job, front);
        let (b, steps) = history(job, front);
        let (next, all) = history(job, answers);
        let last = answers.last();
        let built = ((next.phase is Terminating || next.phase is Cleaning) && next.end->0 is Built)
            || all.last() == StepView::End(EndView::Built);
        if built {
            assert(next.rule == b.rule);
            if b.phase is Committing {
                let (stamp, now) = choose|stamp: Option<StampView>, now: i64|
                    steps.last() == StepView::Apply(
                        #[trigger] commit_changes(job.target, b.rule, now, stamp, job.session),
                    );
                let i = front.len() as int;
                assert(answers[i] == last && all[i] == steps.last());
                assert(committed(all, answers, job, b.rule));
            } else {
                let (i, stamp, now) = choose|i: int, stamp: Option<StampView>, now: i64|
                    #![trigger front[i], commit_changes(job.target, b.rule, now, stamp, job.session)]
                    0 <= i < front.len() && i < steps.len() && front[i] is Done && steps[i]
                        == StepView::Apply(
                        commit_changes(job.target, b.rule, now, stamp, job.session),
                    );
                assert(answers[i] == front[i] && all[i] == steps[i]);
                assert(committed(all, answers, job, b.rule));
            }
            let (i, stamp, absent) = choose|
                i: int,
                stamp: Option<StampView>,
                absent: Seq<Seq<char>>,
            |
                #![trigger front[i], begin_changes(job.target, b.rule, stamp, absent)]
                0 <= i < front.len() && i < steps.len() && front[i] is Done && steps[i]
                    == StepView::Apply(begin_changes(job.target, b.rule, stamp, absent));
            assert(answers[i] == front[i] && all[i] == steps[i]);
            assert(marked(all, answers, job.target, b.rule));
            let (ran, k) = choose|ran: Ran, k: int|
                #![trigger front[k], judged(job.target, ran)]
                ran_with(front, ran) && judged(job.target, ran) is Ok && 0 <= k < front.len() && k
                    < steps.len() && front[k] is Done && steps[k] == StepView::Place(
                    judged(job.target, ran)->Ok_0,
                );
            let m = choose|m: int| 0 <= m < front.len() && front[m] == AnswerView::Ran(ran);
            assert(answers[m] == AnswerView::Ran(ran));
            assert(ran_with(answers, ran));
            assert(answers[k] == front[k] && all[k] == steps[k]);
            assert(placed(all, answers, job.target));
        } else if next.phase is Committing {
            match last {
                AnswerView::Produced { stamp, now } => {
                    assert(all.last() == StepView::Apply(
                        commit_changes(job.target, next.rule, now, stamp, job.session),
                    ));
                },
                _ => {},
            }
        }
    }
}

/// A target counts as built only if everything was done: the build was marked, its
/// do-file ran, succeeded and left one output, the output was put in place, and
/// the commit was applied.
pub proof fn law_built_means_committed(job: JobView, answers: Seq<AnswerView>)
    requires
        history(job, answers).1.last() == StepView::End(EndView::Built),
    ensures
        ({
            let (b, steps) = history(job, answers);
            &&& marked(steps, answers, job.target, b.rule)
            &&& placed(steps, answers, job.target)
            &&& committed(steps, answers, job, b.rule)
        }),
{
    lemma_committed(job, answers);
}

/// Whether a build ends with the last of these answers.
pub open spec fn ends_with(job: JobView, answers: Seq<AnswerView>) -> bool {
    history(job, answers).1.last() is End && (answers.len() > 0 ==> !(history(
        job,
        answers.drop_last(),
    ).1.last() is End))
}

/// Whether a step leads the reader of the run's trace to the target's log.
pub open spec fn leads_to_log(s: StepView) -> bool {
    s matches StepView::Announce(e) && e is Do
}

proof fn lemma_logged(job: JobView, answers: Seq<AnswerView>)
    ensures
        ({
            let (b, steps) = history(job, answers);
            let led = given(steps, |s: StepView| leads_to_log(s));
            let ended = b.phase is Terminating || b.phase is Cleaning || b.phase is Ended;
            &&& led <==> b.owed is Some || b.phase is Tracing
            &&& led ==> given(steps, |s: StepView| s is OpenLog)
            &&& b.owed is Some ==> ended || (in_flight(b.phase) && !(b.phase is Preparing
                || b.phase is Logging || b.phase is Tracing))
            &&& in_flight(b.phase) ==> b.prepared
            &&& b.phase is Logging ==> steps.last() is OpenLog
            &&& b.owed is Some ==> b.prepared
            &&& given(steps, |s: StepView| s is Prepare) <==> b.prepared
            &&& b.phase is Ended && b.prepared ==> given(steps, |s: StepView| s is Clean)
            &&& given(steps, |s: StepView| s is Terminate) <==> b.owed is Some && ended
            &&& (b.phase is Terminating || b.phase is Cleaning) && b.owed is Some
                ==> steps.contains(StepView::Terminate(last_event(job, b.end->0, b.owed->0)))
            &&& b.phase is Ended <==> steps.last() is End
            &&& ends_with(job, answers) && b.owed is Some ==> steps.contains(
                StepView::Terminate(last_event(job, steps.last()->End_0, b.owed->0)),
            )
        }),
    decreases answers.len(),
{
    let led = |s: StepView| leads_to_log(s);
    let opened = |s: StepView| s is OpenLog;
    let prepares = |s: StepView| s is Prepare;
    let cleans = |s: StepView| s is Clean;
    let terminates = |s: StepView| s is Terminate;
    lemma_history(job, answers);
    if answers.len() > 0 {
        let front = answers.drop_last();
        lemma_history(job, front);
        lemma_logged(job, front);
        let (b, steps) = history(job, front);
        let (next, all) = history(job, answers);
        let s = after(b, answers.last()).1;
        lemma_given_push(steps, s, led);
        lemma_given_push(steps, s, opened);
        lemma_given_push(steps, s, prepares);
        lemma_given_push(steps, s, cleans);
        lemma_given_push(steps, s, terminates);
        if b.phase is Logging {
            assert(opened(steps[steps.len() - 1]));
        }
        assert forall|x: StepView| steps.contains(x) || x == s implies #[trigger] all.contains(
            x,
        ) by {
            lemma_push_contains(steps, s, x);
        }
    } else {
        let steps = history(job, answers).1;
        assert(steps.len() == 1 && steps[0] == first(job).1);
        assert(!given(steps, led) && !given(steps, opened) && !given(steps, prepares) && !given(
            steps,
            cleans,
        ) && !given(steps, terminates));
    }
}

/// A log that a reader was led to exists, and is terminated before the lock is
/// released, whatever the build came to; no other log is. The exit code is zero
/// exactly if the target was built.
pub proof fn law_log_is_terminated(job: JobView, answers: Seq<AnswerView>)
    requires
        ends_with(job, answers),
    ensures
        ({
            let (b, steps) = history(job, answers);
            let led = given(steps, |s: StepView| leads_to_log(s));
            &&& led ==> given(steps, |s: StepView| s is OpenLog)
            &&& led <==> given(steps, |s: StepView| s is Terminate)
            &&& led ==> steps.contains(
                StepView::Terminate(last_event(job, steps.last()->End_0, b.owed->0)),
            )
            &&& last_event(job, steps.last()->End_0, b.owed->0)->exit == 0 <==> steps.last()
                == StepView::End(EndView::Built)
        }),
{
    lemma_history(job, answers);
    lemma_logged(job, answers);
}

/// Temporary files are removed before the lock is released, whatever the build
/// came to.
pub proof fn law_temps_are_removed(job: JobView, answers: Seq<AnswerView>)
    requires
        history(job, answers).1.last() is End,
        given(history(job, answers).1, |s: StepView| s is Prepare),
    ensures
        given(history(job, answers).1, |s: StepView| s is Clean),
{
    lemma_history(job, answers);
    lemma_logged(job, answers);
    if answers.len() > 0 {
        lemma_history(job, answers.drop_last());
    }
}

/// One more answer.
proof fn lemma_then(job: JobView, answers: Seq<AnswerView>, a: AnswerView)
    ensures
        history(job, answers.push(a)) == ({
            let (b, steps) = history(job, answers);
            let now = after(b, a);
            (now.0, steps.push(now.1))
        }),
{
    assert(answers.push(a).drop_last() =~= answers);
}

/// A build whose steps all go well goes through them in this order, and ends with the target
/// built: the lock, the look whether it is still to be built and how, the guard, the rule, the
/// marker, the do-file, its output, the commit. A build without a log of its own.
pub proof fn law_good_answers_build(
    job: JobView,
    runid: Option<i64>,
    f: Facts,
    all: bool,
    none: bool,
    demanded: bool,
    user_present: bool,
    dofile: Seq<char>,
    rule_stamp: Option<StampView>,
    absent: Seq<Seq<char>>,
    ran: Ran,
    stamp: Option<StampView>,
    now: i64,
)
    requires
        start_fault(job.chain, job.target) is None,
        job.log is None,
        job.force || runid != Some(job.session),
        plan_for(Facts { force: job.force, ..f }) is Run,
        judged(job.target, ran) is Ok,
    ensures
        history(
            job,
            seq![
                AnswerView::Locked(true),
                AnswerView::Settled(runid),
                AnswerView::Found(f),
                AnswerView::Guarded { problem: None, all, none, demanded, user_present },
                AnswerView::Rule { dofile, stamp: rule_stamp, absent },
                AnswerView::Done,
                AnswerView::Done,
                AnswerView::Done,
                AnswerView::Ran(ran),
                AnswerView::Done,
                AnswerView::Produced { stamp, now },
                AnswerView::Done,
                AnswerView::Done,
            ],
        ).1 == seq![
            StepView::TryLock,
            StepView::ReadRun,
            StepView::Look,
            StepView::Guard,
            StepView::StampRule,
            StepView::Apply(begin_changes(job.target, dofile, rule_stamp, absent)),
            StepView::Prepare,
            StepView::Launch,
            StepView::Await(
                if job.watched || job.abandonable {
                    LockWait::Poll
                } else {
                    LockWait::Block
                },
            ),
            StepView::Place(judged(job.target, ran)->Ok_0),
            StepView::StampOutput,
            StepView::Apply(commit_changes(job.target, dofile, now, stamp, job.session)),
            StepView::Clean,
            StepView::End(EndView::Built),
        ],
{
    let guarded = AnswerView::Guarded { problem: None, all, none, demanded, user_present };
    let rule = AnswerView::Rule { dofile, stamp: rule_stamp, absent };
    let produced = AnswerView::Produced { stamp, now };
    let begin = begin_changes(job.target, dofile, rule_stamp, absent);
    let commit = commit_changes(job.target, dofile, now, stamp, job.session);
    let s4 = seq![
        AnswerView::Locked(true),
        AnswerView::Settled(runid),
        AnswerView::Found(f),
        guarded,
    ];
    let s8 = s4.push(rule).push(AnswerView::Done).push(AnswerView::Done).push(AnswerView::Done);
    let s11 = s8.push(AnswerView::Ran(ran)).push(AnswerView::Done).push(produced);
    let s13 = s11.push(AnswerView::Done).push(AnswerView::Done);
    lemma_good_start(job, runid, f, guarded);
    lemma_good_launch(job, s4, dofile, rule_stamp, absent);
    lemma_good_output(job, s8, dofile, ran, stamp, now);
    lemma_good_end(job, s11, dofile);
    let answers = seq![
        AnswerView::Locked(true),
        AnswerView::Settled(runid),
        AnswerView::Found(f),
        guarded,
        rule,
        AnswerView::Done,
        AnswerView::Done,
        AnswerView::Done,
        AnswerView::Ran(ran),
        AnswerView::Done,
        produced,
        AnswerView::Done,
        AnswerView::Done,
    ];
    assert(s13 =~= answers);
    assert(history(job, s13).1 =~= seq![
        StepView::TryLock,
        StepView::ReadRun,
        StepView::Look,
        StepView::Guard,
        StepView::StampRule,
        StepView::Apply(begin),
        StepView::Prepare,
        StepView::Launch,
        StepView::Await(patience(job)),
        StepView::Place(judged(job.target, ran)->Ok_0),
        StepView::StampOutput,
        StepView::Apply(commit),
        StepView::Clean,
        StepView::End(EndView::Built),
    ]);
}

proof fn lemma_good_start(job: JobView, runid: Option<i64>, f: Facts, guarded: AnswerView)
    requires
        start_fault(job.chain, job.target) is None,
        job.force || runid != Some(job.session),
        plan_for(Facts { force: job.force, ..f }) is Run,
        guarded matches AnswerView::Guarded { problem, .. } && problem is None,
    ensures
        history(
            job,
            seq![AnswerView::Locked(true), AnswerView::Settled(runid), AnswerView::Found(f), guarded],
        ) == (
            BuildView { phase: Phase::Ruling, ..first(job).0 },
            seq![
                StepView::TryLock,
                StepView::ReadRun,
                StepView::Look,
                StepView::Guard,
                StepView::StampRule,
            ],
        ),
{
    let s0 = Seq::<AnswerView>::empty();
    let s1 = s0.push(AnswerView::Locked(true));
    let s2 = s1.push(AnswerView::Settled(runid));
    let s3 = s2.push(AnswerView::Found(f));
    lemma_then(job, s0, AnswerView::Locked(true));
    lemma_then(job, s1, AnswerView::Settled(runid));
    lemma_then(job, s2, AnswerView::Found(f));
    lemma_then(job, s3, guarded);
    let s4 = seq![
        AnswerView::Locked(true),
        AnswerView::Settled(runid),
        AnswerView::Found(f),
        guarded,
    ];
    assert(s3.push(guarded) =~= s4);
    assert(first(job).0.problem =~= Seq::<char>::empty());
    assert(history(job, s4).1 =~= seq![
        StepView::TryLock,
        StepView::ReadRun,
        StepView::Look,
        StepView::Guard,
        StepView::StampRule,
    ]);
}

proof fn lemma_good_launch(
    job: JobView,
    pre: Seq<AnswerView>,
    dofile: Seq<char>,
    stamp: Option<StampView>,
    absent: Seq<Seq<char>>,
)
    requires
        job.log is None,
        first(job).0.job == job,
        !first(job).0.prepared,
        history(job, pre).0 == (BuildView { phase: Phase::Ruling, ..first(job).0 }),
    ensures
        ({
            let rule = AnswerView::Rule { dofile, stamp, absent };
            history(
                job,
                pre.push(rule).push(AnswerView::Done).push(AnswerView::Done).push(AnswerView::Done),
            ) == (
                BuildView {
                    phase: Phase::Awaiting,
                    rule: dofile,
                    prepared: true,
                    ..first(job).0
                },
                history(job, pre).1.push(
                    StepView::Apply(begin_changes(job.target, dofile, stamp, absent)),
                ).push(StepView::Prepare).push(StepView::Launch).push(
                    StepView::Await(patience(job)),
                ),
            )
        }),
{
    let rule = AnswerView::Rule { dofile, stamp, absent };
    let p1 = pre.push(rule);
    let p2 = p1.push(AnswerView::Done);
    let p3 = p2.push(AnswerView::Done);
    lemma_then(job, pre, rule);
    lemma_then(job, p1, AnswerView::Done);
    lemma_then(job, p2, AnswerView::Done);
    lemma_then(job, p3, AnswerView::Done);
}

proof fn lemma_good_output(
    job: JobView,
    pre: Seq<AnswerView>,
    dofile: Seq<char>,
    ran: Ran,
    stamp: Option<StampView>,
    now: i64,
)
    requires
        first(job).0.job == job,
        first(job).0.owed is None,
        judged(job.target, ran) is Ok,
        history(job, pre).0 == (BuildView {
            phase: Phase::Awaiting,
            rule: dofile,
            prepared: true,
            ..first(job).0
        }),
    ensures
        history(
            job,
            pre.push(AnswerView::Ran(ran)).push(AnswerView::Done).push(
                AnswerView::Produced { stamp, now },
            ),
        ) == (
            BuildView { phase: Phase::Committing, rule: dofile, prepared: true, ..first(job).0 },
            history(job, pre).1.push(StepView::Place(judged(job.target, ran)->Ok_0)).push(
                StepView::StampOutput,
            ).push(
                StepView::Apply(commit_changes(job.target, dofile, now, stamp, job.session)),
            ),
        ),
{
    let p1 = pre.push(AnswerView::Ran(ran));
    let p2 = p1.push(AnswerView::Done);
    lemma_then(job, pre, AnswerView::Ran(ran));
    lemma_then(job, p1, AnswerView::Done);
    lemma_then(job, p2, AnswerView::Produced { stamp, now });
}

proof fn lemma_good_end(job: JobView, pre: Seq<AnswerView>, dofile: Seq<char>)
    requires
        first(job).0.owed is None,
        history(job, pre).0 == (BuildView {
            phase: Phase::Committing,
            rule: dofile,
            prepared: true,
            ..first(job).0
        }),
    ensures
        history(job, pre.push(AnswerView::Done).push(AnswerView::Done)).1 == history(
            job,
            pre,
        ).1.push(StepView::Clean).push(StepView::End(EndView::Built)),
{
    let p1 = pre.push(AnswerView::Done);
    lemma_then(job, pre, AnswerView::Done);
    lemma_then(job, p1, AnswerView::Done);
}

/// Whether the target was found to be settled by no build of this session, or forced.
pub open spec fn found_unsettled(job: JobView, answers: Seq<AnswerView>) -> bool {
    exists|i: int|
        0 <= i < answers.len() && (#[trigger] answers[i] matches AnswerView::Settled(r) && (
        job.force || r != Some(job.session)))
}

/// Whether the target was found to have a rule, and to be no source: it is forced, was made by
/// redo, has a rule of its own, or there is no such file.
pub open spec fn found_buildable(job: JobView, answers: Seq<AnswerView>) -> bool {
    exists|i: int|
        0 <= i < answers.len() && (#[trigger] answers[i] matches AnswerView::Found(f)
            && f.any_dofile && (job.force || f.generated || f.exact_dofile || !f.exists_as_file))
}

/// Whether nothing is in the way, or there is consent: given for all files, or by the user.
pub open spec fn found_consent(answers: Seq<AnswerView>) -> bool {
    exists|i: int|
        0 <= i < answers.len() && match #[trigger] answers[i] {
            AnswerView::Guarded { problem, all, .. } => problem is None || all,
            AnswerView::Answered(said) => said is Yes || said is All,
            _ => false,
        }
}

/// Whether a phase comes after it was decided that there is something to build.
spec fn unsettled(phase: Phase) -> bool {
    phase is Looking || phase is Stamping || phase is Recording || runnable(phase)
}

/// Whether a phase comes after it was decided to run the do-file.
spec fn runnable(phase: Phase) -> bool {
    phase is Guarding || phase is Overwriting || phase is Prompting || permitted(phase)
}

/// Whether a phase comes after it was decided that nothing is in the way.
spec fn permitted(phase: Phase) -> bool {
    phase is Ruling || phase is Marking || in_flight(phase)
}

proof fn lemma_decided(job: JobView, answers: Seq<AnswerView>)
    ensures
        ({
            let b = history(job, answers).0;
            &&& unsettled(b.phase) ==> found_unsettled(job, answers)
            &&& runnable(b.phase) ==> found_buildable(job, answers)
            &&& permitted(b.phase) || b.phase is Overwriting ==> found_consent(answers)
        }),
    decreases answers.len(),
{
    if answers.len() > 0 {
        let front = answers.drop_last();
        lemma_history(job, front);
        lemma_decided(job, front);
        let b = history(job, front).0;
        let next = history(job, answers).0;
        let n = front.len() as int;
        assert(answers[n] == answers.last());
        assert forall|i: int| 0 <= i < n implies #[trigger] answers[i] == front[i] by {}
        if found_unsettled(job, front) {
            let i = choose|i: int|
                0 <= i < front.len() && (#[trigger] front[i] matches AnswerView::Settled(r) && (
                job.force || r != Some(job.session)));
            assert(answers[i] == front[i]);
        }
        if found_buildable(job, front) {
            let i = choose|i: int|
                0 <= i < front.len() && (#[trigger] front[i] matches AnswerView::Found(f)
                    && f.any_dofile && (job.force || f.generated || f.exact_dofile
                    || !f.exists_as_file));
            assert(answers[i] == front[i]);
        }
        if found_consent(front) {
            let i = choose|i: int|
                0 <= i < front.len() && match #[trigger] front[i] {
                    AnswerView::Guarded { problem, all, .. } => problem is None || all,
                    AnswerView::Answered(said) => said is Yes || said is All,
                    _ => false,
                };
            assert(answers[i] == front[i]);
        }
    }
}

/// A do-file runs for a reason and with consent: only if no build of this session settled the
/// target, or it is forced; only if the target has a rule and is no source; and only if no file
/// that redo does not own is in the way, or there is consent to replace it. The same holds before
/// anything is recorded of the build.
pub proof fn law_do_files_run_for_a_reason(job: JobView, answers: Seq<AnswerView>)
    requires
        history(job, answers).1.last() is Launch || history(job, answers).1.last() is StampRule,
    ensures
        found_unsettled(job, answers),
        found_buildable(job, answers),
        found_consent(answers),
{
    lemma_history(job, answers);
    lemma_decided(job, answers);
    if answers.len() > 0 {
        lemma_history(job, answers.drop_last());
    }
}

/// A build is skipped only if a build of the same session settled the target and it is not
/// forced.
pub proof fn law_skipped_means_settled(job: JobView, answers: Seq<AnswerView>)
    requires
        history(job, answers).1.last() == StepView::End(EndView::Skipped),
    ensures
        !job.force,
        answers.contains(AnswerView::Settled(Some(job.session))),
{
    lemma_history(job, answers);
    if answers.len() > 0 {
        let front = answers.drop_last();
        lemma_history(job, front);
        lemma_untouched(job, front);
        let b = history(job, front).0;
        assert(b.phase is Reading);
        assert(answers[answers.len() - 1] == answers.last());
    }
}

/// A file that redo does not own is refused only without consent: there is such a file, and the
/// user said no, or could not be asked, or had said no to all.
pub proof fn law_refused_means_no_consent(
    job: JobView,
    answers: Seq<AnswerView>,
    problem: Seq<char>,
)
    requires
        history(job, answers).1.last() == StepView::End(
            EndView::Failed(ErrorView::Refused { problem }),
        ),
    ensures
        exists|i: int|
            0 <= i < answers.len() && match #[trigger] answers[i] {
                AnswerView::Guarded { problem, all, none, user_present, .. } => problem is Some
                    && !all && (none || !user_present),
                AnswerView::Answered(said) => !(said is Yes) && !(said is All),
                _ => false,
            },
{
    lemma_history(job, answers);
    if answers.len() > 0 {
        let front = answers.drop_last();
        lemma_history(job, front);
        lemma_untouched(job, front);
        let b = history(job, front).0;
        assert(b.phase is Guarding || b.phase is Prompting);
        assert(answers[answers.len() - 1] == answers.last());
    }
}

/// A step that could not be performed is never followed by the next one: the build leaves, and is
/// not built. What is merely told to the user or to a reader of logs, or done on the way out, may
/// fail.
pub proof fn law_trouble_ends_the_build(b: BuildView)
    requires
        !(b.phase is Announcing || b.phase is Pausing || b.phase is Overwriting || b.phase
            is Tracing || b.phase is Killing || b.phase is Terminating || b.phase is Cleaning),
    ensures
        ({
            let (next, s) = after(b, AnswerView::Trouble);
            match s {
                StepView::Terminate(e) => e->exit != 0 && next.end == Some(EndView::Trouble),
                StepView::Clean => next.end == Some(EndView::Trouble),
                StepView::End(e) => e is Trouble,
                _ => false,
            }
        }),
{
}

/// Work that may be superseded never blocks: it polls for the lock and while its do-file runs, and
/// other work blocks.
pub proof fn law_superseded_work_never_blocks(job: JobView, answers: Seq<AnswerView>)
    ensures
        ({
            let s = history(job, answers).1.last();
            &&& s is Block ==> !job.watched && !job.abandonable
            &&& s is Poll || s is Pause ==> job.watched || job.abandonable
            &&& s == StepView::Await(LockWait::Block) ==> !job.watched && !job.abandonable
            &&& s == StepView::Await(LockWait::Poll) ==> job.watched || job.abandonable
        }),
{
    lemma_polls(job, answers);
}

proof fn lemma_polls(job: JobView, answers: Seq<AnswerView>)
    ensures
        ({
            let (b, steps) = history(job, answers);
            let s = steps.last();
            &&& b.job == job
            &&& b.phase is Polling || b.phase is Relocking || b.phase is Pausing ==> job.watched
                || job.abandonable
            &&& b.phase is Blocking ==> !job.watched && !job.abandonable
            &&& s is Block ==> b.phase is Blocking
            &&& s is Poll ==> b.phase is Polling
            &&& s is Pause ==> b.phase is Pausing
            &&& s is Await ==> s == StepView::Await(patience(job))
        }),
    decreases answers.len(),
{
    lemma_history(job, answers);
    if answers.len() > 0 {
        lemma_history(job, answers.drop_last());
        lemma_polls(job, answers.drop_last());
    }
}

/// Whether a phase comes after an output was given to be put in place.
spec fn output_given(phase: Phase) -> bool {
    phase is Placing || in_place(phase) || phase is Terminating || phase is Cleaning || phase
        is Ended
}

proof fn lemma_killed(job: JobView, answers: Seq<AnswerView>)
    ensures
        ({
            let (b, steps) = history(job, answers);
            let killed = given(steps, |s: StepView| s is Kill);
            &&& given(steps, |s: StepView| s is Place) ==> output_given(b.phase) && !killed
            &&& killed ==> b.phase is Killing || b.phase is Terminating || b.phase is Cleaning
                || b.phase is Ended
            &&& killed && (b.phase is Terminating || b.phase is Cleaning) ==> !(b.end->0 is Built)
            &&& killed ==> steps.last() != StepView::End(EndView::Built)
        }),
    decreases answers.len(),
{
    let kills = |s: StepView| s is Kill;
    let places = |s: StepView| s is Place;
    lemma_history(job, answers);
    if answers.len() > 0 {
        let front = answers.drop_last();
        lemma_history(job, front);
        lemma_killed(job, front);
        let (b, steps) = history(job, front);
        let s = after(b, answers.last()).1;
        lemma_given_push(steps, s, kills);
        lemma_given_push(steps, s, places);
    } else {
        let steps = history(job, answers).1;
        assert(steps.len() == 1 && steps[0] == first(job).1);
        assert(!given(steps, kills) && !given(steps, places));
    }
}

/// Work that is found to be no longer needed while its do-file runs is stopped: the do-file is
/// killed, no output is put in place, and the target is not built.
pub proof fn law_dead_work_is_stopped(job: JobView, answers: Seq<AnswerView>)
    ensures
        history(job, answers).1.last() is Await ==> history(
            job,
            answers.push(AnswerView::Dead),
        ).1.last() is Kill,
        given(history(job, answers).1, |s: StepView| s is Kill) ==> !given(
            history(job, answers).1,
            |s: StepView| s is Place,
        ) && history(job, answers).1.last() != StepView::End(EndView::Built),
{
    lemma_killed(job, answers);
    lemma_then(job, answers, AnswerView::Dead);
    lemma_history(job, answers);
    if answers.len() > 0 {
        lemma_history(job, answers.drop_last());
    }
}

/// An output is put in place only after a do-file that succeeded: it exited with zero, left the
/// target alone, and left at most one output.
pub proof fn law_output_after_success(job: JobView, answers: Seq<AnswerView>, o: Output)
    requires
        history(job, answers).1.last() == StepView::Place(o),
    ensures
        exists|ran: Ran|
            ran_with(answers, ran) && (#[trigger] judged(job.target, ran)) == Ok::<
                Output,
                ErrorView,
            >(o) && ran.code == Some(0i32) && !(ran.temp_exists && ran.captured > 0),
{
    lemma_history(job, answers);
    lemma_placed(job, answers);
    if answers.len() > 0 {
        lemma_history(job, answers.drop_last());
    }
    assert(history(job, answers).0.phase is Placing);
    let ran = choose|ran: Ran|
        ran_with(answers, ran) && (#[trigger] judged(job.target, ran)) is Ok && history(
            job,
            answers,
        ).1.last() == StepView::Place(judged(job.target, ran)->Ok_0);
    assert(judged(job.target, ran) == Ok::<Output, ErrorView>(o));
}

proof fn lemma_source(job: JobView, answers: Seq<AnswerView>)
    ensures
        ({
            let (b, steps) = history(job, answers);
            b.phase is Recording ==> exists|s: Option<StampView>|
                steps.last() == StepView::Apply(
                    seq![
                        OpView::UpsertFile(
                            #[trigger] file_view(job.target, None, None, s, job.session),
                        ),
                    ],
                )
        }),
{
    lemma_history(job, answers);
    if answers.len() > 0 {
        lemma_history(job, answers.drop_last());
        match answers.last() {
            AnswerView::Stamped(s) => {
                let row = file_view(job.target, None, None, s, job.session);
                if history(job, answers).0.phase is Recording {
                    assert(history(job, answers).1.last() == StepView::Apply(
                        seq![OpView::UpsertFile(row)],
                    ));
                }
            },
            _ => {},
        }
    }
}

/// A target counts as a source only once it is recorded as one: with its stamp, without a do-file,
/// as settled in this session.
pub proof fn law_source_means_recorded(job: JobView, answers: Seq<AnswerView>)
    requires
        history(job, answers).1.last() == StepView::End(EndView::Source),
    ensures
        exists|i: int, s: Option<StampView>|
            #![trigger answers[i], file_view(job.target, None, None, s, job.session)]
            0 <= i < answers.len() && answers[i] is Done && history(job, answers).1[i]
                == StepView::Apply(
                seq![OpView::UpsertFile(file_view(job.target, None, None, s, job.session))],
            ),
{
    lemma_history(job, answers);
    if answers.len() > 0 {
        let front = answers.drop_last();
        lemma_history(job, front);
        let (b, steps) = history(job, front);
        let all = history(job, answers).1;
        lemma_source_ends(job, front);
        assert(b.phase is Recording);
        lemma_source(job, front);
        let s = choose|s: Option<StampView>|
            steps.last() == StepView::Apply(
                seq![
                    OpView::UpsertFile(
                        #[trigger] file_view(job.target, None, None, s, job.session),
                    ),
                ],
            );
        let i = front.len() as int;
        assert(answers[i] == answers.last());
        assert(all[i] == steps.last());
        assert(answers[i] is Done && all[i] == StepView::Apply(
            seq![OpView::UpsertFile(file_view(job.target, None, None, s, job.session))],
        ));
    }
}

proof fn lemma_source_ends(job: JobView, answers: Seq<AnswerView>)
    ensures
        ({
            let b = history(job, answers).0;
            &&& b.phase is Recording || b.phase is Stamping ==> !b.prepared && b.owed is None
            &&& b.phase is Terminating || b.phase is Cleaning ==> !(b.end->0 is Source)
        }),
    decreases answers.len(),
{
    lemma_history(job, answers);
    lemma_early(job, answers);
    if answers.len() > 0 {
        lemma_history(job, answers.drop_last());
        lemma_early(job, answers.drop_last());
        lemma_source_ends(job, answers.drop_last());
    }
}

proof fn lemma_early(job: JobView, answers: Seq<AnswerView>)
    ensures
        ({
            let b = history(job, answers).0;
            b.prepared || b.owed is Some ==> in_flight(b.phase) || b.phase is Terminating || b.phase
                is Cleaning || b.phase is Ended
        }),
    decreases answers.len(),
{
    if answers.len() > 0 {
        lemma_early(job, answers.drop_last());
    }
}

}
