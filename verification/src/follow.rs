//! The log follower: the only writer to the terminal during a build.
//!
//! It walks the trace depth-first, replaying finished targets and tailing the
//! one it is on. Reading files, probing locks, sleeping and printing are left
//! to the caller; the state machine here decides what to do next.

use crate::lock::{probe_unlocked, Probe};
use crate::logs::{
    bytes_value, event_parse, law_parsed_event_valid, Event, EventView, DEPTH_MAX, LINE_BYTES_MAX,
    RUN_TARGET,
};
use crate::num::{decimal, int_text};
use crate::text::{cat, cat3, lists, lower, same, texts, to_lower};
use vstd::prelude::*;

verus! {

/// The first pause, in milliseconds, when no complete line is available.
pub const POLL_DELAY_INITIAL_MS: u64 = 10;

/// How much longer each further pause is.
pub const POLL_DELAY_STEP_MS: u64 = 10;

/// The longest pause.
pub const POLL_DELAY_MAX_MS: u64 = 200;

/// Incremental line reader over a growing file: bytes are fed in as they are
/// read, and complete lines come out. A missing line is a pause, not an end.
pub struct LineReader {
    pub buf: Vec<u8>,
}

/// Where the first newline stands at or after `from`.
pub open spec fn newline_from(s: Seq<u8>, from: int) -> Option<int>
    decreases s.len() - from,
{
    if from < 0 || from >= s.len() {
        None
    } else if s[from] == 10 {
        Some(from)
    } else {
        newline_from(s, from + 1)
    }
}

/// A line without the carriage return that may end it.
pub open spec fn fold_cr(s: Seq<u8>) -> Seq<u8> {
    if s.len() > 0 && s.last() == 13 {
        s.drop_last()
    } else {
        s
    }
}

/// What one look for a line gives: the line, if there is one, and what stays
/// buffered. An endless run without a newline is flushed as a chunk.
pub open spec fn line_step(buf: Seq<u8>) -> (Option<Seq<u8>>, Seq<u8>) {
    match newline_from(buf, 0) {
        Some(p) => (Some(fold_cr(buf.take(p))), buf.skip(p + 1)),
        None => if buf.len() >= LINE_BYTES_MAX {
            (Some(buf), Seq::empty())
        } else {
            (None, buf)
        },
    }
}

/// A piece of a byte list.
fn bytes_part(v: &[u8], from: usize, to: usize) -> (out: Vec<u8>)
    requires
        from <= to <= v.len(),
    ensures
        out@ == v@.subrange(from as int, to as int),
{
    let mut out: Vec<u8> = Vec::new();
    for i in from..to
        invariant
            to <= v.len(),
            out@ == v@.subrange(from as int, i as int),
    {
        out.push(v[i]);
    }
    out
}

impl LineReader {
    /// A reader with nothing buffered.
    pub fn new() -> (r: LineReader)
        ensures
            r.buf@ == Seq::<u8>::empty(),
    {
        LineReader { buf: Vec::new() }
    }

    /// The next complete line, without its newline (CRLF folded); `None` when
    /// none is available yet.
    pub fn next_line(&mut self) -> (r: Option<Vec<u8>>)
        ensures
            final(self).buf@ == line_step(old(self).buf@).1,
            match r {
                Some(l) => line_step(old(self).buf@).0 == Some(l@),
                None => line_step(old(self).buf@).0 is None,
            },
    {
        let n = self.buf.len();
        let ghost whole = self.buf@;
        for i in 0..n
            invariant
                n == self.buf.len(),
                self.buf@ == whole,
                whole == old(self).buf@,
                newline_from(whole, 0) == newline_from(whole, i as int),
        {
            if self.buf[i] == 10 {
                let mut end: usize = i;
                if i > 0 && self.buf[i - 1] == 13 {
                    end = i - 1;
                }
                let line = bytes_part(self.buf.as_slice(), 0, end);
                assert(line@ =~= fold_cr(whole.take(i as int)));
                let rest = bytes_part(self.buf.as_slice(), i + 1, n);
                assert(rest@ =~= whole.skip(i + 1));
                self.buf = rest;
                return Some(line);
            }
        }
        if n >= LINE_BYTES_MAX {
            let line = bytes_part(self.buf.as_slice(), 0, n);
            assert(line@ =~= whole);
            self.buf = Vec::new();
            return Some(line);
        }
        None
    }

    /// Add bytes that were read.
    pub fn feed(&mut self, chunk: &[u8])
        ensures
            final(self).buf@ == old(self).buf@ + chunk@,
    {
        let ghost before = self.buf@;
        for i in 0..chunk.len()
            invariant
                self.buf@ == before + chunk@.take(i as int),
        {
            self.buf.push(chunk[i]);
            assert(before + chunk@.take(i + 1) =~= (before + chunk@.take(i as int)).push(
                chunk@[i as int],
            ));
        }
        assert(chunk@.take(chunk.len() as int) =~= chunk@);
    }

    /// Whatever is buffered without a terminating newline.
    pub fn take_partial(&mut self) -> (r: Vec<u8>)
        ensures
            r@ == old(self).buf@,
            final(self).buf@ == Seq::<u8>::empty(),
    {
        let r = bytes_part(self.buf.as_slice(), 0, self.buf.len());
        assert(r@ =~= self.buf@);
        self.buf = Vec::new();
        r
    }
}

/// All complete lines of a buffer, and what is left of it.
pub open spec fn drained(buf: Seq<u8>) -> (Seq<Seq<u8>>, Seq<u8>)
    decreases buf.len(),
{
    match newline_from(buf, 0) {
        Some(p) => if 0 <= p < buf.len() {
            let rest = drained(buf.skip(p + 1));
            (seq![fold_cr(buf.take(p))] + rest.0, rest.1)
        } else {
            (Seq::empty(), buf)
        },
        None => (Seq::empty(), buf),
    }
}

/// The first newline lies in the buffer, at a newline, with none before it.
proof fn lemma_newline_at(s: Seq<u8>, from: int)
    requires
        0 <= from,
    ensures
        match newline_from(s, from) {
            Some(p) => from <= p < s.len() && s[p] == 10 && forall|j: int|
                from <= j < p ==> #[trigger] s[j] != 10,
            None => forall|j: int| from <= j < s.len() ==> #[trigger] s[j] != 10,
        },
    decreases s.len() - from,
{
    if from < s.len() && s[from] != 10 {
        lemma_newline_at(s, from + 1);
    }
}

/// The first newline is where one stands with none before it.
proof fn lemma_newline_is(s: Seq<u8>, from: int, p: int)
    requires
        0 <= from <= p < s.len(),
        s[p] == 10,
        forall|j: int| from <= j < p ==> #[trigger] s[j] != 10,
    ensures
        newline_from(s, from) == Some(p),
    decreases p - from,
{
    if from < p {
        assert(s[from] != 10);
        lemma_newline_is(s, from + 1, p);
    }
}

/// Lines do not depend on how reading chops the stream: reading `a`, taking the
/// lines, and then reading `b` gives the lines of `a` and `b` read at once.
pub proof fn law_lines_unchopped(a: Seq<u8>, b: Seq<u8>)
    ensures
        drained(a + b) == ({
            let first = drained(a);
            let second = drained(first.1 + b);
            (first.0 + second.0, second.1)
        }),
    decreases a.len(),
{
    lemma_newline_at(a, 0);
    match newline_from(a, 0) {
        Some(p) => {
            let s = a + b;
            assert forall|j: int| 0 <= j < p implies #[trigger] s[j] != 10 by {
                assert(s[j] == a[j]);
            }
            lemma_newline_is(s, 0, p);
            assert(s.take(p) =~= a.take(p));
            assert(s.skip(p + 1) =~= a.skip(p + 1) + b);
            law_lines_unchopped(a.skip(p + 1), b);
            let rest = drained(a.skip(p + 1));
            let second = drained(rest.1 + b);
            assert((seq![fold_cr(a.take(p))] + rest.0) + second.0 =~= seq![fold_cr(a.take(p))] + (
            rest.0 + second.0));
        },
        None => {
            assert(Seq::<Seq<u8>>::empty() + drained(a + b).0 =~= drained(a + b).0);
        },
    }
}

/// A reader's buffer stays bounded: after a look for a line that found none, it
/// holds less than the bound.
pub proof fn law_buffer_bounded(buf: Seq<u8>)
    ensures
        line_step(buf).0 is None ==> line_step(buf).1.len() < LINE_BYTES_MAX,
{
}

/// One open log in the follower's walk.
pub struct Frame {
    /// Root-relative target, or [`RUN_TARGET`] for the run trace.
    pub target: String,
    /// Indentation of this frame's own header and footer lines.
    pub indent: usize,
    /// A child block was printed since this frame's last own line, so its next
    /// user line is preceded by a marker.
    pub interrupted: bool,
    /// What was read of its log but not yet seen as a line.
    pub reader: LineReader,
}

/// A frame, as a mathematical value.
#[verifier::ext_equal]
pub struct FrameView {
    pub target: Seq<char>,
    pub indent: int,
    pub interrupted: bool,
    pub buf: Seq<u8>,
}

impl View for Frame {
    type V = FrameView;

    open spec fn view(&self) -> FrameView {
        FrameView {
            target: self.target@,
            indent: self.indent as int,
            interrupted: self.interrupted,
            buf: self.reader.buf@,
        }
    }
}

/// What the caller is to do.
#[derive(Debug, PartialEq, Eq)]
pub enum Action {
    /// Print a line of the follower's own.
    Note(String),
    /// Print a line of user output.
    Line(Vec<u8>),
    /// Open the log of a target and report how that went to
    /// [`Follower::on_opened`].
    Open { target: String, indent: usize },
    /// Close the log of the frame that was left, and with `remove` delete it.
    Close { target: String, remove: bool },
    /// Pause for some milliseconds.
    Sleep(u64),
}

/// An action, as a mathematical value.
pub enum ActionView {
    Note(Seq<char>),
    Line(Seq<u8>),
    Open { target: Seq<char>, indent: int },
    Close { target: Seq<char>, remove: bool },
    Sleep(int),
}

impl View for Action {
    type V = ActionView;

    open spec fn view(&self) -> ActionView {
        match self {
            Action::Note(s) => ActionView::Note(s@),
            Action::Line(b) => ActionView::Line(b@),
            Action::Open { target, indent } => ActionView::Open {
                target: target@,
                indent: *indent as int,
            },
            Action::Close { target, remove } => ActionView::Close {
                target: target@,
                remove: *remove,
            },
            Action::Sleep(ms) => ActionView::Sleep(*ms as int),
        }
    }
}

/// The views of a list of actions.
pub open spec fn actions(v: Seq<Action>) -> Seq<ActionView> {
    v.map_values(|a: Action| a@)
}

/// The views of a stack of frames.
pub open spec fn frames(v: Seq<Frame>) -> Seq<FrameView> {
    v.map_values(|f: Frame| f@)
}

/// The state of the follower, as a mathematical value.
#[verifier::ext_equal]
pub struct FollowView {
    /// The open logs; the last one is being read.
    pub stack: Seq<FrameView>,
    /// The folded names of the targets that were descended into or announced.
    pub visited: Seq<Seq<char>>,
    /// The next pause.
    pub delay: int,
}

/// The state with the top frame replaced.
pub open spec fn with_top(st: FollowView, f: FrameView) -> FollowView {
    FollowView { stack: st.stack.drop_last().push(f), ..st }
}

/// Indentation by two blanks per level.
pub open spec fn blanks(indent: int) -> Seq<char> {
    Seq::new((2 * indent) as nat, |i: int| ' ')
}

/// A line of the follower's own about a target: `redo`, the name, a remark.
pub open spec fn note(indent: int, target: Seq<char>, remark: Seq<char>) -> ActionView {
    ActionView::Note(blanks(indent) + ("redo  "@ + target + remark))
}

/// The indentation of what runs below a frame.
pub open spec fn child_indent(f: FrameView) -> int {
    if f.target == RUN_TARGET@ {
        0
    } else {
        f.indent + 1
    }
}

/// Whether a frame is that of the run trace.
pub open spec fn is_run(f: FrameView) -> bool {
    f.target == RUN_TARGET@
}

/// A line of user output: preceded by a marker if a child block was printed
/// since the frame's last own line.
pub open spec fn on_user_line(st: FollowView, line: Seq<u8>) -> (FollowView, Seq<ActionView>) {
    let top = st.stack.last();
    if top.interrupted {
        (
            with_top(st, FrameView { interrupted: false, ..top }),
            if is_run(top) {
                seq![ActionView::Line(line)]
            } else {
                seq![note(top.indent, top.target, "  (resumed)"@), ActionView::Line(line)]
            },
        )
    } else {
        (st, seq![ActionView::Line(line)])
    }
}

/// The stack without its top; the frame below, if any, was interrupted.
pub open spec fn popped(stack: Seq<FrameView>) -> Seq<FrameView> {
    let rest = stack.drop_last();
    if rest.len() > 0 {
        rest.drop_last().push(FrameView { interrupted: true, ..rest.last() })
    } else {
        rest
    }
}

/// A child build started: announce it, and descend unless it was traced before
/// or lies too deep.
pub open spec fn on_do(st: FollowView, target: Seq<char>) -> (FollowView, Seq<ActionView>) {
    let top = st.stack.last();
    let indent = child_indent(top);
    let head = note(indent, target, Seq::empty());
    let seen = with_top(st, FrameView { interrupted: true, ..top });
    if st.visited.contains(lower(target)) {
        (seen, seq![head])
    } else {
        (
            FollowView { visited: st.visited.push(lower(target)), ..seen },
            if st.stack.len() > DEPTH_MAX {
                seq![head, note(indent, target, "  (too deep to trace)"@)]
            } else {
                seq![head, ActionView::Open { target, indent }]
            },
        )
    }
}

/// A build finished. Only the `done` of the target being read moves the walk;
/// any other is user output that looks like an event.
pub open spec fn on_done(
    st: FollowView,
    own_session: int,
    keep: bool,
    session: int,
    exit: int,
    target: Seq<char>,
    raw: Seq<u8>,
) -> (FollowView, Seq<ActionView>) {
    let top = st.stack.last();
    if target != top.target {
        on_user_line(st, raw)
    } else {
        let failed = if exit != 0 && !is_run(top) {
            seq![note(top.indent, target, "  (failed, exit "@ + decimal(exit) + ")"@)]
        } else {
            Seq::empty()
        };
        let close = ActionView::Close {
            target,
            remove: session == own_session && !is_run(top) && !keep,
        };
        let other = if session != own_session && !is_run(top) {
            seq![note(top.indent, target, "  (built by another redo run)"@)]
        } else {
            Seq::empty()
        };
        (FollowView { stack: popped(st.stack), ..st }, failed.push(close) + other)
    }
}

/// The builder waits for another process.
pub open spec fn on_waiting(st: FollowView, target: Seq<char>) -> (FollowView, Seq<ActionView>) {
    let top = st.stack.last();
    (
        with_top(st, FrameView { interrupted: true, ..top }),
        seq![note(child_indent(top), target, "  (waiting on lock)"@)],
    )
}

/// What a complete line does.
pub open spec fn on_line_step(
    st: FollowView,
    own_session: int,
    keep: bool,
    line: Seq<u8>,
) -> (FollowView, Seq<ActionView>) {
    let fresh = FollowView { delay: POLL_DELAY_INITIAL_MS as int, ..st };
    match bytes_value(line) {
        None => on_user_line(fresh, line),
        Some(EventView::Do { target, .. }) => on_do(fresh, target),
        Some(EventView::Done { session, exit, target }) => on_done(
            fresh,
            own_session,
            keep,
            session,
            exit,
            target,
            line,
        ),
        Some(EventView::Waiting { target, .. }) => on_waiting(fresh, target),
    }
}

/// What opening a child's log does.
pub open spec fn on_opened_step(
    st: FollowView,
    target: Seq<char>,
    indent: int,
    ok: bool,
) -> (FollowView, Seq<ActionView>) {
    if ok {
        (
            FollowView {
                stack: st.stack.push(
                    FrameView { target, indent, interrupted: false, buf: Seq::empty() },
                ),
                ..st
            },
            Seq::empty(),
        )
    } else {
        (st, seq![note(indent, target, "  (log missing)"@)])
    }
}

/// What happens when no complete line is available: a target whose build lock
/// is free and which never wrote `done` has lost its builder; otherwise pause,
/// each time a little longer.
pub open spec fn on_pause_step(st: FollowView, probe: Probe) -> (FollowView, Seq<ActionView>) {
    let top = st.stack.last();
    if !is_run(top) && (probe is Missing || probe is Free) {
        let bare = with_top(st, FrameView { buf: Seq::empty(), ..top });
        let flushed = if top.buf.len() > 0 {
            on_user_line(bare, top.buf).1
        } else {
            Seq::empty()
        };
        (
            FollowView { stack: popped(st.stack), ..st },
            flushed + seq![
                note(top.indent, top.target, "  (crashed)"@),
                ActionView::Close { target: top.target, remove: false },
            ],
        )
    } else {
        (
            FollowView {
                delay: if st.delay + POLL_DELAY_STEP_MS <= POLL_DELAY_MAX_MS {
                    st.delay + POLL_DELAY_STEP_MS
                } else {
                    POLL_DELAY_MAX_MS as int
                },
                ..st
            },
            seq![ActionView::Sleep(st.delay)],
        )
    }
}

/// Whether a state can occur: the stack is bounded, a frame is indented no
/// deeper than it is nested, targets have names, and the pause is bounded.
pub open spec fn sound(st: FollowView) -> bool {
    &&& st.stack.len() <= DEPTH_MAX + 1
    &&& forall|i: int|
        0 <= i < st.stack.len() ==> 0 <= (#[trigger] st.stack[i]).indent <= i
            && st.stack[i].target.len() > 0
    &&& POLL_DELAY_INITIAL_MS <= st.delay <= POLL_DELAY_MAX_MS
}

/// The follower.
pub struct Follower {
    pub stack: Vec<Frame>,
    pub visited: Vec<String>,
    pub delay_ms: u64,
    pub session: i64,
    pub keep: bool,
}

impl View for Follower {
    type V = FollowView;

    open spec fn view(&self) -> FollowView {
        FollowView {
            stack: frames(self.stack@),
            visited: texts(self.visited@),
            delay: self.delay_ms as int,
        }
    }
}

fn note_action(indent: usize, target: &str, remark: &str) -> (a: Action)
    requires
        indent <= DEPTH_MAX + 1,
    ensures
        a@ == note(indent as int, target@, remark@),
{
    let mut pad = String::new();
    for i in 0..indent
        invariant
            indent <= DEPTH_MAX + 1,
            pad@ == blanks(i as int),
    {
        pad.push(' ');
        pad.push(' ');
        assert(pad@ =~= blanks(i + 1));
    }
    let body = cat3("redo  ", target, remark);
    Action::Note(cat(pad.as_str(), body.as_str()))
}

fn copy_bytes(v: &[u8]) -> (out: Vec<u8>)
    ensures
        out@ == v@,
{
    let out = bytes_part(v, 0, v.len());
    assert(out@ =~= v@);
    out
}

impl Follower {
    /// Well-formed: the state can occur.
    pub open spec fn wf(&self) -> bool {
        sound(self@)
    }

    /// A follower of a run, with the run trace open.
    pub fn new(session: i64, keep: bool) -> (f: Follower)
        ensures
            f.wf(),
            f.session == session,
            f.keep == keep,
            f@ == (FollowView {
                stack: seq![
                    FrameView {
                        target: RUN_TARGET@,
                        indent: 0,
                        interrupted: false,
                        buf: Seq::empty(),
                    },
                ],
                visited: Seq::empty(),
                delay: POLL_DELAY_INITIAL_MS as int,
            }),
    {
        let mut stack: Vec<Frame> = Vec::new();
        stack.push(
            Frame {
                target: RUN_TARGET.to_owned(),
                indent: 0,
                interrupted: false,
                reader: LineReader::new(),
            },
        );
        let f = Follower {
            stack,
            visited: Vec::new(),
            delay_ms: POLL_DELAY_INITIAL_MS,
            session,
            keep,
        };
        proof {
            reveal_strlit("-");
            assert(frames(f.stack@) =~= seq![
                FrameView {
                    target: RUN_TARGET@,
                    indent: 0,
                    interrupted: false,
                    buf: Seq::empty(),
                },
            ]);
            assert(texts(f.visited@) =~= Seq::<Seq<char>>::empty());
        }
        f
    }

    /// Whether the walk is over.
    pub fn is_done(&self) -> (r: bool)
        ensures
            r == (self@.stack.len() == 0),
    {
        self.stack.len() == 0
    }

    /// Replace the top frame's interruption flag.
    fn set_interrupted(&mut self, value: bool)
        requires
            old(self)@.stack.len() > 0,
        ensures
            final(self)@ == with_top(
                old(self)@,
                FrameView { interrupted: value, ..old(self)@.stack.last() },
            ),
            final(self).session == old(self).session,
            final(self).keep == old(self).keep,
    {
        let ghost before = self@;
        let n = self.stack.len();
        self.stack[n - 1].interrupted = value;
        assert(self@.stack =~= with_top(
            before,
            FrameView { interrupted: value, ..before.stack.last() },
        ).stack);
    }

    /// Print a line of user output.
    fn user_line(&mut self, line: &[u8], out: &mut Vec<Action>)
        requires
            old(self)@.stack.len() > 0,
            old(self).wf(),
        ensures
            final(self)@ == on_user_line(old(self)@, line@).0,
            actions(final(out)@) == actions(old(out)@) + on_user_line(old(self)@, line@).1,
            final(self).session == old(self).session,
            final(self).keep == old(self).keep,
    {
        let ghost st = self@;
        let ghost held = actions(out@);
        let n = self.stack.len();
        assert(st.stack.last() == self.stack@[n - 1]@);
        if self.stack[n - 1].interrupted {
            let run = same(self.stack[n - 1].target.as_str(), RUN_TARGET);
            if !run {
                let top = &self.stack[n - 1];
                assert(st.stack[n - 1].indent <= n - 1);
                let a = note_action(top.indent, top.target.as_str(), "  (resumed)");
                out.push(a);
                assert(actions(out@) =~= held.push(a@));
            }
            self.set_interrupted(false);
        }
        let l = Action::Line(copy_bytes(line));
        let ghost most = actions(out@);
        out.push(l);
        assert(actions(out@) =~= most.push(l@));
        assert(actions(out@) =~= held + on_user_line(st, line@).1);
    }

    /// Leave the top frame; the one below was interrupted.
    fn leave(&mut self)
        requires
            old(self)@.stack.len() > 0,
        ensures
            final(self)@ == (FollowView { stack: popped(old(self)@.stack), ..old(self)@ }),
            final(self).session == old(self).session,
            final(self).keep == old(self).keep,
    {
        let ghost st = self@;
        self.stack.pop();
        assert(frames(self.stack@) =~= st.stack.drop_last());
        if self.stack.len() > 0 {
            self.set_interrupted(true);
        }
        assert(self@ =~= FollowView { stack: popped(st.stack), ..st });
    }

    /// What a complete line of the log being read does: events move the walk,
    /// everything else is printed.
    pub fn on_line(&mut self, line: &[u8]) -> (out: Vec<Action>)
        requires
            old(self).wf(),
            old(self)@.stack.len() > 0,
        ensures
            final(self).wf(),
            final(self).session == old(self).session,
            final(self).keep == old(self).keep,
            (final(self)@, actions(out@)) == on_line_step(
                old(self)@,
                old(self).session as int,
                old(self).keep,
                line@,
            ),
    {
        let ghost start = self@;
        self.delay_ms = POLL_DELAY_INITIAL_MS;
        let ghost st = self@;
        assert(st =~= FollowView { delay: POLL_DELAY_INITIAL_MS as int, ..start });
        let mut out: Vec<Action> = Vec::new();
        assert(actions(out@) =~= Seq::<ActionView>::empty());
        let n = self.stack.len();
        assert(st.stack.last() == self.stack@[n - 1]@);
        assert(st.stack[n - 1].indent <= n - 1);
        let run = same(self.stack[n - 1].target.as_str(), RUN_TARGET);
        let own_indent = self.stack[n - 1].indent;
        let indent: usize = if run {
            0
        } else {
            own_indent + 1
        };
        proof {
            law_parsed_event_valid(line@);
        }
        match event_parse(line) {
            None => {
                self.user_line(line, &mut out);
                assert(actions(out@) =~= on_user_line(st, line@).1);
            },
            Some(Event::Do { session, target }) => {
                let head = note_action(indent, target.as_str(), "");
                proof {
                    reveal_strlit("");
                    assert(""@ =~= Seq::<char>::empty());
                }
                let ghost hv = head@;
                out.push(head);
                assert(actions(out@) =~= seq![hv]);
                self.set_interrupted(true);
                let folded = to_lower(target.as_str());
                if !lists(self.visited.as_slice(), folded.as_str()) {
                    let ghost before = texts(self.visited@);
                    self.visited.push(folded);
                    assert(texts(self.visited@) =~= before.push(lower(target@)));
                    let a = if n > DEPTH_MAX {
                        note_action(indent, target.as_str(), "  (too deep to trace)")
                    } else {
                        Action::Open { target, indent }
                    };
                    let ghost av = a@;
                    out.push(a);
                    assert(actions(out@) =~= seq![hv, av]);
                }
            },
            Some(Event::Done { session, exit, target }) => {
                if !same(target.as_str(), self.stack[n - 1].target.as_str()) {
                    self.user_line(line, &mut out);
                    assert(actions(out@) =~= on_user_line(st, line@).1);
                } else {
                    let ghost failed = if exit != 0 && !is_run(st.stack.last()) {
                        seq![
                            note(
                                own_indent as int,
                                target@,
                                "  (failed, exit "@ + decimal(exit as int) + ")"@,
                            ),
                        ]
                    } else {
                        Seq::empty()
                    };
                    if exit != 0 && !run {
                        let remark = cat3(
                            "  (failed, exit ",
                            int_text(exit as i64).as_str(),
                            ")",
                        );
                        out.push(note_action(own_indent, target.as_str(), remark.as_str()));
                    }
                    assert(actions(out@) =~= failed);
                    let ours = session == self.session && !run;
                    let remove = ours && !self.keep;
                    let close = Action::Close { target: target.clone(), remove };
                    let ghost cv = close@;
                    out.push(close);
                    assert(actions(out@) =~= failed.push(cv));
                    let foreign = session != self.session && !run;
                    if foreign {
                        let a = note_action(
                            own_indent,
                            target.as_str(),
                            "  (built by another redo run)",
                        );
                        let ghost av = a@;
                        out.push(a);
                        assert(actions(out@) =~= failed.push(cv) + seq![av]);
                    }
                    self.leave();
                    assert(actions(out@) =~= on_done(
                        st,
                        self.session as int,
                        self.keep,
                        session as int,
                        exit as int,
                        target@,
                        line@,
                    ).1);
                }
            },
            Some(Event::Waiting { session, target }) => {
                let a = note_action(indent, target.as_str(), "  (waiting on lock)");
                let ghost av = a@;
                out.push(a);
                assert(actions(out@) =~= seq![av]);
                self.set_interrupted(true);
            },
        }
        out
    }

    /// What opening the log of a target that was announced does.
    pub fn on_opened(&mut self, target: String, indent: usize, ok: bool) -> (out: Vec<Action>)
        requires
            old(self).wf(),
            old(self)@.stack.len() <= DEPTH_MAX,
            indent <= old(self)@.stack.len(),
            target@.len() > 0,
        ensures
            final(self).wf(),
            final(self).session == old(self).session,
            final(self).keep == old(self).keep,
            (final(self)@, actions(out@)) == on_opened_step(
                old(self)@,
                target@,
                indent as int,
                ok,
            ),
    {
        let ghost st = self@;
        let mut out: Vec<Action> = Vec::new();
        if ok {
            let f = Frame { target, indent, interrupted: false, reader: LineReader::new() };
            let ghost fv = f@;
            self.stack.push(f);
            assert(frames(self.stack@) =~= st.stack.push(fv));
            assert(actions(out@) =~= Seq::<ActionView>::empty());
        } else {
            let a = note_action(indent, target.as_str(), "  (log missing)");
            let ghost av = a@;
            out.push(a);
            assert(actions(out@) =~= seq![av]);
        }
        out
    }

    /// What happens when the log being read has no complete line to offer;
    /// `probe` tells what probing the build lock of its target found.
    pub fn on_pause(&mut self, probe: Probe) -> (out: Vec<Action>)
        requires
            old(self).wf(),
            old(self)@.stack.len() > 0,
        ensures
            final(self).wf(),
            final(self).session == old(self).session,
            final(self).keep == old(self).keep,
            (final(self)@, actions(out@)) == on_pause_step(old(self)@, probe),
    {
        let ghost st = self@;
        let mut out: Vec<Action> = Vec::new();
        assert(actions(out@) =~= Seq::<ActionView>::empty());
        let n = self.stack.len();
        assert(st.stack.last() == self.stack@[n - 1]@);
        assert(st.stack[n - 1].indent <= n - 1);
        if !same(self.stack[n - 1].target.as_str(), RUN_TARGET) && probe_unlocked(probe) {
            let target = self.stack[n - 1].target.clone();
            let indent = self.stack[n - 1].indent;
            let ghost top = st.stack.last();
            let ghost bare = with_top(st, FrameView { buf: Seq::empty(), ..top });
            let ghost flushed = if top.buf.len() > 0 {
                on_user_line(bare, top.buf).1
            } else {
                Seq::empty()
            };
            let partial = copy_bytes(self.stack[n - 1].reader.buf.as_slice());
            self.stack[n - 1].reader = LineReader::new();
            assert(frames(self.stack@) =~= bare.stack);
            assert(self.wf()) by {
                assert forall|i: int| 0 <= i < self@.stack.len() implies 0 <= (
                #[trigger] self@.stack[i]).indent <= i && self@.stack[i].target.len() > 0 by {
                    assert(st.stack[i].indent <= i);
                }
            }
            if partial.len() > 0 {
                self.user_line(partial.as_slice(), &mut out);
            }
            assert(actions(out@) =~= flushed);
            let a = note_action(indent, target.as_str(), "  (crashed)");
            let ghost av = a@;
            out.push(a);
            let close = Action::Close { target, remove: false };
            let ghost cv = close@;
            out.push(close);
            assert(actions(out@) =~= flushed + seq![av, cv]);
            self.leave();
            assert(self@.stack =~= popped(st.stack));
        } else {
            out.push(Action::Sleep(self.delay_ms));
            assert(actions(out@) =~= seq![ActionView::Sleep(st.delay)]);
            self.delay_ms = if self.delay_ms + POLL_DELAY_STEP_MS <= POLL_DELAY_MAX_MS {
                self.delay_ms + POLL_DELAY_STEP_MS
            } else {
                POLL_DELAY_MAX_MS
            };
        }
        out
    }

    /// The next complete line of the log being read.
    pub fn next_line(&mut self) -> (r: Option<Vec<u8>>)
        requires
            old(self).wf(),
            old(self)@.stack.len() > 0,
        ensures
            final(self).wf(),
            final(self).session == old(self).session,
            final(self).keep == old(self).keep,
            ({
                let top = old(self)@.stack.last();
                let step = line_step(top.buf);
                &&& final(self)@ == with_top(old(self)@, FrameView { buf: step.1, ..top })
                &&& match r {
                    Some(l) => step.0 == Some(l@),
                    None => step.0 is None,
                }
            }),
    {
        let ghost st = self@;
        let n = self.stack.len();
        assert(st.stack.last() == self.stack@[n - 1]@);
        let r = self.stack[n - 1].reader.next_line();
        let ghost top = FrameView { buf: line_step(st.stack.last().buf).1, ..st.stack.last() };
        assert(self@.stack =~= with_top(st, top).stack);
        assert forall|i: int| 0 <= i < self@.stack.len() implies 0 <= (
        #[trigger] self@.stack[i]).indent <= i && self@.stack[i].target.len() > 0 by {
            assert(st.stack[i].indent <= i);
        }
        r
    }

    /// Bytes were read from the log being read.
    pub fn feed(&mut self, chunk: &[u8])
        requires
            old(self).wf(),
            old(self)@.stack.len() > 0,
        ensures
            final(self).wf(),
            final(self).session == old(self).session,
            final(self).keep == old(self).keep,
            ({
                let top = old(self)@.stack.last();
                final(self)@ == with_top(old(self)@, FrameView { buf: top.buf + chunk@, ..top })
            }),
    {
        let ghost st = self@;
        let n = self.stack.len();
        assert(st.stack.last() == self.stack@[n - 1]@);
        self.stack[n - 1].reader.feed(chunk);
        let ghost top = FrameView { buf: st.stack.last().buf + chunk@, ..st.stack.last() };
        assert(self@.stack =~= with_top(st, top).stack);
        assert forall|i: int| 0 <= i < self@.stack.len() implies 0 <= (
        #[trigger] self@.stack[i]).indent <= i && self@.stack[i].target.len() > 0 by {
            assert(st.stack[i].indent <= i);
        }
    }
}

/// Whether a line closes the log being read: a `done` event for its target.
pub open spec fn closes_top(st: FollowView, line: Seq<u8>) -> bool {
    bytes_value(line) matches Some(EventView::Done { target, .. }) && target
        == st.stack.last().target
}

/// User output cannot steer the walk: a line takes a log off the stack exactly
/// if it is the `done` of the target being read, and never puts one on.
pub proof fn law_only_own_done_leaves(
    st: FollowView,
    session: int,
    keep: bool,
    line: Seq<u8>,
)
    requires
        sound(st),
        st.stack.len() > 0,
    ensures
        on_line_step(st, session, keep, line).0.stack.len() == if closes_top(st, line) {
            st.stack.len() - 1
        } else {
            st.stack.len() as int
        },
{
}

/// The `done` of the run trace ends the walk.
pub proof fn law_run_done_ends(st: FollowView, session: int, keep: bool, line: Seq<u8>)
    requires
        sound(st),
        st.stack.len() == 1,
        is_run(st.stack[0]),
        bytes_value(line) matches Some(EventView::Done { target, .. }) && target == RUN_TARGET@,
    ensures
        on_line_step(st, session, keep, line).0.stack.len() == 0,
{
}

/// A target's log is opened at most once: what was visited stays visited, and
/// the log of a visited target, in whatever case it is written, is not opened.
pub proof fn law_descend_once(
    st: FollowView,
    session: int,
    keep: bool,
    line: Seq<u8>,
    name: Seq<char>,
)
    requires
        sound(st),
        st.stack.len() > 0,
    ensures
        ({
            let step = on_line_step(st, session, keep, line);
            &&& st.visited.contains(name) ==> step.0.visited.contains(name)
            &&& forall|i: int|
                0 <= i < step.1.len() ==> ((#[trigger] step.1[i]) matches ActionView::Open {
                    target,
                    ..
                } ==> !st.visited.contains(lower(target)) && step.0.visited.contains(
                    lower(target),
                ) && i == step.1.len() - 1 && st.stack.len() <= DEPTH_MAX)
        }),
{
    let step = on_line_step(st, session, keep, line);
    if st.visited.contains(name) {
        let k = choose|k: int| 0 <= k < st.visited.len() && st.visited[k] == name;
        assert(step.0.visited[k] == name);
    }
    match bytes_value(line) {
        Some(EventView::Do { target, .. }) => {
            if !st.visited.contains(lower(target)) {
                assert(step.0.visited[st.visited.len() as int] == lower(target));
            }
        },
        _ => {},
    }
}

/// What a line is: up to the newline, without the carriage return before it if there is one. What
/// has no newline yet stays, unless it grows beyond the bound, when it counts as a line.
pub proof fn law_lines_end_at_newlines(line: Seq<u8>, rest: Seq<u8>)
    requires
        !line.contains(10),
    ensures
        line.len() == 0 || line.last() != 13 ==> line_step(line.push(10) + rest) == (
            Some(line),
            rest,
        ),
        line_step(line.push(13).push(10) + rest) == (Some(line), rest),
        line.len() < 65536 ==> line_step(line) == (None::<Seq<u8>>, line),
        line.len() >= 65536 ==> line_step(line) == (Some(line), Seq::<u8>::empty()),
        drained(line) == (Seq::<Seq<u8>>::empty(), line),
        line.len() == 0 || line.last() != 13 ==> drained(line.push(10)) == (
            seq![line],
            Seq::<u8>::empty(),
        ),
        drained(line.push(13).push(10)) == (seq![line], Seq::<u8>::empty()),
{
    let a = line.push(10) + rest;
    let b = line.push(13).push(10) + rest;
    let n = line.len() as int;
    assert forall|j: int| 0 <= j < n implies #[trigger] line[j] != 10 by {
        assert(line.contains(line[j]));
    }
    assert forall|j: int| 0 <= j < n implies #[trigger] a[j] != 10 by {
        assert(a[j] == line[j]);
    }
    assert forall|j: int| 0 <= j < n + 1 implies #[trigger] b[j] != 10 by {
        if j < n {
            assert(b[j] == line[j]);
        }
    }
    lemma_newline_is(a, 0, n);
    lemma_newline_is(b, 0, n + 1);
    assert(a.take(n) =~= line);
    assert(a.skip(n + 1) =~= rest);
    assert(b.take(n + 1) =~= line.push(13));
    assert(b.skip(n + 2) =~= rest);
    assert(line.push(13).drop_last() =~= line);
    lemma_newline_at(line, 0);
    if let Some(p) = newline_from(line, 0) {
        assert(line[p] != 10);
    }
    let none = Seq::<u8>::empty();
    let c = line.push(10);
    let d = line.push(13).push(10);
    assert forall|j: int| 0 <= j < n implies #[trigger] c[j] != 10 by {
        assert(c[j] == line[j]);
    }
    assert forall|j: int| 0 <= j < n + 1 implies #[trigger] d[j] != 10 by {
        if j < n {
            assert(d[j] == line[j]);
        }
    }
    lemma_newline_is(c, 0, n);
    lemma_newline_is(d, 0, n + 1);
    assert(c.take(n) =~= line && c.skip(n + 1) =~= none);
    assert(d.take(n + 1) =~= line.push(13) && d.skip(n + 2) =~= none);
    assert(newline_from(none, 0) is None);
    assert(drained(none) == (Seq::<Seq<u8>>::empty(), none));
    assert(seq![line] + Seq::<Seq<u8>>::empty() =~= seq![line]);
    if line.len() == 0 || line.last() != 13 {
        assert(fold_cr(line) == line);
        assert(drained(c) == (seq![line] + drained(none).0, drained(none).1));
    }
    assert(fold_cr(line.push(13)) == line);
    assert(drained(d) == (seq![line] + drained(none).0, drained(none).1));
}

/// What a do-file says is shown as it is, once, whatever else is shown before it; a note that the
/// target resumes comes before it if the output of another was shown in between. What the walk
/// knows of logs and targets stays.
pub proof fn law_user_output_is_shown(
    st: FollowView,
    session: int,
    keep: bool,
    line: Seq<u8>,
)
    requires
        st.stack.len() > 0,
        bytes_value(line) is None,
    ensures
        ({
            let (next, out) = on_line_step(st, session, keep, line);
            let top = st.stack.last();
            &&& out.len() > 0 && out.last() == ActionView::Line(line)
            &&& out.len() == if top.interrupted && top.target != RUN_TARGET@ {
                2int
            } else {
                1
            }
            &&& out.len() == 2 ==> out[0] is Note
            &&& next.visited == st.visited
            &&& next.stack.len() == st.stack.len()
            &&& !next.stack.last().interrupted
            &&& next.stack.last().target == top.target && next.stack.last().buf == top.buf
            &&& forall|i: int|
                0 <= i < st.stack.len() - 1 ==> #[trigger] next.stack[i] == st.stack[i]
        }),
{
}

/// A log is left with its `done`: it is closed, and deleted exactly if this run wrote it and the
/// logs are not to be kept; the log of the run itself never is. A failure and the work of another
/// run are noted, and the log below goes on.
pub proof fn law_done_closes_the_log(
    st: FollowView,
    own: int,
    keep: bool,
    line: Seq<u8>,
    session: int,
    exit: int,
)
    requires
        st.stack.len() > 0,
        bytes_value(line) == Some(
            EventView::Done { session, exit, target: st.stack.last().target },
        ),
    ensures
        ({
            let (next, out) = on_line_step(st, own, keep, line);
            let top = st.stack.last();
            let run = top.target == RUN_TARGET@;
            &&& out.contains(
                ActionView::Close {
                    target: top.target,
                    remove: session == own && !keep && !run,
                },
            )
            &&& forall|i: int|
                0 <= i < out.len() && #[trigger] out[i] is Close ==> out[i] == (ActionView::Close {
                    target: top.target,
                    remove: session == own && !keep && !run,
                })
            &&& !run && exit != 0 ==> out[0] is Note
            &&& !run && session != own ==> out.last() is Note
            &&& out.len() == 1int + (if !run && exit != 0 {
                1int
            } else {
                0
            }) + (if !run && session != own {
                1int
            } else {
                0
            })
            &&& next.stack.len() == st.stack.len() - 1
            &&& next.stack.len() > 0 ==> next.stack.last().interrupted && next.stack.last().target
                == st.stack[st.stack.len() - 2].target
            &&& next.visited == st.visited
        }),
{
    let (next, out) = on_line_step(st, own, keep, line);
    let top = st.stack.last();
    let run = top.target == RUN_TARGET@;
    let k = if !run && exit != 0 {
        1int
    } else {
        0
    };
    assert(out[k] == (ActionView::Close {
        target: top.target,
        remove: session == own && !keep && !run,
    }));
}

/// A build that starts is announced, and its log is read next if it was not read before and does
/// not lie too deep; it is indented one step more than what started it, and what the run started
/// is not indented.
pub proof fn law_starts_are_followed(
    st: FollowView,
    own: int,
    keep: bool,
    line: Seq<u8>,
    session: int,
    target: Seq<char>,
)
    requires
        st.stack.len() > 0,
        bytes_value(line) == Some(EventView::Do { session, target }),
    ensures
        ({
            let (next, out) = on_line_step(st, own, keep, line);
            let top = st.stack.last();
            let indent = if top.target == RUN_TARGET@ {
                0
            } else {
                top.indent + 1
            };
            &&& out.len() > 0 && out[0] is Note
            &&& out.contains(ActionView::Open { target, indent }) <==> !st.visited.contains(
                lower(target),
            ) && st.stack.len() <= 64
            &&& next.visited.contains(lower(target))
            &&& next.stack.len() == st.stack.len() && next.stack.last().interrupted
        }),
{
    let (next, out) = on_line_step(st, own, keep, line);
    let top = st.stack.last();
    let indent = child_indent(top);
    if !st.visited.contains(lower(target)) {
        assert(next.visited[st.visited.len() as int] == lower(target));
        if st.stack.len() <= 64 {
            assert(out[1] == (ActionView::Open { target, indent }));
        }
    }
}

/// When there is nothing to read: a target whose lock nobody holds has lost its builder; what it
/// left behind is shown, the log is closed but kept, and the walk goes on below. Otherwise the
/// walk waits, a little longer each time, up to a bound; for the run itself always.
pub proof fn law_lost_builders_are_noticed(st: FollowView, probe: Probe)
    requires
        st.stack.len() > 0,
    ensures
        ({
            let (next, out) = on_pause_step(st, probe);
            let top = st.stack.last();
            let lost = top.target != RUN_TARGET@ && (probe is Missing || probe is Free);
            &&& lost ==> next.stack.len() == st.stack.len() - 1 && out.last() == (
            ActionView::Close { target: top.target, remove: false })
            &&& lost && top.buf.len() > 0 ==> out.contains(ActionView::Line(top.buf))
            &&& !lost ==> out == seq![ActionView::Sleep(st.delay)] && next.stack == st.stack
            &&& !lost && st.delay <= 190 ==> next.delay == st.delay + 10
            &&& !lost && st.delay > 190 ==> next.delay == 200
            &&& next.visited == st.visited
        }),
{
    let (next, out) = on_pause_step(st, probe);
    let top = st.stack.last();
    let bare = with_top(st, FrameView { buf: Seq::empty(), ..top });
    if top.target != RUN_TARGET@ && (probe is Missing || probe is Free) && top.buf.len() > 0 {
        let shown = on_user_line(bare, top.buf).1;
        assert(shown.last() == ActionView::Line(top.buf));
        assert(out[shown.len() - 1] == ActionView::Line(top.buf));
    }
}

/// A log that could be opened is read next; one that could not is noted.
pub proof fn law_opened_logs_are_read(
    st: FollowView,
    target: Seq<char>,
    indent: int,
)
    ensures
        on_opened_step(st, target, indent, true).0.stack.len() == st.stack.len() + 1,
        on_opened_step(st, target, indent, true).0.stack.last().target == target,
        on_opened_step(st, target, indent, true).0.stack.last().indent == indent,
        on_opened_step(st, target, indent, true).0.stack.last().buf.len() == 0,
        on_opened_step(st, target, indent, true).0.stack.drop_last() == st.stack,
        on_opened_step(st, target, indent, true).1.len() == 0,
        on_opened_step(st, target, indent, false).0 == st,
        on_opened_step(st, target, indent, false).1.len() == 1,
        on_opened_step(st, target, indent, false).1[0] is Note,
{
    assert(on_opened_step(st, target, indent, true).0.stack.drop_last() =~= st.stack);
}

}
