//! Build logs and the trace events embedded in them.
//!
//! Every target's do-file streams its output into a per-target log; the
//! recursion trace is embedded in the same files as structured event lines,
//! which the follower ([`crate::follow`]) walks depth-first.
//!
//! A `done` event is appended to the target's own log before the build lock is
//! released, so a log that ends without one, beside a free lock, can mean only
//! that the builder died. Events are advisory display data. Log paths are
//! derived by *hashing* the target name, so a line of user output that looks
//! like an event can at worst print garbage: it can never lead to a path
//! outside the logs directory.

use crate::lock::{key_text, probe_unlocked, target_key, Probe};
use crate::num::{
    decimal, digits, int_text, is_digit, law_decimal_roundtrip, lemma_digits_number,
    lemma_signed_range, parse_i32, parse_i64, signed_value,
};
use crate::paths::{Comp, FsPath};
use crate::root::{redo_dir_of, Root};
use crate::text::{
    cat, cat3, cut_once, ends, has_prefix, lemma_cut_once, occurs, same, split_once, starts,
    strip_prefix, strip_suffix,
};
use vstd::prelude::*;
use vstd::utf8::{decode_utf8, encode_utf8, valid_utf8};

verus! {

/// The variable that tells a do-file where its log is.
pub const ENV_LOG_PATH: &'static str = "REDO_LOG_PATH";

/// Set to `1` to keep all log files instead of deleting them as consumed.
pub const ENV_KEEP_LOGS: &'static str = "REDO_KEEP_LOGS";

/// The follower's frame for the top-level run trace, which is not a target.
pub const RUN_TARGET: &'static str = "-";

/// Bound on an event line; small appends stay atomic in practice.
pub const EVENT_LINE_BYTES_MAX: usize = 4096;

/// Bound on the follower's line buffer; longer runs without a newline are
/// flushed in chunks.
pub const LINE_BYTES_MAX: usize = 65536;

/// Build recursion bound, enforced by the builder (chain length) and by the
/// follower (stack depth).
pub const DEPTH_MAX: usize = 64;

/// How an event line starts.
pub const EVENT_SENTINEL: &'static str = "@REDOM1:";

/// Whether the value of [`ENV_KEEP_LOGS`] asks to keep the logs.
pub fn keep_logs(value: Option<&str>) -> (r: bool)
    ensures
        r == (value is Some && value->0@ == "1"@),
{
    match value {
        Some(v) => same(v, "1"),
        None => false,
    }
}

/// The directory of log files of a root.
pub open spec fn logs_dir_of(root: Seq<Comp>) -> Seq<Comp> {
    redo_dir_of(root).push(Comp::Normal("logs"@))
}

/// The directory of log files.
pub fn logs_dir(root: &Root) -> (p: FsPath)
    ensures
        p@ == logs_dir_of(root@),
{
    root.redo_dir().child("logs")
}

/// The name of a file that belongs to a run.
pub open spec fn run_name(session: int, ending: Seq<char>) -> Seq<char> {
    "run."@ + decimal(session) + ending
}

/// The trace of a run.
pub fn run_log_path(root: &Root, session: i64) -> (p: FsPath)
    ensures
        p@ == logs_dir_of(root@).push(Comp::Normal(run_name(session as int, ".log"@))),
{
    logs_dir(root).child(cat3("run.", int_text(session).as_str(), ".log").as_str())
}

/// The liveness sentinel of a run, a file that nobody reads or writes: the
/// top-level process holds its lock for its whole lifetime. It is never the run
/// log itself, since a lock can be mandatory.
pub fn run_lock_path(root: &Root, session: i64) -> (p: FsPath)
    ensures
        p@ == logs_dir_of(root@).push(Comp::Normal(run_name(session as int, ".lock"@))),
{
    logs_dir(root).child(cat3("run.", int_text(session).as_str(), ".lock").as_str())
}

/// The log of a target. Its name is derived from the key of the target's lock.
pub fn target_log_path(root: &Root, target_rel: &str) -> (p: FsPath)
    requires
        target_rel@.len() > 0,
    ensures
        p@ == logs_dir_of(root@).push(Comp::Normal("t."@ + key_text(target_rel@) + ".log"@)),
{
    logs_dir(root).child(cat3("t.", target_key(target_rel).as_str(), ".log").as_str())
}

/// The lock of a run is never its log.
pub proof fn law_run_lock_is_not_the_log(session: int)
    ensures
        run_name(session, ".log"@) != run_name(session, ".lock"@),
{
    reveal_strlit(".log");
    reveal_strlit(".lock");
    assert(run_name(session, ".log"@).len() != run_name(session, ".lock"@).len());
}

/// One line of structured trace embedded in a log stream.
#[derive(Debug, Clone, PartialEq, Eq)]
pub enum Event {
    /// Child build started: appended to the parent's log, after the child's log
    /// exists. The follower descends on this.
    Do { session: i64, target: String },
    /// Build finished: appended to the target's own log, before the build lock
    /// is released. The follower pops on this.
    Done { session: i64, exit: i32, target: String },
    /// The builder is blocked on another process's build lock for `target`.
    Waiting { session: i64, target: String },
}

/// An event, as a mathematical value.
pub enum EventView {
    Do { session: int, target: Seq<char> },
    Done { session: int, exit: int, target: Seq<char> },
    Waiting { session: int, target: Seq<char> },
}

impl View for Event {
    type V = EventView;

    open spec fn view(&self) -> EventView {
        match self {
            Event::Do { session, target } => EventView::Do {
                session: *session as int,
                target: target@,
            },
            Event::Done { session, exit, target } => EventView::Done {
                session: *session as int,
                exit: *exit as int,
                target: target@,
            },
            Event::Waiting { session, target } => EventView::Waiting {
                session: *session as int,
                target: target@,
            },
        }
    }
}

impl EventView {
    /// The session an event belongs to.
    pub open spec fn session(self) -> int {
        match self {
            EventView::Do { session, .. } => session,
            EventView::Done { session, .. } => session,
            EventView::Waiting { session, .. } => session,
        }
    }

    /// The target an event is about.
    pub open spec fn target(self) -> Seq<char> {
        match self {
            EventView::Do { target, .. } => target,
            EventView::Done { target, .. } => target,
            EventView::Waiting { target, .. } => target,
        }
    }

    /// The word for the kind of an event.
    pub open spec fn word(self) -> Seq<char> {
        match self {
            EventView::Do { .. } => "do"@,
            EventView::Done { .. } => "done"@,
            EventView::Waiting { .. } => "waiting"@,
        }
    }

    /// What follows the head of an event line.
    pub open spec fn payload(self) -> Seq<char> {
        match self {
            EventView::Done { exit, target, .. } => decimal(exit) + " "@ + target,
            _ => self.target(),
        }
    }

    /// The event line, without its newline.
    pub open spec fn line(self) -> Seq<char> {
        EVENT_SENTINEL@ + (self.word() + ":"@ + decimal(self.session()) + "@ "@ + self.payload())
    }

    /// Whether the event can be written: it has a session and a target.
    pub open spec fn valid(self) -> bool {
        &&& 0 <= self.session() <= i64::MAX
        &&& self.target().len() > 0
        &&& self matches EventView::Done { exit, .. } ==> i32::MIN <= exit <= i32::MAX
    }
}

/// The event that the head and the payload of a line make.
pub open spec fn event_value(kind: Seq<char>, session: int, payload: Seq<char>) -> Option<
    EventView,
> {
    if session < 0 || payload.len() == 0 {
        None
    } else if kind == "do"@ {
        Some(EventView::Do { session, target: payload })
    } else if kind == "waiting"@ {
        Some(EventView::Waiting { session, target: payload })
    } else if kind == "done"@ {
        match cut_once(payload, " "@) {
            Some((exit, target)) => match signed_value(exit, i32::MAX as int) {
                Some(n) => if target.len() == 0 {
                    None
                } else {
                    Some(EventView::Done { session, exit: n, target })
                },
                None => None,
            },
            None => None,
        }
    } else {
        None
    }
}

/// The event that a line of text is, if it is one. Any deviation means that it
/// is user output.
pub open spec fn line_value(s: Seq<char>) -> Option<EventView> {
    if !starts(s, EVENT_SENTINEL@) {
        None
    } else {
        match cut_once(s.skip(EVENT_SENTINEL@.len() as int), "@ "@) {
            Some((head, payload)) => match cut_once(head, ":"@) {
                Some((kind, session)) => match signed_value(session, i64::MAX as int) {
                    Some(n) => event_value(kind, n, payload),
                    None => None,
                },
                None => None,
            },
            None => None,
        }
    }
}

/// The event that the bytes of a line are, if they are one.
pub open spec fn bytes_value(line: Seq<u8>) -> Option<EventView> {
    if line.len() <= EVENT_LINE_BYTES_MAX && valid_utf8(line) {
        line_value(decode_utf8(line))
    } else {
        None
    }
}

/// Calls `std::str::from_utf8`. It succeeds exactly on valid UTF-8, and the
/// text then has the given bytes.
#[verifier::external_body]
fn utf8_text(bytes: &[u8]) -> (r: Option<String>)
    ensures
        r is Some <==> valid_utf8(bytes@),
        r matches Some(s) ==> encode_utf8(s@) == bytes@,
{
    match std::str::from_utf8(bytes) {
        Ok(s) => Some(s.to_owned()),
        Err(_) => None,
    }
}

impl Event {
    /// The event line, with its newline.
    pub fn encode(&self) -> (s: String)
        requires
            !occurs(self@.target(), '\n'),
            encode_utf8(self@.line().push('\n')).len() <= EVENT_LINE_BYTES_MAX,
        ensures
            s@ == self@.line().push('\n'),
    {
        let (word, session, payload) = match self {
            Event::Do { session, target } => ("do", *session, target.clone()),
            Event::Done { session, exit, target } => (
                "done",
                *session,
                cat3(int_text(*exit as i64).as_str(), " ", target.as_str()),
            ),
            Event::Waiting { session, target } => ("waiting", *session, target.clone()),
        };
        let head = cat3(word, ":", int_text(session).as_str());
        let body = cat3(head.as_str(), "@ ", payload.as_str());
        let line = cat3(EVENT_SENTINEL, body.as_str(), "\n");
        proof {
            reveal_strlit("\n");
            assert("\n"@ =~= seq!['\n']);
            assert(line@ =~= self@.line().push('\n'));
        }
        line
    }

    /// The target an event is about.
    pub fn target(&self) -> (s: String)
        ensures
            s@ == self@.target(),
    {
        match self {
            Event::Do { target, .. } => target.clone(),
            Event::Done { target, .. } => target.clone(),
            Event::Waiting { target, .. } => target.clone(),
        }
    }
}

/// The view of an optional event.
pub open spec fn event_view(e: Option<Event>) -> Option<EventView> {
    match e {
        Some(e) => Some(e@),
        None => None,
    }
}

/// Parse one log line, without its newline, as an event. Any deviation (wrong
/// sentinel, unknown kind, fields that are no numbers, an oversized line) means
/// "not an event".
pub fn event_parse(line: &[u8]) -> (r: Option<Event>)
    ensures
        event_view(r) == bytes_value(line@),
{
    if line.len() > EVENT_LINE_BYTES_MAX {
        return None;
    }
    let s = match utf8_text(line) {
        Some(s) => s,
        None => return None,
    };
    proof {
        vstd::utf8::encode_utf8_decode_utf8(s@);
    }
    let rest = match strip_prefix(s.as_str(), EVENT_SENTINEL) {
        Some(rest) => rest,
        None => return None,
    };
    let (head, payload) = match split_once(rest.as_str(), "@ ") {
        Some(cut) => cut,
        None => return None,
    };
    let (kind, number) = match split_once(head.as_str(), ":") {
        Some(cut) => cut,
        None => return None,
    };
    let session: i64 = match parse_i64(number.as_str()) {
        Some(n) => n,
        None => return None,
    };
    if session < 0 || payload.as_str().unicode_len() == 0 {
        return None;
    }
    if same(kind.as_str(), "do") {
        return Some(Event::Do { session, target: payload });
    }
    if same(kind.as_str(), "waiting") {
        return Some(Event::Waiting { session, target: payload });
    }
    if !same(kind.as_str(), "done") {
        return None;
    }
    let (code, target) = match split_once(payload.as_str(), " ") {
        Some(cut) => cut,
        None => return None,
    };
    let exit: i32 = match parse_i32(code.as_str()) {
        Some(n) => n,
        None => return None,
    };
    if target.as_str().unicode_len() == 0 {
        return None;
    }
    Some(Event::Done { session, exit, target })
}

/// A number in decimal holds digits and at most a minus sign.
proof fn lemma_decimal_free(n: int, c: char)
    requires
        !is_digit(c),
        c != '-',
    ensures
        !occurs(decimal(n), c),
{
    let d = if n < 0 {
        digits((-n) as nat)
    } else {
        digits(n as nat)
    };
    if n < 0 {
        lemma_digits_number((-n) as nat);
    } else {
        lemma_digits_number(n as nat);
    }
    if occurs(decimal(n), c) {
        let k = choose|k: int| 0 <= k < decimal(n).len() && decimal(n)[k] == c;
        if n < 0 {
            assert(k > 0);
            assert(is_digit(d[k - 1]));
        } else {
            assert(is_digit(d[k]));
        }
    }
}

/// The words for the kinds of events, character by character.
proof fn lemma_words()
    ensures
        "do"@ == seq!['d', 'o'],
        "done"@ == seq!['d', 'o', 'n', 'e'],
        "waiting"@ == seq!['w', 'a', 'i', 't', 'i', 'n', 'g'],
        ":"@ == seq![':'],
        " "@ == seq![' '],
        "@ "@ == seq!['@', ' '],
{
    reveal_strlit("do");
    reveal_strlit("done");
    reveal_strlit("waiting");
    reveal_strlit(":");
    reveal_strlit(" ");
    reveal_strlit("@ ");
    assert("do"@ =~= seq!['d', 'o']);
    assert("done"@ =~= seq!['d', 'o', 'n', 'e']);
    assert("waiting"@ =~= seq!['w', 'a', 'i', 't', 'i', 'n', 'g']);
    assert(":"@ =~= seq![':']);
    assert(" "@ =~= seq![' ']);
    assert("@ "@ =~= seq!['@', ' ']);
}

/// Reading back the line of an event gives the event.
pub proof fn law_event_line_roundtrip(e: EventView)
    requires
        e.valid(),
    ensures
        line_value(e.line()) == Some(e),
{
    lemma_words();
    let word = e.word();
    let session = decimal(e.session());
    let head = word + ":"@ + session;
    let payload = e.payload();
    let rest = head + "@ "@ + payload;
    let s = e.line();
    assert(s.take(EVENT_SENTINEL@.len() as int) =~= EVENT_SENTINEL@);
    assert(s.skip(EVENT_SENTINEL@.len() as int) =~= rest);
    lemma_decimal_free(e.session(), '@');
    assert(!occurs(head, '@')) by {
        if occurs(head, '@') {
            let k = choose|k: int| 0 <= k < head.len() && head[k] == '@';
            if k > word.len() {
                assert(session[k - word.len() - 1] == '@');
            }
        }
    }
    lemma_cut_once(head, "@ "@, payload);
    assert(!occurs(word, ':'));
    lemma_cut_once(word, ":"@, session);
    law_decimal_roundtrip(e.session(), i64::MAX as int);
    assert("do"@.len() == 2 && "done"@.len() == 4 && "waiting"@.len() == 7);
    match e {
        EventView::Done { exit, target, .. } => {
            lemma_decimal_free(exit, ' ');
            lemma_cut_once(decimal(exit), " "@, target);
            law_decimal_roundtrip(exit, i32::MAX as int);
        },
        _ => {},
    }
}

/// An event survives the log: parsing the bytes of its encoded line, without
/// the newline, gives the event back.
pub proof fn law_event_roundtrip(e: EventView)
    requires
        e.valid(),
        encode_utf8(e.line()).len() <= EVENT_LINE_BYTES_MAX,
    ensures
        bytes_value(encode_utf8(e.line())) == Some(e),
{
    vstd::utf8::encode_utf8_valid_utf8(e.line());
    vstd::utf8::encode_utf8_decode_utf8(e.line());
    law_event_line_roundtrip(e);
}

/// Whatever parses as an event has a session and a target.
pub proof fn law_parsed_event_valid(line: Seq<u8>)
    ensures
        bytes_value(line) matches Some(e) ==> e.valid(),
{
    if bytes_value(line) is Some {
        let rest = decode_utf8(line).skip(EVENT_SENTINEL@.len() as int);
        let (head, payload) = cut_once(rest, "@ "@)->0;
        let (kind, session) = cut_once(head, ":"@)->0;
        lemma_signed_range(session, i64::MAX as int);
        if cut_once(payload, " "@) is Some {
            let (exit, target) = cut_once(payload, " "@)->0;
            lemma_signed_range(exit, i32::MAX as int);
        }
    }
}

/// The name under which a log is created before it is renamed into place, so
/// that a reader always sees a complete instance.
pub fn log_temp_name(log_name: &str, pid: u32) -> (s: String)
    ensures
        s@ == log_name@ + "."@ + digits(pid as nat) + ".tmp"@,
{
    let head = cat3(log_name, ".", crate::num::nat_text(pid as u128).as_str());
    cat(head.as_str(), ".tmp")
}

/// Guarantees the `done` terminator on every exit path of a build.
///
/// Created after the target's log exists and its `do` event is appended. On the
/// one fully successful path [`DoneGuard::commit_success`] gives the event to
/// append; on every other path [`DoneGuard::terminator`] does, with the
/// recorded exit code, or 1 if the do-file itself succeeded but the build did
/// not commit.
pub struct DoneGuard {
    pub log_path: FsPath,
    pub session: i64,
    pub target: String,
    pub exit: i32,
    pub committed: bool,
}

impl DoneGuard {
    /// The `done` event of this build with the given exit code.
    pub open spec fn done(&self, exit: int) -> EventView {
        EventView::Done { session: self.session as int, exit, target: self.target@ }
    }

    /// A guard for a build whose exit code is not known yet: if it never is, the
    /// build errored before or while running the do-file.
    pub fn new(log_path: FsPath, session: i64, target: String) -> (g: DoneGuard)
        ensures
            g.log_path == log_path,
            g.session == session,
            g.target == target,
            g.exit == 1,
            !g.committed,
    {
        DoneGuard { log_path, session, target, exit: 1, committed: false }
    }

    /// Record the exit code of the do-file.
    pub fn record_exit(&mut self, exit: i32)
        ensures
            *final(self) == (DoneGuard { exit, ..*old(self) }),
    {
        self.exit = exit;
    }

    /// The build committed: the event to append to the log.
    pub fn commit_success(&mut self) -> (e: Event)
        requires
            old(self).exit == 0,
            !old(self).committed,
        ensures
            *final(self) == (DoneGuard { committed: true, ..*old(self) }),
            e@ == old(self).done(0),
    {
        self.committed = true;
        Event::Done { session: self.session, exit: 0, target: self.target.clone() }
    }

    /// The event still to be appended when the guard goes out of scope.
    pub fn terminator(&self) -> (r: Option<Event>)
        ensures
            event_view(r) == if self.committed {
                None
            } else {
                Some(
                    self.done(
                        if self.exit == 0 {
                            1
                        } else {
                            self.exit as int
                        },
                    ),
                )
            },
    {
        if self.committed {
            None
        } else {
            let exit: i32 = if self.exit == 0 {
                1
            } else {
                self.exit
            };
            Some(Event::Done { session: self.session, exit, target: self.target.clone() })
        }
    }
}

/// What the startup sweep does about a name in the logs directory.
#[derive(Debug, Clone, PartialEq, Eq)]
pub enum GcStep {
    /// Not ours to judge, or our own run's.
    Keep,
    /// Left by a crash between creating and renaming.
    Remove,
    /// Stale if nobody holds the lock of the named sentinel in the logs
    /// directory.
    ProbeRun(String),
    /// Stale if nobody holds the build lock of this key.
    ProbeKey(String),
}

/// What follows the prefix and precedes the suffix.
pub open spec fn between(s: Seq<char>, p: Seq<char>, q: Seq<char>) -> Option<Seq<char>> {
    if starts(s, p) && ends(s.skip(p.len() as int), q) {
        let rest = s.skip(p.len() as int);
        Some(rest.take(rest.len() - q.len()))
    } else {
        None
    }
}

/// The session that a run file's name speaks of.
pub open spec fn run_of(name: Seq<char>) -> Option<Seq<char>> {
    match between(name, "run."@, ".log"@) {
        Some(r) => Some(r),
        None => between(name, "run."@, ".lock"@),
    }
}

/// How the names of a run's own files start.
pub open spec fn own_prefix(session: int) -> Seq<char> {
    "run."@ + decimal(session) + "."@
}

/// What the startup sweep does about a name.
pub open spec fn gc_step_of(name: Seq<char>, session: int, step: GcStep) -> bool {
    if starts(name, own_prefix(session)) {
        step is Keep
    } else if ends(name, ".tmp"@) {
        step is Remove
    } else if run_of(name) is Some {
        step matches GcStep::ProbeRun(f) && f@ == "run."@ + run_of(name)->0 + ".lock"@
    } else if between(name, "t."@, ".log"@) is Some {
        step matches GcStep::ProbeKey(k) && k@ == between(name, "t."@, ".log"@)->0
    } else {
        step is Keep
    }
}

/// Whether a file is swept, given what probing its lock found.
pub open spec fn swept(name: Seq<char>, session: int, probe: Probe) -> bool {
    !starts(name, own_prefix(session)) && (ends(name, ".tmp"@) || ((run_of(name) is Some
        || between(name, "t."@, ".log"@) is Some) && (probe is Missing || probe is Free)))
}

fn text_between(s: &str, p: &str, q: &str) -> (r: Option<String>)
    ensures
        match r {
            Some(t) => between(s@, p@, q@) == Some(t@),
            None => between(s@, p@, q@) is None,
        },
{
    match strip_prefix(s, p) {
        None => None,
        Some(rest) => strip_suffix(rest.as_str(), q),
    }
}

/// What the startup sweep does about a name in the logs directory. Liveness is
/// decided by lock probes, never by age.
pub fn gc_step(name: &str, current_session: i64) -> (step: GcStep)
    ensures
        gc_step_of(name@, current_session as int, step),
{
    let own = cat3("run.", int_text(current_session).as_str(), ".");
    if has_prefix(name, own.as_str()) {
        return GcStep::Keep;
    }
    if strip_suffix(name, ".tmp").is_some() {
        return GcStep::Remove;
    }
    let run = match text_between(name, "run.", ".log") {
        Some(r) => Some(r),
        None => text_between(name, "run.", ".lock"),
    };
    if let Some(r) = run {
        return GcStep::ProbeRun(cat3("run.", r.as_str(), ".lock"));
    }
    match text_between(name, "t.", ".log") {
        Some(key) => GcStep::ProbeKey(key),
        None => GcStep::Keep,
    }
}

/// Whether a file is deleted, given what probing its lock found.
pub fn gc_stale(step: &GcStep, probe: Probe) -> (r: bool)
    ensures
        forall|name: Seq<char>, session: int| #[trigger]
            gc_step_of(name, session, *step) ==> r == swept(name, session, probe),
{
    match step {
        GcStep::Keep => false,
        GcStep::Remove => true,
        GcStep::ProbeRun(_) => probe_unlocked(probe),
        GcStep::ProbeKey(_) => probe_unlocked(probe),
    }
}

/// Sweep the log files left behind by crashed or killed runs: which of `names`
/// to delete. `probes` tells of each name what probing the lock that
/// [`gc_step`] names for it found.
pub fn gc_logs(names: &[String], probes: &[Probe], current_session: i64, keep: bool) -> (out: Vec<
    usize,
>)
    requires
        names.len() == probes.len(),
    ensures
        forall|k: int| 0 <= k < out.len() ==> (#[trigger] out@[k]) < names.len(),
        forall|k: int, l: int| 0 <= k < l < out.len() ==> #[trigger] out@[k] < #[trigger] out@[l],
        forall|i: int|
            0 <= i < names.len() ==> (out@.contains(i as usize) <==> !keep && swept(
                (#[trigger] names@[i])@,
                current_session as int,
                probes@[i],
            )),
{
    let mut out: Vec<usize> = Vec::new();
    if keep {
        return out;
    }
    for i in 0..names.len()
        invariant
            !keep,
            names.len() == probes.len(),
            forall|k: int| 0 <= k < out.len() ==> (#[trigger] out@[k]) < i,
            forall|k: int, l: int|
                0 <= k < l < out.len() ==> #[trigger] out@[k] < #[trigger] out@[l],
            forall|j: int|
                0 <= j < i ==> (out@.contains(j as usize) <==> swept(
                    (#[trigger] names@[j])@,
                    current_session as int,
                    probes@[j],
                )),
    {
        let ghost before = out@;
        let step = gc_step(names[i].as_str(), current_session);
        let stale = gc_stale(&step, probes[i]);
        assert(gc_step_of(names@[i as int]@, current_session as int, step));
        if stale {
            out.push(i);
            assert(out@[before.len() as int] == i);
        }
        assert forall|j: int| 0 <= j < i + 1 implies (out@.contains(j as usize) <==> swept(
            (#[trigger] names@[j])@,
            current_session as int,
            probes@[j],
        )) by {
            if before.contains(j as usize) {
                let k = choose|k: int| 0 <= k < before.len() && before[k] == j as usize;
                assert(out@[k] == j as usize);
            }
            if out@.contains(j as usize) {
                let k = choose|k: int| 0 <= k < out.len() && out@[k] == j as usize;
                if k < before.len() {
                    assert(before[k] == j as usize);
                }
            }
        }
    }
    out
}

/// The sweep never deletes a file of the run that sweeps, nor one that is
/// neither a temporary, a run file nor a target log.
pub proof fn law_gc_spares(name: Seq<char>, session: int, probe: Probe, ending: Seq<char>)
    ensures
        !swept(own_prefix(session) + ending, session, probe),
        !ends(name, ".tmp"@) && run_of(name) is None && between(name, "t."@, ".log"@) is None
            ==> !swept(name, session, probe),
        probe is Held && !ends(name, ".tmp"@) ==> !swept(name, session, probe),
{
    let own = own_prefix(session);
    assert((own + ending).take(own.len() as int) =~= own);
}

/// What the sweep does about the files of runs and targets: those of another run, be it the log
/// or the lock, are judged by the lock of that run, and the log of a target by the target's lock;
/// they go if nobody holds it, and stay if somebody does.
pub proof fn law_sweep_asks_the_owner(r: Seq<char>, key: Seq<char>, session: int, step: GcStep)
    ensures
        ({
            let log = "run."@ + r + ".log"@;
            let lock = "run."@ + r + ".lock"@;
            let own = own_prefix(session);
            &&& !starts(log, own) && gc_step_of(log, session, step) ==> (step matches GcStep::ProbeRun(
                f,
            ) && f@ == lock)
            &&& !starts(lock, own) && gc_step_of(lock, session, step) ==> (
            step matches GcStep::ProbeRun(f) && f@ == lock)
            &&& gc_step_of("t."@ + key + ".log"@, session, step) ==> (
            step matches GcStep::ProbeKey(k) && k@ == key)
            &&& starts(log, own) && gc_step_of(log, session, step) ==> step is Keep
        }),
        ({
            let log = "run."@ + r + ".log"@;
            let lock = "run."@ + r + ".lock"@;
            let own = own_prefix(session);
            &&& !starts(log, own) ==> swept(log, session, Probe::Free) && swept(
                log,
                session,
                Probe::Missing,
            ) && !swept(log, session, Probe::Held)
            &&& !starts(lock, own) ==> swept(lock, session, Probe::Free) && swept(
                lock,
                session,
                Probe::Missing,
            ) && !swept(lock, session, Probe::Held)
            &&& swept("t."@ + key + ".log"@, session, Probe::Free) && swept(
                "t."@ + key + ".log"@,
                session,
                Probe::Missing,
            ) && !swept("t."@ + key + ".log"@, session, Probe::Held)
        }),
{
    reveal_strlit("run.");
    reveal_strlit(".log");
    reveal_strlit(".lock");
    reveal_strlit("t.");
    reveal_strlit(".tmp");
    let log = "run."@ + r + ".log"@;
    let lock = "run."@ + r + ".lock"@;
    let t = "t."@ + key + ".log"@;
    let own = own_prefix(session);
    lemma_between("run."@, r, ".log"@);
    lemma_between("run."@, r, ".lock"@);
    lemma_between("t."@, key, ".log"@);
    lemma_ending(log, ".tmp"@);
    lemma_ending(lock, ".tmp"@);
    lemma_ending(t, ".tmp"@);
    lemma_ending(lock.skip(4), ".log"@);
    assert(log.last() == 'g' && lock.last() == 'k' && t.last() == 'g');
    assert(lock.skip(4).last() == 'k');
    assert(t[0] == 't');
    assert(own[0] == 'r');
    if starts(t, own) {
        assert(t.take(own.len() as int)[0] == 't');
    }
    if starts(t, "run."@) {
        assert(t.take(4)[0] == 't');
    }
}

/// A temporary of another run or of a target is removed without asking anybody.
pub proof fn law_sweep_removes_temporaries(name: Seq<char>, session: int, probe: Probe)
    ensures
        !starts(name + ".tmp"@, own_prefix(session)) ==> swept(name + ".tmp"@, session, probe),
{
    let s = name + ".tmp"@;
    assert(s.skip(s.len() - ".tmp"@.len()) =~= ".tmp"@);
}

/// A text between a beginning and an end is found.
proof fn lemma_between(p: Seq<char>, mid: Seq<char>, q: Seq<char>)
    ensures
        between(p + mid + q, p, q) == Some(mid),
{
    let s = p + mid + q;
    assert(s.take(p.len() as int) =~= p);
    let rest = s.skip(p.len() as int);
    assert(rest =~= mid + q);
    assert(rest.skip(rest.len() - q.len()) =~= q);
    assert(rest.take(rest.len() - q.len()) =~= mid);
}

/// A text ends with the last character of each of its ends.
proof fn lemma_ending(s: Seq<char>, q: Seq<char>)
    requires
        q.len() > 0,
    ensures
        ends(s, q) ==> s.len() > 0 && s.last() == q.last(),
{
    if ends(s, q) {
        assert(s.skip(s.len() - q.len())[q.len() - 1] == s[s.len() - 1]);
    }
}

/// Different runs have different files, and the log of a target tells its key.
pub proof fn law_names_of_logs_differ(
    a: int,
    b: int,
    ending: Seq<char>,
    k: Seq<char>,
    l: Seq<char>,
)
    ensures
        run_name(a, ending) == run_name(b, ending) ==> a == b,
        "t."@ + k + ".log"@ == "t."@ + l + ".log"@ ==> k == l,
{
    if run_name(a, ending) == run_name(b, ending) {
        lemma_between("run."@, decimal(a), ending);
        lemma_between("run."@, decimal(b), ending);
        let m = if a < 0 { -a } else { a } + if b < 0 { -b } else { b };
        law_decimal_roundtrip(a, m);
        law_decimal_roundtrip(b, m);
    }
    lemma_between("t."@, k, ".log"@);
    lemma_between("t."@, l, ".log"@);
}

/// A line is an event only if it is written like one: behind the sentinel stand the word for the
/// kind, a colon, the session, `@` and a space, and then the target, which for the end of a build
/// has the exit code and a space before it.
pub proof fn law_events_are_written_like_events(s: Seq<char>, e: EventView)
    requires
        line_value(s) == Some(e),
    ensures
        exists|number: Seq<char>, payload: Seq<char>| #[trigger]
            written(s, e, number, payload) && signed_value(number, i64::MAX as int) == Some(
                e.session(),
            ),
{
    let rest = s.skip(EVENT_SENTINEL@.len() as int);
    let (head, payload) = cut_once(rest, "@ "@)->0;
    let (kind, number) = cut_once(head, ":"@)->0;
    crate::text::law_cut_at_the_first_occurrence(rest, "@ "@);
    crate::text::law_cut_at_the_first_occurrence(head, ":"@);
    lemma_words();
    assert(s =~= EVENT_SENTINEL@ + rest);
    if e is Done {
        let (code, target) = cut_once(payload, " "@)->0;
        crate::text::law_cut_at_the_first_occurrence(payload, " "@);
        assert(code_before(payload, e, code));
    }
    assert(written(s, e, number, payload));
}

/// Whether a payload is an exit code, a space and a target.
pub open spec fn code_before(payload: Seq<char>, e: EventView, code: Seq<char>) -> bool {
    payload == code + " "@ + e.target() && signed_value(code, i32::MAX as int) == Some(
        e->exit,
    )
}

/// Whether a line is an event with the given number and payload.
pub open spec fn written(
    s: Seq<char>,
    e: EventView,
    number: Seq<char>,
    payload: Seq<char>,
) -> bool {
    &&& s == EVENT_SENTINEL@ + (e.word() + ":"@ + number + "@ "@ + payload)
    &&& !(e is Done) ==> payload == e.target()
    &&& e is Done ==> exists|code: Seq<char>| code_before(payload, e, code)
}

}
