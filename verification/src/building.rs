//! Building a target.
//!
//! A build runs the target's do-file and commits its output. The steps that
//! touch the world (reading and renaming files, running the do-file, applying
//! changes to the database) are left to the caller; what they are, and what
//! follows from their outcome, is decided here, their order in [`crate::steps`].
//!
//! Before the do-file runs, the target's edges are reset and it is marked as
//! uncommitted; the marker goes only with the commit. So a build that fails or
//! crashes leaves the target out of date.

use crate::db::{
    applied, applied_all, dep_view, deps_of, file_row, file_view, ops, same_name, stamp_view, DbOp, DepKind,
    DepRow, DepView, FileRow, OpView, StoreView,
};
use crate::logs::DEPTH_MAX;
use crate::num::{decimal, digits, int_text, nat_text};
use crate::paths::{joined, parsed, Comp, FsPath};
use crate::stamp::{Stamp, StampView};
use crate::text::{cat, cat3, copy_texts, join, join_with, lower, same_folded, texts, to_chars};
use crate::seqs::{lemma_filter_holds, lemma_push_contains};
use vstd::prelude::*;

verus! {

/// Whether a path is a buildable target. A file that exists and was not
/// generated is a source when only a default do-file would match it; an exact
/// do-file states that it is a target.
pub fn is_target(exists_as_file: bool, generated: bool, exact_dofile: bool, any_dofile: bool) -> (r:
    bool)
    ensures
        r == if exists_as_file && !generated {
            exact_dofile
        } else {
            any_dofile
        },
{
    if exists_as_file && !generated {
        exact_dofile
    } else {
        any_dofile
    }
}

/// What is known of a target before it is built.
#[derive(Debug, Clone, Copy, PartialEq, Eq, Structural)]
pub struct Facts {
    /// Something is there under its name.
    pub exists: bool,
    /// What is there is not a directory.
    pub exists_as_file: bool,
    /// Redo has generated it before.
    pub generated: bool,
    /// There is a do-file of exactly its name.
    pub exact_dofile: bool,
    /// There is a do-file for it.
    pub any_dofile: bool,
    /// It was named at the command line.
    pub force: bool,
}

/// What building a target comes to.
#[derive(Debug, Clone, Copy, PartialEq, Eq, Structural)]
pub enum Plan {
    /// It is a source: record its stamp.
    Static,
    /// There is no rule to build it by.
    NoRule,
    /// Run its do-file.
    Run,
}

/// What building a target comes to. Unambiguous intent, an exact do-file or the
/// command line, keeps an existing file a target; the overwrite guard then asks
/// before it is replaced.
pub open spec fn plan_for(f: Facts) -> Plan {
    if f.exists_as_file && !f.force && !f.generated && !f.exact_dofile {
        Plan::Static
    } else if f.any_dofile {
        Plan::Run
    } else if f.exists {
        Plan::Static
    } else {
        Plan::NoRule
    }
}

/// What building a target comes to.
pub fn plan_build(f: &Facts) -> (p: Plan)
    ensures
        p == plan_for(*f),
{
    if f.exists_as_file && !f.force && !f.generated && !f.exact_dofile {
        Plan::Static
    } else if f.any_dofile {
        Plan::Run
    } else if f.exists {
        Plan::Static
    } else {
        Plan::NoRule
    }
}

/// A target that a dependent treats as a source is never built on its behalf,
/// and one that is built was a target.
pub proof fn law_sources_are_not_built(f: Facts)
    requires
        !f.force,
        f.exists_as_file ==> f.exists,
        f.exact_dofile ==> f.any_dofile,
    ensures
        plan_for(f) is Run <==> (if f.exists_as_file && !f.generated {
            f.exact_dofile
        } else {
            f.any_dofile
        }),
{
}

/// The change that records a source.
pub fn static_ops(target: &str, stamp: &Option<Stamp>, session: i64) -> (out: Vec<DbOp>)
    ensures
        ops(out@) == seq![
            OpView::UpsertFile(file_view(target@, None, None, stamp_view(*stamp), session)),
        ],
{
    let mut out: Vec<DbOp> = Vec::new();
    out.push(DbOp::UpsertFile(FileRow::new(target, None, None, stamp, session)));
    assert(ops(out@) =~= seq![
        OpView::UpsertFile(file_view(target@, None, None, stamp_view(*stamp), session)),
    ]);
    out
}

/// The changes that start a build: forget the edges, mark the build as not
/// committed, and record the do-file and the do-files that would have been
/// preferred to it.
pub open spec fn begin_changes(
    target: Seq<char>,
    dofile: Seq<char>,
    stamp: Option<StampView>,
    absent: Seq<Seq<char>>,
) -> Seq<OpView> {
    seq![
        OpView::ClearDeps { target },
        OpView::RecordDep(dep_view(target, DepKind::Uncommitted, None, None)),
        OpView::RecordDep(dep_view(target, DepKind::DoFile, Some(dofile), stamp)),
    ] + absent.map_values(
        |a: Seq<char>| OpView::RecordDep(dep_view(target, DepKind::IfCreate, Some(a), None)),
    )
}

/// The changes that start a build.
pub fn begin_build(
    target: &str,
    dofile_rel: &str,
    stamp: &Option<Stamp>,
    absent: &[String],
) -> (out: Vec<DbOp>)
    ensures
        ops(out@) == begin_changes(target@, dofile_rel@, stamp_view(*stamp), texts(absent@)),
{
    let mut out: Vec<DbOp> = Vec::new();
    let none: Option<Stamp> = None;
    out.push(DbOp::ClearDeps { target: target.to_owned() });
    out.push(DbOp::RecordDep(DepRow::new(target, DepKind::Uncommitted, None, &none)));
    out.push(
        DbOp::RecordDep(DepRow::new(target, DepKind::DoFile, Some(dofile_rel.to_owned()), stamp)),
    );
    let ghost head = seq![
        OpView::ClearDeps { target: target@ },
        OpView::RecordDep(dep_view(target@, DepKind::Uncommitted, None, None)),
        OpView::RecordDep(
            dep_view(target@, DepKind::DoFile, Some(dofile_rel@), stamp_view(*stamp)),
        ),
    ];
    assert(ops(out@) =~= head);
    let ghost rest = texts(absent@).map_values(
        |a: Seq<char>| OpView::RecordDep(dep_view(target@, DepKind::IfCreate, Some(a), None)),
    );
    for i in 0..absent.len()
        invariant
            none is None,
            rest == texts(absent@).map_values(
                |a: Seq<char>|
                    OpView::RecordDep(dep_view(target@, DepKind::IfCreate, Some(a), None)),
            ),
            ops(out@) == head + rest.take(i as int),
    {
        let ghost before = ops(out@);
        let op = DbOp::RecordDep(
            DepRow::new(target, DepKind::IfCreate, Some(absent[i].clone()), &none),
        );
        let ghost ov = op@;
        out.push(op);
        assert(ops(out@) =~= before.push(ov));
        assert(rest[i as int] == ov);
        assert(ops(out@) =~= head + rest.take(i + 1));
    }
    assert(rest.take(rest.len() as int) =~= rest);
    out
}

/// The changes that commit a build: record the output, and drop the marker.
pub open spec fn commit_changes(
    target: Seq<char>,
    dofile: Seq<char>,
    now: i64,
    stamp: Option<StampView>,
    session: i64,
) -> Seq<OpView> {
    seq![
        OpView::UpsertFile(file_view(target, Some(dofile), Some(now), stamp, session)),
        OpView::DropMarker { target },
    ]
}

/// The changes that commit a build.
pub fn commit_build(
    target: &str,
    dofile_rel: &str,
    now: i64,
    stamp: &Option<Stamp>,
    session: i64,
) -> (out: Vec<DbOp>)
    ensures
        ops(out@) == commit_changes(target@, dofile_rel@, now, stamp_view(*stamp), session),
{
    let mut out: Vec<DbOp> = Vec::new();
    out.push(
        DbOp::UpsertFile(
            FileRow::new(target, Some(dofile_rel.to_owned()), Some(now), stamp, session),
        ),
    );
    out.push(DbOp::DropMarker { target: target.to_owned() });
    assert(ops(out@) =~= commit_changes(target@, dofile_rel@, now, stamp_view(*stamp), session));
    out
}

/// The session in which a file was settled last.
pub open spec fn run_of(st: StoreView, path: Seq<char>) -> Option<i64> {
    match file_row(st.files, path) {
        Some(f) => f.runid,
        None => None,
    }
}

/// Whether a target is marked as uncommitted.
pub open spec fn is_marked(st: StoreView, target: Seq<char>) -> bool {
    exists|d: DepView| #[trigger]
        st.deps.contains(d) && same_name(d.target, target) && d.kind is Uncommitted
}

/// Whether markers are recorded as markers are: without a dependency, so that no
/// edge takes the place of one.
pub open spec fn plain_markers(st: StoreView) -> bool {
    forall|d: DepView| #[trigger] st.deps.contains(d) && d.kind is Uncommitted ==> d.dep is None
}

/// Whether a change is not one that starts or commits a build of the target. The
/// changes of a running do-file, and those of builds of other targets, are such.
pub open spec fn leaves_marker(op: OpView, target: Seq<char>) -> bool {
    match op {
        OpView::ClearDeps { target: t } => !same_name(t, target),
        OpView::DropMarker { target: t } => !same_name(t, target),
        OpView::RecordDep(r) => r.kind is Uncommitted ==> r.dep is None,
        _ => true,
    }
}

proof fn lemma_change_leaves_marker(st: StoreView, op: OpView, target: Seq<char>)
    requires
        is_marked(st, target),
        plain_markers(st),
        leaves_marker(op, target),
    ensures
        is_marked(applied(st, op), target),
        plain_markers(applied(st, op)),
{
    let new = applied(st, op);
    let d = choose|d: DepView| #[trigger]
        st.deps.contains(d) && same_name(d.target, target) && d.kind is Uncommitted;
    match op {
        OpView::ClearDeps { target: t } => {
            lemma_filter_holds(st.deps, |d: DepView| !same_name(d.target, t));
            assert(new.deps.contains(d));
        },
        OpView::DropMarker { target: t } => {
            lemma_filter_holds(
                st.deps,
                |d: DepView| !(same_name(d.target, t) && d.kind is Uncommitted),
            );
            assert(new.deps.contains(d));
        },
        OpView::RecordDep(r) => {
            let p = |d: DepView| !crate::db::clashes(d, r);
            let kept = st.deps.filter(p);
            lemma_filter_holds(st.deps, p);
            assert(new.deps == kept.push(r));
            assert(kept.contains(d));
            lemma_push_contains(kept, r, d);
            assert(new.deps.contains(d));
            assert forall|d: DepView| #[trigger]
                new.deps.contains(d) && d.kind is Uncommitted implies d.dep is None by {
                lemma_push_contains(kept, r, d);
            }
        },
        _ => {
            assert(new.deps == st.deps);
        },
    }
}

proof fn lemma_changes_leave_marker(st: StoreView, list: Seq<OpView>, target: Seq<char>)
    requires
        is_marked(st, target),
        plain_markers(st),
        forall|i: int| 0 <= i < list.len() ==> leaves_marker(#[trigger] list[i], target),
    ensures
        is_marked(applied_all(st, list), target),
        plain_markers(applied_all(st, list)),
    decreases list.len(),
{
    if list.len() > 0 {
        let front = list.drop_last();
        assert forall|i: int| 0 <= i < front.len() implies leaves_marker(
            #[trigger] front[i],
            target,
        ) by {
            assert(front[i] == list[i]);
        }
        lemma_changes_leave_marker(st, front, target);
        assert(leaves_marker(list[list.len() - 1], target));
        lemma_change_leaves_marker(applied_all(st, front), list.last(), target);
    }
}

/// Applying a list is applying its parts one after the other.
proof fn lemma_applied_concat(st: StoreView, a: Seq<OpView>, b: Seq<OpView>)
    ensures
        applied_all(st, a + b) == applied_all(applied_all(st, a), b),
    decreases b.len(),
{
    if b.len() == 0 {
        assert(a + b =~= a);
    } else {
        assert((a + b).drop_last() =~= a + b.drop_last());
        assert((a + b).last() == b.last());
        lemma_applied_concat(st, a, b.drop_last());
    }
}

/// A build in flight is marked: from its start, through every edge that its
/// do-file records and whatever other builds change, until it commits, the target
/// carries the marker. So a crash at any point leaves it out of date.
pub proof fn law_build_in_flight_is_marked(
    st: StoreView,
    target: Seq<char>,
    dofile: Seq<char>,
    stamp: Option<StampView>,
    absent: Seq<Seq<char>>,
    since: Seq<OpView>,
)
    requires
        plain_markers(st),
        forall|i: int| 0 <= i < since.len() ==> leaves_marker(#[trigger] since[i], target),
    ensures
        is_marked(
            applied_all(st, begin_changes(target, dofile, stamp, absent) + since),
            target,
        ),
{
    let clear = OpView::ClearDeps { target };
    let marker = dep_view(target, DepKind::Uncommitted, None, None);
    let mark = OpView::RecordDep(marker);
    let rule = OpView::RecordDep(dep_view(target, DepKind::DoFile, Some(dofile), stamp));
    let rest = absent.map_values(
        |a: Seq<char>| OpView::RecordDep(dep_view(target, DepKind::IfCreate, Some(a), None)),
    );
    let two = seq![clear, mark];
    let later = seq![rule] + rest + since;
    let whole = begin_changes(target, dofile, stamp, absent) + since;
    assert(whole =~= two + later);
    lemma_applied_concat(st, two, later);
    assert(two.drop_last() =~= seq![clear]);
    assert(seq![clear].drop_last() =~= Seq::<OpView>::empty());
    reveal_with_fuel(applied_all, 3);
    let p = |d: DepView| !same_name(d.target, target);
    let cleared = applied(st, clear);
    lemma_filter_holds(st.deps, p);
    assert(cleared.deps == st.deps.filter(p));
    let q = |d: DepView| !crate::db::clashes(d, marker);
    lemma_filter_holds(cleared.deps, q);
    let marked = applied(cleared, mark);
    assert(applied_all(st, two) == marked);
    assert(marked.deps == cleared.deps.filter(q).push(marker));
    lemma_push_contains(cleared.deps.filter(q), marker, marker);
    assert(marked.deps.contains(marker));
    assert(is_marked(marked, target));
    assert forall|d: DepView| #[trigger] marked.deps.contains(d) && d.kind is Uncommitted implies d.dep
        is None by {
        lemma_push_contains(cleared.deps.filter(q), marker, d);
    }
    assert forall|i: int| 0 <= i < later.len() implies leaves_marker(
        #[trigger] later[i],
        target,
    ) by {
        if i == 0 {
        } else if i < 1 + rest.len() {
            assert(later[i] == rest[i - 1]);
        } else {
            assert(later[i] == since[i - 1 - rest.len()]);
        }
    }
    lemma_changes_leave_marker(marked, later, target);
}

/// A committed target carries no marker, and is recorded as built in the session
/// that built it.
pub proof fn law_commit_clears_marker(
    st: StoreView,
    target: Seq<char>,
    dofile: Seq<char>,
    now: i64,
    stamp: Option<StampView>,
    session: i64,
)
    ensures
        ({
            let done = applied_all(st, commit_changes(target, dofile, now, stamp, session));
            &&& !is_marked(done, target)
            &&& file_row(done.files, target) == Some(
                file_view(target, Some(dofile), Some(now), stamp, session),
            )
        }),
{
    let row = file_view(target, Some(dofile), Some(now), stamp, session);
    let up = OpView::UpsertFile(row);
    let drop = OpView::DropMarker { target };
    let list = commit_changes(target, dofile, now, stamp, session);
    assert(list.drop_last() =~= seq![up]);
    assert(list.last() == drop);
    assert(seq![up].drop_last() =~= Seq::<OpView>::empty());
    reveal_with_fuel(applied_all, 3);
    let mid = applied(st, up);
    let done = applied(mid, drop);
    assert(applied_all(st, list) == done);
    crate::db::law_upsert_then_read(st, row, target);
    lemma_filter_holds(
        mid.deps,
        |d: DepView| !(same_name(d.target, target) && d.kind is Uncommitted),
    );
}

/// A target is built at most once per session: once a build of it committed, or
/// it was recorded as a source, under whatever casing of its name, those who
/// waited for its lock find nothing left to do, and those who come to it later
/// skip it.
pub proof fn law_built_once_per_session(
    st: StoreView,
    target: Seq<char>,
    dofile: Seq<char>,
    now: i64,
    stamp: Option<StampView>,
    session: i64,
    name: Seq<char>,
)
    requires
        same_name(target, name),
    ensures
        ({
            let done = applied_all(st, commit_changes(target, dofile, now, stamp, session));
            &&& !needed(false, run_of(done, name), session)
            &&& crate::parallel::first_step(false, run_of(done, name), session)
                == crate::parallel::TaskStart::Skip
        }),
        ({
            let source = file_view(target, None, None, stamp, session);
            let done = applied(st, OpView::UpsertFile(source));
            !needed(false, run_of(done, name), session)
        }),
{
    let row = file_view(target, Some(dofile), Some(now), stamp, session);
    let up = OpView::UpsertFile(row);
    let list = commit_changes(target, dofile, now, stamp, session);
    assert(list.drop_last() =~= seq![up]);
    assert(seq![up].drop_last() =~= Seq::<OpView>::empty());
    reveal_with_fuel(applied_all, 3);
    crate::db::law_upsert_then_read(st, row, name);
    crate::db::law_upsert_then_read(st, file_view(target, None, None, stamp, session), name);
}

/// The text that std's debug formatting gives for a text: the text in quotes,
/// with what cannot be printed escaped.
pub uninterp spec fn quoted(s: Seq<char>) -> Seq<char>;

/// Calls `format!` with `{:?}` on a text, which is the `Debug` of `str`. The
/// result is a function of the text alone, named [`quoted`].
#[verifier::external_body]
fn quote(s: &str) -> (r: String)
    ensures
        r@ == quoted(s@),
{
    format!("{:?}", s)
}

/// A text in quotes, for a message.
pub fn quoted_text(s: &str) -> (r: String)
    ensures
        r@ == quoted(s@),
{
    quote(s)
}

/// Why a target could not be built or a request not be met.
#[derive(Debug, PartialEq, Eq)]
pub enum BuildError {
    /// The target's do-file, directly or not, asks for the target itself.
    Cycle { path: Vec<String>, target: String },
    /// The chain of do-files that run inside each other is too long.
    TooDeep { target: String },
    /// No do-file builds the target, and no such file exists.
    NoRule { target: String },
    /// The do-file wrote to the target itself.
    ModifiedDirectly { target: String },
    /// The do-file failed; no code if it was killed by a signal.
    Failed { target: String, code: Option<i32> },
    /// The do-file wrote to both its outputs.
    BothOutputs { target: String },
    /// The speculation that the build belongs to is dead.
    Aborted { target: String },
    /// A file that redo does not own is in the way.
    Refused { problem: String },
    /// Neither a do-file nor a source stands behind a dependency.
    NoSource { dep: String },
    /// A path lies outside the project.
    Outside { input: String, root: String },
    /// A command that only makes sense within a do-file.
    NotInDofile { verb: String },
    /// A path that was to not exist does.
    AlreadyExists { dep: String },
}

/// An error, as a mathematical value.
#[verifier::ext_equal]
pub enum ErrorView {
    Cycle { path: Seq<Seq<char>>, target: Seq<char> },
    TooDeep { target: Seq<char> },
    NoRule { target: Seq<char> },
    ModifiedDirectly { target: Seq<char> },
    Failed { target: Seq<char>, code: Option<i32> },
    BothOutputs { target: Seq<char> },
    Aborted { target: Seq<char> },
    Refused { problem: Seq<char> },
    NoSource { dep: Seq<char> },
    Outside { input: Seq<char>, root: Seq<char> },
    NotInDofile { verb: Seq<char> },
    AlreadyExists { dep: Seq<char> },
}

impl View for BuildError {
    type V = ErrorView;

    open spec fn view(&self) -> ErrorView {
        match self {
            BuildError::Cycle { path, target } => ErrorView::Cycle {
                path: texts(path@),
                target: target@,
            },
            BuildError::TooDeep { target } => ErrorView::TooDeep { target: target@ },
            BuildError::NoRule { target } => ErrorView::NoRule { target: target@ },
            BuildError::ModifiedDirectly { target } => ErrorView::ModifiedDirectly {
                target: target@,
            },
            BuildError::Failed { target, code } => ErrorView::Failed {
                target: target@,
                code: *code,
            },
            BuildError::BothOutputs { target } => ErrorView::BothOutputs { target: target@ },
            BuildError::Aborted { target } => ErrorView::Aborted { target: target@ },
            BuildError::Refused { problem } => ErrorView::Refused { problem: problem@ },
            BuildError::NoSource { dep } => ErrorView::NoSource { dep: dep@ },
            BuildError::Outside { input, root } => ErrorView::Outside {
                input: input@,
                root: root@,
            },
            BuildError::NotInDofile { verb } => ErrorView::NotInDofile { verb: verb@ },
            BuildError::AlreadyExists { dep } => ErrorView::AlreadyExists { dep: dep@ },
        }
    }
}

/// The name that an error quotes.
pub open spec fn quoted_name(e: ErrorView) -> Seq<char> {
    match e {
        ErrorView::NoRule { target } => target,
        ErrorView::NoSource { dep } => dep,
        ErrorView::Outside { input, .. } => input,
        ErrorView::AlreadyExists { dep } => dep,
        _ => Seq::empty(),
    }
}

/// An error in words.
pub open spec fn error_text(e: ErrorView) -> Seq<char> {
    error_text_with(e, quoted(quoted_name(e)))
}

/// An error in words, given the name that it quotes in quotes.
pub open spec fn error_text_with(e: ErrorView, name: Seq<char>) -> Seq<char> {
    match e {
        ErrorView::Cycle { path, target } => "dependency cycle detected: "@ + join(
            path,
            " -> "@,
        ) + (" -> "@ + target),
        ErrorView::TooDeep { target } => "dependency chain deeper than "@ + digits(
            DEPTH_MAX as nat,
        ) + (" at "@ + target),
        ErrorView::NoRule { target } => "no .do file found to build target "@ + name,
        ErrorView::ModifiedDirectly { target } => "do-file for "@ + target
            + " modified the target directly; write to $3 or stdout, not $1"@,
        ErrorView::Failed { target, code } => "do-file for "@ + target + (" failed (exit "@ + (
        match code {
            Some(c) => decimal(c as int),
            None => "signal"@,
        }) + ")"@),
        ErrorView::BothOutputs { target } => "do-file for "@ + target
            + " wrote to both stdout and $3; choose one (status messages go to stderr)"@,
        ErrorView::Aborted { target } => "speculation aborted: the build of "@ + target
            + " is no longer needed here (it will be re-run when genuinely needed)"@,
        ErrorView::Refused { problem } => problem
            + "\nRefusing to overwrite it. Rerun with --yes to rebuild over it, or move the file out of the way."@,
        ErrorView::NoSource { dep } => "no .do file and no source file for dependency "@ + name,
        ErrorView::Outside { input, root } => "target "@ + name + (
        " is outside the project root "@ + root),
        ErrorView::NotInDofile { verb } => "redo-msh "@ + verb
            + " must be called from within a do-file"@,
        ErrorView::AlreadyExists { dep } => "redo-msh ifcreate: "@ + name
            + " already exists"@,
    }
}

impl BuildError {
    /// The error in words.
    pub fn message(&self) -> (s: String)
        ensures
            s@ == error_text(self@),
    {
        let name = match self {
            BuildError::NoRule { target } => quote(target.as_str()),
            BuildError::NoSource { dep } => quote(dep.as_str()),
            BuildError::Outside { input, .. } => quote(input.as_str()),
            BuildError::AlreadyExists { dep } => quote(dep.as_str()),
            _ => String::new(),
        };
        self.message_with(name.as_str())
    }

    /// The error in words, given the name that it quotes in quotes.
    pub fn message_with(&self, name: &str) -> (s: String)
        ensures
            s@ == error_text_with(self@, name@),
    {
        match self {
            BuildError::Cycle { path, target } => {
                let tail = cat(" -> ", target.as_str());
                let chain = join_with(path.as_slice(), " -> ");
                cat3("dependency cycle detected: ", chain.as_str(), tail.as_str())
            },
            BuildError::TooDeep { target } => {
                let tail = cat(" at ", target.as_str());
                let max = nat_text(DEPTH_MAX as u128);
                cat3("dependency chain deeper than ", max.as_str(), tail.as_str())
            },
            BuildError::NoRule { .. } => cat("no .do file found to build target ", name),
            BuildError::ModifiedDirectly { target } => cat3(
                "do-file for ",
                target.as_str(),
                " modified the target directly; write to $3 or stdout, not $1",
            ),
            BuildError::Failed { target, code } => {
                let exit = match code {
                    Some(c) => int_text(*c as i64),
                    None => "signal".to_owned(),
                };
                let tail = cat3(" failed (exit ", exit.as_str(), ")");
                cat3("do-file for ", target.as_str(), tail.as_str())
            },
            BuildError::BothOutputs { target } => cat3(
                "do-file for ",
                target.as_str(),
                " wrote to both stdout and $3; choose one (status messages go to stderr)",
            ),
            BuildError::Aborted { target } => cat3(
                "speculation aborted: the build of ",
                target.as_str(),
                " is no longer needed here (it will be re-run when genuinely needed)",
            ),
            BuildError::Refused { problem } => cat(
                problem.as_str(),
                "\nRefusing to overwrite it. Rerun with --yes to rebuild over it, or move the file out of the way.",
            ),
            BuildError::NoSource { .. } => cat(
                "no .do file and no source file for dependency ",
                name,
            ),
            BuildError::Outside { root, .. } => {
                let tail = cat(" is outside the project root ", root.as_str());
                cat3("target ", name, tail.as_str())
            },
            BuildError::NotInDofile { verb } => cat3(
                "redo-msh ",
                verb.as_str(),
                " must be called from within a do-file",
            ),
            BuildError::AlreadyExists { .. } => cat3(
                "redo-msh ifcreate: ",
                name,
                " already exists",
            ),
        }
    }

    /// Whether the error is the abort of a speculation, which is quarantined
    /// whatever the grade of the task.
    pub fn is_abort(&self) -> (r: bool)
        ensures
            r == (*self is Aborted),
    {
        match self {
            BuildError::Aborted { .. } => true,
            _ => false,
        }
    }
}

/// Whether a target is among those whose do-files run around it.
pub open spec fn in_chain(chain: Seq<Seq<char>>, target: Seq<char>) -> bool {
    exists|i: int| 0 <= i < chain.len() && same_name(#[trigger] chain[i], target)
}

/// Why a build may not start inside the do-files that run around it: it is one
/// of them, or they are nested too deep.
pub open spec fn start_fault(chain: Seq<Seq<char>>, target: Seq<char>) -> Option<ErrorView> {
    if in_chain(chain, target) {
        Some(ErrorView::Cycle { path: chain, target })
    } else if chain.len() >= DEPTH_MAX {
        Some(ErrorView::TooDeep { target })
    } else {
        None
    }
}

/// Whether a build may start inside the do-files that run around it.
pub fn build_start(chain: &[String], target: &str) -> (r: Result<(), BuildError>)
    ensures
        match r {
            Ok(_) => start_fault(texts(chain@), target@) is None,
            Err(e) => start_fault(texts(chain@), target@) == Some(e@),
        },
{
    for i in 0..chain.len()
        invariant
            forall|k: int| 0 <= k < i ==> !same_name(#[trigger] texts(chain@)[k], target@),
    {
        if same_folded(chain[i].as_str(), target) {
            assert(same_name(texts(chain@)[i as int], target@));
            return Err(
                BuildError::Cycle { path: copy_texts(chain), target: target.to_owned() },
            );
        }
    }
    if chain.len() >= DEPTH_MAX {
        return Err(BuildError::TooDeep { target: target.to_owned() });
    }
    Ok(())
}

/// How to wait for the lock of a target that another process holds.
#[derive(Debug, Clone, Copy, PartialEq, Eq, Structural)]
pub enum LockWait {
    /// Block until it is free.
    Block,
    /// Try again and again, so that an abort is noticed.
    Poll,
}

/// How to wait for the lock of a target: demanded work may block, speculative
/// work must stay interruptible.
pub fn lock_wait(watched: bool, abandonable: bool) -> (r: LockWait)
    ensures
        r is Block <==> !watched && !abandonable,
{
    if !watched && !abandonable {
        LockWait::Block
    } else {
        LockWait::Poll
    }
}

/// Whether a target must be built in a session, given the one in which it was
/// settled last: not if that was this one, unless it is forced.
pub open spec fn needed(force: bool, runid: Option<i64>, session: i64) -> bool {
    force || runid != Some(session)
}

/// Whether a target whose lock was won must still be built: not if another
/// process built it in this session while we waited.
pub fn still_needed(force: bool, runid: Option<i64>, session: i64) -> (r: bool)
    ensures
        r == needed(force, runid, session),
{
    if force {
        return true;
    }
    match runid {
        Some(n) => n != session,
        None => true,
    }
}

/// What a look at the target found, before or after its do-file ran.
#[derive(Debug, Clone, Copy, PartialEq, Eq, Structural)]
pub struct Look {
    pub dir: bool,
    /// The modification time, if the system tells it.
    pub modified: Option<i64>,
}

/// What a run of a do-file left behind.
#[derive(Debug, Clone, Copy, PartialEq, Eq, Structural)]
pub struct Ran {
    /// The target before the run.
    pub before: Option<Look>,
    /// The target after the run.
    pub after: Option<Look>,
    /// The exit code; none if it was killed by a signal.
    pub code: Option<i32>,
    /// Whether the temporary output exists.
    pub temp_exists: bool,
    /// How much was written to standard output.
    pub captured: u64,
}

/// Where the output of a target comes from.
#[derive(Debug, Clone, Copy, PartialEq, Eq, Structural)]
pub enum Output {
    /// What was written to standard output.
    Captured,
    /// The temporary output.
    Temp,
    /// There is none: what is there under the target's name goes.
    Phony,
}

/// Whether the do-file wrote to the target itself.
pub open spec fn modified_directly(before: Option<Look>, after: Option<Look>) -> bool {
    match (before, after) {
        (_, None) => false,
        (None, Some(a)) => !a.dir,
        (Some(b), Some(a)) => !a.dir && b.modified != a.modified,
    }
}

/// Judge a run of a do-file. It must not write to the target itself, it must
/// succeed, and it must choose one of its outputs.
pub open spec fn judged(target: Seq<char>, ran: Ran) -> Result<Output, ErrorView> {
    if modified_directly(ran.before, ran.after) {
        Err(ErrorView::ModifiedDirectly { target })
    } else if ran.code != Some(0i32) {
        Err(ErrorView::Failed { target, code: ran.code })
    } else if ran.temp_exists && ran.captured > 0 {
        Err(ErrorView::BothOutputs { target })
    } else if ran.temp_exists {
        Ok(Output::Temp)
    } else if ran.captured > 0 {
        Ok(Output::Captured)
    } else {
        Ok(Output::Phony)
    }
}

/// Judge a run of a do-file.
pub fn judge(target: &str, ran: &Ran) -> (r: Result<Output, BuildError>)
    ensures
        match r {
            Ok(o) => judged(target@, *ran) == Ok::<Output, ErrorView>(o),
            Err(e) => judged(target@, *ran) == Err::<Output, ErrorView>(e@),
        },
{
    let direct = match (&ran.before, &ran.after) {
        (_, None) => false,
        (None, Some(a)) => !a.dir,
        (Some(b), Some(a)) => !a.dir && match (b.modified, a.modified) {
            (Some(x), Some(y)) => x != y,
            (None, None) => false,
            _ => true,
        },
    };
    if direct {
        return Err(BuildError::ModifiedDirectly { target: target.to_owned() });
    }
    let ok = match ran.code {
        Some(c) => c == 0,
        None => false,
    };
    if !ok {
        return Err(BuildError::Failed { target: target.to_owned(), code: ran.code });
    }
    if ran.temp_exists && ran.captured > 0 {
        return Err(BuildError::BothOutputs { target: target.to_owned() });
    }
    if ran.temp_exists {
        Ok(Output::Temp)
    } else if ran.captured > 0 {
        Ok(Output::Captured)
    } else {
        Ok(Output::Phony)
    }
}

/// The exit code to report for a do-file; one that was killed by a signal counts
/// as failed.
pub fn reported_exit(code: Option<i32>) -> (r: i32)
    ensures
        r == match code {
            Some(c) => c,
            None => 1,
        },
{
    match code {
        Some(c) => c,
        None => 1,
    }
}

/// A character that is safe in a file name.
pub open spec fn safe_char(c: char) -> char {
    if ('a' <= c && c <= 'z') || ('A' <= c && c <= 'Z') || ('0' <= c && c <= '9') {
        c
    } else {
        '_'
    }
}

/// Make a path safe to embed in the name of a temporary file.
pub fn sanitize(s: &str) -> (r: String)
    ensures
        r@ == s@.map_values(|c: char| safe_char(c)),
{
    let cs = to_chars(s);
    let mut r = String::new();
    for i in 0..cs.len()
        invariant
            cs@ == s@,
            r@ == s@.take(i as int).map_values(|c: char| safe_char(c)),
    {
        let c = cs[i];
        let plain = ('a' <= c && c <= 'z') || ('A' <= c && c <= 'Z') || ('0' <= c && c <= '9');
        r.push(
            if plain {
                c
            } else {
                '_'
            },
        );
        assert(r@ =~= s@.take(i + 1).map_values(|c: char| safe_char(c)));
    }
    assert(s@.take(s@.len() as int) =~= s@);
    r
}

/// `$3`: the temporary output, beside the target.
pub fn temp_output(arg_target: &str, pid: u32) -> (s: String)
    ensures
        s@ == arg_target@ + ".redo-tmp."@ + digits(pid as nat),
{
    cat3(arg_target, ".redo-tmp.", nat_text(pid as u128).as_str())
}

/// The name of the file that a do-file's standard output goes to.
pub fn capture_name(target: &str, pid: u32) -> (s: String)
    ensures
        s@ == "stdout."@ + digits(pid as nat) + ("."@ + target@.map_values(
            |c: char| safe_char(c),
        )),
{
    let tail = cat(".", sanitize(target).as_str());
    cat3("stdout.", nat_text(pid as u128).as_str(), tail.as_str())
}

/// Whether a file beside the target is a temporary output that an earlier build
/// left behind.
pub fn is_stale_temp(name: &str, target_name: &str) -> (r: bool)
    ensures
        r == crate::text::starts(name@, target_name@ + ".redo-tmp."@),
{
    crate::text::has_prefix(name, cat(target_name, ".redo-tmp.").as_str())
}

/// A temporary output is recognised as one by a later build.
pub proof fn law_temps_are_swept(target: Seq<char>, pid: nat)
    ensures
        crate::text::starts(target + ".redo-tmp."@ + digits(pid), target + ".redo-tmp."@),
{
    let p = target + ".redo-tmp."@;
    assert((p + digits(pid)).take(p.len() as int) =~= p);
}

/// Where the temporary outputs of a target that earlier builds left behind lie:
/// the directory, and the name of the target in it.
pub fn temp_place(dodir: &FsPath, arg_target: &str) -> (r: Option<(FsPath, String)>)
    ensures
        ({
            let path = parsed(arg_target@);
            match r {
                Some((dir, name)) => path.len() > 0 && path.last() == Comp::Normal(name@) && dir@
                    == joined(dodir@, path.drop_last()),
                None => path.len() == 0 || !(path.last() is Normal),
            }
        }),
{
    let mut path = FsPath::parse(arg_target);
    let ghost whole = path@;
    match path.file_name() {
        Some(name) => {
            path.comps.pop();
            assert(path@ =~= whole.drop_last());
            Some((dodir.join(&path), name))
        },
        None => None,
    }
}

/// What to do after renaming an output into place failed.
#[derive(Debug, Clone, Copy, PartialEq, Eq, Structural)]
pub enum RenameStep {
    /// Pause for some milliseconds, then try again.
    Retry(u64),
    /// Give up.
    Fail,
}

/// What to do after the `attempt`-th of `attempts` renames failed, counted from
/// 0: a transient failure is tried again, each time after twice the pause.
pub fn rename_step(attempt: u32, attempts: u32, transient: bool) -> (r: RenameStep)
    requires
        attempt < 32,
    ensures
        r == if attempt + 1 < attempts && transient {
            RenameStep::Retry((2 * vstd::arithmetic::power2::pow2(attempt as nat)) as u64)
        } else {
            RenameStep::Fail
        },
{
    if attempt >= attempts || attempts - attempt < 2 || !transient {
        return RenameStep::Fail;
    }
    let mut delay: u64 = 2;
    proof {
        vstd::arithmetic::power2::lemma2_to64();
    }
    for i in 0..attempt
        invariant
            attempt < 32,
            delay == 2 * vstd::arithmetic::power2::pow2(i as nat),
    {
        proof {
            vstd::arithmetic::power2::lemma_pow2_strictly_increases(i as nat, 32);
            vstd::arithmetic::power2::lemma2_to64();
            vstd::arithmetic::power2::lemma_pow2_unfold((i + 1) as nat);
        }
        delay = delay * 2;
    }
    RenameStep::Retry(delay)
}

/// The arguments that a do-file is run with: the interpreter's command, then the
/// do-file and its three arguments.
pub fn command_line(
    interpreter: &[String],
    dofile: &str,
    arg_target: &str,
    arg_base: &str,
    temp: &str,
) -> (out: Vec<String>)
    ensures
        texts(out@) == texts(interpreter@) + seq![dofile@, arg_target@, arg_base@, temp@],
{
    let mut out = copy_texts(interpreter);
    let ghost head = texts(out@);
    out.push(dofile.to_owned());
    out.push(arg_target.to_owned());
    out.push(arg_base.to_owned());
    out.push(temp.to_owned());
    assert(texts(out@) =~= head + seq![dofile@, arg_target@, arg_base@, temp@]);
    out
}

/// The directories of a search path, one per line; or that there is none.
pub open spec fn path_lines(dirs: Option<Seq<Seq<char>>>) -> Seq<char> {
    match dirs {
        Some(d) => dir_lines(d),
        None => "  (PATH is not set)\n"@,
    }
}

/// Directories, one per line.
pub open spec fn dir_lines(d: Seq<Seq<char>>) -> Seq<char>
    decreases d.len(),
{
    if d.len() == 0 {
        Seq::empty()
    } else {
        dir_lines(d.drop_last()) + ("  "@ + d.last() + "\n"@)
    }
}

/// Why an interpreter could not be run, in words: what was tried, and if it was
/// not found, where.
pub open spec fn spawn_text(
    interpreter: Seq<Seq<char>>,
    dofile: Seq<char>,
    error: Seq<char>,
    not_found: bool,
    dirs: Option<Seq<Seq<char>>>,
) -> Seq<char> {
    let name = interpreter[0];
    let tried = "cannot run do-file "@ + dofile
        + "\n\nredo-msh does not execute do-files directly: every do-file is run by an\ninterpreter ('msh' by default, or whatever redo.toml configures). Here that\ninterpreter is '"@
        + (name + "' (full command: "@ + (join(interpreter, " "@) + " "@ + (dofile
        + "), and spawning it failed:\n\n  "@ + (error + "\n"@))));
    if not_found {
        tried + ("\n'"@ + name
            + "' was not found in any directory on PATH. PATH as used for this spawn:\n"@ + (
        path_lines(dirs) + "\nTo fix: install '"@ + (name
            + "' and make sure its directory is on PATH, or set a\ndifferent interpreter in redo.toml at the project root."@)))
    } else {
        tried
    }
}

/// The views of an optional list of texts.
pub open spec fn opt_texts(v: Option<Vec<String>>) -> Option<Seq<Seq<char>>> {
    match v {
        Some(v) => Some(texts(v@)),
        None => None,
    }
}

/// Why an interpreter could not be run, in words. The bare error of the system
/// names neither the program nor where it was looked for, which reads as if the
/// do-file were the problem.
pub fn interpreter_spawn_error(
    interpreter: &[String],
    dofile: &str,
    error: &str,
    not_found: bool,
    dirs: &Option<Vec<String>>,
) -> (s: String)
    requires
        interpreter.len() > 0,
    ensures
        s@ == spawn_text(texts(interpreter@), dofile@, error@, not_found, opt_texts(*dirs)),
{
    let name = interpreter[0].as_str();
    assert(texts(interpreter@)[0] == name@);
    let end = cat(error, "\n");
    let tail = cat3(dofile, "), and spawning it failed:\n\n  ", end.as_str());
    let command = cat3(join_with(interpreter, " ").as_str(), " ", tail.as_str());
    let which = cat3(name, "' (full command: ", command.as_str());
    let head = cat3(
        "cannot run do-file ",
        dofile,
        "\n\nredo-msh does not execute do-files directly: every do-file is run by an\ninterpreter ('msh' by default, or whatever redo.toml configures). Here that\ninterpreter is '",
    );
    let tried = cat(head.as_str(), which.as_str());
    if !not_found {
        return tried;
    }
    let listed = match dirs {
        None => "  (PATH is not set)\n".to_owned(),
        Some(d) => {
            let mut text = String::new();
            assert(text@ =~= dir_lines(texts(d@).take(0)));
            for i in 0..d.len()
                invariant
                    text@ == dir_lines(texts(d@).take(i as int)),
            {
                assert(texts(d@).take(i + 1).drop_last() =~= texts(d@).take(i as int));
                assert(texts(d@).take(i + 1).last() == d@[i as int]@);
                let line = cat3("  ", d[i].as_str(), "\n");
                text.append(line.as_str());
            }
            assert(texts(d@).take(d.len() as int) =~= texts(d@));
            text
        },
    };
    let fix = cat(
        name,
        "' and make sure its directory is on PATH, or set a\ndifferent interpreter in redo.toml at the project root.",
    );
    let rest = cat3(listed.as_str(), "\nTo fix: install '", fix.as_str());
    let missing = cat3(
        "\n'",
        name,
        "' was not found in any directory on PATH. PATH as used for this spawn:\n",
    );
    cat3(tried.as_str(), missing.as_str(), rest.as_str())
}

/// The edge that a build starts with for a do-file that is absent.
spec fn absence(target: Seq<char>, a: Seq<char>) -> DepView {
    dep_view(target, DepKind::IfCreate, Some(a), None)
}

spec fn absences(target: Seq<char>, absent: Seq<Seq<char>>) -> Seq<OpView> {
    absent.map_values(|a: Seq<char>| OpView::RecordDep(absence(target, a)))
}

/// What is recorded once absences were: nothing but them and what there was, and all that was
/// of another kind or another target.
proof fn lemma_absences_hold(st: StoreView, target: Seq<char>, absent: Seq<Seq<char>>, d: DepView)
    ensures
        applied_all(st, absences(target, absent)).files == st.files,
        applied_all(st, absences(target, absent)).deps.contains(d) ==> st.deps.contains(d) || (
        d.kind is IfCreate && d.target == target && d.dep is Some && absent.contains(d.dep->0)),
        st.deps.contains(d) && (!(d.kind is IfCreate) || lower(d.target) != lower(target))
            ==> applied_all(st, absences(target, absent)).deps.contains(d),
    decreases absent.len(),
{
    let list = absences(target, absent);
    if absent.len() > 0 {
        let front = absent.drop_last();
        let x = absent.last();
        assert(list.drop_last() =~= absences(target, front));
        assert(list.last() == OpView::RecordDep(absence(target, x)));
        lemma_absences_hold(st, target, front, d);
        let before = applied_all(st, absences(target, front));
        crate::db::lemma_record_holds(before, absence(target, x), d);
        assert(absent[absent.len() - 1] == x);
        if d.dep is Some && front.contains(d.dep->0) {
            let j = choose|j: int| 0 <= j < front.len() && front[j] == d.dep->0;
            assert(absent[j] == d.dep->0);
        }
    } else {
        assert(list =~= Seq::<OpView>::empty());
    }
}

/// Each absence is recorded, or one on the same name in another casing.
proof fn lemma_absence_found(
    st: StoreView,
    target: Seq<char>,
    absent: Seq<Seq<char>>,
    i: int,
) -> (j: int)
    requires
        0 <= i < absent.len(),
    ensures
        0 <= j < absent.len(),
        lower(absent[j]) == lower(absent[i]),
        applied_all(st, absences(target, absent)).deps.contains(absence(target, absent[j])),
    decreases absent.len(),
{
    let list = absences(target, absent);
    let front = absent.drop_last();
    let n = absent.len() - 1;
    let x = absent[n];
    assert(list.drop_last() =~= absences(target, front));
    assert(list.last() == OpView::RecordDep(absence(target, x)));
    let before = applied_all(st, absences(target, front));
    if lower(absent[i]) == lower(x) {
        crate::db::lemma_record_holds(before, absence(target, x), absence(target, x));
        n
    } else {
        let j = lemma_absence_found(st, target, front, i);
        assert(front[i] == absent[i] && front[j] == absent[j]);
        crate::db::lemma_record_holds(before, absence(target, x), absence(target, absent[j]));
        j
    }
}

/// What is recorded once a build of a target started.
proof fn lemma_begun(
    st: StoreView,
    target: Seq<char>,
    dofile: Seq<char>,
    stamp: Option<StampView>,
    absent: Seq<Seq<char>>,
    d: DepView,
) -> (s3: StoreView)
    ensures
        applied_all(st, begin_changes(target, dofile, stamp, absent)) == applied_all(
            s3,
            absences(target, absent),
        ),
        s3.files == st.files,
        s3.deps.contains(d) <==> d == dep_view(target, DepKind::DoFile, Some(dofile), stamp) || d
            == dep_view(target, DepKind::Uncommitted, None, None) || (st.deps.contains(d) && lower(
            d.target,
        ) != lower(target)),
{
    let clear = OpView::ClearDeps { target };
    let marker = dep_view(target, DepKind::Uncommitted, None, None);
    let rule = dep_view(target, DepKind::DoFile, Some(dofile), stamp);
    let rest = absences(target, absent);
    let head = seq![clear, OpView::RecordDep(marker), OpView::RecordDep(rule)];
    let list = begin_changes(target, dofile, stamp, absent);
    assert(list =~= head + rest);
    lemma_applied_concat(st, head, rest);
    assert(head.drop_last() =~= seq![clear, OpView::RecordDep(marker)]);
    assert(head.drop_last().drop_last() =~= seq![clear]);
    assert(seq![clear].drop_last() =~= Seq::<OpView>::empty());
    reveal_with_fuel(applied_all, 4);
    let s1 = applied(st, clear);
    let s2 = applied(s1, OpView::RecordDep(marker));
    let s3 = applied(s2, OpView::RecordDep(rule));
    assert(applied_all(st, head) == s3);
    crate::db::law_forgetting_is_for_one_target(st, target, d);
    crate::db::lemma_record_holds(s1, marker, d);
    crate::db::lemma_record_holds(s2, rule, d);
    s3
}

/// A build starts from a clean slate: whatever a store holds, after the changes that start a
/// build of a target its edges are the marker, one on its do-file with the do-file's checksum,
/// and one on the absence of each do-file that would have been preferred; it has no other. The
/// edges of other targets, and all files, are as they were.
pub proof fn law_build_starts_with_its_rule(
    st: StoreView,
    target: Seq<char>,
    dofile: Seq<char>,
    stamp: Option<StampView>,
    absent: Seq<Seq<char>>,
    other: Seq<char>,
)
    ensures
        ({
            let done = applied_all(st, begin_changes(target, dofile, stamp, absent));
            let mine = deps_of(done.deps, target);
            &&& exists|i: int| 0 <= i < mine.len() && (#[trigger] mine[i]).kind is Uncommitted
            &&& exists|i: int|
                0 <= i < mine.len() && (#[trigger] mine[i]).kind is DoFile && mine[i].dep == Some(
                    dofile,
                ) && mine[i].csum == (match stamp {
                    Some(s) => Some(s.csum),
                    None => None,
                })
            &&& forall|k: int|
                0 <= k < absent.len() ==> exists|i: int|
                    0 <= i < mine.len() && (#[trigger] mine[i]).kind is IfCreate && mine[i].dep
                        is Some && lower(mine[i].dep->0) == lower(#[trigger] absent[k])
            &&& forall|i: int|
                0 <= i < mine.len() ==> match (#[trigger] mine[i]).kind {
                    DepKind::Uncommitted => mine[i].dep is None,
                    DepKind::DoFile => mine[i].dep == Some(dofile),
                    DepKind::IfCreate => mine[i].dep is Some && absent.contains(mine[i].dep->0),
                    _ => false,
                }
            &&& done.files == st.files
            &&& lower(other) != lower(target) ==> forall|d: DepView| #[trigger]
                deps_of(done.deps, other).contains(d) <==> deps_of(st.deps, other).contains(d)
        }),
{
    let marker = dep_view(target, DepKind::Uncommitted, None, None);
    let rule = dep_view(target, DepKind::DoFile, Some(dofile), stamp);
    let done = applied_all(st, begin_changes(target, dofile, stamp, absent));
    let mine = deps_of(done.deps, target);
    let s3 = lemma_begun(st, target, dofile, stamp, absent, marker);
    lemma_absences_hold(s3, target, absent, marker);
    crate::db::lemma_deps_of_holds(done.deps, target, marker);
    let m = choose|m: int| 0 <= m < mine.len() && mine[m] == marker;
    assert(mine[m].kind is Uncommitted);
    let s3 = lemma_begun(st, target, dofile, stamp, absent, rule);
    lemma_absences_hold(s3, target, absent, rule);
    crate::db::lemma_deps_of_holds(done.deps, target, rule);
    let n = choose|n: int| 0 <= n < mine.len() && mine[n] == rule;
    assert(mine[n].kind is DoFile);
    assert forall|k: int| 0 <= k < absent.len() implies exists|i: int|
        0 <= i < mine.len() && (#[trigger] mine[i]).kind is IfCreate && mine[i].dep is Some
            && lower(mine[i].dep->0) == lower(#[trigger] absent[k]) by {
        let j = lemma_absence_found(s3, target, absent, k);
        let x = absence(target, absent[j]);
        crate::db::lemma_deps_of_holds(done.deps, target, x);
        let i = choose|i: int| 0 <= i < mine.len() && mine[i] == x;
        assert(mine[i].kind is IfCreate);
    }
    assert forall|i: int| 0 <= i < mine.len() implies match (#[trigger] mine[i]).kind {
        DepKind::Uncommitted => mine[i].dep is None,
        DepKind::DoFile => mine[i].dep == Some(dofile),
        DepKind::IfCreate => mine[i].dep is Some && absent.contains(mine[i].dep->0),
        _ => false,
    } by {
        let d = mine[i];
        assert(mine.contains(d));
        crate::db::lemma_deps_of_holds(done.deps, target, d);
        let s = lemma_begun(st, target, dofile, stamp, absent, d);
        lemma_absences_hold(s, target, absent, d);
    }
    if lower(other) != lower(target) {
        assert forall|d: DepView| #[trigger] deps_of(done.deps, other).contains(d) <==> deps_of(
            st.deps,
            other,
        ).contains(d) by {
            crate::db::lemma_deps_of_holds(done.deps, other, d);
            crate::db::lemma_deps_of_holds(st.deps, other, d);
            let s = lemma_begun(st, target, dofile, stamp, absent, d);
            lemma_absences_hold(s, target, absent, d);
        }
    }
}

/// A preferred do-file that appears makes its targets out of date: once a build that found a
/// do-file absent has started, and also once it has committed, the target is out of date as
/// soon as that do-file exists. So does a do-file that has another checksum than the one the
/// target was built by.
pub proof fn law_better_rule_invalidates(
    st: StoreView,
    target: Seq<char>,
    dofile: Seq<char>,
    stamp: Option<StampView>,
    absent: Seq<Seq<char>>,
    at: i64,
    output: Option<StampView>,
    session: i64,
    k: int,
)
    requires
        0 <= k < absent.len(),
    ensures
        ({
            let begun = applied_all(st, begin_changes(target, dofile, stamp, absent));
            let done = applied_all(
                begun,
                commit_changes(target, dofile, at, output, session),
            );
            let mine = deps_of(done.deps, target);
            &&& exists|i: int|
                0 <= i < mine.len() && (#[trigger] mine[i]).dep is Some && lower(mine[i].dep->0)
                    == lower(absent[k]) && forall|now: Seq<crate::outdated::Now>|
                    now.len() == mine.len() && (#[trigger] now[i]).exists
                        ==> crate::outdated::outdated(
                        file_row(done.files, target),
                        true,
                        mine,
                        now,
                    )
            &&& exists|i: int|
                0 <= i < mine.len() && (#[trigger] mine[i]).dep == Some(dofile) && forall|
                    now: Seq<crate::outdated::Now>,
                |
                    now.len() == mine.len() && crate::text::opt((#[trigger] now[i]).csum) != (
                    match stamp {
                        Some(s) => Some(s.csum),
                        None => None,
                    }) ==> crate::outdated::outdated(
                        file_row(done.files, target),
                        true,
                        mine,
                        now,
                    )
        }),
{
    let begun = applied_all(st, begin_changes(target, dofile, stamp, absent));
    let up = OpView::UpsertFile(file_view(target, Some(dofile), Some(at), output, session));
    let drop = OpView::DropMarker { target };
    let list = commit_changes(target, dofile, at, output, session);
    assert(list.drop_last() =~= seq![up]);
    assert(seq![up].drop_last() =~= Seq::<OpView>::empty());
    reveal_with_fuel(applied_all, 3);
    let mid = applied(begun, up);
    let done = applied_all(begun, list);
    assert(done == applied(mid, drop));
    let mine = deps_of(done.deps, target);
    let early = deps_of(begun.deps, target);
    law_build_starts_with_its_rule(st, target, dofile, stamp, absent, target);
    assert forall|d: DepView|
        early.contains(d) && !(d.kind is Uncommitted) implies #[trigger] mine.contains(d) by {
        crate::db::lemma_deps_of_holds(begun.deps, target, d);
        crate::db::lemma_deps_of_holds(done.deps, target, d);
        lemma_filter_holds(
            mid.deps,
            |d: DepView| !(same_name(d.target, target) && d.kind is Uncommitted),
        );
    }
    let a = choose|i: int|
        0 <= i < early.len() && (#[trigger] early[i]).kind is IfCreate && early[i].dep is Some
            && lower(early[i].dep->0) == lower(absent[k]);
    assert(early.contains(early[a]));
    assert(mine.contains(early[a]));
    let i = choose|i: int| 0 <= i < mine.len() && mine[i] == early[a];
    assert forall|now: Seq<crate::outdated::Now>|
        now.len() == mine.len() && (#[trigger] now[i]).exists implies crate::outdated::outdated(
        file_row(done.files, target),
        true,
        mine,
        now,
    ) by {
        crate::outdated::law_change_means_outdated(
            file_row(done.files, target),
            true,
            mine,
            now,
            i,
        );
    }
    let b = choose|j: int|
        0 <= j < early.len() && (#[trigger] early[j]).kind is DoFile && early[j].dep == Some(dofile)
            && early[j].csum == (match stamp {
            Some(s) => Some(s.csum),
            None => None,
        });
    assert(early.contains(early[b]));
    assert(mine.contains(early[b]));
    let j = choose|j: int| 0 <= j < mine.len() && mine[j] == early[b];
    assert forall|now: Seq<crate::outdated::Now>|
        now.len() == mine.len() && crate::text::opt((#[trigger] now[j]).csum) != (match stamp {
            Some(s) => Some(s.csum),
            None => None,
        }) implies crate::outdated::outdated(file_row(done.files, target), true, mine, now) by {
        crate::outdated::law_change_means_outdated(
            file_row(done.files, target),
            true,
            mine,
            now,
            j,
        );
    }
}

/// A commit records the output and nothing less than the build found: the row of the target
/// has its do-file, the time, the run and the output's stamp; every edge but the marker is
/// kept, and so are the rows of other files.
pub proof fn law_commit_keeps_what_was_found(
    st: StoreView,
    target: Seq<char>,
    dofile: Seq<char>,
    now: i64,
    stamp: Option<StampView>,
    session: i64,
    d: DepView,
    other: Seq<char>,
)
    ensures
        ({
            let done = applied_all(st, commit_changes(target, dofile, now, stamp, session));
            &&& file_row(done.files, target) matches Some(f) && f.dofile == Some(dofile)
                && f.built_at == Some(now) && f.runid == Some(session) && f.csum == (match stamp {
                Some(s) => Some(s.csum),
                None => None,
            })
            &&& done.deps.contains(d) <==> st.deps.contains(d) && !(lower(d.target) == lower(target)
                && d.kind is Uncommitted)
            &&& lower(other) != lower(target) ==> file_row(done.files, other) == file_row(
                st.files,
                other,
            )
        }),
{
    let row = file_view(target, Some(dofile), Some(now), stamp, session);
    let up = OpView::UpsertFile(row);
    let drop = OpView::DropMarker { target };
    let list = commit_changes(target, dofile, now, stamp, session);
    assert(list.drop_last() =~= seq![up]);
    assert(seq![up].drop_last() =~= Seq::<OpView>::empty());
    reveal_with_fuel(applied_all, 3);
    crate::db::law_upsert_then_read(st, row, target);
    crate::db::law_upsert_then_read(st, row, other);
    let mid = applied(st, up);
    assert(applied_all(st, list) == applied(mid, drop));
    lemma_filter_holds(
        mid.deps,
        |d: DepView| !(same_name(d.target, target) && d.kind is Uncommitted),
    );
}

/// A do-file's output is taken from where it was put, and only if it kept the rules: it exits
/// with 0, writes to one of `$3` and standard output, and does not touch the target. Nothing is
/// committed of a run that broke one.
pub proof fn law_runs_are_judged(target: Seq<char>, ran: Ran)
    ensures
        judged(target, ran) == Ok::<Output, ErrorView>(Output::Temp) ==> ran.temp_exists
            && ran.captured == 0,
        judged(target, ran) == Ok::<Output, ErrorView>(Output::Captured) ==> !ran.temp_exists
            && ran.captured > 0,
        judged(target, ran) == Ok::<Output, ErrorView>(Output::Phony) ==> !ran.temp_exists
            && ran.captured == 0,
        judged(target, ran) is Ok ==> ran.code == Some(0i32),
        // A target that was not there and is, or whose time changed, was touched.
        ran.before is None && ran.after is Some && !ran.after->0.dir ==> judged(target, ran)
            == Err::<Output, ErrorView>(ErrorView::ModifiedDirectly { target }),
        ran.before is Some && ran.after is Some && !ran.after->0.dir && ran.before->0.modified
            != ran.after->0.modified ==> judged(target, ran) == Err::<Output, ErrorView>(
            ErrorView::ModifiedDirectly { target },
        ),
        // One that is gone, a directory, or as it was, is not held against the do-file.
        ran.after is None || ran.after->0.dir || (ran.before is Some && ran.before->0.modified
            == ran.after->0.modified) ==> !(judged(target, ran) matches Err(
            ErrorView::ModifiedDirectly { .. },
        )),
        judged(target, ran) matches Err(ErrorView::Failed { code, .. }) ==> code == ran.code
            && ran.code != Some(0i32),
        judged(target, ran) matches Err(ErrorView::BothOutputs { .. }) ==> ran.temp_exists
            && ran.captured > 0,
        ran.code != Some(0i32) ==> judged(target, ran) is Err,
        ran.temp_exists && ran.captured > 0 ==> judged(target, ran) is Err,
        // A run that kept the rules is good.
        ran.before == ran.after && ran.code == Some(0i32) && !(ran.temp_exists && ran.captured > 0)
            ==> judged(target, ran) is Ok,
        forall|t: Seq<char>| #[trigger] judged(t, ran) is Ok ==> judged(t, ran) == judged(
            target,
            ran,
        ),
{
}

/// A build that would run inside itself is refused, under every casing of its name, with the
/// way that leads there; and only that one, or one that is nested too deep.
pub proof fn law_no_build_inside_itself(chain: Seq<Seq<char>>, target: Seq<char>, i: int)
    ensures
        0 <= i < chain.len() && lower(chain[i]) == lower(target) ==> start_fault(chain, target)
            == Some(ErrorView::Cycle { path: chain, target }),
        start_fault(chain, target) is None ==> chain.len() < 64,
        chain.len() < 64 && (forall|k: int|
            0 <= k < chain.len() ==> lower(#[trigger] chain[k]) != lower(target)) ==> start_fault(
            chain,
            target,
        ) is None,
        start_fault(chain, target) matches Some(ErrorView::TooDeep { .. }) ==> chain.len()
            >= 64,
{
    if 0 <= i < chain.len() && lower(chain[i]) == lower(target) {
        assert(same_name(chain[i], target));
    }
}

/// What building a target comes to follows from what is there: a do-file runs only if there is
/// one; a file that redo did not make is left alone unless it was named or has a do-file of its
/// own; what was named is built if there is any way; nothing at all is an error.
pub proof fn law_plans_follow_the_facts(f: Facts)
    ensures
        plan_for(f) is Run ==> f.any_dofile,
        plan_for(f) is NoRule ==> !f.any_dofile && !f.exists,
        plan_for(f) is Static ==> f.exists || f.exists_as_file,
        f.exists_as_file && !f.generated && !f.exact_dofile && !f.force ==> plan_for(f) is Static,
        f.any_dofile && (f.force || f.generated || f.exact_dofile || !f.exists_as_file)
            ==> plan_for(f) is Run,
        !f.any_dofile && f.exists ==> plan_for(f) is Static,
        !f.any_dofile && !f.exists && !f.exists_as_file ==> plan_for(f) is NoRule,
{
}

/// A target that settled in this session is not built again in it, unless it is forced; one
/// that settled in another, or never, is.
pub proof fn law_settled_targets_rest(runid: Option<i64>, session: i64)
    ensures
        needed(true, runid, session),
        !needed(false, Some(session), session),
        needed(false, None, session),
        runid is Some && runid->0 != session ==> needed(false, runid, session),
{
}

/// The name of a temporary file holds nothing that could lead elsewhere: letters and digits
/// are kept, and all else is made harmless.
pub proof fn law_safe_names(c: char)
    ensures
        safe_char(c) != '/' && safe_char(c) != '\\' && safe_char(c) != '.',
        ('a' <= c && c <= 'z') || ('A' <= c && c <= 'Z') || ('0' <= c && c <= '9') ==> safe_char(c)
            == c,
        !(('a' <= c && c <= 'z') || ('A' <= c && c <= 'Z') || ('0' <= c && c <= '9'))
            ==> safe_char(c) == '_',
{
}

}
