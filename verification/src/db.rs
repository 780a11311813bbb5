//! The build state: what redo knows about files and dependencies.
//!
//! * `files`: one row per file, sources and targets alike. Equality is always
//!   by `csum`; `mtime` and `size` only decide whether a file must be hashed
//!   again.
//! * `deps`: dependency edges. The `csum` recorded here is the equality basis
//!   for change detection.
//! * the build counter, which is independent of any clock.
//!
//! Paths are compared up to ASCII letter case, so a file has one row whatever
//! case it is written in; the stored text keeps the case it was written with.
//!
//! Changes are values: a build decides on a list of [`DbOp`]s, which are applied
//! together.

use crate::stamp::{Stamp, StampView};
use crate::text::{copy_opt, lower, opt, same_folded};
use crate::seqs::{
    lemma_filter_all, lemma_filter_holds, lemma_filter_step, lemma_filter_swap,
};
use vstd::prelude::*;

verus! {

/// The version of the schema.
pub const SCHEMA_VERSION: i64 = 2;

/// Dependency edge kinds.
#[derive(Debug, Clone, Copy, PartialEq, Eq, Structural)]
pub enum DepKind {
    /// The target depends on the content of a file.
    IfChange,
    /// The target depends on a path not existing.
    IfCreate,
    /// The target is always out of date.
    Always,
    /// The target was built by this do-file.
    DoFile,
    /// A build of the target started and has not committed.
    Uncommitted,
}

impl DepKind {
    /// The number under which a kind is stored.
    pub open spec fn code(self) -> i64 {
        match self {
            DepKind::IfChange => 0,
            DepKind::IfCreate => 1,
            DepKind::Always => 2,
            DepKind::DoFile => 3,
            DepKind::Uncommitted => 4,
        }
    }

    /// The number under which a kind is stored.
    pub fn to_i64(self) -> (v: i64)
        ensures
            v == self.code(),
    {
        match self {
            DepKind::IfChange => 0,
            DepKind::IfCreate => 1,
            DepKind::Always => 2,
            DepKind::DoFile => 3,
            DepKind::Uncommitted => 4,
        }
    }

    /// The kind that is stored under a number; numbers that stand for none are
    /// ignored.
    pub fn from_i64(v: i64) -> (r: Option<DepKind>)
        ensures
            match r {
                Some(k) => k.code() == v,
                None => forall|k: DepKind| #[trigger] k.code() != v,
            },
    {
        match v {
            0 => Some(DepKind::IfChange),
            1 => Some(DepKind::IfCreate),
            2 => Some(DepKind::Always),
            3 => Some(DepKind::DoFile),
            4 => Some(DepKind::Uncommitted),
            _ => None,
        }
    }
}

/// A dependency edge.
#[derive(Debug, Clone, PartialEq, Eq)]
pub struct DepRow {
    /// The dependent target.
    pub target: String,
    pub kind: DepKind,
    /// The dependency, for the kinds that have one.
    pub dep: Option<String>,
    /// Its content hash at build time.
    pub csum: Option<String>,
    pub mtime: Option<i64>,
    pub size: Option<i64>,
}

/// A dependency edge, as a mathematical value.
pub struct DepView {
    pub target: Seq<char>,
    pub kind: DepKind,
    pub dep: Option<Seq<char>>,
    pub csum: Option<Seq<char>>,
    pub mtime: Option<i64>,
    pub size: Option<i64>,
}

impl View for DepRow {
    type V = DepView;

    open spec fn view(&self) -> DepView {
        DepView {
            target: self.target@,
            kind: self.kind,
            dep: opt(self.dep),
            csum: opt(self.csum),
            mtime: self.mtime,
            size: self.size,
        }
    }
}

/// What is known about a file.
#[derive(Debug, Clone, PartialEq, Eq)]
pub struct FileRow {
    pub path: String,
    /// The do-file that built it; none for a source.
    pub dofile: Option<String>,
    /// When it was last built.
    pub built_at: Option<i64>,
    pub mtime: Option<i64>,
    pub size: Option<i64>,
    /// Its content hash; none for a target without output.
    pub csum: Option<String>,
    /// The run in which it was last verified or built.
    pub runid: Option<i64>,
}

/// What is known about a file, as a mathematical value.
pub struct FileView {
    pub path: Seq<char>,
    pub dofile: Option<Seq<char>>,
    pub built_at: Option<i64>,
    pub mtime: Option<i64>,
    pub size: Option<i64>,
    pub csum: Option<Seq<char>>,
    pub runid: Option<i64>,
}

impl View for FileRow {
    type V = FileView;

    open spec fn view(&self) -> FileView {
        FileView {
            path: self.path@,
            dofile: opt(self.dofile),
            built_at: self.built_at,
            mtime: self.mtime,
            size: self.size,
            csum: opt(self.csum),
            runid: self.runid,
        }
    }
}

/// The parts of an optional stamp, as they are stored.
pub open spec fn dep_view(
    target: Seq<char>,
    kind: DepKind,
    dep: Option<Seq<char>>,
    stamp: Option<StampView>,
) -> DepView {
    DepView {
        target,
        kind,
        dep,
        csum: match stamp {
            Some(s) => Some(s.csum),
            None => None,
        },
        mtime: match stamp {
            Some(s) => Some(s.mtime),
            None => None,
        },
        size: match stamp {
            Some(s) => Some(s.size),
            None => None,
        },
    }
}

/// A file row made of its parts.
pub open spec fn file_view(
    path: Seq<char>,
    dofile: Option<Seq<char>>,
    built_at: Option<i64>,
    stamp: Option<StampView>,
    runid: i64,
) -> FileView {
    FileView {
        path,
        dofile,
        built_at,
        mtime: match stamp {
            Some(s) => Some(s.mtime),
            None => None,
        },
        size: match stamp {
            Some(s) => Some(s.size),
            None => None,
        },
        csum: match stamp {
            Some(s) => Some(s.csum),
            None => None,
        },
        runid: Some(runid),
    }
}

/// The view of an optional stamp.
pub open spec fn stamp_view(s: Option<Stamp>) -> Option<StampView> {
    match s {
        Some(s) => Some(s@),
        None => None,
    }
}

impl DepRow {
    /// An edge made of its parts.
    pub fn new(target: &str, kind: DepKind, dep: Option<String>, stamp: &Option<Stamp>) -> (r: DepRow)
        ensures
            r@ == dep_view(target@, kind, opt(dep), stamp_view(*stamp)),
    {
        let (csum, mtime, size) = match stamp {
            Some(s) => (Some(s.csum.clone()), Some(s.mtime), Some(s.size)),
            None => (None, None, None),
        };
        DepRow { target: target.to_owned(), kind, dep, csum, mtime, size }
    }

    /// The same edge again.
    pub fn copy(&self) -> (r: DepRow)
        ensures
            r@ == self@,
    {
        DepRow {
            target: self.target.clone(),
            kind: self.kind,
            dep: copy_opt(&self.dep),
            csum: copy_opt(&self.csum),
            mtime: self.mtime,
            size: self.size,
        }
    }
}

impl FileRow {
    /// A row made of its parts.
    pub fn new(
        path: &str,
        dofile: Option<String>,
        built_at: Option<i64>,
        stamp: &Option<Stamp>,
        runid: i64,
    ) -> (r: FileRow)
        ensures
            r@ == file_view(path@, opt(dofile), built_at, stamp_view(*stamp), runid),
    {
        let (csum, mtime, size) = match stamp {
            Some(s) => (Some(s.csum.clone()), Some(s.mtime), Some(s.size)),
            None => (None, None, None),
        };
        FileRow { path: path.to_owned(), dofile, built_at, mtime, size, csum, runid: Some(runid) }
    }

    /// The same row again.
    pub fn copy(&self) -> (r: FileRow)
        ensures
            r@ == self@,
    {
        FileRow {
            path: self.path.clone(),
            dofile: copy_opt(&self.dofile),
            built_at: self.built_at,
            mtime: self.mtime,
            size: self.size,
            csum: copy_opt(&self.csum),
            runid: self.runid,
        }
    }
}

/// One change of the build state.
#[derive(Debug, Clone, PartialEq, Eq)]
pub enum DbOp {
    /// Forget every edge of a target.
    ClearDeps { target: String },
    /// Record an edge, in place of one of the same target, kind and dependency.
    RecordDep(DepRow),
    /// Forget that a build of the target has not committed.
    DropMarker { target: String },
    /// Record a file, in place of the row it had.
    UpsertFile(FileRow),
    /// Refresh the stamp of a file that has a row.
    RefreshStamp { path: String, stamp: Stamp },
    /// Record the run in which a file that has a row was verified.
    SetRunid { path: String, runid: i64 },
}

/// A change, as a mathematical value.
pub enum OpView {
    ClearDeps { target: Seq<char> },
    RecordDep(DepView),
    DropMarker { target: Seq<char> },
    UpsertFile(FileView),
    RefreshStamp { path: Seq<char>, stamp: StampView },
    SetRunid { path: Seq<char>, runid: i64 },
}

impl View for DbOp {
    type V = OpView;

    open spec fn view(&self) -> OpView {
        match self {
            DbOp::ClearDeps { target } => OpView::ClearDeps { target: target@ },
            DbOp::RecordDep(r) => OpView::RecordDep(r@),
            DbOp::DropMarker { target } => OpView::DropMarker { target: target@ },
            DbOp::UpsertFile(r) => OpView::UpsertFile(r@),
            DbOp::RefreshStamp { path, stamp } => OpView::RefreshStamp {
                path: path@,
                stamp: stamp@,
            },
            DbOp::SetRunid { path, runid } => OpView::SetRunid { path: path@, runid: *runid },
        }
    }
}

/// The views of a list of changes.
pub open spec fn ops(v: Seq<DbOp>) -> Seq<OpView> {
    v.map_values(|o: DbOp| o@)
}

/// The build state, as a mathematical value.
#[verifier::ext_equal]
pub struct StoreView {
    pub files: Seq<FileView>,
    pub deps: Seq<DepView>,
    pub runid: int,
}

/// Whether two names denote one file.
pub open spec fn same_name(a: Seq<char>, b: Seq<char>) -> bool {
    lower(a) == lower(b)
}

/// Whether an edge would take the place of another: the same target, kind and
/// dependency. Edges without a dependency never clash.
pub open spec fn clashes(a: DepView, b: DepView) -> bool {
    &&& same_name(a.target, b.target)
    &&& a.kind == b.kind
    &&& a.dep is Some && b.dep is Some && same_name(a.dep->0, b.dep->0)
}

/// A row with its stamp refreshed if it is that of `path`.
pub open spec fn refreshed(f: FileView, path: Seq<char>, stamp: StampView) -> FileView {
    if same_name(f.path, path) {
        FileView {
            mtime: Some(stamp.mtime),
            size: Some(stamp.size),
            csum: Some(stamp.csum),
            ..f
        }
    } else {
        f
    }
}

/// A row with its run set if it is that of `path`.
pub open spec fn marked_run(f: FileView, path: Seq<char>, runid: i64) -> FileView {
    if same_name(f.path, path) {
        FileView { runid: Some(runid), ..f }
    } else {
        f
    }
}

/// The state after a change.
pub open spec fn applied(st: StoreView, op: OpView) -> StoreView {
    match op {
        OpView::ClearDeps { target } => StoreView {
            deps: st.deps.filter(|d: DepView| !same_name(d.target, target)),
            ..st
        },
        OpView::RecordDep(r) => StoreView {
            deps: st.deps.filter(|d: DepView| !clashes(d, r)).push(r),
            ..st
        },
        OpView::DropMarker { target } => StoreView {
            deps: st.deps.filter(
                |d: DepView| !(same_name(d.target, target) && d.kind is Uncommitted),
            ),
            ..st
        },
        OpView::UpsertFile(r) => StoreView {
            files: st.files.filter(|f: FileView| !same_name(f.path, r.path)).push(r),
            ..st
        },
        OpView::RefreshStamp { path, stamp } => StoreView {
            files: st.files.map_values(|f: FileView| refreshed(f, path, stamp)),
            ..st
        },
        OpView::SetRunid { path, runid } => StoreView {
            files: st.files.map_values(|f: FileView| marked_run(f, path, runid)),
            ..st
        },
    }
}

/// The state after a list of changes.
pub open spec fn applied_all(st: StoreView, list: Seq<OpView>) -> StoreView
    decreases list.len(),
{
    if list.len() == 0 {
        st
    } else {
        applied(applied_all(st, list.drop_last()), list.last())
    }
}

/// The row of a file.
pub open spec fn file_row(files: Seq<FileView>, path: Seq<char>) -> Option<FileView>
    decreases files.len(),
{
    if files.len() == 0 {
        None
    } else if same_name(files.last().path, path) {
        Some(files.last())
    } else {
        file_row(files.drop_last(), path)
    }
}

/// The edges of a target.
pub open spec fn deps_of(deps: Seq<DepView>, target: Seq<char>) -> Seq<DepView> {
    deps.filter(|d: DepView| same_name(d.target, target))
}

/// Whether no file has two rows.
pub open spec fn keyed_files(files: Seq<FileView>) -> bool {
    forall|i: int, j: int|
        0 <= i < j < files.len() ==> !same_name(
            (#[trigger] files[i]).path,
            (#[trigger] files[j]).path,
        )
}

/// The views of a list of file rows.
pub open spec fn file_views(v: Seq<FileRow>) -> Seq<FileView> {
    v.map_values(|f: FileRow| f@)
}

/// The views of a list of edges.
pub open spec fn dep_views(v: Seq<DepRow>) -> Seq<DepView> {
    v.map_values(|d: DepRow| d@)
}

/// The build state.
#[derive(Debug, Clone, PartialEq, Eq)]
pub struct Store {
    pub files: Vec<FileRow>,
    pub deps: Vec<DepRow>,
    pub runid: i64,
}

impl View for Store {
    type V = StoreView;

    open spec fn view(&self) -> StoreView {
        StoreView {
            files: file_views(self.files@),
            deps: dep_views(self.deps@),
            runid: self.runid as int,
        }
    }
}

fn clash(a: &DepRow, b: &DepRow) -> (r: bool)
    ensures
        r == clashes(a@, b@),
{
    if !same_folded(a.target.as_str(), b.target.as_str()) || a.kind != b.kind {
        return false;
    }
    match (&a.dep, &b.dep) {
        (Some(x), Some(y)) => same_folded(x.as_str(), y.as_str()),
        _ => false,
    }
}

impl Store {
    /// The state of a project that was never built.
    pub fn new() -> (s: Store)
        ensures
            s@ == (StoreView { files: Seq::empty(), deps: Seq::empty(), runid: 0 }),
    {
        let s = Store { files: Vec::new(), deps: Vec::new(), runid: 0 };
        assert(file_views(s.files@) =~= Seq::<FileView>::empty());
        assert(dep_views(s.deps@) =~= Seq::<DepView>::empty());
        s
    }

    /// Well-formed: no file has two rows.
    pub open spec fn wf(&self) -> bool {
        keyed_files(self@.files)
    }

    /// Increment and return the build counter.
    pub fn next_runid(&mut self) -> (r: i64)
        requires
            old(self).runid < i64::MAX,
        ensures
            r == old(self).runid + 1,
            final(self)@ == (StoreView { runid: r as int, ..old(self)@ }),
            final(self).files == old(self).files,
    {
        self.runid = self.runid + 1;
        self.runid
    }

    /// Keep the edges that do not belong to a target, or with `marker` that are
    /// not its marker.
    fn drop_deps(&mut self, target: &str, marker: bool)
        ensures
            final(self)@ == applied(
                old(self)@,
                if marker {
                    OpView::DropMarker { target: target@ }
                } else {
                    OpView::ClearDeps { target: target@ }
                },
            ),
            final(self).files == old(self).files,
    {
        let ghost all = dep_views(self.deps@);
        let ghost p = if marker {
            |d: DepView| !(same_name(d.target, target@) && d.kind is Uncommitted)
        } else {
            |d: DepView| !same_name(d.target, target@)
        };
        let mut kept: Vec<DepRow> = Vec::new();
        assert(all.take(0).filter(p) =~= Seq::<DepView>::empty()) by {
            reveal(Seq::filter);
        }
        for i in 0..self.deps.len()
            invariant
                all == dep_views(self.deps@),
                p == if marker {
                    |d: DepView| !(same_name(d.target, target@) && d.kind is Uncommitted)
                } else {
                    |d: DepView| !same_name(d.target, target@)
                },
                dep_views(kept@) == all.take(i as int).filter(p),
        {
            let d = &self.deps[i];
            let ghost before = dep_views(kept@);
            proof {
                lemma_filter_step(all, i as int, p);
                assert(all[i as int] == d@);
            }
            let mine = same_folded(d.target.as_str(), target);
            let gone = mine && (!marker || d.kind == DepKind::Uncommitted);
            if !gone {
                kept.push(d.copy());
                assert(dep_views(kept@) =~= before.push(d@));
            }
        }
        assert(all.take(all.len() as int) =~= all);
        self.deps = kept;
    }

    /// Apply one change.
    pub fn apply(&mut self, op: &DbOp)
        ensures
            final(self)@ == applied(old(self)@, op@),
    {
        match op {
            DbOp::ClearDeps { target } => self.drop_deps(target.as_str(), false),
            DbOp::DropMarker { target } => self.drop_deps(target.as_str(), true),
            DbOp::RecordDep(row) => self.record_dep(row),
            DbOp::UpsertFile(row) => self.upsert_file(row),
            DbOp::RefreshStamp { path, stamp } => self.refresh_stamp(path.as_str(), stamp),
            DbOp::SetRunid { path, runid } => self.set_runid(path.as_str(), *runid),
        }
    }

    /// Apply a list of changes.
    pub fn apply_all(&mut self, list: &[DbOp])
        ensures
            final(self)@ == applied_all(old(self)@, ops(list@)),
    {
        let ghost start = self@;
        for i in 0..list.len()
            invariant
                self@ == applied_all(start, ops(list@).take(i as int)),
        {
            self.apply(&list[i]);
            assert(ops(list@).take(i + 1).drop_last() =~= ops(list@).take(i as int));
            assert(ops(list@).take(i + 1).last() == list@[i as int]@);
        }
        assert(ops(list@).take(list.len() as int) =~= ops(list@));
    }

    /// Record an edge, in place of one of the same target, kind and dependency.
    pub fn record_dep(&mut self, row: &DepRow)
        ensures
            final(self)@ == applied(old(self)@, OpView::RecordDep(row@)),
            final(self).files == old(self).files,
    {
        let ghost all = dep_views(self.deps@);
        let ghost p = |d: DepView| !clashes(d, row@);
        let mut kept: Vec<DepRow> = Vec::new();
        assert(all.take(0).filter(p) =~= Seq::<DepView>::empty()) by {
            reveal(Seq::filter);
        }
        for i in 0..self.deps.len()
            invariant
                all == dep_views(self.deps@),
                p == (|d: DepView| !clashes(d, row@)),
                dep_views(kept@) == all.take(i as int).filter(p),
        {
            let d = &self.deps[i];
            let ghost before = dep_views(kept@);
            proof {
                lemma_filter_step(all, i as int, p);
                assert(all[i as int] == d@);
            }
            if !clash(d, row) {
                kept.push(d.copy());
                assert(dep_views(kept@) =~= before.push(d@));
            }
        }
        assert(all.take(all.len() as int) =~= all);
        let ghost most = dep_views(kept@);
        kept.push(row.copy());
        assert(dep_views(kept@) =~= most.push(row@));
        self.deps = kept;
    }

    /// Record a file, in place of the row it had.
    pub fn upsert_file(&mut self, row: &FileRow)
        ensures
            final(self)@ == applied(old(self)@, OpView::UpsertFile(row@)),
    {
        let ghost all = file_views(self.files@);
        let ghost p = |f: FileView| !same_name(f.path, row@.path);
        let mut kept: Vec<FileRow> = Vec::new();
        assert(all.take(0).filter(p) =~= Seq::<FileView>::empty()) by {
            reveal(Seq::filter);
        }
        for i in 0..self.files.len()
            invariant
                all == file_views(self.files@),
                p == (|f: FileView| !same_name(f.path, row@.path)),
                file_views(kept@) == all.take(i as int).filter(p),
        {
            let f = &self.files[i];
            let ghost before = file_views(kept@);
            proof {
                lemma_filter_step(all, i as int, p);
                assert(all[i as int] == f@);
            }
            if !same_folded(f.path.as_str(), row.path.as_str()) {
                kept.push(f.copy());
                assert(file_views(kept@) =~= before.push(f@));
            }
        }
        assert(all.take(all.len() as int) =~= all);
        let ghost most = file_views(kept@);
        kept.push(row.copy());
        assert(file_views(kept@) =~= most.push(row@));
        self.files = kept;
    }

    /// Refresh the stamp of a file that has a row.
    pub fn refresh_stamp(&mut self, path: &str, stamp: &Stamp)
        ensures
            final(self)@ == applied(
                old(self)@,
                OpView::RefreshStamp { path: path@, stamp: stamp@ },
            ),
    {
        let ghost all = file_views(self.files@);
        let ghost want = all.map_values(|f: FileView| refreshed(f, path@, stamp@));
        let mut out: Vec<FileRow> = Vec::new();
        for i in 0..self.files.len()
            invariant
                all == file_views(self.files@),
                want == all.map_values(|f: FileView| refreshed(f, path@, stamp@)),
                file_views(out@) == want.take(i as int),
        {
            let ghost before = file_views(out@);
            let mut f = self.files[i].copy();
            assert(f@ == all[i as int]);
            if same_folded(f.path.as_str(), path) {
                f.mtime = Some(stamp.mtime);
                f.size = Some(stamp.size);
                f.csum = Some(stamp.csum.clone());
            }
            assert(f@ == want[i as int]);
            out.push(f);
            assert(file_views(out@) =~= before.push(want[i as int]));
        }
        assert(want.take(want.len() as int) =~= want);
        self.files = out;
    }

    /// Record the run in which a file that has a row was verified.
    pub fn set_runid(&mut self, path: &str, runid: i64)
        ensures
            final(self)@ == applied(old(self)@, OpView::SetRunid { path: path@, runid }),
    {
        let ghost all = file_views(self.files@);
        let ghost want = all.map_values(|f: FileView| marked_run(f, path@, runid));
        let mut out: Vec<FileRow> = Vec::new();
        for i in 0..self.files.len()
            invariant
                all == file_views(self.files@),
                want == all.map_values(|f: FileView| marked_run(f, path@, runid)),
                file_views(out@) == want.take(i as int),
        {
            let ghost before = file_views(out@);
            let mut f = self.files[i].copy();
            assert(f@ == all[i as int]);
            if same_folded(f.path.as_str(), path) {
                f.runid = Some(runid);
            }
            assert(f@ == want[i as int]);
            out.push(f);
            assert(file_views(out@) =~= before.push(want[i as int]));
        }
        assert(want.take(want.len() as int) =~= want);
        self.files = out;
    }

    /// The row of a file.
    pub fn file(&self, path: &str) -> (r: Option<FileRow>)
        ensures
            match r {
                Some(f) => file_row(self@.files, path@) == Some(f@),
                None => file_row(self@.files, path@) is None,
            },
    {
        let ghost all = self@.files;
        let mut i: usize = self.files.len();
        assert(all.take(i as int) =~= all);
        while i > 0
            invariant
                i <= self.files.len(),
                all == self@.files,
                file_row(all, path@) == file_row(all.take(i as int), path@),
            decreases i,
        {
            let f = &self.files[i - 1];
            assert(all.take(i as int).last() == f@);
            assert(all.take(i as int).drop_last() =~= all.take(i - 1));
            if same_folded(f.path.as_str(), path) {
                return Some(f.copy());
            }
            i = i - 1;
        }
        None
    }

    /// Whether redo has ever generated this file: it has a row with a do-file.
    pub fn is_generated(&self, path: &str) -> (r: bool)
        ensures
            r == generated(self@.files, path@),
    {
        match self.file(path) {
            Some(f) => f.dofile.is_some(),
            None => false,
        }
    }

    /// The run in which a file was last verified or built.
    pub fn file_runid(&self, path: &str) -> (r: Option<i64>)
        ensures
            r == match file_row(self@.files, path@) {
                Some(f) => f.runid,
                None => None,
            },
    {
        match self.file(path) {
            Some(f) => f.runid,
            None => None,
        }
    }

    /// The recorded checksum of a file that has a row; `Some(None)` for a target
    /// without output.
    pub fn files_row(&self, path: &str) -> (r: Option<Option<String>>)
        ensures
            match r {
                Some(c) => file_row(self@.files, path@) matches Some(f) && f.csum == opt(c),
                None => file_row(self@.files, path@) is None,
            },
    {
        match self.file(path) {
            Some(f) => Some(f.csum),
            None => None,
        }
    }

    /// The cached stamp of a file, if it is complete.
    pub fn files_stamp(&self, path: &str) -> (r: Option<Stamp>)
        ensures
            stamp_view(r) == cached_stamp(self@.files, path@),
    {
        match self.file(path) {
            Some(f) => match (f.mtime, f.size, f.csum) {
                (Some(mtime), Some(size), Some(csum)) => Some(Stamp { mtime, size, csum }),
                _ => None,
            },
            None => None,
        }
    }

    /// When a target was last built.
    pub fn files_built_at(&self, path: &str) -> (r: Option<i64>)
        ensures
            r == match file_row(self@.files, path@) {
                Some(f) => f.built_at,
                None => None,
            },
    {
        match self.file(path) {
            Some(f) => f.built_at,
            None => None,
        }
    }

    /// All edges of a target.
    pub fn read_deps(&self, target: &str) -> (out: Vec<DepRow>)
        ensures
            dep_views(out@) == deps_of(self@.deps, target@),
    {
        let ghost all = self@.deps;
        let ghost p = |d: DepView| same_name(d.target, target@);
        let mut out: Vec<DepRow> = Vec::new();
        assert(all.take(0).filter(p) =~= Seq::<DepView>::empty()) by {
            reveal(Seq::filter);
        }
        for i in 0..self.deps.len()
            invariant
                all == self@.deps,
                p == (|d: DepView| same_name(d.target, target@)),
                dep_views(out@) == all.take(i as int).filter(p),
        {
            let d = &self.deps[i];
            let ghost before = dep_views(out@);
            proof {
                lemma_filter_step(all, i as int, p);
                assert(all[i as int] == d@);
            }
            if same_folded(d.target.as_str(), target) {
                out.push(d.copy());
                assert(dep_views(out@) =~= before.push(d@));
            }
        }
        assert(all.take(all.len() as int) =~= all);
        out
    }
}

/// Whether a file has a row with a do-file.
pub open spec fn generated(files: Seq<FileView>, path: Seq<char>) -> bool {
    file_row(files, path) matches Some(f) && f.dofile is Some
}

/// The cached stamp of a file, if it is complete.
pub open spec fn cached_stamp(files: Seq<FileView>, path: Seq<char>) -> Option<StampView> {
    match file_row(files, path) {
        Some(f) => if f.mtime is Some && f.size is Some && f.csum is Some {
            Some(StampView { mtime: f.mtime->0, size: f.size->0, csum: f.csum->0 })
        } else {
            None
        },
        None => None,
    }
}

/// Filtering keeps rows apart.
proof fn lemma_filter_keyed(files: Seq<FileView>, p: spec_fn(FileView) -> bool)
    requires
        keyed_files(files),
    ensures
        keyed_files(files.filter(p)),
    decreases files.len(),
{
    reveal(Seq::filter);
    if files.len() > 0 {
        let front = files.drop_last();
        assert forall|i: int, j: int| 0 <= i < j < front.len() implies !same_name(
            (#[trigger] front[i]).path,
            (#[trigger] front[j]).path,
        ) by {
            assert(front[i] == files[i] && front[j] == files[j]);
        }
        lemma_filter_keyed(front, p);
        lemma_filter_holds(front, p);
        let kept = front.filter(p);
        let out = files.filter(p);
        assert forall|i: int, j: int| 0 <= i < j < out.len() implies !same_name(
            (#[trigger] out[i]).path,
            (#[trigger] out[j]).path,
        ) by {
            if j < kept.len() {
                assert(out[i] == kept[i] && out[j] == kept[j]);
            } else {
                assert(out[i] == kept[i]);
                assert(kept.contains(kept[i]));
                let k = choose|k: int| 0 <= k < front.len() && front[k] == kept[i];
                assert(files[k] == front[k]);
                assert(out[j] == files[files.len() - 1]);
            }
        }
    }
}

/// Every change keeps one row per file.
pub proof fn law_changes_keep_rows_apart(st: StoreView, op: OpView)
    requires
        keyed_files(st.files),
    ensures
        keyed_files(applied(st, op).files),
{
    match op {
        OpView::UpsertFile(r) => {
            let p = |f: FileView| !same_name(f.path, r.path);
            let kept = st.files.filter(p);
            lemma_filter_keyed(st.files, p);
            lemma_filter_holds(st.files, p);
            let out = applied(st, op).files;
            assert(out == kept.push(r));
            assert forall|i: int, j: int| 0 <= i < j < out.len() implies !same_name(
                (#[trigger] out[i]).path,
                (#[trigger] out[j]).path,
            ) by {
                assert(kept.contains(kept[i]));
            }
        },
        OpView::RefreshStamp { path, stamp } => {
            let out = applied(st, op).files;
            assert forall|i: int, j: int| 0 <= i < j < out.len() implies !same_name(
                (#[trigger] out[i]).path,
                (#[trigger] out[j]).path,
            ) by {
                assert(!same_name(st.files[i].path, st.files[j].path));
            }
        },
        OpView::SetRunid { path, runid } => {
            let out = applied(st, op).files;
            assert forall|i: int, j: int| 0 <= i < j < out.len() implies !same_name(
                (#[trigger] out[i]).path,
                (#[trigger] out[j]).path,
            ) by {
                assert(!same_name(st.files[i].path, st.files[j].path));
            }
        },
        _ => {},
    }
}

/// A file whose rows were all filtered out has no row; filtering by other names
/// does not matter.
proof fn lemma_row_filtered(files: Seq<FileView>, gone: Seq<char>, path: Seq<char>)
    ensures
        file_row(files.filter(|f: FileView| !same_name(f.path, gone)), path) == if same_name(
            gone,
            path,
        ) {
            None
        } else {
            file_row(files, path)
        },
    decreases files.len(),
{
    reveal(Seq::filter);
    let p = |f: FileView| !same_name(f.path, gone);
    if files.len() > 0 {
        lemma_row_filtered(files.drop_last(), gone, path);
        let kept = files.drop_last().filter(p);
        if p(files.last()) {
            assert(files.filter(p) == kept.push(files.last()));
            assert(kept.push(files.last()).drop_last() =~= kept);
        }
    }
}

/// A recorded file is found under every casing of its name, with what was
/// recorded last; the other files keep their rows.
pub proof fn law_upsert_then_read(st: StoreView, r: FileView, path: Seq<char>)
    ensures
        file_row(applied(st, OpView::UpsertFile(r)).files, path) == if same_name(r.path, path) {
            Some(r)
        } else {
            file_row(st.files, path)
        },
{
    lemma_row_filtered(st.files, r.path, path);
    let kept = st.files.filter(|f: FileView| !same_name(f.path, r.path));
    assert(kept.push(r).drop_last() =~= kept);
}

/// A recorded edge is among the edges of its target, after those it did not take
/// the place of; the edges of other targets stay as they were.
pub proof fn law_record_then_read(st: StoreView, r: DepView, target: Seq<char>)
    ensures
        deps_of(applied(st, OpView::RecordDep(r)).deps, target) == if same_name(
            r.target,
            target,
        ) {
            deps_of(st.deps, target).filter(|d: DepView| !clashes(d, r)).push(r)
        } else {
            deps_of(st.deps, target)
        },
{
    reveal(Seq::filter);
    let p = |d: DepView| !clashes(d, r);
    let q = |d: DepView| same_name(d.target, target);
    let kept = st.deps.filter(p);
    let mine = st.deps.filter(q);
    lemma_filter_swap(st.deps, p, q);
    assert(kept.push(r).drop_last() =~= kept);
    assert(kept.push(r).filter(q) == if q(r) {
        kept.filter(q).push(r)
    } else {
        kept.filter(q)
    });
    if !same_name(r.target, target) {
        lemma_filter_holds(st.deps, q);
        assert forall|i: int| 0 <= i < mine.len() implies p(#[trigger] mine[i]) by {
            assert(mine.contains(mine[i]));
        }
        lemma_filter_all(mine, p);
    }
}

/// What is recorded after an edge was: the edge, and what it did not take the place of.
pub proof fn lemma_record_holds(st: StoreView, r: DepView, d: DepView)
    ensures
        applied(st, OpView::RecordDep(r)).deps.contains(d) <==> d == r || (st.deps.contains(d)
            && !clashes(d, r)),
{
    let p = |d: DepView| !clashes(d, r);
    lemma_filter_holds(st.deps, p);
    crate::seqs::lemma_push_contains(st.deps.filter(p), r, d);
}

/// An edge is one of a target's exactly if it is recorded under its name.
pub proof fn lemma_deps_of_holds(deps: Seq<DepView>, target: Seq<char>, d: DepView)
    ensures
        deps_of(deps, target).contains(d) <==> deps.contains(d) && same_name(d.target, target),
{
    lemma_filter_holds(deps, |d: DepView| same_name(d.target, target));
}

/// Names are told apart by their letters, not by their case: two names denote one file
/// exactly if they have the same characters up to the case of ASCII letters.
pub proof fn law_names_up_to_case(a: Seq<char>, b: Seq<char>)
    ensures
        same_name(a, b) <==> a.len() == b.len() && forall|i: int|
            0 <= i < a.len() ==> (#[trigger] a[i] == b[i] || ('A' <= a[i] && a[i] <= 'Z' && b[i] as int
                == a[i] as int + 32) || ('A' <= b[i] && b[i] <= 'Z' && a[i] as int == b[i] as int
                + 32)),
{
    let x = lower(a);
    let y = lower(b);
    if a.len() == b.len() {
        assert forall|i: int| 0 <= i < a.len() implies (x[i] == y[i] <==> (#[trigger] a[i] == b[i] || (
        'A' <= a[i] && a[i] <= 'Z' && b[i] as int == a[i] as int + 32) || ('A' <= b[i] && b[i]
            <= 'Z' && a[i] as int == b[i] as int + 32))) by {
            crate::text::lemma_lower_char(a[i]);
            crate::text::lemma_lower_char(b[i]);
        }
        if same_name(a, b) {
            assert forall|i: int| 0 <= i < a.len() implies (#[trigger] a[i] == b[i] || ('A' <= a[i]
                && a[i] <= 'Z' && b[i] as int == a[i] as int + 32) || ('A' <= b[i] && b[i] <= 'Z'
                && a[i] as int == b[i] as int + 32)) by {
                assert(x[i] == y[i]);
            }
        }
        if forall|i: int|
            0 <= i < a.len() ==> (#[trigger] a[i] == b[i] || ('A' <= a[i] && a[i] <= 'Z' && b[i] as int
                == a[i] as int + 32) || ('A' <= b[i] && b[i] <= 'Z' && a[i] as int == b[i] as int
                + 32)) {
            assert(x =~= y);
        }
    } else {
        assert(x.len() == a.len() && y.len() == b.len());
    }
}

/// Forgetting the edges of a target leaves it without any, and the other targets with
/// theirs; dropping its marker leaves it with all edges that are none.
pub proof fn law_forgetting_is_for_one_target(st: StoreView, target: Seq<char>, d: DepView)
    ensures
        applied(st, OpView::ClearDeps { target }).deps.contains(d) <==> st.deps.contains(d)
            && lower(d.target) != lower(target),
        applied(st, OpView::DropMarker { target }).deps.contains(d) <==> st.deps.contains(d) && !(
        lower(d.target) == lower(target) && d.kind is Uncommitted),
        applied(st, OpView::ClearDeps { target }).files == st.files,
        applied(st, OpView::DropMarker { target }).files == st.files,
{
    lemma_filter_holds(st.deps, |d: DepView| !same_name(d.target, target));
    lemma_filter_holds(
        st.deps,
        |d: DepView| !(same_name(d.target, target) && d.kind is Uncommitted),
    );
}

/// An edge takes the place only of one on the same dependency, of the same kind and the same
/// target, up to the case of names: every other edge is kept, and the files are.
pub proof fn law_recording_replaces_its_like(st: StoreView, r: DepView, d: DepView)
    ensures
        applied(st, OpView::RecordDep(r)).deps.contains(r),
        d != r ==> (applied(st, OpView::RecordDep(r)).deps.contains(d) <==> st.deps.contains(d)
            && !(lower(d.target) == lower(r.target) && d.kind == r.kind && d.dep is Some && r.dep
            is Some && lower(d.dep->0) == lower(r.dep->0))),
        applied(st, OpView::RecordDep(r)).files == st.files,
{
    lemma_record_holds(st, r, r);
    lemma_record_holds(st, r, d);
}

/// A refreshed stamp and a recorded run change these alone, and of one file alone.
pub proof fn law_rows_change_in_place(
    st: StoreView,
    path: Seq<char>,
    stamp: StampView,
    runid: i64,
    i: int,
)
    requires
        0 <= i < st.files.len(),
    ensures
        ({
            let old = st.files[i];
            let new = applied(st, OpView::RefreshStamp { path, stamp }).files;
            &&& new.len() == st.files.len()
            &&& new[i].path == old.path && new[i].dofile == old.dofile && new[i].built_at
                == old.built_at && new[i].runid == old.runid
            &&& lower(old.path) == lower(path) ==> new[i].mtime == Some(stamp.mtime)
                && new[i].size == Some(stamp.size) && new[i].csum == Some(stamp.csum)
            &&& lower(old.path) != lower(path) ==> new[i] == old
        }),
        ({
            let old = st.files[i];
            let new = applied(st, OpView::SetRunid { path, runid }).files;
            &&& new.len() == st.files.len()
            &&& new[i].path == old.path && new[i].dofile == old.dofile && new[i].built_at
                == old.built_at && new[i].csum == old.csum && new[i].mtime == old.mtime
                && new[i].size == old.size
            &&& lower(old.path) == lower(path) ==> new[i].runid == Some(runid)
            &&& lower(old.path) != lower(path) ==> new[i] == old
        }),
        applied(st, OpView::RefreshStamp { path, stamp }).deps == st.deps,
        applied(st, OpView::SetRunid { path, runid }).deps == st.deps,
{
}

/// A row and an edge hold the stamp they are made of, part by part, or none of it.
pub proof fn law_rows_hold_their_stamp(
    name: Seq<char>,
    kind: DepKind,
    other: Option<Seq<char>>,
    at: Option<i64>,
    stamp: Option<StampView>,
    runid: i64,
)
    ensures
        ({
            let d = dep_view(name, kind, other, stamp);
            &&& d.target == name && d.kind == kind && d.dep == other
            &&& stamp matches Some(s) ==> d.csum == Some(s.csum) && d.mtime == Some(s.mtime)
                && d.size == Some(s.size)
            &&& stamp is None ==> d.csum is None && d.mtime is None && d.size is None
        }),
        ({
            let f = file_view(name, other, at, stamp, runid);
            &&& f.path == name && f.dofile == other && f.built_at == at && f.runid == Some(runid)
            &&& stamp matches Some(s) ==> f.csum == Some(s.csum) && f.mtime == Some(s.mtime)
                && f.size == Some(s.size)
            &&& stamp is None ==> f.csum is None && f.mtime is None && f.size is None
        }),
{
}

/// Each kind of edge is stored under a number of its own.
pub proof fn law_kinds_have_numbers(a: DepKind, b: DepKind)
    ensures
        a.code() == b.code() ==> a == b,
        DepKind::IfChange.code() == 0 && DepKind::IfCreate.code() == 1 && DepKind::Always.code()
            == 2 && DepKind::DoFile.code() == 3,
{
}

/// The row of a file is one of the rows, under its name up to case; a file has none exactly
/// if no row is under its name.
pub proof fn law_row_is_found(files: Seq<FileView>, path: Seq<char>)
    ensures
        match file_row(files, path) {
            Some(f) => files.contains(f) && lower(f.path) == lower(path),
            None => forall|i: int|
                0 <= i < files.len() ==> lower((#[trigger] files[i]).path) != lower(path),
        },
    decreases files.len(),
{
    if files.len() > 0 {
        law_row_is_found(files.drop_last(), path);
        let n = files.len() - 1;
        assert(files.last() == files[n]);
        match file_row(files.drop_last(), path) {
            Some(f) => {
                let front = files.drop_last();
                let k = choose|k: int| 0 <= k < front.len() && front[k] == f;
                assert(files[k] == f);
            },
            None => {
                assert forall|i: int| 0 <= i < n implies lower((#[trigger] files[i]).path) != lower(
                    path,
                ) by {
                    assert(files.drop_last()[i] == files[i]);
                }
            },
        }
    }
}

/// A file that was recorded with a stamp has that stamp, under every casing of its name, until
/// it is recorded again; it counts as generated exactly if it was recorded with a do-file.
pub proof fn law_recorded_stamp_is_cached(
    st: StoreView,
    path: Seq<char>,
    dofile: Option<Seq<char>>,
    at: Option<i64>,
    stamp: Option<StampView>,
    runid: i64,
    name: Seq<char>,
)
    ensures
        ({
            let row = file_view(path, dofile, at, stamp, runid);
            let new = applied(st, OpView::UpsertFile(row)).files;
            &&& lower(path) == lower(name) ==> cached_stamp(new, name) == stamp
            &&& lower(path) == lower(name) ==> (generated(new, name) <==> dofile is Some)
            &&& lower(path) != lower(name) ==> cached_stamp(new, name) == cached_stamp(
                st.files,
                name,
            ) && generated(new, name) == generated(st.files, name)
        }),
        applied(
            st,
            OpView::UpsertFile(file_view(path, dofile, at, stamp, runid)),
        ).deps == st.deps,
{
    law_upsert_then_read(st, file_view(path, dofile, at, stamp, runid), name);
}

}
