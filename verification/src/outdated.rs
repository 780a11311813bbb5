//! Change detection: whether a target must be rebuilt.
//!
//! Content decides, never time: a recorded checksum is compared with the one
//! the file has now. A modification time and a size only save reading a file,
//! and only where they can be trusted to.

use crate::db::{deps_of, file_row, DbOp, DepKind, DepView, FileView, OpView, Store};
use crate::stamp::{blake3_hex, hash_bytes, Stamp, StampView, DIR_CSUM};
use crate::text::{opt, same_opt};
use vstd::prelude::*;

verus! {

/// Whether a match of time and size may be trusted to mean "unchanged" without
/// hashing: only when the time has sub-second precision, which proves that the
/// filesystem keeps it finely.
pub fn stat_is_trustworthy(mtime_nanos: i64) -> (r: bool)
    ensures
        r == fine(mtime_nanos),
{
    let m: i128 = mtime_nanos as i128;
    let n: i128 = if m < 0 {
        -m
    } else {
        m
    };
    proof {
        let k = m as int;
        assert(k % 1_000_000_000 == 0 <==> (-k) % 1_000_000_000 == 0);
    }
    n % 1_000_000_000 != 0
}

/// Whether a time in nanoseconds has sub-second precision.
pub open spec fn fine(mtime_nanos: i64) -> bool {
    (mtime_nanos as int) % 1_000_000_000 != 0
}

/// What a look at a path found, short of its contents.
#[derive(Debug, Clone, Copy, PartialEq, Eq, Structural)]
pub struct Meta {
    pub mtime: i64,
    pub len: u64,
    pub dir: bool,
}

impl Meta {
    /// The size that is recorded.
    pub open spec fn recorded_size(self) -> i64 {
        if self.dir {
            0
        } else {
            self.len as i64
        }
    }

    /// The size that is recorded.
    pub fn size(&self) -> (r: i64)
        ensures
            r == self.recorded_size(),
    {
        if self.dir {
            0
        } else {
            #[verifier::truncate]
            (self.len as i64)
        }
    }
}

/// How to learn the current checksum of a file.
#[derive(Debug, Clone, PartialEq, Eq)]
pub enum CsumStep {
    /// There is no such file.
    Missing,
    /// The recorded checksum still holds.
    Trusted(String),
    /// The file must be looked at.
    Read,
}

/// Whether a recorded stamp may stand for a file without looking at it.
pub open spec fn trusted(meta: Meta, cached: StampView) -> bool {
    cached.mtime == meta.mtime && cached.size == meta.recorded_size() && fine(meta.mtime)
}

/// The current checksum of a file by the guarded fast path: the recorded one if
/// time and size match and can be trusted; else the file must be looked at.
pub fn current_csum(meta: &Option<Meta>, cached: &Option<Stamp>) -> (r: CsumStep)
    ensures
        match *meta {
            None => r is Missing,
            Some(m) => match *cached {
                Some(c) => if trusted(m, c@) {
                    r matches CsumStep::Trusted(s) && s@ == c@.csum
                } else {
                    r is Read
                },
                None => r is Read,
            },
        },
{
    let m = match meta {
        None => return CsumStep::Missing,
        Some(m) => m,
    };
    if let Some(c) = cached {
        if c.mtime == m.mtime && c.size == m.size() && stat_is_trustworthy(m.mtime) {
            return CsumStep::Trusted(c.csum.clone());
        }
    }
    CsumStep::Read
}

/// The checksum of what was looked at.
pub open spec fn content_csum(meta: Meta, data: Seq<u8>) -> Seq<char> {
    if meta.dir {
        DIR_CSUM@
    } else {
        blake3_hex(data)
    }
}

/// The checksum of a file that was looked at, and the change that records it for
/// a file that is known.
pub fn fresh_csum(path: &str, meta: &Meta, data: &[u8]) -> (r: (String, DbOp))
    ensures
        r.0@ == content_csum(*meta, data@),
        r.1@ == (OpView::RefreshStamp {
            path: path@,
            stamp: StampView {
                mtime: meta.mtime,
                size: meta.recorded_size(),
                csum: content_csum(*meta, data@),
            },
        }),
{
    let hash = if meta.dir {
        String::new()
    } else {
        hash_bytes(data)
    };
    csum_with(path, meta, hash)
}

/// The checksum of a file that was looked at, given the hash of its contents, and
/// the change that records it for a file that is known. A directory's checksum is
/// of its own kind.
pub fn csum_with(path: &str, meta: &Meta, hash: String) -> (r: (String, DbOp))
    ensures
        ({
            let csum = if meta.dir {
                DIR_CSUM@
            } else {
                hash@
            };
            &&& r.0@ == csum
            &&& r.1@ == (OpView::RefreshStamp {
                path: path@,
                stamp: StampView { mtime: meta.mtime, size: meta.recorded_size(), csum },
            })
        }),
{
    let csum = if meta.dir {
        DIR_CSUM.to_owned()
    } else {
        hash
    };
    let op = DbOp::RefreshStamp {
        path: path.to_owned(),
        stamp: Stamp { mtime: meta.mtime, size: meta.size(), csum: csum.clone() },
    };
    (csum, op)
}

/// How a dependency is now.
#[derive(Debug, Clone, PartialEq, Eq)]
pub struct Now {
    pub exists: bool,
    pub csum: Option<String>,
}

/// Whether an edge tells that its target is out of date.
pub open spec fn edge_outdated(d: DepView, exists: bool, csum: Option<Seq<char>>) -> bool {
    match d.kind {
        DepKind::Always => true,
        DepKind::Uncommitted => true,
        DepKind::IfCreate => exists,
        DepKind::DoFile => csum != d.csum,
        DepKind::IfChange => csum != d.csum,
    }
}

/// Whether a target is out of date: it was never built, its output is gone, or
/// one of its edges tells so.
pub open spec fn outdated(
    row: Option<FileView>,
    exists: bool,
    deps: Seq<DepView>,
    now: Seq<Now>,
) -> bool {
    row is None || (row->0.csum is Some && !exists) || exists|i: int|
        0 <= i < deps.len() && edge_outdated(
            #[trigger] deps[i],
            now[i].exists,
            opt(now[i].csum),
        )
}

/// Read-only out-of-date check: compares what was recorded for a target with
/// how things are, without bringing anything up to date first. `now` tells how
/// the dependency of each of its edges is.
pub fn is_ood_static(store: &Store, target: &str, exists: bool, now: &[Now]) -> (r: bool)
    requires
        now.len() == deps_of(store@.deps, target@).len(),
    ensures
        r == outdated(
            file_row(store@.files, target@),
            exists,
            deps_of(store@.deps, target@),
            now@,
        ),
{
    match store.files_row(target) {
        None => return true,
        Some(csum) => {
            if csum.is_some() && !exists {
                return true;
            }
        },
    }
    let deps = store.read_deps(target);
    let ghost dv = deps_of(store@.deps, target@);
    assert(crate::db::dep_views(deps@) == dv);
    assert(deps.len() == dv.len());
    for i in 0..deps.len()
        invariant
            now.len() == deps.len(),
            deps.len() == dv.len(),
            dv == deps_of(store@.deps, target@),
            crate::db::dep_views(deps@) == dv,
            forall|k: int|
                0 <= k < i ==> !edge_outdated(
                    #[trigger] dv[k],
                    now@[k].exists,
                    opt(now@[k].csum),
                ),
    {
        let d = &deps[i];
        assert(dv[i as int] == d@);
        let bad = match d.kind {
            DepKind::Always => true,
            DepKind::Uncommitted => true,
            DepKind::IfCreate => now[i].exists,
            DepKind::DoFile => !same_opt(&now[i].csum, &d.csum),
            DepKind::IfChange => !same_opt(&now[i].csum, &d.csum),
        };
        if bad {
            assert(edge_outdated(dv[i as int], now@[i as int].exists, opt(now@[i as int].csum)));
            return true;
        }
    }
    false
}

/// Only content counts: as long as the files an edge speaks of keep their
/// content, and what must not exist does not, a target that was built and whose
/// output is there stays up to date, however often files are touched or rebuilt
/// to the same content.
pub proof fn law_same_content_is_up_to_date(
    row: FileView,
    deps: Seq<DepView>,
    now: Seq<Now>,
)
    requires
        now.len() == deps.len(),
        forall|i: int|
            0 <= i < deps.len() ==> match (#[trigger] deps[i]).kind {
                DepKind::IfChange => opt(now[i].csum) == deps[i].csum,
                DepKind::DoFile => opt(now[i].csum) == deps[i].csum,
                DepKind::IfCreate => !now[i].exists,
                _ => false,
            },
    ensures
        !outdated(Some(row), true, deps, now),
{
}

/// A target that asked to be built always, or whose last build did not commit,
/// is out of date whatever the files are like.
pub proof fn law_marker_means_outdated(
    row: Option<FileView>,
    exists: bool,
    deps: Seq<DepView>,
    now: Seq<Now>,
    i: int,
)
    requires
        0 <= i < deps.len(),
        deps[i].kind is Always || deps[i].kind is Uncommitted,
    ensures
        outdated(row, exists, deps, now),
{
    assert(edge_outdated(deps[i], now[i].exists, opt(now[i].csum)));
}

/// Every change is noticed: a target is out of date if it was never built, if its output is
/// gone, if the checksum of its do-file or of a dependency is not the recorded one, be it
/// because the file is gone, or if something is under a path that was to be absent.
pub proof fn law_change_means_outdated(
    row: Option<FileView>,
    exists: bool,
    deps: Seq<DepView>,
    now: Seq<Now>,
    i: int,
)
    requires
        now.len() == deps.len(),
        row is None || (row->0.csum is Some && !exists) || (0 <= i < deps.len() && ((deps[i].kind
            is DoFile && opt(now[i].csum) != deps[i].csum) || (deps[i].kind is IfChange && opt(
            now[i].csum,
        ) != deps[i].csum) || (deps[i].kind is IfCreate && now[i].exists))),
    ensures
        outdated(row, exists, deps, now),
{
    if row is Some && !(row->0.csum is Some && !exists) {
        assert(edge_outdated(deps[i], now[i].exists, opt(now[i].csum)));
    }
}

/// Only a change is reported: a target that is out of date was never built, lost its output,
/// carries a mark, or has an edge whose file is not as recorded.
pub proof fn law_outdated_for_a_reason(
    row: Option<FileView>,
    exists: bool,
    deps: Seq<DepView>,
    now: Seq<Now>,
)
    requires
        now.len() == deps.len(),
        outdated(row, exists, deps, now),
    ensures
        row is None || (row->0.csum is Some && !exists) || exists|i: int|
            0 <= i < deps.len() && match (#[trigger] deps[i]).kind {
                DepKind::IfCreate => now[i].exists,
                DepKind::DoFile => opt(now[i].csum) != deps[i].csum,
                DepKind::IfChange => opt(now[i].csum) != deps[i].csum,
                DepKind::Always => true,
                DepKind::Uncommitted => true,
            },
{
    if row is Some && !(row->0.csum is Some && !exists) {
        let i = choose|i: int|
            0 <= i < deps.len() && edge_outdated(
                #[trigger] deps[i],
                now[i].exists,
                opt(now[i].csum),
            );
        assert(0 <= i < deps.len());
    }
}

/// A recorded checksum stands for a file only if it cannot hide a change: the file must have
/// the recorded time and the recorded size, and the time must be finer than a second, which a
/// file system that counts whole seconds never gives. Of a directory only the time counts.
pub proof fn law_trust_is_earned(meta: Meta, cached: StampView)
    ensures
        trusted(meta, cached) ==> cached.mtime == meta.mtime,
        trusted(meta, cached) ==> meta.mtime as int % 1_000_000_000 != 0,
        trusted(meta, cached) && meta.dir ==> cached.size == 0,
        trusted(meta, cached) && !meta.dir && meta.len <= i64::MAX ==> cached.size == meta.len,
        cached.mtime == meta.mtime && meta.mtime as int % 1_000_000_000 != 0 && meta.dir
            && cached.size == 0 ==> trusted(meta, cached),
        cached.mtime == meta.mtime && meta.mtime as int % 1_000_000_000 != 0 && !meta.dir
            && cached.size == meta.len ==> trusted(meta, cached),
{
}

/// Two files are told apart by what is in them, and a directory from both: the checksum of a
/// file that is looked at depends on its contents alone, not on its time or its size.
pub proof fn law_content_is_the_checksum(a: Meta, b: Meta, data: Seq<u8>)
    requires
        !a.dir,
        !b.dir,
    ensures
        content_csum(a, data) == content_csum(b, data),
        content_csum(a, data) == blake3_hex(data),
        forall|d: Meta, x: Seq<u8>| d.dir ==> #[trigger] content_csum(d, x) == "<dir>"@,
{
}

}
