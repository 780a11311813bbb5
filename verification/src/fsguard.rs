//! Local-filesystem guard for the `.redom/` state directory.
//!
//! `.redom/` holds the database and the lock files. Neither works correctly
//! across machines, so it must live on a local disk; the working tree may live
//! anywhere. The filesystem under a path falls into one of three buckets:
//!
//! * `Local`: proceed;
//! * `Network`: a cross-machine filesystem, a hard error unless overridden;
//! * `Unknown`: it could not be determined, or a passthrough (9p, drvfs, fuse)
//!   as under WSL: warn but proceed.

use crate::text::cat3;
use vstd::prelude::*;

verus! {

/// What kind of filesystem backs a path.
#[derive(Debug, Clone, Copy, PartialEq, Eq, Structural)]
pub enum FsKind {
    Local,
    Network,
    Unknown,
}

const NFS_SUPER_MAGIC: i64 = 0x6969;

const SMB_SUPER_MAGIC: i64 = 0x517B;

const CIFS_MAGIC: i64 = 0xFF53_4D42;

const SMB2_MAGIC: i64 = 0xFE53_4D42;

const AFS_SUPER_MAGIC: i64 = 0x5346_414F;

const NCP_SUPER_MAGIC: i64 = 0x564C;

const V9FS_MAGIC: i64 = 0x0102_1997;

const FUSE_SUPER_MAGIC: i64 = 0x6573_5546;

const WSLFS_MAGIC: i64 = 0x5346_4846;

/// Whether a magic number is that of a cross-machine filesystem.
pub open spec fn is_network(f_type: i64) -> bool {
    f_type == 0x6969 || f_type == 0x517B || f_type == 0xFF53_4D42 || f_type == 0xFE53_4D42
        || f_type == 0x5346_414F || f_type == 0x564C
}

/// Whether a magic number is that of a passthrough filesystem.
pub open spec fn is_passthrough(f_type: i64) -> bool {
    f_type == 0x0102_1997 || f_type == 0x6573_5546 || f_type == 0x5346_4846
}

/// Classify a filesystem by its magic number; `None` if it could not be
/// determined.
pub fn classify(f_type: Option<i64>) -> (r: FsKind)
    ensures
        r == match f_type {
            None => FsKind::Unknown,
            Some(t) => if is_network(t) {
                FsKind::Network
            } else if is_passthrough(t) {
                FsKind::Unknown
            } else {
                FsKind::Local
            },
        },
{
    match f_type {
        None => FsKind::Unknown,
        Some(t) => {
            if t == NFS_SUPER_MAGIC || t == SMB_SUPER_MAGIC || t == CIFS_MAGIC || t == SMB2_MAGIC
                || t == AFS_SUPER_MAGIC || t == NCP_SUPER_MAGIC {
                FsKind::Network
            } else if t == V9FS_MAGIC || t == FUSE_SUPER_MAGIC || t == WSLFS_MAGIC {
                FsKind::Unknown
            } else {
                FsKind::Local
            }
        },
    }
}

/// What to do about the filesystem of the state directory.
#[derive(Debug, Clone, Copy, PartialEq, Eq, Structural)]
pub enum Verdict {
    /// Go on.
    Proceed,
    /// Warn that it may not be local, and go on.
    Warn,
    /// Refuse.
    Refuse,
}

/// Enforce the local-disk requirement: a network filesystem is refused unless
/// the override is set.
pub fn enforce_local(kind: FsKind, override_set: bool) -> (r: Verdict)
    ensures
        r is Proceed <==> kind is Local,
        r is Refuse <==> kind is Network && !override_set,
{
    match kind {
        FsKind::Local => Verdict::Proceed,
        FsKind::Unknown => Verdict::Warn,
        FsKind::Network => if override_set {
            Verdict::Warn
        } else {
            Verdict::Refuse
        },
    }
}

/// Whether the value of the override variable sets it.
pub fn override_is_set(value: Option<&str>) -> (r: bool)
    ensures
        r == (value is Some && value->0@ == "1"@),
{
    match value {
        Some(v) => crate::text::same(v, "1"),
        None => false,
    }
}

/// Why a state directory is refused, in words.
pub fn refusal(redo_dir: &str) -> (s: String)
    ensures
        s@ == "redo-msh: "@ + redo_dir@
            + " is on a network filesystem. The .redom/ state directory (SQLite WAL + advisory locks) must be on a local disk. Move the project, or set REDO_ALLOW_NETWORK_FS=1 to override at your own risk."@,
{
    cat3(
        "redo-msh: ",
        redo_dir,
        " is on a network filesystem. The .redom/ state directory (SQLite WAL + advisory locks) must be on a local disk. Move the project, or set REDO_ALLOW_NETWORK_FS=1 to override at your own risk.",
    )
}

/// The warning about an overridden refusal, in words.
pub fn warning(redo_dir: &str) -> (s: String)
    ensures
        s@ == "redo-msh: warning: "@ + redo_dir@
            + " appears to be on a network filesystem; proceeding because REDO_ALLOW_NETWORK_FS=1 (locking/WAL may be unreliable)"@,
{
    cat3(
        "redo-msh: warning: ",
        redo_dir,
        " appears to be on a network filesystem; proceeding because REDO_ALLOW_NETWORK_FS=1 (locking/WAL may be unreliable)",
    )
}

/// The file systems that reach across machines are refused, by the numbers under which Linux
/// knows NFS, SMB, CIFS, SMB2, AFS and NCP; those that pass through to another system (9P, FUSE,
/// and that of WSL) may be local or not; none is both.
pub proof fn law_known_filesystems(t: i64)
    ensures
        is_network(0x6969) && is_network(0x517B) && is_network(0xFF534D42) && is_network(
            0xFE534D42,
        ) && is_network(0x5346414F) && is_network(0x564C),
        is_passthrough(0x01021997) && is_passthrough(0x65735546) && is_passthrough(0x53464846),
        !(is_network(t) && is_passthrough(t)),
        // ext4, XFS, Btrfs, tmpfs and overlayfs are local.
        !is_network(0xEF53) && !is_network(0x58465342) && !is_network(0x9123683E) && !is_network(
            0x01021994,
        ) && !is_network(0x794C7630),
        !is_passthrough(0xEF53) && !is_passthrough(0x58465342) && !is_passthrough(0x9123683E)
            && !is_passthrough(0x01021994) && !is_passthrough(0x794C7630),
{
}

}
