//! Per-target build locks.
//!
//! Exactly one process builds a given target; the lock identity is the
//! *target*, so two independent runs serialize on shared targets. The kernel
//! releases a lock when the process that holds it dies, so a crashed build
//! leaves no stale lock. A free lock beside a log without its terminator
//! proves that the builder died.

use crate::paths::{is_name, Comp, FsPath};
use crate::root::{locks_dir_of, Root};
use crate::stamp::{blake3_hex, hash_bytes, is_hexit};
use crate::text::{cat, lower, occurs, piece, to_chars, to_lower};
use vstd::prelude::*;
use vstd::utf8::encode_utf8;

verus! {

/// The key of a target: the first half of the hash of its folded name.
pub open spec fn key_text(target: Seq<char>) -> Seq<char> {
    blake3_hex(encode_utf8(lower(target))).take(32)
}

/// The path of the lock file for a key.
pub open spec fn lock_file(root: Seq<Comp>, key: Seq<char>) -> Seq<Comp> {
    locks_dir_of(root).push(Comp::Normal(key + ".lock"@))
}

/// A filesystem-safe key derived from a root-relative target path. Case is
/// folded, so two casings of a target share one identity. This one key names
/// both the target's lock file and its log file.
pub fn target_key(target_rel: &str) -> (key: String)
    requires
        target_rel@.len() > 0,
    ensures
        key@ == key_text(target_rel@),
        key@.len() == 32,
        forall|i: int| 0 <= i < key@.len() ==> is_hexit(#[trigger] key@[i]),
{
    let folded = to_lower(target_rel);
    let hash = hash_bytes(folded.as_str().as_bytes());
    key_of_hash(hash.as_str())
}

/// The key that a hash gives: its first half.
pub fn key_of_hash(hash: &str) -> (key: String)
    requires
        hash@.len() >= 32,
    ensures
        key@ == hash@.take(32),
{
    let cs = to_chars(hash);
    let key = piece(cs.as_slice(), 0, 32);
    assert(key@ =~= hash@.take(32));
    key
}

/// The lock file of a target.
pub fn lock_path(root: &Root, target_rel: &str) -> (p: FsPath)
    requires
        target_rel@.len() > 0,
    ensures
        p@ == lock_file(root@, key_text(target_rel@)),
{
    lock_path_for_key(root, target_key(target_rel).as_str())
}

/// The lock file for a key.
pub fn lock_path_for_key(root: &Root, key: &str) -> (p: FsPath)
    ensures
        p@ == lock_file(root@, key@),
{
    root.locks_dir().child(cat(key, ".lock").as_str())
}

/// What probing a lock file found.
#[derive(Debug, Clone, Copy, PartialEq, Eq, Structural)]
pub enum Probe {
    /// There is no lock file.
    Missing,
    /// The lock file could not be opened for another reason.
    Unreadable,
    /// The lock was free: the probe won it.
    Free,
    /// The lock is held.
    Held,
}

/// Whether nobody holds the lock that was probed. A missing file has no
/// holder; where it cannot be told, the safe answer is that it is held.
pub fn probe_unlocked(probe: Probe) -> (r: bool)
    ensures
        r == (probe is Missing || probe is Free),
{
    match probe {
        Probe::Missing => true,
        Probe::Free => true,
        Probe::Unreadable => false,
        Probe::Held => false,
    }
}

/// Two casings of one target share one key.
pub proof fn law_key_folds_case(a: Seq<char>, b: Seq<char>)
    requires
        lower(a) == lower(b),
    ensures
        key_text(a) == key_text(b),
{
}

/// A name made of hexadecimal digits between fixed ends cannot leave its
/// directory, whatever the target it was derived from is called.
pub proof fn law_key_is_a_name(before: Seq<char>, key: Seq<char>, after: Seq<char>)
    requires
        key.len() == 32,
        forall|i: int| 0 <= i < key.len() ==> is_hexit(#[trigger] key[i]),
        !occurs(before, '/'),
        !occurs(after, '/'),
    ensures
        is_name(before + key + after),
{
    let s = before + key + after;
    if occurs(s, '/') {
        let k = choose|k: int| 0 <= k < s.len() && s[k] == '/';
        let a = before.len();
        if k < a {
            assert(before[k] == '/');
        } else if k < a + 32 {
            assert(is_hexit(key[k - a]));
        } else {
            assert(after[k - a - 32] == '/');
        }
    }
    assert(s.len() >= 32);
    assert(seq!['.'].len() == 1 && seq!['.', '.'].len() == 2);
}

/// The lock of a target lies in the lock directory of its root, under its key; so two targets
/// have one lock exactly if they have one key.
pub proof fn law_one_lock_per_key(root: Seq<Comp>, a: Seq<char>, b: Seq<char>)
    ensures
        lock_file(root, a) == lock_file(root, b) <==> a == b,
        lock_file(root, a) == root + seq![
            Comp::Normal(".redom"@),
            Comp::Normal("locks"@),
            Comp::Normal(a + ".lock"@),
        ],
{
    assert(lock_file(root, a) =~= root + seq![
        Comp::Normal(".redom"@),
        Comp::Normal("locks"@),
        Comp::Normal(a + ".lock"@),
    ]);
    assert(lock_file(root, a).last() == Comp::Normal(a + ".lock"@));
    assert(lock_file(root, b).last() == Comp::Normal(b + ".lock"@));
    if a + ".lock"@ == b + ".lock"@ {
        assert((a + ".lock"@).len() == (b + ".lock"@).len());
        assert((a + ".lock"@).take(a.len() as int) =~= a);
        assert((b + ".lock"@).take(b.len() as int) =~= b);
    }
}

}
