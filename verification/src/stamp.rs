//! File stamps for change detection.
//!
//! A stamp is `(mtime, size, csum)`. Equality is **always** decided by `csum`,
//! the blake3 hash of the contents; `mtime` and `size` only decide whether a
//! file must be hashed again.

use vstd::prelude::*;

verus! {

/// The checksum that stands for a directory; directories are not hashed.
pub const DIR_CSUM: &'static str = "<dir>";

/// The blake3 hash of some bytes, in lower-case hexadecimal.
pub uninterp spec fn blake3_hex(data: Seq<u8>) -> Seq<char>;

/// Whether a character is a lower-case hexadecimal digit.
pub open spec fn is_hexit(c: char) -> bool {
    ('0' <= c && c <= '9') || ('a' <= c && c <= 'f')
}

/// Calls `blake3::hash` and `blake3::Hash::to_hex`. The result is a function of
/// the bytes alone, named [`blake3_hex`]: 64 lower-case hexadecimal digits.
#[verifier::external_body]
fn blake3_text(data: &[u8]) -> (s: String)
    ensures
        s@ == blake3_hex(data@),
        s@.len() == 64,
        forall|i: int| 0 <= i < s@.len() ==> is_hexit(#[trigger] s@[i]),
{
    blake3::hash(data).to_hex().to_string()
}

/// The blake3 hash of some bytes, in hexadecimal.
pub fn hash_bytes(data: &[u8]) -> (s: String)
    ensures
        s@ == blake3_hex(data@),
        s@.len() == 64,
        forall|i: int| 0 <= i < s@.len() ==> is_hexit(#[trigger] s@[i]),
{
    blake3_text(data)
}

/// The incremental hasher of `blake3`, which Verus sees nothing of.
#[verifier::external_type_specification]
#[verifier::external_body]
pub struct ExHasher(blake3::Hasher);

/// The bytes that a hasher took in, in order.
pub uninterp spec fn absorbed(h: blake3::Hasher) -> Seq<u8>;

/// Whether a hasher computes the plain hash: it is one that `Hasher::new` made, without
/// a key or an offset.
pub uninterp spec fn is_unkeyed(h: blake3::Hasher) -> bool;

/// Calls `blake3::Hasher::new`: a hasher for the plain hash that took in nothing.
#[verifier::external_body]
fn new_hasher() -> (h: blake3::Hasher)
    ensures
        is_unkeyed(h),
        absorbed(h) == Seq::<u8>::empty(),
{
    blake3::Hasher::new()
}

/// Calls `blake3::Hasher::update`: it takes in the bytes after those that it has. A
/// hasher counts what it took in with 64 bits.
#[verifier::external_body]
fn add_bytes(h: &mut blake3::Hasher, data: &[u8])
    requires
        is_unkeyed(*old(h)),
        absorbed(*old(h)).len() + data.len() <= u64::MAX,
    ensures
        is_unkeyed(*final(h)),
        absorbed(*final(h)) == absorbed(*old(h)) + data@,
{
    h.update(data);
}

/// Calls `blake3::Hasher::finalize` and `blake3::Hash::to_hex`: the hash of all that a
/// hasher took in is that of `blake3::hash`, named [`blake3_hex`].
#[verifier::external_body]
fn hasher_text(h: &blake3::Hasher) -> (s: String)
    requires
        is_unkeyed(*h),
    ensures
        s@ == blake3_hex(absorbed(*h)),
        s@.len() == 64,
        forall|i: int| 0 <= i < s@.len() ==> is_hexit(#[trigger] s@[i]),
{
    h.finalize().to_hex().to_string()
}

/// The hash of a file whose contents come piece by piece.
pub struct FileHash {
    hasher: blake3::Hasher,
    len: u64,
}

impl View for FileHash {
    type V = Seq<u8>;

    /// The contents so far.
    closed spec fn view(&self) -> Seq<u8> {
        absorbed(self.hasher)
    }
}

impl FileHash {
    /// Well-formed: the hasher is one for the plain hash, and its bytes are counted.
    pub closed spec fn wf(&self) -> bool {
        is_unkeyed(self.hasher) && self.len == absorbed(self.hasher).len()
    }

    /// The hash of no contents yet.
    pub fn new() -> (r: FileHash)
        ensures
            r.wf(),
            r@ == Seq::<u8>::empty(),
    {
        FileHash { hasher: new_hasher(), len: 0 }
    }

    /// The next piece of the contents. `false` if the file would be longer than any file
    /// can be: the piece is left out.
    pub fn update(&mut self, data: &[u8]) -> (ok: bool)
        requires
            old(self).wf(),
        ensures
            final(self).wf(),
            ok == (old(self)@.len() + data.len() <= u64::MAX),
            final(self)@ == if ok {
                old(self)@ + data@
            } else {
                old(self)@
            },
    {
        let more = data.len() as u64;
        match self.len.checked_add(more) {
            Some(n) => {
                add_bytes(&mut self.hasher, data);
                self.len = n;
                true
            },
            None => false,
        }
    }

    /// The blake3 hash of the contents, in hexadecimal.
    pub fn hex(&self) -> (s: String)
        requires
            self.wf(),
        ensures
            s@ == blake3_hex(self@),
            s@.len() == 64,
            forall|i: int| 0 <= i < s@.len() ==> is_hexit(#[trigger] s@[i]),
    {
        hasher_text(&self.hasher)
    }
}

/// What a file was like when it was looked at.
#[derive(Debug, Clone, PartialEq, Eq)]
pub struct Stamp {
    /// Modification time in unix nanoseconds.
    pub mtime: i64,
    /// Size in bytes.
    pub size: i64,
    /// Content hash. The equality basis.
    pub csum: String,
}

/// A stamp, as a mathematical value.
pub struct StampView {
    pub mtime: i64,
    pub size: i64,
    pub csum: Seq<char>,
}

impl View for Stamp {
    type V = StampView;

    open spec fn view(&self) -> StampView {
        StampView { mtime: self.mtime, size: self.size, csum: self.csum@ }
    }
}

impl Stamp {
    /// The same stamp again.
    pub fn copy(&self) -> (r: Stamp)
        ensures
            r@ == self@,
    {
        Stamp { mtime: self.mtime, size: self.size, csum: self.csum.clone() }
    }
}

/// What a look at a path found. Symbolic links are followed: what counts is
/// the file they lead to.
pub enum Found {
    Missing,
    Dir { mtime: i64 },
    File { mtime: i64, len: u64, data: Vec<u8> },
}

/// The stamp of what was found; a directory has a checksum of its own kind.
pub open spec fn stamp_of(found: Found) -> Option<StampView> {
    match found {
        Found::Missing => None,
        Found::Dir { mtime } => Some(StampView { mtime, size: 0, csum: DIR_CSUM@ }),
        Found::File { mtime, len, data } => Some(
            StampView { mtime, size: len as i64, csum: blake3_hex(data@) },
        ),
    }
}

/// A modification time as unix nanoseconds, given the time since the epoch, if
/// it is known and not before it.
pub fn mtime_nanos(since_epoch: Option<u128>) -> (r: i64)
    ensures
        r == match since_epoch {
            Some(n) => n as i64,
            None => 0,
        },
{
    match since_epoch {
        Some(n) => #[verifier::truncate] (n as i64),
        None => 0,
    }
}

/// Full stamp of a path. `None` if there is nothing there.
pub fn stamp_file(found: &Found) -> (r: Option<Stamp>)
    ensures
        match r {
            Some(s) => stamp_of(*found) == Some(s@),
            None => stamp_of(*found) is None,
        },
{
    match found {
        Found::Missing => None,
        Found::Dir { mtime } => Some(
            Stamp { mtime: *mtime, size: 0, csum: DIR_CSUM.to_owned() },
        ),
        Found::File { mtime, len, data } => Some(
            file_stamp(*mtime, *len, hash_bytes(data.as_slice())),
        ),
    }
}

/// The stamp of a file with the given hash.
pub fn file_stamp(mtime: i64, len: u64, hash: String) -> (r: Stamp)
    ensures
        r@ == (StampView { mtime, size: len as i64, csum: hash@ }),
{
    Stamp { mtime, size: #[verifier::truncate] (len as i64), csum: hash }
}

/// A directory never has the checksum of a file: directories and files are
/// told apart by their stamps.
pub proof fn law_dir_is_no_hash(s: Seq<char>)
    requires
        forall|i: int| 0 <= i < s.len() ==> is_hexit(#[trigger] s[i]),
    ensures
        s != DIR_CSUM@,
{
    reveal_strlit("<dir>");
    assert(DIR_CSUM@[0] == '<');
    if s == DIR_CSUM@ {
        assert(is_hexit(s[0]));
    }
}

/// A stamp is of the content: there is one for whatever is there and none for what is not, the
/// checksum is that of the bytes alone, whenever they were written, and all directories have the
/// same one.
pub proof fn law_checksum_is_of_the_content(a: Found, b: Found)
    ensures
        stamp_of(a) is None <==> a is Missing,
        a is File && b is File && a->data@ == b->data@ ==> stamp_of(a)->0.csum == stamp_of(
            b,
        )->0.csum,
        a is File ==> stamp_of(a)->0.csum == blake3_hex(a->data@),
        a is File ==> stamp_of(a)->0.mtime == a->File_mtime && stamp_of(a)->0.size == a->len as i64,
        a is Dir && b is Dir ==> stamp_of(a)->0.csum == stamp_of(b)->0.csum,
        a is Dir ==> stamp_of(a)->0.mtime == a->Dir_mtime,
{
}

}
