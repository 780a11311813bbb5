//! The build state, stamps, roots and filesystems.

use redo_msh::building::BuildError;
use redo_msh::db::{DbOp, DepKind, DepRow, FileRow, Store};
use redo_msh::fsguard::{
    classify, enforce_local, override_is_set, refusal, warning, FsKind, Verdict,
};
use redo_msh::lock::{key_of_hash, target_key};
use redo_msh::outdated::{
    csum_with, current_csum, fresh_csum, is_ood_static, stat_is_trustworthy, CsumStep, Meta, Now,
};
use redo_msh::paths::FsPath;
use redo_msh::root::{search_dirs, Mark, Root};
use redo_msh::stamp::{
    file_stamp, hash_bytes, mtime_nanos, stamp_file, FileHash, Found, Stamp, DIR_CSUM,
};
use redo_msh::tree::{roots, sources, targets};

fn bare(path: &str) -> FileRow {
    FileRow {
        path: path.into(),
        dofile: None,
        built_at: None,
        mtime: None,
        size: None,
        csum: None,
        runid: None,
    }
}

#[test]
fn paths_are_case_insensitive() {
    let mut s = Store::new();
    s.upsert_file(&bare("App.txt"));
    // A different-cased lookup matches.
    assert!(s.file("app.txt").is_some());

    // A different-cased insert collapses onto the same row.
    s.upsert_file(&bare("APP.TXT"));
    assert_eq!(s.files.len(), 1, "different casings must collapse to one row");

    // Original case is preserved in storage (for filesystem I/O).
    assert!(s.files[0].path.chars().any(|c| c.is_ascii_uppercase()));
}

#[test]
fn coarse_mtime_is_never_trusted() {
    // Whole-second mtimes (FAT-style coarse resolution) force a re-hash.
    assert!(!stat_is_trustworthy(0));
    assert!(!stat_is_trustworthy(1_700_000_000_000_000_000));
    // Sub-second precision proves a fine-resolution FS; stat may be trusted.
    assert!(stat_is_trustworthy(1_700_000_000_000_000_001));
    assert!(stat_is_trustworthy(1_700_000_000_123_456_789));
    assert!(!stat_is_trustworthy(-3_000_000_000));
    assert!(stat_is_trustworthy(-1));
}

#[test]
fn kinds_are_stored_as_numbers() {
    for (n, k) in [
        (0, DepKind::IfChange),
        (1, DepKind::IfCreate),
        (2, DepKind::Always),
        (3, DepKind::DoFile),
        (4, DepKind::Uncommitted),
    ] {
        assert_eq!(DepKind::from_i64(n), Some(k));
        assert_eq!(k.to_i64(), n);
    }
    assert_eq!(DepKind::from_i64(5), None);
    assert_eq!(DepKind::from_i64(-1), None);
}

#[test]
fn the_build_counter_counts() {
    let mut s = Store::new();
    assert_eq!(s.next_runid(), 1);
    assert_eq!(s.next_runid(), 2);
}

#[test]
fn edges_replace_their_like() {
    let none: Option<Stamp> = None;
    let mut s = Store::new();
    s.record_dep(&DepRow::new("t", DepKind::IfChange, Some("a".into()), &none));
    s.record_dep(&DepRow::new("T", DepKind::IfChange, Some("A".into()), &none));
    s.record_dep(&DepRow::new("t", DepKind::IfCreate, Some("a".into()), &none));
    assert_eq!(s.read_deps("t").len(), 2);
    // Edges without a dependency do not replace each other.
    s.record_dep(&DepRow::new("t", DepKind::Always, None, &none));
    s.record_dep(&DepRow::new("t", DepKind::Always, None, &none));
    assert_eq!(s.read_deps("t").len(), 4);
    s.record_dep(&DepRow::new("t", DepKind::Uncommitted, None, &none));
    s.record_dep(&DepRow::new("u", DepKind::Uncommitted, None, &none));
    s.apply(&DbOp::DropMarker { target: "T".into() });
    assert!(s.read_deps("t").iter().all(|d| d.kind != DepKind::Uncommitted));
    assert_eq!(s.read_deps("u").len(), 1);
    s.apply(&DbOp::ClearDeps { target: "t".into() });
    assert!(s.read_deps("t").is_empty());
}

#[test]
fn listings_are_in_the_order_of_paths() {
    let stamp = Some(Stamp { mtime: 1, size: 1, csum: "c".into() });
    let mut s = Store::new();
    for path in ["b", "a", "B2", "A1", "é", "dir/x", "dir.x"] {
        s.upsert_file(&FileRow::new(path, None, None, &stamp, 1));
    }
    for path in ["out/z", "Lib", "app", "lib2"] {
        s.upsert_file(&FileRow::new(path, Some("default.do".into()), Some(1), &stamp, 1));
    }
    s.record_dep(&DepRow::new("app", DepKind::IfChange, Some("Lib".into()), &stamp));
    assert_eq!(sources(&s), vec!["a", "A1", "b", "B2", "dir.x", "dir/x", "é"]);
    assert_eq!(targets(&s), vec!["app", "Lib", "lib2", "out/z"]);
    assert_eq!(roots(&s), vec!["app", "lib2", "out/z"]);
}

#[test]
fn only_known_files_are_refreshed() {
    let mut s = Store::new();
    let stamp = Stamp { mtime: 5, size: 6, csum: "c".into() };
    s.refresh_stamp("x", &stamp);
    s.set_runid("x", 1);
    assert!(s.files.is_empty());
    s.upsert_file(&bare("x"));
    assert_eq!(s.files_stamp("x"), None);
    assert_eq!(s.files_row("x"), Some(None));
    assert_eq!(s.files_row("y"), None);
    s.refresh_stamp("X", &stamp);
    s.set_runid("X", 9);
    assert_eq!(s.files_stamp("x"), Some(stamp));
    assert_eq!(s.file_runid("x"), Some(9));
    assert_eq!(s.files_built_at("x"), None);
    assert!(!s.is_generated("x"));
}

#[test]
fn stamps_hash_contents() {
    let found = |data: &[u8]| Found::File { mtime: 3, len: data.len() as u64, data: data.to_vec() };
    let s = stamp_file(&found(b"hello")).unwrap();
    assert_eq!(s.csum, blake3::hash(b"hello").to_hex().to_string());
    assert_eq!((s.mtime, s.size), (3, 5));
    assert_eq!(stamp_file(&Found::Missing), None);
    let d = stamp_file(&Found::Dir { mtime: 4 }).unwrap();
    assert_eq!(d, Stamp { mtime: 4, size: 0, csum: DIR_CSUM.into() });
    assert_eq!(
        hash_bytes(b""),
        "af1349b9f5f9a1a6a0404dea36dcc9499bcb25c9adc112b7cc9a93cae41f3262"
    );
    assert_eq!(mtime_nanos(None), 0);
    assert_eq!(mtime_nanos(Some(7)), 7);
}

#[test]
fn a_trusted_stamp_saves_reading() {
    let cached = Some(Stamp { mtime: 1_000_000_001, size: 4, csum: "c".into() });
    let meta = |mtime, len| Some(Meta { mtime, len, dir: false });
    assert_eq!(
        current_csum(&meta(1_000_000_001, 4), &cached),
        CsumStep::Trusted("c".into())
    );
    assert_eq!(current_csum(&meta(1_000_000_002, 4), &cached), CsumStep::Read);
    assert_eq!(current_csum(&meta(1_000_000_001, 5), &cached), CsumStep::Read);
    assert_eq!(current_csum(&meta(1_000_000_001, 4), &None), CsumStep::Read);
    assert_eq!(current_csum(&None, &cached), CsumStep::Missing);
    let coarse = Some(Stamp { mtime: 2_000_000_000, size: 4, csum: "c".into() });
    assert_eq!(current_csum(&meta(2_000_000_000, 4), &coarse), CsumStep::Read);
    let (c, op) = fresh_csum("x", &Meta { mtime: 7, len: 5, dir: false }, b"hello");
    assert_eq!(c, hash_bytes(b"hello"));
    assert_eq!(
        op,
        DbOp::RefreshStamp {
            path: "x".into(),
            stamp: Stamp { mtime: 7, size: 5, csum: hash_bytes(b"hello") },
        }
    );
    let (c, _) = fresh_csum("d", &Meta { mtime: 7, len: 4096, dir: true }, b"");
    assert_eq!(c, DIR_CSUM);
}

#[test]
fn each_edge_kind_can_tell() {
    let stamp = Some(Stamp { mtime: 1, size: 1, csum: "c".into() });
    let none: Option<Stamp> = None;
    let now = |there: bool, csum: Option<&str>| Now {
        exists: there,
        csum: csum.map(|s| s.to_string()),
    };
    let mut s = Store::new();
    assert!(is_ood_static(&s, "t", true, &[]), "never built");
    s.upsert_file(&FileRow::new("t", Some("t.do".into()), Some(1), &stamp, 1));
    assert!(!is_ood_static(&s, "t", true, &[]));
    assert!(is_ood_static(&s, "t", false, &[]), "output gone");
    s.record_dep(&DepRow::new("t", DepKind::IfChange, Some("a".into()), &stamp));
    assert!(!is_ood_static(&s, "t", true, &[now(true, Some("c"))]));
    assert!(is_ood_static(&s, "t", true, &[now(true, Some("d"))]));
    assert!(is_ood_static(&s, "t", true, &[now(false, None)]));
    s.record_dep(&DepRow::new("t", DepKind::IfCreate, Some("n".into()), &none));
    assert!(!is_ood_static(&s, "t", true, &[now(true, Some("c")), now(false, None)]));
    assert!(is_ood_static(&s, "t", true, &[now(true, Some("c")), now(true, None)]));
    for kind in [DepKind::Always, DepKind::Uncommitted] {
        let mut m = s.clone();
        m.record_dep(&DepRow::new("t", kind, None, &none));
        let obs = [now(true, Some("c")), now(false, None), now(false, None)];
        assert!(is_ood_static(&m, "t", true, &obs));
    }
}

#[test]
fn the_nearest_mark_is_the_root() {
    let cwd = FsPath::parse("/home/u/proj/sub");
    let start = FsPath::parse("deep/../x");
    let dirs: Vec<String> = search_dirs(&cwd, &start).iter().map(|p| p.to_text()).collect();
    assert_eq!(
        dirs,
        vec!["/home/u/proj/sub/x", "/home/u/proj/sub", "/home/u/proj", "/home/u", "/home", "/"]
    );
    let no = Mark { db: false, git: false };
    let git = Mark { db: false, git: true };
    let db = Mark { db: true, git: false };
    let at = |marks: &[Mark]| Root::discover(&cwd, &start, marks).map(|r| r.dir.to_text());
    assert_eq!(at(&[no, no, git, db]).unwrap(), "/home/u/proj");
    assert_eq!(at(&[no, db, git]).unwrap(), "/home/u/proj/sub");
    let err = Root::discover(&cwd, &start, &[no, no, no, no, no, no]).unwrap_err();
    assert_eq!(
        err.message(),
        "no project root found at or above /home/u/proj/sub/x. Run `redo-msh root` to create \
         one, or work inside a git repository."
    );
    let root = Root { dir: FsPath::parse("/p") };
    assert_eq!(root.redo_dir().to_text(), "/p/.redom");
    assert_eq!(root.db_path().to_text(), "/p/.redom/redo-msh.db");
    assert_eq!(root.locks_dir().to_text(), "/p/.redom/locks");
}

#[test]
fn network_filesystems_are_refused() {
    for magic in [0x6969, 0x517B, 0xFF53_4D42, 0xFE53_4D42, 0x5346_414F, 0x564C] {
        assert_eq!(classify(Some(magic)), FsKind::Network);
    }
    assert_eq!(classify(Some(0xEF53)), FsKind::Local);
    assert_eq!(classify(Some(0x0102_1997)), FsKind::Unknown);
    assert_eq!(classify(Some(0x6573_5546)), FsKind::Unknown);
    assert_eq!(classify(None), FsKind::Unknown);
    assert_eq!(enforce_local(FsKind::Local, false), Verdict::Proceed);
    assert_eq!(enforce_local(FsKind::Unknown, false), Verdict::Warn);
    assert_eq!(enforce_local(FsKind::Network, true), Verdict::Warn);
    assert_eq!(enforce_local(FsKind::Network, false), Verdict::Refuse);
    assert!(override_is_set(Some("1")));
    assert!(!override_is_set(Some("yes")));
    assert!(!override_is_set(None));
    assert!(refusal("/x/.redom").starts_with("redo-msh: /x/.redom is on a network filesystem."));
    assert!(warning("/x").contains("proceeding because REDO_ALLOW_NETWORK_FS=1"));
}

#[test]
fn a_key_is_the_first_half_of_a_hash() {
    let hash = "0123456789abcdef0123456789abcdeffedcba9876543210fedcba9876543210";
    assert_eq!(key_of_hash(hash), "0123456789abcdef0123456789abcdef");
    assert_eq!(target_key("A.txt"), key_of_hash(&hash_bytes(b"a.txt")));
}

#[test]
fn pieces_hash_like_the_whole() {
    let data: Vec<u8> = (0..5000u32).map(|i| (i % 251) as u8).collect();
    for size in [1, 64, 1000, 1024, 4999, 5000, 9000] {
        let mut h = FileHash::new();
        for piece in data.chunks(size) {
            assert!(h.update(piece));
        }
        assert_eq!(h.hex(), hash_bytes(&data));
    }
    let mut h = FileHash::new();
    assert_eq!(h.hex(), hash_bytes(b""));
    // The hash can be told at any time.
    assert!(h.update(b"abc"));
    let abc = h.hex();
    assert_eq!(abc, hash_bytes(b"abc"));
    assert!(h.update(b""));
    assert_eq!(h.hex(), abc);
    assert!(h.update(b"d"));
    assert_ne!(h.hex(), abc);
}

#[test]
fn a_hash_becomes_a_stamp() {
    let s = file_stamp(5, 7, "h".to_string());
    assert_eq!(s, Stamp { mtime: 5, size: 7, csum: "h".to_string() });
    let meta = Meta { mtime: 5, len: 7, dir: false };
    let (csum, op) = csum_with("p", &meta, "h".to_string());
    assert_eq!(csum, "h");
    assert_eq!(op, DbOp::RefreshStamp { path: "p".to_string(), stamp: s });
    let dir = Meta { mtime: 5, len: 7, dir: true };
    let (csum, op) = csum_with("p", &dir, "h".to_string());
    assert_eq!(csum, DIR_CSUM);
    let stamp = Stamp { mtime: 5, size: 0, csum: DIR_CSUM.to_string() };
    assert_eq!(op, DbOp::RefreshStamp { path: "p".to_string(), stamp });
}

#[test]
fn errors_quote_names() {
    let e = BuildError::NoRule { target: "a b".to_string() };
    assert_eq!(e.message(), "no .do file found to build target \"a b\"");
    assert_eq!(e.message_with("<a b>"), "no .do file found to build target <a b>");
    let e = BuildError::Outside { input: "../x".to_string(), root: "/p".to_string() };
    assert_eq!(e.message(), "target \"../x\" is outside the project root /p");
    let e = BuildError::NoSource { dep: "d\"".to_string() };
    assert_eq!(e.message(), "no .do file and no source file for dependency \"d\\\"\"");
    let e = BuildError::AlreadyExists { dep: "d".to_string() };
    assert_eq!(e.message(), "redo-msh ifcreate: \"d\" already exists");
}
