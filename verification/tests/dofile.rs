//! Do-file resolution.

use redo_msh::dofile::{candidates, default_do_files, find};
use redo_msh::paths::FsPath;
use redo_msh::root::Root;

fn rels(target: &str) -> Vec<String> {
    candidates(target).into_iter().map(|c| c.dofile_rel).collect()
}

fn root() -> Root {
    Root { dir: FsPath::parse("/proj") }
}

#[test]
fn flat_target() {
    assert_eq!(rels("app.txt"), vec!["app.txt.do", "default.txt.do", "default.do"]);
}

#[test]
fn nested_target_ascends_to_root() {
    assert_eq!(
        rels("sub/app.txt"),
        vec![
            "sub/app.txt.do",
            "sub/default.txt.do",
            "sub/default.do",
            "default.txt.do",
            "default.do",
        ]
    );
}

#[test]
fn multi_extension() {
    assert_eq!(
        rels("a.b.c"),
        vec!["a.b.c.do", "default.b.c.do", "default.c.do", "default.do"]
    );
}

#[test]
fn arg_base_strips_matched_ext() {
    let c = candidates("sub/app.txt");
    let txt = c.iter().find(|c| c.dofile_rel == "sub/default.txt.do").unwrap();
    assert_eq!(txt.arg_target, "app.txt");
    assert_eq!(txt.arg_base, "app");
    let root_def = c.iter().find(|c| c.dofile_rel == "default.do").unwrap();
    assert_eq!(root_def.arg_target, "sub/app.txt");
    assert_eq!(root_def.arg_base, "sub/app.txt");
}

#[test]
fn no_name_no_candidates() {
    assert!(candidates("").is_empty());
    assert!(candidates("//").is_empty());
}

#[test]
fn the_first_present_candidate_is_chosen() {
    let present = vec!["default.do".to_string(), "sub/default.txt.do".to_string()];
    let (df, absent) = find(&root(), "sub/app.txt", &present);
    let df = df.unwrap();
    assert_eq!(df.dofile_rel, "sub/default.txt.do");
    assert_eq!(df.dofile_abs.to_text(), "/proj/sub/default.txt.do");
    assert_eq!(df.dodir_abs.to_text(), "/proj/sub");
    assert_eq!(df.arg_target, "app.txt");
    assert_eq!(df.arg_base, "app");
    assert_eq!(absent, vec!["sub/app.txt.do"]);
}

#[test]
fn without_a_dofile_all_candidates_are_absent() {
    let (df, absent) = find(&root(), "a/b", &[]);
    assert!(df.is_none());
    assert_eq!(absent, vec!["a/b.do", "a/default.do", "default.do"]);
}

#[test]
fn a_dofile_in_the_root_runs_there() {
    let present = vec!["default.do".to_string()];
    let (df, absent) = find(&root(), "a/b/c", &present);
    let df = df.unwrap();
    assert_eq!(df.dodir_abs.to_text(), "/proj");
    assert_eq!(df.arg_target, "a/b/c");
    assert_eq!(absent, vec!["a/b/c.do", "a/b/default.do", "a/default.do"]);
}

#[test]
fn every_candidate_leads_to_the_target() {
    for target in ["x", "a/x.y", "a/b/x.y.z", "a//b/x"] {
        let whole: Vec<&str> = target.split('/').filter(|s| !s.is_empty()).collect();
        let whole = whole.join("/");
        for c in candidates(target) {
            let path = if c.dodir_rel.is_empty() {
                c.arg_target.clone()
            } else {
                format!("{}/{}", c.dodir_rel, c.arg_target)
            };
            assert_eq!(path, whole);
        }
        assert_eq!(candidates(target).last().unwrap().dofile_rel, "default.do");
    }
}

#[test]
fn default_forms_carry_the_extension() {
    let forms = |name: &str| default_do_files(name);
    let form = |d: &str, b: &str, e: &str| (d.to_string(), b.to_string(), e.to_string());
    assert_eq!(
        forms("app.txt"),
        vec![form("default.txt.do", "app", ".txt"), form("default.do", "app.txt", "")]
    );
    assert_eq!(forms("a."), vec![form("default..do", "a", "."), form("default.do", "a.", "")]);
    assert_eq!(forms("x"), vec![form("default.do", "x", "")]);
}

#[test]
fn the_base_of_a_name_that_is_all_extension() {
    let c = candidates("sub/.bashrc");
    let root = c.iter().find(|c| c.dofile_rel == "default.bashrc.do").unwrap();
    assert_eq!(root.arg_target, "sub/.bashrc");
    assert_eq!(root.arg_base, "sub/");
    let near = c.iter().find(|c| c.dofile_rel == "sub/default.bashrc.do").unwrap();
    assert_eq!(near.arg_target, ".bashrc");
    assert_eq!(near.arg_base, "");
}
