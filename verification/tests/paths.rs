//! Path normalization.

use redo_msh::paths::{lexical_clean, normalize, resolve, to_root_relative, Component, FsPath};

fn p(s: &str) -> FsPath {
    FsPath::parse(s)
}

#[test]
fn cleans_dot_and_dotdot() {
    assert_eq!(lexical_clean(&p("a/./b/../c")), p("a/c"));
    assert_eq!(lexical_clean(&p("a/b/../../c")), p("c"));
    assert_eq!(lexical_clean(&p("../a")), p("../a"));
}

#[test]
fn root_relative_keys_use_forward_slash() {
    let root = p("/proj");
    let abs = p("/proj/sub/app.txt");
    assert_eq!(to_root_relative(&root, &abs).as_deref(), Some("sub/app.txt"));
}

#[test]
fn normalize_resolves_against_cwd() {
    let root = p("/proj");
    let cwd = p("/proj/sub");
    assert_eq!(normalize(&root, &cwd, &p("../top.txt")).as_deref(), Some("top.txt"));
    assert_eq!(normalize(&root, &cwd, &p("a.txt")).as_deref(), Some("sub/a.txt"));
}

#[test]
fn outside_root_is_none() {
    let root = p("/proj");
    let cwd = p("/proj");
    assert_eq!(normalize(&root, &cwd, &p("../escape")), None);
}

#[test]
fn parsing_follows_components() {
    assert_eq!(p("").comps, vec![]);
    assert_eq!(p("/").comps, vec![Component::RootDir]);
    assert_eq!(
        p("./a//b/./c/").comps,
        vec![
            Component::CurDir,
            Component::Normal("a".into()),
            Component::Normal("b".into()),
            Component::Normal("c".into()),
        ]
    );
    assert_eq!(
        p("//x/../y").comps,
        vec![
            Component::RootDir,
            Component::Normal("x".into()),
            Component::ParentDir,
            Component::Normal("y".into()),
        ]
    );
}

#[test]
fn text_of_a_path_reads_back() {
    for s in ["", "/", "/a", "/a/b c", "a", "./a", ".", "..", "../../x", "a/../b", "/../a"] {
        assert_eq!(p(s).to_text(), s);
        assert_eq!(p(&p(s).to_text()), p(s));
    }
    assert_eq!(p("a//b/").to_text(), "a/b");
}

#[test]
fn cleaning_twice_is_cleaning_once() {
    for s in ["/a/../../b", "a/../../b", "../../a/..", "./.", "/..", "a/b/c/../.."] {
        let once = lexical_clean(&p(s));
        assert_eq!(lexical_clean(&once), once);
    }
    assert_eq!(lexical_clean(&p("/a/../../b")).to_text(), "/b");
    assert_eq!(lexical_clean(&p("a/../../b")).to_text(), "../b");
    assert_eq!(lexical_clean(&p("./.")).to_text(), "");
}

#[test]
fn resolving_against_a_base() {
    assert_eq!(resolve(&p("/a/b"), &p("c")).to_text(), "/a/b/c");
    assert_eq!(resolve(&p("/a/b"), &p("./c/../d")).to_text(), "/a/b/d");
    assert_eq!(resolve(&p("/a/b"), &p("/x/./y")).to_text(), "/x/y");
    assert!(p("/x").is_absolute());
    assert!(!p("x").is_absolute());
}

#[test]
fn prefixes_stay_in_front() {
    let base = FsPath {
        comps: vec![
            Component::Prefix("C:".into()),
            Component::RootDir,
            Component::Normal("proj".into()),
        ],
    };
    assert_eq!(base.to_text(), "C:/proj");
    assert_eq!(FsPath { comps: base.comps[..2].to_vec() }.to_text(), "C:/");
    assert_eq!(base.join(&p("/x")).comps[0], Component::Prefix("C:".into()));
    assert_eq!(resolve(&base, &p("../../..")).comps.len(), 2);
}

#[test]
fn the_root_itself_has_an_empty_key() {
    assert_eq!(normalize(&p("/proj"), &p("/proj/sub"), &p("..")).as_deref(), Some(""));
    assert_eq!(to_root_relative(&p("/proj"), &p("/project/a")), None);
}

#[test]
fn a_key_leads_back_to_its_path() {
    let root = p("/proj");
    let abs = p("/proj/a b/c.d");
    let key = to_root_relative(&root, &abs).unwrap();
    assert_eq!(root.join(&p(&key)), abs);
}
