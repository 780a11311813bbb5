//! Interpreter configuration.

use redo_msh::config::{
    current_platform, glob_match, is_wsl, Config, Os, Platform, Platforms, Rule, Section,
};

fn words(v: &[&str]) -> Vec<String> {
    v.iter().map(|s| s.to_string()).collect()
}

fn rule(pattern: &str, command: &[&str]) -> Rule {
    Rule { pattern: pattern.to_string(), command: words(command) }
}

fn shared(default: Option<&[&str]>, rules: Vec<Rule>) -> Config {
    Config {
        interpreter: Section { default: default.map(words), rules },
        ..Config::default()
    }
}

#[test]
fn glob_basics() {
    assert!(glob_match("*.do", "app.do"));
    assert!(glob_match("*.do", "a.b.c.do"));
    assert!(!glob_match("*.do", "app.dof"));
    assert!(glob_match("default.do", "default.do"));
    assert!(glob_match("*.py.do", "build.py.do"));
    assert!(!glob_match("*.py.do", "build.do"));
    // `*` does not cross a directory separator.
    assert!(!glob_match("*.do", "sub/app.do"));
    assert!(glob_match("deploy/*.do", "deploy/ship.do"));
    assert!(!glob_match("deploy/*.do", "deploy/nested/ship.do"));
    assert!(glob_match("?.do", "a.do"));
    assert!(!glob_match("?.do", "ab.do"));
}

#[test]
fn empty_config_uses_builtin() {
    assert_eq!(Config::default().interpreter(Platform::Linux, "a.do"), vec!["msh"]);
    assert_eq!(Config::default().interpreter(Platform::Other, "a.do"), vec!["msh"]);
}

#[test]
fn shared_default_and_rule() {
    let c = shared(Some(&["msh"]), vec![rule("*.py.do", &["python3"])]);
    assert_eq!(c.interpreter(Platform::Linux, "x.py.do"), vec!["python3"]);
    assert_eq!(c.interpreter(Platform::Linux, "x.do"), vec!["msh"]);
}

#[test]
fn basename_rule_matches_in_subdir() {
    let c = shared(None, vec![rule("*.do", &["sh", "-e"])]);
    assert_eq!(c.interpreter(Platform::Linux, "deep/sub/app.do"), vec!["sh", "-e"]);
}

#[test]
fn empty_command_falls_back() {
    let c = shared(Some(&[]), vec![]);
    assert_eq!(c.interpreter(Platform::Linux, "a.do"), vec!["msh"]);
}

#[test]
fn wildcards_match_characters() {
    assert!(glob_match("?.do", "é.do"));
    assert!(glob_match("*", ""));
    assert!(!glob_match("?", ""));
    assert!(!glob_match("?", "/"));
    assert!(glob_match("a*b*c", "aXXbYYc"));
    assert!(!glob_match("a*b*c", "aXXbYY"));
}

#[test]
fn a_pattern_with_a_slash_sees_the_whole_path() {
    let c = shared(None, vec![rule("deploy/*.do", &["bash"])]);
    assert_eq!(c.interpreter(Platform::Linux, "deploy/x.do"), vec!["bash"]);
    assert_eq!(c.interpreter(Platform::Linux, "a/deploy/x.do"), vec!["msh"]);
}

#[test]
fn platforms_come_before_the_shared_section() {
    let c = Config {
        interpreter: Section { default: Some(words(&["shared"])), rules: vec![] },
        platform: Platforms {
            linux: Some(Section { default: Some(words(&["sh"])), rules: vec![] }),
            wsl: None,
            windows: Some(Section { default: None, rules: vec![rule("*.ps.do", &["pwsh"])] }),
            macos: None,
        },
    };
    assert_eq!(c.interpreter(Platform::Linux, "a.do"), vec!["sh"]);
    assert_eq!(c.interpreter(Platform::Wsl, "a.do"), vec!["sh"]);
    assert_eq!(c.interpreter(Platform::Windows, "a.ps.do"), vec!["pwsh"]);
    assert_eq!(c.interpreter(Platform::Windows, "a.do"), vec!["shared"]);
    assert_eq!(c.interpreter(Platform::Macos, "a.do"), vec!["shared"]);
    assert_eq!(c.interpreter(Platform::Other, "a.do"), vec!["shared"]);
}

#[test]
fn wsl_has_a_section_of_its_own() {
    let mut c = Config::default();
    c.platform.linux = Some(Section { default: Some(words(&["sh"])), rules: vec![] });
    c.platform.wsl = Some(Section::empty());
    assert_eq!(c.interpreter(Platform::Wsl, "a.do"), vec!["msh"]);
}

#[test]
fn the_first_matching_rule_counts() {
    let c = shared(None, vec![rule("a*.do", &["one"]), rule("*.do", &["two"])]);
    assert_eq!(c.interpreter(Platform::Linux, "ab.do"), vec!["one"]);
    assert_eq!(c.interpreter(Platform::Linux, "b.do"), vec!["two"]);
}

#[test]
fn platform_detection() {
    assert!(is_wsl(true, false, None));
    assert!(is_wsl(false, true, None));
    assert!(is_wsl(false, false, Some("5.15.90.1-Microsoft-standard")));
    assert!(is_wsl(false, false, Some("x-WSL2")));
    assert!(!is_wsl(false, false, Some("6.1.0-generic")));
    assert!(!is_wsl(false, false, None));
    assert_eq!(current_platform(Os::Linux, true), Platform::Wsl);
    assert_eq!(current_platform(Os::Linux, false), Platform::Linux);
    assert_eq!(current_platform(Os::Macos, false), Platform::Macos);
    assert_eq!(current_platform(Os::Windows, false), Platform::Windows);
    assert_eq!(current_platform(Os::Other, false), Platform::Other);
}
