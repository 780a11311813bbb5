//! Tasks at work.

use redo_msh::db::{DbOp, FileRow, Store};
use redo_msh::jobserver::TokenSrc;
use redo_msh::work::{Answer, Step, Work};

const SESSION: i64 = 7;

/// The steps that a task takes upon these answers, the first one left out.
fn steps(force: bool, answers: &[Answer]) -> Vec<Step> {
    let (mut w, s) = Work::begin("t", force, SESSION);
    assert_eq!(s, Step::ReadRun);
    answers.iter().map(|a| w.next(*a)).collect()
}

fn checked(rebuild: Option<bool>, edges: bool) -> Answer {
    Answer::Checked { rebuild, edges }
}

#[test]
fn a_settled_target_is_left_alone() {
    assert_eq!(steps(false, &[Answer::Settled(Some(SESSION))]), vec![Step::Settle(true)]);
}

#[test]
fn a_forced_target_is_built_unchecked() {
    let answers = [
        Answer::Settled(Some(SESSION)),
        Answer::Granted(TokenSrc::Own),
        Answer::Done,
        Answer::Done,
    ];
    let expected =
        vec![Step::TakeToken, Step::Build, Step::ReturnToken(TokenSrc::Own), Step::Settle(true)];
    assert_eq!(steps(true, &answers), expected);
}

#[test]
fn edges_go_before_the_build() {
    let answers = [
        Answer::Settled(None),
        checked(Some(true), true),
        Answer::Done,
        Answer::Granted(TokenSrc::Pool),
        Answer::Failed,
        Answer::Done,
    ];
    let expected = vec![
        Step::Check,
        Step::ClearEdges,
        Step::TakeToken,
        Step::Build,
        Step::ReturnToken(TokenSrc::Pool),
        Step::Settle(false),
    ];
    assert_eq!(steps(false, &answers), expected);
}

#[test]
fn an_up_to_date_target_is_verified_once() {
    let answers =
        [Answer::Settled(None), checked(Some(false), true), Answer::Done, Answer::Done, Answer::Done];
    let got = steps(false, &answers);
    let ops = vec![DbOp::SetRunid { path: "t".to_string(), runid: SESSION }];
    let mut store = Store::new();
    store.upsert_file(&FileRow::new("t", Some("t.do".to_string()), Some(1), &None, 3));
    store.apply_all(&ops);
    assert_eq!(store.file_runid("t"), Some(SESSION));
    let expected =
        vec![Step::Check, Step::Refresh, Step::Apply(ops), Step::ClearEdges, Step::Settle(true)];
    assert_eq!(got, expected);
}

#[test]
fn trouble_settles_badly() {
    assert_eq!(steps(false, &[Answer::Failed]), vec![Step::Settle(false)]);
    let answers = [Answer::Settled(None), checked(None, true), Answer::Done];
    assert_eq!(steps(false, &answers), vec![Step::Check, Step::ClearEdges, Step::Settle(false)]);
    let answers = [Answer::Settled(None), checked(Some(true), false), Answer::Failed];
    assert_eq!(steps(false, &answers), vec![Step::Check, Step::TakeToken, Step::Settle(false)]);
    let answers =
        [Answer::Settled(None), checked(Some(false), true), Answer::Failed, Answer::Done];
    let expected = vec![Step::Check, Step::Refresh, Step::ClearEdges, Step::Settle(false)];
    assert_eq!(steps(false, &answers), expected);
}
