//! Decisions and the argument lists handed to git.

use safe_rebase::analyzer::AnalysisResult;
use safe_rebase::command::{log_args, next_step, rebase_args, NextStep};

#[test]
fn rebase_arguments_plain() {
    let args = rebase_args("17", "feature", false, None);
    assert_eq!(args, vec!["rebase".to_string(), "17".to_string(), "feature".to_string()]);
}

#[test]
fn rebase_arguments_interactive_onto() {
    let args = rebase_args("17", "feature", true, Some("base"));
    assert_eq!(
        args,
        vec![
            "rebase".to_string(),
            "--interactive".to_string(),
            "--onto".to_string(),
            "base".to_string(),
            "17".to_string(),
            "feature".to_string(),
        ]
    );
}

#[test]
fn log_arguments() {
    let conflicts = vec!["refs/heads/other-branch".to_string(), "refs/tags/v1".to_string()];
    let args = log_args("refs/heads/feature", "17", &conflicts);
    assert_eq!(
        args,
        vec![
            "log".to_string(),
            "--graph".to_string(),
            "--oneline".to_string(),
            "refs/heads/feature".to_string(),
            "17".to_string(),
            "refs/heads/other-branch".to_string(),
            "refs/tags/v1".to_string(),
        ]
    );
}

#[test]
fn decision_from_outcome() {
    assert_eq!(next_step(&AnalysisResult::Safe, true), NextStep::ReportSafe);
    assert_eq!(next_step(&AnalysisResult::Safe, false), NextStep::RunRebase);
    let unsafe_outcome = AnalysisResult::Unsafe { references: vec!["refs/heads/x".to_string()] };
    assert_eq!(next_step(&unsafe_outcome, true), NextStep::ReportUnsafe);
    assert_eq!(next_step(&unsafe_outcome, false), NextStep::ReportUnsafe);
}
