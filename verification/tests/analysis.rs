//! End-to-end analyses over small commit graphs.

use safe_rebase::analyzer::AnalysisResult;
use safe_rebase::graph::CommitGraph;
use safe_rebase::repo::{AnalysisError, RefInfo, RepoView};

fn graph(parents: Vec<Vec<usize>>) -> CommitGraph {
    CommitGraph { parents }
}

fn rf(name: &str, target: usize) -> RefInfo {
    RefInfo { name: name.to_string(), target, is_remote: false, upstream: None }
}

fn rf_full(name: &str, target: usize, is_remote: bool, upstream: Option<usize>) -> RefInfo {
    RefInfo { name: name.to_string(), target, is_remote, upstream }
}

fn unsafe_names(r: Result<AnalysisResult, AnalysisError>) -> Vec<String> {
    match r {
        Ok(AnalysisResult::Unsafe { references }) => references,
        other => panic!("expected an unsafe outcome, got {:?}", other),
    }
}

/// Commit a is a root; "master" points at commit b (child of a), "feature"
/// at commit c (child of a). Rebasing "feature" onto "master" is safe: no
/// other reference touches {c}.
#[test]
fn simple_safe() {
    let view = RepoView {
        graph: graph(vec![vec![], vec![0], vec![0]]),
        refs: vec![rf("refs/heads/master", 1), rf("refs/heads/feature", 2)],
        head: Some(0),
    };
    let r = view.analyze(Some("refs/heads/master"), Some("feature"));
    assert_eq!(r, Ok(AnalysisResult::Safe));
}

/// As `simple_safe`, but "other-branch" also points at commit c: rebasing
/// "feature" onto "master" would orphan the commit it depends on.
#[test]
fn simple_unsafe() {
    let view = RepoView {
        graph: graph(vec![vec![], vec![0], vec![0]]),
        refs: vec![
            rf("refs/heads/master", 1),
            rf("refs/heads/feature", 2),
            rf("refs/heads/other-branch", 2),
        ],
        head: Some(0),
    };
    let r = view.analyze(Some("refs/heads/master"), Some("feature"));
    assert_eq!(unsafe_names(r), vec!["refs/heads/other-branch".to_string()]);
}

/// A conflict is found however many generations separate the reference from
/// the rewrite range.
#[test]
fn conflict_found_at_depth() {
    // 0 root; 1 = master tip; 2 = feature tip; 3 child of 2; 4 child of 3.
    let view = RepoView {
        graph: graph(vec![vec![], vec![0], vec![0], vec![2], vec![3]]),
        refs: vec![
            rf("refs/heads/master", 1),
            rf("refs/heads/feature", 2),
            rf("refs/heads/deep", 4),
        ],
        head: Some(1),
    };
    let r = view.analyze(Some("master"), Some("feature"));
    assert_eq!(unsafe_names(r), vec!["refs/heads/deep".to_string()]);
}

/// A reference whose history stays outside the rewrite range is never
/// reported.
#[test]
fn disjoint_reference_is_no_conflict() {
    // 0 root; 1 = master tip; 2 = feature tip; 3 = a side branch off 1.
    let view = RepoView {
        graph: graph(vec![vec![], vec![0], vec![0], vec![1]]),
        refs: vec![
            rf("refs/heads/master", 1),
            rf("refs/heads/feature", 2),
            rf("refs/heads/side", 3),
        ],
        head: Some(0),
    };
    let r = view.analyze(Some("master"), Some("feature"));
    assert_eq!(r, Ok(AnalysisResult::Safe));
}

/// The branch's configured upstream, its prefetch mirror and the stash all
/// point straight into the rewrite range, yet none of them is reported.
#[test]
fn upstream_mirror_and_stash_are_excluded() {
    let view = RepoView {
        graph: graph(vec![vec![], vec![0], vec![0]]),
        refs: vec![
            rf("refs/heads/main", 1),
            rf_full("refs/remotes/origin/main", 2, true, None),
            rf_full("refs/prefetch/remotes/origin/main", 2, false, None),
            rf_full("refs/heads/feature", 2, false, Some(1)),
            rf("refs/stash", 2),
        ],
        head: Some(3),
    };
    let r = view.analyze(Some("main"), Some("feature"));
    assert_eq!(r, Ok(AnalysisResult::Safe));
}

/// The stash is excluded even when no upstream is configured at all.
#[test]
fn stash_is_excluded() {
    let view = RepoView {
        graph: graph(vec![vec![], vec![0], vec![0]]),
        refs: vec![rf("refs/heads/master", 1), rf("refs/heads/feature", 2), rf("refs/stash", 2)],
        head: Some(0),
    };
    let r = view.analyze(Some("master"), Some("feature"));
    assert_eq!(r, Ok(AnalysisResult::Safe));
}

/// Two analyses of the same unchanged snapshot return the same outcome.
#[test]
fn analyze_twice_same_outcome() {
    let view = RepoView {
        graph: graph(vec![vec![], vec![0], vec![0]]),
        refs: vec![
            rf("refs/heads/master", 1),
            rf("refs/heads/feature", 2),
            rf("refs/heads/other-branch", 2),
        ],
        head: Some(0),
    };
    let r1 = view.analyze(Some("master"), Some("feature"));
    let r2 = view.analyze(Some("master"), Some("feature"));
    assert_eq!(r1, r2);
}

/// With no upstream given and none configured, resolution fails with an
/// input error before any traversal.
#[test]
fn no_upstream_configured_is_an_input_error() {
    let view = RepoView {
        graph: graph(vec![vec![], vec![0], vec![0]]),
        refs: vec![rf("refs/heads/master", 1), rf("refs/heads/feature", 2)],
        head: Some(0),
    };
    let r = view.analyze(None, Some("feature"));
    assert_eq!(r, Err(AnalysisError::NoUpstreamConfigured));
}

#[test]
fn unknown_branch_is_an_input_error() {
    let view = RepoView {
        graph: graph(vec![vec![], vec![0]]),
        refs: vec![rf("refs/heads/master", 1)],
        head: Some(0),
    };
    let r = view.analyze(Some("master"), Some("no-such-branch"));
    assert_eq!(r, Err(AnalysisError::BranchNotFound));
}

#[test]
fn unknown_upstream_is_an_input_error() {
    let view = RepoView {
        graph: graph(vec![vec![], vec![0], vec![0]]),
        refs: vec![rf("refs/heads/master", 1), rf("refs/heads/feature", 2)],
        head: Some(0),
    };
    let r = view.analyze(Some("no-such-thing"), Some("feature"));
    assert_eq!(r, Err(AnalysisError::UpstreamNotFound));
}

#[test]
fn no_checked_out_branch_is_an_input_error() {
    let view = RepoView {
        graph: graph(vec![vec![]]),
        refs: vec![],
        head: None,
    };
    let r = view.analyze(Some("0"), None);
    assert_eq!(r, Err(AnalysisError::NoCurrentBranch));
}

/// The upstream may be given as a direct commit identifier in decimal.
#[test]
fn upstream_by_direct_identifier() {
    let view = RepoView {
        graph: graph(vec![vec![], vec![0], vec![0]]),
        refs: vec![
            rf("refs/heads/master", 1),
            rf("refs/heads/feature", 2),
            rf("refs/heads/other-branch", 2),
        ],
        head: Some(0),
    };
    let by_name = view.analyze(Some("master"), Some("feature"));
    let by_id = view.analyze(Some("1"), Some("feature"));
    assert_eq!(by_name, by_id);
    assert_eq!(unsafe_names(by_id), vec!["refs/heads/other-branch".to_string()]);
}

/// With no branch given, the checked-out branch is analyzed.
#[test]
fn branch_defaults_to_head() {
    let view = RepoView {
        graph: graph(vec![vec![], vec![0], vec![0]]),
        refs: vec![
            rf("refs/heads/master", 1),
            rf("refs/heads/feature", 2),
            rf("refs/heads/other-branch", 2),
        ],
        head: Some(1),
    };
    let r = view.analyze(Some("master"), None);
    assert_eq!(unsafe_names(r), vec!["refs/heads/other-branch".to_string()]);
}

/// With no upstream given, the branch's configured upstream is used.
#[test]
fn upstream_defaults_to_configured() {
    let view = RepoView {
        graph: graph(vec![vec![], vec![0], vec![0]]),
        refs: vec![
            rf("refs/heads/master", 1),
            rf_full("refs/heads/feature", 2, false, Some(0)),
            rf("refs/heads/other-branch", 2),
        ],
        head: Some(0),
    };
    let r = view.analyze(None, Some("feature"));
    assert_eq!(unsafe_names(r), vec!["refs/heads/other-branch".to_string()]);
}

/// Short-name resolution tries the exact name before any namespace
/// expansion.
#[test]
fn short_name_resolution_order() {
    let view = RepoView {
        graph: graph(vec![vec![], vec![0]]),
        refs: vec![rf("refs/heads/main", 1), rf("main", 0)],
        head: Some(0),
    };
    assert_eq!(view.resolve_short("main"), Some(1));
    let only_full = RepoView {
        graph: graph(vec![vec![], vec![0]]),
        refs: vec![rf("refs/heads/main", 1)],
        head: Some(0),
    };
    assert_eq!(only_full.resolve_short("main"), Some(0));
}
