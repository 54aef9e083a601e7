//! The reachability engine on its own: rewrite ranges over explicit graphs.

use safe_rebase::engine::{reachable_commits, rewrite_range};
use safe_rebase::graph::CommitGraph;

fn graph(parents: Vec<Vec<usize>>) -> CommitGraph {
    CommitGraph { parents }
}

/// Rewriting a tip against itself recreates nothing.
#[test]
fn range_of_tip_against_itself_is_empty() {
    let g = graph(vec![vec![], vec![0], vec![0], vec![1, 2]]);
    let r = rewrite_range(&g, 3, 3);
    assert_eq!(r, vec![false, false, false, false]);
}

/// The range holds exactly the commits reachable from the branch tip and
/// not from the upstream tip.
#[test]
fn range_on_a_chain() {
    // 0 <- 1 <- 2 (upstream) and 1 <- 3 (branch).
    let g = graph(vec![vec![], vec![0], vec![1], vec![1]]);
    let r = rewrite_range(&g, 3, 2);
    assert_eq!(r, vec![false, false, false, true]);
}

/// A merge tip with one parent reachable from the upstream and one not: the
/// range holds only the side the upstream does not reach.
#[test]
fn range_of_a_merge_tip() {
    // 0 root; 1 = upstream tip (child of 0); 2 = side commit (child of 0);
    // 3 = merge of 2 and 1.
    let g = graph(vec![vec![], vec![0], vec![0], vec![2, 1]]);
    let r = rewrite_range(&g, 3, 1);
    assert_eq!(r, vec![false, false, true, true]);
}

/// A commit reachable along many paths is visited once and reported once.
#[test]
fn diamond_history() {
    // 0 root; 1 and 2 children of 0; 3 = merge of 1 and 2.
    let g = graph(vec![vec![], vec![0], vec![0], vec![1, 2]]);
    let reach = reachable_commits(&g, 3);
    assert_eq!(reach, vec![true, true, true, true]);
    let r = rewrite_range(&g, 3, 0);
    assert_eq!(r, vec![false, true, true, true]);
}

/// A root commit reaches only itself.
#[test]
fn root_reaches_itself_only() {
    let g = graph(vec![vec![], vec![0]]);
    let reach = reachable_commits(&g, 0);
    assert_eq!(reach, vec![true, false]);
}
