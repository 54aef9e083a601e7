//! The guarantees the analyzer is meant to give, each stated and proved over
//! the specification functions that the executable contracts use.

use vstd::prelude::*;
use crate::analyzer::{
    outcome_of, spec_analyze, spec_conflict_names, spec_conflicting, spec_conflicting_upto,
    spec_ref_conflicts, AnalysisResult,
};
use crate::graph::{in_rewrite_range, reaches};
use crate::names::spec_prefetch_name;
use crate::repo::{
    lemma_candidates_membership, spec_candidates, spec_is_candidate, AnalysisError, RepoModel,
};

verus! {

/// Rewriting a tip against itself recreates nothing: the rewrite range of a
/// tip onto that same tip is empty, in every graph.
pub proof fn lemma_rewrite_range_self_empty(g: Seq<Seq<usize>>, tip: int)
    ensures
        forall|c: int| !in_rewrite_range(g, tip, tip, c),
{
}

/// The rewrite range holds exactly the commits reachable from the branch tip
/// and not from the upstream tip; in particular every ancestor of the
/// upstream is excluded, even when it is also an ancestor of the branch.
pub proof fn lemma_rewrite_range_characterization(g: Seq<Seq<usize>>, b: int, u: int)
    ensures
        forall|c: int|
            #[trigger] in_rewrite_range(g, b, u, c) <==> reaches(g, b, c) && !reaches(g, u, c),
        forall|c: int| reaches(g, u, c) ==> !in_rewrite_range(g, b, u, c),
{
}

/// The conflict list gathered over a candidate sequence holds exactly the
/// candidates whose history intersects the rewrite range.
pub proof fn lemma_conflicting_membership(m: RepoModel, cands: Seq<int>, b: int, u: int, k: int)
    ensures
        forall|x: int|
            #[trigger] spec_conflicting_upto(m, cands, b, u, k).contains(x) <==> ((exists|j: int|
                0 <= j < k && cands[j] == x) && spec_ref_conflicts(m, x, b, u)),
    decreases k,
{
    if k > 0 {
        lemma_conflicting_membership(m, cands, b, u, k - 1);
        let prev = spec_conflicting_upto(m, cands, b, u, k - 1);
        let cur = spec_conflicting_upto(m, cands, b, u, k);
        assert forall|x: int| #[trigger] cur.contains(x) implies ((exists|j: int|
            0 <= j < k && cands[j] == x) && spec_ref_conflicts(m, x, b, u)) by {
            let p = choose|p: int| 0 <= p < cur.len() && cur[p] == x;
            if spec_ref_conflicts(m, cands[k - 1], b, u) {
                if p < prev.len() {
                    assert(prev[p] == x);
                    assert(prev.contains(x));
                } else {
                    assert(x == cands[k - 1]);
                }
            } else {
                assert(prev[p] == x);
                assert(prev.contains(x));
            }
        }
        assert forall|x: int|
            (exists|j: int| 0 <= j < k && cands[j] == x) && spec_ref_conflicts(
                m,
                x,
                b,
                u,
            ) implies #[trigger] cur.contains(x) by {
            let j = choose|j: int| 0 <= j < k && cands[j] == x;
            if j < k - 1 {
                assert(prev.contains(x));
                let p = choose|p: int| 0 <= p < prev.len() && prev[p] == x;
                assert(cur[p] == x);
            } else {
                assert(cur[cur.len() - 1] == x);
            }
        }
    }
}

/// No false positives: a reference whose reachable history is disjoint from
/// the rewrite range never appears in the conflict set.
pub proof fn lemma_no_false_positives(m: RepoModel, bref: int, b: int, u: int, i: int)
    requires
        forall|c: int|
            reaches(m.parents, m.refs[i].target as int, c) ==> !#[trigger] in_rewrite_range(
                m.parents,
                b,
                u,
                c,
            ),
    ensures
        !spec_conflicting(m, bref, b, u).contains(i),
{
    let cands = spec_candidates(m, bref);
    lemma_conflicting_membership(m, cands, b, u, cands.len() as int);
    if spec_conflicting(m, bref, b, u).contains(i) {
        assert(spec_ref_conflicts(m, i, b, u));
        let c = choose|c: int|
            0 <= c < m.parents.len() && #[trigger] in_rewrite_range(m.parents, b, u, c) && reaches(
                m.parents,
                m.refs[i].target as int,
                c,
            );
        assert(false);
    }
}

/// No false negatives: a candidate whose reachable history intersects the
/// rewrite range — at whatever depth — always appears in the conflict set.
pub proof fn lemma_no_false_negatives(m: RepoModel, bref: int, b: int, u: int, i: int)
    requires
        spec_candidates(m, bref).contains(i),
        spec_ref_conflicts(m, i, b, u),
    ensures
        spec_conflicting(m, bref, b, u).contains(i),
{
    let cands = spec_candidates(m, bref);
    lemma_conflicting_membership(m, cands, b, u, cands.len() as int);
    let j = choose|j: int| 0 <= j < cands.len() && cands[j] == i;
    assert(spec_conflicting_upto(m, cands, b, u, cands.len() as int).contains(i));
}

/// Every name in the conflict set names a candidate whose history intersects
/// the rewrite range.
proof fn lemma_conflict_name_source(m: RepoModel, bref: int, b: int, u: int, nm: Seq<char>)
    requires
        spec_conflict_names(m, bref, b, u).contains(nm),
    ensures
        exists|x: int|
            0 <= x < m.refs.len() && (#[trigger] m.refs[x]).name == nm && spec_is_candidate(
                m,
                bref,
                x,
            ),
{
    let names = spec_conflict_names(m, bref, b, u);
    let confl = spec_conflicting(m, bref, b, u);
    let j = choose|j: int| 0 <= j < names.len() && names[j] == nm;
    let x = confl[j];
    assert(names[j] == m.refs[x].name);
    assert(confl.contains(x));
    let cands = spec_candidates(m, bref);
    lemma_conflicting_membership(m, cands, b, u, cands.len() as int);
    let jj = choose|jj: int| 0 <= jj < cands.len() && cands[jj] == x;
    assert(cands.contains(x));
    lemma_candidates_membership(m, bref, m.refs.len() as int);
    assert(0 <= x < m.refs.len() && spec_is_candidate(m, bref, x));
}

/// The rewritten branch's configured upstream, and that upstream's prefetch
/// mirror, never appear in the conflict set, even when their history
/// overlaps the rewrite range's ancestor chain.
pub proof fn lemma_upstream_and_mirror_never_conflict(
    m: RepoModel,
    bref: int,
    b: int,
    u: int,
    uref: usize,
)
    requires
        0 <= bref < m.refs.len(),
        m.refs[bref].upstream == Some(uref),
    ensures
        !spec_conflict_names(m, bref, b, u).contains(m.refs[uref as int].name),
        match spec_prefetch_name(m.refs[uref as int].name, m.refs[uref as int].is_remote) {
            Some(pn) => !spec_conflict_names(m, bref, b, u).contains(pn),
            None => true,
        },
{
    if spec_conflict_names(m, bref, b, u).contains(m.refs[uref as int].name) {
        lemma_conflict_name_source(m, bref, b, u, m.refs[uref as int].name);
        let x = choose|x: int|
            0 <= x < m.refs.len() && (#[trigger] m.refs[x]).name == m.refs[uref as int].name
                && spec_is_candidate(m, bref, x);
        assert(false);
    }
    match spec_prefetch_name(m.refs[uref as int].name, m.refs[uref as int].is_remote) {
        Some(pn) => {
            if spec_conflict_names(m, bref, b, u).contains(pn) {
                lemma_conflict_name_source(m, bref, b, u, pn);
                let x = choose|x: int|
                    0 <= x < m.refs.len() && (#[trigger] m.refs[x]).name == pn
                        && spec_is_candidate(m, bref, x);
                assert(false);
            }
        },
        None => {},
    }
}

/// The stash reference is always excluded from candidates, so its name never
/// appears in the conflict set.
pub proof fn lemma_stash_never_conflicts(m: RepoModel, bref: int, b: int, u: int)
    ensures
        !spec_conflict_names(m, bref, b, u).contains("refs/stash"@),
{
    if spec_conflict_names(m, bref, b, u).contains("refs/stash"@) {
        lemma_conflict_name_source(m, bref, b, u, "refs/stash"@);
        let x = choose|x: int|
            0 <= x < m.refs.len() && (#[trigger] m.refs[x]).name == "refs/stash"@
                && spec_is_candidate(m, bref, x);
        assert(false);
    }
}

/// Idempotence: the analysis outcome is a function of the snapshot and the
/// arguments alone, so two runs with no intervening repository mutation
/// yield the same result.
pub proof fn lemma_analyze_deterministic(
    m: RepoModel,
    up: Option<Seq<char>>,
    br: Option<Seq<char>>,
    r1: Result<AnalysisResult, AnalysisError>,
    r2: Result<AnalysisResult, AnalysisError>,
)
    requires
        outcome_of(r1) == spec_analyze(m, up, br),
        outcome_of(r2) == spec_analyze(m, up, br),
    ensures
        outcome_of(r1) == outcome_of(r2),
{
}

} // verus!
