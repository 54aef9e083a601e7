//! The safety analyzer.
//!
//! One `analyze` run resolves the branch and upstream, computes the rewrite
//! range, narrows the reference universe to candidates, tests each candidate
//! against the range, and reports either safety or the conflicting
//! references. Every stage is a function of the snapshot alone, so repeating
//! a run on an unchanged snapshot repeats its outcome.

use vstd::prelude::*;
use crate::engine::{marked, reachable_commits, ref_in_conflict, rewrite_range};
use crate::graph::{in_rewrite_range, lemma_reaches_trans, lemma_reaches_valid, reaches};
use crate::repo::{
    opt_name, spec_candidates, spec_resolve_branch, spec_resolve_upstream, AnalysisError,
    RepoModel, RepoView,
};

verus! {

/// The outcome of one analysis: either no other reference depends on the
/// commits to be rewritten, or the conflicting references in enumeration
/// order.
#[derive(Debug, PartialEq, Eq)]
pub enum AnalysisResult {
    Safe,
    Unsafe { references: Vec<String> },
}

/// The outcome's mathematical model.
pub enum AnalysisOutcome {
    Safe,
    Unsafe(Seq<Seq<char>>),
}

/// The model of a returned analysis.
pub open spec fn outcome_of(r: Result<AnalysisResult, AnalysisError>) -> Result<
    AnalysisOutcome,
    AnalysisError,
> {
    match r {
        Ok(AnalysisResult::Safe) => Ok(AnalysisOutcome::Safe),
        Ok(AnalysisResult::Unsafe { references }) => Ok(
            AnalysisOutcome::Unsafe(references.deep_view()),
        ),
        Err(e) => Err(e),
    }
}

/// Reference `i`'s history intersects the rewrite range of `b` onto `u`.
pub open spec fn spec_ref_conflicts(m: RepoModel, i: int, b: int, u: int) -> bool {
    exists|c: int|
        0 <= c < m.parents.len() && #[trigger] in_rewrite_range(m.parents, b, u, c) && reaches(
            m.parents,
            m.refs[i].target as int,
            c,
        )
}

/// The conflicting references among the first `k` entries of `cands`, in
/// order.
pub open spec fn spec_conflicting_upto(
    m: RepoModel,
    cands: Seq<int>,
    b: int,
    u: int,
    k: int,
) -> Seq<int>
    decreases k,
{
    if k <= 0 {
        Seq::empty()
    } else {
        let prev = spec_conflicting_upto(m, cands, b, u, k - 1);
        if spec_ref_conflicts(m, cands[k - 1], b, u) {
            prev.push(cands[k - 1])
        } else {
            prev
        }
    }
}

/// The conflict set: candidates whose history reaches into the rewrite
/// range, in enumeration order.
pub open spec fn spec_conflicting(m: RepoModel, bref: int, b: int, u: int) -> Seq<int> {
    let cands = spec_candidates(m, bref);
    spec_conflicting_upto(m, cands, b, u, cands.len() as int)
}

/// The names carried by the conflict set.
pub open spec fn spec_conflict_names(m: RepoModel, bref: int, b: int, u: int) -> Seq<Seq<char>> {
    spec_conflicting(m, bref, b, u).map_values(|i: int| m.refs[i].name)
}

/// What one whole analysis returns, as a function of the snapshot and the
/// two optional arguments alone.
pub open spec fn spec_analyze(m: RepoModel, up: Option<Seq<char>>, br: Option<Seq<char>>) -> Result<
    AnalysisOutcome,
    AnalysisError,
> {
    match spec_resolve_branch(m, br) {
        Err(e) => Err(e),
        Ok(bref) => match spec_resolve_upstream(m, up, bref) {
            Err(e) => Err(e),
            Ok(u) => {
                let names = spec_conflict_names(m, bref, m.refs[bref].target as int, u as int);
                if names.len() == 0 {
                    Ok(AnalysisOutcome::Safe)
                } else {
                    Ok(AnalysisOutcome::Unsafe(names))
                }
            },
        },
    }
}

impl RepoView {
    /// Tests each candidate's history against the rewrite range. All
    /// searches share the one exclusion table `excl` (the commits reachable
    /// from the upstream tip), but each candidate's membership test is an
    /// independent bounded search from its own tip.
    #[verifier::loop_isolation(false)]
    pub fn conflicting_refs(
        &self,
        cands: &Vec<usize>,
        excl: &Vec<bool>,
        range: &Vec<bool>,
        Ghost(b): Ghost<int>,
        Ghost(u): Ghost<int>,
    ) -> (out: Vec<usize>)
        requires
            self.wf(),
            forall|k: int| 0 <= k < cands@.len() ==> (#[trigger] cands@[k]) < self.refs.len(),
            excl@.len() == self.graph.n(),
            range@.len() == self.graph.n(),
            0 <= u < self.graph.n(),
            forall|c: int|
                0 <= c < self.graph.n()
                    ==> (#[trigger] excl@[c] <==> reaches(self@.parents, u, c)),
            forall|c: int|
                0 <= c < self.graph.n()
                    ==> (#[trigger] range@[c] <==> in_rewrite_range(self@.parents, b, u, c)),
        ensures
            out@.map_values(|x: usize| x as int) == spec_conflicting_upto(
                self@,
                cands@.map_values(|x: usize| x as int),
                b,
                u,
                cands@.len() as int,
            ),
            forall|k: int| 0 <= k < out@.len() ==> (#[trigger] out@[k]) < self.refs.len(),
    {
        let ghost gm = self@.parents;
        let ghost em = marked(excl@);
        let ghost ci = cands@.map_values(|x: usize| x as int);
        proof {
            assert forall|y: int, z: int|
                #![trigger em.contains(y), reaches(gm, y, z)]
                em.contains(y) && reaches(gm, y, z) implies em.contains(z) by {
                assert(excl@[y]);
                assert(reaches(gm, u, y));
                lemma_reaches_trans(gm, Set::<int>::empty(), u, y, z);
                lemma_reaches_valid(gm, Set::<int>::empty(), u, z);
                assert(excl@[z]);
            }
            assert forall|c: int| 0 <= c < self.graph.n() && #[trigger] range@[c] implies !em.contains(
                c,
            ) by {
                assert(in_rewrite_range(gm, b, u, c));
            }
        }
        let n_cands = cands.len();
        let mut out: Vec<usize> = Vec::new();
        let mut k: usize = 0;
        proof {
            assert(out@.map_values(|x: usize| x as int) =~= spec_conflicting_upto(
                self@,
                ci,
                b,
                u,
                0,
            ));
        }
        while k < n_cands
            invariant
                k <= n_cands,
                out@.map_values(|x: usize| x as int) == spec_conflicting_upto(
                    self@,
                    ci,
                    b,
                    u,
                    k as int,
                ),
                forall|j: int| 0 <= j < out@.len() ==> (#[trigger] out@[j]) < self.refs.len(),
            decreases n_cands - k,
        {
            let i = cands[k];
            proof {
                assert(self@.refs[i as int] == self.refs@[i as int]@);
            }
            let start = self.refs[i].target;
            let hit = ref_in_conflict(&self.graph, start, excl, range);
            proof {
                assert(hit == spec_ref_conflicts(self@, i as int, b, u)) by {
                    if hit {
                        let c = choose|c: int|
                            0 <= c < self.graph.n() && #[trigger] range@[c] && reaches(
                                gm,
                                start as int,
                                c,
                            );
                        assert(in_rewrite_range(gm, b, u, c));
                        assert(spec_ref_conflicts(self@, i as int, b, u));
                    } else {
                        if spec_ref_conflicts(self@, i as int, b, u) {
                            let c = choose|c: int|
                                0 <= c < gm.len() && #[trigger] in_rewrite_range(gm, b, u, c)
                                    && reaches(gm, start as int, c);
                            assert(range@[c]);
                            assert(false);
                        }
                    }
                }
                assert(ci[k as int] == i as int);
            }
            if hit {
                let ghost prev = out@.map_values(|x: usize| x as int);
                out.push(i);
                proof {
                    assert(out@.map_values(|x: usize| x as int) =~= prev.push(i as int));
                }
            }
            k = k + 1;
        }
        out
    }

    /// One whole analysis over the snapshot: resolve, compute the rewrite
    /// range, filter, test each candidate, and report. The returned value is
    /// exactly `spec_analyze` of the snapshot and arguments, so an unchanged
    /// snapshot always yields the same outcome.
    #[verifier::loop_isolation(false)]
    pub fn analyze(&self, upstream: Option<&str>, branch: Option<&str>) -> (r: Result<
        AnalysisResult,
        AnalysisError,
    >)
        requires
            self.wf(),
        ensures
            outcome_of(r) == spec_analyze(self@, opt_name(upstream), opt_name(branch)),
    {
        let ghost m = self@;
        let bref = match self.resolve_branch(branch) {
            Ok(i) => i,
            Err(e) => {
                return Err(e);
            },
        };
        let u = match self.resolve_upstream(upstream, bref) {
            Ok(u) => u,
            Err(e) => {
                return Err(e);
            },
        };
        proof {
            assert(self@.refs[bref as int] == self.refs@[bref as int]@);
        }
        let b = self.refs[bref].target;
        let excl = reachable_commits(&self.graph, u);
        let range = rewrite_range(&self.graph, b, u);
        let cands = self.candidates(bref);
        let confl = self.conflicting_refs(&cands, &excl, &range, Ghost(b as int), Ghost(u as int));
        proof {
            assert(cands@.map_values(|x: usize| x as int) == spec_candidates(m, bref as int));
            assert(confl@.map_values(|x: usize| x as int) == spec_conflicting(
                m,
                bref as int,
                b as int,
                u as int,
            ));
        }
        let n_confl = confl.len();
        let mut names: Vec<String> = Vec::new();
        let mut k: usize = 0;
        while k < n_confl
            invariant
                k <= n_confl,
                names@.len() == k,
                forall|j: int|
                    0 <= j < k ==> (#[trigger] names@[j])@ == m.refs[confl@[j] as int].name,
            decreases n_confl - k,
        {
            let i = confl[k];
            proof {
                assert(self@.refs[i as int] == self.refs@[i as int]@);
            }
            names.push(self.refs[i].name.clone());
            k = k + 1;
        }
        proof {
            let spec_names = spec_conflict_names(m, bref as int, b as int, u as int);
            let cf = confl@.map_values(|x: usize| x as int);
            assert(spec_names.len() == cf.len());
            assert forall|j: int| 0 <= j < names@.len() implies names.deep_view()[j]
                == spec_names[j] by {
                assert(names.deep_view()[j] == names@[j]@);
                assert(cf[j] == confl@[j] as int);
                assert(spec_names[j] == m.refs[cf[j]].name);
            }
            assert(names.deep_view() =~= spec_names);
        }
        if names.len() == 0 {
            Ok(AnalysisResult::Safe)
        } else {
            Ok(AnalysisResult::Unsafe { references: names })
        }
    }
}

} // verus!
