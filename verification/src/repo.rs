//! The repository snapshot: references over a commit graph, name resolution,
//! and the reference filter.
//!
//! All reference targets are captured once, as plain commit identifiers,
//! before an analysis begins; nothing here re-reads live repository state.

use vstd::prelude::*;
use crate::graph::{graph_wf, CommitGraph};
use crate::names::{
    all_digits, digits_val, parse_commit_id, prefetch_name, spec_prefetch_name, starts_with_str,
    str_eq, concat_strs,
};

verus! {

/// A named pointer to a commit, as captured at the start of an analysis:
/// the full reference name, the commit it points at, whether it is a
/// remote-tracking reference, and — for a local branch with one configured —
/// the index of its upstream reference.
pub struct RefInfo {
    pub name: String,
    pub target: usize,
    pub is_remote: bool,
    pub upstream: Option<usize>,
}

/// The mathematical model of a reference.
pub struct RefModel {
    pub name: Seq<char>,
    pub target: usize,
    pub is_remote: bool,
    pub upstream: Option<usize>,
}

impl View for RefInfo {
    type V = RefModel;

    open spec fn view(&self) -> RefModel {
        RefModel {
            name: self.name@,
            target: self.target,
            is_remote: self.is_remote,
            upstream: self.upstream,
        }
    }
}

/// A read-only snapshot of a repository: its commit graph, every reference,
/// and which reference is currently checked out.
pub struct RepoView {
    pub graph: CommitGraph,
    pub refs: Vec<RefInfo>,
    pub head: Option<usize>,
}

/// The mathematical model of a snapshot.
pub struct RepoModel {
    pub parents: Seq<Seq<usize>>,
    pub refs: Seq<RefModel>,
    pub head: Option<usize>,
}

impl View for RepoView {
    type V = RepoModel;

    open spec fn view(&self) -> RepoModel {
        RepoModel {
            parents: self.graph.model(),
            refs: self.refs@.map_values(|r: RefInfo| r@),
            head: self.head,
        }
    }
}

/// Every reference target is a commit of the graph, every upstream index and
/// the head index name a reference of the snapshot.
pub open spec fn repo_wf(m: RepoModel) -> bool {
    &&& graph_wf(m.parents)
    &&& forall|i: int|
        0 <= i < m.refs.len() ==> (#[trigger] m.refs[i]).target < m.parents.len()
    &&& forall|i: int|
        0 <= i < m.refs.len() ==> match (#[trigger] m.refs[i]).upstream {
            Some(u) => u < m.refs.len(),
            None => true,
        }
    &&& match m.head {
        Some(h) => h < m.refs.len(),
        None => true,
    }
}

impl RepoView {
    pub open spec fn wf(&self) -> bool {
        repo_wf(self@)
    }
}

/// The position of the first reference bearing `name`, scanning in
/// enumeration order.
pub open spec fn first_ref_named(refs: Seq<RefModel>, name: Seq<char>) -> Option<int>
    decreases refs.len(),
{
    if refs.len() == 0 {
        None
    } else if refs[0].name == name {
        Some(0)
    } else {
        match first_ref_named(refs.drop_first(), name) {
            Some(i) => Some(i + 1),
            None => None,
        }
    }
}

/// `first_ref_named` finds the earliest match, and `None` means no match.
pub proof fn lemma_first_ref_named(refs: Seq<RefModel>, name: Seq<char>)
    ensures
        match first_ref_named(refs, name) {
            Some(i) => 0 <= i < refs.len() && refs[i].name == name && forall|j: int|
                0 <= j < i ==> (#[trigger] refs[j]).name != name,
            None => forall|j: int| 0 <= j < refs.len() ==> (#[trigger] refs[j]).name != name,
        },
    decreases refs.len(),
{
    if refs.len() > 0 && refs[0].name != name {
        lemma_first_ref_named(refs.drop_first(), name);
        match first_ref_named(refs.drop_first(), name) {
            Some(i) => {
                assert(refs.drop_first()[i] == refs[i + 1]);
                assert forall|j: int| 0 <= j < i + 1 implies (#[trigger] refs[j]).name != name by {
                    if j > 0 {
                        assert(refs.drop_first()[j - 1] == refs[j]);
                    }
                }
            },
            None => {
                assert forall|j: int| 0 <= j < refs.len() implies (#[trigger] refs[j]).name
                    != name by {
                    if j > 0 {
                        assert(refs.drop_first()[j - 1] == refs[j]);
                    }
                }
            },
        }
    }
}

/// Resolution of a short name against the reference namespace, trying the
/// conventional expansions in their fixed search order.
pub open spec fn spec_resolve_short(m: RepoModel, s: Seq<char>) -> Option<int> {
    if first_ref_named(m.refs, s) is Some {
        first_ref_named(m.refs, s)
    } else if first_ref_named(m.refs, "refs/"@ + s) is Some {
        first_ref_named(m.refs, "refs/"@ + s)
    } else if first_ref_named(m.refs, "refs/tags/"@ + s) is Some {
        first_ref_named(m.refs, "refs/tags/"@ + s)
    } else if first_ref_named(m.refs, "refs/heads/"@ + s) is Some {
        first_ref_named(m.refs, "refs/heads/"@ + s)
    } else if first_ref_named(m.refs, "refs/remotes/"@ + s) is Some {
        first_ref_named(m.refs, "refs/remotes/"@ + s)
    } else {
        first_ref_named(m.refs, "refs/remotes/"@ + s + "/HEAD"@)
    }
}

/// The ways resolution of the caller's input can fail; each is terminal for
/// the whole analysis.
#[derive(Clone, Copy, Debug, PartialEq, Eq)]
pub enum AnalysisError {
    /// The requested branch name does not name a local branch.
    BranchNotFound,
    /// The requested upstream is neither a reference nor a commit identifier.
    UpstreamNotFound,
    /// No upstream was supplied and the branch has none configured.
    NoUpstreamConfigured,
    /// No branch was supplied and no branch is checked out.
    NoCurrentBranch,
}

/// Resolution of the branch argument: a given name is looked up as a local
/// branch; with none given, the checked-out branch is used.
pub open spec fn spec_resolve_branch(m: RepoModel, br: Option<Seq<char>>) -> Result<
    int,
    AnalysisError,
> {
    match br {
        Some(nm) => match first_ref_named(m.refs, "refs/heads/"@ + nm) {
            Some(i) => Ok(i),
            None => Err(AnalysisError::BranchNotFound),
        },
        None => match m.head {
            Some(h) => Ok(h as int),
            None => Err(AnalysisError::NoCurrentBranch),
        },
    }
}

/// Resolution of the upstream argument to a commit: a given string is tried
/// as a reference short name, then as a direct commit identifier in decimal;
/// with none given, the branch's configured upstream is used.
pub open spec fn spec_resolve_upstream(m: RepoModel, up: Option<Seq<char>>, bref: int) -> Result<
    usize,
    AnalysisError,
> {
    match up {
        Some(s) => match spec_resolve_short(m, s) {
            Some(i) => Ok(m.refs[i].target),
            None => if s.len() > 0 && all_digits(s) && 0 <= digits_val(s) < m.parents.len() {
                Ok(digits_val(s) as usize)
            } else {
                Err(AnalysisError::UpstreamNotFound)
            },
        },
        None => match m.refs[bref].upstream {
            Some(u) => Ok(m.refs[u as int].target),
            None => Err(AnalysisError::NoUpstreamConfigured),
        },
    }
}

impl RepoView {
    /// Scans the references for the first one bearing `name`.
    #[verifier::loop_isolation(false)]
    pub fn find_ref_named(&self, name: &str) -> (r: Option<usize>)
        ensures
            match r {
                Some(i) => first_ref_named(self@.refs, name@) == Some(i as int),
                None => first_ref_named(self@.refs, name@) is None,
            },
    {
        let n = self.refs.len();
        let mut i: usize = 0;
        while i < n
            invariant
                i <= n,
                forall|j: int| 0 <= j < i ==> (#[trigger] self@.refs[j]).name != name@,
            decreases n - i,
        {
            if str_eq(self.refs[i].name.as_str(), name) {
                proof {
                    assert(self@.refs[i as int] == self.refs@[i as int]@);
                    assert(self@.refs[i as int].name == name@);
                    lemma_first_ref_named(self@.refs, name@);
                }
                return Some(i);
            }
            proof {
                assert(self@.refs[i as int] == self.refs@[i as int]@);
            }
            i = i + 1;
        }
        proof {
            lemma_first_ref_named(self@.refs, name@);
        }
        None
    }

    /// Resolves a short name by the conventional search order.
    pub fn resolve_short(&self, s: &str) -> (r: Option<usize>)
        ensures
            match r {
                Some(i) => spec_resolve_short(self@, s@) == Some(i as int),
                None => spec_resolve_short(self@, s@) is None,
            },
    {
        if let Some(i) = self.find_ref_named(s) {
            return Some(i);
        }
        let c1 = concat_strs("refs/", s);
        if let Some(i) = self.find_ref_named(c1.as_str()) {
            return Some(i);
        }
        let c2 = concat_strs("refs/tags/", s);
        if let Some(i) = self.find_ref_named(c2.as_str()) {
            return Some(i);
        }
        let c3 = concat_strs("refs/heads/", s);
        if let Some(i) = self.find_ref_named(c3.as_str()) {
            return Some(i);
        }
        let c4 = concat_strs("refs/remotes/", s);
        if let Some(i) = self.find_ref_named(c4.as_str()) {
            return Some(i);
        }
        let c5 = concat_strs(c4.as_str(), "/HEAD");
        let r = self.find_ref_named(c5.as_str());
        r
    }

    /// Resolves the branch argument to a reference of the snapshot.
    pub fn resolve_branch(&self, branch: Option<&str>) -> (r: Result<usize, AnalysisError>)
        requires
            self.wf(),
        ensures
            match r {
                Ok(i) => spec_resolve_branch(self@, opt_name(branch)) == Ok::<
                    int,
                    AnalysisError,
                >(i as int) && i < self.refs.len(),
                Err(e) => spec_resolve_branch(self@, opt_name(branch)) == Err::<
                    int,
                    AnalysisError,
                >(e),
            },
    {
        match branch {
            Some(nm) => {
                let full = concat_strs("refs/heads/", nm);
                match self.find_ref_named(full.as_str()) {
                    Some(i) => {
                        proof {
                            lemma_first_ref_named(self@.refs, full@);
                        }
                        Ok(i)
                    },
                    None => Err(AnalysisError::BranchNotFound),
                }
            },
            None => match self.head {
                Some(h) => Ok(h),
                None => Err(AnalysisError::NoCurrentBranch),
            },
        }
    }

    /// Resolves the upstream argument to a commit of the snapshot.
    pub fn resolve_upstream(&self, up: Option<&str>, bref: usize) -> (r: Result<
        usize,
        AnalysisError,
    >)
        requires
            self.wf(),
            bref < self.refs.len(),
        ensures
            match r {
                Ok(u) => spec_resolve_upstream(self@, opt_name(up), bref as int) == Ok::<
                    usize,
                    AnalysisError,
                >(u) && u < self.graph.n(),
                Err(e) => spec_resolve_upstream(self@, opt_name(up), bref as int) == Err::<
                    usize,
                    AnalysisError,
                >(e),
            },
    {
        match up {
            Some(s) => match self.resolve_short(s) {
                Some(i) => {
                    proof {
                        lemma_resolve_short_valid(self@, s@);
                    }
                    Ok(self.refs[i].target)
                },
                None => match parse_commit_id(s, self.graph.node_count()) {
                    Some(v) => Ok(v),
                    None => Err(AnalysisError::UpstreamNotFound),
                },
            },
            None => match self.refs[bref].upstream {
                Some(u) => Ok(self.refs[u].target),
                None => Err(AnalysisError::NoUpstreamConfigured),
            },
        }
    }
}

/// The model of an optional name argument.
pub open spec fn opt_name(o: Option<&str>) -> Option<Seq<char>> {
    match o {
        Some(s) => Some(s@),
        None => None,
    }
}

/// A successfully resolved short name is a position inside the references.
pub proof fn lemma_resolve_short_valid(m: RepoModel, s: Seq<char>)
    ensures
        match spec_resolve_short(m, s) {
            Some(i) => 0 <= i < m.refs.len() && m.refs[i].name == spec_resolve_short_name(m, s),
            None => true,
        },
{
    lemma_first_ref_named(m.refs, s);
    lemma_first_ref_named(m.refs, "refs/"@ + s);
    lemma_first_ref_named(m.refs, "refs/tags/"@ + s);
    lemma_first_ref_named(m.refs, "refs/heads/"@ + s);
    lemma_first_ref_named(m.refs, "refs/remotes/"@ + s);
    lemma_first_ref_named(m.refs, "refs/remotes/"@ + s + "/HEAD"@);
}

/// Whether reference `i` takes part in collision checking when reference `b`
/// is the one being rewritten. Excluded, by exact name match: the rewritten
/// reference itself, the stash, the rewritten reference's configured
/// upstream, and that upstream's prefetch mirror. The upstream and its
/// mirror overlap the rewritten history by design; they are expected, not
/// risks.
pub open spec fn spec_is_candidate(m: RepoModel, b: int, i: int) -> bool {
    &&& m.refs[i].name != m.refs[b].name
    &&& m.refs[i].name != "refs/stash"@
    &&& match m.refs[b].upstream {
        Some(u) => {
            &&& m.refs[i].name != m.refs[u as int].name
            &&& match spec_prefetch_name(m.refs[u as int].name, m.refs[u as int].is_remote) {
                Some(pn) => m.refs[i].name != pn,
                None => true,
            }
        },
        None => true,
    }
}

/// The candidate references among the first `n`, in enumeration order.
pub open spec fn spec_candidates_upto(m: RepoModel, b: int, n: int) -> Seq<int>
    decreases n,
{
    if n <= 0 {
        Seq::empty()
    } else {
        let prev = spec_candidates_upto(m, b, n - 1);
        if spec_is_candidate(m, b, n - 1) {
            prev.push(n - 1)
        } else {
            prev
        }
    }
}

/// The candidates for collision checking, in enumeration order.
pub open spec fn spec_candidates(m: RepoModel, b: int) -> Seq<int> {
    spec_candidates_upto(m, b, m.refs.len() as int)
}

/// The candidate sequence holds exactly the indices below `n` that pass the
/// filter.
pub proof fn lemma_candidates_membership(m: RepoModel, b: int, n: int)
    ensures
        forall|x: int|
            #[trigger] spec_candidates_upto(m, b, n).contains(x) <==> 0 <= x < n
                && spec_is_candidate(m, b, x),
    decreases n,
{
    if n > 0 {
        lemma_candidates_membership(m, b, n - 1);
        let prev = spec_candidates_upto(m, b, n - 1);
        let cur = spec_candidates_upto(m, b, n);
        assert forall|x: int| #[trigger] cur.contains(x) implies 0 <= x < n && spec_is_candidate(
            m,
            b,
            x,
        ) by {
            let k = choose|k: int| 0 <= k < cur.len() && cur[k] == x;
            if spec_is_candidate(m, b, n - 1) {
                if k < prev.len() {
                    assert(prev[k] == x);
                    assert(prev.contains(x));
                }
            } else {
                assert(prev[k] == x);
                assert(prev.contains(x));
            }
        }
        assert forall|x: int| 0 <= x < n && spec_is_candidate(m, b, x) implies
            #[trigger] cur.contains(x) by {
            if x < n - 1 {
                assert(prev.contains(x));
                let k = choose|k: int| 0 <= k < prev.len() && prev[k] == x;
                assert(cur[k] == x);
            } else {
                assert(cur[cur.len() - 1] == x);
            }
        }
    }
}

impl RepoView {
    /// Whether reference `i` is a candidate when reference `b` is rewritten.
    pub fn is_candidate(&self, b: usize, i: usize) -> (r: bool)
        requires
            self.wf(),
            b < self.refs.len(),
            i < self.refs.len(),
        ensures
            r == spec_is_candidate(self@, b as int, i as int),
    {
        proof {
            assert(self@.refs[i as int] == self.refs@[i as int]@);
            assert(self@.refs[b as int] == self.refs@[b as int]@);
        }
        let name_i = self.refs[i].name.as_str();
        if str_eq(name_i, self.refs[b].name.as_str()) {
            return false;
        }
        if str_eq(name_i, "refs/stash") {
            return false;
        }
        match self.refs[b].upstream {
            Some(u) => {
                proof {
                    assert(self@.refs[u as int] == self.refs@[u as int]@);
                }
                if str_eq(name_i, self.refs[u].name.as_str()) {
                    return false;
                }
                match prefetch_name(self.refs[u].name.as_str(), self.refs[u].is_remote) {
                    Some(pn) => !str_eq(name_i, pn.as_str()),
                    None => true,
                }
            },
            None => true,
        }
    }

    /// Narrows the reference universe to the candidates for collision
    /// checking, preserving enumeration order.
    #[verifier::loop_isolation(false)]
    pub fn candidates(&self, b: usize) -> (out: Vec<usize>)
        requires
            self.wf(),
            b < self.refs.len(),
        ensures
            out@.map_values(|x: usize| x as int) == spec_candidates(self@, b as int),
            forall|k: int| 0 <= k < out@.len() ==> (#[trigger] out@[k]) < self.refs.len(),
    {
        let n = self.refs.len();
        let mut out: Vec<usize> = Vec::new();
        let mut i: usize = 0;
        proof {
            assert(out@.map_values(|x: usize| x as int) =~= spec_candidates_upto(
                self@,
                b as int,
                0,
            ));
        }
        while i < n
            invariant
                i <= n,
                out@.map_values(|x: usize| x as int) == spec_candidates_upto(
                    self@,
                    b as int,
                    i as int,
                ),
                forall|k: int| 0 <= k < out@.len() ==> (#[trigger] out@[k]) < n,
            decreases n - i,
        {
            if self.is_candidate(b, i) {
                let ghost prev = out@.map_values(|x: usize| x as int);
                out.push(i);
                proof {
                    assert(out@.map_values(|x: usize| x as int) =~= prev.push(i as int));
                }
            }
            i = i + 1;
        }
        out
    }
}

/// The full name that a successful short-name resolution matched.
pub open spec fn spec_resolve_short_name(m: RepoModel, s: Seq<char>) -> Seq<char> {
    if first_ref_named(m.refs, s) is Some {
        s
    } else if first_ref_named(m.refs, "refs/"@ + s) is Some {
        "refs/"@ + s
    } else if first_ref_named(m.refs, "refs/tags/"@ + s) is Some {
        "refs/tags/"@ + s
    } else if first_ref_named(m.refs, "refs/heads/"@ + s) is Some {
        "refs/heads/"@ + s
    } else if first_ref_named(m.refs, "refs/remotes/"@ + s) is Some {
        "refs/remotes/"@ + s
    } else {
        "refs/remotes/"@ + s + "/HEAD"@
    }
}

} // verus!
