//! The commit graph and its reachability theory.
//!
//! A commit graph is a snapshot of a repository's history: commit identifiers
//! are dense indices, and each commit lists the identifiers of its parents.
//! Reachability along parent edges is defined through explicit paths, and the
//! lemmas here let the traversal code relate a visited set to that definition.

use vstd::prelude::*;

verus! {

/// A read-only snapshot of a repository's commit objects: `parents[c]` lists
/// the parents of commit `c`. A root commit has an empty list; a merge commit
/// has two or more entries.
pub struct CommitGraph {
    pub parents: Vec<Vec<usize>>,
}

impl CommitGraph {
    /// The mathematical model of the graph: a sequence of parent lists.
    pub open spec fn model(&self) -> Seq<Seq<usize>> {
        self.parents.deep_view()
    }

    /// The number of commits in the snapshot.
    pub open spec fn n(&self) -> nat {
        self.model().len()
    }

    /// Every parent identifier names a commit inside the snapshot.
    pub open spec fn wf(&self) -> bool {
        graph_wf(self.model())
    }

    pub fn node_count(&self) -> (n: usize)
        ensures
            n == self.n(),
    {
        self.parents.len()
    }
}

/// Every parent identifier is a valid commit index.
pub open spec fn graph_wf(g: Seq<Seq<usize>>) -> bool {
    forall|c: int, j: int|
        0 <= c < g.len() && 0 <= j < g[c].len() ==> (#[trigger] g[c][j]) < g.len()
}

/// Commit `c` has `p` among its parents.
pub open spec fn has_edge(g: Seq<Seq<usize>>, c: int, p: int) -> bool {
    &&& 0 <= c < g.len()
    &&& exists|j: int| 0 <= j < g[c].len() && (#[trigger] g[c][j]) == p
}

/// `p` is a non-empty walk through `g` in which consecutive commits are
/// linked by parent edges.
pub open spec fn path_ok(g: Seq<Seq<usize>>, p: Seq<int>) -> bool {
    &&& p.len() >= 1
    &&& forall|i: int| 0 <= i < p.len() ==> 0 <= #[trigger] p[i] < g.len()
    &&& forall|i: int| 0 <= i < p.len() - 1 ==> #[trigger] has_edge(g, p[i], p[i + 1])
}

/// No commit of the walk lies in `excl`.
pub open spec fn path_avoids(p: Seq<int>, excl: Set<int>) -> bool {
    forall|i: int| 0 <= i < p.len() ==> !excl.contains(#[trigger] p[i])
}

/// `to` is an ancestor of `from` (reflexively) along parent edges that never
/// touch a commit in `excl`.
pub open spec fn reaches_avoiding(g: Seq<Seq<usize>>, excl: Set<int>, from: int, to: int) -> bool {
    exists|p: Seq<int>|
        #![auto]
        path_ok(g, p) && path_avoids(p, excl) && p.first() == from && p.last() == to
}

/// `to` is an ancestor of `from`, or `from` itself.
pub open spec fn reaches(g: Seq<Seq<usize>>, from: int, to: int) -> bool {
    reaches_avoiding(g, Set::empty(), from, to)
}

/// Commit `c` will be recreated when the history of `branch` is rewritten
/// onto `upstream`: it is reachable from the branch tip but not from the
/// upstream tip.
pub open spec fn in_rewrite_range(g: Seq<Seq<usize>>, branch: int, upstream: int, c: int) -> bool {
    reaches(g, branch, c) && !reaches(g, upstream, c)
}

/// Reachability relates valid commits only.
pub proof fn lemma_reaches_valid(g: Seq<Seq<usize>>, excl: Set<int>, from: int, to: int)
    requires
        reaches_avoiding(g, excl, from, to),
    ensures
        0 <= from < g.len(),
        0 <= to < g.len(),
{
    let w = choose|w: Seq<int>|
        #![auto]
        path_ok(g, w) && path_avoids(w, excl) && w.first() == from && w.last() == to;
    assert(0 <= w[0] < g.len());
    assert(0 <= w[w.len() - 1] < g.len());
}

/// A commit outside `excl` reaches itself.
pub proof fn lemma_reaches_refl(g: Seq<Seq<usize>>, excl: Set<int>, x: int)
    requires
        0 <= x < g.len(),
        !excl.contains(x),
    ensures
        reaches_avoiding(g, excl, x, x),
{
    let p: Seq<int> = seq![x];
    assert(path_ok(g, p));
    assert(path_avoids(p, excl));
    assert(p.first() == x && p.last() == x);
}

/// Reachability extends across one parent edge that stays outside `excl`.
pub proof fn lemma_reaches_extend(g: Seq<Seq<usize>>, excl: Set<int>, from: int, mid: int, p: int)
    requires
        graph_wf(g),
        reaches_avoiding(g, excl, from, mid),
        has_edge(g, mid, p),
        !excl.contains(p),
    ensures
        reaches_avoiding(g, excl, from, p),
{
    let w = choose|w: Seq<int>|
        #![auto]
        path_ok(g, w) && path_avoids(w, excl) && w.first() == from && w.last() == mid;
    let j = choose|j: int| 0 <= j < g[mid].len() && (#[trigger] g[mid][j]) == p;
    assert(0 <= p < g.len());
    let w2 = w.push(p);
    assert forall|i: int| 0 <= i < w2.len() - 1 implies #[trigger] has_edge(g, w2[i], w2[i + 1]) by {
        if i < w.len() - 1 {
            assert(has_edge(g, w[i], w[i + 1]));
            assert(w2[i] == w[i] && w2[i + 1] == w[i + 1]);
        } else {
            assert(w2[i] == w.last() && w2[i + 1] == p);
        }
    }
    assert(path_ok(g, w2));
    assert(path_avoids(w2, excl));
    assert(w2.first() == from && w2.last() == p);
}

/// A walk that avoids a larger exclusion set also avoids a smaller one.
pub proof fn lemma_reaches_widen(g: Seq<Seq<usize>>, small: Set<int>, large: Set<int>, from: int, to: int)
    requires
        reaches_avoiding(g, large, from, to),
        forall|x: int| small.contains(x) ==> large.contains(x),
    ensures
        reaches_avoiding(g, small, from, to),
{
    let w = choose|w: Seq<int>|
        #![auto]
        path_ok(g, w) && path_avoids(w, large) && w.first() == from && w.last() == to;
    assert(path_avoids(w, small));
}

/// Reachability is transitive under a common exclusion set.
pub proof fn lemma_reaches_trans(g: Seq<Seq<usize>>, excl: Set<int>, a: int, b: int, c: int)
    requires
        reaches_avoiding(g, excl, a, b),
        reaches_avoiding(g, excl, b, c),
    ensures
        reaches_avoiding(g, excl, a, c),
{
    let w1 = choose|w: Seq<int>|
        #![auto]
        path_ok(g, w) && path_avoids(w, excl) && w.first() == a && w.last() == b;
    let w2 = choose|w: Seq<int>|
        #![auto]
        path_ok(g, w) && path_avoids(w, excl) && w.first() == b && w.last() == c;
    let w = w1 + w2.subrange(1, w2.len() as int);
    assert(w.len() == w1.len() + w2.len() - 1);
    assert forall|i: int| 0 <= i < w.len() implies 0 <= #[trigger] w[i] < g.len() by {
        if i < w1.len() {
            assert(w[i] == w1[i]);
        } else {
            assert(w[i] == w2[i - w1.len() + 1]);
        }
    }
    assert forall|i: int| 0 <= i < w.len() - 1 implies #[trigger] has_edge(g, w[i], w[i + 1]) by {
        if i < w1.len() - 1 {
            assert(w[i] == w1[i] && w[i + 1] == w1[i + 1]);
            assert(has_edge(g, w1[i], w1[i + 1]));
        } else if i == w1.len() - 1 {
            assert(w[i] == w1.last());
            assert(w1.last() == b && w2[0] == b);
            assert(w[i + 1] == w2[1]);
            assert(has_edge(g, w2[0], w2[1]));
        } else {
            let k = i - w1.len() + 1;
            assert(w[i] == w2[k] && w[i + 1] == w2[k + 1]);
            assert(has_edge(g, w2[k], w2[k + 1]));
        }
    }
    assert forall|i: int| 0 <= i < w.len() implies !excl.contains(#[trigger] w[i]) by {
        if i < w1.len() {
            assert(w[i] == w1[i]);
            assert(!excl.contains(w1[i]));
        } else {
            assert(w[i] == w2[i - w1.len() + 1]);
            assert(!excl.contains(w2[i - w1.len() + 1]));
        }
    }
    assert(path_ok(g, w));
    assert(path_avoids(w, excl));
    assert(w.first() == a);
    assert(w.last() == w2.last());
}

/// Every commit on a walk reaches the walk's final commit, avoiding whatever
/// the whole walk avoids.
pub proof fn lemma_path_node_reaches(g: Seq<Seq<usize>>, excl: Set<int>, p: Seq<int>, i: int)
    requires
        path_ok(g, p),
        path_avoids(p, excl),
        0 <= i < p.len(),
    ensures
        reaches_avoiding(g, excl, p[i], p.last()),
{
    let w = p.subrange(i, p.len() as int);
    assert forall|k: int| 0 <= k < w.len() - 1 implies #[trigger] has_edge(g, w[k], w[k + 1]) by {
        assert(w[k] == p[i + k] && w[k + 1] == p[i + k + 1]);
        assert(has_edge(g, p[i + k], p[i + k + 1]));
    }
    assert forall|k: int| 0 <= k < w.len() implies !excl.contains(#[trigger] w[k]) by {
        assert(w[k] == p[i + k]);
        assert(!excl.contains(p[i + k]));
    }
    assert(path_ok(g, w));
    assert(path_avoids(w, excl));
    assert(w.first() == p[i]);
    assert(w.last() == p.last());
}

/// A set that contains the start of a walk and is closed under parent edges
/// leading outside `excl` contains the walk's final commit, provided the walk
/// avoids `excl`.
pub proof fn lemma_closed_set_holds_path_end(
    g: Seq<Seq<usize>>,
    excl: Set<int>,
    p: Seq<int>,
    s: Set<int>,
)
    requires
        path_ok(g, p),
        path_avoids(p, excl),
        s.contains(p.first()),
        forall|c: int, q: int|
            #![trigger s.contains(c), has_edge(g, c, q)]
            s.contains(c) && has_edge(g, c, q) && !excl.contains(q) ==> s.contains(q),
    ensures
        s.contains(p.last()),
    decreases p.len(),
{
    if p.len() == 1 {
        assert(p.last() == p.first());
    } else {
        assert(p.len() >= 2);
        let zero: int = 0;
        assert(has_edge(g, p[zero], p[zero + 1]));
        assert(!excl.contains(p[1]));
        assert(s.contains(p[1]));
        let w = p.subrange(1, p.len() as int);
        assert forall|k: int| 0 <= k < w.len() - 1 implies #[trigger] has_edge(g, w[k], w[k + 1]) by {
            assert(w[k] == p[1 + k] && w[k + 1] == p[1 + k + 1]);
            assert(has_edge(g, p[1 + k], p[1 + k + 1]));
        }
        assert forall|k: int| 0 <= k < w.len() implies !excl.contains(#[trigger] w[k]) by {
            assert(w[k] == p[1 + k]);
            assert(!excl.contains(p[1 + k]));
        }
        assert(path_ok(g, w));
        assert(path_avoids(w, excl));
        assert(w.first() == p[1]);
        lemma_closed_set_holds_path_end(g, excl, w, s);
        assert(w.last() == p.last());
    }
}

/// As above, stated for the reachability relation instead of an explicit walk.
pub proof fn lemma_closed_set_holds_reachable(
    g: Seq<Seq<usize>>,
    excl: Set<int>,
    from: int,
    to: int,
    s: Set<int>,
)
    requires
        reaches_avoiding(g, excl, from, to),
        s.contains(from),
        forall|c: int, q: int|
            #![trigger s.contains(c), has_edge(g, c, q)]
            s.contains(c) && has_edge(g, c, q) && !excl.contains(q) ==> s.contains(q),
    ensures
        s.contains(to),
{
    let w = choose|w: Seq<int>|
        #![auto]
        path_ok(g, w) && path_avoids(w, excl) && w.first() == from && w.last() == to;
    lemma_closed_set_holds_path_end(g, excl, w, s);
}

/// When the exclusion set is closed under reachability and the target lies
/// outside it, any walk to the target can be assumed to avoid the exclusion
/// set altogether: a bounded search loses nothing.
pub proof fn lemma_avoiding_when_excl_closed(
    g: Seq<Seq<usize>>,
    excl: Set<int>,
    from: int,
    to: int,
)
    requires
        reaches(g, from, to),
        forall|y: int, z: int|
            #![trigger excl.contains(y), reaches(g, y, z)]
            excl.contains(y) && reaches(g, y, z) ==> excl.contains(z),
        !excl.contains(to),
    ensures
        reaches_avoiding(g, excl, from, to),
{
    let w = choose|w: Seq<int>|
        #![auto]
        path_ok(g, w) && path_avoids(w, Set::<int>::empty()) && w.first() == from && w.last() == to;
    assert forall|i: int| 0 <= i < w.len() implies !excl.contains(#[trigger] w[i]) by {
        if excl.contains(w[i]) {
            lemma_path_node_reaches(g, Set::<int>::empty(), w, i);
            assert(reaches(g, w[i], to));
            assert(excl.contains(to));
        }
    }
    assert(path_avoids(w, excl));
}

} // verus!
