//! The reachability engine.
//!
//! One analysis run walks the commit graph a handful of times: once from the
//! upstream tip, once from the branch tip, and once per candidate reference.
//! Each walk visits every commit at most once, deduplicating by identifier,
//! and a per-reference walk is bounded by the set of commits reachable from
//! the upstream tip, so shared history is never searched past that boundary.

use vstd::prelude::*;
use vstd::set_lib::{lemma_int_range, lemma_len_subset, set_int_range};
use vstd::set::axiom_set_insert_len;
use crate::graph::{
    CommitGraph, has_edge, in_rewrite_range, lemma_avoiding_when_excl_closed,
    lemma_closed_set_holds_reachable, lemma_reaches_extend, lemma_reaches_refl,
    lemma_reaches_widen, path_avoids, path_ok, reaches, reaches_avoiding,
};

verus! {

/// The set of indices a boolean vector marks as present.
pub open spec fn marked(v: Seq<bool>) -> Set<int> {
    Set::new(|i: int| 0 <= i < v.len() && v[i])
}

/// A marked set is finite and no larger than its vector.
pub proof fn lemma_marked_finite(v: Seq<bool>)
    ensures
        marked(v).finite(),
        marked(v).len() <= v.len(),
{
    lemma_int_range(0, v.len() as int);
    assert(marked(v).subset_of(set_int_range(0, v.len() as int)));
    lemma_len_subset(marked(v), set_int_range(0, v.len() as int));
}

/// Marking one fresh index grows the marked set by exactly that index.
pub proof fn lemma_marked_update(v: Seq<bool>, i: int)
    requires
        0 <= i < v.len(),
        !v[i],
    ensures
        marked(v.update(i, true)) =~= marked(v).insert(i),
        marked(v.update(i, true)).len() == marked(v).len() + 1,
{
    assert(marked(v.update(i, true)) =~= marked(v).insert(i));
    lemma_marked_finite(v);
    axiom_set_insert_len(marked(v), i);
}

/// `c` occurs somewhere in the pending stack.
spec fn in_stack(st: Seq<usize>, c: int) -> bool {
    exists|k: int| 0 <= k < st.len() && (#[trigger] st[k]) == c
}

/// One row of the graph model is the view of the corresponding parent list.
proof fn lemma_model_row(g: &CommitGraph, c: int)
    requires
        0 <= c < g.n(),
    ensures
        g.model()[c] =~= g.parents@[c]@,
{
}

/// A vector of `n` entries, all unmarked.
fn falses(n: usize) -> (v: Vec<bool>)
    ensures
        v@.len() == n,
        forall|i: int| 0 <= i < n ==> !v@[i],
{
    let mut v: Vec<bool> = Vec::new();
    let mut k: usize = 0;
    while k < n
        invariant
            k <= n,
            v@.len() == k,
            forall|i: int| 0 <= i < k ==> !v@[i],
        decreases n - k,
    {
        v.push(false);
        k = k + 1;
    }
    v
}

/// Depth-first traversal from `start` along parent edges, never entering a
/// commit marked in `excl`. The result marks exactly the commits reachable
/// from `start` by walks that avoid `excl` throughout.
#[verifier::loop_isolation(false)]
pub fn reachable_bounded(g: &CommitGraph, start: usize, excl: &Vec<bool>) -> (vis: Vec<bool>)
    requires
        g.wf(),
        start < g.n(),
        excl@.len() == g.n(),
    ensures
        vis@.len() == g.n(),
        forall|c: int|
            0 <= c < g.n()
                ==> (#[trigger] vis@[c] <==> reaches_avoiding(
                g.model(),
                marked(excl@),
                start as int,
                c,
            )),
{
    let n = g.parents.len();
    let ghost gm = g.model();
    let ghost em = marked(excl@);
    let mut vis = falses(n);
    let mut stack: Vec<usize> = Vec::new();
    let mut nvis: usize = 0;

    proof {
        assert(marked(vis@) =~= Set::<int>::empty());
        broadcast use vstd::set::axiom_set_empty_len;
    }

    if !excl[start] {
        proof {
            lemma_marked_update(vis@, start as int);
            lemma_reaches_refl(gm, em, start as int);
        }
        vis[start] = true;
        stack.push(start);
        nvis = 1;
        proof {
            assert(stack@[0] == start);
            assert(in_stack(stack@, start as int));
        }
    }

    while stack.len() > 0
        invariant
            vis@.len() == n,
            nvis == marked(vis@).len(),
            nvis <= n,
            forall|k: int| 0 <= k < stack@.len() ==> (#[trigger] stack@[k]) < n,
            forall|k: int| 0 <= k < stack@.len() ==> vis@[(#[trigger] stack@[k]) as int],
            forall|c: int|
                0 <= c < n && #[trigger] vis@[c]
                    ==> reaches_avoiding(gm, em, start as int, c) && !em.contains(c),
            em.contains(start as int) || vis@[start as int],
            forall|c: int, j: int|
                0 <= c < n && vis@[c] && !in_stack(stack@, c) && 0 <= j < gm[c].len()
                    ==> em.contains((#[trigger] gm[c][j]) as int) || vis@[gm[c][j] as int],
        decreases n - nvis, stack@.len(),
    {
        let ghost stack_before = stack@;
        let c = stack.pop().unwrap();
        let ghost stack0 = stack@;
        let ghost nvis0 = nvis;
        proof {
            assert forall|cc: int| in_stack(stack_before, cc) && cc != c as int implies in_stack(
                stack@,
                cc,
            ) by {
                let k = choose|k: int|
                    0 <= k < stack_before.len() && (#[trigger] stack_before[k]) == cc;
                assert(k < stack_before.len() - 1);
                assert(stack@[k] == cc);
            }
        }
        let parents_len = g.parents[c].len();
        proof {
            lemma_model_row(g, c as int);
        }
        let mut j: usize = 0;
        while j < parents_len
            invariant
                j <= parents_len,
                parents_len == gm[c as int].len(),
                c < n,
                vis@.len() == n,
                nvis == marked(vis@).len(),
                nvis <= n,
                nvis >= nvis0,
                nvis > nvis0 || stack@.len() == stack0.len(),
                vis@[c as int],
                forall|k: int| 0 <= k < stack@.len() ==> (#[trigger] stack@[k]) < n,
                forall|k: int| 0 <= k < stack@.len() ==> vis@[(#[trigger] stack@[k]) as int],
                forall|cc: int|
                    0 <= cc < n && #[trigger] vis@[cc]
                        ==> reaches_avoiding(gm, em, start as int, cc) && !em.contains(cc),
                em.contains(start as int) || vis@[start as int],
                forall|cc: int, jj: int|
                    0 <= cc < n && vis@[cc] && !in_stack(stack@, cc) && cc != c && 0 <= jj
                        < gm[cc].len()
                        ==> em.contains((#[trigger] gm[cc][jj]) as int) || vis@[gm[cc][jj] as int],
                forall|jj: int|
                    0 <= jj < j
                        ==> em.contains((#[trigger] gm[c as int][jj]) as int)
                            || vis@[gm[c as int][jj] as int],
            decreases parents_len - j,
        {
            let p = g.parents[c][j];
            proof {
                lemma_model_row(g, c as int);
                assert(gm[c as int][j as int] == p);
                assert(p < n);
            }
            if !excl[p] && !vis[p] {
                proof {
                    assert(has_edge(gm, c as int, p as int));
                    lemma_reaches_extend(gm, em, start as int, c as int, p as int);
                    lemma_marked_update(vis@, p as int);
                }
                let ghost stack_pre = stack@;
                vis[p] = true;
                proof {
                    lemma_marked_finite(vis@);
                }
                nvis = nvis + 1;
                stack.push(p);
                proof {
                    assert(stack@[stack@.len() - 1] == p);
                    assert(in_stack(stack@, p as int));
                    assert forall|cc: int| in_stack(stack_pre, cc) implies in_stack(
                        stack@,
                        cc,
                    ) by {
                        let k = choose|k: int|
                            0 <= k < stack_pre.len() && (#[trigger] stack_pre[k]) == cc;
                        assert(stack@[k] == cc);
                    }
                }
            }
            j = j + 1;
        }
    }

    proof {
        assert forall|c: int|
            0 <= c < g.n() && reaches_avoiding(gm, em, start as int, c) implies vis@[c] by {
            if em.contains(start as int) {
                let w = choose|w: Seq<int>|
                    #![auto]
                    path_ok(gm, w) && path_avoids(w, em) && w.first() == start as int && w.last()
                        == c;
                assert(!em.contains(w[0]));
                assert(false);
            } else {
                let s = marked(vis@);
                assert forall|cc: int, q: int|
                    #![trigger s.contains(cc), has_edge(gm, cc, q)]
                    s.contains(cc) && has_edge(gm, cc, q) && !em.contains(q) implies s.contains(
                    q,
                ) by {
                    let j = choose|j: int| 0 <= j < gm[cc].len() && (#[trigger] gm[cc][j]) == q;
                    assert(!in_stack(stack@, cc));
                    assert(em.contains(gm[cc][j] as int) || vis@[gm[cc][j] as int]);
                    assert(0 <= q < n);
                }
                lemma_closed_set_holds_reachable(gm, em, start as int, c, s);
            }
        }
    }

    vis
}

/// The commits reachable from `tip`, including `tip` itself.
pub fn reachable_commits(g: &CommitGraph, tip: usize) -> (r: Vec<bool>)
    requires
        g.wf(),
        tip < g.n(),
    ensures
        r@.len() == g.n(),
        forall|c: int| 0 <= c < g.n() ==> (#[trigger] r@[c] <==> reaches(g.model(), tip as int, c)),
{
    let n = g.parents.len();
    let none = falses(n);
    proof {
        assert(marked(none@) =~= Set::<int>::empty());
    }
    reachable_bounded(g, tip, &none)
}

/// The rewrite range: commits reachable from the branch tip but not from the
/// upstream tip — exactly the commits a rebase of `branch_tip` onto
/// `upstream_tip` would recreate. A commit reachable from both tips is never
/// in the range, however many paths lead to it.
#[verifier::loop_isolation(false)]
pub fn rewrite_range(g: &CommitGraph, branch_tip: usize, upstream_tip: usize) -> (r: Vec<bool>)
    requires
        g.wf(),
        branch_tip < g.n(),
        upstream_tip < g.n(),
    ensures
        r@.len() == g.n(),
        forall|c: int|
            0 <= c < g.n()
                ==> (#[trigger] r@[c] <==> in_rewrite_range(
                g.model(),
                branch_tip as int,
                upstream_tip as int,
                c,
            )),
{
    let n = g.parents.len();
    let from_branch = reachable_commits(g, branch_tip);
    let from_upstream = reachable_commits(g, upstream_tip);
    let mut r: Vec<bool> = Vec::new();
    let mut c: usize = 0;
    while c < n
        invariant
            c <= n,
            r@.len() == c,
            forall|i: int|
                0 <= i < c
                    ==> (#[trigger] r@[i] <==> in_rewrite_range(
                    g.model(),
                    branch_tip as int,
                    upstream_tip as int,
                    i,
                )),
        decreases n - c,
    {
        r.push(from_branch[c] && !from_upstream[c]);
        c = c + 1;
    }
    r
}

/// Whether any commit of `range` is reachable from `start` by a walk that
/// avoids the commits marked in `excl`. This is the membership test one
/// candidate reference undergoes, bounded by the exclusion set.
pub fn ref_intersects(g: &CommitGraph, start: usize, excl: &Vec<bool>, range: &Vec<bool>) -> (hit:
    bool)
    requires
        g.wf(),
        start < g.n(),
        excl@.len() == g.n(),
        range@.len() == g.n(),
    ensures
        hit == exists|c: int|
            0 <= c < g.n() && #[trigger] range@[c] && reaches_avoiding(
                g.model(),
                marked(excl@),
                start as int,
                c,
            ),
{
    let n = g.parents.len();
    let vis = reachable_bounded(g, start, excl);
    let mut c: usize = 0;
    while c < n
        invariant
            c <= n,
            n == g.n(),
            g.wf(),
            excl@.len() == g.n(),
            vis@.len() == g.n(),
            forall|i: int|
                0 <= i < g.n()
                    ==> (#[trigger] vis@[i] <==> reaches_avoiding(
                    g.model(),
                    marked(excl@),
                    start as int,
                    i,
                )),
            range@.len() == g.n(),
            forall|i: int| 0 <= i < c ==> !(#[trigger] range@[i] && vis@[i]),
        decreases n - c,
    {
        if range[c] && vis[c] {
            return true;
        }
        c = c + 1;
    }
    false
}

/// The membership test against the rewrite range, phrased in terms of plain
/// reachability: bounding the walk by an exclusion set that is closed under
/// reachability and disjoint from the range loses no conflict, because every
/// walk to a range commit stays outside such an exclusion set.
pub fn ref_in_conflict(g: &CommitGraph, start: usize, excl: &Vec<bool>, range: &Vec<bool>) -> (hit:
    bool)
    requires
        g.wf(),
        start < g.n(),
        excl@.len() == g.n(),
        range@.len() == g.n(),
        forall|y: int, z: int|
            #![trigger marked(excl@).contains(y), reaches(g.model(), y, z)]
            marked(excl@).contains(y) && reaches(g.model(), y, z) ==> marked(excl@).contains(z),
        forall|c: int| 0 <= c < g.n() && #[trigger] range@[c] ==> !marked(excl@).contains(c),
    ensures
        hit == exists|c: int|
            0 <= c < g.n() && #[trigger] range@[c] && reaches(g.model(), start as int, c),
{
    let hit = ref_intersects(g, start, excl, range);
    proof {
        let gm = g.model();
        let em = marked(excl@);
        if hit {
            let c = choose|c: int|
                0 <= c < g.n() && #[trigger] range@[c] && reaches_avoiding(
                    gm,
                    em,
                    start as int,
                    c,
                );
            lemma_reaches_widen(gm, Set::<int>::empty(), em, start as int, c);
            assert(reaches(gm, start as int, c));
        } else {
            assert forall|c: int|
                0 <= c < g.n() && #[trigger] range@[c] && reaches(gm, start as int, c) implies
                false by {
                lemma_avoiding_when_excl_closed(gm, em, start as int, c);
            }
        }
    }
    hit
}

} // verus!
