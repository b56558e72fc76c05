//! Directed graphs given as adjacency lists, and reachability over them.
use vstd::prelude::*;

verus! {

/// Every target named in `adj` is a vertex of `adj`.
pub open spec fn well_formed(adj: Seq<Seq<usize>>) -> bool {
    forall|u: int, k: int| 0 <= u < adj.len() && 0 <= k < adj[u].len() ==> #[trigger] adj[u][k] < adj.len()
}

/// `adj` holds an edge from `u` to `v`.
pub open spec fn edge(adj: Seq<Seq<usize>>, u: int, v: int) -> bool {
    0 <= u < adj.len() && exists|k: int| 0 <= k < adj[u].len() && #[trigger] adj[u][k] as int == v
}

/// The step from position `i` to `i + 1` of `p` is an edge of `adj`.
pub open spec fn step_at(adj: Seq<Seq<usize>>, p: Seq<int>, i: int) -> bool {
    edge(adj, p[i], p[i + 1])
}

/// `p` is a non-empty walk along the edges of `adj`.
pub open spec fn is_path(adj: Seq<Seq<usize>>, p: Seq<int>) -> bool {
    &&& p.len() >= 1
    &&& forall|i: int| 0 <= i < p.len() - 1 ==> #[trigger] step_at(adj, p, i)
}

/// Some walk of `adj` leads from `u` to `v` (every vertex reaches itself).
pub open spec fn reaches(adj: Seq<Seq<usize>>, u: int, v: int) -> bool {
    exists|p: Seq<int>| #[trigger] is_path(adj, p) && p[0] == u && p.last() == v
}

/// `u` and `v` reach each other: they lie in the same strongly connected component.
pub open spec fn strongly_connected(adj: Seq<Seq<usize>>, u: int, v: int) -> bool {
    reaches(adj, u, v) && reaches(adj, v, u)
}

/// `v` lies on a cycle of `adj`: a walk of at least one edge leads from `v` back to `v`.
pub open spec fn on_cycle(adj: Seq<Seq<usize>>, v: int) -> bool {
    exists|w: int| #[trigger] edge(adj, v, w) && reaches(adj, w, v)
}

pub proof fn lemma_reaches_refl(adj: Seq<Seq<usize>>, u: int)
    ensures
        reaches(adj, u, u),
{
    let p = seq![u];
    assert(is_path(adj, p));
}

pub proof fn lemma_reaches_edge(adj: Seq<Seq<usize>>, u: int, v: int)
    requires
        edge(adj, u, v),
    ensures
        reaches(adj, u, v),
{
    let p = seq![u, v];
    assert(step_at(adj, p, 0));
    assert(is_path(adj, p));
}

pub proof fn lemma_reaches_trans(adj: Seq<Seq<usize>>, u: int, v: int, w: int)
    requires
        reaches(adj, u, v),
        reaches(adj, v, w),
    ensures
        reaches(adj, u, w),
{
    let p1 = choose|p: Seq<int>| #[trigger] is_path(adj, p) && p[0] == u && p.last() == v;
    let p2 = choose|p: Seq<int>| #[trigger] is_path(adj, p) && p[0] == v && p.last() == w;
    let p = p1 + p2.skip(1);
    assert forall|i: int| 0 <= i < p.len() - 1 implies #[trigger] step_at(adj, p, i) by {
        if i < p1.len() - 1 {
            assert(step_at(adj, p1, i));
        } else if i == p1.len() - 1 {
            assert(step_at(adj, p2, 0));
        } else {
            assert(step_at(adj, p2, i - p1.len() + 1));
        }
    }
    assert(is_path(adj, p));
    if p2.len() == 1 {
        assert(p.last() == p1.last());
    } else {
        assert(p.last() == p2.last());
    }
}

pub proof fn lemma_reaches_edge_then(adj: Seq<Seq<usize>>, u: int, v: int, w: int)
    requires
        edge(adj, u, v),
        reaches(adj, v, w),
    ensures
        reaches(adj, u, w),
{
    lemma_reaches_edge(adj, u, v);
    lemma_reaches_trans(adj, u, v, w);
}

/// A walk that is not a single vertex starts with an edge.
pub proof fn lemma_reaches_first_step(adj: Seq<Seq<usize>>, u: int, w: int)
    requires
        reaches(adj, u, w),
        u != w,
    ensures
        exists|x: int| #[trigger] edge(adj, u, x) && reaches(adj, x, w),
{
    let p = choose|p: Seq<int>| #[trigger] is_path(adj, p) && p[0] == u && p.last() == w;
    assert(p.len() >= 2);
    assert(step_at(adj, p, 0));
    let q = p.skip(1);
    assert forall|i: int| 0 <= i < q.len() - 1 implies #[trigger] step_at(adj, q, i) by {
        assert(step_at(adj, p, i + 1));
    }
    assert(is_path(adj, q));
    assert(edge(adj, u, p[1]) && reaches(adj, p[1], w));
}

/// A measure that never grows along an edge never grows along a walk.
pub proof fn lemma_reaches_monotone(adj: Seq<Seq<usize>>, f: spec_fn(int) -> int, u: int, w: int)
    requires
        forall|a: int, b: int| #[trigger] edge(adj, a, b) ==> f(b) <= f(a),
        reaches(adj, u, w),
    ensures
        f(w) <= f(u),
{
    let p = choose|p: Seq<int>| #[trigger] is_path(adj, p) && p[0] == u && p.last() == w;
    lemma_path_monotone(adj, f, p, p.len() - 1);
}

proof fn lemma_path_monotone(adj: Seq<Seq<usize>>, f: spec_fn(int) -> int, p: Seq<int>, i: int)
    requires
        forall|a: int, b: int| #[trigger] edge(adj, a, b) ==> f(b) <= f(a),
        is_path(adj, p),
        0 <= i < p.len(),
    ensures
        f(p[i]) <= f(p[0]),
    decreases i,
{
    if i > 0 {
        lemma_path_monotone(adj, f, p, i - 1);
        assert(step_at(adj, p, i - 1));
    }
}

} // verus!
