//! The steps that turn a pool's links into an execution order: the link graph,
//! the graph with the stateful systems' outgoing links cut, the cycle check on a
//! component, which system must run before which, and the order itself.
use vstd::prelude::*;

use crate::pool::graph::rows;
use crate::pool::link::SystemLink;
use crate::pool::paths::{edge, strongly_connected, well_formed};

verus! {

/// The adjacency lists of the link graph over `n` systems: for every link whose
/// ends are both below `n`, in link order, its target is appended to its source's row.
pub open spec fn link_graph(n: nat, links: Seq<SystemLink>) -> Seq<Seq<usize>>
    decreases links.len(),
{
    if links.len() == 0 {
        Seq::new(n, |u: int| Seq::<usize>::empty())
    } else {
        let g = link_graph(n, links.drop_last());
        let l = links.last();
        if l.from_system_idx < n && l.to_system_idx < n {
            g.update(l.from_system_idx as int, g[l.from_system_idx as int].push(l.to_system_idx))
        } else {
            g
        }
    }
}

/// Some link leads from system `u` to system `v`, both below `n`.
pub open spec fn linked(n: int, links: Seq<SystemLink>, u: int, v: int) -> bool {
    &&& 0 <= u < n
    &&& 0 <= v < n
    &&& exists|i: int|
        0 <= i < links.len() && #[trigger] links[i].from_system_idx == u && links[i].to_system_idx
            == v
}

/// The link graph has one row per system, names only systems below `n`, and has
/// an edge from `u` to `v` exactly when a link leads from `u` to `v`.
pub proof fn lemma_link_graph(n: nat, links: Seq<SystemLink>)
    ensures
        link_graph(n, links).len() == n,
        well_formed(link_graph(n, links)),
        forall|u: int, v: int|
            #[trigger] edge(link_graph(n, links), u, v) <==> linked(n as int, links, u, v),
    decreases links.len(),
{
    let g = link_graph(n, links);
    if links.len() == 0 {
        assert forall|u: int, v: int| #[trigger] edge(g, u, v) <==> linked(n as int, links, u, v) by {
        }
    } else {
        let p = links.drop_last();
        lemma_link_graph(n, p);
        let h = link_graph(n, p);
        let l = links.last();
        assert forall|u: int, k: int| 0 <= u < g.len() && 0 <= k < g[u].len() implies #[trigger] g[u][k]
            < g.len() by {
            if l.from_system_idx < n && l.to_system_idx < n && u == l.from_system_idx {
                if k < h[u].len() {
                    assert(g[u][k] == h[u][k]);
                }
            } else {
                assert(g[u] == h[u]);
            }
        }
        assert forall|u: int, v: int| #[trigger] edge(g, u, v) <==> linked(n as int, links, u, v) by {
            if edge(g, u, v) {
                let k = choose|k: int| 0 <= k < g[u].len() && #[trigger] g[u][k] as int == v;
                if l.from_system_idx < n && l.to_system_idx < n && u == l.from_system_idx && k
                    == h[u].len() {
                    assert(links[links.len() - 1].from_system_idx == u);
                } else {
                    assert(g[u][k] == h[u][k]);
                    assert(edge(h, u, v));
                    let i = choose|i: int|
                        0 <= i < p.len() && #[trigger] p[i].from_system_idx == u
                            && p[i].to_system_idx == v;
                    assert(links[i] == p[i]);
                }
            }
            if linked(n as int, links, u, v) {
                let i = choose|i: int|
                    0 <= i < links.len() && #[trigger] links[i].from_system_idx == u
                        && links[i].to_system_idx == v;
                if i == links.len() - 1 {
                    assert(g[u][h[u].len() as int] as int == v);
                } else {
                    assert(p[i] == links[i]);
                    assert(linked(n as int, p, u, v));
                    assert(edge(h, u, v));
                    let k = choose|k: int| 0 <= k < h[u].len() && #[trigger] h[u][k] as int == v;
                    assert(g[u][k] == h[u][k]);
                }
            }
        }
    }
}

/// Adjacency lists of the link graph over `n` systems.
pub fn build_adjacency(n: usize, links: &Vec<SystemLink>) -> (adj: Vec<Vec<usize>>)
    ensures
        rows(&adj) == link_graph(n as nat, links@),
{
    let mut adj: Vec<Vec<usize>> = Vec::with_capacity(n);
    let mut u: usize = 0;
    while u < n
        invariant
            u <= n,
            adj@.len() == u,
            forall|j: int| 0 <= j < u ==> (#[trigger] adj@[j])@ == Seq::<usize>::empty(),
        decreases n - u,
    {
        adj.push(Vec::new());
        u += 1;
    }
    proof {
        assert(rows(&adj) =~= link_graph(n as nat, links@.subrange(0, 0)));
    }
    let mut i: usize = 0;
    while i < links.len()
        invariant
            0 <= i <= links@.len(),
            rows(&adj) == link_graph(n as nat, links@.subrange(0, i as int)),
        decreases links@.len() - i,
    {
        proof {
            lemma_link_graph(n as nat, links@.subrange(0, i as int));
            assert(links@.subrange(0, i + 1).drop_last() == links@.subrange(0, i as int));
        }
        let from = links[i].from_system_idx;
        let to = links[i].to_system_idx;
        if from < n && to < n {
            adj[from].push(to);
        }
        proof {
            assert(rows(&adj) =~= link_graph(n as nat, links@.subrange(0, i + 1)));
        }
        i += 1;
    }
    proof {
        assert(links@.subrange(0, links@.len() as int) == links@);
    }
    adj
}

/// `true` exactly when `x` occurs in `row`.
pub fn row_contains(row: &Vec<usize>, x: usize) -> (found: bool)
    ensures
        found == row@.contains(x),
{
    let mut i: usize = 0;
    while i < row.len()
        invariant
            0 <= i <= row@.len(),
            forall|j: int| 0 <= j < i ==> row@[j] != x,
        decreases row@.len() - i,
    {
        if row[i] == x {
            return true;
        }
        i += 1;
    }
    false
}

/// `true` exactly when `comp` lies on a cycle of `adj` by itself: it has more than
/// one member, or one of its members has an edge to itself.
pub fn component_is_cyclic(comp: &Vec<usize>, adj: &Vec<Vec<usize>>) -> (cyclic: bool)
    requires
        forall|j: int| 0 <= j < comp@.len() ==> #[trigger] comp@[j] < adj@.len(),
    ensures
        cyclic == (comp@.len() > 1 || exists|j: int|
            0 <= j < comp@.len() && #[trigger] rows(adj)[comp@[j] as int].contains(comp@[j])),
{
    if comp.len() > 1 {
        return true;
    }
    let mut i: usize = 0;
    while i < comp.len()
        invariant
            0 <= i <= comp@.len(),
            forall|j: int| 0 <= j < comp@.len() ==> #[trigger] comp@[j] < adj@.len(),
            forall|j: int| 0 <= j < i ==> !#[trigger] rows(adj)[comp@[j] as int].contains(comp@[j]),
        decreases comp@.len() - i,
    {
        let v = comp[i];
        proof {
            assert(rows(adj)[v as int] == adj@[v as int]@);
        }
        if row_contains(&adj[v], v) {
            return true;
        }
        i += 1;
    }
    false
}

/// A sequence of distinct values below `n` that misses `x < n` is shorter than `n`;
/// one that misses nothing below `n` has length `n`.
pub proof fn lemma_distinct_below(s: Seq<usize>, n: int)
    requires
        s.no_duplicates(),
        forall|i: int| 0 <= i < s.len() ==> #[trigger] s[i] < n,
        0 <= n <= usize::MAX,
    ensures
        s.len() <= n,
        (exists|x: usize| x < n && !s.contains(x)) ==> s.len() < n,
        (forall|x: usize| x < n ==> s.contains(x)) ==> s.len() == n,
{
    let r = vstd::set_lib::set_int_range(0, n);
    vstd::set_lib::lemma_int_range(0, n);
    let t = s.map_values(|x: usize| x as int);
    assert(t.no_duplicates()) by {
        assert forall|i: int, j: int| 0 <= i < t.len() && 0 <= j < t.len() && i != j implies t[i]
            != t[j] by {
            assert(s[i] != s[j]);
        }
    }
    t.unique_seq_to_set();
    assert forall|x: int| t.to_set().contains(x) implies r.contains(x) by {
        let i = choose|i: int| 0 <= i < t.len() && t[i] == x;
        assert(s[i] < n);
    }
    vstd::set_lib::lemma_len_subset(t.to_set(), r);
    if exists|x: usize| x < n && !s.contains(x) {
        let x = choose|x: usize| x < n && !s.contains(x);
        assert forall|y: int| t.to_set().contains(y) implies r.remove(x as int).contains(y) by {
            let i = choose|i: int| 0 <= i < t.len() && t[i] == y;
            if y == x as int {
                assert(s[i] == x);
            }
        }
        vstd::set_lib::lemma_len_subset(t.to_set(), r.remove(x as int));
    }
    if forall|x: usize| x < n ==> s.contains(x) {
        assert forall|y: int| r.contains(y) implies t.to_set().contains(y) by {
            assert(s.contains(y as usize));
            let i = choose|i: int| 0 <= i < s.len() && s[i] == y as usize;
            assert(t[i] == y);
        }
        vstd::set_lib::lemma_len_subset(r, t.to_set());
    }
}


/// The graph `g` with every outgoing link of a stateful system removed: what is
/// left are the links along which a value passes through within one step.
pub open spec fn cut_graph(g: Seq<Seq<usize>>, stateful: Seq<bool>) -> Seq<Seq<usize>> {
    Seq::new(g.len(), |u: int| if stateful[u] { Seq::<usize>::empty() } else { g[u] })
}

/// The cut graph has the vertices of `g`, and an edge from `u` to `v` exactly when
/// `g` has one and `u` is not stateful.
pub proof fn lemma_cut_graph(g: Seq<Seq<usize>>, stateful: Seq<bool>)
    requires
        well_formed(g),
        stateful.len() == g.len(),
    ensures
        cut_graph(g, stateful).len() == g.len(),
        well_formed(cut_graph(g, stateful)),
        forall|u: int, v: int|
            #[trigger] edge(cut_graph(g, stateful), u, v) <==> edge(g, u, v) && !stateful[u],
{
    let c = cut_graph(g, stateful);
    assert forall|u: int, k: int| 0 <= u < c.len() && 0 <= k < c[u].len() implies #[trigger] c[u][k]
        < c.len() by {
        assert(c[u] == g[u]);
    }
    assert forall|u: int, v: int| #[trigger] edge(c, u, v) <==> edge(g, u, v) && !stateful[u] by {
        if edge(c, u, v) {
            let k = choose|k: int| 0 <= k < c[u].len() && #[trigger] c[u][k] as int == v;
            assert(g[u][k] as int == v);
        }
        if edge(g, u, v) && !stateful[u] {
            let k = choose|k: int| 0 <= k < g[u].len() && #[trigger] g[u][k] as int == v;
            assert(c[u][k] as int == v);
        }
    }
}

/// Adjacency lists of `adj` with the rows of the stateful systems emptied.
pub fn cut_adjacency(adj: &Vec<Vec<usize>>, stateful: &Vec<bool>) -> (cut: Vec<Vec<usize>>)
    requires
        stateful@.len() == adj@.len(),
    ensures
        rows(&cut) == cut_graph(rows(adj), stateful@),
{
    let mut cut: Vec<Vec<usize>> = Vec::with_capacity(adj.len());
    let mut u: usize = 0;
    while u < adj.len()
        invariant
            u <= adj@.len(),
            stateful@.len() == adj@.len(),
            cut@.len() == u,
            forall|j: int| 0 <= j < u ==> (#[trigger] cut@[j])@ == cut_graph(rows(adj), stateful@)[j],
        decreases adj@.len() - u,
    {
        if stateful[u] {
            cut.push(Vec::new());
        } else {
            let row = adj[u].clone();
            proof {
                assert(row@ =~= adj@[u as int]@);
            }
            cut.push(row);
        }
        u += 1;
    }
    proof {
        assert(rows(&cut) =~= cut_graph(rows(adj), stateful@));
    }
    cut
}

/// System `u` must be updated before system `v` in every step: a link leads from
/// `u` to `v`, and either `u` is not stateful, so that its output passes through to
/// `v` within the step, or `u` and `v` do not lie on a common loop.
pub open spec fn must_precede(g: Seq<Seq<usize>>, stateful: Seq<bool>, u: int, v: int) -> bool {
    edge(g, u, v) && (!stateful[u] || !strongly_connected(g, u, v))
}

/// Row `v` lists the systems that must be updated before system `v`, given the
/// numbering `comp_of` of the strongly connected components of `adj`.
pub fn precedence_rows(adj: &Vec<Vec<usize>>, comp_of: &Vec<usize>, stateful: &Vec<bool>) -> (preds: Vec<
    Vec<usize>,
>)
    requires
        well_formed(rows(adj)),
        comp_of@.len() == adj@.len(),
        stateful@.len() == adj@.len(),
        forall|u: int, v: int|
            0 <= u < adj@.len() && 0 <= v < adj@.len() ==> (#[trigger] comp_of@[u] == #[trigger] comp_of@[v]
                <==> strongly_connected(rows(adj), u, v)),
    ensures
        preds@.len() == adj@.len(),
        well_formed(rows(&preds)),
        forall|u: int, v: int|
            #![trigger rows(&preds)[v].contains(u as usize)]
            #![trigger must_precede(rows(adj), stateful@, u, v)]
            0 <= u < adj@.len() && 0 <= v < adj@.len() ==> (rows(&preds)[v].contains(u as usize)
                <==> must_precede(rows(adj), stateful@, u, v)),
{
    let n = adj.len();
    let ghost g = rows(adj);
    let mut preds: Vec<Vec<usize>> = Vec::with_capacity(n);
    let mut v: usize = 0;
    while v < n
        invariant
            v <= n,
            n == adj@.len(),
            preds@.len() == v,
            forall|j: int| 0 <= j < v ==> (#[trigger] preds@[j])@ == Seq::<usize>::empty(),
        decreases n - v,
    {
        preds.push(Vec::new());
        v += 1;
    }
    let mut u: usize = 0;
    while u < n
        invariant
            n == adj@.len(),
            g == rows(adj),
            well_formed(g),
            comp_of@.len() == n,
            stateful@.len() == n,
            forall|a: int, b: int|
                0 <= a < n && 0 <= b < n ==> (#[trigger] comp_of@[a] == #[trigger] comp_of@[b]
                    <==> strongly_connected(g, a, b)),
            u <= n,
            preds@.len() == n,
            forall|w: int, k: int| 0 <= w < n && 0 <= k < preds@[w]@.len() ==> #[trigger] preds@[w]@[k] < u,
            forall|x: int, w: int|
                0 <= x < u && 0 <= w < n ==> (#[trigger] rows(&preds)[w].contains(x as usize)
                    <==> must_precede(g, stateful@, x, w)),
        decreases n - u,
    {
        let mut j: usize = 0;
        proof {
            assert(g[u as int] == adj@[u as int]@);
            assert forall|w: int| 0 <= w < n implies !#[trigger] rows(&preds)[w].contains(u) by {
                if rows(&preds)[w].contains(u) {
                    let k = choose|k: int| 0 <= k < rows(&preds)[w].len() && rows(&preds)[w][k] == u;
                    assert(preds@[w]@[k] < u);
                }
            }
        }
        while j < adj[u].len()
            invariant
                n == adj@.len(),
                g == rows(adj),
                well_formed(g),
                comp_of@.len() == n,
                stateful@.len() == n,
                u < n,
                g[u as int] == adj@[u as int]@,
                j <= g[u as int].len(),
                preds@.len() == n,
                forall|w: int, k: int| 0 <= w < n && 0 <= k < preds@[w]@.len() ==> #[trigger] preds@[w]@[k] <= u,
                forall|x: int, w: int|
                    0 <= x < u && 0 <= w < n ==> (#[trigger] rows(&preds)[w].contains(x as usize)
                        <==> must_precede(g, stateful@, x, w)),
                forall|w: int|
                    0 <= w < n ==> (#[trigger] rows(&preds)[w].contains(u) <==> (g[u as int].take(j as int).contains(
                        w as usize,
                    ) && (!stateful@[u as int] || comp_of@[u as int] != comp_of@[w]))),
            decreases g[u as int].len() - j,
        {
            let w = adj[u][j];
            let ghost old_rows = rows(&preds);
            proof {
                assert(g[u as int][j as int] == w);
                assert(w < n);
                assert(g[u as int].take(j + 1) == g[u as int].take(j as int).push(w));
            }
            if !stateful[u] || comp_of[u] != comp_of[w] {
                preds[w].push(u);
                proof {
                    let new_rows = rows(&preds);
                    assert(new_rows[w as int] == old_rows[w as int].push(u));
                    assert forall|y: usize| #[trigger] new_rows[w as int].contains(y) <==> (old_rows[
                        w as int
                    ].contains(y) || y == u) by {
                        if new_rows[w as int].contains(y) {
                            let k = choose|k: int| 0 <= k < new_rows[w as int].len() && new_rows[w as int][k] == y;
                            if k < old_rows[w as int].len() {
                                assert(old_rows[w as int][k] == y);
                            }
                        }
                        if old_rows[w as int].contains(y) {
                            let k = choose|k: int| 0 <= k < old_rows[w as int].len() && old_rows[w as int][k] == y;
                            assert(new_rows[w as int][k] == y);
                        }
                        if y == u {
                            assert(new_rows[w as int][old_rows[w as int].len() as int] == u);
                        }
                    }
                    assert forall|z: int| 0 <= z < n && z != w implies new_rows[z] == old_rows[z] by {}
                }
            }
            proof {
                let t0 = g[u as int].take(j as int);
                let t1 = g[u as int].take(j + 1);
                assert forall|z: usize| #[trigger] t1.contains(z) <==> (t0.contains(z) || z == w) by {
                    if t1.contains(z) {
                        let k = choose|k: int| 0 <= k < t1.len() && t1[k] == z;
                        if k < t0.len() {
                            assert(t0[k] == z);
                        }
                    }
                    if t0.contains(z) {
                        let k = choose|k: int| 0 <= k < t0.len() && t0[k] == z;
                        assert(t1[k] == z);
                    }
                    if z == w {
                        assert(t1[j as int] == w);
                    }
                }
            }
            j += 1;
        }
        proof {
            assert(g[u as int].take(g[u as int].len() as int) == g[u as int]);
            assert forall|x: int, w: int|
                0 <= x < u + 1 && 0 <= w < n implies (#[trigger] rows(&preds)[w].contains(x as usize)
                <==> must_precede(g, stateful@, x, w)) by {
                if x == u {
                    if g[u as int].contains(w as usize) {
                        let k = choose|k: int| 0 <= k < g[u as int].len() && g[u as int][k] == w as usize;
                        assert(edge(g, x, w));
                    }
                    if edge(g, x, w) {
                        let k = choose|k: int| 0 <= k < g[x].len() && #[trigger] g[x][k] as int == w;
                        assert(g[u as int][k] == w as usize);
                    }
                }
            }
        }
        u += 1;
    }
    proof {
        assert forall|w: int, k: int| 0 <= w < rows(&preds).len() && 0 <= k < rows(&preds)[w].len() implies #[trigger] rows(
            &preds,
        )[w][k] < rows(&preds).len() by {
            assert(preds@[w]@[k] < n);
        }
    }
    preds
}

/// Every system that row `w` of `preds` lists is among `placed`.
pub open spec fn ready(preds: Seq<Seq<usize>>, placed: Seq<usize>, w: int) -> bool {
    forall|j: int| 0 <= j < preds[w].len() ==> placed.contains(#[trigger] preds[w][j])
}

/// Where the links leave the choice open, system `a` is updated before system
/// `b`: systems that are not stateful come first, and each group goes by ascending
/// index.
pub open spec fn ranks_before(stateful: Seq<bool>, a: int, b: int) -> bool {
    (!stateful[a] && stateful[b]) || (stateful[a] == stateful[b] && a < b)
}

/// Position `p` of `order` holds the system that ranks first among those that are
/// not among the first `p` entries and whose listed predecessors all are.
pub open spec fn least_ready_at(preds: Seq<Seq<usize>>, stateful: Seq<bool>, order: Seq<usize>, p: int) -> bool {
    &&& order[p] < preds.len()
    &&& !order.take(p).contains(order[p])
    &&& ready(preds, order.take(p), order[p] as int)
    &&& forall|x: int|
        0 <= x < preds.len() && ranks_before(stateful, x, order[p] as int) && !order.take(p).contains(
            x as usize,
        ) ==> !#[trigger] ready(preds, order.take(p), x)
}

/// Every system that row `w` of `preds` lists is flagged in `placed`.
pub open spec fn flags_ready(preds: Seq<Seq<usize>>, placed: Seq<bool>, w: int) -> bool {
    forall|j: int| 0 <= j < preds[w].len() ==> #[trigger] placed[preds[w][j] as int]
}

/// `true` exactly when every entry of `row` is flagged in `placed`.
pub fn all_placed(row: &Vec<usize>, placed: &Vec<bool>) -> (all: bool)
    requires
        forall|j: int| 0 <= j < row@.len() ==> #[trigger] row@[j] < placed@.len(),
    ensures
        all == forall|j: int| 0 <= j < row@.len() ==> #[trigger] placed@[row@[j] as int],
{
    let mut i: usize = 0;
    while i < row.len()
        invariant
            0 <= i <= row@.len(),
            forall|j: int| 0 <= j < row@.len() ==> #[trigger] row@[j] < placed@.len(),
            forall|j: int| 0 <= j < i ==> #[trigger] placed@[row@[j] as int],
        decreases row@.len() - i,
    {
        if !placed[row[i]] {
            return false;
        }
        i += 1;
    }
    true
}

/// The lowest-numbered system whose stateful flag is `want`, that is not `placed`
/// and whose listed predecessors all are, if there is one.
pub fn first_ready(preds: &Vec<Vec<usize>>, placed: &Vec<bool>, stateful: &Vec<bool>, want: bool) -> (next: Option<
    usize,
>)
    requires
        well_formed(rows(preds)),
        placed@.len() == preds@.len(),
        stateful@.len() == preds@.len(),
    ensures
        match next {
            Some(w) => {
                &&& w < preds@.len()
                &&& stateful@[w as int] == want
                &&& !placed@[w as int]
                &&& flags_ready(rows(preds), placed@, w as int)
                &&& forall|x: int|
                    0 <= x < w && stateful@[x] == want && !placed@[x] ==> !#[trigger] flags_ready(
                        rows(preds),
                        placed@,
                        x,
                    )
            },
            None => forall|x: int|
                0 <= x < preds@.len() && stateful@[x] == want && !placed@[x] ==> !#[trigger] flags_ready(
                    rows(preds),
                    placed@,
                    x,
                ),
        },
{
    let mut w: usize = 0;
    while w < preds.len()
        invariant
            w <= preds@.len(),
            well_formed(rows(preds)),
            placed@.len() == preds@.len(),
            stateful@.len() == preds@.len(),
            forall|x: int|
                0 <= x < w && stateful@[x] == want && !placed@[x] ==> !#[trigger] flags_ready(
                    rows(preds),
                    placed@,
                    x,
                ),
        decreases preds@.len() - w,
    {
        proof {
            assert(rows(preds)[w as int] == preds@[w as int]@);
            assert forall|j: int| 0 <= j < preds@[w as int]@.len() implies #[trigger] preds@[w as int]@[j]
                < placed@.len() by {
                assert(rows(preds)[w as int][j] < rows(preds).len());
            }
        }
        if stateful[w] == want && !placed[w] && all_placed(&preds[w], placed) {
            return Some(w);
        }
        w += 1;
    }
    None
}

/// The system that ranks first among those that are not `placed` and whose
/// listed predecessors all are, if there is one.
pub fn next_ready(preds: &Vec<Vec<usize>>, placed: &Vec<bool>, stateful: &Vec<bool>) -> (next: Option<usize>)
    requires
        well_formed(rows(preds)),
        placed@.len() == preds@.len(),
        stateful@.len() == preds@.len(),
    ensures
        match next {
            Some(w) => {
                &&& w < preds@.len()
                &&& !placed@[w as int]
                &&& flags_ready(rows(preds), placed@, w as int)
                &&& forall|x: int|
                    0 <= x < preds@.len() && ranks_before(stateful@, x, w as int) && !placed@[x]
                        ==> !#[trigger] flags_ready(rows(preds), placed@, x)
                &&& stateful@[w as int] ==> forall|x: int|
                    0 <= x < preds@.len() && !stateful@[x] && !placed@[x] ==> !#[trigger] flags_ready(
                        rows(preds),
                        placed@,
                        x,
                    )
                &&& forall|x: int|
                    0 <= x < w && stateful@[x] == stateful@[w as int] && !placed@[x] ==> !#[trigger] flags_ready(
                        rows(preds),
                        placed@,
                        x,
                    )
            },
            None => forall|x: int|
                0 <= x < preds@.len() && !placed@[x] ==> !#[trigger] flags_ready(rows(preds), placed@, x),
        },
{
    match first_ready(preds, placed, stateful, false) {
        Some(w) => Some(w),
        None => first_ready(preds, placed, stateful, true),
    }
}

/// With `placed` flagging exactly the entries of `order`, the two readiness
/// notions agree.
proof fn lemma_flags_ready(g: Seq<Seq<usize>>, placed: Seq<bool>, order: Seq<usize>, x: int)
    requires
        well_formed(g),
        placed.len() == g.len(),
        forall|y: int| 0 <= y < g.len() ==> (#[trigger] placed[y] <==> order.contains(y as usize)),
        0 <= x < g.len(),
    ensures
        flags_ready(g, placed, x) <==> ready(g, order, x),
{
    if flags_ready(g, placed, x) {
        assert forall|j: int| 0 <= j < g[x].len() implies order.contains(#[trigger] g[x][j]) by {
            assert(placed[g[x][j] as int]);
        }
    }
    if ready(g, order, x) {
        assert forall|j: int| 0 <= j < g[x].len() implies #[trigger] placed[g[x][j] as int] by {
            assert(order.contains(g[x][j]));
        }
    }
}

/// Repeatedly appends, among the systems that are not yet placed and whose
/// predecessors, as listed in `preds`, all are, the one that ranks first (not
/// stateful before stateful, then by index); stops when there is none.
pub fn least_ready_order(preds: &Vec<Vec<usize>>, stateful: &Vec<bool>) -> (order: Vec<usize>)
    requires
        well_formed(rows(preds)),
        stateful@.len() == preds@.len(),
    ensures
        order@.len() <= preds@.len(),
        forall|p: int| 0 <= p < order@.len() ==> #[trigger] least_ready_at(rows(preds), stateful@, order@, p),
        forall|x: int|
            0 <= x < preds@.len() && !order@.contains(x as usize) ==> !#[trigger] ready(rows(preds), order@, x),
{
    let n = preds.len();
    let ghost g = rows(preds);
    let mut placed: Vec<bool> = vec![false; n];
    let mut order: Vec<usize> = Vec::new();
    loop
        invariant
            n == preds@.len(),
            g == rows(preds),
            well_formed(g),
            placed@.len() == n,
            order@.len() <= n,
            forall|y: int| 0 <= y < n ==> (#[trigger] placed@[y] <==> order@.contains(y as usize)),
            stateful@.len() == n,
            forall|p: int| 0 <= p < order@.len() ==> #[trigger] least_ready_at(g, stateful@, order@, p),
            order@.no_duplicates(),
            forall|i: int| 0 <= i < order@.len() ==> #[trigger] order@[i] < n,
        ensures
            forall|x: int| 0 <= x < n && !order@.contains(x as usize) ==> !#[trigger] ready(g, order@, x),
        decreases n - order@.len(),
    {
        match next_ready(preds, &placed, stateful) {
            None => {
                proof {
                    assert forall|x: int| 0 <= x < n && !order@.contains(x as usize) implies !#[trigger] ready(
                        g,
                        order@,
                        x,
                    ) by {
                        lemma_flags_ready(g, placed@, order@, x);
                    }
                }
                break;
            },
            Some(w) => {
                let ghost old_order = order@;
                proof {
                    lemma_flags_ready(g, placed@, order@, w as int);
                    assert forall|x: int|
                        0 <= x < n && ranks_before(stateful@, x, w as int) && !old_order.contains(x as usize)
                            implies !#[trigger] ready(g, old_order, x) by {
                        lemma_flags_ready(g, placed@, order@, x);
                    }
                    lemma_distinct_below(order@, n as int);
                }
                order.push(w);
                placed.set(w, true);
                proof {
                    let o = order@;
                    assert(o.take(old_order.len() as int) == old_order);
                    assert forall|p: int| 0 <= p < o.len() implies #[trigger] least_ready_at(g, stateful@, o, p) by {
                        if p < old_order.len() {
                            assert(o.take(p) == old_order.take(p));
                            assert(o[p] == old_order[p]);
                            assert(least_ready_at(g, stateful@, old_order, p));
                        }
                    }
                    assert forall|y: int| 0 <= y < n implies (#[trigger] placed@[y] <==> o.contains(y as usize)) by {
                        if o.contains(y as usize) && y != w {
                            let i = choose|i: int| 0 <= i < o.len() && o[i] == y as usize;
                            assert(old_order[i] == y as usize);
                        }
                        if old_order.contains(y as usize) {
                            let i = choose|i: int| 0 <= i < old_order.len() && old_order[i] == y as usize;
                            assert(o[i] == y as usize);
                        }
                        if y == w {
                            assert(o[old_order.len() as int] == w);
                        }
                    }
                    assert(o.no_duplicates());
                }
            },
        }
    }
    order
}

} // verus!
