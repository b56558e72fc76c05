//! Execution order of the systems in a pool: strongly connected components
//! (Tarjan), algebraic-loop detection on the graph with the stateful systems'
//! outgoing links cut, and the order itself.
use vstd::prelude::*;

use crate::pool::schedule::{
    build_adjacency, component_is_cyclic, cut_adjacency, cut_graph, least_ready_at, least_ready_order,
    lemma_cut_graph, lemma_distinct_below, lemma_link_graph, link_graph, linked, must_precede,
    precedence_rows, ranks_before, ready,
};
use crate::pool::link::SystemLink;
use crate::pool::paths::{
    edge, lemma_reaches_first_step, on_cycle, strongly_connected, lemma_reaches_edge, lemma_reaches_edge_then, lemma_reaches_monotone, lemma_reaches_refl,
    lemma_reaches_trans, reaches, well_formed,
};

verus! {

/// Why no execution order exists.
#[derive(Debug)]
pub enum OrderError {
    /// One or more groups of systems form pure algebraic loops.
    /// The Vec contains the node indices of one such group.
    AlgebraicLoop { scc_nodes: Vec<usize> },
}

/// System `v` lies on an algebraic loop: a cycle of links none of which leaves a
/// stateful system, so that no system on it breaks direct feedthrough.
pub open spec fn in_algebraic_loop(g: Seq<Seq<usize>>, stateful: Seq<bool>, v: int) -> bool {
    &&& 0 <= v < g.len()
    &&& on_cycle(cut_graph(g, stateful), v)
}

/// `order` is the order in which the systems of `g` are updated: each system
/// once; a link whose source is not stateful is followed from source to target,
/// and so is a link whose ends lie on no common loop; and where a system comes
/// after one that it ranks before (systems that are not stateful first, then by
/// index), one of the systems from that one on must run before it: the ranking
/// decides only where the links leave the choice open.
pub open spec fn is_execution_order(g: Seq<Seq<usize>>, stateful: Seq<bool>, order: Seq<usize>) -> bool {
    &&& order.len() == g.len()
    &&& order.no_duplicates()
    &&& forall|i: int| 0 <= i < order.len() ==> #[trigger] order[i] < g.len()
    &&& forall|i: int, j: int|
        0 <= i < order.len() && 0 <= j < order.len() && #[trigger] edge(
            g,
            order[i] as int,
            order[j] as int,
        ) && !stateful[order[i] as int] ==> i < j
    &&& forall|i: int, j: int|
        0 <= i < order.len() && 0 <= j < order.len() && #[trigger] edge(
            g,
            order[i] as int,
            order[j] as int,
        ) && !strongly_connected(g, order[i] as int, order[j] as int) ==> i < j
    &&& forall|p: int, q: int|
        #![trigger order[p], order[q]]
        0 <= p < q < order.len() && ranks_before(stateful, order[q] as int, order[p] as int) ==> exists|i: int|
            p <= i < q && #[trigger] must_precede(g, stateful, order[i] as int, order[q] as int)
}

/// `comp_of` and `comps` decompose the vertices of `adj` into its strongly
/// connected components, numbered in reverse topological order: `comps[c]` lists the
/// members of component `c`, and `comp_of[v]` is the component of `v`.
pub open spec fn is_scc_decomposition(
    adj: Seq<Seq<usize>>,
    comp_of: Seq<usize>,
    comps: Seq<Seq<usize>>,
) -> bool {
    &&& comp_of.len() == adj.len()
    &&& forall|v: int| 0 <= v < adj.len() ==> #[trigger] comp_of[v] < comps.len()
    &&& forall|c: int|
        0 <= c < comps.len() ==> (#[trigger] comps[c]).len() > 0 && comps[c].no_duplicates()
    &&& forall|c: int, j: int|
        0 <= c < comps.len() && 0 <= j < comps[c].len() ==> #[trigger] comps[c][j] < adj.len()
            && comp_of[comps[c][j] as int] == c
    &&& forall|v: int| 0 <= v < adj.len() ==> comps[#[trigger] comp_of[v] as int].contains(v as usize)
    &&& forall|u: int, v: int|
        0 <= u < adj.len() && 0 <= v < adj.len() ==> (#[trigger] comp_of[u] == #[trigger] comp_of[v]
            <==> strongly_connected(adj, u, v))
    &&& forall|u: int, v: int| #[trigger] edge(adj, u, v) ==> comp_of[v] <= comp_of[u]
}

/// The component `comp` lies on a cycle of `adj` by itself: it has more than one
/// member, or its member has an edge to itself.
pub open spec fn cyclic_component(adj: Seq<Seq<usize>>, comp: Seq<usize>) -> bool {
    comp.len() > 1 || exists|j: int| 0 <= j < comp.len() && #[trigger] adj[comp[j] as int].contains(comp[j])
}

/// `x` comes before `y` in `s`.
pub open spec fn comes_before(s: Seq<int>, x: int, y: int) -> bool {
    exists|a: int, b: int| #![trigger s[a], s[b]] 0 <= a < b < s.len() && s[a] == x && s[b] == y
}

/// The depth-first search of `adj` from `v`, on top of the visit order `pre` and
/// the completion order `post` built so far: `v` is visited, then each of its
/// edges in turn leads to a search from its target if that is not yet visited,
/// and then `v` is complete. `fuel` bounds the depth; any value above the number
/// of vertices not yet visited is enough.
pub open spec fn dfs_visit(adj: Seq<Seq<usize>>, pre: Seq<int>, post: Seq<int>, v: int, fuel: nat) -> (Seq<
    int,
>, Seq<int>)
    decreases fuel, 0nat,
{
    if fuel == 0 {
        (pre, post)
    } else {
        let r = dfs_edges(adj, pre.push(v), post, v, 0, (fuel - 1) as nat);
        (r.0, r.1.push(v))
    }
}

/// The depth-first search through the edges `k..` of `v`.
pub open spec fn dfs_edges(adj: Seq<Seq<usize>>, pre: Seq<int>, post: Seq<int>, v: int, k: int, fuel: nat) -> (Seq<
    int,
>, Seq<int>)
    decreases fuel, (adj[v].len() + 1 - k) as nat,
{
    if k < 0 || k >= adj[v].len() {
        (pre, post)
    } else {
        let w = adj[v][k] as int;
        let r = if pre.contains(w) {
            (pre, post)
        } else {
            dfs_visit(adj, pre, post, w, fuel)
        };
        dfs_edges(adj, r.0, r.1, v, k + 1, fuel)
    }
}

/// The depth-first search of `adj` started from each vertex `v..` in turn that is
/// not yet visited.
pub open spec fn dfs_from_each(adj: Seq<Seq<usize>>, pre: Seq<int>, post: Seq<int>, v: int) -> (Seq<
    int,
>, Seq<int>)
    decreases adj.len() - v,
{
    if v < 0 || v >= adj.len() {
        (pre, post)
    } else {
        let r = if pre.contains(v) {
            (pre, post)
        } else {
            dfs_visit(adj, pre, post, v, (adj.len() + 1) as nat)
        };
        dfs_from_each(adj, r.0, r.1, v + 1)
    }
}

/// The order in which a depth-first search of `adj` (started from the vertices in
/// ascending order, following each vertex's edges in order) first visits the
/// vertices, and the order in which it completes them.
pub open spec fn dfs_orders(adj: Seq<Seq<usize>>) -> (Seq<int>, Seq<int>) {
    dfs_from_each(adj, Seq::empty(), Seq::empty(), 0)
}

/// The components `comps` of `adj` as Tarjan's algorithm lists them: a
/// decomposition into strongly connected components in which each component's
/// members come in the reverse of their depth-first visit order (so its first
/// visited member, its root, comes last), and the components come in the order in
/// which the depth-first search completes their roots.
pub open spec fn is_tarjan_listing(adj: Seq<Seq<usize>>, comp_of: Seq<usize>, comps: Seq<Seq<usize>>) -> bool {
    &&& is_scc_decomposition(adj, comp_of, comps)
    &&& forall|c: int, i: int, j: int|
        0 <= c < comps.len() && 0 <= i < j < comps[c].len() ==> comes_before(
            dfs_orders(adj).0,
            #[trigger] comps[c][j] as int,
            #[trigger] comps[c][i] as int,
        )
    &&& forall|c: int, d: int|
        0 <= c < d < comps.len() ==> comes_before(
            dfs_orders(adj).1,
            (#[trigger] comps[c]).last() as int,
            (#[trigger] comps[d]).last() as int,
        )
}

/// Working state of one run of Tarjan's algorithm.
struct Tarjan {
    current_index: usize,
    index: Vec<isize>,
    low: Vec<usize>,
    stack: Vec<usize>,
    onstack: Vec<bool>,
    comp_of: Vec<usize>,
    comps: Vec<Vec<usize>>,
    /// The vertices in the order in which they were first visited.
    order: Ghost<Seq<int>>,
    /// For a vertex on the stack: a vertex on the stack whose index is its
    /// low-link value and which it reaches.
    wit: Ghost<Seq<int>>,
    /// The vertices in the order in which their visit was completed.
    fin: Ghost<Seq<int>>,
}

impl Tarjan {
    spec fn n(&self) -> int {
        self.index@.len() as int
    }

    spec fn visited(&self, v: int) -> bool {
        self.index@[v] >= 0
    }

    spec fn on(&self, v: int) -> bool {
        self.onstack@[v]
    }

    spec fn assigned(&self, v: int) -> bool {
        self.comp_of@[v] < self.comps@.len()
    }

    spec fn idx(&self, v: int) -> int {
        self.index@[v] as int
    }

    spec fn lo(&self, v: int) -> int {
        self.low@[v] as int
    }

    #[verifier::opaque]
    spec fn inv_shape(&self, adj: Seq<Seq<usize>>) -> bool {
        &&& self.index@.len() == adj.len()
        &&& self.low@.len() == adj.len()
        &&& self.onstack@.len() == adj.len()
        &&& self.comp_of@.len() == adj.len()
        &&& self.wit@.len() == adj.len()
        &&& self.current_index <= adj.len()
        &&& adj.len() < isize::MAX
        &&& self.comps@.len() + self.stack@.len() <= self.current_index
    }

    #[verifier::opaque]
    spec fn inv_order(&self) -> bool {
        &&& self.order@.len() == self.current_index
        &&& forall|i: int|
            0 <= i < self.order@.len() ==> 0 <= #[trigger] self.order@[i] < self.n()
                && self.index@[self.order@[i]] == i
        &&& forall|v: int|
            0 <= v < self.n() ==> (#[trigger] self.index@[v] == -1 || (0 <= self.index@[v]
                < self.current_index && self.order@[self.index@[v] as int] == v))
    }

    #[verifier::opaque]
    spec fn inv_stack(&self) -> bool {
        &&& forall|i: int|
            0 <= i < self.stack@.len() ==> #[trigger] self.stack@[i] < self.n() && self.visited(
                self.stack@[i] as int,
            ) && self.on(self.stack@[i] as int)
        &&& forall|i: int, j: int|
            0 <= i < j < self.stack@.len() ==> self.idx(#[trigger] self.stack@[i] as int) < self.idx(
                #[trigger] self.stack@[j] as int,
            )
        &&& forall|v: int| 0 <= v < self.n() && #[trigger] self.on(v) ==> self.stack@.contains(v as usize)
    }

    #[verifier::opaque]
    spec fn inv_assign(&self) -> bool {
        &&& forall|v: int|
            #![trigger self.index@[v]]
            #![trigger self.onstack@[v]]
            #![trigger self.comp_of@[v]]
            0 <= v < self.n() ==> (!self.visited(v) ==> !self.on(v) && !self.assigned(v)) && (
            self.visited(v) ==> (self.on(v) <==> !self.assigned(v))) && (self.assigned(v)
                || self.comp_of@[v] == usize::MAX)
        &&& forall|c: int|
            0 <= c < self.comps@.len() ==> (#[trigger] self.comps@[c])@.len() > 0
                && self.comps@[c]@.no_duplicates()
        &&& forall|c: int, j: int|
            0 <= c < self.comps@.len() && 0 <= j < self.comps@[c]@.len() ==> (
            #[trigger] self.comps@[c]@[j]) < self.n() && self.comp_of@[self.comps@[c]@[j] as int]
                == c
        &&& forall|v: int|
            0 <= v < self.n() && #[trigger] self.assigned(v) ==> self.comps@[self.comp_of@[v] as int]@.contains(
                v as usize,
            )
    }

    #[verifier::opaque]
    spec fn inv_low(&self, adj: Seq<Seq<usize>>) -> bool {
        forall|v: int|
            0 <= v < self.n() && #[trigger] self.on(v) ==> {
                &&& self.lo(v) <= self.idx(v)
                &&& 0 <= self.wit@[v] < self.n()
                &&& self.on(self.wit@[v])
                &&& self.idx(self.wit@[v]) == self.lo(v)
                &&& reaches(adj, v, self.wit@[v])
            }
    }

    #[verifier::opaque]
    spec fn inv_closure(&self, adj: Seq<Seq<usize>>) -> bool {
        &&& forall|u: int, k: int|
            #![trigger self.comp_of@[u], adj[u][k]]
            0 <= u < self.n() && 0 <= k < adj[u].len() && self.assigned(u) ==> self.assigned(
                adj[u][k] as int,
            ) && self.comp_of@[adj[u][k] as int] <= self.comp_of@[u]
        &&& forall|a: int, b: int|
            0 <= a < self.n() && 0 <= b < self.n() && #[trigger] self.assigned(a) && #[trigger] self.assigned(b)
                && self.comp_of@[a] == self.comp_of@[b] ==> reaches(adj, a, b)
    }

    /// The finished components list their members by descending index, each has
    /// a last member whose visit is complete, and those last members completed in
    /// the order of the components.
    #[verifier::opaque]
    spec fn listing_ok(&self) -> bool {
        &&& forall|c: int, i: int, j: int|
            0 <= c < self.comps@.len() && 0 <= i < j < self.comps@[c]@.len() ==> self.idx(
                #[trigger] self.comps@[c]@[j] as int,
            ) < self.idx(#[trigger] self.comps@[c]@[i] as int)
        &&& forall|c: int|
            0 <= c < self.comps@.len() ==> (#[trigger] self.comps@[c])@.len() > 0 && self.fin@.contains(
                self.comps@[c]@.last() as int,
            )
        &&& forall|c: int, d: int|
            0 <= c < d < self.comps@.len() ==> comes_before(
                self.fin@,
                (#[trigger] self.comps@[c])@.last() as int,
                (#[trigger] self.comps@[d])@.last() as int,
            )
    }

    spec fn inv(&self, adj: Seq<Seq<usize>>) -> bool {
        &&& self.inv_shape(adj)
        &&& self.inv_order()
        &&& self.inv_stack()
        &&& self.inv_assign()
        &&& self.inv_low(adj)
        &&& self.inv_closure(adj)
    }

    /// The `k`-th edge out of `x` leads to a finished component or to a vertex
    /// on the stack no lower than `x`'s low-link.
    spec fn edge_ok(&self, adj: Seq<Seq<usize>>, x: int, k: int) -> bool {
        let y = adj[x][k] as int;
        self.assigned(y) || (self.on(y) && self.lo(x) <= self.idx(y))
    }
}

/// A vertex is visited exactly when the visit order holds it.
proof fn lemma_visited_in_order(t: Tarjan, w: int)
    requires
        t.inv_order(),
        0 <= w < t.n(),
    ensures
        t.visited(w) <==> t.order@.contains(w),
{
    reveal(Tarjan::inv_order);
    if t.order@.contains(w) {
        let i = choose|i: int| 0 <= i < t.order@.len() && t.order@[i] == w;
        assert(t.index@[t.order@[i]] == i);
    }
    if t.visited(w) {
        assert(t.order@[t.index@[w] as int] == w);
    }
}

/// Fewer vertices have been visited than there are, while one is still unvisited.
proof fn lemma_unvisited_bound(t: Tarjan, v: int)
    requires
        t.inv_order(),
        0 <= v < t.n(),
        !t.visited(v),
    ensures
        t.current_index < t.n(),
{
    reveal(Tarjan::inv_order);
    let s = t.order@;
    assert(s.no_duplicates()) by {
        assert forall|i: int, j: int| 0 <= i < s.len() && 0 <= j < s.len() && i != j implies s[i]
            != s[j] by {
            assert(t.index@[s[i]] == i);
            assert(t.index@[s[j]] == j);
        }
    }
    let r = vstd::set_lib::set_int_range(0, t.n()).remove(v);
    vstd::set_lib::lemma_int_range(0, t.n());
    assert forall|x: int| s.to_set().contains(x) implies r.contains(x) by {
        let i = choose|i: int| 0 <= i < s.len() && s[i] == x;
        assert(t.index@[s[i]] == i);
    }
    s.unique_seq_to_set();
    vstd::set_lib::lemma_len_subset(s.to_set(), r);
}

/// What holds of the state at the moment vertex `stack[b]` is found to be the root
/// of a component, before that component is popped.
spec fn root_ready(t: Tarjan, adj: Seq<Seq<usize>>, b: int) -> bool {
    let v = t.stack@[b] as int;
    &&& well_formed(adj)
    &&& 0 <= b < t.stack@.len()
    &&& t.lo(v) == t.idx(v)
    &&& forall|k: int| 0 <= k < adj[v].len() ==> #[trigger] t.edge_ok(adj, v, k)
    &&& forall|i: int|
        b < i < t.stack@.len() ==> {
            let x = #[trigger] t.stack@[i] as int;
            &&& t.lo(v) <= t.lo(x) < t.idx(x)
            &&& forall|k: int| 0 <= k < adj[x].len() ==> #[trigger] t.edge_ok(adj, x, k)
        }
    &&& forall|w: int|
        0 <= w < t.n() && t.visited(w) && t.idx(w) >= t.idx(v) ==> #[trigger] reaches(adj, v, w)
}

/// Every vertex at or above the root on the stack reaches the root.
#[verifier::rlimit(50)]
proof fn lemma_reaches_root(t: Tarjan, adj: Seq<Seq<usize>>, b: int, i: int)
    requires
        root_ready(t, adj, b),
        t.inv_stack(),
        t.inv_low(adj),
        t.n() < isize::MAX,
        b <= i < t.stack@.len(),
    ensures
        reaches(adj, t.stack@[i] as int, t.stack@[b] as int),
    decreases i,
{
    reveal(Tarjan::inv_stack);
    reveal(Tarjan::inv_low);
    let v = t.stack@[b] as int;
    let x = t.stack@[i] as int;
    if i == b {
        lemma_reaches_refl(adj, v);
    } else {
        assert(t.stack@[i] == t.stack@[i]);
        assert(t.on(x));
        let z = t.wit@[x];
        assert(t.on(z));
        assert(t.stack@.contains(z as usize));
        let j = choose|j: int| 0 <= j < t.stack@.len() && t.stack@[j] == z as usize;
        if j >= i {
            if j > i {
                assert(t.idx(t.stack@[i] as int) < t.idx(t.stack@[j] as int));
            }
            assert(false);
        }
        if j < b {
            assert(t.idx(t.stack@[j] as int) < t.idx(t.stack@[b] as int));
            assert(false);
        }
        lemma_reaches_root(t, adj, b, j);
        lemma_reaches_trans(adj, x, z, v);
    }
}

/// The stack holds no vertex twice.
proof fn lemma_stack_distinct(t: Tarjan, i: int, j: int)
    requires
        t.inv_stack(),
        0 <= i < t.stack@.len(),
        0 <= j < t.stack@.len(),
        i != j,
    ensures
        t.stack@[i] != t.stack@[j],
{
    reveal(Tarjan::inv_stack);
    if i < j {
        assert(t.idx(t.stack@[i] as int) < t.idx(t.stack@[j] as int));
    } else {
        assert(t.idx(t.stack@[j] as int) < t.idx(t.stack@[i] as int));
    }
}

/// A vertex on the stack whose index is below that of `stack[b]` sits below position `b`.
proof fn lemma_below_root(t: Tarjan, b: int, y: int)
    requires
        t.inv_stack(),
        t.n() < isize::MAX,
        0 <= b < t.stack@.len(),
        0 <= y < t.n(),
        t.on(y),
        t.idx(y) < t.idx(t.stack@[b] as int),
    ensures
        t.stack@.subrange(0, b).contains(y as usize),
        !t.stack@.subrange(b, t.stack@.len() as int).contains(y as usize),
{
    reveal(Tarjan::inv_stack);
    let j = choose|j: int| 0 <= j < t.stack@.len() && t.stack@[j] == y as usize;
    if j >= b {
        if j > b {
            assert(t.idx(t.stack@[b] as int) < t.idx(t.stack@[j] as int));
        }
        assert(false);
    }
    assert(t.stack@.subrange(0, b)[j] == y as usize);
    if t.stack@.subrange(b, t.stack@.len() as int).contains(y as usize) {
        let k = choose|k: int|
            0 <= k < t.stack@.len() - b && t.stack@.subrange(b, t.stack@.len() as int)[k]
                == y as usize;
        lemma_stack_distinct(t, j, b + k);
    }
}

/// A vertex on the stack whose index is at least that of `stack[b]` sits at or above `b`.
proof fn lemma_above_root(t: Tarjan, b: int, y: int)
    requires
        t.inv_stack(),
        t.n() < isize::MAX,
        0 <= b < t.stack@.len(),
        0 <= y < t.n(),
        t.on(y),
        t.idx(y) >= t.idx(t.stack@[b] as int),
    ensures
        t.stack@.subrange(b, t.stack@.len() as int).contains(y as usize),
{
    reveal(Tarjan::inv_stack);
    let j = choose|j: int| 0 <= j < t.stack@.len() && t.stack@[j] == y as usize;
    if j < b {
        assert(t.idx(t.stack@[j] as int) < t.idx(t.stack@[b] as int));
        assert(false);
    }
    assert(t.stack@.subrange(b, t.stack@.len() as int)[j - b] == y as usize);
}

/// `u` is `t` after popping every vertex from position `b` up into a new component.
spec fn pop_relation(t: Tarjan, u: Tarjan, b: int) -> bool {
    &&& u.stack@ == t.stack@.subrange(0, b)
    &&& u.index@ == t.index@
    &&& u.low@ == t.low@
    &&& u.current_index == t.current_index
    &&& u.order@ == t.order@
    &&& u.wit@ == t.wit@
    &&& u.onstack@.len() == t.onstack@.len()
    &&& u.comp_of@.len() == t.comp_of@.len()
    &&& u.comps@.len() == t.comps@.len() + 1
    &&& forall|c: int| 0 <= c < t.comps@.len() ==> #[trigger] u.comps@[c] == t.comps@[c]
    &&& u.comps@[t.comps@.len() as int]@.len() == t.stack@.len() - b
    &&& forall|j: int|
            0 <= j < t.stack@.len() - b ==> #[trigger] u.comps@[t.comps@.len() as int]@[j]
                == t.stack@[t.stack@.len() - 1 - j]
    &&& forall|w: int|
            0 <= w < t.n() ==> #[trigger] u.onstack@[w] == (t.onstack@[w] && !t.stack@.subrange(
                b,
                t.stack@.len() as int,
            ).contains(w as usize))
    &&& forall|w: int|
            0 <= w < t.n() ==> #[trigger] u.comp_of@[w] == (if t.stack@.subrange(
                b,
                t.stack@.len() as int,
            ).contains(w as usize) {
                t.comps@.len() as int
            } else {
                t.comp_of@[w] as int
            })
}

/// The popped vertices, and their images in the new component.
spec fn popped(t: Tarjan, b: int, w: int) -> bool {
    t.stack@.subrange(b, t.stack@.len() as int).contains(w as usize)
}

proof fn lemma_pop_facts(t: Tarjan, u: Tarjan, adj: Seq<Seq<usize>>, b: int)
    requires
        root_ready(t, adj, b),
        t.inv(adj),
        pop_relation(t, u, b),
    ensures
        forall|w: int|
            0 <= w < t.n() ==> (#[trigger] popped(t, b, w) <==> u.comps@[t.comps@.len() as int]@.contains(
                w as usize,
            )),
        forall|w: int|
            0 <= w < t.n() && #[trigger] popped(t, b, w) ==> t.on(w) && t.visited(w) && !t.assigned(
                w,
            ) && t.idx(w) >= t.idx(t.stack@[b] as int),
        u.comps@[t.comps@.len() as int]@.len() > 0,
        u.comps@[t.comps@.len() as int]@.no_duplicates(),
{
    reveal(Tarjan::inv_stack);
    reveal(Tarjan::inv_assign);
    reveal(Tarjan::inv_shape);
    let cid = t.comps@.len() as int;
    let top = t.stack@.subrange(b, t.stack@.len() as int);
    let newc = u.comps@[cid]@;
    assert forall|w: int| 0 <= w < t.n() implies (#[trigger] popped(t, b, w) <==> newc.contains(
        w as usize,
    )) by {
        if top.contains(w as usize) {
            let k = choose|k: int| 0 <= k < top.len() && top[k] == w as usize;
            assert(newc[top.len() - 1 - k] == w as usize);
        }
        if newc.contains(w as usize) {
            let j = choose|j: int| 0 <= j < newc.len() && newc[j] == w as usize;
            assert(top[top.len() - 1 - j] == w as usize);
        }
    }
    assert forall|w: int| 0 <= w < t.n() && #[trigger] popped(t, b, w) implies t.on(w) && t.visited(
        w,
    ) && !t.assigned(w) && t.idx(w) >= t.idx(t.stack@[b] as int) by {
        let k = choose|k: int| 0 <= k < top.len() && top[k] == w as usize;
        assert(t.stack@[b + k] == w as usize);
        assert(t.index@[w] == t.index@[w]);
        if k > 0 {
            assert(t.idx(t.stack@[b] as int) < t.idx(t.stack@[b + k] as int));
        }
    }
    assert(newc[0] == t.stack@[t.stack@.len() - 1]);
    assert forall|i: int, j: int| 0 <= i < newc.len() && 0 <= j < newc.len() && i != j implies newc[i]
        != newc[j] by {
        lemma_stack_distinct(t, t.stack@.len() - 1 - i, t.stack@.len() - 1 - j);
    }
}

proof fn lemma_pop_stack(t: Tarjan, u: Tarjan, adj: Seq<Seq<usize>>, b: int)
    requires
        root_ready(t, adj, b),
        t.inv(adj),
        pop_relation(t, u, b),
    ensures
        u.inv_stack(),
{
    reveal(Tarjan::inv_stack);
    reveal(Tarjan::inv_shape);
    lemma_pop_facts(t, u, adj, b);
    let top = t.stack@.subrange(b, t.stack@.len() as int);
    assert forall|i: int| 0 <= i < u.stack@.len() implies #[trigger] u.stack@[i] < u.n()
        && u.visited(u.stack@[i] as int) && u.on(u.stack@[i] as int) by {
        assert(t.stack@[i] == u.stack@[i]);
        let y = u.stack@[i] as int;
        if popped(t, b, y) {
            let k = choose|k: int| 0 <= k < top.len() && top[k] == y as usize;
            lemma_stack_distinct(t, i, b + k);
        }
    }
    assert forall|i: int, j: int| 0 <= i < j < u.stack@.len() implies u.idx(
        #[trigger] u.stack@[i] as int,
    ) < u.idx(#[trigger] u.stack@[j] as int) by {
        assert(t.stack@[i] == u.stack@[i]);
        assert(t.stack@[j] == u.stack@[j]);
    }
    assert forall|w: int| 0 <= w < u.n() && #[trigger] u.on(w) implies u.stack@.contains(
        w as usize,
    ) by {
        assert(t.on(w));
        assert(t.stack@.contains(w as usize));
        let j = choose|j: int| 0 <= j < t.stack@.len() && t.stack@[j] == w as usize;
        if j >= b {
            assert(top[j - b] == w as usize);
        }
        assert(u.stack@[j] == w as usize);
    }
}

#[verifier::rlimit(50)]
proof fn lemma_pop_assign(t: Tarjan, u: Tarjan, adj: Seq<Seq<usize>>, b: int)
    requires
        root_ready(t, adj, b),
        t.inv(adj),
        pop_relation(t, u, b),
    ensures
        u.inv_assign(),
{
    reveal(Tarjan::inv_assign);
    reveal(Tarjan::inv_shape);
    lemma_pop_facts(t, u, adj, b);
    let cid = t.comps@.len() as int;
    let newc = u.comps@[cid]@;
    assert forall|c: int| 0 <= c < u.comps@.len() implies (#[trigger] u.comps@[c])@.len() > 0
        && u.comps@[c]@.no_duplicates() by {
        if c < cid {
            assert(u.comps@[c] == t.comps@[c]);
        }
    }
    assert forall|c: int, j: int| 0 <= c < u.comps@.len() && 0 <= j < u.comps@[c]@.len() implies (
    #[trigger] u.comps@[c]@[j]) < u.n() && u.comp_of@[u.comps@[c]@[j] as int] == c by {
        if c == cid {
            let w = newc[j] as int;
            assert(newc.contains(w as usize));
            assert(t.stack@[t.stack@.len() - 1 - j] == w as usize);
            reveal(Tarjan::inv_stack);
            assert(w < t.n());
            assert(popped(t, b, w));
        } else {
            assert(u.comps@[c] == t.comps@[c]);
            let w = t.comps@[c]@[j] as int;
            assert(t.comps@[c]@[j] < t.n() && t.comp_of@[t.comps@[c]@[j] as int] == c);
            assert(t.comp_of@[w] == c);
            assert(t.assigned(w));
            assert(!popped(t, b, w));
        }
    }
    assert forall|w: int| 0 <= w < u.n() && #[trigger] u.assigned(w) implies u.comps@[u.comp_of@[w] as int]@.contains(
        w as usize,
    ) by {
        if !popped(t, b, w) {
            assert(t.comp_of@[w] == t.comp_of@[w]);
            assert(t.assigned(w));
            assert(u.comps@[t.comp_of@[w] as int] == t.comps@[t.comp_of@[w] as int]);
        }
    }
    assert forall|w: int|
        #![trigger u.index@[w]]
        #![trigger u.onstack@[w]]
        #![trigger u.comp_of@[w]]
        0 <= w < u.n() implies (!u.visited(w) ==> !u.on(w) && !u.assigned(w)) && (u.visited(w) ==> (
        u.on(w) <==> !u.assigned(w))) by {
        assert(t.index@[w] == u.index@[w]);
        assert(t.onstack@[w] == t.onstack@[w]);
        assert(t.comp_of@[w] == t.comp_of@[w]);
        assert(u.onstack@[w] == u.onstack@[w]);
        assert(u.comp_of@[w] == u.comp_of@[w]);
        if popped(t, b, w) {
            assert(t.on(w) && t.visited(w));
        }
    }
}

/// A vertex still on the stack after popping down to position `b` lies below `stack[b]`.
proof fn lemma_unpopped_below(t: Tarjan, b: int, x: int)
    requires
        t.inv_stack(),
        t.n() < isize::MAX,
        0 <= b < t.stack@.len(),
        0 <= x < t.n(),
        t.on(x),
        !popped(t, b, x),
    ensures
        t.idx(x) < t.idx(t.stack@[b] as int),
{
    reveal(Tarjan::inv_stack);
    assert(t.stack@.contains(x as usize));
    let j = choose|j: int| 0 <= j < t.stack@.len() && t.stack@[j] == x as usize;
    if j >= b {
        assert(t.stack@.subrange(b, t.stack@.len() as int)[j - b] == x as usize);
        assert(false);
    }
    assert(t.idx(t.stack@[j] as int) < t.idx(t.stack@[b] as int));
}

proof fn lemma_pop_low_one(t: Tarjan, u: Tarjan, adj: Seq<Seq<usize>>, b: int, x: int)
    requires
        t.inv_stack(),
        t.inv_low(adj),
        t.inv_shape(adj),
        0 <= b < t.stack@.len(),
        pop_relation(t, u, b),
        0 <= x < t.n(),
        u.on(x),
    ensures
        u.lo(x) <= u.idx(x),
        0 <= u.wit@[x] < u.n(),
        u.on(u.wit@[x]),
        u.idx(u.wit@[x]) == u.lo(x),
        reaches(adj, x, u.wit@[x]),
{
    reveal(Tarjan::inv_shape);
    assert(t.n() < isize::MAX);
    assert(u.onstack@[x] == u.onstack@[x]);
    assert(t.on(x));
    assert(!popped(t, b, x));
    reveal(Tarjan::inv_low);
    let z = t.wit@[x];
    assert(t.on(z) && 0 <= z < t.n() && t.idx(z) == t.lo(x) && t.lo(x) <= t.idx(x));
    lemma_unpopped_below(t, b, x);
    lemma_below_root(t, b, z);
    assert(u.onstack@[z] == u.onstack@[z]);
}

proof fn lemma_pop_low(t: Tarjan, u: Tarjan, adj: Seq<Seq<usize>>, b: int)
    requires
        root_ready(t, adj, b),
        t.inv(adj),
        pop_relation(t, u, b),
    ensures
        u.inv_low(adj),
{
    reveal(Tarjan::inv_low);
    assert forall|x: int| 0 <= x < u.n() && #[trigger] u.on(x) implies {
        &&& u.lo(x) <= u.idx(x)
        &&& 0 <= u.wit@[x] < u.n()
        &&& u.on(u.wit@[x])
        &&& u.idx(u.wit@[x]) == u.lo(x)
        &&& reaches(adj, x, u.wit@[x])
    } by {
        lemma_pop_low_one(t, u, adj, b, x);
    }
}

#[verifier::rlimit(50)]
proof fn lemma_pop_closure(t: Tarjan, u: Tarjan, adj: Seq<Seq<usize>>, b: int)
    requires
        root_ready(t, adj, b),
        t.inv(adj),
        pop_relation(t, u, b),
    ensures
        u.inv_closure(adj),
{
    reveal(Tarjan::inv_closure);
    reveal(Tarjan::inv_shape);
    reveal(Tarjan::inv_assign);
    reveal(Tarjan::inv_stack);
    lemma_pop_facts(t, u, adj, b);
    let n = t.n();
    let v = t.stack@[b] as int;
    let top = t.stack@.subrange(b, t.stack@.len() as int);
    assert forall|x: int, k: int|
        #![trigger u.comp_of@[x], adj[x][k]]
        0 <= x < u.n() && 0 <= k < adj[x].len() && u.assigned(x) implies u.assigned(
        adj[x][k] as int,
    ) && u.comp_of@[adj[x][k] as int] <= u.comp_of@[x] by {
        let y = adj[x][k] as int;
        assert(y < n);
        assert(u.comp_of@[y] == u.comp_of@[y]);
        if popped(t, b, x) {
            let i = choose|i: int| 0 <= i < top.len() && top[i] == x as usize;
            assert(t.stack@[b + i] == x as usize);
            assert(t.edge_ok(adj, x, k));
            if !t.assigned(y) {
                assert(t.on(y));
                if i > 0 {
                    assert(t.lo(v) <= t.lo(x));
                }
                lemma_above_root(t, b, y);
            } else {
                assert(t.comp_of@[y] == t.comp_of@[y]);
                assert(!popped(t, b, y));
            }
        } else {
            assert(t.comp_of@[x] == t.comp_of@[x]);
            assert(t.assigned(x));
            assert(t.assigned(y) && t.comp_of@[y] <= t.comp_of@[x]);
            assert(!popped(t, b, y));
        }
    }
    assert forall|a: int, c: int|
        0 <= a < u.n() && 0 <= c < u.n() && #[trigger] u.assigned(a) && #[trigger] u.assigned(c)
            && u.comp_of@[a] == u.comp_of@[c] implies reaches(adj, a, c) by {
        assert(u.comp_of@[a] == u.comp_of@[a]);
        assert(u.comp_of@[c] == u.comp_of@[c]);
        if popped(t, b, a) {
            if !popped(t, b, c) {
                assert(t.comp_of@[c] == t.comp_of@[c]);
                assert(t.assigned(c));
                assert(false);
            }
            let i = choose|i: int| 0 <= i < top.len() && top[i] == a as usize;
            let j = choose|j: int| 0 <= j < top.len() && top[j] == c as usize;
            assert(t.stack@[b + i] == a as usize);
            assert(t.stack@[b + j] == c as usize);
            assert(t.n() < isize::MAX);
            lemma_reaches_root(t, adj, b, b + i);
            assert(reaches(adj, v, c));
            lemma_reaches_trans(adj, a, v, c);
        } else {
            if popped(t, b, c) {
                assert(t.comp_of@[a] == t.comp_of@[a]);
                assert(t.assigned(a));
                assert(false);
            }
            assert(t.assigned(a) && t.assigned(c));
        }
    }
}

/// Popping the stack down to its root `stack[b]` into a new component keeps the invariant.
proof fn lemma_pop_component(t: Tarjan, u: Tarjan, adj: Seq<Seq<usize>>, b: int)
    requires
        root_ready(t, adj, b),
        t.inv(adj),
        pop_relation(t, u, b),
    ensures
        u.inv(adj),
        forall|x: int, k: int|
            0 <= x < t.n() && 0 <= k < adj[x].len() && t.on(x) && #[trigger] t.edge_ok(adj, x, k)
                ==> u.edge_ok(adj, x, k),
{
    reveal(Tarjan::inv_shape);
    reveal(Tarjan::inv_order);
    lemma_pop_stack(t, u, adj, b);
    lemma_pop_assign(t, u, adj, b);
    lemma_pop_low(t, u, adj, b);
    lemma_pop_closure(t, u, adj, b);
    lemma_pop_facts(t, u, adj, b);
    assert forall|x: int, k: int|
        0 <= x < t.n() && 0 <= k < adj[x].len() && t.on(x) && #[trigger] t.edge_ok(adj, x, k)
            implies u.edge_ok(adj, x, k) by {
        reveal(Tarjan::inv_assign);
        reveal(Tarjan::inv_stack);
        let y = adj[x][k] as int;
        assert(y < t.n());
        assert(u.comp_of@[y] == u.comp_of@[y]);
        assert(u.onstack@[y] == u.onstack@[y]);
        if !t.assigned(y) {
            assert(t.on(y));
        } else {
            assert(t.comp_of@[y] == t.comp_of@[y]);
            assert(!popped(t, b, y));
        }
    }
}

/// The rows of `rows` as sequences.
pub open spec fn rows(rows: &Vec<Vec<usize>>) -> Seq<Seq<usize>> {
    rows@.map_values(|r: Vec<usize>| r@)
}

/// `s` continues the run that was in state `s0`: nothing on the stack of `s0`
/// was popped, and what `s0` had settled stays settled.
spec fn extends(s0: Tarjan, s: Tarjan, adj: Seq<Seq<usize>>) -> bool {
    &&& s.n() == s0.n()
    &&& s.stack@.len() >= s0.stack@.len()
    &&& s.stack@.subrange(0, s0.stack@.len() as int) == s0.stack@
    &&& s0.current_index <= s.current_index
    &&& forall|w: int|
        0 <= w < s0.n() && s0.visited(w) ==> #[trigger] s.index@[w] == s0.index@[w]
    &&& forall|w: int|
        0 <= w < s0.n() && s0.on(w) ==> #[trigger] s.low@[w] == s0.low@[w] && s.wit@[w]
            == s0.wit@[w]
    &&& s0.comps@.len() <= s.comps@.len()
    &&& forall|w: int|
        0 <= w < s0.n() && s0.assigned(w) ==> #[trigger] s.comp_of@[w] == s0.comp_of@[w]
    &&& forall|c: int| 0 <= c < s0.comps@.len() ==> #[trigger] s.comps@[c] == s0.comps@[c]
    &&& forall|x: int, k: int|
        0 <= x < s0.n() && s0.on(x) && 0 <= k < adj[x].len() && #[trigger] s0.edge_ok(adj, x, k)
            ==> s.edge_ok(adj, x, k)
}

/// Every vertex first visited between `s0` and `s` is reachable from `v`.
spec fn reach_new(s0: Tarjan, s: Tarjan, adj: Seq<Seq<usize>>, v: int) -> bool {
    &&& forall|w: int|
        0 <= w < s.n() && s.visited(w) && !s0.visited(w) ==> s0.current_index <= #[trigger] s.index@[w]
    &&& forall|w: int|
        0 <= w < s.n() && s.visited(w) && !s0.visited(w) ==> #[trigger] reaches(adj, v, w)
}

proof fn lemma_extends_trans(a: Tarjan, b: Tarjan, c: Tarjan, adj: Seq<Seq<usize>>)
    requires
        a.inv(adj),
        b.inv(adj),
        extends(a, b, adj),
        extends(b, c, adj),
    ensures
        extends(a, c, adj),
{
    reveal(Tarjan::inv_stack);
    reveal(Tarjan::inv_assign);
    reveal(Tarjan::inv_shape);
    assert forall|w: int| 0 <= w < a.n() && a.on(w) implies b.on(w) by {
        assert(a.stack@.contains(w as usize));
        let j = choose|j: int| 0 <= j < a.stack@.len() && a.stack@[j] == w as usize;
        assert(b.stack@.subrange(0, a.stack@.len() as int)[j] == w as usize);
        assert(b.stack@[j] == w as usize);
    }
    assert forall|w: int| 0 <= w < a.n() && a.visited(w) implies b.visited(w) by {
        assert(b.index@[w] == a.index@[w]);
    }
    assert forall|w: int| 0 <= w < a.n() && a.assigned(w) implies b.assigned(w) by {
        assert(b.comp_of@[w] == a.comp_of@[w]);
    }
    assert(c.stack@.subrange(0, a.stack@.len() as int) == c.stack@.subrange(
        0,
        b.stack@.len() as int,
    ).subrange(0, a.stack@.len() as int));
    assert forall|w: int| 0 <= w < a.n() && a.on(w) implies #[trigger] c.low@[w] == a.low@[w]
        && c.wit@[w] == a.wit@[w] by {
        assert(b.on(w));
    }
    assert forall|w: int| 0 <= w < a.n() && a.visited(w) implies #[trigger] c.index@[w]
        == a.index@[w] by {
        assert(b.visited(w));
    }
    assert forall|w: int| 0 <= w < a.n() && a.assigned(w) implies #[trigger] c.comp_of@[w]
        == a.comp_of@[w] by {
        assert(b.assigned(w));
    }
    assert forall|x: int, k: int|
        0 <= x < a.n() && a.on(x) && 0 <= k < adj[x].len() && #[trigger] a.edge_ok(adj, x, k)
            implies c.edge_ok(adj, x, k) by {
        assert(b.on(x));
        assert(b.edge_ok(adj, x, k));
    }
}

/// `s1` is `s0` after the first visit of `v`.
spec fn visit_relation(s0: Tarjan, s1: Tarjan, v: int) -> bool {
    &&& 0 <= v < s0.n()
    &&& !s0.visited(v)
    &&& s0.current_index < s0.n()
    &&& s1.index@ == s0.index@.update(v, s0.current_index as isize)
    &&& s1.low@ == s0.low@.update(v, s0.current_index)
    &&& s1.current_index == s0.current_index + 1
    &&& s1.stack@ == s0.stack@.push(v as usize)
    &&& s1.onstack@ == s0.onstack@.update(v, true)
    &&& s1.comp_of@ == s0.comp_of@
    &&& s1.comps@ == s0.comps@
    &&& s1.order@ == s0.order@.push(v)
    &&& s1.wit@ == s0.wit@.update(v, v)
}

proof fn lemma_visit_stack(s0: Tarjan, s1: Tarjan, adj: Seq<Seq<usize>>, v: int)
    requires
        s0.inv(adj),
        visit_relation(s0, s1, v),
    ensures
        s1.inv_stack(),
{
    reveal(Tarjan::inv_shape);
    reveal(Tarjan::inv_stack);
    reveal(Tarjan::inv_order);
    assert(s0.index@[v] == -1);
    assert forall|i: int| 0 <= i < s1.stack@.len() implies #[trigger] s1.stack@[i] < s1.n()
        && s1.visited(s1.stack@[i] as int) && s1.on(s1.stack@[i] as int) by {
        if i < s0.stack@.len() {
            assert(s0.stack@[i] == s1.stack@[i]);
        }
    }
    assert forall|i: int, j: int| 0 <= i < j < s1.stack@.len() implies s1.idx(
        #[trigger] s1.stack@[i] as int,
    ) < s1.idx(#[trigger] s1.stack@[j] as int) by {
        assert(s0.stack@[i] == s1.stack@[i]);
        if j < s0.stack@.len() {
            assert(s0.stack@[j] == s1.stack@[j]);
        }
        assert(s0.visited(s0.stack@[i] as int));
        assert(s0.stack@[i] != v);
    }
    assert forall|w: int| 0 <= w < s1.n() && #[trigger] s1.on(w) implies s1.stack@.contains(
        w as usize,
    ) by {
        if w == v {
            assert(s1.stack@[s0.stack@.len() as int] == v as usize);
        } else {
            assert(s0.on(w));
            let j = choose|j: int| 0 <= j < s0.stack@.len() && s0.stack@[j] == w as usize;
            assert(s1.stack@[j] == w as usize);
        }
    }
}

proof fn lemma_visit_assign(s0: Tarjan, s1: Tarjan, adj: Seq<Seq<usize>>, v: int)
    requires
        s0.inv(adj),
        visit_relation(s0, s1, v),
    ensures
        s1.inv_assign(),
        s1.inv_order(),
        s1.inv_shape(adj),
        s1.inv_closure(adj),
{
    reveal(Tarjan::inv_shape);
    reveal(Tarjan::inv_assign);
    reveal(Tarjan::inv_order);
    reveal(Tarjan::inv_closure);
    assert(s0.index@[v] == -1);
    assert(!s0.on(v) && !s0.assigned(v));
    assert forall|w: int|
        #![trigger s1.index@[w]]
        #![trigger s1.onstack@[w]]
        #![trigger s1.comp_of@[w]]
        0 <= w < s1.n() implies (!s1.visited(w) ==> !s1.on(w) && !s1.assigned(w)) && (s1.visited(w)
        ==> (s1.on(w) <==> !s1.assigned(w))) && (s1.assigned(w) || s1.comp_of@[w] == usize::MAX) by {
        assert(s0.index@[w] == s0.index@[w]);
        assert(s0.onstack@[w] == s0.onstack@[w]);
        assert(s0.comp_of@[w] == s0.comp_of@[w]);
    }
    assert forall|u: int, k: int|
        #![trigger s1.comp_of@[u], adj[u][k]]
        0 <= u < s1.n() && 0 <= k < adj[u].len() && s1.assigned(u) implies s1.assigned(
        adj[u][k] as int,
    ) && s1.comp_of@[adj[u][k] as int] <= s1.comp_of@[u] by {
        assert(s0.comp_of@[u] == s1.comp_of@[u]);
    }
}

proof fn lemma_visit_low(s0: Tarjan, s1: Tarjan, adj: Seq<Seq<usize>>, v: int)
    requires
        s0.inv(adj),
        visit_relation(s0, s1, v),
    ensures
        s1.inv_low(adj),
{
    reveal(Tarjan::inv_shape);
    reveal(Tarjan::inv_low);
    reveal(Tarjan::inv_assign);
    lemma_reaches_refl(adj, v);
    assert(s0.index@[v] == s0.index@[v]);
    assert(!s0.on(v));
    assert forall|w: int| 0 <= w < s1.n() && #[trigger] s1.on(w) implies {
        &&& s1.lo(w) <= s1.idx(w)
        &&& 0 <= s1.wit@[w] < s1.n()
        &&& s1.on(s1.wit@[w])
        &&& s1.idx(s1.wit@[w]) == s1.lo(w)
        &&& reaches(adj, w, s1.wit@[w])
    } by {
        if w != v {
            assert(s0.on(w));
            assert(s0.wit@[w] != v);
        }
    }
}

proof fn lemma_visit_extends(s0: Tarjan, s1: Tarjan, adj: Seq<Seq<usize>>, v: int)
    requires
        s0.inv(adj),
        well_formed(adj),
        visit_relation(s0, s1, v),
    ensures
        extends(s0, s1, adj),
        reach_new(s0, s1, adj, v),
{
    reveal(Tarjan::inv_shape);
    reveal(Tarjan::inv_assign);
    reveal(Tarjan::inv_order);
    lemma_reaches_refl(adj, v);
    assert(s0.index@[v] == -1);
    assert(!s0.on(v) && !s0.assigned(v));
    assert(s1.stack@.subrange(0, s0.stack@.len() as int) == s0.stack@);
    assert forall|x: int, k: int|
        0 <= x < s0.n() && s0.on(x) && 0 <= k < adj[x].len() && #[trigger] s0.edge_ok(adj, x, k)
            implies s1.edge_ok(adj, x, k) by {
        let y = adj[x][k] as int;
        assert(y < s0.n());
        if s0.on(y) {
            assert(y != v);
        }
        assert(x != v);
    }
    assert forall|w: int| 0 <= w < s1.n() && s1.visited(w) && !s0.visited(w) implies s0.current_index
        <= s1.idx(w) && #[trigger] reaches(adj, v, w) by {
        assert(w == v);
    }
}

/// First visit of `v`: it gets the next index and goes on the stack.
proof fn lemma_visit(s0: Tarjan, s1: Tarjan, adj: Seq<Seq<usize>>, v: int)
    requires
        s0.inv(adj),
        well_formed(adj),
        visit_relation(s0, s1, v),
    ensures
        s1.inv(adj),
        extends(s0, s1, adj),
        reach_new(s0, s1, adj, v),
{
    lemma_visit_stack(s0, s1, adj, v);
    lemma_visit_assign(s0, s1, adj, v);
    lemma_visit_low(s0, s1, adj, v);
    lemma_visit_extends(s0, s1, adj, v);
}

/// `s1` is `s0` with the low-link of `v` lowered to the index of `z`.
spec fn lower_relation(s0: Tarjan, s1: Tarjan, v: int, z: int) -> bool {
    &&& s1.low@ == s0.low@.update(v, s0.index@[z] as usize)
    &&& s1.wit@ == s0.wit@.update(v, z)
    &&& s1.index@ == s0.index@
    &&& s1.current_index == s0.current_index
    &&& s1.stack@ == s0.stack@
    &&& s1.onstack@ == s0.onstack@
    &&& s1.comp_of@ == s0.comp_of@
    &&& s1.comps@ == s0.comps@
    &&& s1.order@ == s0.order@
}

/// The parts of the invariant that do not mention low-links carry over between
/// states that differ only in low-links.
proof fn lemma_same_but_low(s0: Tarjan, s1: Tarjan, adj: Seq<Seq<usize>>)
    requires
        s0.inv(adj),
        s1.low@.len() == s0.low@.len(),
        s1.wit@.len() == s0.wit@.len(),
        s1.index@ == s0.index@,
        s1.current_index == s0.current_index,
        s1.stack@ == s0.stack@,
        s1.onstack@ == s0.onstack@,
        s1.comp_of@ == s0.comp_of@,
        s1.comps@ == s0.comps@,
        s1.order@ == s0.order@,
    ensures
        s1.inv_shape(adj),
        s1.inv_order(),
        s1.inv_stack(),
        s1.inv_assign(),
        s1.inv_closure(adj),
{
    reveal(Tarjan::inv_shape);
    reveal(Tarjan::inv_order);
    reveal(Tarjan::inv_stack);
    reveal(Tarjan::inv_assign);
    reveal(Tarjan::inv_closure);
}

proof fn lemma_lower_low(s0: Tarjan, s1: Tarjan, adj: Seq<Seq<usize>>, v: int, z: int)
    requires
        s0.inv(adj),
        0 <= v < s0.n(),
        s0.on(v),
        0 <= z < s0.n(),
        s0.on(z),
        s0.idx(z) < s0.lo(v),
        reaches(adj, v, z),
        lower_relation(s0, s1, v, z),
    ensures
        s1.inv(adj),
        s1.lo(v) == s0.idx(z),
        forall|x: int| 0 <= x < s0.n() && x != v ==> #[trigger] s1.low@[x] == s0.low@[x],
        forall|x: int, k: int|
            0 <= x < s0.n() && 0 <= k < adj[x].len() && #[trigger] s0.edge_ok(adj, x, k) ==> s1.edge_ok(
                adj,
                x,
                k,
            ),
{
    reveal(Tarjan::inv_shape);
    lemma_same_but_low(s0, s1, adj);
    reveal(Tarjan::inv_low);
    assert(s0.lo(v) <= s0.idx(v));
    assert(s0.index@[z] >= 0) by {
        reveal(Tarjan::inv_assign);
        reveal(Tarjan::inv_shape);
        assert(s0.onstack@[z] == s0.onstack@[z]);
    }
    assert forall|w: int| 0 <= w < s1.n() && #[trigger] s1.on(w) implies {
        &&& s1.lo(w) <= s1.idx(w)
        &&& 0 <= s1.wit@[w] < s1.n()
        &&& s1.on(s1.wit@[w])
        &&& s1.idx(s1.wit@[w]) == s1.lo(w)
        &&& reaches(adj, w, s1.wit@[w])
    } by {
        assert(s0.on(w));
    }
    assert forall|x: int, k: int|
        0 <= x < s0.n() && 0 <= k < adj[x].len() && #[trigger] s0.edge_ok(adj, x, k) implies s1.edge_ok(
        adj,
        x,
        k,
    ) by {
        let y = adj[x][k] as int;
        if s0.assigned(y) {
        } else {
            assert(s0.on(y));
        }
    }
}

/// What the scan of the edges out of `v` has established after `k` of them.
spec fn scan_state(s0: Tarjan, s: Tarjan, adj: Seq<Seq<usize>>, v: int, k: int) -> bool {
    &&& s0.inv(adj)
    &&& s.inv(adj)
    &&& well_formed(adj)
    &&& 0 <= v < s.n()
    &&& !s0.visited(v)
    &&& extends(s0, s, adj)
    &&& reach_new(s0, s, adj, v)
    &&& s.stack@.len() > s0.stack@.len()
    &&& s.stack@[s0.stack@.len() as int] == v as usize
    &&& s.idx(v) == s0.current_index
    &&& s0.current_index < s.current_index
    &&& forall|i: int|
        s0.stack@.len() < i < s.stack@.len() ==> {
            let x = #[trigger] s.stack@[i] as int;
            &&& s.lo(v) <= s.lo(x) < s.idx(x)
            &&& forall|kk: int| 0 <= kk < adj[x].len() ==> #[trigger] s.edge_ok(adj, x, kk)
        }
    &&& 0 <= k <= adj[v].len()
    &&& forall|j: int| 0 <= j < k ==> #[trigger] s.edge_ok(adj, v, j)
}

/// What a finished call on `v` that left `v` on the stack guarantees.
spec fn sub_done(s0: Tarjan, s: Tarjan, adj: Seq<Seq<usize>>, v: int) -> bool {
    &&& s.stack@.len() > s0.stack@.len()
    &&& s.stack@[s0.stack@.len() as int] == v as usize
    &&& s.lo(v) < s.idx(v)
    &&& forall|i: int|
        s0.stack@.len() <= i < s.stack@.len() ==> {
            let x = #[trigger] s.stack@[i] as int;
            &&& s.lo(v) <= s.lo(x) < s.idx(x)
            &&& forall|kk: int| 0 <= kk < adj[x].len() ==> #[trigger] s.edge_ok(adj, x, kk)
        }
}

proof fn lemma_scan_start(s0: Tarjan, s1: Tarjan, adj: Seq<Seq<usize>>, v: int)
    requires
        s0.inv(adj),
        well_formed(adj),
        visit_relation(s0, s1, v),
    ensures
        scan_state(s0, s1, adj, v, 0),
{
    lemma_visit(s0, s1, adj, v);
    reveal(Tarjan::inv_shape);
}

proof fn lemma_on_at(s: Tarjan, i: int)
    requires
        s.inv_stack(),
        0 <= i < s.stack@.len(),
    ensures
        s.stack@[i] < s.n(),
        s.on(s.stack@[i] as int),
        s.visited(s.stack@[i] as int),
{
    reveal(Tarjan::inv_stack);
}

proof fn lemma_low_of(s: Tarjan, adj: Seq<Seq<usize>>, x: int)
    requires
        s.inv_low(adj),
        0 <= x < s.n(),
        s.on(x),
    ensures
        s.lo(x) <= s.idx(x),
        0 <= s.wit@[x] < s.n(),
        s.on(s.wit@[x]),
        s.idx(s.wit@[x]) == s.lo(x),
        reaches(adj, x, s.wit@[x]),
{
    reveal(Tarjan::inv_low);
}

proof fn lemma_status(s: Tarjan, x: int)
    requires
        s.inv_assign(),
        0 <= x < s.n(),
    ensures
        !s.visited(x) ==> !s.on(x) && !s.assigned(x),
        s.visited(x) ==> (s.on(x) <==> !s.assigned(x)),
        s.inv_order() ==> (s.index@[x] == -1 || s.visited(x)),
{
    reveal(Tarjan::inv_assign);
    reveal(Tarjan::inv_order);
    assert(s.index@[x] == s.index@[x]);
}

/// Lowering the low-link of `v`, which the frame `s0` does not hold, keeps `s` extending `s0`.
proof fn lemma_extends_lower(s0: Tarjan, s2: Tarjan, s3: Tarjan, adj: Seq<Seq<usize>>, v: int, z: int)
    requires
        extends(s0, s2, adj),
        s2.inv_shape(adj),
        0 <= v < s0.n(),
        !s0.on(v),
        lower_relation(s2, s3, v, z),
        forall|x: int| 0 <= x < s2.n() && x != v ==> #[trigger] s3.low@[x] == s2.low@[x],
        forall|x: int, k: int|
            0 <= x < s2.n() && 0 <= k < adj[x].len() && #[trigger] s2.edge_ok(adj, x, k) ==> s3.edge_ok(
                adj,
                x,
                k,
            ),
    ensures
        extends(s0, s3, adj),
{
    reveal(Tarjan::inv_shape);
    assert forall|w: int| 0 <= w < s0.n() && s0.on(w) implies #[trigger] s3.low@[w] == s0.low@[w]
        && s3.wit@[w] == s0.wit@[w] by {
        assert(s2.low@[w] == s0.low@[w]);
    }
    assert forall|x: int, k: int|
        0 <= x < s0.n() && s0.on(x) && 0 <= k < adj[x].len() && #[trigger] s0.edge_ok(adj, x, k)
            implies s3.edge_ok(adj, x, k) by {
        assert(s2.edge_ok(adj, x, k));
    }
}

/// What the recursive call on the `k`-th successor `w` of `v` hands back.
spec fn child_done(s1: Tarjan, s2: Tarjan, adj: Seq<Seq<usize>>, w: int) -> bool {
    &&& s2.inv(adj)
    &&& extends(s1, s2, adj)
    &&& reach_new(s1, s2, adj, w)
    &&& s2.visited(w)
    &&& s2.idx(w) == s1.current_index
    &&& s1.current_index < s2.current_index
    &&& s2.on(w) ==> sub_done(s1, s2, adj, w)
    &&& !s2.on(w) ==> s2.stack@ == s1.stack@ && s2.lo(w) == s2.idx(w)
}

/// State after the call on `w`, before `v`'s low-link takes `w`'s into account.
spec fn between(s0: Tarjan, s2: Tarjan, adj: Seq<Seq<usize>>, v: int, k: int, w: int, b1: int) -> bool {
    &&& s0.inv(adj)
    &&& s2.inv(adj)
    &&& well_formed(adj)
    &&& 0 <= v < s2.n()
    &&& 0 <= w < s2.n()
    &&& !s0.visited(v)
    &&& !s0.on(v)
    &&& s2.on(v)
    &&& extends(s0, s2, adj)
    &&& reach_new(s0, s2, adj, v)
    &&& s2.stack@.len() > s0.stack@.len()
    &&& s2.stack@[s0.stack@.len() as int] == v as usize
    &&& s2.idx(v) == s0.current_index
    &&& s0.current_index < s2.current_index
    &&& s0.stack@.len() < b1 <= s2.stack@.len()
    &&& forall|i: int|
        s0.stack@.len() < i < b1 ==> {
            let x = #[trigger] s2.stack@[i] as int;
            &&& s2.lo(v) <= s2.lo(x) < s2.idx(x)
            &&& forall|kk: int| 0 <= kk < adj[x].len() ==> #[trigger] s2.edge_ok(adj, x, kk)
        }
    &&& forall|i: int|
        b1 <= i < s2.stack@.len() ==> {
            let x = #[trigger] s2.stack@[i] as int;
            &&& s2.lo(w) <= s2.lo(x) < s2.idx(x)
            &&& forall|kk: int| 0 <= kk < adj[x].len() ==> #[trigger] s2.edge_ok(adj, x, kk)
        }
    &&& 0 <= k < adj[v].len()
    &&& adj[v][k] == w
    &&& forall|j: int| 0 <= j < k ==> #[trigger] s2.edge_ok(adj, v, j)
    &&& s2.on(w) ==> s2.lo(w) < s2.idx(w)
    &&& !s2.on(w) ==> s2.assigned(w) && s2.lo(w) == s2.idx(w) && s2.idx(w) > s2.idx(v)
}

proof fn lemma_reach_new_child(s0: Tarjan, s1: Tarjan, s2: Tarjan, adj: Seq<Seq<usize>>, v: int, w: int)
    requires
        reach_new(s0, s1, adj, v),
        reach_new(s1, s2, adj, w),
        extends(s1, s2, adj),
        s0.current_index <= s1.current_index,
        edge(adj, v, w),
    ensures
        reach_new(s0, s2, adj, v),
{
    assert forall|x: int|
        #![trigger reaches(adj, v, x)]
        (0 <= x < s2.n() && s2.visited(x) && !s0.visited(x)) ==> (s0.current_index <= s2.idx(x)
            && reaches(adj, v, x)) by {
        if 0 <= x < s2.n() && s2.visited(x) && !s0.visited(x) {
            if s1.visited(x) {
                assert(s2.index@[x] == s1.index@[x]);
                assert(reaches(adj, v, x));
            } else {
                assert(reaches(adj, w, x));
                lemma_reaches_edge_then(adj, v, w, x);
            }
        }
    }
}

proof fn lemma_scan_after_call(s0: Tarjan, s1: Tarjan, s2: Tarjan, adj: Seq<Seq<usize>>, v: int, k: int)
    requires
        scan_state(s0, s1, adj, v, k),
        k < adj[v].len(),
        !s1.visited(adj[v][k] as int),
        child_done(s1, s2, adj, adj[v][k] as int),
    ensures
        between(s0, s2, adj, v, k, adj[v][k] as int, s1.stack@.len() as int),
{
    let w = adj[v][k] as int;
    let b = s0.stack@.len() as int;
    let b1 = s1.stack@.len() as int;
    reveal(Tarjan::inv_shape);
    assert(w < s1.n());
    lemma_extends_trans(s0, s1, s2, adj);
    lemma_on_at(s1, b);
    lemma_status(s0, v);
    // the stack of s1 survives in s2
    assert forall|i: int| 0 <= i < b1 implies s2.stack@[i] == s1.stack@[i] by {
        assert(s2.stack@.subrange(0, b1)[i] == s1.stack@[i]);
    }
    lemma_on_at(s2, b);
    // v reaches everything new
    lemma_reach_new_child(s0, s1, s2, adj, v, w);
    // the part of the stack above v that was there before the call
    assert forall|i: int| b < i < b1 implies {
        let x = #[trigger] s2.stack@[i] as int;
        &&& s2.lo(v) <= s2.lo(x) < s2.idx(x)
        &&& forall|kk: int| 0 <= kk < adj[x].len() ==> #[trigger] s2.edge_ok(adj, x, kk)
    } by {
        let x = s1.stack@[i] as int;
        assert(s2.stack@[i] == s1.stack@[i]);
        assert(s1.stack@[i] == s1.stack@[i]);
        lemma_on_at(s1, i);
        assert(s2.low@[x] == s1.low@[x]);
        assert(s2.low@[v] == s1.low@[v]);
        assert(s2.index@[x] == s1.index@[x]);
        assert forall|kk: int| 0 <= kk < adj[x].len() implies #[trigger] s2.edge_ok(adj, x, kk) by {
            assert(s1.edge_ok(adj, x, kk));
        }
    }
    assert forall|j: int| 0 <= j < k implies #[trigger] s2.edge_ok(adj, v, j) by {
        assert(s1.edge_ok(adj, v, j));
    }
    assert(s2.index@[v] == s1.index@[v]);
    lemma_status(s2, w);
    if s2.on(w) {
        assert(sub_done(s1, s2, adj, w));
        assert forall|i: int| b1 <= i < s2.stack@.len() implies {
            let x = #[trigger] s2.stack@[i] as int;
            &&& s2.lo(w) <= s2.lo(x) < s2.idx(x)
            &&& forall|kk: int| 0 <= kk < adj[x].len() ==> #[trigger] s2.edge_ok(adj, x, kk)
        } by {
            assert(s2.stack@[i] == s2.stack@[i]);
        }
        assert(s2.stack@[b1] == w as usize);
    } else {
        assert(s2.stack@.len() == b1);
    }
    assert(s2.stack@[b] == v as usize);
    assert(s2.on(v));
    assert(!s0.on(v));
    assert(extends(s0, s2, adj));
    assert(reach_new(s0, s2, adj, v));
    assert(s2.idx(v) == s0.current_index);
    assert(s0.current_index < s2.current_index);
    assert(!s2.on(w) ==> s2.assigned(w));
    assert(!s2.on(w) ==> s2.idx(w) > s2.idx(v));
}

proof fn lemma_scan_lower(
    s0: Tarjan,
    s2: Tarjan,
    s3: Tarjan,
    adj: Seq<Seq<usize>>,
    v: int,
    k: int,
    w: int,
    b1: int,
)
    requires
        between(s0, s2, adj, v, k, w, b1),
        (s3 == s2 && s2.lo(v) <= s2.lo(w)) || (s2.on(w) && s2.lo(w) < s2.lo(v) && lower_relation(
            s2,
            s3,
            v,
            s2.wit@[w],
        )),
    ensures
        scan_state(s0, s3, adj, v, k + 1),
{
    let b = s0.stack@.len() as int;
    reveal(Tarjan::inv_shape);
    lemma_status(s2, w);
    assert(adj[v][k] as int == w);
    if s2.lo(v) <= s2.lo(w) {
        if s2.on(w) {
            lemma_low_of(s2, adj, w);
            assert(s2.lo(v) <= s2.idx(w));
        } else {
            assert(s2.assigned(w));
        }
        assert(s2.edge_ok(adj, v, k));
        assert forall|i: int| b < i < s2.stack@.len() implies {
            let x = #[trigger] s2.stack@[i] as int;
            &&& s2.lo(v) <= s2.lo(x) < s2.idx(x)
            &&& forall|kk: int| 0 <= kk < adj[x].len() ==> #[trigger] s2.edge_ok(adj, x, kk)
        } by {
            let x = s2.stack@[i] as int;
            if i >= b1 {
                assert(s2.lo(w) <= s2.lo(x));
            }
        }
    } else {
        let z = s2.wit@[w];
        lemma_low_of(s2, adj, w);
        lemma_low_of(s2, adj, v);
        assert(edge(adj, v, w));
        lemma_reaches_edge_then(adj, v, w, z);
        lemma_lower_low(s2, s3, adj, v, z);
        lemma_extends_lower(s0, s2, s3, adj, v, z);
        assert(s3.edge_ok(adj, v, k));
        assert forall|j: int| 0 <= j < k + 1 implies #[trigger] s3.edge_ok(adj, v, j) by {
            if j < k {
                assert(s2.edge_ok(adj, v, j));
            }
        }
        assert forall|i: int| b < i < s3.stack@.len() implies {
            let x = #[trigger] s3.stack@[i] as int;
            &&& s3.lo(v) <= s3.lo(x) < s3.idx(x)
            &&& forall|kk: int| 0 <= kk < adj[x].len() ==> #[trigger] s3.edge_ok(adj, x, kk)
        } by {
            let x = s2.stack@[i] as int;
            assert(s2.stack@[i] == s2.stack@[i]);
            lemma_stack_distinct(s2, b, i);
            lemma_on_at(s2, i);
            assert(s3.low@[x] == s2.low@[x]);
            assert forall|kk: int| 0 <= kk < adj[x].len() implies #[trigger] s3.edge_ok(adj, x, kk) by {
                assert(s2.edge_ok(adj, x, kk));
            }
        }
    }
}

proof fn lemma_scan_visited(s0: Tarjan, s1: Tarjan, s3: Tarjan, adj: Seq<Seq<usize>>, v: int, k: int)
    requires
        scan_state(s0, s1, adj, v, k),
        k < adj[v].len(),
        s1.visited(adj[v][k] as int),
        !s1.on(adj[v][k] as int) ==> s3 == s1,
        s1.on(adj[v][k] as int) ==> ((s1.lo(v) <= s1.idx(adj[v][k] as int) && s3 == s1) || (s1.idx(
            adj[v][k] as int,
        ) < s1.lo(v) && lower_relation(s1, s3, v, adj[v][k] as int))),
    ensures
        scan_state(s0, s3, adj, v, k + 1),
{
    let w = adj[v][k] as int;
    let b = s0.stack@.len() as int;
    reveal(Tarjan::inv_shape);
    assert(w < s1.n());
    lemma_status(s1, w);
    if !s1.on(w) || s1.lo(v) <= s1.idx(w) {
        assert(s1.edge_ok(adj, v, k));
    } else {
        lemma_on_at(s1, b);
        lemma_low_of(s1, adj, v);
        assert(edge(adj, v, w));
        lemma_reaches_edge(adj, v, w);
        lemma_lower_low(s1, s3, adj, v, w);
        lemma_status(s0, v);
        lemma_extends_lower(s0, s1, s3, adj, v, w);
        assert(s3.edge_ok(adj, v, k));
        assert forall|j: int| 0 <= j < k + 1 implies #[trigger] s3.edge_ok(adj, v, j) by {
            if j < k {
                assert(s1.edge_ok(adj, v, j));
            }
        }
        assert forall|i: int| b < i < s3.stack@.len() implies {
            let x = #[trigger] s3.stack@[i] as int;
            &&& s3.lo(v) <= s3.lo(x) < s3.idx(x)
            &&& forall|kk: int| 0 <= kk < adj[x].len() ==> #[trigger] s3.edge_ok(adj, x, kk)
        } by {
            let x = s1.stack@[i] as int;
            assert(s1.stack@[i] == s1.stack@[i]);
            lemma_stack_distinct(s1, b, i);
            lemma_on_at(s1, i);
            assert(s3.low@[x] == s1.low@[x]);
            assert forall|kk: int| 0 <= kk < adj[x].len() implies #[trigger] s3.edge_ok(adj, x, kk) by {
                assert(s1.edge_ok(adj, x, kk));
            }
        }
    }
}

/// The scan of `v`'s edges is complete and `v` is the root of a component.
proof fn lemma_scan_root(s0: Tarjan, s: Tarjan, adj: Seq<Seq<usize>>, v: int)
    requires
        scan_state(s0, s, adj, v, adj[v].len() as int),
        s.lo(v) == s.idx(v),
    ensures
        root_ready(s, adj, s0.stack@.len() as int),
{
    let b = s0.stack@.len() as int;
    reveal(Tarjan::inv_shape);
    assert(s.stack@[b] as int == v);
    assert forall|w: int| 0 <= w < s.n() && s.visited(w) && s.idx(w) >= s.idx(v) implies #[trigger] reaches(
        adj,
        v,
        w,
    ) by {
        reveal(Tarjan::inv_order);
        if s0.visited(w) {
            assert(s.index@[w] == s0.index@[w]);
            assert(s0.index@[w] == s0.index@[w]);
        }
    }
}

/// After popping the component rooted at `v`, the call on `v` has done what it promises.
proof fn lemma_scan_finish_root(s0: Tarjan, s: Tarjan, u: Tarjan, adj: Seq<Seq<usize>>, v: int)
    requires
        scan_state(s0, s, adj, v, adj[v].len() as int),
        s.lo(v) == s.idx(v),
        pop_relation(s, u, s0.stack@.len() as int),
    ensures
        u.inv(adj),
        extends(s0, u, adj),
        reach_new(s0, u, adj, v),
        u.visited(v),
        u.idx(v) == s0.current_index,
        s0.current_index < u.current_index,
        !u.on(v),
        u.stack@ == s0.stack@,
        u.lo(v) == u.idx(v),
{
    let b = s0.stack@.len() as int;
    lemma_scan_root(s0, s, adj, v);
    lemma_pop_component(s, u, adj, b);
    reveal(Tarjan::inv_shape);
    assert(u.stack@ == s0.stack@) by {
        assert(s.stack@.subrange(0, b) == s0.stack@);
    }
    assert(popped(s, b, v)) by {
        assert(s.stack@.subrange(b, s.stack@.len() as int)[0] == v as usize);
    }
    lemma_status(s, v);
    assert(u.onstack@[v] == u.onstack@[v]);
    // u extends s0
    assert(u.stack@.subrange(0, s0.stack@.len() as int) == s0.stack@);
    assert forall|w: int| 0 <= w < s0.n() && s0.on(w) implies #[trigger] u.low@[w] == s0.low@[w]
        && u.wit@[w] == s0.wit@[w] by {
        assert(s.low@[w] == s0.low@[w]);
    }
    assert forall|w: int| 0 <= w < s0.n() && s0.visited(w) implies #[trigger] u.index@[w]
        == s0.index@[w] by {
        assert(s.index@[w] == s0.index@[w]);
    }
    assert forall|w: int| 0 <= w < s0.n() && s0.assigned(w) implies #[trigger] u.comp_of@[w]
        == s0.comp_of@[w] by {
        assert(s.comp_of@[w] == s0.comp_of@[w]);
        lemma_status(s, w);
        assert(s.comp_of@[w] == s.comp_of@[w]);
        assert(!popped(s, b, w)) by {
            lemma_pop_facts(s, u, adj, b);
        }
    }
    assert forall|c: int| 0 <= c < s0.comps@.len() implies #[trigger] u.comps@[c] == s0.comps@[c] by {
        assert(s.comps@[c] == s0.comps@[c]);
    }
    assert forall|x: int, k: int|
        0 <= x < s0.n() && s0.on(x) && 0 <= k < adj[x].len() && #[trigger] s0.edge_ok(adj, x, k)
            implies u.edge_ok(adj, x, k) by {
        assert(s.edge_ok(adj, x, k));
        reveal(Tarjan::inv_stack);
        assert(s0.stack@.contains(x as usize));
        let j = choose|j: int| 0 <= j < s0.stack@.len() && s0.stack@[j] == x as usize;
        assert(s.stack@.subrange(0, b)[j] == x as usize);
        assert(s.stack@[j] == x as usize);
        assert(s.on(x));
    }
}

/// The scan of `v`'s edges is complete and `v` stays on the stack.
proof fn lemma_scan_finish_open(s0: Tarjan, s: Tarjan, adj: Seq<Seq<usize>>, v: int)
    requires
        scan_state(s0, s, adj, v, adj[v].len() as int),
        s.lo(v) != s.idx(v),
    ensures
        s.on(v),
        sub_done(s0, s, adj, v),
{
    let b = s0.stack@.len() as int;
    lemma_on_at(s, b);
    reveal(Tarjan::inv_shape);
    lemma_low_of(s, adj, v);
    assert forall|i: int| b <= i < s.stack@.len() implies {
        let x = #[trigger] s.stack@[i] as int;
        &&& s.lo(v) <= s.lo(x) < s.idx(x)
        &&& forall|kk: int| 0 <= kk < adj[x].len() ==> #[trigger] s.edge_ok(adj, x, kk)
    } by {
        if i == b {
            assert(s.stack@[i] as int == v);
        }
    }
}

/// Completing the visit of the root `v` after popping its component keeps the
/// listing in order: the new component's last member is `v`, and `v` completes
/// after every earlier component's last member.
proof fn lemma_listing_after_root(s0: Tarjan, s: Tarjan, u: Tarjan, w: Tarjan, adj: Seq<Seq<usize>>, v: int)
    requires
        scan_state(s0, s, adj, v, adj[v].len() as int),
        s.lo(v) == s.idx(v),
        pop_relation(s, u, s0.stack@.len() as int),
        s.listing_ok(),
        u.fin@ == s.fin@,
        w.fin@ == u.fin@.push(v),
        w.comps@ == u.comps@,
        w.index@ == u.index@,
    ensures
        w.listing_ok(),
{
    let b = s0.stack@.len() as int;
    lemma_scan_root(s0, s, adj, v);
    reveal(Tarjan::listing_ok);
    reveal(Tarjan::inv_stack);
    reveal(Tarjan::inv_shape);
    assert(0 <= v < isize::MAX);
    assert(s.stack@.subrange(b, s.stack@.len() as int)[0] == v as usize);
    let l = s.stack@.len() as int;
    let nc = s.comps@.len() as int;
    let comp = w.comps@[nc]@;
    assert(comp.len() == l - b);
    assert(comp.len() > 0);
    assert(comp.last() == s.stack@[b]);
    assert forall|c: int, i: int, j: int|
        0 <= c < w.comps@.len() && 0 <= i < j < w.comps@[c]@.len() implies w.idx(
        #[trigger] w.comps@[c]@[j] as int,
    ) < w.idx(#[trigger] w.comps@[c]@[i] as int) by {
        if c == nc {
            assert(w.comps@[c]@[j] == s.stack@[l - 1 - j]);
            assert(w.comps@[c]@[i] == s.stack@[l - 1 - i]);
            assert(s.idx(s.stack@[l - 1 - j] as int) < s.idx(s.stack@[l - 1 - i] as int));
        } else {
            assert(w.comps@[c] == s.comps@[c]);
        }
    }
    assert(comp.last() == v as usize);
    assert(w.fin@[w.fin@.len() - 1] == v);
    assert forall|c: int|
        0 <= c < w.comps@.len() implies (#[trigger] w.comps@[c])@.len() > 0 && w.fin@.contains(
        w.comps@[c]@.last() as int,
    ) by {
        if c == nc {
            assert(w.comps@[c]@ == comp);
            assert(w.fin@[w.fin@.len() - 1] == w.comps@[c]@.last() as int);
        } else {
            assert(w.comps@[c] == u.comps@[c]);
            assert(u.comps@[c] == s.comps@[c]);
            assert(s.comps@[c]@.len() > 0 && s.fin@.contains(s.comps@[c]@.last() as int));
            let a = choose|a: int| 0 <= a < s.fin@.len() && s.fin@[a] == s.comps@[c]@.last() as int;
            assert(w.fin@[a] == s.fin@[a]);
        }
    }
    assert forall|c: int, d: int|
        0 <= c < d < w.comps@.len() implies comes_before(
        w.fin@,
        (#[trigger] w.comps@[c])@.last() as int,
        (#[trigger] w.comps@[d])@.last() as int,
    ) by {
        assert(w.comps@[c] == u.comps@[c]);
        assert(u.comps@[c] == s.comps@[c]);
        if d == nc {
            assert(s.comps@[c]@.len() > 0 && s.fin@.contains(s.comps@[c]@.last() as int));
            let a = choose|a: int| 0 <= a < s.fin@.len() && s.fin@[a] == s.comps@[c]@.last() as int;
            assert(w.fin@[a] == s.fin@[a]);
            assert(w.comps@[d]@ == comp);
            assert(w.fin@[s.fin@.len() as int] == v);
        } else {
            assert(w.comps@[d] == u.comps@[d]);
            assert(u.comps@[d] == s.comps@[d]);
            assert(comes_before(s.fin@, s.comps@[c]@.last() as int, s.comps@[d]@.last() as int));
            let (a, e) = choose|a: int, e: int|
                #![trigger s.fin@[a], s.fin@[e]]
                0 <= a < e < s.fin@.len() && s.fin@[a] == s.comps@[c]@.last() as int && s.fin@[e]
                    == s.comps@[d]@.last() as int;
            assert(w.fin@[a] == s.fin@[a] && w.fin@[e] == s.fin@[e]);
        }
    }
}

/// Completing a visit that pops nothing keeps the listing in order.
proof fn lemma_listing_after_finish(a: Tarjan, b: Tarjan)
    requires
        a.listing_ok(),
        b.comps@ == a.comps@,
        b.index@ == a.index@,
        exists|v: int| b.fin@ == #[trigger] a.fin@.push(v),
    ensures
        b.listing_ok(),
{
    reveal(Tarjan::listing_ok);
    let v = choose|v: int| b.fin@ == #[trigger] a.fin@.push(v);
    assert forall|c: int|
        0 <= c < b.comps@.len() implies (#[trigger] b.comps@[c])@.len() > 0 && b.fin@.contains(
        b.comps@[c]@.last() as int,
    ) by {
        let x = choose|x: int| 0 <= x < a.fin@.len() && a.fin@[x] == a.comps@[c]@.last() as int;
        assert(b.fin@[x] == a.fin@[x]);
    }
    assert forall|c: int, d: int|
        0 <= c < d < b.comps@.len() implies comes_before(
        b.fin@,
        (#[trigger] b.comps@[c])@.last() as int,
        (#[trigger] b.comps@[d])@.last() as int,
    ) by {
        assert(comes_before(a.fin@, a.comps@[c]@.last() as int, a.comps@[d]@.last() as int));
        let (x, e) = choose|x: int, e: int|
            #![trigger a.fin@[x], a.fin@[e]]
            0 <= x < e < a.fin@.len() && a.fin@[x] == a.comps@[c]@.last() as int && a.fin@[e]
                == a.comps@[d]@.last() as int;
        assert(b.fin@[x] == a.fin@[x] && b.fin@[e] == a.fin@[e]);
    }
}

/// A change to the completion order alone keeps what an open call guarantees.
proof fn lemma_finish_keeps_sub_done(s0: Tarjan, a: Tarjan, b: Tarjan, adj: Seq<Seq<usize>>, v: int)
    requires
        sub_done(s0, a, adj, v),
        b.current_index == a.current_index,
        b.index@ == a.index@,
        b.low@ == a.low@,
        b.stack@ == a.stack@,
        b.onstack@ == a.onstack@,
        b.comp_of@ == a.comp_of@,
        b.comps@ == a.comps@,
        b.order@ == a.order@,
        b.wit@ == a.wit@,
    ensures
        sub_done(s0, b, adj, v),
{
    assert forall|i: int| s0.stack@.len() <= i < b.stack@.len() implies {
        let x = #[trigger] b.stack@[i] as int;
        &&& b.lo(v) <= b.lo(x) < b.idx(x)
        &&& forall|kk: int| 0 <= kk < adj[x].len() ==> #[trigger] b.edge_ok(adj, x, kk)
    } by {
        let x = a.stack@[i] as int;
        assert forall|kk: int| 0 <= kk < adj[x].len() implies #[trigger] b.edge_ok(adj, x, kk) by {
            assert(a.edge_ok(adj, x, kk));
        }
    }
}

/// A change to the completion order alone keeps what the call has done so far.
proof fn lemma_finish_keeps_extends(s0: Tarjan, a: Tarjan, b: Tarjan, adj: Seq<Seq<usize>>, v: int)
    requires
        extends(s0, a, adj),
        reach_new(s0, a, adj, v),
        b.current_index == a.current_index,
        b.index@ == a.index@,
        b.low@ == a.low@,
        b.stack@ == a.stack@,
        b.onstack@ == a.onstack@,
        b.comp_of@ == a.comp_of@,
        b.comps@ == a.comps@,
        b.order@ == a.order@,
        b.wit@ == a.wit@,
    ensures
        extends(s0, b, adj),
        reach_new(s0, b, adj, v),
{
    assert forall|x: int, k: int|
        0 <= x < s0.n() && s0.on(x) && 0 <= k < adj[x].len() && #[trigger] s0.edge_ok(adj, x, k)
            implies b.edge_ok(adj, x, k) by {
        assert(a.edge_ok(adj, x, k));
    }
    assert forall|w: int|
        0 <= w < b.n() && b.visited(w) && !s0.visited(w) implies #[trigger] reaches(adj, v, w) by {
        assert(a.visited(w));
    }
}

/// A change to the completion order alone keeps the invariant.
proof fn lemma_finish_keeps_inv(a: Tarjan, b: Tarjan, adj: Seq<Seq<usize>>)
    requires
        a.inv(adj),
        b.current_index == a.current_index,
        b.index@ == a.index@,
        b.low@ == a.low@,
        b.stack@ == a.stack@,
        b.onstack@ == a.onstack@,
        b.comp_of@ == a.comp_of@,
        b.comps@ == a.comps@,
        b.order@ == a.order@,
        b.wit@ == a.wit@,
    ensures
        b.inv(adj),
{
    reveal(Tarjan::inv_shape);
    reveal(Tarjan::inv_order);
    reveal(Tarjan::inv_stack);
    reveal(Tarjan::inv_assign);
    reveal(Tarjan::inv_low);
    reveal(Tarjan::inv_closure);
}

impl Tarjan {
    /// Visits `v` and everything reachable from it that is not yet visited,
    /// popping every component whose root is found.
    #[verifier::spinoff_prover]
    fn strongconnect(&mut self, adj: &Vec<Vec<usize>>, v: usize, Ghost(fuel): Ghost<nat>)
        requires
            well_formed(rows(adj)),
            old(self).inv(rows(adj)),
            old(self).listing_ok(),
            v < adj@.len(),
            !old(self).visited(v as int),
            fuel + old(self).order@.len() >= adj@.len() + 1,
        ensures
            final(self).inv(rows(adj)),
            final(self).listing_ok(),
            (final(self).order@, final(self).fin@) == dfs_visit(
                rows(adj),
                old(self).order@,
                old(self).fin@,
                v as int,
                fuel,
            ),
            old(self).order@.len() < final(self).order@.len(),
            extends(*old(self), *final(self), rows(adj)),
            reach_new(*old(self), *final(self), rows(adj), v as int),
            final(self).visited(v as int),
            final(self).idx(v as int) == old(self).current_index,
            old(self).current_index < final(self).current_index,
            final(self).on(v as int) ==> sub_done(*old(self), *final(self), rows(adj), v as int),
            !final(self).on(v as int) ==> final(self).stack@ == old(self).stack@ && final(self).lo(
                v as int,
            ) == final(self).idx(v as int),
        decreases adj@.len() - old(self).current_index,
    {
        let ghost g = rows(adj);
        let ghost s0 = *self;
        proof {
            reveal(Tarjan::inv_shape);
            lemma_unvisited_bound(*self, v as int);
        }
        let ci = self.current_index;
        self.index[v] = ci as isize;
        self.low[v] = ci;
        self.current_index = ci + 1;
        self.stack.push(v);
        self.onstack[v] = true;
        self.order = Ghost(self.order@.push(v as int));
        self.wit = Ghost(self.wit@.update(v as int, v as int));
        proof {
            lemma_scan_start(s0, *self, g, v as int);
            reveal(Tarjan::listing_ok);
            reveal(Tarjan::inv_assign);
            reveal(Tarjan::inv_order);
            assert forall|c: int, j: int|
                0 <= c < s0.comps@.len() && 0 <= j < s0.comps@[c]@.len() implies #[trigger] s0.comps@[c]@[j]
                != v by {
                assert(s0.comp_of@[s0.comps@[c]@[j] as int] == c);
            }
            assert(self.listing_ok());
        }
        let ghost tgt = dfs_edges(g, self.order@, self.fin@, v as int, 0, (fuel - 1) as nat);
        let mut k: usize = 0;
        while k < adj[v].len()
            invariant
                scan_state(s0, *self, g, v as int, k as int),
                s0 == *old(self),
                g == rows(adj),
                v < adj@.len(),
                self.listing_ok(),
                fuel >= 2,
                (fuel - 1) + self.order@.len() >= g.len() + 1,
                self.order@.len() > s0.order@.len(),
                dfs_edges(g, self.order@, self.fin@, v as int, k as int, (fuel - 1) as nat) == tgt,
            decreases adj@[v as int]@.len() - k,
        {
            proof {
                assert(g[v as int] == adj@[v as int]@);
            }
            let w = adj[v][k];
            proof {
                reveal(Tarjan::inv_shape);
                assert(w < adj@.len());
            }
            proof {
                lemma_status(*self, w as int);
                lemma_visited_in_order(*self, w as int);
            }
            if self.index[w] == -1 {
                let ghost s1 = *self;
                proof {
                    reveal(Tarjan::inv_shape);
                    assert(self.current_index <= adj@.len());
                    assert(s0.current_index < self.current_index);
                    assert(adj@.len() - self.current_index < adj@.len() - s0.current_index);
                }
                self.strongconnect(adj, w, Ghost((fuel - 1) as nat));
                let ghost s2 = *self;
                proof {
                    lemma_scan_after_call(s0, s1, s2, g, v as int, k as int);
                    reveal(Tarjan::inv_shape);
                }
                let lw = self.low[w];
                if lw < self.low[v] {
                    self.low[v] = lw;
                    self.wit = Ghost(self.wit@.update(v as int, s2.wit@[w as int]));
                    proof {
                        reveal(Tarjan::listing_ok);
                        assert(self.listing_ok());
                        lemma_status(s2, w as int);
                        lemma_low_of(s2, g, v as int);
                        if !s2.on(w as int) {
                            assert(false);
                        }
                        lemma_low_of(s2, g, w as int);
                        assert(lower_relation(s2, *self, v as int, s2.wit@[w as int]));
                    }
                }
                proof {
                    lemma_scan_lower(s0, s2, *self, g, v as int, k as int, w as int, s1.stack@.len() as int);
                }
            } else if self.onstack[w] {
                let ghost s1 = *self;
                proof {
                    lemma_status(s1, w as int);
                }
                let iw = self.index[w] as usize;
                if iw < self.low[v] {
                    self.low[v] = iw;
                    self.wit = Ghost(self.wit@.update(v as int, w as int));
                    proof {
                        reveal(Tarjan::listing_ok);
                        assert(self.listing_ok());
                    }
                }
                proof {
                    lemma_scan_visited(s0, s1, *self, g, v as int, k as int);
                }
            } else {
                proof {
                    lemma_scan_visited(s0, *self, *self, g, v as int, k as int);
                }
            }
            k += 1;
        }
        if self.low[v] == self.index[v] as usize {
            let ghost s = *self;
            let ghost b = s0.stack@.len() as int;
            let cid = self.comps.len();
            let mut comp: Vec<usize> = Vec::new();
            loop
                invariant_except_break
                    self.stack@.len() > b,
                invariant
                    scan_state(s0, s, g, v as int, adj@[v as int]@.len() as int),
                    s.lo(v as int) == s.idx(v as int),
                    b == s0.stack@.len(),
                    cid == s.comps@.len(),
                    b <= self.stack@.len() <= s.stack@.len(),
                    self.stack@ == s.stack@.subrange(0, self.stack@.len() as int),
                    comp@.len() == s.stack@.len() - self.stack@.len(),
                    forall|j: int|
                        0 <= j < comp@.len() ==> #[trigger] comp@[j] == s.stack@[s.stack@.len() - 1 - j],
                    self.onstack@.len() == s.onstack@.len(),
                    self.comp_of@.len() == s.comp_of@.len(),
                    forall|w: int|
                        0 <= w < s.n() ==> #[trigger] self.onstack@[w] == (s.onstack@[w]
                            && !s.stack@.subrange(self.stack@.len() as int, s.stack@.len() as int).contains(
                            w as usize,
                        )),
                    forall|w: int|
                        0 <= w < s.n() ==> #[trigger] self.comp_of@[w] == (if s.stack@.subrange(
                            self.stack@.len() as int,
                            s.stack@.len() as int,
                        ).contains(w as usize) {
                            cid as int
                        } else {
                            s.comp_of@[w] as int
                        }),
                    self.index@ == s.index@,
                    self.low@ == s.low@,
                    self.current_index == s.current_index,
                    self.order@ == s.order@,
                    self.wit@ == s.wit@,
                    self.fin@ == s.fin@,
                    self.comps@ == s.comps@,
                ensures
                    self.stack@.len() == b,
                decreases self.stack@.len(),
            {
                let ghost m = self.stack@.len() as int;
                proof {
                    lemma_on_at(s, m - 1);
                    reveal(Tarjan::inv_shape);
                    assert(self.stack@[m - 1] == s.stack@[m - 1]);
                }
                let w = self.stack.pop().unwrap();
                self.onstack[w] = false;
                self.comp_of[w] = cid;
                comp.push(w);
                proof {
                    let l = s.stack@.len() as int;
                    let hi = s.stack@.subrange(m - 1, l);
                    let lo = s.stack@.subrange(m, l);
                    assert(hi =~= seq![w].add(lo));
                    assert forall|x: int| 0 <= x < s.n() implies (#[trigger] hi.contains(x as usize) <==> (
                    x as usize == w || lo.contains(x as usize))) by {
                        if lo.contains(x as usize) {
                            let i = choose|i: int| 0 <= i < lo.len() && lo[i] == x as usize;
                            assert(hi[i + 1] == x as usize);
                        }
                        if hi.contains(x as usize) {
                            let i = choose|i: int| 0 <= i < hi.len() && hi[i] == x as usize;
                            if i > 0 {
                                assert(lo[i - 1] == x as usize);
                            }
                        }
                        if x as usize == w {
                            assert(hi[0] == w);
                        }
                    }
                    reveal(Tarjan::inv_shape);
                    assert(w < s.n());
                    assert(self.stack@ =~= s.stack@.subrange(0, m - 1));
                    if m - 1 == b {
                        assert(w == v);
                    }
                }
                if w == v {
                    break;
                }
            }
            self.comps.push(comp);
            proof {
                let u = *self;
                assert(u.stack@ == s.stack@.subrange(0, b));
                assert(u.comps@.len() == s.comps@.len() + 1);
                assert(forall|c: int| 0 <= c < s.comps@.len() ==> #[trigger] u.comps@[c] == s.comps@[c]);
                assert(u.comps@[s.comps@.len() as int]@.len() == s.stack@.len() - b);
                assert(pop_relation(s, u, b));
                lemma_scan_finish_root(s0, s, *self, g, v as int);
            }
            let ghost before_fin = *self;
            self.fin = Ghost(self.fin@.push(v as int));
            proof {
                lemma_listing_after_root(s0, s, before_fin, *self, g, v as int);
                lemma_finish_keeps_inv(before_fin, *self, g);
                lemma_finish_keeps_extends(s0, before_fin, *self, g, v as int);
            }
        } else {
            proof {
                lemma_scan_finish_open(s0, *self, g, v as int);
            }
            let ghost before_fin = *self;
            self.fin = Ghost(self.fin@.push(v as int));
            proof {
                assert(self.fin@ == before_fin.fin@.push(v as int));
                lemma_listing_after_finish(before_fin, *self);
                lemma_finish_keeps_inv(before_fin, *self, g);
                lemma_finish_keeps_extends(s0, before_fin, *self, g, v as int);
                if self.on(v as int) {
                    lemma_finish_keeps_sub_done(s0, before_fin, *self, g, v as int);
                }
            }
        }
    }
}

/// Once every vertex is visited and the stack is empty, the components are the
/// strongly connected components, in reverse topological order.
proof fn lemma_finished(t: Tarjan, adj: Seq<Seq<usize>>)
    requires
        t.inv(adj),
        well_formed(adj),
        t.stack@.len() == 0,
        forall|v: int| 0 <= v < t.n() ==> #[trigger] t.visited(v),
    ensures
        is_scc_decomposition(adj, t.comp_of@, t.comps@.map_values(|c: Vec<usize>| c@)),
{
    reveal(Tarjan::inv_shape);
    reveal(Tarjan::inv_stack);
    reveal(Tarjan::inv_assign);
    reveal(Tarjan::inv_closure);
    let n = t.n();
    let comps = t.comps@.map_values(|c: Vec<usize>| c@);
    assert forall|v: int| 0 <= v < n implies #[trigger] t.assigned(v) by {
        assert(t.visited(v));
        assert(t.index@[v] == t.index@[v]);
        if t.on(v) {
            assert(t.stack@.contains(v as usize));
        }
    }
    assert forall|v: int| 0 <= v < n implies #[trigger] t.comp_of@[v] < comps.len() by {
        assert(t.assigned(v));
    }
    assert forall|c: int| 0 <= c < comps.len() implies (#[trigger] comps[c]).len() > 0
        && comps[c].no_duplicates() by {
        assert(comps[c] == t.comps@[c]@);
    }
    assert forall|c: int, j: int| 0 <= c < comps.len() && 0 <= j < comps[c].len() implies #[trigger] comps[c][j]
        < n && t.comp_of@[comps[c][j] as int] == c by {
        assert(comps[c] == t.comps@[c]@);
        assert(t.comps@[c]@[j] == t.comps@[c]@[j]);
    }
    assert forall|v: int| 0 <= v < n implies comps[#[trigger] t.comp_of@[v] as int].contains(
        v as usize,
    ) by {
        assert(t.assigned(v));
        assert(comps[t.comp_of@[v] as int] == t.comps@[t.comp_of@[v] as int]@);
    }
    assert forall|u: int, v: int| #[trigger] edge(adj, u, v) implies t.comp_of@[v] <= t.comp_of@[u] by {
        let k = choose|k: int| 0 <= k < adj[u].len() && #[trigger] adj[u][k] as int == v;
        assert(t.assigned(u));
        assert(t.comp_of@[u] == t.comp_of@[u]);
        assert(adj[u][k] == adj[u][k]);
    }
    let f = |x: int| t.comp_of@[x] as int;
    assert forall|a: int, b: int| #[trigger] edge(adj, a, b) implies f(b) <= f(a) by {
        assert(t.comp_of@[b] <= t.comp_of@[a]);
    }
    assert forall|u: int, v: int| 0 <= u < n && 0 <= v < n implies (#[trigger] t.comp_of@[u]
        == #[trigger] t.comp_of@[v] <==> strongly_connected(adj, u, v)) by {
        assert(t.assigned(u) && t.assigned(v));
        if strongly_connected(adj, u, v) {
            lemma_reaches_monotone(adj, f, u, v);
            lemma_reaches_monotone(adj, f, v, u);
        }
    }
}

/// Tarjan's strongly connected components of the graph with adjacency lists `adj`.
///
/// Returns `(comp_of, comps)`: `comps` lists the components in the order in which
/// the depth-first search completes them, which is a reverse topological order of
/// the condensation, and `comp_of[v]` is the position in `comps` of `v`'s component.
pub fn tarjan_scc(adj: &Vec<Vec<usize>>) -> (res: (Vec<usize>, Vec<Vec<usize>>))
    requires
        well_formed(rows(adj)),
        adj@.len() < isize::MAX,
    ensures
        is_scc_decomposition(rows(adj), res.0@, rows(&res.1)),
        is_tarjan_listing(rows(adj), res.0@, rows(&res.1)),
{
    let n = adj.len();
    let ghost g = rows(adj);
    let mut t = Tarjan {
        current_index: 0,
        index: vec![-1; n],
        low: vec![0; n],
        stack: Vec::new(),
        onstack: vec![false; n],
        comp_of: vec![usize::MAX; n],
        comps: Vec::new(),
        order: Ghost(Seq::empty()),
        wit: Ghost(Seq::new(n as nat, |i: int| i)),
        fin: Ghost(Seq::empty()),
    };
    proof {
        lemma_initial(t, g);
    }
    proof {
        reveal(Tarjan::listing_ok);
        reveal(Tarjan::inv_order);
    }
    let mut v: usize = 0;
    while v < n
        invariant
            t.inv(g),
            t.listing_ok(),
            well_formed(g),
            g == rows(adj),
            n == adj@.len(),
            t.stack@.len() == 0,
            v <= n,
            forall|u: int| 0 <= u < v ==> #[trigger] t.visited(u),
            dfs_from_each(g, t.order@, t.fin@, v as int) == dfs_orders(g),
        decreases n - v,
    {
        proof {
            reveal(Tarjan::inv_shape);
            lemma_status(t, v as int);
            lemma_visited_in_order(t, v as int);
        }
        if t.index[v] == -1 {
            let ghost t0 = t;
            t.strongconnect(adj, v, Ghost((n + 1) as nat));
            proof {
                if t.on(v as int) {
                    lemma_low_of(t, g, v as int);
                    reveal(Tarjan::inv_shape);
                    lemma_below_root(t, 0, t.wit@[v as int]);
                    assert(false);
                }
                assert forall|u: int| 0 <= u < v implies #[trigger] t.visited(u) by {
                    assert(t0.visited(u));
                    assert(t.index@[u] == t0.index@[u]);
                }
            }
        }
        v += 1;
    }
    proof {
        reveal(Tarjan::inv_shape);
        lemma_finished(t, g);
        lemma_listing_final(t, g);
    }
    (t.comp_of, t.comps)
}

/// At the end of the run, the listing follows the depth-first orders.
proof fn lemma_listing_final(t: Tarjan, adj: Seq<Seq<usize>>)
    requires
        t.inv(adj),
        t.listing_ok(),
        (t.order@, t.fin@) == dfs_orders(adj),
    ensures
        forall|c: int, i: int, j: int|
            0 <= c < rows(&t.comps).len() && 0 <= i < j < rows(&t.comps)[c].len() ==> comes_before(
                dfs_orders(adj).0,
                #[trigger] rows(&t.comps)[c][j] as int,
                #[trigger] rows(&t.comps)[c][i] as int,
            ),
        forall|c: int, d: int|
            0 <= c < d < rows(&t.comps).len() ==> comes_before(
                dfs_orders(adj).1,
                (#[trigger] rows(&t.comps)[c]).last() as int,
                (#[trigger] rows(&t.comps)[d]).last() as int,
            ),
{
    reveal(Tarjan::listing_ok);
    reveal(Tarjan::inv_order);
    reveal(Tarjan::inv_assign);
    let cs = rows(&t.comps);
    assert forall|c: int, i: int, j: int|
        0 <= c < cs.len() && 0 <= i < j < cs[c].len() implies comes_before(
        dfs_orders(adj).0,
        #[trigger] cs[c][j] as int,
        #[trigger] cs[c][i] as int,
    ) by {
        assert(cs[c] == t.comps@[c]@);
        let x = t.comps@[c]@[j] as int;
        let y = t.comps@[c]@[i] as int;
        assert(t.idx(x) < t.idx(y));
        assert(t.comp_of@[x] == c);
        assert(t.comp_of@[y] == c);
        assert(t.visited(x) && t.visited(y));
        assert(t.order@[t.idx(x)] == x);
        assert(t.order@[t.idx(y)] == y);
    }
    assert forall|c: int, d: int|
        0 <= c < d < cs.len() implies comes_before(
        dfs_orders(adj).1,
        (#[trigger] cs[c]).last() as int,
        (#[trigger] cs[d]).last() as int,
    ) by {
        assert(cs[c] == t.comps@[c]@);
        assert(cs[d] == t.comps@[d]@);
    }
}

/// The state before any vertex is visited satisfies the invariant.
proof fn lemma_initial(t: Tarjan, adj: Seq<Seq<usize>>)
    requires
        t.current_index == 0,
        t.index@.len() == adj.len(),
        t.low@.len() == adj.len(),
        t.onstack@.len() == adj.len(),
        t.comp_of@.len() == adj.len(),
        t.wit@.len() == adj.len(),
        adj.len() < isize::MAX,
        forall|i: int| 0 <= i < adj.len() ==> cloned(-1isize, #[trigger] t.index@[i]),
        forall|i: int| 0 <= i < adj.len() ==> cloned(false, #[trigger] t.onstack@[i]),
        forall|i: int| 0 <= i < adj.len() ==> cloned(usize::MAX, #[trigger] t.comp_of@[i]),
        t.stack@.len() == 0,
        t.comps@.len() == 0,
        t.order@.len() == 0,
    ensures
        t.inv(adj),
{
    reveal(Tarjan::inv_shape);
    reveal(Tarjan::inv_order);
    reveal(Tarjan::inv_stack);
    reveal(Tarjan::inv_assign);
    reveal(Tarjan::inv_low);
    reveal(Tarjan::inv_closure);
    assert forall|v: int| 0 <= v < adj.len() implies t.index@[v] == -1 && !t.onstack@[v]
        && t.comp_of@[v] == usize::MAX by {
        assert(cloned(-1isize, t.index@[v]));
        assert(cloned(false, t.onstack@[v]));
        assert(cloned(usize::MAX, t.comp_of@[v]));
    }
}

/// A component lies on a cycle by itself (more than one member, or a member with an
/// edge to itself) exactly when one of its members lies on a cycle.
proof fn lemma_cyclic_component(g: Seq<Seq<usize>>, comp_of: Seq<usize>, comps: Seq<Seq<usize>>, c: int)
    requires
        is_scc_decomposition(g, comp_of, comps),
        well_formed(g),
        0 <= c < comps.len(),
        g.len() <= usize::MAX,
    ensures
        (comps[c].len() > 1 || exists|j: int|
            0 <= j < comps[c].len() && #[trigger] g[comps[c][j] as int].contains(comps[c][j]))
            <==> exists|v: int| 0 <= v < g.len() && comp_of[v] == c && #[trigger] on_cycle(g, v),
{
    if comps[c].len() > 1 {
        let a = comps[c][0] as int;
        let b = comps[c][1] as int;
        assert(comp_of[a] == c && comp_of[b] == c);
        assert(comps[c][0] != comps[c][1]);
        assert(strongly_connected(g, a, b));
        lemma_reaches_first_step(g, a, b);
        let x = choose|x: int| #[trigger] edge(g, a, x) && reaches(g, x, b);
        lemma_reaches_trans(g, x, b, a);
        assert(on_cycle(g, a));
    } else if exists|j: int| 0 <= j < comps[c].len() && #[trigger] g[comps[c][j] as int].contains(comps[c][j]) {
        let j = choose|j: int| 0 <= j < comps[c].len() && #[trigger] g[comps[c][j] as int].contains(comps[c][j]);
        let m = comps[c][j] as int;
        let k = choose|k: int| 0 <= k < g[m].len() && g[m][k] == m as usize;
        assert(g[m][k] as int == m);
        assert(edge(g, m, m));
        lemma_reaches_refl(g, m);
        assert(on_cycle(g, m));
        assert(comp_of[m] == c);
    }
    if exists|v: int| 0 <= v < g.len() && comp_of[v] == c && #[trigger] on_cycle(g, v) {
        let v = choose|v: int| 0 <= v < g.len() && comp_of[v] == c && #[trigger] on_cycle(g, v);
        let w = choose|w: int| #[trigger] edge(g, v, w) && reaches(g, w, v);
        let k = choose|k: int| 0 <= k < g[v].len() && #[trigger] g[v][k] as int == w;
        assert(g[v][k] < g.len());
        assert(comps[c].contains(v as usize));
        let jv = choose|j: int| 0 <= j < comps[c].len() && comps[c][j] == v as usize;
        if w == v {
            assert(g[v].contains(v as usize));
            assert(g[comps[c][jv] as int].contains(comps[c][jv]));
        } else {
            lemma_reaches_edge(g, v, w);
            assert(strongly_connected(g, v, w));
            assert(comp_of[v] == comp_of[w]);
            assert(comps[c].contains(w as usize));
            let jw = choose|j: int| 0 <= j < comps[c].len() && comps[c][j] == w as usize;
            assert(jv != jw);
            assert(comps[c].len() > 1);
        }
    }
}

/// The order in which the systems are updated at each step, or the reason there is
/// none: an algebraic loop, a cycle of links none of which leaves a stateful system.
///
/// `stateful[i]` tells whether system `i` breaks algebraic loops; links whose ends
/// are not both below `stateful.len()` are ignored.
#[verifier::spinoff_prover]
#[verifier::rlimit(40)]
pub fn simulation_order(stateful: &Vec<bool>, links: &Vec<SystemLink>) -> (res: Result<Vec<usize>, OrderError>)
    requires
        stateful@.len() < isize::MAX,
    ensures
        match res {
            Ok(order) => {
                &&& is_execution_order(link_graph(stateful@.len(), links@), stateful@, order@)
                &&& forall|p: int, q: int|
                    #![trigger order@[p], order@[q]]
                    0 <= p < q < order@.len() && stateful@[order@[p] as int] && !stateful@[order@[q] as int]
                        ==> exists|i: int|
                        p <= i < q && #[trigger] must_precede(
                            link_graph(stateful@.len(), links@),
                            stateful@,
                            order@[i] as int,
                            order@[q] as int,
                        )
                &&& !exists|v: int| #[trigger] in_algebraic_loop(link_graph(stateful@.len(), links@), stateful@, v)
            },
            Err(OrderError::AlgebraicLoop { scc_nodes }) => exists|v: int| {
                &&& #[trigger] in_algebraic_loop(link_graph(stateful@.len(), links@), stateful@, v)
                &&& scc_nodes@.no_duplicates()
                &&& forall|j: int| 0 <= j < scc_nodes@.len() ==> #[trigger] scc_nodes@[j] < stateful@.len()
                &&& forall|w: int|
                    0 <= w < stateful@.len() ==> (#[trigger] scc_nodes@.contains(w as usize)
                        <==> strongly_connected(cut_graph(link_graph(stateful@.len(), links@), stateful@), v, w))
                &&& exists|comp_of: Seq<usize>, comps: Seq<Seq<usize>>, c: int|
                    #![trigger is_tarjan_listing(cut_graph(link_graph(stateful@.len(), links@), stateful@), comp_of, comps), comps[c]]
                    {
                    &&& is_tarjan_listing(
                        cut_graph(link_graph(stateful@.len(), links@), stateful@),
                        comp_of,
                        comps,
                    )
                    &&& 0 <= c < comps.len()
                    &&& scc_nodes@ == comps[c]
                    &&& cyclic_component(cut_graph(link_graph(stateful@.len(), links@), stateful@), comps[c])
                    &&& forall|d: int|
                        0 <= d < c ==> !cyclic_component(
                            cut_graph(link_graph(stateful@.len(), links@), stateful@),
                            #[trigger] comps[d],
                        )
                }
            },
        },
{
    let n = stateful.len();
    let ghost g = link_graph(n as nat, links@);
    proof {
        lemma_link_graph(n as nat, links@);
        lemma_cut_graph(g, stateful@);
    }
    let adj = build_adjacency(n, links);
    let cut = cut_adjacency(&adj, stateful);
    let ghost c = cut_graph(g, stateful@);
    let (cut_comp, cut_comps) = tarjan_scc(&cut);
    let ghost ccs = rows(&cut_comps);
    // a component of the cut graph that lies on a cycle is an algebraic loop
    let mut k: usize = 0;
    while k < cut_comps.len()
        invariant
            rows(&cut) == c,
            c == cut_graph(g, stateful@),
            g == link_graph(n as nat, links@),
            g.len() == n,
            c.len() == n,
            n == stateful@.len(),
            well_formed(c),
            ccs == rows(&cut_comps),
            is_scc_decomposition(c, cut_comp@, ccs),
            k <= cut_comps@.len(),
            is_tarjan_listing(c, cut_comp@, ccs),
            forall|d: int| 0 <= d < k ==> !cyclic_component(c, #[trigger] ccs[d]),
        decreases cut_comps@.len() - k,
    {
        proof {
            assert(ccs[k as int] == cut_comps@[k as int]@);
            assert forall|j: int| 0 <= j < cut_comps@[k as int]@.len() implies #[trigger] cut_comps@[k as int]@[j]
                < cut@.len() by {
                assert(ccs[k as int][j] < c.len());
            }
        }
        if component_is_cyclic(&cut_comps[k], &cut) {
            let scc_nodes = cut_comps[k].clone();
            proof {
                assert(scc_nodes@ =~= ccs[k as int]);
                lemma_cyclic_component(c, cut_comp@, ccs, k as int);
                let v = choose|v: int| 0 <= v < c.len() && cut_comp@[v] == k && #[trigger] on_cycle(c, v);
                assert(in_algebraic_loop(g, stateful@, v));
                assert forall|w: int| 0 <= w < n implies (#[trigger] scc_nodes@.contains(w as usize)
                    <==> strongly_connected(c, v, w)) by {
                    if scc_nodes@.contains(w as usize) {
                        let j = choose|j: int| 0 <= j < ccs[k as int].len() && ccs[k as int][j] == w as usize;
                        assert(cut_comp@[w] == k);
                    }
                    if strongly_connected(c, v, w) {
                        assert(cut_comp@[v] == cut_comp@[w]);
                        assert(ccs[cut_comp@[w] as int].contains(w as usize));
                    }
                }
                assert forall|j: int| 0 <= j < scc_nodes@.len() implies #[trigger] scc_nodes@[j] < stateful@.len() by {
                    assert(ccs[k as int][j] < c.len());
                }
                assert(cyclic_component(c, ccs[k as int]));
                assert(scc_nodes@ == ccs[k as int]);
            }
            return Err(OrderError::AlgebraicLoop { scc_nodes });
        }
        k += 1;
    }
    proof {
        assert forall|v: int| 0 <= v < n implies !#[trigger] on_cycle(c, v) by {
            lemma_cyclic_component(c, cut_comp@, ccs, cut_comp@[v] as int);
        }
    }
    let (comp_of, comps) = tarjan_scc(&adj);
    proof {
        assert forall|u: int, v: int|
            0 <= u < adj@.len() && 0 <= v < adj@.len() implies (#[trigger] comp_of@[u] == #[trigger] comp_of@[v]
            <==> strongly_connected(rows(&adj), u, v)) by {}
    }
    let preds = precedence_rows(&adj, &comp_of, stateful);
    let order = least_ready_order(&preds, stateful);
    proof {
        lemma_order_complete(g, stateful@, comp_of@, rows(&comps), cut_comp@, ccs, rows(&preds), order@);
        lemma_execution_order_ranking(g, stateful@, order@);
        assert forall|v: int| !#[trigger] in_algebraic_loop(g, stateful@, v) by {}
    }
    Ok(order)
}

/// Where the cut graph has no cycle, the order of lowest-numbered ready systems
/// places every system and is an execution order.
proof fn lemma_order_complete(
    g: Seq<Seq<usize>>,
    stateful: Seq<bool>,
    comp_of: Seq<usize>,
    comps: Seq<Seq<usize>>,
    cut_comp: Seq<usize>,
    cut_comps: Seq<Seq<usize>>,
    pg: Seq<Seq<usize>>,
    order: Seq<usize>,
)
    requires
        well_formed(g),
        g.len() <= usize::MAX,
        stateful.len() == g.len(),
        is_scc_decomposition(g, comp_of, comps),
        is_scc_decomposition(cut_graph(g, stateful), cut_comp, cut_comps),
        forall|v: int| 0 <= v < g.len() ==> !#[trigger] on_cycle(cut_graph(g, stateful), v),
        pg.len() == g.len(),
        well_formed(pg),
        forall|u: int, v: int|
            #![trigger pg[v].contains(u as usize)]
            #![trigger must_precede(g, stateful, u, v)]
            0 <= u < g.len() && 0 <= v < g.len() ==> (pg[v].contains(u as usize) <==> must_precede(
                g,
                stateful,
                u,
                v,
            )),
        order.len() <= g.len(),
        forall|p: int| 0 <= p < order.len() ==> #[trigger] least_ready_at(pg, stateful, order, p),
        forall|x: int| 0 <= x < g.len() && !order.contains(x as usize) ==> !#[trigger] ready(pg, order, x),
    ensures
        is_execution_order(g, stateful, order),
{
    lemma_least_order_distinct(pg, stateful, order);
    lemma_keys_drop(g, stateful, comp_of, comps, cut_comp, cut_comps);
    lemma_order_full(g, stateful, comp_of, cut_comp, pg, order);
    lemma_least_order_is_execution_order(g, stateful, pg, order);
}

/// Where every pair that must run in order drops the key and no system lies on
/// a cycle of the cut graph, the order of lowest-numbered ready systems misses no
/// system.
proof fn lemma_order_full(
    g: Seq<Seq<usize>>,
    stateful: Seq<bool>,
    comp_of: Seq<usize>,
    cut_comp: Seq<usize>,
    pg: Seq<Seq<usize>>,
    order: Seq<usize>,
)
    requires
        g.len() <= usize::MAX,
        forall|u: int, v: int|
            #[trigger] must_precede(g, stateful, u, v) && !on_cycle(cut_graph(g, stateful), u) ==> key_above(
                comp_of,
                cut_comp,
                u,
                v,
            ),
        forall|v: int| 0 <= v < g.len() ==> !#[trigger] on_cycle(cut_graph(g, stateful), v),
        pg.len() == g.len(),
        well_formed(pg),
        forall|u: int, v: int|
            #![trigger pg[v].contains(u as usize)]
            #![trigger must_precede(g, stateful, u, v)]
            0 <= u < g.len() && 0 <= v < g.len() ==> (pg[v].contains(u as usize) <==> must_precede(
                g,
                stateful,
                u,
                v,
            )),
        order.len() <= g.len(),
        order.no_duplicates(),
        forall|i: int| 0 <= i < order.len() ==> #[trigger] order[i] < g.len(),
        forall|x: int| 0 <= x < g.len() && !order.contains(x as usize) ==> !#[trigger] ready(pg, order, x),
    ensures
        order.len() == g.len(),
{
    let n = g.len();
    let c = cut_graph(g, stateful);
    if order.len() < n {
        lemma_distinct_below(order, n as int);
        let x = choose|x: usize| x < n && !order.contains(x);
        assert(!order.contains((x as int) as usize));
        let rel = |u: int, v: int| must_precede(g, stateful, u, v);
        let looping = |v: int| on_cycle(c, v);
        assert forall|u: int, v: int| #[trigger] rel(u, v) && !looping(u) implies key_above(
            comp_of,
            cut_comp,
            u,
            v,
        ) by {
            assert(must_precede(g, stateful, u, v));
        }
        assert forall|y: int|
            0 <= y < n && !#[trigger] order.contains(y as usize) implies exists|u: int|
                0 <= u < n && !order.contains(u as usize) && #[trigger] rel(u, y) by {
            assert(!ready(pg, order, y));
            let j = choose|j: int| 0 <= j < pg[y].len() && !order.contains(#[trigger] pg[y][j]);
            let u = pg[y][j] as int;
            assert(pg[y].contains(u as usize));
            assert(must_precede(g, stateful, u, y));
            assert(rel(u, y));
        }
        lemma_stuck_means_loop(n as int, rel, looping, comp_of, cut_comp, order);
        let v = choose|v: int| 0 <= v < n && #[trigger] looping(v);
        assert(on_cycle(c, v));
    }
}

/// An order built by always taking the lowest-numbered ready system holds no
/// system twice and only systems of the graph.
proof fn lemma_least_order_distinct(pg: Seq<Seq<usize>>, stateful: Seq<bool>, order: Seq<usize>)
    requires
        forall|p: int| 0 <= p < order.len() ==> #[trigger] least_ready_at(pg, stateful, order, p),
    ensures
        order.no_duplicates(),
        forall|i: int| 0 <= i < order.len() ==> #[trigger] order[i] < pg.len(),
{
    assert forall|i: int| 0 <= i < order.len() implies #[trigger] order[i] < pg.len() by {
        assert(least_ready_at(pg, stateful, order, i));
    }
    assert forall|i: int, j: int| 0 <= i < j < order.len() implies order[i] != order[j] by {
        assert(least_ready_at(pg, stateful, order, j));
        assert(order.take(j)[i] == order[i]);
        assert(order.take(j).contains(order[i]));
    }
}

/// Taking the lowest-numbered ready system each time, where a system's row lists
/// exactly the systems that must run before it, gives an execution order once
/// every system is placed.
proof fn lemma_least_order_is_execution_order(
    g: Seq<Seq<usize>>,
    stateful: Seq<bool>,
    pg: Seq<Seq<usize>>,
    order: Seq<usize>,
)
    requires
        well_formed(g),
        pg.len() == g.len(),
        g.len() <= usize::MAX,
        well_formed(pg),
        forall|u: int, v: int|
            #![trigger pg[v].contains(u as usize)]
            #![trigger must_precede(g, stateful, u, v)]
            0 <= u < g.len() && 0 <= v < g.len() ==> (pg[v].contains(u as usize) <==> must_precede(
                g,
                stateful,
                u,
                v,
            )),
        order.len() == g.len(),
        forall|p: int| 0 <= p < order.len() ==> #[trigger] least_ready_at(pg, stateful, order, p),
    ensures
        is_execution_order(g, stateful, order),
{
    let n = g.len() as int;
    lemma_least_order_distinct(pg, stateful, order);
    lemma_distinct_below(order, n);
    // every system that must run before another comes earlier
    assert forall|i: int, j: int|
        0 <= i < n && 0 <= j < n && #[trigger] must_precede(g, stateful, order[i] as int, order[j] as int)
        implies i < j by {
        let u = order[i];
        let v = order[j];
        assert(pg[v as int].contains(u));
        let jj = choose|jj: int| 0 <= jj < pg[v as int].len() && pg[v as int][jj] == u;
        assert(least_ready_at(pg, stateful, order, j));
        assert(order.take(j).contains(pg[v as int][jj]));
        let k = choose|k: int| 0 <= k < order.take(j).len() && order.take(j)[k] == u;
        assert(order[k] == u);
    }
    assert forall|i: int, j: int|
        0 <= i < order.len() && 0 <= j < order.len() && #[trigger] edge(g, order[i] as int, order[j] as int)
            && !stateful[order[i] as int] implies i < j by {
        assert(must_precede(g, stateful, order[i] as int, order[j] as int));
    }
    assert forall|i: int, j: int|
        0 <= i < order.len() && 0 <= j < order.len() && #[trigger] edge(g, order[i] as int, order[j] as int)
            && !strongly_connected(g, order[i] as int, order[j] as int) implies i < j by {
        assert(must_precede(g, stateful, order[i] as int, order[j] as int));
    }
    assert forall|p: int, q: int|
        #![trigger order[p], order[q]]
        0 <= p < q < order.len() && ranks_before(stateful, order[q] as int, order[p] as int) implies exists|i: int|
            p <= i < q && #[trigger] must_precede(g, stateful, order[i] as int, order[q] as int) by {
        let x = order[q];
        assert(least_ready_at(pg, stateful, order, p));
        if order.take(p).contains(x) {
            let k = choose|k: int| 0 <= k < order.take(p).len() && order.take(p)[k] == x;
            assert(order[k] == x);
        }
        assert(!ready(pg, order.take(p), x as int));
        let jj = choose|jj: int| 0 <= jj < pg[x as int].len() && !order.take(p).contains(#[trigger] pg[x as int][jj]);
        let u = pg[x as int][jj];
        assert(u < n);
        assert(pg[x as int].contains((u as int) as usize));
        assert(must_precede(g, stateful, u as int, x as int));
        assert(order.contains(u));
        let i = choose|i: int| 0 <= i < order.len() && order[i] == u;
        if i < p {
            assert(order.take(p)[i] == u);
        }
        assert(must_precede(g, stateful, order[i] as int, order[q] as int));
    }
}

/// `a` comes above `b` in the order of the components of the link graph, and
/// within one such component in the order of the components of the cut graph.
spec fn key_above(comp_of: Seq<usize>, cut_comp: Seq<usize>, a: int, b: int) -> bool {
    comp_of[a] > comp_of[b] || (comp_of[a] == comp_of[b] && cut_comp[a] > cut_comp[b])
}

/// Among the systems below `k` that `order` misses, one that no other of them
/// comes above.
proof fn lemma_top_missing(comp_of: Seq<usize>, cut_comp: Seq<usize>, order: Seq<usize>, k: int) -> (m: int)
    requires
        0 <= k,
        exists|x: int| 0 <= x < k && !#[trigger] order.contains(x as usize),
    ensures
        0 <= m < k,
        !order.contains(m as usize),
        forall|x: int|
            0 <= x < k && !#[trigger] order.contains(x as usize) ==> !key_above(comp_of, cut_comp, x, m),
    decreases k,
{
    if exists|x: int| 0 <= x < k - 1 && !#[trigger] order.contains(x as usize) {
        let m0 = lemma_top_missing(comp_of, cut_comp, order, k - 1);
        if !order.contains((k - 1) as usize) && key_above(comp_of, cut_comp, k - 1, m0) {
            k - 1
        } else {
            m0
        }
    } else {
        let x = choose|x: int| 0 <= x < k && !#[trigger] order.contains(x as usize);
        assert(x == k - 1);
        k - 1
    }
}

/// Where no system lies on a cycle of the cut graph, a system that must run
/// before another comes above it.
proof fn lemma_key_drops(
    g: Seq<Seq<usize>>,
    stateful: Seq<bool>,
    comp_of: Seq<usize>,
    comps: Seq<Seq<usize>>,
    cut_comp: Seq<usize>,
    cut_comps: Seq<Seq<usize>>,
    u: int,
    v: int,
)
    requires
        well_formed(g),
        stateful.len() == g.len(),
        is_scc_decomposition(g, comp_of, comps),
        is_scc_decomposition(cut_graph(g, stateful), cut_comp, cut_comps),
        must_precede(g, stateful, u, v),
        !on_cycle(cut_graph(g, stateful), u),
    ensures
        key_above(comp_of, cut_comp, u, v),
{
    lemma_cut_graph(g, stateful);
    let c = cut_graph(g, stateful);
    let k = choose|k: int| 0 <= k < g[u].len() && #[trigger] g[u][k] as int == v;
    assert(g[u][k] < g.len());
    assert(comp_of[v] <= comp_of[u]);
    if comp_of[u] == comp_of[v] {
        assert(strongly_connected(g, u, v));
        assert(edge(c, u, v));
        assert(cut_comp[v] <= cut_comp[u]);
        if cut_comp[u] == cut_comp[v] {
            assert(strongly_connected(c, u, v));
            assert(on_cycle(c, u));
        }
    }
}

/// Every pair that must run in order, whose first system lies on no algebraic
/// loop, has the first come above the second.
proof fn lemma_keys_drop(
    g: Seq<Seq<usize>>,
    stateful: Seq<bool>,
    comp_of: Seq<usize>,
    comps: Seq<Seq<usize>>,
    cut_comp: Seq<usize>,
    cut_comps: Seq<Seq<usize>>,
)
    requires
        well_formed(g),
        stateful.len() == g.len(),
        is_scc_decomposition(g, comp_of, comps),
        is_scc_decomposition(cut_graph(g, stateful), cut_comp, cut_comps),
    ensures
        forall|u: int, v: int|
            #[trigger] must_precede(g, stateful, u, v) && !on_cycle(cut_graph(g, stateful), u) ==> key_above(
                comp_of,
                cut_comp,
                u,
                v,
            ),
{
    assert forall|u: int, v: int|
        #[trigger] must_precede(g, stateful, u, v) && !on_cycle(cut_graph(g, stateful), u) implies key_above(
        comp_of,
        cut_comp,
        u,
        v,
    ) by {
        lemma_key_drops(g, stateful, comp_of, comps, cut_comp, cut_comps, u, v);
    }
}

/// When every system below `n` that an order misses waits, under `rel`, for
/// another one it misses, and `rel` drops the key except from a system where
/// `looping` holds, then `looping` holds somewhere below `n`.
proof fn lemma_stuck_means_loop(
    n: int,
    rel: spec_fn(int, int) -> bool,
    looping: spec_fn(int) -> bool,
    comp_of: Seq<usize>,
    cut_comp: Seq<usize>,
    order: Seq<usize>,
)
    requires
        forall|u: int, v: int| #[trigger] rel(u, v) && !looping(u) ==> key_above(comp_of, cut_comp, u, v),
        exists|x: int| 0 <= x < n && !#[trigger] order.contains(x as usize),
        forall|x: int|
            0 <= x < n && !#[trigger] order.contains(x as usize) ==> exists|u: int|
                0 <= u < n && !order.contains(u as usize) && #[trigger] rel(u, x),
    ensures
        exists|v: int| 0 <= v < n && #[trigger] looping(v),
{
    let m = lemma_top_missing(comp_of, cut_comp, order, n);
    let u = choose|u: int| 0 <= u < n && !order.contains(u as usize) && #[trigger] rel(u, m);
    assert(!key_above(comp_of, cut_comp, u, m));
    assert(looping(u));
}

/// At the first position where two execution orders of the same pool could
/// differ, the first cannot hold the lower-numbered system.
proof fn lemma_first_difference(g: Seq<Seq<usize>>, stateful: Seq<bool>, o1: Seq<usize>, o2: Seq<usize>, p: int)
    requires
        is_execution_order(g, stateful, o1),
        is_execution_order(g, stateful, o2),
        g.len() <= usize::MAX,
        0 <= p < o1.len(),
        forall|k: int| 0 <= k < p ==> o1[k] == o2[k],
    ensures
        !ranks_before(stateful, o1[p] as int, o2[p] as int),
{
    let n = g.len() as int;
    let a = o1[p];
    let b = o2[p];
    if ranks_before(stateful, a as int, b as int) {
        lemma_distinct_below(o2, n);
        assert(o2.contains(a));
        let q = choose|q: int| 0 <= q < o2.len() && o2[q] == a;
        if q < p {
            assert(o1[q] == a);
        }
        assert(q != p);
        assert(ranks_before(stateful, o2[q] as int, o2[p] as int));
        let i = choose|i: int| p <= i < q && #[trigger] must_precede(g, stateful, o2[i] as int, o2[q] as int);
        let u = o2[i];
        lemma_distinct_below(o1, n);
        assert(o1.contains(u));
        let r = choose|r: int| 0 <= r < o1.len() && o1[r] == u;
        if r < p {
            assert(o2[r] == u);
        }
        if r == p {
            assert(o2[i] == o2[q]);
        }
        assert(must_precede(g, stateful, o1[r] as int, o1[p] as int));
        assert(edge(g, o1[r] as int, o1[p] as int));
        if !stateful[o1[r] as int] {
            assert(r < p);
        } else {
            assert(r < p);
        }
    }
}

/// Two execution orders agree on their first `p` positions.
proof fn lemma_orders_agree_up_to(g: Seq<Seq<usize>>, stateful: Seq<bool>, o1: Seq<usize>, o2: Seq<usize>, p: int)
    requires
        is_execution_order(g, stateful, o1),
        is_execution_order(g, stateful, o2),
        g.len() <= usize::MAX,
        0 <= p <= o1.len(),
    ensures
        forall|k: int| 0 <= k < p ==> o1[k] == o2[k],
    decreases p,
{
    if p > 0 {
        lemma_orders_agree_up_to(g, stateful, o1, o2, p - 1);
        lemma_first_difference(g, stateful, o1, o2, p - 1);
        lemma_first_difference(g, stateful, o2, o1, p - 1);
    }
}

/// The execution order of a pool is unique: any two orders that meet
/// `is_execution_order` for the same links and stateful flags are the same.
pub proof fn lemma_execution_order_unique(
    g: Seq<Seq<usize>>,
    stateful: Seq<bool>,
    o1: Seq<usize>,
    o2: Seq<usize>,
)
    requires
        g.len() <= usize::MAX,
        is_execution_order(g, stateful, o1),
        is_execution_order(g, stateful, o2),
    ensures
        o1 == o2,
{
    lemma_orders_agree_up_to(g, stateful, o1, o2, o1.len() as int);
    assert(o1 =~= o2);
}

/// In an execution order, a system that is not stateful never comes after a
/// stateful one unless the links force it there, and within each of the two groups
/// a lower-numbered system never comes after a higher-numbered one unless the links
/// force it there: between the two, from the earlier one on, stands a system that
/// must run before the later one.
pub proof fn lemma_execution_order_ranking(g: Seq<Seq<usize>>, stateful: Seq<bool>, order: Seq<usize>)
    requires
        is_execution_order(g, stateful, order),
    ensures
        forall|p: int, q: int|
            #![trigger order[p], order[q]]
            0 <= p < q < order.len() && stateful[order[p] as int] && !stateful[order[q] as int] ==> exists|i: int|
                p <= i < q && #[trigger] must_precede(g, stateful, order[i] as int, order[q] as int),
        forall|p: int, q: int|
            #![trigger order[p], order[q]]
            0 <= p < q < order.len() && stateful[order[p] as int] == stateful[order[q] as int] && order[q]
                < order[p] ==> exists|i: int|
                p <= i < q && #[trigger] must_precede(g, stateful, order[i] as int, order[q] as int),
{
    assert forall|p: int, q: int|
        #![trigger order[p], order[q]]
        0 <= p < q < order.len() && stateful[order[p] as int] && !stateful[order[q] as int] implies exists|i: int|
            p <= i < q && #[trigger] must_precede(g, stateful, order[i] as int, order[q] as int) by {
        assert(ranks_before(stateful, order[q] as int, order[p] as int));
    }
    assert forall|p: int, q: int|
        #![trigger order[p], order[q]]
        0 <= p < q < order.len() && stateful[order[p] as int] == stateful[order[q] as int] && order[q]
            < order[p] implies exists|i: int|
            p <= i < q && #[trigger] must_precede(g, stateful, order[i] as int, order[q] as int) by {
        assert(ranks_before(stateful, order[q] as int, order[p] as int));
    }
}

/// In an execution order, every link whose source is not stateful runs from its
/// source to its target, also inside a loop.
pub proof fn lemma_stateless_links_in_order(
    n: nat,
    links: Seq<SystemLink>,
    stateful: Seq<bool>,
    order: Seq<usize>,
)
    requires
        is_execution_order(link_graph(n, links), stateful, order),
    ensures
        forall|i: int, j: int|
            0 <= i < order.len() && 0 <= j < order.len() && #[trigger] linked(
                n as int,
                links,
                order[i] as int,
                order[j] as int,
            ) && !stateful[order[i] as int] ==> i < j,
{
    lemma_link_graph(n, links);
    assert forall|i: int, j: int|
        0 <= i < order.len() && 0 <= j < order.len() && #[trigger] linked(
            n as int,
            links,
            order[i] as int,
            order[j] as int,
        ) && !stateful[order[i] as int] implies i < j by {
        assert(edge(link_graph(n, links), order[i] as int, order[j] as int));
    }
}

/// When no system lies on a cycle of links, an execution order follows every link
/// from its source to its target.
pub proof fn lemma_acyclic_links_in_order(
    n: nat,
    links: Seq<SystemLink>,
    stateful: Seq<bool>,
    order: Seq<usize>,
)
    requires
        is_execution_order(link_graph(n, links), stateful, order),
        forall|v: int| 0 <= v < n ==> !#[trigger] on_cycle(link_graph(n, links), v),
    ensures
        forall|i: int, j: int|
            0 <= i < order.len() && 0 <= j < order.len() && #[trigger] linked(
                n as int,
                links,
                order[i] as int,
                order[j] as int,
            ) ==> i < j,
{
    let g = link_graph(n, links);
    lemma_link_graph(n, links);
    assert forall|i: int, j: int|
        0 <= i < order.len() && 0 <= j < order.len() && #[trigger] linked(
            n as int,
            links,
            order[i] as int,
            order[j] as int,
        ) implies i < j by {
        let u = order[i] as int;
        let v = order[j] as int;
        assert(edge(g, u, v));
        if strongly_connected(g, u, v) {
            assert(on_cycle(g, u));
        }
    }
}

} // verus!
