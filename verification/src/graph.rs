//! A dependency graph between source files.
use vstd::prelude::*;

use crate::text::{decimal, push_decimal, push_str, str_eq};

verus! {

/// What a graph holds: the path of each node, and the targets of the edges out of
/// each node, in the order in which they were added.
pub struct GraphView {
    pub paths: Seq<Seq<char>>,
    pub adjacency: Seq<Seq<usize>>,
}

/// A directed graph whose nodes are file paths.
pub struct Graph {
    adjacency_list: Vec<Vec<usize>>,
    paths: Vec<String>,
}

impl View for Graph {
    type V = GraphView;

    closed spec fn view(&self) -> GraphView {
        GraphView {
            paths: self.paths@.map_values(|p: String| p@),
            adjacency: self.adjacency_list@.map_values(|v: Vec<usize>| v@),
        }
    }
}

/// Every edge of the graph points at a node of the graph.
pub open spec fn edges_in_range(g: GraphView) -> bool {
    forall|u: int, k: int|
        0 <= u < g.adjacency.len() && 0 <= k < g.adjacency[u].len() ==> #[trigger] g.adjacency[u][k]
            < g.adjacency.len()
}

/// `order` lists every node of the graph once, and each edge goes from a node to
/// a node listed later.
pub open spec fn is_topological_order(g: GraphView, order: Seq<usize>) -> bool {
    &&& order.len() == g.adjacency.len()
    &&& order.no_duplicates()
    &&& forall|i: int| 0 <= i < order.len() ==> #[trigger] order[i] < g.adjacency.len()
    &&& forall|i: int, j: int, k: int|
        0 <= i < order.len() && 0 <= j < order.len() && 0 <= k < g.adjacency[order[i] as int].len()
            && #[trigger] g.adjacency[order[i] as int][k] == #[trigger] order[j] ==> i < j
}

/// The graph can be ordered topologically, i.e. it has no cycle.
pub open spec fn is_acyclic(g: GraphView) -> bool {
    exists|order: Seq<usize>| is_topological_order(g, order)
}

/// The graph has an edge from `w[i]` to `w[i + 1]`.
pub open spec fn walk_step(g: GraphView, w: Seq<usize>, i: int) -> bool {
    g.adjacency[w[i] as int].contains(w[i + 1])
}

/// `w` is a walk through the graph: nodes of it, each with an edge to the next.
pub open spec fn is_walk(g: GraphView, w: Seq<usize>) -> bool {
    &&& forall|i: int| 0 <= i < w.len() ==> #[trigger] w[i] < g.adjacency.len()
    &&& forall|i: int| 0 <= i < w.len() - 1 ==> #[trigger] walk_step(g, w, i)
}

/// The graph has a cycle: a walk of at least one edge that ends where it starts
/// (a self-loop included).
pub open spec fn has_cycle(g: GraphView) -> bool {
    exists|w: Seq<usize>| #[trigger] is_walk(g, w) && w.len() >= 2 && w[0] == w[w.len() - 1]
}

/// How often `v` occurs in `s`.
pub open spec fn occurrences(s: Seq<usize>, v: usize) -> nat
    decreases s.len(),
{
    if s.len() == 0 {
        0
    } else {
        occurrences(s.drop_last(), v) + if s.last() == v {
            1nat
        } else {
            0nat
        }
    }
}

/// The number of edges into `v` from the nodes below `u` that are not in `done`.
pub open spec fn edges_into(adj: Seq<Seq<usize>>, v: usize, done: Set<usize>, u: int) -> nat
    decreases u,
{
    if u <= 0 {
        0
    } else {
        edges_into(adj, v, done, u - 1) + if done.contains((u - 1) as usize) {
            0nat
        } else {
            occurrences(adj[u - 1], v)
        }
    }
}

/// The number of edges out of the nodes below `u`.
pub open spec fn edges_below(adj: Seq<Seq<usize>>, u: int) -> nat
    decreases u,
{
    if u <= 0 {
        0
    } else {
        edges_below(adj, u - 1) + adj[u - 1].len()
    }
}

/// The entries of `q` before position `h`.
spec fn prefix_set(q: Seq<usize>, h: int) -> Set<usize> {
    Set::new(|x: usize| exists|i: int| 0 <= i < h && q[i] == x)
}

proof fn lemma_occurrences_step(s: Seq<usize>, k: int)
    requires
        0 <= k < s.len(),
    ensures
        forall|v: usize|
            #[trigger] occurrences(s.take(k + 1), v) == occurrences(s.take(k), v) + if s[k] == v {
                1nat
            } else {
                0nat
            },
{
    assert(s.take(k + 1).drop_last() =~= s.take(k));
}

proof fn lemma_occurrences_le_len(s: Seq<usize>, v: usize)
    ensures
        occurrences(s, v) <= s.len(),
    decreases s.len(),
{
    if s.len() > 0 {
        lemma_occurrences_le_len(s.drop_last(), v);
    }
}

proof fn lemma_occurrences_positive(s: Seq<usize>, v: usize)
    requires
        occurrences(s, v) > 0,
    ensures
        exists|k: int| 0 <= k < s.len() && s[k] == v,
    decreases s.len(),
{
    if s.last() != v {
        lemma_occurrences_positive(s.drop_last(), v);
        let k = choose|k: int| 0 <= k < s.drop_last().len() && s.drop_last()[k] == v;
        assert(s[k] == v);
    }
}

proof fn lemma_occurrences_take_le(s: Seq<usize>, v: usize, k: int)
    requires
        0 <= k <= s.len(),
    ensures
        occurrences(s.take(k), v) <= occurrences(s, v),
    decreases s.len() - k,
{
    if k == s.len() {
        assert(s.take(k) =~= s);
    } else {
        lemma_occurrences_step(s, k);
        lemma_occurrences_take_le(s, v, k + 1);
    }
}

proof fn lemma_edges_into_le(adj: Seq<Seq<usize>>, v: usize, done: Set<usize>, u: int)
    ensures
        edges_into(adj, v, done, u) <= edges_below(adj, u),
    decreases u,
{
    if u > 0 {
        lemma_edges_into_le(adj, v, done, u - 1);
        lemma_occurrences_le_len(adj[u - 1], v);
    }
}

proof fn lemma_edges_below_mono(adj: Seq<Seq<usize>>, u: int, w: int)
    requires
        0 <= u <= w,
    ensures
        edges_below(adj, u) <= edges_below(adj, w),
    decreases w - u,
{
    if u < w {
        lemma_edges_below_mono(adj, u, w - 1);
    }
}

/// Marking `x` as done removes its edges from the count.
proof fn lemma_edges_into_insert(
    adj: Seq<Seq<usize>>,
    v: usize,
    done: Set<usize>,
    x: usize,
    u: int,
)
    requires
        !done.contains(x),
        u <= usize::MAX + 1,
    ensures
        edges_into(adj, v, done.insert(x), u) + (if x < u {
            occurrences(adj[x as int], v)
        } else {
            0nat
        }) == edges_into(adj, v, done, u),
    decreases u,
{
    if u > 0 {
        lemma_edges_into_insert(adj, v, done, x, u - 1);
    }
}

proof fn lemma_edges_into_positive(adj: Seq<Seq<usize>>, v: usize, done: Set<usize>, u: int)
    requires
        edges_into(adj, v, done, u) > 0,
    ensures
        exists|x: int|
            0 <= x < u && !done.contains(x as usize) && #[trigger] occurrences(adj[x], v) > 0,
    decreases u,
{
    if u > 0 {
        if edges_into(adj, v, done, u - 1) > 0 {
            lemma_edges_into_positive(adj, v, done, u - 1);
        } else {
            assert(occurrences(adj[u - 1], v) > 0);
        }
    }
}

/// A sequence without repetitions of numbers below `n` has at most `n` entries,
/// and holds each of them where it has exactly `n`.
proof fn lemma_pigeonhole(s: Seq<usize>, n: usize)
    requires
        s.no_duplicates(),
        forall|i: int| 0 <= i < s.len() ==> #[trigger] s[i] < n,
    ensures
        s.len() <= n,
        s.len() == n ==> forall|v: usize| v < n ==> #[trigger] s.contains(v),
{
    broadcast use vstd::set_lib::range_set_properties;

    let a = s.to_set();
    let r = Set::<usize>::range(0, n);
    s.unique_seq_to_set();
    assert(a.subset_of(r)) by {
        assert forall|x: usize| a.contains(x) implies r.contains(x) by {
            let i = choose|i: int| 0 <= i < s.len() && s[i] == x;
        }
    }
    vstd::set_lib::lemma_len_subset(a, r);
    if s.len() == n {
        vstd::set_lib::lemma_subset_equality(a, r);
        assert forall|v: usize| v < n implies #[trigger] s.contains(v) by {
            assert(r.contains(v));
        }
    }
}

/// A sequence without repetitions that holds every number below `n` has at least `n` entries.
proof fn lemma_pigeonhole_cover(s: Seq<usize>, n: usize)
    requires
        forall|v: usize| v < n ==> #[trigger] s.contains(v),
    ensures
        s.len() >= n,
{
    broadcast use vstd::set_lib::range_set_properties;

    let a = s.to_set();
    let r = Set::<usize>::range(0, n);
    assert(r.subset_of(a)) by {
        assert forall|x: usize| r.contains(x) implies a.contains(x) by {
            assert(s.contains(x));
        }
    }
    s.lemma_cardinality_of_set();
    vstd::set_lib::lemma_len_subset(r, a);
}

/// Where each node outside `s` has an edge into it from a node outside `s`, a
/// topological order cannot list a node outside `s`.
proof fn lemma_order_stays_inside(g: GraphView, ord: Seq<usize>, s: Set<usize>, i: int)
    requires
        is_topological_order(g, ord),
        0 <= i <= ord.len(),
        g.adjacency.len() <= usize::MAX,
        forall|v: usize|
            v < g.adjacency.len() && !#[trigger] s.contains(v) ==> exists|x: int, k: int|
                0 <= x < g.adjacency.len() && !s.contains(x as usize) && 0 <= k
                    < g.adjacency[x].len() && #[trigger] g.adjacency[x][k] == v,
    ensures
        forall|p: int| 0 <= p < i ==> s.contains(#[trigger] ord[p]),
    decreases i,
{
    if i > 0 {
        lemma_order_stays_inside(g, ord, s, i - 1);
        let v = ord[i - 1];
        if !s.contains(v) {
            let n = g.adjacency.len() as usize;
            let (x, k) = choose|x: int, k: int|
                0 <= x < g.adjacency.len() && !s.contains(x as usize) && 0 <= k
                    < g.adjacency[x].len() && #[trigger] g.adjacency[x][k] == v;
            lemma_pigeonhole(ord, n);
            assert(ord.contains(x as usize));
            let p = choose|p: int| 0 <= p < ord.len() && ord[p] == x as usize;
            assert(g.adjacency[ord[p] as int][k] == ord[i - 1]);
            assert(p < i - 1);
            assert(s.contains(ord[p]));
        }
    }
}

/// The position of `x` in the order `ord`.
spec fn position(ord: Seq<usize>, x: usize) -> int {
    choose|p: int| 0 <= p < ord.len() && ord[p] == x
}

proof fn lemma_walk_goes_forward(g: GraphView, ord: Seq<usize>, w: Seq<usize>, m: int)
    requires
        is_topological_order(g, ord),
        g.adjacency.len() <= usize::MAX,
        is_walk(g, w),
        1 <= m < w.len(),
    ensures
        0 <= position(ord, w[0]) < position(ord, w[m]) < ord.len(),
        ord[position(ord, w[0])] == w[0],
        ord[position(ord, w[m])] == w[m],
    decreases m,
{
    let n = g.adjacency.len() as usize;
    lemma_pigeonhole(ord, n);
    assert(w[m - 1] < n && w[m] < n);
    assert(ord.contains(w[m - 1]));
    assert(ord.contains(w[m]));
    assert(ord.contains(w[0]));
    let a = position(ord, w[m - 1]);
    let b = position(ord, w[m]);
    assert(walk_step(g, w, m - 1));
    let row = g.adjacency[w[m - 1] as int];
    let k = choose|k: int| 0 <= k < row.len() && #[trigger] row[k] == w[m];
    assert(g.adjacency[ord[a] as int][k] == ord[b]);
    if m > 1 {
        lemma_walk_goes_forward(g, ord, w, m - 1);
    }
}

/// A graph that can be ordered topologically has no cycle.
pub proof fn law_ordered_graphs_have_no_cycle(g: GraphView)
    requires
        g.adjacency.len() <= usize::MAX,
    ensures
        is_acyclic(g) ==> !has_cycle(g),
{
    if is_acyclic(g) && has_cycle(g) {
        let ord = choose|ord: Seq<usize>| is_topological_order(g, ord);
        let w = choose|w: Seq<usize>| #[trigger] is_walk(g, w) && w.len() >= 2 && w[0] == w[w.len() - 1];
        lemma_walk_goes_forward(g, ord, w, w.len() - 1);
    }
}

/// Every node outside `s` has an edge into it from a node outside `s`.
spec fn fed_from_outside(g: GraphView, s: Set<usize>) -> bool {
    forall|v: usize|
        v < g.adjacency.len() && !#[trigger] s.contains(v) ==> exists|x: int, k: int|
            0 <= x < g.adjacency.len() && !s.contains(x as usize) && 0 <= k < g.adjacency[x].len()
                && #[trigger] g.adjacency[x][k] == v
}

/// A node outside `s` with an edge into `v`.
spec fn feeder(g: GraphView, s: Set<usize>, v: usize) -> usize {
    (choose|x: int| 0 <= x < g.adjacency.len() && !s.contains(x as usize) && g.adjacency[x].contains(v)) as usize
}

/// Starting at `v`, `m` steps back along edges, each to a feeder of the node before.
spec fn walk_back(g: GraphView, s: Set<usize>, v: usize, m: nat) -> Seq<usize>
    decreases m,
{
    if m == 0 {
        seq![v]
    } else {
        let b = walk_back(g, s, v, (m - 1) as nat);
        b.push(feeder(g, s, b.last()))
    }
}

proof fn lemma_walk_back(g: GraphView, s: Set<usize>, v: usize, m: nat)
    requires
        fed_from_outside(g, s),
        g.adjacency.len() <= usize::MAX,
        v < g.adjacency.len(),
        !s.contains(v),
    ensures
        walk_back(g, s, v, m).len() == m + 1,
        forall|i: int|
            0 <= i <= m ==> #[trigger] walk_back(g, s, v, m)[i] < g.adjacency.len() && !s.contains(
                walk_back(g, s, v, m)[i],
            ),
        forall|i: int|
            0 <= i < m ==> g.adjacency[walk_back(g, s, v, m)[i + 1] as int].contains(
                #[trigger] walk_back(g, s, v, m)[i],
            ),
    decreases m,
{
    if m > 0 {
        let b = walk_back(g, s, v, (m - 1) as nat);
        lemma_walk_back(g, s, v, (m - 1) as nat);
        let last = b.last();
        assert(b[m - 1] == last);
        let (x, k) = choose|x: int, k: int|
            0 <= x < g.adjacency.len() && !s.contains(x as usize) && 0 <= k < g.adjacency[x].len()
                && #[trigger] g.adjacency[x][k] == last;
        assert(g.adjacency[x].contains(last));
        let f = feeder(g, s, last);
        let c = walk_back(g, s, v, m);
        assert(c == b.push(f));
        assert forall|i: int| 0 <= i <= m implies #[trigger] c[i] < g.adjacency.len() && !s.contains(c[i]) by {
            if i < m {
                assert(c[i] == b[i]);
            }
        }
        assert forall|i: int| 0 <= i < m implies g.adjacency[c[i + 1] as int].contains(#[trigger] c[i]) by {
            if i < m - 1 {
                assert(c[i] == b[i]);
                assert(c[i + 1] == b[i + 1]);
            }
        }
    }
}

/// Where every node outside `s` has an edge into it from a node outside `s`,
/// and some node is outside `s`, the graph has a cycle.
proof fn lemma_cycle_outside(g: GraphView, s: Set<usize>, v: usize)
    requires
        fed_from_outside(g, s),
        g.adjacency.len() <= usize::MAX,
        v < g.adjacency.len(),
        !s.contains(v),
    ensures
        has_cycle(g),
{
    let n = g.adjacency.len() as usize;
    let b = walk_back(g, s, v, n as nat);
    lemma_walk_back(g, s, v, n as nat);
    if b.no_duplicates() {
        lemma_pigeonhole(b, n);
    }
    let (i, j) = choose|i: int, j: int| 0 <= i < b.len() && 0 <= j < b.len() && i != j && b[i] == b[j];
    let (lo, hi) = if i < j { (i, j) } else { (j, i) };
    let w = Seq::new((hi - lo + 1) as nat, |t: int| b[hi - t]);
    assert(w[0] == w[w.len() - 1]);
    assert forall|t: int| 0 <= t < w.len() - 1 implies #[trigger] walk_step(g, w, t) by {
        assert(w[t] == b[hi - t]);
        assert(w[t + 1] == b[hi - t - 1]);
        assert(g.adjacency[b[(hi - t - 1) + 1] as int].contains(b[hi - t - 1]));
    }
    assert forall|t: int| 0 <= t < w.len() implies #[trigger] w[t] < g.adjacency.len() by {
        assert(w[t] == b[hi - t]);
    }
    assert(is_walk(g, w));
}

/// The text of the node lines of the DOT output, for nodes from `i` on.
pub open spec fn dot_nodes(paths: Seq<Seq<char>>, i: int) -> Seq<char>
    decreases paths.len() - i,
{
    if i < 0 || i >= paths.len() {
        seq![]
    } else {
        "  "@ + decimal(i as nat) + " [label=\""@ + paths[i] + "\"];\n"@ + dot_nodes(paths, i + 1)
    }
}

/// The text of the edge lines out of node `from`, for its edges from `k` on.
pub open spec fn dot_edges_of(from: int, targets: Seq<usize>, k: int) -> Seq<char>
    decreases targets.len() - k,
{
    if k < 0 || k >= targets.len() {
        seq![]
    } else {
        "  "@ + decimal(from as nat) + " -> "@ + decimal(targets[k] as nat) + ";\n"@
            + dot_edges_of(from, targets, k + 1)
    }
}

/// The text of the edge lines, for nodes from `u` on.
pub open spec fn dot_edges(adj: Seq<Seq<usize>>, u: int) -> Seq<char>
    decreases adj.len() - u,
{
    if u < 0 || u >= adj.len() {
        seq![]
    } else {
        dot_edges_of(u, adj[u], 0) + dot_edges(adj, u + 1)
    }
}

/// The graph in the DOT language.
pub open spec fn dot_text(g: GraphView) -> Seq<char> {
    "digraph Dependencies {\n"@ + "  rankdir=LR;\n"@ + "  node [shape=box, style=rounded];\n\n"@
        + dot_nodes(g.paths, 0) + "\n"@ + dot_edges(g.adjacency, 0) + "}\n"@
}

impl Graph {
    #[verifier::type_invariant]
    closed spec fn inv(&self) -> bool {
        &&& self.adjacency_list@.len() == self.paths@.len()
        &&& forall|i: int, j: int|
            0 <= i < j < self.paths@.len() ==> #[trigger] self.paths@[i]@ != #[trigger] self.paths@[j]@
    }

    pub fn new() -> (r: Self)
        ensures
            r@.paths.len() == 0,
            r@.adjacency.len() == 0,
            r@.adjacency.len() == r@.paths.len(),
    {
        let g = Graph { adjacency_list: Vec::new(), paths: Vec::new() };
        assert(g@.paths =~= Seq::<Seq<char>>::empty());
        assert(g@.adjacency =~= Seq::<Seq<usize>>::empty());
        g
    }

    /// The node of `path`, added without edges where the graph has no such node.
    pub fn add_node(&mut self, path: String) -> (r: usize)
        ensures
            final(self)@.adjacency.len() == final(self)@.paths.len(),
            old(self)@.paths.contains(path@) ==> {
                &&& final(self)@ == old(self)@
                &&& r < old(self)@.paths.len()
                &&& old(self)@.paths[r as int] == path@
            },
            !old(self)@.paths.contains(path@) ==> {
                &&& r == old(self)@.paths.len()
                &&& final(self)@.paths == old(self)@.paths.push(path@)
                &&& final(self)@.adjacency == old(self)@.adjacency.push(Seq::<usize>::empty())
            },
    {
        proof {
            use_type_invariant(&*self);
        }
        let ghost old_view = self@;
        assert(old_view.adjacency.len() == old_view.paths.len());
        let n = self.paths.len();
        let mut i: usize = 0;
        while i < n
            invariant
                old_view.adjacency.len() == old_view.paths.len(),
                n == self.paths@.len(),
                i <= n,
                self@ == old_view,
                old_view.paths.len() == n,
                forall|j: int| 0 <= j < i ==> #[trigger] old_view.paths[j] != path@,
            decreases n - i,
        {
            if str_eq(self.paths[i].as_str(), path.as_str()) {
                assert(old_view.paths[i as int] == self.paths@[i as int]@);
                return i;
            }
            i = i + 1;
        }
        assert(!old_view.paths.contains(path@)) by {
            if old_view.paths.contains(path@) {
                let j = choose|j: int| 0 <= j < old_view.paths.len() && old_view.paths[j] == path@;
                assert(old_view.paths[j] != path@);
            }
        }
        let ghost p = path@;
        let mut taken = Graph { adjacency_list: Vec::new(), paths: Vec::new() };
        std::mem::swap(self, &mut taken);
        let Graph { adjacency_list: mut adjacency, paths: mut paths } = taken;
        proof {
            assert(paths@.map_values(|q: String| q@) == old_view.paths);
            assert forall|j: int| 0 <= j < paths@.len() implies paths@[j]@ != p by {
                assert(paths@.map_values(|q: String| q@)[j] == paths@[j]@);
            }
        }
        paths.push(path);
        adjacency.push(Vec::new());
        proof {
            assert(paths@.map_values(|q: String| q@) =~= old_view.paths.push(p));
            assert(adjacency@.map_values(|v: Vec<usize>| v@) =~= old_view.adjacency.push(
                Seq::<usize>::empty(),
            ));
        }
        *self = Graph { adjacency_list: adjacency, paths };
        n
    }

    /// Adds an edge from `from` to `to`; nothing happens where `from` is no node.
    pub fn add_edge(&mut self, from: usize, to: usize)
        ensures
            final(self)@.adjacency.len() == final(self)@.paths.len(),
            from < old(self)@.adjacency.len() ==> final(self)@ == (GraphView {
                paths: old(self)@.paths,
                adjacency: old(self)@.adjacency.update(
                    from as int,
                    old(self)@.adjacency[from as int].push(to),
                ),
            }),
            from >= old(self)@.adjacency.len() ==> final(self)@ == old(self)@,
    {
        proof {
            use_type_invariant(&*self);
        }
        if from < self.adjacency_list.len() {
            let ghost old_view = self@;
            let mut taken = Graph { adjacency_list: Vec::new(), paths: Vec::new() };
            std::mem::swap(self, &mut taken);
            let Graph { adjacency_list: mut adjacency, paths } = taken;
            let mut row = adjacency[from].clone();
            assert(row@ =~= adjacency@[from as int]@);
            row.push(to);
            adjacency.set(from, row);
            proof {
                assert(adjacency@.map_values(|v: Vec<usize>| v@) =~= old_view.adjacency.update(
                    from as int,
                    old_view.adjacency[from as int].push(to),
                ));
            }
            *self = Graph { adjacency_list: adjacency, paths };
        }
    }

    /// The paths of the nodes in an order in which every edge goes forward, or
    /// `None` where an edge points at no node or the graph has a cycle.
    pub fn topological_sort(&self) -> (r: Option<Vec<String>>)
        requires
            edges_below(self@.adjacency, self@.adjacency.len() as int) <= usize::MAX,
        ensures
            r is Some <==> edges_in_range(self@) && is_acyclic(self@),
            r is None <==> !edges_in_range(self@) || has_cycle(self@),
            r matches Some(ps) ==> exists|order: Seq<usize>|
                #[trigger] is_topological_order(self@, order) && ps@.map_values(|p: String| p@)
                    == order.map_values(|u: usize| self@.paths[u as int]),
    {
        proof {
            use_type_invariant(self);
        }
        let ghost g = self@;
        let ghost adj = g.adjacency;
        let n = self.adjacency_list.len();
        assert(adj.len() == n);
        // Every edge must point at a node.
        let mut u: usize = 0;
        while u < n
            invariant
                g == self@,
                adj == g.adjacency,
                n == adj.len(),
                u <= n,
                forall|x: int, k: int|
                    0 <= x < u && 0 <= k < adj[x].len() ==> #[trigger] adj[x][k] < n,
            decreases n - u,
        {
            let row = &self.adjacency_list[u];
            assert(row@ == adj[u as int]);
            let mut k: usize = 0;
            while k < row.len()
                invariant
                    g == self@,
                    adj == g.adjacency,
                    row@ == adj[u as int],
                    n == adj.len(),
                    u < n,
                    k <= row@.len(),
                    forall|x: int, k2: int|
                        0 <= x < u && 0 <= k2 < adj[x].len() ==> #[trigger] adj[x][k2] < n,
                    forall|k2: int| 0 <= k2 < k ==> #[trigger] adj[u as int][k2] < n,
                decreases row@.len() - k,
            {
                if row[k] >= n {
                    assert(adj[u as int][k as int] >= n);
                    return None;
                }
                k = k + 1;
            }
            u = u + 1;
        }
        assert(edges_in_range(g));
        // The number of edges into each node.
        let mut indeg: Vec<usize> = Vec::new();
        let mut v: usize = 0;
        while v < n
            invariant
                indeg@.len() == v,
                v <= n,
                forall|w: int| 0 <= w < v ==> #[trigger] indeg@[w] == 0,
            decreases n - v,
        {
            indeg.push(0);
            v = v + 1;
        }
        let ghost none = Set::<usize>::empty();
        let mut u: usize = 0;
        while u < n
            invariant
                g == self@,
                adj == g.adjacency,
                n == adj.len(),
                u <= n,
                indeg@.len() == n,
                none == Set::<usize>::empty(),
                edges_in_range(g),
                edges_below(adj, n as int) <= usize::MAX,
                forall|w: int|
                    0 <= w < n ==> #[trigger] indeg@[w] == edges_into(adj, w as usize, none, u as int),
            decreases n - u,
        {
            let row = &self.adjacency_list[u];
            assert(row@ == adj[u as int]);
            let mut k: usize = 0;
            while k < row.len()
                invariant
                    row@ == adj[u as int],
                    n == adj.len(),
                    u < n,
                    k <= row@.len(),
                    indeg@.len() == n,
                    edges_in_range(g),
                    adj == g.adjacency,
                    edges_below(adj, n as int) <= usize::MAX,
                    forall|w: int|
                        0 <= w < n ==> #[trigger] indeg@[w] == edges_into(adj, w as usize, none, u as int)
                            + occurrences(row@.take(k as int), w as usize),
                decreases row@.len() - k,
            {
                let w = row[k];
                proof {
                    assert(adj[u as int][k as int] == w);
                    lemma_occurrences_step(row@, k as int);
                    lemma_edges_into_le(adj, w, none, u as int);
                    lemma_occurrences_le_len(row@.take(k as int + 1), w);
                    lemma_edges_below_mono(adj, u as int + 1, n as int);
                }
                let d = indeg[w];
                indeg.set(w, d + 1);
                k = k + 1;
            }
            proof {
                assert(row@.take(row@.len() as int) =~= row@);
                assert forall|w: int| 0 <= w < n implies #[trigger] indeg@[w] == edges_into(
                    adj,
                    w as usize,
                    none,
                    u as int + 1,
                ) by {
                    assert(edges_into(adj, w as usize, none, u as int + 1) == edges_into(
                        adj,
                        w as usize,
                        none,
                        u as int,
                    ) + occurrences(adj[u as int], w as usize));
                }
            }
            u = u + 1;
        }
        // The nodes with no edge into them start the queue.
        let mut queue: Vec<usize> = Vec::new();
        let mut v: usize = 0;
        while v < n
            invariant
                indeg@.len() == n,
                v <= n,
                queue@.no_duplicates(),
                forall|i: int| 0 <= i < queue@.len() ==> #[trigger] queue@[i] < v,
                forall|w: usize|
                    w < n ==> (#[trigger] queue@.contains(w) <==> (w < v && indeg@[w as int] == 0)),
            decreases n - v,
        {
            if indeg[v] == 0 {
                proof {
                    assert forall|w: usize| #[trigger] queue@.push(v).contains(w) <==> (
                    queue@.contains(w) || w == v) by {
                        if queue@.push(v).contains(w) && w != v {
                            let i = choose|i: int| 0 <= i < queue@.len() + 1 && queue@.push(v)[i] == w;
                            assert(queue@[i] == w);
                        }
                        if w == v {
                            assert(queue@.push(v)[queue@.len() as int] == w);
                        }
                        if queue@.contains(w) {
                            let i = choose|i: int| 0 <= i < queue@.len() && queue@[i] == w;
                            assert(queue@.push(v)[i] == w);
                        }
                    }
                }
                queue.push(v);
            }
            v = v + 1;
        }
        proof {
            lemma_pigeonhole(queue@, n);
            assert(prefix_set(queue@, 0) =~= none);
        }
        let mut result: Vec<String> = Vec::new();
        let mut head: usize = 0;
        while head < queue.len()
            invariant
                g == self@,
                adj == g.adjacency,
                n == adj.len(),
                g.paths.len() == n,
                edges_in_range(g),
                indeg@.len() == n,
                head <= queue@.len(),
                queue@.len() <= n,
                queue@.no_duplicates(),
                forall|i: int| 0 <= i < queue@.len() ==> #[trigger] queue@[i] < n,
                forall|w: int|
                    0 <= w < n ==> #[trigger] indeg@[w] == edges_into(
                        adj,
                        w as usize,
                        prefix_set(queue@, head as int),
                        n as int,
                    ),
                forall|w: usize| w < n ==> (#[trigger] queue@.contains(w) <==> indeg@[w as int] == 0),
                forall|i: int, j: int, k: int|
                    0 <= i < head && 0 <= j < queue@.len() && 0 <= k < adj[queue@[i] as int].len()
                        && #[trigger] adj[queue@[i] as int][k] == #[trigger] queue@[j] ==> i < j,
                result@.len() == head,
                forall|i: int| 0 <= i < head ==> #[trigger] result@[i]@ == g.paths[queue@[i] as int],
            decreases n - head,
        {
            let u = queue[head];
            let ghost done = prefix_set(queue@, head as int);
            let ghost q0 = queue@;
            assert(!done.contains(u)) by {
                if done.contains(u) {
                    let i = choose|i: int| 0 <= i < head && queue@[i] == u;
                    assert(queue@[i] == queue@[head as int]);
                }
            }
            result.push(self.paths[u].clone());
            let row = &self.adjacency_list[u];
            assert(row@ == adj[u as int]);
            let mut k: usize = 0;
            while k < row.len()
                invariant
                    row@ == adj[u as int],
                    n == adj.len(),
                    u < n,
                    k <= row@.len(),
                    indeg@.len() == n,
                    edges_in_range(g),
                    adj == g.adjacency,
                    !done.contains(u),
                    head < q0.len(),
                    q0[head as int] == u,
                    q0.len() <= queue@.len(),
                    forall|i: int| 0 <= i < q0.len() ==> #[trigger] queue@[i] == q0[i],
                    queue@.len() <= n,
                    queue@.no_duplicates(),
                    forall|i: int| 0 <= i < queue@.len() ==> #[trigger] queue@[i] < n,
                    forall|w: int|
                        0 <= w < n ==> #[trigger] indeg@[w] + occurrences(row@.take(k as int), w as usize)
                            == edges_into(adj, w as usize, done, n as int),
                    forall|w: usize|
                        w < n ==> (#[trigger] queue@.contains(w) <==> indeg@[w as int] == 0),
                    forall|i: int, j: int, k2: int|
                        0 <= i < head && 0 <= j < queue@.len() && 0 <= k2 < adj[queue@[i] as int].len()
                            && #[trigger] adj[queue@[i] as int][k2] == #[trigger] queue@[j] ==> i < j,
                    forall|j: int, k2: int|
                        0 <= j < queue@.len() && 0 <= k2 < k && #[trigger] row@[k2] == #[trigger] queue@[j]
                            ==> head < j,
                decreases row@.len() - k,
            {
                let w = row[k];
                proof {
                    lemma_occurrences_step(row@, k as int);
                    lemma_edges_into_insert(adj, w, done, u, n as int);
                    lemma_occurrences_take_le(row@, w, k as int + 1);
                    assert(indeg@[w as int] >= 1);
                }
                let d = indeg[w];
                let ghost q1 = queue@;
                proof {
                    assert(!q1.contains(w));
                    assert forall|j: int| 0 <= j < q1.len() implies #[trigger] q1[j] != w by {
                        if q1[j] == w {
                            assert(q1.contains(w));
                        }
                    }
                }
                indeg.set(w, d - 1);
                if d - 1 == 0 {
                    proof {
                        lemma_pigeonhole(q1.push(w), n);
                        assert forall|x: usize| #[trigger] q1.push(w).contains(x) <==> (
                        q1.contains(x) || x == w) by {
                            if q1.push(w).contains(x) && x != w {
                                let i = choose|i: int| 0 <= i < q1.len() + 1 && q1.push(w)[i] == x;
                                assert(q1[i] == x);
                            }
                            if x == w {
                                assert(q1.push(w)[q1.len() as int] == x);
                            }
                            if q1.contains(x) {
                                let i = choose|i: int| 0 <= i < q1.len() && q1[i] == x;
                                assert(q1.push(w)[i] == x);
                            }
                        }
                    }
                    queue.push(w);
                }
                proof {
                    assert forall|j: int, k2: int|
                        0 <= j < queue@.len() && 0 <= k2 < k + 1 && #[trigger] row@[k2]
                            == #[trigger] queue@[j] implies head < j by {
                        if j >= q1.len() {
                            assert(head < q0.len());
                        } else {
                            assert(queue@[j] == q1[j]);
                            if k2 == k {
                                assert(q1[j] != w);
                            }
                        }
                    }
                }
                k = k + 1;
            }
            proof {
                assert(row@.take(row@.len() as int) =~= row@);
                assert(prefix_set(queue@, head as int + 1) =~= done.insert(u)) by {
                    assert forall|x: usize| #[trigger] done.insert(u).contains(x) implies prefix_set(
                        queue@,
                        head as int + 1,
                    ).contains(x) by {
                        if x != u {
                            let i = choose|i: int| 0 <= i < head && q0[i] == x;
                            assert(queue@[i] == x);
                        } else {
                            assert(queue@[head as int] == x);
                        }
                    }
                    assert forall|x: usize| #[trigger] prefix_set(queue@, head as int + 1).contains(
                        x,
                    ) implies done.insert(u).contains(x) by {
                        let i = choose|i: int| 0 <= i < head + 1 && queue@[i] == x;
                        if i < head {
                            assert(q0[i] == x);
                        }
                    }
                }
                assert forall|w: int| 0 <= w < n implies #[trigger] indeg@[w] == edges_into(
                    adj,
                    w as usize,
                    done.insert(u),
                    n as int,
                ) by {
                    lemma_edges_into_insert(adj, w as usize, done, u, n as int);
                }
                assert forall|i: int, j: int, k2: int|
                    0 <= i < head + 1 && 0 <= j < queue@.len() && 0 <= k2 < adj[queue@[i] as int].len()
                        && #[trigger] adj[queue@[i] as int][k2] == #[trigger] queue@[j] implies i < j by {
                    if i == head {
                        assert(row@[k2] == queue@[j]);
                    }
                }
            }
            head = head + 1;
        }
        if queue.len() == n {
            proof {
                assert(is_topological_order(g, queue@));
                law_ordered_graphs_have_no_cycle(g);
                assert(result@.map_values(|p: String| p@) =~= queue@.map_values(
                    |u: usize| g.paths[u as int],
                ));
            }
            Some(result)
        } else {
            proof {
                let s = prefix_set(queue@, head as int);
                assert forall|v: usize| v < n && !#[trigger] s.contains(v) implies exists|x: int, k: int|
                    0 <= x < n && !s.contains(x as usize) && 0 <= k < adj[x].len()
                        && #[trigger] adj[x][k] == v by {
                    assert(!queue@.contains(v)) by {
                        if queue@.contains(v) {
                            let i = choose|i: int| 0 <= i < queue@.len() && queue@[i] == v;
                            assert(s.contains(v));
                        }
                    }
                    assert(indeg@[v as int] != 0);
                    lemma_edges_into_positive(adj, v, s, n as int);
                    let x = choose|x: int|
                        0 <= x < n && !s.contains(x as usize) && #[trigger] occurrences(adj[x], v) > 0;
                    lemma_occurrences_positive(adj[x], v);
                }
                assert(fed_from_outside(g, s));
                assert(exists|v: usize| v < n && !queue@.contains(v)) by {
                    if forall|v: usize| v < n ==> queue@.contains(v) {
                        lemma_pigeonhole_cover(queue@, n);
                    }
                }
                let v0 = choose|v: usize| v < n && !queue@.contains(v);
                assert(!s.contains(v0)) by {
                    if s.contains(v0) {
                        let i = choose|i: int| 0 <= i < head && queue@[i] == v0;
                        assert(queue@.contains(v0));
                    }
                }
                lemma_cycle_outside(g, s, v0);
                if is_acyclic(g) {
                    let ord = choose|ord: Seq<usize>| is_topological_order(g, ord);
                    lemma_order_stays_inside(g, ord, s, n as int);
                    lemma_pigeonhole(queue@, n);
                    lemma_pigeonhole(ord, n);
                    // some node never entered the queue
                    assert(exists|v: usize| v < n && !queue@.contains(v)) by {
                        if forall|v: usize| v < n ==> queue@.contains(v) {
                            lemma_pigeonhole_cover(queue@, n);
                        }
                    }
                    let v = choose|v: usize| v < n && !queue@.contains(v);
                    assert(ord.contains(v));
                    let p = choose|p: int| 0 <= p < ord.len() && ord[p] == v;
                    assert(s.contains(ord[p]));
                    let i = choose|i: int| 0 <= i < head && queue@[i] == v;
                    assert(queue@.contains(v));
                }
            }
            None
        }
    }
    /// The graph in the DOT language: one line per node, labelled with its
    /// path, then one line per edge.
    pub fn to_dot(&self) -> (r: String)
        ensures
            r@ == dot_text(self@),
    {
        proof {
            use_type_invariant(self);
        }
        let ghost g = self@;
        let ghost t = dot_text(g);
        let mut dot = String::new();
        push_str(&mut dot, "digraph Dependencies {\n");
        push_str(&mut dot, "  rankdir=LR;\n");
        push_str(&mut dot, "  node [shape=box, style=rounded];\n\n");
        let ghost tail = "\n"@ + dot_edges(g.adjacency, 0) + "}\n"@;
        assert(dot@ + (dot_nodes(g.paths, 0) + tail) =~= t);
        let n = self.paths.len();
        let mut i: usize = 0;
        while i < n
            invariant
                g == self@,
                n == g.paths.len(),
                i <= n,
                dot@ + (dot_nodes(g.paths, i as int) + tail) == t,
            decreases n - i,
        {
            let ghost before = dot@;
            assert(self.paths@[i as int]@ == g.paths[i as int]);
            push_str(&mut dot, "  ");
            push_decimal(&mut dot, i);
            push_str(&mut dot, " [label=\"");
            push_str(&mut dot, self.paths[i].as_str());
            push_str(&mut dot, "\"];\n");
            assert(dot@ + (dot_nodes(g.paths, i as int + 1) + tail) =~= before + (dot_nodes(
                g.paths,
                i as int,
            ) + tail));
            i = i + 1;
        }
        push_str(&mut dot, "\n");
        let ghost close = "}\n"@;
        assert(dot@ + (dot_edges(g.adjacency, 0) + close) =~= t);
        let mut u: usize = 0;
        while u < n
            invariant
                g == self@,
                n == g.adjacency.len(),
                u <= n,
                dot@ + (dot_edges(g.adjacency, u as int) + close) == t,
            decreases n - u,
        {
            let row = &self.adjacency_list[u];
            assert(row@ == g.adjacency[u as int]);
            let ghost rest = dot_edges(g.adjacency, u as int + 1) + close;
            assert(dot@ + (dot_edges_of(u as int, row@, 0) + rest) =~= t);
            let mut k: usize = 0;
            while k < row.len()
                invariant
                    row@ == g.adjacency[u as int],
                    u < n,
                    k <= row@.len(),
                    dot@ + (dot_edges_of(u as int, row@, k as int) + rest) == t,
                decreases row@.len() - k,
            {
                let ghost before = dot@;
                push_str(&mut dot, "  ");
                push_decimal(&mut dot, u);
                push_str(&mut dot, " -> ");
                push_decimal(&mut dot, row[k]);
                push_str(&mut dot, ";\n");
                assert(dot@ + (dot_edges_of(u as int, row@, k as int + 1) + rest) =~= before + (
                dot_edges_of(u as int, row@, k as int) + rest));
                k = k + 1;
            }
            assert(dot@ + (dot_edges(g.adjacency, u as int + 1) + close) =~= t);
            u = u + 1;
        }
        push_str(&mut dot, "}\n");
        assert(dot@ =~= t);
        dot
    }
}

} // verus!
