use vstd::prelude::*;
use crate::coords::{Coords, is_metric, dist_of, lemma_dist_of};
use crate::edge::Edge;
use crate::node::Node;

verus! {

/// What a graph holds, as mathematical sequences.
pub ghost struct GraphView {
    pub nodes: Seq<Node>,
    pub edges: Seq<Edge>,
}

/// Both endpoints of `e` are node indices of a graph with `n` nodes.
pub open spec fn edge_in_range(n: int, e: Edge) -> bool {
    0 <= e.src < n && 0 <= e.trg < n
}

/// The edges are ordered by source index, non-decreasing.
pub open spec fn sorted_by_src(edges: Seq<Edge>) -> bool {
    forall|a: int, b: int| 0 <= a < b < edges.len() ==> edges[a].src <= edges[b].src
}

/// `o` is where the outgoing edges of node `i` start: every edge before it
/// leaves a smaller node, every edge from it on leaves node `i` or a larger one.
pub open spec fn is_offset(edges: Seq<Edge>, i: int, o: int) -> bool {
    &&& 0 <= o <= edges.len()
    &&& forall|j: int| 0 <= j < o ==> #[trigger] edges[j].src < i
    &&& forall|j: int| o <= j < edges.len() ==> #[trigger] edges[j].src >= i
}

/// The compressed-sparse-row invariant of a loaded graph.
pub open spec fn graph_wf(g: GraphView) -> bool {
    &&& g.nodes.len() <= i64::MAX
    &&& g.edges.len() <= i64::MAX
    &&& forall|k: int| 0 <= k < g.edges.len() ==> edge_in_range(g.nodes.len() as int, #[trigger] g.edges[k])
    &&& sorted_by_src(g.edges)
    &&& forall|i: int| 0 <= i < g.nodes.len() ==> is_offset(g.edges, i, #[trigger] g.nodes[i].offset as int)
}

/// First edge index of node `i`.
pub open spec fn out_start(g: GraphView, i: int) -> int {
    g.nodes[i].offset as int
}

/// One past the last edge index of node `i`.
pub open spec fn out_end(g: GraphView, i: int) -> int {
    if i + 1 < g.nodes.len() {
        g.nodes[i + 1].offset as int
    } else {
        g.edges.len() as int
    }
}

/// The outgoing edges of node `i`.
pub open spec fn out_edges(g: GraphView, i: int) -> Seq<Edge> {
    g.edges.subrange(out_start(g, i), out_end(g, i))
}

/// Why a set of nodes and edges does not form a graph.
#[derive(Clone, Copy, PartialEq, Eq, Structural, Debug)]
pub enum GraphError {
    /// The edge at this index names a node that does not exist.
    EndpointOutOfRange(usize),
    /// The edge at this index leaves a smaller node than the edge before it.
    NotSortedBySource(usize),
}

/// The edge at index `k` is acceptable: endpoints in range and not out of order.
pub open spec fn edge_ok(n: int, edges: Seq<Edge>, k: int) -> bool {
    edge_in_range(n, edges[k]) && (k == 0 || edges[k - 1].src <= edges[k].src)
}

/// The error that `from_parts` reports for the edge at index `k`.
pub open spec fn edge_error(n: int, edges: Seq<Edge>, k: int) -> GraphError {
    if !edge_in_range(n, edges[k]) {
        GraphError::EndpointOutOfRange(k as usize)
    } else {
        GraphError::NotSortedBySource(k as usize)
    }
}

/// A road network in compressed-sparse-row form: the outgoing edges of each
/// node form one contiguous run of the edge array.
pub struct Graph {
    nodes: Vec<Node>,
    edges: Vec<Edge>,
}

impl View for Graph {
    type V = GraphView;

    closed spec fn view(&self) -> GraphView {
        GraphView { nodes: self.nodes@, edges: self.edges@ }
    }
}

proof fn lemma_sorted_from_adjacent(edges: Seq<Edge>)
    requires
        forall|k: int| 0 < k < edges.len() ==> #[trigger] edges[k - 1].src <= edges[k].src,
    ensures
        sorted_by_src(edges),
    decreases edges.len(),
{
    if edges.len() > 0 {
        let init = edges.drop_last();
        assert forall|k: int| 0 < k < init.len() implies #[trigger] init[k - 1].src <= init[k].src by {
            assert(edges[k - 1].src <= edges[k].src);
        }
        lemma_sorted_from_adjacent(init);
        assert forall|a: int, b: int| 0 <= a < b < edges.len() implies edges[a].src <= edges[b].src by {
            if b == edges.len() - 1 && a < b - 1 {
                assert(init[a].src <= init[b - 1].src);
                assert(edges[b - 1].src <= edges[b].src);
            } else if b < edges.len() - 1 {
                assert(init[a].src <= init[b].src);
            }
        }
    }
}

/// Offsets never decrease from one node to the next, and none passes the
/// number of edges.
pub proof fn lemma_offsets_monotone(g: GraphView)
    requires
        graph_wf(g),
    ensures
        forall|i: int| 0 <= i < g.nodes.len() ==> 0 <= #[trigger] g.nodes[i].offset <= g.edges.len(),
        forall|i: int| 0 <= i < g.nodes.len() - 1 ==> #[trigger] g.nodes[i].offset <= g.nodes[i + 1].offset,
{
    assert forall|i: int| 0 <= i < g.nodes.len() - 1 implies #[trigger] g.nodes[i].offset <= g.nodes[i + 1].offset by {
        let a = g.nodes[i].offset as int;
        let b = g.nodes[i + 1].offset as int;
        assert(is_offset(g.edges, i, a));
        assert(is_offset(g.edges, i + 1, b));
        if b < a {
            assert(g.edges[b].src < i);
            assert(g.edges[b].src >= i + 1);
        }
    }
    assert forall|i: int| 0 <= i < g.nodes.len() implies 0 <= #[trigger] g.nodes[i].offset <= g.edges.len() by {
        assert(is_offset(g.edges, i, g.nodes[i].offset as int));
    }
}

/// An edge lies in the outgoing run of node `i` exactly when it leaves `i`.
pub proof fn lemma_out_edges_are_edges_leaving(g: GraphView, i: int, k: int)
    requires
        graph_wf(g),
        0 <= i < g.nodes.len(),
        0 <= k < g.edges.len(),
    ensures
        (out_start(g, i) <= k < out_end(g, i)) <==> g.edges[k].src == i,
{
    assert(is_offset(g.edges, i, g.nodes[i].offset as int));
    if i + 1 < g.nodes.len() {
        assert(is_offset(g.edges, i + 1, g.nodes[i + 1].offset as int));
    } else {
        assert(edge_in_range(g.nodes.len() as int, g.edges[k]));
    }
}

/// `candidates[p]` is the node nearest to `q` by `f` among `candidates`, and
/// no earlier candidate is as near.
pub open spec fn is_nearest_of<F: Fn(Coords, Coords) -> u64>(
    f: &F,
    q: Coords,
    nodes: Seq<Node>,
    candidates: Seq<usize>,
    p: int,
) -> bool {
    &&& 0 <= p < candidates.len()
    &&& forall|k: int| 0 <= k < candidates.len() ==>
        dist_of(f, q, nodes[candidates[p] as int].coords) <= #[trigger] dist_of(f, q, nodes[candidates[k] as int].coords)
    &&& forall|k: int| 0 <= k < p ==>
        dist_of(f, q, nodes[candidates[p] as int].coords) < #[trigger] dist_of(f, q, nodes[candidates[k] as int].coords)
}

/// Total length of the outgoing runs of nodes `0 .. k`.
pub open spec fn out_len_sum(g: GraphView, k: int) -> int
    decreases k,
{
    if k <= 0 {
        0
    } else {
        out_len_sum(g, k - 1) + out_edges(g, k - 1).len()
    }
}

proof fn lemma_out_len_prefix(g: GraphView, k: int)
    requires
        graph_wf(g),
        1 <= k <= g.nodes.len(),
        g.nodes[0].offset == 0,
    ensures
        out_len_sum(g, k) == out_end(g, k - 1),
    decreases k,
{
    lemma_offsets_monotone(g);
    if k > 1 {
        lemma_out_len_prefix(g, k - 1);
        assert(out_end(g, k - 2) == out_start(g, k - 1));
    } else {
        assert(out_start(g, 0) == 0);
    }
    assert(0 <= g.nodes[k - 1].offset <= g.edges.len());
    if k < g.nodes.len() {
        assert(g.nodes[k - 1].offset <= g.nodes[k].offset);
        assert(g.nodes[k].offset <= g.edges.len());
    }
    assert(0 <= out_start(g, k - 1) <= out_end(g, k - 1) <= g.edges.len());
    assert(out_edges(g, k - 1).len() == out_end(g, k - 1) - out_start(g, k - 1));
    assert(out_len_sum(g, k) == out_len_sum(g, k - 1) + out_edges(g, k - 1).len());
}

/// Every edge belongs to exactly one outgoing run: over all nodes the runs
/// add up to the number of edges.
pub proof fn lemma_out_edges_cover_all(g: GraphView)
    requires
        graph_wf(g),
    ensures
        out_len_sum(g, g.nodes.len() as int) == g.edges.len(),
{
    lemma_offsets_monotone(g);
    let n = g.nodes.len() as int;
    if n == 0 {
        if g.edges.len() > 0 {
            assert(edge_in_range(n, g.edges[0]));
        }
    } else {
        assert(g.nodes[0].offset == 0) by {
            assert(is_offset(g.edges, 0, g.nodes[0].offset as int));
            if g.nodes[0].offset > 0 {
                assert(edge_in_range(n, g.edges[0]));
            }
        }
        lemma_out_len_prefix(g, n);
    }
}

impl Graph {
    pub open spec fn wf(&self) -> bool {
        graph_wf(self@)
    }

    /// Builds the graph of the given node positions and edges. Node `i` is
    /// placed at `coords[i]`; its offset is where its outgoing edges begin.
    /// The edges are kept in their order; they must be grouped by
    /// non-decreasing source, and every endpoint must name a node.
    pub fn from_parts(coords: Vec<Coords>, edges: Vec<Edge>) -> (r: Result<Graph, GraphError>)
        requires
            coords.len() <= i64::MAX,
            edges.len() <= i64::MAX,
        ensures
            r is Ok <==> forall|k: int| 0 <= k < edges.len() ==> edge_ok(coords.len() as int, edges@, k),
            r matches Err(e) ==> exists|k: int|
                0 <= k < edges.len() && !edge_ok(coords.len() as int, edges@, k)
                && (forall|j: int| 0 <= j < k ==> edge_ok(coords.len() as int, edges@, j))
                && e == edge_error(coords.len() as int, edges@, k),
            r matches Ok(g) ==> {
                &&& g.wf()
                &&& g@.edges == edges@
                &&& g@.nodes.len() == coords.len()
                &&& forall|i: int| 0 <= i < coords.len() ==> #[trigger] g@.nodes[i].coords == coords[i]
            },
    {
        let n = coords.len();
        let m = edges.len();
        let mut k: usize = 0;
        while k < m
            invariant
                k <= m,
                m == edges.len(),
                n == coords.len(),
                n <= i64::MAX,
                forall|j: int| 0 <= j < k ==> edge_ok(n as int, edges@, j),
            decreases m - k,
        {
            let e = edges[k];
            if !(0 <= e.src && e.src < n as i64 && 0 <= e.trg && e.trg < n as i64) {
                assert(!edge_ok(n as int, edges@, k as int));
                return Err(GraphError::EndpointOutOfRange(k));
            }
            if k > 0 && edges[k - 1].src > e.src {
                assert(!edge_ok(n as int, edges@, k as int));
                return Err(GraphError::NotSortedBySource(k));
            }
            k += 1;
        }
        proof {
            assert forall|k: int| 0 < k < edges.len() implies #[trigger] edges@[k - 1].src <= edges@[k].src by {
                assert(edge_ok(n as int, edges@, k));
            }
            lemma_sorted_from_adjacent(edges@);
            assert forall|j: int| 0 <= j < m implies #[trigger] edges@[j].src >= 0 by {
                assert(edge_ok(n as int, edges@, j));
            }
        }
        let mut nodes: Vec<Node> = Vec::with_capacity(n);
        let mut i: usize = 0;
        let mut k: usize = 0;
        while i < n
            invariant
                i <= n,
                m == edges.len(),
                n == coords.len(),
                m <= i64::MAX,
                n <= i64::MAX,
                sorted_by_src(edges@),
                forall|j: int| 0 <= j < m ==> edge_ok(n as int, edges@, j),
                i < n ==> is_offset(edges@, i as int, k as int),
                nodes.len() == i,
                forall|j: int| 0 <= j < i ==> #[trigger] nodes@[j].coords == coords@[j],
                forall|j: int| 0 <= j < i ==> is_offset(edges@, j, #[trigger] nodes@[j].offset as int),
            decreases n - i,
        {
            nodes.push(Node { coords: coords[i], offset: k as i64 });
            // Skip the edges of node i: afterwards k is where node i + 1 begins.
            while k < m && edges[k].src <= i as i64
                invariant
                    k <= m,
                    m == edges.len(),
                    i < n,
                    n <= i64::MAX,
                    forall|j: int| 0 <= j < k ==> #[trigger] edges@[j].src <= i,
                decreases m - k,
            {
                k += 1;
            }
            proof {
                assert forall|j: int| k <= j < m implies #[trigger] edges@[j].src >= i + 1 by {
                    assert(edges@[k as int].src > i);
                    if j > k {
                        assert(edges@[k as int].src <= edges@[j].src);
                    }
                }
            }
            i += 1;
        }
        proof {
            assert forall|j: int| 0 <= j < m implies edge_in_range(n as int, #[trigger] edges@[j]) by {
                assert(edge_ok(n as int, edges@, j));
            }
        }
        Ok(Graph { nodes, edges })
    }

    pub fn is_empty(&self) -> (r: bool)
        ensures
            r == (self@.nodes.len() == 0),
    {
        self.nodes.len() == 0
    }

    pub fn node(&self, index: usize) -> (r: Option<&Node>)
        ensures
            index < self@.nodes.len() ==> r == Some(&self@.nodes[index as int]),
            index >= self@.nodes.len() ==> r is None,
    {
        if index < self.nodes.len() {
            Some(&self.nodes[index])
        } else {
            None
        }
    }

    pub fn edge(&self, index: usize) -> (r: Option<&Edge>)
        ensures
            index < self@.edges.len() ==> r == Some(&self@.edges[index as int]),
            index >= self@.edges.len() ==> r is None,
    {
        if index < self.edges.len() {
            Some(&self.edges[index])
        } else {
            None
        }
    }

    pub fn edges(&self) -> (r: &Vec<Edge>)
        ensures
            r@ == self@.edges,
    {
        &self.edges
    }

    pub fn nodes(&self) -> (r: &Vec<Node>)
        ensures
            r@ == self@.nodes,
    {
        &self.nodes
    }

    pub fn node_count(&self) -> (r: usize)
        ensures
            r == self@.nodes.len(),
    {
        self.nodes.len()
    }

    pub fn edge_count(&self) -> (r: usize)
        ensures
            r == self@.edges.len(),
    {
        self.edges.len()
    }

    /// The edges leaving node `index`, in their order in the edge array.
    pub fn outgoing_edges(&self, index: usize) -> (r: &[Edge])
        requires
            self.wf(),
            index < self@.nodes.len(),
        ensures
            r@ == out_edges(self@, index as int),
            forall|e: Edge| #[trigger] r@.contains(e) ==> e.src == index,
    {
        proof {
            lemma_offsets_monotone(self@);
            assert(0 <= self.nodes@[index as int].offset <= self.edges@.len());
            if index + 1 < self.nodes@.len() {
                assert(self.nodes@[index as int].offset <= self.nodes@[index + 1].offset);
            }
        }
        let m = self.edges.len();
        let start = self.nodes[index].offset;
        let end: i64 = if index == self.nodes.len() - 1 {
            m as i64
        } else {
            self.nodes[index + 1].offset
        };
        assert(0 <= start <= end <= m);
        let start = start as usize;
        let end = end as usize;
        let r = vstd::slice::slice_subrange(self.edges.as_slice(), start, end);
        proof {
            assert forall|e: Edge| #[trigger] r@.contains(e) implies e.src == index by {
                let j = choose|j: int| 0 <= j < r@.len() && r@[j] == e;
                assert(self@.edges[start + j] == e);
                lemma_out_edges_are_edges_leaving(self@, index as int, start + j);
            }
        }
        r
    }

    /// The position in `indices` of the node nearest to `coords`; among equally
    /// near nodes the earliest in `indices` wins.
    fn nearest_position<F: Fn(Coords, Coords) -> u64>(
        nodes: &Vec<Node>,
        indices: &Vec<usize>,
        coords: Coords,
        dist: &F,
    ) -> (p: usize)
        requires
            indices.len() > 0,
            forall|k: int| 0 <= k < indices.len() ==> #[trigger] indices[k] < nodes.len(),
            is_metric(dist),
        ensures
            is_nearest_of(dist, coords, nodes@, indices@, p as int),
    {
        let mut best_pos: usize = 0;
        let mut best: u64 = dist(coords, nodes[indices[0]].coords);
        proof {
            lemma_dist_of(dist, coords, nodes@[indices@[0] as int].coords, best);
        }
        let mut k: usize = 1;
        while k < indices.len()
            invariant
                1 <= k <= indices.len(),
                best_pos < k,
                forall|j: int| 0 <= j < indices.len() ==> #[trigger] indices[j] < nodes.len(),
                is_metric(dist),
                best == dist_of(dist, coords, nodes@[indices@[best_pos as int] as int].coords),
                forall|q: int| 0 <= q < k ==>
                    best <= #[trigger] dist_of(dist, coords, nodes@[indices@[q] as int].coords),
                forall|q: int| 0 <= q < best_pos ==>
                    best < #[trigger] dist_of(dist, coords, nodes@[indices@[q] as int].coords),
            decreases indices.len() - k,
        {
            let d = dist(coords, nodes[indices[k]].coords);
            proof {
                lemma_dist_of(dist, coords, nodes@[indices@[k as int] as int].coords, d);
            }
            if d < best {
                best = d;
                best_pos = k;
            }
            k += 1;
        }
        best_pos
    }

    /// Index of the node among `indices` nearest to `coords` by `dist`; the
    /// first of equally near nodes wins.
    pub fn nearest_node_naive_indices<F: Fn(Coords, Coords) -> u64>(
        nodes: &Vec<Node>,
        indices: &Vec<usize>,
        coords: Coords,
        dist: &F,
    ) -> (r: usize)
        requires
            indices.len() > 0,
            forall|k: int| 0 <= k < indices.len() ==> #[trigger] indices[k] < nodes.len(),
            is_metric(dist),
        ensures
            exists|p: int| #![trigger indices@[p]]
                is_nearest_of(dist, coords, nodes@, indices@, p) && indices@[p] == r,
    {
        let p = Self::nearest_position(nodes, indices, coords, dist);
        indices[p]
    }

    /// Index of the node nearest to `coords` by `dist`, scanning every node;
    /// the lowest index wins among equally near nodes.
    pub fn nearest_node_naive<F: Fn(Coords, Coords) -> u64>(nodes: &Vec<Node>, coords: Coords, dist: &F) -> (r: usize)
        requires
            nodes.len() > 0,
            is_metric(dist),
        ensures
            r < nodes.len(),
            forall|j: int| 0 <= j < nodes.len() ==>
                dist_of(dist, coords, nodes@[r as int].coords) <= #[trigger] dist_of(dist, coords, nodes@[j].coords),
            forall|j: int| 0 <= j < r ==>
                dist_of(dist, coords, nodes@[r as int].coords) < #[trigger] dist_of(dist, coords, nodes@[j].coords),
    {
        let mut best_pos: usize = 0;
        let mut best: u64 = dist(coords, nodes[0].coords);
        proof {
            lemma_dist_of(dist, coords, nodes@[0].coords, best);
        }
        let mut k: usize = 1;
        while k < nodes.len()
            invariant
                1 <= k <= nodes.len(),
                best_pos < k,
                is_metric(dist),
                best == dist_of(dist, coords, nodes@[best_pos as int].coords),
                forall|q: int| 0 <= q < k ==> best <= #[trigger] dist_of(dist, coords, nodes@[q].coords),
                forall|q: int| 0 <= q < best_pos ==> best < #[trigger] dist_of(dist, coords, nodes@[q].coords),
            decreases nodes.len() - k,
        {
            let d = dist(coords, nodes[k].coords);
            proof {
                lemma_dist_of(dist, coords, nodes@[k as int].coords, d);
            }
            if d < best {
                best = d;
                best_pos = k;
            }
            k += 1;
        }
        best_pos
    }

    /// Whether every edge cost is non-negative, as the route search needs.
    pub fn has_nonnegative_costs(&self) -> (r: bool)
        ensures
            r == crate::router::costs_nonnegative(self@),
    {
        let mut k: usize = 0;
        while k < self.edges.len()
            invariant
                k <= self.edges.len(),
                forall|j: int| 0 <= j < k ==> #[trigger] self.edges@[j].cost >= 0,
            decreases self.edges.len() - k,
        {
            if self.edges[k].cost < 0 {
                assert(self@.edges[k as int].cost < 0);
                return false;
            }
            k += 1;
        }
        true
    }
}

} // verus!
