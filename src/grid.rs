use vstd::prelude::*;
use crate::coords::{Coords, is_metric};
use crate::graph::{Graph, is_nearest_of};
use crate::node::Node;

verus! {

/// Depth down to which every non-empty cell is split.
pub const MIN_DEPTH: u64 = 14;

/// Number of nodes a leaf may hold below the depth limit.
pub const MAX_LEAF_ELEMENTS: usize = 8;

/// Depth at which cells are no longer split: a leaf there holds every node
/// that falls into it, which bounds the tree when many nodes coincide.
pub const MAX_DEPTH: u64 = 24;

/// Side of the root cell: 180 degrees, in coordinate units.
pub const ROOT_SIZE: i64 = 1_800_000_000;

/// Quadrant of `a` relative to the pivot `c`: 0 = NW, 1 = NE, 2 = SW, 3 = SE.
/// Equal latitude counts as north and equal longitude as west.
pub open spec fn position_of(a: Coords, c: Coords) -> int {
    (if a.lat < c.lat { 2int } else { 0int }) + (if a.lon > c.lon { 1int } else { 0int })
}

/// Center of quadrant `k` of the cell with center `c` and side `size`.
pub open spec fn child_center(c: Coords, size: int, k: int) -> Coords {
    let q = size / 4;
    Coords {
        lat: (if k < 2 { c.lat + q } else { c.lat - q }) as i64,
        lon: (if k % 2 == 1 { c.lon + q } else { c.lon - q }) as i64,
    }
}

/// A quadtree over node indices: a leaf holds the indices that fall into its
/// cell, an internal node has the four quadrants of its cell as children.
pub enum NodeTree {
    Leaf { center: Coords, size: i64, nodes: Option<Vec<usize>> },
    Node {
        center: Coords,
        nw: Box<NodeTree>,
        ne: Box<NodeTree>,
        sw: Box<NodeTree>,
        se: Box<NodeTree>,
    },
}

proof fn lemma_concat4_contains(a: Seq<usize>, b: Seq<usize>, c: Seq<usize>, d: Seq<usize>, x: usize)
    ensures
        (a + b + c + d).contains(x) <==> (a.contains(x) || b.contains(x) || c.contains(x) || d.contains(x)),
{
    let s = a + b + c + d;
    if s.contains(x) {
        let i = choose|i: int| 0 <= i < s.len() && s[i] == x;
        if i < a.len() {
            assert(a[i] == x);
        } else if i < a.len() + b.len() {
            assert(b[i - a.len()] == x);
        } else if i < a.len() + b.len() + c.len() {
            assert(c[i - a.len() - b.len()] == x);
        } else {
            assert(d[i - a.len() - b.len() - c.len()] == x);
        }
    }
    if a.contains(x) {
        let i = choose|i: int| 0 <= i < a.len() && a[i] == x;
        assert(s[i] == x);
    }
    if b.contains(x) {
        let i = choose|i: int| 0 <= i < b.len() && b[i] == x;
        assert(s[a.len() + i] == x);
    }
    if c.contains(x) {
        let i = choose|i: int| 0 <= i < c.len() && c[i] == x;
        assert(s[a.len() + b.len() + i] == x);
    }
    if d.contains(x) {
        let i = choose|i: int| 0 <= i < d.len() && d[i] == x;
        assert(s[a.len() + b.len() + c.len() + i] == x);
    }
}

/// Number of quadrants not tried yet.
pub open spec fn untried_count(t: Seq<bool>) -> int {
    (if t[0] { 0int } else { 1int }) + (if t[1] { 0int } else { 1int }) + (if t[2] { 0int } else { 1int })
        + (if t[3] { 0int } else { 1int })
}

/// The leaf that `q` falls into when descending by quadrant from `t`.
pub open spec fn home_leaf(t: NodeTree, q: Coords) -> NodeTree
    decreases t,
{
    match t {
        NodeTree::Leaf { .. } => t,
        NodeTree::Node { center, nw, ne, sw, se } => {
            let p = position_of(q, center);
            if p == 0 {
                home_leaf(*nw, q)
            } else if p == 1 {
                home_leaf(*ne, q)
            } else if p == 2 {
                home_leaf(*sw, q)
            } else {
                home_leaf(*se, q)
            }
        },
    }
}

/// `r` is held by some leaf of `t` and is the nearest node to `q`, by `f`,
/// among those of that leaf (the first of equally near ones).
pub open spec fn found_in_leaf<F: Fn(Coords, Coords) -> u64>(
    t: NodeTree,
    nodes: Seq<Node>,
    q: Coords,
    f: &F,
    r: usize,
) -> bool
    decreases t,
{
    match t {
        NodeTree::Leaf { nodes: Some(v), .. } => exists|p: int| #![trigger v@[p]]
            is_nearest_of(f, q, nodes, v@, p) && v@[p] == r,
        NodeTree::Leaf { nodes: None, .. } => false,
        NodeTree::Node { nw, ne, sw, se, .. } => {
            found_in_leaf(*nw, nodes, q, f, r) || found_in_leaf(*ne, nodes, q, f, r)
                || found_in_leaf(*sw, nodes, q, f, r) || found_in_leaf(*se, nodes, q, f, r)
        },
    }
}

proof fn lemma_found_in_range<F: Fn(Coords, Coords) -> u64>(
    t: NodeTree,
    nodes: Seq<Node>,
    q: Coords,
    f: &F,
    r: usize,
    center: Coords,
    size: int,
    depth: int,
)
    requires
        t.wf(nodes, center, size, depth),
        found_in_leaf(t, nodes, q, f, r),
    ensures
        r < nodes.len(),
    decreases t,
{
    match t {
        NodeTree::Leaf { nodes: Some(v), .. } => {
            let p = choose|p: int| #![trigger v@[p]] is_nearest_of(f, q, nodes, v@, p) && v@[p] == r;
            assert(v@[p] < nodes.len());
        },
        NodeTree::Leaf { nodes: None, .. } => {},
        NodeTree::Node { nw, ne, sw, se, .. } => {
            let h = size / 2;
            if found_in_leaf(*nw, nodes, q, f, r) {
                lemma_found_in_range(*nw, nodes, q, f, r, child_center(center, size, 0), h, depth + 1);
            } else if found_in_leaf(*ne, nodes, q, f, r) {
                lemma_found_in_range(*ne, nodes, q, f, r, child_center(center, size, 1), h, depth + 1);
            } else if found_in_leaf(*sw, nodes, q, f, r) {
                lemma_found_in_range(*sw, nodes, q, f, r, child_center(center, size, 2), h, depth + 1);
            } else {
                lemma_found_in_range(*se, nodes, q, f, r, child_center(center, size, 3), h, depth + 1);
            }
        },
    }
}

/// Every leaf of `t`, taking `t` to sit at depth `depth`, holds at most
/// `MAX_LEAF_ELEMENTS` indices unless it lies at `MAX_DEPTH`.
pub open spec fn leaves_bounded(t: NodeTree, depth: int) -> bool
    decreases t,
{
    match t {
        NodeTree::Leaf { .. } => t.leaf_indices().len() <= MAX_LEAF_ELEMENTS || depth >= MAX_DEPTH,
        NodeTree::Node { nw, ne, sw, se, .. } => {
            &&& leaves_bounded(*nw, depth + 1)
            &&& leaves_bounded(*ne, depth + 1)
            &&& leaves_bounded(*sw, depth + 1)
            &&& leaves_bounded(*se, depth + 1)
        },
    }
}

/// In a well-formed tree, such as `build` returns, no leaf holds more than
/// `MAX_LEAF_ELEMENTS` indices, except at the depth limit where coinciding
/// nodes cannot be told apart.
pub proof fn lemma_leaf_size_bound(t: NodeTree, nodes: Seq<Node>, center: Coords, size: int, depth: int)
    requires
        t.wf(nodes, center, size, depth),
    ensures
        leaves_bounded(t, depth),
    decreases t,
{
    match t {
        NodeTree::Leaf { .. } => {},
        NodeTree::Node { nw, ne, sw, se, .. } => {
            lemma_leaf_size_bound(*nw, nodes, child_center(center, size, 0), size / 2, depth + 1);
            lemma_leaf_size_bound(*ne, nodes, child_center(center, size, 1), size / 2, depth + 1);
            lemma_leaf_size_bound(*sw, nodes, child_center(center, size, 2), size / 2, depth + 1);
            lemma_leaf_size_bound(*se, nodes, child_center(center, size, 3), size / 2, depth + 1);
        },
    }
}

impl NodeTree {
    pub open spec fn center_of(&self) -> Coords {
        match self {
            NodeTree::Leaf { center, .. } => *center,
            NodeTree::Node { center, .. } => *center,
        }
    }

    /// The child in quadrant `k` of an internal node.
    pub open spec fn child(&self, k: int) -> NodeTree
        recommends
            self is Node,
    {
        match self {
            NodeTree::Node { nw, ne, sw, se, .. } => {
                if k == 0 {
                    **nw
                } else if k == 1 {
                    **ne
                } else if k == 2 {
                    **sw
                } else {
                    **se
                }
            },
            NodeTree::Leaf { .. } => *self,
        }
    }

    /// Side of a leaf's cell; zero for an internal node.
    pub open spec fn leaf_size(&self) -> int {
        match self {
            NodeTree::Leaf { size, .. } => *size as int,
            NodeTree::Node { .. } => 0,
        }
    }

    /// The indices the leaf holds; empty for an internal node.
    pub open spec fn leaf_indices(&self) -> Seq<usize> {
        match self {
            NodeTree::Leaf { nodes: Some(v), .. } => v@,
            _ => Seq::empty(),
        }
    }

    /// All indices in the tree, quadrant by quadrant.
    pub open spec fn indices(&self) -> Seq<usize>
        decreases self,
    {
        match self {
            NodeTree::Leaf { nodes: Some(v), .. } => v@,
            NodeTree::Leaf { nodes: None, .. } => Seq::empty(),
            NodeTree::Node { nw, ne, sw, se, .. } => nw.indices() + ne.indices() + sw.indices()
                + se.indices(),
        }
    }

    /// The tree covers the cell with center `center` and side `size` at
    /// depth `depth`, over the graph nodes `nodes`: children sit at the
    /// quadrant centers with half the side; every index lies in the quadrant
    /// of its subtree; non-empty leaves sit at depth `MIN_DEPTH` or below and
    /// hold at most `MAX_LEAF_ELEMENTS` indices unless at `MAX_DEPTH`;
    /// every internal node holds some index.
    pub open spec fn wf(&self, nodes: Seq<Node>, center: Coords, size: int, depth: int) -> bool
        decreases self,
    {
        match self {
            NodeTree::Leaf { center: c, size: s, nodes: ns } => {
                &&& *c == center
                &&& *s == size
                &&& match ns {
                    None => true,
                    Some(v) => {
                        &&& v.len() > 0
                        &&& depth >= MIN_DEPTH
                        &&& (v.len() <= MAX_LEAF_ELEMENTS || depth >= MAX_DEPTH)
                        &&& forall|j: int| 0 <= j < v.len() ==> #[trigger] v@[j] < nodes.len()
                    },
                }
            },
            NodeTree::Node { center: c, nw, ne, sw, se } => {
                &&& *c == center
                &&& depth < MAX_DEPTH
                &&& self.indices().len() > 0
                &&& nw.wf(nodes, child_center(center, size, 0), size / 2, depth + 1)
                &&& ne.wf(nodes, child_center(center, size, 1), size / 2, depth + 1)
                &&& sw.wf(nodes, child_center(center, size, 2), size / 2, depth + 1)
                &&& se.wf(nodes, child_center(center, size, 3), size / 2, depth + 1)
                &&& forall|j: int| 0 <= j < nw.indices().len() ==>
                    position_of(nodes[#[trigger] nw.indices()[j] as int].coords, center) == 0
                &&& forall|j: int| 0 <= j < ne.indices().len() ==>
                    position_of(nodes[#[trigger] ne.indices()[j] as int].coords, center) == 1
                &&& forall|j: int| 0 <= j < sw.indices().len() ==>
                    position_of(nodes[#[trigger] sw.indices()[j] as int].coords, center) == 2
                &&& forall|j: int| 0 <= j < se.indices().len() ==>
                    position_of(nodes[#[trigger] se.indices()[j] as int].coords, center) == 3
            },
        }
    }

    /// Quadrant of `coord1` relative to the pivot `coord2`.
    pub fn relative_position(coord1: Coords, coord2: Coords) -> (r: usize)
        ensures
            r == position_of(coord1, coord2),
    {
        let lat: usize = if coord1.lat < coord2.lat { 1 } else { 0 };
        let lon: usize = if coord1.lon > coord2.lon { 1 } else { 0 };
        lat * 2 + lon
    }

    /// The empty root cell: centered at (0, 0) with a side of 180 degrees.
    pub fn root_leaf() -> (r: Self)
        ensures
            r == (NodeTree::Leaf { center: Coords { lat: 0, lon: 0 }, size: ROOT_SIZE, nodes: None }),
    {
        NodeTree::Leaf { center: Coords { lat: 0, lon: 0 }, size: ROOT_SIZE, nodes: None }
    }

    /// Splits `indices` by quadrant around `center`, keeping their order.
    fn split(nodes: &Vec<Node>, indices: &Vec<usize>, center: Coords) -> (r: (Vec<usize>, Vec<usize>, Vec<usize>, Vec<usize>))
        requires
            forall|j: int| 0 <= j < indices.len() ==> #[trigger] indices[j] < nodes.len(),
        ensures
            r.0.len() + r.1.len() + r.2.len() + r.3.len() == indices.len(),
            forall|j: int| 0 <= j < r.0.len() ==> #[trigger] r.0[j] < nodes.len()
                && position_of(nodes@[r.0[j] as int].coords, center) == 0 && indices@.contains(r.0[j]),
            forall|j: int| 0 <= j < r.1.len() ==> #[trigger] r.1[j] < nodes.len()
                && position_of(nodes@[r.1[j] as int].coords, center) == 1 && indices@.contains(r.1[j]),
            forall|j: int| 0 <= j < r.2.len() ==> #[trigger] r.2[j] < nodes.len()
                && position_of(nodes@[r.2[j] as int].coords, center) == 2 && indices@.contains(r.2[j]),
            forall|j: int| 0 <= j < r.3.len() ==> #[trigger] r.3[j] < nodes.len()
                && position_of(nodes@[r.3[j] as int].coords, center) == 3 && indices@.contains(r.3[j]),
            forall|j: int| 0 <= j < indices.len() ==> {
                let x = #[trigger] indices@[j];
                let p = position_of(nodes@[x as int].coords, center);
                &&& p == 0 ==> r.0@.contains(x)
                &&& p == 1 ==> r.1@.contains(x)
                &&& p == 2 ==> r.2@.contains(x)
                &&& p == 3 ==> r.3@.contains(x)
            },
    {
        let mut a: Vec<usize> = Vec::new();
        let mut b: Vec<usize> = Vec::new();
        let mut c: Vec<usize> = Vec::new();
        let mut d: Vec<usize> = Vec::new();
        let mut i: usize = 0;
        while i < indices.len()
            invariant
                i <= indices.len(),
                forall|j: int| 0 <= j < indices.len() ==> #[trigger] indices[j] < nodes.len(),
                a.len() + b.len() + c.len() + d.len() == i,
                forall|j: int| 0 <= j < a.len() ==> #[trigger] a[j] < nodes.len()
                    && position_of(nodes@[a[j] as int].coords, center) == 0 && indices@.contains(a[j]),
                forall|j: int| 0 <= j < b.len() ==> #[trigger] b[j] < nodes.len()
                    && position_of(nodes@[b[j] as int].coords, center) == 1 && indices@.contains(b[j]),
                forall|j: int| 0 <= j < c.len() ==> #[trigger] c[j] < nodes.len()
                    && position_of(nodes@[c[j] as int].coords, center) == 2 && indices@.contains(c[j]),
                forall|j: int| 0 <= j < d.len() ==> #[trigger] d[j] < nodes.len()
                    && position_of(nodes@[d[j] as int].coords, center) == 3 && indices@.contains(d[j]),
                forall|j: int| 0 <= j < i ==> {
                    let x = #[trigger] indices@[j];
                    let p = position_of(nodes@[x as int].coords, center);
                    &&& p == 0 ==> a@.contains(x)
                    &&& p == 1 ==> b@.contains(x)
                    &&& p == 2 ==> c@.contains(x)
                    &&& p == 3 ==> d@.contains(x)
                },
            decreases indices.len() - i,
        {
            let x = indices[i];
            assert(indices@.contains(x)) by {
                assert(indices@[i as int] == x);
            }
            let p = Self::relative_position(nodes[x].coords, center);
            let ghost (a0, b0, c0, d0) = (a@, b@, c@, d@);
            if p == 0 {
                a.push(x);
                assert(a@[a0.len() as int] == x);
            } else if p == 1 {
                b.push(x);
                assert(b@[b0.len() as int] == x);
            } else if p == 2 {
                c.push(x);
                assert(c@[c0.len() as int] == x);
            } else {
                d.push(x);
                assert(d@[d0.len() as int] == x);
            }
            assert forall|j: int| 0 <= j < i + 1 implies {
                let y = #[trigger] indices@[j];
                let q = position_of(nodes@[y as int].coords, center);
                &&& q == 0 ==> a@.contains(y)
                &&& q == 1 ==> b@.contains(y)
                &&& q == 2 ==> c@.contains(y)
                &&& q == 3 ==> d@.contains(y)
            } by {
                if j < i {
                    let y = indices@[j];
                    if a0.contains(y) {
                        let t = choose|t: int| 0 <= t < a0.len() && a0[t] == y;
                        assert(a@[t] == y);
                    }
                    if b0.contains(y) {
                        let t = choose|t: int| 0 <= t < b0.len() && b0[t] == y;
                        assert(b@[t] == y);
                    }
                    if c0.contains(y) {
                        let t = choose|t: int| 0 <= t < c0.len() && c0[t] == y;
                        assert(c@[t] == y);
                    }
                    if d0.contains(y) {
                        let t = choose|t: int| 0 <= t < d0.len() && d0[t] == y;
                        assert(d@[t] == y);
                    }
                }
            }
            i += 1;
        }
        (a, b, c, d)
    }

    /// Builds the subtree of the cell with center `center` and side `size`
    /// at depth `depth` that holds `indices`.
    fn build_cell(nodes: &Vec<Node>, center: Coords, size: i64, depth: u64, indices: Vec<usize>) -> (r: Self)
        requires
            depth <= MAX_DEPTH,
            0 <= size <= ROOT_SIZE,
            -(ROOT_SIZE - size) <= center.lat <= ROOT_SIZE - size,
            -(ROOT_SIZE - size) <= center.lon <= ROOT_SIZE - size,
            forall|j: int| 0 <= j < indices.len() ==> #[trigger] indices[j] < nodes.len(),
        ensures
            r.wf(nodes@, center, size as int, depth as int),
            r.indices().len() == indices.len(),
            forall|x: usize| #[trigger] r.indices().contains(x) <==> indices@.contains(x),
        decreases MAX_DEPTH - depth,
    {
        if indices.len() == 0 {
            assert(indices@ =~= Seq::<usize>::empty());
            return NodeTree::Leaf { center, size, nodes: None };
        }
        if depth >= MAX_DEPTH || (depth >= MIN_DEPTH && indices.len() <= MAX_LEAF_ELEMENTS) {
            return NodeTree::Leaf { center, size, nodes: Some(indices) };
        }
        let (a, b, c, d) = Self::split(nodes, &indices, center);
        let q = size / 4;
        let h = size / 2;
        let ghost ghost_nodes = nodes@;
        let nw = Self::build_cell(nodes, Coords { lat: center.lat + q, lon: center.lon - q }, h, depth + 1, a.clone());
        let ne = Self::build_cell(nodes, Coords { lat: center.lat + q, lon: center.lon + q }, h, depth + 1, b.clone());
        let sw = Self::build_cell(nodes, Coords { lat: center.lat - q, lon: center.lon - q }, h, depth + 1, c.clone());
        let se = Self::build_cell(nodes, Coords { lat: center.lat - q, lon: center.lon + q }, h, depth + 1, d.clone());
        let r = NodeTree::Node { center, nw: Box::new(nw), ne: Box::new(ne), sw: Box::new(sw), se: Box::new(se) };
        proof {
            let (ia, ib, ic, id) = (nw.indices(), ne.indices(), sw.indices(), se.indices());
            assert(r.indices() == ia + ib + ic + id);
            assert forall|j: int| 0 <= j < ia.len() implies
                position_of(ghost_nodes[#[trigger] ia[j] as int].coords, center) == 0 by {
                assert(ia.contains(ia[j]));
                let t = choose|t: int| 0 <= t < a@.len() && a@[t] == ia[j];
                assert(a[t] == ia[j]);
            }
            assert forall|j: int| 0 <= j < ib.len() implies
                position_of(ghost_nodes[#[trigger] ib[j] as int].coords, center) == 1 by {
                assert(ib.contains(ib[j]));
                let t = choose|t: int| 0 <= t < b@.len() && b@[t] == ib[j];
                assert(b[t] == ib[j]);
            }
            assert forall|j: int| 0 <= j < ic.len() implies
                position_of(ghost_nodes[#[trigger] ic[j] as int].coords, center) == 2 by {
                assert(ic.contains(ic[j]));
                let t = choose|t: int| 0 <= t < c@.len() && c@[t] == ic[j];
                assert(c[t] == ic[j]);
            }
            assert forall|j: int| 0 <= j < id.len() implies
                position_of(ghost_nodes[#[trigger] id[j] as int].coords, center) == 3 by {
                assert(id.contains(id[j]));
                let t = choose|t: int| 0 <= t < d@.len() && d@[t] == id[j];
                assert(d[t] == id[j]);
            }
            assert forall|x: usize| #[trigger] r.indices().contains(x) <==> indices@.contains(x) by {
                lemma_concat4_contains(ia, ib, ic, id, x);
                if indices@.contains(x) {
                    let j = choose|j: int| 0 <= j < indices@.len() && indices@[j] == x;
                    assert(indices@[j] == x);
                }
                if a@.contains(x) {
                    let t = choose|t: int| 0 <= t < a@.len() && a@[t] == x;
                    assert(a[t] == x);
                }
                if b@.contains(x) {
                    let t = choose|t: int| 0 <= t < b@.len() && b@[t] == x;
                    assert(b[t] == x);
                }
                if c@.contains(x) {
                    let t = choose|t: int| 0 <= t < c@.len() && c@[t] == x;
                    assert(c[t] == x);
                }
                if d@.contains(x) {
                    let t = choose|t: int| 0 <= t < d@.len() && d@[t] == x;
                    assert(d[t] == x);
                }
            }
        }
        r
    }

    /// Builds the quadtree over all of `graph_nodes`, starting from the root
    /// cell at (0, 0) with a side of 180 degrees.
    pub fn build(graph_nodes: &Vec<Node>) -> (r: Self)
        ensures
            r.wf(graph_nodes@, Coords { lat: 0, lon: 0 }, ROOT_SIZE as int, 0),
            r.indices().len() == graph_nodes.len(),
            forall|i: usize| i < graph_nodes.len() ==> #[trigger] r.indices().contains(i),
            forall|j: int| 0 <= j < r.indices().len() ==> #[trigger] r.indices()[j] < graph_nodes.len(),
    {
        let mut all: Vec<usize> = Vec::with_capacity(graph_nodes.len());
        let mut i: usize = 0;
        while i < graph_nodes.len()
            invariant
                i <= graph_nodes.len(),
                all.len() == i,
                forall|j: int| 0 <= j < i ==> #[trigger] all@[j] == j,
            decreases graph_nodes.len() - i,
        {
            all.push(i);
            i += 1;
        }
        let ghost g = all@;
        let r = Self::build_cell(graph_nodes, Coords { lat: 0, lon: 0 }, ROOT_SIZE, 0, all);
        proof {
            assert forall|i: usize| i < graph_nodes.len() implies #[trigger] r.indices().contains(i) by {
                assert(g[i as int] == i);
                assert(g.contains(i));
            }
            assert forall|j: int| 0 <= j < r.indices().len() implies #[trigger] r.indices()[j] < graph_nodes.len() by {
                assert(r.indices().contains(r.indices()[j]));
            }
        }
        r
    }

    fn center(&self) -> (r: Coords)
        ensures
            r == self.center_of(),
    {
        match self {
            NodeTree::Leaf { center, .. } => *center,
            NodeTree::Node { center, .. } => *center,
        }
    }

    /// Searches the subtree: the nearest node of the leaf that the query
    /// falls into, or, where that leaf is empty, of the nearest non-empty
    /// quadrant beside it, trying quadrants by the distance of their centers.
    #[verifier::loop_isolation(false)]
    fn search<F: Fn(Coords, Coords) -> u64>(
        &self,
        graph_nodes: &Vec<Node>,
        coords: Coords,
        dist: &F,
        Ghost(center): Ghost<Coords>,
        Ghost(size): Ghost<int>,
        Ghost(depth): Ghost<int>,
    ) -> (r: Option<usize>)
        requires
            self.wf(graph_nodes@, center, size, depth),
            is_metric(dist),
        ensures
            r is Some <==> self.indices().len() > 0,
            r matches Some(x) ==> found_in_leaf(*self, graph_nodes@, coords, dist, x),
            home_leaf(*self, coords).leaf_indices().len() > 0 ==> (r matches Some(x)
                && exists|p: int| #![trigger home_leaf(*self, coords).leaf_indices()[p]]
                    is_nearest_of(dist, coords, graph_nodes@, home_leaf(*self, coords).leaf_indices(), p)
                    && home_leaf(*self, coords).leaf_indices()[p] == x),
        decreases self,
    {
        match self {
            NodeTree::Leaf { nodes, .. } => {
                match nodes {
                    Some(v) => Some(Graph::nearest_node_naive_indices(graph_nodes, v, coords, dist)),
                    None => None,
                }
            },
            NodeTree::Node { center: c, nw, ne, sw, se } => {
                let ghost h = size / 2;
                let p = Self::relative_position(coords, *c);
                let first = if p == 0 {
                    nw.search(graph_nodes, coords, dist, Ghost(child_center(center, size, 0)), Ghost(h), Ghost(depth + 1))
                } else if p == 1 {
                    ne.search(graph_nodes, coords, dist, Ghost(child_center(center, size, 1)), Ghost(h), Ghost(depth + 1))
                } else if p == 2 {
                    sw.search(graph_nodes, coords, dist, Ghost(child_center(center, size, 2)), Ghost(h), Ghost(depth + 1))
                } else {
                    se.search(graph_nodes, coords, dist, Ghost(child_center(center, size, 3)), Ghost(h), Ghost(depth + 1))
                };
                if first.is_some() {
                    return first;
                }
                let mut tried: Vec<bool> = vec![false, false, false, false];
                tried.set(p, true);
                loop
                    invariant
                        tried.len() == 4,
                        self.wf(graph_nodes@, center, size, depth),
                        is_metric(dist),
                        home_leaf(*self, coords).leaf_indices().len() == 0,
                        forall|k: int| 0 <= k < 4 && #[trigger] tried[k] ==> self.child(k).indices().len() == 0,
                    decreases untried_count(tried@),
                {
                    let mut best: usize = 4;
                    let mut best_d: u64 = 0;
                    let mut k: usize = 0;
                    while k < 4
                        invariant
                            k <= 4,
                            tried.len() == 4,
                            best == 4 || (best < k && !tried[best as int]),
                            best == 4 ==> forall|j: int| 0 <= j < k ==> #[trigger] tried[j],
                            is_metric(dist),
                        decreases 4 - k,
                    {
                        if !tried[k] {
                            let cc = if k == 0 {
                                nw.center()
                            } else if k == 1 {
                                ne.center()
                            } else if k == 2 {
                                sw.center()
                            } else {
                                se.center()
                            };
                            let d = dist(coords, cc);
                            if best == 4 || d < best_d {
                                best = k;
                                best_d = d;
                            }
                        }
                        k += 1;
                    }
                    if best == 4 {
                        proof {
                            assert(tried[0] && tried[1] && tried[2] && tried[3]);
                            assert(self.child(0).indices().len() == 0);
                            assert(self.child(1).indices().len() == 0);
                            assert(self.child(2).indices().len() == 0);
                            assert(self.child(3).indices().len() == 0);
                            assert(self.indices().len() == 0);
                        }
                        return None;
                    }
                    let ghost before = tried@;
                    tried.set(best, true);
                    assert(untried_count(tried@) < untried_count(before));
                    let found = if best == 0 {
                        nw.search(graph_nodes, coords, dist, Ghost(child_center(center, size, 0)), Ghost(h), Ghost(depth + 1))
                    } else if best == 1 {
                        ne.search(graph_nodes, coords, dist, Ghost(child_center(center, size, 1)), Ghost(h), Ghost(depth + 1))
                    } else if best == 2 {
                        sw.search(graph_nodes, coords, dist, Ghost(child_center(center, size, 2)), Ghost(h), Ghost(depth + 1))
                    } else {
                        se.search(graph_nodes, coords, dist, Ghost(child_center(center, size, 3)), Ghost(h), Ghost(depth + 1))
                    };
                    if found.is_some() {
                        return found;
                    }
                }
            },
        }
    }

    /// Index of a graph node near `coords`: the nearest node, by `dist`, of
    /// the leaf that the query falls into, or where that leaf is empty, of
    /// the nearest non-empty neighbouring quadrant.
    pub fn nearest_node<F: Fn(Coords, Coords) -> u64>(&self, graph_nodes: &Vec<Node>, coords: Coords, dist: &F) -> (r: usize)
        requires
            self.wf(graph_nodes@, Coords { lat: 0, lon: 0 }, ROOT_SIZE as int, 0),
            self.indices().len() > 0,
            is_metric(dist),
        ensures
            r < graph_nodes.len(),
            found_in_leaf(*self, graph_nodes@, coords, dist, r),
            home_leaf(*self, coords).leaf_indices().len() > 0 ==>
                exists|p: int| #![trigger home_leaf(*self, coords).leaf_indices()[p]]
                    is_nearest_of(dist, coords, graph_nodes@, home_leaf(*self, coords).leaf_indices(), p)
                    && home_leaf(*self, coords).leaf_indices()[p] == r,
    {
        let r = self.search(graph_nodes, coords, dist, Ghost(Coords { lat: 0, lon: 0 }), Ghost(ROOT_SIZE as int), Ghost(0));
        let x = r.unwrap();
        proof {
            lemma_found_in_range(*self, graph_nodes@, coords, dist, x, Coords { lat: 0, lon: 0 }, ROOT_SIZE as int, 0);
        }
        x
    }

    fn leaf_of(center: Coords, size: i64, indices: Vec<usize>) -> (r: Self)
        ensures
            r is Leaf,
            r.center_of() == center,
            r.leaf_size() == size,
            r.leaf_indices() == indices@,
    {
        if indices.len() == 0 {
            assert(indices@ =~= Seq::<usize>::empty());
            NodeTree::Leaf { center, size, nodes: None }
        } else {
            NodeTree::Leaf { center, size, nodes: Some(indices) }
        }
    }

    /// Splits a leaf into an internal node with the same center and four
    /// leaf children, one per quadrant, each with half the side; the
    /// leaf's indices go to the quadrant they lie in relative to the old
    /// center.
    pub fn subdivide(&self, graph_nodes: &Vec<Node>) -> (r: Self)
        requires
            self is Leaf,
            forall|j: int| 0 <= j < self.leaf_indices().len() ==> #[trigger] self.leaf_indices()[j] < graph_nodes.len(),
            0 <= self.leaf_size() <= ROOT_SIZE,
            -(ROOT_SIZE - self.leaf_size()) <= self.center_of().lat <= ROOT_SIZE - self.leaf_size(),
            -(ROOT_SIZE - self.leaf_size()) <= self.center_of().lon <= ROOT_SIZE - self.leaf_size(),
        ensures
            r is Node,
            r.center_of() == self.center_of(),
            forall|k: int| 0 <= k < 4 ==> {
                &&& #[trigger] r.child(k) is Leaf
                &&& r.child(k).center_of() == child_center(self.center_of(), self.leaf_size(), k)
                &&& r.child(k).leaf_size() == self.leaf_size() / 2
            },
            forall|k: int, x: usize| 0 <= k < 4 ==> (#[trigger] r.child(k).leaf_indices().contains(x) <==> (
                self.leaf_indices().contains(x) && position_of(graph_nodes@[x as int].coords, self.center_of()) == k)),
            r.child(0).leaf_indices().len() + r.child(1).leaf_indices().len() + r.child(2).leaf_indices().len()
                + r.child(3).leaf_indices().len() == self.leaf_indices().len(),
    {
        match self {
            NodeTree::Leaf { center, size, nodes } => {
                let empty: Vec<usize> = Vec::new();
                let indices = match nodes {
                    Some(v) => v,
                    None => &empty,
                };
                assert(indices@ == self.leaf_indices());
                let (a, b, c, d) = Self::split(graph_nodes, indices, *center);
                let q = *size / 4;
                let h = *size / 2;
                let ghost ga = a@;
                let ghost gb = b@;
                let ghost gc = c@;
                let ghost gd = d@;
                let nw = Self::leaf_of(Coords { lat: center.lat + q, lon: center.lon - q }, h, a);
                let ne = Self::leaf_of(Coords { lat: center.lat + q, lon: center.lon + q }, h, b);
                let sw = Self::leaf_of(Coords { lat: center.lat - q, lon: center.lon - q }, h, c);
                let se = Self::leaf_of(Coords { lat: center.lat - q, lon: center.lon + q }, h, d);
                let r = NodeTree::Node { center: *center, nw: Box::new(nw), ne: Box::new(ne), sw: Box::new(sw), se: Box::new(se) };
                proof {
                    assert forall|k: int, x: usize| 0 <= k < 4 implies (#[trigger] r.child(k).leaf_indices().contains(x) <==> (
                        self.leaf_indices().contains(x) && position_of(graph_nodes@[x as int].coords, *center) == k)) by {
                        let bucket = if k == 0 { ga } else if k == 1 { gb } else if k == 2 { gc } else { gd };
                        assert(r.child(k).leaf_indices() == bucket);
                        if bucket.contains(x) {
                            let t = choose|t: int| 0 <= t < bucket.len() && bucket[t] == x;
                            if k == 0 { assert(ga[t] == x); } else if k == 1 { assert(gb[t] == x); }
                            else if k == 2 { assert(gc[t] == x); } else { assert(gd[t] == x); }
                        }
                        if self.leaf_indices().contains(x) {
                            let j = choose|j: int| 0 <= j < indices@.len() && indices@[j] == x;
                            assert(indices@[j] == x);
                        }
                    }
                }
                r
            },
            NodeTree::Node { .. } => {
                proof {
                    assert(false);
                }
                NodeTree::root_leaf()
            },
        }
    }
}

} // verus!
