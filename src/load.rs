use vstd::prelude::*;
use crate::coords::Coords;
use crate::edge::Edge;
use crate::graph::{Graph, GraphError, edge_ok, edge_error, graph_wf};
use crate::text::{field, field_bounds, field_start, digits_value, all_digits, int_value, degrees_value, parse_count, parse_int, parse_degrees};

verus! {

/// Why a graph file could not be loaded. Each line-bound error carries the
/// number of the offending line, counting from 1.
#[derive(Clone, Copy, PartialEq, Eq, Structural, Debug)]
pub enum LoadError {
    /// A header line does not hold exactly one count.
    BadCount(usize),
    /// A header declares zero nodes or zero edges.
    ZeroCount(usize),
    /// A node line lacks a readable latitude or longitude.
    BadNodeLine(usize),
    /// An edge line lacks a readable source, target or cost.
    BadEdgeLine(usize),
    /// A line follows the last declared edge.
    ExtraLine(usize),
    /// The input ended before the declared nodes and edges were read.
    MissingLines,
    /// More nodes or edges than an index can address.
    TooLarge,
    /// The edges do not form a graph over the nodes.
    Graph(GraphError),
}

/// What the loader has read so far.
pub ghost struct LoaderView {
    pub line: nat,
    pub node_count: Option<nat>,
    pub edge_count: Option<nat>,
    pub coords: Seq<Coords>,
    pub edges: Seq<Edge>,
}

/// A line with no fields.
pub open spec fn is_blank(l: Seq<u8>) -> bool {
    field_start(l, 0) == l.len()
}

/// A line that starts with '#'.
pub open spec fn is_comment(l: Seq<u8>) -> bool {
    l.len() > 0 && l[0] == 35
}

/// The count on a header line: a single field of digits.
pub open spec fn count_of(l: Seq<u8>) -> Option<nat> {
    let t = field(l, 0);
    if field(l, 1).len() == 0 && t.len() > 0 && all_digits(t) && digits_value(t) <= usize::MAX {
        Some(digits_value(t) as nat)
    } else {
        None
    }
}

/// The position on a node line: the third and fourth fields, in degrees.
pub open spec fn node_line_coords(l: Seq<u8>) -> Option<Coords> {
    match (degrees_value(field(l, 2)), degrees_value(field(l, 3))) {
        (Some(a), Some(b)) => if -i64::MAX <= a <= i64::MAX && -i64::MAX <= b <= i64::MAX {
            Some(Coords { lat: a as i64, lon: b as i64 })
        } else {
            None
        },
        _ => None,
    }
}

pub open spec fn in_i64(v: Option<int>) -> bool {
    v matches Some(x) && i64::MIN <= x <= i64::MAX
}

/// The edge on an edge line: source, target and cost, the first three fields.
pub open spec fn edge_line(l: Seq<u8>) -> Option<Edge> {
    let (a, b, c) = (int_value(field(l, 0)), int_value(field(l, 1)), int_value(field(l, 2)));
    if in_i64(a) && in_i64(b) && in_i64(c) {
        Some(Edge { src: a->0 as i64, trg: b->0 as i64, cost: c->0 as i64 })
    } else {
        None
    }
}

/// What one line does to the loader: the next state, or the error.
pub open spec fn step(s: LoaderView, l: Seq<u8>) -> Result<LoaderView, LoadError> {
    let n = (s.line + 1) as nat;
    let moved = LoaderView { line: n, ..s };
    if s.node_count is None || s.edge_count is None {
        if is_blank(l) || is_comment(l) {
            Ok(moved)
        } else {
            match count_of(l) {
                None => Err(LoadError::BadCount(n as usize)),
                Some(c) => if c == 0 {
                    Err(LoadError::ZeroCount(n as usize))
                } else if s.node_count is None {
                    Ok(LoaderView { node_count: Some(c), ..moved })
                } else {
                    Ok(LoaderView { edge_count: Some(c), ..moved })
                },
            }
        }
    } else if s.coords.len() < s.node_count->0 {
        match node_line_coords(l) {
            Some(c) => Ok(LoaderView { coords: s.coords.push(c), ..moved }),
            None => Err(LoadError::BadNodeLine(n as usize)),
        }
    } else if s.edges.len() < s.edge_count->0 {
        match edge_line(l) {
            Some(e) => Ok(LoaderView { edges: s.edges.push(e), ..moved }),
            None => Err(LoadError::BadEdgeLine(n as usize)),
        }
    } else if is_blank(l) {
        Ok(moved)
    } else {
        Err(LoadError::ExtraLine(n as usize))
    }
}

/// Every declared node and edge line has been read.
pub open spec fn complete(s: LoaderView) -> bool {
    &&& s.node_count matches Some(nc)
    &&& s.edge_count matches Some(ec)
    &&& s.coords.len() == nc
    &&& s.edges.len() == ec
}

/// A well-formed graph is fixed by its node positions and its edges:
/// loading the same input twice gives the same nodes and edges.
pub proof fn lemma_graph_determined(g1: crate::graph::GraphView, g2: crate::graph::GraphView)
    requires
        graph_wf(g1),
        graph_wf(g2),
        g1.edges == g2.edges,
        g1.nodes.len() == g2.nodes.len(),
        forall|i: int| 0 <= i < g1.nodes.len() ==> #[trigger] g1.nodes[i].coords == g2.nodes[i].coords,
    ensures
        g1 == g2,
{
    assert forall|i: int| 0 <= i < g1.nodes.len() implies #[trigger] g1.nodes[i] == g2.nodes[i] by {
        let a = g1.nodes[i].offset as int;
        let b = g2.nodes[i].offset as int;
        assert(crate::graph::is_offset(g1.edges, i, a));
        assert(crate::graph::is_offset(g2.edges, i, b));
        if a < b {
            assert(g1.edges[a].src >= i);
            assert(g2.edges[a].src < i);
        } else if b < a {
            assert(g2.edges[b].src >= i);
            assert(g1.edges[b].src < i);
        }
        assert(a == b);
        assert(g1.nodes[i].offset == g2.nodes[i].offset);
        assert(g1.nodes[i].coords == g2.nodes[i].coords);
    }
    assert(g1.nodes =~= g2.nodes);
}

/// Reads a graph file line by line: comment and blank lines, the node
/// count, the edge count, then the node lines and the edge lines.
pub struct GraphLoader {
    line: usize,
    node_count: Option<usize>,
    edge_count: Option<usize>,
    coords: Vec<Coords>,
    edges: Vec<Edge>,
}

impl View for GraphLoader {
    type V = LoaderView;

    closed spec fn view(&self) -> LoaderView {
        LoaderView {
            line: self.line as nat,
            node_count: match self.node_count {
                Some(c) => Some(c as nat),
                None => None,
            },
            edge_count: match self.edge_count {
                Some(c) => Some(c as nat),
                None => None,
            },
            coords: self.coords@,
            edges: self.edges@,
        }
    }
}

fn field_slice(l: &[u8], k: usize) -> (r: &[u8])
    ensures
        r@ == field(l@, k as nat),
{
    let (a, b) = field_bounds(l, k);
    vstd::slice::slice_subrange(l, a, b)
}

impl GraphLoader {
    pub fn new() -> (r: Self)
        ensures
            r@ == (LoaderView {
                line: 0,
                node_count: None,
                edge_count: None,
                coords: Seq::empty(),
                edges: Seq::empty(),
            }),
    {
        GraphLoader { line: 0, node_count: None, edge_count: None, coords: Vec::new(), edges: Vec::new() }
    }

    /// Line number of the last line read.
    pub fn line(&self) -> (r: usize)
        ensures
            r == self@.line,
    {
        self.line
    }

    /// Takes the next line of the file (without its line break). On error
    /// the loader is left as it was.
    pub fn feed_line(&mut self, l: &[u8]) -> (r: Result<(), LoadError>)
        requires
            old(self)@.line < usize::MAX,
        ensures
            match step(old(self)@, l@) {
                Ok(s) => r is Ok && final(self)@ == s,
                Err(e) => r == Err::<(), LoadError>(e) && final(self)@ == old(self)@,
            },
    {
        let n = self.line + 1;
        if self.node_count.is_none() || self.edge_count.is_none() {
            let (a, _) = field_bounds(l, 0);
            let blank = a == l.len();
            let comment = l.len() > 0 && l[0] == 35;
            if blank || comment {
                self.line = n;
                return Ok(());
            }
            let second = field_slice(l, 1);
            let count = if second.len() == 0 {
                parse_count(field_slice(l, 0))
            } else {
                None
            };
            match count {
                None => Err(LoadError::BadCount(n)),
                Some(c) => {
                    if c == 0 {
                        Err(LoadError::ZeroCount(n))
                    } else if self.node_count.is_none() {
                        self.node_count = Some(c);
                        self.line = n;
                        Ok(())
                    } else {
                        self.edge_count = Some(c);
                        self.line = n;
                        Ok(())
                    }
                },
            }
        } else if self.coords.len() < self.node_count.unwrap() {
            let lat = parse_degrees(field_slice(l, 2));
            let lon = parse_degrees(field_slice(l, 3));
            match (lat, lon) {
                (Some(a), Some(b)) => {
                    self.coords.push(Coords { lat: a, lon: b });
                    self.line = n;
                    Ok(())
                },
                _ => Err(LoadError::BadNodeLine(n)),
            }
        } else if self.edges.len() < self.edge_count.unwrap() {
            let src = parse_int(field_slice(l, 0));
            let trg = parse_int(field_slice(l, 1));
            let cost = parse_int(field_slice(l, 2));
            match (src, trg, cost) {
                (Some(a), Some(b), Some(c)) => {
                    self.edges.push(Edge { src: a, trg: b, cost: c });
                    self.line = n;
                    Ok(())
                },
                _ => Err(LoadError::BadEdgeLine(n)),
            }
        } else {
            let (a, _) = field_bounds(l, 0);
            if a == l.len() {
                self.line = n;
                Ok(())
            } else {
                Err(LoadError::ExtraLine(n))
            }
        }
    }

    /// Ends the input: the graph of the nodes and edges read, or why there
    /// is none.
    pub fn finish(self) -> (r: Result<Graph, LoadError>)
        ensures
            !complete(self@) ==> r == Err::<Graph, LoadError>(LoadError::MissingLines),
            complete(self@) && (self@.coords.len() > i64::MAX || self@.edges.len() > i64::MAX)
                ==> r == Err::<Graph, LoadError>(LoadError::TooLarge),
            complete(self@) && self@.coords.len() <= i64::MAX && self@.edges.len() <= i64::MAX ==> {
                let n = self@.coords.len() as int;
                &&& r is Ok <==> forall|k: int| 0 <= k < self@.edges.len() ==> edge_ok(n, self@.edges, k)
                &&& r matches Err(e) ==> exists|k: int|
                    0 <= k < self@.edges.len() && !edge_ok(n, self@.edges, k)
                    && (forall|j: int| 0 <= j < k ==> edge_ok(n, self@.edges, j))
                    && e == LoadError::Graph(edge_error(n, self@.edges, k))
            },
            r matches Ok(g) ==> {
                &&& g.wf()
                &&& g@.edges == self@.edges
                &&& g@.nodes.len() == self@.coords.len()
                &&& forall|i: int| 0 <= i < g@.nodes.len() ==> #[trigger] g@.nodes[i].coords == self@.coords[i]
            },
    {
        let complete = match (self.node_count, self.edge_count) {
            (Some(nc), Some(ec)) => self.coords.len() == nc && self.edges.len() == ec,
            _ => false,
        };
        if !complete {
            return Err(LoadError::MissingLines);
        }
        if self.coords.len() as u64 > 9_223_372_036_854_775_807 || self.edges.len() as u64 > 9_223_372_036_854_775_807 {
            return Err(LoadError::TooLarge);
        }
        match Graph::from_parts(self.coords, self.edges) {
            Ok(g) => Ok(g),
            Err(e) => Err(LoadError::Graph(e)),
        }
    }
}

} // verus!
