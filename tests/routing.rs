use router::coords::Coords;
use router::edge::Edge;
use router::graph::{Graph, GraphError};
use router::grid::{NodeTree, MAX_DEPTH, MAX_LEAF_ELEMENTS, MIN_DEPTH};
use router::load::{GraphLoader, LoadError};
use router::node::Node;
use router::queue::MinQueue;
use router::router::{answer_queries, answer_query, parse_query, shortest_path, shortest_paths};
use router::text::{parse_count, parse_degrees, parse_int};

fn load(text: &str) -> Result<Graph, LoadError> {
    let mut loader = GraphLoader::new();
    for line in text.lines() {
        loader.feed_line(line.as_bytes())?;
    }
    loader.finish()
}

fn great_circle_mm(a: Coords, b: Coords) -> u64 {
    let (p1, l1) = ((a.lat as f64 / 1e7).to_radians(), (a.lon as f64 / 1e7).to_radians());
    let (p2, l2) = ((b.lat as f64 / 1e7).to_radians(), (b.lon as f64 / 1e7).to_radians());
    let c = p1.sin() * p2.sin() + p1.cos() * p2.cos() * (l2 - l1).cos();
    let zeta = c.clamp(-1.0, 1.0).acos();
    (zeta * 6_371_000.785 * 1000.0).round() as u64
}

fn deg(lat: f64, lon: f64) -> Coords {
    Coords::deg((lat * 1e7).round() as i64, (lon * 1e7).round() as i64)
}

fn chain() -> Graph {
    load("5\n4\n0 0 0 0\n1 1 1 0\n2 2 2 0\n3 3 3 0\n4 4 4 0\n0 1 10\n1 2 20\n2 3 30\n3 4 40\n").unwrap()
}

#[test]
fn position() {
    // The node lies north and west of the pivot: neither the "south" nor the
    // "east" predicate holds, so its quadrant is 0 (NW).
    let node = Node::new(Coords::deg(535_000_000, 84_800_000), 0);
    assert_eq!(NodeTree::relative_position(node.coords, Coords::deg(488_139_200, 113_431_800)), 0);
}

#[test]
fn minimal_graph() {
    let g = load("1\n1\n0 0 0.0 0.0\n0 0 5\n").unwrap();
    assert_eq!(g.node_count(), 1);
    assert_eq!(g.edge_count(), 1);
    let out = g.outgoing_edges(0);
    assert_eq!(out.len(), 1);
    assert_eq!(out[0], Edge::new(0, 0, 5));
    assert_eq!(shortest_path(&g, 0, 0), 0);
    assert_eq!(Graph::nearest_node_naive(g.nodes(), deg(0.0, 0.0), &great_circle_mm), 0);
    let tree = NodeTree::build(g.nodes());
    assert_eq!(tree.nearest_node(g.nodes(), deg(0.0, 0.0), &great_circle_mm), 0);
}

#[test]
fn linear_chain() {
    let g = chain();
    assert_eq!(shortest_path(&g, 0, 4), 100);
    assert_eq!(shortest_paths(&g, 0), vec![0, 10, 30, 60, 100]);
    assert_eq!(shortest_path(&g, 4, 0), -1);
}

#[test]
fn isolated_node() {
    let g = load("3\n1\n0 0 0 0\n1 1 1 1\n2 2 2 2\n0 2 7\n").unwrap();
    assert!(g.outgoing_edges(1).is_empty());
    assert_eq!(shortest_path(&g, 0, 2), 7);
    assert_eq!(shortest_path(&g, 1, 2), -1);
}

#[test]
fn quadrant_of_pivot_seen_from_node() {
    let node = Node::new(deg(53.5, 8.48), 0);
    assert_eq!(NodeTree::relative_position(deg(48.81392, 11.34318), node.coords), 3);
}

#[test]
fn relative_position_equal_coordinates_is_north_west() {
    let c = deg(12.5, -3.25);
    assert_eq!(NodeTree::relative_position(c, c), 0);
    assert_eq!(NodeTree::relative_position(deg(12.5, -3.0), c), 1);
    assert_eq!(NodeTree::relative_position(deg(12.0, -3.25), c), 2);
}

#[test]
fn nearest_node_matches_naive_on_clustered_nodes() {
    let coords: Vec<Coords> = (0..8).map(|i| deg(48.7 + 0.0005 * i as f64, 9.1 + 0.0003 * (i % 3) as f64)).collect();
    let g = Graph::from_parts(coords, vec![]).unwrap();
    let tree = NodeTree::build(g.nodes());
    let mut seed: u64 = 0x2545_f491_4f6c_dd1d;
    for _ in 0..100 {
        seed = seed.wrapping_mul(6364136223846793005).wrapping_add(1442695040888963407);
        let lat = 47.0 + ((seed >> 33) % 400) as f64 / 100.0;
        seed = seed.wrapping_mul(6364136223846793005).wrapping_add(1442695040888963407);
        let lon = 7.0 + ((seed >> 33) % 400) as f64 / 100.0;
        let q = deg(lat, lon);
        assert_eq!(
            tree.nearest_node(g.nodes(), q, &great_circle_mm),
            Graph::nearest_node_naive(g.nodes(), q, &great_circle_mm)
        );
    }
}

#[test]
fn nearest_node_in_dense_graph_is_nearest_of_its_leaf() {
    let mut coords = Vec::new();
    for i in 0..40 {
        coords.push(deg(50.0 + 0.00001 * i as f64, 8.0));
    }
    let g = Graph::from_parts(coords, vec![]).unwrap();
    let tree = NodeTree::build(g.nodes());
    assert_eq!(tree.nearest_node(g.nodes(), deg(50.0, 8.0), &great_circle_mm), 0);
    assert_eq!(tree.nearest_node(g.nodes(), deg(50.00039, 8.0), &great_circle_mm), 39);
}

#[test]
fn single_node_without_edges() {
    let g = Graph::from_parts(vec![deg(1.0, 2.0)], vec![]).unwrap();
    assert!(g.outgoing_edges(0).is_empty());
    assert_eq!(Graph::nearest_node_naive(g.nodes(), deg(40.0, 40.0), &great_circle_mm), 0);
    assert_eq!(shortest_path(&g, 0, 0), 0);
}

#[test]
fn same_source_and_goal_costs_nothing() {
    let g = chain();
    for s in 0..g.node_count() {
        assert_eq!(shortest_path(&g, s, s), 0);
    }
}

#[test]
fn node_without_edges_inherits_next_offset() {
    let g = load("3\n2\n0 0 0 0\n1 1 1 1\n2 2 2 2\n0 1 4\n2 0 6\n").unwrap();
    assert_eq!(g.node(1).unwrap().offset, 1);
    assert_eq!(g.node(2).unwrap().offset, 1);
    assert!(g.outgoing_edges(1).is_empty());
    assert_eq!(g.outgoing_edges(2), &[Edge::new(2, 0, 6)][..]);
    let total: usize = (0..g.node_count()).map(|i| g.outgoing_edges(i).len()).sum();
    assert_eq!(total, g.edge_count());
}

#[test]
fn offsets_of_trailing_nodes_are_edge_count() {
    let g = load("4\n1\n0 0 0 0\n1 1 1 1\n2 2 2 2\n3 3 3 3\n0 1 1\n").unwrap();
    let offsets: Vec<i64> = g.nodes().iter().map(|n| n.offset).collect();
    assert_eq!(offsets, vec![0, 1, 1, 1]);
}

#[test]
fn loading_twice_gives_same_graph() {
    let text = "# map\n\n3\n3\n7 0 1.5 2.5 extra\n8 1 -1.25 3\n9 2 0.1234567 0\n0 1 3\n0 2 9\n1 2 2\n";
    let a = load(text).unwrap();
    let b = load(text).unwrap();
    assert_eq!(a.nodes(), b.nodes());
    assert_eq!(a.edges(), b.edges());
    assert_eq!(a.node(0).unwrap().coords, Coords::deg(15_000_000, 25_000_000));
    assert_eq!(a.node(1).unwrap().coords, Coords::deg(-12_500_000, 30_000_000));
    assert_eq!(a.node(2).unwrap().coords, Coords::deg(1_234_567, 0));
}

#[test]
fn cheaper_detour_wins() {
    let g = load("4\n4\n0 0 0 0\n1 1 0 1\n2 2 1 0\n3 3 1 1\n0 1 1\n0 3 10\n1 2 1\n2 3 1\n").unwrap();
    assert_eq!(shortest_path(&g, 0, 3), 3);
    assert_eq!(shortest_paths(&g, 0), vec![0, 1, 2, 3]);
    assert_eq!(shortest_path(&g, 0, 99), -1);
}

#[test]
fn unreachable_nodes_keep_max_distance() {
    let g = load("3\n1\n0 0 0 0\n1 1 1 1\n2 2 2 2\n1 2 5\n").unwrap();
    assert_eq!(shortest_paths(&g, 0), vec![0, i64::MAX, i64::MAX]);
}

#[test]
fn batch_results_do_not_depend_on_order() {
    let g = chain();
    let mut lines: Vec<Vec<u8>> = Vec::new();
    for i in 0..1000u32 {
        lines.push(format!("{} {}", i % 5, (i * 7) % 5).into_bytes());
    }
    lines.push(b"bad line".to_vec());
    let forward = answer_queries(&g, &lines);
    let mut backward = vec![-1i64; lines.len()];
    for i in (0..lines.len()).rev() {
        backward[i] = answer_query(&g, &lines[i]);
    }
    assert_eq!(forward, backward);
    assert_eq!(forward[0], 0);
    assert_eq!(forward[1], 20);
    assert_eq!(forward[2], 70);
    assert_eq!(forward[3], -1);
    assert_eq!(forward[1000], -1);
}

#[test]
fn query_lines() {
    assert_eq!(parse_query(b"12 34"), Some((12, 34)));
    assert_eq!(parse_query(b"  5\t6  "), Some((5, 6)));
    assert_eq!(parse_query(b"5"), None);
    assert_eq!(parse_query(b"-1 2"), None);
    let g = chain();
    assert_eq!(answer_query(&g, b"9 0"), -1);
    assert_eq!(answer_query(&g, b"1 3"), 50);
}

#[test]
fn number_fields() {
    assert_eq!(parse_degrees(b"53.5"), Some(535_000_000));
    assert_eq!(parse_degrees(b"-8.123456789"), Some(-81_234_567));
    assert_eq!(parse_degrees(b"+2"), Some(20_000_000));
    assert_eq!(parse_degrees(b"1."), None);
    assert_eq!(parse_degrees(b"a"), None);
    assert_eq!(parse_int(b"-9223372036854775808"), Some(i64::MIN));
    assert_eq!(parse_int(b"9223372036854775808"), None);
    assert_eq!(parse_int(b"+17"), Some(17));
    assert_eq!(parse_count(b"12"), Some(12));
    assert_eq!(parse_count(b""), None);
}

#[test]
fn load_errors() {
    assert_eq!(load("x\n1\n").err(), Some(LoadError::BadCount(1)));
    assert_eq!(load("# c\n0\n1\n").err(), Some(LoadError::ZeroCount(2)));
    assert_eq!(load("1\n0\n").err(), Some(LoadError::ZeroCount(2)));
    assert_eq!(load("1\n1\n0 0 north 0\n0 0 1\n").err(), Some(LoadError::BadNodeLine(3)));
    assert_eq!(load("1\n1\n0 0 0 0\n0 0\n").err(), Some(LoadError::BadEdgeLine(4)));
    assert_eq!(load("1\n1\n0 0 0 0\n0 0 1\n0 0 1\n").err(), Some(LoadError::ExtraLine(5)));
    assert_eq!(load("2\n1\n0 0 0 0\n").err(), Some(LoadError::MissingLines));
    assert_eq!(
        load("2\n1\n0 0 0 0\n1 1 0 0\n0 5 1\n").err(),
        Some(LoadError::Graph(GraphError::EndpointOutOfRange(0)))
    );
    assert_eq!(
        load("2\n2\n0 0 0 0\n1 1 0 0\n1 0 1\n0 1 1\n").err(),
        Some(LoadError::Graph(GraphError::NotSortedBySource(1)))
    );
}

#[test]
fn queue_order() {
    let mut q = MinQueue::with_capacity(4);
    q.push(5, 1);
    q.push(3, 2);
    q.push(3, 1);
    assert_eq!(q.len(), 3);
    assert_eq!(q.pop(), Some((3, 1)));
    assert_eq!(q.pop(), Some((3, 2)));
    assert_eq!(q.pop(), Some((5, 1)));
    assert_eq!(q.pop(), None);
}

#[test]
fn plain_values() {
    assert_eq!(Edge::default(), Edge::new(0, 0, 0));
    let n = Node::default();
    assert_eq!(n.offset, i64::MAX);
    assert_eq!(n.coords, Coords::default());
    let mut c = Coords::deg(1, 2);
    c.set_lat_deg(7);
    c.set_lon_deg(-9);
    assert_eq!(c, Coords::deg(7, -9));
    let g = chain();
    assert!(!g.is_empty());
    assert!(g.edge(4).is_none());
    assert_eq!(g.edge(1), Some(&Edge::new(1, 2, 20)));
    assert!(g.node(5).is_none());
    assert!(g.has_nonnegative_costs());
    let neg = Graph::from_parts(vec![deg(0.0, 0.0)], vec![Edge::new(0, 0, -1)]).unwrap();
    assert!(!neg.has_nonnegative_costs());
    let tree = NodeTree::root_leaf();
    assert!(matches!(tree, NodeTree::Leaf { nodes: None, .. }));
}

#[test]
fn subdivide_sends_indices_to_their_quadrants() {
    let nodes = vec![
        Node::new(deg(10.0, -10.0), 0),
        Node::new(deg(10.0, 10.0), 0),
        Node::new(deg(-10.0, -10.0), 0),
        Node::new(deg(-10.0, 10.0), 0),
        Node::new(deg(0.0, 0.0), 0),
    ];
    let leaf = NodeTree::Leaf { center: Coords::deg(0, 0), size: 1_800_000_000, nodes: Some(vec![0, 1, 2, 3, 4]) };
    match leaf.subdivide(&nodes) {
        NodeTree::Node { center, nw, ne, sw, se } => {
            assert_eq!(center, Coords::deg(0, 0));
            let held = |t: &NodeTree| match t {
                NodeTree::Leaf { center, size, nodes } => (*center, *size, nodes.clone()),
                NodeTree::Node { .. } => panic!("child is not a leaf"),
            };
            assert_eq!(held(&nw), (Coords::deg(450_000_000, -450_000_000), 900_000_000, Some(vec![0, 4])));
            assert_eq!(held(&ne), (Coords::deg(450_000_000, 450_000_000), 900_000_000, Some(vec![1])));
            assert_eq!(held(&sw), (Coords::deg(-450_000_000, -450_000_000), 900_000_000, Some(vec![2])));
            assert_eq!(held(&se), (Coords::deg(-450_000_000, 450_000_000), 900_000_000, Some(vec![3])));
        }
        NodeTree::Leaf { .. } => panic!("subdivide returned a leaf"),
    }
}

fn leaf_sizes(t: &NodeTree, depth: u64, out: &mut Vec<(u64, usize)>) {
    match t {
        NodeTree::Leaf { nodes, .. } => out.push((depth, nodes.as_ref().map_or(0, |v| v.len()))),
        NodeTree::Node { nw, ne, sw, se, .. } => {
            for child in [nw, ne, sw, se] {
                leaf_sizes(child, depth + 1, out);
            }
        }
    }
}

#[test]
fn leaves_stay_small_except_at_depth_limit() {
    let mut coords = Vec::new();
    let mut seed: u64 = 7;
    for _ in 0..300 {
        seed = seed.wrapping_mul(6364136223846793005).wrapping_add(1442695040888963407);
        let lat = 48.0 + ((seed >> 33) % 1000) as f64 / 1000.0;
        seed = seed.wrapping_mul(6364136223846793005).wrapping_add(1442695040888963407);
        let lon = 9.0 + ((seed >> 33) % 1000) as f64 / 1000.0;
        coords.push(deg(lat, lon));
    }
    for _ in 0..20 {
        coords.push(deg(48.5, 9.5));
    }
    let g = Graph::from_parts(coords, vec![]).unwrap();
    let tree = NodeTree::build(g.nodes());
    let mut sizes = Vec::new();
    leaf_sizes(&tree, 0, &mut sizes);
    let total: usize = sizes.iter().map(|(_, n)| n).sum();
    assert_eq!(total, 320);
    for (depth, n) in &sizes {
        assert!(*n <= MAX_LEAF_ELEMENTS || *depth == MAX_DEPTH);
        assert!(*n == 0 || *depth >= MIN_DEPTH);
    }
    assert!(sizes.iter().any(|(d, n)| *d == MAX_DEPTH && *n >= 20));
}
