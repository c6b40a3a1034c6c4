use vstd::prelude::*;
use crate::edge::EdgeCost;
use crate::graph::{Graph, GraphView, graph_wf, out_edges, out_end, lemma_out_edges_are_edges_leaving, lemma_offsets_monotone};
use crate::queue::{MinQueue, entry_le};
use vstd::multiset::Multiset;
use crate::text::{field, field_bounds, all_digits, digits_value, parse_count};

verus! {

/// Every edge cost is non-negative.
pub open spec fn costs_nonnegative(g: GraphView) -> bool {
    forall|k: int| 0 <= k < g.edges.len() ==> #[trigger] g.edges[k].cost >= 0
}

/// `p` is a sequence of edge indices forming a walk that leaves `start`.
pub open spec fn is_path(g: GraphView, start: int, p: Seq<int>) -> bool {
    &&& forall|i: int| 0 <= i < p.len() ==> 0 <= #[trigger] p[i] < g.edges.len()
    &&& p.len() > 0 ==> g.edges[p[0]].src == start
    &&& forall|i: int| 1 <= i < p.len() ==> #[trigger] linked(g, p, i)
}

/// Edge `i` of the walk `p` leaves the node where edge `i - 1` arrives.
pub open spec fn linked(g: GraphView, p: Seq<int>, i: int) -> bool {
    g.edges[p[i]].src == g.edges[p[i - 1]].trg
}

/// The node where the walk `p` from `start` ends.
pub open spec fn path_end(g: GraphView, start: int, p: Seq<int>) -> int {
    if p.len() == 0 {
        start
    } else {
        g.edges[p.last()].trg as int
    }
}

/// Sum of the edge costs along `p`.
pub open spec fn path_cost(g: GraphView, p: Seq<int>) -> int
    decreases p.len(),
{
    if p.len() == 0 {
        0
    } else {
        path_cost(g, p.drop_last()) + g.edges[p.last()].cost
    }
}

/// Some walk from `start` to `v` costs exactly `c`.
pub open spec fn reachable_at(g: GraphView, start: int, v: int, c: int) -> bool {
    exists|p: Seq<int>| is_path(g, start, p) && path_end(g, start, p) == v && #[trigger] path_cost(g, p) == c
}

/// No edge can improve `d`: every edge leaving a node of finite distance
/// leads to a node whose distance is at most the sum.
pub open spec fn all_relaxed(g: GraphView, d: Seq<i64>) -> bool {
    forall|k: int| 0 <= k < g.edges.len() && d[g.edges[k].src as int] < i64::MAX ==>
        d[#[trigger] g.edges[k].trg as int] <= d[g.edges[k].src as int] + g.edges[k].cost
}

/// The edges leaving `u` cannot improve `d`.
pub open spec fn relaxed_at(g: GraphView, d: Seq<i64>, u: int) -> bool {
    forall|k: int| 0 <= k < g.edges.len() && #[trigger] g.edges[k].src == u ==>
        d[g.edges[k].trg as int] <= d[u] + g.edges[k].cost
}

pub open spec fn dist_sum(d: Seq<i64>) -> int
    decreases d.len(),
{
    if d.len() == 0 {
        0
    } else {
        dist_sum(d.drop_last()) + d.last()
    }
}

proof fn lemma_dist_sum_update(d: Seq<i64>, i: int, x: i64)
    requires
        0 <= i < d.len(),
    ensures
        dist_sum(d.update(i, x)) == dist_sum(d) - d[i] + x,
    decreases d.len(),
{
    let u = d.update(i, x);
    if i < d.len() - 1 {
        assert(u.drop_last() =~= d.drop_last().update(i, x));
        lemma_dist_sum_update(d.drop_last(), i, x);
    } else {
        assert(u.drop_last() =~= d.drop_last());
    }
}

proof fn lemma_dist_sum_nonneg(d: Seq<i64>)
    requires
        forall|i: int| 0 <= i < d.len() ==> #[trigger] d[i] >= 0,
    ensures
        dist_sum(d) >= 0,
    decreases d.len(),
{
    if d.len() > 0 {
        lemma_dist_sum_nonneg(d.drop_last());
    }
}

proof fn lemma_path_extend(g: GraphView, start: int, p: Seq<int>, k: int)
    requires
        is_path(g, start, p),
        0 <= k < g.edges.len(),
        g.edges[k].src == path_end(g, start, p),
    ensures
        is_path(g, start, p.push(k)),
        path_end(g, start, p.push(k)) == g.edges[k].trg,
        path_cost(g, p.push(k)) == path_cost(g, p) + g.edges[k].cost,
{
    let q = p.push(k);
    assert(q.drop_last() =~= p);
    assert forall|i: int| 1 <= i < q.len() implies #[trigger] linked(g, q, i) by {
        if i < p.len() {
            assert(linked(g, p, i));
        }
    }
}

/// The invariant of the search: what holds of the distances `d` and the
/// queue `q` between two steps.
pub open spec fn search_inv(g: GraphView, start: int, goal: int, d: Seq<i64>, q: Multiset<(i64, usize)>) -> bool {
    &&& d.len() == g.nodes.len()
    &&& d[start] == 0
    &&& forall|v: int| 0 <= v < d.len() ==> #[trigger] d[v] >= 0
    &&& forall|e: (i64, usize)| #[trigger] q.count(e) > 0 ==> e.1 < d.len() && e.0 >= d[e.1 as int] && e.0 < i64::MAX
    &&& forall|v: int| 0 <= v < d.len() && #[trigger] d[v] < i64::MAX ==>
        q.count((d[v], v as usize)) > 0 || (v != goal && relaxed_at(g, d, v))
    &&& forall|v: int| 0 <= v < d.len() && #[trigger] d[v] < i64::MAX ==> reachable_at(g, start, v, d[v] as int)
}

/// Along any walk from the start, either the end node already has a
/// distance no greater than the walk's cost, or some queued entry costs no
/// more than the walk.
proof fn lemma_pending_bound(g: GraphView, start: int, goal: int, d: Seq<i64>, q: Multiset<(i64, usize)>, p: Seq<int>)
    requires
        graph_wf(g),
        costs_nonnegative(g),
        0 <= start < g.nodes.len(),
        search_inv(g, start, goal, d, q),
        is_path(g, start, p),
    ensures
        d[path_end(g, start, p)] <= path_cost(g, p)
            || exists|e: (i64, usize)| #[trigger] q.count(e) > 0 && e.0 <= path_cost(g, p),
    decreases p.len(),
{
    if p.len() > 0 {
        let pp = p.drop_last();
        let k = p.last();
        assert(is_path(g, start, pp)) by {
            assert forall|i: int| 1 <= i < pp.len() implies #[trigger] linked(g, pp, i) by {
                assert(linked(g, p, i));
            }
            assert forall|i: int| 0 <= i < pp.len() implies 0 <= #[trigger] pp[i] < g.edges.len() by {
                assert(p[i] == pp[i]);
            }
        }
        lemma_pending_bound(g, start, goal, d, q, pp);
        assert(0 <= k < g.edges.len());
        if p.len() > 1 {
            assert(linked(g, p, p.len() - 1));
        }
        let w = path_end(g, start, pp);
        assert(g.edges[k].src == w);
        assert(crate::graph::edge_in_range(g.nodes.len() as int, g.edges[k]));
        assert(g.edges[k].cost >= 0);
        lemma_path_cost_nonneg(g, pp);
        assert(path_cost(g, p) == path_cost(g, pp) + g.edges[k].cost);
        if d[w] <= path_cost(g, pp) && d[w] < i64::MAX {
            if q.count((d[w], w as usize)) > 0 {
                assert((d[w], w as usize).0 <= path_cost(g, p));
            } else {
                assert(relaxed_at(g, d, w));
                assert(d[g.edges[k].trg as int] <= d[w] + g.edges[k].cost);
            }
        } else if d[w] <= path_cost(g, pp) {
            assert(d[path_end(g, start, p)] <= i64::MAX);
        } else {
            let e = choose|e: (i64, usize)| #[trigger] q.count(e) > 0 && e.0 <= path_cost(g, pp);
            assert(e.0 <= path_cost(g, p));
        }
    }
}

/// Uniform-cost search from `start`. Stops when `goal` is taken from the
/// queue and returns its distance; otherwise runs until the queue is empty
/// and returns -1. The vector holds the distances found, `EdgeCost::MAX`
/// for nodes not reached.
#[verifier::rlimit(60)]
#[verifier::spinoff_prover]
fn dijkstra(graph: &Graph, start: usize, goal: usize) -> (r: (EdgeCost, Vec<EdgeCost>))
    requires
        graph.wf(),
        costs_nonnegative(graph@),
        start < graph@.nodes.len(),
    ensures
        r.1.len() == graph@.nodes.len(),
        r.1[start as int] == 0,
        forall|v: int| 0 <= v < r.1.len() ==> #[trigger] r.1[v] >= 0,
        forall|v: int| 0 <= v < r.1.len() && #[trigger] r.1[v] < i64::MAX ==>
            reachable_at(graph@, start as int, v, r.1[v] as int),
        r.0 != -1 ==> goal < graph@.nodes.len() && r.0 == r.1[goal as int] && r.0 < i64::MAX,
        r.0 == -1 ==> all_relaxed(graph@, r.1@),
        goal == start ==> r.0 == 0,
        r.0 != -1 ==> forall|p: Seq<int>| #[trigger] is_path(graph@, start as int, p)
            && path_end(graph@, start as int, p) == goal ==> r.0 <= path_cost(graph@, p),
        r.0 == -1 && goal < graph@.nodes.len() ==> r.1[goal as int] == i64::MAX,
{
    let ghost g = graph@;
    let n = graph.node_count();
    let mut heap = MinQueue::with_capacity(graph.edge_count());
    let mut dist: Vec<EdgeCost> = Vec::with_capacity(n);
    let mut i: usize = 0;
    while i < n
        invariant
            i <= n,
            dist.len() == i,
            forall|j: int| 0 <= j < i ==> #[trigger] dist@[j] == i64::MAX,
        decreases n - i,
    {
        dist.push(EdgeCost::MAX);
        i += 1;
    }
    dist.set(start, 0);
    heap.push(0, start);
    proof {
        let p = Seq::<int>::empty();
        assert(is_path(g, start as int, p) && path_end(g, start as int, p) == start && path_cost(g, p) == 0);
        assert(heap@.count((0i64, start)) > 0);
        assert forall|v: int| 0 <= v < dist@.len() && #[trigger] dist@[v] < i64::MAX implies
            heap@.count((dist@[v], v as usize)) > 0 by {
            assert(v == start);
        }
    }
    loop
        invariant
            graph.wf(),
            g == graph@,
            costs_nonnegative(g),
            start < n,
            n == g.nodes.len(),
            search_inv(g, start as int, goal as int, dist@, heap@),
            heap.wf(),
        ensures
            search_inv(g, start as int, goal as int, dist@, heap@),
            heap@.len() == 0,
        decreases dist_sum(dist@), heap@.len(),
    {
        let ghost sum0 = dist_sum(dist@);
        let ghost len0 = heap@.len();
        let ghost q0 = heap@;
        let ghost d0 = dist@;
        let top = heap.pop();
        let (cost, position) = match top {
            Some(x) => x,
            None => {
                break;
            },
        };
        if position == goal {
            proof {
                // The entry holding the goal's current distance is still queued,
                // and nothing smaller came out before it.
                assert(q0.count((dist@[goal as int], goal)) > 0);
                assert(entry_le((cost, position), (dist@[goal as int], goal)));
                assert(q0.count((cost, position)) > 0);
                assert(cost == dist@[goal as int]);
                assert forall|p: Seq<int>| #[trigger] is_path(g, start as int, p)
                    && path_end(g, start as int, p) == goal implies cost <= path_cost(g, p) by {
                    lemma_pending_bound(g, start as int, goal as int, dist@, q0, p);
                    if exists|e: (i64, usize)| #[trigger] q0.count(e) > 0 && e.0 <= path_cost(g, p) {
                        let e = choose|e: (i64, usize)| #[trigger] q0.count(e) > 0 && e.0 <= path_cost(g, p);
                        assert(entry_le((cost, position), e));
                    }
                }
            }
            return (cost, dist);
        }
        if cost > dist[position] {
            proof {
                assert forall|v: int| 0 <= v < dist@.len() && #[trigger] dist@[v] < i64::MAX implies
                    heap@.count((dist@[v], v as usize)) > 0 || (v != goal && relaxed_at(g, dist@, v)) by {
                    if q0.count((dist@[v], v as usize)) > 0 {
                        assert((dist@[v], v as usize) != (cost, position));
                    }
                }
                assert forall|e: (i64, usize)| #[trigger] heap@.count(e) > 0 implies e.1 < dist@.len()
                    && e.0 >= dist@[e.1 as int] && e.0 < i64::MAX by {
                    assert(q0.count(e) > 0);
                }
            }
            continue;
        }
        let u = position;
        let es = graph.outgoing_edges(u);
        proof {
            lemma_offsets_monotone(g);
            assert forall|v: int| 0 <= v < dist@.len() && v != u && #[trigger] dist@[v] < i64::MAX implies
                heap@.count((dist@[v], v as usize)) > 0 || (v != goal && relaxed_at(g, dist@, v)) by {
                if q0.count((dist@[v], v as usize)) > 0 {
                    assert((dist@[v], v as usize) != (cost, position));
                }
            }
            assert forall|e: (i64, usize)| #[trigger] heap@.count(e) > 0 implies e.1 < dist@.len()
                && e.0 >= dist@[e.1 as int] && e.0 < i64::MAX by {
                assert(q0.count(e) > 0);
            }
        }
        let ghost s0 = g.nodes[u as int].offset as int;
        proof {
            assert(0 <= s0 <= out_end(g, u as int) <= g.edges.len()) by {
                if u + 1 < n {
                    assert(g.nodes[u as int].offset <= g.nodes[u + 1].offset);
                }
            }
        }
        let ghost pushes: int = 0;
        let mut j: usize = 0;
        while j < es.len()
            invariant
                graph.wf(),
                g == graph@,
                costs_nonnegative(g),
                start < n,
                n == g.nodes.len(),
                u < n,
                u != goal,
                es@ == out_edges(g, u as int),
                s0 == g.nodes[u as int].offset,
                0 <= s0 && s0 + es@.len() <= g.edges.len(),
                s0 + es@.len() == out_end(g, u as int),
                forall|jj: int| 0 <= jj < es@.len() ==> #[trigger] es@[jj] == g.edges[s0 + jj],
                j <= es.len(),
                dist@.len() == n,
                dist@[start as int] == 0,
                dist@[u as int] == cost,
                cost < i64::MAX,
                forall|v: int| 0 <= v < dist@.len() ==> #[trigger] dist@[v] >= 0,
                heap.wf(),
                forall|e: (i64, usize)| #[trigger] heap@.count(e) > 0 ==> e.1 < dist@.len()
                    && e.0 >= dist@[e.1 as int] && e.0 < i64::MAX,
                forall|v: int| 0 <= v < dist@.len() && v != u && #[trigger] dist@[v] < i64::MAX ==>
                    heap@.count((dist@[v], v as usize)) > 0 || (v != goal && relaxed_at(g, dist@, v)),
                forall|v: int| 0 <= v < dist@.len() && #[trigger] dist@[v] < i64::MAX ==>
                    reachable_at(g, start as int, v, dist@[v] as int),
                forall|jj: int| 0 <= jj < j ==>
                    dist@[(#[trigger] es@[jj]).trg as int] <= cost + es@[jj].cost,
                dist_sum(dist@) <= sum0 - pushes,
                heap@.len() == len0 - 1 + pushes,
                pushes >= 0,
            decreases es.len() - j,
        {
            let e = es[j];
            let ghost k = s0 + j;
            proof {
                assert(e == g.edges[k]);
                lemma_out_edges_are_edges_leaving(g, u as int, k);
                assert(crate::graph::edge_in_range(n as int, g.edges[k]));
                assert(g.edges[k].cost >= 0);
            }
            let t = e.trg as usize;
            let nc: i64 = if e.cost > i64::MAX - cost { i64::MAX } else { cost + e.cost };
            if nc < dist[t] {
                let ghost d1 = dist@;
                let ghost q1 = heap@;
                proof {
                    let pu = choose|p: Seq<int>| is_path(g, start as int, p) && path_end(g, start as int, p) == u
                        && #[trigger] path_cost(g, p) == cost;
                    lemma_path_extend(g, start as int, pu, k);
                    lemma_dist_sum_update(d1, t as int, nc);
                }
                dist.set(t, nc);
                heap.push(nc, t);
                proof {
                    pushes = pushes + 1;
                    assert forall|v: int| 0 <= v < dist@.len() && v != u && #[trigger] dist@[v] < i64::MAX implies
                        heap@.count((dist@[v], v as usize)) > 0 || (v != goal && relaxed_at(g, dist@, v)) by {
                        if v != t {
                            assert(dist@[v] == d1[v]);
                            if q1.count((d1[v], v as usize)) > 0 {
                            } else {
                                assert(relaxed_at(g, d1, v));
                                assert forall|kk: int| 0 <= kk < g.edges.len() && #[trigger] g.edges[kk].src == v implies
                                    dist@[g.edges[kk].trg as int] <= dist@[v] + g.edges[kk].cost by {
                                    assert(d1[g.edges[kk].trg as int] <= d1[v] + g.edges[kk].cost);
                                }
                            }
                        }
                    }
                    assert forall|e: (i64, usize)| #[trigger] heap@.count(e) > 0 implies e.1 < dist@.len()
                        && e.0 >= dist@[e.1 as int] && e.0 < i64::MAX by {
                        if e != (nc, t) {
                            assert(q1.count(e) > 0);
                        }
                    }
                    assert forall|jj: int| 0 <= jj < j + 1 implies
                        dist@[(#[trigger] es@[jj]).trg as int] <= cost + es@[jj].cost by {
                        if jj < j {
                            assert(d1[es@[jj].trg as int] <= cost + es@[jj].cost);
                        }
                    }
                    assert forall|v: int| 0 <= v < dist@.len() && #[trigger] dist@[v] < i64::MAX implies
                        reachable_at(g, start as int, v, dist@[v] as int) by {
                        if v != t {
                            assert(dist@[v] == d1[v]);
                        }
                    }
                }
            }
            j += 1;
        }
        proof {
            assert(relaxed_at(g, dist@, u as int)) by {
                assert forall|kk: int| 0 <= kk < g.edges.len() && #[trigger] g.edges[kk].src == u implies
                    dist@[g.edges[kk].trg as int] <= dist@[u as int] + g.edges[kk].cost by {
                    lemma_out_edges_are_edges_leaving(g, u as int, kk);
                    let jj = kk - s0;
                    assert(es@[jj] == g.edges[kk]);
                }
            }
            lemma_dist_sum_nonneg(dist@);
        }
    }
    proof {
        assert forall|k: int| 0 <= k < g.edges.len() && dist@[g.edges[k].src as int] < i64::MAX implies
            dist@[#[trigger] g.edges[k].trg as int] <= dist@[g.edges[k].src as int] + g.edges[k].cost by {
            let u = g.edges[k].src as int;
            assert(crate::graph::edge_in_range(g.nodes.len() as int, g.edges[k]));
            assert(dist@[u] < i64::MAX);
            assert(relaxed_at(g, dist@, u));
        }
    }
    (-1, dist)
}

/// Where no edge can improve the distances and the start is at 0, no walk
/// from the start is cheaper than the distance of the node where it ends.
pub proof fn lemma_relaxed_lower_bound(g: GraphView, start: int, d: Seq<i64>, p: Seq<int>)
    requires
        graph_wf(g),
        costs_nonnegative(g),
        d.len() == g.nodes.len(),
        0 <= start < d.len(),
        d[start] == 0,
        all_relaxed(g, d),
        is_path(g, start, p),
    ensures
        d[path_end(g, start, p)] <= path_cost(g, p),
    decreases p.len(),
{
    if p.len() > 0 {
        let q = p.drop_last();
        let k = p.last();
        assert(is_path(g, start, q)) by {
            assert forall|i: int| 1 <= i < q.len() implies #[trigger] linked(g, q, i) by {
                assert(linked(g, p, i));
            }
            assert forall|i: int| 0 <= i < q.len() implies 0 <= #[trigger] q[i] < g.edges.len() by {
                assert(p[i] == q[i]);
            }
        }
        lemma_relaxed_lower_bound(g, start, d, q);
        assert(0 <= k < g.edges.len());
        if p.len() > 1 {
            assert(linked(g, p, p.len() - 1));
        }
        assert(g.edges[k].src == path_end(g, start, q));
        assert(crate::graph::edge_in_range(g.nodes.len() as int, g.edges[k]));
        assert(g.edges[k].cost >= 0);
        lemma_path_cost_nonneg(g, q);
    }
}

proof fn lemma_path_cost_nonneg(g: GraphView, p: Seq<int>)
    requires
        costs_nonnegative(g),
        forall|i: int| 0 <= i < p.len() ==> 0 <= #[trigger] p[i] < g.edges.len(),
    ensures
        path_cost(g, p) >= 0,
    decreases p.len(),
{
    if p.len() > 0 {
        let q = p.drop_last();
        assert forall|i: int| 0 <= i < q.len() implies 0 <= #[trigger] q[i] < g.edges.len() by {
            assert(p[i] == q[i]);
        }
        lemma_path_cost_nonneg(g, q);
        assert(g.edges[p.last()].cost >= 0);
    }
}

/// Distances from `start` to every node: the cost of a cheapest walk, or
/// `EdgeCost::MAX` for a node that no walk reaches.
pub fn shortest_paths(graph: &Graph, start: usize) -> (r: Vec<EdgeCost>)
    requires
        graph.wf(),
        costs_nonnegative(graph@),
        start < graph@.nodes.len(),
    ensures
        r.len() == graph@.nodes.len(),
        r[start as int] == 0,
        forall|v: int| 0 <= v < r.len() ==> #[trigger] r[v] >= 0,
        forall|v: int| 0 <= v < r.len() && #[trigger] r[v] < i64::MAX ==>
            reachable_at(graph@, start as int, v, r[v] as int),
        forall|p: Seq<int>| #[trigger] is_path(graph@, start as int, p) ==>
            r[path_end(graph@, start as int, p)] <= path_cost(graph@, p),
{
    let (_, dist) = dijkstra(graph, start, graph.node_count());
    proof {
        assert forall|p: Seq<int>| #[trigger] is_path(graph@, start as int, p) implies
            dist[path_end(graph@, start as int, p)] <= path_cost(graph@, p) by {
            lemma_relaxed_lower_bound(graph@, start as int, dist@, p);
        }
    }
    dist
}

/// `r` is the cost of a cheapest walk from `s` to `t`, or -1 where no walk
/// of a cost below `EdgeCost::MAX` reaches `t`.
pub open spec fn is_shortest_distance(g: GraphView, s: int, t: int, r: int) -> bool {
    &&& r == -1 || (0 <= t < g.nodes.len() && 0 <= r < i64::MAX && reachable_at(g, s, t, r))
    &&& r != -1 ==> forall|p: Seq<int>| #[trigger] is_path(g, s, p) && path_end(g, s, p) == t
        ==> r <= path_cost(g, p)
    &&& r == -1 ==> forall|p: Seq<int>| #[trigger] is_path(g, s, p) && path_end(g, s, p) == t
        ==> path_cost(g, p) >= i64::MAX
}

/// The shortest distance between two nodes is one value: asking twice
/// gives the same answer.
pub proof fn lemma_shortest_distance_unique(g: GraphView, s: int, t: int, r1: int, r2: int)
    requires
        is_shortest_distance(g, s, t, r1),
        is_shortest_distance(g, s, t, r2),
    ensures
        r1 == r2,
{
    if r1 != -1 {
        let p1 = choose|p: Seq<int>| is_path(g, s, p) && path_end(g, s, p) == t && #[trigger] path_cost(g, p) == r1;
        assert(is_path(g, s, p1));
    }
    if r2 != -1 {
        let p2 = choose|p: Seq<int>| is_path(g, s, p) && path_end(g, s, p) == t && #[trigger] path_cost(g, p) == r2;
        assert(is_path(g, s, p2));
    }
}

/// Cost of a cheapest walk from `start` to `goal`, or -1 where no walk
/// reaches `goal` (also where `goal` is not a node). The search stops as
/// soon as `goal` is settled.
pub fn shortest_path(graph: &Graph, start: usize, goal: usize) -> (r: EdgeCost)
    requires
        graph.wf(),
        costs_nonnegative(graph@),
        start < graph@.nodes.len(),
    ensures
        is_shortest_distance(graph@, start as int, goal as int, r as int),
        goal == start ==> r == 0,
{
    let (cost, dist) = dijkstra(graph, start, goal);
    proof {
        if cost == -1 {
            assert forall|p: Seq<int>| #[trigger] is_path(graph@, start as int, p)
                && path_end(graph@, start as int, p) == goal implies path_cost(graph@, p) >= i64::MAX by {
                lemma_relaxed_lower_bound(graph@, start as int, dist@, p);
                if goal >= graph@.nodes.len() {
                    if p.len() == 0 {
                        assert(path_end(graph@, start as int, p) == start);
                    } else {
                        assert(crate::graph::edge_in_range(graph@.nodes.len() as int, graph@.edges[p.last()]));
                    }
                }
            }
        }
    }
    cost
}

/// The source and goal on a query line: its first two fields, in decimal.
pub open spec fn query_of(l: Seq<u8>) -> Option<(int, int)> {
    let (a, b) = (field(l, 0), field(l, 1));
    if a.len() > 0 && all_digits(a) && digits_value(a) <= usize::MAX && b.len() > 0 && all_digits(b)
        && digits_value(b) <= usize::MAX {
        Some((digits_value(a), digits_value(b)))
    } else {
        None
    }
}

/// The answer owed for one query line: -1 where the line does not name a
/// source node, else the shortest distance.
pub open spec fn query_answer(g: GraphView, l: Seq<u8>, r: int) -> bool {
    match query_of(l) {
        Some(st) => if 0 <= st.0 < g.nodes.len() {
            is_shortest_distance(g, st.0, st.1, r)
        } else {
            r == -1
        },
        None => r == -1,
    }
}

/// The source and goal on a query line.
pub fn parse_query(l: &[u8]) -> (r: Option<(usize, usize)>)
    ensures
        r is None <==> query_of(l@) is None,
        r matches Some(st) ==> query_of(l@) == Some((st.0 as int, st.1 as int)),
{
    let (a0, a1) = field_bounds(l, 0);
    let (b0, b1) = field_bounds(l, 1);
    let a = parse_count(vstd::slice::slice_subrange(l, a0, a1));
    let b = parse_count(vstd::slice::slice_subrange(l, b0, b1));
    match (a, b) {
        (Some(s), Some(t)) => Some((s, t)),
        _ => None,
    }
}

/// Answers one line of a query file: the shortest distance from its source
/// to its goal, or -1 where the line cannot be read or the source is no node.
pub fn answer_query(graph: &Graph, l: &[u8]) -> (r: EdgeCost)
    requires
        graph.wf(),
        costs_nonnegative(graph@),
    ensures
        query_answer(graph@, l@, r as int),
{
    match parse_query(l) {
        Some((s, t)) => {
            proof {
                let st = query_of(l@)->Some_0;
                assert(st.0 == s as int && st.1 == t as int);
            }
            if s < graph.node_count() {
                shortest_path(graph, s, t)
            } else {
                -1
            }
        },
        None => -1,
    }
}

/// Answers every query line in order, one result per line.
pub fn answer_queries(graph: &Graph, lines: &Vec<Vec<u8>>) -> (r: Vec<EdgeCost>)
    requires
        graph.wf(),
        costs_nonnegative(graph@),
    ensures
        r.len() == lines.len(),
        forall|i: int| 0 <= i < lines.len() ==> query_answer(graph@, lines[i]@, #[trigger] r[i] as int),
{
    let mut out: Vec<EdgeCost> = Vec::with_capacity(lines.len());
    let mut i: usize = 0;
    while i < lines.len()
        invariant
            i <= lines.len(),
            graph.wf(),
            costs_nonnegative(graph@),
            out.len() == i,
            forall|j: int| 0 <= j < i ==> query_answer(graph@, lines[j]@, #[trigger] out[j] as int),
        decreases lines.len() - i,
    {
        let d = answer_query(graph, lines[i].as_slice());
        out.push(d);
        i += 1;
    }
    out
}

/// Results of a query batch depend on the graph and the lines alone: any
/// two result vectors that answer every line, in whatever order or by
/// however many workers they were filled, are equal.
pub proof fn lemma_batch_deterministic(g: GraphView, lines: Seq<Seq<u8>>, a: Seq<i64>, b: Seq<i64>)
    requires
        a.len() == lines.len(),
        b.len() == lines.len(),
        forall|i: int| 0 <= i < lines.len() ==> query_answer(g, lines[i], #[trigger] a[i] as int),
        forall|i: int| 0 <= i < lines.len() ==> query_answer(g, lines[i], #[trigger] b[i] as int),
    ensures
        a == b,
{
    assert forall|i: int| 0 <= i < lines.len() implies #[trigger] a[i] == b[i] by {
        assert(query_answer(g, lines[i], a[i] as int));
        assert(query_answer(g, lines[i], b[i] as int));
        match query_of(lines[i]) {
            Some(st) => {
                if 0 <= st.0 < g.nodes.len() {
                    lemma_shortest_distance_unique(g, st.0, st.1, a[i] as int, b[i] as int);
                }
            },
            None => {},
        }
    }
    assert(a =~= b);
}

} // verus!