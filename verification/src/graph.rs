//! The traversal graph of one query: an arena of leg-nodes plus a derived
//! adjacency relation that respects the causality invariant.
//!
//! All node-to-node relations (edges, predecessor links) are plain indices
//! into the node arena; the graph is built once per query, mutated only by
//! the path finder, and dropped with the query.

use vstd::prelude::*;
use crate::time::{parse_time, SECONDS_PER_DAY};
use crate::timetable::{Leg, DataError, leg_wf, leg_dep, leg_arr, MAX_LEGS};

verus! {

/// One leg wrapped with search-time state: its schedule data parsed to
/// seconds of day, the minimum cumulative cost found so far, and the node
/// whose boarding precedes this one on that cheapest path.
#[derive(Clone, Copy, Debug)]
pub struct Node {
    /// Leg id this node stands for.
    pub id: usize,
    /// Place where the leg departs.
    pub origin_place_id: usize,
    /// Place where the leg arrives.
    pub destination_place_id: usize,
    /// Departure time in seconds since midnight.
    pub departure_time: usize,
    /// Arrival time in seconds since midnight.
    pub arrival_time: usize,
    /// Minimum cumulative time to reach this leg's arrival, when reached.
    pub best_cost: Option<u64>,
    /// Index of the predecessor node on the cheapest path, when relaxed.
    pub predecessor: Option<usize>,
    /// The node was popped and settled by the path finder.
    pub visited: bool,
}

impl Node {
    /// Fresh node for one leg: no cost, no predecessor, unvisited.
    pub fn new(
        id: usize,
        origin_place_id: usize,
        destination_place_id: usize,
        departure_time: usize,
        arrival_time: usize,
    ) -> (r: Node)
        ensures
            r.id == id,
            r.origin_place_id == origin_place_id,
            r.destination_place_id == destination_place_id,
            r.departure_time == departure_time,
            r.arrival_time == arrival_time,
            r.best_cost is None,
            r.predecessor is None,
            !r.visited,
    {
        Node {
            id,
            origin_place_id,
            destination_place_id,
            departure_time,
            arrival_time,
            best_cost: None,
            predecessor: None,
            visited: false,
        }
    }
}

/// One outgoing edge: the target node and the time spent in transit on the
/// target leg.
#[derive(Clone, Copy, Debug)]
pub struct Edge {
    /// Index of the target node.
    pub to: usize,
    /// Travel duration of the target leg, in seconds.
    pub weight: u64,
}

/// The node this leg is turned into, before any search state is set;
/// meaningful when the leg is well formed.
pub open spec fn node_of_leg(leg: Leg) -> Node {
    Node {
        id: leg.id,
        origin_place_id: leg.origin_place_id,
        destination_place_id: leg.destination_place_id,
        departure_time: leg_dep(leg) as usize,
        arrival_time: leg_arr(leg) as usize,
        best_cost: None,
        predecessor: None,
        visited: false,
    }
}

/// The node arena a well-formed timetable is turned into.
pub open spec fn node_seq(legs: Seq<Leg>) -> Seq<Node> {
    Seq::new(legs.len(), |i: int| node_of_leg(legs[i]))
}

/// Causality invariant: an edge `u -> v` may exist only when `v` departs
/// from the place where `u` arrives, and no earlier than `u` arrives.
pub open spec fn causal(u: Node, v: Node) -> bool {
    u.destination_place_id == v.origin_place_id && v.departure_time >= u.arrival_time
}

/// Edge weight: the time actually spent in transit on the connecting leg.
pub open spec fn edge_weight(v: Node) -> int {
    v.arrival_time - v.departure_time
}

/// Times of one node lie within the day and the arrival is not before the
/// departure.
pub open spec fn node_wf(n: Node) -> bool {
    n.departure_time <= n.arrival_time < SECONDS_PER_DAY
}

/// Adjacency list of node `u` restricted to targets below `n`: exactly the
/// feasibility-respecting edges, in increasing target order.
pub open spec fn edge_seq(nodes: Seq<Node>, u: int, n: int) -> Seq<Edge>
    decreases n,
{
    if n <= 0 {
        Seq::empty()
    } else {
        let prefix = edge_seq(nodes, u, n - 1);
        if causal(nodes[u], nodes[n - 1]) {
            prefix.push(Edge { to: (n - 1) as usize, weight: edge_weight(nodes[n - 1]) as u64 })
        } else {
            prefix
        }
    }
}

/// The full adjacency relation derived from a node arena.
pub open spec fn adj_model(nodes: Seq<Node>) -> Seq<Seq<Edge>> {
    Seq::new(nodes.len(), |i: int| edge_seq(nodes, i, nodes.len() as int))
}

/// Two nodes agree on all schedule data; only search state may differ.
pub open spec fn node_static_eq(a: Node, b: Node) -> bool {
    a.id == b.id && a.origin_place_id == b.origin_place_id
        && a.destination_place_id == b.destination_place_id
        && a.departure_time == b.departure_time && a.arrival_time == b.arrival_time
}

/// Two node arenas agree on all schedule data.
pub open spec fn same_static(a: Seq<Node>, b: Seq<Node>) -> bool {
    a.len() == b.len() && forall|i: int| 0 <= i < a.len() ==> node_static_eq(#[trigger] a[i], #[trigger] b[i])
}

/// The edge relation reads only schedule data, so it is unchanged by any
/// mutation of the search state.
pub proof fn lemma_edge_seq_static(a: Seq<Node>, b: Seq<Node>, u: int, n: int)
    requires
        same_static(a, b),
        0 <= u < a.len(),
        n <= a.len(),
    ensures
        edge_seq(a, u, n) == edge_seq(b, u, n),
    decreases n,
{
    if n > 0 {
        lemma_edge_seq_static(a, b, u, n - 1);
    }
}

/// Every edge of `es` points below `n`, respects causality towards its
/// target, and carries the transit time of its target leg as weight.
pub open spec fn edges_ok(nodes: Seq<Node>, u: int, n: int, es: Seq<Edge>) -> bool {
    forall|k: int| 0 <= k < es.len() ==> {
        &&& (#[trigger] es[k]).to < n
        &&& causal(nodes[u], nodes[es[k].to as int])
        &&& es[k].weight == edge_weight(nodes[es[k].to as int])
    }
}

/// Every edge in an adjacency list points below `n`, respects causality, and
/// carries the transit time of its target leg as weight.
pub proof fn lemma_edge_seq_props(nodes: Seq<Node>, u: int, n: int)
    requires
        nodes.len() <= MAX_LEGS,
        forall|i: int| 0 <= i < nodes.len() ==> node_wf(#[trigger] nodes[i]),
        0 <= u < nodes.len(),
        n <= nodes.len(),
    ensures
        edges_ok(nodes, u, n, edge_seq(nodes, u, n)),
    decreases n,
{
    if n > 0 {
        lemma_edge_seq_props(nodes, u, n - 1);
        let prefix = edge_seq(nodes, u, n - 1);
        let es = edge_seq(nodes, u, n);
        if causal(nodes[u], nodes[n - 1]) {
            let e = Edge { to: (n - 1) as usize, weight: edge_weight(nodes[n - 1]) as u64 };
            assert(es == prefix.push(e));
            assert forall|k: int| 0 <= k < es.len() implies {
                &&& (#[trigger] es[k]).to < n
                &&& causal(nodes[u], nodes[es[k].to as int])
                &&& es[k].weight == edge_weight(nodes[es[k].to as int])
            } by {
                if k < prefix.len() {
                    assert(es[k] == prefix[k]);
                } else {
                    assert(es[k] == e);
                }
            }
        } else {
            assert(es == prefix);
        }
    }
}

/// A node has an outgoing edge to `j` in the list `es`.
pub open spec fn has_edge_to(es: Seq<Edge>, j: int) -> bool {
    exists|k: int| 0 <= k < es.len() && (#[trigger] es[k]).to == j
}

/// Completeness of the edge relation: node `u` has an edge to `j` exactly
/// when boarding `j` after riding `u` is feasible. In particular a pair that
/// breaks the causality invariant produces no edge.
pub proof fn lemma_edge_seq_complete(nodes: Seq<Node>, u: int, n: int)
    requires
        nodes.len() <= MAX_LEGS,
        forall|i: int| 0 <= i < nodes.len() ==> node_wf(#[trigger] nodes[i]),
        0 <= u < nodes.len(),
        n <= nodes.len(),
    ensures
        forall|j: int| 0 <= j < n ==> (has_edge_to(edge_seq(nodes, u, n), j) <==> causal(
            nodes[u],
            nodes[j],
        )),
    decreases n,
{
    if n > 0 {
        lemma_edge_seq_complete(nodes, u, n - 1);
        lemma_edge_seq_props(nodes, u, n - 1);
        let es = edge_seq(nodes, u, n);
        let prefix = edge_seq(nodes, u, n - 1);
        assert forall|j: int| 0 <= j < n implies (has_edge_to(es, j) <==> causal(nodes[u], nodes[j])) by {
            if causal(nodes[u], nodes[n - 1]) {
                let e = Edge { to: (n - 1) as usize, weight: edge_weight(nodes[n - 1]) as u64 };
                assert(es == prefix.push(e));
                assert(es[es.len() - 1].to == n - 1);
                if j == n - 1 {
                    assert(has_edge_to(es, j));
                } else {
                    if has_edge_to(prefix, j) {
                        let k = choose|k: int| 0 <= k < prefix.len() && (#[trigger] prefix[k]).to == j;
                        assert(es[k].to == j);
                    }
                    if has_edge_to(es, j) {
                        let k = choose|k: int| 0 <= k < es.len() && (#[trigger] es[k]).to == j;
                        assert(k < prefix.len());
                        assert(prefix[k].to == j);
                    }
                }
            } else {
                assert(es == prefix);
                if j < n - 1 {
                    if has_edge_to(prefix, j) {
                        let k = choose|k: int| 0 <= k < prefix.len() && (#[trigger] prefix[k]).to == j;
                        assert(es[k].to == j);
                    }
                } else {
                    if has_edge_to(es, j) {
                        let k = choose|k: int| 0 <= k < es.len() && (#[trigger] es[k]).to == j;
                        assert(prefix[k].to == j);
                    }
                }
            }
        }
    }
}

/// Causality of a well-formed graph, in both directions: every edge
/// `u -> v` satisfies the causality invariant — `v` departs from the place
/// where `u` arrives, no earlier than `u` arrives — and every pair of nodes
/// satisfying it has its edge. In particular a pair that would require
/// boarding before arriving produces no edge.
pub proof fn lemma_graph_causality(g: Graph)
    requires
        g.wf(),
    ensures
        forall|u: int, k: int|
            0 <= u < g.adj@.len() && 0 <= k < g.adj@[u]@.len() ==> (#[trigger] g.adj@[u]@[k]).to
                < g.nodes@.len() && causal(g.nodes@[u], g.nodes@[g.adj@[u]@[k].to as int]),
        forall|u: int, j: int|
            0 <= u < g.nodes@.len() && 0 <= j < g.nodes@.len() ==> (#[trigger] has_edge_to(
                g.adj@[u]@,
                j,
            ) <==> causal(g.nodes@[u], g.nodes@[j])),
{
    let n = g.nodes@.len() as int;
    assert forall|u: int, k: int|
        0 <= u < g.adj@.len() && 0 <= k < g.adj@[u]@.len() implies (#[trigger] g.adj@[u]@[k]).to
        < g.nodes@.len() && causal(g.nodes@[u], g.nodes@[g.adj@[u]@[k].to as int]) by {
        lemma_edge_seq_props(g.nodes@, u, n);
    }
    assert forall|u: int, j: int|
        0 <= u < g.nodes@.len() && 0 <= j < g.nodes@.len() implies (#[trigger] has_edge_to(
        g.adj@[u]@,
        j,
    ) <==> causal(g.nodes@[u], g.nodes@[j])) by {
        lemma_edge_seq_complete(g.nodes@, u, n);
    }
}

/// The traversal graph: the node arena and one adjacency list per node.
#[derive(Debug)]
pub struct Graph {
    /// All nodes of the query, one per leg, indexed by position.
    pub nodes: Vec<Node>,
    /// Outgoing edges of each node, aligned with `nodes`.
    pub adj: Vec<Vec<Edge>>,
}

impl Graph {
    /// Static well-formedness: one adjacency list per node, times within the
    /// day, and exactly the feasibility-respecting edges with transit
    /// weights — the causality invariant for every edge follows.
    pub open spec fn wf(self) -> bool {
        &&& self.nodes@.len() <= MAX_LEGS
        &&& self.adj@.len() == self.nodes@.len()
        &&& forall|i: int| 0 <= i < self.nodes@.len() ==> node_wf(#[trigger] self.nodes@[i])
        &&& forall|i: int| 0 <= i < self.adj@.len() ==> (#[trigger] self.adj@[i])@ == edge_seq(
            self.nodes@,
            i,
            self.nodes@.len() as int,
        )
    }

    /// Builds the traversal graph for one query: one node per leg, with an
    /// edge `u -> v` exactly when `v` departs from the place where `u`
    /// arrives, no earlier than `u` arrives. A missing or unparsable time
    /// field, or an arrival before a departure, aborts the whole build with
    /// the index of the first such row; no partial graph is returned.
    pub fn build(legs: &Vec<Leg>) -> (r: Result<Graph, DataError>)
        requires
            legs@.len() <= MAX_LEGS,
        ensures
            match r {
                Ok(g) => {
                    &&& forall|i: int| 0 <= i < legs@.len() ==> leg_wf(#[trigger] legs@[i])
                    &&& g.nodes@ == node_seq(legs@)
                    &&& g.wf()
                },
                Err(e) => {
                    &&& e.leg_index < legs@.len()
                    &&& !leg_wf(legs@[e.leg_index as int])
                    &&& forall|j: int| 0 <= j < e.leg_index ==> leg_wf(#[trigger] legs@[j])
                },
            },
    {
        let n = legs.len();
        let mut nodes: Vec<Node> = Vec::new();
        let mut idx: usize = 0;
        while idx < n
            invariant
                n == legs@.len(),
                idx <= n,
                nodes@.len() == idx,
                forall|j: int| 0 <= j < idx ==> leg_wf(#[trigger] legs@[j]),
                forall|j: int| 0 <= j < idx ==> #[trigger] nodes@[j] == node_of_leg(legs@[j]),
                forall|j: int| 0 <= j < idx ==> node_wf(#[trigger] nodes@[j]),
            decreases n - idx,
        {
            let leg = &legs[idx];
            let dep = match &leg.departure_time {
                Some(s) => match parse_time(s.as_str()) {
                    Some(d) => d,
                    None => {
                        return Err(DataError { leg_index: idx });
                    },
                },
                None => {
                    return Err(DataError { leg_index: idx });
                },
            };
            let arr = match &leg.arrival_time {
                Some(s) => match parse_time(s.as_str()) {
                    Some(a) => a,
                    None => {
                        return Err(DataError { leg_index: idx });
                    },
                },
                None => {
                    return Err(DataError { leg_index: idx });
                },
            };
            if arr < dep {
                return Err(DataError { leg_index: idx });
            }
            nodes.push(Node::new(leg.id, leg.origin_place_id, leg.destination_place_id, dep, arr));
            idx += 1;
        }
        assert(nodes@ =~= node_seq(legs@));

        let mut adj: Vec<Vec<Edge>> = Vec::new();
        let mut i: usize = 0;
        while i < n
            invariant
                n == nodes@.len() <= MAX_LEGS,
                i <= n,
                adj@.len() == i,
                forall|j: int| 0 <= j < n ==> node_wf(#[trigger] nodes@[j]),
                forall|k: int| 0 <= k < i ==> (#[trigger] adj@[k])@ == edge_seq(nodes@, k, n as int),
            decreases n - i,
        {
            let mut row: Vec<Edge> = Vec::new();
            let mut j: usize = 0;
            while j < n
                invariant
                    n == nodes@.len() <= MAX_LEGS,
                    i < n,
                    j <= n,
                    forall|k: int| 0 <= k < n ==> node_wf(#[trigger] nodes@[k]),
                    row@ == edge_seq(nodes@, i as int, j as int),
                decreases n - j,
            {
                if nodes[i].destination_place_id == nodes[j].origin_place_id
                    && nodes[j].departure_time >= nodes[i].arrival_time {
                    let w = nodes[j].arrival_time - nodes[j].departure_time;
                    row.push(Edge { to: j, weight: w as u64 });
                }
                j += 1;
            }
            adj.push(row);
            i += 1;
        }
        Ok(Graph { nodes, adj })
    }
}

} // verus!
