//! Multi-source shortest-path relaxation (time-dependent Dijkstra) over the
//! traversal graph.
//!
//! All sources are seeded before relaxation begins; the relaxation then
//! repeatedly settles the cheapest unsettled node and relaxes its outgoing
//! edges. The whole run is pinned to the deterministic step function
//! [`dijkstra_model`], and the classic frontier invariant is maintained:
//! once a node is visited its cost is final, and nodes are visited in
//! non-decreasing cost order.

use vstd::prelude::*;
use crate::time::SECONDS_PER_DAY;
use crate::timetable::MAX_LEGS;
use crate::graph::{Graph, Node, Edge, edge_seq, edges_ok, same_static, node_static_eq, node_wf, lemma_edge_seq_static, lemma_edge_seq_props};

verus! {

/// Cost of a node that carries one; meaningful when `best_cost` is set.
pub open spec fn node_cost(n: Node) -> int {
    n.best_cost->Some_0 as int
}

/// `n` with its visited mark set; everything else unchanged.
pub open spec fn with_visited(n: Node) -> Node {
    Node {
        id: n.id,
        origin_place_id: n.origin_place_id,
        destination_place_id: n.destination_place_id,
        departure_time: n.departure_time,
        arrival_time: n.arrival_time,
        best_cost: n.best_cost,
        predecessor: n.predecessor,
        visited: true,
    }
}

/// `n` after a successful relaxation: new cost and predecessor, everything
/// else unchanged.
pub open spec fn with_relaxed(n: Node, c: u64, p: usize) -> Node {
    Node {
        id: n.id,
        origin_place_id: n.origin_place_id,
        destination_place_id: n.destination_place_id,
        departure_time: n.departure_time,
        arrival_time: n.arrival_time,
        best_cost: Some(c),
        predecessor: Some(p),
        visited: n.visited,
    }
}

/// `n` seeded as a source: initial cost set, everything else unchanged.
pub open spec fn with_seed(n: Node, c: u64) -> Node {
    Node {
        id: n.id,
        origin_place_id: n.origin_place_id,
        destination_place_id: n.destination_place_id,
        departure_time: n.departure_time,
        arrival_time: n.arrival_time,
        best_cost: Some(c),
        predecessor: n.predecessor,
        visited: n.visited,
    }
}

/// Initial cost of a source node: the wait at the origin before boarding,
/// plus the time spent on the first leg.
pub open spec fn seed_cost(n: Node, qt: int) -> u64 {
    ((n.departure_time - qt) + (n.arrival_time - n.departure_time)) as u64
}

/// The node arena with every source node seeded with its initial cost.
pub open spec fn seeded(nodes: Seq<Node>, sources: Seq<usize>, qt: int) -> Seq<Node> {
    Seq::new(
        nodes.len(),
        |i: int|
            if sources.contains(i as usize) {
                with_seed(nodes[i], seed_cost(nodes[i], qt))
            } else {
                nodes[i]
            },
    )
}

/// The unvisited node with a cost among the first `k` whose `(cost, index)`
/// key is smallest; ties keep the smaller index.
pub open spec fn scan_min(nodes: Seq<Node>, k: int) -> Option<usize>
    decreases k,
{
    if k <= 0 {
        None
    } else {
        let prev = scan_min(nodes, k - 1);
        let cur = nodes[k - 1];
        if cur.visited || cur.best_cost is None {
            prev
        } else {
            match prev {
                None => Some((k - 1) as usize),
                Some(p) => if node_cost(cur) < node_cost(nodes[p as int]) {
                    Some((k - 1) as usize)
                } else {
                    prev
                },
            }
        }
    }
}

/// One relaxation of the edge `u -> e.to`: the candidate cost is the cost of
/// `u` plus the transfer wait plus the edge weight, and it replaces the
/// target's cost exactly on strict improvement; ties keep the existing
/// predecessor.
pub open spec fn relax_step(nodes: Seq<Node>, u: int, e: Edge) -> Seq<Node> {
    let t = nodes[e.to as int];
    let cand = node_cost(nodes[u]) + (t.departure_time - nodes[u].arrival_time) + e.weight;
    if t.best_cost is None || cand < node_cost(t) {
        nodes.update(e.to as int, with_relaxed(t, cand as u64, u as usize))
    } else {
        nodes
    }
}

/// The first `k` edges of `es` relaxed in order, starting from `nodes`.
pub open spec fn relax_edges(nodes: Seq<Node>, u: int, es: Seq<Edge>, k: int) -> Seq<Node>
    decreases k,
{
    if k <= 0 {
        nodes
    } else {
        relax_step(relax_edges(nodes, u, es, k - 1), u, es[k - 1])
    }
}

/// One settling step: mark `u` visited, then relax all its outgoing edges.
pub open spec fn visit_one(nodes: Seq<Node>, adj: Seq<Seq<Edge>>, u: int) -> Seq<Node> {
    let marked = nodes.update(u, with_visited(nodes[u]));
    relax_edges(marked, u, adj[u], adj[u].len() as int)
}

/// The whole relaxation as a deterministic step function: settle the
/// cheapest unsettled node until none carries a cost, or until the fuel —
/// in practice the node count, which one visit per node never exhausts —
/// runs out.
pub open spec fn dijkstra_model(nodes: Seq<Node>, adj: Seq<Seq<Edge>>, fuel: nat) -> Seq<Node>
    decreases fuel,
{
    if fuel == 0 {
        nodes
    } else {
        match scan_min(nodes, nodes.len() as int) {
            None => nodes,
            Some(u) => dijkstra_model(visit_one(nodes, adj, u as int), adj, (fuel - 1) as nat),
        }
    }
}

/// The adjacency lists of a graph as plain sequences.
pub open spec fn adj_view(adj: Seq<Vec<Edge>>) -> Seq<Seq<Edge>> {
    adj.map_values(|v: Vec<Edge>| v@)
}

/// No search state is set yet: no costs, no predecessors, nothing visited.
pub open spec fn fresh_state(nodes: Seq<Node>) -> bool {
    forall|i: int| 0 <= i < nodes.len() ==> {
        &&& (#[trigger] nodes[i]).best_cost is None
        &&& nodes[i].predecessor is None
        &&& !nodes[i].visited
    }
}

/// Search-state well-formedness: a visited node carries a cost, and a
/// predecessor link points into the arena and comes with a cost.
pub open spec fn state_wf(nodes: Seq<Node>) -> bool {
    forall|i: int| 0 <= i < nodes.len() ==> {
        &&& ((#[trigger] nodes[i]).visited ==> nodes[i].best_cost is Some)
        &&& (nodes[i].predecessor is Some ==> nodes[i].predecessor->Some_0 < nodes.len()
            && nodes[i].best_cost is Some)
    }
}

/// The Dijkstra frontier invariant: every visited node's cost is no larger
/// than the cost of any node that already carries a cost but is unvisited.
pub open spec fn frontier_inv(nodes: Seq<Node>) -> bool {
    forall|i: int, j: int|
        0 <= i < nodes.len() && 0 <= j < nodes.len() && (#[trigger] nodes[i]).visited && !(
        #[trigger] nodes[j]).visited && nodes[j].best_cost is Some ==> node_cost(nodes[i])
            <= node_cost(nodes[j])
}

/// Every cost that is set is at most `b`.
pub open spec fn costs_bounded(nodes: Seq<Node>, b: int) -> bool {
    forall|i: int| 0 <= i < nodes.len() && (#[trigger] nodes[i]).best_cost is Some
        ==> node_cost(nodes[i]) <= b
}

/// Settles the cheapest unsettled node and relaxes its outgoing edges; a
/// no-op returning `None` once no unvisited node carries a cost.
///
/// Monotonic relaxation: once a node is visited its cost never changes
/// afterwards, and the node settled here costs at least as much as every
/// node visited before it.
pub fn visit_next(g: &mut Graph, bound: Ghost<int>) -> (r: Option<usize>)
    requires
        old(g).wf(),
        state_wf(old(g).nodes@),
        frontier_inv(old(g).nodes@),
        costs_bounded(old(g).nodes@, bound@),
        0 <= bound@,
        bound@ + 2 * SECONDS_PER_DAY <= u64::MAX,
    ensures
        final(g).wf(),
        final(g).adj == old(g).adj,
        same_static(final(g).nodes@, old(g).nodes@),
        state_wf(final(g).nodes@),
        frontier_inv(final(g).nodes@),
        costs_bounded(final(g).nodes@, bound@ + 2 * SECONDS_PER_DAY),
        r == scan_min(old(g).nodes@, old(g).nodes@.len() as int),
        (match r {
            None => final(g).nodes@ == old(g).nodes@,
            Some(u) => u < old(g).nodes@.len() && final(g).nodes@ == visit_one(
                old(g).nodes@,
                adj_view(old(g).adj@),
                u as int,
            ),
        }),
        forall|i: int|
            0 <= i < old(g).nodes@.len() && (#[trigger] old(g).nodes@[i]).visited
                ==> final(g).nodes@[i].visited
                && final(g).nodes@[i].best_cost == old(g).nodes@[i].best_cost,
        (r matches Some(u) ==> forall|i: int|
            0 <= i < old(g).nodes@.len() && (#[trigger] old(g).nodes@[i]).visited ==> node_cost(
                old(g).nodes@[i],
            ) <= node_cost(old(g).nodes@[u as int])),
{
    let n = g.nodes.len();

    let mut best: Option<usize> = None;
    let mut k: usize = 0;
    while k < n
        invariant
            n == g.nodes@.len(),
            k <= n,
            *g == *old(g),
            best == scan_min(g.nodes@, k as int),
            best matches Some(p) ==> p < k && !g.nodes@[p as int].visited
                && g.nodes@[p as int].best_cost is Some,
            best matches Some(p) ==> forall|j: int|
                0 <= j < k && !(#[trigger] g.nodes@[j]).visited && g.nodes@[j].best_cost is Some
                    ==> node_cost(g.nodes@[p as int]) <= node_cost(g.nodes@[j]),
            best is None ==> forall|j: int|
                0 <= j < k ==> (#[trigger] g.nodes@[j]).visited || g.nodes@[j].best_cost is None,
        decreases n - k,
    {
        let nd = g.nodes[k];
        if !nd.visited && nd.best_cost.is_some() {
            match best {
                None => {
                    best = Some(k);
                },
                Some(p) => {
                    if nd.best_cost.unwrap() < g.nodes[p].best_cost.unwrap() {
                        best = Some(k);
                    }
                },
            }
        }
        k += 1;
    }

    let u = match best {
        None => {
            return None;
        },
        Some(u) => u,
    };

    let ghost orig = g.nodes@;
    let ghost adjv = adj_view(g.adj@);
    let ghost ucost = node_cost(orig[u as int]);

    proof {
        // The settled node costs at least as much as every visited node, and
        // at most as much as every unvisited node that carries a cost.
        assert(forall|i: int|
            0 <= i < n && (#[trigger] orig[i]).visited ==> node_cost(orig[i]) <= ucost);
    }

    let mut node_u = g.nodes[u];
    node_u.visited = true;
    g.nodes.set(u, node_u);

    let ghost marked = g.nodes@;
    proof {
        assert(marked == orig.update(u as int, with_visited(orig[u as int])));
        assert(same_static(marked, orig));
        lemma_edge_seq_props(orig, u as int, n as int);
        assert(g.adj@[u as int]@ == edge_seq(orig, u as int, n as int));
    }

    let m = g.adj[u].len();
    let ghost row = g.adj@[u as int]@;
    let mut e_idx: usize = 0;
    while e_idx < m
        invariant
            n == g.nodes@.len() == orig.len() <= MAX_LEGS,
            u < n,
            g.adj == old(g).adj,
            g.adj@.len() == n,
            m == row.len(),
            row == g.adj@[u as int]@,
            edges_ok(orig, u as int, n as int, row),
            e_idx <= m,
            g.nodes@ == relax_edges(marked, u as int, row, e_idx as int),
            same_static(g.nodes@, orig),
            forall|i: int| 0 <= i < n ==> node_wf(#[trigger] g.nodes@[i]),
            // the settled node keeps its state
            g.nodes@[u as int].visited,
            g.nodes@[u as int].best_cost == orig[u as int].best_cost,
            orig[u as int].best_cost is Some,
            ucost == node_cost(orig[u as int]),
            // bounds on every cost in play
            0 <= bound@,
            bound@ + 2 * SECONDS_PER_DAY <= u64::MAX,
            ucost <= bound@,
            costs_bounded(g.nodes@, bound@ + 2 * SECONDS_PER_DAY),
            // relaxing changes no visited mark, and visited nodes keep their
            // costs, which are at most `ucost`
            forall|i: int|
                0 <= i < n ==> (#[trigger] g.nodes@[i]).visited == marked[i].visited,
            forall|i: int|
                0 <= i < n && (#[trigger] marked[i]).visited
                    ==> g.nodes@[i].best_cost == marked[i].best_cost,
            forall|i: int|
                0 <= i < n && (#[trigger] marked[i]).visited ==> node_cost(marked[i]) <= ucost,
            // unvisited nodes that carry a cost cost at least `ucost`
            forall|j: int|
                0 <= j < n && !(#[trigger] g.nodes@[j]).visited && g.nodes@[j].best_cost is Some
                    ==> ucost <= node_cost(g.nodes@[j]),
            state_wf(g.nodes@),
            frontier_inv(g.nodes@),
        decreases m - e_idx,
    {
        let ghost prev = g.nodes@;
        let e = g.adj[u][e_idx];
        proof {
            assert(e == row[e_idx as int]);
            assert(e.to < n && e.weight == orig[e.to as int].arrival_time - orig[e.to as int].departure_time
                && orig[u as int].destination_place_id == orig[e.to as int].origin_place_id
                && orig[e.to as int].departure_time >= orig[u as int].arrival_time);
        }
        let t = g.nodes[e.to];
        let nu = g.nodes[u];
        let cost_u = match nu.best_cost {
            Some(c) => c,
            None => {
                proof {
                    assert(false);
                }
                0
            },
        };
        let wait = t.departure_time - nu.arrival_time;
        let cand = cost_u + (wait as u64) + e.weight;
        proof {
            assert(cost_u == ucost);
            assert(ucost <= cand <= ucost + 2 * SECONDS_PER_DAY - 2);
        }
        let improves = match t.best_cost {
            None => true,
            Some(c) => cand < c,
        };
        if improves {
            proof {
                // A visited target never improves: its cost is already at
                // most `ucost`, and the candidate is at least `ucost`.
                assert(!t.visited);
            }
            let mut newt = t;
            newt.best_cost = Some(cand);
            newt.predecessor = Some(u);
            g.nodes.set(e.to, newt);
        }
        proof {
            assert(relax_edges(marked, u as int, row, e_idx as int + 1) == relax_step(
                prev,
                u as int,
                row[e_idx as int],
            ));
            assert(g.nodes@ == relax_step(prev, u as int, e));
            if improves {
                let cur = g.nodes@;
                assert(cur == prev.update(e.to as int, with_relaxed(t, cand, u)));
                assert(same_static(cur, orig));
                assert forall|i: int| 0 <= i < n implies (#[trigger] cur[i]).visited
                    == marked[i].visited by {
                    if i != e.to as int {
                        assert(cur[i] == prev[i]);
                    }
                }
                assert forall|i: int|
                    0 <= i < n && (#[trigger] marked[i]).visited implies cur[i].best_cost
                        == marked[i].best_cost by {
                    assert(i != e.to as int);
                    assert(cur[i] == prev[i]);
                }
                assert forall|j: int|
                    0 <= j < n && !(#[trigger] cur[j]).visited && cur[j].best_cost is Some
                        implies ucost <= node_cost(cur[j]) by {
                    if j != e.to as int {
                        assert(cur[j] == prev[j]);
                    }
                }
                assert forall|i: int, j: int|
                    0 <= i < n && 0 <= j < n && (#[trigger] cur[i]).visited && !(
                    #[trigger] cur[j]).visited && cur[j].best_cost is Some implies node_cost(
                    cur[i],
                ) <= node_cost(cur[j]) by {
                    assert(i != e.to as int);
                    assert(cur[i] == prev[i]);
                    assert(marked[i].visited && cur[i].best_cost == marked[i].best_cost);
                    assert(node_cost(cur[i]) <= ucost);
                    if j != e.to as int {
                        assert(cur[j] == prev[j]);
                    }
                }
            }
        }
        e_idx += 1;
    }

    proof {
        assert(g.nodes@ == visit_one(orig, adjv, u as int)) by {
            assert(adjv[u as int] == row);
            assert(g.nodes@ == relax_edges(marked, u as int, row, row.len() as int));
        }
        assert forall|i: int| 0 <= i < g.adj@.len() implies (#[trigger] g.adj@[i])@ == edge_seq(
            g.nodes@,
            i,
            g.nodes@.len() as int,
        ) by {
            lemma_edge_seq_static(orig, g.nodes@, i, n as int);
        }
        assert forall|i: int|
            0 <= i < n && (#[trigger] orig[i]).visited implies g.nodes@[i].visited
                && g.nodes@[i].best_cost == orig[i].best_cost by {
            assert(!orig[u as int].visited);
            assert(i != u as int);
            assert(marked[i] == orig[i]);
            assert(marked[i].visited);
        }
    }

    Some(u)
}

/// Multi-source relaxation: seeds every source with its initial cost — the
/// wait at the origin before boarding plus the time spent on the first leg —
/// then settles nodes in non-decreasing cost order until no unvisited node
/// carries a cost. The final search state equals [`dijkstra_model`] run on
/// the seeded arena.
pub fn relax(g: &mut Graph, sources: &Vec<usize>, query_departure_time: usize)
    requires
        old(g).wf(),
        fresh_state(old(g).nodes@),
        query_departure_time < SECONDS_PER_DAY,
        forall|k: int|
            0 <= k < sources@.len() ==> (#[trigger] sources@[k]) < old(g).nodes@.len()
                && old(g).nodes@[sources@[k] as int].departure_time >= query_departure_time,
    ensures
        final(g).adj == old(g).adj,
        final(g).wf(),
        same_static(final(g).nodes@, old(g).nodes@),
        state_wf(final(g).nodes@),
        frontier_inv(final(g).nodes@),
        final(g).nodes@ == dijkstra_model(
            seeded(old(g).nodes@, sources@, query_departure_time as int),
            adj_view(old(g).adj@),
            old(g).nodes@.len() as nat,
        ),
{
    let n = g.nodes.len();
    let qt = query_departure_time;
    let ns = sources.len();
    let mut si: usize = 0;
    while si < ns
        invariant
            ns == sources@.len(),
            si <= ns,
            qt < SECONDS_PER_DAY,
            n == g.nodes@.len() == old(g).nodes@.len(),
            g.adj == old(g).adj,
            old(g).wf(),
            fresh_state(old(g).nodes@),
            forall|k: int|
                0 <= k < ns ==> (#[trigger] sources@[k]) < n
                    && old(g).nodes@[sources@[k] as int].departure_time >= qt,
            forall|i: int|
                0 <= i < n ==> #[trigger] g.nodes@[i] == (if sources@.take(si as int).contains(
                    i as usize,
                ) {
                    with_seed(old(g).nodes@[i], seed_cost(old(g).nodes@[i], qt as int))
                } else {
                    old(g).nodes@[i]
                }),
        decreases ns - si,
    {
        let s = sources[si];
        let nd = g.nodes[s];
        proof {
            assert(node_static_eq(g.nodes@[s as int], old(g).nodes@[s as int])) by {
                if sources@.take(si as int).contains(s) {
                } else {
                }
            }
            assert(node_wf(old(g).nodes@[s as int]));
        }
        let c = (nd.departure_time - qt) + (nd.arrival_time - nd.departure_time);
        let mut newn = nd;
        newn.best_cost = Some(c as u64);
        g.nodes.set(s, newn);
        proof {
            assert(sources@.take(si as int + 1) =~= sources@.take(si as int).push(
                sources@[si as int],
            ));
            let older = old(g).nodes@;
            assert forall|i: int|
                0 <= i < n implies #[trigger] g.nodes@[i] == (if sources@.take(
                si as int + 1,
            ).contains(i as usize) {
                with_seed(older[i], seed_cost(older[i], qt as int))
            } else {
                older[i]
            }) by {
                if i == s as int {
                    assert(sources@.take(si as int + 1)[si as int] == s);
                    assert(sources@.take(si as int + 1).contains(s));
                    assert(newn == with_seed(older[i], seed_cost(older[i], qt as int)));
                } else {
                    assert(sources@.take(si as int + 1).contains(i as usize) == sources@.take(
                        si as int,
                    ).contains(i as usize));
                }
            }
        }
        si += 1;
    }

    let ghost init = g.nodes@;
    let ghost adjv = adj_view(g.adj@);
    proof {
        assert(sources@.take(ns as int) =~= sources@);
        assert(init =~= seeded(old(g).nodes@, sources@, qt as int));
        assert(same_static(init, old(g).nodes@));
        assert forall|i: int| 0 <= i < g.adj@.len() implies (#[trigger] g.adj@[i])@ == edge_seq(
            init,
            i,
            n as int,
        ) by {
            lemma_edge_seq_static(old(g).nodes@, init, i, n as int);
        }
        assert(costs_bounded(init, (1 + 2 * 0) * (SECONDS_PER_DAY as int)));
        assert(state_wf(init));
        assert(frontier_inv(init));
    }

    let mut step: usize = 0;
    while step < n
        invariant
            step <= n,
            n == g.nodes@.len() == old(g).nodes@.len() <= MAX_LEGS,
            g.adj == old(g).adj,
            g.wf(),
            state_wf(g.nodes@),
            frontier_inv(g.nodes@),
            same_static(g.nodes@, old(g).nodes@),
            costs_bounded(g.nodes@, (1 + 2 * (step as int)) * (SECONDS_PER_DAY as int)),
            adjv == adj_view(old(g).adj@),
            dijkstra_model(init, adjv, n as nat) == dijkstra_model(
                g.nodes@,
                adjv,
                (n - step) as nat,
            ),
        decreases n - step,
    {
        let ghost prev = g.nodes@;
        let r = visit_next(g, Ghost((1 + 2 * (step as int)) * (SECONDS_PER_DAY as int)));
        proof {
            let f = (n - step) as nat;
            assert(adj_view(g.adj@) == adjv);
            assert(same_static(g.nodes@, old(g).nodes@)) by {
                assert forall|i: int| 0 <= i < n implies node_static_eq(
                    #[trigger] g.nodes@[i],
                    old(g).nodes@[i],
                ) by {
                    assert(node_static_eq(g.nodes@[i], prev[i]));
                    assert(node_static_eq(prev[i], old(g).nodes@[i]));
                }
            }
            match r {
                Some(u) => {
                    assert(dijkstra_model(prev, adjv, f) == dijkstra_model(
                        visit_one(prev, adjv, u as int),
                        adjv,
                        (f - 1) as nat,
                    ));
                },
                None => {
                    assert(dijkstra_model(prev, adjv, f) == prev);
                    assert(dijkstra_model(g.nodes@, adjv, (f - 1) as nat) == g.nodes@);
                },
            }
        }
        step += 1;
    }

    proof {
        assert(dijkstra_model(g.nodes@, adjv, 0) == g.nodes@);
    }
}

} // verus!
