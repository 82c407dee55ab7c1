//! Graph construction: causality of the edge relation and data errors.

use route_search::graph::{Graph, Node};
use route_search::timetable::Leg;

fn leg(id: usize, from: usize, to: usize, dep: &str, arr: &str) -> Leg {
    Leg::new(id, 1, from, to, Some(String::from(dep)), Some(String::from(arr)))
}

#[test]
fn feasible_pair_gets_an_edge_with_transit_weight() {
    let legs = vec![
        leg(1, 10, 20, "09:00:00", "09:30:00"),
        leg(2, 20, 30, "09:45:00", "10:15:00"),
    ];
    let g = Graph::build(&legs).unwrap();
    assert_eq!(g.nodes.len(), 2);
    assert_eq!(g.adj.len(), 2);
    // The one edge goes from the first leg to the second, weighted with the
    // second leg's travel duration.
    assert_eq!(g.adj[0].len(), 1);
    assert_eq!(g.adj[0][0].to, 1);
    assert_eq!(g.adj[0][0].weight, 1800);
    assert_eq!(g.adj[1].len(), 0);
}

#[test]
fn infeasible_pair_gets_no_edge() {
    // The second leg departs the transfer stop before the first arrives.
    let legs = vec![
        leg(1, 10, 20, "09:00:00", "09:30:00"),
        leg(3, 20, 30, "09:15:00", "09:45:00"),
    ];
    let g = Graph::build(&legs).unwrap();
    assert_eq!(g.adj[0].len(), 0);
    assert_eq!(g.adj[1].len(), 0);
}

#[test]
fn departure_equal_to_arrival_is_feasible() {
    let legs = vec![
        leg(1, 10, 20, "09:00:00", "09:30:00"),
        leg(2, 20, 30, "09:30:00", "10:00:00"),
    ];
    let g = Graph::build(&legs).unwrap();
    assert_eq!(g.adj[0].len(), 1);
    assert_eq!(g.adj[0][0].to, 1);
}

#[test]
fn nodes_start_without_search_state() {
    let legs = vec![leg(1, 10, 20, "09:00:00", "09:30:00")];
    let g = Graph::build(&legs).unwrap();
    assert_eq!(g.nodes[0].id, 1);
    assert_eq!(g.nodes[0].origin_place_id, 10);
    assert_eq!(g.nodes[0].destination_place_id, 20);
    assert_eq!(g.nodes[0].departure_time, 32400);
    assert_eq!(g.nodes[0].arrival_time, 34200);
    assert_eq!(g.nodes[0].best_cost, None);
    assert_eq!(g.nodes[0].predecessor, None);
    assert!(!g.nodes[0].visited);
}

#[test]
fn build_reports_first_malformed_row() {
    let legs = vec![
        leg(1, 10, 20, "09:00:00", "09:30:00"),
        leg(2, 20, 30, "10:00:00", "09:00:00"),
        Leg::new(3, 1, 30, 40, None, Some(String::from("11:00:00"))),
    ];
    let e = Graph::build(&legs).unwrap_err();
    assert_eq!(e.leg_index, 1);
}

#[test]
fn build_rejects_missing_and_unparsable_times() {
    let missing = vec![Leg::new(1, 1, 10, 20, None, Some(String::from("09:30:00")))];
    assert_eq!(Graph::build(&missing).unwrap_err().leg_index, 0);

    let unparsable = vec![leg(1, 10, 20, "soon", "09:30:00")];
    assert_eq!(Graph::build(&unparsable).unwrap_err().leg_index, 0);
}

#[test]
fn node_new_sets_schedule_and_clears_state() {
    let n = Node::new(4, 10, 20, 100, 200);
    assert_eq!(n.id, 4);
    assert_eq!(n.origin_place_id, 10);
    assert_eq!(n.destination_place_id, 20);
    assert_eq!(n.departure_time, 100);
    assert_eq!(n.arrival_time, 200);
    assert_eq!(n.best_cost, None);
    assert_eq!(n.predecessor, None);
    assert!(!n.visited);
}
