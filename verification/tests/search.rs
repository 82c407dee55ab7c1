//! End-to-end scenarios of the route search service.

use route_search::service::{RouteSearchService, SearchError};
use route_search::timetable::Leg;

fn leg(id: usize, line: usize, from: usize, to: usize, dep: &str, arr: &str) -> Leg {
    Leg::new(id, line, from, to, Some(String::from(dep)), Some(String::from(arr)))
}

#[test]
fn direct_leg_scenario() {
    // One leg A -> B departing 09:00:00, arriving 09:30:00; query at 08:00:00.
    let legs = vec![leg(1, 1, 10, 20, "09:00:00", "09:30:00")];
    let svc = RouteSearchService::new(20);
    let r = svc.search(&legs, 10, 20, "08:00:00").unwrap();
    assert_eq!(r.len(), 1);
    assert_eq!(r[0].legs, vec![1]);
    // 3600 s wait at the origin plus 1800 s on the leg.
    assert_eq!(r[0].total_cost, 5400);
}

#[test]
fn two_hop_scenario() {
    // L1: A -> B 09:00-09:30, L2: B -> C 09:45-10:15; query A -> C at 09:00:00.
    let legs = vec![
        leg(1, 1, 10, 20, "09:00:00", "09:30:00"),
        leg(2, 2, 20, 30, "09:45:00", "10:15:00"),
    ];
    let svc = RouteSearchService::new(20);
    let r = svc.search(&legs, 10, 30, "09:00:00").unwrap();
    assert_eq!(r.len(), 1);
    assert_eq!(r[0].legs, vec![1, 2]);
    // 0 s wait + 1800 s ride + 900 s transfer wait + 1800 s ride.
    assert_eq!(r[0].total_cost, 4500);
}

#[test]
fn infeasible_transfer_is_excluded() {
    // L3 departs B at 09:15, before L1 arrives there at 09:30: no edge, no route.
    let legs = vec![
        leg(1, 1, 10, 20, "09:00:00", "09:30:00"),
        leg(3, 2, 20, 30, "09:15:00", "09:45:00"),
    ];
    let svc = RouteSearchService::new(20);
    let r = svc.search(&legs, 10, 30, "09:00:00");
    assert_eq!(r, Err(SearchError::NoRoute));
}

#[test]
fn no_leg_at_origin_means_no_route() {
    let legs = vec![leg(1, 1, 20, 30, "09:00:00", "09:30:00")];
    let svc = RouteSearchService::new(20);
    let r = svc.search(&legs, 10, 30, "08:00:00");
    assert_eq!(r, Err(SearchError::NoRoute));
}

#[test]
fn empty_timetable_means_no_route() {
    let legs: Vec<Leg> = Vec::new();
    let svc = RouteSearchService::new(20);
    let r = svc.search(&legs, 10, 20, "08:00:00");
    assert_eq!(r, Err(SearchError::NoRoute));
}

#[test]
fn all_departures_too_early_means_no_route() {
    // A leg from the origin exists but departs before the requested time.
    let legs = vec![leg(1, 1, 10, 20, "07:00:00", "07:30:00")];
    let svc = RouteSearchService::new(20);
    let r = svc.search(&legs, 10, 20, "08:00:00");
    assert_eq!(r, Err(SearchError::NoRoute));
}

#[test]
fn unparsable_departure_time_is_invalid_input() {
    let legs = vec![leg(1, 1, 10, 20, "09:00:00", "09:30:00")];
    let svc = RouteSearchService::new(20);
    assert_eq!(svc.search(&legs, 10, 20, "9am"), Err(SearchError::InvalidInput));
    assert_eq!(svc.search(&legs, 10, 20, "25:00:00"), Err(SearchError::InvalidInput));
    assert_eq!(svc.search(&legs, 10, 20, ""), Err(SearchError::InvalidInput));
}

#[test]
fn malformed_timetable_row_is_internal() {
    // The second row arrives before it departs: the whole build aborts.
    let legs = vec![
        leg(1, 1, 10, 20, "09:00:00", "09:30:00"),
        leg(2, 2, 20, 30, "10:00:00", "09:00:00"),
    ];
    let svc = RouteSearchService::new(20);
    let r = svc.search(&legs, 10, 20, "08:00:00");
    assert_eq!(r, Err(SearchError::Internal));
}

#[test]
fn missing_time_field_is_internal() {
    let legs = vec![
        leg(1, 1, 10, 20, "09:00:00", "09:30:00"),
        Leg::new(2, 2, 20, 30, None, Some(String::from("10:00:00"))),
    ];
    let svc = RouteSearchService::new(20);
    let r = svc.search(&legs, 10, 20, "08:00:00");
    assert_eq!(r, Err(SearchError::Internal));
}

#[test]
fn search_is_deterministic() {
    let legs = vec![
        leg(1, 1, 10, 20, "09:00:00", "09:30:00"),
        leg(2, 2, 20, 30, "09:45:00", "10:15:00"),
        leg(3, 3, 10, 20, "08:30:00", "09:10:00"),
        leg(4, 4, 20, 30, "09:20:00", "09:50:00"),
    ];
    let svc = RouteSearchService::new(20);
    let r1 = svc.search(&legs, 10, 30, "08:00:00").unwrap();
    let r2 = svc.search(&legs, 10, 30, "08:00:00").unwrap();
    assert_eq!(r1, r2);
}

#[test]
fn results_are_ranked_and_capped() {
    // Three direct legs A -> B; with limit 2 only the two cheapest return.
    let legs = vec![
        leg(1, 1, 10, 20, "09:00:00", "09:30:00"),
        leg(2, 2, 10, 20, "10:00:00", "10:30:00"),
        leg(3, 3, 10, 20, "08:30:00", "09:10:00"),
    ];
    let svc = RouteSearchService::new(2);
    let r = svc.search(&legs, 10, 20, "08:00:00").unwrap();
    assert_eq!(r.len(), 2);
    assert_eq!(r[0].legs, vec![3]);
    assert_eq!(r[0].total_cost, 4200);
    assert_eq!(r[1].legs, vec![1]);
    assert_eq!(r[1].total_cost, 5400);
}

#[test]
fn equal_costs_break_ties_by_leg_ids() {
    // Two legs with identical times; the smaller leg id ranks first.
    let legs = vec![
        leg(5, 1, 10, 20, "09:00:00", "09:30:00"),
        leg(3, 2, 10, 20, "09:00:00", "09:30:00"),
    ];
    let svc = RouteSearchService::new(20);
    let r = svc.search(&legs, 10, 20, "08:00:00").unwrap();
    assert_eq!(r.len(), 2);
    assert_eq!(r[0].legs, vec![3]);
    assert_eq!(r[1].legs, vec![5]);
    assert_eq!(r[0].total_cost, 5400);
    assert_eq!(r[1].total_cost, 5400);
}

#[test]
fn coinciding_leg_sequences_are_deduplicated() {
    // Two identical rows under one leg id yield one itinerary, not two.
    let legs = vec![
        leg(7, 1, 10, 20, "09:00:00", "09:30:00"),
        leg(7, 1, 10, 20, "09:00:00", "09:30:00"),
    ];
    let svc = RouteSearchService::new(20);
    let r = svc.search(&legs, 10, 20, "08:00:00").unwrap();
    assert_eq!(r.len(), 1);
    assert_eq!(r[0].legs, vec![7]);
}

#[test]
fn cheapest_of_two_routes_ranks_first() {
    // Two ways from A to C: a slow early connection and a faster later one.
    let legs = vec![
        leg(1, 1, 10, 20, "09:00:00", "09:30:00"),
        leg(2, 2, 20, 30, "09:45:00", "10:15:00"),
        leg(3, 3, 10, 20, "08:30:00", "09:10:00"),
        leg(4, 4, 20, 30, "09:20:00", "09:50:00"),
    ];
    let svc = RouteSearchService::new(20);
    let r = svc.search(&legs, 10, 30, "08:00:00").unwrap();
    // Via legs 3 and 4: arrival 09:50, cost 09:50 - 08:00 = 6600 s.
    // Via legs 1 and 2 (or 3 and 2): arrival 10:15, cost 8100 s.
    assert!(r.len() >= 2);
    assert_eq!(r[0].legs, vec![3, 4]);
    assert_eq!(r[0].total_cost, 6600);
    assert!(r[1].total_cost >= r[0].total_cost);
}

#[test]
fn zero_limit_returns_empty_list_when_routes_exist() {
    // A reachable destination is not a "no route" outcome even under a zero
    // cap; the list is merely truncated to nothing.
    let legs = vec![leg(1, 1, 10, 20, "09:00:00", "09:30:00")];
    let svc = RouteSearchService::new(0);
    let r = svc.search(&legs, 10, 20, "08:00:00").unwrap();
    assert_eq!(r.len(), 0);
}
