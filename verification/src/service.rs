//! The route search service: validates the query, selects source and
//! destination legs, and runs graph construction, relaxation and path
//! reconstruction, mapping each internal outcome to a caller-facing
//! category.

use vstd::prelude::*;
use crate::time::{parse_time, valid_time_str, time_seconds, lemma_time_seconds_bounds};
use crate::timetable::{Leg, leg_wf, leg_dep, leg_dep_valid, MAX_LEGS};
use crate::graph::{Graph, node_seq, node_of_leg, adj_model, edge_seq};
use crate::pathfinder::{relax, seeded, dijkstra_model, adj_view, fresh_state};
use crate::reconstruct::{
    extract, extract_model, Itinerary, itins_view, sorted_items, distinct_paths,
};

verus! {

/// Path parameters of one search request, as the HTTP layer hands them
/// over: origin and destination place ids and the departure time string.
#[derive(Clone, Debug)]
pub struct Slug {
    /// Requested origin place.
    pub from_place_id: i32,
    /// Requested destination place.
    pub to_place_id: i32,
    /// Requested departure time as `HH:MM:SS`.
    pub departure_time: String,
}

/// A plain message response.
#[derive(Clone, Debug)]
pub struct Res {
    /// Human-readable message.
    pub msg: String,
}

/// Caller-facing failure categories of one search.
#[derive(Clone, Copy, Debug, PartialEq, Eq, Structural)]
pub enum SearchError {
    /// The departure time is not a valid `HH:MM:SS` time of day.
    InvalidInput,
    /// The query is well formed but no feasible itinerary exists.
    NoRoute,
    /// The timetable holds a malformed row; no partial answer is given.
    Internal,
}

/// A leg is a source of the query: it departs from the requested origin
/// place, carries a valid departure time, and departs no earlier than the
/// requested time.
pub open spec fn is_source_leg(leg: Leg, from: usize, qt: int) -> bool {
    leg.origin_place_id == from && leg_dep_valid(leg) && leg_dep(leg) >= qt
}

/// A leg is a destination of the query: it arrives at the requested place.
pub open spec fn is_dest_leg(leg: Leg, to: usize) -> bool {
    leg.destination_place_id == to
}

/// Indices of the source legs among the first `k`, in increasing order.
pub open spec fn source_indices(legs: Seq<Leg>, from: usize, qt: int, k: int) -> Seq<usize>
    decreases k,
{
    if k <= 0 {
        Seq::empty()
    } else {
        let prefix = source_indices(legs, from, qt, k - 1);
        if is_source_leg(legs[k - 1], from, qt) {
            prefix.push((k - 1) as usize)
        } else {
            prefix
        }
    }
}

/// Indices of the destination legs among the first `k`, in increasing order.
pub open spec fn dest_indices(legs: Seq<Leg>, to: usize, k: int) -> Seq<usize>
    decreases k,
{
    if k <= 0 {
        Seq::empty()
    } else {
        let prefix = dest_indices(legs, to, k - 1);
        if is_dest_leg(legs[k - 1], to) {
            prefix.push((k - 1) as usize)
        } else {
            prefix
        }
    }
}

/// Every selected source index is in range and names a source leg.
pub proof fn lemma_source_indices_props(legs: Seq<Leg>, from: usize, qt: int, k: int)
    requires
        legs.len() <= MAX_LEGS,
        0 <= k <= legs.len(),
    ensures
        forall|m: int| 0 <= m < source_indices(legs, from, qt, k).len() ==> (
        #[trigger] source_indices(legs, from, qt, k)[m]) < k && is_source_leg(
            legs[source_indices(legs, from, qt, k)[m] as int],
            from,
            qt,
        ),
    decreases k,
{
    if k > 0 {
        lemma_source_indices_props(legs, from, qt, k - 1);
        let prefix = source_indices(legs, from, qt, k - 1);
        let s = source_indices(legs, from, qt, k);
        if is_source_leg(legs[k - 1], from, qt) {
            assert forall|m: int| 0 <= m < s.len() implies (#[trigger] s[m]) < k && is_source_leg(
                legs[s[m] as int],
                from,
                qt,
            ) by {
                if m < prefix.len() {
                    assert(s[m] == prefix[m]);
                } else {
                    assert(s[m] == (k - 1) as usize);
                }
            }
        }
    }
}

/// Every selected destination index is in range and names a destination leg.
pub proof fn lemma_dest_indices_props(legs: Seq<Leg>, to: usize, k: int)
    requires
        legs.len() <= MAX_LEGS,
        0 <= k <= legs.len(),
    ensures
        forall|m: int| 0 <= m < dest_indices(legs, to, k).len() ==> (#[trigger] dest_indices(
            legs,
            to,
            k,
        )[m]) < k && is_dest_leg(legs[dest_indices(legs, to, k)[m] as int], to),
    decreases k,
{
    if k > 0 {
        lemma_dest_indices_props(legs, to, k - 1);
        let prefix = dest_indices(legs, to, k - 1);
        let s = dest_indices(legs, to, k);
        if is_dest_leg(legs[k - 1], to) {
            assert forall|m: int| 0 <= m < s.len() implies (#[trigger] s[m]) < k && is_dest_leg(
                legs[s[m] as int],
                to,
            ) by {
                if m < prefix.len() {
                    assert(s[m] == prefix[m]);
                } else {
                    assert(s[m] == (k - 1) as usize);
                }
            }
        }
    }
}

/// What one search returns, as a function of the query alone: an invalid
/// departure time is rejected; a query with no source or no destination leg
/// has no route; a malformed timetable row is an internal failure; otherwise
/// the graph is built, relaxed and read back, and an empty extraction is
/// reported as no route.
pub open spec fn search_model(
    legs: Seq<Leg>,
    from: usize,
    to: usize,
    time: Seq<char>,
    limit: usize,
) -> Result<Seq<(Seq<usize>, u64)>, SearchError> {
    if !valid_time_str(time) {
        Err(SearchError::InvalidInput)
    } else {
        let qt = time_seconds(time);
        let sources = source_indices(legs, from, qt, legs.len() as int);
        let dests = dest_indices(legs, to, legs.len() as int);
        if sources.len() == 0 || dests.len() == 0 {
            Err(SearchError::NoRoute)
        } else if exists|i: int| 0 <= i < legs.len() && !leg_wf(#[trigger] legs[i]) {
            Err(SearchError::Internal)
        } else {
            let nodes = node_seq(legs);
            let relaxed = dijkstra_model(seeded(nodes, sources, qt), adj_model(nodes), legs.len());
            match extract_model(relaxed, sources, dests, limit) {
                Err(_) => Err(SearchError::NoRoute),
                Ok(items) => Ok(items),
            }
        }
    }
}

/// Orchestrates one route search request end to end; the sole entry point
/// of the engine.
pub struct RouteSearchService {
    /// Bound on the number of itineraries one search returns.
    pub limit: usize,
}

impl RouteSearchService {
    /// A service returning at most `limit` itineraries per search.
    pub fn new(limit: usize) -> (r: RouteSearchService)
        ensures
            r.limit == limit,
    {
        RouteSearchService { limit }
    }

    /// Computes the minimum-duration itineraries from `from_place_id` to
    /// `to_place_id` departing at `departure_time` or later, against the
    /// timetable snapshot `legs`. The result equals [`search_model`] of the
    /// query; on success the list is ranked by ascending cost with a
    /// deterministic tie-break, free of repeated leg sequences, and holds at
    /// most `limit` itineraries.
    pub fn search(
        &self,
        legs: &Vec<Leg>,
        from_place_id: usize,
        to_place_id: usize,
        departure_time: &str,
    ) -> (r: Result<Vec<Itinerary>, SearchError>)
        requires
            legs@.len() <= MAX_LEGS,
        ensures
            (match r {
                Ok(v) => {
                    &&& search_model(
                        legs@,
                        from_place_id,
                        to_place_id,
                        departure_time@,
                        self.limit,
                    ) == Ok::<_, SearchError>(itins_view(v@))
                    &&& v@.len() <= self.limit
                    &&& sorted_items(itins_view(v@))
                    &&& distinct_paths(itins_view(v@))
                },
                Err(e) => search_model(
                    legs@,
                    from_place_id,
                    to_place_id,
                    departure_time@,
                    self.limit,
                ) == Err::<Seq<(Seq<usize>, u64)>, _>(e),
            }),
            // An invalid departure time is rejected, and nothing else is.
            (r == Err::<Vec<Itinerary>, SearchError>(SearchError::InvalidInput) <==> !valid_time_str(
                departure_time@,
            )),
            // No route means `NoRoute`: without a leg departing from the
            // requested origin place the search reports `NoRoute`.
            (valid_time_str(departure_time@) && (forall|i: int|
                0 <= i < legs@.len() ==> (#[trigger] legs@[i]).origin_place_id != from_place_id)
                ==> r == Err::<Vec<Itinerary>, SearchError>(SearchError::NoRoute)),
    {
        proof {
            if valid_time_str(departure_time@) && (forall|i: int|
                0 <= i < legs@.len() ==> (#[trigger] legs@[i]).origin_place_id != from_place_id) {
                lemma_no_origin_no_route(
                    legs@,
                    from_place_id,
                    to_place_id,
                    departure_time@,
                    self.limit,
                );
            }
        }
        let qt = match parse_time(departure_time) {
            Some(q) => q,
            None => {
                return Err(SearchError::InvalidInput);
            },
        };
        let ghost qti = time_seconds(departure_time@);

        let n = legs.len();
        let mut sources: Vec<usize> = Vec::new();
        let mut i: usize = 0;
        while i < n
            invariant
                n == legs@.len(),
                i <= n,
                qt == qti && qti == time_seconds(departure_time@),
                valid_time_str(departure_time@),
                sources@ == source_indices(legs@, from_place_id, qti, i as int),
            decreases n - i,
        {
            let leg = &legs[i];
            let mut take_it = false;
            if leg.origin_place_id == from_place_id {
                match &leg.departure_time {
                    Some(sdep) => {
                        match parse_time(sdep.as_str()) {
                            Some(d) => {
                                if d >= qt {
                                    take_it = true;
                                }
                            },
                            None => {},
                        }
                    },
                    None => {},
                }
            }
            proof {
                assert(take_it == is_source_leg(legs@[i as int], from_place_id, qti));
            }
            if take_it {
                sources.push(i);
            }
            i += 1;
        }

        let mut dests: Vec<usize> = Vec::new();
        let mut j: usize = 0;
        while j < n
            invariant
                n == legs@.len(),
                j <= n,
                dests@ == dest_indices(legs@, to_place_id, j as int),
            decreases n - j,
        {
            if legs[j].destination_place_id == to_place_id {
                dests.push(j);
            }
            j += 1;
        }

        if sources.len() == 0 || dests.len() == 0 {
            return Err(SearchError::NoRoute);
        }

        let mut graph = match Graph::build(legs) {
            Ok(g) => g,
            Err(e) => {
                proof {
                    assert(!leg_wf(legs@[e.leg_index as int]));
                }
                return Err(SearchError::Internal);
            },
        };

        proof {
            assert(fresh_state(graph.nodes@)) by {
                assert forall|m: int| 0 <= m < graph.nodes@.len() implies {
                    &&& (#[trigger] graph.nodes@[m]).best_cost is None
                    &&& graph.nodes@[m].predecessor is None
                    &&& !graph.nodes@[m].visited
                } by {
                    assert(graph.nodes@[m] == node_of_leg(legs@[m]));
                }
            }
            lemma_source_indices_props(legs@, from_place_id, qti, n as int);
            lemma_dest_indices_props(legs@, to_place_id, n as int);
            assert forall|k: int| 0 <= k < sources@.len() implies (#[trigger] sources@[k]) < n
                && graph.nodes@[sources@[k] as int].departure_time >= qt by {
                let idx = sources@[k] as int;
                assert(is_source_leg(legs@[idx], from_place_id, qti));
                lemma_time_seconds_bounds((legs@[idx].departure_time->Some_0)@);
                assert(graph.nodes@[idx] == node_of_leg(legs@[idx]));
            }
        }

        let ghost nodes0 = graph.nodes@;
        let ghost adj0 = graph.adj@;
        relax(&mut graph, &sources, qt);

        proof {
            assert(adj_view(adj0) =~= adj_model(nodes0)) by {
                assert forall|m: int| 0 <= m < n implies adj_view(adj0)[m] == adj_model(nodes0)[m] by {
                    assert(adj_view(adj0)[m] == adj0[m]@);
                    assert(adj0[m]@ == edge_seq(nodes0, m, n as int));
                }
            }
            assert(graph.nodes@ == dijkstra_model(
                seeded(node_seq(legs@), source_indices(legs@, from_place_id, qti, n as int), qti),
                adj_model(node_seq(legs@)),
                n as nat,
            ));
        }

        let result = match extract(&graph, &sources, &dests, self.limit) {
            Ok(v) => v,
            Err(_) => {
                return Err(SearchError::NoRoute);
            },
        };
        Ok(result)
    }
}

/// No route means `NoRoute`: a timetable without a single leg departing
/// from the requested origin place makes the search report `NoRoute`.
pub proof fn lemma_no_origin_no_route(
    legs: Seq<Leg>,
    from: usize,
    to: usize,
    time: Seq<char>,
    limit: usize,
)
    requires
        valid_time_str(time),
        forall|i: int| 0 <= i < legs.len() ==> (#[trigger] legs[i]).origin_place_id != from,
    ensures
        search_model(legs, from, to, time, limit) == Err::<Seq<(Seq<usize>, u64)>, _>(
            SearchError::NoRoute,
        ),
{
    let qt = time_seconds(time);
    lemma_source_indices_empty(legs, from, qt, legs.len() as int);
}

/// Without a source leg the source index list is empty.
proof fn lemma_source_indices_empty(legs: Seq<Leg>, from: usize, qt: int, k: int)
    requires
        0 <= k <= legs.len(),
        forall|i: int| 0 <= i < legs.len() ==> (#[trigger] legs[i]).origin_place_id != from,
    ensures
        source_indices(legs, from, qt, k).len() == 0,
    decreases k,
{
    if k > 0 {
        lemma_source_indices_empty(legs, from, qt, k - 1);
    }
}

/// Determinism: one query against one timetable snapshot has exactly one
/// answer, so two runs of the search return identical ordered itinerary
/// lists.
pub proof fn lemma_search_deterministic(
    legs: Seq<Leg>,
    from: usize,
    to: usize,
    time: Seq<char>,
    limit: usize,
    r1: Result<Seq<(Seq<usize>, u64)>, SearchError>,
    r2: Result<Seq<(Seq<usize>, u64)>, SearchError>,
)
    requires
        r1 == search_model(legs, from, to, time, limit),
        r2 == search_model(legs, from, to, time, limit),
    ensures
        r1 == r2,
{
}

} // verus!
