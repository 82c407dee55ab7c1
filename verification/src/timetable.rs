//! Scheduled trip legs: the raw timetable rows a query works on.
//!
//! A leg carries its times as optional `HH:MM:SS` strings, exactly as the
//! timetable source hands them over; a missing or malformed time, or an
//! arrival before the departure, makes the row malformed and aborts graph
//! construction.

use vstd::prelude::*;
use crate::time::{valid_time_str, time_seconds};

verus! {

/// Upper bound on the number of legs one query may hold. Keeping the node
/// count below this bound keeps every cost computed during relaxation well
/// inside `u64`.
pub const MAX_LEGS: usize = 0x1000_0000;

/// One scheduled, atomic trip segment between two places, with fixed
/// departure and arrival times within a single service day.
#[derive(Clone, Debug)]
pub struct Leg {
    /// Unique, stable ordering key of the leg.
    pub id: usize,
    /// The line this leg belongs to.
    pub line_id: usize,
    /// Place where the leg departs.
    pub origin_place_id: usize,
    /// Place where the leg arrives.
    pub destination_place_id: usize,
    /// Departure time of day as `HH:MM:SS`, when present.
    pub departure_time: Option<String>,
    /// Arrival time of day as `HH:MM:SS`, when present.
    pub arrival_time: Option<String>,
}

impl Leg {
    /// A leg as handed over by the timetable source.
    pub fn new(
        id: usize,
        line_id: usize,
        origin_place_id: usize,
        destination_place_id: usize,
        departure_time: Option<String>,
        arrival_time: Option<String>,
    ) -> (r: Leg)
        ensures
            r.id == id,
            r.line_id == line_id,
            r.origin_place_id == origin_place_id,
            r.destination_place_id == destination_place_id,
            r.departure_time == departure_time,
            r.arrival_time == arrival_time,
    {
        Leg { id, line_id, origin_place_id, destination_place_id, departure_time, arrival_time }
    }
}

/// The departure field is present and is a valid `HH:MM:SS` string.
pub open spec fn leg_dep_valid(leg: Leg) -> bool {
    leg.departure_time is Some && valid_time_str((leg.departure_time->Some_0)@)
}

/// The arrival field is present and is a valid `HH:MM:SS` string.
pub open spec fn leg_arr_valid(leg: Leg) -> bool {
    leg.arrival_time is Some && valid_time_str((leg.arrival_time->Some_0)@)
}

/// Departure time in seconds since midnight; meaningful when the field is
/// valid.
pub open spec fn leg_dep(leg: Leg) -> int {
    time_seconds((leg.departure_time->Some_0)@)
}

/// Arrival time in seconds since midnight; meaningful when the field is
/// valid.
pub open spec fn leg_arr(leg: Leg) -> int {
    time_seconds((leg.arrival_time->Some_0)@)
}

/// A well-formed timetable row: both times present and parsable, and the
/// arrival not before the departure. A numerically earlier arrival is a data
/// error, not an overnight leg.
pub open spec fn leg_wf(leg: Leg) -> bool {
    leg_dep_valid(leg) && leg_arr_valid(leg) && leg_dep(leg) <= leg_arr(leg)
}

/// A malformed timetable row was encountered while building the graph; the
/// whole build aborts rather than return a partial graph.
#[derive(Clone, Copy, Debug, PartialEq, Eq, Structural)]
pub struct DataError {
    /// Index of the first malformed leg in the timetable handed to the build.
    pub leg_index: usize,
}

} // verus!
