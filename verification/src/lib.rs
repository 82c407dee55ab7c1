//! Time-dependent earliest-arrival route search over a transit timetable.
//!
//! A timetable is a list of scheduled trip legs between places. Given an
//! origin place, a destination place and a requested departure time, the
//! library builds a graph of legs connected by feasibility-respecting edges,
//! runs a multi-source shortest-path relaxation over it, and reconstructs a
//! bounded, deterministically ordered list of distinct itineraries.

pub mod time;
pub mod timetable;
pub mod graph;
pub mod pathfinder;
pub mod reconstruct;
pub mod service;
pub mod session;
