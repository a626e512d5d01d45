//! Timetable search over a GTFS-style transit feed.
//!
//! The library answers one question: given a fuzzy origin name, a fuzzy
//! destination name and a reference instant, which services connect the two,
//! and in what order? It reads the five tabular feed files (stops,
//! stop_times, trips, routes, calendar) from bytes handed in by the caller
//! and runs a six-stage join/filter pipeline over them.

pub mod csv;
pub mod dict;
pub mod gtfs;
pub mod model;
pub mod parse;
pub mod search;
pub mod text;
