//! Core of a transit heat-mapping engine: the timetable model built from
//! GTFS feeds, the earliest-arrival search over it, and the integer
//! bookkeeping that prepares the search results for the GPU renderer.

pub mod structs;
pub mod min_queue;
pub mod search;
pub mod culling;
pub mod dijkstra;
pub mod fields;
pub mod hashing;
pub mod timetable;
pub mod grid;
pub mod render_plan;
pub mod input;
pub mod loading;
pub mod feed;
