//! Cheapest-route queries over a multi-line transit network.
//!
//! Station and line names are interned into dense indices; the route search
//! (Dijkstra with tentative records and finalized flags) and the grouping of a
//! route into per-line segments work on those indices and are proved correct
//! against the walk model in [`graph`].

pub mod lines;
pub mod graph;
pub mod search;
pub mod path;
