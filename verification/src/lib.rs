//! Vertex coloring for undirected graphs over signed integer vertex
//! identifiers.
//!
//! A [`Graph`] is built once from edge pairs and then consumed by three
//! coloring heuristics (greedy, recursive-largest-first cascade, DSatur),
//! each of which returns a color assignment covering every vertex together
//! with the number of colors used.

pub mod coloring;
mod graph;

pub use graph::Graph;
