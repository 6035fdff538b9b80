//! A layering and edge-routing engine for directed control-flow graphs.
//!
//! The input is an abstract graph: nodes with stable ids, a title and text
//! lines, directed edges (cycles, self-loops and parallel edges allowed),
//! and one entry node. The output is a deterministic assignment of the
//! reachable nodes to ordered rows, a rectangle for every placed node, and
//! a cubic bezier curve with an arrowhead polygon for every edge, all in
//! exact integer units, ready for any drawing surface.

pub mod layering;
pub mod model;
pub mod layout;
pub mod pipeline;
pub mod routing;
pub mod sizing;
