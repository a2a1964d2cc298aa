//! A weighted directed graph with Prim's minimum spanning tree and an
//! augmenting-path maximum flow, together with the front end of a small
//! calculator and the life cycle of a service. Every function carries a
//! contract, and Verus proves each of them but those of [`store`], on which
//! the others rest.
//!
//! - [`model`]: the plain values and the mathematical model of the graph.
//! - [`store`]: the storage of nodes and arcs, whose behaviour is stated and
//!   not proved.
//! - [`graph`]: the graph, built from nodes and arcs.
//! - [`heap`], [`mst`], [`mst_laws`]: the minimum spanning tree and what holds
//!   of it.
//! - [`paths`], [`flow`], [`flow_laws`]: shortest augmenting paths, the
//!   maximum flow, and what holds of both.
//! - [`parser`]: tokens, and the steps that compute an expression.
//! - [`lifecycle`]: starting and stopping.

pub mod model;
pub mod store;
pub mod heap;
pub mod graph;
pub mod mst;
pub mod mst_laws;
pub mod paths;
pub mod flow;
pub mod flow_laws;
pub mod parser;
pub mod lifecycle;
