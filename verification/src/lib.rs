//! Approximate nearest-neighbour search over a hierarchical navigable
//! small-world graph, with machine-checked contracts.
//!
//! An index holds vectors of a fixed dimension and a layered graph over
//! them. Every layer links each of its nodes to a bounded number of near
//! nodes; the higher a layer, the fewer nodes stand at it. A search walks
//! down from the entry point at the top to the lowest layer and runs a beam
//! search there.
//!
//! * [`model`] is the index as a mathematical value and says when it is well
//!   formed: every edge runs both ways and carries its distance, every
//!   neighbour list is in order and within its bound.
//! * [`hnsw`] is the index itself; [`insert`] and [`search`] are its two
//!   operations, built on [`descent`], [`beam`] and [`select`].
//! * [`metric`] and [`element`] say what a distance and an element of a
//!   vector are; [`store`] holds the vectors, in memory or in a data stream
//!   that it reads in place.
//! * [`codec`], [`load`] and [`dump`] write an index as two streams of bytes
//!   and read it back; [`graph_stream`], [`data_stream`] and [`words`] are
//!   their layouts.
//! * [`api`] is the surface for callers who hold an index without knowing
//!   its kind.

pub mod api;
pub mod beam;
pub mod codec;
pub mod data_stream;
pub mod descent;
pub mod dump;
pub mod edge;
pub mod element;
pub mod error;
pub mod graph_stream;
pub mod hnsw;
pub mod insert;
pub mod level;
pub mod load;
pub mod metric;
pub mod model;
pub mod search;
pub mod select;
pub mod store;
pub mod validate;
pub mod words;
