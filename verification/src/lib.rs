//! A reverse-mode automatic-differentiation engine over scalar values, plus a
//! small feed-forward network (neuron / layer / multi-layer perceptron) built
//! on top of it.
//!
//! Scalar payloads are opaque 64-bit words: the engine never interprets them.
//! All arithmetic is supplied by the caller as operation closures, so the
//! verified core is exactly the computation graph: its construction, its
//! topological traversal, and the dispatch of one local gradient rule per
//! operation.

pub mod entity;
pub mod graph;
pub mod laws;
pub mod map;
pub mod model;
pub mod mutation;
pub mod nn;
