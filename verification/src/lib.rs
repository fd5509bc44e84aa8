//! Arithmetic circuits over a finite field: a circuit is built as a graph of
//! additions, multiplications and hints, its inputs are assigned, it is
//! evaluated level by level, and the pairs of nodes that were asserted equal
//! are checked.
//!
//! `field` holds the arithmetic, `circuit` the circuit as the contracts see
//! it, with its proofs in `circuit_build`, `circuit_eval` and `circuit_laws`.
//! The three builders differ in the values they compute with and in how they
//! evaluate: `builder` works on 32-bit words and `graph_builder` on the
//! elements of a field, both with a worker pool; `builder_single_thread` works
//! on the elements of a field, on one thread and without hints.

pub mod builder;
pub mod builder_single_thread;
pub mod circuit;
pub mod circuit_build;
pub mod circuit_eval;
pub mod circuit_laws;
pub mod error;
pub mod field;
pub mod graph_builder;
pub mod node;
pub mod parallel;
pub mod report;
