//! An incremental view maintenance engine over Z-sets.
//!
//! Every collection is a signed multiset: a finite map from records to
//! weights, with zero weights elided.  Operators consume changes to their
//! inputs and emit the matching changes to their outputs, so that the sum of
//! the outputs over all steps equals what a from-scratch evaluation over the
//! sum of the inputs gives.
//!
//! The library holds
//!
//! - the algebra of weights and Z-sets ([`algebra`]) and the lattice of
//!   timestamps with the antichains that bound batches ([`time`]);
//! - the trace storage ([`trace`]): batches with their builders, batchers and
//!   mergers, the cursor protocol, the fuelled spine and the binary encoding
//!   of batches;
//! - the operator kernels ([`operator`]): integration and differentiation,
//!   join, distinct, aggregation and the partitioned rolling aggregate;
//! - the static schedule of a circuit, the detection of fixed points of
//!   nested circuits and the assignment of keys to workers ([`circuit`]).
//!
//! Executable code carries contracts stated over mathematical models: a
//! batch is the sequence of its weighted tuples, and a sequence of weighted
//! tuples stands for the function that gives each tuple the sum of its
//! weights.
//!
//! Weights are machine integers with wrapping arithmetic, which makes them a
//! commutative ring.  Sums of payloads in aggregates are widened to 128 bits
//! and saturate there.

pub mod algebra;
pub mod circuit;
pub mod error;
pub mod operator;
pub mod time;
pub mod trace;
