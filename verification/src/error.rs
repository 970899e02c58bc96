//! The errors that the engine reports.

use vstd::prelude::*;

verus! {

/// An error of the scheduler or of the trace that it drives.
#[derive(Clone, Copy, Debug, PartialEq, Eq, Structural)]
pub enum SchedulerError {
    /// A batch was handed to a trace whose upper bound is not the lower bound
    /// of the batch.
    NonContiguousBatch,
    /// A nested circuit did not reach a fixed point within the bound on its
    /// iterations.
    FixedPointNotReached,
    /// The circuit has a cycle that does not pass through a delay.
    CyclicCircuit,
}

/// An error in the bytes of a stored batch.
#[derive(Clone, Copy, Debug, PartialEq, Eq, Structural)]
pub enum IoError {
    /// The bytes end before the format tag does.
    ShortRead,
    /// The format tag is not the one that this library writes.
    UnknownFormat,
    /// The bytes after the tag are not the encoding of a valid batch.
    Corrupt,
}

} // verus!
