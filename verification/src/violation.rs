//! The ways in which a caller can break the progress protocol.

use vstd::prelude::*;

verus! {

/// A breach of the rules that progress tracking depends on. None of them can
/// be repaired locally: whoever drives the computation is expected to stop.
#[derive(Clone, Copy, Debug, PartialEq, Eq, Structural)]
pub enum ProtocolViolation {
    /// A capability was to be downgraded to a time that is not at or after
    /// its own.
    DowngradeBackward,
    /// An input was to be advanced to a time that is not at or after its
    /// current one.
    AdvanceBackward,
    /// A loop was to be closed without moving time forward on each pass.
    NonIncreasingFeedback,
    /// A capability was presented that its output does not hold: it belongs
    /// to another output, or no copy for its time is live.
    UnknownCapability,
    /// Records were to be sent at a time that the presented capability does
    /// not cover.
    TimeNotCovered,
    /// An operator, an input, an instance or a stream was named that the
    /// dataflow lacks, or an operator was asked for what only operators of
    /// another kind do.
    UnknownEndpoint,
}

} // verus!
