//! The ways an operation on the canvas can fail.

use vstd::prelude::*;

verus! {

/// Why an operation was refused. A refused operation leaves the canvas as
/// it was.
#[derive(Debug, Clone, Copy, PartialEq, Eq, Structural, Hash)]
pub enum CanvasError {
    /// A pixel to erase was not there with the recorded color, or a
    /// position to draw at was already taken: the command log and the
    /// pixel store do not belong together.
    ConsistencyViolation,
    /// The bytes are not a complete, well-formed persisted canvas.
    DecodeFailure,
    /// The canvas could not be written in the persisted form.
    EncodeFailure,
}

} // verus!
