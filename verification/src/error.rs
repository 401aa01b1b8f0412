//! The error kinds the codec surfaces. There is no silent recovery: apart
//! from [`EtchError::Exhausted`], which the frame codec consumes internally as
//! the "payload ended here" signal, every kind aborts the current encode or
//! decode.

use vstd::prelude::*;

verus! {

#[derive(Clone, Copy, PartialEq, Eq, Structural, Debug)]
pub enum EtchError {
    /// An encode was asked to embed zero bytes.
    EmptyPayload,
    /// The block/frame-size relation is invalid, or a buffer does not match
    /// the declared frame dimensions.
    Geometry,
    /// Internal signal from the block codec: the payload ended on this block.
    Exhausted,
    /// The instruction frame fails header, footer or marker validation.
    InstructionCorrupt,
    /// The frame stream ended before the final payload frame.
    Truncated,
}

} // verus!
