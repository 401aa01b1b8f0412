//! Plain value types that thread the codec's geometry and mode through the
//! other modules: the payload container [`Data`], the two-variant [`OutputMode`]
//! tag, and the [`Settings`] record.

use vstd::prelude::*;

verus! {

/// Whether the payload travels as raw bytes painted into colored blocks or as
/// single bits painted into black/white blocks.
#[derive(Clone, Copy, PartialEq, Eq, Structural, Debug)]
pub enum OutputMode {
    Binary,
    Color,
}

/// The payload of one encode: bytes for color mode, bits for binary mode.
/// Only the vector selected by `out_mode` is consulted by the encoder.
pub struct Data {
    pub bytes: Vec<u8>,
    pub binary: Vec<bool>,
    pub out_mode: OutputMode,
}

impl Data {
    /// An empty payload container with the given mode.
    pub fn new_out_mode(out_mode: OutputMode) -> (d: Data)
        ensures
            d.bytes@ == Seq::<u8>::empty(),
            d.binary@ == Seq::<bool>::empty(),
            d.out_mode == out_mode,
    {
        Data { bytes: Vec::new(), binary: Vec::new(), out_mode }
    }

    /// Wraps a bit payload for binary-mode encoding.
    pub fn from_binary(binary: Vec<bool>) -> (d: Data)
        ensures
            d.bytes@ == Seq::<u8>::empty(),
            d.binary@ == binary@,
            d.out_mode == OutputMode::Binary,
    {
        Data { bytes: Vec::new(), binary, out_mode: OutputMode::Binary }
    }

    /// Wraps a byte payload for color-mode encoding.
    pub fn from_color(bytes: Vec<u8>) -> (d: Data)
        ensures
            d.bytes@ == bytes@,
            d.binary@ == Seq::<bool>::empty(),
            d.out_mode == OutputMode::Color,
    {
        Data { bytes, binary: Vec::new(), out_mode: OutputMode::Color }
    }
}

/// Geometry and scheduling parameters of one encode or decode.
///
/// `size` is the side length in pixels of one payload block, `width` and
/// `height` the frame dimensions, `fps` the presentation rate handed to the
/// muxer (it does not affect the codec), and `thread` the number of
/// contiguous payload partitions the encoder may hand to parallel workers.
pub struct Settings {
    pub size: usize,
    pub thread: usize,
    pub fps: u32,
    pub width: usize,
    pub height: usize,
}

impl Settings {
    /// Spec-level validity: one block fits the frame, the partition count is
    /// positive, and the pixel buffer length stays within `usize`.
    pub open spec fn valid(self) -> bool {
        &&& 1 <= self.size
        &&& self.size <= self.width
        &&& self.size <= self.height
        &&& 1 <= self.thread
        &&& self.width * self.height * 3 <= usize::MAX
    }

    pub fn new(size: usize, thread: usize, fps: u32, width: usize, height: usize) -> (s: Settings)
        ensures
            s == (Settings { size, thread, fps, width, height }),
    {
        Settings { size, thread, fps, width, height }
    }
}

} // verus!
