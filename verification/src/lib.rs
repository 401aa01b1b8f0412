//! A codec that turns an arbitrary byte payload into a sequence of image
//! frames (preceded by a self-describing instruction frame) and back.
//!
//! The payload is written block by block onto a BGR pixel canvas, either as
//! raw bytes (one RGB triple per block, color mode) or as single bits
//! (black/white blocks, binary mode). The first frame of a stream carries a
//! fixed five-word record from which the decoder recovers the geometry and
//! the exact length of the payload.

pub mod args;
pub mod error;
pub mod grid;
pub mod laws;
pub mod etcher;
pub mod pack;
pub mod source;
pub mod settings;
pub mod timer;

pub use error::EtchError;
pub use settings::{Data, OutputMode, Settings};
pub use source::{EmbedSource, FrameSize};
pub use crate::args::{Arguments, Commands, DislodgeParams, DownloadParams, EmbedOutputMode, EmbedParams, EmbedPreset};
pub use timer::Timer;
