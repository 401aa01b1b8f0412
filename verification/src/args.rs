//! The command-line surface as plain values: the three verbs and their
//! parameter records. Argument parsing and interactive prompting live
//! outside the library; these types only carry what was gathered.

use vstd::prelude::*;

use crate::settings::OutputMode;

verus! {

/// Presets bundling block size, thread count, rate and resolution choices.
#[derive(Clone, Copy, PartialEq, Eq, Structural, Debug)]
pub enum EmbedPreset {
    /// Balanced compression resistance.
    Optimal,
    /// Maximum robustness against compression.
    Paranoid,
    /// Densest packing, most fragile under compression.
    MaxEfficiency,
}

/// How the payload is represented in the video.
#[derive(Clone, Copy, PartialEq, Eq, Structural, Debug)]
pub enum EmbedOutputMode {
    /// RGB blocks: three payload bytes per block, fragile under compression.
    Colored,
    /// Black/white blocks: one payload bit per block, compression-resistant.
    Binary,
}

impl EmbedOutputMode {
    /// The codec mode this output choice selects.
    pub fn to_output_mode(&self) -> (m: OutputMode)
        ensures
            m == (if *self == EmbedOutputMode::Colored {
                OutputMode::Color
            } else {
                OutputMode::Binary
            }),
    {
        match self {
            EmbedOutputMode::Colored => OutputMode::Color,
            EmbedOutputMode::Binary => OutputMode::Binary,
        }
    }
}

/// Parameters of the embed verb; every field is optional and may be filled
/// in later by prompting.
pub struct EmbedParams {
    pub in_path: Option<String>,
    pub preset: Option<EmbedPreset>,
    pub mode: Option<EmbedOutputMode>,
    pub block_size: Option<i32>,
    pub threads: Option<usize>,
    pub fps: Option<i32>,
    pub resolution: Option<String>,
}

/// Parameters of the download verb.
pub struct DownloadParams {
    pub url: Option<String>,
}

/// Parameters of the dislodge verb.
pub struct DislodgeParams {
    pub in_path: Option<String>,
    pub out_path: Option<String>,
}

/// The chosen verb with its parameters.
pub enum Commands {
    Embed(EmbedParams),
    Download(DownloadParams),
    Dislodge(DislodgeParams),
}

/// Everything parsed from the command line.
pub struct Arguments {
    pub command: Option<Commands>,
}

} // verus!
