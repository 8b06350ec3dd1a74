//! Output formats, fitting modes and per-subcommand configuration.
use vstd::prelude::*;

verus! {

/// Output format of a conversion.
#[derive(Clone, Copy, Debug, PartialEq, Eq, Structural)]
pub enum OutputFormat {
    Python,
    Html,
    Json,
    Desmos,
    Png,
    Jpg,
    Webp,
}

/// Curve-fitting mode.
#[derive(Clone, Copy, Debug, PartialEq, Eq, Structural)]
pub enum Mode {
    Fourier,
    Spline,
    Chaikin,
}

/// Settings of the `video` subcommand.
#[derive(Debug, Clone)]
pub struct VideoConfig {
    pub enabled: Option<bool>,
}

/// Settings of the `text` subcommand.
#[derive(Debug, Clone)]
pub struct TextConfig {
    pub font: Option<String>,
}

impl Default for VideoConfig {
    fn default() -> (r: VideoConfig)
        ensures
            r.enabled is None,
    {
        VideoConfig { enabled: None }
    }
}

impl Default for TextConfig {
    fn default() -> (r: TextConfig)
        ensures
            r.font is None,
    {
        TextConfig { font: None }
    }
}

} // verus!
