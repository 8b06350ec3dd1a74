//! Command-line choices of the image, video and text subcommands.
use vstd::prelude::*;
use crate::config;

verus! {

/// Output format as chosen on the command line.
#[derive(Clone, Copy, Debug, PartialEq, Eq, Structural)]
pub enum CliOutputFormat {
    Python,
    Html,
    Json,
    Desmos,
    Png,
    Jpg,
    Webp,
}

/// Fitting mode as chosen on the command line.
#[derive(Clone, Copy, Debug, PartialEq, Eq, Structural)]
pub enum CliMode {
    Fourier,
    Spline,
    Chaikin,
}

/// Output formats offered by the single-command interface.
#[derive(Clone, Copy, Debug, PartialEq, Eq, Structural)]
pub enum OutputFormat {
    Python,
    Latex,
    Html,
    Json,
    Geogebra,
    Wolfram,
    Kmplot,
    Png,
    Jpg,
    Webp,
}

/// Fitting modes offered by the single-command interface.
#[derive(Clone, Copy, Debug, PartialEq, Eq, Structural)]
pub enum Mode {
    Fourier,
    Spline,
    Chaikin,
}

/// Arguments of the `video` subcommand.
#[derive(Debug, Clone)]
pub struct VideoArgs {
    /// Input video file path.
    pub input: String,
    /// Output directory.
    pub output: Option<String>,
    /// Keep full precision in the emitted equations.
    pub no_simplify_math: bool,
}

/// The configuration format that a command-line format selects.
pub open spec fn format_of_cli(fmt: CliOutputFormat) -> config::OutputFormat {
    match fmt {
        CliOutputFormat::Python => config::OutputFormat::Python,
        CliOutputFormat::Html => config::OutputFormat::Html,
        CliOutputFormat::Json => config::OutputFormat::Json,
        CliOutputFormat::Desmos => config::OutputFormat::Desmos,
        CliOutputFormat::Png => config::OutputFormat::Png,
        CliOutputFormat::Jpg => config::OutputFormat::Jpg,
        CliOutputFormat::Webp => config::OutputFormat::Webp,
    }
}

/// The configuration mode that a command-line mode selects.
pub open spec fn mode_of_cli(mode: CliMode) -> config::Mode {
    match mode {
        CliMode::Fourier => config::Mode::Fourier,
        CliMode::Spline => config::Mode::Spline,
        CliMode::Chaikin => config::Mode::Chaikin,
    }
}

impl From<CliOutputFormat> for config::OutputFormat {
    fn from(fmt: CliOutputFormat) -> (r: config::OutputFormat) {
        match fmt {
            CliOutputFormat::Python => config::OutputFormat::Python,
            CliOutputFormat::Html => config::OutputFormat::Html,
            CliOutputFormat::Json => config::OutputFormat::Json,
            CliOutputFormat::Desmos => config::OutputFormat::Desmos,
            CliOutputFormat::Png => config::OutputFormat::Png,
            CliOutputFormat::Jpg => config::OutputFormat::Jpg,
            CliOutputFormat::Webp => config::OutputFormat::Webp,
        }
    }
}

impl vstd::std_specs::convert::FromSpecImpl<CliOutputFormat> for config::OutputFormat {
    open spec fn obeys_from_spec() -> bool {
        true
    }

    open spec fn from_spec(v: CliOutputFormat) -> config::OutputFormat {
        format_of_cli(v)
    }
}

impl From<CliMode> for config::Mode {
    fn from(mode: CliMode) -> (r: config::Mode) {
        match mode {
            CliMode::Fourier => config::Mode::Fourier,
            CliMode::Spline => config::Mode::Spline,
            CliMode::Chaikin => config::Mode::Chaikin,
        }
    }
}

impl vstd::std_specs::convert::FromSpecImpl<CliMode> for config::Mode {
    open spec fn obeys_from_spec() -> bool {
        true
    }

    open spec fn from_spec(v: CliMode) -> config::Mode {
        mode_of_cli(v)
    }
}

/// Distinct command-line formats select distinct configuration formats.
pub proof fn law_format_of_cli_injective(a: CliOutputFormat, b: CliOutputFormat)
    requires
        format_of_cli(a) == format_of_cli(b),
    ensures
        a == b,
{
}

/// Distinct command-line modes select distinct configuration modes.
pub proof fn law_mode_of_cli_injective(a: CliMode, b: CliMode)
    requires
        mode_of_cli(a) == mode_of_cli(b),
    ensures
        a == b,
{
}

} // verus!
