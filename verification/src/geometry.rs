//! Styled paths and conversion modes shared by the pipelines.
use vstd::prelude::*;

verus! {

/// A path geometry together with an optional colour style.
#[derive(Debug, Clone)]
pub struct StyledPath<G> {
    pub geometry: G,
    pub color_style: Option<String>,
}

impl<G> StyledPath<G> {
    /// Pairs `geometry` with `color_style`.
    pub fn new(geometry: G, color_style: Option<String>) -> (r: StyledPath<G>)
        ensures
            r.geometry == geometry,
            r.color_style == color_style,
    {
        StyledPath { geometry, color_style }
    }
}

/// How a decoded image is turned into a scene.
#[derive(Debug, Clone, Copy, PartialEq, Structural)]
pub enum ConversionMode {
    Polyline,
    Chaikin { iterations: usize },
    Spline,
    Fourier { terms: usize },
}

} // verus!
