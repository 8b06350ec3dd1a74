//! Verified core of the vectomancy image-to-equation toolkit.

pub mod cli;
pub mod config;
pub mod geometry;
pub mod grid;
pub mod thinning;
pub mod woff2_header;
pub mod font_source;
pub mod skeleton;
pub mod text;
pub mod error;
pub mod raster;
pub mod settings;
pub mod expression;
pub mod svg_text;
pub mod scratch;
pub mod encode;
pub mod input;
