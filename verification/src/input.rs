//! Telling raster images from vector drawings by format name, and picking
//! the colour of a vector path.
use vstd::prelude::*;
use crate::error::VectomancyError;
use crate::settings::{ascii_lower, chars_are, lowercase_chars};

verus! {

/// How an input is read: decoded as pixels, or parsed as a vector drawing.
#[derive(Clone, Copy, Debug, PartialEq, Eq, Structural)]
pub enum InputKind {
    Raster,
    Vector,
}

/// The kind of input a format name (in small letters) stands for.
pub open spec fn kind_named(name: Seq<char>) -> Option<InputKind> {
    if name == "png"@ || name == "jpg"@ || name == "jpeg"@ || name == "webp"@ {
        Some(InputKind::Raster)
    } else if name == "svg"@ {
        Some(InputKind::Vector)
    } else {
        None
    }
}

/// The kind of input a format name stands for, in any mix of capital and
/// small letters.
fn kind_of(name: &str) -> (r: Option<InputKind>)
    ensures
        r == kind_named(ascii_lower(name@)),
{
    let l = lowercase_chars(name);
    if chars_are(&l, "png") || chars_are(&l, "jpg") || chars_are(&l, "jpeg") || chars_are(&l, "webp") {
        Some(InputKind::Raster)
    } else if chars_are(&l, "svg") {
        Some(InputKind::Vector)
    } else {
        None
    }
}

/// The kind of input in memory in format `format`; unknown formats are
/// refused as invalid input naming the format.
pub fn classify_format(format: &str) -> (r: Result<InputKind, VectomancyError>)
    ensures
        match kind_named(ascii_lower(format@)) {
            Some(k) => r == Ok::<InputKind, VectomancyError>(k),
            None => r matches Err(VectomancyError::InvalidInput(m)) && m@ == "Unsupported file format: "@ + format@,
        },
{
    match kind_of(format) {
        Some(k) => Ok(k),
        None => {
            let mut m = String::from_str("Unsupported file format: ");
            m.append(format);
            Err(VectomancyError::InvalidInput(m))
        },
    }
}

/// The kind of input file with extension `ext` (empty when it has none);
/// unknown extensions are refused as invalid input naming the extension.
pub fn classify_extension(ext: &str) -> (r: Result<InputKind, VectomancyError>)
    ensures
        match kind_named(ascii_lower(ext@)) {
            Some(k) => r == Ok::<InputKind, VectomancyError>(k),
            None => r matches Err(VectomancyError::InvalidInput(m)) && m@ == "Unsupported file extension: "@ + ext@,
        },
{
    match kind_of(ext) {
        Some(k) => Ok(k),
        None => {
            let mut m = String::from_str("Unsupported file extension: ");
            m.append(ext);
            Err(VectomancyError::InvalidInput(m))
        },
    }
}

/// The colour of a vector path when colours are asked for: its stroke's
/// when it has a stroke (none when that stroke is not a plain colour),
/// else its fill's. `stroke` and `fill` are absent when the path has no
/// stroke or fill, and hold the colour when the paint is a plain colour.
pub open spec fn paint_color_of(
    color: bool,
    stroke: Option<Option<(u8, u8, u8)>>,
    fill: Option<Option<(u8, u8, u8)>>,
) -> Option<(u8, u8, u8)> {
    if !color {
        None
    } else {
        match stroke {
            Some(s) => s,
            None => match fill {
                Some(f) => f,
                None => None,
            },
        }
    }
}

/// Picks the colour of a vector path.
pub fn paint_color(
    color: bool,
    stroke: Option<Option<(u8, u8, u8)>>,
    fill: Option<Option<(u8, u8, u8)>>,
) -> (r: Option<(u8, u8, u8)>)
    ensures
        r == paint_color_of(color, stroke, fill),
{
    if !color {
        return None;
    }
    match stroke {
        Some(s) => s,
        None => match fill {
            Some(f) => f,
            None => None,
        },
    }
}

} // verus!
