//! Rasters: pixel bytes with their size and layout, and palette lookups.

use vstd::prelude::*;

use crate::chunk::Rgb8;
use crate::header::ColorType;

verus! {

/// A densely packed raster: `ceil(width * height * bpp / 8)` bytes in
/// PNG's channel order, most significant byte first for 16-bit channels.
/// Palette rasters carry their palette and alpha palette.
#[derive(Clone, Debug)]
pub struct PngRaster {
    pub width: u32,
    pub height: u32,
    pub color_type: ColorType,
    pub bit_depth: u8,
    pub pixels: Vec<u8>,
    pub palette: Vec<Rgb8>,
    pub alpha: Vec<u8>,
}

/// An animation step: a raster shown for `delay` milliseconds. A still
/// image is one step with delay 0.
#[derive(Clone, Debug)]
pub struct Step {
    pub raster: PngRaster,
    pub delay: u32,
}

/// The RGBA color of palette index `i`: entries beyond the palette are
/// opaque black, and entries beyond the alpha palette are opaque.
pub open spec fn palette_color(palette: Seq<Rgb8>, alpha: Seq<u8>, i: int) -> (u8, u8, u8, u8) {
    if i < palette.len() {
        (palette[i].red, palette[i].green, palette[i].blue, if i < alpha.len() {
            alpha[i]
        } else {
            255u8
        })
    } else {
        (0u8, 0u8, 0u8, 255u8)
    }
}

/// The RGBA color of a palette index.
pub fn palette_rgba(palette: &Vec<Rgb8>, alpha: &Vec<u8>, index: u8) -> (r: (u8, u8, u8, u8))
    ensures
        r == palette_color(palette@, alpha@, index as int),
        index as int >= palette@.len() ==> r == (0u8, 0u8, 0u8, 255u8),
        alpha@.len() <= index < palette@.len() ==> r.3 == 255,
{
    let i = index as usize;
    if i < palette.len() {
        let c = palette[i];
        let a: u8 = if i < alpha.len() {
            alpha[i]
        } else {
            255
        };
        (c.red, c.green, c.blue, a)
    } else {
        (0, 0, 0, 255)
    }
}

} // verus!
