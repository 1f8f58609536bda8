//! The image header (IHDR) and what it implies about pixel sizes.

use vstd::prelude::*;

use crate::error::DecodeError;

verus! {

/// The color kinds of a PNG image, with their IHDR codes 0, 2, 3, 4 and 6.
#[derive(Clone, Copy, Debug, PartialEq, Eq, Structural)]
pub enum ColorType {
    Grey,
    Rgb,
    Palette,
    GreyAlpha,
    Rgba,
}

/// The IHDR code of a color type.
pub open spec fn color_code(ct: ColorType) -> u8 {
    match ct {
        ColorType::Grey => 0,
        ColorType::Rgb => 2,
        ColorType::Palette => 3,
        ColorType::GreyAlpha => 4,
        ColorType::Rgba => 6,
    }
}

/// The number of channels of a color type.
pub open spec fn channels_of(ct: ColorType) -> nat {
    match ct {
        ColorType::Grey | ColorType::Palette => 1,
        ColorType::GreyAlpha => 2,
        ColorType::Rgb => 3,
        ColorType::Rgba => 4,
    }
}

/// Whether a color type allows a bit depth.
pub open spec fn legal_depth(ct: ColorType, bd: u8) -> bool {
    match ct {
        ColorType::Grey => bd == 1 || bd == 2 || bd == 4 || bd == 8 || bd == 16,
        ColorType::Palette => bd == 1 || bd == 2 || bd == 4 || bd == 8,
        _ => bd == 8 || bd == 16,
    }
}

/// Bits per pixel: single-channel kinds keep sub-byte depths, multi-channel
/// kinds use 8 or 16 bits per channel.
pub open spec fn bpp_of(ct: ColorType, bd: u8) -> nat {
    if channels_of(ct) > 1 {
        channels_of(ct) * (if bd == 8 { 8nat } else { 16nat })
    } else {
        bd as nat
    }
}

/// Bytes in a packed line of `w` pixels of `bpp` bits.
pub open spec fn line_bytes(w: nat, bpp: nat) -> nat {
    (w * bpp + 7) / 8
}

impl ColorType {
    /// The IHDR code of this color type.
    pub fn code(self) -> (r: u8)
        ensures
            r == color_code(self),
    {
        match self {
            ColorType::Grey => 0,
            ColorType::Rgb => 2,
            ColorType::Palette => 3,
            ColorType::GreyAlpha => 4,
            ColorType::Rgba => 6,
        }
    }

    /// The color type with an IHDR code.
    pub fn from_code(c: u8) -> (r: Option<ColorType>)
        ensures
            r matches Some(ct) ==> color_code(ct) == c,
            r is None <==> !(c == 0 || c == 2 || c == 3 || c == 4 || c == 6),
    {
        match c {
            0 => Some(ColorType::Grey),
            2 => Some(ColorType::Rgb),
            3 => Some(ColorType::Palette),
            4 => Some(ColorType::GreyAlpha),
            6 => Some(ColorType::Rgba),
            _ => None,
        }
    }

    /// The number of channels.
    pub fn channels(self) -> (r: u8)
        ensures
            r == channels_of(self),
    {
        match self {
            ColorType::Grey | ColorType::Palette => 1,
            ColorType::GreyAlpha => 2,
            ColorType::Rgb => 3,
            ColorType::Rgba => 4,
        }
    }

    /// Bits per pixel at a bit depth.
    pub fn bpp(self, bit_depth: u8) -> (r: u8)
        requires
            1 <= bit_depth <= 16,
        ensures
            r == bpp_of(self, bit_depth),
    {
        let ch = self.channels();
        if ch > 1 {
            ch * if bit_depth == 8 {
                8
            } else {
                16
            }
        } else {
            bit_depth
        }
    }

    /// Checks that this color type allows a bit depth.
    pub fn check_png_color_validity(self, bd: u8) -> (r: Result<(), DecodeError>)
        ensures
            r is Ok <==> legal_depth(self, bd),
            r is Err ==> r == Err::<(), DecodeError>(DecodeError::ColorMode(self, bd)),
    {
        let ok = match self {
            ColorType::Grey => bd == 1 || bd == 2 || bd == 4 || bd == 8 || bd == 16,
            ColorType::Palette => bd == 1 || bd == 2 || bd == 4 || bd == 8,
            _ => bd == 8 || bd == 16,
        };
        if ok {
            Ok(())
        } else {
            Err(DecodeError::ColorMode(self, bd))
        }
    }
}

/// The IHDR payload.
#[derive(Clone, Copy, Debug, PartialEq, Eq, Structural)]
pub struct ImageHeader {
    pub width: u32,
    pub height: u32,
    pub color_type: ColorType,
    pub bit_depth: u8,
    pub interlace: bool,
}

/// The largest width or height a PNG file may declare.
pub const MAX_DIMENSION: u32 = 0x7FFF_FFFF;

impl ImageHeader {
    /// A legal header: positive dimensions of at most 2^31 - 1 and a legal
    /// (color type, bit depth) pair.
    pub open spec fn valid(&self) -> bool {
        &&& 0 < self.width <= MAX_DIMENSION
        &&& 0 < self.height <= MAX_DIMENSION
        &&& legal_depth(self.color_type, self.bit_depth)
    }

    pub open spec fn spec_bpp(&self) -> nat {
        bpp_of(self.color_type, self.bit_depth)
    }

    /// Bytes of a densely packed raster: `ceil(width * height * bpp / 8)`.
    pub open spec fn spec_raw_size(&self) -> nat {
        line_bytes(self.width as nat * self.height as nat, self.spec_bpp())
    }

    /// Bits per pixel.
    pub fn bpp(&self) -> (r: u8)
        requires
            1 <= self.bit_depth <= 16,
        ensures
            r == self.spec_bpp(),
    {
        self.color_type.bpp(self.bit_depth)
    }

    /// Bytes of a densely packed raster of this header, where that fits in
    /// memory.
    pub fn raw_size(&self) -> (r: Option<usize>)
        requires
            self.valid(),
        ensures
            r matches Some(n) ==> n == self.spec_raw_size(),
            r is None <==> self.spec_raw_size() > usize::MAX,
    {
        let bpp = self.bpp() as u128;
        let w = self.width as u128;
        let h = self.height as u128;
        assert(w * h <= 0xFFFF_FFFFu128 * 0xFFFF_FFFFu128) by (nonlinear_arith)
            requires w <= 0xFFFF_FFFFu128, h <= 0xFFFF_FFFFu128;
        let n = w * h;
        assert(n * bpp <= 0xFFFF_FFFFu128 * 0xFFFF_FFFFu128 * 64) by (nonlinear_arith)
            requires n <= 0xFFFF_FFFFu128 * 0xFFFF_FFFFu128, bpp <= 64;
        let bits = n * bpp;
        let bytes = (bits + 7) / 8;
        if bytes > usize::MAX as u128 {
            None
        } else {
            Some(bytes as usize)
        }
    }
}

} // verus!
