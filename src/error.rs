//! The error taxonomy of the codec.

use vstd::prelude::*;

use crate::header::ColorType;

verus! {

/// Why decoding failed.
#[derive(Clone, Copy, Debug, PartialEq, Eq)]
pub enum DecodeError {
    /// The underlying reader failed.
    Io,
    /// The first eight bytes are not the PNG signature.
    InvalidSignature,
    /// The input ended in the middle of a chunk.
    Eof,
    /// A chunk's declared length is out of range, or a fixed-size chunk has
    /// another length.
    ChunkLength([u8; 4]),
    /// A chunk's transmitted CRC differs from the computed one.
    Crc32([u8; 4]),
    /// A critical chunk that this codec does not know.
    UnknownChunkType([u8; 4]),
    /// A chunk stands where the chunk order forbids it.
    ChunkOrder,
    /// A chunk that may appear once appeared twice.
    Multiple([u8; 4]),
    /// A chunk follows IEND.
    TrailingChunk,
    /// The image has no IDAT chunk.
    NoImageData,
    /// An unknown IHDR color type code.
    ColorType(u8),
    /// An IHDR bit depth outside 1..=16.
    BitDepth(u8),
    /// A bit depth that the color type does not allow.
    ColorMode(ColorType, u8),
    /// A compression method other than 0 (IHDR, zTXt, iTXt), or a zlib
    /// method other than deflate with a window of at most 32768.
    CompressionMethod,
    /// An IHDR filter method other than 0.
    FilterMethod,
    /// An IHDR interlace method other than 0 or 1.
    InterlaceMethod,
    /// A width or height of zero.
    ImageDimensions,
    /// A tRNS alpha palette longer than the palette.
    AlphaPaletteLen,
    /// A bKGD shape that does not match the color type.
    BackgroundSize(ColorType),
    /// A pHYs unit other than 0 or 1.
    PhysUnits,
    /// A scanline filter type above 4.
    IllegalFilterType,
    /// A text keyword whose length is outside 1..=79.
    TextSize(usize),
    /// A zlib header whose check bits are wrong.
    ZlibHeader,
    /// A zlib stream shorter than its header and trailer.
    ZlibTooSmall,
    /// A zlib stream with a preset dictionary.
    PresetDict,
    /// The Adler-32 trailer disagrees with the decompressed data.
    AdlerChecksum,
    /// The DEFLATE stream is malformed; the decompressor's status code.
    Inflate(i8),
    /// The decompressed image data has another size than the header implies.
    ImageDataSize,
}

/// Why encoding failed.
#[derive(Clone, Copy, Debug, PartialEq, Eq)]
pub enum EncodeError {
    /// The underlying writer failed.
    Io,
    /// A chunk's data is longer than 2^31 bytes.
    ChunkTooBig,
    /// A text keyword whose length is outside 1..=79.
    TextSize(usize),
    /// A palette image without a palette, or a palette of more than 256 or
    /// of no entries.
    BadPalette,
    /// The raster does not match its header.
    RasterSize,
}

} // verus!
