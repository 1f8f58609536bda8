//! A PNG codec: a streaming walk over the chunk format and the pixel
//! pipeline between rasters and compressed image data, with contracts
//! proved by Verus.

pub mod adam7;
pub mod bitstream;
pub mod checksum;
pub mod chunk;
pub mod chunks;
pub mod decoder;
pub mod encoder;
pub mod error;
pub mod filter;
pub mod framer;
pub mod header;
pub mod order;
pub mod pixels;
pub mod raster;
pub mod scanlines;
pub mod text;
pub mod zlib;

pub use chunk::{
    Background, ImageData, ImageEnd, Palette, Physical, Rgb8, Time, Transparency, Unknown,
};
pub use checksum::lodepng_crc32;
pub use chunks::{Chunk, ChunkDecoder, ChunkEncoder};
pub use decoder::{decode, StepDecoder};
pub use encoder::StepEncoder;
pub use error::{DecodeError, EncodeError};
pub use filter::FilterStrategy;
pub use header::{ColorType, ImageHeader};
pub use raster::{PngRaster, Step};
pub use text::{CompressedText, InternationalText, Text};
