//! The chunk kinds this codec knows, and the encoding of each one's data.

use vstd::prelude::*;

use crate::error::{DecodeError, EncodeError};
use crate::header::{color_code, legal_depth, ColorType, ImageHeader, MAX_DIMENSION};
use crate::zlib::{be32, push_be32};

verus! {

/// `IHDR`.
pub const IMAGE_HEADER: [u8; 4] = [73, 72, 68, 82];

/// `IDAT`.
pub const IMAGE_DATA: [u8; 4] = [73, 68, 65, 84];

/// `IEND`.
pub const IMAGE_END: [u8; 4] = [73, 69, 78, 68];

/// `PLTE`.
pub const PALETTE: [u8; 4] = [80, 76, 84, 69];

/// `bKGD`.
pub const BACKGROUND: [u8; 4] = [98, 75, 71, 68];

/// `tRNS`.
pub const TRANSPARENCY: [u8; 4] = [116, 82, 78, 83];

/// `pHYs`.
pub const PHYSICAL: [u8; 4] = [112, 72, 89, 115];

/// `tIME`.
pub const TIME: [u8; 4] = [116, 73, 77, 69];

/// `tEXt`.
pub const TEXT: [u8; 4] = [116, 69, 88, 116];

/// `zTXt`.
pub const ZTEXT: [u8; 4] = [122, 84, 88, 116];

/// `iTXt`.
pub const ITEXT: [u8; 4] = [105, 84, 88, 116];

/// The big-endian `u16` of two bytes.
pub open spec fn be16_of(b0: u8, b1: u8) -> u16 {
    (b0 as int * 256 + b1 as int) as u16
}

/// The big-endian bytes of a `u16`.
pub open spec fn be16(v: u16) -> Seq<u8> {
    seq![(v / 256) as u8, (v % 256) as u8]
}

/// The big-endian `u32` of four bytes of `d` from `i`.
pub open spec fn be32_at(d: Seq<u8>, i: int) -> u32 {
    (d[i] as int * 0x1000000 + d[i + 1] as int * 0x10000 + d[i + 2] as int * 0x100 + d[i + 3] as int) as u32
}

/// The big-endian `u16` of two bytes of `d` from `i`.
pub open spec fn be16_at(d: Seq<u8>, i: int) -> u16 {
    be16_of(d[i], d[i + 1])
}

/// Reads a big-endian `u32` at `i`.
pub fn read_u32(d: &[u8], i: usize) -> (r: u32)
    requires
        i + 4 <= d@.len(),
    ensures
        r == be32_at(d@, i as int),
{
    d[i] as u32 * 0x1000000 + d[i + 1] as u32 * 0x10000 + d[i + 2] as u32 * 0x100 + d[i + 3] as u32
}

/// Reads a big-endian `u16` at `i`.
pub fn read_u16(d: &[u8], i: usize) -> (r: u16)
    requires
        i + 2 <= d@.len(),
    ensures
        r == be16_at(d@, i as int),
{
    d[i] as u16 * 256 + d[i + 1] as u16
}

/// Appends the big-endian bytes of a `u16`.
pub fn push_be16(out: &mut Vec<u8>, v: u16)
    ensures
        final(out)@ == old(out)@ + be16(v),
{
    out.push((v / 256) as u8);
    out.push((v % 256) as u8);
    proof {
        assert(out@ =~= old(out)@ + be16(v));
    }
}

/// What the IHDR data decodes to.
pub open spec fn ihdr_of(d: Seq<u8>) -> Result<ImageHeader, DecodeError> {
    if d.len() != 13 {
        Err(DecodeError::ChunkLength(IMAGE_HEADER))
    } else {
        let width = be32_at(d, 0);
        let height = be32_at(d, 4);
        let bd = d[8];
        let ct = d[9];
        if width == 0 || height == 0 || width > MAX_DIMENSION || height > MAX_DIMENSION {
            Err(DecodeError::ImageDimensions)
        } else if bd == 0 || bd > 16 {
            Err(DecodeError::BitDepth(bd))
        } else if !(ct == 0 || ct == 2 || ct == 3 || ct == 4 || ct == 6) {
            Err(DecodeError::ColorType(ct))
        } else {
            let color_type = if ct == 0 {
                ColorType::Grey
            } else if ct == 2 {
                ColorType::Rgb
            } else if ct == 3 {
                ColorType::Palette
            } else if ct == 4 {
                ColorType::GreyAlpha
            } else {
                ColorType::Rgba
            };
            if !legal_depth(color_type, bd) {
                Err(DecodeError::ColorMode(color_type, bd))
            } else if d[10] != 0 {
                Err(DecodeError::CompressionMethod)
            } else if d[11] != 0 {
                Err(DecodeError::FilterMethod)
            } else if d[12] > 1 {
                Err(DecodeError::InterlaceMethod)
            } else {
                Ok(ImageHeader { width, height, color_type, bit_depth: bd, interlace: d[12] == 1 })
            }
        }
    }
}

/// The IHDR data of a header.
pub open spec fn ihdr_bytes(h: ImageHeader) -> Seq<u8> {
    be32(h.width) + be32(h.height) + seq![h.bit_depth, color_code(h.color_type), 0u8, 0u8, if h.interlace {
        1u8
    } else {
        0u8
    }]
}

/// Four big-endian bytes read back as the `u32` they were written from.
pub proof fn lemma_be32(v: u32)
    ensures
        from_be_bytes(be32(v)[0], be32(v)[1], be32(v)[2], be32(v)[3]) == v,
{
    assert(v / 0x1000000 == (v >> 24u32) & 0xff) by (bit_vector);
    assert((v / 0x10000) % 0x100 == (v >> 16u32) & 0xff) by (bit_vector);
    assert((v / 0x100) % 0x100 == (v >> 8u32) & 0xff) by (bit_vector);
    assert(v % 0x100 == v & 0xff) by (bit_vector);
    assert(((v >> 24u32) & 0xff) * 0x1000000 + ((v >> 16u32) & 0xff) * 0x10000 + ((v >> 8u32) & 0xff) * 0x100 + (v & 0xff) == v) by (bit_vector);
}

/// The `u32` of four big-endian bytes.
pub open spec fn from_be_bytes(b0: u8, b1: u8, b2: u8, b3: u8) -> u32 {
    (b0 as int * 0x1000000 + b1 as int * 0x10000 + b2 as int * 0x100 + b3 as int) as u32
}

/// A legal header's IHDR data decodes to it.
pub proof fn lemma_ihdr_round_trip(h: ImageHeader)
    requires
        h.valid(),
    ensures
        ihdr_of(ihdr_bytes(h)) == Ok::<ImageHeader, DecodeError>(h),
{
    let d = ihdr_bytes(h);
    lemma_be32(h.width);
    lemma_be32(h.height);
    assert(d[0] == be32(h.width)[0] && d[1] == be32(h.width)[1] && d[2] == be32(h.width)[2] && d[3] == be32(h.width)[3]);
    assert(d[4] == be32(h.height)[0] && d[5] == be32(h.height)[1] && d[6] == be32(h.height)[2] && d[7] == be32(h.height)[3]);
    assert(be32_at(d, 0) == h.width);
    assert(be32_at(d, 4) == h.height);
    assert(d.len() == 13);
}

impl ImageHeader {
    /// Decodes IHDR data.
    pub fn parse(d: &[u8]) -> (r: Result<ImageHeader, DecodeError>)
        ensures
            r == ihdr_of(d@),
            r matches Ok(h) ==> h.valid(),
    {
        if d.len() != 13 {
            return Err(DecodeError::ChunkLength(IMAGE_HEADER));
        }
        let width = read_u32(d, 0);
        let height = read_u32(d, 4);
        let bd = d[8];
        let ct = d[9];
        if width == 0 || height == 0 || width > MAX_DIMENSION || height > MAX_DIMENSION {
            return Err(DecodeError::ImageDimensions);
        }
        if bd == 0 || bd > 16 {
            return Err(DecodeError::BitDepth(bd));
        }
        let color_type = match ColorType::from_code(ct) {
            Some(c) => c,
            None => {
                return Err(DecodeError::ColorType(ct));
            },
        };
        match color_type.check_png_color_validity(bd) {
            Ok(()) => {},
            Err(e) => {
                return Err(e);
            },
        }
        if d[10] != 0 {
            return Err(DecodeError::CompressionMethod);
        }
        if d[11] != 0 {
            return Err(DecodeError::FilterMethod);
        }
        if d[12] > 1 {
            return Err(DecodeError::InterlaceMethod);
        }
        Ok(ImageHeader { width, height, color_type, bit_depth: bd, interlace: d[12] == 1 })
    }

    /// The IHDR data of this header.
    pub fn write(&self) -> (r: Vec<u8>)
        ensures
            r@ == ihdr_bytes(*self),
    {
        let mut out: Vec<u8> = Vec::new();
        push_be32(&mut out, self.width);
        push_be32(&mut out, self.height);
        out.push(self.bit_depth);
        out.push(self.color_type.code());
        out.push(0);
        out.push(0);
        out.push(if self.interlace {
            1
        } else {
            0
        });
        proof {
            assert(out@ =~= ihdr_bytes(*self));
        }
        out
    }
}

/// One sRGB palette entry.
#[derive(Clone, Copy, Debug, PartialEq, Eq, Structural)]
pub struct Rgb8 {
    pub red: u8,
    pub green: u8,
    pub blue: u8,
}

/// The PLTE payload: up to 256 colors.
#[derive(Clone, Debug)]
pub struct Palette {
    pub palette: Vec<Rgb8>,
}

/// The colors that PLTE data of a positive multiple of 3 bytes holds.
pub open spec fn palette_of(d: Seq<u8>) -> Seq<Rgb8> {
    Seq::new(d.len() / 3, |i: int| Rgb8 { red: d[3 * i], green: d[3 * i + 1], blue: d[3 * i + 2] })
}

/// The PLTE data of a list of colors.
pub open spec fn palette_bytes(p: Seq<Rgb8>) -> Seq<u8> {
    Seq::new(3 * p.len(), |i: int| if i % 3 == 0 {
        p[i / 3].red
    } else if i % 3 == 1 {
        p[i / 3].green
    } else {
        p[i / 3].blue
    })
}

/// PLTE data is well formed: a positive multiple of 3 bytes, at most 768.
pub open spec fn palette_len_ok(n: nat) -> bool {
    0 < n <= 768 && n % 3 == 0
}

impl Palette {
    /// Decodes PLTE data.
    pub fn parse(d: &[u8]) -> (r: Result<Palette, DecodeError>)
        ensures
            r is Ok <==> palette_len_ok(d@.len()),
            r matches Ok(p) ==> p.palette@ == palette_of(d@),
            r is Err ==> r == Err::<Palette, DecodeError>(DecodeError::ChunkLength(PALETTE)),
    {
        let n = d.len();
        if n == 0 || n > 768 || n % 3 != 0 {
            return Err(DecodeError::ChunkLength(PALETTE));
        }
        let mut palette: Vec<Rgb8> = Vec::new();
        let mut i: usize = 0;
        while i < n / 3
            invariant
                n == d@.len(),
                n <= 768,
                i <= n / 3,
                palette@ == palette_of(d@).subrange(0, i as int),
            decreases n / 3 - i,
        {
            palette.push(Rgb8 { red: d[3 * i], green: d[3 * i + 1], blue: d[3 * i + 2] });
            i = i + 1;
            proof {
                assert(palette@ =~= palette_of(d@).subrange(0, i as int));
            }
        }
        proof {
            assert(palette_of(d@).subrange(0, i as int) =~= palette_of(d@));
        }
        Ok(Palette { palette })
    }

    /// The PLTE data of this palette.
    pub fn write(&self) -> (r: Vec<u8>)
        requires
            self.palette@.len() <= 256,
        ensures
            r@ == palette_bytes(self.palette@),
    {
        let mut out: Vec<u8> = Vec::new();
        let mut i: usize = 0;
        while i < self.palette.len()
            invariant
                self.palette@.len() <= 256,
                i <= self.palette@.len(),
                out@ == palette_bytes(self.palette@).subrange(0, 3 * i as int),
            decreases self.palette@.len() - i,
        {
            let c = self.palette[i];
            out.push(c.red);
            out.push(c.green);
            out.push(c.blue);
            i = i + 1;
            proof {
                assert(out@ =~= palette_bytes(self.palette@).subrange(0, 3 * i as int));
            }
        }
        proof {
            assert(palette_bytes(self.palette@).subrange(0, 3 * i as int) =~= palette_bytes(self.palette@));
        }
        out
    }
}

/// A palette's PLTE data decodes to it.
pub proof fn lemma_palette_round_trip(p: Seq<Rgb8>)
    ensures
        palette_of(palette_bytes(p)) == p,
{
    let d = palette_bytes(p);
    assert forall|i: int| 0 <= i < p.len() implies #[trigger] palette_of(d)[i] == p[i] by {
        assert((3 * i) % 3 == 0 && (3 * i + 1) % 3 == 1 && (3 * i + 2) % 3 == 2);
        assert((3 * i) / 3 == i && (3 * i + 1) / 3 == i && (3 * i + 2) / 3 == i);
    }
    assert(palette_of(d) =~= p);
}

/// The tRNS payload.
#[derive(Clone, Debug, PartialEq, Eq)]
pub enum Transparency {
    /// Alpha values for the first palette entries; the rest are opaque.
    Palette(Vec<u8>),
    /// The red, green and blue values of the transparent color.
    RgbKey(u16, u16, u16),
    /// The grey value of the transparent color.
    GrayKey(u16),
}

impl Transparency {
    /// Decodes tRNS data. After a palette of `palette_len` entries it is an
    /// alpha palette of at most that many entries; without one it is a grey
    /// key (2 bytes) or an RGB key (6 bytes).
    pub fn parse(d: &[u8], palette_len: Option<usize>) -> (r: Result<Transparency, DecodeError>)
        ensures
            palette_len matches Some(n) ==> (r is Ok <==> d@.len() <= n),
            palette_len matches Some(n) && d@.len() > n ==> r == Err::<Transparency, DecodeError>(DecodeError::AlphaPaletteLen),
            palette_len is Some && r is Ok ==> r == Ok::<Transparency, DecodeError>(Transparency::Palette(r->Ok_0->Palette_0)) && r->Ok_0->Palette_0@ == d@,
            palette_len is None ==> (r is Ok <==> (d@.len() == 2 || d@.len() == 6)),
            palette_len is None && d@.len() == 2 ==> r == Ok::<Transparency, DecodeError>(Transparency::GrayKey(be16_at(d@, 0))),
            palette_len is None && d@.len() == 6 ==> r == Ok::<Transparency, DecodeError>(Transparency::RgbKey(be16_at(d@, 0), be16_at(d@, 2), be16_at(d@, 4))),
            palette_len is None && r is Err ==> r == Err::<Transparency, DecodeError>(DecodeError::ChunkLength(TRANSPARENCY)),
    {
        match palette_len {
            Some(n) => {
                if d.len() > n {
                    Err(DecodeError::AlphaPaletteLen)
                } else {
                    Ok(Transparency::Palette(crate::zlib::slice_range(d, 0, d.len())))
                }
            },
            None => {
                if d.len() == 2 {
                    Ok(Transparency::GrayKey(read_u16(d, 0)))
                } else if d.len() == 6 {
                    Ok(Transparency::RgbKey(read_u16(d, 0), read_u16(d, 2), read_u16(d, 4)))
                } else {
                    Err(DecodeError::ChunkLength(TRANSPARENCY))
                }
            },
        }
    }

    /// The tRNS data of this payload.
    pub fn write(&self) -> (r: Vec<u8>)
        ensures
            r@ == match self {
                Transparency::Palette(a) => a@,
                Transparency::RgbKey(red, green, blue) => be16(*red) + be16(*green) + be16(*blue),
                Transparency::GrayKey(k) => be16(*k),
            },
    {
        let mut out: Vec<u8> = Vec::new();
        match self {
            Transparency::Palette(a) => {
                crate::zlib::push_all(&mut out, a.as_slice());
                proof {
                    assert(out@ =~= a@);
                }
            },
            Transparency::RgbKey(red, green, blue) => {
                push_be16(&mut out, *red);
                push_be16(&mut out, *green);
                push_be16(&mut out, *blue);
                proof {
                    assert(out@ =~= be16(*red) + be16(*green) + be16(*blue));
                }
            },
            Transparency::GrayKey(k) => {
                push_be16(&mut out, *k);
                proof {
                    assert(out@ =~= be16(*k));
                }
            },
        }
        out
    }

    /// The number of alpha values of an alpha palette.
    pub fn len(&self) -> (r: usize)
        ensures
            r == match self {
                Transparency::Palette(a) => a@.len(),
                Transparency::RgbKey(..) => 6,
                Transparency::GrayKey(_) => 2,
            },
    {
        match self {
            Transparency::Palette(a) => a.len(),
            Transparency::RgbKey(..) => 6,
            Transparency::GrayKey(_) => 2,
        }
    }
}

/// The bKGD payload.
#[derive(Clone, Copy, Debug, PartialEq, Eq, Structural)]
pub enum Background {
    /// An index into the palette.
    Palette(u8),
    /// A grey value.
    Gray(u16),
    /// Red, green and blue values.
    Rgb(u16, u16, u16),
}

impl Background {
    /// Decodes bKGD data: 1 byte is a palette index, 2 a grey value, 6 an
    /// RGB value.
    pub fn parse(d: &[u8]) -> (r: Result<Background, DecodeError>)
        ensures
            d@.len() == 1 ==> r == Ok::<Background, DecodeError>(Background::Palette(d@[0])),
            d@.len() == 2 ==> r == Ok::<Background, DecodeError>(Background::Gray(be16_at(d@, 0))),
            d@.len() == 6 ==> r == Ok::<Background, DecodeError>(Background::Rgb(be16_at(d@, 0), be16_at(d@, 2), be16_at(d@, 4))),
            !(d@.len() == 1 || d@.len() == 2 || d@.len() == 6) ==> r == Err::<Background, DecodeError>(DecodeError::ChunkLength(BACKGROUND)),
    {
        if d.len() == 1 {
            Ok(Background::Palette(d[0]))
        } else if d.len() == 2 {
            Ok(Background::Gray(read_u16(d, 0)))
        } else if d.len() == 6 {
            Ok(Background::Rgb(read_u16(d, 0), read_u16(d, 2), read_u16(d, 4)))
        } else {
            Err(DecodeError::ChunkLength(BACKGROUND))
        }
    }

    /// The bKGD data of this payload.
    pub fn write(&self) -> (r: Vec<u8>)
        ensures
            r@ == match *self {
                Background::Palette(i) => seq![i],
                Background::Gray(v) => be16(v),
                Background::Rgb(red, green, blue) => be16(red) + be16(green) + be16(blue),
            },
    {
        let mut out: Vec<u8> = Vec::new();
        match *self {
            Background::Palette(i) => {
                out.push(i);
                proof {
                    assert(out@ =~= seq![i]);
                }
            },
            Background::Gray(v) => {
                push_be16(&mut out, v);
                proof {
                    assert(out@ =~= be16(v));
                }
            },
            Background::Rgb(red, green, blue) => {
                push_be16(&mut out, red);
                push_be16(&mut out, green);
                push_be16(&mut out, blue);
                proof {
                    assert(out@ =~= be16(red) + be16(green) + be16(blue));
                }
            },
        }
        out
    }

    /// Whether this background's shape fits a color type: a palette index
    /// for palette images, one value for grey ones, three for RGB ones.
    pub fn fits(&self, ct: ColorType) -> (r: bool)
        ensures
            r == match *self {
                Background::Palette(_) => ct == ColorType::Palette,
                Background::Gray(_) => ct == ColorType::Grey || ct == ColorType::GreyAlpha,
                Background::Rgb(..) => ct == ColorType::Rgb || ct == ColorType::Rgba,
            },
    {
        match *self {
            Background::Palette(_) => ct == ColorType::Palette,
            Background::Gray(_) => ct == ColorType::Grey || ct == ColorType::GreyAlpha,
            Background::Rgb(..) => ct == ColorType::Rgb || ct == ColorType::Rgba,
        }
    }
}

/// The pHYs payload: pixels per unit in each direction, and whether the unit
/// is the meter (else unknown).
#[derive(Clone, Copy, Debug, PartialEq, Eq, Structural)]
pub struct Physical {
    pub ppu_x: u32,
    pub ppu_y: u32,
    pub is_meter: bool,
}

impl Physical {
    /// Decodes pHYs data: exactly 9 bytes, with a unit of 0 or 1.
    pub fn parse(d: &[u8]) -> (r: Result<Physical, DecodeError>)
        ensures
            d@.len() != 9 ==> r == Err::<Physical, DecodeError>(DecodeError::ChunkLength(PHYSICAL)),
            d@.len() == 9 && d@[8] > 1 ==> r == Err::<Physical, DecodeError>(DecodeError::PhysUnits),
            d@.len() == 9 && d@[8] <= 1 ==> r == Ok::<Physical, DecodeError>(
                Physical { ppu_x: be32_at(d@, 0), ppu_y: be32_at(d@, 4), is_meter: d@[8] == 1 },
            ),
    {
        if d.len() != 9 {
            return Err(DecodeError::ChunkLength(PHYSICAL));
        }
        let is_meter = match d[8] {
            0 => false,
            1 => true,
            _ => {
                return Err(DecodeError::PhysUnits);
            },
        };
        Ok(Physical { ppu_x: read_u32(d, 0), ppu_y: read_u32(d, 4), is_meter })
    }

    /// The pHYs data of this payload.
    pub fn write(&self) -> (r: Vec<u8>)
        ensures
            r@ == be32(self.ppu_x) + be32(self.ppu_y) + seq![if self.is_meter { 1u8 } else { 0u8 }],
    {
        let mut out: Vec<u8> = Vec::new();
        push_be32(&mut out, self.ppu_x);
        push_be32(&mut out, self.ppu_y);
        out.push(if self.is_meter {
            1
        } else {
            0
        });
        proof {
            assert(out@ =~= be32(self.ppu_x) + be32(self.ppu_y) + seq![if self.is_meter { 1u8 } else { 0u8 }]);
        }
        out
    }
}

/// The tIME payload.
#[derive(Clone, Copy, Debug, PartialEq, Eq, Structural)]
pub struct Time {
    pub year: u16,
    pub month: u8,
    pub day: u8,
    pub hour: u8,
    pub minute: u8,
    pub second: u8,
}

impl Time {
    /// A time stamp.
    pub fn new(year: u16, month: u8, day: u8, hour: u8, minute: u8, second: u8) -> (r: Time)
        ensures
            r == (Time { year, month, day, hour, minute, second }),
    {
        Time { year, month, day, hour, minute, second }
    }

    /// Decodes tIME data: exactly 7 bytes, with no range checks.
    pub fn parse(d: &[u8]) -> (r: Result<Time, DecodeError>)
        ensures
            d@.len() != 7 ==> r == Err::<Time, DecodeError>(DecodeError::ChunkLength(TIME)),
            d@.len() == 7 ==> r == Ok::<Time, DecodeError>(
                Time { year: be16_at(d@, 0), month: d@[2], day: d@[3], hour: d@[4], minute: d@[5], second: d@[6] },
            ),
    {
        if d.len() != 7 {
            return Err(DecodeError::ChunkLength(TIME));
        }
        Ok(Time { year: read_u16(d, 0), month: d[2], day: d[3], hour: d[4], minute: d[5], second: d[6] })
    }

    /// The tIME data of this payload.
    pub fn write(&self) -> (r: Vec<u8>)
        ensures
            r@ == be16(self.year) + seq![self.month, self.day, self.hour, self.minute, self.second],
    {
        let mut out: Vec<u8> = Vec::new();
        push_be16(&mut out, self.year);
        out.push(self.month);
        out.push(self.day);
        out.push(self.hour);
        out.push(self.minute);
        out.push(self.second);
        proof {
            assert(out@ =~= be16(self.year) + seq![self.month, self.day, self.hour, self.minute, self.second]);
        }
        out
    }
}

/// The IDAT payload: a piece of the compressed image data.
#[derive(Clone, Debug)]
pub struct ImageData {
    pub data: Vec<u8>,
}

impl ImageData {
    /// A piece of compressed image data.
    pub fn with_data(data: Vec<u8>) -> (r: ImageData)
        ensures
            r.data@ == data@,
    {
        ImageData { data }
    }

    /// The bytes of this piece.
    pub fn data(&self) -> (r: &Vec<u8>)
        ensures
            r@ == self.data@,
    {
        &self.data
    }
}

/// The IEND payload, which is empty.
#[derive(Clone, Copy, Debug, PartialEq, Eq, Structural)]
pub struct ImageEnd;

/// A chunk of a name this codec does not know, kept verbatim.
#[derive(Clone, Debug)]
pub struct Unknown {
    pub name: [u8; 4],
    pub data: Vec<u8>,
}

} // verus!
