//! The frame assembler on the decoding side: walks the chunks in order,
//! enforces the ordering rules, collects the ancillary chunks and turns the
//! image data into a raster.

use vstd::prelude::*;

use crate::adam7::{dims_fit, is_raster_of};
use crate::chunk::{
    ihdr_of, palette_of, Background, Physical, Rgb8, Time, Transparency, Unknown, BACKGROUND, IMAGE_DATA,
    IMAGE_END, IMAGE_HEADER, ITEXT, PALETTE, PHYSICAL, TEXT, TIME, TRANSPARENCY, ZTEXT,
};
use crate::chunks::{chunk_error, chunk_name, chunk_ok, has_signature, known_name, Chunk, ChunkDecoder};
use crate::error::DecodeError;
use crate::framer::{frame_at, frames_from, lemma_frame_next};
use crate::header::{ColorType, ImageHeader};
use crate::order::{order_next, order_start, ChunkKind, Order, Phase};
use crate::pixels::{decode_scanlines, decoded_subs, expected_idat_size, scanlines_ok};
use crate::raster::{PngRaster, Step};
use crate::text::{CompressedText, InternationalText, Text};
use crate::zlib::{push_all, zlib_decompress, zlib_error, zlib_payload};

verus! {

/// The concatenated data of the IDAT frames.
pub open spec fn idat_concat(fs: Seq<([u8; 4], Seq<u8>)>) -> Seq<u8>
    decreases fs.len(),
{
    if fs.len() == 0 {
        Seq::empty()
    } else {
        idat_concat(fs.drop_last()) + if fs.last().0 == IMAGE_DATA {
            fs.last().1
        } else {
            Seq::empty()
        }
    }
}

/// Whether a chunk name marks a critical chunk (uppercase first letter).
pub open spec fn is_critical(n: [u8; 4]) -> bool {
    n[0] & 0x20 == 0
}

/// The kind of a frame, for the ordering rules, by its name.
pub open spec fn frame_kind(n: [u8; 4]) -> ChunkKind {
    if n == IMAGE_HEADER {
        ChunkKind::Header
    } else if n == IMAGE_DATA {
        ChunkKind::Data
    } else if n == IMAGE_END {
        ChunkKind::End
    } else if n == PALETTE {
        ChunkKind::Palette
    } else if n == BACKGROUND {
        ChunkKind::Background
    } else if n == TRANSPARENCY {
        ChunkKind::Transparency
    } else if n == PHYSICAL {
        ChunkKind::Physical
    } else if n == TIME {
        ChunkKind::Time
    } else if n == TEXT || n == ZTEXT || n == ITEXT {
        ChunkKind::Text
    } else if is_critical(n) {
        ChunkKind::Critical(n)
    } else {
        ChunkKind::Ancillary
    }
}

/// The kind of a chunk, for the ordering rules.
pub fn kind_of(c: &Chunk) -> (r: ChunkKind)
    requires
        c matches Chunk::Unknown(u) ==> !known_name(u.name),
    ensures
        r == frame_kind(chunk_name(*c)),
{
    proof {
        lemma_name_constants();
    }
    match c {
        Chunk::ImageHeader(_) => ChunkKind::Header,
        Chunk::ImageData(_) => ChunkKind::Data,
        Chunk::ImageEnd(_) => ChunkKind::End,
        Chunk::Palette(_) => ChunkKind::Palette,
        Chunk::Background(_) => ChunkKind::Background,
        Chunk::Transparency(_) => ChunkKind::Transparency,
        Chunk::Physical(_) => ChunkKind::Physical,
        Chunk::Time(_) => ChunkKind::Time,
        Chunk::Text(_) | Chunk::CompressedText(_) | Chunk::InternationalText(_) => ChunkKind::Text,
        Chunk::Unknown(u) => if u.name[0] & 0x20 == 0 {
            ChunkKind::Critical(u.name)
        } else {
            ChunkKind::Ancillary
        },
    }
}

/// The chunk names are pairwise distinct.
pub proof fn lemma_name_constants()
    ensures
        IMAGE_DATA != IMAGE_HEADER,
        IMAGE_END != IMAGE_HEADER && IMAGE_END != IMAGE_DATA,
        PALETTE != IMAGE_HEADER && PALETTE != IMAGE_DATA && PALETTE != IMAGE_END,
        BACKGROUND != IMAGE_HEADER && BACKGROUND != IMAGE_DATA && BACKGROUND != IMAGE_END && BACKGROUND != PALETTE,
        TRANSPARENCY != IMAGE_HEADER && TRANSPARENCY != IMAGE_DATA && TRANSPARENCY != IMAGE_END && TRANSPARENCY != PALETTE
            && TRANSPARENCY != BACKGROUND,
        PHYSICAL != IMAGE_HEADER && PHYSICAL != IMAGE_DATA && PHYSICAL != IMAGE_END && PHYSICAL != PALETTE
            && PHYSICAL != BACKGROUND && PHYSICAL != TRANSPARENCY,
        TIME != IMAGE_HEADER && TIME != IMAGE_DATA && TIME != IMAGE_END && TIME != PALETTE && TIME != BACKGROUND
            && TIME != TRANSPARENCY && TIME != PHYSICAL,
        TEXT != IMAGE_HEADER && TEXT != IMAGE_DATA && TEXT != IMAGE_END && TEXT != PALETTE && TEXT != BACKGROUND
            && TEXT != TRANSPARENCY && TEXT != PHYSICAL && TEXT != TIME,
        ZTEXT != IMAGE_HEADER && ZTEXT != IMAGE_DATA && ZTEXT != IMAGE_END && ZTEXT != PALETTE && ZTEXT != BACKGROUND
            && ZTEXT != TRANSPARENCY && ZTEXT != PHYSICAL && ZTEXT != TIME,
        ITEXT != IMAGE_HEADER && ITEXT != IMAGE_DATA && ITEXT != IMAGE_END && ITEXT != PALETTE && ITEXT != BACKGROUND
            && ITEXT != TRANSPARENCY && ITEXT != PHYSICAL && ITEXT != TIME,
{
    assert(IMAGE_DATA[1] != IMAGE_HEADER[1]);
    assert(IMAGE_END[1] != IMAGE_HEADER[1] && IMAGE_END[1] != IMAGE_DATA[1]);
    assert(PALETTE[0] != IMAGE_HEADER[0] && PALETTE[0] != IMAGE_DATA[0] && PALETTE[0] != IMAGE_END[0]);
    assert(BACKGROUND[0] != IMAGE_HEADER[0] && BACKGROUND[0] != IMAGE_DATA[0] && BACKGROUND[0] != IMAGE_END[0]
        && BACKGROUND[0] != PALETTE[0]);
    assert(TRANSPARENCY[0] != IMAGE_HEADER[0] && TRANSPARENCY[0] != IMAGE_DATA[0] && TRANSPARENCY[0] != IMAGE_END[0]
        && TRANSPARENCY[0] != PALETTE[0] && TRANSPARENCY[0] != BACKGROUND[0]);
    assert(PHYSICAL[0] != IMAGE_HEADER[0] && PHYSICAL[0] != IMAGE_DATA[0] && PHYSICAL[0] != IMAGE_END[0]
        && PHYSICAL[0] != PALETTE[0] && PHYSICAL[0] != BACKGROUND[0] && PHYSICAL[0] != TRANSPARENCY[0]);
    assert(TIME[0] != IMAGE_HEADER[0] && TIME[0] != IMAGE_DATA[0] && TIME[0] != IMAGE_END[0] && TIME[0] != PALETTE[0]
        && TIME[0] != BACKGROUND[0] && TIME[1] != TRANSPARENCY[1] && TIME[0] != PHYSICAL[0]);
    assert(TEXT[0] != IMAGE_HEADER[0] && TEXT[0] != IMAGE_DATA[0] && TEXT[0] != IMAGE_END[0] && TEXT[0] != PALETTE[0]
        && TEXT[0] != BACKGROUND[0] && TEXT[1] != TRANSPARENCY[1] && TEXT[0] != PHYSICAL[0] && TEXT[1] != TIME[1]);
    assert(ZTEXT[0] != IMAGE_HEADER[0] && ZTEXT[0] != IMAGE_DATA[0] && ZTEXT[0] != IMAGE_END[0] && ZTEXT[0] != PALETTE[0]
        && ZTEXT[0] != BACKGROUND[0] && ZTEXT[0] != TRANSPARENCY[0] && ZTEXT[0] != PHYSICAL[0] && ZTEXT[0] != TIME[0]);
    assert(ITEXT[0] != IMAGE_HEADER[0] && ITEXT[0] != IMAGE_DATA[0] && ITEXT[0] != IMAGE_END[0] && ITEXT[0] != PALETTE[0]
        && ITEXT[0] != BACKGROUND[0] && ITEXT[0] != TRANSPARENCY[0] && ITEXT[0] != PHYSICAL[0] && ITEXT[0] != TIME[0]);
}

/// Whether a bKGD payload of `len` bytes fits a color type.
pub open spec fn background_fits(len: nat, ct: ColorType) -> bool {
    if len == 1 {
        ct == ColorType::Palette
    } else if len == 2 {
        ct == ColorType::Grey || ct == ColorType::GreyAlpha
    } else {
        ct == ColorType::Rgb || ct == ColorType::Rgba
    }
}

/// Whether a tRNS payload of `len` bytes, read after a palette or not,
/// fits a color type.
pub open spec fn transparency_fits_spec(after_palette: bool, len: nat, ct: ColorType) -> bool {
    if after_palette {
        ct == ColorType::Palette
    } else if len == 2 {
        ct == ColorType::Grey
    } else {
        ct == ColorType::Rgb
    }
}

/// The state after one more frame: none where its chunk does not decode,
/// breaks the ordering rules, or does not fit the color type.
pub open spec fn walk_step(
    st: (Order, Option<usize>, Option<ImageHeader>),
    name: [u8; 4],
    d: Seq<u8>,
) -> Option<(Order, Option<usize>, Option<ImageHeader>)> {
    let (o, pl, hd) = st;
    if !chunk_ok(name, d, pl) {
        None
    } else {
        let pal_img = name == IMAGE_HEADER && ihdr_of(d)->Ok_0.color_type == ColorType::Palette;
        match order_next(o, frame_kind(name), pal_img) {
            Err(_) => None,
            Ok(o2) => {
                let ct = match hd {
                    Some(h) => h.color_type,
                    None => ColorType::Grey,
                };
                if name == BACKGROUND && !background_fits(d.len(), ct) {
                    None
                } else if name == TRANSPARENCY && !transparency_fits_spec(pl is Some, d.len(), ct) {
                    None
                } else {
                    Some((
                        o2,
                        if name == PALETTE {
                            Some((d.len() / 3) as usize)
                        } else {
                            pl
                        },
                        if name == IMAGE_HEADER {
                            Some(ihdr_of(d)->Ok_0)
                        } else {
                            hd
                        },
                    ))
                }
            },
        }
    }
}

/// The state of the walk over the first `n` frames: the ordering state, the
/// size of the last palette, and the header.
pub open spec fn walk(fs: Seq<([u8; 4], Seq<u8>)>, n: nat) -> Option<(Order, Option<usize>, Option<ImageHeader>)>
    decreases n,
{
    if n == 0 {
        Some((order_start(), None, None))
    } else {
        match walk(fs, (n - 1) as nat) {
            None => None,
            Some(st) => walk_step(st, fs[n - 1].0, fs[n - 1].1),
        }
    }
}

/// Whether the scanlines of a walk's image decode.
pub open spec fn image_ok(fs: Seq<([u8; 4], Seq<u8>)>, st: (Order, Option<usize>, Option<ImageHeader>)) -> bool {
    match st.2 {
        None => false,
        Some(h) => st.0.phase == Phase::Done && dims_fit(h.width as nat, h.height as nat, h.spec_bpp()) && match zlib_payload(
            idat_concat(fs),
        ) {
            None => false,
            Some(p) => scanlines_ok(p, h.width as nat, h.height as nat, h.spec_bpp(), h.interlace),
        },
    }
}

/// Whether a byte buffer decodes: the signature, frames with good CRCs to
/// the end, chunks that decode and obey the ordering rules through IEND,
/// image data that decompresses, and scanlines of the size the header
/// implies with known filter types.
pub open spec fn decode_ok(b: Seq<u8>) -> bool {
    has_signature(b) && match frames_from(b, 8) {
        Err(_) => false,
        Ok(fs) => match walk(fs, fs.len()) {
            None => false,
            Some(st) => image_ok(fs, st),
        },
    }
}

/// Why one more frame stops the walk, where `walk_step` gives none: its
/// chunk does not decode, it breaks the ordering rules, or it does not fit
/// the color type.
pub open spec fn step_error(
    st: (Order, Option<usize>, Option<ImageHeader>),
    name: [u8; 4],
    d: Seq<u8>,
) -> DecodeError {
    let (o, pl, hd) = st;
    if !chunk_ok(name, d, pl) {
        chunk_error(name, d, pl)
    } else {
        let pal_img = name == IMAGE_HEADER && ihdr_of(d)->Ok_0.color_type == ColorType::Palette;
        match order_next(o, frame_kind(name), pal_img) {
            Err(e) => e,
            Ok(_) => {
                let ct = match hd {
                    Some(h) => h.color_type,
                    None => ColorType::Grey,
                };
                if name == BACKGROUND {
                    DecodeError::BackgroundSize(ct)
                } else {
                    DecodeError::ChunkLength(TRANSPARENCY)
                }
            },
        }
    }
}

/// The first error of the walk over the frames from `pos` on, starting in
/// state `st`: a framing error or a step that fails; none where the walk
/// reaches the end of the input.
pub open spec fn run_error(d: Seq<u8>, pos: int, st: (Order, Option<usize>, Option<ImageHeader>)) -> Option<DecodeError>
    decreases d.len() - pos,
{
    match frame_at(d, pos) {
        Err(e) => Some(e),
        Ok(None) => None,
        Ok(Some(f)) => if pos < f.2 <= d.len() {
            match walk_step(st, f.0, f.1) {
                None => Some(step_error(st, f.0, f.1)),
                Some(st2) => run_error(d, f.2, st2),
            }
        } else {
            None
        },
    }
}

/// Why a walk that read every frame yields no image: no IHDR or no IDAT,
/// no IEND, sizes too large to address, image data that does not
/// decompress, or scanlines of the wrong size or with an unknown filter
/// type.
pub open spec fn final_error(fs: Seq<([u8; 4], Seq<u8>)>, st: (Order, Option<usize>, Option<ImageHeader>)) -> DecodeError {
    match st.2 {
        None => DecodeError::NoImageData,
        Some(h) => if st.0.phase == Phase::Aux {
            DecodeError::NoImageData
        } else if st.0.phase != Phase::Done {
            DecodeError::Eof
        } else if !dims_fit(h.width as nat, h.height as nat, h.spec_bpp()) {
            DecodeError::ImageDimensions
        } else {
            match zlib_payload(idat_concat(fs)) {
                None => zlib_error(idat_concat(fs)),
                Some(p) => if p.len() != expected_idat_size(h.width as nat, h.height as nat, h.spec_bpp(), h.interlace) {
                    DecodeError::ImageDataSize
                } else {
                    DecodeError::IllegalFilterType
                },
            }
        },
    }
}

/// The error decoding a byte buffer gives: `InvalidSignature`, else the
/// first error of the walk over its frames in file order, else why the
/// frames yield no image.
pub open spec fn decode_error(b: Seq<u8>) -> DecodeError {
    if !has_signature(b) {
        DecodeError::InvalidSignature
    } else {
        match run_error(b, 8, (order_start(), None, None)) {
            Some(e) => e,
            None => match frames_from(b, 8) {
                Err(e) => e,
                Ok(fs) => match walk(fs, fs.len()) {
                    None => DecodeError::Eof,
                    Some(st) => final_error(fs, st),
                },
            },
        }
    }
}

/// The data of the last frame of a name, if any.
pub open spec fn named_data(fs: Seq<([u8; 4], Seq<u8>)>, name: [u8; 4]) -> Option<Seq<u8>>
    decreases fs.len(),
{
    if fs.len() == 0 {
        None
    } else if fs.last().0 == name {
        Some(fs.last().1)
    } else {
        named_data(fs.drop_last(), name)
    }
}

/// The palette colors that the PLTE frame of a list holds.
pub open spec fn palette_colors(fs: Seq<([u8; 4], Seq<u8>)>) -> Seq<Rgb8> {
    match named_data(fs, PALETTE) {
        Some(x) => palette_of(x),
        None => Seq::empty(),
    }
}

/// The alpha values that the tRNS frame of a palette image holds; none for
/// other images.
pub open spec fn palette_alphas(fs: Seq<([u8; 4], Seq<u8>)>, ct: ColorType) -> Seq<u8> {
    if ct == ColorType::Palette {
        match named_data(fs, TRANSPARENCY) {
            Some(x) => x,
            None => Seq::empty(),
        }
    } else {
        Seq::empty()
    }
}

/// The frames of the whole buffer are `seen` and those from `pos`, or both
/// fail.
pub open spec fn frames_link(d: Seq<u8>, pos: int, seen: Seq<([u8; 4], Seq<u8>)>) -> bool {
    match frames_from(d, pos) {
        Ok(rest) => frames_from(d, 8) == Ok::<Seq<([u8; 4], Seq<u8>)>, DecodeError>(seen + rest),
        Err(_) => frames_from(d, 8) is Err,
    }
}

proof fn lemma_frames_link_step(d: Seq<u8>, pos: int, seen: Seq<([u8; 4], Seq<u8>)>)
    requires
        0 <= pos,
        frames_link(d, pos, seen),
        frame_at(d, pos) is Ok,
        frame_at(d, pos)->Ok_0 is Some,
    ensures
        frames_link(d, frame_at(d, pos)->Ok_0->Some_0.2, seen.push(frame_entry(frame_at(d, pos)->Ok_0->Some_0))),
{
    let f = frame_at(d, pos)->Ok_0->Some_0;
    lemma_frame_next(d, pos);
    match frames_from(d, f.2) {
        Ok(rest) => {
            assert(frames_from(d, pos) == Ok::<Seq<([u8; 4], Seq<u8>)>, DecodeError>(seq![frame_entry(f)] + rest));
            assert(seen + (seq![frame_entry(f)] + rest) =~= seen.push(frame_entry(f)) + rest);
        },
        Err(_) => {
            assert(frames_from(d, pos) is Err);
        },
    }
}

proof fn lemma_walk_prefix(fs: Seq<([u8; 4], Seq<u8>)>, seen: Seq<([u8; 4], Seq<u8>)>, k: nat)
    requires
        k <= seen.len() <= fs.len(),
        fs.subrange(0, seen.len() as int) == seen,
    ensures
        walk(fs, k) == walk(seen, k),
    decreases k,
{
    if k > 0 {
        lemma_walk_prefix(fs, seen, (k - 1) as nat);
        assert(fs[k - 1] == fs.subrange(0, seen.len() as int)[k - 1]);
    }
}

proof fn lemma_walk_none(fs: Seq<([u8; 4], Seq<u8>)>, k: nat, m: nat)
    requires
        k <= m,
        walk(fs, k) is None,
    ensures
        walk(fs, m) is None,
    decreases m,
{
    if m > k {
        lemma_walk_none(fs, k, (m - 1) as nat);
    }
}

/// A walk that fails on the next frame makes the buffer fail to decode.
proof fn lemma_walk_fails(d: Seq<u8>, pos: int, seen: Seq<([u8; 4], Seq<u8>)>)
    requires
        0 <= pos,
        frames_link(d, pos, seen),
        frame_at(d, pos) is Ok,
        frame_at(d, pos)->Ok_0 is Some,
        walk(seen.push(frame_entry(frame_at(d, pos)->Ok_0->Some_0)), seen.len() + 1) is None,
    ensures
        !decode_ok(d),
{
    let f = frame_at(d, pos)->Ok_0->Some_0;
    let s2 = seen.push(frame_entry(f));
    lemma_frames_link_step(d, pos, seen);
    lemma_frame_next(d, pos);
    if frames_from(d, 8) is Ok {
        let fs = frames_from(d, 8)->Ok_0;
        let rest = frames_from(d, f.2)->Ok_0;
        assert(fs == s2 + rest);
        assert(fs.subrange(0, s2.len() as int) =~= s2);
        lemma_walk_prefix(fs, s2, s2.len());
        lemma_walk_none(fs, s2.len(), fs.len());
    }
}

/// Whether an image's sizes let every bit index fit in a `usize`.
pub fn fits(w: u32, h: u32, bpp: u8) -> (r: bool)
    ensures
        r == dims_fit(w as nat, h as nat, bpp as nat),
{
    let wn = w as u128;
    let bn = bpp as u128;
    assert(wn * bn <= 0xFFFF_FFFFu128 * 0xFFu128) by (nonlinear_arith)
        requires wn <= 0xFFFF_FFFFu128, bn <= 0xFFu128;
    let a: u128 = wn * bn + 8;
    let b: u128 = h as u128 + 8;
    assert(a * b <= 0x1_0000_0000_0000u128 * 0x1_0000_0000_0000u128) by (nonlinear_arith)
        requires a <= 0x1_0000_0000_0000u128, b <= 0x1_0000_0000_0000u128;
    a * b * 16 <= usize::MAX as u128
}

/// Whether a tRNS payload has the shape the color type asks for: an alpha
/// palette for palette images, a grey key for grey ones, an RGB key for RGB
/// ones, and none for types with an alpha channel. The decoder reports a
/// mismatch as a tRNS length error.
pub fn transparency_fits(t: &Transparency, ct: ColorType) -> (r: bool)
    ensures
        r == match *t {
            Transparency::Palette(_) => ct == ColorType::Palette,
            Transparency::GrayKey(_) => ct == ColorType::Grey,
            Transparency::RgbKey(..) => ct == ColorType::Rgb,
        },
{
    match t {
        Transparency::Palette(_) => ct == ColorType::Palette,
        Transparency::GrayKey(_) => ct == ColorType::Grey,
        Transparency::RgbKey(..) => ct == ColorType::Rgb,
    }
}

/// A decoded PNG file: its header, ancillary chunks and raster.
pub struct StepDecoder {
    pub header: ImageHeader,
    pub palette: Vec<Rgb8>,
    pub transparency: Option<Transparency>,
    pub background: Option<Background>,
    pub physical: Option<Physical>,
    pub time: Option<Time>,
    pub text: Vec<Text>,
    pub compressed_text: Vec<CompressedText>,
    pub international_text: Vec<InternationalText>,
    pub unknown: Vec<Unknown>,
    pub raster: PngRaster,
}

/// The image data a chunk carries, if it is an IDAT chunk.
pub open spec fn chunk_idat(c: Chunk) -> Seq<u8> {
    match c {
        Chunk::ImageData(d) => d.data@,
        _ => Seq::empty(),
    }
}

/// The pieces of one frame: its name and data.
pub open spec fn frame_entry(f: ([u8; 4], Seq<u8>, int)) -> ([u8; 4], Seq<u8>) {
    (f.0, f.1)
}

impl StepDecoder {
    /// Decodes a PNG file: checks the signature, walks the chunks under the
    /// ordering rules, and decodes the image data into a raster. It
    /// succeeds exactly on the buffers `decode_ok` describes.
    pub fn new(bytes: Vec<u8>) -> (r: Result<StepDecoder, DecodeError>)
        ensures
            r is Ok <==> decode_ok(bytes@),
            r is Err ==> r == Err::<StepDecoder, DecodeError>(decode_error(bytes@)),
            !has_signature(bytes@) ==> r == Err::<StepDecoder, DecodeError>(DecodeError::InvalidSignature),
            r matches Ok(d) ==> frames_from(bytes@, 8) matches Ok(fs) && fs.len() >= 2
                && fs[0].0 == IMAGE_HEADER && fs.last().0 == IMAGE_END
                && ihdr_of(fs[0].1) == Ok::<ImageHeader, DecodeError>(d.header)
                && d.header.valid()
                && zlib_payload(idat_concat(fs)) is Some
                && d.raster.width == d.header.width && d.raster.height == d.header.height
                && d.raster.color_type == d.header.color_type && d.raster.bit_depth == d.header.bit_depth
                && d.raster.palette@ == d.palette@
                && d.palette@ == palette_colors(fs)
                && d.raster.alpha@ == palette_alphas(fs, d.header.color_type)
                && is_raster_of(
                    d.raster.pixels@,
                    decoded_subs(zlib_payload(idat_concat(fs))->0, d.header.width as nat, d.header.height as nat, d.header.spec_bpp(), d.header.interlace),
                    d.header.width as nat,
                    d.header.height as nat,
                    d.header.spec_bpp(),
                    d.header.interlace,
                ),
    {
        let mut dec = ChunkDecoder::new(bytes)?;
        let ghost input = dec.input();
        let mut order = Order::new();
        let mut header: Option<ImageHeader> = None;
        let mut idat: Vec<u8> = Vec::new();
        let mut palette: Vec<Rgb8> = Vec::new();
        let mut transparency: Option<Transparency> = None;
        let mut background: Option<Background> = None;
        let mut physical: Option<Physical> = None;
        let mut time: Option<Time> = None;
        let mut text: Vec<Text> = Vec::new();
        let mut compressed_text: Vec<CompressedText> = Vec::new();
        let mut international_text: Vec<InternationalText> = Vec::new();
        let mut unknown: Vec<Unknown> = Vec::new();
        let ghost mut seen: Seq<([u8; 4], Seq<u8>)> = Seq::empty();
        proof {
            match frames_from(input, 8) {
                Ok(rest) => {
                    assert(seen + rest =~= rest);
                },
                Err(_) => {},
            }
            lemma_name_constants();
        }
        loop
            invariant_except_break
                !dec.finished(),
            invariant
                dec.wf(),
                dec.input() == input,
                has_signature(input),
                input == bytes@,
                8 <= dec.position() <= input.len(),
                frames_link(input, dec.position(), seen),
                walk(seen, seen.len()) == Some((order, dec.palette_len(), header)),
                run_error(input, 8, (order_start(), None, None)) == run_error(input, dec.position(), (order, dec.palette_len(), header)),
                palette@ == palette_colors(seen),
                header is None ==> transparency is None,
                header matches Some(h) ==> (h.color_type == ColorType::Palette ==> match named_data(seen, TRANSPARENCY) {
                    Some(x) => transparency matches Some(Transparency::Palette(a)) && a@ == x,
                    None => transparency is None,
                }),
                header matches Some(h) ==> (h.color_type != ColorType::Palette ==> !(transparency matches Some(Transparency::Palette(_)))),
                idat@ == idat_concat(seen),
                (order.phase == Phase::AwaitHeader) <==> seen.len() == 0,
                (order.phase == Phase::AwaitHeader) <==> header is None,
                seen.len() > 0 ==> seen[0].0 == IMAGE_HEADER,
                header matches Some(h) ==> ihdr_of(seen[0].1) == Ok::<ImageHeader, DecodeError>(h) && h.valid()
                    && order.palette_image == (h.color_type == ColorType::Palette),
                order.phase == Phase::Done ==> seen.len() >= 2 && seen.last().0 == IMAGE_END,
                IMAGE_HEADER != IMAGE_END,
            ensures
                frame_at(input, dec.position()) == Ok::<Option<([u8; 4], Seq<u8>, int)>, DecodeError>(None),
            decreases input.len() - dec.position(),
        {
            let ghost pos = dec.position();
            let ghost fr = frame_at(input, pos);
            let ghost pl0 = dec.palette_len();
            let next = dec.next_chunk();
            let c = match next {
                None => {
                    break;
                },
                Some(Err(e)) => {
                    proof {
                        lemma_frame_next(input, pos);
                        if fr is Err {
                            assert(frames_from(input, pos) is Err);
                            assert(run_error(input, pos, (order, pl0, header)) == Some(fr->Err_0));
                        } else {
                            let f = fr->Ok_0->Some_0;
                            assert(!chunk_ok(f.0, f.1, pl0));
                            let s2 = seen.push(frame_entry(f));
                            assert(s2.subrange(0, seen.len() as int) =~= seen);
                            lemma_walk_prefix(s2, seen, seen.len());
                            assert(walk(s2, seen.len() + 1) is None);
                            lemma_walk_fails(input, pos, seen);
                            assert(run_error(input, pos, (order, pl0, header)) == Some(step_error((order, pl0, header), f.0, f.1)));
                        }
                    }
                    return Err(e);
                },
                Some(Ok(c)) => c,
            };
            let ghost f = fr->Ok_0->Some_0;
            let ghost s2 = seen.push(frame_entry(f));
            proof {
                lemma_frame_next(input, pos);
                lemma_frames_link_step(input, pos, seen);
                crate::chunks::lemma_chunk_name_data(c);
                assert(s2.subrange(0, seen.len() as int) =~= seen);
                lemma_walk_prefix(s2, seen, seen.len());
            }
            let k = kind_of(&c);
            let pal_img = match &c {
                Chunk::ImageHeader(h) => h.color_type == ColorType::Palette,
                _ => false,
            };
            let ghost idat0 = idat@;
            let ghost seen0 = seen;
            let ghost cdata: Seq<u8> = chunk_idat(c);
            proof {
                assert(c is ImageData ==> cdata == f.1);
                assert(f.0 == IMAGE_DATA <==> c is ImageData);
                assert(pal_img == (f.0 == IMAGE_HEADER && ihdr_of(f.1)->Ok_0.color_type == ColorType::Palette));
            }
            let ghost order0 = order;
            order = match order.advance(k, pal_img) {
                Ok(o) => o,
                Err(e) => {
                    proof {
                        assert(walk(s2, seen.len() + 1) is None);
                        lemma_walk_fails(input, pos, seen);
                        assert(run_error(input, pos, (order, pl0, header)) == Some(step_error((order, pl0, header), f.0, f.1)));
                    }
                    return Err(e);
                },
            };
            proof {
                seen = s2;
            }
            match c {
                Chunk::ImageHeader(h) => {
                    header = Some(h);
                },
                Chunk::ImageData(d) => {
                    push_all(&mut idat, d.data.as_slice());
                },
                Chunk::ImageEnd(_) => {},
                Chunk::Palette(p) => {
                    palette = p.palette;
                },
                Chunk::Background(b) => {
                    let ct = match header {
                        Some(h) => h.color_type,
                        None => ColorType::Grey,
                    };
                    if !b.fits(ct) {
                        proof {
                            assert(!background_fits(f.1.len(), ct));
                            assert(walk(s2, seen0.len() + 1) is None);
                            lemma_walk_fails(input, pos, seen0);
                            assert(run_error(input, pos, (order0, pl0, header)) == Some(step_error((order0, pl0, header), f.0, f.1)));
                        }
                        return Err(DecodeError::BackgroundSize(ct));
                    }
                    background = Some(b);
                },
                Chunk::Transparency(t) => {
                    let ct = match header {
                        Some(h) => h.color_type,
                        None => ColorType::Grey,
                    };
                    if !transparency_fits(&t, ct) {
                        proof {
                            assert(!transparency_fits_spec(pl0 is Some, f.1.len(), ct));
                            assert(walk(s2, seen0.len() + 1) is None);
                            lemma_walk_fails(input, pos, seen0);
                            assert(run_error(input, pos, (order0, pl0, header)) == Some(step_error((order0, pl0, header), f.0, f.1)));
                        }
                        return Err(DecodeError::ChunkLength(TRANSPARENCY));
                    }
                    transparency = Some(t);
                },
                Chunk::Physical(p) => {
                    physical = Some(p);
                },
                Chunk::Time(t) => {
                    time = Some(t);
                },
                Chunk::Text(t) => {
                    text.push(t);
                },
                Chunk::CompressedText(t) => {
                    compressed_text.push(t);
                },
                Chunk::InternationalText(t) => {
                    international_text.push(t);
                },
                Chunk::Unknown(u) => {
                    unknown.push(u);
                },
            }
            proof {
                assert(seen.drop_last() =~= seen0);
                assert(seen.last() == frame_entry(f));
                assert(idat@ =~= idat0 + cdata);
                assert(idat_concat(seen) == idat_concat(seen0) + (if f.0 == IMAGE_DATA {
                    f.1
                } else {
                    Seq::<u8>::empty()
                }));
                assert(cdata =~= (if f.0 == IMAGE_DATA {
                    f.1
                } else {
                    Seq::<u8>::empty()
                }));
                assert(walk(seen, seen.len()) == Some((order, dec.palette_len(), header)));
            }
        }
        proof {
            assert(frames_from(input, dec.position()) == Ok::<Seq<([u8; 4], Seq<u8>)>, DecodeError>(Seq::empty()));
            assert(seen + Seq::<([u8; 4], Seq<u8>)>::empty() =~= seen);
            assert(frames_from(input, 8) == Ok::<Seq<([u8; 4], Seq<u8>)>, DecodeError>(seen));
        }
        let h = match header {
            Some(h) => h,
            None => {
                return Err(DecodeError::NoImageData);
            },
        };
        if order.phase != Phase::Done {
            if order.phase == Phase::Aux {
                return Err(DecodeError::NoImageData);
            }
            return Err(DecodeError::Eof);
        }
        let bpp = h.bpp();
        if !fits(h.width, h.height, bpp) {
            return Err(DecodeError::ImageDimensions);
        }
        let payload = zlib_decompress(idat.as_slice())?;
        let pixels = decode_scanlines(payload.as_slice(), h.width as usize, h.height as usize, bpp as usize, h.interlace)?;
        let alpha = match &transparency {
            Some(Transparency::Palette(a)) => crate::zlib::slice_range(a.as_slice(), 0, a.len()),
            _ => Vec::new(),
        };
        let raster = PngRaster {
            width: h.width,
            height: h.height,
            color_type: h.color_type,
            bit_depth: h.bit_depth,
            pixels,
            palette: crate::decoder::copy_palette(&palette),
            alpha,
        };
        Ok(StepDecoder {
            header: h,
            palette,
            transparency,
            background,
            physical,
            time,
            text,
            compressed_text,
            international_text,
            unknown,
            raster,
        })
    }

    /// The decoded image as a still step.
    pub fn into_step(self) -> (r: Step)
        ensures
            r.raster.pixels@ == self.raster.pixels@,
            r.raster.width == self.raster.width,
            r.raster.height == self.raster.height,
            r.raster.color_type == self.raster.color_type,
            r.raster.bit_depth == self.raster.bit_depth,
            r.raster.palette@ == self.raster.palette@,
            r.raster.alpha@ == self.raster.alpha@,
            r.delay == 0,
    {
        Step { raster: self.raster, delay: 0 }
    }
}

/// A copy of a palette.
pub fn copy_palette(p: &Vec<Rgb8>) -> (r: Vec<Rgb8>)
    ensures
        r@ == p@,
{
    let mut r: Vec<Rgb8> = Vec::new();
    let mut i: usize = 0;
    while i < p.len()
        invariant
            i <= p@.len(),
            r@ == p@.subrange(0, i as int),
        decreases p@.len() - i,
    {
        r.push(p[i]);
        i = i + 1;
        proof {
            assert(r@ =~= p@.subrange(0, i as int));
        }
    }
    proof {
        assert(p@.subrange(0, i as int) =~= p@);
    }
    r
}

/// Decodes a PNG file to its single still step.
pub fn decode(bytes: Vec<u8>) -> (r: Result<Step, DecodeError>)
    ensures
        r is Ok <==> decode_ok(bytes@),
        r is Err ==> r == Err::<Step, DecodeError>(decode_error(bytes@)),
        !has_signature(bytes@) ==> r == Err::<Step, DecodeError>(DecodeError::InvalidSignature),
        r matches Ok(s) ==> frames_from(bytes@, 8) matches Ok(fs) && fs.len() >= 2
            && fs[0].0 == IMAGE_HEADER && fs.last().0 == IMAGE_END
            && (ihdr_of(fs[0].1) matches Ok(h)
            && zlib_payload(idat_concat(fs)) is Some
            && s.raster.width == h.width && s.raster.height == h.height
            && s.raster.color_type == h.color_type && s.raster.bit_depth == h.bit_depth
            && s.raster.palette@ == palette_colors(fs)
            && s.raster.alpha@ == palette_alphas(fs, h.color_type)
            && is_raster_of(
                s.raster.pixels@,
                decoded_subs(zlib_payload(idat_concat(fs))->0, h.width as nat, h.height as nat, h.spec_bpp(), h.interlace),
                h.width as nat,
                h.height as nat,
                h.spec_bpp(),
                h.interlace,
            )),
{
    let d = StepDecoder::new(bytes)?;
    Ok(d.into_step())
}

} // verus!
