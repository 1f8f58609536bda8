//! The frame assembler on the encoding side: IHDR, PLTE and tRNS where the
//! image has them, one IDAT with the compressed scanlines, and IEND.

use vstd::prelude::*;

use crate::adam7::{dims_fit, row_bytes};
use crate::chunk::{
    ihdr_bytes, palette_bytes, Palette, Rgb8, IMAGE_DATA, IMAGE_END, IMAGE_HEADER, PALETTE,
    TRANSPARENCY,
};
use crate::decoder::fits;
use crate::error::{DecodeError, EncodeError};
use crate::filter::FilterStrategy;
use crate::framer::{
    chunk_bytes, file_bytes, lemma_chunks_concat_push, write_frame, MAX_CHUNK_LEN, PNG_SIGNATURE,
};
use crate::header::{legal_depth, ColorType, ImageHeader, MAX_DIMENSION};
use crate::pixels::{encode_scanlines, encoded_scanlines};
use crate::raster::PngRaster;
use crate::zlib::{push_all, zlib_compress, zlib_payload, zlib_stream};
use crate::adam7::is_raster_of;
use crate::chunk::{ihdr_of, lemma_ihdr_round_trip};
use crate::decoder::{
    decode_ok, frame_kind, idat_concat, image_ok, named_data, palette_alphas, palette_colors, walk,
    walk_step,
};
use crate::chunk::{lemma_palette_round_trip, palette_of};
use crate::order::{order_start, ChunkKind, Order, Phase};
use crate::framer::{frames_from, lemma_chunks_frames};
use crate::pixels::{decoded_subs, lemma_scanlines_round_trip, raster_ok};

verus! {

/// A list of chunks obeys the ordering rules that matter to every reader:
/// IHDR first and IEND last, one of each, PLTE never after an IDAT, and the
/// IDAT chunks in one run.
pub open spec fn well_ordered(cs: Seq<([u8; 4], Seq<u8>)>) -> bool {
    &&& cs.len() >= 2
    &&& cs[0].0 == IMAGE_HEADER
    &&& cs.last().0 == IMAGE_END
    &&& forall|i: int| 0 < i < cs.len() ==> (#[trigger] cs[i]).0 != IMAGE_HEADER
    &&& forall|i: int| 0 <= i < cs.len() - 1 ==> (#[trigger] cs[i]).0 != IMAGE_END
    &&& forall|i: int, j: int| 0 <= i < cs.len() && 0 <= j < cs.len() && (#[trigger] cs[i]).0 == PALETTE && (#[trigger] cs[j]).0 == IMAGE_DATA ==> i < j
    &&& forall|i: int, j: int, k: int| 0 <= i < j < k < cs.len() && (#[trigger] cs[i]).0 == IMAGE_DATA && (#[trigger] cs[k]).0 == IMAGE_DATA ==> (#[trigger] cs[j]).0 == IMAGE_DATA
}

/// Whether an image is a palette image.
pub open spec fn is_palette(ct: ColorType) -> bool {
    ct == ColorType::Palette
}

/// The chunks a still image is written as: IHDR, then PLTE and tRNS for a
/// palette image (tRNS only with alpha values), one IDAT, and IEND.
pub open spec fn still_chunks(h: ImageHeader, palette: Seq<Rgb8>, alpha: Seq<u8>, idat: Seq<u8>) -> Seq<([u8; 4], Seq<u8>)> {
    seq![(IMAGE_HEADER, ihdr_bytes(h))] + (if is_palette(h.color_type) {
        seq![(PALETTE, palette_bytes(palette))]
    } else {
        Seq::empty()
    }) + (if is_palette(h.color_type) && alpha.len() > 0 {
        seq![(TRANSPARENCY, alpha)]
    } else {
        Seq::empty()
    }) + seq![(IMAGE_DATA, idat), (IMAGE_END, Seq::<u8>::empty())]
}

proof fn lemma_names_distinct()
    ensures
        IMAGE_HEADER != IMAGE_END,
        IMAGE_HEADER != IMAGE_DATA,
        IMAGE_HEADER != PALETTE,
        IMAGE_HEADER != TRANSPARENCY,
        IMAGE_END != IMAGE_DATA,
        IMAGE_END != PALETTE,
        IMAGE_END != TRANSPARENCY,
        IMAGE_DATA != PALETTE,
        IMAGE_DATA != TRANSPARENCY,
        PALETTE != TRANSPARENCY,
{
    assert(IMAGE_HEADER[1] != IMAGE_END[1]);
    assert(IMAGE_HEADER[1] != IMAGE_DATA[1]);
    assert(IMAGE_HEADER[0] != PALETTE[0]);
    assert(IMAGE_HEADER[0] != TRANSPARENCY[0]);
    assert(IMAGE_END[1] != IMAGE_DATA[1]);
    assert(IMAGE_END[0] != PALETTE[0]);
    assert(IMAGE_END[0] != TRANSPARENCY[0]);
    assert(IMAGE_DATA[0] != PALETTE[0]);
    assert(IMAGE_DATA[0] != TRANSPARENCY[0]);
    assert(PALETTE[0] != TRANSPARENCY[0]);
}

/// The chunks of a still image obey the ordering rules.
pub proof fn lemma_still_chunks_ordered(h: ImageHeader, palette: Seq<Rgb8>, alpha: Seq<u8>, idat: Seq<u8>)
    ensures
        well_ordered(still_chunks(h, palette, alpha, idat)),
{
    lemma_names_distinct();
    let cs = still_chunks(h, palette, alpha, idat);
    let p = is_palette(h.color_type);
    let t = p && alpha.len() > 0;
    let n = cs.len();
    assert(n == 3 + (if p { 1int } else { 0 }) + (if t { 1int } else { 0 }));
    assert(cs[n - 1].0 == IMAGE_END);
    assert(cs[n - 2].0 == IMAGE_DATA);
    assert(cs[0].0 == IMAGE_HEADER);
    assert forall|i: int| 0 < i < n - 2 implies (#[trigger] cs[i]).0 == PALETTE || cs[i].0 == TRANSPARENCY by {}
    assert forall|i: int| 0 < i < n implies (#[trigger] cs[i]).0 != IMAGE_HEADER by {
        if i < n - 2 {
            assert(cs[i].0 == PALETTE || cs[i].0 == TRANSPARENCY);
        }
    }
    assert forall|i: int| 0 <= i < n - 1 implies (#[trigger] cs[i]).0 != IMAGE_END by {
        if 0 < i < n - 2 {
            assert(cs[i].0 == PALETTE || cs[i].0 == TRANSPARENCY);
        }
    }
    assert forall|i: int| 0 <= i < n && (#[trigger] cs[i]).0 == IMAGE_DATA implies i == n - 2 by {
        if 0 < i < n - 2 {
            assert(cs[i].0 == PALETTE || cs[i].0 == TRANSPARENCY);
        }
    }
    assert forall|i: int| 0 <= i < n && (#[trigger] cs[i]).0 == PALETTE implies i < n - 2 by {}
}

/// Checks that the encoder accepts a raster.
fn check_raster(r: &PngRaster) -> (res: Result<(), EncodeError>)
    ensures
        res is Ok <==> encodable(r),
        !raster_header(r, false).valid() ==> res == Err::<(), EncodeError>(EncodeError::RasterSize),
        raster_header(r, false).valid() && r.color_type == ColorType::Palette && !(1 <= r.palette@.len() <= 256
            && r.alpha@.len() <= r.palette@.len()) ==> res == Err::<(), EncodeError>(EncodeError::BadPalette),
{
    let h0 = ImageHeader { width: r.width, height: r.height, color_type: r.color_type, bit_depth: r.bit_depth, interlace: false };
    if r.width == 0 || r.height == 0 || r.width > MAX_DIMENSION || r.height > MAX_DIMENSION {
        return Err(EncodeError::RasterSize);
    }
    if r.color_type.check_png_color_validity(r.bit_depth).is_err() {
        return Err(EncodeError::RasterSize);
    }
    if r.color_type == ColorType::Palette && (r.palette.len() < 1 || r.palette.len() > 256 || r.alpha.len() > r.palette.len()) {
        return Err(EncodeError::BadPalette);
    }
    let bpp = h0.bpp();
    if !fits(r.width, r.height, bpp) {
        return Err(EncodeError::RasterSize);
    }
    match h0.raw_size() {
        Some(n) => {
            if n != r.pixels.len() {
                return Err(EncodeError::RasterSize);
            }
        },
        None => {
            proof {
                let bn = bpp as nat;
                let wn = r.width as nat;
                let hn = r.height as nat;
                assert(wn * hn * bn <= (wn * bn + 8) * (hn + 8) * 16) by (nonlinear_arith);
                assert(h0.spec_raw_size() <= wn * hn * bn + 7);
            }
            return Err(EncodeError::RasterSize);
        },
    }
    Ok(())
}

/// Writes the chunks of a still image around its compressed image data.
fn write_still(h: ImageHeader, palette: &Vec<Rgb8>, alpha: &Vec<u8>, z: &Vec<u8>) -> (res: Result<Vec<u8>, EncodeError>)
    requires
        h.color_type == ColorType::Palette ==> palette@.len() <= 256 && alpha@.len() <= 256,
    ensures
        res is Ok <==> z@.len() <= MAX_CHUNK_LEN,
        res is Err ==> res == Err::<Vec<u8>, EncodeError>(EncodeError::ChunkTooBig),
        res matches Ok(v) ==> v@ == file_bytes(still_chunks(h, palette@, alpha@, z@)),
{
    let ghost cs: Seq<([u8; 4], Seq<u8>)> = Seq::empty();
    let mut out: Vec<u8> = Vec::new();
    push_all(&mut out, PNG_SIGNATURE.as_slice());
    proof {
        assert(out@ =~= file_bytes(cs));
    }
    let ihdr = h.write();
    let _ = write_frame(&mut out, IMAGE_HEADER, ihdr.as_slice());
    proof {
        lemma_chunks_concat_push(cs, (IMAGE_HEADER, ihdr@));
        cs = cs.push((IMAGE_HEADER, ihdr@));
    }
    if h.color_type == ColorType::Palette {
        let p = Palette { palette: crate::decoder::copy_palette(palette) };
        let pd = p.write();
        let _ = write_frame(&mut out, PALETTE, pd.as_slice());
        proof {
            lemma_chunks_concat_push(cs, (PALETTE, pd@));
            cs = cs.push((PALETTE, pd@));
        }
        if alpha.len() > 0 {
            let _ = write_frame(&mut out, TRANSPARENCY, alpha.as_slice());
            proof {
                lemma_chunks_concat_push(cs, (TRANSPARENCY, alpha@));
                cs = cs.push((TRANSPARENCY, alpha@));
            }
        }
    }
    match write_frame(&mut out, IMAGE_DATA, z.as_slice()) {
        Ok(()) => {},
        Err(e) => {
            return Err(e);
        },
    }
    proof {
        lemma_chunks_concat_push(cs, (IMAGE_DATA, z@));
        cs = cs.push((IMAGE_DATA, z@));
    }
    let end: Vec<u8> = Vec::new();
    let _ = write_frame(&mut out, IMAGE_END, end.as_slice());
    proof {
        lemma_chunks_concat_push(cs, (IMAGE_END, end@));
        cs = cs.push((IMAGE_END, end@));
        let want = still_chunks(h, palette@, alpha@, z@);
        assert(cs =~= want);
        assert(out@ =~= file_bytes(cs));
    }
    Ok(out)
}

proof fn lemma_idat_concat_none(cs: Seq<([u8; 4], Seq<u8>)>)
    requires
        forall|i: int| 0 <= i < cs.len() ==> (#[trigger] cs[i]).0 != IMAGE_DATA,
    ensures
        idat_concat(cs) == Seq::<u8>::empty(),
    decreases cs.len(),
{
    if cs.len() > 0 {
        assert forall|i: int| 0 <= i < cs.drop_last().len() implies (#[trigger] cs.drop_last()[i]).0 != IMAGE_DATA by {
            assert(cs.drop_last()[i] == cs[i]);
        }
        lemma_idat_concat_none(cs.drop_last());
        assert(cs.last() == cs[cs.len() - 1]);
        assert(idat_concat(cs) =~= Seq::<u8>::empty());
    }
}

/// The image data of a still image's chunks is its one IDAT's data.
proof fn lemma_still_idat(h: ImageHeader, palette: Seq<Rgb8>, alpha: Seq<u8>, idat: Seq<u8>)
    ensures
        idat_concat(still_chunks(h, palette, alpha, idat)) == idat,
{
    lemma_names_distinct();
    let cs = still_chunks(h, palette, alpha, idat);
    let n = cs.len();
    let front = cs.drop_last().drop_last();
    assert forall|i: int| 0 <= i < front.len() implies (#[trigger] front[i]).0 != IMAGE_DATA by {
        assert(front[i] == cs[i]);
    }
    lemma_idat_concat_none(front);
    assert(cs.drop_last().last() == cs[n - 2]);
    assert(cs[n - 2].0 == IMAGE_DATA);
    assert(cs.last() == cs[n - 1]);
    assert(cs[n - 1].0 == IMAGE_END);
    assert(idat_concat(cs.drop_last()) == idat_concat(front) + idat);
    assert(idat_concat(cs) == idat_concat(cs.drop_last()) + Seq::<u8>::empty());
    assert(idat_concat(cs) =~= idat);
}

/// Every file the encoder writes for a raster it accepts decodes: its
/// frames, chunk order, image data and scanlines all pass.
pub proof fn lemma_still_decodes(
    h: ImageHeader,
    pixels: Seq<u8>,
    palette: Seq<Rgb8>,
    alpha: Seq<u8>,
    strategy: FilterStrategy,
    level: u8,
)
    requires
        h.valid(),
        dims_fit(h.width as nat, h.height as nat, h.spec_bpp()),
        raster_ok(pixels, h.width as nat, h.height as nat, h.spec_bpp()),
        h.color_type == ColorType::Palette ==> 1 <= palette.len() <= 256 && alpha.len() <= palette.len(),
        ({
            let lines = encoded_scanlines(pixels, h.width as nat, h.height as nat, h.spec_bpp(), h.interlace, strategy, level);
            let cs = still_chunks(h, palette, alpha, zlib_stream(lines, level));
            &&& zlib_payload(zlib_stream(lines, level)) == Some(lines)
            &&& forall|i: int| 0 <= i < cs.len() ==> (#[trigger] cs[i]).1.len() <= MAX_CHUNK_LEN
        }),
    ensures
        decode_ok(file_bytes(still_chunks(h, palette, alpha, zlib_stream(
            encoded_scanlines(pixels, h.width as nat, h.height as nat, h.spec_bpp(), h.interlace, strategy, level),
            level,
        )))),
{
    let lines = encoded_scanlines(pixels, h.width as nat, h.height as nat, h.spec_bpp(), h.interlace, strategy, level);
    let z = zlib_stream(lines, level);
    let cs = still_chunks(h, palette, alpha, z);
    let bytes = file_bytes(cs);
    lemma_names_distinct();
    crate::decoder::lemma_name_constants();
    lemma_chunks_frames(PNG_SIGNATURE@, cs);
    assert(PNG_SIGNATURE@.len() == 8);
    assert(bytes.subrange(0, 8) =~= PNG_SIGNATURE@);
    assert(frames_from(bytes, 8) == Ok::<Seq<([u8; 4], Seq<u8>)>, crate::error::DecodeError>(cs));
    lemma_ihdr_round_trip(h);
    let pal = h.color_type == ColorType::Palette;
    let t = pal && alpha.len() > 0;
    let n = cs.len();
    // IHDR
    assert(cs[0] == (IMAGE_HEADER, ihdr_bytes(h)));
    let s1 = walk(cs, 1);
    assert(walk(cs, 0) == Some((order_start(), None::<usize>, None::<ImageHeader>)));
    assert(s1 == walk_step((order_start(), None::<usize>, None::<ImageHeader>), IMAGE_HEADER, ihdr_bytes(h)));
    assert(frame_kind(IMAGE_HEADER) == ChunkKind::Header);
    let o1 = Order { phase: Phase::Aux, palette_image: pal, ..order_start() };
    assert(s1 == Some((o1, None::<usize>, Some(h))));
    let mut k: nat = 1;
    let mut st = (o1, None::<usize>, Some(h));
    if pal {
        assert(cs[1] == (PALETTE, palette_bytes(palette)));
        assert(palette_bytes(palette).len() == 3 * palette.len());
        assert(frame_kind(PALETTE) == ChunkKind::Palette);
        let o2 = Order { has_palette: true, ..o1 };
        assert(walk(cs, 2) == walk_step(st, PALETTE, palette_bytes(palette)));
        assert(walk(cs, 2) == Some((o2, Some(palette.len() as usize), Some(h))));
        k = 2;
        st = (o2, Some(palette.len() as usize), Some(h));
        if t {
            assert(cs[2] == (TRANSPARENCY, alpha));
            assert(frame_kind(TRANSPARENCY) == ChunkKind::Transparency);
            let o3 = Order { has_transparency: true, ..o2 };
            assert(walk(cs, 3) == walk_step(st, TRANSPARENCY, alpha));
            assert(walk(cs, 3) == Some((o3, Some(palette.len() as usize), Some(h))));
            k = 3;
            st = (o3, Some(palette.len() as usize), Some(h));
        }
    }
    assert(walk(cs, k) == Some(st));
    assert(k == n - 2);
    assert(cs[n - 2] == (IMAGE_DATA, z));
    assert(cs[n - 1] == (IMAGE_END, Seq::<u8>::empty()));
    assert(frame_kind(IMAGE_DATA) == ChunkKind::Data);
    assert(frame_kind(IMAGE_END) == ChunkKind::End);
    let od = Order { phase: Phase::InData, ..st.0 };
    assert(walk(cs, k + 1) == walk_step(st, IMAGE_DATA, z));
    assert(walk(cs, k + 1) == Some((od, st.1, Some(h))));
    let oe = Order { phase: Phase::Done, ..od };
    assert(walk(cs, k + 2) == walk_step((od, st.1, Some(h)), IMAGE_END, Seq::<u8>::empty()));
    assert(walk(cs, n) == Some((oe, st.1, Some(h))));
    lemma_still_idat(h, palette, alpha, z);
    lemma_scanlines_round_trip(pixels, pixels, h.width as nat, h.height as nat, h.spec_bpp(), h.interlace, strategy, level);
    assert(image_ok(cs, (oe, st.1, Some(h))));
}

/// The PLTE and tRNS frames of a palette image's chunks hold its palette
/// and alpha values.
proof fn lemma_still_palette(h: ImageHeader, palette: Seq<Rgb8>, alpha: Seq<u8>, idat: Seq<u8>)
    requires
        h.color_type == ColorType::Palette,
    ensures
        palette_colors(still_chunks(h, palette, alpha, idat)) == palette,
        palette_alphas(still_chunks(h, palette, alpha, idat), h.color_type) == alpha,
{
    lemma_names_distinct();
    lemma_palette_round_trip(palette);
    let cs = still_chunks(h, palette, alpha, idat);
    let n = cs.len();
    let c1 = cs.drop_last();
    let c2 = c1.drop_last();
    assert(cs.last() == cs[n - 1] && c1.last() == cs[n - 2]);
    assert(cs[n - 1].0 == IMAGE_END && cs[n - 2].0 == IMAGE_DATA);
    assert(named_data(cs, PALETTE) == named_data(c1, PALETTE));
    assert(named_data(c1, PALETTE) == named_data(c2, PALETTE));
    assert(named_data(cs, TRANSPARENCY) == named_data(c1, TRANSPARENCY));
    assert(named_data(c1, TRANSPARENCY) == named_data(c2, TRANSPARENCY));
    assert(named_data(cs, PALETTE) == named_data(c2, PALETTE));
    assert(named_data(cs, TRANSPARENCY) == named_data(c2, TRANSPARENCY));
    if alpha.len() > 0 {
        assert(c2.len() == 3 && c2.last() == cs[2] && cs[2] == (TRANSPARENCY, alpha));
        assert(named_data(c2, TRANSPARENCY) == Some(alpha));
        let c3 = c2.drop_last();
        assert(c3.last() == cs[1] && cs[1] == (PALETTE, palette_bytes(palette)));
        assert(named_data(c2, PALETTE) == named_data(c3, PALETTE));
        assert(named_data(c3, PALETTE) == Some(palette_bytes(palette)));
    } else {
        assert(c2.len() == 2 && c2.last() == cs[1] && cs[1] == (PALETTE, palette_bytes(palette)));
        assert(named_data(c2, PALETTE) == Some(palette_bytes(palette)));
        let c3 = c2.drop_last();
        assert(c3.len() == 1 && c3.last() == cs[0]);
        assert(named_data(c3, TRANSPARENCY) == named_data(c3.drop_last(), TRANSPARENCY));
        assert(c3.drop_last().len() == 0);
        assert(alpha =~= Seq::<u8>::empty());
    }
}

/// Encoding a raster and decoding the file succeeds and gives back its pixel
/// bytes, for every legal (width, height, color type, bit depth),
/// interlaced or not, with any filter strategy and level: the file's frames
/// are the chunks the encoder wrote, its header is the raster's, its image
/// data is the zlib stream of the scanlines, and the scanlines decode to the
/// raster. A palette image keeps its palette and alpha values.
pub proof fn lemma_encode_decode(
    h: ImageHeader,
    pixels: Seq<u8>,
    palette: Seq<Rgb8>,
    alpha: Seq<u8>,
    strategy: FilterStrategy,
    level: u8,
    bytes: Seq<u8>,
    decoded: Seq<u8>,
    decoded_palette: Seq<Rgb8>,
    decoded_alpha: Seq<u8>,
)
    requires
        h.valid(),
        dims_fit(h.width as nat, h.height as nat, h.spec_bpp()),
        raster_ok(pixels, h.width as nat, h.height as nat, h.spec_bpp()),
        h.color_type == ColorType::Palette ==> 1 <= palette.len() <= 256 && alpha.len() <= palette.len(),
        ({
            let lines = encoded_scanlines(pixels, h.width as nat, h.height as nat, h.spec_bpp(), h.interlace, strategy, level);
            let cs = still_chunks(h, palette, alpha, zlib_stream(lines, level));
            &&& bytes == file_bytes(cs)
            &&& zlib_payload(zlib_stream(lines, level)) == Some(lines)
            &&& forall|i: int| 0 <= i < cs.len() ==> (#[trigger] cs[i]).1.len() <= MAX_CHUNK_LEN
        }),
        frames_from(bytes, 8) matches Ok(fs) && (ihdr_of(fs[0].1) matches Ok(g) && zlib_payload(idat_concat(fs)) is Some
            && is_raster_of(decoded, decoded_subs(zlib_payload(idat_concat(fs))->0, g.width as nat, g.height as nat, g.spec_bpp(), g.interlace),
                g.width as nat, g.height as nat, g.spec_bpp(), g.interlace)
            && decoded_palette == palette_colors(fs) && decoded_alpha == palette_alphas(fs, g.color_type)),
    ensures
        decode_ok(bytes),
        decoded == pixels,
        h.color_type == ColorType::Palette ==> decoded_palette == palette && decoded_alpha == alpha,
{
    lemma_still_decodes(h, pixels, palette, alpha, strategy, level);
    let lines = encoded_scanlines(pixels, h.width as nat, h.height as nat, h.spec_bpp(), h.interlace, strategy, level);
    let z = zlib_stream(lines, level);
    let cs = still_chunks(h, palette, alpha, z);
    lemma_chunks_frames(PNG_SIGNATURE@, cs);
    assert(PNG_SIGNATURE@.len() == 8);
    assert(frames_from(bytes, 8) == Ok::<Seq<([u8; 4], Seq<u8>)>, crate::error::DecodeError>(cs));
    lemma_ihdr_round_trip(h);
    assert(cs[0].1 == crate::chunk::ihdr_bytes(h));
    lemma_still_idat(h, palette, alpha, z);
    lemma_scanlines_round_trip(pixels, decoded, h.width as nat, h.height as nat, h.spec_bpp(), h.interlace, strategy, level);
    if h.color_type == ColorType::Palette {
        lemma_still_palette(h, palette, alpha, z);
    }
}

/// Decoding a file, re-encoding its raster under the same header with its
/// palette and alpha values, and decoding again succeeds and gives the
/// pixels decoded the first time, and for a palette image the same palette
/// and alpha values.
pub proof fn lemma_decode_encode(
    h: ImageHeader,
    first: Seq<u8>,
    palette: Seq<Rgb8>,
    alpha: Seq<u8>,
    strategy: FilterStrategy,
    level: u8,
    bytes: Seq<u8>,
    second: Seq<u8>,
    subs: Seq<Seq<u8>>,
    second_palette: Seq<Rgb8>,
    second_alpha: Seq<u8>,
)
    requires
        h.valid(),
        dims_fit(h.width as nat, h.height as nat, h.spec_bpp()),
        h.color_type == ColorType::Palette ==> 1 <= palette.len() <= 256 && alpha.len() <= palette.len(),
        is_raster_of(first, subs, h.width as nat, h.height as nat, h.spec_bpp(), h.interlace),
        ({
            let lines = encoded_scanlines(first, h.width as nat, h.height as nat, h.spec_bpp(), h.interlace, strategy, level);
            let cs = still_chunks(h, palette, alpha, zlib_stream(lines, level));
            &&& bytes == file_bytes(cs)
            &&& zlib_payload(zlib_stream(lines, level)) == Some(lines)
            &&& forall|i: int| 0 <= i < cs.len() ==> (#[trigger] cs[i]).1.len() <= MAX_CHUNK_LEN
        }),
        frames_from(bytes, 8) matches Ok(fs) && (ihdr_of(fs[0].1) matches Ok(g) && zlib_payload(idat_concat(fs)) is Some
            && is_raster_of(second, decoded_subs(zlib_payload(idat_concat(fs))->0, g.width as nat, g.height as nat, g.spec_bpp(), g.interlace),
                g.width as nat, g.height as nat, g.spec_bpp(), g.interlace)
            && second_palette == palette_colors(fs) && second_alpha == palette_alphas(fs, g.color_type)),
    ensures
        decode_ok(bytes),
        second == first,
        h.color_type == ColorType::Palette ==> second_palette == palette && second_alpha == alpha,
{
    lemma_encode_decode(h, first, palette, alpha, strategy, level, bytes, second, second_palette, second_alpha);
}

/// A still image's file reads back as the chunks the encoder wrote, each
/// with a CRC that verifies, with IHDR first, IEND last, one of each, PLTE
/// before the IDAT, and the IDAT chunks in one run.
pub proof fn lemma_still_file_structure(h: ImageHeader, palette: Seq<Rgb8>, alpha: Seq<u8>, idat: Seq<u8>)
    requires
        palette.len() <= 256,
        alpha.len() <= MAX_CHUNK_LEN,
        idat.len() <= MAX_CHUNK_LEN,
    ensures
        frames_from(file_bytes(still_chunks(h, palette, alpha, idat)), 8) == Ok::<
            Seq<([u8; 4], Seq<u8>)>,
            crate::error::DecodeError,
        >(still_chunks(h, palette, alpha, idat)),
        well_ordered(still_chunks(h, palette, alpha, idat)),
{
    let cs = still_chunks(h, palette, alpha, idat);
    assert forall|i: int| 0 <= i < cs.len() implies (#[trigger] cs[i]).1.len() <= MAX_CHUNK_LEN by {
        assert(ihdr_bytes(h).len() == 13);
        assert(palette_bytes(palette).len() == 3 * palette.len());
    }
    lemma_chunks_frames(PNG_SIGNATURE@, cs);
    assert(PNG_SIGNATURE@.len() == 8);
    lemma_still_chunks_ordered(h, palette, alpha, idat);
}

/// What an encoder writes for a still image.
#[derive(Clone, Copy, Debug)]
pub struct StepEncoder {
    level: u8,
    strategy: Option<FilterStrategy>,
    interlace: bool,
}

/// The filter strategy the encoder uses by default: MinSum for images of
/// 8 or more bits per channel that are not palette images, else Zero.
pub open spec fn default_strategy(ct: ColorType, bd: u8) -> FilterStrategy {
    if ct != ColorType::Palette && bd >= 8 {
        FilterStrategy::MinSum
    } else {
        FilterStrategy::Zero
    }
}

/// The header a raster is written with.
pub open spec fn raster_header(r: &PngRaster, il: bool) -> ImageHeader {
    ImageHeader { width: r.width, height: r.height, color_type: r.color_type, bit_depth: r.bit_depth, interlace: il }
}

/// A raster the encoder accepts: a legal header, pixel bytes of the size it
/// implies, sizes whose bit indices fit in memory, and for palette images a
/// palette of 1 to 256 entries with no more alpha values than entries.
pub open spec fn encodable(r: &PngRaster) -> bool {
    &&& raster_header(r, false).valid()
    &&& dims_fit(r.width as nat, r.height as nat, raster_header(r, false).spec_bpp())
    &&& r.pixels@.len() == row_bytes(r.width as nat * r.height as nat, raster_header(r, false).spec_bpp())
    &&& (r.color_type == ColorType::Palette ==> 1 <= r.palette@.len() <= 256 && r.alpha@.len() <= r.palette@.len())
}

impl StepEncoder {
    pub closed spec fn spec_level(&self) -> u8 {
        if self.level > 10 {
            10
        } else {
            self.level
        }
    }

    pub closed spec fn spec_interlace(&self) -> bool {
        self.interlace
    }

    pub closed spec fn spec_strategy(&self) -> Option<FilterStrategy> {
        self.strategy
    }

    /// The strategy used for a raster of a color type and bit depth.
    pub open spec fn strategy_for(&self, ct: ColorType, bd: u8) -> FilterStrategy {
        match self.spec_strategy() {
            Some(s) => s,
            None => default_strategy(ct, bd),
        }
    }

    /// An encoder at a compression level (clamped to 10), with the default
    /// filter strategy and no interlacing.
    pub fn new(level: u8) -> (r: StepEncoder)
        ensures
            r.spec_level() == if level > 10 { 10 } else { level },
            r.spec_strategy() is None,
            !r.spec_interlace(),
    {
        StepEncoder { level: if level > 10 {
            10
        } else {
            level
        }, strategy: None, interlace: false }
    }

    /// The same encoder with a filter strategy.
    pub fn filter_strategy(self, s: FilterStrategy) -> (r: StepEncoder)
        ensures
            r.spec_level() == self.spec_level(),
            r.spec_strategy() == Some(s),
            r.spec_interlace() == self.spec_interlace(),
    {
        StepEncoder { strategy: Some(s), ..self }
    }

    /// Encodes a raster as a PNG file: IHDR, PLTE and tRNS for palette
    /// images, one IDAT holding the zlib stream of the filtered scanlines,
    /// and IEND. A raster that does not fit its header is a `RasterSize`
    /// error, a palette image without a usable palette a `BadPalette` error.
    /// The entropy strategy scores lines in floating point, which this
    /// library leaves to its caller: such a caller builds the scanlines and
    /// calls `still_from_scanlines`.
    pub fn still(&self, r: &PngRaster) -> (res: Result<Vec<u8>, EncodeError>)
        requires
            self.strategy_for(r.color_type, r.bit_depth) != FilterStrategy::Entropy,
        ensures
            res is Ok ==> encodable(r),
            !raster_header(r, false).valid() ==> res == Err::<Vec<u8>, EncodeError>(EncodeError::RasterSize),
            raster_header(r, false).valid() && r.color_type == ColorType::Palette && !(1 <= r.palette@.len() <= 256
                && r.alpha@.len() <= r.palette@.len()) ==> res == Err::<Vec<u8>, EncodeError>(EncodeError::BadPalette),
            encodable(r) && res is Err ==> res == Err::<Vec<u8>, EncodeError>(EncodeError::ChunkTooBig),
            encodable(r) && zlib_stream(
                encoded_scanlines(
                    r.pixels@,
                    r.width as nat,
                    r.height as nat,
                    raster_header(r, false).spec_bpp(),
                    self.spec_interlace(),
                    self.strategy_for(r.color_type, r.bit_depth),
                    self.spec_level(),
                ),
                self.spec_level(),
            ).len() <= MAX_CHUNK_LEN ==> res is Ok,
            res matches Ok(v) ==> ({
                let h = raster_header(r, self.spec_interlace());
                let lines = encoded_scanlines(
                    r.pixels@,
                    r.width as nat,
                    r.height as nat,
                    h.spec_bpp(),
                    self.spec_interlace(),
                    self.strategy_for(r.color_type, r.bit_depth),
                    self.spec_level(),
                );
                let cs = still_chunks(h, r.palette@, r.alpha@, zlib_stream(lines, self.spec_level()));
                &&& v@ == file_bytes(cs)
                &&& zlib_payload(zlib_stream(lines, self.spec_level())) == Some(lines)
                &&& forall|i: int| 0 <= i < cs.len() ==> (#[trigger] cs[i]).1.len() <= MAX_CHUNK_LEN
            }),
    {
        check_raster(r)?;
        let level: u8 = if self.level > 10 {
            10
        } else {
            self.level
        };
        let h = ImageHeader { width: r.width, height: r.height, color_type: r.color_type, bit_depth: r.bit_depth, interlace: self.interlace };
        let bpp = h.bpp();
        let strategy = match self.strategy {
            Some(s) => s,
            None => if r.color_type != ColorType::Palette && r.bit_depth >= 8 {
                FilterStrategy::MinSum
            } else {
                FilterStrategy::Zero
            },
        };
        let lines = encode_scanlines(r.pixels.as_slice(), r.width as usize, r.height as usize, bpp as usize, self.interlace, strategy, level);
        let z = zlib_compress(lines.as_slice(), level);
        let out = write_still(h, &r.palette, &r.alpha, &z)?;
        proof {
            let cs = still_chunks(h, r.palette@, r.alpha@, z@);
            assert forall|i: int| 0 <= i < cs.len() implies (#[trigger] cs[i]).1.len() <= MAX_CHUNK_LEN by {
                assert(crate::chunk::ihdr_bytes(h).len() == 13);
            }
        }
        Ok(out)
    }

    /// Encodes a raster whose scanline stream the caller built (for filter
    /// choices made outside this library, such as by entropy): IHDR, PLTE
    /// and tRNS for palette images, one IDAT holding the zlib stream of
    /// `lines`, and IEND. A stream of another size than the header implies
    /// is a `RasterSize` error.
    pub fn still_from_scanlines(&self, r: &PngRaster, lines: &Vec<u8>) -> (res: Result<Vec<u8>, EncodeError>)
        ensures
            res is Ok ==> encodable(r) && lines@.len() == crate::pixels::expected_idat_size(
                r.width as nat,
                r.height as nat,
                raster_header(r, false).spec_bpp(),
                self.spec_interlace(),
            ),
            !raster_header(r, false).valid() ==> res == Err::<Vec<u8>, EncodeError>(EncodeError::RasterSize),
            encodable(r) && lines@.len() != crate::pixels::expected_idat_size(
                r.width as nat,
                r.height as nat,
                raster_header(r, false).spec_bpp(),
                self.spec_interlace(),
            ) ==> res == Err::<Vec<u8>, EncodeError>(EncodeError::RasterSize),
            encodable(r) && lines@.len() == crate::pixels::expected_idat_size(
                r.width as nat,
                r.height as nat,
                raster_header(r, false).spec_bpp(),
                self.spec_interlace(),
            ) && zlib_stream(lines@, self.spec_level()).len() <= MAX_CHUNK_LEN ==> res is Ok,
            res matches Ok(v) ==> ({
                let h = raster_header(r, self.spec_interlace());
                &&& v@ == file_bytes(still_chunks(h, r.palette@, r.alpha@, zlib_stream(lines@, self.spec_level())))
                &&& zlib_payload(zlib_stream(lines@, self.spec_level())) == Some(lines@)
            }),
    {
        check_raster(r)?;
        let level: u8 = if self.level > 10 {
            10
        } else {
            self.level
        };
        let h = ImageHeader { width: r.width, height: r.height, color_type: r.color_type, bit_depth: r.bit_depth, interlace: self.interlace };
        let bpp = h.bpp();
        let size = crate::pixels::idat_size(r.width as usize, r.height as usize, bpp as usize, self.interlace);
        if size != lines.len() {
            return Err(EncodeError::RasterSize);
        }
        let z = zlib_compress(lines.as_slice(), level);
        write_still(h, &r.palette, &r.alpha, &z)
    }

    /// Encodes a step: its raster, as a still image.
    pub fn encode(&self, step: &crate::raster::Step) -> (res: Result<Vec<u8>, EncodeError>)
        requires
            self.strategy_for(step.raster.color_type, step.raster.bit_depth) != FilterStrategy::Entropy,
        ensures
            res is Ok ==> encodable(&step.raster),
            !raster_header(&step.raster, false).valid() ==> res == Err::<Vec<u8>, EncodeError>(EncodeError::RasterSize),
            raster_header(&step.raster, false).valid() && step.raster.color_type == ColorType::Palette && !(1 <= step.raster.palette@.len() <= 256
                && step.raster.alpha@.len() <= step.raster.palette@.len()) ==> res == Err::<Vec<u8>, EncodeError>(EncodeError::BadPalette),
            encodable(&step.raster) && res is Err ==> res == Err::<Vec<u8>, EncodeError>(EncodeError::ChunkTooBig),
            encodable(&step.raster) && zlib_stream(
                encoded_scanlines(
                    step.raster.pixels@,
                    step.raster.width as nat,
                    step.raster.height as nat,
                    raster_header(&step.raster, false).spec_bpp(),
                    self.spec_interlace(),
                    self.strategy_for(step.raster.color_type, step.raster.bit_depth),
                    self.spec_level(),
                ),
                self.spec_level(),
            ).len() <= MAX_CHUNK_LEN ==> res is Ok,
            res matches Ok(v) ==> ({
                let h = raster_header(&step.raster, self.spec_interlace());
                let lines = encoded_scanlines(
                    step.raster.pixels@,
                    step.raster.width as nat,
                    step.raster.height as nat,
                    h.spec_bpp(),
                    self.spec_interlace(),
                    self.strategy_for(step.raster.color_type, step.raster.bit_depth),
                    self.spec_level(),
                );
                let cs = still_chunks(h, step.raster.palette@, step.raster.alpha@, zlib_stream(lines, self.spec_level()));
                &&& v@ == file_bytes(cs)
                &&& zlib_payload(zlib_stream(lines, self.spec_level())) == Some(lines)
                &&& forall|i: int| 0 <= i < cs.len() ==> (#[trigger] cs[i]).1.len() <= MAX_CHUNK_LEN
            }),
    {
        self.still(&step.raster)
    }

    /// Whether this encoder would filter a raster of a color type and bit
    /// depth by entropy, which `still` leaves to its caller.
    pub fn uses_entropy(&self, ct: ColorType, bd: u8) -> (r: bool)
        ensures
            r == (self.strategy_for(ct, bd) == FilterStrategy::Entropy),
    {
        match self.strategy {
            Some(s) => s == FilterStrategy::Entropy,
            None => false,
        }
    }

    /// The same encoder with Adam7 interlacing on or off.
    pub fn interlace(self, on: bool) -> (r: StepEncoder)
        ensures
            r.spec_level() == self.spec_level(),
            r.spec_strategy() == self.spec_strategy(),
            r.spec_interlace() == on,
    {
        StepEncoder { interlace: on, ..self }
    }
}

} // verus!
