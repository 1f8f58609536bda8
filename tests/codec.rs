use png_pong::chunks::decode_chunk;
use png_pong::{Background, CompressedText, ImageData, ImageEnd, ImageHeader, Palette, Physical, Time, Unknown};
use png_pong::framer::write_frame;
use png_pong::raster::palette_rgba;
use png_pong::zlib::{zlib_compress, zlib_decompress};
use png_pong::{
    decode, lodepng_crc32, Chunk, ChunkDecoder, ChunkEncoder, ColorType, DecodeError,
    EncodeError, FilterStrategy, InternationalText, PngRaster, Rgb8, StepDecoder, StepEncoder,
    Text, Transparency,
};

const SIGNATURE: [u8; 8] = [137, 80, 78, 71, 13, 10, 26, 10];

fn ihdr(width: u32, height: u32, bit_depth: u8, color_type: u8, interlace: u8) -> Vec<u8> {
    let mut d = Vec::new();
    d.extend_from_slice(&width.to_be_bytes());
    d.extend_from_slice(&height.to_be_bytes());
    d.extend_from_slice(&[bit_depth, color_type, 0, 0, interlace]);
    d
}

fn file(chunks: &[([u8; 4], Vec<u8>)]) -> Vec<u8> {
    let mut out = SIGNATURE.to_vec();
    for (name, data) in chunks {
        write_frame(&mut out, *name, data).unwrap();
    }
    out
}

fn red_pixel_file() -> Vec<u8> {
    let idat = zlib_compress(&[0, 0xFF, 0x00, 0x00], 6);
    file(&[
        (*b"IHDR", ihdr(1, 1, 8, 2, 0)),
        (*b"IDAT", idat),
        (*b"IEND", Vec::new()),
    ])
}

fn raster(
    width: u32,
    height: u32,
    color_type: ColorType,
    bit_depth: u8,
    pixels: Vec<u8>,
) -> PngRaster {
    PngRaster {
        width,
        height,
        color_type,
        bit_depth,
        pixels,
        palette: Vec::new(),
        alpha: Vec::new(),
    }
}

fn bpp(ct: ColorType, bd: u8) -> usize {
    let ch = match ct {
        ColorType::Grey | ColorType::Palette => 1,
        ColorType::GreyAlpha => 2,
        ColorType::Rgb => 3,
        ColorType::Rgba => 4,
    };
    ch * bd as usize
}

/// Pixel bytes of a raster with every bit after the last pixel cleared.
fn pattern(width: u32, height: u32, ct: ColorType, bd: u8, seed: u32) -> Vec<u8> {
    let bits = width as usize * height as usize * bpp(ct, bd);
    let n = (bits + 7) / 8;
    let mut v: Vec<u8> = (0..n as u32)
        .map(|i| (i.wrapping_mul(2654435761).wrapping_add(seed) >> 13) as u8)
        .collect();
    let tail = bits % 8;
    if tail != 0 {
        let last = v.len() - 1;
        v[last] &= 0xFFu8 << (8 - tail);
    }
    v
}

const KINDS: [(ColorType, u8); 15] = [
    (ColorType::Grey, 1),
    (ColorType::Grey, 2),
    (ColorType::Grey, 4),
    (ColorType::Grey, 8),
    (ColorType::Grey, 16),
    (ColorType::Rgb, 8),
    (ColorType::Rgb, 16),
    (ColorType::Palette, 1),
    (ColorType::Palette, 2),
    (ColorType::Palette, 4),
    (ColorType::Palette, 8),
    (ColorType::GreyAlpha, 8),
    (ColorType::GreyAlpha, 16),
    (ColorType::Rgba, 8),
    (ColorType::Rgba, 16),
];

fn with_palette(mut r: PngRaster) -> PngRaster {
    if r.color_type == ColorType::Palette {
        r.palette = (0..256u32)
            .map(|i| Rgb8 { red: i as u8, green: (255 - i) as u8, blue: (i * 7) as u8 })
            .collect();
    }
    r
}

#[test]
fn single_red_pixel() {
    let step = decode(red_pixel_file()).unwrap();
    assert_eq!(step.raster.width, 1);
    assert_eq!(step.raster.height, 1);
    assert_eq!(step.raster.color_type, ColorType::Rgb);
    assert_eq!(step.raster.bit_depth, 8);
    assert_eq!(step.raster.pixels, vec![255, 0, 0]);
    assert_eq!(step.delay, 0);
}

#[test]
fn idat_before_palette_is_out_of_order() {
    let idat = zlib_compress(&[0, 0], 6);
    let bytes = file(&[
        (*b"IHDR", ihdr(1, 1, 8, 3, 0)),
        (*b"IDAT", idat),
        (*b"PLTE", vec![0, 0, 0]),
        (*b"IEND", Vec::new()),
    ]);
    assert_eq!(decode(bytes).err(), Some(DecodeError::ChunkOrder));
}

#[test]
fn idat_crc_off_by_one() {
    let mut bytes = red_pixel_file();
    // IDAT frame starts after the signature and the 25-byte IHDR frame.
    let start = 8 + 25;
    assert_eq!(&bytes[start + 4..start + 8], b"IDAT");
    let len = u32::from_be_bytes([bytes[start], bytes[start + 1], bytes[start + 2], bytes[start + 3]]) as usize;
    let at = start + 8 + len;
    let crc = u32::from_be_bytes([bytes[at], bytes[at + 1], bytes[at + 2], bytes[at + 3]]);
    bytes[at..at + 4].copy_from_slice(&crc.wrapping_add(1).to_be_bytes());
    assert_eq!(decode(bytes).err(), Some(DecodeError::Crc32([b'I', b'D', b'A', b'T'])));
}

#[test]
fn zero_width_is_rejected() {
    let bytes = file(&[(*b"IHDR", ihdr(0, 1, 8, 2, 0)), (*b"IEND", Vec::new())]);
    assert_eq!(decode(bytes).err(), Some(DecodeError::ImageDimensions));
}

#[test]
fn palette_round_trip_with_transparency() {
    let mut r = raster(2, 2, ColorType::Palette, 8, vec![0, 1, 1, 0]);
    r.palette = vec![Rgb8 { red: 0, green: 0, blue: 0 }, Rgb8 { red: 255, green: 255, blue: 255 }];
    r.alpha = vec![0, 255];
    let bytes = StepEncoder::new(6).still(&r).unwrap();
    let d = StepDecoder::new(bytes).unwrap();
    assert_eq!(d.raster.pixels, vec![0, 1, 1, 0]);
    assert_eq!(d.palette, r.palette);
    assert_eq!(d.raster.palette, r.palette);
    assert_eq!(d.raster.alpha, vec![0, 255]);
    assert_eq!(d.transparency, Some(Transparency::Palette(vec![0, 255])));
}

fn idat_len(bytes: Vec<u8>) -> usize {
    let mut dec = ChunkDecoder::new(bytes).unwrap();
    let mut total = 0;
    while let Some(c) = dec.next_chunk() {
        if let Chunk::ImageData(d) = c.unwrap() {
            total += d.data().len();
        }
    }
    total
}

#[test]
fn minsum_is_no_larger_than_zero_on_a_gradient() {
    let pixels: Vec<u8> = (0..32 * 32 * 3).map(|i| i as u8).collect();
    let r = raster(32, 32, ColorType::Rgb, 8, pixels.clone());
    let zero = StepEncoder::new(6).filter_strategy(FilterStrategy::Zero).still(&r).unwrap();
    let minsum = StepEncoder::new(6).filter_strategy(FilterStrategy::MinSum).still(&r).unwrap();
    assert_eq!(decode(zero.clone()).unwrap().raster.pixels, pixels);
    assert_eq!(decode(minsum.clone()).unwrap().raster.pixels, pixels);
    assert!(idat_len(minsum) <= idat_len(zero));
}

#[test]
fn one_pixel_images_round_trip() {
    for (ct, bd) in KINDS {
        let r = with_palette(raster(1, 1, ct, bd, pattern(1, 1, ct, bd, 99)));
        let bytes = StepEncoder::new(6).still(&r).unwrap();
        let step = decode(bytes).unwrap();
        assert_eq!(step.raster.pixels, r.pixels, "{:?} {}", ct, bd);
        assert_eq!(step.raster.color_type, ct);
        assert_eq!(step.raster.bit_depth, bd);
    }
}

#[test]
fn interlaced_images_round_trip() {
    for (ct, bd) in KINDS {
        for (w, h) in [(1u32, 1u32), (3, 5), (7, 7), (9, 10), (17, 3)] {
            let r = with_palette(raster(w, h, ct, bd, pattern(w, h, ct, bd, w * 31 + h)));
            for il in [false, true] {
                for s in [FilterStrategy::Zero, FilterStrategy::MinSum, FilterStrategy::BruteForce] {
                    let bytes = StepEncoder::new(6).interlace(il).filter_strategy(s).still(&r).unwrap();
                    let step = decode(bytes).unwrap();
                    assert_eq!(step.raster.pixels, r.pixels, "{:?} {} {}x{} {}", ct, bd, w, h, il);
                }
            }
        }
    }
}

#[test]
fn crc32_test_vectors() {
    assert_eq!(lodepng_crc32(b"123456789"), 0xCBF43926);
    assert_eq!(lodepng_crc32(b"IEND"), 0xAE426082);
    assert_eq!(lodepng_crc32(b""), 0);
    assert_eq!(lodepng_crc32(b"The quick brown fox jumps over the lazy dog"), 0x414FA339);
}

#[test]
fn adler32_test_vectors() {
    let z = zlib_compress(b"Wikipedia", 6);
    assert_eq!(&z[..2], &[0x78, 0x01]);
    assert_eq!(&z[z.len() - 4..], &0x11E60398u32.to_be_bytes());
    let z = zlib_compress(b"", 6);
    assert_eq!(&z[z.len() - 4..], &1u32.to_be_bytes());
    assert_eq!(zlib_decompress(&zlib_compress(b"Wikipedia", 9)).unwrap(), b"Wikipedia".to_vec());
}

#[test]
fn palette_lookup_clamps_out_of_range_indices() {
    let palette = vec![Rgb8 { red: 10, green: 20, blue: 30 }];
    let alpha = vec![];
    assert_eq!(palette_rgba(&palette, &alpha, 0), (10, 20, 30, 255));
    assert_eq!(palette_rgba(&palette, &alpha, 1), (0, 0, 0, 255));
    assert_eq!(palette_rgba(&palette, &alpha, 255), (0, 0, 0, 255));
}

#[test]
fn short_alpha_palette_leaves_the_tail_opaque() {
    let palette = vec![
        Rgb8 { red: 1, green: 2, blue: 3 },
        Rgb8 { red: 4, green: 5, blue: 6 },
        Rgb8 { red: 7, green: 8, blue: 9 },
    ];
    let alpha = vec![17];
    assert_eq!(palette_rgba(&palette, &alpha, 0), (1, 2, 3, 17));
    assert_eq!(palette_rgba(&palette, &alpha, 1), (4, 5, 6, 255));
    assert_eq!(palette_rgba(&palette, &alpha, 2), (7, 8, 9, 255));
}

#[test]
fn one_bit_palette_with_one_entry_decodes_indices() {
    let mut r = raster(8, 1, ColorType::Palette, 1, vec![0b1010_0000]);
    r.palette = vec![Rgb8 { red: 9, green: 9, blue: 9 }];
    let bytes = StepEncoder::new(6).still(&r).unwrap();
    let step = decode(bytes).unwrap();
    assert_eq!(step.raster.pixels, vec![0b1010_0000]);
    assert_eq!(palette_rgba(&step.raster.palette, &step.raster.alpha, 1), (0, 0, 0, 255));
    assert_eq!(palette_rgba(&step.raster.palette, &step.raster.alpha, 0), (9, 9, 9, 255));
}

#[test]
fn uncompressed_itxt_with_empty_text() {
    let mut d = b"Title".to_vec();
    d.extend_from_slice(&[0, 0, 0]);
    d.extend_from_slice(b"en");
    d.push(0);
    d.push(0);
    let t = InternationalText::parse(&d).unwrap();
    assert_eq!(t.key, "Title");
    assert_eq!(t.langtag, "en");
    assert_eq!(t.transkey, "");
    assert_eq!(t.val, "");
    assert!(!t.compressed);
}

#[test]
fn compressed_itxt_round_trip() {
    let t = InternationalText {
        key: "Comment".to_string(),
        langtag: "fr".to_string(),
        transkey: "Commentaire".to_string(),
        val: "bonjour le monde".to_string(),
        compressed: true,
    };
    let d = t.write(6).unwrap();
    let back = InternationalText::parse(&d).unwrap();
    assert_eq!(back.val, "bonjour le monde");
    assert_eq!(back.transkey, "Commentaire");
    assert!(back.compressed);
}

#[test]
fn text_chunk_round_trip_and_lossy_text() {
    let t = Text { key: "Author".to_string(), val: "someone".to_string() };
    let d = t.write().unwrap();
    assert_eq!(d, b"Author\0someone".to_vec());
    let back = Text::parse(&[b'k', 0, 0xFF, b'a']).unwrap();
    assert_eq!(back.key, "k");
    assert_eq!(back.val, "\u{FFFD}a");
}

#[test]
fn text_keyword_sizes() {
    assert_eq!(Text::parse(&[0, b'a']).err(), Some(DecodeError::TextSize(0)));
    let long = vec![b'a'; 80];
    assert_eq!(Text::parse(&long).err(), Some(DecodeError::TextSize(80)));
    let t = Text { key: String::new(), val: "x".to_string() };
    assert_eq!(t.write().err(), Some(EncodeError::TextSize(0)));
}

#[test]
fn signature_errors() {
    assert_eq!(decode(vec![1, 2, 3]).err(), Some(DecodeError::InvalidSignature));
    let mut bytes = red_pixel_file();
    bytes[0] = 0x88;
    assert_eq!(decode(bytes).err(), Some(DecodeError::InvalidSignature));
}

#[test]
fn header_errors() {
    let bad = |d: Vec<u8>| decode(file(&[(*b"IHDR", d), (*b"IEND", Vec::new())])).err();
    assert_eq!(bad(ihdr(1, 1, 0, 2, 0)), Some(DecodeError::BitDepth(0)));
    assert_eq!(bad(ihdr(1, 1, 8, 5, 0)), Some(DecodeError::ColorType(5)));
    assert_eq!(bad(ihdr(1, 1, 4, 2, 0)), Some(DecodeError::ColorMode(ColorType::Rgb, 4)));
    assert_eq!(bad(ihdr(1, 1, 8, 2, 2)), Some(DecodeError::InterlaceMethod));
    let mut d = ihdr(1, 1, 8, 2, 0);
    d[10] = 1;
    assert_eq!(bad(d), Some(DecodeError::CompressionMethod));
    let mut d = ihdr(1, 1, 8, 2, 0);
    d[11] = 1;
    assert_eq!(bad(d), Some(DecodeError::FilterMethod));
    assert_eq!(bad(vec![0; 12]), Some(DecodeError::ChunkLength(*b"IHDR")));
}

#[test]
fn ordering_errors() {
    let idat = zlib_compress(&[0, 1, 2, 3], 6);
    let h = ihdr(1, 1, 8, 2, 0);
    let no_header = file(&[(*b"IDAT", idat.clone()), (*b"IEND", Vec::new())]);
    assert_eq!(decode(no_header).err(), Some(DecodeError::ChunkOrder));
    let twice = file(&[
        (*b"IHDR", h.clone()),
        (*b"pHYs", vec![0, 0, 0, 1, 0, 0, 0, 1, 1]),
        (*b"pHYs", vec![0, 0, 0, 1, 0, 0, 0, 1, 1]),
        (*b"IDAT", idat.clone()),
        (*b"IEND", Vec::new()),
    ]);
    assert_eq!(decode(twice).err(), Some(DecodeError::Multiple(*b"pHYs")));
    let trailing = file(&[
        (*b"IHDR", h.clone()),
        (*b"IDAT", idat.clone()),
        (*b"IEND", Vec::new()),
        (*b"tEXt", b"a\0b".to_vec()),
    ]);
    assert_eq!(decode(trailing).err(), Some(DecodeError::TrailingChunk));
    let no_data = file(&[(*b"IHDR", h.clone()), (*b"IEND", Vec::new())]);
    assert_eq!(decode(no_data).err(), Some(DecodeError::NoImageData));
    let split = file(&[
        (*b"IHDR", h.clone()),
        (*b"IDAT", idat[..3].to_vec()),
        (*b"tEXt", b"a\0b".to_vec()),
        (*b"IDAT", idat[3..].to_vec()),
        (*b"IEND", Vec::new()),
    ]);
    assert_eq!(decode(split).err(), Some(DecodeError::ChunkOrder));
    let critical = file(&[
        (*b"IHDR", h.clone()),
        (*b"ABCD", vec![1]),
        (*b"IDAT", idat.clone()),
        (*b"IEND", Vec::new()),
    ]);
    assert_eq!(decode(critical).err(), Some(DecodeError::UnknownChunkType(*b"ABCD")));
}

#[test]
fn split_idat_and_ancillary_chunks_decode() {
    let idat = zlib_compress(&[0, 1, 2, 3], 6);
    let bytes = file(&[
        (*b"IHDR", ihdr(1, 1, 8, 2, 0)),
        (*b"tIME", vec![7, 228, 1, 2, 3, 4, 5]),
        (*b"bKGD", vec![0, 1, 0, 2, 0, 3]),
        (*b"abCd", vec![42]),
        (*b"IDAT", idat[..2].to_vec()),
        (*b"IDAT", idat[2..].to_vec()),
        (*b"tEXt", b"k\0v".to_vec()),
        (*b"IEND", Vec::new()),
    ]);
    let d = StepDecoder::new(bytes).unwrap();
    assert_eq!(d.raster.pixels, vec![1, 2, 3]);
    assert_eq!(d.time.unwrap().year, 2020);
    assert_eq!(d.time.unwrap().second, 5);
    assert_eq!(d.background, Some(Background::Rgb(1, 2, 3)));
    assert_eq!(d.text.len(), 1);
    assert_eq!(d.unknown.len(), 1);
    assert_eq!(d.unknown[0].data, vec![42]);
}

#[test]
fn ancillary_errors() {
    let idat = zlib_compress(&[0, 1, 2, 3], 6);
    let with = |name: [u8; 4], data: Vec<u8>| {
        decode(file(&[
            (*b"IHDR", ihdr(1, 1, 8, 2, 0)),
            (name, data),
            (*b"IDAT", idat.clone()),
            (*b"IEND", Vec::new()),
        ]))
        .err()
    };
    assert_eq!(with(*b"pHYs", vec![0, 0, 0, 1, 0, 0, 0, 1, 2]), Some(DecodeError::PhysUnits));
    assert_eq!(with(*b"pHYs", vec![0; 8]), Some(DecodeError::ChunkLength(*b"pHYs")));
    assert_eq!(with(*b"bKGD", vec![1]), Some(DecodeError::BackgroundSize(ColorType::Rgb)));
    assert_eq!(with(*b"bKGD", vec![1, 2, 3]), Some(DecodeError::ChunkLength(*b"bKGD")));
    assert_eq!(with(*b"tRNS", vec![1, 2, 3]), Some(DecodeError::ChunkLength(*b"tRNS")));
    assert_eq!(with(*b"tIME", vec![1, 2, 3]), Some(DecodeError::ChunkLength(*b"tIME")));
    assert_eq!(with(*b"PLTE", vec![1, 2]), Some(DecodeError::ChunkLength(*b"PLTE")));
    assert_eq!(with(*b"zTXt", b"k\0\x01xx".to_vec()), Some(DecodeError::CompressionMethod));
}

#[test]
fn alpha_palette_longer_than_palette() {
    let idat = zlib_compress(&[0, 0], 6);
    let bytes = file(&[
        (*b"IHDR", ihdr(1, 1, 8, 3, 0)),
        (*b"PLTE", vec![1, 2, 3]),
        (*b"tRNS", vec![1, 2]),
        (*b"IDAT", idat),
        (*b"IEND", Vec::new()),
    ]);
    assert_eq!(decode(bytes).err(), Some(DecodeError::AlphaPaletteLen));
}

#[test]
fn image_data_errors() {
    let h = ihdr(1, 1, 8, 2, 0);
    let with_idat = |idat: Vec<u8>| {
        decode(file(&[(*b"IHDR", h.clone()), (*b"IDAT", idat), (*b"IEND", Vec::new())])).err()
    };
    assert_eq!(with_idat(zlib_compress(&[0, 1, 2], 6)), Some(DecodeError::ImageDataSize));
    assert_eq!(with_idat(zlib_compress(&[9, 1, 2, 3], 6)), Some(DecodeError::IllegalFilterType));
    assert_eq!(with_idat(vec![0x78, 0x01, 0, 0, 0]), Some(DecodeError::ZlibTooSmall));
    assert_eq!(with_idat(vec![0x78, 0x02, 0, 0, 0, 0]), Some(DecodeError::ZlibHeader));
    assert_eq!(with_idat(vec![0x78, 0x20, 0, 0, 0, 0]), Some(DecodeError::PresetDict));
    let mut z = zlib_compress(&[0, 1, 2, 3], 6);
    let n = z.len();
    z[n - 1] ^= 1;
    assert_eq!(with_idat(z), Some(DecodeError::AdlerChecksum));
    assert!(matches!(
        with_idat(vec![0x78, 0x01, 0xFF, 0xFF, 0, 0, 0, 0]),
        Some(DecodeError::Inflate(_))
    ));
}

#[test]
fn truncated_files() {
    let bytes = red_pixel_file();
    assert_eq!(decode(bytes[..bytes.len() - 3].to_vec()).err(), Some(DecodeError::Eof));
    assert_eq!(decode(bytes[..8 + 5].to_vec()).err(), Some(DecodeError::Eof));
    let mut big = SIGNATURE.to_vec();
    big.extend_from_slice(&[0x80, 0, 0, 1]);
    big.extend_from_slice(b"IHDR");
    assert_eq!(decode(big).err(), Some(DecodeError::ChunkLength(*b"IHDR")));
}

#[test]
fn encoder_errors() {
    let r = raster(2, 2, ColorType::Rgb, 8, vec![0; 11]);
    assert_eq!(StepEncoder::new(6).still(&r).err(), Some(EncodeError::RasterSize));
    let r = raster(0, 2, ColorType::Rgb, 8, vec![]);
    assert_eq!(StepEncoder::new(6).still(&r).err(), Some(EncodeError::RasterSize));
    let r = raster(1, 1, ColorType::Palette, 8, vec![0]);
    assert_eq!(StepEncoder::new(6).still(&r).err(), Some(EncodeError::BadPalette));
}

#[test]
fn chunk_encoder_writes_frames() {
    let mut enc = ChunkEncoder::new(6);
    enc.encode(&Chunk::ImageEnd(ImageEnd)).unwrap();
    let bytes = enc.into_bytes();
    assert_eq!(&bytes[..8], &SIGNATURE);
    assert_eq!(&bytes[8..], &[0, 0, 0, 0, b'I', b'E', b'N', b'D', 0xAE, 0x42, 0x60, 0x82]);
    let mut dec = ChunkDecoder::new(bytes).unwrap();
    assert!(matches!(dec.next_chunk(), Some(Ok(Chunk::ImageEnd(_)))));
    assert!(dec.next_chunk().is_none());
}

#[test]
fn unknown_chunks_are_kept() {
    let c = decode_chunk(*b"ruSt", &[1, 2, 3], None).unwrap();
    match c {
        Chunk::Unknown(u) => {
            assert_eq!(u.name, *b"ruSt");
            assert_eq!(u.data, vec![1, 2, 3]);
        }
        _ => panic!("expected an unknown chunk"),
    }
}

#[test]
fn every_chunk_kind_round_trips_through_the_chunk_coders() {
    let chunks = vec![
        Chunk::ImageHeader(ImageHeader { width: 3, height: 2, color_type: ColorType::Palette, bit_depth: 4, interlace: true }),
        Chunk::Palette(Palette { palette: vec![Rgb8 { red: 1, green: 2, blue: 3 }, Rgb8 { red: 4, green: 5, blue: 6 }] }),
        Chunk::Transparency(Transparency::Palette(vec![7])),
        Chunk::Background(Background::Palette(1)),
        Chunk::Physical(Physical { ppu_x: 2835, ppu_y: 2834, is_meter: true }),
        Chunk::Time(Time::new(2021, 12, 31, 23, 59, 58)),
        Chunk::Text(Text { key: "Title".to_string(), val: "t".to_string() }),
        Chunk::CompressedText(CompressedText { key: "Comment".to_string(), val: "zzzzzzzz".to_string() }),
        Chunk::InternationalText(InternationalText {
            key: "Author".to_string(),
            langtag: "de".to_string(),
            transkey: "Autor".to_string(),
            val: "jemand".to_string(),
            compressed: false,
        }),
        Chunk::ImageData(ImageData::with_data(vec![1, 2, 3])),
        Chunk::Unknown(Unknown { name: *b"prVt", data: vec![9, 9] }),
        Chunk::ImageEnd(ImageEnd),
    ];
    let mut enc = ChunkEncoder::new(9);
    for c in &chunks {
        enc.encode(c).unwrap();
    }
    let mut dec = ChunkDecoder::new(enc.into_bytes()).unwrap();
    let mut out = Vec::new();
    while let Some(c) = dec.next_chunk() {
        out.push(c.unwrap());
    }
    assert_eq!(out.len(), chunks.len());
    match &out[0] {
        Chunk::ImageHeader(h) => {
            assert_eq!((h.width, h.height, h.bit_depth, h.interlace), (3, 2, 4, true));
            assert_eq!(h.color_type, ColorType::Palette);
        }
        _ => panic!("IHDR"),
    }
    match &out[1] {
        Chunk::Palette(p) => assert_eq!(p.palette.len(), 2),
        _ => panic!("PLTE"),
    }
    assert!(matches!(&out[2], Chunk::Transparency(Transparency::Palette(a)) if a == &vec![7]));
    assert!(matches!(&out[3], Chunk::Background(Background::Palette(1))));
    assert!(matches!(&out[4], Chunk::Physical(p) if p.ppu_x == 2835 && p.ppu_y == 2834 && p.is_meter));
    assert!(matches!(&out[5], Chunk::Time(t) if t.year == 2021 && t.second == 58));
    assert!(matches!(&out[6], Chunk::Text(t) if t.key == "Title" && t.val == "t"));
    assert!(matches!(&out[7], Chunk::CompressedText(t) if t.key == "Comment" && t.val == "zzzzzzzz"));
    assert!(matches!(&out[8], Chunk::InternationalText(t) if t.transkey == "Autor" && t.val == "jemand"));
    assert!(matches!(&out[9], Chunk::ImageData(d) if d.data() == &vec![1, 2, 3]));
    assert!(matches!(&out[10], Chunk::Unknown(u) if u.name == *b"prVt"));
    assert!(matches!(&out[11], Chunk::ImageEnd(_)));
}

#[test]
fn rgb_key_and_grey_key_transparency() {
    let idat = zlib_compress(&[0, 1, 2, 3], 6);
    let bytes = file(&[
        (*b"IHDR", ihdr(1, 1, 8, 2, 0)),
        (*b"tRNS", vec![0, 1, 0, 2, 0, 3]),
        (*b"IDAT", idat),
        (*b"IEND", Vec::new()),
    ]);
    let d = StepDecoder::new(bytes).unwrap();
    assert_eq!(d.transparency, Some(Transparency::RgbKey(1, 2, 3)));
    let idat = zlib_compress(&[0, 5], 6);
    let bytes = file(&[
        (*b"IHDR", ihdr(1, 1, 8, 0, 0)),
        (*b"tRNS", vec![0, 5]),
        (*b"IDAT", idat.clone()),
        (*b"IEND", Vec::new()),
    ]);
    let d = StepDecoder::new(bytes).unwrap();
    assert_eq!(d.transparency, Some(Transparency::GrayKey(5)));
    let bytes = file(&[
        (*b"IHDR", ihdr(1, 1, 8, 4, 0)),
        (*b"tRNS", vec![0, 5]),
        (*b"IDAT", zlib_compress(&[0, 5, 6], 6)),
        (*b"IEND", Vec::new()),
    ]);
    assert_eq!(decode(bytes).err(), Some(DecodeError::ChunkLength(*b"tRNS")));
}

#[test]
fn encoding_a_step_encodes_its_raster() {
    let r = raster(2, 1, ColorType::GreyAlpha, 8, vec![10, 20, 30, 40]);
    let step = png_pong::Step { raster: r.clone(), delay: 0 };
    let a = StepEncoder::new(6).encode(&step).unwrap();
    let b = StepEncoder::new(6).still(&r).unwrap();
    assert_eq!(a, b);
    assert_eq!(decode(a).unwrap().raster.pixels, vec![10, 20, 30, 40]);
}

#[test]
fn palette_after_image_data_and_missing_palette() {
    let idat = zlib_compress(&[0, 0], 6);
    let no_palette = file(&[
        (*b"IHDR", ihdr(1, 1, 8, 3, 0)),
        (*b"IDAT", idat.clone()),
        (*b"IEND", Vec::new()),
    ]);
    assert_eq!(decode(no_palette).err(), Some(DecodeError::ChunkOrder));
    let late = file(&[
        (*b"IHDR", ihdr(1, 1, 8, 0, 0)),
        (*b"IDAT", idat.clone()),
        (*b"PLTE", vec![1, 2, 3]),
        (*b"IEND", Vec::new()),
    ]);
    assert_eq!(decode(late).err(), Some(DecodeError::ChunkOrder));
    let twice = file(&[
        (*b"IHDR", ihdr(1, 1, 8, 3, 0)),
        (*b"PLTE", vec![1, 2, 3]),
        (*b"PLTE", vec![1, 2, 3]),
        (*b"IDAT", idat),
        (*b"IEND", Vec::new()),
    ]);
    assert_eq!(decode(twice).err(), Some(DecodeError::Multiple(*b"PLTE")));
}
