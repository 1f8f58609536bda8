//! The chunk sum type, its decoding from and encoding to named data, and a
//! streaming chunk decoder and encoder over whole byte buffers.

use vstd::prelude::*;

use crate::chunk::{
    ihdr_of, palette_of, Background, ImageData, ImageEnd, Palette, Physical, Time, Transparency,
    Unknown, BACKGROUND, IMAGE_DATA, IMAGE_END, IMAGE_HEADER, ITEXT, PALETTE, PHYSICAL, TEXT, TIME,
    TRANSPARENCY, ZTEXT,
};
use crate::error::{DecodeError, EncodeError};
use crate::framer::{chunk_bytes, frame_at, lemma_frame_next, read_frame, write_frame, PNG_SIGNATURE};
use crate::header::ImageHeader;
use crate::text::{CompressedText, InternationalText, Text};
use crate::text::{after, first_nul, itxt_lang_start, itxt_text_start, itxt_trans_start, key_ok, utf8_lossy};
use crate::zlib::{be32, slice_range, zlib_payload, zlib_stream};
use crate::chunk::be16;
use vstd::utf8::encode_utf8;

verus! {

/// A decoded chunk: the semantic payload of each kind this codec knows,
/// and unknown chunks verbatim.
#[derive(Clone, Debug)]
pub enum Chunk {
    ImageHeader(ImageHeader),
    ImageData(ImageData),
    ImageEnd(ImageEnd),
    Palette(Palette),
    Background(Background),
    Transparency(Transparency),
    Physical(Physical),
    Time(Time),
    Text(Text),
    CompressedText(CompressedText),
    InternationalText(InternationalText),
    Unknown(Unknown),
}

/// Whether two names are the same.
pub fn same_name(a: [u8; 4], b: [u8; 4]) -> (r: bool)
    ensures
        r <==> a == b,
{
    let r = a[0] == b[0] && a[1] == b[1] && a[2] == b[2] && a[3] == b[3];
    proof {
        if r {
            assert(a@ =~= b@);
            assert(a == b) by {
                vstd::array::lemma_array_index(a, 0);
            }
        }
    }
    r
}

/// Whether a name is one this codec decodes.
pub open spec fn known_name(n: [u8; 4]) -> bool {
    n == IMAGE_HEADER || n == IMAGE_DATA || n == IMAGE_END || n == PALETTE || n == BACKGROUND
        || n == TRANSPARENCY || n == PHYSICAL || n == TIME || n == TEXT || n == ZTEXT || n == ITEXT
}

/// The name a chunk is written under.
pub open spec fn chunk_name(c: Chunk) -> [u8; 4] {
    match c {
        Chunk::ImageHeader(_) => IMAGE_HEADER,
        Chunk::ImageData(_) => IMAGE_DATA,
        Chunk::ImageEnd(_) => IMAGE_END,
        Chunk::Palette(_) => PALETTE,
        Chunk::Background(_) => BACKGROUND,
        Chunk::Transparency(_) => TRANSPARENCY,
        Chunk::Physical(_) => PHYSICAL,
        Chunk::Time(_) => TIME,
        Chunk::Text(_) => TEXT,
        Chunk::CompressedText(_) => ZTEXT,
        Chunk::InternationalText(_) => ITEXT,
        Chunk::Unknown(u) => u.name,
    }
}

/// Only IDAT chunks are written under the IDAT name, and only IEND chunks
/// under the IEND name.
pub proof fn lemma_chunk_name_data(c: Chunk)
    requires
        c matches Chunk::Unknown(u) ==> !known_name(u.name),
    ensures
        chunk_name(c) == IMAGE_DATA <==> c is ImageData,
        chunk_name(c) == IMAGE_END <==> c is ImageEnd,
        chunk_name(c) == IMAGE_HEADER <==> c is ImageHeader,
        chunk_name(c) == PALETTE <==> c is Palette,
        chunk_name(c) == TRANSPARENCY <==> c is Transparency,
{
    match c {
        Chunk::Unknown(u) => {
        },
        _ => {
            assert(chunk_name(c)[0] != IMAGE_DATA[0] || chunk_name(c)[1] != IMAGE_DATA[1] || c is ImageData);
            assert(chunk_name(c)[0] != IMAGE_END[0] || chunk_name(c)[1] != IMAGE_END[1] || c is ImageEnd);
            assert(chunk_name(c)[0] != IMAGE_HEADER[0] || chunk_name(c)[1] != IMAGE_HEADER[1] || c is ImageHeader);
            assert(chunk_name(c)[0] != PALETTE[0] || chunk_name(c)[1] != PALETTE[1] || c is Palette);
            assert(chunk_name(c)[0] != TRANSPARENCY[0] || chunk_name(c)[1] != TRANSPARENCY[1] || c is Transparency);
        },
    }
}

/// Whether the data of a chunk decodes, by its name; `palette_len` is the
/// number of entries of the palette seen before it, if any.
pub open spec fn chunk_ok(name: [u8; 4], d: Seq<u8>, palette_len: Option<usize>) -> bool {
    if name == IMAGE_HEADER {
        ihdr_of(d) is Ok
    } else if name == IMAGE_END {
        d.len() == 0
    } else if name == PALETTE {
        crate::chunk::palette_len_ok(d.len())
    } else if name == BACKGROUND {
        d.len() == 1 || d.len() == 2 || d.len() == 6
    } else if name == TRANSPARENCY {
        match palette_len {
            Some(n) => d.len() <= n,
            None => d.len() == 2 || d.len() == 6,
        }
    } else if name == PHYSICAL {
        d.len() == 9 && d[8] <= 1
    } else if name == TIME {
        d.len() == 7
    } else if name == TEXT {
        crate::text::key_ok(crate::text::first_nul(d, 0))
    } else if name == ZTEXT {
        crate::text::ztxt_ok(d)
    } else if name == ITEXT {
        crate::text::itxt_ok(d)
    } else {
        true
    }
}

/// Why the data of a chunk fails to decode, by its name.
pub open spec fn chunk_error(name: [u8; 4], d: Seq<u8>, palette_len: Option<usize>) -> DecodeError {
    if name == IMAGE_HEADER {
        ihdr_of(d)->Err_0
    } else if name == IMAGE_END {
        DecodeError::ChunkLength(IMAGE_END)
    } else if name == PALETTE {
        DecodeError::ChunkLength(PALETTE)
    } else if name == BACKGROUND {
        DecodeError::ChunkLength(BACKGROUND)
    } else if name == TRANSPARENCY {
        if palette_len is Some {
            DecodeError::AlphaPaletteLen
        } else {
            DecodeError::ChunkLength(TRANSPARENCY)
        }
    } else if name == PHYSICAL {
        if d.len() != 9 {
            DecodeError::ChunkLength(PHYSICAL)
        } else {
            DecodeError::PhysUnits
        }
    } else if name == TIME {
        DecodeError::ChunkLength(TIME)
    } else if name == TEXT {
        DecodeError::TextSize(first_nul(d, 0) as usize)
    } else if name == ZTEXT {
        crate::text::ztxt_error(d)
    } else {
        crate::text::itxt_error(d)
    }
}

/// What a decoded chunk holds, given the data it was decoded from.
pub open spec fn decoded_as(c: Chunk, name: [u8; 4], d: Seq<u8>, palette_len: Option<usize>) -> bool {
    match c {
        Chunk::ImageHeader(h) => ihdr_of(d) == Ok::<ImageHeader, DecodeError>(h),
        Chunk::ImageData(x) => x.data@ == d,
        Chunk::ImageEnd(_) => d.len() == 0,
        Chunk::Palette(p) => p.palette@ == palette_of(d),
        Chunk::Background(b) => b == if d.len() == 1 {
            Background::Palette(d[0])
        } else if d.len() == 2 {
            Background::Gray(crate::chunk::be16_at(d, 0))
        } else {
            Background::Rgb(crate::chunk::be16_at(d, 0), crate::chunk::be16_at(d, 2), crate::chunk::be16_at(d, 4))
        },
        Chunk::Transparency(t) => match palette_len {
            Some(_) => t matches Transparency::Palette(a) && a@ == d,
            None => t == if d.len() == 2 {
                Transparency::GrayKey(crate::chunk::be16_at(d, 0))
            } else {
                Transparency::RgbKey(crate::chunk::be16_at(d, 0), crate::chunk::be16_at(d, 2), crate::chunk::be16_at(d, 4))
            },
        },
        Chunk::Physical(p) => p == (Physical { ppu_x: crate::chunk::be32_at(d, 0), ppu_y: crate::chunk::be32_at(d, 4), is_meter: d[8] == 1 }),
        Chunk::Time(t) => t == (Time { year: crate::chunk::be16_at(d, 0), month: d[2], day: d[3], hour: d[4], minute: d[5], second: d[6] }),
        Chunk::Text(t) => t.key@ == utf8_lossy(d.subrange(0, first_nul(d, 0)))
            && t.val@ == utf8_lossy(d.subrange(after(d, first_nul(d, 0)), d.len() as int)),
        Chunk::CompressedText(t) => t.key@ == utf8_lossy(d.subrange(0, first_nul(d, 0)))
            && t.val@ == utf8_lossy(zlib_payload(d.subrange(first_nul(d, 0) + 2, d.len() as int))->0),
        Chunk::InternationalText(t) => t.compressed == (d[first_nul(d, 0) + 1] != 0)
            && t.key@ == utf8_lossy(d.subrange(0, first_nul(d, 0)))
            && t.langtag@ == utf8_lossy(d.subrange(itxt_lang_start(d), first_nul(d, itxt_lang_start(d))))
            && t.transkey@ == utf8_lossy(d.subrange(itxt_trans_start(d), first_nul(d, itxt_trans_start(d))))
            && (!t.compressed ==> t.val@ == utf8_lossy(d.subrange(itxt_text_start(d), d.len() as int)))
            && (t.compressed ==> t.val@ == utf8_lossy(zlib_payload(d.subrange(itxt_text_start(d), d.len() as int))->0)),
        Chunk::Unknown(u) => u.name == name && u.data@ == d,
    }
}

/// Decodes the data of a chunk by its name. tRNS data is read as an alpha
/// palette when a palette of `palette_len` entries came before it.
pub fn decode_chunk(name: [u8; 4], data: &[u8], palette_len: Option<usize>) -> (r: Result<Chunk, DecodeError>)
    ensures
        r is Ok <==> chunk_ok(name, data@, palette_len),
        r is Err ==> r == Err::<Chunk, DecodeError>(chunk_error(name, data@, palette_len)),
        r matches Ok(c) ==> chunk_name(c) == name && decoded_as(c, name, data@, palette_len),
        r matches Ok(Chunk::Palette(p)) ==> p.palette@.len() == data@.len() / 3,
        r matches Ok(Chunk::Background(b)) ==> (b is Palette <==> data@.len() == 1) && (b is Gray <==> data@.len() == 2),
        r matches Ok(Chunk::Transparency(t)) ==> (t is Palette <==> palette_len is Some) && (palette_len is None ==> (t is GrayKey <==> data@.len() == 2)),
        name == IMAGE_HEADER ==> (r is Ok <==> ihdr_of(data@) is Ok),
        r matches Ok(Chunk::ImageHeader(h)) ==> ihdr_of(data@) == Ok::<ImageHeader, DecodeError>(h),
        r matches Ok(Chunk::ImageData(d)) ==> d.data@ == data@,
        name == IMAGE_DATA ==> r is Ok,
        name == IMAGE_END ==> (r is Ok <==> data@.len() == 0),
        name == IMAGE_END && data@.len() != 0 ==> r == Err::<Chunk, DecodeError>(DecodeError::ChunkLength(IMAGE_END)),
        r matches Ok(Chunk::Palette(p)) ==> p.palette@ == palette_of(data@),
        !known_name(name) ==> r is Ok,
        r matches Ok(Chunk::Unknown(u)) ==> u.data@ == data@ && !known_name(name),
{
    proof {
        assert(data@.subrange(0, data@.len() as int) =~= data@);
    }
    if same_name(name, IMAGE_HEADER) {
        match ImageHeader::parse(data) {
            Ok(h) => Ok(Chunk::ImageHeader(h)),
            Err(e) => Err(e),
        }
    } else if same_name(name, IMAGE_DATA) {
        Ok(Chunk::ImageData(ImageData::with_data(slice_range(data, 0, data.len()))))
    } else if same_name(name, IMAGE_END) {
        if data.len() != 0 {
            Err(DecodeError::ChunkLength(IMAGE_END))
        } else {
            Ok(Chunk::ImageEnd(ImageEnd))
        }
    } else if same_name(name, PALETTE) {
        match Palette::parse(data) {
            Ok(p) => Ok(Chunk::Palette(p)),
            Err(e) => Err(e),
        }
    } else if same_name(name, BACKGROUND) {
        match Background::parse(data) {
            Ok(b) => Ok(Chunk::Background(b)),
            Err(e) => Err(e),
        }
    } else if same_name(name, TRANSPARENCY) {
        match Transparency::parse(data, palette_len) {
            Ok(t) => Ok(Chunk::Transparency(t)),
            Err(e) => Err(e),
        }
    } else if same_name(name, PHYSICAL) {
        match Physical::parse(data) {
            Ok(p) => Ok(Chunk::Physical(p)),
            Err(e) => Err(e),
        }
    } else if same_name(name, TIME) {
        match Time::parse(data) {
            Ok(t) => Ok(Chunk::Time(t)),
            Err(e) => Err(e),
        }
    } else if same_name(name, TEXT) {
        match Text::parse(data) {
            Ok(t) => Ok(Chunk::Text(t)),
            Err(e) => Err(e),
        }
    } else if same_name(name, ZTEXT) {
        match CompressedText::parse(data) {
            Ok(t) => Ok(Chunk::CompressedText(t)),
            Err(e) => Err(e),
        }
    } else if same_name(name, ITEXT) {
        match InternationalText::parse(data) {
            Ok(t) => Ok(Chunk::InternationalText(t)),
            Err(e) => Err(e),
        }
    } else {
        Ok(Chunk::Unknown(Unknown { name, data: slice_range(data, 0, data.len()) }))
    }
}

/// The data a chunk is written with at a compression level; none where a
/// text keyword is not 1 to 79 bytes long.
pub open spec fn chunk_data_of(c: Chunk, level: u8) -> Option<Seq<u8>> {
    match c {
        Chunk::ImageHeader(h) => Some(crate::chunk::ihdr_bytes(h)),
        Chunk::ImageData(d) => Some(d.data@),
        Chunk::ImageEnd(_) => Some(Seq::empty()),
        Chunk::Palette(p) => Some(crate::chunk::palette_bytes(p.palette@)),
        Chunk::Background(b) => Some(
            match b {
                Background::Palette(i) => seq![i],
                Background::Gray(v) => be16(v),
                Background::Rgb(red, green, blue) => be16(red) + be16(green) + be16(blue),
            },
        ),
        Chunk::Transparency(t) => Some(
            match t {
                Transparency::Palette(a) => a@,
                Transparency::RgbKey(red, green, blue) => be16(red) + be16(green) + be16(blue),
                Transparency::GrayKey(k) => be16(k),
            },
        ),
        Chunk::Physical(p) => Some(be32(p.ppu_x) + be32(p.ppu_y) + seq![if p.is_meter { 1u8 } else { 0u8 }]),
        Chunk::Time(t) => Some(be16(t.year) + seq![t.month, t.day, t.hour, t.minute, t.second]),
        Chunk::Text(t) => if key_ok(encode_utf8(t.key@).len() as int) {
            Some(encode_utf8(t.key@) + seq![0u8] + encode_utf8(t.val@))
        } else {
            None
        },
        Chunk::CompressedText(t) => if key_ok(encode_utf8(t.key@).len() as int) {
            Some(encode_utf8(t.key@) + seq![0u8, 0u8] + zlib_stream(encode_utf8(t.val@), level))
        } else {
            None
        },
        Chunk::InternationalText(t) => if key_ok(encode_utf8(t.key@).len() as int) {
            Some(encode_utf8(t.key@) + seq![0u8, if t.compressed { 1u8 } else { 0u8 }, 0u8]
                + encode_utf8(t.langtag@) + seq![0u8] + encode_utf8(t.transkey@) + seq![0u8] + (if t.compressed {
                zlib_stream(encode_utf8(t.val@), level)
            } else {
                encode_utf8(t.val@)
            }))
        } else {
            None
        },
        Chunk::Unknown(u) => Some(u.data@),
    }
}

/// The data a chunk is written with.
pub fn chunk_data(c: &Chunk, level: u8) -> (r: Result<Vec<u8>, EncodeError>)
    requires
        level <= 10,
        c matches Chunk::Palette(p) ==> p.palette@.len() <= 256,
    ensures
        r is Ok <==> chunk_data_of(*c, level) is Some,
        r matches Ok(v) ==> Some(v@) == chunk_data_of(*c, level),
        r is Err ==> r matches Err(EncodeError::TextSize(_)),
{
    match c {
        Chunk::ImageHeader(h) => Ok(h.write()),
        Chunk::ImageData(d) => Ok(slice_range(d.data.as_slice(), 0, d.data.len())),
        Chunk::ImageEnd(_) => Ok(Vec::new()),
        Chunk::Palette(p) => Ok(p.write()),
        Chunk::Background(b) => Ok(b.write()),
        Chunk::Transparency(t) => Ok(t.write()),
        Chunk::Physical(p) => Ok(p.write()),
        Chunk::Time(t) => Ok(t.write()),
        Chunk::Text(t) => t.write(),
        Chunk::CompressedText(t) => t.write(level),
        Chunk::InternationalText(t) => t.write(level),
        Chunk::Unknown(u) => Ok(slice_range(u.data.as_slice(), 0, u.data.len())),
    }
}

/// Whether the input starts with the PNG signature.
pub open spec fn has_signature(d: Seq<u8>) -> bool {
    d.len() >= 8 && d.subrange(0, 8) == PNG_SIGNATURE@
}

/// A chunk decoder over a whole PNG byte buffer.
pub struct ChunkDecoder {
    bytes: Vec<u8>,
    pos: usize,
    palette_len: Option<usize>,
    done: bool,
}

impl ChunkDecoder {
    /// The input.
    pub closed spec fn input(&self) -> Seq<u8> {
        self.bytes@
    }

    /// Where the next frame starts.
    pub closed spec fn position(&self) -> int {
        self.pos as int
    }

    /// The number of entries of the last palette decoded.
    pub closed spec fn palette_len(&self) -> Option<usize> {
        self.palette_len
    }

    /// Whether the decoder has stopped, at the end or after an error.
    pub closed spec fn finished(&self) -> bool {
        self.done
    }

    pub closed spec fn wf(&self) -> bool {
        self.pos <= self.bytes@.len()
    }

    /// Checks the signature and starts decoding the chunks after it.
    pub fn new(bytes: Vec<u8>) -> (r: Result<ChunkDecoder, DecodeError>)
        ensures
            r is Ok <==> has_signature(bytes@),
            r is Err ==> r matches Err(DecodeError::InvalidSignature),
            r matches Ok(d) ==> d.wf() && d.input() == bytes@ && d.position() == 8 && !d.finished() && d.palette_len() is None,
    {
        if bytes.len() < 8 {
            return Err(DecodeError::InvalidSignature);
        }
        let mut i: usize = 0;
        while i < 8
            invariant
                i <= 8,
                bytes@.len() >= 8,
                forall|j: int| 0 <= j < i ==> bytes@[j] == PNG_SIGNATURE@[j],
            decreases 8 - i,
        {
            if bytes[i] != PNG_SIGNATURE[i] {
                proof {
                    assert(bytes@.subrange(0, 8)[i as int] != PNG_SIGNATURE@[i as int]);
                }
                return Err(DecodeError::InvalidSignature);
            }
            i = i + 1;
        }
        proof {
            assert(bytes@.subrange(0, 8) =~= PNG_SIGNATURE@);
        }
        Ok(ChunkDecoder { bytes, pos: 8, palette_len: None, done: false })
    }

    /// The next chunk, in file order: none at the end of the input or after
    /// an error, which ends the walk.
    pub fn next_chunk(&mut self) -> (r: Option<Result<Chunk, DecodeError>>)
        requires
            old(self).wf(),
        ensures
            final(self).wf(),
            final(self).input() == old(self).input(),
            old(self).finished() ==> r is None && final(self).finished(),
            !old(self).finished() && frame_at(old(self).input(), old(self).position()) == Ok::<Option<([u8; 4], Seq<u8>, int)>, DecodeError>(None) ==> r is None,
            !old(self).finished() ==> (frame_at(old(self).input(), old(self).position()) matches Err(e) ==> r == Some(Err::<Chunk, DecodeError>(e))),
            r is Some && r->Some_0 is Err && !old(self).finished() && frame_at(old(self).input(), old(self).position()) is Ok ==>
                (frame_at(old(self).input(), old(self).position()) matches Ok(Some(f)) && !chunk_ok(f.0, f.1, old(self).palette_len())
                && r == Some(Err::<Chunk, DecodeError>(chunk_error(f.0, f.1, old(self).palette_len())))),
            r matches Some(Ok(c)) ==> frame_at(old(self).input(), old(self).position()) matches Ok(Some(f))
                && f.0 == chunk_name(c)
                && chunk_ok(f.0, f.1, old(self).palette_len())
                && decoded_as(c, f.0, f.1, old(self).palette_len())
                && final(self).palette_len() == (if c is Palette { Some((f.1.len() / 3) as usize) } else { old(self).palette_len() })
                && (c matches Chunk::Background(b) ==> (b is Palette <==> f.1.len() == 1) && (b is Gray <==> f.1.len() == 2))
                && (c matches Chunk::Transparency(t) ==> (t is Palette <==> old(self).palette_len() is Some) && (old(self).palette_len() is None ==> (t is GrayKey <==> f.1.len() == 2)))
                && final(self).position() == f.2 && !final(self).finished()
                && (c matches Chunk::ImageData(id) ==> id.data@ == f.1)
                && (c matches Chunk::ImageHeader(h) ==> ihdr_of(f.1) == Ok::<ImageHeader, DecodeError>(h))
                && (c matches Chunk::Unknown(u) ==> !known_name(u.name)),
            r matches Some(Err(_)) ==> final(self).finished(),
            r is None ==> final(self).finished() && final(self).palette_len() == old(self).palette_len(),
            final(self).position() >= old(self).position(),
            r is None && !old(self).finished() ==> frame_at(old(self).input(), old(self).position()) == Ok::<Option<([u8; 4], Seq<u8>, int)>, DecodeError>(None)
                && final(self).position() == old(self).position(),
    {
        if self.done {
            return None;
        }
        proof {
            lemma_frame_next(self.bytes@, self.pos as int);
        }
        match read_frame(self.bytes.as_slice(), self.pos) {
            Ok(None) => {
                self.done = true;
                None
            },
            Err(e) => {
                self.done = true;
                Some(Err(e))
            },
            Ok(Some((name, data, next))) => {
                match decode_chunk(name, data.as_slice(), self.palette_len) {
                    Ok(c) => {
                        if let Chunk::Palette(p) = &c {
                            self.palette_len = Some(p.palette.len());
                        }
                        self.pos = next;
                        Some(Ok(c))
                    },
                    Err(e) => {
                        self.done = true;
                        Some(Err(e))
                    },
                }
            },
        }
    }
}

/// A chunk encoder that writes the signature and then whole chunks.
pub struct ChunkEncoder {
    out: Vec<u8>,
    level: u8,
}

impl ChunkEncoder {
    /// What has been written so far.
    pub closed spec fn written(&self) -> Seq<u8> {
        self.out@
    }

    /// The compression level for zTXt and iTXt.
    pub closed spec fn spec_level(&self) -> u8 {
        if self.level > 10 {
            10
        } else {
            self.level
        }
    }

    /// An encoder that has written the signature; compressed text uses the
    /// level, clamped to 10.
    pub fn new(level: u8) -> (r: ChunkEncoder)
        ensures
            r.written() == PNG_SIGNATURE@,
            r.spec_level() == if level > 10 { 10 } else { level },
    {
        let mut out: Vec<u8> = Vec::new();
        crate::zlib::push_all(&mut out, PNG_SIGNATURE.as_slice());
        proof {
            assert(out@ =~= PNG_SIGNATURE@);
        }
        ChunkEncoder { out, level: if level > 10 {
            10
        } else {
            level
        } }
    }

    /// Writes one chunk. A text keyword outside 1 to 79 bytes is a
    /// `TextSize` error and data longer than 2^31 bytes a `ChunkTooBig`
    /// error; either writes nothing.
    pub fn encode(&mut self, c: &Chunk) -> (r: Result<(), EncodeError>)
        requires
            c matches Chunk::Palette(p) ==> p.palette@.len() <= 256,
        ensures
            final(self).spec_level() == old(self).spec_level(),
            r is Err ==> final(self).written() == old(self).written(),
            r is Ok <==> (chunk_data_of(*c, old(self).spec_level()) matches Some(d) && d.len() <= crate::framer::MAX_CHUNK_LEN),
            r is Ok ==> final(self).written() == old(self).written() + chunk_bytes(chunk_name(*c), chunk_data_of(*c, old(self).spec_level())->0),
            c matches Chunk::ImageData(id) ==> (id.data@.len() <= crate::framer::MAX_CHUNK_LEN ==> r is Ok
                && final(self).written() == old(self).written() + chunk_bytes(crate::chunk::IMAGE_DATA, id.data@)),
            c matches Chunk::ImageEnd(_) ==> r is Ok && final(self).written() == old(self).written() + chunk_bytes(crate::chunk::IMAGE_END, Seq::empty()),
    {
        let level = if self.level > 10 {
            10
        } else {
            self.level
        };
        let data = chunk_data(c, level)?;
        let name = chunk_name_of(c);
        write_frame(&mut self.out, name, data.as_slice())
    }

    /// The bytes written.
    pub fn into_bytes(self) -> (r: Vec<u8>)
        ensures
            r@ == self.written(),
    {
        self.out
    }
}

/// The name a chunk is written under.
pub fn chunk_name_of(c: &Chunk) -> (r: [u8; 4])
    ensures
        r == chunk_name(*c),
{
    match c {
        Chunk::ImageHeader(_) => IMAGE_HEADER,
        Chunk::ImageData(_) => IMAGE_DATA,
        Chunk::ImageEnd(_) => IMAGE_END,
        Chunk::Palette(_) => PALETTE,
        Chunk::Background(_) => BACKGROUND,
        Chunk::Transparency(_) => TRANSPARENCY,
        Chunk::Physical(_) => PHYSICAL,
        Chunk::Time(_) => TIME,
        Chunk::Text(_) => TEXT,
        Chunk::CompressedText(_) => ZTEXT,
        Chunk::InternationalText(_) => ITEXT,
        Chunk::Unknown(u) => u.name,
    }
}

} // verus!
