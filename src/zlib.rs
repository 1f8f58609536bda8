//! The zlib container (RFC 1950) around a DEFLATE codec: a two-byte header,
//! the DEFLATE stream, and the Adler-32 of the uncompressed bytes.

use vstd::prelude::*;

use crate::checksum::{adler32, adler32_of};
use crate::error::DecodeError;

verus! {

/// What the DEFLATE decompressor makes of a raw DEFLATE stream: the bytes it
/// encodes, or nothing where the stream is malformed.
pub uninterp spec fn inflate_of(data: Seq<u8>) -> Option<Seq<u8>>;

/// The status code the DEFLATE decompressor fails with on a malformed raw
/// DEFLATE stream.
pub uninterp spec fn inflate_status_of(data: Seq<u8>) -> i8;

/// The raw DEFLATE stream that the compressor produces at a level.
pub uninterp spec fn deflate_of(data: Seq<u8>, level: u8) -> Seq<u8>;

/// Relies on miniz_oxide::inflate::decompress_to_vec: decompresses a raw
/// DEFLATE stream, or fails with a status code; the outcome depends on the
/// input bytes alone.
#[verifier::external_body]
fn inflate(data: &[u8]) -> (r: Result<Vec<u8>, i8>)
    ensures
        r is Ok <==> inflate_of(data@) is Some,
        r matches Ok(v) ==> v@ == inflate_of(data@)->0,
        r matches Err(c) ==> c == inflate_status_of(data@),
{
    match miniz_oxide::inflate::decompress_to_vec(data) {
        Ok(v) => Ok(v),
        Err(e) => Err(e.status as i8),
    }
}

/// Relies on miniz_oxide::deflate::compress_to_vec: compresses to a raw
/// DEFLATE stream at a level of 0 to 10, depending on the input and level
/// alone; DEFLATE is lossless, so the stream decompresses to the input.
#[verifier::external_body]
pub(crate) fn deflate(data: &[u8], level: u8) -> (r: Vec<u8>)
    requires
        level <= 10,
    ensures
        r@ == deflate_of(data@, level),
        inflate_of(r@) == Some(data@),
{
    miniz_oxide::deflate::compress_to_vec(data, level)
}

/// The big-endian bytes of a `u32`.
pub open spec fn be32(v: u32) -> Seq<u8> {
    seq![(v / 0x1000000) as u8, ((v / 0x10000) % 0x100) as u8, ((v / 0x100) % 0x100) as u8, (v % 0x100) as u8]
}

/// The `u32` that four big-endian bytes hold.
pub open spec fn from_be32(b0: u8, b1: u8, b2: u8, b3: u8) -> u32 {
    (b0 as int * 0x1000000 + b1 as int * 0x10000 + b2 as int * 0x100 + b3 as int) as u32
}

/// The zlib header's two bytes pass the checks PNG requires.
pub open spec fn zlib_header_ok(b0: u8, b1: u8) -> bool {
    &&& (b0 as int * 256 + b1 as int) % 31 == 0
    &&& b0 % 16 == 8
    &&& b0 / 16 <= 7
    &&& (b1 / 32) % 2 == 0
}

/// The raw DEFLATE stream inside a zlib stream of at least six bytes.
pub open spec fn zlib_body(inp: Seq<u8>) -> Seq<u8> {
    inp.subrange(2, inp.len() - 4)
}

/// The transmitted Adler-32 at the end of a zlib stream.
pub open spec fn zlib_trailer(inp: Seq<u8>) -> u32 {
    from_be32(inp[inp.len() - 4], inp[inp.len() - 3], inp[inp.len() - 2], inp[inp.len() - 1])
}

/// The bytes a zlib stream decodes to, where it is well formed.
pub open spec fn zlib_payload(inp: Seq<u8>) -> Option<Seq<u8>> {
    if inp.len() < 6 || !zlib_header_ok(inp[0], inp[1]) {
        None
    } else {
        match inflate_of(zlib_body(inp)) {
            Some(out) => if adler32_of(out) == zlib_trailer(inp) {
                Some(out)
            } else {
                None
            },
            None => None,
        }
    }
}

/// Why a zlib stream fails to decode, checked in order: its size, its
/// header's check bits, its method and window, a preset dictionary, the
/// DEFLATE stream, and the Adler-32 trailer.
pub open spec fn zlib_error(inp: Seq<u8>) -> DecodeError {
    if inp.len() < 6 {
        DecodeError::ZlibTooSmall
    } else if (inp[0] as int * 256 + inp[1] as int) % 31 != 0 {
        DecodeError::ZlibHeader
    } else if inp[0] % 16 != 8 || inp[0] / 16 > 7 {
        DecodeError::CompressionMethod
    } else if (inp[1] / 32) % 2 != 0 {
        DecodeError::PresetDict
    } else if inflate_of(zlib_body(inp)) is None {
        DecodeError::Inflate(inflate_status_of(zlib_body(inp)))
    } else {
        DecodeError::AdlerChecksum
    }
}

/// The zlib stream written for `data` at a level: header `78 01`, the
/// DEFLATE stream, and the big-endian Adler-32 of `data`.
pub open spec fn zlib_stream(data: Seq<u8>, level: u8) -> Seq<u8> {
    seq![0x78u8, 0x01u8] + deflate_of(data, level) + be32(adler32_of(data))
}

/// Decodes a zlib stream.
pub fn zlib_decompress(inp: &[u8]) -> (r: Result<Vec<u8>, DecodeError>)
    ensures
        r is Ok <==> zlib_payload(inp@) is Some,
        r matches Ok(v) ==> Some(v@) == zlib_payload(inp@),
        r is Err ==> r == Err::<Vec<u8>, DecodeError>(zlib_error(inp@)),
        inp@.len() < 6 ==> r == Err::<Vec<u8>, DecodeError>(DecodeError::ZlibTooSmall),
        inp@.len() >= 6 && (inp@[0] as int * 256 + inp@[1] as int) % 31 != 0 ==> r == Err::<
            Vec<u8>,
            DecodeError,
        >(DecodeError::ZlibHeader),
        inp@.len() >= 6 && (inp@[0] as int * 256 + inp@[1] as int) % 31 == 0 && (inp@[0] % 16 != 8
            || inp@[0] / 16 > 7) ==> r == Err::<Vec<u8>, DecodeError>(DecodeError::CompressionMethod),
        inp@.len() >= 6 && zlib_header_ok(inp@[0], inp@[1]) && inflate_of(zlib_body(inp@)) is None
            ==> r matches Err(DecodeError::Inflate(_)),
        inp@.len() >= 6 && zlib_header_ok(inp@[0], inp@[1]) && inflate_of(zlib_body(inp@)) is Some
            && adler32_of(inflate_of(zlib_body(inp@))->0) != zlib_trailer(inp@) ==> r == Err::<
            Vec<u8>,
            DecodeError,
        >(DecodeError::AdlerChecksum),
        r == Err::<Vec<u8>, DecodeError>(DecodeError::PresetDict) <==> (inp@.len() >= 6 && (inp@[0] as int
            * 256 + inp@[1] as int) % 31 == 0 && inp@[0] % 16 == 8 && inp@[0] / 16 <= 7 && (inp@[1] / 32) % 2 == 1),
{
    let n = inp.len();
    if n < 6 {
        return Err(DecodeError::ZlibTooSmall);
    }
    let b0 = inp[0];
    let b1 = inp[1];
    if (b0 as u32 * 256 + b1 as u32) % 31 != 0 {
        return Err(DecodeError::ZlibHeader);
    }
    if b0 % 16 != 8 || b0 / 16 > 7 {
        return Err(DecodeError::CompressionMethod);
    }
    if (b1 / 32) % 2 != 0 {
        return Err(DecodeError::PresetDict);
    }
    let body = slice_range(inp, 2, n - 4);
    let out = match inflate(body.as_slice()) {
        Ok(v) => v,
        Err(code) => {
            return Err(DecodeError::Inflate(code));
        },
    };
    let want: u32 = inp[n - 4] as u32 * 0x1000000 + inp[n - 3] as u32 * 0x10000 + inp[n - 2] as u32
        * 0x100 + inp[n - 1] as u32;
    let sum = adler32(out.as_slice());
    if sum != want {
        return Err(DecodeError::AdlerChecksum);
    }
    Ok(out)
}

/// Copies `s[start..end]` into a new vector.
pub fn slice_range(s: &[u8], start: usize, end: usize) -> (r: Vec<u8>)
    requires
        start <= end <= s@.len(),
    ensures
        r@ == s@.subrange(start as int, end as int),
{
    let mut r: Vec<u8> = Vec::with_capacity(end - start);
    let mut i: usize = start;
    while i < end
        invariant
            start <= i <= end,
            end <= s@.len(),
            r@ == s@.subrange(start as int, i as int),
        decreases end - i,
    {
        r.push(s[i]);
        i = i + 1;
        proof {
            assert(r@ =~= s@.subrange(start as int, i as int));
        }
    }
    r
}

/// Appends the big-endian bytes of `v`.
pub fn push_be32(out: &mut Vec<u8>, v: u32)
    ensures
        final(out)@ == old(out)@ + be32(v),
{
    out.push((v / 0x1000000) as u8);
    out.push(((v / 0x10000) % 0x100) as u8);
    out.push(((v / 0x100) % 0x100) as u8);
    out.push((v % 0x100) as u8);
    proof {
        assert(out@ =~= old(out)@ + be32(v));
    }
}

/// Appends all of `b`.
pub fn push_all(out: &mut Vec<u8>, b: &[u8])
    ensures
        final(out)@ == old(out)@ + b@,
{
    let mut i: usize = 0;
    while i < b.len()
        invariant
            i <= b@.len(),
            out@ == old(out)@ + b@.subrange(0, i as int),
        decreases b@.len() - i,
    {
        out.push(b[i]);
        i = i + 1;
        proof {
            assert(out@ =~= old(out)@ + b@.subrange(0, i as int));
        }
    }
    proof {
        assert(b@.subrange(0, i as int) =~= b@);
    }
}

/// Encodes `data` as a zlib stream at a compression level of 0 to 10; the
/// stream decodes back to `data`.
pub fn zlib_compress(data: &[u8], level: u8) -> (r: Vec<u8>)
    requires
        level <= 10,
    ensures
        r@ == zlib_stream(data@, level),
        zlib_payload(r@) == Some(data@),
{
    let mut out: Vec<u8> = Vec::new();
    out.push(0x78);
    out.push(0x01);
    let deflated = deflate(data, level);
    push_all(&mut out, deflated.as_slice());
    let sum = adler32(data);
    push_be32(&mut out, sum);
    proof {
        let s = out@;
        assert(s =~= zlib_stream(data@, level));
        assert(zlib_body(s) =~= deflated@);
        assert(s.len() >= 6);
        assert(zlib_header_ok(0x78, 0x01));
        assert(zlib_trailer(s) == sum);
    }
    out
}

} // verus!
