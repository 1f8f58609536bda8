//! The text chunks: tEXt, zTXt and iTXt.

use vstd::prelude::*;
use vstd::utf8::encode_utf8;

use crate::chunk::{ITEXT, TEXT, ZTEXT};
use crate::error::{DecodeError, EncodeError};
use crate::zlib::{
    push_all, slice_range, zlib_compress, zlib_decompress, zlib_error, zlib_payload, zlib_stream,
};

verus! {

/// The text that bytes decode to, with each invalid UTF-8 sequence replaced
/// by U+FFFD.
pub uninterp spec fn utf8_lossy(b: Seq<u8>) -> Seq<char>;

/// Relies on String::from_utf8_lossy: decodes UTF-8, replacing invalid
/// sequences; no bytes give no text.
#[verifier::external_body]
fn lossy_string(b: &[u8]) -> (r: String)
    ensures
        r@ == utf8_lossy(b@),
        b@.len() == 0 ==> r@.len() == 0,
{
    String::from_utf8_lossy(b).into_owned()
}

/// The first NUL byte of `d` at or after `i`, or the length of `d`.
pub open spec fn first_nul(d: Seq<u8>, i: int) -> int
    decreases d.len() - i,
{
    if i >= d.len() {
        d.len() as int
    } else if d[i] == 0 {
        i
    } else {
        first_nul(d, i + 1)
    }
}

/// Finds the first NUL byte at or after `i`.
fn find_nul(d: &[u8], i: usize) -> (r: usize)
    requires
        i <= d@.len(),
    ensures
        r == first_nul(d@, i as int),
        i <= r <= d@.len(),
{
    let mut j: usize = i;
    while j < d.len() && d[j] != 0
        invariant
            i <= j <= d@.len(),
            first_nul(d@, j as int) == first_nul(d@, i as int),
        decreases d@.len() - j,
    {
        j = j + 1;
    }
    j
}

/// The position after a NUL-terminated field ending at `p`.
pub open spec fn after(d: Seq<u8>, p: int) -> int {
    if p < d.len() {
        p + 1
    } else {
        p
    }
}

/// A keyword of 1 to 79 bytes.
pub open spec fn key_ok(n: int) -> bool {
    1 <= n <= 79
}

/// iTXt data decodes: a keyword of 1 to 79 bytes, the two flag bytes,
/// a compression method of 0 where the text is compressed, and then a
/// well-formed zlib stream where it is.
pub open spec fn itxt_ok(d: Seq<u8>) -> bool {
    let p = first_nul(d, 0);
    &&& key_ok(p)
    &&& p + 3 <= d.len()
    &&& (d[p + 1] != 0 ==> d[p + 2] == 0 && zlib_payload(d.subrange(itxt_text_start(d), d.len() as int)) is Some)
}

/// zTXt data decodes: a keyword of 1 to 79 bytes, a compression method
/// of 0, and a well-formed zlib stream.
pub open spec fn ztxt_ok(d: Seq<u8>) -> bool {
    let p = first_nul(d, 0);
    &&& key_ok(p)
    &&& p + 1 < d.len()
    &&& d[p + 1] == 0
    &&& zlib_payload(d.subrange(p + 2, d.len() as int)) is Some
}

/// Why zTXt data fails to decode.
pub open spec fn ztxt_error(d: Seq<u8>) -> DecodeError {
    let p = first_nul(d, 0);
    if !key_ok(p) {
        DecodeError::TextSize(p as usize)
    } else if p + 1 >= d.len() {
        DecodeError::ChunkLength(ZTEXT)
    } else if d[p + 1] != 0 {
        DecodeError::CompressionMethod
    } else {
        zlib_error(d.subrange(p + 2, d.len() as int))
    }
}

/// Why iTXt data fails to decode.
pub open spec fn itxt_error(d: Seq<u8>) -> DecodeError {
    let p = first_nul(d, 0);
    if !key_ok(p) {
        DecodeError::TextSize(p as usize)
    } else if p + 3 > d.len() {
        DecodeError::ChunkLength(ITEXT)
    } else if d[p + 1] != 0 && d[p + 2] != 0 {
        DecodeError::CompressionMethod
    } else {
        zlib_error(d.subrange(itxt_text_start(d), d.len() as int))
    }
}

/// The tEXt payload.
#[derive(Clone, Debug)]
pub struct Text {
    pub key: String,
    pub val: String,
}

/// The zTXt payload.
#[derive(Clone, Debug)]
pub struct CompressedText {
    pub key: String,
    pub val: String,
}

/// The iTXt payload.
#[derive(Clone, Debug)]
pub struct InternationalText {
    pub key: String,
    pub langtag: String,
    pub transkey: String,
    pub val: String,
    pub compressed: bool,
}

impl Text {
    /// Decodes tEXt data: a NUL-terminated keyword of 1 to 79 bytes, then
    /// the text to the end.
    pub fn parse(d: &[u8]) -> (r: Result<Text, DecodeError>)
        ensures
            r is Ok <==> key_ok(first_nul(d@, 0)),
            r is Err ==> r == Err::<Text, DecodeError>(DecodeError::TextSize(first_nul(d@, 0) as usize)),
            r matches Ok(t) ==> t.key@ == utf8_lossy(d@.subrange(0, first_nul(d@, 0)))
                && t.val@ == utf8_lossy(d@.subrange(after(d@, first_nul(d@, 0)), d@.len() as int)),
            r matches Ok(t) ==> (after(d@, first_nul(d@, 0)) == d@.len() ==> t.val@.len() == 0),
    {
        let p = find_nul(d, 0);
        if p < 1 || p > 79 {
            return Err(DecodeError::TextSize(p));
        }
        let q = if p < d.len() {
            p + 1
        } else {
            p
        };
        let kb = slice_range(d, 0, p);
        let vb = slice_range(d, q, d.len());
        Ok(Text { key: lossy_string(kb.as_slice()), val: lossy_string(vb.as_slice()) })
    }

    /// The tEXt data of this payload; a keyword outside 1 to 79 bytes is a
    /// `TextSize` error.
    pub fn write(&self) -> (r: Result<Vec<u8>, EncodeError>)
        ensures
            r is Ok <==> key_ok(encode_utf8(self.key@).len() as int),
            r is Err ==> r == Err::<Vec<u8>, EncodeError>(EncodeError::TextSize(encode_utf8(self.key@).len() as usize)),
            r matches Ok(v) ==> v@ == encode_utf8(self.key@) + seq![0u8] + encode_utf8(self.val@),
    {
        let kb = self.key.as_str().as_bytes();
        if kb.len() < 1 || kb.len() > 79 {
            return Err(EncodeError::TextSize(kb.len()));
        }
        let mut out: Vec<u8> = Vec::new();
        push_all(&mut out, kb);
        out.push(0);
        push_all(&mut out, self.val.as_str().as_bytes());
        Ok(out)
    }
}

impl CompressedText {
    /// Decodes zTXt data: a NUL-terminated keyword of 1 to 79 bytes, a
    /// compression method byte of 0, then a zlib stream of the text.
    pub fn parse(d: &[u8]) -> (r: Result<CompressedText, DecodeError>)
        ensures
            !key_ok(first_nul(d@, 0)) ==> r == Err::<CompressedText, DecodeError>(DecodeError::TextSize(first_nul(d@, 0) as usize)),
            key_ok(first_nul(d@, 0)) && first_nul(d@, 0) + 1 >= d@.len() ==> r == Err::<CompressedText, DecodeError>(DecodeError::ChunkLength(ZTEXT)),
            key_ok(first_nul(d@, 0)) && first_nul(d@, 0) + 1 < d@.len() && d@[first_nul(d@, 0) + 1] != 0 ==> r == Err::<CompressedText, DecodeError>(DecodeError::CompressionMethod),
            r is Ok <==> key_ok(first_nul(d@, 0)) && first_nul(d@, 0) + 1 < d@.len() && d@[first_nul(d@, 0) + 1] == 0
                && zlib_payload(d@.subrange(first_nul(d@, 0) + 2, d@.len() as int)) is Some,
            r matches Ok(t) ==> t.key@ == utf8_lossy(d@.subrange(0, first_nul(d@, 0)))
                && t.val@ == utf8_lossy(zlib_payload(d@.subrange(first_nul(d@, 0) + 2, d@.len() as int))->0),
            r is Err ==> r == Err::<CompressedText, DecodeError>(ztxt_error(d@)),
    {
        let p = find_nul(d, 0);
        if p < 1 || p > 79 {
            return Err(DecodeError::TextSize(p));
        }
        if p + 1 >= d.len() {
            return Err(DecodeError::ChunkLength(ZTEXT));
        }
        if d[p + 1] != 0 {
            return Err(DecodeError::CompressionMethod);
        }
        let kb = slice_range(d, 0, p);
        let zb = slice_range(d, p + 2, d.len());
        let text = zlib_decompress(zb.as_slice())?;
        Ok(CompressedText { key: lossy_string(kb.as_slice()), val: lossy_string(text.as_slice()) })
    }

    /// The zTXt data of this payload at a compression level; a keyword
    /// outside 1 to 79 bytes is a `TextSize` error.
    pub fn write(&self, level: u8) -> (r: Result<Vec<u8>, EncodeError>)
        requires
            level <= 10,
        ensures
            r is Ok <==> key_ok(encode_utf8(self.key@).len() as int),
            r is Err ==> r == Err::<Vec<u8>, EncodeError>(EncodeError::TextSize(encode_utf8(self.key@).len() as usize)),
            r matches Ok(v) ==> v@ == encode_utf8(self.key@) + seq![0u8, 0u8] + zlib_stream(encode_utf8(self.val@), level),
    {
        let kb = self.key.as_str().as_bytes();
        if kb.len() < 1 || kb.len() > 79 {
            return Err(EncodeError::TextSize(kb.len()));
        }
        let z = zlib_compress(self.val.as_str().as_bytes(), level);
        let mut out: Vec<u8> = Vec::new();
        push_all(&mut out, kb);
        out.push(0);
        out.push(0);
        push_all(&mut out, z.as_slice());
        proof {
            assert(out@ =~= encode_utf8(self.key@) + seq![0u8, 0u8] + zlib_stream(encode_utf8(self.val@), level));
        }
        Ok(out)
    }
}

/// Where the fields of iTXt data begin: after the keyword, after the
/// language tag, after the translated keyword.
pub open spec fn itxt_lang_start(d: Seq<u8>) -> int {
    first_nul(d, 0) + 3
}

pub open spec fn itxt_trans_start(d: Seq<u8>) -> int {
    after(d, first_nul(d, itxt_lang_start(d)))
}

pub open spec fn itxt_text_start(d: Seq<u8>) -> int {
    after(d, first_nul(d, itxt_trans_start(d)))
}

impl InternationalText {
    /// Decodes iTXt data: a NUL-terminated keyword of 1 to 79 bytes, a
    /// compression flag, a compression method (0 where the flag is set), a
    /// NUL-terminated language tag and translated keyword, then the text,
    /// raw or as a zlib stream.
    pub fn parse(d: &[u8]) -> (r: Result<InternationalText, DecodeError>)
        ensures
            !key_ok(first_nul(d@, 0)) ==> r == Err::<InternationalText, DecodeError>(DecodeError::TextSize(first_nul(d@, 0) as usize)),
            key_ok(first_nul(d@, 0)) && first_nul(d@, 0) + 3 > d@.len() ==> r == Err::<InternationalText, DecodeError>(DecodeError::ChunkLength(ITEXT)),
            key_ok(first_nul(d@, 0)) && first_nul(d@, 0) + 3 <= d@.len() && d@[first_nul(d@, 0) + 1] != 0
                && d@[first_nul(d@, 0) + 2] != 0 ==> r == Err::<InternationalText, DecodeError>(DecodeError::CompressionMethod),
            r matches Ok(t) ==> t.compressed == (d@[first_nul(d@, 0) + 1] != 0)
                && t.key@ == utf8_lossy(d@.subrange(0, first_nul(d@, 0)))
                && t.langtag@ == utf8_lossy(d@.subrange(itxt_lang_start(d@), first_nul(d@, itxt_lang_start(d@))))
                && t.transkey@ == utf8_lossy(d@.subrange(itxt_trans_start(d@), first_nul(d@, itxt_trans_start(d@))))
                && (!t.compressed ==> t.val@ == utf8_lossy(d@.subrange(itxt_text_start(d@), d@.len() as int)))
                && (t.compressed ==> t.val@ == utf8_lossy(zlib_payload(d@.subrange(itxt_text_start(d@), d@.len() as int))->0)),
            key_ok(first_nul(d@, 0)) && first_nul(d@, 0) + 3 <= d@.len() && d@[first_nul(d@, 0) + 1] == 0 ==> r is Ok,
            r is Ok <==> itxt_ok(d@),
            r is Err ==> r == Err::<InternationalText, DecodeError>(itxt_error(d@)),
            r matches Ok(t) ==> (!t.compressed && itxt_text_start(d@) == d@.len() ==> t.val@.len() == 0),
    {
        let p = find_nul(d, 0);
        if p < 1 || p > 79 {
            return Err(DecodeError::TextSize(p));
        }
        if p + 3 > d.len() {
            return Err(DecodeError::ChunkLength(ITEXT));
        }
        let compressed = d[p + 1] != 0;
        if compressed && d[p + 2] != 0 {
            return Err(DecodeError::CompressionMethod);
        }
        let ls = p + 3;
        let le = find_nul(d, ls);
        let ts = if le < d.len() {
            le + 1
        } else {
            le
        };
        let te = find_nul(d, ts);
        let xs = if te < d.len() {
            te + 1
        } else {
            te
        };
        let kb = slice_range(d, 0, p);
        let lb = slice_range(d, ls, le);
        let tb = slice_range(d, ts, te);
        let xb = slice_range(d, xs, d.len());
        let val = if compressed {
            let text = zlib_decompress(xb.as_slice())?;
            lossy_string(text.as_slice())
        } else {
            lossy_string(xb.as_slice())
        };
        Ok(InternationalText {
            key: lossy_string(kb.as_slice()),
            langtag: lossy_string(lb.as_slice()),
            transkey: lossy_string(tb.as_slice()),
            val,
            compressed,
        })
    }

    /// The iTXt data of this payload at a compression level; a keyword
    /// outside 1 to 79 bytes is a `TextSize` error.
    pub fn write(&self, level: u8) -> (r: Result<Vec<u8>, EncodeError>)
        requires
            level <= 10,
        ensures
            r is Ok <==> key_ok(encode_utf8(self.key@).len() as int),
            r is Err ==> r == Err::<Vec<u8>, EncodeError>(EncodeError::TextSize(encode_utf8(self.key@).len() as usize)),
            r matches Ok(v) ==> v@ == encode_utf8(self.key@) + seq![0u8, if self.compressed { 1u8 } else { 0u8 }, 0u8]
                + encode_utf8(self.langtag@) + seq![0u8] + encode_utf8(self.transkey@) + seq![0u8] + (if self.compressed {
                zlib_stream(encode_utf8(self.val@), level)
            } else {
                encode_utf8(self.val@)
            }),
    {
        let kb = self.key.as_str().as_bytes();
        if kb.len() < 1 || kb.len() > 79 {
            return Err(EncodeError::TextSize(kb.len()));
        }
        let mut out: Vec<u8> = Vec::new();
        push_all(&mut out, kb);
        out.push(0);
        out.push(if self.compressed {
            1
        } else {
            0
        });
        out.push(0);
        push_all(&mut out, self.langtag.as_str().as_bytes());
        out.push(0);
        push_all(&mut out, self.transkey.as_str().as_bytes());
        out.push(0);
        if self.compressed {
            let z = zlib_compress(self.val.as_str().as_bytes(), level);
            push_all(&mut out, z.as_slice());
        } else {
            push_all(&mut out, self.val.as_str().as_bytes());
        }
        proof {
            assert(out@ =~= encode_utf8(self.key@) + seq![0u8, if self.compressed { 1u8 } else { 0u8 }, 0u8]
                + encode_utf8(self.langtag@) + seq![0u8] + encode_utf8(self.transkey@) + seq![0u8] + (if self.compressed {
                zlib_stream(encode_utf8(self.val@), level)
            } else {
                encode_utf8(self.val@)
            }));
        }
        Ok(out)
    }
}

} // verus!
