//! Chunk framing: `length(4) ‖ name(4) ‖ data(length) ‖ crc(4)`, with the
//! CRC-32 taken over the name and the data, after an 8-byte signature.

use vstd::prelude::*;

use crate::checksum::{crc32_of, lemma_crc_feed_concat, Crc32, CRC32_INIT};
use crate::chunk::{be32_at, from_be_bytes, lemma_be32, read_u32};
use crate::error::{DecodeError, EncodeError};
use crate::zlib::{be32, push_all, push_be32, slice_range};

verus! {

/// The PNG signature `89 50 4E 47 0D 0A 1A 0A`.
pub const PNG_SIGNATURE: [u8; 8] = [137, 80, 78, 71, 13, 10, 26, 10];

/// The largest chunk data length accepted: 2^31.
pub const MAX_CHUNK_LEN: u32 = 0x8000_0000;

/// The four bytes of a name.
pub open spec fn name_seq(n: [u8; 4]) -> Seq<u8> {
    seq![n[0], n[1], n[2], n[3]]
}

/// The bytes of one chunk.
pub open spec fn chunk_bytes(name: [u8; 4], data: Seq<u8>) -> Seq<u8> {
    be32(data.len() as u32) + name_seq(name) + data + be32(crc32_of(name_seq(name) + data))
}

/// The name of the chunk whose frame starts at `pos`.
pub open spec fn name_at(d: Seq<u8>, pos: int) -> [u8; 4] {
    [d[pos + 4], d[pos + 5], d[pos + 6], d[pos + 7]]
}

#[verifier::opaque]
/// One chunk read from `d` at `pos`: its name, its data and where the next
/// frame starts; none at the end of the input.
pub open spec fn frame_at(d: Seq<u8>, pos: int) -> Result<Option<([u8; 4], Seq<u8>, int)>, DecodeError> {
    if pos >= d.len() {
        Ok(None)
    } else if d.len() - pos < 8 {
        Err(DecodeError::Eof)
    } else {
        let len = be32_at(d, pos);
        let name = name_at(d, pos);
        if len > MAX_CHUNK_LEN {
            Err(DecodeError::ChunkLength(name))
        } else if d.len() - pos - 8 < len + 4 {
            Err(DecodeError::Eof)
        } else {
            let data = d.subrange(pos + 8, pos + 8 + len);
            if be32_at(d, pos + 8 + len) != crc32_of(name_seq(name) + data) {
                Err(DecodeError::Crc32(name))
            } else {
                Ok(Some((name, data, pos + 12 + len)))
            }
        }
    }
}

/// A frame ends after it starts and within the input.
pub proof fn lemma_frame_next(d: Seq<u8>, pos: int)
    requires
        0 <= pos,
    ensures
        frame_at(d, pos) matches Ok(Some(f)) ==> pos < f.2 <= d.len(),
{
    reveal(frame_at);
}

/// Reads the chunk whose frame starts at `pos`.
pub fn read_frame(d: &[u8], pos: usize) -> (r: Result<Option<([u8; 4], Vec<u8>, usize)>, DecodeError>)
    requires
        pos <= d@.len(),
    ensures
        r matches Ok(Some(c)) ==> frame_at(d@, pos as int) == Ok::<Option<([u8; 4], Seq<u8>, int)>, DecodeError>(Some((c.0, c.1@, c.2 as int))),
        r matches Ok(None) ==> frame_at(d@, pos as int) == Ok::<Option<([u8; 4], Seq<u8>, int)>, DecodeError>(None),
        r matches Err(e) ==> frame_at(d@, pos as int) == Err::<Option<([u8; 4], Seq<u8>, int)>, DecodeError>(e),
{
    proof {
        reveal(frame_at);
    }
    let n = d.len();
    if pos >= n {
        return Ok(None);
    }
    if n - pos < 8 {
        return Err(DecodeError::Eof);
    }
    let len = read_u32(d, pos);
    let name: [u8; 4] = [d[pos + 4], d[pos + 5], d[pos + 6], d[pos + 7]];
    if len > MAX_CHUNK_LEN {
        return Err(DecodeError::ChunkLength(name));
    }
    if n - pos - 8 < len as usize + 4 {
        return Err(DecodeError::Eof);
    }
    let end: usize = pos + 8 + len as usize;
    let data = slice_range(d, pos + 8, end);
    let mut crc = Crc32::new();
    crc.update(name.as_slice());
    crc.update(data.as_slice());
    let sum = crc.into_u32();
    let want = read_u32(d, end);
    proof {
        assert(name@ =~= name_seq(name));
        lemma_crc_feed_concat(CRC32_INIT, name_seq(name), data@);
    }
    if want != sum {
        return Err(DecodeError::Crc32(name));
    }
    Ok(Some((name, data, end + 4)))
}

/// Appends one chunk; data longer than 2^31 bytes is a `ChunkTooBig` error
/// and appends nothing.
pub fn write_frame(out: &mut Vec<u8>, name: [u8; 4], data: &[u8]) -> (r: Result<(), EncodeError>)
    ensures
        r is Ok <==> data@.len() <= MAX_CHUNK_LEN,
        r is Err ==> r == Err::<(), EncodeError>(EncodeError::ChunkTooBig) && final(out)@ == old(out)@,
        r is Ok ==> final(out)@ == old(out)@ + chunk_bytes(name, data@),
{
    if data.len() > MAX_CHUNK_LEN as usize {
        return Err(EncodeError::ChunkTooBig);
    }
    let mut crc = Crc32::new();
    crc.update(name.as_slice());
    crc.update(data);
    let sum = crc.into_u32();
    proof {
        assert(name@ =~= name_seq(name));
        lemma_crc_feed_concat(CRC32_INIT, name_seq(name), data@);
    }
    push_be32(out, data.len() as u32);
    push_all(out, name.as_slice());
    push_all(out, data);
    push_be32(out, sum);
    proof {
        assert(final(out)@ =~= old(out)@ + chunk_bytes(name, data@));
    }
    Ok(())
}

/// A chunk written by `write_frame` reads back as its name and data, with a
/// CRC that verifies, wherever it stands in the input.
pub proof fn lemma_frame_round_trip(prefix: Seq<u8>, name: [u8; 4], data: Seq<u8>, rest: Seq<u8>)
    requires
        data.len() <= MAX_CHUNK_LEN,
    ensures
        frame_at(prefix + chunk_bytes(name, data) + rest, prefix.len() as int) == Ok::<
            Option<([u8; 4], Seq<u8>, int)>,
            DecodeError,
        >(Some((name, data, (prefix.len() + 12 + data.len()) as int))),
{
    reveal(frame_at);
    let d = prefix + chunk_bytes(name, data) + rest;
    let pos = prefix.len() as int;
    let l = data.len() as u32;
    let c = crc32_of(name_seq(name) + data);
    lemma_be32(l);
    lemma_be32(c);
    assert(d.subrange(pos, pos + 4) =~= be32(l));
    assert(d[pos] == be32(l)[0] && d[pos + 1] == be32(l)[1] && d[pos + 2] == be32(l)[2] && d[pos + 3] == be32(l)[3]);
    assert(be32_at(d, pos) == l);
    assert(name_at(d, pos) =~= name);
    let e = pos + 8 + l;
    assert(d.subrange(pos + 8, e) =~= data);
    assert(d[e] == be32(c)[0] && d[e + 1] == be32(c)[1] && d[e + 2] == be32(c)[2] && d[e + 3] == be32(c)[3]);
    assert(be32_at(d, e) == c);
}

/// The frames of a byte buffer from `pos` on, as (name, data) pairs, or the
/// first framing error.
pub open spec fn frames_from(d: Seq<u8>, pos: int) -> Result<Seq<([u8; 4], Seq<u8>)>, DecodeError>
    decreases d.len() - pos,
{
    match frame_at(d, pos) {
        Err(e) => Err(e),
        Ok(None) => Ok(Seq::empty()),
        Ok(Some((n, data, next))) => if pos < next <= d.len() {
            match frames_from(d, next) {
                Ok(rest) => Ok(seq![(n, data)] + rest),
                Err(e) => Err(e),
            }
        } else {
            Ok(Seq::empty())
        },
    }
}

/// The bytes of a list of chunks, in order.
pub open spec fn chunks_concat(cs: Seq<([u8; 4], Seq<u8>)>) -> Seq<u8>
    decreases cs.len(),
{
    if cs.len() == 0 {
        Seq::empty()
    } else {
        chunk_bytes(cs[0].0, cs[0].1) + chunks_concat(cs.drop_first())
    }
}

/// A PNG file of a list of chunks: the signature, then the chunks.
pub open spec fn file_bytes(cs: Seq<([u8; 4], Seq<u8>)>) -> Seq<u8> {
    PNG_SIGNATURE@ + chunks_concat(cs)
}

pub proof fn lemma_chunks_concat_push(cs: Seq<([u8; 4], Seq<u8>)>, c: ([u8; 4], Seq<u8>))
    ensures
        chunks_concat(cs.push(c)) == chunks_concat(cs) + chunk_bytes(c.0, c.1),
    decreases cs.len(),
{
    if cs.len() == 0 {
        assert(cs.push(c).drop_first() =~= Seq::<([u8; 4], Seq<u8>)>::empty());
        assert(chunks_concat(Seq::<([u8; 4], Seq<u8>)>::empty()) == Seq::<u8>::empty());
        assert(cs.push(c)[0] == c);
        assert(chunks_concat(cs.push(c)) == chunk_bytes(c.0, c.1) + Seq::<u8>::empty());
        assert(chunks_concat(cs.push(c)) =~= chunk_bytes(c.0, c.1));
        assert(chunks_concat(cs) == Seq::<u8>::empty());
        assert(chunks_concat(cs) + chunk_bytes(c.0, c.1) =~= chunk_bytes(c.0, c.1));
    } else {
        assert(cs.push(c).drop_first() =~= cs.drop_first().push(c));
        lemma_chunks_concat_push(cs.drop_first(), c);
    }
}

#[verifier::rlimit(60)]
/// Chunks written one after another read back, frame by frame, as the same
/// names and data, each with a CRC that verifies.
pub proof fn lemma_chunks_frames(prefix: Seq<u8>, cs: Seq<([u8; 4], Seq<u8>)>)
    requires
        forall|i: int| 0 <= i < cs.len() ==> (#[trigger] cs[i]).1.len() <= MAX_CHUNK_LEN,
    ensures
        frames_from(prefix + chunks_concat(cs), prefix.len() as int) == Ok::<Seq<([u8; 4], Seq<u8>)>, DecodeError>(cs),
    decreases cs.len(),
{
    let d = prefix + chunks_concat(cs);
    if cs.len() == 0 {
        assert(d =~= prefix);
        reveal(frame_at);
        assert(frame_at(d, prefix.len() as int) == Ok::<Option<([u8; 4], Seq<u8>, int)>, DecodeError>(None));
        assert(cs =~= Seq::<([u8; 4], Seq<u8>)>::empty());
    } else {
        let c = cs[0];
        let tail = cs.drop_first();
        let rest = chunks_concat(tail);
        assert(c.1.len() <= MAX_CHUNK_LEN);
        let p2 = prefix + chunk_bytes(c.0, c.1);
        assert(d == prefix + chunk_bytes(c.0, c.1) + rest);
        lemma_frame_round_trip(prefix, c.0, c.1, rest);
        let next = (prefix.len() + 12 + c.1.len()) as int;
        assert(frame_at(d, prefix.len() as int) == Ok::<Option<([u8; 4], Seq<u8>, int)>, DecodeError>(Some((c.0, c.1, next))));
        assert(p2.len() == next);
        assert forall|i: int| 0 <= i < tail.len() implies (#[trigger] tail[i]).1.len() <= MAX_CHUNK_LEN by {
            assert(tail[i] == cs[i + 1]);
        }
        lemma_chunks_frames(p2, tail);
        assert(p2 + rest =~= d);
        assert(frames_from(d, next) == Ok::<Seq<([u8; 4], Seq<u8>)>, DecodeError>(tail));
        assert(d.len() >= next);
        assert(seq![(c.0, c.1)] + tail =~= cs);
    }
}

} // verus!
