//! CRC-32 over chunk names and data, and Adler-32 over zlib payloads.

use vstd::prelude::*;

verus! {

/// The reversed CRC-32 polynomial.
pub const CRC32_POLY: u32 = 0xEDB88320;

/// The initial (and final xor) value of the CRC-32 register.
pub const CRC32_INIT: u32 = 0xFFFFFFFF;

/// One shift of the CRC-32 register by a bit.
pub open spec fn crc_shift(c: u32) -> u32 {
    if c & 1 == 1 {
        CRC32_POLY ^ (c >> 1)
    } else {
        c >> 1
    }
}

/// `k` shifts of the CRC-32 register, starting from `n`.
pub open spec fn crc_shifts(n: u32, k: nat) -> u32
    decreases k,
{
    if k == 0 {
        n
    } else {
        crc_shift(crc_shifts(n, (k - 1) as nat))
    }
}

/// Entry `n` of the CRC-32 lookup table.
pub open spec fn crc_table_entry(n: u32) -> u32 {
    crc_shifts(n, 8)
}

/// The register after one byte: `table[(s ^ b) & 0xFF] ^ (s >> 8)`.
pub open spec fn crc_step(s: u32, b: u8) -> u32 {
    crc_table_entry((s ^ (b as u32)) & 0xFF) ^ (s >> 8)
}

/// The register after feeding `data`, starting from `s`.
pub open spec fn crc_feed(s: u32, data: Seq<u8>) -> u32
    decreases data.len(),
{
    if data.len() == 0 {
        s
    } else {
        crc_step(crc_feed(s, data.drop_last()), data.last())
    }
}

/// The CRC-32 of a byte sequence.
pub open spec fn crc32_of(data: Seq<u8>) -> u32 {
    crc_feed(CRC32_INIT, data) ^ CRC32_INIT
}

pub proof fn lemma_crc_feed_push(s: u32, data: Seq<u8>, b: u8)
    ensures
        crc_feed(s, data.push(b)) == crc_step(crc_feed(s, data), b),
{
    assert(data.push(b).drop_last() =~= data);
}

pub proof fn lemma_crc_feed_concat(s: u32, a: Seq<u8>, b: Seq<u8>)
    ensures
        crc_feed(s, a + b) == crc_feed(crc_feed(s, a), b),
    decreases b.len(),
{
    if b.len() == 0 {
        assert(a + b =~= a);
    } else {
        assert((a + b).drop_last() =~= a + b.drop_last());
        lemma_crc_feed_concat(s, a, b.drop_last());
    }
}

/// Computes entry `n` of the CRC-32 lookup table.
fn crc_entry(n: u32) -> (r: u32)
    ensures
        r == crc_table_entry(n),
{
    let mut c: u32 = n;
    let mut k: u32 = 0;
    while k < 8
        invariant
            k <= 8,
            c == crc_shifts(n, k as nat),
        decreases 8 - k,
    {
        if c & 1 == 1 {
            c = CRC32_POLY ^ (c >> 1);
        } else {
            c = c >> 1;
        }
        k = k + 1;
    }
    c
}

/// Builds the 256-entry CRC-32 lookup table.
fn crc_table() -> (t: Vec<u32>)
    ensures
        t@.len() == 256,
        forall|i: int| 0 <= i < 256 ==> t@[i] == crc_table_entry(i as u32),
{
    let mut t: Vec<u32> = Vec::with_capacity(256);
    let mut n: u32 = 0;
    while n < 256
        invariant
            n <= 256,
            t@.len() == n,
            forall|i: int| 0 <= i < n ==> t@[i] == crc_table_entry(i as u32),
        decreases 256 - n,
    {
        let e = crc_entry(n);
        t.push(e);
        n = n + 1;
    }
    t
}

/// A streaming CRC-32 accumulator.
pub struct Crc32 {
    state: u32,
    table: Vec<u32>,
}

impl Crc32 {
    /// The bytes fed so far determine the register.
    pub closed spec fn wf(&self) -> bool {
        &&& self.table@.len() == 256
        &&& forall|i: int| 0 <= i < 256 ==> self.table@[i] == crc_table_entry(i as u32)
    }

    /// The register value.
    pub closed spec fn register(&self) -> u32 {
        self.state
    }

    /// A blank CRC-32 accumulator.
    pub fn new() -> (c: Self)
        ensures
            c.wf(),
            c.register() == CRC32_INIT,
    {
        Crc32 { state: CRC32_INIT, table: crc_table() }
    }

    /// Feeds one byte.
    pub fn add(&mut self, byte: u8)
        requires
            old(self).wf(),
        ensures
            final(self).wf(),
            final(self).register() == crc_step(old(self).register(), byte),
    {
        let x: u32 = self.state ^ (byte as u32);
        assert((x & 0xFF) < 256) by (bit_vector);
        let idx = (x & 0xFF) as usize;
        self.state = self.table[idx] ^ (self.state >> 8);
    }

    /// Feeds a run of bytes.
    pub fn update(&mut self, bytes: &[u8])
        requires
            old(self).wf(),
        ensures
            final(self).wf(),
            final(self).register() == crc_feed(old(self).register(), bytes@),
    {
        let ghost s0 = self.register();
        let mut i: usize = 0;
        while i < bytes.len()
            invariant
                self.wf(),
                i <= bytes@.len(),
                self.register() == crc_feed(s0, bytes@.subrange(0, i as int)),
            decreases bytes@.len() - i,
        {
            proof {
                lemma_crc_feed_push(s0, bytes@.subrange(0, i as int), bytes@[i as int]);
                assert(bytes@.subrange(0, i as int).push(bytes@[i as int]) =~= bytes@.subrange(
                    0,
                    i + 1,
                ));
            }
            self.add(bytes[i]);
            i = i + 1;
        }
        proof {
            assert(bytes@.subrange(0, i as int) =~= bytes@);
        }
    }

    /// The checksum of the bytes fed so far.
    pub fn into_u32(self) -> (r: u32)
        ensures
            r == self.register() ^ CRC32_INIT,
    {
        self.state ^ CRC32_INIT
    }
}

/// The CRC-32 of `data`.
pub fn lodepng_crc32(data: &[u8]) -> (r: u32)
    ensures
        r == crc32_of(data@),
{
    let mut c = Crc32::new();
    c.update(data);
    c.into_u32()
}

/// The Adler-32 sums `(s1, s2)` after feeding `data`.
pub open spec fn adler_sums(data: Seq<u8>) -> (nat, nat)
    decreases data.len(),
{
    if data.len() == 0 {
        (1, 0)
    } else {
        let (a, b) = adler_sums(data.drop_last());
        let a2 = ((a + data.last()) % 65521) as nat;
        (a2, ((b + a2) % 65521) as nat)
    }
}

/// The Adler-32 checksum of a byte sequence: `(s2 << 16) | s1`.
pub open spec fn adler32_of(data: Seq<u8>) -> u32 {
    (adler_sums(data).1 * 65536 + adler_sums(data).0) as u32
}

/// Relies on simd_adler32::adler32: the Adler-32 checksum of a byte slice.
#[verifier::external_body]
pub(crate) fn adler32(data: &[u8]) -> (r: u32)
    ensures
        r == adler32_of(data@),
{
    simd_adler32::adler32(&data)
}

} // verus!
