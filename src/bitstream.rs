//! MSB-first bit addressing over byte buffers: bit `i` is bit `7 - (i & 7)`
//! of byte `i >> 3`.

use vstd::prelude::*;

verus! {

/// Bit `i` of an MSB-first bit stream.
pub open spec fn get_bit(s: Seq<u8>, i: int) -> u8 {
    byte_bit(s[i / 8], (i % 8) as u8)
}

/// Bit `k` (MSB first) of a byte.
pub open spec fn byte_bit(b: u8, k: u8) -> u8 {
    (b >> ((7 - k) as u8)) & 1
}

/// A byte with bit `p` (MSB first) set to `v`.
pub open spec fn byte_with_bit(b: u8, p: u8, v: u8) -> u8 {
    if v == 1 {
        b | (1u8 << ((7 - p) as u8))
    } else {
        b & !(1u8 << ((7 - p) as u8))
    }
}

/// The bits of a byte, in MSB-first order, determine it.
pub proof fn lemma_byte_from_bits(a: u8, b: u8)
    requires
        forall|k: u8| k < 8 ==> #[trigger] byte_bit(a, k) == byte_bit(b, k),
    ensures
        a == b,
{
    assert(byte_bit(a, 0) == byte_bit(b, 0));
    assert(byte_bit(a, 1) == byte_bit(b, 1));
    assert(byte_bit(a, 2) == byte_bit(b, 2));
    assert(byte_bit(a, 3) == byte_bit(b, 3));
    assert(byte_bit(a, 4) == byte_bit(b, 4));
    assert(byte_bit(a, 5) == byte_bit(b, 5));
    assert(byte_bit(a, 6) == byte_bit(b, 6));
    assert(byte_bit(a, 7) == byte_bit(b, 7));
    assert(((a >> 7u8) & 1 == (b >> 7u8) & 1 && (a >> 6u8) & 1 == (b >> 6u8) & 1 && (a >> 5u8)
        & 1 == (b >> 5u8) & 1 && (a >> 4u8) & 1 == (b >> 4u8) & 1 && (a >> 3u8) & 1 == (b >> 3u8)
        & 1 && (a >> 2u8) & 1 == (b >> 2u8) & 1 && (a >> 1u8) & 1 == (b >> 1u8) & 1 && (a >> 0u8)
        & 1 == (b >> 0u8) & 1) ==> a == b) by (bit_vector);
}

/// Two byte sequences of one length with the same bits are equal.
pub proof fn lemma_bytes_from_bits(a: Seq<u8>, b: Seq<u8>)
    requires
        a.len() == b.len(),
        forall|i: int| 0 <= i < 8 * a.len() ==> #[trigger] get_bit(a, i) == get_bit(b, i),
    ensures
        a == b,
{
    assert forall|j: int| 0 <= j < a.len() implies a[j] == b[j] by {
        assert forall|k: u8| k < 8 implies #[trigger] byte_bit(a[j], k) == byte_bit(b[j], k) by {
            let i = 8 * j + k;
            assert(i / 8 == j && i % 8 == k);
            assert(get_bit(a, i) == get_bit(b, i));
        }
        lemma_byte_from_bits(a[j], b[j]);
    }
    assert(a =~= b);
}

/// Reads bit `i` of a bit stream.
pub fn read_bit(s: &[u8], i: usize) -> (r: u8)
    requires
        i / 8 < s@.len(),
    ensures
        r == get_bit(s@, i as int),
        r <= 1,
{
    proof {
        assert(i >> 3 == i / 8) by (bit_vector);
        assert(i & 7 == i % 8) by (bit_vector);
    }
    let byte = s[i >> 3];
    let sh: u8 = (7 - (i & 7)) as u8;
    let r = (byte >> sh) & 1;
    assert(((byte >> sh) & 1) <= 1) by (bit_vector);
    r
}

proof fn lemma_set_bit_byte(b: u8, p: u8, v: u8)
    requires
        p < 8,
        v <= 1,
    ensures
        byte_bit(byte_with_bit(b, p, v), p) == v,
        forall|q: u8| q < 8 && q != p ==> #[trigger] byte_bit(byte_with_bit(b, p, v), q) == byte_bit(b, q),
{
    if v == 1 {
        assert(p < 8 ==> ((b | (1u8 << ((7 - p) as u8))) >> ((7 - p) as u8)) & 1 == 1) by (bit_vector);
        assert forall|q: u8| q < 8 && q != p implies #[trigger] byte_bit(byte_with_bit(b, p, v), q) == byte_bit(b, q) by {
            assert(p < 8 && q < 8 && q != p ==> ((b | (1u8 << ((7 - p) as u8))) >> ((7 - q) as u8)) & 1
                == (b >> ((7 - q) as u8)) & 1) by (bit_vector);
        }
    } else {
        assert(p < 8 ==> ((b & !(1u8 << ((7 - p) as u8))) >> ((7 - p) as u8)) & 1 == 0) by (bit_vector);
        assert forall|q: u8| q < 8 && q != p implies #[trigger] byte_bit(byte_with_bit(b, p, v), q) == byte_bit(b, q) by {
            assert(p < 8 && q < 8 && q != p ==> ((b & !(1u8 << ((7 - p) as u8))) >> ((7 - q) as u8)) & 1
                == (b >> ((7 - q) as u8)) & 1) by (bit_vector);
        }
    }
}

/// Sets bit `i` of a bit stream to `v`, leaving every other bit as it was.
pub fn set_bit(s: &mut Vec<u8>, i: usize, v: u8)
    requires
        i / 8 < old(s)@.len(),
        v <= 1,
    ensures
        final(s)@.len() == old(s)@.len(),
        get_bit(final(s)@, i as int) == v,
        forall|j: int| 0 <= j < 8 * old(s)@.len() && j != i ==> #[trigger] get_bit(final(s)@, j) == get_bit(old(s)@, j),
{
    proof {
        assert(i >> 3 == i / 8) by (bit_vector);
        assert(i & 7 == i % 8) by (bit_vector);
    }
    let idx = i >> 3;
    let p: u8 = (i & 7) as u8;
    let b = s[idx];
    let n: u8 = if v == 1 {
        b | (1u8 << ((7 - p) as u8))
    } else {
        b & !(1u8 << ((7 - p) as u8))
    };
    proof {
        lemma_set_bit_byte(b, p, v);
        assert(n == byte_with_bit(b, p, v));
    }
    s.set(idx, n);
    proof {
        assert(byte_bit(n, p) == v);
        assert forall|j: int| 0 <= j < 8 * old(s)@.len() && j != i implies #[trigger] get_bit(s@, j) == get_bit(old(s)@, j) by {
            if j / 8 == idx {
                let q = (j % 8) as u8;
                assert(q != p);
                assert(byte_bit(n, q) == byte_bit(b, q));
            }
        }
    }
}

} // verus!
