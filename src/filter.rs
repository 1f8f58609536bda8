//! The five PNG scanline predictors, their inverses, and the strategies that
//! choose a predictor for each line.

use vstd::prelude::*;

use crate::error::DecodeError;

verus! {

/// How the encoder chooses a filter type for each scanline.
#[derive(Clone, Copy, Debug, PartialEq, Eq, Structural)]
pub enum FilterStrategy {
    /// Always filter type 0.
    Zero,
    /// The type whose filtered bytes have the least signed-magnitude sum.
    MinSum,
    /// The type whose filtered bytes have the least Shannon entropy.
    Entropy,
    /// The type whose filtered line compresses smallest.
    BruteForce,
}

/// The Paeth predictor of left `a`, above `b` and upper-left `c`.
pub open spec fn paeth(a: u8, b: u8, c: u8) -> u8 {
    let p = a as int + b as int - c as int;
    let pa = if p >= a { p - a } else { a - p };
    let pb = if p >= b { p - b } else { b - p };
    let pc = if p >= c { p - c } else { c - p };
    if pa <= pb && pa <= pc {
        a
    } else if pb <= pc {
        b
    } else {
        c
    }
}

/// The byte `s` to the left of `i` in `line`, or 0 before the line starts.
pub open spec fn left(line: Seq<u8>, s: int, i: int) -> u8 {
    if i >= s {
        line[i - s]
    } else {
        0
    }
}

/// The byte above `i`, or 0 on the first line.
pub open spec fn above(prev: Option<Seq<u8>>, i: int) -> u8 {
    match prev {
        Some(p) => p[i],
        None => 0,
    }
}

/// The byte above and `s` to the left of `i`, or 0.
pub open spec fn upper_left(prev: Option<Seq<u8>>, s: int, i: int) -> u8 {
    match prev {
        Some(p) => left(p, s, i),
        None => 0,
    }
}

/// The prediction of byte `i` by filter type `ft`, from the bytes of `line`
/// before `i` and from the previous line.
pub open spec fn predictor(ft: u8, line: Seq<u8>, prev: Option<Seq<u8>>, s: int, i: int) -> u8 {
    let a = left(line, s, i);
    let b = above(prev, i);
    let c = upper_left(prev, s, i);
    if ft == 1 {
        a
    } else if ft == 2 {
        b
    } else if ft == 3 {
        ((a as int + b as int) / 2) as u8
    } else if ft == 4 {
        paeth(a, b, c)
    } else {
        0
    }
}

/// `(x + y) mod 256`.
pub open spec fn add_mod(x: u8, y: u8) -> u8 {
    ((x as int + y as int) % 256) as u8
}

/// `(x - y) mod 256`.
pub open spec fn sub_mod(x: u8, y: u8) -> u8 {
    ((x as int - y as int + 256) % 256) as u8
}

/// A raw line filtered with type `ft` and pixel stride `s`.
pub open spec fn filter_line(ft: u8, line: Seq<u8>, prev: Option<Seq<u8>>, s: int) -> Seq<u8> {
    Seq::new(line.len(), |i: int| sub_mod(line[i], predictor(ft, line, prev, s, i)))
}

/// The first `n` bytes of a filtered line reconstructed with type `ft`; each
/// byte adds the prediction from the bytes reconstructed before it.
pub open spec fn unfilter_prefix(
    ft: u8,
    f: Seq<u8>,
    prev: Option<Seq<u8>>,
    s: int,
    n: nat,
) -> Seq<u8>
    decreases n,
{
    if n == 0 {
        Seq::empty()
    } else {
        let r = unfilter_prefix(ft, f, prev, s, (n - 1) as nat);
        r.push(add_mod(f[n - 1], predictor(ft, r, prev, s, n - 1)))
    }
}

/// A filtered line reconstructed with type `ft`.
pub open spec fn unfilter_line(ft: u8, f: Seq<u8>, prev: Option<Seq<u8>>, s: int) -> Seq<u8> {
    unfilter_prefix(ft, f, prev, s, f.len())
}

/// A previous line long enough for a line of `n` bytes.
pub open spec fn prev_fits(prev: Option<Seq<u8>>, n: nat) -> bool {
    match prev {
        Some(p) => p.len() >= n,
        None => true,
    }
}

pub open spec fn prev_view(prev: Option<&[u8]>) -> Option<Seq<u8>> {
    match prev {
        Some(p) => Some(p@),
        None => None,
    }
}

/// The prediction depends only on the bytes before `i`.
proof fn lemma_predictor_prefix(
    ft: u8,
    a: Seq<u8>,
    b: Seq<u8>,
    prev: Option<Seq<u8>>,
    s: int,
    i: int,
)
    requires
        s >= 1,
        0 <= i,
        i <= a.len(),
        i <= b.len(),
        a.subrange(0, i) == b.subrange(0, i),
    ensures
        predictor(ft, a, prev, s, i) == predictor(ft, b, prev, s, i),
{
    if i >= s {
        let k = i - s;
        assert(0 <= k < i);
        assert(a.subrange(0, i)[k] == a[k]);
        assert(b.subrange(0, i)[k] == b[k]);
        assert(a[k] == b[k]);
        assert(left(a, s, i) == left(b, s, i));
    } else {
        assert(left(a, s, i) == left(b, s, i));
    }
}

proof fn lemma_unfilter_prefix_len(ft: u8, f: Seq<u8>, prev: Option<Seq<u8>>, s: int, n: nat)
    ensures
        unfilter_prefix(ft, f, prev, s, n).len() == n,
    decreases n,
{
    if n > 0 {
        lemma_unfilter_prefix_len(ft, f, prev, s, (n - 1) as nat);
    }
}

/// A reconstructed line is as long as the filtered one.
pub proof fn lemma_unfilter_line_len(ft: u8, f: Seq<u8>, prev: Option<Seq<u8>>, s: int)
    ensures
        unfilter_line(ft, f, prev, s).len() == f.len(),
{
    lemma_unfilter_prefix_len(ft, f, prev, s, f.len());
}

/// Filtering then unfiltering a line with the same type, stride and previous
/// line gives back the line.
pub proof fn lemma_unfilter_filter(ft: u8, line: Seq<u8>, prev: Option<Seq<u8>>, s: int)
    requires
        s >= 1,
        prev_fits(prev, line.len()),
    ensures
        unfilter_line(ft, filter_line(ft, line, prev, s), prev, s) == line,
{
    let f = filter_line(ft, line, prev, s);
    lemma_unfilter_prefix_of_filter(ft, line, prev, s, line.len());
    assert(line.subrange(0, line.len() as int) =~= line);
}

proof fn lemma_unfilter_prefix_of_filter(
    ft: u8,
    line: Seq<u8>,
    prev: Option<Seq<u8>>,
    s: int,
    n: nat,
)
    requires
        s >= 1,
        n <= line.len(),
    ensures
        unfilter_prefix(ft, filter_line(ft, line, prev, s), prev, s, n) == line.subrange(0, n as int),
    decreases n,
{
    if n > 0 {
        let f = filter_line(ft, line, prev, s);
        lemma_unfilter_prefix_of_filter(ft, line, prev, s, (n - 1) as nat);
        let r = unfilter_prefix(ft, f, prev, s, (n - 1) as nat);
        assert(r.subrange(0, n - 1) =~= line.subrange(0, n - 1));
        lemma_predictor_prefix(ft, r, line, prev, s, n - 1);
        let p = predictor(ft, line, prev, s, n - 1);
        assert(f[n - 1] == sub_mod(line[n - 1], p));
        assert(add_mod(sub_mod(line[n - 1], p), p) == line[n - 1]);
        assert(r.push(line[n - 1]) =~= line.subrange(0, n as int));
    }
}

/// The Paeth predictor.
pub fn paeth_predictor(a: u8, b: u8, c: u8) -> (r: u8)
    ensures
        r == paeth(a, b, c),
{
    let p: i16 = a as i16 + b as i16 - c as i16;
    let pa: i16 = if p >= a as i16 { p - a as i16 } else { a as i16 - p };
    let pb: i16 = if p >= b as i16 { p - b as i16 } else { b as i16 - p };
    let pc: i16 = if p >= c as i16 { p - c as i16 } else { c as i16 - p };
    if pa <= pb && pa <= pc {
        a
    } else if pb <= pc {
        b
    } else {
        c
    }
}

/// The prediction of byte `i`, from the line's bytes before `i` and the
/// previous line.
fn predict(ft: u8, line: &Vec<u8>, prevline: Option<&[u8]>, bytewidth: usize, i: usize) -> (r: u8)
    requires
        i < line@.len(),
        prev_fits(prev_view(prevline), (i + 1) as nat),
    ensures
        r == predictor(ft, line@, prev_view(prevline), bytewidth as int, i as int),
{
    let a: u8 = if i >= bytewidth {
        line[i - bytewidth]
    } else {
        0
    };
    let (b, c): (u8, u8) = match prevline {
        Some(p) => (p[i], if i >= bytewidth {
            p[i - bytewidth]
        } else {
            0
        }),
        None => (0, 0),
    };
    if ft == 1 {
        a
    } else if ft == 2 {
        b
    } else if ft == 3 {
        ((a as u16 + b as u16) / 2) as u8
    } else if ft == 4 {
        paeth_predictor(a, b, c)
    } else {
        0
    }
}

/// The prediction of byte `i` from a slice.
fn predict_slice(ft: u8, line: &[u8], prevline: Option<&[u8]>, bytewidth: usize, i: usize) -> (r: u8)
    requires
        i < line@.len(),
        prev_fits(prev_view(prevline), (i + 1) as nat),
    ensures
        r == predictor(ft, line@, prev_view(prevline), bytewidth as int, i as int),
{
    let a: u8 = if i >= bytewidth {
        line[i - bytewidth]
    } else {
        0
    };
    let (b, c): (u8, u8) = match prevline {
        Some(p) => (p[i], if i >= bytewidth {
            p[i - bytewidth]
        } else {
            0
        }),
        None => (0, 0),
    };
    if ft == 1 {
        a
    } else if ft == 2 {
        b
    } else if ft == 3 {
        ((a as u16 + b as u16) / 2) as u8
    } else if ft == 4 {
        paeth_predictor(a, b, c)
    } else {
        0
    }
}

/// Filters the first `length` bytes of `scanline` with type `filter_type`
/// into the first `length` bytes of `out`.
pub fn filter_scanline(
    out: &mut Vec<u8>,
    scanline: &[u8],
    prevline: Option<&[u8]>,
    length: usize,
    bytewidth: usize,
    filter_type: u8,
)
    requires
        length <= scanline@.len(),
        length <= old(out)@.len(),
        bytewidth >= 1,
        prev_fits(prev_view(prevline), length as nat),
    ensures
        final(out)@.len() == old(out)@.len(),
        final(out)@.subrange(0, length as int) == filter_line(
            filter_type,
            scanline@.subrange(0, length as int),
            prev_view(prevline),
            bytewidth as int,
        ),
        final(out)@.subrange(length as int, final(out)@.len() as int) == old(out)@.subrange(
            length as int,
            old(out)@.len() as int,
        ),
{
    let ghost line = scanline@.subrange(0, length as int);
    let ghost prev = prev_view(prevline);
    let mut i: usize = 0;
    while i < length
        invariant
            i <= length,
            length <= scanline@.len(),
            out@.len() == old(out)@.len(),
            length <= out@.len(),
            bytewidth >= 1,
            prev_fits(prev, length as nat),
            prev == prev_view(prevline),
            line == scanline@.subrange(0, length as int),
            forall|j: int| 0 <= j < i ==> out@[j] == #[trigger] filter_line(filter_type, line, prev, bytewidth as int)[j],
            forall|j: int| length <= j < out@.len() ==> out@[j] == old(out)@[j],
        decreases length - i,
    {
        let p = predict_slice(filter_type, scanline, prevline, bytewidth, i);
        proof {
            assert(scanline@.subrange(0, i as int) =~= line.subrange(0, i as int));
            lemma_predictor_prefix(filter_type, scanline@, line, prev, bytewidth as int, i as int);
        }
        let v = scanline[i].wrapping_sub(p);
        out.set(i, v);
        i = i + 1;
    }
    proof {
        assert(out@.subrange(0, length as int) =~= filter_line(filter_type, line, prev, bytewidth as int));
        assert(out@.subrange(length as int, out@.len() as int) =~= old(out)@.subrange(length as int, old(out)@.len() as int));
    }
}

/// Reconstructs the first `length` bytes of `scanline`, filtered with type
/// `filter_type`, into the first `length` bytes of `recon`. A filter type
/// above 4 is an `IllegalFilterType` error and leaves `recon` as it was.
pub fn unfilter_scanline(
    recon: &mut Vec<u8>,
    scanline: &[u8],
    precon: Option<&[u8]>,
    bytewidth: usize,
    filter_type: u8,
    length: usize,
) -> (r: Result<(), DecodeError>)
    requires
        length <= scanline@.len(),
        length <= old(recon)@.len(),
        bytewidth >= 1,
        prev_fits(prev_view(precon), length as nat),
    ensures
        final(recon)@.len() == old(recon)@.len(),
        r is Err <==> filter_type > 4,
        r is Err ==> r == Err::<(), DecodeError>(DecodeError::IllegalFilterType) && final(recon)@ == old(recon)@,
        r is Ok ==> final(recon)@.subrange(0, length as int) == unfilter_line(
            filter_type,
            scanline@.subrange(0, length as int),
            prev_view(precon),
            bytewidth as int,
        ),
        final(recon)@.subrange(length as int, final(recon)@.len() as int) == old(recon)@.subrange(
            length as int,
            old(recon)@.len() as int,
        ),
{
    if filter_type > 4 {
        return Err(DecodeError::IllegalFilterType);
    }
    let ghost f = scanline@.subrange(0, length as int);
    let ghost prev = prev_view(precon);
    let mut i: usize = 0;
    while i < length
        invariant
            i <= length,
            length <= scanline@.len(),
            recon@.len() == old(recon)@.len(),
            length <= recon@.len(),
            bytewidth >= 1,
            prev_fits(prev, length as nat),
            prev == prev_view(precon),
            f == scanline@.subrange(0, length as int),
            recon@.subrange(0, i as int) == unfilter_prefix(filter_type, f, prev, bytewidth as int, i as nat),
            forall|j: int| length <= j < recon@.len() ==> recon@[j] == old(recon)@[j],
        decreases length - i,
    {
        let ghost r0 = recon@;
        let p = predict(filter_type, recon, precon, bytewidth, i);
        proof {
            lemma_unfilter_prefix_len(filter_type, f, prev, bytewidth as int, i as nat);
            let u = unfilter_prefix(filter_type, f, prev, bytewidth as int, i as nat);
            assert(r0.subrange(0, i as int) == u.subrange(0, i as int));
            lemma_predictor_prefix(filter_type, r0, u, prev, bytewidth as int, i as int);
        }
        let v = scanline[i].wrapping_add(p);
        recon.set(i, v);
        proof {
            assert(recon@.subrange(0, i + 1) =~= r0.subrange(0, i as int).push(v));
        }
        i = i + 1;
    }
    proof {
        assert(recon@.subrange(length as int, recon@.len() as int) =~= old(recon)@.subrange(length as int, old(recon)@.len() as int));
    }
    Ok(())
}

} // verus!
