//! The passage between a densely packed raster and the uncompressed
//! scanline stream of an image: sub-images, padding and filtering.

use vstd::prelude::*;

use crate::adam7::{
    deinterlace, dims_fit, interlace_sub, is_raster_of, is_sub_image,
    lemma_deinterlace_interlace, lemma_sub_image, n_subs, row_bytes, sub_h, sub_image, sub_size,
    sub_w,
};
use crate::bitstream::get_bit;
use crate::error::DecodeError;
use crate::filter::FilterStrategy;
use crate::scanlines::{
    choose_type, chosen_types, lemma_best_type_bound, filter_image, filter_rows, lemma_filter_rows_len, lemma_unfilter_rows_filter_rows,
    lemma_unfilter_rows_len, unfilter_image, unfilter_rows,
};
use crate::zlib::{push_all, slice_range};

verus! {

/// Bytes of sub-image `p` in the scanline stream: a filter byte and a
/// padded line for each of its lines.
pub open spec fn sub_stream_len(w: nat, h: nat, bpp: nat, il: bool, p: int) -> nat {
    sub_h(w, h, il, p) * (row_bytes(sub_w(w, h, il, p), bpp) + 1)
}

/// Where sub-image `p` starts in the scanline stream.
pub open spec fn sub_offset(w: nat, h: nat, bpp: nat, il: bool, p: nat) -> nat
    decreases p,
{
    if p == 0 {
        0
    } else {
        sub_offset(w, h, bpp, il, (p - 1) as nat) + sub_stream_len(w, h, bpp, il, p - 1)
    }
}

/// The size of the uncompressed scanline stream an image header implies.
pub open spec fn expected_idat_size(w: nat, h: nat, bpp: nat, il: bool) -> nat {
    sub_offset(w, h, bpp, il, n_subs(il))
}

/// The filter stride: bytes per pixel, at least 1.
pub open spec fn stride(bpp: nat) -> int {
    ((bpp + 7) / 8) as int
}

/// The part of a scanline stream that holds sub-image `p`.
pub open spec fn sub_stream(data: Seq<u8>, w: nat, h: nat, bpp: nat, il: bool, p: int) -> Seq<u8> {
    data.subrange(
        sub_offset(w, h, bpp, il, p as nat) as int,
        (sub_offset(w, h, bpp, il, p as nat) + sub_stream_len(w, h, bpp, il, p)) as int,
    )
}

/// Sub-image `p` reconstructed from a scanline stream, where it can be.
pub open spec fn decoded_sub(data: Seq<u8>, w: nat, h: nat, bpp: nat, il: bool, p: int) -> Option<Seq<u8>> {
    unfilter_rows(
        sub_stream(data, w, h, bpp, il, p),
        row_bytes(sub_w(w, h, il, p), bpp),
        stride(bpp),
        sub_h(w, h, il, p),
    )
}

/// A scanline stream has the expected size and every line's filter type is
/// known.
pub open spec fn scanlines_ok(data: Seq<u8>, w: nat, h: nat, bpp: nat, il: bool) -> bool {
    &&& data.len() == expected_idat_size(w, h, bpp, il)
    &&& forall|p: int| 0 <= p < n_subs(il) ==> (#[trigger] decoded_sub(data, w, h, bpp, il, p)) is Some
}

/// The sub-images reconstructed from a scanline stream.
pub open spec fn decoded_subs(data: Seq<u8>, w: nat, h: nat, bpp: nat, il: bool) -> Seq<Seq<u8>> {
    Seq::new(n_subs(il), |p: int| decoded_sub(data, w, h, bpp, il, p)->0)
}

/// The scanline stream of the first `n` sub-images of a raster, with the
/// filter types a strategy picks.
pub open spec fn encoded_subs(
    r: Seq<u8>,
    w: nat,
    h: nat,
    bpp: nat,
    il: bool,
    strategy: FilterStrategy,
    level: u8,
    n: nat,
) -> Seq<u8>
    decreases n,
{
    if n == 0 {
        Seq::empty()
    } else {
        let p = n - 1;
        let img = sub_image(r, w, h, bpp, il, p);
        let lb = row_bytes(sub_w(w, h, il, p), bpp);
        let ph = sub_h(w, h, il, p);
        encoded_subs(r, w, h, bpp, il, strategy, level, (n - 1) as nat) + filter_rows(
            img,
            lb,
            stride(bpp),
            chosen_types(strategy, img, lb, stride(bpp), level, ph),
            ph,
        )
    }
}

/// The scanline stream of a raster.
pub open spec fn encoded_scanlines(
    r: Seq<u8>,
    w: nat,
    h: nat,
    bpp: nat,
    il: bool,
    strategy: FilterStrategy,
    level: u8,
) -> Seq<u8> {
    encoded_subs(r, w, h, bpp, il, strategy, level, n_subs(il))
}

/// A raster of `w * h` pixels of `bpp` bits: the right length, with the bits
/// after the last pixel zero.
pub open spec fn raster_ok(r: Seq<u8>, w: nat, h: nat, bpp: nat) -> bool {
    &&& r.len() == row_bytes(w * h, bpp)
    &&& forall|b: int| w * h * bpp <= b < r.len() * 8 ==> #[trigger] get_bit(r, b) == 0
}

/// A sub-image's stream has the length `sub_stream_len` gives.
proof fn lemma_encoded_part_len(r: Seq<u8>, w: nat, h: nat, bpp: nat, il: bool, strategy: FilterStrategy, level: u8, p: int)
    requires
        bpp >= 1,
    ensures
        ({
            let img = sub_image(r, w, h, bpp, il, p);
            let lb = row_bytes(sub_w(w, h, il, p), bpp);
            let ph = sub_h(w, h, il, p);
            filter_rows(img, lb, stride(bpp), chosen_types(strategy, img, lb, stride(bpp), level, ph), ph).len()
                == sub_stream_len(w, h, bpp, il, p)
        }),
{
    let img = sub_image(r, w, h, bpp, il, p);
    let lb = row_bytes(sub_w(w, h, il, p), bpp);
    let ph = sub_h(w, h, il, p);
    lemma_sub_image(img, r, w, h, bpp, il, p);
    lemma_filter_rows_len(img, lb, stride(bpp), chosen_types(strategy, img, lb, stride(bpp), level, ph), ph);
}

proof fn lemma_encoded_subs_len(r: Seq<u8>, w: nat, h: nat, bpp: nat, il: bool, strategy: FilterStrategy, level: u8, n: nat)
    requires
        bpp >= 1,
    ensures
        encoded_subs(r, w, h, bpp, il, strategy, level, n).len() == sub_offset(w, h, bpp, il, n),
    decreases n,
{
    if n > 0 {
        lemma_encoded_subs_len(r, w, h, bpp, il, strategy, level, (n - 1) as nat);
        lemma_encoded_part_len(r, w, h, bpp, il, strategy, level, n - 1);
    }
}

/// The stream of the first `n` sub-images begins the stream of the first `m`.
proof fn lemma_encoded_subs_prefix(r: Seq<u8>, w: nat, h: nat, bpp: nat, il: bool, strategy: FilterStrategy, level: u8, n: nat, m: nat)
    requires
        bpp >= 1,
        n <= m,
    ensures
        encoded_subs(r, w, h, bpp, il, strategy, level, m).subrange(0, sub_offset(w, h, bpp, il, n) as int)
            == encoded_subs(r, w, h, bpp, il, strategy, level, n),
    decreases m,
{
    lemma_encoded_subs_len(r, w, h, bpp, il, strategy, level, n);
    lemma_encoded_subs_len(r, w, h, bpp, il, strategy, level, m);
    if m == n {
        assert(encoded_subs(r, w, h, bpp, il, strategy, level, m).subrange(0, sub_offset(w, h, bpp, il, n) as int)
            =~= encoded_subs(r, w, h, bpp, il, strategy, level, n));
    } else {
        lemma_encoded_subs_prefix(r, w, h, bpp, il, strategy, level, n, (m - 1) as nat);
        lemma_encoded_subs_len(r, w, h, bpp, il, strategy, level, (m - 1) as nat);
        lemma_sub_offset_mono(w, h, bpp, il, n, (m - 1) as nat);
        let a = encoded_subs(r, w, h, bpp, il, strategy, level, (m - 1) as nat);
        let e = encoded_subs(r, w, h, bpp, il, strategy, level, m);
        assert(e.subrange(0, sub_offset(w, h, bpp, il, n) as int) =~= a.subrange(0, sub_offset(w, h, bpp, il, n) as int));
    }
}

proof fn lemma_sub_offset_mono(w: nat, h: nat, bpp: nat, il: bool, n: nat, m: nat)
    requires
        n <= m,
    ensures
        sub_offset(w, h, bpp, il, n) <= sub_offset(w, h, bpp, il, m),
    decreases m,
{
    if m > n {
        lemma_sub_offset_mono(w, h, bpp, il, n, (m - 1) as nat);
    }
}

/// Sub-image `p`'s part of a raster's scanline stream is its filtered lines.
proof fn lemma_encoded_sub_stream(r: Seq<u8>, w: nat, h: nat, bpp: nat, il: bool, strategy: FilterStrategy, level: u8, p: int)
    requires
        bpp >= 1,
        0 <= p < n_subs(il),
    ensures
        ({
            let img = sub_image(r, w, h, bpp, il, p);
            let lb = row_bytes(sub_w(w, h, il, p), bpp);
            let ph = sub_h(w, h, il, p);
            sub_stream(encoded_scanlines(r, w, h, bpp, il, strategy, level), w, h, bpp, il, p)
                == filter_rows(img, lb, stride(bpp), chosen_types(strategy, img, lb, stride(bpp), level, ph), ph)
        }),
{
    let n = (p + 1) as nat;
    let e = encoded_scanlines(r, w, h, bpp, il, strategy, level);
    lemma_encoded_subs_prefix(r, w, h, bpp, il, strategy, level, n, n_subs(il));
    lemma_encoded_subs_len(r, w, h, bpp, il, strategy, level, p as nat);
    lemma_encoded_part_len(r, w, h, bpp, il, strategy, level, p);
    lemma_sub_offset_mono(w, h, bpp, il, n, n_subs(il));
    lemma_encoded_subs_len(r, w, h, bpp, il, strategy, level, n_subs(il));
    let en = encoded_subs(r, w, h, bpp, il, strategy, level, n);
    assert(sub_stream(e, w, h, bpp, il, p) =~= en.subrange(sub_offset(w, h, bpp, il, p as nat) as int, en.len() as int));
}

/// Encoding a raster's pixels to a scanline stream and decoding that stream
/// gives back the raster, for every size, pixel depth, schedule, filter
/// strategy and level; the stream has the size the header predicts.
pub proof fn lemma_scanlines_round_trip(
    r: Seq<u8>,
    r2: Seq<u8>,
    w: nat,
    h: nat,
    bpp: nat,
    il: bool,
    strategy: FilterStrategy,
    level: u8,
)
    requires
        w >= 1,
        h >= 1,
        bpp >= 1,
        raster_ok(r, w, h, bpp),
    ensures
        encoded_scanlines(r, w, h, bpp, il, strategy, level).len() == expected_idat_size(w, h, bpp, il),
        scanlines_ok(encoded_scanlines(r, w, h, bpp, il, strategy, level), w, h, bpp, il),
        is_raster_of(r2, decoded_subs(encoded_scanlines(r, w, h, bpp, il, strategy, level), w, h, bpp, il), w, h, bpp, il)
            ==> r2 == r,
{
    let e = encoded_scanlines(r, w, h, bpp, il, strategy, level);
    lemma_encoded_subs_len(r, w, h, bpp, il, strategy, level, n_subs(il));
    assert forall|p: int| 0 <= p < n_subs(il) implies (#[trigger] decoded_sub(e, w, h, bpp, il, p)) == Some(sub_image(r, w, h, bpp, il, p)) by {
        let img = sub_image(r, w, h, bpp, il, p);
        let lb = row_bytes(sub_w(w, h, il, p), bpp);
        let ph = sub_h(w, h, il, p);
        let types = chosen_types(strategy, img, lb, stride(bpp), level, ph);
        lemma_encoded_sub_stream(r, w, h, bpp, il, strategy, level, p);
        lemma_sub_image(img, r, w, h, bpp, il, p);
        assert forall|y: int| 0 <= y < ph implies types[y] <= 4 by {
            if strategy != FilterStrategy::Zero {
                lemma_best_type_bound(strategy, crate::scanlines::row(img, lb, y as nat), crate::scanlines::prev_row(img, lb, y as nat), stride(bpp), level, 5);
            }
        }
        assert(stride(bpp) >= 1);
        lemma_unfilter_rows_filter_rows(img, lb, stride(bpp), types, ph);
        assert(img.subrange(0, (ph * lb) as int) =~= img);
    }
    if is_raster_of(r2, decoded_subs(e, w, h, bpp, il), w, h, bpp, il) {
        let subs = decoded_subs(e, w, h, bpp, il);
        assert forall|p: int| 0 <= p < n_subs(il) implies is_sub_image(#[trigger] subs[p], r, w, h, bpp, il, p) by {
            lemma_sub_image(subs[p], r, w, h, bpp, il, p);
        }
        lemma_deinterlace_interlace(r, subs, r2, w, h, bpp, il);
    }
}

/// Sub-image sizes are bounded by the image's.
proof fn lemma_sub_stream_len_bound(w: nat, h: nat, bpp: nat, il: bool, p: int)
    requires
        bpp >= 1,
        0 <= p < n_subs(il),
    ensures
        sub_stream_len(w, h, bpp, il, p) <= (w * bpp + 8) * (h + 8),
        sub_w(w, h, il, p) <= w,
        sub_h(w, h, il, p) <= h,
        row_bytes(sub_w(w, h, il, p), bpp) + 1 <= w * bpp + 8,
{
    let pw = sub_w(w, h, il, p);
    let ph = sub_h(w, h, il, p);
    if pw > 0 {
        crate::adam7::lemma_sub_in_bounds(w, h, il, p, 0, 0);
    }
    assert(pw * bpp <= w * bpp) by (nonlinear_arith)
        requires pw <= w;
    assert(ph * (row_bytes(pw, bpp) + 1) <= (w * bpp + 8) * (h + 8)) by (nonlinear_arith)
        requires ph <= h, row_bytes(pw, bpp) + 1 <= w * bpp + 8;
}

proof fn lemma_sub_offset_bound(w: nat, h: nat, bpp: nat, il: bool, n: nat)
    requires
        bpp >= 1,
        n <= n_subs(il),
    ensures
        sub_offset(w, h, bpp, il, n) <= n * ((w * bpp + 8) * (h + 8)),
    decreases n,
{
    if n > 0 {
        lemma_sub_offset_bound(w, h, bpp, il, (n - 1) as nat);
        lemma_sub_stream_len_bound(w, h, bpp, il, n - 1);
        assert((n - 1) * ((w * bpp + 8) * (h + 8)) + (w * bpp + 8) * (h + 8) == n * ((w * bpp + 8) * (h + 8))) by (nonlinear_arith)
            requires n >= 1;
    } else {
        assert(n * ((w * bpp + 8) * (h + 8)) == 0) by (nonlinear_arith)
            requires n == 0;
    }
}

/// Bytes in a padded line of a sub-image `pw` pixels wide.
fn sub_line_bytes(pw: usize, bpp: usize, w: usize) -> (r: usize)
    requires
        pw <= w,
        w * bpp + 8 <= usize::MAX,
    ensures
        r == row_bytes(pw as nat, bpp as nat),
        r + 1 <= w * bpp + 8,
{
    proof {
        assert(pw * bpp <= w * bpp) by (nonlinear_arith)
            requires pw <= w;
    }
    (pw * bpp + 7) / 8
}

/// The size of the uncompressed scanline stream an image implies.
pub fn idat_size(w: usize, h: usize, bpp: usize, il: bool) -> (r: usize)
    requires
        bpp >= 1,
        dims_fit(w as nat, h as nat, bpp as nat),
    ensures
        r == expected_idat_size(w as nat, h as nat, bpp as nat, il),
{
    let n: usize = if il {
        7
    } else {
        1
    };
    proof {
        assert((w * bpp + 8) * (h + 8) * 16 >= w + 8 && (w * bpp + 8) * (h + 8) * 16 >= h + 8) by (nonlinear_arith)
            requires bpp >= 1;
    }
    proof {
        assert((w * bpp + 8) * (h + 8) * 16 >= w * bpp + 8) by (nonlinear_arith);
    }
    let mut off: usize = 0;
    let mut p: usize = 0;
    while p < n
        invariant
            n == n_subs(il),
            p <= n,
            bpp >= 1,
            dims_fit(w as nat, h as nat, bpp as nat),
            w + 8 <= usize::MAX, h + 8 <= usize::MAX,
            w * bpp + 8 <= usize::MAX,
            off == sub_offset(w as nat, h as nat, bpp as nat, il, p as nat),
        decreases n - p,
    {
        let (pw, ph) = sub_size(w, h, il, p);
        proof {
            lemma_sub_stream_len_bound(w as nat, h as nat, bpp as nat, il, p as int);
            lemma_sub_offset_bound(w as nat, h as nat, bpp as nat, il, (p + 1) as nat);
            assert((p + 1) * ((w * bpp + 8) * (h + 8)) <= 7 * ((w * bpp + 8) * (h + 8))) by (nonlinear_arith)
                requires p + 1 <= 7;
        }
        let lb: usize = sub_line_bytes(pw, bpp, w);
        off = off + ph * (lb + 1);
        p = p + 1;
    }
    off
}

/// The scanline stream of a raster, each line filtered with the type the
/// strategy picks. Entropy-driven choices are made by the caller.
pub fn encode_scanlines(
    r: &[u8],
    w: usize,
    h: usize,
    bpp: usize,
    il: bool,
    strategy: FilterStrategy,
    level: u8,
) -> (out: Vec<u8>)
    requires
        w >= 1,
        h >= 1,
        bpp >= 1,
        dims_fit(w as nat, h as nat, bpp as nat),
        r@.len() == row_bytes((w * h) as nat, bpp as nat),
        level <= 10,
        strategy != FilterStrategy::Entropy,
    ensures
        out@ == encoded_scanlines(r@, w as nat, h as nat, bpp as nat, il, strategy, level),
{
    let n: usize = if il {
        7
    } else {
        1
    };
    proof {
        assert((w * bpp + 8) * (h + 8) * 16 >= w + 8 && (w * bpp + 8) * (h + 8) * 16 >= h + 8) by (nonlinear_arith)
            requires bpp >= 1;
        assert((w * bpp + 8) * (h + 8) * 16 >= 128 * (w * bpp + 8)) by (nonlinear_arith);
        assert((w * bpp + 8) * (h + 8) * 16 >= w * bpp + 8) by (nonlinear_arith);
        assert(w * bpp >= bpp) by (nonlinear_arith)
            requires w >= 1;
    }
    let bytewidth: usize = (bpp + 7) / 8;
    let mut out: Vec<u8> = Vec::new();
    let mut p: usize = 0;
    while p < n
        invariant
            n == n_subs(il),
            p <= n,
            w >= 1, h >= 1, bpp >= 1,
            dims_fit(w as nat, h as nat, bpp as nat),
            w + 8 <= usize::MAX, h + 8 <= usize::MAX,
            (w * bpp + 8) * (h + 8) * 16 >= 128 * (w * bpp + 8),
            w * bpp + 8 <= usize::MAX,
            r@.len() == row_bytes((w * h) as nat, bpp as nat),
            level <= 10,
            strategy != FilterStrategy::Entropy,
            bytewidth == stride(bpp as nat),
            out@ == encoded_subs(r@, w as nat, h as nat, bpp as nat, il, strategy, level, p as nat),
        decreases n - p,
    {
        let img = interlace_sub(r, w, h, bpp, il, p);
        let (pw, ph) = sub_size(w, h, il, p);
        proof {
            lemma_sub_stream_len_bound(w as nat, h as nat, bpp as nat, il, p as int);
        }
        let lb: usize = sub_line_bytes(pw, bpp, w);
        proof {
            assert(ph * (lb + 1) <= (w * bpp + 8) * (h + 8)) by (nonlinear_arith)
                requires ph <= h, lb + 1 <= w * bpp + 8;
        }
        let part = filter_image(&img, lb, ph, bytewidth, strategy, level);
        push_all(&mut out, part.as_slice());
        p = p + 1;
    }
    out
}

#[verifier::rlimit(40)]
/// The raster a scanline stream holds. A stream of another size than the
/// image implies is an `ImageDataSize` error; a filter type above 4 is an
/// `IllegalFilterType` error.
pub fn decode_scanlines(data: &[u8], w: usize, h: usize, bpp: usize, il: bool) -> (r: Result<Vec<u8>, DecodeError>)
    requires
        w >= 1,
        h >= 1,
        bpp >= 1,
        dims_fit(w as nat, h as nat, bpp as nat),
    ensures
        r is Ok <==> scanlines_ok(data@, w as nat, h as nat, bpp as nat, il),
        r matches Ok(v) ==> is_raster_of(v@, decoded_subs(data@, w as nat, h as nat, bpp as nat, il), w as nat, h as nat, bpp as nat, il),
        data@.len() != expected_idat_size(w as nat, h as nat, bpp as nat, il) ==> r == Err::<Vec<u8>, DecodeError>(DecodeError::ImageDataSize),
        data@.len() == expected_idat_size(w as nat, h as nat, bpp as nat, il) && r is Err ==> r == Err::<Vec<u8>, DecodeError>(DecodeError::IllegalFilterType),
{
    let total = idat_size(w, h, bpp, il);
    if data.len() != total {
        return Err(DecodeError::ImageDataSize);
    }
    let n: usize = if il {
        7
    } else {
        1
    };
    proof {
        assert((w * bpp + 8) * (h + 8) * 16 >= w + 8 && (w * bpp + 8) * (h + 8) * 16 >= h + 8) by (nonlinear_arith)
            requires bpp >= 1;
        assert((w * bpp + 8) * (h + 8) * 16 >= w * bpp + 8) by (nonlinear_arith);
        assert(w * bpp >= bpp) by (nonlinear_arith)
            requires w >= 1;
    }
    let bytewidth: usize = (bpp + 7) / 8;
    let mut subs: Vec<Vec<u8>> = Vec::new();
    let mut off: usize = 0;
    let mut p: usize = 0;
    while p < n
        invariant
            n == n_subs(il),
            p <= n,
            w >= 1, h >= 1, bpp >= 1,
            dims_fit(w as nat, h as nat, bpp as nat),
            w + 8 <= usize::MAX, h + 8 <= usize::MAX,
            data@.len() == expected_idat_size(w as nat, h as nat, bpp as nat, il),
            data@.len() <= usize::MAX,
            bytewidth == stride(bpp as nat),
            w * bpp + 8 <= usize::MAX,
            off == sub_offset(w as nat, h as nat, bpp as nat, il, p as nat),
            subs@.len() == p,
            forall|q: int| 0 <= q < p ==> decoded_sub(data@, w as nat, h as nat, bpp as nat, il, q) == Some(#[trigger] subs@[q]@),
            forall|q: int| 0 <= q < p ==> (#[trigger] subs@[q])@.len() == sub_h(w as nat, h as nat, il, q) * row_bytes(sub_w(w as nat, h as nat, il, q), bpp as nat),
        decreases n - p,
    {
        let (pw, ph) = sub_size(w, h, il, p);
        proof {
            lemma_sub_stream_len_bound(w as nat, h as nat, bpp as nat, il, p as int);
            lemma_sub_offset_mono(w as nat, h as nat, bpp as nat, il, (p + 1) as nat, n as nat);
        }
        let lb: usize = sub_line_bytes(pw, bpp, w);
        proof {
            assert(ph * (lb + 1) == sub_stream_len(w as nat, h as nat, bpp as nat, il, p as int));
            assert(sub_offset(w as nat, h as nat, bpp as nat, il, (p + 1) as nat) == off + ph * (lb + 1));
        }
        let len: usize = ph * (lb + 1);
        let part = slice_range(data, off, off + len);
        let img = match unfilter_image(part.as_slice(), lb, ph, bytewidth) {
            Ok(v) => v,
            Err(e) => {
                proof {
                    assert(decoded_sub(data@, w as nat, h as nat, bpp as nat, il, p as int) is None);
                }
                return Err(e);
            },
        };
        proof {
            lemma_unfilter_rows_len(part@, lb as nat, bytewidth as int, ph as nat);
        }
        subs.push(img);
        off = off + len;
        p = p + 1;
    }
    let v = deinterlace(&subs, w, h, bpp, il);
    proof {
        assert(subs@.map_values(|x: Vec<u8>| x@) =~= decoded_subs(data@, w as nat, h as nat, bpp as nat, il));
        assert forall|q: int| 0 <= q < n_subs(il) implies (#[trigger] decoded_sub(data@, w as nat, h as nat, bpp as nat, il, q)) is Some by {
            assert(decoded_sub(data@, w as nat, h as nat, bpp as nat, il, q) == Some(subs@[q]@));
        }
    }
    Ok(v)
}

} // verus!
