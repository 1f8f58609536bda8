//! The Adam7 interlace schedule, and the passage between a densely packed
//! raster and the padded sub-images that the scanline stream carries.
//!
//! A non-interlaced image has one sub-image, the whole raster; an interlaced
//! one has seven, one per Adam7 pass.

use vstd::prelude::*;

use vstd::arithmetic::div_mod::{
    lemma_fundamental_div_mod, lemma_fundamental_div_mod_converse, lemma_multiply_divide_lt,
};

use crate::bitstream::{get_bit, lemma_bytes_from_bits, read_bit, set_bit};

verus! {

/// The number of sub-images.
pub open spec fn n_subs(il: bool) -> nat {
    if il {
        7
    } else {
        1
    }
}

/// Column of the first pixel of sub-image `p`.
pub open spec fn sub_ix(il: bool, p: int) -> nat {
    if !il {
        0
    } else if p == 1 {
        4
    } else if p == 3 {
        2
    } else if p == 5 {
        1
    } else {
        0
    }
}

/// Row of the first pixel of sub-image `p`.
pub open spec fn sub_iy(il: bool, p: int) -> nat {
    if !il {
        0
    } else if p == 2 {
        4
    } else if p == 4 {
        2
    } else if p == 6 {
        1
    } else {
        0
    }
}

/// Column stride of sub-image `p`.
pub open spec fn sub_dx(il: bool, p: int) -> nat {
    if !il {
        1
    } else if p <= 1 {
        8
    } else if p <= 3 {
        4
    } else if p <= 5 {
        2
    } else {
        1
    }
}

/// Row stride of sub-image `p`.
pub open spec fn sub_dy(il: bool, p: int) -> nat {
    if !il {
        1
    } else if p <= 2 {
        8
    } else if p <= 4 {
        4
    } else {
        2
    }
}

/// `floor((n + d - i - 1) / d)`: the number of positions `i + t * d` below `n`.
pub open spec fn count_from(n: nat, i: nat, d: nat) -> nat {
    if n + d < i + 1 {
        0
    } else {
        ((n + d - i - 1) as nat / d) as nat
    }
}

/// Width of sub-image `p`; a pass that is empty in either direction is
/// empty in both.
pub open spec fn sub_w(w: nat, h: nat, il: bool, p: int) -> nat {
    let pw = count_from(w, sub_ix(il, p), sub_dx(il, p));
    let ph = count_from(h, sub_iy(il, p), sub_dy(il, p));
    if pw == 0 || ph == 0 {
        0
    } else {
        pw
    }
}

/// Height of sub-image `p`.
pub open spec fn sub_h(w: nat, h: nat, il: bool, p: int) -> nat {
    let pw = count_from(w, sub_ix(il, p), sub_dx(il, p));
    let ph = count_from(h, sub_iy(il, p), sub_dy(il, p));
    if pw == 0 || ph == 0 {
        0
    } else {
        ph
    }
}

/// Bytes in a line of `w` pixels of `bpp` bits.
pub open spec fn row_bytes(w: nat, bpp: nat) -> nat {
    (w * bpp + 7) / 8
}

/// The Adam7 pass (0-based) that pixel `(x, y)` belongs to.
pub open spec fn pass_of(x: nat, y: nat) -> nat {
    if y % 2 == 1 {
        6
    } else if x % 2 == 1 {
        5
    } else if y % 4 == 2 {
        4
    } else if x % 4 == 2 {
        3
    } else if y % 8 == 4 {
        2
    } else if x % 8 == 4 {
        1
    } else {
        0
    }
}

/// The sub-image that pixel `(x, y)` belongs to.
pub open spec fn sub_of(il: bool, x: nat, y: nat) -> nat {
    if il {
        pass_of(x, y)
    } else {
        0
    }
}

/// Bit `k` of pixel `(x, y)` in a densely packed raster of width `w`.
pub open spec fn raster_bit_index(w: nat, bpp: nat, x: nat, y: nat, k: nat) -> int {
    ((y * w + x) * bpp + k) as int
}

/// Bit `k` of pixel `(x, y)` in a padded sub-image with lines of `lb` bytes.
pub open spec fn sub_bit_index(lb: nat, bpp: nat, x: nat, y: nat, k: nat) -> int {
    (y * (lb * 8) + x * bpp + k) as int
}

/// `img` is sub-image `p` of the raster `r`: its pixels are those of `r` at
/// `(ix + x * dx, iy + y * dy)`, and the padding bits that end each line are
/// zero.
pub open spec fn is_sub_image(
    img: Seq<u8>,
    r: Seq<u8>,
    w: nat,
    h: nat,
    bpp: nat,
    il: bool,
    p: int,
) -> bool {
    let pw = sub_w(w, h, il, p);
    let ph = sub_h(w, h, il, p);
    let lb = row_bytes(pw, bpp);
    &&& img.len() == ph * lb
    &&& forall|x: nat, y: nat, k: nat|
        x < pw && y < ph && k < bpp ==> #[trigger] get_bit(img, sub_bit_index(lb, bpp, x, y, k))
            == get_bit(
            r,
            raster_bit_index(
                w,
                bpp,
                sub_ix(il, p) + x * sub_dx(il, p),
                sub_iy(il, p) + y * sub_dy(il, p),
                k,
            ),
        )
    &&& forall|y: nat, b: nat|
        y < ph && pw * bpp <= b < lb * 8 ==> #[trigger] get_bit(img, (y * (lb * 8) + b) as int)
            == 0
}

/// `r` is the raster that the sub-images `subs` make up: each pixel comes from
/// the sub-image it belongs to, and the bits after the last pixel are zero.
pub open spec fn is_raster_of(
    r: Seq<u8>,
    subs: Seq<Seq<u8>>,
    w: nat,
    h: nat,
    bpp: nat,
    il: bool,
) -> bool {
    &&& r.len() == row_bytes(w * h, bpp)
    &&& forall|x: nat, y: nat, k: nat|
        x < w && y < h && k < bpp ==> #[trigger] get_bit(r, raster_bit_index(w, bpp, x, y, k))
            == get_bit(
            subs[sub_of(il, x, y) as int],
            sub_bit_index(
                row_bytes(sub_w(w, h, il, sub_of(il, x, y) as int), bpp),
                bpp,
                ((x - sub_ix(il, sub_of(il, x, y) as int)) / (sub_dx(il, sub_of(il, x, y) as int) as int)) as nat,
                ((y - sub_iy(il, sub_of(il, x, y) as int)) / (sub_dy(il, sub_of(il, x, y) as int) as int)) as nat,
                k,
            ),
        )
    &&& forall|b: int| w * h * bpp <= b < r.len() * 8 ==> #[trigger] get_bit(r, b) == 0
}

/// A pixel's offsets from the first pixel of its pass are multiples of the
/// pass's strides.
proof fn lemma_pass_grid(x: nat, y: nat)
    ensures
        ({
            let p = pass_of(x, y) as int;
            &&& p < 7
            &&& sub_ix(true, p) <= x
            &&& sub_iy(true, p) <= y
            &&& (x - sub_ix(true, p)) % (sub_dx(true, p) as int) == 0
            &&& (y - sub_iy(true, p)) % (sub_dy(true, p) as int) == 0
        }),
{
    let p = pass_of(x, y) as int;
    if y % 2 == 1 {
        assert(p == 6);
        assert((y - 1) % 2 == 0);
    } else if x % 2 == 1 {
        assert(p == 5);
        assert((x - 1) % 2 == 0);
    } else if y % 4 == 2 {
        assert(p == 4);
        assert((y - 2) % 4 == 0);
        assert(x % 2 == 0);
    } else if x % 4 == 2 {
        assert(p == 3);
        assert((x - 2) % 4 == 0);
        assert(y % 4 == 0);
    } else if y % 8 == 4 {
        assert(p == 2);
        assert((y - 4) % 8 == 0);
        assert(x % 4 == 0);
    } else if x % 8 == 4 {
        assert(p == 1);
        assert((x - 4) % 8 == 0);
        assert(y % 8 == 0);
    } else {
        assert(p == 0);
        assert(x % 8 == 0);
        assert(y % 8 == 0);
    }
}

/// A position `x` below `n` on the grid `i + t * d` is at `t = (x - i) / d`,
/// and `t` is below the grid's count.
proof fn lemma_axis(x: nat, n: nat, i: nat, d: nat)
    requires
        i <= x < n,
        d >= 1,
        (x - i) % (d as int) == 0,
    ensures
        i + ((x - i) / (d as int)) * d == x,
        (x - i) / (d as int) < count_from(n, i, d),
{
    let t = (x - i) / (d as int);
    lemma_fundamental_div_mod(x - i, d as int);
    assert(t * d == d * t) by (nonlinear_arith);
    let m = (n + d - i - 1) as int;
    assert(m == (x - i) + (n - 1 - x) + d);
    lemma_fundamental_div_mod(m, d as int);
    assert(t * d + d <= m) by (nonlinear_arith)
        requires t * d == x - i, x < n, m == (n + d - i - 1);
    assert(t < m / (d as int)) by (nonlinear_arith)
        requires t * d + d <= m, d >= 1, m == d * (m / (d as int)) + m % (d as int), 0 <= m % (d as int) < d;
}

/// A pixel lies on the grid of the sub-image it belongs to, inside it.
pub proof fn lemma_sub_of(w: nat, h: nat, il: bool, x: nat, y: nat)
    requires
        x < w,
        y < h,
    ensures
        ({
            let p = sub_of(il, x, y) as int;
            let ix = sub_ix(il, p);
            let iy = sub_iy(il, p);
            let dx = sub_dx(il, p);
            let dy = sub_dy(il, p);
            &&& p < n_subs(il)
            &&& ix <= x
            &&& iy <= y
            &&& dx >= 1
            &&& dy >= 1
            &&& ix + ((x - ix) / (dx as int)) * dx == x
            &&& iy + ((y - iy) / (dy as int)) * dy == y
            &&& (x - ix) / (dx as int) < sub_w(w, h, il, p)
            &&& (y - iy) / (dy as int) < sub_h(w, h, il, p)
        }),
{
    let p = sub_of(il, x, y) as int;
    if il {
        lemma_pass_grid(x, y);
    }
    let ix = sub_ix(il, p);
    let iy = sub_iy(il, p);
    let dx = sub_dx(il, p);
    let dy = sub_dy(il, p);
    lemma_axis(x, w, ix, dx);
    lemma_axis(y, h, iy, dy);
}

/// A bit before the end of a raster's pixels is bit `k` of some pixel.
pub proof fn lemma_raster_bit_split(w: nat, h: nat, bpp: nat, j: int)
    requires
        bpp >= 1,
        w >= 1,
        0 <= j < w * h * bpp,
    ensures
        ({
            let k = (j % (bpp as int)) as nat;
            let q = j / (bpp as int);
            let x = (q % (w as int)) as nat;
            let y = (q / (w as int)) as nat;
            &&& x < w && y < h && k < bpp
            &&& j == raster_bit_index(w, bpp, x, y, k)
        }),
{
    let q = j / (bpp as int);
    lemma_fundamental_div_mod(j, bpp as int);
    lemma_fundamental_div_mod(q, w as int);
    assert(j < bpp * (w * h)) by (nonlinear_arith)
        requires j < w * h * bpp;
    lemma_multiply_divide_lt(j, bpp as int, (w * h) as int);
    assert(q < w * h);
    assert(0 <= q) by (nonlinear_arith)
        requires q == j / (bpp as int), j >= 0, bpp >= 1;
    lemma_multiply_divide_lt(q, w as int, h as int);
    assert(q * bpp == bpp * q) by (nonlinear_arith);
    assert((q / (w as int)) * w == w * (q / (w as int))) by (nonlinear_arith);
}

/// Splitting a raster into its sub-images and putting them back together
/// gives back the raster, for every width, height, pixel size and schedule.
pub proof fn lemma_deinterlace_interlace(
    r: Seq<u8>,
    subs: Seq<Seq<u8>>,
    r2: Seq<u8>,
    w: nat,
    h: nat,
    bpp: nat,
    il: bool,
)
    requires
        w >= 1,
        h >= 1,
        bpp >= 1,
        r.len() == row_bytes(w * h, bpp),
        forall|b: int| w * h * bpp <= b < r.len() * 8 ==> #[trigger] get_bit(r, b) == 0,
        subs.len() == n_subs(il),
        forall|p: int| 0 <= p < n_subs(il) ==> is_sub_image(#[trigger] subs[p], r, w, h, bpp, il, p),
        is_raster_of(r2, subs, w, h, bpp, il),
    ensures
        r2 == r,
{
    assert forall|j: int| 0 <= j < 8 * r2.len() implies #[trigger] get_bit(r2, j) == get_bit(r, j) by {
        if j < w * h * bpp {
            lemma_raster_bit_split(w, h, bpp, j);
            let k = (j % (bpp as int)) as nat;
            let q = j / (bpp as int);
            let x = (q % (w as int)) as nat;
            let y = (q / (w as int)) as nat;
            lemma_sub_of(w, h, il, x, y);
            let p = sub_of(il, x, y) as int;
            let qx = ((x - sub_ix(il, p)) / (sub_dx(il, p) as int)) as nat;
            let qy = ((y - sub_iy(il, p)) / (sub_dy(il, p) as int)) as nat;
            assert(is_sub_image(subs[p], r, w, h, bpp, il, p));
            let lb = row_bytes(sub_w(w, h, il, p), bpp);
            assert(get_bit(r2, raster_bit_index(w, bpp, x, y, k)) == get_bit(subs[p], sub_bit_index(lb, bpp, qx, qy, k)));
            assert(get_bit(subs[p], sub_bit_index(lb, bpp, qx, qy, k)) == get_bit(
                r,
                raster_bit_index(w, bpp, sub_ix(il, p) + qx * sub_dx(il, p), sub_iy(il, p) + qy * sub_dy(il, p), k),
            ));
        }
    }
    lemma_bytes_from_bits(r2, r);
}

/// Sizes small enough that every bit index of the raster, of its
/// sub-images and of its scanline stream fits in a `usize`.
pub open spec fn dims_fit(w: nat, h: nat, bpp: nat) -> bool {
    (w * bpp + 8) * (h + 8) * 16 <= usize::MAX
}

/// Bit `j` of sub-image `p` of raster `r`, line by line.
pub open spec fn sub_bit_value(r: Seq<u8>, w: nat, h: nat, bpp: nat, il: bool, p: int, j: int) -> u8 {
    let pw = sub_w(w, h, il, p);
    let lb8 = (row_bytes(pw, bpp) * 8) as int;
    let y = j / lb8;
    let b = j % lb8;
    if b < pw * bpp {
        get_bit(
            r,
            raster_bit_index(
                w,
                bpp,
                sub_ix(il, p) + ((b / (bpp as int)) as nat) * sub_dx(il, p),
                sub_iy(il, p) + (y as nat) * sub_dy(il, p),
                (b % (bpp as int)) as nat,
            ),
        )
    } else {
        0
    }
}

/// `i + x * d` stays below `n` for `x` below `count_from(n, i, d)`.
pub proof fn lemma_count_from(n: nat, i: nat, d: nat, x: nat)
    requires
        d >= 1,
        x < count_from(n, i, d),
    ensures
        i + x * d < n,
{
    let m = (n + d - i - 1) as int;
    let c = m / (d as int);
    lemma_fundamental_div_mod(m, d as int);
    assert(x * d <= (c - 1) * d) by (nonlinear_arith)
        requires x <= c - 1, d >= 1;
    assert((c - 1) * d == d * c - d) by (nonlinear_arith);
}

/// A pixel of sub-image `p` lies inside the raster.
pub proof fn lemma_sub_in_bounds(w: nat, h: nat, il: bool, p: int, x: nat, y: nat)
    requires
        0 <= p < n_subs(il),
        x < sub_w(w, h, il, p),
        y < sub_h(w, h, il, p),
    ensures
        sub_ix(il, p) + x * sub_dx(il, p) < w,
        sub_iy(il, p) + y * sub_dy(il, p) < h,
        sub_w(w, h, il, p) <= w,
        sub_h(w, h, il, p) <= h,
{
    lemma_count_from(w, sub_ix(il, p), sub_dx(il, p), x);
    lemma_count_from(h, sub_iy(il, p), sub_dy(il, p), y);
    let pw = sub_w(w, h, il, p);
    let ph = sub_h(w, h, il, p);
    lemma_count_from(w, sub_ix(il, p), sub_dx(il, p), (pw - 1) as nat);
    lemma_count_from(h, sub_iy(il, p), sub_dy(il, p), (ph - 1) as nat);
    assert(((pw - 1) as nat) * sub_dx(il, p) >= pw - 1) by (nonlinear_arith)
        requires sub_dx(il, p) >= 1, pw >= 1;
    assert(((ph - 1) as nat) * sub_dy(il, p) >= ph - 1) by (nonlinear_arith)
        requires sub_dy(il, p) >= 1, ph >= 1;
}

/// Bit `k` of pixel `(x, y)` in a raster of width `w` lies below `w * h * bpp`.
pub proof fn lemma_raster_index_bound(w: nat, h: nat, bpp: nat, x: nat, y: nat, k: nat)
    requires
        x < w,
        y < h,
        k < bpp,
    ensures
        raster_bit_index(w, bpp, x, y, k) < w * h * bpp,
        0 <= raster_bit_index(w, bpp, x, y, k),
{
    assert(y * w + x < w * h) by (nonlinear_arith)
        requires x < w, y < h;
    assert((y * w + x) * bpp + k < w * h * bpp) by (nonlinear_arith)
        requires y * w + x < w * h, k < bpp;
}

/// `(x * d + k) / d == x` and `(x * d + k) % d == k` for `k < d`.
pub proof fn lemma_div_mod_parts(x: int, d: int, k: int)
    requires
        d >= 1,
        0 <= k < d,
    ensures
        (x * d + k) / d == x,
        (x * d + k) % d == k,
{
    lemma_fundamental_div_mod_converse(x * d + k, d, x, k);
}

proof fn lemma_zero_byte_bits(k: u8)
    ensures
        crate::bitstream::byte_bit(0, k) == 0,
{
    assert((0u8 >> ((7 - k) as u8)) & 1 == 0) by (bit_vector);
}

/// The byte whose bits, MSB first, are `b0` to `b7` (each 0 or 1).
pub open spec fn byte_of_bits(b0: u8, b1: u8, b2: u8, b3: u8, b4: u8, b5: u8, b6: u8, b7: u8) -> u8 {
    ((b0 << 7u8) | (b1 << 6u8) | (b2 << 5u8) | (b3 << 4u8) | (b4 << 3u8) | (b5 << 2u8) | (b6 << 1u8) | b7) as u8
}

proof fn lemma_byte_of_bits(b0: u8, b1: u8, b2: u8, b3: u8, b4: u8, b5: u8, b6: u8, b7: u8)
    requires
        b0 <= 1, b1 <= 1, b2 <= 1, b3 <= 1, b4 <= 1, b5 <= 1, b6 <= 1, b7 <= 1,
    ensures
        ({
            let v = byte_of_bits(b0, b1, b2, b3, b4, b5, b6, b7);
            &&& crate::bitstream::byte_bit(v, 0) == b0
            &&& crate::bitstream::byte_bit(v, 1) == b1
            &&& crate::bitstream::byte_bit(v, 2) == b2
            &&& crate::bitstream::byte_bit(v, 3) == b3
            &&& crate::bitstream::byte_bit(v, 4) == b4
            &&& crate::bitstream::byte_bit(v, 5) == b5
            &&& crate::bitstream::byte_bit(v, 6) == b6
            &&& crate::bitstream::byte_bit(v, 7) == b7
        }),
{
    let v = byte_of_bits(b0, b1, b2, b3, b4, b5, b6, b7);
    assert(b0 <= 1 && b1 <= 1 && b2 <= 1 && b3 <= 1 && b4 <= 1 && b5 <= 1 && b6 <= 1 && b7 <= 1 ==> ({
        let v = ((b0 << 7u8) | (b1 << 6u8) | (b2 << 5u8) | (b3 << 4u8) | (b4 << 3u8) | (b5 << 2u8) | (b6 << 1u8) | b7) as u8;
        &&& (v >> 7u8) & 1 == b0
        &&& (v >> 6u8) & 1 == b1
        &&& (v >> 5u8) & 1 == b2
        &&& (v >> 4u8) & 1 == b3
        &&& (v >> 3u8) & 1 == b4
        &&& (v >> 2u8) & 1 == b5
        &&& (v >> 1u8) & 1 == b6
        &&& (v >> 0u8) & 1 == b7
    })) by (bit_vector);
}

/// The byte sequence of length `n` whose bit `j` is `f(j)` (each 0 or 1).
pub open spec fn bytes_of_bits(n: nat, f: spec_fn(int) -> u8) -> Seq<u8> {
    Seq::new(n, |i: int| byte_of_bits(f(8 * i), f(8 * i + 1), f(8 * i + 2), f(8 * i + 3), f(8 * i + 4), f(8 * i + 5), f(8 * i + 6), f(8 * i + 7)))
}

pub proof fn lemma_bytes_of_bits(n: nat, f: spec_fn(int) -> u8)
    requires
        forall|j: int| 0 <= j < 8 * n ==> #[trigger] f(j) <= 1,
    ensures
        bytes_of_bits(n, f).len() == n,
        forall|j: int| 0 <= j < 8 * n ==> #[trigger] get_bit(bytes_of_bits(n, f), j) == f(j),
{
    assert forall|j: int| 0 <= j < 8 * n implies #[trigger] get_bit(bytes_of_bits(n, f), j) == f(j) by {
        let i = j / 8;
        let k = j % 8;
        assert(f(8 * i) <= 1 && f(8 * i + 1) <= 1 && f(8 * i + 2) <= 1 && f(8 * i + 3) <= 1);
        assert(f(8 * i + 4) <= 1 && f(8 * i + 5) <= 1 && f(8 * i + 6) <= 1 && f(8 * i + 7) <= 1);
        lemma_byte_of_bits(f(8 * i), f(8 * i + 1), f(8 * i + 2), f(8 * i + 3), f(8 * i + 4), f(8 * i + 5), f(8 * i + 6), f(8 * i + 7));
        assert(j == 8 * i + k);
    }
}

/// Bits are 0 or 1.
pub proof fn lemma_get_bit_bound(s: Seq<u8>, j: int)
    ensures
        get_bit(s, j) <= 1,
{
    let b = s[j / 8];
    let k = (j % 8) as u8;
    assert((b >> ((7 - k) as u8)) & 1 <= 1) by (bit_vector);
}

/// The sub-image of a raster, as a sequence of bytes.
pub open spec fn sub_image(r: Seq<u8>, w: nat, h: nat, bpp: nat, il: bool, p: int) -> Seq<u8> {
    bytes_of_bits(
        sub_h(w, h, il, p) * row_bytes(sub_w(w, h, il, p), bpp),
        |j: int| sub_bit_value(r, w, h, bpp, il, p, j),
    )
}

/// Every bit of a sub-image is a pixel bit or a padding bit.
pub proof fn lemma_sub_bits(img: Seq<u8>, r: Seq<u8>, w: nat, h: nat, bpp: nat, il: bool, p: int)
    requires
        bpp >= 1,
        img.len() == sub_h(w, h, il, p) * row_bytes(sub_w(w, h, il, p), bpp),
        forall|j: int| 0 <= j < 8 * img.len() ==> #[trigger] get_bit(img, j) == sub_bit_value(r, w, h, bpp, il, p, j),
    ensures
        is_sub_image(img, r, w, h, bpp, il, p),
{
    let pw = sub_w(w, h, il, p);
    let ph = sub_h(w, h, il, p);
    let lb = row_bytes(pw, bpp);
    let lb8 = (lb * 8) as int;
    assert forall|x: nat, y: nat, k: nat| x < pw && y < ph && k < bpp implies #[trigger] get_bit(img, sub_bit_index(lb, bpp, x, y, k))
        == get_bit(r, raster_bit_index(w, bpp, sub_ix(il, p) + x * sub_dx(il, p), sub_iy(il, p) + y * sub_dy(il, p), k)) by {
        let b = x * bpp + k;
        assert(x * bpp + k < (x + 1) * bpp) by (nonlinear_arith)
            requires k < bpp;
        assert((x + 1) * bpp <= pw * bpp) by (nonlinear_arith)
            requires x + 1 <= pw;
        assert(pw * bpp <= lb8) by (nonlinear_arith)
            requires lb == (pw * bpp + 7) / 8, lb8 == lb * 8;
        lemma_div_mod_parts(y as int, lb8, b as int);
        lemma_div_mod_parts(x as int, bpp as int, k as int);
        assert(y * lb8 + b < ph * lb8) by (nonlinear_arith)
            requires y < ph, b < lb8;
        assert(ph * lb8 == 8 * img.len()) by (nonlinear_arith)
            requires img.len() == ph * lb, lb8 == lb * 8;
    }
    assert forall|y: nat, b: nat| y < ph && pw * bpp <= b < lb * 8 implies #[trigger] get_bit(img, (y * (lb * 8) + b) as int) == 0 by {
        lemma_div_mod_parts(y as int, lb8, b as int);
        assert(y * lb8 + b < ph * lb8) by (nonlinear_arith)
            requires y < ph, b < lb8;
        assert(ph * lb8 == 8 * img.len()) by (nonlinear_arith)
            requires img.len() == ph * lb, lb8 == lb * 8;
    }
}

/// A sub-image has exactly the bits `sub_bit_value` gives.
pub proof fn lemma_sub_image_bits(img: Seq<u8>, r: Seq<u8>, w: nat, h: nat, bpp: nat, il: bool, p: int)
    requires
        bpp >= 1,
        is_sub_image(img, r, w, h, bpp, il, p),
    ensures
        forall|j: int| 0 <= j < 8 * img.len() ==> #[trigger] get_bit(img, j) == sub_bit_value(r, w, h, bpp, il, p, j),
{
    let pw = sub_w(w, h, il, p);
    let ph = sub_h(w, h, il, p);
    let lb = row_bytes(pw, bpp);
    let lb8 = (lb * 8) as int;
    assert forall|j: int| 0 <= j < 8 * img.len() implies #[trigger] get_bit(img, j) == sub_bit_value(r, w, h, bpp, il, p, j) by {
        assert(lb8 > 0) by (nonlinear_arith)
            requires j < 8 * img.len(), img.len() == ph * lb, lb8 == lb * 8, j >= 0;
        let y = j / lb8;
        let b = j % lb8;
        lemma_fundamental_div_mod(j, lb8);
        assert(0 <= b < lb8);
        assert(0 <= y) by (nonlinear_arith)
            requires j >= 0, lb8 > 0, y == j / lb8;
        assert(y < ph) by (nonlinear_arith)
            requires j == lb8 * y + b, 0 <= b, j < 8 * img.len(), img.len() == ph * lb, lb8 == lb * 8;
        assert(j == y * lb8 + b) by (nonlinear_arith)
            requires j == lb8 * y + b;
        if b < pw * bpp {
            let x = b / (bpp as int);
            let k = b % (bpp as int);
            lemma_fundamental_div_mod(b, bpp as int);
            assert(0 <= x) by (nonlinear_arith)
                requires b >= 0, bpp >= 1, x == b / (bpp as int);
            assert(x < pw) by (nonlinear_arith)
                requires b == bpp * x + k, 0 <= k, b < pw * bpp, bpp >= 1;
            assert(b == x * bpp + k) by (nonlinear_arith)
                requires b == bpp * x + k;
            assert(get_bit(img, sub_bit_index(lb, bpp, x as nat, y as nat, k as nat)) == get_bit(
                r,
                raster_bit_index(w, bpp, sub_ix(il, p) + (x as nat) * sub_dx(il, p), sub_iy(il, p) + (y as nat) * sub_dy(il, p), k as nat),
            ));
        } else {
            assert(get_bit(img, ((y as nat) * (lb * 8) + (b as nat)) as int) == 0);
        }
    }
}

/// The sub-image that `sub_image` names is one, and the only one.
pub proof fn lemma_sub_image(img: Seq<u8>, r: Seq<u8>, w: nat, h: nat, bpp: nat, il: bool, p: int)
    requires
        bpp >= 1,
    ensures
        is_sub_image(sub_image(r, w, h, bpp, il, p), r, w, h, bpp, il, p),
        is_sub_image(img, r, w, h, bpp, il, p) ==> img == sub_image(r, w, h, bpp, il, p),
{
    let n = sub_h(w, h, il, p) * row_bytes(sub_w(w, h, il, p), bpp);
    let f = |j: int| sub_bit_value(r, w, h, bpp, il, p, j);
    assert forall|j: int| 0 <= j < 8 * n implies #[trigger] f(j) <= 1 by {
        let pw = sub_w(w, h, il, p);
        let lb8 = (row_bytes(pw, bpp) * 8) as int;
        let b = j % lb8;
        if b < pw * bpp {
            lemma_get_bit_bound(r, raster_bit_index(w, bpp, sub_ix(il, p) + ((b / (bpp as int)) as nat) * sub_dx(il, p), sub_iy(il, p) + ((j / lb8) as nat) * sub_dy(il, p), (b % (bpp as int)) as nat));
        }
    }
    lemma_bytes_of_bits(n, f);
    let s = sub_image(r, w, h, bpp, il, p);
    lemma_sub_bits(s, r, w, h, bpp, il, p);
    if is_sub_image(img, r, w, h, bpp, il, p) {
        lemma_sub_image_bits(img, r, w, h, bpp, il, p);
        lemma_bytes_from_bits(img, s);
    }
}

/// Sub-image `p` of a raster.
pub fn interlace_sub(r: &[u8], w: usize, h: usize, bpp: usize, il: bool, p: usize) -> (img: Vec<u8>)
    requires
        w >= 1,
        h >= 1,
        bpp >= 1,
        p < n_subs(il),
        dims_fit(w as nat, h as nat, bpp as nat),
        r@.len() == row_bytes((w * h) as nat, bpp as nat),
    ensures
        is_sub_image(img@, r@, w as nat, h as nat, bpp as nat, il, p as int),
        img@ == sub_image(r@, w as nat, h as nat, bpp as nat, il, p as int),
{
    let (ix, iy, dx, dy) = sub_geometry(il, p);
    proof {
        assert((w * bpp + 8) * (h + 8) * 16 >= w + 8 && (w * bpp + 8) * (h + 8) * 16 >= h + 8) by (nonlinear_arith)
            requires bpp >= 1;
    }
    let (pw, ph) = sub_size(w, h, il, p);
    proof {
        if pw > 0 {
            lemma_sub_in_bounds(w as nat, h as nat, il, p as int, 0, 0);
        }
        assert(pw * bpp + 7 <= w * bpp + 7) by (nonlinear_arith)
            requires pw <= w;
        assert((w * bpp + 8) * (h + 8) * 16 >= w * bpp + 8) by (nonlinear_arith);
    }
    let lb8: usize = (pw * bpp + 7) / 8 * 8;
    let ghost lb = row_bytes(pw as nat, bpp as nat);
    proof {
        assert(lb8 <= w * bpp + 8);
        assert(ph * lb8 <= (w * bpp + 8) * (h + 8)) by (nonlinear_arith)
            requires ph <= h, lb8 <= w * bpp + 8;
        assert(ph * lb8 == (ph * lb) * 8) by (nonlinear_arith)
            requires lb8 == lb * 8;
    }
    let total: usize = ph * lb8;
    let mut img: Vec<u8> = vec![0u8; total / 8];
    let mut y: usize = 0;
    while y < ph
        invariant
            ix == sub_ix(il, p as int),
            iy == sub_iy(il, p as int),
            dx == sub_dx(il, p as int),
            dy == sub_dy(il, p as int),
            pw == sub_w(w as nat, h as nat, il, p as int),
            ph == sub_h(w as nat, h as nat, il, p as int),
            lb8 == lb * 8,
            lb == row_bytes(pw as nat, bpp as nat),
            total == ph * lb8,
            img@.len() == ph * lb,
            y <= ph,
            pw <= w, ph <= h,
            pw * bpp <= lb8,
            w >= 1, h >= 1, bpp >= 1, p < n_subs(il),
            dims_fit(w as nat, h as nat, bpp as nat),
            r@.len() == row_bytes((w * h) as nat, bpp as nat),
            forall|j: int| 0 <= j < y * lb8 ==> #[trigger] get_bit(img@, j) == sub_bit_value(r@, w as nat, h as nat, bpp as nat, il, p as int, j),
        decreases ph - y,
    {
        let mut b: usize = 0;
        let mut x: usize = 0;
        let mut k: usize = 0;
        proof {
            assert(y * lb8 + lb8 <= ph * lb8) by (nonlinear_arith)
                requires y < ph;
        }
        while b < lb8
            invariant
                ix == sub_ix(il, p as int),
                iy == sub_iy(il, p as int),
                dx == sub_dx(il, p as int),
                dy == sub_dy(il, p as int),
                pw == sub_w(w as nat, h as nat, il, p as int),
                ph == sub_h(w as nat, h as nat, il, p as int),
                lb8 == lb * 8,
                lb == row_bytes(pw as nat, bpp as nat),
                img@.len() == ph * lb,
                total == ph * lb8,
                y < ph,
                y * lb8 + lb8 <= ph * lb8,
                pw <= w, ph <= h,
                pw * bpp <= lb8,
                b <= lb8,
                b == x * bpp + k,
                k < bpp,
                w >= 1, h >= 1, bpp >= 1, p < n_subs(il),
                dims_fit(w as nat, h as nat, bpp as nat),
                r@.len() == row_bytes((w * h) as nat, bpp as nat),
                forall|j: int| 0 <= j < y * lb8 + b ==> #[trigger] get_bit(img@, j) == sub_bit_value(r@, w as nat, h as nat, bpp as nat, il, p as int, j),
            decreases lb8 - b,
        {
            let j: usize = y * lb8 + b;
            proof {
                lemma_div_mod_parts(y as int, lb8 as int, b as int);
                lemma_div_mod_parts(x as int, bpp as int, k as int);
                assert(j == y * lb8 + b);
                assert(y * lb8 == lb8 * y) by (nonlinear_arith);
            }
            let v: u8 = if b < pw * bpp {
                proof {
                    assert(x < pw) by (nonlinear_arith)
                        requires b == x * bpp + k, b < pw * bpp, k < bpp, bpp >= 1;
                    lemma_sub_in_bounds(w as nat, h as nat, il, p as int, x as nat, y as nat);
                    lemma_raster_index_bound(w as nat, h as nat, bpp as nat, (ix + x * dx) as nat, (iy + y * dy) as nat, k as nat);
                    assert(w * h * bpp <= (w * bpp + 8) * (h + 8)) by (nonlinear_arith);
                    assert(((iy + y * dy) * w + ix + x * dx) * bpp + k < w * h * bpp);
                    assert(row_bytes((w * h) as nat, bpp as nat) * 8 >= w * h * bpp);
                }
                let yy: usize = iy + y * dy;
                let xx: usize = ix + x * dx;
                proof {
                    assert(yy * w + xx < w * h) by (nonlinear_arith)
                        requires yy < h, xx < w;
                    assert((yy * w + xx) * bpp + k < w * h * bpp) by (nonlinear_arith)
                        requires yy * w + xx < w * h, k < bpp;
                    assert(w * h <= w * h * bpp) by (nonlinear_arith)
                        requires bpp >= 1;
                    assert(w * h * bpp <= (w * bpp + 8) * (h + 8) * 16) by (nonlinear_arith);
                }
                let q: usize = yy * w + xx;
                let src: usize = q * bpp + k;
                read_bit(r, src)
            } else {
                0
            };
            proof {
                assert(j / 8 < img@.len()) by (nonlinear_arith)
                    requires j < y * lb8 + lb8, y * lb8 + lb8 <= ph * lb8, lb8 == lb * 8, img@.len() == ph * lb;
            }
            set_bit(&mut img, j, v);
            let ghost (b0, x0, k0) = (b, x, k);
            b = b + 1;
            k = k + 1;
            if k == bpp {
                k = 0;
                x = x + 1;
            }
            proof {
                assert(b == x * bpp + k) by (nonlinear_arith)
                    requires b == b0 + 1, (k == k0 + 1 && x == x0) || (k == 0 && k0 + 1 == bpp && x == x0 + 1), b0 == x0 * bpp + k0;
            }
        }
        proof {
            assert((y + 1) * lb8 == y * lb8 + lb8) by (nonlinear_arith);
        }
        y = y + 1;
    }
    proof {
        let pwn = pw as nat;
        let phn = ph as nat;
        assert forall|xx: nat, yy: nat, kk: nat| xx < pwn && yy < phn && kk < bpp implies #[trigger] get_bit(img@, sub_bit_index(lb, bpp as nat, xx, yy, kk))
            == get_bit(r@, raster_bit_index(w as nat, bpp as nat, (ix + xx * dx) as nat, (iy + yy * dy) as nat, kk)) by {
            let bb = xx * bpp + kk;
            assert(xx * bpp + kk < (xx + 1) * bpp) by (nonlinear_arith)
                requires kk < bpp;
            assert((xx + 1) * bpp <= pw * bpp) by (nonlinear_arith)
                requires xx + 1 <= pw;
            lemma_div_mod_parts(yy as int, lb8 as int, bb as int);
            lemma_div_mod_parts(xx as int, bpp as int, kk as int);
            assert(sub_bit_index(lb, bpp as nat, xx, yy, kk) == yy * lb8 + bb);
            assert(yy * lb8 + bb < ph * lb8) by (nonlinear_arith)
                requires yy < ph, bb < lb8;
        }
        assert forall|yy: nat, bb: nat| yy < phn && pwn * bpp <= bb < lb * 8 implies #[trigger] get_bit(img@, (yy * (lb * 8) + bb) as int) == 0 by {
            lemma_div_mod_parts(yy as int, lb8 as int, bb as int);
            assert(yy * lb8 + bb < ph * lb8) by (nonlinear_arith)
                requires yy < ph, bb < lb8;
        }
        lemma_sub_image(img@, r@, w as nat, h as nat, bpp as nat, il, p as int);
    }
    img
}

/// Bit `j` of the raster that the sub-images `subs` make up.
pub open spec fn raster_bit_value(subs: Seq<Seq<u8>>, w: nat, h: nat, bpp: nat, il: bool, j: int) -> u8 {
    if j < w * h * bpp {
        let k = (j % (bpp as int)) as nat;
        let q = j / (bpp as int);
        let x = (q % (w as int)) as nat;
        let y = (q / (w as int)) as nat;
        let p = sub_of(il, x, y) as int;
        get_bit(
            subs[p],
            sub_bit_index(
                row_bytes(sub_w(w, h, il, p), bpp),
                bpp,
                ((x - sub_ix(il, p)) / (sub_dx(il, p) as int)) as nat,
                ((y - sub_iy(il, p)) / (sub_dy(il, p) as int)) as nat,
                k,
            ),
        )
    } else {
        0
    }
}

/// The sub-image of an interlaced image that pixel `(x, y)` belongs to.
pub fn pass_index(x: usize, y: usize) -> (p: usize)
    ensures
        p == pass_of(x as nat, y as nat),
{
    if y % 2 == 1 {
        6
    } else if x % 2 == 1 {
        5
    } else if y % 4 == 2 {
        4
    } else if x % 4 == 2 {
        3
    } else if y % 8 == 4 {
        2
    } else if x % 8 == 4 {
        1
    } else {
        0
    }
}

/// The raster that the sub-images `subs` make up.
pub fn deinterlace(subs: &Vec<Vec<u8>>, w: usize, h: usize, bpp: usize, il: bool) -> (r: Vec<u8>)
    requires
        w >= 1,
        h >= 1,
        bpp >= 1,
        dims_fit(w as nat, h as nat, bpp as nat),
        subs@.len() == n_subs(il),
        forall|p: int| 0 <= p < n_subs(il) ==> (#[trigger] subs@[p])@.len() == sub_h(w as nat, h as nat, il, p) * row_bytes(sub_w(w as nat, h as nat, il, p), bpp as nat),
    ensures
        is_raster_of(r@, subs@.map_values(|v: Vec<u8>| v@), w as nat, h as nat, bpp as nat, il),
{
    let ghost sv = subs@.map_values(|v: Vec<u8>| v@);
    proof {
        assert(w * h <= w * h * bpp) by (nonlinear_arith)
            requires bpp >= 1;
        assert(w * h * bpp <= (w * bpp + 8) * (h + 8) * 16) by (nonlinear_arith);
        assert((w * bpp + 8) * (h + 8) * 16 >= w + 8 && (w * bpp + 8) * (h + 8) * 16 >= h + 8) by (nonlinear_arith)
            requires bpp >= 1;
    }
    let n: usize = w * h * bpp;
    let mut r: Vec<u8> = vec![0u8; (n + 7) / 8];
    let mut j: usize = 0;
    let mut x: usize = 0;
    let mut y: usize = 0;
    let mut k: usize = 0;
    proof {
        assert(j == ((y * w + x) * bpp + k)) by (nonlinear_arith)
            requires j == 0, x == 0, y == 0, k == 0;
        assert forall|i: int| j <= i < 8 * r@.len() implies #[trigger] get_bit(r@, i) == 0 by {
            lemma_zero_byte_bits((i % 8) as u8);
        }
    }
    while j < n
        invariant
            n == w * h * bpp,
            r@.len() == (n + 7) / 8,
            j <= n,
            j < n ==> (x < w && y < h && k < bpp && j == ((y * w + x) * bpp + k)),
            w >= 1, h >= 1, bpp >= 1,
            dims_fit(w as nat, h as nat, bpp as nat),
            w + 8 <= usize::MAX, h + 8 <= usize::MAX,
            subs@.len() == n_subs(il),
            sv == subs@.map_values(|v: Vec<u8>| v@),
            forall|p: int| 0 <= p < n_subs(il) ==> (#[trigger] subs@[p])@.len() == sub_h(w as nat, h as nat, il, p) * row_bytes(sub_w(w as nat, h as nat, il, p), bpp as nat),
            forall|i: int| 0 <= i < j ==> #[trigger] get_bit(r@, i) == raster_bit_value(sv, w as nat, h as nat, bpp as nat, il, i),
            forall|i: int| j <= i < 8 * r@.len() ==> #[trigger] get_bit(r@, i) == 0,
        decreases n - j,
    {
        let p: usize = if il {
            pass_index(x, y)
        } else {
            0
        };
        proof {
            lemma_sub_of(w as nat, h as nat, il, x as nat, y as nat);
            lemma_div_mod_parts((y * w + x) as int, bpp as int, k as int);
            lemma_div_mod_parts(y as int, w as int, x as int);
        }
        let (ix, iy, dx, dy) = sub_geometry(il, p);
        let (pw, ph) = sub_size(w, h, il, p);
        let qx: usize = (x - ix) / dx;
        let qy: usize = (y - iy) / dy;
        let ghost lb = row_bytes(pw as nat, bpp as nat);
        proof {
            lemma_sub_in_bounds(w as nat, h as nat, il, p as int, qx as nat, qy as nat);
            assert(pw * bpp + 7 <= w * bpp + 7) by (nonlinear_arith)
                requires pw <= w;
            assert((w * bpp + 8) * (h + 8) * 16 >= w * bpp + 8) by (nonlinear_arith);
            assert(qy * (lb * 8) + qx * bpp + k < ph * (lb * 8)) by (nonlinear_arith)
                requires qy < ph, qx < pw, k < bpp, pw * bpp <= lb * 8;
            assert(ph * (lb * 8) <= (w * bpp + 8) * (h + 8)) by (nonlinear_arith)
                requires ph <= h, lb * 8 <= w * bpp + 8;
            assert(sv[p as int] == subs@[p as int]@);
        }
        let lb8: usize = (pw * bpp + 7) / 8 * 8;
        let src: usize = qy * lb8 + qx * bpp + k;
        proof {
            assert(src / 8 < ph * lb) by (nonlinear_arith)
                requires src < ph * (lb * 8);
        }
        let v = read_bit(subs[p].as_slice(), src);
        proof {
            assert(j / 8 < r@.len());
        }
        set_bit(&mut r, j, v);
        let ghost (j0, x0, y0, k0) = (j, x, y, k);
        j = j + 1;
        k = k + 1;
        if k == bpp {
            k = 0;
            x = x + 1;
            if x == w {
                x = 0;
                y = y + 1;
            }
        }
        proof {
            if j < n {
                if k0 + 1 < bpp {
                    assert(j == ((y * w + x) * bpp + k));
                } else if x0 + 1 < w {
                    assert(((y0 * w + x0) * bpp + k0) + 1 == (y0 * w + (x0 + 1)) * bpp) by (nonlinear_arith)
                        requires k0 + 1 == bpp;
                } else {
                    assert(((y0 * w + x0) * bpp + k0) + 1 == ((y0 + 1) * w + 0) * bpp) by (nonlinear_arith)
                        requires k0 + 1 == bpp, x0 + 1 == w;
                    assert(y < h) by (nonlinear_arith)
                        requires j == ((y0 + 1) * w) * bpp, j < w * h * bpp, y == y0 + 1, w >= 1, bpp >= 1;
                }
            }
        }
    }
    proof {
        assert forall|xx: nat, yy: nat, kk: nat| xx < w && yy < h && kk < bpp implies #[trigger] get_bit(r@, raster_bit_index(w as nat, bpp as nat, xx, yy, kk))
            == get_bit(
            sv[sub_of(il, xx, yy) as int],
            sub_bit_index(
                row_bytes(sub_w(w as nat, h as nat, il, sub_of(il, xx, yy) as int), bpp as nat),
                bpp as nat,
                ((xx - sub_ix(il, sub_of(il, xx, yy) as int)) / (sub_dx(il, sub_of(il, xx, yy) as int) as int)) as nat,
                ((yy - sub_iy(il, sub_of(il, xx, yy) as int)) / (sub_dy(il, sub_of(il, xx, yy) as int) as int)) as nat,
                kk,
            ),
        ) by {
            lemma_raster_index_bound(w as nat, h as nat, bpp as nat, xx, yy, kk);
            lemma_div_mod_parts((yy * w + xx) as int, bpp as int, kk as int);
            lemma_div_mod_parts(yy as int, w as int, xx as int);
        }
        assert forall|b: int| w * h * bpp <= b < r@.len() * 8 implies #[trigger] get_bit(r@, b) == 0 by {}
    }
    r
}

/// Column, row, column stride and row stride of sub-image `p`.
pub fn sub_geometry(il: bool, p: usize) -> (r: (usize, usize, usize, usize))
    requires
        p < n_subs(il),
    ensures
        r.0 == sub_ix(il, p as int),
        r.1 == sub_iy(il, p as int),
        r.2 == sub_dx(il, p as int),
        r.3 == sub_dy(il, p as int),
{
    if !il {
        (0, 0, 1, 1)
    } else {
        let ix: usize = if p == 1 {
            4
        } else if p == 3 {
            2
        } else if p == 5 {
            1
        } else {
            0
        };
        let iy: usize = if p == 2 {
            4
        } else if p == 4 {
            2
        } else if p == 6 {
            1
        } else {
            0
        };
        let dx: usize = if p <= 1 {
            8
        } else if p <= 3 {
            4
        } else if p <= 5 {
            2
        } else {
            1
        };
        let dy: usize = if p <= 2 {
            8
        } else if p <= 4 {
            4
        } else {
            2
        };
        (ix, iy, dx, dy)
    }
}

/// Width and height of sub-image `p`.
pub fn sub_size(w: usize, h: usize, il: bool, p: usize) -> (r: (usize, usize))
    requires
        p < n_subs(il),
        w <= usize::MAX - 8,
        h <= usize::MAX - 8,
    ensures
        r.0 == sub_w(w as nat, h as nat, il, p as int),
        r.1 == sub_h(w as nat, h as nat, il, p as int),
{
    let (ix, iy, dx, dy) = sub_geometry(il, p);
    let pw: usize = if w + dx < ix + 1 {
        0
    } else {
        (w + dx - ix - 1) / dx
    };
    let ph: usize = if h + dy < iy + 1 {
        0
    } else {
        (h + dy - iy - 1) / dy
    };
    if pw == 0 || ph == 0 {
        (0, 0)
    } else {
        (pw, ph)
    }
}

} // verus!
