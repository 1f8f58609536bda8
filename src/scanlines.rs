//! The scanline stream of one sub-image: each line is a filter-type byte
//! followed by the line filtered with that type.

use vstd::prelude::*;

use crate::error::DecodeError;
use crate::filter::{
    filter_line, filter_scanline, lemma_unfilter_filter, prev_fits, prev_view, unfilter_line,
    unfilter_scanline, FilterStrategy,
};
use crate::zlib::{deflate, deflate_of, push_all, slice_range};

verus! {

/// Line `y` of an image with lines of `lb` bytes.
pub open spec fn row(img: Seq<u8>, lb: nat, y: nat) -> Seq<u8> {
    img.subrange((y * lb) as int, (y * lb + lb) as int)
}

/// The line above line `y`, or none on the first line.
pub open spec fn prev_row(img: Seq<u8>, lb: nat, y: nat) -> Option<Seq<u8>> {
    if y == 0 {
        None
    } else {
        Some(row(img, lb, (y - 1) as nat))
    }
}

/// The first `n` lines of an image, each filtered with the type `types[y]`
/// and prefixed by that type.
pub open spec fn filter_rows(img: Seq<u8>, lb: nat, s: int, types: Seq<u8>, n: nat) -> Seq<u8>
    decreases n,
{
    if n == 0 {
        Seq::empty()
    } else {
        let y = (n - 1) as nat;
        filter_rows(img, lb, s, types, y).push(types[y as int]) + filter_line(
            types[y as int],
            row(img, lb, y),
            prev_row(img, lb, y),
            s,
        )
    }
}

/// The first `n` lines reconstructed from a scanline stream with lines of
/// `lb` bytes, or none where a filter type is above 4.
pub open spec fn unfilter_rows(data: Seq<u8>, lb: nat, s: int, n: nat) -> Option<Seq<u8>>
    decreases n,
{
    if n == 0 {
        Some(Seq::empty())
    } else {
        let y = (n - 1) as nat;
        match unfilter_rows(data, lb, s, y) {
            None => None,
            Some(done) => {
                let start = (y * (lb + 1)) as int;
                let ft = data[start];
                if ft > 4 {
                    None
                } else {
                    let prev = if y == 0 {
                        None
                    } else {
                        Some(row(done, lb, (y - 1) as nat))
                    };
                    Some(done + unfilter_line(ft, data.subrange(start + 1, start + 1 + lb), prev, s))
                }
            },
        }
    }
}

/// The signed magnitude of a filtered byte: `b` below 128, else `256 - b`.
pub open spec fn magnitude(b: u8) -> nat {
    if b < 128 {
        b as nat
    } else {
        (256 - b) as nat
    }
}

/// The sum of the signed magnitudes of a filtered line.
pub open spec fn minsum_score(f: Seq<u8>) -> nat
    decreases f.len(),
{
    if f.len() == 0 {
        0
    } else {
        minsum_score(f.drop_last()) + magnitude(f.last())
    }
}

/// How a strategy scores a filtered line; lower is better.
pub open spec fn line_score(strategy: FilterStrategy, f: Seq<u8>, level: u8) -> nat {
    match strategy {
        FilterStrategy::BruteForce => deflate_of(f, level).len(),
        _ => minsum_score(f),
    }
}

/// The best of filter types `0..n` for a line; ties go to the lower type.
pub open spec fn best_type(
    strategy: FilterStrategy,
    line: Seq<u8>,
    prev: Option<Seq<u8>>,
    s: int,
    level: u8,
    n: nat,
) -> u8
    decreases n,
{
    if n <= 1 {
        0
    } else {
        let b = best_type(strategy, line, prev, s, level, (n - 1) as nat);
        let t = (n - 1) as u8;
        if line_score(strategy, filter_line(t, line, prev, s), level) < line_score(
            strategy,
            filter_line(b, line, prev, s),
            level,
        ) {
            t
        } else {
            b
        }
    }
}

/// The filter type a strategy picks for a line.
pub open spec fn choose_type(
    strategy: FilterStrategy,
    line: Seq<u8>,
    prev: Option<Seq<u8>>,
    s: int,
    level: u8,
) -> u8 {
    if strategy == FilterStrategy::Zero {
        0
    } else {
        best_type(strategy, line, prev, s, level, 5)
    }
}

/// The filter types a strategy picks for the first `n` lines of an image.
pub open spec fn chosen_types(
    strategy: FilterStrategy,
    img: Seq<u8>,
    lb: nat,
    s: int,
    level: u8,
    n: nat,
) -> Seq<u8> {
    Seq::new(n, |y: int| choose_type(strategy, row(img, lb, y as nat), prev_row(img, lb, y as nat), s, level))
}

pub proof fn lemma_best_type_bound(
    strategy: FilterStrategy,
    line: Seq<u8>,
    prev: Option<Seq<u8>>,
    s: int,
    level: u8,
    n: nat,
)
    requires
        n >= 1,
    ensures
        best_type(strategy, line, prev, s, level, n) < n,
    decreases n,
{
    if n > 1 {
        lemma_best_type_bound(strategy, line, prev, s, level, (n - 1) as nat);
    }
}

pub proof fn lemma_filter_rows_len(img: Seq<u8>, lb: nat, s: int, types: Seq<u8>, n: nat)
    requires
        img.len() >= n * lb,
        types.len() >= n,
    ensures
        filter_rows(img, lb, s, types, n).len() == n * (lb + 1),
    decreases n,
{
    if n > 0 {
        let y = (n - 1) as nat;
        assert(y * lb + lb == n * lb) by (nonlinear_arith)
            requires y + 1 == n;
        assert(y * lb <= n * lb) by (nonlinear_arith)
            requires y + 1 == n;
        lemma_filter_rows_len(img, lb, s, types, y);
        assert(row(img, lb, y).len() == lb);
        let t = types[y as int];
        let fl = filter_line(t, row(img, lb, y), prev_row(img, lb, y), s);
        assert(fl.len() == lb);
        assert(filter_rows(img, lb, s, types, n) == filter_rows(img, lb, s, types, y).push(t) + fl);
        assert(y * (lb + 1) + 1 + lb == n * (lb + 1)) by (nonlinear_arith)
            requires y + 1 == n;
    } else {
        assert(n * (lb + 1) == 0) by (nonlinear_arith)
            requires n == 0;
    }
}

/// The first `n` lines reconstructed depend only on the first `n` lines of
/// the stream.
pub proof fn lemma_unfilter_rows_prefix(d1: Seq<u8>, d2: Seq<u8>, lb: nat, s: int, n: nat)
    requires
        d1.len() >= n * (lb + 1),
        d2.len() >= n * (lb + 1),
        d1.subrange(0, (n * (lb + 1)) as int) == d2.subrange(0, (n * (lb + 1)) as int),
    ensures
        unfilter_rows(d1, lb, s, n) == unfilter_rows(d2, lb, s, n),
    decreases n,
{
    if n > 0 {
        let y = (n - 1) as nat;
        assert(y * (lb + 1) + lb + 1 == n * (lb + 1)) by (nonlinear_arith)
            requires y + 1 == n;
        assert(y * (lb + 1) <= n * (lb + 1)) by (nonlinear_arith)
            requires y + 1 == n;
        assert(d1.subrange(0, (y * (lb + 1)) as int) =~= d1.subrange(0, (n * (lb + 1)) as int).subrange(0, (y * (lb + 1)) as int));
        assert(d2.subrange(0, (y * (lb + 1)) as int) =~= d2.subrange(0, (n * (lb + 1)) as int).subrange(0, (y * (lb + 1)) as int));
        lemma_unfilter_rows_prefix(d1, d2, lb, s, y);
        let start = (y * (lb + 1)) as int;
        assert(d1[start] == d1.subrange(0, (n * (lb + 1)) as int)[start]);
        assert(d2[start] == d2.subrange(0, (n * (lb + 1)) as int)[start]);
        assert(d1.subrange(start + 1, start + 1 + lb) =~= d1.subrange(0, (n * (lb + 1)) as int).subrange(start + 1, start + 1 + lb));
        assert(d2.subrange(start + 1, start + 1 + lb) =~= d2.subrange(0, (n * (lb + 1)) as int).subrange(start + 1, start + 1 + lb));
    }
}

/// Filtering the lines of an image with any types from 0 to 4, then
/// reconstructing them, gives back the image.
pub proof fn lemma_unfilter_rows_filter_rows(img: Seq<u8>, lb: nat, s: int, types: Seq<u8>, n: nat)
    requires
        s >= 1,
        img.len() >= n * lb,
        types.len() >= n,
        forall|y: int| 0 <= y < n ==> types[y] <= 4,
    ensures
        unfilter_rows(filter_rows(img, lb, s, types, n), lb, s, n) == Some(img.subrange(0, (n * lb) as int)),
    decreases n,
{
    if n > 0 {
        let y = (n - 1) as nat;
        let d = filter_rows(img, lb, s, types, n);
        let dy = filter_rows(img, lb, s, types, y);
        assert(y * lb <= n * lb) by (nonlinear_arith)
            requires y + 1 == n;
        assert(y * lb + lb == n * lb) by (nonlinear_arith)
            requires y + 1 == n;
        lemma_filter_rows_len(img, lb, s, types, y);
        lemma_filter_rows_len(img, lb, s, types, n);
        assert(y * (lb + 1) + lb + 1 == n * (lb + 1)) by (nonlinear_arith)
            requires y + 1 == n;
        lemma_unfilter_rows_filter_rows(img, lb, s, types, y);
        assert(d.subrange(0, (y * (lb + 1)) as int) =~= dy);
        assert(dy.subrange(0, (y * (lb + 1)) as int) =~= dy);
        lemma_unfilter_rows_prefix(d, dy, lb, s, y);
        let done = img.subrange(0, (y * lb) as int);
        let start = (y * (lb + 1)) as int;
        let t = types[y as int];
        let prev = prev_row(img, lb, y);
        assert(d[start] == t);
        let fl = filter_line(t, row(img, lb, y), prev, s);
        assert(d.subrange(start + 1, start + 1 + lb) =~= fl);
        if y > 0 {
            assert((y - 1) * lb + lb == y * lb) by (nonlinear_arith)
                requires y >= 1;
            assert(row(done, lb, (y - 1) as nat) =~= row(img, lb, (y - 1) as nat));
        }
        lemma_unfilter_filter(t, row(img, lb, y), prev, s);
        assert(unfilter_rows(dy, lb, s, y) == Some(done));
        assert(unfilter_rows(d, lb, s, y) == Some(done));
        let prev2 = if y == 0 {
            None
        } else {
            Some(row(done, lb, (y - 1) as nat))
        };
        assert(prev2 == prev);
        assert(unfilter_rows(d, lb, s, n) == Some(done + unfilter_line(t, d.subrange(start + 1, start + 1 + lb), prev2, s)));
        assert(done + row(img, lb, y) =~= img.subrange(0, (n * lb) as int));
    } else {
        assert(n * lb == 0) by (nonlinear_arith)
            requires n == 0;
        assert(img.subrange(0, 0) =~= Seq::<u8>::empty());
    }
}

/// Reconstructed lines have `lb` bytes each.
pub proof fn lemma_unfilter_rows_len(data: Seq<u8>, lb: nat, s: int, n: nat)
    requires
        data.len() >= n * (lb + 1),
        unfilter_rows(data, lb, s, n) is Some,
    ensures
        unfilter_rows(data, lb, s, n)->0.len() == n * lb,
    decreases n,
{
    if n > 0 {
        let y = (n - 1) as nat;
        assert(y * (lb + 1) + lb + 1 == n * (lb + 1)) by (nonlinear_arith)
            requires y + 1 == n;
        assert(y * lb + lb == n * lb) by (nonlinear_arith)
            requires y + 1 == n;
        lemma_unfilter_rows_len(data, lb, s, y);
        let start = (y * (lb + 1)) as int;
        let ft = data[start];
        let done = unfilter_rows(data, lb, s, y)->0;
        let prev = if y == 0 {
            None
        } else {
            Some(row(done, lb, (y - 1) as nat))
        };
        crate::filter::lemma_unfilter_line_len(ft, data.subrange(start + 1, start + 1 + lb), prev, s);
    } else {
        assert(n * lb == 0) by (nonlinear_arith)
            requires n == 0;
    }
}

/// Once a line fails to reconstruct, every longer prefix fails too.
proof fn lemma_unfilter_rows_none(data: Seq<u8>, lb: nat, s: int, n: nat, m: nat)
    requires
        n <= m,
        unfilter_rows(data, lb, s, n) is None,
    ensures
        unfilter_rows(data, lb, s, m) is None,
    decreases m,
{
    if m > n {
        lemma_unfilter_rows_none(data, lb, s, n, (m - 1) as nat);
    }
}

/// Line `y` of an image, copied.
fn copy_row(img: &Vec<u8>, lb: usize, y: usize) -> (r: Vec<u8>)
    requires
        (y + 1) * lb <= img@.len(),
    ensures
        r@ == row(img@, lb as nat, y as nat),
        r@.len() == lb,
{
    let _n = img.len();
    proof {
        assert((y + 1) * lb == y * lb + lb) by (nonlinear_arith);
        assert(y * lb <= (y + 1) * lb) by (nonlinear_arith);
    }
    slice_range(img.as_slice(), y * lb, y * lb + lb)
}

fn as_prev(prev: &Option<Vec<u8>>) -> (r: Option<&[u8]>)
    ensures
        prev_view(r) == match prev {
            Some(p) => Some(p@),
            None => None::<Seq<u8>>,
        },
{
    match prev {
        Some(p) => Some(p.as_slice()),
        None => None,
    }
}

/// A line filtered with type `ft`.
fn filtered(ft: u8, line: &Vec<u8>, prev: &Option<Vec<u8>>, bytewidth: usize) -> (r: Vec<u8>)
    requires
        bytewidth >= 1,
        prev_fits(
            match prev {
                Some(p) => Some(p@),
                None => None::<Seq<u8>>,
            },
            line@.len(),
        ),
    ensures
        r@ == filter_line(
            ft,
            line@,
            match prev {
                Some(p) => Some(p@),
                None => None::<Seq<u8>>,
            },
            bytewidth as int,
        ),
{
    let n = line.len();
    let mut out: Vec<u8> = vec![0u8; n];
    let pv = as_prev(prev);
    filter_scanline(&mut out, line.as_slice(), pv, n, bytewidth, ft);
    proof {
        assert(line@.subrange(0, n as int) =~= line@);
        assert(out@.subrange(0, n as int) =~= out@);
    }
    out
}

/// The sum of the signed magnitudes of a filtered line.
pub fn minsum(f: &Vec<u8>) -> (r: usize)
    requires
        128 * f@.len() <= usize::MAX,
    ensures
        r == minsum_score(f@),
{
    let mut sum: usize = 0;
    let mut i: usize = 0;
    while i < f.len()
        invariant
            i <= f@.len(),
            128 * f@.len() <= usize::MAX,
            sum == minsum_score(f@.subrange(0, i as int)),
            sum <= 128 * i,
        decreases f@.len() - i,
    {
        let b = f[i];
        let m: usize = if b < 128 {
            b as usize
        } else {
            (256 - b as usize) as usize
        };
        proof {
            assert(f@.subrange(0, i + 1).drop_last() =~= f@.subrange(0, i as int));
        }
        sum = sum + m;
        i = i + 1;
    }
    proof {
        assert(f@.subrange(0, i as int) =~= f@);
    }
    sum
}

/// How a strategy scores a filtered line.
fn score(strategy: FilterStrategy, f: &Vec<u8>, level: u8) -> (r: usize)
    requires
        level <= 10,
        128 * f@.len() <= usize::MAX,
    ensures
        r == line_score(strategy, f@, level),
{
    match strategy {
        FilterStrategy::BruteForce => {
            let z = deflate(f.as_slice(), level);
            z.len()
        },
        _ => minsum(f),
    }
}

/// The filter type a strategy picks for a line, and the line filtered with it.
pub fn choose_filter(
    strategy: FilterStrategy,
    line: &Vec<u8>,
    prev: &Option<Vec<u8>>,
    bytewidth: usize,
    level: u8,
) -> (r: (u8, Vec<u8>))
    requires
        bytewidth >= 1,
        level <= 10,
        128 * line@.len() <= usize::MAX,
        prev_fits(
            match prev {
                Some(p) => Some(p@),
                None => None::<Seq<u8>>,
            },
            line@.len(),
        ),
    ensures
        r.0 == choose_type(
            strategy,
            line@,
            match prev {
                Some(p) => Some(p@),
                None => None::<Seq<u8>>,
            },
            bytewidth as int,
            level,
        ),
        r.0 <= 4,
        r.1@ == filter_line(
            r.0,
            line@,
            match prev {
                Some(p) => Some(p@),
                None => None::<Seq<u8>>,
            },
            bytewidth as int,
        ),
{
    let ghost pv = match prev {
        Some(p) => Some(p@),
        None => None::<Seq<u8>>,
    };
    let first = filtered(0, line, prev, bytewidth);
    if strategy == FilterStrategy::Zero {
        return (0, first);
    }
    let mut best = first;
    let mut best_t: u8 = 0;
    let mut best_score = score(strategy, &best, level);
    let mut t: u8 = 1;
    while t < 5
        invariant
            1 <= t <= 5,
            bytewidth >= 1,
            level <= 10,
            128 * line@.len() <= usize::MAX,
            prev_fits(pv, line@.len()),
            pv == match prev {
                Some(p) => Some(p@),
                None => None::<Seq<u8>>,
            },
            best_t == best_type(strategy, line@, pv, bytewidth as int, level, t as nat),
            best_t < t,
            best@ == filter_line(best_t, line@, pv, bytewidth as int),
            best_score == line_score(strategy, best@, level),
        decreases 5 - t,
    {
        let cand = filtered(t, line, prev, bytewidth);
        let sc = score(strategy, &cand, level);
        if sc < best_score {
            best = cand;
            best_t = t;
            best_score = sc;
        }
        t = t + 1;
    }
    (best_t, best)
}

/// Filters each line of an image with lines of `lb` bytes, prefixing it with
/// the filter type the strategy picks. Entropy-driven choices are made by
/// the caller, which passes them to `filter_image_with_types`.
pub fn filter_image(
    img: &Vec<u8>,
    lb: usize,
    ph: usize,
    bytewidth: usize,
    strategy: FilterStrategy,
    level: u8,
) -> (out: Vec<u8>)
    requires
        img@.len() == ph * lb,
        bytewidth >= 1,
        level <= 10,
        strategy != FilterStrategy::Entropy,
        ph * (lb + 1) <= usize::MAX,
        128 * lb <= usize::MAX,
    ensures
        out@ == filter_rows(
            img@,
            lb as nat,
            bytewidth as int,
            chosen_types(strategy, img@, lb as nat, bytewidth as int, level, ph as nat),
            ph as nat,
        ),
{
    let ghost types = chosen_types(strategy, img@, lb as nat, bytewidth as int, level, ph as nat);
    let mut out: Vec<u8> = Vec::new();
    let mut prev: Option<Vec<u8>> = None;
    let mut y: usize = 0;
    while y < ph
        invariant
            y <= ph,
            img@.len() == ph * lb,
            bytewidth >= 1,
            level <= 10,
            128 * lb <= usize::MAX,
            types == chosen_types(strategy, img@, lb as nat, bytewidth as int, level, ph as nat),
            out@ == filter_rows(img@, lb as nat, bytewidth as int, types, y as nat),
            match prev {
                Some(p) => Some(p@),
                None => None::<Seq<u8>>,
            } == prev_row(img@, lb as nat, y as nat),
            y > 0 ==> prev is Some,
            prev matches Some(p) ==> p@.len() == lb,
        decreases ph - y,
    {
        proof {
            assert((y + 1) * lb <= ph * lb) by (nonlinear_arith)
                requires y < ph;
        }
        let line = copy_row(img, lb, y);
        let (ft, f) = choose_filter(strategy, &line, &prev, bytewidth, level);
        let ghost o0 = out@;
        out.push(ft);
        push_all(&mut out, f.as_slice());
        proof {
            assert(out@ =~= o0.push(ft) + f@);
        }
        prev = Some(line);
        y = y + 1;
    }
    out
}

/// Filters each line of an image with a given filter type.
pub fn filter_image_with_types(
    img: &Vec<u8>,
    lb: usize,
    ph: usize,
    bytewidth: usize,
    types: &Vec<u8>,
) -> (out: Vec<u8>)
    requires
        img@.len() == ph * lb,
        types@.len() == ph,
        bytewidth >= 1,
    ensures
        out@ == filter_rows(img@, lb as nat, bytewidth as int, types@, ph as nat),
{
    let mut out: Vec<u8> = Vec::new();
    let mut prev: Option<Vec<u8>> = None;
    let mut y: usize = 0;
    while y < ph
        invariant
            y <= ph,
            img@.len() == ph * lb,
            types@.len() == ph,
            bytewidth >= 1,
            out@ == filter_rows(img@, lb as nat, bytewidth as int, types@, y as nat),
            match prev {
                Some(p) => Some(p@),
                None => None::<Seq<u8>>,
            } == prev_row(img@, lb as nat, y as nat),
            prev matches Some(p) ==> p@.len() == lb,
        decreases ph - y,
    {
        proof {
            assert((y + 1) * lb <= ph * lb) by (nonlinear_arith)
                requires y < ph;
        }
        let line = copy_row(img, lb, y);
        let ft = types[y];
        let f = filtered(ft, &line, &prev, bytewidth);
        let ghost o0 = out@;
        out.push(ft);
        push_all(&mut out, f.as_slice());
        proof {
            assert(out@ =~= o0.push(ft) + f@);
        }
        prev = Some(line);
        y = y + 1;
    }
    out
}

/// Reconstructs the lines of an image from its scanline stream. A filter
/// type above 4 is an `IllegalFilterType` error.
pub fn unfilter_image(data: &[u8], lb: usize, ph: usize, bytewidth: usize) -> (r: Result<
    Vec<u8>,
    DecodeError,
>)
    requires
        data@.len() == ph * (lb + 1),
        bytewidth >= 1,
    ensures
        r is Ok <==> unfilter_rows(data@, lb as nat, bytewidth as int, ph as nat) is Some,
        r matches Ok(v) ==> Some(v@) == unfilter_rows(data@, lb as nat, bytewidth as int, ph as nat),
        r is Err ==> r == Err::<Vec<u8>, DecodeError>(DecodeError::IllegalFilterType),
{
    let mut out: Vec<u8> = Vec::new();
    let mut prev: Option<Vec<u8>> = None;
    let mut y: usize = 0;
    let _n = data.len();
    while y < ph
        invariant
            y <= ph,
            data@.len() <= usize::MAX,
            data@.len() == ph * (lb + 1),
            bytewidth >= 1,
            unfilter_rows(data@, lb as nat, bytewidth as int, y as nat) == Some(out@),
            out@.len() == y * lb,
            y == 0 ==> prev is None,
            y > 0 ==> (prev matches Some(p) && p@ == row(out@, lb as nat, (y - 1) as nat)),
        decreases ph - y,
    {
        proof {
            assert((y + 1) * (lb + 1) <= ph * (lb + 1)) by (nonlinear_arith)
                requires y < ph;
            assert((y + 1) * (lb + 1) == y * (lb + 1) + lb + 1) by (nonlinear_arith);
            assert((y + 1) * lb == y * lb + lb) by (nonlinear_arith);
            assert(y * (lb + 1) <= (y + 1) * (lb + 1)) by (nonlinear_arith);
            assert(lb + 1 <= ph * (lb + 1)) by (nonlinear_arith)
                requires y < ph;
            if y > 0 {
                assert((y - 1) * lb + lb == y * lb) by (nonlinear_arith)
                    requires y >= 1;
            }
        }
        let start: usize = y * (lb + 1);
        let ft = data[start];
        let line = slice_range(data, start + 1, start + 1 + lb);
        let mut recon: Vec<u8> = vec![0u8; lb];
        let pv = as_prev(&prev);
        let res = unfilter_scanline(&mut recon, line.as_slice(), pv, bytewidth, ft, lb);
        if res.is_err() {
            proof {
                assert(unfilter_rows(data@, lb as nat, bytewidth as int, (y + 1) as nat) is None);
                lemma_unfilter_rows_none(data@, lb as nat, bytewidth as int, (y + 1) as nat, ph as nat);
            }
            return Err(DecodeError::IllegalFilterType);
        }
        proof {
            assert(line@.subrange(0, lb as int) =~= line@);
            assert(recon@.subrange(0, lb as int) =~= recon@);
        }
        let ghost o0 = out@;
        push_all(&mut out, recon.as_slice());
        proof {
            assert(row(out@, lb as nat, y as nat) =~= recon@);
        }
        prev = Some(recon);
        y = y + 1;
    }
    Ok(out)
}

} // verus!
