//! Undoing the per-scanline filters of decompressed image data.
use vstd::prelude::*;
use crate::octets;
use crate::octets::{add_mod256, paeth_predictor};
use super::types::PngParseError;

verus! {

/// The byte that filter type `ft` turns `raw` into, given the already
/// reconstructed left, upper and upper-left bytes.
pub open spec fn unfilter_byte(ft: u8, raw: u8, left: u8, up: u8, up_left: u8) -> u8 {
    if ft == 0 {
        raw
    } else if ft == 1 {
        ((raw + left) % 256) as u8
    } else if ft == 2 {
        ((raw + up) % 256) as u8
    } else if ft == 3 {
        ((raw + (left + up) / 2) % 256) as u8
    } else {
        ((raw + octets::paeth(left, up, up_left)) % 256) as u8
    }
}

/// The first `k` reconstructed bytes of scanlines of `w` data bytes, each
/// preceded by its filter-type byte in `inf`, with `b` bytes per pixel.
pub open spec fn unfiltered(inf: Seq<u8>, w: int, b: int, k: int) -> Seq<u8>
    decreases k,
{
    if k <= 0 || w <= 0 {
        Seq::empty()
    } else {
        let p = unfiltered(inf, w, b, k - 1);
        let i = k - 1;
        let row = i / w;
        let col = i % w;
        let left = if col >= b { p[i - b] } else { 0u8 };
        let up = if row > 0 { p[i - w] } else { 0u8 };
        let up_left = if row > 0 && col >= b { p[i - w - b] } else { 0u8 };
        p.push(unfilter_byte(inf[row * (w + 1)], inf[row * (w + 1) + 1 + col], left, up, up_left))
    }
}

/// The first row in `[r, height)` whose filter type is above 4, or `height`.
pub open spec fn first_bad_row(inf: Seq<u8>, w: int, height: int, r: int) -> int
    decreases height - r,
{
    if r >= height {
        height
    } else if inf[r * (w + 1)] > 4 {
        r
    } else {
        first_bad_row(inf, w, height, r + 1)
    }
}

/// `x`, or `usize::MAX` when `x` does not fit.
pub open spec fn saturate(x: int) -> usize {
    if x > usize::MAX { usize::MAX } else { x as usize }
}

/// What reconstructing `height` scanlines of `w` data bytes gives.
pub open spec fn scanlines_result(inf: Seq<u8>, height: int, w: int, b: int, r: Result<Seq<u8>, PngParseError>) -> bool {
    let expected = (w + 1) * height;
    if inf.len() != expected {
        r == Err::<Seq<u8>, PngParseError>(PngParseError::InvalidInflatedDataLength {
            expected: saturate(expected),
            actual: inf.len() as usize,
        })
    } else if w > 0 && first_bad_row(inf, w, height, 0) < height {
        let row = first_bad_row(inf, w, height, 0);
        r == Err::<Seq<u8>, PngParseError>(PngParseError::InvalidFilterType { row: row as usize, filter_type: inf[row * (w + 1)] })
    } else {
        r == Ok::<Seq<u8>, PngParseError>(unfiltered(inf, w, b, w * height))
    }
}

/// What reconstructing `height` scanlines of `w` data bytes gives, as a
/// value.
pub open spec fn scanlines_value(inf: Seq<u8>, height: int, w: int, b: int) -> Result<Seq<u8>, PngParseError> {
    let expected = (w + 1) * height;
    if inf.len() != expected {
        Err(PngParseError::InvalidInflatedDataLength { expected: saturate(expected), actual: inf.len() as usize })
    } else if w > 0 && first_bad_row(inf, w, height, 0) < height {
        let row = first_bad_row(inf, w, height, 0);
        Err(PngParseError::InvalidFilterType { row: row as usize, filter_type: inf[row * (w + 1)] })
    } else {
        Ok(unfiltered(inf, w, b, w * height))
    }
}

/// The relation and the value agree.
pub proof fn lemma_scanlines_value(inf: Seq<u8>, height: int, w: int, b: int, r: Result<Seq<u8>, PngParseError>)
    ensures
        scanlines_result(inf, height, w, b, r) <==> r == scanlines_value(inf, height, w, b),
{
}

/// The values of a byte-vector result.
pub open spec fn bytes_result(r: Result<Vec<u8>, PngParseError>) -> Result<Seq<u8>, PngParseError> {
    match r {
        Ok(v) => Ok(v@),
        Err(e) => Err(e),
    }
}

/// `a * b`, or `usize::MAX` when the product does not fit.
pub fn mul_saturating(a: usize, b: usize) -> (r: usize)
    ensures
        r == saturate(a * b),
{
    match a.checked_mul(b) {
        Some(p) => p,
        None => usize::MAX,
    }
}

pub proof fn lemma_unfiltered_len(inf: Seq<u8>, w: int, b: int, k: int)
    requires
        w > 0,
        k >= 0,
    ensures
        unfiltered(inf, w, b, k).len() == k,
    decreases k,
{
    if k > 0 {
        lemma_unfiltered_len(inf, w, b, k - 1);
    }
}

/// The length of `h` scanlines of `row_len` bytes with their filter bytes,
/// when it fits in a `usize`.
fn scanline_bytes(row_len: usize, h: usize) -> (r: Option<usize>)
    ensures
        r matches Some(x) ==> x == (row_len + 1) * h,
        r is None ==> (row_len + 1) * h > usize::MAX,
{
    if row_len == usize::MAX {
        if h == 0 {
            return Some(0);
        }
        assert((row_len + 1) * h > usize::MAX) by (nonlinear_arith)
            requires
                row_len == usize::MAX,
                h > 0,
        ;
        return None;
    }
    (row_len + 1).checked_mul(h)
}

pub proof fn lemma_row_col(row: int, col: int, w: int)
    requires
        0 <= col < w,
        0 <= row,
    ensures
        (row * w + col) / w == row,
        (row * w + col) % w == col,
{
    vstd::arithmetic::div_mod::lemma_fundamental_div_mod_converse(row * w + col, w, row, col);
}

/// Undoes the filters of `height` scanlines, each a filter-type byte
/// followed by `row_len` bytes, with `bpp` bytes per pixel.
pub fn reconstruct_scanlines(inflated: &[u8], height: u32, row_len: usize, bpp: usize) -> (r: Result<Vec<u8>, PngParseError>)
    requires
        bpp >= 1,
    ensures
        scanlines_result(inflated@, height as int, row_len as int, bpp as int, bytes_result(r)),
{
    let h = height as usize;
    let total_len = inflated.len();
    match scanline_bytes(row_len, h) {
        None => {
            return Err(PngParseError::InvalidInflatedDataLength { expected: usize::MAX, actual: total_len });
        },
        Some(expected) => {
            if total_len != expected {
                return Err(PngParseError::InvalidInflatedDataLength { expected, actual: total_len });
            }
        },
    }
    let ghost inf = inflated@;
    let ghost w = row_len as int;
    let ghost b = bpp as int;
    let mut pixels: Vec<u8> = Vec::new();
    let mut row: usize = 0;
    let mut src: usize = 0;
    if row_len == 0 || h == 0 {
        proof {
            assert(w * h == 0) by (nonlinear_arith)
                requires
                    w == 0 || h == 0,
            ;
        }
        return Ok(pixels);
    }
    assert(inf.len() == (w + 1) * h);
    while row < h
        invariant
            inf == inflated@,
            w == row_len as int,
            b == bpp as int,
            b >= 1,
            w > 0,
            h == height as int,
            inf.len() == (w + 1) * h,
            inf.len() == total_len,
            row <= h,
            src == row * (w + 1),
            pixels@ == unfiltered(inf, w, b, row * w),
            first_bad_row(inf, w, h as int, 0) == first_bad_row(inf, w, h as int, row as int),
        decreases h - row,
    {
        proof {
            assert((row + 1) * (w + 1) <= h * (w + 1)) by (nonlinear_arith)
                requires
                    row < h,
                    w > 0,
            ;
            assert((row + 1) * (w + 1) == row * (w + 1) + w + 1) by (nonlinear_arith);
            assert(row * w + w == (row + 1) * w) by (nonlinear_arith);
            assert(row * w <= row * (w + 1)) by (nonlinear_arith)
                requires
                    row >= 0,
                    w >= 0,
            ;
            lemma_unfiltered_len(inf, w, b, row * w);
        }
        let ft = inflated[src];
        if ft > 4 {
            return Err(PngParseError::InvalidFilterType { row, filter_type: ft });
        }
        let mut col: usize = 0;
        while col < row_len
            invariant
                inf == inflated@,
                w == row_len as int,
                b == bpp as int,
                b >= 1,
                w > 0,
                row < h,
                inf.len() == (w + 1) * h,
                inf.len() == total_len,
                src == row * (w + 1),
                src + w + 1 <= inf.len(),
                ft == inf[src as int],
                ft <= 4,
                col <= row_len,
                pixels@ == unfiltered(inf, w, b, row * w + col),
                pixels@.len() == row * w + col,
            decreases row_len - col,
        {
            let ghost i = row * w + col;
            proof {
                lemma_row_col(row as int, col as int, w);
                if row > 0 {
                    assert(row * w >= w) by (nonlinear_arith)
                        requires
                            row >= 1,
                            w >= 0,
                    ;
                }
                assert(row * w + col <= row * (w + 1) + w) by (nonlinear_arith)
                    requires
                        col < w,
                        row >= 0,
                ;
            }
            let n = pixels.len();
            let raw = inflated[src + 1 + col];
            let left = if col >= bpp { pixels[n - bpp] } else { 0u8 };
            let up = if row > 0 { pixels[n - row_len] } else { 0u8 };
            let up_left = if row > 0 && col >= bpp { pixels[n - row_len - bpp] } else { 0u8 };
            let v = if ft == 0 {
                raw
            } else if ft == 1 {
                add_mod256(raw, left)
            } else if ft == 2 {
                add_mod256(raw, up)
            } else if ft == 3 {
                let avg = ((left as u16 + up as u16) / 2) as u8;
                add_mod256(raw, avg)
            } else {
                add_mod256(raw, paeth_predictor(left, up, up_left))
            };
            pixels.push(v);
            col = col + 1;
            proof {
                assert(unfiltered(inf, w, b, i + 1) == unfiltered(inf, w, b, i).push(v));
            }
        }
        src = src + row_len + 1;
        row = row + 1;
    }
    assert(row * w == w * h) by (nonlinear_arith)
        requires
            row == h,
    ;
    Ok(pixels)
}

} // verus!
