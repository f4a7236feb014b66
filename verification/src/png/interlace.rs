//! Adam7 deinterlacing.
use vstd::prelude::*;
use super::unfilter;
use super::unfilter::{mul_saturating, reconstruct_scanlines};
use super::types::{Ihdr, PngParseError};
use super::chunk;

verus! {

/// Start column, start row, column step and row step of Adam7 pass `p`.
pub open spec fn adam7_pass(p: int) -> (int, int, int, int) {
    if p == 0 {
        (0, 0, 8, 8)
    } else if p == 1 {
        (4, 0, 8, 8)
    } else if p == 2 {
        (0, 4, 4, 8)
    } else if p == 3 {
        (2, 0, 4, 4)
    } else if p == 4 {
        (0, 2, 2, 4)
    } else if p == 5 {
        (1, 0, 2, 2)
    } else {
        (0, 1, 1, 2)
    }
}

/// `d / s` rounded up.
pub open spec fn div_ceil(d: int, s: int) -> int {
    d / s + if d % s != 0 { 1int } else { 0int }
}

/// How many of `size` rows or columns a pass starting at `start` with
/// `step` holds.
pub open spec fn pass_size(size: int, start: int, step: int) -> int {
    if size <= start { 0 } else { div_ceil(size - start, step) }
}

/// The Adam7 pass that holds the pixel at column `x` and row `y`.
pub open spec fn pass_of(x: int, y: int) -> int {
    if y % 2 == 1 {
        6
    } else if x % 2 == 1 {
        5
    } else if y % 4 == 2 {
        4
    } else if x % 4 == 2 {
        3
    } else if y % 8 == 4 {
        2
    } else if x % 8 == 4 {
        1
    } else {
        0
    }
}

/// Byte `i` of a `w` x `h` image with `bpp` bytes per pixel, taken from the
/// reconstructed passes.
pub open spec fn adam7_byte(passes: Seq<Seq<u8>>, w: int, h: int, bpp: int, i: int) -> u8 {
    let pix = i / bpp;
    let k = i % bpp;
    let y = pix / w;
    let x = pix % w;
    let p = pass_of(x, y);
    let (sx, sy, stx, sty) = adam7_pass(p);
    let pw = pass_size(w, sx, stx);
    passes[p][(((y - sy) / sty) * pw + (x - sx) / stx) * bpp + k]
}

/// The image the reconstructed passes make up.
pub open spec fn adam7_image(passes: Seq<Seq<u8>>, w: int, h: int, bpp: int) -> Seq<u8> {
    Seq::new((w * h * bpp) as nat, |i: int| adam7_byte(passes, w, h, bpp, i))
}

/// `r` is what reconstructing passes `p..7` of the data `inf` gives, with the
/// passes before `p` reconstructed as `acc` from the first `off` bytes.
pub open spec fn adam7_passes(inf: Seq<u8>, w: int, h: int, bpp: int, p: int, off: int, acc: Seq<Seq<u8>>, r: Result<Seq<u8>, PngParseError>) -> bool
    decreases 7 - p,
{
    if p >= 7 {
        if off != inf.len() {
            r == Err::<Seq<u8>, PngParseError>(PngParseError::InvalidInflatedDataLength { expected: unfilter::saturate(off), actual: inf.len() as usize })
        } else {
            r == Ok::<Seq<u8>, PngParseError>(adam7_image(acc, w, h, bpp))
        }
    } else {
        let (sx, sy, stx, sty) = adam7_pass(p);
        let pw = pass_size(w, sx, stx);
        let ph = pass_size(h, sy, sty);
        if pw == 0 || ph == 0 {
            adam7_passes(inf, w, h, bpp, p + 1, off, acc.push(Seq::empty()), r)
        } else {
            let rl = pw * bpp;
            let len = (rl + 1) * ph;
            if inf.len() < off + len {
                r == Err::<Seq<u8>, PngParseError>(PngParseError::InvalidInflatedDataLength { expected: unfilter::saturate(off + len), actual: inf.len() as usize })
            } else {
                let sub = inf.subrange(off, off + len);
                let bad = unfilter::first_bad_row(sub, rl, ph, 0);
                if bad < ph {
                    r == Err::<Seq<u8>, PngParseError>(PngParseError::InvalidFilterType { row: bad as usize, filter_type: sub[bad * (rl + 1)] })
                } else {
                    adam7_passes(inf, w, h, bpp, p + 1, off + len, acc.push(unfilter::unfiltered(sub, rl, bpp, rl * ph)), r)
                }
            }
        }
    }
}

/// What reconstructing passes `p..7` gives, as a value.
pub open spec fn adam7_value(inf: Seq<u8>, w: int, h: int, bpp: int, p: int, off: int, acc: Seq<Seq<u8>>) -> Result<Seq<u8>, PngParseError>
    decreases 7 - p,
{
    if p >= 7 {
        if off != inf.len() {
            Err(PngParseError::InvalidInflatedDataLength { expected: unfilter::saturate(off), actual: inf.len() as usize })
        } else {
            Ok(adam7_image(acc, w, h, bpp))
        }
    } else {
        let (sx, sy, stx, sty) = adam7_pass(p);
        let pw = pass_size(w, sx, stx);
        let ph = pass_size(h, sy, sty);
        if pw == 0 || ph == 0 {
            adam7_value(inf, w, h, bpp, p + 1, off, acc.push(Seq::empty()))
        } else {
            let rl = pw * bpp;
            let len = (rl + 1) * ph;
            if inf.len() < off + len {
                Err(PngParseError::InvalidInflatedDataLength { expected: unfilter::saturate(off + len), actual: inf.len() as usize })
            } else {
                let sub = inf.subrange(off, off + len);
                let bad = unfilter::first_bad_row(sub, rl, ph, 0);
                if bad < ph {
                    Err(PngParseError::InvalidFilterType { row: bad as usize, filter_type: sub[bad * (rl + 1)] })
                } else {
                    adam7_value(inf, w, h, bpp, p + 1, off + len, acc.push(unfilter::unfiltered(sub, rl, bpp, rl * ph)))
                }
            }
        }
    }
}

/// The relation and the value of the pass reconstruction agree.
pub proof fn lemma_adam7_value(inf: Seq<u8>, w: int, h: int, bpp: int, p: int, off: int, acc: Seq<Seq<u8>>, r: Result<Seq<u8>, PngParseError>)
    ensures
        adam7_passes(inf, w, h, bpp, p, off, acc, r) <==> r == adam7_value(inf, w, h, bpp, p, off, acc),
    decreases 7 - p,
{
    if p < 7 {
        let (sx, sy, stx, sty) = adam7_pass(p);
        let pw = pass_size(w, sx, stx);
        let ph = pass_size(h, sy, sty);
        if pw == 0 || ph == 0 {
            lemma_adam7_value(inf, w, h, bpp, p + 1, off, acc.push(Seq::empty()), r);
        } else {
            let rl = pw * bpp;
            let len = (rl + 1) * ph;
            if inf.len() >= off + len {
                let sub = inf.subrange(off, off + len);
                lemma_adam7_value(inf, w, h, bpp, p + 1, off + len, acc.push(unfilter::unfiltered(sub, rl, bpp, rl * ph)), r);
            }
        }
    }
}

/// What deinterlacing `inf` for the header `ihdr` gives, as a value.
pub open spec fn adam7_result_value(inf: Seq<u8>, ihdr: Ihdr, bpp: int) -> Result<Seq<u8>, PngParseError> {
    if ihdr.bit_depth < 8 {
        Err(PngParseError::UnsupportedDecodeFormat {
            bit_depth: ihdr.bit_depth,
            color_type: chunk::color_byte(ihdr.color_type),
            interlace_method: chunk::interlace_byte(ihdr.interlace_method),
        })
    } else if ihdr.width * ihdr.height * bpp > usize::MAX {
        Err(PngParseError::InvalidInflatedDataLength { expected: usize::MAX, actual: inf.len() as usize })
    } else {
        adam7_value(inf, ihdr.width as int, ihdr.height as int, bpp, 0, 0, Seq::empty())
    }
}

/// The relation and the value of deinterlacing agree.
pub proof fn lemma_adam7_result_value(inf: Seq<u8>, ihdr: Ihdr, bpp: int, r: Result<Seq<u8>, PngParseError>)
    ensures
        adam7_result(inf, ihdr, bpp, r) <==> r == adam7_result_value(inf, ihdr, bpp),
{
    lemma_adam7_value(inf, ihdr.width as int, ihdr.height as int, bpp, 0, 0, Seq::empty(), r);
}

/// `r` is what deinterlacing `inf` for the header `ihdr` gives.
pub open spec fn adam7_result(inf: Seq<u8>, ihdr: Ihdr, bpp: int, r: Result<Seq<u8>, PngParseError>) -> bool {
    if ihdr.bit_depth < 8 {
        r == Err::<Seq<u8>, PngParseError>(PngParseError::UnsupportedDecodeFormat {
            bit_depth: ihdr.bit_depth,
            color_type: chunk::color_byte(ihdr.color_type),
            interlace_method: chunk::interlace_byte(ihdr.interlace_method),
        })
    } else if ihdr.width * ihdr.height * bpp > usize::MAX {
        r == Err::<Seq<u8>, PngParseError>(PngParseError::InvalidInflatedDataLength { expected: usize::MAX, actual: inf.len() as usize })
    } else {
        adam7_passes(inf, ihdr.width as int, ihdr.height as int, bpp, 0, 0, Seq::empty(), r)
    }
}

/// The number of rows or columns of a pass.
pub fn adam7_pass_size(size: u32, start: u32, step: u32) -> (r: u32)
    requires
        step >= 1,
    ensures
        r == pass_size(size as int, start as int, step as int),
{
    if size <= start {
        0
    } else {
        let d = size - start;
        let q = d / step;
        assert(d % step != 0 ==> q < 0xffff_ffff) by (nonlinear_arith)
            requires
                q == d / step,
                step >= 1,
                d <= 0xffff_ffff,
        ;
        if d % step != 0 { q + 1 } else { q }
    }
}

pub(crate) fn adam7_params(p: usize) -> (r: (u32, u32, u32, u32))
    requires
        p < 7,
    ensures
        (r.0 as int, r.1 as int, r.2 as int, r.3 as int) == adam7_pass(p as int),
{
    match p {
        0 => (0, 0, 8, 8),
        1 => (4, 0, 8, 8),
        2 => (0, 4, 4, 8),
        3 => (2, 0, 4, 4),
        4 => (0, 2, 2, 4),
        5 => (1, 0, 2, 2),
        _ => (0, 1, 1, 2),
    }
}

fn adam7_pass_index(x: u32, y: u32) -> (r: usize)
    ensures
        r == pass_of(x as int, y as int),
        r < 7,
{
    if y % 2 == 1 {
        6
    } else if x % 2 == 1 {
        5
    } else if y % 4 == 2 {
        4
    } else if x % 4 == 2 {
        3
    } else if y % 8 == 4 {
        2
    } else if x % 8 == 4 {
        1
    } else {
        0
    }
}

/// A pixel coordinate lies in the pass `pass_of` gives for it.
proof fn lemma_pass_position(x: int, y: int, w: int, h: int)
    requires
        0 <= x < w,
        0 <= y < h,
    ensures
        ({
            let (sx, sy, stx, sty) = adam7_pass(pass_of(x, y));
            &&& x >= sx && y >= sy
            &&& (x - sx) / stx < pass_size(w, sx, stx)
            &&& (y - sy) / sty < pass_size(h, sy, sty)
            &&& 0 <= (x - sx) / stx
            &&& 0 <= (y - sy) / sty
        }),
{
    let p = pass_of(x, y);
    let (sx, sy, stx, sty) = adam7_pass(p);
    assert(x >= sx && y >= sy);
    assert((x - sx) / stx < pass_size(w, sx, stx));
    assert((y - sy) / sty < pass_size(h, sy, sty));
}

} // verus!

verus! {

/// The values of the reconstructed passes.
pub open spec fn pass_views(passes: Seq<Vec<u8>>) -> Seq<Seq<u8>> {
    passes.map_values(|v: Vec<u8>| v@)
}

/// The number of bytes pass `p` reconstructs to.
pub open spec fn pass_pixel_len(w: int, h: int, bpp: int, p: int) -> int {
    let (sx, sy, stx, sty) = adam7_pass(p);
    pass_size(w, sx, stx) * bpp * pass_size(h, sy, sty)
}

/// The bytes `ph` filtered rows of `pw` pixels take, when they fit.
fn pass_bytes(pw: u32, ph: u32, bpp: usize) -> (r: Option<(usize, usize)>)
    requires
        ph > 0,
    ensures
        r matches Some((rl, len)) ==> rl == pw * bpp && len == (pw * bpp + 1) * ph,
        r is None ==> (pw * bpp + 1) * ph > usize::MAX,
{
    let rl = match (pw as usize).checked_mul(bpp) {
        Some(v) => v,
        None => {
            assert((pw * bpp + 1) * ph > usize::MAX) by (nonlinear_arith)
                requires
                    pw * bpp > usize::MAX,
                    ph > 0,
            ;
            return None;
        },
    };
    if rl == usize::MAX {
        assert((pw * bpp + 1) * ph > usize::MAX) by (nonlinear_arith)
            requires
                pw * bpp == usize::MAX,
                ph > 0,
        ;
        return None;
    }
    match (rl + 1).checked_mul(ph as usize) {
        Some(len) => Some((rl, len)),
        None => None,
    }
}

proof fn lemma_gather_index(px: int, py: int, pw: int, ph: int, bpp: int, k: int)
    requires
        0 <= px < pw,
        0 <= py < ph,
        0 <= k < bpp,
    ensures
        0 <= (py * pw + px) * bpp + k < pw * bpp * ph,
{
    assert(py * pw + px < pw * ph) by (nonlinear_arith)
        requires
            0 <= px < pw,
            0 <= py < ph,
    ;
    assert((py * pw + px) * bpp + k < pw * bpp * ph) by (nonlinear_arith)
        requires
            0 <= py * pw + px < pw * ph,
            0 <= k < bpp,
    ;
    assert(0 <= (py * pw + px) * bpp) by (nonlinear_arith)
        requires
            0 <= py * pw + px,
            0 <= bpp,
    ;
}

/// Reconstructs each Adam7 pass and places its pixels in the full image.
pub fn reconstruct_adam7_scanlines(inflated: &[u8], ihdr: Ihdr, bytes_per_pixel: usize) -> (r: Result<Vec<u8>, PngParseError>)
    requires
        bytes_per_pixel >= 1,
    ensures
        adam7_result(inflated@, ihdr, bytes_per_pixel as int, unfilter::bytes_result(r)),
{
    let bpp = bytes_per_pixel;
    if ihdr.bit_depth < 8 {
        return Err(PngParseError::UnsupportedDecodeFormat {
            bit_depth: ihdr.bit_depth,
            color_type: ihdr.color_type.byte(),
            interlace_method: ihdr.interlace_method.byte(),
        });
    }
    let width = ihdr.width;
    let height = ihdr.height;
    let wh = (width as usize).checked_mul(height as usize);
    let out_len = match wh {
        Some(v) => v.checked_mul(bpp),
        None => None,
    };
    let out_len = match out_len {
        Some(v) => v,
        None => {
            proof {
                if wh is None {
                    assert(width * height * bpp > usize::MAX) by (nonlinear_arith)
                        requires
                            width * height > usize::MAX,
                            bpp >= 1,
                    ;
                }
            }
            return Err(PngParseError::InvalidInflatedDataLength { expected: usize::MAX, actual: inflated.len() });
        },
    };
    let ghost inf = inflated@;
    let ghost wi = width as int;
    let ghost hi = height as int;
    let ghost b = bpp as int;
    let mut passes: Vec<Vec<u8>> = Vec::new();
    let mut offset: usize = 0;
    let mut p: usize = 0;
    assert(pass_views(passes@) =~= Seq::<Seq<u8>>::empty());
    while p < 7
        invariant
            inf == inflated@,
            bpp == bytes_per_pixel,
            wi == width as int,
            hi == height as int,
            b == bpp as int,
            b >= 1,
            ihdr.bit_depth >= 8,
            ihdr.width == width,
            ihdr.height == height,
            out_len == wi * hi * b,
            p <= 7,
            passes@.len() == p,
            offset <= inf.len(),
            forall|q: int| 0 <= q < p ==> (#[trigger] passes@[q])@.len() == pass_pixel_len(wi, hi, b, q),
            forall|res: Result<Seq<u8>, PngParseError>|
                #[trigger] adam7_passes(inf, wi, hi, b, p as int, offset as int, pass_views(passes@), res)
                    ==> adam7_result(inf, ihdr, b, res),
        decreases 7 - p,
    {
        let ghost acc = pass_views(passes@);
        let (sx, sy, stx, sty) = adam7_params(p);
        let pw = adam7_pass_size(width, sx, stx);
        let ph = adam7_pass_size(height, sy, sty);
        if pw == 0 || ph == 0 {
            let ghost old_passes = passes@;
            passes.push(Vec::new());
            proof {
                assert(pass_views(passes@) =~= acc.push(Seq::empty()));
                assert(pass_pixel_len(wi, hi, b, p as int) == 0) by (nonlinear_arith)
                    requires
                        pass_pixel_len(wi, hi, b, p as int) == pass_size(wi, sx as int, stx as int) * b * pass_size(hi, sy as int, sty as int),
                        pw == pass_size(wi, sx as int, stx as int),
                        ph == pass_size(hi, sy as int, sty as int),
                        pw == 0 || ph == 0,
                ;
                assert forall|q: int| 0 <= q < p + 1 implies (#[trigger] passes@[q])@.len() == pass_pixel_len(wi, hi, b, q) by {
                    if q < p {
                        assert(passes@[q] == old_passes[q]);
                    }
                }
                assert forall|res: Result<Seq<u8>, PngParseError>|
                    #[trigger] adam7_passes(inf, wi, hi, b, p + 1, offset as int, pass_views(passes@), res)
                        implies adam7_result(inf, ihdr, b, res) by {
                    assert(adam7_passes(inf, wi, hi, b, p as int, offset as int, acc, res));
                }
            }
            p = p + 1;
            continue;
        }
        let sizes = pass_bytes(pw, ph, bpp);
        let (row_len, pass_len) = match sizes {
            Some(s) => s,
            None => {
                let r = Err(PngParseError::InvalidInflatedDataLength { expected: usize::MAX, actual: inflated.len() });
                assert(adam7_passes(inf, wi, hi, b, p as int, offset as int, acc, unfilter::bytes_result(r)));
                return r;
            },
        };
        if inflated.len() - offset < pass_len {
            let expected = match offset.checked_add(pass_len) {
                Some(v) => v,
                None => usize::MAX,
            };
            let r = Err(PngParseError::InvalidInflatedDataLength { expected, actual: inflated.len() });
            assert(adam7_passes(inf, wi, hi, b, p as int, offset as int, acc, unfilter::bytes_result(r)));
            return r;
        }
        let sub = &inflated[offset..offset + pass_len];
        let ghost subv = inf.subrange(offset as int, offset + pass_len);
        assert(sub@ == subv);
        assert(row_len > 0) by (nonlinear_arith)
            requires
                row_len == pw * b,
                pw > 0,
                b >= 1,
        ;
        match reconstruct_scanlines(sub, ph, row_len, bpp) {
            Err(e) => {
                let r = Err(e);
                assert(adam7_passes(inf, wi, hi, b, p as int, offset as int, acc, unfilter::bytes_result(r)));
                return r;
            },
            Ok(px) => {
                let ghost old_passes = passes@;
                proof {
                    unfilter::lemma_unfiltered_len(subv, row_len as int, b, row_len * ph);
                    assert(row_len * ph == pass_pixel_len(wi, hi, b, p as int)) by (nonlinear_arith)
                        requires
                            pass_pixel_len(wi, hi, b, p as int) == pass_size(wi, sx as int, stx as int) * b * pass_size(hi, sy as int, sty as int),
                            pw == pass_size(wi, sx as int, stx as int),
                            ph == pass_size(hi, sy as int, sty as int),
                            row_len == pw * b,
                    ;
                }
                passes.push(px);
                proof {
                    assert(pass_views(passes@) =~= acc.push(unfilter::unfiltered(subv, row_len as int, b, row_len * ph)));
                    assert forall|q: int| 0 <= q < p + 1 implies (#[trigger] passes@[q])@.len() == pass_pixel_len(wi, hi, b, q) by {
                        if q < p {
                            assert(passes@[q] == old_passes[q]);
                        }
                    }
                    assert forall|res: Result<Seq<u8>, PngParseError>|
                        #[trigger] adam7_passes(inf, wi, hi, b, p + 1, offset + pass_len, pass_views(passes@), res)
                            implies adam7_result(inf, ihdr, b, res) by {
                        assert(adam7_passes(inf, wi, hi, b, p as int, offset as int, acc, res));
                    }
                }
            },
        }
        offset = offset + pass_len;
        p = p + 1;
    }
    let ghost acc = pass_views(passes@);
    assert(bpp == bytes_per_pixel);
    if offset != inflated.len() {
        let r = Err(PngParseError::InvalidInflatedDataLength { expected: offset, actual: inflated.len() });
        assert(adam7_passes(inf, wi, hi, b, 7, offset as int, acc, unfilter::bytes_result(r)));
        return r;
    }
    let mut out: Vec<u8> = Vec::new();
    let mut y: u32 = 0;
    assert(y * wi * b == 0) by (nonlinear_arith)
        requires
            y == 0,
    ;
    while y < height
        invariant
            acc == pass_views(passes@),
            passes@.len() == 7,
            forall|q: int| 0 <= q < 7 ==> (#[trigger] passes@[q])@.len() == pass_pixel_len(wi, hi, b, q),
            wi == width as int,
            hi == height as int,
            b == bpp as int,
            b >= 1,
            out_len == wi * hi * b,
            y <= height,
            out@.len() == y * wi * b,
            forall|j: int| 0 <= j < out@.len() ==> #[trigger] out@[j] == adam7_byte(acc, wi, hi, b, j),
        decreases height - y,
    {
        let mut x: u32 = 0;
        while x < width
            invariant
                acc == pass_views(passes@),
                passes@.len() == 7,
                forall|q: int| 0 <= q < 7 ==> (#[trigger] passes@[q])@.len() == pass_pixel_len(wi, hi, b, q),
                wi == width as int,
                hi == height as int,
                b == bpp as int,
                b >= 1,
                out_len == wi * hi * b,
                y < height,
                x <= width,
                out@.len() == (y * wi + x) * b,
                forall|j: int| 0 <= j < out@.len() ==> #[trigger] out@[j] == adam7_byte(acc, wi, hi, b, j),
            decreases width - x,
        {
            let pi = adam7_pass_index(x, y);
            let (sx, sy, stx, sty) = adam7_params(pi);
            let pw = adam7_pass_size(width, sx, stx);
            proof {
                lemma_pass_position(x as int, y as int, wi, hi);
            }
            let px = ((x - sx) / stx) as usize;
            let py = ((y - sy) / sty) as usize;
            let ghost ph = pass_size(hi, sy as int, sty as int);
            proof {
                lemma_gather_index(px as int, py as int, pw as int, ph, b, 0);
                assert(passes@[pi as int]@.len() == pw * b * ph);
                assert((py * pw + px) * b <= pw * b * ph);
                assert(py * pw <= py * pw + px);
                assert(0 <= py * pw) by (nonlinear_arith)
                    requires
                        0 <= py,
                        0 <= pw,
                ;
                assert(py * pw + px <= (py * pw + px) * b) by (nonlinear_arith)
                    requires
                        b >= 1,
                        py * pw + px >= 0,
                ;
            }
            let plen = passes[pi].len();
            assert(plen == pw * b * ph);
            let base = (py * (pw as usize) + px) * bpp;
            let mut k: usize = 0;
            while k < bpp
                invariant
                    acc == pass_views(passes@),
                    passes@.len() == 7,
                    pi < 7,
                    passes@[pi as int]@.len() == pw * b * ph,
                    plen == pw * b * ph,
                    base == (py * pw + px) * b,
                    0 <= px < pw,
                    0 <= py < ph,
                    wi == width as int,
                    hi == height as int,
                    b == bpp as int,
                    b >= 1,
                    y < height,
                    x < width,
                    pi == pass_of(x as int, y as int),
                    (sx as int, sy as int, stx as int, sty as int) == adam7_pass(pi as int),
                    pw == pass_size(wi, sx as int, stx as int),
                    px == (x - sx) / (stx as int),
                    py == (y - sy) / (sty as int),
                    k <= bpp,
                    out@.len() == (y * wi + x) * b + k,
                    forall|j: int| 0 <= j < out@.len() ==> #[trigger] out@[j] == adam7_byte(acc, wi, hi, b, j),
                decreases bpp - k,
            {
                proof {
                    lemma_gather_index(px as int, py as int, pw as int, ph, b, k as int);
                }
                let v = passes[pi][base + k];
                proof {
                    let j = (y * wi + x) * b + k;
                    unfilter::lemma_row_col(y * wi + x, k as int, b);
                    unfilter::lemma_row_col(y as int, x as int, wi);
                    assert(j / b == y * wi + x);
                    assert(acc[pi as int] == passes@[pi as int]@);
                    assert(v == adam7_byte(acc, wi, hi, b, j));
                }
                out.push(v);
                k = k + 1;
            }
            proof {
                assert((y * wi + x) * b + b == (y * wi + x + 1) * b) by (nonlinear_arith);
            }
            x = x + 1;
        }
        proof {
            assert((y * wi + wi) * b == (y + 1) * wi * b) by (nonlinear_arith);
        }
        y = y + 1;
    }
    proof {
        assert(y * wi * b == wi * hi * b) by (nonlinear_arith)
            requires
                y == hi,
        ;
        assert(out@ =~= adam7_image(acc, wi, hi, b));
        assert(adam7_passes(inf, wi, hi, b, 7, offset as int, acc, Ok(out@)));
    }
    Ok(out)
}

} // verus!
