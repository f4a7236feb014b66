//! Applying scanline filters when encoding.
use vstd::prelude::*;
use crate::octets;
use crate::octets::{paeth_predictor, sub_mod256};
use super::types::PngFilterStrategy;
use super::unfilter;

verus! {

/// The byte filter type `t` predicts from the left, upper and upper-left
/// bytes.
pub open spec fn predictor(t: u8, left: u8, up: u8, up_left: u8) -> u8 {
    if t == 0 {
        0
    } else if t == 1 {
        left
    } else if t == 2 {
        up
    } else if t == 3 {
        ((left + up) / 2) as u8
    } else {
        octets::paeth(left, up, up_left)
    }
}

/// A row filtered with type `t` against the previous row, `bpp` bytes per
/// pixel; bytes left of the row and the row above the first are zero.
pub open spec fn filtered(row: Seq<u8>, prev: Seq<u8>, bpp: int, t: u8) -> Seq<u8> {
    Seq::new(row.len(), |i: int| {
        let left = if i >= bpp { row[i - bpp] } else { 0u8 };
        let up_left = if i >= bpp { prev[i - bpp] } else { 0u8 };
        ((row[i] - predictor(t, left, prev[i], up_left) + 256) % 256) as u8
    })
}

/// The filter-type byte of a strategy; `Adaptive` names none by itself.
pub open spec fn strategy_byte(s: PngFilterStrategy) -> u8 {
    match s {
        PngFilterStrategy::NoFilter => 0,
        PngFilterStrategy::Sub => 1,
        PngFilterStrategy::Up => 2,
        PngFilterStrategy::Average => 3,
        PngFilterStrategy::Paeth => 4,
        PngFilterStrategy::Adaptive => 0,
    }
}

impl PngFilterStrategy {
    /// The filter-type byte of the strategy.
    pub fn byte(self) -> (r: u8)
        ensures
            r == strategy_byte(self),
    {
        match self {
            PngFilterStrategy::NoFilter => 0,
            PngFilterStrategy::Sub => 1,
            PngFilterStrategy::Up => 2,
            PngFilterStrategy::Average => 3,
            PngFilterStrategy::Paeth => 4,
            PngFilterStrategy::Adaptive => 0,
        }
    }
}

/// The size of a filtered byte read as a signed value.
pub open spec fn byte_cost(b: u8) -> int {
    if b < 128 { b as int } else { 256 - b }
}

/// The sum of the byte costs of the first `n` bytes.
pub open spec fn cost(s: Seq<u8>, n: int) -> int
    decreases n,
{
    if n <= 0 { 0 } else { cost(s, n - 1) + byte_cost(s[n - 1]) }
}

/// The best of filter types `0..n`: the first whose cost is below that of
/// every earlier one, starting from a best cost of `u64::MAX`.
pub open spec fn best_of(row: Seq<u8>, prev: Seq<u8>, bpp: int, n: int) -> (u8, int)
    decreases n,
{
    if n <= 0 {
        (0u8, u64::MAX as int)
    } else {
        let (bt, bs) = best_of(row, prev, bpp, n - 1);
        let s = cost(filtered(row, prev, bpp, (n - 1) as u8), row.len() as int);
        if s < bs { ((n - 1) as u8, s) } else { (bt, bs) }
    }
}

/// The filter type and filtered bytes the encoder writes for a row.
pub open spec fn filter_row_value(row: Seq<u8>, prev: Seq<u8>, bpp: int, s: PngFilterStrategy) -> (u8, Seq<u8>) {
    let t = if s == PngFilterStrategy::Adaptive { best_of(row, prev, bpp, 5).0 } else { strategy_byte(s) };
    (t, filtered(row, prev, bpp, t))
}

/// Filters a row with filter type `t`.
fn filter_with(row: &[u8], previous_row: &[u8], bpp: usize, t: u8) -> (r: Vec<u8>)
    requires
        previous_row@.len() >= row@.len(),
    ensures
        r@ == filtered(row@, previous_row@, bpp as int, t),
{
    let mut out: Vec<u8> = Vec::new();
    let mut column: usize = 0;
    while column < row.len()
        invariant
            previous_row@.len() >= row@.len(),
            column <= row@.len(),
            out@.len() == column,
            forall|k: int| 0 <= k < column ==> #[trigger] out@[k] == filtered(row@, previous_row@, bpp as int, t)[k],
        decreases row@.len() - column,
    {
        let raw = row[column];
        let left: u8 = if column >= bpp { row[column - bpp] } else { 0 };
        let up = previous_row[column];
        let up_left: u8 = if column >= bpp { previous_row[column - bpp] } else { 0 };
        let predicted: u8 = if t == 0 {
            0
        } else if t == 1 {
            left
        } else if t == 2 {
            up
        } else if t == 3 {
            ((left as u16 + up as u16) / 2) as u8
        } else {
            paeth_predictor(left, up, up_left)
        };
        out.push(sub_mod256(raw, predicted));
        column = column + 1;
    }
    assert(out@ =~= filtered(row@, previous_row@, bpp as int, t));
    out
}

proof fn lemma_cost_bound(s: Seq<u8>, n: int)
    requires
        0 <= n <= s.len(),
    ensures
        0 <= cost(s, n) <= 128 * n,
    decreases n,
{
    if n > 0 {
        lemma_cost_bound(s, n - 1);
    }
}

/// The sum of the byte costs of a filtered row.
fn row_cost(filtered_row: &Vec<u8>) -> (r: u64)
    requires
        filtered_row@.len() <= 0x8_0000_0000,
    ensures
        r == cost(filtered_row@, filtered_row@.len() as int),
{
    let mut total: u64 = 0;
    let mut i: usize = 0;
    while i < filtered_row.len()
        invariant
            filtered_row@.len() <= 0x8_0000_0000,
            i <= filtered_row@.len(),
            total == cost(filtered_row@, i as int),
        decreases filtered_row@.len() - i,
    {
        proof {
            lemma_cost_bound(filtered_row@, i as int);
        }
        let b = filtered_row[i];
        let c: u64 = if b < 128 { b as u64 } else { 256 - b as u64 };
        total = total + c;
        i = i + 1;
    }
    total
}

/// Filters a row with the strategy; `Adaptive` tries types 0 to 4 in turn
/// and keeps the first with the smallest cost.
pub fn filter_row(row: &[u8], previous_row: &[u8], filter_bytes_per_pixel: usize, filter_strategy: PngFilterStrategy) -> (r: (u8, Vec<u8>))
    requires
        previous_row@.len() >= row@.len(),
        row@.len() <= 0x8_0000_0000,
    ensures
        (r.0, r.1@) == filter_row_value(row@, previous_row@, filter_bytes_per_pixel as int, filter_strategy),
{
    let bpp = filter_bytes_per_pixel;
    match filter_strategy {
        PngFilterStrategy::Adaptive => {
            let mut best_filter: u8 = 0;
            let mut best_row: Vec<u8> = Vec::new();
            let mut best_score: u64 = u64::MAX;
            let mut t: u8 = 0;
            while t < 5
                invariant
                    previous_row@.len() >= row@.len(),
                    row@.len() <= 0x8_0000_0000,
                    t <= 5,
                    (best_filter, best_score as int) == best_of(row@, previous_row@, bpp as int, t as int),
                    t > 0 ==> best_row@ == filtered(row@, previous_row@, bpp as int, best_filter),
                    t > 0 ==> best_score < u64::MAX,
                decreases 5 - t,
            {
                let candidate = filter_with(row, previous_row, bpp, t);
                let score = row_cost(&candidate);
                proof {
                    lemma_cost_bound(candidate@, candidate@.len() as int);
                }
                if score < best_score {
                    best_filter = t;
                    best_score = score;
                    best_row = candidate;
                }
                t = t + 1;
            }
            (best_filter, best_row)
        },
        _ => {
            let t = filter_strategy.byte();
            (t, filter_with(row, previous_row, bpp, t))
        },
    }
}

/// A row of `rl` zero bytes.
pub open spec fn zero_row(rl: int) -> Seq<u8> {
    Seq::new(rl as nat, |i: int| 0u8)
}

/// Row `k` of the pixels, `rl` bytes each.
pub open spec fn row_at(p: Seq<u8>, rl: int, k: int) -> Seq<u8> {
    p.subrange(k * rl, k * rl + rl)
}

/// The row above row `k`: zeros above the first.
pub open spec fn prev_row_at(p: Seq<u8>, rl: int, k: int) -> Seq<u8> {
    if k == 0 { zero_row(rl) } else { row_at(p, rl, k - 1) }
}

/// The filtered scanlines of the first `k` rows, each a type byte and the
/// filtered row.
pub open spec fn scanlines_filtered(p: Seq<u8>, rl: int, bpp: int, s: PngFilterStrategy, k: int) -> Seq<u8>
    decreases k,
{
    if k <= 0 {
        Seq::empty()
    } else {
        let (t, f) = filter_row_value(row_at(p, rl, k - 1), prev_row_at(p, rl, k - 1), bpp, s);
        scanlines_filtered(p, rl, bpp, s, k - 1).push(t) + f
    }
}

/// Filters every complete row of `row_len` bytes; `height` is only a hint.
pub fn filter_scanlines(pixels: &[u8], height: usize, row_len: usize, filter_bytes_per_pixel: usize, filter_strategy: PngFilterStrategy) -> (r: Vec<u8>)
    requires
        0 < row_len <= 0x8_0000_0000,
    ensures
        r@ == scanlines_filtered(pixels@, row_len as int, filter_bytes_per_pixel as int, filter_strategy, (pixels@.len() as int) / (row_len as int)),
{
    let plen = pixels.len();
    let n = plen / row_len;
    let mut scanlines: Vec<u8> = Vec::new();
    let mut previous_row: Vec<u8> = Vec::new();
    let mut j: usize = 0;
    while j < row_len
        invariant
            j <= row_len,
            previous_row@.len() == j,
            forall|k: int| 0 <= k < j ==> #[trigger] previous_row@[k] == 0u8,
        decreases row_len - j,
    {
        previous_row.push(0);
        j = j + 1;
    }
    assert(previous_row@ =~= zero_row(row_len as int));
    let mut i: usize = 0;
    while i < n
        invariant
            0 < row_len <= 0x8_0000_0000,
            plen == pixels@.len(),
            n == (pixels@.len() as int) / (row_len as int),
            i <= n,
            previous_row@ == prev_row_at(pixels@, row_len as int, i as int),
            previous_row@.len() == row_len,
            scanlines@ == scanlines_filtered(pixels@, row_len as int, filter_bytes_per_pixel as int, filter_strategy, i as int),
        decreases n - i,
    {
        assert((i + 1) * row_len <= pixels@.len()) by (nonlinear_arith)
            requires
                i < n,
                n == (pixels@.len() as int) / (row_len as int),
                row_len > 0,
        ;
        assert(i * row_len + row_len == (i + 1) * row_len) by (nonlinear_arith);
        let start = i * row_len;
        let row = &pixels[start..start + row_len];
        assert(row@ == row_at(pixels@, row_len as int, i as int));
        let (t, f) = filter_row(row, previous_row.as_slice(), filter_bytes_per_pixel, filter_strategy);
        scanlines.push(t);
        octets::extend_bytes(&mut scanlines, f.as_slice());
        previous_row = vstd::slice::slice_to_vec(row);
        i = i + 1;
    }
    scanlines
}

/// Every filter type the encoder picks is at most 4.
proof fn lemma_row_type_valid(row: Seq<u8>, prev: Seq<u8>, bpp: int, s: PngFilterStrategy)
    ensures
        filter_row_value(row, prev, bpp, s).0 <= 4,
        filter_row_value(row, prev, bpp, s).1.len() == row.len(),
{
    lemma_best_of_valid(row, prev, bpp, 5);
}

proof fn lemma_best_of_valid(row: Seq<u8>, prev: Seq<u8>, bpp: int, n: int)
    requires
        n <= 5,
    ensures
        best_of(row, prev, bpp, n).0 <= 4,
    decreases n,
{
    if n > 0 {
        lemma_best_of_valid(row, prev, bpp, n - 1);
    }
}

/// Where the type byte and the filtered bytes of each row lie.
proof fn lemma_scanline_layout(p: Seq<u8>, rl: int, bpp: int, s: PngFilterStrategy, k: int)
    requires
        rl > 0,
        0 <= k,
        k * rl <= p.len(),
    ensures
        scanlines_filtered(p, rl, bpp, s, k).len() == k * (rl + 1),
        forall|r: int| 0 <= r < k ==> {
            let sf = scanlines_filtered(p, rl, bpp, s, k);
            let (t, f) = #[trigger] filter_row_value(row_at(p, rl, r), prev_row_at(p, rl, r), bpp, s);
            &&& sf[r * (rl + 1)] == t
            &&& t <= 4
            &&& f.len() == rl
            &&& forall|c: int| 0 <= c < rl ==> sf[r * (rl + 1) + 1 + c] == #[trigger] f[c]
        },
    decreases k,
{
    if k > 0 {
        assert((k - 1) * rl <= k * rl) by (nonlinear_arith)
            requires
                rl > 0,
                k > 0,
        ;
        lemma_scanline_layout(p, rl, bpp, s, k - 1);
        let prev_sf = scanlines_filtered(p, rl, bpp, s, k - 1);
        let sf = scanlines_filtered(p, rl, bpp, s, k);
        let row = row_at(p, rl, k - 1);
        assert(row.len() == rl) by {
            assert((k - 1) * rl + rl == k * rl) by (nonlinear_arith);
        }
        lemma_row_type_valid(row, prev_row_at(p, rl, k - 1), bpp, s);
        assert((k - 1) * (rl + 1) + rl + 1 == k * (rl + 1)) by (nonlinear_arith);
        assert forall|r: int| 0 <= r < k implies {
            let (t, f) = #[trigger] filter_row_value(row_at(p, rl, r), prev_row_at(p, rl, r), bpp, s);
            &&& sf[r * (rl + 1)] == t
            &&& t <= 4
            &&& f.len() == rl
            &&& forall|c: int| 0 <= c < rl ==> sf[r * (rl + 1) + 1 + c] == #[trigger] f[c]
        } by {
            lemma_row_type_valid(row_at(p, rl, r), prev_row_at(p, rl, r), bpp, s);
            if r < k - 1 {
                assert(r * (rl + 1) + rl < (k - 1) * (rl + 1)) by (nonlinear_arith)
                    requires
                        r < k - 1,
                        rl > 0,
                ;
                assert(row_at(p, rl, r).len() == rl) by {
                    assert(r * rl + rl <= k * rl) by (nonlinear_arith)
                        requires
                            r < k,
                            rl > 0,
                    ;
                }
            }
        }
    }
}

/// No row of the filtered scanlines has a filter type above 4.
proof fn lemma_no_bad_row(p: Seq<u8>, rl: int, bpp: int, s: PngFilterStrategy, h: int, r: int)
    requires
        rl > 0,
        0 <= r <= h,
        h * rl <= p.len(),
    ensures
        unfilter::first_bad_row(scanlines_filtered(p, rl, bpp, s, h), rl, h, r) == h,
    decreases h - r,
{
    if r < h {
        lemma_scanline_layout(p, rl, bpp, s, h);
        let _ = filter_row_value(row_at(p, rl, r), prev_row_at(p, rl, r), bpp, s);
        lemma_no_bad_row(p, rl, bpp, s, h, r + 1);
    }
}

/// Reversing one filtered byte gives the byte back.
proof fn lemma_unfilter_byte(t: u8, raw: u8, left: u8, up: u8, up_left: u8)
    requires
        t <= 4,
    ensures
        unfilter::unfilter_byte(t, ((raw - predictor(t, left, up, up_left) + 256) % 256) as u8, left, up, up_left) == raw,
{
    let pr = predictor(t, left, up, up_left);
    octets::lemma_add_sub_mod256(raw, pr);
}

/// The first `k` reconstructed bytes are the first `k` pixel bytes.
proof fn lemma_unfiltered_prefix(p: Seq<u8>, rl: int, bpp: int, s: PngFilterStrategy, h: int, k: int)
    requires
        rl > 0,
        bpp >= 1,
        h >= 0,
        p.len() == rl * h,
        0 <= k <= rl * h,
    ensures
        unfilter::unfiltered(scanlines_filtered(p, rl, bpp, s, h), rl, bpp, k) == p.subrange(0, k),
    decreases k,
{
    let sf = scanlines_filtered(p, rl, bpp, s, h);
    if k > 0 {
        lemma_unfiltered_prefix(p, rl, bpp, s, h, k - 1);
        unfilter::lemma_unfiltered_len(sf, rl, bpp, k - 1);
        let i = k - 1;
        let row = i / rl;
        let col = i % rl;
        vstd::arithmetic::div_mod::lemma_fundamental_div_mod(i, rl);
        assert(0 <= col < rl);
        assert(0 <= row < h) by (nonlinear_arith)
            requires
                i == rl * row + col,
                0 <= col < rl,
                0 <= i < rl * h,
                rl > 0,
        ;
        assert(i == row * rl + col) by (nonlinear_arith)
            requires
                i == rl * row + col,
        ;
        assert(h * rl == rl * h) by (nonlinear_arith);
        lemma_scanline_layout(p, rl, bpp, s, h);
        let (t, f) = filter_row_value(row_at(p, rl, row), prev_row_at(p, rl, row), bpp, s);
        assert(sf[row * (rl + 1)] == t);
        assert(sf[row * (rl + 1) + 1 + col] == f[col]);
        assert(row * rl + rl <= rl * h) by (nonlinear_arith)
            requires
                row < h,
                rl > 0,
        ;
        let cur = row_at(p, rl, row);
        assert(cur[col] == p[i]);
        if col >= bpp {
            assert(cur[col - bpp] == p[i - bpp]);
        }
        if row > 0 {
            let pr = row_at(p, rl, row - 1);
            assert((row - 1) * rl + rl == row * rl) by (nonlinear_arith);
            assert(pr[col] == p[i - rl]);
            if col >= bpp {
                assert(pr[col - bpp] == p[i - rl - bpp]);
            }
        }
        let left = if col >= bpp { p[i - bpp] } else { 0u8 };
        let up = if row > 0 { p[i - rl] } else { 0u8 };
        let up_left = if row > 0 && col >= bpp { p[i - rl - bpp] } else { 0u8 };
        assert(f[col] == ((p[i] - predictor(t, left, up, up_left) + 256) % 256) as u8);
        lemma_unfilter_byte(t, p[i], left, up, up_left);
        assert(unfilter::unfiltered(sf, rl, bpp, k) =~= p.subrange(0, k));
    }
}

/// Reconstructing the filtered scanlines of whole rows gives the pixels
/// back, whatever the filter strategy.
pub proof fn lemma_filter_roundtrip(p: Seq<u8>, rl: int, bpp: int, s: PngFilterStrategy, h: int)
    requires
        rl > 0,
        bpp >= 1,
        h >= 0,
        p.len() == rl * h,
    ensures
        unfilter::scanlines_value(scanlines_filtered(p, rl, bpp, s, h), h, rl, bpp) == Ok::<Seq<u8>, super::types::PngParseError>(p),
{
    assert(h * rl <= p.len()) by (nonlinear_arith)
        requires
            p.len() == rl * h,
    ;
    lemma_scanline_layout(p, rl, bpp, s, h);
    lemma_no_bad_row(p, rl, bpp, s, h, 0);
    lemma_unfiltered_prefix(p, rl, bpp, s, h, rl * h);
    assert(rl * h == h * rl) by (nonlinear_arith);
    assert(p.subrange(0, rl * h) =~= p);
}

} // verus!
