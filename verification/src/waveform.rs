//! Waveform extractor: turns a decoder's raw interleaved stereo PCM stream
//! into a fixed-length normalized amplitude envelope.
//!
//! Each 4-byte unit of the stream is one stereo frame: two little-endian
//! signed 16-bit samples (left then right); a trailing partial frame is
//! ignored. The frames are divided into `num_bars` contiguous buckets with
//! drift-free integer bounds, each channel's root-mean-square magnitude is
//! taken per bucket, and the magnitudes are normalized against the value at
//! the 95th-percentile rank of all nonzero magnitudes, clamped, and passed
//! through a power-law response curve with exponent 9/5.
//!
//! Amplitudes are kept in fixed-point response units: `RESPONSE_SCALE`
//! stands for full scale (1.0).

use vstd::prelude::*;
use vstd::arithmetic::div_mod::{
    lemma_div_is_ordered, lemma_div_multiples_vanish, lemma_fundamental_div_mod, lemma_mod_bound,
};

verus! {

/// Fixed-point full scale: an amplitude of `RESPONSE_SCALE` stands for 1.0.
pub const RESPONSE_SCALE: u64 = 1000;

/// Normalized stereo peak pair, each channel in `0 ..= RESPONSE_SCALE`.
pub struct PeakPair {
    pub left: u32,
    pub right: u32,
}

/// The waveform peaks for one track: one `PeakPair` per requested bar.
pub struct WaveformData {
    pub peaks: Vec<PeakPair>,
}

/// The signed 16-bit value with little-endian bytes `lo`, `hi`.
pub open spec fn i16_val(lo: u8, hi: u8) -> int {
    if hi >= 128 {
        lo + 256 * hi - 65536
    } else {
        lo + 256 * hi
    }
}

/// Absolute value.
pub open spec fn abs_val(v: int) -> int {
    if v < 0 {
        -v
    } else {
        v
    }
}

/// Number of whole stereo frames in the stream.
pub open spec fn frame_count(raw: Seq<u8>) -> int {
    raw.len() as int / 4
}

/// Magnitude of frame `f`, channel `ch` (0 = left, 1 = right).
pub open spec fn mag(raw: Seq<u8>, f: int, ch: int) -> int {
    abs_val(i16_val(raw[4 * f + 2 * ch], raw[4 * f + 2 * ch + 1]))
}

/// Sum of squared magnitudes of channel `ch` over frames `lo .. hi`.
pub open spec fn sum_sq(raw: Seq<u8>, ch: int, lo: int, hi: int) -> int
    decreases hi - lo,
{
    if lo >= hi {
        0
    } else {
        sum_sq(raw, ch, lo, hi - 1) + mag(raw, hi - 1, ch) * mag(raw, hi - 1, ch)
    }
}

/// `r` is the integer square root of `v`: the greatest `r` with `r * r <= v`.
pub open spec fn is_isqrt(v: int, r: int) -> bool {
    0 <= r && r * r <= v && v < (r + 1) * (r + 1)
}

/// Integer square root (floor).
pub open spec fn isqrt(v: int) -> int
    decreases v,
{
    if v <= 0 {
        0
    } else {
        let p = isqrt(v - 1);
        if (p + 1) * (p + 1) <= v {
            p + 1
        } else {
            p
        }
    }
}

pub proof fn lemma_isqrt(v: int)
    requires
        v >= 0,
    ensures
        is_isqrt(v, isqrt(v)),
    decreases v,
{
    if v > 0 {
        lemma_isqrt(v - 1);
        let p = isqrt(v - 1);
        if (p + 1) * (p + 1) <= v {
            assert((p + 1) * (p + 1) < (p + 2) * (p + 2)) by (nonlinear_arith)
                requires p >= 0;
        }
    }
}

pub proof fn lemma_isqrt_unique(v: int, r1: int, r2: int)
    requires
        is_isqrt(v, r1),
        is_isqrt(v, r2),
    ensures
        r1 == r2,
{
    if r1 < r2 {
        assert((r1 + 1) * (r1 + 1) <= r2 * r2) by (nonlinear_arith)
            requires 0 <= r1 && r1 < r2;
    }
    if r2 < r1 {
        assert((r2 + 1) * (r2 + 1) <= r1 * r1) by (nonlinear_arith)
            requires 0 <= r2 && r2 < r1;
    }
}

/// Root-mean-square magnitude of channel `ch` over frames `lo .. hi`:
/// the integer square root of the mean squared magnitude; zero for an empty
/// bucket.
pub open spec fn bucket_rms(raw: Seq<u8>, ch: int, lo: int, hi: int) -> int {
    if lo >= hi {
        0
    } else {
        isqrt(sum_sq(raw, ch, lo, hi) / (hi - lo))
    }
}

/// Exec magnitude of the signed 16-bit little-endian sample `(lo, hi)`.
pub fn sample_mag(lo: u8, hi: u8) -> (r: u32)
    ensures
        r == abs_val(i16_val(lo, hi)),
        r <= 32768,
{
    let x: u32 = lo as u32 + 256 * (hi as u32);
    if hi >= 128 {
        65536 - x
    } else {
        x
    }
}

/// Exec integer square root by upward scan.
pub fn isqrt_u64(v: u64) -> (r: u64)
    requires
        v <= 0x4000_0000,
    ensures
        r == isqrt(v as int),
        r <= 32768,
{
    let mut r: u64 = 0;
    loop
        invariant
            v <= 0x4000_0000,
            r * r <= v,
            r <= 32768,
        ensures
            r * r <= v < (r + 1) * (r + 1),
            r <= 32768,
        decreases v - r * r,
    {
        let next = r + 1;
        assert(next * next <= 32769 * 32769) by (nonlinear_arith)
            requires next <= 32769;
        let sq = next * next;
        if sq > v {
            break;
        }
        assert(next <= 32768) by (nonlinear_arith)
            requires next * next <= 0x4000_0000 && next >= 1;
        assert(next * next > r * r) by (nonlinear_arith)
            requires r >= 0 && next == r + 1;
        r = next;
    }
    proof {
        lemma_isqrt(v as int);
        lemma_isqrt_unique(v as int, r as int, isqrt(v as int));
    }
    r
}

/// Fifth power.
pub open spec fn pow5(r: int) -> int {
    r * r * r * r * r
}

/// Ninth power.
pub open spec fn pow9(x: int) -> int {
    x * x * x * x * x * x * x * x * x
}

/// Fourth power of the response scale.
pub open spec fn scale4() -> int {
    (1000 * 1000 * 1000 * 1000) as int
}

/// `r` is the power-law response of `x`: the greatest `r` with
/// `r^5 * scale4 <= x^9`, which is `floor(scale * (x / scale)^(9/5))`.
pub open spec fn is_response(x: int, r: int) -> bool {
    0 <= r && pow5(r) * scale4() <= pow9(x) && pow9(x) < pow5(r + 1) * scale4()
}

/// Power-law response curve with exponent 9/5, searching upward from `r`.
pub open spec fn response_rec(x: int, r: int) -> int
    decreases 1000 - r when 0 <= r <= 1000
{
    if r >= 1000 {
        1000
    } else if pow5(r + 1) * scale4() > pow9(x) {
        r
    } else {
        response_rec(x, r + 1)
    }
}

/// Power-law response curve with exponent 9/5 on `0 ..= 1000` fixed-point
/// amplitudes: `response(x) = floor(1000 * (x / 1000)^(9/5))`.
pub open spec fn response(x: int) -> int {
    response_rec(x, 0)
}

pub proof fn lemma_pow5_monotone(a: int, b: int)
    requires
        0 <= a <= b,
    ensures
        pow5(a) <= pow5(b),
{
    assert(pow5(a) <= pow5(b)) by (nonlinear_arith)
        requires 0 <= a <= b;
}

pub proof fn lemma_response_rec(x: int, r: int)
    requires
        0 <= x <= 1000,
        0 <= r <= 1000,
        pow5(r) * scale4() <= pow9(x),
    ensures
        is_response(x, response_rec(x, r)),
        response_rec(x, r) <= 1000,
    decreases 1000 - r,
{
    if r >= 1000 {
        assert(pow9(x) <= pow9(1000)) by (nonlinear_arith)
            requires 0 <= x <= 1000;
        assert(pow9(1000) == pow5(1000) * scale4()) by (nonlinear_arith);
        assert(pow5(1000) * scale4() < pow5(1001) * scale4()) by (nonlinear_arith);
    } else if pow5(r + 1) * scale4() > pow9(x) {
    } else {
        lemma_response_rec(x, r + 1);
    }
}

pub proof fn lemma_response_unique(x: int, r1: int, r2: int)
    requires
        is_response(x, r1),
        is_response(x, r2),
    ensures
        r1 == r2,
{
    if r1 < r2 {
        lemma_pow5_monotone(r1 + 1, r2);
        assert(pow9(x) < pow5(r1 + 1) * scale4());
        assert(pow5(r1 + 1) * scale4() <= pow5(r2) * scale4()) by (nonlinear_arith)
            requires pow5(r1 + 1) <= pow5(r2) && scale4() > 0;
    }
    if r2 < r1 {
        lemma_pow5_monotone(r2 + 1, r1);
        assert(pow9(x) < pow5(r2 + 1) * scale4());
        assert(pow5(r2 + 1) * scale4() <= pow5(r1) * scale4()) by (nonlinear_arith)
            requires pow5(r2 + 1) <= pow5(r1) && scale4() > 0;
    }
}

/// Exec ninth power for fixed-point amplitudes.
fn pow9_u128(x: u64) -> (r: u128)
    requires
        x <= 1000,
    ensures
        r == pow9(x as int),
{
    let x1: u128 = x as u128;
    assert(x1 * x1 <= 1_000_000) by (nonlinear_arith)
        requires x1 <= 1000;
    let x2 = x1 * x1;
    assert(x2 * x1 <= 1_000_000_000) by (nonlinear_arith)
        requires x2 <= 1_000_000 && x1 <= 1000;
    let x3 = x2 * x1;
    assert(x3 * x3 <= 1_000_000_000_000_000_000) by (nonlinear_arith)
        requires x3 <= 1_000_000_000;
    let x6 = x3 * x3;
    assert(x6 * x3 <= 1_000_000_000_000_000_000_000_000_000) by (nonlinear_arith)
        requires x6 <= 1_000_000_000_000_000_000 && x3 <= 1_000_000_000;
    let x9 = x6 * x3;
    assert(x9 == pow9(x as int)) by (nonlinear_arith)
        requires
            x2 == x1 * x1,
            x3 == x2 * x1,
            x6 == x3 * x3,
            x9 == x6 * x3,
            x1 == x,
    ;
    x9
}

/// Exec fifth power for response values.
fn pow5_u128(r: u64) -> (p: u128)
    requires
        r <= 1001,
    ensures
        p == pow5(r as int),
{
    let r1: u128 = r as u128;
    assert(r1 * r1 <= 1_002_001) by (nonlinear_arith)
        requires r1 <= 1001;
    let r2 = r1 * r1;
    assert(r2 * r2 <= 1_004_006_004_001) by (nonlinear_arith)
        requires r2 <= 1_002_001;
    let r4 = r2 * r2;
    assert(r4 * r1 <= 1_005_010_010_005_001_001) by (nonlinear_arith)
        requires r4 <= 1_004_006_004_001 && r1 <= 1001;
    let p = r4 * r1;
    assert(p == pow5(r as int)) by (nonlinear_arith)
        requires
            r2 == r1 * r1,
            r4 == r2 * r2,
            p == r4 * r1,
            r1 == r,
    ;
    p
}

/// Exec power-law response curve.
pub fn response_curve(x: u64) -> (r: u32)
    requires
        x <= 1000,
    ensures
        r == response(x as int),
        r <= 1000,
{
    let x9 = pow9_u128(x);
    proof {
        assert(pow5(0) == 0);
        assert(pow9(x as int) >= 0) by (nonlinear_arith)
            requires x >= 0;
        assert(pow5(0int) * scale4() == 0) by (nonlinear_arith);
    }
    let mut r: u64 = 0;
    while r < 1000
        invariant
            x <= 1000,
            x9 == pow9(x as int),
            r <= 1000,
            pow5(r as int) * scale4() <= pow9(x as int),
        decreases 1000 - r,
    {
        let p = pow5_u128(r + 1);
        proof {
            lemma_pow5_monotone(r as int + 1, 1001);
            assert(pow5(r as int + 1) >= 0) by (nonlinear_arith)
                requires r >= 0;
            assert(pow5(1001) <= 2_000_000_000_000_000_000) by (nonlinear_arith);
            assert(p * 1_000_000_000_000 <= 2_000_000_000_000_000_000 * 1_000_000_000_000)
                by (nonlinear_arith)
                requires p <= 2_000_000_000_000_000_000;
        }
        if p * 1_000_000_000_000u128 > x9 {
            proof {
                lemma_response_rec(x as int, 0);
                lemma_response_unique(x as int, r as int, response(x as int));
            }
            return r as u32;
        }
        r = r + 1;
    }
    proof {
        assert(pow9(x as int) <= pow9(1000)) by (nonlinear_arith)
            requires 0 <= x <= 1000;
        assert(pow9(1000) < pow5(1001) * scale4()) by (nonlinear_arith);
        lemma_response_rec(x as int, 0);
        lemma_response_unique(x as int, r as int, response(x as int));
    }
    1000
}

/// First frame of bucket `i` when `n` frames fill `bars` buckets.
pub open spec fn bucket_lo(n: int, bars: int, i: int) -> int {
    i * n / bars
}

/// One past the last frame of bucket `i`.
pub open spec fn bucket_hi(n: int, bars: int, i: int) -> int {
    (i + 1) * n / bars
}

/// Raw root-mean-square magnitude of bar `i`, channel `ch`.
pub open spec fn peak_mag(raw: Seq<u8>, bars: int, i: int, ch: int) -> int {
    bucket_rms(
        raw,
        ch,
        bucket_lo(frame_count(raw), bars, i),
        bucket_hi(frame_count(raw), bars, i),
    )
}

/// The normalization pool: all nonzero magnitudes of bars `0 .. k`, left then
/// right for each bar, in bar order.
pub open spec fn pool_of(raw: Seq<u8>, bars: int, k: int) -> Seq<int>
    decreases k,
{
    if k <= 0 {
        Seq::empty()
    } else {
        let l = peak_mag(raw, bars, k - 1, 0);
        let r = peak_mag(raw, bars, k - 1, 1);
        pool_of(raw, bars, k - 1) + (if l > 0 {
            seq![l]
        } else {
            Seq::empty()
        }) + (if r > 0 {
            seq![r]
        } else {
            Seq::empty()
        })
    }
}

/// Insertion of `x` into a sorted sequence, after every entry not greater.
pub open spec fn insert_int(s: Seq<int>, x: int) -> Seq<int>
    decreases s.len(),
{
    if s.len() == 0 {
        seq![x]
    } else if s.last() <= x {
        s.push(x)
    } else {
        insert_int(s.drop_last(), x).push(s.last())
    }
}

/// Insertion sort, ascending.
pub open spec fn sort_ints(s: Seq<int>) -> Seq<int>
    decreases s.len(),
{
    if s.len() == 0 {
        Seq::empty()
    } else {
        insert_int(sort_ints(s.drop_last()), s.last())
    }
}

/// Non-decreasing.
pub open spec fn int_sorted(s: Seq<int>) -> bool {
    forall|i: int, j: int| 0 <= i <= j < s.len() ==> s[i] <= s[j]
}

/// The 95th-percentile rank of a pool of `n` values.
pub open spec fn pct_index(n: int) -> int {
    let i = 95 * n / 100;
    if i > n - 1 {
        n - 1
    } else {
        i
    }
}

/// The normalization reference: the value at the 95th-percentile rank of the
/// sorted pool, or 1 for an empty pool.
pub open spec fn ref_mag(pool: Seq<int>) -> int {
    if pool.len() == 0 {
        1
    } else {
        sort_ints(pool)[pct_index(pool.len() as int)]
    }
}

/// A magnitude scaled by the reference into fixed-point units and clamped to
/// full scale.
pub open spec fn norm_clamp(m: int, r: int) -> int {
    let v = m * 1000 / r;
    if v > 1000 {
        1000
    } else {
        v
    }
}

/// The finished amplitude of bar `i`, channel `ch`: the bucket's RMS
/// magnitude, normalized against the pool reference, clamped, and passed
/// through the power-law response curve.
pub open spec fn final_peak(raw: Seq<u8>, bars: int, i: int, ch: int) -> int {
    response(norm_clamp(peak_mag(raw, bars, i, ch), ref_mag(pool_of(raw, bars, bars))))
}

/// Number of pool entries strictly above `v`.
pub open spec fn count_gt(s: Seq<int>, v: int) -> int
    decreases s.len(),
{
    if s.len() == 0 {
        0
    } else {
        count_gt(s.drop_last(), v) + if s.last() > v {
            1int
        } else {
            0int
        }
    }
}

pub proof fn lemma_count_gt_bounds(s: Seq<int>, v: int)
    ensures
        0 <= count_gt(s, v) <= s.len(),
    decreases s.len(),
{
    if s.len() > 0 {
        lemma_count_gt_bounds(s.drop_last(), v);
    }
}

/// Every entry of an insertion result is the inserted value or an original
/// entry.
pub proof fn lemma_insert_int_entries(s: Seq<int>, x: int)
    ensures
        forall|q: int|
            0 <= q < insert_int(s, x).len() ==> (#[trigger] insert_int(s, x)[q] == x || exists|
                p: int,
            | 0 <= p < s.len() && insert_int(s, x)[q] == s[p]),
    decreases s.len(),
{
    if s.len() == 0 {
    } else if s.last() <= x {
    } else {
        lemma_insert_int_entries(s.drop_last(), x);
        let t = insert_int(s.drop_last(), x);
        assert forall|q: int| 0 <= q < t.push(s.last()).len() implies (#[trigger] t.push(s.last())[q]
            == x || exists|p: int| 0 <= p < s.len() && t.push(s.last())[q] == s[p]) by {
            if q < t.len() {
                if t[q] != x {
                    let p = choose|p: int| 0 <= p < s.drop_last().len() && t[q] == s.drop_last()[p];
                    assert(t.push(s.last())[q] == s[p]);
                }
            } else {
                assert(t.push(s.last())[q] == s[s.len() - 1]);
            }
        }
    }
}

pub proof fn lemma_insert_int_sorted(s: Seq<int>, x: int)
    requires
        int_sorted(s),
    ensures
        int_sorted(insert_int(s, x)),
        insert_int(s, x).len() == s.len() + 1,
    decreases s.len(),
{
    if s.len() == 0 {
    } else if s.last() <= x {
    } else {
        assert(forall|i: int, j: int|
            0 <= i <= j < s.drop_last().len() ==> s.drop_last()[i] <= s.drop_last()[j]);
        lemma_insert_int_sorted(s.drop_last(), x);
        lemma_insert_int_entries(s.drop_last(), x);
        let t = insert_int(s.drop_last(), x);
        assert forall|i: int, j: int| 0 <= i <= j < t.push(s.last()).len() implies t.push(
            s.last(),
        )[i] <= t.push(s.last())[j] by {
            if j == t.len() && i < t.len() {
                assert(t[i] == x || exists|p: int|
                    0 <= p < s.drop_last().len() && t[i] == s.drop_last()[p]);
                if t[i] != x {
                    let p = choose|p: int|
                        0 <= p < s.drop_last().len() && t[i] == s.drop_last()[p];
                    assert(s.drop_last()[p] == s[p]);
                }
            }
        }
    }
}

pub proof fn lemma_sort_ints_sorted(s: Seq<int>)
    ensures
        int_sorted(sort_ints(s)),
        sort_ints(s).len() == s.len(),
    decreases s.len(),
{
    if s.len() > 0 {
        lemma_sort_ints_sorted(s.drop_last());
        lemma_insert_int_sorted(sort_ints(s.drop_last()), s.last());
    }
}

pub proof fn lemma_sort_ints_entries(s: Seq<int>)
    ensures
        forall|q: int|
            0 <= q < sort_ints(s).len() ==> exists|p: int|
                0 <= p < s.len() && #[trigger] sort_ints(s)[q] == s[p],
    decreases s.len(),
{
    if s.len() > 0 {
        lemma_sort_ints_entries(s.drop_last());
        lemma_insert_int_entries(sort_ints(s.drop_last()), s.last());
        let t = sort_ints(s);
        assert forall|q: int| 0 <= q < t.len() implies exists|p: int|
            0 <= p < s.len() && #[trigger] t[q] == s[p] by {
            if t[q] == s.last() {
                assert(t[q] == s[s.len() - 1]);
            } else {
                let u = choose|u: int|
                    0 <= u < sort_ints(s.drop_last()).len() && t[q] == sort_ints(s.drop_last())[u];
                let p = choose|p: int|
                    0 <= p < s.drop_last().len() && sort_ints(s.drop_last())[u] == s.drop_last()[p];
                assert(t[q] == s[p]);
            }
        }
    }
}

/// Sorted insertion at the scan position equals the stable insertion.
pub proof fn lemma_insert_int_characterize(s: Seq<int>, x: int, pos: int)
    requires
        int_sorted(s),
        0 <= pos <= s.len(),
        pos > 0 ==> s[pos - 1] <= x,
        forall|q: int| pos <= q < s.len() ==> s[q] > x,
    ensures
        insert_int(s, x) =~= s.take(pos) + seq![x] + s.skip(pos),
    decreases s.len(),
{
    if s.len() == 0 {
        assert(insert_int(s, x) =~= seq![x]);
    } else if s.last() <= x {
        assert(pos == s.len());
        assert(s.take(pos) =~= s);
        assert(s.skip(pos) =~= Seq::empty());
    } else {
        let d = s.drop_last();
        assert(pos <= d.len());
        assert(forall|i: int, j: int| 0 <= i <= j < d.len() ==> d[i] <= d[j]);
        assert(forall|q: int| pos <= q < d.len() ==> d[q] > x);
        lemma_insert_int_characterize(d, x, pos);
        assert(d.take(pos) =~= s.take(pos));
        assert((d.take(pos) + seq![x] + d.skip(pos)).push(s.last()) =~= s.take(pos) + seq![x]
            + s.skip(pos));
    }
}

pub proof fn lemma_insert_int_count(s: Seq<int>, x: int, v: int)
    ensures
        count_gt(insert_int(s, x), v) == count_gt(s, v) + if x > v {
            1int
        } else {
            0int
        },
    decreases s.len(),
{
    let delta: int = if x > v {
        1
    } else {
        0
    };
    if s.len() == 0 {
        let r = insert_int(s, x);
        assert(r == seq![x]);
        assert(r.drop_last() =~= Seq::<int>::empty());
        assert(r.last() == x);
        assert(count_gt(r, v) == count_gt(r.drop_last(), v) + delta);
        assert(count_gt(r, v) == delta);
    } else if s.last() <= x {
        let r = s.push(x);
        assert(r.drop_last() =~= s);
        assert(r.last() == x);
        assert(count_gt(r, v) == count_gt(s, v) + delta);
    } else {
        lemma_insert_int_count(s.drop_last(), x, v);
        let t = insert_int(s.drop_last(), x);
        let r = t.push(s.last());
        assert(r.drop_last() =~= t);
        assert(r.last() == s.last());
        assert(count_gt(r, v) == count_gt(t, v) + if s.last() > v {
            1int
        } else {
            0int
        });
        assert(count_gt(t, v) == count_gt(s.drop_last(), v) + delta);
        assert(count_gt(s, v) == count_gt(s.drop_last(), v) + if s.last() > v {
            1int
        } else {
            0int
        });
    }
}

pub proof fn lemma_sort_ints_count(s: Seq<int>, v: int)
    ensures
        count_gt(sort_ints(s), v) == count_gt(s, v),
    decreases s.len(),
{
    if s.len() > 0 {
        lemma_sort_ints_count(s.drop_last(), v);
        lemma_insert_int_count(sort_ints(s.drop_last()), s.last(), v);
    }
}

/// No entry of a sequence bounded by `v` exceeds `v`.
proof fn lemma_count_gt_zero(s: Seq<int>, v: int)
    requires
        forall|i: int| 0 <= i < s.len() ==> s[i] <= v,
    ensures
        count_gt(s, v) == 0,
    decreases s.len(),
{
    if s.len() > 0 {
        assert(forall|i: int| 0 <= i < s.drop_last().len() ==> s.drop_last()[i] <= v);
        lemma_count_gt_zero(s.drop_last(), v);
    }
}

/// In a sorted sequence, at most the entries after `idx` exceed the value at
/// `idx`.
pub proof fn lemma_sorted_count_above(s: Seq<int>, idx: int)
    requires
        int_sorted(s),
        0 <= idx < s.len(),
    ensures
        count_gt(s, s[idx]) <= s.len() - 1 - idx,
    decreases s.len(),
{
    if idx == s.len() - 1 {
        assert(forall|i: int| 0 <= i < s.len() ==> s[i] <= s[idx]);
        lemma_count_gt_zero(s, s[idx]);
    } else {
        let d = s.drop_last();
        assert(forall|i: int, j: int| 0 <= i <= j < d.len() ==> d[i] <= d[j]);
        assert(d[idx] == s[idx]);
        lemma_sorted_count_above(d, idx);
    }
}

/// At most one in twenty pool values lies strictly above the normalization
/// reference: the pre-clamp scaled value of at most 5% of the pool (by
/// count) exceeds full scale.
pub proof fn lemma_percentile_clip(pool: Seq<int>)
    requires
        pool.len() > 0,
    ensures
        20 * count_gt(pool, ref_mag(pool)) <= pool.len(),
{
    let n = pool.len() as int;
    let sorted = sort_ints(pool);
    let idx = pct_index(n);
    let r = ref_mag(pool);
    lemma_sort_ints_sorted(pool);
    lemma_sort_ints_count(pool, r);
    lemma_fundamental_div_mod(95 * n, 100);
    lemma_mod_bound(95 * n, 100);
    assert(100 * (95 * n / 100) >= 95 * n - 99);
    assert(95 * n / 100 >= 0) by {
        lemma_div_is_ordered(0, 95 * n, 100);
    }
    assert(0 <= idx < n);
    lemma_sorted_count_above(sorted, idx);
    lemma_count_gt_bounds(sorted, r);
    if idx == n - 1 {
        assert(count_gt(sorted, r) <= 0);
    } else {
        let t = 95 * n / 100;
        assert(idx == t);
        assert(count_gt(sorted, r) <= n - 1 - t);
        assert(100 * t >= 95 * n - 99);
        assert(2000 * t >= 1900 * n - 1980);
        assert(2000 * (n - 1 - t) <= 100 * n - 20) by (nonlinear_arith)
            requires 2000 * t >= 1900 * n - 1980;
        assert(20 * (n - 1 - t) < n) by (nonlinear_arith)
            requires 2000 * (n - 1 - t) <= 100 * n - 20;
        assert(20 * count_gt(sorted, r) <= 20 * (n - 1 - t)) by (nonlinear_arith)
            requires count_gt(sorted, r) <= n - 1 - t;
    }
}

/// A magnitude's scaled value exceeds full scale before clamping only when
/// the magnitude lies strictly above the reference, so `lemma_percentile_clip`
/// bounds the clamped samples: at most one in twenty.
pub proof fn lemma_clip_only_above_ref(m: int, r: int)
    requires
        r > 0,
        m >= 0,
    ensures
        m * 1000 / r > 1000 ==> m > r,
        m <= r ==> norm_clamp(m, r) == m * 1000 / r,
{
    if m <= r {
        assert(m * 1000 <= r * 1000) by (nonlinear_arith)
            requires m <= r;
        lemma_div_is_ordered(m * 1000, r * 1000, r);
        lemma_div_multiples_vanish(1000, r);
        assert((r * 1000) / r == 1000);
    }
}

/// All post-normalization amplitudes lie in `0 ..= RESPONSE_SCALE`.
pub proof fn lemma_response_range(x: int)
    requires
        0 <= x <= 1000,
    ensures
        0 <= response(x) <= 1000,
{
    assert(pow5(0int) * scale4() == 0) by (nonlinear_arith);
    assert(pow9(x) >= 0) by (nonlinear_arith)
        requires x >= 0;
    lemma_response_rec(x, 0);
}

/// Exec root-mean-square magnitude of channel `ch` over frames `lo .. hi`.
fn bucket_rms_exec(raw: &Vec<u8>, ch: usize, lo: usize, hi: usize) -> (r: u32)
    requires
        ch <= 1,
        lo <= hi,
        hi <= frame_count(raw@),
    ensures
        r == bucket_rms(raw@, ch as int, lo as int, hi as int),
        r <= 32768,
{
    if lo >= hi {
        return 0;
    }
    let total_bytes = raw.len();
    assert(total_bytes == raw@.len());
    let mut sum: u128 = 0;
    let mut f = lo;
    while f < hi
        invariant
            lo <= f <= hi <= frame_count(raw@),
            total_bytes == raw@.len(),
            ch <= 1,
            sum == sum_sq(raw@, ch as int, lo as int, f as int),
            sum <= (f - lo) * 0x4000_0000,
        decreases hi - f,
    {
        proof {
            assert(4 * (frame_count(raw@)) <= raw@.len()) by {
                lemma_fundamental_div_mod(raw@.len() as int, 4);
                lemma_mod_bound(raw@.len() as int, 4);
            }
        }
        assert(f < frame_count(raw@));
        assert(4 * f <= 4 * frame_count(raw@) - 4) by (nonlinear_arith)
            requires f < frame_count(raw@);
        assert(4 * f + 3 < raw@.len());
        let off = 4 * f + 2 * ch;
        let m = sample_mag(raw[off], raw[off + 1]);
        assert(m as int == mag(raw@, f as int, ch as int));
        assert(m * m <= 0x4000_0000) by (nonlinear_arith)
            requires m <= 32768;
        let mm: u128 = (m as u64 * m as u64) as u128;
        proof {
            assert((f - lo) * 0x4000_0000 <= (hi - lo) * 0x4000_0000) by (nonlinear_arith)
                requires f <= hi && lo <= f;
            assert((hi - lo) * 0x4000_0000 < 0x1_0000_0000_0000_0000_0000_0000) by (nonlinear_arith)
                requires hi - lo < 0x1_0000_0000_0000_0000;
        }
        sum = sum + mm;
        proof {
            assert(sum_sq(raw@, ch as int, lo as int, f + 1) == sum_sq(
                raw@,
                ch as int,
                lo as int,
                f as int,
            ) + mag(raw@, f as int, ch as int) * mag(raw@, f as int, ch as int));
        }
        f = f + 1;
    }
    let count: u128 = (hi - lo) as u128;
    let mean = sum / count;
    proof {
        lemma_div_is_ordered(sum as int, (hi - lo) * 0x4000_0000, (hi - lo) as int);
        lemma_div_multiples_vanish(0x4000_0000, (hi - lo) as int);
        assert(((hi - lo) as int * 0x4000_0000) / ((hi - lo) as int) == 0x4000_0000);
        assert(mean <= 0x4000_0000);
    }
    let r = isqrt_u64(mean as u64);
    assert(mean as int == sum_sq(raw@, ch as int, lo as int, hi as int) / (hi - lo));
    r as u32
}

/// Models of a pool vector.
pub open spec fn u64_ints(s: Seq<u64>) -> Seq<int> {
    s.map_values(|v: u64| v as int)
}

/// Sorts a magnitude pool ascending.
fn sort_pool(input: Vec<u64>) -> (out: Vec<u64>)
    ensures
        u64_ints(out@) == sort_ints(u64_ints(input@)),
{
    let ghost all = u64_ints(input@);
    let mut rest = input;
    let mut out: Vec<u64> = Vec::new();
    let mut done: usize = 0;
    let total: usize = rest.len();
    assert(u64_ints(rest@) =~= all.skip(0));
    assert(u64_ints(out@) =~= sort_ints(all.take(0)));
    while rest.len() > 0
        invariant
            done + rest@.len() == total,
            total == all.len(),
            u64_ints(out@) =~= sort_ints(all.take(done as int)),
            u64_ints(rest@) =~= all.skip(done as int),
            int_sorted(u64_ints(out@)),
        decreases rest@.len(),
    {
        let ghost out_pre = u64_ints(out@);
        let ghost rest_pre = rest@;
        let x = rest.remove(0);
        let ghost xi = x as int;
        proof {
            assert(u64_ints(rest_pre)[0] == rest_pre[0] as int);
            assert(all.skip(done as int)[0] == xi);
            assert(rest@ =~= rest_pre.skip(1));
            assert forall|q: int| 0 <= q < rest@.len() implies u64_ints(rest@)[q] == all.skip(
                done + 1,
            )[q] by {
                assert(rest@[q] == rest_pre[q + 1]);
                assert(u64_ints(rest_pre)[q + 1] == rest_pre[q + 1] as int);
                assert(all.skip(done as int)[q + 1] == all[done + 1 + q]);
            }
            assert(u64_ints(rest@) =~= all.skip(done + 1));
        }
        let mut pos = out.len();
        while pos > 0 && out[pos - 1] > x
            invariant
                0 <= pos <= out@.len(),
                out_pre == u64_ints(out@),
                xi == x as int,
                forall|q: int| pos <= q < out@.len() ==> out_pre[q] > xi,
            decreases pos,
        {
            assert(out_pre[pos - 1] == out@[pos - 1] as int);
            pos = pos - 1;
        }
        proof {
            if pos > 0 {
                assert(out_pre[pos - 1] == out@[pos - 1] as int);
            }
            lemma_insert_int_characterize(out_pre, xi, pos as int);
        }
        let ghost out_vec_pre = out@;
        out.insert(pos, x);
        proof {
            assert(out@ =~= out_vec_pre.take(pos as int) + seq![x] + out_vec_pre.skip(pos as int));
            assert forall|q: int| 0 <= q < out@.len() implies u64_ints(out@)[q] == (out_pre.take(
                pos as int,
            ) + seq![xi] + out_pre.skip(pos as int))[q] by {
                if q < pos {
                    assert(out@[q] == out_vec_pre[q]);
                    assert(u64_ints(out_vec_pre)[q] == out_vec_pre[q] as int);
                } else if q == pos {
                    assert(out@[q] == x);
                } else {
                    assert(out@[q] == out_vec_pre[q - 1]);
                    assert(u64_ints(out_vec_pre)[q - 1] == out_vec_pre[q - 1] as int);
                }
            }
            assert(u64_ints(out@) =~= out_pre.take(pos as int) + seq![xi] + out_pre.skip(
                pos as int,
            ));
            assert(u64_ints(out@) =~= insert_int(out_pre, xi));
            assert(all.take(done + 1).drop_last() =~= all.take(done as int));
            assert(all.take(done + 1).last() == all[done as int]);
            lemma_insert_int_sorted(out_pre, xi);
        }
        done = done + 1;
    }
    assert(all.take(done as int) =~= all);
    out
}

impl WaveformData {
    /// Extracts the normalized amplitude envelope of one decoded track.
    ///
    /// `raw` is the decoder's output: interleaved stereo frames of two
    /// little-endian signed 16-bit samples. Returns `None` exactly when the
    /// stream holds no whole frame or no bars were requested. On success the
    /// result holds one `PeakPair` per bar, each channel's value the bucket
    /// RMS magnitude normalized by the 95th-percentile reference, clamped to
    /// full scale, and shaped by the power-law response curve.
    pub fn from_raw(raw: &Vec<u8>, num_bars: usize) -> (r: Option<WaveformData>)
        ensures
            r is Some <==> (frame_count(raw@) > 0 && num_bars > 0),
            r matches Some(w) ==> {
                &&& w.peaks@.len() == num_bars
                &&& forall|i: int|
                    0 <= i < num_bars ==> {
                        &&& (#[trigger] w.peaks@[i]).left == final_peak(
                            raw@,
                            num_bars as int,
                            i,
                            0,
                        )
                        &&& w.peaks@[i].right == final_peak(raw@, num_bars as int, i, 1)
                        &&& w.peaks@[i].left <= 1000
                        &&& w.peaks@[i].right <= 1000
                    }
            },
    {
        let total = raw.len();
        let n_frames = total / 4;
        assert(n_frames == frame_count(raw@));
        if n_frames == 0 || num_bars == 0 {
            return None;
        }
        let bars = num_bars;
        let mut mags: Vec<(u32, u32)> = Vec::new();
        let mut i: usize = 0;
        while i < bars
            invariant
                i <= bars,
                bars == num_bars,
                bars > 0,
                n_frames == frame_count(raw@),
                mags@.len() == i,
                forall|j: int|
                    0 <= j < i ==> {
                        &&& (#[trigger] mags@[j]).0 == peak_mag(raw@, bars as int, j, 0)
                        &&& mags@[j].1 == peak_mag(raw@, bars as int, j, 1)
                        &&& mags@[j].0 <= 32768
                        &&& mags@[j].1 <= 32768
                    },
            decreases bars - i,
        {
            proof {
                let gi = i as int;
                let gn = n_frames as int;
                let gb = bars as int;
                assert(gi * gn <= 0xFFFF_FFFF_FFFF_FFFF * 0xFFFF_FFFF_FFFF_FFFF)
                    by (nonlinear_arith)
                    requires
                        0 <= gi <= 0xFFFF_FFFF_FFFF_FFFF,
                        0 <= gn <= 0xFFFF_FFFF_FFFF_FFFF,
                ;
                assert((gi + 1) * gn <= 0xFFFF_FFFF_FFFF_FFFF * 0xFFFF_FFFF_FFFF_FFFF)
                    by (nonlinear_arith)
                    requires
                        0 <= gi + 1 <= 0xFFFF_FFFF_FFFF_FFFF,
                        0 <= gn <= 0xFFFF_FFFF_FFFF_FFFF,
                ;
                assert(gi * gn <= (gi + 1) * gn) by (nonlinear_arith)
                    requires gn >= 0;
                lemma_div_is_ordered(gi * gn, (gi + 1) * gn, gb);
                assert((gi + 1) * gn <= gb * gn) by (nonlinear_arith)
                    requires gi + 1 <= gb && gn >= 0;
                lemma_div_is_ordered((gi + 1) * gn, gb * gn, gb);
                lemma_div_multiples_vanish(gn, gb);
                assert((gb * gn) / gb == gn);
                assert(gi * gn >= 0) by (nonlinear_arith)
                    requires gi >= 0 && gn >= 0;
                lemma_div_is_ordered(0, gi * gn, gb);
            }
            let lo128 = (i as u128) * (n_frames as u128) / (bars as u128);
            let hi128 = ((i + 1) as u128) * (n_frames as u128) / (bars as u128);
            let lo = lo128 as usize;
            let hi = hi128 as usize;
            assert(lo as int == bucket_lo(n_frames as int, bars as int, i as int));
            assert(hi as int == bucket_hi(n_frames as int, bars as int, i as int));
            let l = bucket_rms_exec(raw, 0, lo, hi);
            let r = bucket_rms_exec(raw, 1, lo, hi);
            assert(l == peak_mag(raw@, bars as int, i as int, 0));
            assert(r == peak_mag(raw@, bars as int, i as int, 1));
            mags.push((l, r));
            i = i + 1;
        }
        let mut pool: Vec<u64> = Vec::new();
        let mut k: usize = 0;
        while k < bars
            invariant
                k <= bars,
                bars == num_bars,
                bars > 0,
                n_frames == frame_count(raw@),
                mags@.len() == bars,
                forall|j: int|
                    0 <= j < bars ==> {
                        &&& (#[trigger] mags@[j]).0 == peak_mag(raw@, bars as int, j, 0)
                        &&& mags@[j].1 == peak_mag(raw@, bars as int, j, 1)
                        &&& mags@[j].0 <= 32768
                        &&& mags@[j].1 <= 32768
                    },
                u64_ints(pool@) =~= pool_of(raw@, bars as int, k as int),
                forall|q: int| 0 <= q < pool@.len() ==> 1 <= #[trigger] pool@[q] <= 32768,
            decreases bars - k,
        {
            let (l, r) = mags[k];
            let ghost p0 = pool@;
            let ghost gl = peak_mag(raw@, bars as int, k as int, 0);
            let ghost gr = peak_mag(raw@, bars as int, k as int, 1);
            let ghost a: Seq<int> = if gl > 0 {
                seq![gl]
            } else {
                Seq::empty()
            };
            let ghost b: Seq<int> = if gr > 0 {
                seq![gr]
            } else {
                Seq::empty()
            };
            if l > 0 {
                pool.push(l as u64);
            }
            if r > 0 {
                pool.push(r as u64);
            }
            proof {
                assert(l as int == gl && r as int == gr);
                assert forall|q: int| 0 <= q < pool@.len() implies u64_ints(pool@)[q] == (u64_ints(
                    p0,
                ) + a + b)[q] by {
                    if q < p0.len() {
                        assert(pool@[q] == p0[q]);
                        assert(u64_ints(p0)[q] == p0[q] as int);
                    } else if q == p0.len() {
                        if gl > 0 {
                            assert(pool@[q] == l as u64);
                        } else {
                            assert(pool@[q] == r as u64);
                        }
                    } else {
                        assert(pool@[q] == r as u64);
                    }
                }
                assert(u64_ints(pool@) =~= u64_ints(p0) + a + b);
                assert(pool_of(raw@, bars as int, k + 1) == pool_of(raw@, bars as int, k as int)
                    + a + b);
            }
            k = k + 1;
        }
        let ghost gpool = pool_of(raw@, bars as int, bars as int);
        assert(u64_ints(pool@) =~= gpool);
        let ghost pool_ints = u64_ints(pool@);
        proof {
            lemma_sort_ints_sorted(pool_ints);
            lemma_sort_ints_entries(pool_ints);
        }
        let plen = pool.len();
        let sorted = sort_pool(pool);
        assert(u64_ints(sorted@) == sort_ints(pool_ints));
        assert(sorted@.len() == plen) by {
            assert(u64_ints(sorted@).len() == sorted@.len());
            assert(pool_ints.len() == plen);
        }
        let refv: u64 = if plen == 0 {
            1
        } else {
            let idx128 = (plen as u128) * 95 / 100;
            let idx: usize = if idx128 > (plen - 1) as u128 {
                plen - 1
            } else {
                idx128 as usize
            };
            proof {
                assert((plen as u128) * 95 <= 0xFFFF_FFFF_FFFF_FFFF_u128 * 95) by (nonlinear_arith)
                    requires plen <= 0xFFFF_FFFF_FFFF_FFFF_u128;
                assert(95 * (plen as int) == (plen as int) * 95);
                lemma_div_is_ordered(0, 95 * (plen as int), 100);
                assert(idx as int == pct_index(plen as int));
            }
            let rv = sorted[idx];
            proof {
                assert(u64_ints(sorted@)[idx as int] == rv as int);
                assert(ref_mag(gpool) == sort_ints(gpool)[pct_index(plen as int)]);
                let w = choose|p: int|
                    0 <= p < pool_ints.len() && sort_ints(pool_ints)[idx as int] == pool_ints[p];
                assert(1 <= pool_ints[w] <= 32768) by {
                    assert(pool_ints[w] == pool@[w] as int);
                }
            }
            rv
        };
        assert(refv as int == ref_mag(gpool));
        assert(1 <= refv <= 32768);
        let mut peaks: Vec<PeakPair> = Vec::new();
        let mut j: usize = 0;
        while j < bars
            invariant
                j <= bars,
                bars == num_bars,
                bars > 0,
                n_frames == frame_count(raw@),
                mags@.len() == bars,
                forall|q: int|
                    0 <= q < bars ==> {
                        &&& (#[trigger] mags@[q]).0 == peak_mag(raw@, bars as int, q, 0)
                        &&& mags@[q].1 == peak_mag(raw@, bars as int, q, 1)
                        &&& mags@[q].0 <= 32768
                        &&& mags@[q].1 <= 32768
                    },
                refv as int == ref_mag(pool_of(raw@, bars as int, bars as int)),
                1 <= refv <= 32768,
                peaks@.len() == j,
                forall|q: int|
                    0 <= q < j ==> {
                        &&& (#[trigger] peaks@[q]).left == final_peak(raw@, bars as int, q, 0)
                        &&& peaks@[q].right == final_peak(raw@, bars as int, q, 1)
                        &&& peaks@[q].left <= 1000
                        &&& peaks@[q].right <= 1000
                    },
            decreases bars - j,
        {
            let (l, r) = mags[j];
            let vl = (l as u64) * 1000 / refv;
            let nl: u64 = if vl > 1000 {
                1000
            } else {
                vl
            };
            let vr = (r as u64) * 1000 / refv;
            let nr: u64 = if vr > 1000 {
                1000
            } else {
                vr
            };
            assert(nl as int == norm_clamp(l as int, refv as int));
            assert(nr as int == norm_clamp(r as int, refv as int));
            let fl = response_curve(nl);
            let fr = response_curve(nr);
            peaks.push(PeakPair { left: fl, right: fr });
            j = j + 1;
        }
        Some(WaveformData { peaks })
    }

    /// Number of bars that fit in a given pixel width, where each bar is
    /// `bar_width` pixels wide followed by `gap` pixels of spacing.
    pub fn bars_for_width(width: i32, bar_width: i32, gap: i32) -> (n: usize)
        ensures
            bar_width + gap <= 0 ==> n == 0,
            bar_width + gap > 0 && width >= 0 ==> n == width as int / (bar_width + gap),
            bar_width + gap > 0 && width < 0 ==> n == 0,
    {
        let block: i64 = bar_width as i64 + gap as i64;
        if block <= 0 || width < 0 {
            return 0;
        }
        (width as i64 / block) as usize
    }
}

/// The control thread's waveform slot: at most one amplitude series, tagged
/// with the identity of the track it was extracted for. Extraction runs in
/// the background, so a result can arrive after the selection has already
/// moved on; the slot accepts a delivery only when the track identity
/// captured at dispatch time still matches the current selection, and is
/// replaced wholesale, never in place.
pub struct WaveformSlot {
    track: Vec<u8>,
    series: Option<WaveformData>,
}

impl WaveformSlot {
    /// The identity of the currently selected track.
    pub closed spec fn track_id(self) -> Seq<u8> {
        self.track@
    }

    /// The series applied for the current track, if one has arrived.
    pub closed spec fn current(self) -> Option<WaveformData> {
        self.series
    }

    /// An empty slot for the track `track_id`.
    pub fn new(track_id: Vec<u8>) -> (s: WaveformSlot)
        ensures
            s.track_id() == track_id@,
            s.current() is None,
    {
        WaveformSlot { track: track_id, series: None }
    }

    /// Moves the selection to a new track: any series of the old track is
    /// discarded.
    pub fn select(&mut self, track_id: Vec<u8>)
        ensures
            final(self).track_id() == track_id@,
            final(self).current() is None,
    {
        self.track = track_id;
        self.series = None;
    }

    /// Whether a series has been applied for the current track.
    pub fn has_series(&self) -> (r: bool)
        ensures
            r == (self.current() is Some),
    {
        self.series.is_some()
    }

    /// Delivers a finished extraction tagged with the track identity that
    /// was captured when it was dispatched. The series is applied exactly
    /// when that identity still matches the current selection; a stale
    /// result leaves the slot unchanged.
    pub fn deliver(&mut self, dispatched_track: &Vec<u8>, series: WaveformData) -> (applied: bool)
        ensures
            applied == (dispatched_track@ == old(self).track_id()),
            final(self).track_id() == old(self).track_id(),
            applied ==> final(self).current() == Some(series),
            !applied ==> final(self).current() == old(self).current(),
    {
        if crate::text::bytes_eq(dispatched_track, &self.track) {
            self.series = Some(series);
            true
        } else {
            false
        }
    }
}

} // verus!
