//! The geometric quality score of a match: a concave curve of the overlap
//! ratio between the two thresholds.

use vstd::prelude::*;
use crate::error::ScoreError;
use crate::geometry::UNIT;

verus! {

/// The fourth power.
pub open spec fn pow4(s: int) -> int {
    (s * s) * (s * s)
}

/// `s / UNIT` is no more than the fourth root of `num / den`.
pub open spec fn root_fits(s: int, num: int, den: int) -> bool {
    pow4(s) * den <= pow4(UNIT as int) * num
}

/// The largest `s` up to `n` for which `root_fits` holds, or 0 if there is
/// none above 0.
pub open spec fn scaled_root4(num: int, den: int, n: nat) -> nat
    decreases n,
{
    if n == 0 {
        0
    } else if root_fits(n as int, num, den) {
        n
    } else {
        scaled_root4(num, den, (n - 1) as nat)
    }
}

/// The shape score in fixed point: 1 above the high threshold, and between
/// the thresholds the fourth root of the position of `iou` between them,
/// rounded down.
pub open spec fn shape_score(iou: int, low: int, high: int) -> int {
    if iou > high {
        UNIT as int
    } else {
        scaled_root4(iou - low, high - low, UNIT as nat) as int
    }
}

proof fn lemma_pow4_monotonic(a: int, b: int)
    by (nonlinear_arith)
    requires
        0 <= a <= b,
    ensures
        0 <= pow4(a) <= pow4(b),
        a >= 1 ==> pow4(a) >= 1,
        a < b ==> pow4(a) < pow4(b),
{
}

proof fn lemma_scale_order(p: int, q: int, d: int)
    by (nonlinear_arith)
    requires
        0 <= p <= q,
        0 <= d,
    ensures
        p * d <= q * d,
        d * p <= d * q,
{
}

proof fn lemma_scale_positive(p: int, d: int)
    by (nonlinear_arith)
    requires
        1 <= p,
        1 <= d,
    ensures
        p * d >= 1,
{
}

proof fn lemma_fits_below(s: int, t: int, num: int, den: int)
    requires
        0 <= t <= s,
        0 <= den,
        root_fits(s, num, den),
    ensures
        root_fits(t, num, den),
{
    lemma_pow4_monotonic(t, s);
    lemma_scale_order(pow4(t), pow4(s), den);
}

proof fn lemma_fits_more(s: int, num1: int, num2: int, den: int)
    requires
        num1 <= num2,
        root_fits(s, num1, den),
    ensures
        root_fits(s, num2, den),
{
    assert(pow4(UNIT as int) * num1 <= pow4(UNIT as int) * num2) by (nonlinear_arith)
        requires
            num1 <= num2,
            0 <= pow4(UNIT as int),
    ;
}

/// `scaled_root4` is at most `n`, fits unless it is 0, and nothing between it
/// and `n` fits.
proof fn lemma_scaled_root4_largest(num: int, den: int, n: nat)
    ensures
        scaled_root4(num, den, n) <= n,
        scaled_root4(num, den, n) > 0 ==> root_fits(scaled_root4(num, den, n) as int, num, den),
        forall|t: int| scaled_root4(num, den, n) < t <= n ==> !root_fits(t, num, den),
    decreases n,
{
    if n > 0 && !root_fits(n as int, num, den) {
        lemma_scaled_root4_largest(num, den, (n - 1) as nat);
    }
}

/// Any `s` that fits while its successor does not (or is out of range) is the
/// value of `scaled_root4`.
proof fn lemma_scaled_root4_unique(s: int, num: int, den: int, n: nat)
    requires
        0 <= s <= n,
        0 <= den,
        s > 0 ==> root_fits(s, num, den),
        s < n ==> !root_fits(s + 1, num, den),
    ensures
        scaled_root4(num, den, n) == s,
{
    let r = scaled_root4(num, den, n) as int;
    lemma_scaled_root4_largest(num, den, n);
    if r > s {
        lemma_fits_below(r, s + 1, num, den);
    }
}

/// Between the thresholds the shape score is the fourth root of the position
/// of `iou` between them, rounded down to a whole part of `UNIT`: its fourth
/// power does not exceed that position, and that of its successor does.
pub proof fn lemma_shape_score_rounds_down(iou: int, low: int, high: int)
    requires
        low < high,
        low <= iou <= high,
    ensures
        0 <= shape_score(iou, low, high) <= UNIT,
        pow4(shape_score(iou, low, high)) * (high - low) <= pow4(UNIT as int) * (iou - low),
        pow4(UNIT as int) * (iou - low) < pow4(shape_score(iou, low, high) + 1) * (high - low),
{
    let num = iou - low;
    let den = high - low;
    let s = shape_score(iou, low, high);
    lemma_scaled_root4_largest(num, den, UNIT as nat);
    lemma_pow4_monotonic(0, UNIT as int);
    if s == 0 {
        assert(pow4(0) * den == 0);
    }
    if s == UNIT {
        lemma_pow4_monotonic(UNIT as int, UNIT + 1);
        assert(pow4(UNIT as int) * num < pow4(UNIT + 1) * den) by (nonlinear_arith)
            requires
                0 <= num <= den,
                0 < den,
                0 <= pow4(UNIT as int) < pow4(UNIT + 1),
        ;
    } else {
        assert(!root_fits(s + 1, num, den));
    }
}

/// The shape score never decreases as the overlap ratio grows from the low
/// threshold on; it is 0 at the low threshold and 1 at and above the high one.
pub proof fn lemma_shape_score_monotonic(iou1: int, iou2: int, low: int, high: int)
    requires
        low < high,
        low <= iou1 <= iou2,
    ensures
        0 <= shape_score(iou1, low, high) <= shape_score(iou2, low, high) <= UNIT,
        shape_score(low, low, high) == 0,
        iou2 >= high ==> shape_score(iou2, low, high) == UNIT,
{
    let den = high - low;
    let one = UNIT as nat;
    lemma_scaled_root4_largest(iou1 - low, den, one);
    lemma_scaled_root4_largest(iou2 - low, den, one);
    if iou2 <= high {
        let s1 = scaled_root4(iou1 - low, den, one) as int;
        let s2 = scaled_root4(iou2 - low, den, one) as int;
        if s1 > s2 {
            lemma_fits_more(s1, iou1 - low, iou2 - low, den);
        }
    }
    assert(shape_score(low, low, high) == 0) by {
        lemma_scaled_root4_largest(0, den, one);
        let s0 = scaled_root4(0, den, one) as int;
        if s0 > 0 {
            lemma_pow4_monotonic(s0, s0);
            lemma_scale_positive(pow4(s0), den);
        }
    }
}

/// Convert IoU to score.
///
/// An overlap ratio below the low threshold has no shape score: candidate
/// generation filters such pairs out before scoring them, so to be asked for
/// one is an error.
pub fn iou2score(iou: u64, iou_low: u64, iou_high: u64) -> (r: Result<u64, ScoreError>)
    requires
        iou_low < iou_high <= UNIT,
    ensures
        r is Err <==> iou < iou_low,
        r is Err ==> r == Err::<u64, ScoreError>(ScoreError::IouBelowThreshold),
        r matches Ok(s) ==> s == shape_score(iou as int, iou_low as int, iou_high as int) && s
            <= UNIT,
{
    if iou > iou_high {
        return Ok(UNIT);
    }
    if iou < iou_low {
        return Err(ScoreError::IouBelowThreshold);
    }
    let num: u128 = (iou - iou_low) as u128;
    let den: u128 = (iou_high - iou_low) as u128;
    let one: u128 = UNIT as u128;
    let one4: u128 = (one * one) * (one * one);
    let target: u128 = one4 * num;
    let mut lo: u64 = 0;
    let mut hi: u64 = UNIT + 1;
    while hi - lo > 1
        invariant
            0 <= lo < hi <= UNIT + 1,
            den <= UNIT,
            pow4(UNIT as int) == 1_000_000_000_000_000_000_000_000,
            target == pow4(UNIT as int) * (num as int),
            lo > 0 ==> root_fits(lo as int, num as int, den as int),
            hi <= UNIT ==> !root_fits(hi as int, num as int, den as int),
        decreases hi - lo,
    {
        let mid: u64 = lo + (hi - lo) / 2;
        let m: u128 = mid as u128;
        proof {
            lemma_pow4_monotonic(m as int, UNIT as int);
            assert(m * m <= 1_000_000_000_000) by (nonlinear_arith)
                requires
                    0 <= m <= 1_000_000,
            ;
            assert(pow4(m as int) * den <= 1_000_000_000_000_000_000_000_000_000_000)
                by (nonlinear_arith)
                requires
                    0 <= pow4(m as int) <= 1_000_000_000_000_000_000_000_000,
                    0 <= den <= 1_000_000,
            ;
        }
        let m2: u128 = m * m;
        let m4: u128 = m2 * m2;
        if m4 * den <= target {
            lo = mid;
        } else {
            hi = mid;
        }
    }
    proof {
        lemma_scaled_root4_unique(lo as int, num as int, den as int, UNIT as nat);
    }
    Ok(lo)
}

} // verus!
