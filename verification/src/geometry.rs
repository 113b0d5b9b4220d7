//! Axis-aligned bounding boxes and their Intersection over Union.
//!
//! Coordinates are integers in any uniform unit (whole pixels or a fixed
//! fraction of a pixel). Ratios are fixed-point numbers with `UNIT` standing
//! for 1.

use vstd::prelude::*;

verus! {

/// The fixed-point representation of 1 for overlap ratios, thresholds and
/// shape scores.
pub const UNIT: u64 = 1_000_000;

/// An axis-aligned box given by its top-left and bottom-right corners.
#[derive(Debug, Clone, Copy, PartialEq, Eq, Structural)]
pub struct Bbox {
    pub xtl: i32,
    pub ytl: i32,
    pub xbr: i32,
    pub ybr: i32,
}

/// The smaller of two numbers.
pub open spec fn lesser(a: int, b: int) -> int {
    if a <= b {
        a
    } else {
        b
    }
}

/// The larger of two numbers.
pub open spec fn greater(a: int, b: int) -> int {
    if a >= b {
        a
    } else {
        b
    }
}

impl Bbox {
    /// Left is not right of right, top is not below bottom.
    pub open spec fn wf(self) -> bool {
        self.xtl <= self.xbr && self.ytl <= self.ybr
    }

    /// Extent along the x axis.
    pub open spec fn width(self) -> int {
        self.xbr - self.xtl
    }

    /// Extent along the y axis.
    pub open spec fn height(self) -> int {
        self.ybr - self.ytl
    }

    /// Width times height.
    pub open spec fn area(self) -> int {
        self.width() * self.height()
    }

    /// The box with each pair of edges put in order.
    pub open spec fn normalized(self) -> Bbox {
        Bbox {
            xtl: lesser(self.xtl as int, self.xbr as int) as i32,
            ytl: lesser(self.ytl as int, self.ybr as int) as i32,
            xbr: greater(self.xtl as int, self.xbr as int) as i32,
            ybr: greater(self.ytl as int, self.ybr as int) as i32,
        }
    }

    /// Whether the edges are in order.
    pub fn is_wf(&self) -> (r: bool)
        ensures
            r == self.wf(),
    {
        self.xtl <= self.xbr && self.ytl <= self.ybr
    }

    /// Puts the edges in order by swapping an offending pair.
    pub fn check(&mut self)
        ensures
            *final(self) == old(self).normalized(),
            final(self).wf(),
            old(self).wf() ==> *final(self) == *old(self),
    {
        if self.xtl > self.xbr {
            let t: i32 = self.xtl;
            self.xtl = self.xbr;
            self.xbr = t;
        }
        if self.ytl > self.ybr {
            let t: i32 = self.ytl;
            self.ytl = self.ybr;
            self.ybr = t;
        }
    }
}

/// Extent of the common part of two boxes along the x axis; not positive when
/// they are apart or only touch.
pub open spec fn overlap_width(a: Bbox, b: Bbox) -> int {
    lesser(a.xbr as int, b.xbr as int) - greater(a.xtl as int, b.xtl as int)
}

/// Extent of the common part of two boxes along the y axis.
pub open spec fn overlap_height(a: Bbox, b: Bbox) -> int {
    lesser(a.ybr as int, b.ybr as int) - greater(a.ytl as int, b.ytl as int)
}

/// The boxes share a region of positive area.
pub open spec fn overlaps(a: Bbox, b: Bbox) -> bool {
    overlap_width(a, b) > 0 && overlap_height(a, b) > 0
}

/// Area of the common part of two boxes; 0 when they do not overlap.
pub open spec fn overlap_area(a: Bbox, b: Bbox) -> int {
    if overlaps(a, b) {
        overlap_width(a, b) * overlap_height(a, b)
    } else {
        0
    }
}

/// Area that two boxes cover together.
pub open spec fn union_area(a: Bbox, b: Bbox) -> int {
    a.area() + b.area() - overlap_area(a, b)
}

/// Intersection over Union in fixed point, rounded down; exactly 0 when the
/// boxes do not overlap on both axes.
pub open spec fn iou(a: Bbox, b: Bbox) -> int {
    if overlaps(a, b) {
        overlap_area(a, b) * UNIT / union_area(a, b)
    } else {
        0
    }
}

proof fn lemma_product_bounds(x: int, y: int, p: int, q: int)
    by (nonlinear_arith)
    requires
        0 <= x <= p,
        0 <= y <= q,
    ensures
        0 <= x * y <= p * q,
{
}

proof fn lemma_positive_product(x: int, y: int)
    by (nonlinear_arith)
    requires
        0 < x,
        0 < y,
    ensures
        0 < x * y,
{
}

proof fn lemma_ratio_bounds(n: int, d: int, one: int)
    by (nonlinear_arith)
    requires
        0 <= n <= d,
        0 < d,
        0 <= one,
    ensures
        0 <= n * one / d <= one,
        n == d ==> n * one / d == one,
{
}

/// The overlap of two ordered boxes is positive exactly when they overlap, and
/// is contained in each of them.
pub proof fn lemma_overlap_within(a: Bbox, b: Bbox)
    requires
        a.wf(),
        b.wf(),
    ensures
        0 <= overlap_area(a, b) <= a.area(),
        overlap_area(a, b) <= b.area(),
        overlaps(a, b) <==> overlap_area(a, b) > 0,
        overlaps(a, b) ==> union_area(a, b) >= overlap_area(a, b),
        a.area() <= 0xffff_ffff * 0xffff_ffff,
        b.area() <= 0xffff_ffff * 0xffff_ffff,
{
    lemma_product_bounds(a.width(), a.height(), 0xffff_ffff, 0xffff_ffff);
    lemma_product_bounds(b.width(), b.height(), 0xffff_ffff, 0xffff_ffff);
    if overlaps(a, b) {
        let w = overlap_width(a, b);
        let h = overlap_height(a, b);
        lemma_positive_product(w, h);
        lemma_product_bounds(w, h, a.width(), a.height());
        lemma_product_bounds(w, h, b.width(), b.height());
    }
}

/// Intersection over Union does not depend on the order of its arguments.
pub proof fn lemma_iou_symmetric(a: Bbox, b: Bbox)
    ensures
        iou(a, b) == iou(b, a),
{
}

/// Intersection over Union lies between 0 and 1, and is 0 for boxes that are
/// apart or only touch along an edge or at a corner.
pub proof fn lemma_iou_bounds(a: Bbox, b: Bbox)
    requires
        a.wf(),
        b.wf(),
    ensures
        0 <= iou(a, b) <= UNIT,
        !overlaps(a, b) ==> iou(a, b) == 0,
        a.xbr <= b.xtl || b.xbr <= a.xtl || a.ybr <= b.ytl || b.ybr <= a.ytl ==> iou(a, b) == 0,
{
    lemma_overlap_within(a, b);
    if overlaps(a, b) {
        lemma_ratio_bounds(overlap_area(a, b), union_area(a, b), UNIT as int);
    }
}

/// Intersection over Union is the ratio of the overlap to the union, rounded
/// down to a whole part of `UNIT`.
pub proof fn lemma_iou_rounds_down(a: Bbox, b: Bbox)
    requires
        a.wf(),
        b.wf(),
        overlaps(a, b),
    ensures
        iou(a, b) * union_area(a, b) <= overlap_area(a, b) * UNIT < (iou(a, b) + 1) * union_area(
            a,
            b,
        ),
{
    lemma_overlap_within(a, b);
    let n = overlap_area(a, b) * UNIT;
    let d = union_area(a, b);
    assert((n / d) * d <= n < (n / d + 1) * d) by (nonlinear_arith)
        requires
            0 < d,
            0 <= n,
    ;
}

/// A box of positive area overlaps itself completely.
pub proof fn lemma_iou_identical(a: Bbox)
    requires
        a.wf(),
        a.area() > 0,
    ensures
        iou(a, a) == UNIT,
{
    assert(overlaps(a, a)) by (nonlinear_arith)
        requires
            a.width() >= 0,
            a.height() >= 0,
            a.width() * a.height() > 0,
            overlap_width(a, a) == a.width(),
            overlap_height(a, a) == a.height(),
            overlaps(a, a) == (overlap_width(a, a) > 0 && overlap_height(a, a) > 0),
    ;
    lemma_ratio_bounds(overlap_area(a, a), union_area(a, a), UNIT as int);
}

/// Compute Intersection over Union for two bounding boxes.
pub fn compute_iou(s1: Bbox, s2: Bbox) -> (r: u64)
    requires
        s1.wf(),
        s2.wf(),
    ensures
        r == iou(s1, s2),
        r <= UNIT,
{
    proof {
        lemma_overlap_within(s1, s2);
        lemma_iou_bounds(s1, s2);
    }
    let xtl: i64 = if s1.xtl >= s2.xtl { s1.xtl as i64 } else { s2.xtl as i64 };
    let xbr: i64 = if s1.xbr <= s2.xbr { s1.xbr as i64 } else { s2.xbr as i64 };
    let ytl: i64 = if s1.ytl >= s2.ytl { s1.ytl as i64 } else { s2.ytl as i64 };
    let ybr: i64 = if s1.ybr <= s2.ybr { s1.ybr as i64 } else { s2.ybr as i64 };
    if xtl < xbr && ytl < ybr {
        let w1: u128 = (s1.xbr as i64 - s1.xtl as i64) as u128;
        let h1: u128 = (s1.ybr as i64 - s1.ytl as i64) as u128;
        let w2: u128 = (s2.xbr as i64 - s2.xtl as i64) as u128;
        let h2: u128 = (s2.ybr as i64 - s2.ytl as i64) as u128;
        let w: u128 = (xbr - xtl) as u128;
        let h: u128 = (ybr - ytl) as u128;
        let a1: u128 = w1 * h1;
        let a2: u128 = w2 * h2;
        let inters: u128 = w * h;
        let whole: u128 = a1 + a2 - inters;
        let scaled: u128 = inters * (UNIT as u128);
        (scaled / whole) as u64
    } else {
        0
    }
}

} // verus!
