//! Axis-aligned bounding boxes in original-image pixel coordinates, and
//! their intersection-over-union, the suppression criterion of NMS.
//!
//! Coordinates are whole pixels.  The top-left corner may be negative
//! (a box centred near an image edge can start outside the image), while
//! width and height are never negative.

use vstd::arithmetic::div_mod::{
    lemma_div_is_ordered,
    lemma_div_multiples_vanish,
    lemma_div_pos_is_pos,
};
use vstd::prelude::*;

use crate::UNIT;

verus! {

/// Bound on the magnitude of any box coordinate or extent.  Boxes produced
/// by rescaling normalized anchors never leave this range, and it keeps all
/// intermediate IoU products inside `i128`.
pub const COORD_LIMIT: i64 = 0x2_0000_0000_0000;

/// A box in original-image pixels: top-left corner `(x, y)` and
/// non-negative extents `(w, h)`.
#[derive(Clone, Copy, PartialEq, Eq, Structural, Debug)]
pub struct BBox {
    pub x: i64,
    pub y: i64,
    pub w: i64,
    pub h: i64,
}

impl BBox {
    /// Coordinates within `COORD_LIMIT` and non-negative extents.
    pub open spec fn wf(self) -> bool {
        &&& -COORD_LIMIT <= self.x <= COORD_LIMIT
        &&& -COORD_LIMIT <= self.y <= COORD_LIMIT
        &&& 0 <= self.w <= COORD_LIMIT
        &&& 0 <= self.h <= COORD_LIMIT
    }

    /// The box's area, in square pixels.
    pub open spec fn area(self) -> int {
        self.w * self.h
    }
}

/// Width of the overlap of `a` and `b`, clamped to zero when they are
/// horizontally disjoint.
pub open spec fn inter_width(a: BBox, b: BBox) -> int {
    let lo = if a.x >= b.x {
        a.x as int
    } else {
        b.x as int
    };
    let hi = if a.x + a.w <= b.x + b.w {
        a.x + a.w
    } else {
        b.x + b.w
    };
    if hi - lo > 0 {
        hi - lo
    } else {
        0
    }
}

/// Height of the overlap of `a` and `b`, clamped to zero when they are
/// vertically disjoint.
pub open spec fn inter_height(a: BBox, b: BBox) -> int {
    let lo = if a.y >= b.y {
        a.y as int
    } else {
        b.y as int
    };
    let hi = if a.y + a.h <= b.y + b.h {
        a.y + a.h
    } else {
        b.y + b.h
    };
    if hi - lo > 0 {
        hi - lo
    } else {
        0
    }
}

/// Area of the overlap of `a` and `b`.
pub open spec fn inter_area(a: BBox, b: BBox) -> int {
    inter_width(a, b) * inter_height(a, b)
}

/// Area covered by `a` or `b`.
pub open spec fn union_area(a: BBox, b: BBox) -> int {
    a.area() + b.area() - inter_area(a, b)
}

/// Intersection-over-union as a fixed-point value: `UNIT` stands for an
/// IoU of 1.  Zero whenever the union has no positive area.
pub open spec fn iou_spec(a: BBox, b: BBox) -> int {
    if union_area(a, b) <= 0 {
        0
    } else {
        inter_area(a, b) * (UNIT as int) / union_area(a, b)
    }
}

/// The overlap area never exceeds either box's own area.
proof fn lemma_inter_le_areas(a: BBox, b: BBox)
    requires
        a.wf(),
        b.wf(),
    ensures
        0 <= inter_area(a, b),
        inter_area(a, b) <= a.area(),
        inter_area(a, b) <= b.area(),
{
    let iw = inter_width(a, b);
    let ih = inter_height(a, b);
    assert(0 <= iw && iw <= a.w && iw <= b.w);
    assert(0 <= ih && ih <= a.h && ih <= b.h);
    assert(iw * ih >= 0) by (nonlinear_arith)
        requires
            iw >= 0,
            ih >= 0,
    ;
    assert(iw * ih <= a.w * a.h) by (nonlinear_arith)
        requires
            0 <= iw <= a.w,
            0 <= ih <= a.h,
    ;
    assert(iw * ih <= b.w * b.h) by (nonlinear_arith)
        requires
            0 <= iw <= b.w,
            0 <= ih <= b.h,
    ;
}

/// IoU is symmetric in its two boxes.
pub proof fn lemma_iou_symmetric(a: BBox, b: BBox)
    ensures
        iou_spec(a, b) == iou_spec(b, a),
{
    assert(inter_width(a, b) == inter_width(b, a));
    assert(inter_height(a, b) == inter_height(b, a));
}

/// IoU always lies between 0 and `UNIT` for well-formed boxes.
pub proof fn lemma_iou_bounds(a: BBox, b: BBox)
    requires
        a.wf(),
        b.wf(),
    ensures
        0 <= iou_spec(a, b) <= UNIT,
{
    lemma_inter_le_areas(a, b);
    let inter = inter_area(a, b);
    let uni = union_area(a, b);
    if uni > 0 {
        assert(inter <= uni);
        assert(inter * (UNIT as int) >= 0) by (nonlinear_arith)
            requires
                inter >= 0,
        ;
        lemma_div_pos_is_pos(inter * (UNIT as int), uni);
        assert(inter * (UNIT as int) <= uni * (UNIT as int)) by (nonlinear_arith)
            requires
                0 <= inter <= uni,
        ;
        lemma_div_is_ordered(inter * (UNIT as int), uni * (UNIT as int), uni);
        lemma_div_multiples_vanish(UNIT as int, uni);
        assert(uni * (UNIT as int) / uni == UNIT as int);
    }
}

/// A positive-area box has IoU exactly `UNIT` with itself.
pub proof fn lemma_iou_self(a: BBox)
    requires
        a.wf(),
        a.area() > 0,
    ensures
        iou_spec(a, a) == UNIT,
{
    assert(inter_width(a, a) == a.w);
    assert(inter_height(a, a) == a.h);
    assert(union_area(a, a) == a.area());
    lemma_div_multiples_vanish(UNIT as int, a.area());
    assert(iou_spec(a, a) == a.area() * (UNIT as int) / a.area());
}

/// Intersection-over-union of two boxes, verified against `iou_spec`.
pub fn iou(a: &BBox, b: &BBox) -> (r: u32)
    requires
        a.wf(),
        b.wf(),
    ensures
        r as int == iou_spec(*a, *b),
        r <= UNIT,
{
    proof {
        lemma_iou_bounds(*a, *b);
    }
    let lo_x = if a.x >= b.x {
        a.x
    } else {
        b.x
    };
    let a_right = a.x + a.w;
    let b_right = b.x + b.w;
    let hi_x = if a_right <= b_right {
        a_right
    } else {
        b_right
    };
    let iw: i64 = if hi_x - lo_x > 0 {
        hi_x - lo_x
    } else {
        0
    };
    let lo_y = if a.y >= b.y {
        a.y
    } else {
        b.y
    };
    let a_bot = a.y + a.h;
    let b_bot = b.y + b.h;
    let hi_y = if a_bot <= b_bot {
        a_bot
    } else {
        b_bot
    };
    let ih: i64 = if hi_y - lo_y > 0 {
        hi_y - lo_y
    } else {
        0
    };
    assert(iw == inter_width(*a, *b));
    assert(ih == inter_height(*a, *b));

    proof {
        assert((iw as int) * (ih as int) <= 3 * COORD_LIMIT * (3 * COORD_LIMIT))
            by (nonlinear_arith)
            requires
                0 <= iw <= 3 * COORD_LIMIT,
                0 <= ih <= 3 * COORD_LIMIT,
        ;
        assert((a.w as int) * (a.h as int) <= COORD_LIMIT * COORD_LIMIT) by (nonlinear_arith)
            requires
                0 <= a.w <= COORD_LIMIT,
                0 <= a.h <= COORD_LIMIT,
        ;
        assert((b.w as int) * (b.h as int) <= COORD_LIMIT * COORD_LIMIT) by (nonlinear_arith)
            requires
                0 <= b.w <= COORD_LIMIT,
                0 <= b.h <= COORD_LIMIT,
        ;
        lemma_inter_le_areas(*a, *b);
    }
    let inter: i128 = (iw as i128) * (ih as i128);
    let area_a: i128 = (a.w as i128) * (a.h as i128);
    let area_b: i128 = (b.w as i128) * (b.h as i128);
    let uni: i128 = area_a + area_b - inter;
    if uni <= 0 {
        0
    } else {
        proof {
            assert(inter * (UNIT as int) <= uni * (UNIT as int)) by (nonlinear_arith)
                requires
                    0 <= inter <= uni,
            ;
            assert(uni * (UNIT as int) <= COORD_LIMIT * COORD_LIMIT * 4 * (UNIT as int))
                by (nonlinear_arith)
                requires
                    0 < uni <= 2 * (COORD_LIMIT * COORD_LIMIT),
            ;
        }
        let num: i128 = inter * (UNIT as i128);
        let q: u128 = (num as u128) / (uni as u128);
        proof {
            lemma_div_pos_is_pos(num as int, uni as int);
            lemma_div_is_ordered(num as int, uni * (UNIT as int), uni as int);
            lemma_div_multiples_vanish(UNIT as int, uni as int);
        }
        q as u32
    }
}

} // verus!
