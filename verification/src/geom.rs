//! Integer geometry: bounding boxes, saturating coordinate arithmetic, and
//! the normalizer that turns a raw layout rectangle plus an accumulated
//! offset into an absolute, axis-aligned box.

use vstd::prelude::*;

verus! {

/// Axis-aligned rectangle in absolute document units, with the ordering
/// invariant `x0 <= x1` and `y0 <= y1`.
#[derive(Clone, Copy, Debug, PartialEq, Eq, Structural)]
pub struct BoundingBox {
    pub x0: i64,
    pub x1: i64,
    pub y0: i64,
    pub y1: i64,
}

pub open spec fn box_wf(b: BoundingBox) -> bool {
    b.x0 <= b.x1 && b.y0 <= b.y1
}

/// A rectangle as the layout engine hands it out: two corners with no
/// promised ordering between them.
#[derive(Clone, Copy, Debug, PartialEq, Eq, Structural)]
pub struct RawRect {
    pub ax: i64,
    pub ay: i64,
    pub bx: i64,
    pub by: i64,
}

pub open spec fn imin(a: int, b: int) -> int {
    if a <= b {
        a
    } else {
        b
    }
}

pub open spec fn imax(a: int, b: int) -> int {
    if a <= b {
        b
    } else {
        a
    }
}

/// Addition clamped to the representable coordinate range.
pub open spec fn sat_add(a: int, b: int) -> int {
    if a + b > i64::MAX as int {
        i64::MAX as int
    } else if a + b < i64::MIN as int {
        i64::MIN as int
    } else {
        a + b
    }
}

/// Subtraction clamped to the representable coordinate range.
pub open spec fn sat_sub(a: int, b: int) -> int {
    if a - b > i64::MAX as int {
        i64::MAX as int
    } else if a - b < i64::MIN as int {
        i64::MIN as int
    } else {
        a - b
    }
}

pub fn add_sat(a: i64, b: i64) -> (r: i64)
    ensures
        r as int == sat_add(a as int, b as int),
{
    if b >= 0 {
        if a > i64::MAX - b {
            i64::MAX
        } else {
            a + b
        }
    } else {
        if a < i64::MIN - b {
            i64::MIN
        } else {
            a + b
        }
    }
}

pub fn sub_sat(a: i64, b: i64) -> (r: i64)
    ensures
        r as int == sat_sub(a as int, b as int),
{
    if b >= 0 {
        if a < i64::MIN + b {
            i64::MIN
        } else {
            a - b
        }
    } else {
        if a > i64::MAX + b {
            i64::MAX
        } else {
            a - b
        }
    }
}

pub fn min_i64(a: i64, b: i64) -> (r: i64)
    ensures
        r as int == imin(a as int, b as int),
{
    if a <= b {
        a
    } else {
        b
    }
}

pub fn max_i64(a: i64, b: i64) -> (r: i64)
    ensures
        r as int == imax(a as int, b as int),
{
    if a <= b {
        b
    } else {
        a
    }
}

/// The smallest box containing both arguments.
pub open spec fn merge_spec(a: BoundingBox, b: BoundingBox) -> BoundingBox {
    BoundingBox {
        x0: imin(a.x0 as int, b.x0 as int) as i64,
        x1: imax(a.x1 as int, b.x1 as int) as i64,
        y0: imin(a.y0 as int, b.y0 as int) as i64,
        y1: imax(a.y1 as int, b.y1 as int) as i64,
    }
}

pub proof fn lemma_merge_wf(a: BoundingBox, b: BoundingBox)
    requires
        box_wf(a),
        box_wf(b),
    ensures
        box_wf(merge_spec(a, b)),
{
}

impl BoundingBox {
    /// Merging two boxes produces the smallest box containing both.
    pub fn merge(&self, v: BoundingBox) -> (r: BoundingBox)
        ensures
            r == merge_spec(*self, v),
    {
        BoundingBox {
            x0: min_i64(self.x0, v.x0),
            x1: max_i64(self.x1, v.x1),
            y0: min_i64(self.y0, v.y0),
            y1: max_i64(self.y1, v.y1),
        }
    }
}

/// Translates both corners of a raw rectangle by the accumulated offset and
/// orders them per axis, whatever corner convention the rectangle used.
pub open spec fn normalize_spec(rect: RawRect, offx: int, offy: int) -> BoundingBox {
    BoundingBox {
        x0: imin(sat_add(offx, rect.ax as int), sat_add(offx, rect.bx as int)) as i64,
        x1: imax(sat_add(offx, rect.ax as int), sat_add(offx, rect.bx as int)) as i64,
        y0: imin(sat_add(offy, rect.ay as int), sat_add(offy, rect.by as int)) as i64,
        y1: imax(sat_add(offy, rect.ay as int), sat_add(offy, rect.by as int)) as i64,
    }
}

pub proof fn lemma_normalize_wf(rect: RawRect, offx: int, offy: int)
    ensures
        box_wf(normalize_spec(rect, offx, offy)),
{
}

pub fn normalize_bbox(rect: &RawRect, offx: i64, offy: i64) -> (r: BoundingBox)
    ensures
        r == normalize_spec(*rect, offx as int, offy as int),
        box_wf(r),
{
    let c1x = add_sat(offx, rect.ax);
    let c2x = add_sat(offx, rect.bx);
    let c1y = add_sat(offy, rect.ay);
    let c2y = add_sat(offy, rect.by);
    BoundingBox {
        x0: min_i64(c1x, c2x),
        x1: max_i64(c1x, c2x),
        y0: min_i64(c1y, c2y),
        y1: max_i64(c1y, c2y),
    }
}

} // verus!
