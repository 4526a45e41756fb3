//! Axis-aligned rectangles on the integer grid, and the two relations
//! that the packers reason with: overlap of interiors and containment.

use vstd::prelude::*;

verus! {

/// Largest length (board side, shape side, kerf) that the library accepts.
/// Every length is an integer count of the application's length unit.
pub const MAX_LEN: i64 = 0x8000_0000;

/// The length that stands for every length above `MAX_LEN`: longer than
/// any board, so a shape with a side this long fits on none.
pub const TOO_LONG: i64 = 0x8000_0001;

/// Length units per millimetre: the application counts thousandths of a
/// millimetre.
pub const UNITS_PER_MM: i64 = 1000;

/// A length that the packers accept: non-negative and at most `MAX_LEN`.
pub open spec fn len_ok(v: int) -> bool {
    0 <= v <= MAX_LEN
}

/// A positive length that the packers accept.
pub open spec fn pos_len_ok(v: int) -> bool {
    0 < v <= MAX_LEN
}

/// An axis-aligned rectangle `[x, x + w) x [y, y + h)`.
#[derive(Clone, Copy, Debug, PartialEq, Eq, Structural)]
pub struct Rect {
    pub x: i64,
    pub y: i64,
    pub w: i64,
    pub h: i64,
}

/// The interiors of `a` and `b` intersect.
pub open spec fn rects_overlap(a: Rect, b: Rect) -> bool {
    &&& a.x < b.x + b.w
    &&& a.x + a.w > b.x
    &&& a.y < b.y + b.h
    &&& a.y + a.h > b.y
}

/// `inner` lies inside `outer` (boundaries may touch).
pub open spec fn rect_contains(outer: Rect, inner: Rect) -> bool {
    &&& outer.x <= inner.x
    &&& outer.y <= inner.y
    &&& outer.x + outer.w >= inner.x + inner.w
    &&& outer.y + outer.h >= inner.y + inner.h
}

/// The point `(px, py)` lies in `r`.
pub open spec fn point_in(r: Rect, px: int, py: int) -> bool {
    r.x <= px < r.x + r.w && r.y <= py < r.y + r.h
}

/// `r` lies inside the board `[0, bw) x [0, bh)`.
pub open spec fn rect_in_board(r: Rect, bw: int, bh: int) -> bool {
    &&& 0 <= r.x
    &&& 0 <= r.y
    &&& r.x + r.w <= bw
    &&& r.y + r.h <= bh
}

/// Whether the interiors of two rectangles intersect.
pub fn overlaps(a: &Rect, b: &Rect) -> (r: bool)
    ensures
        r == rects_overlap(*a, *b),
{
    let ax = a.x as i128;
    let ay = a.y as i128;
    let bx = b.x as i128;
    let by = b.y as i128;
    ax < bx + b.w as i128 && ax + a.w as i128 > bx && ay < by + b.h as i128 && ay + a.h as i128 > by
}

/// Whether `inner` lies inside `outer`.
pub fn contains(outer: &Rect, inner: &Rect) -> (r: bool)
    ensures
        r == rect_contains(*outer, *inner),
{
    let ox = outer.x as i128;
    let oy = outer.y as i128;
    let ix = inner.x as i128;
    let iy = inner.y as i128;
    ox <= ix && oy <= iy && ox + outer.w as i128 >= ix + inner.w as i128 && oy + outer.h as i128
        >= iy + inner.h as i128
}

/// The exact product of two 64-bit integers.
pub fn mul_wide(a: i64, b: i64) -> (r: i128)
    ensures
        r == a * b,
{
    proof {
        let ai = a as int;
        let bi = b as int;
        assert(-0x8000_0000_0000_0000 <= ai <= 0x7fff_ffff_ffff_ffff);
        assert(-0x8000_0000_0000_0000 <= bi <= 0x7fff_ffff_ffff_ffff);
        assert(-0x4000_0000_0000_0000_0000_0000_0000_0000 <= ai * bi <= 0x4000_0000_0000_0000_0000_0000_0000_0000) by (nonlinear_arith)
            requires
                -0x8000_0000_0000_0000 <= ai <= 0x7fff_ffff_ffff_ffff,
                -0x8000_0000_0000_0000 <= bi <= 0x7fff_ffff_ffff_ffff,
        ;
    }
    (a as i128) * (b as i128)
}

/// A rectangle inside another one overlaps only what the outer one overlaps.
pub proof fn lemma_contained_no_overlap(outer: Rect, inner: Rect, other: Rect)
    requires
        rect_contains(outer, inner),
        !rects_overlap(outer, other),
        inner.w > 0,
        inner.h > 0,
    ensures
        !rects_overlap(inner, other),
{
}

/// Overlap is symmetric.
pub proof fn lemma_overlap_symmetric(a: Rect, b: Rect)
    ensures
        rects_overlap(a, b) == rects_overlap(b, a),
{
}

} // verus!
