//! Shapes to cut, placements on a board, and boards.

use vstd::prelude::*;
use crate::geometry::{Rect, pos_len_ok, rects_overlap, rect_in_board, TOO_LONG};

verus! {

/// A rectangular piece that has to be cut out of the boards.
#[derive(Debug)]
pub struct Shape {
    pub id: usize,
    pub name: String,
    pub w: i64,
    pub h: i64,
    pub color_idx: usize,
}

impl Clone for Shape {
    fn clone(&self) -> (r: Self)
        ensures
            r == *self,
    {
        Shape { id: self.id, name: self.name.clone(), w: self.w, h: self.h, color_idx: self.color_idx }
    }
}

impl Shape {
    /// Both sides are positive lengths that the packers accept.
    pub open spec fn valid(&self) -> bool {
        pos_len_ok(self.w as int) && pos_len_ok(self.h as int)
    }

    /// Both sides are positive and at most `TOO_LONG`, which stands for any
    /// side longer than every board.
    pub open spec fn sized(&self) -> bool {
        0 < self.w <= TOO_LONG && 0 < self.h <= TOO_LONG
    }

    /// Width and height of the shape when placed unrotated or rotated by 90 degrees.
    pub open spec fn dims(&self, rotated: bool) -> (i64, i64) {
        if rotated {
            (self.h, self.w)
        } else {
            (self.w, self.h)
        }
    }
}

/// The packer tries the rotated orientation too: rotation is allowed and
/// the shape is not a square.
pub open spec fn tries_rotation(s: Shape, allow_rotate: bool) -> bool {
    allow_rotate && s.w != s.h
}

/// Every shape of the sequence is sized.
pub open spec fn all_sized(shapes: Seq<Shape>) -> bool {
    forall|i: int| 0 <= i < shapes.len() ==> (#[trigger] shapes[i]).sized()
}

/// Every shape of the sequence is valid.
pub open spec fn all_valid(shapes: Seq<Shape>) -> bool {
    forall|i: int| 0 <= i < shapes.len() ==> (#[trigger] shapes[i]).valid()
}

/// Where a shape was put on a board.
#[derive(Debug)]
pub struct Placement {
    pub x: i64,
    pub y: i64,
    pub w: i64,
    pub h: i64,
    pub rotated: bool,
    pub name: String,
    pub color_idx: usize,
    pub shape_id: usize,
}

impl Clone for Placement {
    fn clone(&self) -> (r: Self)
        ensures
            r == *self,
    {
        Placement {
            x: self.x,
            y: self.y,
            w: self.w,
            h: self.h,
            rotated: self.rotated,
            name: self.name.clone(),
            color_idx: self.color_idx,
            shape_id: self.shape_id,
        }
    }
}

impl Placement {
    /// The rectangle that the placement covers.
    pub open spec fn rect(&self) -> Rect {
        Rect { x: self.x, y: self.y, w: self.w, h: self.h }
    }

    /// The shape that this placement puts on the board.
    pub open spec fn source(&self) -> Shape {
        Shape {
            id: self.shape_id,
            name: self.name,
            w: if self.rotated { self.h } else { self.w },
            h: if self.rotated { self.w } else { self.h },
            color_idx: self.color_idx,
        }
    }

    /// The placement of `s` with its lower-left corner at `(x, y)`.
    pub open spec fn spec_of(s: Shape, x: i64, y: i64, rotated: bool) -> Placement {
        Placement {
            x,
            y,
            w: s.dims(rotated).0,
            h: s.dims(rotated).1,
            rotated,
            name: s.name,
            color_idx: s.color_idx,
            shape_id: s.id,
        }
    }

    /// Builds the placement of `s` with its lower-left corner at `(x, y)`.
    pub fn of(s: &Shape, x: i64, y: i64, rotated: bool) -> (p: Placement)
        ensures
            p == Placement::spec_of(*s, x, y, rotated),
    {
        let (w, h) = if rotated {
            (s.h, s.w)
        } else {
            (s.w, s.h)
        };
        Placement { x, y, w, h, rotated, name: s.name.clone(), color_idx: s.color_idx, shape_id: s.id }
    }
}

/// Placing a shape and reading back what was placed gives the shape again.
pub proof fn lemma_source_of(s: Shape, x: i64, y: i64, rotated: bool)
    ensures
        Placement::spec_of(s, x, y, rotated).source() == s,
{
}

/// Pieces of a layout lie on the board `[0, bw) x [0, bh)`, have positive
/// sides, and no two of them overlap.
pub open spec fn layout_ok(ps: Seq<Placement>, bw: int, bh: int) -> bool {
    &&& forall|i: int|
        0 <= i < ps.len() ==> #[trigger] ps[i].w > 0 && ps[i].h > 0 && rect_in_board(
            ps[i].rect(),
            bw,
            bh,
        )
    &&& forall|i: int, j: int|
        0 <= i < ps.len() && 0 <= j < ps.len() && i != j ==> !rects_overlap(
            #[trigger] ps[i].rect(),
            #[trigger] ps[j].rect(),
        )
}

/// Adding a piece that lies on the board, has positive sides and misses
/// every piece of a layout keeps it a layout.
pub proof fn lemma_push_layout(ps: Seq<Placement>, p: Placement, bw: int, bh: int)
    requires
        layout_ok(ps, bw, bh),
        p.w > 0,
        p.h > 0,
        rect_in_board(p.rect(), bw, bh),
        forall|j: int| 0 <= j < ps.len() ==> !rects_overlap(p.rect(), #[trigger] ps[j].rect()) && !rects_overlap(
            ps[j].rect(),
            p.rect(),
        ),
    ensures
        layout_ok(ps.push(p), bw, bh),
{
    let ps2 = ps.push(p);
    assert forall|i: int| 0 <= i < ps2.len() implies #[trigger] ps2[i].w > 0 && ps2[i].h > 0 && rect_in_board(
        ps2[i].rect(),
        bw,
        bh,
    ) by {
        if i < ps.len() {
            assert(ps2[i] == ps[i]);
        }
    }
    assert forall|i: int, j: int|
        0 <= i < ps2.len() && 0 <= j < ps2.len() && i != j implies !rects_overlap(
        #[trigger] ps2[i].rect(),
        #[trigger] ps2[j].rect(),
    ) by {
        if i < ps.len() {
            assert(ps2[i] == ps[i]);
        }
        if j < ps.len() {
            assert(ps2[j] == ps[j]);
        }
    }
}

/// The shapes that a sequence of placements puts on a board, in order.
pub open spec fn sources(ps: Seq<Placement>) -> Seq<Shape> {
    ps.map_values(|p: Placement| p.source())
}

/// One board and the pieces cut from it, in the order they were placed.
#[derive(Debug)]
pub struct Board {
    pub placements: Vec<Placement>,
}

impl Default for Board {
    fn default() -> (b: Self)
        ensures
            b.placements@ == Seq::<Placement>::empty(),
    {
        Board { placements: Vec::new() }
    }
}

impl Clone for Board {
    fn clone(&self) -> (r: Self)
        ensures
            r.placements@ == self.placements@,
    {
        let mut v: Vec<Placement> = Vec::new();
        let n = self.placements.len();
        for i in 0..n
            invariant
                n == self.placements@.len(),
                v@ == self.placements@.take(i as int),
        {
            v.push(self.placements[i].clone());
            assert(v@ =~= self.placements@.take(i + 1));
        }
        assert(v@ =~= self.placements@);
        Board { placements: v }
    }
}

} // verus!
