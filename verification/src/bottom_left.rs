//! The bottom-left (skyline) packer: the board's filled region is kept as a
//! skyline, a height for every stretch of the board's width, and each shape
//! goes to the lowest, then leftmost, spot on top of it.

use vstd::prelude::*;
use crate::geometry::{rects_overlap, rect_in_board, pos_len_ok, len_ok, MAX_LEN};
use crate::model::{Shape, Placement, Board, layout_ok, all_valid, tries_rotation, sources, lemma_push_layout};
use crate::select::{tracks, first_min, lemma_tracks_push, lemma_tracks_first_min, is_first_min};
use crate::run::{run_bin, lemma_run_bin_take, lemma_run_bin_conserves, places_given_shape};

verus! {

/// A stretch `[x, x + w)` of the board's width that is filled up to height `y`.
#[derive(Clone, Copy, Debug, PartialEq, Eq, Structural)]
pub struct SkylineSeg {
    pub x: i64,
    pub y: i64,
    pub w: i64,
}

/// The segments, in order, cover `[lo, hi)` edge to edge, each with a
/// positive width.
pub open spec fn tiles(sky: Seq<SkylineSeg>, lo: int, hi: int) -> bool
    decreases sky.len(),
{
    if sky.len() == 0 {
        lo == hi
    } else {
        let l = sky.last();
        &&& l.w > 0
        &&& l.x + l.w == hi
        &&& tiles(sky.drop_last(), lo, l.x as int)
    }
}

/// The stretches `[ax, ax + aw)` and `[bx, bx + bw)` share a point.
pub open spec fn x_overlap(ax: int, aw: int, bx: int, bw: int) -> bool {
    ax < bx + bw && bx < ax + aw
}

/// The height of the skyline over `[x, x + w)`: the greatest height of a
/// segment that meets the stretch, and at least 0.
pub open spec fn sky_max(sky: Seq<SkylineSeg>, x: int, w: int) -> int
    decreases sky.len(),
{
    if sky.len() == 0 {
        0
    } else {
        let m = sky_max(sky.drop_last(), x, w);
        let s = sky.last();
        if !x_overlap(s.x as int, s.w as int, x, w) {
            m
        } else if s.y > m {
            s.y as int
        } else {
            m
        }
    }
}

/// The two spots a segment offers a `iw`-wide piece: its left end, and its
/// right end (moved right to 0 if it would start left of the board).
pub open spec fn bl_cx(s: SkylineSeg, xi: int, iw: int) -> int {
    if xi == 0 {
        s.x as int
    } else if s.x + s.w - iw > 0 {
        s.x + s.w - iw
    } else {
        0
    }
}

/// The weight of the height in a spot's key: spots are compared by height,
/// then by their left edge.
pub const KEY_SCALE: i128 = 0x2_0000_0000;

/// The key of a `iw x ih` piece with its left edge at `cx`, if the piece
/// stays on the board there.
pub open spec fn bl_key(sky: Seq<SkylineSeg>, bw: int, bh: int, cx: int, iw: int, ih: int) -> Option<int> {
    if cx < 0 || cx + iw > bw {
        None
    } else if sky_max(sky, cx, iw) + ih > bh {
        None
    } else {
        Some(sky_max(sky, cx, iw) * KEY_SCALE + cx)
    }
}

/// The keys of both spots of every segment, in order.
pub open spec fn bl_keys(sky: Seq<SkylineSeg>, bw: int, bh: int, iw: int, ih: int) -> Seq<Option<int>> {
    Seq::new(2 * sky.len(), |j: int| bl_key(sky, bw, bh, bl_cx(sky[j / 2], j % 2, iw), iw, ih))
}

/// All candidates, in the order in which they are examined: every spot
/// with the shape unrotated, then, if rotation is tried, every spot with the
/// shape rotated.
pub open spec fn bl_all_keys(sky: Seq<SkylineSeg>, bw: int, bh: int, s: Shape, allow_rotate: bool) -> Seq<Option<int>> {
    bl_keys(sky, bw, bh, s.w as int, s.h as int) + if tries_rotation(s, allow_rotate) {
        bl_keys(sky, bw, bh, s.h as int, s.w as int)
    } else {
        Seq::empty()
    }
}

/// The part of the skyline left of `c`, cut at `c`.
pub open spec fn left_part(sky: Seq<SkylineSeg>, c: int) -> Seq<SkylineSeg>
    decreases sky.len(),
{
    if sky.len() == 0 {
        Seq::empty()
    } else {
        let s = sky.last();
        left_part(sky.drop_last(), c) + if s.x + s.w <= c {
            seq![s]
        } else if s.x < c {
            seq![SkylineSeg { x: s.x, y: s.y, w: (c - s.x) as i64 }]
        } else {
            Seq::empty()
        }
    }
}

/// The part of the skyline right of `c`, cut at `c`.
pub open spec fn right_part(sky: Seq<SkylineSeg>, c: int) -> Seq<SkylineSeg>
    decreases sky.len(),
{
    if sky.len() == 0 {
        Seq::empty()
    } else {
        let s = sky.last();
        right_part(sky.drop_last(), c) + if s.x >= c {
            seq![s]
        } else if s.x + s.w > c {
            seq![SkylineSeg { x: c as i64, y: s.y, w: (s.x + s.w - c) as i64 }]
        } else {
            Seq::empty()
        }
    }
}

/// Neighbouring segments of equal height joined into one.
pub open spec fn merge_segs(segs: Seq<SkylineSeg>) -> Seq<SkylineSeg>
    decreases segs.len(),
{
    if segs.len() == 0 {
        Seq::empty()
    } else {
        let m = merge_segs(segs.drop_last());
        let s = segs.last();
        if m.len() > 0 && m.last().y == s.y && m.last().x + m.last().w == s.x {
            m.drop_last().push(SkylineSeg { x: m.last().x, y: m.last().y, w: (m.last().w + s.w) as i64 })
        } else {
            m.push(s)
        }
    }
}

/// The skyline once a `nw x nh` piece sits at `(nx, ny)`: over the piece it
/// rises to the piece's top plus the kerf.
pub open spec fn bl_update(sky: Seq<SkylineSeg>, nx: int, ny: int, nw: int, nh: int, k: int) -> Seq<SkylineSeg> {
    merge_segs(
        left_part(sky, nx) + seq![SkylineSeg { x: nx as i64, y: (ny + nh + k) as i64, w: nw as i64 }]
            + right_part(sky, nx + nw),
    )
}

/// The spot and orientation of candidate `i`.
pub open spec fn bl_candidate(sky: Seq<SkylineSeg>, s: Shape, i: int) -> (int, bool) {
    let n2 = 2 * sky.len();
    let rot = i >= n2;
    let j = if rot { i - n2 } else { i };
    (bl_cx(sky[j / 2], j % 2, s.dims(rot).0 as int), rot)
}

/// One insertion: the new skyline and the placement, if the shape fits.
pub open spec fn bl_insert_spec(sky: Seq<SkylineSeg>, bw: int, bh: int, k: int, s: Shape, allow_rotate: bool) -> (
    Seq<SkylineSeg>,
    Option<Placement>,
) {
    match first_min(bl_all_keys(sky, bw, bh, s, allow_rotate)) {
        None => (sky, None),
        Some(i) => {
            let (cx, rot) = bl_candidate(sky, s, i);
            let (iw, ih) = s.dims(rot);
            let my = sky_max(sky, cx, iw as int);
            (bl_update(sky, cx, my, iw as int, ih as int, k), Some(Placement::spec_of(s, cx as i64, my as i64, rot)))
        },
    }
}

/// `bl_insert_spec` as the step of a run over many shapes.
pub open spec fn bl_step(bw: i64, bh: i64, k: i64, allow_rotate: bool) -> spec_fn(Seq<SkylineSeg>, Shape) -> (
    Seq<SkylineSeg>,
    Option<Placement>,
) {
    |sky: Seq<SkylineSeg>, s: Shape| bl_insert_spec(sky, bw as int, bh as int, k as int, s, allow_rotate)
}

/// The segment lies on top of every piece it stretches over.
pub open spec fn above_all(s: SkylineSeg, ps: Seq<Placement>) -> bool {
    forall|j: int|
        0 <= j < ps.len() && x_overlap(s.x as int, s.w as int, (#[trigger] ps[j]).x as int, ps[j].w as int)
            ==> s.y >= ps[j].y + ps[j].h
}

/// Every segment has a height between 0 and `top` and lies on top of every
/// piece it stretches over.
pub open spec fn sky_ok(sky: Seq<SkylineSeg>, ps: Seq<Placement>, top: int) -> bool {
    forall|i: int| 0 <= i < sky.len() ==> 0 <= (#[trigger] sky[i]).y <= top && above_all(sky[i], ps)
}

/// A single board packed bottom-left along a skyline.
pub struct BottomLeftBin {
    bw: i64,
    bh: i64,
    kerf: i64,
    skyline: Vec<SkylineSeg>,
    pub placements: Vec<Placement>,
}

impl BottomLeftBin {
    pub closed spec fn board_w(&self) -> i64 {
        self.bw
    }

    pub closed spec fn board_h(&self) -> i64 {
        self.bh
    }

    pub closed spec fn kerf(&self) -> i64 {
        self.kerf
    }

    /// The pieces placed so far, in order.
    pub closed spec fn placed(&self) -> Seq<Placement> {
        self.placements@
    }

    /// The skyline, left to right.
    pub closed spec fn sky(&self) -> Seq<SkylineSeg> {
        self.skyline@
    }

    /// The board's sizes and kerf are accepted lengths, the skyline covers
    /// the board's width and lies on top of every piece, and the pieces form
    /// a layout.
    pub open spec fn wf(&self) -> bool {
        &&& pos_len_ok(self.board_w() as int)
        &&& pos_len_ok(self.board_h() as int)
        &&& len_ok(self.kerf() as int)
        &&& tiles(self.sky(), 0, self.board_w() as int)
        &&& sky_ok(self.sky(), self.placed(), self.board_h() + self.kerf())
        &&& layout_ok(self.placed(), self.board_w() as int, self.board_h() as int)
    }

    /// An empty `bw x bh` board: a flat skyline at height 0.
    pub fn new(bw: i64, bh: i64, kerf: i64) -> (b: Self)
        requires
            pos_len_ok(bw as int),
            pos_len_ok(bh as int),
            len_ok(kerf as int),
        ensures
            b.wf(),
            b.board_w() == bw,
            b.board_h() == bh,
            b.kerf() == kerf,
            b.sky() == seq![SkylineSeg { x: 0, y: 0, w: bw }],
            b.placed() == Seq::<Placement>::empty(),
    {
        let mut skyline: Vec<SkylineSeg> = Vec::new();
        skyline.push(SkylineSeg { x: 0, y: 0, w: bw });
        let b = BottomLeftBin { bw, bh, kerf, skyline, placements: Vec::new() };
        assert(b.sky().drop_last() =~= Seq::<SkylineSeg>::empty());
        assert(tiles(b.sky().drop_last(), 0, 0));
        assert(b.sky().last() == SkylineSeg { x: 0, y: 0, w: bw });
        b
    }

    /// The height of the skyline over `[x, x + w)`.
    fn sky_y(&self, x: i64, w: i64) -> (r: i64)
        requires
            tiles(self.skyline@, 0, self.bw as int),
            pos_len_ok(self.bw as int),
            sky_ok(self.skyline@, self.placements@, self.bh + self.kerf),
            pos_len_ok(self.bh as int),
            len_ok(self.kerf as int),
            0 <= x,
            0 <= w,
            x + w <= MAX_LEN,
        ensures
            r == sky_max(self.skyline@, x as int, w as int),
            0 <= r <= self.bh + self.kerf,
    {
        proof {
            lemma_tiles_bounds(self.skyline@, 0, self.bw as int);
        }
        let mut max_y: i64 = 0;
        let n = self.skyline.len();
        for i in 0..n
            invariant
                n == self.skyline@.len(),
                max_y == sky_max(self.skyline@.take(i as int), x as int, w as int),
                0 <= max_y <= self.bh + self.kerf,
                forall|t: int| 0 <= t < n ==> 0 <= (#[trigger] self.skyline@[t]).x && self.skyline@[t].x
                    + self.skyline@[t].w <= self.bw,
                sky_ok(self.skyline@, self.placements@, self.bh + self.kerf),
                pos_len_ok(self.bw as int),
                0 <= x,
                x + w <= MAX_LEN,
        {
            let seg = self.skyline[i];
            assert(self.skyline@.take(i + 1).drop_last() =~= self.skyline@.take(i as int));
            assert(self.skyline@.take(i + 1).last() == seg);
            if !(seg.x + seg.w <= x || seg.x >= x + w) {
                if seg.y > max_y {
                    max_y = seg.y;
                }
            }
        }
        assert(self.skyline@.take(n as int) =~= self.skyline@);
        max_y
    }

    /// Puts `shape` at the lowest, then leftmost, spot on the skyline where
    /// it stays on the board, and raises the skyline over it.
    pub fn insert(&mut self, shape: &Shape, allow_rotate: bool) -> (r: Option<Placement>)
        requires
            old(self).wf(),
            shape.valid(),
        ensures
            final(self).wf(),
            final(self).board_w() == old(self).board_w(),
            final(self).board_h() == old(self).board_h(),
            final(self).kerf() == old(self).kerf(),
            (final(self).sky(), r) == bl_insert_spec(
                old(self).sky(),
                old(self).board_w() as int,
                old(self).board_h() as int,
                old(self).kerf() as int,
                *shape,
                allow_rotate,
            ),
            final(self).placed() == match r {
                Some(p) => old(self).placed().push(p),
                None => old(self).placed(),
            },
    {
        let n = self.skyline.len();
        let ghost sky0 = self.skyline@;
        let ghost k0 = bl_keys(sky0, self.bw as int, self.bh as int, shape.w as int, shape.h as int);
        proof {
            lemma_tiles_bounds(sky0, 0, self.bw as int);
        }
        let (b1, y1, x1) = self.bl_scan(shape.w, shape.h, false, None, 0, 0, Ghost(Seq::empty()));
        assert(Seq::<Option<int>>::empty() + k0 =~= k0);
        let mut best = b1;
        let mut best_y = y1;
        let mut best_x = x1;
        let rot_tried = allow_rotate && shape.w != shape.h;
        if rot_tried {
            let (b2, y2, x2) = self.bl_scan(shape.h, shape.w, true, best, best_y, best_x, Ghost(k0));
            best = b2;
            best_y = y2;
            best_x = x2;
        }
        let ghost keys = bl_all_keys(sky0, self.bw as int, self.bh as int, *shape, allow_rotate);
        assert(keys =~= k0 + if rot_tried {
            bl_keys(sky0, self.bw as int, self.bh as int, shape.h as int, shape.w as int)
        } else {
            Seq::empty()
        });
        proof {
            lemma_tracks_first_min(keys, bl_cand_int(best, n as int));
        }
        let (si, xi, rotated) = match best {
            None => {
                return None;
            },
            Some(c) => c,
        };
        let (iw, ih) = if rotated {
            (shape.h, shape.w)
        } else {
            (shape.w, shape.h)
        };
        let ghost gi = bl_cand_int(best, n as int)->0;
        proof {
            lemma_bl_choice(sky0, self.bw as int, self.bh as int, self.kerf as int, *shape, allow_rotate, gi, si as int, xi as int, rotated, best_x as int, best_y as int);
        }
        let bx = best_x;
        let by = best_y;
        let p = Placement::of(shape, bx, by, rotated);
        proof {
            lemma_bl_spot(sky0, self.bw as int, self.placements@, self.bh + self.kerf, bx as int, iw as int);
            let ps0 = self.placements@;
            assert forall|j: int| 0 <= j < ps0.len() implies !rects_overlap(p.rect(), ps0[j].rect())
                && !rects_overlap(ps0[j].rect(), p.rect()) by {
                if x_overlap(bx as int, iw as int, ps0[j].x as int, ps0[j].w as int) {
                    assert(ps0[j].y + ps0[j].h <= by);
                }
            }
        }
        self.update_skyline(bx, by, iw, ih, Ghost(p));
        proof {
            lemma_push_layout(old(self).placements@, p, self.bw as int, self.bh as int);
        }
        self.placements.push(p.clone());
        Some(p)
    }

    /// Raises the skyline over `[nx, nx + nw)` to the top of the piece at
    /// `(nx, ny)` of height `nh`, plus the kerf.
    fn update_skyline(&mut self, nx: i64, ny: i64, nw: i64, nh: i64, Ghost(p): Ghost<Placement>)
        requires
            tiles(old(self).skyline@, 0, old(self).bw as int),
            pos_len_ok(old(self).bw as int),
            pos_len_ok(old(self).bh as int),
            len_ok(old(self).kerf as int),
            sky_ok(old(self).skyline@, old(self).placements@, old(self).bh + old(self).kerf),
            forall|j: int| 0 <= j < old(self).placements@.len() ==> (#[trigger] old(self).placements@[j]).w > 0,
            forall|j: int|
                0 <= j < old(self).placements@.len() && x_overlap(
                    nx as int,
                    nw as int,
                    (#[trigger] old(self).placements@[j]).x as int,
                    old(self).placements@[j].w as int,
                ) ==> old(self).placements@[j].y + old(self).placements@[j].h <= ny,
            0 <= nx,
            0 < nw,
            nx + nw <= old(self).bw,
            0 <= ny,
            0 < nh,
            ny + nh <= old(self).bh,
            p.x == nx,
            p.y == ny,
            p.w == nw,
            p.h == nh,
        ensures
            final(self).skyline@ == bl_update(old(self).skyline@, nx as int, ny as int, nw as int, nh as int, old(self).kerf as int),
            tiles(final(self).skyline@, 0, old(self).bw as int),
            sky_ok(final(self).skyline@, old(self).placements@.push(p), old(self).bh + old(self).kerf),
            final(self).bw == old(self).bw,
            final(self).bh == old(self).bh,
            final(self).kerf == old(self).kerf,
            final(self).placements == old(self).placements,
    {
        let k = self.kerf;
        let ne = nx + nw;
        let new_y = ny + nh + k;
        let ghost sky = self.skyline@;
        let ghost top = self.bh + self.kerf;
        proof {
            lemma_tiles_bounds(sky, 0, self.bw as int);
        }
        let mut left: Vec<SkylineSeg> = Vec::new();
        let mut right: Vec<SkylineSeg> = Vec::new();
        let n = self.skyline.len();
        for i in 0..n
            invariant
                n == sky.len(),
                sky == self.skyline@,
                ne == nx + nw,
                0 < nw,
                left@ == left_part(sky.take(i as int), nx as int),
                right@ == right_part(sky.take(i as int), ne as int),
                forall|t: int| 0 <= t < n ==> 0 <= (#[trigger] sky[t]).x && sky[t].w > 0 && sky[t].x + sky[t].w <= self.bw,
                pos_len_ok(self.bw as int),
        {
            let seg = self.skyline[i];
            let ex = seg.x + seg.w;
            assert(sky.take(i + 1).drop_last() =~= sky.take(i as int));
            assert(sky.take(i + 1).last() == seg);
            if ex <= nx || seg.x >= ne {
                if ex <= nx {
                    left.push(seg);
                    assert(right@ =~= right@ + Seq::<SkylineSeg>::empty());
                } else {
                    right.push(seg);
                    assert(left@ =~= left@ + Seq::<SkylineSeg>::empty());
                }
            } else {
                if seg.x < nx {
                    left.push(SkylineSeg { x: seg.x, y: seg.y, w: nx - seg.x });
                } else {
                    assert(left@ =~= left@ + Seq::<SkylineSeg>::empty());
                }
                if ex > ne {
                    right.push(SkylineSeg { x: ne, y: seg.y, w: ex - ne });
                } else {
                    assert(right@ =~= right@ + Seq::<SkylineSeg>::empty());
                }
            }
        }
        assert(sky.take(n as int) =~= sky);
        let ghost new_seg = SkylineSeg { x: nx, y: new_y, w: nw };
        let mut new_sky = left;
        new_sky.push(SkylineSeg { x: nx, y: new_y, w: nw });
        let m = right.len();
        for j in 0..m
            invariant
                m == right@.len(),
                new_sky@ == left_part(sky, nx as int) + seq![new_seg] + right@.take(j as int),
        {
            new_sky.push(right[j]);
            assert(right@.take(j + 1) =~= right@.take(j as int).push(right@[j as int]));
            assert(new_sky@ =~= left_part(sky, nx as int) + seq![new_seg] + right@.take(j + 1));
        }
        assert(right@.take(m as int) =~= right@);
        let ghost pre = new_sky@;
        let ghost ps = self.placements@.push(p);
        proof {
            lemma_update_premerge(sky, self.bw as int, nx as int, ny as int, nw as int, nh as int, k as int, self.placements@, p, top);
            assert forall|j: int| 0 <= j < ps.len() implies (#[trigger] ps[j]).w > 0 by {
                if j < ps.len() - 1 {
                    assert(ps[j] == self.placements@[j]);
                }
            }
            lemma_merge(pre, 0, self.bw as int, ps, top);
        }
        let mut merged: Vec<SkylineSeg> = Vec::new();
        let total = new_sky.len();
        for i in 0..total
            invariant
                total == pre.len(),
                new_sky@ == pre,
                tiles(pre, 0, self.bw as int),
                pos_len_ok(self.bw as int),
                merged@ == merge_segs(pre.take(i as int)),
        {
            let s = new_sky[i];
            proof {
                lemma_tiles_bounds(pre, 0, self.bw as int);
                assert(pre[i as int] == s);
                lemma_tiles_prefix(pre, 0, self.bw as int, i as int);
                lemma_merge_tiles(pre.take(i as int), 0, s.x as int);
                lemma_tiles_bounds(merged@, 0, s.x as int);
                assert(pre.take(i + 1).drop_last() =~= pre.take(i as int));
                assert(pre.take(i + 1).last() == s);
            }
            if merged.len() > 0 {
                let li = merged.len() - 1;
                let last = merged[li];
                if last.y == s.y && last.x + last.w == s.x {
                    merged.set(li, SkylineSeg { x: last.x, y: last.y, w: last.w + s.w });
                    assert(merged@ =~= merge_segs(pre.take(i as int)).drop_last().push(
                        SkylineSeg { x: last.x, y: last.y, w: (last.w + s.w) as i64 },
                    ));
                } else {
                    merged.push(s);
                }
            } else {
                merged.push(s);
            }
        }
        assert(pre.take(total as int) =~= pre);
        self.skyline = merged;
    }

    /// Scans both spots of every segment for a `iw x ih` piece in the given
    /// orientation; the choice over the candidates `prior` examined before is
    /// carried in.
    fn bl_scan(
        &self,
        iw: i64,
        ih: i64,
        rotated: bool,
        best: Option<(usize, usize, bool)>,
        best_y: i64,
        best_x: i64,
        Ghost(prior): Ghost<Seq<Option<int>>>,
    ) -> (res: (Option<(usize, usize, bool)>, i64, i64))
        requires
            self.wf(),
            pos_len_ok(iw as int),
            pos_len_ok(ih as int),
            prior.len() == if rotated { 2 * self.skyline@.len() } else { 0 },
            tracks(prior, bl_cand_int(best, self.skyline@.len() as int)),
            best is Some ==> prior[bl_cand_int(best, self.skyline@.len() as int)->0] == Some(
                best_y * KEY_SCALE + best_x,
            ) && 0 <= best_x <= MAX_LEN && 0 <= best_y <= self.bh + self.kerf,
            best matches Some((i, xi, _)) ==> i < self.skyline@.len() && xi < 2,
        ensures
            ({
                let keys = prior + bl_keys(self.skyline@, self.bw as int, self.bh as int, iw as int, ih as int);
                &&& tracks(keys, bl_cand_int(res.0, self.skyline@.len() as int))
                &&& res.0 is Some ==> keys[bl_cand_int(res.0, self.skyline@.len() as int)->0] == Some(
                    res.1 * KEY_SCALE + res.2,
                ) && 0 <= res.2 <= MAX_LEN && 0 <= res.1 <= self.bh + self.kerf
            }),
            res.0 matches Some((i, xi, _)) ==> i < self.skyline@.len() && xi < 2,
    {
        let ghost sky = self.skyline@;
        let ghost keys = bl_keys(sky, self.bw as int, self.bh as int, iw as int, ih as int);
        let mut best = best;
        let mut best_y = best_y;
        let mut best_x = best_x;
        let n = self.skyline.len();
        proof {
            lemma_tiles_bounds(sky, 0, self.bw as int);
        }
        for i in 0..n
            invariant
                n == sky.len(),
                sky == self.skyline@,
                self.wf(),
                keys == bl_keys(sky, self.bw as int, self.bh as int, iw as int, ih as int),
                pos_len_ok(iw as int),
                pos_len_ok(ih as int),
                prior.len() == if rotated { 2 * n } else { 0 },
                tracks(prior + keys.take(2 * i), bl_cand_int(best, n as int)),
                best is Some ==> (prior + keys.take(2 * i))[bl_cand_int(best, n as int)->0] == Some(
                    best_y * KEY_SCALE + best_x,
                ) && 0 <= best_x <= MAX_LEN && 0 <= best_y <= self.bh + self.kerf,
                best matches Some((bi, xi, _)) ==> bi < n && xi < 2,
                forall|t: int| 0 <= t < n ==> 0 <= (#[trigger] sky[t]).x && sky[t].w > 0 && sky[t].x + sky[t].w <= self.bw,
        {
            let seg = self.skyline[i];
            for xi in 0..2usize
                invariant
                    n == sky.len(),
                    0 <= i < n,
                    seg == sky[i as int],
                    sky == self.skyline@,
                    self.wf(),
                    keys == bl_keys(sky, self.bw as int, self.bh as int, iw as int, ih as int),
                    pos_len_ok(iw as int),
                    pos_len_ok(ih as int),
                    prior.len() == if rotated { 2 * n } else { 0 },
                    tracks(prior + keys.take(2 * i + xi), bl_cand_int(best, n as int)),
                    best is Some ==> (prior + keys.take(2 * i + xi))[bl_cand_int(best, n as int)->0] == Some(
                        best_y * KEY_SCALE + best_x,
                    ) && 0 <= best_x <= MAX_LEN && 0 <= best_y <= self.bh + self.kerf,
                    best matches Some((bi, bxi, _)) ==> bi < n && bxi < 2,
                    forall|t: int| 0 <= t < n ==> 0 <= (#[trigger] sky[t]).x && sky[t].w > 0 && sky[t].x + sky[t].w <= self.bw,
            {
                let ghost pre = prior + keys.take(2 * i + xi);
                let ghost kidx = 2 * i + xi;
                proof {
                    lemma_tracks_push(pre, bl_cand_int(best, n as int), keys[kidx]);
                    assert(pre.push(keys[kidx]) =~= prior + keys.take(kidx + 1));
                    assert(kidx / 2 == i as int && kidx % 2 == xi as int);
                }
                let cx = if xi == 0 {
                    seg.x
                } else if seg.x + seg.w - iw > 0 {
                    seg.x + seg.w - iw
                } else {
                    0
                };
                assert(cx == bl_cx(sky[i as int], xi as int, iw as int));
                if !(cx < 0 || cx + iw > self.bw) {
                    let max_y = self.sky_y(cx, iw);
                    if !(max_y + ih > self.bh) {
                        proof {
                            if best is Some {
                                lemma_key_order(max_y as int, cx as int, best_y as int, best_x as int);
                            }
                        }
                        if best.is_none() || max_y < best_y || (max_y == best_y && cx < best_x) {
                            best_y = max_y;
                            best_x = cx;
                            best = Some((i, xi, rotated));
                        }
                    }
                }
            }
        }
        assert(keys.take(2 * n) =~= keys);
        (best, best_y, best_x)
    }
}

/// The number of the candidate that is spot `xi` of segment `i` in the
/// given orientation, when there are `n` segments.
pub open spec fn bl_cand_int(b: Option<(usize, usize, bool)>, n: int) -> Option<int> {
    match b {
        Some((i, xi, rot)) => Some((if rot { 2 * n } else { 0 }) + 2 * i + xi),
        None => None,
    }
}

/// Keys order spots by height, then by left edge.
pub proof fn lemma_key_order(y1: int, x1: int, y2: int, x2: int)
    requires
        0 <= x1 <= MAX_LEN,
        0 <= x2 <= MAX_LEN,
    ensures
        (y1 * KEY_SCALE + x1 < y2 * KEY_SCALE + x2) == (y1 < y2 || (y1 == y2 && x1 < x2)),
        (y1 * KEY_SCALE + x1 == y2 * KEY_SCALE + x2) == (y1 == y2 && x1 == x2),
{
    assert((y1 * 0x2_0000_0000 + x1 < y2 * 0x2_0000_0000 + x2) == (y1 < y2 || (y1 == y2 && x1 < x2))) by (nonlinear_arith)
        requires
            0 <= x1 <= 0x8000_0000,
            0 <= x2 <= 0x8000_0000,
    ;
    assert((y1 * 0x2_0000_0000 + x1 == y2 * 0x2_0000_0000 + x2) == (y1 == y2 && x1 == x2)) by (nonlinear_arith)
        requires
            0 <= x1 <= 0x8000_0000,
            0 <= x2 <= 0x8000_0000,
    ;
}

/// The chosen candidate is the spot recorded by the scan, at the height of
/// the skyline over it, and the piece stays on the board there.
proof fn lemma_bl_choice(
    sky: Seq<SkylineSeg>,
    bw: int,
    bh: int,
    k: int,
    s: Shape,
    allow_rotate: bool,
    gi: int,
    si: int,
    xi: int,
    rotated: bool,
    bx: int,
    by: int,
)
    requires
        tiles(sky, 0, bw),
        pos_len_ok(bw),
        pos_len_ok(bh),
        len_ok(k),
        forall|i: int| 0 <= i < sky.len() ==> 0 <= (#[trigger] sky[i]).y <= bh + k,
        s.valid(),
        is_first_min(bl_all_keys(sky, bw, bh, s, allow_rotate), gi),
        gi == (if rotated { 2 * sky.len() } else { 0 }) + 2 * si + xi,
        0 <= si < sky.len(),
        0 <= xi < 2,
        rotated ==> tries_rotation(s, allow_rotate),
        bl_all_keys(sky, bw, bh, s, allow_rotate)[gi] == Some(by * KEY_SCALE + bx),
        0 <= bx <= MAX_LEN,
    ensures
        bl_candidate(sky, s, gi) == (bx, rotated),
        by == sky_max(sky, bx, s.dims(rotated).0 as int),
        0 <= by,
        bx + s.dims(rotated).0 <= bw,
        by + s.dims(rotated).1 <= bh,
{
    let keys = bl_all_keys(sky, bw, bh, s, allow_rotate);
    let n = sky.len();
    let (iw, ih) = s.dims(rotated);
    let j = if rotated { gi - 2 * n } else { gi };
    assert(j / 2 == si && j % 2 == xi);
    if rotated {
        assert(keys[gi] == bl_keys(sky, bw, bh, s.h as int, s.w as int)[j]);
    } else {
        assert(keys[gi] == bl_keys(sky, bw, bh, s.w as int, s.h as int)[j]);
    }
    let cx = bl_cx(sky[si], xi, iw as int);
    assert(keys[gi] == bl_key(sky, bw, bh, cx, iw as int, ih as int));
    lemma_tiles_bounds(sky, 0, bw);
    let my = sky_max(sky, cx, iw as int);
    lemma_sky_max(sky, cx, iw as int, bh + k);
    lemma_key_order(my, cx, by, bx);
}

/// A piece put at height `sky_max` over its stretch lies on top of every
/// earlier piece that it shares a stretch with.
pub proof fn lemma_bl_spot(sky: Seq<SkylineSeg>, bw: int, ps: Seq<Placement>, top: int, cx: int, iw: int)
    requires
        tiles(sky, 0, bw),
        sky_ok(sky, ps, top),
        0 <= top,
        layout_ok(ps, bw, top),
        0 <= cx,
        0 < iw,
        cx + iw <= bw,
    ensures
        forall|j: int|
            0 <= j < ps.len() && x_overlap(cx, iw, (#[trigger] ps[j]).x as int, ps[j].w as int) ==> ps[j].y + ps[j].h
                <= sky_max(sky, cx, iw),
        0 <= sky_max(sky, cx, iw) <= top,
{
    lemma_sky_max(sky, cx, iw, top);
    assert forall|j: int|
        0 <= j < ps.len() && x_overlap(cx, iw, (#[trigger] ps[j]).x as int, ps[j].w as int) implies ps[j].y + ps[j].h
            <= sky_max(sky, cx, iw) by {
        let q = ps[j];
        assert(rect_in_board(q.rect(), bw, top));
        let x0 = if q.x > cx { q.x as int } else { cx };
        lemma_tiles_cover(sky, 0, bw, x0);
        let i = choose|i: int| 0 <= i < sky.len() && (#[trigger] sky[i]).x <= x0 < sky[i].x + sky[i].w;
        assert(above_all(sky[i], ps));
    }
}

/// Before joining neighbours, the raised skyline covers the board and lies
/// on top of every piece, the new one included.
pub proof fn lemma_update_premerge(
    sky: Seq<SkylineSeg>,
    bw: int,
    nx: int,
    ny: int,
    nw: int,
    nh: int,
    k: int,
    ps: Seq<Placement>,
    p: Placement,
    top: int,
)
    requires
        tiles(sky, 0, bw),
        pos_len_ok(bw),
        sky_ok(sky, ps, top),
        forall|j: int|
            0 <= j < ps.len() && x_overlap(nx, nw, (#[trigger] ps[j]).x as int, ps[j].w as int) ==> ps[j].y + ps[j].h
                <= ny,
        0 <= nx,
        0 < nw,
        nx + nw <= bw,
        0 <= ny,
        0 < nh,
        0 <= k,
        ny + nh + k <= top,
        top <= 2 * MAX_LEN,
        p.x == nx,
        p.y == ny,
        p.w == nw,
        p.h == nh,
    ensures
        ({
            let pre = left_part(sky, nx) + seq![SkylineSeg { x: nx as i64, y: (ny + nh + k) as i64, w: nw as i64 }]
                + right_part(sky, nx + nw);
            &&& tiles(pre, 0, bw)
            &&& sky_ok(pre, ps.push(p), top)
        }),
{
    let ns = SkylineSeg { x: nx as i64, y: (ny + nh + k) as i64, w: nw as i64 };
    let lp = left_part(sky, nx);
    let rp = right_part(sky, nx + nw);
    lemma_left_part(sky, 0, bw, nx);
    lemma_right_part(sky, 0, bw, nx + nw);
    lemma_tiles_single(ns, nx, nx + nw);
    lemma_tiles_concat(lp, seq![ns], 0, nx, nx + nw);
    lemma_tiles_concat(lp + seq![ns], rp, 0, nx + nw, bw);
    let pre = lp + seq![ns] + rp;
    let ps2 = ps.push(p);
    assert forall|i: int| 0 <= i < pre.len() implies 0 <= (#[trigger] pre[i]).y <= top && above_all(pre[i], ps2) by {
        let e = pre[i];
        if i < lp.len() {
            assert(e == lp[i]);
            let j = choose|j: int| 0 <= j < sky.len() && sub_of(lp[i], sky[j]) && lp[i].x + lp[i].w <= nx;
            assert(above_all(sky[j], ps));
            assert forall|t: int|
                0 <= t < ps2.len() && x_overlap(e.x as int, e.w as int, (#[trigger] ps2[t]).x as int, ps2[t].w as int)
                implies e.y >= ps2[t].y + ps2[t].h by {
                if t < ps.len() {
                    assert(ps2[t] == ps[t]);
                    assert(x_overlap(sky[j].x as int, sky[j].w as int, ps[t].x as int, ps[t].w as int));
                } else {
                    assert(ps2[t] == p);
                }
            }
        } else if i == lp.len() {
            assert(e == ns);
            assert forall|t: int|
                0 <= t < ps2.len() && x_overlap(e.x as int, e.w as int, (#[trigger] ps2[t]).x as int, ps2[t].w as int)
                implies e.y >= ps2[t].y + ps2[t].h by {
                if t < ps.len() {
                    assert(ps2[t] == ps[t]);
                } else {
                    assert(ps2[t] == p);
                }
            }
        } else {
            let ri = i - lp.len() - 1;
            assert(e == rp[ri]);
            let j = choose|j: int| 0 <= j < sky.len() && sub_of(rp[ri], sky[j]) && rp[ri].x >= nx + nw;
            assert(above_all(sky[j], ps));
            assert forall|t: int|
                0 <= t < ps2.len() && x_overlap(e.x as int, e.w as int, (#[trigger] ps2[t]).x as int, ps2[t].w as int)
                implies e.y >= ps2[t].y + ps2[t].h by {
                if t < ps.len() {
                    assert(ps2[t] == ps[t]);
                    assert(x_overlap(sky[j].x as int, sky[j].w as int, ps[t].x as int, ps[t].w as int));
                } else {
                    assert(ps2[t] == p);
                }
            }
        }
    }
}

/// A single segment tiles exactly its own stretch.
pub proof fn lemma_tiles_single(s: SkylineSeg, lo: int, hi: int)
    requires
        s.x == lo,
        s.x + s.w == hi,
        s.w > 0,
    ensures
        tiles(seq![s], lo, hi),
{
    assert(seq![s].drop_last() =~= Seq::<SkylineSeg>::empty());
    assert(tiles(Seq::<SkylineSeg>::empty(), lo, lo));
}

/// Two tilings side by side tile the union of their stretches.
pub proof fn lemma_tiles_concat(a: Seq<SkylineSeg>, b: Seq<SkylineSeg>, lo: int, mid: int, hi: int)
    requires
        tiles(a, lo, mid),
        tiles(b, mid, hi),
    ensures
        tiles(a + b, lo, hi),
    decreases b.len(),
{
    if b.len() == 0 {
        assert(a + b =~= a);
    } else {
        let l = b.last();
        lemma_tiles_concat(a, b.drop_last(), lo, mid, l.x as int);
        assert((a + b).drop_last() =~= a + b.drop_last());
        assert((a + b).last() == l);
    }
}

/// A prefix of a tiling tiles the stretch up to where the next segment starts.
pub proof fn lemma_tiles_prefix(segs: Seq<SkylineSeg>, lo: int, hi: int, i: int)
    requires
        tiles(segs, lo, hi),
        0 <= i <= segs.len(),
    ensures
        tiles(segs.take(i), lo, if i < segs.len() { segs[i].x as int } else { hi }),
    decreases segs.len(),
{
    if i == segs.len() {
        assert(segs.take(i) =~= segs);
    } else {
        let init = segs.drop_last();
        lemma_tiles_prefix(init, lo, segs.last().x as int, i);
        assert(segs.take(i) =~= init.take(i));
        if i < init.len() {
            assert(init[i] == segs[i]);
        }
    }
}

/// `e` is a stretch of `s` at the same height.
pub open spec fn sub_of(e: SkylineSeg, s: SkylineSeg) -> bool {
    &&& e.y == s.y
    &&& s.x <= e.x
    &&& e.x + e.w <= s.x + s.w
    &&& e.w > 0
}

/// Nothing of a skyline that ends at or before `c` lies right of `c`, and
/// all of it lies left of `c`.
proof fn lemma_parts_all_left(sky: Seq<SkylineSeg>, lo: int, hi: int, c: int)
    requires
        tiles(sky, lo, hi),
        hi <= c,
    ensures
        left_part(sky, c) == sky,
        right_part(sky, c) == Seq::<SkylineSeg>::empty(),
    decreases sky.len(),
{
    if sky.len() > 0 {
        let init = sky.drop_last();
        lemma_tiles_bounds(init, lo, sky.last().x as int);
        lemma_parts_all_left(init, lo, sky.last().x as int, c);
        assert(init.push(sky.last()) =~= sky);
        assert(Seq::<SkylineSeg>::empty() + Seq::<SkylineSeg>::empty() =~= Seq::<SkylineSeg>::empty());
    }
}

/// The part left of `c` of a tiling of `[lo, hi)` tiles `[lo, c)` with
/// stretches of the segments it came from.
pub proof fn lemma_left_part(sky: Seq<SkylineSeg>, lo: int, hi: int, c: int)
    requires
        tiles(sky, lo, hi),
        0 <= lo,
        hi <= MAX_LEN,
        lo <= c <= hi,
    ensures
        tiles(left_part(sky, c), lo, c),
        forall|i: int|
            0 <= i < left_part(sky, c).len() ==> exists|j: int|
                0 <= j < sky.len() && sub_of(#[trigger] left_part(sky, c)[i], sky[j])
                    && left_part(sky, c)[i].x + left_part(sky, c)[i].w <= c,
    decreases sky.len(),
{
    if sky.len() > 0 {
        let init = sky.drop_last();
        let l = sky.last();
        let last = sky.len() - 1;
        assert(sky[last] == l);
        lemma_tiles_bounds(init, lo, l.x as int);
        let lp = left_part(sky, c);
        if c <= l.x {
            lemma_left_part(init, lo, l.x as int, c);
            assert(lp =~= left_part(init, c));
            assert forall|i: int| 0 <= i < lp.len() implies exists|j: int|
                0 <= j < sky.len() && sub_of(#[trigger] lp[i], sky[j]) && lp[i].x + lp[i].w <= c by {
                let j = choose|j: int| 0 <= j < init.len() && sub_of(left_part(init, c)[i], init[j])
                    && left_part(init, c)[i].x + left_part(init, c)[i].w <= c;
                assert(init[j] == sky[j]);
            }
        } else {
            lemma_parts_all_left(init, lo, l.x as int, c);
            let tail = if l.x + l.w <= c {
                seq![l]
            } else {
                seq![SkylineSeg { x: l.x, y: l.y, w: (c - l.x) as i64 }]
            };
            assert(lp == init + tail);
            lemma_tiles_single(tail[0], l.x as int, c);
            assert(tail =~= seq![tail[0]]);
            lemma_tiles_concat(init, tail, lo, l.x as int, c);
            assert forall|i: int| 0 <= i < lp.len() implies exists|j: int|
                0 <= j < sky.len() && sub_of(#[trigger] lp[i], sky[j]) && lp[i].x + lp[i].w <= c by {
                if i < init.len() {
                    assert(lp[i] == init[i]);
                    assert(init[i] == sky[i]);
                    assert(sub_of(lp[i], sky[i]));
                } else {
                    assert(lp[i] == tail[0]);
                    assert(sub_of(lp[i], sky[last]));
                }
            }
        }
    }
}

/// The part right of `c` of a tiling of `[lo, hi)` tiles `[c, hi)` with
/// stretches of the segments it came from.
pub proof fn lemma_right_part(sky: Seq<SkylineSeg>, lo: int, hi: int, c: int)
    requires
        tiles(sky, lo, hi),
        0 <= lo,
        hi <= MAX_LEN,
        lo <= c <= hi,
    ensures
        tiles(right_part(sky, c), c, hi),
        forall|i: int|
            0 <= i < right_part(sky, c).len() ==> exists|j: int|
                0 <= j < sky.len() && sub_of(#[trigger] right_part(sky, c)[i], sky[j])
                    && right_part(sky, c)[i].x >= c,
    decreases sky.len(),
{
    if sky.len() > 0 {
        let init = sky.drop_last();
        let l = sky.last();
        let last = sky.len() - 1;
        assert(sky[last] == l);
        lemma_tiles_bounds(init, lo, l.x as int);
        let rp = right_part(sky, c);
        if l.x >= c {
            lemma_right_part(init, lo, l.x as int, c);
            let ri = right_part(init, c);
            assert(rp == ri + seq![l]);
            lemma_tiles_single(l, l.x as int, hi);
            lemma_tiles_concat(ri, seq![l], c, l.x as int, hi);
            assert forall|i: int| 0 <= i < rp.len() implies exists|j: int|
                0 <= j < sky.len() && sub_of(#[trigger] rp[i], sky[j]) && rp[i].x >= c by {
                if i < ri.len() {
                    assert(rp[i] == ri[i]);
                    let j = choose|j: int| 0 <= j < init.len() && sub_of(ri[i], init[j]) && ri[i].x >= c;
                    assert(init[j] == sky[j]);
                } else {
                    assert(rp[i] == l);
                    assert(sub_of(rp[i], sky[last]));
                }
            }
        } else {
            lemma_parts_all_left(init, lo, l.x as int, c);
            if hi > c {
                let tail = seq![SkylineSeg { x: c as i64, y: l.y, w: (l.x + l.w - c) as i64 }];
                assert(rp =~= tail);
                lemma_tiles_single(tail[0], c, hi);
                assert(tail =~= seq![tail[0]]);
                assert(sub_of(rp[0], sky[last]));
            } else {
                assert(rp =~= Seq::<SkylineSeg>::empty());
            }
        }
    }
}

/// Joining neighbours keeps a tiling a tiling, and every joined segment
/// keeps the height bounds and lies on top of every piece that the segments
/// it joins lay on top of.
pub proof fn lemma_merge(segs: Seq<SkylineSeg>, lo: int, hi: int, ps: Seq<Placement>, top: int)
    requires
        tiles(segs, lo, hi),
        0 <= lo,
        hi <= MAX_LEN,
        sky_ok(segs, ps, top),
        forall|j: int| 0 <= j < ps.len() ==> (#[trigger] ps[j]).w > 0,
    ensures
        tiles(merge_segs(segs), lo, hi),
        sky_ok(merge_segs(segs), ps, top),
    decreases segs.len(),
{
    if segs.len() > 0 {
        let init = segs.drop_last();
        let s = segs.last();
        let last = segs.len() - 1;
        assert(segs[last] == s);
        assert(sky_ok(init, ps, top)) by {
            assert forall|i: int| 0 <= i < init.len() implies 0 <= (#[trigger] init[i]).y <= top && above_all(init[i], ps) by {
                assert(init[i] == segs[i]);
            }
        }
        lemma_merge(init, lo, s.x as int, ps, top);
        let m = merge_segs(init);
        let r = merge_segs(segs);
        if m.len() > 0 && m.last().y == s.y && m.last().x + m.last().w == s.x {
            let ml = m.last();
            let mlast = m.len() - 1;
            assert(m[mlast] == ml);
            let joined = SkylineSeg { x: ml.x, y: ml.y, w: (ml.w + s.w) as i64 };
            assert(r == m.drop_last().push(joined));
            lemma_tiles_bounds(m, lo, s.x as int);
            assert(lo <= ml.x);
            assert(joined.w == ml.w + s.w);
            assert(tiles(r, lo, hi)) by {
                assert(r.drop_last() =~= m.drop_last());
                assert(r.last() == joined);
            }
            assert(above_all(joined, ps)) by {
                assert forall|j: int|
                    0 <= j < ps.len() && x_overlap(joined.x as int, joined.w as int, (#[trigger] ps[j]).x as int, ps[j].w as int)
                    implies joined.y >= ps[j].y + ps[j].h by {
                    if x_overlap(ml.x as int, ml.w as int, ps[j].x as int, ps[j].w as int) {
                        assert(above_all(m[mlast], ps));
                        assert(ml.y >= ps[j].y + ps[j].h);
                    } else {
                        assert(x_overlap(s.x as int, s.w as int, ps[j].x as int, ps[j].w as int));
                        assert(above_all(segs[last], ps));
                        assert(s.y >= ps[j].y + ps[j].h);
                    }
                }
            }
            assert forall|i: int| 0 <= i < r.len() implies 0 <= (#[trigger] r[i]).y <= top && above_all(r[i], ps) by {
                if i < mlast {
                    assert(r[i] == m[i]);
                } else {
                    assert(r[i] == joined);
                }
            }
        } else {
            assert(r == m.push(s));
            assert(r.drop_last() =~= m);
            assert forall|i: int| 0 <= i < r.len() implies 0 <= (#[trigger] r[i]).y <= top && above_all(r[i], ps) by {
                if i < m.len() {
                    assert(r[i] == m[i]);
                } else {
                    assert(r[i] == segs[last]);
                }
            }
        }
    }
}

/// Joining neighbours keeps a tiling a tiling.
pub proof fn lemma_merge_tiles(segs: Seq<SkylineSeg>, lo: int, hi: int)
    requires
        tiles(segs, lo, hi),
        0 <= lo,
        hi <= MAX_LEN,
    ensures
        tiles(merge_segs(segs), lo, hi),
    decreases segs.len(),
{
    if segs.len() > 0 {
        let s = segs.last();
        lemma_merge_tiles(segs.drop_last(), lo, s.x as int);
        let m = merge_segs(segs.drop_last());
        let r = merge_segs(segs);
        if m.len() > 0 && m.last().y == s.y && m.last().x + m.last().w == s.x {
            lemma_tiles_bounds(m, lo, s.x as int);
            assert(m[m.len() - 1] == m.last());
            assert(r.drop_last() =~= m.drop_last());
        } else {
            assert(r.drop_last() =~= m);
        }
    }
}

/// The height over a stretch is at least that of any segment meeting it,
/// and lies between 0 and the greatest segment height.
pub proof fn lemma_sky_max(sky: Seq<SkylineSeg>, x: int, w: int, top: int)
    requires
        forall|i: int| 0 <= i < sky.len() ==> 0 <= (#[trigger] sky[i]).y <= top,
        0 <= top,
    ensures
        0 <= sky_max(sky, x, w) <= top,
        forall|i: int|
            0 <= i < sky.len() && x_overlap((#[trigger] sky[i]).x as int, sky[i].w as int, x, w) ==> sky[i].y
                <= sky_max(sky, x, w),
    decreases sky.len(),
{
    if sky.len() > 0 {
        let init = sky.drop_last();
        assert forall|i: int| 0 <= i < init.len() implies #[trigger] init[i] == sky[i] by {}
        lemma_sky_max(init, x, w, top);
        let last = sky.len() - 1;
        assert(sky[last] == sky.last());
        assert forall|i: int|
            0 <= i < sky.len() && x_overlap((#[trigger] sky[i]).x as int, sky[i].w as int, x, w) implies sky[i].y
                <= sky_max(sky, x, w) by {
            if i < last {
                assert(init[i] == sky[i]);
            }
        }
    }
}

/// Every segment of a tiling of `[lo, hi)` has a positive width and lies
/// within `[lo, hi)`.
pub proof fn lemma_tiles_bounds(sky: Seq<SkylineSeg>, lo: int, hi: int)
    requires
        tiles(sky, lo, hi),
    ensures
        lo <= hi,
        forall|i: int| 0 <= i < sky.len() ==> lo <= (#[trigger] sky[i]).x && sky[i].w > 0 && sky[i].x + sky[i].w <= hi,
    decreases sky.len(),
{
    if sky.len() > 0 {
        let init = sky.drop_last();
        lemma_tiles_bounds(init, lo, sky.last().x as int);
        assert forall|i: int| 0 <= i < sky.len() implies lo <= (#[trigger] sky[i]).x && sky[i].w > 0 && sky[i].x
            + sky[i].w <= hi by {
            if i < init.len() {
                assert(sky[i] == init[i]);
            }
        }
    }
}

/// Every point of `[lo, hi)` lies in some segment of a tiling of `[lo, hi)`.
pub proof fn lemma_tiles_cover(sky: Seq<SkylineSeg>, lo: int, hi: int, x0: int)
    requires
        tiles(sky, lo, hi),
        lo <= x0 < hi,
    ensures
        exists|i: int| 0 <= i < sky.len() && (#[trigger] sky[i]).x <= x0 < sky[i].x + sky[i].w,
    decreases sky.len(),
{
    let l = sky.last();
    let last = sky.len() - 1;
    assert(sky[last] == l);
    if x0 < l.x {
        let init = sky.drop_last();
        lemma_tiles_cover(init, lo, l.x as int, x0);
        let i = choose|i: int| 0 <= i < init.len() && (#[trigger] init[i]).x <= x0 < init[i].x + init[i].w;
        assert(sky[i] == init[i]);
    }
}

/// The bottom-left step places, when it places anything, the shape it is given.
pub proof fn lemma_bl_step_places_given_shape(bw: i64, bh: i64, k: i64, allow_rotate: bool)
    ensures
        places_given_shape(bl_step(bw, bh, k, allow_rotate)),
{
    assert forall|st: Seq<SkylineSeg>, s: Shape| (#[trigger] bl_step(bw, bh, k, allow_rotate)(st, s)).1 is Some
        implies bl_step(bw, bh, k, allow_rotate)(st, s).1->0.source() == s by {}
}

/// Packs the shapes, in the given order, onto one `bw x bh` board bottom-left
/// along a skyline; returns the board and the shapes that did not fit.
pub fn pack_bottom_left(shapes: &[Shape], bw: i64, bh: i64, kerf: i64, allow_rotate: bool) -> (res: (
    Board,
    Vec<Shape>,
))
    requires
        pos_len_ok(bw as int),
        pos_len_ok(bh as int),
        len_ok(kerf as int),
        all_valid(shapes@),
    ensures
        res.0.placements@ == run_bin(
            bl_step(bw, bh, kerf, allow_rotate),
            seq![SkylineSeg { x: 0, y: 0, w: bw }],
            shapes@,
        ).1,
        res.1@ == run_bin(
            bl_step(bw, bh, kerf, allow_rotate),
            seq![SkylineSeg { x: 0, y: 0, w: bw }],
            shapes@,
        ).2,
        layout_ok(res.0.placements@, bw as int, bh as int),
        sources(res.0.placements@).to_multiset().add(res.1@.to_multiset()) =~= shapes@.to_multiset(),
{
    let ghost step = bl_step(bw, bh, kerf, allow_rotate);
    let ghost init = seq![SkylineSeg { x: 0, y: 0, w: bw }];
    let mut remaining: Vec<Shape> = Vec::new();
    let mut bin = BottomLeftBin::new(bw, bh, kerf);
    let n = shapes.len();
    for i in 0..n
        invariant
            n == shapes@.len(),
            all_valid(shapes@),
            bin.wf(),
            bin.board_w() == bw,
            bin.board_h() == bh,
            bin.kerf() == kerf,
            step == bl_step(bw, bh, kerf, allow_rotate),
            init == seq![SkylineSeg { x: 0, y: 0, w: bw }],
            (bin.sky(), bin.placed(), remaining@) == run_bin(step, init, shapes@.take(i as int)),
    {
        proof {
            lemma_run_bin_take(step, init, shapes@, i as int);
        }
        let s = &shapes[i];
        if bin.insert(s, allow_rotate).is_none() {
            remaining.push(s.clone());
        }
    }
    assert(shapes@.take(n as int) =~= shapes@);
    proof {
        lemma_bl_step_places_given_shape(bw, bh, kerf, allow_rotate);
        lemma_run_bin_conserves(step, init, shapes@);
    }
    let board = Board { placements: bin.placements };
    (board, remaining)
}

} // verus!
