//! The guillotine packer: every placement cuts its free rectangle in two
//! with one straight cut, as a saw does.

use vstd::prelude::*;
use crate::geometry::{Rect, rects_overlap, rect_contains, rect_in_board, pos_len_ok, len_ok, lemma_contained_no_overlap, mul_wide, point_in};
use crate::model::{Shape, Placement, Board, layout_ok, all_valid, tries_rotation, sources, lemma_push_layout};
use crate::select::{tracks, first_min, no_key, lemma_tracks_push, lemma_tracks_first_min, lemma_first_min_exists, is_first_min};
use crate::run::{run_bin, lemma_run_bin_take, lemma_run_bin_conserves, places_given_shape};
use crate::maxrects::{free_ok, free_disjoint};

verus! {

/// The area left over when a `iw x ih` piece is put into `fr`, if it fits.
pub open spec fn gl_key(fr: Rect, iw: int, ih: int) -> Option<int> {
    if fr.w >= iw && fr.h >= ih {
        Some(fr.w * fr.h - iw * ih)
    } else {
        None
    }
}

/// All candidates, in the order in which they are examined: for each free
/// rectangle the shape unrotated and then, if rotation is tried, rotated.
pub open spec fn gl_keys(free: Seq<Rect>, s: Shape, allow_rotate: bool) -> Seq<Option<int>> {
    if tries_rotation(s, allow_rotate) {
        Seq::new(
            2 * free.len(),
            |i: int|
                if i % 2 == 0 {
                    gl_key(free[i / 2], s.w as int, s.h as int)
                } else {
                    gl_key(free[i / 2], s.h as int, s.w as int)
                },
        )
    } else {
        Seq::new(free.len(), |i: int| gl_key(free[i], s.w as int, s.h as int))
    }
}

/// The free rectangle index and the orientation of candidate `i`.
pub open spec fn gl_candidate(s: Shape, allow_rotate: bool, i: int) -> (int, bool) {
    if tries_rotation(s, allow_rotate) {
        (i / 2, i % 2 == 1)
    } else {
        (i, false)
    }
}

/// The free rectangles that cutting a `iw x ih` piece out of the corner of
/// `fr` leaves, with kerf `k`: the longer leftover strip takes the full side.
pub open spec fn gl_pieces(fr: Rect, iw: int, ih: int, k: int) -> Seq<Rect> {
    let right_w = fr.w - iw - k;
    let bot_h = fr.h - ih - k;
    if right_w >= bot_h {
        (if right_w > 0 {
            seq![Rect { x: (fr.x + iw + k) as i64, y: fr.y, w: right_w as i64, h: fr.h }]
        } else {
            Seq::empty()
        }) + (if bot_h > 0 {
            seq![Rect { x: fr.x, y: (fr.y + ih + k) as i64, w: iw as i64, h: bot_h as i64 }]
        } else {
            Seq::empty()
        })
    } else {
        (if bot_h > 0 {
            seq![Rect { x: fr.x, y: (fr.y + ih + k) as i64, w: fr.w, h: bot_h as i64 }]
        } else {
            Seq::empty()
        }) + (if right_w > 0 {
            seq![Rect { x: (fr.x + iw + k) as i64, y: fr.y, w: right_w as i64, h: ih as i64 }]
        } else {
            Seq::empty()
        })
    }
}

/// One insertion: the new free rectangles and the placement, if the shape fits.
pub open spec fn gl_insert_spec(free: Seq<Rect>, k: i64, s: Shape, allow_rotate: bool) -> (
    Seq<Rect>,
    Option<Placement>,
) {
    match first_min(gl_keys(free, s, allow_rotate)) {
        None => (free, None),
        Some(i) => {
            let (fi, rot) = gl_candidate(s, allow_rotate, i);
            let fr = free[fi];
            let (iw, ih) = s.dims(rot);
            (
                free.remove(fi) + gl_pieces(fr, iw as int, ih as int, k as int),
                Some(Placement::spec_of(s, fr.x, fr.y, rot)),
            )
        },
    }
}

/// `gl_insert_spec` as the step of a run over many shapes.
pub open spec fn gl_step(k: i64, allow_rotate: bool) -> spec_fn(Seq<Rect>, Shape) -> (
    Seq<Rect>,
    Option<Placement>,
) {
    |free: Seq<Rect>, s: Shape| gl_insert_spec(free, k, s, allow_rotate)
}

/// No two free rectangles overlap.
pub open spec fn pairwise_disjoint(free: Seq<Rect>) -> bool {
    forall|i: int, j: int|
        0 <= i < free.len() && 0 <= j < free.len() && i != j ==> !rects_overlap(
            #[trigger] free[i],
            #[trigger] free[j],
        )
}

/// `a` and `b` are at least `k` apart along one of the axes.
pub open spec fn kerf_apart(a: Rect, b: Rect, k: int) -> bool {
    ||| a.x + a.w + k <= b.x
    ||| b.x + b.w + k <= a.x
    ||| a.y + a.h + k <= b.y
    ||| b.y + b.h + k <= a.y
}

/// Any two distinct free rectangles are at least `k` apart.
pub open spec fn free_kerf_apart(free: Seq<Rect>, k: int) -> bool {
    forall|i: int, j: int|
        0 <= i < free.len() && 0 <= j < free.len() && i != j ==> kerf_apart(#[trigger] free[i], #[trigger] free[j], k)
}

/// Every free rectangle is at least `k` away from every piece.
pub open spec fn free_pieces_kerf_apart(free: Seq<Rect>, ps: Seq<Placement>, k: int) -> bool {
    forall|i: int, j: int|
        0 <= i < free.len() && 0 <= j < ps.len() ==> kerf_apart(#[trigger] free[i], #[trigger] ps[j].rect(), k)
}

/// Any two distinct pieces are at least `k` apart: a saw cut of width `k`
/// fits between them.
pub open spec fn pieces_kerf_apart(ps: Seq<Placement>, k: int) -> bool {
    forall|i: int, j: int|
        0 <= i < ps.len() && 0 <= j < ps.len() && i != j ==> kerf_apart(
            #[trigger] ps[i].rect(),
            #[trigger] ps[j].rect(),
            k,
        )
}

/// Being `k` apart from a rectangle carries over to whatever lies inside it.
proof fn lemma_kerf_apart_inside(a: Rect, b: Rect, c: Rect, k: int)
    requires
        kerf_apart(a, b, k),
        rect_contains(b, c),
    ensures
        kerf_apart(a, c, k),
        kerf_apart(c, a, k),
{
}

/// Cutting `placed` out of the corner of free rectangle `fi` keeps the
/// free rectangles and the pieces at least a kerf apart.
proof fn lemma_gl_cut_kerf(free0: Seq<Rect>, fi: int, placed: Rect, k: i64, ps0: Seq<Placement>)
    requires
        0 <= fi < free0.len(),
        free0[fi].x >= 0,
        free0[fi].y >= 0,
        free0[fi].x + free0[fi].w <= 0x8000_0000,
        free0[fi].y + free0[fi].h <= 0x8000_0000,
        free_kerf_apart(free0, k as int),
        free_pieces_kerf_apart(free0, ps0, k as int),
        len_ok(k as int),
        placed.x == free0[fi].x,
        placed.y == free0[fi].y,
        0 < placed.w <= free0[fi].w,
        0 < placed.h <= free0[fi].h,
    ensures
        ({
            let nf = free0.remove(fi) + gl_pieces(free0[fi], placed.w as int, placed.h as int, k as int);
            &&& free_kerf_apart(nf, k as int)
            &&& free_pieces_kerf_apart(nf, ps0, k as int)
            &&& forall|i: int| 0 <= i < nf.len() ==> kerf_apart(#[trigger] nf[i], placed, k as int)
            &&& forall|j: int| 0 <= j < ps0.len() ==> kerf_apart(placed, #[trigger] ps0[j].rect(), k as int)
                && kerf_apart(ps0[j].rect(), placed, k as int)
        }),
{
    let bfr = free0[fi];
    let rest = free0.remove(fi);
    let pieces = gl_pieces(bfr, placed.w as int, placed.h as int, k as int);
    let nf = rest + pieces;
    let kk = k as int;
    lemma_pieces(bfr, placed.w as int, placed.h as int, kk);
    assert(rect_contains(bfr, placed));
    assert forall|i: int| 0 <= i < rest.len() implies #[trigger] rest[i] == free0[if i < fi { i } else { i + 1 }] by {}
    assert forall|i: int| 0 <= i < pieces.len() implies kerf_apart(#[trigger] pieces[i], placed, kk)
        && kerf_apart(placed, pieces[i], kk) by {}
    assert forall|i: int, j: int| 0 <= i < pieces.len() && 0 <= j < pieces.len() && i != j implies kerf_apart(
        #[trigger] pieces[i],
        #[trigger] pieces[j],
        kk,
    ) by {}
    assert forall|j: int| 0 <= j < ps0.len() implies kerf_apart(placed, #[trigger] ps0[j].rect(), kk)
        && kerf_apart(ps0[j].rect(), placed, kk) by {
        assert(kerf_apart(free0[fi], ps0[j].rect(), kk));
        lemma_kerf_apart_inside(ps0[j].rect(), bfr, placed, kk);
    }
    assert forall|i: int, j: int| 0 <= i < nf.len() && 0 <= j < ps0.len() implies kerf_apart(
        #[trigger] nf[i],
        #[trigger] ps0[j].rect(),
        kk,
    ) by {
        if i < rest.len() {
            let oi = if i < fi { i } else { i + 1 };
            assert(nf[i] == free0[oi]);
        } else {
            assert(nf[i] == pieces[i - rest.len()]);
            assert(kerf_apart(free0[fi], ps0[j].rect(), kk));
            lemma_kerf_apart_inside(ps0[j].rect(), bfr, nf[i], kk);
        }
    }
    assert forall|i: int, j: int| 0 <= i < nf.len() && 0 <= j < nf.len() && i != j implies kerf_apart(
        #[trigger] nf[i],
        #[trigger] nf[j],
        kk,
    ) by {
        if i < rest.len() && j < rest.len() {
            let oi = if i < fi { i } else { i + 1 };
            let oj = if j < fi { j } else { j + 1 };
            assert(nf[i] == free0[oi]);
            assert(nf[j] == free0[oj]);
        } else if i < rest.len() {
            let oi = if i < fi { i } else { i + 1 };
            assert(nf[i] == free0[oi]);
            assert(nf[j] == pieces[j - rest.len()]);
            assert(kerf_apart(free0[oi], bfr, kk));
            lemma_kerf_apart_inside(nf[i], bfr, nf[j], kk);
        } else if j < rest.len() {
            let oj = if j < fi { j } else { j + 1 };
            assert(nf[j] == free0[oj]);
            assert(nf[i] == pieces[i - rest.len()]);
            assert(kerf_apart(free0[oj], bfr, kk));
            lemma_kerf_apart_inside(nf[j], bfr, nf[i], kk);
        } else {
            assert(nf[i] == pieces[i - rest.len()]);
            assert(nf[j] == pieces[j - rest.len()]);
        }
    }
    assert forall|i: int| 0 <= i < nf.len() implies kerf_apart(#[trigger] nf[i], placed, kk) by {
        if i < rest.len() {
            let oi = if i < fi { i } else { i + 1 };
            assert(nf[i] == free0[oi]);
            assert(kerf_apart(free0[oi], bfr, kk));
            lemma_kerf_apart_inside(nf[i], bfr, placed, kk);
        } else {
            assert(nf[i] == pieces[i - rest.len()]);
        }
    }
}

/// A single board packed by guillotine cuts.
pub struct GuillotineBin {
    bw: i64,
    bh: i64,
    kerf: i64,
    free: Vec<Rect>,
    pub placements: Vec<Placement>,
}

impl GuillotineBin {
    pub closed spec fn board_w(&self) -> i64 {
        self.bw
    }

    pub closed spec fn board_h(&self) -> i64 {
        self.bh
    }

    pub closed spec fn kerf(&self) -> i64 {
        self.kerf
    }

    /// The pieces placed so far, in order.
    pub closed spec fn placed(&self) -> Seq<Placement> {
        self.placements@
    }

    /// The free rectangles, in the order in which they are examined.
    pub closed spec fn free_rects(&self) -> Seq<Rect> {
        self.free@
    }

    /// The board's sizes and kerf are accepted lengths, the free rectangles
    /// lie on the board and do not overlap one another, the pieces form a
    /// layout, and no free rectangle overlaps a piece; moreover free
    /// rectangles and pieces all lie at least a kerf apart from one another.
    pub open spec fn wf(&self) -> bool {
        &&& pos_len_ok(self.board_w() as int)
        &&& pos_len_ok(self.board_h() as int)
        &&& len_ok(self.kerf() as int)
        &&& free_ok(self.free_rects(), self.board_w() as int, self.board_h() as int)
        &&& pairwise_disjoint(self.free_rects())
        &&& layout_ok(self.placed(), self.board_w() as int, self.board_h() as int)
        &&& free_disjoint(self.free_rects(), self.placed())
        &&& free_kerf_apart(self.free_rects(), self.kerf() as int)
        &&& free_pieces_kerf_apart(self.free_rects(), self.placed(), self.kerf() as int)
        &&& pieces_kerf_apart(self.placed(), self.kerf() as int)
    }

    /// An empty `bw x bh` board whose only free rectangle is the whole board.
    pub fn new(bw: i64, bh: i64, kerf: i64) -> (b: Self)
        requires
            pos_len_ok(bw as int),
            pos_len_ok(bh as int),
            len_ok(kerf as int),
        ensures
            b.wf(),
            b.board_w() == bw,
            b.board_h() == bh,
            b.kerf() == kerf,
            b.free_rects() == seq![Rect { x: 0, y: 0, w: bw, h: bh }],
            b.placed() == Seq::<Placement>::empty(),
    {
        let mut free: Vec<Rect> = Vec::new();
        free.push(Rect { x: 0, y: 0, w: bw, h: bh });
        GuillotineBin { bw, bh, kerf, free, placements: Vec::new() }
    }

    /// Puts `shape` into the free rectangle that it leaves the least area of,
    /// and cuts the rest of that rectangle in two.
    #[verifier::spinoff_prover]
    #[verifier::rlimit(40)]
    pub fn insert(&mut self, shape: &Shape, allow_rotate: bool) -> (r: Option<Placement>)
        requires
            old(self).wf(),
            shape.valid(),
        ensures
            final(self).wf(),
            final(self).board_w() == old(self).board_w(),
            final(self).board_h() == old(self).board_h(),
            final(self).kerf() == old(self).kerf(),
            (final(self).free_rects(), r) == gl_insert_spec(
                old(self).free_rects(),
                old(self).kerf(),
                *shape,
                allow_rotate,
            ),
            final(self).placed() == match r {
                Some(p) => old(self).placed().push(p),
                None => old(self).placed(),
            },
    {
        let ghost free0 = self.free@;
        let ghost keys = gl_keys(free0, *shape, allow_rotate);
        let rot_tried = allow_rotate && shape.w != shape.h;
        let best = gl_scan(&self.free, shape, allow_rotate);
        proof {
            lemma_tracks_first_min(keys, gl_cand_int(best, rot_tried));
        }
        let (fi, rotated) = match best {
            None => {
                return None;
            },
            Some(c) => c,
        };
        let ghost gi = gl_cand_int(best, rot_tried)->0;
        assert(is_first_min(keys, gi));
        assert(gl_candidate(*shape, allow_rotate, gi) == (fi as int, rotated));
        let bfr = self.free.remove(fi);
        let k = self.kerf;
        let (iw, ih) = if rotated {
            (shape.h, shape.w)
        } else {
            (shape.w, shape.h)
        };
        assert(bfr.w >= iw && bfr.h >= ih);
        let right_w = bfr.w - iw - k;
        let bot_h = bfr.h - ih - k;
        let ghost rest = self.free@;
        if right_w >= bot_h {
            if right_w > 0 {
                self.free.push(Rect { x: bfr.x + iw + k, y: bfr.y, w: right_w, h: bfr.h });
            }
            if bot_h > 0 {
                self.free.push(Rect { x: bfr.x, y: bfr.y + ih + k, w: iw, h: bot_h });
            }
        } else {
            if bot_h > 0 {
                self.free.push(Rect { x: bfr.x, y: bfr.y + ih + k, w: bfr.w, h: bot_h });
            }
            if right_w > 0 {
                self.free.push(Rect { x: bfr.x + iw + k, y: bfr.y, w: right_w, h: ih });
            }
        }
        let ghost pieces = gl_pieces(bfr, iw as int, ih as int, k as int);
        assert(self.free@ =~= rest + pieces);
        let p = Placement::of(shape, bfr.x, bfr.y, rotated);
        let placed = Rect { x: bfr.x, y: bfr.y, w: iw, h: ih };
        proof {
            assert(p.rect() == placed);
            assert(free0[fi as int] == bfr);
            lemma_gl_cut(free0, fi as int, placed, k, self.placements@, self.bw as int, self.bh as int);
            lemma_gl_cut_kerf(free0, fi as int, placed, k, self.placements@);
        }
        proof {
            lemma_push_layout(old(self).placements@, p, self.bw as int, self.bh as int);
        }
        self.placements.push(p.clone());
        proof {
            let ps = self.placements@;
            let nf = self.free@;
            assert(ps.last() == p);
            assert forall|i: int, j: int|
                0 <= i < nf.len() && 0 <= j < ps.len() implies !rects_overlap(
                #[trigger] nf[i],
                #[trigger] ps[j].rect(),
            ) by {
                if j < ps.len() - 1 {
                    assert(ps[j] == old(self).placements@[j]);
                }
            }            assert forall|i: int, j: int|
                0 <= i < nf.len() && 0 <= j < ps.len() implies kerf_apart(
                #[trigger] nf[i],
                #[trigger] ps[j].rect(),
                k as int,
            ) by {
                if j < ps.len() - 1 {
                    assert(ps[j] == old(self).placements@[j]);
                }
            }
            assert forall|i: int, j: int|
                0 <= i < ps.len() && 0 <= j < ps.len() && i != j implies kerf_apart(
                #[trigger] ps[i].rect(),
                #[trigger] ps[j].rect(),
                k as int,
            ) by {
                if i < ps.len() - 1 {
                    assert(ps[i] == old(self).placements@[i]);
                }
                if j < ps.len() - 1 {
                    assert(ps[j] == old(self).placements@[j]);
                }
            }
        }
        Some(p)
    }
}

/// Scans every free rectangle, unrotated and then rotated, for the one
/// that leaves the least area.
fn gl_scan(free: &Vec<Rect>, shape: &Shape, allow_rotate: bool) -> (best: Option<(usize, bool)>)
    requires
        shape.valid(),
        forall|i: int| 0 <= i < free@.len() ==> len_ok((#[trigger] free@[i]).w as int) && len_ok(free@[i].h as int),
    ensures
        tracks(gl_keys(free@, *shape, allow_rotate), gl_cand_int(best, tries_rotation(*shape, allow_rotate))),
        best matches Some((i, r)) ==> i < free@.len() && (r ==> tries_rotation(*shape, allow_rotate)),
{
    let ghost keys = gl_keys(free@, *shape, allow_rotate);
    let rot_tried = allow_rotate && shape.w != shape.h;
    let mut best: Option<(usize, bool)> = None;
    let mut best_score: i128 = 0;
    let n = free.len();
    for fi in 0..n
        invariant
            n == free@.len(),
            shape.valid(),
            forall|i: int| 0 <= i < free@.len() ==> len_ok((#[trigger] free@[i]).w as int) && len_ok(free@[i].h as int),
            keys == gl_keys(free@, *shape, allow_rotate),
            rot_tried == tries_rotation(*shape, allow_rotate),
            keys.len() == if rot_tried { 2 * n } else { n as int },
            tracks(keys.take(if rot_tried { 2 * fi } else { fi as int }), gl_cand_int(best, rot_tried)),
            best is Some ==> keys[gl_cand_int(best, rot_tried)->0] == Some(best_score as int),
            best matches Some((i, r)) ==> i < fi && (r ==> rot_tried),
    {
        let fr = free[fi];
        let ghost base = if rot_tried { 2 * fi } else { fi as int };
        proof {
            lemma_tracks_push(keys.take(base), gl_cand_int(best, rot_tried), keys[base]);
            assert(keys.take(base).push(keys[base]) =~= keys.take(base + 1));
        }
        if fr.w >= shape.w && fr.h >= shape.h {
            let sc = mul_wide(fr.w, fr.h) - mul_wide(shape.w, shape.h);
            if best.is_none() || sc < best_score {
                best_score = sc;
                best = Some((fi, false));
            }
        }
        if rot_tried {
            proof {
                lemma_tracks_push(keys.take(base + 1), gl_cand_int(best, rot_tried), keys[base + 1]);
                assert(keys.take(base + 1).push(keys[base + 1]) =~= keys.take(base + 2));
            }
            if fr.w >= shape.h && fr.h >= shape.w {
                let sc = mul_wide(fr.w, fr.h) - mul_wide(shape.h, shape.w);
                if best.is_none() || sc < best_score {
                    best_score = sc;
                    best = Some((fi, true));
                }
            }
        }
    }
    assert(keys.take(if rot_tried { 2 * n } else { n as int }) =~= keys);
    best
}

/// Cutting `placed` out of the corner of free rectangle `fi` keeps the
/// free rectangles on the board, apart from one another and from every
/// piece, and keeps `placed` apart from every earlier piece.
proof fn lemma_gl_cut(free0: Seq<Rect>, fi: int, placed: Rect, k: i64, ps0: Seq<Placement>, bw: int, bh: int)
    requires
        0 <= fi < free0.len(),
        free_ok(free0, bw, bh),
        pairwise_disjoint(free0),
        free_disjoint(free0, ps0),
        pos_len_ok(bw),
        pos_len_ok(bh),
        len_ok(k as int),
        placed.x == free0[fi].x,
        placed.y == free0[fi].y,
        0 < placed.w <= free0[fi].w,
        0 < placed.h <= free0[fi].h,
    ensures
        ({
            let nf = free0.remove(fi) + gl_pieces(free0[fi], placed.w as int, placed.h as int, k as int);
            &&& free_ok(nf, bw, bh)
            &&& pairwise_disjoint(nf)
            &&& free_disjoint(nf, ps0)
            &&& forall|i: int| 0 <= i < nf.len() ==> !rects_overlap(#[trigger] nf[i], placed)
            &&& forall|j: int| 0 <= j < ps0.len() ==> !rects_overlap(placed, #[trigger] ps0[j].rect())
                && !rects_overlap(ps0[j].rect(), placed)
            &&& rect_in_board(placed, bw, bh)
        }),
{
    let bfr = free0[fi];
    let rest = free0.remove(fi);
    let pieces = gl_pieces(bfr, placed.w as int, placed.h as int, k as int);
    let nf = rest + pieces;
    lemma_pieces(bfr, placed.w as int, placed.h as int, k as int);
    assert(rect_contains(bfr, placed));
    assert forall|i: int| 0 <= i < rest.len() implies #[trigger] rest[i] == free0[if i < fi { i } else { i + 1 }] by {}
    assert forall|j: int| 0 <= j < ps0.len() implies !rects_overlap(placed, #[trigger] ps0[j].rect())
        && !rects_overlap(ps0[j].rect(), placed) by {
        assert(!rects_overlap(free0[fi], ps0[j].rect()));
        lemma_contained_no_overlap(bfr, placed, ps0[j].rect());
    }
    assert forall|i: int| 0 <= i < nf.len() implies (#[trigger] nf[i]).w > 0 && nf[i].h > 0
        && rect_in_board(nf[i], bw, bh) && (i >= rest.len() ==> rect_contains(bfr, nf[i]))
        && (i < rest.len() ==> !rects_overlap(nf[i], bfr)) by {
        if i < rest.len() {
            let oi = if i < fi { i } else { i + 1 };
            assert(nf[i] == free0[oi]);
            assert(oi != fi);
        } else {
            assert(nf[i] == pieces[i - rest.len()]);
        }
    }
    assert forall|i: int, j: int| 0 <= i < nf.len() && 0 <= j < ps0.len() implies !rects_overlap(
        #[trigger] nf[i],
        #[trigger] ps0[j].rect(),
    ) by {
        if i < rest.len() {
            let oi = if i < fi { i } else { i + 1 };
            assert(nf[i] == free0[oi]);
        } else {
            assert(!rects_overlap(free0[fi], ps0[j].rect()));
            lemma_contained_no_overlap(bfr, nf[i], ps0[j].rect());
        }
    }
    assert forall|i: int, j: int| 0 <= i < nf.len() && 0 <= j < nf.len() && i != j implies !rects_overlap(
        #[trigger] nf[i],
        #[trigger] nf[j],
    ) by {
        if i < rest.len() && j < rest.len() {
            let oi = if i < fi { i } else { i + 1 };
            let oj = if j < fi { j } else { j + 1 };
            assert(nf[i] == free0[oi]);
            assert(nf[j] == free0[oj]);
        } else if i < rest.len() {
            lemma_contained_no_overlap(bfr, nf[j], nf[i]);
        } else if j < rest.len() {
            lemma_contained_no_overlap(bfr, nf[i], nf[j]);
        } else {
            assert(nf[i] == pieces[i - rest.len()]);
            assert(nf[j] == pieces[j - rest.len()]);
        }
    }
    assert forall|i: int| 0 <= i < nf.len() implies !rects_overlap(#[trigger] nf[i], placed) by {
        if i < rest.len() {
            lemma_contained_no_overlap(bfr, placed, nf[i]);
        } else {
            assert(nf[i] == pieces[i - rest.len()]);
        }
    }
}

/// The number of the candidate that is free rectangle `i` in the given
/// orientation.
pub open spec fn gl_cand_int(b: Option<(usize, bool)>, rot_tried: bool) -> Option<int> {
    match b {
        Some((i, r)) => Some(
            if rot_tried {
                2 * i + if r { 1int } else { 0int }
            } else {
                i as int
            },
        ),
        None => None,
    }
}

/// The pieces that a guillotine cut leaves lie inside the rectangle that was
/// cut, have positive sides, miss the placed piece, and miss each other.
proof fn lemma_pieces(fr: Rect, iw: int, ih: int, k: int)
    requires
        fr.w >= iw > 0,
        fr.h >= ih > 0,
        k >= 0,
        fr.x >= 0,
        fr.y >= 0,
        fr.x + fr.w <= 0x8000_0000,
        fr.y + fr.h <= 0x8000_0000,
        k <= 0x8000_0000,
    ensures
        ({
            let ps = gl_pieces(fr, iw, ih, k);
            let pl = Rect { x: fr.x, y: fr.y, w: iw as i64, h: ih as i64 };
            &&& forall|i: int|
                0 <= i < ps.len() ==> (#[trigger] ps[i]).w > 0 && ps[i].h > 0 && rect_contains(fr, ps[i])
                    && !rects_overlap(ps[i], pl)
            &&& forall|i: int, j: int|
                0 <= i < ps.len() && 0 <= j < ps.len() && i != j ==> !rects_overlap(
                    #[trigger] ps[i],
                    #[trigger] ps[j],
                )
        }),
{
}

/// The guillotine step places, when it places anything, the shape it is given.
pub proof fn lemma_gl_step_places_given_shape(k: i64, allow_rotate: bool)
    ensures
        places_given_shape(gl_step(k, allow_rotate)),
{
    assert forall|st: Seq<Rect>, s: Shape| (#[trigger] gl_step(k, allow_rotate)(st, s)).1 is Some
        implies gl_step(k, allow_rotate)(st, s).1->0.source() == s by {}
}

/// Packs the shapes, in the given order, onto one `bw x bh` board by
/// guillotine cuts; returns the board and the shapes that did not fit.
/// Any two pieces on the board lie at least a kerf apart.
pub fn pack_guillotine(shapes: &[Shape], bw: i64, bh: i64, kerf: i64, allow_rotate: bool) -> (res: (
    Board,
    Vec<Shape>,
))
    requires
        pos_len_ok(bw as int),
        pos_len_ok(bh as int),
        len_ok(kerf as int),
        all_valid(shapes@),
    ensures
        res.0.placements@ == run_bin(
            gl_step(kerf, allow_rotate),
            seq![Rect { x: 0, y: 0, w: bw, h: bh }],
            shapes@,
        ).1,
        res.1@ == run_bin(
            gl_step(kerf, allow_rotate),
            seq![Rect { x: 0, y: 0, w: bw, h: bh }],
            shapes@,
        ).2,
        layout_ok(res.0.placements@, bw as int, bh as int),
        pieces_kerf_apart(res.0.placements@, kerf as int),
        sources(res.0.placements@).to_multiset().add(res.1@.to_multiset()) =~= shapes@.to_multiset(),
{
    let ghost step = gl_step(kerf, allow_rotate);
    let ghost init = seq![Rect { x: 0, y: 0, w: bw, h: bh }];
    let mut remaining: Vec<Shape> = Vec::new();
    let mut bin = GuillotineBin::new(bw, bh, kerf);
    let n = shapes.len();
    for i in 0..n
        invariant
            n == shapes@.len(),
            all_valid(shapes@),
            bin.wf(),
            bin.board_w() == bw,
            bin.board_h() == bh,
            bin.kerf() == kerf,
            step == gl_step(kerf, allow_rotate),
            init == seq![Rect { x: 0, y: 0, w: bw, h: bh }],
            (bin.free_rects(), bin.placed(), remaining@) == run_bin(step, init, shapes@.take(i as int)),
    {
        proof {
            lemma_run_bin_take(step, init, shapes@, i as int);
        }
        let s = &shapes[i];
        if bin.insert(s, allow_rotate).is_none() {
            remaining.push(s.clone());
        }
    }
    assert(shapes@.take(n as int) =~= shapes@);
    proof {
        lemma_gl_step_places_given_shape(kerf, allow_rotate);
        lemma_run_bin_conserves(step, init, shapes@);
    }
    let board = Board { placements: bin.placements };
    (board, remaining)
}

/// The point lies in the piece `p`, or in one of the two kerf-wide saw
/// lines along its right and lower edges (which a guillotine cut may carry
/// on across the whole free rectangle).
pub open spec fn on_cut(p: Rect, k: int, px: int, py: int) -> bool {
    ||| point_in(p, px, py)
    ||| p.x + p.w <= px < p.x + p.w + k
    ||| p.y + p.h <= py < p.y + p.h + k
}

/// Guillotine cuts lose no free area beyond the piece and its saw lines:
/// after a placement, every point of a free rectangle that is neither in
/// the piece nor on one of its two saw lines lies in a new free rectangle.
pub proof fn lemma_gl_insert_keeps_free_points(
    free: Seq<Rect>,
    k: i64,
    s: Shape,
    allow_rotate: bool,
    p: Placement,
    i: int,
    px: int,
    py: int,
)
    requires
        len_ok(k as int),
        s.valid(),
        forall|t: int| 0 <= t < free.len() ==> len_ok((#[trigger] free[t]).w as int) && len_ok(free[t].h as int)
            && len_ok(free[t].x as int) && len_ok(free[t].y as int),
        gl_insert_spec(free, k, s, allow_rotate).1 == Some(p),
        0 <= i < free.len(),
        point_in(free[i], px, py),
        !on_cut(p.rect(), k as int, px, py),
    ensures
        exists|j: int|
            0 <= j < gl_insert_spec(free, k, s, allow_rotate).0.len() && point_in(
                #[trigger] gl_insert_spec(free, k, s, allow_rotate).0[j],
                px,
                py,
            ),
{
    let keys = gl_keys(free, s, allow_rotate);
    assert(!no_key(keys));
    lemma_first_min_exists(keys);
    let c = first_min(keys)->0;
    let (fi, rot) = gl_candidate(s, allow_rotate, c);
    let fr = free[fi];
    let (iw, ih) = s.dims(rot);
    assert(0 <= fi < free.len());
    assert(gl_key(fr, iw as int, ih as int) is Some);
    let rest = free.remove(fi);
    let pieces = gl_pieces(fr, iw as int, ih as int, k as int);
    let nf = rest + pieces;
    assert(gl_insert_spec(free, k, s, allow_rotate).0 == nf);
    assert(p.rect() == Rect { x: fr.x, y: fr.y, w: iw, h: ih });
    if i != fi {
        let t = if i < fi { i } else { i - 1 };
        assert(rest[t] == free[i]);
        assert(nf[t] == free[i]);
    } else {
        let kk = k as int;
        let right_w = fr.w - iw - kk;
        let bot_h = fr.h - ih - kk;
        let n0 = rest.len() as int;
        if right_w >= bot_h {
            if px >= fr.x + iw + kk {
                assert(right_w > 0);
                assert(nf[n0] == pieces[0]);
            } else {
                assert(px < fr.x + iw);
                assert(py >= fr.y + ih + kk);
                assert(bot_h > 0);
                if right_w > 0 {
                    assert(nf[n0 + 1] == pieces[1]);
                } else {
                    assert(nf[n0] == pieces[0]);
                }
            }
        } else {
            if py >= fr.y + ih + kk {
                assert(bot_h > 0);
                assert(nf[n0] == pieces[0]);
            } else {
                assert(py < fr.y + ih);
                assert(px >= fr.x + iw + kk);
                assert(right_w > 0);
                assert(bot_h > 0 ==> nf[n0 + 1] == pieces[1]);
                assert(bot_h <= 0 ==> nf[n0] == pieces[0]);
            }
        }
    }
}

/// A guillotine insertion places the shape whenever some free rectangle
/// can hold it in an allowed orientation, and then puts it, in an allowed
/// orientation, at the corner of a free rectangle that holds it.
pub proof fn lemma_gl_insert_places_where_it_fits(free: Seq<Rect>, k: i64, s: Shape, allow_rotate: bool)
    ensures
        (exists|i: int| 0 <= i < free.len() && (#[trigger] free[i]).w >= s.w && free[i].h >= s.h) || (allow_rotate
            && exists|i: int| 0 <= i < free.len() && (#[trigger] free[i]).w >= s.h && free[i].h >= s.w)
            ==> gl_insert_spec(free, k, s, allow_rotate).1 is Some,
        gl_insert_spec(free, k, s, allow_rotate).1 matches Some(p) ==> {
            &&& p.source() == s
            &&& p.rotated ==> allow_rotate
            &&& exists|i: int|
                0 <= i < free.len() && (#[trigger] free[i]).x == p.x && free[i].y == p.y && rect_contains(
                    free[i],
                    p.rect(),
                )
        },
{
    let keys = gl_keys(free, s, allow_rotate);
    let tr = tries_rotation(s, allow_rotate);
    if exists|i: int| 0 <= i < free.len() && (#[trigger] free[i]).w >= s.w && free[i].h >= s.h {
        let i = choose|i: int| 0 <= i < free.len() && (#[trigger] free[i]).w >= s.w && free[i].h >= s.h;
        if tr {
            assert(keys[2 * i] == gl_key(free[i], s.w as int, s.h as int));
            assert(keys[2 * i] is Some);
        } else {
            assert(keys[i] is Some);
        }
    } else if allow_rotate && exists|i: int| 0 <= i < free.len() && (#[trigger] free[i]).w >= s.h && free[i].h >= s.w {
        let i = choose|i: int| 0 <= i < free.len() && (#[trigger] free[i]).w >= s.h && free[i].h >= s.w;
        if s.w == s.h {
            assert(free[i].w >= s.w && free[i].h >= s.h);
        } else {
            assert((2 * i + 1) / 2 == i && (2 * i + 1) % 2 == 1);
            assert(keys[2 * i + 1] == gl_key(free[i], s.h as int, s.w as int));
            assert(keys[2 * i + 1] is Some);
        }
    }
    if !no_key(keys) {
        lemma_first_min_exists(keys);
        let c = first_min(keys)->0;
        let (fi, rot) = gl_candidate(s, allow_rotate, c);
        if tr {
            assert(0 <= fi < free.len());
            if c % 2 == 0 {
                assert(keys[c] == gl_key(free[fi], s.w as int, s.h as int));
            } else {
                assert(keys[c] == gl_key(free[fi], s.h as int, s.w as int));
            }
        } else {
            assert(keys[c] == gl_key(free[fi], s.w as int, s.h as int));
        }
    }
}

/// A guillotine cut runs across the longer leftover: when the free
/// rectangle that takes a piece has at least as much room right of the
/// piece as below it, every point right of the piece's saw line stays free
/// over the rectangle's whole height; otherwise every point below the
/// piece's saw line stays free over its whole width.
pub proof fn lemma_gl_cut_along_longer_leftover(
    free: Seq<Rect>,
    k: i64,
    s: Shape,
    allow_rotate: bool,
    p: Placement,
    i: int,
    px: int,
    py: int,
)
    requires
        len_ok(k as int),
        s.valid(),
        forall|t: int| 0 <= t < free.len() ==> len_ok((#[trigger] free[t]).w as int) && len_ok(free[t].h as int)
            && len_ok(free[t].x as int) && len_ok(free[t].y as int),
        pairwise_disjoint(free),
        gl_insert_spec(free, k, s, allow_rotate).1 == Some(p),
        0 <= i < free.len(),
        free[i].x == p.x && free[i].y == p.y,
        rect_contains(free[i], p.rect()),
        point_in(free[i], px, py),
        free[i].x + free[i].w - (p.x + p.w) >= free[i].y + free[i].h - (p.y + p.h) ==> px >= p.x + p.w + k,
        free[i].x + free[i].w - (p.x + p.w) < free[i].y + free[i].h - (p.y + p.h) ==> py >= p.y + p.h + k,
    ensures
        exists|j: int|
            0 <= j < gl_insert_spec(free, k, s, allow_rotate).0.len() && point_in(
                #[trigger] gl_insert_spec(free, k, s, allow_rotate).0[j],
                px,
                py,
            ),
{
    let keys = gl_keys(free, s, allow_rotate);
    assert(!no_key(keys));
    lemma_first_min_exists(keys);
    let c = first_min(keys)->0;
    let (fi, rot) = gl_candidate(s, allow_rotate, c);
    let fr = free[fi];
    let (iw, ih) = s.dims(rot);
    assert(0 <= fi < free.len());
    assert(gl_key(fr, iw as int, ih as int) is Some);
    assert(p.rect() == Rect { x: fr.x, y: fr.y, w: iw, h: ih });
    if i != fi {
        assert(rects_overlap(free[i], free[fi]));
        assert(!rects_overlap(free[i], free[fi]));
    }
    let rest = free.remove(fi);
    let pieces = gl_pieces(fr, iw as int, ih as int, k as int);
    let nf = rest + pieces;
    assert(gl_insert_spec(free, k, s, allow_rotate).0 == nf);
    let kk = k as int;
    let right_w = fr.w - iw - kk;
    let bot_h = fr.h - ih - kk;
    let n0 = rest.len() as int;
    if right_w >= bot_h {
        assert(px >= fr.x + iw + kk);
        assert(right_w > 0);
        assert(nf[n0] == pieces[0]);
    } else {
        assert(py >= fr.y + ih + kk);
        assert(bot_h > 0);
        assert(nf[n0] == pieces[0]);
    }
}

} // verus!
