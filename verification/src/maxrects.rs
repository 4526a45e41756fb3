//! The MaxRects packer: it keeps every maximal free rectangle of the board
//! and puts each shape into the free rectangle that it fits best
//! (best short side fit, then best long side fit).

use vstd::prelude::*;
use crate::geometry::{
    Rect, rects_overlap, rect_contains, rect_in_board, pos_len_ok, len_ok, overlaps, contains,
    lemma_contained_no_overlap, point_in,
};
use crate::model::{Shape, Placement, Board, layout_ok, all_valid, tries_rotation, sources, lemma_push_layout};
use crate::select::{tracks, first_min, no_key, lemma_tracks_push, lemma_tracks_first_min, lemma_first_min_exists, is_first_min};
use crate::run::{run_bin, lemma_run_bin_take, lemma_run_bin_conserves, places_given_shape};

verus! {

/// The weight of the short leftover side in the fit score.
pub const SHORT_SIDE_WEIGHT: i128 = 100_000_000;

/// The fit score of a `iw x ih` piece in the free rectangle `fr`: the short
/// leftover side counts first, the long leftover side breaks ties.
pub open spec fn mr_score(fr: Rect, iw: int, ih: int) -> int {
    let dw = fr.w - iw;
    let dh = fr.h - ih;
    (if dw <= dh { dw } else { dh }) * SHORT_SIDE_WEIGHT + (if dw <= dh { dh } else { dw })
}

/// The score of putting a `iw x ih` piece into `fr`, if it fits there.
pub open spec fn mr_key(fr: Rect, iw: int, ih: int) -> Option<int> {
    if fr.w >= iw && fr.h >= ih {
        Some(mr_score(fr, iw, ih))
    } else {
        None
    }
}

/// The scores of a `iw x ih` piece in each free rectangle, in order.
pub open spec fn mr_keys(free: Seq<Rect>, iw: int, ih: int) -> Seq<Option<int>> {
    Seq::new(free.len(), |i: int| mr_key(free[i], iw, ih))
}

/// All candidates, in the order in which they are examined: every free
/// rectangle with the shape unrotated, then, if rotation is tried, every
/// free rectangle with the shape rotated.
pub open spec fn mr_all_keys(free: Seq<Rect>, s: Shape, allow_rotate: bool) -> Seq<Option<int>> {
    mr_keys(free, s.w as int, s.h as int) + if tries_rotation(s, allow_rotate) {
        mr_keys(free, s.h as int, s.w as int)
    } else {
        Seq::empty()
    }
}

/// The free rectangle and the orientation of candidate `i`.
pub open spec fn mr_candidate(free: Seq<Rect>, i: int) -> (Rect, bool) {
    if i < free.len() {
        (free[i], false)
    } else {
        (free[i - free.len()], true)
    }
}

/// `r` as a one-element sequence when both its sides are positive, else nothing.
pub open spec fn keep_pos(r: Rect) -> Seq<Rect> {
    if r.w > 0 && r.h > 0 {
        seq![r]
    } else {
        Seq::empty()
    }
}

/// What is left of the free rectangle `fr` once `pl` is cut with kerf `k`:
/// `fr` itself when they do not overlap, else the strips of `fr` right of,
/// left of, above and below `pl` (the right and upper ones a kerf away).
pub open spec fn split_one(fr: Rect, pl: Rect, k: i64) -> Seq<Rect> {
    if !rects_overlap(pl, fr) {
        keep_pos(fr)
    } else {
        let rw = fr.x + fr.w - pl.x - pl.w - k;
        let bh = fr.y + fr.h - pl.y - pl.h - k;
        (if rw > 0 {
            keep_pos(Rect { x: (pl.x + pl.w + k) as i64, y: fr.y, w: rw as i64, h: fr.h })
        } else {
            Seq::empty()
        }) + (if pl.x > fr.x {
            keep_pos(Rect { x: fr.x, y: fr.y, w: (pl.x - fr.x) as i64, h: fr.h })
        } else {
            Seq::empty()
        }) + (if bh > 0 {
            keep_pos(Rect { x: fr.x, y: (pl.y + pl.h + k) as i64, w: fr.w, h: bh as i64 })
        } else {
            Seq::empty()
        }) + (if pl.y > fr.y {
            keep_pos(Rect { x: fr.x, y: fr.y, w: fr.w, h: (pl.y - fr.y) as i64 })
        } else {
            Seq::empty()
        })
    }
}

/// `split_one` applied to every free rectangle, the results in order.
pub open spec fn split_all(free: Seq<Rect>, pl: Rect, k: i64) -> Seq<Rect>
    decreases free.len(),
{
    if free.len() == 0 {
        Seq::empty()
    } else {
        split_all(free.drop_last(), pl, k) + split_one(free.last(), pl, k)
    }
}

/// Free rectangle `i` is kept: no other free rectangle contains it.
pub open spec fn prune_keep(free: Seq<Rect>, i: int) -> bool {
    !exists|j: int| 0 <= j < free.len() && j != i && #[trigger] rect_contains(free[j], free[i])
}

/// The kept rectangles among the first `n`, in order.
pub open spec fn prune_upto(free: Seq<Rect>, n: int) -> Seq<Rect>
    decreases n,
{
    if n <= 0 {
        Seq::empty()
    } else {
        prune_upto(free, n - 1) + if prune_keep(free, n - 1) {
            seq![free[n - 1]]
        } else {
            Seq::empty()
        }
    }
}

/// The free rectangles that no other free rectangle contains, in order.
pub open spec fn prune(free: Seq<Rect>) -> Seq<Rect> {
    prune_upto(free, free.len() as int)
}

/// One insertion: the new free rectangles and the placement, if the shape fits.
pub open spec fn mr_insert_spec(free: Seq<Rect>, k: i64, s: Shape, allow_rotate: bool) -> (
    Seq<Rect>,
    Option<Placement>,
) {
    match first_min(mr_all_keys(free, s, allow_rotate)) {
        None => (free, None),
        Some(i) => {
            let (fr, rot) = mr_candidate(free, i);
            let pl = Rect { x: fr.x, y: fr.y, w: s.dims(rot).0, h: s.dims(rot).1 };
            (prune(split_all(free, pl, k)), Some(Placement::spec_of(s, fr.x, fr.y, rot)))
        },
    }
}

/// `mr_insert_spec` as the step of a run over many shapes.
pub open spec fn mr_step(k: i64, allow_rotate: bool) -> spec_fn(Seq<Rect>, Shape) -> (
    Seq<Rect>,
    Option<Placement>,
) {
    |free: Seq<Rect>, s: Shape| mr_insert_spec(free, k, s, allow_rotate)
}

/// Free rectangles have positive sides and lie on the board.
pub open spec fn free_ok(free: Seq<Rect>, bw: int, bh: int) -> bool {
    forall|i: int|
        0 <= i < free.len() ==> (#[trigger] free[i]).w > 0 && free[i].h > 0 && rect_in_board(
            free[i],
            bw,
            bh,
        )
}

/// No free rectangle overlaps a placed piece.
pub open spec fn free_disjoint(free: Seq<Rect>, ps: Seq<Placement>) -> bool {
    forall|i: int, j: int|
        0 <= i < free.len() && 0 <= j < ps.len() ==> !rects_overlap(
            #[trigger] free[i],
            #[trigger] ps[j].rect(),
        )
}

/// A single board packed with the MaxRects heuristic.
pub struct MaxRectsBin {
    bw: i64,
    bh: i64,
    kerf: i64,
    free: Vec<Rect>,
    pub placements: Vec<Placement>,
}

impl MaxRectsBin {
    pub closed spec fn board_w(&self) -> i64 {
        self.bw
    }

    pub closed spec fn board_h(&self) -> i64 {
        self.bh
    }

    pub closed spec fn kerf(&self) -> i64 {
        self.kerf
    }

    /// The pieces placed so far, in order.
    pub closed spec fn placed(&self) -> Seq<Placement> {
        self.placements@
    }

    /// The free rectangles, in the order in which they are examined.
    pub closed spec fn free_rects(&self) -> Seq<Rect> {
        self.free@
    }

    /// The board's sizes and kerf are accepted lengths, the free rectangles
    /// lie on the board, the pieces form a layout, and no free rectangle
    /// overlaps a piece.
    pub open spec fn wf(&self) -> bool {
        &&& pos_len_ok(self.board_w() as int)
        &&& pos_len_ok(self.board_h() as int)
        &&& len_ok(self.kerf() as int)
        &&& free_ok(self.free_rects(), self.board_w() as int, self.board_h() as int)
        &&& layout_ok(self.placed(), self.board_w() as int, self.board_h() as int)
        &&& free_disjoint(self.free_rects(), self.placed())
    }

    /// An empty `bw x bh` board whose only free rectangle is the whole board.
    pub fn new(bw: i64, bh: i64, kerf: i64) -> (b: Self)
        requires
            pos_len_ok(bw as int),
            pos_len_ok(bh as int),
            len_ok(kerf as int),
        ensures
            b.wf(),
            b.board_w() == bw,
            b.board_h() == bh,
            b.kerf() == kerf,
            b.free_rects() == seq![Rect { x: 0, y: 0, w: bw, h: bh }],
            b.placed() == Seq::<Placement>::empty(),
    {
        let mut free: Vec<Rect> = Vec::new();
        free.push(Rect { x: 0, y: 0, w: bw, h: bh });
        MaxRectsBin { bw, bh, kerf, free, placements: Vec::new() }
    }

    /// Puts `shape` into the free rectangle where it fits best, if any.
    pub fn insert(&mut self, shape: &Shape, allow_rotate: bool) -> (r: Option<Placement>)
        requires
            old(self).wf(),
            shape.valid(),
        ensures
            final(self).wf(),
            final(self).board_w() == old(self).board_w(),
            final(self).board_h() == old(self).board_h(),
            final(self).kerf() == old(self).kerf(),
            (final(self).free_rects(), r) == mr_insert_spec(
                old(self).free_rects(),
                old(self).kerf(),
                *shape,
                allow_rotate,
            ),
            final(self).placed() == match r {
                Some(p) => old(self).placed().push(p),
                None => old(self).placed(),
            },
    {
        let n = self.free.len();
        let ghost free0 = self.free@;
        let ghost k0 = mr_keys(free0, shape.w as int, shape.h as int);
        let (b1, s1) = scan_free(&self.free, shape.w, shape.h, false, None, 0, Ghost(Seq::empty()));
        assert(Seq::<Option<int>>::empty() + k0 =~= k0);
        let mut best = b1;
        let mut best_score = s1;
        let rot_tried = allow_rotate && shape.w != shape.h;
        if rot_tried {
            let (b2, s2) = scan_free(&self.free, shape.h, shape.w, true, best, best_score, Ghost(k0));
            best = b2;
            best_score = s2;
        }
        let ghost keys = mr_all_keys(free0, *shape, allow_rotate);
        assert(keys =~= k0 + if rot_tried {
            mr_keys(free0, shape.h as int, shape.w as int)
        } else {
            Seq::empty()
        });
        proof {
            lemma_tracks_first_min(keys, cand_int(best, n as int));
        }
        let (fi, rotated) = match best {
            None => {
                return None;
            },
            Some(c) => c,
        };
        let ghost gi = if rotated { fi + n } else { fi as int };
        let fr = self.free[fi];
        let (iw, ih) = if rotated {
            (shape.h, shape.w)
        } else {
            (shape.w, shape.h)
        };
        proof {
            assert(is_first_min(keys, gi as int));
            assert(keys[gi as int] is Some);
            if rotated {
                assert(keys[gi as int] == mr_key(free0[fi as int], shape.h as int, shape.w as int));
            } else {
                assert(keys[gi as int] == mr_key(free0[fi as int], shape.w as int, shape.h as int));
            }
        }
        let placed = Rect { x: fr.x, y: fr.y, w: iw, h: ih };
        self.split(&placed);
        let ghost split_free = self.free@;
        self.prune();
        let p = Placement::of(shape, fr.x, fr.y, rotated);
        proof {
            lemma_split_all_props(free0, placed, self.kerf, self.bw as int, self.bh as int);
            lemma_prune_subset(split_free, split_free.len() as int);
            let ps0 = self.placements@;
            assert(p.rect() == placed);
            assert(rect_contains(fr, placed));
            assert forall|j: int| 0 <= j < ps0.len() implies !rects_overlap(placed, ps0[j].rect())
                && !rects_overlap(ps0[j].rect(), placed) by {
                assert(!rects_overlap(free0[fi as int], ps0[j].rect()));
                lemma_contained_no_overlap(fr, placed, ps0[j].rect());
            }
            let nf = self.free@;
            assert forall|i: int, j: int|
                0 <= i < nf.len() && 0 <= j < ps0.len() implies !rects_overlap(
                nf[i],
                ps0[j].rect(),
            ) by {
                let t = choose|t: int| 0 <= t < split_free.len() && split_free[t] == nf[i];
                let u = choose|u: int| 0 <= u < free0.len() && rect_contains(free0[u], split_free[t]);
                assert(!rects_overlap(free0[u], ps0[j].rect()));
                lemma_contained_no_overlap(free0[u], nf[i], ps0[j].rect());
            }
            assert forall|i: int| 0 <= i < nf.len() implies !rects_overlap(nf[i], placed) by {
                let t = choose|t: int| 0 <= t < split_free.len() && split_free[t] == nf[i];
                assert(!rects_overlap(split_free[t], placed));
            }
        }
        proof {
            lemma_push_layout(old(self).placements@, p, self.bw as int, self.bh as int);
        }
        self.placements.push(p.clone());
        proof {
            let ps = self.placements@;
            let nf = self.free@;
            assert(ps.last() == p);
            assert forall|i: int, j: int|
                0 <= i < nf.len() && 0 <= j < ps.len() implies !rects_overlap(
                #[trigger] nf[i],
                #[trigger] ps[j].rect(),
            ) by {
                if j < ps.len() - 1 {
                    assert(ps[j] == old(self).placements@[j]);
                }
            }
        }
        Some(p)
    }

    /// Replaces every free rectangle by what is left of it around `pl`.
    fn split(&mut self, pl: &Rect)
        requires
            free_ok(old(self).free@, old(self).bw as int, old(self).bh as int),
            pos_len_ok(old(self).bw as int),
            pos_len_ok(old(self).bh as int),
            len_ok(old(self).kerf as int),
            rect_in_board(*pl, old(self).bw as int, old(self).bh as int),
            pl.w > 0,
            pl.h > 0,
        ensures
            final(self).free@ == split_all(old(self).free@, *pl, old(self).kerf),
            final(self).bw == old(self).bw,
            final(self).bh == old(self).bh,
            final(self).kerf == old(self).kerf,
            final(self).placements == old(self).placements,
    {
        let k = self.kerf;
        let n = self.free.len();
        let mut nf: Vec<Rect> = Vec::new();
        for i in 0..n
            invariant
                n == self.free@.len(),
                nf@ == split_all(self.free@.take(i as int), *pl, k),
                free_ok(self.free@, self.bw as int, self.bh as int),
                pos_len_ok(self.bw as int),
                pos_len_ok(self.bh as int),
                len_ok(k as int),
                rect_in_board(*pl, self.bw as int, self.bh as int),
        {
            let fr = self.free[i];
            assert(self.free@.take(i + 1).drop_last() =~= self.free@.take(i as int));
            let ghost before = nf@;
            if !overlaps(pl, &fr) {
                push_pos(&mut nf, fr);
            } else {
                let rw = fr.x + fr.w - pl.x - pl.w - k;
                if rw > 0 {
                    push_pos(&mut nf, Rect { x: pl.x + pl.w + k, y: fr.y, w: rw, h: fr.h });
                }
                let ghost a1 = nf@;
                if pl.x > fr.x {
                    push_pos(&mut nf, Rect { x: fr.x, y: fr.y, w: pl.x - fr.x, h: fr.h });
                }
                let ghost a2 = nf@;
                let bh = fr.y + fr.h - pl.y - pl.h - k;
                if bh > 0 {
                    push_pos(&mut nf, Rect { x: fr.x, y: pl.y + pl.h + k, w: fr.w, h: bh });
                }
                let ghost a3 = nf@;
                if pl.y > fr.y {
                    push_pos(&mut nf, Rect { x: fr.x, y: fr.y, w: fr.w, h: pl.y - fr.y });
                }
                assert(nf@ =~= before + split_one(fr, *pl, k));
            }
        }
        assert(self.free@.take(n as int) =~= self.free@);
        self.free = nf;
    }

    /// Drops every free rectangle that another free rectangle contains.
    fn prune(&mut self)
        ensures
            final(self).free@ == prune(old(self).free@),
            final(self).bw == old(self).bw,
            final(self).bh == old(self).bh,
            final(self).kerf == old(self).kerf,
            final(self).placements == old(self).placements,
    {
        let n = self.free.len();
        let mut nf: Vec<Rect> = Vec::new();
        for i in 0..n
            invariant
                n == self.free@.len(),
                nf@ == prune_upto(self.free@, i as int),
        {
            let mut keep = true;
            for j in 0..n
                invariant
                    n == self.free@.len(),
                    0 <= i < n,
                    keep == !exists|t: int|
                        0 <= t < j && t != i && #[trigger] rect_contains(
                            self.free@[t],
                            self.free@[i as int],
                        ),
            {
                if i != j && contains(&self.free[j], &self.free[i]) {
                    keep = false;
                }
            }
            if keep {
                nf.push(self.free[i]);
            }
        }
        self.free = nf;
    }
}

/// The number of the candidate that is free rectangle `i` in the given
/// orientation, when there are `n` free rectangles.
pub open spec fn cand_int(b: Option<(usize, bool)>, n: int) -> Option<int> {
    match b {
        Some((i, rot)) => Some(if rot { i + n } else { i as int }),
        None => None,
    }
}

/// Appends `r` when both its sides are positive.
fn push_pos(v: &mut Vec<Rect>, r: Rect)
    ensures
        final(v)@ == old(v)@ + keep_pos(r),
{
    if r.w > 0 && r.h > 0 {
        v.push(r);
    }
    assert(old(v)@ + keep_pos(r) =~= final(v)@);
}

/// Scans the free rectangles for a `iw x ih` piece in the given orientation;
/// the choice over the candidates `prior` examined before is carried in.
fn scan_free(
    free: &Vec<Rect>,
    iw: i64,
    ih: i64,
    rotated: bool,
    best: Option<(usize, bool)>,
    best_score: i128,
    Ghost(prior): Ghost<Seq<Option<int>>>,
) -> (res: (Option<(usize, bool)>, i128))
    requires
        prior.len() == if rotated { free@.len() } else { 0 },
        tracks(prior, cand_int(best, free@.len() as int)),
        best is Some ==> prior[cand_int(best, free@.len() as int)->0] == Some(best_score as int),
        best matches Some((i, _)) ==> i < free@.len(),
        forall|i: int| 0 <= i < free@.len() ==> len_ok((#[trigger] free@[i]).w as int) && len_ok(free@[i].h as int),
        pos_len_ok(iw as int),
        pos_len_ok(ih as int),
    ensures
        tracks(prior + mr_keys(free@, iw as int, ih as int), cand_int(res.0, free@.len() as int)),
        res.0 is Some ==> (prior + mr_keys(free@, iw as int, ih as int))[cand_int(
            res.0,
            free@.len() as int,
        )->0] == Some(res.1 as int),
        res.0 matches Some((i, _)) ==> i < free@.len(),
{
    let ghost keys = mr_keys(free@, iw as int, ih as int);
    let mut best = best;
    let mut best_score = best_score;
    let n = free.len();
    for i in 0..n
        invariant
            n == free@.len(),
            keys == mr_keys(free@, iw as int, ih as int),
            prior.len() == if rotated { n as int } else { 0 },
            tracks(prior + keys.take(i as int), cand_int(best, n as int)),
            best is Some ==> (prior + keys.take(i as int))[cand_int(best, n as int)->0] == Some(
                best_score as int,
            ),
            best matches Some((i, _)) ==> i < n,
            forall|i: int| 0 <= i < free@.len() ==> len_ok((#[trigger] free@[i]).w as int) && len_ok(free@[i].h as int),
            pos_len_ok(iw as int),
            pos_len_ok(ih as int),
    {
        let fr = free[i];
        let ghost pre = prior + keys.take(i as int);
        proof {
            lemma_tracks_push(pre, cand_int(best, n as int), keys[i as int]);
            assert(pre.push(keys[i as int]) =~= prior + keys.take(i + 1));
        }
        if fr.w >= iw && fr.h >= ih {
            let dw = (fr.w - iw) as i128;
            let dh = (fr.h - ih) as i128;
            let (mn, mx) = if dw <= dh {
                (dw, dh)
            } else {
                (dh, dw)
            };
            let sc = mn * SHORT_SIDE_WEIGHT + mx;
            assert(keys[i as int] == Some(sc as int));
            if best.is_none() || sc < best_score {
                best = Some((i, rotated));
                best_score = sc;
            }
        }
    }
    assert(keys.take(n as int) =~= keys);
    (best, best_score)
}

/// Every piece that splitting one free rectangle yields has positive sides,
/// lies inside that rectangle and does not overlap `pl`.
#[verifier::spinoff_prover]
proof fn lemma_split_one_props(fr: Rect, pl: Rect, k: i64, bw: int, bh: int)
    requires
        fr.w > 0,
        fr.h > 0,
        rect_in_board(fr, bw, bh),
        pos_len_ok(bw),
        pos_len_ok(bh),
        len_ok(k as int),
        rect_in_board(pl, bw, bh),
        pl.w > 0,
        pl.h > 0,
    ensures
        forall|i: int|
            0 <= i < split_one(fr, pl, k).len() ==> {
                let r = #[trigger] split_one(fr, pl, k)[i];
                &&& r.w > 0 && r.h > 0
                &&& !rects_overlap(r, pl)
                &&& rect_contains(fr, r)
            },
{
}

/// Every rectangle that splitting yields has positive sides, lies inside
/// one of the free rectangles it came from, and does not overlap `pl`.
#[verifier::spinoff_prover]
proof fn lemma_split_all_props(free: Seq<Rect>, pl: Rect, k: i64, bw: int, bh: int)
    requires
        free_ok(free, bw, bh),
        pos_len_ok(bw),
        pos_len_ok(bh),
        len_ok(k as int),
        rect_in_board(pl, bw, bh),
        pl.w > 0,
        pl.h > 0,
    ensures
        forall|i: int|
            0 <= i < split_all(free, pl, k).len() ==> {
                let r = #[trigger] split_all(free, pl, k)[i];
                &&& r.w > 0 && r.h > 0
                &&& !rects_overlap(r, pl)
                &&& exists|j: int| 0 <= j < free.len() && rect_contains(free[j], r)
            },
        free_ok(split_all(free, pl, k), bw, bh),
    decreases free.len(),
{
    if free.len() > 0 {
        let init = free.drop_last();
        assert(free_ok(init, bw, bh)) by {
            assert forall|i: int| 0 <= i < init.len() implies #[trigger] init[i] == free[i] by {}
        }
        lemma_split_all_props(init, pl, k, bw, bh);
        let fr = free.last();
        let last = free.len() - 1;
        assert(fr == free[last]);
        let a = split_all(init, pl, k);
        let b = split_one(fr, pl, k);
        let all = split_all(free, pl, k);
        assert(all == a + b);
        lemma_split_one_props(fr, pl, k, bw, bh);
        assert forall|i: int| 0 <= i < all.len() implies {
            let r = #[trigger] all[i];
            &&& r.w > 0 && r.h > 0
            &&& !rects_overlap(r, pl)
            &&& exists|j: int| 0 <= j < free.len() && rect_contains(free[j], r)
        } by {
            if i < a.len() {
                assert(all[i] == a[i]);
                let j = choose|j: int| 0 <= j < init.len() && rect_contains(init[j], a[i]);
                assert(init[j] == free[j]);
            } else {
                assert(all[i] == b[i - a.len()]);
                assert(rect_contains(free[last], all[i]));
            }
        }
        assert forall|i: int| 0 <= i < all.len() implies (#[trigger] all[i]).w > 0 && all[i].h > 0
            && rect_in_board(all[i], bw, bh) by {
            let j = choose|j: int| 0 <= j < free.len() && rect_contains(free[j], all[i]);
            assert(rect_in_board(free[j], bw, bh));
        }
    }
}

/// Pruning keeps only rectangles that were there before.
proof fn lemma_prune_subset(free: Seq<Rect>, n: int)
    requires
        0 <= n <= free.len(),
    ensures
        forall|i: int|
            0 <= i < prune_upto(free, n).len() ==> exists|t: int|
                0 <= t < free.len() && free[t] == #[trigger] prune_upto(free, n)[i],
    decreases n,
{
    if n > 0 {
        lemma_prune_subset(free, n - 1);
        let a = prune_upto(free, n - 1);
        let all = prune_upto(free, n);
        assert forall|i: int| 0 <= i < all.len() implies exists|t: int|
            0 <= t < free.len() && free[t] == #[trigger] all[i] by {
            if i < a.len() {
                assert(all[i] == a[i]);
            } else {
                assert(all[i] == free[n - 1]);
            }
        }
    }
}

/// The MaxRects step places, when it places anything, the shape it is given.
pub proof fn lemma_mr_step_places_given_shape(k: i64, allow_rotate: bool)
    ensures
        places_given_shape(mr_step(k, allow_rotate)),
{
    assert forall|st: Seq<Rect>, s: Shape| (#[trigger] mr_step(k, allow_rotate)(st, s)).1 is Some
        implies mr_step(k, allow_rotate)(st, s).1->0.source() == s by {}
}

/// Packs the shapes, in the given order, onto one `bw x bh` board with the
/// MaxRects heuristic; returns the board and the shapes that did not fit.
pub fn pack_maxrects(shapes: &[Shape], bw: i64, bh: i64, kerf: i64, allow_rotate: bool) -> (res: (
    Board,
    Vec<Shape>,
))
    requires
        pos_len_ok(bw as int),
        pos_len_ok(bh as int),
        len_ok(kerf as int),
        all_valid(shapes@),
    ensures
        res.0.placements@ == run_bin(
            mr_step(kerf, allow_rotate),
            seq![Rect { x: 0, y: 0, w: bw, h: bh }],
            shapes@,
        ).1,
        res.1@ == run_bin(
            mr_step(kerf, allow_rotate),
            seq![Rect { x: 0, y: 0, w: bw, h: bh }],
            shapes@,
        ).2,
        layout_ok(res.0.placements@, bw as int, bh as int),
        sources(res.0.placements@).to_multiset().add(res.1@.to_multiset()) =~= shapes@.to_multiset(),
{
    let ghost step = mr_step(kerf, allow_rotate);
    let ghost init = seq![Rect { x: 0, y: 0, w: bw, h: bh }];
    let mut remaining: Vec<Shape> = Vec::new();
    let mut bin = MaxRectsBin::new(bw, bh, kerf);
    let n = shapes.len();
    for i in 0..n
        invariant
            n == shapes@.len(),
            all_valid(shapes@),
            bin.wf(),
            bin.board_w() == bw,
            bin.board_h() == bh,
            bin.kerf() == kerf,
            step == mr_step(kerf, allow_rotate),
            init == seq![Rect { x: 0, y: 0, w: bw, h: bh }],
            (bin.free_rects(), bin.placed(), remaining@) == run_bin(step, init, shapes@.take(i as int)),
    {
        proof {
            lemma_run_bin_take(step, init, shapes@, i as int);
        }
        let s = &shapes[i];
        if bin.insert(s, allow_rotate).is_none() {
            remaining.push(s.clone());
        }
    }
    assert(shapes@.take(n as int) =~= shapes@);
    proof {
        lemma_mr_step_places_given_shape(kerf, allow_rotate);
        lemma_run_bin_conserves(step, init, shapes@);
    }
    let board = Board { placements: bin.placements };
    (board, remaining)
}

/// The point lies in the piece `pl` or in the kerf-wide margin to its right
/// and below it.
pub open spec fn in_cut(pl: Rect, k: int, px: int, py: int) -> bool {
    pl.x <= px < pl.x + pl.w + k && pl.y <= py < pl.y + pl.h + k
}

/// Cutting `pl` out of one free rectangle keeps every point of it that
/// lies outside the piece and its kerf margin free.
proof fn lemma_split_one_keeps(fr: Rect, pl: Rect, k: i64, px: int, py: int)
    requires
        k >= 0,
        point_in(fr, px, py),
        !in_cut(pl, k as int, px, py),
        fr.x >= 0,
        fr.y >= 0,
        fr.x + fr.w <= 0x8000_0000,
        fr.y + fr.h <= 0x8000_0000,
        pl.x >= 0,
        pl.y >= 0,
        pl.x + pl.w <= 0x8000_0000,
        pl.y + pl.h <= 0x8000_0000,
        k <= 0x8000_0000,
    ensures
        exists|j: int| 0 <= j < split_one(fr, pl, k).len() && point_in(#[trigger] split_one(fr, pl, k)[j], px, py),
{
    let out = split_one(fr, pl, k);
    if !rects_overlap(pl, fr) {
        assert(out[0] == fr);
    } else {
        let rw = fr.x + fr.w - pl.x - pl.w - k;
        let bh = fr.y + fr.h - pl.y - pl.h - k;
        let a = if rw > 0 {
            keep_pos(Rect { x: (pl.x + pl.w + k) as i64, y: fr.y, w: rw as i64, h: fr.h })
        } else {
            Seq::empty()
        };
        let b = if pl.x > fr.x {
            keep_pos(Rect { x: fr.x, y: fr.y, w: (pl.x - fr.x) as i64, h: fr.h })
        } else {
            Seq::empty()
        };
        let c = if bh > 0 {
            keep_pos(Rect { x: fr.x, y: (pl.y + pl.h + k) as i64, w: fr.w, h: bh as i64 })
        } else {
            Seq::empty()
        };
        let d = if pl.y > fr.y {
            keep_pos(Rect { x: fr.x, y: fr.y, w: fr.w, h: (pl.y - fr.y) as i64 })
        } else {
            Seq::empty()
        };
        assert(out == a + b + c + d);
        if px >= pl.x + pl.w + k {
            assert(out[0] == a[0]);
        } else if px < pl.x {
            assert(out[a.len() as int] == b[0]);
        } else if py >= pl.y + pl.h + k {
            assert(out[(a.len() + b.len()) as int] == c[0]);
        } else {
            assert(py < pl.y);
            assert(out[(a.len() + b.len() + c.len()) as int] == d[0]);
        }
    }
}

/// Splitting keeps every free point: each point of a free rectangle that
/// lies outside the placed piece and its kerf margin lies in one of the
/// rectangles that splitting gives.
pub proof fn lemma_split_keeps_free_points(free: Seq<Rect>, pl: Rect, k: i64, bw: int, bh: int, i: int, px: int, py: int)
    requires
        free_ok(free, bw, bh),
        pos_len_ok(bw),
        pos_len_ok(bh),
        len_ok(k as int),
        rect_in_board(pl, bw, bh),
        0 <= i < free.len(),
        point_in(free[i], px, py),
        !in_cut(pl, k as int, px, py),
    ensures
        exists|j: int| 0 <= j < split_all(free, pl, k).len() && point_in(#[trigger] split_all(free, pl, k)[j], px, py),
    decreases free.len(),
{
    let last = free.len() - 1;
    let front = free.drop_last();
    assert(split_all(free, pl, k) == split_all(front, pl, k) + split_one(free.last(), pl, k));
    if i < last {
        assert(front[i] == free[i]);
        assert(free_ok(front, bw, bh)) by {
            assert forall|t: int| 0 <= t < front.len() implies (#[trigger] front[t]).w > 0 && front[t].h > 0
                && rect_in_board(front[t], bw, bh) by {
                assert(front[t] == free[t]);
            }
        }
        lemma_split_keeps_free_points(front, pl, k, bw, bh, i, px, py);
        let j = choose|j: int| 0 <= j < split_all(front, pl, k).len() && point_in(#[trigger] split_all(front, pl, k)[j], px, py);
        assert(split_all(free, pl, k)[j] == split_all(front, pl, k)[j]);
    } else {
        assert(free[i] == free.last());
        assert(free_ok(free, bw, bh));
        assert(free[i].w > 0 && rect_in_board(free[i], bw, bh));
        lemma_split_one_keeps(free.last(), pl, k, px, py);
        let one = split_one(free.last(), pl, k);
        let j = choose|j: int| 0 <= j < one.len() && point_in(#[trigger] one[j], px, py);
        let n0 = split_all(front, pl, k).len();
        assert(split_all(free, pl, k)[n0 + j] == one[j]);
    }
}

/// A MaxRects insertion places the shape whenever some free rectangle can
/// hold it in an allowed orientation, and then puts it, in an allowed
/// orientation, at the corner of a free rectangle that holds it.
pub proof fn lemma_mr_insert_places_where_it_fits(free: Seq<Rect>, k: i64, s: Shape, allow_rotate: bool)
    ensures
        (exists|i: int| 0 <= i < free.len() && (#[trigger] free[i]).w >= s.w && free[i].h >= s.h) || (allow_rotate
            && exists|i: int| 0 <= i < free.len() && (#[trigger] free[i]).w >= s.h && free[i].h >= s.w)
            ==> mr_insert_spec(free, k, s, allow_rotate).1 is Some,
        mr_insert_spec(free, k, s, allow_rotate).1 matches Some(p) ==> {
            &&& p.source() == s
            &&& p.rotated ==> allow_rotate
            &&& exists|i: int|
                0 <= i < free.len() && (#[trigger] free[i]).x == p.x && free[i].y == p.y && rect_contains(
                    free[i],
                    p.rect(),
                )
        },
{
    let keys = mr_all_keys(free, s, allow_rotate);
    let n = free.len() as int;
    if exists|i: int| 0 <= i < free.len() && (#[trigger] free[i]).w >= s.w && free[i].h >= s.h {
        let i = choose|i: int| 0 <= i < free.len() && (#[trigger] free[i]).w >= s.w && free[i].h >= s.h;
        assert(keys[i] == mr_key(free[i], s.w as int, s.h as int));
        assert(keys[i] is Some);
    } else if allow_rotate && exists|i: int| 0 <= i < free.len() && (#[trigger] free[i]).w >= s.h && free[i].h >= s.w {
        let i = choose|i: int| 0 <= i < free.len() && (#[trigger] free[i]).w >= s.h && free[i].h >= s.w;
        if s.w == s.h {
            assert(free[i].w >= s.w && free[i].h >= s.h);
        } else {
            assert(keys[n + i] == mr_key(free[i], s.h as int, s.w as int));
            assert(keys[n + i] is Some);
        }
    }
    if !no_key(keys) {
        lemma_first_min_exists(keys);
        let c = first_min(keys)->0;
        let (fr, rot) = mr_candidate(free, c);
        if c < n {
            assert(keys[c] == mr_key(free[c], s.w as int, s.h as int));
            assert(fr == free[c]);
        } else {
            assert(tries_rotation(s, allow_rotate));
            assert(keys[c] == mr_key(free[c - n], s.h as int, s.w as int));
            assert(fr == free[c - n]);
        }
    }
}

} // verus!
