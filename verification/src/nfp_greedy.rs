//! The greedy no-fit-polygon packer: it tries the board's corners and the
//! spots next to every placed piece, asks a collision test about each spot,
//! and keeps the free spot nearest the bottom-left corner.
//!
//! The collision test works on the pieces' outlines in floating point and is
//! supplied by the caller; this module decides everything else.

use vstd::prelude::*;
use crate::geometry::{Rect, rect_in_board, rects_overlap, pos_len_ok, len_ok, mul_wide, MAX_LEN, UNITS_PER_MM};
use crate::model::{Shape, Placement, Board, all_valid, sources, layout_ok, lemma_push_layout};
use crate::select::{tracks, first_min, no_key, lemma_tracks_push, lemma_tracks_first_min, lemma_first_min_exists};
use crate::order::{sort_by_area, is_area_order, permuted};

verus! {

broadcast use vstd::seq_lib::group_to_multiset_ensures;

/// The pieces lie on the board `[0, bw) x [0, bh)` and have positive sides.
pub open spec fn on_board(ps: Seq<Placement>, bw: int, bh: int) -> bool {
    forall|i: int|
        0 <= i < ps.len() ==> #[trigger] ps[i].w > 0 && ps[i].h > 0 && rect_in_board(ps[i].rect(), bw, bh)
}

/// The board's four corners, as spots for a `iw x ih` piece.
pub open spec fn corner_spots(bw: int, bh: int, iw: int, ih: int) -> Seq<(int, int)> {
    seq![(0, 0), (bw - iw, 0), (0, bh - ih), (bw - iw, bh - ih)]
}

/// The spots next to piece `pl` for a `iw x ih` piece: right of it, above
/// it, diagonally above-right, left of it (bottom- and top-aligned), and
/// below it (left- and right-aligned), a kerf away.
pub open spec fn neighbour_spots(pl: Placement, k: int, iw: int, ih: int) -> Seq<(int, int)> {
    seq![
        (pl.x + pl.w + k, pl.y as int),
        (pl.x as int, pl.y + pl.h + k),
        (pl.x + pl.w + k, pl.y + pl.h + k),
        (pl.x - iw - k, pl.y as int),
        (pl.x - iw - k, pl.y + pl.h - ih),
        (pl.x as int, pl.y - ih - k),
        (pl.x + pl.w - iw, pl.y - ih - k),
    ]
}

/// The corners and then the spots next to the first `n` pieces, in order.
pub open spec fn raw_spots(ps: Seq<Placement>, n: int, bw: int, bh: int, k: int, iw: int, ih: int) -> Seq<(int, int)>
    decreases n,
{
    if n <= 0 {
        corner_spots(bw, bh, iw, ih)
    } else {
        raw_spots(ps, n - 1, bw, bh, k, iw, ih) + neighbour_spots(ps[n - 1], k, iw, ih)
    }
}

/// A `iw x ih` piece at `c` lies on the board.
pub open spec fn spot_inside(c: (int, int), bw: int, bh: int, iw: int, ih: int) -> bool {
    c.0 >= 0 && c.1 >= 0 && c.0 + iw <= bw && c.1 + ih <= bh
}

/// The spots of `raw` where a `iw x ih` piece lies on the board, in order.
pub open spec fn inside_spots(raw: Seq<(int, int)>, bw: int, bh: int, iw: int, ih: int) -> Seq<(int, int)>
    decreases raw.len(),
{
    if raw.len() == 0 {
        Seq::empty()
    } else {
        inside_spots(raw.drop_last(), bw, bh, iw, ih) + if spot_inside(raw.last(), bw, bh, iw, ih) {
            seq![raw.last()]
        } else {
            Seq::empty()
        }
    }
}

/// The candidate spots for a `iw x ih` piece on a board holding `ps`.
pub open spec fn nfp_spots(ps: Seq<Placement>, bw: int, bh: int, k: int, iw: int, ih: int) -> Seq<(int, int)> {
    inside_spots(raw_spots(ps, ps.len() as int, bw, bh, k, iw, ih), bw, bh, iw, ih)
}

/// The candidate spots of one orientation: none when the piece is larger
/// than the board that way.
pub open spec fn nfp_orient_spots(ps: Seq<Placement>, bw: int, bh: int, k: int, iw: int, ih: int) -> Seq<(int, int)> {
    if iw > bw || ih > bh {
        Seq::empty()
    } else {
        nfp_spots(ps, bw, bh, k, iw, ih)
    }
}

/// The rotated orientation is examined unless rotation is not allowed and
/// the shape is not a square.
pub open spec fn nfp_rot_tried(s: Shape, allow_rotate: bool) -> bool {
    allow_rotate || s.w == s.h
}

/// The candidate spots of the rotated orientation.
pub open spec fn nfp_rot_spots(ps: Seq<Placement>, bw: int, bh: int, k: int, s: Shape, allow_rotate: bool) -> Seq<(int, int)> {
    if nfp_rot_tried(s, allow_rotate) {
        nfp_orient_spots(ps, bw, bh, k, s.h as int, s.w as int)
    } else {
        Seq::empty()
    }
}

/// The score of a spot, lower being better: its height times twice the
/// board's length, plus its distance from the left edge times one
/// millimetre, in square length units.
pub open spec fn spot_score(c: (int, int), bw: int) -> int {
    c.1 * bw * 2 + UNITS_PER_MM * c.0
}

/// The keys of the spots where the collision test said the piece is free.
pub open spec fn spot_keys(cands: Seq<(int, int)>, collides: Seq<bool>, bw: int) -> Seq<Option<int>> {
    Seq::new(cands.len(), |i: int| if collides[i] { None } else { Some(spot_score(cands[i], bw)) })
}

/// The placement chosen among the unrotated spots `c0` and the rotated spots
/// `c1`, given what the collision test answered for each.
pub open spec fn nfp_choose(
    s: Shape,
    bw: int,
    c0: Seq<(int, int)>,
    a0: Seq<bool>,
    c1: Seq<(int, int)>,
    a1: Seq<bool>,
) -> Option<Placement> {
    match first_min(spot_keys(c0, a0, bw) + spot_keys(c1, a1, bw)) {
        None => None,
        Some(i) => if i < c0.len() {
            Some(Placement::spec_of(s, c0[i].0 as i64, c0[i].1 as i64, false))
        } else {
            Some(Placement::spec_of(s, c1[i - c0.len()].0 as i64, c1[i - c0.len()].1 as i64, true))
        },
    }
}

/// `ans` are answers that the collision test may give for the spots `cands`
/// of a `iw x ih` piece on a board holding `ps`.
pub open spec fn answers<F: Fn(&Vec<Placement>, i64, i64, i64, i64) -> bool>(
    collides: F,
    ps: Vec<Placement>,
    cands: Seq<(int, int)>,
    iw: i64,
    ih: i64,
    ans: Seq<bool>,
) -> bool {
    &&& ans.len() == cands.len()
    &&& forall|i: int|
        0 <= i < cands.len() ==> collides.ensures(
            (&ps, cands[i].0 as i64, cands[i].1 as i64, iw, ih),
            #[trigger] ans[i],
        )
}

/// `r` is the outcome of one insertion when the collision test answers `a0`
/// for the unrotated spots and `a1` for the rotated ones, on a board holding
/// `ps`.
pub open spec fn nfp_outcome<F: Fn(&Vec<Placement>, i64, i64, i64, i64) -> bool>(
    collides: F,
    ps: Vec<Placement>,
    bw: int,
    bh: int,
    k: int,
    s: Shape,
    allow_rotate: bool,
    a0: Seq<bool>,
    a1: Seq<bool>,
    r: Option<Placement>,
) -> bool {
    let c0 = nfp_orient_spots(ps@, bw, bh, k, s.w as int, s.h as int);
    let c1 = nfp_rot_spots(ps@, bw, bh, k, s, allow_rotate);
    &&& answers(collides, ps, c0, s.w, s.h, a0)
    &&& answers(collides, ps, c1, s.h, s.w, a1)
    &&& r == nfp_choose(s, bw, c0, a0, c1, a1)
}

/// The collision test can be asked about any spot.
pub open spec fn test_callable<F: Fn(&Vec<Placement>, i64, i64, i64, i64) -> bool>(collides: F) -> bool {
    forall|ps: &Vec<Placement>, x: i64, y: i64, w: i64, h: i64| collides.requires((ps, x, y, w, h))
}

/// The collision test is sound for a `bw x bh` board: whenever it calls a
/// spot free, the piece there lies on the board and overlaps no placed
/// piece.
pub open spec fn test_sound<F: Fn(&Vec<Placement>, i64, i64, i64, i64) -> bool>(collides: F, bw: int, bh: int) -> bool {
    forall|ps: &Vec<Placement>, x: i64, y: i64, w: i64, h: i64|
        #[trigger] collides.ensures((ps, x, y, w, h), false) ==> {
            &&& rect_in_board(Rect { x, y, w, h }, bw, bh)
            &&& forall|j: int| 0 <= j < ps@.len() ==> !rects_overlap(Rect { x, y, w, h }, #[trigger] ps@[j].rect())
        }
}

/// With a sound collision test, the spot an insertion chooses lies on the
/// board and misses every piece placed before.
pub proof fn lemma_outcome_sound<F: Fn(&Vec<Placement>, i64, i64, i64, i64) -> bool>(
    collides: F,
    ps: Vec<Placement>,
    bw: int,
    bh: int,
    k: int,
    s: Shape,
    allow_rotate: bool,
    a0: Seq<bool>,
    a1: Seq<bool>,
    p: Placement,
)
    requires
        nfp_outcome(collides, ps, bw, bh, k, s, allow_rotate, a0, a1, Some(p)),
        test_sound(collides, bw, bh),
    ensures
        rect_in_board(p.rect(), bw, bh),
        forall|j: int| 0 <= j < ps@.len() ==> !rects_overlap(p.rect(), #[trigger] ps@[j].rect()),
{
    let c0 = nfp_orient_spots(ps@, bw, bh, k, s.w as int, s.h as int);
    let c1 = nfp_rot_spots(ps@, bw, bh, k, s, allow_rotate);
    let keys = spot_keys(c0, a0, bw) + spot_keys(c1, a1, bw);
    assert(!no_key(keys));
    lemma_first_min_exists(keys);
    let i = first_min(keys)->0;
    if i < c0.len() {
        assert(keys[i] == spot_keys(c0, a0, bw)[i]);
        assert(!a0[i]);
        assert(collides.ensures((&ps, c0[i].0 as i64, c0[i].1 as i64, s.w, s.h), a0[i]));
        assert(p == Placement::spec_of(s, c0[i].0 as i64, c0[i].1 as i64, false));
    } else {
        let t = i - c0.len();
        assert(keys[i] == spot_keys(c1, a1, bw)[t]);
        assert(!a1[t]);
        assert(collides.ensures((&ps, c1[t].0 as i64, c1[t].1 as i64, s.h, s.w), a1[t]));
        assert(p == Placement::spec_of(s, c1[t].0 as i64, c1[t].1 as i64, true));
    }
}

/// The corners come first among the raw spots, the bottom-left corner
/// first of all.
proof fn lemma_raw_first(ps: Seq<Placement>, n: int, bw: int, bh: int, k: int, iw: int, ih: int)
    ensures
        raw_spots(ps, n, bw, bh, k, iw, ih).len() >= 4,
        raw_spots(ps, n, bw, bh, k, iw, ih)[0] == (0int, 0int),
    decreases n,
{
    if n > 0 {
        lemma_raw_first(ps, n - 1, bw, bh, k, iw, ih);
    }
}

/// When the first raw spot keeps the piece on the board, it is the first
/// candidate spot.
proof fn lemma_inside_first(raw: Seq<(int, int)>, bw: int, bh: int, iw: int, ih: int)
    requires
        raw.len() > 0,
        spot_inside(raw[0], bw, bh, iw, ih),
    ensures
        inside_spots(raw, bw, bh, iw, ih).len() > 0,
        inside_spots(raw, bw, bh, iw, ih)[0] == raw[0],
    decreases raw.len(),
{
    let front = inside_spots(raw.drop_last(), bw, bh, iw, ih);
    let tail = if spot_inside(raw.last(), bw, bh, iw, ih) {
        seq![raw.last()]
    } else {
        Seq::empty()
    };
    assert(inside_spots(raw, bw, bh, iw, ih) == front + tail);
    if raw.len() == 1 {
        assert(raw.drop_last().len() == 0);
        assert(front.len() == 0);
        assert(raw.last() == raw[0]);
        assert((front + tail)[0] == tail[0]);
    } else {
        assert(raw.drop_last()[0] == raw[0]);
        lemma_inside_first(raw.drop_last(), bw, bh, iw, ih);
        assert((front + tail)[0] == front[0]);
    }
}

/// An insertion places the shape whenever the collision test can only call
/// the bottom-left corner free for it in an allowed orientation that fits
/// the board: as it is, or turned when turning is allowed.
pub proof fn lemma_corner_free_places<F: Fn(&Vec<Placement>, i64, i64, i64, i64) -> bool>(
    collides: F,
    ps: Vec<Placement>,
    bw: int,
    bh: int,
    k: int,
    s: Shape,
    allow_rotate: bool,
    a0: Seq<bool>,
    a1: Seq<bool>,
    r: Option<Placement>,
)
    requires
        nfp_outcome(collides, ps, bw, bh, k, s, allow_rotate, a0, a1, r),
        ({
            ||| s.w <= bw && s.h <= bh && forall|b: bool| #[trigger] collides.ensures((&ps, 0i64, 0i64, s.w, s.h), b) ==> !b
            ||| allow_rotate && s.h <= bw && s.w <= bh && forall|b: bool|
                #[trigger] collides.ensures((&ps, 0i64, 0i64, s.h, s.w), b) ==> !b
        }),
        s.w > 0,
        s.h > 0,
    ensures
        r is Some,
{
    let c0 = nfp_orient_spots(ps@, bw, bh, k, s.w as int, s.h as int);
    let c1 = nfp_rot_spots(ps@, bw, bh, k, s, allow_rotate);
    let keys = spot_keys(c0, a0, bw) + spot_keys(c1, a1, bw);
    if s.w <= bw && s.h <= bh && forall|b: bool| #[trigger] collides.ensures((&ps, 0i64, 0i64, s.w, s.h), b) ==> !b {
        let n = ps@.len() as int;
        lemma_raw_first(ps@, n, bw, bh, k, s.w as int, s.h as int);
        lemma_inside_first(raw_spots(ps@, n, bw, bh, k, s.w as int, s.h as int), bw, bh, s.w as int, s.h as int);
        assert(c0[0] == (0int, 0int));
        assert(collides.ensures((&ps, c0[0].0 as i64, c0[0].1 as i64, s.w, s.h), a0[0]));
        assert(!a0[0]);
        assert(keys[0] is Some);
    } else {
        let n = ps@.len() as int;
        assert(nfp_rot_tried(s, allow_rotate));
        lemma_raw_first(ps@, n, bw, bh, k, s.h as int, s.w as int);
        lemma_inside_first(raw_spots(ps@, n, bw, bh, k, s.h as int, s.w as int), bw, bh, s.h as int, s.w as int);
        assert(c1[0] == (0int, 0int));
        assert(collides.ensures((&ps, c1[0].0 as i64, c1[0].1 as i64, s.h, s.w), a1[0]));
        assert(!a1[0]);
        assert(keys[c0.len() as int] is Some);
    }
    lemma_first_min_exists(keys);
}

/// An insertion puts the shape, turned only when turning is allowed or the
/// shape is a square, at a spot that the collision test called free for it.
pub proof fn lemma_nfp_choice_allowed<F: Fn(&Vec<Placement>, i64, i64, i64, i64) -> bool>(
    collides: F,
    ps: Vec<Placement>,
    bw: int,
    bh: int,
    k: int,
    s: Shape,
    allow_rotate: bool,
    a0: Seq<bool>,
    a1: Seq<bool>,
    p: Placement,
)
    requires
        nfp_outcome(collides, ps, bw, bh, k, s, allow_rotate, a0, a1, Some(p)),
    ensures
        p.source() == s,
        p.rotated ==> allow_rotate || s.w == s.h,
        collides.ensures((&ps, p.x, p.y, p.w, p.h), false),
{
    let c0 = nfp_orient_spots(ps@, bw, bh, k, s.w as int, s.h as int);
    let c1 = nfp_rot_spots(ps@, bw, bh, k, s, allow_rotate);
    let keys = spot_keys(c0, a0, bw) + spot_keys(c1, a1, bw);
    assert(!no_key(keys));
    lemma_first_min_exists(keys);
    let i = first_min(keys)->0;
    if i < c0.len() {
        assert(keys[i] == spot_keys(c0, a0, bw)[i]);
        assert(collides.ensures((&ps, c0[i].0 as i64, c0[i].1 as i64, s.w, s.h), a0[i]));
    } else {
        let t = i - c0.len();
        assert(keys[i] == spot_keys(c1, a1, bw)[t]);
        assert(c1.len() > 0);
        assert(nfp_rot_tried(s, allow_rotate));
        assert(collides.ensures((&ps, c1[t].0 as i64, c1[t].1 as i64, s.h, s.w), a1[t]));
    }
}

/// A single board packed greedily at collision-free spots.
pub struct NFPBin {
    bw: i64,
    bh: i64,
    kerf: i64,
    pub placements: Vec<Placement>,
}

impl NFPBin {
    pub closed spec fn board_w(&self) -> i64 {
        self.bw
    }

    pub closed spec fn board_h(&self) -> i64 {
        self.bh
    }

    pub closed spec fn kerf(&self) -> i64 {
        self.kerf
    }

    /// The pieces placed so far, in order.
    pub closed spec fn placed(&self) -> Seq<Placement> {
        self.placements@
    }

    /// The pieces placed so far, as handed to the collision test.
    pub closed spec fn placed_vec(&self) -> Vec<Placement> {
        self.placements
    }

    /// The board's sizes and kerf are accepted lengths and every piece lies
    /// on the board.
    pub open spec fn wf(&self) -> bool {
        &&& pos_len_ok(self.board_w() as int)
        &&& pos_len_ok(self.board_h() as int)
        &&& len_ok(self.kerf() as int)
        &&& on_board(self.placed(), self.board_w() as int, self.board_h() as int)
        &&& self.placed_vec()@ == self.placed()
    }

    /// An empty `bw x bh` board.
    pub fn new(bw: i64, bh: i64, kerf: i64) -> (b: Self)
        requires
            pos_len_ok(bw as int),
            pos_len_ok(bh as int),
            len_ok(kerf as int),
        ensures
            b.wf(),
            b.board_w() == bw,
            b.board_h() == bh,
            b.kerf() == kerf,
            b.placed() == Seq::<Placement>::empty(),
    {
        NFPBin { bw, bh, kerf, placements: Vec::new() }
    }

    /// Puts `shape` at the collision-free candidate spot nearest the
    /// bottom-left corner, unrotated spots first; `collides` tells whether a
    /// piece at a spot would hit the board's edge or a placed piece.
    pub fn insert<F: Fn(&Vec<Placement>, i64, i64, i64, i64) -> bool>(
        &mut self,
        shape: &Shape,
        allow_rotate: bool,
        collides: &F,
    ) -> (r: Option<Placement>)
        requires
            old(self).wf(),
            shape.valid(),
            test_callable(*collides),
        ensures
            final(self).wf(),
            final(self).board_w() == old(self).board_w(),
            final(self).board_h() == old(self).board_h(),
            final(self).kerf() == old(self).kerf(),
            exists|a0: Seq<bool>, a1: Seq<bool>|
                #[trigger] nfp_outcome(
                    *collides,
                    old(self).placed_vec(),
                    old(self).board_w() as int,
                    old(self).board_h() as int,
                    old(self).kerf() as int,
                    *shape,
                    allow_rotate,
                    a0,
                    a1,
                    r,
                ),
            final(self).placed() == match r {
                Some(p) => old(self).placed().push(p),
                None => old(self).placed(),
            },
            r matches Some(p) ==> p.source() == *shape,
    {
        let ghost bw = self.bw as int;
        let ghost bh = self.bh as int;
        let ghost k = self.kerf as int;
        let ghost ps = self.placements@;
        let ghost c0 = nfp_orient_spots(ps, bw, bh, k, shape.w as int, shape.h as int);
        let ghost c1 = nfp_rot_spots(ps, bw, bh, k, *shape, allow_rotate);
        let (b0, sc0, Ghost(a0)) = self.scan_orient(shape, false, None, 0, collides, Ghost(Seq::empty()), Ghost(0));
        assert(Seq::<Option<int>>::empty() + spot_keys(c0, a0, bw) =~= spot_keys(c0, a0, bw));
        let mut best = b0;
        let mut a1: Ghost<Seq<bool>> = Ghost(Seq::empty());
        if allow_rotate || shape.w == shape.h {
            let (b1, _sc1, g1) = self.scan_orient(shape, true, best, sc0, collides, Ghost(spot_keys(c0, a0, bw)), Ghost(c0.len() as int));
            best = b1;
            a1 = g1;
        } else {
            assert(spot_keys(c0, a0, bw) + spot_keys(c1, Seq::<bool>::empty(), bw) =~= spot_keys(c0, a0, bw));
        }
        let ghost keys = spot_keys(c0, a0, bw) + spot_keys(c1, a1@, bw);
        proof {
            lemma_tracks_first_min(keys, nfp_cand_int(best, c0.len() as int));
        }
        let (j, rotated, bx, by) = match best {
            None => {
                assert(nfp_outcome(*collides, old(self).placed_vec(), bw, bh, k, *shape, allow_rotate, a0, a1@, None));
                return None;
            },
            Some(c) => c,
        };
        let p = Placement::of(shape, bx, by, rotated);
        proof {
            assert(nfp_choose(*shape, bw, c0, a0, c1, a1@) == Some(p));
            assert(rect_in_board(p.rect(), bw, bh));
            assert(nfp_outcome(*collides, old(self).placed_vec(), bw, bh, k, *shape, allow_rotate, a0, a1@, Some(p)));
        }
        self.placements.push(p.clone());
        proof {
            let ps2 = self.placements@;
            assert forall|i: int| 0 <= i < ps2.len() implies #[trigger] ps2[i].w > 0 && ps2[i].h > 0
                && rect_in_board(ps2[i].rect(), bw, bh) by {
                if i < ps.len() {
                    assert(ps2[i] == ps[i]);
                }
            }
        }
        Some(p)
    }

    /// Examines the candidate spots of one orientation; the spots examined
    /// before, and the choice among them, are carried in.
    fn scan_orient<F: Fn(&Vec<Placement>, i64, i64, i64, i64) -> bool>(
        &self,
        shape: &Shape,
        rotated: bool,
        best: Option<(usize, bool, i64, i64)>,
        best_score: i128,
        collides: &F,
        Ghost(prior): Ghost<Seq<Option<int>>>,
        Ghost(off): Ghost<int>,
    ) -> (res: (Option<(usize, bool, i64, i64)>, i128, Ghost<Seq<bool>>))
        requires
            self.wf(),
            shape.valid(),
            test_callable(*collides),
            off == if rotated { nfp_orient_spots(self.placed(), self.bw as int, self.bh as int, self.kerf as int, shape.w as int, shape.h as int).len() as int } else { 0 },
            prior.len() == off,
            tracks(prior, nfp_cand_int(best, off)),
            best is Some ==> prior[nfp_cand_int(best, off)->0] == Some(best_score as int),
            best_ok(best, *shape, self.placed(), self.bw as int, self.bh as int, self.kerf as int),
            best matches Some((_, r, _, _)) ==> !r,
        ensures
            ({
                let (iw, ih) = shape.dims(rotated);
                let cands = nfp_orient_spots(self.placed(), self.bw as int, self.bh as int, self.kerf as int, iw as int, ih as int);
                let keys = prior + spot_keys(cands, res.2@, self.bw as int);
                &&& answers(*collides, self.placed_vec(), cands, iw, ih, res.2@)
                &&& tracks(keys, nfp_cand_int(res.0, off))
                &&& res.0 is Some ==> keys[nfp_cand_int(res.0, off)->0] == Some(res.1 as int)
                &&& best_ok(res.0, *shape, self.placed(), self.bw as int, self.bh as int, self.kerf as int)
                &&& res.0 matches Some((_, r, _, _)) ==> (r ==> rotated)
            }),
    {
        let (iw, ih) = if rotated {
            (shape.h, shape.w)
        } else {
            (shape.w, shape.h)
        };
        let ghost bw = self.bw as int;
        let ghost cands = nfp_orient_spots(self.placed(), self.bw as int, self.bh as int, self.kerf as int, iw as int, ih as int);
        let cv = if iw > self.bw || ih > self.bh {
            Vec::new()
        } else {
            self.candidates(iw, ih)
        };
        proof {
            if !(iw > self.bw || ih > self.bh) {
                lemma_inside_spots(raw_spots(self.placed(), self.placed().len() as int, self.bw as int, self.bh as int, self.kerf as int, iw as int, ih as int), self.bw as int, self.bh as int, iw as int, ih as int);
            }
        }
        let mut best = best;
        let mut best_score = best_score;
        let ghost mut ans: Seq<bool> = Seq::empty();
        let n = cv.len();
        for j in 0..n
            invariant
                n == cv@.len(),
                n == cands.len(),
                forall|t: int| 0 <= t < n ==> (#[trigger] cv@[t]).0 as int == cands[t].0 && cv@[t].1 as int == cands[t].1,
                forall|t: int| 0 <= t < n ==> spot_inside(#[trigger] cands[t], self.bw as int, self.bh as int, iw as int, ih as int),
                (iw, ih) == shape.dims(rotated),
                cands == nfp_orient_spots(self.placed(), self.bw as int, self.bh as int, self.kerf as int, iw as int, ih as int),
                self.wf(),
                shape.valid(),
                test_callable(*collides),
                bw == self.bw,
                ans.len() == j,
                answers(*collides, self.placed_vec(), cands.take(j as int), iw, ih, ans),
                prior.len() == off,
                off == if rotated { nfp_orient_spots(self.placed(), self.bw as int, self.bh as int, self.kerf as int, shape.w as int, shape.h as int).len() as int } else { 0 },
                tracks(prior + spot_keys(cands.take(j as int), ans, bw), nfp_cand_int(best, off)),
                best is Some ==> (prior + spot_keys(cands.take(j as int), ans, bw))[nfp_cand_int(best, off)->0] == Some(best_score as int),
                best_ok(best, *shape, self.placed(), self.bw as int, self.bh as int, self.kerf as int),
                best matches Some((_, r, _, _)) ==> (r ==> rotated),
                best matches Some((bj, r, _, _)) ==> (r == rotated ==> bj < j),
        {
            let (cx, cy) = cv[j];
            let ghost pre = prior + spot_keys(cands.take(j as int), ans, bw);
            let c = if cx < 0 || cy < 0 || cx + iw > self.bw || cy + ih > self.bh {
                true
            } else {
                collides(&self.placements, cx, cy, iw, ih)
            };
            let ghost ans0 = ans;
            let ghost kj = if c { None } else { Some(spot_score(cands[j as int], bw)) };
            proof {
                ans = ans.push(c);
                lemma_tracks_push(pre, nfp_cand_int(best, off), kj);
                assert(spot_keys(cands.take(j + 1), ans, bw) =~= spot_keys(cands.take(j as int), ans0, bw).push(kj));
                assert(pre.push(kj) =~= prior + spot_keys(cands.take(j + 1), ans, bw));
                assert(cands.take(j + 1)[j as int] == cands[j as int]);
                assert forall|t: int| 0 <= t < j + 1 implies collides.ensures(
                    (&self.placed_vec(), cands.take(j + 1)[t].0 as i64, cands.take(j + 1)[t].1 as i64, iw, ih),
                    #[trigger] ans[t],
                ) by {
                    if t < j {
                        assert(ans[t] == ans0[t]);
                        assert(cands.take(j + 1)[t] == cands.take(j as int)[t]);
                    }
                }
            }
            if !c {
                let prod = mul_wide(cy, self.bw);
                assert(0 <= prod <= 0x4000_0000_0000_0000) by {
                    assert(spot_inside(cands[j as int], self.bw as int, self.bh as int, iw as int, ih as int));
                    let a = cy as int;
                    let b = self.bw as int;
                    assert(0 <= a * b <= 0x4000_0000_0000_0000) by (nonlinear_arith)
                        requires
                            0 <= a <= 0x8000_0000,
                            0 <= b <= 0x8000_0000,
                    ;
                }
                let score = prod * 2 + cx as i128 * UNITS_PER_MM as i128;
                if best.is_none() || score < best_score {
                    best_score = score;
                    best = Some((j, rotated, cx, cy));
                }
            }
        }
        assert(cands.take(n as int) =~= cands);
        (best, best_score, Ghost(ans))
    }

    /// The candidate spots for a `iw x ih` piece: the corners and the spots
    /// next to every placed piece, those on the board, in order.
    fn candidates(&self, iw: i64, ih: i64) -> (r: Vec<(i64, i64)>)
        requires
            self.wf(),
            pos_len_ok(iw as int),
            pos_len_ok(ih as int),
        ensures
            r@.len() == nfp_spots(self.placed(), self.bw as int, self.bh as int, self.kerf as int, iw as int, ih as int).len(),
            forall|i: int|
                0 <= i < r@.len() ==> (#[trigger] r@[i]).0 as int == nfp_spots(
                    self.placed(),
                    self.bw as int,
                    self.bh as int,
                    self.kerf as int,
                    iw as int,
                    ih as int,
                )[i].0 && r@[i].1 as int == nfp_spots(
                    self.placed(),
                    self.bw as int,
                    self.bh as int,
                    self.kerf as int,
                    iw as int,
                    ih as int,
                )[i].1,
    {
        let ghost ps = self.placements@;
        let ghost bw = self.bw as int;
        let ghost bh = self.bh as int;
        let ghost k = self.kerf as int;
        let mut cands: Vec<(i64, i64)> = Vec::new();
        cands.push((0, 0));
        cands.push((self.bw - iw, 0));
        cands.push((0, self.bh - ih));
        cands.push((self.bw - iw, self.bh - ih));
        assert(spots_int(cands@) =~= raw_spots(ps, 0, bw, bh, k, iw as int, ih as int));
        let n = self.placements.len();
        for i in 0..n
            invariant
                n == ps.len(),
                ps == self.placements@,
                self.wf(),
                bw == self.bw,
                bh == self.bh,
                k == self.kerf,
                pos_len_ok(iw as int),
                pos_len_ok(ih as int),
                spots_int(cands@) == raw_spots(ps, i as int, bw, bh, k, iw as int, ih as int),
                forall|t: int| 0 <= t < cands@.len() ==> -4 * MAX_LEN <= (#[trigger] cands@[t]).0 <= 4 * MAX_LEN
                    && -4 * MAX_LEN <= cands@[t].1 <= 4 * MAX_LEN,
        {
            let pl = &self.placements[i];
            let k = self.kerf;
            assert(rect_in_board(ps[i as int].rect(), bw, bh));
            let ghost before = cands@;
            cands.push((pl.x + pl.w + k, pl.y));
            cands.push((pl.x, pl.y + pl.h + k));
            cands.push((pl.x + pl.w + k, pl.y + pl.h + k));
            cands.push((pl.x - iw - k, pl.y));
            cands.push((pl.x - iw - k, pl.y + pl.h - ih));
            cands.push((pl.x, pl.y - ih - k));
            cands.push((pl.x + pl.w - iw, pl.y - ih - k));
            assert(spots_int(cands@) =~= spots_int(before) + neighbour_spots(ps[i as int], k as int, iw as int, ih as int));
        }
        let ghost raw = cands@;
        let mut out: Vec<(i64, i64)> = Vec::new();
        let m = cands.len();
        for j in 0..m
            invariant
                m == raw.len(),
                cands@ == raw,
                spots_int(out@) == inside_spots(spots_int(raw.take(j as int)), bw, bh, iw as int, ih as int),
                bw == self.bw,
                bh == self.bh,
                forall|t: int| 0 <= t < raw.len() ==> -4 * MAX_LEN <= (#[trigger] raw[t]).0 <= 4 * MAX_LEN
                    && -4 * MAX_LEN <= raw[t].1 <= 4 * MAX_LEN,
                pos_len_ok(iw as int),
                pos_len_ok(ih as int),
        {
            let (x, y) = cands[j];
            assert(spots_int(raw.take(j + 1)).drop_last() =~= spots_int(raw.take(j as int)));
            assert(spots_int(raw.take(j + 1)).last() == (x as int, y as int));
            if x >= 0 && y >= 0 && x + iw <= self.bw && y + ih <= self.bh {
                out.push((x, y));
                assert(spots_int(out@) =~= inside_spots(spots_int(raw.take(j as int)), bw, bh, iw as int, ih as int)
                    + seq![(x as int, y as int)]);
            }
        }
        assert(raw.take(m as int) =~= raw);
        let ghost want = nfp_spots(ps, bw, bh, k, iw as int, ih as int);
        assert(spots_int(out@) == want);
        assert forall|i: int| 0 <= i < out@.len() implies (#[trigger] out@[i]).0 as int == want[i].0 && out@[i].1 as int
            == want[i].1 by {
            assert(spots_int(out@)[i] == want[i]);
        }
        out
    }
}

/// Every spot that `inside_spots` keeps lies on the board.
pub proof fn lemma_inside_spots(raw: Seq<(int, int)>, bw: int, bh: int, iw: int, ih: int)
    ensures
        forall|t: int|
            0 <= t < inside_spots(raw, bw, bh, iw, ih).len() ==> spot_inside(
                #[trigger] inside_spots(raw, bw, bh, iw, ih)[t],
                bw,
                bh,
                iw,
                ih,
            ),
    decreases raw.len(),
{
    if raw.len() > 0 {
        lemma_inside_spots(raw.drop_last(), bw, bh, iw, ih);
        let a = inside_spots(raw.drop_last(), bw, bh, iw, ih);
        let all = inside_spots(raw, bw, bh, iw, ih);
        assert forall|t: int| 0 <= t < all.len() implies spot_inside(#[trigger] all[t], bw, bh, iw, ih) by {
            if t < a.len() {
                assert(all[t] == a[t]);
            }
        }
    }
}

/// The number of the candidate that is spot `j` of the given orientation,
/// when the unrotated orientation has `off` spots.
pub open spec fn nfp_cand_int(b: Option<(usize, bool, i64, i64)>, off: int) -> Option<int> {
    match b {
        Some((j, r, _, _)) => Some(if r { off + j } else { j as int }),
        None => None,
    }
}

/// The recorded choice is spot `j` of its orientation, and the shape lies on
/// the board there.
pub open spec fn best_ok(b: Option<(usize, bool, i64, i64)>, s: Shape, ps: Seq<Placement>, bw: int, bh: int, k: int) -> bool {
    match b {
        None => true,
        Some((j, r, x, y)) => {
            let (iw, ih) = s.dims(r);
            let cands = nfp_orient_spots(ps, bw, bh, k, iw as int, ih as int);
            &&& j < cands.len()
            &&& cands[j as int] == (x as int, y as int)
            &&& spot_inside((x as int, y as int), bw, bh, iw as int, ih as int)
        },
    }
}

/// Spots as pairs of mathematical integers.
pub open spec fn spots_int(v: Seq<(i64, i64)>) -> Seq<(int, int)> {
    v.map_values(|c: (i64, i64)| (c.0 as int, c.1 as int))
}

/// The shapes of `xs` whose flag is `want`, in order.
pub open spec fn pick(xs: Seq<Shape>, flags: Seq<bool>, want: bool) -> Seq<Shape>
    decreases xs.len(),
{
    if xs.len() == 0 {
        Seq::empty()
    } else {
        pick(xs.drop_last(), flags.drop_last(), want) + if flags.last() == want {
            seq![xs.last()]
        } else {
            Seq::empty()
        }
    }
}

/// The pieces that a run of insertions placed, in order.
pub open spec fn placed_from(outcomes: Seq<Option<Placement>>) -> Seq<Placement>
    decreases outcomes.len(),
{
    if outcomes.len() == 0 {
        Seq::empty()
    } else {
        placed_from(outcomes.drop_last()) + match outcomes.last() {
            Some(p) => seq![p],
            None => Seq::empty(),
        }
    }
}

/// Whether each insertion of a run placed its shape.
pub open spec fn placed_flags(outcomes: Seq<Option<Placement>>) -> Seq<bool> {
    outcomes.map_values(|o: Option<Placement>| o is Some)
}

/// `r` is an outcome of inserting `s` into a board holding `ps` that some
/// answers of the collision test give.
#[verifier::opaque]
pub open spec fn nfp_step<F: Fn(&Vec<Placement>, i64, i64, i64, i64) -> bool>(
    collides: F,
    ps: Vec<Placement>,
    bw: int,
    bh: int,
    k: int,
    s: Shape,
    allow_rotate: bool,
    r: Option<Placement>,
) -> bool {
    exists|a0: Seq<bool>, a1: Seq<bool>| #[trigger] nfp_outcome(collides, ps, bw, bh, k, s, allow_rotate, a0, a1, r)
}

/// `outcomes` is what inserting `shapes` one after the other into an empty
/// board gives when the collision test answers as it may: shape `i` meets
/// the pieces placed before it, handed to the test as `before[i]`.
pub open spec fn nfp_run<F: Fn(&Vec<Placement>, i64, i64, i64, i64) -> bool>(
    collides: F,
    bw: int,
    bh: int,
    k: int,
    allow_rotate: bool,
    shapes: Seq<Shape>,
    before: Seq<Vec<Placement>>,
    outcomes: Seq<Option<Placement>>,
) -> bool {
    &&& before.len() == shapes.len()
    &&& outcomes.len() == shapes.len()
    &&& forall|i: int| 0 <= i < shapes.len() ==> (#[trigger] before[i])@ == placed_from(outcomes.take(i))
    &&& forall|i: int|
        0 <= i < shapes.len() ==> nfp_step(collides, #[trigger] before[i], bw, bh, k, shapes[i], allow_rotate, outcomes[i])
}

/// One more insertion extends a run.
proof fn lemma_run_push<F: Fn(&Vec<Placement>, i64, i64, i64, i64) -> bool>(
    collides: F,
    bw: int,
    bh: int,
    k: int,
    allow_rotate: bool,
    shapes: Seq<Shape>,
    before: Seq<Vec<Placement>>,
    outcomes: Seq<Option<Placement>>,
    pv: Vec<Placement>,
    s: Shape,
    r: Option<Placement>,
)
    requires
        nfp_run(collides, bw, bh, k, allow_rotate, shapes, before, outcomes),
        pv@ == placed_from(outcomes),
        nfp_step(collides, pv, bw, bh, k, s, allow_rotate, r),
    ensures
        nfp_run(collides, bw, bh, k, allow_rotate, shapes.push(s), before.push(pv), outcomes.push(r)),
{
    let xs = shapes.push(s);
    let bs = before.push(pv);
    let os = outcomes.push(r);
    let n = shapes.len() as int;
    assert forall|j: int| 0 <= j < xs.len() implies (#[trigger] bs[j])@ == placed_from(os.take(j)) by {
        if j < n {
            assert(bs[j] == before[j]);
            assert(os.take(j) =~= outcomes.take(j));
        } else {
            assert(os.take(j) =~= outcomes);
        }
    }
    assert forall|j: int| 0 <= j < xs.len() implies nfp_step(
        collides,
        #[trigger] bs[j],
        bw,
        bh,
        k,
        xs[j],
        allow_rotate,
        os[j],
    ) by {
        if j < n {
            assert(bs[j] == before[j] && xs[j] == shapes[j] && os[j] == outcomes[j]);
        } else {
            assert(bs[j] == pv && xs[j] == s && os[j] == r);
        }
    }
}

/// `ps` and `left` are what packing `shapes` onto one board gives: the
/// shapes are inserted largest area first, and `ps` holds the pieces placed
/// and `left` the shapes not placed, in that order.
#[verifier::opaque]
pub open spec fn nfp_board<F: Fn(&Vec<Placement>, i64, i64, i64, i64) -> bool>(
    collides: F,
    bw: int,
    bh: int,
    k: int,
    allow_rotate: bool,
    shapes: Seq<Shape>,
    ps: Seq<Placement>,
    left: Seq<Shape>,
) -> bool {
    exists|order: Seq<usize>, before: Seq<Vec<Placement>>, outcomes: Seq<Option<Placement>>|
        #![trigger nfp_run(collides, bw, bh, k, allow_rotate, permuted(shapes, order), before, outcomes)]
        {
            &&& is_area_order(shapes, order)
            &&& nfp_run(collides, bw, bh, k, allow_rotate, permuted(shapes, order), before, outcomes)
            &&& ps == placed_from(outcomes)
            &&& sources(ps) == pick(permuted(shapes, order), placed_flags(outcomes), true)
            &&& left == pick(permuted(shapes, order), placed_flags(outcomes), false)
        }
}

/// Packs the shapes, largest area first, onto one `bw x bh` board at
/// collision-free spots; returns the board and the shapes that did not fit.
#[verifier::spinoff_prover]
pub fn pack_nfp<F: Fn(&Vec<Placement>, i64, i64, i64, i64) -> bool>(
    shapes: &[Shape],
    bw: i64,
    bh: i64,
    kerf: i64,
    allow_rotate: bool,
    collides: &F,
) -> (res: (Board, Vec<Shape>))
    requires
        pos_len_ok(bw as int),
        pos_len_ok(bh as int),
        len_ok(kerf as int),
        all_valid(shapes@),
        test_callable(*collides),
    ensures
        on_board(res.0.placements@, bw as int, bh as int),
        sources(res.0.placements@).to_multiset().add(res.1@.to_multiset()) =~= shapes@.to_multiset(),
        test_sound(*collides, bw as int, bh as int) ==> layout_ok(res.0.placements@, bw as int, bh as int),
        nfp_board(*collides, bw as int, bh as int, kerf as int, allow_rotate, shapes@, res.0.placements@, res.1@),
{
    let sorted = sort_by_area(shapes);
    let ghost order = choose|order: Seq<usize>| is_area_order(shapes@, order) && sorted@ == permuted(shapes@, order);
    let ghost mut before: Seq<Vec<Placement>> = Seq::empty();
    let ghost mut outcomes: Seq<Option<Placement>> = Seq::empty();
    let mut remaining: Vec<Shape> = Vec::new();
    let mut bin = NFPBin::new(bw, bh, kerf);
    let n = sorted.len();
    for i in 0..n
        invariant
            n == sorted@.len(),
            all_valid(sorted@),
            bin.wf(),
            bin.board_w() == bw,
            bin.board_h() == bh,
            bin.kerf() == kerf,
            test_callable(*collides),
            sources(bin.placed()).to_multiset().add(remaining@.to_multiset()) =~= sorted@.take(i as int).to_multiset(),
            test_sound(*collides, bw as int, bh as int) ==> layout_ok(bin.placed(), bw as int, bh as int),
            nfp_run(*collides, bw as int, bh as int, kerf as int, allow_rotate, sorted@.take(i as int), before, outcomes),
            bin.placed() == placed_from(outcomes),
            sources(bin.placed()) == pick(sorted@.take(i as int), placed_flags(outcomes), true),
            remaining@ == pick(sorted@.take(i as int), placed_flags(outcomes), false),
    {
        let s = &sorted[i];
        let ghost ps0 = bin.placed();
        let ghost pv0 = bin.placed_vec();
        let r = bin.insert(s, allow_rotate, collides);
        proof {
            if test_sound(*collides, bw as int, bh as int) && r is Some {
                let p = r->0;
                let (a0, a1) = choose|a0: Seq<bool>, a1: Seq<bool>|
                    #[trigger] nfp_outcome(*collides, pv0, bw as int, bh as int, kerf as int, *s, allow_rotate, a0, a1, r);
                lemma_outcome_sound(*collides, pv0, bw as int, bh as int, kerf as int, *s, allow_rotate, a0, a1, p);
                assert(p.w > 0 && p.h > 0) by {
                    assert(on_board(bin.placed(), bw as int, bh as int));
                    assert(bin.placed()[ps0.len() as int] == p);
                }
                assert forall|j: int| 0 <= j < ps0.len() implies !rects_overlap(p.rect(), #[trigger] ps0[j].rect())
                    && !rects_overlap(ps0[j].rect(), p.rect()) by {
                    assert(pv0@[j] == ps0[j]);
                }
                lemma_push_layout(ps0, p, bw as int, bh as int);
            }
            assert(sorted@.take(i + 1) =~= sorted@.take(i as int).push(*s));
            if r is Some {
                let p = r->0;
                assert(sources(ps0.push(p)) =~= sources(ps0).push(*s));
            }
        }
        let ghost rem0 = remaining@;
        if r.is_none() {
            remaining.push(s.clone());
        }
        proof {
            let xs = sorted@.take(i + 1);
            let os = outcomes.push(r);
            let bs = before.push(pv0);
            let fl = placed_flags(os);
            assert(xs.drop_last() =~= sorted@.take(i as int));
            assert(os.drop_last() =~= outcomes);
            assert(fl =~= placed_flags(outcomes).push(r is Some));
            assert(fl.drop_last() =~= placed_flags(outcomes));
            assert(xs.last() == *s);
            assert(placed_from(os) =~= bin.placed());
            if r is Some {
                assert(sources(ps0.push(r->0)) =~= sources(ps0).push(*s));
            }
            assert(sources(bin.placed()) =~= pick(xs, fl, true));
            assert(remaining@ =~= pick(xs, fl, false));
            assert(nfp_step(*collides, pv0, bw as int, bh as int, kerf as int, *s, allow_rotate, r)) by {
                reveal(nfp_step);
            }
            lemma_run_push(*collides, bw as int, bh as int, kerf as int, allow_rotate, sorted@.take(i as int), before, outcomes, pv0, *s, r);
            before = bs;
            outcomes = os;
        }
    }
    assert(sorted@.take(n as int) =~= sorted@);
    let board = Board { placements: bin.placements };
    proof {
        reveal(nfp_board);
        assert(nfp_run(*collides, bw as int, bh as int, kerf as int, allow_rotate, permuted(shapes@, order), before, outcomes));
    }
    (board, remaining)
}

} // verus!
