//! Packing shapes onto as many boards as it takes, with any of the
//! single-board packers.

use vstd::prelude::*;
use vstd::multiset::Multiset;
use crate::geometry::{Rect, pos_len_ok, len_ok};
use crate::model::{Shape, Placement, Board, layout_ok, all_valid, all_sized, sources, tries_rotation};
use crate::run::{run_bin, lemma_run_bin_conserves, lemma_run_bin_first};
use crate::select::no_key;
use crate::maxrects::{mr_step, pack_maxrects, mr_all_keys, mr_keys, lemma_mr_step_places_given_shape};
use crate::guillotine::{gl_step, pack_guillotine, gl_keys, lemma_gl_step_places_given_shape};
use crate::bottom_left::{bl_step, pack_bottom_left, SkylineSeg, bl_all_keys, bl_keys, bl_key, sky_max, lemma_bl_step_places_given_shape};
use crate::nfp_greedy::{pack_nfp, on_board, test_callable, test_sound, nfp_board};
use crate::order::{sort_by_area, is_area_order, permuted, lemma_area_order_unique};

verus! {

broadcast use vstd::seq_lib::group_to_multiset_ensures;

/// The single-board packer to use.
#[derive(Clone, Copy, PartialEq, Eq, Debug, Structural)]
pub enum BinType {
    MaxRects,
    Guillotine,
    BottomLeft,
    NFP,
}

/// The boards used and the shapes that fit on no board.
#[derive(Debug)]
pub struct PackResult {
    pub boards: Vec<Board>,
    pub unfittable: Vec<Shape>,
}

/// The pieces of each board, in order.
pub open spec fn board_views(boards: Seq<Board>) -> Seq<Seq<Placement>> {
    boards.map_values(|b: Board| b.placements@)
}

impl Clone for PackResult {
    fn clone(&self) -> (r: Self)
        ensures
            board_views(r.boards@) == board_views(self.boards@),
            r.unfittable@ == self.unfittable@,
    {
        let mut boards: Vec<Board> = Vec::new();
        let n = self.boards.len();
        for i in 0..n
            invariant
                n == self.boards@.len(),
                boards@.len() == i,
                forall|t: int| 0 <= t < i ==> (#[trigger] boards@[t]).placements@ == self.boards@[t].placements@,
        {
            boards.push(self.boards[i].clone());
        }
        assert(board_views(boards@) =~= board_views(self.boards@));
        let mut unfittable: Vec<Shape> = Vec::new();
        let m = self.unfittable.len();
        for i in 0..m
            invariant
                m == self.unfittable@.len(),
                unfittable@ == self.unfittable@.take(i as int),
        {
            unfittable.push(self.unfittable[i].clone());
            assert(unfittable@ =~= self.unfittable@.take(i + 1));
        }
        assert(self.unfittable@.take(m as int) =~= self.unfittable@);
        PackResult { boards, unfittable }
    }
}

/// The shape fits on an empty `bw x bh` board, rotated if need be and allowed.
pub open spec fn fits_board(s: Shape, bw: int, bh: int, allow_rotate: bool) -> bool {
    (s.w <= bw && s.h <= bh) || (allow_rotate && s.h <= bw && s.w <= bh)
}

/// The shapes that fit on an empty board, in order.
pub open spec fn fittable(items: Seq<Shape>, bw: int, bh: int, allow_rotate: bool) -> Seq<Shape> {
    items.filter(|s: Shape| fits_board(s, bw, bh, allow_rotate))
}

/// The shapes that fit on no board, in order.
pub open spec fn not_fittable(items: Seq<Shape>, bw: int, bh: int, allow_rotate: bool) -> Seq<Shape> {
    items.filter(|s: Shape| !fits_board(s, bw, bh, allow_rotate))
}

/// What the rectangle packers put on one board, and what they leave; the
/// collision-based packer has no such function (its collision test decides).
pub open spec fn single_bin_spec(bt: BinType, shapes: Seq<Shape>, bw: i64, bh: i64, k: i64, allow_rotate: bool) -> (
    Seq<Placement>,
    Seq<Shape>,
) {
    match bt {
        BinType::MaxRects => {
            let r = run_bin(mr_step(k, allow_rotate), seq![Rect { x: 0, y: 0, w: bw, h: bh }], shapes);
            (r.1, r.2)
        },
        BinType::Guillotine => {
            let r = run_bin(gl_step(k, allow_rotate), seq![Rect { x: 0, y: 0, w: bw, h: bh }], shapes);
            (r.1, r.2)
        },
        BinType::BottomLeft => {
            let r = run_bin(bl_step(bw, bh, k, allow_rotate), seq![SkylineSeg { x: 0, y: 0, w: bw }], shapes);
            (r.1, r.2)
        },
        BinType::NFP => (Seq::empty(), shapes),
    }
}

/// The boards that packing `rem` board after board gives with a rectangle
/// packer: it stops when a fresh board takes nothing.
pub open spec fn boards_spec(bt: BinType, rem: Seq<Shape>, bw: i64, bh: i64, k: i64, allow_rotate: bool) -> Seq<Seq<Placement>>
    decreases rem.len(),
{
    if rem.len() == 0 {
        Seq::empty()
    } else {
        let (ps, left) = single_bin_spec(bt, rem, bw, bh, k, allow_rotate);
        if left.len() < rem.len() {
            seq![ps] + boards_spec(bt, left, bw, bh, k, allow_rotate)
        } else {
            Seq::empty()
        }
    }
}

/// Board `i` is what the collision-based packer makes of the shapes
/// `rems[i]`, leaving fewer shapes `rems[i + 1]`.
pub open spec fn nfp_links<F: Fn(&Vec<Placement>, i64, i64, i64, i64) -> bool>(
    collides: F,
    bw: int,
    bh: int,
    k: int,
    allow_rotate: bool,
    boards: Seq<Seq<Placement>>,
    rems: Seq<Seq<Shape>>,
) -> bool {
    forall|i: int|
        #![trigger boards[i]]
        0 <= i < boards.len() ==> nfp_board(collides, bw, bh, k, allow_rotate, rems[i], boards[i], rems[i + 1])
            && rems[i + 1].len() < rems[i].len()
}

/// Packing one more board extends the links.
proof fn lemma_links_push<F: Fn(&Vec<Placement>, i64, i64, i64, i64) -> bool>(
    collides: F,
    bw: int,
    bh: int,
    k: int,
    allow_rotate: bool,
    boards: Seq<Seq<Placement>>,
    rems: Seq<Seq<Shape>>,
    ps: Seq<Placement>,
    left: Seq<Shape>,
)
    requires
        rems.len() == boards.len() + 1,
        nfp_links(collides, bw, bh, k, allow_rotate, boards, rems),
        nfp_board(collides, bw, bh, k, allow_rotate, rems.last(), ps, left),
        left.len() < rems.last().len(),
    ensures
        nfp_links(collides, bw, bh, k, allow_rotate, boards.push(ps), rems.push(left)),
{
    let b2 = boards.push(ps);
    let r2 = rems.push(left);
    assert forall|i: int| #![trigger b2[i]] 0 <= i < b2.len() implies nfp_board(
        collides,
        bw,
        bh,
        k,
        allow_rotate,
        r2[i],
        b2[i],
        r2[i + 1],
    ) && r2[i + 1].len() < r2[i].len() by {
        if i < boards.len() {
            assert(b2[i] == boards[i] && r2[i] == rems[i] && r2[i + 1] == rems[i + 1]);
        } else {
            assert(b2[i] == ps && r2[i] == rems.last() && r2[i + 1] == left);
        }
    }
}

/// `boards` are what packing `fit` board after board with the
/// collision-based packer gives, `rems[i]` being the shapes left before
/// board `i`: each board takes at least one shape, and the packing stops
/// when no shape is left or a fresh board takes none.
pub open spec fn nfp_chain<F: Fn(&Vec<Placement>, i64, i64, i64, i64) -> bool>(
    collides: F,
    bw: int,
    bh: int,
    k: int,
    allow_rotate: bool,
    fit: Seq<Shape>,
    boards: Seq<Seq<Placement>>,
    rems: Seq<Seq<Shape>>,
) -> bool {
    &&& rems.len() == boards.len() + 1
    &&& rems[0] == fit
    &&& nfp_links(collides, bw, bh, k, allow_rotate, boards, rems)
    &&& rems.last().len() == 0 || exists|ps: Seq<Placement>, left: Seq<Shape>|
        #[trigger] nfp_board(collides, bw, bh, k, allow_rotate, rems.last(), ps, left) && ps.len() == 0
}

/// The shapes placed on all the boards, counted with multiplicity.
pub open spec fn all_sources(bs: Seq<Seq<Placement>>) -> Multiset<Shape>
    decreases bs.len(),
{
    if bs.len() == 0 {
        Multiset::empty()
    } else {
        all_sources(bs.drop_last()).add(sources(bs.last()).to_multiset())
    }
}

/// `boards` and `unfit` are what packing `items`, in this order, board after
/// board gives: the shapes that fit on no board are set aside in order,
/// every board holds pieces on the board, no shape is placed twice, and with
/// a rectangle packer the boards are exactly `boards_spec`, each a layout,
/// and every shape is either placed or set aside.
pub open spec fn packed_as(
    bt: BinType,
    items: Seq<Shape>,
    bw: i64,
    bh: i64,
    k: i64,
    allow_rotate: bool,
    boards: Seq<Seq<Placement>>,
    unfit: Seq<Shape>,
) -> bool {
    &&& unfit == not_fittable(items, bw as int, bh as int, allow_rotate)
    &&& forall|i: int| 0 <= i < boards.len() ==> on_board(#[trigger] boards[i], bw as int, bh as int) && boards[i].len() > 0
    &&& all_sources(boards).add(unfit.to_multiset()).subset_of(items.to_multiset())
    &&& bt != BinType::NFP ==> boards == boards_spec(bt, fittable(items, bw as int, bh as int, allow_rotate), bw, bh, k, allow_rotate)
    &&& bt != BinType::NFP ==> forall|i: int| 0 <= i < boards.len() ==> layout_ok(#[trigger] boards[i], bw as int, bh as int)
    &&& bt != BinType::NFP ==> all_sources(boards).add(unfit.to_multiset()) =~= items.to_multiset()
}

/// Packs the shapes, in the given order, onto one `bw x bh` board with the
/// chosen packer; `collides` is the collision test of the no-fit-polygon
/// packer and is not used by the others.
pub fn pack_single_bin<F: Fn(&Vec<Placement>, i64, i64, i64, i64) -> bool>(
    bin_type: BinType,
    shapes: &[Shape],
    bw: i64,
    bh: i64,
    kerf: i64,
    allow_rotate: bool,
    collides: &F,
) -> (res: (Board, Vec<Shape>))
    requires
        pos_len_ok(bw as int),
        pos_len_ok(bh as int),
        len_ok(kerf as int),
        all_valid(shapes@),
        test_callable(*collides),
    ensures
        bin_type != BinType::NFP ==> (res.0.placements@, res.1@) == single_bin_spec(
            bin_type,
            shapes@,
            bw,
            bh,
            kerf,
            allow_rotate,
        ),
        bin_type != BinType::NFP || test_sound(*collides, bw as int, bh as int) ==> layout_ok(
            res.0.placements@,
            bw as int,
            bh as int,
        ),
        on_board(res.0.placements@, bw as int, bh as int),
        sources(res.0.placements@).to_multiset().add(res.1@.to_multiset()) =~= shapes@.to_multiset(),
        bin_type == BinType::NFP ==> nfp_board(
            *collides,
            bw as int,
            bh as int,
            kerf as int,
            allow_rotate,
            shapes@,
            res.0.placements@,
            res.1@,
        ),
{
    match bin_type {
        BinType::MaxRects => pack_maxrects(shapes, bw, bh, kerf, allow_rotate),
        BinType::Guillotine => pack_guillotine(shapes, bw, bh, kerf, allow_rotate),
        BinType::BottomLeft => pack_bottom_left(shapes, bw, bh, kerf, allow_rotate),
        BinType::NFP => pack_nfp(shapes, bw, bh, kerf, allow_rotate, collides),
    }
}

/// A rectangle packer puts a shape that fits on an empty board onto it.
proof fn lemma_first_fits(bt: BinType, s: Shape, bw: i64, bh: i64, k: i64, allow_rotate: bool)
    requires
        bt != BinType::NFP,
        s.valid(),
        pos_len_ok(bw as int),
        pos_len_ok(bh as int),
        len_ok(k as int),
        fits_board(s, bw as int, bh as int, allow_rotate),
    ensures
        match bt {
            BinType::MaxRects => mr_step(k, allow_rotate)(seq![Rect { x: 0, y: 0, w: bw, h: bh }], s).1 is Some,
            BinType::Guillotine => gl_step(k, allow_rotate)(seq![Rect { x: 0, y: 0, w: bw, h: bh }], s).1 is Some,
            BinType::BottomLeft => bl_step(bw, bh, k, allow_rotate)(seq![SkylineSeg { x: 0, y: 0, w: bw }], s).1 is Some,
            BinType::NFP => true,
        },
{
    let unrot = s.w <= bw && s.h <= bh;
    match bt {
        BinType::MaxRects => {
            let free = seq![Rect { x: 0, y: 0, w: bw, h: bh }];
            let keys = mr_all_keys(free, s, allow_rotate);
            if unrot {
                assert(keys[0] is Some);
            } else {
                assert(tries_rotation(s, allow_rotate));
                assert(keys[1] == mr_keys(free, s.h as int, s.w as int)[0]);
                assert(keys[1] is Some);
            }
            assert(!no_key(keys));
        },
        BinType::Guillotine => {
            let free = seq![Rect { x: 0, y: 0, w: bw, h: bh }];
            let keys = gl_keys(free, s, allow_rotate);
            if unrot {
                assert(keys[0] is Some);
            } else {
                assert(tries_rotation(s, allow_rotate));
                assert(keys[1] is Some);
            }
            assert(!no_key(keys));
        },
        BinType::BottomLeft => {
            let sky = seq![SkylineSeg { x: 0, y: 0, w: bw }];
            let keys = bl_all_keys(sky, bw as int, bh as int, s, allow_rotate);
            assert(sky.drop_last() =~= Seq::<SkylineSeg>::empty());
            assert(sky_max(sky.drop_last(), 0, s.w as int) == 0);
            assert(sky_max(sky.drop_last(), 0, s.h as int) == 0);
            assert(sky.last() == SkylineSeg { x: 0, y: 0, w: bw });
            if unrot {
                assert(sky_max(sky, 0, s.w as int) == 0);
                assert(keys[0] == bl_key(sky, bw as int, bh as int, 0, s.w as int, s.h as int));
                assert(keys[0] is Some);
            } else {
                assert(tries_rotation(s, allow_rotate));
                assert(sky_max(sky, 0, s.h as int) == 0);
                assert(keys[2] == bl_keys(sky, bw as int, bh as int, s.h as int, s.w as int)[0]);
                assert(keys[2] is Some);
            }
            assert(!no_key(keys));
        },
        BinType::NFP => {},
    }
}

/// A rectangle packer keeps every shape it is given (placed or left over),
/// and places at least one when the first shape fits an empty board.
proof fn lemma_single_bin(bt: BinType, rem: Seq<Shape>, bw: i64, bh: i64, k: i64, allow_rotate: bool)
    requires
        bt != BinType::NFP,
        all_valid(rem),
        pos_len_ok(bw as int),
        pos_len_ok(bh as int),
        len_ok(k as int),
    ensures
        ({
            let (ps, left) = single_bin_spec(bt, rem, bw, bh, k, allow_rotate);
            &&& sources(ps).to_multiset().add(left.to_multiset()) =~= rem.to_multiset()
            &&& ps.len() + left.len() == rem.len()
            &&& rem.len() > 0 && fits_board(rem[0], bw as int, bh as int, allow_rotate) ==> left.len() < rem.len()
        }),
{
    let fr = seq![Rect { x: 0, y: 0, w: bw, h: bh }];
    let sk = seq![SkylineSeg { x: 0, y: 0, w: bw }];
    if rem.len() > 0 && fits_board(rem[0], bw as int, bh as int, allow_rotate) {
        assert(rem[0].valid());
        lemma_first_fits(bt, rem[0], bw, bh, k, allow_rotate);
    }
    match bt {
        BinType::MaxRects => {
            lemma_mr_step_places_given_shape(k, allow_rotate);
            lemma_run_bin_conserves(mr_step(k, allow_rotate), fr, rem);
            if rem.len() > 0 && fits_board(rem[0], bw as int, bh as int, allow_rotate) {
                lemma_run_bin_first(mr_step(k, allow_rotate), fr, rem);
            }
        },
        BinType::Guillotine => {
            lemma_gl_step_places_given_shape(k, allow_rotate);
            lemma_run_bin_conserves(gl_step(k, allow_rotate), fr, rem);
            if rem.len() > 0 && fits_board(rem[0], bw as int, bh as int, allow_rotate) {
                lemma_run_bin_first(gl_step(k, allow_rotate), fr, rem);
            }
        },
        BinType::BottomLeft => {
            lemma_bl_step_places_given_shape(bw, bh, k, allow_rotate);
            lemma_run_bin_conserves(bl_step(bw, bh, k, allow_rotate), sk, rem);
            if rem.len() > 0 && fits_board(rem[0], bw as int, bh as int, allow_rotate) {
                lemma_run_bin_first(bl_step(bw, bh, k, allow_rotate), sk, rem);
            }
        },
        BinType::NFP => {},
    }
}

/// The shapes left over by a packer are among the shapes it was given.
proof fn lemma_left_among(ps: Seq<Placement>, left: Seq<Shape>, rem: Seq<Shape>)
    requires
        sources(ps).to_multiset().add(left.to_multiset()) =~= rem.to_multiset(),
    ensures
        forall|i: int| 0 <= i < left.len() ==> rem.contains(#[trigger] left[i]),
{
    assert forall|i: int| 0 <= i < left.len() implies rem.contains(#[trigger] left[i]) by {
        assert(left.contains(left[i]));
        assert(left.to_multiset().count(left[i]) > 0);
        assert(rem.to_multiset().count(left[i]) > 0);
    }
}

/// Packs the shapes onto as many `bw x bh` boards as it takes, in the given
/// order: shapes that fit on no board are set aside, and the rest go board
/// after board until none is left or a fresh board takes nothing.
#[verifier::spinoff_prover]
pub fn pack_ordered<F: Fn(&Vec<Placement>, i64, i64, i64, i64) -> bool>(
    bin_type: BinType,
    items: &[Shape],
    bw: i64,
    bh: i64,
    kerf: i64,
    allow_rotate: bool,
    collides: &F,
) -> (res: PackResult)
    requires
        pos_len_ok(bw as int),
        pos_len_ok(bh as int),
        len_ok(kerf as int),
        all_sized(items@),
        test_callable(*collides),
    ensures
        packed_as(bin_type, items@, bw, bh, kerf, allow_rotate, board_views(res.boards@), res.unfittable@),
        test_sound(*collides, bw as int, bh as int) ==> forall|i: int|
            0 <= i < res.boards@.len() ==> layout_ok(#[trigger] board_views(res.boards@)[i], bw as int, bh as int),
        bin_type == BinType::NFP ==> exists|rems: Seq<Seq<Shape>>|
            #[trigger] nfp_chain(
                *collides,
                bw as int,
                bh as int,
                kerf as int,
                allow_rotate,
                fittable(items@, bw as int, bh as int, allow_rotate),
                board_views(res.boards@),
                rems,
            ),
{
    broadcast use Seq::lemma_filter_push;
    broadcast use vstd::multiset::group_multiset_axioms;
    let ghost fpred = |s: Shape| fits_board(s, bw as int, bh as int, allow_rotate);
    let ghost npred = |s: Shape| !fits_board(s, bw as int, bh as int, allow_rotate);
    let mut fit_v: Vec<Shape> = Vec::new();
    let mut unfit: Vec<Shape> = Vec::new();
    let n = items.len();
    for i in 0..n
        invariant
            n == items@.len(),
            all_sized(items@),
            fit_v@ == items@.take(i as int).filter(fpred),
            unfit@ == items@.take(i as int).filter(npred),
            fit_v@.to_multiset().add(unfit@.to_multiset()) =~= items@.take(i as int).to_multiset(),
            fpred == (|s: Shape| fits_board(s, bw as int, bh as int, allow_rotate)),
            npred == (|s: Shape| !fits_board(s, bw as int, bh as int, allow_rotate)),
    {
        let s = &items[i];
        assert(items@.take(i + 1) =~= items@.take(i as int).push(*s));
        proof {
            items@.take(i as int).lemma_filter_push(*s, fpred);
            items@.take(i as int).lemma_filter_push(*s, npred);
        }
        assert(items@.take(i as int).push(*s).filter(fpred) == if fpred(*s) {
            items@.take(i as int).filter(fpred).push(*s)
        } else {
            items@.take(i as int).filter(fpred)
        });
        assert(items@.take(i as int).push(*s).filter(npred) == if npred(*s) {
            items@.take(i as int).filter(npred).push(*s)
        } else {
            items@.take(i as int).filter(npred)
        });
        if (s.w <= bw && s.h <= bh) || (allow_rotate && s.h <= bw && s.w <= bh) {
            fit_v.push(s.clone());
        } else {
            unfit.push(s.clone());
        }
    }
    assert(items@.take(n as int) =~= items@);
    let ghost fit_all = fit_v@;
    proof {
        assert forall|i: int| 0 <= i < fit_all.len() implies (#[trigger] fit_all[i]).valid() && fits_board(fit_all[i], bw as int, bh as int, allow_rotate) by {
            items@.lemma_filter_pred(fpred, i);
            assert(fpred(fit_all[i]));
            assert(items@.filter(fpred).contains(fit_all[i]));
            items@.lemma_filter_contains_rev(fpred, fit_all[i]);
            let j = choose|j: int| 0 <= j < items@.len() && items@[j] == fit_all[i];
            assert(items@[j].sized());
        }
    }
    let mut boards: Vec<Board> = Vec::new();
    let mut remaining = fit_v;
    let mut stuck = false;
    let ghost mut rems: Seq<Seq<Shape>> = seq![fit_all];
    while !stuck && remaining.len() > 0
        invariant
            pos_len_ok(bw as int),
            pos_len_ok(bh as int),
            len_ok(kerf as int),
            test_callable(*collides),
            forall|i: int| 0 <= i < remaining@.len() ==> (#[trigger] remaining@[i]).valid() && fits_board(
                remaining@[i],
                bw as int,
                bh as int,
                allow_rotate,
            ),
            forall|i: int|
                0 <= i < boards@.len() ==> on_board(#[trigger] board_views(boards@)[i], bw as int, bh as int)
                    && board_views(boards@)[i].len() > 0,
            bin_type != BinType::NFP ==> !stuck,
            bin_type != BinType::NFP ==> board_views(boards@) + boards_spec(bin_type, remaining@, bw, bh, kerf, allow_rotate)
                == boards_spec(bin_type, fit_all, bw, bh, kerf, allow_rotate),
            bin_type != BinType::NFP || test_sound(*collides, bw as int, bh as int) ==> forall|i: int|
                0 <= i < boards@.len() ==> layout_ok(#[trigger] board_views(boards@)[i], bw as int, bh as int),
            all_sources(board_views(boards@)).add(remaining@.to_multiset()) =~= fit_all.to_multiset(),
            rems.len() == boards@.len() + 1,
            rems[0] == fit_all,
            rems.last() == remaining@,
            bin_type == BinType::NFP ==> nfp_links(
                *collides,
                bw as int,
                bh as int,
                kerf as int,
                allow_rotate,
                board_views(boards@),
                rems,
            ),
            bin_type == BinType::NFP && stuck ==> exists|ps: Seq<Placement>, left: Seq<Shape>|
                #[trigger] nfp_board(*collides, bw as int, bh as int, kerf as int, allow_rotate, rems.last(), ps, left)
                    && ps.len() == 0,
        decreases remaining@.len() + if stuck { 0int } else { 1int },
    {
        let (board, leftover) = pack_single_bin(bin_type, remaining.as_slice(), bw, bh, kerf, allow_rotate, collides);
        proof {
            lemma_left_among(board.placements@, leftover@, remaining@);
            assert(sources(board.placements@).len() == board.placements@.len());
            assert(sources(board.placements@).to_multiset().len() + leftover@.to_multiset().len()
                == remaining@.to_multiset().len());
            if bin_type != BinType::NFP {
                lemma_single_bin(bin_type, remaining@, bw, bh, kerf, allow_rotate);
            }
        }
        if leftover.len() == remaining.len() {
            stuck = true;
            proof {
                if bin_type == BinType::NFP {
                    assert(board.placements@.len() == 0);
                    assert(nfp_board(
                        *collides,
                        bw as int,
                        bh as int,
                        kerf as int,
                        allow_rotate,
                        rems.last(),
                        board.placements@,
                        leftover@,
                    ));
                }
            }
        } else {
            let ghost views0 = board_views(boards@);
            let ghost ps = board.placements@;
            let ghost rem0 = remaining@;
            let ghost left0 = leftover@;
            let ghost rems0 = rems;
            boards.push(board);
            remaining = leftover;
            proof {
                rems = rems0.push(left0);
                assert(rems[0] == rems0[0]);
                if bin_type == BinType::NFP {
                    lemma_links_push(*collides, bw as int, bh as int, kerf as int, allow_rotate, views0, rems0, ps, left0);
                }
                assert(board_views(boards@) =~= views0.push(ps));
                assert(views0.push(ps).drop_last() =~= views0);
                assert(all_sources(views0.push(ps)) == all_sources(views0).add(sources(ps).to_multiset()));
                assert(ps.len() > 0);
                assert forall|i: int| 0 <= i < remaining@.len() implies (#[trigger] remaining@[i]).valid() && fits_board(
                    remaining@[i],
                    bw as int,
                    bh as int,
                    allow_rotate,
                ) by {
                    let j = choose|j: int| 0 <= j < rem0.len() && rem0[j] == remaining@[i];
                }
                if bin_type != BinType::NFP {
                    assert(boards_spec(bin_type, rem0, bw, bh, kerf, allow_rotate) == seq![ps] + boards_spec(
                        bin_type,
                        remaining@,
                        bw,
                        bh,
                        kerf,
                        allow_rotate,
                    ));
                    assert(views0.push(ps) + boards_spec(bin_type, remaining@, bw, bh, kerf, allow_rotate) =~= views0
                        + (seq![ps] + boards_spec(bin_type, remaining@, bw, bh, kerf, allow_rotate)));
                }
            }
        }
    }
    proof {
        if bin_type == BinType::NFP {
            assert(nfp_chain(
                *collides,
                bw as int,
                bh as int,
                kerf as int,
                allow_rotate,
                fittable(items@, bw as int, bh as int, allow_rotate),
                board_views(boards@),
                rems,
            ));
        }
        if bin_type != BinType::NFP {
            assert(remaining@.len() == 0);
            assert(board_views(boards@) + Seq::<Seq<Placement>>::empty() =~= board_views(boards@));
            assert(remaining@.to_multiset() =~= Multiset::<Shape>::empty());
        }
        lemma_filter_partition(items@, fpred, npred);
    }
    PackResult { boards, unfittable: unfit }
}

/// A sequence splits into the elements that meet a predicate and those that
/// meet its negation.
proof fn lemma_filter_partition(s: Seq<Shape>, p: spec_fn(Shape) -> bool, q: spec_fn(Shape) -> bool)
    requires
        forall|x: Shape| #[trigger] q(x) == !p(x),
    ensures
        s.filter(p).to_multiset().add(s.filter(q).to_multiset()) =~= s.to_multiset(),
    decreases s.len(),
{
    broadcast use Seq::lemma_filter_push;
    if s.len() > 0 {
        lemma_filter_partition(s.drop_last(), p, q);
        assert(s.drop_last().push(s.last()) =~= s);
    }
}

/// Packs the shapes largest area first (ties in input order) onto as many
/// `bw x bh` boards as it takes.
pub fn pack_sorted<F: Fn(&Vec<Placement>, i64, i64, i64, i64) -> bool>(
    bin_type: BinType,
    items: &[Shape],
    bw: i64,
    bh: i64,
    kerf: i64,
    allow_rotate: bool,
    collides: &F,
) -> (res: PackResult)
    requires
        pos_len_ok(bw as int),
        pos_len_ok(bh as int),
        len_ok(kerf as int),
        all_sized(items@),
        test_callable(*collides),
    ensures
        exists|order: Seq<usize>|
            is_area_order(items@, order) && #[trigger] packed_as(
                bin_type,
                permuted(items@, order),
                bw,
                bh,
                kerf,
                allow_rotate,
                board_views(res.boards@),
                res.unfittable@,
            ),
        all_sources(board_views(res.boards@)).add(res.unfittable@.to_multiset()).subset_of(items@.to_multiset()),
        bin_type != BinType::NFP ==> all_sources(board_views(res.boards@)).add(res.unfittable@.to_multiset())
            =~= items@.to_multiset(),
        test_sound(*collides, bw as int, bh as int) ==> forall|i: int|
            0 <= i < res.boards@.len() ==> layout_ok(#[trigger] board_views(res.boards@)[i], bw as int, bh as int),
        bin_type == BinType::NFP ==> exists|order: Seq<usize>, rems: Seq<Seq<Shape>>|
            is_area_order(items@, order) && #[trigger] nfp_chain(
                *collides,
                bw as int,
                bh as int,
                kerf as int,
                allow_rotate,
                fittable(permuted(items@, order), bw as int, bh as int, allow_rotate),
                board_views(res.boards@),
                rems,
            ),
{
    let sorted = sort_by_area(items);
    let res = pack_ordered(bin_type, sorted.as_slice(), bw, bh, kerf, allow_rotate, collides);
    proof {
        let order = choose|order: Seq<usize>| is_area_order(items@, order) && sorted@ == permuted(items@, order);
        assert(packed_as(bin_type, permuted(items@, order), bw, bh, kerf, allow_rotate, board_views(res.boards@), res.unfittable@));
    }
    res
}

/// Packing the sorted shapes gives what packing the shapes largest first
/// gives: with the rectangle packers, the result of `pack_sorted` is
/// exactly the result of `pack_ordered` on the list that `sort_by_area`
/// makes.
pub proof fn lemma_sorted_is_ordered_on_sorted(
    bt: BinType,
    items: Seq<Shape>,
    sorted: Seq<Shape>,
    bw: i64,
    bh: i64,
    k: i64,
    allow_rotate: bool,
    boards1: Seq<Seq<Placement>>,
    unfit1: Seq<Shape>,
    boards2: Seq<Seq<Placement>>,
    unfit2: Seq<Shape>,
)
    requires
        bt != BinType::NFP,
        exists|order: Seq<usize>| is_area_order(items, order) && sorted == permuted(items, order),
        exists|order: Seq<usize>|
            is_area_order(items, order) && #[trigger] packed_as(
                bt,
                permuted(items, order),
                bw,
                bh,
                k,
                allow_rotate,
                boards1,
                unfit1,
            ),
        packed_as(bt, sorted, bw, bh, k, allow_rotate, boards2, unfit2),
    ensures
        boards1 == boards2,
        unfit1 == unfit2,
{
    let o1 = choose|order: Seq<usize>| is_area_order(items, order) && sorted == permuted(items, order);
    let o2 = choose|order: Seq<usize>|
        is_area_order(items, order) && #[trigger] packed_as(
            bt,
            permuted(items, order),
            bw,
            bh,
            k,
            allow_rotate,
            boards1,
            unfit1,
        );
    lemma_area_order_unique(items, o1, o2);
}

/// A shape is set aside only when it fits the empty board in no allowed
/// orientation: neither as it is, nor turned when turning is allowed. Every
/// shape that fits one way is packed (or, with the collision-based packer,
/// left over without being set aside).
pub proof fn lemma_set_aside_fits_nowhere(
    bt: BinType,
    items: Seq<Shape>,
    bw: i64,
    bh: i64,
    k: i64,
    allow_rotate: bool,
    boards: Seq<Seq<Placement>>,
    unfit: Seq<Shape>,
)
    requires
        packed_as(bt, items, bw, bh, k, allow_rotate, boards, unfit),
    ensures
        forall|i: int|
            0 <= i < unfit.len() ==> !((#[trigger] unfit[i]).w <= bw && unfit[i].h <= bh) && !(allow_rotate
                && unfit[i].h <= bw && unfit[i].w <= bh),
        forall|s: Shape|
            #[trigger] items.contains(s) && ((s.w <= bw && s.h <= bh) || (allow_rotate && s.h <= bw && s.w <= bh))
                ==> !unfit.contains(s),
{
    let pred = |s: Shape| !fits_board(s, bw as int, bh as int, allow_rotate);
    assert(unfit == items.filter(pred));
    assert forall|i: int| 0 <= i < unfit.len() implies !((#[trigger] unfit[i]).w <= bw && unfit[i].h <= bh) && !(
    allow_rotate && unfit[i].h <= bw && unfit[i].w <= bh) by {
        items.lemma_filter_pred(pred, i);
    }
    assert forall|s: Shape|
        #[trigger] items.contains(s) && ((s.w <= bw && s.h <= bh) || (allow_rotate && s.h <= bw && s.w <= bh))
            implies !unfit.contains(s) by {
        if unfit.contains(s) {
            let i = choose|i: int| 0 <= i < unfit.len() && unfit[i] == s;
            items.lemma_filter_pred(pred, i);
        }
    }
}

} // verus!
