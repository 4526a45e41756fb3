//! The cutting walk-through of a packing: one step opening each board, one
//! step per piece placed, and one step finishing each board, each with a
//! snapshot of how many pieces every board shows at that point.

use vstd::prelude::*;
use crate::model::{Board, Placement};
use crate::packing::board_views;
use crate::fitness::total_count;

verus! {

/// The kind of a walk-through step.
#[derive(Clone, Copy, Debug, PartialEq, Eq, Structural)]
pub enum StepType {
    Open,
    Place,
    Done,
}

/// One step of the walk-through.
#[derive(Debug)]
pub struct Step {
    pub step_type: StepType,
    pub board_idx: usize,
    /// `snap[bi]` is how many placements board `bi` shows at this step.
    pub snap: Vec<usize>,
    /// The piece placed at this step: board index, x, y, width, height.
    pub highlight: Option<(usize, i64, i64, i64, i64)>,
}

impl View for Step {
    type V = (StepType, usize, Seq<usize>, Option<(usize, i64, i64, i64, i64)>);

    open spec fn view(&self) -> Self::V {
        (self.step_type, self.board_idx, self.snap@, self.highlight)
    }
}

/// The number of pieces on each board.
pub open spec fn piece_counts(bs: Seq<Seq<Placement>>) -> Seq<usize> {
    bs.map_values(|b: Seq<Placement>| b.len() as usize)
}

/// The snapshot that shows the boards before `bi` complete, `pi` pieces on
/// board `bi` and nothing on the boards after it.
pub open spec fn snap_spec(counts: Seq<usize>, bi: int, pi: usize) -> Seq<usize> {
    Seq::new(counts.len(), |b: int| if b < bi { counts[b] } else if b == bi { pi } else { 0 })
}

/// The steps of board `bi`: opening it, placing each of its pieces in
/// order, and finishing it.
pub open spec fn board_steps(bs: Seq<Seq<Placement>>, bi: int) -> Seq<
    (StepType, usize, Seq<usize>, Option<(usize, i64, i64, i64, i64)>),
> {
    let c = piece_counts(bs);
    seq![(StepType::Open, bi as usize, snap_spec(c, bi, 0), None)] + Seq::new(
        bs[bi].len(),
        |pi: int|
            (
                StepType::Place,
                bi as usize,
                snap_spec(c, bi, (pi + 1) as usize),
                Some((bi as usize, bs[bi][pi].x, bs[bi][pi].y, bs[bi][pi].w, bs[bi][pi].h)),
            ),
    ) + seq![(StepType::Done, bi as usize, snap_spec(c, bi, c[bi]), None)]
}

/// The steps of the first `b` boards.
pub open spec fn steps_upto(bs: Seq<Seq<Placement>>, b: int) -> Seq<
    (StepType, usize, Seq<usize>, Option<(usize, i64, i64, i64, i64)>),
>
    decreases b,
{
    if b <= 0 {
        Seq::empty()
    } else {
        steps_upto(bs, b - 1) + board_steps(bs, b - 1)
    }
}

/// The snapshot of the boards at the given point: the boards before
/// `up_to_bi` complete, `up_to_pi` pieces on board `up_to_bi`, nothing on
/// the boards after it.
pub fn mk_snap(boards: &[Board], up_to_bi: usize, up_to_pi: usize) -> (r: Vec<usize>)
    ensures
        r@ == snap_spec(piece_counts(board_views(boards@)), up_to_bi as int, up_to_pi),
{
    let ghost c = piece_counts(board_views(boards@));
    let mut r: Vec<usize> = Vec::new();
    let n = boards.len();
    for bi in 0..n
        invariant
            n == boards@.len(),
            c == piece_counts(board_views(boards@)),
            r@ == snap_spec(c, up_to_bi as int, up_to_pi).take(bi as int),
    {
        let v = if bi < up_to_bi {
            boards[bi].placements.len()
        } else if bi == up_to_bi {
            up_to_pi
        } else {
            0
        };
        r.push(v);
        assert(r@ =~= snap_spec(c, up_to_bi as int, up_to_pi).take(bi + 1));
    }
    assert(r@ =~= snap_spec(c, up_to_bi as int, up_to_pi));
    r
}

/// The walk-through of a packing: for each board in order, a step opening
/// it, a step for each piece in the order it was placed, and a step
/// finishing it.
pub fn generate_steps(boards: &[Board]) -> (out: Vec<Step>)
    ensures
        out@.map_values(|s: Step| s@) == steps_upto(board_views(boards@), boards@.len() as int),
{
    let ghost bs = board_views(boards@);
    let mut out: Vec<Step> = Vec::new();
    let n = boards.len();
    for bi in 0..n
        invariant
            n == boards@.len(),
            bs == board_views(boards@),
            out@.map_values(|s: Step| s@) == steps_upto(bs, bi as int),
    {
        let board = &boards[bi];
        let ghost before = steps_upto(bs, bi as int);
        let ghost mid = board_steps(bs, bi as int);
        let ghost c = piece_counts(bs);
        assert(board.placements@ == bs[bi as int]);
        let open = Step { step_type: StepType::Open, board_idx: bi, snap: mk_snap(boards, bi, 0), highlight: None };
        let ghost o0 = out@;
        out.push(open);
        assert(out@.map_values(|s: Step| s@) =~= o0.map_values(|s: Step| s@).push(open@));
        let m = board.placements.len();
        for pi in 0..m
            invariant
                n == boards@.len(),
                bi < n,
                bs == board_views(boards@),
                board.placements@ == bs[bi as int],
                m == bs[bi as int].len(),
                before == steps_upto(bs, bi as int),
                mid == board_steps(bs, bi as int),
                out@.map_values(|s: Step| s@) == before + mid.take(pi + 1),
        {
            let p = &board.placements[pi];
            let step = Step {
                step_type: StepType::Place,
                board_idx: bi,
                snap: mk_snap(boards, bi, pi + 1),
                highlight: Some((bi, p.x, p.y, p.w, p.h)),
            };
            let ghost o1 = out@;
            out.push(step);
            assert(out@.map_values(|s: Step| s@) =~= o1.map_values(|s: Step| s@).push(step@));
            assert(mid[pi + 1] == step@);
            assert(before + mid.take(pi + 2) =~= (before + mid.take(pi + 1)).push(step@));
        }
        let done = Step { step_type: StepType::Done, board_idx: bi, snap: mk_snap(boards, bi, m), highlight: None };
        let ghost o2 = out@;
        out.push(done);
        assert(out@.map_values(|s: Step| s@) =~= o2.map_values(|s: Step| s@).push(done@));
        assert(c[bi as int] == m);
        assert(mid[m + 1] == done@);
        assert(mid.len() == m + 2);
        assert(before + mid.take(m + 1) + seq![done@] =~= before + mid);
    }
    out
}

/// Snapshot `a` shows no more pieces on any board than snapshot `b`.
pub open spec fn snap_le(a: Seq<usize>, b: Seq<usize>) -> bool {
    a.len() == b.len() && forall|i: int| 0 <= i < a.len() ==> a[i] <= b[i]
}

/// Every board's piece count fits a `usize`, as it does for boards held in
/// memory.
pub open spec fn counts_fit(bs: Seq<Seq<Placement>>) -> bool {
    forall|i: int| 0 <= i < bs.len() ==> (#[trigger] bs[i]).len() <= usize::MAX
}

/// The snapshots of board `b`'s steps: `0, 1, ..., m` pieces on it, then
/// `m` again when it is finished.
proof fn lemma_board_snaps(bs: Seq<Seq<Placement>>, b: int)
    requires
        0 <= b < bs.len(),
        counts_fit(bs),
    ensures
        board_steps(bs, b).len() == bs[b].len() + 2,
        forall|u: int|
            0 <= u < board_steps(bs, b).len() ==> (#[trigger] board_steps(bs, b)[u]).2 == snap_spec(
                piece_counts(bs),
                b,
                (if u <= bs[b].len() { u } else { bs[b].len() as int }) as usize,
            ),
{
    let c = piece_counts(bs);
    let m = bs[b].len() as int;
    let st = board_steps(bs, b);
    assert(c[b] == m);
    assert forall|u: int| 0 <= u < st.len() implies (#[trigger] st[u]).2 == snap_spec(
        c,
        b,
        (if u <= m { u } else { m }) as usize,
    ) by {
        if u == 0 {
        } else if u <= m {
            assert(st[u] == (
                StepType::Place,
                b as usize,
                snap_spec(c, b, u as usize),
                Some((b as usize, bs[b][u - 1].x, bs[b][u - 1].y, bs[b][u - 1].w, bs[b][u - 1].h)),
            ));
        } else {
            assert(st[u] == (StepType::Done, b as usize, snap_spec(c, b, c[b]), None::<(usize, i64, i64, i64, i64)>));
        }
    }
}

/// Every snapshot of the first `b` boards' steps shows no more than those
/// boards complete and the others empty, and any later one of them shows
/// at least as much as an earlier one.
proof fn lemma_snaps_upto(bs: Seq<Seq<Placement>>, b: int)
    requires
        0 <= b <= bs.len(),
        counts_fit(bs),
    ensures
        forall|t: int|
            0 <= t < steps_upto(bs, b).len() ==> snap_le(
                (#[trigger] steps_upto(bs, b)[t]).2,
                snap_spec(piece_counts(bs), b, 0),
            ),
        forall|s: int, t: int|
            0 <= s <= t < steps_upto(bs, b).len() ==> snap_le(
                (#[trigger] steps_upto(bs, b)[s]).2,
                (#[trigger] steps_upto(bs, b)[t]).2,
            ),
    decreases b,
{
    if b > 0 {
        lemma_snaps_upto(bs, b - 1);
        lemma_board_snaps(bs, b - 1);
        let c = piece_counts(bs);
        let a = steps_upto(bs, b - 1);
        let m = bs[b - 1].len() as int;
        let st = board_steps(bs, b - 1);
        let all = steps_upto(bs, b);
        assert(all == a + st);
        assert(c[b - 1] == m);
        assert forall|t: int| 0 <= t < all.len() implies snap_le((#[trigger] all[t]).2, snap_spec(c, b, 0)) by {
            if t < a.len() {
                assert(all[t] == a[t]);
                assert(snap_le(a[t].2, snap_spec(c, b - 1, 0)));
            } else {
                assert(all[t] == st[t - a.len()]);
            }
        }
        assert forall|s: int, t: int| 0 <= s <= t < all.len() implies snap_le(
            (#[trigger] all[s]).2,
            (#[trigger] all[t]).2,
        ) by {
            if t < a.len() {
                assert(all[s] == a[s] && all[t] == a[t]);
            } else if s < a.len() {
                assert(all[s] == a[s] && all[t] == st[t - a.len()]);
                assert(snap_le(a[s].2, snap_spec(c, b - 1, 0)));
            } else {
                assert(all[s] == st[s - a.len()] && all[t] == st[t - a.len()]);
            }
        }
    }
}

/// The walk-through never takes a piece away: a later step shows at least
/// as many pieces on every board as an earlier one.
pub proof fn lemma_snapshots_grow(bs: Seq<Seq<Placement>>, s: int, t: int)
    requires
        counts_fit(bs),
        0 <= s <= t < steps_upto(bs, bs.len() as int).len(),
    ensures
        snap_le(steps_upto(bs, bs.len() as int)[s].2, steps_upto(bs, bs.len() as int)[t].2),
{
    lemma_snaps_upto(bs, bs.len() as int);
}

/// The walk-through has one step per piece and two per board.
pub proof fn lemma_step_count(bs: Seq<Seq<Placement>>, b: int)
    requires
        0 <= b <= bs.len(),
    ensures
        steps_upto(bs, b).len() == total_count(bs.take(b)) + 2 * b,
    decreases b,
{
    if b > 0 {
        lemma_step_count(bs, b - 1);
        assert(bs.take(b).drop_last() =~= bs.take(b - 1));
    }
}

/// The walk-through starts showing every board empty and ends showing
/// every piece of every board.
pub proof fn lemma_walk_ends(bs: Seq<Seq<Placement>>)
    requires
        counts_fit(bs),
        bs.len() > 0,
    ensures
        steps_upto(bs, bs.len() as int)[0].2 == Seq::new(bs.len(), |i: int| 0usize),
        steps_upto(bs, bs.len() as int).last().2 == piece_counts(bs),
{
    let n = bs.len() as int;
    let c = piece_counts(bs);
    lemma_step_count(bs, n);
    lemma_board_snaps(bs, n - 1);
    lemma_board_snaps(bs, 0);
    lemma_first_step(bs, n);
    let all = steps_upto(bs, n);
    let st = board_steps(bs, n - 1);
    assert(all == steps_upto(bs, n - 1) + st);
    assert(all.last() == st.last());
    assert(st.last().2 =~= c);
    assert(all[0].2 =~= Seq::new(bs.len(), |i: int| 0usize));
}

/// The first step of a walk-through over at least one board is the
/// opening of the first board.
proof fn lemma_first_step(bs: Seq<Seq<Placement>>, b: int)
    requires
        1 <= b <= bs.len(),
    ensures
        steps_upto(bs, b)[0] == board_steps(bs, 0)[0],
    decreases b,
{
    if b > 1 {
        lemma_first_step(bs, b - 1);
        assert(steps_upto(bs, b) == steps_upto(bs, b - 1) + board_steps(bs, b - 1));
        assert(steps_upto(bs, b - 1).len() > 0) by {
            lemma_step_count(bs, b - 1);
            crate::fitness::lemma_count_nonneg(bs.take(b - 1));
        }
    } else {
        assert(steps_upto(bs, 0).len() == 0);
        assert(steps_upto(bs, 1) =~= steps_upto(bs, 0) + board_steps(bs, 0));
        assert(steps_upto(bs, 1) =~= board_steps(bs, 0));
    }
}

/// The step before step `cur` of a walkthrough, staying at the first.
pub fn step_back(cur: usize) -> (r: usize)
    ensures
        r == if cur > 0 {
            cur - 1
        } else {
            0int
        },
{
    if cur > 0 {
        cur - 1
    } else {
        0
    }
}

/// The step after step `cur` of a walkthrough of `count` steps, staying at
/// the last.
pub fn step_forward(cur: usize, count: usize) -> (r: usize)
    ensures
        r == if cur + 1 < count {
            cur + 1
        } else {
            cur as int
        },
{
    if cur < count && cur + 1 < count {
        cur + 1
    } else {
        cur
    }
}

/// The last step of a walkthrough of `count` steps.
pub fn last_step(count: usize) -> (r: usize)
    requires
        count > 0,
    ensures
        r == count - 1,
{
    count - 1
}

} // verus!
