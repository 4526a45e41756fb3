//! Simulated annealing over the order in which the shapes are packed: from
//! the largest-first order, random moves are tried; a move that scores no
//! worse is always taken, a worse one when the acceptance rule says so.

use vstd::prelude::*;
use crate::geometry::{pos_len_ok, len_ok};
use crate::model::{Shape, all_sized};
use crate::order::{area_order, is_perm_of_range, is_area_order, permuted};
use crate::packing::{PackResult, BinType, board_views, packed_as};
use crate::fitness::Fitness;
use crate::random::new_rng;
use crate::perm::{neighbour, is_neighbour};
use crate::search::{
    evaluate, search_result, history_ok, progress_callable, fitness_of, no_worse, order_score,
    lemma_history_push, lemma_no_worse_trans, lemma_better_no_worse, lemma_no_worse_total, lemma_packed_scores,
};

verus! {

/// The rule that decides whether a move to a worse score is taken can be
/// asked at any step about any two scores.
pub open spec fn accept_callable<A: Fn(usize, Fitness, Fitness) -> bool>(accept_worse: A) -> bool {
    forall|step: usize, current: Fitness, candidate: Fitness| accept_worse.requires((step, current, candidate))
}

/// The number of entries of the annealer's history after `steps` steps:
/// the start, and one every fiftieth step from the first.
pub open spec fn sa_history_len(steps: int) -> int {
    1 + (steps + 49) / 50
}

/// One annealing step, the `i`-th: from the order `cur`, a neighbouring
/// order `cand` (an exchange of two shapes, or a stretch reversed) is
/// tried; the move to it is taken exactly when `cand` scores no worse, or when it
/// scores worse and `accept_worse` answered `acc` = `true`; `next` is the
/// order after the step. `accept_worse` is asked only about worse moves.
pub open spec fn sa_step<A: Fn(usize, Fitness, Fitness) -> bool>(
    accept_worse: A,
    items: Seq<Shape>,
    bw: i64,
    bh: i64,
    k: i64,
    allow_rotate: bool,
    i: int,
    cur: Seq<usize>,
    cand: Seq<usize>,
    acc: bool,
    next: Seq<usize>,
) -> bool {
    let c = order_score(items, cur, bw, bh, k, allow_rotate);
    let d = order_score(items, cand, bw, bh, k, allow_rotate);
    &&& is_perm_of_range(cand, items.len() as int)
    &&& is_neighbour(cur, cand)
    &&& no_worse(d, c) ==> !acc
    &&& !no_worse(d, c) ==> accept_worse.ensures((i as usize, c, d), acc)
    &&& next == if no_worse(d, c) || acc {
        cand
    } else {
        cur
    }
}

/// The walk of the annealer: `curs[i]` is the order before step `i`,
/// `cands[i]` the move tried at that step, `accs[i]` what the acceptance
/// rule answered.
pub open spec fn sa_walk<A: Fn(usize, Fitness, Fitness) -> bool>(
    accept_worse: A,
    items: Seq<Shape>,
    bw: i64,
    bh: i64,
    k: i64,
    allow_rotate: bool,
    curs: Seq<Seq<usize>>,
    cands: Seq<Seq<usize>>,
    accs: Seq<bool>,
) -> bool {
    &&& curs.len() == cands.len() + 1
    &&& accs.len() == cands.len()
    &&& forall|i: int|
        0 <= i < cands.len() ==> sa_step(
            accept_worse,
            items,
            bw,
            bh,
            k,
            allow_rotate,
            i,
            curs[i],
            #[trigger] cands[i],
            accs[i],
            curs[i + 1],
        )
}

/// `best` scores no worse than each of the orders `curs[0]` to
/// `curs[upto]`.
pub open spec fn no_worse_than_visited(
    items: Seq<Shape>,
    bw: i64,
    bh: i64,
    k: i64,
    allow_rotate: bool,
    curs: Seq<Seq<usize>>,
    upto: int,
    best: Fitness,
) -> bool {
    forall|j: int| 0 <= j <= upto && j < curs.len() ==> no_worse(best, #[trigger] order_score(items, curs[j], bw, bh, k, allow_rotate))
}

/// The last order visited when the `h`-th entry of the history is taken:
/// the start for the first, the order after step `50 (h - 1)` for the
/// others.
pub open spec fn sa_mark(h: int) -> int {
    if h == 0 {
        0
    } else {
        50 * (h - 1) + 1
    }
}

/// Simulated annealing for `max_steps` steps from the largest-first order.
/// Each step makes a random move (with chance 7 in 10 an exchange of two
/// shapes, else the reversal of a stretch) and packs the new order; the
/// move is taken when it scores no worse, or when
/// `accept_worse(step, current, candidate)` says so. Every fiftieth step,
/// starting with the first, `progress` gets the step, the number of steps,
/// the best score and the history, and the best score is added to the
/// history. Returns the best packing found, the history, and the walk:
/// the orders visited, the moves tried and the acceptance rule's answers.
pub fn pack_sa<A: Fn(usize, Fitness, Fitness) -> bool, P: Fn(usize, usize, Fitness, &Vec<Fitness>)>(
    items: &[Shape],
    bw: i64,
    bh: i64,
    kerf: i64,
    allow_rotate: bool,
    accept_worse: &A,
    max_steps: usize,
    progress: &P,
) -> (r: (PackResult, Vec<Fitness>, Ghost<(Seq<Seq<usize>>, Seq<Seq<usize>>, Seq<bool>)>))
    requires
        pos_len_ok(bw as int),
        pos_len_ok(bh as int),
        len_ok(kerf as int),
        all_sized(items@),
        accept_callable(*accept_worse),
        progress_callable(*progress),
    ensures
        items@.len() == 0 ==> r.0.boards@.len() == 0 && r.0.unfittable@.len() == 0 && r.1@.len() == 0,
        items@.len() > 0 ==> search_result(
            items@,
            bw,
            bh,
            kerf,
            allow_rotate,
            board_views(r.0.boards@),
            r.0.unfittable@,
        ),
        items@.len() > 0 ==> history_ok(r.1@, sa_history_len(max_steps as int)),
        items@.len() > 0 ==> no_worse(fitness_of(board_views(r.0.boards@), bw, bh), r.1@.last()),
        items@.len() > 0 ==> exists|order: Seq<usize>|
            is_area_order(items@, order) && r.1@[0] == #[trigger] order_score(items@, order, bw, bh, kerf, allow_rotate),
        items@.len() > 0 ==> sa_walk(*accept_worse, items@, bw, bh, kerf, allow_rotate, r.2@.0, r.2@.1, r.2@.2),
        items@.len() > 0 ==> r.2@.1.len() == max_steps,
        items@.len() > 0 ==> is_area_order(items@, r.2@.0[0]),
        items@.len() > 0 ==> no_worse_than_visited(
            items@,
            bw,
            bh,
            kerf,
            allow_rotate,
            r.2@.0,
            max_steps as int,
            fitness_of(board_views(r.0.boards@), bw, bh),
        ),
        items@.len() > 0 ==> exists|j: int|
            0 <= j <= max_steps && fitness_of(board_views(r.0.boards@), bw, bh) == #[trigger] order_score(
                items@,
                r.2@.0[j],
                bw,
                bh,
                kerf,
                allow_rotate,
            ),
        items@.len() > 0 ==> forall|h: int|
            0 <= h < r.1@.len() ==> no_worse_than_visited(
                items@,
                bw,
                bh,
                kerf,
                allow_rotate,
                r.2@.0,
                sa_mark(h),
                #[trigger] r.1@[h],
            ),
{
    let n = items.len();
    if n == 0 {
        return (
            PackResult { boards: Vec::new(), unfittable: Vec::new() },
            Vec::new(),
            Ghost((Seq::empty(), Seq::empty(), Seq::empty())),
        );
    }
    let mut rng = new_rng();
    let mut perm = area_order(items);
    let ghost area = perm@;
    let (mut cur_res, mut cur_fit) = evaluate(items, &perm, bw, bh, kerf, allow_rotate);
    let mut best_fit = cur_fit;
    let mut best_res = cur_res.clone();
    let ghost mut best_order = perm@;
    let mut history: Vec<Fitness> = Vec::new();
    history.push(best_fit);
    let ghost mut curs: Seq<Seq<usize>> = seq![perm@];
    let ghost mut cands: Seq<Seq<usize>> = Seq::empty();
    let ghost mut accs: Seq<bool> = Seq::empty();
    let ghost mut best_at: int = 0;
    proof {
        lemma_no_worse_total(best_fit, best_fit);
    }
    for i in 0..max_steps
        invariant
            n == items@.len(),
            n > 0,
            pos_len_ok(bw as int),
            pos_len_ok(bh as int),
            len_ok(kerf as int),
            all_sized(items@),
            accept_callable(*accept_worse),
            progress_callable(*progress),
            is_area_order(items@, area),
            is_perm_of_range(perm@, n as int),
            cur_fit.valid(),
            cur_fit == fitness_of(board_views(cur_res.boards@), bw, bh),
            best_fit == fitness_of(board_views(best_res.boards@), bw, bh),
            best_fit.valid(),
            is_perm_of_range(best_order, n as int),
            packed_as(
                BinType::MaxRects,
                permuted(items@, best_order),
                bw,
                bh,
                kerf,
                allow_rotate,
                board_views(best_res.boards@),
                best_res.unfittable@,
            ),
            history_ok(history@, sa_history_len(i as int)),
            no_worse(best_fit, history@.last()),
            history@[0] == order_score(items@, area, bw, bh, kerf, allow_rotate),
            sa_walk(*accept_worse, items@, bw, bh, kerf, allow_rotate, curs, cands, accs),
            cands.len() == i,
            curs[0] == area,
            curs.last() == perm@,
            cur_fit == order_score(items@, perm@, bw, bh, kerf, allow_rotate),
            no_worse_than_visited(items@, bw, bh, kerf, allow_rotate, curs, i as int, best_fit),
            0 <= best_at <= i,
            best_fit == order_score(items@, curs[best_at], bw, bh, kerf, allow_rotate),
            forall|j: int| 0 <= j <= i ==> (#[trigger] order_score(items@, curs[j], bw, bh, kerf, allow_rotate)).valid(),
            forall|h: int|
                0 <= h < history@.len() ==> sa_mark(h) <= i && no_worse_than_visited(
                    items@,
                    bw,
                    bh,
                    kerf,
                    allow_rotate,
                    curs,
                    sa_mark(h),
                    #[trigger] history@[h],
                ),
    {
        if i % 50 == 0 {
            progress(i, max_steps, best_fit, &history);
        }
        let cand = neighbour(&mut rng, &perm);
        let (cand_res, cand_fit) = evaluate(items, &cand, bw, bh, kerf, allow_rotate);
        let ghost last = history@.last();
        let ghost c0 = curs;
        let ghost old_best = best_fit;
        let no_worse_move = !cur_fit.lt(&cand_fit);
        let accepted = if no_worse_move {
            false
        } else {
            accept_worse(i, cur_fit, cand_fit)
        };
        if no_worse_move || accepted {
            perm = cand;
            cur_res = cand_res;
            cur_fit = cand_fit;
            if cur_fit.lt(&best_fit) {
                let ghost old_best = best_fit;
                best_fit = cur_fit;
                best_res = cur_res.clone();
                proof {
                    best_order = perm@;
                    lemma_better_no_worse(best_fit, old_best);
                    lemma_no_worse_trans(best_fit, old_best, last);
                }
            }
        }
        proof {
            cands = cands.push(cand@);
            accs = accs.push(accepted);
            curs = curs.push(perm@);
            assert(curs[i as int] == c0[i as int]);
            assert(sa_step(*accept_worse, items@, bw, bh, kerf, allow_rotate, i as int, curs[i as int], cands[i as int], accs[i as int], curs[i + 1]));
            assert forall|j: int| 0 <= j < cands.len() implies sa_step(
                *accept_worse,
                items@,
                bw,
                bh,
                kerf,
                allow_rotate,
                j,
                curs[j],
                #[trigger] cands[j],
                accs[j],
                curs[j + 1],
            ) by {
                if j < i {
                    assert(curs[j] == c0[j] && curs[j + 1] == c0[j + 1]);
                }
            }
            if best_fit != old_best {
                best_at = i + 1;
            } else {
                assert(curs[best_at] == c0[best_at]);
            }
            assert forall|j: int| 0 <= j <= i + 1 implies (#[trigger] order_score(items@, curs[j], bw, bh, kerf, allow_rotate)).valid() by {
                if j <= i {
                    assert(curs[j] == c0[j]);
                }
            }
            assert forall|j: int| 0 <= j <= i + 1 && j < curs.len() implies no_worse(
                best_fit,
                #[trigger] order_score(items@, curs[j], bw, bh, kerf, allow_rotate),
            ) by {
                let sc = order_score(items@, curs[j], bw, bh, kerf, allow_rotate);
                if j <= i {
                    assert(curs[j] == c0[j]);
                    assert(no_worse(old_best, sc));
                    if best_fit != old_best {
                        lemma_better_no_worse(best_fit, old_best);
                        lemma_no_worse_trans(best_fit, old_best, sc);
                    }
                } else {
                    assert(curs[j] == perm@);
                    if best_fit == old_best {
                        assert(!cur_fit.better(&old_best));
                    }
                }
            }
            assert forall|h: int| 0 <= h < history@.len() implies sa_mark(h) <= i + 1 && no_worse_than_visited(
                items@,
                bw,
                bh,
                kerf,
                allow_rotate,
                curs,
                sa_mark(h),
                #[trigger] history@[h],
            ) by {
                assert(no_worse_than_visited(items@, bw, bh, kerf, allow_rotate, c0, sa_mark(h), history@[h]));
                assert forall|j: int| 0 <= j <= sa_mark(h) && j < curs.len() implies no_worse(
                    history@[h],
                    #[trigger] order_score(items@, curs[j], bw, bh, kerf, allow_rotate),
                ) by {
                    assert(curs[j] == c0[j]);
                }
            }
        }
        if i % 50 == 0 {
            let ghost h0 = history@;
            history.push(best_fit);
            proof {
                lemma_history_push(h0, best_fit);
                lemma_no_worse_total(best_fit, best_fit);
                assert(history@[0] == h0[0]);
                assert(sa_mark(h0.len() as int) == i + 1);
                assert forall|h: int| 0 <= h < history@.len() implies sa_mark(h) <= i + 1 && no_worse_than_visited(
                    items@,
                    bw,
                    bh,
                    kerf,
                    allow_rotate,
                    curs,
                    sa_mark(h),
                    #[trigger] history@[h],
                ) by {
                    if h < h0.len() {
                        assert(history@[h] == h0[h]);
                    }
                }
                assert((i + 1 + 49) / 50 == (i + 49) / 50 + 1);
            }
        } else {
            assert((i + 1 + 49) / 50 == (i + 49) / 50);
        }
    }
    proof {
        lemma_packed_scores(items@, best_order, bw, bh, kerf, allow_rotate, board_views(best_res.boards@), best_res.unfittable@);
        let h = history@;
        assert(no_worse(h[h.len() - 1], h[0]));
        lemma_no_worse_trans(best_fit, h[h.len() - 1], h[0]);
    }
    assert(best_fit == order_score(items@, curs[best_at], bw, bh, kerf, allow_rotate));
    (best_res, history, Ghost((curs, cands, accs)))
}

} // verus!
