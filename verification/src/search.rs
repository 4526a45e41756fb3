//! What the search packers share: packing the shapes in a given order with
//! the MaxRects packer and scoring the result, ranking a population of
//! orders by score, and comparing scores.

use vstd::prelude::*;
use vstd::multiset::Multiset;
use crate::geometry::{pos_len_ok, len_ok};
use crate::model::{Shape, Placement, sources, all_valid, all_sized};
use crate::order::{is_perm_of_range, permuted, lemma_permuted_multiset, is_area_order, lemma_area_order_unique};
use crate::packing::{BinType, PackResult, pack_ordered, packed_as, board_views, all_sources, boards_spec, fittable};
use crate::fitness::{Fitness, fitness, total_area, total_count};

verus! {

/// The score of a packing onto `bw x bh` boards.
pub open spec fn fitness_of(bs: Seq<Seq<Placement>>, bw: i64, bh: i64) -> Fitness {
    Fitness { boards: bs.len() as usize, used: total_area(bs) as u128, board_area: (bw * bh) as u128 }
}

/// `x` scores no worse (no higher) than `y`.
pub open spec fn no_worse(x: Fitness, y: Fitness) -> bool {
    !y.better(&x)
}

/// The score that packing the shapes in the order `order`, board after
/// board with the MaxRects packer, gets.
pub open spec fn order_score(
    items: Seq<Shape>,
    order: Seq<usize>,
    bw: i64,
    bh: i64,
    k: i64,
    allow_rotate: bool,
) -> Fitness {
    fitness_of(
        boards_spec(BinType::MaxRects, fittable(permuted(items, order), bw as int, bh as int, allow_rotate), bw, bh, k, allow_rotate),
        bw,
        bh,
    )
}

/// A strictly better score is no worse.
pub proof fn lemma_better_no_worse(x: Fitness, y: Fitness)
    requires
        x.valid(),
        y.valid(),
        x.better(&y),
    ensures
        no_worse(x, y),
{
}

/// Any two valid scores compare one way or the other.
pub proof fn lemma_no_worse_total(x: Fitness, y: Fitness)
    ensures
        no_worse(x, y) || no_worse(y, x),
{
}

/// Scoring no worse is transitive.
pub proof fn lemma_no_worse_trans(x: Fitness, y: Fitness, z: Fitness)
    requires
        x.valid(),
        y.valid(),
        z.valid(),
        no_worse(x, y),
        no_worse(y, z),
    ensures
        no_worse(x, z),
{
    let (a, b) = x.frac();
    let (c, d) = y.frac();
    let (e, f) = z.frac();
    lemma_frac_den(x);
    lemma_frac_den(y);
    lemma_frac_den(z);
    assert(a * d <= c * b);
    assert(c * f <= e * d);
    assert(a * f <= e * b) by (nonlinear_arith)
        requires
            a * d <= c * b,
            c * f <= e * d,
            b > 0,
            d > 0,
            f > 0,
    {
        assert(a * d * f <= c * b * f);
        assert(c * f * b <= e * d * b);
        assert(d * (a * f) <= d * (e * b));
    }
}

/// A strictly better score stays strictly better than anything the
/// other scores no worse than.
pub proof fn lemma_better_trans(x: Fitness, y: Fitness, z: Fitness)
    requires
        x.valid(),
        y.valid(),
        z.valid(),
        x.better(&y),
        no_worse(y, z),
    ensures
        x.better(&z),
{
    let (a, b) = x.frac();
    let (c, d) = y.frac();
    let (e, f) = z.frac();
    lemma_frac_den(x);
    lemma_frac_den(y);
    lemma_frac_den(z);
    assert(a * d < c * b);
    assert(c * f <= e * d);
    assert(a * f < e * b) by (nonlinear_arith)
        requires
            a * d < c * b,
            c * f <= e * d,
            b > 0,
            d > 0,
            f > 0,
    {
        assert(a * d * f < c * b * f);
        assert(c * f * b <= e * d * b);
        assert(d * (a * f) < d * (e * b));
    }
}

/// The denominator of a valid score is positive.
proof fn lemma_frac_den(x: Fitness)
    requires
        x.valid(),
    ensures
        x.frac().1 > 0,
{
    if x.boards > 0 {
        assert(x.boards * x.board_area > 0) by (nonlinear_arith)
            requires
                x.boards > 0,
                x.board_area > 0,
        ;
    }
}

/// The number of pieces on the boards is the number of shapes placed on
/// them.
proof fn lemma_count_sources(bs: Seq<Seq<Placement>>)
    ensures
        total_count(bs) == all_sources(bs).len(),
    decreases bs.len(),
{
    broadcast use vstd::seq_lib::group_to_multiset_ensures;
    if bs.len() > 0 {
        lemma_count_sources(bs.drop_last());
        assert(sources(bs.last()).len() == bs.last().len());
        assert(sources(bs.last()).to_multiset().len() == sources(bs.last()).len());
    }
}

/// Every order of the shapes, packed with the MaxRects packer, scores a
/// valid score.
pub proof fn lemma_packed_scores(
    items: Seq<Shape>,
    order: Seq<usize>,
    bw: i64,
    bh: i64,
    k: i64,
    allow_rotate: bool,
    boards: Seq<Seq<Placement>>,
    unfit: Seq<Shape>,
)
    requires
        is_perm_of_range(order, items.len() as int),
        packed_as(BinType::MaxRects, permuted(items, order), bw, bh, k, allow_rotate, boards, unfit),
    ensures
        all_sources(boards).add(unfit.to_multiset()) =~= items.to_multiset(),
        total_count(boards) <= items.len(),
{
    broadcast use vstd::seq_lib::group_to_multiset_ensures;
    lemma_permuted_multiset(items, order);
    lemma_count_sources(boards);
    assert(items.to_multiset().len() == items.len());
}

/// Packs the shapes in the order `order`, board after board, with the
/// MaxRects packer, and scores the result.
pub fn evaluate(
    items: &[Shape],
    order: &Vec<usize>,
    bw: i64,
    bh: i64,
    kerf: i64,
    allow_rotate: bool,
) -> (r: (PackResult, Fitness))
    requires
        pos_len_ok(bw as int),
        pos_len_ok(bh as int),
        len_ok(kerf as int),
        all_sized(items@),
        is_perm_of_range(order@, items@.len() as int),
    ensures
        packed_as(BinType::MaxRects, permuted(items@, order@), bw, bh, kerf, allow_rotate, board_views(r.0.boards@), r.0.unfittable@),
        r.1 == fitness_of(board_views(r.0.boards@), bw, bh),
        r.1 == order_score(items@, order@, bw, bh, kerf, allow_rotate),
        r.1.valid(),
        all_sources(board_views(r.0.boards@)).add(r.0.unfittable@.to_multiset()) =~= items@.to_multiset(),
{
    let mut ordered: Vec<Shape> = Vec::new();
    let n = order.len();
    for i in 0..n
        invariant
            n == order@.len(),
            is_perm_of_range(order@, items@.len() as int),
            ordered@ == permuted(items@, order@.take(i as int)),
    {
        ordered.push(items[order[i]].clone());
        assert(permuted(items@, order@.take(i + 1)) =~= permuted(items@, order@.take(i as int)).push(
            items@[order@[i as int] as int],
        ));
    }
    assert(order@.take(n as int) =~= order@);
    assert(all_sized(ordered@)) by {
        assert forall|i: int| 0 <= i < ordered@.len() implies (#[trigger] ordered@[i]).sized() by {
            assert(ordered@[i] == items@[order@[i] as int]);
        }
    }
    let no_collision = |ps: &Vec<Placement>, x: i64, y: i64, w: i64, h: i64| -> bool { false };
    let res = pack_ordered(BinType::MaxRects, ordered.as_slice(), bw, bh, kerf, allow_rotate, &no_collision);
    let ghost views = board_views(res.boards@);
    proof {
        lemma_packed_scores(items@, order@, bw, bh, kerf, allow_rotate, views, res.unfittable@);
        assert forall|i: int, j: int| 0 <= i < views.len() && 0 <= j < views[i].len() implies len_ok(
            (#[trigger] views[i][j]).w as int,
        ) && len_ok(views[i][j].h as int) by {
            assert(crate::nfp_greedy::on_board(views[i], bw as int, bh as int));
        }
    }
    let f = fitness(res.boards.as_slice(), bw, bh);
    (res, f)
}

/// `rank` lists the population's indices best score first, each once;
/// indices of equal scores keep their order.
pub open spec fn ranked(fits: Seq<Fitness>, rank: Seq<usize>) -> bool {
    &&& is_perm_of_range(rank, fits.len() as int)
    &&& forall|a: int, b: int|
        0 <= a < b < rank.len() ==> no_worse(fits[#[trigger] rank[a] as int], fits[#[trigger] rank[b] as int])
    &&& forall|a: int, b: int|
        0 <= a < b < rank.len() && no_worse(fits[#[trigger] rank[b] as int], fits[#[trigger] rank[a] as int])
            ==> rank[a] < rank[b]
}

/// Every score of the sequence is valid.
pub open spec fn all_scores_valid(fits: Seq<Fitness>) -> bool {
    forall|i: int| 0 <= i < fits.len() ==> (#[trigger] fits[i]).valid()
}

/// The indices of the scores, best first; equal scores keep their order.
pub fn rank_by_fitness(fits: &Vec<Fitness>) -> (rank: Vec<usize>)
    requires
        all_scores_valid(fits@),
    ensures
        ranked(fits@, rank@),
{
    let m = fits.len();
    let mut v: Vec<usize> = Vec::new();
    for i in 0..m
        invariant
            m == fits@.len(),
            all_scores_valid(fits@),
            v@.len() == i,
            forall|a: int| 0 <= a < v@.len() ==> (#[trigger] v@[a]) < i,
            forall|a: int, b: int| 0 <= a < v@.len() && 0 <= b < v@.len() && a != b ==> v@[a] != v@[b],
            forall|a: int, b: int|
                0 <= a < b < v@.len() ==> no_worse(fits@[#[trigger] v@[a] as int], fits@[#[trigger] v@[b] as int]),
            forall|a: int, b: int|
                0 <= a < b < v@.len() && no_worse(fits@[#[trigger] v@[b] as int], fits@[#[trigger] v@[a] as int])
                    ==> v@[a] < v@[b],
    {
        let mut p: usize = 0;
        while p < v.len() && !fits[i].lt(&fits[v[p]])
            invariant
                m == fits@.len(),
                0 <= i < m,
                all_scores_valid(fits@),
                0 <= p <= v@.len(),
                v@.len() == i,
                forall|a: int| 0 <= a < v@.len() ==> (#[trigger] v@[a]) < i,
                forall|q: int| 0 <= q < p ==> no_worse(fits@[#[trigger] v@[q] as int], fits@[i as int]),
            decreases v@.len() - p,
        {
            p = p + 1;
        }
        let ghost old_v = v@;
        v.insert(p, i);
        proof {
            assert forall|a: int| 0 <= a < v@.len() implies #[trigger] v@[a] == if a < p {
                old_v[a]
            } else if a == p {
                i
            } else {
                old_v[a - 1]
            } by {}
            if p < old_v.len() {
                lemma_better_no_worse(fits@[i as int], fits@[old_v[p as int] as int]);
            }
            assert forall|a: int, b: int|
                0 <= a < b < v@.len() implies no_worse(fits@[#[trigger] v@[a] as int], fits@[#[trigger] v@[b] as int]) by {
                if b < p {
                    assert(no_worse(fits@[old_v[a] as int], fits@[old_v[b] as int]));
                } else if b == p {
                } else if a < p {
                    assert(no_worse(fits@[old_v[a] as int], fits@[old_v[b - 1] as int]));
                } else if a == p {
                    if p < b - 1 {
                        assert(no_worse(fits@[old_v[p as int] as int], fits@[old_v[b - 1] as int]));
                        lemma_no_worse_trans(fits@[i as int], fits@[old_v[p as int] as int], fits@[old_v[b - 1] as int]);
                    }
                } else {
                    assert(no_worse(fits@[old_v[a - 1] as int], fits@[old_v[b - 1] as int]));
                }
            }
            assert forall|a: int, b: int|
                0 <= a < b < v@.len() && no_worse(fits@[#[trigger] v@[b] as int], fits@[#[trigger] v@[a] as int])
                    implies v@[a] < v@[b] by {
                if b < p {
                    assert(v@[a] == old_v[a] && v@[b] == old_v[b]);
                } else if b == p {
                    assert(v@[a] == old_v[a]);
                } else if a < p {
                    assert(v@[a] == old_v[a] && v@[b] == old_v[b - 1]);
                } else if a == p {
                    let w = fits@[old_v[b - 1] as int];
                    if p < b - 1 {
                        assert(no_worse(fits@[old_v[p as int] as int], w));
                        lemma_better_trans(fits@[i as int], fits@[old_v[p as int] as int], w);
                    } else {
                        assert(fits@[i as int].better(&w));
                    }
                } else {
                    assert(v@[a] == old_v[a - 1] && v@[b] == old_v[b - 1]);
                }
            }
        }
    }
    v
}

/// The first of a ranking scores no worse than any member.
pub proof fn lemma_ranked_first(fits: Seq<Fitness>, rank: Seq<usize>, j: int)
    requires
        ranked(fits, rank),
        0 <= j < fits.len(),
    ensures
        no_worse(fits[rank[0] as int], fits[j]),
{
    crate::order::lemma_perm_covers(rank, fits.len() as int, j);
    let a = choose|a: int| 0 <= a < rank.len() && rank[a] == j;
    if a == 0 {
        assert(no_worse(fits[j], fits[j]));
    } else {
        assert(no_worse(fits[rank[0] as int], fits[rank[a] as int]));
    }
}

/// `fits[i]` is the score of `results[i]`, which packs the shapes in the
/// order `perms[i]`.
pub open spec fn population_ok(
    items: Seq<Shape>,
    perms: Seq<Vec<usize>>,
    results: Seq<PackResult>,
    fits: Seq<Fitness>,
    bw: i64,
    bh: i64,
    k: i64,
    allow_rotate: bool,
) -> bool {
    &&& results.len() == perms.len()
    &&& fits.len() == perms.len()
    &&& forall|i: int|
        0 <= i < perms.len() ==> {
            &&& is_perm_of_range((#[trigger] perms[i])@, items.len() as int)
            &&& packed_as(
                BinType::MaxRects,
                permuted(items, perms[i]@),
                bw,
                bh,
                k,
                allow_rotate,
                board_views(results[i].boards@),
                results[i].unfittable@,
            )
            &&& fits[i] == fitness_of(board_views(results[i].boards@), bw, bh)
            &&& fits[i] == order_score(items, perms[i]@, bw, bh, k, allow_rotate)
            &&& fits[i].valid()
        }
}

/// Packs and scores every order of a population.
pub fn evaluate_all(
    items: &[Shape],
    perms: &Vec<Vec<usize>>,
    bw: i64,
    bh: i64,
    kerf: i64,
    allow_rotate: bool,
) -> (r: (Vec<PackResult>, Vec<Fitness>))
    requires
        pos_len_ok(bw as int),
        pos_len_ok(bh as int),
        len_ok(kerf as int),
        all_sized(items@),
        forall|i: int| 0 <= i < perms@.len() ==> is_perm_of_range((#[trigger] perms@[i])@, items@.len() as int),
    ensures
        population_ok(items@, perms@, r.0@, r.1@, bw, bh, kerf, allow_rotate),
        all_scores_valid(r.1@),
{
    let mut results: Vec<PackResult> = Vec::new();
    let mut fits: Vec<Fitness> = Vec::new();
    let m = perms.len();
    for i in 0..m
        invariant
            m == perms@.len(),
            pos_len_ok(bw as int),
            pos_len_ok(bh as int),
            len_ok(kerf as int),
            all_sized(items@),
            forall|t: int| 0 <= t < perms@.len() ==> is_perm_of_range((#[trigger] perms@[t])@, items@.len() as int),
            population_ok(items@, perms@.take(i as int), results@, fits@, bw, bh, kerf, allow_rotate),
    {
        let (res, f) = evaluate(items, &perms[i], bw, bh, kerf, allow_rotate);
        let ghost r0 = results@;
        let ghost f0 = fits@;
        results.push(res);
        fits.push(f);
        proof {
            let ps = perms@.take(i + 1);
            assert forall|t: int| 0 <= t < ps.len() implies {
                &&& is_perm_of_range((#[trigger] ps[t])@, items@.len() as int)
                &&& packed_as(
                    BinType::MaxRects,
                    permuted(items@, ps[t]@),
                    bw,
                    bh,
                    kerf,
                    allow_rotate,
                    board_views(results@[t].boards@),
                    results@[t].unfittable@,
                )
                &&& fits@[t] == fitness_of(board_views(results@[t].boards@), bw, bh)
                &&& fits@[t] == order_score(items@, ps[t]@, bw, bh, kerf, allow_rotate)
                &&& fits@[t].valid()
            } by {
                if t < i {
                    assert(ps[t] == perms@.take(i as int)[t]);
                    assert(results@[t] == r0[t]);
                    assert(fits@[t] == f0[t]);
                }
            }
        }
    }
    assert(perms@.take(m as int) =~= perms@);
    assert forall|t: int| 0 <= t < fits@.len() implies (#[trigger] fits@[t]).valid() by {
        assert(perms@.take(m as int)[t] == perms@[t]);
    }
    (results, fits)
}

/// What a search packer gives back for the shapes `items`: the boards and
/// set-aside shapes of packing them in some order with the MaxRects
/// packer, scoring no worse than packing them largest first, with every
/// shape either placed or set aside.
pub open spec fn search_result(
    items: Seq<Shape>,
    bw: i64,
    bh: i64,
    k: i64,
    allow_rotate: bool,
    boards: Seq<Seq<Placement>>,
    unfit: Seq<Shape>,
) -> bool {
    &&& exists|order: Seq<usize>|
        is_perm_of_range(order, items.len() as int) && #[trigger] packed_as(
            BinType::MaxRects,
            permuted(items, order),
            bw,
            bh,
            k,
            allow_rotate,
            boards,
            unfit,
        )
    &&& all_sources(boards).add(unfit.to_multiset()) =~= items.to_multiset()
    &&& exists|order: Seq<usize>|
        crate::order::is_area_order(items, order) && no_worse(
            fitness_of(boards, bw, bh),
            #[trigger] order_score(items, order, bw, bh, k, allow_rotate),
        )
}

/// A history of best scores, `len` long, that never gets worse.
pub open spec fn history_ok(hist: Seq<Fitness>, len: int) -> bool {
    &&& hist.len() == len
    &&& all_scores_valid(hist)
    &&& forall|i: int, j: int| 0 <= i <= j < hist.len() ==> no_worse(#[trigger] hist[j], #[trigger] hist[i])
}

/// The callback that a search packer reports its progress to can be called
/// with any step, step count, best score and history.
pub open spec fn progress_callable<P: Fn(usize, usize, Fitness, &Vec<Fitness>)>(progress: P) -> bool {
    forall|step: usize, total: usize, best: Fitness, hist: &Vec<Fitness>| progress.requires((step, total, best, hist))
}

/// Adding a score no worse than the last keeps a history never getting
/// worse.
pub proof fn lemma_history_push(hist: Seq<Fitness>, f: Fitness)
    requires
        hist.len() > 0,
        all_scores_valid(hist),
        forall|i: int, j: int| 0 <= i <= j < hist.len() ==> no_worse(#[trigger] hist[j], #[trigger] hist[i]),
        f.valid(),
        no_worse(f, hist.last()),
    ensures
        all_scores_valid(hist.push(f)),
        forall|i: int, j: int| 0 <= i <= j < hist.push(f).len() ==> no_worse(#[trigger] hist.push(f)[j], #[trigger] hist.push(f)[i]),
{
    let h = hist.push(f);
    assert forall|i: int| 0 <= i < h.len() implies (#[trigger] h[i]).valid() by {
        if i < hist.len() {
            assert(h[i] == hist[i]);
        }
    }
    assert forall|i: int, j: int| 0 <= i <= j < h.len() implies no_worse(#[trigger] h[j], #[trigger] h[i]) by {
        if j < hist.len() {
            assert(h[j] == hist[j] && h[i] == hist[i]);
        } else if i < hist.len() {
            assert(h[i] == hist[i]);
            assert(no_worse(hist[hist.len() - 1], hist[i]));
            lemma_no_worse_trans(f, hist[hist.len() - 1], hist[i]);
        } else {
            assert(no_worse(f, f));
        }
    }
}


/// The orders that a population holds.
pub open spec fn orders_of(perms: Seq<Vec<usize>>) -> Seq<Seq<usize>> {
    Seq::new(perms.len(), |i: int| perms[i]@)
}

/// `best` is the best score among the orders evaluated in the generations
/// `0` to `g` of `evals`: no worse than any of them, and the score of one.
pub open spec fn best_upto(
    items: Seq<Shape>,
    evals: Seq<Seq<Seq<usize>>>,
    g: int,
    best: Fitness,
    bw: i64,
    bh: i64,
    k: i64,
    allow_rotate: bool,
) -> bool {
    &&& forall|h: int, t: int|
        0 <= h <= g && 0 <= t < evals[h].len() ==> no_worse(
            best,
            #[trigger] order_score(items, evals[h][t], bw, bh, k, allow_rotate),
        )
    &&& exists|h: int, t: int|
        0 <= h <= g && 0 <= t < evals[h].len() && best == #[trigger] order_score(
            items,
            evals[h][t],
            bw,
            bh,
            k,
            allow_rotate,
        )
}

/// The search evaluated the orders `evals[g]`, each a permutation of the
/// shapes, in its `g`-th generation, and the `g`-th entry of its history is the best score among all the
/// orders evaluated up to then.
pub open spec fn search_trace(
    items: Seq<Shape>,
    evals: Seq<Seq<Seq<usize>>>,
    hist: Seq<Fitness>,
    bw: i64,
    bh: i64,
    k: i64,
    allow_rotate: bool,
) -> bool {
    &&& evals.len() == hist.len()
    &&& forall|h: int, t: int|
        0 <= h < evals.len() && 0 <= t < evals[h].len() ==> is_perm_of_range(#[trigger] evals[h][t], items.len() as int)
    &&& forall|h: int, t: int|
        0 <= h < evals.len() && 0 <= t < evals[h].len() ==> (#[trigger] order_score(
            items,
            evals[h][t],
            bw,
            bh,
            k,
            allow_rotate,
        )).valid()
    &&& forall|g: int| 0 <= g < hist.len() ==> best_upto(items, evals, g, #[trigger] hist[g], bw, bh, k, allow_rotate)
}

/// What a generation gives the running best: its own best when that is
/// strictly better, else the running best.
pub open spec fn kept_best(last: Fitness, gen_best: Fitness) -> Fitness {
    if gen_best.better(&last) {
        gen_best
    } else {
        last
    }
}

/// Adding a generation whose best is `gen_best` to a search trace, with
/// the running best kept as `kept_best` says, gives a search trace.
pub proof fn lemma_trace_push(
    items: Seq<Shape>,
    evals: Seq<Seq<Seq<usize>>>,
    hist: Seq<Fitness>,
    pop: Seq<Seq<usize>>,
    t0: int,
    bw: i64,
    bh: i64,
    k: i64,
    allow_rotate: bool,
)
    requires
        search_trace(items, evals, hist, bw, bh, k, allow_rotate),
        0 <= t0 < pop.len(),
        forall|t: int| 0 <= t < pop.len() ==> is_perm_of_range(#[trigger] pop[t], items.len() as int),
        forall|t: int| 0 <= t < pop.len() ==> (#[trigger] order_score(items, pop[t], bw, bh, k, allow_rotate)).valid(),
        forall|t: int|
            0 <= t < pop.len() ==> no_worse(
                order_score(items, pop[t0], bw, bh, k, allow_rotate),
                #[trigger] order_score(items, pop[t], bw, bh, k, allow_rotate),
            ),
    ensures
        ({
            let gb = order_score(items, pop[t0], bw, bh, k, allow_rotate);
            let nb = if hist.len() == 0 { gb } else { kept_best(hist.last(), gb) };
            search_trace(items, evals.push(pop), hist.push(nb), bw, bh, k, allow_rotate)
        }),
{
    let gb = order_score(items, pop[t0], bw, bh, k, allow_rotate);
    let nb = if hist.len() == 0 { gb } else { kept_best(hist.last(), gb) };
    let e2 = evals.push(pop);
    let h2 = hist.push(nb);
    let g = hist.len() as int;
    assert forall|h: int, t: int| 0 <= h < e2.len() && 0 <= t < e2[h].len() implies is_perm_of_range(
        #[trigger] e2[h][t],
        items.len() as int,
    ) by {
        if h < g {
            assert(e2[h] == evals[h]);
        }
    }
    assert forall|h: int, t: int| 0 <= h < e2.len() && 0 <= t < e2[h].len() implies (#[trigger] order_score(
        items,
        e2[h][t],
        bw,
        bh,
        k,
        allow_rotate,
    )).valid() by {
        if h < g {
            assert(e2[h] == evals[h]);
        }
    }
    assert forall|j: int| 0 <= j < h2.len() implies best_upto(items, e2, j, #[trigger] h2[j], bw, bh, k, allow_rotate) by {
        if j < g {
            assert(h2[j] == hist[j]);
            assert(best_upto(items, evals, j, hist[j], bw, bh, k, allow_rotate));
            assert forall|h: int, t: int| 0 <= h <= j && 0 <= t < e2[h].len() implies no_worse(
                hist[j],
                #[trigger] order_score(items, e2[h][t], bw, bh, k, allow_rotate),
            ) by {
                assert(e2[h] == evals[h]);
            }
            let (hh, tt) = choose|h: int, t: int|
                0 <= h <= j && 0 <= t < evals[h].len() && hist[j] == #[trigger] order_score(
                    items,
                    evals[h][t],
                    bw,
                    bh,
                    k,
                    allow_rotate,
                );
            assert(e2[hh] == evals[hh]);
            assert(hist[j] == order_score(items, e2[hh][tt], bw, bh, k, allow_rotate));
        } else {
            assert(j == g);
            assert(e2[g] == pop);
            assert(gb.valid());
            assert(no_worse(nb, gb)) by {
                if hist.len() > 0 && !gb.better(&hist.last()) {
                    assert(best_upto(items, evals, g - 1, hist[g - 1], bw, bh, k, allow_rotate));
                }
            }
            assert forall|h: int, t: int| 0 <= h <= j && 0 <= t < e2[h].len() implies no_worse(
                nb,
                #[trigger] order_score(items, e2[h][t], bw, bh, k, allow_rotate),
            ) by {
                let sc = order_score(items, e2[h][t], bw, bh, k, allow_rotate);
                if h == g {
                    assert(e2[h][t] == pop[t]);
                    assert(no_worse(gb, sc));
                    if nb != gb {
                        let (hh, tt) = choose|h: int, t: int|
                            0 <= h <= g - 1 && 0 <= t < evals[h].len() && hist[g - 1] == #[trigger] order_score(
                                items,
                                evals[h][t],
                                bw,
                                bh,
                                k,
                                allow_rotate,
                            );
                        assert(e2[hh] == evals[hh]);
                        assert(nb.valid());
                        lemma_no_worse_trans(nb, gb, sc);
                    }
                } else {
                    assert(e2[h] == evals[h]);
                    assert(best_upto(items, evals, g - 1, hist[g - 1], bw, bh, k, allow_rotate));
                    assert(no_worse(hist.last(), sc));
                    assert(sc.valid());
                    if nb == hist.last() {
                    } else {
                        assert(nb == gb);
                        assert(gb.better(&hist.last()));
                        let (hh, tt) = choose|h: int, t: int|
                            0 <= h <= g - 1 && 0 <= t < evals[h].len() && hist[g - 1] == #[trigger] order_score(
                                items,
                                evals[h][t],
                                bw,
                                bh,
                                k,
                                allow_rotate,
                            );
                        assert(hist.last().valid());
                        lemma_better_no_worse(gb, hist.last());
                        lemma_no_worse_trans(gb, hist.last(), sc);
                    }
                }
            }
            if nb == gb {
                assert(gb == order_score(items, e2[g][t0], bw, bh, k, allow_rotate));
            } else {
                let (hh, tt) = choose|h: int, t: int|
                    0 <= h <= g - 1 && 0 <= t < evals[h].len() && hist[g - 1] == #[trigger] order_score(
                        items,
                        evals[h][t],
                        bw,
                        bh,
                        k,
                        allow_rotate,
                    );
                assert(e2[hh] == evals[hh]);
                assert(nb == order_score(items, e2[hh][tt], bw, bh, k, allow_rotate));
            }
        }
    }
}

/// The first-ranked order of a scored population scores no worse than any
/// of its orders.
pub proof fn lemma_population_best(
    items: Seq<Shape>,
    perms: Seq<Vec<usize>>,
    results: Seq<PackResult>,
    fits: Seq<Fitness>,
    rank: Seq<usize>,
    bw: i64,
    bh: i64,
    k: i64,
    allow_rotate: bool,
)
    requires
        population_ok(items, perms, results, fits, bw, bh, k, allow_rotate),
        ranked(fits, rank),
        perms.len() > 0,
    ensures
        0 <= rank[0] < orders_of(perms).len(),
        forall|t: int| 0 <= t < orders_of(perms).len() ==> is_perm_of_range(#[trigger] orders_of(perms)[t], items.len() as int),
        fits[rank[0] as int] == order_score(items, orders_of(perms)[rank[0] as int], bw, bh, k, allow_rotate),
        forall|t: int|
            0 <= t < orders_of(perms).len() ==> (#[trigger] order_score(
                items,
                orders_of(perms)[t],
                bw,
                bh,
                k,
                allow_rotate,
            )).valid(),
        forall|t: int|
            0 <= t < orders_of(perms).len() ==> no_worse(
                order_score(items, orders_of(perms)[rank[0] as int], bw, bh, k, allow_rotate),
                #[trigger] order_score(items, orders_of(perms)[t], bw, bh, k, allow_rotate),
            ),
{
    let pop = orders_of(perms);
    assert(rank[0] < fits.len());
    assert forall|t: int| 0 <= t < pop.len() implies is_perm_of_range(#[trigger] pop[t], items.len() as int) by {
        assert(pop[t] == perms[t]@);
    }
    assert(fits[rank[0] as int] == order_score(items, perms[rank[0] as int]@, bw, bh, k, allow_rotate));
    assert forall|t: int| 0 <= t < pop.len() implies (#[trigger] order_score(
        items,
        pop[t],
        bw,
        bh,
        k,
        allow_rotate,
    )).valid() by {
        assert(pop[t] == perms[t]@);
        assert(fits[t] == order_score(items, perms[t]@, bw, bh, k, allow_rotate));
    }
    assert forall|t: int| 0 <= t < pop.len() implies no_worse(
        order_score(items, pop[rank[0] as int], bw, bh, k, allow_rotate),
        #[trigger] order_score(items, pop[t], bw, bh, k, allow_rotate),
    ) by {
        assert(pop[t] == perms[t]@);
        assert(fits[t] == order_score(items, perms[t]@, bw, bh, k, allow_rotate));
        lemma_ranked_first(fits, rank, t);
    }
}

/// Any largest-first order scores what the sorted MaxRects packing
/// (`pack_sorted` with `BinType::MaxRects`) scores.
pub proof fn lemma_area_score_is_sorted_score(
    items: Seq<Shape>,
    order: Seq<usize>,
    bw: i64,
    bh: i64,
    k: i64,
    allow_rotate: bool,
    sboards: Seq<Seq<Placement>>,
    sunfit: Seq<Shape>,
)
    requires
        is_area_order(items, order),
        exists|o: Seq<usize>|
            is_area_order(items, o) && #[trigger] packed_as(
                BinType::MaxRects,
                permuted(items, o),
                bw,
                bh,
                k,
                allow_rotate,
                sboards,
                sunfit,
            ),
    ensures
        order_score(items, order, bw, bh, k, allow_rotate) == fitness_of(sboards, bw, bh),
{
    let o = choose|o: Seq<usize>|
        is_area_order(items, o) && #[trigger] packed_as(
            BinType::MaxRects,
            permuted(items, o),
            bw,
            bh,
            k,
            allow_rotate,
            sboards,
            sunfit,
        );
    lemma_area_order_unique(items, o, order);
}

/// A search packer's result (`pack_ga`, `pack_sa`) is never worse than
/// packing the shapes largest first with MaxRects (`pack_sorted`).
pub proof fn lemma_search_no_worse_than_sorted(
    items: Seq<Shape>,
    bw: i64,
    bh: i64,
    k: i64,
    allow_rotate: bool,
    boards: Seq<Seq<Placement>>,
    unfit: Seq<Shape>,
    sboards: Seq<Seq<Placement>>,
    sunfit: Seq<Shape>,
)
    requires
        search_result(items, bw, bh, k, allow_rotate, boards, unfit),
        exists|o: Seq<usize>|
            is_area_order(items, o) && #[trigger] packed_as(
                BinType::MaxRects,
                permuted(items, o),
                bw,
                bh,
                k,
                allow_rotate,
                sboards,
                sunfit,
            ),
    ensures
        no_worse(fitness_of(boards, bw, bh), fitness_of(sboards, bw, bh)),
{
    let order = choose|order: Seq<usize>|
        is_area_order(items, order) && no_worse(
            fitness_of(boards, bw, bh),
            #[trigger] order_score(items, order, bw, bh, k, allow_rotate),
        );
    lemma_area_score_is_sorted_score(items, order, bw, bh, k, allow_rotate, sboards, sunfit);
}

/// The scores of the orders of a population.
pub open spec fn pop_scores(
    items: Seq<Shape>,
    pop: Seq<Seq<usize>>,
    bw: i64,
    bh: i64,
    k: i64,
    allow_rotate: bool,
) -> Seq<Fitness> {
    Seq::new(pop.len(), |t: int| order_score(items, pop[t], bw, bh, k, allow_rotate))
}

/// The scores of a scored population are those of its orders.
pub proof fn lemma_pop_scores(
    items: Seq<Shape>,
    perms: Seq<Vec<usize>>,
    results: Seq<PackResult>,
    fits: Seq<Fitness>,
    bw: i64,
    bh: i64,
    k: i64,
    allow_rotate: bool,
)
    requires
        population_ok(items, perms, results, fits, bw, bh, k, allow_rotate),
    ensures
        fits == pop_scores(items, orders_of(perms), bw, bh, k, allow_rotate),
{
    let ps = pop_scores(items, orders_of(perms), bw, bh, k, allow_rotate);
    assert forall|t: int| 0 <= t < fits.len() implies fits[t] == ps[t] by {
        assert(orders_of(perms)[t] == perms[t]@);
    }
    assert(fits =~= ps);
}

} // verus!
