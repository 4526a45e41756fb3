//! A genetic search over the order in which the shapes are packed: each
//! order is packed board after board with the MaxRects packer and scored;
//! the best orders survive, and children are bred by order crossover and
//! random exchanges.

use vstd::prelude::*;
use crate::geometry::{pos_len_ok, len_ok};
use crate::model::{Shape, all_sized};
use crate::order::{area_order, is_perm_of_range, is_area_order};
use crate::packing::{PackResult, board_views};
use crate::fitness::Fitness;
use crate::random::{new_rng, below, chance};
use rand::rngs::ThreadRng;
use crate::perm::{random_order, random_crossover, mutate, copy_order, crossed, exchanged};
use crate::search::{
    evaluate_all, rank_by_fitness, ranked, population_ok, search_result, history_ok, progress_callable, fitness_of,
    no_worse, order_score, lemma_ranked_first, lemma_history_push, lemma_no_worse_trans, all_scores_valid,
    search_trace, orders_of, lemma_trace_push, lemma_population_best, pop_scores, lemma_pop_scores,
};

verus! {

/// A child of the genetic search: the order crossover of its two parents,
/// possibly followed by one or two exchanges of shapes.
pub open spec fn ga_child(first: Seq<usize>, second: Seq<usize>, child: Seq<usize>) -> bool {
    exists|x: Seq<usize>| #[trigger] crossed(first, second, x) && (child == x || exchanged(x, child))
}

/// `child` is a `ga_child` of a first parent among the `top` best orders
/// of `prev`, ranked best first by `rank`, and a second from all of `prev`.
pub open spec fn ga_parents(prev: Seq<Seq<usize>>, rank: Seq<usize>, top: int, child: Seq<usize>) -> bool {
    exists|i1: int, i2: int|
        0 <= i1 < top && 0 <= i2 < prev.len() && #[trigger] ga_child(prev[rank[i1] as int], prev[rank[i2] as int], child)
}

/// The generation `next` bred from `prev`, ranked best first by `rank`:
/// the best order passes on unchanged, and so does the second best when
/// there are two; every other order is bred as `ga_parents` says.
pub open spec fn ga_generation(prev: Seq<Seq<usize>>, rank: Seq<usize>, top: int, next: Seq<Seq<usize>>) -> bool {
    let m = prev.len();
    &&& next.len() == m
    &&& next[0] == prev[rank[0] as int]
    &&& m > 1 ==> next[1] == prev[rank[1] as int]
    &&& forall|t: int|
        (if m > 1 {
            2
        } else {
            1int
        }) <= t < m ==> ga_parents(prev, rank, top, #[trigger] next[t])
}

/// The number of best orders that may be first parents: three, or the
/// whole population when it is smaller.
pub open spec fn ga_top(pop_size: int) -> int {
    if pop_size < 3 {
        pop_size
    } else {
        3
    }
}

/// The generation `next` is bred from `prev` as the genetic search breeds,
/// for some ranking of `prev` best score first.
pub open spec fn ga_step(
    items: Seq<Shape>,
    bw: i64,
    bh: i64,
    k: i64,
    allow_rotate: bool,
    prev: Seq<Seq<usize>>,
    next: Seq<Seq<usize>>,
) -> bool {
    exists|rank: Seq<usize>|
        #[trigger] ranked(pop_scores(items, prev, bw, bh, k, allow_rotate), rank) && ga_generation(
            prev,
            rank,
            ga_top(prev.len() as int),
            next,
        )
}

/// Breeds the next generation from `perms`, ranked best first by `rank`:
/// the two best pass on; every other child crosses a parent among the
/// `top` best with one from the whole population and is mutated with
/// chance 15 in 100.
fn breed_ga(rng: &mut ThreadRng, perms: &Vec<Vec<usize>>, rank: &Vec<usize>, top: usize, n: usize) -> (next: Vec<
    Vec<usize>,
>)
    requires
        perms@.len() >= 1,
        rank@.len() == perms@.len(),
        1 <= top <= perms@.len(),
        n > 0,
        forall|i: int| 0 <= i < rank@.len() ==> (#[trigger] rank@[i]) < perms@.len(),
        forall|i: int| 0 <= i < perms@.len() ==> is_perm_of_range((#[trigger] perms@[i])@, n as int),
    ensures
        forall|i: int| 0 <= i < next@.len() ==> is_perm_of_range((#[trigger] next@[i])@, n as int),
        ga_generation(orders_of(perms@), rank@, top as int, orders_of(next@)),
{
    let m = perms.len();
    let ghost prev = orders_of(perms@);
    let ghost start: int = if m > 1 { 2 } else { 1 };
    let mut next: Vec<Vec<usize>> = Vec::new();
    next.push(copy_order(&perms[rank[0]]));
    if m > 1 {
        next.push(copy_order(&perms[rank[1]]));
    }
    while next.len() < m
        invariant
            m == perms@.len(),
            m == rank@.len(),
            prev == orders_of(perms@),
            start == (if m > 1 { 2int } else { 1int }),
            n > 0,
            1 <= top <= m,
            forall|i: int| 0 <= i < rank@.len() ==> (#[trigger] rank@[i]) < m,
            forall|i: int| 0 <= i < perms@.len() ==> is_perm_of_range((#[trigger] perms@[i])@, n as int),
            start <= next@.len() <= m,
            next@[0]@ == prev[rank@[0] as int],
            m > 1 ==> next@[1]@ == prev[rank@[1] as int],
            forall|i: int| 0 <= i < next@.len() ==> is_perm_of_range((#[trigger] next@[i])@, n as int),
            forall|t: int| start <= t < next@.len() ==> ga_parents(prev, rank@, top as int, (#[trigger] next@[t])@),
        decreases m - next@.len(),
    {
        let i1 = below(rng, top);
        let i2 = below(rng, m);
        let p1 = &perms[rank[i1]];
        let p2 = &perms[rank[i2]];
        assert(p1@ == prev[rank@[i1 as int] as int]);
        assert(p2@ == prev[rank@[i2 as int] as int]);
        let mut child = random_crossover(rng, p1, p2);
        let ghost x = child@;
        if chance(rng, 15, 100) {
            child = mutate(rng, &child);
        }
        assert(ga_child(prev[rank@[i1 as int] as int], prev[rank@[i2 as int] as int], child@));
        let ghost n0 = next@;
        next.push(child);
        assert forall|t: int| start <= t < next@.len() implies ga_parents(prev, rank@, top as int, (#[trigger] next@[t])@) by {
            if t < n0.len() {
                assert(next@[t] == n0[t]);
            }
        }
    }
    let ghost nx = orders_of(next@);
    assert(nx[0] == next@[0]@);
    assert forall|t: int| start <= t < m implies ga_parents(prev, rank@, top as int, #[trigger] nx[t]) by {
        assert(nx[t] == next@[t]@);
    }
    next
}

/// The genetic search: a population of `pop_size` orders, the first of
/// them largest shape first and the others random, evolves for
/// `generations` generations. The two best orders pass to the next
/// generation unchanged; every other child is bred from a parent among the
/// best three and one from the whole population, and is mutated with
/// chance 15 in 100. Every fifth generation, `progress` gets the generation,
/// the number of generations, the best score and the history so far.
/// Returns the best packing found, the best score before the first
/// generation and after each, and the orders evaluated in each generation.
#[verifier::spinoff_prover]
#[verifier::rlimit(60)]
pub fn pack_ga<P: Fn(usize, usize, Fitness, &Vec<Fitness>)>(
    items: &[Shape],
    bw: i64,
    bh: i64,
    kerf: i64,
    allow_rotate: bool,
    pop_size: usize,
    generations: usize,
    progress: &P,
) -> (r: (PackResult, Vec<Fitness>, Ghost<Seq<Seq<Seq<usize>>>>))
    requires
        pos_len_ok(bw as int),
        pos_len_ok(bh as int),
        len_ok(kerf as int),
        all_sized(items@),
        items@.len() > 0 ==> pop_size >= 1,
        progress_callable(*progress),
    ensures
        items@.len() == 0 ==> r.0.boards@.len() == 0 && r.0.unfittable@.len() == 0 && r.1@.len() == 0,
        items@.len() > 0 ==> search_result(
            items@,
            bw,
            bh,
            kerf,
            allow_rotate,
            board_views(r.0.boards@),
            r.0.unfittable@,
        ),
        items@.len() > 0 ==> history_ok(r.1@, generations + 1),
        items@.len() > 0 ==> r.1@.last() == fitness_of(board_views(r.0.boards@), bw, bh),
        items@.len() > 0 ==> search_trace(items@, r.2@, r.1@, bw, bh, kerf, allow_rotate),
        items@.len() > 0 ==> is_area_order(items@, r.2@[0][0]),
        items@.len() > 0 ==> forall|g: int| 0 <= g < r.2@.len() ==> (#[trigger] r.2@[g]).len() == pop_size,
        items@.len() > 0 ==> no_worse(r.1@[0], order_score(items@, r.2@[0][0], bw, bh, kerf, allow_rotate)),
        items@.len() > 0 ==> forall|g: int|
            0 < g < r.2@.len() ==> ga_step(items@, bw, bh, kerf, allow_rotate, r.2@[g - 1], #[trigger] r.2@[g]),
{
    let n = items.len();
    if n == 0 {
        return (PackResult { boards: Vec::new(), unfittable: Vec::new() }, Vec::new(), Ghost(Seq::empty()));
    }
    let mut rng = new_rng();
    let area_sorted = area_order(items);
    let ghost area = area_sorted@;
    let mut perms: Vec<Vec<usize>> = Vec::new();
    perms.push(area_sorted);
    while perms.len() < pop_size
        invariant
            n == items@.len(),
            1 <= perms@.len() <= pop_size,
            perms@[0]@ == area,
            is_area_order(items@, area),
            forall|i: int| 0 <= i < perms@.len() ==> is_perm_of_range((#[trigger] perms@[i])@, n as int),
        decreases pop_size - perms@.len(),
    {
        let p = random_order(&mut rng, n);
        perms.push(p);
    }
    let (mut results, mut fits) = evaluate_all(items, &perms, bw, bh, kerf, allow_rotate);
    let mut rank = rank_by_fitness(&fits);
    let mut best_fit = fits[rank[0]];
    let mut best_res = results[rank[0]].clone();
    let ghost mut best_order = perms@[rank@[0] as int]@;
    let mut history: Vec<Fitness> = Vec::new();
    let ghost mut evals: Seq<Seq<Seq<usize>>> = Seq::empty();
    proof {
        lemma_population_best(items@, perms@, results@, fits@, rank@, bw, bh, kerf, allow_rotate);
        lemma_trace_push(items@, evals, history@, orders_of(perms@), rank@[0] as int, bw, bh, kerf, allow_rotate);
        evals = evals.push(orders_of(perms@));
    }
    history.push(best_fit);
    proof {
        assert(orders_of(perms@)[0] == area);
        lemma_ranked_first(fits@, rank@, 0);
        assert(fits@[0] == order_score(items@, area, bw, bh, kerf, allow_rotate));
        assert(history@[0] == best_fit);
    }
    let m = perms.len();
    let top = if m < 3 {
        m
    } else {
        3
    };
    for g in 0..generations
        invariant
            n == items@.len(),
            n > 0,
            pos_len_ok(bw as int),
            pos_len_ok(bh as int),
            len_ok(kerf as int),
            all_sized(items@),
            progress_callable(*progress),
            m == pop_size,
            m >= 1,
            1 <= top <= m,
            top as int == ga_top(m as int),
            perms@.len() == m,
            population_ok(items@, perms@, results@, fits@, bw, bh, kerf, allow_rotate),
            all_scores_valid(fits@),
            ranked(fits@, rank@),
            is_area_order(items@, area),
            best_fit == fitness_of(board_views(best_res.boards@), bw, bh),
            best_fit.valid(),
            is_perm_of_range(best_order, n as int),
            crate::packing::packed_as(
                crate::packing::BinType::MaxRects,
                crate::order::permuted(items@, best_order),
                bw,
                bh,
                kerf,
                allow_rotate,
                board_views(best_res.boards@),
                best_res.unfittable@,
            ),
            history@.len() == g + 1,
            history@.last() == best_fit,
            all_scores_valid(history@),
            forall|i: int, j: int| 0 <= i <= j < history@.len() ==> no_worse(#[trigger] history@[j], #[trigger] history@[i]),
            no_worse(history@[0], order_score(items@, area, bw, bh, kerf, allow_rotate)),
            order_score(items@, area, bw, bh, kerf, allow_rotate).valid(),
            search_trace(items@, evals, history@, bw, bh, kerf, allow_rotate),
            evals[0][0] == area,
            forall|h: int| 0 <= h < evals.len() ==> (#[trigger] evals[h]).len() == m,
            evals.last() == orders_of(perms@),
            forall|h: int| 0 < h < evals.len() ==> ga_step(items@, bw, bh, kerf, allow_rotate, evals[h - 1], #[trigger] evals[h]),
    {
        if g % 5 == 0 {
            progress(g, generations, best_fit, &history);
        }
        let ghost prev = orders_of(perms@);
        let ghost prank = rank@;
        assert(prev.len() == m);
        proof {
            lemma_pop_scores(items@, perms@, results@, fits@, bw, bh, kerf, allow_rotate);
            assert forall|i: int| 0 <= i < rank@.len() implies (#[trigger] rank@[i]) < perms@.len() by {}
            assert forall|i: int| 0 <= i < perms@.len() implies is_perm_of_range((#[trigger] perms@[i])@, n as int) by {}
        }
        let next = breed_ga(&mut rng, &perms, &rank, top, n);
        let (results2, fits2) = evaluate_all(items, &next, bw, bh, kerf, allow_rotate);
        perms = next;
        results = results2;
        fits = fits2;
        rank = rank_by_fitness(&fits);
        let ghost h0 = history@;
        let ghost e0 = evals;
        proof {
            lemma_population_best(items@, perms@, results@, fits@, rank@, bw, bh, kerf, allow_rotate);
            lemma_trace_push(items@, evals, history@, orders_of(perms@), rank@[0] as int, bw, bh, kerf, allow_rotate);
            evals = evals.push(orders_of(perms@));
        }
        if fits[rank[0]].lt(&best_fit) {
            best_fit = fits[rank[0]];
            best_res = results[rank[0]].clone();
            proof {
                best_order = perms@[rank@[0] as int]@;
                crate::search::lemma_better_no_worse(best_fit, h0.last());
            }
        } else {
            proof {
                crate::search::lemma_no_worse_total(best_fit, best_fit);
            }
        }
        history.push(best_fit);
        proof {
            lemma_history_push(h0, best_fit);
            assert(history@[0] == h0[0]);
            assert(evals[0] == e0[0]);
            assert forall|h: int| 0 <= h < evals.len() implies (#[trigger] evals[h]).len() == m by {
                if h < e0.len() {
                    assert(evals[h] == e0[h]);
                }
            }
            assert(ga_generation(prev, prank, top as int, evals[e0.len() as int]));
            assert(ranked(pop_scores(items@, prev, bw, bh, kerf, allow_rotate), prank));
            assert forall|h: int| 0 < h < evals.len() implies ga_step(
                items@,
                bw,
                bh,
                kerf,
                allow_rotate,
                evals[h - 1],
                #[trigger] evals[h],
            ) by {
                if h < e0.len() {
                    assert(evals[h] == e0[h] && evals[h - 1] == e0[h - 1]);
                } else {
                    assert(evals[h - 1] == prev);
                    assert(ga_top(prev.len() as int) == top as int);
                    assert(ga_generation(prev, prank, ga_top(prev.len() as int), evals[h]));
                    assert(ranked(pop_scores(items@, prev, bw, bh, kerf, allow_rotate), prank));
                }
            }
        }
    }
    proof {
        let h = history@;
        assert(no_worse(h[h.len() - 1], h[0]));
        lemma_no_worse_trans(best_fit, h[0], order_score(items@, area, bw, bh, kerf, allow_rotate));
        crate::search::lemma_packed_scores(items@, best_order, bw, bh, kerf, allow_rotate, board_views(best_res.boards@), best_res.unfittable@);
    }
    (best_res, history, Ghost(evals))
}

} // verus!
