//! The SVGNest-style search: a genetic search over the packing order in
//! which every order is packed board after board with the collision-based
//! packer and scored by a caller's rule that favours low pieces; children
//! are bred by order crossover and mutated by exchanges or by moving a
//! short stretch of the order.

use vstd::prelude::*;
use rand::rngs::ThreadRng;
use crate::geometry::{pos_len_ok, len_ok};
use crate::model::{Shape, Placement, Board, all_valid, all_sized, layout_ok};
use crate::order::{area_order, is_perm_of_range, is_area_order, permuted};
use crate::packing::{BinType, PackResult, pack_ordered, packed_as, board_views, fittable, nfp_chain};
use crate::nfp_greedy::{test_callable, test_sound};
use crate::random::{new_rng, below, chance};
use crate::perm::{random_order, random_crossover, copy_order, swap_at, swapped, lemma_swapped_perm, crossed};

verus! {

broadcast use vstd::seq_lib::group_to_multiset_ensures;

/// `v` with the stretch of `len` elements from `from` (fewer at the end)
/// taken out and put back at position `to` of what is left (at its end
/// when `to` is past it).
pub open spec fn moved_segment(v: Seq<usize>, from: int, len: int, to: int) -> Seq<usize> {
    let take = if len < v.len() - from {
        len
    } else {
        v.len() - from
    };
    let seg = v.subrange(from, from + take);
    let rest = v.subrange(0, from) + v.subrange(from + take, v.len() as int);
    let ins = if to < rest.len() {
        to
    } else {
        rest.len() as int
    };
    rest.subrange(0, ins) + seg + rest.subrange(ins, rest.len() as int)
}

/// Appends `src[lo..hi]` to `dst`.
fn push_range(dst: &mut Vec<usize>, src: &Vec<usize>, lo: usize, hi: usize)
    requires
        lo <= hi <= src@.len(),
    ensures
        final(dst)@ == old(dst)@ + src@.subrange(lo as int, hi as int),
{
    let ghost d0 = dst@;
    for i in lo..hi
        invariant
            lo <= hi <= src@.len(),
            dst@ == d0 + src@.subrange(lo as int, i as int),
    {
        dst.push(src[i]);
        assert(dst@ =~= d0 + src@.subrange(lo as int, i + 1));
    }
}

/// Moves the stretch of `len` elements from `from` to position `to` of
/// what is left.
pub fn move_segment(v: &Vec<usize>, from: usize, len: usize, to: usize) -> (r: Vec<usize>)
    requires
        from <= v@.len(),
    ensures
        r@ == moved_segment(v@, from as int, len as int, to as int),
{
    let n = v.len();
    let take = if len < n - from {
        len
    } else {
        n - from
    };
    let mut rest: Vec<usize> = Vec::new();
    push_range(&mut rest, v, 0, from);
    push_range(&mut rest, v, from + take, n);
    let ins = if to < rest.len() {
        to
    } else {
        rest.len()
    };
    let mut r: Vec<usize> = Vec::new();
    push_range(&mut r, &rest, 0, ins);
    push_range(&mut r, v, from, from + take);
    push_range(&mut r, &rest, ins, rest.len());
    assert(Seq::<usize>::empty() + v@.subrange(0, from as int) =~= v@.subrange(0, from as int));
    assert(Seq::<usize>::empty() + rest@.subrange(0, ins as int) =~= rest@.subrange(0, ins as int));
    r
}

/// Two sequences with the same elements are permutations of `0..n`
/// together.
pub proof fn lemma_same_elements_perm(p: Seq<usize>, q: Seq<usize>, n: int)
    requires
        is_perm_of_range(p, n),
        q.to_multiset() == p.to_multiset(),
    ensures
        is_perm_of_range(q, n),
{
    assert(p.no_duplicates());
    p.lemma_multiset_has_no_duplicates();
    q.lemma_multiset_has_no_duplicates_conv();
    vstd::seq_lib::to_multiset_len(q);
    vstd::seq_lib::to_multiset_len(p);
    assert(q.len() == p.len());
    assert(q.no_duplicates());
    assert forall|a: int, b: int| 0 <= a < q.len() && 0 <= b < q.len() && a != b implies q[a] != q[b] by {}
    assert forall|a: int| 0 <= a < q.len() implies (#[trigger] q[a]) < n by {
        assert(q.contains(q[a]));
        assert(q.to_multiset().count(q[a]) > 0);
        assert(p.to_multiset().count(q[a]) > 0);
        assert(p.contains(q[a]));
    }
}

/// Moving a stretch keeps the elements.
pub proof fn lemma_moved_perm(v: Seq<usize>, n: int, from: int, len: int, to: int)
    requires
        is_perm_of_range(v, n),
        0 <= from <= v.len(),
        len >= 0,
        to >= 0,
    ensures
        is_perm_of_range(moved_segment(v, from, len, to), n),
{
    broadcast use vstd::seq_lib::lemma_multiset_commutative;
    broadcast use vstd::multiset::group_multiset_axioms;
    let take = if len < v.len() - from {
        len
    } else {
        v.len() - from
    };
    let a = v.subrange(0, from);
    let seg = v.subrange(from, from + take);
    let b = v.subrange(from + take, v.len() as int);
    let rest = a + b;
    let ins = if to < rest.len() {
        to
    } else {
        rest.len() as int
    };
    let r1 = rest.subrange(0, ins);
    let r2 = rest.subrange(ins, rest.len() as int);
    assert(v =~= a + seg + b);
    assert(rest =~= r1 + r2);
    let m = moved_segment(v, from, len, to);
    assert(m == r1 + seg + r2);
    assert(m.to_multiset() =~= v.to_multiset()) by {
        assert((r1 + seg + r2).to_multiset() =~= (r1 + seg).to_multiset().add(r2.to_multiset()));
        assert((r1 + seg).to_multiset() =~= r1.to_multiset().add(seg.to_multiset()));
        assert((r1 + r2).to_multiset() =~= r1.to_multiset().add(r2.to_multiset()));
        assert((a + seg + b).to_multiset() =~= (a + seg).to_multiset().add(b.to_multiset()));
        assert((a + seg).to_multiset() =~= a.to_multiset().add(seg.to_multiset()));
        assert((a + b).to_multiset() =~= a.to_multiset().add(b.to_multiset()));
        assert forall|x: usize| m.to_multiset().count(x) == v.to_multiset().count(x) by {
            assert(m.to_multiset().count(x) == r1.to_multiset().count(x) + seg.to_multiset().count(x) + r2.to_multiset().count(x));
            assert(rest.to_multiset().count(x) == r1.to_multiset().count(x) + r2.to_multiset().count(x));
            assert(rest.to_multiset().count(x) == a.to_multiset().count(x) + b.to_multiset().count(x));
            assert(v.to_multiset().count(x) == a.to_multiset().count(x) + seg.to_multiset().count(x) + b.to_multiset().count(x));
        }
    }
    lemma_same_elements_perm(v, m, n);
}

/// `r` is `p` after one mutation of the SVGNest search: two elements
/// exchanged, or a stretch of one to three elements moved elsewhere.
pub open spec fn svg_mutated(p: Seq<usize>, r: Seq<usize>) -> bool {
    ||| exists|a: int, b: int| 0 <= a < p.len() && 0 <= b < p.len() && r == #[trigger] swapped(p, a, b)
    ||| exists|from: int, len: int, to: int|
        0 <= from <= p.len() && 1 <= len <= 3 && 0 <= to && r == #[trigger] moved_segment(p, from, len, to)
}

/// A random mutation of the SVGNest search: with chance 1 in 2 the
/// exchange of two random elements, else a stretch of one to three
/// elements moved to a random position.
pub fn mutate_svgnest(rng: &mut ThreadRng, p: &Vec<usize>) -> (r: Vec<usize>)
    requires
        p@.len() > 0,
        is_perm_of_range(p@, p@.len() as int),
    ensures
        is_perm_of_range(r@, p@.len() as int),
        svg_mutated(p@, r@),
{
    let n = p.len();
    let mut q = copy_order(p);
    if chance(rng, 1, 2) {
        let a = below(rng, n);
        let b = below(rng, n);
        swap_at(&mut q, a, b);
        proof {
            lemma_swapped_perm(p@, n as int, a as int, b as int);
        }
        q
    } else {
        let most = if n - 1 < 3 {
            n - 1
        } else {
            3
        };
        let most = if most < 1 {
            1
        } else {
            most
        };
        let len = 1 + below(rng, most);
        let span = if n > len {
            n - len
        } else {
            1
        };
        let from = below(rng, span);
        let to = below(rng, span);
        let r = move_segment(&q, from, len, to);
        proof {
            lemma_moved_perm(p@, n as int, from as int, len as int, to as int);
        }
        r
    }
}

/// `rank` lists the indices of `keys` smallest key first, each once;
/// indices of equal keys keep their order.
pub open spec fn key_ranked(keys: Seq<u64>, rank: Seq<usize>) -> bool {
    &&& is_perm_of_range(rank, keys.len() as int)
    &&& forall|a: int, b: int| 0 <= a < b < rank.len() ==> keys[#[trigger] rank[a] as int] <= keys[#[trigger] rank[b] as int]
    &&& forall|a: int, b: int|
        0 <= a < b < rank.len() && keys[#[trigger] rank[a] as int] == keys[#[trigger] rank[b] as int] ==> rank[a] < rank[b]
}

/// The indices of the keys, smallest key first; equal keys keep their
/// order.
pub fn rank_by_key(keys: &Vec<u64>) -> (rank: Vec<usize>)
    ensures
        key_ranked(keys@, rank@),
{
    let m = keys.len();
    let mut v: Vec<usize> = Vec::new();
    for i in 0..m
        invariant
            m == keys@.len(),
            v@.len() == i,
            forall|a: int| 0 <= a < v@.len() ==> (#[trigger] v@[a]) < i,
            forall|a: int, b: int| 0 <= a < v@.len() && 0 <= b < v@.len() && a != b ==> v@[a] != v@[b],
            forall|a: int, b: int| 0 <= a < b < v@.len() ==> keys@[#[trigger] v@[a] as int] <= keys@[#[trigger] v@[b] as int],
            forall|a: int, b: int|
                0 <= a < b < v@.len() && keys@[#[trigger] v@[a] as int] == keys@[#[trigger] v@[b] as int] ==> v@[a]
                    < v@[b],
    {
        let mut p: usize = 0;
        while p < v.len() && keys[v[p]] <= keys[i]
            invariant
                m == keys@.len(),
                0 <= i < m,
                0 <= p <= v@.len(),
                v@.len() == i,
                forall|a: int| 0 <= a < v@.len() ==> (#[trigger] v@[a]) < i,
                forall|q: int| 0 <= q < p ==> keys@[#[trigger] v@[q] as int] <= keys@[i as int],
            decreases v@.len() - p,
        {
            p = p + 1;
        }
        let ghost old_v = v@;
        v.insert(p, i);
        proof {
            assert forall|a: int| 0 <= a < v@.len() implies #[trigger] v@[a] == if a < p {
                old_v[a]
            } else if a == p {
                i
            } else {
                old_v[a - 1]
            } by {}
        }
    }
    v
}

/// Every order of a population lists each shape once.
pub open spec fn all_perms(perms: Seq<Vec<usize>>, n: int) -> bool {
    forall|i: int| 0 <= i < perms.len() ==> is_perm_of_range((#[trigger] perms[i])@, n)
}

/// `boards` and `unfit` are what packing `items` in order, board after
/// board, with the collision-based packer gives.
pub open spec fn nfp_packed<F: Fn(&Vec<Placement>, i64, i64, i64, i64) -> bool>(
    collides: F,
    items: Seq<Shape>,
    bw: i64,
    bh: i64,
    k: i64,
    allow_rotate: bool,
    boards: Seq<Seq<Placement>>,
    unfit: Seq<Shape>,
) -> bool {
    &&& packed_as(BinType::NFP, items, bw, bh, k, allow_rotate, boards, unfit)
    &&& exists|rems: Seq<Seq<Shape>>|
        #[trigger] nfp_chain(
            collides,
            bw as int,
            bh as int,
            k as int,
            allow_rotate,
            fittable(items, bw as int, bh as int, allow_rotate),
            boards,
            rems,
        )
    &&& test_sound(collides, bw as int, bh as int) ==> forall|i: int|
        0 <= i < boards.len() ==> layout_ok(#[trigger] boards[i], bw as int, bh as int)
}

/// The scoring rule can be asked about any boards.
pub open spec fn score_callable<S: Fn(&Vec<Board>) -> u64>(score: S) -> bool {
    forall|boards: &Vec<Board>| score.requires((boards,))
}

/// The progress report can be given any generation, count, best key and
/// history.
pub open spec fn key_progress_callable<P: Fn(usize, usize, u64, &Vec<u64>)>(progress: P) -> bool {
    forall|g: usize, total: usize, best: u64, hist: &Vec<u64>| progress.requires((g, total, best, hist))
}

/// Packs the shapes in the order `order` with the collision-based packer
/// and asks the scoring rule for the result's key.
pub fn evaluate_nfp<F: Fn(&Vec<Placement>, i64, i64, i64, i64) -> bool, S: Fn(&Vec<Board>) -> u64>(
    items: &[Shape],
    order: &Vec<usize>,
    bw: i64,
    bh: i64,
    kerf: i64,
    allow_rotate: bool,
    collides: &F,
    score: &S,
) -> (r: (PackResult, u64))
    requires
        pos_len_ok(bw as int),
        pos_len_ok(bh as int),
        len_ok(kerf as int),
        all_sized(items@),
        is_perm_of_range(order@, items@.len() as int),
        test_callable(*collides),
        score_callable(*score),
    ensures
        nfp_packed(*collides, permuted(items@, order@), bw, bh, kerf, allow_rotate, board_views(r.0.boards@), r.0.unfittable@),
        score.ensures((&r.0.boards,), r.1),
{
    let mut ordered: Vec<Shape> = Vec::new();
    let n = order.len();
    for i in 0..n
        invariant
            n == order@.len(),
            is_perm_of_range(order@, items@.len() as int),
            ordered@ == permuted(items@, order@.take(i as int)),
    {
        ordered.push(items[order[i]].clone());
        assert(permuted(items@, order@.take(i + 1)) =~= permuted(items@, order@.take(i as int)).push(
            items@[order@[i as int] as int],
        ));
    }
    assert(order@.take(n as int) =~= order@);
    assert(all_sized(ordered@)) by {
        assert forall|i: int| 0 <= i < ordered@.len() implies (#[trigger] ordered@[i]).sized() by {
            assert(ordered@[i] == items@[order@[i] as int]);
        }
    }
    let res = pack_ordered(BinType::NFP, ordered.as_slice(), bw, bh, kerf, allow_rotate, collides);
    let key = score(&res.boards);
    (res, key)
}

/// Whether a population of results is what packing each of its orders
/// gives, with the keys the scoring rule gave.
pub open spec fn svg_population_ok<F: Fn(&Vec<Placement>, i64, i64, i64, i64) -> bool, S: Fn(&Vec<Board>) -> u64>(
    collides: F,
    score: S,
    items: Seq<Shape>,
    perms: Seq<Vec<usize>>,
    results: Seq<PackResult>,
    keys: Seq<u64>,
    bw: i64,
    bh: i64,
    k: i64,
    allow_rotate: bool,
) -> bool {
    &&& results.len() == perms.len()
    &&& keys.len() == perms.len()
    &&& forall|i: int|
        0 <= i < perms.len() ==> {
            &&& is_perm_of_range((#[trigger] perms[i])@, items.len() as int)
            &&& nfp_packed(
                collides,
                permuted(items, perms[i]@),
                bw,
                bh,
                k,
                allow_rotate,
                board_views(results[i].boards@),
                results[i].unfittable@,
            )
            &&& score.ensures((&results[i].boards,), keys[i])
        }
}

/// Packs and scores every order of a population.
pub fn evaluate_all_nfp<F: Fn(&Vec<Placement>, i64, i64, i64, i64) -> bool, S: Fn(&Vec<Board>) -> u64>(
    items: &[Shape],
    perms: &Vec<Vec<usize>>,
    bw: i64,
    bh: i64,
    kerf: i64,
    allow_rotate: bool,
    collides: &F,
    score: &S,
) -> (r: (Vec<PackResult>, Vec<u64>))
    requires
        pos_len_ok(bw as int),
        pos_len_ok(bh as int),
        len_ok(kerf as int),
        all_sized(items@),
        all_perms(perms@, items@.len() as int),
        test_callable(*collides),
        score_callable(*score),
    ensures
        svg_population_ok(*collides, *score, items@, perms@, r.0@, r.1@, bw, bh, kerf, allow_rotate),
{
    let mut results: Vec<PackResult> = Vec::new();
    let mut keys: Vec<u64> = Vec::new();
    let m = perms.len();
    for i in 0..m
        invariant
            m == perms@.len(),
            pos_len_ok(bw as int),
            pos_len_ok(bh as int),
            len_ok(kerf as int),
            all_sized(items@),
            all_perms(perms@, items@.len() as int),
            test_callable(*collides),
            score_callable(*score),
            svg_population_ok(*collides, *score, items@, perms@.take(i as int), results@, keys@, bw, bh, kerf, allow_rotate),
    {
        let (res, key) = evaluate_nfp(items, &perms[i], bw, bh, kerf, allow_rotate, collides, score);
        let ghost r0 = results@;
        let ghost k0 = keys@;
        results.push(res);
        keys.push(key);
        proof {
            let ps = perms@.take(i + 1);
            assert forall|t: int| 0 <= t < ps.len() implies {
                &&& is_perm_of_range((#[trigger] ps[t])@, items@.len() as int)
                &&& nfp_packed(
                    *collides,
                    permuted(items@, ps[t]@),
                    bw,
                    bh,
                    kerf,
                    allow_rotate,
                    board_views(results@[t].boards@),
                    results@[t].unfittable@,
                )
                &&& score.ensures((&results@[t].boards,), keys@[t])
            } by {
                if t < i {
                    assert(ps[t] == perms@.take(i as int)[t]);
                    assert(results@[t] == r0[t]);
                    assert(keys@[t] == k0[t]);
                }
            }
        }
    }
    assert(perms@.take(m as int) =~= perms@);
    (results, keys)
}

/// A history of best keys, `len` long, that never grows.
pub open spec fn key_history_ok(hist: Seq<u64>, len: int) -> bool {
    &&& hist.len() == len
    &&& forall|i: int, j: int| 0 <= i <= j < hist.len() ==> #[trigger] hist[j] <= #[trigger] hist[i]
}

/// `key` is a key that `score` gives some packing of `items` in the order
/// `order` with the collision-based packer.
pub open spec fn key_of_order<F: Fn(&Vec<Placement>, i64, i64, i64, i64) -> bool, S: Fn(&Vec<Board>) -> u64>(
    collides: F,
    score: S,
    items: Seq<Shape>,
    bw: i64,
    bh: i64,
    k: i64,
    allow_rotate: bool,
    order: Seq<usize>,
    key: u64,
) -> bool {
    exists|res: PackResult|
        #![trigger nfp_packed(collides, permuted(items, order), bw, bh, k, allow_rotate, board_views(res.boards@), res.unfittable@), score.ensures((&res.boards,), key)]
        nfp_packed(
            collides,
            permuted(items, order),
            bw,
            bh,
            k,
            allow_rotate,
            board_views(res.boards@),
            res.unfittable@,
        ) && score.ensures((&res.boards,), key)
}

/// The orders of a population, each with its key.
pub open spec fn keyed_pop(perms: Seq<Vec<usize>>, keys: Seq<u64>) -> Seq<(Seq<usize>, u64)> {
    Seq::new(perms.len(), |i: int| (perms[i]@, keys[i]))
}

/// `best` is the smallest key among the orders evaluated in the generations
/// `0` to `g` of `evals`.
pub open spec fn best_key_upto(evals: Seq<Seq<(Seq<usize>, u64)>>, g: int, best: u64) -> bool {
    &&& forall|h: int, t: int| 0 <= h <= g && 0 <= t < evals[h].len() ==> best <= (#[trigger] evals[h][t]).1
    &&& exists|h: int, t: int| 0 <= h <= g && 0 <= t < evals[h].len() && best == (#[trigger] evals[h][t]).1
}

/// The search evaluated the orders `evals[g]`, each a permutation of the
/// shapes, with the keys beside them, in its `g`-th generation, and the `g`-th entry of its history is the
/// smallest key among all evaluated up to then.
pub open spec fn key_trace<F: Fn(&Vec<Placement>, i64, i64, i64, i64) -> bool, S: Fn(&Vec<Board>) -> u64>(
    collides: F,
    score: S,
    items: Seq<Shape>,
    bw: i64,
    bh: i64,
    k: i64,
    allow_rotate: bool,
    evals: Seq<Seq<(Seq<usize>, u64)>>,
    hist: Seq<u64>,
) -> bool {
    &&& evals.len() == hist.len()
    &&& forall|h: int, t: int|
        0 <= h < evals.len() && 0 <= t < evals[h].len() ==> is_perm_of_range(
            (#[trigger] evals[h][t]).0,
            items.len() as int,
        )
    &&& forall|h: int, t: int|
        0 <= h < evals.len() && 0 <= t < evals[h].len() ==> key_of_order(
            collides,
            score,
            items,
            bw,
            bh,
            k,
            allow_rotate,
            (#[trigger] evals[h][t]).0,
            evals[h][t].1,
        )
    &&& forall|g: int| 0 <= g < hist.len() ==> best_key_upto(evals, g, #[trigger] hist[g])
}

/// Adding a generation whose smallest key is that of `pop[t0]` to a key
/// trace, keeping the running best unless that key is strictly smaller,
/// gives a key trace.
pub proof fn lemma_key_trace_push<F: Fn(&Vec<Placement>, i64, i64, i64, i64) -> bool, S: Fn(&Vec<Board>) -> u64>(
    collides: F,
    score: S,
    items: Seq<Shape>,
    bw: i64,
    bh: i64,
    k: i64,
    allow_rotate: bool,
    evals: Seq<Seq<(Seq<usize>, u64)>>,
    hist: Seq<u64>,
    pop: Seq<(Seq<usize>, u64)>,
    t0: int,
)
    requires
        key_trace(collides, score, items, bw, bh, k, allow_rotate, evals, hist),
        0 <= t0 < pop.len(),
        forall|t: int| 0 <= t < pop.len() ==> pop[t0].1 <= (#[trigger] pop[t]).1,
        forall|t: int| 0 <= t < pop.len() ==> is_perm_of_range((#[trigger] pop[t]).0, items.len() as int),
        forall|t: int|
            0 <= t < pop.len() ==> key_of_order(
                collides,
                score,
                items,
                bw,
                bh,
                k,
                allow_rotate,
                (#[trigger] pop[t]).0,
                pop[t].1,
            ),
    ensures
        ({
            let gb = pop[t0].1;
            let nb = if hist.len() == 0 || gb < hist.last() { gb } else { hist.last() };
            key_trace(collides, score, items, bw, bh, k, allow_rotate, evals.push(pop), hist.push(nb))
        }),
{
    let gb = pop[t0].1;
    let nb = if hist.len() == 0 || gb < hist.last() { gb } else { hist.last() };
    let e2 = evals.push(pop);
    let h2 = hist.push(nb);
    let g = hist.len() as int;
    assert forall|h: int, t: int| 0 <= h < e2.len() && 0 <= t < e2[h].len() implies key_of_order(
        collides,
        score,
        items,
        bw,
        bh,
        k,
        allow_rotate,
        (#[trigger] e2[h][t]).0,
        e2[h][t].1,
    ) by {
        if h < g {
            assert(e2[h] == evals[h]);
        } else {
            assert(e2[h][t] == pop[t]);
        }
    }
    assert forall|h: int, t: int| 0 <= h < e2.len() && 0 <= t < e2[h].len() implies is_perm_of_range(
        (#[trigger] e2[h][t]).0,
        items.len() as int,
    ) by {
        if h < g {
            assert(e2[h] == evals[h]);
        } else {
            assert(e2[h][t] == pop[t]);
        }
    }
    assert forall|j: int| 0 <= j < h2.len() implies best_key_upto(e2, j, #[trigger] h2[j]) by {
        if j < g {
            assert(h2[j] == hist[j]);
            assert(best_key_upto(evals, j, hist[j]));
            assert forall|h: int, t: int| 0 <= h <= j && 0 <= t < e2[h].len() implies hist[j] <= (#[trigger] e2[h][t]).1 by {
                assert(e2[h] == evals[h]);
                assert(e2[h][t] == evals[h][t]);
            }
            let (hh, tt) = choose|h: int, t: int| 0 <= h <= j && 0 <= t < evals[h].len() && hist[j] == (#[trigger] evals[h][t]).1;
            assert(e2[hh] == evals[hh]);
            assert(hist[j] == e2[hh][tt].1);
        } else {
            assert(e2[g] == pop);
            if g > 0 {
                assert(best_key_upto(evals, g - 1, hist[g - 1]));
            }
            assert forall|h: int, t: int| 0 <= h <= j && 0 <= t < e2[h].len() implies nb <= (#[trigger] e2[h][t]).1 by {
                if h == g {
                    assert(e2[h][t] == pop[t]);
                } else {
                    assert(e2[h] == evals[h]);
                    assert(e2[h][t] == evals[h][t]);
                }
            }
            if nb == gb {
                assert(gb == e2[g][t0].1);
            } else {
                let (hh, tt) = choose|h: int, t: int|
                    0 <= h <= g - 1 && 0 <= t < evals[h].len() && hist[g - 1] == (#[trigger] evals[h][t]).1;
                assert(e2[hh] == evals[hh]);
                assert(nb == e2[hh][tt].1);
            }
        }
    }
}

/// The first-ranked order of a keyed population has the smallest key, and
/// every order carries a key of one of its packings.
pub proof fn lemma_keyed_population<F: Fn(&Vec<Placement>, i64, i64, i64, i64) -> bool, S: Fn(&Vec<Board>) -> u64>(
    collides: F,
    score: S,
    items: Seq<Shape>,
    perms: Seq<Vec<usize>>,
    results: Seq<PackResult>,
    keys: Seq<u64>,
    rank: Seq<usize>,
    bw: i64,
    bh: i64,
    k: i64,
    allow_rotate: bool,
)
    requires
        svg_population_ok(collides, score, items, perms, results, keys, bw, bh, k, allow_rotate),
        key_ranked(keys, rank),
        perms.len() > 0,
    ensures
        0 <= rank[0] < keyed_pop(perms, keys).len(),
        keyed_pop(perms, keys)[rank[0] as int].1 == keys[rank[0] as int],
        forall|t: int|
            0 <= t < keyed_pop(perms, keys).len() ==> is_perm_of_range(
                (#[trigger] keyed_pop(perms, keys)[t]).0,
                items.len() as int,
            ),
        forall|t: int|
            0 <= t < keyed_pop(perms, keys).len() ==> keyed_pop(perms, keys)[rank[0] as int].1 <= (
            #[trigger] keyed_pop(perms, keys)[t]).1,
        forall|t: int|
            0 <= t < keyed_pop(perms, keys).len() ==> key_of_order(
                collides,
                score,
                items,
                bw,
                bh,
                k,
                allow_rotate,
                (#[trigger] keyed_pop(perms, keys)[t]).0,
                keyed_pop(perms, keys)[t].1,
            ),
{
    let pop = keyed_pop(perms, keys);
    assert(rank[0] < keys.len());
    assert forall|t: int| 0 <= t < pop.len() implies is_perm_of_range((#[trigger] pop[t]).0, items.len() as int) by {
        assert(pop[t] == (perms[t]@, keys[t]));
    }
    assert forall|t: int| 0 <= t < pop.len() implies pop[rank[0] as int].1 <= (#[trigger] pop[t]).1 by {
        crate::order::lemma_perm_covers(rank, keys.len() as int, t);
        let a = choose|a: int| 0 <= a < rank.len() && rank[a] == t;
        if a > 0 {
            assert(keys[rank[0] as int] <= keys[rank[a] as int]);
        }
    }
    assert forall|t: int| 0 <= t < pop.len() implies key_of_order(
        collides,
        score,
        items,
        bw,
        bh,
        k,
        allow_rotate,
        (#[trigger] pop[t]).0,
        pop[t].1,
    ) by {
        assert(pop[t] == (perms[t]@, keys[t]));
        let res = results[t];
        assert(nfp_packed(
            collides,
            permuted(items, perms[t]@),
            bw,
            bh,
            k,
            allow_rotate,
            board_views(res.boards@),
            res.unfittable@,
        ));
        assert(score.ensures((&res.boards,), keys[t]));
    }
}

/// A child of the SVGNest search: the order crossover of its two parents,
/// possibly followed by one mutation.
pub open spec fn svg_child(first: Seq<usize>, second: Seq<usize>, child: Seq<usize>) -> bool {
    exists|x: Seq<usize>| #[trigger] crossed(first, second, x) && (child == x || svg_mutated(x, child))
}

/// `child` is an `svg_child` of a first parent among the `top` best orders
/// of `prev`, ranked best first by `rank`, and a second from all of `prev`.
pub open spec fn svg_parents(prev: Seq<Seq<usize>>, rank: Seq<usize>, top: int, child: Seq<usize>) -> bool {
    exists|i1: int, i2: int|
        0 <= i1 < top && 0 <= i2 < prev.len() && #[trigger] svg_child(prev[rank[i1] as int], prev[rank[i2] as int], child)
}

/// The generation `next` bred from `prev`, ranked best first by `rank`:
/// the best order passes on unchanged, and so does the second best when
/// there are two; every other order is bred as `svg_parents` says.
pub open spec fn svg_generation(prev: Seq<Seq<usize>>, rank: Seq<usize>, top: int, next: Seq<Seq<usize>>) -> bool {
    let m = prev.len();
    &&& next.len() == m
    &&& next[0] == prev[rank[0] as int]
    &&& m > 1 ==> next[1] == prev[rank[1] as int]
    &&& forall|t: int|
        (if m > 1 {
            2
        } else {
            1int
        }) <= t < m ==> svg_parents(prev, rank, top, #[trigger] next[t])
}

/// The orders of a keyed generation.
pub open spec fn orders_in(pop: Seq<(Seq<usize>, u64)>) -> Seq<Seq<usize>> {
    Seq::new(pop.len(), |t: int| pop[t].0)
}

/// The keys of a keyed generation.
pub open spec fn keys_in(pop: Seq<(Seq<usize>, u64)>) -> Seq<u64> {
    Seq::new(pop.len(), |t: int| pop[t].1)
}

/// The number of best orders that may be first parents in a population of
/// `m`: `elite_size(m)`, and never more than `m`.
pub open spec fn svg_top(m: int) -> int {
    if elite_size(m) < m {
        elite_size(m)
    } else {
        m
    }
}

/// The generation `next` is bred from `prev` as the SVGNest search breeds,
/// for some ranking of `prev` smallest key first.
pub open spec fn svg_step(prev: Seq<(Seq<usize>, u64)>, next: Seq<(Seq<usize>, u64)>) -> bool {
    exists|rank: Seq<usize>|
        #[trigger] key_ranked(keys_in(prev), rank) && svg_generation(
            orders_in(prev),
            rank,
            svg_top(prev.len() as int),
            orders_in(next),
        )
}

/// Breeds the next generation from `perms`, ranked best first by `rank`:
/// the two best pass on; every other child crosses a parent among the
/// `top` best with one from the whole population and is mutated with
/// chance 1 in 5.
fn breed_svg(rng: &mut ThreadRng, perms: &Vec<Vec<usize>>, rank: &Vec<usize>, top: usize, n: usize) -> (next: Vec<
    Vec<usize>,
>)
    requires
        perms@.len() >= 1,
        rank@.len() == perms@.len(),
        1 <= top <= perms@.len(),
        n > 0,
        forall|i: int| 0 <= i < rank@.len() ==> (#[trigger] rank@[i]) < perms@.len(),
        all_perms(perms@, n as int),
    ensures
        all_perms(next@, n as int),
        svg_generation(crate::search::orders_of(perms@), rank@, top as int, crate::search::orders_of(next@)),
{
    let m = perms.len();
    let ghost prev = crate::search::orders_of(perms@);
    let ghost start: int = if m > 1 { 2 } else { 1 };
    let mut next: Vec<Vec<usize>> = Vec::new();
    next.push(copy_order(&perms[rank[0]]));
    if m > 1 {
        next.push(copy_order(&perms[rank[1]]));
    }
    while next.len() < m
        invariant
            m == perms@.len(),
            m == rank@.len(),
            prev == crate::search::orders_of(perms@),
            start == (if m > 1 { 2int } else { 1int }),
            n > 0,
            1 <= top <= m,
            forall|i: int| 0 <= i < rank@.len() ==> (#[trigger] rank@[i]) < m,
            all_perms(perms@, n as int),
            start <= next@.len() <= m,
            next@[0]@ == prev[rank@[0] as int],
            m > 1 ==> next@[1]@ == prev[rank@[1] as int],
            all_perms(next@, n as int),
            forall|t: int| start <= t < next@.len() ==> svg_parents(prev, rank@, top as int, (#[trigger] next@[t])@),
        decreases m - next@.len(),
    {
        let i1 = below(rng, top);
        let i2 = below(rng, m);
        let p1 = &perms[rank[i1]];
        let p2 = &perms[rank[i2]];
        assert(p1@ == prev[rank@[i1 as int] as int]);
        assert(p2@ == prev[rank@[i2 as int] as int]);
        let mut child = random_crossover(rng, p1, p2);
        let ghost x = child@;
        if chance(rng, 1, 5) {
            child = mutate_svgnest(rng, &child);
        }
        assert(svg_child(prev[rank@[i1 as int] as int], prev[rank@[i2 as int] as int], child@));
        let ghost n0 = next@;
        next.push(child);
        assert forall|t: int| start <= t < next@.len() implies svg_parents(prev, rank@, top as int, (#[trigger] next@[t])@) by {
            if t < n0.len() {
                assert(next@[t] == n0[t]);
            }
        }
        assert forall|i: int| 0 <= i < next@.len() implies is_perm_of_range((#[trigger] next@[i])@, n as int) by {
            if i < n0.len() {
                assert(next@[i] == n0[i]);
            }
        }
    }
    let ghost nx = crate::search::orders_of(next@);
    assert(nx[0] == next@[0]@);
    assert forall|t: int| start <= t < m implies svg_parents(prev, rank@, top as int, #[trigger] nx[t]) by {
        assert(nx[t] == next@[t]@);
    }
    next
}

/// The number of best orders that may be chosen as first parents: three
/// tenths of the population, rounded down, and at least one.
pub open spec fn elite_size(pop_size: int) -> int {
    if 3 * pop_size / 10 < 1 {
        1
    } else {
        3 * pop_size / 10
    }
}

/// The SVGNest-style search: a population of `pop_size` orders, the first
/// largest shape first and the others random, evolves for `generations`
/// generations. Every order is packed with the collision-based packer and
/// keyed by `score`, a lower key being better. The two best orders pass on
/// unchanged; every other child is bred from a parent among the best
/// `elite_size(pop_size)` and one from the whole population, and is mutated
/// with chance 1 in 5. Every third generation, `progress` gets the
/// generation, the number of generations, the best key and the history so
/// far. Returns the best packing found, the best key before the first
/// generation and after each, and the orders evaluated in each generation
/// with their keys.
#[verifier::spinoff_prover]
#[verifier::rlimit(60)]
pub fn pack_svgnest<
    F: Fn(&Vec<Placement>, i64, i64, i64, i64) -> bool,
    S: Fn(&Vec<Board>) -> u64,
    P: Fn(usize, usize, u64, &Vec<u64>),
>(
    items: &[Shape],
    bw: i64,
    bh: i64,
    kerf: i64,
    allow_rotate: bool,
    pop_size: usize,
    generations: usize,
    collides: &F,
    score: &S,
    progress: &P,
) -> (r: (PackResult, Vec<u64>, Ghost<Seq<Seq<(Seq<usize>, u64)>>>))
    requires
        pos_len_ok(bw as int),
        pos_len_ok(bh as int),
        len_ok(kerf as int),
        all_sized(items@),
        items@.len() > 0 ==> pop_size >= 1,
        test_callable(*collides),
        score_callable(*score),
        key_progress_callable(*progress),
    ensures
        items@.len() == 0 ==> r.0.boards@.len() == 0 && r.0.unfittable@.len() == 0 && r.1@.len() == 0,
        items@.len() > 0 ==> exists|order: Seq<usize>|
            is_perm_of_range(order, items@.len() as int) && #[trigger] nfp_packed(
                *collides,
                permuted(items@, order),
                bw,
                bh,
                kerf,
                allow_rotate,
                board_views(r.0.boards@),
                r.0.unfittable@,
            ),
        items@.len() > 0 ==> key_history_ok(r.1@, generations + 1),
        items@.len() > 0 ==> score.ensures((&r.0.boards,), r.1@.last()),
        items@.len() > 0 ==> exists|order: Seq<usize>, first: PackResult, key: u64|
            #![trigger nfp_packed(*collides, permuted(items@, order), bw, bh, kerf, allow_rotate, board_views(first.boards@), first.unfittable@), score.ensures((&first.boards,), key)]
            is_area_order(items@, order) && nfp_packed(
                *collides,
                permuted(items@, order),
                bw,
                bh,
                kerf,
                allow_rotate,
                board_views(first.boards@),
                first.unfittable@,
            ) && score.ensures((&first.boards,), key) && r.1@.last() <= key,
        items@.len() > 0 ==> key_trace(*collides, *score, items@, bw, bh, kerf, allow_rotate, r.2@, r.1@),
        items@.len() > 0 ==> is_area_order(items@, r.2@[0][0].0),
        items@.len() > 0 ==> forall|g: int| 0 <= g < r.2@.len() ==> (#[trigger] r.2@[g]).len() == pop_size,
        items@.len() > 0 ==> r.1@[0] <= r.2@[0][0].1,
        items@.len() > 0 ==> forall|g: int| 0 < g < r.2@.len() ==> svg_step(r.2@[g - 1], #[trigger] r.2@[g]),
{
    let n = items.len();
    if n == 0 {
        return (PackResult { boards: Vec::new(), unfittable: Vec::new() }, Vec::new(), Ghost(Seq::empty()));
    }
    let mut rng = new_rng();
    let area_sorted = area_order(items);
    let ghost area = area_sorted@;
    let mut perms: Vec<Vec<usize>> = Vec::new();
    perms.push(area_sorted);
    while perms.len() < pop_size
        invariant
            n == items@.len(),
            1 <= perms@.len() <= pop_size,
            perms@[0]@ == area,
            is_area_order(items@, area),
            all_perms(perms@, n as int),
        decreases pop_size - perms@.len(),
    {
        let p = random_order(&mut rng, n);
        perms.push(p);
    }
    let (mut results, mut keys) = evaluate_all_nfp(items, &perms, bw, bh, kerf, allow_rotate, collides, score);
    let mut rank = rank_by_key(&keys);
    let ghost first = results@[0];
    let ghost first_key = keys@[0];
    let ghost mut best_order = perms@[rank@[0] as int]@;
    let mut best_key = keys[rank[0]];
    proof {
        crate::order::lemma_perm_covers(rank@, keys@.len() as int, 0);
        let a = choose|a: int| 0 <= a < rank@.len() && rank@[a] == 0;
        if a > 0 {
            assert(keys@[rank@[0] as int] <= keys@[rank@[a] as int]);
        }
        assert(best_key <= first_key);
    }
    let ghost mut evals: Seq<Seq<(Seq<usize>, u64)>> = Seq::empty();
    proof {
        lemma_keyed_population(*collides, *score, items@, perms@, results@, keys@, rank@, bw, bh, kerf, allow_rotate);
        lemma_key_trace_push(*collides, *score, items@, bw, bh, kerf, allow_rotate, evals, Seq::empty(), keyed_pop(perms@, keys@), rank@[0] as int);
        evals = evals.push(keyed_pop(perms@, keys@));
        assert(evals[0][0] == keyed_pop(perms@, keys@)[0]);
    }
    let mut best_res = results.swap_remove(rank[0]);
    let mut history: Vec<u64> = Vec::new();
    history.push(best_key);
    assert(history@ =~= Seq::<u64>::empty().push(best_key));
    let m = perms.len();
    let e = if pop_size / 10 * 3 + pop_size % 10 * 3 / 10 < 1 {
        1
    } else {
        pop_size / 10 * 3 + pop_size % 10 * 3 / 10
    };
    assert(e == elite_size(pop_size as int));
    let top = if e < m {
        e
    } else {
        m
    };
    assert(top as int == svg_top(m as int));
    for g in 0..generations
        invariant
            n == items@.len(),
            n > 0,
            pos_len_ok(bw as int),
            pos_len_ok(bh as int),
            len_ok(kerf as int),
            all_sized(items@),
            test_callable(*collides),
            score_callable(*score),
            key_progress_callable(*progress),
            m == pop_size,
            m >= 1,
            1 <= top <= m,
            perms@.len() == m,
            keys@.len() == m,
            all_perms(perms@, n as int),
            key_ranked(keys@, rank@),
            is_area_order(items@, area),
            nfp_packed(*collides, permuted(items@, area), bw, bh, kerf, allow_rotate, board_views(first.boards@), first.unfittable@),
            score.ensures((&first.boards,), first_key),
            is_perm_of_range(best_order, n as int),
            nfp_packed(
                *collides,
                permuted(items@, best_order),
                bw,
                bh,
                kerf,
                allow_rotate,
                board_views(best_res.boards@),
                best_res.unfittable@,
            ),
            score.ensures((&best_res.boards,), best_key),
            key_history_ok(history@, g + 1),
            history@.last() == best_key,
            history@[0] <= first_key,
            key_trace(*collides, *score, items@, bw, bh, kerf, allow_rotate, evals, history@),
            evals[0][0] == (area, first_key),
            forall|h: int| 0 <= h < evals.len() ==> (#[trigger] evals[h]).len() == m,
            top as int == svg_top(m as int),
            evals.last() == keyed_pop(perms@, keys@),
            forall|h: int| 0 < h < evals.len() ==> svg_step(evals[h - 1], #[trigger] evals[h]),
    {
        if g % 3 == 0 {
            progress(g, generations, best_key, &history);
        }
        let ghost prev = keyed_pop(perms@, keys@);
        let ghost prank = rank@;
        proof {
            assert forall|i: int| 0 <= i < rank@.len() implies (#[trigger] rank@[i]) < perms@.len() by {}
            assert(orders_in(prev) =~= crate::search::orders_of(perms@));
            assert(keys_in(prev) =~= keys@);
        }
        let next = breed_svg(&mut rng, &perms, &rank, top, n);
        let (results2, keys2) = evaluate_all_nfp(items, &next, bw, bh, kerf, allow_rotate, collides, score);
        perms = next;
        results = results2;
        keys = keys2;
        rank = rank_by_key(&keys);
        let ghost h0 = history@;
        let ghost e0 = evals;
        proof {
            lemma_keyed_population(*collides, *score, items@, perms@, results@, keys@, rank@, bw, bh, kerf, allow_rotate);
            lemma_key_trace_push(*collides, *score, items@, bw, bh, kerf, allow_rotate, evals, history@, keyed_pop(perms@, keys@), rank@[0] as int);
            evals = evals.push(keyed_pop(perms@, keys@));
        }
        if keys[rank[0]] < best_key {
            best_key = keys[rank[0]];
            proof {
                best_order = perms@[rank@[0] as int]@;
            }
            best_res = results.swap_remove(rank[0]);
        }
        history.push(best_key);
        proof {
            assert(history@[0] == h0[0]);
            assert(evals[0] == e0[0]);
            assert forall|h: int| 0 <= h < evals.len() implies (#[trigger] evals[h]).len() == m by {
                if h < e0.len() {
                    assert(evals[h] == e0[h]);
                }
            }
            let nxt = evals[e0.len() as int];
            assert(orders_in(nxt) =~= crate::search::orders_of(perms@));
            assert(svg_top(prev.len() as int) == top as int);
            assert(key_ranked(keys_in(prev), prank));
            assert(svg_generation(orders_in(prev), prank, svg_top(prev.len() as int), orders_in(nxt)));
            assert forall|h: int| 0 < h < evals.len() implies svg_step(evals[h - 1], #[trigger] evals[h]) by {
                if h < e0.len() {
                    assert(evals[h] == e0[h] && evals[h - 1] == e0[h - 1]);
                } else {
                    assert(evals[h - 1] == prev);
                }
            }
            assert forall|i: int, j: int| 0 <= i <= j < history@.len() implies #[trigger] history@[j] <= #[trigger] history@[i] by {
                if j < h0.len() {
                    assert(history@[j] == h0[j] && history@[i] == h0[i]);
                } else if i < h0.len() {
                    assert(history@[i] == h0[i]);
                    assert(h0[h0.len() - 1] <= h0[i]);
                }
            }
        }
    }
    proof {
        let h = history@;
        assert(h[h.len() - 1] <= h[0]);
    }
    let r = (best_res, history, Ghost(evals));
    assert(nfp_packed(
        *collides,
        permuted(items@, best_order),
        bw,
        bh,
        kerf,
        allow_rotate,
        board_views(r.0.boards@),
        r.0.unfittable@,
    ));
    r
}

} // verus!
