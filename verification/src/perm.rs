//! Orders of the shapes, as permutations of their indices, and the moves
//! that the search packers make on them.

use vstd::prelude::*;
use rand::rngs::ThreadRng;
use crate::order::is_perm_of_range;
use crate::random::{below, chance, shuffle};

verus! {

/// The indices `0, 1, ..., n - 1` in order.
pub open spec fn range_seq(n: int) -> Seq<usize> {
    Seq::new(n as nat, |i: int| i as usize)
}

/// The indices `0, 1, ..., n - 1` in order.
pub fn identity_order(n: usize) -> (v: Vec<usize>)
    ensures
        v@ == range_seq(n as int),
        is_perm_of_range(v@, n as int),
{
    let mut v: Vec<usize> = Vec::new();
    for i in 0..n
        invariant
            v@ == range_seq(i as int),
    {
        v.push(i);
        assert(v@ =~= range_seq(i + 1));
    }
    v
}

/// A sequence with the same elements as `0, 1, ..., n - 1` lists each index
/// below `n` exactly once.
pub proof fn lemma_perm_of_multiset(v: Seq<usize>, n: int)
    requires
        0 <= n <= usize::MAX,
        v.to_multiset() == range_seq(n).to_multiset(),
    ensures
        is_perm_of_range(v, n),
{
    broadcast use vstd::seq_lib::group_to_multiset_ensures;
    let r = range_seq(n);
    assert(r.no_duplicates());
    r.lemma_multiset_has_no_duplicates();
    v.lemma_multiset_has_no_duplicates_conv();
    assert(v.to_multiset().len() == r.to_multiset().len());
    assert forall|a: int| 0 <= a < v.len() implies (#[trigger] v[a]) < n by {
        assert(v.contains(v[a]));
        assert(v.to_multiset().count(v[a]) > 0);
        assert(r.to_multiset().count(v[a]) > 0);
        assert(r.contains(v[a]));
    }
}

/// The indices `0..n` in a random order.
pub fn random_order(rng: &mut ThreadRng, n: usize) -> (v: Vec<usize>)
    ensures
        is_perm_of_range(v@, n as int),
{
    let mut v = identity_order(n);
    shuffle(rng, &mut v);
    proof {
        lemma_perm_of_multiset(v@, n as int);
    }
    v
}

/// `v` with the elements at `a` and `b` exchanged.
pub open spec fn swapped(v: Seq<usize>, a: int, b: int) -> Seq<usize> {
    v.update(a, v[b]).update(b, v[a])
}

/// `r` is one move away from `p`: `p` with two elements exchanged, or with
/// a stretch reversed.
pub open spec fn is_neighbour(p: Seq<usize>, r: Seq<usize>) -> bool {
    exists|a: int, b: int|
        0 <= a < p.len() && 0 <= b < p.len() && (r == #[trigger] swapped(p, a, b) || r == reversed_between(
            p,
            if a <= b { a } else { b },
            if a <= b { b } else { a },
        ))
}

/// `c` is the order crossover of `p1` and `p2`: a stretch of `p1`, cyclic
/// from some position, kept in place, and the other places filled with
/// the rest in the order of `p2`; for an order of at most one element,
/// `p1` itself.
pub open spec fn crossed(p1: Seq<usize>, p2: Seq<usize>, c: Seq<usize>) -> bool {
    if p1.len() <= 1 {
        c == p1
    } else {
        exists|a: int, len: int| 0 <= a < p1.len() && 1 <= len <= p1.len() && c == #[trigger] crossover_spec(p1, p2, a, len)
    }
}

/// `r` is `p` after one or two exchanges of two elements.
pub open spec fn exchanged(p: Seq<usize>, r: Seq<usize>) -> bool {
    exists|a1: int, b1: int, a2: int, b2: int|
        #![trigger swapped(swapped(p, a1, b1), a2, b2)]
        0 <= a1 < p.len() && 0 <= b1 < p.len() && 0 <= a2 < p.len() && 0 <= b2 < p.len() && (r == swapped(p, a1, b1)
            || r == swapped(swapped(p, a1, b1), a2, b2))
}

/// Exchanges the elements at positions `a` and `b`.
pub fn swap_at(v: &mut Vec<usize>, a: usize, b: usize)
    requires
        a < old(v)@.len(),
        b < old(v)@.len(),
    ensures
        final(v)@ == swapped(old(v)@, a as int, b as int),
{
    let x = v[a];
    let y = v[b];
    v.set(a, y);
    v.set(b, x);
}

/// Exchanging two elements of a permutation gives a permutation.
pub proof fn lemma_swapped_perm(v: Seq<usize>, n: int, a: int, b: int)
    requires
        is_perm_of_range(v, n),
        0 <= a < n,
        0 <= b < n,
    ensures
        is_perm_of_range(swapped(v, a, b), n),
{
    let w = swapped(v, a, b);
    assert forall|t: int| 0 <= t < w.len() implies #[trigger] w[t] == v[if t == b { a } else if t == a { b } else { t }] by {}
    assert forall|s: int, t: int| 0 <= s < w.len() && 0 <= t < w.len() && s != t implies w[s] != w[t] by {
        let ss = if s == b { a } else if s == a { b } else { s };
        let tt = if t == b { a } else if t == a { b } else { t };
        assert(v[ss] != v[tt]);
    }
}

/// `v` with the stretch `lo..=hi` in reverse order.
pub open spec fn reversed_between(v: Seq<usize>, lo: int, hi: int) -> Seq<usize> {
    Seq::new(v.len(), |t: int| if lo <= t <= hi { v[lo + hi - t] } else { v[t] })
}

/// Reverses the stretch `lo..=hi` of `v`.
pub fn reverse_between(v: &mut Vec<usize>, lo: usize, hi: usize)
    requires
        lo <= hi < old(v)@.len(),
    ensures
        final(v)@ == reversed_between(old(v)@, lo as int, hi as int),
{
    let ghost v0 = v@;
    let mut i = lo;
    let mut j = hi;
    while i < j
        invariant
            lo <= i,
            j <= hi,
            hi < v0.len(),
            i + j == lo + hi,
            i <= j + 1,
            v@.len() == v0.len(),
            forall|t: int|
                0 <= t < v0.len() ==> #[trigger] v@[t] == if (lo <= t < i) || (j < t <= hi) {
                    v0[lo + hi - t]
                } else {
                    v0[t]
                },
        decreases j + 1 - i,
    {
        swap_at(v, i, j);
        i = i + 1;
        j = j - 1;
    }
    assert(v@ =~= reversed_between(v0, lo as int, hi as int));
}

/// Reversing a stretch of a permutation gives a permutation.
pub proof fn lemma_reversed_perm(v: Seq<usize>, n: int, lo: int, hi: int)
    requires
        is_perm_of_range(v, n),
        0 <= lo <= hi < n,
    ensures
        is_perm_of_range(reversed_between(v, lo, hi), n),
{
    let w = reversed_between(v, lo, hi);
    assert forall|t: int| 0 <= t < w.len() implies #[trigger] w[t] == v[if lo <= t <= hi { lo + hi - t } else { t }] by {}
    assert forall|s: int, t: int| 0 <= s < w.len() && 0 <= t < w.len() && s != t implies w[s] != w[t] by {
        let ss = if lo <= s <= hi { lo + hi - s } else { s };
        let tt = if lo <= t <= hi { lo + hi - t } else { t };
        assert(v[ss] != v[tt]);
    }
}

/// A copy of an order.
pub fn copy_order(v: &Vec<usize>) -> (r: Vec<usize>)
    ensures
        r@ == v@,
{
    let mut r: Vec<usize> = Vec::new();
    let n = v.len();
    for i in 0..n
        invariant
            n == v@.len(),
            r@ == v@.take(i as int),
    {
        r.push(v[i]);
        assert(r@ =~= v@.take(i + 1));
    }
    assert(v@.take(n as int) =~= v@);
    r
}

/// The position `k` steps after `a` on a cycle of `n` positions.
pub open spec fn cyc(a: int, k: int, n: int) -> int {
    if a + k < n {
        a + k
    } else {
        a + k - n
    }
}

/// How many steps position `q` lies after `a` on a cycle of `n` positions.
pub open spec fn steps_from(a: int, q: int, n: int) -> int {
    if q >= a {
        q - a
    } else {
        q + n - a
    }
}

/// The elements of `p1` at the `len` positions from `a` on, going round
/// the end back to the start.
pub open spec fn segment(p1: Seq<usize>, a: int, len: int) -> Seq<usize> {
    Seq::new(len as nat, |k: int| p1[cyc(a, k, p1.len() as int)])
}

/// Not one of the elements of `seg`.
pub open spec fn outside(seg: Seq<usize>) -> spec_fn(usize) -> bool {
    |x: usize| !seg.contains(x)
}

/// One of the elements of `seg`.
pub open spec fn inside(seg: Seq<usize>) -> spec_fn(usize) -> bool {
    |x: usize| seg.contains(x)
}

/// The elements of `p2` that the segment of `p1` does not hold, in the
/// order of `p2`.
pub open spec fn rest(p1: Seq<usize>, p2: Seq<usize>, a: int, len: int) -> Seq<usize> {
    p2.filter(outside(segment(p1, a, len)))
}

/// Order crossover: the child keeps `p1`'s elements at the `len` positions
/// from `a` on (cyclically), and fills the positions after them, going
/// round, with the other elements in the order that `p2` has them.
pub open spec fn crossover_spec(p1: Seq<usize>, p2: Seq<usize>, a: int, len: int) -> Seq<usize> {
    Seq::new(
        p1.len(),
        |q: int|
            {
                let k = steps_from(a, q, p1.len() as int);
                if k < len {
                    p1[q]
                } else {
                    rest(p1, p2, a, len)[k - len]
                }
            },
    )
}

/// Keeping only some elements of a sequence without repeats leaves a
/// sequence without repeats.
pub proof fn lemma_filter_no_dup<A>(s: Seq<A>, p: spec_fn(A) -> bool)
    requires
        s.no_duplicates(),
    ensures
        s.filter(p).no_duplicates(),
    decreases s.len(),
{
    if s.len() > 0 {
        let init = s.drop_last();
        let x = s.last();
        assert(init.no_duplicates());
        lemma_filter_no_dup(init, p);
        assert(init.push(x) =~= s);
        init.lemma_filter_push(x, p);
        if p(x) {
            let f = init.filter(p);
            if f.contains(x) {
                init.lemma_filter_contains_rev(p, x);
                let i = choose|i: int| 0 <= i < init.len() && init[i] == x;
                assert(s[i] == s[s.len() - 1]);
            }
            let g = f.push(x);
            assert forall|i: int, j: int| 0 <= i < g.len() && 0 <= j < g.len() && i != j implies g[i] != g[j] by {
                if i == f.len() {
                    assert(f.contains(f[j]));
                } else if j == f.len() {
                    assert(f.contains(f[i]));
                }
            }
        }
    }
}

/// The elements that meet a predicate and those that meet its negation
/// together are as many as the sequence.
pub proof fn lemma_filter_split_len<A>(s: Seq<A>, p: spec_fn(A) -> bool, q: spec_fn(A) -> bool)
    requires
        forall|x: A| #[trigger] q(x) == !p(x),
    ensures
        s.filter(p).len() + s.filter(q).len() == s.len(),
    decreases s.len(),
{
    broadcast use Seq::lemma_filter_push;
    if s.len() > 0 {
        lemma_filter_split_len(s.drop_last(), p, q);
        assert(s.drop_last().push(s.last()) =~= s);
    }
}

/// The segment lists `len` distinct elements, and what is left of `p2`
/// when they are taken out is at least `n - len` long and has no repeats.
proof fn lemma_rest_len(p1: Seq<usize>, p2: Seq<usize>, n: int, a: int, len: int)
    requires
        is_perm_of_range(p1, n),
        is_perm_of_range(p2, n),
        0 <= a < n,
        0 <= len <= n,
    ensures
        segment(p1, a, len).no_duplicates(),
        rest(p1, p2, a, len).no_duplicates(),
        rest(p1, p2, a, len).len() >= n - len,
{
    let seg = segment(p1, a, len);
    assert forall|i: int, j: int| 0 <= i < seg.len() && 0 <= j < seg.len() && i != j implies seg[i] != seg[j] by {
        assert(p1[cyc(a, i, n)] != p1[cyc(a, j, n)]);
    }
    assert(p2.no_duplicates());
    lemma_filter_no_dup(p2, outside(seg));
    lemma_filter_no_dup(p2, inside(seg));
    let f = p2.filter(inside(seg));
    assert(f.to_set().subset_of(seg.to_set())) by {
        assert forall|x: usize| f.to_set().contains(x) implies seg.to_set().contains(x) by {
            assert(f.contains(x));
            let i = choose|i: int| 0 <= i < f.len() && f[i] == x;
            p2.lemma_filter_pred(inside(seg), i);
        }
    }
    seg.unique_seq_to_set();
    f.unique_seq_to_set();
    vstd::set_lib::lemma_len_subset(f.to_set(), seg.to_set());
    lemma_filter_split_len(p2, inside(seg), outside(seg));
}

/// Order crossover of two permutations gives a permutation.
pub proof fn lemma_crossover_perm(p1: Seq<usize>, p2: Seq<usize>, n: int, a: int, len: int)
    requires
        is_perm_of_range(p1, n),
        is_perm_of_range(p2, n),
        0 <= a < n,
        0 <= len <= n,
    ensures
        is_perm_of_range(crossover_spec(p1, p2, a, len), n),
{
    lemma_rest_len(p1, p2, n, a, len);
    let c = crossover_spec(p1, p2, a, len);
    let seg = segment(p1, a, len);
    let r = rest(p1, p2, a, len);
    assert forall|q: int| 0 <= q < n implies (#[trigger] c[q]) < n && (steps_from(a, q, n) < len ==> seg.contains(c[q]))
        && (steps_from(a, q, n) >= len ==> !seg.contains(c[q])) by {
        let k = steps_from(a, q, n);
        if k < len {
            assert(seg[k] == p1[q]);
        } else {
            let j = k - len;
            assert(r.contains(r[j]));
            p2.lemma_filter_contains_rev(outside(seg), r[j]);
            p2.lemma_filter_pred(outside(seg), j);
        }
    }
    assert forall|s: int, t: int| 0 <= s < c.len() && 0 <= t < c.len() && s != t implies c[s] != c[t] by {
        let ks = steps_from(a, s, n);
        let kt = steps_from(a, t, n);
        if ks < len && kt < len {
            assert(p1[s] != p1[t]);
        } else if ks >= len && kt >= len {
            assert(r[ks - len] != r[kt - len]);
        }
    }
}

/// The order crossover child of `p1` and `p2` for the segment of `len`
/// positions from `a` on.
pub fn crossover(p1: &Vec<usize>, p2: &Vec<usize>, a: usize, len: usize) -> (c: Vec<usize>)
    requires
        is_perm_of_range(p1@, p1@.len() as int),
        is_perm_of_range(p2@, p1@.len() as int),
        a < p1@.len(),
        len <= p1@.len(),
    ensures
        c@ == crossover_spec(p1@, p2@, a as int, len as int),
        is_perm_of_range(c@, p1@.len() as int),
{
    let n = p1.len();
    let ghost seg = segment(p1@, a as int, len as int);
    proof {
        lemma_rest_len(p1@, p2@, n as int, a as int, len as int);
        lemma_crossover_perm(p1@, p2@, n as int, a as int, len as int);
    }
    let mut mark: Vec<bool> = Vec::new();
    for v in 0..n
        invariant
            mark@.len() == v,
            forall|t: int| 0 <= t < v ==> !(#[trigger] mark@[t]),
    {
        mark.push(false);
    }
    assert(seg.take(0) =~= Seq::<usize>::empty());
    for k in 0..len
        invariant
            n == p1@.len(),
            a < n,
            len <= n,
            is_perm_of_range(p1@, n as int),
            seg == segment(p1@, a as int, len as int),
            mark@.len() == n,
            forall|x: int| 0 <= x < n ==> #[trigger] mark@[x] == seg.take(k as int).contains(x as usize),
    {
        let q = if k < n - a {
            a + k
        } else {
            k - (n - a)
        };
        let x = p1[q];
        let ghost m0 = mark@;
        mark.set(x, true);
        assert(seg.take(k + 1) =~= seg.take(k as int).push(x));
        assert forall|y: int| 0 <= y < n implies #[trigger] mark@[y] == seg.take(k + 1).contains(y as usize) by {
            broadcast use vstd::seq_lib::group_seq_properties;
            assert(seg.take(k + 1).contains(y as usize) == (seg.take(k as int).contains(y as usize) || y as usize == x));
            if y == x as int {
            } else {
                assert(mark@[y] == m0[y]);
            }
        }
    }
    assert(seg.take(len as int) =~= seg);
    let ghost pred = outside(seg);
    let mut rem: Vec<usize> = Vec::new();
    for i in 0..n
        invariant
            n == p1@.len(),
            is_perm_of_range(p2@, n as int),
            mark@.len() == n,
            forall|x: int| 0 <= x < n ==> #[trigger] mark@[x] == seg.contains(x as usize),
            pred == outside(seg),
            rem@ == p2@.take(i as int).filter(pred),
    {
        let x = p2[i];
        assert(p2@.take(i + 1) =~= p2@.take(i as int).push(x));
        proof {
            p2@.take(i as int).lemma_filter_push(x, pred);
        }
        assert(mark@[x as int] == seg.contains(x));
        if !mark[x] {
            rem.push(x);
        }
    }
    assert(p2@.take(n as int) =~= p2@);
    let mut c: Vec<usize> = Vec::new();
    for q in 0..n
        invariant
            n == p1@.len(),
            a < n,
            len <= n,
            rem@ == rest(p1@, p2@, a as int, len as int),
            rem@.len() >= n - len,
            c@ == crossover_spec(p1@, p2@, a as int, len as int).take(q as int),
    {
        let k = if q >= a {
            q - a
        } else {
            q + (n - a)
        };
        if k < len {
            c.push(p1[q]);
        } else {
            c.push(rem[k - len]);
        }
        assert(c@ =~= crossover_spec(p1@, p2@, a as int, len as int).take(q + 1));
    }
    assert(c@ =~= crossover_spec(p1@, p2@, a as int, len as int));
    c
}

/// Order crossover at a random segment: for one element or none, a copy of
/// `p1`.
pub fn random_crossover(rng: &mut ThreadRng, p1: &Vec<usize>, p2: &Vec<usize>) -> (c: Vec<usize>)
    requires
        is_perm_of_range(p1@, p1@.len() as int),
        is_perm_of_range(p2@, p1@.len() as int),
    ensures
        is_perm_of_range(c@, p1@.len() as int),
        crossed(p1@, p2@, c@),
{
    let n = p1.len();
    if n <= 1 {
        return copy_order(p1);
    }
    let a = below(rng, n);
    let len = 1 + below(rng, n);
    crossover(p1, p2, a, len)
}

/// One or two random exchanges of elements.
pub fn mutate(rng: &mut ThreadRng, p: &Vec<usize>) -> (r: Vec<usize>)
    requires
        p@.len() > 0,
        is_perm_of_range(p@, p@.len() as int),
    ensures
        is_perm_of_range(r@, p@.len() as int),
        exchanged(p@, r@),
{
    let n = p.len();
    let mut q = copy_order(p);
    let count = 1 + below(rng, 2);
    let a1 = below(rng, n);
    let b1 = below(rng, n);
    swap_at(&mut q, a1, b1);
    proof {
        lemma_swapped_perm(p@, n as int, a1 as int, b1 as int);
    }
    if count == 2 {
        let a2 = below(rng, n);
        let b2 = below(rng, n);
        let ghost q1 = q@;
        swap_at(&mut q, a2, b2);
        proof {
            lemma_swapped_perm(q1, n as int, a2 as int, b2 as int);
            assert(q@ == swapped(swapped(p@, a1 as int, b1 as int), a2 as int, b2 as int));
        }
    } else {
        assert(q@ == swapped(p@, a1 as int, b1 as int));
        // One exchange only: any second pair serves as the unused witness.
        assert(swapped(swapped(p@, a1 as int, b1 as int), 0, 0) == swapped(swapped(p@, a1 as int, b1 as int), 0, 0));
    }
    q
}

/// A random move of the annealer: with chance 7 in 10 the exchange of two
/// random elements, else the reversal of the stretch between two random
/// positions.
pub fn neighbour(rng: &mut ThreadRng, p: &Vec<usize>) -> (r: Vec<usize>)
    requires
        p@.len() > 0,
        is_perm_of_range(p@, p@.len() as int),
    ensures
        is_perm_of_range(r@, p@.len() as int),
        is_neighbour(p@, r@),
{
    let n = p.len();
    let mut q = copy_order(p);
    if chance(rng, 7, 10) {
        let a = below(rng, n);
        let b = below(rng, n);
        swap_at(&mut q, a, b);
        proof {
            lemma_swapped_perm(p@, n as int, a as int, b as int);
        }
    } else {
        let a = below(rng, n);
        let b = below(rng, n);
        let lo = if a <= b { a } else { b };
        let hi = if a <= b { b } else { a };
        reverse_between(&mut q, lo, hi);
        proof {
            lemma_reversed_perm(p@, n as int, lo as int, hi as int);
            // The exchange of the same two positions is the other move
            // that the contract allows; naming it gives the witness.
            assert(swapped(p@, a as int, b as int) == swapped(p@, a as int, b as int));
        }
    }
    q
}

} // verus!
