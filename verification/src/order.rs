//! Ordering shapes by area, largest first; shapes of equal area keep their
//! relative order.

use vstd::prelude::*;
use crate::geometry::mul_wide;
use crate::model::{Shape, all_valid};

verus! {

/// The area of a shape.
pub open spec fn area(s: Shape) -> int {
    s.w * s.h
}

/// Shape `i` comes before shape `j`: it is larger, or as large and earlier.
pub open spec fn area_before(shapes: Seq<Shape>, i: int, j: int) -> bool {
    area(shapes[i]) > area(shapes[j]) || (area(shapes[i]) == area(shapes[j]) && i < j)
}

/// `v` lists each of `0..n` exactly once.
pub open spec fn is_perm_of_range(v: Seq<usize>, n: int) -> bool {
    &&& v.len() == n
    &&& forall|a: int| 0 <= a < v.len() ==> (#[trigger] v[a]) < n
    &&& forall|a: int, b: int| 0 <= a < v.len() && 0 <= b < v.len() && a != b ==> v[a] != v[b]
}

/// `order` lists the shapes' indices largest first, ties in input order.
pub open spec fn is_area_order(shapes: Seq<Shape>, order: Seq<usize>) -> bool {
    &&& is_perm_of_range(order, shapes.len() as int)
    &&& forall|a: int, b: int|
        0 <= a < b < order.len() ==> area_before(shapes, #[trigger] order[a] as int, #[trigger] order[b] as int)
}

/// The indices of the shapes, largest area first; shapes of equal area keep
/// their relative order.
pub fn area_order(shapes: &[Shape]) -> (order: Vec<usize>)
    ensures
        is_area_order(shapes@, order@),
{
    let n = shapes.len();
    let mut v: Vec<usize> = Vec::new();
    for i in 0..n
        invariant
            n == shapes@.len(),
            v@.len() == i,
            forall|a: int| 0 <= a < v@.len() ==> (#[trigger] v@[a]) < i,
            forall|a: int, b: int| 0 <= a < v@.len() && 0 <= b < v@.len() && a != b ==> v@[a] != v@[b],
            forall|a: int, b: int|
                0 <= a < b < v@.len() ==> area_before(shapes@, #[trigger] v@[a] as int, #[trigger] v@[b] as int),
    {
        let ai = mul_wide(shapes[i].w, shapes[i].h);
        let mut p: usize = 0;
        while p < v.len() && mul_wide(shapes[v[p]].w, shapes[v[p]].h) >= ai
            invariant
                n == shapes@.len(),
                0 <= i < n,
                0 <= p <= v@.len(),
                v@.len() == i,
                ai == area(shapes@[i as int]),
                forall|a: int| 0 <= a < v@.len() ==> (#[trigger] v@[a]) < i,
                forall|q: int| 0 <= q < p ==> area(shapes@[#[trigger] v@[q] as int]) >= ai,
            decreases v@.len() - p,
        {
            p = p + 1;
        }
        let ghost old_v = v@;
        v.insert(p, i);
        proof {
            assert forall|a: int| 0 <= a < v@.len() implies #[trigger] v@[a] == if a < p {
                old_v[a]
            } else if a == p {
                i
            } else {
                old_v[a - 1]
            } by {}
            assert forall|a: int, b: int|
                0 <= a < b < v@.len() implies area_before(shapes@, #[trigger] v@[a] as int, #[trigger] v@[b] as int) by {
                if b < p {
                    assert(area_before(shapes@, old_v[a] as int, old_v[b] as int));
                } else if b == p {
                    assert(area(shapes@[old_v[a] as int]) >= ai);
                } else if a < p {
                    assert(area_before(shapes@, old_v[a] as int, old_v[b - 1] as int));
                } else if a == p {
                    assert(p < old_v.len());
                    assert(area(shapes@[old_v[p as int] as int]) < ai);
                    if p < b - 1 {
                        assert(area_before(shapes@, old_v[p as int] as int, old_v[b - 1] as int));
                    }
                } else {
                    assert(area_before(shapes@, old_v[a - 1] as int, old_v[b - 1] as int));
                }
            }
        }
    }
    v
}

/// The shapes listed in the order `order`.
pub open spec fn permuted(shapes: Seq<Shape>, order: Seq<usize>) -> Seq<Shape> {
    order.map_values(|k: usize| shapes[k as int])
}

/// The shapes sorted by area, largest first, ties in input order.
pub fn sort_by_area(shapes: &[Shape]) -> (r: Vec<Shape>)
    ensures
        exists|order: Seq<usize>| is_area_order(shapes@, order) && r@ == permuted(shapes@, order),
        r@.to_multiset() =~= shapes@.to_multiset(),
        all_valid(shapes@) ==> all_valid(r@),
{
    let order = area_order(shapes);
    let mut r: Vec<Shape> = Vec::new();
    let n = order.len();
    for i in 0..n
        invariant
            n == order@.len(),
            is_area_order(shapes@, order@),
            r@ == permuted(shapes@, order@.take(i as int)),
    {
        r.push(shapes[order[i]].clone());
        assert(permuted(shapes@, order@.take(i + 1)) =~= permuted(shapes@, order@.take(i as int)).push(
            shapes@[order@[i as int] as int],
        ));
    }
    assert(order@.take(n as int) =~= order@);
    proof {
        lemma_permuted_multiset(shapes@, order@);
        assert forall|i: int| 0 <= i < r@.len() implies r@[i] == shapes@[order@[i] as int] by {}
    }
    r
}

/// A permutation of `0..n` lists every index below `n`.
pub proof fn lemma_perm_covers(v: Seq<usize>, n: int, x: int)
    requires
        is_perm_of_range(v, n),
        0 <= x < n,
    ensures
        exists|a: int| 0 <= a < v.len() && v[a] == x,
{
    let vi = v.map_values(|e: usize| e as int);
    assert(vi.no_duplicates()) by {
        assert forall|a: int, b: int| 0 <= a < vi.len() && 0 <= b < vi.len() && a != b implies vi[a] != vi[b] by {
            assert(v[a] != v[b]);
        }
    }
    vi.unique_seq_to_set();
    let r = vstd::set_lib::set_int_range(0, n);
    vstd::set_lib::lemma_int_range(0, n);
    assert(vi.to_set().subset_of(r)) by {
        assert forall|e: int| vi.to_set().contains(e) implies r.contains(e) by {
            let a = choose|a: int| 0 <= a < vi.len() && vi[a] == e;
            assert(v[a] < n);
        }
    }
    vstd::set_lib::lemma_subset_equality(vi.to_set(), r);
    assert(r.contains(x));
    assert(vi.to_set().contains(x));
    let a = choose|a: int| 0 <= a < vi.len() && vi[a] == x;
    assert(v[a] == x);
}

/// Listing a sequence in the order of a permutation keeps its elements.
pub proof fn lemma_permuted_multiset(shapes: Seq<Shape>, order: Seq<usize>)
    requires
        is_perm_of_range(order, shapes.len() as int),
    ensures
        permuted(shapes, order).to_multiset() =~= shapes.to_multiset(),
    decreases shapes.len(),
{
    broadcast use vstd::seq_lib::group_to_multiset_ensures;
    let n = shapes.len() as int;
    if n > 0 {
        lemma_perm_covers(order, n, n - 1);
        let a = choose|a: int| 0 <= a < order.len() && order[a] == n - 1;
        let o2 = order.remove(a);
        assert forall|t: int| 0 <= t < o2.len() implies #[trigger] o2[t] == order[if t < a { t } else { t + 1 }] by {}
        assert(is_perm_of_range(o2, n - 1)) by {
            assert forall|t: int| 0 <= t < o2.len() implies (#[trigger] o2[t]) < n - 1 by {
                let ot = if t < a { t } else { t + 1 };
                assert(order[ot] != order[a]);
            }
            assert forall|t: int, u: int| 0 <= t < o2.len() && 0 <= u < o2.len() && t != u implies o2[t] != o2[u] by {
                let ot = if t < a { t } else { t + 1 };
                let ou = if u < a { u } else { u + 1 };
                assert(order[ot] != order[ou]);
            }
        }
        let init = shapes.drop_last();
        lemma_permuted_multiset(init, o2);
        let p = permuted(shapes, order);
        assert(p.remove(a) =~= permuted(init, o2)) by {
            assert forall|t: int| 0 <= t < o2.len() implies #[trigger] p.remove(a)[t] == permuted(init, o2)[t] by {
                let ot = if t < a { t } else { t + 1 };
                assert(order[ot] < n - 1) by {
                    assert(order[ot] != order[a]);
                }
            }
        }
        assert(p[a] == shapes.last());
        assert(p.remove(a).to_multiset() =~= p.to_multiset().remove(p[a]));
        assert(init.push(shapes.last()) =~= shapes);
        assert(p.to_multiset().count(p[a]) > 0) by {
            assert(p.contains(p[a]));
        }
        broadcast use vstd::multiset::group_multiset_properties;
        assert(p.to_multiset() =~= p.to_multiset().remove(p[a]).insert(p[a]));
    }
}

/// Two largest-first orders agree on their first `k` positions.
proof fn lemma_area_order_prefix(shapes: Seq<Shape>, o1: Seq<usize>, o2: Seq<usize>, k: int)
    requires
        is_area_order(shapes, o1),
        is_area_order(shapes, o2),
        0 <= k <= o1.len(),
    ensures
        forall|a: int| 0 <= a < k ==> #[trigger] o1[a] == o2[a],
    decreases k,
{
    if k > 0 {
        lemma_area_order_prefix(shapes, o1, o2, k - 1);
        let a = k - 1;
        let x = o1[a];
        let y = o2[a];
        if x != y {
            let n = shapes.len() as int;
            lemma_perm_covers(o2, n, x as int);
            let b = choose|b: int| 0 <= b < o2.len() && o2[b] == x;
            lemma_perm_covers(o1, n, y as int);
            let c = choose|c: int| 0 <= c < o1.len() && o1[c] == y;
            if b < a {
                assert(o1[b] == o2[b]);
                assert(o1[b] != o1[a]);
            }
            if c < a {
                assert(o1[c] == o2[c]);
                assert(o2[c] != o2[a]);
            }
            assert(b > a && c > a);
            assert(area_before(shapes, o2[a] as int, o2[b] as int));
            assert(area_before(shapes, o1[a] as int, o1[c] as int));
            assert(false);
        }
    }
}

/// There is only one largest-first order: shapes of equal area keep their
/// input order, so no two orders both list the shapes largest first.
pub proof fn lemma_area_order_unique(shapes: Seq<Shape>, o1: Seq<usize>, o2: Seq<usize>)
    requires
        is_area_order(shapes, o1),
        is_area_order(shapes, o2),
    ensures
        o1 == o2,
{
    lemma_area_order_prefix(shapes, o1, o2, o1.len() as int);
    assert(o1 =~= o2);
}

} // verus!
