//! The quality of a packing, lower is better: the number of boards used plus
//! the share of their area that is waste. The value is kept as an exact
//! fraction.

use vstd::prelude::*;
use crate::geometry::{pos_len_ok, len_ok, mul_wide, MAX_LEN};
use crate::model::{Placement, Board};
use crate::packing::board_views;

verus! {

/// The score of a packing with no boards at all.
pub const NO_BOARDS_SCORE: u128 = 1_000_000_000;

/// The total area of the pieces on all the boards.
pub open spec fn total_area(bs: Seq<Seq<Placement>>) -> int
    decreases bs.len(),
{
    if bs.len() == 0 {
        0
    } else {
        total_area(bs.drop_last()) + board_area_used(bs.last())
    }
}

/// The total area of the pieces on one board.
pub open spec fn board_area_used(ps: Seq<Placement>) -> int
    decreases ps.len(),
{
    if ps.len() == 0 {
        0
    } else {
        board_area_used(ps.drop_last()) + ps.last().w * ps.last().h
    }
}

/// The number of pieces on all the boards.
pub open spec fn total_count(bs: Seq<Seq<Placement>>) -> int
    decreases bs.len(),
{
    if bs.len() == 0 {
        0
    } else {
        total_count(bs.drop_last()) + bs.last().len()
    }
}

/// A packing's score: `boards + 1 - used / (boards * board_area)`, or
/// `NO_BOARDS_SCORE` when no board is used.
#[derive(Clone, Copy, Debug, PartialEq, Eq, Structural)]
pub struct Fitness {
    pub boards: usize,
    pub used: u128,
    pub board_area: u128,
}

impl Fitness {
    /// The numbers stay in the ranges that packing produces.
    pub open spec fn valid(&self) -> bool {
        &&& 0 < self.board_area <= MAX_LEN * MAX_LEN
        &&& self.used <= 0x4000_0000_0000_0000_0000_0000_0000_0000
    }

    /// The score as a fraction `(numerator, denominator)`.
    pub open spec fn frac(&self) -> (int, int) {
        if self.boards == 0 {
            (NO_BOARDS_SCORE as int, 1)
        } else {
            let d = self.boards * self.board_area;
            ((self.boards + 1) * d - self.used, d)
        }
    }

    /// `self` scores strictly better (lower) than `other`.
    pub open spec fn better(&self, other: &Fitness) -> bool {
        self.frac().0 * other.frac().1 < other.frac().0 * self.frac().1
    }

    /// Whether `self` scores strictly better (lower) than `other`.
    pub fn lt(&self, other: &Fitness) -> (r: bool)
        requires
            self.valid(),
            other.valid(),
        ensures
            r == self.better(other),
    {
        let n1 = self.boards as u128;
        let n2 = other.boards as u128;
        proof {
            lemma_den_pos(*self);
            lemma_den_pos(*other);
        }
        if self.boards == 0 && other.boards == 0 {
            return false;
        }
        if self.boards == 0 {
            let d2 = n2 * other.board_area;
            let q2 = other.used / d2;
            let r2 = other.used % d2;
            proof {
                lemma_empty_vs(other.used as int, d2 as int, n2 as int, q2 as int, r2 as int);
            }
            return NO_BOARDS_SCORE + q2 < n2 + 1;
        }
        if other.boards == 0 {
            let d1 = n1 * self.board_area;
            let q1 = self.used / d1;
            let r1 = self.used % d1;
            proof {
                lemma_vs_empty(self.used as int, d1 as int, n1 as int, q1 as int, r1 as int);
            }
            return n1 + 1 < NO_BOARDS_SCORE + q1 || (n1 + 1 == NO_BOARDS_SCORE + q1 && r1 > 0);
        }
        let d1 = n1 * self.board_area;
        let d2 = n2 * other.board_area;
        let q1 = self.used / d1;
        let r1 = self.used % d1;
        let q2 = other.used / d2;
        let r2 = other.used % d2;
        let i1 = n1 + q2;
        let i2 = n2 + q1;
        proof {
            lemma_mixed(n1 as int, self.used as int, d1 as int, q1 as int, r1 as int, n2 as int, other.used as int, d2 as int, q2 as int, r2 as int);
        }
        if i1 != i2 {
            i1 < i2
        } else {
            frac_lt(r2, d2, r1, d1)
        }
    }
}

/// The denominator of a valid score is positive and fits 128 bits.
proof fn lemma_den_pos(f: Fitness)
    requires
        f.valid(),
    ensures
        f.frac().1 > 0,
        f.boards * f.board_area <= 0x4000_0000_0000_0000_0000_0000_0000_0000,
        f.boards > 0 ==> f.frac().1 == f.boards * f.board_area,
{
    let n = f.boards as int;
    let a = f.board_area as int;
    assert(0 <= n * a <= 0x4000_0000_0000_0000_0000_0000_0000_0000) by (nonlinear_arith)
        requires
            0 <= n <= 0xffff_ffff_ffff_ffff,
            0 < a <= 0x4000_0000_0000_0000,
    ;
    if n > 0 {
        assert(n * a > 0) by (nonlinear_arith)
            requires
                n > 0,
                a > 0,
        ;
    }
}

/// Comparing `NO_BOARDS_SCORE` with `n + 1 - u / d` by whole parts.
proof fn lemma_empty_vs(u: int, d: int, n: int, q: int, r: int)
    requires
        d > 0,
        u >= 0,
        q == u / d,
        r == u % d,
    ensures
        (NO_BOARDS_SCORE * d < (n + 1) * d - u) == (NO_BOARDS_SCORE + q < n + 1),
{
    let c = NO_BOARDS_SCORE as int;
    assert(u == q * d + r && 0 <= r < d) by (nonlinear_arith)
        requires
            d > 0,
            q == u / d,
            r == u % d,
    ;
    assert((c * d < (n + 1) * d - u) == (c + q < n + 1)) by (nonlinear_arith)
        requires
            d > 0,
            u == q * d + r,
            0 <= r < d,
    ;
}

/// Comparing `n + 1 - u / d` with `NO_BOARDS_SCORE` by whole parts.
proof fn lemma_vs_empty(u: int, d: int, n: int, q: int, r: int)
    requires
        d > 0,
        u >= 0,
        q == u / d,
        r == u % d,
    ensures
        (((n + 1) * d - u) * 1 < NO_BOARDS_SCORE * d) == (n + 1 < NO_BOARDS_SCORE + q || (n + 1 == NO_BOARDS_SCORE + q
            && r > 0)),
{
    let c = NO_BOARDS_SCORE as int;
    assert(u == q * d + r && 0 <= r < d) by (nonlinear_arith)
        requires
            d > 0,
            q == u / d,
            r == u % d,
    ;
    let e = n + 1 - c - q;
    assert(((n + 1) * d - u < c * d) == (e * d < r)) by (nonlinear_arith)
        requires
            u == q * d + r,
            e == n + 1 - c - q,
    ;
    assert((e * d < r) == (e < 0 || (e == 0 && r > 0))) by (nonlinear_arith)
        requires
            d > 0,
            0 <= r < d,
    ;
}

/// Comparing `n1 + 1 - u1 / d1` with `n2 + 1 - u2 / d2` by whole parts, then
/// by the remainders.
proof fn lemma_mixed(n1: int, u1: int, d1: int, q1: int, r1: int, n2: int, u2: int, d2: int, q2: int, r2: int)
    requires
        d1 > 0,
        d2 > 0,
        u1 >= 0,
        u2 >= 0,
        q1 == u1 / d1,
        r1 == u1 % d1,
        q2 == u2 / d2,
        r2 == u2 % d2,
    ensures
        (((n1 + 1) * d1 - u1) * d2 < ((n2 + 1) * d2 - u2) * d1) == (n1 + q2 < n2 + q1 || (n1 + q2 == n2 + q1 && r2
            * d1 < r1 * d2)),
{
    assert(u1 == q1 * d1 + r1 && 0 <= r1 < d1) by (nonlinear_arith)
        requires
            d1 > 0,
            q1 == u1 / d1,
            r1 == u1 % d1,
    ;
    assert(u2 == q2 * d2 + r2 && 0 <= r2 < d2) by (nonlinear_arith)
        requires
            d2 > 0,
            q2 == u2 / d2,
            r2 == u2 % d2,
    ;
    let e = n1 + q2 - n2 - q1;
    let dd = d1 * d2;
    assert((((n1 + 1) * d1 - u1) * d2 < ((n2 + 1) * d2 - u2) * d1) == (e * dd < r1 * d2 - r2 * d1)) by (nonlinear_arith)
        requires
            u1 == q1 * d1 + r1,
            u2 == q2 * d2 + r2,
            e == n1 + q2 - n2 - q1,
            dd == d1 * d2,
    ;
    assert(0 <= r1 * d2 < dd && 0 <= r2 * d1 < dd) by (nonlinear_arith)
        requires
            0 <= r1 < d1,
            0 <= r2 < d2,
            d1 > 0,
            d2 > 0,
            dd == d1 * d2,
    ;
    if e <= -1 {
        assert(e * dd <= -dd) by (nonlinear_arith)
            requires
                e <= -1,
                dd > 0,
        ;
    } else if e >= 1 {
        assert(e * dd >= dd) by (nonlinear_arith)
            requires
                e >= 1,
                dd > 0,
        ;
    } else {
        assert(e * dd == 0) by (nonlinear_arith)
            requires
                e == 0,
        ;
    }
}

/// Whether `a / b < c / d`, without forming the cross products.
pub fn frac_lt(a: u128, b: u128, c: u128, d: u128) -> (r: bool)
    requires
        b > 0,
        d > 0,
    ensures
        r == (a * d < c * b),
    decreases b + d,
{
    let qa = a / b;
    let qc = c / d;
    let ra = a % b;
    let rc = c % d;
    proof {
        lemma_frac_step(a as int, b as int, c as int, d as int, qa as int, ra as int, qc as int, rc as int);
    }
    if qa != qc {
        qa < qc
    } else if rc == 0 {
        false
    } else if ra == 0 {
        true
    } else {
        frac_lt(d, rc, b, ra)
    }
}

/// One step of the comparison: whole parts decide, else the remainders,
/// compared by their reciprocals.
proof fn lemma_frac_step(a: int, b: int, c: int, d: int, qa: int, ra: int, qc: int, rc: int)
    requires
        b > 0,
        d > 0,
        a >= 0,
        c >= 0,
        qa == a / b,
        ra == a % b,
        qc == c / d,
        rc == c % d,
    ensures
        qa != qc ==> ((a * d < c * b) == (qa < qc)),
        qa == qc ==> ((a * d < c * b) == (ra * d < rc * b)),
        0 <= ra < b,
        0 <= rc < d,
        (ra * d < rc * b) == (d * ra < b * rc),
        rc == 0 ==> !(ra * d < rc * b),
        ra == 0 && rc > 0 ==> ra * d < rc * b,
{
    assert(a == qa * b + ra && 0 <= ra < b) by (nonlinear_arith)
        requires
            b > 0,
            qa == a / b,
            ra == a % b,
    ;
    assert(c == qc * d + rc && 0 <= rc < d) by (nonlinear_arith)
        requires
            d > 0,
            qc == c / d,
            rc == c % d,
    ;
    let e = qa - qc;
    let bd = b * d;
    assert((a * d < c * b) == (e * bd < rc * b - ra * d)) by (nonlinear_arith)
        requires
            a == qa * b + ra,
            c == qc * d + rc,
            e == qa - qc,
            bd == b * d,
    ;
    assert(0 <= rc * b < bd && 0 <= ra * d < bd) by (nonlinear_arith)
        requires
            0 <= ra < b,
            0 <= rc < d,
            b > 0,
            d > 0,
            bd == b * d,
    ;
    if e <= -1 {
        assert(e * bd <= -bd) by (nonlinear_arith)
            requires
                e <= -1,
                bd > 0,
        ;
    } else if e >= 1 {
        assert(e * bd >= bd) by (nonlinear_arith)
            requires
                e >= 1,
                bd > 0,
        ;
    } else {
        assert(e * bd == 0) by (nonlinear_arith)
            requires
                e == 0,
        ;
    }
    if rc == 0 {
        assert(rc * b == 0) by (nonlinear_arith)
            requires
                rc == 0,
        ;
    }
    if ra == 0 && rc > 0 {
        assert(ra * d == 0 && rc * b > 0) by (nonlinear_arith)
            requires
                ra == 0,
                rc > 0,
                b > 0,
        ;
    }
    assert(ra * d == d * ra && rc * b == b * rc) by (nonlinear_arith);
}

/// Every piece's sides are lengths that the packers accept.
pub open spec fn pieces_sized(bs: Seq<Seq<Placement>>) -> bool {
    forall|i: int, j: int|
        0 <= i < bs.len() && 0 <= j < bs[i].len() ==> len_ok((#[trigger] bs[i][j]).w as int) && len_ok(
            bs[i][j].h as int,
        )
}

/// The score of a packing onto `bw x bh` boards: the number of boards plus
/// the share of their area that is waste; lower is better.
pub fn fitness(boards: &[Board], bw: i64, bh: i64) -> (f: Fitness)
    requires
        pos_len_ok(bw as int),
        pos_len_ok(bh as int),
        pieces_sized(board_views(boards@)),
        total_count(board_views(boards@)) <= usize::MAX,
    ensures
        f.valid(),
        f.boards == boards@.len(),
        f.used == total_area(board_views(boards@)),
        f.board_area == bw * bh,
{
    let ghost views = board_views(boards@);
    let area = mul_wide(bw, bh);
    proof {
        lemma_area_bound(bw as int, bh as int);
    }
    let mut used: u128 = 0;
    let ghost mut count: int = 0;
    proof {
        lemma_count_nonneg(views);
        assert(views.take(0) =~= Seq::<Seq<Placement>>::empty());
    }
    let n = boards.len();
    for i in 0..n
        invariant
            n == boards@.len(),
            views == board_views(boards@),
            pieces_sized(views),
            total_count(views) <= usize::MAX,
            used == total_area(views.take(i as int)),
            count == total_count(views.take(i as int)),
            count <= total_count(views),
            used <= count * (MAX_LEN * MAX_LEN),
    {
        let ps = &boards[i].placements;
        assert(views[i as int] == ps@);
        assert(views.take(i + 1).drop_last() =~= views.take(i as int));
        assert(views.take(i + 1).last() == ps@);
        proof {
            lemma_count_prefix(views, i + 1);
        }
        let m = ps.len();
        let mut board_used: u128 = 0;
        for j in 0..m
            invariant
                m == ps@.len(),
                ps@ == views[i as int],
                0 <= i < views.len(),
                pieces_sized(views),
                board_used == board_area_used(ps@.take(j as int)),
                board_used <= j * (MAX_LEN * MAX_LEN),
        {
            let p = &ps[j];
            assert(ps@.take(j + 1).drop_last() =~= ps@.take(j as int));
            assert(ps@.take(j + 1).last() == *p);
            assert(len_ok(views[i as int][j as int].w as int));
            let a = mul_wide(p.w, p.h);
            proof {
                lemma_area_bound(p.w as int, p.h as int);
                assert((j + 1) * (MAX_LEN * MAX_LEN) == j * (MAX_LEN * MAX_LEN) + MAX_LEN * MAX_LEN) by (nonlinear_arith)
                    requires
                        j >= 0,
                ;
                assert(j * (MAX_LEN * MAX_LEN) <= 0x1_0000_0000_0000_0000 * 0x4000_0000_0000_0000) by (nonlinear_arith)
                    requires
                        j <= 0xffff_ffff_ffff_ffff,
                ;
            }
            board_used = board_used + a as u128;
        }
        assert(ps@.take(m as int) =~= ps@);
        proof {
            let c2 = count + m;
            assert(c2 * (MAX_LEN * MAX_LEN) == count * (MAX_LEN * MAX_LEN) + m * (MAX_LEN * MAX_LEN)) by (nonlinear_arith)
                requires
                    c2 == count + m,
            ;
            assert(c2 * (MAX_LEN * MAX_LEN) <= 0x1_0000_0000_0000_0000 * 0x4000_0000_0000_0000) by (nonlinear_arith)
                requires
                    c2 <= 0xffff_ffff_ffff_ffff,
            ;
            count = c2;
        }
        used = used + board_used;
    }
    assert(views.take(n as int) =~= views);
    proof {
        assert(count * (MAX_LEN * MAX_LEN) <= 0x4000_0000_0000_0000_0000_0000_0000_0000) by (nonlinear_arith)
            requires
                0 <= count <= 0xffff_ffff_ffff_ffff,
        ;
    }
    Fitness { boards: n, used, board_area: area as u128 }
}

/// The area of a piece whose sides are accepted lengths is at most
/// `MAX_LEN * MAX_LEN`.
proof fn lemma_area_bound(w: int, h: int)
    requires
        len_ok(w),
        len_ok(h),
    ensures
        0 <= w * h <= MAX_LEN * MAX_LEN,
        w > 0 && h > 0 ==> w * h > 0,
{
    if w > 0 && h > 0 {
        assert(w * h > 0) by (nonlinear_arith)
            requires
                w > 0,
                h > 0,
        ;
    }
    assert(0 <= w * h <= 0x8000_0000 * 0x8000_0000) by (nonlinear_arith)
        requires
            0 <= w <= 0x8000_0000,
            0 <= h <= 0x8000_0000,
    ;
}

/// Counting the pieces of a prefix of the boards counts no more than all.
proof fn lemma_count_prefix(bs: Seq<Seq<Placement>>, i: int)
    requires
        0 <= i <= bs.len(),
    ensures
        total_count(bs.take(i)) <= total_count(bs),
        total_count(bs.take(i)) >= 0,
    decreases bs.len() - i,
{
    if i < bs.len() {
        lemma_count_prefix(bs, i + 1);
        assert(bs.take(i + 1).drop_last() =~= bs.take(i));
    } else {
        assert(bs.take(i) =~= bs);
    }
    lemma_count_nonneg(bs.take(i));
}

/// The number of pieces is never negative.
pub proof fn lemma_count_nonneg(bs: Seq<Seq<Placement>>)
    ensures
        total_count(bs) >= 0,
    decreases bs.len(),
{
    if bs.len() > 0 {
        lemma_count_nonneg(bs.drop_last());
    }
}

/// A packing on fewer boards never scores worse than one on more boards of
/// the same size, when neither claims more area than its boards hold: the
/// number of boards dominates the score.
pub proof fn lemma_fewer_boards_no_worse(x: Fitness, y: Fitness)
    requires
        x.valid(),
        y.valid(),
        x.board_area == y.board_area,
        0 < x.boards < y.boards,
        x.used <= x.boards * x.board_area,
        y.used <= y.boards * y.board_area,
    ensures
        !y.better(&x),
{
    let n = x.boards as int;
    let m = y.boards as int;
    let a = x.board_area as int;
    let u = x.used as int;
    let v = y.used as int;
    let d = n * a;
    let e = m * a;
    lemma_den_pos(x);
    lemma_den_pos(y);
    assert(x.frac() == ((n + 1) * d - u, d));
    assert(y.frac() == ((m + 1) * e - v, e));
    assert((m + 1) * e - v >= m * e) by (nonlinear_arith)
        requires
            v <= e,
    ;
    assert((n + 1) * d - u <= (n + 1) * d) by (nonlinear_arith)
        requires
            u >= 0,
    ;
    assert(((m + 1) * e - v) * d >= ((n + 1) * d - u) * e) by (nonlinear_arith)
        requires
            (m + 1) * e - v >= m * e,
            (n + 1) * d - u <= (n + 1) * d,
            m >= n + 1,
            d > 0,
            e > 0,
    {
        assert(((m + 1) * e - v) * d >= (m * e) * d);
        assert((m * e) * d >= ((n + 1) * e) * d);
        assert(((n + 1) * d - u) * e <= ((n + 1) * d) * e);
    }
}

} // verus!
