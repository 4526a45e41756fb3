use std::cell::Cell;
use wood_cutter::annealing::pack_sa;
use wood_cutter::fitness::{fitness, frac_lt, Fitness};
use wood_cutter::genetic::pack_ga;
use wood_cutter::model::{Board, Placement, Shape};
use wood_cutter::packing::{pack_sorted, BinType, PackResult};
use wood_cutter::perm::{
    copy_order, crossover, identity_order, mutate, neighbour, random_crossover, random_order, reverse_between,
    swap_at,
};
use wood_cutter::search::{evaluate, rank_by_fitness};

fn shape(id: usize, w: i64, h: i64) -> Shape {
    Shape { id, name: format!("s{}", id), w, h, color_idx: id }
}

fn piece(x: i64, y: i64, w: i64, h: i64) -> Placement {
    Placement { x, y, w, h, rotated: false, name: String::new(), color_idx: 0, shape_id: 0 }
}

fn is_perm(v: &[usize], n: usize) -> bool {
    let mut s = v.to_vec();
    s.sort();
    s == (0..n).collect::<Vec<usize>>()
}

fn placed_ids(res: &PackResult) -> Vec<usize> {
    let mut v: Vec<usize> = res.boards.iter().flat_map(|b| b.placements.iter().map(|p| p.shape_id)).collect();
    v.extend(res.unfittable.iter().map(|s| s.id));
    v.sort();
    v
}

fn no_overlaps(res: &PackResult, bw: i64, bh: i64) -> bool {
    res.boards.iter().all(|b| {
        b.placements.iter().enumerate().all(|(i, p)| {
            p.x >= 0
                && p.y >= 0
                && p.x + p.w <= bw
                && p.y + p.h <= bh
                && b.placements.iter().enumerate().all(|(j, q)| {
                    i == j || !(p.x < q.x + q.w && p.x + p.w > q.x && p.y < q.y + q.h && p.y + p.h > q.y)
                })
        })
    })
}

fn score(f: &Fitness) -> f64 {
    if f.boards == 0 {
        1e9
    } else {
        let d = f.boards as f64 * f.board_area as f64;
        f.boards as f64 + 1.0 - f.used as f64 / d
    }
}

fn cabinet() -> Vec<Shape> {
    let dims = [
        (800, 2000),
        (800, 2000),
        (600, 2200),
        (600, 2200),
        (1000, 600),
        (1000, 600),
        (400, 280),
        (400, 280),
        (900, 250),
        (900, 250),
        (500, 250),
        (980, 2180),
    ];
    dims.iter().enumerate().map(|(i, &(w, h))| shape(i, w, h)).collect()
}

#[test]
fn fitness_counts_boards_and_waste() {
    let boards = vec![Board { placements: vec![piece(0, 0, 50, 100)] }];
    let f = fitness(&boards, 100, 100);
    assert_eq!(f, Fitness { boards: 1, used: 5000, board_area: 10000 });
    assert!((score(&f) - 1.5).abs() < 1e-12);
    let empty = fitness(&[], 100, 100);
    assert_eq!(empty.boards, 0);
    assert_eq!(score(&empty), 1e9);
}

#[test]
fn fitness_order_prefers_fewer_boards_then_less_waste() {
    let one_half = Fitness { boards: 1, used: 5000, board_area: 10000 };
    let one_full = Fitness { boards: 1, used: 10000, board_area: 10000 };
    let two_full = Fitness { boards: 2, used: 20000, board_area: 10000 };
    let none = Fitness { boards: 0, used: 0, board_area: 10000 };
    assert!(one_full.lt(&one_half));
    assert!(!one_half.lt(&one_full));
    assert!(one_half.lt(&two_full));
    assert!(!two_full.lt(&one_half));
    assert!(one_half.lt(&none));
    assert!(!none.lt(&one_half));
    assert!(!none.lt(&none));
    assert!(!one_half.lt(&one_half));
}

#[test]
fn frac_lt_compares_fractions() {
    assert!(frac_lt(1, 3, 1, 2));
    assert!(!frac_lt(1, 2, 1, 3));
    assert!(!frac_lt(2, 4, 1, 2));
    assert!(frac_lt(0, 5, 1, 7));
    assert!(frac_lt(999_999, 1_000_000, 1_000_000, 1_000_001) == (999_999u128 * 1_000_001 < 1_000_000u128 * 1_000_000));
}

#[test]
fn identity_and_copy() {
    assert_eq!(identity_order(4), vec![0, 1, 2, 3]);
    assert_eq!(copy_order(&vec![2, 0, 1]), vec![2, 0, 1]);
}

#[test]
fn swap_and_reverse_are_exact() {
    let mut v = vec![0, 1, 2, 3, 4];
    swap_at(&mut v, 0, 3);
    assert_eq!(v, vec![3, 1, 2, 0, 4]);
    let mut w = vec![0, 1, 2, 3, 4, 5];
    reverse_between(&mut w, 1, 4);
    assert_eq!(w, vec![0, 4, 3, 2, 1, 5]);
    reverse_between(&mut w, 2, 2);
    assert_eq!(w, vec![0, 4, 3, 2, 1, 5]);
}

#[test]
fn crossover_keeps_segment_and_fills_in_parent_two_order() {
    let p1 = vec![0, 1, 2, 3, 4];
    let p2 = vec![4, 3, 2, 1, 0];
    assert_eq!(crossover(&p1, &p2, 1, 2), vec![0, 1, 2, 4, 3]);
    assert_eq!(crossover(&p1, &p2, 3, 3), vec![0, 2, 1, 3, 4]);
    assert_eq!(crossover(&p1, &p2, 2, 5), p1);
    assert_eq!(crossover(&p1, &p2, 0, 0), p2);
}

#[test]
fn random_moves_keep_permutations() {
    let mut rng = rand::thread_rng();
    let mut changed = false;
    for n in 1..12 {
        for _ in 0..20 {
            let p = random_order(&mut rng, n);
            assert!(is_perm(&p, n));
            if p != identity_order(n) {
                changed = true;
            }
            let q = random_order(&mut rng, n);
            let c = random_crossover(&mut rng, &p, &q);
            assert!(is_perm(&c, n));
            if n <= 1 {
                assert_eq!(c, p);
            }
            let m = mutate(&mut rng, &c);
            assert!(is_perm(&m, n));
            let diff = m.iter().zip(c.iter()).filter(|(a, b)| a != b).count();
            assert!(diff <= 4);
            let s = neighbour(&mut rng, &m);
            assert!(is_perm(&s, n));
        }
    }
    assert!(changed);
}

#[test]
fn evaluate_packs_in_the_given_order() {
    let items = vec![shape(0, 10, 10), shape(1, 100, 60), shape(2, 60, 40)];
    let (res, f) = evaluate(&items, &vec![1, 2, 0], 100, 100, 0, false);
    assert_eq!(res.boards.len(), 1);
    let order: Vec<usize> = res.boards[0].placements.iter().map(|p| p.shape_id).collect();
    assert_eq!(order, vec![1, 2, 0]);
    assert_eq!(f, Fitness { boards: 1, used: 6000 + 2400 + 100, board_area: 10000 });
}

#[test]
fn rank_by_fitness_is_stable_best_first() {
    let a = Fitness { boards: 2, used: 100, board_area: 100 };
    let b = Fitness { boards: 1, used: 50, board_area: 100 };
    let c = Fitness { boards: 1, used: 50, board_area: 100 };
    let d = Fitness { boards: 1, used: 90, board_area: 100 };
    assert_eq!(rank_by_fitness(&vec![a, b, c, d]), vec![3, 1, 2, 0]);
}

#[test]
fn ga_returns_nothing_for_no_shapes() {
    let (res, hist, _) = pack_ga(&[], 100, 100, 0, true, 0, 10, &|_g: usize, _t: usize, _f: Fitness, _h: &Vec<Fitness>| {});
    assert!(res.boards.is_empty() && res.unfittable.is_empty() && hist.is_empty());
}

#[test]
fn ga_keeps_every_shape_and_improves_monotonically() {
    let items = cabinet();
    let calls = Cell::new(0usize);
    let progress = |g: usize, total: usize, _f: Fitness, h: &Vec<Fitness>| {
        assert_eq!(g % 5, 0);
        assert_eq!(total, 12);
        assert_eq!(h.len(), g + 1);
        calls.set(calls.get() + 1);
    };
    let (res, hist, _) = pack_ga(&items, 2440, 1220, 3, true, 8, 12, &progress);
    assert_eq!(calls.get(), 3);
    assert_eq!(hist.len(), 13);
    for w in hist.windows(2) {
        assert!(!w[0].lt(&w[1]));
    }
    assert_eq!(*hist.last().unwrap(), fitness(&res.boards, 2440, 1220));
    assert_eq!(placed_ids(&res), (0..12).collect::<Vec<usize>>());
    assert!(no_overlaps(&res, 2440, 1220));
    let never = |_ps: &Vec<Placement>, _x: i64, _y: i64, _w: i64, _h: i64| false;
    let greedy = pack_sorted(BinType::MaxRects, &items, 2440, 1220, 3, true, &never);
    let gf = fitness(&greedy.boards, 2440, 1220);
    assert!(!gf.lt(hist.last().unwrap()));
}

#[test]
fn ga_with_one_member_and_no_generations() {
    let items = vec![shape(0, 50, 50), shape(1, 60, 60)];
    let (res, hist, _) = pack_ga(&items, 100, 100, 0, false, 1, 0, &|_g: usize, _t: usize, _f: Fitness, _h: &Vec<Fitness>| {});
    assert_eq!(hist.len(), 1);
    assert_eq!(res.boards.len(), 2);
    assert_eq!(res.boards[0].placements[0].shape_id, 1);
}

#[test]
fn sa_returns_nothing_for_no_shapes() {
    let accept = |_i: usize, _c: Fitness, _n: Fitness| true;
    let (res, hist, _) = pack_sa(&[], 100, 100, 0, true, &accept, 100, &|_g: usize, _t: usize, _f: Fitness, _h: &Vec<Fitness>| {});
    assert!(res.boards.is_empty() && res.unfittable.is_empty() && hist.is_empty());
}

#[test]
fn sa_history_and_result() {
    let items = cabinet();
    let never = |_ps: &Vec<Placement>, _x: i64, _y: i64, _w: i64, _h: i64| false;
    let greedy = pack_sorted(BinType::MaxRects, &items, 2440, 1220, 3, true, &never);
    let gf = fitness(&greedy.boards, 2440, 1220);
    for steps in [0usize, 1, 50, 51, 120] {
        let accept = |_i: usize, _c: Fitness, _n: Fitness| false;
        let calls = Cell::new(0usize);
        let progress = |i: usize, total: usize, _f: Fitness, _h: &Vec<Fitness>| {
            assert_eq!(i % 50, 0);
            assert_eq!(total, steps);
            calls.set(calls.get() + 1);
        };
        let (res, hist, _) = pack_sa(&items, 2440, 1220, 3, true, &accept, steps, &progress);
        assert_eq!(hist.len(), 1 + (steps + 49) / 50);
        assert_eq!(calls.get(), (steps + 49) / 50);
        assert_eq!(hist[0], gf);
        for w in hist.windows(2) {
            assert!(!w[0].lt(&w[1]));
        }
        let rf = fitness(&res.boards, 2440, 1220);
        assert!(!hist.last().unwrap().lt(&rf));
        assert!(!gf.lt(&rf));
        assert_eq!(placed_ids(&res), (0..12).collect::<Vec<usize>>());
        assert!(no_overlaps(&res, 2440, 1220));
    }
}

#[test]
fn sa_accepting_every_move_still_reports_the_best() {
    let items = cabinet();
    let accept = |_i: usize, _c: Fitness, _n: Fitness| true;
    let (res, hist, _) = pack_sa(&items, 2440, 1220, 0, false, &accept, 200, &|_g: usize, _t: usize, _f: Fitness, _h: &Vec<Fitness>| {});
    let rf = fitness(&res.boards, 2440, 1220);
    for h in &hist {
        assert!(!h.lt(&rf));
    }
    assert!(score(&rf) <= score(&hist[0]));
}

#[test]
fn ga_single_shape_history_stays_at_the_first_score() {
    let items = vec![Shape { id: 1, name: "A".to_string(), w: 100_000, h: 50_000, color_idx: 0 }];
    let calls: Cell<usize> = Cell::new(0);
    let progress = |_g: usize, _t: usize, _f: Fitness, _h: &Vec<Fitness>| calls.set(calls.get() + 1);
    let (res, hist, _) = pack_ga(&items, 200_000, 100_000, 0, false, 2, 6, &progress);
    assert_eq!(hist.len(), 7);
    let first = hist[0];
    assert!(hist.iter().all(|f| *f == first));
    assert_eq!((first.boards, first.used, first.board_area), (1, 5_000_000_000, 20_000_000_000));
    assert!(res.unfittable.is_empty());
    assert_eq!(res.boards.len(), 1);
    let p = &res.boards[0].placements[0];
    assert_eq!((p.x, p.y, p.w, p.h, p.rotated, p.shape_id), (0, 0, 100_000, 50_000, false, 1));
    assert_eq!(calls.get(), 2);
}

#[test]
fn sa_with_refusing_rule_never_gets_worse_than_its_start() {
    let items = vec![shape(0, 60, 60), shape(1, 50, 50), shape(2, 40, 30), shape(3, 30, 30)];
    let accept = |_i: usize, _c: Fitness, _n: Fitness| false;
    let (_, start_hist, _) = pack_sa(&items, 100, 100, 0, false, &accept, 0, &|_g: usize, _t: usize, _f: Fitness, _h: &Vec<Fitness>| {});
    let (res, hist, _) = pack_sa(&items, 100, 100, 0, false, &accept, 120, &|_g: usize, _t: usize, _f: Fitness, _h: &Vec<Fitness>| {});
    assert_eq!(hist.len(), 4);
    assert_eq!(hist[0], start_hist[0]);
    let end = fitness(&res.boards, 100, 100);
    assert!(!hist[0].lt(&end));
    assert!(!hist[3].lt(&end));
}

#[test]
fn searches_are_never_worse_than_sorted_maxrects() {
    let items = vec![shape(0, 40, 70), shape(1, 55, 30), shape(2, 30, 30), shape(3, 65, 45), shape(4, 20, 80), shape(5, 35, 35)];
    let none = |_p: &Vec<Placement>, _x: i64, _y: i64, _w: i64, _h: i64| false;
    let sorted = pack_sorted(BinType::MaxRects, &items, 100, 100, 2, true, &none);
    let sorted_fit = fitness(&sorted.boards, 100, 100);
    let (ga, ga_hist, _) = pack_ga(&items, 100, 100, 2, true, 6, 8, &|_g: usize, _t: usize, _f: Fitness, _h: &Vec<Fitness>| {});
    assert!(!sorted_fit.lt(&fitness(&ga.boards, 100, 100)));
    assert!(!sorted_fit.lt(&ga_hist[0]));
    let accept = |_i: usize, _c: Fitness, _n: Fitness| true;
    let (sa, sa_hist, _) = pack_sa(&items, 100, 100, 2, true, &accept, 60, &|_g: usize, _t: usize, _f: Fitness, _h: &Vec<Fitness>| {});
    assert_eq!(sa_hist[0], sorted_fit);
    assert!(!sorted_fit.lt(&fitness(&sa.boards, 100, 100)));
}
