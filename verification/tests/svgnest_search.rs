use wood_cutter::model::{Board, Placement, Shape};
use wood_cutter::packing::PackResult;
use wood_cutter::perm::random_order;
use wood_cutter::svgnest::{move_segment, mutate_svgnest, pack_svgnest, rank_by_key};

fn shape(id: usize, w: i64, h: i64) -> Shape {
    Shape { id, name: format!("s{}", id), w, h, color_idx: id }
}

fn is_perm(v: &[usize], n: usize) -> bool {
    let mut s = v.to_vec();
    s.sort();
    s == (0..n).collect::<Vec<usize>>()
}

fn placed_ids(res: &PackResult) -> Vec<usize> {
    let mut v: Vec<usize> = res.boards.iter().flat_map(|b| b.placements.iter().map(|p| p.shape_id)).collect();
    v.extend(res.unfittable.iter().map(|s| s.id));
    v.sort();
    v
}

fn rect_collides(ps: &Vec<Placement>, x: i64, y: i64, w: i64, h: i64, bw: i64, bh: i64) -> bool {
    if x < 0 || y < 0 || x + w > bw || y + h > bh {
        return true;
    }
    ps.iter().any(|p| x < p.x + p.w && x + w > p.x && y < p.y + p.h && y + h > p.y)
}

fn low_pieces_score(boards: &Vec<Board>) -> u64 {
    let tops: i64 = boards.iter().flat_map(|b| b.placements.iter()).map(|p| p.y + p.h).sum();
    boards.len() as u64 * 1_000_000 + tops as u64
}

#[test]
fn move_segment_moves_a_stretch() {
    let v = vec![0, 1, 2, 3, 4, 5];
    assert_eq!(move_segment(&v, 1, 2, 3), vec![0, 3, 4, 1, 2, 5]);
    assert_eq!(move_segment(&v, 4, 3, 0), vec![4, 5, 0, 1, 2, 3]);
    assert_eq!(move_segment(&v, 0, 1, 10), vec![1, 2, 3, 4, 5, 0]);
    assert_eq!(move_segment(&v, 6, 2, 0), v);
}

#[test]
fn svgnest_mutation_keeps_permutations() {
    let mut rng = rand::thread_rng();
    for n in 1..9 {
        for _ in 0..30 {
            let p = random_order(&mut rng, n);
            let q = mutate_svgnest(&mut rng, &p);
            assert!(is_perm(&q, n));
        }
    }
}

#[test]
fn rank_by_key_is_stable_smallest_first() {
    assert_eq!(rank_by_key(&vec![5, 1, 3, 1, 0]), vec![4, 1, 3, 2, 0]);
    assert!(rank_by_key(&vec![]).is_empty());
}

#[test]
fn svgnest_returns_nothing_for_no_shapes() {
    let never = |_ps: &Vec<Placement>, _x: i64, _y: i64, _w: i64, _h: i64| false;
    let (res, hist, _) = pack_svgnest(
        &[],
        100,
        100,
        0,
        true,
        0,
        5,
        &never,
        &low_pieces_score,
        &|_g: usize, _t: usize, _k: u64, _h: &Vec<u64>| {},
    );
    assert!(res.boards.is_empty() && res.unfittable.is_empty() && hist.is_empty());
}

#[test]
fn svgnest_keeps_every_shape_and_never_gets_worse() {
    let collides = |ps: &Vec<Placement>, x: i64, y: i64, w: i64, h: i64| rect_collides(ps, x, y, w, h, 100, 100);
    let items: Vec<Shape> = (0..7).map(|i| shape(i, 20 + 7 * i as i64, 15 + 11 * (i as i64 % 3))).collect();
    let calls = std::cell::Cell::new(0usize);
    let progress = |g: usize, total: usize, _k: u64, h: &Vec<u64>| {
        assert_eq!(g % 3, 0);
        assert_eq!(total, 7);
        assert_eq!(h.len(), g + 1);
        calls.set(calls.get() + 1);
    };
    let (res, hist, _) = pack_svgnest(&items, 100, 100, 0, true, 6, 7, &collides, &low_pieces_score, &progress);
    assert_eq!(calls.get(), 3);
    assert_eq!(hist.len(), 8);
    for w in hist.windows(2) {
        assert!(w[1] <= w[0]);
    }
    assert_eq!(*hist.last().unwrap(), low_pieces_score(&res.boards));
    assert_eq!(placed_ids(&res), (0..7).collect::<Vec<usize>>());
    for b in &res.boards {
        assert!(!b.placements.is_empty());
        for (i, p) in b.placements.iter().enumerate() {
            assert!(!rect_collides(&b.placements[..i].to_vec(), p.x, p.y, p.w, p.h, 100, 100));
        }
    }
}
