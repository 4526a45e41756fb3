use wood_cutter::bottom_left::{pack_bottom_left, BottomLeftBin};
use wood_cutter::guillotine::{pack_guillotine, GuillotineBin};
use wood_cutter::maxrects::{pack_maxrects, MaxRectsBin};
use wood_cutter::model::{Board, Placement, Shape};
use wood_cutter::nfp_greedy::{pack_nfp, NFPBin};
use wood_cutter::order::{area_order, sort_by_area};
use wood_cutter::packing::{pack_ordered, pack_single_bin, pack_sorted, BinType, PackResult};

fn shape(id: usize, w: i64, h: i64) -> Shape {
    Shape { id, name: format!("s{}", id), w, h, color_idx: id }
}

fn pos(b: &Board) -> Vec<(i64, i64, i64, i64, bool)> {
    b.placements.iter().map(|p| (p.x, p.y, p.w, p.h, p.rotated)).collect()
}

fn overlap(a: &Placement, b: &Placement) -> bool {
    a.x < b.x + b.w && a.x + a.w > b.x && a.y < b.y + b.h && a.y + a.h > b.y
}

fn check_layout(b: &Board, bw: i64, bh: i64) {
    for (i, p) in b.placements.iter().enumerate() {
        assert!(p.w > 0 && p.h > 0);
        assert!(p.x >= 0 && p.y >= 0 && p.x + p.w <= bw && p.y + p.h <= bh);
        for (j, q) in b.placements.iter().enumerate() {
            if i != j {
                assert!(!overlap(p, q));
            }
        }
    }
}

fn rect_collides(ps: &Vec<Placement>, x: i64, y: i64, w: i64, h: i64, bw: i64, bh: i64) -> bool {
    if x < 0 || y < 0 || x + w > bw || y + h > bh {
        return true;
    }
    ps.iter().any(|p| x < p.x + p.w && x + w > p.x && y < p.y + p.h && y + h > p.y)
}

fn ids(shapes: &[Shape]) -> Vec<usize> {
    shapes.iter().map(|s| s.id).collect()
}

fn placed_ids(res: &PackResult) -> Vec<usize> {
    let mut v: Vec<usize> = res.boards.iter().flat_map(|b| b.placements.iter().map(|p| p.shape_id)).collect();
    v.extend(res.unfittable.iter().map(|s| s.id));
    v.sort();
    v
}

#[test]
fn maxrects_places_by_best_short_side() {
    let shapes = vec![shape(1, 60, 40), shape(2, 40, 40), shape(3, 100, 60)];
    let (board, left) = pack_maxrects(&shapes, 100, 100, 0, false);
    assert_eq!(pos(&board), vec![(0, 0, 60, 40, false), (60, 0, 40, 40, false), (0, 40, 100, 60, false)]);
    assert!(left.is_empty());
    check_layout(&board, 100, 100);
}

#[test]
fn maxrects_bin_insert_reports_placement() {
    let mut bin = MaxRectsBin::new(100, 100, 0);
    let p = bin.insert(&shape(1, 60, 40), false).unwrap();
    assert_eq!((p.x, p.y, p.w, p.h, p.rotated), (0, 0, 60, 40, false));
    assert_eq!(p.shape_id, 1);
    assert_eq!(p.name, "s1");
    assert!(bin.insert(&shape(2, 101, 1), false).is_none());
    assert_eq!(bin.placements.len(), 1);
}

#[test]
fn maxrects_rotates_when_allowed() {
    let shapes = vec![shape(1, 100, 40), shape(2, 60, 100)];
    let (board, left) = pack_maxrects(&shapes, 100, 100, 0, true);
    assert!(left.is_empty());
    assert_eq!(board.placements.len(), 2);
    check_layout(&board, 100, 100);
    let (_, left2) = pack_maxrects(&[shape(3, 100, 50)], 50, 100, 0, false);
    assert_eq!(ids(&left2), vec![3]);
    let (b3, left3) = pack_maxrects(&[shape(3, 100, 50)], 50, 100, 0, true);
    assert!(left3.is_empty());
    assert_eq!(pos(&b3), vec![(0, 0, 50, 100, true)]);
}

#[test]
fn maxrects_kerf_keeps_gap() {
    let shapes = vec![shape(1, 50, 100), shape(2, 50, 100)];
    let (board, left) = pack_maxrects(&shapes, 100, 100, 2, false);
    assert_eq!(board.placements.len(), 1);
    assert_eq!(ids(&left), vec![2]);
    let (board2, left2) = pack_maxrects(&[shape(1, 49, 100), shape(2, 49, 100)], 100, 100, 2, false);
    assert!(left2.is_empty());
    assert_eq!(pos(&board2), vec![(0, 0, 49, 100, false), (51, 0, 49, 100, false)]);
}

#[test]
fn guillotine_splits_along_the_longer_leftover() {
    let shapes = vec![shape(1, 30, 50), shape(2, 60, 40), shape(3, 30, 48)];
    let (board, left) = pack_guillotine(&shapes, 100, 100, 2, false);
    assert_eq!(pos(&board), vec![(0, 0, 30, 50, false), (32, 0, 60, 40, false), (0, 52, 30, 48, false)]);
    assert!(left.is_empty());
    check_layout(&board, 100, 100);
}

#[test]
fn guillotine_bin_rejects_what_does_not_fit() {
    let mut bin = GuillotineBin::new(10, 10, 0);
    assert!(bin.insert(&shape(1, 10, 10), false).is_some());
    assert!(bin.insert(&shape(2, 1, 1), false).is_none());
    assert_eq!(bin.placements.len(), 1);
}

#[test]
fn bottom_left_fills_lowest_then_leftmost() {
    let shapes = vec![shape(1, 40, 30), shape(2, 40, 50), shape(3, 20, 10)];
    let (board, left) = pack_bottom_left(&shapes, 100, 100, 0, false);
    assert_eq!(pos(&board), vec![(0, 0, 40, 30, false), (40, 0, 40, 50, false), (80, 0, 20, 10, false)]);
    assert!(left.is_empty());
    check_layout(&board, 100, 100);
}

#[test]
fn bottom_left_bin_stacks_on_skyline() {
    let mut bin = BottomLeftBin::new(100, 100, 5);
    let a = bin.insert(&shape(1, 100, 20), false).unwrap();
    let b = bin.insert(&shape(2, 100, 20), false).unwrap();
    assert_eq!((a.x, a.y), (0, 0));
    assert_eq!((b.x, b.y), (0, 25));
    assert_eq!(bin.placements.len(), 2);
}

const MM: i64 = 1000;

#[test]
fn nfp_places_at_lowest_collision_free_spot() {
    let collides =
        |ps: &Vec<Placement>, x: i64, y: i64, w: i64, h: i64| rect_collides(ps, x, y, w, h, 100 * MM, 100 * MM);
    let shapes = vec![shape(1, 50 * MM, 50 * MM), shape(2, 50 * MM, 50 * MM)];
    let (board, left) = pack_nfp(&shapes, 100 * MM, 100 * MM, 0, false, &collides);
    assert_eq!(pos(&board), vec![(0, 0, 50 * MM, 50 * MM, false), (50 * MM, 0, 50 * MM, 50 * MM, false)]);
    assert!(left.is_empty());
    check_layout(&board, 100 * MM, 100 * MM);
}

#[test]
fn nfp_score_weighs_height_by_twice_the_board_length() {
    // On a board a tenth of a millimetre long, half a hundredth of a
    // millimetre up weighs less than half of its length to the right.
    let collides = |ps: &Vec<Placement>, x: i64, y: i64, w: i64, h: i64| rect_collides(ps, x, y, w, h, 100, 100);
    let shapes = vec![shape(1, 50, 50), shape(2, 50, 50)];
    let (board, left) = pack_nfp(&shapes, 100, 100, 0, false, &collides);
    assert_eq!(pos(&board), vec![(0, 0, 50, 50, false), (0, 50, 50, 50, false)]);
    assert!(left.is_empty());
}

#[test]
fn nfp_sorts_largest_first() {
    let collides =
        |ps: &Vec<Placement>, x: i64, y: i64, w: i64, h: i64| rect_collides(ps, x, y, w, h, 100 * MM, 100 * MM);
    let shapes = vec![shape(1, 10 * MM, 10 * MM), shape(2, 100 * MM, 60 * MM)];
    let (board, left) = pack_nfp(&shapes, 100 * MM, 100 * MM, 0, false, &collides);
    assert!(left.is_empty());
    assert_eq!(board.placements[0].shape_id, 2);
    assert_eq!((board.placements[0].x, board.placements[0].y), (0, 0));
    assert_eq!((board.placements[1].x, board.placements[1].y), (0, 60 * MM));
}

#[test]
fn nfp_bin_leaves_shape_when_test_always_collides() {
    let always = |_ps: &Vec<Placement>, _x: i64, _y: i64, _w: i64, _h: i64| true;
    let mut bin = NFPBin::new(100, 100, 0);
    assert!(bin.insert(&shape(1, 10, 10), true, &always).is_none());
    assert!(bin.placements.is_empty());
}

#[test]
fn area_order_is_stable_largest_first() {
    let shapes = vec![shape(0, 10, 10), shape(1, 20, 20), shape(2, 5, 20), shape(3, 20, 20)];
    assert_eq!(area_order(&shapes), vec![1, 3, 0, 2]);
    assert_eq!(ids(&sort_by_area(&shapes)), vec![1, 3, 0, 2]);
}

#[test]
fn pack_ordered_sets_aside_what_never_fits() {
    let never = |_ps: &Vec<Placement>, _x: i64, _y: i64, _w: i64, _h: i64| false;
    let shapes = vec![shape(1, 150, 10), shape(2, 50, 50), shape(3, 150, 50)];
    let res = pack_ordered(BinType::MaxRects, &shapes, 100, 100, 0, true, &never);
    assert_eq!(ids(&res.unfittable), vec![1, 3]);
    assert_eq!(res.boards.len(), 1);
    assert_eq!(placed_ids(&res), vec![1, 2, 3]);
}

#[test]
fn pack_ordered_opens_boards_as_needed() {
    let never = |_ps: &Vec<Placement>, _x: i64, _y: i64, _w: i64, _h: i64| false;
    let shapes = vec![shape(1, 100, 100), shape(2, 100, 100), shape(3, 100, 100)];
    for bt in [BinType::MaxRects, BinType::Guillotine, BinType::BottomLeft] {
        let res = pack_ordered(bt, &shapes, 100, 100, 0, false, &never);
        assert_eq!(res.boards.len(), 3);
        assert!(res.unfittable.is_empty());
        for b in &res.boards {
            assert_eq!(b.placements.len(), 1);
            check_layout(b, 100, 100);
        }
    }
}

#[test]
fn pack_ordered_with_nfp_stops_when_a_board_takes_nothing() {
    let always = |_ps: &Vec<Placement>, _x: i64, _y: i64, _w: i64, _h: i64| true;
    let shapes = vec![shape(1, 10, 10)];
    let res = pack_ordered(BinType::NFP, &shapes, 100, 100, 0, false, &always);
    assert!(res.boards.is_empty());
    assert!(res.unfittable.is_empty());
}

#[test]
fn pack_single_bin_dispatches() {
    let never = |_ps: &Vec<Placement>, _x: i64, _y: i64, _w: i64, _h: i64| false;
    let shapes = vec![shape(1, 40, 30), shape(2, 40, 50), shape(3, 20, 10)];
    let (b, _) = pack_single_bin(BinType::BottomLeft, &shapes, 100, 100, 0, false, &never);
    let (b2, _) = pack_bottom_left(&shapes, 100, 100, 0, false);
    assert_eq!(pos(&b), pos(&b2));
    let (g, _) = pack_single_bin(BinType::Guillotine, &shapes, 100, 100, 0, false, &never);
    let (g2, _) = pack_guillotine(&shapes, 100, 100, 0, false);
    assert_eq!(pos(&g), pos(&g2));
}

#[test]
fn pack_sorted_packs_largest_first_and_keeps_every_shape() {
    let never = |_ps: &Vec<Placement>, _x: i64, _y: i64, _w: i64, _h: i64| false;
    let shapes = vec![shape(1, 20, 20), shape(2, 100, 60), shape(3, 200, 1), shape(4, 60, 40)];
    let res = pack_sorted(BinType::MaxRects, &shapes, 100, 100, 0, false, &never);
    assert_eq!(ids(&res.unfittable), vec![3]);
    assert_eq!(res.boards.len(), 1);
    assert_eq!(res.boards[0].placements[0].shape_id, 2);
    assert_eq!(placed_ids(&res), vec![1, 2, 3, 4]);
    check_layout(&res.boards[0], 100, 100);
}

#[test]
fn packers_never_overlap_on_a_mixed_set() {
    let never = |_ps: &Vec<Placement>, _x: i64, _y: i64, _w: i64, _h: i64| false;
    let mut shapes = vec![];
    for i in 0..25 {
        shapes.push(shape(i, 10 + (i as i64 * 7) % 50, 15 + (i as i64 * 13) % 40));
    }
    for bt in [BinType::MaxRects, BinType::Guillotine, BinType::BottomLeft] {
        for kerf in [0, 3] {
            let res = pack_sorted(bt, &shapes, 120, 90, kerf, true, &never);
            assert_eq!(placed_ids(&res), (0..25).collect::<Vec<usize>>());
            for b in &res.boards {
                assert!(!b.placements.is_empty());
                check_layout(b, 120, 90);
            }
        }
    }
}

#[test]
fn pack_result_clone_keeps_contents() {
    let never = |_ps: &Vec<Placement>, _x: i64, _y: i64, _w: i64, _h: i64| false;
    let res = pack_sorted(BinType::MaxRects, &[shape(1, 10, 10), shape(2, 500, 1)], 100, 100, 0, false, &never);
    let c = res.clone();
    assert_eq!(c.boards.len(), res.boards.len());
    assert_eq!(pos(&c.boards[0]), pos(&res.boards[0]));
    assert_eq!(ids(&c.unfittable), ids(&res.unfittable));
}

#[test]
fn guillotine_keeps_a_kerf_between_pieces() {
    let shapes: Vec<Shape> = (0..9).map(|i| shape(i, 20 + (i as i64 % 3) * 7, 15 + (i as i64 % 4) * 5)).collect();
    let k: i64 = 3;
    let (board, _rest) = pack_guillotine(&shapes, 100, 80, k, true);
    assert!(board.placements.len() >= 4);
    for (i, p) in board.placements.iter().enumerate() {
        for (j, q) in board.placements.iter().enumerate() {
            if i != j {
                assert!(
                    p.x + p.w + k <= q.x || q.x + q.w + k <= p.x || p.y + p.h + k <= q.y || q.y + q.h + k <= p.y
                );
            }
        }
    }
}

#[test]
fn too_long_shape_is_set_aside() {
    let too_long: i64 = 2_147_483_649;
    let items = vec![shape(0, 30, 30), shape(1, too_long, 10), shape(2, 20, 20)];
    let res = pack_sorted(BinType::MaxRects, &items, 100, 100, 0, true, &|_p: &Vec<Placement>, _x: i64, _y: i64, _w: i64, _h: i64| false);
    assert_eq!(ids(&res.unfittable), vec![1]);
    assert_eq!(placed_ids(&res), vec![0, 1, 2]);
    assert_eq!(res.boards.len(), 1);
    assert_eq!(res.boards[0].placements.len(), 2);
}
