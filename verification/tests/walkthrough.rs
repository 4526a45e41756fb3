use wood_cutter::model::{Board, Placement};
use wood_cutter::steps::{generate_steps, last_step, mk_snap, step_back, step_forward, StepType};

fn piece(x: i64, y: i64, w: i64, h: i64) -> Placement {
    Placement { x, y, w, h, rotated: false, name: String::new(), color_idx: 0, shape_id: 0 }
}

fn boards() -> Vec<Board> {
    vec![
        Board { placements: vec![piece(0, 0, 10, 10), piece(10, 0, 5, 5)] },
        Board { placements: vec![piece(0, 0, 7, 3)] },
    ]
}

#[test]
fn snapshots() {
    let b = boards();
    assert_eq!(mk_snap(&b, 0, 0), vec![0, 0]);
    assert_eq!(mk_snap(&b, 0, 2), vec![2, 0]);
    assert_eq!(mk_snap(&b, 1, 1), vec![2, 1]);
    assert_eq!(mk_snap(&b, 5, 0), vec![2, 1]);
}

#[test]
fn steps_open_place_and_finish_each_board() {
    let b = boards();
    let steps = generate_steps(&b);
    assert_eq!(steps.len(), 3 + 2 * 2);
    let kinds: Vec<StepType> = steps.iter().map(|s| s.step_type).collect();
    assert_eq!(
        kinds,
        vec![StepType::Open, StepType::Place, StepType::Place, StepType::Done, StepType::Open, StepType::Place, StepType::Done]
    );
    let idx: Vec<usize> = steps.iter().map(|s| s.board_idx).collect();
    assert_eq!(idx, vec![0, 0, 0, 0, 1, 1, 1]);
    let snaps: Vec<Vec<usize>> = steps.iter().map(|s| s.snap.clone()).collect();
    assert_eq!(snaps, vec![vec![0, 0], vec![1, 0], vec![2, 0], vec![2, 0], vec![2, 0], vec![2, 1], vec![2, 1]]);
    assert_eq!(steps[1].highlight, Some((0, 0, 0, 10, 10)));
    assert_eq!(steps[2].highlight, Some((0, 10, 0, 5, 5)));
    assert_eq!(steps[5].highlight, Some((1, 0, 0, 7, 3)));
    assert_eq!(steps[0].highlight, None);
    assert_eq!(steps[3].highlight, None);
}

#[test]
fn snapshots_never_shrink() {
    let b = boards();
    let steps = generate_steps(&b);
    for w in steps.windows(2) {
        assert!(w[0].snap.iter().zip(w[1].snap.iter()).all(|(a, c)| a <= c));
    }
}

#[test]
fn no_boards_no_steps() {
    assert!(generate_steps(&[]).is_empty());
    assert!(mk_snap(&[], 0, 0).is_empty());
}

#[test]
fn step_navigation_stays_within_the_walkthrough() {
    assert_eq!(step_back(3), 2);
    assert_eq!(step_back(0), 0);
    assert_eq!(step_forward(3, 5), 4);
    assert_eq!(step_forward(4, 5), 4);
    assert_eq!(step_forward(0, 1), 0);
    assert_eq!(last_step(5), 4);
    assert_eq!(last_step(1), 0);
}
