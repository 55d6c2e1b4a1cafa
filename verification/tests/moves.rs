use tile_grid::grid::{compute_score, Grid};
use tile_grid::line::{compact_line, merge_line, slide_line};
use tile_grid::moves::{apply_move, move_down, move_left, move_right, move_up, Direction};

fn grid(rows: Vec<Vec<u32>>) -> Grid {
    Grid::from_rows(rows).unwrap()
}

#[test]
fn move_left_merges_a_pair() {
    let mut g = grid(vec![vec![2, 2, 0, 0], vec![0; 4], vec![0; 4], vec![0; 4]]);
    let changed = apply_move(&mut g, Direction::Left);
    assert!(changed);
    assert_eq!(g.rows(), vec![vec![4, 0, 0, 0], vec![0; 4], vec![0; 4], vec![0; 4]]);
    assert_eq!(compute_score(&g), 4);
}

#[test]
fn move_right_merges_two_pairs() {
    let mut g = grid(vec![vec![2, 2, 2, 2], vec![0; 4], vec![0; 4], vec![0; 4]]);
    let changed = apply_move(&mut g, Direction::Right);
    assert!(changed);
    assert_eq!(g.rows()[0], vec![0, 0, 4, 4]);
}

#[test]
fn settled_row_does_not_change() {
    let mut g = grid(vec![vec![4, 0, 0, 0], vec![0; 4], vec![0; 4], vec![0; 4]]);
    assert!(!apply_move(&mut g, Direction::Left));
    assert_eq!(g.rows()[0], vec![4, 0, 0, 0]);
}

#[test]
fn second_move_is_idle_after_settling() {
    let mut g = grid(vec![
        vec![2, 0, 2, 4],
        vec![0, 8, 0, 8],
        vec![2, 4, 8, 16],
        vec![0, 0, 0, 2],
    ]);
    assert!(apply_move(&mut g, Direction::Left));
    assert_eq!(
        g.rows(),
        vec![vec![4, 4, 0, 0], vec![16, 0, 0, 0], vec![2, 4, 8, 16], vec![2, 0, 0, 0]]
    );
    let mut h = grid(vec![
        vec![2, 0, 4, 8],
        vec![0, 8, 0, 0],
        vec![2, 4, 8, 16],
        vec![0, 0, 0, 2],
    ]);
    assert!(apply_move(&mut h, Direction::Left));
    assert!(!apply_move(&mut h, Direction::Left));
}

#[test]
fn second_move_merges_what_the_first_left_equal() {
    let mut g = grid(vec![vec![2, 2, 4, 0], vec![0; 4], vec![0; 4], vec![0; 4]]);
    assert!(apply_move(&mut g, Direction::Left));
    assert_eq!(g.rows()[0], vec![4, 4, 0, 0]);
    assert!(apply_move(&mut g, Direction::Left));
    assert_eq!(g.rows()[0], vec![8, 0, 0, 0]);
}

#[test]
fn three_equal_tiles_merge_the_first_pair_only() {
    let mut g = grid(vec![vec![2, 2, 2, 0], vec![0; 4], vec![0; 4], vec![0; 4]]);
    assert!(move_left(&mut g));
    assert_eq!(g.rows()[0], vec![4, 2, 0, 0]);
    let mut h = grid(vec![vec![2, 2, 2, 0], vec![0; 4], vec![0; 4], vec![0; 4]]);
    assert!(move_right(&mut h));
    assert_eq!(h.rows()[0], vec![0, 0, 2, 4]);
}

#[test]
fn move_up_slides_columns_to_the_top() {
    let mut g = grid(vec![
        vec![0, 2, 0, 4],
        vec![2, 2, 0, 0],
        vec![0, 4, 0, 4],
        vec![2, 4, 8, 8],
    ]);
    assert!(move_up(&mut g));
    assert_eq!(
        g.rows(),
        vec![vec![4, 4, 8, 8], vec![0, 8, 0, 8], vec![0; 4], vec![0; 4]]
    );
}

#[test]
fn move_down_slides_columns_to_the_bottom() {
    let mut g = grid(vec![
        vec![0, 2, 0, 4],
        vec![2, 2, 0, 0],
        vec![0, 4, 0, 4],
        vec![2, 4, 8, 8],
    ]);
    assert!(move_down(&mut g));
    assert_eq!(
        g.rows(),
        vec![vec![0; 4], vec![0; 4], vec![0, 4, 0, 8], vec![4, 8, 8, 8]]
    );
}

#[test]
fn a_move_keeps_the_score() {
    let rows = vec![
        vec![2, 2, 4, 4],
        vec![8, 0, 8, 2],
        vec![16, 16, 16, 16],
        vec![0, 2, 0, 2],
    ];
    for dir in [Direction::Left, Direction::Right, Direction::Up, Direction::Down] {
        let mut g = grid(rows.clone());
        let before = compute_score(&g);
        assert!(apply_move(&mut g, dir));
        assert_eq!(compute_score(&g), before);
        assert_eq!(before, 98);
    }
}

#[test]
fn a_tile_slides_without_merging() {
    let mut g = grid(vec![vec![0, 0, 0, 2], vec![0; 4], vec![0; 4], vec![0; 4]]);
    assert!(move_left(&mut g));
    assert_eq!(g.rows()[0], vec![2, 0, 0, 0]);
    assert!(!move_up(&mut g));
    assert!(move_down(&mut g));
    assert_eq!(g.rows()[3], vec![2, 0, 0, 0]);
    assert_eq!(g.rows()[0], vec![0, 0, 0, 0]);
}

#[test]
fn an_empty_board_does_not_move() {
    for dir in [Direction::Left, Direction::Right, Direction::Up, Direction::Down] {
        let mut g = Grid::new(4);
        assert!(!apply_move(&mut g, dir));
        assert_eq!(g.rows(), vec![vec![0; 4]; 4]);
    }
}

#[test]
fn a_board_of_one_cell_never_moves() {
    let mut g = grid(vec![vec![2]]);
    assert!(!move_left(&mut g));
    assert!(!move_right(&mut g));
    assert!(!move_up(&mut g));
    assert!(!move_down(&mut g));
    assert_eq!(g.rows(), vec![vec![2]]);
}

#[test]
fn compact_closes_gaps() {
    let mut line = vec![0, 2, 0, 4, 0, 0, 2];
    compact_line(&mut line);
    assert_eq!(line, vec![2, 4, 2, 0, 0, 0, 0]);
}

#[test]
fn merge_pass_leaves_gaps() {
    let mut line = vec![2, 2, 2, 2, 4, 0];
    merge_line(&mut line);
    assert_eq!(line, vec![4, 0, 4, 0, 4, 0]);
    let mut short = vec![8];
    merge_line(&mut short);
    assert_eq!(short, vec![8]);
    let mut empty: Vec<u32> = vec![];
    merge_line(&mut empty);
    assert_eq!(empty, Vec::<u32>::new());
}

#[test]
fn slide_compacts_merges_and_compacts() {
    let mut line = vec![2, 0, 2, 4, 4, 0, 8, 8];
    slide_line(&mut line);
    assert_eq!(line, vec![4, 8, 16, 0, 0, 0, 0, 0]);
    let mut no_cascade = vec![4, 2, 2, 0];
    slide_line(&mut no_cascade);
    assert_eq!(no_cascade, vec![4, 4, 0, 0]);
}

#[test]
fn largest_tiles_merge_without_overflow() {
    let big = 1u32 << 30;
    let mut g = grid(vec![vec![big, big], vec![0, 0]]);
    assert!(move_right(&mut g));
    assert_eq!(g.rows(), vec![vec![0, 1u32 << 31], vec![0, 0]]);
    assert_eq!(compute_score(&g), 1u32 << 31);
}
