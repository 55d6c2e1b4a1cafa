use tile_grid::grid::{compute_score, is_move_possible, Grid};

#[test]
fn score_is_the_sum_of_the_cells() {
    let g = Grid::from_rows(vec![vec![2, 0, 2, 0], vec![0; 4], vec![0; 4], vec![0; 4]]).unwrap();
    assert_eq!(compute_score(&g), 4);
    let h = Grid::from_rows(vec![
        vec![2, 4, 8, 16],
        vec![32, 64, 128, 256],
        vec![512, 1024, 2048, 0],
        vec![2, 2, 2, 2],
    ])
    .unwrap();
    assert_eq!(compute_score(&h), 4102);
    assert_eq!(compute_score(&Grid::new(4)), 0);
}

#[test]
fn checkerboard_is_terminal() {
    let g = Grid::from_rows(vec![
        vec![2, 4, 2, 4],
        vec![4, 2, 4, 2],
        vec![2, 4, 2, 4],
        vec![4, 2, 4, 2],
    ])
    .unwrap();
    assert!(!is_move_possible(&g));
}

#[test]
fn an_empty_cell_allows_a_move() {
    let g = Grid::from_rows(vec![
        vec![2, 4, 2, 4],
        vec![4, 2, 4, 2],
        vec![2, 4, 0, 4],
        vec![4, 2, 4, 2],
    ])
    .unwrap();
    assert!(is_move_possible(&g));
    assert!(is_move_possible(&Grid::new(4)));
}

#[test]
fn equal_neighbours_in_a_row_allow_a_move() {
    let g = Grid::from_rows(vec![
        vec![2, 4, 2, 4],
        vec![4, 2, 4, 2],
        vec![2, 4, 8, 8],
        vec![4, 2, 4, 2],
    ])
    .unwrap();
    assert!(is_move_possible(&g));
}

#[test]
fn equal_neighbours_in_a_column_allow_a_move() {
    let g = Grid::from_rows(vec![
        vec![2, 4, 2, 4],
        vec![4, 2, 4, 2],
        vec![2, 4, 2, 16],
        vec![4, 2, 4, 16],
    ])
    .unwrap();
    assert!(is_move_possible(&g));
}

#[test]
fn equal_values_that_are_not_neighbours_do_not_allow_a_move() {
    let g = Grid::from_rows(vec![vec![2, 4], vec![4, 2]]).unwrap();
    assert!(!is_move_possible(&g));
    let one = Grid::from_rows(vec![vec![2]]).unwrap();
    assert!(!is_move_possible(&one));
}

#[test]
fn from_rows_wants_a_square() {
    assert!(Grid::from_rows(vec![]).is_none());
    assert!(Grid::from_rows(vec![vec![]]).is_none());
    assert!(Grid::from_rows(vec![vec![2, 4], vec![2]]).is_none());
    assert!(Grid::from_rows(vec![vec![2, 4, 8], vec![2, 4, 8]]).is_none());
    assert!(Grid::from_rows(vec![vec![2, 4], vec![2, 4], vec![0, 0]]).is_none());
    assert!(Grid::from_rows(vec![vec![2, 4], vec![8, 0]]).is_some());
}

#[test]
fn from_rows_wants_a_score_that_fits() {
    assert!(Grid::from_rows(vec![vec![u32::MAX, 1], vec![0, 0]]).is_none());
    assert!(Grid::from_rows(vec![vec![u32::MAX, 0], vec![0, 1]]).is_none());
    let full = Grid::from_rows(vec![vec![u32::MAX - 1, 0], vec![0, 1]]).unwrap();
    assert_eq!(compute_score(&full), u32::MAX);
}

#[test]
fn grid_accessors() {
    let g = Grid::from_rows(vec![vec![2, 4], vec![8, 0]]).unwrap();
    assert_eq!(g.size(), 2);
    assert_eq!(g.get(0, 1), 4);
    assert_eq!(g.get(1, 0), 8);
    assert_eq!(g.rows(), vec![vec![2, 4], vec![8, 0]]);
    let copy = g.clone();
    assert!(copy.same_cells(&g));
    assert!(!copy.same_cells(&Grid::new(2)));
    assert!(!copy.same_cells(&Grid::new(3)));
    assert_eq!(Grid::new(3).rows(), vec![vec![0; 3]; 3]);
}
