use tile_grid::grid::{compute_score, Grid};
use tile_grid::spawn::{empty_cells, place_tile, spawn_tile};

#[test]
fn spawn_fills_the_only_empty_cell() {
    for _ in 0..200 {
        let mut g = Grid::from_rows(vec![
            vec![2, 4, 2, 4],
            vec![4, 2, 4, 2],
            vec![2, 4, 0, 4],
            vec![4, 2, 4, 2],
        ])
        .unwrap();
        spawn_tile(&mut g);
        let rows = g.rows();
        let v = rows[2][2];
        assert!(v == 2 || v == 4);
        let mut expected = vec![
            vec![2, 4, 2, 4],
            vec![4, 2, 4, 2],
            vec![2, 4, 0, 4],
            vec![4, 2, 4, 2],
        ];
        expected[2][2] = v;
        assert_eq!(rows, expected);
    }
}

#[test]
fn spawn_on_a_full_board_does_nothing() {
    let rows = vec![
        vec![2, 4, 2, 4],
        vec![4, 2, 4, 2],
        vec![2, 4, 2, 4],
        vec![4, 2, 4, 2],
    ];
    let mut g = Grid::from_rows(rows.clone()).unwrap();
    spawn_tile(&mut g);
    assert_eq!(g.rows(), rows);
}

#[test]
fn spawn_adds_one_tile_to_an_empty_cell() {
    for _ in 0..200 {
        let before = vec![vec![2, 0, 0], vec![0, 4, 0], vec![0, 0, 8]];
        let mut g = Grid::from_rows(before.clone()).unwrap();
        spawn_tile(&mut g);
        let after = g.rows();
        let mut changed = 0;
        for r in 0..3 {
            for c in 0..3 {
                if after[r][c] != before[r][c] {
                    changed += 1;
                    assert_eq!(before[r][c], 0);
                    assert!(after[r][c] == 2 || after[r][c] == 4);
                }
            }
        }
        assert_eq!(changed, 1);
        let score = compute_score(&g);
        assert!(score == 16 || score == 18);
    }
}

#[test]
fn spawn_reaches_every_empty_cell_and_both_values() {
    let mut seen = vec![vec![false; 2]; 2];
    let mut twos = 0;
    let mut fours = 0;
    for _ in 0..2000 {
        let mut g = Grid::new(2);
        spawn_tile(&mut g);
        let rows = g.rows();
        for r in 0..2 {
            for c in 0..2 {
                if rows[r][c] != 0 {
                    seen[r][c] = true;
                    if rows[r][c] == 2 {
                        twos += 1;
                    } else {
                        fours += 1;
                    }
                }
            }
        }
    }
    assert_eq!(seen, vec![vec![true; 2]; 2]);
    assert_eq!(twos + fours, 2000);
    assert!(twos > fours);
    assert!(fours > 0);
}

#[test]
fn empty_cells_come_in_reading_order() {
    let g = Grid::from_rows(vec![vec![0, 2, 0], vec![4, 0, 8], vec![0, 0, 2]]).unwrap();
    assert_eq!(empty_cells(&g), vec![(0, 0), (0, 2), (1, 1), (2, 0), (2, 1)]);
    let full = Grid::from_rows(vec![vec![2, 4], vec![4, 2]]).unwrap();
    assert_eq!(empty_cells(&full), Vec::<(usize, usize)>::new());
}

#[test]
fn place_tile_puts_a_two_or_a_four() {
    let mut g = Grid::new(2);
    place_tile(&mut g, Some((0, 1)), true);
    assert_eq!(g.rows(), vec![vec![0, 2], vec![0, 0]]);
    place_tile(&mut g, Some((1, 0)), false);
    assert_eq!(g.rows(), vec![vec![0, 2], vec![4, 0]]);
    place_tile(&mut g, None, true);
    assert_eq!(g.rows(), vec![vec![0, 2], vec![4, 0]]);
    assert_eq!(compute_score(&g), 6);
}
