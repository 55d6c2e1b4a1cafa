use tile_grid::grid::{compute_score, Grid};
use tile_grid::moves::Direction;
use tile_grid::session::{command_of, Command, GameState, Key, Session, Turn, BOARD_SIZE};

fn tiles_on(grid: &Grid) -> usize {
    grid.rows().iter().flatten().filter(|v| **v != 0).count()
}

fn state(rows: Vec<Vec<u32>>, current_score: u32, high_score: u32) -> GameState {
    GameState { game_board: Grid::from_rows(rows).unwrap(), current_score, high_score }
}

#[test]
fn keys_stand_for_commands() {
    assert_eq!(command_of(Key::Up), Command::Move(Direction::Up));
    assert_eq!(command_of(Key::Down), Command::Move(Direction::Down));
    assert_eq!(command_of(Key::Left), Command::Move(Direction::Left));
    assert_eq!(command_of(Key::Right), Command::Move(Direction::Right));
    assert_eq!(command_of(Key::Char('e')), Command::Exit);
    assert_eq!(command_of(Key::Char('E')), Command::Exit);
    assert_eq!(command_of(Key::Char('q')), Command::Nothing);
    assert_eq!(command_of(Key::Other), Command::Nothing);
}

#[test]
fn a_fresh_state_is_an_empty_board() {
    let s = GameState::fresh(99);
    assert_eq!(BOARD_SIZE, 4);
    assert_eq!(s.game_board.rows(), vec![vec![0; 4]; 4]);
    assert_eq!(s.current_score, 0);
    assert_eq!(s.high_score, 99);
}

#[test]
fn a_new_game_starts_with_two_tiles() {
    let session = Session::start(None, 40);
    assert_eq!(tiles_on(&session.state.game_board), 2);
    assert_eq!(session.state.current_score, 0);
    assert_eq!(session.state.high_score, 40);
    assert_eq!(session.high_score, 40);
    let score = compute_score(&session.state.game_board);
    assert!(score == 4 || score == 6 || score == 8);
}

#[test]
fn a_saved_game_is_taken_up_as_it_is() {
    let rows = vec![vec![2, 4], vec![0, 8]];
    let session = Session::start(Some(state(rows.clone(), 3, 100)), 50);
    assert_eq!(session.state.game_board.rows(), rows);
    assert_eq!(session.state.current_score, 14);
    assert_eq!(session.state.high_score, 100);
    assert_eq!(session.high_score, 50);
}

#[test]
fn a_saved_empty_board_gets_two_tiles() {
    let session = Session::start(Some(state(vec![vec![0; 3]; 3], 12, 7)), 9);
    assert_eq!(tiles_on(&session.state.game_board), 2);
    assert_eq!(session.state.current_score, 0);
    assert_eq!(session.state.high_score, 7);
    assert_eq!(session.high_score, 9);
}

#[test]
fn exit_and_other_keys_leave_the_game_as_it_is() {
    let rows = vec![vec![2, 4], vec![0, 8]];
    let mut session = Session::start(Some(state(rows.clone(), 0, 5)), 5);
    assert!(session.room_for_spawn());
    assert_eq!(session.play(Command::Exit), Turn::Exit);
    assert_eq!(session.play(Command::Nothing), Turn::Idle);
    assert_eq!(session.state.game_board.rows(), rows);
    assert_eq!(session.state.current_score, 14);
    assert_eq!(session.high_score, 5);
}

#[test]
fn a_move_that_changes_nothing_is_idle() {
    let rows = vec![vec![2, 4], vec![0, 8]];
    let mut session = Session::start(Some(state(rows.clone(), 0, 5)), 5);
    assert_eq!(session.play(Command::Move(Direction::Right)), Turn::Idle);
    assert_eq!(session.state.game_board.rows(), rows);
    assert_eq!(session.high_score, 5);
}

#[test]
fn a_move_spawns_a_tile_and_counts_the_score() {
    let mut session = Session::start(Some(state(vec![vec![2, 2], vec![0, 0]], 0, 3)), 3);
    let turn = session.play(Command::Move(Direction::Left));
    let rows = session.state.game_board.rows();
    assert_eq!(rows[0][0], 4);
    assert_eq!(tiles_on(&session.state.game_board), 2);
    let score = compute_score(&session.state.game_board);
    assert!(score == 6 || score == 8);
    assert_eq!(session.state.current_score, score);
    assert_eq!(session.high_score, score);
    assert_eq!(session.state.high_score, 3);
    assert_eq!(turn, Turn::Moved { record: true, game_over: false });
}

#[test]
fn a_lower_score_is_no_record() {
    let mut session = Session::start(Some(state(vec![vec![2, 2], vec![0, 0]], 0, 0)), 1000);
    let turn = session.play(Command::Move(Direction::Left));
    assert_eq!(turn, Turn::Moved { record: false, game_over: false });
    assert_eq!(session.high_score, 1000);
}

#[test]
fn the_last_tile_can_end_the_game() {
    let mut over = 0;
    for _ in 0..200 {
        let mut session =
            Session::start(Some(state(vec![vec![2, 4], vec![8, 8]], 0, 0)), 0);
        let turn = session.play(Command::Move(Direction::Left));
        let rows = session.state.game_board.rows();
        assert_eq!(rows[0], vec![2, 4]);
        assert_eq!(rows[1][0], 16);
        let spawned = rows[1][1];
        assert!(spawned == 2 || spawned == 4);
        let game_over = spawned == 2;
        if game_over {
            over += 1;
        }
        assert_eq!(turn, Turn::Moved { record: true, game_over });
    }
    assert!(over > 0);
}

#[test]
fn finish_turn_counts_and_compares() {
    let mut session = Session {
        state: state(vec![vec![2, 4], vec![4, 2]], 0, 1),
        high_score: 12,
    };
    assert_eq!(session.finish_turn(), Turn::Moved { record: false, game_over: true });
    assert_eq!(session.state.current_score, 12);
    assert_eq!(session.high_score, 12);
    let mut higher = Session {
        state: state(vec![vec![2, 4], vec![4, 4]], 0, 1),
        high_score: 13,
    };
    assert_eq!(higher.finish_turn(), Turn::Moved { record: true, game_over: false });
    assert_eq!(higher.state.current_score, 14);
    assert_eq!(higher.high_score, 14);
    assert_eq!(higher.state.high_score, 1);
}

#[test]
fn headroom_is_four_below_the_limit() {
    let full = Session {
        state: state(vec![vec![u32::MAX - 4, 0], vec![0, 0]], 0, 0),
        high_score: 0,
    };
    assert!(full.room_for_spawn());
    let over = Session {
        state: state(vec![vec![u32::MAX - 3, 0], vec![0, 0]], 0, 0),
        high_score: 0,
    };
    assert!(!over.room_for_spawn());
}
