//! One game: the state that is kept between turns, and what a turn does to it.
use crate::grid::{
    blank, compute_score, has_empty_cell, holds_tiles, is_move_possible, move_possible, total,
    Grid,
};
use crate::moves::{apply_move, moved, Direction};
use crate::spawn::{is_spawn, spawn_tile};
use vstd::prelude::*;

verus! {

/// The size of the board of a new game.
pub const BOARD_SIZE: usize = 4;

/// What is kept of a game between two runs: the board, the score when it was
/// last counted and the high score that the game started with.
pub struct GameState {
    pub game_board: Grid,
    pub current_score: u32,
    pub high_score: u32,
}

/// A key of the keyboard, as far as the game tells keys apart.
#[derive(Clone, Copy, Debug, PartialEq, Eq, Structural)]
pub enum Key {
    Up,
    Down,
    Left,
    Right,
    Char(char),
    Other,
}

/// What the player asks for with a key.
#[derive(Clone, Copy, Debug, PartialEq, Eq, Structural)]
pub enum Command {
    Move(Direction),
    Exit,
    Nothing,
}

/// What a turn has done, and what is left to do for the caller.
#[derive(Clone, Copy, Debug, PartialEq, Eq, Structural)]
pub enum Turn {
    /// Nothing has changed.
    Idle,
    /// The player leaves: the state is to be saved.
    Exit,
    /// The board has moved and a tile was spawned. `record` says that the
    /// high score has risen and is to be stored, `game_over` that no move is
    /// left.
    Moved { record: bool, game_over: bool },
}

/// A running game: its state and the highest score seen so far.
pub struct Session {
    pub state: GameState,
    pub high_score: u32,
}

/// The command that a key stands for: an arrow moves, `e` and `E` leave, any
/// other key does nothing.
pub open spec fn command_for(key: Key) -> Command {
    match key {
        Key::Up => Command::Move(Direction::Up),
        Key::Down => Command::Move(Direction::Down),
        Key::Left => Command::Move(Direction::Left),
        Key::Right => Command::Move(Direction::Right),
        Key::Char(c) => if c == 'e' || c == 'E' {
            Command::Exit
        } else {
            Command::Nothing
        },
        Key::Other => Command::Nothing,
    }
}

/// The command that a key stands for.
pub fn command_of(key: Key) -> (command: Command)
    ensures
        command == command_for(key),
{
    match key {
        Key::Up => Command::Move(Direction::Up),
        Key::Down => Command::Move(Direction::Down),
        Key::Left => Command::Move(Direction::Left),
        Key::Right => Command::Move(Direction::Right),
        Key::Char(c) => if c == 'e' || c == 'E' {
            Command::Exit
        } else {
            Command::Nothing
        },
        Key::Other => Command::Nothing,
    }
}

impl GameState {
    /// The state of a new game: an empty board of the usual size and no score.
    pub fn fresh(high_score: u32) -> (state: GameState)
        ensures
            state.game_board.wf(),
            state.game_board@ == blank(BOARD_SIZE as int),
            state.current_score == 0,
            state.high_score == high_score,
    {
        GameState { game_board: Grid::new(BOARD_SIZE), current_score: 0, high_score }
    }
}

impl Session {
    /// The board is well formed.
    pub open spec fn wf(&self) -> bool {
        self.state.game_board.wf()
    }

    /// The two games hold the same board and the same scores.
    pub open spec fn same_game(&self, other: &Session) -> bool {
        &&& self.state.game_board@ == other.state.game_board@
        &&& self.state.current_score == other.state.current_score
        &&& self.state.high_score == other.state.high_score
        &&& self.high_score == other.high_score
    }

    /// A spawn cannot take the score beyond a `u32`.
    pub open spec fn has_headroom(&self) -> bool {
        total(self.state.game_board@) + 4 <= u32::MAX
    }

    /// Whether a spawn cannot take the score beyond a `u32`.
    pub fn room_for_spawn(&self) -> (ok: bool)
        requires
            self.wf(),
        ensures
            ok == self.has_headroom(),
    {
        compute_score(&self.state.game_board) <= u32::MAX - 4
    }

    /// Takes up a game: the saved one, or a new one where none was saved.
    /// The score is counted from the board. A board without any score gets
    /// its first two tiles.
    pub fn start(saved: Option<GameState>, stored_high_score: u32) -> (session: Session)
        requires
            saved matches Some(state) ==> state.game_board.wf(),
        ensures
            session.wf(),
            session.high_score == stored_high_score,
            session.state.high_score == (match saved {
                Some(state) => state.high_score,
                None => stored_high_score,
            }),
            session.state.current_score == total(start_board(saved)),
            total(start_board(saved)) != 0 ==> session.state.game_board@ == start_board(saved),
            total(start_board(saved)) == 0 ==> exists|mid: Seq<Seq<u32>>|
                is_spawn(start_board(saved), mid) && #[trigger] is_spawn(
                    mid,
                    session.state.game_board@,
                ),
            holds_tiles(start_board(saved)) ==> holds_tiles(session.state.game_board@),
    {
        let mut state = match saved {
            Some(state) => state,
            None => GameState::fresh(stored_high_score),
        };
        state.current_score = compute_score(&state.game_board);
        if state.current_score == 0 {
            spawn_tile(&mut state.game_board);
            let ghost mid = state.game_board@;
            spawn_tile(&mut state.game_board);
            assert(is_spawn(mid, state.game_board@));
        }
        Session { state, high_score: stored_high_score }
    }

    /// Counts the score from the board after a move and a spawn, raises the
    /// high score to it where it is higher, and looks whether a move is left.
    pub fn finish_turn(&mut self) -> (turn: Turn)
        requires
            old(self).wf(),
        ensures
            final(self).state.game_board@ == old(self).state.game_board@,
            final(self).state.high_score == old(self).state.high_score,
            final(self).state.current_score == total(old(self).state.game_board@),
            final(self).high_score == (if total(old(self).state.game_board@) > old(
                self,
            ).high_score {
                total(old(self).state.game_board@)
            } else {
                old(self).high_score as int
            }),
            turn == (Turn::Moved {
                record: total(old(self).state.game_board@) > old(self).high_score,
                game_over: !move_possible(old(self).state.game_board@),
            }),
    {
        self.state.current_score = compute_score(&self.state.game_board);
        let record = self.state.current_score > self.high_score;
        if record {
            self.high_score = self.state.current_score;
        }
        let game_over = !is_move_possible(&self.state.game_board);
        Turn::Moved { record, game_over }
    }

    /// Plays one turn. A move that changes the board is followed by a spawn
    /// and by the count of the score; a move that changes nothing, and any
    /// other command, leaves the game as it is.
    pub fn play(&mut self, command: Command) -> (turn: Turn)
        requires
            old(self).wf(),
            old(self).has_headroom(),
        ensures
            final(self).wf(),
            final(self).state.high_score == old(self).state.high_score,
            holds_tiles(old(self).state.game_board@) ==> holds_tiles(final(self).state.game_board@),
            match command {
                Command::Move(dir) => if moved(old(self).state.game_board@, dir) != old(
                    self,
                ).state.game_board@ {
                    &&& is_spawn(
                        moved(old(self).state.game_board@, dir),
                        final(self).state.game_board@,
                    )
                    &&& final(self).state.current_score == total(final(self).state.game_board@)
                    &&& final(self).high_score == (if total(final(self).state.game_board@) > old(
                        self,
                    ).high_score {
                        total(final(self).state.game_board@)
                    } else {
                        old(self).high_score as int
                    })
                    &&& turn == (Turn::Moved {
                        record: total(final(self).state.game_board@) > old(self).high_score,
                        game_over: !move_possible(final(self).state.game_board@),
                    })
                } else {
                    final(self).same_game(old(self)) && turn == Turn::Idle
                },
                Command::Exit => final(self).same_game(old(self)) && turn == Turn::Exit,
                Command::Nothing => final(self).same_game(old(self)) && turn == Turn::Idle,
            },
    {
        match command {
            Command::Move(dir) => {
                if apply_move(&mut self.state.game_board, dir) {
                    spawn_tile(&mut self.state.game_board);
                    self.finish_turn()
                } else {
                    Turn::Idle
                }
            },
            Command::Exit => Turn::Exit,
            Command::Nothing => Turn::Idle,
        }
    }
}

/// The board that a game starts from: the saved one, or an empty one.
pub open spec fn start_board(saved: Option<GameState>) -> Seq<Seq<u32>> {
    match saved {
        Some(state) => state.game_board@,
        None => blank(BOARD_SIZE as int),
    }
}

} // verus!
