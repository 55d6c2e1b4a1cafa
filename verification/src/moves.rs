//! The four directional moves of the grid.
use crate::grid::{
    all_empty, column, has_empty_cell, has_equal_pair_in_column, has_equal_pair_in_row,
    holds_tiles, is_square, lemma_total_nonnegative, lemma_total_set_cell, move_possible,
    set_cell, total, Grid,
};
use crate::line::{
    has_equal_neighbours, holds_tile_values, is_packed, is_settled, lemma_line_sum_take_next,
    lemma_line_sum_zeros, lemma_slide_fixed_point, lemma_slide_holds_tile_values,
    lemma_slide_is_packed, lemma_slide_len, lemma_slide_sum, line_sum, slide, slide_line, zeros,
};
use vstd::prelude::*;

verus! {

/// The direction of a move: the side of the board toward which tiles slide.
#[derive(Clone, Copy, Debug, PartialEq, Eq, Structural)]
pub enum Direction {
    Left,
    Right,
    Up,
    Down,
}

/// A move treats the board as `n` lines, each read from the side the tiles
/// slide toward. This is the cell (row, column) at position `i` of line `k`.
pub open spec fn line_cell(dir: Direction, n: int, k: int, i: int) -> (int, int) {
    match dir {
        Direction::Left => (k, i),
        Direction::Right => (k, n - 1 - i),
        Direction::Up => (i, k),
        Direction::Down => (n - 1 - i, k),
    }
}

/// The line and the position in it (line, position) of the cell in row `r`,
/// column `c`: the inverse of `line_cell`.
pub open spec fn cell_line(dir: Direction, n: int, r: int, c: int) -> (int, int) {
    match dir {
        Direction::Left => (r, c),
        Direction::Right => (r, n - 1 - c),
        Direction::Up => (c, r),
        Direction::Down => (c, n - 1 - r),
    }
}

/// Line `k` of the board under a direction, read from the target side.
pub open spec fn line_of(g: Seq<Seq<u32>>, dir: Direction, k: int) -> Seq<u32> {
    Seq::new(
        g.len(),
        |i: int| g[line_cell(dir, g.len() as int, k, i).0][line_cell(dir, g.len() as int, k, i).1],
    )
}

/// The board after a move: every line has slid toward the target side.
pub open spec fn moved(g: Seq<Seq<u32>>, dir: Direction) -> Seq<Seq<u32>> {
    Seq::new(
        g.len(),
        |r: int|
            Seq::new(
                g.len(),
                |c: int|
                    slide(line_of(g, dir, cell_line(dir, g.len() as int, r, c).0))[cell_line(
                        dir,
                        g.len() as int,
                        r,
                        c,
                    ).1],
            ),
    )
}

/// The board with the first `upto` cells of line `k` taken from `line`.
pub open spec fn with_line_prefix(
    g: Seq<Seq<u32>>,
    dir: Direction,
    k: int,
    line: Seq<u32>,
    upto: int,
) -> Seq<Seq<u32>> {
    Seq::new(
        g.len(),
        |r: int|
            Seq::new(
                g.len(),
                |c: int|
                    if cell_line(dir, g.len() as int, r, c).0 == k && cell_line(
                        dir,
                        g.len() as int,
                        r,
                        c,
                    ).1 < upto {
                        line[cell_line(dir, g.len() as int, r, c).1]
                    } else {
                        g[r][c]
                    },
            ),
    )
}

/// The board with line `k` replaced by `line`.
pub open spec fn with_line(g: Seq<Seq<u32>>, dir: Direction, k: int, line: Seq<u32>) -> Seq<
    Seq<u32>,
> {
    with_line_prefix(g, dir, k, line, g.len() as int)
}

/// The board in which the lines before `upto` have slid and the others have not.
pub open spec fn moved_upto(g: Seq<Seq<u32>>, dir: Direction, upto: int) -> Seq<Seq<u32>> {
    Seq::new(
        g.len(),
        |r: int|
            Seq::new(
                g.len(),
                |c: int|
                    if cell_line(dir, g.len() as int, r, c).0 < upto {
                        moved(g, dir)[r][c]
                    } else {
                        g[r][c]
                    },
            ),
    )
}

/// Replacing a prefix of a line changes the total by the difference of the
/// two prefixes' sums.
pub proof fn lemma_total_with_line_prefix(
    g: Seq<Seq<u32>>,
    dir: Direction,
    k: int,
    line: Seq<u32>,
    upto: int,
)
    requires
        is_square(g),
        0 <= k < g.len(),
        line.len() == g.len(),
        0 <= upto <= g.len(),
    ensures
        total(with_line_prefix(g, dir, k, line, upto)) == total(g) - line_sum(
            line_of(g, dir, k).take(upto),
        ) + line_sum(line.take(upto)),
    decreases upto,
{
    let n = g.len() as int;
    if upto == 0 {
        assert(with_line_prefix(g, dir, k, line, 0) =~~= g);
    } else {
        let i = upto - 1;
        let p = with_line_prefix(g, dir, k, line, i);
        let (r, c) = line_cell(dir, n, k, i);
        lemma_total_with_line_prefix(g, dir, k, line, i);
        assert(with_line_prefix(g, dir, k, line, upto) =~~= set_cell(p, r, c, line[i]));
        lemma_total_set_cell(p, r, c, line[i]);
        lemma_line_sum_take_next(line_of(g, dir, k), i);
        lemma_line_sum_take_next(line, i);
    }
}

/// Replacing a line changes the total by the difference of the line sums.
pub proof fn lemma_total_with_line(g: Seq<Seq<u32>>, dir: Direction, k: int, line: Seq<u32>)
    requires
        is_square(g),
        0 <= k < g.len(),
        line.len() == g.len(),
    ensures
        total(with_line(g, dir, k, line)) == total(g) - line_sum(line_of(g, dir, k)) + line_sum(
            line,
        ),
{
    lemma_total_with_line_prefix(g, dir, k, line, g.len() as int);
    assert(line.take(g.len() as int) == line);
    assert(line_of(g, dir, k).take(g.len() as int) == line_of(g, dir, k));
}

/// No line of the board sums to more than the whole board.
pub proof fn lemma_line_within_total(g: Seq<Seq<u32>>, dir: Direction, k: int)
    requires
        is_square(g),
        0 <= k < g.len(),
    ensures
        line_sum(line_of(g, dir, k)) <= total(g),
{
    let blank_line = zeros(g.len() as int);
    lemma_total_with_line(g, dir, k, blank_line);
    lemma_line_sum_zeros(g.len() as int);
    lemma_total_nonnegative(with_line(g, dir, k, blank_line));
}

/// Line `k` of the moved board is the slide of line `k` of the board.
pub proof fn lemma_line_of_moved(g: Seq<Seq<u32>>, dir: Direction, k: int)
    requires
        is_square(g),
        0 <= k < g.len(),
    ensures
        line_of(moved(g, dir), dir, k) == slide(line_of(g, dir, k)),
{
    lemma_slide_len(line_of(g, dir, k));
    assert(line_of(moved(g, dir), dir, k) =~= slide(line_of(g, dir, k)));
}

/// A move keeps the board square.
pub proof fn lemma_moved_is_square(g: Seq<Seq<u32>>, dir: Direction)
    requires
        is_square(g),
    ensures
        is_square(moved(g, dir)),
{
}

proof fn lemma_total_moved_upto(g: Seq<Seq<u32>>, dir: Direction, upto: int)
    requires
        is_square(g),
        total(g) <= u32::MAX,
        0 <= upto <= g.len(),
    ensures
        total(moved_upto(g, dir, upto)) == total(g),
    decreases upto,
{
    if upto == 0 {
        assert(moved_upto(g, dir, 0) =~~= g);
    } else {
        let k = upto - 1;
        let start = moved_upto(g, dir, k);
        let line = line_of(g, dir, k);
        lemma_total_moved_upto(g, dir, k);
        assert(line_of(start, dir, k) =~= line);
        lemma_line_within_total(start, dir, k);
        lemma_slide_len(line);
        lemma_slide_sum(line);
        lemma_total_with_line(start, dir, k, slide(line));
        assert(with_line(start, dir, k, slide(line)) =~~= moved_upto(g, dir, upto));
    }
}

/// A move keeps the sum of all cells: a merge puts the sum of two tiles into
/// one cell and empties the other, and sliding moves values without changing
/// them.
pub proof fn lemma_move_keeps_total(g: Seq<Seq<u32>>, dir: Direction)
    requires
        is_square(g),
        total(g) <= u32::MAX,
    ensures
        total(moved(g, dir)) == total(g),
{
    lemma_total_moved_upto(g, dir, g.len() as int);
    assert(moved_upto(g, dir, g.len() as int) =~~= moved(g, dir));
}

/// Every line of the board, read along `dir`, is settled.
pub open spec fn is_settled_along(g: Seq<Seq<u32>>, dir: Direction) -> bool {
    forall|k: int| 0 <= k < g.len() ==> is_settled(#[trigger] line_of(g, dir, k))
}

/// Some line of the board, read along `dir`, holds two equal neighbouring tiles.
pub open spec fn has_equal_neighbours_along(g: Seq<Seq<u32>>, dir: Direction) -> bool {
    exists|k: int| 0 <= k < g.len() && has_equal_neighbours(#[trigger] line_of(g, dir, k))
}

/// A move leaves the board as it is exactly when every line along the
/// direction is settled: packed toward the target side, with no two equal
/// tiles next to each other.
pub proof fn lemma_move_fixed_point(g: Seq<Seq<u32>>, dir: Direction)
    requires
        is_square(g),
        total(g) <= u32::MAX,
    ensures
        moved(g, dir) == g <==> is_settled_along(g, dir),
{
    assert forall|k: int| 0 <= k < g.len() implies (slide(#[trigger] line_of(g, dir, k))
        == line_of(g, dir, k) <==> is_settled(line_of(g, dir, k))) by {
        lemma_line_within_total(g, dir, k);
        lemma_slide_fixed_point(line_of(g, dir, k));
    }
    if moved(g, dir) == g {
        assert forall|k: int| 0 <= k < g.len() implies is_settled(#[trigger] line_of(g, dir, k)) by {
            lemma_line_of_moved(g, dir, k);
        }
    }
    if is_settled_along(g, dir) {
        assert(moved(g, dir) =~~= g);
    }
}

/// A second move in the same direction, made at once after the first,
/// changes nothing, provided the first has left no two equal tiles next to
/// each other along the direction. (Where it has, the second move merges
/// them.)
pub proof fn lemma_second_move_changes_nothing(g: Seq<Seq<u32>>, dir: Direction)
    requires
        is_square(g),
        total(g) <= u32::MAX,
        !has_equal_neighbours_along(moved(g, dir), dir),
    ensures
        moved(moved(g, dir), dir) == moved(g, dir),
{
    let once = moved(g, dir);
    lemma_move_keeps_total(g, dir);
    assert forall|k: int| 0 <= k < once.len() implies is_settled(#[trigger] line_of(once, dir, k)) by {
        lemma_line_of_moved(g, dir, k);
        lemma_line_within_total(g, dir, k);
        lemma_slide_is_packed(line_of(g, dir, k));
    }
    lemma_move_fixed_point(once, dir);
}

/// A second move in the same direction changes the board where the first
/// has left two equal tiles next to each other along the direction.
pub proof fn lemma_second_move_merges_again(g: Seq<Seq<u32>>, dir: Direction)
    requires
        is_square(g),
        total(g) <= u32::MAX,
        has_equal_neighbours_along(moved(g, dir), dir),
    ensures
        moved(moved(g, dir), dir) != moved(g, dir),
{
    let once = moved(g, dir);
    lemma_move_keeps_total(g, dir);
    lemma_move_fixed_point(once, dir);
}

/// A move to the left slides every row toward its first cell.
pub proof fn lemma_moved_left(g: Seq<Seq<u32>>, r: int)
    requires
        is_square(g),
        0 <= r < g.len(),
    ensures
        moved(g, Direction::Left)[r] == slide(g[r]),
{
    assert(line_of(g, Direction::Left, r) =~= g[r]);
    lemma_slide_len(g[r]);
    assert(moved(g, Direction::Left)[r] =~= slide(g[r]));
}

/// A move to the right slides every row, read from its last cell, toward
/// that cell.
pub proof fn lemma_moved_right(g: Seq<Seq<u32>>, r: int)
    requires
        is_square(g),
        0 <= r < g.len(),
    ensures
        moved(g, Direction::Right)[r] == slide(g[r].reverse()).reverse(),
{
    assert(line_of(g, Direction::Right, r) =~= g[r].reverse());
    lemma_slide_len(g[r].reverse());
    assert(moved(g, Direction::Right)[r] =~= slide(g[r].reverse()).reverse());
}

/// A move up slides every column toward its top cell.
pub proof fn lemma_moved_up(g: Seq<Seq<u32>>, c: int)
    requires
        is_square(g),
        0 <= c < g.len(),
    ensures
        column(moved(g, Direction::Up), c) == slide(column(g, c)),
{
    assert(line_of(g, Direction::Up, c) =~= column(g, c));
    lemma_slide_len(column(g, c));
    assert(column(moved(g, Direction::Up), c) =~= slide(column(g, c)));
}

/// A move down slides every column, read from its bottom cell, toward that
/// cell.
pub proof fn lemma_moved_down(g: Seq<Seq<u32>>, c: int)
    requires
        is_square(g),
        0 <= c < g.len(),
    ensures
        column(moved(g, Direction::Down), c) == slide(column(g, c).reverse()).reverse(),
{
    assert(line_of(g, Direction::Down, c) =~= column(g, c).reverse());
    lemma_slide_len(column(g, c).reverse());
    assert(column(moved(g, Direction::Down), c) =~= slide(column(g, c).reverse()).reverse());
}

/// A move of a board of tile values leaves a board of tile values.
pub proof fn lemma_move_holds_tiles(g: Seq<Seq<u32>>, dir: Direction)
    requires
        is_square(g),
        total(g) <= u32::MAX,
        holds_tiles(g),
    ensures
        holds_tiles(moved(g, dir)),
{
    let n = g.len() as int;
    let after = moved(g, dir);
    assert forall|r: int, c: int| 0 <= r < after.len() && 0 <= c < after[r].len() implies after[r][c]
        == 0 || crate::line::is_tile_value(#[trigger] after[r][c]) by {
        let k = cell_line(dir, n, r, c).0;
        let i = cell_line(dir, n, r, c).1;
        let line = line_of(g, dir, k);
        assert forall|j: int| 0 <= j < line.len() implies line[j] == 0
            || crate::line::is_tile_value(#[trigger] line[j]) by {
            let cell = line_cell(dir, n, k, j);
            assert(line[j] == g[cell.0][cell.1]);
        }
        lemma_line_within_total(g, dir, k);
        lemma_slide_holds_tile_values(line);
        lemma_slide_len(line);
        assert(after[r][c] == slide(line)[i]);
    }
}

/// On a terminal board no move changes anything.
pub proof fn lemma_terminal_board_is_fixed(g: Seq<Seq<u32>>, dir: Direction)
    requires
        is_square(g),
        total(g) <= u32::MAX,
        !move_possible(g),
    ensures
        moved(g, dir) == g,
{
    let n = g.len() as int;
    assert forall|k: int| 0 <= k < n implies is_settled(#[trigger] line_of(g, dir, k)) by {
        let line = line_of(g, dir, k);
        assert forall|i: int| 0 <= i < n implies #[trigger] line[i] != 0 by {
            let cell = line_cell(dir, n, k, i);
            assert(g[cell.0][cell.1] != 0);
        }
        assert forall|i: int| 0 <= i < n - 1 implies #[trigger] line[i] != line[i + 1] by {
            let a = line_cell(dir, n, k, i);
            let b = line_cell(dir, n, k, i + 1);
            match dir {
                Direction::Left => {
                    assert(g[a.0][a.1] != g[a.0][a.1 + 1]);
                },
                Direction::Right => {
                    assert(g[b.0][b.1] != g[b.0][b.1 + 1]);
                },
                Direction::Up => {
                    assert(g[a.0][a.1] != g[a.0 + 1][a.1]);
                },
                Direction::Down => {
                    assert(g[b.0][b.1] != g[b.0 + 1][b.1]);
                },
            }
        }
    }
    lemma_move_fixed_point(g, dir);
}

/// A line with an empty cell before a tile is not settled.
proof fn lemma_gap_is_unsettled(g: Seq<Seq<u32>>, dir: Direction, k: int, i: int, j: int)
    requires
        is_square(g),
        total(g) <= u32::MAX,
        0 <= k < g.len(),
        0 <= i < j < g.len(),
        line_of(g, dir, k)[i] == 0,
        line_of(g, dir, k)[j] != 0,
    ensures
        moved(g, dir) != g,
{
    assert(!is_packed(line_of(g, dir, k)));
    lemma_move_fixed_point(g, dir);
}

/// A line with two equal neighbouring tiles is not settled.
proof fn lemma_pair_is_unsettled(g: Seq<Seq<u32>>, dir: Direction, k: int, i: int)
    requires
        is_square(g),
        total(g) <= u32::MAX,
        0 <= k < g.len(),
        0 <= i < g.len() - 1,
        line_of(g, dir, k)[i] != 0,
        line_of(g, dir, k)[i] == line_of(g, dir, k)[i + 1],
    ensures
        moved(g, dir) != g,
{
    assert(has_equal_neighbours(line_of(g, dir, k)));
    lemma_move_fixed_point(g, dir);
}

/// In a row or column that holds an empty cell and a tile, a move toward one
/// of its two ends changes the board.
proof fn lemma_mixed_row_moves(g: Seq<Seq<u32>>, r: int, c0: int, c1: int)
    requires
        is_square(g),
        total(g) <= u32::MAX,
        0 <= r < g.len(),
        0 <= c0 < g.len(),
        0 <= c1 < g.len(),
        g[r][c0] == 0,
        g[r][c1] != 0,
    ensures
        moved(g, Direction::Left) != g || moved(g, Direction::Right) != g,
{
    let n = g.len() as int;
    if c0 < c1 {
        lemma_gap_is_unsettled(g, Direction::Left, r, c0, c1);
    } else {
        lemma_gap_is_unsettled(g, Direction::Right, r, n - 1 - c0, n - 1 - c1);
    }
}

proof fn lemma_mixed_column_moves(g: Seq<Seq<u32>>, c: int, r0: int, r1: int)
    requires
        is_square(g),
        total(g) <= u32::MAX,
        0 <= c < g.len(),
        0 <= r0 < g.len(),
        0 <= r1 < g.len(),
        g[r0][c] == 0,
        g[r1][c] != 0,
    ensures
        moved(g, Direction::Up) != g || moved(g, Direction::Down) != g,
{
    let n = g.len() as int;
    if r0 < r1 {
        lemma_gap_is_unsettled(g, Direction::Up, c, r0, r1);
    } else {
        lemma_gap_is_unsettled(g, Direction::Down, c, n - 1 - r0, n - 1 - r1);
    }
}

/// Some move changes the board exactly when the terminal test allows a move
/// and the board holds at least one tile. (On a board without any tile the
/// test allows a move, for the empty cells, and yet no move changes it.)
pub proof fn lemma_some_move_changes(g: Seq<Seq<u32>>)
    requires
        is_square(g),
        total(g) <= u32::MAX,
    ensures
        (exists|dir: Direction| #[trigger] moved(g, dir) != g) <==> move_possible(g) && !all_empty(
            g,
        ),
{
    let n = g.len() as int;
    if !move_possible(g) {
        assert forall|dir: Direction| #[trigger] moved(g, dir) == g by {
            lemma_terminal_board_is_fixed(g, dir);
        }
    }
    if all_empty(g) {
        assert forall|dir: Direction| #[trigger] moved(g, dir) == g by {
            assert forall|k: int| 0 <= k < n implies is_settled(#[trigger] line_of(g, dir, k)) by {
                let line = line_of(g, dir, k);
                assert forall|i: int| 0 <= i < n implies #[trigger] line[i] == 0 by {
                    let cell = line_cell(dir, n, k, i);
                    assert(g[cell.0][cell.1] == 0);
                }
            }
            lemma_move_fixed_point(g, dir);
        }
    }
    if move_possible(g) && !all_empty(g) {
        let (r1, c1) = choose|r: int, c: int|
            0 <= r < g.len() && 0 <= c < g[r].len() && #[trigger] g[r][c] != 0;
        if has_empty_cell(g) {
            let (r0, c0) = choose|r: int, c: int|
                0 <= r < g.len() && 0 <= c < g[r].len() && #[trigger] g[r][c] == 0;
            if g[r0][c1] != 0 {
                lemma_mixed_row_moves(g, r0, c0, c1);
            } else {
                lemma_mixed_column_moves(g, c1, r0, r1);
            }
        } else if has_equal_pair_in_row(g) {
            let (r, c) = choose|r: int, c: int|
                0 <= r < g.len() && 0 <= c < g[r].len() - 1 && #[trigger] g[r][c] == g[r][c + 1];
            assert(g[r][c] != 0);
            lemma_pair_is_unsettled(g, Direction::Left, r, c);
        } else {
            let (r, c) = choose|r: int, c: int|
                0 <= r < g.len() - 1 && 0 <= c < g[r].len() && #[trigger] g[r][c] == g[r + 1][c];
            assert(g[r][c] != 0);
            lemma_pair_is_unsettled(g, Direction::Up, c, r);
        }
    }
}

fn line_position(dir: Direction, n: usize, k: usize, i: usize) -> (cell: (usize, usize))
    requires
        k < n,
        i < n,
    ensures
        (cell.0 as int, cell.1 as int) == line_cell(dir, n as int, k as int, i as int),
        cell.0 < n,
        cell.1 < n,
{
    match dir {
        Direction::Left => (k, i),
        Direction::Right => (k, n - 1 - i),
        Direction::Up => (i, k),
        Direction::Down => (n - 1 - i, k),
    }
}

fn read_line(grid: &Grid, dir: Direction, k: usize) -> (line: Vec<u32>)
    requires
        is_square(grid@),
        k < grid@.len(),
    ensures
        line@ == line_of(grid@, dir, k as int),
{
    let n = grid.size();
    let mut line: Vec<u32> = Vec::new();
    let mut i: usize = 0;
    while i < n
        invariant
            is_square(grid@),
            n == grid@.len(),
            k < n,
            i <= n,
            line.len() == i,
            forall|j: int| 0 <= j < i ==> line@[j] == line_of(grid@, dir, k as int)[j],
        decreases n - i,
    {
        let cell = line_position(dir, n, k, i);
        line.push(grid.get(cell.0, cell.1));
        i += 1;
    }
    line
}

fn write_line(grid: &mut Grid, dir: Direction, k: usize, line: &Vec<u32>)
    requires
        is_square(old(grid)@),
        k < old(grid)@.len(),
        line.len() == old(grid)@.len(),
    ensures
        final(grid)@ == with_line(old(grid)@, dir, k as int, line@),
{
    let ghost orig = grid@;
    let n = grid.size();
    let mut i: usize = 0;
    proof {
        assert(with_line_prefix(orig, dir, k as int, line@, 0) =~~= orig);
    }
    while i < n
        invariant
            is_square(orig),
            n == orig.len(),
            k < n,
            i <= n,
            line.len() == n,
            grid@ == with_line_prefix(orig, dir, k as int, line@, i as int),
        decreases n - i,
    {
        let cell = line_position(dir, n, k, i);
        let ghost before = grid@;
        grid.set(cell.0, cell.1, line[i]);
        proof {
            assert(set_cell(before, cell.0 as int, cell.1 as int, line@[i as int])
                =~~= with_line_prefix(orig, dir, k as int, line@, i + 1));
        }
        i += 1;
    }
}

/// Applies a move in place: every line slides toward the side that `dir`
/// names. Returns whether the board is now different from what it was.
pub fn apply_move(grid: &mut Grid, dir: Direction) -> (changed: bool)
    requires
        old(grid).wf(),
    ensures
        final(grid).wf(),
        final(grid)@ == moved(old(grid)@, dir),
        total(final(grid)@) == total(old(grid)@),
        holds_tiles(old(grid)@) ==> holds_tiles(final(grid)@),
        changed == (final(grid)@ != old(grid)@),
{
    let before = grid.clone();
    let ghost orig = grid@;
    let n = grid.size();
    let mut k: usize = 0;
    proof {
        assert(moved_upto(orig, dir, 0) =~~= orig);
    }
    while k < n
        invariant
            is_square(orig),
            total(orig) <= u32::MAX,
            n == orig.len(),
            k <= n,
            grid@ == moved_upto(orig, dir, k as int),
        decreases n - k,
    {
        let mut line = read_line(grid, dir, k);
        proof {
            assert(line@ =~= line_of(orig, dir, k as int));
            lemma_line_within_total(orig, dir, k as int);
            lemma_slide_len(line@);
        }
        slide_line(&mut line);
        write_line(grid, dir, k, &line);
        proof {
            assert(grid@ =~~= moved_upto(orig, dir, k + 1));
        }
        k += 1;
    }
    proof {
        assert(moved_upto(orig, dir, n as int) =~~= moved(orig, dir));
        lemma_move_keeps_total(orig, dir);
        if holds_tiles(orig) {
            lemma_move_holds_tiles(orig, dir);
        }
    }
    !grid.same_cells(&before)
}

/// Slides every row toward its first cell, merging equal neighbours once.
/// Returns whether the board has changed.
pub fn move_left(grid: &mut Grid) -> (changed: bool)
    requires
        old(grid).wf(),
    ensures
        final(grid).wf(),
        final(grid)@ == moved(old(grid)@, Direction::Left),
        forall|r: int|
            0 <= r < old(grid)@.len() ==> #[trigger] final(grid)@[r] == slide(old(grid)@[r]),
        total(final(grid)@) == total(old(grid)@),
        changed == (final(grid)@ != old(grid)@),
{
    let changed = apply_move(grid, Direction::Left);
    proof {
        assert forall|r: int| 0 <= r < old(grid)@.len() implies #[trigger] grid@[r] == slide(
            old(grid)@[r],
        ) by {
            lemma_moved_left(old(grid)@, r);
        }
    }
    changed
}

/// Slides every row toward its last cell, merging equal neighbours once.
/// Returns whether the board has changed.
pub fn move_right(grid: &mut Grid) -> (changed: bool)
    requires
        old(grid).wf(),
    ensures
        final(grid).wf(),
        final(grid)@ == moved(old(grid)@, Direction::Right),
        forall|r: int|
            0 <= r < old(grid)@.len() ==> #[trigger] final(grid)@[r] == slide(
                old(grid)@[r].reverse(),
            ).reverse(),
        total(final(grid)@) == total(old(grid)@),
        changed == (final(grid)@ != old(grid)@),
{
    let changed = apply_move(grid, Direction::Right);
    proof {
        assert forall|r: int| 0 <= r < old(grid)@.len() implies #[trigger] grid@[r] == slide(
            old(grid)@[r].reverse(),
        ).reverse() by {
            lemma_moved_right(old(grid)@, r);
        }
    }
    changed
}

/// Slides every column toward its top cell, merging equal neighbours once.
/// Returns whether the board has changed.
pub fn move_up(grid: &mut Grid) -> (changed: bool)
    requires
        old(grid).wf(),
    ensures
        final(grid).wf(),
        final(grid)@ == moved(old(grid)@, Direction::Up),
        forall|c: int|
            0 <= c < old(grid)@.len() ==> #[trigger] column(final(grid)@, c) == slide(
                column(old(grid)@, c),
            ),
        total(final(grid)@) == total(old(grid)@),
        changed == (final(grid)@ != old(grid)@),
{
    let changed = apply_move(grid, Direction::Up);
    proof {
        assert forall|c: int| 0 <= c < old(grid)@.len() implies #[trigger] column(grid@, c)
            == slide(column(old(grid)@, c)) by {
            lemma_moved_up(old(grid)@, c);
        }
    }
    changed
}

/// Slides every column toward its bottom cell, merging equal neighbours
/// once. Returns whether the board has changed.
pub fn move_down(grid: &mut Grid) -> (changed: bool)
    requires
        old(grid).wf(),
    ensures
        final(grid).wf(),
        final(grid)@ == moved(old(grid)@, Direction::Down),
        forall|c: int|
            0 <= c < old(grid)@.len() ==> #[trigger] column(final(grid)@, c) == slide(
                column(old(grid)@, c).reverse(),
            ).reverse(),
        total(final(grid)@) == total(old(grid)@),
        changed == (final(grid)@ != old(grid)@),
{
    let changed = apply_move(grid, Direction::Down);
    proof {
        assert forall|c: int| 0 <= c < old(grid)@.len() implies #[trigger] column(grid@, c)
            == slide(column(old(grid)@, c).reverse()).reverse() by {
            lemma_moved_down(old(grid)@, c);
        }
    }
    changed
}

} // verus!
