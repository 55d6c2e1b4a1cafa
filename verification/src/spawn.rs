//! Spawning a new tile in an empty cell of the grid.
use crate::grid::{
    has_empty_cell, holds_tiles, is_square, lemma_total_set_cell, set_cell, total, Grid,
};
use crate::line::is_tile_value;
use rand::rngs::ThreadRng;
use rand::seq::IteratorRandom;
use rand::Rng;
use vstd::arithmetic::power2::{lemma2_to64, pow2};
use vstd::prelude::*;

verus! {

/// Out of `TWO_CHANCE_OUT_OF` new tiles, this many hold a 2; the others hold a 4.
pub const TWO_CHANCE: u32 = 9;

/// See `TWO_CHANCE`.
pub const TWO_CHANCE_OUT_OF: u32 = 10;

/// The cell in row `r`, column `c` lies on the board and is empty.
pub open spec fn is_empty_cell(g: Seq<Seq<u32>>, r: int, c: int) -> bool {
    0 <= r < g.len() && 0 <= c < g[r].len() && g[r][c] == 0
}

/// Cell `a` comes before cell `b` when the board is read row by row.
pub open spec fn reads_before(a: (usize, usize), b: (usize, usize)) -> bool {
    a.0 < b.0 || (a.0 == b.0 && a.1 < b.1)
}

/// `cells` lists the empty cells of the board, each once, in reading order.
pub open spec fn lists_empty_cells(cells: Seq<(usize, usize)>, g: Seq<Seq<u32>>) -> bool {
    &&& forall|i: int|
        0 <= i < cells.len() ==> is_empty_cell(g, (#[trigger] cells[i]).0 as int, cells[i].1 as int)
    &&& forall|r: int, c: int| #[trigger]
        is_empty_cell(g, r, c) ==> cells.contains((r as usize, c as usize))
    &&& forall|i: int, j: int|
        0 <= i < j < cells.len() ==> reads_before(#[trigger] cells[i], #[trigger] cells[j])
}

/// The value of a new tile.
pub open spec fn new_tile(two: bool) -> u32 {
    if two {
        2
    } else {
        4
    }
}

/// The board after a new tile is put into the chosen cell, if one was chosen.
pub open spec fn placed(g: Seq<Seq<u32>>, choice: Option<(usize, usize)>, two: bool) -> Seq<
    Seq<u32>,
> {
    match choice {
        Some(cell) => set_cell(g, cell.0 as int, cell.1 as int, new_tile(two)),
        None => g,
    }
}

/// `after` is `before` with one new tile: a board without an empty cell stays
/// as it is; otherwise one empty cell now holds a 2 or a 4 and every other
/// cell is unchanged.
pub open spec fn is_spawn(before: Seq<Seq<u32>>, after: Seq<Seq<u32>>) -> bool {
    if has_empty_cell(before) {
        exists|r: int, c: int, v: u32|
            is_empty_cell(before, r, c) && (v == 2 || v == 4) && after == #[trigger] set_cell(
                before,
                r,
                c,
                v,
            )
    } else {
        after == before
    }
}

#[verifier::external_type_specification]
#[verifier::external_body]
pub struct ExThreadRng(ThreadRng);

/// `rand::thread_rng`: a handle to the random number generator of the
/// current thread. Nothing is claimed of the handle.
pub assume_specification[ rand::thread_rng ]() -> (rng: ThreadRng)
;

/// `rand::seq::IteratorRandom::choose` on the iterator over `cells`: one of
/// the listed cells, picked at random, and `None` exactly when the list is
/// empty. Which cell is picked is left open.
#[verifier::external_body]
fn choose_cell(cells: &Vec<(usize, usize)>, rng: &mut ThreadRng) -> (choice: Option<
    (usize, usize),
>)
    ensures
        choice is None <==> cells@.len() == 0,
        choice matches Some(cell) ==> cells@.contains(cell),
{
    cells.iter().choose(rng).copied()
}

/// `rand::Rng::gen_ratio`: `true` with a probability of `numerator` in
/// `denominator`. The outcome is left open, except that it is `true` when
/// the two are equal and `false` when `numerator` is zero. The call panics
/// on a zero `denominator` and on a `numerator` above it.
#[verifier::external_body]
fn random_ratio(rng: &mut ThreadRng, numerator: u32, denominator: u32) -> (hit: bool)
    requires
        denominator != 0,
        numerator <= denominator,
    ensures
        numerator == denominator ==> hit,
        numerator == 0 ==> !hit,
{
    rng.gen_ratio(numerator, denominator)
}

/// A new tile holds the value of a tile.
pub proof fn lemma_new_tile_value(two: bool)
    ensures
        is_tile_value(new_tile(two)),
{
    lemma2_to64();
    assert(pow2(1) == 2 && pow2(2) == 4);
}

/// A spawn on a board of tile values leaves a board of tile values.
pub proof fn lemma_spawn_holds_tiles(before: Seq<Seq<u32>>, after: Seq<Seq<u32>>)
    requires
        is_spawn(before, after),
        holds_tiles(before),
    ensures
        holds_tiles(after),
{
    lemma_new_tile_value(true);
    lemma_new_tile_value(false);
}

/// The empty cells of the board, in reading order.
pub fn empty_cells(grid: &Grid) -> (cells: Vec<(usize, usize)>)
    requires
        is_square(grid@),
    ensures
        lists_empty_cells(cells@, grid@),
        cells@.len() == 0 <==> !has_empty_cell(grid@),
{
    let n = grid.size();
    let mut cells: Vec<(usize, usize)> = Vec::new();
    let mut r: usize = 0;
    while r < n
        invariant
            is_square(grid@),
            n == grid@.len(),
            r <= n,
            forall|i: int|
                0 <= i < cells.len() ==> is_empty_cell(
                    grid@,
                    (#[trigger] cells@[i]).0 as int,
                    cells@[i].1 as int,
                ) && cells@[i].0 < r,
            forall|i: int, j: int| #[trigger]
                is_empty_cell(grid@, i, j) && i < r ==> cells@.contains((i as usize, j as usize)),
            forall|i: int, j: int|
                0 <= i < j < cells.len() ==> reads_before(#[trigger] cells@[i], #[trigger] cells@[j]),
        decreases n - r,
    {
        let mut c: usize = 0;
        while c < n
            invariant
                is_square(grid@),
                n == grid@.len(),
                r < n,
                c <= n,
                forall|i: int|
                    0 <= i < cells.len() ==> is_empty_cell(
                        grid@,
                        (#[trigger] cells@[i]).0 as int,
                        cells@[i].1 as int,
                    ) && (cells@[i].0 < r || (cells@[i].0 == r && cells@[i].1 < c)),
                forall|i: int, j: int| #[trigger]
                    is_empty_cell(grid@, i, j) && (i < r || (i == r && j < c))
                        ==> cells@.contains((i as usize, j as usize)),
                forall|i: int, j: int|
                    0 <= i < j < cells.len() ==> reads_before(
                        #[trigger] cells@[i],
                        #[trigger] cells@[j],
                    ),
            decreases n - c,
        {
            if grid.get(r, c) == 0 {
                let ghost listed = cells@;
                cells.push((r, c));
                proof {
                    assert(cells@[listed.len() as int] == (r, c));
                    assert forall|i: int, j: int| #[trigger]
                        is_empty_cell(grid@, i, j) && (i < r || (i == r && j < c + 1))
                        implies cells@.contains((i as usize, j as usize)) by {
                        if i < r || j < c {
                            let at = choose|at: int|
                                0 <= at < listed.len() && listed[at] == (i as usize, j as usize);
                            assert(cells@[at] == (i as usize, j as usize));
                        }
                    }
                }
            }
            c += 1;
        }
        r += 1;
    }
    proof {
        if has_empty_cell(grid@) {
            let (i, j) = choose|i: int, j: int|
                0 <= i < grid@.len() && 0 <= j < grid@[i].len() && #[trigger] grid@[i][j] == 0;
            assert(is_empty_cell(grid@, i, j));
        }
        if cells@.len() > 0 {
            assert(is_empty_cell(grid@, cells@[0].0 as int, cells@[0].1 as int));
            assert(grid@[cells@[0].0 as int][cells@[0].1 as int] == 0);
        }
    }
    cells
}

/// Puts a new tile into the chosen cell: a 2 if `two` holds, else a 4.
/// Without a chosen cell the board stays as it is.
pub fn place_tile(grid: &mut Grid, choice: Option<(usize, usize)>, two: bool)
    requires
        old(grid).wf(),
        choice matches Some(cell) ==> is_empty_cell(old(grid)@, cell.0 as int, cell.1 as int)
            && total(old(grid)@) + 4 <= u32::MAX,
    ensures
        final(grid).wf(),
        final(grid)@ == placed(old(grid)@, choice, two),
        total(final(grid)@) == total(old(grid)@) + (if choice is Some {
            new_tile(two) as int
        } else {
            0
        }),
{
    match choice {
        Some(cell) => {
            let value: u32 = if two {
                2
            } else {
                4
            };
            proof {
                lemma_total_set_cell(grid@, cell.0 as int, cell.1 as int, value);
            }
            grid.set(cell.0, cell.1, value);
        },
        None => {},
    }
}

/// Puts a new tile into an empty cell picked at random: a 2 in nine cases
/// out of ten, else a 4. A board without an empty cell stays as it is.
pub fn spawn_tile(grid: &mut Grid)
    requires
        old(grid).wf(),
        has_empty_cell(old(grid)@) ==> total(old(grid)@) + 4 <= u32::MAX,
    ensures
        final(grid).wf(),
        is_spawn(old(grid)@, final(grid)@),
        total(old(grid)@) <= total(final(grid)@) <= total(old(grid)@) + 4,
        holds_tiles(old(grid)@) ==> holds_tiles(final(grid)@),
{
    let cells = empty_cells(grid);
    let mut rng = rand::thread_rng();
    let choice = choose_cell(&cells, &mut rng);
    let two = random_ratio(&mut rng, TWO_CHANCE, TWO_CHANCE_OUT_OF);
    proof {
        if let Some(cell) = choice {
            let at = choose|at: int| 0 <= at < cells@.len() && cells@[at] == cell;
            assert(is_empty_cell(grid@, cells@[at].0 as int, cells@[at].1 as int));
        }
    }
    place_tile(grid, choice, two);
    proof {
        if let Some(cell) = choice {
            assert(grid@ == set_cell(old(grid)@, cell.0 as int, cell.1 as int, new_tile(two)));
        }
        if holds_tiles(old(grid)@) {
            lemma_spawn_holds_tiles(old(grid)@, grid@);
        }
    }
}

/// On a board with exactly one empty cell a spawn fills that cell, with a 2
/// or a 4, and changes nothing else.
pub proof fn lemma_spawn_fills_the_only_empty_cell(
    before: Seq<Seq<u32>>,
    after: Seq<Seq<u32>>,
    r: int,
    c: int,
)
    requires
        is_spawn(before, after),
        is_empty_cell(before, r, c),
        forall|i: int, j: int| is_empty_cell(before, i, j) ==> i == r && j == c,
    ensures
        after == set_cell(before, r, c, 2) || after == set_cell(before, r, c, 4),
{
    assert(before[r][c] == 0);
}

} // verus!
