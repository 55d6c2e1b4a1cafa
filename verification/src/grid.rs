//! The grid: a square board of tile values, its score and its terminal test.
use crate::line::{
    is_tile_value, lemma_line_sum_nonnegative, lemma_line_sum_update, lemma_line_sum_zeros,
    line_sum, zeros,
};
use vstd::prelude::*;

verus! {

/// The board is square and has at least one cell.
pub open spec fn is_square(g: Seq<Seq<u32>>) -> bool {
    &&& g.len() >= 1
    &&& forall|r: int| 0 <= r < g.len() ==> (#[trigger] g[r]).len() == g.len()
}

/// The sum of all cells of the board.
pub open spec fn total(g: Seq<Seq<u32>>) -> int
    decreases g.len(),
{
    if g.len() == 0 {
        0
    } else {
        line_sum(g[0]) + total(g.skip(1))
    }
}

/// The board with the cell in row `r`, column `c` replaced by `v`.
pub open spec fn set_cell(g: Seq<Seq<u32>>, r: int, c: int, v: u32) -> Seq<Seq<u32>> {
    g.update(r, g[r].update(c, v))
}

/// Column `c` of the board, read from the top.
pub open spec fn column(g: Seq<Seq<u32>>, c: int) -> Seq<u32> {
    Seq::new(g.len(), |r: int| g[r][c])
}

/// The board of `n` rows of `n` empty cells.
pub open spec fn blank(n: int) -> Seq<Seq<u32>> {
    Seq::new(if n >= 0 { n as nat } else { 0 }, |r: int| zeros(n))
}

/// Every cell of the board is empty or holds the value of a tile: a power of
/// two, from 2 on.
pub open spec fn holds_tiles(g: Seq<Seq<u32>>) -> bool {
    forall|r: int, c: int|
        0 <= r < g.len() && 0 <= c < g[r].len() ==> g[r][c] == 0 || is_tile_value(
            #[trigger] g[r][c],
        )
}

/// Every cell of the board is empty.
pub open spec fn all_empty(g: Seq<Seq<u32>>) -> bool {
    forall|r: int, c: int| 0 <= r < g.len() && 0 <= c < g[r].len() ==> #[trigger] g[r][c] == 0
}

/// Some cell is empty.
pub open spec fn has_empty_cell(g: Seq<Seq<u32>>) -> bool {
    exists|r: int, c: int| 0 <= r < g.len() && 0 <= c < g[r].len() && #[trigger] g[r][c] == 0
}

/// Some cell equals its right-hand neighbour.
pub open spec fn has_equal_pair_in_row(g: Seq<Seq<u32>>) -> bool {
    exists|r: int, c: int|
        0 <= r < g.len() && 0 <= c < g[r].len() - 1 && #[trigger] g[r][c] == g[r][c + 1]
}

/// Some cell equals the neighbour below it.
pub open spec fn has_equal_pair_in_column(g: Seq<Seq<u32>>) -> bool {
    exists|r: int, c: int|
        0 <= r < g.len() - 1 && 0 <= c < g[r].len() && #[trigger] g[r][c] == g[r + 1][c]
}

/// A move can still be made: the board is terminal exactly when it has no
/// empty cell and no two equal neighbours in any row or column.
pub open spec fn move_possible(g: Seq<Seq<u32>>) -> bool {
    has_empty_cell(g) || has_equal_pair_in_row(g) || has_equal_pair_in_column(g)
}

pub proof fn lemma_total_nonnegative(g: Seq<Seq<u32>>)
    ensures
        total(g) >= 0,
    decreases g.len(),
{
    if g.len() > 0 {
        lemma_line_sum_nonnegative(g[0]);
        lemma_total_nonnegative(g.skip(1));
    }
}

proof fn lemma_total_blank(rows: int, n: int)
    requires
        rows >= 0,
    ensures
        total(Seq::new(rows as nat, |r: int| zeros(n))) == 0,
    decreases rows,
{
    if rows > 0 {
        let g = Seq::new(rows as nat, |r: int| zeros(n));
        assert(g.skip(1) =~= Seq::new((rows - 1) as nat, |r: int| zeros(n)));
        lemma_total_blank(rows - 1, n);
        lemma_line_sum_zeros(n);
    }
}

/// Replacing one row changes the total by the difference of the row sums.
pub proof fn lemma_total_update_row(g: Seq<Seq<u32>>, r: int, row: Seq<u32>)
    requires
        0 <= r < g.len(),
    ensures
        total(g.update(r, row)) == total(g) - line_sum(g[r]) + line_sum(row),
    decreases g.len(),
{
    if r == 0 {
        assert(g.update(r, row).skip(1) == g.skip(1));
    } else {
        assert(g.update(r, row).skip(1) == g.skip(1).update(r - 1, row));
        lemma_total_update_row(g.skip(1), r - 1, row);
    }
}

/// Replacing one cell changes the total by the difference of the values.
pub proof fn lemma_total_set_cell(g: Seq<Seq<u32>>, r: int, c: int, v: u32)
    requires
        0 <= r < g.len(),
        0 <= c < g[r].len(),
    ensures
        total(set_cell(g, r, c, v)) == total(g) - g[r][c] + v,
{
    lemma_total_update_row(g, r, g[r].update(c, v));
    lemma_line_sum_update(g[r], c, v);
}

fn copy_line(line: &Vec<u32>) -> (copy: Vec<u32>)
    ensures
        copy@ == line@,
{
    let mut copy: Vec<u32> = Vec::new();
    let mut i: usize = 0;
    while i < line.len()
        invariant
            i <= line.len(),
            copy@ == line@.take(i as int),
        decreases line.len() - i,
    {
        copy.push(line[i]);
        assert(line@.take(i + 1) == line@.take(i as int).push(line@[i as int]));
        i += 1;
    }
    assert(line@.take(line.len() as int) == line@);
    copy
}

fn same_line(a: &Vec<u32>, b: &Vec<u32>) -> (same: bool)
    ensures
        same == (a@ == b@),
{
    if a.len() != b.len() {
        return false;
    }
    let mut i: usize = 0;
    while i < a.len()
        invariant
            a.len() == b.len(),
            i <= a.len(),
            forall|j: int| 0 <= j < i ==> a@[j] == b@[j],
        decreases a.len() - i,
    {
        if a[i] != b[i] {
            return false;
        }
        i += 1;
    }
    assert(a@ =~= b@);
    true
}

/// A square board of tile values. `0` is an empty cell.
pub struct Grid {
    cells: Vec<Vec<u32>>,
}

impl View for Grid {
    type V = Seq<Seq<u32>>;

    closed spec fn view(&self) -> Seq<Seq<u32>> {
        Seq::new(self.cells@.len(), |r: int| self.cells@[r]@)
    }
}

impl Clone for Grid {
    fn clone(&self) -> (copy: Self)
        ensures
            copy@ == self@,
    {
        let mut cells: Vec<Vec<u32>> = Vec::new();
        let mut r: usize = 0;
        while r < self.cells.len()
            invariant
                r <= self.cells.len(),
                cells.len() == r,
                forall|i: int| 0 <= i < r ==> cells@[i]@ == self.cells@[i]@,
            decreases self.cells.len() - r,
        {
            cells.push(copy_line(&self.cells[r]));
            r += 1;
        }
        let copy = Grid { cells };
        assert(copy@ =~~= self@);
        copy
    }
}

impl Grid {
    /// The board is square and its score fits in a `u32`.
    pub open spec fn wf(&self) -> bool {
        is_square(self@) && total(self@) <= u32::MAX
    }

    /// A board of `size` rows and `size` columns with every cell empty.
    pub fn new(size: usize) -> (grid: Grid)
        requires
            size >= 1,
        ensures
            grid.wf(),
            grid@ == blank(size as int),
            total(grid@) == 0,
    {
        let mut cells: Vec<Vec<u32>> = Vec::new();
        let mut r: usize = 0;
        while r < size
            invariant
                r <= size,
                cells.len() == r,
                forall|i: int| 0 <= i < r ==> (#[trigger] cells@[i])@ == zeros(size as int),
            decreases size - r,
        {
            let mut row: Vec<u32> = Vec::new();
            let mut c: usize = 0;
            while c < size
                invariant
                    c <= size,
                    row.len() == c,
                    forall|j: int| 0 <= j < c ==> row@[j] == 0,
                decreases size - c,
            {
                row.push(0);
                c += 1;
            }
            assert(row@ =~= zeros(size as int));
            cells.push(row);
            r += 1;
        }
        let grid = Grid { cells };
        proof {
            assert(grid@ =~~= blank(size as int));
            lemma_total_blank(size as int, size as int);
        }
        grid
    }

    /// The board that holds the given rows. There is one exactly when the
    /// rows form a square of at least one cell and their sum fits in a `u32`.
    pub fn from_rows(rows: Vec<Vec<u32>>) -> (res: Option<Grid>)
        ensures
            res is Some <==> is_square(rows.deep_view()) && total(rows.deep_view()) <= u32::MAX,
            res matches Some(grid) ==> grid@ == rows.deep_view() && grid.wf(),
    {
        let grid = Grid { cells: rows };
        assert(grid@ =~~= rows.deep_view());
        let n = grid.cells.len();
        if n == 0 {
            return None;
        }
        let mut r: usize = 0;
        while r < n
            invariant
                n == grid.cells.len(),
                n == grid@.len(),
                grid@ == rows.deep_view(),
                r <= n,
                forall|i: int| 0 <= i < r ==> (#[trigger] grid@[i]).len() == n,
            decreases n - r,
        {
            if grid.cells[r].len() != n {
                assert(grid@[r as int].len() != n);
                return None;
            }
            r += 1;
        }
        match checked_total(&grid) {
            Some(_) => Some(grid),
            None => None,
        }
    }

    /// A copy of the rows of the board.
    pub fn rows(&self) -> (rows: Vec<Vec<u32>>)
        ensures
            rows.deep_view() == self@,
    {
        let copy = self.clone();
        assert(copy.cells.deep_view() =~~= copy@);
        copy.cells
    }

    /// The number of rows, which is also the number of columns.
    pub fn size(&self) -> (n: usize)
        ensures
            n == self@.len(),
    {
        self.cells.len()
    }

    /// The value of the cell in row `r`, column `c`.
    pub fn get(&self, r: usize, c: usize) -> (v: u32)
        requires
            r < self@.len(),
            c < self@[r as int].len(),
        ensures
            v == self@[r as int][c as int],
    {
        self.cells[r][c]
    }

    /// Whether two boards hold the same cells.
    pub fn same_cells(&self, other: &Grid) -> (same: bool)
        ensures
            same == (self@ == other@),
    {
        if self.cells.len() != other.cells.len() {
            assert(self@.len() != other@.len());
            return false;
        }
        let mut r: usize = 0;
        while r < self.cells.len()
            invariant
                self.cells.len() == other.cells.len(),
                r <= self.cells.len(),
                forall|i: int| 0 <= i < r ==> self@[i] == other@[i],
            decreases self.cells.len() - r,
        {
            if !same_line(&self.cells[r], &other.cells[r]) {
                assert(self@[r as int] != other@[r as int]);
                return false;
            }
            r += 1;
        }
        assert(self@ =~= other@);
        true
    }

    pub(crate) fn set(&mut self, r: usize, c: usize, v: u32)
        requires
            r < old(self)@.len(),
            c < old(self)@[r as int].len(),
        ensures
            final(self)@ == set_cell(old(self)@, r as int, c as int, v),
    {
        self.cells[r][c] = v;
        assert(self@ =~~= set_cell(old(self)@, r as int, c as int, v));
    }
}

/// The sum of all cells, where it fits in a `u32`.
fn checked_total(grid: &Grid) -> (sum: Option<u32>)
    requires
        is_square(grid@),
    ensures
        sum matches Some(t) ==> t == total(grid@),
        sum is None ==> total(grid@) > u32::MAX,
{
    let n = grid.size();
    let mut acc: u32 = 0;
    let mut r: usize = 0;
    proof {
        assert(grid@.skip(0) == grid@);
    }
    while r < n
        invariant
            is_square(grid@),
            n == grid@.len(),
            r <= n,
            acc + total(grid@.skip(r as int)) == total(grid@),
        decreases n - r,
    {
        let mut c: usize = 0;
        let ghost row = grid@[r as int];
        let ghost below = grid@.skip(r + 1);
        proof {
            assert(grid@.skip(r as int).skip(1) == below);
            assert(row.skip(0) == row);
            lemma_total_nonnegative(below);
        }
        while c < n
            invariant
                is_square(grid@),
                n == grid@.len(),
                r < n,
                c <= n,
                row == grid@[r as int],
                total(below) >= 0,
                acc + line_sum(row.skip(c as int)) + total(below) == total(grid@),
            decreases n - c,
        {
            proof {
                assert(row.skip(c as int).skip(1) == row.skip(c + 1));
                lemma_line_sum_nonnegative(row.skip(c + 1));
            }
            match acc.checked_add(grid.get(r, c)) {
                Some(next) => {
                    acc = next;
                },
                None => {
                    return None;
                },
            }
            c += 1;
        }
        r += 1;
    }
    Some(acc)
}

/// The score of the board: the sum of all its cells.
pub fn compute_score(grid: &Grid) -> (score: u32)
    requires
        grid.wf(),
    ensures
        score == total(grid@),
{
    let n = grid.size();
    let mut score: u32 = 0;
    let mut r: usize = 0;
    proof {
        assert(grid@.skip(0) == grid@);
    }
    while r < n
        invariant
            grid.wf(),
            n == grid@.len(),
            r <= n,
            score + total(grid@.skip(r as int)) == total(grid@),
        decreases n - r,
    {
        let mut c: usize = 0;
        let ghost row = grid@[r as int];
        let ghost below = grid@.skip(r + 1);
        proof {
            assert(grid@.skip(r as int).skip(1) == below);
            assert(row.skip(0) == row);
            lemma_total_nonnegative(below);
        }
        while c < n
            invariant
                grid.wf(),
                n == grid@.len(),
                r < n,
                c <= n,
                row == grid@[r as int],
                total(below) >= 0,
                score + line_sum(row.skip(c as int)) + total(below) == total(grid@),
            decreases n - c,
        {
            proof {
                assert(row.skip(c as int).skip(1) == row.skip(c + 1));
                lemma_line_sum_nonnegative(row.skip(c + 1));
            }
            score = score + grid.get(r, c);
            c += 1;
        }
        r += 1;
    }
    score
}

/// Whether a move can still be made. The answer is `false` exactly on a
/// terminal board: no empty cell and no two equal neighbours in any row or
/// column.
pub fn is_move_possible(grid: &Grid) -> (possible: bool)
    requires
        grid.wf(),
    ensures
        possible == move_possible(grid@),
        has_empty_cell(grid@) ==> possible,
{
    let n = grid.size();
    let mut r: usize = 0;
    while r < n
        invariant
            grid.wf(),
            n == grid@.len(),
            r <= n,
            forall|i: int, j: int| 0 <= i < r && 0 <= j < n ==> #[trigger] grid@[i][j] != 0,
            forall|i: int, j: int|
                0 <= i < r && 0 <= j < n - 1 ==> #[trigger] grid@[i][j] != grid@[i][j + 1],
        decreases n - r,
    {
        let mut c: usize = 0;
        while c < n
            invariant
                grid.wf(),
                n == grid@.len(),
                r < n,
                c <= n,
                forall|j: int| 0 <= j < c ==> #[trigger] grid@[r as int][j] != 0,
                forall|j: int|
                    0 <= j < c && j < n - 1 ==> #[trigger] grid@[r as int][j] != grid@[r as int][j
                        + 1],
            decreases n - c,
        {
            if grid.get(r, c) == 0 {
                assert(grid@[r as int][c as int] == 0);
                return true;
            }
            if c < n - 1 && grid.get(r, c) == grid.get(r, c + 1) {
                assert(grid@[r as int][c as int] == grid@[r as int][c + 1]);
                return true;
            }
            c += 1;
        }
        r += 1;
    }
    let mut c: usize = 0;
    while c < n
        invariant
            grid.wf(),
            n == grid@.len(),
            c <= n,
            !has_empty_cell(grid@),
            !has_equal_pair_in_row(grid@),
            forall|i: int, j: int|
                0 <= i < n - 1 && 0 <= j < c ==> #[trigger] grid@[i][j] != grid@[i + 1][j],
        decreases n - c,
    {
        let mut r: usize = 0;
        while r < n - 1
            invariant
                grid.wf(),
                n == grid@.len(),
                c < n,
                r <= n - 1,
                forall|i: int| 0 <= i < r ==> #[trigger] grid@[i][c as int] != grid@[i + 1][c as int],
            decreases n - r,
        {
            if grid.get(r, c) == grid.get(r + 1, c) {
                assert(grid@[r as int][c as int] == grid@[r + 1][c as int]);
                return true;
            }
            r += 1;
        }
        c += 1;
    }
    false
}

} // verus!
