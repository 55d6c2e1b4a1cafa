//! One line of the grid (a row or a column read toward the target end):
//! its mathematical model and the three steps of a slide.
use vstd::arithmetic::power2::{lemma_pow2_unfold, pow2};
use vstd::prelude::*;

verus! {

/// The sum of all entries of a line.
pub open spec fn line_sum(line: Seq<u32>) -> int
    decreases line.len(),
{
    if line.len() == 0 {
        0
    } else {
        line[0] + line_sum(line.skip(1))
    }
}

/// The tiles of a line: its nonzero entries, in their order.
pub open spec fn tiles(line: Seq<u32>) -> Seq<u32>
    decreases line.len(),
{
    if line.len() == 0 {
        Seq::empty()
    } else if line[0] == 0 {
        tiles(line.skip(1))
    } else {
        seq![line[0]] + tiles(line.skip(1))
    }
}

/// A run of `n` empty cells.
pub open spec fn zeros(n: int) -> Seq<u32> {
    Seq::new(if n >= 0 { n as nat } else { 0 }, |i: int| 0u32)
}

/// `tiles` packed at the start of a line of length `len`, the rest empty.
pub open spec fn pack(tiles: Seq<u32>, len: nat) -> Seq<u32> {
    tiles + zeros(len - tiles.len())
}

/// The line with its gaps closed: the tiles keep their order and move to the
/// start, the empty cells to the end.
pub open spec fn compacted(line: Seq<u32>) -> Seq<u32> {
    pack(tiles(line), line.len())
}

/// Twice the value of a tile.
pub open spec fn doubled(v: u32) -> u32 {
    (2 * v) as u32
}

/// One merging pass over a line, from its start: each pair of equal
/// neighbouring tiles that no earlier merge has used becomes one tile of
/// twice the value in the first cell of the pair and an empty second cell.
pub open spec fn merged(line: Seq<u32>) -> Seq<u32>
    decreases line.len(),
{
    if line.len() < 2 {
        line
    } else if line[0] != 0 && line[0] == line[1] {
        seq![doubled(line[0]), 0u32] + merged(line.skip(2))
    } else {
        seq![line[0]] + merged(line.skip(1))
    }
}

/// The merging pass on a gap-free list of tiles: equal neighbours pair up
/// from the start, and every tile takes part in at most one merge.
pub open spec fn merge_tiles(tiles: Seq<u32>) -> Seq<u32>
    decreases tiles.len(),
{
    if tiles.len() < 2 {
        tiles
    } else if tiles[0] == tiles[1] {
        seq![doubled(tiles[0])] + merge_tiles(tiles.skip(2))
    } else {
        seq![tiles[0]] + merge_tiles(tiles.skip(1))
    }
}

/// The line after a slide toward its start: its tiles, merged once, packed
/// at the start.
pub open spec fn slide(line: Seq<u32>) -> Seq<u32> {
    pack(merge_tiles(tiles(line)), line.len())
}

/// No empty cell lies before a tile: the tiles stand together at the start.
pub open spec fn is_packed(line: Seq<u32>) -> bool {
    forall|i: int, j: int| 0 <= i < j < line.len() && line[i] == 0 ==> line[j] == 0
}

/// Two equal tiles stand next to each other.
pub open spec fn has_equal_neighbours(line: Seq<u32>) -> bool {
    exists|i: int| 0 <= i < line.len() - 1 && #[trigger] line[i] != 0 && line[i] == line[i + 1]
}

/// A slide has nothing left to do: the line is packed and no two equal tiles
/// are neighbours.
pub open spec fn is_settled(line: Seq<u32>) -> bool {
    is_packed(line) && !has_equal_neighbours(line)
}

/// The value of a tile: a power of two, from 2 on.
pub open spec fn is_tile_value(v: u32) -> bool {
    exists|k: nat| k >= 1 && v == #[trigger] pow2(k)
}

/// Every cell of the line is empty or holds the value of a tile.
pub open spec fn holds_tile_values(line: Seq<u32>) -> bool {
    forall|i: int| 0 <= i < line.len() ==> line[i] == 0 || is_tile_value(#[trigger] line[i])
}

/// No entry of the sequence is zero.
pub open spec fn all_tiles(s: Seq<u32>) -> bool {
    forall|i: int| 0 <= i < s.len() ==> s[i] != 0
}

pub proof fn lemma_tiles_len(line: Seq<u32>)
    ensures
        tiles(line).len() <= line.len(),
    decreases line.len(),
{
    if line.len() > 0 {
        lemma_tiles_len(line.skip(1));
    }
}

/// Closes the gaps of a line in place.
pub fn compact_line(line: &mut Vec<u32>)
    ensures
        final(line)@ == compacted(old(line)@),
{
    let ghost orig = line@;
    let n = line.len();
    let mut w: usize = 0;
    let mut i: usize = 0;
    proof {
        assert(orig.skip(0) == orig);
    }
    while i < n
        invariant
            line.len() == n,
            orig.len() == n,
            w <= i <= n,
            line@.take(w as int) + tiles(orig.skip(i as int)) == tiles(orig),
            forall|j: int| i <= j < n ==> line@[j] == orig[j],
        decreases n - i,
    {
        let v = line[i];
        proof {
            assert(orig.skip(i as int).skip(1) == orig.skip(i + 1));
        }
        if v != 0 {
            let ghost before = line@;
            line[w] = v;
            proof {
                assert(line@.take(w + 1) == before.take(w as int) + seq![v]);
            }
            w += 1;
        }
        i += 1;
    }
    proof {
        lemma_tiles_len(orig);
        assert(line@.take(w as int) == tiles(orig));
    }
    let t = w;
    while w < n
        invariant
            line.len() == n,
            orig.len() == n,
            t <= w <= n,
            line@.take(t as int) == tiles(orig),
            forall|j: int| t <= j < w ==> line@[j] == 0,
        decreases n - w,
    {
        let ghost before = line@;
        line[w] = 0;
        proof {
            assert(line@.take(t as int) == before.take(t as int));
        }
        w += 1;
    }
    proof {
        assert(line@ == compacted(orig));
    }
}

pub proof fn lemma_line_sum_nonnegative(line: Seq<u32>)
    ensures
        line_sum(line) >= 0,
    decreases line.len(),
{
    if line.len() > 0 {
        lemma_line_sum_nonnegative(line.skip(1));
    }
}

pub proof fn lemma_line_sum_first_two(line: Seq<u32>)
    requires
        line.len() >= 2,
    ensures
        line_sum(line) == line[0] + line[1] + line_sum(line.skip(2)),
{
    assert(line.skip(1).skip(1) == line.skip(2));
    assert(line_sum(line.skip(1)) == line[1] + line_sum(line.skip(1).skip(1)));
}

pub proof fn lemma_line_sum_single(v: u32)
    ensures
        line_sum(seq![v]) == v,
{
    assert(seq![v].skip(1) == Seq::<u32>::empty());
    assert(line_sum(seq![v].skip(1)) == 0);
}

pub proof fn lemma_line_sum_concat(a: Seq<u32>, b: Seq<u32>)
    ensures
        line_sum(a + b) == line_sum(a) + line_sum(b),
    decreases a.len(),
{
    if a.len() == 0 {
        assert(a + b == b);
    } else {
        assert((a + b).skip(1) == a.skip(1) + b);
        lemma_line_sum_concat(a.skip(1), b);
    }
}

pub proof fn lemma_line_sum_zeros(n: int)
    ensures
        line_sum(zeros(n)) == 0,
    decreases n,
{
    if n > 0 {
        assert(zeros(n).skip(1) == zeros(n - 1));
        lemma_line_sum_zeros(n - 1);
    }
}

pub proof fn lemma_tiles_are_tiles(line: Seq<u32>)
    ensures
        all_tiles(tiles(line)),
    decreases line.len(),
{
    if line.len() > 0 {
        lemma_tiles_are_tiles(line.skip(1));
    }
}

pub proof fn lemma_tiles_sum(line: Seq<u32>)
    ensures
        line_sum(tiles(line)) == line_sum(line),
    decreases line.len(),
{
    if line.len() > 0 {
        lemma_tiles_sum(line.skip(1));
        if line[0] != 0 {
            lemma_line_sum_concat(seq![line[0]], tiles(line.skip(1)));
            lemma_line_sum_single(line[0]);
        }
    }
}

pub proof fn lemma_tiles_of_zeros(n: int)
    ensures
        tiles(zeros(n)) == Seq::<u32>::empty(),
    decreases n,
{
    if n > 0 {
        assert(zeros(n).skip(1) == zeros(n - 1));
        lemma_tiles_of_zeros(n - 1);
    }
}

/// Packing tiles into a line and reading the tiles back gives the same tiles.
pub proof fn lemma_tiles_of_pack(t: Seq<u32>, len: nat)
    requires
        all_tiles(t),
        t.len() <= len,
    ensures
        tiles(pack(t, len)) == t,
    decreases t.len(),
{
    if t.len() == 0 {
        assert(pack(t, len) == zeros(len as int));
        lemma_tiles_of_zeros(len as int);
    } else {
        assert(pack(t, len).skip(1) == pack(t.skip(1), (len - 1) as nat));
        lemma_tiles_of_pack(t.skip(1), (len - 1) as nat);
        assert(seq![t[0]] + t.skip(1) == t);
    }
}

pub proof fn lemma_merged_zeros(n: int)
    ensures
        merged(zeros(n)) == zeros(n),
    decreases n,
{
    if n >= 2 {
        assert(zeros(n).skip(1) == zeros(n - 1));
        lemma_merged_zeros(n - 1);
        assert(seq![0u32] + zeros(n - 1) == zeros(n));
    }
}

pub proof fn lemma_merged_len(line: Seq<u32>)
    ensures
        merged(line).len() == line.len(),
    decreases line.len(),
{
    if line.len() >= 2 {
        if line[0] != 0 && line[0] == line[1] {
            lemma_merged_len(line.skip(2));
        } else {
            lemma_merged_len(line.skip(1));
        }
    }
}

/// On a compacted line the in-place merging pass leaves exactly the merged
/// tiles, with gaps between them.
pub proof fn lemma_merged_of_pack(t: Seq<u32>, len: nat)
    requires
        all_tiles(t),
        t.len() <= len,
        line_sum(t) <= u32::MAX,
    ensures
        tiles(merged(pack(t, len))) == merge_tiles(t),
    decreases t.len(),
{
    let s = pack(t, len);
    if t.len() == 0 {
        assert(s == zeros(len as int));
        lemma_merged_zeros(len as int);
        lemma_tiles_of_zeros(len as int);
    } else if t.len() == 1 {
        if len >= 2 {
            assert(s.skip(1) == zeros(len - 1));
            lemma_merged_zeros(len - 1);
            assert(seq![s[0]] + zeros(len - 1) == s);
            assert(merged(s) == s);
        }
        lemma_tiles_of_pack(t, len);
    } else {
        let a = t[0];
        lemma_line_sum_first_two(t);
        lemma_line_sum_nonnegative(t.skip(2));
        lemma_line_sum_nonnegative(t.skip(1));
        if t[0] == t[1] {
            let rest = merged(s.skip(2));
            assert(s.skip(2) == pack(t.skip(2), (len - 2) as nat));
            lemma_merged_of_pack(t.skip(2), (len - 2) as nat);
            let m = seq![doubled(a), 0u32] + rest;
            assert(merged(s) == m);
            assert(m.skip(1) == seq![0u32] + rest);
            assert(m.skip(1).skip(1) == rest);
            assert(tiles(m.skip(1)) == tiles(rest));
            assert(tiles(m) == seq![doubled(a)] + tiles(rest));
        } else {
            let rest = merged(s.skip(1));
            assert(s.skip(1) == pack(t.skip(1), (len - 1) as nat));
            lemma_merged_of_pack(t.skip(1), (len - 1) as nat);
            let m = seq![a] + rest;
            assert(merged(s) == m);
            assert(m.skip(1) == rest);
            assert(tiles(m) == seq![a] + tiles(rest));
        }
    }
}

/// Compacting, merging once and compacting again is a slide.
pub proof fn lemma_slide_in_three_steps(line: Seq<u32>)
    requires
        line_sum(line) <= u32::MAX,
    ensures
        line_sum(compacted(line)) == line_sum(line),
        compacted(merged(compacted(line))) == slide(line),
{
    let t = tiles(line);
    lemma_tiles_len(line);
    lemma_tiles_are_tiles(line);
    lemma_tiles_sum(line);
    lemma_line_sum_concat(t, zeros(line.len() - t.len()));
    lemma_line_sum_zeros(line.len() - t.len());
    lemma_merged_of_pack(t, line.len());
    lemma_merged_len(compacted(line));
}

pub proof fn lemma_merge_tiles_len(t: Seq<u32>)
    ensures
        merge_tiles(t).len() <= t.len(),
    decreases t.len(),
{
    if t.len() >= 2 {
        if t[0] == t[1] {
            lemma_merge_tiles_len(t.skip(2));
        } else {
            lemma_merge_tiles_len(t.skip(1));
        }
    }
}

pub proof fn lemma_merge_tiles_sum(t: Seq<u32>)
    requires
        line_sum(t) <= u32::MAX,
    ensures
        line_sum(merge_tiles(t)) == line_sum(t),
    decreases t.len(),
{
    if t.len() >= 2 {
        lemma_line_sum_first_two(t);
        lemma_line_sum_nonnegative(t.skip(2));
        lemma_line_sum_nonnegative(t.skip(1));
        if t[0] == t[1] {
            lemma_merge_tiles_sum(t.skip(2));
            lemma_line_sum_concat(seq![doubled(t[0])], merge_tiles(t.skip(2)));
            lemma_line_sum_single(doubled(t[0]));
        } else {
            lemma_merge_tiles_sum(t.skip(1));
            lemma_line_sum_concat(seq![t[0]], merge_tiles(t.skip(1)));
            lemma_line_sum_single(t[0]);
        }
    }
}

/// A slide keeps the length of the line.
pub proof fn lemma_slide_len(line: Seq<u32>)
    ensures
        slide(line).len() == line.len(),
{
    lemma_tiles_len(line);
    lemma_merge_tiles_len(tiles(line));
}

/// A slide keeps the sum of the line: a merge puts the sum of two tiles
/// into one cell and empties the other.
pub proof fn lemma_slide_sum(line: Seq<u32>)
    requires
        line_sum(line) <= u32::MAX,
    ensures
        line_sum(slide(line)) == line_sum(line),
{
    let t = tiles(line);
    let m = merge_tiles(t);
    lemma_tiles_len(line);
    lemma_tiles_sum(line);
    lemma_merge_tiles_len(t);
    lemma_merge_tiles_sum(t);
    lemma_line_sum_concat(m, zeros(line.len() - m.len()));
    lemma_line_sum_zeros(line.len() - m.len());
}

pub proof fn lemma_line_sum_take_next(line: Seq<u32>, i: int)
    requires
        0 <= i < line.len(),
    ensures
        line_sum(line.take(i + 1)) == line_sum(line.take(i)) + line[i],
{
    assert(line.take(i + 1) == line.take(i) + seq![line[i]]);
    lemma_line_sum_concat(line.take(i), seq![line[i]]);
    lemma_line_sum_single(line[i]);
}

pub proof fn lemma_line_sum_update(line: Seq<u32>, i: int, v: u32)
    requires
        0 <= i < line.len(),
    ensures
        line_sum(line.update(i, v)) == line_sum(line) - line[i] + v,
    decreases line.len(),
{
    if i == 0 {
        assert(line.update(i, v).skip(1) == line.skip(1));
    } else {
        assert(line.update(i, v).skip(1) == line.skip(1).update(i - 1, v));
        lemma_line_sum_update(line.skip(1), i - 1, v);
    }
}

pub proof fn lemma_merge_tiles_are_tiles(t: Seq<u32>)
    requires
        all_tiles(t),
        line_sum(t) <= u32::MAX,
    ensures
        all_tiles(merge_tiles(t)),
    decreases t.len(),
{
    if t.len() >= 2 {
        lemma_line_sum_first_two(t);
        lemma_line_sum_nonnegative(t.skip(2));
        lemma_line_sum_nonnegative(t.skip(1));
        if t[0] == t[1] {
            lemma_merge_tiles_are_tiles(t.skip(2));
        } else {
            lemma_merge_tiles_are_tiles(t.skip(1));
        }
    }
}

/// Merging changes a list of tiles exactly when two equal tiles are neighbours.
pub proof fn lemma_merge_tiles_fixed_point(t: Seq<u32>)
    requires
        all_tiles(t),
    ensures
        has_equal_neighbours(t) ==> merge_tiles(t).len() < t.len(),
        !has_equal_neighbours(t) ==> merge_tiles(t) == t,
    decreases t.len(),
{
    if t.len() >= 2 {
        let rest = t.skip(1);
        if t[0] == t[1] {
            lemma_merge_tiles_len(t.skip(2));
            assert(t[0int] != 0 && t[0int] == t[0int + 1]);
        } else {
            lemma_merge_tiles_fixed_point(rest);
            if has_equal_neighbours(t) {
                let i = choose|i: int| 0 <= i < t.len() - 1 && #[trigger] t[i] != 0 && t[i] == t[i + 1];
                assert(rest[i - 1] != 0 && rest[i - 1] == rest[i - 1 + 1]);
            } else {
                if has_equal_neighbours(rest) {
                    let i = choose|i: int| 0 <= i < rest.len() - 1 && #[trigger] rest[i] != 0 && rest[i] == rest[i + 1];
                    assert(t[i + 1] != 0 && t[i + 1] == t[i + 1 + 1]);
                }
                assert(seq![t[0]] + rest == t);
            }
        }
    }
}

/// A packed line is its own tiles followed by empty cells.
pub proof fn lemma_packed_is_compacted(line: Seq<u32>)
    requires
        is_packed(line),
    ensures
        compacted(line) == line,
    decreases line.len(),
{
    if line.len() > 0 {
        let rest = line.skip(1);
        if line[0] == 0 {
            assert(line == zeros(line.len() as int));
            lemma_tiles_of_zeros(line.len() as int);
        } else {
            assert forall|i: int, j: int| 0 <= i < j < rest.len() && rest[i] == 0 implies rest[j]
                == 0 by {
                assert(line[i + 1] == 0);
                assert(line[j + 1] == rest[j]);
            }
            lemma_packed_is_compacted(rest);
            lemma_tiles_len(rest);
            assert(seq![line[0]] + rest == line);
            assert(pack(seq![line[0]] + tiles(rest), line.len()) == seq![line[0]] + pack(
                tiles(rest),
                rest.len(),
            ));
        }
    }
}

/// A line is the result of its own slide exactly when it is settled.
pub proof fn lemma_slide_fixed_point(line: Seq<u32>)
    requires
        line_sum(line) <= u32::MAX,
    ensures
        slide(line) == line <==> is_settled(line),
{
    let t = tiles(line);
    let m = merge_tiles(t);
    lemma_tiles_len(line);
    lemma_tiles_are_tiles(line);
    lemma_tiles_sum(line);
    lemma_merge_tiles_len(t);
    lemma_merge_tiles_are_tiles(t);
    lemma_merge_tiles_fixed_point(t);
    if is_settled(line) {
        lemma_packed_is_compacted(line);
        if has_equal_neighbours(t) {
            let i = choose|i: int| 0 <= i < t.len() - 1 && #[trigger] t[i] != 0 && t[i] == t[i + 1];
            assert(line[i] != 0 && line[i] == line[i + 1]);
        }
    }
    if slide(line) == line {
        lemma_tiles_of_pack(m, line.len());
        if has_equal_neighbours(line) {
            let i = choose|i: int|
                0 <= i < line.len() - 1 && #[trigger] line[i] != 0 && line[i] == line[i + 1];
            assert(t[i] != 0 && t[i] == t[i + 1]);
        }
    }
}

/// A slide leaves a packed line.
pub proof fn lemma_slide_is_packed(line: Seq<u32>)
    requires
        line_sum(line) <= u32::MAX,
    ensures
        is_packed(slide(line)),
{
    let t = tiles(line);
    lemma_tiles_len(line);
    lemma_tiles_are_tiles(line);
    lemma_tiles_sum(line);
    lemma_merge_tiles_len(t);
    lemma_merge_tiles_are_tiles(t);
}

/// Twice the value of a tile is the value of a tile.
pub proof fn lemma_doubled_tile_value(v: u32)
    requires
        is_tile_value(v),
        2 * v <= u32::MAX,
    ensures
        is_tile_value(doubled(v)),
{
    let k = choose|k: nat| k >= 1 && v == #[trigger] pow2(k);
    lemma_pow2_unfold(k + 1);
    assert(doubled(v) == pow2(k + 1));
}

proof fn lemma_tiles_hold_tile_values(line: Seq<u32>)
    requires
        holds_tile_values(line),
    ensures
        holds_tile_values(tiles(line)),
    decreases line.len(),
{
    if line.len() > 0 {
        let rest = line.skip(1);
        assert forall|i: int| 0 <= i < rest.len() implies rest[i] == 0 || is_tile_value(
            #[trigger] rest[i],
        ) by {
            assert(rest[i] == line[i + 1]);
        }
        lemma_tiles_hold_tile_values(rest);
    }
}

proof fn lemma_merge_tiles_hold_tile_values(t: Seq<u32>)
    requires
        holds_tile_values(t),
        all_tiles(t),
        line_sum(t) <= u32::MAX,
    ensures
        holds_tile_values(merge_tiles(t)),
    decreases t.len(),
{
    if t.len() >= 2 {
        lemma_line_sum_first_two(t);
        lemma_line_sum_nonnegative(t.skip(2));
        lemma_line_sum_nonnegative(t.skip(1));
        if t[0] == t[1] {
            let rest = t.skip(2);
            assert forall|i: int| 0 <= i < rest.len() implies rest[i] == 0 || is_tile_value(
                #[trigger] rest[i],
            ) by {
                assert(rest[i] == t[i + 2]);
            }
            lemma_merge_tiles_hold_tile_values(rest);
            lemma_doubled_tile_value(t[0]);
        } else {
            let rest = t.skip(1);
            assert forall|i: int| 0 <= i < rest.len() implies rest[i] == 0 || is_tile_value(
                #[trigger] rest[i],
            ) by {
                assert(rest[i] == t[i + 1]);
            }
            lemma_merge_tiles_hold_tile_values(rest);
        }
    }
}

/// A slide of tile values leaves tile values: a merge doubles a power of two.
pub proof fn lemma_slide_holds_tile_values(line: Seq<u32>)
    requires
        holds_tile_values(line),
        line_sum(line) <= u32::MAX,
    ensures
        holds_tile_values(slide(line)),
{
    let t = tiles(line);
    lemma_tiles_len(line);
    lemma_tiles_are_tiles(line);
    lemma_tiles_sum(line);
    lemma_tiles_hold_tile_values(line);
    lemma_merge_tiles_len(t);
    lemma_merge_tiles_hold_tile_values(t);
}

/// Merges equal neighbours in place, in one pass from the start of the line.
pub fn merge_line(line: &mut Vec<u32>)
    requires
        line_sum(old(line)@) <= u32::MAX,
    ensures
        final(line)@ == merged(old(line)@),
{
    let ghost orig = line@;
    let n = line.len();
    if n < 2 {
        return;
    }
    let mut i: usize = 0;
    proof {
        assert(line@.skip(0) == line@);
        assert(line@.take(0) + merged(line@) == merged(line@));
    }
    while i < n - 1
        invariant
            line.len() == n,
            n >= 2,
            i <= n - 1,
            line@.take(i as int) + merged(line@.skip(i as int)) == merged(orig),
            line_sum(line@.skip(i as int)) <= u32::MAX,
        decreases n - i,
    {
        let ghost before = line@;
        let ghost tail = before.skip(i as int);
        let ghost rest = before.skip(i + 2);
        proof {
            assert(tail.skip(1) == before.skip(i + 1));
            assert(tail.skip(2) == rest);
            assert(before.skip(i + 1).skip(1) == rest);
            lemma_line_sum_first_two(tail);
            lemma_line_sum_nonnegative(rest);
            lemma_line_sum_nonnegative(before.skip(i + 1));
        }
        if line[i] != 0 && line[i] == line[i + 1] {
            line[i] = 2 * line[i];
            line[i + 1] = 0;
            proof {
                let now = line@.skip(i + 1);
                assert(now == seq![0u32] + rest);
                assert(now.skip(1) == rest);
                assert(line_sum(now) == line_sum(rest));
                assert(line@.take(i + 1) == before.take(i as int) + seq![doubled(before[i as int])]);
                assert(merged(now) == seq![0u32] + merged(rest));
                assert(seq![doubled(before[i as int]), 0u32] == seq![doubled(before[i as int])] + seq![0u32]);
            }
        } else {
            proof {
                assert(line@.take(i + 1) == before.take(i as int) + seq![before[i as int]]);
            }
        }
        i += 1;
    }
    proof {
        assert(line@.take(i as int) + line@.skip(i as int) == line@);
    }
}

/// Slides a line toward its start: compact, merge once, compact again.
pub fn slide_line(line: &mut Vec<u32>)
    requires
        line_sum(old(line)@) <= u32::MAX,
    ensures
        final(line)@ == slide(old(line)@),
{
    proof {
        lemma_slide_in_three_steps(line@);
    }
    compact_line(line);
    merge_line(line);
    compact_line(line);
}

} // verus!
