//! The mathematical model of a board: a sequence of rows of cells.

use vstd::prelude::*;
use crate::cell::{Cell, Mark};

verus! {

/// A board as the contracts see it: `g[y][x]` is the cell in row `y`, column `x`.
pub type Grid = Seq<Seq<Cell>>;

/// Every row is as long as the board is high, and every region id is below the size.
pub open spec fn is_board(g: Grid) -> bool {
    &&& forall|y: int| 0 <= y < g.len() ==> (#[trigger] g[y]).len() == g.len()
    &&& forall|x: int, y: int| 0 <= y < g.len() && 0 <= x < g.len() ==> (#[trigger] g[y][x]).region < g.len()
}

/// Nothing stands on any cell.
pub open spec fn is_blank(g: Grid) -> bool {
    forall|x: int, y: int|
        0 <= y < g.len() && 0 <= x < g[y].len() ==> (#[trigger] g[y][x]).mark == Mark::Blank
}

/// `g` with every mark taken off.
pub open spec fn cleared(g: Grid) -> Grid {
    Seq::new(
        g.len(),
        |y: int| Seq::new(g[y].len(), |x: int| Cell { region: g[y][x].region, mark: Mark::Blank }),
    )
}

/// `(x, y)` names a cell of `g`.
pub open spec fn in_bounds(g: Grid, x: int, y: int) -> bool {
    0 <= x < g.len() && 0 <= y < g.len()
}

/// A queen stands on `(x, y)`.
pub open spec fn occupied(g: Grid, x: int, y: int) -> bool {
    in_bounds(g, x, y) && g[y][x].mark == Mark::Occupied
}

/// `g` with the mark of `(x, y)` replaced.
pub open spec fn with_mark(g: Grid, x: int, y: int, m: Mark) -> Grid {
    g.update(y, g[y].update(x, Cell { region: g[y][x].region, mark: m }))
}

/// `g` with the region of `(x, y)` replaced.
pub open spec fn with_region(g: Grid, x: int, y: int, r: usize) -> Grid {
    g.update(y, g[y].update(x, Cell { region: r, mark: g[y][x].mark }))
}

/// The region id after `r` on a board of size `n`; after the last comes the first.
pub open spec fn next_region(r: usize, n: nat) -> usize {
    if r + 1 < n {
        (r + 1) as usize
    } else {
        0
    }
}

/// The number of queens among the first `k` cells of a row.
pub open spec fn row_count(row: Seq<Cell>, k: int) -> nat
    decreases k,
{
    if k <= 0 {
        0
    } else {
        row_count(row, k - 1) + if row[k - 1].mark == Mark::Occupied { 1nat } else { 0nat }
    }
}

/// The number of queens in the first `k` rows.
pub open spec fn rows_count(g: Grid, k: int) -> nat
    decreases k,
{
    if k <= 0 {
        0
    } else {
        rows_count(g, k - 1) + row_count(g[k - 1], g[k - 1].len() as int)
    }
}

/// The number of queens on the board.
pub open spec fn queen_count(g: Grid) -> nat {
    rows_count(g, g.len() as int)
}

/// The number that stands for a mark in a board's digest.
pub open spec fn mark_code(m: Mark) -> u64 {
    match m {
        Mark::Blank => 0,
        Mark::Flagged => 1,
        Mark::Occupied => 2,
    }
}

/// The digest `h` after one more mark went into it.
pub open spec fn stirred(h: u64, m: Mark) -> u64 {
    h.wrapping_mul(0x0000_0100_0000_01B3u64).wrapping_add(mark_code(m))
}

/// The digest `h` after the marks of the first `k` cells of a row went into it.
pub open spec fn row_digest(row: Seq<Cell>, k: int, h: u64) -> u64
    decreases k,
{
    if k <= 0 {
        h
    } else {
        stirred(row_digest(row, k - 1, h), row[k - 1].mark)
    }
}

/// The digest of the marks of the first `k` rows.
pub open spec fn rows_digest(g: Grid, k: int) -> u64
    decreases k,
{
    if k <= 0 {
        0xCBF2_9CE4_8422_2325u64
    } else {
        row_digest(g[k - 1], g[k - 1].len() as int, rows_digest(g, k - 1))
    }
}

/// A number made of the marks of a board, row by row: boards with the same
/// marks have the same digest.
pub open spec fn digest(g: Grid) -> u64 {
    rows_digest(g, g.len() as int)
}

/// 1 for a queen, 0 for anything else.
pub open spec fn weight(m: Mark) -> int {
    if m == Mark::Occupied { 1 } else { 0 }
}

/// Replacing one cell of a row moves its count by the difference of the two weights,
/// as soon as the count reaches past that cell.
pub proof fn lemma_row_count_update(row: Seq<Cell>, x: int, c: Cell, k: int)
    requires
        0 <= x < row.len(),
        0 <= k <= row.len(),
    ensures
        row_count(row.update(x, c), k) == row_count(row, k) + if x < k {
            weight(c.mark) - weight(row[x].mark)
        } else {
            0
        },
    decreases k,
{
    if k > 0 {
        lemma_row_count_update(row, x, c, k - 1);
    }
}

/// Replacing one row moves the count by the difference of the two rows' counts,
/// as soon as the count reaches past that row.
pub proof fn lemma_rows_count_update(g: Grid, y: int, row: Seq<Cell>, k: int)
    requires
        0 <= y < g.len(),
        0 <= k <= g.len(),
    ensures
        rows_count(g.update(y, row), k) == rows_count(g, k) + if y < k {
            row_count(row, row.len() as int) - row_count(g[y], g[y].len() as int)
        } else {
            0
        },
    decreases k,
{
    if k > 0 {
        lemma_rows_count_update(g, y, row, k - 1);
    }
}

/// Changing the mark of one cell moves the number of queens by the difference of the weights.
pub proof fn lemma_count_with_mark(g: Grid, x: int, y: int, m: Mark)
    requires
        is_board(g),
        in_bounds(g, x, y),
    ensures
        queen_count(with_mark(g, x, y, m)) == queen_count(g) + weight(m) - weight(g[y][x].mark),
        is_board(with_mark(g, x, y, m)),
{
    let c = Cell { region: g[y][x].region, mark: m };
    lemma_row_count_update(g[y], x, c, g.len() as int);
    lemma_rows_count_update(g, y, g[y].update(x, c), g.len() as int);
}

/// A row of `k` cells holds at most `k` queens.
pub proof fn lemma_row_count_bound(row: Seq<Cell>, k: int)
    requires
        0 <= k,
    ensures
        row_count(row, k) <= k,
    decreases k,
{
    if k > 0 {
        lemma_row_count_bound(row, k - 1);
    }
}

/// The first `k` rows of a board of size `n` hold at most `k * n` queens.
pub proof fn lemma_rows_count_bound(g: Grid, k: int)
    requires
        is_board(g),
        0 <= k <= g.len(),
    ensures
        rows_count(g, k) <= k * g.len(),
    decreases k,
{
    if k > 0 {
        lemma_rows_count_bound(g, k - 1);
        lemma_row_count_bound(g[k - 1], g.len() as int);
        assert((k - 1) * g.len() + g.len() == k * g.len()) by (nonlinear_arith);
    }
}

} // verus!
