//! Rows, columns and regions as the lines of a board, and the queens on them.

use vstd::prelude::*;
use crate::grid::{Grid, is_board, occupied, queen_count, row_count, rows_count};
use crate::rules::{conflicts, is_legal};

verus! {

/// A way to group the cells of a board into as many lines as it has rows.
pub enum Line {
    Row,
    Column,
    Region,
}

/// The line of its kind that the cell `(x, y)` lies on.
pub open spec fn line_of(g: Grid, line: Line, x: int, y: int) -> int {
    match line {
        Line::Row => y,
        Line::Column => x,
        Line::Region => g[y][x].region as int,
    }
}

/// A queen stands on `(x, y)`, which lies on line `i`.
pub open spec fn is_hit(g: Grid, line: Line, i: int, x: int, y: int) -> bool {
    occupied(g, x, y) && line_of(g, line, x, y) == i
}

/// 1 where a queen stands on `(x, y)` and the cell lies on line `i`, else 0.
pub open spec fn hit(g: Grid, line: Line, i: int, x: int, y: int) -> nat {
    if is_hit(g, line, i, x, y) {
        1
    } else {
        0
    }
}

/// The queens on line `i` among the first `k` cells of row `y`.
pub open spec fn row_hits(g: Grid, line: Line, i: int, y: int, k: int) -> nat
    decreases k,
{
    if k <= 0 {
        0
    } else {
        row_hits(g, line, i, y, k - 1) + hit(g, line, i, k - 1, y)
    }
}

/// The queens on line `i` in the first `k` rows.
pub open spec fn hits(g: Grid, line: Line, i: int, k: int) -> nat
    decreases k,
{
    if k <= 0 {
        0
    } else {
        hits(g, line, i, k - 1) + row_hits(g, line, i, k - 1, g.len() as int)
    }
}

/// The number of queens on line `i`.
pub open spec fn queens_on(g: Grid, line: Line, i: int) -> nat {
    hits(g, line, i, g.len() as int)
}

/// Each row, each column and each region holds exactly one queen.
pub open spec fn one_each(g: Grid) -> bool {
    forall|i: int|
        0 <= i < g.len() ==> #[trigger] queens_on(g, Line::Row, i) == 1 && #[trigger] queens_on(
            g,
            Line::Column,
            i,
        ) == 1 && #[trigger] queens_on(g, Line::Region, i) == 1
}

/// On a legal board a row holds one queen of a line at most.
proof fn lemma_row_hits_bound(g: Grid, line: Line, i: int, y: int, k: int)
    requires
        is_board(g),
        is_legal(g),
        0 <= y < g.len(),
        0 <= k <= g.len(),
    ensures
        row_hits(g, line, i, y, k) <= 1,
        row_hits(g, line, i, y, k) == 1 ==> exists|x: int| 0 <= x < k && #[trigger] is_hit(g, line, i, x, y),
    decreases k,
{
    if k > 0 {
        lemma_row_hits_bound(g, line, i, y, k - 1);
        if is_hit(g, line, i, k - 1, y) && row_hits(g, line, i, y, k - 1) == 1 {
            let x = choose|x: int| 0 <= x < k - 1 && #[trigger] is_hit(g, line, i, x, y);
            assert(occupied(g, x, y) && occupied(g, k - 1, y));
            assert(g[y][x].mark == g[y][k - 1].mark);
            assert(conflicts(g, x, y, k - 1, y));
        }
    }
}

/// On a legal board a line holds one queen at most.
proof fn lemma_hits_bound(g: Grid, line: Line, i: int, k: int)
    requires
        is_board(g),
        is_legal(g),
        0 <= k <= g.len(),
    ensures
        hits(g, line, i, k) <= 1,
        hits(g, line, i, k) == 1 ==> exists|x: int, y: int|
            0 <= x < g.len() && 0 <= y < k && #[trigger] is_hit(g, line, i, x, y),
    decreases k,
{
    if k > 0 {
        lemma_hits_bound(g, line, i, k - 1);
        lemma_row_hits_bound(g, line, i, k - 1, g.len() as int);
        if row_hits(g, line, i, k - 1, g.len() as int) == 1 {
            let u = choose|x: int| 0 <= x < g.len() && #[trigger] is_hit(g, line, i, x, k - 1);
            assert(is_hit(g, line, i, u, k - 1));
            if hits(g, line, i, k - 1) == 1 {
                let (x, y) = choose|x: int, y: int|
                    0 <= x < g.len() && 0 <= y < k - 1 && #[trigger] is_hit(g, line, i, x, y);
                assert(occupied(g, x, y) && occupied(g, u, k - 1));
                assert(g[y][x].mark == g[k - 1][u].mark);
                assert(conflicts(g, x, y, u, k - 1));
            }
        }
    }
}

/// The queens on `(x, y)` that lie on one of the first `m` lines: one at most.
pub open spec fn hit_sum(g: Grid, line: Line, m: int, x: int, y: int) -> nat
    decreases m,
{
    if m <= 0 {
        0
    } else {
        hit_sum(g, line, m - 1, x, y) + hit(g, line, m - 1, x, y)
    }
}

/// The queens among the first `k` cells of row `y` that lie on one of the first `m` lines.
pub open spec fn row_hits_sum(g: Grid, line: Line, m: int, y: int, k: int) -> nat
    decreases m,
{
    if m <= 0 {
        0
    } else {
        row_hits_sum(g, line, m - 1, y, k) + row_hits(g, line, m - 1, y, k)
    }
}

/// The queens in the first `k` rows that lie on one of the first `m` lines.
pub open spec fn hits_sum(g: Grid, line: Line, m: int, k: int) -> nat
    decreases m,
{
    if m <= 0 {
        0
    } else {
        hits_sum(g, line, m - 1, k) + hits(g, line, m - 1, k)
    }
}

/// A queen lies on exactly one line of a kind.
proof fn lemma_hit_sum(g: Grid, line: Line, m: int, x: int, y: int)
    requires
        0 <= m,
    ensures
        hit_sum(g, line, m, x, y) == if occupied(g, x, y) && 0 <= line_of(g, line, x, y) < m {
            1nat
        } else {
            0nat
        },
    decreases m,
{
    if m > 0 {
        lemma_hit_sum(g, line, m - 1, x, y);
    }
}

/// Summing over the lines can be done cell by cell.
proof fn lemma_row_hits_sum_step(g: Grid, line: Line, m: int, y: int, k: int)
    requires
        0 <= m,
        0 < k,
    ensures
        row_hits_sum(g, line, m, y, k) == row_hits_sum(g, line, m, y, k - 1) + hit_sum(
            g,
            line,
            m,
            k - 1,
            y,
        ),
    decreases m,
{
    if m > 0 {
        lemma_row_hits_sum_step(g, line, m - 1, y, k);
    }
}

/// Summing over the lines can be done row by row.
proof fn lemma_hits_sum_step(g: Grid, line: Line, m: int, k: int)
    requires
        0 <= m,
        0 < k,
    ensures
        hits_sum(g, line, m, k) == hits_sum(g, line, m, k - 1) + row_hits_sum(
            g,
            line,
            m,
            k - 1,
            g.len() as int,
        ),
    decreases m,
{
    if m > 0 {
        lemma_hits_sum_step(g, line, m - 1, k);
    }
}

/// Over all the lines of a kind, a row's queens are counted once each.
proof fn lemma_row_hits_sum(g: Grid, line: Line, y: int, k: int)
    requires
        is_board(g),
        0 <= y < g.len(),
        0 <= k <= g.len(),
    ensures
        row_hits_sum(g, line, g.len() as int, y, k) == row_count(g[y], k),
    decreases k,
{
    let n = g.len() as int;
    if k > 0 {
        lemma_row_hits_sum(g, line, y, k - 1);
        lemma_row_hits_sum_step(g, line, n, y, k);
        lemma_hit_sum(g, line, n, k - 1, y);
        assert(g[y][k - 1].region < n);
    } else {
        lemma_row_hits_sum_zero(g, line, n, y);
    }
}

/// No cells, no queens.
proof fn lemma_row_hits_sum_zero(g: Grid, line: Line, m: int, y: int)
    requires
        0 <= m,
    ensures
        row_hits_sum(g, line, m, y, 0) == 0,
    decreases m,
{
    if m > 0 {
        lemma_row_hits_sum_zero(g, line, m - 1, y);
    }
}

/// No rows, no queens.
proof fn lemma_hits_sum_zero(g: Grid, line: Line, m: int)
    requires
        0 <= m,
    ensures
        hits_sum(g, line, m, 0) == 0,
    decreases m,
{
    if m > 0 {
        lemma_hits_sum_zero(g, line, m - 1);
    }
}

/// Over all the lines of a kind, the board's queens are counted once each.
proof fn lemma_hits_sum(g: Grid, line: Line, k: int)
    requires
        is_board(g),
        0 <= k <= g.len(),
    ensures
        hits_sum(g, line, g.len() as int, k) == rows_count(g, k),
    decreases k,
{
    let n = g.len() as int;
    if k > 0 {
        lemma_hits_sum(g, line, k - 1);
        lemma_hits_sum_step(g, line, n, k);
        lemma_row_hits_sum(g, line, k - 1, n);
    } else {
        lemma_hits_sum_zero(g, line, n);
    }
}

/// Where each line holds one queen at most, the first `m` lines hold `m` at
/// most, and fewer if one of them holds none.
proof fn lemma_lines_full(g: Grid, line: Line, m: int, j: int)
    requires
        0 <= m,
        forall|i: int| 0 <= i < m ==> #[trigger] queens_on(g, line, i) <= 1,
    ensures
        hits_sum(g, line, m, g.len() as int) <= m,
        0 <= j < m && queens_on(g, line, j) == 0 ==> hits_sum(g, line, m, g.len() as int) < m,
    decreases m,
{
    if m > 0 {
        lemma_lines_full(g, line, m - 1, j);
        assert(queens_on(g, line, m - 1) <= 1);
    }
}

/// On a legal board with as many queens as rows, each line of a kind holds exactly one.
proof fn lemma_line_full(g: Grid, line: Line)
    requires
        is_board(g),
        is_legal(g),
        queen_count(g) == g.len(),
    ensures
        forall|i: int| 0 <= i < g.len() ==> #[trigger] queens_on(g, line, i) == 1,
{
    let n = g.len() as int;
    assert forall|i: int| 0 <= i < n implies #[trigger] queens_on(g, line, i) <= 1 by {
        lemma_hits_bound(g, line, i, n);
    }
    lemma_hits_sum(g, line, n);
    assert forall|i: int| 0 <= i < n implies #[trigger] queens_on(g, line, i) == 1 by {
        lemma_lines_full(g, line, n, i);
    }
}

/// A legal board with as many queens as rows holds exactly one queen in each
/// row, in each column and in each region.
pub proof fn lemma_full_board(g: Grid)
    requires
        is_board(g),
        is_legal(g),
        queen_count(g) == g.len(),
    ensures
        one_each(g),
{
    lemma_line_full(g, Line::Row);
    lemma_line_full(g, Line::Column);
    lemma_line_full(g, Line::Region);
}

} // verus!
