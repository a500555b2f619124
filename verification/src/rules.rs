//! The placement rules, and what can be reached from a board by legal placements.

use vstd::prelude::*;
use crate::cell::Mark;
use crate::grid::{Grid, in_bounds, is_board, occupied, queen_count, with_mark, lemma_count_with_mark};

verus! {

/// Two cells touch: they differ by at most one step in each direction.
pub open spec fn touching(x: int, y: int, u: int, v: int) -> bool {
    -1 <= x - u <= 1 && -1 <= y - v <= 1
}

/// A queen on `(u, v)` rules out a queen on the other cell `(x, y)`: the two share
/// a region, a row or a column, or they touch.
pub open spec fn conflicts(g: Grid, x: int, y: int, u: int, v: int) -> bool {
    ||| g[y][x].region == g[v][u].region
    ||| touching(x, y, u, v)
    ||| y == v
    ||| x == u
}

/// A queen may stand on `(x, y)`: no queen on another cell rules it out. Flags
/// play no part.
pub open spec fn placeable(g: Grid, x: int, y: int) -> bool {
    forall|u: int, v: int|
        #![trigger g[v][u]]
        occupied(g, u, v) && !(u == x && v == y) ==> !conflicts(g, x, y, u, v)
}

/// No queen on the board is ruled out by another.
pub open spec fn is_legal(g: Grid) -> bool {
    forall|x: int, y: int, u: int, v: int|
        #![trigger g[y][x], g[v][u]]
        occupied(g, x, y) && occupied(g, u, v) && !(u == x && v == y) ==> !conflicts(g, x, y, u, v)
}

/// Putting a queen on `(x, y)` is a move: the cell holds none yet and the rules allow one.
pub open spec fn is_move(g: Grid, x: int, y: int) -> bool {
    in_bounds(g, x, y) && !occupied(g, x, y) && placeable(g, x, y)
}

/// `g` after a queen was put on `(x, y)`.
pub open spec fn place(g: Grid, x: int, y: int) -> Grid {
    with_mark(g, x, y, Mark::Occupied)
}

/// The board after an attempt to put a queen on `(x, y)`: the queen stands if
/// that was a move, and nothing has changed if it was not.
pub open spec fn after_place(g: Grid, x: int, y: int) -> Grid {
    if is_move(g, x, y) {
        place(g, x, y)
    } else {
        g
    }
}

/// The board after the queen on `(x, y)`, if there was one, was taken off.
pub open spec fn after_unplace(g: Grid, x: int, y: int) -> Grid {
    if occupied(g, x, y) {
        with_mark(g, x, y, Mark::Blank)
    } else {
        g
    }
}

/// The board after `(x, y)`, if it was blank, was flagged.
pub open spec fn after_mark(g: Grid, x: int, y: int) -> Grid {
    if in_bounds(g, x, y) && g[y][x].mark == Mark::Blank {
        with_mark(g, x, y, Mark::Flagged)
    } else {
        g
    }
}

/// The board after the flag on `(x, y)`, if there was one, was taken off.
pub open spec fn after_unmark(g: Grid, x: int, y: int) -> Grid {
    if in_bounds(g, x, y) && g[y][x].mark == Mark::Flagged {
        with_mark(g, x, y, Mark::Blank)
    } else {
        g
    }
}

/// Flagging a blank cell and taking the flag off again gives the board back.
pub proof fn lemma_mark_then_unmark(g: Grid, x: int, y: int)
    requires
        is_board(g),
        in_bounds(g, x, y),
        g[y][x].mark == Mark::Blank,
    ensures
        after_unmark(after_mark(g, x, y), x, y) == g,
{
    assert(after_unmark(after_mark(g, x, y), x, y) =~~= g);
}

/// Putting a queen on a blank cell, whether the rules let it stand or not, and
/// taking it off again gives the board back.
pub proof fn lemma_place_then_unplace(g: Grid, x: int, y: int)
    requires
        is_board(g),
        in_bounds(g, x, y),
        g[y][x].mark == Mark::Blank,
    ensures
        after_unplace(after_place(g, x, y), x, y) == g,
{
    assert(after_unplace(after_place(g, x, y), x, y) =~~= g);
}

/// `b` comes from `a` by one move.
pub open spec fn is_step(a: Grid, b: Grid) -> bool {
    exists|x: int, y: int| is_move(a, x, y) && b == #[trigger] place(a, x, y)
}

/// `b` comes from `a` by exactly `k` moves, one after another.
pub open spec fn reachable(a: Grid, b: Grid, k: nat) -> bool
    decreases k,
{
    if k == 0 {
        b == a
    } else {
        exists|mid: Grid| reachable(a, mid, (k - 1) as nat) && #[trigger] is_step(mid, b)
    }
}

/// `b` is one of the boards that a search from `a` for `target` queens has to find:
/// it holds `target` queens and comes from `a` by one move or more.
pub open spec fn is_solution(a: Grid, target: nat, b: Grid) -> bool {
    &&& queen_count(b) == target
    &&& queen_count(a) < target
    &&& reachable(a, b, (target - queen_count(a)) as nat)
}

/// Two boards are split into the same regions.
pub open spec fn same_regions(a: Grid, b: Grid) -> bool {
    &&& a.len() == b.len()
    &&& forall|x: int, y: int|
        #![trigger b[y][x]]
        in_bounds(a, x, y) ==> a[y][x].region == b[y][x].region
}

/// A move keeps the board a board, keeps its regions, and adds one queen.
pub proof fn lemma_place(g: Grid, x: int, y: int)
    requires
        is_board(g),
        in_bounds(g, x, y),
        !occupied(g, x, y),
    ensures
        is_board(place(g, x, y)),
        same_regions(g, place(g, x, y)),
        queen_count(place(g, x, y)) == queen_count(g) + 1,
        occupied(place(g, x, y), x, y),
        forall|u: int, v: int|
            in_bounds(g, u, v) && !(u == x && v == y) ==> #[trigger] place(g, x, y)[v][u] == g[v][u],
{
    lemma_count_with_mark(g, x, y, Mark::Occupied);
}

/// A move on a legal board gives a legal board.
pub proof fn lemma_move_keeps_legal(g: Grid, x: int, y: int)
    requires
        is_board(g),
        is_legal(g),
        is_move(g, x, y),
    ensures
        is_legal(place(g, x, y)),
{
    let h = place(g, x, y);
    lemma_place(g, x, y);
    assert forall|a: int, b: int, u: int, v: int|
        #![trigger h[b][a], h[v][u]]
        occupied(h, a, b) && occupied(h, u, v) && !(u == a && v == b) implies !conflicts(
        h,
        a,
        b,
        u,
        v,
    ) by {
        if a == x && b == y {
            assert(h[v][u] == g[v][u]);
            assert(occupied(g, u, v));
            assert(!conflicts(g, x, y, u, v));
        } else if u == x && v == y {
            assert(h[b][a] == g[b][a]);
            assert(occupied(g, a, b));
            assert(!conflicts(g, x, y, a, b));
        } else {
            assert(h[b][a] == g[b][a]);
            assert(h[v][u] == g[v][u]);
            assert(!conflicts(g, a, b, u, v));
        }
    }
}

/// Whatever is reached by `k` moves is a board with the same regions and `k` more queens.
pub proof fn lemma_reachable_shape(a: Grid, b: Grid, k: nat)
    requires
        is_board(a),
        reachable(a, b, k),
    ensures
        is_board(b),
        same_regions(a, b),
        queen_count(b) == queen_count(a) + k,
    decreases k,
{
    if k > 0 {
        let mid = choose|mid: Grid| reachable(a, mid, (k - 1) as nat) && #[trigger] is_step(mid, b);
        lemma_reachable_shape(a, mid, (k - 1) as nat);
        let (x, y) = choose|x: int, y: int| is_move(mid, x, y) && b == #[trigger] place(mid, x, y);
        lemma_place(mid, x, y);
    }
}

/// Whatever is reached from a legal board is legal.
pub proof fn lemma_reachable_keeps_legal(a: Grid, b: Grid, k: nat)
    requires
        is_board(a),
        is_legal(a),
        reachable(a, b, k),
    ensures
        is_legal(b),
    decreases k,
{
    if k > 0 {
        let mid = choose|mid: Grid| reachable(a, mid, (k - 1) as nat) && #[trigger] is_step(mid, b);
        lemma_reachable_keeps_legal(a, mid, (k - 1) as nat);
        lemma_reachable_shape(a, mid, (k - 1) as nat);
        let (x, y) = choose|x: int, y: int| is_move(mid, x, y) && b == #[trigger] place(mid, x, y);
        lemma_move_keeps_legal(mid, x, y);
    }
}

/// A board that a search has to find is a board with the start's regions, and
/// legal if the start is.
pub proof fn lemma_solution_shape(a: Grid, target: nat, b: Grid)
    requires
        is_board(a),
        is_solution(a, target, b),
    ensures
        is_board(b),
        same_regions(a, b),
        is_legal(a) ==> is_legal(b),
{
    let k = (target - queen_count(a)) as nat;
    lemma_reachable_shape(a, b, k);
    if is_legal(a) {
        lemma_reachable_keeps_legal(a, b, k);
    }
}

/// One more move after `k` moves makes `k + 1` moves.
pub proof fn lemma_reachable_extend(a: Grid, mid: Grid, k: nat, x: int, y: int)
    requires
        reachable(a, mid, k),
        is_move(mid, x, y),
    ensures
        reachable(a, place(mid, x, y), k + 1),
{
    assert(is_step(mid, place(mid, x, y)));
    assert(reachable(a, mid, ((k + 1) - 1) as nat));
}

} // verus!
