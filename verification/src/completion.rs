//! What the moves from a board lead to, said without the moves: the boards that
//! add queens to it of which none is ruled out.

use vstd::prelude::*;
use crate::cell::{Cell, Mark};
use crate::grid::{
    Grid, in_bounds, is_board, occupied, queen_count, row_count, rows_count, with_mark,
    lemma_count_with_mark,
};
use crate::rules::{
    conflicts, is_move, is_solution, is_step, place, placeable, reachable, lemma_place,
    lemma_reachable_extend,
};

verus! {

/// `b` is `a` with queens put on some of the cells that held none.
pub open spec fn adds_queens(a: Grid, b: Grid) -> bool {
    &&& is_board(b)
    &&& b.len() == a.len()
    &&& forall|x: int, y: int|
        in_bounds(a, x, y) ==> #[trigger] b[y][x] == a[y][x] || (a[y][x].mark != Mark::Occupied
            && b[y][x] == Cell { region: a[y][x].region, mark: Mark::Occupied })
}

/// No queen that `b` has and `a` has not is ruled out by another queen of `b`.
pub open spec fn added_fit(a: Grid, b: Grid) -> bool {
    forall|x: int, y: int, u: int, v: int|
        #![trigger b[y][x], b[v][u]]
        occupied(b, x, y) && !occupied(a, x, y) && occupied(b, u, v) && !(u == x && v == y)
            ==> !conflicts(b, x, y, u, v)
}

/// `b` completes `a` to `target` queens: it adds queens to `a`, one at
/// least, up to `target`, and none of those it adds is ruled out.
pub open spec fn is_completion(a: Grid, target: nat, b: Grid) -> bool {
    &&& adds_queens(a, b)
    &&& added_fit(a, b)
    &&& queen_count(a) < target
    &&& queen_count(b) == target
}

/// What moves make of a board adds queens to it, none of them ruled out.
pub proof fn lemma_reachable_adds(a: Grid, b: Grid, k: nat)
    requires
        is_board(a),
        reachable(a, b, k),
    ensures
        adds_queens(a, b),
        added_fit(a, b),
    decreases k,
{
    if k > 0 {
        let mid = choose|mid: Grid| reachable(a, mid, (k - 1) as nat) && #[trigger] is_step(mid, b);
        lemma_reachable_adds(a, mid, (k - 1) as nat);
        let (p, q) = choose|p: int, q: int| is_move(mid, p, q) && b == #[trigger] place(mid, p, q);
        lemma_place(mid, p, q);
        assert forall|x: int, y: int| in_bounds(a, x, y) implies #[trigger] b[y][x] == a[y][x] || (
        a[y][x].mark != Mark::Occupied && b[y][x] == Cell {
            region: a[y][x].region,
            mark: Mark::Occupied,
        }) by {
            assert(mid[y][x] == a[y][x] || (a[y][x].mark != Mark::Occupied && mid[y][x] == Cell {
                region: a[y][x].region,
                mark: Mark::Occupied,
            }));
            if !(x == p && y == q) {
                assert(b[y][x] == mid[y][x]);
            }
        }
        assert forall|x: int, y: int, u: int, v: int|
            #![trigger b[y][x], b[v][u]]
            occupied(b, x, y) && !occupied(a, x, y) && occupied(b, u, v) && !(u == x && v == y)
                implies !conflicts(b, x, y, u, v) by {
            assert(b[y][x].region == mid[y][x].region);
            assert(b[v][u].region == mid[v][u].region);
            if x == p && y == q {
                assert(b[v][u] == mid[v][u]);
                assert(!conflicts(mid, p, q, u, v));
            } else if u == p && v == q {
                assert(b[y][x] == mid[y][x]);
                assert(!conflicts(mid, p, q, x, y));
            } else {
                assert(b[y][x] == mid[y][x]);
                assert(b[v][u] == mid[v][u]);
                assert(!conflicts(mid, x, y, u, v));
            }
        }
    }
}

/// A row with queens added holds no fewer queens.
proof fn lemma_row_grows(a: Seq<Cell>, b: Seq<Cell>, k: int)
    requires
        0 <= k <= a.len(),
        a.len() == b.len(),
        forall|x: int|
            0 <= x < a.len() ==> #[trigger] b[x] == a[x] || (a[x].mark != Mark::Occupied && b[x].mark
                == Mark::Occupied),
    ensures
        row_count(a, k) <= row_count(b, k),
    decreases k,
{
    if k > 0 {
        lemma_row_grows(a, b, k - 1);
        assert(b[k - 1] == a[k - 1] || (a[k - 1].mark != Mark::Occupied && b[k - 1].mark
            == Mark::Occupied));
    }
}

/// A board with queens added holds no fewer queens.
proof fn lemma_board_grows(a: Grid, b: Grid, k: int)
    requires
        is_board(a),
        adds_queens(a, b),
        0 <= k <= a.len(),
    ensures
        rows_count(a, k) <= rows_count(b, k),
    decreases k,
{
    if k > 0 {
        lemma_board_grows(a, b, k - 1);
        assert forall|x: int|
            0 <= x < a[k - 1].len() implies #[trigger] b[k - 1][x] == a[k - 1][x] || (a[k
            - 1][x].mark != Mark::Occupied && b[k - 1][x].mark == Mark::Occupied) by {
            assert(in_bounds(a, x, k - 1));
        }
        lemma_row_grows(a[k - 1], b[k - 1], a.len() as int);
    }
}

/// A board that adds queens to another, none of them ruled out, comes from it
/// by as many moves as it holds more queens.
pub proof fn lemma_adds_reachable(a: Grid, b: Grid, k: nat)
    requires
        is_board(a),
        adds_queens(a, b),
        added_fit(a, b),
        queen_count(b) == queen_count(a) + k,
    ensures
        reachable(a, b, k),
    decreases k,
{
    if forall|x: int, y: int| in_bounds(a, x, y) ==> b[y][x] == a[y][x] {
        assert forall|y: int| 0 <= y < a.len() implies #[trigger] b[y] =~= a[y] by {
            assert forall|x: int| 0 <= x < a.len() implies b[y][x] == a[y][x] by {
                assert(in_bounds(a, x, y));
            }
        }
        assert(b =~= a);
    } else {
        let (p, q) = choose|p: int, q: int| in_bounds(a, p, q) && b[q][p] != a[q][p];
        assert(b[q][p] == a[q][p] || (a[q][p].mark != Mark::Occupied && b[q][p] == Cell {
            region: a[q][p].region,
            mark: Mark::Occupied,
        }));
        let mid = with_mark(b, p, q, a[q][p].mark);
        lemma_count_with_mark(b, p, q, a[q][p].mark);
        assert(mid[q][p] == a[q][p]);
        assert forall|x: int, y: int| in_bounds(a, x, y) implies #[trigger] mid[y][x] == a[y][x] || (
        a[y][x].mark != Mark::Occupied && mid[y][x] == Cell {
            region: a[y][x].region,
            mark: Mark::Occupied,
        }) by {
            assert(b[y][x] == a[y][x] || (a[y][x].mark != Mark::Occupied && b[y][x] == Cell {
                region: a[y][x].region,
                mark: Mark::Occupied,
            }));
            if !(x == p && y == q) {
                assert(mid[y][x] == b[y][x]);
            }
        }
        assert forall|x: int, y: int, u: int, v: int|
            #![trigger mid[y][x], mid[v][u]]
            occupied(mid, x, y) && !occupied(a, x, y) && occupied(mid, u, v) && !(u == x && v == y)
                implies !conflicts(mid, x, y, u, v) by {
            assert(mid[y][x] == b[y][x]);
            assert(mid[v][u] == b[v][u]);
            assert(!conflicts(b, x, y, u, v));
        }
        lemma_board_grows(a, mid, a.len() as int);
        lemma_adds_reachable(a, mid, (k - 1) as nat);
        assert(placeable(mid, p, q)) by {
            assert forall|u: int, v: int|
                #![trigger mid[v][u]]
                occupied(mid, u, v) && !(u == p && v == q) implies !conflicts(mid, p, q, u, v) by {
                assert(mid[v][u] == b[v][u]);
                assert(b[q][p].region == mid[q][p].region);
                assert(!conflicts(b, p, q, u, v));
            }
        }
        assert(place(mid, p, q) =~~= b);
        lemma_reachable_extend(a, mid, (k - 1) as nat, p, q);
    }
}

/// A search from a board has to find exactly the boards that complete it: the
/// order of the moves is of no weight.
pub proof fn lemma_solutions_are_completions(a: Grid, target: nat, b: Grid)
    requires
        is_board(a),
    ensures
        is_solution(a, target, b) <==> is_completion(a, target, b),
{
    if is_solution(a, target, b) {
        lemma_reachable_adds(a, b, (target - queen_count(a)) as nat);
    }
    if is_completion(a, target, b) {
        lemma_adds_reachable(a, b, (target - queen_count(a)) as nat);
    }
}

} // verus!
