//! The breadth-first search for boards with a wanted number of queens, as a
//! state machine over plain values, with the facts that each of its steps keeps.

use vstd::prelude::*;
use crate::grid::{Grid, is_board, queen_count};
use crate::rules::{
    is_move, is_solution, is_step, place, reachable, same_regions, lemma_place,
    lemma_reachable_extend, lemma_reachable_shape,
};

verus! {

/// A search under way.
pub struct Search {
    /// The board that the search set out from.
    pub start: Grid,
    /// The number of queens wanted.
    pub target: nat,
    /// Every board met so far, in the order of meeting.
    pub seen: Seq<Grid>,
    /// The boards still to be expanded; the first is being expanded.
    pub queue: Seq<Grid>,
    /// The column of the next cell of the first queued board to try.
    pub x: int,
    /// The row of that cell.
    pub y: int,
    /// The number of queens on the first queued board.
    pub level: nat,
    /// How many boards at the head of the queue hold `level` queens; the others hold one more.
    pub rest: nat,
    /// The boards handed out so far, in order.
    pub yielded: Seq<Grid>,
}

/// A measure of the work that a search may still do. Every step of the search
/// brings it down, in the order of its fields.
pub struct Fuel {
    /// How many queens the boards under expansion are short of the target.
    pub levels: nat,
    /// How many queued boards hold as few queens as the first.
    pub boards: nat,
    /// How many rows of the first queued board are still to be tried.
    pub rows: nat,
    /// How many cells of the row under the cursor are still to be tried.
    pub cols: nat,
}

/// The work that the search `s` may still do.
pub open spec fn fuel(s: Search) -> Fuel {
    Fuel {
        levels: if s.level < s.target { (s.target - s.level) as nat } else { 0 },
        boards: s.rest,
        rows: if s.y < s.start.len() { (s.start.len() - s.y) as nat } else { 0 },
        cols: if s.x < s.start.len() { (s.start.len() - s.x) as nat } else { 0 },
    }
}

/// `a` is less work than `b`.
pub open spec fn less_fuel(a: Fuel, b: Fuel) -> bool {
    decreases_to!(b.levels, b.boards, b.rows, b.cols => a.levels, a.boards, a.rows, a.cols)
}

/// The search before its first step: the start alone is met and queued, or,
/// where the start already holds the wanted number of queens or more, nothing is.
pub open spec fn initial(start: Grid, target: nat) -> Search {
    if queen_count(start) < target {
        Search {
            start,
            target,
            seen: seq![start],
            queue: seq![start],
            x: 0,
            y: 0,
            level: queen_count(start),
            rest: 1,
            yielded: Seq::empty(),
        }
    } else {
        Search {
            start,
            target,
            seen: Seq::empty(),
            queue: Seq::empty(),
            x: 0,
            y: 0,
            level: queen_count(start),
            rest: 0,
            yielded: Seq::empty(),
        }
    }
}

/// The column of the cell after `(x, y)` in row-major order.
pub open spec fn next_x(s: Search) -> int {
    if s.x + 1 < s.start.len() {
        s.x + 1
    } else {
        0
    }
}

/// The row of the cell after `(x, y)` in row-major order.
pub open spec fn next_y(s: Search) -> int {
    if s.x + 1 < s.start.len() {
        s.y
    } else {
        s.y + 1
    }
}

/// The board that the cell under the cursor makes of the first queued board.
pub open spec fn handed(s: Search) -> Grid {
    place(s.queue[0], s.x, s.y)
}

/// The search after the cell under the cursor gave nothing new.
pub open spec fn skipped(s: Search) -> Search {
    Search { x: next_x(s), y: next_y(s), ..s }
}

/// The search after the cell under the cursor gave a new board short of the target.
pub open spec fn enqueued(s: Search) -> Search {
    let b = handed(s);
    Search { seen: s.seen.push(b), queue: s.queue.push(b), x: next_x(s), y: next_y(s), ..s }
}

/// The search after the cell under the cursor gave a new board with the wanted number of queens.
pub open spec fn emitted(s: Search) -> Search {
    let b = handed(s);
    Search { seen: s.seen.push(b), yielded: s.yielded.push(b), x: next_x(s), y: next_y(s), ..s }
}

/// The search after the first queued board, all of whose cells were tried, left the queue.
pub open spec fn popped(s: Search) -> Search {
    let queue = s.queue.subrange(1, s.queue.len() as int);
    if s.rest > 1 {
        Search { queue, x: 0, y: 0, rest: (s.rest - 1) as nat, ..s }
    } else if queue.len() > 0 {
        Search { queue, x: 0, y: 0, level: s.level + 1, rest: queue.len(), ..s }
    } else {
        Search { queue, x: 0, y: 0, rest: 0, ..s }
    }
}

/// The cell under the cursor gives a board that was not met before.
pub open spec fn finds(s: Search) -> bool {
    &&& s.queue.len() > 0
    &&& s.y < s.start.len()
    &&& is_move(s.queue[0], s.x, s.y)
    &&& !s.seen.contains(handed(s))
}

/// The next step of the search hands out a board: the cell under the cursor
/// gives a new board, and that board holds the wanted number of queens.
pub open spec fn emits(s: Search) -> bool {
    finds(s) && s.level + 1 == s.target
}

/// The search one step on. With an empty queue the search stands still. A
/// first queued board whose cells were all tried leaves the queue. Else the cell
/// under the cursor is tried and the cursor moves on: a new board that the cell
/// gives is handed out if it holds the wanted number of queens, and queued if not.
pub open spec fn step(s: Search) -> Search {
    if s.queue.len() == 0 {
        s
    } else if s.y >= s.start.len() {
        popped(s)
    } else if !finds(s) {
        skipped(s)
    } else if s.level + 1 == s.target {
        emitted(s)
    } else {
        enqueued(s)
    }
}

/// The search `k` steps on.
pub open spec fn run(s: Search, k: nat) -> Search
    decreases k,
{
    if k == 0 {
        s
    } else {
        step(run(s, (k - 1) as nat))
    }
}

/// None of the first `k` steps of the search hands out a board.
pub open spec fn quiet(s: Search, k: nat) -> bool {
    forall|j: nat| j < k ==> !emits(#[trigger] run(s, j))
}

/// `b` is the first board that the search from `start` for `target` queens hands out.
pub open spec fn is_first_found(start: Grid, target: nat, b: Grid) -> bool {
    exists|k: nat|
        {
            &&& quiet(initial(start, target), k)
            &&& emits(#[trigger] run(initial(start, target), k))
            &&& b == handed(run(initial(start, target), k))
        }
}

/// `g` comes from the start by moves and holds no more queens than wanted.
pub open spec fn reached(s: Search, g: Grid) -> bool {
    &&& queen_count(s.start) <= queen_count(g) <= s.target
    &&& reachable(s.start, g, (queen_count(g) - queen_count(s.start)) as nat)
}

/// Every board that one move makes of `g` has been met.
pub open spec fn closed(s: Search, g: Grid) -> bool {
    forall|a: int, b: int| is_move(g, a, b) ==> s.seen.contains(#[trigger] place(g, a, b))
}

/// `(a, b)` comes before the cursor in row-major order.
pub open spec fn before_cursor(s: Search, a: int, b: int) -> bool {
    b < s.y || (b == s.y && a < s.x)
}

/// The queue is sorted by the number of queens, which spans two values at most.
pub open spec fn levels_ok(s: Search) -> bool {
    &&& s.rest <= s.queue.len()
    &&& s.queue.len() > 0 ==> s.rest >= 1
    &&& s.level < s.target || s.queue.len() == 0
    &&& s.rest < s.queue.len() ==> s.level + 1 < s.target
    &&& forall|j: int| 0 <= j < s.rest ==> queen_count(#[trigger] s.queue[j]) == s.level
    &&& forall|j: int| s.rest <= j < s.queue.len() ==> queen_count(#[trigger] s.queue[j]) == s.level + 1
}

/// What every step of the search keeps.
pub open spec fn search_inv(s: Search) -> bool {
    &&& is_board(s.start)
    &&& 0 <= s.x && 0 <= s.y && (s.y < s.start.len() ==> s.x < s.start.len())
    &&& forall|i: int| 0 <= i < s.seen.len() ==> reached(s, #[trigger] s.seen[i])
    &&& queen_count(s.start) < s.target ==> s.seen.contains(s.start)
    &&& queen_count(s.start) >= s.target ==> s.seen.len() == 0
    &&& forall|j: int| 0 <= j < s.queue.len() ==> s.seen.contains(#[trigger] s.queue[j])
    &&& levels_ok(s)
    &&& forall|i: int|
        0 <= i < s.seen.len() && queen_count(#[trigger] s.seen[i]) < s.target ==> s.queue.contains(
            s.seen[i],
        ) || closed(s, s.seen[i])
    &&& s.queue.len() > 0 ==> forall|a: int, b: int|
        before_cursor(s, a, b) && is_move(s.queue[0], a, b) ==> s.seen.contains(
            #[trigger] place(s.queue[0], a, b),
        )
    &&& forall|i: int|
        0 <= i < s.seen.len() && queen_count(#[trigger] s.seen[i]) == s.target ==> s.yielded.contains(
            s.seen[i],
        )
    &&& forall|k: int|
        0 <= k < s.yielded.len() ==> s.seen.contains(#[trigger] s.yielded[k]) && queen_count(
            s.yielded[k],
        ) == s.target
    &&& s.yielded.no_duplicates()
}

/// Every board that the search has to find has been handed out.
pub open spec fn all_found(s: Search) -> bool {
    forall|b: Grid| is_solution(s.start, s.target, b) ==> s.yielded.contains(b)
}

/// The search starts in a state that its steps can keep.
pub proof fn lemma_initial(start: Grid, target: nat)
    requires
        is_board(start),
    ensures
        search_inv(initial(start, target)),
{
    let s = initial(start, target);
    if queen_count(start) < target {
        assert(s.seen[0] == start);
        assert(s.queue[0] == start);
        assert(s.queue.contains(start));
    }
}

/// The first queued board is a board of the start's size and regions, and holds `level` queens.
pub proof fn lemma_front(s: Search)
    requires
        search_inv(s),
        s.queue.len() > 0,
    ensures
        is_board(s.queue[0]),
        same_regions(s.start, s.queue[0]),
        reached(s, s.queue[0]),
        queen_count(s.queue[0]) == s.level,
        queen_count(s.start) <= s.level < s.target,
{
    let front = s.queue[0];
    assert(s.seen.contains(front));
    assert(reached(s, front));
    lemma_reachable_shape(s.start, front, (queen_count(front) - queen_count(s.start)) as nat);
}

/// Moving the cursor on keeps the search sound, where the cell under it gives no
/// move or gives a board already met.
pub proof fn lemma_skip(s: Search)
    requires
        search_inv(s),
        s.queue.len() > 0,
        s.y < s.start.len(),
        is_move(s.queue[0], s.x, s.y) ==> s.seen.contains(place(s.queue[0], s.x, s.y)),
    ensures
        search_inv(skipped(s)),
{
    let t = skipped(s);
    lemma_front(s);
    assert forall|i: int| 0 <= i < t.seen.len() implies reached(t, #[trigger] t.seen[i]) by {
        assert(reached(s, s.seen[i]));
    }
    assert forall|i: int|
        0 <= i < t.seen.len() && queen_count(#[trigger] t.seen[i]) < t.target implies t.queue.contains(
        t.seen[i],
    ) || closed(t, t.seen[i]) by {
        assert(s.queue.contains(s.seen[i]) || closed(s, s.seen[i]));
    }
    assert forall|a: int, b: int|
        before_cursor(t, a, b) && is_move(t.queue[0], a, b) implies t.seen.contains(
        #[trigger] place(t.queue[0], a, b),
    ) by {
        if !before_cursor(s, a, b) {
            assert(a == s.x && b == s.y);
        }
    }
}

/// The board that a move makes of the first queued board comes from the start
/// by moves, and holds one queen more.
pub proof fn lemma_successor(s: Search)
    requires
        search_inv(s),
        s.queue.len() > 0,
        is_move(s.queue[0], s.x, s.y),
    ensures
        is_board(s.queue[0]),
        queen_count(s.queue[0]) == s.level,
        queen_count(place(s.queue[0], s.x, s.y)) == s.level + 1,
        reachable(
            s.start,
            place(s.queue[0], s.x, s.y),
            (s.level + 1 - queen_count(s.start)) as nat,
        ),
        queen_count(s.start) <= s.level < s.target,
{
    let front = s.queue[0];
    lemma_front(s);
    let k = (queen_count(front) - queen_count(s.start)) as nat;
    lemma_place(front, s.x, s.y);
    lemma_reachable_extend(s.start, front, k, s.x, s.y);
}

/// Queueing a new board that is short of the target keeps the search sound.
pub proof fn lemma_enqueue(s: Search)
    requires
        search_inv(s),
        s.queue.len() > 0,
        s.y < s.start.len(),
        is_move(s.queue[0], s.x, s.y),
        !s.seen.contains(place(s.queue[0], s.x, s.y)),
        s.level + 1 < s.target,
    ensures
        search_inv(enqueued(s)),
{
    let t = enqueued(s);
    let b = place(s.queue[0], s.x, s.y);
    lemma_successor(s);
    lemma_one_more_met(s, t, b);
    assert(t.queue[s.queue.len() as int] == b);
    assert(t.seen[s.seen.len() as int] == b);
    assert forall|j: int| 0 <= j < t.queue.len() implies t.seen.contains(#[trigger] t.queue[j]) by {
        if j < s.queue.len() {
            assert(t.queue[j] == s.queue[j]);
            assert(s.seen.contains(s.queue[j]));
        } else {
            assert(t.queue[j] == b);
        }
    }
    assert(levels_ok(t)) by {
        assert forall|j: int| 0 <= j < t.rest implies queen_count(#[trigger] t.queue[j]) == t.level by {
            assert(t.queue[j] == s.queue[j]);
        }
        assert forall|j: int| t.rest <= j < t.queue.len() implies queen_count(#[trigger] t.queue[j])
            == t.level + 1 by {
            if j < s.queue.len() {
                assert(t.queue[j] == s.queue[j]);
            }
        }
    }
    assert forall|i: int|
        0 <= i < t.seen.len() && queen_count(#[trigger] t.seen[i]) < t.target implies t.queue.contains(
        t.seen[i],
    ) || closed(t, t.seen[i]) by {
        if i < s.seen.len() {
            assert(t.seen[i] == s.seen[i]);
            if s.queue.contains(s.seen[i]) {
                let j = choose|j: int| 0 <= j < s.queue.len() && s.queue[j] == s.seen[i];
                assert(t.queue[j] == s.seen[i]);
            } else {
                assert(closed(s, s.seen[i]));
            }
        } else {
            assert(t.seen[i] == b);
        }
    }
    assert forall|k: int| 0 <= k < t.yielded.len() implies t.seen.contains(#[trigger] t.yielded[k])
        && queen_count(t.yielded[k]) == t.target by {
        assert(s.seen.contains(s.yielded[k]));
    }
    assert(t.queue[0] == s.queue[0]);
}

/// Handing out a new board that holds the wanted number of queens keeps the search sound.
pub proof fn lemma_emit(s: Search)
    requires
        search_inv(s),
        s.queue.len() > 0,
        s.y < s.start.len(),
        is_move(s.queue[0], s.x, s.y),
        !s.seen.contains(place(s.queue[0], s.x, s.y)),
        s.level + 1 == s.target,
    ensures
        search_inv(emitted(s)),
        is_solution(s.start, s.target, place(s.queue[0], s.x, s.y)),
        !s.yielded.contains(place(s.queue[0], s.x, s.y)),
{
    let t = emitted(s);
    let b = place(s.queue[0], s.x, s.y);
    lemma_successor(s);
    lemma_one_more_met(s, t, b);
    assert forall|j: int| 0 <= j < t.queue.len() implies t.seen.contains(#[trigger] t.queue[j]) by {
        assert(s.seen.contains(s.queue[j]));
    }
    assert forall|i: int|
        0 <= i < t.seen.len() && queen_count(#[trigger] t.seen[i]) < t.target implies t.queue.contains(
        t.seen[i],
    ) || closed(t, t.seen[i]) by {
        if i < s.seen.len() {
            assert(t.seen[i] == s.seen[i]);
            assert(s.queue.contains(s.seen[i]) || closed(s, s.seen[i]));
        }
    }
    assert forall|i: int|
        0 <= i < t.seen.len() && queen_count(#[trigger] t.seen[i]) == t.target implies t.yielded.contains(
        t.seen[i],
    ) by {
        if i < s.seen.len() {
            assert(t.seen[i] == s.seen[i]);
            let k = choose|k: int| 0 <= k < s.yielded.len() && s.yielded[k] == s.seen[i];
            assert(t.yielded[k] == s.seen[i]);
        } else {
            assert(t.yielded[s.yielded.len() as int] == b);
        }
    }
    assert forall|k: int| 0 <= k < t.yielded.len() implies t.seen.contains(#[trigger] t.yielded[k])
        && queen_count(t.yielded[k]) == t.target by {
        if k < s.yielded.len() {
            assert(t.yielded[k] == s.yielded[k]);
            assert(s.seen.contains(s.yielded[k]));
        } else {
            assert(t.yielded[k] == b);
            assert(t.seen[s.seen.len() as int] == b);
        }
    }
    assert(!s.yielded.contains(b)) by {
        if s.yielded.contains(b) {
            let k = choose|k: int| 0 <= k < s.yielded.len() && s.yielded[k] == b;
            assert(s.seen.contains(s.yielded[k]));
        }
    }
    assert(t.yielded.no_duplicates()) by {
        assert forall|i: int, j: int| 0 <= i < t.yielded.len() && 0 <= j < t.yielded.len() && i != j implies t.yielded[i] != t.yielded[j] by {
            if i < s.yielded.len() && j < s.yielded.len() {
                assert(s.yielded[i] != s.yielded[j]);
            } else if i < s.yielded.len() {
                assert(s.yielded.contains(s.yielded[i]));
            } else {
                assert(s.yielded.contains(s.yielded[j]));
            }
        }
    }
}

/// What holds of a search `t` that differs from `s` by one more board met, `b`,
/// made of the first queued board by the move under the cursor, and by whatever
/// was done with the queue's tail and with the boards handed out.
proof fn lemma_one_more_met(s: Search, t: Search, b: Grid)
    requires
        search_inv(s),
        s.queue.len() > 0,
        s.y < s.start.len(),
        is_move(s.queue[0], s.x, s.y),
        b == place(s.queue[0], s.x, s.y),
        s.level + 1 <= s.target,
        t.start == s.start,
        t.target == s.target,
        t.seen == s.seen.push(b),
        t.queue.len() > 0,
        t.queue[0] == s.queue[0],
        t.x == next_x(s),
        t.y == next_y(s),
        queen_count(b) == s.level + 1,
        queen_count(s.start) <= s.level,
        reachable(s.start, b, (s.level + 1 - queen_count(s.start)) as nat),
    ensures
        0 <= t.x && 0 <= t.y && (t.y < t.start.len() ==> t.x < t.start.len()),
        forall|i: int| 0 <= i < t.seen.len() ==> reached(t, #[trigger] t.seen[i]),
        queen_count(t.start) < t.target ==> t.seen.contains(t.start),
        forall|g: Grid| s.seen.contains(g) ==> t.seen.contains(g),
        forall|g: Grid| closed(s, g) ==> closed(t, g),
        forall|a: int, b: int|
            before_cursor(t, a, b) && is_move(t.queue[0], a, b) ==> t.seen.contains(
                #[trigger] place(t.queue[0], a, b),
            ),
{
    assert(t.seen[s.seen.len() as int] == b);
    lemma_front(s);
    assert forall|g: Grid| s.seen.contains(g) implies t.seen.contains(g) by {
        let i = choose|i: int| 0 <= i < s.seen.len() && s.seen[i] == g;
        assert(t.seen[i] == g);
    }
    assert forall|i: int| 0 <= i < t.seen.len() implies reached(t, #[trigger] t.seen[i]) by {
        if i < s.seen.len() {
            assert(t.seen[i] == s.seen[i]);
            assert(reached(s, s.seen[i]));
        }
    }
    assert forall|g: Grid| closed(s, g) implies closed(t, g) by {
        assert forall|a: int, b: int| is_move(g, a, b) implies t.seen.contains(
            #[trigger] place(g, a, b),
        ) by {
            assert(s.seen.contains(place(g, a, b)));
        }
    }
    assert forall|a: int, c: int|
        before_cursor(t, a, c) && is_move(t.queue[0], a, c) implies t.seen.contains(
        #[trigger] place(t.queue[0], a, c),
    ) by {
        if !before_cursor(s, a, c) {
            assert(a == s.x && c == s.y);
        } else {
            assert(s.seen.contains(place(s.queue[0], a, c)));
        }
    }
}

/// Dropping the first queued board, once each of its cells was tried, keeps the search sound.
pub proof fn lemma_pop(s: Search)
    requires
        search_inv(s),
        s.queue.len() > 0,
        s.y >= s.start.len(),
    ensures
        search_inv(popped(s)),
{
    let t = popped(s);
    let front = s.queue[0];
    lemma_front(s);
    assert(t.queue =~= s.queue.subrange(1, s.queue.len() as int));
    assert forall|j: int| 0 <= j < t.queue.len() implies t.queue[j] == s.queue[j + 1] by {}
    assert(closed(s, front)) by {
        assert forall|a: int, b: int| is_move(front, a, b) implies s.seen.contains(
            #[trigger] place(front, a, b),
        ) by {
            assert(before_cursor(s, a, b));
        }
    }
    assert forall|i: int| 0 <= i < t.seen.len() implies reached(t, #[trigger] t.seen[i]) by {
        assert(reached(s, s.seen[i]));
    }
    assert forall|j: int| 0 <= j < t.queue.len() implies t.seen.contains(#[trigger] t.queue[j]) by {
        assert(s.seen.contains(s.queue[j + 1]));
    }
    assert(levels_ok(t)) by {
        assert forall|j: int| 0 <= j < t.rest implies queen_count(#[trigger] t.queue[j]) == t.level by {
            assert(t.queue[j] == s.queue[j + 1]);
        }
        assert forall|j: int| t.rest <= j < t.queue.len() implies queen_count(#[trigger] t.queue[j])
            == t.level + 1 by {
            assert(t.queue[j] == s.queue[j + 1]);
        }
    }
    assert forall|i: int|
        0 <= i < t.seen.len() && queen_count(#[trigger] t.seen[i]) < t.target implies t.queue.contains(
        t.seen[i],
    ) || closed(t, t.seen[i]) by {
        if s.queue.contains(s.seen[i]) {
            let j = choose|j: int| 0 <= j < s.queue.len() && s.queue[j] == s.seen[i];
            if j > 0 {
                assert(t.queue[j - 1] == s.seen[i]);
            } else {
                assert(closed(t, front));
            }
        } else {
            assert(closed(s, s.seen[i]));
        }
    }
}

/// Once the queue is empty, every board that comes from the start by moves
/// without passing the target has been met.
pub proof fn lemma_reachable_seen(s: Search, b: Grid, k: nat)
    requires
        search_inv(s),
        s.queue.len() == 0,
        queen_count(s.start) < s.target,
        queen_count(s.start) + k <= s.target,
        reachable(s.start, b, k),
    ensures
        s.seen.contains(b),
    decreases k,
{
    if k > 0 {
        let mid = choose|mid: Grid| reachable(s.start, mid, (k - 1) as nat) && #[trigger] is_step(mid, b);
        lemma_reachable_seen(s, mid, (k - 1) as nat);
        lemma_reachable_shape(s.start, mid, (k - 1) as nat);
        let i = choose|i: int| 0 <= i < s.seen.len() && s.seen[i] == mid;
        assert(queen_count(s.seen[i]) < s.target);
        assert(!s.queue.contains(mid));
        assert(closed(s, mid));
        let (x, y) = choose|x: int, y: int| is_move(mid, x, y) && b == #[trigger] place(mid, x, y);
        assert(s.seen.contains(place(mid, x, y)));
    }
}

/// Once the queue is empty, every board that the search has to find has been handed out.
pub proof fn lemma_done(s: Search)
    requires
        search_inv(s),
        s.queue.len() == 0,
    ensures
        all_found(s),
{
    assert forall|b: Grid| is_solution(s.start, s.target, b) implies s.yielded.contains(b) by {
        lemma_reachable_seen(s, b, (s.target - queen_count(s.start)) as nat);
        let i = choose|i: int| 0 <= i < s.seen.len() && s.seen[i] == b;
        assert(s.yielded.contains(s.seen[i]));
    }
}

/// Every board handed out is one that the search has to find.
pub proof fn lemma_yielded_are_solutions(s: Search, k: int)
    requires
        search_inv(s),
        0 <= k < s.yielded.len(),
    ensures
        is_solution(s.start, s.target, s.yielded[k]),
{
    let b = s.yielded[k];
    assert(s.seen.contains(b));
    let i = choose|i: int| 0 <= i < s.seen.len() && s.seen[i] == b;
    assert(reached(s, s.seen[i]));
}

/// Every step keeps the search sound.
pub proof fn lemma_step(s: Search)
    requires
        search_inv(s),
    ensures
        search_inv(step(s)),
{
    if s.queue.len() == 0 {
    } else if s.y >= s.start.len() {
        lemma_pop(s);
    } else if !finds(s) {
        lemma_skip(s);
    } else if s.level + 1 == s.target {
        lemma_emit(s);
    } else {
        lemma_front(s);
        lemma_enqueue(s);
    }
}

/// Running on after `a` steps for `b` steps is running for `a + b` steps.
pub proof fn lemma_run_on(s: Search, a: nat, b: nat)
    ensures
        run(run(s, a), b) == run(s, a + b),
    decreases b,
{
    if b > 0 {
        lemma_run_on(s, a, (b - 1) as nat);
        assert(run(s, a + b) == step(run(s, (a + b - 1) as nat)));
    }
}

/// The step at which a search next hands out a board is one and no other.
pub proof fn lemma_next_is_settled(s: Search, a: nat, b: nat)
    requires
        quiet(s, a),
        emits(run(s, a)),
        quiet(s, b),
        emits(run(s, b)),
    ensures
        a == b,
{
    if a < b {
        assert(!emits(run(s, a)));
    }
    if b < a {
        assert(!emits(run(s, b)));
    }
}

} // verus!
