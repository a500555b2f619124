//! Making a puzzle: a board with a few queens set that can be completed in one way only.

use vstd::prelude::*;
use crate::cell::Mark;
use crate::grid::{Grid, cleared, in_bounds, is_blank, is_board, occupied, queen_count};
use crate::lines::{one_each, lemma_full_board};
use crate::regions::{is_partitioned, lemma_partition_by_regions};
use crate::growth::{draws, partition_of};
use crate::rng::{Rng, advanced_by, lemma_advanced_on};
use crate::rules::{
    is_legal, is_move, is_solution, is_step, place, reachable, same_regions, lemma_place,
    lemma_reachable_shape, lemma_solution_shape,
};
use crate::search::{emits, handed, initial, quiet, run, lemma_run_on, lemma_yielded_are_solutions};
use crate::solver::Solutions;
use crate::state::State;

verus! {

/// `sol` is the one board with `target` queens that moves make of `play`.
pub open spec fn only_solution(play: Grid, target: nat, sol: Grid) -> bool {
    &&& is_solution(play, target, sol)
    &&& forall|b: Grid| is_solution(play, target, b) ==> b == sol
}

/// Exactly one board with `target` queens comes of `play` by moves.
pub open spec fn has_one_solution(play: Grid, target: nat) -> bool {
    exists|sol: Grid| only_solution(play, target, sol)
}

/// The number of queens that a puzzle on a board of size `n` starts with.
pub open spec fn preset(n: nat) -> nat {
    n / 2
}

/// `play` and `sol` make a puzzle on the blank board `board`: moves make `play`
/// of `board`, with the preset number of queens, and `sol` is the one board
/// with a queen for each row that moves make of `play`.
pub open spec fn is_puzzle(board: Grid, play: Grid, sol: Grid) -> bool {
    &&& is_solution(board, preset(board.len()), play)
    &&& only_solution(play, board.len(), sol)
}

/// `play` is the first board that can be completed in one way only among
/// those that the search for the preset number of queens hands out, one after
/// another, from `board`.
pub open spec fn is_first_puzzle(board: Grid, play: Grid) -> bool {
    exists|k: nat|
        {
            let found = (#[trigger] run(initial(board, preset(board.len())), k)).yielded;
            &&& found.len() > 0
            &&& found[found.len() - 1] == play
            &&& forall|j: int|
                0 <= j < found.len() - 1 ==> !has_one_solution(#[trigger] found[j], board.len())
        }
}

/// The board has a puzzle.
pub open spec fn has_puzzle(board: Grid) -> bool {
    exists|play: Grid, sol: Grid| is_puzzle(board, play, sol)
}

/// The blank board that the try number `j` of a deal splits into regions,
/// where the generator was in the state `seed` before the first try.
pub open spec fn board_at(n: nat, seed: u64, j: nat) -> Grid {
    partition_of(n, advanced_by(seed, j * draws(n)))
}

/// `found` is what a deal gives that may try `attempts` boards of size `n` and
/// has tried `tried`, from the state `seed` of the generator: every board tried
/// but the last had no puzzle, and the last had the puzzle that was found, or,
/// where none was found, no board was left to try and the last had none either.
pub open spec fn is_deal(n: nat, seed: u64, attempts: nat, tried: nat, found: Option<(Grid, Grid)>) -> bool {
    &&& tried <= attempts
    &&& forall|j: nat| j + 1 < tried ==> !has_puzzle(#[trigger] board_at(n, seed, j))
    &&& match found {
        Some((play, sol)) => {
            &&& tried >= 1
            &&& is_puzzle(board_at(n, seed, (tried - 1) as nat), play, sol)
            &&& is_first_puzzle(board_at(n, seed, (tried - 1) as nat), play)
        },
        None => {
            &&& tried == attempts
            &&& tried >= 1 ==> !has_puzzle(board_at(n, seed, (tried - 1) as nat))
        },
    }
}

/// The boards of a pair of them, as the contracts see them.
pub open spec fn views(found: Option<(State, State)>) -> Option<(Grid, Grid)> {
    match found {
        Some((play, sol)) => Some((play@, sol@)),
        None => None,
    }
}

/// Every queen of `a` stands on `b` too, and `b` holds more.
pub open spec fn holds_more(a: Grid, b: Grid) -> bool {
    &&& forall|x: int, y: int| occupied(a, x, y) ==> occupied(b, x, y)
    &&& queen_count(a) < queen_count(b)
}

/// No cell is flagged.
pub open spec fn no_flags(g: Grid) -> bool {
    forall|x: int, y: int| in_bounds(g, x, y) ==> (#[trigger] g[y][x]).mark != Mark::Flagged
}

/// `play` and `sol` are what a fresh puzzle of size `n` is made of: `play` is a
/// board of that size, split into regions, without a flag, with the preset
/// number of queens and none against the rules; `sol` adds queens to it, on
/// the same regions, up to `n`, none against the rules, so that each row, each
/// column and each region holds exactly one, and is the one board that does; and
/// on the blank board with these regions, `play` is the first such board that the
/// search hands out.
pub open spec fn is_fresh_puzzle(n: nat, play: Grid, sol: Grid) -> bool {
    &&& play.len() == n
    &&& is_partitioned(play)
    &&& no_flags(play)
    &&& is_legal(play)
    &&& queen_count(play) == preset(n)
    &&& only_solution(play, n, sol)
    &&& same_regions(play, sol)
    &&& is_partitioned(sol)
    &&& holds_more(play, sol)
    &&& is_legal(sol)
    &&& queen_count(sol) == n
    &&& one_each(sol)
    &&& is_first_puzzle(cleared(play), play)
}

/// Moves take no queen off the board and set no flag.
pub proof fn lemma_reachable_keeps_queens(a: Grid, b: Grid, k: nat)
    requires
        is_board(a),
        reachable(a, b, k),
    ensures
        forall|x: int, y: int| occupied(a, x, y) ==> occupied(b, x, y),
        no_flags(a) ==> no_flags(b),
    decreases k,
{
    if k > 0 {
        let mid = choose|mid: Grid| reachable(a, mid, (k - 1) as nat) && #[trigger] is_step(mid, b);
        lemma_reachable_keeps_queens(a, mid, (k - 1) as nat);
        lemma_reachable_shape(a, mid, (k - 1) as nat);
        let (u, v) = choose|u: int, v: int| is_move(mid, u, v) && b == #[trigger] place(mid, u, v);
        lemma_place(mid, u, v);
        assert forall|x: int, y: int| occupied(a, x, y) implies occupied(b, x, y) by {
            assert(occupied(mid, x, y));
            if !(x == u && y == v) {
                assert(place(mid, u, v)[y][x] == mid[y][x]);
            }
        }
        if no_flags(a) {
            assert forall|x: int, y: int| in_bounds(b, x, y) implies (#[trigger] b[y][x]).mark
                != Mark::Flagged by {
                if !(x == u && y == v) {
                    assert(place(mid, u, v)[y][x] == mid[y][x]);
                }
            }
        }
    }
}

/// The first puzzle on a blank board that is split into regions is a fresh puzzle.
pub proof fn lemma_puzzle_is_fresh(board: Grid, play: Grid, sol: Grid)
    requires
        is_board(board),
        is_blank(board),
        is_partitioned(board),
        is_puzzle(board, play, sol),
        is_first_puzzle(board, play),
    ensures
        is_fresh_puzzle(board.len(), play, sol),
{
    let n = board.len();
    assert(is_legal(board)) by {
        assert forall|x: int, y: int, u: int, v: int|
            #![trigger board[y][x], board[v][u]]
            !occupied(board, x, y) by {}
    }
    assert(no_flags(board));
    lemma_solution_shape(board, preset(n), play);
    lemma_partition_by_regions(board, play);
    lemma_reachable_keeps_queens(board, play, (preset(n) - queen_count(board)) as nat);
    lemma_solution_shape(play, n, sol);
    lemma_partition_by_regions(play, sol);
    lemma_reachable_keeps_queens(play, sol, (n - queen_count(play)) as nat);
    lemma_full_board(sol);
    assert(cleared(play) =~~= board) by {
        assert forall|y: int| 0 <= y < n implies #[trigger] cleared(play)[y] =~= board[y] by {
            assert forall|x: int| 0 <= x < n implies cleared(play)[y][x] == board[y][x] by {
                assert(play[y][x].region == board[y][x].region);
                assert(board[y][x].mark == Mark::Blank);
            }
        }
    }
}

/// A search that has found every board of a puzzle's start has found the
/// puzzle's solution and nothing else.
pub proof fn lemma_puzzle_search(search: Solutions, sol: Grid)
    requires
        search.wf(),
        search.exhausted(),
        only_solution(search.start(), search.target(), sol),
    ensures
        search.yielded() == seq![sol],
{
    let found = search.yielded();
    assert(found.contains(sol));
    assert forall|k: int| 0 <= k < found.len() implies found[k] == sol by {
        lemma_yielded_are_solutions(search.model(), k);
    }
    if found.len() > 1 {
        assert(found[0] == found[1]);
    }
    assert(found =~= seq![sol]);
}

impl State {
    /// The one board with `target` queens that moves make of this one, if
    /// there is exactly one.
    pub fn unique_completion(&self, target: usize) -> (found: Option<State>)
        requires
            self.wf(),
        ensures
            match found {
                Some(sol) => sol.wf() && only_solution(self@, target as nat, sol@),
                None => !has_one_solution(self@, target as nat),
            },
    {
        let mut search = self.solutions(target);
        let first = search.next();
        match first {
            None => {
                assert forall|sol: Grid| !only_solution(self@, target as nat, sol) by {
                    if is_solution(self@, target as nat, sol) {
                        assert(search.yielded().contains(sol));
                    }
                }
                None
            },
            Some(sol) => {
                let ghost found = search.yielded();
                assert(found[0] == sol@);
                let second = search.next();
                match second {
                    None => {
                        assert forall|b: Grid| is_solution(self@, target as nat, b) implies b == sol@ by {
                            assert(found.contains(b));
                        }
                        Some(sol)
                    },
                    Some(other) => {
                        assert(found.contains(sol@));
                        assert(other@ != sol@);
                        None
                    },
                }
            },
        }
    }

    /// A puzzle on this board, if it has one: the first board with the preset
    /// number of queens, in the order of the search, that can be completed in one
    /// way only, and its completion.
    pub fn puzzle_from(&self) -> (found: Option<(State, State)>)
        requires
            self.wf(),
        ensures
            match found {
                Some((play, sol)) => {
                    &&& play.wf() && sol.wf()
                    &&& is_puzzle(self@, play@, sol@)
                    &&& is_first_puzzle(self@, play@)
                },
                None => forall|play: Grid, sol: Grid| !is_puzzle(self@, play, sol),
            },
    {
        let n: usize = self.size();
        let mut search = self.solutions(n / 2);
        let ghost from = search.model();
        let ghost mut steps: nat = 0;
        loop
            invariant
                self.wf(),
                n == self@.len(),
                search.wf(),
                from == initial(self@, preset(n as nat)),
                search.model() == run(from, steps),
                search.start() == self@,
                search.target() == preset(n as nat),
                forall|k: int|
                    0 <= k < search.yielded().len() ==> !has_one_solution(
                        #[trigger] search.yielded()[k],
                        n as nat,
                    ),
            decreases search.fuel().levels, search.fuel().boards, search.fuel().rows, search.fuel().cols,
        {
            let ghost tried = search.yielded();
            let ghost before = search.model();
            match search.next() {
                None => {
                    assert forall|play: Grid, sol: Grid| !is_puzzle(self@, play, sol) by {
                        if is_solution(self@, preset(n as nat), play) {
                            assert(tried.contains(play));
                            let k = choose|k: int| 0 <= k < tried.len() && tried[k] == play;
                            assert(!has_one_solution(tried[k], n as nat));
                        }
                    }
                    return None;
                },
                Some(play) => {
                    proof {
                        let k = choose|k: nat|
                            {
                                &&& quiet(before, k)
                                &&& emits(#[trigger] run(before, k))
                                &&& play@ == handed(run(before, k))
                                &&& search.model() == run(before, k + 1)
                            };
                        lemma_run_on(from, steps, k + 1);
                        steps = steps + k + 1;
                        assert(search.yielded()[tried.len() as int] == play@);
                    }
                    match play.unique_completion(n) {
                        Some(sol) => {
                            proof {
                                let found = run(from, steps).yielded;
                                assert(found == search.yielded());
                                assert forall|j: int| 0 <= j < found.len() - 1 implies !has_one_solution(
                                    #[trigger] found[j],
                                    self@.len(),
                                ) by {
                                    assert(found[j] == tried[j]);
                                }
                            }
                            return Some((play, sol));
                        },
                        None => {
                            assert forall|k: int|
                                0 <= k < search.yielded().len() implies !has_one_solution(
                                #[trigger] search.yielded()[k],
                                n as nat,
                            ) by {
                                if k < tried.len() {
                                    assert(search.yielded()[k] == tried[k]);
                                }
                            }
                        },
                    }
                },
            }
        }
    }

    /// A puzzle on a fresh board of size `n`: a board with the preset number
    /// of queens, and the one full board that it can be completed to. Boards are
    /// split into regions at random until one has a puzzle, `attempts` times at most;
    /// `None` says that none of them had one.
    pub fn new_unsolved(n: usize, rng: &mut Rng, attempts: usize) -> (found: Option<(State, State)>)
        requires
            n * n <= usize::MAX,
        ensures
            attempts == 0 ==> found is None,
            found matches Some((play, sol)) ==> play.wf() && sol.wf() && is_fresh_puzzle(
                n as nat,
                play@,
                sol@,
            ),
            (exists|tried: nat|
                {
                    &&& is_deal(n as nat, old(rng).state(), attempts as nat, tried, views(found))
                    &&& final(rng).state() == #[trigger] advanced_by(
                        old(rng).state(),
                        tried * draws(n as nat),
                    )
                }),
    {
        let mut left: usize = attempts;
        let ghost seed: u64 = rng.state();
        let ghost mut tried: nat = 0;
        while left > 0
            invariant
                n * n <= usize::MAX,
                left <= attempts,
                tried + left == attempts,
                seed == old(rng).state(),
                rng.state() == advanced_by(seed, tried * draws(n as nat)),
                forall|j: nat| j < tried ==> !has_puzzle(#[trigger] board_at(n as nat, seed, j)),
            decreases left,
        {
            proof {
                lemma_advanced_on(seed, tried * draws(n as nat), draws(n as nat));
                assert(tried * draws(n as nat) + draws(n as nat) == (tried + 1) * draws(n as nat))
                    by (nonlinear_arith);
                tried = tried + 1;
            }
            let board = State::new_blank(n, rng);
            assert(board@ == board_at(n as nat, seed, (tried - 1) as nat));
            if let Some((play, sol)) = board.puzzle_from() {
                proof {
                    lemma_puzzle_is_fresh(board@, play@, sol@);
                }
                assert(is_deal(n as nat, seed, attempts as nat, tried, Some((play@, sol@))));
                return Some((play, sol));
            }
            left = left - 1;
        }
        assert(is_deal(n as nat, seed, attempts as nat, tried, None));
        assert(rng.state() == advanced_by(seed, tried * draws(n as nat)));
        None
    }
}

} // verus!
