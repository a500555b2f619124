//! What the two modes of the game decide: what a key press does to the
//! board, what a cell shows, and what the player is told.

use vstd::prelude::*;
use crate::cell::Mark;
use crate::generator::{is_deal, is_fresh_puzzle, views};
use crate::grid::{Grid, in_bounds, occupied, queen_count};
use crate::growth::draws;
use crate::regions::is_partitioned;
use crate::rng::{Rng, advanced_by};
use crate::rules::{after_mark, after_place, after_unmark, after_unplace, is_solution};
use crate::search::is_first_found;
use crate::state::State;

verus! {

/// The size of the board that the game is played on.
pub const GRID_SIZE: usize = 8;

/// The number of colours at hand for the regions.
pub const PALETTE_SIZE: usize = 8;

/// What a cell with a queen shows.
pub const QUEEN: char = '*';

/// What a flagged cell shows.
pub const MARKED: char = 'x';

/// What a blank cell shows.
pub const BLANK: char = '=';

/// What the player is told about the board when asking.
#[derive(Clone, Copy, PartialEq, Eq, Structural, Debug)]
pub enum Verdict {
    /// The board is the solution.
    Correct,
    /// The board holds fewer queens than the solution.
    Incomplete,
    /// The board holds as many queens as the solution or more, and is not the solution.
    Incorrect,
}

/// What a cell shows: a sign for what stands on it, in the colour of its region.
#[derive(Clone, Copy, PartialEq, Eq, Structural, Debug)]
pub struct Label {
    pub glyph: char,
    pub color: usize,
}

/// The verdict on `current`, given the solution.
pub open spec fn judged(current: Grid, solution: Grid) -> Verdict {
    if current == solution {
        Verdict::Correct
    } else if queen_count(current) < queen_count(solution) {
        Verdict::Incomplete
    } else {
        Verdict::Incorrect
    }
}

/// The sign for a mark.
pub open spec fn glyph(m: Mark) -> char {
    match m {
        Mark::Occupied => QUEEN,
        Mark::Flagged => MARKED,
        Mark::Blank => BLANK,
    }
}

/// The board after the cell `(x, y)` was pressed. A queen leaves; a flag
/// gives way to a queen, if the rules allow one there; a blank cell is flagged
/// where flags are in use, and gets a queen, if the rules allow one, where they
/// are not.
pub open spec fn pressed(g: Grid, x: int, y: int, allow_marking: bool) -> Grid {
    if occupied(g, x, y) {
        after_unplace(g, x, y)
    } else if g[y][x].mark == Mark::Flagged {
        after_place(after_unmark(g, x, y), x, y)
    } else if allow_marking {
        after_mark(g, x, y)
    } else {
        after_place(g, x, y)
    }
}

impl Verdict {
    /// The words that the player reads.
    pub fn message(&self) -> (text: &'static str)
        ensures
            text@ == match *self {
                Verdict::Correct => "Correct!"@,
                Verdict::Incomplete => "Incomplete"@,
                Verdict::Incorrect => "Incorrect"@,
            },
    {
        match self {
            Verdict::Correct => "Correct!",
            Verdict::Incomplete => "Incomplete",
            Verdict::Incorrect => "Incorrect",
        }
    }
}

/// Judges the board against the solution.
pub fn verify(current: &State, solution: &State) -> (verdict: Verdict)
    requires
        current.wf(),
        solution.wf(),
    ensures
        verdict == judged(current@, solution@),
{
    if *current == *solution {
        Verdict::Correct
    } else if current.count_queens() < solution.count_queens() {
        Verdict::Incomplete
    } else {
        Verdict::Incorrect
    }
}

/// Does to the board what a press on the cell `(x, y)` asks for.
pub fn press(state: &mut State, x: usize, y: usize, allow_marking: bool)
    requires
        old(state).wf(),
        in_bounds(old(state)@, x as int, y as int),
    ensures
        final(state).wf(),
        final(state)@ == pressed(old(state)@, x as int, y as int, allow_marking),
        is_partitioned(old(state)@) ==> is_partitioned(final(state)@),
{
    if state.has_queen(x, y) {
        state.unplace_queen(x, y);
    } else if state.is_marked(x, y) {
        state.unmark(x, y);
        state.place_queen(x, y);
    } else if allow_marking {
        state.mark(x, y);
    } else {
        state.place_queen(x, y);
    }
}

/// What the cell `(x, y)` shows. There must be a colour for its region.
pub fn get_button_label(state: &State, x: usize, y: usize) -> (label: Label)
    requires
        state.wf(),
        in_bounds(state@, x as int, y as int),
        state@[y as int][x as int].region < PALETTE_SIZE,
    ensures
        label.glyph == glyph(state@[y as int][x as int].mark),
        label.color == state@[y as int][x as int].region,
{
    let cell = state.cell(x, y);
    let glyph: char = match cell.mark {
        Mark::Occupied => QUEEN,
        Mark::Flagged => MARKED,
        Mark::Blank => BLANK,
    };
    Label { glyph, color: cell.region }
}

/// Deals a game: a fresh puzzle of the game's size and its solution, or
/// `None` if none of `attempts` boards had a puzzle.
pub fn run_game(rng: &mut Rng, attempts: usize) -> (dealt: Option<(State, State)>)
    ensures
        attempts == 0 ==> dealt is None,
        dealt matches Some((play, sol)) ==> play.wf() && sol.wf() && is_fresh_puzzle(
            GRID_SIZE as nat,
            play@,
            sol@,
        ),
        (exists|tried: nat|
            {
                &&& is_deal(GRID_SIZE as nat, old(rng).state(), attempts as nat, tried, views(dealt))
                &&& final(rng).state() == #[trigger] advanced_by(
                    old(rng).state(),
                    tried * draws(GRID_SIZE as nat),
                )
            }),
{
    State::new_unsolved(GRID_SIZE, rng, attempts)
}

/// Solves a board: the first board, in the order of the search, that moves
/// make of it with a queen for each row, or `None` if there is none.
pub fn run_solver(board: &State) -> (solved: Option<State>)
    requires
        board.wf(),
    ensures
        match solved {
            Some(b) => {
                &&& b.wf()
                &&& is_solution(board@, board@.len(), b@)
                &&& is_first_found(board@, board@.len(), b@)
            },
            None => forall|b: Grid| !is_solution(board@, board@.len(), b),
        },
{
    let mut search = board.solutions(board.size());
    let solved = search.next();
    proof {
        if solved is None {
            assert forall|b: Grid| !is_solution(board@, board@.len(), b) by {
                if is_solution(board@, board@.len(), b) {
                    assert(search.yielded().contains(b));
                }
            }
        }
    }
    solved
}

} // verus!
