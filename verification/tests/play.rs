use queens::cell::Mark;
use queens::play::{
    get_button_label, press, run_game, run_solver, verify, Label, Verdict, BLANK, GRID_SIZE, MARKED,
    PALETTE_SIZE, QUEEN,
};
use queens::rng::Rng;
use queens::state::State;

fn quadrants() -> State {
    let mut rng = Rng::new(7);
    let mut board = State::new_blank(4, &mut rng);
    for y in 0..4 {
        for x in 0..4 {
            let want = (y / 2) * 2 + x / 2;
            while board.get_cell_group(x, y) != want {
                board.cycle_square_group(x, y);
            }
        }
    }
    board
}

#[test]
fn signs_and_sizes() {
    assert_eq!(QUEEN, '*');
    assert_eq!(MARKED, 'x');
    assert_eq!(BLANK, '=');
    assert_eq!(GRID_SIZE, 8);
    assert_eq!(PALETTE_SIZE, 8);
}

#[test]
fn verdict_words() {
    assert_eq!(Verdict::Correct.message(), "Correct!");
    assert_eq!(Verdict::Incomplete.message(), "Incomplete");
    assert_eq!(Verdict::Incorrect.message(), "Incorrect");
}

#[test]
fn verdict_on_a_board() {
    let board = quadrants();
    let mut solution = board.clone();
    for (x, y) in [(1, 0), (3, 1), (0, 2), (2, 3)] {
        assert!(solution.place_queen(x, y));
    }
    assert_eq!(verify(&solution, &solution), Verdict::Correct);
    assert_eq!(verify(&board, &solution), Verdict::Incomplete);
    let mut part = board.clone();
    assert!(part.place_queen(1, 0));
    assert!(part.place_queen(3, 1));
    assert!(part.place_queen(0, 2));
    assert_eq!(verify(&part, &solution), Verdict::Incomplete);
    let mut other = board.clone();
    for (x, y) in [(2, 0), (0, 1), (3, 2), (1, 3)] {
        assert!(other.place_queen(x, y));
    }
    assert_eq!(verify(&other, &solution), Verdict::Incorrect);
    // the right queens with a flag left on the board are not the solution
    let mut flagged = solution.clone();
    assert!(flagged.mark(0, 0));
    assert_eq!(verify(&flagged, &solution), Verdict::Incorrect);
}

#[test]
fn press_cycles_with_flags() {
    let mut board = quadrants();
    let blank = board.clone();
    press(&mut board, 1, 0, true);
    assert!(board.is_marked(1, 0));
    press(&mut board, 1, 0, true);
    assert!(board.has_queen(1, 0));
    press(&mut board, 1, 0, true);
    assert!(board == blank);
}

#[test]
fn press_cycles_without_flags() {
    let mut board = quadrants();
    let blank = board.clone();
    press(&mut board, 1, 0, false);
    assert!(board.has_queen(1, 0));
    press(&mut board, 1, 0, false);
    assert!(board == blank);
}

#[test]
fn press_on_a_ruled_out_cell() {
    let mut board = quadrants();
    press(&mut board, 0, 0, false);
    let one = board.clone();
    // without flags: the queen is refused, nothing changes
    press(&mut board, 1, 1, false);
    assert!(board == one);
    // with flags: blank, flagged, and back to blank, as the queen is refused
    press(&mut board, 1, 1, true);
    assert!(board.is_marked(1, 1));
    press(&mut board, 1, 1, true);
    assert!(board == one);
}

#[test]
fn labels_show_mark_and_region() {
    let mut board = quadrants();
    assert_eq!(get_button_label(&board, 3, 0), Label { glyph: '=', color: 1 });
    assert!(board.mark(3, 0));
    assert_eq!(get_button_label(&board, 3, 0), Label { glyph: 'x', color: 1 });
    assert!(board.place_queen(0, 3));
    assert_eq!(get_button_label(&board, 0, 3), Label { glyph: '*', color: 2 });
    assert_eq!(board.cell(0, 3).mark, Mark::Occupied);
}

#[test]
fn solver_mode_solves_the_quadrants() {
    let board = quadrants();
    let solved = run_solver(&board).unwrap();
    assert_eq!(solved.count_queens(), 4);
    assert!(solved.has_queen(1, 0) && solved.has_queen(3, 1) && solved.has_queen(0, 2) && solved.has_queen(2, 3));
    let mut start = board.clone();
    assert!(start.place_queen(2, 0));
    let solved = run_solver(&start).unwrap();
    assert!(solved.has_queen(2, 0) && solved.has_queen(0, 1) && solved.has_queen(3, 2) && solved.has_queen(1, 3));
}

#[test]
fn solver_mode_says_when_there_is_no_way() {
    let mut board = quadrants();
    assert!(board.place_queen(0, 0));
    assert!(run_solver(&board).is_none());
    // a solved board has none to add
    let solved = run_solver(&quadrants()).unwrap();
    assert!(run_solver(&solved).is_none());
}

#[test]
fn game_mode_without_attempts_deals_nothing() {
    let mut rng = Rng::new(1);
    assert!(run_game(&mut rng, 0).is_none());
}

#[test]
fn game_mode_deals_a_puzzle_of_the_game_size() {
    let mut rng = Rng::new(2);
    let (play, solution) = run_game(&mut rng, 20).unwrap();
    assert_eq!(play.size(), GRID_SIZE);
    assert_eq!(play.count_queens(), GRID_SIZE / 2);
    assert_eq!(solution.count_queens(), GRID_SIZE);
    assert_eq!(verify(&play, &solution), Verdict::Incomplete);
    assert_eq!(verify(&solution, &solution), Verdict::Correct);
    // the solver finds the solution from the puzzle, and nothing else
    let mut search = play.solutions(GRID_SIZE);
    assert!(search.next().unwrap() == solution);
    assert!(search.next().is_none());
    assert!(run_solver(&play).unwrap() == solution);
    for y in 0..GRID_SIZE {
        for x in 0..GRID_SIZE {
            assert!(play.get_cell_group(x, y) < PALETTE_SIZE);
        }
    }
}
