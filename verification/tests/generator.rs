use queens::rng::Rng;
use queens::state::State;

fn quadrants() -> State {
    let mut rng = Rng::new(7);
    let mut board = State::new_blank(4, &mut rng);
    for y in 0..4 {
        for x in 0..4 {
            let want = (y / 2) * 2 + x / 2;
            while board.get_cell_group(x, y) != want {
                board.cycle_square_group(x, y);
            }
        }
    }
    board
}

fn drain(board: &State, target: usize) -> Vec<State> {
    let mut search = board.solutions(target);
    let mut found = Vec::new();
    while let Some(b) = search.next() {
        found.push(b);
    }
    found
}

fn check_puzzle(n: usize, play: &State, sol: &State) {
    assert_eq!(play.size(), n);
    assert_eq!(sol.size(), n);
    assert_eq!(play.count_queens(), n / 2);
    assert_eq!(sol.count_queens(), n);
    for y in 0..n {
        for x in 0..n {
            assert_eq!(play.get_cell_group(x, y), sol.get_cell_group(x, y));
            assert!(!play.is_marked(x, y));
            assert!(!sol.is_marked(x, y));
            if play.has_queen(x, y) {
                assert!(sol.has_queen(x, y));
            }
        }
    }
    for i in 0..n {
        let mut in_row = 0;
        let mut in_column = 0;
        let mut in_region = 0;
        for y in 0..n {
            for x in 0..n {
                if sol.has_queen(x, y) {
                    if y == i {
                        in_row += 1;
                    }
                    if x == i {
                        in_column += 1;
                    }
                    if sol.get_cell_group(x, y) == i {
                        in_region += 1;
                    }
                    for v in y.saturating_sub(1)..(y + 2).min(n) {
                        for u in x.saturating_sub(1)..(x + 2).min(n) {
                            assert!((u, v) == (x, y) || !sol.has_queen(u, v));
                        }
                    }
                }
            }
        }
        assert_eq!((in_row, in_column, in_region), (1, 1, 1));
    }
    let found = drain(play, n);
    assert_eq!(found.len(), 1);
    assert!(found[0] == *sol);
}

#[test]
fn a_dealt_puzzle_has_one_solution() {
    let mut dealt = 0;
    for seed in 0..8u64 {
        let mut rng = Rng::new(seed);
        if let Some((play, sol)) = State::new_unsolved(5, &mut rng, 50) {
            check_puzzle(5, &play, &sol);
            dealt += 1;
        }
    }
    assert!(dealt > 0);
}

#[test]
fn a_dealt_puzzle_of_size_six() {
    let mut rng = Rng::new(17);
    let (play, sol) = State::new_unsolved(6, &mut rng, 200).unwrap();
    check_puzzle(6, &play, &sol);
}

#[test]
fn no_attempt_no_puzzle() {
    let mut rng = Rng::new(0);
    assert!(State::new_unsolved(5, &mut rng, 0).is_none());
    // and the generator was not touched
    assert_eq!(rng.next_u64(), 0xE220_A839_7B1D_CDAF);
}

#[test]
fn small_boards_have_no_puzzle() {
    let mut rng = Rng::new(5);
    // size 1: a puzzle would start with no queen more than the blank board has
    assert!(State::new_unsolved(1, &mut rng, 10).is_none());
    // sizes 2 and 3: no full placement exists
    assert!(State::new_unsolved(2, &mut rng, 10).is_none());
    assert!(State::new_unsolved(3, &mut rng, 10).is_none());
    assert!(State::new_unsolved(0, &mut rng, 10).is_none());
}

#[test]
fn quadrant_board_gives_a_puzzle() {
    let board = quadrants();
    let (play, sol) = board.puzzle_from().unwrap();
    check_puzzle(4, &play, &sol);
    // the first board with two queens, in the order of the search, that has one completion
    let mut first = None;
    for cand in drain(&board, 2) {
        if drain(&cand, 4).len() == 1 {
            first = Some(cand);
            break;
        }
    }
    assert!(play == first.unwrap());
}

#[test]
fn unique_completion_wants_exactly_one() {
    let board = quadrants();
    // the blank board has two
    assert!(board.unique_completion(4).is_none());
    // a corner queen has none
    let mut corner = board.clone();
    assert!(corner.place_queen(0, 0));
    assert!(corner.unique_completion(4).is_none());
    // a queen of one of the two has one
    let mut one = board.clone();
    assert!(one.place_queen(1, 0));
    let sol = one.unique_completion(4).unwrap();
    assert!(sol.has_queen(1, 0) && sol.has_queen(3, 1) && sol.has_queen(0, 2) && sol.has_queen(2, 3));
    assert_eq!(sol.count_queens(), 4);
    // a full board has none to add
    assert!(sol.unique_completion(4).is_none());
}

#[test]
fn a_board_without_full_placement_gives_no_puzzle() {
    let mut rng = Rng::new(9);
    let board = State::new_blank(3, &mut rng);
    assert!(board.puzzle_from().is_none());
}

#[test]
fn dealing_draws_for_whole_boards() {
    let n = 5usize;
    let attempts = 50usize;
    for seed in 0..5u64 {
        let mut rng = Rng::new(seed);
        let dealt = State::new_unsolved(n, &mut rng, attempts);
        let after = rng.next_u64();
        let mut fresh = Rng::new(seed);
        let mut tried = None;
        for j in 0..=attempts {
            let mut probe = Rng::new(seed);
            for _ in 0..j * (2 * n * n - n) {
                probe.next_u64();
            }
            if probe.next_u64() == after {
                tried = Some(j);
                break;
            }
        }
        let tried = tried.unwrap();
        if dealt.is_some() {
            assert!(tried >= 1);
            // the board that the puzzle was found on is the last one drawn
            for _ in 0..(tried - 1) * (2 * n * n - n) {
                fresh.next_u64();
            }
            let board = State::new_blank(n, &mut fresh);
            let (play, _) = dealt.unwrap();
            for y in 0..n {
                for x in 0..n {
                    assert_eq!(board.get_cell_group(x, y), play.get_cell_group(x, y));
                }
            }
        } else {
            assert_eq!(tried, attempts);
        }
    }
}
