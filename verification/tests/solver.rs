use queens::rng::Rng;
use queens::state::State;

/// A 4×4 board with one region in each 2×2 quadrant.
fn quadrants() -> State {
    let mut rng = Rng::new(7);
    let mut board = State::new_blank(4, &mut rng);
    for y in 0..4 {
        for x in 0..4 {
            let want = (y / 2) * 2 + x / 2;
            while board.get_cell_group(x, y) != want {
                board.cycle_square_group(x, y);
            }
        }
    }
    board
}

fn with_queens(board: &State, queens: &[(usize, usize)]) -> State {
    let mut b = board.clone();
    for &(x, y) in queens {
        assert!(b.place_queen(x, y));
    }
    b
}

fn drain(board: &State, target: usize) -> Vec<State> {
    let mut search = board.solutions(target);
    let mut found = Vec::new();
    while let Some(b) = search.next() {
        found.push(b);
    }
    assert!(search.next().is_none());
    found
}

fn queens_of(board: &State) -> Vec<(usize, usize)> {
    let n = board.size();
    let mut queens = Vec::new();
    for y in 0..n {
        for x in 0..n {
            if board.has_queen(x, y) {
                queens.push((x, y));
            }
        }
    }
    queens
}

/// No queen of the board is ruled out by another.
fn is_legal(board: &State) -> bool {
    let queens = queens_of(board);
    for (i, &(x, y)) in queens.iter().enumerate() {
        for &(u, v) in &queens[i + 1..] {
            let touching = x.abs_diff(u) <= 1 && y.abs_diff(v) <= 1;
            if x == u || y == v || touching || board.get_cell_group(x, y) == board.get_cell_group(u, v) {
                return false;
            }
        }
    }
    true
}

/// Every way to put `k` more queens on the board, one legal placement after
/// another, by plain recursion.
fn brute(board: &State, k: usize, out: &mut Vec<State>) {
    if k == 0 {
        if !out.iter().any(|b| b == board) {
            out.push(board.clone());
        }
        return;
    }
    let n = board.size();
    for y in 0..n {
        for x in 0..n {
            let mut next = board.clone();
            if next.place_queen(x, y) {
                brute(&next, k - 1, out);
            }
        }
    }
}

fn same_set(a: &[State], b: &[State]) -> bool {
    a.len() == b.len() && a.iter().all(|x| b.iter().any(|y| x == y))
}

#[test]
fn quadrant_board_has_its_full_placements() {
    let board = quadrants();
    let found = drain(&board, 4);
    let first = with_queens(&board, &[(1, 0), (3, 1), (0, 2), (2, 3)]);
    let second = with_queens(&board, &[(2, 0), (0, 1), (3, 2), (1, 3)]);
    assert!(found.iter().any(|b| *b == first));
    assert!(found.iter().any(|b| *b == second));
    assert_eq!(found.len(), 2);
    for b in &found {
        assert_eq!(b.count_queens(), 4);
        assert!(is_legal(b));
        let queens = queens_of(b);
        for i in 0..4 {
            assert_eq!(queens.iter().filter(|q| q.0 == i).count(), 1);
            assert_eq!(queens.iter().filter(|q| q.1 == i).count(), 1);
            assert_eq!(queens.iter().filter(|q| b.get_cell_group(q.0, q.1) == i).count(), 1);
        }
    }
}

#[test]
fn five_queens_do_not_fit_on_four_rows() {
    let board = quadrants();
    assert!(drain(&board, 5).is_empty());
    assert!(drain(&board, 17).is_empty());
}

#[test]
fn target_equal_to_the_count_finds_nothing() {
    let board = quadrants();
    assert!(drain(&board, 0).is_empty());
    let one = with_queens(&board, &[(1, 0)]);
    assert!(drain(&one, 1).is_empty());
    let two = with_queens(&board, &[(1, 0), (3, 1)]);
    assert!(drain(&two, 2).is_empty());
}

#[test]
fn target_below_the_count_finds_nothing() {
    let board = quadrants();
    let two = with_queens(&board, &[(1, 0), (3, 1)]);
    assert!(drain(&two, 1).is_empty());
    assert!(drain(&two, 0).is_empty());
}

#[test]
fn one_queen_more_is_every_legal_cell() {
    let board = quadrants();
    let found = drain(&board, 1);
    assert_eq!(found.len(), 16);
    // in row-major order of the cell
    for (i, b) in found.iter().enumerate() {
        assert_eq!(queens_of(b), vec![(i % 4, i / 4)]);
    }
    let one = with_queens(&board, &[(0, 0)]);
    let next = drain(&one, 2);
    // all but the queen's row, column, region and neighbours: (2,1) (3,1) (1,2) (1,3) and region 3
    assert_eq!(next.len(), 8);
    for b in &next {
        assert!(b.has_queen(0, 0));
        assert_eq!(b.count_queens(), 2);
    }
}

#[test]
fn boards_found_have_the_target_and_differ() {
    for seed in 0..6u64 {
        let mut rng = Rng::new(seed);
        let board = State::new_blank(5, &mut rng);
        for target in 1..4usize {
            let found = drain(&board, target);
            for (i, b) in found.iter().enumerate() {
                assert_eq!(b.count_queens(), target);
                for c in &found[i + 1..] {
                    assert!(b != c);
                }
            }
        }
    }
}

#[test]
fn boards_found_are_legal() {
    for seed in 0..6u64 {
        let mut rng = Rng::new(100 + seed);
        let board = State::new_blank(5, &mut rng);
        for b in drain(&board, 3) {
            assert!(is_legal(&b));
        }
        for b in drain(&board, 5) {
            assert!(is_legal(&b));
        }
    }
}

#[test]
fn search_finds_what_plain_recursion_finds() {
    for seed in 0..4u64 {
        let mut rng = Rng::new(31 * seed + 1);
        let board = State::new_blank(4, &mut rng);
        for k in 1..5usize {
            let mut want = Vec::new();
            brute(&board, k, &mut want);
            let found = drain(&board, k);
            assert!(same_set(&found, &want));
        }
    }
    let board = quadrants();
    let start = with_queens(&board, &[(1, 0)]);
    let mut want = Vec::new();
    brute(&start, 2, &mut want);
    assert!(same_set(&drain(&start, 3), &want));
}

#[test]
fn search_starts_from_the_queens_that_stand() {
    let board = quadrants();
    let start = with_queens(&board, &[(1, 0), (3, 1)]);
    let found = drain(&start, 4);
    assert_eq!(found.len(), 1);
    assert!(found[0] == with_queens(&board, &[(1, 0), (3, 1), (0, 2), (2, 3)]));
    // the start itself is left as it was
    assert_eq!(start.count_queens(), 2);
}

#[test]
fn search_without_completion_finds_nothing() {
    let board = quadrants();
    // a queen in the corner cannot be completed to four
    let start = with_queens(&board, &[(0, 0)]);
    assert!(drain(&start, 4).is_empty());
}

#[test]
fn search_puts_queens_on_flags() {
    let mut board = quadrants();
    for y in 0..4 {
        for x in 0..4 {
            assert!(board.mark(x, y));
        }
    }
    let found = drain(&board, 4);
    assert_eq!(found.len(), 2);
    for b in &found {
        assert_eq!(b.count_queens(), 4);
        for y in 0..4 {
            for x in 0..4 {
                assert!(b.has_queen(x, y) != b.is_marked(x, y));
            }
        }
    }
}

#[test]
fn search_keeps_what_breaks_the_rules_at_the_start() {
    let mut board = quadrants();
    assert!(board.place_queen(0, 0));
    assert!(board.place_queen(2, 1));
    // both queens now share region 1
    board.cycle_square_group(0, 0);
    assert!(!is_legal(&board));
    let found = drain(&board, 3);
    assert!(!found.is_empty());
    for b in &found {
        assert!(b.has_queen(0, 0) && b.has_queen(2, 1));
        assert!(!is_legal(b));
    }
}

#[test]
fn a_new_search_starts_over() {
    let board = quadrants();
    let first = drain(&board, 4);
    let second = drain(&board, 4);
    assert_eq!(first.len(), second.len());
    for (a, b) in first.iter().zip(second.iter()) {
        assert!(a == b);
    }
}

#[test]
fn the_first_board_comes_without_the_rest() {
    let board = quadrants();
    let mut search = board.solutions(4);
    let first = search.next();
    assert!(first.is_some());
    assert_eq!(first.unwrap().count_queens(), 4);
}

#[test]
fn search_on_a_board_of_no_size_finds_nothing() {
    let mut rng = Rng::new(1);
    let board = State::new_blank(0, &mut rng);
    assert!(drain(&board, 0).is_empty());
    assert!(drain(&board, 1).is_empty());
}

#[test]
fn search_on_a_board_of_one_cell() {
    let mut rng = Rng::new(1);
    let board = State::new_blank(1, &mut rng);
    let found = drain(&board, 1);
    assert_eq!(found.len(), 1);
    assert!(found[0].has_queen(0, 0));
    assert!(drain(&board, 2).is_empty());
}

/// Every way to choose `k` cells of the blank board, in row-major order from
/// cell `from` on, such that no queen on one of them is ruled out by another.
fn fitting_sets(board: &State, from: usize, k: usize, chosen: &mut Vec<(usize, usize)>, out: &mut Vec<Vec<(usize, usize)>>) {
    if k == 0 {
        out.push(chosen.clone());
        return;
    }
    let n = board.size();
    for i in from..n * n {
        let (x, y) = (i % n, i / n);
        let fits = chosen.iter().all(|&(u, v)| {
            let touching = x.abs_diff(u) <= 1 && y.abs_diff(v) <= 1;
            !(x == u || y == v || touching || board.get_cell_group(x, y) == board.get_cell_group(u, v))
        });
        if fits {
            chosen.push((x, y));
            fitting_sets(board, i + 1, k - 1, chosen, out);
            chosen.pop();
        }
    }
}

#[test]
fn search_finds_every_fitting_set_of_cells() {
    for seed in 0..4u64 {
        let mut rng = Rng::new(500 + seed);
        let board = State::new_blank(5, &mut rng);
        for k in 1..6usize {
            let mut sets = Vec::new();
            fitting_sets(&board, 0, k, &mut Vec::new(), &mut sets);
            let found = drain(&board, k);
            assert_eq!(found.len(), sets.len());
            for b in &found {
                assert!(sets.iter().any(|set| *set == queens_of(b)));
            }
        }
    }
}

#[test]
fn boards_come_in_the_order_of_the_scan() {
    let board = quadrants();
    let found = drain(&board, 2);
    // the boards made of the first board with one queen come first, each in row-major order
    // of the second queen; boards met before are left out
    let mut want = Vec::new();
    for first in 0..16 {
        for second in 0..16 {
            let mut b = board.clone();
            if b.place_queen(first % 4, first / 4) && b.place_queen(second % 4, second / 4) {
                if !want.iter().any(|w| *w == b) {
                    want.push(b);
                }
            }
        }
    }
    assert_eq!(found.len(), want.len());
    for (a, b) in found.iter().zip(want.iter()) {
        assert!(a == b);
    }
}
