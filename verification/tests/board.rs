use queens::cell::{Cell, Mark};
use queens::rng::Rng;
use queens::state::State;

/// A 4×4 board with one region in each 2×2 quadrant.
fn quadrant_board() -> State {
    let mut rng = Rng::new(11);
    let mut board = State::new_blank(4, &mut rng);
    for y in 0..4 {
        for x in 0..4 {
            let want = (y / 2) * 2 + x / 2;
            while board.get_cell_group(x, y) != want {
                board.cycle_square_group(x, y);
            }
        }
    }
    board
}

#[test]
fn quadrant_layout_is_as_built() {
    let board = quadrant_board();
    assert_eq!(board.size(), 4);
    let want = [[0, 0, 1, 1], [0, 0, 1, 1], [2, 2, 3, 3], [2, 2, 3, 3]];
    for y in 0..4 {
        for x in 0..4 {
            assert_eq!(board.get_cell_group(x, y), want[y][x]);
            assert_eq!(board.cell(x, y), Cell { region: want[y][x], mark: Mark::Blank });
            assert!(!board.has_queen(x, y));
            assert!(!board.is_marked(x, y));
        }
    }
    assert_eq!(board.count_queens(), 0);
}

#[test]
fn one_queen_rules_out_its_neighbours_row_and_column() {
    let mut board = quadrant_board();
    assert!(board.place_queen(0, 0));
    assert!(board.has_queen(0, 0));
    assert_eq!(board.count_queens(), 1);
    // the diagonal neighbour
    assert!(!board.can_place(1, 1));
    // the same row, and the same column
    assert!(!board.can_place(2, 0));
    assert!(!board.can_place(0, 2));
    // another region, neither touching nor in line
    assert!(board.can_place(2, 2));
    assert!(board.can_place(1, 2));
    assert!(board.can_place(2, 1));
    assert!(board.can_place(3, 3));
}

#[test]
fn a_queen_rules_out_its_whole_region() {
    let mut board = quadrant_board();
    // move (2, 2) into the region of (0, 0): from 3 over 0
    board.cycle_square_group(2, 2);
    assert_eq!(board.get_cell_group(2, 2), 0);
    assert!(board.place_queen(0, 0));
    assert!(!board.can_place(2, 2));
    assert!(board.can_place(3, 2));
}

#[test]
fn can_place_looks_past_the_cell_itself() {
    let mut board = quadrant_board();
    assert!(board.place_queen(1, 0));
    // the queen's own cell is ruled out by no other queen
    assert!(board.can_place(1, 0));
    // and yet a second queen is not put there
    assert!(!board.place_queen(1, 0));
    assert_eq!(board.count_queens(), 1);
}

#[test]
fn flags_have_no_weight() {
    let mut board = quadrant_board();
    assert!(board.mark(0, 0));
    assert!(board.is_marked(0, 0));
    assert!(board.can_place(1, 1));
    assert!(board.can_place(0, 0));
    assert!(board.can_place(3, 0));
    assert_eq!(board.count_queens(), 0);
    // a queen takes the place of the flag
    assert!(board.place_queen(0, 0));
    assert!(board.has_queen(0, 0));
    assert!(!board.is_marked(0, 0));
}

#[test]
fn refused_queen_leaves_the_board_alone() {
    let mut board = quadrant_board();
    assert!(board.place_queen(0, 0));
    let before = board.clone();
    assert!(!board.place_queen(1, 1));
    assert!(!board.place_queen(3, 0));
    assert!(!board.place_queen(0, 3));
    assert!(!board.place_queen(1, 0));
    assert!(board == before);
}

#[test]
fn flag_and_unflag_gives_the_board_back() {
    let mut board = quadrant_board();
    let before = board.clone();
    assert!(board.mark(2, 1));
    assert!(board != before);
    assert!(board.unmark(2, 1));
    assert!(board == before);
    assert_eq!(board.cell(2, 1).mark, Mark::Blank);
}

#[test]
fn place_and_unplace_gives_the_board_back() {
    let mut board = quadrant_board();
    let before = board.clone();
    assert!(board.place_queen(2, 1));
    assert!(board != before);
    assert!(board.unplace_queen(2, 1));
    assert!(board == before);
    assert_eq!(board.cell(2, 1).mark, Mark::Blank);
}

#[test]
fn marks_change_only_from_the_state_they_are_for() {
    let mut board = quadrant_board();
    // nothing to take off a blank cell
    assert!(!board.unmark(0, 0));
    assert!(!board.unplace_queen(0, 0));
    assert!(board.place_queen(0, 0));
    // a queen is neither flagged nor unflagged
    assert!(!board.mark(0, 0));
    assert!(!board.unmark(0, 0));
    assert!(board.has_queen(0, 0));
    assert!(board.mark(3, 3));
    // a flag is not flagged twice, and is no queen to take off
    assert!(!board.mark(3, 3));
    assert!(!board.unplace_queen(3, 3));
    assert!(board.is_marked(3, 3));
}

#[test]
fn cycling_a_group_goes_round() {
    let mut board = quadrant_board();
    assert_eq!(board.get_cell_group(3, 3), 3);
    board.cycle_square_group(3, 3);
    assert_eq!(board.get_cell_group(3, 3), 0);
    board.cycle_square_group(3, 3);
    assert_eq!(board.get_cell_group(3, 3), 1);
    board.cycle_square_group(3, 3);
    board.cycle_square_group(3, 3);
    assert_eq!(board.get_cell_group(3, 3), 3);
    assert!(board == quadrant_board());
}

#[test]
fn cycling_a_group_keeps_the_marks() {
    let mut board = quadrant_board();
    assert!(board.place_queen(1, 2));
    assert!(board.mark(0, 0));
    board.cycle_square_group(1, 2);
    board.cycle_square_group(0, 0);
    assert!(board.has_queen(1, 2));
    assert!(board.is_marked(0, 0));
    assert_eq!(board.get_cell_group(1, 2), 3);
    assert_eq!(board.get_cell_group(0, 0), 1);
    // the rules follow the new regions: (3, 3) now shares the region of the queen
    assert!(!board.can_place(3, 3));
}

#[test]
fn on_a_board_of_one_cell_the_group_stays() {
    let mut rng = Rng::new(3);
    let mut board = State::new_blank(1, &mut rng);
    assert_eq!(board.get_cell_group(0, 0), 0);
    board.cycle_square_group(0, 0);
    assert_eq!(board.get_cell_group(0, 0), 0);
    assert!(board.place_queen(0, 0));
    assert_eq!(board.count_queens(), 1);
}

#[test]
fn equal_boards_have_equal_cells() {
    let a = quadrant_board();
    let mut b = quadrant_board();
    assert!(a == b);
    b.mark(1, 1);
    assert!(a != b);
    b.unmark(1, 1);
    assert!(a == b);
    b.cycle_square_group(1, 1);
    assert!(a != b);
    let mut rng = Rng::new(5);
    let c = State::new_blank(5, &mut rng);
    assert!(a != c);
}

#[test]
fn count_follows_the_queens() {
    let mut board = quadrant_board();
    assert!(board.place_queen(1, 0));
    assert!(board.place_queen(3, 1));
    assert_eq!(board.count_queens(), 2);
    assert!(board.place_queen(0, 2));
    assert!(board.place_queen(2, 3));
    assert_eq!(board.count_queens(), 4);
    assert!(board.unplace_queen(3, 1));
    assert_eq!(board.count_queens(), 3);
}

#[test]
fn a_copy_is_equal_and_apart() {
    let mut board = quadrant_board();
    board.place_queen(1, 0);
    let copy = board.clone();
    assert!(copy == board);
    board.unplace_queen(1, 0);
    assert!(copy != board);
    assert!(copy.has_queen(1, 0));
}

#[test]
fn digest_of_a_board_of_one_cell() {
    let mut rng = Rng::new(3);
    let mut board = State::new_blank(1, &mut rng);
    assert_eq!(board.digest(), 0xAF63_BD4C_8601_B7DF);
    assert!(board.mark(0, 0));
    assert_eq!(board.digest(), 0xAF63_BD4C_8601_B7E0);
    assert!(board.place_queen(0, 0));
    assert_eq!(board.digest(), 0xAF63_BD4C_8601_B7E1);
    let mut none = Rng::new(3);
    assert_eq!(State::new_blank(0, &mut none).digest(), 0xCBF2_9CE4_8422_2325);
}

#[test]
fn digest_goes_by_the_marks() {
    let mut board = quadrant_board();
    let blank = board.digest();
    assert!(board.place_queen(1, 0));
    let one = board.digest();
    assert_ne!(blank, one);
    // the regions play no part
    board.cycle_square_group(3, 3);
    assert_eq!(board.digest(), one);
    assert_eq!(board.clone().digest(), one);
    assert!(board.unplace_queen(1, 0));
    assert_eq!(board.digest(), blank);
}
