use queens::rng::Rng;
use queens::state::State;

/// The cells of region `r` that can be walked to from its first cell in row-major order.
fn walked(board: &State, r: usize) -> usize {
    let n = board.size();
    let mut seen = vec![vec![false; n]; n];
    let mut stack = Vec::new();
    'find: for y in 0..n {
        for x in 0..n {
            if board.get_cell_group(x, y) == r {
                seen[y][x] = true;
                stack.push((x, y));
                break 'find;
            }
        }
    }
    let mut count = 0;
    while let Some((x, y)) = stack.pop() {
        count += 1;
        let mut near = Vec::new();
        if x > 0 {
            near.push((x - 1, y));
        }
        if y > 0 {
            near.push((x, y - 1));
        }
        if x + 1 < n {
            near.push((x + 1, y));
        }
        if y + 1 < n {
            near.push((x, y + 1));
        }
        for (u, v) in near {
            if !seen[v][u] && board.get_cell_group(u, v) == r {
                seen[v][u] = true;
                stack.push((u, v));
            }
        }
    }
    count
}

fn check_partition(board: &State, n: usize) {
    assert_eq!(board.size(), n);
    let mut sizes = vec![0usize; n];
    for y in 0..n {
        for x in 0..n {
            let r = board.get_cell_group(x, y);
            assert!(r < n);
            sizes[r] += 1;
            assert!(!board.has_queen(x, y));
            assert!(!board.is_marked(x, y));
        }
    }
    assert_eq!(sizes.iter().sum::<usize>(), n * n);
    for r in 0..n {
        assert!(sizes[r] > 0);
        assert_eq!(walked(board, r), sizes[r]);
    }
    assert_eq!(board.count_queens(), 0);
}

#[test]
fn blank_boards_are_partitioned() {
    for n in 1..10usize {
        for seed in 0..20u64 {
            let mut rng = Rng::new(seed * 977 + n as u64);
            let board = State::new_blank(n, &mut rng);
            check_partition(&board, n);
        }
    }
}

#[test]
fn a_board_of_no_size_is_empty() {
    let mut rng = Rng::new(1);
    let board = State::new_blank(0, &mut rng);
    assert_eq!(board.size(), 0);
    assert_eq!(board.count_queens(), 0);
}

#[test]
fn a_board_of_one_cell_has_one_region() {
    let mut rng = Rng::new(1);
    let board = State::new_blank(1, &mut rng);
    check_partition(&board, 1);
    assert_eq!(board.get_cell_group(0, 0), 0);
}

#[test]
fn on_a_board_of_two_each_region_has_a_seed() {
    for seed in 0..50u64 {
        let mut rng = Rng::new(seed);
        let board = State::new_blank(2, &mut rng);
        check_partition(&board, 2);
    }
}

#[test]
fn same_seed_same_partition() {
    let mut a = Rng::new(2024);
    let mut b = Rng::new(2024);
    let first = State::new_blank(7, &mut a);
    let second = State::new_blank(7, &mut b);
    assert!(first == second);
    // the generator was used: what it gives next differs from its first number
    let mut fresh = Rng::new(2024);
    assert_ne!(a.next_u64(), fresh.next_u64());
}

#[test]
fn seeds_give_different_partitions() {
    let mut boards = Vec::new();
    for seed in 0..10u64 {
        let mut rng = Rng::new(seed);
        boards.push(State::new_blank(6, &mut rng));
    }
    let mut differ = false;
    for b in &boards[1..] {
        if *b != boards[0] {
            differ = true;
        }
    }
    assert!(differ);
}

#[test]
fn a_partition_takes_a_draw_for_each_seed_and_two_for_each_other_cell() {
    for n in 0..8usize {
        let mut rng = Rng::new(77);
        let _ = State::new_blank(n, &mut rng);
        let mut fresh = Rng::new(77);
        for _ in 0..(2 * n * n - n) {
            fresh.next_u64();
        }
        assert_eq!(rng.next_u64(), fresh.next_u64());
    }
}

fn groups_of(board: &State) -> Vec<Vec<usize>> {
    let n = board.size();
    (0..n).map(|y| (0..n).map(|x| board.get_cell_group(x, y)).collect()).collect()
}

#[test]
fn partitions_of_given_seeds() {
    let mut rng = Rng::new(1);
    assert_eq!(
        groups_of(&State::new_blank(3, &mut rng)),
        vec![vec![1, 2, 2], vec![1, 2, 0], vec![1, 1, 0]]
    );
    let mut rng = Rng::new(7);
    assert_eq!(
        groups_of(&State::new_blank(4, &mut rng)),
        vec![vec![2, 2, 2, 2], vec![2, 1, 0, 0], vec![3, 1, 1, 1], vec![3, 3, 3, 1]]
    );
    let mut rng = Rng::new(2024);
    assert_eq!(
        groups_of(&State::new_blank(5, &mut rng)),
        vec![
            vec![1, 1, 1, 1, 2],
            vec![1, 0, 0, 1, 2],
            vec![0, 0, 0, 2, 2],
            vec![4, 4, 4, 4, 3],
            vec![4, 4, 4, 4, 4]
        ]
    );
}
