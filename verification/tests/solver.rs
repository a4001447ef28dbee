use sudoku_rs::board::Board;
use sudoku_rs::error::SuDoKuError;
use sudoku_rs::search::{next_candidate, search_queue};
use sudoku_rs::solver::DfsSolver;

fn classic() -> Vec<u8> {
    vec![
        0, 0, 0, 2, 0, 8, 7, 0, 9, 0, 4, 0, 1, 0, 0, 0, 0, 0, 0, 6, 0, 0, 0, 3, 0, 0, 0, 0, 8, 7,
        0, 0, 4, 3, 0, 5, 6, 0, 0, 0, 5, 9, 0, 0, 1, 1, 9, 0, 3, 0, 2, 0, 0, 0, 9, 0, 8, 5, 2, 6,
        1, 0, 3, 5, 1, 6, 4, 3, 7, 9, 2, 8, 4, 2, 0, 8, 0, 0, 6, 5, 7,
    ]
}

#[test]
fn solve() {
    let mut board = Board::from_vec(vec![
        0, 0, 0, 2, 0, 8, 7, 0, 9, 0, 4, 0, 1, 0, 0, 0, 0, 0, 0, 6, 0, 0, 0, 3, 0, 0, 0, 0, 8, 7,
        0, 0, 4, 3, 0, 5, 6, 0, 0, 0, 5, 9, 0, 0, 1, 1, 9, 0, 3, 0, 2, 0, 0, 0, 9, 0, 8, 5, 2, 6,
        1, 0, 3, 5, 1, 6, 4, 3, 7, 9, 2, 8, 4, 2, 0, 8, 0, 0, 6, 5, 7,
    ]);
    let mut solver = DfsSolver::new();
    assert!(solver.solve(&mut board).is_ok());
    assert_eq!(
        "3 5 1 2 4 8 7 6 9
7 4 9 1 6 5 8 3 2
8 6 2 9 7 3 5 1 4
2 8 7 6 1 4 3 9 5
6 3 4 7 5 9 2 8 1
1 9 5 3 8 2 4 7 6
9 7 8 5 2 6 1 4 3
5 1 6 4 3 7 9 2 8
4 2 3 8 9 1 6 5 7\n"
            .to_string(),
        board.to_string()
    );
}

#[test]
fn multi_solve() {
    let mut board = Board::new();
    let mut solver = DfsSolver::new();
    assert_eq!(solver.unique(&mut board).unwrap(), false);
}

#[test]
fn unique() {
    let mut board = Board::from_vec(vec![
        0, 0, 0, 2, 0, 8, 7, 0, 9, 0, 4, 0, 1, 0, 0, 0, 0, 0, 0, 6, 0, 0, 0, 3, 0, 0, 0, 0, 8, 7,
        0, 0, 4, 3, 0, 5, 6, 0, 0, 0, 5, 9, 0, 0, 1, 1, 9, 0, 3, 0, 2, 0, 0, 0, 9, 0, 8, 5, 2, 6,
        1, 0, 3, 5, 1, 6, 4, 3, 7, 9, 2, 8, 4, 2, 0, 8, 0, 0, 6, 5, 7,
    ]);
    let mut solver = DfsSolver::new();
    assert_eq!(solver.unique(&mut board).unwrap(), true);
}

#[test]
fn unique_idempotence() {
    let board = Board::from_vec(vec![
        0, 0, 0, 2, 0, 8, 7, 0, 9, 0, 4, 0, 1, 0, 0, 0, 0, 0, 0, 6, 0, 0, 0, 3, 0, 0, 0, 0, 8, 7,
        0, 0, 4, 3, 0, 5, 6, 0, 0, 0, 5, 9, 0, 0, 1, 1, 9, 0, 3, 0, 2, 0, 0, 0, 9, 0, 8, 5, 2, 6,
        1, 0, 3, 5, 1, 6, 4, 3, 7, 9, 2, 8, 4, 2, 0, 8, 0, 0, 6, 5, 7,
    ]);
    let mut solver = DfsSolver::new();
    assert_eq!(solver.unique(&mut board.clone()).unwrap(), true);
    assert_eq!(solver.unique(&mut board.clone()).unwrap(), true);
}

#[test]
fn empty_board_is_solvable() {
    let mut board = Board::new();
    let mut solver = DfsSolver::new();
    let slots = solver.solve(&mut board).unwrap();
    assert_eq!(slots.len(), 81);
    assert!(board.is_win());
    assert_eq!(
        board.to_string(),
        "1 2 3 4 5 6 7 8 9\n4 5 6 7 8 9 1 2 3\n7 8 9 1 2 3 4 5 6\n2 1 4 3 6 5 8 9 7\n3 6 5 8 9 7 2 1 4\n8 9 7 2 1 4 3 6 5\n5 3 1 6 4 2 9 7 8\n6 4 2 9 7 8 5 3 1\n9 7 8 5 3 1 6 4 2\n"
    );
}

#[test]
fn unique_is_the_same_for_a_second_solver() {
    let board = Board::from_vec(classic());
    let first = DfsSolver::new().unique(&mut board.clone());
    let second = DfsSolver::default().unique(&mut board.clone());
    assert_eq!(first, Ok(true));
    assert_eq!(second, first);
    let blank = Board::new();
    let mut solver = DfsSolver::new();
    assert_eq!(solver.unique(&mut blank.clone()), Ok(false));
    assert_eq!(solver.unique(&mut blank.clone()), Ok(false));
}

#[test]
fn solved_board_leaves_the_clues_alone() {
    let clues = classic();
    let mut board = Board::from_vec(classic());
    let mut solver = DfsSolver::new();
    let slots = solver.solve(&mut board).unwrap();
    assert!(board.is_win());
    let blanks = clues.iter().filter(|digit| **digit == 0).count();
    assert_eq!(slots.len(), blanks);
    for pos in 0..81 {
        if clues[pos] != 0 {
            assert_eq!(board.unchecked_get(pos / 9, pos % 9), Some(clues[pos]));
        }
    }
    for slot in &slots {
        assert_eq!(clues[slot.0 * 9 + slot.1], 0);
    }
}

#[test]
fn slots_come_in_search_order_with_the_place_of_their_digit() {
    let start = Board::from_vec(classic());
    let mut board = start.clone();
    let mut solver = DfsSolver::new();
    let slots = solver.solve(&mut board).unwrap();
    let mut last = 0;
    for (i, slot) in slots.iter().enumerate() {
        let key = start.avaliable_count(slot.0, slot.1) * 81 + slot.0 * 9 + slot.1;
        if i > 0 {
            assert!(last < key);
        }
        last = key;
    }
    let mut replay = start.clone();
    for slot in &slots {
        let free = replay.avaliable_val(slot.0, slot.1);
        let digit = board.unchecked_get(slot.0, slot.1).unwrap();
        assert!(slot.2 >= 1);
        assert_eq!(free[slot.2 - 1], digit);
        replay.unchecked_set(slot.0, slot.1, digit);
    }
    assert_eq!(replay.to_string(), board.to_string());
}

#[test]
fn board_without_a_completion_is_not_solveable() {
    let mut board = Board::new();
    for (y, val) in [1u8, 2, 3, 4, 5, 6, 7, 8].iter().enumerate() {
        board.set(0, y, *val).unwrap();
    }
    board.set(1, 8, 9).unwrap();
    assert_eq!(board.avaliable_count(0, 8), 0);
    let mut solver = DfsSolver::new();
    assert_eq!(solver.solve(&mut board.clone()).err(), Some(SuDoKuError::NotSolveable));
    assert_eq!(solver.unique(&mut board.clone()), Err(SuDoKuError::NotSolveable));
}

#[test]
fn stuck_board_keeps_its_clues() {
    let mut board = Board::new();
    for (y, val) in [1u8, 2, 3, 4, 5, 6, 7, 8].iter().enumerate() {
        board.set(0, y, *val).unwrap();
    }
    board.set(1, 8, 9).unwrap();
    let before = board.to_string();
    let mut solver = DfsSolver::new();
    assert!(solver.solve(&mut board).is_err());
    assert_eq!(board.to_string(), before);
}

#[test]
fn full_board_counts_as_not_unique() {
    let mut board = Board::from_vec(classic());
    let mut solver = DfsSolver::new();
    solver.solve(&mut board).unwrap();
    let text = board.to_string();
    let slots = solver.solve(&mut board).unwrap();
    assert!(slots.is_empty());
    assert_eq!(solver.unique(&mut board), Ok(false));
    assert_eq!(board.to_string(), text);
}

#[test]
fn board_with_two_completions_holds_the_second_one() {
    let mut digits = vec![
        2, 9, 5, 7, 4, 3, 8, 6, 1, 4, 3, 1, 8, 6, 5, 9, 0, 0, 8, 7, 6, 1, 9, 2, 5, 4, 3, 3, 8, 7,
        4, 5, 9, 2, 1, 6, 6, 1, 2, 3, 8, 7, 4, 9, 5, 5, 4, 9, 2, 1, 6, 7, 3, 8, 7, 6, 3, 5, 2, 4,
        1, 8, 9, 9, 2, 8, 6, 7, 1, 3, 5, 4, 1, 5, 4, 9, 3, 8, 6, 0, 0,
    ];
    let mut board = Board::from_vec(digits.clone());
    let mut solver = DfsSolver::new();
    assert_eq!(solver.unique(&mut board.clone()), Ok(false));
    solver.solve(&mut board).unwrap();
    assert_eq!(board.get(1, 7), Ok(Some(2)));
    assert_eq!(board.get(1, 8), Ok(Some(7)));
    assert_eq!(board.get(8, 7), Ok(Some(7)));
    assert_eq!(board.get(8, 8), Ok(Some(2)));
    digits[16] = 7;
    let mut single = Board::from_vec(digits);
    assert_eq!(solver.unique(&mut single), Ok(true));
}

#[test]
fn second_completion_is_left_on_the_board() {
    let digits = vec![
        2, 9, 5, 7, 4, 3, 8, 6, 1, 4, 3, 1, 8, 6, 5, 9, 0, 0, 8, 7, 6, 1, 9, 2, 5, 4, 3, 3, 8, 7,
        4, 5, 9, 2, 1, 6, 6, 1, 2, 3, 8, 7, 4, 9, 5, 5, 4, 9, 2, 1, 6, 7, 3, 8, 7, 6, 3, 5, 2, 4,
        1, 8, 9, 9, 2, 8, 6, 7, 1, 3, 5, 4, 1, 5, 4, 9, 3, 8, 6, 0, 0,
    ];
    let mut board = Board::from_vec(digits);
    let mut solver = DfsSolver::new();
    assert_eq!(solver.unique(&mut board), Ok(false));
    assert!(board.is_win());
    assert_eq!(board.get(1, 7), Ok(Some(7)));
    assert_eq!(board.get(1, 8), Ok(Some(2)));
    assert_eq!(board.get(8, 7), Ok(Some(2)));
    assert_eq!(board.get(8, 8), Ok(Some(7)));
}

#[test]
fn queue_lists_blank_cells_by_count_and_position() {
    let mut board = Board::new();
    board.set(0, 0, 1).unwrap();
    board.set(0, 1, 2).unwrap();
    board.set(1, 0, 3).unwrap();
    let queue = search_queue(&board);
    assert_eq!(queue.len(), 78);
    assert_eq!(queue[0], (0, 2, 0));
    assert_eq!(queue[1], (1, 1, 0));
    assert_eq!(queue[2], (1, 2, 0));
    assert_eq!(queue[3], (2, 0, 0));
    assert_eq!(queue[4], (2, 1, 0));
    assert_eq!(queue[5], (2, 2, 0));
    assert_eq!(queue[6], (0, 3, 0));
    for pair in queue.windows(2) {
        let a = board.avaliable_count(pair[0].0, pair[0].1) * 81 + pair[0].0 * 9 + pair[0].1;
        let b = board.avaliable_count(pair[1].0, pair[1].1) * 81 + pair[1].0 * 9 + pair[1].1;
        assert!(a < b);
    }
    assert!(search_queue(&Board::from_vec(vec![5; 81])).is_empty());
}

#[test]
fn next_candidate_is_the_first_above() {
    let free = vec![2u8, 3, 5, 8];
    assert_eq!(next_candidate(&free, 0), Some(0));
    assert_eq!(next_candidate(&free, 1), Some(0));
    assert_eq!(next_candidate(&free, 2), Some(1));
    assert_eq!(next_candidate(&free, 4), Some(2));
    assert_eq!(next_candidate(&free, 5), Some(3));
    assert_eq!(next_candidate(&free, 7), Some(3));
    assert_eq!(next_candidate(&free, 8), None);
    assert_eq!(next_candidate(&free, 9), None);
    assert_eq!(next_candidate(&Vec::new(), 0), None);
}

#[test]
fn slots_of_the_classic_puzzle() {
    let mut board = Board::from_vec(classic());
    let mut solver = DfsSolver::new();
    let slots = solver.solve(&mut board).unwrap();
    assert_eq!(slots.len(), 38);
    assert_eq!(slots[0], (0, 0, 1));
    assert_eq!(slots[1], (1, 5, 1));
    assert_eq!(slots[2], (3, 0, 1));
    assert_eq!(slots[3], (3, 3, 1));
    assert_eq!(slots[4], (4, 1, 1));
    assert_eq!(slots[5], (4, 3, 1));
}

#[test]
fn hard_puzzle_has_one_solution() {
    let text = "400000805030000000000700000020000060000080400000010000000603070500200000104000000";
    let mut board: Board = text.parse().unwrap();
    let mut solver = DfsSolver::new();
    assert!(solver.solve(&mut board).is_ok());
    assert!(board.is_win());
    assert_eq!(
        board.to_string(),
        "4 1 7 3 6 9 8 2 5\n6 3 2 1 5 8 9 4 7\n9 5 8 7 2 4 3 1 6\n8 2 5 4 3 7 1 6 9\n7 9 1 5 8 6 4 3 2\n3 4 6 9 1 2 7 5 8\n2 8 9 6 4 3 5 7 1\n5 7 3 2 9 1 6 8 4\n1 6 4 8 7 5 2 9 3\n"
    );
    let mut again: Board = text.parse().unwrap();
    assert_eq!(solver.unique(&mut again), Ok(true));
}

#[test]
fn unique_leaves_a_board_with_one_solution_stuck() {
    let mut board = Board::from_vec(classic());
    let mut solver = DfsSolver::new();
    assert_eq!(solver.unique(&mut board), Ok(true));
    assert_eq!(
        board.to_string(),
        "3 _ _ 2 _ 8 7 _ 9\n_ 4 _ 1 _ _ _ _ _\n_ 6 _ _ _ 3 _ _ _\n_ 8 7 _ _ 4 3 _ 5\n6 _ _ _ 5 9 _ _ 1\n1 9 _ 3 _ 2 _ _ _\n9 _ 8 5 2 6 1 _ 3\n5 1 6 4 3 7 9 2 8\n4 2 _ 8 _ _ 6 5 7\n"
    );
    assert_eq!(board.avaliable_val(0, 0), vec![3]);
}
