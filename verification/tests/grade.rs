use sudoku_rs::board::Board;
use sudoku_rs::grade::{Grade, COMPLEXITY_CAP};

#[test]
fn grade_0() {
    let mut b = Board::from_vec(vec![
        9, 5, 3, 1, 2, 4, 7, 6, 8, 2, 4, 6, 3, 7, 8, 1, 5, 9, 7, 8, 1, 6, 5, 9, 2, 3, 4, 8, 6, 9,
        7, 1, 3, 5, 4, 2, 3, 2, 4, 8, 6, 5, 9, 1, 7, 1, 7, 0, 9, 4, 2, 6, 8, 3, 5, 9, 8, 2, 3, 6,
        4, 7, 1, 4, 1, 2, 5, 8, 7, 3, 9, 6, 6, 3, 7, 4, 9, 1, 8, 2, 5,
    ]);
    let g = Grade::new();
    let score = g.grade(&mut b);
    assert_eq!(score.dfs_complexity, 1);
}

#[test]
fn grade_9() {
    let mut b = Board::from_vec(vec![
        0, 0, 3, 1, 2, 4, 7, 6, 8, 2, 4, 6, 3, 7, 8, 1, 5, 9, 7, 8, 1, 6, 5, 9, 2, 3, 4, 8, 6, 9,
        7, 1, 3, 5, 4, 2, 3, 2, 4, 8, 6, 5, 9, 1, 7, 1, 7, 0, 9, 4, 2, 6, 8, 3, 5, 9, 8, 2, 3, 6,
        4, 7, 1, 4, 1, 2, 5, 8, 7, 3, 9, 6, 6, 3, 7, 4, 9, 1, 8, 2, 5,
    ]);
    let g = Grade::new();
    let score = g.grade(&mut b);
    assert_eq!(score.dfs_complexity, 2);
}

#[test]
fn grade_n() {
    let mut b = Board::from_vec(vec![
        0, 0, 0, 2, 0, 8, 7, 0, 9, 0, 4, 0, 1, 0, 0, 0, 0, 0, 0, 6, 0, 0, 0, 3, 0, 0, 0, 0, 8, 7,
        0, 0, 4, 3, 0, 5, 6, 0, 0, 0, 5, 9, 0, 0, 1, 1, 9, 0, 3, 0, 2, 0, 0, 0, 9, 0, 8, 5, 2, 6,
        1, 0, 3, 5, 1, 6, 4, 3, 7, 9, 2, 8, 4, 2, 0, 8, 0, 0, 6, 5, 7,
    ]);
    let g = Grade::new();
    let score = g.grade(&mut b);
    assert_ne!(score.dfs_complexity, 0);
}

#[test]
fn grade_counts_the_blank_cells() {
    let mut one = Board::from_vec(vec![
        9, 5, 3, 1, 2, 4, 7, 6, 8, 2, 4, 6, 3, 7, 8, 1, 5, 9, 7, 8, 1, 6, 5, 9, 2, 3, 4, 8, 6, 9,
        7, 1, 3, 5, 4, 2, 3, 2, 4, 8, 6, 5, 9, 1, 7, 1, 7, 0, 9, 4, 2, 6, 8, 3, 5, 9, 8, 2, 3, 6,
        4, 7, 1, 4, 1, 2, 5, 8, 7, 3, 9, 6, 6, 3, 7, 4, 9, 1, 8, 2, 5,
    ]);
    assert_eq!(Grade::new().grade(&mut one).empty_slot_count, 1);
    let mut three = Board::from_vec(vec![
        0, 0, 3, 1, 2, 4, 7, 6, 8, 2, 4, 6, 3, 7, 8, 1, 5, 9, 7, 8, 1, 6, 5, 9, 2, 3, 4, 8, 6, 9,
        7, 1, 3, 5, 4, 2, 3, 2, 4, 8, 6, 5, 9, 1, 7, 1, 7, 0, 9, 4, 2, 6, 8, 3, 5, 9, 8, 2, 3, 6,
        4, 7, 1, 4, 1, 2, 5, 8, 7, 3, 9, 6, 6, 3, 7, 4, 9, 1, 8, 2, 5,
    ]);
    assert_eq!(Grade::default().grade(&mut three).empty_slot_count, 3);
    let mut blank = Board::new();
    assert_eq!(Grade::new().grade(&mut blank).empty_slot_count, 81);
}

#[test]
fn grade_of_a_full_board_is_zero() {
    let mut b = Board::from_vec(vec![
        9, 5, 3, 1, 2, 4, 7, 6, 8, 2, 4, 6, 3, 7, 8, 1, 5, 9, 7, 8, 1, 6, 5, 9, 2, 3, 4, 8, 6, 9,
        7, 1, 3, 5, 4, 2, 3, 2, 4, 8, 6, 5, 9, 1, 7, 1, 7, 5, 9, 4, 2, 6, 8, 3, 5, 9, 8, 2, 3, 6,
        4, 7, 1, 4, 1, 2, 5, 8, 7, 3, 9, 6, 6, 3, 7, 4, 9, 1, 8, 2, 5,
    ]);
    let text = b.to_string();
    let score = Grade::new().grade(&mut b);
    assert_eq!(score.dfs_complexity, 0);
    assert_eq!(score.empty_slot_count, 0);
    assert_eq!(b.to_string(), text);
}

#[test]
fn grade_stops_one_past_the_cap() {
    let mut blank = Board::new();
    let score = Grade::new().grade(&mut blank);
    assert_eq!(score.dfs_complexity, COMPLEXITY_CAP + 1);
    assert_eq!(score.dfs_complexity, 100_001);
}

#[test]
fn grade_of_a_board_with_a_dead_first_cell_is_one() {
    let mut board = Board::new();
    for (y, val) in [1u8, 2, 3, 4, 5, 6, 7, 8].iter().enumerate() {
        board.set(0, y, *val).unwrap();
    }
    board.set(1, 8, 9).unwrap();
    let text = board.to_string();
    let score = Grade::new().grade(&mut board);
    assert_eq!(score.dfs_complexity, 1);
    assert_eq!(score.empty_slot_count, 72);
    assert_eq!(board.to_string(), text);
}

#[test]
fn grade_is_the_same_each_time() {
    let board = Board::from_vec(vec![
        0, 0, 0, 2, 0, 8, 7, 0, 9, 0, 4, 0, 1, 0, 0, 0, 0, 0, 0, 6, 0, 0, 0, 3, 0, 0, 0, 0, 8, 7,
        0, 0, 4, 3, 0, 5, 6, 0, 0, 0, 5, 9, 0, 0, 1, 1, 9, 0, 3, 0, 2, 0, 0, 0, 9, 0, 8, 5, 2, 6,
        1, 0, 3, 5, 1, 6, 4, 3, 7, 9, 2, 8, 4, 2, 0, 8, 0, 0, 6, 5, 7,
    ]);
    let first = Grade::new().grade(&mut board.clone());
    let second = Grade::new().grade(&mut board.clone());
    assert_eq!(first.dfs_complexity, second.dfs_complexity);
    assert_eq!(first.empty_slot_count, second.empty_slot_count);
    assert!(first.dfs_complexity <= COMPLEXITY_CAP + 1);
}

#[test]
fn grade_of_the_classic_puzzle() {
    let mut b = Board::from_vec(vec![
        0, 0, 0, 2, 0, 8, 7, 0, 9, 0, 4, 0, 1, 0, 0, 0, 0, 0, 0, 6, 0, 0, 0, 3, 0, 0, 0, 0, 8, 7,
        0, 0, 4, 3, 0, 5, 6, 0, 0, 0, 5, 9, 0, 0, 1, 1, 9, 0, 3, 0, 2, 0, 0, 0, 9, 0, 8, 5, 2, 6,
        1, 0, 3, 5, 1, 6, 4, 3, 7, 9, 2, 8, 4, 2, 0, 8, 0, 0, 6, 5, 7,
    ]);
    let score = Grade::new().grade(&mut b);
    assert_eq!(score.dfs_complexity, 133);
    assert_eq!(score.empty_slot_count, 38);
}

#[test]
fn grade_of_a_board_with_two_completions() {
    let mut b = Board::from_vec(vec![
        2, 9, 5, 7, 4, 3, 8, 6, 1, 4, 3, 1, 8, 6, 5, 9, 0, 0, 8, 7, 6, 1, 9, 2, 5, 4, 3, 3, 8, 7,
        4, 5, 9, 2, 1, 6, 6, 1, 2, 3, 8, 7, 4, 9, 5, 5, 4, 9, 2, 1, 6, 7, 3, 8, 7, 6, 3, 5, 2, 4,
        1, 8, 9, 9, 2, 8, 6, 7, 1, 3, 5, 4, 1, 5, 4, 9, 3, 8, 6, 0, 0,
    ]);
    let score = Grade::new().grade(&mut b);
    assert_eq!(score.dfs_complexity, 6);
    assert_eq!(score.empty_slot_count, 4);
}

#[test]
fn grade_of_a_hard_puzzle_reaches_the_cap() {
    let mut b: Board =
        "400000805030000000000700000020000060000080400000010000000603070500200000104000000"
            .parse()
            .unwrap();
    let score = Grade::new().grade(&mut b);
    assert_eq!(score.dfs_complexity, 100_001);
    assert_eq!(score.empty_slot_count, 64);
}
