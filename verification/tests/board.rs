use std::str::FromStr;
use sudoku_rs::board::Board;
use sudoku_rs::error::SuDoKuError;

fn solved_digits() -> Vec<u8> {
    vec![
        9, 5, 3, 1, 2, 4, 7, 6, 8, 2, 4, 6, 3, 7, 8, 1, 5, 9, 7, 8, 1, 6, 5, 9, 2, 3, 4, 8, 6, 9,
        7, 1, 3, 5, 4, 2, 3, 2, 4, 8, 6, 5, 9, 1, 7, 1, 7, 5, 9, 4, 2, 6, 8, 3, 5, 9, 8, 2, 3, 6,
        4, 7, 1, 4, 1, 2, 5, 8, 7, 3, 9, 6, 6, 3, 7, 4, 9, 1, 8, 2, 5,
    ]
}

#[test]
fn set_edge_0() {
    let mut board = Board::new();
    board.set(0, 0, 1).unwrap();
}

#[test]
fn set_edge_81() {
    let mut board = Board::new();
    board.set(8, 8, 9).unwrap();
}

#[test]
fn win_check() {
    let mut board = Board::from_vec(vec![
        9, 5, 3, 1, 2, 4, 7, 6, 8, 2, 4, 6, 3, 7, 8, 1, 5, 9, 7, 8, 1, 6, 5, 9, 2, 3, 4, 8, 6, 9,
        7, 1, 3, 5, 4, 2, 3, 2, 4, 8, 6, 5, 9, 1, 7, 1, 7, 5, 9, 4, 2, 6, 8, 3, 5, 9, 8, 2, 3, 6,
        4, 7, 1, 4, 1, 2, 5, 8, 7, 3, 9, 6, 6, 3, 7, 4, 9, 1, 8, 2, 5,
    ]);
    assert!(board.is_win());
    board.unchecked_set(0, 0, 1);
    assert!(!board.is_win());
}

#[test]
fn empty() {
    let mut board = Board::new();
    board.set(1, 2, 3).unwrap();
    assert!(!board.is_empty(1, 2));
    assert!(board.is_empty(2, 3));
}

#[test]
fn avaliable_count() {
    let mut board = Board::new();
    board.set(1, 2, 3).unwrap();
    board.set(2, 3, 4).unwrap();
    board.set(1, 3, 7).unwrap();
    assert_eq!(board.avaliable_count(1, 3), 7);
}

#[test]
fn avaliable_val() {
    let mut board = Board::new();
    board.set(1, 2, 3).unwrap();
    board.set(2, 3, 4).unwrap();
    board.set(1, 3, 7).unwrap();
    assert_eq!(board.avaliable_val(1, 3), vec![1, 2, 5, 6, 7, 8, 9]);
}

#[test]
fn display() {
    let mut board = Board::new();
    board.set(1, 2, 3).unwrap();
    assert_eq!("_ _ _ _ _ _ _ _ _\n_ _ 3 _ _ _ _ _ _\n_ _ _ _ _ _ _ _ _\n_ _ _ _ _ _ _ _ _\n_ _ _ _ _ _ _ _ _\n_ _ _ _ _ _ _ _ _\n_ _ _ _ _ _ _ _ _\n_ _ _ _ _ _ _ _ _\n_ _ _ _ _ _ _ _ _\n".to_string(), board.to_string());
}

#[test]
fn from_str() {
    let sudoku =
        "400000805030000000000700000020000060000080400000010000000603070500200000104000000";
    let board: Board = sudoku.parse().unwrap();
    assert_eq!(board.get(6, 3).unwrap().unwrap_or(0), 6);
}

#[test]
fn new_board_is_blank() {
    let board = Board::new();
    for x in 0..9 {
        for y in 0..9 {
            assert!(board.is_empty(x, y));
            assert_eq!(board.get(x, y), Ok(None));
            assert_eq!(board.unchecked_get(x, y), None);
            assert_eq!(board.avaliable_count(x, y), 9);
            assert_eq!(board.avaliable_val(x, y), vec![1, 2, 3, 4, 5, 6, 7, 8, 9]);
        }
    }
    assert!(!board.is_win());
    assert!(Board::default().is_empty(4, 4));
}

#[test]
fn set_refuses_bad_coordinates_and_digits() {
    let mut board = Board::new();
    assert_eq!(board.set(9, 0, 1), Err(SuDoKuError::OutOfBound));
    assert_eq!(board.set(0, 9, 1), Err(SuDoKuError::OutOfBound));
    assert_eq!(board.set(9, 9, 1), Err(SuDoKuError::OutOfBound));
    assert_eq!(board.set(9, 9, 0), Err(SuDoKuError::OutOfBound));
    assert_eq!(board.set(0, 0, 0), Err(SuDoKuError::InvalidValue));
    assert_eq!(board.set(0, 0, 10), Err(SuDoKuError::InvalidValue));
    assert_eq!(board.set(8, 8, 255), Err(SuDoKuError::InvalidValue));
    for x in 0..9 {
        for y in 0..9 {
            assert!(board.is_empty(x, y));
            assert_eq!(board.avaliable_count(x, y), 9);
        }
    }
}

#[test]
fn get_refuses_bad_coordinates() {
    let mut board = Board::new();
    board.set(3, 4, 5).unwrap();
    assert_eq!(board.get(3, 4), Ok(Some(5)));
    assert_eq!(board.get(4, 3), Ok(None));
    assert_eq!(board.get(9, 4), Err(SuDoKuError::OutOfBound));
    assert_eq!(board.get(3, 9), Err(SuDoKuError::OutOfBound));
    assert!(!board.is_empty(9, 4));
    assert!(!board.is_empty(3, 9));
    assert!(!board.is_empty(10, 10));
}

#[test]
fn set_rules_the_digit_out_for_peers_only() {
    let mut board = Board::new();
    board.set(4, 4, 5).unwrap();
    for x in 0..9 {
        for y in 0..9 {
            let peer = x == 4 || y == 4 || (x / 3 == 1 && y / 3 == 1);
            let free = board.avaliable_val(x, y);
            if (x, y) == (4, 4) {
                assert!(free.contains(&5));
                assert_eq!(free.len(), 9);
            } else if peer {
                assert!(!free.contains(&5));
                assert_eq!(free.len(), 8);
            } else {
                assert!(free.contains(&5));
                assert_eq!(free.len(), 9);
            }
            assert_eq!(board.avaliable_count(x, y), free.len());
        }
    }
}

#[test]
fn overwrite_moves_the_record() {
    let mut board = Board::new();
    board.set(0, 0, 4).unwrap();
    board.set(0, 0, 6).unwrap();
    assert_eq!(board.get(0, 0), Ok(Some(6)));
    assert_eq!(board.avaliable_val(0, 5), vec![1, 2, 3, 4, 5, 7, 8, 9]);
    assert_eq!(board.avaliable_val(5, 0), vec![1, 2, 3, 4, 5, 7, 8, 9]);
    assert_eq!(board.avaliable_val(1, 1), vec![1, 2, 3, 4, 5, 7, 8, 9]);
    assert_eq!(board.avaliable_val(0, 0), vec![1, 2, 3, 4, 5, 6, 7, 8, 9]);
}

#[test]
fn unset_gives_the_digit_back() {
    let mut board = Board::new();
    board.set(2, 7, 9).unwrap();
    assert_eq!(board.avaliable_count(2, 0), 8);
    board.unset(2, 7);
    assert!(board.is_empty(2, 7));
    assert_eq!(board.avaliable_count(2, 0), 9);
    assert_eq!(board.avaliable_count(0, 7), 9);
    assert_eq!(board.avaliable_count(0, 8), 9);
    board.unset(2, 7);
    assert!(board.is_empty(2, 7));
    assert_eq!(board.to_string(), Board::new().to_string());
}

#[test]
fn count_is_the_length_of_the_list_after_every_step() {
    let mut board = Board::new();
    let moves: [(usize, usize, u8); 8] = [
        (0, 0, 1),
        (0, 1, 2),
        (1, 0, 3),
        (4, 4, 1),
        (0, 4, 9),
        (8, 0, 2),
        (0, 0, 5),
        (1, 1, 4),
    ];
    for (x, y, val) in moves {
        board.set(x, y, val).unwrap();
        for r in 0..9 {
            for c in 0..9 {
                assert_eq!(board.avaliable_count(r, c), board.avaliable_val(r, c).len());
            }
        }
    }
    board.unset(0, 1);
    board.unset(4, 4);
    for r in 0..9 {
        for c in 0..9 {
            assert_eq!(board.avaliable_count(r, c), board.avaliable_val(r, c).len());
        }
    }
}

#[test]
fn available_digits_follow_legal_moves() {
    let digits = solved_digits();
    let mut board = Board::new();
    for pos in 0..81 {
        let (x, y) = (pos / 9, pos % 9);
        assert!(board.avaliable_val(x, y).contains(&digits[pos]));
        board.set(x, y, digits[pos]).unwrap();
        for r in 0..9 {
            for c in 0..9 {
                let free = board.avaliable_val(r, c);
                if let Some(own) = board.unchecked_get(r, c) {
                    assert!(free.contains(&own));
                }
                for r2 in 0..9 {
                    for c2 in 0..9 {
                        let peer = (r2, c2) != (r, c)
                            && (r2 == r || c2 == c || (r2 / 3 == r / 3 && c2 / 3 == c / 3));
                        if peer {
                            if let Some(other) = board.unchecked_get(r2, c2) {
                                assert!(!free.contains(&other));
                            }
                        }
                    }
                }
            }
        }
    }
    assert!(board.is_win());
}

#[test]
fn from_vec_pads_a_short_list() {
    let board = Board::from_vec(vec![1, 2, 3]);
    assert_eq!(board.get(0, 0), Ok(Some(1)));
    assert_eq!(board.get(0, 1), Ok(Some(2)));
    assert_eq!(board.get(0, 2), Ok(Some(3)));
    assert_eq!(board.get(0, 3), Ok(None));
    assert_eq!(board.get(8, 8), Ok(None));
    let blank = Board::from_vec(Vec::new());
    assert_eq!(blank.to_string(), Board::new().to_string());
}

#[test]
fn from_vec_reads_no_more_than_the_board_holds() {
    let mut digits = solved_digits();
    digits.push(200);
    digits.push(7);
    let board = Board::from_vec(digits);
    assert!(board.is_win());
    assert_eq!(board.get(8, 8), Ok(Some(5)));
}

#[test]
fn full_board_with_a_repeated_digit_is_not_won() {
    let mut board = Board::from_vec(solved_digits());
    assert!(board.is_win());
    board.unchecked_set(4, 4, 8);
    for x in 0..9 {
        for y in 0..9 {
            assert!(!board.is_empty(x, y));
        }
    }
    assert!(!board.is_win());
}

#[test]
fn clone_is_a_board_of_its_own() {
    let mut board = Board::new();
    board.set(0, 0, 1).unwrap();
    let copy = board.clone();
    board.set(0, 1, 2).unwrap();
    assert_eq!(copy.get(0, 0), Ok(Some(1)));
    assert_eq!(copy.get(0, 1), Ok(None));
    assert_eq!(copy.avaliable_count(0, 8), 8);
    assert_eq!(board.avaliable_count(0, 8), 7);
}

#[test]
fn text_of_a_full_board() {
    let board = Board::from_vec(solved_digits());
    assert_eq!(
        board.to_string(),
        "9 5 3 1 2 4 7 6 8\n2 4 6 3 7 8 1 5 9\n7 8 1 6 5 9 2 3 4\n8 6 9 7 1 3 5 4 2\n3 2 4 8 6 5 9 1 7\n1 7 5 9 4 2 6 8 3\n5 9 8 2 3 6 4 7 1\n4 1 2 5 8 7 3 9 6\n6 3 7 4 9 1 8 2 5\n"
    );
}

#[test]
fn clues_take_every_other_character_as_blank() {
    let board = Board::from_str("1.0x9 _\n5").unwrap();
    assert_eq!(board.get(0, 0), Ok(Some(1)));
    assert_eq!(board.get(0, 1), Ok(None));
    assert_eq!(board.get(0, 2), Ok(None));
    assert_eq!(board.get(0, 3), Ok(None));
    assert_eq!(board.get(0, 4), Ok(Some(9)));
    assert_eq!(board.get(0, 5), Ok(None));
    assert_eq!(board.get(0, 6), Ok(None));
    assert_eq!(board.get(0, 7), Ok(None));
    assert_eq!(board.get(0, 8), Ok(Some(5)));
    assert_eq!(board.get(1, 0), Ok(None));
}

#[test]
fn clues_count_characters_not_bytes() {
    let board = Board::from_str("é3").unwrap();
    assert_eq!(board.get(0, 0), Ok(None));
    assert_eq!(board.get(0, 1), Ok(Some(3)));
}

#[test]
fn clues_end_after_eighty_one_characters() {
    let mut text = String::new();
    for _ in 0..81 {
        text.push('.');
    }
    text.push('7');
    let board = Board::from_str(&text).unwrap();
    assert_eq!(board.to_string(), Board::new().to_string());
    let empty = Board::from_str("").unwrap();
    assert_eq!(empty.to_string(), Board::new().to_string());
}

#[test]
fn text_read_back_without_its_separators_gives_the_board() {
    let board = Board::from_vec(solved_digits());
    let text = board.to_string();
    let packed: String = text.chars().filter(|ch| *ch != ' ' && *ch != '\n').collect();
    let again = Board::from_str(&packed).unwrap();
    assert!(again.is_win());
    assert_eq!(again.to_string(), text);
    for x in 0..9 {
        for y in 0..9 {
            assert_eq!(again.get(x, y), board.get(x, y));
            assert_eq!(again.avaliable_val(x, y), board.avaliable_val(x, y));
        }
    }
}

#[test]
fn text_read_back_as_it_is_takes_separators_for_blank_cells() {
    let board = Board::from_vec(solved_digits());
    let again = Board::from_str(&board.to_string()).unwrap();
    assert_eq!(again.get(0, 0), Ok(Some(9)));
    assert_eq!(again.get(0, 1), Ok(None));
    assert_eq!(again.get(0, 2), Ok(Some(5)));
    assert!(!again.is_win());
}

#[test]
fn a_digit_written_against_the_rules_stays_available_to_its_cell() {
    let mut board = Board::new();
    board.set(0, 3, 1).unwrap();
    board.set(0, 0, 1).unwrap();
    assert!(board.avaliable_val(0, 0).contains(&1));
    assert!(board.avaliable_val(0, 3).contains(&1));
    assert!(!board.avaliable_val(0, 7).contains(&1));
    board.set(0, 0, 9).unwrap();
    assert_eq!(board.get(0, 3), Ok(Some(1)));
    assert!(board.avaliable_val(0, 7).contains(&1));
    assert!(!board.avaliable_val(0, 5).contains(&1));
    assert_eq!(board.avaliable_count(0, 7), board.avaliable_val(0, 7).len());
}
