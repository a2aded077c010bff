use sudoku::board::error::{BoardError, BoardParseError};
use sudoku::board::Board;
use sudoku::solver::solve;

fn cells_of(b: &Board) -> Vec<u8> {
    let mut v = Vec::new();
    for y in 0..9 {
        for x in 0..9 {
            v.push(b.get(y, x).unwrap());
        }
    }
    v
}

fn board_from(text: &str) -> Board {
    Board::from_str(text).unwrap()
}

const EASY_PUZZLE: &str = "\
530070000\
600195000\
098000060\
800060003\
400803001\
700020006\
060000280\
000419005\
000080079";

const EASY_SOLUTION: &str = "\
534678912\
672195348\
198342567\
859761423\
426853791\
713924856\
961537284\
287419635\
345286179";

#[test]
fn construct_valid_board() {
    let b = Board::new(vec![0u8; 81]).unwrap();
    assert_eq!(b.get(0, 0), Some(0));
    assert_eq!(b.get(8, 8), Some(0));
}

#[test]
fn construct_keeps_row_major_order() {
    let v: Vec<u8> = (0..81u8).map(|i| i % 10 % 9).collect();
    let b = Board::new(v.clone()).unwrap();
    for y in 0..9 {
        for x in 0..9 {
            assert_eq!(b.get(y, x), Some(v[y * 9 + x]));
        }
    }
}

#[test]
fn construct_rejects_short_input() {
    match Board::new(vec![0u8; 80]) {
        Err(BoardError::InvalidLength(n)) => assert_eq!(n, 80),
        _ => panic!("expected InvalidLength"),
    }
}

#[test]
fn construct_rejects_long_input() {
    match Board::new(vec![0u8; 82]) {
        Err(BoardError::InvalidLength(n)) => assert_eq!(n, 82),
        _ => panic!("expected InvalidLength"),
    }
}

#[test]
fn construct_rejects_big_digit() {
    let mut v = vec![0u8; 81];
    v[40] = 10;
    match Board::new(v) {
        Err(BoardError::InvalidDigit(d)) => assert_eq!(d, 10),
        _ => panic!("expected InvalidDigit"),
    }
}

#[test]
fn construct_reports_first_bad_digit() {
    let mut v = vec![0u8; 81];
    v[10] = 12;
    v[20] = 15;
    match Board::new(v) {
        Err(BoardError::InvalidDigit(d)) => assert_eq!(d, 12),
        _ => panic!("expected InvalidDigit"),
    }
}

#[test]
fn get_out_of_range_is_none() {
    let b = Board::new(vec![0u8; 81]).unwrap();
    assert_eq!(b.get(9, 0), None);
    assert_eq!(b.get(0, 9), None);
}

#[test]
fn set_changes_one_cell() {
    let mut b = Board::new(vec![0u8; 81]).unwrap();
    b.set(3, 4, 7);
    for y in 0..9 {
        for x in 0..9 {
            let want = if (y, x) == (3, 4) { 7 } else { 0 };
            assert_eq!(b.get(y, x), Some(want));
        }
    }
}

#[test]
fn candidates_exclude_row_col_and_box() {
    let mut b = Board::new(vec![0u8; 81]).unwrap();
    b.set(0, 0, 1); // same row as (0, 2)
    b.set(0, 5, 2); // same row
    b.set(4, 2, 3); // same column
    b.set(1, 1, 4); // same box
    let c = b.possible_inputs(0, 2);
    assert_eq!(c, vec![5, 6, 7, 8, 9]);
}

#[test]
fn candidates_are_ascending_digits() {
    let b = board_from(EASY_PUZZLE);
    for y in 0..9 {
        for x in 0..9 {
            let c = b.possible_inputs(y, x);
            for w in c.windows(2) {
                assert!(w[0] < w[1]);
            }
            for d in &c {
                assert!((1..=9).contains(d));
                // The digit is nowhere in the row, the column, or the box.
                for k in 0..9 {
                    assert_ne!(b.get(y, k).unwrap(), *d);
                    assert_ne!(b.get(k, x).unwrap(), *d);
                    assert_ne!(b.get(y / 3 * 3 + k / 3, x / 3 * 3 + k % 3).unwrap(), *d);
                }
            }
        }
    }
}

#[test]
fn candidates_of_empty_board_are_all_digits() {
    let b = Board::new(vec![0u8; 81]).unwrap();
    assert_eq!(b.possible_inputs(4, 4), vec![1, 2, 3, 4, 5, 6, 7, 8, 9]);
}

#[test]
fn parse_empty_input() {
    match Board::from_str("") {
        Err(BoardParseError::EmptyInput) => {}
        _ => panic!("expected EmptyInput"),
    }
    match Board::from_str(" \t\n  ") {
        Err(BoardParseError::EmptyInput) => {}
        _ => panic!("expected EmptyInput"),
    }
}

#[test]
fn parse_not_enough_cells() {
    let text: String = "0".repeat(80);
    match Board::from_str(&text) {
        Err(BoardParseError::NotEnoughCells) => {}
        _ => panic!("expected NotEnoughCells"),
    }
    // A single stray letter is content, not emptiness.
    match Board::from_str("a") {
        Err(BoardParseError::NotEnoughCells) => {}
        _ => panic!("expected NotEnoughCells"),
    }
}

#[test]
fn parse_too_many_cells() {
    let text: String = "1".repeat(82);
    match Board::from_str(&text) {
        Err(BoardParseError::TooManyCells) => {}
        _ => panic!("expected TooManyCells"),
    }
}

#[test]
fn parse_ignores_noise_and_blanks() {
    let text = "5 3 _ | _ 7 _ | _ _ _ x".to_string() + &"_".repeat(72);
    let b = board_from(&text);
    assert_eq!(b.get(0, 0), Some(5));
    assert_eq!(b.get(0, 1), Some(3));
    assert_eq!(b.get(0, 4), Some(7));
    assert_eq!(b.get(0, 2), Some(0));
    assert_eq!(b.get(8, 8), Some(0));
}

#[test]
fn parse_pipe_separated_rows() {
    let text = "_____321_|___654___|_387_____|_6___935_|_7_468_9_|_295___8_|_____596_|___941___|_572_____";
    let b = board_from(text);
    assert_eq!(b.get(0, 5), Some(3));
    assert_eq!(b.get(0, 6), Some(2));
    assert_eq!(b.get(1, 3), Some(6));
    assert_eq!(b.get(8, 1), Some(5));
    assert_eq!(b.get(8, 8), Some(0));
}

#[test]
fn parse_underscore_and_zero_agree() {
    let with_zeros = "0".repeat(81);
    let with_blanks = "_".repeat(81);
    let b0 = board_from(&with_zeros);
    let b1 = board_from(&with_blanks);
    assert_eq!(cells_of(&b0), cells_of(&b1));
}

#[test]
fn line_round_trip() {
    let b = board_from(EASY_PUZZLE);
    let line = b.to_line();
    assert_eq!(line.len(), 81);
    let again = board_from(&line);
    assert_eq!(cells_of(&b), cells_of(&again));
}

#[test]
fn line_round_trip_solved() {
    let b = board_from(EASY_SOLUTION);
    let again = board_from(&b.to_line());
    assert_eq!(cells_of(&b), cells_of(&again));
}

#[test]
fn display_layout() {
    let mut v = vec![0u8; 81];
    for x in 0..9 {
        v[x] = (x + 1) as u8;
    }
    let b = Board::new(v).unwrap();
    let row_filled = "1 2 3 | 4 5 6 | 7 8 9 \n";
    let row_empty = "      |       |       \n";
    let rule = "- - - + - - - + - - - \n";
    let expected = format!(
        "{}{}{}{}{}{}{}{}{}{}{}{}\n",
        row_filled, row_empty, row_empty, rule, row_empty, row_empty, row_empty, rule, row_empty,
        row_empty, row_empty, ""
    );
    assert_eq!(b.to_display_string(), expected);
}

#[test]
fn solve_full_board_is_identity() {
    let b = board_from(EASY_SOLUTION);
    let solved = solve(b).expect("a full board is its own solution");
    assert_eq!(cells_of(&b), cells_of(&solved));
}

#[test]
fn solve_easy_puzzle_exactly() {
    let b = board_from(EASY_PUZZLE);
    let solved = solve(b).expect("the easy puzzle has a solution");
    let want = board_from(EASY_SOLUTION);
    assert_eq!(cells_of(&solved), cells_of(&want));
}

#[test]
fn solve_is_deterministic() {
    let b = board_from(EASY_PUZZLE);
    let first = solve(b).unwrap();
    let second = solve(b).unwrap();
    assert_eq!(cells_of(&first), cells_of(&second));
    let blank = Board::new(vec![0u8; 81]).unwrap();
    let s1 = solve(blank).unwrap();
    let s2 = solve(blank).unwrap();
    assert_eq!(cells_of(&s1), cells_of(&s2));
}

#[test]
fn solve_keeps_given_cells() {
    let b = board_from(EASY_PUZZLE);
    let solved = solve(b).unwrap();
    for y in 0..9 {
        for x in 0..9 {
            let given = b.get(y, x).unwrap();
            if given != 0 {
                assert_eq!(solved.get(y, x).unwrap(), given);
            }
        }
    }
}

#[test]
fn solve_blank_board_gives_valid_grid() {
    let b = Board::new(vec![0u8; 81]).unwrap();
    let solved = solve(b).expect("an empty board has solutions");
    let cells = cells_of(&solved);
    for y in 0..9 {
        for x in 0..9 {
            let d = cells[y * 9 + x];
            assert!((1..=9).contains(&d));
            // The digit is unique in its row, its column, and its box.
            for k in 0..9 {
                if k != x {
                    assert_ne!(cells[y * 9 + k], d);
                }
                if k != y {
                    assert_ne!(cells[k * 9 + x], d);
                }
                let (by, bx) = (y / 3 * 3 + k / 3, x / 3 * 3 + k % 3);
                if (by, bx) != (y, x) {
                    assert_ne!(cells[by * 9 + bx], d);
                }
            }
        }
    }
}

#[test]
fn solve_conflicting_board_has_no_solution() {
    // The solution grid with (0, 0) blanked and a second 5 put at (0, 1):
    // the only digit missing from row 0 is 3, which column 0 already
    // holds, so the empty cell has no candidate at all.
    let mut b = board_from(EASY_SOLUTION);
    b.set(0, 0, 0);
    b.set(0, 1, 5);
    assert!(solve(b).is_none());
}

#[test]
fn solve_duplicate_in_column_has_no_solution() {
    // The solution grid with the last cell blanked and a duplicate 9
    // planted beside it: the 9 already sits in column 7, and the digit
    // the last cell needs is taken, so the search exhausts its stack.
    let mut b = board_from(EASY_SOLUTION);
    b.set(8, 8, 0);
    b.set(8, 7, 9);
    assert!(solve(b).is_none());
}
