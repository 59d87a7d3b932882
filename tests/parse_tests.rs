use sudoku::grid::{SudokuGrid, SudokuParseError};
use sudoku::solver::{solve, SolveState};

const HARD: &str = "\
,,,,,,,,
,,,,,3,,8,5
,,1,,2,,,,
,,,5,,7,,,
,,4,,,,1,,
,9,,,,,,,
5,,,,,,,7,3
,,2,,1,,,,
,,,,4,,,,9
";

#[test]
fn reads_comma_separated_rows() {
    let g = SudokuGrid::from_str(HARD).unwrap();
    assert_eq!(*g.row_width(), 9);
    assert_eq!(g.iter_row(1), vec![0, 0, 0, 0, 0, 3, 0, 8, 5]);
    assert_eq!(g.iter_row(8), vec![0, 0, 0, 0, 4, 0, 0, 0, 9]);
}

#[test]
fn parse_through_standard_trait() {
    let g: SudokuGrid = "1,2,3,4\n3,4,1,2\n2,1,4,3\n4,3,2,1".parse().unwrap();
    assert_eq!(g.iter_col(0), vec![1, 3, 2, 4]);
}

#[test]
fn carriage_returns_and_final_newline() {
    let g = SudokuGrid::from_str("1,,3,\r\n,4,,\r\n,,,\r\n4,,,1\n").unwrap();
    assert_eq!(g.tiles(), &[1, 0, 3, 0, 0, 4, 0, 0, 0, 0, 0, 0, 4, 0, 0, 1][..]);
}

#[test]
fn plus_sign_is_accepted() {
    let g = SudokuGrid::from_str("+1").unwrap();
    assert_eq!(g.get(0), 1);
}

#[test]
fn bad_fields_are_invalid_digits() {
    for text in ["a", "-1", "+", "1 ", "4294967296", "1,2\n3,x\n"] {
        assert_eq!(SudokuGrid::from_str(text).err(), Some(SudokuParseError::InvalidDigit));
    }
}

#[test]
fn large_but_fitting_value_is_out_of_range() {
    assert_eq!(
        SudokuGrid::from_str("4294967295").err(),
        Some(SudokuParseError::DigitOutOfRange)
    );
}

#[test]
fn text_shape_errors() {
    assert_eq!(SudokuGrid::from_str("1,2,3").err(), Some(SudokuParseError::NonSquare));
    assert_eq!(
        SudokuGrid::from_str("1,2,3,5\n,,,\n,,,\n,,,").err(),
        Some(SudokuParseError::DigitOutOfRange)
    );
    let eighty = vec![",,,,,,,,"; 8].join("\n") + "\n,,,,,,,";
    assert_eq!(SudokuGrid::from_str(&eighty).err(), Some(SudokuParseError::NonSquare));
}

#[test]
fn empty_text_is_board_of_width_zero() {
    let g = SudokuGrid::from_str("").unwrap();
    assert_eq!(*g.row_width(), 0);
    let g = SudokuGrid::from_str("\n").unwrap();
    assert_eq!(*g.row_width(), 1);
    assert_eq!(g.get(0), 0);
}

#[test]
fn parsed_small_puzzle_solves() {
    let mut g = SudokuGrid::from_str(",2,,\n,,1,\n,1,,\n,,4,").unwrap();
    assert_eq!(solve(&mut g), SolveState::Solved);
    assert!(g.tiles().iter().all(|&v| v != 0));
}
