use sudoku::bitmanip::BitManip;
use sudoku::grid::{SudokuGrid, SudokuParseError};

fn four_by_four() -> SudokuGrid {
    let tiles: Vec<u32> = vec![1, 2, 3, 4, 3, 4, 1, 2, 2, 1, 4, 3, 4, 3, 2, 0];
    match SudokuGrid::try_from(tiles) {
        Ok(g) => g,
        Err(e) => panic!("{:?}", e),
    }
}

#[test]
fn length_eighty_is_not_square() {
    let tiles: Vec<u32> = vec![0; 80];
    assert_eq!(SudokuGrid::try_from(tiles).err(), Some(SudokuParseError::NonSquare));
}

#[test]
fn ten_on_nine_wide_board_is_out_of_range() {
    let mut tiles: Vec<u32> = vec![0; 81];
    tiles[40] = 10;
    assert_eq!(SudokuGrid::try_from(tiles).err(), Some(SudokuParseError::DigitOutOfRange));
}

#[test]
fn nine_on_nine_wide_board_is_accepted() {
    let mut tiles: Vec<u32> = vec![0; 81];
    tiles[80] = 9;
    let g = SudokuGrid::try_from(tiles).unwrap();
    assert_eq!(*g.cell_width(), 3);
    assert_eq!(*g.row_width(), 9);
    assert_eq!(g.tiles().len(), 81);
    assert_eq!(g.get(80), 9);
}

#[test]
fn empty_sequence_is_a_board_of_width_zero() {
    let g = SudokuGrid::try_from(Vec::new()).unwrap();
    assert_eq!(*g.cell_width(), 0);
    assert_eq!(*g.row_width(), 0);
}

#[test]
fn single_square_board() {
    let g = SudokuGrid::try_from(vec![1]).unwrap();
    assert_eq!(*g.cell_width(), 1);
    assert_eq!(*g.row_width(), 1);
    assert_eq!(SudokuGrid::try_from(vec![2]).err(), Some(SudokuParseError::DigitOutOfRange));
}

#[test]
fn other_lengths_are_not_square() {
    for n in [2usize, 9, 15, 17, 81 * 81 - 1, 82] {
        assert_eq!(SudokuGrid::try_from(vec![0; n]).err(), Some(SudokuParseError::NonSquare));
    }
    assert!(SudokuGrid::try_from(vec![0; 256]).is_ok());
    assert!(SudokuGrid::try_from(vec![0; 625]).is_ok());
}

#[test]
fn row_view_of_small_board() {
    let g = four_by_four();
    assert_eq!(g.iter_row(0), vec![1, 2, 3, 4]);
    assert_eq!(g.iter_row(3), vec![4, 3, 2, 0]);
}

#[test]
fn column_view_of_small_board() {
    let g = four_by_four();
    assert_eq!(g.iter_col(0), vec![1, 3, 2, 4]);
    assert_eq!(g.iter_col(3), vec![4, 2, 3, 0]);
}

#[test]
fn box_view_of_small_board() {
    let g = four_by_four();
    let mut it = g.iter_cell(3, 2);
    assert_eq!(it.size_hint(), (4, Some(4)));
    assert_eq!(it.next(), Some(4));
    assert_eq!(it.next(), Some(3));
    assert_eq!(it.size_hint(), (2, Some(2)));
    assert_eq!(it.next(), Some(2));
    assert_eq!(it.next(), Some(0));
    assert_eq!(it.next(), None);
    assert_eq!(it.size_hint(), (0, Some(0)));
    let mut first = g.iter_cell(0, 1);
    let mut got = Vec::new();
    while let Some(v) = first.next() {
        got.push(v);
    }
    assert_eq!(got, vec![1, 2, 3, 4]);
}

#[test]
fn views_repeat_and_leave_board_alone() {
    let g = four_by_four();
    let before = g.clone();
    assert_eq!(g.iter_row(2), g.iter_row(2));
    assert_eq!(g.iter_col(1), g.iter_col(1));
    let mut a = g.iter_cell(2, 1);
    let mut b = g.iter_cell(2, 1);
    for _ in 0..5 {
        assert_eq!(a.next(), b.next());
    }
    assert_eq!(g, before);
}

#[test]
fn full_iteration_is_storage_order() {
    let g = four_by_four();
    let all: Vec<u32> = g.iter().copied().collect();
    assert_eq!(all, vec![1, 2, 3, 4, 3, 4, 1, 2, 2, 1, 4, 3, 4, 3, 2, 0]);
    let again: Vec<u32> = g.iter().copied().collect();
    assert_eq!(all, again);
}

#[test]
fn coordinate_and_linear_access() {
    let mut g = four_by_four();
    assert_eq!(g.get_at(1, 2), 1);
    assert_eq!(g.get(6), 1);
    g.set_at(3, 3, 1);
    assert_eq!(g.get(15), 1);
    assert_eq!(g.get_at(3, 3), 1);
    g.set(15, 0);
    assert_eq!(g.get_at(3, 3), 0);
    g.set_at(0, 3, 2);
    assert_eq!(g.tiles()[3], 2);
}

#[test]
fn bit_operations_on_words() {
    let mut x: u32 = 0;
    x.set_bit(3);
    assert_eq!(x, 8);
    assert!(x.test_bit(3));
    assert!(!x.test_bit(2));
    x.set_bit(31);
    assert_eq!(x, 0x8000_0008);
    x.flip_bit(3);
    assert_eq!(x, 0x8000_0000);
    x.flip_bit(0);
    assert_eq!(x, 0x8000_0001);
    x.clear_bit(31);
    assert_eq!(x, 1);
    x.clear_bit(5);
    assert_eq!(x, 1);
}
