use sudoku::grid::SudokuGrid;
use sudoku::solver::{possible, solve, solve_rec, SolveState};

const PUZZLE: [u32; 81] = [
    5, 3, 0, 0, 7, 0, 0, 0, 0, //
    6, 0, 0, 1, 9, 5, 0, 0, 0, //
    0, 9, 8, 0, 0, 0, 0, 6, 0, //
    8, 0, 0, 0, 6, 0, 0, 0, 3, //
    4, 0, 0, 8, 0, 3, 0, 0, 1, //
    7, 0, 0, 0, 2, 0, 0, 0, 6, //
    0, 6, 0, 0, 0, 0, 2, 8, 0, //
    0, 0, 0, 4, 1, 9, 0, 0, 5, //
    0, 0, 0, 0, 8, 0, 0, 7, 9,
];

const SOLUTION: [u32; 81] = [
    5, 3, 4, 6, 7, 8, 9, 1, 2, //
    6, 7, 2, 1, 9, 5, 3, 4, 8, //
    1, 9, 8, 3, 4, 2, 5, 6, 7, //
    8, 5, 9, 7, 6, 1, 4, 2, 3, //
    4, 2, 6, 8, 5, 3, 7, 9, 1, //
    7, 1, 3, 9, 2, 4, 8, 5, 6, //
    9, 6, 1, 5, 3, 7, 2, 8, 4, //
    2, 8, 7, 4, 1, 9, 6, 3, 5, //
    3, 4, 5, 2, 8, 6, 1, 7, 9,
];

fn grid(tiles: &[u32]) -> SudokuGrid {
    SudokuGrid::try_from(tiles.to_vec()).unwrap()
}

fn every_unit_complete(g: &SudokuGrid) -> bool {
    let w = *g.row_width();
    let full: Vec<u32> = (1..=w as u32).collect();
    for i in 0..w {
        let mut r = g.iter_row(i);
        r.sort();
        let mut c = g.iter_col(i);
        c.sort();
        let mut it = g.iter_cell((i / g.cell_width()) * g.cell_width(), (i % g.cell_width()) * g.cell_width());
        let mut b = Vec::new();
        while let Some(v) = it.next() {
            b.push(v);
        }
        b.sort();
        if r != full || c != full || b != full {
            return false;
        }
    }
    true
}

#[test]
fn solves_known_puzzle() {
    let mut g = grid(&PUZZLE);
    assert_eq!(solve(&mut g), SolveState::Solved);
    assert_eq!(g.tiles(), &SOLUTION[..]);
    assert!(every_unit_complete(&g));
}

#[test]
fn full_board_is_solved_without_change() {
    let mut g = grid(&SOLUTION);
    let before = g.clone();
    let state = solve(&mut g);
    assert!(state.is_solved());
    assert_eq!(g, before);
}

#[test]
fn contradictory_board_is_unsolved_and_unchanged() {
    let mut tiles = [0u32; 81];
    for c in 1..8 {
        tiles[c] = c as u32;
    }
    tiles[9] = 8;
    tiles[27] = 9;
    tiles[17] = 5;
    tiles[26] = 5;
    let mut g = grid(&tiles);
    let before = g.clone();
    let state = solve(&mut g);
    assert_eq!(state, SolveState::UnSolved);
    assert!(!state.is_solved());
    assert_eq!(g, before);
}

#[test]
fn unsolvable_small_board_is_reverted() {
    // The last square of the first row can only be 4, which its column already holds.
    let tiles = [1, 2, 3, 0, 0, 0, 0, 4, 0, 0, 0, 0, 0, 0, 0, 0];
    let mut g = grid(&tiles);
    let before = g.clone();
    assert_eq!(solve(&mut g), SolveState::UnSolved);
    assert_eq!(g, before);
}

#[test]
fn empty_small_board_is_filled() {
    let mut g = grid(&[0; 16]);
    assert_eq!(solve(&mut g), SolveState::Solved);
    assert!(every_unit_complete(&g));
    assert_eq!(g.iter_row(0), vec![1, 2, 3, 4]);
}

#[test]
fn empty_board_of_width_zero_is_solved() {
    let mut g = SudokuGrid::try_from(Vec::new()).unwrap();
    assert_eq!(solve(&mut g), SolveState::Solved);
}

#[test]
fn first_square_filled_search_starts_later() {
    let tiles = [1, 0, 0, 0, 0, 0, 0, 0, 0, 0, 0, 0, 0, 0, 0, 0];
    let mut g = grid(&tiles);
    assert_eq!(solve(&mut g), SolveState::Solved);
    assert_eq!(g.get(0), 1);
    assert!(every_unit_complete(&g));
}

#[test]
fn recursion_from_given_square() {
    let mut g = grid(&PUZZLE);
    assert_eq!(solve_rec(&mut g, 2), SolveState::Solved);
    assert_eq!(g.tiles(), &SOLUTION[..]);
}

#[test]
fn candidates_exclude_row_column_and_box() {
    let g = grid(&PUZZLE);
    // square (0, 2): row has 5 3 7, column has 8, box has 5 3 6 9 8
    let mask = possible(&g, 2);
    let got: Vec<u32> = (1..=9).filter(|d| mask & (1 << d) != 0).collect();
    assert_eq!(got, vec![1, 2, 4]);
    // square (4, 4): row 4 8 3 1, column 7 9 6 2 1 8, box 6 8 3 2
    let mask = possible(&g, 40);
    let got: Vec<u32> = (1..=9).filter(|d| mask & (1 << d) != 0).collect();
    assert_eq!(got, vec![5]);
}

#[test]
fn candidates_on_full_board_are_empty() {
    let g = grid(&SOLUTION);
    let mask = possible(&g, 10);
    let got: Vec<u32> = (1..=9).filter(|d| mask & (1 << d) != 0).collect();
    assert!(got.is_empty());
}

#[test]
fn clashing_givens_in_a_column_are_unsolved_and_unchanged() {
    let g0 = SudokuGrid::try_from(
        [&[1u32, 2, 3, 4, 5, 6, 7, 8, 0, 0, 0, 0, 0, 0, 0, 0, 0, 9, 0, 0, 0, 0, 0, 0, 0, 0, 9][..], &[0u32; 54][..]]
            .concat(),
    )
    .unwrap();
    let mut g = g0.clone();
    assert_eq!(solve(&mut g), SolveState::UnSolved);
    assert_eq!(g, g0);
}

#[test]
fn recursion_leaves_earlier_empty_squares_alone() {
    // Squares 0 and 1 are empty, the search starts at square 2.
    let tiles = [0, 0, 0, 0, 0, 0, 0, 0, 0, 0, 0, 0, 0, 0, 0, 0];
    let mut g = grid(&tiles);
    assert_eq!(solve_rec(&mut g, 2), SolveState::Solved);
    assert_eq!(g.get(0), 0);
    assert_eq!(g.get(1), 0);
    assert!((2..16).all(|i| g.get(i) != 0));
    assert_eq!(g.iter_row(0), vec![0, 0, 1, 2]);
}

#[test]
fn first_completion_in_index_order() {
    // With the whole board free, the search yields the smallest completion square by square.
    let mut g = grid(&[0; 16]);
    assert_eq!(solve(&mut g), SolveState::Solved);
    assert_eq!(g.tiles(), &[1, 2, 3, 4, 3, 4, 1, 2, 2, 1, 4, 3, 4, 3, 2, 1][..]);
}

#[test]
fn full_wide_board_is_solved_at_once() {
    // A board of side 36 with no empty square: no candidate mask is needed.
    let tiles: Vec<u32> = (0..36u32 * 36).map(|i| i % 36 + 1).collect();
    let mut g = SudokuGrid::try_from(tiles).unwrap();
    let before = g.clone();
    assert_eq!(solve(&mut g), SolveState::Solved);
    assert_eq!(g, before);
}

#[test]
fn mask_is_the_same_on_each_call() {
    let g = grid(&PUZZLE);
    assert_eq!(possible(&g, 2), possible(&g, 2));
    // Bit 0 is set for the empty square itself; bits above the side stay free.
    let mask = possible(&g, 2);
    assert_eq!(mask & 1, 0);
    assert_eq!(mask >> 10, u32::MAX >> 10);
}

#[test]
fn conversion_through_standard_trait() {
    let g: Result<SudokuGrid, _> = std::convert::TryInto::try_into(vec![0u32; 16]);
    assert_eq!(*g.unwrap().row_width(), 4);
}
