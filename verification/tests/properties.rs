use sudoku_core::analyze::{analyze_board, analyze_cell, is_full_board, to_board, AnalyzedCell};
use sudoku_core::board::{Board, BoardData, ValidMatrixOptions};
use sudoku_core::flat;
use sudoku_core::infer::{
    arrange_findings, infer_all, infer_col, infer_group, infer_positions, infer_row, infer_square,
    infer_square_of, InferredPosition,
};
use sudoku_core::solve::{
    count_uses, fewest, guess_cell_at, order_options, propagate, simple_solve, solve_analyzed,
    tied_positions,
};
use sudoku_core::types::{PositionalValue, SudokuError};
use sudoku_core::update::{
    recalculate_cell, update_axis, update_board, update_positions, update_square_of,
};
use sudoku_core::validators::{integer_root, is_square, is_square_matrix, is_valid_sudoku};

fn example_puzzle() -> Board {
    let mut board = Board::new(9).unwrap();
    let clues: [(usize, usize, usize); 22] = [
        (0, 2, 1),
        (1, 6, 1),
        (7, 1, 1),
        (5, 1, 2),
        (6, 3, 3),
        (7, 2, 3),
        (3, 2, 4),
        (4, 3, 4),
        (8, 8, 4),
        (0, 1, 5),
        (4, 8, 5),
        (6, 7, 5),
        (7, 4, 5),
        (0, 4, 7),
        (3, 1, 7),
        (6, 8, 7),
        (1, 3, 8),
        (2, 0, 8),
        (3, 7, 8),
        (2, 4, 9),
        (4, 6, 9),
        (8, 0, 9),
    ];
    for (row, col, value) in clues {
        board.set(row, col, value).unwrap();
    }
    board
}

fn holds_each_once(group: &Vec<usize>) -> bool {
    let n = group.len();
    (1..=n).all(|v| group.iter().filter(|x| **x == v).count() == 1)
}

fn is_solved(board: &Board) -> bool {
    let n = board.get_size();
    let k = board.get_square_size();
    (0..n).all(|i| {
        holds_each_once(board.get_row(i).unwrap())
            && holds_each_once(board.get_col(i).unwrap())
            && holds_each_once(board.get_square(i / k, i % k).unwrap())
    })
}

#[test]
fn solved_grid_holds_each_value_once_in_every_group() {
    let puzzle = example_puzzle();
    let solved = simple_solve(&puzzle).unwrap();
    assert!(is_solved(&solved));
    for row in 0..9 {
        for col in 0..9 {
            let given = *puzzle.at(row, col).unwrap();
            if given != 0 {
                assert_eq!(*solved.at(row, col).unwrap(), given);
            }
        }
    }
}

#[test]
fn empty_grid_is_solved() {
    let solved = simple_solve(&Board::new(9).unwrap()).unwrap();
    assert!(is_solved(&solved));
    assert!(solved.is_full());
    assert!(is_valid_sudoku(&solved));
}

#[test]
fn small_grids_are_solved() {
    let solved = simple_solve(&Board::new(4).unwrap()).unwrap();
    assert!(is_solved(&solved));
    let one = simple_solve(&Board::new(1).unwrap()).unwrap();
    assert_eq!(one.get_rows(), &vec![vec![1usize]]);
    let none = simple_solve(&Board::new(0).unwrap()).unwrap();
    assert_eq!(none.get_size(), 0);
}

#[test]
fn analysis_of_a_filled_grid_keeps_its_values() {
    let data: BoardData = vec![
        vec![1, 2, 3, 4],
        vec![3, 4, 1, 2],
        vec![2, 1, 4, 3],
        vec![4, 3, 2, 1],
    ];
    let board = Board::from(&data).unwrap();
    let analyzed = analyze_board(&board).unwrap();
    assert!(is_full_board(&analyzed));
    for row in 0..4 {
        for col in 0..4 {
            assert_eq!(
                analyzed.at(row, col),
                Some(&AnalyzedCell::Value(data[row][col]))
            );
        }
    }
}

#[test]
fn numbers_of_a_fixed_grid_analyse_back() {
    let data: BoardData = vec![
        vec![1, 2, 3, 4],
        vec![3, 4, 1, 2],
        vec![2, 1, 4, 3],
        vec![4, 3, 2, 1],
    ];
    let analyzed = analyze_board(&Board::from(&data).unwrap()).unwrap();
    let numbers = to_board(&analyzed).unwrap();
    assert_eq!(numbers.get_rows(), &data);
    let again = analyze_board(&numbers).unwrap();
    assert_eq!(again.get_rows(), analyzed.get_rows());
}

#[test]
fn grid_with_an_open_cell_is_not_written_as_numbers() {
    let mut board = Board::new(4).unwrap();
    board.set(0, 0, 1).unwrap();
    let analyzed = analyze_board(&board).unwrap();
    assert_eq!(to_board(&analyzed).err(), Some(SudokuError::Undetermined));
}

#[test]
fn recalculating_a_grid_at_rest_changes_nothing() {
    let mut analyzed = analyze_board(&example_puzzle()).unwrap();
    update_board(&mut analyzed).unwrap();
    let before = analyzed.get_rows().clone();
    let changed = update_board(&mut analyzed).unwrap();
    assert_eq!(changed, Vec::<(usize, usize)>::new());
    assert_eq!(analyzed.get_rows(), &before);
    let around = update_positions(&mut analyzed, &vec![(0, 0), (4, 4)]).unwrap();
    assert_eq!(around, Vec::<(usize, usize)>::new());
    assert_eq!(analyzed.get_rows(), &before);
}

#[test]
fn hidden_single_is_fixed_by_the_deductions() {
    let mut board = Board::new(9).unwrap();
    board.set(5, 0, 6).unwrap();
    board.set(8, 1, 6).unwrap();
    board.set(2, 2, 1).unwrap();
    board.set(1, 2, 2).unwrap();
    let mut analyzed = analyze_board(&board).unwrap();
    assert!(analyzed.at(0, 2).unwrap().is_undetermined());
    propagate(&mut analyzed).unwrap();
    assert_eq!(analyzed.at(0, 2), Some(&AnalyzedCell::Value(6)));
}

#[test]
fn naked_single_is_fixed_by_recalculation() {
    let mut board = Board::new(4).unwrap();
    board.set(1, 1, 1).unwrap();
    board.set(1, 3, 3).unwrap();
    board.set(0, 2, 2).unwrap();
    let mut analyzed = analyze_board(&board).unwrap();
    update_board(&mut analyzed).unwrap();
    assert_eq!(analyzed.at(1, 2).unwrap().get_value(), Some(4));
    // (1, 0) is then the last open cell of its row.
    assert_eq!(analyzed.at(1, 0).unwrap().get_value(), Some(2));
}

#[test]
fn grid_that_breaks_a_rule_is_refused() {
    let mut board = Board::new(9).unwrap();
    board.set(0, 0, 1).unwrap();
    board.set(0, 1, 1).unwrap();
    assert!(!is_valid_sudoku(&board));
    assert_eq!(simple_solve(&board).err(), Some(SudokuError::NoSolutionFound));
    let flat: Vec<usize> = board.get_rows_flat().into_iter().copied().collect();
    assert!(!flat::is_valid(&flat));
    assert_eq!(flat::solve(&flat), Err(SudokuError::NoSolutionFound));
}

#[test]
fn puzzle_without_solution_is_reported() {
    // Row 0 leaves only 4 to its last cell, and column 3 has a 4 already.
    let data: BoardData = vec![
        vec![1, 2, 3, 0],
        vec![0, 0, 0, 4],
        vec![0, 0, 0, 0],
        vec![0, 0, 0, 0],
    ];
    let board = Board::from(&data).unwrap();
    assert!(is_valid_sudoku(&board));
    assert_eq!(simple_solve(&board).err(), Some(SudokuError::NoSolutionFound));
    assert_eq!(
        analyze_cell(&board, 0, 3),
        Err(SudokuError::Contradiction)
    );
}

#[test]
fn value_above_the_side_is_refused() {
    let mut board = Board::new(4).unwrap();
    board.set(2, 2, 5).unwrap();
    assert_eq!(analyze_cell(&board, 2, 2), Err(SudokuError::ValueTooLarge));
    assert_eq!(analyze_board(&board).err(), Some(SudokuError::ValueTooLarge));
    assert_eq!(simple_solve(&board).err(), Some(SudokuError::ValueTooLarge));
}

#[test]
fn shapes_are_checked() {
    assert_eq!(Board::new(13).err(), Some(SudokuError::InvalidSize));
    assert_eq!(Board::new(2).err(), Some(SudokuError::InvalidSize));
    assert!(Board::new(0).is_ok());
    assert!(Board::new(1).is_ok());
    assert!(Board::new(16).is_ok());
    let ragged: BoardData = vec![vec![1, 2], vec![3]];
    assert_eq!(Board::from(&ragged).err(), Some(SudokuError::NotSquareMatrix));
    let two: BoardData = vec![vec![1, 2], vec![2, 1]];
    assert_eq!(Board::from(&two).err(), Some(SudokuError::InvalidSize));
    assert_eq!(
        Board::validate_matrix(&ragged),
        ValidMatrixOptions::NonSquareMatrix
    );
    assert_eq!(
        Board::validate_matrix(&two),
        ValidMatrixOptions::NonSquareSize(2)
    );
    let four: BoardData = vec![vec![0; 4]; 4];
    assert_eq!(Board::validate_matrix(&four), ValidMatrixOptions::Valid(4));
}

#[test]
fn squares_and_roots() {
    assert!(is_square(0));
    assert!(is_square(1));
    assert!(!is_square(2));
    assert!(is_square(9));
    assert!(!is_square(13));
    assert!(is_square(1_000_000));
    assert!(!is_square(999_999));
    assert_eq!(integer_root(0), 0);
    assert_eq!(integer_root(8), 2);
    assert_eq!(integer_root(9), 3);
    assert_eq!(integer_root(99), 9);
    assert!(is_square_matrix(&vec![vec![1, 2], vec![3, 4]]));
    assert!(!is_square_matrix(&vec![vec![1, 2, 3], vec![3, 4, 5]]));
    assert!(is_square_matrix::<usize>(&vec![]));
}

#[test]
fn cells_are_found_by_row_column_and_box() {
    let mut data: BoardData = vec![vec![0; 9]; 9];
    for row in 0..9 {
        for col in 0..9 {
            data[row][col] = row * 9 + col;
        }
    }
    let board = Board::from(&data).unwrap();
    assert_eq!(board.get_size(), 9);
    assert_eq!(board.get_square_size(), 3);
    assert_eq!(board.at(4, 7), Some(&43));
    assert_eq!(board.at(9, 0), None);
    assert_eq!(board.at(0, 9), None);
    assert_eq!(board.get_row(2), Some(&vec![18, 19, 20, 21, 22, 23, 24, 25, 26]));
    assert_eq!(board.get_col(2), Some(&vec![2, 11, 20, 29, 38, 47, 56, 65, 74]));
    assert_eq!(board.get_row(9), None);
    assert_eq!(board.get_col(9), None);
    let middle = vec![30, 31, 32, 39, 40, 41, 48, 49, 50];
    assert_eq!(board.get_square(1, 1), Some(&middle));
    assert_eq!(board.get_square_1d(4), Some(&middle));
    assert_eq!(board.get_square_of(5, 3), Some(&middle));
    assert_eq!(board.get_square(0, 2), Some(&vec![6, 7, 8, 15, 16, 17, 24, 25, 26]));
    assert_eq!(board.get_square(3, 0), None);
    assert_eq!(board.get_square_1d(9), None);
    assert_eq!(board.get_square_of(9, 0), None);
    assert_eq!(board.get_rows(), &data);
    let flat: Vec<usize> = board.get_rows_flat().into_iter().copied().collect();
    assert_eq!(flat, (0..81).collect::<Vec<usize>>());
    assert!(!board.is_valid_numerical());
    assert!(!board.is_full());
}

#[test]
fn writes_reach_all_three_copies() {
    let mut board = Board::new(9).unwrap();
    board.set(4, 5, 7).unwrap();
    assert_eq!(board.get_row(4).unwrap()[5], 7);
    assert_eq!(board.get_col(5).unwrap()[4], 7);
    assert_eq!(board.get_square(1, 1).unwrap()[5], 7);
    assert_eq!(board.set(9, 0, 1), Err(SudokuError::OutOfBounds));
    assert_eq!(board.set(0, 9, 1), Err(SudokuError::OutOfBounds));
    // Place 5 of the box in row 2, column 0 of the boxes is cell (7, 2).
    board.set_inner_square(2, 0, 5, 3).unwrap();
    assert_eq!(board.at(7, 2), Some(&3));
    assert_eq!(
        board.set_inner_square(3, 0, 0, 1),
        Err(SudokuError::OutOfBounds)
    );
    assert_eq!(
        board.set_inner_square(0, 0, 9, 1),
        Err(SudokuError::OutOfBounds)
    );
    let copy = board.clone();
    assert_eq!(copy.get_rows(), board.get_rows());
    assert_eq!(copy.get_col(5), board.get_col(5));
}

#[test]
fn first_cell_that_fits_is_found() {
    let mut board = Board::new(4).unwrap();
    board.set(2, 1, 3).unwrap();
    board.set(3, 0, 3).unwrap();
    let found = board.find(|v| *v == 3).unwrap();
    assert_eq!((found.row, found.col, *found.value), (2, 1, 3));
    assert!(board.find(|v| *v == 4).is_none());
    let all = board.filter(|v| *v == 3);
    assert_eq!(
        all,
        vec![
            PositionalValue { row: 2, col: 1, value: &3 },
            PositionalValue { row: 3, col: 0, value: &3 }
        ]
    );
}

#[test]
fn empty_cell_gets_the_values_left_in_rising_order() {
    let mut board = Board::new(4).unwrap();
    board.set(0, 1, 3).unwrap();
    board.set(2, 0, 1).unwrap();
    assert_eq!(
        analyze_cell(&board, 0, 0),
        Ok(AnalyzedCell::Undetermined(vec![2, 4]))
    );
    assert_eq!(
        analyze_cell(&board, 3, 3),
        Ok(AnalyzedCell::Undetermined(vec![1, 2, 3, 4]))
    );
    board.set(1, 1, 4).unwrap();
    assert_eq!(analyze_cell(&board, 0, 0), Ok(AnalyzedCell::Value(2)));
    assert_eq!(analyze_cell(&board, 4, 0), Err(SudokuError::OutOfBounds));
    let cell = AnalyzedCell::Undetermined(vec![2, 4]);
    assert!(cell.is_undetermined());
    assert!(!cell.is_value());
    assert_eq!(cell.get_value(), None);
    assert_eq!(cell.get_undetermined(), Some(&vec![2, 4]));
    let fixed = AnalyzedCell::Value(3);
    assert!(fixed.is_value());
    assert_eq!(fixed.get_undetermined(), None);
}

fn candidates(rows: Vec<Vec<AnalyzedCell>>) -> Board<AnalyzedCell> {
    Board::from(&rows).unwrap()
}

fn open(values: &[usize]) -> AnalyzedCell {
    AnalyzedCell::Undetermined(values.to_vec())
}

fn fixed(value: usize) -> AnalyzedCell {
    AnalyzedCell::Value(value)
}

#[test]
fn recalculation_narrows_open_cells_only() {
    let board = candidates(vec![
        vec![fixed(1), open(&[1, 2, 3, 4]), open(&[3, 4]), open(&[3, 4])],
        vec![open(&[3, 4]), fixed(4), fixed(1), fixed(2)],
        vec![open(&[2, 4]), open(&[1, 3]), open(&[2, 4]), open(&[1, 3])],
        vec![open(&[2, 4]), open(&[1, 3]), open(&[2, 4]), open(&[1, 3])],
    ]);
    assert_eq!(recalculate_cell(&board, 0, 0), Ok(None));
    assert_eq!(recalculate_cell(&board, 0, 1), Ok(Some(open(&[2, 3]))));
    assert_eq!(recalculate_cell(&board, 1, 0), Ok(Some(fixed(3))));
    assert_eq!(recalculate_cell(&board, 4, 0), Err(SudokuError::OutOfBounds));
    assert_eq!(recalculate_cell(&board, 0, 4), Err(SudokuError::OutOfBounds));
}

#[test]
fn recalculation_of_a_group_reports_the_cells_it_fixes() {
    let rows = vec![
        vec![fixed(1), open(&[1, 2, 3, 4]), open(&[3, 4]), open(&[3, 4])],
        vec![open(&[3, 4]), fixed(4), fixed(1), fixed(2)],
        vec![open(&[2, 4]), open(&[1, 3]), open(&[2, 4]), open(&[1, 3])],
        vec![open(&[2, 4]), open(&[1, 3]), open(&[2, 4]), open(&[1, 3])],
    ];
    let mut by_row = candidates(rows.clone());
    assert_eq!(update_axis(&mut by_row, 1, true), Ok(vec![(1, 0)]));
    assert_eq!(by_row.at(1, 0), Some(&fixed(3)));
    let mut by_col = candidates(rows.clone());
    // Column 0: (1, 0) becomes 3; (2, 0) and (3, 0) keep 2 and 4.
    assert_eq!(update_axis(&mut by_col, 0, false), Ok(vec![(1, 0)]));
    let mut by_box = candidates(rows.clone());
    // Box 0: (0, 1) is left with 2 and 3, then (1, 0) becomes 3.
    assert_eq!(update_square_of(&mut by_box, 1, 1), Ok(vec![(1, 0)]));
    assert_eq!(by_box.at(0, 1), Some(&open(&[2, 3])));
    let mut outside = candidates(rows.clone());
    assert_eq!(
        update_square_of(&mut outside, 4, 0),
        Err(SudokuError::OutOfBounds)
    );
    assert_eq!(update_axis(&mut outside, 4, true), Err(SudokuError::OutOfBounds));
    assert_eq!(
        update_positions(&mut outside, &vec![(0, 4)]),
        Err(SudokuError::OutOfBounds)
    );
    assert_eq!(outside.get_rows(), &rows);
}

#[test]
fn contradiction_leaves_the_grid_as_it_was() {
    let rows = vec![
        vec![fixed(1), fixed(2), fixed(3), open(&[4])],
        vec![open(&[3, 4]), open(&[3, 4]), open(&[1, 2]), fixed(4)],
        vec![open(&[2, 4]), open(&[1, 3]), open(&[2, 4]), open(&[1, 3])],
        vec![open(&[2, 4]), open(&[1, 3]), open(&[2, 4]), open(&[1, 3])],
    ];
    let mut board = candidates(rows.clone());
    assert_eq!(update_board(&mut board), Err(SudokuError::Contradiction));
    assert_eq!(board.get_rows(), &rows);
    assert_eq!(
        update_positions(&mut board, &vec![(1, 3)]),
        Err(SudokuError::Contradiction)
    );
    assert_eq!(board.get_rows(), &rows);
    assert_eq!(propagate(&mut board), Err(SudokuError::Contradiction));
    assert_eq!(board.get_rows(), &rows);
}

#[test]
fn hidden_singles_of_a_group_come_in_chains() {
    // 4 stands in the first cell only; with it fixed, 3 is left to the second
    // cell, and with that fixed, 1 to the last.
    let group = vec![open(&[1, 3, 4]), open(&[1, 3]), fixed(2), open(&[1])];
    assert_eq!(infer_group(&group), Ok(vec![(0, 4), (1, 3), (3, 1)]));
    let settled = vec![open(&[1, 2]), open(&[1, 2]), fixed(3), fixed(4)];
    assert_eq!(infer_group(&settled), Ok(vec![]));
    let short = vec![open(&[1, 2]), open(&[1, 2]), fixed(3), fixed(3)];
    assert_eq!(infer_group(&short), Err(SudokuError::Contradiction));
}

#[test]
fn hidden_singles_of_rows_columns_and_boxes() {
    let board = candidates(vec![
        vec![open(&[1, 2]), open(&[1, 2, 3]), fixed(4), open(&[1, 2])],
        vec![open(&[3, 4]), open(&[3, 4]), open(&[1, 2]), open(&[1, 2])],
        vec![open(&[1, 2, 4]), open(&[1, 2]), open(&[1, 2, 3]), fixed(3)],
        vec![open(&[2, 3]), open(&[1, 2]), fixed(1), fixed(4)],
    ]);
    let three = InferredPosition { row: 0, col: 1, value: 3 };
    assert_eq!(infer_row(&board, 0), Ok(vec![three.clone()]));
    assert_eq!(infer_row(&board, 4), Ok(vec![]));
    // Column 0: 3 twice, 4 twice, 1 twice: nothing. Column 1: 4 once, at
    // (1, 1); with it fixed, 3 once, at (0, 1).
    assert_eq!(infer_col(&board, 0), Ok(vec![]));
    assert_eq!(
        infer_col(&board, 1),
        Ok(vec![InferredPosition { row: 1, col: 1, value: 4 }, three.clone()])
    );
    assert_eq!(infer_col(&board, 4), Ok(vec![]));
    // Box (1, 0): cells (2,0) (2,1) (3,0) (3,1); 4 and 3 stand once each.
    assert_eq!(
        infer_square(&board, 1, 0),
        Ok(vec![
            InferredPosition { row: 2, col: 0, value: 4 },
            InferredPosition { row: 3, col: 0, value: 3 }
        ])
    );
    assert_eq!(infer_square_of(&board, 3, 1), infer_square(&board, 1, 0));
    assert_eq!(infer_square(&board, 2, 0), Ok(vec![]));
    assert_eq!(infer_square_of(&board, 4, 0), Ok(vec![]));
}

#[test]
fn findings_are_ordered_and_kept_once_for_each_cell() {
    let raw = vec![
        InferredPosition { row: 2, col: 1, value: 5 },
        InferredPosition { row: 0, col: 3, value: 1 },
        InferredPosition { row: 2, col: 1, value: 7 },
        InferredPosition { row: 2, col: 0, value: 9 },
        InferredPosition { row: 0, col: 3, value: 2 },
    ];
    assert_eq!(
        arrange_findings(&raw),
        vec![
            InferredPosition { row: 0, col: 3, value: 1 },
            InferredPosition { row: 2, col: 0, value: 9 },
            InferredPosition { row: 2, col: 1, value: 5 }
        ]
    );
}

#[test]
fn findings_of_the_whole_grid_and_of_chosen_groups() {
    let mut board = Board::new(9).unwrap();
    board.set(5, 0, 6).unwrap();
    board.set(8, 1, 6).unwrap();
    board.set(2, 2, 1).unwrap();
    board.set(1, 2, 2).unwrap();
    let analyzed = analyze_board(&board).unwrap();
    let six = InferredPosition { row: 0, col: 2, value: 6 };
    assert_eq!(infer_all(&analyzed), Ok(vec![six.clone()]));
    assert_eq!(infer_positions(&analyzed, &vec![(1, 1)]), Ok(vec![six.clone()]));
    assert_eq!(infer_positions(&analyzed, &vec![(4, 4)]), Ok(vec![]));
    assert_eq!(infer_positions(&analyzed, &vec![(9, 9)]), Ok(vec![]));
    assert_eq!(
        infer_positions(&analyzed, &vec![(0, 0), (1, 1), (2, 2)]),
        Ok(vec![six])
    );
}

#[test]
fn guess_takes_a_cell_with_fewest_options_and_least_used_values_first() {
    let board = candidates(vec![
        vec![fixed(1), open(&[2, 3, 4]), fixed(3), open(&[2, 4])],
        vec![open(&[3, 4]), open(&[2, 3, 4]), fixed(1), open(&[2, 4])],
        vec![fixed(4), fixed(1), open(&[2, 4]), fixed(3)],
        vec![fixed(3), open(&[2, 4]), fixed(4), fixed(1)],
    ]);
    assert_eq!(fewest(&board), 2);
    assert_eq!(
        tied_positions(&board),
        vec![(0, 3), (1, 0), (1, 3), (2, 2), (3, 1)]
    );
    assert_eq!(count_uses(&board, 1), 4);
    assert_eq!(count_uses(&board, 2), 0);
    assert_eq!(count_uses(&board, 3), 3);
    assert_eq!(count_uses(&board, 4), 2);
    assert_eq!(order_options(&board, &vec![1, 2, 3, 4]), vec![2, 4, 3, 1]);
    assert_eq!(order_options(&board, &vec![3, 4]), vec![4, 3]);
    assert_eq!(
        guess_cell_at(&board, 1),
        Some(PositionalValue { row: 1, col: 0, value: vec![4, 3] })
    );
    assert_eq!(
        guess_cell_at(&board, 4),
        Some(PositionalValue { row: 3, col: 1, value: vec![2, 4] })
    );
    assert_eq!(guess_cell_at(&board, 5), None);
    let full = candidates(vec![vec![fixed(1)]]);
    assert_eq!(guess_cell_at(&full, 0), None);
    assert_eq!(tied_positions(&full), vec![]);
}

#[test]
fn flat_lists_are_read_as_grids() {
    assert_eq!(flat::solve(&[0]), Ok(vec![1]));
    assert_eq!(flat::solve(&[]), Ok(vec![]));
    assert_eq!(flat::solve(&[0, 0]), Err(SudokuError::NotSquareMatrix));
    assert_eq!(flat::solve(&[0, 0, 0, 0]), Err(SudokuError::InvalidSize));
    assert_eq!(flat::solve(&[2]), Err(SudokuError::ValueTooLarge));
    let puzzle = [1, 2, 3, 4, 3, 4, 1, 2, 2, 1, 4, 3, 4, 3, 2, 0];
    assert_eq!(
        flat::solve(&puzzle),
        Ok(vec![1, 2, 3, 4, 3, 4, 1, 2, 2, 1, 4, 3, 4, 3, 2, 1])
    );
    assert!(flat::is_valid(&puzzle));
    assert!(!flat::is_valid(&[0, 0]));
    assert!(!flat::is_valid(&[5; 16]));
    assert!(!flat::is_valid(&[1, 1, 0, 0, 0, 0, 0, 0, 0, 0, 0, 0, 0, 0, 0, 0]));
    let board = flat::board_of(&puzzle).unwrap();
    assert_eq!(board.at(1, 2), Some(&1));
}

fn grid_from(text: &str) -> Board {
    let cells: Vec<usize> = text
        .chars()
        .filter(|c| !c.is_whitespace())
        .map(|c| c.to_digit(10).unwrap_or(0) as usize)
        .collect();
    flat::board_of(&cells).unwrap()
}

#[test]
fn hard_puzzles_are_solved() {
    let puzzles = [
        "800000000 003600000 070090200 050007000 000045700 000100030 001000068 008500010 090000400",
        "000000000 000003085 001020000 000507000 004000100 090000000 500000073 002010000 000040009",
        "100007090 030020008 009600500 005300900 010080002 600004000 300000010 040000007 007000300",
    ];
    for text in puzzles {
        let puzzle = grid_from(text);
        let solved = simple_solve(&puzzle).unwrap();
        assert!(is_solved(&solved));
        for row in 0..9 {
            for col in 0..9 {
                let given = *puzzle.at(row, col).unwrap();
                if given != 0 {
                    assert_eq!(*solved.at(row, col).unwrap(), given);
                }
            }
        }
    }
}

#[test]
fn large_empty_grid_is_solved() {
    let solved = simple_solve(&Board::new(16).unwrap()).unwrap();
    assert!(is_solved(&solved));
}

#[test]
fn deductions_made_twice_change_nothing_more() {
    let mut analyzed = analyze_board(&example_puzzle()).unwrap();
    propagate(&mut analyzed).unwrap();
    let once = analyzed.get_rows().clone();
    propagate(&mut analyzed).unwrap();
    assert_eq!(analyzed.get_rows(), &once);
    assert_eq!(infer_all(&analyzed).map(|found| {
        found
            .iter()
            .filter(|f| analyzed.at(f.row, f.col).unwrap().is_undetermined())
            .count()
    }), Ok(0));
}

#[test]
fn search_takes_a_candidate_grid_and_a_generator() {
    let analyzed = analyze_board(&example_puzzle()).unwrap();
    let mut generator = rand::thread_rng();
    let solved = solve_analyzed(&analyzed, &mut generator).unwrap();
    assert!(is_solved(&solved));
    let stuck = candidates(vec![
        vec![fixed(1), fixed(2), fixed(3), open(&[4])],
        vec![open(&[3, 4]), open(&[3, 4]), open(&[1, 2]), fixed(4)],
        vec![open(&[2, 4]), open(&[1, 3]), open(&[2, 4]), open(&[1, 3])],
        vec![open(&[2, 4]), open(&[1, 3]), open(&[2, 4]), open(&[1, 3])],
    ]);
    assert_eq!(
        solve_analyzed(&stuck, &mut generator).err(),
        Some(SudokuError::NoSolutionFound)
    );
}
