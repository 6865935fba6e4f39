use sudoku_core::analyze::{analyze_board, analyze_cell, to_board, AnalyzedCell};
use sudoku_core::board::{Board, BoardData};
use sudoku_core::infer::{infer_square_of, InferredPosition};
use sudoku_core::solve::simple_solve;
use sudoku_core::types::SudokuResult;
#[test]
fn tests_determine_value() {
    let mut board = Board::new(9).expect("Failed setting up board");
    let row: usize = 2;
    let col: usize = 2;
    let value: usize = 4;
    board
        .set(row, col, value)
        .expect("Could not set in determine_value");
    let analyzed = analyze_cell(&board, row, col).expect("Failed analyzing cell");
    assert_eq!(analyzed, AnalyzedCell::Value(value));
}

#[test]
fn tests_convert_to_board() {
    let board_data: BoardData<usize> = vec![vec![6; 9]; 9];
    let board = Board::from(&board_data).expect("Failed to create board");
    let analyzed_board = analyze_board(&board).expect("Failed to analyze board");
    let new_board = to_board(&analyzed_board).expect("Failed to run to_board");
    assert_eq!(new_board.get_rows(), &board_data);
}

#[test]
fn tests_fail_to_board() {
    let empty_board = Board::new(9).expect("Failed to create board");
    let analyzed_board = analyze_board(&empty_board).expect("Failed to analyze board");
    assert!(to_board(&analyzed_board).is_err());
}

#[test]
fn tests_update_board_after_creation() -> SudokuResult<()> {
    let mut board = Board::new(4).expect("Could not create board");
    board.set(1, 1, 1)?;
    board.set(1, 3, 3)?;
    board.set(0, 2, 2)?;

    /*
    Must infer X is 2 due to row inferring
    +---+---+---+---+
    | 0 | 0 | 2 | 0 |
    +---+---+---+---+
    | 0 | 1 | X | 3 |
    +---+---+---+---+
    | 0 | 0 | 0 | 0 |
    +---+---+---+---+
    | 0 | 0 | 0 | 0 |
    +---+---+---+---+

    Should be:
    X = 4
     */

    let analyzed = analyze_board(&board).expect("Could not analyze board");

    let x = analyzed.at(1, 2).unwrap();

    assert_eq!(x.get_value(), Some(4));
    Ok(())
}

#[test]
fn tests_should_infer_square() -> SudokuResult<()> {
    let mut board = Board::new(9)?;
    let expected = InferredPosition {
        row: 0,
        col: 2,
        value: 6,
    };

    let expected1 = InferredPosition {
        row: 0,
        col: 1,
        value: 7,
    };

    // setting up to infer (0,2) -> 6
    {
        board.set(5, 0, 6)?;
        board.set(8, 1, 6)?;
        board.set(2, 2, 1)?;
        board.set(1, 2, 2)?;
    }

    //setting up to infer (0,1) -> 7
    {
        board.set(2, 7, 7)?;
        board.set(1, 5, 7)?;
        board.set(0, 0, 3)?;
    }

    let analyzed = analyze_board(&board)?;

    let inferred = infer_square_of(&analyzed, 0, 2)?;

    assert_eq!(inferred.len(), 2);

    assert_eq!(inferred.first(), Some(&expected));
    assert_eq!(inferred.get(1), Some(&expected1));

    Ok(())
}

#[test]
fn main_test() -> SudokuResult<()> {
    let mut board = Board::new(9)?;
    {
        board.set(0, 2, 1)?;
        board.set(1, 6, 1)?;
        board.set(7, 1, 1)?;
        board.set(5, 1, 2)?;
        board.set(6, 3, 3)?;
        board.set(7, 2, 3)?;
        board.set(3, 2, 4)?;
        board.set(4, 3, 4)?;
        board.set(8, 8, 4)?;
        board.set(0, 1, 5)?;
        board.set(4, 8, 5)?;
        board.set(6, 7, 5)?;
        board.set(7, 4, 5)?;
        board.set(0, 4, 7)?;
        board.set(3, 1, 7)?;
        board.set(6, 8, 7)?;
        board.set(1, 3, 8)?;
        board.set(2, 0, 8)?;
        board.set(3, 7, 8)?;
        board.set(2, 4, 9)?;
        board.set(4, 6, 9)?;
        board.set(8, 0, 9)?;
    }

    let solved = simple_solve(&board)?;

    println!("{:?}", solved.get_rows());
    Ok(())
}
