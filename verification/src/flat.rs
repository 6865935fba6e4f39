//! The solver for callers that hold a grid as one flat list of numbers.

use crate::board::Board;
use crate::solve::{fills, is_solvable, simple_solve, within_range};
use crate::types::SudokuError;
use crate::validators::{
    integer_root, is_integer_root, is_perfect_square, is_solution, is_valid_grid, is_valid_sudoku,
    lemma_integer_root_decides,
};
use vstd::prelude::*;

verus! {

/// The square grid of side `w` that holds `values` row after row.
pub open spec fn grid_of(values: Seq<usize>, w: nat) -> Seq<Seq<usize>> {
    Seq::new(w, |r: int| Seq::new(w, |c: int| values[r * w + c]))
}

/// The integer root of a number: the largest number whose square does not
/// exceed it.
pub open spec fn root_of(num: nat) -> nat {
    choose|root: nat| is_integer_root(root, num)
}

/// The puzzle that a flat list of numbers stands for, if it stands for one:
/// a square grid whose side is itself a perfect square.
pub open spec fn puzzle_of(values: Seq<usize>) -> Result<Seq<Seq<usize>>, SudokuError> {
    if !is_perfect_square(values.len()) {
        Err(SudokuError::NotSquareMatrix)
    } else if !is_perfect_square(root_of(values.len())) {
        Err(SudokuError::InvalidSize)
    } else {
        Ok(grid_of(values, root_of(values.len())))
    }
}

/// A number has one integer root only.
pub proof fn lemma_root_of(root: nat, num: nat)
    requires
        is_integer_root(root, num),
    ensures
        root_of(num) == root,
{
    let other = root_of(num);
    assert(is_integer_root(other, num));
    if other < root {
        assert((other + 1) * (other + 1) <= root * root) by (nonlinear_arith)
            requires
                other + 1 <= root,
        ;
    } else if root < other {
        assert((root + 1) * (root + 1) <= other * other) by (nonlinear_arith)
            requires
                root + 1 <= other,
        ;
    }
}

/// The integer root of a square is the number squared.
pub proof fn lemma_square_root_of(root: nat, num: nat)
    requires
        root * root == num,
    ensures
        root_of(num) == root,
{
    assert(num < (root + 1) * (root + 1)) by (nonlinear_arith)
        requires
            root * root == num,
    ;
    lemma_root_of(root, num);
}

/// Reads a flat list of numbers as a puzzle.
pub fn board_of(arr: &[usize]) -> (made: Result<Board, SudokuError>)
    ensures
        match puzzle_of(arr@) {
            Ok(grid) => made matches Ok(board) && board.wf() && board@ == grid,
            Err(error) => made matches Err(raised) && raised == error,
        },
        made matches Ok(board) ==> board.spec_size() * board.spec_size() == arr@.len(),
{
    let len = arr.len();
    let side = integer_root(len);
    proof {
        lemma_integer_root_decides(side as nat, len as nat);
        lemma_root_of(side as nat, len as nat);
        assert(side * side <= len);
    }
    if side * side != len {
        return Err(SudokuError::NotSquareMatrix);
    }
    let mut data: Vec<Vec<usize>> = Vec::new();
    let mut r: usize = 0;
    while r < side
        invariant
            side * side == len,
            len == arr.len(),
            r <= side,
            data.len() == r,
            forall|i: int| 0 <= i < r ==> (#[trigger] data[i])@ == grid_of(arr@, side as nat)[i],
        decreases side - r,
    {
        let mut row: Vec<usize> = Vec::new();
        let mut c: usize = 0;
        while c < side
            invariant
                side * side == len,
                len == arr.len(),
                r < side,
                c <= side,
                row.len() == c,
                forall|j: int| 0 <= j < c ==> row[j] == arr[r * side + j],
            decreases side - c,
        {
            proof {
                assert(r * side + c < side * side) by (nonlinear_arith)
                    requires
                        r < side,
                        c < side,
                ;
            }
            row.push(arr[r * side + c]);
            c = c + 1;
        }
        assert(row@ =~= grid_of(arr@, side as nat)[r as int]);
        data.push(row);
        r = r + 1;
    }
    proof {
        assert(crate::validators::is_square_matrix_spec(data@));
        assert(crate::board::grid_views(data@) =~= grid_of(arr@, side as nat)) by {
            assert forall|i: int| 0 <= i < side implies #[trigger] crate::board::grid_views(
                data@,
            )[i] =~= grid_of(arr@, side as nat)[i] by {}
        }
    }
    Board::from(&data)
}

/// Solves the puzzle that a flat list of numbers stands for, and gives the
/// solved grid as a flat list.
pub fn solve(arr: &[usize]) -> (solved: Result<Vec<usize>, SudokuError>)
    ensures
        match puzzle_of(arr@) {
            Err(error) => solved matches Err(raised) && raised == error,
            Ok(grid) => if within_range(grid) {
                match solved {
                    Ok(cells) => cells.len() == arr.len() && is_solution(
                        grid_of(cells@, grid.len()),
                        root_of(grid.len()) as int,
                    ) && fills(grid, grid_of(cells@, grid.len())),
                    Err(error) => error == SudokuError::NoSolutionFound && !is_solvable(
                        grid,
                        root_of(grid.len()) as int,
                    ),
                }
            } else {
                solved matches Err(raised) && raised == SudokuError::ValueTooLarge
            },
        },
{
    let board = match board_of(arr) {
        Ok(board) => board,
        Err(error) => {
            return Err(error);
        },
    };
    proof {
        lemma_square_root_of(board.spec_square_size(), board@.len());
    }
    let solved = match simple_solve(&board) {
        Ok(grid) => grid,
        Err(error) => {
            return Err(error);
        },
    };
    assert(within_range(board@));
    let flat = solved.get_rows_flat();
    let ghost n = solved.spec_size() as int;
    let mut cells: Vec<usize> = Vec::new();
    let mut i: usize = 0;
    while i < flat.len()
        invariant
            solved.wf(),
            n == solved.spec_size(),
            flat.len() == n * n,
            forall|r: int, c: int|
                0 <= r < n && 0 <= c < n ==> *flat[r * n + c] == solved.item(r, c),
            i <= flat.len(),
            cells.len() == i,
            forall|j: int| 0 <= j < i ==> cells[j] == *flat[j],
        decreases flat.len() - i,
    {
        cells.push(*flat[i]);
        i = i + 1;
    }
    proof {
        assert(grid_of(cells@, n as nat) =~= solved@) by {
            assert forall|r: int| 0 <= r < n implies #[trigger] grid_of(cells@, n as nat)[r]
                =~= solved@[r] by {
                assert(solved@[r].len() == n);
                assert forall|c: int| 0 <= c < n implies grid_of(cells@, n as nat)[r][c]
                    == solved@[r][c] by {
                    assert(0 <= r * n + c < n * n) by (nonlinear_arith)
                        requires
                            0 <= r < n,
                            0 <= c < n,
                    ;
                    solved.lemma_item_view(r, c);
                    assert(*flat[r * n + c] == solved.item(r, c));
                }
            }
        }
        assert(is_solution(solved@, board.spec_square_size() as int));
        lemma_square_root_of(board.spec_square_size(), n as nat);
        lemma_square_root_of(n as nat, arr@.len());
    }
    Ok(cells)
}

/// Whether a flat list of numbers stands for a puzzle that breaks no rule:
/// no value above the side length, and no value twice in a row, a column or
/// a box.
pub fn is_valid(arr: &[usize]) -> (valid: bool)
    ensures
        valid == (puzzle_of(arr@) matches Ok(grid) && within_range(grid) && is_valid_grid(
            grid,
            root_of(grid.len()) as int,
        )),
{
    match board_of(arr) {
        Ok(board) => {
            let valid = board.is_valid_numerical() && is_valid_sudoku(&board);
            proof {
                lemma_square_root_of(board.spec_square_size(), board@.len());
            }
            valid
        },
        Err(_) => false,
    }
}

} // verus!
