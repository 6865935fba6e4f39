//! The grid: a square container that keeps every cell by row, by column
//! and by box, and writes all three with one call.

use crate::geometry::{
    box_cell_col, box_cell_row, box_index, box_offset, grid_box, grid_col, grid_with,
    is_square_grid, lemma_box_side_positive, lemma_box_to_cell, lemma_cell_to_box, lemma_join,
    lemma_split, views,
};
use crate::types::{PositionalValue, SudokuError};
use crate::validators::{
    integer_root, is_perfect_square, is_square_matrix, is_square_matrix_spec,
    lemma_integer_root_decides,
};
use vstd::prelude::*;

verus! {

/// What a grid can hold in its cells: a value with a mathematical view that
/// can be copied without changing that view.
pub trait CellValue: View + Sized {
    /// A copy with the same view.
    fn duplicate(&self) -> (copy: Self)
        ensures
            copy@ == self@,
    ;
}

impl CellValue for usize {
    fn duplicate(&self) -> (copy: Self) {
        *self
    }
}

/// The rows of a grid.
pub type BoardData<T = usize> = Vec<Vec<T>>;

/// The views of a matrix's items, row by row.
pub open spec fn grid_views<T: View>(data: Seq<Vec<T>>) -> Seq<Seq<T::V>> {
    Seq::new(data.len(), |r: int| views(data[r]@))
}

/// Cell `(r1, c1)` is met before cell `(r2, c2)` when the grid is read row
/// after row.
pub open spec fn comes_before(r1: usize, c1: usize, r2: usize, c2: usize) -> bool {
    r1 < r2 || (r1 == r2 && c1 < c2)
}

/// Some entry of `found` belongs to cell `(r, c)`.
pub open spec fn names_cell<A>(found: Seq<PositionalValue<A>>, r: int, c: int) -> bool {
    exists|i: int| 0 <= i < found.len() && (#[trigger] found[i]).row == r && found[i].col == c
}

/// The outcome of checking the shape of a matrix.
#[derive(Debug, Clone, Copy, PartialEq, Eq, Structural)]
pub enum ValidMatrixOptions {
    NonSquareMatrix,
    NonSquareSize(usize),
    Valid(usize),
}

/// The number that marks an empty cell.
pub const EMPTY_ITEM: usize = 0;

/// The grid of side `n` with no value in it.
pub open spec fn empty_grid(n: nat) -> Seq<Seq<usize>> {
    Seq::new(n, |r: int| Seq::new(n, |c: int| EMPTY_ITEM))
}

/// A square grid that keeps each cell three times: by row, by column and by
/// box. Its view is the grid by rows.
#[derive(Debug)]
pub struct Board<T = usize> {
    size: usize,
    square_size: usize,
    rows: Vec<Vec<T>>,
    cols: Vec<Vec<T>>,
    squares: Vec<Vec<T>>,
}

impl<T: CellValue> View for Board<T> {
    type V = Seq<Seq<T::V>>;

    closed spec fn view(&self) -> Seq<Seq<T::V>> {
        grid_views(self.rows@)
    }
}

fn duplicate_row<T: CellValue>(row: &Vec<T>) -> (copy: Vec<T>)
    ensures
        views(copy@) == views(row@),
{
    let mut copy: Vec<T> = Vec::new();
    let mut i: usize = 0;
    while i < row.len()
        invariant
            i <= row.len(),
            copy.len() == i,
            forall|j: int| 0 <= j < i ==> (#[trigger] copy[j])@ == row[j]@,
        decreases row.len() - i,
    {
        copy.push(row[i].duplicate());
        i = i + 1;
    }
    assert(views(copy@) =~= views(row@));
    copy
}

fn duplicate_matrix<T: CellValue>(data: &Vec<Vec<T>>) -> (copy: Vec<Vec<T>>)
    ensures
        grid_views(copy@) == grid_views(data@),
        copy.len() == data.len(),
        forall|r: int| 0 <= r < data.len() ==> (#[trigger] copy[r]).len() == data[r].len(),
        forall|r: int, c: int|
            0 <= r < data.len() && 0 <= c < data[r].len() ==> (#[trigger] copy[r][c])@
                == data[r][c]@,
{
    let mut copy: Vec<Vec<T>> = Vec::new();
    let mut r: usize = 0;
    while r < data.len()
        invariant
            r <= data.len(),
            copy.len() == r,
            forall|j: int| 0 <= j < r ==> views((#[trigger] copy[j])@) == views(data[j]@),
        decreases data.len() - r,
    {
        copy.push(duplicate_row(&data[r]));
        r = r + 1;
    }
    assert(grid_views(copy@) =~= grid_views(data@));
    assert forall|r: int| 0 <= r < data.len() implies (#[trigger] copy[r]).len()
        == data[r].len() by {
        assert(views(copy[r]@).len() == views(data[r]@).len());
    }
    assert forall|r: int, c: int|
        0 <= r < data.len() && 0 <= c < data[r].len() implies (#[trigger] copy[r][c])@
        == data[r][c]@ by {
        assert(views(copy[r]@)[c] == views(data[r]@)[c]);
    }
    copy
}

/// The cells from `start` up to `end` of row `index`, copied. There are
/// none for a row or a range outside the matrix.
fn get_row_partial<T: CellValue>(
    rows: &Vec<Vec<T>>,
    index: usize,
    start: usize,
    end: usize,
) -> (part: Option<Vec<T>>)
    ensures
        part is Some <==> index < rows.len() && start <= end <= rows[index as int].len(),
        part matches Some(items) ==> items.len() == end - start && forall|j: int|
            0 <= j < end - start ==> (#[trigger] items[j])@ == rows[index as int][start + j]@,
{
    if index >= rows.len() || start > end || end > rows[index].len() {
        return None;
    }
    let row_list = &rows[index];
    let mut items: Vec<T> = Vec::new();
    let mut c: usize = start;
    while c < end
        invariant
            start <= c <= end <= row_list.len(),
            items.len() == c - start,
            forall|j: int| 0 <= j < c - start ==> (#[trigger] items[j])@ == row_list[start + j]@,
        decreases end - c,
    {
        items.push(row_list[c].duplicate());
        c = c + 1;
    }
    Some(items)
}

/// The cells from `start` up to `end` of column `index` of a square matrix,
/// copied from the top down. There are none for a column or a range
/// outside the matrix.
fn get_col_partial<T: CellValue>(
    rows: &Vec<Vec<T>>,
    index: usize,
    start: usize,
    end: usize,
) -> (part: Option<Vec<T>>)
    requires
        is_square_matrix_spec(rows@),
    ensures
        part is Some <==> index < rows.len() && start <= end <= rows.len(),
        part matches Some(items) ==> items.len() == end - start && forall|j: int|
            0 <= j < end - start ==> (#[trigger] items[j])@ == rows[start + j][index as int]@,
{
    let size = rows.len();
    if index >= size || start > end || end > size {
        return None;
    }
    let mut items: Vec<T> = Vec::new();
    let mut r: usize = start;
    while r < end
        invariant
            is_square_matrix_spec(rows@),
            size == rows.len(),
            index < size,
            start <= r <= end <= size,
            items.len() == r - start,
            forall|j: int| 0 <= j < r - start ==> (#[trigger] items[j])@ == rows[start
                + j][index as int]@,
        decreases end - r,
    {
        assert(rows[r as int].len() == size);
        items.push(rows[r][index].duplicate());
        r = r + 1;
    }
    Some(items)
}

/// Box `index` of a square matrix whose boxes have side `square_size`, copied
/// row by row.
fn get_square_cloned<T: CellValue>(
    rows: &Vec<Vec<T>>,
    square_size: usize,
    index: usize,
) -> (square: Vec<T>)
    requires
        is_square_matrix_spec(rows@),
        square_size * square_size == rows.len(),
        index < rows.len(),
    ensures
        square.len() == rows.len(),
        forall|o: int|
            0 <= o < rows.len() ==> (#[trigger] square[o])@ == rows[box_cell_row(
                square_size as int,
                index as int,
                o,
            )][box_cell_col(square_size as int, index as int, o)]@,
{
    let ghost k = square_size as int;
    let ghost b = index as int;
    proof {
        lemma_box_side_positive(k, rows.len() as int);
        lemma_split(k, b);
        lemma_join(k, b / k, 0);
        lemma_join(k, b % k, 0);
    }
    let square_start_y = (index / square_size) * square_size;
    let square_start_x = (index % square_size) * square_size;
    let mut square: Vec<T> = Vec::new();
    let mut i: usize = 0;
    while i < square_size
        invariant
            is_square_matrix_spec(rows@),
            k == square_size,
            b == index,
            0 < k,
            k * k == rows.len(),
            index < rows.len(),
            square_start_y == (b / k) * k,
            square_start_x == (b % k) * k,
            0 <= b / k < k,
            0 <= b % k < k,
            i <= square_size,
            square.len() == i * k,
            forall|o: int|
                0 <= o < i * k ==> (#[trigger] square[o])@ == rows[box_cell_row(
                    k,
                    b,
                    o,
                )][box_cell_col(k, b, o)]@,
        decreases square_size - i,
    {
        proof {
            lemma_join(k, b / k, i as int);
            lemma_join(k, b % k, k - 1);
            assert(rows[square_start_y + i].len() == rows.len());
        }
        let ghost before = square@;
        let mut part = get_row_partial(
            rows,
            square_start_y + i,
            square_start_x,
            square_start_x + square_size,
        ).unwrap();
        let ghost added = part@;
        square.append(&mut part);
        proof {
            assert((i + 1) * k == i * k + k) by (nonlinear_arith);
            assert forall|o: int| 0 <= o < (i + 1) * k implies (#[trigger] square[o])@
                == rows[box_cell_row(k, b, o)][box_cell_col(k, b, o)]@ by {
                if o < i * k {
                    assert(square[o] == before[o]);
                } else {
                    let j = o - i * k;
                    lemma_join(k, i as int, j);
                    assert(square[o] == added[j]);
                    assert(box_cell_row(k, b, o) == square_start_y + i);
                    assert(box_cell_col(k, b, o) == square_start_x + j);
                }
            }
        }
        i = i + 1;
    }
    square
}

impl<T: CellValue> Board<T> {
    /// The side length.
    pub closed spec fn spec_size(&self) -> nat {
        self.size as nat
    }

    /// The side length of a box.
    pub closed spec fn spec_square_size(&self) -> nat {
        self.square_size as nat
    }

    /// The column and box copies agree with the rows.
    pub closed spec fn storage_in_step(&self) -> bool {
        let n = self.size as int;
        let k = self.square_size as int;
        &&& self.rows.len() == n
        &&& self.cols.len() == n
        &&& self.squares.len() == n
        &&& forall|i: int| 0 <= i < n ==> (#[trigger] self.rows[i]).len() == n
        &&& forall|i: int| 0 <= i < n ==> (#[trigger] self.cols[i]).len() == n
        &&& forall|i: int| 0 <= i < n ==> (#[trigger] self.squares[i]).len() == n
        &&& forall|r: int, c: int|
            0 <= r < n && 0 <= c < n ==> (#[trigger] self.cols[c][r])@ == self.rows[r][c]@
        &&& forall|b: int, o: int|
            0 <= b < n && 0 <= o < n ==> (#[trigger] self.squares[b][o])@
                == self.rows[box_cell_row(k, b, o)][box_cell_col(k, b, o)]@
    }

    /// The grid is square, its side is the square of the box side, and the
    /// three copies of every cell agree.
    pub open spec fn wf(&self) -> bool {
        &&& self.storage_in_step()
        &&& self.spec_size() <= usize::MAX
        &&& self.spec_square_size() * self.spec_square_size() == self.spec_size()
        &&& self@.len() == self.spec_size()
        &&& is_square_grid(self@)
    }

    /// Checks that `data` is a square matrix whose side is a perfect square.
    pub fn validate_matrix(data: &Vec<Vec<T>>) -> (shape: ValidMatrixOptions)
        ensures
            !is_square_matrix_spec(data@) ==> shape == ValidMatrixOptions::NonSquareMatrix,
            is_square_matrix_spec(data@) && !is_perfect_square(data.len() as nat) ==> shape
                == ValidMatrixOptions::NonSquareSize(data.len()),
            is_square_matrix_spec(data@) && is_perfect_square(data.len() as nat) ==> shape
                == ValidMatrixOptions::Valid(data.len()),
    {
        if !is_square_matrix(data) {
            return ValidMatrixOptions::NonSquareMatrix;
        }
        let size = data.len();
        let root = integer_root(size);
        proof {
            lemma_integer_root_decides(root as nat, size as nat);
            assert(root * root <= size);
        }
        if root * root != size {
            return ValidMatrixOptions::NonSquareSize(size);
        }
        ValidMatrixOptions::Valid(size)
    }

    /// A grid with the cells of `data`.
    pub fn from(data: &Vec<Vec<T>>) -> (made: Result<Board<T>, SudokuError>)
        ensures
            !is_square_matrix_spec(data@) ==> made == Err::<Board<T>, SudokuError>(
                SudokuError::NotSquareMatrix,
            ),
            is_square_matrix_spec(data@) && !is_perfect_square(data.len() as nat) ==> made
                == Err::<Board<T>, SudokuError>(SudokuError::InvalidSize),
            is_square_matrix_spec(data@) && is_perfect_square(data.len() as nat) ==> made is Ok,
            made matches Ok(board) ==> board.wf() && board.spec_size() == data.len() && board@
                == grid_views(data@),
    {
        match Self::validate_matrix(data) {
            ValidMatrixOptions::NonSquareMatrix => Err(SudokuError::NotSquareMatrix),
            ValidMatrixOptions::NonSquareSize(_) => Err(SudokuError::InvalidSize),
            ValidMatrixOptions::Valid(size) => {
                let square_size = integer_root(size);
                proof {
                    lemma_integer_root_decides(square_size as nat, size as nat);
                }
                Ok(Self::load_data(data, square_size))
            },
        }
    }

    /// Copies `data` and lays it out by row, by column and by box.
    fn load_data(data: &Vec<Vec<T>>, square_size: usize) -> (board: Board<T>)
        requires
            is_square_matrix_spec(data@),
            square_size * square_size == data.len(),
        ensures
            board.wf(),
            board.spec_size() == data.len(),
            board.spec_square_size() == square_size,
            board@ == grid_views(data@),
    {
        let size = data.len();
        let rows = duplicate_matrix(data);
        let mut cols: Vec<Vec<T>> = Vec::new();
        let mut squares: Vec<Vec<T>> = Vec::new();
        let mut i: usize = 0;
        while i < size
            invariant
                size == data.len(),
                size == rows.len(),
                is_square_matrix_spec(rows@),
                square_size * square_size == size,
                i <= size,
                cols.len() == i,
                squares.len() == i,
                forall|c: int| 0 <= c < i ==> (#[trigger] cols[c]).len() == size,
                forall|b: int| 0 <= b < i ==> (#[trigger] squares[b]).len() == size,
                forall|r: int, c: int|
                    0 <= r < size && 0 <= c < i ==> (#[trigger] cols[c][r])@ == rows[r][c]@,
                forall|b: int, o: int|
                    0 <= b < i && 0 <= o < size ==> (#[trigger] squares[b][o])@
                        == rows[box_cell_row(square_size as int, b, o)][box_cell_col(
                        square_size as int,
                        b,
                        o,
                    )]@,
            decreases size - i,
        {
            cols.push(get_col_partial(&rows, i, 0, size).unwrap());
            squares.push(get_square_cloned(&rows, square_size, i));
            i = i + 1;
        }
        let board = Board { size, square_size, rows, cols, squares };
        proof {
            assert(board@ =~= grid_views(data@));
            assert(is_square_grid(board@)) by {
                assert forall|r: int| 0 <= r < board@.len() implies (#[trigger] board@[r]).len()
                    == board@.len() by {
                    assert(board.rows[r].len() == size);
                }
            }
        }
        board
    }

    /// The side length.
    pub fn get_size(&self) -> (size: usize)
        ensures
            size == self.spec_size(),
    {
        self.size
    }

    /// The side length of a box.
    pub fn get_square_size(&self) -> (square_size: usize)
        ensures
            square_size == self.spec_square_size(),
    {
        self.square_size
    }

    /// The cell at `(row, col)`, if there is one.
    pub fn at(&self, row: usize, col: usize) -> (cell: Option<&T>)
        requires
            self.wf(),
        ensures
            cell is Some <==> row < self.spec_size() && col < self.spec_size(),
            cell matches Some(item) ==> item@ == self@[row as int][col as int],
    {
        if row >= self.size || col >= self.size {
            return None;
        }
        assert(self.rows[row as int].len() == self.size);
        Some(&self.rows[row][col])
    }

    /// Row `index`, if there is one.
    pub fn get_row(&self, index: usize) -> (row: Option<&Vec<T>>)
        requires
            self.wf(),
        ensures
            row is Some <==> index < self.spec_size(),
            row matches Some(items) ==> views(items@) == self@[index as int],
    {
        if index >= self.size {
            return None;
        }
        Some(&self.rows[index])
    }

    /// Column `index`, if there is one.
    pub fn get_col(&self, index: usize) -> (col: Option<&Vec<T>>)
        requires
            self.wf(),
        ensures
            col is Some <==> index < self.spec_size(),
            col matches Some(items) ==> views(items@) == grid_col(self@, index as int),
    {
        if index >= self.size {
            return None;
        }
        proof {
            assert(self.cols[index as int].len() == self.size);
            assert(views(self.cols[index as int]@) =~= grid_col(self@, index as int));
        }
        Some(&self.cols[index])
    }

    /// The box in row `s_row` and column `s_col` of the boxes, if there is
    /// one.
    pub fn get_square(&self, s_row: usize, s_col: usize) -> (square: Option<&Vec<T>>)
        requires
            self.wf(),
        ensures
            square is Some <==> s_row < self.spec_square_size() && s_col
                < self.spec_square_size(),
            square matches Some(items) ==> views(items@) == grid_box(
                self@,
                self.spec_square_size() as int,
                s_row * self.spec_square_size() + s_col,
            ),
    {
        if s_row >= self.square_size || s_col >= self.square_size {
            return None;
        }
        proof {
            lemma_join(self.square_size as int, s_row as int, s_col as int);
        }
        let index = s_row * self.square_size + s_col;
        proof {
            self.lemma_square_views(index as int);
        }
        Some(&self.squares[index])
    }

    /// Box `index`, counted row by row, if there is one.
    pub fn get_square_1d(&self, index: usize) -> (square: Option<&Vec<T>>)
        requires
            self.wf(),
        ensures
            square is Some <==> index < self.spec_size(),
            square matches Some(items) ==> views(items@) == grid_box(
                self@,
                self.spec_square_size() as int,
                index as int,
            ),
    {
        if index >= self.size {
            return None;
        }
        proof {
            self.lemma_square_views(index as int);
        }
        Some(&self.squares[index])
    }

    /// The box that holds cell `(row, col)`, if there is such a cell.
    pub fn get_square_of(&self, row: usize, col: usize) -> (square: Option<&Vec<T>>)
        requires
            self.wf(),
        ensures
            square is Some <==> row < self.spec_size() && col < self.spec_size(),
            square matches Some(items) ==> views(items@) == grid_box(
                self@,
                self.spec_square_size() as int,
                box_index(self.spec_square_size() as int, row as int, col as int),
            ),
    {
        if row >= self.size || col >= self.size {
            return None;
        }
        proof {
            lemma_box_side_positive(self.square_size as int, self.size as int);
            lemma_cell_to_box(self.square_size as int, row as int, col as int);
            lemma_split(self.square_size as int, row as int);
            lemma_split(self.square_size as int, col as int);
        }
        let index = (row / self.square_size) * self.square_size + col / self.square_size;
        proof {
            self.lemma_square_views(index as int);
        }
        Some(&self.squares[index])
    }

    /// The stored copy of box `b` shows box `b` of the grid.
    proof fn lemma_square_views(&self, b: int)
        requires
            self.wf(),
            0 <= b < self.spec_size(),
        ensures
            views(self.squares[b]@) == grid_box(self@, self.spec_square_size() as int, b),
    {
        let k = self.square_size as int;
        lemma_box_side_positive(k, self.size as int);
        assert(self.squares[b].len() == self.size);
        assert forall|o: int| 0 <= o < self.size implies views(self.squares[b]@)[o] == grid_box(
            self@,
            k,
            b,
        )[o] by {
            lemma_box_to_cell(k, b, o);
            assert(self.squares[b][o]@ == self.rows[box_cell_row(k, b, o)][box_cell_col(
                k,
                b,
                o,
            )]@);
        }
        assert(views(self.squares[b]@) =~= grid_box(self@, k, b));
    }

    /// The rows of the grid.
    pub fn get_rows(&self) -> (rows: &Vec<Vec<T>>)
        ensures
            grid_views(rows@) == self@,
    {
        &self.rows
    }

    /// Writes `value` into cell `(row, col)`, in the row, the column and the
    /// box that hold it.
    pub fn set(&mut self, row: usize, col: usize, value: T) -> (done: Result<(), SudokuError>)
        requires
            old(self).wf(),
        ensures
            final(self).wf(),
            final(self).spec_size() == old(self).spec_size(),
            final(self).spec_square_size() == old(self).spec_square_size(),
            row < old(self).spec_size() && col < old(self).spec_size() ==> done is Ok
                && final(self)@ == grid_with(old(self)@, row as int, col as int, value@),
            !(row < old(self).spec_size() && col < old(self).spec_size()) ==> done == Err::<
                (),
                SudokuError,
            >(SudokuError::OutOfBounds) && final(self)@ == old(self)@,
    {
        if row >= self.size || col >= self.size {
            return Err(SudokuError::OutOfBounds);
        }
        let ghost k = self.square_size as int;
        let ghost n = self.size as int;
        proof {
            lemma_box_side_positive(k, n);
            lemma_cell_to_box(k, row as int, col as int);
            lemma_split(k, row as int);
            lemma_split(k, col as int);
        }
        let square_size = self.square_size;
        let square_position = (row / square_size) * square_size + col / square_size;
        let inner_square_index = (row % square_size) * square_size + col % square_size;
        assert(square_position == box_index(k, row as int, col as int));
        assert(inner_square_index == box_offset(k, row as int, col as int));
        assert(self.rows[row as int].len() == n);
        assert(self.cols[col as int].len() == n);
        assert(self.squares[square_position as int].len() == n);
        let in_col = value.duplicate();
        let in_square = value.duplicate();
        self.rows[row][col] = value;
        self.cols[col][row] = in_col;
        self.squares[square_position][inner_square_index] = in_square;
        proof {
            assert forall|i: int| 0 <= i < n implies (#[trigger] self.rows[i]).len() == n by {
                assert(old(self).rows[i].len() == n);
            }
            assert forall|i: int| 0 <= i < n implies (#[trigger] self.cols[i]).len() == n by {
                assert(old(self).cols[i].len() == n);
            }
            assert forall|i: int| 0 <= i < n implies (#[trigger] self.squares[i]).len() == n by {
                assert(old(self).squares[i].len() == n);
            }
            assert forall|r: int, c: int| 0 <= r < n && 0 <= c < n implies (
            #[trigger] self.cols[c][r])@ == self.rows[r][c]@ by {
                assert(old(self).cols[c][r]@ == old(self).rows[r][c]@);
                assert(old(self).rows[r].len() == n);
                assert(old(self).cols[c].len() == n);
            }
            assert forall|b: int, o: int| 0 <= b < n && 0 <= o < n implies (
            #[trigger] self.squares[b][o])@ == self.rows[box_cell_row(k, b, o)][box_cell_col(
                k,
                b,
                o,
            )]@ by {
                lemma_box_to_cell(k, b, o);
                let r = box_cell_row(k, b, o);
                let c = box_cell_col(k, b, o);
                assert(old(self).squares[b][o]@ == old(self).rows[r][c]@);
                assert(old(self).rows[r].len() == n);
                assert(old(self).squares[b].len() == n);
            }
            assert(self@ =~= grid_with(old(self)@, row as int, col as int, value@)) by {
                assert forall|r: int| 0 <= r < n implies self@[r] =~= grid_with(
                    old(self)@,
                    row as int,
                    col as int,
                    value@,
                )[r] by {
                    assert(old(self).rows[r].len() == n);
                }
            }
            assert(is_square_grid(self@)) by {
                assert forall|r: int| 0 <= r < self@.len() implies (#[trigger] self@[r]).len()
                    == self@.len() by {
                    assert(self.rows[r].len() == n);
                }
            }
        }
        Ok(())
    }

    /// Writes `value` into the cell at place `s_index` of the box in row
    /// `s_row` and column `s_col` of the boxes.
    pub fn set_inner_square(
        &mut self,
        s_row: usize,
        s_col: usize,
        s_index: usize,
        value: T,
    ) -> (done: Result<(), SudokuError>)
        requires
            old(self).wf(),
        ensures
            final(self).wf(),
            final(self).spec_size() == old(self).spec_size(),
            final(self).spec_square_size() == old(self).spec_square_size(),
            s_row < old(self).spec_square_size() && s_col < old(self).spec_square_size() && s_index
                < old(self).spec_size() ==> done is Ok && final(self)@ == grid_with(
                old(self)@,
                box_cell_row(
                    old(self).spec_square_size() as int,
                    s_row * old(self).spec_square_size() + s_col,
                    s_index as int,
                ),
                box_cell_col(
                    old(self).spec_square_size() as int,
                    s_row * old(self).spec_square_size() + s_col,
                    s_index as int,
                ),
                value@,
            ),
            !(s_row < old(self).spec_square_size() && s_col < old(self).spec_square_size()
                && s_index < old(self).spec_size()) ==> done == Err::<(), SudokuError>(
                SudokuError::OutOfBounds,
            ) && final(self)@ == old(self)@,
    {
        let square_size = self.square_size;
        if s_row >= square_size || s_col >= square_size || s_index >= self.size {
            return Err(SudokuError::OutOfBounds);
        }
        let ghost k = square_size as int;
        proof {
            lemma_join(k, s_row as int, s_col as int);
            lemma_split(k, s_index as int);
            lemma_box_to_cell(k, s_row * k + s_col, s_index as int);
            lemma_join(k, s_row as int, s_index as int / k);
            lemma_join(k, s_col as int, s_index as int % k);
        }
        let inner_row = s_index / square_size;
        let inner_col = s_index % square_size;
        let row = s_row * square_size + inner_row;
        let col = s_col * square_size + inner_col;
        self.set(row, col, value)
    }

    /// The item stored at `(r, c)`.
    pub closed spec fn item(&self, r: int, c: int) -> T {
        self.rows[r][c]
    }

    /// The view of the grid at a cell is the view of the item stored there.
    pub proof fn lemma_item_view(&self, r: int, c: int)
        requires
            self.wf(),
            0 <= r < self.spec_size(),
            0 <= c < self.spec_size(),
        ensures
            self.item(r, c)@ == self@[r][c],
    {
        assert(self.rows[r].len() == self.size);
    }

    /// All cells, row after row.
    pub fn get_rows_flat(&self) -> (flat: Vec<&T>)
        requires
            self.wf(),
        ensures
            flat.len() == self.spec_size() * self.spec_size(),
            forall|r: int, c: int|
                0 <= r < self.spec_size() && 0 <= c < self.spec_size() ==> *flat[r
                    * self.spec_size() + c] == self.item(r, c),
    {
        let size = self.size;
        let ghost n = size as int;
        let mut flat: Vec<&T> = Vec::new();
        let mut row: usize = 0;
        while row < size
            invariant
                self.wf(),
                size == self.size,
                n == size,
                row <= size,
                flat.len() == row * n,
                forall|r: int, c: int|
                    0 <= r < row && 0 <= c < n ==> *flat[r * n + c] == self.rows[r][c],
            decreases size - row,
        {
            let mut col: usize = 0;
            assert(self.rows[row as int].len() == size);
            while col < size
                invariant
                    self.wf(),
                    size == self.size,
                    n == size,
                    row < size,
                    col <= size,
                    self.rows[row as int].len() == size,
                    flat.len() == row * n + col,
                    forall|r: int, c: int|
                        0 <= r < row && 0 <= c < n ==> *flat[r * n + c] == self.rows[r][c],
                    forall|c: int| 0 <= c < col ==> *flat[row * n + c] == self.rows[row as int][c],
                decreases size - col,
            {
                let ghost before = flat@;
                flat.push(&self.rows[row][col]);
                proof {
                    assert forall|r: int, c: int| 0 <= r < row && 0 <= c < n implies *flat[r * n
                        + c] == self.rows[r][c] by {
                        assert(r * n + c < row * n) by (nonlinear_arith)
                            requires
                                0 <= r < row,
                                0 <= c < n,
                        ;
                        assert(*before[r * n + c] == self.rows[r][c]);
                    }
                    assert forall|c: int| 0 <= c < col + 1 implies *flat[row * n + c]
                        == self.rows[row as int][c] by {
                        if c < col {
                            assert(*before[row * n + c] == self.rows[row as int][c]);
                        }
                    }
                }
                col = col + 1;
            }
            proof {
                assert((row + 1) * n == row * n + n) by (nonlinear_arith);
                assert forall|r: int, c: int| 0 <= r < row + 1 && 0 <= c < n implies *flat[r * n
                    + c] == self.rows[r][c] by {
                    if r == row {
                        assert(*flat[row * n + c] == self.rows[row as int][c]);
                    }
                }
            }
            row = row + 1;
        }
        flat
    }

    /// The cells that `predicate` accepts, row after row.
    pub fn filter<P: Fn(&T) -> bool>(&self, predicate: P) -> (found: Vec<PositionalValue<&T>>)
        requires
            self.wf(),
            forall|item: &T| predicate.requires((item,)),
        ensures
            forall|i: int|
                0 <= i < found.len() ==> {
                    let hit = #[trigger] found[i];
                    &&& hit.row < self.spec_size()
                    &&& hit.col < self.spec_size()
                    &&& *hit.value == self.item(hit.row as int, hit.col as int)
                    &&& predicate.ensures((hit.value,), true)
                },
            forall|i: int, j: int|
                0 <= i < j < found.len() ==> comes_before(
                    found[i].row,
                    found[i].col,
                    found[j].row,
                    found[j].col,
                ),
            forall|r: int, c: int|
                0 <= r < self.spec_size() && 0 <= c < self.spec_size() ==> names_cell(found@, r, c)
                    || predicate.ensures((&#[trigger] self.item(r, c),), false),
    {
        let size = self.size;
        let mut found: Vec<PositionalValue<&T>> = Vec::new();
        let mut row: usize = 0;
        while row < size
            invariant
                self.wf(),
                size == self.size,
                row <= size,
                forall|item: &T| predicate.requires((item,)),
                forall|i: int|
                    0 <= i < found.len() ==> {
                        let hit = #[trigger] found[i];
                        &&& hit.row < row
                        &&& hit.col < size
                        &&& *hit.value == self.item(hit.row as int, hit.col as int)
                        &&& predicate.ensures((hit.value,), true)
                    },
                forall|i: int, j: int|
                    0 <= i < j < found.len() ==> comes_before(
                        found[i].row,
                        found[i].col,
                        found[j].row,
                        found[j].col,
                    ),
                forall|r: int, c: int|
                    0 <= r < row && 0 <= c < size ==> names_cell(found@, r, c)
                        || predicate.ensures((&#[trigger] self.item(r, c),), false),
            decreases size - row,
        {
            assert(self.rows[row as int].len() == size);
            let mut col: usize = 0;
            while col < size
                invariant
                    self.wf(),
                    size == self.size,
                    row < size,
                    col <= size,
                    self.rows[row as int].len() == size,
                    forall|item: &T| predicate.requires((item,)),
                    forall|i: int|
                        0 <= i < found.len() ==> {
                            let hit = #[trigger] found[i];
                            &&& comes_before(hit.row, hit.col, row, col)
                            &&& hit.row <= row
                            &&& hit.col < size
                            &&& *hit.value == self.item(hit.row as int, hit.col as int)
                            &&& predicate.ensures((hit.value,), true)
                        },
                    forall|i: int, j: int|
                        0 <= i < j < found.len() ==> comes_before(
                            found[i].row,
                            found[i].col,
                            found[j].row,
                            found[j].col,
                        ),
                    forall|r: int, c: int|
                        0 <= r < size && 0 <= c < size && comes_before(
                            r as usize,
                            c as usize,
                            row,
                            col,
                        )
                            ==> names_cell(found@, r, c) || predicate.ensures(
                            (&#[trigger] self.item(r, c),),
                            false,
                        ),
                decreases size - col,
            {
                let item = &self.rows[row][col];
                let ghost before = found@;
                let accepted = predicate(item);
                assert(*item == self.item(row as int, col as int));
                assert(predicate.ensures((&self.item(row as int, col as int),), accepted));
                if accepted {
                    found.push(PositionalValue { row, col, value: item });
                    proof {
                        let last = before.len() as int;
                        assert(found@[last].row == row && found@[last].col == col);
                        assert forall|r: int, c: int| names_cell(before, r, c) implies names_cell(
                            found@,
                            r,
                            c,
                        ) by {
                            let i = choose|i: int|
                                0 <= i < before.len() && (#[trigger] before[i]).row == r
                                    && before[i].col == c;
                            assert(found@[i] == before[i]);
                        }
                        assert(names_cell(found@, row as int, col as int));
                    }
                }
                proof {
                    assert forall|r: int, c: int|
                        0 <= r < size && 0 <= c < size && comes_before(
                            r as usize,
                            c as usize,
                            row,
                            (col + 1) as usize,
                        ) implies names_cell(found@, r, c) || predicate.ensures(
                        (&#[trigger] self.item(r, c),),
                        false,
                    ) by {
                        if r == row && c == col {
                        } else {
                            assert(comes_before(r as usize, c as usize, row, col));
                            if names_cell(before, r, c) {
                                assert(names_cell(found@, r, c));
                            }
                        }
                    }
                }
                col = col + 1;
            }
            row = row + 1;
        }
        found
    }

    /// The first cell, row after row, that `predicate` accepts.
    pub fn find<P: Fn(&T) -> bool>(&self, predicate: P) -> (found: Option<PositionalValue<&T>>)
        requires
            self.wf(),
            forall|item: &T| predicate.requires((item,)),
        ensures
            found matches Some(hit) ==> {
                &&& hit.row < self.spec_size()
                &&& hit.col < self.spec_size()
                &&& *hit.value == self.item(hit.row as int, hit.col as int)
                &&& predicate.ensures((hit.value,), true)
                &&& forall|r: int, c: int|
                    0 <= r < self.spec_size() && 0 <= c < self.spec_size() && comes_before(
                        r as usize,
                        c as usize,
                        hit.row,
                        hit.col,
                    ) ==> predicate.ensures((&#[trigger] self.item(r, c),), false)
            },
            found is None ==> forall|r: int, c: int|
                0 <= r < self.spec_size() && 0 <= c < self.spec_size() ==> predicate.ensures(
                    (&#[trigger] self.item(r, c),),
                    false,
                ),
    {
        let size = self.size;
        let mut row: usize = 0;
        while row < size
            invariant
                self.wf(),
                size == self.size,
                row <= size,
                forall|item: &T| predicate.requires((item,)),
                forall|r: int, c: int|
                    0 <= r < row && 0 <= c < size ==> predicate.ensures(
                        (&#[trigger] self.item(r, c),),
                        false,
                    ),
            decreases size - row,
        {
            assert(self.rows[row as int].len() == size);
            let mut col: usize = 0;
            while col < size
                invariant
                    self.wf(),
                    size == self.size,
                    row < size,
                    col <= size,
                    self.rows[row as int].len() == size,
                    forall|item: &T| predicate.requires((item,)),
                    forall|r: int, c: int|
                        0 <= r < size && 0 <= c < size && comes_before(
                            r as usize,
                            c as usize,
                            row,
                            col,
                        )
                            ==> predicate.ensures((&#[trigger] self.item(r, c),), false),
                decreases size - col,
            {
                let item = &self.rows[row][col];
                if predicate(item) {
                    return Some(PositionalValue { row, col, value: item });
                }
                col = col + 1;
            }
            row = row + 1;
        }
        None
    }
}

impl<T: CellValue> Clone for Board<T> {
    /// A grid of its own with the same cells.
    fn clone(&self) -> (copy: Self)
        ensures
            copy@ == self@,
            copy.spec_size() == self.spec_size(),
            copy.spec_square_size() == self.spec_square_size(),
            self.wf() ==> copy.wf(),
    {
        let copy = Board {
            size: self.size,
            square_size: self.square_size,
            rows: duplicate_matrix(&self.rows),
            cols: duplicate_matrix(&self.cols),
            squares: duplicate_matrix(&self.squares),
        };
        proof {
            if self.wf() {
                let n = self.size as int;
                let k = self.square_size as int;
                assert forall|r: int, c: int| 0 <= r < n && 0 <= c < n implies (
                #[trigger] copy.cols[c][r])@ == copy.rows[r][c]@ by {
                    assert(self.cols[c][r]@ == self.rows[r][c]@);
                    assert(self.cols[c].len() == n);
                    assert(self.rows[r].len() == n);
                }
                assert forall|b: int, o: int| 0 <= b < n && 0 <= o < n implies (
                #[trigger] copy.squares[b][o])@ == copy.rows[box_cell_row(k, b, o)][box_cell_col(
                    k,
                    b,
                    o,
                )]@ by {
                    lemma_box_side_positive(k, n);
                    lemma_box_to_cell(k, b, o);
                    let r = box_cell_row(k, b, o);
                    let c = box_cell_col(k, b, o);
                    assert(self.squares[b][o]@ == self.rows[r][c]@);
                    assert(self.squares[b].len() == n);
                    assert(self.rows[r].len() == n);
                }
            }
        }
        copy
    }
}

impl Board<usize> {
    /// An empty grid of side `size`.
    pub fn new(size: usize) -> (made: Result<Board<usize>, SudokuError>)
        ensures
            made is Ok <==> is_perfect_square(size as nat),
            made matches Ok(board) ==> board.wf() && board.spec_size() == size && board@
                == empty_grid(size as nat),
            made matches Err(error) ==> error == SudokuError::InvalidSize,
    {
        let mut data: Vec<Vec<usize>> = Vec::new();
        let mut r: usize = 0;
        while r < size
            invariant
                r <= size,
                data.len() == r,
                forall|i: int|
                    0 <= i < r ==> (#[trigger] data[i])@ == Seq::new(
                        size as nat,
                        |c: int| EMPTY_ITEM,
                    ),
            decreases size - r,
        {
            let mut row: Vec<usize> = Vec::new();
            let mut c: usize = 0;
            while c < size
                invariant
                    c <= size,
                    row.len() == c,
                    forall|j: int| 0 <= j < c ==> row[j] == EMPTY_ITEM,
                decreases size - c,
            {
                row.push(EMPTY_ITEM);
                c = c + 1;
            }
            assert(row@ =~= Seq::new(size as nat, |c: int| EMPTY_ITEM));
            data.push(row);
            r = r + 1;
        }
        proof {
            assert(is_square_matrix_spec(data@));
            assert(grid_views(data@) =~= empty_grid(size as nat)) by {
                assert forall|r: int| 0 <= r < size implies grid_views(data@)[r] =~= Seq::new(
                    size as nat,
                    |c: int| EMPTY_ITEM,
                ) by {}
            }
        }
        Board::from(&data)
    }

    /// Whether no cell is empty.
    pub fn is_full(&self) -> (full: bool)
        requires
            self.wf(),
        ensures
            full == forall|r: int, c: int|
                0 <= r < self.spec_size() && 0 <= c < self.spec_size() ==> self@[r][c]
                    != EMPTY_ITEM,
    {
        let size = self.size;
        let mut row: usize = 0;
        while row < size
            invariant
                self.wf(),
                size == self.size,
                row <= size,
                forall|r: int, c: int| 0 <= r < row && 0 <= c < size ==> self@[r][c] != EMPTY_ITEM,
            decreases size - row,
        {
            assert(self.rows[row as int].len() == size);
            let mut col: usize = 0;
            while col < size
                invariant
                    self.wf(),
                    size == self.size,
                    row < size,
                    col <= size,
                    self.rows[row as int].len() == size,
                    forall|r: int, c: int|
                        0 <= r < row && 0 <= c < size ==> self@[r][c] != EMPTY_ITEM,
                    forall|c: int| 0 <= c < col ==> self@[row as int][c] != EMPTY_ITEM,
                decreases size - col,
            {
                if self.rows[row][col] == EMPTY_ITEM {
                    assert(self@[row as int][col as int] == EMPTY_ITEM);
                    return false;
                }
                col = col + 1;
            }
            row = row + 1;
        }
        true
    }

    /// Whether no cell holds a value above the side length.
    pub fn is_valid_numerical(&self) -> (valid: bool)
        requires
            self.wf(),
        ensures
            valid == forall|r: int, c: int|
                0 <= r < self.spec_size() && 0 <= c < self.spec_size() ==> self@[r][c]
                    <= self.spec_size(),
    {
        let size = self.size;
        let mut row: usize = 0;
        while row < size
            invariant
                self.wf(),
                size == self.size,
                row <= size,
                forall|r: int, c: int| 0 <= r < row && 0 <= c < size ==> self@[r][c] <= size,
            decreases size - row,
        {
            assert(self.rows[row as int].len() == size);
            let mut col: usize = 0;
            while col < size
                invariant
                    self.wf(),
                    size == self.size,
                    row < size,
                    col <= size,
                    self.rows[row as int].len() == size,
                    forall|r: int, c: int| 0 <= r < row && 0 <= c < size ==> self@[r][c] <= size,
                    forall|c: int| 0 <= c < col ==> self@[row as int][c] <= size,
                decreases size - col,
            {
                if self.rows[row][col] > size {
                    assert(self@[row as int][col as int] > size);
                    return false;
                }
                col = col + 1;
            }
            row = row + 1;
        }
        true
    }
}

} // verus!
