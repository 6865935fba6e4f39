//! The candidate model: what is known of each cell, and how a grid of
//! numbers is turned into a grid of candidate cells and back.

use crate::board::{grid_views, Board, BoardData, CellValue};
use crate::geometry::{box_index, grid_box, grid_col, views};
use crate::lists::holds;
use crate::types::SudokuError;
use vstd::prelude::*;

verus! {

/// What is known of one cell: its value, or the values it may still take.
#[derive(Debug, PartialEq)]
pub enum AnalyzedCell {
    Value(usize),
    Undetermined(Vec<usize>),
}

/// The mathematical content of an [`AnalyzedCell`].
pub enum CellState {
    Fixed(usize),
    Open(Seq<usize>),
}

/// A grid of candidate cells, by rows.
pub type CandidateGrid = Seq<Seq<CellState>>;

impl View for AnalyzedCell {
    type V = CellState;

    open spec fn view(&self) -> CellState {
        match self {
            AnalyzedCell::Value(value) => CellState::Fixed(*value),
            AnalyzedCell::Undetermined(options) => CellState::Open(options@),
        }
    }
}

impl Clone for AnalyzedCell {
    fn clone(&self) -> (copy: Self)
        ensures
            copy@ == self@,
    {
        match self {
            AnalyzedCell::Value(value) => AnalyzedCell::Value(*value),
            AnalyzedCell::Undetermined(options) => {
                let copy = options.clone();
                assert(copy@ =~= options@);
                AnalyzedCell::Undetermined(copy)
            },
        }
    }
}

impl CellValue for AnalyzedCell {
    fn duplicate(&self) -> (copy: Self) {
        self.clone()
    }
}

impl AnalyzedCell {
    /// Whether the cell has its value.
    pub fn is_value(&self) -> (fixed: bool)
        ensures
            fixed == (self@ is Fixed),
    {
        matches!(self, AnalyzedCell::Value(_))
    }

    /// Whether the cell is still open.
    pub fn is_undetermined(&self) -> (open: bool)
        ensures
            open == (self@ is Open),
    {
        matches!(self, AnalyzedCell::Undetermined(_))
    }

    /// The value of the cell, if it has one.
    pub fn get_value(&self) -> (value: Option<usize>)
        ensures
            value == match self@ {
                CellState::Fixed(v) => Some(v),
                CellState::Open(_) => None,
            },
    {
        match self {
            AnalyzedCell::Value(v) => Some(*v),
            AnalyzedCell::Undetermined(_) => None,
        }
    }

    /// The values the cell may still take, if it is open.
    pub fn get_undetermined(&self) -> (options: Option<&Vec<usize>>)
        ensures
            match self@ {
                CellState::Fixed(_) => options is None,
                CellState::Open(values) => options matches Some(list) && list@ == values,
            },
    {
        match self {
            AnalyzedCell::Value(_) => None,
            AnalyzedCell::Undetermined(values) => Some(values),
        }
    }
}

/// The rows of a grid of candidate cells.
pub type AnalyzedBoardData = BoardData<AnalyzedCell>;

/// A grid of candidate cells.
pub type AnalyzedBoard = Board<AnalyzedCell>;

/// The values `1, 2, .., size`.
pub open spec fn values_up_to(size: nat) -> Seq<usize> {
    Seq::new(size, |i: int| (i + 1) as usize)
}

/// The value that each cell of a group is known to have, `0` where the cell is
/// open.
pub open spec fn known_values(group: Seq<CellState>) -> Seq<usize> {
    Seq::new(
        group.len(),
        |i: int|
            match group[i] {
                CellState::Fixed(value) => value,
                CellState::Open(_) => 0,
            },
    )
}

/// No cell of the row, the column or the box has the value `v`.
pub open spec fn is_free(row: Seq<usize>, col: Seq<usize>, square: Seq<usize>, v: usize) -> bool {
    !row.contains(v) && !col.contains(v) && !square.contains(v)
}

/// The values from `1` to `size`, in rising order, that no cell of the row,
/// the column or the box has.
pub open spec fn free_values(
    size: nat,
    row: Seq<usize>,
    col: Seq<usize>,
    square: Seq<usize>,
) -> Seq<usize> {
    values_up_to(size).filter(|v: usize| is_free(row, col, square, v))
}

/// What a cell becomes when `options` are the values left to it: a
/// contradiction with none, that value with one, an open cell with more.
pub open spec fn narrow(options: Seq<usize>) -> Result<CellState, SudokuError> {
    if options.len() == 0 {
        Err(SudokuError::Contradiction)
    } else if options.len() == 1 {
        Ok(CellState::Fixed(options[0]))
    } else {
        Ok(CellState::Open(options))
    }
}

/// The result of a cell computation, with the cell replaced by its view.
pub open spec fn cell_outcome(
    result: Result<AnalyzedCell, SudokuError>,
) -> Result<CellState, SudokuError> {
    match result {
        Ok(cell) => Ok(cell@),
        Err(error) => Err(error),
    }
}

/// The values from `1` to `size` that occur in none of the three groups.
pub fn free_options(
    size: usize,
    row: &Vec<usize>,
    col: &Vec<usize>,
    square: &Vec<usize>,
) -> (options: Vec<usize>)
    ensures
        options@ == free_values(size as nat, row@, col@, square@),
{
    let ghost keep = |v: usize| is_free(row@, col@, square@, v);
    let mut options: Vec<usize> = Vec::new();
    let mut i: usize = 0;
    proof {
        reveal(Seq::filter);
        assert(values_up_to(0).filter(keep) =~= Seq::<usize>::empty());
    }
    while i < size
        invariant
            i <= size,
            keep == |v: usize| is_free(row@, col@, square@, v),
            options@ == values_up_to(i as nat).filter(keep),
        decreases size - i,
    {
        let v = i + 1;
        proof {
            assert(values_up_to((i + 1) as nat) =~= values_up_to(i as nat).push(v));
            values_up_to(i as nat).lemma_filter_push(v, keep);
        }
        if !holds(row, v) && !holds(col, v) && !holds(square, v) {
            options.push(v);
        }
        i = i + 1;
    }
    options
}

/// What the analysis makes of the options left to a cell.
pub fn narrow_options(options: Vec<usize>) -> (cell: Result<AnalyzedCell, SudokuError>)
    ensures
        cell_outcome(cell) == narrow(options@),
{
    if options.len() == 0 {
        return Err(SudokuError::Contradiction);
    }
    if options.len() == 1 {
        return Ok(AnalyzedCell::Value(options[0]));
    }
    Ok(AnalyzedCell::Undetermined(options))
}

/// What the analysis of cell `(r, c)` of the number grid `g` with boxes of
/// side `k` gives.
pub open spec fn analyze_cell_spec(
    g: Seq<Seq<usize>>,
    k: int,
    r: int,
    c: int,
) -> Result<CellState, SudokuError> {
    if !(0 <= r < g.len() && 0 <= c < g.len()) {
        Err(SudokuError::OutOfBounds)
    } else if g[r][c] > g.len() {
        Err(SudokuError::ValueTooLarge)
    } else if g[r][c] > 0 {
        Ok(CellState::Fixed(g[r][c]))
    } else {
        narrow(free_values(g.len(), g[r], grid_col(g, c), grid_box(g, k, box_index(k, r, c))))
    }
}

/// Analyses one cell of a number grid: a value already there stays; an empty
/// cell gets the values that its row, column and box leave free.
pub fn analyze_cell(
    board: &Board,
    row: usize,
    col: usize,
) -> (cell: Result<AnalyzedCell, SudokuError>)
    requires
        board.wf(),
    ensures
        cell_outcome(cell) == analyze_cell_spec(
            board@,
            board.spec_square_size() as int,
            row as int,
            col as int,
        ),
{
    let size = board.get_size();
    let value = match board.at(row, col) {
        Some(value) => *value,
        None => {
            return Err(SudokuError::OutOfBounds);
        },
    };
    if value > size {
        return Err(SudokuError::ValueTooLarge);
    }
    if value > 0 {
        return Ok(AnalyzedCell::Value(value));
    }
    let row_list = match board.get_row(row) {
        Some(list) => list,
        None => {
            return Err(SudokuError::OutOfBounds);
        },
    };
    let col_list = match board.get_col(col) {
        Some(list) => list,
        None => {
            return Err(SudokuError::OutOfBounds);
        },
    };
    let square_list = match board.get_square_of(row, col) {
        Some(list) => list,
        None => {
            return Err(SudokuError::OutOfBounds);
        },
    };
    proof {
        assert(views(row_list@) =~= row_list@);
        assert(views(col_list@) =~= col_list@);
        assert(views(square_list@) =~= square_list@);
    }
    narrow_options(free_options(size, row_list, col_list, square_list))
}

/// Every cell of the grid has its value.
pub open spec fn all_fixed(g: CandidateGrid) -> bool {
    forall|r: int, c: int| 0 <= r < g.len() && 0 <= c < g[r].len() ==> g[r][c] is Fixed
}

/// The numbers of a candidate grid: the value of each cell that has one, `0`
/// for each open cell.
pub open spec fn grid_numbers(g: CandidateGrid) -> Seq<Seq<usize>> {
    Seq::new(g.len(), |r: int| known_values(g[r]))
}

/// Whether every cell of the grid has its value.
pub fn is_full_board(board: &AnalyzedBoard) -> (full: bool)
    requires
        board.wf(),
    ensures
        full == all_fixed(board@),
{
    let size = board.get_size();
    let rows = board.get_rows();
    let mut row: usize = 0;
    while row < size
        invariant
            board.wf(),
            size == board.spec_size(),
            grid_views(rows@) == board@,
            row <= size,
            forall|r: int, c: int| 0 <= r < row && 0 <= c < size ==> board@[r][c] is Fixed,
        decreases size - row,
    {
        assert(rows@.len() == grid_views(rows@).len());
        assert(views(rows[row as int]@) == board@[row as int]);
        let mut col: usize = 0;
        while col < size
            invariant
                board.wf(),
                size == board.spec_size(),
                grid_views(rows@) == board@,
                row < size,
                rows@.len() == size,
                rows[row as int].len() == size,
                views(rows[row as int]@) == board@[row as int],
                col <= size,
                forall|r: int, c: int| 0 <= r < row && 0 <= c < size ==> board@[r][c] is Fixed,
                forall|c: int| 0 <= c < col ==> board@[row as int][c] is Fixed,
            decreases size - col,
        {
            assert(views(rows[row as int]@)[col as int] == rows[row as int][col as int]@);
            if rows[row][col].is_undetermined() {
                assert(board@[row as int][col as int] is Open);
                return false;
            }
            col = col + 1;
        }
        row = row + 1;
    }
    true
}

/// Writes a candidate grid whose cells all have their values as a grid of
/// numbers. A grid with an open cell cannot be written so.
pub fn to_board(analyzed_board: &AnalyzedBoard) -> (numbers: Result<Board, SudokuError>)
    requires
        analyzed_board.wf(),
    ensures
        all_fixed(analyzed_board@) ==> numbers is Ok,
        !all_fixed(analyzed_board@) ==> numbers == Err::<Board, SudokuError>(
            SudokuError::Undetermined,
        ),
        numbers matches Ok(board) ==> board.wf() && board.spec_size()
            == analyzed_board.spec_size() && board.spec_square_size()
            == analyzed_board.spec_square_size() && board@ == grid_numbers(analyzed_board@),
{
    let size = analyzed_board.get_size();
    let rows = analyzed_board.get_rows();
    let ghost g = analyzed_board@;
    let mut data: Vec<Vec<usize>> = Vec::new();
    let mut row: usize = 0;
    assert(rows@.len() == grid_views(rows@).len());
    while row < size
        invariant
            analyzed_board.wf(),
            g == analyzed_board@,
            size == analyzed_board.spec_size(),
            grid_views(rows@) == g,
            rows@.len() == size,
            row <= size,
            data.len() == row,
            forall|r: int| 0 <= r < row ==> (#[trigger] data[r])@ == known_values(g[r]),
            forall|r: int, c: int| 0 <= r < row && 0 <= c < size ==> g[r][c] is Fixed,
        decreases size - row,
    {
        assert(views(rows[row as int]@) == g[row as int]);
        let mut line: Vec<usize> = Vec::new();
        let mut col: usize = 0;
        while col < size
            invariant
                analyzed_board.wf(),
                g == analyzed_board@,
                size == analyzed_board.spec_size(),
                row < size,
                rows@.len() == size,
                rows[row as int].len() == size,
                views(rows[row as int]@) == g[row as int],
                col <= size,
                line.len() == col,
                forall|c: int|
                    0 <= c < col ==> #[trigger] line[c] == known_values(g[row as int])[c],
                forall|c: int| 0 <= c < col ==> g[row as int][c] is Fixed,
            decreases size - col,
        {
            assert(views(rows[row as int]@)[col as int] == rows[row as int][col as int]@);
            match &rows[row][col] {
                AnalyzedCell::Value(value) => {
                    line.push(*value);
                },
                AnalyzedCell::Undetermined(_) => {
                    assert(g[row as int][col as int] is Open);
                    return Err(SudokuError::Undetermined);
                },
            }
            col = col + 1;
        }
        assert(line@ =~= known_values(g[row as int]));
        data.push(line);
        row = row + 1;
    }
    proof {
        assert(crate::validators::is_square_matrix_spec(data@));
        let k = analyzed_board.spec_square_size();
        assert(k * k == size);
        assert(crate::validators::is_perfect_square(size as nat));
        assert(grid_views(data@) =~= grid_numbers(g)) by {
            assert forall|r: int| 0 <= r < size implies #[trigger] grid_views(data@)[r]
                =~= grid_numbers(g)[r] by {
                assert(views(data[r]@) =~= data[r]@);
            }
        }
    }
    let made = Board::from(&data);
    proof {
        if made is Ok {
            let board = made.unwrap();
            crate::validators::lemma_root_unique(
                board.spec_square_size(),
                analyzed_board.spec_square_size(),
            );
        }
    }
    made
}

/// The first cell, row after row, whose analysis fails, fails with `error`.
pub open spec fn first_failure(g: Seq<Seq<usize>>, k: int, error: SudokuError) -> bool {
    exists|r: int, c: int|
        {
            &&& 0 <= r < g.len()
            &&& 0 <= c < g.len()
            &&& #[trigger] analyze_cell_spec(g, k, r, c) == Err::<CellState, SudokuError>(error)
            &&& forall|r0: int, c0: int|
                0 <= r0 < g.len() && 0 <= c0 < g.len() && (r0 < r || (r0 == r && c0 < c))
                    ==> #[trigger] analyze_cell_spec(g, k, r0, c0) is Ok
        }
}

/// Analyses every cell of a number grid. The analysis fails where that of a
/// cell fails: on a value above the side length, or on an empty cell with no
/// value left.
pub fn analyze_board(board: &Board) -> (analyzed: Result<AnalyzedBoard, SudokuError>)
    requires
        board.wf(),
    ensures
        match analyzed {
            Ok(cells) => {
                &&& cells.wf()
                &&& cells.spec_size() == board.spec_size()
                &&& cells.spec_square_size() == board.spec_square_size()
                &&& forall|r: int, c: int|
                    0 <= r < board.spec_size() && 0 <= c < board.spec_size()
                        ==> #[trigger] analyze_cell_spec(
                        board@,
                        board.spec_square_size() as int,
                        r,
                        c,
                    ) == Ok::<CellState, SudokuError>(cells@[r][c])
            },
            Err(error) => first_failure(board@, board.spec_square_size() as int, error),
        },
        is_filled(board@) ==> (analyzed matches Ok(cells) && all_fixed(cells@) && grid_numbers(
            cells@,
        ) == board@),
{
    let analyzed = analyze_cells(board);
    proof {
        if is_filled(board@) {
            let g = board@;
            let k = board.spec_square_size() as int;
            assert forall|r: int, c: int|
                0 <= r < g.len() && 0 <= c < g.len() implies #[trigger] analyze_cell_spec(
                g,
                k,
                r,
                c,
            ) == Ok::<CellState, SudokuError>(CellState::Fixed(g[r][c])) by {
                assert(1 <= g[r][c] <= g.len());
            }
            match &analyzed {
                Ok(cells) => {
                    assert forall|r: int, c: int|
                        0 <= r < g.len() && 0 <= c < g.len() implies cells@[r][c]
                        == CellState::Fixed(g[r][c]) by {
                        assert(analyze_cell_spec(g, k, r, c) == Ok::<CellState, SudokuError>(
                            cells@[r][c],
                        ));
                    }
                    assert(grid_numbers(cells@) =~= g) by {
                        assert forall|r: int| 0 <= r < g.len() implies #[trigger] grid_numbers(
                            cells@,
                        )[r] =~= g[r] by {
                            assert(cells@[r].len() == g.len());
                            assert(g[r].len() == g.len());
                        }
                    }
                    assert(all_fixed(cells@)) by {
                        assert forall|r: int, c: int|
                            0 <= r < cells@.len() && 0 <= c < cells@[r].len()
                                implies cells@[r][c] is Fixed by {
                            assert(cells@[r].len() == g.len());
                        }
                    }
                },
                Err(error) => {
                    assert(first_failure(g, k, *error));
                },
            }
        }
    }
    analyzed
}

/// Every cell of the grid has a value from `1` to the side length.
pub open spec fn is_filled(g: Seq<Seq<usize>>) -> bool {
    forall|r: int, c: int|
        0 <= r < g.len() && 0 <= c < g.len() ==> 1 <= #[trigger] g[r][c] <= g.len()
}

/// Analyses the cells of a number grid one after the other, row after row.
fn analyze_cells(board: &Board) -> (analyzed: Result<AnalyzedBoard, SudokuError>)
    requires
        board.wf(),
    ensures
        match analyzed {
            Ok(cells) => {
                &&& cells.wf()
                &&& cells.spec_size() == board.spec_size()
                &&& cells.spec_square_size() == board.spec_square_size()
                &&& forall|r: int, c: int|
                    0 <= r < board.spec_size() && 0 <= c < board.spec_size()
                        ==> #[trigger] analyze_cell_spec(
                        board@,
                        board.spec_square_size() as int,
                        r,
                        c,
                    ) == Ok::<CellState, SudokuError>(cells@[r][c])
            },
            Err(error) => first_failure(board@, board.spec_square_size() as int, error),
        },
{
    let size = board.get_size();
    let ghost g = board@;
    let ghost k = board.spec_square_size() as int;
    let mut board_size_data: Vec<Vec<AnalyzedCell>> = Vec::new();
    let mut row: usize = 0;
    while row < size
        invariant
            board.wf(),
            g == board@,
            k == board.spec_square_size(),
            size == board.spec_size(),
            row <= size,
            board_size_data.len() == row,
            forall|r: int| 0 <= r < row ==> (#[trigger] board_size_data[r]).len() == size,
            forall|r: int, c: int|
                0 <= r < row && 0 <= c < size ==> #[trigger] analyze_cell_spec(g, k, r, c) == Ok::<
                    CellState,
                    SudokuError,
                >(board_size_data[r][c]@),
        decreases size - row,
    {
        let mut row_list: Vec<AnalyzedCell> = Vec::new();
        let mut col: usize = 0;
        while col < size
            invariant
                board.wf(),
                g == board@,
                k == board.spec_square_size(),
                size == board.spec_size(),
                row < size,
                col <= size,
                row_list.len() == col,
                board_size_data.len() == row,
                forall|r: int, c: int|
                    0 <= r < row && 0 <= c < size ==> #[trigger] analyze_cell_spec(g, k, r, c)
                        == Ok::<CellState, SudokuError>(board_size_data[r][c]@),
                forall|c: int|
                    0 <= c < col ==> #[trigger] analyze_cell_spec(g, k, row as int, c) == Ok::<
                        CellState,
                        SudokuError,
                    >(row_list[c]@),
            decreases size - col,
        {
            match analyze_cell(board, row, col) {
                Ok(cell) => {
                    row_list.push(cell);
                },
                Err(error) => {
                    proof {
                        assert(analyze_cell_spec(g, k, row as int, col as int) == Err::<
                            CellState,
                            SudokuError,
                        >(error));
                        assert(first_failure(g, k, error));
                    }
                    return Err(error);
                },
            }
            col = col + 1;
        }
        board_size_data.push(row_list);
        row = row + 1;
    }
    proof {
        assert(crate::validators::is_square_matrix_spec(board_size_data@));
        assert(k * k == size);
        assert(crate::validators::is_perfect_square(size as nat));
    }
    let made = Board::from(&board_size_data);
    proof {
        if made is Ok {
            let cells = made.unwrap();
            crate::validators::lemma_root_unique(cells.spec_square_size(), k as nat);
            assert forall|r: int, c: int| 0 <= r < size && 0 <= c < size implies (
            #[trigger] analyze_cell_spec(g, k, r, c)) == Ok::<CellState, SudokuError>(
                cells@[r][c],
            ) by {
                assert(grid_views(board_size_data@)[r][c] == board_size_data[r][c]@);
            }
        }
    }
    made
}

/// The number of open cells in a group.
pub open spec fn open_in(group: Seq<CellState>) -> nat
    decreases group.len(),
{
    if group.len() == 0 {
        0
    } else {
        open_in(group.drop_last()) + if group.last() is Open {
            1nat
        } else {
            0nat
        }
    }
}

/// The number of open cells in a grid.
pub open spec fn open_count(g: CandidateGrid) -> nat
    decreases g.len(),
{
    if g.len() == 0 {
        0
    } else {
        open_count(g.drop_last()) + open_in(g.last())
    }
}

/// The grid `after` has the shape of `before` and keeps every value that
/// `before` has fixed.
pub open spec fn extends(before: CandidateGrid, after: CandidateGrid) -> bool {
    &&& after.len() == before.len()
    &&& forall|r: int| 0 <= r < before.len() ==> (#[trigger] after[r]).len() == before[r].len()
    &&& forall|r: int, c: int|
        0 <= r < before.len() && 0 <= c < before[r].len() && before[r][c] is Fixed
            ==> #[trigger] after[r][c] == before[r][c]
}

/// Replacing one cell of a group changes the number of open cells by what
/// the old and the new cell count.
pub proof fn lemma_open_in_update(group: Seq<CellState>, i: int, state: CellState)
    requires
        0 <= i < group.len(),
    ensures
        open_in(group.update(i, state)) + (if group[i] is Open {
            1nat
        } else {
            0nat
        }) == open_in(group) + (if state is Open {
            1nat
        } else {
            0nat
        }),
    decreases group.len(),
{
    let changed = group.update(i, state);
    if i == group.len() - 1 {
        assert(changed.drop_last() =~= group.drop_last());
    } else {
        assert(changed.drop_last() =~= group.drop_last().update(i, state));
        lemma_open_in_update(group.drop_last(), i, state);
    }
}

/// Replacing one row of a grid changes the number of open cells by what
/// the old and the new row count.
pub proof fn lemma_open_count_update(g: CandidateGrid, r: int, row: Seq<CellState>)
    requires
        0 <= r < g.len(),
    ensures
        open_count(g.update(r, row)) + open_in(g[r]) == open_count(g) + open_in(row),
    decreases g.len(),
{
    let changed = g.update(r, row);
    if r == g.len() - 1 {
        assert(changed.drop_last() =~= g.drop_last());
    } else {
        assert(changed.drop_last() =~= g.drop_last().update(r, row));
        lemma_open_count_update(g.drop_last(), r, row);
    }
}

/// Replacing one cell of a grid changes the number of open cells by what
/// the old and the new cell count.
pub proof fn lemma_open_count_with(g: CandidateGrid, r: int, c: int, state: CellState)
    requires
        0 <= r < g.len(),
        0 <= c < g[r].len(),
    ensures
        open_count(crate::geometry::grid_with(g, r, c, state)) + (if g[r][c] is Open {
            1nat
        } else {
            0nat
        }) == open_count(g) + (if state is Open {
            1nat
        } else {
            0nat
        }),
{
    lemma_open_in_update(g[r], c, state);
    lemma_open_count_update(g, r, g[r].update(c, state));
}

} // verus!
