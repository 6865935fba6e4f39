//! Naked singles: the options of an open cell are recalculated from the
//! fixed cells of its row, column and box, group by group, until nothing
//! changes.

use crate::analyze::{
    extends, free_options, free_values, known_values, lemma_open_count_with, narrow,
    narrow_options, open_count, AnalyzedBoard, AnalyzedCell, CandidateGrid, CellState,
};
use crate::geometry::{
    box_cell_col, box_cell_row, box_index, grid_box, grid_col, grid_with, is_square_grid,
    lemma_box_side_positive, lemma_box_to_cell, lemma_cell_to_box, lemma_split, views,
};
use crate::lists::note_once;
use crate::types::SudokuError;
use vstd::prelude::*;

verus! {

/// The values that the fixed cells around `(r, c)` leave to it, in rising
/// order.
pub open spec fn cell_options(g: CandidateGrid, k: int, r: int, c: int) -> Seq<usize> {
    free_values(
        g.len(),
        known_values(g[r]),
        known_values(grid_col(g, c)),
        known_values(grid_box(g, k, box_index(k, r, c))),
    )
}

/// What recalculating cell `(r, c)` gives: nothing for a cell that has its
/// value, else what its options make of it.
pub open spec fn recalculate_cell_spec(
    g: CandidateGrid,
    k: int,
    r: int,
    c: int,
) -> Result<Option<CellState>, SudokuError> {
    if !(0 <= r < g.len() && 0 <= c < g.len()) {
        Err(SudokuError::OutOfBounds)
    } else if g[r][c] is Fixed {
        Ok(None)
    } else {
        match narrow(cell_options(g, k, r, c)) {
            Ok(cell) => Ok(Some(cell)),
            Err(error) => Err(error),
        }
    }
}

/// The result of a recalculation, with the cell replaced by its view.
pub open spec fn recalculation_outcome(
    result: Result<Option<AnalyzedCell>, SudokuError>,
) -> Result<Option<CellState>, SudokuError> {
    match result {
        Ok(Some(cell)) => Ok(Some(cell@)),
        Ok(None) => Ok(None),
        Err(error) => Err(error),
    }
}

/// How far a run of recalculations has come: the grid as it stands, and the
/// cells that got their value on the way, in the order in which they got it.
pub struct Progress {
    pub grid: CandidateGrid,
    pub changed: Seq<(usize, usize)>,
}

/// Recalculates one cell and writes the outcome into the grid.
pub open spec fn sweep_step(
    k: int,
    from: Progress,
    cell: (usize, usize),
) -> Result<Progress, SudokuError> {
    match recalculate_cell_spec(from.grid, k, cell.0 as int, cell.1 as int) {
        Err(error) => Err(error),
        Ok(None) => Ok(from),
        Ok(Some(state)) => Ok(
            Progress {
                grid: grid_with(from.grid, cell.0 as int, cell.1 as int, state),
                changed: if state is Fixed {
                    from.changed.push(cell)
                } else {
                    from.changed
                },
            },
        ),
    }
}

/// Recalculates the cells of `cells` one after the other, each on the grid
/// that the ones before it left, and stops at the first contradiction.
pub open spec fn sweep(
    k: int,
    from: Progress,
    cells: Seq<(usize, usize)>,
) -> Result<Progress, SudokuError>
    decreases cells.len(),
{
    if cells.len() == 0 {
        Ok(from)
    } else {
        match sweep(k, from, cells.drop_last()) {
            Err(error) => Err(error),
            Ok(reached) => sweep_step(k, reached, cells.last()),
        }
    }
}

/// One more cell of a sweep.
pub proof fn lemma_sweep_next(k: int, from: Progress, cells: Seq<(usize, usize)>, x: int)
    requires
        0 <= x < cells.len(),
    ensures
        sweep(k, from, cells.take(x + 1)) == match sweep(k, from, cells.take(x)) {
            Err(error) => Err(error),
            Ok(reached) => sweep_step(k, reached, cells[x]),
        },
{
    assert(cells.take(x + 1).drop_last() =~= cells.take(x));
    assert(cells.take(x + 1).last() == cells[x]);
}

/// A sweep over two lists of cells is a sweep over the first and then one
/// over the second.
pub proof fn lemma_sweep_append(
    k: int,
    from: Progress,
    first: Seq<(usize, usize)>,
    second: Seq<(usize, usize)>,
)
    ensures
        sweep(k, from, first + second) == match sweep(k, from, first) {
            Err(error) => Err(error),
            Ok(reached) => sweep(k, reached, second),
        },
    decreases second.len(),
{
    if second.len() == 0 {
        assert(first + second =~= first);
    } else {
        assert((first + second).drop_last() =~= first + second.drop_last());
        assert((first + second).last() == second.last());
        lemma_sweep_append(k, from, first, second.drop_last());
    }
}

/// A sweep that fails on the first cells of a list fails on the whole list,
/// and in the same way.
pub proof fn lemma_sweep_fails_on(k: int, from: Progress, cells: Seq<(usize, usize)>, x: int)
    requires
        0 <= x <= cells.len(),
        sweep(k, from, cells.take(x)) is Err,
    ensures
        sweep(k, from, cells) == sweep(k, from, cells.take(x)),
{
    assert(cells =~= cells.take(x) + cells.skip(x));
    lemma_sweep_append(k, from, cells.take(x), cells.skip(x));
}

/// A grid that extends one that extends a third extends the third.
pub proof fn lemma_extends_chain(a: CandidateGrid, b: CandidateGrid, c: CandidateGrid)
    requires
        extends(a, b),
        extends(b, c),
    ensures
        extends(a, c),
{
    assert forall|r: int| 0 <= r < a.len() implies (#[trigger] c[r]).len() == a[r].len() by {
        assert(b[r].len() == a[r].len());
    }
    assert forall|r: int, col: int|
        0 <= r < a.len() && 0 <= col < a[r].len() && a[r][col] is Fixed implies #[trigger] c[r][col]
        == a[r][col] by {
        assert(b[r].len() == a[r].len());
        assert(b[r][col] == a[r][col]);
    }
}

/// One recalculation keeps the shape of the grid and every fixed value, and
/// the open cells that it closes are the ones it adds to the changed ones.
pub proof fn lemma_step_keeps(k: int, from: Progress, cell: (usize, usize))
    requires
        is_square_grid(from.grid),
        sweep_step(k, from, cell) is Ok,
    ensures
        ({
            let to = sweep_step(k, from, cell).unwrap();
            &&& is_square_grid(to.grid)
            &&& extends(from.grid, to.grid)
            &&& from.changed.is_prefix_of(to.changed)
            &&& open_count(to.grid) + to.changed.len() == open_count(from.grid)
                + from.changed.len()
        }),
{
    let to = sweep_step(k, from, cell).unwrap();
    let r = cell.0 as int;
    let c = cell.1 as int;
    match recalculate_cell_spec(from.grid, k, r, c) {
        Ok(Some(state)) => {
            assert(from.grid[r].len() == from.grid.len());
            lemma_open_count_with(from.grid, r, c, state);
            assert(is_square_grid(to.grid)) by {
                assert forall|i: int| 0 <= i < to.grid.len() implies (#[trigger] to.grid[i]).len()
                    == to.grid.len() by {
                    assert(from.grid[i].len() == from.grid.len());
                }
            }
            assert(extends(from.grid, to.grid));
            assert(from.changed.is_prefix_of(to.changed));
        },
        _ => {
            assert(to == from);
            assert(from.changed.is_prefix_of(to.changed));
        },
    }
}

/// A sweep keeps the shape of the grid and every fixed value, and the open
/// cells that it closes are the ones it adds to the changed ones.
pub proof fn lemma_sweep_keeps(k: int, from: Progress, cells: Seq<(usize, usize)>)
    requires
        is_square_grid(from.grid),
        sweep(k, from, cells) is Ok,
    ensures
        ({
            let to = sweep(k, from, cells).unwrap();
            &&& is_square_grid(to.grid)
            &&& extends(from.grid, to.grid)
            &&& from.changed.is_prefix_of(to.changed)
            &&& open_count(to.grid) + to.changed.len() == open_count(from.grid)
                + from.changed.len()
        }),
    decreases cells.len(),
{
    if cells.len() == 0 {
        assert(from.changed.is_prefix_of(from.changed));
    } else {
        let mid = sweep(k, from, cells.drop_last()).unwrap();
        lemma_sweep_keeps(k, from, cells.drop_last());
        lemma_step_keeps(k, mid, cells.last());
        let to = sweep_step(k, mid, cells.last()).unwrap();
        lemma_extends_chain(from.grid, mid.grid, to.grid);
        assert(from.changed.is_prefix_of(to.changed)) by {
            assert(from.changed =~= mid.changed.take(from.changed.len() as int));
            assert(mid.changed =~= to.changed.take(mid.changed.len() as int));
            assert(from.changed =~= to.changed.take(from.changed.len() as int));
        }
    }
}

/// The value that each cell of a group is known to have.
pub fn known_of(group: &Vec<AnalyzedCell>) -> (known: Vec<usize>)
    ensures
        known@ == known_values(views(group@)),
{
    let mut known: Vec<usize> = Vec::new();
    let mut i: usize = 0;
    while i < group.len()
        invariant
            i <= group.len(),
            known.len() == i,
            forall|j: int| 0 <= j < i ==> #[trigger] known[j] == known_values(views(group@))[j],
        decreases group.len() - i,
    {
        let value = match &group[i] {
            AnalyzedCell::Value(value) => *value,
            AnalyzedCell::Undetermined(_) => 0,
        };
        known.push(value);
        i = i + 1;
    }
    assert(known@ =~= known_values(views(group@)));
    known
}

/// Recalculates the options of an open cell from the fixed cells of its row,
/// column and box. A cell that has its value is left alone.
pub fn recalculate_cell(
    board: &AnalyzedBoard,
    row: usize,
    col: usize,
) -> (cell: Result<Option<AnalyzedCell>, SudokuError>)
    requires
        board.wf(),
    ensures
        recalculation_outcome(cell) == recalculate_cell_spec(
            board@,
            board.spec_square_size() as int,
            row as int,
            col as int,
        ),
{
    let size = board.get_size();
    if row >= size || col >= size {
        return Err(SudokuError::OutOfBounds);
    }
    let cell = match board.at(row, col) {
        Some(cell) => cell,
        None => {
            return Err(SudokuError::OutOfBounds);
        },
    };
    if cell.is_value() {
        return Ok(None);
    }
    let rows = match board.get_row(row) {
        Some(list) => known_of(list),
        None => {
            return Err(SudokuError::OutOfBounds);
        },
    };
    let cols = match board.get_col(col) {
        Some(list) => known_of(list),
        None => {
            return Err(SudokuError::OutOfBounds);
        },
    };
    let square = match board.get_square_of(row, col) {
        Some(list) => known_of(list),
        None => {
            return Err(SudokuError::OutOfBounds);
        },
    };
    match narrow_options(free_options(size, &rows, &cols, &square)) {
        Ok(cell) => Ok(Some(cell)),
        Err(error) => Err(error),
    }
}

/// Recalculates one cell in place and notes it in `changed` if it got its
/// value.
fn update_position(
    board: &mut AnalyzedBoard,
    row: usize,
    col: usize,
    changed: &mut Vec<(usize, usize)>,
) -> (has_changed: Result<bool, SudokuError>)
    requires
        old(board).wf(),
    ensures
        final(board).wf(),
        final(board).spec_size() == old(board).spec_size(),
        final(board).spec_square_size() == old(board).spec_square_size(),
        match sweep_step(
            old(board).spec_square_size() as int,
            Progress { grid: old(board)@, changed: old(changed)@ },
            (row, col),
        ) {
            Ok(reached) => has_changed == Ok::<bool, SudokuError>(
                reached.changed.len() > old(changed)@.len(),
            ) && final(board)@ == reached.grid && final(changed)@ == reached.changed,
            Err(error) => has_changed == Err::<bool, SudokuError>(error) && final(board)@
                == old(board)@ && final(changed)@ == old(changed)@,
        },
{
    let new_cell = match recalculate_cell(board, row, col) {
        Ok(cell) => cell,
        Err(error) => {
            return Err(error);
        },
    };
    let mut has_changed = false;
    match new_cell {
        Some(value) => {
            if value.is_value() {
                changed.push((row, col));
                has_changed = true;
            }
            let done = board.set(row, col, value);
            assert(done is Ok);
        },
        None => {},
    }
    Ok(has_changed)
}

/// The cells of a row (`is_row`) or of a column, in order.
pub open spec fn axis_cells(n: nat, axis: usize, is_row: bool) -> Seq<(usize, usize)> {
    Seq::new(
        n,
        |x: int|
            if is_row {
                (axis, x as usize)
            } else {
                (x as usize, axis)
            },
    )
}

/// The cells of box `b`, row by row.
pub open spec fn box_cells(k: int, n: nat, b: int) -> Seq<(usize, usize)> {
    Seq::new(n, |o: int| (box_cell_row(k, b, o) as usize, box_cell_col(k, b, o) as usize))
}

/// All cells of a grid of side `n`, row after row.
pub open spec fn all_cells(n: nat) -> Seq<(usize, usize)> {
    Seq::new(n * n, |i: int| ((i / n as int) as usize, (i % n as int) as usize))
}

/// What a run that starts at `from` and visits `cells` leaves in `board` and
/// `changed`, if it ends well.
pub open spec fn reached(
    run: Result<Progress, SudokuError>,
    done: Result<(), SudokuError>,
    board: CandidateGrid,
    changed: Seq<(usize, usize)>,
) -> bool {
    match run {
        Ok(to) => done is Ok && board == to.grid && changed == to.changed,
        Err(error) => done == Err::<(), SudokuError>(error),
    }
}

/// Recalculates the cells of one row or column in place.
fn sweep_axis(
    board: &mut AnalyzedBoard,
    axis: usize,
    is_row: bool,
    changed: &mut Vec<(usize, usize)>,
) -> (done: Result<(), SudokuError>)
    requires
        old(board).wf(),
    ensures
        final(board).wf(),
        final(board).spec_size() == old(board).spec_size(),
        final(board).spec_square_size() == old(board).spec_square_size(),
        reached(
            sweep(
                old(board).spec_square_size() as int,
                Progress { grid: old(board)@, changed: old(changed)@ },
                axis_cells(old(board).spec_size(), axis, is_row),
            ),
            done,
            final(board)@,
            final(changed)@,
        ),
{
    let size = board.get_size();
    let ghost k = board.spec_square_size() as int;
    let ghost from = Progress { grid: board@, changed: changed@ };
    let ghost cells = axis_cells(size as nat, axis, is_row);
    let mut x: usize = 0;
    while x < size
        invariant
            board.wf(),
            board.spec_size() == size,
            board.spec_square_size() == k,
            size == old(board).spec_size(),
            k == old(board).spec_square_size(),
            from == (Progress { grid: old(board)@, changed: old(changed)@ }),
            cells == axis_cells(size as nat, axis, is_row),
            x <= size,
            sweep(k, from, cells.take(x as int)) == Ok::<Progress, SudokuError>(
                Progress { grid: board@, changed: changed@ },
            ),
        decreases size - x,
    {
        proof {
            lemma_sweep_next(k, from, cells, x as int);
        }
        let step = if is_row {
            update_position(board, axis, x, changed)
        } else {
            update_position(board, x, axis, changed)
        };
        match step {
            Ok(_) => {},
            Err(error) => {
                proof {
                    lemma_sweep_fails_on(k, from, cells, x as int + 1);
                }
                return Err(error);
            },
        }
        x = x + 1;
    }
    assert(cells.take(size as int) =~= cells);
    Ok(())
}

/// Recalculates the cells of box `index` in place.
fn sweep_square(
    board: &mut AnalyzedBoard,
    index: usize,
    changed: &mut Vec<(usize, usize)>,
) -> (done: Result<(), SudokuError>)
    requires
        old(board).wf(),
        index < old(board).spec_size(),
    ensures
        final(board).wf(),
        final(board).spec_size() == old(board).spec_size(),
        final(board).spec_square_size() == old(board).spec_square_size(),
        reached(
            sweep(
                old(board).spec_square_size() as int,
                Progress { grid: old(board)@, changed: old(changed)@ },
                box_cells(
                    old(board).spec_square_size() as int,
                    old(board).spec_size(),
                    index as int,
                ),
            ),
            done,
            final(board)@,
            final(changed)@,
        ),
{
    let size = board.get_size();
    let square_size = board.get_square_size();
    let ghost k = square_size as int;
    let ghost from = Progress { grid: board@, changed: changed@ };
    let ghost cells = box_cells(k, size as nat, index as int);
    proof {
        lemma_box_side_positive(k, size as int);
        lemma_split(k, index as int);
        crate::geometry::lemma_join(k, index as int / k, 0);
        crate::geometry::lemma_join(k, index as int % k, 0);
    }
    let top = (index / square_size) * square_size;
    let left = (index % square_size) * square_size;
    let mut o: usize = 0;
    while o < size
        invariant
            board.wf(),
            board.spec_size() == size,
            board.spec_square_size() == k,
            size == old(board).spec_size(),
            k == old(board).spec_square_size(),
            from == (Progress { grid: old(board)@, changed: old(changed)@ }),
            k == square_size,
            0 < k,
            index < size,
            top == (index as int / k) * k,
            left == (index as int % k) * k,
            cells == box_cells(k, size as nat, index as int),
            o <= size,
            sweep(k, from, cells.take(o as int)) == Ok::<Progress, SudokuError>(
                Progress { grid: board@, changed: changed@ },
            ),
        decreases size - o,
    {
        proof {
            lemma_sweep_next(k, from, cells, o as int);
            lemma_box_to_cell(k, index as int, o as int);
            lemma_split(k, o as int);
        }
        let row = top + o / square_size;
        let col = left + o % square_size;
        match update_position(board, row, col, changed) {
            Ok(_) => {},
            Err(error) => {
                proof {
                    lemma_sweep_fails_on(k, from, cells, o as int + 1);
                }
                return Err(error);
            },
        }
        o = o + 1;
    }
    assert(cells.take(size as int) =~= cells);
    Ok(())
}

/// Recalculates every cell in place, row after row.
fn sweep_all(
    board: &mut AnalyzedBoard,
    changed: &mut Vec<(usize, usize)>,
) -> (done: Result<(), SudokuError>)
    requires
        old(board).wf(),
    ensures
        final(board).wf(),
        final(board).spec_size() == old(board).spec_size(),
        final(board).spec_square_size() == old(board).spec_square_size(),
        reached(
            sweep(
                old(board).spec_square_size() as int,
                Progress { grid: old(board)@, changed: old(changed)@ },
                all_cells(old(board).spec_size()),
            ),
            done,
            final(board)@,
            final(changed)@,
        ),
{
    let size = board.get_size();
    let ghost n = size as int;
    let ghost k = board.spec_square_size() as int;
    let ghost from = Progress { grid: board@, changed: changed@ };
    let ghost cells = all_cells(size as nat);
    let mut row: usize = 0;
    while row < size
        invariant
            board.wf(),
            board.spec_size() == size,
            board.spec_square_size() == k,
            size == old(board).spec_size(),
            k == old(board).spec_square_size(),
            from == (Progress { grid: old(board)@, changed: old(changed)@ }),
            n == size,
            cells == all_cells(size as nat),
            row <= size,
            sweep(k, from, cells.take(row * n)) == Ok::<Progress, SudokuError>(
                Progress { grid: board@, changed: changed@ },
            ),
        decreases size - row,
    {
        let mut col: usize = 0;
        while col < size
            invariant
                board.wf(),
                board.spec_size() == size,
                board.spec_square_size() == k,
                size == old(board).spec_size(),
                k == old(board).spec_square_size(),
                from == (Progress { grid: old(board)@, changed: old(changed)@ }),
                n == size,
                cells == all_cells(size as nat),
                row < size,
                col <= size,
                sweep(k, from, cells.take(row * n + col)) == Ok::<Progress, SudokuError>(
                    Progress { grid: board@, changed: changed@ },
                ),
            decreases size - col,
        {
            proof {
                let i = row * n + col;
                assert(0 <= i < n * n) by (nonlinear_arith)
                    requires
                        0 <= row < n,
                        0 <= col < n,
                        i == row * n + col,
                ;
                vstd::arithmetic::div_mod::lemma_fundamental_div_mod_converse(
                    i,
                    n,
                    row as int,
                    col as int,
                );
                lemma_sweep_next(k, from, cells, i);
            }
            match update_position(board, row, col, changed) {
                Ok(_) => {},
                Err(error) => {
                    proof {
                        lemma_sweep_fails_on(k, from, cells, row * n + col + 1);
                    }
                    return Err(error);
                },
            }
            col = col + 1;
        }
        proof {
            assert((row + 1) * n == row * n + n) by (nonlinear_arith);
        }
        row = row + 1;
    }
    assert(cells.take(n * n) =~= cells);
    Ok(())
}

/// Every position of the list names a cell of a grid of side `n`.
pub open spec fn all_in_range(n: nat, positions: Seq<(usize, usize)>) -> bool {
    forall|j: int|
        0 <= j < positions.len() ==> (#[trigger] positions[j]).0 < n && positions[j].1 < n
}

/// Some position of the list lies in row `r`.
pub open spec fn names_row(positions: Seq<(usize, usize)>, r: usize) -> bool {
    exists|j: int| 0 <= j < positions.len() && (#[trigger] positions[j]).0 == r
}

/// Some position of the list lies in column `c`.
pub open spec fn names_col(positions: Seq<(usize, usize)>, c: usize) -> bool {
    exists|j: int| 0 <= j < positions.len() && (#[trigger] positions[j]).1 == c
}

/// Some position of the list lies in box `b`.
pub open spec fn names_box(k: int, positions: Seq<(usize, usize)>, b: int) -> bool {
    exists|j: int|
        0 <= j < positions.len() && box_index(
            k,
            (#[trigger] positions[j]).0 as int,
            positions[j].1 as int,
        ) == b
}

/// The box of a position.
pub open spec fn box_of(k: int, at: (usize, usize)) -> int {
    box_index(k, at.0 as int, at.1 as int)
}

/// The row, the column and the box of the cell `at`, each only if asked for.
pub open spec fn group_cells(
    k: int,
    n: nat,
    at: (usize, usize),
    with_row: bool,
    with_col: bool,
    with_box: bool,
) -> Seq<(usize, usize)> {
    (if with_row {
        axis_cells(n, at.0, true)
    } else {
        Seq::empty()
    }) + (if with_col {
        axis_cells(n, at.1, false)
    } else {
        Seq::empty()
    }) + (if with_box {
        box_cells(k, n, box_of(k, at))
    } else {
        Seq::empty()
    })
}

/// The cells that the position `at` brings in: its row, its column and its
/// box, each unless a position of `before` has brought it in already.
pub open spec fn fresh_cells(
    k: int,
    n: nat,
    before: Seq<(usize, usize)>,
    at: (usize, usize),
) -> Seq<(usize, usize)> {
    group_cells(
        k,
        n,
        at,
        !names_row(before, at.0),
        !names_col(before, at.1),
        !names_box(k, before, box_of(k, at)),
    )
}

/// The cells to recalculate after the cells at `positions` have changed, in
/// the order in which they are visited: the rows, columns and boxes of the
/// positions, each group once.
pub open spec fn touched_cells(
    k: int,
    n: nat,
    positions: Seq<(usize, usize)>,
) -> Seq<(usize, usize)>
    decreases positions.len(),
{
    if positions.len() == 0 {
        Seq::empty()
    } else {
        touched_cells(k, n, positions.drop_last()) + fresh_cells(
            k,
            n,
            positions.drop_last(),
            positions.last(),
        )
    }
}

/// One pass over the groups of `positions`: every cell in them is
/// recalculated once per group that holds it.
pub open spec fn pass(
    k: int,
    g: CandidateGrid,
    positions: Seq<(usize, usize)>,
) -> Result<Progress, SudokuError> {
    if !all_in_range(g.len(), positions) {
        Err(SudokuError::OutOfBounds)
    } else {
        sweep(k, Progress { grid: g, changed: Seq::empty() }, touched_cells(k, g.len(), positions))
    }
}

/// A pass closes as many open cells as it reports.
pub proof fn lemma_pass_keeps(k: int, g: CandidateGrid, positions: Seq<(usize, usize)>)
    requires
        is_square_grid(g),
        pass(k, g, positions) is Ok,
    ensures
        ({
            let to = pass(k, g, positions).unwrap();
            &&& is_square_grid(to.grid)
            &&& extends(g, to.grid)
            &&& open_count(to.grid) + to.changed.len() == open_count(g)
        }),
{
    lemma_sweep_keeps(
        k,
        Progress { grid: g, changed: Seq::empty() },
        touched_cells(k, g.len(), positions),
    );
}

/// Passes repeated until one changes nothing: each pass visits the groups of
/// the cells that the pass before it has changed. The changed cells of all
/// passes are reported, in order.
pub open spec fn settle(
    k: int,
    g: CandidateGrid,
    positions: Seq<(usize, usize)>,
) -> Result<Progress, SudokuError>
    decreases open_count(g), positions.len(),
    when is_square_grid(g)
    via settle_decreases
{
    if positions.len() == 0 {
        Ok(Progress { grid: g, changed: Seq::empty() })
    } else {
        match pass(k, g, positions) {
            Err(error) => Err(error),
            Ok(once) => match settle(k, once.grid, once.changed) {
                Err(error) => Err(error),
                Ok(rest) => Ok(Progress { grid: rest.grid, changed: once.changed + rest.changed }),
            },
        }
    }
}

#[via_fn]
proof fn settle_decreases(k: int, g: CandidateGrid, positions: Seq<(usize, usize)>) {
    if positions.len() != 0 {
        if pass(k, g, positions) is Ok {
            lemma_pass_keeps(k, g, positions);
        }
    }
}

/// The cells touched by the first positions of a list are the first cells
/// touched by the whole list.
pub proof fn lemma_touched_prefix(k: int, n: nat, positions: Seq<(usize, usize)>, i: int)
    requires
        0 <= i <= positions.len(),
    ensures
        touched_cells(k, n, positions.take(i)).is_prefix_of(touched_cells(k, n, positions)),
    decreases positions.len() - i,
{
    let whole = touched_cells(k, n, positions);
    if i == positions.len() {
        assert(positions.take(i) =~= positions);
        assert(whole.is_prefix_of(whole));
    } else {
        let short = touched_cells(k, n, positions.take(i));
        let longer = touched_cells(k, n, positions.take(i + 1));
        assert(positions.take(i + 1).drop_last() =~= positions.take(i));
        lemma_touched_prefix(k, n, positions, i + 1);
        assert(short.is_prefix_of(longer));
        assert(short =~= whole.subrange(0, short.len() as int)) by {
            assert(longer =~= whole.subrange(0, longer.len() as int));
            assert(short =~= longer.subrange(0, short.len() as int));
        }
    }
}

/// A sweep that fails on the first cells touched fails on all of them, and
/// in the same way.
pub proof fn lemma_sweep_fails_early(
    k: int,
    from: Progress,
    head: Seq<(usize, usize)>,
    whole: Seq<(usize, usize)>,
)
    requires
        head.is_prefix_of(whole),
        sweep(k, from, head) is Err,
    ensures
        sweep(k, from, whole) == sweep(k, from, head),
{
    assert(whole.take(head.len() as int) =~= head);
    lemma_sweep_fails_on(k, from, whole, head.len() as int);
}

/// The groups named by one more position.
pub proof fn lemma_names_next(k: int, positions: Seq<(usize, usize)>, i: int)
    requires
        0 <= i < positions.len(),
    ensures
        forall|r: usize|
            names_row(positions.take(i + 1), r) <==> names_row(positions.take(i), r)
                || positions[i].0 == r,
        forall|c: usize|
            names_col(positions.take(i + 1), c) <==> names_col(positions.take(i), c)
                || positions[i].1 == c,
        forall|b: int|
            names_box(k, positions.take(i + 1), b) <==> names_box(k, positions.take(i), b)
                || box_of(k, positions[i]) == b,
{
    let short = positions.take(i);
    let longer = positions.take(i + 1);
    assert(longer[i] == positions[i]);
    assert forall|r: usize| names_row(longer, r) <==> names_row(short, r) || positions[i].0
        == r by {
        if names_row(short, r) {
            let j = choose|j: int| 0 <= j < short.len() && (#[trigger] short[j]).0 == r;
            assert(longer[j] == short[j]);
        }
        if names_row(longer, r) {
            let j = choose|j: int| 0 <= j < longer.len() && (#[trigger] longer[j]).0 == r;
            if j < i {
                assert(short[j] == longer[j]);
            }
        }
    }
    assert forall|c: usize| names_col(longer, c) <==> names_col(short, c) || positions[i].1
        == c by {
        if names_col(short, c) {
            let j = choose|j: int| 0 <= j < short.len() && (#[trigger] short[j]).1 == c;
            assert(longer[j] == short[j]);
        }
        if names_col(longer, c) {
            let j = choose|j: int| 0 <= j < longer.len() && (#[trigger] longer[j]).1 == c;
            if j < i {
                assert(short[j] == longer[j]);
            }
        }
    }
    assert forall|b: int| names_box(k, longer, b) <==> names_box(k, short, b) || box_of(
        k,
        positions[i],
    ) == b by {
        if names_box(k, short, b) {
            let j = choose|j: int|
                0 <= j < short.len() && box_index(
                    k,
                    (#[trigger] short[j]).0 as int,
                    short[j].1 as int,
                ) == b;
            assert(longer[j] == short[j]);
        }
        if names_box(k, longer, b) {
            let j = choose|j: int|
                0 <= j < longer.len() && box_index(
                    k,
                    (#[trigger] longer[j]).0 as int,
                    longer[j].1 as int,
                ) == b;
            if j < i {
                assert(short[j] == longer[j]);
            }
        }
    }
}

/// Whether every position names a cell of a grid of side `size`.
pub fn positions_in_range(size: usize, positions: &Vec<(usize, usize)>) -> (inside: bool)
    ensures
        inside == all_in_range(size as nat, positions@),
{
    let mut j: usize = 0;
    while j < positions.len()
        invariant
            j <= positions.len(),
            forall|i: int|
                0 <= i < j ==> (#[trigger] positions[i]).0 < size && positions[i].1 < size,
        decreases positions.len() - j,
    {
        if positions[j].0 >= size || positions[j].1 >= size {
            return false;
        }
        j = j + 1;
    }
    true
}

/// Recalculates in place the row, the column and the box of a cell, each
/// only if asked for.
fn sweep_groups(
    board: &mut AnalyzedBoard,
    row: usize,
    col: usize,
    with_row: bool,
    with_col: bool,
    with_box: bool,
    changed: &mut Vec<(usize, usize)>,
) -> (done: Result<(), SudokuError>)
    requires
        old(board).wf(),
        row < old(board).spec_size(),
        col < old(board).spec_size(),
    ensures
        final(board).wf(),
        final(board).spec_size() == old(board).spec_size(),
        final(board).spec_square_size() == old(board).spec_square_size(),
        reached(
            sweep(
                old(board).spec_square_size() as int,
                Progress { grid: old(board)@, changed: old(changed)@ },
                group_cells(
                    old(board).spec_square_size() as int,
                    old(board).spec_size(),
                    (row, col),
                    with_row,
                    with_col,
                    with_box,
                ),
            ),
            done,
            final(board)@,
            final(changed)@,
        ),
{
    let size = board.get_size();
    let square_size = board.get_square_size();
    let ghost k = square_size as int;
    let ghost n = size as nat;
    let ghost start = Progress { grid: board@, changed: changed@ };
    let ghost in_row = if with_row {
        axis_cells(n, row, true)
    } else {
        Seq::<(usize, usize)>::empty()
    };
    let ghost in_col = if with_col {
        axis_cells(n, col, false)
    } else {
        Seq::<(usize, usize)>::empty()
    };
    let ghost in_box = if with_box {
        box_cells(k, n, box_of(k, (row, col)))
    } else {
        Seq::<(usize, usize)>::empty()
    };
    proof {
        lemma_sweep_append(k, start, in_row + in_col, in_box);
        lemma_sweep_append(k, start, in_row, in_col);
        lemma_box_side_positive(k, size as int);
        lemma_cell_to_box(k, row as int, col as int);
        lemma_split(k, row as int);
        lemma_split(k, col as int);
    }
    if with_row {
        match sweep_axis(board, row, true, changed) {
            Ok(()) => {},
            Err(error) => {
                return Err(error);
            },
        }
    }
    let ghost after_row = Progress { grid: board@, changed: changed@ };
    assert(sweep(k, start, in_row) == Ok::<Progress, SudokuError>(after_row));
    if with_col {
        match sweep_axis(board, col, false, changed) {
            Ok(()) => {},
            Err(error) => {
                return Err(error);
            },
        }
    }
    let ghost after_col = Progress { grid: board@, changed: changed@ };
    assert(sweep(k, after_row, in_col) == Ok::<Progress, SudokuError>(after_col));
    if with_box {
        let square_index = (row / square_size) * square_size + col / square_size;
        match sweep_square(board, square_index, changed) {
            Ok(()) => {},
            Err(error) => {
                return Err(error);
            },
        }
    }
    Ok(())
}

/// One pass in place over the rows, columns and boxes of `positions`.
fn _update_positions(
    board: &mut AnalyzedBoard,
    positions: &Vec<(usize, usize)>,
) -> (changed: Result<Vec<(usize, usize)>, SudokuError>)
    requires
        old(board).wf(),
    ensures
        final(board).wf(),
        final(board).spec_size() == old(board).spec_size(),
        final(board).spec_square_size() == old(board).spec_square_size(),
        match pass(old(board).spec_square_size() as int, old(board)@, positions@) {
            Ok(to) => changed matches Ok(list) && list@ == to.changed && final(board)@ == to.grid,
            Err(error) => changed matches Err(found) && found == error,
        },
{
    let size = board.get_size();
    let square_size = board.get_square_size();
    let ghost k = square_size as int;
    let ghost n = size as nat;
    let ghost from = Progress { grid: board@, changed: Seq::empty() };
    let ghost whole = touched_cells(k, n, positions@);
    if !positions_in_range(size, positions) {
        return Err(SudokuError::OutOfBounds);
    }
    let mut checked_rows: Vec<usize> = Vec::new();
    let mut checked_cols: Vec<usize> = Vec::new();
    let mut checked_squares: Vec<usize> = Vec::new();
    let mut changed_positions: Vec<(usize, usize)> = Vec::new();
    let mut i: usize = 0;
    while i < positions.len()
        invariant
            board.wf(),
            board.spec_size() == size,
            board.spec_square_size() == square_size,
            size == old(board).spec_size(),
            square_size == old(board).spec_square_size(),
            k == square_size,
            n == size,
            from == (Progress { grid: old(board)@, changed: Seq::empty() }),
            whole == touched_cells(k, n, positions@),
            all_in_range(n, positions@),
            old(board)@.len() == n,
            i <= positions.len(),
            forall|r: usize| checked_rows@.contains(r) <==> names_row(positions@.take(i as int), r),
            forall|c: usize| checked_cols@.contains(c) <==> names_col(positions@.take(i as int), c),
            forall|b: usize|
                checked_squares@.contains(b) <==> names_box(k, positions@.take(i as int), b as int),
            sweep(k, from, touched_cells(k, n, positions@.take(i as int))) == Ok::<
                Progress,
                SudokuError,
            >(Progress { grid: board@, changed: changed_positions@ }),
        decreases positions.len() - i,
    {
        let row = positions[i].0;
        let col = positions[i].1;
        let ghost before = positions@.take(i as int);
        let ghost at = positions@[i as int];
        let ghost longer = touched_cells(k, n, positions@.take(i + 1));
        proof {
            assert(positions@.take(i + 1).drop_last() =~= before);
            assert(positions@.take(i + 1).last() == at);
            assert(longer == touched_cells(k, n, before) + fresh_cells(k, n, before, at));
            lemma_touched_prefix(k, n, positions@, i + 1);
            lemma_names_next(k, positions@, i as int);
            lemma_sweep_append(k, from, touched_cells(k, n, before), fresh_cells(k, n, before, at));
            lemma_box_side_positive(k, size as int);
            lemma_cell_to_box(k, row as int, col as int);
            lemma_split(k, row as int);
            lemma_split(k, col as int);
        }
        let square_index = (row / square_size) * square_size + col / square_size;
        assert(square_index == box_of(k, at));
        let with_row = note_once(&mut checked_rows, row);
        let with_col = note_once(&mut checked_cols, col);
        let with_box = note_once(&mut checked_squares, square_index);
        match sweep_groups(board, row, col, with_row, with_col, with_box, &mut changed_positions) {
            Ok(()) => {},
            Err(error) => {
                proof {
                    assert(sweep(k, from, longer) == Err::<Progress, SudokuError>(error));
                    lemma_sweep_fails_early(k, from, longer, whole);
                }
                return Err(error);
            },
        }
        proof {
            assert forall|b: usize| checked_squares@.contains(b) <==> names_box(
                k,
                positions@.take(i + 1),
                b as int,
            ) by {
                assert(names_box(k, positions@.take(i + 1), b as int) <==> names_box(
                    k,
                    before,
                    b as int,
                ) || box_of(k, at) == b as int);
            }
        }
        i = i + 1;
    }
    assert(positions@.take(positions.len() as int) =~= positions@);
    Ok(changed_positions)
}

/// Adds the positions of `more` to the end of `list`.
pub fn append_positions(list: &mut Vec<(usize, usize)>, more: &Vec<(usize, usize)>)
    ensures
        final(list)@ == old(list)@ + more@,
{
    let mut i: usize = 0;
    while i < more.len()
        invariant
            i <= more.len(),
            list@ == old(list)@ + more@.take(i as int),
        decreases more.len() - i,
    {
        list.push(more[i]);
        assert(list@ =~= old(list)@ + more@.take(i + 1));
        i = i + 1;
    }
    assert(more@.take(more.len() as int) =~= more@);
}

/// Passes in place until one changes nothing.
pub(crate) fn settle_in_place(
    board: &mut AnalyzedBoard,
    positions: &Vec<(usize, usize)>,
) -> (changed: Result<Vec<(usize, usize)>, SudokuError>)
    requires
        old(board).wf(),
    ensures
        final(board).wf(),
        final(board).spec_size() == old(board).spec_size(),
        final(board).spec_square_size() == old(board).spec_square_size(),
        match settle(old(board).spec_square_size() as int, old(board)@, positions@) {
            Ok(to) => changed matches Ok(list) && list@ == to.changed && final(board)@ == to.grid,
            Err(error) => changed matches Err(found) && found == error,
        },
{
    let ghost k = board.spec_square_size() as int;
    let ghost whole = settle(k, board@, positions@);
    let mut all_positions: Vec<(usize, usize)> = Vec::new();
    let mut curr_positions: Vec<(usize, usize)> = Vec::new();
    append_positions(&mut curr_positions, positions);
    assert(curr_positions@ =~= positions@);
    assert(all_positions@ + Seq::<(usize, usize)>::empty() =~= Seq::<(usize, usize)>::empty());
    while curr_positions.len() > 0
        invariant
            board.wf(),
            board.spec_size() == old(board).spec_size(),
            board.spec_square_size() == old(board).spec_square_size(),
            k == board.spec_square_size(),
            whole == settle(k, old(board)@, positions@),
            whole == match settle(k, board@, curr_positions@) {
                Ok(rest) => Ok::<Progress, SudokuError>(
                    Progress { grid: rest.grid, changed: all_positions@ + rest.changed },
                ),
                Err(error) => Err::<Progress, SudokuError>(error),
            },
        decreases open_count(board@), curr_positions.len(),
    {
        let ghost before = board@;
        let ghost asked = curr_positions@;
        proof {
            if pass(k, before, asked) is Ok {
                lemma_pass_keeps(k, before, asked);
            }
        }
        match _update_positions(board, &curr_positions) {
            Ok(next) => {
                proof {
                    let once = pass(k, before, asked).unwrap();
                    match settle(k, once.grid, once.changed) {
                        Ok(rest) => {
                            assert(all_positions@ + (once.changed + rest.changed) =~= (
                            all_positions@ + once.changed) + rest.changed);
                        },
                        Err(_) => {},
                    }
                }
                append_positions(&mut all_positions, &next);
                curr_positions = next;
            },
            Err(error) => {
                return Err(error);
            },
        }
    }
    proof {
        assert(all_positions@ + Seq::<(usize, usize)>::empty() =~= all_positions@);
    }
    Ok(all_positions)
}

/// What a run leaves to the caller: on success the grid it reached and the
/// cells it changed, on failure the error and the grid as it was.
pub open spec fn committed(
    run: Result<Progress, SudokuError>,
    changed: Result<Vec<(usize, usize)>, SudokuError>,
    before: CandidateGrid,
    after: CandidateGrid,
) -> bool {
    match run {
        Ok(to) => changed matches Ok(list) && list@ == to.changed && after == to.grid,
        Err(error) => changed matches Err(found) && found == error && after == before,
    }
}

/// A fresh run on the grid `g`.
pub open spec fn start_on(g: CandidateGrid) -> Progress {
    Progress { grid: g, changed: Seq::empty() }
}

/// Recalculates the open cells of one row (`is_row`) or column, one after
/// the other, and reports the cells that got their value. On a contradiction
/// the grid is left as it was.
pub fn update_axis(
    board: &mut AnalyzedBoard,
    axis: usize,
    is_row: bool,
) -> (changed: Result<Vec<(usize, usize)>, SudokuError>)
    requires
        old(board).wf(),
    ensures
        final(board).wf(),
        final(board).spec_size() == old(board).spec_size(),
        final(board).spec_square_size() == old(board).spec_square_size(),
        committed(
            sweep(
                old(board).spec_square_size() as int,
                start_on(old(board)@),
                axis_cells(old(board).spec_size(), axis, is_row),
            ),
            changed,
            old(board)@,
            final(board)@,
        ),
{
    let mut work = board.clone();
    let mut changed_cells: Vec<(usize, usize)> = Vec::new();
    match sweep_axis(&mut work, axis, is_row, &mut changed_cells) {
        Ok(()) => {
            *board = work;
            Ok(changed_cells)
        },
        Err(error) => Err(error),
    }
}

/// What recalculating the box of cell `(row, col)` gives.
pub open spec fn update_square_spec(
    k: int,
    g: CandidateGrid,
    row: usize,
    col: usize,
) -> Result<Progress, SudokuError> {
    if row < g.len() && col < g.len() {
        sweep(k, start_on(g), box_cells(k, g.len(), box_of(k, (row, col))))
    } else {
        Err(SudokuError::OutOfBounds)
    }
}

/// Recalculates the open cells of the box that holds `(row, col)`, row by
/// row, and reports the cells that got their value. On a contradiction the
/// grid is left as it was.
pub fn update_square_of(
    board: &mut AnalyzedBoard,
    row: usize,
    col: usize,
) -> (changed: Result<Vec<(usize, usize)>, SudokuError>)
    requires
        old(board).wf(),
    ensures
        final(board).wf(),
        final(board).spec_size() == old(board).spec_size(),
        final(board).spec_square_size() == old(board).spec_square_size(),
        committed(
            update_square_spec(old(board).spec_square_size() as int, old(board)@, row, col),
            changed,
            old(board)@,
            final(board)@,
        ),
{
    let size = board.get_size();
    if row >= size || col >= size {
        return Err(SudokuError::OutOfBounds);
    }
    let square_size = board.get_square_size();
    proof {
        let k = square_size as int;
        lemma_box_side_positive(k, size as int);
        lemma_cell_to_box(k, row as int, col as int);
        lemma_split(k, row as int);
        lemma_split(k, col as int);
    }
    let square_index = (row / square_size) * square_size + col / square_size;
    let mut work = board.clone();
    let mut changed: Vec<(usize, usize)> = Vec::new();
    match sweep_square(&mut work, square_index, &mut changed) {
        Ok(()) => {
            *board = work;
            Ok(changed)
        },
        Err(error) => Err(error),
    }
}

/// Recalculates the rows, columns and boxes of `positions`, then those of the
/// cells that this has given their value, and so on until a pass changes
/// nothing. Reports the cells that got their value. On a contradiction, or
/// on a position outside the grid, the grid is left as it was.
pub fn update_positions(
    board: &mut AnalyzedBoard,
    positions: &Vec<(usize, usize)>,
) -> (changed: Result<Vec<(usize, usize)>, SudokuError>)
    requires
        old(board).wf(),
    ensures
        final(board).wf(),
        final(board).spec_size() == old(board).spec_size(),
        final(board).spec_square_size() == old(board).spec_square_size(),
        committed(
            settle(old(board).spec_square_size() as int, old(board)@, positions@),
            changed,
            old(board)@,
            final(board)@,
        ),
{
    let mut work = board.clone();
    match settle_in_place(&mut work, positions) {
        Ok(changed) => {
            *board = work;
            Ok(changed)
        },
        Err(error) => Err(error),
    }
}

/// What recalculating the whole grid to a standstill gives: one sweep over
/// all cells, then passes until one changes nothing.
pub open spec fn update_board_spec(k: int, g: CandidateGrid) -> Result<Progress, SudokuError> {
    match sweep(k, start_on(g), all_cells(g.len())) {
        Err(error) => Err(error),
        Ok(first) => match settle(k, first.grid, first.changed) {
            Err(error) => Err(error),
            Ok(rest) => Ok(Progress { grid: rest.grid, changed: first.changed + rest.changed }),
        },
    }
}

/// Recalculates every open cell, row after row, and then the groups of the
/// cells that got their value, until nothing changes. Reports the cells that
/// got their value. On a contradiction the grid is left as it was.
pub fn update_board(
    board: &mut AnalyzedBoard,
) -> (changed: Result<Vec<(usize, usize)>, SudokuError>)
    requires
        old(board).wf(),
    ensures
        final(board).wf(),
        final(board).spec_size() == old(board).spec_size(),
        final(board).spec_square_size() == old(board).spec_square_size(),
        committed(
            update_board_spec(old(board).spec_square_size() as int, old(board)@),
            changed,
            old(board)@,
            final(board)@,
        ),
{
    let mut work = board.clone();
    let mut updated_positions: Vec<(usize, usize)> = Vec::new();
    match sweep_all(&mut work, &mut updated_positions) {
        Ok(()) => {},
        Err(error) => {
            return Err(error);
        },
    }
    match settle_in_place(&mut work, &updated_positions) {
        Ok(inner_updated) => {
            append_positions(&mut updated_positions, &inner_updated);
            *board = work;
            Ok(updated_positions)
        },
        Err(error) => Err(error),
    }
}

} // verus!
