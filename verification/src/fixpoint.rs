//! Why recalculation ends at rest: once nothing changes, every open cell
//! holds exactly the options that the fixed cells around it leave.

use crate::analyze::{extends, known_values, open_count, CandidateGrid, CellState};
use crate::geometry::{
    box_cell_col, box_cell_row, box_index, grid_box, grid_col, grid_with, is_square_grid,
    lemma_box_to_cell,
};
use crate::types::SudokuError;
use crate::update::{
    all_cells, all_in_range, cell_options, lemma_sweep_keeps, pass, recalculate_cell_spec, settle,
    start_on, sweep, sweep_step, touched_cells, update_board_spec, Progress,
};
use vstd::prelude::*;

verus! {

/// Cell `(r, c)` is at rest: it has its value, or it holds exactly the
/// options that the fixed cells around it leave, and more than one of them.
pub open spec fn settled_at(g: CandidateGrid, k: int, r: int, c: int) -> bool {
    g[r][c] is Fixed || (g[r][c] == CellState::Open(cell_options(g, k, r, c)) && cell_options(
        g,
        k,
        r,
        c,
    ).len() >= 2)
}

/// Every cell of the grid is at rest: recalculating changes nothing.
pub open spec fn settled(g: CandidateGrid, k: int) -> bool {
    forall|r: int, c: int| 0 <= r < g.len() && 0 <= c < g.len() ==> settled_at(g, k, r, c)
}

/// Two cells share a row, a column or a box.
pub open spec fn are_peers(k: int, r: int, c: int, other: (usize, usize)) -> bool {
    r == other.0 || c == other.1 || box_index(k, r, c) == box_index(
        k,
        other.0 as int,
        other.1 as int,
    )
}

/// Cell `(r, c)` shares a group with one of the listed cells.
pub open spec fn near_any(k: int, r: int, c: int, cells: Seq<(usize, usize)>) -> bool {
    exists|j: int| 0 <= j < cells.len() && are_peers(k, r, c, #[trigger] cells[j])
}

/// Every cell that is not at rest shares a group with one of the listed
/// cells.
pub open spec fn covered(g: CandidateGrid, k: int, cells: Seq<(usize, usize)>) -> bool {
    forall|r: int, c: int|
        0 <= r < g.len() && 0 <= c < g.len() ==> #[trigger] settled_at(g, k, r, c) || near_any(
            k,
            r,
            c,
            cells,
        )
}

/// The value that a cell state is known to have, `0` for an open one.
pub open spec fn known_value(state: CellState) -> usize {
    match state {
        CellState::Fixed(value) => value,
        CellState::Open(_) => 0,
    }
}

/// Writing a cell changes the options of another cell only if it changes
/// what is known of the written cell and the two share a group.
pub proof fn lemma_options_frame(
    g: CandidateGrid,
    k: int,
    at: (usize, usize),
    state: CellState,
    r: int,
    c: int,
)
    requires
        is_square_grid(g),
        0 < k,
        k * k == g.len(),
        at.0 < g.len(),
        at.1 < g.len(),
        0 <= r < g.len(),
        0 <= c < g.len(),
        known_value(state) == known_value(g[at.0 as int][at.1 as int]) || !are_peers(k, r, c, at),
    ensures
        cell_options(grid_with(g, at.0 as int, at.1 as int, state), k, r, c) == cell_options(
            g,
            k,
            r,
            c,
        ),
{
    let xr = at.0 as int;
    let xc = at.1 as int;
    let after = grid_with(g, xr, xc, state);
    let b = box_index(k, r, c);
    crate::geometry::lemma_cell_to_box(k, r, c);
    assert(g[xr].len() == g.len());
    assert(g[r].len() == g.len());
    assert(known_values(after[r]) =~= known_values(g[r]));
    assert(known_values(grid_col(after, c)) =~= known_values(grid_col(g, c))) by {
        assert forall|i: int| 0 <= i < g.len() implies known_values(grid_col(after, c))[i]
            == known_values(grid_col(g, c))[i] by {
            assert(g[i].len() == g.len());
        }
    }
    assert(known_values(grid_box(after, k, b)) =~= known_values(grid_box(g, k, b))) by {
        assert forall|o: int| 0 <= o < g.len() implies known_values(grid_box(after, k, b))[o]
            == known_values(grid_box(g, k, b))[o] by {
            lemma_box_to_cell(k, b, o);
            let br = box_cell_row(k, b, o);
            assert(g[br].len() == g.len());
        }
    }
}

/// After one recalculation the recalculated cell is at rest, and a cell that
/// was at rest still is, unless it shares a group with a cell that has just
/// got its value.
pub proof fn lemma_step_rest(k: int, from: Progress, cell: (usize, usize), r: int, c: int)
    requires
        is_square_grid(from.grid),
        0 < k,
        k * k == from.grid.len(),
        sweep_step(k, from, cell) is Ok,
        0 <= r < from.grid.len(),
        0 <= c < from.grid.len(),
    ensures
        ({
            let to = sweep_step(k, from, cell).unwrap();
            &&& (r == cell.0 && c == cell.1 ==> settled_at(to.grid, k, r, c))
            &&& (settled_at(from.grid, k, r, c) ==> settled_at(to.grid, k, r, c) || (
            to.changed.len() > from.changed.len() && are_peers(k, r, c, to.changed.last())))
        }),
{
    let to = sweep_step(k, from, cell).unwrap();
    let g = from.grid;
    let xr = cell.0 as int;
    let xc = cell.1 as int;
    match recalculate_cell_spec(g, k, xr, xc) {
        Ok(Some(state)) => {
            assert(g[xr].len() == g.len());
            assert(g[r].len() == g.len());
            assert(g[xr][xc] is Open);
            if state is Fixed {
                assert(to.changed.last() == cell);
                if !are_peers(k, r, c, cell) {
                    lemma_options_frame(g, k, cell, state, r, c);
                    assert(to.grid[r][c] == g[r][c]);
                }
            } else {
                lemma_options_frame(g, k, cell, state, r, c);
                if r == xr && c == xc {
                    assert(to.grid[r][c] == state);
                } else {
                    assert(to.grid[r][c] == g[r][c]);
                }
            }
        },
        _ => {
            assert(to == from);
        },
    }
}

/// After a sweep, a cell is at rest, or shares a group with a cell that has
/// got its value, or was not at rest before and has not been visited.
pub proof fn lemma_sweep_rest(
    k: int,
    from: Progress,
    cells: Seq<(usize, usize)>,
    at: (usize, usize),
)
    requires
        is_square_grid(from.grid),
        0 < k,
        k * k == from.grid.len(),
        sweep(k, from, cells) is Ok,
        at.0 < from.grid.len(),
        at.1 < from.grid.len(),
    ensures
        ({
            let to = sweep(k, from, cells).unwrap();
            ||| settled_at(to.grid, k, at.0 as int, at.1 as int)
            ||| near_any(k, at.0 as int, at.1 as int, to.changed)
            ||| (!cells.contains(at) && !settled_at(from.grid, k, at.0 as int, at.1 as int))
        }),
    decreases cells.len(),
{
    let r = at.0 as int;
    let c = at.1 as int;
    if cells.len() > 0 {
        let short = cells.drop_last();
        let last = cells.last();
        let mid = sweep(k, from, short).unwrap();
        let to = sweep_step(k, mid, last).unwrap();
        lemma_sweep_keeps(k, from, short);
        lemma_sweep_rest(k, from, short, at);
        lemma_step_rest(k, mid, last, r, c);
        crate::update::lemma_step_keeps(k, mid, last);
        if at == last {
        } else if settled_at(mid.grid, k, r, c) {
            if !settled_at(to.grid, k, r, c) {
                assert(are_peers(k, r, c, to.changed[to.changed.len() - 1]));
            }
        } else if near_any(k, r, c, mid.changed) {
            let j = choose|j: int|
                0 <= j < mid.changed.len() && are_peers(k, r, c, #[trigger] mid.changed[j]);
            assert(to.changed[j] == mid.changed[j]) by {
                assert(mid.changed =~= to.changed.subrange(0, mid.changed.len() as int));
            }
        } else {
            assert(!short.contains(at));
            assert(!cells.contains(at)) by {
                if cells.contains(at) {
                    let j = choose|j: int| 0 <= j < cells.len() && cells[j] == at;
                    if j < short.len() {
                        assert(short[j] == cells[j]);
                    }
                }
            }
        }
    }
}

/// A grid as the library keeps it: square, with boxes of side `k`, and small
/// enough to be indexed.
pub open spec fn is_board_grid(g: CandidateGrid, k: int) -> bool {
    &&& is_square_grid(g)
    &&& 0 <= k
    &&& k * k == g.len()
    &&& g.len() <= usize::MAX
}

/// Recalculating a cell that is at rest changes nothing.
pub proof fn lemma_step_at_rest(k: int, from: Progress, cell: (usize, usize))
    requires
        is_square_grid(from.grid),
        cell.0 < from.grid.len(),
        cell.1 < from.grid.len(),
        settled_at(from.grid, k, cell.0 as int, cell.1 as int),
    ensures
        sweep_step(k, from, cell) == Ok::<Progress, SudokuError>(from),
{
    let g = from.grid;
    let r = cell.0 as int;
    let c = cell.1 as int;
    if g[r][c] is Open {
        assert(g[r].len() == g.len());
        assert(grid_with(g, r, c, g[r][c]) =~= g) by {
            assert(g[r].update(c, g[r][c]) =~= g[r]);
        }
    }
}

/// Every cell of the list lies in a grid of side `n`.
pub open spec fn cells_in_range(n: nat, cells: Seq<(usize, usize)>) -> bool {
    forall|j: int| 0 <= j < cells.len() ==> (#[trigger] cells[j]).0 < n && cells[j].1 < n
}

/// A sweep over a grid at rest changes nothing.
pub proof fn lemma_sweep_at_rest(k: int, from: Progress, cells: Seq<(usize, usize)>)
    requires
        is_square_grid(from.grid),
        settled(from.grid, k),
        cells_in_range(from.grid.len(), cells),
    ensures
        sweep(k, from, cells) == Ok::<Progress, SudokuError>(from),
    decreases cells.len(),
{
    if cells.len() > 0 {
        let short = cells.drop_last();
        assert forall|j: int| 0 <= j < short.len() implies (#[trigger] short[j]).0
            < from.grid.len() && short[j].1 < from.grid.len() by {
            assert(short[j] == cells[j]);
        }
        lemma_sweep_at_rest(k, from, short);
        let last = cells.last();
        assert(last == cells[cells.len() - 1]);
        lemma_step_at_rest(k, from, last);
    }
}

/// The cells touched by positions inside the grid lie inside the grid.
pub proof fn lemma_touched_in_range(k: int, n: nat, positions: Seq<(usize, usize)>)
    requires
        0 <= k,
        k * k == n,
        n <= usize::MAX,
        all_in_range(n, positions),
    ensures
        cells_in_range(n, touched_cells(k, n, positions)),
    decreases positions.len(),
{
    if positions.len() > 0 {
        let before = positions.drop_last();
        let at = positions.last();
        assert(at == positions[positions.len() - 1]);
        assert forall|j: int| 0 <= j < before.len() implies (#[trigger] before[j]).0 < n
            && before[j].1 < n by {
            assert(before[j] == positions[j]);
        }
        lemma_touched_in_range(k, n, before);
        let old_cells = touched_cells(k, n, before);
        let fresh = crate::update::fresh_cells(k, n, before, at);
        let whole = touched_cells(k, n, positions);
        crate::geometry::lemma_box_side_positive(k, n as int);
        crate::geometry::lemma_cell_to_box(k, at.0 as int, at.1 as int);
        let in_row = if crate::update::names_row(before, at.0) {
            Seq::<(usize, usize)>::empty()
        } else {
            crate::update::axis_cells(n, at.0, true)
        };
        let in_col = if crate::update::names_col(before, at.1) {
            Seq::<(usize, usize)>::empty()
        } else {
            crate::update::axis_cells(n, at.1, false)
        };
        let b = crate::update::box_of(k, at);
        let in_box = if crate::update::names_box(k, before, b) {
            Seq::<(usize, usize)>::empty()
        } else {
            crate::update::box_cells(k, n, b)
        };
        assert(fresh == (in_row + in_col) + in_box);
        assert forall|j: int| 0 <= j < fresh.len() implies (#[trigger] fresh[j]).0 < n
            && fresh[j].1 < n by {
            if j < in_row.len() {
                assert(fresh[j] == in_row[j]);
            } else if j < in_row.len() + in_col.len() {
                assert(fresh[j] == in_col[j - in_row.len()]);
            } else {
                let o = j - in_row.len() - in_col.len();
                assert(fresh[j] == in_box[o]);
                lemma_box_to_cell(k, b, o);
            }
        }
        assert forall|j: int| 0 <= j < whole.len() implies (#[trigger] whole[j]).0 < n
            && whole[j].1 < n by {
            if j < old_cells.len() {
                assert(whole[j] == old_cells[j]);
            } else {
                assert(whole[j] == fresh[j - old_cells.len()]);
            }
        }
    }
}

/// Recalculating a grid at rest leaves it as it is and reports no cell: the
/// targeted form.
pub proof fn lemma_settle_at_rest(k: int, g: CandidateGrid, positions: Seq<(usize, usize)>)
    requires
        is_board_grid(g, k),
        settled(g, k),
        all_in_range(g.len(), positions),
    ensures
        settle(k, g, positions) == Ok::<Progress, SudokuError>(start_on(g)),
{
    if positions.len() > 0 {
        lemma_touched_in_range(k, g.len(), positions);
        lemma_sweep_at_rest(k, start_on(g), touched_cells(k, g.len(), positions));
        assert(pass(k, g, positions) == Ok::<Progress, SudokuError>(start_on(g)));
        assert(settle(k, g, Seq::<(usize, usize)>::empty()) == Ok::<Progress, SudokuError>(
            start_on(g),
        ));
        assert(Seq::<(usize, usize)>::empty() + Seq::<(usize, usize)>::empty() =~= Seq::<
            (usize, usize),
        >::empty());
    }
}

/// Recalculating a grid at rest leaves it as it is and reports no cell: the
/// form that scans the whole grid.
pub proof fn lemma_update_board_at_rest(k: int, g: CandidateGrid)
    requires
        is_board_grid(g, k),
        settled(g, k),
    ensures
        update_board_spec(k, g) == Ok::<Progress, SudokuError>(start_on(g)),
{
    let n = g.len();
    let cells = all_cells(n);
    assert forall|j: int| 0 <= j < cells.len() implies (#[trigger] cells[j]).0 < n && cells[j].1
        < n by {
        assert(n > 0) by (nonlinear_arith)
            requires
                0 <= j < n * n,
        ;
        assert(0 <= j / (n as int) < n) by (nonlinear_arith)
            requires
                0 <= j < n * n,
                n > 0,
        ;
        vstd::arithmetic::div_mod::lemma_mod_bound(j, n as int);
    }
    lemma_sweep_at_rest(k, start_on(g), cells);
    assert(settle(k, g, Seq::<(usize, usize)>::empty()) == Ok::<Progress, SudokuError>(
        start_on(g),
    ));
    assert(Seq::<(usize, usize)>::empty() + Seq::<(usize, usize)>::empty() =~= Seq::<
        (usize, usize),
    >::empty());
}

/// A cell that shares a group with one of the positions is among the cells
/// that the positions touch.
pub proof fn lemma_touched_holds(
    k: int,
    n: nat,
    positions: Seq<(usize, usize)>,
    at: (usize, usize),
)
    requires
        0 < k,
        k * k == n,
        n <= usize::MAX,
        at.0 < n,
        at.1 < n,
        near_any(k, at.0 as int, at.1 as int, positions),
    ensures
        touched_cells(k, n, positions).contains(at),
    decreases positions.len(),
{
    let r = at.0 as int;
    let c = at.1 as int;
    let before = positions.drop_last();
    let last = positions.last();
    let old_cells = touched_cells(k, n, before);
    let fresh = crate::update::fresh_cells(k, n, before, last);
    let j = choose|j: int| 0 <= j < positions.len() && are_peers(k, r, c, #[trigger] positions[j]);
    if near_any(k, r, c, before) {
        lemma_touched_holds(k, n, before, at);
        crate::lists::lemma_joined_holds(old_cells, fresh, at);
    } else {
        if j < before.len() {
            assert(before[j] == positions[j]);
        }
        assert(j == positions.len() - 1);
        assert(are_peers(k, r, c, last));
        let in_row = if crate::update::names_row(before, last.0) {
            Seq::<(usize, usize)>::empty()
        } else {
            crate::update::axis_cells(n, last.0, true)
        };
        let in_col = if crate::update::names_col(before, last.1) {
            Seq::<(usize, usize)>::empty()
        } else {
            crate::update::axis_cells(n, last.1, false)
        };
        let b = crate::update::box_of(k, last);
        let in_box = if crate::update::names_box(k, before, b) {
            Seq::<(usize, usize)>::empty()
        } else {
            crate::update::box_cells(k, n, b)
        };
        assert(fresh == (in_row + in_col) + in_box);
        if r == last.0 {
            if crate::update::names_row(before, last.0) {
                let i = choose|i: int| 0 <= i < before.len() && (#[trigger] before[i]).0 == last.0;
                assert(are_peers(k, r, c, before[i]));
                assert(false);
            }
            assert(in_row[c] == at);
            crate::lists::lemma_joined_holds(in_row, in_col, at);
            crate::lists::lemma_joined_holds(in_row + in_col, in_box, at);
        } else if c == last.1 {
            if crate::update::names_col(before, last.1) {
                let i = choose|i: int| 0 <= i < before.len() && (#[trigger] before[i]).1 == last.1;
                assert(are_peers(k, r, c, before[i]));
                assert(false);
            }
            assert(in_col[r] == at);
            crate::lists::lemma_joined_holds(in_row, in_col, at);
            crate::lists::lemma_joined_holds(in_row + in_col, in_box, at);
        } else {
            assert(box_index(k, r, c) == b);
            if crate::update::names_box(k, before, b) {
                let i = choose|i: int|
                    0 <= i < before.len() && box_index(
                        k,
                        (#[trigger] before[i]).0 as int,
                        before[i].1 as int,
                    ) == b;
                assert(are_peers(k, r, c, before[i]));
                assert(false);
            }
            crate::geometry::lemma_cell_to_box(k, r, c);
            let o = crate::geometry::box_offset(k, r, c);
            assert(in_box[o] == at);
            crate::lists::lemma_joined_holds(in_row + in_col, in_box, at);
        }
        crate::lists::lemma_joined_holds(old_cells, fresh, at);
    }
}

/// After a pass over the groups of cells that cover every cell not at rest,
/// the cells that the pass has changed cover every cell not at rest.
pub proof fn lemma_pass_covers(k: int, g: CandidateGrid, positions: Seq<(usize, usize)>)
    requires
        is_board_grid(g, k),
        covered(g, k, positions),
        pass(k, g, positions) is Ok,
    ensures
        covered(pass(k, g, positions).unwrap().grid, k, pass(k, g, positions).unwrap().changed),
{
    let n = g.len();
    let cells = touched_cells(k, n, positions);
    let to = pass(k, g, positions).unwrap();
    lemma_sweep_keeps(k, start_on(g), cells);
    assert forall|r: int, c: int| 0 <= r < to.grid.len() && 0 <= c < to.grid.len() implies (
    #[trigger] settled_at(to.grid, k, r, c)) || near_any(k, r, c, to.changed) by {
        crate::geometry::lemma_box_side_positive(k, n as int);
        let at = (r as usize, c as usize);
        lemma_sweep_rest(k, start_on(g), cells, at);
        if !settled_at(g, k, r, c) {
            assert(near_any(k, r, c, positions));
            lemma_touched_holds(k, n, positions, at);
        }
    }
}

/// Passes repeated to a standstill leave every cell at rest, if the
/// positions they start from cover every cell that is not.
pub proof fn lemma_settle_rests(k: int, g: CandidateGrid, positions: Seq<(usize, usize)>)
    requires
        is_board_grid(g, k),
        covered(g, k, positions),
        settle(k, g, positions) is Ok,
    ensures
        settled(settle(k, g, positions).unwrap().grid, k),
    decreases open_count(g), positions.len(),
{
    if positions.len() == 0 {
        assert forall|r: int, c: int| 0 <= r < g.len() && 0 <= c < g.len() implies settled_at(
            g,
            k,
            r,
            c,
        ) by {
            assert(settled_at(g, k, r, c) || near_any(k, r, c, positions));
        }
    } else {
        let once = pass(k, g, positions).unwrap();
        crate::update::lemma_pass_keeps(k, g, positions);
        lemma_pass_covers(k, g, positions);
        lemma_settle_rests(k, once.grid, once.changed);
    }
}

/// The whole grid recalculated to a standstill is at rest.
pub proof fn lemma_update_board_rests(k: int, g: CandidateGrid)
    requires
        is_board_grid(g, k),
        update_board_spec(k, g) is Ok,
    ensures
        settled(update_board_spec(k, g).unwrap().grid, k),
{
    let n = g.len();
    let cells = all_cells(n);
    let first = sweep(k, start_on(g), cells).unwrap();
    lemma_sweep_keeps(k, start_on(g), cells);
    assert forall|r: int, c: int| 0 <= r < first.grid.len() && 0 <= c < first.grid.len() implies (
    #[trigger] settled_at(first.grid, k, r, c)) || near_any(k, r, c, first.changed) by {
        crate::geometry::lemma_box_side_positive(k, n as int);
        let at = (r as usize, c as usize);
        lemma_sweep_rest(k, start_on(g), cells, at);
        let i = r * n + c;
        assert(0 <= i < n * n) by (nonlinear_arith)
            requires
                0 <= r < n,
                0 <= c < n,
                i == r * n + c,
        ;
        vstd::arithmetic::div_mod::lemma_fundamental_div_mod_converse(i, n as int, r, c);
        assert(cells[i] == at);
    }
    lemma_settle_rests(k, first.grid, first.changed);
}

/// Propagation is idempotent: recalculating the grid that a recalculation
/// to a standstill has left changes no cell and reports none.
pub proof fn lemma_update_board_idempotent(k: int, g: CandidateGrid)
    requires
        is_board_grid(g, k),
        update_board_spec(k, g) is Ok,
    ensures
        update_board_spec(k, update_board_spec(k, g).unwrap().grid) == Ok::<
            Progress,
            SudokuError,
        >(start_on(update_board_spec(k, g).unwrap().grid)),
{
    let n = g.len();
    let first = sweep(k, start_on(g), all_cells(n)).unwrap();
    lemma_sweep_keeps(k, start_on(g), all_cells(n));
    lemma_settle_shape(k, first.grid, first.changed);
    lemma_update_board_rests(k, g);
    lemma_update_board_at_rest(k, update_board_spec(k, g).unwrap().grid);
}

/// Passes repeated to a standstill keep the shape of the grid and every
/// fixed value.
pub proof fn lemma_settle_shape(k: int, g: CandidateGrid, positions: Seq<(usize, usize)>)
    requires
        is_square_grid(g),
        settle(k, g, positions) is Ok,
    ensures
        is_square_grid(settle(k, g, positions).unwrap().grid),
        extends(g, settle(k, g, positions).unwrap().grid),
        open_count(settle(k, g, positions).unwrap().grid) + settle(
            k,
            g,
            positions,
        ).unwrap().changed.len() == open_count(g),
    decreases open_count(g), positions.len(),
{
    if positions.len() > 0 {
        let once = pass(k, g, positions).unwrap();
        crate::update::lemma_pass_keeps(k, g, positions);
        lemma_settle_shape(k, once.grid, once.changed);
        crate::update::lemma_extends_chain(g, once.grid, settle(k, g, positions).unwrap().grid);
    }
}

/// Recalculating the whole grid to a standstill keeps the shape of the
/// grid and every fixed value.
pub proof fn lemma_update_board_keeps(k: int, g: CandidateGrid)
    requires
        is_square_grid(g),
        update_board_spec(k, g) is Ok,
    ensures
        is_square_grid(update_board_spec(k, g).unwrap().grid),
        extends(g, update_board_spec(k, g).unwrap().grid),
        open_count(update_board_spec(k, g).unwrap().grid) <= open_count(g),
{
    let first = sweep(k, start_on(g), all_cells(g.len())).unwrap();
    lemma_sweep_keeps(k, start_on(g), all_cells(g.len()));
    lemma_settle_shape(k, first.grid, first.changed);
    crate::update::lemma_extends_chain(g, first.grid, update_board_spec(k, g).unwrap().grid);
}

} // verus!
