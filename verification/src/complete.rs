//! Why the search loses no solution: every deduction keeps each solution
//! that the grid allowed before it.

use crate::analyze::analyze_cell_spec;
use crate::analyze::open_in;
use crate::analyze::{
    free_values, is_free, known_values, narrow, values_up_to, CandidateGrid, CellState,
};
use crate::board::comes_before;
use crate::fixpoint::{cells_in_range, is_board_grid, lemma_touched_in_range};
use crate::geometry::{
    box_index, box_offset, grid_box, grid_col, grid_with, is_square_grid, lemma_box_side_positive,
    lemma_box_to_cell, lemma_cell_to_box,
};
use crate::infer::{
    apply_pass, cell_values, count_in, count_in_cell, first_single, group_values,
    infer_group_spec, is_complete, is_fixed_in, is_hidden_single, lemma_apply_fewer_open,
    occurrences, single_of, singles_pass, singles_upto,
};
use crate::infer::{
    arrange, findings_near, findings_upto, fresh_findings, in_col, in_row, in_square,
    infer_all_spec, infer_col_spec, infer_positions_spec, infer_row_spec, infer_square_of_spec,
    infer_square_spec, joined, located, names_box_inside, place, same_cell, unless, InferType,
    InferredPosition,
};
use crate::laws::{
    is_full_group, lemma_full_group_holds_each_once, lemma_solution_groups_are_full,
};
use crate::solve::{
    fills, by_use, cell_at, commit, commit_step, fewest_options, has_options, lemma_commit_keeps,
    deduce, propagate_spec, shortest_open, slot, tied_cells, uses,
};
use crate::types::SudokuError;
use crate::update::{
    all_cells, all_in_range, cell_options, pass, settle, start_on, sweep, sweep_step,
    touched_cells, update_board_spec, Progress,
};
use crate::update::{box_of, names_col, names_row};
use crate::validators::{groups_are_clean, has_repeat, is_solution, is_valid_grid};
use vstd::prelude::*;

verus! {

/// Every value that the candidate grid holds, fixed or as an option, lies
/// between `1` and the side length, and no cell has more options than that.
pub open spec fn in_domain(g: CandidateGrid) -> bool {
    forall|r: int, c: int|
        0 <= r < g.len() && 0 <= c < g.len() ==> match #[trigger] g[r][c] {
            CellState::Fixed(v) => 1 <= v <= g.len(),
            CellState::Open(options) => options.len() <= g.len() && forall|j: int|
                0 <= j < options.len() ==> 1 <= #[trigger] options[j] <= g.len(),
        }
}

/// The cell state leaves room for the value `v`.
pub open spec fn admits(state: CellState, v: usize) -> bool {
    match state {
        CellState::Fixed(value) => value == v,
        CellState::Open(options) => options.contains(v),
    }
}

/// The number grid `s` is a solution that the candidate grid `g` still
/// allows: solved, of the same side, with every fixed value of `g` in its
/// place and every other value among the options of its cell.
pub open spec fn allows(g: CandidateGrid, k: int, s: Seq<Seq<usize>>) -> bool {
    &&& is_solution(s, k)
    &&& s.len() == g.len()
    &&& forall|r: int, c: int|
        0 <= r < g.len() && 0 <= c < g.len() ==> admits(#[trigger] g[r][c], s[r][c])
}

/// What is known of a group holds of the full group `t`: where a value is
/// known, `t` has it.
pub open spec fn hints_at(known: Seq<usize>, t: Seq<usize>) -> bool {
    &&& known.len() == t.len()
    &&& forall|i: int| 0 <= i < known.len() && #[trigger] known[i] != 0 ==> t[i] == known[i]
}

/// In a full group, the value of a cell of which nothing is known is not
/// among the known values.
pub proof fn lemma_unknown_is_free(known: Seq<usize>, t: Seq<usize>, n: nat, c: int)
    requires
        is_full_group(t, n),
        hints_at(known, t),
        0 <= c < n,
        known[c] == 0,
    ensures
        !known.contains(t[c]),
{
    if known.contains(t[c]) {
        let i = choose|i: int| 0 <= i < known.len() && known[i] == t[c];
        assert(1 <= t[c] <= n);
        assert(t[i] == known[i]);
        if i < c {
            assert(t[i] == t[c] && t[i] > 0);
        } else {
            assert(t[c] == t[i] && t[c] > 0);
        }
        assert(has_repeat(t));
    }
}

/// A value from `1` to `n` that none of the three groups has is among the
/// free values.
pub proof fn lemma_free_holds(
    n: nat,
    row: Seq<usize>,
    col: Seq<usize>,
    square: Seq<usize>,
    v: usize,
)
    requires
        1 <= v <= n,
        n <= usize::MAX,
        is_free(row, col, square, v),
    ensures
        free_values(n, row, col, square).contains(v),
{
    let keep = |x: usize| is_free(row, col, square, x);
    assert(values_up_to(n)[v - 1] == v);
    values_up_to(n).lemma_filter_contains(keep, v - 1);
}

/// The free values lie between `1` and `n`, and there are `n` of them at
/// most.
pub proof fn lemma_free_in_range(n: nat, row: Seq<usize>, col: Seq<usize>, square: Seq<usize>)
    requires
        n <= usize::MAX,
    ensures
        free_values(n, row, col, square).len() <= n,
        forall|j: int|
            0 <= j < free_values(n, row, col, square).len() ==> 1 <= #[trigger] free_values(
                n,
                row,
                col,
                square,
            )[j] <= n,
{
    let keep = |x: usize| is_free(row, col, square, x);
    let all = values_up_to(n);
    let free = free_values(n, row, col, square);
    all.lemma_filter_len(keep);
    assert forall|j: int| 0 <= j < free.len() implies 1 <= #[trigger] free[j] <= n by {
        assert(free.contains(free[j]));
        all.lemma_filter_contains_rev(keep, free[j]);
        let i = choose|i: int| 0 <= i < all.len() && all[i] == free[j];
        assert(all[i] == (i + 1) as usize);
    }
}

/// The options that the fixed cells leave to an open cell hold the value
/// that an allowed solution has there.
pub proof fn lemma_options_hold_solution(
    g: CandidateGrid,
    k: int,
    s: Seq<Seq<usize>>,
    r: int,
    c: int,
)
    requires
        is_board_grid(g, k),
        allows(g, k, s),
        0 <= r < g.len(),
        0 <= c < g.len(),
        g[r][c] is Open,
    ensures
        cell_options(g, k, r, c).contains(s[r][c]),
{
    let n = g.len();
    let b = box_index(k, r, c);
    let o = box_offset(k, r, c);
    lemma_box_side_positive(k, n as int);
    lemma_cell_to_box(k, r, c);
    lemma_solution_groups_are_full(s, k, r);
    lemma_solution_groups_are_full(s, k, c);
    lemma_solution_groups_are_full(s, k, b);
    assert(g[r].len() == n);
    assert(s[r].len() == n);
    let row_known = known_values(g[r]);
    let col_known = known_values(grid_col(g, c));
    let box_known = known_values(grid_box(g, k, b));
    assert(hints_at(row_known, s[r])) by {
        assert forall|i: int| 0 <= i < n && #[trigger] row_known[i] != 0 implies s[r][i]
            == row_known[i] by {
            assert(admits(g[r][i], s[r][i]));
        }
    }
    assert(hints_at(col_known, grid_col(s, c))) by {
        assert forall|i: int| 0 <= i < n && #[trigger] col_known[i] != 0 implies grid_col(s, c)[i]
            == col_known[i] by {
            assert(g[i].len() == n);
            assert(admits(g[i][c], s[i][c]));
        }
    }
    assert(hints_at(box_known, grid_box(s, k, b))) by {
        assert forall|i: int| 0 <= i < n && #[trigger] box_known[i] != 0 implies grid_box(
            s,
            k,
            b,
        )[i] == box_known[i] by {
            lemma_box_to_cell(k, b, i);
            let br = crate::geometry::box_cell_row(k, b, i);
            let bc = crate::geometry::box_cell_col(k, b, i);
            assert(g[br].len() == n);
            assert(admits(g[br][bc], s[br][bc]));
        }
    }
    lemma_unknown_is_free(row_known, s[r], n, c);
    lemma_unknown_is_free(col_known, grid_col(s, c), n, r);
    lemma_unknown_is_free(box_known, grid_box(s, k, b), n, o);
    assert(1 <= s[r][c] <= n);
    lemma_free_holds(n, row_known, col_known, box_known, s[r][c]);
}

/// A grid as the library keeps it, with all its values in their domain.
pub open spec fn fits(g: CandidateGrid, k: int) -> bool {
    is_board_grid(g, k) && in_domain(g)
}

/// Recalculating a cell of a grid that allows a solution succeeds, and the
/// grid that it leaves allows the solution still.
pub proof fn lemma_step_allows(k: int, from: Progress, cell: (usize, usize), s: Seq<Seq<usize>>)
    requires
        fits(from.grid, k),
        allows(from.grid, k, s),
        cell.0 < from.grid.len(),
        cell.1 < from.grid.len(),
    ensures
        sweep_step(k, from, cell) is Ok,
        fits(sweep_step(k, from, cell).unwrap().grid, k),
        allows(sweep_step(k, from, cell).unwrap().grid, k, s),
        all_in_range(from.grid.len(), from.changed) ==> all_in_range(
            from.grid.len(),
            sweep_step(k, from, cell).unwrap().changed,
        ),
{
    let g = from.grid;
    let n = g.len();
    let r = cell.0 as int;
    let c = cell.1 as int;
    assert(g[r].len() == n);
    if g[r][c] is Open {
        let options = cell_options(g, k, r, c);
        lemma_options_hold_solution(g, k, s, r, c);
        lemma_free_in_range(
            n,
            known_values(g[r]),
            known_values(grid_col(g, c)),
            known_values(grid_box(g, k, box_index(k, r, c))),
        );
        let v = s[r][c];
        let j = choose|j: int| 0 <= j < options.len() && options[j] == v;
        let state = narrow(options).unwrap();
        assert(admits(state, v));
        let to = sweep_step(k, from, cell).unwrap();
        assert(to.grid == grid_with(g, r, c, state));
        assert(is_square_grid(to.grid)) by {
            assert forall|i: int| 0 <= i < to.grid.len() implies (#[trigger] to.grid[i]).len()
                == to.grid.len() by {
                assert(g[i].len() == n);
            }
        }
        assert(in_domain(to.grid)) by {
            assert forall|r2: int, c2: int| 0 <= r2 < n && 0 <= c2 < n implies match (
            #[trigger] to.grid[r2][c2]) {
                CellState::Fixed(v) => 1 <= v <= n,
                CellState::Open(options) => options.len() <= n && forall|j: int|
                    0 <= j < options.len() ==> 1 <= #[trigger] options[j] <= n,
            } by {
                assert(g[r2].len() == n);
                if r2 == r && c2 == c {
                    assert(to.grid[r2][c2] == state);
                } else {
                    assert(to.grid[r2][c2] == g[r2][c2]);
                }
            }
        }
        assert(allows(to.grid, k, s)) by {
            assert forall|r2: int, c2: int| 0 <= r2 < n && 0 <= c2 < n implies admits(
                #[trigger] to.grid[r2][c2],
                s[r2][c2],
            ) by {
                assert(g[r2].len() == n);
                if r2 == r && c2 == c {
                    assert(to.grid[r2][c2] == state);
                } else {
                    assert(to.grid[r2][c2] == g[r2][c2]);
                    assert(admits(g[r2][c2], s[r2][c2]));
                }
            }
        }
        if all_in_range(n, from.changed) {
            assert forall|j: int| 0 <= j < to.changed.len() implies (#[trigger] to.changed[j]).0
                < n && to.changed[j].1 < n by {
                if j < from.changed.len() {
                    assert(to.changed[j] == from.changed[j]);
                }
            }
        }
    }
}

/// A sweep over cells of a grid that allows a solution succeeds, and the
/// grid that it leaves allows the solution still.
pub proof fn lemma_sweep_allows(
    k: int,
    from: Progress,
    cells: Seq<(usize, usize)>,
    s: Seq<Seq<usize>>,
)
    requires
        fits(from.grid, k),
        allows(from.grid, k, s),
        cells_in_range(from.grid.len(), cells),
    ensures
        sweep(k, from, cells) is Ok,
        fits(sweep(k, from, cells).unwrap().grid, k),
        allows(sweep(k, from, cells).unwrap().grid, k, s),
        sweep(k, from, cells).unwrap().grid.len() == from.grid.len(),
        all_in_range(from.grid.len(), from.changed) ==> all_in_range(
            from.grid.len(),
            sweep(k, from, cells).unwrap().changed,
        ),
    decreases cells.len(),
{
    if cells.len() > 0 {
        let short = cells.drop_last();
        assert forall|j: int| 0 <= j < short.len() implies (#[trigger] short[j]).0
            < from.grid.len() && short[j].1 < from.grid.len() by {
            assert(short[j] == cells[j]);
        }
        lemma_sweep_allows(k, from, short, s);
        let mid = sweep(k, from, short).unwrap();
        assert(cells.last() == cells[cells.len() - 1]);
        lemma_step_allows(k, mid, cells.last(), s);
        crate::update::lemma_step_keeps(k, mid, cells.last());
    }
}

/// A pass on a grid that allows a solution succeeds, and the grid that it
/// leaves allows the solution still.
pub proof fn lemma_pass_allows(
    k: int,
    g: CandidateGrid,
    positions: Seq<(usize, usize)>,
    s: Seq<Seq<usize>>,
)
    requires
        fits(g, k),
        allows(g, k, s),
        all_in_range(g.len(), positions),
    ensures
        pass(k, g, positions) is Ok,
        fits(pass(k, g, positions).unwrap().grid, k),
        allows(pass(k, g, positions).unwrap().grid, k, s),
        all_in_range(
            pass(k, g, positions).unwrap().grid.len(),
            pass(k, g, positions).unwrap().changed,
        ),
{
    lemma_touched_in_range(k, g.len(), positions);
    lemma_sweep_allows(k, start_on(g), touched_cells(k, g.len(), positions), s);
}

/// Passes repeated to a standstill on a grid that allows a solution
/// succeed, and the grid that they leave allows the solution still.
pub proof fn lemma_settle_allows(
    k: int,
    g: CandidateGrid,
    positions: Seq<(usize, usize)>,
    s: Seq<Seq<usize>>,
)
    requires
        fits(g, k),
        allows(g, k, s),
        all_in_range(g.len(), positions),
    ensures
        settle(k, g, positions) is Ok,
        fits(settle(k, g, positions).unwrap().grid, k),
        allows(settle(k, g, positions).unwrap().grid, k, s),
        all_in_range(g.len(), settle(k, g, positions).unwrap().changed),
    decreases crate::analyze::open_count(g), positions.len(),
{
    if positions.len() > 0 {
        lemma_pass_allows(k, g, positions, s);
        crate::update::lemma_pass_keeps(k, g, positions);
        let once = pass(k, g, positions).unwrap();
        lemma_settle_allows(k, once.grid, once.changed, s);
        let rest = settle(k, once.grid, once.changed).unwrap();
        let all = once.changed + rest.changed;
        assert forall|j: int| 0 <= j < all.len() implies (#[trigger] all[j]).0 < g.len()
            && all[j].1 < g.len() by {
            if j < once.changed.len() {
                assert(all[j] == once.changed[j]);
            } else {
                assert(all[j] == rest.changed[j - once.changed.len()]);
            }
        }
    }
}

/// Recalculating the whole of a grid that allows a solution succeeds, and
/// the grid that it leaves allows the solution still.
pub proof fn lemma_update_board_allows(k: int, g: CandidateGrid, s: Seq<Seq<usize>>)
    requires
        fits(g, k),
        allows(g, k, s),
    ensures
        update_board_spec(k, g) is Ok,
        fits(update_board_spec(k, g).unwrap().grid, k),
        allows(update_board_spec(k, g).unwrap().grid, k, s),
{
    let n = g.len();
    let cells = all_cells(n);
    assert forall|j: int| 0 <= j < cells.len() implies (#[trigger] cells[j]).0 < n && cells[j].1
        < n by {
        assert(n > 0) by (nonlinear_arith)
            requires
                0 <= j < n * n,
        ;
        assert(0 <= j / (n as int) < n) by (nonlinear_arith)
            requires
                0 <= j < n * n,
                n > 0,
        ;
        vstd::arithmetic::div_mod::lemma_mod_bound(j, n as int);
    }
    lemma_sweep_allows(k, start_on(g), cells, s);
    let first = sweep(k, start_on(g), cells).unwrap();
    lemma_settle_allows(k, first.grid, first.changed, s);
}

/// Every value that the group holds, fixed or as an option, lies between
/// `1` and the number of its cells.
pub open spec fn group_in_domain(group: Seq<CellState>) -> bool {
    forall|i: int|
        0 <= i < group.len() ==> match #[trigger] group[i] {
            CellState::Fixed(v) => 1 <= v <= group.len(),
            CellState::Open(options) => forall|j: int|
                0 <= j < options.len() ==> 1 <= #[trigger] options[j] <= group.len(),
        }
}

/// The full group `t` is one that the group of candidate cells allows.
pub open spec fn group_allows(group: Seq<CellState>, t: Seq<usize>) -> bool {
    &&& is_full_group(t, group.len())
    &&& forall|i: int| 0 <= i < group.len() ==> admits(#[trigger] group[i], t[i])
}

/// A value that stands among the options stands there once at least.
pub proof fn lemma_count_positive(options: Seq<usize>, v: usize)
    requires
        options.contains(v),
    ensures
        count_in(options, v) >= 1,
    decreases options.len(),
{
    let j = choose|j: int| 0 <= j < options.len() && options[j] == v;
    if j < options.len() - 1 {
        assert(options.drop_last()[j] == v);
        lemma_count_positive(options.drop_last(), v);
    }
}

/// A value stands among the options of a group as often, at least, as it
/// stands among those of one of its cells.
pub proof fn lemma_occurrences_one(group: Seq<CellState>, i: int, v: usize)
    requires
        0 <= i < group.len(),
    ensures
        occurrences(group, v) >= count_in_cell(group[i], v),
    decreases group.len(),
{
    if i < group.len() - 1 {
        assert(group.drop_last()[i] == group[i]);
        lemma_occurrences_one(group.drop_last(), i, v);
    }
}

/// A value stands among the options of a group as often, at least, as it
/// stands among those of two of its cells together.
pub proof fn lemma_occurrences_two(group: Seq<CellState>, i: int, j: int, v: usize)
    requires
        0 <= i < j < group.len(),
    ensures
        occurrences(group, v) >= count_in_cell(group[i], v) + count_in_cell(group[j], v),
    decreases group.len(),
{
    if j < group.len() - 1 {
        assert(group.drop_last()[i] == group[i]);
        assert(group.drop_last()[j] == group[j]);
        lemma_occurrences_two(group.drop_last(), i, j, v);
    } else {
        assert(group.drop_last()[i] == group[i]);
        lemma_occurrences_one(group.drop_last(), i, v);
    }
}

/// A hidden single is the value of the cell that offers it, in every full
/// group that the candidate cells allow.
pub proof fn lemma_single_is_forced(group: Seq<CellState>, t: Seq<usize>, i: int, v: usize)
    requires
        group_allows(group, t),
        group_in_domain(group),
        0 <= i < group.len(),
        group[i] matches CellState::Open(options) && options.contains(v),
        is_hidden_single(group, v),
    ensures
        t[i] == v,
{
    let n = group.len();
    let options = group[i]->Open_0;
    let at = choose|at: int| 0 <= at < options.len() && options[at] == v;
    assert(1 <= options[at] <= n);
    lemma_full_group_holds_each_once(t, n, v);
    let j = choose|j: int| 0 <= j < t.len() && t[j] == v;
    assert(admits(group[j], t[j]));
    match group[j] {
        CellState::Fixed(value) => {
            assert(group[j] == CellState::Fixed(v));
            assert(is_fixed_in(group, v));
        },
        CellState::Open(others) => {
            lemma_count_positive(others, v);
            lemma_count_positive(options, v);
            if i < j {
                lemma_occurrences_two(group, i, j, v);
            } else if j < i {
                lemma_occurrences_two(group, j, i, v);
            }
        },
    }
}

/// The first hidden single among the options is one of the options, and a
/// hidden single.
pub proof fn lemma_first_single(group: Seq<CellState>, options: Seq<usize>)
    requires
        first_single(group, options) is Some,
    ensures
        options.contains(first_single(group, options).unwrap()),
        is_hidden_single(group, first_single(group, options).unwrap()),
    decreases options.len(),
{
    if is_hidden_single(group, options[0]) {
        assert(options[0] == first_single(group, options).unwrap());
    } else {
        lemma_first_single(group, options.skip(1));
        let v = first_single(group, options).unwrap();
        let j = choose|j: int| 0 <= j < options.skip(1).len() && options.skip(1)[j] == v;
        assert(options[j + 1] == v);
    }
}

/// What one look finds in a group holds in every full group that the
/// candidate cells allow.
pub proof fn lemma_single_of_is_forced(group: Seq<CellState>, t: Seq<usize>, i: int)
    requires
        group_allows(group, t),
        group_in_domain(group),
        0 <= i < group.len(),
        single_of(group, i) is Some,
    ensures
        t[i] == single_of(group, i).unwrap(),
        group[i] is Open,
{
    let options = group[i]->Open_0;
    lemma_first_single(group, options);
    lemma_single_is_forced(group, t, i, single_of(group, i).unwrap());
}

/// The group with the findings of one look written into it allows every
/// full group that it allowed before.
pub proof fn lemma_apply_allows(group: Seq<CellState>, t: Seq<usize>)
    requires
        group_allows(group, t),
        group_in_domain(group),
    ensures
        group_allows(apply_pass(group), t),
        group_in_domain(apply_pass(group)),
{
    let next = apply_pass(group);
    assert forall|i: int| 0 <= i < next.len() implies admits(#[trigger] next[i], t[i]) by {
        if single_of(group, i) is Some {
            lemma_single_of_is_forced(group, t, i);
        } else {
            assert(admits(group[i], t[i]));
        }
    }
    assert forall|i: int| 0 <= i < next.len() implies match #[trigger] next[i] {
        CellState::Fixed(v) => 1 <= v <= next.len(),
        CellState::Open(options) => forall|j: int|
            0 <= j < options.len() ==> 1 <= #[trigger] options[j] <= next.len(),
    } by {
        if single_of(group, i) is Some {
            lemma_single_of_is_forced(group, t, i);
            assert(1 <= t[i] <= group.len());
        } else {
            assert(next[i] == group[i]);
        }
    }
}

/// The values of a group are the values of its cells.
pub proof fn lemma_group_values(group: Seq<CellState>, x: usize)
    ensures
        group_values(group).contains(x) <==> exists|i: int|
            0 <= i < group.len() && cell_values(#[trigger] group[i]).contains(x),
    decreases group.len(),
{
    if group.len() > 0 {
        let short = group.drop_last();
        lemma_group_values(short, x);
        crate::lists::lemma_joined_contains(group_values(short), cell_values(group.last()));
        if group_values(group).contains(x) {
            if group_values(short).contains(x) {
                let i = choose|i: int|
                    0 <= i < short.len() && cell_values(#[trigger] short[i]).contains(x);
                assert(cell_values(group[i]).contains(x));
            } else {
                assert(cell_values(group[group.len() - 1]).contains(x));
            }
        }
        if exists|i: int| 0 <= i < group.len() && cell_values(#[trigger] group[i]).contains(x) {
            let i = choose|i: int|
                0 <= i < group.len() && cell_values(#[trigger] group[i]).contains(x);
            if i < short.len() {
                assert(cell_values(short[i]).contains(x));
            }
        }
    } else {
        assert(!group_values(group).contains(x));
    }
}

/// A group that allows a full group has as many different values as cells.
pub proof fn lemma_allowed_is_complete(group: Seq<CellState>, t: Seq<usize>)
    requires
        group_allows(group, t),
        group_in_domain(group),
    ensures
        is_complete(group),
{
    let n = group.len();
    let all = values_up_to(n);
    let held = group_values(group);
    assert(held.to_set() =~= all.to_set()) by {
        assert forall|x: usize| held.to_set().contains(x) <==> all.to_set().contains(x) by {
            lemma_group_values(group, x);
            if held.contains(x) {
                let i = choose|i: int|
                    0 <= i < group.len() && cell_values(#[trigger] group[i]).contains(x);
                let values = cell_values(group[i]);
                let j = choose|j: int| 0 <= j < values.len() && values[j] == x;
                match group[i] {
                    CellState::Fixed(v) => {
                        assert(values[j] == v);
                    },
                    CellState::Open(options) => {
                        assert(1 <= options[j] <= n);
                    },
                }
                assert(all[x - 1] == x);
            }
            if all.contains(x) {
                assert(1 <= x <= n);
                lemma_full_group_holds_each_once(t, n, x);
                let i = choose|i: int| 0 <= i < t.len() && t[i] == x;
                assert(admits(group[i], t[i]));
                match group[i] {
                    CellState::Fixed(v) => {
                        assert(seq![v][0] == x);
                    },
                    CellState::Open(options) => {},
                }
                assert(cell_values(group[i]).contains(x));
            }
        }
    }
    assert(all.no_duplicates());
    all.unique_seq_to_set();
}

/// Every finding of one look names a cell and the hidden single that
/// decides it.
pub proof fn lemma_singles_are_singles(group: Seq<CellState>, len: nat)
    requires
        len <= group.len(),
        group.len() <= usize::MAX,
    ensures
        forall|j: int|
            0 <= j < singles_upto(group, len).len() ==> (#[trigger] singles_upto(group, len)[j]).0
                < len && single_of(group, singles_upto(group, len)[j].0 as int) == Some(
                singles_upto(group, len)[j].1,
            ),
    decreases len,
{
    if len > 0 {
        lemma_singles_are_singles(group, (len - 1) as nat);
        let before = singles_upto(group, (len - 1) as nat);
        let now = singles_upto(group, len);
        assert forall|j: int| 0 <= j < now.len() implies (#[trigger] now[j]).0 < len && single_of(
            group,
            now[j].0 as int,
        ) == Some(now[j].1) by {
            if j < before.len() {
                assert(now[j] == before[j]);
            }
        }
    }
}

/// The search for hidden singles in a group that allows a full group
/// succeeds, and what it finds holds in that full group.
pub proof fn lemma_infer_group_allows(group: Seq<CellState>, t: Seq<usize>)
    requires
        group_allows(group, t),
        group_in_domain(group),
        group.len() <= usize::MAX,
    ensures
        infer_group_spec(group) is Ok,
        forall|j: int|
            0 <= j < infer_group_spec(group).unwrap().len() ==> (#[trigger] infer_group_spec(
                group,
            ).unwrap()[j]).0 < group.len() && t[infer_group_spec(group).unwrap()[j].0 as int]
                == infer_group_spec(group).unwrap()[j].1,
    decreases open_in(group),
{
    lemma_allowed_is_complete(group, t);
    let first = singles_pass(group);
    if first.len() > 0 {
        let next = apply_pass(group);
        lemma_apply_fewer_open(group);
        lemma_apply_allows(group, t);
        lemma_infer_group_allows(next, t);
        lemma_singles_are_singles(group, group.len());
        let more = infer_group_spec(next).unwrap();
        let found = infer_group_spec(group).unwrap();
        assert(found == first + more);
        assert forall|j: int| 0 <= j < found.len() implies (#[trigger] found[j]).0 < group.len()
            && t[found[j].0 as int] == found[j].1 by {
            if j < first.len() {
                assert(found[j] == first[j]);
                lemma_single_of_is_forced(group, t, first[j].0 as int);
            } else {
                assert(found[j] == more[j - first.len()]);
            }
        }
    }
}

/// The finding names a cell of the grid `s` and the value that `s` has
/// there.
pub open spec fn finding_fits(s: Seq<Seq<usize>>, f: InferredPosition) -> bool {
    f.row < s.len() && f.col < s.len() && s[f.row as int][f.col as int] == f.value
}

/// Every finding of the search names a cell of `s` and the value that `s`
/// has there.
pub open spec fn all_fit(
    s: Seq<Seq<usize>>,
    found: Result<Seq<InferredPosition>, SudokuError>,
) -> bool {
    found matches Ok(list) && forall|j: int|
        0 <= j < list.len() ==> finding_fits(s, #[trigger] list[j])
}

/// The search of a row of a grid that allows a solution succeeds, and what
/// it finds holds in the solution.
pub proof fn lemma_infer_row_allows(g: CandidateGrid, k: int, s: Seq<Seq<usize>>, index: usize)
    requires
        fits(g, k),
        allows(g, k, s),
    ensures
        all_fit(s, infer_row_spec(g, index)),
{
    let n = g.len();
    if index < n {
        let group = g[index as int];
        let t = s[index as int];
        lemma_solution_groups_are_full(s, k, index as int);
        assert(group.len() == n);
        assert(group_allows(group, t)) by {
            assert forall|i: int| 0 <= i < group.len() implies admits(
                #[trigger] group[i],
                t[i],
            ) by {
                assert(admits(g[index as int][i], s[index as int][i]));
            }
        }
        assert(group_in_domain(group)) by {
            assert forall|i: int| 0 <= i < group.len() implies match #[trigger] group[i] {
                CellState::Fixed(v) => 1 <= v <= group.len(),
                CellState::Open(options) => forall|j: int|
                    0 <= j < options.len() ==> 1 <= #[trigger] options[j] <= group.len(),
            } by {
                assert(g[index as int][i] == group[i]);
            }
        }
        lemma_infer_group_allows(group, t);
        let found = infer_group_spec(group).unwrap();
        let list = in_row(index, found);
        assert forall|j: int| 0 <= j < list.len() implies finding_fits(s, #[trigger] list[j]) by {
            assert(found[j].0 < n);
        }
    }
}

/// The search of a column of a grid that allows a solution succeeds, and
/// what it finds holds in the solution.
pub proof fn lemma_infer_col_allows(g: CandidateGrid, k: int, s: Seq<Seq<usize>>, index: usize)
    requires
        fits(g, k),
        allows(g, k, s),
    ensures
        all_fit(s, infer_col_spec(g, index)),
{
    let n = g.len();
    if index < n {
        let group = grid_col(g, index as int);
        let t = grid_col(s, index as int);
        lemma_solution_groups_are_full(s, k, index as int);
        assert(group_allows(group, t)) by {
            assert forall|i: int| 0 <= i < group.len() implies admits(
                #[trigger] group[i],
                t[i],
            ) by {
                assert(g[i].len() == n);
                assert(admits(g[i][index as int], s[i][index as int]));
            }
        }
        assert(group_in_domain(group)) by {
            assert forall|i: int| 0 <= i < group.len() implies match #[trigger] group[i] {
                CellState::Fixed(v) => 1 <= v <= group.len(),
                CellState::Open(options) => forall|j: int|
                    0 <= j < options.len() ==> 1 <= #[trigger] options[j] <= group.len(),
            } by {
                assert(g[i].len() == n);
                assert(g[i][index as int] == group[i]);
            }
        }
        lemma_infer_group_allows(group, t);
        let found = infer_group_spec(group).unwrap();
        let list = in_col(index, found);
        assert forall|j: int| 0 <= j < list.len() implies finding_fits(s, #[trigger] list[j]) by {
            assert(found[j].0 < n);
            assert(t[found[j].0 as int] == s[found[j].0 as int][index as int]);
        }
    }
}

/// The search of box `b` of a grid that allows a solution succeeds, and
/// what it finds holds in the solution.
pub proof fn lemma_infer_box_allows(g: CandidateGrid, k: int, s: Seq<Seq<usize>>, b: int)
    requires
        fits(g, k),
        allows(g, k, s),
        0 <= b < g.len(),
    ensures
        all_fit(
            s,
            located(
                infer_group_spec(grid_box(g, k, b)),
                |found: Seq<InferType>| in_square(k, b, found),
            ),
        ),
{
    let n = g.len();
    lemma_box_side_positive(k, n as int);
    let group = grid_box(g, k, b);
    let t = grid_box(s, k, b);
    lemma_solution_groups_are_full(s, k, b);
    assert(group_allows(group, t)) by {
        assert forall|i: int| 0 <= i < group.len() implies admits(#[trigger] group[i], t[i]) by {
            lemma_box_to_cell(k, b, i);
            let br = crate::geometry::box_cell_row(k, b, i);
            let bc = crate::geometry::box_cell_col(k, b, i);
            assert(g[br].len() == n);
            assert(admits(g[br][bc], s[br][bc]));
        }
    }
    assert(group_in_domain(group)) by {
        assert forall|i: int| 0 <= i < group.len() implies match #[trigger] group[i] {
            CellState::Fixed(v) => 1 <= v <= group.len(),
            CellState::Open(options) => forall|j: int|
                0 <= j < options.len() ==> 1 <= #[trigger] options[j] <= group.len(),
        } by {
            lemma_box_to_cell(k, b, i);
            let br = crate::geometry::box_cell_row(k, b, i);
            let bc = crate::geometry::box_cell_col(k, b, i);
            assert(g[br].len() == n);
            assert(g[br][bc] == group[i]);
        }
    }
    lemma_infer_group_allows(group, t);
    let found = infer_group_spec(group).unwrap();
    let list = in_square(k, b, found);
    assert forall|j: int| 0 <= j < list.len() implies finding_fits(s, #[trigger] list[j]) by {
        assert(found[j].0 < n);
        lemma_box_to_cell(k, b, found[j].0 as int);
        assert(t[found[j].0 as int] == found[j].1);
    }
}

/// The search of a box, named by its row and column among the boxes, of a
/// grid that allows a solution succeeds, and what it finds holds in the
/// solution.
pub proof fn lemma_infer_square_allows(
    g: CandidateGrid,
    k: int,
    s: Seq<Seq<usize>>,
    s_row: usize,
    s_col: usize,
)
    requires
        fits(g, k),
        allows(g, k, s),
    ensures
        all_fit(s, infer_square_spec(g, k, s_row, s_col)),
{
    if s_row < k && s_col < k {
        crate::geometry::lemma_join(k, s_row as int, s_col as int);
        lemma_infer_box_allows(g, k, s, s_row * k + s_col);
    }
}

/// The search of the box of a cell of a grid that allows a solution
/// succeeds, and what it finds holds in the solution.
pub proof fn lemma_infer_square_of_allows(
    g: CandidateGrid,
    k: int,
    s: Seq<Seq<usize>>,
    row: usize,
    col: usize,
)
    requires
        fits(g, k),
        allows(g, k, s),
    ensures
        all_fit(s, infer_square_of_spec(g, k, row, col)),
{
    if row < g.len() && col < g.len() {
        lemma_infer_square_allows(g, k, s, (row as int / k) as usize, (col as int / k) as usize);
    }
}

/// Two searches whose findings hold in a grid, one after the other, find
/// what holds in the grid.
pub proof fn lemma_joined_fit(
    s: Seq<Seq<usize>>,
    first: Result<Seq<InferredPosition>, SudokuError>,
    second: Result<Seq<InferredPosition>, SudokuError>,
)
    requires
        all_fit(s, first),
        all_fit(s, second),
    ensures
        all_fit(s, joined(first, second)),
{
    let head = first.unwrap();
    let tail = second.unwrap();
    let list = head + tail;
    assert forall|j: int| 0 <= j < list.len() implies finding_fits(s, #[trigger] list[j]) by {
        if j < head.len() {
            assert(list[j] == head[j]);
        } else {
            assert(list[j] == tail[j - head.len()]);
        }
    }
}

/// The search of the first rows, columns and boxes of a grid that allows a
/// solution succeeds, and what it finds holds in the solution.
pub proof fn lemma_findings_upto_allow(g: CandidateGrid, k: int, s: Seq<Seq<usize>>, len: nat)
    requires
        fits(g, k),
        allows(g, k, s),
        len <= g.len(),
    ensures
        all_fit(s, findings_upto(g, k, len)),
    decreases len,
{
    if len > 0 {
        let i = (len - 1) as usize;
        lemma_findings_upto_allow(g, k, s, (len - 1) as nat);
        lemma_infer_row_allows(g, k, s, i);
        lemma_infer_col_allows(g, k, s, i);
        lemma_infer_square_allows(g, k, s, (i as int / k) as usize, (i as int % k) as usize);
        let a = joined(findings_upto(g, k, (len - 1) as nat), infer_row_spec(g, i));
        lemma_joined_fit(s, findings_upto(g, k, (len - 1) as nat), infer_row_spec(g, i));
        let b = joined(a, infer_col_spec(g, i));
        lemma_joined_fit(s, a, infer_col_spec(g, i));
        lemma_joined_fit(
            s,
            b,
            infer_square_spec(g, k, (i as int / k) as usize, (i as int % k) as usize),
        );
    } else {
        assert(findings_upto(g, k, len).unwrap().len() == 0);
    }
}

/// A list of findings that hold in a grid, with one more such finding put
/// in its place, holds findings that hold in the grid.
pub proof fn lemma_place_fits(
    s: Seq<Seq<usize>>,
    list: Seq<InferredPosition>,
    item: InferredPosition,
)
    requires
        forall|j: int| 0 <= j < list.len() ==> finding_fits(s, #[trigger] list[j]),
        finding_fits(s, item),
    ensures
        forall|j: int|
            0 <= j < place(list, item).len() ==> finding_fits(s, #[trigger] place(list, item)[j]),
    decreases list.len(),
{
    if list.len() > 0 {
        let short = list.drop_last();
        assert forall|j: int| 0 <= j < short.len() implies finding_fits(s, #[trigger] short[j]) by {
            assert(short[j] == list[j]);
        }
        lemma_place_fits(s, short, item);
        let placed = place(list, item);
        assert forall|j: int| 0 <= j < placed.len() implies finding_fits(
            s,
            #[trigger] placed[j],
        ) by {
            if same_cell(list.last(), item) {
            } else if comes_before(list.last().row, list.last().col, item.row, item.col) {
                if j < list.len() {
                    assert(placed[j] == list[j]);
                }
            } else {
                let inner = place(short, item);
                if j < inner.len() {
                    assert(placed[j] == inner[j]);
                } else {
                    assert(placed[j] == list[list.len() - 1]);
                }
            }
        }
    }
}

/// Findings that hold in a grid hold in it when they are put in order.
pub proof fn lemma_arrange_fits(s: Seq<Seq<usize>>, raw: Seq<InferredPosition>)
    requires
        forall|j: int| 0 <= j < raw.len() ==> finding_fits(s, #[trigger] raw[j]),
    ensures
        forall|j: int| 0 <= j < arrange(raw).len() ==> finding_fits(s, #[trigger] arrange(raw)[j]),
    decreases raw.len(),
{
    if raw.len() > 0 {
        let short = raw.drop_last();
        assert forall|j: int| 0 <= j < short.len() implies finding_fits(s, #[trigger] short[j]) by {
            assert(short[j] == raw[j]);
        }
        lemma_arrange_fits(s, short);
        assert(raw.last() == raw[raw.len() - 1]);
        lemma_place_fits(s, arrange(short), raw.last());
    }
}

/// The search of the whole of a grid that allows a solution succeeds, and
/// what it finds holds in the solution.
pub proof fn lemma_infer_all_allows(g: CandidateGrid, k: int, s: Seq<Seq<usize>>)
    requires
        fits(g, k),
        allows(g, k, s),
    ensures
        all_fit(s, infer_all_spec(g, k)),
{
    lemma_findings_upto_allow(g, k, s, g.len());
    lemma_arrange_fits(s, findings_upto(g, k, g.len()).unwrap());
}

/// The search of the groups of the given positions in a grid that allows a
/// solution succeeds, and what it finds holds in the solution.
pub proof fn lemma_findings_near_allow(
    g: CandidateGrid,
    k: int,
    s: Seq<Seq<usize>>,
    positions: Seq<(usize, usize)>,
)
    requires
        fits(g, k),
        allows(g, k, s),
    ensures
        all_fit(s, findings_near(g, k, positions)),
    decreases positions.len(),
{
    if positions.len() > 0 {
        let before = positions.drop_last();
        let at = positions.last();
        lemma_findings_near_allow(g, k, s, before);
        lemma_infer_row_allows(g, k, s, at.0);
        lemma_infer_col_allows(g, k, s, at.1);
        lemma_infer_square_of_allows(g, k, s, at.0, at.1);
        let none = Ok::<Seq<InferredPosition>, SudokuError>(Seq::empty());
        assert(all_fit(s, none));
        let with_row = !names_row(before, at.0);
        let with_col = !names_col(before, at.1);
        let with_box = at.0 < g.len() && at.1 < g.len() && !names_box_inside(
            k,
            g.len(),
            before,
            box_of(k, at),
        );
        let a = unless(!with_row, infer_row_spec(g, at.0));
        let b = unless(!with_col, infer_col_spec(g, at.1));
        let c = unless(!with_box, infer_square_of_spec(g, k, at.0, at.1));
        lemma_joined_fit(s, a, b);
        lemma_joined_fit(s, joined(a, b), c);
        lemma_joined_fit(s, findings_near(g, k, before), fresh_findings(g, k, before, at));
    } else {
        assert(findings_near(g, k, positions).unwrap().len() == 0);
    }
}

/// The search of the groups of the given positions in a grid that allows a
/// solution succeeds, and what it finds, put in order, holds in the
/// solution.
pub proof fn lemma_infer_positions_allows(
    g: CandidateGrid,
    k: int,
    s: Seq<Seq<usize>>,
    positions: Seq<(usize, usize)>,
)
    requires
        fits(g, k),
        allows(g, k, s),
    ensures
        all_fit(s, infer_positions_spec(g, k, positions)),
{
    lemma_findings_near_allow(g, k, s, positions);
    lemma_arrange_fits(s, findings_near(g, k, positions).unwrap());
}

/// Writing findings that hold in a solution into a grid that allows the
/// solution leaves a grid that allows it still.
pub proof fn lemma_commit_allows(
    from: Progress,
    findings: Seq<InferredPosition>,
    k: int,
    s: Seq<Seq<usize>>,
)
    requires
        fits(from.grid, k),
        allows(from.grid, k, s),
        forall|j: int| 0 <= j < findings.len() ==> finding_fits(s, #[trigger] findings[j]),
    ensures
        fits(commit(from, findings).grid, k),
        allows(commit(from, findings).grid, k, s),
    decreases findings.len(),
{
    if findings.len() > 0 {
        let short = findings.drop_last();
        assert forall|j: int| 0 <= j < short.len() implies finding_fits(s, #[trigger] short[j]) by {
            assert(short[j] == findings[j]);
        }
        lemma_commit_allows(from, short, k, s);
        let mid = commit(from, short);
        let f = findings.last();
        assert(f == findings[findings.len() - 1]);
        let to = commit_step(mid, f);
        if to != mid {
            let g = mid.grid;
            let n = g.len();
            let r = f.row as int;
            let c = f.col as int;
            let state = CellState::Fixed(f.value);
            assert(g[r].len() == n);
            assert(1 <= s[r][c] <= n);
            assert(is_square_grid(to.grid)) by {
                assert forall|i: int| 0 <= i < to.grid.len() implies (#[trigger] to.grid[i]).len()
                    == to.grid.len() by {
                    assert(g[i].len() == n);
                }
            }
            assert(in_domain(to.grid)) by {
                assert forall|r2: int, c2: int| 0 <= r2 < n && 0 <= c2 < n implies match (
                #[trigger] to.grid[r2][c2]) {
                    CellState::Fixed(v) => 1 <= v <= n,
                    CellState::Open(options) => options.len() <= n && forall|j: int|
                        0 <= j < options.len() ==> 1 <= #[trigger] options[j] <= n,
                } by {
                    assert(g[r2].len() == n);
                    if r2 == r && c2 == c {
                        assert(to.grid[r2][c2] == state);
                    } else {
                        assert(to.grid[r2][c2] == g[r2][c2]);
                    }
                }
            }
            assert(allows(to.grid, k, s)) by {
                assert forall|r2: int, c2: int| 0 <= r2 < n && 0 <= c2 < n implies admits(
                    #[trigger] to.grid[r2][c2],
                    s[r2][c2],
                ) by {
                    assert(g[r2].len() == n);
                    if r2 == r && c2 == c {
                        assert(to.grid[r2][c2] == state);
                    } else {
                        assert(to.grid[r2][c2] == g[r2][c2]);
                        assert(admits(g[r2][c2], s[r2][c2]));
                    }
                }
            }
        }
    }
}

/// The deductions on a grid that allows a solution, from findings that
/// hold in the solution, succeed, and the grid that they leave allows the
/// solution still.
pub proof fn lemma_deduce_allows(
    k: int,
    g: CandidateGrid,
    findings: Seq<InferredPosition>,
    from_all: bool,
    s: Seq<Seq<usize>>,
)
    requires
        fits(g, k),
        allows(g, k, s),
        forall|j: int| 0 <= j < findings.len() ==> finding_fits(s, #[trigger] findings[j]),
    ensures
        deduce(k, g, findings, from_all) is Ok,
        fits(deduce(k, g, findings, from_all).unwrap(), k),
        allows(deduce(k, g, findings, from_all).unwrap(), k, s),
    decreases crate::analyze::open_count(g), if from_all { 0nat } else { 1nat },
{
    let written = commit(start_on(g), findings);
    lemma_commit_keeps(start_on(g), findings);
    lemma_commit_allows(start_on(g), findings, k, s);
    if written.changed.len() != 0 {
        assert(all_in_range(g.len(), start_on(g).changed));
        lemma_settle_allows(k, written.grid, written.changed, s);
        crate::fixpoint::lemma_settle_shape(k, written.grid, written.changed);
        let rest = settle(k, written.grid, written.changed).unwrap();
        lemma_infer_positions_allows(rest.grid, k, s, written.changed + rest.changed);
        let next = infer_positions_spec(rest.grid, k, written.changed + rest.changed).unwrap();
        lemma_deduce_allows(k, rest.grid, next, false, s);
    } else if !from_all {
        lemma_infer_all_allows(g, k, s);
        lemma_deduce_allows(k, g, infer_all_spec(g, k).unwrap(), true, s);
    }
}

/// All deductions on a grid that allows a solution succeed, and the grid
/// that they leave allows the solution still.
pub proof fn lemma_propagate_allows(k: int, g: CandidateGrid, s: Seq<Seq<usize>>)
    requires
        fits(g, k),
        allows(g, k, s),
    ensures
        propagate_spec(k, g) is Ok,
        fits(propagate_spec(k, g).unwrap(), k),
        allows(propagate_spec(k, g).unwrap(), k, s),
{
    lemma_infer_all_allows(g, k, s);
    lemma_deduce_allows(k, g, infer_all_spec(g, k).unwrap(), true, s);
}

/// Putting a value in its slot adds that value to the list and nothing
/// else.
pub proof fn lemma_slot_holds(g: CandidateGrid, list: Seq<usize>, v: usize, x: usize)
    ensures
        slot(g, list, v).contains(x) <==> list.contains(x) || x == v,
    decreases list.len(),
{
    if list.len() == 0 {
        assert(seq![v][0] == v);
    } else if uses(g, list.last()) <= uses(g, v) {
        crate::lists::lemma_push_contains(list, v);
    } else {
        let short = list.drop_last();
        lemma_slot_holds(g, short, v, x);
        crate::lists::lemma_push_contains(slot(g, short, v), list.last());
        crate::lists::lemma_push_contains(short, list.last());
        assert(short.push(list.last()) =~= list);
    }
}

/// Ordering the options by use keeps every option and adds none.
pub proof fn lemma_by_use_holds(g: CandidateGrid, options: Seq<usize>, x: usize)
    ensures
        by_use(g, options).contains(x) <==> options.contains(x),
    decreases options.len(),
{
    if options.len() > 0 {
        let short = options.drop_last();
        lemma_by_use_holds(g, short, x);
        lemma_slot_holds(g, by_use(g, short), options.last(), x);
        crate::lists::lemma_push_contains(short, options.last());
        assert(short.push(options.last()) =~= options);
    }
}

/// The fewest options among the listed cells: no open cell of the list has
/// fewer, and unless it is the bound, some open cell of the list has
/// exactly as many.
pub proof fn lemma_shortest_open(g: CandidateGrid, cells: Seq<(usize, usize)>, bound: nat)
    ensures
        shortest_open(g, cells, bound) <= bound,
        forall|j: int|
            0 <= j < cells.len() ==> (cell_at(g, #[trigger] cells[j]) matches CellState::Open(o)
                ==> shortest_open(g, cells, bound) <= o.len()),
        shortest_open(g, cells, bound) == bound || exists|j: int|
            0 <= j < cells.len() && has_options(
                g,
                #[trigger] cells[j],
                shortest_open(g, cells, bound),
            ),
    decreases cells.len(),
{
    if cells.len() > 0 {
        let short = cells.drop_last();
        lemma_shortest_open(g, short, bound);
        let before = shortest_open(g, short, bound);
        let now = shortest_open(g, cells, bound);
        assert forall|j: int| 0 <= j < cells.len() implies (cell_at(
            g,
            #[trigger] cells[j],
        ) matches CellState::Open(o) ==> now <= o.len()) by {
            if j < short.len() {
                assert(short[j] == cells[j]);
            }
        }
        if now != bound {
            if now == before {
                let j = choose|j: int|
                    0 <= j < short.len() && has_options(g, #[trigger] short[j], before);
                assert(cells[j] == short[j]);
            } else {
                assert(has_options(g, cells[cells.len() - 1], now));
            }
        }
    }
}

/// A grid with an open cell has a cell to guess at.
pub proof fn lemma_tied_exist(g: CandidateGrid, k: int, r: int, c: int)
    requires
        fits(g, k),
        0 <= r < g.len(),
        0 <= c < g.len(),
        g[r][c] is Open,
    ensures
        tied_cells(g).len() > 0,
{
    let n = g.len();
    let cells = all_cells(n);
    let least = fewest_options(g);
    let wanted = |cell: (usize, usize)| has_options(g, cell, least);
    lemma_shortest_open(g, cells, n);
    let i = r * n + c;
    assert(0 <= i < n * n) by (nonlinear_arith)
        requires
            0 <= r < n,
            0 <= c < n,
            i == r * n + c,
    ;
    vstd::arithmetic::div_mod::lemma_fundamental_div_mod_converse(i, n as int, r, c);
    assert(cells[i] == (r as usize, c as usize));
    let options = g[r][c]->Open_0;
    assert(cell_at(g, cells[i]) == g[r][c]);
    assert(least <= options.len());
    assert(options.len() <= n);
    let j = if least == n {
        i
    } else {
        choose|j: int| 0 <= j < cells.len() && has_options(g, #[trigger] cells[j], least)
    };
    assert(wanted(cells[j]));
    cells.lemma_filter_contains(wanted, j);
    assert(tied_cells(g).contains(cells[j]));
}

/// Fixing an open cell to the value that a solution has there leaves a
/// grid that allows the solution still.
pub proof fn lemma_fix_allows(g: CandidateGrid, k: int, s: Seq<Seq<usize>>, r: int, c: int)
    requires
        fits(g, k),
        allows(g, k, s),
        0 <= r < g.len(),
        0 <= c < g.len(),
    ensures
        fits(grid_with(g, r, c, CellState::Fixed(s[r][c])), k),
        allows(grid_with(g, r, c, CellState::Fixed(s[r][c])), k, s),
{
    let n = g.len();
    let state = CellState::Fixed(s[r][c]);
    let to = grid_with(g, r, c, state);
    assert(g[r].len() == n);
    assert(1 <= s[r][c] <= n);
    assert(is_square_grid(to)) by {
        assert forall|i: int| 0 <= i < to.len() implies (#[trigger] to[i]).len() == to.len() by {
            assert(g[i].len() == n);
        }
    }
    assert(in_domain(to)) by {
        assert forall|r2: int, c2: int| 0 <= r2 < n && 0 <= c2 < n implies match (
        #[trigger] to[r2][c2]) {
            CellState::Fixed(v) => 1 <= v <= n,
            CellState::Open(options) => options.len() <= n && forall|j: int|
                0 <= j < options.len() ==> 1 <= #[trigger] options[j] <= n,
        } by {
            assert(g[r2].len() == n);
            if r2 == r && c2 == c {
                assert(to[r2][c2] == state);
            } else {
                assert(to[r2][c2] == g[r2][c2]);
            }
        }
    }
    assert(allows(to, k, s)) by {
        assert forall|r2: int, c2: int| 0 <= r2 < n && 0 <= c2 < n implies admits(
            #[trigger] to[r2][c2],
            s[r2][c2],
        ) by {
            assert(g[r2].len() == n);
            if r2 == r && c2 == c {
                assert(to[r2][c2] == state);
            } else {
                assert(to[r2][c2] == g[r2][c2]);
                assert(admits(g[r2][c2], s[r2][c2]));
            }
        }
    }
}

/// A grid whose cells all have their values allows one solution at most:
/// its own numbers.
pub proof fn lemma_fixed_is_solution(g: CandidateGrid, k: int, s: Seq<Seq<usize>>)
    requires
        is_square_grid(g),
        crate::analyze::all_fixed(g),
        allows(g, k, s),
    ensures
        s == crate::analyze::grid_numbers(g),
{
    let numbers = crate::analyze::grid_numbers(g);
    let n = g.len();
    assert(s =~= numbers) by {
        assert forall|r: int| 0 <= r < n implies #[trigger] s[r] =~= numbers[r] by {
            assert(g[r].len() == n);
            assert(s[r].len() == n);
            assert forall|c: int| 0 <= c < n implies s[r][c] == numbers[r][c] by {
                assert(admits(g[r][c], s[r][c]));
                assert(g[r][c] is Fixed);
            }
        }
    }
}

/// What the analysis makes of a cell of a puzzle leaves room for the value
/// that a solution of the puzzle has there, and lies in its domain.
pub proof fn lemma_analysis_allows(b: Seq<Seq<usize>>, k: int, s: Seq<Seq<usize>>, r: int, c: int)
    requires
        is_square_grid(b),
        is_solution(s, k),
        fills(b, s),
        0 <= r < b.len(),
        0 <= c < b.len(),
    ensures
        analyze_cell_spec(b, k, r, c) is Ok,
        admits(analyze_cell_spec(b, k, r, c).unwrap(), s[r][c]),
        match analyze_cell_spec(b, k, r, c).unwrap() {
            CellState::Fixed(v) => 1 <= v <= b.len(),
            CellState::Open(options) => options.len() <= b.len() && forall|j: int|
                0 <= j < options.len() ==> 1 <= #[trigger] options[j] <= b.len(),
        },
{
    let n = b.len();
    assert(b[r].len() == n);
    assert(s[r].len() == n);
    assert(1 <= s[r][c] <= n);
    if b[r][c] == 0 {
        let bx = box_index(k, r, c);
        let o = box_offset(k, r, c);
        lemma_box_side_positive(k, n as int);
        lemma_cell_to_box(k, r, c);
        lemma_solution_groups_are_full(s, k, r);
        lemma_solution_groups_are_full(s, k, c);
        lemma_solution_groups_are_full(s, k, bx);
        assert(hints_at(b[r], s[r]));
        assert(hints_at(grid_col(b, c), grid_col(s, c))) by {
            assert forall|i: int|
                0 <= i < n && #[trigger] grid_col(b, c)[i] != 0 implies grid_col(s, c)[i]
                == grid_col(b, c)[i] by {
                assert(b[i].len() == n);
                assert(b[i][c] != 0 ==> s[i][c] == b[i][c]);
            }
        }
        assert(hints_at(grid_box(b, k, bx), grid_box(s, k, bx))) by {
            assert forall|i: int|
                0 <= i < n && #[trigger] grid_box(b, k, bx)[i] != 0 implies grid_box(s, k, bx)[i]
                == grid_box(b, k, bx)[i] by {
                lemma_box_to_cell(k, bx, i);
                let br = crate::geometry::box_cell_row(k, bx, i);
                let bc = crate::geometry::box_cell_col(k, bx, i);
                assert(b[br].len() == n);
                assert(b[br][bc] != 0 ==> s[br][bc] == b[br][bc]);
            }
        }
        lemma_unknown_is_free(b[r], s[r], n, c);
        lemma_unknown_is_free(grid_col(b, c), grid_col(s, c), n, r);
        lemma_unknown_is_free(grid_box(b, k, bx), grid_box(s, k, bx), n, o);
        lemma_free_holds(n, b[r], grid_col(b, c), grid_box(b, k, bx), s[r][c]);
        lemma_free_in_range(n, b[r], grid_col(b, c), grid_box(b, k, bx));
        let options = free_values(n, b[r], grid_col(b, c), grid_box(b, k, bx));
    } else {
        assert(s[r][c] == b[r][c]);
    }
}

/// A value that stands twice in a group of the puzzle stands twice in that
/// group of every grid that keeps the values of the puzzle.
pub proof fn lemma_repeat_stays(known: Seq<usize>, t: Seq<usize>)
    requires
        hints_at(known, t),
        has_repeat(known),
    ensures
        has_repeat(t),
{
    let (i, j) = choose|i: int, j: int|
        0 <= i < j < known.len() && #[trigger] known[i] == #[trigger] known[j] && known[i] > 0;
    assert(t[i] == known[i]);
    assert(t[j] == known[j]);
    assert(t[i] == t[j] && t[i] > 0);
}

/// A puzzle that has a solution breaks no rule.
pub proof fn lemma_solvable_is_valid(b: Seq<Seq<usize>>, k: int, s: Seq<Seq<usize>>)
    requires
        is_square_grid(b),
        is_solution(s, k),
        fills(b, s),
    ensures
        is_valid_grid(b, k),
{
    let n = b.len();
    assert forall|i: int| 0 <= i < n implies groups_are_clean(b, k, i) by {
        assert(groups_are_clean(s, k, i));
        assert(b[i].len() == n);
        assert(s[i].len() == n);
        lemma_box_side_positive(k, n as int);
        assert(hints_at(b[i], s[i]));
        assert(hints_at(grid_col(b, i), grid_col(s, i))) by {
            assert forall|j: int|
                0 <= j < n && #[trigger] grid_col(b, i)[j] != 0 implies grid_col(s, i)[j]
                == grid_col(b, i)[j] by {
                assert(b[j].len() == n);
                assert(b[j][i] != 0 ==> s[j][i] == b[j][i]);
            }
        }
        assert(hints_at(grid_box(b, k, i), grid_box(s, k, i))) by {
            assert forall|j: int|
                0 <= j < n && #[trigger] grid_box(b, k, i)[j] != 0 implies grid_box(s, k, i)[j]
                == grid_box(b, k, i)[j] by {
                lemma_box_to_cell(k, i, j);
                let br = crate::geometry::box_cell_row(k, i, j);
                let bc = crate::geometry::box_cell_col(k, i, j);
                assert(b[br].len() == n);
                assert(b[br][bc] != 0 ==> s[br][bc] == b[br][bc]);
            }
        }
        if has_repeat(b[i]) {
            lemma_repeat_stays(b[i], s[i]);
        }
        if has_repeat(grid_col(b, i)) {
            lemma_repeat_stays(grid_col(b, i), grid_col(s, i));
        }
        if has_repeat(grid_box(b, k, i)) {
            lemma_repeat_stays(grid_box(b, k, i), grid_box(s, k, i));
        }
    }
}

/// The analysis of a puzzle that has a solution gives a grid in its domain
/// that allows the solution.
pub proof fn lemma_analysed_allows(
    b: Seq<Seq<usize>>,
    k: int,
    s: Seq<Seq<usize>>,
    a: CandidateGrid,
)
    requires
        is_square_grid(b),
        is_square_grid(a),
        a.len() == b.len(),
        b.len() <= usize::MAX,
        is_solution(s, k),
        fills(b, s),
        forall|r: int, c: int|
            0 <= r < b.len() && 0 <= c < b.len() ==> #[trigger] analyze_cell_spec(b, k, r, c)
                == Ok::<CellState, SudokuError>(a[r][c]),
    ensures
        fits(a, k),
        allows(a, k, s),
{
    let n = b.len();
    assert forall|r: int, c: int| 0 <= r < n && 0 <= c < n implies match #[trigger] a[r][c] {
        CellState::Fixed(v) => 1 <= v <= n,
        CellState::Open(options) => options.len() <= n && forall|j: int|
            0 <= j < options.len() ==> 1 <= #[trigger] options[j] <= n,
    } by {
        lemma_analysis_allows(b, k, s, r, c);
        assert(analyze_cell_spec(b, k, r, c) == Ok::<CellState, SudokuError>(a[r][c]));
    }
    assert forall|r: int, c: int| 0 <= r < n && 0 <= c < n implies admits(
        #[trigger] a[r][c],
        s[r][c],
    ) by {
        lemma_analysis_allows(b, k, s, r, c);
        assert(analyze_cell_spec(b, k, r, c) == Ok::<CellState, SudokuError>(a[r][c]));
    }
}

} // verus!
