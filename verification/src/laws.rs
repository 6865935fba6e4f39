//! What holds of solved grids and of the analysis, stated for all grids.

use crate::analyze::{analyze_cell_spec, grid_numbers, values_up_to, CandidateGrid, CellState};
use crate::board::{comes_before, empty_grid};
use crate::geometry::{
    grid_box, grid_col, is_square_grid, lemma_box_side_positive, lemma_box_to_cell,
};
use crate::infer::{arrange, count_in, place, same_cell, InferredPosition};
use crate::solve::{by_use, fills, is_solvable, slot, uses};
use crate::types::SudokuError;
use crate::validators::{groups_are_clean, has_repeat, is_solution};
use vstd::prelude::*;

verus! {

/// A group of a solved grid: as many cells as the grid is wide, every value
/// from `1` to that number, and none twice.
pub open spec fn is_full_group(group: Seq<usize>, n: nat) -> bool {
    &&& group.len() == n
    &&& n <= usize::MAX
    &&& forall|i: int| 0 <= i < n ==> 1 <= #[trigger] group[i] <= n
    &&& !has_repeat(group)
}

/// In a list without repeats, a value that the list holds stands in it
/// exactly once.
pub proof fn lemma_count_once(values: Seq<usize>, v: usize)
    requires
        values.no_duplicates(),
    ensures
        count_in(values, v) == if values.contains(v) {
            1nat
        } else {
            0nat
        },
    decreases values.len(),
{
    if values.len() > 0 {
        let rest = values.drop_last();
        let last = values.last();
        assert(rest.no_duplicates()) by {
            assert forall|i: int, j: int|
                0 <= i < rest.len() && 0 <= j < rest.len() && i != j implies rest[i]
                != rest[j] by {
                assert(values[i] != values[j]);
            }
        }
        lemma_count_once(rest, v);
        if rest.contains(v) {
            let i = choose|i: int| 0 <= i < rest.len() && rest[i] == v;
            assert(values[i] == v);
            assert(values[values.len() - 1] != values[i]);
        } else if last == v {
            assert(values[values.len() - 1] == v);
        } else {
            if values.contains(v) {
                let i = choose|i: int| 0 <= i < values.len() && values[i] == v;
                assert(rest[i] == v);
            }
        }
    }
}

/// A full group holds every value from `1` to its length exactly once.
pub proof fn lemma_full_group_holds_each_once(group: Seq<usize>, n: nat, v: usize)
    requires
        is_full_group(group, n),
        1 <= v <= n,
    ensures
        count_in(group, v) == 1,
        group.contains(v),
{
    let all = values_up_to(n);
    assert(group.no_duplicates()) by {
        assert forall|i: int, j: int|
            0 <= i < group.len() && 0 <= j < group.len() && i != j implies group[i] != group[j] by {
            if group[i] == group[j] {
                if i < j {
                    assert(group[i] == group[j] && group[i] > 0);
                } else {
                    assert(group[j] == group[i] && group[j] > 0);
                }
            }
        }
    }
    assert(all.no_duplicates());
    group.unique_seq_to_set();
    all.unique_seq_to_set();
    vstd::seq_lib::seq_to_set_is_finite(group);
    vstd::seq_lib::seq_to_set_is_finite(all);
    assert(group.to_set().subset_of(all.to_set())) by {
        assert forall|x: usize| group.to_set().contains(x) implies all.to_set().contains(x) by {
            let i = choose|i: int| 0 <= i < group.len() && group[i] == x;
            assert(1 <= group[i] <= n);
            assert(all[x - 1] == x);
        }
    }
    vstd::set_lib::lemma_subset_equality(group.to_set(), all.to_set());
    assert(all[v - 1] == v);
    assert(all.to_set().contains(v));
    assert(group.to_set().contains(v));
    assert(group.contains(v));
    lemma_count_once(group, v);
}

/// The rows, columns and boxes of a solved grid are full groups.
pub proof fn lemma_solution_groups_are_full(s: Seq<Seq<usize>>, k: int, i: int)
    requires
        is_solution(s, k),
        0 <= i < s.len(),
    ensures
        is_full_group(s[i], s.len()),
        is_full_group(grid_col(s, i), s.len()),
        is_full_group(grid_box(s, k, i), s.len()),
{
    let n = s.len();
    assert(groups_are_clean(s, k, i));
    lemma_box_side_positive(k, n as int);
    assert forall|o: int| 0 <= o < n implies 1 <= #[trigger] grid_box(s, k, i)[o] <= n by {
        lemma_box_to_cell(k, i, o);
    }
    assert forall|r: int| 0 <= r < n implies 1 <= #[trigger] grid_col(s, i)[r] <= n by {
        assert(1 <= s[r][i] <= n);
    }
}

/// In a solved grid every row, every column and every box holds each value
/// from `1` to the side length exactly once.
pub proof fn lemma_solution_holds_each_once(s: Seq<Seq<usize>>, k: int, i: int, v: usize)
    requires
        is_solution(s, k),
        0 <= i < s.len(),
        1 <= v <= s.len(),
    ensures
        count_in(s[i], v) == 1,
        count_in(grid_col(s, i), v) == 1,
        count_in(grid_box(s, k, i), v) == 1,
{
    lemma_solution_groups_are_full(s, k, i);
    lemma_full_group_holds_each_once(s[i], s.len(), v);
    lemma_full_group_holds_each_once(grid_col(s, i), s.len(), v);
    lemma_full_group_holds_each_once(grid_box(s, k, i), s.len(), v);
}

/// Every cell of the candidate grid has a value from `1` to the side
/// length.
pub open spec fn all_fixed_in_range(g: CandidateGrid) -> bool {
    forall|r: int, c: int|
        0 <= r < g.len() && 0 <= c < g.len() ==> (#[trigger] g[r][c] matches CellState::Fixed(v)
            && 1 <= v <= g.len())
}

/// Writing a candidate grid whose cells all have values from `1` to the
/// side length as numbers and analysing those numbers gives the candidate
/// grid back.
pub proof fn lemma_numbers_analyse_back(g: CandidateGrid, k: int, r: int, c: int)
    requires
        is_square_grid(g),
        all_fixed_in_range(g),
        0 <= r < g.len(),
        0 <= c < g.len(),
    ensures
        analyze_cell_spec(grid_numbers(g), k, r, c) == Ok::<CellState, SudokuError>(g[r][c]),
{
    assert(g[r].len() == g.len());
    assert(g[r][c] is Fixed);
}

/// The value that the pattern grid with boxes of side `k` has in cell
/// `(r, c)`: the rows of a box are shifted by `k` against each other, the
/// boxes below each other by one.
pub open spec fn pattern_value(k: int, r: int, c: int) -> usize {
    (((r % k) * k + r / k + c) % (k * k) + 1) as usize
}

/// A solved grid with boxes of side `k`.
pub open spec fn pattern_grid(k: nat) -> Seq<Seq<usize>> {
    Seq::new(k * k, |r: int| Seq::new(k * k, |c: int| pattern_value(k as int, r, c)))
}

/// Two different numbers below `n`, shifted by the same amount, leave
/// different remainders by `n`.
pub proof fn lemma_shift_keeps_apart(n: int, a: int, x: int, y: int)
    requires
        0 <= a,
        0 <= x < n,
        0 <= y < n,
        x != y,
    ensures
        (a + x) % n != (a + y) % n,
{
    if (a + x) % n == (a + y) % n {
        let m = (a + x) % n;
        let p = (a + x) / n;
        let q = (a + y) / n;
        vstd::arithmetic::div_mod::lemma_fundamental_div_mod(a + x, n);
        vstd::arithmetic::div_mod::lemma_fundamental_div_mod(a + y, n);
        assert(x - y == n * (p - q)) by (nonlinear_arith)
            requires
                a + x == n * p + m,
                a + y == n * q + m,
        ;
        assert(false) by (nonlinear_arith)
            requires
                x - y == n * (p - q),
                -n < x - y < n,
                x != y,
        ;
    }
}

/// The number that a row of the grid stands for in the pattern: its
/// place in its box first, its box second.
pub open spec fn pattern_shift(k: int, r: int) -> int {
    (r % k) * k + r / k
}

/// Different rows stand for different numbers below the side length.
pub proof fn lemma_pattern_shift(k: int, r1: int, r2: int)
    requires
        0 < k,
        0 <= r1 < k * k,
        0 <= r2 < k * k,
        r1 != r2,
    ensures
        0 <= pattern_shift(k, r1) < k * k,
        0 <= pattern_shift(k, r2) < k * k,
        pattern_shift(k, r1) != pattern_shift(k, r2),
{
    crate::geometry::lemma_split(k, r1);
    crate::geometry::lemma_split(k, r2);
    crate::geometry::lemma_join(k, r1 % k, r1 / k);
    crate::geometry::lemma_join(k, r2 % k, r2 / k);
}

/// The pattern grid is a solved grid.
pub proof fn lemma_pattern_is_solution(k: nat)
    requires
        k * k <= usize::MAX,
    ensures
        is_solution(pattern_grid(k), k as int),
{
    let s = pattern_grid(k);
    let n = (k * k) as int;
    let kk = k as int;
    assert forall|r: int, c: int| 0 <= r < n && 0 <= c < n implies 1 <= #[trigger] s[r][c]
        <= n by {
        lemma_box_side_positive(kk, n);
        crate::geometry::lemma_split(kk, r);
        vstd::arithmetic::div_mod::lemma_mod_bound((r % kk) * kk + r / kk + c, n);
    }
    assert forall|i: int| 0 <= i < n implies groups_are_clean(s, kk, i) by {
        lemma_box_side_positive(kk, n);
        crate::geometry::lemma_split(kk, i);
        if has_repeat(s[i]) {
            let (a, b) = choose|a: int, b: int|
                0 <= a < b < s[i].len() && #[trigger] s[i][a] == #[trigger] s[i][b] && s[i][a] > 0;
            let shift = pattern_shift(kk, i);
            crate::geometry::lemma_join(kk, i % kk, i / kk);
            vstd::arithmetic::div_mod::lemma_mod_bound(shift + a, n);
            vstd::arithmetic::div_mod::lemma_mod_bound(shift + b, n);
            lemma_shift_keeps_apart(n, shift, a, b);
        }
        let col = grid_col(s, i);
        if has_repeat(col) {
            let (a, b) = choose|a: int, b: int|
                0 <= a < b < col.len() && #[trigger] col[a] == #[trigger] col[b] && col[a] > 0;
            lemma_pattern_shift(kk, a, b);
            let x = pattern_shift(kk, a);
            let y = pattern_shift(kk, b);
            vstd::arithmetic::div_mod::lemma_mod_bound(x + i, n);
            vstd::arithmetic::div_mod::lemma_mod_bound(y + i, n);
            lemma_shift_keeps_apart(n, i, x, y);
            assert(col[a] == pattern_value(kk, a, i));
            assert(col[b] == pattern_value(kk, b, i));
        }
        let square = grid_box(s, kk, i);
        if has_repeat(square) {
            let (a, b) = choose|a: int, b: int|
                0 <= a < b < square.len() && #[trigger] square[a] == #[trigger] square[b]
                    && square[a] > 0;
            lemma_box_to_cell(kk, i, a);
            lemma_box_to_cell(kk, i, b);
            crate::geometry::lemma_split(kk, a);
            crate::geometry::lemma_split(kk, b);
            crate::geometry::lemma_join(kk, i / kk, a / kk);
            crate::geometry::lemma_join(kk, i / kk, b / kk);
            crate::geometry::lemma_join(kk, i % kk, 0);
            let base = i / kk + (i % kk) * kk;
            let ra = crate::geometry::box_cell_row(kk, i, a);
            let ca = crate::geometry::box_cell_col(kk, i, a);
            let rb = crate::geometry::box_cell_row(kk, i, b);
            let cb = crate::geometry::box_cell_col(kk, i, b);
            assert(pattern_shift(kk, ra) + ca == base + a);
            assert(pattern_shift(kk, rb) + cb == base + b);
            vstd::arithmetic::div_mod::lemma_mod_bound(base + a, n);
            vstd::arithmetic::div_mod::lemma_mod_bound(base + b, n);
            lemma_shift_keeps_apart(n, base, a, b);
            assert(square[a] == pattern_value(kk, ra, ca));
            assert(square[b] == pattern_value(kk, rb, cb));
        }
    }
}

/// Every empty grid whose side is a square has a solution.
pub proof fn lemma_empty_grid_is_solvable(k: nat)
    requires
        k * k <= usize::MAX,
    ensures
        is_solvable(empty_grid(k * k), k as int),
{
    lemma_pattern_is_solution(k);
    let s = pattern_grid(k);
    assert(is_solution(s, k as int) && fills(empty_grid(k * k), s));
}

/// The values of the list stand in the order of their use: none is used
/// more often than one behind it.
pub open spec fn is_ordered_by_use(g: CandidateGrid, list: Seq<usize>) -> bool {
    forall|i: int, j: int| 0 <= i < j < list.len() ==> uses(g, list[i]) <= uses(g, list[j])
}

/// A value put in its slot leaves the list in the order of use.
pub proof fn lemma_slot_is_ordered(g: CandidateGrid, list: Seq<usize>, v: usize)
    requires
        is_ordered_by_use(g, list),
    ensures
        is_ordered_by_use(g, slot(g, list, v)),
    decreases list.len(),
{
    if list.len() > 0 && uses(g, list.last()) > uses(g, v) {
        let short = list.drop_last();
        let last = list.last();
        assert(is_ordered_by_use(g, short)) by {
            assert forall|i: int, j: int| 0 <= i < j < short.len() implies uses(g, short[i])
                <= uses(g, short[j]) by {
                assert(short[i] == list[i] && short[j] == list[j]);
            }
        }
        lemma_slot_is_ordered(g, short, v);
        let inner = slot(g, short, v);
        let whole = inner.push(last);
        assert forall|i: int, j: int| 0 <= i < j < whole.len() implies uses(g, whole[i]) <= uses(
            g,
            whole[j],
        ) by {
            if j < inner.len() {
                assert(whole[i] == inner[i] && whole[j] == inner[j]);
            } else {
                assert(whole[i] == inner[i]);
                assert(inner.contains(inner[i]));
                crate::complete::lemma_slot_holds(g, short, v, inner[i]);
                if short.contains(inner[i]) {
                    let at = choose|at: int| 0 <= at < short.len() && short[at] == inner[i];
                    assert(list[at] == inner[i]);
                    assert(uses(g, list[at]) <= uses(g, list[list.len() - 1]));
                }
            }
        }
    } else if list.len() > 0 {
        let whole = list.push(v);
        assert forall|i: int, j: int| 0 <= i < j < whole.len() implies uses(g, whole[i]) <= uses(
            g,
            whole[j],
        ) by {
            if j < list.len() {
                assert(whole[i] == list[i] && whole[j] == list[j]);
            } else if i < list.len() - 1 {
                assert(uses(g, list[i]) <= uses(g, list[list.len() - 1]));
            }
        }
    }
}

/// The values to try at a guess come in the order of their use, the least
/// used first, and they are the options of the cell, each of them.
pub proof fn lemma_by_use_is_ordered(g: CandidateGrid, options: Seq<usize>)
    ensures
        is_ordered_by_use(g, by_use(g, options)),
        forall|x: usize| by_use(g, options).contains(x) <==> options.contains(x),
    decreases options.len(),
{
    if options.len() > 0 {
        lemma_by_use_is_ordered(g, options.drop_last());
        lemma_slot_is_ordered(g, by_use(g, options.drop_last()), options.last());
    }
    assert forall|x: usize| by_use(g, options).contains(x) <==> options.contains(x) by {
        crate::complete::lemma_by_use_holds(g, options, x);
    }
}

/// The findings of the list stand in the order of their cells, row after
/// row, and no two speak of one cell.
pub open spec fn is_ordered_by_cell(list: Seq<InferredPosition>) -> bool {
    forall|i: int, j: int|
        0 <= i < j < list.len() ==> comes_before(list[i].row, list[i].col, list[j].row, list[j].col)
}

/// Some finding of the list speaks of the cell of `item`.
pub open spec fn speaks_of(list: Seq<InferredPosition>, item: InferredPosition) -> bool {
    exists|i: int| 0 <= i < list.len() && same_cell(#[trigger] list[i], item)
}

/// A list in the order of the cells whose last finding comes before a
/// cell does not speak of that cell.
pub proof fn lemma_beyond_last(list: Seq<InferredPosition>, item: InferredPosition)
    requires
        is_ordered_by_cell(list),
        list.len() > 0,
        comes_before(list.last().row, list.last().col, item.row, item.col),
    ensures
        !speaks_of(list, item),
{
    if speaks_of(list, item) {
        let i = choose|i: int| 0 <= i < list.len() && same_cell(#[trigger] list[i], item);
        if i < list.len() - 1 {
            assert(comes_before(
                list[i].row,
                list[i].col,
                list[list.len() - 1].row,
                list[list.len() - 1].col,
            ));
        }
    }
}

/// A list speaks of a cell other than that of its last finding exactly
/// when the list without that finding does.
pub proof fn lemma_speaks_without_last(list: Seq<InferredPosition>, item: InferredPosition)
    requires
        list.len() > 0,
        !same_cell(list.last(), item),
    ensures
        speaks_of(list, item) <==> speaks_of(list.drop_last(), item),
{
    let short = list.drop_last();
    if speaks_of(short, item) {
        let i = choose|i: int| 0 <= i < short.len() && same_cell(#[trigger] short[i], item);
        assert(same_cell(list[i], item));
    }
    if speaks_of(list, item) {
        let i = choose|i: int| 0 <= i < list.len() && same_cell(#[trigger] list[i], item);
        assert(same_cell(short[i], item));
    }
}

/// The first findings of a list in the order of the cells are in that
/// order.
pub proof fn lemma_ordered_without_last(list: Seq<InferredPosition>)
    requires
        is_ordered_by_cell(list),
        list.len() > 0,
    ensures
        is_ordered_by_cell(list.drop_last()),
{
    let short = list.drop_last();
    assert forall|i: int, j: int| 0 <= i < j < short.len() implies comes_before(
        short[i].row,
        short[i].col,
        short[j].row,
        short[j].col,
    ) by {
        assert(short[i] == list[i] && short[j] == list[j]);
    }
}

/// A list with a finding put in its place holds what it held before, and
/// the finding itself unless the list spoke of its cell already.
pub proof fn lemma_place_holds(
    list: Seq<InferredPosition>,
    item: InferredPosition,
    f: InferredPosition,
)
    requires
        is_ordered_by_cell(list),
    ensures
        place(list, item).contains(f) <==> list.contains(f) || (f == item && !speaks_of(
            list,
            item,
        )),
    decreases list.len(),
{
    let placed = place(list, item);
    if list.len() == 0 {
        assert(placed[0] == item);
    } else {
        let short = list.drop_last();
        let last = list.last();
        assert(short.push(last) =~= list);
        crate::lists::lemma_push_contains(short, last);
        if same_cell(last, item) {
            assert(same_cell(list[list.len() - 1], item));
        } else if comes_before(last.row, last.col, item.row, item.col) {
            crate::lists::lemma_push_contains(list, item);
            lemma_beyond_last(list, item);
        } else {
            lemma_ordered_without_last(list);
            lemma_place_holds(short, item, f);
            crate::lists::lemma_push_contains(place(short, item), last);
            lemma_speaks_without_last(list, item);
        }
    }
}

/// A finding put in its place leaves the list in the order of the cells.
pub proof fn lemma_place_is_ordered(list: Seq<InferredPosition>, item: InferredPosition)
    requires
        is_ordered_by_cell(list),
    ensures
        is_ordered_by_cell(place(list, item)),
    decreases list.len(),
{
    let placed = place(list, item);
    if list.len() > 0 {
        let short = list.drop_last();
        let last = list.last();
        assert(list[list.len() - 1] == last);
        if same_cell(last, item) {
        } else if comes_before(last.row, last.col, item.row, item.col) {
            assert forall|i: int, j: int| 0 <= i < j < placed.len() implies comes_before(
                placed[i].row,
                placed[i].col,
                placed[j].row,
                placed[j].col,
            ) by {
                if j < list.len() {
                    assert(placed[i] == list[i] && placed[j] == list[j]);
                } else if i < list.len() - 1 {
                    assert(comes_before(list[i].row, list[i].col, last.row, last.col));
                }
            }
        } else {
            lemma_ordered_without_last(list);
            lemma_place_is_ordered(short, item);
            let inner = place(short, item);
            assert forall|i: int, j: int| 0 <= i < j < placed.len() implies comes_before(
                placed[i].row,
                placed[i].col,
                placed[j].row,
                placed[j].col,
            ) by {
                if j < inner.len() {
                    assert(placed[i] == inner[i] && placed[j] == inner[j]);
                } else {
                    assert(placed[i] == inner[i]);
                    assert(inner.contains(inner[i]));
                    lemma_place_holds(short, item, inner[i]);
                    if short.contains(inner[i]) {
                        let at = choose|at: int| 0 <= at < short.len() && short[at] == inner[i];
                        assert(comes_before(list[at].row, list[at].col, last.row, last.col));
                    }
                }
            }
        }
    }
}

/// Findings put in order stand in the order of their cells, one for each
/// cell.
pub proof fn lemma_arrange_is_ordered(raw: Seq<InferredPosition>)
    ensures
        is_ordered_by_cell(arrange(raw)),
    decreases raw.len(),
{
    if raw.len() > 0 {
        lemma_arrange_is_ordered(raw.drop_last());
        lemma_place_is_ordered(arrange(raw.drop_last()), raw.last());
    }
}

/// Each of the findings put in order is one of the findings.
pub proof fn lemma_arrange_holds(raw: Seq<InferredPosition>, f: InferredPosition)
    requires
        arrange(raw).contains(f),
    ensures
        raw.contains(f),
    decreases raw.len(),
{
    if raw.len() > 0 {
        let short = raw.drop_last();
        lemma_arrange_is_ordered(short);
        lemma_place_holds(arrange(short), raw.last(), f);
        if arrange(short).contains(f) {
            lemma_arrange_holds(short, f);
            let at = choose|at: int| 0 <= at < short.len() && short[at] == f;
            assert(raw[at] == f);
        } else {
            assert(raw[raw.len() - 1] == f);
        }
    }
}

/// The findings put in order speak of every cell that the findings speak
/// of.
pub proof fn lemma_arrange_speaks(raw: Seq<InferredPosition>, i: int)
    requires
        0 <= i < raw.len(),
    ensures
        speaks_of(arrange(raw), raw[i]),
    decreases raw.len(),
{
    let short = raw.drop_last();
    let last = raw.last();
    let before = arrange(short);
    let now = arrange(raw);
    lemma_arrange_is_ordered(short);
    if i < short.len() {
        assert(short[i] == raw[i]);
        lemma_arrange_speaks(short, i);
        let at = choose|at: int| 0 <= at < before.len() && same_cell(#[trigger] before[at], raw[i]);
        assert(before.contains(before[at]));
        lemma_place_holds(before, last, before[at]);
        let to = choose|to: int| 0 <= to < now.len() && now[to] == before[at];
        assert(same_cell(now[to], raw[i]));
    } else {
        assert(raw[i] == last);
        if speaks_of(before, last) {
            let at = choose|at: int| 0 <= at < before.len() && same_cell(#[trigger] before[at], last);
            assert(before.contains(before[at]));
            lemma_place_holds(before, last, before[at]);
            let to = choose|to: int| 0 <= to < now.len() && now[to] == before[at];
            assert(same_cell(now[to], raw[i]));
        } else {
            lemma_place_holds(before, last, last);
            let to = choose|to: int| 0 <= to < now.len() && now[to] == last;
            assert(same_cell(now[to], raw[i]));
        }
    }
}

} // verus!
