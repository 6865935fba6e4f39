//! The search: deductions to a standstill, then a guess at a cell with the
//! fewest options, each value tried on a copy of the grid.

use crate::analyze::{
    all_fixed, analyze_board, analyze_cell_spec, extends, grid_numbers, is_full_board,
    lemma_open_count_with, open_count, to_board, AnalyzedBoard, AnalyzedCell, CandidateGrid,
    CellState,
};
use crate::board::Board;
use crate::complete::{
    admits, allows, in_domain, lemma_analysed_allows, lemma_analysis_allows, lemma_by_use_holds,
    lemma_fix_allows, lemma_fixed_is_solution, lemma_propagate_allows, lemma_settle_allows,
    lemma_solvable_is_valid, lemma_tied_exist, lemma_update_board_allows,
};
use crate::fixpoint::{lemma_settle_shape, lemma_update_board_keeps};
use crate::geometry::{grid_with, is_square_grid, lemma_split};
use crate::infer::{
    infer_all, infer_all_spec, infer_positions, infer_positions_spec, InferredPosition,
};
use crate::types::{PositionalValue, SudokuError};
use crate::update::{
    all_cells, all_in_range, append_positions, lemma_extends_chain, settle, settle_in_place,
    start_on, update_board, Progress,
};
use crate::validators::{is_solution, is_valid_sudoku};
use rand::rngs::ThreadRng;
use rand::seq::IteratorRandom;
use vstd::prelude::*;

verus! {

/// `rand::rngs::ThreadRng`, the handle to the random number generator of
/// a thread. It is carried through the search and seen by nothing but the
/// two functions below.
#[verifier::external_type_specification]
#[verifier::external_body]
pub struct ExThreadRng(rand::rngs::ThreadRng);

/// The random number generator of the calling thread, as `rand::thread_rng`
/// hands it out. Nothing is claimed of it. The call panics where the system
/// cannot seed the generator; nothing that a caller passes decides that.
#[verifier::external_body]
fn thread_rng() -> (rng: ThreadRng) {
    rand::thread_rng()
}

/// One of the numbers below `count`, picked by `IteratorRandom::choose` on
/// the range from `0` to `count`. It picks none only from an empty range;
/// which number it picks is left to chance.
#[verifier::external_body]
fn choose_index(rng: &mut ThreadRng, count: usize) -> (picked: Option<usize>)
    ensures
        count == 0 ==> picked is None,
        count > 0 ==> picked is Some && picked.unwrap() < count,
{
    (0..count).choose(rng)
}

/// The state of a cell of the grid.
pub open spec fn cell_at(g: CandidateGrid, cell: (usize, usize)) -> CellState {
    g[cell.0 as int][cell.1 as int]
}

/// The number of options of the open cell among `cells` that has the
/// fewest, or `bound` if none has fewer.
pub open spec fn shortest_open(g: CandidateGrid, cells: Seq<(usize, usize)>, bound: nat) -> nat
    decreases cells.len(),
{
    if cells.len() == 0 {
        bound
    } else {
        let before = shortest_open(g, cells.drop_last(), bound);
        match cell_at(g, cells.last()) {
            CellState::Open(options) => if options.len() < before {
                options.len()
            } else {
                before
            },
            CellState::Fixed(_) => before,
        }
    }
}

/// The cell is open and has `len` options.
pub open spec fn has_options(g: CandidateGrid, cell: (usize, usize), len: nat) -> bool {
    cell_at(g, cell) matches CellState::Open(options) && options.len() == len
}

/// The fewest options that an open cell of the grid has, and the side of
/// the grid at most.
pub open spec fn fewest_options(g: CandidateGrid) -> nat {
    shortest_open(g, all_cells(g.len()), g.len())
}

/// The open cells with the fewest options, row after row.
pub open spec fn tied_cells(g: CandidateGrid) -> Seq<(usize, usize)> {
    all_cells(g.len()).filter(|cell: (usize, usize)| has_options(g, cell, fewest_options(g)))
}

/// How many cells of the grid have the value `v`.
pub open spec fn uses(g: CandidateGrid, v: usize) -> nat {
    all_cells(g.len()).filter(|cell: (usize, usize)| cell_at(g, cell) == CellState::Fixed(v)).len()
}

/// The list with `v` put behind the last value that is used no more often
/// than `v`.
pub open spec fn slot(g: CandidateGrid, list: Seq<usize>, v: usize) -> Seq<usize>
    decreases list.len(),
{
    if list.len() == 0 {
        seq![v]
    } else if uses(g, list.last()) <= uses(g, v) {
        list.push(v)
    } else {
        slot(g, list.drop_last(), v).push(list.last())
    }
}

/// The options ordered by how often the grid uses them, the least used
/// first; options used equally often keep their order.
pub open spec fn by_use(g: CandidateGrid, options: Seq<usize>) -> Seq<usize>
    decreases options.len(),
{
    if options.len() == 0 {
        Seq::empty()
    } else {
        slot(g, by_use(g, options.drop_last()), options.last())
    }
}

/// The options of a cell: none for a cell that has its value.
pub open spec fn options_of(state: CellState) -> Seq<usize> {
    match state {
        CellState::Open(options) => options,
        CellState::Fixed(_) => Seq::empty(),
    }
}

/// The guess that the pick `pick` among the tied cells leads to: the cell,
/// and its options in the order in which they are to be tried.
pub open spec fn guess_at(g: CandidateGrid, pick: int) -> Option<((usize, usize), Seq<usize>)> {
    if 0 <= pick < tied_cells(g).len() {
        let cell = tied_cells(g)[pick];
        Some((cell, by_use(g, options_of(cell_at(g, cell)))))
    } else {
        None
    }
}

/// The guess as the search gets it.
pub open spec fn guess_view(
    guess: Option<PositionalValue<Vec<usize>>>,
) -> Option<((usize, usize), Seq<usize>)> {
    match guess {
        Some(found) => Some(((found.row, found.col), found.value@)),
        None => None,
    }
}

/// A place in the list of all cells is a cell of the grid.
proof fn lemma_flat_index(n: int, i: int)
    requires
        0 <= n,
        0 <= i < n * n,
    ensures
        0 < n,
        0 <= i / n < n,
        0 <= i % n < n,
        (i / n) * n + i % n == i,
{
    assert(0 < n) by (nonlinear_arith)
        requires
            0 <= n,
            0 <= i < n * n,
    ;
    lemma_split(n, i);
}

/// The fewest options that an open cell of the grid has.
pub fn fewest(board: &AnalyzedBoard) -> (least: usize)
    requires
        board.wf(),
    ensures
        least == fewest_options(board@),
{
    let size = board.get_size();
    let flat = board.get_rows_flat();
    let ghost g = board@;
    let ghost n = size as int;
    let ghost cells = all_cells(size as nat);
    let mut min_length = size;
    let mut i: usize = 0;
    while i < flat.len()
        invariant
            board.wf(),
            g == board@,
            n == size,
            size == board.spec_size(),
            cells == all_cells(size as nat),
            flat.len() == n * n,
            forall|r: int, c: int|
                0 <= r < n && 0 <= c < n ==> *flat[r * n + c] == board.item(r, c),
            i <= flat.len(),
            min_length == shortest_open(g, cells.take(i as int), size as nat),
        decreases flat.len() - i,
    {
        proof {
            lemma_flat_index(n, i as int);
            board.lemma_item_view(i as int / n, i as int % n);
            assert(cells.take(i + 1).drop_last() =~= cells.take(i as int));
            assert(cells.take(i + 1).last() == cells[i as int]);
            assert(*flat[(i as int / n) * n + i as int % n] == board.item(
                i as int / n,
                i as int % n,
            ));
        }
        match flat[i] {
            AnalyzedCell::Value(_) => {},
            AnalyzedCell::Undetermined(options) => {
                if options.len() < min_length {
                    min_length = options.len();
                }
            },
        }
        i = i + 1;
    }
    assert(cells.take(flat.len() as int) =~= cells);
    min_length
}

/// The open cells with the fewest options, row after row.
pub fn tied_positions(board: &AnalyzedBoard) -> (tied: Vec<(usize, usize)>)
    requires
        board.wf(),
    ensures
        tied@ == tied_cells(board@),
{
    let size = board.get_size();
    let min_length = fewest(board);
    let flat = board.get_rows_flat();
    let ghost g = board@;
    let ghost n = size as int;
    let ghost cells = all_cells(size as nat);
    let ghost wanted = |cell: (usize, usize)| has_options(g, cell, fewest_options(g));
    let mut tied: Vec<(usize, usize)> = Vec::new();
    let mut i: usize = 0;
    proof {
        reveal(Seq::filter);
        assert(cells.take(0).filter(wanted) =~= Seq::<(usize, usize)>::empty());
    }
    while i < flat.len()
        invariant
            board.wf(),
            g == board@,
            n == size,
            size == board.spec_size(),
            cells == all_cells(size as nat),
            wanted == |cell: (usize, usize)| has_options(g, cell, fewest_options(g)),
            min_length == fewest_options(g),
            flat.len() == n * n,
            forall|r: int, c: int|
                0 <= r < n && 0 <= c < n ==> *flat[r * n + c] == board.item(r, c),
            i <= flat.len(),
            tied@ == cells.take(i as int).filter(wanted),
        decreases flat.len() - i,
    {
        proof {
            lemma_flat_index(n, i as int);
            board.lemma_item_view(i as int / n, i as int % n);
            assert(cells.take(i + 1) =~= cells.take(i as int).push(cells[i as int]));
            cells.take(i as int).lemma_filter_push(cells[i as int], wanted);
            assert(*flat[(i as int / n) * n + i as int % n] == board.item(
                i as int / n,
                i as int % n,
            ));
        }
        match flat[i] {
            AnalyzedCell::Value(_) => {},
            AnalyzedCell::Undetermined(options) => {
                if options.len() == min_length {
                    tied.push((i / size, i % size));
                }
            },
        }
        i = i + 1;
    }
    assert(cells.take(flat.len() as int) =~= cells);
    tied
}

/// How many cells of the grid have the value `v`.
pub fn count_uses(board: &AnalyzedBoard, v: usize) -> (count: usize)
    requires
        board.wf(),
    ensures
        count == uses(board@, v),
{
    let size = board.get_size();
    let flat = board.get_rows_flat();
    let ghost g = board@;
    let ghost n = size as int;
    let ghost cells = all_cells(size as nat);
    let ghost wanted = |cell: (usize, usize)| cell_at(g, cell) == CellState::Fixed(v);
    let mut count: usize = 0;
    let mut i: usize = 0;
    proof {
        reveal(Seq::filter);
        assert(cells.take(0).filter(wanted) =~= Seq::<(usize, usize)>::empty());
    }
    while i < flat.len()
        invariant
            board.wf(),
            g == board@,
            n == size,
            size == board.spec_size(),
            cells == all_cells(size as nat),
            wanted == |cell: (usize, usize)| cell_at(g, cell) == CellState::Fixed(v),
            flat.len() == n * n,
            forall|r: int, c: int|
                0 <= r < n && 0 <= c < n ==> *flat[r * n + c] == board.item(r, c),
            i <= flat.len(),
            count == cells.take(i as int).filter(wanted).len(),
            count <= i,
        decreases flat.len() - i,
    {
        proof {
            lemma_flat_index(n, i as int);
            board.lemma_item_view(i as int / n, i as int % n);
            assert(cells.take(i + 1) =~= cells.take(i as int).push(cells[i as int]));
            cells.take(i as int).lemma_filter_push(cells[i as int], wanted);
            assert(*flat[(i as int / n) * n + i as int % n] == board.item(
                i as int / n,
                i as int % n,
            ));
        }
        match flat[i] {
            AnalyzedCell::Value(value) => {
                if *value == v {
                    count = count + 1;
                }
            },
            AnalyzedCell::Undetermined(_) => {},
        }
        i = i + 1;
    }
    assert(cells.take(flat.len() as int) =~= cells);
    count
}

/// Puts `v`, which the grid uses `key` times, behind the last value of
/// `ordered` that is used no more often. `keys` holds the uses of the
/// values of `ordered`.
fn slot_option(
    ordered: &mut Vec<usize>,
    keys: &mut Vec<usize>,
    v: usize,
    key: usize,
    Ghost(g): Ghost<CandidateGrid>,
)
    requires
        old(keys).len() == old(ordered).len(),
        forall|t: int| 0 <= t < old(ordered).len() ==> old(keys)[t] == uses(g, old(ordered)[t]),
        key == uses(g, v),
    ensures
        final(ordered)@ == slot(g, old(ordered)@, v),
        final(keys).len() == final(ordered).len(),
        forall|t: int|
            0 <= t < final(ordered).len() ==> final(keys)[t] == uses(g, final(ordered)[t]),
{
    let ghost start = ordered@;
    let mut i: usize = ordered.len();
    proof {
        assert(start.take(i as int) =~= start);
        assert(slot(g, start, v) + start.skip(i as int) =~= slot(g, start, v));
    }
    while i > 0 && keys[i - 1] > key
        invariant
            i <= ordered.len(),
            ordered@ == start,
            keys@ == old(keys)@,
            keys.len() == ordered.len(),
            forall|t: int| 0 <= t < start.len() ==> keys[t] == uses(g, start[t]),
            key == uses(g, v),
            slot(g, start, v) == slot(g, start.take(i as int), v) + start.skip(i as int),
        decreases i,
    {
        proof {
            let head = start.take(i as int);
            assert(head.last() == start[i - 1]);
            assert(head.drop_last() =~= start.take(i - 1));
            assert(slot(g, head, v) == slot(g, start.take(i - 1), v).push(start[i - 1]));
            assert(slot(g, start.take(i - 1), v).push(start[i - 1]) + start.skip(i as int)
                =~= slot(g, start.take(i - 1), v) + start.skip(i - 1));
        }
        i = i - 1;
    }
    proof {
        let head = start.take(i as int);
        if i > 0 {
            assert(head.last() == start[i - 1]);
            assert(slot(g, head, v) == head.push(v));
        } else {
            assert(slot(g, head, v) =~= head.push(v));
        }
        assert(head.push(v) + start.skip(i as int) =~= start.insert(i as int, v));
    }
    ordered.insert(i, v);
    keys.insert(i, key);
}

/// The options ordered by how often the grid uses them, the least used
/// first.
pub fn order_options(board: &AnalyzedBoard, options: &Vec<usize>) -> (ordered: Vec<usize>)
    requires
        board.wf(),
    ensures
        ordered@ == by_use(board@, options@),
{
    let ghost g = board@;
    let mut ordered: Vec<usize> = Vec::new();
    let mut keys: Vec<usize> = Vec::new();
    let mut j: usize = 0;
    while j < options.len()
        invariant
            board.wf(),
            g == board@,
            j <= options.len(),
            ordered@ == by_use(g, options@.take(j as int)),
            keys.len() == ordered.len(),
            forall|t: int| 0 <= t < ordered.len() ==> keys[t] == uses(g, ordered[t]),
        decreases options.len() - j,
    {
        proof {
            assert(options@.take(j + 1).drop_last() =~= options@.take(j as int));
            assert(options@.take(j + 1).last() == options[j as int]);
        }
        let v = options[j];
        let key = count_uses(board, v);
        slot_option(&mut ordered, &mut keys, v, key, Ghost(g));
        j = j + 1;
    }
    assert(options@.take(options.len() as int) =~= options@);
    ordered
}

/// The guess for the tied cell at place `pick`.
fn guess_among(
    board: &AnalyzedBoard,
    tied: &Vec<(usize, usize)>,
    pick: usize,
) -> (guess: Option<PositionalValue<Vec<usize>>>)
    requires
        board.wf(),
        tied@ == tied_cells(board@),
    ensures
        guess_view(guess) == guess_at(board@, pick as int),
{
    if pick >= tied.len() {
        return None;
    }
    let row = tied[pick].0;
    let col = tied[pick].1;
    proof {
        lemma_tied_are_open(board@, pick as int);
    }
    match board.at(row, col) {
        Some(AnalyzedCell::Undetermined(options)) => {
            Some(PositionalValue { row, col, value: order_options(board, options) })
        },
        _ => {
            assert(false);
            None
        },
    }
}

/// The cell to guess at and the values to try, for a given pick among the
/// open cells with the fewest options: the cell at place `pick` of those
/// cells, counted row after row, and its options, the least used first.
/// There is no guess for a pick beyond those cells.
pub fn guess_cell_at(
    board: &AnalyzedBoard,
    pick: usize,
) -> (guess: Option<PositionalValue<Vec<usize>>>)
    requires
        board.wf(),
    ensures
        guess_view(guess) == guess_at(board@, pick as int),
{
    let tied = tied_positions(board);
    guess_among(board, &tied, pick)
}

/// The cell to guess at and the values to try: one of the open cells with
/// the fewest options, picked at random, and its options, the least used
/// first. There is no guess where no cell is open.
fn guess_cell(
    board: &AnalyzedBoard,
    thread_rng: &mut ThreadRng,
) -> (guess: Option<PositionalValue<Vec<usize>>>)
    requires
        board.wf(),
    ensures
        tied_cells(board@).len() == 0 ==> guess is None,
        tied_cells(board@).len() > 0 ==> guess is Some && exists|pick: int|
            0 <= pick < tied_cells(board@).len() && guess_view(guess) == #[trigger] guess_at(
                board@,
                pick,
            ),
{
    let tied = tied_positions(board);
    match choose_index(thread_rng, tied.len()) {
        Some(pick) => {
            let guess = guess_among(board, &tied, pick);
            assert(guess_view(guess) == guess_at(board@, pick as int));
            guess
        },
        None => None,
    }
}

/// A tied cell lies in the grid and is open.
pub proof fn lemma_tied_are_open(g: CandidateGrid, pick: int)
    requires
        g.len() <= usize::MAX,
        0 <= pick < tied_cells(g).len(),
    ensures
        tied_cells(g)[pick].0 < g.len(),
        tied_cells(g)[pick].1 < g.len(),
        cell_at(g, tied_cells(g)[pick]) is Open,
{
    let n = g.len();
    let cells = all_cells(n);
    let wanted = |cell: (usize, usize)| has_options(g, cell, fewest_options(g));
    let cell = tied_cells(g)[pick];
    cells.lemma_filter_pred(wanted, pick);
    assert(wanted(cell));
    cells.lemma_filter_contains_rev(wanted, cell);
    let i = choose|i: int| 0 <= i < cells.len() && cells[i] == cell;
    lemma_flat_index(n as int, i);
}

/// Writes one finding into the grid, if it speaks of an open cell of the
/// grid, and notes the cell.
pub open spec fn commit_step(from: Progress, finding: InferredPosition) -> Progress {
    if finding.row < from.grid.len() && finding.col < from.grid.len() && cell_at(
        from.grid,
        (finding.row, finding.col),
    ) is Open {
        Progress {
            grid: grid_with(
                from.grid,
                finding.row as int,
                finding.col as int,
                CellState::Fixed(finding.value),
            ),
            changed: from.changed.push((finding.row, finding.col)),
        }
    } else {
        from
    }
}

/// Writes the findings into the grid, one after the other.
pub open spec fn commit(from: Progress, findings: Seq<InferredPosition>) -> Progress
    decreases findings.len(),
{
    if findings.len() == 0 {
        from
    } else {
        commit_step(commit(from, findings.drop_last()), findings.last())
    }
}

/// Writing findings keeps the shape of the grid and every fixed value, and
/// closes as many open cells as it notes.
pub proof fn lemma_commit_keeps(from: Progress, findings: Seq<InferredPosition>)
    requires
        is_square_grid(from.grid),
    ensures
        is_square_grid(commit(from, findings).grid),
        extends(from.grid, commit(from, findings).grid),
        from.changed.len() <= commit(from, findings).changed.len(),
        open_count(commit(from, findings).grid) + commit(from, findings).changed.len()
            == open_count(from.grid) + from.changed.len(),
        all_in_range(from.grid.len(), from.changed) ==> all_in_range(
            from.grid.len(),
            commit(from, findings).changed,
        ),
        commit(from, findings).changed.len() == from.changed.len() ==> commit(from, findings)
            == from,
    decreases findings.len(),
{
    if findings.len() > 0 {
        let mid = commit(from, findings.drop_last());
        lemma_commit_keeps(from, findings.drop_last());
        let finding = findings.last();
        let to = commit_step(mid, finding);
        if to != mid {
            let r = finding.row as int;
            let c = finding.col as int;
            assert(mid.grid[r].len() == mid.grid.len());
            lemma_open_count_with(mid.grid, r, c, CellState::Fixed(finding.value));
            assert(is_square_grid(to.grid)) by {
                assert forall|i: int| 0 <= i < to.grid.len() implies (#[trigger] to.grid[i]).len()
                    == to.grid.len() by {
                    assert(mid.grid[i].len() == mid.grid.len());
                }
            }
            assert(extends(mid.grid, to.grid));
            lemma_extends_chain(from.grid, mid.grid, to.grid);
            if all_in_range(from.grid.len(), from.changed) {
                assert forall|j: int| 0 <= j < to.changed.len() implies (#[trigger] to.changed[j]).0
                    < from.grid.len() && to.changed[j].1 < from.grid.len() by {
                    if j < mid.changed.len() {
                        assert(to.changed[j] == mid.changed[j]);
                    }
                }
            }
        }
    }
}

/// The deductions from `findings` on: the findings are written into the
/// grid, the cells around them are recalculated to a standstill, the groups
/// of all cells that have changed are searched for hidden singles, and so
/// on with what is found. Where nothing can be written, the whole grid is
/// searched once more (unless the findings came from such a search,
/// `from_all`), and the deductions end when that search brings nothing to
/// write either.
pub open spec fn deduce(
    k: int,
    g: CandidateGrid,
    findings: Seq<InferredPosition>,
    from_all: bool,
) -> Result<CandidateGrid, SudokuError>
    decreases open_count(g), if from_all { 0nat } else { 1nat },
    when is_square_grid(g)
    via deduce_decreases
{
    let written = commit(start_on(g), findings);
    if written.changed.len() == 0 {
        if from_all {
            Ok(g)
        } else {
            match infer_all_spec(g, k) {
                Err(error) => Err(error),
                Ok(all) => deduce(k, g, all, true),
            }
        }
    } else {
        match settle(k, written.grid, written.changed) {
            Err(error) => Err(error),
            Ok(rest) => match infer_positions_spec(
                rest.grid,
                k,
                written.changed + rest.changed,
            ) {
                Err(error) => Err(error),
                Ok(next) => deduce(k, rest.grid, next, false),
            },
        }
    }
}

#[via_fn]
proof fn deduce_decreases(
    k: int,
    g: CandidateGrid,
    findings: Seq<InferredPosition>,
    from_all: bool,
) {
    let written = commit(start_on(g), findings);
    lemma_commit_keeps(start_on(g), findings);
    if written.changed.len() != 0 {
        if settle(k, written.grid, written.changed) is Ok {
            lemma_settle_shape(k, written.grid, written.changed);
        }
    }
}

/// All deductions on a grid: the hidden singles of every group are
/// searched, and what follows from them is followed up until a search of
/// the whole grid brings nothing to write.
pub open spec fn propagate_spec(k: int, g: CandidateGrid) -> Result<CandidateGrid, SudokuError> {
    match infer_all_spec(g, k) {
        Err(error) => Err(error),
        Ok(findings) => deduce(k, g, findings, true),
    }
}

/// The deductions keep the shape of the grid and every fixed value.
pub proof fn lemma_deduce_keeps(
    k: int,
    g: CandidateGrid,
    findings: Seq<InferredPosition>,
    from_all: bool,
)
    requires
        is_square_grid(g),
        deduce(k, g, findings, from_all) is Ok,
    ensures
        is_square_grid(deduce(k, g, findings, from_all).unwrap()),
        extends(g, deduce(k, g, findings, from_all).unwrap()),
        open_count(deduce(k, g, findings, from_all).unwrap()) <= open_count(g),
    decreases open_count(g), if from_all { 0nat } else { 1nat },
{
    let written = commit(start_on(g), findings);
    lemma_commit_keeps(start_on(g), findings);
    if written.changed.len() != 0 {
        let rest = settle(k, written.grid, written.changed).unwrap();
        lemma_settle_shape(k, written.grid, written.changed);
        let next = infer_positions_spec(rest.grid, k, written.changed + rest.changed).unwrap();
        lemma_deduce_keeps(k, rest.grid, next, false);
        let end = deduce(k, rest.grid, next, false).unwrap();
        lemma_extends_chain(g, written.grid, rest.grid);
        lemma_extends_chain(g, rest.grid, end);
    } else if !from_all {
        lemma_deduce_keeps(k, g, infer_all_spec(g, k).unwrap(), true);
    }
}

/// The grid that the deductions leave has no hidden single left to write:
/// a search of the whole grid finds nothing for an open cell.
pub proof fn lemma_deduce_ends(
    k: int,
    g: CandidateGrid,
    findings: Seq<InferredPosition>,
    from_all: bool,
)
    requires
        is_square_grid(g),
        deduce(k, g, findings, from_all) is Ok,
        from_all ==> infer_all_spec(g, k) == Ok::<Seq<InferredPosition>, SudokuError>(findings),
    ensures
        infer_all_spec(deduce(k, g, findings, from_all).unwrap(), k) is Ok,
        commit(
            start_on(deduce(k, g, findings, from_all).unwrap()),
            infer_all_spec(deduce(k, g, findings, from_all).unwrap(), k).unwrap(),
        ).changed.len() == 0,
    decreases open_count(g), if from_all { 0nat } else { 1nat },
{
    let written = commit(start_on(g), findings);
    lemma_commit_keeps(start_on(g), findings);
    if written.changed.len() != 0 {
        let rest = settle(k, written.grid, written.changed).unwrap();
        lemma_settle_shape(k, written.grid, written.changed);
        let next = infer_positions_spec(rest.grid, k, written.changed + rest.changed).unwrap();
        lemma_deduce_ends(k, rest.grid, next, false);
    } else if !from_all {
        lemma_deduce_ends(k, g, infer_all_spec(g, k).unwrap(), true);
    }
}

/// The deductions are idempotent: made once more on the grid that they have
/// left, they change nothing.
pub proof fn lemma_propagate_idempotent(k: int, g: CandidateGrid)
    requires
        is_square_grid(g),
        propagate_spec(k, g) is Ok,
    ensures
        propagate_spec(k, propagate_spec(k, g).unwrap()) == Ok::<CandidateGrid, SudokuError>(
            propagate_spec(k, g).unwrap(),
        ),
{
    let findings = infer_all_spec(g, k).unwrap();
    lemma_deduce_ends(k, g, findings, true);
    lemma_deduce_keeps(k, g, findings, true);
}

/// Writes into the grid each finding that speaks of an open cell, and notes
/// the cells written.
fn commit_findings(
    board: &mut AnalyzedBoard,
    findings: &Vec<InferredPosition>,
    changed: &mut Vec<(usize, usize)>,
)
    requires
        old(board).wf(),
    ensures
        final(board).wf(),
        final(board).spec_size() == old(board).spec_size(),
        final(board).spec_square_size() == old(board).spec_square_size(),
        commit(Progress { grid: old(board)@, changed: old(changed)@ }, findings@) == (Progress {
            grid: final(board)@,
            changed: final(changed)@,
        }),
{
    let ghost from = Progress { grid: board@, changed: changed@ };
    let mut i: usize = 0;
    while i < findings.len()
        invariant
            board.wf(),
            board.spec_size() == old(board).spec_size(),
            board.spec_square_size() == old(board).spec_square_size(),
            from == (Progress { grid: old(board)@, changed: old(changed)@ }),
            i <= findings.len(),
            commit(from, findings@.take(i as int)) == (Progress {
                grid: board@,
                changed: changed@,
            }),
        decreases findings.len() - i,
    {
        proof {
            assert(findings@.take(i + 1).drop_last() =~= findings@.take(i as int));
            assert(findings@.take(i + 1).last() == findings[i as int]);
        }
        let row = findings[i].row;
        let col = findings[i].col;
        let value = findings[i].value;
        let open = match board.at(row, col) {
            Some(cell) => cell.is_undetermined(),
            None => false,
        };
        if open {
            let done = board.set(row, col, AnalyzedCell::Value(value));
            changed.push((row, col));
        }
        i = i + 1;
    }
    assert(findings@.take(findings.len() as int) =~= findings@);
}

/// What the deductions leave in the grid.
pub open spec fn deduced(
    wanted: Result<CandidateGrid, SudokuError>,
    done: Result<(), SudokuError>,
    after: CandidateGrid,
) -> bool {
    match wanted {
        Ok(grid) => done is Ok && after == grid,
        Err(error) => done == Err::<(), SudokuError>(error),
    }
}

/// Makes all deductions in place.
fn propagate_in_place(board: &mut AnalyzedBoard) -> (done: Result<(), SudokuError>)
    requires
        old(board).wf(),
    ensures
        final(board).wf(),
        final(board).spec_size() == old(board).spec_size(),
        final(board).spec_square_size() == old(board).spec_square_size(),
        deduced(
            propagate_spec(old(board).spec_square_size() as int, old(board)@),
            done,
            final(board)@,
        ),
{
    let ghost k = board.spec_square_size() as int;
    let ghost whole = propagate_spec(k, board@);
    let mut positions = match infer_all(board) {
        Ok(found) => found,
        Err(error) => {
            return Err(error);
        },
    };
    let mut searched_all = true;
    loop
        invariant
            board.wf(),
            board.spec_size() == old(board).spec_size(),
            board.spec_square_size() == old(board).spec_square_size(),
            k == board.spec_square_size(),
            whole == propagate_spec(k, old(board)@),
            whole == deduce(k, board@, positions@, searched_all),
        decreases open_count(board@), if searched_all { 0nat } else { 1nat },
    {
        let ghost before = board@;
        let mut changed_positions: Vec<(usize, usize)> = Vec::new();
        commit_findings(board, &positions, &mut changed_positions);
        proof {
            lemma_commit_keeps(start_on(before), positions@);
        }
        if changed_positions.len() == 0 {
            if searched_all {
                return Ok(());
            }
            positions = match infer_all(board) {
                Ok(found) => found,
                Err(error) => {
                    return Err(error);
                },
            };
            searched_all = true;
        } else {
            let ghost written = board@;
            let updated_positions = match settle_in_place(board, &changed_positions) {
                Ok(updated) => updated,
                Err(error) => {
                    return Err(error);
                },
            };
            proof {
                lemma_settle_shape(k, written, changed_positions@);
            }
            append_positions(&mut changed_positions, &updated_positions);
            positions = match infer_positions(board, &changed_positions) {
                Ok(found) => found,
                Err(error) => {
                    return Err(error);
                },
            };
            searched_all = false;
        }
    }
}

/// Makes all deductions that the two rules allow: hidden singles are
/// written into the grid, the open cells around them are recalculated until
/// nothing changes, and the groups of the cells that have changed are
/// searched again, until a search of the whole grid brings nothing to
/// write. On a contradiction the grid is left as it was.
pub fn propagate(board: &mut AnalyzedBoard) -> (done: Result<(), SudokuError>)
    requires
        old(board).wf(),
    ensures
        final(board).wf(),
        final(board).spec_size() == old(board).spec_size(),
        final(board).spec_square_size() == old(board).spec_square_size(),
        deduced(
            propagate_spec(old(board).spec_square_size() as int, old(board)@),
            done,
            final(board)@,
        ),
        done is Err ==> final(board)@ == old(board)@,
{
    let mut work = board.clone();
    match propagate_in_place(&mut work) {
        Ok(()) => {
            *board = work;
            Ok(())
        },
        Err(error) => Err(error),
    }
}

/// The number grid `s` has the shape of the candidate grid `g` and, in
/// every cell that `g` has fixed, the value that `g` has there.
pub open spec fn agrees(g: CandidateGrid, s: Seq<Seq<usize>>) -> bool {
    &&& s.len() == g.len()
    &&& forall|r: int, c: int|
        0 <= r < g.len() && 0 <= c < g.len() ==> (#[trigger] g[r][c] matches CellState::Fixed(v)
            ==> s[r][c] == v)
}

/// The number grid `s` has the shape of the puzzle `b` and keeps every
/// value that `b` gives.
pub open spec fn fills(b: Seq<Seq<usize>>, s: Seq<Seq<usize>>) -> bool {
    &&& s.len() == b.len()
    &&& forall|r: int, c: int|
        0 <= r < b.len() && 0 <= c < b.len() ==> (#[trigger] b[r][c] != 0 ==> s[r][c] == b[r][c])
}

/// A grid that agrees with a candidate grid agrees with every grid that
/// the candidate grid extends.
pub proof fn lemma_agrees_back(before: CandidateGrid, after: CandidateGrid, s: Seq<Seq<usize>>)
    requires
        is_square_grid(before),
        extends(before, after),
        agrees(after, s),
    ensures
        agrees(before, s),
{
    assert forall|r: int, c: int| 0 <= r < before.len() && 0 <= c < before.len() implies (
    #[trigger] before[r][c] matches CellState::Fixed(v) ==> s[r][c] == v) by {
        assert(before[r].len() == before.len());
        if before[r][c] is Fixed {
            assert(after[r][c] == before[r][c]);
        }
    }
}

/// Writes a grid whose cells all have their values as a grid of numbers,
/// if it breaks no rule.
fn finish(board: &AnalyzedBoard) -> (solved: Result<Board, SudokuError>)
    requires
        board.wf(),
        all_fixed(board@),
    ensures
        solved matches Ok(grid) ==> grid.wf() && grid.spec_size() == board.spec_size()
            && grid.spec_square_size() == board.spec_square_size() && is_solution(
            grid@,
            board.spec_square_size() as int,
        ) && grid@ == grid_numbers(board@),
        solved matches Err(error) ==> error == SudokuError::NoSolutionFound && !is_solution(
            grid_numbers(board@),
            board.spec_square_size() as int,
        ),
{
    let grid = match to_board(board) {
        Ok(grid) => grid,
        Err(_) => {
            return Err(SudokuError::NoSolutionFound);
        },
    };
    if grid.is_full() && grid.is_valid_numerical() && is_valid_sudoku(&grid) {
        Ok(grid)
    } else {
        Err(SudokuError::NoSolutionFound)
    }
}

/// Tries one value for one open cell: writes it into a copy of the grid,
/// recalculates the cells around it, and searches on from there.
fn try_value(
    board: &AnalyzedBoard,
    row: usize,
    col: usize,
    value: usize,
    rng_thread: &mut ThreadRng,
) -> (solved: Result<Board, SudokuError>)
    requires
        board.wf(),
        row < board.spec_size(),
        col < board.spec_size(),
        board@[row as int][col as int] is Open,
    ensures
        solved matches Ok(grid) ==> grid.wf() && grid.spec_size() == board.spec_size()
            && grid.spec_square_size() == board.spec_square_size() && is_solution(
            grid@,
            board.spec_square_size() as int,
        ) && agrees(board@, grid@) && grid@[row as int][col as int] == value,
        solved matches Err(error) ==> error == SudokuError::NoSolutionFound,
        in_domain(board@) && solved is Err ==> forall|s: Seq<Seq<usize>>| #[trigger]
            allows(board@, board.spec_square_size() as int, s) ==> s[row as int][col as int]
                != value,
    decreases open_count(board@), 0nat,
{
    let ghost k = board.spec_square_size() as int;
    let mut cloned = board.clone();
    let written = cloned.set(row, col, AnalyzedCell::Value(value));
    let ghost guessed = cloned@;
    proof {
        assert(board@[row as int].len() == board@.len());
        lemma_open_count_with(board@, row as int, col as int, CellState::Fixed(value));
        assert(extends(board@, guessed));
    }
    let mut around: Vec<(usize, usize)> = Vec::new();
    around.push((row, col));
    match settle_in_place(&mut cloned, &around) {
        Ok(_) => {},
        Err(_) => {
            proof {
                if in_domain(board@) {
                    assert forall|s: Seq<Seq<usize>>| #[trigger]
                        allows(board@, k, s) implies s[row as int][col as int] != value by {
                        if s[row as int][col as int] == value {
                            lemma_fix_allows(board@, k, s, row as int, col as int);
                            lemma_settle_allows(k, guessed, around@, s);
                        }
                    }
                }
            }
            return Err(SudokuError::NoSolutionFound);
        },
    }
    proof {
        lemma_settle_shape(k, guessed, around@);
        lemma_extends_chain(board@, guessed, cloned@);
    }
    match solve_analyzed(&cloned, rng_thread) {
        Ok(grid) => {
            proof {
                lemma_agrees_back(board@, cloned@, grid@);
                lemma_agrees_back(guessed, cloned@, grid@);
                assert(guessed[row as int][col as int] == CellState::Fixed(value));
            }
            Ok(grid)
        },
        Err(_) => {
            proof {
                if in_domain(board@) {
                    assert forall|s: Seq<Seq<usize>>| #[trigger]
                        allows(board@, k, s) implies s[row as int][col as int] != value by {
                        if s[row as int][col as int] == value {
                            lemma_fix_allows(board@, k, s, row as int, col as int);
                            lemma_settle_allows(k, guessed, around@, s);
                            assert(allows(cloned@, k, s));
                        }
                    }
                }
            }
            Err(SudokuError::NoSolutionFound)
        },
    }
}

/// Searches for a solution of the grid: makes all deductions, and where
/// they leave cells open, guesses at one of the cells with the fewest
/// options and tries its values in turn, each on a copy of the grid.
pub fn solve_analyzed(
    board: &AnalyzedBoard,
    rng_thread: &mut ThreadRng,
) -> (solved: Result<Board, SudokuError>)
    requires
        board.wf(),
    ensures
        solved matches Ok(grid) ==> grid.wf() && grid.spec_size() == board.spec_size()
            && grid.spec_square_size() == board.spec_square_size() && is_solution(
            grid@,
            board.spec_square_size() as int,
        ) && agrees(board@, grid@),
        solved matches Err(error) ==> error == SudokuError::NoSolutionFound,
        in_domain(board@) && solved is Err ==> forall|s: Seq<Seq<usize>>|
            !#[trigger] allows(board@, board.spec_square_size() as int, s),
    decreases open_count(board@), 1nat,
{
    let ghost k = board.spec_square_size() as int;
    let mut analyzed_board = board.clone();
    match propagate_in_place(&mut analyzed_board) {
        Ok(()) => {},
        Err(_) => {
            proof {
                if in_domain(board@) {
                    assert forall|s: Seq<Seq<usize>>| !#[trigger] allows(board@, k, s) by {
                        if allows(board@, k, s) {
                            lemma_propagate_allows(k, board@, s);
                        }
                    }
                }
            }
            return Err(SudokuError::NoSolutionFound);
        },
    }
    proof {
        if in_domain(board@) {
            assert forall|s: Seq<Seq<usize>>| #[trigger] allows(board@, k, s) implies allows(
                analyzed_board@,
                k,
                s,
            ) && in_domain(analyzed_board@) by {
                lemma_propagate_allows(k, board@, s);
            }
        }
    }
    proof {
        let findings = infer_all_spec(board@, k).unwrap();
        lemma_deduce_keeps(k, board@, findings, true);
    }
    if is_full_board(&analyzed_board) {
        return match finish(&analyzed_board) {
            Ok(grid) => {
                proof {
                    assert(agrees(analyzed_board@, grid@)) by {
                        assert forall|r: int, c: int|
                            0 <= r < analyzed_board@.len() && 0 <= c < analyzed_board@.len()
                                implies (
                        #[trigger] analyzed_board@[r][c] matches CellState::Fixed(v) ==> grid@[r][c]
                            == v) by {
                            assert(analyzed_board@[r].len() == analyzed_board@.len());
                        }
                    }
                    lemma_agrees_back(board@, analyzed_board@, grid@);
                }
                Ok(grid)
            },
            Err(error) => {
                proof {
                    if in_domain(board@) {
                        assert forall|s: Seq<Seq<usize>>| !#[trigger] allows(board@, k, s) by {
                            if allows(board@, k, s) {
                                lemma_fixed_is_solution(analyzed_board@, k, s);
                            }
                        }
                    }
                }
                Err(error)
            },
        };
    }
    let guess = match guess_cell(&analyzed_board, rng_thread) {
        Some(guess) => guess,
        None => {
            proof {
                if in_domain(board@) {
                    assert forall|s: Seq<Seq<usize>>| !#[trigger] allows(board@, k, s) by {
                        if allows(board@, k, s) {
                            let g = analyzed_board@;
                            let (r, c) = choose|r: int, c: int|
                                0 <= r < g.len() && 0 <= c < g[r].len() && !(g[r][c] is Fixed);
                            assert(g[r].len() == g.len());
                            lemma_tied_exist(g, k, r, c);
                        }
                    }
                }
            }
            return Err(SudokuError::NoSolutionFound);
        },
    };
    let row = guess.row;
    let col = guess.col;
    proof {
        let pick = choose|pick: int|
            0 <= pick < tied_cells(analyzed_board@).len() && guess_view(Some(guess))
                == #[trigger] guess_at(analyzed_board@, pick);
        lemma_tied_are_open(analyzed_board@, pick);
    }
    let mut t: usize = 0;
    while t < guess.value.len()
        invariant
            board.wf(),
            analyzed_board.wf(),
            analyzed_board.spec_size() == board.spec_size(),
            analyzed_board.spec_square_size() == board.spec_square_size(),
            k == board.spec_square_size(),
            extends(board@, analyzed_board@),
            open_count(analyzed_board@) <= open_count(board@),
            row < analyzed_board.spec_size(),
            col < analyzed_board.spec_size(),
            analyzed_board@[row as int][col as int] is Open,
            guess.value@ == by_use(
                analyzed_board@,
                options_of(analyzed_board@[row as int][col as int]),
            ),
            t <= guess.value.len(),
            in_domain(analyzed_board@) ==> forall|s: Seq<Seq<usize>>, j: int| #[trigger]
                allows(analyzed_board@, k, s) && 0 <= j < t ==> s[row as int][col as int]
                    != #[trigger] guess.value[j],
        decreases guess.value.len() - t,
    {
        match try_value(&analyzed_board, row, col, guess.value[t], rng_thread) {
            Ok(grid) => {
                proof {
                    lemma_agrees_back(board@, analyzed_board@, grid@);
                }
                return Ok(grid);
            },
            Err(_) => {},
        }
        t = t + 1;
    }
    proof {
        if in_domain(board@) {
            assert forall|s: Seq<Seq<usize>>| !#[trigger] allows(board@, k, s) by {
                if allows(board@, k, s) {
                    let g = analyzed_board@;
                    let v = s[row as int][col as int];
                    assert(allows(g, k, s) && in_domain(g));
                    assert(admits(g[row as int][col as int], v));
                    lemma_by_use_holds(g, options_of(g[row as int][col as int]), v);
                    let j = choose|j: int| 0 <= j < guess.value@.len() && guess.value@[j] == v;
                    assert(s[row as int][col as int] != guess.value[j]);
                }
            }
        }
    }
    Err(SudokuError::NoSolutionFound)
}

/// Solves a puzzle. A puzzle with a value above its side length is
/// refused; for any other the outcome is a solved grid that keeps the
/// values given, or the report that none was found.
pub fn simple_solve(board: &Board) -> (solved: Result<Board, SudokuError>)
    requires
        board.wf(),
    ensures
        !within_range(board@) ==> solved == Err::<Board, SudokuError>(SudokuError::ValueTooLarge),
        within_range(board@) ==> match solved {
            Ok(grid) => grid.wf() && grid.spec_size() == board.spec_size() && is_solution(
                grid@,
                board.spec_square_size() as int,
            ) && fills(board@, grid@),
            Err(error) => error == SudokuError::NoSolutionFound,
        },
        solved is Ok <==> is_solvable(board@, board.spec_square_size() as int),
{
    let solved = search(board);
    proof {
        let k = board.spec_square_size() as int;
        match &solved {
            Ok(grid) => {
                assert(within_range(board@));
                assert(is_solution(grid@, k) && fills(board@, grid@));
            },
            Err(_) => {
                if is_solvable(board@, k) {
                    let s = choose|s: Seq<Seq<usize>>| #[trigger]
                        is_solution(s, k) && fills(board@, s);
                    assert(is_solution(s, k) && fills(board@, s));
                }
            },
        }
    }
    solved
}

/// Some solved grid keeps the values that the puzzle gives.
pub open spec fn is_solvable(b: Seq<Seq<usize>>, k: int) -> bool {
    exists|s: Seq<Seq<usize>>| #[trigger] is_solution(s, k) && fills(b, s)
}

/// Analyses the puzzle, recalculates it to a standstill and searches for a
/// solution.
fn search(board: &Board) -> (solved: Result<Board, SudokuError>)
    requires
        board.wf(),
    ensures
        !within_range(board@) ==> solved == Err::<Board, SudokuError>(SudokuError::ValueTooLarge),
        within_range(board@) ==> match solved {
            Ok(grid) => grid.wf() && grid.spec_size() == board.spec_size() && is_solution(
                grid@,
                board.spec_square_size() as int,
            ) && fills(board@, grid@),
            Err(error) => error == SudokuError::NoSolutionFound,
        },
        solved is Err ==> forall|s: Seq<Seq<usize>>|
            !(#[trigger] is_solution(s, board.spec_square_size() as int) && fills(board@, s)),
{
    let ghost k = board.spec_square_size() as int;
    if !board.is_valid_numerical() {
        proof {
            assert forall|s: Seq<Seq<usize>>|
                !(#[trigger] is_solution(s, k) && fills(board@, s)) by {
                if is_solution(s, k) && fills(board@, s) {
                    let (r, c) = choose|r: int, c: int|
                        0 <= r < board@.len() && 0 <= c < board@.len() && !(board@[r][c]
                            <= board@.len());
                    assert(board@[r][c] != 0 ==> s[r][c] == board@[r][c]);
                    assert(1 <= s[r][c] <= s.len());
                }
            }
        }
        return Err(SudokuError::ValueTooLarge);
    }
    if !is_valid_sudoku(board) {
        proof {
            assert forall|s: Seq<Seq<usize>>|
                !(#[trigger] is_solution(s, k) && fills(board@, s)) by {
                if is_solution(s, k) && fills(board@, s) {
                    lemma_solvable_is_valid(board@, k, s);
                }
            }
        }
        return Err(SudokuError::NoSolutionFound);
    }
    let mut analyzed_board = match analyze_board(board) {
        Ok(cells) => cells,
        Err(error) => {
            proof {
                assert forall|s: Seq<Seq<usize>>| !(#[trigger] is_solution(s, k) && fills(
                    board@,
                    s,
                )) by {
                    if is_solution(s, k) && fills(board@, s) {
                        let (r, c) = choose|r: int, c: int|
                            0 <= r < board@.len() && 0 <= c < board@.len()
                                && #[trigger] analyze_cell_spec(board@, k, r, c) == Err::<
                                CellState,
                                SudokuError,
                            >(error);
                        lemma_analysis_allows(board@, k, s, r, c);
                    }
                }
            }
            return Err(SudokuError::NoSolutionFound);
        },
    };
    let ghost analyzed = analyzed_board@;
    let mut rng_thread = thread_rng();
    match update_board(&mut analyzed_board) {
        Ok(_) => {},
        Err(_) => {
            proof {
                assert forall|s: Seq<Seq<usize>>| !(#[trigger] is_solution(s, k) && fills(
                    board@,
                    s,
                )) by {
                    if is_solution(s, k) && fills(board@, s) {
                        lemma_analysed_allows(board@, k, s, analyzed);
                        lemma_update_board_allows(k, analyzed, s);
                    }
                }
            }
            return Err(SudokuError::NoSolutionFound);
        },
    }
    proof {
        lemma_update_board_keeps(k, analyzed);
    }
    match solve_analyzed(&analyzed_board, &mut rng_thread) {
        Ok(grid) => {
            proof {
                lemma_agrees_back(analyzed, analyzed_board@, grid@);
                assert forall|r: int, c: int|
                    0 <= r < board@.len() && 0 <= c < board@.len() && #[trigger] board@[r][c]
                        != 0 implies grid@[r][c] == board@[r][c] by {
                    {
                        assert(analyze_cell_spec(board@, k, r, c) == Ok::<CellState, SudokuError>(
                            analyzed[r][c],
                        ));
                        assert(analyzed[r][c] matches CellState::Fixed(v) ==> grid@[r][c] == v);
                    }
                }
            }
            Ok(grid)
        },
        Err(error) => {
            proof {
                assert forall|s: Seq<Seq<usize>>| !(#[trigger] is_solution(s, k) && fills(
                    board@,
                    s,
                )) by {
                    if is_solution(s, k) && fills(board@, s) {
                        lemma_analysed_allows(board@, k, s, analyzed);
                        lemma_update_board_allows(k, analyzed, s);
                    }
                }
            }
            Err(error)
        },
    }
}

/// No cell of the grid holds a value above the side length.
pub open spec fn within_range(b: Seq<Seq<usize>>) -> bool {
    forall|r: int, c: int| 0 <= r < b.len() && 0 <= c < b.len() ==> b[r][c] <= b.len()
}

} // verus!
