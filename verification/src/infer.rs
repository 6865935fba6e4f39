//! Hidden singles: values that only one open cell of a row, column or box
//! can take.

use crate::analyze::{open_in, AnalyzedBoard, AnalyzedCell, CandidateGrid, CellState};
use crate::board::comes_before;
use crate::geometry::{
    box_cell_col, box_cell_row, grid_box, grid_col, lemma_box_side_positive, lemma_box_to_cell,
    lemma_cell_to_box, lemma_join, lemma_split, views,
};
use crate::lists::{lemma_joined_contains, note_all, note_once};
use crate::types::{PositionalValue, SudokuError};
use crate::update::{box_of, lemma_names_next, names_col, names_row};
use vstd::prelude::*;

verus! {

/// A finding inside a group: the place of a cell in the group, and the value
/// it must have.
pub type InferType = (usize, usize);

/// A finding on the grid: a cell and the value it must have.
pub type InferredPosition = PositionalValue<usize>;

/// How often `v` stands in `options`.
pub open spec fn count_in(options: Seq<usize>, v: usize) -> nat
    decreases options.len(),
{
    if options.len() == 0 {
        0
    } else {
        count_in(options.drop_last(), v) + if options.last() == v {
            1nat
        } else {
            0nat
        }
    }
}

/// How often `v` stands among the options of a cell: never, for a cell that
/// has its value.
pub open spec fn count_in_cell(state: CellState, v: usize) -> nat {
    match state {
        CellState::Fixed(_) => 0,
        CellState::Open(options) => count_in(options, v),
    }
}

/// How often `v` stands among the options of the open cells of a group.
pub open spec fn occurrences(group: Seq<CellState>, v: usize) -> nat
    decreases group.len(),
{
    if group.len() == 0 {
        0
    } else {
        occurrences(group.drop_last(), v) + count_in_cell(group.last(), v)
    }
}

/// Some cell of the group has the value `v`.
pub open spec fn is_fixed_in(group: Seq<CellState>, v: usize) -> bool {
    exists|i: int| 0 <= i < group.len() && #[trigger] group[i] == CellState::Fixed(v)
}

/// The value `v` is a hidden single of the group: no cell has it, and it
/// stands exactly once among the options of the open cells.
pub open spec fn is_hidden_single(group: Seq<CellState>, v: usize) -> bool {
    !is_fixed_in(group, v) && occurrences(group, v) == 1
}

/// The first of `options` that is a hidden single of the group.
pub open spec fn first_single(group: Seq<CellState>, options: Seq<usize>) -> Option<usize>
    decreases options.len(),
{
    if options.len() == 0 {
        None
    } else if is_hidden_single(group, options[0]) {
        Some(options[0])
    } else {
        first_single(group, options.skip(1))
    }
}

/// The hidden single that decides cell `i` of the group, if there is one.
pub open spec fn single_of(group: Seq<CellState>, i: int) -> Option<usize> {
    match group[i] {
        CellState::Fixed(_) => None,
        CellState::Open(options) => first_single(group, options),
    }
}

/// The findings of one look at the first `len` cells of a group, in the
/// order of the cells.
pub open spec fn singles_upto(group: Seq<CellState>, len: nat) -> Seq<InferType>
    decreases len,
{
    if len == 0 {
        Seq::empty()
    } else {
        let before = singles_upto(group, (len - 1) as nat);
        match single_of(group, len - 1) {
            Some(v) => before.push(((len - 1) as usize, v)),
            None => before,
        }
    }
}

/// The findings of one look at a group.
pub open spec fn singles_pass(group: Seq<CellState>) -> Seq<InferType> {
    singles_upto(group, group.len())
}

/// The group with every finding of one look written into it.
pub open spec fn apply_pass(group: Seq<CellState>) -> Seq<CellState> {
    Seq::new(
        group.len(),
        |i: int|
            match single_of(group, i) {
                Some(v) => CellState::Fixed(v),
                None => group[i],
            },
    )
}

/// The values that a cell has or may take.
pub open spec fn cell_values(state: CellState) -> Seq<usize> {
    match state {
        CellState::Fixed(v) => seq![v],
        CellState::Open(options) => options,
    }
}

/// The values that the cells of a group have or may take, cell after cell.
pub open spec fn group_values(group: Seq<CellState>) -> Seq<usize>
    decreases group.len(),
{
    if group.len() == 0 {
        Seq::empty()
    } else {
        group_values(group.drop_last()) + cell_values(group.last())
    }
}

/// The group has as many different values, fixed or possible, as it has
/// cells.
pub open spec fn is_complete(group: Seq<CellState>) -> bool {
    group_values(group).to_set().len() == group.len()
}

/// A group that takes the shape of another and fixes some of its open cells
/// has fewer open cells.
pub proof fn lemma_fewer_open(before: Seq<CellState>, after: Seq<CellState>, i: int)
    requires
        before.len() == after.len(),
        forall|j: int| 0 <= j < before.len() && before[j] is Fixed ==> after[j] is Fixed,
    ensures
        open_in(after) <= open_in(before),
        0 <= i < before.len() && before[i] is Open && after[i] is Fixed ==> open_in(after)
            < open_in(before),
    decreases before.len(),
{
    if before.len() > 0 {
        let last = before.len() - 1;
        assert forall|j: int|
            0 <= j < before.drop_last().len() && before.drop_last()[j] is Fixed
                implies after.drop_last()[j] is Fixed by {
            assert(before[j] is Fixed);
        }
        lemma_fewer_open(before.drop_last(), after.drop_last(), i);
        assert(before[last] is Fixed ==> after[last] is Fixed);
    }
}

/// A finding names an open cell of the group.
pub proof fn lemma_singles_name_cells(group: Seq<CellState>, len: nat)
    requires
        len <= group.len(),
    ensures
        singles_upto(group, len).len() > 0 ==> exists|i: int|
            0 <= i < len && (#[trigger] single_of(group, i)) is Some,
        singles_upto(group, len).len() <= len,
    decreases len,
{
    if len > 0 {
        lemma_singles_name_cells(group, (len - 1) as nat);
        let before = singles_upto(group, (len - 1) as nat);
        if single_of(group, len - 1) is Some {
        } else if before.len() > 0 {
            let i = choose|i: int| 0 <= i < len - 1 && (#[trigger] single_of(group, i)) is Some;
            assert(single_of(group, i) is Some);
        }
    }
}

/// Writing the findings of a look that found something leaves fewer open
/// cells.
pub proof fn lemma_apply_fewer_open(group: Seq<CellState>)
    requires
        singles_pass(group).len() > 0,
    ensures
        open_in(apply_pass(group)) < open_in(group),
{
    lemma_singles_name_cells(group, group.len());
    let i = choose|i: int| 0 <= i < group.len() && (#[trigger] single_of(group, i)) is Some;
    assert(apply_pass(group)[i] is Fixed);
    lemma_fewer_open(group, apply_pass(group), i);
}

/// What the search for hidden singles in a group gives: the findings of one
/// look, then those of a look at the group with the first findings written
/// into it, and so on until a look finds nothing. A group with fewer
/// different values than cells is a contradiction.
pub open spec fn infer_group_spec(group: Seq<CellState>) -> Result<Seq<InferType>, SudokuError>
    decreases open_in(group),
{
    if !is_complete(group) {
        Err(SudokuError::Contradiction)
    } else if singles_pass(group).len() == 0 {
        Ok(Seq::empty())
    } else {
        proof {
            lemma_apply_fewer_open(group);
        }
        match infer_group_spec(apply_pass(group)) {
            Err(error) => Err(error),
            Ok(more) => Ok(singles_pass(group) + more),
        }
    }
}

/// Whether some cell of the group has the value `v`.
pub fn has_value(group: &Vec<AnalyzedCell>, v: usize) -> (fixed: bool)
    ensures
        fixed == is_fixed_in(views(group@), v),
{
    let ghost cells = views(group@);
    let mut i: usize = 0;
    while i < group.len()
        invariant
            i <= group.len(),
            cells == views(group@),
            forall|j: int| 0 <= j < i ==> #[trigger] cells[j] != CellState::Fixed(v),
        decreases group.len() - i,
    {
        assert(cells[i as int] == group[i as int]@);
        match &group[i] {
            AnalyzedCell::Value(value) => {
                if *value == v {
                    return true;
                }
            },
            AnalyzedCell::Undetermined(_) => {},
        }
        i = i + 1;
    }
    false
}

/// A number counted up to two: `0`, `1`, or `2` for anything more.
pub open spec fn up_to_two(count: nat) -> nat {
    if count < 2 {
        count
    } else {
        2
    }
}

/// How often `v` stands in `options`, counted on from `seen` and up to two.
fn count_on(
    options: &Vec<usize>,
    v: usize,
    seen: usize,
    Ghost(counted): Ghost<nat>,
) -> (total: usize)
    requires
        seen == up_to_two(counted),
    ensures
        total == up_to_two(counted + count_in(options@, v)),
{
    let mut total = seen;
    let mut j: usize = 0;
    while j < options.len()
        invariant
            j <= options.len(),
            total == up_to_two(counted + count_in(options@.take(j as int), v)),
        decreases options.len() - j,
    {
        proof {
            assert(options@.take(j + 1).drop_last() =~= options@.take(j as int));
            assert(options@.take(j + 1).last() == options[j as int]);
        }
        if options[j] == v && total < 2 {
            total = total + 1;
        }
        j = j + 1;
    }
    assert(options@.take(options.len() as int) =~= options@);
    total
}

/// Whether `v` stands exactly once among the options of the open cells of
/// the group.
pub fn occurs_once(group: &Vec<AnalyzedCell>, v: usize) -> (once: bool)
    ensures
        once == (occurrences(views(group@), v) == 1),
{
    let ghost cells = views(group@);
    let mut seen: usize = 0;
    let mut i: usize = 0;
    while i < group.len()
        invariant
            i <= group.len(),
            cells == views(group@),
            seen == up_to_two(occurrences(cells.take(i as int), v)),
        decreases group.len() - i,
    {
        proof {
            assert(cells.take(i + 1).drop_last() =~= cells.take(i as int));
            assert(cells.take(i + 1).last() == group[i as int]@);
        }
        match &group[i] {
            AnalyzedCell::Value(_) => {},
            AnalyzedCell::Undetermined(options) => {
                seen = count_on(options, v, seen, Ghost(occurrences(cells.take(i as int), v)));
            },
        }
        i = i + 1;
    }
    assert(cells.take(group.len() as int) =~= cells);
    seen == 1
}

/// The first of `options` that is a hidden single of the group.
pub fn find_single(group: &Vec<AnalyzedCell>, options: &Vec<usize>) -> (found: Option<usize>)
    ensures
        found == first_single(views(group@), options@),
{
    let ghost cells = views(group@);
    let mut j: usize = 0;
    assert(options@.skip(0) =~= options@);
    while j < options.len()
        invariant
            j <= options.len(),
            cells == views(group@),
            first_single(cells, options@) == first_single(cells, options@.skip(j as int)),
        decreases options.len() - j,
    {
        let v = options[j];
        proof {
            assert(options@.skip(j as int)[0] == v);
            assert(options@.skip(j as int).skip(1) =~= options@.skip(j + 1));
        }
        if !has_value(group, v) && occurs_once(group, v) {
            return Some(v);
        }
        j = j + 1;
    }
    None
}

/// How many different values the cells of the group have or may take.
pub fn count_values(group: &Vec<AnalyzedCell>) -> (distinct: usize)
    ensures
        distinct == group_values(views(group@)).to_set().len(),
{
    let ghost cells = views(group@);
    let mut seen: Vec<usize> = Vec::new();
    let mut i: usize = 0;
    while i < group.len()
        invariant
            i <= group.len(),
            cells == views(group@),
            seen@.no_duplicates(),
            forall|x: usize| seen@.contains(x) <==> group_values(cells.take(i as int)).contains(x),
        decreases group.len() - i,
    {
        let ghost before = group_values(cells.take(i as int));
        let ghost added = cell_values(group[i as int]@);
        let ghost seen_before = seen@;
        proof {
            assert(cells.take(i + 1).drop_last() =~= cells.take(i as int));
            assert(cells.take(i + 1).last() == group[i as int]@);
            assert(group_values(cells.take(i + 1)) == before + added);
            lemma_joined_contains(before, added);
        }
        match &group[i] {
            AnalyzedCell::Value(value) => {
                assert(forall|x: usize| added.contains(x) <==> x == *value) by {
                    assert(added[0] == *value);
                }
                note_once(&mut seen, *value);
                assert forall|x: usize| seen@.contains(x) <==> seen_before.contains(x)
                    || added.contains(x) by {
                    assert(added.contains(x) <==> x == *value);
                }
            },
            AnalyzedCell::Undetermined(options) => {
                assert(added == options@);
                note_all(&mut seen, options);
                assert forall|x: usize| seen@.contains(x) <==> seen_before.contains(x)
                    || added.contains(x) by {
                    assert(seen@.contains(x) <==> seen_before.contains(x) || options@.contains(x));
                }
            },
        }
        proof {
            assert forall|x: usize| seen@.contains(x) <==> group_values(
                cells.take(i + 1),
            ).contains(x) by {
                assert(seen@.contains(x) <==> seen_before.contains(x) || added.contains(x));
                assert(seen_before.contains(x) <==> before.contains(x));
                assert((before + added).contains(x) <==> before.contains(x) || added.contains(x));
            }
        }
        i = i + 1;
    }
    proof {
        assert(cells.take(group.len() as int) =~= cells);
        assert(seen@.to_set() =~= group_values(cells).to_set());
        seen@.unique_seq_to_set();
    }
    seen.len()
}

/// Looks for hidden singles in a group: values that only one open cell can
/// take. What is found is written into a copy of the group, and the copy is
/// searched in turn, until a look finds nothing. The findings come in the
/// order in which they were made.
pub fn infer_group(group: &Vec<AnalyzedCell>) -> (found: Result<Vec<InferType>, SudokuError>)
    ensures
        match infer_group_spec(views(group@)) {
            Ok(findings) => found matches Ok(list) && list@ == findings,
            Err(error) => found matches Err(raised) && raised == error,
        },
    decreases open_in(views(group@)),
{
    let ghost cells = views(group@);
    if count_values(group) != group.len() {
        return Err(SudokuError::Contradiction);
    }
    let mut results: Vec<InferType> = Vec::new();
    let mut cloned: Vec<AnalyzedCell> = Vec::new();
    let mut i: usize = 0;
    while i < group.len()
        invariant
            i <= group.len(),
            cells == views(group@),
            results@ == singles_upto(cells, i as nat),
            cloned.len() == i,
            forall|j: int| 0 <= j < i ==> (#[trigger] cloned[j])@ == apply_pass(cells)[j],
        decreases group.len() - i,
    {
        assert(cells[i as int] == group[i as int]@);
        let single = match &group[i] {
            AnalyzedCell::Value(_) => None,
            AnalyzedCell::Undetermined(options) => find_single(group, options),
        };
        match single {
            Some(v) => {
                results.push((i, v));
                cloned.push(AnalyzedCell::Value(v));
            },
            None => {
                cloned.push(group[i].clone());
            },
        }
        i = i + 1;
    }
    assert(views(cloned@) =~= apply_pass(cells));
    if results.len() > 0 {
        proof {
            lemma_apply_fewer_open(cells);
        }
        match infer_group(&cloned) {
            Ok(more) => {
                let mut k: usize = 0;
                while k < more.len()
                    invariant
                        k <= more.len(),
                        results@ == singles_pass(cells) + more@.take(k as int),
                    decreases more.len() - k,
                {
                    results.push(more[k]);
                    assert(results@ =~= singles_pass(cells) + more@.take(k + 1));
                    k = k + 1;
                }
                assert(more@.take(more.len() as int) =~= more@);
            },
            Err(error) => {
                return Err(error);
            },
        }
    }
    Ok(results)
}

/// Every finding names an open cell of the group.
pub proof fn lemma_singles_open(group: Seq<CellState>, len: nat)
    requires
        len <= group.len(),
        group.len() <= usize::MAX,
    ensures
        forall|j: int|
            0 <= j < singles_upto(group, len).len() ==> (#[trigger] singles_upto(group, len)[j]).0
                < len && group[singles_upto(group, len)[j].0 as int] is Open,
    decreases len,
{
    if len > 0 {
        lemma_singles_open(group, (len - 1) as nat);
        let before = singles_upto(group, (len - 1) as nat);
        assert forall|j: int| 0 <= j < singles_upto(group, len).len() implies (
        #[trigger] singles_upto(group, len)[j]).0 < len && group[singles_upto(
            group,
            len,
        )[j].0 as int] is Open by {
            if j < before.len() {
                assert(singles_upto(group, len)[j] == before[j]);
            }
        }
    }
}

/// Every finding of the search names an open cell of the group.
pub proof fn lemma_findings_open(group: Seq<CellState>)
    requires
        group.len() <= usize::MAX,
        infer_group_spec(group) is Ok,
    ensures
        forall|j: int|
            0 <= j < infer_group_spec(group).unwrap().len() ==> (#[trigger] infer_group_spec(
                group,
            ).unwrap()[j]).0 < group.len() && group[infer_group_spec(
                group,
            ).unwrap()[j].0 as int] is Open,
    decreases open_in(group),
{
    let found = infer_group_spec(group).unwrap();
    let first = singles_pass(group);
    if first.len() > 0 {
        lemma_apply_fewer_open(group);
        lemma_singles_open(group, group.len());
        let next = apply_pass(group);
        lemma_findings_open(next);
        let more = infer_group_spec(next).unwrap();
        assert forall|j: int| 0 <= j < found.len() implies (#[trigger] found[j]).0 < group.len()
            && group[found[j].0 as int] is Open by {
            if j < first.len() {
                assert(found[j] == first[j]);
            } else {
                assert(found[j] == more[j - first.len()]);
                assert(next[more[j - first.len()].0 as int] is Open);
            }
        }
    }
}

/// The findings of a row as findings on the grid.
pub open spec fn in_row(index: usize, found: Seq<InferType>) -> Seq<InferredPosition> {
    Seq::new(
        found.len(),
        |j: int| PositionalValue { row: index, col: found[j].0, value: found[j].1 },
    )
}

/// The findings of a column as findings on the grid.
pub open spec fn in_col(index: usize, found: Seq<InferType>) -> Seq<InferredPosition> {
    Seq::new(
        found.len(),
        |j: int| PositionalValue { row: found[j].0, col: index, value: found[j].1 },
    )
}

/// The findings of box `b` as findings on the grid.
pub open spec fn in_square(k: int, b: int, found: Seq<InferType>) -> Seq<InferredPosition> {
    Seq::new(
        found.len(),
        |j: int|
            PositionalValue {
                row: box_cell_row(k, b, found[j].0 as int) as usize,
                col: box_cell_col(k, b, found[j].0 as int) as usize,
                value: found[j].1,
            },
    )
}

/// The findings of a group, turned into findings on the grid by `place`.
pub open spec fn located(
    found: Result<Seq<InferType>, SudokuError>,
    place: spec_fn(Seq<InferType>) -> Seq<InferredPosition>,
) -> Result<Seq<InferredPosition>, SudokuError> {
    match found {
        Ok(list) => Ok(place(list)),
        Err(error) => Err(error),
    }
}

/// The hidden singles of row `index`; none for a row outside the grid.
pub open spec fn infer_row_spec(
    g: CandidateGrid,
    index: usize,
) -> Result<Seq<InferredPosition>, SudokuError> {
    if index < g.len() {
        located(infer_group_spec(g[index as int]), |found: Seq<InferType>| in_row(index, found))
    } else {
        Ok(Seq::empty())
    }
}

/// The hidden singles of column `index`; none for a column outside the
/// grid.
pub open spec fn infer_col_spec(
    g: CandidateGrid,
    index: usize,
) -> Result<Seq<InferredPosition>, SudokuError> {
    if index < g.len() {
        located(
            infer_group_spec(grid_col(g, index as int)),
            |found: Seq<InferType>| in_col(index, found),
        )
    } else {
        Ok(Seq::empty())
    }
}

/// The hidden singles of the box in row `s_row` and column `s_col` of the
/// boxes; none for a box outside the grid.
pub open spec fn infer_square_spec(
    g: CandidateGrid,
    k: int,
    s_row: usize,
    s_col: usize,
) -> Result<Seq<InferredPosition>, SudokuError> {
    if s_row < k && s_col < k {
        located(
            infer_group_spec(grid_box(g, k, s_row * k + s_col)),
            |found: Seq<InferType>| in_square(k, s_row * k + s_col, found),
        )
    } else {
        Ok(Seq::empty())
    }
}

/// The hidden singles of the box that holds cell `(row, col)`; none for a
/// cell outside the grid.
pub open spec fn infer_square_of_spec(
    g: CandidateGrid,
    k: int,
    row: usize,
    col: usize,
) -> Result<Seq<InferredPosition>, SudokuError> {
    if row < g.len() && col < g.len() {
        infer_square_spec(g, k, (row as int / k) as usize, (col as int / k) as usize)
    } else {
        Ok(Seq::empty())
    }
}

/// What a search on the grid returns for what the search was to find.
pub open spec fn reported(
    wanted: Result<Seq<InferredPosition>, SudokuError>,
    found: Result<Vec<InferredPosition>, SudokuError>,
) -> bool {
    match wanted {
        Ok(findings) => found matches Ok(list) && list@ == findings,
        Err(error) => found matches Err(raised) && raised == error,
    }
}

/// The hidden singles of row `index`.
pub fn infer_row(
    board: &AnalyzedBoard,
    index: usize,
) -> (found: Result<Vec<InferredPosition>, SudokuError>)
    requires
        board.wf(),
    ensures
        reported(infer_row_spec(board@, index), found),
{
    let row = match board.get_row(index) {
        Some(row) => row,
        None => {
            return Ok(Vec::new());
        },
    };
    let inferred = match infer_group(row) {
        Ok(list) => list,
        Err(error) => {
            return Err(error);
        },
    };
    let mut positions: Vec<InferredPosition> = Vec::new();
    let mut j: usize = 0;
    while j < inferred.len()
        invariant
            j <= inferred.len(),
            positions@ == in_row(index, inferred@.take(j as int)),
        decreases inferred.len() - j,
    {
        let (col, value) = inferred[j];
        positions.push(PositionalValue { row: index, col, value });
        assert(positions@ =~= in_row(index, inferred@.take(j + 1)));
        j = j + 1;
    }
    assert(inferred@.take(inferred.len() as int) =~= inferred@);
    Ok(positions)
}

/// The hidden singles of column `index`.
pub fn infer_col(
    board: &AnalyzedBoard,
    index: usize,
) -> (found: Result<Vec<InferredPosition>, SudokuError>)
    requires
        board.wf(),
    ensures
        reported(infer_col_spec(board@, index), found),
{
    let col = match board.get_col(index) {
        Some(col) => col,
        None => {
            return Ok(Vec::new());
        },
    };
    let inferred = match infer_group(col) {
        Ok(list) => list,
        Err(error) => {
            return Err(error);
        },
    };
    let mut positions: Vec<InferredPosition> = Vec::new();
    let mut j: usize = 0;
    while j < inferred.len()
        invariant
            j <= inferred.len(),
            positions@ == in_col(index, inferred@.take(j as int)),
        decreases inferred.len() - j,
    {
        let (row, value) = inferred[j];
        positions.push(PositionalValue { row, col: index, value });
        assert(positions@ =~= in_col(index, inferred@.take(j + 1)));
        j = j + 1;
    }
    assert(inferred@.take(inferred.len() as int) =~= inferred@);
    Ok(positions)
}

/// The hidden singles of the box in row `row` and column `col` of the
/// boxes.
pub fn infer_square(
    board: &AnalyzedBoard,
    row: usize,
    col: usize,
) -> (found: Result<Vec<InferredPosition>, SudokuError>)
    requires
        board.wf(),
    ensures
        reported(infer_square_spec(board@, board.spec_square_size() as int, row, col), found),
{
    let s_size = board.get_square_size();
    let ghost k = s_size as int;
    let ghost b = row * k + col;
    let square = match board.get_square(row, col) {
        Some(square) => square,
        None => {
            return Ok(Vec::new());
        },
    };
    let inferred = match infer_group(square) {
        Ok(list) => list,
        Err(error) => {
            return Err(error);
        },
    };
    proof {
        assert(views(square@).len() == square.len());
        lemma_findings_open(views(square@));
        lemma_join(k, row as int, col as int);
        assert(k * k == board.spec_size());
    }
    let mut positions: Vec<InferredPosition> = Vec::new();
    let mut j: usize = 0;
    while j < inferred.len()
        invariant
            j <= inferred.len(),
            0 < k,
            k == s_size,
            row < k,
            col < k,
            b == row * k + col,
            0 <= b < k * k,
            k * k <= usize::MAX,
            forall|i: int| 0 <= i < inferred.len() ==> (#[trigger] inferred[i]).0 < k * k,
            positions@ == in_square(k, b, inferred@.take(j as int)),
        decreases inferred.len() - j,
    {
        let (flattened_index, value) = inferred[j];
        proof {
            assert(inferred[j as int].0 < k * k);
            lemma_box_to_cell(k, b, flattened_index as int);
            lemma_split(k, flattened_index as int);
            lemma_join(k, row as int, flattened_index as int / k);
            lemma_join(k, col as int, flattened_index as int % k);
            lemma_join(k, row as int, 0);
            lemma_join(k, col as int, 0);
            lemma_join(k, row as int, col as int);
            assert(b / k == row && b % k == col);
            assert(box_cell_row(k, b, flattened_index as int) == row * k + flattened_index as int
                / k);
            assert(box_cell_col(k, b, flattened_index as int) == col * k + flattened_index as int
                % k);
        }
        let inner_row = flattened_index / s_size;
        let inner_col = flattened_index % s_size;
        positions.push(
            PositionalValue { value, row: row * s_size + inner_row, col: col * s_size + inner_col },
        );
        assert(inferred@.take(j + 1)[j as int] == inferred[j as int]);
        assert(positions@ =~= in_square(k, b, inferred@.take(j + 1)));
        j = j + 1;
    }
    assert(inferred@.take(inferred.len() as int) =~= inferred@);
    Ok(positions)
}

/// The hidden singles of the box that holds cell `(row, col)`.
pub fn infer_square_of(
    board: &AnalyzedBoard,
    row: usize,
    col: usize,
) -> (found: Result<Vec<InferredPosition>, SudokuError>)
    requires
        board.wf(),
    ensures
        reported(infer_square_of_spec(board@, board.spec_square_size() as int, row, col), found),
{
    let size = board.get_size();
    if row >= size || col >= size {
        return Ok(Vec::new());
    }
    let s_size = board.get_square_size();
    proof {
        lemma_box_side_positive(s_size as int, size as int);
    }
    infer_square(board, row / s_size, col / s_size)
}

/// Two findings speak of the same cell.
pub open spec fn same_cell(a: InferredPosition, b: InferredPosition) -> bool {
    a.row == b.row && a.col == b.col
}

/// The list with `item` put in its place by row and column, unless the list
/// has a finding for that cell already.
pub open spec fn place(list: Seq<InferredPosition>, item: InferredPosition) -> Seq<InferredPosition>
    decreases list.len(),
{
    if list.len() == 0 {
        seq![item]
    } else if same_cell(list.last(), item) {
        list
    } else if comes_before(list.last().row, list.last().col, item.row, item.col) {
        list.push(item)
    } else {
        place(list.drop_last(), item).push(list.last())
    }
}

/// The findings ordered by row and column, with the first finding kept
/// where several speak of one cell.
pub open spec fn arrange(raw: Seq<InferredPosition>) -> Seq<InferredPosition>
    decreases raw.len(),
{
    if raw.len() == 0 {
        Seq::empty()
    } else {
        place(arrange(raw.drop_last()), raw.last())
    }
}

/// Puts `item` in its place by row and column, unless the list has a
/// finding for that cell already.
pub fn place_finding(list: &mut Vec<InferredPosition>, item: InferredPosition)
    ensures
        final(list)@ == place(old(list)@, item),
{
    let ghost start = list@;
    let mut i: usize = list.len();
    assert(start.take(i as int) =~= start);
    assert(start.skip(i as int) =~= Seq::<InferredPosition>::empty());
    assert(place(start, item) + Seq::<InferredPosition>::empty() =~= place(start, item));
    while i > 0 && !(list[i - 1].row < item.row || (list[i - 1].row == item.row && list[i
        - 1].col < item.col))
        invariant
            i <= list.len(),
            list@ == start,
            place(start, item) == place(start.take(i as int), item) + start.skip(i as int),
        decreases i,
    {
        let ghost head = start.take(i as int);
        proof {
            assert(head.last() == start[i - 1]);
            assert(head.drop_last() =~= start.take(i - 1));
        }
        if list[i - 1].row == item.row && list[i - 1].col == item.col {
            proof {
                assert(place(head, item) == head);
                assert(head + start.skip(i as int) =~= start);
            }
            return ;
        }
        proof {
            assert(place(head, item) == place(start.take(i - 1), item).push(start[i - 1]));
            assert(place(start.take(i - 1), item).push(start[i - 1]) + start.skip(i as int)
                =~= place(start.take(i - 1), item) + start.skip(i - 1));
        }
        i = i - 1;
    }
    proof {
        let head = start.take(i as int);
        if i > 0 {
            assert(head.last() == start[i - 1]);
            assert(place(head, item) == head.push(item));
        } else {
            assert(place(head, item) =~= head.push(item));
        }
        assert(head.push(item) + start.skip(i as int) =~= start.insert(i as int, item));
    }
    list.insert(i, item);
}

/// Orders findings by row and column and keeps the first where several
/// speak of one cell.
pub fn arrange_findings(raw: &Vec<InferredPosition>) -> (ordered: Vec<InferredPosition>)
    ensures
        ordered@ == arrange(raw@),
{
    let mut ordered: Vec<InferredPosition> = Vec::new();
    let mut i: usize = 0;
    while i < raw.len()
        invariant
            i <= raw.len(),
            ordered@ == arrange(raw@.take(i as int)),
        decreases raw.len() - i,
    {
        proof {
            assert(raw@.take(i + 1).drop_last() =~= raw@.take(i as int));
            assert(raw@.take(i + 1).last() == raw[i as int]);
        }
        let item = PositionalValue { row: raw[i].row, col: raw[i].col, value: raw[i].value };
        place_finding(&mut ordered, item);
        i = i + 1;
    }
    assert(raw@.take(raw.len() as int) =~= raw@);
    ordered
}

/// Two searches one after the other: the findings of both, or the first
/// failure.
pub open spec fn joined(
    first: Result<Seq<InferredPosition>, SudokuError>,
    second: Result<Seq<InferredPosition>, SudokuError>,
) -> Result<Seq<InferredPosition>, SudokuError> {
    match first {
        Err(error) => Err(error),
        Ok(head) => match second {
            Err(error) => Err(error),
            Ok(tail) => Ok(head + tail),
        },
    }
}

/// Adds the findings of `more` to the end of `all`.
fn extend_findings(all: &mut Vec<InferredPosition>, more: &Vec<InferredPosition>)
    ensures
        final(all)@ == old(all)@ + more@,
{
    let mut i: usize = 0;
    while i < more.len()
        invariant
            i <= more.len(),
            all@ == old(all)@ + more@.take(i as int),
        decreases more.len() - i,
    {
        all.push(PositionalValue { row: more[i].row, col: more[i].col, value: more[i].value });
        assert(all@ =~= old(all)@ + more@.take(i + 1));
        i = i + 1;
    }
    assert(more@.take(more.len() as int) =~= more@);
}

/// The hidden singles of the first `len` rows, columns and boxes, as they
/// are found: row, column and box `0`, then row, column and box `1`, and so
/// on.
pub open spec fn findings_upto(
    g: CandidateGrid,
    k: int,
    len: nat,
) -> Result<Seq<InferredPosition>, SudokuError>
    decreases len,
{
    if len == 0 {
        Ok(Seq::empty())
    } else {
        let i = (len - 1) as usize;
        joined(
            joined(
                joined(findings_upto(g, k, (len - 1) as nat), infer_row_spec(g, i)),
                infer_col_spec(g, i),
            ),
            infer_square_spec(g, k, (i as int / k) as usize, (i as int % k) as usize),
        )
    }
}

/// The findings, put in order.
pub open spec fn arranged(
    raw: Result<Seq<InferredPosition>, SudokuError>,
) -> Result<Seq<InferredPosition>, SudokuError> {
    match raw {
        Ok(findings) => Ok(arrange(findings)),
        Err(error) => Err(error),
    }
}

/// The hidden singles of all rows, columns and boxes of the grid, ordered by
/// row and column, one for each cell.
pub open spec fn infer_all_spec(
    g: CandidateGrid,
    k: int,
) -> Result<Seq<InferredPosition>, SudokuError> {
    arranged(findings_upto(g, k, g.len()))
}

/// Searches every row, column and box for hidden singles.
pub fn infer_all(board: &AnalyzedBoard) -> (found: Result<Vec<InferredPosition>, SudokuError>)
    requires
        board.wf(),
    ensures
        reported(infer_all_spec(board@, board.spec_square_size() as int), found),
{
    let mut positions: Vec<InferredPosition> = Vec::new();
    let size = board.get_size();
    let s_size = board.get_square_size();
    let ghost g = board@;
    let ghost k = s_size as int;
    let mut i: usize = 0;
    while i < size
        invariant
            board.wf(),
            g == board@,
            k == s_size,
            s_size == board.spec_square_size(),
            size == board.spec_size(),
            i <= size,
            findings_upto(g, k, i as nat) == Ok::<Seq<InferredPosition>, SudokuError>(positions@),
        decreases size - i,
    {
        proof {
            lemma_box_side_positive(k, size as int);
            lemma_split(k, i as int);
        }
        let s_row = i / s_size;
        let s_col = i % s_size;
        proof {
            lemma_findings_fail_on(g, k, (i + 1) as nat, g.len());
        }
        match infer_row(board, i) {
            Ok(more) => {
                extend_findings(&mut positions, &more);
            },
            Err(error) => {
                return Err(error);
            },
        }
        match infer_col(board, i) {
            Ok(more) => {
                extend_findings(&mut positions, &more);
            },
            Err(error) => {
                return Err(error);
            },
        }
        match infer_square(board, s_row, s_col) {
            Ok(more) => {
                extend_findings(&mut positions, &more);
            },
            Err(error) => {
                return Err(error);
            },
        }
        i = i + 1;
    }
    Ok(arrange_findings(&positions))
}

/// A search that fails on the first groups fails on all of them, and in the
/// same way.
pub proof fn lemma_findings_fail_on(g: CandidateGrid, k: int, len: nat, all: nat)
    requires
        len <= all,
    ensures
        findings_upto(g, k, len) is Err ==> findings_upto(g, k, all) == findings_upto(g, k, len),
    decreases all - len,
{
    if len < all {
        lemma_findings_fail_on(g, k, len + 1, all);
    }
}

/// Some position of the list lies inside the grid and in box `b`.
pub open spec fn names_box_inside(k: int, n: nat, positions: Seq<(usize, usize)>, b: int) -> bool {
    exists|j: int|
        0 <= j < positions.len() && (#[trigger] positions[j]).0 < n && positions[j].1 < n
            && box_of(k, positions[j]) == b
}

/// The findings of a search, or none where the search is left out.
pub open spec fn unless(
    left_out: bool,
    search: Result<Seq<InferredPosition>, SudokuError>,
) -> Result<Seq<InferredPosition>, SudokuError> {
    if left_out {
        Ok(Seq::empty())
    } else {
        search
    }
}

/// The hidden singles of the row, the column and the box of the cell `at`,
/// each searched only if asked for.
pub open spec fn findings_around(
    g: CandidateGrid,
    k: int,
    at: (usize, usize),
    with_row: bool,
    with_col: bool,
    with_box: bool,
) -> Result<Seq<InferredPosition>, SudokuError> {
    joined(
        joined(
            unless(!with_row, infer_row_spec(g, at.0)),
            unless(!with_col, infer_col_spec(g, at.1)),
        ),
        unless(!with_box, infer_square_of_spec(g, k, at.0, at.1)),
    )
}

/// The hidden singles that the position `at` brings in: those of its row,
/// its column and its box, each unless a position of `before` has brought
/// the group in already.
pub open spec fn fresh_findings(
    g: CandidateGrid,
    k: int,
    before: Seq<(usize, usize)>,
    at: (usize, usize),
) -> Result<Seq<InferredPosition>, SudokuError> {
    findings_around(
        g,
        k,
        at,
        !names_row(before, at.0),
        !names_col(before, at.1),
        at.0 < g.len() && at.1 < g.len() && !names_box_inside(k, g.len(), before, box_of(k, at)),
    )
}

/// The hidden singles of the rows, columns and boxes of `positions`, as
/// they are found: each group is searched once.
pub open spec fn findings_near(
    g: CandidateGrid,
    k: int,
    positions: Seq<(usize, usize)>,
) -> Result<Seq<InferredPosition>, SudokuError>
    decreases positions.len(),
{
    if positions.len() == 0 {
        Ok(Seq::empty())
    } else {
        joined(
            findings_near(g, k, positions.drop_last()),
            fresh_findings(g, k, positions.drop_last(), positions.last()),
        )
    }
}

/// The hidden singles of the rows, columns and boxes of `positions`,
/// ordered by row and column, one for each cell.
pub open spec fn infer_positions_spec(
    g: CandidateGrid,
    k: int,
    positions: Seq<(usize, usize)>,
) -> Result<Seq<InferredPosition>, SudokuError> {
    arranged(findings_near(g, k, positions))
}

/// A search that fails on the groups of the first positions fails on those
/// of all positions, and in the same way.
pub proof fn lemma_near_fail_on(g: CandidateGrid, k: int, positions: Seq<(usize, usize)>, i: int)
    requires
        0 <= i <= positions.len(),
    ensures
        findings_near(g, k, positions.take(i)) is Err ==> findings_near(g, k, positions)
            == findings_near(g, k, positions.take(i)),
    decreases positions.len() - i,
{
    if i < positions.len() {
        assert(positions.take(i + 1).drop_last() =~= positions.take(i));
        lemma_near_fail_on(g, k, positions, i + 1);
    } else {
        assert(positions.take(i) =~= positions);
    }
}

/// The boxes named by one more position.
pub proof fn lemma_names_inside_next(k: int, n: nat, positions: Seq<(usize, usize)>, i: int)
    requires
        0 <= i < positions.len(),
    ensures
        forall|b: int|
            names_box_inside(k, n, positions.take(i + 1), b) <==> names_box_inside(
                k,
                n,
                positions.take(i),
                b,
            ) || (positions[i].0 < n && positions[i].1 < n && box_of(k, positions[i]) == b),
{
    let short = positions.take(i);
    let longer = positions.take(i + 1);
    assert(longer[i] == positions[i]);
    assert forall|b: int|
        names_box_inside(k, n, longer, b) <==> names_box_inside(k, n, short, b) || (positions[i].0
            < n && positions[i].1 < n && box_of(k, positions[i]) == b) by {
        if names_box_inside(k, n, short, b) {
            let j = choose|j: int|
                0 <= j < short.len() && (#[trigger] short[j]).0 < n && short[j].1 < n && box_of(
                    k,
                    short[j],
                ) == b;
            assert(longer[j] == short[j]);
        }
        if names_box_inside(k, n, longer, b) {
            let j = choose|j: int|
                0 <= j < longer.len() && (#[trigger] longer[j]).0 < n && longer[j].1 < n
                    && box_of(k, longer[j]) == b;
            if j < i {
                assert(short[j] == longer[j]);
            }
        }
    }
}

/// Searches the row, the column and the box of a cell, each only if asked
/// for, and adds what it finds to `all`.
fn infer_around(
    board: &AnalyzedBoard,
    row: usize,
    col: usize,
    with_row: bool,
    with_col: bool,
    with_box: bool,
    all: &mut Vec<InferredPosition>,
) -> (done: Result<(), SudokuError>)
    requires
        board.wf(),
    ensures
        match findings_around(
            board@,
            board.spec_square_size() as int,
            (row, col),
            with_row,
            with_col,
            with_box,
        ) {
            Ok(more) => done is Ok && final(all)@ == old(all)@ + more,
            Err(error) => done == Err::<(), SudokuError>(error),
        },
{
    if with_row {
        match infer_row(board, row) {
            Ok(more) => {
                extend_findings(all, &more);
            },
            Err(error) => {
                return Err(error);
            },
        }
    }
    assert(all@ =~= old(all)@ + unless(!with_row, infer_row_spec(board@, row)).unwrap());
    if with_col {
        match infer_col(board, col) {
            Ok(more) => {
                extend_findings(all, &more);
            },
            Err(error) => {
                return Err(error);
            },
        }
    }
    assert(all@ =~= old(all)@ + (unless(!with_row, infer_row_spec(board@, row)).unwrap() + unless(
        !with_col,
        infer_col_spec(board@, col),
    ).unwrap()));
    if with_box {
        match infer_square_of(board, row, col) {
            Ok(more) => {
                extend_findings(all, &more);
            },
            Err(error) => {
                return Err(error);
            },
        }
    }
    assert(all@ =~= old(all)@ + findings_around(
        board@,
        board.spec_square_size() as int,
        (row, col),
        with_row,
        with_col,
        with_box,
    ).unwrap());
    Ok(())
}

/// Searches the rows, columns and boxes of `positions` for hidden singles,
/// each group once.
pub fn infer_positions(
    board: &AnalyzedBoard,
    positions: &Vec<(usize, usize)>,
) -> (found: Result<Vec<InferredPosition>, SudokuError>)
    requires
        board.wf(),
    ensures
        reported(
            infer_positions_spec(board@, board.spec_square_size() as int, positions@),
            found,
        ),
{
    let mut all_inferred: Vec<InferredPosition> = Vec::new();
    let mut cached_rows: Vec<usize> = Vec::new();
    let mut cached_cols: Vec<usize> = Vec::new();
    let mut cached_squares: Vec<usize> = Vec::new();
    let size = board.get_size();
    let square_size = board.get_square_size();
    let ghost g = board@;
    let ghost k = square_size as int;
    let ghost n = size as nat;
    let mut i: usize = 0;
    while i < positions.len()
        invariant
            board.wf(),
            g == board@,
            k == square_size,
            n == size,
            n == g.len(),
            square_size == board.spec_square_size(),
            size == board.spec_size(),
            i <= positions.len(),
            forall|r: usize|
                #[trigger] cached_rows@.contains(r) <==> names_row(positions@.take(i as int), r),
            forall|c: usize|
                #[trigger] cached_cols@.contains(c) <==> names_col(positions@.take(i as int), c),
            forall|b: usize|
                #[trigger] cached_squares@.contains(b) <==> names_box_inside(
                    k,
                    n,
                    positions@.take(i as int),
                    b as int,
                ),
            findings_near(g, k, positions@.take(i as int)) == Ok::<
                Seq<InferredPosition>,
                SudokuError,
            >(all_inferred@),
        decreases positions.len() - i,
    {
        let row = positions[i].0;
        let col = positions[i].1;
        let ghost before = positions@.take(i as int);
        let ghost at = positions@[i as int];
        proof {
            assert(positions@.take(i + 1).drop_last() =~= before);
            assert(positions@.take(i + 1).last() == at);
            lemma_names_next(k, positions@, i as int);
            lemma_names_inside_next(k, n, positions@, i as int);
            lemma_near_fail_on(g, k, positions@, i + 1);
        }
        let with_row = note_once(&mut cached_rows, row);
        let with_col = note_once(&mut cached_cols, col);
        let mut with_box = false;
        if row < size && col < size {
            proof {
                lemma_box_side_positive(k, size as int);
                lemma_cell_to_box(k, row as int, col as int);
                lemma_split(k, row as int);
                lemma_split(k, col as int);
            }
            let square_index = (row / square_size) * square_size + col / square_size;
            assert(square_index == box_of(k, at));
            with_box = note_once(&mut cached_squares, square_index);
        }
        proof {
            assert(with_box == (at.0 < n && at.1 < n && !names_box_inside(
                k,
                n,
                before,
                box_of(k, at),
            )));
            assert forall|b: usize| #[trigger]
                cached_squares@.contains(b) <==> names_box_inside(
                    k,
                    n,
                    positions@.take(i + 1),
                    b as int,
                ) by {
                assert(names_box_inside(k, n, positions@.take(i + 1), b as int)
                    <==> names_box_inside(k, n, before, b as int) || (at.0 < n && at.1 < n
                    && box_of(k, at) == b as int));
            }
        }
        match infer_around(board, row, col, with_row, with_col, with_box, &mut all_inferred) {
            Ok(()) => {},
            Err(error) => {
                return Err(error);
            },
        }
        i = i + 1;
    }
    assert(positions@.take(positions.len() as int) =~= positions@);
    Ok(arrange_findings(&all_inferred))
}

} // verus!
