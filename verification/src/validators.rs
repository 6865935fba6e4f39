//! Checks of shape and of the rules: perfect squares, square matrices,
//! and grids without a value twice in a group.

use crate::board::Board;
use crate::geometry::{grid_box, grid_col, is_square_grid, views};
use vstd::prelude::*;

verus! {

/// `num` is the square of some natural number.
pub open spec fn is_perfect_square(num: nat) -> bool {
    exists|k: nat| #[trigger] (k * k) == num
}

/// `root` is the integer square root of `num`: the largest number whose square
/// does not exceed `num`.
pub open spec fn is_integer_root(root: nat, num: nat) -> bool {
    root * root <= num < (root + 1) * (root + 1)
}

/// Of two numbers, the larger has the larger square.
proof fn lemma_square_monotone(a: nat, b: nat)
    requires
        a <= b,
    ensures
        a * a <= b * b,
{
    assert(a * a <= b * b) by (nonlinear_arith)
        requires
            a <= b,
    ;
}

/// Two numbers with the same square are the same.
pub proof fn lemma_root_unique(a: nat, b: nat)
    requires
        a * a == b * b,
    ensures
        a == b,
{
    if a < b {
        lemma_square_monotone(a + 1, b);
        assert((a + 1) * (a + 1) > a * a) by (nonlinear_arith);
    } else if b < a {
        lemma_square_monotone(b + 1, a);
        assert((b + 1) * (b + 1) > b * b) by (nonlinear_arith);
    }
}

/// A number with an integer root `root` is a perfect square exactly when
/// `root * root` reaches it.
pub proof fn lemma_integer_root_decides(root: nat, num: nat)
    requires
        is_integer_root(root, num),
    ensures
        is_perfect_square(num) <==> root * root == num,
{
    if is_perfect_square(num) {
        let k = choose|k: nat| #[trigger] (k * k) == num;
        if k < root {
            lemma_square_monotone(k + 1, root);
            assert((k + 1) * (k + 1) > k * k) by (nonlinear_arith);
        } else if k > root {
            lemma_square_monotone(root + 1, k);
        }
    }
}

/// Every row of the matrix is as long as the matrix is high.
pub open spec fn is_square_matrix_spec<T>(data: Seq<Vec<T>>) -> bool {
    forall|i: int| 0 <= i < data.len() ==> (#[trigger] data[i]).len() == data.len()
}

/// Whether every row of `data` is as long as `data` is high.
pub fn is_square_matrix<T>(data: &Vec<Vec<T>>) -> (square: bool)
    ensures
        square == is_square_matrix_spec(data@),
{
    let len = data.len();
    let mut i: usize = 0;
    while i < len
        invariant
            len == data.len(),
            i <= len,
            forall|j: int| 0 <= j < i ==> (#[trigger] data[j]).len() == len,
        decreases len - i,
    {
        if data[i].len() != len {
            return false;
        }
        i = i + 1;
    }
    true
}

/// The integer square root of `num`, found by halving the range that holds
/// it.
pub fn integer_root(num: usize) -> (root: usize)
    ensures
        is_integer_root(root as nat, num as nat),
{
    let mut low: usize = 0;
    let mut high: usize = num;
    proof {
        let bound = num as int;
        assert(bound < (bound + 1) * (bound + 1)) by (nonlinear_arith)
            requires
                bound >= 0,
        ;
    }
    while low < high
        invariant
            low <= high <= num,
            low * low <= num,
            num < (high + 1) * (high + 1),
        decreases high - low,
    {
        let middle = low + (high - low) / 2 + (high - low) % 2;
        let ghost m = middle as int;
        let ghost bound = num as int;
        if middle <= num / middle {
            proof {
                assert(m * m <= bound) by (nonlinear_arith)
                    requires
                        m > 0,
                        m <= bound / m,
                ;
            }
            low = middle;
        } else {
            proof {
                assert(bound < m * m) by (nonlinear_arith)
                    requires
                        m > 0,
                        m > bound / m,
                ;
            }
            high = middle - 1;
        }
    }
    low
}

/// Whether `num` is a perfect square.
pub fn is_square(num: usize) -> (square: bool)
    ensures
        square == is_perfect_square(num as nat),
{
    let root = integer_root(num);
    proof {
        lemma_integer_root_decides(root as nat, num as nat);
        assert(root * root <= num);
    }
    root * root == num
}

/// Some value other than the empty mark stands twice in the group.
pub open spec fn has_repeat(group: Seq<usize>) -> bool {
    exists|i: int, j: int|
        0 <= i < j < group.len() && #[trigger] group[i] == #[trigger] group[j] && group[i] > 0
}

/// Row `i`, column `i` and box `i` of the grid hold no value twice, empty
/// cells aside.
pub open spec fn groups_are_clean(g: Seq<Seq<usize>>, k: int, i: int) -> bool {
    !has_repeat(g[i]) && !has_repeat(grid_col(g, i)) && !has_repeat(grid_box(g, k, i))
}

/// No row, column or box of the grid holds a value twice, empty cells
/// aside.
pub open spec fn is_valid_grid(g: Seq<Seq<usize>>, k: int) -> bool {
    forall|i: int| 0 <= i < g.len() ==> groups_are_clean(g, k, i)
}

/// Whether some value other than the empty mark stands twice in the group.
pub fn has_repeated_value(group: &Vec<usize>) -> (repeated: bool)
    ensures
        repeated == has_repeat(group@),
{
    let mut i: usize = 0;
    while i < group.len()
        invariant
            i <= group.len(),
            forall|a: int, b: int|
                0 <= a < i && a < b < group.len() ==> !(#[trigger] group[a] == #[trigger] group[b]
                    && group[a] > 0),
        decreases group.len() - i,
    {
        if group[i] > 0 {
            let mut j: usize = i + 1;
            while j < group.len()
                invariant
                    i < j <= group.len(),
                    group[i as int] > 0,
                    forall|b: int| i < b < j ==> #[trigger] group[b] != group[i as int],
                decreases group.len() - j,
            {
                if group[j] == group[i] {
                    return true;
                }
                j = j + 1;
            }
        }
        i = i + 1;
    }
    false
}

/// Whether the grid breaks no rule: no row, column or box holds a value
/// twice. Empty cells are not counted.
pub fn is_valid_sudoku(board: &Board) -> (valid: bool)
    requires
        board.wf(),
    ensures
        valid == is_valid_grid(board@, board.spec_square_size() as int),
{
    let size = board.get_size();
    let ghost g = board@;
    let ghost k = board.spec_square_size() as int;
    let mut axis: usize = 0;
    while axis < size
        invariant
            board.wf(),
            g == board@,
            k == board.spec_square_size(),
            size == board.spec_size(),
            axis <= size,
            forall|i: int| 0 <= i < axis ==> groups_are_clean(g, k, i),
        decreases size - axis,
    {
        match board.get_row(axis) {
            Some(rows) => {
                assert(views(rows@) =~= rows@);
                if has_repeated_value(rows) {
                    assert(!groups_are_clean(g, k, axis as int));
                    return false;
                }
            },
            None => {},
        }
        match board.get_col(axis) {
            Some(cols) => {
                assert(views(cols@) =~= cols@);
                if has_repeated_value(cols) {
                    assert(!groups_are_clean(g, k, axis as int));
                    return false;
                }
            },
            None => {},
        }
        match board.get_square_1d(axis) {
            Some(square) => {
                assert(views(square@) =~= square@);
                if has_repeated_value(square) {
                    assert(!groups_are_clean(g, k, axis as int));
                    return false;
                }
            },
            None => {},
        }
        assert(groups_are_clean(g, k, axis as int));
        axis = axis + 1;
    }
    true
}

/// The grid is a solved puzzle: square with boxes of side `k`, every cell
/// with a value from `1` to the side length, and no value twice in a row,
/// a column or a box.
pub open spec fn is_solution(s: Seq<Seq<usize>>, k: int) -> bool {
    &&& is_square_grid(s)
    &&& s.len() <= usize::MAX
    &&& 0 <= k
    &&& k * k == s.len()
    &&& forall|r: int, c: int|
        0 <= r < s.len() && 0 <= c < s.len() ==> 1 <= #[trigger] s[r][c] <= s.len()
    &&& is_valid_grid(s, k)
}

} // verus!
