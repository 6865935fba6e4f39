//! Rows, columns and boxes of a square grid, and the arithmetic that leads
//! from a cell to its box and back.

use vstd::prelude::*;

verus! {

/// The values of a vector's items, one for one.
pub open spec fn views<T: View>(items: Seq<T>) -> Seq<T::V> {
    Seq::new(items.len(), |i: int| items[i]@)
}

/// A grid of side `g.len()`: every row is as long as the grid is high.
pub open spec fn is_square_grid<A>(g: Seq<Seq<A>>) -> bool {
    forall|r: int| 0 <= r < g.len() ==> (#[trigger] g[r]).len() == g.len()
}

/// The box that holds cell `(r, c)` in a grid whose boxes have side `k`.
pub open spec fn box_index(k: int, r: int, c: int) -> int {
    (r / k) * k + c / k
}

/// The place of cell `(r, c)` inside its box, counted row by row.
pub open spec fn box_offset(k: int, r: int, c: int) -> int {
    (r % k) * k + c % k
}

/// The row of the cell at place `o` of box `b`.
pub open spec fn box_cell_row(k: int, b: int, o: int) -> int {
    (b / k) * k + o / k
}

/// The column of the cell at place `o` of box `b`.
pub open spec fn box_cell_col(k: int, b: int, o: int) -> int {
    (b % k) * k + o % k
}

/// Column `c` of the grid, from the top down.
pub open spec fn grid_col<A>(g: Seq<Seq<A>>, c: int) -> Seq<A> {
    Seq::new(g.len(), |r: int| g[r][c])
}

/// Box `b` of the grid, row by row.
pub open spec fn grid_box<A>(g: Seq<Seq<A>>, k: int, b: int) -> Seq<A> {
    Seq::new(g.len(), |o: int| g[box_cell_row(k, b, o)][box_cell_col(k, b, o)])
}

/// The grid with cell `(r, c)` replaced by `value`.
pub open spec fn grid_with<A>(g: Seq<Seq<A>>, r: int, c: int, value: A) -> Seq<Seq<A>> {
    g.update(r, g[r].update(c, value))
}

/// A grid with a cell in it has boxes with a cell in them.
pub proof fn lemma_box_side_positive(k: int, n: int)
    requires
        0 <= k,
        k * k == n,
        0 < n,
    ensures
        0 < k,
{
    if k == 0 {
        assert(k * k == 0);
    }
}

/// Splitting a number below `k * k` into quotient and remainder by `k` gives
/// two numbers below `k`.
pub proof fn lemma_split(k: int, x: int)
    requires
        0 < k,
        0 <= x < k * k,
    ensures
        0 <= x / k < k,
        0 <= x % k < k,
        x == (x / k) * k + x % k,
{
    vstd::arithmetic::div_mod::lemma_fundamental_div_mod(x, k);
    vstd::arithmetic::div_mod::lemma_mod_bound(x, k);
    let q = x / k;
    let m = x % k;
    assert(x == k * q + m);
    assert(q < k) by (nonlinear_arith)
        requires
            x == k * q + m,
            0 <= m,
            x < k * k,
            0 < k,
    ;
    assert(0 <= q) by (nonlinear_arith)
        requires
            x == k * q + m,
            m < k,
            0 <= x,
            0 < k,
    ;
    assert(k * q == q * k) by (nonlinear_arith);
}

/// Joining two numbers below `k` gives a number below `k * k` that splits
/// back into the two.
pub proof fn lemma_join(k: int, q: int, m: int)
    requires
        0 < k,
        0 <= q < k,
        0 <= m < k,
    ensures
        0 <= q * k + m < k * k,
        (q * k + m) / k == q,
        (q * k + m) % k == m,
{
    assert(0 <= q * k + m < k * k) by (nonlinear_arith)
        requires
            0 < k,
            0 <= q < k,
            0 <= m < k,
    ;
    vstd::arithmetic::div_mod::lemma_fundamental_div_mod_converse(q * k + m, k, q, m);
}

/// A cell of the grid lies at a valid place of a valid box, and that place
/// leads back to the cell.
pub proof fn lemma_cell_to_box(k: int, r: int, c: int)
    requires
        0 < k,
        0 <= r < k * k,
        0 <= c < k * k,
    ensures
        0 <= box_index(k, r, c) < k * k,
        0 <= box_offset(k, r, c) < k * k,
        box_cell_row(k, box_index(k, r, c), box_offset(k, r, c)) == r,
        box_cell_col(k, box_index(k, r, c), box_offset(k, r, c)) == c,
{
    lemma_split(k, r);
    lemma_split(k, c);
    lemma_join(k, r / k, c / k);
    lemma_join(k, r % k, c % k);
}

/// A place of a box is a cell of the grid, and that cell leads back to the
/// box and the place.
pub proof fn lemma_box_to_cell(k: int, b: int, o: int)
    requires
        0 < k,
        0 <= b < k * k,
        0 <= o < k * k,
    ensures
        0 <= box_cell_row(k, b, o) < k * k,
        0 <= box_cell_col(k, b, o) < k * k,
        box_index(k, box_cell_row(k, b, o), box_cell_col(k, b, o)) == b,
        box_offset(k, box_cell_row(k, b, o), box_cell_col(k, b, o)) == o,
{
    lemma_split(k, b);
    lemma_split(k, o);
    lemma_join(k, b / k, o / k);
    lemma_join(k, b % k, o % k);
}

} // verus!
