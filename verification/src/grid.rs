//! The grid as a sequence of rows of cell bytes: its shape, the mines around
//! a cell, and how many cells have a given property.

use vstd::prelude::*;
use vstd::arithmetic::div_mod::lemma_fundamental_div_mod_converse;
use crate::cell::cell_mine;

verus! {

/// The mathematical model of a grid: rows of cell bytes, top row first.
pub type Grid = Seq<Seq<u8>>;

/// The model of a grid held in vectors.
pub open spec fn grid_of(f: Vec<Vec<u8>>) -> Grid {
    f@.map_values(|row: Vec<u8>| row@)
}

/// The model of a grid held in vectors has the rows that the vectors hold.
pub proof fn lemma_grid_of(f: Vec<Vec<u8>>)
    ensures
        grid_of(f).len() == f.len(),
        forall|j: int| 0 <= j < f.len() ==> #[trigger] grid_of(f)[j] == f[j]@,
{
}

/// The grid has `h` rows of `w` cells each.
pub open spec fn rect(g: Grid, w: int, h: int) -> bool {
    &&& g.len() == h
    &&& forall|j: int| 0 <= j < h ==> #[trigger] g[j].len() == w
}

/// The place of a cell in the row-by-row order gives back its row and column.
pub proof fn lemma_cell_index(w: int, h: int, r: int, c: int)
    requires
        0 <= r < h,
        0 <= c < w,
    ensures
        0 <= r * w + c < w * h,
        (r * w + c) / w == r,
        (r * w + c) % w == c,
{
    assert(0 <= r * w && r * w + w <= w * h) by (nonlinear_arith)
        requires
            0 <= r < h,
            0 < w,
    ;
    lemma_fundamental_div_mod_converse(r * w + c, w, r, c);
}

/// The position lies on the grid.
pub open spec fn inside(g: Grid, r: int, c: int) -> bool {
    0 <= r < g.len() && 0 <= c < g[r].len()
}

/// The position lies on the grid and holds a mine.
pub open spec fn mine_at(g: Grid, r: int, c: int) -> bool {
    inside(g, r, c) && cell_mine(g[r][c])
}

/// One for a true condition, zero for a false one.
pub open spec fn one_if(b: bool) -> int {
    if b {
        1
    } else {
        0
    }
}

/// The number of mines among the up to eight neighbours of a position.
/// Neighbours beyond the edge of the grid do not count.
pub open spec fn mines_around(g: Grid, r: int, c: int) -> int {
    one_if(mine_at(g, r - 1, c - 1)) + one_if(mine_at(g, r - 1, c)) + one_if(
        mine_at(g, r - 1, c + 1),
    ) + one_if(mine_at(g, r, c - 1)) + one_if(mine_at(g, r, c + 1)) + one_if(
        mine_at(g, r + 1, c - 1),
    ) + one_if(mine_at(g, r + 1, c)) + one_if(mine_at(g, r + 1, c + 1))
}

/// Two grids of one shape with mines in the same places.
pub open spec fn same_mines(a: Grid, b: Grid) -> bool {
    &&& a.len() == b.len()
    &&& forall|j: int| 0 <= j < a.len() ==> #[trigger] a[j].len() == b[j].len()
    &&& forall|j: int, i: int|
        0 <= j < a.len() && 0 <= i < a[j].len() ==> cell_mine(#[trigger] a[j][i]) == cell_mine(
            b[j][i],
        )
}

/// Grids with mines in the same places have the same number of mines around
/// every position.
pub proof fn lemma_same_mines_around(a: Grid, b: Grid, r: int, c: int)
    requires
        same_mines(a, b),
    ensures
        mines_around(a, r, c) == mines_around(b, r, c),
{
    assert forall|j: int, i: int| mine_at(a, j, i) == mine_at(b, j, i) by {
        if 0 <= j < a.len() {
            assert(a[j].len() == b[j].len());
            if 0 <= i < a[j].len() {
                assert(cell_mine(a[j][i]) == cell_mine(b[j][i]));
            }
        }
    }
}

/// The grid with one cell replaced.
pub open spec fn with_cell(g: Grid, r: int, c: int, v: u8) -> Grid {
    g.update(r, g[r].update(c, v))
}

/// How many cells of a row have the property.
pub open spec fn count_row(row: Seq<u8>, pred: spec_fn(u8) -> bool) -> int
    decreases row.len(),
{
    if row.len() == 0 {
        0
    } else {
        count_row(row.drop_last(), pred) + one_if(pred(row.last()))
    }
}

/// How many cells of a grid have the property.
pub open spec fn count(g: Grid, pred: spec_fn(u8) -> bool) -> int
    decreases g.len(),
{
    if g.len() == 0 {
        0
    } else {
        count(g.drop_last(), pred) + count_row(g.last(), pred)
    }
}

/// The property of being in neither of two classes.
pub open spec fn neither(p: spec_fn(u8) -> bool, q: spec_fn(u8) -> bool) -> spec_fn(u8) -> bool {
    |u: u8| !p(u) && !q(u)
}

/// A count lies between zero and the length of the row.
pub proof fn lemma_count_row_bounds(row: Seq<u8>, pred: spec_fn(u8) -> bool)
    ensures
        0 <= count_row(row, pred) <= row.len(),
    decreases row.len(),
{
    if row.len() > 0 {
        lemma_count_row_bounds(row.drop_last(), pred);
    }
}

/// Replacing one cell of a row changes the count by what the old and the new
/// cell contribute.
pub proof fn lemma_count_row_update(row: Seq<u8>, i: int, v: u8, pred: spec_fn(u8) -> bool)
    requires
        0 <= i < row.len(),
    ensures
        count_row(row.update(i, v), pred) == count_row(row, pred) - one_if(pred(row[i])) + one_if(
            pred(v),
        ),
    decreases row.len(),
{
    let new = row.update(i, v);
    if i == row.len() - 1 {
        assert(new.drop_last() =~= row.drop_last());
    } else {
        assert(new.drop_last() =~= row.drop_last().update(i, v));
        lemma_count_row_update(row.drop_last(), i, v, pred);
    }
}

/// Rows that agree on the property cell by cell have the same count.
pub proof fn lemma_count_row_same(
    a: Seq<u8>,
    b: Seq<u8>,
    p: spec_fn(u8) -> bool,
    q: spec_fn(u8) -> bool,
)
    requires
        a.len() == b.len(),
        forall|i: int| 0 <= i < a.len() ==> p(#[trigger] a[i]) == q(b[i]),
    ensures
        count_row(a, p) == count_row(b, q),
    decreases a.len(),
{
    if a.len() > 0 {
        assert(p(a[a.len() - 1]) == q(b[a.len() - 1]));
        assert forall|i: int| 0 <= i < a.drop_last().len() implies p(#[trigger] a.drop_last()[i])
            == q(b.drop_last()[i]) by {
            assert(p(a[i]) == q(b[i]));
        }
        lemma_count_row_same(a.drop_last(), b.drop_last(), p, q);
    }
}

/// Where no cell of a row is in both classes, the two classes and the rest
/// add up to the length of the row.
pub proof fn lemma_count_row_split(row: Seq<u8>, p: spec_fn(u8) -> bool, q: spec_fn(u8) -> bool)
    requires
        forall|i: int| 0 <= i < row.len() ==> !(p(#[trigger] row[i]) && q(row[i])),
    ensures
        count_row(row, p) + count_row(row, q) + count_row(row, neither(p, q)) == row.len(),
    decreases row.len(),
{
    if row.len() > 0 {
        assert(!(p(row[row.len() - 1]) && q(row[row.len() - 1])));
        assert forall|i: int| 0 <= i < row.drop_last().len() implies !(p(
            #[trigger] row.drop_last()[i],
        ) && q(row.drop_last()[i])) by {
            assert(!(p(row[i]) && q(row[i])));
        }
        lemma_count_row_split(row.drop_last(), p, q);
    }
}

/// A count over a grid is not negative.
pub proof fn lemma_count_nonneg(g: Grid, pred: spec_fn(u8) -> bool)
    ensures
        0 <= count(g, pred),
    decreases g.len(),
{
    if g.len() > 0 {
        lemma_count_nonneg(g.drop_last(), pred);
        lemma_count_row_bounds(g.last(), pred);
    }
}

/// Replacing one cell of a grid changes the count by what the old and the new
/// cell contribute.
pub proof fn lemma_count_update(g: Grid, r: int, c: int, v: u8, pred: spec_fn(u8) -> bool)
    requires
        inside(g, r, c),
    ensures
        count(with_cell(g, r, c, v), pred) == count(g, pred) - one_if(pred(g[r][c])) + one_if(
            pred(v),
        ),
    decreases g.len(),
{
    let new = with_cell(g, r, c, v);
    if r == g.len() - 1 {
        assert(new.drop_last() =~= g.drop_last());
        lemma_count_row_update(g[r], c, v, pred);
    } else {
        assert(new.drop_last() =~= with_cell(g.drop_last(), r, c, v));
        lemma_count_update(g.drop_last(), r, c, v, pred);
    }
}

/// Grids that agree on the property cell by cell have the same count.
pub proof fn lemma_count_same(a: Grid, b: Grid, p: spec_fn(u8) -> bool, q: spec_fn(u8) -> bool)
    requires
        a.len() == b.len(),
        forall|j: int| 0 <= j < a.len() ==> #[trigger] a[j].len() == b[j].len(),
        forall|j: int, i: int|
            0 <= j < a.len() && 0 <= i < a[j].len() ==> p(#[trigger] a[j][i]) == q(b[j][i]),
    ensures
        count(a, p) == count(b, q),
    decreases a.len(),
{
    if a.len() > 0 {
        let k = a.len() - 1;
        assert(a[k].len() == b[k].len());
        assert forall|i: int| 0 <= i < a[k].len() implies p(#[trigger] a[k][i]) == q(b[k][i]) by {}
        lemma_count_row_same(a[k], b[k], p, q);
        assert forall|j: int| 0 <= j < a.drop_last().len() implies #[trigger] a.drop_last()[j].len()
            == b.drop_last()[j].len() by {
            assert(a[j].len() == b[j].len());
        }
        assert forall|j: int, i: int|
            0 <= j < a.drop_last().len() && 0 <= i < a.drop_last()[j].len() implies p(
            #[trigger] a.drop_last()[j][i],
        ) == q(b.drop_last()[j][i]) by {
            assert(p(a[j][i]) == q(b[j][i]));
        }
        lemma_count_same(a.drop_last(), b.drop_last(), p, q);
    }
}

/// Where no cell of a grid is in both classes, the two classes and the rest
/// add up to the number of cells.
pub proof fn lemma_count_split(
    g: Grid,
    w: int,
    h: int,
    p: spec_fn(u8) -> bool,
    q: spec_fn(u8) -> bool,
)
    requires
        rect(g, w, h),
        forall|j: int, i: int|
            0 <= j < h && 0 <= i < w ==> !(p(#[trigger] g[j][i]) && q(g[j][i])),
    ensures
        count(g, p) + count(g, q) + count(g, neither(p, q)) == w * h,
    decreases g.len(),
{
    if g.len() > 0 {
        let k = g.len() - 1;
        assert(g[k].len() == w);
        assert forall|i: int| 0 <= i < g[k].len() implies !(p(#[trigger] g[k][i]) && q(
            g[k][i],
        )) by {}
        lemma_count_row_split(g[k], p, q);
        assert forall|j: int| 0 <= j < h - 1 implies #[trigger] g.drop_last()[j].len() == w by {
            assert(g[j].len() == w);
        }
        assert forall|j: int, i: int| 0 <= j < h - 1 && 0 <= i < w implies !(p(
            #[trigger] g.drop_last()[j][i],
        ) && q(g.drop_last()[j][i])) by {
            assert(!(p(g[j][i]) && q(g[j][i])));
        }
        lemma_count_split(g.drop_last(), w, h - 1, p, q);
        assert(w * (h - 1) + w == w * h) by (nonlinear_arith);
    } else {
        assert(w * 0 == 0) by (nonlinear_arith);
    }
}

/// Where every cell of a row with the property has it in another row of the
/// same length, the other row has at least as many such cells.
pub proof fn lemma_count_row_le(a: Seq<u8>, b: Seq<u8>, pred: spec_fn(u8) -> bool)
    requires
        a.len() == b.len(),
        forall|i: int| 0 <= i < a.len() && pred(#[trigger] a[i]) ==> pred(b[i]),
    ensures
        count_row(a, pred) <= count_row(b, pred),
    decreases a.len(),
{
    if a.len() > 0 {
        assert(pred(a[a.len() - 1]) ==> pred(b[a.len() - 1]));
        assert forall|i: int| 0 <= i < a.drop_last().len() && pred(
            #[trigger] a.drop_last()[i],
        ) implies pred(b.drop_last()[i]) by {
            assert(pred(a[i]) ==> pred(b[i]));
        }
        lemma_count_row_le(a.drop_last(), b.drop_last(), pred);
    }
}

/// Where every cell of a grid with the property has it in another grid of
/// the same shape, the other grid has at least as many such cells.
pub proof fn lemma_count_le(a: Grid, b: Grid, pred: spec_fn(u8) -> bool)
    requires
        a.len() == b.len(),
        forall|j: int| 0 <= j < a.len() ==> #[trigger] a[j].len() == b[j].len(),
        forall|j: int, i: int|
            0 <= j < a.len() && 0 <= i < a[j].len() && pred(#[trigger] a[j][i]) ==> pred(b[j][i]),
    ensures
        count(a, pred) <= count(b, pred),
    decreases a.len(),
{
    if a.len() > 0 {
        let k = a.len() - 1;
        assert(a[k].len() == b[k].len());
        lemma_count_row_le(a[k], b[k], pred);
        assert forall|j: int| 0 <= j < a.drop_last().len() implies #[trigger] a.drop_last()[j].len()
            == b.drop_last()[j].len() by {
            assert(a[j].len() == b[j].len());
        }
        assert forall|j: int, i: int|
            0 <= j < a.drop_last().len() && 0 <= i < a.drop_last()[j].len() && pred(
                #[trigger] a.drop_last()[j][i],
            ) implies pred(b.drop_last()[j][i]) by {
            assert(pred(a[j][i]) ==> pred(b[j][i]));
        }
        lemma_count_le(a.drop_last(), b.drop_last(), pred);
    }
}

/// Where no cell has the property, the count is zero.
pub proof fn lemma_count_none(g: Grid, pred: spec_fn(u8) -> bool)
    requires
        forall|j: int, i: int|
            0 <= j < g.len() && 0 <= i < g[j].len() ==> !pred(#[trigger] g[j][i]),
    ensures
        count(g, pred) == 0,
{
    let none = |u: u8| false;
    lemma_count_same(g, g, pred, none);
    lemma_count_false(g);
}

/// No cell has the property that nothing has.
proof fn lemma_count_false(g: Grid)
    ensures
        count(g, |u: u8| false) == 0,
    decreases g.len(),
{
    if g.len() > 0 {
        lemma_count_false(g.drop_last());
        lemma_count_row_false(g.last());
    }
}

/// No cell of a row has the property that nothing has.
proof fn lemma_count_row_false(row: Seq<u8>)
    ensures
        count_row(row, |u: u8| false) == 0,
    decreases row.len(),
{
    if row.len() > 0 {
        lemma_count_row_false(row.drop_last());
    }
}

/// A cell with the property makes the count of its row at least one.
pub proof fn lemma_count_row_has(row: Seq<u8>, i: int, pred: spec_fn(u8) -> bool)
    requires
        0 <= i < row.len(),
        pred(row[i]),
    ensures
        count_row(row, pred) >= 1,
    decreases row.len(),
{
    if i == row.len() - 1 {
        lemma_count_row_bounds(row.drop_last(), pred);
    } else {
        lemma_count_row_has(row.drop_last(), i, pred);
    }
}

/// A cell with the property makes the count at least one.
pub proof fn lemma_count_has(g: Grid, r: int, c: int, pred: spec_fn(u8) -> bool)
    requires
        inside(g, r, c),
        pred(g[r][c]),
    ensures
        count(g, pred) >= 1,
    decreases g.len(),
{
    if r == g.len() - 1 {
        lemma_count_nonneg(g.drop_last(), pred);
        lemma_count_row_has(g[r], c, pred);
    } else {
        lemma_count_has(g.drop_last(), r, c, pred);
        lemma_count_row_bounds(g.last(), pred);
    }
}

} // verus!
