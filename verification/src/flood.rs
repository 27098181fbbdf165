//! Revealing a cell: which cells the reveal floods, and the proof that a walk
//! from neighbour to neighbour opens exactly those.

use vstd::prelude::*;
use crate::board::{
    lemma_placed_count, lemma_placed_shape, lemma_status_add, lemma_status_bits, mined, placed, revealed, Board, MineField,
};
use crate::cell::{
    cell_forced, cell_mine, cell_opened, cell_revealed, cell_value, lemma_cell_open,
    lemma_cell_value,
};
use crate::grid::{
    count, inside, lemma_count_has, lemma_count_le, lemma_count_nonneg, lemma_count_same,
    lemma_count_split, lemma_count_update, lemma_grid_of, lemma_same_mines_around, mine_at,
    mines_around, neither, one_if, rect, same_mines, with_cell, Grid,
};

verus! {

/// Two different positions that touch, be it by a corner.
pub open spec fn adjacent(a: (int, int), b: (int, int)) -> bool {
    a != b && -1 <= a.0 - b.0 <= 1 && -1 <= a.1 - b.1 <= 1
}

/// Whether the cell at a position of the grid is open.
pub open spec fn open_at(g: Grid, at: (int, int)) -> bool {
    cell_opened(g[at.0][at.1])
}

/// A walk over closed cells of the grid, in which every cell but the last
/// has no mine around it and touches the next.
pub open spec fn chain(g: Grid, path: Seq<(int, int)>) -> bool {
    &&& path.len() > 0
    &&& forall|t: int|
        0 <= t < path.len() ==> inside(g, (#[trigger] path[t]).0, path[t].1) && !open_at(
            g,
            path[t],
        )
    &&& forall|t: int|
        0 <= t < path.len() - 1 ==> cell_value(g[(#[trigger] path[t]).0][path[t].1]) == 0
            && adjacent(path[t], path[t + 1])
}

/// Revealing the cell `from` opens the cell `to`: a walk over closed cells
/// leads from the one to the other, through cells without a mine around
/// them.
pub open spec fn floods(g: Grid, from: (int, int), to: (int, int)) -> bool {
    exists|path: Seq<(int, int)>| #[trigger]
        chain(g, path) && path[0] == from && path.last() == to
}

/// The grid after the cell in row `r`, column `c` was revealed: the cells
/// that the reveal floods are open, the others are as before.
pub open spec fn flooded(g: Grid, r: int, c: int) -> Grid {
    Seq::new(
        g.len(),
        |j: int|
            Seq::new(
                g[j].len(),
                |i: int|
                    if floods(g, (r, c), (j, i)) {
                        g[j][i] | 0x10
                    } else {
                        g[j][i]
                    },
            ),
    )
}

impl Board {
    /// The board after the closed cell in row `r`, column `c`, which holds no
    /// mine, was revealed. The status word counts the cells that were
    /// opened.
    pub open spec fn opened_at(self, r: int, c: int) -> Board {
        let g = flooded(self.grid, r, c);
        Board {
            grid: g,
            s: (self.s + count(g, revealed()) - count(self.grid, revealed())) as u16,
            ..self
        }
    }

    /// The board after the cell in row `r`, column `c` was revealed. A mine
    /// and an open cell leave the board as it is.
    pub open spec fn revealed_at(self, r: int, c: int) -> Board {
        if cell_mine(self.grid[r][c]) || cell_opened(self.grid[r][c]) {
            self
        } else {
            self.opened_at(r, c)
        }
    }
}

/// The second grid is the first with some closed cells opened.
pub open spec fn grows(a: Grid, b: Grid) -> bool {
    &&& a.len() == b.len()
    &&& forall|j: int| 0 <= j < a.len() ==> #[trigger] a[j].len() == b[j].len()
    &&& forall|j: int, i: int|
        inside(a, j, i) ==> #[trigger] b[j][i] == a[j][i] || (!cell_opened(a[j][i]) && b[j][i]
            == a[j][i] | 0x10)
}

/// Every cell that is open in the second grid and closed in the first is
/// flooded from the cell in row `r`, column `c` of the first.
spec fn sound(a: Grid, b: Grid, r: int, c: int) -> bool {
    forall|j: int, i: int|
        inside(a, j, i) && #[trigger] open_at(b, (j, i)) && !open_at(a, (j, i)) ==> floods(
            a,
            (r, c),
            (j, i),
        )
}

/// Every cell but the one in row `r`, column `c` that is open in the second
/// grid, closed in the first and has no mine around it has all its
/// neighbours open.
spec fn settled(a: Grid, b: Grid, r: int, c: int) -> bool {
    forall|z: (int, int), y: (int, int)|
        inside(a, z.0, z.1) && z != (r, c) && #[trigger] open_at(b, z) && !open_at(a, z)
            && cell_value(a[z.0][z.1]) == 0 && inside(a, y.0, y.1) && adjacent(z, y)
            ==> #[trigger] open_at(b, y)
}

/// The state of a reveal under way: the board `b` has come from `b0` by
/// opening the cell in row `r`, column `c` and some of the cells that it
/// floods.
#[verifier::opaque]
spec fn flooding(b0: Board, b: Board, r: int, c: int) -> bool {
    &&& b == (Board { grid: b.grid, s: b.s, ..b0 })
    &&& b0.laid()
    &&& b.laid()
    &&& inside(b0.grid, r, c)
    &&& !open_at(b0.grid, (r, c))
    &&& !cell_mine(b0.grid[r][c])
    &&& open_at(b.grid, (r, c))
    &&& grows(b0.grid, b.grid)
    &&& sound(b0.grid, b.grid, r, c)
    &&& settled(b0.grid, b.grid, r, c)
    &&& b.s == b0.s + count(b.grid, revealed()) - count(b0.grid, revealed())
    &&& b.opened_count() > b0.opened_count()
}

/// A closed cell floods itself.
pub proof fn lemma_floods_self(g: Grid, r: int, c: int)
    requires
        inside(g, r, c),
        !open_at(g, (r, c)),
    ensures
        floods(g, (r, c), (r, c)),
{
    let path = seq![(r, c)];
    assert(path[0] == (r, c));
    assert(chain(g, path));
}

/// A flood goes on from a flooded cell without a mine around it to each of
/// its closed neighbours.
pub proof fn lemma_floods_on(g: Grid, from: (int, int), z: (int, int), y: (int, int))
    requires
        floods(g, from, z),
        cell_value(g[z.0][z.1]) == 0,
        adjacent(z, y),
        inside(g, y.0, y.1),
        !open_at(g, y),
    ensures
        floods(g, from, y),
{
    let path = choose|path: Seq<(int, int)>| #[trigger]
        chain(g, path) && path[0] == from && path.last() == z;
    let longer = path.push(y);
    assert forall|t: int| 0 <= t < longer.len() implies inside(
        g,
        (#[trigger] longer[t]).0,
        longer[t].1,
    ) && !open_at(g, longer[t]) by {
        if t < path.len() {
            assert(longer[t] == path[t]);
        }
    }
    assert forall|t: int| 0 <= t < longer.len() - 1 implies cell_value(
        g[(#[trigger] longer[t]).0][longer[t].1],
    ) == 0 && adjacent(longer[t], longer[t + 1]) by {
        assert(longer[t] == path[t]);
        if t < path.len() - 1 {
            assert(longer[t + 1] == path[t + 1]);
        }
    }
    assert(chain(g, longer));
    assert(longer[0] == path[0]);
    assert(longer.last() == y);
}

/// A flood that starts from a neighbour of a closed cell without a mine
/// around it, after that cell and others were opened, is part of the flood
/// that starts from the cell.
pub proof fn lemma_floods_from(a: Grid, b: Grid, p: (int, int), n: (int, int), x: (int, int))
    requires
        grows(a, b),
        inside(a, p.0, p.1),
        !open_at(a, p),
        cell_value(a[p.0][p.1]) == 0,
        adjacent(p, n),
        floods(b, n, x),
    ensures
        floods(a, p, x),
{
    let path = choose|path: Seq<(int, int)>| #[trigger]
        chain(b, path) && path[0] == n && path.last() == x;
    let longer = seq![p] + path;
    assert forall|t: int| 0 <= t < path.len() implies inside(a, (#[trigger] path[t]).0, path[t].1)
        && !open_at(a, path[t]) && cell_value(a[path[t].0][path[t].1]) == cell_value(
        b[path[t].0][path[t].1],
    ) by {
        let z = path[t];
        assert(inside(b, z.0, z.1) && !open_at(b, z));
        assert(a[z.0].len() == b[z.0].len());
        assert(b[z.0][z.1] == a[z.0][z.1] || (!cell_opened(a[z.0][z.1]) && b[z.0][z.1]
            == a[z.0][z.1] | 0x10));
        lemma_cell_open(a[z.0][z.1], false);
    }
    assert forall|t: int| 0 <= t < longer.len() implies inside(
        a,
        (#[trigger] longer[t]).0,
        longer[t].1,
    ) && !open_at(a, longer[t]) by {
        if t > 0 {
            assert(longer[t] == path[t - 1]);
        }
    }
    assert forall|t: int| 0 <= t < longer.len() - 1 implies cell_value(
        a[(#[trigger] longer[t]).0][longer[t].1],
    ) == 0 && adjacent(longer[t], longer[t + 1]) by {
        assert(longer[t + 1] == path[t]);
        if t > 0 {
            assert(longer[t] == path[t - 1]);
        }
    }
    assert(chain(a, longer));
    assert(longer[0] == p);
    assert(longer.last() == path.last());
}

/// A cell with no mine around it has no mine next to it.
pub proof fn lemma_no_mine_near(g: Grid, r: int, c: int, j: int, i: int)
    requires
        mines_around(g, r, c) == 0,
        adjacent((r, c), (j, i)),
        inside(g, j, i),
    ensures
        !cell_mine(g[j][i]),
{
    assert(mine_at(g, j, i) == (inside(g, j, i) && cell_mine(g[j][i])));
    if j == r - 1 {
        if i == c - 1 {
            assert(one_if(mine_at(g, r - 1, c - 1)) == 0);
        } else if i == c {
            assert(one_if(mine_at(g, r - 1, c)) == 0);
        } else {
            assert(one_if(mine_at(g, r - 1, c + 1)) == 0);
        }
    } else if j == r {
        if i == c - 1 {
            assert(one_if(mine_at(g, r, c - 1)) == 0);
        } else {
            assert(one_if(mine_at(g, r, c + 1)) == 0);
        }
    } else {
        if i == c - 1 {
            assert(one_if(mine_at(g, r + 1, c - 1)) == 0);
        } else if i == c {
            assert(one_if(mine_at(g, r + 1, c)) == 0);
        } else {
            assert(one_if(mine_at(g, r + 1, c + 1)) == 0);
        }
    }
}

/// Opening cells leaves the mines where they are.
pub proof fn lemma_grows_mines(a: Grid, b: Grid)
    requires
        grows(a, b),
    ensures
        same_mines(a, b),
        forall|j: int, i: int|
            inside(a, j, i) ==> {
                &&& cell_value(#[trigger] b[j][i]) == cell_value(a[j][i])
                &&& cell_forced(b[j][i]) == cell_forced(a[j][i])
                &&& cell_opened(a[j][i]) ==> b[j][i] == a[j][i]
                &&& cell_opened(a[j][i]) ==> cell_opened(b[j][i])
            },
{
    assert forall|j: int, i: int| inside(a, j, i) implies {
        &&& cell_value(#[trigger] b[j][i]) == cell_value(a[j][i])
        &&& cell_forced(b[j][i]) == cell_forced(a[j][i])
        &&& cell_mine(b[j][i]) == cell_mine(a[j][i])
        &&& cell_opened(a[j][i]) ==> b[j][i] == a[j][i]
        &&& cell_opened(a[j][i]) ==> cell_opened(b[j][i])
    } by {
        lemma_cell_open(a[j][i], false);
        lemma_cell_open(a[j][i], true);
    }
    assert forall|j: int, i: int| 0 <= j < a.len() && 0 <= i < a[j].len() implies cell_mine(
        #[trigger] a[j][i],
    ) == cell_mine(b[j][i]) by {
        assert(inside(a, j, i));
        assert(cell_mine(b[j][i]) == cell_mine(a[j][i]));
    }
}

/// The grid after a reveal of a closed cell is the grid before with some
/// closed cells opened, the revealed one among them.
pub proof fn lemma_flooded_grows(g: Grid, r: int, c: int)
    requires
        inside(g, r, c),
        !open_at(g, (r, c)),
    ensures
        grows(g, flooded(g, r, c)),
        open_at(flooded(g, r, c), (r, c)),
{
    let f = flooded(g, r, c);
    assert forall|j: int, i: int| inside(g, j, i) implies #[trigger] f[j][i] == g[j][i] || (
    !cell_opened(g[j][i]) && f[j][i] == g[j][i] | 0x10) by {
        if floods(g, (r, c), (j, i)) {
            let path = choose|path: Seq<(int, int)>| #[trigger]
                chain(g, path) && path[0] == (r, c) && path.last() == (j, i);
            assert(path[path.len() - 1] == (j, i));
            assert(!open_at(g, path[path.len() - 1]));
        }
    }
    lemma_floods_self(g, r, c);
    lemma_cell_open(g[r][c], false);
}

/// A reveal that starts from a cell without a mine floods no mine: a mine
/// next to a flooded cell shows in the value of that cell, where the flood
/// stops.
pub proof fn lemma_floods_no_mine(b: Board, r: int, c: int, x: (int, int))
    requires
        b.laid(),
        !cell_mine(b.grid[r][c]),
        floods(b.grid, (r, c), x),
    ensures
        inside(b.grid, x.0, x.1),
        !cell_mine(b.grid[x.0][x.1]),
{
    reveal(placed);
    let g = b.grid;
    let path = choose|path: Seq<(int, int)>| #[trigger]
        chain(g, path) && path[0] == (r, c) && path.last() == x;
    let n = path.len() - 1;
    assert(path[n] == x);
    assert(inside(g, path[n].0, path[n].1));
    if n > 0 {
        let z = path[n - 1];
        assert(inside(g, z.0, z.1));
        assert(cell_value(g[z.0][z.1]) == 0 && adjacent(z, path[n - 1 + 1]));
        lemma_cell_value(g[z.0][z.1]);
        assert(g[z.0].len() == b.w);
        let u = g[z.0][z.1];
        assert(!cell_mine(u) ==> cell_value(u) == mines_around(g, z.0, z.1));
        lemma_no_mine_near(g, z.0, z.1, x.0, x.1);
    }
}

/// Opening closed cells raises the number of revealed cells, if none of the
/// cells bears the mark of the end-of-game reveal.
pub proof fn lemma_revealed_grows(g: Grid, f: Grid, r: int, c: int)
    requires
        grows(g, f),
        inside(g, r, c),
        !open_at(g, (r, c)),
        open_at(f, (r, c)),
        forall|j: int, i: int|
            inside(g, j, i) && cell_forced(#[trigger] g[j][i]) ==> cell_opened(g[j][i]),
    ensures
        count(f, revealed()) > count(g, revealed()),
{
    // With the first cell closed again the grid still has every cell that
    // was revealed before, and one revealed cell less.
    let u = g[r][c];
    let mid = with_cell(f, r, c, u);
    lemma_grows_mines(g, f);
    lemma_cell_open(u, false);
    assert(f[r].len() == g[r].len());
    lemma_count_update(f, r, c, u, revealed());
    lemma_count_le(g, mid, revealed());
}

/// A reveal of a closed cell without a mine leaves the mines placed and
/// where they are. The status word counts the cells that were opened, at
/// least one, and keeps its flags.
pub proof fn lemma_flooded_laid(b: Board, r: int, c: int)
    requires
        b.laid(),
        inside(b.grid, r, c),
        !cell_opened(b.grid[r][c]),
        !cell_mine(b.grid[r][c]),
    ensures
        b.opened_at(r, c).laid(),
        same_mines(b.grid, b.opened_at(r, c).grid),
        b.opened_at(r, c).s == b.s + count(b.opened_at(r, c).grid, revealed()) - count(
            b.grid,
            revealed(),
        ),
        b.opened_at(r, c).opened_count() > b.opened_count(),
        b.opened_at(r, c).exploded() == b.exploded(),
        b.opened_at(r, c).succeeded() == b.succeeded(),
{
    reveal(placed);
    let g = b.grid;
    let f = flooded(g, r, c);
    lemma_flooded_grows(g, r, c);
    lemma_grows_mines(g, f);
    lemma_count_same(g, f, mined(), mined());
    assert forall|j: int, i: int| 0 <= j < b.h && 0 <= i < b.w implies {
        let u = #[trigger] f[j][i];
        &&& !cell_mine(u) ==> cell_value(u) == mines_around(f, j, i)
        &&& cell_forced(u) ==> cell_opened(u)
        &&& cell_revealed(u) ==> !cell_mine(u)
    } by {
        lemma_same_mines_around(g, f, j, i);
        assert(inside(g, j, i));
        let u0 = g[j][i];
        assert(!cell_mine(u0) ==> cell_value(u0) == mines_around(g, j, i));
        if floods(g, (r, c), (j, i)) {
            lemma_floods_no_mine(b, r, c, (j, i));
        }
    }
    lemma_revealed_grows(g, f, r, c);
    assert forall|j: int, i: int| 0 <= j < b.h && 0 <= i < b.w implies !(revealed()(
        #[trigger] f[j][i],
    ) && mined()(f[j][i])) by {}
    lemma_count_split(f, b.w as int, b.h as int, revealed(), mined());
    lemma_count_nonneg(f, neither(revealed(), mined()));
    lemma_status_add(b.s, count(f, revealed()) - count(g, revealed()));
}

/// The board with one closed cell opened and counted.
spec fn marked(b: Board, r: int, c: int) -> Board {
    Board { grid: with_cell(b.grid, r, c, b.grid[r][c] | 0x10), s: (b.s + 1) as u16, ..b }
}

/// The first step of a reveal: opening a closed cell without a mine, and
/// counting it, leaves the mines placed and the count in order.
proof fn lemma_flood_start(b0: Board, r: int, c: int)
    requires
        b0.laid(),
        inside(b0.grid, r, c),
        !cell_opened(b0.grid[r][c]),
        !cell_mine(b0.grid[r][c]),
    ensures
        b0.s < 0xffff,
        flooding(b0, marked(b0, r, c), r, c),
        marked(b0, r, c).opened_count() == b0.opened_count() + 1,
        b0.opened_count() < b0.cells() - b0.m,
{
    reveal(flooding);
    reveal(placed);
    let g0 = b0.grid;
    let u = g0[r][c];
    let b = marked(b0, r, c);
    let g = b.grid;
    let w = b0.w as int;
    let h = b0.h as int;
    lemma_cell_open(u, false);
    assert(!cell_forced(u));
    // The cell is neither a mine nor revealed, so fewer cells are revealed
    // than there are cells without a mine.
    assert forall|j: int, i: int| 0 <= j < h && 0 <= i < w implies !(revealed()(
        #[trigger] g0[j][i],
    ) && mined()(g0[j][i])) by {}
    lemma_count_split(g0, w, h, revealed(), mined());
    assert(neither(revealed(), mined())(u));
    lemma_count_has(g0, r, c, neither(revealed(), mined()));
    lemma_status_bits(b0.s);
    lemma_count_update(g0, r, c, u | 0x10, revealed());
    lemma_count_update(g0, r, c, u | 0x10, mined());
    assert(g[r] == g0[r].update(c, u | 0x10));
    assert(grows(g0, g)) by {
        assert forall|j: int, i: int| inside(g0, j, i) implies #[trigger] g[j][i] == g0[j][i] || (
        !cell_opened(g0[j][i]) && g[j][i] == g0[j][i] | 0x10) by {}
    }
    lemma_grows_mines(g0, g);
    assert(b.laid()) by {
        assert(rect(g, w, h));
        assert forall|j: int, i: int| 0 <= j < h && 0 <= i < w implies {
            let v = #[trigger] g[j][i];
            &&& !cell_mine(v) ==> cell_value(v) == mines_around(g, j, i)
            &&& cell_forced(v) ==> cell_opened(v)
            &&& cell_revealed(v) ==> !cell_mine(v)
        } by {
            lemma_same_mines_around(g0, g, j, i);
            assert(inside(g0, j, i));
            let v0 = g0[j][i];
            assert(!cell_mine(v0) ==> cell_value(v0) == mines_around(g0, j, i));
        }
    }
    assert(sound(g0, g, r, c)) by {
        assert forall|j: int, i: int|
            inside(g0, j, i) && #[trigger] open_at(g, (j, i)) && !open_at(g0, (j, i)) implies floods(
            g0,
            (r, c),
            (j, i),
        ) by {
            assert(j == r && i == c);
            lemma_floods_self(g0, r, c);
        }
    }
    assert(settled(g0, g, r, c)) by {
        assert forall|z: (int, int), y: (int, int)|
            inside(g0, z.0, z.1) && z != (r, c) && #[trigger] open_at(g, z) && !open_at(g0, z)
                && cell_value(g0[z.0][z.1]) == 0 && inside(g0, y.0, y.1) && adjacent(
                z,
                y,
            ) implies #[trigger] open_at(g, y) by {
            assert(g[z.0][z.1] == g0[z.0][z.1]);
        }
    }
}

/// What a reveal under way leaves as it was, and what is known of a
/// neighbour of the cell that the reveal began with.
proof fn lemma_flooding(b0: Board, b: Board, r: int, c: int, j: int, i: int)
    requires
        flooding(b0, b, r, c),
        inside(b0.grid, j, i),
    ensures
        b == (Board { grid: b.grid, s: b.s, ..b0 }),
        b.laid(),
        rect(b.grid, b0.w as int, b0.h as int),
        b.opened_count() > b0.opened_count(),
        b.opened_count() + b.m <= b.cells(),
        b.s == b0.s + count(b.grid, revealed()) - count(b0.grid, revealed()),
        inside(b.grid, j, i),
        open_at(b.grid, (r, c)),
        cell_mine(b.grid[j][i]) == cell_mine(b0.grid[j][i]),
        cell_value(b0.grid[r][c]) == 0 && adjacent((r, c), (j, i)) ==> !cell_mine(b.grid[j][i]),
{
    reveal(flooding);
    lemma_placed_count(b.grid, b.w, b.h, b.m, b.s);
    reveal(placed);
    lemma_grows_mines(b0.grid, b.grid);
    assert(b0.grid[j].len() == b.grid[j].len());
    if cell_value(b0.grid[r][c]) == 0 && adjacent((r, c), (j, i)) {
        lemma_no_mine_near(b0.grid, r, c, j, i);
    }
}

/// One step of a reveal under way: revealing a closed neighbour of the cell
/// that the reveal began with keeps the reveal within the cells that it
/// floods, and opens the neighbour.
proof fn lemma_flood_step(b0: Board, b: Board, r: int, c: int, j: int, i: int)
    requires
        flooding(b0, b, r, c),
        cell_value(b0.grid[r][c]) == 0,
        inside(b.grid, j, i),
        adjacent((r, c), (j, i)),
        !open_at(b.grid, (j, i)),
    ensures
        flooding(b0, b.opened_at(j, i), r, c),
        open_at(b.opened_at(j, i).grid, (j, i)),
        forall|y: (int, int)|
            inside(b.grid, y.0, y.1) && open_at(b.grid, y) ==> #[trigger] open_at(
                b.opened_at(j, i).grid,
                y,
            ),
{
    reveal(flooding);
    let g0 = b0.grid;
    let g = b.grid;
    let b1 = b.opened_at(j, i);
    let g1 = b1.grid;
    let n = (j, i);
    assert(g0[j].len() == g[j].len());
    lemma_flooding(b0, b, r, c, j, i);
    lemma_flooded_laid(b, j, i);
    lemma_grows_mines(g0, g);
    assert forall|y: (int, int)| inside(g, y.0, y.1) implies #[trigger] g1[y.0][y.1] == (if floods(
        g,
        n,
        y,
    ) {
        g[y.0][y.1] | 0x10
    } else {
        g[y.0][y.1]
    }) by {
        assert(y == (y.0, y.1));
    }
    assert forall|y: (int, int)| inside(g, y.0, y.1) && floods(g, n, y) implies !open_at(g, y) by {
        let path = choose|path: Seq<(int, int)>| #[trigger]
            chain(g, path) && path[0] == n && path.last() == y;
        assert(path[path.len() - 1] == y);
    }
    assert forall|y: (int, int)| inside(g, y.0, y.1) implies (open_at(g, y) ==> #[trigger] open_at(
        g1,
        y,
    )) && (open_at(g1, y) && !open_at(g, y) ==> floods(g, n, y)) by {
        lemma_cell_open(g[y.0][y.1], false);
    }
    assert(grows(g0, g1)) by {
        assert forall|y0: int, y1: int| inside(g0, y0, y1) implies #[trigger] g1[y0][y1]
            == g0[y0][y1] || (!cell_opened(g0[y0][y1]) && g1[y0][y1] == g0[y0][y1] | 0x10) by {
            let y = (y0, y1);
            assert(g0[y0].len() == g[y0].len());
            assert(inside(g, y.0, y.1));
            assert(g[y0][y1] == g0[y0][y1] || (!cell_opened(g0[y0][y1]) && g[y0][y1]
                == g0[y0][y1] | 0x10));
            if floods(g, n, y) {
                assert(!open_at(g, y));
                lemma_cell_open(g0[y0][y1], false);
            }
        }
    }
    assert(sound(g0, g1, r, c)) by {
        assert forall|y0: int, y1: int|
            inside(g0, y0, y1) && #[trigger] open_at(g1, (y0, y1)) && !open_at(
                g0,
                (y0, y1),
            ) implies floods(g0, (r, c), (y0, y1)) by {
            let y = (y0, y1);
            assert(g0[y0].len() == g[y0].len());
            assert(inside(g, y.0, y.1));
            if open_at(g, y) {
            } else {
                assert(floods(g, n, y));
                lemma_floods_from(g0, g, (r, c), n, y);
            }
        }
    }
    assert(settled(g0, g1, r, c)) by {
        assert forall|z: (int, int), y: (int, int)|
            inside(g0, z.0, z.1) && z != (r, c) && #[trigger] open_at(g1, z) && !open_at(g0, z)
                && cell_value(g0[z.0][z.1]) == 0 && inside(g0, y.0, y.1) && adjacent(
                z,
                y,
            ) implies #[trigger] open_at(g1, y) by {
            assert(g0[z.0].len() == g[z.0].len());
            assert(g0[y.0].len() == g[y.0].len());
            assert(inside(g, z.0, z.1) && inside(g, y.0, y.1));
            if open_at(g, y) {
                assert(open_at(g1, y));
            } else if open_at(g, z) {
                assert(open_at(g, y));
            } else {
                assert(floods(g, n, z));
                assert(cell_value(g[z.0][z.1]) == cell_value(g0[z.0][z.1]));
                lemma_floods_on(g, n, z, y);
                lemma_cell_open(g[y.0][y.1], false);
            }
        }
    }
    assert(open_at(g1, n)) by {
        lemma_floods_self(g, j, i);
        lemma_cell_open(g[j][i], false);
    }
    assert(g0[r].len() == g[r].len());
    assert(open_at(g1, (r, c)));
}

/// The end of a reveal: once the cell that the reveal began with has all its
/// neighbours open, unless there is a mine around it, exactly the cells that
/// the reveal floods were opened.
proof fn lemma_flood_done(b0: Board, b: Board, r: int, c: int)
    requires
        flooding(b0, b, r, c),
        cell_value(b0.grid[r][c]) == 0 ==> forall|y: (int, int)|
            inside(b0.grid, y.0, y.1) && adjacent((r, c), y) ==> #[trigger] open_at(b.grid, y),
    ensures
        b == b0.opened_at(r, c),
        b == b0.revealed_at(r, c),
        b.s == b0.s + count(b.grid, revealed()) - count(b0.grid, revealed()),
        b.opened_count() > b0.opened_count(),
        grows(b0.grid, b.grid),
{
    reveal(flooding);
    let g0 = b0.grid;
    let g = b.grid;
    let p = (r, c);
    lemma_grows_mines(g0, g);
    assert forall|x: (int, int)| inside(g0, x.0, x.1) && floods(g0, p, x) implies open_at(g, x) by {
        let path = choose|path: Seq<(int, int)>| #[trigger]
            chain(g0, path) && path[0] == p && path.last() == x;
        lemma_chain_opened(b0, b, r, c, path, path.len() - 1);
        assert(path[path.len() - 1] == x);
    }
    let f = flooded(g0, r, c);
    assert forall|j: int, i: int| inside(g0, j, i) implies g[j][i] == f[j][i] by {
        let x = (j, i);
        assert(g[j][i] == g0[j][i] || (!cell_opened(g0[j][i]) && g[j][i] == g0[j][i] | 0x10));
        lemma_cell_open(g0[j][i], false);
        if floods(g0, p, x) {
            assert(open_at(g, x));
            let path = choose|path: Seq<(int, int)>| #[trigger]
                chain(g0, path) && path[0] == p && path.last() == x;
            assert(path[path.len() - 1] == x);
            assert(!open_at(g0, x));
        } else {
            if open_at(g, (j, i)) && !open_at(g0, (j, i)) {
                assert(floods(g0, (r, c), (j, i)));
            }
        }
    }
    assert forall|j: int| 0 <= j < g0.len() implies g[j] =~= f[j] by {
        assert(g0[j].len() == g[j].len());
        assert forall|i: int| 0 <= i < g0[j].len() implies g[j][i] == f[j][i] by {
            assert(inside(g0, j, i));
        }
    }
    assert(g =~= f);
}

/// Along a walk of the flood every cell is open in the end.
proof fn lemma_chain_opened(b0: Board, b: Board, r: int, c: int, path: Seq<(int, int)>, t: int)
    requires
        flooding(b0, b, r, c),
        cell_value(b0.grid[r][c]) == 0 ==> forall|y: (int, int)|
            inside(b0.grid, y.0, y.1) && adjacent((r, c), y) ==> #[trigger] open_at(b.grid, y),
        chain(b0.grid, path),
        path[0] == (r, c),
        0 <= t < path.len(),
    ensures
        open_at(b.grid, path[t]),
    decreases t,
{
    reveal(flooding);
    if t > 0 {
        lemma_chain_opened(b0, b, r, c, path, t - 1);
        let z = path[t - 1];
        let y = path[t];
        assert(inside(b0.grid, z.0, z.1) && !open_at(b0.grid, z));
        assert(inside(b0.grid, y.0, y.1));
        assert(cell_value(b0.grid[z.0][z.1]) == 0 && adjacent(z, y));
        if z == (r, c) {
            assert(open_at(b.grid, y));
        } else {
            assert(open_at(b.grid, z));
            assert(open_at(b.grid, y));
        }
    }
}

impl MineField {
    /// Reveals the cell in row `r`, column `c`, and says whether it held no
    /// mine. A mine is left closed. A closed cell without a mine is opened,
    /// and if there is no mine around it so are its neighbours, and theirs in
    /// their turn: all the cells that the reveal floods. The status word
    /// counts every cell that was opened.
    pub fn open(&mut self, r: u16, c: u16) -> (ok: bool)
        requires
            old(self)@.laid(),
            r < old(self).h,
            c < old(self).w,
        ensures
            ok == !cell_mine(old(self)@.grid[r as int][c as int]),
            final(self)@ == old(self)@.revealed_at(r as int, c as int),
            final(self)@.laid(),
            final(self).s == old(self).s + count(final(self)@.grid, revealed()) - count(
                old(self)@.grid,
                revealed(),
            ),
            final(self)@.opened_count() >= old(self)@.opened_count(),
            !cell_mine(old(self)@.grid[r as int][c as int]) ==> open_at(
                final(self)@.grid,
                (r as int, c as int),
            ),
            !cell_mine(old(self)@.grid[r as int][c as int]) && !cell_opened(
                old(self)@.grid[r as int][c as int],
            ) ==> final(self)@.opened_count() > old(self)@.opened_count(),
            grows(old(self)@.grid, final(self)@.grid),
        decreases old(self)@.cells() - old(self).m - old(self)@.opened_count(),
    {
        let ghost b0 = self@;
        proof {
            lemma_grid_of(self.f);
            lemma_placed_shape(b0.grid, b0.w, b0.h, b0.m, b0.s);
            assert(self@.grid[r as int].len() == self.w);
        }
        let u = self.f[r as usize][c as usize];
        let v = Self::get_v(u);
        proof {
            assert(grows(b0.grid, b0.grid));
        }
        if Self::is_mine(v) {
            return false;
        }
        if Self::is_o(u) {
            return true;
        }
        proof {
            lemma_flood_start(b0, r as int, c as int);
            lemma_cell_open(u, false);
        }
        Self::set_o(&mut self.f[r as usize][c as usize], false);
        self.s += 1;
        assert(self@.grid =~~= marked(b0, r as int, c as int).grid);
        assert(self@ == marked(b0, r as int, c as int));
        if v == 0 {
            let rs = if r > 0 {
                r - 1
            } else {
                r
            };
            let re = if r < self.h - 1 {
                r + 1
            } else {
                r
            };
            let cs = if c > 0 {
                c - 1
            } else {
                c
            };
            let ce = if c < self.w - 1 {
                c + 1
            } else {
                c
            };
            let mut j = rs;
            while j <= re
                invariant
                    b0 == old(self)@,
                    flooding(b0, self@, r as int, c as int),
                    cell_value(b0.grid[r as int][c as int]) == 0,
                    rect(b0.grid, b0.w as int, b0.h as int),
                    r < b0.h,
                    c < b0.w,
                    rs == (if r > 0 {
                        r - 1
                    } else {
                        r as int
                    }),
                    re == (if r < b0.h - 1 {
                        r + 1
                    } else {
                        r as int
                    }),
                    cs == (if c > 0 {
                        c - 1
                    } else {
                        c as int
                    }),
                    ce == (if c < b0.w - 1 {
                        c + 1
                    } else {
                        c as int
                    }),
                    rs <= j <= re + 1,
                    rect(self@.grid, b0.w as int, b0.h as int),
                    forall|y: (int, int)|
                        rs <= y.0 < j && cs <= y.1 <= ce ==> #[trigger] open_at(self@.grid, y),
                decreases re + 1 - j,
            {
                let mut i = cs;
                while i <= ce
                    invariant
                        b0 == old(self)@,
                        flooding(b0, self@, r as int, c as int),
                        cell_value(b0.grid[r as int][c as int]) == 0,
                        rect(b0.grid, b0.w as int, b0.h as int),
                        r < b0.h,
                        c < b0.w,
                        rs == (if r > 0 {
                            r - 1
                        } else {
                            r as int
                        }),
                        re == (if r < b0.h - 1 {
                            r + 1
                        } else {
                            r as int
                        }),
                        cs == (if c > 0 {
                            c - 1
                        } else {
                            c as int
                        }),
                        ce == (if c < b0.w - 1 {
                            c + 1
                        } else {
                            c as int
                        }),
                        rs <= j <= re,
                        cs <= i <= ce + 1,
                        rect(self@.grid, b0.w as int, b0.h as int),
                        forall|y: (int, int)|
                            (rs <= y.0 < j && cs <= y.1 <= ce) || (y.0 == j && cs <= y.1 < i)
                                ==> #[trigger] open_at(self@.grid, y),
                    decreases ce + 1 - i,
                {
                    let ghost b = self@;
                    proof {
                        assert(b0.grid[j as int].len() == b0.w);
                        lemma_flooding(b0, b, r as int, c as int, j as int, i as int);
                    }
                    if !(j == r && i == c) {
                        if !self.is_opened(j, i) {
                            self.open(j, i);
                            proof {
                                lemma_flood_step(b0, b, r as int, c as int, j as int, i as int);
                                lemma_flooding(b0, self@, r as int, c as int, j as int, i as int);
                                assert forall|y: (int, int)|
                                    (rs <= y.0 < j && cs <= y.1 <= ce) || (y.0 == j && cs <= y.1
                                        < i + 1) implies #[trigger] open_at(self@.grid, y) by {
                                    assert(b.grid[y.0].len() == b0.w);
                                    if y != (j as int, i as int) {
                                        assert(open_at(b.grid, y));
                                    }
                                }
                            }
                        }
                    }
                    i += 1;
                }
                j += 1;
            }
        }
        proof {
            lemma_flooding(b0, self@, r as int, c as int, r as int, c as int);
            if v == 0 {
                assert forall|y: (int, int)|
                    inside(b0.grid, y.0, y.1) && adjacent(
                        (r as int, c as int),
                        y,
                    ) implies #[trigger] open_at(self@.grid, y) by {}
            }
            lemma_flood_done(b0, self@, r as int, c as int);
        }
        true
    }
}

} // verus!
