//! Mine placement: the order in which cells get their mines, the grid that
//! results, and the count of mines around a cell.

use vstd::prelude::*;
use vstd::seq_lib::{to_multiset_contains, to_multiset_len};
use vstd::arithmetic::div_mod::{lemma_fundamental_div_mod, lemma_mod_bound};
use crate::board::{mined, placed, revealed, Board, MineField};
use crate::cell::{cell_mine, cell_revealed, lemma_cell_value};
use crate::grid::{
    count, grid_of, lemma_cell_index, lemma_count_none, lemma_count_same, lemma_count_update,
    lemma_grid_of, lemma_same_mines_around, mine_at, mines_around, one_if, rect, same_mines,
    with_cell, Grid,
};

verus! {

/// The numbers of the first `n` cells, in their order.
pub open spec fn iota(n: int) -> Seq<u16> {
    Seq::new(n as nat, |i: int| i as u16)
}

/// The sequence is a rearrangement of the numbers of the first `n` cells.
pub open spec fn is_deal(p: Seq<u16>, n: int) -> bool {
    p.to_multiset() == iota(n).to_multiset()
}

/// The cells that get a mine: the first `m` of the order `p`, from which the
/// cell `skip` is left out unless every cell gets a mine.
pub open spec fn picks(p: Seq<u16>, skip: u16, full: bool, m: int) -> Seq<u16> {
    if full {
        p.take(m)
    } else {
        p.remove(p.index_of(skip)).take(m)
    }
}

/// The closed grid with a mine in each of the numbered cells and nothing in
/// the others. Cells are numbered row by row.
pub open spec fn mines_grid(w: int, h: int, picked: Seq<u16>) -> Grid {
    Seq::new(
        h as nat,
        |j: int|
            Seq::new(
                w as nat,
                |i: int|
                    if picked.contains((j * w + i) as u16) {
                        0x0fu8
                    } else {
                        0u8
                    },
            ),
    )
}

/// The grid in which every cell without a mine holds the number of mines
/// around it.
pub open spec fn counted(g: Grid) -> Grid {
    Seq::new(
        g.len(),
        |j: int|
            Seq::new(
                g[j].len(),
                |i: int|
                    if cell_mine(g[j][i]) {
                        g[j][i]
                    } else {
                        mines_around(g, j, i) as u8
                    },
            ),
    )
}

impl Board {
    /// The number of the cell under the cursor.
    pub open spec fn cursor_index(self) -> u16 {
        (self.r * self.w + self.c) as u16
    }

    /// Whether every cell gets a mine.
    pub open spec fn full(self) -> bool {
        self.m >= self.cells()
    }

    /// The board after its mines were placed in the order `p`.
    pub open spec fn started(self, p: Seq<u16>) -> Board {
        Board {
            grid: counted(
                mines_grid(
                    self.w as int,
                    self.h as int,
                    picks(p, self.cursor_index(), self.full(), self.m as int),
                ),
            ),
            ..self
        }
    }
}

/// A rearrangement of the first `n` numbers has `n` entries, all below `n`
/// and no two alike, and holds each of the numbers.
pub proof fn lemma_deal(p: Seq<u16>, n: int)
    requires
        is_deal(p, n),
        0 <= n <= 0x10000,
    ensures
        p.len() == n,
        p.no_duplicates(),
        forall|i: int| 0 <= i < n ==> #[trigger] p[i] < n,
        forall|k: u16| k < n ==> #[trigger] p.contains(k),
{
    let io = iota(n);
    to_multiset_len(p);
    to_multiset_len(io);
    assert(io.no_duplicates());
    io.lemma_multiset_has_no_duplicates();
    p.lemma_multiset_has_no_duplicates_conv();
    assert forall|i: int| 0 <= i < n implies #[trigger] p[i] < n by {
        assert(p.contains(p[i]));
        to_multiset_contains(p, p[i]);
        to_multiset_contains(io, p[i]);
        let j = choose|j: int| 0 <= j < io.len() && io[j] == p[i];
        assert(io[j] == j as u16);
    }
    assert forall|k: u16| k < n implies #[trigger] p.contains(k) by {
        assert(io[k as int] == k);
        assert(io.contains(k));
        to_multiset_contains(io, k);
        to_multiset_contains(p, k);
    }
}

/// The cells that get a mine are `m` different cells of the grid. The cell
/// that is left out is not among them, and where every cell gets a mine all
/// are.
pub proof fn lemma_picks(p: Seq<u16>, skip: u16, full: bool, m: int, n: int)
    requires
        is_deal(p, n),
        0 <= m <= n <= 0xffff,
        skip < n,
        full == (m >= n),
    ensures
        picks(p, skip, full, m).len() == m,
        picks(p, skip, full, m).no_duplicates(),
        forall|i: int| 0 <= i < m ==> #[trigger] picks(p, skip, full, m)[i] < n,
        !full ==> !picks(p, skip, full, m).contains(skip),
        full ==> forall|k: u16| k < n ==> #[trigger] picks(p, skip, full, m).contains(k),
{
    lemma_deal(p, n);
    let q = picks(p, skip, full, m);
    if full {
        assert(q =~= p);
    } else {
        assert(p.contains(skip));
        let k = p.index_of(skip);
        let rest = p.remove(k);
        assert(rest.len() == n - 1);
        assert forall|i: int| 0 <= i < rest.len() implies rest[i] == p[if i < k {
            i
        } else {
            i + 1
        }] by {}
        assert forall|i: int| 0 <= i < m implies #[trigger] q[i] < n && q[i] != skip by {
            let i0 = if i < k {
                i
            } else {
                i + 1
            };
            assert(q[i] == p[i0]);
            assert(p[i0] < n);
        }
        assert forall|i: int, j: int| 0 <= i < m && 0 <= j < m && i != j implies q[i] != q[j] by {
            let i0 = if i < k {
                i
            } else {
                i + 1
            };
            let j0 = if j < k {
                j
            } else {
                j + 1
            };
            assert(q[i] == p[i0] && q[j] == p[j0]);
        }
        if q.contains(skip) {
            let i = choose|i: int| 0 <= i < q.len() && q[i] == skip;
            assert(q[i] != skip);
        }
    }
}

/// One more numbered cell puts a mine into that cell of the grid.
pub proof fn lemma_mines_grid_push(w: int, h: int, q: Seq<u16>, x: u16)
    requires
        0 < w,
        0 < h,
        w * h <= 0xffff,
        x < w * h,
    ensures
        0 <= x as int / w < h,
        0 <= x as int % w < w,
        mines_grid(w, h, q.push(x)) == with_cell(
            mines_grid(w, h, q),
            x as int / w,
            x as int % w,
            0x0f,
        ),
{
    let r = x as int / w;
    let c = x as int % w;
    lemma_fundamental_div_mod(x as int, w);
    lemma_mod_bound(x as int, w);
    assert(0 <= r < h) by (nonlinear_arith)
        requires
            x == w * r + c,
            0 <= c < w,
            0 <= x < w * h,
            0 < w,
    ;
    let a = mines_grid(w, h, q.push(x));
    let b = with_cell(mines_grid(w, h, q), r, c, 0x0f);
    assert forall|j: int, i: int| 0 <= j < h && 0 <= i < w implies a[j][i] == b[j][i] by {
        lemma_cell_index(w, h, j, i);
        let k = (j * w + i) as u16;
        assert(w * r == r * w) by (nonlinear_arith);
        assert((k == x) == (j == r && i == c));
        if q.push(x).contains(k) {
            let t = choose|t: int| 0 <= t < q.push(x).len() && q.push(x)[t] == k;
            if t < q.len() {
                assert(q[t] == k);
                assert(q.contains(k));
            }
        }
        if q.contains(k) {
            let t = choose|t: int| 0 <= t < q.len() && q[t] == k;
            assert(q.push(x)[t] == k);
        }
        if k == x {
            assert(q.push(x)[q.len() as int] == k);
        }
    }
    assert(a =~~= b);
}

/// A grid with a mine in each of some different cells has as many mines as
/// cells were numbered.
pub proof fn lemma_mines_count(w: int, h: int, q: Seq<u16>)
    requires
        0 < w,
        0 < h,
        w * h <= 0xffff,
        q.no_duplicates(),
        forall|i: int| 0 <= i < q.len() ==> #[trigger] q[i] < w * h,
    ensures
        count(mines_grid(w, h, q), mined()) == q.len(),
    decreases q.len(),
{
    if q.len() == 0 {
        let g = mines_grid(w, h, q);
        assert forall|j: int, i: int|
            0 <= j < g.len() && 0 <= i < g[j].len() implies !mined()(#[trigger] g[j][i]) by {
            assert(!q.contains((j * w + i) as u16));
            lemma_cell_value(0);
        }
        lemma_count_none(g, mined());
    } else {
        let rest = q.drop_last();
        let x = q.last();
        assert(q =~= rest.push(x));
        assert(x == q[q.len() - 1]);
        assert forall|i: int| 0 <= i < rest.len() implies #[trigger] rest[i] < w * h by {
            assert(rest[i] == q[i]);
        }
        lemma_mines_count(w, h, rest);
        lemma_mines_grid_push(w, h, rest, x);
        let g = mines_grid(w, h, rest);
        let r = x as int / w;
        let c = x as int % w;
        lemma_fundamental_div_mod(x as int, w);
        assert(w * r == r * w) by (nonlinear_arith);
        if rest.contains(x) {
            let t = choose|t: int| 0 <= t < rest.len() && rest[t] == x;
            assert(q[t] == q[q.len() - 1]);
        }
        assert(g[r][c] == 0u8);
        lemma_cell_value(0);
        lemma_cell_value(0x0f);
        lemma_count_update(g, r, c, 0x0f, mined());
    }
}

/// Counting the mines around the cells leaves the mines where they are.
pub proof fn lemma_counted_mines(g: Grid)
    ensures
        same_mines(g, counted(g)),
{
    let d = counted(g);
    assert forall|j: int, i: int| 0 <= j < g.len() && 0 <= i < g[j].len() implies cell_mine(
        #[trigger] g[j][i],
    ) == cell_mine(d[j][i]) by {
        if !cell_mine(g[j][i]) {
            lemma_cell_value(mines_around(g, j, i) as u8);
        }
    }
}

/// In a closed grid that holds nothing but mines, counting the mines around
/// the cells gives a grid with the same mines, in which no cell is open and
/// every cell without a mine holds the number of mines around it.
pub proof fn lemma_counted(g: Grid, w: int, h: int)
    requires
        rect(g, w, h),
        forall|j: int, i: int|
            0 <= j < h && 0 <= i < w ==> #[trigger] g[j][i] == 0u8 || g[j][i] == 0x0fu8,
    ensures
        rect(counted(g), w, h),
        count(counted(g), mined()) == count(g, mined()),
        count(counted(g), revealed()) == 0,
        forall|j: int, i: int|
            0 <= j < h && 0 <= i < w ==> {
                let u = #[trigger] counted(g)[j][i];
                &&& u < 16
                &&& cell_mine(u) == cell_mine(g[j][i])
                &&& !cell_mine(u) ==> u == mines_around(counted(g), j, i)
            },
{
    let d = counted(g);
    lemma_counted_mines(g);
    lemma_count_same(g, d, mined(), mined());
    assert forall|j: int, i: int| 0 <= j < h && 0 <= i < w implies {
        let u = #[trigger] d[j][i];
        &&& u < 16
        &&& cell_mine(u) == cell_mine(g[j][i])
        &&& !cell_mine(u) ==> u == mines_around(d, j, i)
        &&& !revealed()(u)
    } by {
        lemma_same_mines_around(g, d, j, i);
        lemma_cell_value(g[j][i]);
        lemma_cell_value(d[j][i]);
        assert(g[j][i] == 0u8 || g[j][i] == 0x0fu8);
    }
    assert forall|j: int, i: int|
        0 <= j < d.len() && 0 <= i < d[j].len() implies !revealed()(#[trigger] d[j][i]) by {
        assert(g[j].len() == w);
    }
    lemma_count_none(d, revealed());
}

/// A valid fresh board with its mines placed in some order of its cells has
/// as many mines as it was made for, holds in every other cell the number of
/// mines around it, and has no cell open. Its cursor is not on a mine, unless
/// every cell has one.
pub proof fn lemma_started_laid(b: Board, p: Seq<u16>)
    requires
        b.shaped(),
        b.fresh(),
        b.r < b.h,
        b.c < b.w,
        is_deal(p, b.cells()),
    ensures
        b.started(p).laid(),
        b.started(p).s == 0,
        count(b.started(p).grid, mined()) == b.m,
        !b.full() ==> !cell_mine(b.started(p).grid[b.r as int][b.c as int]),
        b.full() ==> forall|j: int, i: int|
            0 <= j < b.h && 0 <= i < b.w ==> cell_mine(#[trigger] b.started(p).grid[j][i]),
        forall|j: int, i: int|
            0 <= j < b.h && 0 <= i < b.w && !cell_mine(#[trigger] b.started(p).grid[j][i])
                ==> b.started(p).grid[j][i] == mines_around(b.started(p).grid, j, i),
{
    reveal(placed);
    let w = b.w as int;
    let h = b.h as int;
    let skip = b.cursor_index();
    lemma_cell_index(w, h, b.r as int, b.c as int);
    let q = picks(p, skip, b.full(), b.m as int);
    lemma_picks(p, skip, b.full(), b.m as int, w * h);
    let g = mines_grid(w, h, q);
    let d = counted(g);
    assert(b.started(p).grid == d);
    lemma_mines_count(w, h, q);
    lemma_counted(g, w, h);
    assert(0u16 & 0x3fff == 0) by (bit_vector);
    assert forall|j: int, i: int| 0 <= j < h && 0 <= i < w implies {
        let u = #[trigger] d[j][i];
        &&& !cell_mine(u) ==> crate::cell::cell_value(u) == mines_around(d, j, i)
        &&& crate::cell::cell_forced(u) ==> crate::cell::cell_opened(u)
        &&& cell_revealed(u) ==> !cell_mine(u)
    } by {
        lemma_cell_value(d[j][i]);
    }
    if b.full() {
        assert forall|j: int, i: int| 0 <= j < h && 0 <= i < w implies cell_mine(
            #[trigger] d[j][i],
        ) by {
            lemma_cell_index(w, h, j, i);
            assert(q.contains((j * w + i) as u16));
            lemma_cell_value(0x0f);
        }
    } else {
        lemma_cell_value(0);
        assert(g[b.r as int][b.c as int] == 0u8);
    }
}

/// What one position adds to the mines around the cell in row `r`, column
/// `c`: nothing for the cell itself.
spec fn scan_cell(g: Grid, r: int, c: int, j: int, i: int) -> int {
    if j == r && i == c {
        0
    } else {
        one_if(mine_at(g, j, i))
    }
}

/// The mines around the cell that lie in row `j`, in the columns before `i`.
spec fn scan_row(g: Grid, r: int, c: int, j: int, i: int) -> int {
    (if i > c - 1 {
        scan_cell(g, r, c, j, c - 1)
    } else {
        0
    }) + (if i > c {
        scan_cell(g, r, c, j, c)
    } else {
        0
    }) + (if i > c + 1 {
        scan_cell(g, r, c, j, c + 1)
    } else {
        0
    })
}

/// The mines around the cell that lie in the rows before `j`.
spec fn scan_rows(g: Grid, r: int, c: int, j: int) -> int {
    (if j > r - 1 {
        scan_row(g, r, c, r - 1, c + 2)
    } else {
        0
    }) + (if j > r {
        scan_row(g, r, c, r, c + 2)
    } else {
        0
    }) + (if j > r + 1 {
        scan_row(g, r, c, r + 1, c + 2)
    } else {
        0
    })
}

/// `SliceRandom::shuffle` with the generator of `rand::thread_rng`:
/// rearranges the entries in place, by swaps at random places. Which
/// rearrangement comes out is left open.
#[verifier::external_body]
fn shuffle(p: &mut Vec<u16>)
    ensures
        final(p)@.to_multiset() == old(p)@.to_multiset(),
{
    rand::seq::SliceRandom::shuffle(p.as_mut_slice(), &mut rand::thread_rng());
}

impl MineField {
    /// The number of mines among the up to eight neighbours of the cell in
    /// row `r`, column `c` of a grid of `h` rows of `w` cells.
    pub fn get_k(w: u16, h: u16, f: &Vec<Vec<u8>>, r: u16, c: u16) -> (n: u8)
        requires
            rect(grid_of(*f), w as int, h as int),
            r < h,
            c < w,
        ensures
            n == mines_around(grid_of(*f), r as int, c as int),
            n <= 8,
    {
        let ghost g = grid_of(*f);
        let mut n = 0u8;
        let rs = if r > 0 {
            r - 1
        } else {
            r
        };
        let re = if r < h - 1 {
            r + 1
        } else {
            r
        };
        let cs = if c > 0 {
            c - 1
        } else {
            c
        };
        let ce = if c < w - 1 {
            c + 1
        } else {
            c
        };
        let mut j = rs;
        while j <= re
            invariant
                g == grid_of(*f),
                rect(g, w as int, h as int),
                r < h,
                c < w,
                rs == (if r > 0 {
                    r - 1
                } else {
                    r as int
                }),
                re == (if r < h - 1 {
                    r + 1
                } else {
                    r as int
                }),
                cs == (if c > 0 {
                    c - 1
                } else {
                    c as int
                }),
                ce == (if c < w - 1 {
                    c + 1
                } else {
                    c as int
                }),
                rs <= j <= re + 1,
                n == scan_rows(g, r as int, c as int, j as int),
                n <= 3 * (j - rs),
            decreases re + 1 - j,
        {
            let mut i = cs;
            while i <= ce
                invariant
                    g == grid_of(*f),
                    rect(g, w as int, h as int),
                    r < h,
                    c < w,
                    rs <= j <= re,
                    re < h,
                    cs == (if c > 0 {
                        c - 1
                    } else {
                        c as int
                    }),
                    ce == (if c < w - 1 {
                        c + 1
                    } else {
                        c as int
                    }),
                    cs <= i <= ce + 1,
                    n == scan_rows(g, r as int, c as int, j as int) + scan_row(
                        g,
                        r as int,
                        c as int,
                        j as int,
                        i as int,
                    ),
                    n <= 3 * (j - rs) + (i - cs),
                decreases ce + 1 - i,
            {
                if !(j == r && i == c) {
                    assert(g[j as int].len() == w);
                    assert(g[j as int] == f[j as int]@);
                    if Self::is_mine(Self::get_v(f[j as usize][i as usize])) {
                        n += 1;
                    }
                }
                i += 1;
            }
            j += 1;
        }
        n
    }

    /// The numbers of the `n` cells of a grid in an order drawn at random.
    pub fn deal(n: u16) -> (p: Vec<u16>)
        ensures
            is_deal(p@, n as int),
    {
        let mut p: Vec<u16> = Vec::new();
        let mut i: u16 = 0;
        while i < n
            invariant
                i <= n,
                p@ == iota(i as int),
            decreases n - i,
        {
            p.push(i);
            assert(p@ =~= iota(i + 1));
            i += 1;
        }
        shuffle(&mut p);
        p
    }

    /// Places the mines in the order `p` of the cells: the first `m` cells
    /// of the order get a mine, the cell under the cursor being passed over
    /// unless every cell gets a mine. Every other cell then holds the number
    /// of mines around it.
    pub fn start_with(&mut self, p: &Vec<u16>)
        requires
            old(self)@.shaped(),
            old(self)@.fresh(),
            old(self).r < old(self).h,
            old(self).c < old(self).w,
            is_deal(p@, old(self)@.cells()),
        ensures
            final(self)@ == old(self)@.started(p@),
            final(self)@.laid(),
            count(final(self)@.grid, mined()) == old(self).m,
            !old(self)@.full() ==> !cell_mine(
                final(self)@.grid[old(self).r as int][old(self).c as int],
            ),
            old(self)@.full() ==> forall|j: int, i: int|
                0 <= j < old(self).h && 0 <= i < old(self).w ==> cell_mine(
                    #[trigger] final(self)@.grid[j][i],
                ),
            forall|j: int, i: int|
                0 <= j < old(self).h && 0 <= i < old(self).w && !cell_mine(
                    #[trigger] final(self)@.grid[j][i],
                ) ==> final(self)@.grid[j][i] == mines_around(final(self)@.grid, j, i),
    {
        let ghost b0 = self@;
        let ghost w = self.w as int;
        let ghost h = self.h as int;
        let ghost skip = b0.cursor_index();
        let ghost k = p@.index_of(skip);
        let e = self.m >= self.w * self.h;
        proof {
            lemma_deal(p@, w * h);
            lemma_cell_index(w, h, self.r as int, self.c as int);
            assert(p@.contains(skip));
            assert(self@.grid =~~= mines_grid(w, h, Seq::<u16>::empty()));
        }
        let ghost mut q: Seq<u16> = Seq::empty();
        let mut n: u16 = 0;
        let mut i: usize = 0;
        while i <= self.m as usize && n < self.m && i < p.len()
            invariant
                self@ == (Board { grid: self@.grid, ..b0 }),
                b0.shaped(),
                b0.r < b0.h,
                b0.c < b0.w,
                w == b0.w,
                h == b0.h,
                skip == b0.cursor_index(),
                e == b0.full(),
                p@.len() == w * h,
                p@.no_duplicates(),
                forall|t: int| 0 <= t < w * h ==> #[trigger] p@[t] < w * h,
                0 <= k < p@.len(),
                p@[k] == skip,
                i <= p@.len(),
                n <= self.m,
                e ==> n == i,
                !e ==> n == (if i <= k {
                    i as int
                } else {
                    i - 1
                }),
                q == (if e {
                    p@.take(n as int)
                } else {
                    p@.remove(k).take(n as int)
                }),
                self@.grid == mines_grid(w, h, q),
            decreases p@.len() - i,
        {
            let x = p[i];
            let r = x / self.w;
            let c = x % self.w;
            proof {
                assert(p@[i as int] < w * h);
                lemma_mines_grid_push(w, h, q, x);
                lemma_fundamental_div_mod(x as int, w);
                assert(w * (x as int / w) == (x as int / w) * w) by (nonlinear_arith);
                lemma_cell_index(w, h, self.r as int, self.c as int);
                lemma_cell_index(w, h, r as int, c as int);
                assert((x == skip) == (r == self.r && c == self.c));
                assert((x == skip) == (i == k));
                lemma_grid_of(self.f);
            }
            if e || r != self.r || c != self.c {
                self.f[r as usize][c as usize] = 0x0f;
                n += 1;
                proof {
                    let ghost q1 = q.push(x);
                    assert(self@.grid =~~= with_cell(mines_grid(w, h, q), r as int, c as int, 0x0f));
                    if e {
                        assert(q1 =~= p@.take(n as int));
                    } else {
                        assert(q1 =~= p@.remove(k).take(n as int));
                    }
                    q = q1;
                }
            }
            i += 1;
        }
        proof {
            assert(n == self.m);
            assert(q == picks(p@, skip, e, self.m as int));
        }
        let ghost g1 = self@.grid;
        let mut r: u16 = 0;
        while r < self.h
            invariant
                self@ == (Board { grid: self@.grid, ..b0 }),
                b0.shaped(),
                w == b0.w,
                h == b0.h,
                r <= self.h,
                rect(g1, w, h),
                rect(self@.grid, w, h),
                forall|j: int, i: int|
                    0 <= j < h && 0 <= i < w ==> #[trigger] self@.grid[j][i] == (if j < r {
                        counted(g1)[j][i]
                    } else {
                        g1[j][i]
                    }),
            decreases self.h - r,
        {
            let mut c: u16 = 0;
            while c < self.w
                invariant
                    self@ == (Board { grid: self@.grid, ..b0 }),
                    b0.shaped(),
                    w == b0.w,
                    h == b0.h,
                    r < self.h,
                    c <= self.w,
                    rect(g1, w, h),
                    rect(self@.grid, w, h),
                    forall|j: int, i: int|
                        0 <= j < h && 0 <= i < w ==> #[trigger] self@.grid[j][i] == (if j < r || (j
                            == r && i < c) {
                            counted(g1)[j][i]
                        } else {
                            g1[j][i]
                        }),
                decreases self.w - c,
            {
                proof {
                    lemma_counted_mines(g1);
                    assert(same_mines(self@.grid, g1)) by {
                        assert forall|j: int, i: int|
                            0 <= j < h && 0 <= i < w implies cell_mine(
                            #[trigger] self@.grid[j][i],
                        ) == cell_mine(g1[j][i]) by {
                            assert(cell_mine(g1[j][i]) == cell_mine(counted(g1)[j][i]));
                        }
                    }
                    lemma_same_mines_around(self@.grid, g1, r as int, c as int);
                    assert(self@.grid[r as int].len() == w);
                    assert(self@.grid[r as int][c as int] == g1[r as int][c as int]);
                }
                let ghost before = self@.grid;
                if !Self::is_mine(Self::get_v(self.f[r as usize][c as usize])) {
                    let v = Self::get_k(self.w, self.h, &self.f, r, c);
                    self.f[r as usize][c as usize] = v;
                    assert(self@.grid =~~= with_cell(before, r as int, c as int, v));
                }
                c += 1;
            }
            r += 1;
        }
        proof {
            assert(self@.grid =~~= counted(g1));
            lemma_started_laid(b0, p@);
        }
    }

    /// Places the mines in an order of the cells drawn at random, as
    /// [`MineField::start_with`] does in a given order.
    pub fn start(&mut self)
        requires
            old(self)@.shaped(),
            old(self)@.fresh(),
            old(self).r < old(self).h,
            old(self).c < old(self).w,
        ensures
            exists|p: Seq<u16>|
                is_deal(p, old(self)@.cells()) && final(self)@ == #[trigger] old(self)@.started(p),
            final(self)@.laid(),
            count(final(self)@.grid, mined()) == old(self).m,
            !old(self)@.full() ==> !cell_mine(
                final(self)@.grid[old(self).r as int][old(self).c as int],
            ),
            old(self)@.full() ==> forall|j: int, i: int|
                0 <= j < old(self).h && 0 <= i < old(self).w ==> cell_mine(
                    #[trigger] final(self)@.grid[j][i],
                ),
            forall|j: int, i: int|
                0 <= j < old(self).h && 0 <= i < old(self).w && !cell_mine(
                    #[trigger] final(self)@.grid[j][i],
                ) ==> final(self)@.grid[j][i] == mines_around(final(self)@.grid, j, i),
    {
        let p = Self::deal(self.w * self.h);
        self.start_with(&p);
    }
}

} // verus!
