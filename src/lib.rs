//! Solving and generating KenKen puzzles.
use vstd::prelude::*;
use crate::solver::{lemma_index_split, lemma_index_unsplit};

pub mod cell;
pub mod sequence_gen;
pub mod solver;
pub mod solution_check;
pub mod search;
pub mod correctness;
pub mod text;
pub mod generator;

pub use solver::{Cage, MathOp};

verus! {

/// Represents square grid in KenKen as `Vec<u8>` of size `u8`*`u8`
#[derive(Clone, Debug)]
pub struct Grid(pub Vec<u8>, pub u8);

/// The value in row `r`, column `c` of a row-major board of side `n`.
pub open spec fn at(g: Seq<u8>, n: nat, r: int, c: int) -> u8 {
    g[r * n + c]
}

/// The grid has the right length for its side.
pub open spec fn grid_shaped(g: Grid) -> bool {
    g.0@.len() == g.1 * g.1
}

/// `a` and `b` trade places; every other index stays.
pub open spec fn swap_index(r: int, a: int, b: int) -> int {
    if r == a {
        b
    } else if r == b {
        a
    } else {
        r
    }
}

/// Row `r`, column `c` of a board of side `n` is one index of the flat board, and no other
/// pair gives it.
proof fn lemma_cell_index(n: nat, r: int, c: int, r2: int, c2: int)
    requires
        0 <= r < n,
        0 <= c < n,
        0 <= r2 < n,
        0 <= c2 < n,
    ensures
        0 <= r * n + c < n * n,
        r * n + c == r2 * n + c2 ==> r == r2 && c == c2,
{
    assert(0 <= r * n + c < n * n) by (nonlinear_arith)
        requires
            0 <= r < n,
            0 <= c < n,
    ;
    if r * n + c == r2 * n + c2 {
        lemma_index_split(r * n + c, n as int, r, c);
        lemma_index_split(r2 * n + c2, n as int, r2, c2);
    }
}

/// Relies on rand's `thread_rng` and `Uniform::new(0, n)`, which draws from `0..n` and
/// panics when `n` is 0.
#[verifier::external_body]
fn random_below(n: u8) -> (r: u8)
    requires
        n > 0,
    ensures
        r < n,
{
    rand::Rng::sample(&mut rand::thread_rng(), rand::distributions::Uniform::new(0, n))
}

impl Grid {
    /// Generates new valid grid KenKen grid: row `i`, column `j` holds `(i + j) % size + 1`.
    pub fn new(size: u8) -> (r: Self)
        ensures
            r.1 == size,
            grid_shaped(r),
            forall|i: int, j: int|
                0 <= i < size && 0 <= j < size ==> #[trigger] at(r.0@, size as nat, i, j) == ((i
                    + j) % (size as int) + 1) as u8,
            is_latin(r),
    {
        let n = size as usize;
        let mut grid: Vec<u8> = Vec::new();
        let mut i: usize = 0;
        while i < n
            invariant
                i <= n,
                n == size,
                grid@.len() == i * n,
                forall|a: int, b: int|
                    0 <= a < i && 0 <= b < n ==> #[trigger] at(grid@, n as nat, a, b) == ((a + b)
                        % (n as int) + 1) as u8,
            decreases n - i,
        {
            let mut j: usize = 0;
            while j < n
                invariant
                    i < n,
                    j <= n,
                    n == size,
                    grid@.len() == i * n + j,
                    forall|a: int, b: int|
                        0 <= a < i && 0 <= b < n ==> #[trigger] at(grid@, n as nat, a, b) == ((a
                            + b) % (n as int) + 1) as u8,
                    forall|b: int|
                        0 <= b < j ==> #[trigger] at(grid@, n as nat, i as int, b) == ((i + b) % (
                        n as int) + 1) as u8,
                decreases n - j,
            {
                let value = ((i + j) % n + 1) as u8;
                let ghost before = grid@;
                grid.push(value);
                proof {
                    assert forall|a: int, b: int|
                        0 <= a < i && 0 <= b < n implies #[trigger] at(grid@, n as nat, a, b) == ((a
                            + b) % (n as int) + 1) as u8 by {
                        lemma_cell_index(n as nat, a, b, 0, 0);
                        assert(a * n + b < i * n) by (nonlinear_arith)
                            requires
                                a < i,
                                b < n,
                        ;
                        assert(at(before, n as nat, a, b) == ((a + b) % (n as int) + 1) as u8);
                    }
                    assert forall|b: int|
                        0 <= b < j + 1 implies #[trigger] at(grid@, n as nat, i as int, b) == ((i
                            + b) % (n as int) + 1) as u8 by {
                        if b < j {
                            assert(at(before, n as nat, i as int, b) == ((i + b) % (n as int)
                                + 1) as u8);
                        }
                    }
                }
                j += 1;
            }
            i += 1;
            assert(grid@.len() == i * n) by (nonlinear_arith)
                requires
                    grid@.len() == (i - 1) * n + n,
            ;
        }
        let r = Self(grid, size);
        proof {
            lemma_new_grid_latin(r);
        }
        r
    }

    /// Swaps rows `row1` and `row2`.
    pub fn swap_row(&mut self, row1: u8, row2: u8)
        requires
            grid_shaped(*old(self)),
            row1 < old(self).1,
            row2 < old(self).1,
        ensures
            final(self).1 == old(self).1,
            grid_shaped(*final(self)),
            forall|r: int, c: int|
                0 <= r < old(self).1 && 0 <= c < old(self).1 ==> #[trigger] at(
                    final(self).0@,
                    old(self).1 as nat,
                    r,
                    c,
                ) == at(old(self).0@, old(self).1 as nat, swap_index(r, row1 as int, row2 as int), c),
    {
        let ghost g0 = self.0@;
        let size = self.1 as usize;
        proof {
            lemma_cell_index(size as nat, row1 as int, 0, 0, 0);
            lemma_cell_index(size as nat, row2 as int, 0, 0, 0);
            assert(size * size <= 255 * 255) by (nonlinear_arith)
                requires
                    size <= 255,
            ;
        }
        let start1 = row1 as usize * size;
        let start2 = row2 as usize * size;
        let mut i: usize = 0;
        while i < size
            invariant
                i <= size,
                size == self.1,
                row1 < size,
                row2 < size,
                start1 == row1 * size,
                start2 == row2 * size,
                size * size <= 255 * 255,
                self.0@.len() == size * size,
                g0.len() == size * size,
                forall|r: int, c: int|
                    0 <= r < size && 0 <= c < size ==> #[trigger] at(self.0@, size as nat, r, c)
                        == if c < i {
                        at(g0, size as nat, swap_index(r, row1 as int, row2 as int), c)
                    } else {
                        at(g0, size as nat, r, c)
                    },
            decreases size - i,
        {
            proof {
                lemma_cell_index(size as nat, row1 as int, i as int, 0, 0);
                lemma_cell_index(size as nat, row2 as int, i as int, 0, 0);
            }
            let ghost before = self.0@;
            let a = self.0[start1 + i];
            let b = self.0[start2 + i];
            self.0.set(start1 + i, b);
            self.0.set(start2 + i, a);
            proof {
                assert forall|r: int, c: int|
                    0 <= r < size && 0 <= c < size implies #[trigger] at(self.0@, size as nat, r, c)
                        == if c < i + 1 {
                        at(g0, size as nat, swap_index(r, row1 as int, row2 as int), c)
                    } else {
                        at(g0, size as nat, r, c)
                    } by {
                    lemma_cell_index(size as nat, r, c, row1 as int, i as int);
                    lemma_cell_index(size as nat, r, c, row2 as int, i as int);
                    assert(at(before, size as nat, r, c) == if c < i {
                        at(g0, size as nat, swap_index(r, row1 as int, row2 as int), c)
                    } else {
                        at(g0, size as nat, r, c)
                    });
                    assert(at(before, size as nat, row1 as int, i as int) == at(
                        g0,
                        size as nat,
                        row1 as int,
                        i as int,
                    ));
                    assert(at(before, size as nat, row2 as int, i as int) == at(
                        g0,
                        size as nat,
                        row2 as int,
                        i as int,
                    ));
                }
            }
            i += 1;
        }
    }

    /// Swaps columns `col1` and `col2`.
    pub fn swap_col(&mut self, col1: u8, col2: u8)
        requires
            grid_shaped(*old(self)),
            col1 < old(self).1,
            col2 < old(self).1,
        ensures
            final(self).1 == old(self).1,
            grid_shaped(*final(self)),
            forall|r: int, c: int|
                0 <= r < old(self).1 && 0 <= c < old(self).1 ==> #[trigger] at(
                    final(self).0@,
                    old(self).1 as nat,
                    r,
                    c,
                ) == at(old(self).0@, old(self).1 as nat, r, swap_index(c, col1 as int, col2 as int)),
    {
        let ghost g0 = self.0@;
        let size = self.1 as usize;
        let col1 = col1 as usize;
        let col2 = col2 as usize;
        proof {
            assert(size * size <= 255 * 255) by (nonlinear_arith)
                requires
                    size <= 255,
            ;
        }
        let mut row: usize = 0;
        while row < size
            invariant
                row <= size,
                size == self.1,
                col1 < size,
                col2 < size,
                size * size <= 255 * 255,
                self.0@.len() == size * size,
                g0.len() == size * size,
                forall|r: int, c: int|
                    0 <= r < size && 0 <= c < size ==> #[trigger] at(self.0@, size as nat, r, c)
                        == if r < row {
                        at(g0, size as nat, r, swap_index(c, col1 as int, col2 as int))
                    } else {
                        at(g0, size as nat, r, c)
                    },
            decreases size - row,
        {
            proof {
                lemma_cell_index(size as nat, row as int, col1 as int, 0, 0);
                lemma_cell_index(size as nat, row as int, col2 as int, 0, 0);
            }
            let index1 = row * size + col1;
            let index2 = row * size + col2;
            let ghost before = self.0@;
            let a = self.0[index1];
            let b = self.0[index2];
            self.0.set(index1, b);
            self.0.set(index2, a);
            proof {
                assert forall|r: int, c: int|
                    0 <= r < size && 0 <= c < size implies #[trigger] at(self.0@, size as nat, r, c)
                        == if r < row + 1 {
                        at(g0, size as nat, r, swap_index(c, col1 as int, col2 as int))
                    } else {
                        at(g0, size as nat, r, c)
                    } by {
                    lemma_cell_index(size as nat, r, c, row as int, col1 as int);
                    lemma_cell_index(size as nat, r, c, row as int, col2 as int);
                    assert(at(before, size as nat, r, c) == if r < row {
                        at(g0, size as nat, r, swap_index(c, col1 as int, col2 as int))
                    } else {
                        at(g0, size as nat, r, c)
                    });
                    assert(at(before, size as nat, row as int, col1 as int) == at(
                        g0,
                        size as nat,
                        row as int,
                        col1 as int,
                    ));
                    assert(at(before, size as nat, row as int, col2 as int) == at(
                        g0,
                        size as nat,
                        row as int,
                        col2 as int,
                    ));
                }
            }
            row += 1;
        }
    }

    /// Mirrors the grid on its main diagonal.
    pub fn transpose(&mut self)
        requires
            grid_shaped(*old(self)),
        ensures
            final(self).1 == old(self).1,
            grid_shaped(*final(self)),
            forall|r: int, c: int|
                0 <= r < old(self).1 && 0 <= c < old(self).1 ==> #[trigger] at(
                    final(self).0@,
                    old(self).1 as nat,
                    r,
                    c,
                ) == at(old(self).0@, old(self).1 as nat, c, r),
    {
        let ghost g0 = self.0@;
        let size = self.1 as usize;
        proof {
            assert(size * size <= 255 * 255) by (nonlinear_arith)
                requires
                    size <= 255,
            ;
        }
        let mut i: usize = 0;
        while i < size
            invariant
                i <= size,
                size == self.1,
                size * size <= 255 * 255,
                self.0@.len() == size * size,
                g0.len() == size * size,
                forall|r: int, c: int|
                    0 <= r < size && 0 <= c < size ==> #[trigger] at(self.0@, size as nat, r, c)
                        == if r < i || c < i {
                        at(g0, size as nat, c, r)
                    } else {
                        at(g0, size as nat, r, c)
                    },
            decreases size - i,
        {
            let mut j: usize = i + 1;
            while j < size
                invariant
                    i < size,
                    i < j <= size,
                    size == self.1,
                    size * size <= 255 * 255,
                    self.0@.len() == size * size,
                    g0.len() == size * size,
                    forall|r: int, c: int|
                        0 <= r < size && 0 <= c < size ==> #[trigger] at(self.0@, size as nat, r, c)
                            == if r < i || c < i || (r == i && i < c < j) || (c == i && i < r < j) {
                            at(g0, size as nat, c, r)
                        } else {
                            at(g0, size as nat, r, c)
                        },
                decreases size - j,
            {
                proof {
                    lemma_cell_index(size as nat, i as int, j as int, 0, 0);
                    lemma_cell_index(size as nat, j as int, i as int, 0, 0);
                }
                let index1 = i * size + j;
                let index2 = j * size + i;
                let ghost before = self.0@;
                let a = self.0[index1];
                let b = self.0[index2];
                self.0.set(index1, b);
                self.0.set(index2, a);
                proof {
                    assert forall|r: int, c: int|
                        0 <= r < size && 0 <= c < size implies #[trigger] at(
                            self.0@,
                            size as nat,
                            r,
                            c,
                        ) == if r < i || c < i || (r == i && i < c < j + 1) || (c == i && i < r < j
                            + 1) {
                            at(g0, size as nat, c, r)
                        } else {
                            at(g0, size as nat, r, c)
                        } by {
                        lemma_cell_index(size as nat, r, c, i as int, j as int);
                        lemma_cell_index(size as nat, r, c, j as int, i as int);
                        assert(at(before, size as nat, r, c) == if r < i || c < i || (r == i && i
                            < c < j) || (c == i && i < r < j) {
                            at(g0, size as nat, c, r)
                        } else {
                            at(g0, size as nat, r, c)
                        });
                        assert(at(before, size as nat, i as int, j as int) == at(
                            g0,
                            size as nat,
                            i as int,
                            j as int,
                        ));
                        assert(at(before, size as nat, j as int, i as int) == at(
                            g0,
                            size as nat,
                            j as int,
                            i as int,
                        ));
                    }
                }
                j += 1;
            }
            proof {
                assert forall|r: int, c: int|
                    0 <= r < size && 0 <= c < size implies #[trigger] at(self.0@, size as nat, r, c)
                        == if r < i + 1 || c < i + 1 {
                        at(g0, size as nat, c, r)
                    } else {
                        at(g0, size as nat, r, c)
                    } by {
                    assert(at(self.0@, size as nat, r, c) == if r < i || c < i || (r == i && i < c
                        < j) || (c == i && i < r < j) {
                        at(g0, size as nat, c, r)
                    } else {
                        at(g0, size as nat, r, c)
                    });
                }
            }
            i += 1;
        }
    }

    /// Applies `count` rounds of: swap two random rows, swap two random columns, transpose.
    /// Each round keeps the grid a Latin square when it is one.
    pub fn shuffle(&mut self, count: u32)
        requires
            grid_shaped(*old(self)),
            old(self).1 > 0,
        ensures
            final(self).1 == old(self).1,
            grid_shaped(*final(self)),
            is_latin(*old(self)) ==> is_latin(*final(self)),
            exists|moves: Seq<(u8, u8, u8, u8)>|
                moves.len() == count && moves_within(moves, old(self).1) && final(self).0@
                    == shuffled(old(self).0@, old(self).1 as nat, moves),
    {
        let ghost start = *self;
        let ghost mut moves: Seq<(u8, u8, u8, u8)> = Seq::empty();
        let mut k: u32 = 0;
        while k < count
            invariant
                k <= count,
                self.1 == start.1,
                self.1 > 0,
                grid_shaped(*self),
                is_latin(start) ==> is_latin(*self),
                moves.len() == k,
                moves_within(moves, start.1),
                self.0@ == shuffled(start.0@, start.1 as nat, moves),
            decreases count - k,
        {
            let ghost g0 = self.0@;
            let a = random_below(self.1);
            let b = random_below(self.1);
            let ghost g1 = *self;
            self.swap_row(a, b);
            proof {
                lemma_swap_row_latin(g1, *self, a as int, b as int);
            }
            let c = random_below(self.1);
            let d = random_below(self.1);
            let ghost g2 = *self;
            self.swap_col(c, d);
            proof {
                lemma_swap_col_latin(g2, *self, c as int, d as int);
            }
            let ghost g3 = *self;
            self.transpose();
            proof {
                lemma_transpose_latin(g3, *self);
                let n = start.1 as nat;
                lemma_rows_swapped(g1.0@, g2.0@, n, a as int, b as int);
                lemma_cols_swapped(g2.0@, g3.0@, n, c as int, d as int);
                lemma_transposed(g3.0@, self.0@, n);
                let m = (a, b, c, d);
                let next = moves.push(m);
                assert(next.drop_last() =~= moves);
                assert(next.last() == m);
                assert(g0 == g1.0@);
                moves = next;
            }
            k += 1;
        }
    }
}

/// The board of side `n` with rows `a` and `b` traded.
pub open spec fn rows_swapped(g: Seq<u8>, n: nat, a: int, b: int) -> Seq<u8> {
    Seq::new(g.len(), |k: int| g[swap_index(k / n as int, a, b) * n + k % n as int])
}

/// The board of side `n` with columns `a` and `b` traded.
pub open spec fn cols_swapped(g: Seq<u8>, n: nat, a: int, b: int) -> Seq<u8> {
    Seq::new(g.len(), |k: int| g[(k / n as int) * n + swap_index(k % n as int, a, b)])
}

/// The board of side `n` mirrored on its main diagonal.
pub open spec fn transposed(g: Seq<u8>, n: nat) -> Seq<u8> {
    Seq::new(g.len(), |k: int| g[(k % n as int) * n + k / n as int])
}

/// One round of shuffling: trade rows `m.0` and `m.1`, then columns `m.2` and `m.3`, then
/// transpose.
pub open spec fn shuffle_round(g: Seq<u8>, n: nat, m: (u8, u8, u8, u8)) -> Seq<u8> {
    transposed(cols_swapped(rows_swapped(g, n, m.0 as int, m.1 as int), n, m.2 as int, m.3 as int), n)
}

/// The board after the rounds `moves`, in order.
pub open spec fn shuffled(g: Seq<u8>, n: nat, moves: Seq<(u8, u8, u8, u8)>) -> Seq<u8>
    decreases moves.len(),
{
    if moves.len() == 0 {
        g
    } else {
        shuffle_round(shuffled(g, n, moves.drop_last()), n, moves.last())
    }
}

/// Every index of every round is below `n`.
pub open spec fn moves_within(moves: Seq<(u8, u8, u8, u8)>, n: u8) -> bool {
    forall|i: int|
        0 <= i < moves.len() ==> {
            let m = #[trigger] moves[i];
            m.0 < n && m.1 < n && m.2 < n && m.3 < n
        }
}

/// An index of the flat board splits into its row and column.
proof fn lemma_split_in_board(k: int, n: nat)
    requires
        0 <= k < n * n,
    ensures
        k == (k / n as int) * n + k % n as int,
        0 <= (k / n as int) < n,
        0 <= (k % n as int) < n,
{
    assert(n > 0) by (nonlinear_arith)
        requires
            0 <= k < n * n,
    ;
    lemma_index_unsplit(k, n as int);
    let q = k / n as int;
    assert(q < n) by (nonlinear_arith)
        requires
            k == q * n + k % n as int,
            0 <= k % n as int,
            k < n * n,
    ;
}

proof fn lemma_rows_swapped(g: Seq<u8>, h: Seq<u8>, n: nat, a: int, b: int)
    requires
        g.len() == n * n,
        h.len() == n * n,
        forall|r: int, c: int|
            0 <= r < n && 0 <= c < n ==> #[trigger] at(h, n, r, c) == at(g, n, swap_index(r, a, b), c),
    ensures
        h == rows_swapped(g, n, a, b),
{
    assert forall|k: int| 0 <= k < h.len() implies h[k] == rows_swapped(g, n, a, b)[k] by {
        lemma_split_in_board(k, n);
        assert(at(h, n, k / n as int, k % n as int) == h[k]);
    }
    assert(h =~= rows_swapped(g, n, a, b));
}

proof fn lemma_cols_swapped(g: Seq<u8>, h: Seq<u8>, n: nat, a: int, b: int)
    requires
        g.len() == n * n,
        h.len() == n * n,
        forall|r: int, c: int|
            0 <= r < n && 0 <= c < n ==> #[trigger] at(h, n, r, c) == at(g, n, r, swap_index(c, a, b)),
    ensures
        h == cols_swapped(g, n, a, b),
{
    assert forall|k: int| 0 <= k < h.len() implies h[k] == cols_swapped(g, n, a, b)[k] by {
        lemma_split_in_board(k, n);
        assert(at(h, n, k / n as int, k % n as int) == h[k]);
    }
    assert(h =~= cols_swapped(g, n, a, b));
}

proof fn lemma_transposed(g: Seq<u8>, h: Seq<u8>, n: nat)
    requires
        g.len() == n * n,
        h.len() == n * n,
        forall|r: int, c: int| 0 <= r < n && 0 <= c < n ==> #[trigger] at(h, n, r, c) == at(g, n, c, r),
    ensures
        h == transposed(g, n),
{
    assert forall|k: int| 0 <= k < h.len() implies h[k] == transposed(g, n)[k] by {
        lemma_split_in_board(k, n);
        assert(at(h, n, k / n as int, k % n as int) == h[k]);
    }
    assert(h =~= transposed(g, n));
}

/// Every row and every column holds each of `1..=size` once: values in range, none twice in
/// a row or a column.
pub open spec fn is_latin(g: Grid) -> bool {
    let n = g.1 as nat;
    &&& grid_shaped(g)
    &&& forall|r: int, c: int|
        0 <= r < n && 0 <= c < n ==> 1 <= #[trigger] at(g.0@, n, r, c) <= n
    &&& forall|r: int, c1: int, c2: int|
        0 <= r < n && 0 <= c1 < n && 0 <= c2 < n && c1 != c2 ==> #[trigger] at(g.0@, n, r, c1)
            != #[trigger] at(g.0@, n, r, c2)
    &&& forall|c: int, r1: int, r2: int|
        0 <= c < n && 0 <= r1 < n && 0 <= r2 < n && r1 != r2 ==> #[trigger] at(g.0@, n, r1, c)
            != #[trigger] at(g.0@, n, r2, c)
}

/// Two numbers less than `n` apart, and different, differ modulo `n`.
proof fn lemma_mod_distinct(a: int, b: int, n: int)
    requires
        n > 0,
        a >= 0,
        b >= 0,
        a != b,
        -n < a - b < n,
    ensures
        a % n != b % n,
{
    lemma_index_unsplit(a, n);
    lemma_index_unsplit(b, n);
    if a % n == b % n {
        let k = a / n - b / n;
        assert(a - b == k * n) by (nonlinear_arith)
            requires
                a == (a / n) * n + a % n,
                b == (b / n) * n + b % n,
                a % n == b % n,
                k == a / n - b / n,
        ;
        assert(k == 0) by (nonlinear_arith)
            requires
                a - b == k * n,
                -n < a - b < n,
                n > 0,
        ;
    }
}

/// The grid with `(i + j) % n + 1` in row `i`, column `j` is a Latin square.
proof fn lemma_new_grid_latin(g: Grid)
    requires
        grid_shaped(g),
        forall|i: int, j: int|
            0 <= i < g.1 && 0 <= j < g.1 ==> #[trigger] at(g.0@, g.1 as nat, i, j) == ((i + j) % (
            g.1 as int) + 1) as u8,
    ensures
        is_latin(g),
{
    let n = g.1 as nat;
    assert forall|r: int, c: int| 0 <= r < n && 0 <= c < n implies 1 <= #[trigger] at(
        g.0@,
        n,
        r,
        c,
    ) <= n by {
        lemma_index_unsplit(r + c, n as int);
    }
    assert forall|r: int, c1: int, c2: int|
        0 <= r < n && 0 <= c1 < n && 0 <= c2 < n && c1 != c2 implies #[trigger] at(
        g.0@,
        n,
        r,
        c1,
    ) != #[trigger] at(g.0@, n, r, c2) by {
        lemma_mod_distinct(r + c1, r + c2, n as int);
        lemma_index_unsplit(r + c1, n as int);
        lemma_index_unsplit(r + c2, n as int);
    }
    assert forall|c: int, r1: int, r2: int|
        0 <= c < n && 0 <= r1 < n && 0 <= r2 < n && r1 != r2 implies #[trigger] at(
        g.0@,
        n,
        r1,
        c,
    ) != #[trigger] at(g.0@, n, r2, c) by {
        lemma_mod_distinct(r1 + c, r2 + c, n as int);
        lemma_index_unsplit(r1 + c, n as int);
        lemma_index_unsplit(r2 + c, n as int);
    }
}

proof fn lemma_swap_row_latin(g: Grid, h: Grid, a: int, b: int)
    requires
        0 <= a < g.1,
        0 <= b < g.1,
        h.1 == g.1,
        grid_shaped(h),
        forall|r: int, c: int|
            0 <= r < g.1 && 0 <= c < g.1 ==> #[trigger] at(h.0@, g.1 as nat, r, c) == at(
                g.0@,
                g.1 as nat,
                swap_index(r, a, b),
                c,
            ),
    ensures
        is_latin(g) ==> is_latin(h),
{
    let n = g.1 as nat;
    if is_latin(g) {
        assert forall|r: int, c: int| 0 <= r < n && 0 <= c < n implies 1 <= #[trigger] at(
            h.0@,
            n,
            r,
            c,
        ) <= n by {
            assert(at(g.0@, n, swap_index(r, a, b), c) == at(h.0@, n, r, c));
        }
        assert forall|r: int, c1: int, c2: int|
            0 <= r < n && 0 <= c1 < n && 0 <= c2 < n && c1 != c2 implies #[trigger] at(
            h.0@,
            n,
            r,
            c1,
        ) != #[trigger] at(h.0@, n, r, c2) by {
            assert(at(g.0@, n, swap_index(r, a, b), c1) != at(g.0@, n, swap_index(r, a, b), c2));
        }
        assert forall|c: int, r1: int, r2: int|
            0 <= c < n && 0 <= r1 < n && 0 <= r2 < n && r1 != r2 implies #[trigger] at(
            h.0@,
            n,
            r1,
            c,
        ) != #[trigger] at(h.0@, n, r2, c) by {
            assert(at(g.0@, n, swap_index(r1, a, b), c) != at(g.0@, n, swap_index(r2, a, b), c));
        }
    }
}

proof fn lemma_swap_col_latin(g: Grid, h: Grid, a: int, b: int)
    requires
        0 <= a < g.1,
        0 <= b < g.1,
        h.1 == g.1,
        grid_shaped(h),
        forall|r: int, c: int|
            0 <= r < g.1 && 0 <= c < g.1 ==> #[trigger] at(h.0@, g.1 as nat, r, c) == at(
                g.0@,
                g.1 as nat,
                r,
                swap_index(c, a, b),
            ),
    ensures
        is_latin(g) ==> is_latin(h),
{
    let n = g.1 as nat;
    if is_latin(g) {
        assert forall|r: int, c: int| 0 <= r < n && 0 <= c < n implies 1 <= #[trigger] at(
            h.0@,
            n,
            r,
            c,
        ) <= n by {
            assert(at(g.0@, n, r, swap_index(c, a, b)) == at(h.0@, n, r, c));
        }
        assert forall|r: int, c1: int, c2: int|
            0 <= r < n && 0 <= c1 < n && 0 <= c2 < n && c1 != c2 implies #[trigger] at(
            h.0@,
            n,
            r,
            c1,
        ) != #[trigger] at(h.0@, n, r, c2) by {
            assert(at(g.0@, n, r, swap_index(c1, a, b)) != at(g.0@, n, r, swap_index(c2, a, b)));
        }
        assert forall|c: int, r1: int, r2: int|
            0 <= c < n && 0 <= r1 < n && 0 <= r2 < n && r1 != r2 implies #[trigger] at(
            h.0@,
            n,
            r1,
            c,
        ) != #[trigger] at(h.0@, n, r2, c) by {
            assert(at(g.0@, n, r1, swap_index(c, a, b)) != at(g.0@, n, r2, swap_index(c, a, b)));
        }
    }
}

proof fn lemma_transpose_latin(g: Grid, h: Grid)
    requires
        h.1 == g.1,
        grid_shaped(h),
        forall|r: int, c: int|
            0 <= r < g.1 && 0 <= c < g.1 ==> #[trigger] at(h.0@, g.1 as nat, r, c) == at(
                g.0@,
                g.1 as nat,
                c,
                r,
            ),
    ensures
        is_latin(g) ==> is_latin(h),
{
    let n = g.1 as nat;
    if is_latin(g) {
        assert forall|r: int, c: int| 0 <= r < n && 0 <= c < n implies 1 <= #[trigger] at(
            h.0@,
            n,
            r,
            c,
        ) <= n by {
            assert(at(g.0@, n, c, r) == at(h.0@, n, r, c));
        }
        assert forall|r: int, c1: int, c2: int|
            0 <= r < n && 0 <= c1 < n && 0 <= c2 < n && c1 != c2 implies #[trigger] at(
            h.0@,
            n,
            r,
            c1,
        ) != #[trigger] at(h.0@, n, r, c2) by {
            assert(at(g.0@, n, c1, r) != at(g.0@, n, c2, r));
        }
        assert forall|c: int, r1: int, r2: int|
            0 <= c < n && 0 <= r1 < n && 0 <= r2 < n && r1 != r2 implies #[trigger] at(
            h.0@,
            n,
            r1,
            c,
        ) != #[trigger] at(h.0@, n, r2, c) by {
            assert(at(g.0@, n, c, r1) != at(g.0@, n, c, r2));
        }
    }
}

} // verus!
