//! The puzzle description, the deduction pass and the backtracking search.
use vstd::prelude::*;
use vstd::arithmetic::div_mod::lemma_fundamental_div_mod_converse;
use crate::cell::{
    CellModel,
    cells_model,
    contains_value,
    copy_cell,
};
pub use crate::cell::Cell;
pub use crate::search::Solution;
pub use crate::sequence_gen;
use crate::sequence_gen::{
    div_base,
    generate_sequences_div,
    generate_sequences_mul,
    generate_sequences_sub,
    generate_sequences_sum,
    mul_tree,
    orient,
    seqs_model,
    sub_base,
    sum_tree,
};

verus! {

/// The arithmetic of a cage.
#[derive(Clone, Copy, PartialEq, Eq, Debug)]
pub enum MathOp {
    Add,
    Sub,
    Mul,
    Div,
    Free,
}

/// A group of cells whose values must combine to `target` under `operation`.
#[derive(Clone, Debug)]
pub struct Cage {
    pub target: u32,
    pub operation: MathOp,
    /// Indices into the row-major board, in the order of the cage's path.
    pub cells: Vec<usize>,
}

/// The number of cells that the cage's operation asks for.
pub open spec fn shape_ok(op: MathOp, len: nat) -> bool {
    match op {
        MathOp::Sub | MathOp::Div => len == 2,
        MathOp::Free => len == 1,
        MathOp::Add | MathOp::Mul => len >= 1,
    }
}

/// The single candidate a free cage sets: its target, or none when no cell value can be it.
pub open spec fn free_values(target: u32) -> Seq<u8> {
    if target <= 255 {
        seq![target as u8]
    } else {
        seq![]
    }
}

/// The distinct values at position `i` of the first `k` sequences, in order of first
/// appearance.
pub open spec fn column_upto(seqs: Seq<Seq<u8>>, i: int, k: nat) -> Seq<u8>
    decreases k,
{
    if k == 0 {
        seq![]
    } else {
        let d = column_upto(seqs, i, (k - 1) as nat);
        let v = seqs[k - 1][i];
        if d.contains(v) {
            d
        } else {
            d.push(v)
        }
    }
}

/// Each unsolved cell keeps exactly the values that it takes in some of `seqs`.
pub open spec fn apply_seqs(area: Seq<CellModel>, seqs: Seq<Seq<u8>>) -> Seq<CellModel> {
    Seq::new(
        area.len(),
        |i: int|
            match area[i] {
                CellModel::Solved(n) => CellModel::Solved(n),
                CellModel::Candidates(_) => CellModel::Candidates(
                    column_upto(seqs, i, seqs.len()),
                ),
            },
    )
}

pub open spec fn pairs_as_seqs(pairs: Seq<(u8, u8)>) -> Seq<Seq<u8>> {
    pairs.map_values(|p: (u8, u8)| seq![p.0, p.1])
}

/// What one cage's arithmetic leaves possible in its cells.
pub open spec fn cage_filter(cage: Cage, size: u8, area: Seq<CellModel>) -> Seq<CellModel> {
    let t = cage.target;
    match cage.operation {
        MathOp::Add => apply_seqs(area, sum_tree(seq![], area.len(), size, t, Some(area))),
        MathOp::Mul => apply_seqs(area, mul_tree(seq![], area.len(), size, t, Some(area))),
        MathOp::Sub => apply_seqs(
            area,
            pairs_as_seqs(orient(sub_base(size, t, size as nat), Some((area[0], area[1])))),
        ),
        MathOp::Div => apply_seqs(
            area,
            pairs_as_seqs(orient(div_base(size, t, size as nat), Some((area[0], area[1])))),
        ),
        MathOp::Free => match area[0] {
            CellModel::Solved(n) => area,
            CellModel::Candidates(_) => area.update(0, CellModel::Candidates(free_values(t))),
        },
    }
}

fn column_values(sequences: &Vec<Vec<u8>>, i: usize) -> (r: Vec<u8>)
    requires
        forall|k: int| 0 <= k < sequences.len() ==> i < (#[trigger] sequences@[k]).len(),
    ensures
        r@ == column_upto(seqs_model(sequences@), i as int, sequences.len() as nat),
{
    let ghost ss = seqs_model(sequences@);
    let mut r: Vec<u8> = Vec::new();
    let mut k: usize = 0;
    while k < sequences.len()
        invariant
            k <= sequences.len(),
            ss == seqs_model(sequences@),
            forall|j: int| 0 <= j < sequences.len() ==> i < (#[trigger] sequences@[j]).len(),
            r@ == column_upto(ss, i as int, k as nat),
        decreases sequences.len() - k,
    {
        let v = sequences[k][i];
        assert(ss[k as int][i as int] == v);
        if !contains_value(&r, v) {
            r.push(v);
        }
        k += 1;
    }
    r
}

/// Narrows each unsolved cell of `area` to the values it takes in some of `sequences`.
fn apply_sequences(area: &mut Vec<Cell>, sequences: &Vec<Vec<u8>>)
    requires
        forall|k: int| 0 <= k < sequences.len() ==> (#[trigger] sequences@[k]).len() == old(
            area,
        ).len(),
    ensures
        cells_model(final(area)@) == apply_seqs(cells_model(old(area)@), seqs_model(sequences@)),
{
    let ghost start = cells_model(area@);
    let ghost target = apply_seqs(start, seqs_model(sequences@));
    let mut e: usize = 0;
    while e < area.len()
        invariant
            e <= area.len(),
            area.len() == start.len(),
            target == apply_seqs(start, seqs_model(sequences@)),
            forall|k: int| 0 <= k < sequences.len() ==> (#[trigger] sequences@[k]).len()
                == start.len(),
            forall|j: int| 0 <= j < e ==> (#[trigger] area@[j])@ == target[j],
            forall|j: int| e <= j < area.len() ==> (#[trigger] area@[j])@ == start[j],
        decreases area.len() - e,
    {
        assert(area@[e as int]@ == start[e as int]);
        if let Cell::Possible(_) = &area[e] {
            let vals = column_values(sequences, e);
            assert(start[e as int] is Candidates);
            assert(target[e as int] == CellModel::Candidates(vals@));
            area.set(e, Cell::Possible(vals));
        } else {
            assert(start[e as int] is Solved);
            assert(target[e as int] == start[e as int]);
        }
        e += 1;
    }
    assert(cells_model(area@) =~= target);
}

/// Narrows the two cells of `area` to the first and second values of some pair.
fn apply_pairs(area: &mut Vec<Cell>, pairs: &Vec<(u8, u8)>)
    requires
        old(area).len() == 2,
    ensures
        cells_model(final(area)@) == apply_seqs(cells_model(old(area)@), pairs_as_seqs(pairs@)),
{
    let mut sequences: Vec<Vec<u8>> = Vec::with_capacity(pairs.len());
    let mut k: usize = 0;
    while k < pairs.len()
        invariant
            k <= pairs.len(),
            seqs_model(sequences@) == pairs_as_seqs(pairs@).subrange(0, k as int),
            forall|j: int| 0 <= j < k ==> (#[trigger] sequences@[j]).len() == 2,
        decreases pairs.len() - k,
    {
        let p = pairs[k];
        let ghost before = sequences@;
        let mut row: Vec<u8> = Vec::with_capacity(2);
        row.push(p.0);
        row.push(p.1);
        assert(row@ =~= seq![p.0, p.1]);
        sequences.push(row);
        assert(sequences@ == before.push(row));
        assert(seqs_model(sequences@) =~= seqs_model(before).push(row@));
        k += 1;
        assert(seqs_model(sequences@) =~= pairs_as_seqs(pairs@).subrange(0, k as int));
    }
    assert(pairs_as_seqs(pairs@).subrange(0, k as int) =~= pairs_as_seqs(pairs@));
    apply_sequences(area, &sequences);
}

impl Cage {
    /// Narrows the cells of `area`, the cage's own cells in order, by the cage's arithmetic.
    pub fn solve(&self, area: &mut Vec<Cell>, size: u8)
        requires
            shape_ok(self.operation, old(area).len() as nat),
        ensures
            cells_model(final(area)@) == cage_filter(*self, size, cells_model(old(area)@)),
    {
        let len = area.len();
        let ghost am = cells_model(area@);
        match self.operation {
            MathOp::Add => {
                let seq = generate_sequences_sum(len, size, self.target, Some(&*area));
                proof {
                    assert forall|k: int| 0 <= k < seq.len() implies (#[trigger] seq@[k]).len()
                        == len by {
                        assert(seqs_model(seq@)[k] == seq@[k]@);
                        assert(seqs_model(seq@).contains(seq@[k]@));
                    }
                }
                apply_sequences(area, &seq);
            },
            MathOp::Mul => {
                let seq = generate_sequences_mul(len, size, self.target, Some(&*area));
                proof {
                    assert forall|k: int| 0 <= k < seq.len() implies (#[trigger] seq@[k]).len()
                        == len by {
                        assert(seqs_model(seq@)[k] == seq@[k]@);
                        assert(seqs_model(seq@).contains(seq@[k]@));
                    }
                }
                apply_sequences(area, &seq);
            },
            MathOp::Div => {
                let seq = generate_sequences_div(size, self.target, Some((&area[0], &area[1])));
                assert(am[0] == area@[0]@ && am[1] == area@[1]@);
                apply_pairs(area, &seq);
            },
            MathOp::Sub => {
                let seq = generate_sequences_sub(size, self.target, Some((&area[0], &area[1])));
                assert(am[0] == area@[0]@ && am[1] == area@[1]@);
                apply_pairs(area, &seq);
            },
            MathOp::Free => {
                if let Cell::Possible(_) = &area[0] {
                    let mut v: Vec<u8> = Vec::new();
                    if self.target <= 255 {
                        v.push(self.target as u8);
                    }
                    assert(v@ =~= free_values(self.target));
                    area.set(0, Cell::Possible(v));
                }
                assert(cells_model(area@) =~= cage_filter(*self, size, am));
            },
        }
    }
}

/// The puzzle could not be searched.
#[derive(Clone, Copy, Debug)]
pub enum SolverError {
    /// Exceeded `maximum_depth`
    DepthExceeded,
    /// A cage has a number of cells that its operation does not allow, or a cell index off
    /// the board: the puzzle data is broken.
    MalformedCage,
}

/// A KenKen puzzle: a square board of side `size` and the cages that cover it.
#[derive(Clone, Debug)]
pub struct KenkenPuzzle {
    pub size: u8,
    pub cages: Vec<Cage>,
}

/// Every cage has the shape its operation asks for and lies on the board.
pub open spec fn well_formed(p: KenkenPuzzle) -> bool {
    forall|k: int|
        0 <= k < p.cages.len() ==> {
            let c = #[trigger] p.cages@[k];
            &&& shape_ok(c.operation, c.cells.len() as nat)
            &&& forall|j: int| 0 <= j < c.cells.len() ==> #[trigger] c.cells@[j] < p.size * p.size
        }
}

/// The cells of a cage, taken from the board in the cage's order.
pub open spec fn gather(b: Seq<CellModel>, cells: Seq<usize>) -> Seq<CellModel> {
    cells.map_values(|i: usize| b[i as int])
}

/// The board with the first `k` cells of the cage written back from `sub`.
pub open spec fn scatter(b: Seq<CellModel>, cells: Seq<usize>, sub: Seq<CellModel>, k: nat) -> Seq<
    CellModel,
>
    decreases k,
{
    if k == 0 {
        b
    } else {
        scatter(b, cells, sub, (k - 1) as nat).update(cells[k - 1] as int, sub[k - 1])
    }
}

/// The board after the arithmetic of the first `k` cages has been applied, one after another.
pub open spec fn apply_cages(p: KenkenPuzzle, b: Seq<CellModel>, k: nat) -> Seq<CellModel>
    decreases k,
{
    if k == 0 {
        b
    } else {
        let b1 = apply_cages(p, b, (k - 1) as nat);
        let c = p.cages@[k - 1];
        scatter(b1, c.cells@, cage_filter(c, p.size, gather(b1, c.cells@)), c.cells.len() as nat)
    }
}

/// The values of the solved cells among `cells`, in order.
pub open spec fn fixed_values(cells: Seq<CellModel>) -> Seq<u8>
    decreases cells.len(),
{
    if cells.len() == 0 {
        seq![]
    } else {
        let d = fixed_values(cells.drop_last());
        match cells.last() {
            CellModel::Solved(n) => d.push(n),
            CellModel::Candidates(_) => d,
        }
    }
}

pub open spec fn absent_from(out: Seq<u8>) -> spec_fn(u8) -> bool {
    |x: u8| !out.contains(x)
}

/// An unsolved cell loses the values in `out`; a solved one stays as it is.
pub open spec fn strip(c: CellModel, out: Seq<u8>) -> CellModel {
    match c {
        CellModel::Solved(n) => CellModel::Solved(n),
        CellModel::Candidates(v) => CellModel::Candidates(v.filter(absent_from(out))),
    }
}

pub open spec fn row_of(b: Seq<CellModel>, n: nat, r: int) -> Seq<CellModel> {
    b.subrange(r * n, r * n + n)
}

pub open spec fn col_of(b: Seq<CellModel>, n: nat, c: int) -> Seq<CellModel> {
    Seq::new(n, |k: int| b[k * n + c])
}

/// Each unsolved cell loses the values solved elsewhere in its row.
pub open spec fn row_filter(b: Seq<CellModel>, n: nat) -> Seq<CellModel> {
    Seq::new(b.len(), |i: int| strip(b[i], fixed_values(row_of(b, n, i / n as int))))
}

/// Each unsolved cell loses the values solved elsewhere in its column.
pub open spec fn col_filter(b: Seq<CellModel>, n: nat) -> Seq<CellModel> {
    Seq::new(b.len(), |i: int| strip(b[i], fixed_values(col_of(b, n, i % n as int))))
}

/// One deduction pass: every cage in order, then every row, then every column.
pub open spec fn deduce(p: KenkenPuzzle, b: Seq<CellModel>) -> Seq<CellModel> {
    let n = p.size as nat;
    col_filter(row_filter(apply_cages(p, b, p.cages.len() as nat), n), n)
}

/// The values of `v` that are not in `out`, in order.
pub(crate) fn without_values(v: &Vec<u8>, out: &Vec<u8>) -> (r: Vec<u8>)
    ensures
        r@ == v@.filter(absent_from(out@)),
{
    let mut r: Vec<u8> = Vec::new();
    let mut i: usize = 0;
    proof {
        reveal(Seq::filter);
        assert(v@.subrange(0, 0) =~= seq![]);
    }
    while i < v.len()
        invariant
            i <= v.len(),
            r@ == v@.subrange(0, i as int).filter(absent_from(out@)),
        decreases v.len() - i,
    {
        let x = v[i];
        let ghost s1 = v@.subrange(0, i + 1);
        assert(s1.drop_last() =~= v@.subrange(0, i as int));
        assert(s1.last() == x);
        assert(absent_from(out@)(x) == !out@.contains(x));
        proof {
            reveal(Seq::filter);
        }
        if !contains_value(out, x) {
            r.push(x);
        }
        i += 1;
    }
    assert(v@.subrange(0, v.len() as int) =~= v@);
    r
}

pub proof fn lemma_index_split(i: int, n: int, q: int, r: int)
    requires
        n > 0,
        0 <= r < n,
        i == q * n + r,
    ensures
        i / n == q,
        i % n == r,
{
    lemma_fundamental_div_mod_converse(i, n, q, r);
}

pub proof fn lemma_index_unsplit(i: int, n: int)
    requires
        n > 0,
        i >= 0,
    ensures
        i == (i / n) * n + i % n,
        0 <= i % n < n,
        i / n >= 0,
{
    vstd::arithmetic::div_mod::lemma_fundamental_div_mod(i, n);
    assert(n * (i / n) == (i / n) * n) by (nonlinear_arith);
}

proof fn lemma_cage_filter_len(c: Cage, size: u8, a: Seq<CellModel>)
    requires
        shape_ok(c.operation, a.len()),
    ensures
        cage_filter(c, size, a).len() == a.len(),
{
}

impl KenkenPuzzle {
    pub fn new(size: u8, cages: Vec<Cage>) -> (r: Self)
        ensures
            r.size == size,
            r.cages == cages,
    {
        Self { size, cages }
    }

    /// Whether every cage has the shape its operation asks for and lies on the board.
    pub fn is_well_formed(&self) -> (r: bool)
        ensures
            r == well_formed(*self),
    {
        assert(self.size * self.size <= 255 * 255) by (nonlinear_arith)
            requires
                self.size <= 255,
        ;
        let n2: usize = self.size as usize * self.size as usize;
        let mut k: usize = 0;
        while k < self.cages.len()
            invariant
                k <= self.cages.len(),
                n2 == self.size * self.size,
                forall|t: int|
                    0 <= t < k ==> {
                        let c = #[trigger] self.cages@[t];
                        &&& shape_ok(c.operation, c.cells.len() as nat)
                        &&& forall|j: int|
                            0 <= j < c.cells.len() ==> #[trigger] c.cells@[j] < self.size
                                * self.size
                    },
            decreases self.cages.len() - k,
        {
            let c = &self.cages[k];
            let len = c.cells.len();
            let shape = match c.operation {
                MathOp::Sub | MathOp::Div => len == 2,
                MathOp::Free => len == 1,
                MathOp::Add | MathOp::Mul => len >= 1,
            };
            if !shape {
                assert(!shape_ok(self.cages@[k as int].operation, self.cages@[k as int].cells.len() as nat));
                return false;
            }
            let mut j: usize = 0;
            while j < len
                invariant
                    j <= len,
                    k < self.cages.len(),
                    *c == self.cages@[k as int],
                    len == c.cells.len(),
                    n2 == self.size * self.size,
                    forall|t: int| 0 <= t < j ==> #[trigger] c.cells@[t] < self.size * self.size,
                decreases len - j,
            {
                if c.cells[j] >= n2 {
                    assert(!(self.cages@[k as int].cells@[j as int] < self.size * self.size));
                    return false;
                }
                j += 1;
            }
            k += 1;
        }
        true
    }

    /// Applies the arithmetic of every cage to `board`, one cage after another.
    fn deduce_cages(&self, board: &mut Vec<Cell>)
        requires
            well_formed(*self),
            old(board).len() == self.size * self.size,
        ensures
            final(board).len() == old(board).len(),
            cells_model(final(board)@) == apply_cages(
                *self,
                cells_model(old(board)@),
                self.cages.len() as nat,
            ),
    {
        let ghost start = cells_model(board@);
        let mut k: usize = 0;
        while k < self.cages.len()
            invariant
                k <= self.cages.len(),
                well_formed(*self),
                board.len() == self.size * self.size,
                cells_model(board@) == apply_cages(*self, start, k as nat),
            decreases self.cages.len() - k,
        {
            let cage = &self.cages[k];
            let ghost b1 = cells_model(board@);
            let ghost cells = cage.cells@;
            assert(shape_ok(cage.operation, cage.cells.len() as nat));
            let mut area: Vec<Cell> = Vec::with_capacity(cage.cells.len());
            let mut j: usize = 0;
            while j < cage.cells.len()
                invariant
                    j <= cage.cells.len(),
                    cells == cage.cells@,
                    b1 == cells_model(board@),
                    board.len() == self.size * self.size,
                    forall|t: int| 0 <= t < cage.cells.len() ==> #[trigger] cells[t] < board.len(),
                    cells_model(area@) == gather(b1, cells).subrange(0, j as int),
                decreases cage.cells.len() - j,
            {
                let c = copy_cell(&board[cage.cells[j]]);
                let ghost before = area@;
                area.push(c);
                assert(cells_model(area@) =~= cells_model(before).push(c@));
                j += 1;
                assert(cells_model(area@) =~= gather(b1, cells).subrange(0, j as int));
            }
            assert(gather(b1, cells).subrange(0, j as int) =~= gather(b1, cells));
            cage.solve(&mut area, self.size);
            proof {
                lemma_cage_filter_len(*cage, self.size, gather(b1, cells));
                assert(cells_model(area@).len() == area.len());
            }
            let ghost sub = cells_model(area@);
            let mut j: usize = 0;
            while j < cage.cells.len()
                invariant
                    j <= cage.cells.len(),
                    cells == cage.cells@,
                    area.len() == cage.cells.len(),
                    sub == cells_model(area@),
                    board.len() == self.size * self.size,
                    forall|t: int| 0 <= t < cage.cells.len() ==> #[trigger] cells[t] < board.len(),
                    cells_model(board@) == scatter(b1, cells, sub, j as nat),
                decreases cage.cells.len() - j,
            {
                let c = copy_cell(&area[j]);
                let ghost before = board@;
                board.set(cage.cells[j], c);
                assert(cells_model(board@) =~= cells_model(before).update(cells[j as int] as int, c@));
                j += 1;
            }
            k += 1;
        }
    }

    /// Removes from every unsolved cell the values solved elsewhere in its row.
    fn deduce_rows(&self, board: &mut Vec<Cell>)
        requires
            old(board).len() == self.size * self.size,
        ensures
            final(board).len() == old(board).len(),
            cells_model(final(board)@) == row_filter(cells_model(old(board)@), self.size as nat),
    {
        let ghost b = cells_model(board@);
        let ghost goal = row_filter(b, self.size as nat);
        let n = self.size as usize;
        let mut r: usize = 0;
        assert forall|i: int| 0 <= i < n * n implies (#[trigger] board@[i])@ == b[i] by {
            assert(cells_model(board@)[i] == board@[i]@);
        }
        while r < n
            invariant
                r <= n,
                n == self.size,
                board.len() == n * n,
                b.len() == n * n,
                goal == row_filter(b, n as nat),
                r * n <= n * n,
                forall|i: int| 0 <= i < r * n ==> (#[trigger] board@[i])@ == goal[i],
                forall|i: int| r * n <= i < n * n ==> (#[trigger] board@[i])@ == b[i],
            decreases n - r,
        {
            assert(r * n + n <= n * n) by (nonlinear_arith)
                requires
                    r < n,
            ;
            let ghost row = row_of(b, n as nat, r as int);
            let mut filter_out: Vec<u8> = Vec::new();
            let mut c: usize = 0;
            assert(row.subrange(0, 0) =~= seq![]);
            while c < n
                invariant
                    c <= n,
                    r < n,
                    r * n + n <= n * n,
                    board.len() == n * n,
                    b.len() == n * n,
                    row == row_of(b, n as nat, r as int),
                    forall|i: int| r * n <= i < n * n ==> (#[trigger] board@[i])@ == b[i],
                    filter_out@ == fixed_values(row.subrange(0, c as int)),
                decreases n - c,
            {
                let idx = r * n + c;
                assert(row.len() == n);
                assert(row[c as int] == b[idx as int]);
                let ghost s1 = row.subrange(0, c + 1);
                assert(s1.drop_last() =~= row.subrange(0, c as int));
                assert(s1.last() == b[idx as int]);
                if let Cell::Solution(v) = &board[idx] {
                    filter_out.push(*v);
                }
                c += 1;
            }
            assert(row.subrange(0, n as int) =~= row);
            let mut c: usize = 0;
            while c < n
                invariant
                    c <= n,
                    r < n,
                    n == self.size,
                    r * n + n <= n * n,
                    board.len() == n * n,
                    b.len() == n * n,
                    goal == row_filter(b, n as nat),
                    filter_out@ == fixed_values(row_of(b, n as nat, r as int)),
                    forall|i: int| 0 <= i < r * n + c ==> (#[trigger] board@[i])@ == goal[i],
                    forall|i: int| r * n + c <= i < n * n ==> (#[trigger] board@[i])@ == b[i],
                decreases n - c,
            {
                let idx = r * n + c;
                proof {
                    lemma_index_split(idx as int, n as int, r as int, c as int);
                }
                if let Cell::Possible(v) = &board[idx] {
                    let nv = without_values(v, &filter_out);
                    board.set(idx, Cell::Possible(nv));
                }
                assert(board@[idx as int]@ == goal[idx as int]);
                c += 1;
            }
            r += 1;
            assert(r * n == (r - 1) * n + n) by (nonlinear_arith);
        }
        assert(cells_model(board@) =~= goal);
    }

    /// Removes from every unsolved cell the values solved elsewhere in its column.
    fn deduce_cols(&self, board: &mut Vec<Cell>)
        requires
            old(board).len() == self.size * self.size,
        ensures
            final(board).len() == old(board).len(),
            cells_model(final(board)@) == col_filter(cells_model(old(board)@), self.size as nat),
    {
        let ghost b = cells_model(board@);
        let ghost goal = col_filter(b, self.size as nat);
        let n = self.size as usize;
        let mut c: usize = 0;
        assert forall|i: int| 0 <= i < n * n implies (#[trigger] board@[i])@ == if i % (
        n as int) < c {
            goal[i]
        } else {
            b[i]
        } by {
            assert(cells_model(board@)[i] == board@[i]@);
            if n == 0 {
                assert(n * n == 0) by (nonlinear_arith)
                    requires
                        n == 0,
                ;
            } else {
                lemma_index_unsplit(i, n as int);
            }
        }
        while c < n
            invariant
                c <= n,
                n == self.size,
                board.len() == n * n,
                b.len() == n * n,
                goal == col_filter(b, n as nat),
                forall|i: int|
                    0 <= i < n * n ==> (#[trigger] board@[i])@ == if i % (n as int) < c {
                        goal[i]
                    } else {
                        b[i]
                    },
            decreases n - c,
        {
            let ghost col = col_of(b, n as nat, c as int);
            let mut filter_out: Vec<u8> = Vec::new();
            let mut k: usize = 0;
            assert(col.subrange(0, 0) =~= seq![]);
            while k < n
                invariant
                    k <= n,
                    c < n,
                    board.len() == n * n,
                    b.len() == n * n,
                    goal == col_filter(b, n as nat),
                    col == col_of(b, n as nat, c as int),
                    forall|i: int|
                        0 <= i < n * n ==> (#[trigger] board@[i])@ == if i % (n as int) < c {
                            goal[i]
                        } else {
                            b[i]
                        },
                    filter_out@ == fixed_values(col.subrange(0, k as int)),
                decreases n - k,
            {
                assert(k * n + c < n * n) by (nonlinear_arith)
                    requires
                        k < n,
                        c < n,
                ;
                let idx = k * n + c;
                proof {
                    lemma_index_split(idx as int, n as int, k as int, c as int);
                }
                assert(col.subrange(0, k + 1).drop_last() =~= col.subrange(0, k as int));
                assert(col.subrange(0, k + 1).last() == b[idx as int]);
                if let Cell::Solution(v) = &board[idx] {
                    filter_out.push(*v);
                }
                k += 1;
            }
            assert(col.subrange(0, n as int) =~= col);
            let mut k: usize = 0;
            while k < n
                invariant
                    k <= n,
                    c < n,
                    n == self.size,
                    board.len() == n * n,
                    b.len() == n * n,
                    goal == col_filter(b, n as nat),
                    filter_out@ == fixed_values(col_of(b, n as nat, c as int)),
                    forall|i: int|
                        0 <= i < n * n ==> (#[trigger] board@[i])@ == if i % (n as int) < c || (i
                            % (n as int) == c && i / (n as int) < k) {
                            goal[i]
                        } else {
                            b[i]
                        },
                decreases n - k,
            {
                assert(k * n + c < n * n) by (nonlinear_arith)
                    requires
                        k < n,
                        c < n,
                ;
                let idx = k * n + c;
                proof {
                    lemma_index_split(idx as int, n as int, k as int, c as int);
                }
                let ghost before = board@;
                if let Cell::Possible(v) = &board[idx] {
                    let nv = without_values(v, &filter_out);
                    board.set(idx, Cell::Possible(nv));
                }
                proof {
                    assert forall|i: int| 0 <= i < n * n implies (#[trigger] board@[i])@ == if i
                        % (n as int) < c || (i % (n as int) == c && i / (n as int) < k + 1) {
                        goal[i]
                    } else {
                        b[i]
                    } by {
                        if i != idx {
                            assert(board@[i] == before[i]);
                            lemma_index_unsplit(i, n as int);
                            if i % (n as int) == c && i / (n as int) == k {
                                assert(i == k * n + c);
                            }
                        }
                    }
                }
                k += 1;
            }
            proof {
                assert forall|i: int| 0 <= i < n * n implies (#[trigger] board@[i])@ == if i % (
                n as int) < c + 1 {
                    goal[i]
                } else {
                    b[i]
                } by {
                    lemma_index_unsplit(i, n as int);
                    assert(i / (n as int) < n) by (nonlinear_arith)
                        requires
                            i == (i / (n as int)) * n + i % (n as int),
                            0 <= i % (n as int),
                            i < n * n,
                            n > 0,
                    ;
                }
            }
            c += 1;
        }
        proof {
            assert forall|i: int| 0 <= i < n * n implies (#[trigger] board@[i])@ == goal[i] by {
                assert(c == n);
                if n == 0 {
                    assert(n * n == 0) by (nonlinear_arith)
                        requires
                            n == 0,
                    ;
                } else {
                    lemma_index_unsplit(i, n as int);
                    assert(i % (n as int) < c);
                    assert((board@[i])@ == if i % (n as int) < c {
                        goal[i]
                    } else {
                        b[i]
                    });
                }
            }
        }
        assert(cells_model(board@) =~= goal);
    }

    /// One deduction pass over `board`: every cage, then every row, then every column.
    pub fn deduction(&self, board: &mut Vec<Cell>)
        requires
            well_formed(*self),
            old(board).len() == self.size * self.size,
        ensures
            final(board).len() == old(board).len(),
            cells_model(final(board)@) == deduce(*self, cells_model(old(board)@)),
    {
        self.deduce_cages(board);
        self.deduce_rows(board);
        self.deduce_cols(board);
    }
}

} // verus!
