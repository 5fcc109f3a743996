use vstd::prelude::*;

verus! {

/// One square of the board while a puzzle is being solved.
#[derive(Clone, Debug)]
pub enum Cell {
    /// The square's value is known.
    Solution(u8),
    /// The values that the square may still take.
    Possible(Vec<u8>),
}

/// What a `Cell` stands for: a known value, or a list of values still possible.
pub enum CellModel {
    Solved(u8),
    Candidates(Seq<u8>),
}

impl View for Cell {
    type V = CellModel;

    open spec fn view(&self) -> CellModel {
        match self {
            Cell::Solution(n) => CellModel::Solved(*n),
            Cell::Possible(v) => CellModel::Candidates(v@),
        }
    }
}

/// The cell admits value `v`: it is solved to `v`, or `v` is among its candidates.
pub open spec fn allows(c: CellModel, v: u8) -> bool {
    match c {
        CellModel::Solved(n) => n == v,
        CellModel::Candidates(s) => s.contains(v),
    }
}

pub open spec fn is_solved(c: CellModel) -> bool {
    c is Solved
}

/// The model of a sequence of cells.
pub open spec fn cells_model(b: Seq<Cell>) -> Seq<CellModel> {
    b.map_values(|c: Cell| c@)
}

/// Every value of `g` is admitted by the cell at the same position of `b`.
pub open spec fn consistent(b: Seq<CellModel>, g: Seq<u8>) -> bool {
    &&& b.len() == g.len()
    &&& forall|i: int| 0 <= i < b.len() ==> #[trigger] allows(b[i], g[i])
}

pub fn contains_value(v: &Vec<u8>, x: u8) -> (r: bool)
    ensures
        r == v@.contains(x),
{
    let mut i: usize = 0;
    while i < v.len()
        invariant
            i <= v.len(),
            forall|j: int| 0 <= j < i ==> v@[j] != x,
        decreases v.len() - i,
    {
        if v[i] == x {
            return true;
        }
        i += 1;
    }
    false
}

pub fn copy_values(v: &Vec<u8>) -> (r: Vec<u8>)
    ensures
        r@ == v@,
{
    let mut r: Vec<u8> = Vec::with_capacity(v.len());
    let mut i: usize = 0;
    while i < v.len()
        invariant
            i <= v.len(),
            r@ == v@.subrange(0, i as int),
        decreases v.len() - i,
    {
        r.push(v[i]);
        i += 1;
        assert(r@ == v@.subrange(0, i as int));
    }
    r
}

pub fn copy_cell(c: &Cell) -> (r: Cell)
    ensures
        r@ == c@,
{
    match c {
        Cell::Solution(n) => Cell::Solution(*n),
        Cell::Possible(v) => Cell::Possible(copy_values(v)),
    }
}

pub fn copy_cells(b: &Vec<Cell>) -> (r: Vec<Cell>)
    ensures
        cells_model(r@) == cells_model(b@),
{
    let mut r: Vec<Cell> = Vec::with_capacity(b.len());
    let mut i: usize = 0;
    while i < b.len()
        invariant
            i <= b.len(),
            r@.len() == i,
            forall|j: int| 0 <= j < i ==> (#[trigger] r@[j])@ == b@[j]@,
        decreases b.len() - i,
    {
        let c = copy_cell(&b[i]);
        r.push(c);
        i += 1;
    }
    assert(cells_model(r@) =~= cells_model(b@));
    r
}

/// Whether the cell admits value `v`.
pub fn cell_allows(c: &Cell, v: u8) -> (r: bool)
    ensures
        r == allows(c@, v),
{
    match c {
        Cell::Solution(n) => *n == v,
        Cell::Possible(vals) => contains_value(vals, v),
    }
}

} // verus!
