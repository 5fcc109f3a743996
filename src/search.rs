//! The backtracking search: deduction to a fixed point, then a guess on the most
//! constrained cell.
use vstd::prelude::*;
use crate::Grid;
use crate::cell::{Cell, CellModel, allows, cells_model, consistent, copy_cells, copy_values, is_solved};
use crate::correctness::{found, lemma_exceeded_iff, lemma_search, lemma_search_error, reach};
use crate::solution_check::{is_solution, is_valid_solution};
use crate::solver::{
    Cage,
    KenkenPuzzle,
    SolverError,
    absent_from,
    apply_cages,
    cage_filter,
    col_filter,
    deduce,
    gather,
    row_filter,
    scatter,
    shape_ok,
    well_formed,
    without_values,
};

verus! {

/// Stores grid and depth where the solution was found
#[derive(Clone, Debug)]
pub struct Solution {
    pub grid: Grid,
    pub depth: usize,
}

/// A cell with no candidate left: this line of search is contradictory.
pub open spec fn empty_at(c: CellModel) -> bool {
    match c {
        CellModel::Candidates(v) => v.len() == 0,
        CellModel::Solved(_) => false,
    }
}

/// A cell with exactly one candidate left.
pub open spec fn single_at(c: CellModel) -> bool {
    match c {
        CellModel::Candidates(v) => v.len() == 1,
        CellModel::Solved(_) => false,
    }
}

/// A cell with one candidate becomes solved to it.
pub open spec fn promote(c: CellModel) -> CellModel {
    match c {
        CellModel::Candidates(v) => if v.len() == 1 {
            CellModel::Solved(v[0])
        } else {
            c
        },
        CellModel::Solved(n) => c,
    }
}

pub open spec fn promote_all(b: Seq<CellModel>) -> Seq<CellModel> {
    b.map_values(|c: CellModel| promote(c))
}

pub open spec fn any_empty(b: Seq<CellModel>) -> bool {
    exists|i: int| 0 <= i < b.len() && #[trigger] empty_at(b[i])
}

pub open spec fn any_single(b: Seq<CellModel>) -> bool {
    exists|i: int| 0 <= i < b.len() && #[trigger] single_at(b[i])
}

/// The number of unsolved cells.
pub open spec fn open_count(b: Seq<CellModel>) -> nat
    decreases b.len(),
{
    if b.len() == 0 {
        0
    } else {
        open_count(b.drop_last()) + if is_solved(b.last()) {
            0nat
        } else {
            1nat
        }
    }
}

/// The same length, and solved cells at the same places.
pub open spec fn same_kinds(a: Seq<CellModel>, b: Seq<CellModel>) -> bool {
    &&& a.len() == b.len()
    &&& forall|i: int| 0 <= i < a.len() ==> #[trigger] is_solved(a[i]) == is_solved(b[i])
}

/// Deduction passes, each followed by promoting single candidates, until a pass promotes
/// nothing; `None` when a cell runs out of candidates.
pub open spec fn settle(p: KenkenPuzzle, b: Seq<CellModel>) -> Option<Seq<CellModel>>
    decreases open_count(b),
{
    let d = deduce(p, b);
    if any_empty(d) {
        None
    } else if any_single(d) {
        let e = promote_all(d);
        if open_count(e) < open_count(b) {
            settle(p, e)
        } else {
            None
        }
    } else {
        Some(d)
    }
}

/// Among the first `k` cells, the unsolved one with fewest candidates (the first such), with
/// that number.
pub open spec fn best_upto(b: Seq<CellModel>, k: nat) -> Option<(nat, int)>
    decreases k,
{
    if k == 0 {
        None
    } else {
        let prev = best_upto(b, (k - 1) as nat);
        match b[k - 1] {
            CellModel::Candidates(v) => match prev {
                None => Some((v.len(), k - 1)),
                Some(x) => if x.0 > v.len() {
                    Some((v.len(), k - 1))
                } else {
                    prev
                },
            },
            CellModel::Solved(_) => prev,
        }
    }
}

/// The values of a board whose cells are all solved.
pub open spec fn grid_of(b: Seq<CellModel>) -> Seq<u8> {
    b.map_values(
        |c: CellModel|
            match c {
                CellModel::Solved(n) => n,
                CellModel::Candidates(_) => 0u8,
            },
    )
}

/// A found solution: its values and the depth at which it was found.
pub type SolutionModel = (Seq<u8>, nat);

pub type Outcome = Result<Option<Seq<SolutionModel>>, SolverError>;

/// What is left of a budget of `m` solutions (0: no limit) once `found` have been found.
pub open spec fn budget_after(m: nat, found: nat) -> nat {
    if m == 0 {
        0
    } else {
        (m - found) as nat
    }
}

/// The budget that the exclude branch gets after the guess branch's outcome `r1`.
pub open spec fn rest_budget(m: nat, r1: Outcome) -> nat {
    match r1 {
        Ok(Some(l1)) => budget_after(m, l1.len()),
        _ => m,
    }
}

/// After the guess branch's outcome `r1`, the exclude branch is searched too.
pub open spec fn explores_rest(m: nat, r1: Outcome) -> bool {
    match r1 {
        Err(_) => false,
        Ok(None) => true,
        Ok(Some(l1)) => !(m > 0 && l1.len() >= m),
    }
}

/// The outcome of the search from board `b` at `depth`: the solutions in the order found,
/// `None` when there is none, or the depth bound hit anywhere in the search.
pub open spec fn search(p: KenkenPuzzle, b: Seq<CellModel>, depth: nat, max_depth: nat, m: nat) -> Outcome
    decreases max_depth + 1 - depth,
{
    if depth > max_depth {
        Err(SolverError::DepthExceeded)
    } else {
        match settle(p, b) {
            None => Ok(None),
            Some(s) => match best_upto(s, s.len()) {
                None => if is_solution(p, grid_of(s)) {
                    Ok(Some(seq![(grid_of(s), depth)]))
                } else {
                    Ok(None)
                },
                Some(best) => match s[best.1] {
                    CellModel::Solved(_) => Ok(None),
                    CellModel::Candidates(v) => if v.len() == 0 {
                        Ok(None)
                    } else {
                        let x = v[0];
                        let guess = s.update(best.1, CellModel::Solved(x));
                        let rest = s.update(
                            best.1,
                            CellModel::Candidates(v.filter(absent_from(seq![x]))),
                        );
                        match search(p, guess, depth + 1, max_depth, m) {
                            Err(err) => Err(err),
                            Ok(None) => search(p, rest, depth + 1, max_depth, m),
                            Ok(Some(l1)) => if m > 0 && l1.len() >= m {
                                Ok(Some(l1))
                            } else {
                                match search(
                                    p,
                                    rest,
                                    depth + 1,
                                    max_depth,
                                    budget_after(m, l1.len()),
                                ) {
                                    Err(err) => Err(err),
                                    Ok(None) => Ok(Some(l1)),
                                    Ok(Some(l2)) => Ok(Some(l1 + l2)),
                                }
                            },
                        }
                    },
                },
            },
        }
    }
}

pub open spec fn solutions_model(l: Seq<Solution>) -> Seq<SolutionModel> {
    l.map_values(|s: Solution| (s.grid.0@, s.depth as nat))
}

pub open spec fn outcome_model(r: Result<Option<Vec<Solution>>, SolverError>) -> Outcome {
    match r {
        Ok(Some(l)) => Ok(Some(solutions_model(l@))),
        Ok(None) => Ok(None),
        Err(e) => Err(e),
    }
}

/// Every cell of a board of side `size`, unsolved, with every value possible.
pub open spec fn initial_board(size: u8) -> Seq<CellModel> {
    Seq::new(
        (size * size) as nat,
        |i: int| CellModel::Candidates(Seq::new(size as nat, |v: int| (v + 1) as u8)),
    )
}

proof fn lemma_cage_filter_kinds(c: Cage, size: u8, a: Seq<CellModel>)
    requires
        shape_ok(c.operation, a.len()),
    ensures
        same_kinds(cage_filter(c, size, a), a),
{
}

proof fn lemma_scatter_kinds(b: Seq<CellModel>, cells: Seq<usize>, sub: Seq<CellModel>, k: nat)
    requires
        k <= cells.len(),
        same_kinds(sub, gather(b, cells)),
        forall|j: int| 0 <= j < cells.len() ==> #[trigger] cells[j] < b.len(),
    ensures
        same_kinds(scatter(b, cells, sub, k), b),
    decreases k,
{
    if k > 0 {
        lemma_scatter_kinds(b, cells, sub, (k - 1) as nat);
        let j = cells[k - 1] as int;
        assert(is_solved(sub[k - 1]) == is_solved(gather(b, cells)[k - 1]));
        assert(gather(b, cells)[k - 1] == b[j]);
    }
}

pub proof fn lemma_apply_cages_kinds(p: KenkenPuzzle, b: Seq<CellModel>, k: nat)
    requires
        well_formed(p),
        b.len() == p.size * p.size,
        k <= p.cages.len(),
    ensures
        same_kinds(apply_cages(p, b, k), b),
    decreases k,
{
    if k > 0 {
        lemma_apply_cages_kinds(p, b, (k - 1) as nat);
        let b1 = apply_cages(p, b, (k - 1) as nat);
        let c = p.cages@[k - 1];
        let g = gather(b1, c.cells@);
        assert(shape_ok(c.operation, c.cells.len() as nat));
        lemma_cage_filter_kinds(c, p.size, g);
        assert(forall|j: int| 0 <= j < c.cells.len() ==> #[trigger] c.cells@[j] < b1.len());
        lemma_scatter_kinds(b1, c.cells@, cage_filter(c, p.size, g), c.cells.len() as nat);
    }
}

pub proof fn lemma_apply_cages_len(p: KenkenPuzzle, b: Seq<CellModel>, k: nat)
    requires
        well_formed(p),
        b.len() == p.size * p.size,
        k <= p.cages.len(),
    ensures
        apply_cages(p, b, k).len() == b.len(),
{
    lemma_apply_cages_kinds(p, b, k);
}

/// A deduction pass never solves or unsolves a cell: promotion does that.
pub proof fn lemma_deduce_kinds(p: KenkenPuzzle, b: Seq<CellModel>)
    requires
        well_formed(p),
        b.len() == p.size * p.size,
    ensures
        same_kinds(deduce(p, b), b),
{
    let n = p.size as nat;
    lemma_apply_cages_kinds(p, b, p.cages.len() as nat);
    let a = apply_cages(p, b, p.cages.len() as nat);
    let r = row_filter(a, n);
    assert(same_kinds(r, a));
    assert(same_kinds(col_filter(r, n), r));
}

pub proof fn lemma_open_count_kinds(a: Seq<CellModel>, b: Seq<CellModel>)
    requires
        same_kinds(a, b),
    ensures
        open_count(a) == open_count(b),
    decreases a.len(),
{
    if a.len() > 0 {
        assert(is_solved(a[a.len() - 1]) == is_solved(b[b.len() - 1]));
        lemma_open_count_kinds(a.drop_last(), b.drop_last());
    }
}

pub proof fn lemma_promote_count(d: Seq<CellModel>)
    ensures
        open_count(promote_all(d)) <= open_count(d),
        any_single(d) ==> open_count(promote_all(d)) < open_count(d),
    decreases d.len(),
{
    if d.len() > 0 {
        let t = d.drop_last();
        assert(promote_all(d).drop_last() =~= promote_all(t));
        lemma_promote_count(t);
        if any_single(d) && !single_at(d.last()) {
            let i = choose|i: int| 0 <= i < d.len() && #[trigger] single_at(d[i]);
            assert(i < d.len() - 1);
            assert(single_at(t[i]));
        }
    }
}

pub proof fn lemma_best_upto(b: Seq<CellModel>, k: nat)
    requires
        k <= b.len(),
    ensures
        best_upto(b, k) matches Some(x) ==> (0 <= x.1 < k && (b[x.1] matches CellModel::Candidates(
            v,
        ) && v.len() == x.0)),
        best_upto(b, k) is None ==> forall|j: int| 0 <= j < k ==> #[trigger] is_solved(b[j]),
    decreases k,
{
    if k > 0 {
        lemma_best_upto(b, (k - 1) as nat);
    }
}

fn get_best_candidate(area: &Vec<Cell>) -> (r: Option<(usize, usize)>)
    ensures
        r is None <==> best_upto(cells_model(area@), area.len() as nat) is None,
        r matches Some(x) ==> best_upto(cells_model(area@), area.len() as nat) == Some(
            (x.0 as nat, x.1 as int),
        ),
{
    let ghost b = cells_model(area@);
    let mut best: Option<(usize, usize)> = None;
    let mut i: usize = 0;
    while i < area.len()
        invariant
            i <= area.len(),
            b == cells_model(area@),
            best is None <==> best_upto(b, i as nat) is None,
            best matches Some(x) ==> best_upto(b, i as nat) == Some((x.0 as nat, x.1 as int)),
        decreases area.len() - i,
    {
        assert(b[i as int] == area@[i as int]@);
        if let Cell::Possible(v) = &area[i] {
            match best {
                Some(x) => {
                    if x.0 > v.len() {
                        best = Some((v.len(), i));
                    }
                },
                None => {
                    best = Some((v.len(), i));
                },
            }
        }
        i += 1;
    }
    best
}

fn grid_values(board: &Vec<Cell>) -> (r: Vec<u8>)
    ensures
        r@ == grid_of(cells_model(board@)),
{
    let mut r: Vec<u8> = Vec::with_capacity(board.len());
    let mut i: usize = 0;
    while i < board.len()
        invariant
            i <= board.len(),
            r@ == grid_of(cells_model(board@)).subrange(0, i as int),
        decreases board.len() - i,
    {
        let v = match &board[i] {
            Cell::Solution(n) => *n,
            Cell::Possible(_) => 0u8,
        };
        r.push(v);
        i += 1;
        assert(r@ =~= grid_of(cells_model(board@)).subrange(0, i as int));
    }
    assert(r@ =~= grid_of(cells_model(board@)));
    r
}

impl Solution {
    /// The solution held by a fully solved `area`, found at `depth`.
    pub fn from_area(area: &Vec<Cell>, size: u8, depth: usize) -> (r: Self)
        requires
            forall|i: int| 0 <= i < area.len() ==> #[trigger] is_solved(area@[i]@),
        ensures
            r.grid.0@ == grid_of(cells_model(area@)),
            r.grid.1 == size,
            r.depth == depth,
    {
        Solution { grid: Grid(grid_values(area), size), depth }
    }
}

impl KenkenPuzzle {
    /// Recursive search from `board` at `depth`.
    fn find_solutions(
        &self,
        board: Vec<Cell>,
        depth: usize,
        max_depth: &usize,
        max_solutions: &usize,
    ) -> (r: Result<Option<Vec<Solution>>, SolverError>)
        requires
            well_formed(*self),
            board.len() == self.size * self.size,
        ensures
            outcome_model(r) == search(
                *self,
                cells_model(board@),
                depth as nat,
                *max_depth as nat,
                *max_solutions as nat,
            ),
            r matches Ok(Some(l)) ==> forall|k: int| 0 <= k < l.len() ==> (#[trigger] l@[k]).grid.1
                == self.size,
        decreases *max_depth + 1 - depth,
    {
        let ghost p = *self;
        let ghost start = cells_model(board@);
        let ghost md = *max_depth as nat;
        let ghost ms = *max_solutions as nat;
        if depth > *max_depth {
            return Err(SolverError::DepthExceeded);
        }
        let mut board = board;
        let mut contradiction = false;
        loop
            invariant_except_break
                settle(p, start) == settle(p, cells_model(board@)),
                !contradiction,
            invariant
                well_formed(*self),
                p == *self,
                board.len() == self.size * self.size,
                depth <= *max_depth,
            ensures
                contradiction ==> settle(p, start) is None,
                !contradiction ==> settle(p, start) == Some(cells_model(board@)),
            decreases open_count(cells_model(board@)),
        {
            let ghost b0 = cells_model(board@);
            self.deduction(&mut board);
            let ghost d = cells_model(board@);
            proof {
                lemma_deduce_kinds(p, b0);
            }
            let mut progress = false;
            let mut i: usize = 0;
            while i < board.len()
                invariant
                    i <= board.len(),
                    d.len() == board.len(),
                    d == deduce(p, b0),
                    p == *self,
                    settle(p, start) == settle(p, b0),
                    depth <= *max_depth,
                    forall|j: int| 0 <= j < i ==> (#[trigger] board@[j])@ == promote(d[j]),
                    forall|j: int| 0 <= j < i ==> !#[trigger] empty_at(d[j]),
                    forall|j: int| i <= j < board.len() ==> (#[trigger] board@[j])@ == d[j],
                    progress <==> exists|j: int| 0 <= j < i && #[trigger] single_at(d[j]),
                    contradiction ==> any_empty(d),
                ensures
                    !contradiction ==> i == board.len(),
                decreases board.len() - i,
            {
                let mut solved: Option<u8> = None;
                if let Cell::Possible(v) = &board[i] {
                    if v.len() == 0 {
                        assert(empty_at(d[i as int]));
                        contradiction = true;
                        break;
                    } else if v.len() == 1 {
                        solved = Some(v[0]);
                    }
                }
                if let Some(x) = solved {
                    board.set(i, Cell::Solution(x));
                    progress = true;
                }
                proof {
                    assert(single_at(d[i as int]) <==> solved is Some);
                }
                i += 1;
            }
            if contradiction {
                assert(settle(p, b0) == None::<Seq<CellModel>>);
                break;
            }
            proof {
                assert(!any_empty(d));
                assert(progress == any_single(d));
                assert(cells_model(board@) =~= promote_all(d));
            }
            if !progress {
                proof {
                    assert forall|j: int| 0 <= j < d.len() implies promote_all(d)[j] == d[j] by {
                        assert(!single_at(d[j]));
                    }
                    assert(promote_all(d) =~= d);
                }
                break;
            }
            proof {
                lemma_open_count_kinds(d, b0);
                lemma_promote_count(d);
            }
        }
        if contradiction {
            return Ok(None);
        }
        let ghost s = cells_model(board@);
        assert(settle(p, start) == Some(s));
        proof {
            lemma_best_upto(s, s.len());
        }
        match get_best_candidate(&board) {
            None => {
                proof {
                    assert forall|i: int| 0 <= i < board.len() implies #[trigger] is_solved(
                        board@[i]@,
                    ) by {
                        assert(s[i] == board@[i]@);
                    }
                }
                let solution = Solution::from_area(&board, self.size, depth);
                if is_valid_solution(self, &solution.grid.0) {
                    let mut found: Vec<Solution> = Vec::new();
                    found.push(solution);
                    assert(solutions_model(found@) =~= seq![(grid_of(s), depth as nat)]);
                    Ok(Some(found))
                } else {
                    Ok(None)
                }
            },
            Some(best) => {
                let ci = best.1;
                let v = match &board[ci] {
                    Cell::Possible(v) => copy_values(v),
                    Cell::Solution(_) => {
                        return Ok(None);
                    },
                };
                if v.len() == 0 {
                    return Ok(None);
                }
                let x = v[0];
                let mut guess = copy_cells(&board);
                guess.set(ci, Cell::Solution(x));
                assert(cells_model(guess@) =~= s.update(ci as int, CellModel::Solved(x)));
                if depth == usize::MAX {
                    assert(search(p, cells_model(guess@), (depth + 1) as nat, md, ms) == Err::<
                        Option<Seq<SolutionModel>>,
                        SolverError,
                    >(SolverError::DepthExceeded));
                    return Err(SolverError::DepthExceeded);
                }
                let mut single: Vec<u8> = Vec::new();
                single.push(x);
                assert(single@ =~= seq![x]);
                let remaining = without_values(&v, &single);
                board.set(ci, Cell::Possible(remaining));
                assert(cells_model(board@) =~= s.update(
                    ci as int,
                    CellModel::Candidates(v@.filter(absent_from(seq![x]))),
                ));
                match self.find_solutions(guess, depth + 1, max_depth, max_solutions) {
                    Err(e) => Err(e),
                    Ok(None) => self.find_solutions(board, depth + 1, max_depth, max_solutions),
                    Ok(Some(l1)) => {
                        if *max_solutions > 0 && l1.len() >= *max_solutions {
                            Ok(Some(l1))
                        } else {
                            let remaining: usize = if *max_solutions == 0 {
                                0
                            } else {
                                *max_solutions - l1.len()
                            };
                            match self.find_solutions(board, depth + 1, max_depth, &remaining) {
                                Err(e) => Err(e),
                                Ok(None) => Ok(Some(l1)),
                                Ok(Some(l2)) => {
                                    let mut l1 = l1;
                                    let mut l2 = l2;
                                    let ghost m1 = solutions_model(l1@);
                                    let ghost m2 = solutions_model(l2@);
                                    let ghost v1 = l1@;
                                    let ghost v2 = l2@;
                                    l1.append(&mut l2);
                                    assert(l1@ == v1 + v2);
                                    assert(solutions_model(l1@) =~= m1 + m2);
                                    Ok(Some(l1))
                                },
                            }
                        }
                    },
                }
            },
        }
    }
}

/// A fresh board admits every solution.
proof fn lemma_initial_consistent(p: KenkenPuzzle)
    ensures
        forall|g: Seq<u8>| #[trigger] is_solution(p, g) ==> consistent(initial_board(p.size), g),
{
    let b = initial_board(p.size);
    assert forall|g: Seq<u8>| #[trigger] is_solution(p, g) implies consistent(b, g) by {
        assert forall|i: int| 0 <= i < b.len() implies #[trigger] allows(b[i], g[i]) by {
            let all = Seq::new(p.size as nat, |v: int| (v + 1) as u8);
            assert(1 <= g[i] <= p.size);
            assert(all[g[i] - 1] == g[i]);
        }
    }
}

impl KenkenPuzzle {
    /// A fresh board: every cell unsolved, with every value from 1 to `size` possible.
    pub fn get_area(&self) -> (r: Vec<Cell>)
        ensures
            cells_model(r@) == initial_board(self.size),
    {
        let ghost all = Seq::new(self.size as nat, |v: int| (v + 1) as u8);
        let mut possible: Vec<u8> = Vec::new();
        let mut v: u16 = 1;
        while v <= self.size as u16
            invariant
                1 <= v <= self.size as u16 + 1,
                all == Seq::new(self.size as nat, |v: int| (v + 1) as u8),
                possible@ == all.subrange(0, v - 1),
            decreases self.size as u16 + 1 - v,
        {
            possible.push(v as u8);
            v += 1;
            assert(possible@ =~= all.subrange(0, v - 1));
        }
        assert(possible@ =~= all);
        assert(self.size * self.size <= 255 * 255) by (nonlinear_arith)
            requires
                self.size <= 255,
        ;
        let n2: usize = self.size as usize * self.size as usize;
        let mut area: Vec<Cell> = Vec::with_capacity(n2);
        let mut i: usize = 0;
        while i < n2
            invariant
                i <= n2,
                n2 == self.size * self.size,
                possible@ == all,
                all == Seq::new(self.size as nat, |v: int| (v + 1) as u8),
                area.len() == i,
                forall|j: int| 0 <= j < i ==> (#[trigger] area@[j])@ == CellModel::Candidates(all),
            decreases n2 - i,
        {
            area.push(Cell::Possible(copy_values(&possible)));
            i += 1;
        }
        assert(cells_model(area@) =~= initial_board(self.size));
        area
    }

    /// Finds and returns solutions to puzzle.
    /// Time to solve rapidly grows with puzzle size.
    /// # Arguments
    /// * `max_depth` - Limits `depth` when solving puzzle. If exceeded, the whole search is
    ///   abandoned with `SolverError::DepthExceeded`. (`depth` counts the guesses on the way
    ///   to a board)
    /// * `max_solutions` - Stops the search once this many solutions have been found in
    ///   all; the exclude branch of a guess only looks for the ones still missing. When set
    ///   to `0` solutions are unlimited.
    pub fn solve(&self, max_depth: &usize, max_solutions: &usize) -> (r: Result<
        Option<Vec<Solution>>,
        SolverError,
    >)
        ensures
            !well_formed(*self) ==> r matches Err(SolverError::MalformedCage),
            well_formed(*self) ==> outcome_model(r) == search(
                *self,
                initial_board(self.size),
                0,
                *max_depth as nat,
                *max_solutions as nat,
            ),
            r matches Ok(Some(l)) ==> forall|k: int| 0 <= k < l.len() ==> (#[trigger] l@[k]).grid.1
                == self.size,
            // Every solution returned solves the puzzle, within the depth bound.
            r matches Ok(Some(l)) ==> l.len() > 0 && forall|k: int|
                0 <= k < l.len() ==> is_solution(*self, (#[trigger] l@[k]).grid.0@) && l@[k].depth
                    <= *max_depth,
            // Never more solutions than a nonzero `max_solutions` asks for.
            r matches Ok(Some(l)) ==> (*max_solutions > 0 ==> l.len() <= *max_solutions),
            // No solution is returned twice.
            r matches Ok(Some(l)) ==> forall|a: int, c: int|
                0 <= a < c < l.len() ==> (#[trigger] l@[a]).grid.0@ != (#[trigger] l@[c]).grid.0@,
            // Unless the count of solutions stopped it, the search returns every solution.
            r matches Ok(Some(l)) ==> ((*max_solutions == 0 || l.len() < *max_solutions)
                ==> forall|g: Seq<u8>|
                #[trigger] is_solution(*self, g) ==> exists|k: int|
                    0 <= k < l.len() && (#[trigger] l@[k]).grid.0@ == g),
            r matches Ok(None) ==> forall|g: Seq<u8>| !#[trigger] is_solution(*self, g),
            // The search is abandoned exactly when it would go deeper than `max_depth`.
            well_formed(*self) ==> (r matches Err(SolverError::DepthExceeded) <==> *max_depth
                < reach(*self, initial_board(self.size), 0, *max_depth as nat, *max_solutions as nat)),
            r matches Err(e) ==> (e == SolverError::MalformedCage <==> !well_formed(*self)),
    {
        if !self.is_well_formed() {
            return Err(SolverError::MalformedCage);
        }
        let area = self.get_area();
        let r = self.find_solutions(area, 0, max_depth, max_solutions);
        proof {
            let b = initial_board(self.size);
            let md = *max_depth as nat;
            let ms = *max_solutions as nat;
            lemma_search(*self, b, 0, md, ms);
            lemma_exceeded_iff(*self, b, 0, md, ms);
            lemma_search_error(*self, b, 0, md, ms);
            lemma_initial_consistent(*self);
            if let Ok(Some(l)) = &r {
                let lm = solutions_model(l@);
                assert forall|k: int| 0 <= k < l.len() implies is_solution(
                    *self,
                    (#[trigger] l@[k]).grid.0@,
                ) && l@[k].depth <= *max_depth by {
                    assert(lm[k] == (l@[k].grid.0@, l@[k].depth as nat));
                }
                assert forall|a: int, c: int| 0 <= a < c < l.len() implies (
                #[trigger] l@[a]).grid.0@ != (#[trigger] l@[c]).grid.0@ by {
                    assert(lm[a].0 == l@[a].grid.0@ && lm[c].0 == l@[c].grid.0@);
                }
                if ms == 0 || l.len() < ms {
                    assert forall|g: Seq<u8>| #[trigger] is_solution(*self, g) implies exists|k: int|
                        0 <= k < l.len() && (#[trigger] l@[k]).grid.0@ == g by {
                        assert(consistent(b, g));
                        assert(found(lm, g));
                        let k = choose|k: int| 0 <= k < lm.len() && (#[trigger] lm[k]).0 == g;
                        assert(l@[k].grid.0@ == g);
                    }
                }
            }
            if let Ok(None) = &r {
                assert forall|g: Seq<u8>| !#[trigger] is_solution(*self, g) by {
                    if is_solution(*self, g) {
                        assert(consistent(b, g));
                        assert(found(seq![], g));
                    }
                }
            }
        }
        r
    }
}

} // verus!
