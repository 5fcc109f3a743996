//! The decisions of the puzzle generator: difficulty bands, acceptance of a generated puzzle,
//! and the pieces of cage building that do not depend on chance.
use vstd::prelude::*;
use crate::{Grid, MathOp};
use crate::search::{Outcome, Solution, initial_board, outcome_model, search, solutions_model};
use crate::sequence_gen::{lemma_product_concat, lemma_product_positive, lemma_sum_concat, lemma_sum_nonneg, product_of, sum_of};
use crate::solution_check::values_at;
use crate::solver::{KenkenPuzzle, SolverError, well_formed};

verus! {

///`Difficulty` defines target difficulty for puzzle from generator
#[derive(Debug, Clone, Copy, PartialEq, Eq, Structural)]
pub enum Difficulty {
    Easy,
    Medium,
    Hard,
    Extreme,
    Any,
}

/// The band of a search depth: 0 easy, 1 to 2 medium, 3 to 5 hard, 6 and more extreme.
pub open spec fn difficulty_of(depth: nat) -> Difficulty {
    if depth == 0 {
        Difficulty::Easy
    } else if depth <= 2 {
        Difficulty::Medium
    } else if depth <= 5 {
        Difficulty::Hard
    } else {
        Difficulty::Extreme
    }
}

/// `Any` accepts every depth; another band accepts the depths of that band.
pub open spec fn accepts_depth(d: Difficulty, depth: nat) -> bool {
    d == Difficulty::Any || d == difficulty_of(depth)
}

impl Difficulty {
    /// The difficulty band of a solution found at `depth`.
    pub fn from_depth(depth: usize) -> (r: Self)
        ensures
            r == difficulty_of(depth as nat),
    {
        if depth == 0 {
            return Difficulty::Easy;
        }
        if depth >= 1 && depth <= 2 {
            return Difficulty::Medium;
        }
        if depth >= 3 && depth <= 5 {
            return Difficulty::Hard;
        }
        Difficulty::Extreme
    }

    /// Whether a solution found at `depth` meets this difficulty.
    pub fn test_depth(&self, depth: usize) -> (r: bool)
        ensures
            r == accepts_depth(*self, depth as nat),
    {
        match self {
            Difficulty::Any => true,
            d => *d == Difficulty::from_depth(depth),
        }
    }
}

/// A search outcome keeps a generated puzzle when it holds a solution, only one when
/// `unique` is asked, and the first solution's depth meets `difficulty`.
pub open spec fn outcome_accepted(o: Outcome, unique: bool, difficulty: Difficulty) -> bool {
    match o {
        Ok(Some(l)) => (!unique || l.len() == 1) && l.len() > 0 && accepts_depth(
            difficulty,
            l[0].1,
        ),
        _ => false,
    }
}

/// A generated puzzle is kept when its search (bound `max_depth`, stopping at two
/// solutions) is accepted.
pub open spec fn puzzle_accepted(
    p: KenkenPuzzle,
    max_depth: nat,
    unique: bool,
    difficulty: Difficulty,
) -> bool {
    well_formed(p) && outcome_accepted(
        search(p, initial_board(p.size), 0, max_depth, 2),
        unique,
        difficulty,
    )
}

/// Whether the outcome of a puzzle's search keeps the puzzle.
pub fn accept_outcome(
    outcome: &Result<Option<Vec<Solution>>, SolverError>,
    unique: bool,
    difficulty: Difficulty,
) -> (r: bool)
    ensures
        r == outcome_accepted(outcome_model(*outcome), unique, difficulty),
{
    match outcome {
        Ok(Some(solutions)) => {
            if solutions.len() == 0 || (solutions.len() != 1 && unique) {
                return false;
            }
            let ghost sm = solutions_model(solutions@);
            assert(sm[0].1 == solutions@[0].depth as nat);
            difficulty.test_depth(solutions[0].depth)
        },
        _ => false,
    }
}

/// Whether a generated puzzle is kept: it has a solution within `max_depth`, a single one
/// when `unique`, and the first one is found at a depth that meets `difficulty`.
pub fn validate_puzzle(
    puzzle: &KenkenPuzzle,
    max_depth: usize,
    unique: bool,
    difficulty: Difficulty,
) -> (r: bool)
    ensures
        r == puzzle_accepted(*puzzle, max_depth as nat, unique, difficulty),
{
    let outcome = puzzle.solve(&max_depth, &2);
    accept_outcome(&outcome, unique, difficulty)
}

/// The steps of the walk that grows a cage.
#[derive(Clone, Copy, Debug)]
pub enum Directions {
    Up,
    Down,
    Left,
    Right,
}

/// The cell next to `cell` in direction `dir` on a board of side `n`, when there is one.
pub open spec fn neighbor_of(cell: nat, n: nat, dir: Directions) -> Option<nat> {
    match dir {
        Directions::Up => if cell / n == 0 {
            None
        } else {
            Some((cell - n) as nat)
        },
        Directions::Down => if cell / n + 1 == n {
            None
        } else {
            Some(cell + n)
        },
        Directions::Left => if cell % n == 0 {
            None
        } else {
            Some((cell - 1) as nat)
        },
        Directions::Right => if cell % n + 1 == n {
            None
        } else {
            Some(cell + 1)
        },
    }
}

/// The cell next to `cell` in direction `dir` on a board of side `size`, if it is on the board.
pub fn neighbor(cell: usize, size: u8, dir: Directions) -> (r: Option<usize>)
    requires
        size > 0,
        cell < size * size,
    ensures
        r matches Some(x) ==> neighbor_of(cell as nat, size as nat, dir) == Some(x as nat),
        r is None ==> neighbor_of(cell as nat, size as nat, dir) is None,
{
    let n = size as usize;
    proof {
        crate::solver::lemma_index_unsplit(cell as int, n as int);
        let q = cell as int / n as int;
        assert(q < n) by (nonlinear_arith)
            requires
                cell == q * n + cell as int % n as int,
                0 <= cell as int % n as int,
                cell < n * n,
        ;
        assert(n * n <= 255 * 255) by (nonlinear_arith)
            requires
                n <= 255,
        ;
        if cell / n == 0 {
        } else {
            assert(cell >= n) by (nonlinear_arith)
                requires
                    cell == q * n + cell as int % n as int,
                    0 <= cell as int % n as int,
                    q >= 1,
            ;
        }
        if q + 1 != n {
            assert(cell + n < n * n) by (nonlinear_arith)
                requires
                    cell == q * n + cell as int % n as int,
                    (cell as int % n as int) < n,
                    q + 1 < n as int,
            ;
        }
    }
    match dir {
        Directions::Up => {
            if cell / n == 0 {
                None
            } else {
                Some(cell - n)
            }
        },
        Directions::Down => {
            if cell / n + 1 == n {
                None
            } else {
                Some(cell + n)
            }
        },
        Directions::Left => {
            if cell % n == 0 {
                None
            } else {
                Some(cell - 1)
            }
        },
        Directions::Right => {
            if cell % n + 1 == n {
                None
            } else {
                Some(cell + 1)
            }
        },
    }
}

/// Every listed cell lies on the grid and holds a value of at least 1.
pub open spec fn cells_on_grid(grid: Grid, cells: Seq<usize>) -> bool {
    forall|j: int|
        0 <= j < cells.len() ==> #[trigger] cells[j] < grid.0@.len() && grid.0@[cells[j] as int]
            >= 1
}

/// Whether a cage of these cells may take operation `op`: addition and multiplication need
/// two cells or more, subtraction two, division two whose values divide, a free cage one.
pub open spec fn operation_fits(op: MathOp, vals: Seq<u8>) -> bool {
    match op {
        MathOp::Add | MathOp::Mul => vals.len() > 1,
        MathOp::Sub => vals.len() == 2,
        MathOp::Div => vals.len() == 2 && (if vals[0] >= vals[1] {
            vals[0] % vals[1] == 0
        } else {
            vals[1] % vals[0] == 0
        }),
        MathOp::Free => vals.len() == 1,
    }
}

/// The target that the grid's values give a cage of these cells under `op`.
pub open spec fn target_of(op: MathOp, vals: Seq<u8>) -> int {
    match op {
        MathOp::Add => sum_of(vals),
        MathOp::Mul => product_of(vals),
        MathOp::Sub => if vals[0] >= vals[1] {
            vals[0] - vals[1]
        } else {
            vals[1] - vals[0]
        },
        MathOp::Div => if vals[0] >= vals[1] {
            (vals[0] / vals[1]) as int
        } else {
            (vals[1] / vals[0]) as int
        },
        MathOp::Free => vals[0] as int,
    }
}

fn cage_values(grid: &Grid, cells: &Vec<usize>) -> (r: Vec<u8>)
    requires
        cells_on_grid(*grid, cells@),
    ensures
        r@ == values_at(grid.0@, cells@),
{
    let mut vals: Vec<u8> = Vec::with_capacity(cells.len());
    let mut j: usize = 0;
    while j < cells.len()
        invariant
            j <= cells.len(),
            cells_on_grid(*grid, cells@),
            vals@ == values_at(grid.0@, cells@).subrange(0, j as int),
        decreases cells.len() - j,
    {
        vals.push(grid.0[cells[j]]);
        j += 1;
        assert(vals@ =~= values_at(grid.0@, cells@).subrange(0, j as int));
    }
    assert(vals@ =~= values_at(grid.0@, cells@));
    vals
}

/// Whether a cage of `cells` on `grid` may take operation `op`.
pub fn operation_allowed(grid: &Grid, cells: &Vec<usize>, op: MathOp) -> (r: bool)
    requires
        cells_on_grid(*grid, cells@),
    ensures
        r == operation_fits(op, values_at(grid.0@, cells@)),
{
    let vals = cage_values(grid, cells);
    let len = vals.len();
    match op {
        MathOp::Add | MathOp::Mul => len > 1,
        MathOp::Sub => len == 2,
        MathOp::Div => {
            if len != 2 {
                return false;
            }
            assert(vals@[0] == grid.0@[cells@[0] as int] && vals@[1] == grid.0@[cells@[1] as int]);
            let (n, m) = (vals[0], vals[1]);
            if n >= m {
                n % m == 0
            } else {
                m % n == 0
            }
        },
        MathOp::Free => len == 1,
    }
}

/// The target of a cage of `cells` under `op`, from the values that `grid` puts there.
pub fn cage_target(grid: &Grid, cells: &Vec<usize>, op: MathOp) -> (r: u32)
    requires
        cells_on_grid(*grid, cells@),
        operation_fits(op, values_at(grid.0@, cells@)) || (op == MathOp::Add && cells.len() == 1)
            || (op == MathOp::Mul && cells.len() == 1),
        target_of(op, values_at(grid.0@, cells@)) <= u32::MAX,
    ensures
        r == target_of(op, values_at(grid.0@, cells@)),
{
    let vals = cage_values(grid, cells);
    let ghost v = vals@;
    assert forall|j: int| 0 <= j < v.len() implies 1 <= #[trigger] v[j] by {
        assert(v[j] == grid.0@[cells@[j] as int]);
    }
    match op {
        MathOp::Add => {
            let mut sum: u64 = 0;
            let mut i: usize = 0;
            proof {
                lemma_sum_nonneg(v);
            }
            assert(v.subrange(0, 0) =~= seq![]);
            while i < vals.len()
                invariant
                    i <= vals.len(),
                    v == vals@,
                    sum_of(v) <= u32::MAX,
                    sum == sum_of(v.subrange(0, i as int)),
                    sum <= sum_of(v),
                decreases vals.len() - i,
            {
                let ghost s1 = v.subrange(0, i + 1);
                assert(s1.drop_last() =~= v.subrange(0, i as int));
                proof {
                    let rest = v.subrange(i + 1, v.len() as int);
                    assert(v =~= s1 + rest);
                    lemma_sum_concat(s1, rest);
                    lemma_sum_nonneg(rest);
                }
                sum = sum + vals[i] as u64;
                i += 1;
            }
            assert(v.subrange(0, i as int) =~= v);
            sum as u32
        },
        MathOp::Mul => {
            let mut product: u64 = 1;
            let mut i: usize = 0;
            proof {
                lemma_product_positive(v);
            }
            assert(v.subrange(0, 0) =~= seq![]);
            while i < vals.len()
                invariant
                    i <= vals.len(),
                    v == vals@,
                    forall|j: int| 0 <= j < v.len() ==> 1 <= #[trigger] v[j],
                    product_of(v) <= u32::MAX,
                    product == product_of(v.subrange(0, i as int)),
                    product <= product_of(v),
                decreases vals.len() - i,
            {
                let ghost s1 = v.subrange(0, i + 1);
                assert(s1.drop_last() =~= v.subrange(0, i as int));
                proof {
                    let rest = v.subrange(i + 1, v.len() as int);
                    assert(v =~= s1 + rest);
                    lemma_product_concat(s1, rest);
                    assert forall|j: int| 0 <= j < rest.len() implies 1 <= #[trigger] rest[j] by {
                        assert(rest[j] == v[i + 1 + j]);
                    }
                    lemma_product_positive(rest);
                    assert forall|j: int| 0 <= j < s1.len() implies 1 <= #[trigger] s1[j] by {
                        assert(s1[j] == v[j]);
                    }
                    lemma_product_positive(s1);
                    assert(product_of(s1) * product_of(rest) >= product_of(s1)) by (nonlinear_arith)
                        requires
                            product_of(s1) >= 1,
                            product_of(rest) >= 1,
                    ;
                }
                product = product * vals[i] as u64;
                i += 1;
            }
            assert(v.subrange(0, i as int) =~= v);
            product as u32
        },
        MathOp::Sub => {
            let (n, m) = (vals[0], vals[1]);
            if n >= m {
                (n - m) as u32
            } else {
                (m - n) as u32
            }
        },
        MathOp::Div => {
            let (n, m) = (vals[0], vals[1]);
            if n >= m {
                (n / m) as u32
            } else {
                (m / n) as u32
            }
        },
        MathOp::Free => vals[0] as u32,
    }
}


} // verus!
