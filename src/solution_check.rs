//! What makes a filled board a solution, and a check of it.
use vstd::prelude::*;
use crate::sequence_gen::{
    is_div_pair,
    is_product_sequence,
    is_sub_pair,
    is_sum_sequence,
    lemma_product_concat,
    lemma_product_positive,
    lemma_sum_concat,
    lemma_sum_nonneg,
    product_of,
    sum_of,
    well_placed,
};
use crate::solver::{Cage, KenkenPuzzle, MathOp, well_formed};

verus! {

/// The values of `g` at the given cells, in order.
pub open spec fn values_at(g: Seq<u8>, cells: Seq<usize>) -> Seq<u8> {
    cells.map_values(|i: usize| g[i as int])
}

/// The cage's values meet its arithmetic.
pub open spec fn cage_holds(c: Cage, size: u8, vals: Seq<u8>) -> bool {
    match c.operation {
        MathOp::Add => is_sum_sequence(vals, vals.len(), size, c.target, None),
        MathOp::Mul => is_product_sequence(vals, vals.len(), size, c.target, None),
        MathOp::Sub => vals.len() == 2 && is_sub_pair(vals[0], vals[1], size, c.target),
        MathOp::Div => vals.len() == 2 && is_div_pair(vals[0], vals[1], size, c.target),
        MathOp::Free => vals.len() == 1 && vals[0] == c.target,
    }
}

/// Cells `i` and `j` of a board of side `n` share a row or a column.
pub open spec fn same_line(i: int, j: int, n: int) -> bool {
    i / n == j / n || i % n == j % n
}

/// `g` fills the board: values in `1..=size`, none twice in a row or a column, and every
/// cage's arithmetic holds.
pub open spec fn is_solution(p: KenkenPuzzle, g: Seq<u8>) -> bool {
    let n = p.size as int;
    &&& g.len() == n * n
    &&& forall|i: int| 0 <= i < g.len() ==> 1 <= #[trigger] g[i] <= n
    &&& forall|i: int, j: int|
        0 <= i < j < g.len() && same_line(i, j, n) ==> #[trigger] g[i] != #[trigger] g[j]
    &&& forall|k: int|
        0 <= k < p.cages.len() ==> cage_holds(
            #[trigger] p.cages@[k],
            p.size,
            values_at(g, p.cages@[k].cells@),
        )
}


fn check_placed(vals: &Vec<u8>, size: u8) -> (r: bool)
    ensures
        r == well_placed(vals@, size, None),
{
    let mut i: usize = 0;
    while i < vals.len()
        invariant
            i <= vals.len(),
            forall|j: int| 0 <= j < i ==> 1 <= #[trigger] vals@[j] <= size,
            forall|j: int| 0 < j < i ==> vals@[j - 1] != #[trigger] vals@[j],
        decreases vals.len() - i,
    {
        if vals[i] < 1 || vals[i] > size {
            return false;
        }
        if i > 0 && vals[i - 1] == vals[i] {
            return false;
        }
        i += 1;
    }
    true
}

fn check_sum(vals: &Vec<u8>, size: u8, target: u32) -> (r: bool)
    ensures
        r == is_sum_sequence(vals@, vals.len() as nat, size, target, None),
{
    if !check_placed(vals, size) {
        return false;
    }
    let mut sum: u64 = 0;
    let mut i: usize = 0;
    assert(vals@.subrange(0, 0) =~= seq![]);
    while i < vals.len()
        invariant
            i <= vals.len(),
            sum == sum_of(vals@.subrange(0, i as int)),
            sum <= target,
        decreases vals.len() - i,
    {
        let ghost s1 = vals@.subrange(0, i + 1);
        assert(s1.drop_last() =~= vals@.subrange(0, i as int));
        sum = sum + vals[i] as u64;
        i += 1;
        if sum > target as u64 {
            proof {
                let rest = vals@.subrange(i as int, vals.len() as int);
                assert(vals@ =~= vals@.subrange(0, i as int) + rest);
                lemma_sum_concat(vals@.subrange(0, i as int), rest);
                lemma_sum_nonneg(rest);
            }
            return false;
        }
    }
    assert(vals@.subrange(0, i as int) =~= vals@);
    sum == target as u64
}

fn check_product(vals: &Vec<u8>, size: u8, target: u32) -> (r: bool)
    ensures
        r == is_product_sequence(vals@, vals.len() as nat, size, target, None),
{
    if !check_placed(vals, size) {
        return false;
    }
    if target == 0 {
        proof {
            lemma_product_positive(vals@);
        }
        return false;
    }
    let mut product: u64 = 1;
    let mut i: usize = 0;
    assert(vals@.subrange(0, 0) =~= seq![]);
    while i < vals.len()
        invariant
            i <= vals.len(),
            product == product_of(vals@.subrange(0, i as int)),
            product <= target,
            well_placed(vals@, size, None),
        decreases vals.len() - i,
    {
        let ghost s1 = vals@.subrange(0, i + 1);
        assert(s1.drop_last() =~= vals@.subrange(0, i as int));
        assert(product * vals[i as int] <= product * 255) by (nonlinear_arith)
            requires
                vals[i as int] <= 255,
        ;
        product = product * vals[i] as u64;
        i += 1;
        if product > target as u64 {
            proof {
                let pre = vals@.subrange(0, i as int);
                let rest = vals@.subrange(i as int, vals.len() as int);
                assert(vals@ =~= pre + rest);
                lemma_product_concat(pre, rest);
                assert forall|j: int| 0 <= j < rest.len() implies 1 <= #[trigger] rest[j] by {
                    assert(rest[j] == vals@[i + j]);
                }
                lemma_product_positive(rest);
                assert(product_of(pre) * product_of(rest) >= product_of(pre)) by (nonlinear_arith)
                    requires
                        product_of(pre) >= 0,
                        product_of(rest) >= 1,
                ;
            }
            return false;
        }
    }
    assert(vals@.subrange(0, i as int) =~= vals@);
    product == target as u64
}

fn check_pair_range(a: u8, b: u8, size: u8) -> (r: bool)
    ensures
        r == (1 <= a <= size && 1 <= b <= size && a != b),
{
    1 <= a && a <= size && 1 <= b && b <= size && a != b
}

/// Whether the values of the cage's cells in `g` meet its arithmetic.
fn check_cage(c: &Cage, size: u8, g: &Vec<u8>) -> (r: bool)
    requires
        forall|j: int| 0 <= j < c.cells.len() ==> #[trigger] c.cells@[j] < g.len(),
    ensures
        r == cage_holds(*c, size, values_at(g@, c.cells@)),
{
    let mut vals: Vec<u8> = Vec::with_capacity(c.cells.len());
    let mut j: usize = 0;
    while j < c.cells.len()
        invariant
            j <= c.cells.len(),
            forall|t: int| 0 <= t < c.cells.len() ==> #[trigger] c.cells@[t] < g.len(),
            vals@ == values_at(g@, c.cells@).subrange(0, j as int),
        decreases c.cells.len() - j,
    {
        vals.push(g[c.cells[j]]);
        j += 1;
        assert(vals@ =~= values_at(g@, c.cells@).subrange(0, j as int));
    }
    assert(vals@ =~= values_at(g@, c.cells@));
    match c.operation {
        MathOp::Add => check_sum(&vals, size, c.target),
        MathOp::Mul => check_product(&vals, size, c.target),
        MathOp::Sub => {
            if vals.len() != 2 {
                return false;
            }
            let a = vals[0];
            let b = vals[1];
            if !check_pair_range(a, b, size) {
                return false;
            }
            if a > b {
                (a - b) as u32 == c.target
            } else {
                (b - a) as u32 == c.target
            }
        },
        MathOp::Div => {
            if vals.len() != 2 {
                return false;
            }
            let a = vals[0];
            let b = vals[1];
            if !check_pair_range(a, b, size) {
                return false;
            }
            (a % b == 0 && (a / b) as u32 == c.target) || (b % a == 0 && (b / a) as u32
                == c.target)
        },
        MathOp::Free => vals.len() == 1 && vals[0] as u32 == c.target,
    }
}

/// Whether `g` is a solution of the puzzle.
pub fn is_valid_solution(p: &KenkenPuzzle, g: &Vec<u8>) -> (r: bool)
    requires
        well_formed(*p),
    ensures
        r == is_solution(*p, g@),
{
    let n = p.size as usize;
    assert(n * n <= 255 * 255) by (nonlinear_arith)
        requires
            n <= 255,
    ;
    if g.len() != n * n {
        return false;
    }
    let mut i: usize = 0;
    while i < g.len()
        invariant
            i <= g.len(),
            n == p.size,
            forall|j: int| 0 <= j < i ==> 1 <= #[trigger] g@[j] <= n,
        decreases g.len() - i,
    {
        if g[i] < 1 || g[i] as usize > n {
            assert(!(1 <= g@[i as int] <= p.size as int));
            return false;
        }
        i += 1;
    }
    let mut i: usize = 0;
    while i < g.len()
        invariant
            i <= g.len(),
            g.len() == n * n,
            n == p.size,
            forall|a: int, b: int|
                0 <= a < i && a < b < g.len() && same_line(a, b, n as int) ==> #[trigger] g@[a]
                    != #[trigger] g@[b],
        decreases g.len() - i,
    {
        if n == 0 {
            assert(n * n == 0) by (nonlinear_arith)
                requires
                    n == 0,
            ;
        }
        let mut j: usize = i + 1;
        while j < g.len()
            invariant
                i < j <= g.len(),
                g.len() == n * n,
                n == p.size,
                n > 0,
                forall|a: int, b: int|
                    0 <= a < i && a < b < g.len() && same_line(a, b, n as int) ==> #[trigger] g@[a]
                        != #[trigger] g@[b],
                forall|b: int|
                    i < b < j && same_line(i as int, b, n as int) ==> g@[i as int]
                        != #[trigger] g@[b],
            decreases g.len() - j,
        {
            if (i / n == j / n || i % n == j % n) && g[i] == g[j] {
                assert(same_line(i as int, j as int, n as int));
                assert(g@[i as int] == g@[j as int]);
                return false;
            }
            j += 1;
        }
        i += 1;
    }
    let mut k: usize = 0;
    while k < p.cages.len()
        invariant
            k <= p.cages.len(),
            well_formed(*p),
            g.len() == n * n,
            n == p.size,
            forall|t: int|
                0 <= t < k ==> cage_holds(
                    #[trigger] p.cages@[t],
                    p.size,
                    values_at(g@, p.cages@[t].cells@),
                ),
        decreases p.cages.len() - k,
    {
        let c = &p.cages[k];
        assert(forall|j: int| 0 <= j < c.cells.len() ==> #[trigger] c.cells@[j] < g.len());
        if !check_cage(c, p.size, g) {
            assert(!cage_holds(p.cages@[k as int], p.size, values_at(g@, p.cages@[k as int].cells@)));
            return false;
        }
        k += 1;
    }
    true
}

} // verus!
