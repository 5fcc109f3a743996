//! Why the search is right: deduction only narrows what each cell admits, and never rules
//! out a value that some solution consistent with the board gives that cell.
use vstd::prelude::*;
use crate::cell::{CellModel, allows, consistent, is_solved};
use crate::search::{
    any_empty,
    any_single,
    best_upto,
    empty_at,
    grid_of,
    open_count,
    promote_all,
    search,
    settle,
    budget_after,
    explores_rest,
    rest_budget,
    lemma_best_upto,
    lemma_deduce_kinds,
    lemma_open_count_kinds,
    lemma_promote_count,
    single_at,
    Outcome,
    SolutionModel,
};
use crate::sequence_gen::{
    div_base,
    lemma_div_base_members,
    lemma_mul_tree_members,
    lemma_orient_members,
    lemma_sub_base_members,
    lemma_sum_tree_members,
    mul_tree,
    orient,
    sub_base,
    sum_tree,
    well_placed,
};
use crate::solution_check::{cage_holds, is_solution, same_line, values_at};
use crate::solver::{
    Cage,
    KenkenPuzzle,
    MathOp,
    absent_from,
    apply_cages,
    apply_seqs,
    cage_filter,
    col_filter,
    col_of,
    column_upto,
    deduce,
    free_values,
    fixed_values,
    gather,
    pairs_as_seqs,
    row_filter,
    row_of,
    scatter,
    shape_ok,
    strip,
    well_formed,
    lemma_index_split,
    lemma_index_unsplit,
};

verus! {

/// Every value that a cell of `a` admits, the cell at the same place of `b` admits too.
pub open spec fn narrows(a: Seq<CellModel>, b: Seq<CellModel>) -> bool {
    &&& a.len() == b.len()
    &&& forall|i: int, v: u8| 0 <= i < a.len() && #[trigger] allows(a[i], v) ==> allows(b[i], v)
}

proof fn lemma_narrows_consistent(a: Seq<CellModel>, b: Seq<CellModel>, g: Seq<u8>)
    requires
        narrows(a, b),
        consistent(a, g),
    ensures
        consistent(b, g),
{
    assert forall|i: int| 0 <= i < b.len() implies #[trigger] allows(b[i], g[i]) by {
        assert(allows(a[i], g[i]));
    }
}

proof fn lemma_push_contains(d: Seq<u8>, v: u8, x: u8)
    ensures
        d.push(v).contains(x) <==> d.contains(x) || x == v,
{
    if d.contains(x) {
        let k = choose|k: int| 0 <= k < d.len() && d[k] == x;
        assert(d.push(v)[k] == x);
    }
    if x == v {
        assert(d.push(v)[d.len() as int] == x);
    }
    if d.push(v).contains(x) {
        let k = choose|k: int| 0 <= k < d.len() + 1 && d.push(v)[k] == x;
        if k < d.len() {
            assert(d[k] == x);
        }
    }
}

/// The values collected at position `i` are exactly those that some sequence has there.
pub proof fn lemma_column_members(seqs: Seq<Seq<u8>>, i: int, k: nat, x: u8)
    requires
        k <= seqs.len(),
    ensures
        column_upto(seqs, i, k).contains(x) <==> exists|j: int|
            0 <= j < k && #[trigger] seqs[j][i] == x,
    decreases k,
{
    if k > 0 {
        lemma_column_members(seqs, i, (k - 1) as nat, x);
        let d = column_upto(seqs, i, (k - 1) as nat);
        let v = seqs[k - 1][i];
        lemma_push_contains(d, v, x);
        if exists|j: int| 0 <= j < k && #[trigger] seqs[j][i] == x {
            let j = choose|j: int| 0 <= j < k && #[trigger] seqs[j][i] == x;
            if j < k - 1 {
                assert(d.contains(x));
            }
        }
        if d.contains(v) && x == v {
            let j = choose|j: int| 0 <= j < k - 1 && #[trigger] seqs[j][i] == v;
        }
    }
}

/// Keeping the values of sequences that fit the area only narrows the area.
proof fn lemma_apply_seqs_narrows(area: Seq<CellModel>, seqs: Seq<Seq<u8>>)
    requires
        forall|j: int|
            0 <= j < seqs.len() ==> (#[trigger] seqs[j]).len() == area.len() && forall|i: int|
                0 <= i < area.len() ==> allows(area[i], #[trigger] seqs[j][i]),
    ensures
        narrows(apply_seqs(area, seqs), area),
{
    let r = apply_seqs(area, seqs);
    assert forall|i: int, v: u8| 0 <= i < r.len() && #[trigger] allows(r[i], v) implies allows(
        area[i],
        v,
    ) by {
        if area[i] is Candidates {
            lemma_column_members(seqs, i, seqs.len(), v);
            let j = choose|j: int| 0 <= j < seqs.len() && #[trigger] seqs[j][i] == v;
            assert(seqs[j].len() == area.len());
        }
    }
}

/// A sequence among `seqs` that the area admits is still admitted after keeping their values.
proof fn lemma_apply_seqs_consistent(area: Seq<CellModel>, seqs: Seq<Seq<u8>>, vals: Seq<u8>)
    requires
        seqs.contains(vals),
        consistent(area, vals),
    ensures
        consistent(apply_seqs(area, seqs), vals),
{
    let j = choose|j: int| 0 <= j < seqs.len() && seqs[j] == vals;
    let r = apply_seqs(area, seqs);
    assert forall|i: int| 0 <= i < r.len() implies #[trigger] allows(r[i], vals[i]) by {
        assert(allows(area[i], vals[i]));
        if area[i] is Candidates {
            assert(seqs[j][i] == vals[i]);
            lemma_column_members(seqs, i, seqs.len(), vals[i]);
        }
    }
}

proof fn lemma_pair_seqs_fit(base: Seq<(u8, u8)>, area: Seq<CellModel>)
    requires
        area.len() == 2,
    ensures
        forall|j: int|
            0 <= j < pairs_as_seqs(orient(base, Some((area[0], area[1])))).len() ==> (
            #[trigger] pairs_as_seqs(orient(base, Some((area[0], area[1]))))[j]).len()
                == area.len() && forall|i: int|
                0 <= i < area.len() ==> allows(
                    area[i],
                    #[trigger] pairs_as_seqs(orient(base, Some((area[0], area[1]))))[j][i],
                ),
{
    let o = orient(base, Some((area[0], area[1])));
    let ps = pairs_as_seqs(o);
    assert forall|j: int| 0 <= j < ps.len() implies (#[trigger] ps[j]).len() == area.len()
        && forall|i: int| 0 <= i < area.len() ==> allows(area[i], #[trigger] ps[j][i]) by {
        let p = o[j];
        assert(o.contains(p));
        lemma_orient_members(base, Some((area[0], area[1])), p);
        assert(ps[j] == seq![p.0, p.1]);
    }
}

/// What a cage leaves possible is no more than what was possible.
pub proof fn lemma_cage_filter_narrows(c: Cage, size: u8, area: Seq<CellModel>)
    requires
        shape_ok(c.operation, area.len()),
        c.operation == MathOp::Free ==> is_solved(area[0]),
    ensures
        narrows(cage_filter(c, size, area), area),
{
    let t = c.target;
    match c.operation {
        MathOp::Add => {
            let seqs = sum_tree(seq![], area.len(), size, t, Some(area));
            assert forall|j: int| 0 <= j < seqs.len() implies (#[trigger] seqs[j]).len()
                == area.len() && forall|i: int|
                0 <= i < area.len() ==> allows(area[i], #[trigger] seqs[j][i]) by {
                assert(seqs.contains(seqs[j]));
                lemma_sum_tree_members(seq![], area.len(), size, t, Some(area), seqs[j]);
                assert forall|i: int| 0 <= i < area.len() implies allows(
                    area[i],
                    #[trigger] seqs[j][i],
                ) by {
                    assert(well_placed(seqs[j], size, Some(area)));
                    assert(crate::sequence_gen::fits(Some(area), i, seqs[j][i]));
                }
            }
            lemma_apply_seqs_narrows(area, seqs);
        },
        MathOp::Mul => {
            let seqs = mul_tree(seq![], area.len(), size, t, Some(area));
            assert forall|j: int| 0 <= j < seqs.len() implies (#[trigger] seqs[j]).len()
                == area.len() && forall|i: int|
                0 <= i < area.len() ==> allows(area[i], #[trigger] seqs[j][i]) by {
                assert(seqs.contains(seqs[j]));
                lemma_mul_tree_members(seq![], area.len(), size, t, Some(area), seqs[j]);
                assert forall|i: int| 0 <= i < area.len() implies allows(
                    area[i],
                    #[trigger] seqs[j][i],
                ) by {
                    assert(well_placed(seqs[j], size, Some(area)));
                    assert(crate::sequence_gen::fits(Some(area), i, seqs[j][i]));
                }
            }
            lemma_apply_seqs_narrows(area, seqs);
        },
        MathOp::Sub => {
            lemma_pair_seqs_fit(sub_base(size, t, size as nat), area);
            lemma_apply_seqs_narrows(
                area,
                pairs_as_seqs(orient(sub_base(size, t, size as nat), Some((area[0], area[1])))),
            );
        },
        MathOp::Div => {
            lemma_pair_seqs_fit(div_base(size, t, size as nat), area);
            lemma_apply_seqs_narrows(
                area,
                pairs_as_seqs(orient(div_base(size, t, size as nat), Some((area[0], area[1])))),
            );
        },
        MathOp::Free => {
            assert(cage_filter(c, size, area) == area);
        },
    }
}

/// Values meeting the cage's arithmetic, and admitted by its cells, stay admitted.
pub proof fn lemma_cage_filter_consistent(c: Cage, size: u8, area: Seq<CellModel>, vals: Seq<u8>)
    requires
        shape_ok(c.operation, area.len()),
        cage_holds(c, size, vals),
        consistent(area, vals),
    ensures
        consistent(cage_filter(c, size, area), vals),
{
    let t = c.target;
    let am = Some(area);
    match c.operation {
        MathOp::Add => {
            assert forall|i: int| 0 <= i < vals.len() implies #[trigger] crate::sequence_gen::fits(
                am,
                i,
                vals[i],
            ) by {
                assert(allows(area[i], vals[i]));
            }
            lemma_sum_tree_members(seq![], area.len(), size, t, am, vals);
            assert(vals.subrange(0, 0) =~= seq![]);
            lemma_apply_seqs_consistent(area, sum_tree(seq![], area.len(), size, t, am), vals);
        },
        MathOp::Mul => {
            assert forall|i: int| 0 <= i < vals.len() implies #[trigger] crate::sequence_gen::fits(
                am,
                i,
                vals[i],
            ) by {
                assert(allows(area[i], vals[i]));
            }
            lemma_mul_tree_members(seq![], area.len(), size, t, am, vals);
            assert(vals.subrange(0, 0) =~= seq![]);
            lemma_apply_seqs_consistent(area, mul_tree(seq![], area.len(), size, t, am), vals);
        },
        MathOp::Sub => {
            let p = (vals[0], vals[1]);
            let base = sub_base(size, t, size as nat);
            let pa = Some((area[0], area[1]));
            assert(allows(area[0], vals[0]) && allows(area[1], vals[1]));
            lemma_orient_members(base, pa, p);
            lemma_sub_base_members(size, t, size as nat, p);
            lemma_sub_base_members(size, t, size as nat, (p.1, p.0));
            let o = orient(base, pa);
            let k = choose|k: int| 0 <= k < o.len() && o[k] == p;
            assert(pairs_as_seqs(o)[k] =~= vals);
            lemma_apply_seqs_consistent(area, pairs_as_seqs(o), vals);
        },
        MathOp::Div => {
            let p = (vals[0], vals[1]);
            let base = div_base(size, t, size as nat);
            let pa = Some((area[0], area[1]));
            assert(allows(area[0], vals[0]) && allows(area[1], vals[1]));
            lemma_orient_members(base, pa, p);
            lemma_div_base_members(size, t, size as nat, p);
            lemma_div_base_members(size, t, size as nat, (p.1, p.0));
            let o = orient(base, pa);
            let k = choose|k: int| 0 <= k < o.len() && o[k] == p;
            assert(pairs_as_seqs(o)[k] =~= vals);
            lemma_apply_seqs_consistent(area, pairs_as_seqs(o), vals);
        },
        MathOp::Free => {
            let r = cage_filter(c, size, area);
            assert(allows(area[0], vals[0]));
            assert(free_values(t)[0] == vals[0]);
            assert(allows(r[0], vals[0]));
        },
    }
}

proof fn lemma_narrows_trans(a: Seq<CellModel>, b: Seq<CellModel>, c: Seq<CellModel>)
    requires
        narrows(a, b),
        narrows(b, c),
    ensures
        narrows(a, c),
{
    assert forall|i: int, v: u8| 0 <= i < a.len() && #[trigger] allows(a[i], v) implies allows(
        c[i],
        v,
    ) by {
        assert(allows(b[i], v));
    }
}

proof fn lemma_scatter_narrows(b: Seq<CellModel>, cells: Seq<usize>, sub: Seq<CellModel>, k: nat)
    requires
        k <= cells.len(),
        narrows(sub, gather(b, cells)),
        forall|j: int| 0 <= j < cells.len() ==> #[trigger] cells[j] < b.len(),
    ensures
        narrows(scatter(b, cells, sub, k), b),
    decreases k,
{
    if k > 0 {
        lemma_scatter_narrows(b, cells, sub, (k - 1) as nat);
        let prev = scatter(b, cells, sub, (k - 1) as nat);
        let r = scatter(b, cells, sub, k);
        let idx = cells[k - 1] as int;
        assert forall|i: int, v: u8| 0 <= i < r.len() && #[trigger] allows(r[i], v) implies allows(
            b[i],
            v,
        ) by {
            if i == idx {
                assert(allows(sub[k - 1], v));
                assert(gather(b, cells)[k - 1] == b[idx]);
            } else {
                assert(allows(prev[i], v));
            }
        }
    }
}

proof fn lemma_scatter_consistent(
    b: Seq<CellModel>,
    cells: Seq<usize>,
    sub: Seq<CellModel>,
    k: nat,
    g: Seq<u8>,
)
    requires
        k <= cells.len(),
        consistent(b, g),
        consistent(sub, values_at(g, cells)),
        forall|j: int| 0 <= j < cells.len() ==> #[trigger] cells[j] < b.len(),
    ensures
        consistent(scatter(b, cells, sub, k), g),
    decreases k,
{
    if k > 0 {
        lemma_scatter_consistent(b, cells, sub, (k - 1) as nat, g);
        let prev = scatter(b, cells, sub, (k - 1) as nat);
        let r = scatter(b, cells, sub, k);
        let idx = cells[k - 1] as int;
        assert forall|i: int| 0 <= i < r.len() implies #[trigger] allows(r[i], g[i]) by {
            if i == idx {
                assert(allows(sub[k - 1], values_at(g, cells)[k - 1]));
            } else {
                assert(allows(prev[i], g[i]));
            }
        }
    }
}

proof fn lemma_apply_cages(p: KenkenPuzzle, b: Seq<CellModel>, k: nat)
    requires
        well_formed(p),
        b.len() == p.size * p.size,
        k <= p.cages.len(),
    ensures
        free_solved(p, b) ==> narrows(apply_cages(p, b, k), b),
        forall|g: Seq<u8>|
            is_solution(p, g) && consistent(b, g) ==> #[trigger] consistent(
                apply_cages(p, b, k),
                g,
            ),
    decreases k,
{
    if k == 0 {
        assert forall|i: int, v: u8| 0 <= i < b.len() && #[trigger] allows(b[i], v) implies allows(
            b[i],
            v,
        ) by {}
    } else {
        lemma_apply_cages(p, b, (k - 1) as nat);
        let b1 = apply_cages(p, b, (k - 1) as nat);
        let c = p.cages@[k - 1];
        let cells = c.cells@;
        let gb = gather(b1, cells);
        let sub = cage_filter(c, p.size, gb);
        assert(shape_ok(c.operation, c.cells.len() as nat));
        crate::search::lemma_apply_cages_len(p, b, (k - 1) as nat);
        assert(forall|j: int| 0 <= j < cells.len() ==> #[trigger] cells[j] < b1.len());
        if free_solved(p, b) {
            crate::search::lemma_apply_cages_kinds(p, b, (k - 1) as nat);
            if c.operation == MathOp::Free {
                assert(is_solved(b[p.cages@[k - 1].cells@[0] as int]));
                assert(gb[0] == b1[cells[0] as int]);
                assert(is_solved(b1[cells[0] as int]));
            }
            lemma_cage_filter_narrows(c, p.size, gb);
            lemma_scatter_narrows(b1, cells, sub, cells.len());
            lemma_narrows_trans(apply_cages(p, b, k), b1, b);
        }
        assert forall|g: Seq<u8>| is_solution(p, g) && consistent(b, g) implies #[trigger] consistent(
            apply_cages(p, b, k),
            g,
        ) by {
            assert(consistent(b1, g));
            let vals = values_at(g, cells);
            assert forall|j: int| 0 <= j < gb.len() implies #[trigger] allows(gb[j], vals[j]) by {
                assert(allows(b1[cells[j] as int], g[cells[j] as int]));
            }
            assert(cage_holds(p.cages@[k - 1], p.size, values_at(g, p.cages@[k - 1].cells@)));
            lemma_cage_filter_consistent(c, p.size, gb, vals);
            lemma_scatter_consistent(b1, cells, sub, cells.len(), g);
        }
    }
}

proof fn lemma_strip_narrows(c: CellModel, out: Seq<u8>, v: u8)
    requires
        allows(strip(c, out), v),
    ensures
        allows(c, v),
{
    if let CellModel::Candidates(w) = c {
        w.lemma_filter_contains_rev(absent_from(out), v);
    }
}

proof fn lemma_fixed_values_members(cells: Seq<CellModel>, x: u8)
    requires
        fixed_values(cells).contains(x),
    ensures
        exists|k: int| 0 <= k < cells.len() && cells[k] == CellModel::Solved(x),
    decreases cells.len(),
{
    let d = fixed_values(cells.drop_last());
    if let CellModel::Solved(n) = cells.last() {
        lemma_push_contains(d, n, x);
        if x != n {
            lemma_fixed_values_members(cells.drop_last(), x);
            let k = choose|k: int| 0 <= k < cells.len() - 1 && cells.drop_last()[k]
                == CellModel::Solved(x);
            assert(cells[k] == CellModel::Solved(x));
        } else {
            assert(cells[cells.len() - 1] == CellModel::Solved(x));
        }
    } else {
        lemma_fixed_values_members(cells.drop_last(), x);
        let k = choose|k: int| 0 <= k < cells.len() - 1 && cells.drop_last()[k] == CellModel::Solved(
            x,
        );
        assert(cells[k] == CellModel::Solved(x));
    }
}

/// A cell keeps the value `g` gives it when no other solved cell in `line` holds that value.
proof fn lemma_strip_keeps(c: CellModel, out: Seq<u8>, x: u8)
    requires
        allows(c, x),
        c is Candidates ==> !out.contains(x),
    ensures
        allows(strip(c, out), x),
{
    if let CellModel::Candidates(w) = c {
        let k = choose|k: int| 0 <= k < w.len() && w[k] == x;
        w.lemma_filter_contains(absent_from(out), k);
    }
}

proof fn lemma_row_filter(p: KenkenPuzzle, b: Seq<CellModel>)
    requires
        b.len() == p.size * p.size,
    ensures
        narrows(row_filter(b, p.size as nat), b),
        forall|g: Seq<u8>|
            is_solution(p, g) && consistent(b, g) ==> #[trigger] consistent(
                row_filter(b, p.size as nat),
                g,
            ),
{
    let n = p.size as nat;
    let r = row_filter(b, n);
    assert forall|i: int, v: u8| 0 <= i < r.len() && #[trigger] allows(r[i], v) implies allows(
        b[i],
        v,
    ) by {
        lemma_strip_narrows(b[i], fixed_values(row_of(b, n, i / n as int)), v);
    }
    assert forall|g: Seq<u8>| is_solution(p, g) && consistent(b, g) implies #[trigger] consistent(
        r,
        g,
    ) by {
        assert forall|i: int| 0 <= i < r.len() implies #[trigger] allows(r[i], g[i]) by {
            assert(allows(b[i], g[i]));
            lemma_index_unsplit(i, n as int);
            let q = i / n as int;
            assert(q < n) by (nonlinear_arith)
                requires
                    i == q * n + i % (n as int),
                    0 <= i % (n as int),
                    i < n * n,
            ;
            assert(q * n + n <= n * n) by (nonlinear_arith)
                requires
                    q < n,
            ;
            let row = row_of(b, n, q);
            let out = fixed_values(row);
            if b[i] is Candidates && out.contains(g[i]) {
                lemma_fixed_values_members(row, g[i]);
                let k = choose|k: int| 0 <= k < row.len() && row[k] == CellModel::Solved(g[i]);
                let j = q * n + k;
                assert(row[k] == b[j]);
                lemma_index_split(j, n as int, q, k);
                assert(allows(b[j], g[j]));
                assert(same_line(i, j, n as int));
                if i < j {
                    assert(g[i] != g[j]);
                } else {
                    assert(j < i);
                    assert(same_line(j, i, n as int));
                    assert(g[j] != g[i]);
                }
            }
            lemma_strip_keeps(b[i], out, g[i]);
        }
    }
}

proof fn lemma_col_filter(p: KenkenPuzzle, b: Seq<CellModel>)
    requires
        b.len() == p.size * p.size,
    ensures
        narrows(col_filter(b, p.size as nat), b),
        forall|g: Seq<u8>|
            is_solution(p, g) && consistent(b, g) ==> #[trigger] consistent(
                col_filter(b, p.size as nat),
                g,
            ),
{
    let n = p.size as nat;
    let r = col_filter(b, n);
    assert forall|i: int, v: u8| 0 <= i < r.len() && #[trigger] allows(r[i], v) implies allows(
        b[i],
        v,
    ) by {
        lemma_strip_narrows(b[i], fixed_values(col_of(b, n, i % n as int)), v);
    }
    assert forall|g: Seq<u8>| is_solution(p, g) && consistent(b, g) implies #[trigger] consistent(
        r,
        g,
    ) by {
        assert forall|i: int| 0 <= i < r.len() implies #[trigger] allows(r[i], g[i]) by {
            assert(allows(b[i], g[i]));
            lemma_index_unsplit(i, n as int);
            let c = i % n as int;
            let col = col_of(b, n, c);
            let out = fixed_values(col);
            if b[i] is Candidates && out.contains(g[i]) {
                lemma_fixed_values_members(col, g[i]);
                let k = choose|k: int| 0 <= k < col.len() && col[k] == CellModel::Solved(g[i]);
                let j = k * n + c;
                assert(j < n * n) by (nonlinear_arith)
                    requires
                        j == k * n + c,
                        0 <= k < n,
                        0 <= c < n,
                ;
                assert(col[k] == b[j]);
                lemma_index_split(j, n as int, k, c);
                assert(allows(b[j], g[j]));
                assert(same_line(i, j, n as int));
                if i < j {
                    assert(g[i] != g[j]);
                } else {
                    assert(j < i);
                    assert(same_line(j, i, n as int));
                    assert(g[j] != g[i]);
                }
            }
            lemma_strip_keeps(b[i], out, g[i]);
        }
    }
}

/// A deduction pass only narrows the board, and keeps every solution that the board admits.
/// The cell of every free cage is solved.
pub open spec fn free_solved(p: KenkenPuzzle, b: Seq<CellModel>) -> bool {
    forall|k: int|
        0 <= k < p.cages.len() && (#[trigger] p.cages@[k]).operation == MathOp::Free ==> is_solved(
            b[p.cages@[k].cells@[0] as int],
        )
}

/// Solved, or with one candidate at most.
pub open spec fn small(c: CellModel) -> bool {
    match c {
        CellModel::Solved(_) => true,
        CellModel::Candidates(v) => v.len() <= 1,
    }
}

/// Among the first `k` cages, the cell of every free one is small.
pub open spec fn free_small_upto(p: KenkenPuzzle, b: Seq<CellModel>, k: nat) -> bool {
    forall|j: int|
        0 <= j < k && (#[trigger] p.cages@[j]).operation == MathOp::Free ==> small(
            b[p.cages@[j].cells@[0] as int],
        )
}

pub open spec fn free_small(p: KenkenPuzzle, b: Seq<CellModel>) -> bool {
    free_small_upto(p, b, p.cages.len() as nat)
}

proof fn lemma_column_no_dup(seqs: Seq<Seq<u8>>, i: int, k: nat)
    ensures
        column_upto(seqs, i, k).no_duplicates(),
    decreases k,
{
    if k > 0 {
        lemma_column_no_dup(seqs, i, (k - 1) as nat);
        let d = column_upto(seqs, i, (k - 1) as nat);
        let v = seqs[k - 1][i];
        if !d.contains(v) {
            let e = d.push(v);
            assert forall|a: int, c: int| 0 <= a < e.len() && 0 <= c < e.len() && a != c implies e[a]
                != e[c] by {
                if c == d.len() {
                    assert(e[a] == d[a]);
                } else if a == d.len() {
                    assert(e[c] == d[c]);
                }
            }
        }
    }
}

/// Distinct values, all among at most one value, are at most one.
proof fn lemma_few_distinct(u: Seq<u8>, w: Seq<u8>)
    requires
        u.no_duplicates(),
        forall|x: u8| u.contains(x) ==> w.contains(x),
        w.len() <= 1,
    ensures
        u.len() <= 1,
{
    if u.len() >= 2 {
        assert(u.contains(u[0]));
        assert(u.contains(u[1]));
        assert(w.contains(u[0]));
        assert(w.contains(u[1]));
        assert(u[0] != u[1]);
    }
}

/// A cage keeps a small cell small, and leaves a free cage's cell small.
proof fn lemma_cage_filter_small(c: Cage, size: u8, area: Seq<CellModel>, j: int)
    requires
        shape_ok(c.operation, area.len()),
        0 <= j < area.len(),
        small(area[j]) || c.operation == MathOp::Free,
    ensures
        small(cage_filter(c, size, area)[j]),
{
    let r = cage_filter(c, size, area);
    if c.operation == MathOp::Free {
    } else {
        lemma_cage_filter_narrows(c, size, area);
        if let CellModel::Candidates(w) = area[j] {
            let seqs = match c.operation {
                MathOp::Add => sum_tree(seq![], area.len(), size, c.target, Some(area)),
                MathOp::Mul => mul_tree(seq![], area.len(), size, c.target, Some(area)),
                MathOp::Sub => pairs_as_seqs(
                    orient(sub_base(size, c.target, size as nat), Some((area[0], area[1]))),
                ),
                _ => pairs_as_seqs(
                    orient(div_base(size, c.target, size as nat), Some((area[0], area[1]))),
                ),
            };
            assert(r == apply_seqs(area, seqs));
            let u = column_upto(seqs, j, seqs.len());
            assert(r[j] == CellModel::Candidates(u));
            lemma_column_no_dup(seqs, j, seqs.len());
            assert forall|x: u8| u.contains(x) implies w.contains(x) by {
                assert(allows(r[j], x));
            }
            lemma_few_distinct(u, w);
        }
    }
}

/// A cell of the board after the writes of a cage is the old cell, or one of the cage's
/// new cells written to it.
proof fn lemma_scatter_source(
    b: Seq<CellModel>,
    cells: Seq<usize>,
    sub: Seq<CellModel>,
    k: nat,
    c: int,
)
    requires
        k <= cells.len(),
        0 <= c < b.len(),
        forall|j: int| 0 <= j < cells.len() ==> #[trigger] cells[j] < b.len(),
    ensures
        scatter(b, cells, sub, k).len() == b.len(),
        scatter(b, cells, sub, k)[c] == b[c] || exists|j: int|
            0 <= j < k && cells[j] == c && scatter(b, cells, sub, k)[c] == #[trigger] sub[j],
    decreases k,
{
    if k > 0 {
        lemma_scatter_source(b, cells, sub, (k - 1) as nat, c);
        if cells[k - 1] as int == c {
            assert(scatter(b, cells, sub, k)[c] == sub[k - 1]);
        }
    }
}

proof fn lemma_apply_cages_free_small(p: KenkenPuzzle, b: Seq<CellModel>, k: nat)
    requires
        well_formed(p),
        b.len() == p.size * p.size,
        k <= p.cages.len(),
    ensures
        free_small_upto(p, apply_cages(p, b, k), k),
    decreases k,
{
    if k > 0 {
        lemma_apply_cages_free_small(p, b, (k - 1) as nat);
        crate::search::lemma_apply_cages_len(p, b, (k - 1) as nat);
        let b1 = apply_cages(p, b, (k - 1) as nat);
        let c = p.cages@[k - 1];
        let cells = c.cells@;
        let gb = gather(b1, cells);
        let sub = cage_filter(c, p.size, gb);
        let nb = apply_cages(p, b, k);
        assert(shape_ok(c.operation, c.cells.len() as nat));
        assert(forall|j: int| 0 <= j < cells.len() ==> #[trigger] cells[j] < b1.len());
        assert forall|j: int|
            0 <= j < k && (#[trigger] p.cages@[j]).operation == MathOp::Free implies small(
            nb[p.cages@[j].cells@[0] as int],
        ) by {
            let cj = p.cages@[j].cells@[0] as int;
            assert(p.cages@[j].cells@[0] < p.size * p.size);
            lemma_scatter_source(b1, cells, sub, cells.len(), cj);
            if j == k - 1 {
                assert(scatter(b1, cells, sub, 0) == b1);
                assert(nb == scatter(b1, cells, sub, 1));
                assert(nb[cj] == sub[0]);
                lemma_cage_filter_small(c, p.size, gb, 0);
            } else {
                assert(small(b1[cj]));
                if nb[cj] != b1[cj] {
                    let t = choose|t: int| 0 <= t < cells.len() && cells[t] == cj && nb[cj] == #[trigger] sub[t];
                    assert(gb[t] == b1[cj]);
                    lemma_cage_filter_small(c, p.size, gb, t);
                }
            }
        }
    }
}

proof fn lemma_strip_small(c: CellModel, out: Seq<u8>)
    requires
        small(c),
    ensures
        small(strip(c, out)),
{
    if let CellModel::Candidates(v) = c {
        v.lemma_filter_len(absent_from(out));
    }
}

/// After a deduction pass, the cell of every free cage is small.
proof fn lemma_deduce_free_small(p: KenkenPuzzle, b: Seq<CellModel>)
    requires
        well_formed(p),
        b.len() == p.size * p.size,
    ensures
        free_small(p, deduce(p, b)),
{
    let n = p.size as nat;
    lemma_apply_cages_free_small(p, b, p.cages.len() as nat);
    crate::search::lemma_apply_cages_len(p, b, p.cages.len() as nat);
    let a = apply_cages(p, b, p.cages.len() as nat);
    let r = row_filter(a, n);
    let d = deduce(p, b);
    assert forall|j: int|
        0 <= j < p.cages.len() && (#[trigger] p.cages@[j]).operation == MathOp::Free implies small(
        d[p.cages@[j].cells@[0] as int],
    ) by {
        let c = p.cages@[j].cells@[0] as int;
        assert(p.cages@[j].cells@[0] < p.size * p.size);
        lemma_strip_small(a[c], fixed_values(row_of(a, n, c / n as int)));
        lemma_strip_small(r[c], fixed_values(col_of(r, n, c % n as int)));
    }
}

pub proof fn lemma_deduce(p: KenkenPuzzle, b: Seq<CellModel>)
    requires
        well_formed(p),
        b.len() == p.size * p.size,
    ensures
        free_solved(p, b) ==> narrows(deduce(p, b), b),
        forall|g: Seq<u8>|
            is_solution(p, g) && consistent(b, g) ==> #[trigger] consistent(deduce(p, b), g),
        free_small(p, deduce(p, b)),
{
    lemma_deduce_free_small(p, b);
    let n = p.size as nat;
    lemma_apply_cages(p, b, p.cages.len() as nat);
    let a = apply_cages(p, b, p.cages.len() as nat);
    crate::search::lemma_apply_cages_len(p, b, p.cages.len() as nat);
    lemma_row_filter(p, a);
    let r = row_filter(a, n);
    lemma_col_filter(p, r);
    if free_solved(p, b) {
        lemma_narrows_trans(r, a, b);
        lemma_narrows_trans(deduce(p, b), r, b);
    }
    assert forall|g: Seq<u8>| is_solution(p, g) && consistent(b, g) implies #[trigger] consistent(
        deduce(p, b),
        g,
    ) by {
        assert(consistent(a, g));
        assert(consistent(r, g));
    }
}

proof fn lemma_promote(d: Seq<CellModel>)
    ensures
        narrows(promote_all(d), d),
        forall|g: Seq<u8>| consistent(d, g) ==> #[trigger] consistent(promote_all(d), g),
{
    let e = promote_all(d);
    assert forall|i: int, v: u8| 0 <= i < e.len() && #[trigger] allows(e[i], v) implies allows(
        d[i],
        v,
    ) by {
        if let CellModel::Candidates(w) = d[i] {
            if w.len() == 1 {
                assert(w[0] == v);
            }
        }
    }
    assert forall|g: Seq<u8>| consistent(d, g) implies #[trigger] consistent(e, g) by {
        assert forall|i: int| 0 <= i < e.len() implies #[trigger] allows(e[i], g[i]) by {
            assert(allows(d[i], g[i]));
        }
    }
}

/// Settling leaves a board that still admits `g`.
pub open spec fn kept_by_settle(p: KenkenPuzzle, b: Seq<CellModel>, g: Seq<u8>) -> bool {
    settle(p, b) matches Some(s) && consistent(s, g)
}

/// Settling only narrows the board, and keeps every solution that the board admits.
pub proof fn lemma_settle(p: KenkenPuzzle, b: Seq<CellModel>)
    requires
        well_formed(p),
        b.len() == p.size * p.size,
    ensures
        settle(p, b) matches Some(s) ==> (free_solved(p, b) ==> narrows(s, b)) && free_solved(p, s)
            && s.len() == b.len(),
        forall|g: Seq<u8>| is_solution(p, g) && consistent(b, g) ==> #[trigger] kept_by_settle(p, b, g),
    decreases open_count(b),
{
    let d = deduce(p, b);
    lemma_deduce(p, b);
    lemma_deduce_kinds(p, b);
    if !any_empty(d) && !any_single(d) {
        assert forall|k: int|
            0 <= k < p.cages.len() && (#[trigger] p.cages@[k]).operation == MathOp::Free implies is_solved(
            d[p.cages@[k].cells@[0] as int],
        ) by {
            let c = p.cages@[k].cells@[0] as int;
            assert(small(d[c]));
            assert(!empty_at(d[c]));
            assert(!single_at(d[c]));
        }
    }
    if any_empty(d) {
        assert forall|g: Seq<u8>| is_solution(p, g) && consistent(b, g) implies #[trigger] kept_by_settle(
            p,
            b,
            g,
        ) by {
            let i = choose|i: int| 0 <= i < d.len() && #[trigger] empty_at(d[i]);
            assert(consistent(d, g));
            assert(allows(d[i], g[i]));
        }
    } else if any_single(d) {
        let e = promote_all(d);
        lemma_promote(d);
        if open_count(e) < open_count(b) {
            lemma_settle(p, e);
            if free_solved(p, b) {
                assert forall|k: int|
                    0 <= k < p.cages.len() && (#[trigger] p.cages@[k]).operation == MathOp::Free implies is_solved(
                    e[p.cages@[k].cells@[0] as int],
                ) by {
                    let c = p.cages@[k].cells@[0] as int;
                    assert(is_solved(b[c]) == is_solved(d[c]));
                }
                if let Some(s) = settle(p, e) {
                    lemma_narrows_trans(s, e, d);
                    lemma_narrows_trans(s, d, b);
                }
            }
            assert forall|g: Seq<u8>| is_solution(p, g) && consistent(b, g) implies #[trigger] kept_by_settle(
                p,
                b,
                g,
            ) by {
                assert(consistent(d, g));
                assert(consistent(e, g));
                assert(kept_by_settle(p, e, g));
                assert(settle(p, b) == settle(p, e));
            }
        } else {
            lemma_deduce_kinds(p, b);
            lemma_open_count_kinds(d, b);
            lemma_promote_count(d);
        }
    } else {
        assert forall|g: Seq<u8>| is_solution(p, g) && consistent(b, g) implies #[trigger] kept_by_settle(
            p,
            b,
            g,
        ) by {
            assert(consistent(d, g));
        }
    }
}

/// Some solution in `l` has the values `g`.
pub open spec fn found(l: Seq<SolutionModel>, g: Seq<u8>) -> bool {
    exists|k: int| 0 <= k < l.len() && (#[trigger] l[k]).0 == g
}

/// The solutions that an outcome holds; none for `Ok(None)` and for an error.
pub open spec fn outcome_list(r: Outcome) -> Seq<SolutionModel> {
    match r {
        Ok(Some(l)) => l,
        _ => seq![],
    }
}

/// Each solution in `l` solves the puzzle and was found at a depth from `depth` to
/// `max_depth`.
pub open spec fn sound_list(p: KenkenPuzzle, l: Seq<SolutionModel>, depth: nat, max_depth: nat) -> bool {
    forall|k: int|
        0 <= k < l.len() ==> {
            &&& is_solution(p, (#[trigger] l[k]).0)
            &&& depth <= l[k].1 <= max_depth
        }
}

/// Board `b` admits each solution in `l`.
pub open spec fn admitted(b: Seq<CellModel>, l: Seq<SolutionModel>) -> bool {
    forall|k: int| 0 <= k < l.len() ==> consistent(b, (#[trigger] l[k]).0)
}

/// No two solutions in `l` have the same values.
pub open spec fn distinct_grids(l: Seq<SolutionModel>) -> bool {
    forall|a: int, c: int| 0 <= a < c < l.len() ==> (#[trigger] l[a]).0 != (#[trigger] l[c]).0
}

/// Every solution of the puzzle that `b` admits is in `l`.
pub open spec fn covers(p: KenkenPuzzle, b: Seq<CellModel>, l: Seq<SolutionModel>) -> bool {
    forall|g: Seq<u8>| #[trigger] is_solution(p, g) && consistent(b, g) ==> found(l, g)
}

proof fn lemma_all_solved_grid(s: Seq<CellModel>, g: Seq<u8>)
    requires
        forall|j: int| 0 <= j < s.len() ==> #[trigger] is_solved(s[j]),
    ensures
        consistent(s, grid_of(s)),
        consistent(s, g) ==> g == grid_of(s),
{
    assert forall|i: int| 0 <= i < s.len() implies #[trigger] allows(s[i], grid_of(s)[i]) by {
        assert(is_solved(s[i]));
    }
    if consistent(s, g) {
        assert forall|i: int| 0 <= i < s.len() implies g[i] == grid_of(s)[i] by {
            assert(is_solved(s[i]));
            assert(allows(s[i], g[i]));
        }
        assert(g =~= grid_of(s));
    }
}

/// The search returns solutions only, each once, each admitted by the board; and when it
/// stops neither on the depth bound nor on the count of solutions, it returns all of them.
pub proof fn lemma_search(p: KenkenPuzzle, b: Seq<CellModel>, depth: nat, max_depth: nat, m: nat)
    requires
        well_formed(p),
        b.len() == p.size * p.size,
    ensures
        search(p, b, depth, max_depth, m) matches Ok(Some(l)) ==> l.len() > 0 && sound_list(
            p,
            l,
            depth,
            max_depth,
        ) && distinct_grids(l) && (free_solved(p, b) ==> admitted(b, l)) && (m > 0 ==> l.len()
            <= m),
        search(p, b, depth, max_depth, m) is Ok && (m == 0 || outcome_list(
            search(p, b, depth, max_depth, m),
        ).len() < m) ==> covers(p, b, outcome_list(search(p, b, depth, max_depth, m))),
    decreases max_depth + 1 - depth,
{
    let res = search(p, b, depth, max_depth, m);
    if depth > max_depth {
        return;
    }
    lemma_settle(p, b);
    match settle(p, b) {
        None => {
            assert forall|g: Seq<u8>| #[trigger] is_solution(p, g) && consistent(b, g) implies found(
                outcome_list(res),
                g,
            ) by {
                assert(kept_by_settle(p, b, g));
            }
        },
        Some(s) => {
            lemma_best_upto(s, s.len());
            match best_upto(s, s.len()) {
                None => {
                    lemma_all_solved_grid(s, grid_of(s));
                    if is_solution(p, grid_of(s)) {
                        let l = seq![(grid_of(s), depth)];
                        assert(res == Ok::<Option<Seq<SolutionModel>>, crate::solver::SolverError>(
                            Some(l),
                        ));
                        if free_solved(p, b) {
                            lemma_narrows_consistent(s, b, grid_of(s));
                        }
                        assert(l[0] == (grid_of(s), depth));
                        assert forall|g: Seq<u8>| #[trigger] is_solution(p, g) && consistent(
                            b,
                            g,
                        ) implies found(l, g) by {
                            assert(kept_by_settle(p, b, g));
                            lemma_all_solved_grid(s, g);
                        }
                    } else {
                        assert forall|g: Seq<u8>| #[trigger] is_solution(p, g) && consistent(
                            b,
                            g,
                        ) implies found(outcome_list(res), g) by {
                            assert(kept_by_settle(p, b, g));
                            lemma_all_solved_grid(s, g);
                        }
                    }
                },
                Some(best) => {
                    let i = best.1;
                    match s[i] {
                        CellModel::Solved(_) => {},
                        CellModel::Candidates(v) => {
                            if v.len() > 0 {
                                lemma_search_branch(p, b, s, i, v, depth, max_depth, m);
                            } else {
                                assert forall|g: Seq<u8>| #[trigger] is_solution(p, g) && consistent(
                                    b,
                                    g,
                                ) implies found(outcome_list(res), g) by {
                                    assert(kept_by_settle(p, b, g));
                                    assert(allows(s[i], g[i]));
                                }
                            }
                        },
                    }
                },
            }
        },
    }
}

proof fn lemma_single_contains(x: u8, y: u8)
    ensures
        seq![x].contains(y) <==> y == x,
{
    if y == x {
        assert(seq![x][0] == x);
    }
}

proof fn lemma_search_branch(
    p: KenkenPuzzle,
    b: Seq<CellModel>,
    s: Seq<CellModel>,
    i: int,
    v: Seq<u8>,
    depth: nat,
    max_depth: nat,
    m: nat,
)
    requires
        well_formed(p),
        b.len() == p.size * p.size,
        depth <= max_depth,
        settle(p, b) == Some(s),
        free_solved(p, b) ==> narrows(s, b),
        free_solved(p, s),
        s.len() == b.len(),
        forall|g: Seq<u8>| is_solution(p, g) && consistent(b, g) ==> #[trigger] kept_by_settle(p, b, g),
        best_upto(s, s.len()) matches Some(best) && best.1 == i,
        0 <= i < s.len(),
        s[i] == CellModel::Candidates(v),
        v.len() > 0,
    ensures
        search(p, b, depth, max_depth, m) matches Ok(Some(l)) ==> l.len() > 0 && sound_list(
            p,
            l,
            depth,
            max_depth,
        ) && distinct_grids(l) && (free_solved(p, b) ==> admitted(b, l)) && (m > 0 ==> l.len()
            <= m),
        search(p, b, depth, max_depth, m) is Ok && (m == 0 || outcome_list(
            search(p, b, depth, max_depth, m),
        ).len() < m) ==> covers(p, b, outcome_list(search(p, b, depth, max_depth, m))),
    decreases max_depth + 1 - depth, 0nat,
{
    let x = v[0];
    let guess = s.update(i, CellModel::Solved(x));
    let rest = s.update(i, CellModel::Candidates(v.filter(absent_from(seq![x]))));
    let res = search(p, b, depth, max_depth, m);
    let d1 = (depth + 1) as nat;
    lemma_search(p, guess, d1, max_depth, m);
    let r1 = search(p, guess, d1, max_depth, m);
    let m2 = rest_budget(m, r1);
    lemma_search(p, rest, d1, max_depth, m2);
    let r2 = search(p, rest, d1, max_depth, m2);
    // The two boards only narrow `s`.
    assert forall|j: int, y: u8| 0 <= j < guess.len() && #[trigger] allows(guess[j], y) implies allows(
        s[j],
        y,
    ) by {
        if j == i {
            assert(v[0] == y);
        }
    }
    assert forall|j: int, y: u8| 0 <= j < rest.len() && #[trigger] allows(rest[j], y) implies allows(
        s[j],
        y,
    ) by {
        if j == i {
            v.lemma_filter_contains_rev(absent_from(seq![x]), y);
        }
    }
    if free_solved(p, b) {
        lemma_narrows_trans(guess, s, b);
        lemma_narrows_trans(rest, s, b);
    }
    // The guessed cell is no free cage's: those are solved in `s`.
    assert forall|k: int|
        0 <= k < p.cages.len() && (#[trigger] p.cages@[k]).operation == MathOp::Free implies is_solved(
        guess[p.cages@[k].cells@[0] as int],
    ) && is_solved(rest[p.cages@[k].cells@[0] as int]) by {
        let c = p.cages@[k].cells@[0] as int;
        assert(is_solved(s[c]));
        assert(c != i);
    }
    // What the guess finds has `x` at `i`; what the rest finds does not.
    assert forall|g: Seq<u8>| consistent(guess, g) implies g[i] == x by {
        assert(allows(guess[i], g[i]));
    }
    assert forall|g: Seq<u8>| consistent(rest, g) implies g[i] != x by {
        assert(allows(rest[i], g[i]));
        v.lemma_filter_contains_rev(absent_from(seq![x]), g[i]);
        lemma_single_contains(x, g[i]);
    }
    // A solution admitted by `b` is admitted by one of the two boards.
    assert forall|g: Seq<u8>| #[trigger] is_solution(p, g) && consistent(b, g) implies (g[i] == x
        && consistent(guess, g)) || (g[i] != x && consistent(rest, g)) by {
        assert(kept_by_settle(p, b, g));
        assert(consistent(s, g));
        assert(allows(s[i], g[i]));
        if g[i] == x {
            assert forall|j: int| 0 <= j < guess.len() implies #[trigger] allows(guess[j], g[j]) by {
                assert(allows(s[j], g[j]));
            }
        } else {
            assert forall|j: int| 0 <= j < rest.len() implies #[trigger] allows(rest[j], g[j]) by {
                assert(allows(s[j], g[j]));
                if j == i {
                    let k = choose|k: int| 0 <= k < v.len() && v[k] == g[i];
                    lemma_single_contains(x, g[i]);
                    v.lemma_filter_contains(absent_from(seq![x]), k);
                }
            }
        }
    }
    // What each part admits, `b` admits.
    assert forall|l: Seq<SolutionModel>| free_solved(p, b) && #[trigger] admitted(guess, l) implies admitted(
        b,
        l,
    ) by {
        assert forall|k: int| 0 <= k < l.len() implies consistent(b, (#[trigger] l[k]).0) by {
            lemma_narrows_consistent(guess, b, l[k].0);
        }
    }
    assert forall|l: Seq<SolutionModel>| free_solved(p, b) && #[trigger] admitted(rest, l) implies admitted(
        b,
        l,
    ) by {
        assert forall|k: int| 0 <= k < l.len() implies consistent(b, (#[trigger] l[k]).0) by {
            lemma_narrows_consistent(rest, b, l[k].0);
        }
    }
    match r1 {
        Err(_) => {},
        Ok(None) => {
            assert(res == r2);
            if r2 is Ok && (m == 0 || outcome_list(r2).len() < m) {
                assert forall|g: Seq<u8>| #[trigger] is_solution(p, g) && consistent(b, g) implies found(
                    outcome_list(r2),
                    g,
                ) by {
                    if g[i] == x && consistent(guess, g) {
                        assert(found(outcome_list(r1), g));
                    }
                }
            }
        },
        Ok(Some(l1)) => {
            if m > 0 && l1.len() >= m {
            } else {
                assert(m2 == budget_after(m, l1.len()));
                match r2 {
                    Err(_) => {},
                    Ok(None) => {
                        assert(res == r1);
                        if m == 0 || l1.len() < m {
                            assert forall|g: Seq<u8>| #[trigger] is_solution(p, g) && consistent(
                                b,
                                g,
                            ) implies found(l1, g) by {
                                if g[i] != x && consistent(rest, g) {
                                    assert(found(outcome_list(r2), g));
                                }
                            }
                        }
                    },
                    Ok(Some(l2)) => {
                        let l = l1 + l2;
                        assert(res == Ok::<Option<Seq<SolutionModel>>, crate::solver::SolverError>(
                            Some(l),
                        ));
                        assert forall|k: int| 0 <= k < l.len() implies {
                            &&& is_solution(p, (#[trigger] l[k]).0)
                            &&& depth <= l[k].1 <= max_depth
                            &&& free_solved(p, b) ==> consistent(b, l[k].0)
                        } by {
                            if k < l1.len() {
                                assert(l[k] == l1[k]);
                            } else {
                                assert(l[k] == l2[k - l1.len()]);
                            }
                        }
                        assert forall|a: int, c: int| 0 <= a < c < l.len() implies (
                        #[trigger] l[a]).0 != (#[trigger] l[c]).0 by {
                            if c < l1.len() {
                                assert(l[a] == l1[a] && l[c] == l1[c]);
                            } else if a >= l1.len() {
                                assert(l[a] == l2[a - l1.len()] && l[c] == l2[c - l1.len()]);
                            } else {
                                assert(l[a] == l1[a] && l[c] == l2[c - l1.len()]);
                                assert(consistent(guess, l1[a].0));
                                assert(consistent(rest, l2[c - l1.len()].0));
                            }
                        }
                        if m == 0 || l.len() < m {
                            assert forall|g: Seq<u8>| #[trigger] is_solution(p, g) && consistent(
                                b,
                                g,
                            ) implies found(l, g) by {
                                if g[i] == x && consistent(guess, g) {
                                    assert(found(l1, g));
                                    let k = choose|k: int| 0 <= k < l1.len() && (#[trigger] l1[k]).0
                                        == g;
                                    assert(l[k] == l1[k]);
                                } else {
                                    assert(found(l2, g));
                                    let k = choose|k: int| 0 <= k < l2.len() && (#[trigger] l2[k]).0
                                        == g;
                                    assert(l[l1.len() + k] == l2[k]);
                                }
                            }
                        }
                    },
                }
            }
        },
    }
}

/// The deepest level that the search from `b` at `depth` enters, bound `max_depth` included:
/// a search that enters a level past the bound stops there.
pub open spec fn reach(p: KenkenPuzzle, b: Seq<CellModel>, depth: nat, max_depth: nat, m: nat) -> nat
    decreases max_depth + 1 - depth,
{
    if depth > max_depth {
        depth
    } else {
        match settle(p, b) {
            None => depth,
            Some(s) => match best_upto(s, s.len()) {
                None => depth,
                Some(best) => match s[best.1] {
                    CellModel::Solved(_) => depth,
                    CellModel::Candidates(v) => if v.len() == 0 {
                        depth
                    } else {
                        let x = v[0];
                        let guess = s.update(best.1, CellModel::Solved(x));
                        let rest = s.update(
                            best.1,
                            CellModel::Candidates(v.filter(absent_from(seq![x]))),
                        );
                        let r1 = search(p, guess, depth + 1, max_depth, m);
                        let h1 = reach(p, guess, depth + 1, max_depth, m);
                        let h2 = reach(p, rest, depth + 1, max_depth, rest_budget(m, r1));
                        if explores_rest(m, r1) && h2 > h1 {
                            h2
                        } else {
                            h1
                        }
                    },
                },
            },
        }
    }
}

/// A search that ends without hitting its bound stays within it.
proof fn lemma_reach_within(p: KenkenPuzzle, b: Seq<CellModel>, depth: nat, max_depth: nat, m: nat)
    requires
        search(p, b, depth, max_depth, m) is Ok,
    ensures
        depth <= reach(p, b, depth, max_depth, m) <= max_depth,
    decreases max_depth + 1 - depth,
{
    if let Some(s) = settle(p, b) {
        if let Some(best) = best_upto(s, s.len()) {
            if let CellModel::Candidates(v) = s[best.1] {
                if v.len() > 0 {
                    let x = v[0];
                    let guess = s.update(best.1, CellModel::Solved(x));
                    let rest = s.update(
                        best.1,
                        CellModel::Candidates(v.filter(absent_from(seq![x]))),
                    );
                    let r1 = search(p, guess, depth + 1, max_depth, m);
                    if r1 is Ok {
                        lemma_reach_within(p, guess, depth + 1, max_depth, m);
                    }
                    let m2 = rest_budget(m, r1);
                    if explores_rest(m, r1) && search(p, rest, depth + 1, max_depth, m2) is Ok {
                        lemma_reach_within(p, rest, depth + 1, max_depth, m2);
                    }
                }
            }
        }
    }
}

/// A search that hits its bound goes past it.
proof fn lemma_reach_exceeds(p: KenkenPuzzle, b: Seq<CellModel>, depth: nat, max_depth: nat, m: nat)
    requires
        search(p, b, depth, max_depth, m) is Err,
    ensures
        max_depth < reach(p, b, depth, max_depth, m),
    decreases max_depth + 1 - depth,
{
    if depth <= max_depth {
        if let Some(s) = settle(p, b) {
            if let Some(best) = best_upto(s, s.len()) {
                if let CellModel::Candidates(v) = s[best.1] {
                    if v.len() > 0 {
                        let x = v[0];
                        let guess = s.update(best.1, CellModel::Solved(x));
                        let rest = s.update(
                            best.1,
                            CellModel::Candidates(v.filter(absent_from(seq![x]))),
                        );
                        let r1 = search(p, guess, depth + 1, max_depth, m);
                        if r1 is Err {
                            lemma_reach_exceeds(p, guess, depth + 1, max_depth, m);
                        } else {
                            lemma_reach_exceeds(p, rest, depth + 1, max_depth, rest_budget(m, r1));
                        }
                    }
                }
            }
        }
    }
}

/// The only way the search fails is on its depth bound.
pub proof fn lemma_search_error(p: KenkenPuzzle, b: Seq<CellModel>, depth: nat, max_depth: nat, m: nat)
    ensures
        search(p, b, depth, max_depth, m) is Err ==> search(p, b, depth, max_depth, m) == Err::<
            Option<Seq<SolutionModel>>,
            crate::solver::SolverError,
        >(crate::solver::SolverError::DepthExceeded),
    decreases max_depth + 1 - depth,
{
    if depth <= max_depth {
        if let Some(s) = settle(p, b) {
            if let Some(best) = best_upto(s, s.len()) {
                if let CellModel::Candidates(v) = s[best.1] {
                    if v.len() > 0 {
                        let x = v[0];
                        let guess = s.update(best.1, CellModel::Solved(x));
                        let rest = s.update(
                            best.1,
                            CellModel::Candidates(v.filter(absent_from(seq![x]))),
                        );
                        lemma_search_error(p, guess, depth + 1, max_depth, m);
                        lemma_search_error(
                            p,
                            rest,
                            depth + 1,
                            max_depth,
                            rest_budget(m, search(p, guess, depth + 1, max_depth, m)),
                        );
                    }
                }
            }
        }
    }
}

/// The search hits its bound exactly when it would go past it.
pub proof fn lemma_exceeded_iff(p: KenkenPuzzle, b: Seq<CellModel>, depth: nat, max_depth: nat, m: nat)
    ensures
        search(p, b, depth, max_depth, m) is Err <==> max_depth < reach(
            p,
            b,
            depth,
            max_depth,
            m,
        ),
{
    if search(p, b, depth, max_depth, m) is Err {
        lemma_reach_exceeds(p, b, depth, max_depth, m);
    } else {
        lemma_reach_within(p, b, depth, max_depth, m);
    }
}

/// A bound that the search never went past gives the same outcome as the larger bound.
proof fn lemma_bound_unused(p: KenkenPuzzle, b: Seq<CellModel>, depth: nat, low: nat, high: nat, m: nat)
    requires
        low <= high,
        search(p, b, depth, high, m) is Ok,
        reach(p, b, depth, high, m) <= low,
    ensures
        search(p, b, depth, low, m) == search(p, b, depth, high, m),
        reach(p, b, depth, low, m) == reach(p, b, depth, high, m),
    decreases high + 1 - depth,
{
    lemma_reach_within(p, b, depth, high, m);
    if let Some(s) = settle(p, b) {
        if let Some(best) = best_upto(s, s.len()) {
            if let CellModel::Candidates(v) = s[best.1] {
                if v.len() > 0 {
                    let x = v[0];
                    let guess = s.update(best.1, CellModel::Solved(x));
                    let rest = s.update(
                        best.1,
                        CellModel::Candidates(v.filter(absent_from(seq![x]))),
                    );
                    let r1 = search(p, guess, depth + 1, high, m);
                    if r1 is Ok {
                        lemma_bound_unused(p, guess, depth + 1, low, high, m);
                        let m2 = rest_budget(m, r1);
                        if explores_rest(m, r1) && search(p, rest, depth + 1, high, m2) is Ok {
                            lemma_bound_unused(p, rest, depth + 1, low, high, m2);
                        }
                    }
                }
            }
        }
    }
}

/// A bound below the depth that the search reaches makes it stop on the bound.
proof fn lemma_bound_too_low(p: KenkenPuzzle, b: Seq<CellModel>, depth: nat, low: nat, high: nat, m: nat)
    requires
        low <= high,
        search(p, b, depth, high, m) is Ok,
        low < reach(p, b, depth, high, m),
    ensures
        search(p, b, depth, low, m) is Err,
    decreases high + 1 - depth,
{
    if depth <= low {
        if let Some(s) = settle(p, b) {
            if let Some(best) = best_upto(s, s.len()) {
                if let CellModel::Candidates(v) = s[best.1] {
                    if v.len() > 0 {
                        let x = v[0];
                        let guess = s.update(best.1, CellModel::Solved(x));
                        let rest = s.update(
                            best.1,
                            CellModel::Candidates(v.filter(absent_from(seq![x]))),
                        );
                        let r1 = search(p, guess, depth + 1, high, m);
                        let h1 = reach(p, guess, depth + 1, high, m);
                        if low < h1 {
                            lemma_bound_too_low(p, guess, depth + 1, low, high, m);
                        } else {
                            lemma_bound_unused(p, guess, depth + 1, low, high, m);
                            lemma_bound_too_low(p, rest, depth + 1, low, high, rest_budget(m, r1));
                        }
                    }
                }
            }
        }
    }
}

/// The depth bound only decides whether the search is abandoned. Let a search of the puzzle
/// under bound `high` end without hitting it, having gone down to depth `reach(..)`. Under
/// any bound from that depth up to `high` the outcome is the same; under any bound below
/// it, the search is abandoned on the bound.
pub proof fn lemma_depth_bound(p: KenkenPuzzle, low: nat, high: nat, m: nat)
    requires
        low <= high,
        search(p, crate::search::initial_board(p.size), 0, high, m) is Ok,
    ensures
        reach(p, crate::search::initial_board(p.size), 0, high, m) <= low ==> search(
            p,
            crate::search::initial_board(p.size),
            0,
            low,
            m,
        ) == search(p, crate::search::initial_board(p.size), 0, high, m),
        low < reach(p, crate::search::initial_board(p.size), 0, high, m) ==> search(
            p,
            crate::search::initial_board(p.size),
            0,
            low,
            m,
        ) is Err,
{
    let b = crate::search::initial_board(p.size);
    if reach(p, b, 0, high, m) <= low {
        lemma_bound_unused(p, b, 0, low, high, m);
    } else {
        lemma_bound_too_low(p, b, 0, low, high, m);
    }
}

/// A deduction pass is a function of the board: on a board that a pass leaves unchanged, a
/// second pass leaves it unchanged too.
pub proof fn lemma_deduction_fixed_point(p: KenkenPuzzle, b: Seq<CellModel>)
    requires
        deduce(p, b) == b,
    ensures
        deduce(p, deduce(p, b)) == deduce(p, b),
{
}

} // verus!
