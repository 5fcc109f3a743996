//! Enumeration of the value sequences that satisfy one cage's arithmetic.
use vstd::prelude::*;
use crate::cell::{Cell, CellModel, allows, cells_model, cell_allows, copy_values};

verus! {

/// The knowledge about each position of a cage, when there is any.
pub open spec fn area_model(area: Option<&Vec<Cell>>) -> Option<Seq<CellModel>> {
    match area {
        None => None,
        Some(a) => Some(cells_model(a@)),
    }
}

/// Position `i` of the cage may hold value `v`.
pub open spec fn fits(area: Option<Seq<CellModel>>, i: int, v: u8) -> bool {
    match area {
        None => true,
        Some(a) => allows(a[i], v),
    }
}

pub open spec fn sum_of(s: Seq<u8>) -> int
    decreases s.len(),
{
    if s.len() == 0 {
        0
    } else {
        sum_of(s.drop_last()) + s.last()
    }
}

pub open spec fn product_of(s: Seq<u8>) -> int
    decreases s.len(),
{
    if s.len() == 0 {
        1
    } else {
        product_of(s.drop_last()) * s.last()
    }
}

/// Values in `1..=max`, no two neighbours equal, each admitted by its position.
pub open spec fn well_placed(s: Seq<u8>, max: u8, area: Option<Seq<CellModel>>) -> bool {
    &&& forall|i: int| 0 <= i < s.len() ==> 1 <= #[trigger] s[i] <= max
    &&& forall|i: int| 0 < i < s.len() ==> s[i - 1] != #[trigger] s[i]
    &&& forall|i: int| 0 <= i < s.len() ==> #[trigger] fits(area, i, s[i])
}

/// `s` is a sequence that an addition cage of `len` cells with this target accepts.
pub open spec fn is_sum_sequence(
    s: Seq<u8>,
    len: nat,
    max: u8,
    target: u32,
    area: Option<Seq<CellModel>>,
) -> bool {
    &&& s.len() == len
    &&& well_placed(s, max, area)
    &&& sum_of(s) == target
}

/// `s` is a sequence that a multiplication cage of `len` cells with this target accepts.
pub open spec fn is_product_sequence(
    s: Seq<u8>,
    len: nat,
    max: u8,
    target: u32,
    area: Option<Seq<CellModel>>,
) -> bool {
    &&& s.len() == len
    &&& well_placed(s, max, area)
    &&& product_of(s) == target
}

/// Value `num` may follow `prefix` in a sum sequence: it differs from the value before it,
/// fits its position, and the remaining positions (each worth 1 to `max`) can still reach the
/// target exactly.
pub open spec fn sum_step_ok(
    prefix: Seq<u8>,
    len: nat,
    max: u8,
    target: u32,
    area: Option<Seq<CellModel>>,
    num: u8,
) -> bool {
    let rest = len - prefix.len() - 1;
    &&& !(prefix.len() > 0 && prefix.last() == num)
    &&& fits(area, prefix.len() as int, num)
    &&& sum_of(prefix) + num + rest <= target
    &&& sum_of(prefix) + num + rest * max >= target
}

/// All sum sequences that extend `prefix`, in increasing lexicographic order.
pub open spec fn sum_tree(
    prefix: Seq<u8>,
    len: nat,
    max: u8,
    target: u32,
    area: Option<Seq<CellModel>>,
) -> Seq<Seq<u8>>
    decreases len - prefix.len(), max + 1,
{
    if prefix.len() >= len {
        if sum_of(prefix) == target {
            seq![prefix]
        } else {
            seq![]
        }
    } else {
        sum_branches(prefix, len, max, target, area, max as nat)
    }
}

/// The sum sequences that extend `prefix` by a value in `1..=k`, in increasing order.
pub open spec fn sum_branches(
    prefix: Seq<u8>,
    len: nat,
    max: u8,
    target: u32,
    area: Option<Seq<CellModel>>,
    k: nat,
) -> Seq<Seq<u8>>
    decreases len - prefix.len(), k,
{
    if k == 0 || prefix.len() >= len || k > max {
        seq![]
    } else {
        sum_branches(prefix, len, max, target, area, (k - 1) as nat) + if sum_step_ok(
            prefix,
            len,
            max,
            target,
            area,
            k as u8,
        ) {
            sum_tree(prefix.push(k as u8), len, max, target, area)
        } else {
            seq![]
        }
    }
}

/// Value `num` may follow `prefix` in a product sequence: it differs from the value before
/// it, fits its position, and the product so far does not pass the target (every later value
/// is at least 1).
pub open spec fn mul_step_ok(
    prefix: Seq<u8>,
    len: nat,
    max: u8,
    target: u32,
    area: Option<Seq<CellModel>>,
    num: u8,
) -> bool {
    &&& !(prefix.len() > 0 && prefix.last() == num)
    &&& fits(area, prefix.len() as int, num)
    &&& product_of(prefix) * num <= target
}

/// All product sequences that extend `prefix`, in increasing lexicographic order.
pub open spec fn mul_tree(
    prefix: Seq<u8>,
    len: nat,
    max: u8,
    target: u32,
    area: Option<Seq<CellModel>>,
) -> Seq<Seq<u8>>
    decreases len - prefix.len(), max + 1,
{
    if prefix.len() >= len {
        if product_of(prefix) == target {
            seq![prefix]
        } else {
            seq![]
        }
    } else {
        mul_branches(prefix, len, max, target, area, max as nat)
    }
}

/// The product sequences that extend `prefix` by a value in `1..=k`, in increasing order.
pub open spec fn mul_branches(
    prefix: Seq<u8>,
    len: nat,
    max: u8,
    target: u32,
    area: Option<Seq<CellModel>>,
    k: nat,
) -> Seq<Seq<u8>>
    decreases len - prefix.len(), k,
{
    if k == 0 || prefix.len() >= len || k > max {
        seq![]
    } else {
        mul_branches(prefix, len, max, target, area, (k - 1) as nat) + if mul_step_ok(
            prefix,
            len,
            max,
            target,
            area,
            k as u8,
        ) {
            mul_tree(prefix.push(k as u8), len, max, target, area)
        } else {
            seq![]
        }
    }
}

pub open spec fn seqs_model(r: Seq<Vec<u8>>) -> Seq<Seq<u8>> {
    r.map_values(|v: Vec<u8>| v@)
}

pub proof fn lemma_sum_push(s: Seq<u8>, v: u8)
    ensures
        sum_of(s.push(v)) == sum_of(s) + v,
{
    assert(s.push(v).drop_last() =~= s);
}

pub proof fn lemma_product_push(s: Seq<u8>, v: u8)
    ensures
        product_of(s.push(v)) == product_of(s) * v,
{
    assert(s.push(v).drop_last() =~= s);
}

proof fn lemma_contains_concat(a: Seq<Seq<u8>>, b: Seq<Seq<u8>>, x: Seq<u8>)
    ensures
        (a + b).contains(x) <==> a.contains(x) || b.contains(x),
{
    if a.contains(x) {
        let i = choose|i: int| 0 <= i < a.len() && a[i] == x;
        assert((a + b)[i] == x);
    }
    if b.contains(x) {
        let i = choose|i: int| 0 <= i < b.len() && b[i] == x;
        assert((a + b)[a.len() + i] == x);
    }
    if (a + b).contains(x) {
        let i = choose|i: int| 0 <= i < (a + b).len() && (a + b)[i] == x;
        if i < a.len() {
            assert(a[i] == x);
        } else {
            assert(b[i - a.len()] == x);
        }
    }
}

pub proof fn lemma_sum_concat(a: Seq<u8>, b: Seq<u8>)
    ensures
        sum_of(a + b) == sum_of(a) + sum_of(b),
    decreases b.len(),
{
    if b.len() == 0 {
        assert(a + b =~= a);
    } else {
        assert((a + b).drop_last() =~= a + b.drop_last());
        lemma_sum_concat(a, b.drop_last());
    }
}

pub proof fn lemma_product_concat(a: Seq<u8>, b: Seq<u8>)
    ensures
        product_of(a + b) == product_of(a) * product_of(b),
    decreases b.len(),
{
    if b.len() == 0 {
        assert(a + b =~= a);
    } else {
        assert((a + b).drop_last() =~= a + b.drop_last());
        lemma_product_concat(a, b.drop_last());
        assert(product_of(a) * product_of(b.drop_last()) * b.last() == product_of(a) * (
        product_of(b.drop_last()) * b.last())) by (nonlinear_arith);
    }
}

proof fn lemma_sum_bounds(t: Seq<u8>, max: u8)
    requires
        forall|i: int| 0 <= i < t.len() ==> 1 <= #[trigger] t[i] <= max,
    ensures
        t.len() <= sum_of(t) <= t.len() * max,
    decreases t.len(),
{
    if t.len() > 0 {
        let d = t.drop_last();
        assert forall|i: int| 0 <= i < d.len() implies 1 <= #[trigger] d[i] <= max by {
            assert(d[i] == t[i]);
        }
        lemma_sum_bounds(d, max);
        assert(t.last() == t[t.len() - 1]);
        assert(d.len() * max + max == t.len() * max) by (nonlinear_arith)
            requires
                d.len() + 1 == t.len(),
        ;
    }
}

pub proof fn lemma_product_positive(t: Seq<u8>)
    requires
        forall|i: int| 0 <= i < t.len() ==> 1 <= #[trigger] t[i],
    ensures
        product_of(t) >= 1,
    decreases t.len(),
{
    if t.len() > 0 {
        let d = t.drop_last();
        assert forall|i: int| 0 <= i < d.len() implies 1 <= #[trigger] d[i] by {
            assert(d[i] == t[i]);
        }
        lemma_product_positive(d);
        assert(t.last() == t[t.len() - 1]);
        assert(product_of(d) * t.last() >= 1) by (nonlinear_arith)
            requires
                product_of(d) >= 1,
                t.last() >= 1,
        ;
    }
}

/// A sum of values is never negative.
pub proof fn lemma_sum_nonneg(t: Seq<u8>)
    ensures
        sum_of(t) >= 0,
    decreases t.len(),
{
    if t.len() > 0 {
        lemma_sum_nonneg(t.drop_last());
    }
}

/// Extending a well placed prefix by a value that differs from its last one and fits keeps it
/// well placed.
proof fn lemma_well_placed_push(p: Seq<u8>, max: u8, area: Option<Seq<CellModel>>, k: u8)
    requires
        well_placed(p, max, area),
        1 <= k <= max,
        !(p.len() > 0 && p.last() == k),
        fits(area, p.len() as int, k),
    ensures
        well_placed(p.push(k), max, area),
{
    let q = p.push(k);
    assert forall|i: int| 0 < i < q.len() implies q[i - 1] != #[trigger] q[i] by {
        if i < p.len() {
            assert(q[i - 1] == p[i - 1] && q[i] == p[i]);
        }
    }
    assert forall|i: int| 0 <= i < q.len() implies #[trigger] fits(area, i, q[i]) by {
        if i < p.len() {
            assert(q[i] == p[i]);
        }
    }
}

/// A well placed sequence is well placed on each of its prefixes.
proof fn lemma_well_placed_prefix(s: Seq<u8>, n: int, max: u8, area: Option<Seq<CellModel>>)
    requires
        well_placed(s, max, area),
        0 <= n <= s.len(),
    ensures
        well_placed(s.subrange(0, n), max, area),
{
    let q = s.subrange(0, n);
    assert forall|i: int| 0 < i < q.len() implies q[i - 1] != #[trigger] q[i] by {
        assert(q[i - 1] == s[i - 1] && q[i] == s[i]);
    }
    assert forall|i: int| 0 <= i < q.len() implies #[trigger] fits(area, i, q[i]) by {
        assert(q[i] == s[i]);
    }
    assert forall|i: int| 0 <= i < q.len() implies 1 <= #[trigger] q[i] <= max by {
        assert(q[i] == s[i]);
    }
}

/// The members of `sum_tree` are exactly the sum sequences that start with `prefix`.
pub proof fn lemma_sum_tree_members(
    prefix: Seq<u8>,
    len: nat,
    max: u8,
    target: u32,
    area: Option<Seq<CellModel>>,
    s: Seq<u8>,
)
    requires
        prefix.len() <= len,
        well_placed(prefix, max, area),
    ensures
        sum_tree(prefix, len, max, target, area).contains(s) <==> is_sum_sequence(
            s,
            len,
            max,
            target,
            area,
        ) && s.subrange(0, prefix.len() as int) == prefix,
    decreases len - prefix.len(), max + 1,
{
    if prefix.len() >= len {
        if s.len() == len && s.subrange(0, prefix.len() as int) == prefix {
            assert(s =~= prefix);
        }
        if s == prefix {
            assert(s.subrange(0, prefix.len() as int) =~= prefix);
        }
        if sum_of(prefix) == target {
            assert(seq![prefix][0] == prefix);
            if seq![prefix].contains(s) {
                let i = choose|i: int| 0 <= i < 1 && seq![prefix][i] == s;
                assert(i == 0);
            }
        }
    } else {
        lemma_sum_branches_members(prefix, len, max, target, area, max as nat, s);
        if s.len() == len && well_placed(s, max, area) {
            assert(1 <= s[prefix.len() as int] <= max);
        }
    }
}

proof fn lemma_sum_branches_members(
    prefix: Seq<u8>,
    len: nat,
    max: u8,
    target: u32,
    area: Option<Seq<CellModel>>,
    k: nat,
    s: Seq<u8>,
)
    requires
        prefix.len() < len,
        well_placed(prefix, max, area),
        k <= max,
    ensures
        sum_branches(prefix, len, max, target, area, k).contains(s) <==> is_sum_sequence(
            s,
            len,
            max,
            target,
            area,
        ) && s.subrange(0, prefix.len() as int) == prefix && 1 <= s[prefix.len() as int] <= k,
    decreases len - prefix.len(), k,
{
    let pl = prefix.len() as int;
    if k == 0 {
    } else {
        let a = sum_branches(prefix, len, max, target, area, (k - 1) as nat);
        let q = prefix.push(k as u8);
        let b = if sum_step_ok(prefix, len, max, target, area, k as u8) {
            sum_tree(q, len, max, target, area)
        } else {
            seq![]
        };
        assert(sum_branches(prefix, len, max, target, area, k) == a + b);
        lemma_contains_concat(a, b, s);
        lemma_sum_branches_members(prefix, len, max, target, area, (k - 1) as nat, s);
        let valid = is_sum_sequence(s, len, max, target, area) && s.subrange(0, pl) == prefix;
        if sum_step_ok(prefix, len, max, target, area, k as u8) {
            lemma_well_placed_push(prefix, max, area, k as u8);
            lemma_sum_tree_members(q, len, max, target, area, s);
            if s.len() == len && s.subrange(0, pl + 1) == q {
                assert(s.subrange(0, pl) =~= prefix);
                assert(s[pl] == q[pl]);
            }
            if valid && s[pl] == k {
                assert(s.subrange(0, pl + 1) =~= q);
            }
        } else if valid && s[pl] == k {
            // Such a sequence would make the step acceptable.
            if pl > 0 {
                assert(s[pl - 1] == prefix.last());
            }
            let rest = s.subrange(pl + 1, len as int);
            assert(s =~= s.subrange(0, pl + 1) + rest);
            assert(s.subrange(0, pl + 1) =~= q);
            lemma_sum_concat(q, rest);
            lemma_sum_push(prefix, k as u8);
            assert forall|i: int| 0 <= i < rest.len() implies 1 <= #[trigger] rest[i] <= max by {
                assert(rest[i] == s[pl + 1 + i]);
            }
            lemma_sum_bounds(rest, max);
            assert(sum_step_ok(prefix, len, max, target, area, k as u8));
        }
    }
}

/// The members of `mul_tree` are exactly the product sequences that start with `prefix`.
pub proof fn lemma_mul_tree_members(
    prefix: Seq<u8>,
    len: nat,
    max: u8,
    target: u32,
    area: Option<Seq<CellModel>>,
    s: Seq<u8>,
)
    requires
        prefix.len() <= len,
        well_placed(prefix, max, area),
    ensures
        mul_tree(prefix, len, max, target, area).contains(s) <==> is_product_sequence(
            s,
            len,
            max,
            target,
            area,
        ) && s.subrange(0, prefix.len() as int) == prefix,
    decreases len - prefix.len(), max + 1,
{
    if prefix.len() >= len {
        if s.len() == len && s.subrange(0, prefix.len() as int) == prefix {
            assert(s =~= prefix);
        }
        if s == prefix {
            assert(s.subrange(0, prefix.len() as int) =~= prefix);
        }
        if product_of(prefix) == target {
            assert(seq![prefix][0] == prefix);
            if seq![prefix].contains(s) {
                let i = choose|i: int| 0 <= i < 1 && seq![prefix][i] == s;
                assert(i == 0);
            }
        }
    } else {
        lemma_mul_branches_members(prefix, len, max, target, area, max as nat, s);
        if s.len() == len && well_placed(s, max, area) {
            assert(1 <= s[prefix.len() as int] <= max);
        }
    }
}

proof fn lemma_mul_branches_members(
    prefix: Seq<u8>,
    len: nat,
    max: u8,
    target: u32,
    area: Option<Seq<CellModel>>,
    k: nat,
    s: Seq<u8>,
)
    requires
        prefix.len() < len,
        well_placed(prefix, max, area),
        k <= max,
    ensures
        mul_branches(prefix, len, max, target, area, k).contains(s) <==> is_product_sequence(
            s,
            len,
            max,
            target,
            area,
        ) && s.subrange(0, prefix.len() as int) == prefix && 1 <= s[prefix.len() as int] <= k,
    decreases len - prefix.len(), k,
{
    let pl = prefix.len() as int;
    if k == 0 {
    } else {
        let a = mul_branches(prefix, len, max, target, area, (k - 1) as nat);
        let q = prefix.push(k as u8);
        let b = if mul_step_ok(prefix, len, max, target, area, k as u8) {
            mul_tree(q, len, max, target, area)
        } else {
            seq![]
        };
        assert(mul_branches(prefix, len, max, target, area, k) == a + b);
        lemma_contains_concat(a, b, s);
        lemma_mul_branches_members(prefix, len, max, target, area, (k - 1) as nat, s);
        let valid = is_product_sequence(s, len, max, target, area) && s.subrange(0, pl) == prefix;
        if mul_step_ok(prefix, len, max, target, area, k as u8) {
            lemma_well_placed_push(prefix, max, area, k as u8);
            lemma_mul_tree_members(q, len, max, target, area, s);
            if s.len() == len && s.subrange(0, pl + 1) == q {
                assert(s.subrange(0, pl) =~= prefix);
                assert(s[pl] == q[pl]);
            }
            if valid && s[pl] == k {
                assert(s.subrange(0, pl + 1) =~= q);
            }
        } else if valid && s[pl] == k {
            if pl > 0 {
                assert(s[pl - 1] == prefix.last());
            }
            let rest = s.subrange(pl + 1, len as int);
            assert(s =~= s.subrange(0, pl + 1) + rest);
            assert(s.subrange(0, pl + 1) =~= q);
            lemma_product_concat(q, rest);
            lemma_product_push(prefix, k as u8);
            assert forall|i: int| 0 <= i < rest.len() implies 1 <= #[trigger] rest[i] by {
                assert(rest[i] == s[pl + 1 + i]);
            }
            lemma_product_positive(rest);
            lemma_well_placed_prefix(s, pl, max, area);
            lemma_product_positive(prefix);
            let pk = product_of(prefix) * k;
            assert(pk * product_of(rest) >= pk) by (nonlinear_arith)
                requires
                    pk >= 0,
                    product_of(rest) >= 1,
            ;
            assert(mul_step_ok(prefix, len, max, target, area, k as u8));
        }
    }
}

/// No sum sequence extends a prefix whose sum is already past the target.
proof fn lemma_sum_tree_past(
    prefix: Seq<u8>,
    len: nat,
    max: u8,
    target: u32,
    area: Option<Seq<CellModel>>,
)
    requires
        sum_of(prefix) > target,
    ensures
        sum_tree(prefix, len, max, target, area) == Seq::<Seq<u8>>::empty(),
{
    if prefix.len() < len {
        lemma_sum_branches_past(prefix, len, max, target, area, max as nat);
    }
}

proof fn lemma_sum_branches_past(
    prefix: Seq<u8>,
    len: nat,
    max: u8,
    target: u32,
    area: Option<Seq<CellModel>>,
    k: nat,
)
    requires
        sum_of(prefix) > target,
    ensures
        sum_branches(prefix, len, max, target, area, k) == Seq::<Seq<u8>>::empty(),
    decreases k,
{
    if k > 0 && prefix.len() < len && k <= max {
        lemma_sum_branches_past(prefix, len, max, target, area, (k - 1) as nat);
        assert(!sum_step_ok(prefix, len, max, target, area, k as u8));
        assert(sum_branches(prefix, len, max, target, area, k) =~= Seq::<Seq<u8>>::empty());
    }
}

/// No product sequence extends a prefix whose product is already past the target.
proof fn lemma_mul_tree_past(
    prefix: Seq<u8>,
    len: nat,
    max: u8,
    target: u32,
    area: Option<Seq<CellModel>>,
)
    requires
        product_of(prefix) > target,
    ensures
        mul_tree(prefix, len, max, target, area) == Seq::<Seq<u8>>::empty(),
{
    if prefix.len() < len {
        lemma_mul_branches_past(prefix, len, max, target, area, max as nat);
    }
}

proof fn lemma_mul_branches_past(
    prefix: Seq<u8>,
    len: nat,
    max: u8,
    target: u32,
    area: Option<Seq<CellModel>>,
    k: nat,
)
    requires
        product_of(prefix) > target,
    ensures
        mul_branches(prefix, len, max, target, area, k) == Seq::<Seq<u8>>::empty(),
    decreases k,
{
    if k > 0 && prefix.len() < len && k <= max {
        lemma_mul_branches_past(prefix, len, max, target, area, (k - 1) as nat);
        let p = product_of(prefix);
        assert(p * k >= p) by (nonlinear_arith)
            requires
                p > 0,
                k >= 1,
        ;
        assert(!mul_step_ok(prefix, len, max, target, area, k as u8));
        assert(mul_branches(prefix, len, max, target, area, k) =~= Seq::<Seq<u8>>::empty());
    }
}

/// Appends to `sequences` every sum sequence that extends `sequence`.
fn gen_seq_sum_recursive(
    sequences: &mut Vec<Vec<u8>>,
    sequence: &mut Vec<u8>,
    len: usize,
    max: u8,
    target: u32,
    area: Option<&Vec<Cell>>,
    sum: u32,
)
    requires
        old(sequence).len() <= len,
        sum == sum_of(old(sequence)@),
        area matches Some(a) ==> a.len() == len,
    ensures
        final(sequence)@ == old(sequence)@,
        seqs_model(final(sequences)@) == seqs_model(old(sequences)@) + sum_tree(
            old(sequence)@,
            len as nat,
            max,
            target,
            area_model(area),
        ),
    decreases len - sequence@.len(),
{
    let ghost prefix = sequence@;
    let ghost am = area_model(area);
    let ghost start = seqs_model(sequences@);
    if sum > target {
        // Every value adds at least zero: nothing extends a prefix already past the target.
        proof {
            lemma_sum_tree_past(prefix, len as nat, max, target, am);
        }
        assert(seqs_model(sequences@) =~= start + sum_tree(prefix, len as nat, max, target, am));
        return ;
    }
    if sequence.len() == len {
        if sum == target {
            let copy = copy_values(sequence);
            sequences.push(copy);
            assert(seqs_model(sequences@) =~= start + seq![prefix]);
        } else {
            assert(seqs_model(sequences@) =~= start + seq![]);
        }
        return ;
    }
    let mut k: u16 = 1;
    assert(seqs_model(sequences@) =~= start + sum_branches(prefix, len as nat, max, target, am, 0));
    while k <= max as u16
        invariant
            1 <= k <= max as u16 + 1,
            sequence@ == prefix,
            prefix == old(sequence)@,
            prefix.len() < len,
            sum == sum_of(prefix),
            sum <= target,
            am == area_model(area),
            area matches Some(a) ==> a.len() == len,
            seqs_model(sequences@) == start + sum_branches(
                prefix,
                len as nat,
                max,
                target,
                am,
                (k - 1) as nat,
            ),
        decreases max as u16 + 1 - k,
    {
        let num = k as u8;
        let l = sequence.len();
        let repeats = l > 0 && sequence[l - 1] == num;
        let fit = match area {
            None => true,
            Some(a) => cell_allows(&a[l], num),
        };
        let rest: u64 = (len - l - 1) as u64;
        let reached: u64 = sum as u64 + num as u64;
        let too_big = reached > target as u64 || rest > target as u64 - reached;
        let too_small = if rest < target as u64 {
            proof {
                assert(rest * (max as u64) <= rest * 255) by (nonlinear_arith)
                    requires
                        max <= 255,
                ;
            }
            reached + rest * (max as u64) < target as u64
        } else {
            false
        };
        proof {
            if rest >= target as u64 {
                assert(rest * max >= rest) by (nonlinear_arith)
                    requires
                        max >= 1,
                ;
            }
            assert(fit == fits(am, prefix.len() as int, num));
            assert(!repeats && fit && !too_big && !too_small <==> sum_step_ok(
                prefix,
                len as nat,
                max,
                target,
                am,
                num,
            ));
        }
        if !repeats && fit && !too_big && !too_small {
            sequence.push(num);
            proof {
                lemma_sum_push(prefix, num);
            }
            gen_seq_sum_recursive(sequences, sequence, len, max, target, area, sum + num as u32);
            sequence.pop();
            assert(sequence@ =~= prefix);
        }
        assert(seqs_model(sequences@) =~= start + sum_branches(
            prefix,
            len as nat,
            max,
            target,
            am,
            k as nat,
        ));
        k += 1;
    }
    assert(sum_tree(prefix, len as nat, max, target, am) == sum_branches(
        prefix,
        len as nat,
        max,
        target,
        am,
        max as nat,
    ));
}

/// Every sequence of `len` values in `1..=max`, no two neighbours equal, that adds up to
/// `target` and fits `area` where it is given, in increasing lexicographic order.
pub fn generate_sequences_sum(len: usize, max: u8, target: u32, area: Option<&Vec<Cell>>) -> (r:
    Vec<Vec<u8>>)
    requires
        area matches Some(a) ==> a.len() == len,
    ensures
        seqs_model(r@) == sum_tree(seq![], len as nat, max, target, area_model(area)),
        forall|s: Seq<u8>|
            seqs_model(r@).contains(s) <==> is_sum_sequence(
                s,
                len as nat,
                max,
                target,
                area_model(area),
            ),
{
    let mut sequences: Vec<Vec<u8>> = Vec::new();
    let mut sequence: Vec<u8> = Vec::new();
    assert(seqs_model(sequences@) =~= seq![]);
    gen_seq_sum_recursive(&mut sequences, &mut sequence, len, max, target, area, 0);
    assert(seqs_model(sequences@) =~= sum_tree(seq![], len as nat, max, target, area_model(area)));
    proof {
        assert forall|s: Seq<u8>|
            seqs_model(sequences@).contains(s) <==> is_sum_sequence(
                s,
                len as nat,
                max,
                target,
                area_model(area),
            ) by {
            lemma_sum_tree_members(seq![], len as nat, max, target, area_model(area), s);
            assert(s.subrange(0, 0) =~= seq![]);
        }
    }
    sequences
}

/// Appends to `sequences` every product sequence that extends `sequence`.
fn gen_seq_mul_recursive(
    len: usize,
    max: u8,
    target: u32,
    area: Option<&Vec<Cell>>,
    sequence: &mut Vec<u8>,
    sequences: &mut Vec<Vec<u8>>,
    product: u32,
)
    requires
        old(sequence).len() <= len,
        product == product_of(old(sequence)@),
        area matches Some(a) ==> a.len() == len,
    ensures
        final(sequence)@ == old(sequence)@,
        seqs_model(final(sequences)@) == seqs_model(old(sequences)@) + mul_tree(
            old(sequence)@,
            len as nat,
            max,
            target,
            area_model(area),
        ),
    decreases len - sequence@.len(),
{
    let ghost prefix = sequence@;
    let ghost am = area_model(area);
    let ghost start = seqs_model(sequences@);
    if product > target {
        // Every value is at least 1: nothing extends a prefix already past the target.
        proof {
            lemma_mul_tree_past(prefix, len as nat, max, target, am);
        }
        assert(seqs_model(sequences@) =~= start + mul_tree(prefix, len as nat, max, target, am));
        return ;
    }
    if sequence.len() == len {
        if product == target {
            let copy = copy_values(sequence);
            sequences.push(copy);
            assert(seqs_model(sequences@) =~= start + seq![prefix]);
        } else {
            assert(seqs_model(sequences@) =~= start + seq![]);
        }
        return ;
    }
    let mut k: u16 = 1;
    assert(seqs_model(sequences@) =~= start + mul_branches(prefix, len as nat, max, target, am, 0));
    while k <= max as u16
        invariant
            1 <= k <= max as u16 + 1,
            sequence@ == prefix,
            prefix == old(sequence)@,
            prefix.len() < len,
            product == product_of(prefix),
            product <= target,
            am == area_model(area),
            area matches Some(a) ==> a.len() == len,
            seqs_model(sequences@) == start + mul_branches(
                prefix,
                len as nat,
                max,
                target,
                am,
                (k - 1) as nat,
            ),
        decreases max as u16 + 1 - k,
    {
        let num = k as u8;
        let l = sequence.len();
        let repeats = l > 0 && sequence[l - 1] == num;
        let fit = match area {
            None => true,
            Some(a) => cell_allows(&a[l], num),
        };
        proof {
            assert(product * num <= product * 255) by (nonlinear_arith)
                requires
                    num <= 255,
            ;
        }
        let reached: u64 = product as u64 * num as u64;
        let too_big = reached > target as u64;
        proof {
            assert(fit == fits(am, prefix.len() as int, num));
            assert(!repeats && fit && !too_big <==> mul_step_ok(
                prefix,
                len as nat,
                max,
                target,
                am,
                num,
            ));
        }
        if !repeats && fit && !too_big {
            sequence.push(num);
            proof {
                lemma_product_push(prefix, num);
            }
            gen_seq_mul_recursive(len, max, target, area, sequence, sequences, reached as u32);
            sequence.pop();
            assert(sequence@ =~= prefix);
        }
        assert(seqs_model(sequences@) =~= start + mul_branches(
            prefix,
            len as nat,
            max,
            target,
            am,
            k as nat,
        ));
        k += 1;
    }
    assert(mul_tree(prefix, len as nat, max, target, am) == mul_branches(
        prefix,
        len as nat,
        max,
        target,
        am,
        max as nat,
    ));
}

/// Every sequence of `len` values in `1..=max`, no two neighbours equal, whose product is
/// `target` and that fits `area` where it is given, in increasing lexicographic order.
pub fn generate_sequences_mul(len: usize, max: u8, target: u32, area: Option<&Vec<Cell>>) -> (r:
    Vec<Vec<u8>>)
    requires
        area matches Some(a) ==> a.len() == len,
    ensures
        seqs_model(r@) == mul_tree(seq![], len as nat, max, target, area_model(area)),
        forall|s: Seq<u8>|
            seqs_model(r@).contains(s) <==> is_product_sequence(
                s,
                len as nat,
                max,
                target,
                area_model(area),
            ),
{
    let mut sequences: Vec<Vec<u8>> = Vec::new();
    let mut sequence: Vec<u8> = Vec::new();
    assert(seqs_model(sequences@) =~= seq![]);
    proof {
        assert(product_of(seq![]) == 1);
    }
    gen_seq_mul_recursive(len, max, target, area, &mut sequence, &mut sequences, 1);
    assert(seqs_model(sequences@) =~= mul_tree(seq![], len as nat, max, target, area_model(area)));
    proof {
        assert forall|s: Seq<u8>|
            seqs_model(sequences@).contains(s) <==> is_product_sequence(
                s,
                len as nat,
                max,
                target,
                area_model(area),
            ) by {
            lemma_mul_tree_members(seq![], len as nat, max, target, area_model(area), s);
            assert(s.subrange(0, 0) =~= seq![]);
        }
    }
    sequences
}

/// What is known of the two cells of a pair cage, when anything is.
pub open spec fn pair_area_model(area: Option<(&Cell, &Cell)>) -> Option<(CellModel, CellModel)> {
    match area {
        None => None,
        Some((c0, c1)) => Some((c0@, c1@)),
    }
}

/// The first cell may hold `a` and the second `b`.
pub open spec fn pair_fits(area: Option<(CellModel, CellModel)>, a: u8, b: u8) -> bool {
    match area {
        None => true,
        Some((c0, c1)) => allows(c0, a) && allows(c1, b),
    }
}

/// Two distinct values in `1..=size` that differ by `target`.
pub open spec fn is_sub_pair(a: u8, b: u8, size: u8, target: u32) -> bool {
    &&& 1 <= a <= size
    &&& 1 <= b <= size
    &&& a != b
    &&& (a - b == target || b - a == target)
}

/// Two distinct values in `1..=size`, one of which is `target` times the other.
pub open spec fn is_div_pair(a: u8, b: u8, size: u8, target: u32) -> bool {
    &&& 1 <= a <= size
    &&& 1 <= b <= size
    &&& a != b
    &&& ((a % b == 0 && a / b == target) || (b % a == 0 && b / a == target))
}

/// The pairs `(n, n - target)` for `n` in `1..=k`, larger value first.
pub open spec fn sub_base(size: u8, target: u32, k: nat) -> Seq<(u8, u8)>
    decreases k,
{
    if k == 0 || k > size {
        seq![]
    } else {
        sub_base(size, target, (k - 1) as nat) + if k > target && target != 0 {
            seq![(k as u8, (k - target) as u8)]
        } else {
            seq![]
        }
    }
}

/// The pairs `(i, j)` with `j` in `1..=k`, `i != j`, and `i` equal to `target` times `j`.
pub open spec fn div_row(size: u8, target: u32, i: u8, k: nat) -> Seq<(u8, u8)>
    decreases k,
{
    if k == 0 || k > size {
        seq![]
    } else {
        div_row(size, target, i, (k - 1) as nat) + if i != k && i % (k as u8) == 0 && i / (k as u8)
            == target {
            seq![(i, k as u8)]
        } else {
            seq![]
        }
    }
}

/// The rows of `div_row` for `i` in `1..=k`.
pub open spec fn div_base(size: u8, target: u32, k: nat) -> Seq<(u8, u8)>
    decreases k,
{
    if k == 0 || k > size {
        seq![]
    } else {
        div_base(size, target, (k - 1) as nat) + div_row(size, target, k as u8, size as nat)
    }
}

/// Each base pair in both orientations, each kept where the two cells admit it.
pub open spec fn orient(base: Seq<(u8, u8)>, area: Option<(CellModel, CellModel)>) -> Seq<(u8, u8)>
    decreases base.len(),
{
    if base.len() == 0 {
        seq![]
    } else {
        let p = base.last();
        orient(base.drop_last(), area) + (if pair_fits(area, p.0, p.1) {
            seq![p]
        } else {
            seq![]
        }) + (if pair_fits(area, p.1, p.0) {
            seq![(p.1, p.0)]
        } else {
            seq![]
        })
    }
}

proof fn lemma_pair_contains_concat(a: Seq<(u8, u8)>, b: Seq<(u8, u8)>, x: (u8, u8))
    ensures
        (a + b).contains(x) <==> a.contains(x) || b.contains(x),
{
    if a.contains(x) {
        let i = choose|i: int| 0 <= i < a.len() && a[i] == x;
        assert((a + b)[i] == x);
    }
    if b.contains(x) {
        let i = choose|i: int| 0 <= i < b.len() && b[i] == x;
        assert((a + b)[a.len() + i] == x);
    }
    if (a + b).contains(x) {
        let i = choose|i: int| 0 <= i < (a + b).len() && (a + b)[i] == x;
        if i < a.len() {
            assert(a[i] == x);
        } else {
            assert(b[i - a.len()] == x);
        }
    }
}

proof fn lemma_single_contains(p: (u8, u8), x: (u8, u8))
    ensures
        seq![p].contains(x) <==> x == p,
{
    if x == p {
        assert(seq![p][0] == p);
    }
}

pub proof fn lemma_orient_members(base: Seq<(u8, u8)>, area: Option<(CellModel, CellModel)>, x: (u8, u8))
    ensures
        orient(base, area).contains(x) <==> pair_fits(area, x.0, x.1) && (base.contains(x)
            || base.contains((x.1, x.0))),
    decreases base.len(),
{
    if base.len() > 0 {
        let p = base.last();
        let d = base.drop_last();
        lemma_orient_members(d, area, x);
        let s1 = if pair_fits(area, p.0, p.1) {
            seq![p]
        } else {
            seq![]
        };
        let s2 = if pair_fits(area, p.1, p.0) {
            seq![(p.1, p.0)]
        } else {
            seq![]
        };
        lemma_pair_contains_concat(orient(d, area) + s1, s2, x);
        lemma_pair_contains_concat(orient(d, area), s1, x);
        lemma_single_contains(p, x);
        lemma_single_contains((p.1, p.0), x);
        assert(base =~= d + seq![p]);
        lemma_pair_contains_concat(d, seq![p], x);
        lemma_pair_contains_concat(d, seq![p], (x.1, x.0));
        lemma_single_contains(p, (x.1, x.0));
    }
}

pub proof fn lemma_sub_base_members(size: u8, target: u32, k: nat, x: (u8, u8))
    requires
        k <= size,
    ensures
        sub_base(size, target, k).contains(x) <==> 1 <= x.0 <= k && x.0 > target && target != 0
            && x.1 == x.0 - target,
    decreases k,
{
    if k > 0 {
        let tail = if k > target && target != 0 {
            seq![(k as u8, (k - target) as u8)]
        } else {
            seq![]
        };
        lemma_sub_base_members(size, target, (k - 1) as nat, x);
        lemma_pair_contains_concat(sub_base(size, target, (k - 1) as nat), tail, x);
        lemma_single_contains((k as u8, (k - target) as u8), x);
    }
}

proof fn lemma_div_row_members(size: u8, target: u32, i: u8, k: nat, x: (u8, u8))
    requires
        k <= size,
    ensures
        div_row(size, target, i, k).contains(x) <==> x.0 == i && 1 <= x.1 <= k && i != x.1 && i
            % x.1 == 0 && i / x.1 == target,
    decreases k,
{
    if k > 0 {
        let tail = if i != k && i % (k as u8) == 0 && i / (k as u8) == target {
            seq![(i, k as u8)]
        } else {
            seq![]
        };
        lemma_div_row_members(size, target, i, (k - 1) as nat, x);
        lemma_pair_contains_concat(div_row(size, target, i, (k - 1) as nat), tail, x);
        lemma_single_contains((i, k as u8), x);
    }
}

pub proof fn lemma_div_base_members(size: u8, target: u32, k: nat, x: (u8, u8))
    requires
        k <= size,
    ensures
        div_base(size, target, k).contains(x) <==> 1 <= x.0 <= k && 1 <= x.1 <= size && x.0
            != x.1 && x.0 % x.1 == 0 && x.0 / x.1 == target,
    decreases k,
{
    if k > 0 {
        lemma_div_base_members(size, target, (k - 1) as nat, x);
        lemma_pair_contains_concat(
            div_base(size, target, (k - 1) as nat),
            div_row(size, target, k as u8, size as nat),
            x,
        );
        lemma_div_row_members(size, target, k as u8, size as nat, x);
    }
}

/// Keeps each pair of `pairs` in the orientations that the two cells admit.
fn orient_pairs(pairs: &Vec<(u8, u8)>, area: Option<(&Cell, &Cell)>) -> (r: Vec<(u8, u8)>)
    ensures
        r@ == orient(pairs@, pair_area_model(area)),
{
    let ghost am = pair_area_model(area);
    let mut sequences: Vec<(u8, u8)> = Vec::new();
    let mut i: usize = 0;
    assert(pairs@.subrange(0, 0) =~= seq![]);
    while i < pairs.len()
        invariant
            i <= pairs.len(),
            am == pair_area_model(area),
            sequences@ == orient(pairs@.subrange(0, i as int), am),
        decreases pairs.len() - i,
    {
        let p = pairs[i];
        let mut pass0 = true;
        let mut pass1 = true;
        if let Some((c0, c1)) = area {
            pass0 = cell_allows(c0, p.0) && cell_allows(c1, p.1);
            pass1 = cell_allows(c0, p.1) && cell_allows(c1, p.0);
        }
        let ghost before = sequences@;
        if pass0 {
            sequences.push(p);
        }
        if pass1 {
            sequences.push((p.1, p.0));
        }
        proof {
            let sub = pairs@.subrange(0, i + 1);
            assert(sub.drop_last() =~= pairs@.subrange(0, i as int));
            assert(sub.last() == p);
            assert(pass0 == pair_fits(am, p.0, p.1));
            assert(pass1 == pair_fits(am, p.1, p.0));
            let s1 = if pass0 {
                seq![p]
            } else {
                seq![]
            };
            let s2 = if pass1 {
                seq![(p.1, p.0)]
            } else {
                seq![]
            };
            assert(sequences@ =~= before + s1 + s2);
        }
        i += 1;
    }
    assert(pairs@.subrange(0, pairs@.len() as int) =~= pairs@);
    sequences
}

/// Every ordered pair of distinct values in `1..=size` that differ by `target` and that the
/// two cells of `area` admit where it is given. Pairs come by increasing larger value, the
/// larger value first before the smaller first.
pub fn generate_sequences_sub(size: u8, target: u32, area: Option<(&Cell, &Cell)>) -> (r: Vec<
    (u8, u8),
>)
    ensures
        r@ == orient(sub_base(size, target, size as nat), pair_area_model(area)),
        forall|a: u8, b: u8|
            r@.contains((a, b)) <==> is_sub_pair(a, b, size, target) && pair_fits(
                pair_area_model(area),
                a,
                b,
            ),
{
    let mut pairs: Vec<(u8, u8)> = Vec::new();
    let mut n: u16 = 1;
    while n <= size as u16
        invariant
            1 <= n <= size as u16 + 1,
            pairs@ == sub_base(size, target, (n - 1) as nat),
        decreases size as u16 + 1 - n,
    {
        if n as u32 > target && target != 0 {
            pairs.push((n as u8, (n as u32 - target) as u8));
        }
        proof {
            let tail = if n > target && target != 0 {
                seq![(n as u8, (n - target) as u8)]
            } else {
                seq![]
            };
            assert(sub_base(size, target, n as nat) == sub_base(size, target, (n - 1) as nat)
                + tail);
        }
        n += 1;
        assert(pairs@ =~= sub_base(size, target, (n - 1) as nat));
    }
    let sequences = orient_pairs(&pairs, area);
    proof {
        assert forall|a: u8, b: u8|
            sequences@.contains((a, b)) <==> is_sub_pair(a, b, size, target) && pair_fits(
                pair_area_model(area),
                a,
                b,
            ) by {
            lemma_orient_members(pairs@, pair_area_model(area), (a, b));
            lemma_sub_base_members(size, target, size as nat, (a, b));
            lemma_sub_base_members(size, target, size as nat, (b, a));
        }
    }
    sequences
}

/// Every ordered pair of distinct values in `1..=size`, one `target` times the other, that
/// the two cells of `area` admit where it is given. Pairs come by increasing larger value,
/// the larger value first before the smaller first.
pub fn generate_sequences_div(size: u8, target: u32, area: Option<(&Cell, &Cell)>) -> (r: Vec<
    (u8, u8),
>)
    ensures
        r@ == orient(div_base(size, target, size as nat), pair_area_model(area)),
        forall|a: u8, b: u8|
            r@.contains((a, b)) <==> is_div_pair(a, b, size, target) && pair_fits(
                pair_area_model(area),
                a,
                b,
            ),
{
    let mut pairs: Vec<(u8, u8)> = Vec::new();
    let mut i: u16 = 1;
    while i <= size as u16
        invariant
            1 <= i <= size as u16 + 1,
            pairs@ == div_base(size, target, (i - 1) as nat),
        decreases size as u16 + 1 - i,
    {
        let ghost row_start = pairs@;
        let mut j: u16 = 1;
        while j <= size as u16
            invariant
                1 <= i <= size as u16,
                1 <= j <= size as u16 + 1,
                pairs@ == row_start + div_row(size, target, i as u8, (j - 1) as nat),
            decreases size as u16 + 1 - j,
        {
            let a = i as u8;
            let b = j as u8;
            if a != b && a % b == 0 && (a / b) as u32 == target {
                pairs.push((a, b));
            }
            proof {
                let tail = if a != j && a % b == 0 && a / b == target {
                    seq![(a, b)]
                } else {
                    seq![]
                };
                assert(div_row(size, target, a, j as nat) == div_row(
                    size,
                    target,
                    a,
                    (j - 1) as nat,
                ) + tail);
            }
            j += 1;
            assert(pairs@ =~= row_start + div_row(size, target, i as u8, (j - 1) as nat));
        }
        i += 1;
        assert(pairs@ =~= div_base(size, target, (i - 1) as nat));
    }
    let sequences = orient_pairs(&pairs, area);
    proof {
        assert forall|a: u8, b: u8|
            sequences@.contains((a, b)) <==> is_div_pair(a, b, size, target) && pair_fits(
                pair_area_model(area),
                a,
                b,
            ) by {
            lemma_orient_members(pairs@, pair_area_model(area), (a, b));
            lemma_div_base_members(size, target, size as nat, (a, b));
            lemma_div_base_members(size, target, size as nat, (b, a));
        }
    }
    sequences
}

} // verus!
