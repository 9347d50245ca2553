//! Properties that relate the library's operations to what the formulas
//! mean: which assignments satisfy which clauses.
use vstd::prelude::*;
use crate::cdcl::types::{Clause, resolvent_of, fold_lits, keep_step, lemma_fold_lits};
use crate::cdcl::literals::{subsumption_spec, lits_subset};
use crate::dpll::{DPLL, Formula};
use crate::sodoku::{cell_var, bit9, ones, mask_clause, only_one_clauses, cell_fits, sudoku_rules, rules_upto, blocks_upto,
    cells_of_row, row_clauses, col_clauses, block_clauses, cell_digits, row_cells, grid_rows, grid_text, dashes};
use crate::cnf::{Lit, lit_true, clause_sat};
use crate::tents::{choose_spec, choose_rounds, extend_groups, begin_of, increasing_below, lemma_extend_increasing,
    subset_clause, subset_clauses, exactly_n_spec};

verus! {

/// An integer literal `l` is true under `a` when variable `|l| - 1` has the
/// value `l > 0`.
pub open spec fn int_lit_true(a: Seq<bool>, l: i32) -> bool {
    let v = if l < 0 { -l - 1 } else { l - 1 };
    0 <= v < a.len() && a[v] == (l > 0)
}

/// A list of integer literals holds a true one.
pub open spec fn int_clause_true(a: Seq<bool>, c: Seq<i32>) -> bool {
    exists|i: int| 0 <= i < c.len() && int_lit_true(a, #[trigger] c[i])
}

/// A clause whose literals all occur in another entails it: when
/// [`subsumption_spec`] finds that `vec1` subsumes `vec2`, every assignment
/// that satisfies `vec1` satisfies `vec2`, and symmetrically.
pub proof fn law_subsumption_entails(vec1: Seq<i32>, vec2: Seq<i32>, a: Seq<bool>)
    ensures
        subsumption_spec(vec1, vec2) == 1 && int_clause_true(a, vec1) ==> int_clause_true(a, vec2),
        subsumption_spec(vec1, vec2) == 2 && int_clause_true(a, vec2) ==> int_clause_true(a, vec1),
{
    if subsumption_spec(vec1, vec2) == 1 && int_clause_true(a, vec1) {
        let i = choose|i: int| 0 <= i < vec1.len() && int_lit_true(a, #[trigger] vec1[i]);
        assert(lits_subset(vec1, vec2));
        assert(vec2.contains(vec1[i]));
        let j = choose|j: int| 0 <= j < vec2.len() && vec2[j] == vec1[i];
        assert(int_lit_true(a, vec2[j]));
    }
    if subsumption_spec(vec1, vec2) == 2 && int_clause_true(a, vec2) {
        let i = choose|i: int| 0 <= i < vec2.len() && int_lit_true(a, #[trigger] vec2[i]);
        assert(lits_subset(vec2, vec1));
        assert(vec1.contains(vec2[i]));
        let j = choose|j: int| 0 <= j < vec1.len() && vec1[j] == vec2[i];
        assert(int_lit_true(a, vec1[j]));
    }
}

/// Parallel variable and sign lists hold a literal true under `a`.
pub open spec fn lits_true(a: Seq<bool>, vars: Seq<usize>, signs: Seq<bool>) -> bool {
    exists|j: int| 0 <= j < vars.len() && 0 <= vars[j] < a.len() && a[vars[j] as int] == #[trigger] signs[j]
}

/// Does the literal list hold variable `v` with sign `s`?
pub open spec fn has_var_sign(vars: Seq<usize>, signs: Seq<bool>, v: usize, s: bool) -> bool {
    exists|j: int| 0 <= j < vars.len() && vars[j] == v && #[trigger] signs[j] == s
}

/// Folding keeps every literal of the accumulator and, for each literal of
/// the clause that is not the pivot, the literal itself or one of its
/// variable that was already there.
proof fn lemma_fold_keeps(acc: (Seq<usize>, Seq<bool>), vars: Seq<usize>, signs: Seq<bool>, pivot: usize, dedup: bool, n: int)
    requires
        acc.0.len() == acc.1.len(),
        0 <= n <= vars.len(),
        vars.len() == signs.len(),
    ensures
        ({
            let r = fold_lits(acc, vars, signs, pivot, dedup, n);
            &&& r.0.len() == r.1.len()
            &&& r.0.len() >= acc.0.len()
            &&& r.0.take(acc.0.len() as int) == acc.0
            &&& r.1.take(acc.1.len() as int) == acc.1
            &&& forall|k: int| 0 <= k < n && vars[k] != pivot ==>
                (#[trigger] has_var_sign(r.0, r.1, vars[k], signs[k])
                    || (dedup && exists|q: int| 0 <= q < r.0.len() && r.0[q] == vars[k]))
        }),
    decreases n,
{
    if n > 0 {
        lemma_fold_keeps(acc, vars, signs, pivot, dedup, n - 1);
        let p = fold_lits(acc, vars, signs, pivot, dedup, n - 1);
        let r = fold_lits(acc, vars, signs, pivot, dedup, n);
        assert(r == keep_step(p, vars[n - 1], signs[n - 1], pivot, dedup));
        assert(r.0.take(p.0.len() as int) =~= p.0);
        assert(r.1.take(p.1.len() as int) =~= p.1);
        assert(r.0.take(acc.0.len() as int) =~= p.0.take(acc.0.len() as int));
        assert(r.1.take(acc.1.len() as int) =~= p.1.take(acc.1.len() as int));
        assert forall|k: int| 0 <= k < n && vars[k] != pivot implies
            (#[trigger] has_var_sign(r.0, r.1, vars[k], signs[k])
                || (dedup && exists|q: int| 0 <= q < r.0.len() && r.0[q] == vars[k])) by {
            if k < n - 1 {
                if has_var_sign(p.0, p.1, vars[k], signs[k]) {
                    let j = choose|j: int| 0 <= j < p.0.len() && p.0[j] == vars[k] && #[trigger] p.1[j] == signs[k];
                    assert(r.0[j] == p.0[j] && r.1[j] == p.1[j]);
                } else {
                    let q = choose|q: int| 0 <= q < p.0.len() && p.0[q] == vars[k];
                    assert(r.0[q] == p.0[q]);
                }
            } else {
                if r != p {
                    assert(r.0[p.0.len() as int] == vars[k] && r.1[p.1.len() as int] == signs[k]);
                } else {
                    assert(dedup && p.0.contains(vars[k]));
                    let q = choose|q: int| 0 <= q < p.0.len() && p.0[q] == vars[k];
                }
            }
        }
    }
}

/// Resolution is sound: when `c1` holds the pivot with one sign and `c2`
/// with the other, and no other variable occurs in both with different
/// signs, every assignment that satisfies both clauses satisfies their
/// resolvent (see [`resolvent_of`]).
pub proof fn law_resolvent_sound(c1: Clause, c2: Clause, pivot: usize, s: bool, a: Seq<bool>)
    requires
        c1.variables@.len() == c1.signs@.len(),
        c2.variables@.len() == c2.signs@.len(),
        has_var_sign(c1.variables@, c1.signs@, pivot, s),
        has_var_sign(c2.variables@, c2.signs@, pivot, !s),
        forall|i: int, j: int| 0 <= i < c1.variables@.len() && 0 <= j < c2.variables@.len()
            && c1.variables@[i] == c2.variables@[j] && c1.variables@[i] != pivot ==> c1.signs@[i] == c2.signs@[j],
        lits_true(a, c1.variables@, c1.signs@),
        lits_true(a, c2.variables@, c2.signs@),
        forall|i: int, j: int| 0 <= i < j < c1.variables@.len() ==> c1.variables@[i] != c1.variables@[j],
        forall|i: int, j: int| 0 <= i < j < c2.variables@.len() ==> c2.variables@[i] != c2.variables@[j],
        pivot < a.len(),
    ensures
        lits_true(a, resolvent_of(c1, c2, pivot).0, resolvent_of(c1, c2, pivot).1),
{
    let empty = (Seq::<usize>::empty(), Seq::<bool>::empty());
    let n1 = c1.variables@.len() as int;
    let n2 = c2.variables@.len() as int;
    let first = fold_lits(empty, c1.variables@, c1.signs@, pivot, false, n1);
    let res = resolvent_of(c1, c2, pivot);
    lemma_fold_keeps(empty, c1.variables@, c1.signs@, pivot, false, n1);
    lemma_fold_keeps(first, c2.variables@, c2.signs@, pivot, true, n2);
    lemma_fold_lits(empty, c1.variables@, c1.signs@, pivot, false, n1);
    lemma_fold_origin(empty, c1.variables@, c1.signs@, pivot, n1);
    if a[pivot as int] == s {
        // the literal of c2 that holds is not the pivot
        let j = choose|j: int| 0 <= j < n2 && 0 <= c2.variables@[j] < a.len() && a[c2.variables@[j] as int] == #[trigger] c2.signs@[j];
        let pj = choose|pj: int| 0 <= pj < n2 && c2.variables@[pj] == pivot && #[trigger] c2.signs@[pj] == !s;
        if c2.variables@[j] == pivot {
            if j < pj { assert(c2.variables@[j] != c2.variables@[pj]); }
            if pj < j { assert(c2.variables@[pj] != c2.variables@[j]); }
        }
        assert(c2.variables@[j] != pivot);
        if has_var_sign(res.0, res.1, c2.variables@[j], c2.signs@[j]) {
            let q = choose|q: int| 0 <= q < res.0.len() && res.0[q] == c2.variables@[j] && #[trigger] res.1[q] == c2.signs@[j];
        } else {
            let q = choose|q: int| 0 <= q < res.0.len() && res.0[q] == c2.variables@[j];
            // the variable came from c1, where it has the same sign
            if q < first.0.len() {
                assert(res.0[q] == first.0[q] && res.1[q] == first.1[q]);
                let i = choose|i: int| 0 <= i < n1 && c1.variables@[i] == #[trigger] first.0[q] && c1.signs@[i] == first.1[q];
                assert(c1.signs@[i] == c2.signs@[j]);
            } else {
                lemma_fold_origin_second(first, c2.variables@, c2.signs@, pivot, n2, q);
            }
        }
    } else {
        let j = choose|j: int| 0 <= j < n1 && 0 <= c1.variables@[j] < a.len() && a[c1.variables@[j] as int] == #[trigger] c1.signs@[j];
        let pj = choose|pj: int| 0 <= pj < n1 && c1.variables@[pj] == pivot && #[trigger] c1.signs@[pj] == s;
        if c1.variables@[j] == pivot {
            if j < pj { assert(c1.variables@[j] != c1.variables@[pj]); }
            if pj < j { assert(c1.variables@[pj] != c1.variables@[j]); }
        }
        assert(c1.variables@[j] != pivot);
        assert(has_var_sign(first.0, first.1, c1.variables@[j], c1.signs@[j]));
        let q = choose|q: int| 0 <= q < first.0.len() && first.0[q] == c1.variables@[j] && #[trigger] first.1[q] == c1.signs@[j];
        assert(res.0[q] == first.0[q] && res.1[q] == first.1[q]);
    }
}

/// Every literal that folding adds comes from the clause.
proof fn lemma_fold_origin(acc: (Seq<usize>, Seq<bool>), vars: Seq<usize>, signs: Seq<bool>, pivot: usize, n: int)
    requires
        acc.0.len() == 0,
        acc.1.len() == 0,
        0 <= n <= vars.len(),
        vars.len() == signs.len(),
    ensures
        forall|j: int| 0 <= j < fold_lits(acc, vars, signs, pivot, false, n).0.len() ==>
            exists|i: int| 0 <= i < n && vars[i] == #[trigger] fold_lits(acc, vars, signs, pivot, false, n).0[j]
                && signs[i] == fold_lits(acc, vars, signs, pivot, false, n).1[j],
    decreases n,
{
    if n > 0 {
        lemma_fold_origin(acc, vars, signs, pivot, n - 1);
        lemma_fold_lits(acc, vars, signs, pivot, false, n - 1);
        let p = fold_lits(acc, vars, signs, pivot, false, n - 1);
        let r = fold_lits(acc, vars, signs, pivot, false, n);
        assert forall|j: int| 0 <= j < r.0.len() implies
            exists|i: int| 0 <= i < n && vars[i] == #[trigger] r.0[j] && signs[i] == r.1[j] by {
            if j < p.0.len() {
                assert(r.0[j] == p.0[j] && r.1[j] == p.1[j]);
                let i = choose|i: int| 0 <= i < n - 1 && vars[i] == #[trigger] p.0[j] && signs[i] == p.1[j];
            } else {
                assert(r.0[j] == vars[n - 1] && r.1[j] == signs[n - 1]);
            }
        }
    }
}

/// A literal that folding with deduplication adds beyond the accumulator
/// has a variable the accumulator does not hold.
proof fn lemma_fold_origin_second(acc: (Seq<usize>, Seq<bool>), vars: Seq<usize>, signs: Seq<bool>, pivot: usize, n: int, q: int)
    requires
        acc.0.len() == acc.1.len(),
        0 <= n <= vars.len(),
        vars.len() == signs.len(),
        acc.0.len() <= q < fold_lits(acc, vars, signs, pivot, true, n).0.len(),
    ensures
        exists|i: int| 0 <= i < n && vars[i] == #[trigger] fold_lits(acc, vars, signs, pivot, true, n).0[q]
            && signs[i] == fold_lits(acc, vars, signs, pivot, true, n).1[q],
    decreases n,
{
    lemma_fold_lits(acc, vars, signs, pivot, true, n - 1);
    let p = fold_lits(acc, vars, signs, pivot, true, n - 1);
    let r = fold_lits(acc, vars, signs, pivot, true, n);
    if q < p.0.len() {
        lemma_fold_origin_second(acc, vars, signs, pivot, n - 1, q);
        assert(r.0[q] == p.0[q] && r.1[q] == p.1[q]);
    } else {
        assert(r.0[q] == vars[n - 1] && r.1[q] == signs[n - 1]);
    }
}

/// Distinct cells and digits of the grid have distinct variables, all in
/// `1..=729`.
pub proof fn law_cell_var_injective(r1: int, c1: int, d1: int, r2: int, c2: int, d2: int)
    requires
        0 <= r1 < 9 && 0 <= c1 < 9 && 0 <= d1 < 9,
        0 <= r2 < 9 && 0 <= c2 < 9 && 0 <= d2 < 9,
    ensures
        1 <= cell_var(r1, c1, d1) <= 729,
        cell_var(r1, c1, d1) == cell_var(r2, c2, d2) ==> r1 == r2 && c1 == c2 && d1 == d2,
{
    if cell_var(r1, c1, d1) == cell_var(r2, c2, d2) {
        let x = 9 * c1 + d1;
        let y = 9 * c2 + d2;
        vstd::arithmetic::div_mod::lemma_fundamental_div_mod_converse(81 * r1 + x, 81, r1, x);
        vstd::arithmetic::div_mod::lemma_fundamental_div_mod_converse(81 * r2 + y, 81, r2, y);
        vstd::arithmetic::div_mod::lemma_fundamental_div_mod_converse(x, 9, c1, d1);
        vstd::arithmetic::div_mod::lemma_fundamental_div_mod_converse(y, 9, c2, d2);
    }
}

/// A state freshly built from a formula whose clauses were all read after
/// its problem lines (every mark is the variable count) is sound, so that a
/// search from it that does not declare the formula unsatisfiable ends in
/// a state that passes validation (see `DPLL::dpll`).
pub proof fn law_fresh_state_sound(d: DPLL, f: Formula)
    requires
        d.built_from(f),
        forall|i: int| 0 <= i < f.clauses.len() ==> (#[trigger] f.clauses[i]).2 == f.nvars,
    ensures
        d.sound(),
{
    assert forall|i: int| 0 <= i < d.clauses@.len() implies !((#[trigger] d.clauses@[i]).sat_by < d.variables@.len()) by {
        assert(f.clauses[i].2 == f.nvars);
    }
}

/// The value of digit `n` of cell `(i1, i2)` under `a`.
pub open spec fn digit_value(a: Seq<bool>, i1: int, i2: int, n: int) -> bool {
    a[cell_var(i1, i2, n) - 1]
}

/// How many of the cell's first `k` digits are true under `a`.
pub open spec fn digits_true(a: Seq<bool>, i1: int, i2: int, k: int) -> nat
    decreases k,
{
    if k <= 0 { 0 } else { digits_true(a, i1, i2, k - 1) + if digit_value(a, i1, i2, k - 1) { 1nat } else { 0nat } }
}

/// A mask clause is false exactly when the digits' values are the mask's bits.
proof fn lemma_mask_clause_false(a: Seq<bool>, i1: int, i2: int, m: u32)
    requires
        a.len() == 729,
        0 <= i1 < 9,
        0 <= i2 < 9,
    ensures
        !clause_sat(a, mask_clause(i1, i2, m)) <==> forall|n: int| 0 <= n < 9 ==> #[trigger] digit_value(a, i1, i2, n) == bit9(m, n),
{
    let c = mask_clause(i1, i2, m);
    assert forall|n: int| 0 <= n < 9 implies (lit_true(a, #[trigger] c[n]) <==> digit_value(a, i1, i2, n) != bit9(m, n)) by {
        law_cell_var_injective(i1, i2, n, i1, i2, n);
    }
    if !clause_sat(a, c) {
        assert forall|n: int| 0 <= n < 9 implies #[trigger] digit_value(a, i1, i2, n) == bit9(m, n) by {
            assert(!lit_true(a, c[n]));
        }
    }
    if forall|n: int| 0 <= n < 9 ==> #[trigger] digit_value(a, i1, i2, n) == bit9(m, n) {
        assert forall|j: int| 0 <= j < c.len() implies !lit_true(a, #[trigger] c[j]) by {
            assert(digit_value(a, i1, i2, j) == bit9(m, j));
        }
    }
}

/// When the digits' values are the mask's bits, the counts agree.
proof fn lemma_ones_count(a: Seq<bool>, i1: int, i2: int, m: u32, k: int)
    requires
        0 <= k <= 9,
        forall|n: int| 0 <= n < 9 ==> #[trigger] digit_value(a, i1, i2, n) == bit9(m, n),
    ensures
        ones(m, k) == digits_true(a, i1, i2, k),
    decreases k,
{
    if k > 0 {
        lemma_ones_count(a, i1, i2, m, k - 1);
        assert(digit_value(a, i1, i2, k - 1) == bit9(m, k - 1));
    }
}

/// Every mask below `top` without exactly one bit has its clause in the list.
proof fn lemma_mask_listed(i1: int, i2: int, m: u32, top: int)
    requires
        m < top,
        ones(m, 9) != 1,
    ensures
        only_one_clauses(i1, i2, top).contains(mask_clause(i1, i2, m)),
    decreases top,
{
    if m < top - 1 {
        lemma_mask_listed(i1, i2, m, top - 1);
        let p = only_one_clauses(i1, i2, top - 1);
        let k = choose|k: int| 0 <= k < p.len() && p[k] == mask_clause(i1, i2, m);
        assert(only_one_clauses(i1, i2, top)[k] == p[k]);
    } else {
        assert(m == (top - 1) as u32);
        let q = only_one_clauses(i1, i2, top);
        assert(q[q.len() - 1] == mask_clause(i1, i2, m));
    }
}

/// Each clause in the list is a mask clause of a mask without exactly one bit.
proof fn lemma_listed_mask(i1: int, i2: int, top: int, k: int)
    requires
        0 <= top <= 512,
        0 <= k < only_one_clauses(i1, i2, top).len(),
    ensures
        exists|m: u32| m < top && ones(m, 9) != 1 && only_one_clauses(i1, i2, top)[k] == #[trigger] mask_clause(i1, i2, m),
    decreases top,
{
    let p = only_one_clauses(i1, i2, top - 1);
    if k < p.len() {
        lemma_listed_mask(i1, i2, top - 1, k);
        let m = choose|m: u32| m < top - 1 && ones(m, 9) != 1 && p[k] == #[trigger] mask_clause(i1, i2, m);
        assert(only_one_clauses(i1, i2, top)[k] == p[k]);
        assert(mask_clause(i1, i2, m) == mask_clause(i1, i2, m));
    } else {
        let m = (top - 1) as u32;
        assert(only_one_clauses(i1, i2, top)[k] == mask_clause(i1, i2, m));
    }
}

/// The exactly-one clauses of a cell say what they are for: an assignment
/// of the 729 variables satisfies all of them exactly when exactly one of
/// the cell's nine digits is true.
pub proof fn law_only_one_exactly_one(a: Seq<bool>, i1: int, i2: int)
    requires
        a.len() == 729,
        0 <= i1 < 9,
        0 <= i2 < 9,
    ensures
        (forall|k: int| 0 <= k < only_one_clauses(i1, i2, 512).len() ==> #[trigger] clause_sat(a, only_one_clauses(i1, i2, 512)[k]))
            <==> digits_true(a, i1, i2, 9) == 1,
{
    let cs = only_one_clauses(i1, i2, 512);
    if digits_true(a, i1, i2, 9) == 1 {
        assert forall|k: int| 0 <= k < cs.len() implies #[trigger] clause_sat(a, cs[k]) by {
            lemma_listed_mask(i1, i2, 512, k);
            let m = choose|m: u32| m < 512 && ones(m, 9) != 1 && cs[k] == #[trigger] mask_clause(i1, i2, m);
            lemma_mask_clause_false(a, i1, i2, m);
            if !clause_sat(a, cs[k]) {
                lemma_ones_count(a, i1, i2, m, 9);
            }
        }
    }
    if forall|k: int| 0 <= k < cs.len() ==> #[trigger] clause_sat(a, cs[k]) {
        if digits_true(a, i1, i2, 9) != 1 {
            let b0 = digit_value(a, i1, i2, 0);
            let b1 = digit_value(a, i1, i2, 1);
            let b2 = digit_value(a, i1, i2, 2);
            let b3 = digit_value(a, i1, i2, 3);
            let b4 = digit_value(a, i1, i2, 4);
            let b5 = digit_value(a, i1, i2, 5);
            let b6 = digit_value(a, i1, i2, 6);
            let b7 = digit_value(a, i1, i2, 7);
            let b8 = digit_value(a, i1, i2, 8);
            let m: u32 = (if b0 { 256u32 } else { 0u32 }) | (if b1 { 128u32 } else { 0u32 }) | (if b2 { 64u32 } else { 0u32 })
                | (if b3 { 32u32 } else { 0u32 }) | (if b4 { 16u32 } else { 0u32 }) | (if b5 { 8u32 } else { 0u32 })
                | (if b6 { 4u32 } else { 0u32 }) | (if b7 { 2u32 } else { 0u32 }) | (if b8 { 1u32 } else { 0u32 });
            assert(m < 512 && ((m >> 8u32) & 1u32 == 1u32) == b0 && ((m >> 7u32) & 1u32 == 1u32) == b1
                && ((m >> 6u32) & 1u32 == 1u32) == b2 && ((m >> 5u32) & 1u32 == 1u32) == b3
                && ((m >> 4u32) & 1u32 == 1u32) == b4 && ((m >> 3u32) & 1u32 == 1u32) == b5
                && ((m >> 2u32) & 1u32 == 1u32) == b6 && ((m >> 1u32) & 1u32 == 1u32) == b7
                && ((m >> 0u32) & 1u32 == 1u32) == b8) by (bit_vector)
                requires m == (if b0 { 256u32 } else { 0u32 }) | (if b1 { 128u32 } else { 0u32 }) | (if b2 { 64u32 } else { 0u32 })
                    | (if b3 { 32u32 } else { 0u32 }) | (if b4 { 16u32 } else { 0u32 }) | (if b5 { 8u32 } else { 0u32 })
                    | (if b6 { 4u32 } else { 0u32 }) | (if b7 { 2u32 } else { 0u32 }) | (if b8 { 1u32 } else { 0u32 });
            assert forall|n: int| 0 <= n < 9 implies #[trigger] digit_value(a, i1, i2, n) == bit9(m, n) by {
                if n == 0 { assert(bit9(m, 0) == ((m >> 8u32) & 1u32 == 1u32)); }
                if n == 1 { assert(bit9(m, 1) == ((m >> 7u32) & 1u32 == 1u32)); }
                if n == 2 { assert(bit9(m, 2) == ((m >> 6u32) & 1u32 == 1u32)); }
                if n == 3 { assert(bit9(m, 3) == ((m >> 5u32) & 1u32 == 1u32)); }
                if n == 4 { assert(bit9(m, 4) == ((m >> 4u32) & 1u32 == 1u32)); }
                if n == 5 { assert(bit9(m, 5) == ((m >> 3u32) & 1u32 == 1u32)); }
                if n == 6 { assert(bit9(m, 6) == ((m >> 2u32) & 1u32 == 1u32)); }
                if n == 7 { assert(bit9(m, 7) == ((m >> 1u32) & 1u32 == 1u32)); }
                if n == 8 { assert(bit9(m, 8) == ((m >> 0u32) & 1u32 == 1u32)); }
            }
            lemma_ones_count(a, i1, i2, m, 9);
            lemma_mask_listed(i1, i2, m, 512);
            lemma_mask_clause_false(a, i1, i2, m);
            let k = choose|k: int| 0 <= k < cs.len() && cs[k] == mask_clause(i1, i2, m);
            assert(clause_sat(a, cs[k]));
        }
    }
}

/// Every group of round `r` has `r` entries.
proof fn lemma_rounds_len(n: int, k: int, r: int)
    requires
        0 <= r,
    ensures
        forall|i: int| 0 <= i < choose_rounds(n, k, r).len() ==> (#[trigger] choose_rounds(n, k, r)[i]).len() == r,
    decreases r,
{
    if r > 0 {
        lemma_rounds_len(n, k, r - 1);
        lemma_extend_len(choose_rounds(n, k, r - 1), n - (k - r), r - 1);
    }
}

/// Extending groups of length `l` gives groups of length `l + 1`.
proof fn lemma_extend_len(gs: Seq<Seq<usize>>, bound: int, l: int)
    requires
        forall|i: int| 0 <= i < gs.len() ==> (#[trigger] gs[i]).len() == l,
    ensures
        forall|i: int| 0 <= i < extend_groups(gs, bound).len() ==> (#[trigger] extend_groups(gs, bound)[i]).len() == l + 1,
    decreases gs.len(),
{
    if gs.len() > 0 {
        lemma_extend_len(gs.drop_last(), bound, l);
        let p = extend_groups(gs.drop_last(), bound);
        let e = extend_groups(gs, bound);
        assert forall|i: int| 0 <= i < e.len() implies (#[trigger] e[i]).len() == l + 1 by {
            if i < p.len() { assert(e[i] == p[i]); } else { assert(gs[gs.len() - 1].len() == l); }
        }
    }
}

/// Extending keeps each group with each admissible next entry.
proof fn lemma_extend_contains(gs: Seq<Seq<usize>>, bound: int, h: Seq<usize>, x: usize)
    requires
        gs.contains(h),
        begin_of(h) <= x < bound,
    ensures
        extend_groups(gs, bound).contains(h.push(x)),
    decreases gs.len(),
{
    let p = extend_groups(gs.drop_last(), bound);
    let e = extend_groups(gs, bound);
    if gs.last() == h {
        let t = x - begin_of(h);
        assert(e[p.len() + t] == h.push((begin_of(h) + t) as usize));
        assert(e[p.len() + t] == h.push(x));
    } else {
        let i = choose|i: int| 0 <= i < gs.len() && gs[i] == h;
        assert(gs.drop_last()[i] == h);
        lemma_extend_contains(gs.drop_last(), bound, h, x);
        let j = choose|j: int| 0 <= j < p.len() && p[j] == h.push(x);
        assert(e[j] == p[j]);
    }
}

/// In an increasing sequence of `k` numbers below `n`, entry `i` leaves
/// room for the `k - 1 - i` entries after it.
proof fn lemma_room(g: Seq<usize>, n: int, i: int)
    requires
        increasing_below(g, n),
        0 <= i < g.len(),
    ensures
        g[i] + (g.len() - 1 - i) < n,
    decreases g.len() - i,
{
    if i < g.len() - 1 {
        lemma_room(g, n, i + 1);
        assert(g[i] < g[i + 1]);
    }
}

/// The prefixes of an increasing sequence of `k` numbers below `n` are the
/// groups of the rounds.
proof fn lemma_prefix_in_rounds(g: Seq<usize>, n: int, r: int)
    requires
        increasing_below(g, n),
        0 <= r <= g.len(),
    ensures
        choose_rounds(n, g.len() as int, r).contains(g.take(r)),
    decreases r,
{
    let k = g.len() as int;
    if r == 0 {
        assert(g.take(0) =~= Seq::<usize>::empty());
        assert(choose_rounds(n, k, 0)[0] == Seq::<usize>::empty());
    } else {
        lemma_prefix_in_rounds(g, n, r - 1);
        let h = g.take(r - 1);
        lemma_room(g, n, r - 1);
        if r >= 2 {
            assert(begin_of(h) == g[r - 2] + 1);
            assert(g[r - 2] < g[r - 1]);
        }
        lemma_extend_contains(choose_rounds(n, k, r - 1), n - (k - r), h, g[r - 1]);
        assert(h.push(g[r - 1]) =~= g.take(r));
    }
}

/// The subsets of `n_choose_k` are exactly what they should be: a sequence
/// is among [`choose_spec`]`(n, k)` if and only if it has `k` entries and is
/// strictly increasing below `n`.
pub proof fn law_choose_members(n: int, k: int, g: Seq<usize>)
    requires
        0 <= k,
        n <= usize::MAX,
    ensures
        choose_spec(n, k).contains(g) <==> (g.len() == k && increasing_below(g, n)),
{
    lemma_rounds_len(n, k, k);
    lemma_rounds_increasing(n, k, k);
    if g.len() == k && increasing_below(g, n) {
        lemma_prefix_in_rounds(g, n, k);
        assert(g.take(k) =~= g);
    }
}

/// Every group of a round is a group of the round before with one more
/// entry.
proof fn lemma_extend_parent(gs: Seq<Seq<usize>>, bound: int, p: int)
    requires
        0 <= p < extend_groups(gs, bound).len(),
    ensures
        exists|i: int| 0 <= i < gs.len() && #[trigger] gs[i] == extend_groups(gs, bound)[p].drop_last(),
    decreases gs.len(),
{
    let e = extend_groups(gs, bound);
    let prev = extend_groups(gs.drop_last(), bound);
    if p < prev.len() {
        lemma_extend_parent(gs.drop_last(), bound, p);
        let i = choose|i: int| 0 <= i < gs.drop_last().len() && #[trigger] gs.drop_last()[i] == prev[p].drop_last();
        assert(e[p] == prev[p]);
        assert(gs[i] == gs.drop_last()[i]);
    } else {
        let g = gs.last();
        let b = begin_of(g);
        assert(e[p] == g.push((b + (p - prev.len())) as usize));
        assert(e[p].drop_last() =~= g);
        assert(gs[gs.len() - 1] == g);
    }
}

/// Extending distinct groups gives distinct groups.
proof fn lemma_extend_distinct(gs: Seq<Seq<usize>>, bound: int)
    requires
        gs.no_duplicates(),
        bound <= usize::MAX,
    ensures
        extend_groups(gs, bound).no_duplicates(),
    decreases gs.len(),
{
    if gs.len() > 0 {
        let gs0 = gs.drop_last();
        assert(gs0.no_duplicates()) by {
            assert forall|a: int, b: int| 0 <= a < gs0.len() && 0 <= b < gs0.len() && a != b implies gs0[a] != gs0[b] by {
                assert(gs0[a] == gs[a] && gs0[b] == gs[b]);
            }
        }
        lemma_extend_distinct(gs0, bound);
        let e = extend_groups(gs, bound);
        let prev = extend_groups(gs0, bound);
        let g = gs.last();
        let b0 = begin_of(g);
        assert forall|a: int, b: int| 0 <= a < e.len() && 0 <= b < e.len() && a != b implies e[a] != e[b] by {
            if a < prev.len() && b < prev.len() {
                assert(e[a] == prev[a] && e[b] == prev[b]);
            } else if a >= prev.len() && b >= prev.len() {
                assert(e[a] == g.push((b0 + (a - prev.len())) as usize));
                assert(e[b] == g.push((b0 + (b - prev.len())) as usize));
                assert(b0 >= 0);
                assert(e[a].last() == b0 + (a - prev.len()));
                assert(e[a].last() != e[b].last());
            } else {
                let (x, y) = if a < prev.len() { (a, b) } else { (b, a) };
                lemma_extend_parent(gs0, bound, x);
                let i = choose|i: int| 0 <= i < gs0.len() && #[trigger] gs0[i] == prev[x].drop_last();
                assert(e[x] == prev[x]);
                assert(e[y] == g.push((b0 + (y - prev.len())) as usize));
                assert(e[y].drop_last() =~= g);
                if e[x] == e[y] {
                    assert(gs[i] == gs0[i]);
                    assert(gs[i] == gs[gs.len() - 1]);
                }
            }
        }
    }
}

/// No round repeats a group.
proof fn lemma_rounds_distinct(n: int, k: int, r: int)
    requires
        0 <= r <= k,
        n <= usize::MAX,
    ensures
        choose_rounds(n, k, r).no_duplicates(),
    decreases r,
{
    if r > 0 {
        lemma_rounds_distinct(n, k, r - 1);
        lemma_extend_distinct(choose_rounds(n, k, r - 1), n - (k - r));
    }
}

/// `n_choose_k` lists each subset once: [`choose_spec`] has no repeated
/// group.
pub proof fn law_choose_distinct(n: int, k: int)
    requires
        0 <= k,
        n <= usize::MAX,
    ensures
        choose_spec(n, k).no_duplicates(),
{
    lemma_rounds_distinct(n, k, k);
}

/// The groups of every round are increasing below `n`.
proof fn lemma_rounds_increasing(n: int, k: int, r: int)
    requires
        0 <= r <= k,
        n <= usize::MAX,
    ensures
        forall|i: int| 0 <= i < choose_rounds(n, k, r).len() ==> increasing_below(#[trigger] choose_rounds(n, k, r)[i], n),
    decreases r,
{
    if r > 0 {
        lemma_rounds_increasing(n, k, r - 1);
        lemma_extend_increasing(choose_rounds(n, k, r - 1), n - (k - r), n);
    } else {
        assert(choose_rounds(n, k, 0)[0] =~= Seq::<usize>::empty());
    }
}

/// How many of the first `k` of `nums` have the value `b` under `tv`.
pub open spec fn count_val(tv: Seq<bool>, nums: Seq<usize>, b: bool, k: int) -> nat
    decreases k,
{
    if k <= 0 { 0 } else { count_val(tv, nums, b, k - 1) + if tv[nums[k - 1] - 1] == b { 1nat } else { 0nat } }
}

/// The two counts add up.
proof fn lemma_count_split(tv: Seq<bool>, nums: Seq<usize>, k: int)
    requires
        0 <= k,
    ensures
        count_val(tv, nums, true, k) + count_val(tv, nums, false, k) == k,
    decreases k,
{
    if k > 0 {
        lemma_count_split(tv, nums, k - 1);
    }
}

/// Positions `g` (increasing, below `k`) whose numbers all have the value
/// `b` count toward `b`.
proof fn lemma_count_at_least(tv: Seq<bool>, nums: Seq<usize>, b: bool, g: Seq<usize>, k: int)
    requires
        increasing_below(g, k),
        forall|t: int| 0 <= t < g.len() ==> tv[nums[#[trigger] g[t] as int] - 1] == b,
    ensures
        count_val(tv, nums, b, k) >= g.len(),
    decreases k,
{
    if g.len() > 0 {
        assert(g[0] < k);
    }
    if k > 0 && g.len() > 0 {
        let l = g.drop_last();
        assert(tv[nums[g[g.len() - 1] as int] - 1] == b);
        if g.last() == k - 1 {
            assert forall|a: int| 0 <= a < l.len() implies l[a] < k - 1 by {
                assert(g[a] < g[g.len() - 1]);
            }
            assert forall|t: int| 0 <= t < l.len() implies tv[nums[#[trigger] l[t] as int] - 1] == b by {
                assert(l[t] == g[t]);
            }
            lemma_count_at_least(tv, nums, b, l, k - 1);
        } else {
            assert forall|a: int| 0 <= a < g.len() implies g[a] < k - 1 by {
                if a < g.len() - 1 { assert(g[a] < g[g.len() - 1]); }
            }
            lemma_count_at_least(tv, nums, b, g, k - 1);
        }
    }
}

/// With at least `m` numbers of value `b` among the first `k`, some `m`
/// increasing positions below `k` all have it.
proof fn lemma_pick_positions(tv: Seq<bool>, nums: Seq<usize>, b: bool, m: int, k: int) -> (g: Seq<usize>)
    requires
        0 <= m <= count_val(tv, nums, b, k),
        0 <= k <= usize::MAX,
    ensures
        g.len() == m,
        increasing_below(g, k),
        forall|t: int| 0 <= t < g.len() ==> tv[nums[#[trigger] g[t] as int] - 1] == b,
    decreases k,
{
    if m == 0 {
        Seq::empty()
    } else if count_val(tv, nums, b, k - 1) >= m {
        let g = lemma_pick_positions(tv, nums, b, m, k - 1);
        g
    } else {
        let g0 = lemma_pick_positions(tv, nums, b, m - 1, k - 1);
        let g = g0.push((k - 1) as usize);
        assert forall|t: int| 0 <= t < g.len() implies tv[nums[#[trigger] g[t] as int] - 1] == b by {
            if t < g0.len() { assert(g[t] == g0[t]); }
        }
        assert forall|a: int, c: int| 0 <= a < c < g.len() implies g[a] < g[c] by {
            if c < g0.len() { assert(g[a] == g0[a] && g[c] == g0[c]); } else { assert(g[a] == g0[a]); }
        }
        g
    }
}

/// All clauses over the `m`-subsets, negated when `neg`, hold exactly when
/// fewer than `m` of the numbers have the value `neg`.
proof fn lemma_subsets_sat(tv: Seq<bool>, nums: Seq<usize>, m: int, neg: bool)
    requires
        1 <= m,
        nums.len() <= usize::MAX,
        forall|i: int| 0 <= i < nums.len() ==> 1 <= #[trigger] nums[i] <= tv.len(),
    ensures
        (forall|j: int| 0 <= j < subset_clauses(nums, m, neg).len() ==> #[trigger] clause_sat(tv, subset_clauses(nums, m, neg)[j]))
            <==> count_val(tv, nums, neg, nums.len() as int) < m,
{
    let len = nums.len() as int;
    let cs = subset_clauses(nums, m, neg);
    let combos = choose_spec(len, m);
    if count_val(tv, nums, neg, len) < m {
        assert forall|j: int| 0 <= j < cs.len() implies #[trigger] clause_sat(tv, cs[j]) by {
            let g = combos[j];
            assert(combos.contains(g));
            law_choose_members(len, m, g);
            assert(cs[j] == subset_clause(g, nums, neg));
            if !clause_sat(tv, cs[j]) {
                assert forall|t: int| 0 <= t < g.len() implies tv[nums[#[trigger] g[t] as int] - 1] == neg by {
                    assert(!lit_true(tv, cs[j][t]));
                }
                lemma_count_at_least(tv, nums, neg, g, len);
            }
        }
    } else {
        let g = lemma_pick_positions(tv, nums, neg, m, len);
        law_choose_members(len, m, g);
        let j = choose|j: int| 0 <= j < combos.len() && combos[j] == g;
        assert(cs[j] == subset_clause(g, nums, neg));
        assert forall|t: int| 0 <= t < cs[j].len() implies !lit_true(tv, #[trigger] cs[j][t]) by {
            assert(tv[nums[g[t] as int] - 1] == neg);
        }
        assert(!clause_sat(tv, cs[j]));
    }
}

/// The exactly-n clauses say what they are for: an assignment satisfies
/// all of [`exactly_n_spec`]`(n, nums)` if and only if exactly `n` of the
/// variables `nums` are true.
pub proof fn law_exactly_n(n: int, nums: Seq<usize>, tv: Seq<bool>)
    requires
        0 <= n <= nums.len(),
        nums.len() <= usize::MAX,
        forall|i: int| 0 <= i < nums.len() ==> 1 <= #[trigger] nums[i] <= tv.len(),
    ensures
        (forall|j: int| 0 <= j < exactly_n_spec(n, nums).len() ==> #[trigger] clause_sat(tv, exactly_n_spec(n, nums)[j]))
            <==> count_val(tv, nums, true, nums.len() as int) == n,
{
    let len = nums.len() as int;
    let a = subset_clauses(nums, n + 1, true);
    let b = subset_clauses(nums, len - n + 1, false);
    let e = exactly_n_spec(n, nums);
    lemma_subsets_sat(tv, nums, n + 1, true);
    lemma_subsets_sat(tv, nums, len - n + 1, false);
    lemma_count_split(tv, nums, len);
    if forall|j: int| 0 <= j < e.len() ==> #[trigger] clause_sat(tv, e[j]) {
        assert forall|j: int| 0 <= j < a.len() implies #[trigger] clause_sat(tv, a[j]) by {
            assert(e[j] == a[j]);
        }
        assert forall|j: int| 0 <= j < b.len() implies #[trigger] clause_sat(tv, b[j]) by {
            assert(e[a.len() + j] == b[j]);
        }
    }
    if count_val(tv, nums, true, len) == n {
        assert forall|j: int| 0 <= j < e.len() implies #[trigger] clause_sat(tv, e[j]) by {
            if j < a.len() { assert(e[j] == a[j]); } else { assert(e[j] == b[j - a.len()]); }
        }
    }
}

/// Every clause of the list is satisfied by `a`.
pub open spec fn all_sat(a: Seq<bool>, cs: Seq<Seq<Lit>>) -> bool {
    forall|k: int| 0 <= k < cs.len() ==> #[trigger] clause_sat(a, cs[k])
}

/// Digit `d` stands somewhere in row `r`.
pub open spec fn row_has(a: Seq<bool>, r: int, d: int) -> bool {
    exists|c: int| 0 <= c < 9 && #[trigger] digit_value(a, r, c, d)
}

/// Digit `d` stands somewhere in column `c`.
pub open spec fn col_has(a: Seq<bool>, c: int, d: int) -> bool {
    exists|r: int| 0 <= r < 9 && #[trigger] digit_value(a, r, c, d)
}

/// Digit `d` stands somewhere in block `b` (blocks numbered row by row).
pub open spec fn block_has(a: Seq<bool>, b: int, d: int) -> bool {
    exists|t: int| 0 <= t < 9 && #[trigger] digit_value(a, 3 * (b / 3) + t / 3, 3 * (b % 3) + t % 3, d)
}

/// A solved grid: every cell holds exactly one digit, and every digit
/// stands in every row, every column and every block.
pub open spec fn grid_solved(a: Seq<bool>) -> bool {
    &&& forall|r: int, c: int| 0 <= r < 9 && 0 <= c < 9 ==> #[trigger] digits_true(a, r, c, 9) == 1
    &&& forall|r: int, d: int| 0 <= r < 9 && 0 <= d < 9 ==> #[trigger] row_has(a, r, d)
    &&& forall|c: int, d: int| 0 <= c < 9 && 0 <= d < 9 ==> #[trigger] col_has(a, c, d)
    &&& forall|b: int, d: int| 0 <= b < 9 && 0 <= d < 9 ==> #[trigger] block_has(a, b, d)
}

/// Row `r`'s cells hold one digit each, and every digit stands in row `r`
/// and in column `r`.
pub open spec fn line_ok(a: Seq<bool>, r: int) -> bool {
    &&& (forall|c: int| 0 <= c < 9 ==> #[trigger] digits_true(a, r, c, 9) == 1)
    &&& (forall|d: int| 0 <= d < 9 ==> #[trigger] row_has(a, r, d))
    &&& (forall|d: int| 0 <= d < 9 ==> #[trigger] col_has(a, r, d))
}

/// Clauses of a concatenation hold when those of both parts do.
proof fn lemma_all_sat_cat(a: Seq<bool>, x: Seq<Seq<Lit>>, y: Seq<Seq<Lit>>)
    ensures
        all_sat(a, x + y) <==> (all_sat(a, x) && all_sat(a, y)),
{
    if all_sat(a, x + y) {
        assert forall|k: int| 0 <= k < x.len() implies #[trigger] clause_sat(a, x[k]) by { assert((x + y)[k] == x[k]); }
        assert forall|k: int| 0 <= k < y.len() implies #[trigger] clause_sat(a, y[k]) by { assert((x + y)[x.len() + k] == y[k]); }
    }
    if all_sat(a, x) && all_sat(a, y) {
        assert forall|k: int| 0 <= k < (x + y).len() implies #[trigger] clause_sat(a, (x + y)[k]) by {
            if k < x.len() { assert((x + y)[k] == x[k]); } else { assert((x + y)[k] == y[k - x.len()]); }
        }
    }
}

/// The cells' clauses of the first `j` cells of row `r`.
proof fn lemma_cells_sat(a: Seq<bool>, r: int, j: int)
    requires
        a.len() == 729,
        0 <= r < 9,
        0 <= j <= 9,
    ensures
        all_sat(a, cells_of_row(r, j)) <==> forall|c: int| 0 <= c < j ==> #[trigger] digits_true(a, r, c, 9) == 1,
    decreases j,
{
    if j > 0 {
        lemma_cells_sat(a, r, j - 1);
        lemma_all_sat_cat(a, cells_of_row(r, j - 1), only_one_clauses(r, j - 1, 512));
        law_only_one_exactly_one(a, r, j - 1);
    }
}

/// Row, column and block clauses, digit by digit.
proof fn lemma_lines_sat(a: Seq<bool>, i: int)
    requires
        a.len() == 729,
        0 <= i < 9,
    ensures
        all_sat(a, row_clauses(i)) <==> forall|d: int| 0 <= d < 9 ==> #[trigger] row_has(a, i, d),
        all_sat(a, col_clauses(i)) <==> forall|d: int| 0 <= d < 9 ==> #[trigger] col_has(a, i, d),
        all_sat(a, block_clauses(i / 3, i % 3)) <==> forall|d: int| 0 <= d < 9 ==> #[trigger] block_has(a, i, d),
{
    assert forall|d: int| 0 <= d < 9 implies (clause_sat(a, #[trigger] row_clauses(i)[d]) <==> row_has(a, i, d)) by {
        let cl = row_clauses(i)[d];
        if clause_sat(a, cl) {
            let j = choose|j: int| 0 <= j < cl.len() && lit_true(a, #[trigger] cl[j]);
            assert(digit_value(a, i, j, d));
        }
        if row_has(a, i, d) {
            let c = choose|c: int| 0 <= c < 9 && #[trigger] digit_value(a, i, c, d);
            assert(lit_true(a, cl[c]));
        }
    }
    assert forall|d: int| 0 <= d < 9 implies (clause_sat(a, #[trigger] col_clauses(i)[d]) <==> col_has(a, i, d)) by {
        let cl = col_clauses(i)[d];
        if clause_sat(a, cl) {
            let j = choose|j: int| 0 <= j < cl.len() && lit_true(a, #[trigger] cl[j]);
            assert(digit_value(a, j, i, d));
        }
        if col_has(a, i, d) {
            let r = choose|r: int| 0 <= r < 9 && #[trigger] digit_value(a, r, i, d);
            assert(lit_true(a, cl[r]));
        }
    }
    assert forall|d: int| 0 <= d < 9 implies (clause_sat(a, #[trigger] block_clauses(i / 3, i % 3)[d]) <==> block_has(a, i, d)) by {
        let cl = block_clauses(i / 3, i % 3)[d];
        if clause_sat(a, cl) {
            let j = choose|j: int| 0 <= j < cl.len() && lit_true(a, #[trigger] cl[j]);
            assert(0 <= j / 3 < 3 && 0 <= j % 3 < 3);
            assert(digit_value(a, 3 * (i / 3) + j / 3, 3 * (i % 3) + j % 3, d));
        }
        if block_has(a, i, d) {
            let t = choose|t: int| 0 <= t < 9 && #[trigger] digit_value(a, 3 * (i / 3) + t / 3, 3 * (i % 3) + t % 3, d);
            assert(0 <= t / 3 < 3 && 0 <= t % 3 < 3);
            assert(lit_true(a, cl[t]));
        }
    }
    if all_sat(a, row_clauses(i)) {
        assert forall|d: int| 0 <= d < 9 implies #[trigger] row_has(a, i, d) by { assert(clause_sat(a, row_clauses(i)[d])); }
    }
    if forall|d: int| 0 <= d < 9 ==> #[trigger] row_has(a, i, d) {
        assert forall|k: int| 0 <= k < row_clauses(i).len() implies #[trigger] clause_sat(a, row_clauses(i)[k]) by { assert(row_has(a, i, k)); }
    }
    if all_sat(a, col_clauses(i)) {
        assert forall|d: int| 0 <= d < 9 implies #[trigger] col_has(a, i, d) by { assert(clause_sat(a, col_clauses(i)[d])); }
    }
    if forall|d: int| 0 <= d < 9 ==> #[trigger] col_has(a, i, d) {
        assert forall|k: int| 0 <= k < col_clauses(i).len() implies #[trigger] clause_sat(a, col_clauses(i)[k]) by { assert(col_has(a, i, k)); }
    }
    if all_sat(a, block_clauses(i / 3, i % 3)) {
        assert forall|d: int| 0 <= d < 9 implies #[trigger] block_has(a, i, d) by { assert(clause_sat(a, block_clauses(i / 3, i % 3)[d])); }
    }
    if forall|d: int| 0 <= d < 9 ==> #[trigger] block_has(a, i, d) {
        assert forall|k: int| 0 <= k < block_clauses(i / 3, i % 3).len() implies #[trigger] clause_sat(a, block_clauses(i / 3, i % 3)[k]) by {
            assert(block_has(a, i, k));
        }
    }
}

/// The rules of the first `i` rows and columns.
proof fn lemma_rules_sat(a: Seq<bool>, i: int)
    requires
        a.len() == 729,
        0 <= i <= 9,
    ensures
        all_sat(a, rules_upto(i)) <==> forall|r: int| 0 <= r < i ==> #[trigger] line_ok(a, r),
    decreases i,
{
    if i > 0 {
        lemma_rules_sat(a, i - 1);
        let p = rules_upto(i - 1);
        lemma_all_sat_cat(a, p, cells_of_row(i - 1, 9));
        lemma_all_sat_cat(a, p + cells_of_row(i - 1, 9), row_clauses(i - 1));
        lemma_all_sat_cat(a, p + cells_of_row(i - 1, 9) + row_clauses(i - 1), col_clauses(i - 1));
        lemma_cells_sat(a, i - 1, 9);
        lemma_lines_sat(a, i - 1);
        if all_sat(a, rules_upto(i)) {
            assert forall|r: int| 0 <= r < i implies #[trigger] line_ok(a, r) by {
                if r == i - 1 {
                    assert(forall|c: int| 0 <= c < 9 ==> #[trigger] digits_true(a, r, c, 9) == 1);
                }
            }
        }
        if forall|r: int| 0 <= r < i ==> #[trigger] line_ok(a, r) {
            assert(line_ok(a, i - 1));
            assert forall|r: int| 0 <= r < i - 1 implies #[trigger] line_ok(a, r) by {}
        }
    }
}

/// The block rules of the first `b` blocks.
proof fn lemma_blocks_sat(a: Seq<bool>, b: int)
    requires
        a.len() == 729,
        0 <= b <= 9,
    ensures
        all_sat(a, blocks_upto(b)) <==> forall|x: int, d: int| 0 <= x < b && 0 <= d < 9 ==> #[trigger] block_has(a, x, d),
    decreases b,
{
    if b > 0 {
        lemma_blocks_sat(a, b - 1);
        lemma_all_sat_cat(a, blocks_upto(b - 1), block_clauses((b - 1) / 3, (b - 1) % 3));
        lemma_lines_sat(a, b - 1);
    }
}

/// The Sudoku rules say what they are for: an assignment of the 729
/// variables satisfies all of them exactly when every cell holds exactly one
/// digit and every digit stands in every row, every column and every block.
pub proof fn law_sudoku_rules(a: Seq<bool>)
    requires
        a.len() == 729,
    ensures
        all_sat(a, sudoku_rules()) <==> grid_solved(a),
{
    lemma_all_sat_cat(a, rules_upto(9), blocks_upto(9));
    lemma_rules_sat(a, 9);
    lemma_blocks_sat(a, 9);
    if grid_solved(a) {
        assert forall|r: int| 0 <= r < 9 implies #[trigger] line_ok(a, r) by {}
    }
    if all_sat(a, sudoku_rules()) {
        assert forall|r: int, c: int| 0 <= r < 9 && 0 <= c < 9 implies #[trigger] digits_true(a, r, c, 9) == 1 by { assert(line_ok(a, r)); }
        assert forall|r: int, d: int| 0 <= r < 9 && 0 <= d < 9 implies #[trigger] row_has(a, r, d) by { assert(line_ok(a, r)); }
        assert forall|c: int, d: int| 0 <= c < 9 && 0 <= d < 9 implies #[trigger] col_has(a, c, d) by { assert(line_ok(a, c)); }
    }
}

/// What a cell shows: with exactly the digit `d0` true among its nine, the
/// rendered cell is the ASCII digit `d0 + 1` followed by a space.
pub proof fn law_cell_shows_digit(a: Seq<bool>, r: int, c: int, d0: int)
    requires
        a.len() == 729,
        0 <= r < 9,
        0 <= c < 9,
        0 <= d0 < 9,
        forall|d: int| 0 <= d < 9 ==> #[trigger] a[cell_var(r, c, d) - 1] == (d == d0),
    ensures
        cell_digits(a, r, c, 9) == seq![(49 + d0) as u8, 32u8],
{
    lemma_cell_digits_prefix(a, r, c, d0, 9);
}

/// The first `i` digits of a cell with only `d0` true.
proof fn lemma_cell_digits_prefix(a: Seq<bool>, r: int, c: int, d0: int, i: int)
    requires
        a.len() == 729,
        0 <= r < 9,
        0 <= c < 9,
        0 <= d0 < 9,
        0 <= i <= 9,
        forall|d: int| 0 <= d < 9 ==> #[trigger] a[cell_var(r, c, d) - 1] == (d == d0),
    ensures
        cell_digits(a, r, c, i) == if i > d0 { seq![(49 + d0) as u8, 32u8] } else { Seq::<u8>::empty() },
    decreases i,
{
    if i > 0 {
        lemma_cell_digits_prefix(a, r, c, d0, i - 1);
        assert(a[cell_var(r, c, i - 1) - 1] == (i - 1 == d0));
        if i - 1 == d0 {
            assert(Seq::<u8>::empty() + seq![(49 + d0) as u8, 32u8] =~= seq![(49 + d0) as u8, 32u8]);
        } else if i - 1 > d0 {
            assert(seq![(49 + d0) as u8, 32u8] + Seq::<u8>::empty() =~= seq![(49 + d0) as u8, 32u8]);
        } else {
            assert(Seq::<u8>::empty() + Seq::<u8>::empty() =~= Seq::<u8>::empty());
        }
    }
}

/// A cell shows digit `d + 1` exactly when digit `d` is true in it: the
/// rendered cell holds the ASCII digit `49 + d` just when variable
/// `81 r + 9 c + d + 1` is true.
pub proof fn law_cell_digit_present(a: Seq<bool>, r: int, c: int, d: int)
    requires
        a.len() == 729,
        0 <= r < 9,
        0 <= c < 9,
        0 <= d < 9,
    ensures
        cell_digits(a, r, c, 9).contains((49 + d) as u8) <==> a[cell_var(r, c, d) - 1],
{
    lemma_cell_digit_present(a, r, c, d, 9);
}

proof fn lemma_cell_digit_present(a: Seq<bool>, r: int, c: int, d: int, i: int)
    requires
        a.len() == 729,
        0 <= r < 9,
        0 <= c < 9,
        0 <= d < 9,
        0 <= i <= 9,
    ensures
        cell_digits(a, r, c, i).contains((49 + d) as u8) <==> (d < i && a[cell_var(r, c, d) - 1]),
    decreases i,
{
    if i > 0 {
        lemma_cell_digit_present(a, r, c, d, i - 1);
        let p = cell_digits(a, r, c, i - 1);
        let x = if a[cell_var(r, c, i - 1) - 1] { seq![(49 + i - 1) as u8, 32u8] } else { Seq::<u8>::empty() };
        let q = p + x;
        if q.contains((49 + d) as u8) {
            let k = choose|k: int| 0 <= k < q.len() && q[k] == (49 + d) as u8;
            if k < p.len() {
                assert(p[k] == q[k]);
            } else {
                assert(x[k - p.len()] == q[k]);
            }
        }
        if d < i && a[cell_var(r, c, d) - 1] {
            if d < i - 1 {
                let k = choose|k: int| 0 <= k < p.len() && p[k] == (49 + d) as u8;
                assert(q[k] == p[k]);
            } else {
                assert(q[p.len() as int] == (49 + d) as u8);
            }
        }
    }
}

/// A cell's rendering has two bytes per true digit.
proof fn lemma_cell_digits_len(a: Seq<bool>, r: int, c: int, i: int)
    requires
        a.len() == 729,
        0 <= r < 9,
        0 <= c < 9,
        0 <= i <= 9,
    ensures
        cell_digits(a, r, c, i).len() == 2 * digits_true(a, r, c, i),
    decreases i,
{
    if i > 0 {
        lemma_cell_digits_len(a, r, c, i - 1);
    }
}

/// The length of a rendered row's first `c` cells when each cell holds one digit.
proof fn lemma_row_cells_len(a: Seq<bool>, r: int, c: int)
    requires
        a.len() == 729,
        0 <= r < 9,
        0 <= c <= 9,
        forall|x: int| 0 <= x < 9 ==> #[trigger] digits_true(a, r, x, 9) == 1,
    ensures
        row_cells(a, r, c).len() == 2 * c + (c + 2) / 3,
    decreases c,
{
    if c > 0 {
        lemma_row_cells_len(a, r, c - 1);
        lemma_cell_digits_len(a, r, c - 1, 9);
    }
}

/// A longer run of a row's cells begins with a shorter one.
proof fn lemma_row_cells_prefix(a: Seq<bool>, r: int, c: int, c2: int)
    requires
        0 <= c <= c2,
    ensures
        row_cells(a, r, c2).len() >= row_cells(a, r, c).len(),
        row_cells(a, r, c2).take(row_cells(a, r, c).len() as int) == row_cells(a, r, c),
    decreases c2,
{
    if c < c2 {
        lemma_row_cells_prefix(a, r, c, c2 - 1);
        let p = row_cells(a, r, c2 - 1);
        let q = row_cells(a, r, c2);
        assert(q.take(p.len() as int) =~= p);
        assert(q.take(row_cells(a, r, c).len() as int) =~= p.take(row_cells(a, r, c).len() as int));
    } else {
        assert(row_cells(a, r, c).take(row_cells(a, r, c).len() as int) =~= row_cells(a, r, c));
    }
}

/// The length of the first `r` rendered rows of a grid whose cells each hold one digit.
proof fn lemma_grid_rows_len(a: Seq<bool>, r: int)
    requires
        a.len() == 729,
        0 <= r <= 9,
        forall|x: int, y: int| 0 <= x < 9 && 0 <= y < 9 ==> #[trigger] digits_true(a, x, y, 9) == 1,
    ensures
        grid_rows(a, r).len() == 23 * r + 21 * ((r + 2) / 3),
    decreases r,
{
    if r > 0 {
        lemma_grid_rows_len(a, r - 1);
        assert forall|x: int| 0 <= x < 9 implies #[trigger] digits_true(a, r - 1, x, 9) == 1 by {}
        lemma_row_cells_len(a, r - 1, 9);
    }
}

/// More rendered rows begin with fewer.
proof fn lemma_grid_rows_prefix(a: Seq<bool>, r: int, r2: int)
    requires
        0 <= r <= r2,
    ensures
        grid_rows(a, r2).len() >= grid_rows(a, r).len(),
        grid_rows(a, r2).take(grid_rows(a, r).len() as int) == grid_rows(a, r),
    decreases r2,
{
    if r < r2 {
        lemma_grid_rows_prefix(a, r, r2 - 1);
        let p = grid_rows(a, r2 - 1);
        let q = grid_rows(a, r2);
        assert(q.take(p.len() as int) =~= p);
        assert(q.take(grid_rows(a, r).len() as int) =~= p.take(grid_rows(a, r).len() as int));
    } else {
        assert(grid_rows(a, r).take(grid_rows(a, r).len() as int) =~= grid_rows(a, r));
    }
}

/// The rendered grid shows every cell's digit: in a grid whose cells each
/// hold exactly one digit, the byte written for cell `(r, c)` (in line
/// `r + r / 3 + 1`, after `c / 3 + 1` bars and `c` earlier cells) is the
/// ASCII digit `d + 1` of the cell's true digit `d`.
pub proof fn law_grid_shows_digits(a: Seq<bool>, r: int, c: int, d: int)
    requires
        a.len() == 729,
        0 <= r < 9,
        0 <= c < 9,
        0 <= d < 9,
        forall|x: int, y: int| 0 <= x < 9 && 0 <= y < 9 ==> #[trigger] digits_true(a, x, y, 9) == 1,
        a[cell_var(r, c, d) - 1],
    ensures
        grid_text(a)[23 * r + 21 * (r / 3 + 1) + c / 3 + 1 + 2 * c] == (49 + d) as u8,
{
    assert(digits_true(a, r, c, 9) == 1);
    assert forall|e: int| 0 <= e < 9 implies #[trigger] a[cell_var(r, c, e) - 1] == (e == d) by {
        if e != d && a[cell_var(r, c, e) - 1] {
            lemma_two_digits(a, r, c, d, e, 9);
        }
    }
    law_cell_shows_digit(a, r, c, d);
    assert forall|x: int| 0 <= x < 9 implies #[trigger] digits_true(a, r, x, 9) == 1 by {}
    lemma_row_cells_len(a, r, c);
    lemma_row_cells_prefix(a, r, c + 1, 9);
    let rc = row_cells(a, r, c + 1);
    let k = row_cells(a, r, c).len() + (if c % 3 == 0 { 1int } else { 0int });
    assert(rc == row_cells(a, r, c) + (if c % 3 == 0 { seq![124u8] } else { Seq::<u8>::empty() }) + cell_digits(a, r, c, 9));
    assert(rc[k] == (49 + d) as u8);
    assert(k == 2 * c + c / 3 + 1);
    let full = row_cells(a, r, 9);
    assert(full[k] == rc[k]) by {
        assert(full.take(rc.len() as int)[k] == full[k]);
    }
    lemma_grid_rows_len(a, r);
    lemma_grid_rows_prefix(a, r + 1, 9);
    let gr = grid_rows(a, r + 1);
    let pre = grid_rows(a, r) + (if r % 3 == 0 { dashes() } else { Seq::<u8>::empty() });
    assert(gr == pre + full + seq![124u8, 10u8]);
    assert(pre.len() == 23 * r + 21 * (r / 3 + 1));
    let pos = pre.len() + k;
    assert(gr[pos] == full[k]);
    let g9 = grid_rows(a, 9);
    assert(g9[pos] == gr[pos]) by {
        assert(g9.take(gr.len() as int)[pos] == g9[pos]);
    }
    assert(grid_text(a)[pos] == g9[pos]);
}

/// Two true digits make the count at least two.
proof fn lemma_two_digits(a: Seq<bool>, r: int, c: int, d: int, e: int, i: int)
    requires
        a.len() == 729,
        0 <= r < 9,
        0 <= c < 9,
        0 <= d < 9,
        0 <= e < 9,
        d != e,
        d < i,
        e < i,
        i <= 9,
        a[cell_var(r, c, d) - 1],
        a[cell_var(r, c, e) - 1],
    ensures
        digits_true(a, r, c, i) >= 2,
    decreases i,
{
    if d < i - 1 && e < i - 1 {
        lemma_two_digits(a, r, c, d, e, i - 1);
    } else {
        let o = if d == i - 1 { e } else { d };
        lemma_one_digit(a, r, c, o, i - 1);
    }
}

/// One true digit makes the count at least one.
proof fn lemma_one_digit(a: Seq<bool>, r: int, c: int, d: int, i: int)
    requires
        a.len() == 729,
        0 <= r < 9,
        0 <= c < 9,
        0 <= d < i <= 9,
        a[cell_var(r, c, d) - 1],
    ensures
        digits_true(a, r, c, i) >= 1,
    decreases i,
{
    if d < i - 1 {
        lemma_one_digit(a, r, c, d, i - 1);
    }
}

} // verus!
