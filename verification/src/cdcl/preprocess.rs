//! Clause simplification: removing variables from clauses, unit
//! propagation at level zero, subsumption, self-subsuming resolution and
//! equivalent-variable substitution.
use vstd::prelude::*;
use crate::cdcl::types::{Clause, Variable, Halt, db_ok, clause_ok, variable_ok, first_pos, sign_of, is_first_pos, lemma_first_pos_exists, position_usize, contains_usize, get_literals, clause_lits, lit_int};
use crate::cdcl::literals::{subsumption, resolvent_candidates, contains_i32, negatable, candidates_from, candidate_at, rest_spec, subsumption_spec, lits_subset};
use crate::cdcl::watch::{values_kept, double_unwatch, switch_watch, watch_list_replaced, watch_list, without};
use crate::cdcl::heuristics::{pq_ok, indices_ok, contains_index, watches_held};

verus! {

/// `new` is `old` where clause `j` lost the literal at position `p`; its
/// watched pair may differ.
pub open spec fn literal_removed(old: Seq<Clause>, new: Seq<Clause>, j: int, p: int) -> bool {
    &&& new.len() == old.len()
    &&& forall|i: int| 0 <= i < old.len() && i != j ==> #[trigger] new[i] == old[i]
    &&& new[j].variables@ == old[j].variables@.remove(p)
    &&& new[j].signs@ == old[j].signs@.remove(p)
    &&& new[j].learned == old[j].learned
}

/// Does the clause hold a free variable that it does not watch?
pub open spec fn has_spare_watch(c: Clause, variables: Seq<Variable>) -> bool {
    exists|k: int| 0 <= k < c.variables@.len() && #[trigger] c.variables@[k] != c.watched@[0]
        && c.variables@[k] != c.watched@[1] && variables[c.variables@[k] as int].value == 2
}

/// Is position `k` of the clause a free variable that the clause does not
/// watch, the first such?
pub open spec fn first_spare(c: Clause, variables: Seq<Variable>, k: int) -> bool {
    &&& 0 <= k < c.variables@.len()
    &&& c.variables@[k] != c.watched@[0] && c.variables@[k] != c.watched@[1] && variables[c.variables@[k] as int].value == 2
    &&& forall|q: int| 0 <= q < k ==> !(#[trigger] c.variables@[q] != c.watched@[0] && c.variables@[q] != c.watched@[1]
        && variables[c.variables@[q] as int].value == 2)
}

/// `new` is `old` where clause `ci` left the watch lists of both variables
/// that clause `c` watches.
pub open spec fn unwatched_both(old: Seq<Variable>, new: Seq<Variable>, c: Clause, ci: usize) -> bool {
    let w0 = c.watched@[0];
    let w1 = c.watched@[1];
    exists|mid: Seq<Variable>|
        watch_list_replaced(old, mid, w0, sign_of(c, w0), without(watch_list(old[w0 as int], sign_of(c, w0)), ci))
        && watch_list_replaced(mid, new, w1, sign_of(c, w1), without(watch_list(mid[w1 as int], sign_of(c, w1)), ci))
}

/// `new` is `old` where clause `ci` left the watch list of `from` and
/// joined that of `to`.
pub open spec fn watch_moved(old: Seq<Variable>, new: Seq<Variable>, c: Clause, ci: usize, from: usize, to: usize) -> bool {
    exists|mid: Seq<Variable>|
        watch_list_replaced(old, mid, from, sign_of(c, from), without(watch_list(old[from as int], sign_of(c, from)), ci))
        && watch_list_replaced(mid, new, to, sign_of(c, to), watch_list(mid[to as int], sign_of(c, to)).push(ci))
}

/// Removing `var` from a clause that is not a unit clause fails where the
/// clause does not hold `var`, where a binary clause does not hold the
/// variables it watches, or where a longer clause watches `var` and has no
/// free variable to watch in its place.
pub open spec fn delete_variable_fails(c: Clause, variables: Seq<Variable>, var: usize) -> bool {
    &&& c.variables@.len() != 1
    &&& {
        ||| !c.variables@.contains(var)
        ||| c.variables@.len() == 2 && !watches_held(c)
        ||| c.variables@.len() > 2 && (c.watched@[0] == var || c.watched@[1] == var) && !has_spare_watch(c, variables)
    }
}

/// Whether a clause has a spare watch depends on the values alone.
pub proof fn lemma_spare_watch_values(c: Clause, a: Seq<Variable>, b: Seq<Variable>, nvars: nat)
    requires
        clause_ok(c, nvars),
        a.len() == nvars,
        values_kept(a, b),
    ensures
        has_spare_watch(c, a) == has_spare_watch(c, b),
{
    if has_spare_watch(c, a) {
        let k = choose|k: int| 0 <= k < c.variables@.len() && #[trigger] c.variables@[k] != c.watched@[0]
            && c.variables@[k] != c.watched@[1] && a[c.variables@[k] as int].value == 2;
        assert(b[c.variables@[k] as int].value == 2);
    }
    if has_spare_watch(c, b) {
        let k = choose|k: int| 0 <= k < c.variables@.len() && #[trigger] c.variables@[k] != c.watched@[0]
            && c.variables@[k] != c.watched@[1] && b[c.variables@[k] as int].value == 2;
        assert(a[c.variables@[k] as int].value == 2);
    }
}

/// A clause ready for simplification: its variables are distinct and, but
/// for `x`, free, and a clause of two or more literals watches two distinct
/// variables of its own.
pub open spec fn clause_ready_but(c: Clause, variables: Seq<Variable>, x: int) -> bool {
    &&& forall|a: int, b: int| 0 <= a < b < c.variables@.len() ==> c.variables@[a] != c.variables@[b]
    &&& forall|k: int| 0 <= k < c.variables@.len() && c.variables@[k] != x ==> variables[#[trigger] c.variables@[k] as int].value == 2
    &&& c.variables@.len() >= 2 ==> {
        &&& c.watched@[0] != c.watched@[1]
        &&& c.variables@.contains(c.watched@[0])
        &&& c.variables@.contains(c.watched@[1])
    }
}

/// Every clause not in the deleted list is ready (see [`clause_ready_but`]).
pub open spec fn db_ready(clauses: Seq<Clause>, deleted: Seq<usize>, variables: Seq<Variable>) -> bool {
    forall|k: int| 0 <= k < clauses.len() && !deleted.contains(k as usize) ==> clause_ready_but(#[trigger] clauses[k], variables, -1)
}

/// Readiness depends on the values alone.
pub proof fn lemma_ready_values(c: Clause, a: Seq<Variable>, b: Seq<Variable>, x: int)
    requires
        clause_ok(c, a.len()),
        values_kept(a, b),
        clause_ready_but(c, a, x),
    ensures
        clause_ready_but(c, b, x),
{
    assert forall|k: int| 0 <= k < c.variables@.len() && c.variables@[k] != x implies b[#[trigger] c.variables@[k] as int].value == 2 by {
        assert(a[c.variables@[k] as int].value == 2);
    }
}

/// A ready clause holding `x` can always lose it.
pub proof fn lemma_ready_deletes(c: Clause, variables: Seq<Variable>, x: usize)
    requires
        clause_ready_but(c, variables, x as int),
        c.variables@.contains(x),
    ensures
        !delete_variable_fails(c, variables, x),
{
    let vs = c.variables@;
    if vs.len() > 2 && (c.watched@[0] == x || c.watched@[1] == x) {
        let w0 = c.watched@[0];
        let w1 = c.watched@[1];
        let k: int = if vs[0] != w0 && vs[0] != w1 { 0 } else if vs[1] != w0 && vs[1] != w1 { 1 } else { 2 };
        assert(vs[k] != w0 && vs[k] != w1) by {
            if k == 2 {
                assert(vs[0] != vs[1] && vs[0] != vs[2] && vs[1] != vs[2]);
            }
        }
        assert(vs[k] != x);
        assert(variables[vs[k] as int].value == 2);
        assert(has_spare_watch(c, variables));
    }
}

/// After losing `x`, a ready clause is ready with `x` gone.
pub proof fn lemma_ready_after_delete(c: Clause, c2: Clause, v0: Seq<Variable>, v1: Seq<Variable>, x: usize)
    requires
        clause_ready_but(c, v0, x as int),
        clause_ok(c, v0.len()),
        c.variables@.contains(x),
        c.variables@.len() >= 2,
        values_kept(v0, v1),
        c2.variables@ == c.variables@.remove(first_pos(c.variables@, x)),
        c2.signs@ == c.signs@.remove(first_pos(c.variables@, x)),
        c.variables@.len() == 2 || ({
            let w = c.watched@;
            if w[0] == x || w[1] == x {
                exists|k: int| first_spare(c, v0, k)
                    && c2.watched@ == (if w[0] == x { seq![c.variables@[k], w[1]] } else { seq![w[0], c.variables@[k]] })
            } else {
                c2.watched == c.watched
            }
        }),
    ensures
        clause_ready_but(c2, v1, -1),
        !c2.variables@.contains(x),
{
    let vs = c.variables@;
    lemma_first_pos_exists(vs, x);
    let p = first_pos(vs, x);
    let v2 = c2.variables@;
    assert forall|a: int, b: int| 0 <= a < b < v2.len() implies v2[a] != v2[b] by {
        let a1 = if a < p { a } else { a + 1 };
        let b1 = if b < p { b } else { b + 1 };
        assert(v2[a] == vs[a1] && v2[b] == vs[b1]);
    }
    assert forall|k: int| 0 <= k < v2.len() implies v2[k] != x by {
        let k1 = if k < p { k } else { k + 1 };
        assert(v2[k] == vs[k1]);
        assert(k1 != p);
    }
    assert(!v2.contains(x));
    assert forall|k: int| 0 <= k < v2.len() && v2[k] != -1 implies v1[#[trigger] v2[k] as int].value == 2 by {
        let k1 = if k < p { k } else { k + 1 };
        assert(v2[k] == vs[k1]);
        assert(v0[vs[k1] as int].value == 2);
    }
    if v2.len() >= 2 {
        let w = c.watched@;
        if w[0] == x || w[1] == x {
            let k = choose|k: int| first_spare(c, v0, k)
                && c2.watched@ == (if w[0] == x { seq![c.variables@[k], w[1]] } else { seq![w[0], c.variables@[k]] });
            assert(vs[k] != x);
            let k2 = if k < p { k } else { k - 1 };
            assert(k != p);
            assert(v2[k2] == vs[k]);
            let other = if w[0] == x { w[1] } else { w[0] };
            assert(other != x);
            let q = choose|q: int| 0 <= q < vs.len() && vs[q] == other;
            assert(q != p);
            let q2 = if q < p { q } else { q - 1 };
            assert(v2[q2] == other);
        } else {
            let q0 = choose|q: int| 0 <= q < vs.len() && vs[q] == w[0];
            let q1 = choose|q: int| 0 <= q < vs.len() && vs[q] == w[1];
            assert(q0 != p && q1 != p);
            let r0 = if q0 < p { q0 } else { q0 - 1 };
            let r1 = if q1 < p { q1 } else { q1 - 1 };
            assert(v2[r0] == w[0] && v2[r1] == w[1]);
        }
    }
}

/// The clauses not in the deleted list are ready: those below `j` with
/// nothing excepted, the others but for `x`.
pub open spec fn ready_from(clauses: Seq<Clause>, deleted: Seq<usize>, variables: Seq<Variable>, j: int, x: int) -> bool {
    forall|k: int| 0 <= k < clauses.len() && !deleted.contains(k as usize)
        ==> clause_ready_but(#[trigger] clauses[k], variables, if k < j { -1 } else { x })
}

/// One clause further: when clause `j` is ready or gone and nothing else
/// changed but the watch lists and the deleted list's growth.
pub proof fn lemma_ready_step(cj: Seq<Clause>, vj: Seq<Variable>, dj: Seq<usize>, c2: Seq<Clause>, v2: Seq<Variable>, d2: Seq<usize>, j: int, x: int)
    requires
        ready_from(cj, dj, vj, j, x),
        db_ok(cj, vj),
        0 <= j < cj.len(),
        c2.len() == cj.len(),
        forall|k: int| 0 <= k < cj.len() && k != j ==> #[trigger] c2[k] == cj[k],
        forall|k: usize| #[trigger] dj.contains(k) ==> d2.contains(k),
        values_kept(vj, v2),
        !d2.contains(j as usize) ==> clause_ready_but(c2[j], v2, -1),
    ensures
        ready_from(c2, d2, v2, j + 1, x),
{
    assert forall|k: int| 0 <= k < c2.len() && !d2.contains(k as usize)
        implies clause_ready_but(#[trigger] c2[k], v2, if k < j + 1 { -1 } else { x }) by {
        if k != j {
            assert(c2[k] == cj[k]);
            assert(!dj.contains(k as usize));
            assert(clause_ok(cj[k], vj.len()));
            lemma_ready_values(cj[k], vj, v2, if k < j { -1 } else { x });
        }
    }
}

/// Readiness survives a change of one clause (ready again or deleted), a
/// longer deleted list and watch lists that moved.
pub proof fn lemma_ready_change(c1: Seq<Clause>, d1: Seq<usize>, v1: Seq<Variable>, c2: Seq<Clause>, d2: Seq<usize>, v2: Seq<Variable>, x: int)
    requires
        db_ready(c1, d1, v1),
        db_ok(c1, v1),
        0 <= x < c1.len(),
        c2.len() == c1.len(),
        forall|k: int| 0 <= k < c1.len() && k != x ==> #[trigger] c2[k] == c1[k],
        forall|k: usize| #[trigger] d1.contains(k) ==> d2.contains(k),
        values_kept(v1, v2),
        !d2.contains(x as usize) ==> clause_ready_but(c2[x], v2, -1),
    ensures
        db_ready(c2, d2, v2),
{
    assert forall|k: int| 0 <= k < c2.len() && !d2.contains(k as usize) implies clause_ready_but(#[trigger] c2[k], v2, -1) by {
        if k != x {
            assert(c2[k] == c1[k]);
            assert(!d1.contains(k as usize));
            assert(clause_ok(c1[k], v1.len()));
            lemma_ready_values(c1[k], v1, v2, -1);
        }
    }
}

/// Where the resolution candidate comes from: a literal of `vec1` whose
/// negation `vec2` holds; the candidate is that literal, or its negation for
/// kind `1`.
pub proof fn lemma_candidate_source(vec1: Seq<i32>, vec2: Seq<i32>, k: int)
    requires
        0 <= k,
        candidates_from(vec1, vec2, k).1 != 3,
    ensures
        exists|p: int| k <= p < vec1.len() && vec2.contains((-vec1[p]) as i32)
            && candidates_from(vec1, vec2, k).0 == (if candidates_from(vec1, vec2, k).1 == 1 { -(#[trigger] vec1[p] as int) } else { vec1[p] as int })
            && candidate_at(vec1, vec2, p) == Some(candidates_from(vec1, vec2, k)),
    decreases vec1.len() - k,
{
    if k < vec1.len() {
        match candidate_at(vec1, vec2, k) {
            Some(r) => {
                assert(vec2.contains((-vec1[k]) as i32));
            },
            None => {
                lemma_candidate_source(vec1, vec2, k + 1);
                let p = choose|p: int| k + 1 <= p < vec1.len() && vec2.contains((-vec1[p]) as i32)
                    && candidates_from(vec1, vec2, k + 1).0 == (if candidates_from(vec1, vec2, k + 1).1 == 1 { -(#[trigger] vec1[p] as int) } else { vec1[p] as int })
                    && candidate_at(vec1, vec2, p) == Some(candidates_from(vec1, vec2, k + 1));
                assert(k <= p);
            },
        }
    }
}

/// Is the signed literal `l` true under `m`?
pub open spec fn lit_holds(l: int, m: Seq<bool>) -> bool {
    if l > 0 { m[l] } else { !m[-l] }
}

/// The literals of a clause as `i32` values, position by position.
pub open spec fn lits_of_clause(c: Clause, lits: Seq<i32>) -> bool {
    &&& lits.len() == c.variables@.len()
    &&& forall|j: int| 0 <= j < lits.len() ==> #[trigger] lits[j] as int == clause_lits(c)[j]
}

/// A literal of a clause holds exactly when its variable has its sign.
pub proof fn lemma_lit_holds(c: Clause, lits: Seq<i32>, n: nat, m: Seq<bool>, j: int)
    requires
        clause_ok(c, n),
        lits_of_clause(c, lits),
        m.len() == n,
        0 <= j < lits.len(),
    ensures
        lit_holds(lits[j] as int, m) == (m[c.variables@[j] as int] == c.signs@[j]),
        (if lits[j] < 0 { -lits[j] } else { lits[j] as int }) == c.variables@[j] as int,
{
    assert(lits[j] as int == lit_int(c.variables@[j], c.signs@[j]));
    assert(1 <= c.variables@[j] < n);
}

/// Resolution on a literal `a` of clause `ca` against clause `cb`, whose
/// other literals all occur in `ca`: a model of both makes a literal of `ca`
/// other than `a` true.
pub proof fn lemma_resolve_model(ca: Clause, la: Seq<i32>, pa: int, cb: Clause, lb: Seq<i32>, n: nat, m: Seq<bool>)
    requires
        clause_ok(ca, n),
        clause_ok(cb, n),
        m.len() == n,
        lits_of_clause(ca, la),
        lits_of_clause(cb, lb),
        forall|x: int, y: int| 0 <= x < y < cb.variables@.len() ==> cb.variables@[x] != cb.variables@[y],
        0 <= pa < la.len(),
        la[pa] != i32::MIN,
        lb.contains((-la[pa]) as i32),
        forall|t: int| 0 <= t < lb.len() && lb[t] != (-la[pa]) as i32 ==> la.contains(#[trigger] lb[t]),
        clause_true(ca, m),
        clause_true(cb, m),
    ensures
        exists|jj: int| 0 <= jj < ca.variables@.len() && jj != pa && m[ca.variables@[jj] as int] == #[trigger] ca.signs@[jj],
{
    let a = la[pa];
    let w = choose|w: int| 0 <= w < ca.variables@.len() && ca.variables@[w] < m.len() && m[ca.variables@[w] as int] == #[trigger] ca.signs@[w];
    if w == pa {
        lemma_lit_holds(ca, la, n, m, pa);
        let t = choose|t: int| 0 <= t < cb.variables@.len() && cb.variables@[t] < m.len() && m[cb.variables@[t] as int] == #[trigger] cb.signs@[t];
        lemma_lit_holds(cb, lb, n, m, t);
        let tn = choose|tn: int| 0 <= tn < lb.len() && lb[tn] == (-a) as i32;
        lemma_lit_holds(cb, lb, n, m, tn);
        if lb[t] == (-a) as i32 {
            assert(lit_holds(lb[t] as int, m) == !lit_holds(a as int, m));
        }
        assert(lb[t] != (-a) as i32);
        assert(la.contains(lb[t]));
        let q = choose|q: int| 0 <= q < la.len() && la[q] == lb[t];
        lemma_lit_holds(ca, la, n, m, q);
        if q == pa {
            assert(lb[t] == a);
            assert(cb.variables@[t] == cb.variables@[tn]);
            assert(t != tn);
            if t < tn { assert(cb.variables@[t] != cb.variables@[tn]); } else { assert(cb.variables@[tn] != cb.variables@[t]); }
        }
        assert(m[ca.variables@[q] as int] == ca.signs@[q]);
    }
}

/// A model of a clause with a true literal other than the one at `p` is a
/// model of the clause without it.
pub proof fn lemma_removed_true(c: Clause, c2: Clause, p: int, m: Seq<bool>)
    requires
        0 <= p < c.variables@.len(),
        c.signs@.len() == c.variables@.len(),
        c2.variables@ == c.variables@.remove(p),
        c2.signs@ == c.signs@.remove(p),
        exists|jj: int| 0 <= jj < c.variables@.len() && jj != p && c.variables@[jj] < m.len() && m[c.variables@[jj] as int] == #[trigger] c.signs@[jj],
    ensures
        clause_true(c2, m),
{
    let jj = choose|jj: int| 0 <= jj < c.variables@.len() && jj != p && c.variables@[jj] < m.len() && m[c.variables@[jj] as int] == #[trigger] c.signs@[jj];
    let k = if jj < p { jj } else { jj - 1 };
    assert(c2.variables@[k] == c.variables@[jj] && c2.signs@[k] == c.signs@[jj]);
}

/// Distinct variables give distinct literals, and no literal beside its
/// negation.
pub proof fn lemma_lits_distinct(c: Clause, lits: Seq<i32>, n: nat)
    requires
        clause_ok(c, n),
        lits_of_clause(c, lits),
        forall|x: int, y: int| 0 <= x < y < c.variables@.len() ==> c.variables@[x] != c.variables@[y],
    ensures
        lits.no_duplicates(),
        forall|a: int, b: int| 0 <= a < lits.len() && 0 <= b < lits.len() && lits[a] as int == -(lits[b] as int) ==> false,
{
    assert forall|a: int, b: int| 0 <= a < lits.len() && 0 <= b < lits.len() && a != b implies lits[a] != lits[b] by {
        assert(lits[a] as int == lit_int(c.variables@[a], c.signs@[a]));
        assert(lits[b] as int == lit_int(c.variables@[b], c.signs@[b]));
        if a < b { assert(c.variables@[a] != c.variables@[b]); } else { assert(c.variables@[b] != c.variables@[a]); }
    }
    assert forall|a: int, b: int| 0 <= a < lits.len() && 0 <= b < lits.len() && lits[a] as int == -(lits[b] as int) implies false by {
        assert(lits[a] as int == lit_int(c.variables@[a], c.signs@[a]));
        assert(lits[b] as int == lit_int(c.variables@[b], c.signs@[b]));
        assert(1 <= c.variables@[a]);
        if a < b { assert(c.variables@[a] != c.variables@[b]); } else if b < a { assert(c.variables@[b] != c.variables@[a]); }
    }
}

/// Two literal lists of one length, without repeats, that resolve on `x`
/// with the rest of the first inside the rest of the second: then the rest of
/// the second is inside the rest of the first too.
pub proof fn lemma_equal_rests(la: Seq<i32>, lb: Seq<i32>, x: i32)
    requires
        la.no_duplicates(),
        lb.no_duplicates(),
        la.len() == lb.len(),
        la.contains(x),
        lb.contains((-x) as i32),
        !la.contains((-x) as i32),
        x != 0,
        x != i32::MIN,
        forall|t: int| 0 <= t < la.len() && la[t] != x ==> lb.contains(#[trigger] la[t]),
    ensures
        forall|t: int| 0 <= t < lb.len() && lb[t] != (-x) as i32 ==> la.contains(#[trigger] lb[t]),
{
    let nx = (-x) as i32;
    let a = la.to_set();
    let b = lb.to_set();
    la.unique_seq_to_set();
    lb.unique_seq_to_set();
    let a2 = a.remove(x).insert(nx);
    assert(a.contains(x));
    assert(!a.remove(x).contains(nx));
    assert(a2.len() == a.len());
    assert forall|y: i32| a2.contains(y) implies b.contains(y) by {
        if y != nx {
            assert(la.contains(y));
            let t = choose|t: int| 0 <= t < la.len() && la[t] == y;
            assert(lb.contains(la[t]));
        }
    }
    assert(a2.subset_of(b));
    vstd::set_lib::lemma_subset_equality(a2, b);
    assert forall|t: int| 0 <= t < lb.len() && lb[t] != nx implies la.contains(#[trigger] lb[t]) by {
        assert(b.contains(lb[t]));
        assert(a2.contains(lb[t]));
    }
}

/// Which indices [`replaced_upto`] lists.
pub proof fn lemma_replaced_members(clauses: Seq<Clause>, deleted: Seq<usize>, old_var: usize, new_var: usize, sk: bool, clashing: bool, k: int, c: int)
    requires
        0 <= k <= clauses.len(),
        clauses.len() <= usize::MAX,
        0 <= c <= usize::MAX,
    ensures
        replaced_upto(clauses, deleted, old_var, new_var, sk, clashing, k).contains(c as usize) <==>
            (c < k && !deleted.contains(c as usize) && clauses[c].variables@.contains(old_var)
                && replace_clash(clauses[c], old_var, new_var, sk) == clashing),
    decreases k,
{
    if k > 0 {
        lemma_replaced_members(clauses, deleted, old_var, new_var, sk, clashing, k - 1, c);
        let prev = replaced_upto(clauses, deleted, old_var, new_var, sk, clashing, k - 1);
        let cur = replaced_upto(clauses, deleted, old_var, new_var, sk, clashing, k);
        if cur.contains(c as usize) {
            let q = choose|q: int| 0 <= q < cur.len() && cur[q] == c as usize;
            if q < prev.len() { assert(prev[q] == cur[q]); }
        }
        if prev.contains(c as usize) {
            let q = choose|q: int| 0 <= q < prev.len() && prev[q] == c as usize;
            assert(cur[q] == prev[q]);
        }
        if c == k - 1 && !deleted.contains(c as usize) && clauses[c].variables@.contains(old_var)
            && replace_clash(clauses[c], old_var, new_var, sk) == clashing {
            assert(cur[cur.len() - 1] == c as usize);
        }
    }
}

/// A model in which `old_var` has the value the substitution gives it keeps
/// a ready clause holding `old_var`, without a clash, true after the
/// substitution.
pub proof fn lemma_replace_clause(c: Clause, c1: Clause, vs0: Seq<Variable>, old_var: usize, new_var: usize, sk: bool, m: Seq<bool>)
    requires
        clause_ready_but(c, vs0, -1),
        clause_ok(c, vs0.len()),
        old_var != new_var,
        m.len() == vs0.len(),
        old_var < m.len(),
        new_var < m.len(),
        m[old_var as int] == (if sk { m[new_var as int] } else { !m[new_var as int] }),
        clause_true(c, m),
        c.variables@.contains(old_var),
        !replace_clash(c, old_var, new_var, sk),
        c1.variables@ == substituted_vars(c, old_var, new_var, sk),
        c1.signs@ == substituted_signs(c, old_var, new_var, sk),
    ensures
        clause_true(c1, m),
{
    let vs = c.variables@;
    let ss = c.signs@;
    let w = choose|w: int| 0 <= w < vs.len() && vs[w] < m.len() && m[vs[w] as int] == #[trigger] ss[w];
    lemma_first_pos_exists(vs, old_var);
    let p = first_pos(vs, old_var);
    if vs.contains(new_var) {
        lemma_first_pos_exists(vs, new_var);
        let pn = first_pos(vs, new_var);
        assert(pn != p);
        assert(vs.len() != 1);
        if w == p {
            assert(m[vs[pn] as int] == ss[pn]);
            let k2 = if pn < p { pn } else { pn - 1 };
            assert(c1.variables@[k2] == vs[pn] && c1.signs@[k2] == ss[pn]);
        } else {
            let k2 = if w < p { w } else { w - 1 };
            assert(c1.variables@[k2] == vs[w] && c1.signs@[k2] == ss[w]);
        }
    } else if vs.len() > 1 {
        let os = ss[p];
        let ns = if sk { os } else { !os };
        let pv = vs.push(new_var);
        let ps = ss.push(ns);
        assert(is_first_pos(pv, old_var, p)) by {
            assert(pv[p] == old_var);
            assert forall|q: int| 0 <= q < p implies pv[q] != old_var by { assert(pv[q] == vs[q]); }
        }
        crate::cdcl::types::lemma_first_pos(pv, old_var, p);
        if w == p {
            let last = vs.len() as int;
            assert(m[new_var as int] == ns);
            assert(c1.variables@[last - 1] == pv[last] && c1.signs@[last - 1] == ps[last]);
        } else {
            let k2 = if w < p { w } else { w - 1 };
            assert(c1.variables@[k2] == pv[w] && c1.signs@[k2] == ps[w]);
        }
    } else {
        assert(p == 0 && w == 0);
        assert(c1.variables@[0] == new_var);
        if sk {
            assert(c1.signs@[0] == ss[0]);
        } else {
            assert(c1.signs@[0] == !ss[0]);
        }
    }
}

/// A model in which `old_var` has the value the substitution gives it keeps
/// every live clause true after the substitution.
pub proof fn lemma_replace_models(c0: Seq<Clause>, d0: Seq<usize>, c1: Seq<Clause>, d1: Seq<usize>, vs0: Seq<Variable>,
    old_var: usize, new_var: usize, sk: bool, m: Seq<bool>)
    requires
        db_ready(c0, d0, vs0),
        db_ok(c0, vs0),
        c0.len() <= usize::MAX,
        old_var != new_var,
        m.len() == vs0.len(),
        old_var < m.len(),
        new_var < m.len(),
        m[old_var as int] == (if sk { m[new_var as int] } else { !m[new_var as int] }),
        live_true(c0, d0, m),
        c1.len() == c0.len(),
        d1 == d0 + replaced_upto(c0, d0, old_var, new_var, sk, true, c0.len() as int),
        forall|k: int| 0 <= k < c0.len() ==> if !d0.contains(k as usize) && (#[trigger] c0[k]).variables@.contains(old_var) {
            &&& c1[k].variables@ == substituted_vars(c0[k], old_var, new_var, sk)
            &&& c1[k].signs@ == substituted_signs(c0[k], old_var, new_var, sk)
        } else {
            &&& c1[k].variables@ == c0[k].variables@
            &&& c1[k].signs@ == c0[k].signs@
        },
    ensures
        live_true(c1, d1, m),
{
    let r = replaced_upto(c0, d0, old_var, new_var, sk, true, c0.len() as int);
    assert forall|k: int| 0 <= k < c1.len() && !d1.contains(k as usize) implies clause_true(#[trigger] c1[k], m) by {
        lemma_replaced_members(c0, d0, old_var, new_var, sk, true, c0.len() as int, k);
        assert(!d0.contains(k as usize)) by {
            if d0.contains(k as usize) {
                let q = choose|q: int| 0 <= q < d0.len() && d0[q] == k as usize;
                assert(d1[q] == d0[q]);
            }
        }
        assert(!r.contains(k as usize)) by {
            if r.contains(k as usize) {
                let q = choose|q: int| 0 <= q < r.len() && r[q] == k as usize;
                assert(d1[d0.len() + q] == r[q]);
            }
        }
        let c = c0[k];
        assert(clause_true(c, m));
        assert(clause_ready_but(c, vs0, -1));
        assert(clause_ok(c, vs0.len()));
        if c.variables@.contains(old_var) {
            lemma_replace_clause(c, c1[k], vs0, old_var, new_var, sk, m);
        } else {
            let w = choose|w: int| 0 <= w < c.variables@.len() && c.variables@[w] < m.len() && m[c.variables@[w] as int] == #[trigger] c.signs@[w];
            assert(c1[k].variables@[w] == c.variables@[w] && c1[k].signs@[w] == c.signs@[w]);
        }
    }
}

/// The rest of a literal list without `x` holds exactly its other literals.
pub proof fn lemma_rest_contains(v: Seq<i32>, x: i32, y: i32)
    ensures
        rest_spec(v, x).contains(y) <==> (v.contains(y) && y != x),
    decreases v.len(),
{
    reveal(Seq::filter);
    if v.len() > 0 {
        let v0 = v.drop_last();
        lemma_rest_contains(v0, x, y);
        let r0 = rest_spec(v0, x);
        let r = rest_spec(v, x);
        assert(r == (if v.last() != x { r0.push(v.last()) } else { r0 }));
        if r.contains(y) {
            let i = choose|i: int| 0 <= i < r.len() && r[i] == y;
            if i < r0.len() {
                assert(r0[i] == y);
                let q = choose|q: int| 0 <= q < v0.len() && v0[q] == y;
                assert(v[q] == y);
            } else {
                assert(v[v.len() - 1] == y);
            }
        }
        if v.contains(y) && y != x {
            let i = choose|i: int| 0 <= i < v.len() && v[i] == y;
            if i < v.len() - 1 {
                assert(v0[i] == y);
                let q = choose|q: int| 0 <= q < r0.len() && r0[q] == y;
                assert(r[q] == y);
            } else {
                assert(r[r.len() - 1] == y);
            }
        }
    }
}

/// Deleting clauses keeps a model of the live clauses one.
pub proof fn lemma_live_shrink(cb: Seq<Clause>, db: Seq<usize>, c2: Seq<Clause>, d2: Seq<usize>, m: Seq<bool>)
    requires
        live_true(cb, db, m),
        c2 == cb,
        forall|k: usize| #[trigger] db.contains(k) ==> d2.contains(k),
    ensures
        live_true(c2, d2, m),
{
    assert forall|k: int| 0 <= k < c2.len() && !d2.contains(k as usize) implies clause_true(#[trigger] c2[k], m) by {
        assert(!db.contains(k as usize));
    }
}

/// Removing a literal from clause `x` keeps a model of the live clauses one
/// when the model makes another literal of that clause true.
pub proof fn lemma_live_strengthen(cb: Seq<Clause>, db: Seq<usize>, c2: Seq<Clause>, d2: Seq<usize>, x: int, p: int, m: Seq<bool>)
    requires
        live_true(cb, db, m),
        0 <= x < cb.len(),
        c2.len() == cb.len(),
        forall|k: int| 0 <= k < cb.len() && k != x ==> #[trigger] c2[k] == cb[k],
        forall|k: usize| #[trigger] db.contains(k) ==> d2.contains(k),
        0 <= p < cb[x].variables@.len(),
        cb[x].signs@.len() == cb[x].variables@.len(),
        c2[x].variables@ == cb[x].variables@.remove(p),
        c2[x].signs@ == cb[x].signs@.remove(p),
        exists|jj: int| 0 <= jj < cb[x].variables@.len() && jj != p && m[cb[x].variables@[jj] as int] == #[trigger] cb[x].signs@[jj],
        forall|jj: int| 0 <= jj < cb[x].variables@.len() ==> #[trigger] cb[x].variables@[jj] < m.len(),
    ensures
        live_true(c2, d2, m),
{
    assert forall|k: int| 0 <= k < c2.len() && !d2.contains(k as usize) implies clause_true(#[trigger] c2[k], m) by {
        assert(!db.contains(k as usize));
        if k == x {
            let jj = choose|jj: int| 0 <= jj < cb[x].variables@.len() && jj != p && m[cb[x].variables@[jj] as int] == #[trigger] cb[x].signs@[jj];
            assert(cb[x].variables@[jj] < m.len());
            lemma_removed_true(cb[x], c2[x], p, m);
        }
    }
}

/// Every model over `n` variables of the live clauses of `(c0, d0)` is one
/// of the live clauses of `(c1, d1)`.
pub open spec fn models_into(c0: Seq<Clause>, d0: Seq<usize>, c1: Seq<Clause>, d1: Seq<usize>, n: nat) -> bool {
    forall|m: Seq<bool>| m.len() == n && #[trigger] live_true(c0, d0, m) ==> live_true(c1, d1, m)
}

/// Rests in one direction, literal by literal.
pub proof fn lemma_rest_subset(va: Seq<i32>, a: i32, vb: Seq<i32>, b: i32)
    requires
        lits_subset(rest_spec(va, a), rest_spec(vb, b)),
    ensures
        forall|t: int| 0 <= t < va.len() && va[t] != a ==> vb.contains(#[trigger] va[t]),
{
    assert forall|t: int| 0 <= t < va.len() && va[t] != a implies vb.contains(#[trigger] va[t]) by {
        lemma_rest_contains(va, a, va[t]);
        let ra = rest_spec(va, a);
        let i = choose|i: int| 0 <= i < ra.len() && ra[i] == va[t];
        assert(rest_spec(vb, b).contains(ra[i]));
        lemma_rest_contains(vb, b, va[t]);
    }
}

/// Resolving live clause `x` (literal `lx[px]`) against live clause `y`:
/// strengthening `x` by removing that literal keeps every model, and when
/// `x` is a unit clause there was no model at all.
pub proof fn lemma_resolve_step(c0: Seq<Clause>, d0: Seq<usize>, cb: Seq<Clause>, db: Seq<usize>, vb: Seq<Variable>,
    x: int, y: int, lx: Seq<i32>, ly: Seq<i32>, px: int)
    requires
        models_into(c0, d0, cb, db, vb.len()),
        db_ok(cb, vb),
        db_ready(cb, db, vb),
        0 <= x < cb.len(),
        0 <= y < cb.len(),
        x != y,
        !db.contains(x as usize),
        !db.contains(y as usize),
        lits_of_clause(cb[x], lx),
        lits_of_clause(cb[y], ly),
        0 <= px < lx.len(),
        lx[px] != i32::MIN,
        ly.contains((-lx[px]) as i32),
        forall|t: int| 0 <= t < ly.len() && ly[t] != (-lx[px]) as i32 ==> lx.contains(#[trigger] ly[t]),
    ensures
        first_pos(cb[x].variables@, cb[x].variables@[px]) == px,
        cb[x].variables@.len() == 1 ==> forall|m: Seq<bool>| m.len() == vb.len() ==> !#[trigger] live_true(c0, d0, m),
        forall|c2: Seq<Clause>, d2: Seq<usize>| ({
            &&& c2.len() == cb.len()
            &&& (forall|k: int| 0 <= k < cb.len() && k != x ==> #[trigger] c2[k] == cb[k])
            &&& (forall|k: usize| #[trigger] db.contains(k) ==> d2.contains(k))
            &&& c2[x].variables@ == cb[x].variables@.remove(px)
            &&& c2[x].signs@ == cb[x].signs@.remove(px)
        }) ==> #[trigger] models_into(c0, d0, c2, d2, vb.len()),
{
    let n = vb.len();
    assert(clause_ready_but(cb[x], vb, -1));
    assert(clause_ready_but(cb[y], vb, -1));
    assert(clause_ok(cb[x], n));
    assert(clause_ok(cb[y], n));
    let vs = cb[x].variables@;
    assert(is_first_pos(vs, vs[px], px)) by {
        assert forall|q: int| 0 <= q < px implies vs[q] != vs[px] by {}
    }
    crate::cdcl::types::lemma_first_pos(vs, vs[px], px);
    assert forall|m: Seq<bool>| m.len() == n && #[trigger] live_true(c0, d0, m) implies
        exists|jj: int| 0 <= jj < cb[x].variables@.len() && jj != px && m[cb[x].variables@[jj] as int] == #[trigger] cb[x].signs@[jj] by {
        assert(live_true(cb, db, m));
        assert(clause_true(cb[x], m));
        assert(clause_true(cb[y], m));
        lemma_resolve_model(cb[x], lx, px, cb[y], ly, n, m);
    }
    if cb[x].variables@.len() == 1 {
        assert forall|m: Seq<bool>| m.len() == n implies !#[trigger] live_true(c0, d0, m) by {
            if live_true(c0, d0, m) {
                let jj = choose|jj: int| 0 <= jj < cb[x].variables@.len() && jj != px && m[cb[x].variables@[jj] as int] == #[trigger] cb[x].signs@[jj];
            }
        }
    }
    assert forall|c2: Seq<Clause>, d2: Seq<usize>| ({
            &&& c2.len() == cb.len()
            &&& (forall|k: int| 0 <= k < cb.len() && k != x ==> #[trigger] c2[k] == cb[k])
            &&& (forall|k: usize| #[trigger] db.contains(k) ==> d2.contains(k))
            &&& c2[x].variables@ == cb[x].variables@.remove(px)
            &&& c2[x].signs@ == cb[x].signs@.remove(px)
        }) implies #[trigger] models_into(c0, d0, c2, d2, n) by {
        assert forall|m: Seq<bool>| m.len() == n && #[trigger] live_true(c0, d0, m) implies live_true(c2, d2, m) by {
            assert(live_true(cb, db, m));
            assert forall|jj: int| 0 <= jj < cb[x].variables@.len() implies #[trigger] cb[x].variables@[jj] < m.len() by {}
            lemma_live_strengthen(cb, db, c2, d2, x, px, m);
        }
    }
}

/// Two binary clauses with pairwise opposite literals `(a b)` and
/// `(-a -b)`: every model gives the first variable the value that the
/// substitution recorded for it.
pub proof fn lemma_equiv_models(ci: Clause, cj: Clause, l1: Seq<i32>, l2: Seq<i32>, n: nat, m: Seq<bool>, keep: bool)
    requires
        clause_ok(ci, n),
        clause_ok(cj, n),
        n <= crate::cdcl::types::max_vars(),
        lits_of_clause(ci, l1),
        lits_of_clause(cj, l2),
        l1.len() == 2,
        l2.len() == 2,
        ci.variables@[0] != ci.variables@[1],
        l2.contains((-l1[0]) as i32),
        l2.contains((-l1[1]) as i32),
        keep == ((l1[0] < 0) != (l1[1] < 0)),
        m.len() == n,
        clause_true(ci, m),
        clause_true(cj, m),
    ensures
        m[ci.variables@[0] as int] == (if keep { m[ci.variables@[1] as int] } else { !m[ci.variables@[1] as int] }),
{
    lemma_lit_holds(ci, l1, n, m, 0);
    lemma_lit_holds(ci, l1, n, m, 1);
    lemma_lit_holds(cj, l2, n, m, 0);
    lemma_lit_holds(cj, l2, n, m, 1);
    let w = choose|w: int| 0 <= w < ci.variables@.len() && ci.variables@[w] < m.len() && m[ci.variables@[w] as int] == #[trigger] ci.signs@[w];
    let t = choose|t: int| 0 <= t < cj.variables@.len() && cj.variables@[t] < m.len() && m[cj.variables@[t] as int] == #[trigger] cj.signs@[t];
    let ia = choose|q: int| 0 <= q < l2.len() && l2[q] == (-l1[0]) as i32;
    let ib = choose|q: int| 0 <= q < l2.len() && l2[q] == (-l1[1]) as i32;
    assert(l1[0] as int == lit_int(ci.variables@[0], ci.signs@[0]));
    assert(l1[1] as int == lit_int(ci.variables@[1], ci.signs@[1]));
    assert(1 <= ci.variables@[0] < n && 1 <= ci.variables@[1] < n);
    assert(l1[0] != l1[1]);
    assert(ia != ib);
    assert(t == ia || t == ib);
    let ha = lit_holds(l1[0] as int, m);
    let hb = lit_holds(l1[1] as int, m);
    assert(ha || hb) by {
        if w == 0 { assert(ha); } else { assert(w == 1); assert(hb); }
    }
    assert(lit_holds(l2[ia] as int, m) == !ha);
    assert(lit_holds(l2[ib] as int, m) == !hb);
    assert(!ha || !hb) by {
        lemma_lit_holds(cj, l2, n, m, t);
        assert(lit_holds(l2[t] as int, m));
    }
}

/// Does the assignment obey the replacement rule `(a, b, keep)`: is `x_a`
/// equal to `x_b` when `keep`, and to its negation otherwise?
pub open spec fn rule_holds(m: Seq<bool>, r: (usize, usize, bool)) -> bool {
    m[r.0 as int] == (if r.2 { m[r.1 as int] } else { !m[r.1 as int] })
}

/// Every rule from position `k` on holds in `m`.
pub open spec fn rules_hold_from(m: Seq<bool>, rules: Seq<(usize, usize, bool)>, k: int) -> bool {
    forall|i: int| k <= i < rules.len() ==> #[trigger] rule_holds(m, rules[i])
}

/// Is the clause true under the assignment `m` (variable `v` true when
/// `m[v]` holds)?
pub open spec fn clause_true(c: Clause, m: Seq<bool>) -> bool {
    exists|j: int| 0 <= j < c.variables@.len() && c.variables@[j] < m.len() && m[c.variables@[j] as int] == #[trigger] c.signs@[j]
}

/// Is every clause not in the deleted list true under `m`?
pub open spec fn live_true(clauses: Seq<Clause>, deleted: Seq<usize>, m: Seq<bool>) -> bool {
    forall|k: int| 0 <= k < clauses.len() && !deleted.contains(k as usize) ==> clause_true(#[trigger] clauses[k], m)
}

/// Every model of the clauses `(c0, d0)` over `n` variables is a model of
/// `(c1, d1)` and gives each variable of `forced` the value it has in `vs`.
pub open spec fn models_kept(c0: Seq<Clause>, d0: Seq<usize>, c1: Seq<Clause>, d1: Seq<usize>, n: nat,
    forced: Seq<usize>, vs: Seq<Variable>) -> bool {
    forall|m: Seq<bool>| m.len() == n && #[trigger] live_true(c0, d0, m) ==> {
        &&& live_true(c1, d1, m)
        &&& forall|k: int| 0 <= k < forced.len() ==> m[#[trigger] forced[k] as int] == (vs[forced[k] as int].value == 1)
    }
}

/// Removes variable `var` from clause `j`. A unit clause cannot lose its
/// only literal: the result is then `Ok(false)` and nothing changes. A
/// binary clause first leaves the watch lists; a longer clause watching
/// `var` first moves that watch to its first free variable that it does not
/// watch. Then the first occurrence of `var` goes. `Err` when a watch
/// cannot be moved or removed, or `var` does not occur.
pub fn delete_variable(clauses: &mut Vec<Clause>, variables: &mut Vec<Variable>, j: usize, var_index: usize) -> (res: Result<bool, Halt>)
    requires
        db_ok(old(clauses)@, old(variables)@),
        j < old(clauses)@.len(),
    ensures
        db_ok(final(clauses)@, final(variables)@),
        values_kept(old(variables)@, final(variables)@),
        final(clauses)@.len() == old(clauses)@.len(),
        res is Err <==> delete_variable_fails(old(clauses)@[j as int], old(variables)@, var_index),
        res matches Ok(b) ==> (b <==> old(clauses)@[j as int].variables@.len() != 1),
        res == Ok::<bool, Halt>(false) ==> final(clauses)@ == old(clauses)@ && final(variables)@ == old(variables)@,
        res == Ok::<bool, Halt>(true) ==> old(clauses)@[j as int].variables@.contains(var_index)
            && literal_removed(old(clauses)@, final(clauses)@, j as int, first_pos(old(clauses)@[j as int].variables@, var_index)),
        res == Ok::<bool, Halt>(true) ==> ({
            let c = old(clauses)@[j as int];
            let w = c.watched@;
            if c.variables@.len() == 2 {
                unwatched_both(old(variables)@, final(variables)@, c, j) && final(clauses)@[j as int].watched == c.watched
            } else if w[0] == var_index || w[1] == var_index {
                exists|k: int| first_spare(c, old(variables)@, k)
                    && final(clauses)@[j as int].watched@ == (if w[0] == var_index { seq![c.variables@[k], w[1]] } else { seq![w[0], c.variables@[k]] })
                    && watch_moved(old(variables)@, final(variables)@, c, j, var_index, c.variables@[k])
            } else {
                final(variables)@ == old(variables)@ && final(clauses)@[j as int].watched == c.watched
            }
        }),
{
    let len = clauses[j].variables.len();
    if len == 1 {
        return Ok(false);
    } else if len == 2 {
        if !double_unwatch(clauses, variables, j) {
            return Err(Halt);
        }
    } else {
        let w0 = clauses[j].watched[0];
        let w1 = clauses[j].watched[1];
        if w0 == var_index || w1 == var_index {
            let mut new_watch: usize = 0;
            let mut k: usize = 0;
            proof { assert(clause_ok(clauses@[j as int], variables@.len())); }
            let ghost c0 = clauses@[j as int];
            while k < clauses[j].variables.len()
                invariant_except_break
                    new_watch == 0,
                    forall|q: int| 0 <= q < k ==> !(#[trigger] c0.variables@[q] != w0 && c0.variables@[q] != w1
                        && variables@[c0.variables@[q] as int].value == 2),
                invariant
                    j < clauses@.len(),
                    clauses@ == old(clauses)@,
                    variables@ == old(variables)@,
                    c0 == clauses@[j as int],
                    w0 == c0.watched@[0],
                    w1 == c0.watched@[1],
                    clause_ok(clauses@[j as int], variables@.len()),
                    k <= clauses@[j as int].variables@.len(),
                ensures
                    new_watch == 0 ==> !has_spare_watch(c0, variables@),
                    new_watch != 0 ==> c0.variables@.contains(new_watch) && has_spare_watch(c0, variables@)
                        && exists|k: int| first_spare(c0, variables@, k) && c0.variables@[k] == new_watch,
                decreases clauses@[j as int].variables@.len() - k,
            {
                let v = clauses[j].variables[k];
                if v != w0 && v != w1 && variables[v].value == 2 {
                    new_watch = v;
                    proof {
                        assert(c0.variables@[k as int] == v);
                        assert(has_spare_watch(c0, variables@));
                        assert(first_spare(c0, variables@, k as int));
                    }
                    break;
                }
                k += 1;
            }
            proof {
                if new_watch == 0 {
                    if c0.variables@.contains(0) {
                        let q = choose|q: int| 0 <= q < c0.variables@.len() && c0.variables@[q] == 0;
                        assert(c0.variables@[q] >= 1);
                    }
                } else {
                    assert(c0.variables@.contains(new_watch));
                }
            }
            if !switch_watch(clauses, variables, j, var_index, new_watch) {
                return Err(Halt);
            }
        }
    }
    let ghost mid = clauses@;
    let pos = match position_usize(&clauses[j].variables, var_index) {
        Some(p) => p,
        None => { return Err(Halt); }
    };
    proof { assert(clause_ok(clauses@[j as int], variables@.len())); }
    let ghost before = clauses@;
    let mut c = clauses.remove(j);
    c.variables.remove(pos);
    c.signs.remove(pos);
    clauses.insert(j, c);
    proof {
        assert(clauses@[j as int].variables@ == before[j as int].variables@.remove(pos as int));
        assert forall|i: int| 0 <= i < clauses@.len() && i != j implies #[trigger] clauses@[i] == before[i] by {
            if i < j { assert(clauses@[i] == before[i]); } else { assert(clauses@[i] == before[i]); }
        }
        assert forall|i: int| 0 <= i < clauses@.len() implies clause_ok(#[trigger] clauses@[i], variables@.len()) by {
            assert(clause_ok(before[i], variables@.len()));
            if i == j {
                let cv = before[j as int].variables@;
                assert forall|q: int| 0 <= q < cv.remove(pos as int).len() implies 1 <= #[trigger] cv.remove(pos as int)[q] < variables@.len() by {
                    if q < pos { assert(cv.remove(pos as int)[q] == cv[q]); } else { assert(cv.remove(pos as int)[q] == cv[q + 1]); }
                }
            }
        }
        assert forall|v: int| 0 <= v < variables@.len() implies variable_ok(#[trigger] variables@[v], clauses@.len()) by {
            assert(variable_ok(variables@[v], before.len()));
        }
    }
    Ok(true)
}

/// The number of clause indices below `n` that are not in the deleted list.
pub open spec fn live_count(n: int, deleted: Seq<usize>) -> nat
    decreases n,
{
    if n <= 0 {
        0
    } else {
        live_count(n - 1, deleted) + (if deleted.contains((n - 1) as usize) { 0nat } else { 1nat })
    }
}

/// Deleting more never brings a clause back, and deleting a new one lowers the live count.
pub proof fn lemma_live_count_shrinks(n: int, d1: Seq<usize>, d2: Seq<usize>, x: usize)
    requires
        forall|y: usize| d1.contains(y) ==> d2.contains(y),
    ensures
        live_count(n, d2) <= live_count(n, d1),
        0 <= x < n && d2.contains(x) && !d1.contains(x) ==> live_count(n, d2) < live_count(n, d1),
    decreases n,
{
    if n > 0 {
        lemma_live_count_shrinks(n - 1, d1, d2, x);
    }
}

/// The priority entries whose variable is not `var`.
pub open spec fn entries_without(pq: Seq<(usize, usize, bool)>, var: usize) -> Seq<(usize, usize, bool)> {
    pq.filter(|e: (usize, usize, bool)| e.1 != var)
}

/// Removes every priority entry of variable `var`.
pub fn remove_entries(priority_queue: &mut Vec<(usize, usize, bool)>, var_index: usize)
    ensures
        final(priority_queue)@ == entries_without(old(priority_queue)@, var_index),
{
    let ghost orig = priority_queue@;
    let mut k: usize = 0;
    while k < priority_queue.len()
        invariant
            k <= priority_queue@.len(),
            priority_queue@.take(k as int) == entries_without(orig.take(orig.len() - priority_queue@.len() + k), var_index),
            priority_queue@.subrange(k as int, priority_queue@.len() as int) == orig.subrange(orig.len() - priority_queue@.len() + k, orig.len() as int),
            priority_queue@.len() <= orig.len(),
            orig.len() - priority_queue@.len() + k <= orig.len(),
        decreases priority_queue@.len() - k,
    {
        let ghost before = priority_queue@;
        let ghost consumed = orig.len() - before.len() + k;
        proof {
            reveal(Seq::filter);
            assert(before[k as int] == orig[consumed]) by {
                assert(before.subrange(k as int, before.len() as int)[0] == orig.subrange(consumed, orig.len() as int)[0]);
            }
            assert(orig.take(consumed + 1).drop_last() == orig.take(consumed));
        }
        if priority_queue[k].1 == var_index {
            priority_queue.remove(k);
            proof {
                assert(priority_queue@.take(k as int) == before.take(k as int));
                assert(priority_queue@.subrange(k as int, priority_queue@.len() as int) =~= orig.subrange(consumed + 1, orig.len() as int)) by {
                    assert forall|q: int| 0 <= q < priority_queue@.len() - k implies priority_queue@.subrange(k as int, priority_queue@.len() as int)[q] == orig.subrange(consumed + 1, orig.len() as int)[q] by {
                        assert(before.subrange(k as int, before.len() as int)[q + 1] == orig.subrange(consumed, orig.len() as int)[q + 1]);
                    }
                }
            }
        } else {
            k += 1;
            proof {
                assert(priority_queue@.take(k as int) =~= before.take(k - 1).push(before[k - 1]));
                assert(priority_queue@.subrange(k as int, priority_queue@.len() as int) =~= orig.subrange(consumed + 1, orig.len() as int)) by {
                    assert forall|q: int| 0 <= q < priority_queue@.len() - k implies priority_queue@.subrange(k as int, priority_queue@.len() as int)[q] == orig.subrange(consumed + 1, orig.len() as int)[q] by {
                        assert(before.subrange(k - 1, before.len() as int)[q + 1] == orig.subrange(consumed, orig.len() as int)[q + 1]);
                    }
                }
            }
        }
    }
    assert(orig.take(orig.len() as int) == orig);
    assert(priority_queue@.take(priority_queue@.len() as int) == priority_queue@);
}

/// Every entry left after removing a variable's entries was an entry before.
pub proof fn lemma_entries_without_subset(pq: Seq<(usize, usize, bool)>, var: usize)
    ensures
        forall|k: int| 0 <= k < entries_without(pq, var).len() ==> pq.contains(#[trigger] entries_without(pq, var)[k]),
    decreases pq.len(),
{
    broadcast use vstd::seq_lib::group_filter_ensures;
    reveal(Seq::filter);
    if pq.len() > 0 {
        lemma_entries_without_subset(pq.drop_last(), var);
        let prev = entries_without(pq.drop_last(), var);
        let cur = entries_without(pq, var);
        assert forall|k: int| 0 <= k < cur.len() implies pq.contains(#[trigger] cur[k]) by {
            if k < prev.len() {
                assert(cur[k] == prev[k]);
                let q = choose|q: int| 0 <= q < pq.drop_last().len() && pq.drop_last()[q] == prev[k];
                assert(pq[q] == prev[k]);
            } else {
                assert(cur[k] == pq.last());
                assert(pq[pq.len() - 1] == pq.last());
            }
        }
    }
}

/// `old` is a prefix of `new`.
pub open spec fn grows(old: Seq<usize>, new: Seq<usize>) -> bool {
    old.len() <= new.len() && new.take(old.len() as int) == old
}

/// A sequence grows into itself.
pub proof fn lemma_grows_refl(s: Seq<usize>)
    ensures
        grows(s, s),
{
    assert(s.take(s.len() as int) =~= s);
}

/// Growth is transitive.
pub proof fn lemma_grows_trans(a: Seq<usize>, b: Seq<usize>, c: Seq<usize>)
    requires
        grows(a, b),
        grows(b, c),
    ensures
        grows(a, c),
{
    assert(c.take(a.len() as int) =~= b.take(a.len() as int)) by {
        assert forall|k: int| 0 <= k < a.len() implies c.take(a.len() as int)[k] == b.take(a.len() as int)[k] by {
            assert(c.take(b.len() as int)[k] == b[k]);
        }
    }
}

/// Pushing grows a sequence.
pub proof fn lemma_grows_push(a: Seq<usize>, b: Seq<usize>, x: usize)
    requires
        grows(a, b),
    ensures
        grows(a, b.push(x)),
        grows(b, b.push(x)),
{
    assert(b.push(x).take(b.len() as int) =~= b);
    lemma_grows_trans(a, b, b.push(x));
}

/// Every element of a prefix is an element of the whole.
pub proof fn lemma_grows_contains(old: Seq<usize>, new: Seq<usize>)
    requires
        grows(old, new),
    ensures
        forall|y: usize| old.contains(y) ==> new.contains(y),
{
    assert forall|y: usize| old.contains(y) implies new.contains(y) by {
        let k = choose|k: int| 0 <= k < old.len() && old[k] == y;
        assert(new.take(old.len() as int)[k] == y);
    }
}

/// Unit propagation at level zero: while some live clause is a unit clause,
/// its variable takes the value that satisfies it and leaves the priority
/// entries; every live clause that the value satisfies is deleted (leaving
/// the watch lists), and the variable is removed from every live clause that
/// it falsifies. `Ok(false)` when a clause would lose its last literal, and
/// then the live clauses had no model; on `Ok(true)` no live clause is a unit
/// clause and every model of the live clauses stays one. On a database ready
/// for simplification (see [`db_ready`]) the result is `Ok`, and the
/// database stays ready.
pub fn preprocessing2(
    clauses: &mut Vec<Clause>,
    deleted_clauses: &mut Vec<usize>,
    variables: &mut Vec<Variable>,
    priority_queue: &mut Vec<(usize, usize, bool)>,
) -> (res: Result<bool, Halt>)
    requires
        db_ok(old(clauses)@, old(variables)@),
        indices_ok(old(deleted_clauses)@, old(clauses)@.len()),
        pq_ok(old(priority_queue)@, old(variables)@.len()),
    ensures
        db_ok(final(clauses)@, final(variables)@),
        final(clauses)@.len() == old(clauses)@.len(),
        final(variables)@.len() == old(variables)@.len(),
        indices_ok(final(deleted_clauses)@, final(clauses)@.len()),
        pq_ok(final(priority_queue)@, final(variables)@.len()),
        grows(old(deleted_clauses)@, final(deleted_clauses)@),
        res == Ok::<bool, Halt>(true) ==> forall|k: int| 0 <= k < final(clauses)@.len() && !final(deleted_clauses)@.contains(k as usize)
            ==> (#[trigger] final(clauses)@[k]).variables@.len() != 1,
        res == Ok::<bool, Halt>(false) ==> forall|m: Seq<bool>| m.len() == old(variables)@.len()
            ==> !#[trigger] live_true(old(clauses)@, old(deleted_clauses)@, m),
        res == Ok::<bool, Halt>(true) ==> forall|m: Seq<bool>| m.len() == old(variables)@.len()
            && #[trigger] live_true(old(clauses)@, old(deleted_clauses)@, m) ==> live_true(final(clauses)@, final(deleted_clauses)@, m),
        db_ready(old(clauses)@, old(deleted_clauses)@, old(variables)@) ==> res is Ok,
        old(priority_queue)@.len() == 0 ==> final(priority_queue)@.len() == 0,
        db_ready(old(clauses)@, old(deleted_clauses)@, old(variables)@) && res == Ok::<bool, Halt>(true)
            ==> db_ready(final(clauses)@, final(deleted_clauses)@, final(variables)@),
{
    let n = clauses.len();
    let ghost nv = variables@.len();
    let ghost mut forced: Seq<usize> = Seq::empty();
    let ghost ready = db_ready(old(clauses)@, old(deleted_clauses)@, old(variables)@);
    let mut i: usize = 0;
    proof { lemma_grows_refl(deleted_clauses@); }
    while i < clauses.len()
        invariant
            clauses@.len() == n,
            n == old(clauses)@.len(),
            variables@.len() == old(variables)@.len(),
            db_ok(clauses@, variables@),
            indices_ok(deleted_clauses@, n as nat),
            pq_ok(priority_queue@, variables@.len()),
            grows(old(deleted_clauses)@, deleted_clauses@),
            i <= n,
            forall|k: int| 0 <= k < i && !deleted_clauses@.contains(k as usize) ==> (#[trigger] clauses@[k]).variables@.len() != 1,
            nv == old(variables)@.len(),
            models_kept(old(clauses)@, old(deleted_clauses)@, clauses@, deleted_clauses@, nv, forced, variables@),
            forall|k: int| 0 <= k < forced.len() ==> #[trigger] forced[k] < nv,
            ready == db_ready(old(clauses)@, old(deleted_clauses)@, old(variables)@),
            ready ==> db_ready(clauses@, deleted_clauses@, variables@),
            old(priority_queue)@.len() == 0 ==> priority_queue@.len() == 0,
        decreases live_count(n as int, deleted_clauses@), n - i,
    {
        let is_unit = clauses[i].variables.len() == 1 && !contains_index(deleted_clauses, i);
        if is_unit {
            let ghost d_start = deleted_clauses@;
            let ghost ci = clauses@[i as int];
            proof { assert(clause_ok(ci, variables@.len())); }
            let var_index = clauses[i].variables[0];
            let value: usize = if clauses[i].signs[0] { 1 } else { 0 };
            let ghost vbefore = variables@;
            let ghost pq0 = priority_queue@;
            variables[var_index].value = value;
            proof {
                let f0 = forced;
                forced = forced.push(var_index);
                assert(forced[f0.len() as int] == var_index);
                assert forall|m: Seq<bool>| m.len() == nv && #[trigger] live_true(old(clauses)@, old(deleted_clauses)@, m) implies {
                    &&& live_true(clauses@, deleted_clauses@, m)
                    &&& forall|k: int| 0 <= k < forced.len() ==> m[#[trigger] forced[k] as int] == (variables@[forced[k] as int].value == 1)
                } by {
                    assert(live_true(clauses@, deleted_clauses@, m));
                    assert(clause_true(clauses@[i as int], m));
                    assert(ci.variables@[0] == var_index);
                    assert(m[var_index as int] == ci.signs@[0]);
                    assert forall|k: int| 0 <= k < forced.len() implies m[#[trigger] forced[k] as int] == (variables@[forced[k] as int].value == 1) by {
                        if k < f0.len() {
                            assert(forced[k] == f0[k]);
                            if f0[k] != var_index {
                                assert(variables@[f0[k] as int] == vbefore[f0[k] as int]);
                            }
                        }
                    }
                }
                assert forall|v: int| 0 <= v < variables@.len() implies variable_ok(#[trigger] variables@[v], clauses@.len()) by {
                    assert(variable_ok(vbefore[v], clauses@.len()));
                }
            }
            remove_entries(priority_queue, var_index);
            proof {
                lemma_entries_without_subset(pq0, var_index);
                if old(priority_queue)@.len() == 0 && priority_queue@.len() > 0 {
                    assert(pq0.contains(priority_queue@[0]));
                }
                if ready {
                    assert forall|k: int| 0 <= k < clauses@.len() && !deleted_clauses@.contains(k as usize)
                        implies clause_ready_but(#[trigger] clauses@[k], variables@, if k < 0 { -1 } else { var_index as int }) by {
                        let c = clauses@[k];
                        assert(clause_ready_but(c, vbefore, -1));
                        assert forall|t: int| 0 <= t < c.variables@.len() && c.variables@[t] != var_index as int
                            implies variables@[#[trigger] c.variables@[t] as int].value == 2 by {
                            assert(vbefore[c.variables@[t] as int].value == 2);
                        }
                    }
                }
            }
            let mut j: usize = 0;
            proof { lemma_grows_refl(d_start); }
            while j < clauses.len()
                invariant
                    clauses@.len() == n,
                    n == old(clauses)@.len(),
                    variables@.len() == old(variables)@.len(),
                    db_ok(clauses@, variables@),
                    indices_ok(deleted_clauses@, n as nat),
                    grows(old(deleted_clauses)@, d_start),
                    grows(d_start, deleted_clauses@),
                    pq_ok(priority_queue@, variables@.len()),
                    i < n,
                    j <= n,
                    !d_start.contains(i),
                    ci.variables@ == seq![var_index],
                    ci.signs@.len() == 1,
                    value == (if ci.signs@[0] { 1usize } else { 0usize }),
                    variables@[var_index as int].value == value,
                    var_index < variables@.len(),
                    j <= i ==> clauses@[i as int].variables@ == ci.variables@ && clauses@[i as int].signs@ == ci.signs@ && !deleted_clauses@.contains(i),
                    j > i ==> deleted_clauses@.contains(i),
                    nv == old(variables)@.len(),
                    models_kept(old(clauses)@, old(deleted_clauses)@, clauses@, deleted_clauses@, nv, forced, variables@),
                    forall|k: int| 0 <= k < forced.len() ==> #[trigger] forced[k] < nv,
                    forced.contains(var_index),
                    ready ==> ready_from(clauses@, deleted_clauses@, variables@, j as int, var_index as int),
                    ready == db_ready(old(clauses)@, old(deleted_clauses)@, old(variables)@),
                    old(priority_queue)@.len() == 0 ==> priority_queue@.len() == 0,
                decreases n - j,
            {
                let ghost cj = clauses@;
                let ghost vj = variables@;
                let ghost dj = deleted_clauses@;
                if !contains_index(deleted_clauses, j) {
                    let found = position_usize(&clauses[j].variables, var_index);
                    match found {
                        Some(x) => {
                            proof { assert(clause_ok(clauses@[j as int], variables@.len())); }
                            let sat = variables[var_index].value == (if clauses[j].signs[x] { 1usize } else { 0usize });
                            if sat {
                                let ghost dprev = deleted_clauses@;
                                deleted_clauses.push(j);
                                proof {
                                    lemma_grows_push(d_start, dprev, j);
                                    assert(deleted_clauses@.take(d_start.len() as int) == dprev.take(d_start.len() as int));
                                    assert(deleted_clauses@[dprev.len() as int] == j);
                                    if j <= i {
                                        assert(dprev.contains(i) == false);
                                    }
                                    lemma_grows_contains(dprev, deleted_clauses@);
                                }
                                proof {
                                    assert forall|m: Seq<bool>| m.len() == nv && #[trigger] live_true(old(clauses)@, old(deleted_clauses)@, m) implies
                                        live_true(clauses@, deleted_clauses@, m) by {
                                        assert(live_true(clauses@, dprev, m));
                                        assert forall|k: int| 0 <= k < clauses@.len() && !deleted_clauses@.contains(k as usize) implies clause_true(#[trigger] clauses@[k], m) by {
                                            assert(!dprev.contains(k as usize)) by {
                                                if dprev.contains(k as usize) {
                                                    let q = choose|q: int| 0 <= q < dprev.len() && dprev[q] == k as usize;
                                                    assert(deleted_clauses@[q] == dprev[q]);
                                                }
                                            }
                                        }
                                    }
                                }
                                let ghost vu = variables@;
                                if clauses[j].variables.len() > 1 {
                                    if !double_unwatch(clauses, variables, j) {
                                        proof {
                                            lemma_grows_trans(old(deleted_clauses)@, d_start, deleted_clauses@);
                                            if ready {
                                                assert(!dj.contains(j));
                                                assert(clause_ready_but(cj[j as int], vj, var_index as int));
                                                assert(clauses@[j as int] == cj[j as int]);
                                                assert(cj[j as int].variables@.len() >= 2);
                                            }
                                        }
                                        return Err(Halt);
                                    }
                                }
                                proof {
                                    assert forall|k: int| 0 <= k < forced.len() implies variables@[#[trigger] forced[k] as int].value == vu[forced[k] as int].value by {}
                                    if ready {
                                        assert forall|k: usize| #[trigger] dj.contains(k) implies deleted_clauses@.contains(k) by {
                                            let q = choose|q: int| 0 <= q < dj.len() && dj[q] == k;
                                            assert(deleted_clauses@[q] == dj[q]);
                                        }
                                        assert(deleted_clauses@.contains(j));
                                        lemma_ready_step(cj, vj, dj, clauses@, variables@, deleted_clauses@, j as int, var_index as int);
                                    }
                                }
                            } else {
                                let ghost cprev = clauses@;
                                proof {
                                    if j == i {
                                        assert(x == 0);
                                    }
                                }
                                let ghost vprev = variables@;
                                proof {
                                    if ready {
                                        assert(!dj.contains(j));
                                        assert(cprev == cj && vprev == vj);
                                        assert(clause_ready_but(cj[j as int], vj, var_index as int));
                                        assert(cprev[j as int].variables@[x as int] == var_index);
                                        lemma_ready_deletes(cprev[j as int], vprev, var_index);
                                    }
                                    assert(x == first_pos(cprev[j as int].variables@, var_index));
                                    assert(cprev[j as int].signs@[x as int] != (variables@[var_index as int].value == 1));
                                }
                                match delete_variable(clauses, variables, j, var_index) {
                                    Ok(true) => {
                                        proof {
                                            if j < i {
                                                assert(clauses@[i as int] == cprev[i as int]);
                                            }
                                            assert forall|k: int| 0 <= k < forced.len() implies variables@[#[trigger] forced[k] as int].value == vprev[forced[k] as int].value by {}
                                            assert forall|m: Seq<bool>| m.len() == nv && #[trigger] live_true(old(clauses)@, old(deleted_clauses)@, m) implies
                                                live_true(clauses@, deleted_clauses@, m) by {
                                                assert(live_true(cprev, deleted_clauses@, m));
                                                let c = cprev[j as int];
                                                assert(clause_true(c, m));
                                                let w = choose|w: int| 0 <= w < c.variables@.len() && c.variables@[w] < m.len() && m[c.variables@[w] as int] == #[trigger] c.signs@[w];
                                                let fk = choose|k: int| 0 <= k < forced.len() && forced[k] == var_index;
                                                assert(m[forced[fk] as int] == (vprev[forced[fk] as int].value == 1));
                                                assert(w != x);
                                                let c2 = clauses@[j as int];
                                                if w < x {
                                                    assert(c2.variables@[w] == c.variables@[w] && c2.signs@[w] == c.signs@[w]);
                                                    assert(clause_true(c2, m));
                                                } else {
                                                    assert(c2.variables@[w - 1] == c.variables@[w] && c2.signs@[w - 1] == c.signs@[w]);
                                                    assert(clause_true(c2, m));
                                                }
                                                assert forall|k: int| 0 <= k < clauses@.len() && !deleted_clauses@.contains(k as usize) implies clause_true(#[trigger] clauses@[k], m) by {
                                                    if k != j { assert(clauses@[k] == cprev[k]); }
                                                }
                                            }
                                            if ready {
                                                let c = cprev[j as int];
                                                assert(c.variables@[x as int] == var_index);
                                                assert(clause_ok(c, vprev.len()));
                                                lemma_ready_after_delete(c, clauses@[j as int], vprev, variables@, var_index);
                                                assert forall|k: usize| #[trigger] dj.contains(k) implies deleted_clauses@.contains(k) by {}
                                                lemma_ready_step(cj, vj, dj, clauses@, variables@, deleted_clauses@, j as int, var_index as int);
                                            }
                                        }
                                    },
                                    Ok(false) => {
                                        proof {
                                            lemma_grows_trans(old(deleted_clauses)@, d_start, deleted_clauses@);
                                            assert forall|m: Seq<bool>| m.len() == old(variables)@.len()
                                                implies !#[trigger] live_true(old(clauses)@, old(deleted_clauses)@, m) by {
                                                if live_true(old(clauses)@, old(deleted_clauses)@, m) {
                                                    assert(live_true(cprev, deleted_clauses@, m));
                                                    let c = cprev[j as int];
                                                    assert(clause_true(c, m));
                                                    let w = choose|w: int| 0 <= w < c.variables@.len() && c.variables@[w] < m.len() && m[c.variables@[w] as int] == #[trigger] c.signs@[w];
                                                    let fk = choose|k: int| 0 <= k < forced.len() && forced[k] == var_index;
                                                    assert(m[forced[fk] as int] == (vprev[forced[fk] as int].value == 1));
                                                    assert(w == 0 && x == 0);
                                                }
                                            }
                                        }
                                        return Ok(false);
                                    },
                                    Err(h) => {
                                        proof { lemma_grows_trans(old(deleted_clauses)@, d_start, deleted_clauses@); }
                                        return Err(h);
                                    },
                                }
                            }
                        },
                        None => {
                            proof {
                                if j == i {
                                    assert(clauses@[i as int].variables@[0] == var_index);
                                }
                                if ready {
                                    let c = cj[j as int];
                                    assert(clause_ready_but(c, vj, var_index as int));
                                    assert forall|t: int| 0 <= t < c.variables@.len() && c.variables@[t] != -1
                                        implies vj[#[trigger] c.variables@[t] as int].value == 2 by {
                                        assert(c.variables@[t] != var_index);
                                    }
                                    assert forall|k: usize| #[trigger] dj.contains(k) implies deleted_clauses@.contains(k) by {}
                                    lemma_ready_step(cj, vj, dj, clauses@, variables@, deleted_clauses@, j as int, var_index as int);
                                }
                            }
                        },
                    }
                } else {
                    proof {
                        if ready {
                            assert forall|k: usize| #[trigger] dj.contains(k) implies deleted_clauses@.contains(k) by {}
                            lemma_ready_step(cj, vj, dj, clauses@, variables@, deleted_clauses@, j as int, var_index as int);
                        }
                    }
                }
                j += 1;
            }
            proof {
                if ready {
                    assert forall|k: int| 0 <= k < clauses@.len() && !deleted_clauses@.contains(k as usize)
                        implies clause_ready_but(#[trigger] clauses@[k], variables@, -1) by {
                        assert(k < j);
                    }
                }
                lemma_grows_contains(d_start, deleted_clauses@);
                lemma_live_count_shrinks(n as int, d_start, deleted_clauses@, i);
                lemma_grows_trans(old(deleted_clauses)@, d_start, deleted_clauses@);
            }
            i = 0;
        } else {
            i += 1;
        }
    }
    Ok(true)
}

/// Substituting `new_var` for `old_var` in a clause fails: where the clause
/// keeps `new_var` and drops `old_var`, as [`delete_variable_fails`] says;
/// where it holds both with signs that clash, when it does not hold the
/// variables it watches; where it gains `new_var`, when it watches `old_var`
/// and no free variable, `new_var` among them, can take that watch.
pub open spec fn replace_step_fails(c: Clause, variables: Seq<Variable>, old_var: usize, new_var: usize, sign_keeping: bool) -> bool {
    let vs = c.variables@;
    &&& vs.contains(old_var)
    &&& if vs.contains(new_var) {
        if (c.signs@[first_pos(vs, old_var)] == c.signs@[first_pos(vs, new_var)]) == sign_keeping {
            delete_variable_fails(c, variables, old_var)
        } else {
            !watches_held(c)
        }
    } else {
        &&& vs.len() > 1
        &&& (c.watched@[0] == old_var || c.watched@[1] == old_var)
        &&& !has_spare_watch(c, variables)
        &&& !(new_var != c.watched@[0] && new_var != c.watched@[1] && variables[new_var as int].value == 2)
    }
}

/// A ready clause never makes the substitution of a free variable fail.
pub proof fn lemma_ready_replaces(c: Clause, variables: Seq<Variable>, old_var: usize, new_var: usize, sign_keeping: bool)
    requires
        clause_ready_but(c, variables, -1),
        new_var < variables.len(),
        variables[new_var as int].value == 2,
    ensures
        !replace_step_fails(c, variables, old_var, new_var, sign_keeping),
{
    let vs = c.variables@;
    if vs.contains(old_var) {
        assert(clause_ready_but(c, variables, old_var as int));
        lemma_ready_deletes(c, variables, old_var);
        if !vs.contains(new_var) && vs.len() > 1 {
            assert(new_var != c.watched@[0] && new_var != c.watched@[1]);
        }
    }
}

/// Substitution fails on some live clause.
pub open spec fn replace_fails(clauses: Seq<Clause>, deleted: Seq<usize>, variables: Seq<Variable>, old_var: usize, new_var: usize, sign_keeping: bool) -> bool {
    exists|k: int| 0 <= k < clauses.len() && !deleted.contains(k as usize)
        && #[trigger] replace_step_fails(clauses[k], variables, old_var, new_var, sign_keeping)
}

/// Do `old_var` and `new_var` clash in the clause once `new_var` (negated
/// unless `sign_keeping`) stands for `old_var`?
pub open spec fn replace_clash(c: Clause, old_var: usize, new_var: usize, sign_keeping: bool) -> bool {
    let vs = c.variables@;
    vs.contains(new_var) && (c.signs@[first_pos(vs, old_var)] == c.signs@[first_pos(vs, new_var)]) != sign_keeping
}

/// The indices below `k` of the live clauses holding `old_var` that clash
/// (when `clashing`) or do not.
pub open spec fn replaced_upto(clauses: Seq<Clause>, deleted: Seq<usize>, old_var: usize, new_var: usize, sign_keeping: bool,
    clashing: bool, k: int) -> Seq<usize>
    decreases k,
{
    if k <= 0 {
        Seq::empty()
    } else {
        let prev = replaced_upto(clauses, deleted, old_var, new_var, sign_keeping, clashing, k - 1);
        let c = clauses[k - 1];
        if !deleted.contains((k - 1) as usize) && c.variables@.contains(old_var)
            && replace_clash(c, old_var, new_var, sign_keeping) == clashing {
            prev.push((k - 1) as usize)
        } else {
            prev
        }
    }
}

/// The variables of a live clause holding `old_var` after the substitution.
pub open spec fn substituted_vars(c: Clause, old_var: usize, new_var: usize, sign_keeping: bool) -> Seq<usize> {
    let vs = c.variables@;
    if vs.contains(new_var) {
        if replace_clash(c, old_var, new_var, sign_keeping) || vs.len() == 1 { vs } else { vs.remove(first_pos(vs, old_var)) }
    } else if vs.len() > 1 {
        vs.push(new_var).remove(first_pos(vs.push(new_var), old_var))
    } else {
        vs.update(0, new_var)
    }
}

/// The signs of a live clause holding `old_var` after the substitution.
pub open spec fn substituted_signs(c: Clause, old_var: usize, new_var: usize, sign_keeping: bool) -> Seq<bool> {
    let vs = c.variables@;
    let ss = c.signs@;
    if vs.contains(new_var) {
        if replace_clash(c, old_var, new_var, sign_keeping) || vs.len() == 1 { ss } else { ss.remove(first_pos(vs, old_var)) }
    } else if vs.len() > 1 {
        let os = ss[first_pos(vs, old_var)];
        ss.push(if sign_keeping { os } else { !os }).remove(first_pos(vs.push(new_var), old_var))
    } else if sign_keeping {
        ss
    } else {
        ss.update(0, !ss[0])
    }
}

/// `new` is `old` followed by indices that occur neither in `old` nor
/// earlier among themselves.
pub open spec fn fresh_ext(old: Seq<usize>, new: Seq<usize>) -> bool {
    &&& grows(old, new)
    &&& forall|a: int, b: int| 0 <= b < a && old.len() <= a < new.len() ==> #[trigger] new[a] != #[trigger] new[b]
}

/// A list is a fresh extension of itself.
pub proof fn lemma_fresh_refl(s: Seq<usize>)
    ensures
        fresh_ext(s, s),
{
    assert(s.take(s.len() as int) =~= s);
}

/// Pushing an index not yet listed keeps the extension fresh.
pub proof fn lemma_fresh_push(old: Seq<usize>, new: Seq<usize>, x: usize)
    requires
        fresh_ext(old, new),
        !new.contains(x),
    ensures
        fresh_ext(old, new.push(x)),
{
    let n2 = new.push(x);
    assert(n2.take(old.len() as int) =~= new.take(old.len() as int));
    assert forall|a: int, b: int| 0 <= b < a && old.len() <= a < n2.len() implies #[trigger] n2[a] != #[trigger] n2[b] by {
        if a == new.len() {
            assert(n2[b] == new[b]);
            if n2[b] == x { assert(new.contains(x)); }
        } else {
            assert(n2[a] == new[a]);
            assert(n2[b] == new[b]);
        }
    }
}

/// Fresh extensions compose.
pub proof fn lemma_fresh_trans(a: Seq<usize>, b: Seq<usize>, c: Seq<usize>)
    requires
        fresh_ext(a, b),
        fresh_ext(b, c),
    ensures
        fresh_ext(a, c),
{
    assert(c.take(a.len() as int) =~= c.take(b.len() as int).take(a.len() as int));
    assert forall|x: int, y: int| 0 <= y < x && a.len() <= x < c.len() implies #[trigger] c[x] != #[trigger] c[y] by {
        if x < b.len() {
            assert(c[x] == b[x]);
            assert(c[y] == b[y]);
        }
    }
}

/// Pushes an index onto a list that only grows.
fn push_index(list: &mut Vec<usize>, x: usize, Ghost(n): Ghost<nat>)
    requires
        indices_ok(old(list)@, n),
        x < n,
    ensures
        final(list)@ == old(list)@.push(x),
        indices_ok(final(list)@, n),
        grows(old(list)@, final(list)@),
{
    list.push(x);
    proof { lemma_grows_refl(old(list)@); lemma_grows_push(old(list)@, old(list)@, x); }
}

/// Substitutes variable `new` (negated unless `sign_keeping`) for variable
/// `old` in every live clause holding `old`. A clause holding both keeps one
/// literal of them when they agree under the substitution (`old` is removed)
/// and is deleted, leaving the watch lists, when they clash. A longer clause
/// holding only `old` gains the substituted literal and loses `old`; a unit
/// clause has its literal rewritten in place. Every rewritten clause joins
/// `changed_new`. `Err` as [`replace_fails`] says.
#[verifier::spinoff_prover]
#[verifier::rlimit(100)]
pub fn replace_variable(
    clauses: &mut Vec<Clause>,
    variables: &mut Vec<Variable>,
    deleted_clauses: &mut Vec<usize>,
    old_var: usize,
    new_var: usize,
    sign_keeping: bool,
    changed_new: &mut Vec<usize>,
) -> (res: Result<(), Halt>)
    requires
        db_ok(old(clauses)@, old(variables)@),
        indices_ok(old(deleted_clauses)@, old(clauses)@.len()),
        indices_ok(old(changed_new)@, old(clauses)@.len()),
        1 <= old_var < old(variables)@.len(),
        1 <= new_var < old(variables)@.len(),
    ensures
        res is Err <==> replace_fails(old(clauses)@, old(deleted_clauses)@, old(variables)@, old_var, new_var, sign_keeping),
        db_ready(old(clauses)@, old(deleted_clauses)@, old(variables)@) && old(variables)@[new_var as int].value == 2 ==> {
            &&& res is Ok
            &&& db_ready(final(clauses)@, final(deleted_clauses)@, final(variables)@)
        },
        res is Ok ==> {
            &&& db_ok(final(clauses)@, final(variables)@)
            &&& final(clauses)@.len() == old(clauses)@.len()
            &&& values_kept(old(variables)@, final(variables)@)
            &&& indices_ok(final(deleted_clauses)@, final(clauses)@.len())
            &&& grows(old(deleted_clauses)@, final(deleted_clauses)@)
            &&& fresh_ext(old(deleted_clauses)@, final(deleted_clauses)@)
            &&& indices_ok(final(changed_new)@, final(clauses)@.len())
            &&& grows(old(changed_new)@, final(changed_new)@)
            &&& final(deleted_clauses)@ == old(deleted_clauses)@
                + replaced_upto(old(clauses)@, old(deleted_clauses)@, old_var, new_var, sign_keeping, true, old(clauses)@.len() as int)
            &&& final(changed_new)@ == old(changed_new)@
                + replaced_upto(old(clauses)@, old(deleted_clauses)@, old_var, new_var, sign_keeping, false, old(clauses)@.len() as int)
            &&& forall|k: int| 0 <= k < old(clauses)@.len() ==> if !old(deleted_clauses)@.contains(k as usize)
                && (#[trigger] old(clauses)@[k]).variables@.contains(old_var) {
                    &&& final(clauses)@[k].variables@ == substituted_vars(old(clauses)@[k], old_var, new_var, sign_keeping)
                    &&& final(clauses)@[k].signs@ == substituted_signs(old(clauses)@[k], old_var, new_var, sign_keeping)
                } else {
                    &&& final(clauses)@[k].variables@ == old(clauses)@[k].variables@
                    &&& final(clauses)@[k].signs@ == old(clauses)@[k].signs@
                }
        },
{
    let n = clauses.len();
    proof { lemma_grows_refl(deleted_clauses@); lemma_grows_refl(changed_new@); lemma_fresh_refl(deleted_clauses@); }
    let ghost rdy = db_ready(old(clauses)@, old(deleted_clauses)@, old(variables)@) && old(variables)@[new_var as int].value == 2;
    let mut i: usize = 0;
    while i < n
        invariant
            n == clauses@.len(),
            n == old(clauses)@.len(),
            i <= n,
            db_ok(clauses@, variables@),
            values_kept(old(variables)@, variables@),
            indices_ok(deleted_clauses@, n as nat),
            grows(old(deleted_clauses)@, deleted_clauses@),
            fresh_ext(old(deleted_clauses)@, deleted_clauses@),
            indices_ok(changed_new@, n as nat),
            grows(old(changed_new)@, changed_new@),
            1 <= old_var < variables@.len(),
            1 <= new_var < variables@.len(),
            forall|k: int| i <= k < n ==> #[trigger] clauses@[k] == old(clauses)@[k],
            forall|k: int| i <= k < n ==> #[trigger] deleted_clauses@.contains(k as usize) == old(deleted_clauses)@.contains(k as usize),
            forall|k: int| 0 <= k < i ==> !(!old(deleted_clauses)@.contains(k as usize)
                && #[trigger] replace_step_fails(old(clauses)@[k], old(variables)@, old_var, new_var, sign_keeping)),
            deleted_clauses@ == old(deleted_clauses)@
                + replaced_upto(old(clauses)@, old(deleted_clauses)@, old_var, new_var, sign_keeping, true, i as int),
            changed_new@ == old(changed_new)@
                + replaced_upto(old(clauses)@, old(deleted_clauses)@, old_var, new_var, sign_keeping, false, i as int),
            forall|k: int| 0 <= k < i ==> if !old(deleted_clauses)@.contains(k as usize)
                && (#[trigger] old(clauses)@[k]).variables@.contains(old_var) {
                    &&& clauses@[k].variables@ == substituted_vars(old(clauses)@[k], old_var, new_var, sign_keeping)
                    &&& clauses@[k].signs@ == substituted_signs(old(clauses)@[k], old_var, new_var, sign_keeping)
                } else {
                    &&& clauses@[k].variables@ == old(clauses)@[k].variables@
                    &&& clauses@[k].signs@ == old(clauses)@[k].signs@
                },
            rdy == (db_ready(old(clauses)@, old(deleted_clauses)@, old(variables)@) && old(variables)@[new_var as int].value == 2),
            rdy ==> db_ready(clauses@, deleted_clauses@, variables@),
        decreases n - i,
    {
        let ghost cg = clauses@[i as int];
        let ghost cb = clauses@;
        let ghost d_in = deleted_clauses@;
        let ghost ch_in = changed_new@;
        let ghost vb0 = variables@;
        proof {
            if rdy {
                assert(variables@[new_var as int].value == old(variables)@[new_var as int].value);
                if !d_in.contains(i as usize) && i < n {
                    assert(cg == old(clauses)@[i as int]);
                    assert(old(deleted_clauses)@.contains(i as usize) == d_in.contains(i as usize));
                    assert(clause_ready_but(cg, vb0, -1));
                    assert(clause_ok(cg, vb0.len()));
                    assert(values_kept(vb0, old(variables)@));
                    lemma_ready_values(cg, vb0, old(variables)@, -1);
                    lemma_ready_replaces(cg, old(variables)@, old_var, new_var, sign_keeping);
                }
            }
        }
        proof {
            assert(old(deleted_clauses)@ + replaced_upto(old(clauses)@, old(deleted_clauses)@, old_var, new_var, sign_keeping, true, i + 1)
                =~= d_in + (if !old(deleted_clauses)@.contains(i as usize) && cg.variables@.contains(old_var)
                    && replace_clash(cg, old_var, new_var, sign_keeping) { seq![i] } else { Seq::empty() }));
            assert(old(changed_new)@ + replaced_upto(old(clauses)@, old(deleted_clauses)@, old_var, new_var, sign_keeping, false, i + 1)
                =~= ch_in + (if !old(deleted_clauses)@.contains(i as usize) && cg.variables@.contains(old_var)
                    && !replace_clash(cg, old_var, new_var, sign_keeping) { seq![i] } else { Seq::empty() }));
        }
        proof {
            assert(cg == old(clauses)@[i as int]);
            assert(clause_ok(cg, variables@.len()));
            lemma_spare_watch_values(cg, old(variables)@, variables@, old(variables)@.len());
        }
        if !contains_index(deleted_clauses, i) && contains_usize(&clauses[i].variables, old_var) {
            proof { assert(clause_ok(clauses@[i as int], variables@.len())); }
            if contains_usize(&clauses[i].variables, new_var) {
                let old_index = match position_usize(&clauses[i].variables, old_var) { Some(p) => p, None => { return Err(Halt); } };
                let new_index = match position_usize(&clauses[i].variables, new_var) { Some(p) => p, None => { return Err(Halt); } };
                let agree = clauses[i].signs[old_index] == clauses[i].signs[new_index];
                proof {
                    assert(old_index == first_pos(cg.variables@, old_var));
                    assert(new_index == first_pos(cg.variables@, new_var));
                }
                if agree == sign_keeping {
                    let ghost vb = variables@;
                    let rd = delete_variable(clauses, variables, i, old_var);
                    if rd.is_err() {
                        proof { assert(replace_step_fails(old(clauses)@[i as int], old(variables)@, old_var, new_var, sign_keeping)); }
                        return Err(Halt);
                    }
                    proof {
                        if rdy && rd == Ok::<bool, Halt>(true) {
                            assert(clause_ready_but(cg, vb, old_var as int));
                            assert(clause_ok(cg, vb.len()));
                            lemma_ready_after_delete(cg, clauses@[i as int], vb, variables@, old_var);
                        }
                        if rdy && rd == Ok::<bool, Halt>(false) {
                            assert(clauses@[i as int] == cg);
                        }
                    }
                    let ghost d = changed_new@;
                    push_index(changed_new, i, Ghost(n as nat));
                    proof { lemma_grows_trans(old(changed_new)@, d, changed_new@); }
                } else {
                    let ghost d = deleted_clauses@;
                    push_index(deleted_clauses, i, Ghost(n as nat));
                    proof {
                        lemma_grows_trans(old(deleted_clauses)@, d, deleted_clauses@);
                        lemma_fresh_push(old(deleted_clauses)@, d, i);
                    }
                    let ghost vb = variables@;
                    if !double_unwatch(clauses, variables, i) {
                        proof { assert(replace_step_fails(old(clauses)@[i as int], old(variables)@, old_var, new_var, sign_keeping)); }
                        return Err(Halt);
                    }
                }
            } else {
                if clauses[i].variables.len() > 1 {
                    let old_index = match position_usize(&clauses[i].variables, old_var) { Some(p) => p, None => { return Err(Halt); } };
                    let old_sign = clauses[i].signs[old_index];
                    let new_sign = if sign_keeping { old_sign } else { !old_sign };
                    let ghost before = clauses@;
                    let mut c = clauses.remove(i);
                    c.variables.push(new_var);
                    c.signs.push(new_sign);
                    clauses.insert(i, c);
                    proof {
                        assert forall|k: int| 0 <= k < clauses@.len() && k != i implies #[trigger] clauses@[k] == before[k] by {
                            assert(clauses@[k] == before[k]);
                        }
                        assert forall|k: int| 0 <= k < clauses@.len() implies clause_ok(#[trigger] clauses@[k], variables@.len()) by {
                            assert(clause_ok(before[k], variables@.len()));
                        }
                        assert forall|v: int| 0 <= v < variables@.len() implies variable_ok(#[trigger] variables@[v], clauses@.len()) by {
                            assert(variable_ok(variables@[v], before.len()));
                        }
                    }
                    proof {
                        let c2 = clauses@[i as int];
                        assert(c2.variables@ == cg.variables@.push(new_var));
                        assert(c2.watched@ == cg.watched@);
                        assert(c2.variables@.contains(old_var)) by {
                            let q = choose|q: int| 0 <= q < cg.variables@.len() && cg.variables@[q] == old_var;
                            assert(c2.variables@[q] == old_var);
                        }
                        if has_spare_watch(c2, variables@) {
                            let k = choose|k: int| 0 <= k < c2.variables@.len() && #[trigger] c2.variables@[k] != c2.watched@[0]
                                && c2.variables@[k] != c2.watched@[1] && variables@[c2.variables@[k] as int].value == 2;
                            if k < cg.variables@.len() {
                                assert(cg.variables@[k] == c2.variables@[k]);
                                assert(has_spare_watch(cg, variables@));
                            }
                        }
                        if has_spare_watch(cg, variables@) {
                            let k = choose|k: int| 0 <= k < cg.variables@.len() && #[trigger] cg.variables@[k] != cg.watched@[0]
                                && cg.variables@[k] != cg.watched@[1] && variables@[cg.variables@[k] as int].value == 2;
                            assert(c2.variables@[k] == cg.variables@[k]);
                            assert(has_spare_watch(c2, variables@));
                        }
                        if new_var != cg.watched@[0] && new_var != cg.watched@[1] && variables@[new_var as int].value == 2 {
                            assert(c2.variables@[cg.variables@.len() as int] == new_var);
                            assert(has_spare_watch(c2, variables@));
                        }
                        assert(variables@[new_var as int].value == old(variables)@[new_var as int].value);
                    }
                    let ghost cp = clauses@[i as int];
                    let ghost vp = variables@;
                    proof {
                        if rdy {
                            let vs = cp.variables@;
                            assert(vs == cg.variables@.push(new_var));
                            assert(clause_ready_but(cg, vb0, -1));
                            assert forall|a2: int, b2: int| 0 <= a2 < b2 < vs.len() implies vs[a2] != vs[b2] by {
                                if b2 == cg.variables@.len() {
                                    assert(vs[a2] == cg.variables@[a2]);
                                } else {
                                    assert(vs[a2] == cg.variables@[a2] && vs[b2] == cg.variables@[b2]);
                                }
                            }
                            assert forall|t: int| 0 <= t < vs.len() && vs[t] != old_var as int implies vp[#[trigger] vs[t] as int].value == 2 by {
                                if t < cg.variables@.len() {
                                    assert(vs[t] == cg.variables@[t]);
                                    assert(vb0[cg.variables@[t] as int].value == 2);
                                } else {
                                    assert(vs[t] == new_var);
                                }
                            }
                            assert(cg.variables@.contains(cg.watched@[0]) && cg.variables@.contains(cg.watched@[1]));
                            assert(vs.contains(cg.watched@[0])) by {
                                let q = choose|q: int| 0 <= q < cg.variables@.len() && cg.variables@[q] == cg.watched@[0];
                                assert(vs[q] == cg.watched@[0]);
                            }
                            assert(vs.contains(cg.watched@[1])) by {
                                let q = choose|q: int| 0 <= q < cg.variables@.len() && cg.variables@[q] == cg.watched@[1];
                                assert(vs[q] == cg.watched@[1]);
                            }
                            assert(clause_ready_but(cp, vp, old_var as int));
                        }
                    }
                    let rd = delete_variable(clauses, variables, i, old_var);
                    if rd.is_err() {
                        proof { assert(replace_step_fails(old(clauses)@[i as int], old(variables)@, old_var, new_var, sign_keeping)); }
                        return Err(Halt);
                    }
                    proof {
                        if rdy {
                            assert(clause_ok(cp, vp.len()));
                            lemma_ready_after_delete(cp, clauses@[i as int], vp, variables@, old_var);
                        }
                    }
                    let ghost d = changed_new@;
                    push_index(changed_new, i, Ghost(n as nat));
                    proof { lemma_grows_trans(old(changed_new)@, d, changed_new@); }
                } else {
                    let ghost before = clauses@;
                    let mut c = clauses.remove(i);
                    c.variables.set(0, new_var);
                    if !sign_keeping {
                        let s0 = c.signs[0];
                        c.signs.set(0, !s0);
                    }
                    clauses.insert(i, c);
                    proof {
                        assert forall|k: int| 0 <= k < clauses@.len() && k != i implies #[trigger] clauses@[k] == before[k] by {
                            assert(clauses@[k] == before[k]);
                        }
                        assert forall|k: int| 0 <= k < clauses@.len() implies clause_ok(#[trigger] clauses@[k], variables@.len()) by {
                            assert(clause_ok(before[k], variables@.len()));
                        }
                        assert forall|v: int| 0 <= v < variables@.len() implies variable_ok(#[trigger] variables@[v], clauses@.len()) by {
                            assert(variable_ok(variables@[v], before.len()));
                        }
                    }
                    proof {
                        if rdy {
                            let c1 = clauses@[i as int];
                            assert(c1.variables@.len() == 1);
                            assert(c1.variables@[0] == new_var);
                            assert(variables@[new_var as int].value == 2);
                            assert(clause_ready_but(c1, variables@, -1));
                        }
                    }
                    let ghost d = changed_new@;
                    push_index(changed_new, i, Ghost(n as nat));
                    proof { lemma_grows_trans(old(changed_new)@, d, changed_new@); }
                }
            }
        } else {
            proof {
                if rdy && !d_in.contains(i as usize) {
                    assert(clauses@[i as int] == cg);
                    assert(clause_ready_but(cg, vb0, -1));
                }
            }
        }
        proof {
            if rdy {
                assert(ready_from(cb, d_in, vb0, i as int, -1));
                assert forall|k: usize| #[trigger] d_in.contains(k) implies deleted_clauses@.contains(k) by {
                    let q = choose|q: int| 0 <= q < d_in.len() && d_in[q] == k;
                    assert(deleted_clauses@[q] == d_in[q]);
                }
                assert(!deleted_clauses@.contains(i as usize) ==> clause_ready_but(clauses@[i as int], variables@, -1));
                lemma_ready_step(cb, vb0, d_in, clauses@, variables@, deleted_clauses@, i as int, -1);
                assert forall|k: int| 0 <= k < clauses@.len() && !deleted_clauses@.contains(k as usize)
                    implies clause_ready_but(#[trigger] clauses@[k], variables@, -1) by {}
            }
        }
        proof {
            assert forall|k: int| 0 <= k < n && k != i implies #[trigger] clauses@[k] == cb[k] by {}
            assert forall|k: int| 0 <= k < i + 1 implies if !old(deleted_clauses)@.contains(k as usize)
                && (#[trigger] old(clauses)@[k]).variables@.contains(old_var) {
                    &&& clauses@[k].variables@ == substituted_vars(old(clauses)@[k], old_var, new_var, sign_keeping)
                    &&& clauses@[k].signs@ == substituted_signs(old(clauses)@[k], old_var, new_var, sign_keeping)
                } else {
                    &&& clauses@[k].variables@ == old(clauses)@[k].variables@
                    &&& clauses@[k].signs@ == old(clauses)@[k].signs@
                } by {
                if k < i {
                    assert(clauses@[k] == cb[k]);
                }
            }
            assert(!(!old(deleted_clauses)@.contains(i as usize)
                && replace_step_fails(old(clauses)@[i as int], old(variables)@, old_var, new_var, sign_keeping)));
            assert forall|k: int| i + 1 <= k < n implies #[trigger] deleted_clauses@.contains(k as usize) == old(deleted_clauses)@.contains(k as usize) by {
                assert(d_in.contains(k as usize) == old(deleted_clauses)@.contains(k as usize));
                if deleted_clauses@.contains(k as usize) && !d_in.contains(k as usize) {
                    let q = choose|q: int| 0 <= q < deleted_clauses@.len() && deleted_clauses@[q] == k as usize;
                    if q < d_in.len() { assert(deleted_clauses@[q] == d_in[q]); }
                }
                if d_in.contains(k as usize) {
                    let q = choose|q: int| 0 <= q < d_in.len() && d_in[q] == k as usize;
                    assert(deleted_clauses@[q] == d_in[q]);
                }
            }
        }
        i += 1;
    }
    Ok(())
}

/// Replacement rules name real variables of the table.
pub open spec fn rules_ok(rules: Seq<(usize, usize, bool)>, nvars: nat) -> bool {
    forall|k: int| 0 <= k < rules.len() ==> 1 <= (#[trigger] rules[k]).0 < nvars && 1 <= rules[k].1 < nvars
}

/// The literals of a well-formed clause are `i32` values other than `i32::MIN`,
/// whose absolute values are the clause's variables.
pub proof fn lemma_literals_ok(c: Clause, nvars: nat, lits: Seq<i32>)
    requires
        clause_ok(c, nvars),
        nvars <= crate::cdcl::types::max_vars(),
        lits.len() == c.variables@.len(),
        forall|j: int| 0 <= j < lits.len() ==> #[trigger] lits[j] as int == clause_lits(c)[j],
    ensures
        negatable(lits),
        forall|j: int| 0 <= j < lits.len() ==> (if lits[j] < 0 { -lits[j] } else { lits[j] as int }) == c.variables@[j] as int,
{
    assert forall|j: int| 0 <= j < lits.len() implies #[trigger] lits[j] != i32::MIN by {
        assert(lits[j] as int == lit_int(c.variables@[j], c.signs@[j]));
        assert(1 <= c.variables@[j] < nvars);
    }
    assert forall|j: int| 0 <= j < lits.len() implies (if lits[j] < 0 { -lits[j] } else { lits[j] as int }) == c.variables@[j] as int by {
        assert(lits[j] as int == lit_int(c.variables@[j], c.signs@[j]));
        assert(1 <= c.variables@[j] < nvars);
    }
}

/// The variable of an `i32` literal other than `i32::MIN`.
fn lit_var(x: i32) -> (v: usize)
    requires
        x != i32::MIN,
    ensures
        v as int == (if x < 0 { -x } else { x as int }),
{
    if x < 0 { (-x) as usize } else { x as usize }
}

/// One pass of clause simplification over the live clauses, each compared
/// with every later live clause and every live clause outside the pass: a
/// clause subsumed by the current one is deleted; a current clause subsumed
/// by the other is deleted; a resolution candidate (see
/// `resolvent_candidates`) strengthens one clause by removing the candidate
/// variable (deleting the other clause when both have the same length); two
/// binary clauses whose literals are pairwise opposite make the first
/// variable equivalent to the second (negated when their literals have
/// opposite signs), which `replace_variable` substitutes and a replacement
/// rule records. Strengthened clauses are queued for further passes, which
/// resume at the position the previous pass reached. `out_of_time` is asked
/// before each clause and stops the work with `Ok(true)`; the same early stop
/// happens once `u64::MAX` passes have run. `Ok(false)` when a clause would
/// lose its last literal. On a database ready for simplification (see
/// [`db_ready`]) the result is `Ok`, and the database stays ready.
#[verifier::spinoff_prover]
#[verifier::rlimit(100)]
pub fn preprocessing1<F: Fn() -> bool>(
    clauses: &mut Vec<Clause>,
    deleted_clauses: &mut Vec<usize>,
    variables: &mut Vec<Variable>,
    replacement_rules: &mut Vec<(usize, usize, bool)>,
    out_of_time: &F,
) -> (res: Result<bool, Halt>)
    requires
        db_ok(old(clauses)@, old(variables)@),
        indices_ok(old(deleted_clauses)@, old(clauses)@.len()),
        rules_ok(old(replacement_rules)@, old(variables)@.len()),
        out_of_time.requires(()),
    ensures
        res is Ok ==> {
            &&& db_ok(final(clauses)@, final(variables)@)
            &&& final(clauses)@.len() == old(clauses)@.len()
            &&& values_kept(old(variables)@, final(variables)@)
            &&& indices_ok(final(deleted_clauses)@, final(clauses)@.len())
            &&& grows(old(deleted_clauses)@, final(deleted_clauses)@)
            &&& fresh_ext(old(deleted_clauses)@, final(deleted_clauses)@)
            &&& rules_ok(final(replacement_rules)@, final(variables)@.len())
            &&& old(replacement_rules)@.len() <= final(replacement_rules)@.len()
            &&& final(replacement_rules)@.take(old(replacement_rules)@.len() as int) == old(replacement_rules)@
        },
        db_ready(old(clauses)@, old(deleted_clauses)@, old(variables)@) ==> {
            &&& res is Ok
            &&& db_ready(final(clauses)@, final(deleted_clauses)@, final(variables)@)
        },
        db_ready(old(clauses)@, old(deleted_clauses)@, old(variables)@) && res == Ok::<bool, Halt>(false)
            ==> forall|m: Seq<bool>| m.len() == old(variables)@.len() ==> !#[trigger] live_true(old(clauses)@, old(deleted_clauses)@, m),
        db_ready(old(clauses)@, old(deleted_clauses)@, old(variables)@) && res == Ok::<bool, Halt>(true)
            ==> models_into(old(clauses)@, old(deleted_clauses)@, final(clauses)@, final(deleted_clauses)@, old(variables)@.len()),
        db_ready(old(clauses)@, old(deleted_clauses)@, old(variables)@) && res is Ok ==>
            forall|m: Seq<bool>| m.len() == old(variables)@.len() && #[trigger] live_true(old(clauses)@, old(deleted_clauses)@, m)
                ==> rules_hold_from(m, final(replacement_rules)@, old(replacement_rules)@.len() as int),
{
    let n = clauses.len();
    let ghost rdy = db_ready(old(clauses)@, old(deleted_clauses)@, old(variables)@);
    let mut changed_old: Vec<usize> = Vec::new();
    let mut changed_new: Vec<usize> = Vec::new();
    let mut i0: usize = 0;
    while i0 < n
        invariant
            n == clauses@.len(),
            i0 <= n,
            indices_ok(changed_new@, n as nat),
        decreases n - i0,
    {
        if !contains_index(deleted_clauses, i0) {
            changed_new.push(i0);
        }
        i0 += 1;
    }
    proof {
        lemma_grows_refl(deleted_clauses@);
        lemma_fresh_refl(deleted_clauses@);
        assert(models_into(old(clauses)@, old(deleted_clauses)@, clauses@, deleted_clauses@, old(variables)@.len()));
        assert(replacement_rules@.take(replacement_rules@.len() as int) =~= replacement_rules@);
    }
    let mut changed_old_i: usize = 0;
    let mut passes: u64 = 0;
    while changed_new.len() > 0
        invariant
            n == clauses@.len(),
            n == old(clauses)@.len(),
            db_ok(clauses@, variables@),
            values_kept(old(variables)@, variables@),
            indices_ok(deleted_clauses@, n as nat),
            grows(old(deleted_clauses)@, deleted_clauses@),
            fresh_ext(old(deleted_clauses)@, deleted_clauses@),
            indices_ok(changed_new@, n as nat),
            indices_ok(changed_old@, n as nat),
            rules_ok(replacement_rules@, variables@.len()),
            old(replacement_rules)@.len() <= replacement_rules@.len(),
            replacement_rules@.take(old(replacement_rules)@.len() as int) == old(replacement_rules)@,
            out_of_time.requires(()),
            rdy == db_ready(old(clauses)@, old(deleted_clauses)@, old(variables)@),
            rdy ==> db_ready(clauses@, deleted_clauses@, variables@),
            rdy ==> models_into(old(clauses)@, old(deleted_clauses)@, clauses@, deleted_clauses@, old(variables)@.len()),
            rdy ==> forall|m: Seq<bool>| m.len() == old(variables)@.len() && #[trigger] live_true(old(clauses)@, old(deleted_clauses)@, m)
                ==> rules_hold_from(m, replacement_rules@, old(replacement_rules)@.len() as int),
        decreases u64::MAX - passes,
    {
        if passes == u64::MAX {
            return Ok(true);
        }
        passes += 1;
        changed_old.clear();
        let mut k: usize = 0;
        while k < changed_new.len()
            invariant
                k <= changed_new@.len(),
                indices_ok(changed_new@, n as nat),
                indices_ok(changed_old@, n as nat),
            decreases changed_new@.len() - k,
        {
            if !contains_index(deleted_clauses, changed_new[k]) {
                changed_old.push(changed_new[k]);
            }
            k += 1;
        }
        changed_new.clear();
        while changed_old_i < changed_old.len()
            invariant
                n == clauses@.len(),
                n == old(clauses)@.len(),
                db_ok(clauses@, variables@),
                values_kept(old(variables)@, variables@),
                indices_ok(deleted_clauses@, n as nat),
                grows(old(deleted_clauses)@, deleted_clauses@),
            fresh_ext(old(deleted_clauses)@, deleted_clauses@),
                indices_ok(changed_new@, n as nat),
                indices_ok(changed_old@, n as nat),
                rules_ok(replacement_rules@, variables@.len()),
                old(replacement_rules)@.len() <= replacement_rules@.len(),
                replacement_rules@.take(old(replacement_rules)@.len() as int) == old(replacement_rules)@,
                out_of_time.requires(()),
                rdy == db_ready(old(clauses)@, old(deleted_clauses)@, old(variables)@),
                rdy ==> db_ready(clauses@, deleted_clauses@, variables@),
                rdy ==> models_into(old(clauses)@, old(deleted_clauses)@, clauses@, deleted_clauses@, old(variables)@.len()),
                rdy ==> forall|m: Seq<bool>| m.len() == old(variables)@.len() && #[trigger] live_true(old(clauses)@, old(deleted_clauses)@, m)
                    ==> rules_hold_from(m, replacement_rules@, old(replacement_rules)@.len() as int),
            decreases changed_old@.len() - changed_old_i,
        {
            if out_of_time() {
                return Ok(true);
            }
            let i = changed_old[changed_old_i];
            let mut j: usize = 0;
            if !contains_index(deleted_clauses, i) {
                while j < clauses.len()
                    invariant_except_break
                        !deleted_clauses@.contains(i),
                    invariant
                        i == changed_old@[changed_old_i as int],
                        changed_old_i < changed_old@.len(),
                        n == clauses@.len(),
                        n == old(clauses)@.len(),
                        i < n,
                        j <= n,
                        db_ok(clauses@, variables@),
                        values_kept(old(variables)@, variables@),
                        indices_ok(deleted_clauses@, n as nat),
                        grows(old(deleted_clauses)@, deleted_clauses@),
            fresh_ext(old(deleted_clauses)@, deleted_clauses@),
                        indices_ok(changed_new@, n as nat),
                        indices_ok(changed_old@, n as nat),
                        rules_ok(replacement_rules@, variables@.len()),
                        old(replacement_rules)@.len() <= replacement_rules@.len(),
                        replacement_rules@.take(old(replacement_rules)@.len() as int) == old(replacement_rules)@,
                        rdy == db_ready(old(clauses)@, old(deleted_clauses)@, old(variables)@),
                        rdy ==> db_ready(clauses@, deleted_clauses@, variables@),
                        rdy ==> models_into(old(clauses)@, old(deleted_clauses)@, clauses@, deleted_clauses@, old(variables)@.len()),
                        rdy ==> forall|m: Seq<bool>| m.len() == old(variables)@.len() && #[trigger] live_true(old(clauses)@, old(deleted_clauses)@, m)
                            ==> rules_hold_from(m, replacement_rules@, old(replacement_rules)@.len() as int),
                    decreases 2 * (n - j) + (if j < n && deleted_clauses@.contains(j) { 0int } else { 1int }),
                {
                    let ghost cb = clauses@;
                    let ghost vb = variables@;
                    let ghost db = deleted_clauses@;
                    if !contains_index(deleted_clauses, j) && (!contains_index(&changed_old, j) || j > i) {
                        proof {
                            assert(clause_ok(clauses@[i as int], variables@.len()));
                            assert(clause_ok(clauses@[j as int], variables@.len()));
                        }
                        let lit1 = get_literals(&clauses[i]);
                        let lit2 = get_literals(&clauses[j]);
                        proof {
                            lemma_literals_ok(clauses@[i as int], variables@.len(), lit1@);
                            lemma_literals_ok(clauses@[j as int], variables@.len(), lit2@);
                        }
                        let sub = subsumption(&lit1, &lit2);
                        if sub == 1 {
                            let ghost d = deleted_clauses@;
                            push_index(deleted_clauses, j, Ghost(n as nat));
                            proof {
                                lemma_grows_trans(old(deleted_clauses)@, d, deleted_clauses@);
                                lemma_fresh_push(old(deleted_clauses)@, d, j);
                            }
                            if !double_unwatch(clauses, variables, j) {
                                proof { if rdy { assert(clause_ready_but(cb[j as int], vb, -1)); } }
                                return Err(Halt);
                            }
                            proof {
                                assert(deleted_clauses@[deleted_clauses@.len() - 1] == j);
                                if rdy {
                                    assert forall|k: usize| #[trigger] db.contains(k) implies deleted_clauses@.contains(k) by {
                                        let q = choose|q: int| 0 <= q < db.len() && db[q] == k;
                                        assert(deleted_clauses@[q] == db[q]);
                                    }
                                    lemma_ready_change(cb, db, vb, clauses@, deleted_clauses@, variables@, j as int);
                                    assert forall|m: Seq<bool>| m.len() == old(variables)@.len() && #[trigger] live_true(old(clauses)@, old(deleted_clauses)@, m)
                                        implies live_true(clauses@, deleted_clauses@, m) by {
                                        lemma_live_shrink(cb, db, clauses@, deleted_clauses@, m);
                                    }
                                }
                            }
                            continue;
                        } else if sub == 2 {
                            let ghost d = deleted_clauses@;
                            push_index(deleted_clauses, i, Ghost(n as nat));
                            proof {
                                lemma_grows_trans(old(deleted_clauses)@, d, deleted_clauses@);
                                lemma_fresh_push(old(deleted_clauses)@, d, i);
                            }
                            if !double_unwatch(clauses, variables, i) {
                                proof { if rdy { assert(clause_ready_but(cb[i as int], vb, -1)); } }
                                return Err(Halt);
                            }
                            proof {
                                if rdy {
                                    assert(deleted_clauses@[deleted_clauses@.len() - 1] == i);
                                    assert forall|k: usize| #[trigger] db.contains(k) implies deleted_clauses@.contains(k) by {
                                        let q = choose|q: int| 0 <= q < db.len() && db[q] == k;
                                        assert(deleted_clauses@[q] == db[q]);
                                    }
                                    lemma_ready_change(cb, db, vb, clauses@, deleted_clauses@, variables@, i as int);
                                    assert forall|m: Seq<bool>| m.len() == old(variables)@.len() && #[trigger] live_true(old(clauses)@, old(deleted_clauses)@, m)
                                        implies live_true(clauses@, deleted_clauses@, m) by {
                                        lemma_live_shrink(cb, db, clauses@, deleted_clauses@, m);
                                    }
                                }
                            }
                            break;
                        }
                        let resolve = resolvent_candidates(&lit1, &lit2);
                        if resolve.1 == 0 || resolve.1 == 1 || resolve.1 == 2 {
                            let ghost ci = cb[i as int];
                            let ghost cjj = cb[j as int];
                            let ghost mut p1: int = 0;
                            let ghost mut p2: int = 0;
                            proof {
                                lemma_candidate_source(lit1@, lit2@, 0);
                                let p = choose|p: int| 0 <= p < lit1@.len() && lit2@.contains((-lit1@[p]) as i32)
                                    && candidates_from(lit1@, lit2@, 0).0 == (if candidates_from(lit1@, lit2@, 0).1 == 1 { -(#[trigger] lit1@[p] as int) } else { lit1@[p] as int })
                                    && candidate_at(lit1@, lit2@, p) == Some(candidates_from(lit1@, lit2@, 0));
                                assert((if lit1@[p] < 0 { -lit1@[p] } else { lit1@[p] as int }) == ci.variables@[p] as int);
                                assert(ci.variables@[p] < variables@.len());
                                let q = choose|q: int| 0 <= q < lit2@.len() && lit2@[q] == (-lit1@[p]) as i32;
                                assert((if lit2@[q] < 0 { -lit2@[q] } else { lit2@[q] as int }) == cjj.variables@[q] as int);
                                assert(resolve.0 != i32::MIN);
                                let vv: int = if resolve.0 < 0 { -resolve.0 } else { resolve.0 as int };
                                assert(vv == ci.variables@[p]);
                                assert(vv == cjj.variables@[q]);
                                assert(ci.variables@.contains(vv as usize));
                                assert(cjj.variables@.contains(vv as usize));
                                p1 = p;
                                p2 = q;
                                if rdy {
                                    assert(clause_ready_but(ci, vb, -1));
                                    assert(clause_ready_but(cjj, vb, -1));
                                    assert(clause_ok(ci, vb.len()) && clause_ok(cjj, vb.len()));
                                    lemma_lits_distinct(ci, lit1@, vb.len());
                                    lemma_lits_distinct(cjj, lit2@, vb.len());
                                    let x = lit1@[p];
                                    let r1 = rest_spec(lit1@, x);
                                    let r2 = rest_spec(lit2@, (-x) as i32);
                                    if resolve.1 == 2 {
                                        assert(subsumption_spec(r1, r2) == 2);
                                        lemma_rest_subset(lit2@, (-x) as i32, lit1@, x);
                                    } else {
                                        assert(subsumption_spec(r1, r2) == 1);
                                        lemma_rest_subset(lit1@, x, lit2@, (-x) as i32);
                                        if resolve.1 == 0 {
                                            assert(lit1@.len() == lit2@.len());
                                            assert(!lit1@.contains((-x) as i32)) by {
                                                if lit1@.contains((-x) as i32) {
                                                    let t = choose|t: int| 0 <= t < lit1@.len() && lit1@[t] == (-x) as i32;
                                                    assert(lit1@[t] as int == -(lit1@[p] as int));
                                                }
                                            }
                                            lemma_equal_rests(lit1@, lit2@, x);
                                        } else {
                                            assert((-lit2@[q]) as i32 == x);
                                        }
                                    }
                                }
                            }
                            if resolve.0 == i32::MIN {
                                return Err(Halt);
                            }
                            let var = lit_var(resolve.0);
                            proof {
                                assert(ci.variables@.contains(var));
                                assert(cjj.variables@.contains(var));
                            }
                            if resolve.1 == 0 {
                                let ghost d = deleted_clauses@;
                                push_index(deleted_clauses, j, Ghost(n as nat));
                                proof {
                                    lemma_grows_trans(old(deleted_clauses)@, d, deleted_clauses@);
                                    lemma_fresh_push(old(deleted_clauses)@, d, j);
                                }
                                if !double_unwatch(clauses, variables, j) {
                                    proof { if rdy { assert(clause_ready_but(cb[j as int], vb, -1)); } }
                                    return Err(Halt);
                                }
                                let ghost cm = clauses@;
                                let ghost vm = variables@;
                                let ghost dm = deleted_clauses@;
                                proof {
                                    if rdy {
                                        assert(deleted_clauses@[deleted_clauses@.len() - 1] == j);
                                        assert forall|k: usize| #[trigger] db.contains(k) implies deleted_clauses@.contains(k) by {
                                            let q = choose|q: int| 0 <= q < db.len() && db[q] == k;
                                            assert(deleted_clauses@[q] == db[q]);
                                        }
                                        lemma_ready_change(cb, db, vb, clauses@, deleted_clauses@, variables@, j as int);
                                        assert(cm[i as int] == ci);
                                        assert(clause_ready_but(ci, vm, -1));
                                        assert(clause_ready_but(ci, vm, var as int));
                                        lemma_ready_deletes(ci, vm, var);
                                    }
                                }
                                proof {
                                    if rdy {
                                        lemma_resolve_step(old(clauses)@, old(deleted_clauses)@, cb, db, vb, i as int, j as int, lit1@, lit2@, p1);
                                        assert(var == ci.variables@[p1]);
                                    }
                                }
                                let rd = delete_variable(clauses, variables, i, var);
                                let b = match rd { Ok(b) => b, Err(h) => { return Err(h); } };
                                if !b {
                                    return Ok(false);
                                }
                                proof {
                                    if rdy {
                                        assert(clause_ok(ci, vm.len()));
                                        lemma_ready_after_delete(ci, clauses@[i as int], vm, variables@, var);
                                        lemma_ready_change(cm, dm, vm, clauses@, deleted_clauses@, variables@, i as int);
                                        assert(cm == cb);
                                        assert forall|k: usize| #[trigger] db.contains(k) implies deleted_clauses@.contains(k) by {}
                                        assert(models_into(old(clauses)@, old(deleted_clauses)@, clauses@, deleted_clauses@, vb.len()));
                                    }
                                }
                                push_index(&mut changed_new, i, Ghost(n as nat));
                            } else if resolve.1 == 1 {
                                proof {
                                    if rdy {
                                        assert(clause_ready_but(cjj, vb, -1));
                                        assert(clause_ready_but(cjj, vb, var as int));
                                        lemma_ready_deletes(cjj, vb, var);
                                    }
                                }
                                proof {
                                    if rdy {
                                        assert((-lit1@[p1]) as i32 == lit2@[p2]);
                                        assert(lit1@.contains((-lit2@[p2]) as i32)) by {
                                            assert(lit1@[p1] == (-lit2@[p2]) as i32);
                                        }
                                        lemma_resolve_step(old(clauses)@, old(deleted_clauses)@, cb, db, vb, j as int, i as int, lit2@, lit1@, p2);
                                        assert(var == cjj.variables@[p2]);
                                    }
                                }
                                let rd = delete_variable(clauses, variables, j, var);
                                let b = match rd { Ok(b) => b, Err(h) => { return Err(h); } };
                                if !b {
                                    return Ok(false);
                                }
                                proof {
                                    if rdy {
                                        assert(clause_ok(cjj, vb.len()));
                                        lemma_ready_after_delete(cjj, clauses@[j as int], vb, variables@, var);
                                        lemma_ready_change(cb, db, vb, clauses@, deleted_clauses@, variables@, j as int);
                                        assert forall|k: usize| #[trigger] db.contains(k) implies deleted_clauses@.contains(k) by {}
                                        assert(models_into(old(clauses)@, old(deleted_clauses)@, clauses@, deleted_clauses@, vb.len()));
                                    }
                                }
                                push_index(&mut changed_new, j, Ghost(n as nat));
                            } else {
                                proof {
                                    if rdy {
                                        assert(clause_ready_but(ci, vb, -1));
                                        assert(clause_ready_but(ci, vb, var as int));
                                        lemma_ready_deletes(ci, vb, var);
                                    }
                                }
                                proof {
                                    if rdy {
                                        lemma_resolve_step(old(clauses)@, old(deleted_clauses)@, cb, db, vb, i as int, j as int, lit1@, lit2@, p1);
                                        assert(var == ci.variables@[p1]);
                                    }
                                }
                                let rd = delete_variable(clauses, variables, i, var);
                                let b = match rd { Ok(b) => b, Err(h) => { return Err(h); } };
                                if !b {
                                    return Ok(false);
                                }
                                proof {
                                    if rdy {
                                        assert(clause_ok(ci, vb.len()));
                                        lemma_ready_after_delete(ci, clauses@[i as int], vb, variables@, var);
                                        lemma_ready_change(cb, db, vb, clauses@, deleted_clauses@, variables@, i as int);
                                        assert forall|k: usize| #[trigger] db.contains(k) implies deleted_clauses@.contains(k) by {}
                                        assert(models_into(old(clauses)@, old(deleted_clauses)@, clauses@, deleted_clauses@, vb.len()));
                                    }
                                }
                                push_index(&mut changed_new, i, Ghost(n as nat));
                            }
                            break;
                        }
                        if lit1.len() == 2 && lit2.len() == 2 {
                            if contains_i32(&lit2, -lit1[0]) && contains_i32(&lit2, -lit1[1]) {
                                let old_var = lit_var(lit1[0]);
                                let new_var = lit_var(lit1[1]);
                                let keep = (lit1[0] < 0) != (lit1[1] < 0);
                                proof {
                                    assert(1 <= clauses@[i as int].variables@[0] < variables@.len());
                                    assert(1 <= clauses@[i as int].variables@[1] < variables@.len());
                                }
                                let ghost d = deleted_clauses@;
                                proof {
                                    if rdy {
                                        assert(clause_ready_but(cb[i as int], vb, -1));
                                        assert(cb[i as int].variables@[1] == new_var) by {
                                            lemma_literals_ok(cb[i as int], variables@.len(), lit1@);
                                        }
                                        assert(variables@[new_var as int].value == 2);
                                    }
                                }
                                let rr = replace_variable(clauses, variables, deleted_clauses, old_var, new_var, keep, &mut changed_new);
                                match rr { Ok(()) => {}, Err(h) => { return Err(h); } }
                                proof {
                                    if rdy {
                                        let ci = cb[i as int];
                                        let cjj = cb[j as int];
                                        assert(clause_ready_but(ci, vb, -1));
                                        assert(clause_ok(ci, vb.len()) && clause_ok(cjj, vb.len()));
                                        lemma_literals_ok(ci, vb.len(), lit1@);
                                        assert(ci.variables@[0] == old_var && ci.variables@[1] == new_var);
                                        assert(ci.variables@[0] != ci.variables@[1]);
                                        assert forall|m: Seq<bool>| m.len() == old(variables)@.len() && #[trigger] live_true(old(clauses)@, old(deleted_clauses)@, m)
                                            implies live_true(clauses@, deleted_clauses@, m) by {
                                            assert(live_true(cb, db, m));
                                            assert(clause_true(ci, m));
                                            assert(clause_true(cjj, m));
                                            lemma_equiv_models(ci, cjj, lit1@, lit2@, vb.len(), m, keep);
                                            lemma_replace_models(cb, db, clauses@, deleted_clauses@, vb, old_var, new_var, keep, m);
                                        }
                                    }
                                }
                                proof {
                                    lemma_grows_trans(old(deleted_clauses)@, d, deleted_clauses@);
                                    lemma_fresh_trans(old(deleted_clauses)@, d, deleted_clauses@);
                                }
                                let ghost rb = replacement_rules@;
                                replacement_rules.push((old_var, new_var, keep));
                                proof {
                                    if rdy {
                                        let ci = cb[i as int];
                                        let cjj = cb[j as int];
                                        assert forall|m: Seq<bool>| m.len() == old(variables)@.len() && #[trigger] live_true(old(clauses)@, old(deleted_clauses)@, m)
                                            implies rules_hold_from(m, replacement_rules@, old(replacement_rules)@.len() as int) by {
                                            assert(live_true(cb, db, m));
                                            assert(clause_true(ci, m));
                                            assert(clause_true(cjj, m));
                                            lemma_literals_ok(ci, vb.len(), lit1@);
                                            lemma_equiv_models(ci, cjj, lit1@, lit2@, vb.len(), m, keep);
                                            assert(rules_hold_from(m, rb, old(replacement_rules)@.len() as int));
                                            assert forall|k: int| old(replacement_rules)@.len() <= k < replacement_rules@.len()
                                                implies #[trigger] rule_holds(m, replacement_rules@[k]) by {
                                                if k < rb.len() { assert(replacement_rules@[k] == rb[k]); }
                                            }
                                        }
                                    }
                                    assert(replacement_rules@.take(old(replacement_rules)@.len() as int) =~= rb.take(old(replacement_rules)@.len() as int));
                                }
                                break;
                            }
                        }
                    }
                    j += 1;
                }
            }
            changed_old_i += 1;
        }
    }
    Ok(true)
}

} // verus!
