//! Propagation, conflict analysis, clause learning and backjumping.
use vstd::prelude::*;
use crate::cdcl::types::{Clause, Variable, Halt, db_ok, clause_ok, variable_ok, copy_clause, get_resolvent,
    resolvent_of, lemma_fold_lits, contains_usize};
use crate::cdcl::watch::{values_kept, double_watch, switch_watch, watch_list_replaced, watch_list};
use crate::cdcl::types::{sign_value, sign_of};
use crate::cdcl::heuristics::{pq_ok, indices_ok, trail_ok, update_r, bump_fits, clause_occ, lemma_bump_fits_frame, only_activity_changed, unassign_trail,
    trail_has_var, only_values_changed};
use crate::cdcl::literals::intersection;
use crate::cdcl::preprocess::{preprocessing2, grows};

verus! {

/// Queue entries name real variables of the table.
pub open spec fn queue_ok(q: Seq<(usize, bool, bool, usize)>, nvars: nat) -> bool {
    forall|k: int| 0 <= k < q.len() ==> 1 <= (#[trigger] q[k]).0 < nvars
}

/// The well-formedness of the whole search state.
pub open spec fn search_ok(
    clauses: Seq<Clause>,
    variables: Seq<Variable>,
    queue: Seq<(usize, bool, bool, usize)>,
    stack: Seq<(usize, usize, bool, usize)>,
    deleted: Seq<usize>,
    pq: Seq<(usize, usize, bool)>,
) -> bool {
    &&& db_ok(clauses, variables)
    &&& queue_ok(queue, variables.len())
    &&& trail_ok(stack, variables.len())
    &&& indices_ok(deleted, clauses.len())
    &&& pq_ok(pq, variables.len())
}

/// Stores a learned copy of `new_clause`: in the slot of the most recently
/// deleted clause when there is one (taking it off the deleted list), else
/// at the end. The clause then watches `var1` and `var2` (when it has more
/// than one literal) and bumps the activity of its literals. Returns its
/// index; `Err` when the clause does not hold the variables it is to watch,
/// or an activity counter would overflow.
pub fn clause_learning(
    clauses: &mut Vec<Clause>,
    deleted_clauses: &mut Vec<usize>,
    variables: &mut Vec<Variable>,
    new_clause: &Clause,
    var1: usize,
    var2: usize,
) -> (res: Result<usize, Halt>)
    requires
        db_ok(old(clauses)@, old(variables)@),
        indices_ok(old(deleted_clauses)@, old(clauses)@.len()),
        clause_ok(*new_clause, old(variables)@.len()),
    ensures
        res is Err <==> !(new_clause.variables@.len() <= 1 || (new_clause.variables@.contains(var1) && new_clause.variables@.contains(var2)))
            || !bump_fits(old(variables)@, *new_clause),
        res matches Ok(nci) ==> {
            &&& db_ok(final(clauses)@, final(variables)@)
            &&& values_kept(old(variables)@, final(variables)@)
            &&& indices_ok(final(deleted_clauses)@, final(clauses)@.len())
            &&& (old(deleted_clauses)@.len() > 0 ==> nci == old(deleted_clauses)@.last()
                && final(deleted_clauses)@ == old(deleted_clauses)@.drop_last()
                && final(clauses)@.len() == old(clauses)@.len())
            &&& (old(deleted_clauses)@.len() == 0 ==> nci == old(clauses)@.len()
                && final(deleted_clauses)@ == old(deleted_clauses)@
                && final(clauses)@.len() == old(clauses)@.len() + 1)
            &&& final(clauses)@[nci as int].variables@ == new_clause.variables@
            &&& final(clauses)@[nci as int].signs@ == new_clause.signs@
            &&& final(clauses)@[nci as int].learned
            &&& new_clause.variables@.len() > 1 ==> final(clauses)@[nci as int].watched@ == seq![var1, var2]
            &&& forall|i: int| 0 <= i < old(clauses)@.len() && i != nci ==> #[trigger] final(clauses)@[i] == old(clauses)@[i]
        },
{
    let mut copy = copy_clause(new_clause);
    copy.learned = true;
    let nci: usize;
    if deleted_clauses.len() > 0 {
        nci = deleted_clauses.pop().unwrap();
        proof { assert(old(deleted_clauses)@[old(deleted_clauses)@.len() - 1] < clauses@.len()); }
        clauses.set(nci, copy);
    } else {
        clauses.push(copy);
        nci = clauses.len() - 1;
    }
    proof {
        assert forall|i: int| 0 <= i < clauses@.len() implies clause_ok(#[trigger] clauses@[i], variables@.len()) by {
            if i != nci { assert(clause_ok(old(clauses)@[i], variables@.len())); }
        }
        assert forall|v: int| 0 <= v < variables@.len() implies variable_ok(#[trigger] variables@[v], clauses@.len()) by {
            assert(variable_ok(variables@[v], old(clauses)@.len()));
        }
        assert forall|k: int| 0 <= k < deleted_clauses@.len() implies #[trigger] deleted_clauses@[k] < clauses@.len() by {
            assert(deleted_clauses@[k] == old(deleted_clauses)@[k]);
        }
    }
    let ghost c1 = clauses@;
    let ghost v0 = variables@;
    proof {
        assert(c1[nci as int].variables@ == new_clause.variables@);
        assert(c1[nci as int].signs@ == new_clause.signs@);
    }
    if !double_watch(clauses, variables, nci, var1, var2) {
        return Err(Halt);
    }
    let ghost v1 = variables@;
    proof {
        assert forall|v: int| 0 <= v < v0.len() implies #[trigger] v1[v].r@ == v0[v].r@ by {
            if new_clause.variables@.len() > 1 {
                let mid = choose|mid: Seq<Variable>|
                    watch_list_replaced(v0, mid, var1, sign_of(c1[nci as int], var1),
                        watch_list(v0[var1 as int], sign_of(c1[nci as int], var1)).push(nci))
                    && watch_list_replaced(mid, v1, var2, sign_of(c1[nci as int], var2),
                        watch_list(mid[var2 as int], sign_of(c1[nci as int], var2)).push(nci));
                assert(mid[v].r == v0[v].r);
                assert(v1[v].r == mid[v].r);
            }
        }
        assert forall|v: int| 0 <= v < v0.len() implies
            #[trigger] clause_occ(clauses@[nci as int], v as usize, true) == clause_occ(*new_clause, v as usize, true)
            && clause_occ(clauses@[nci as int], v as usize, false) == clause_occ(*new_clause, v as usize, false) by {
            assert(clauses@[nci as int].variables@ == new_clause.variables@);
            assert(clauses@[nci as int].signs@ == new_clause.signs@);
        }
        assert(bump_fits(v1, clauses@[nci as int]) == bump_fits(v0, *new_clause)) by {
            if bump_fits(v0, *new_clause) {
                assert forall|v: int| 0 <= v < v1.len() implies {
                    &&& (#[trigger] v1[v]).r@[0] + clause_occ(clauses@[nci as int], v as usize, true) <= usize::MAX
                    &&& v1[v].r@[1] + clause_occ(clauses@[nci as int], v as usize, false) <= usize::MAX
                } by {
                    assert(v1[v].r@ == v0[v].r@);
                }
            }
            if bump_fits(v1, clauses@[nci as int]) {
                assert forall|v: int| 0 <= v < v0.len() implies {
                    &&& (#[trigger] v0[v]).r@[0] + clause_occ(*new_clause, v as usize, true) <= usize::MAX
                    &&& v0[v].r@[1] + clause_occ(*new_clause, v as usize, false) <= usize::MAX
                } by {
                    assert(v1[v].r@ == v0[v].r@);
                }
            }
        }
    }
    if !update_r(clauses, variables, nci) {
        return Err(Halt);
    }
    proof {
        assert forall|v: int| 0 <= v < old(variables)@.len() implies (#[trigger] variables@[v]).value == old(variables)@[v].value by {
            assert(variables@[v].value == v1[v].value);
        }
    }
    Ok(nci)
}

/// The variables of the resolvent of two well-formed clauses are variables
/// of one of them.
pub proof fn lemma_resolvent_ok(c1: Clause, c2: Clause, pivot: usize, nvars: nat)
    requires
        clause_ok(c1, nvars),
        clause_ok(c2, nvars),
    ensures
        resolvent_of(c1, c2, pivot).0.len() == resolvent_of(c1, c2, pivot).1.len(),
        forall|k: int| 0 <= k < resolvent_of(c1, c2, pivot).0.len() ==> 1 <= #[trigger] resolvent_of(c1, c2, pivot).0[k] < nvars,
{
    let e = (Seq::<usize>::empty(), Seq::<bool>::empty());
    lemma_fold_lits(e, c1.variables@, c1.signs@, pivot, false, c1.variables@.len() as int);
    let first = crate::cdcl::types::fold_lits(e, c1.variables@, c1.signs@, pivot, false, c1.variables@.len() as int);
    lemma_fold_lits(first, c2.variables@, c2.signs@, pivot, true, c2.variables@.len() as int);
    let r = resolvent_of(c1, c2, pivot);
    assert forall|k: int| 0 <= k < r.0.len() implies 1 <= #[trigger] r.0[k] < nvars by {
        if first.0.contains(r.0[k]) {
            let q = choose|q: int| 0 <= q < first.0.len() && first.0[q] == r.0[k];
            assert(e.0.contains(first.0[q]) || c1.variables@.contains(first.0[q]));
            let p = choose|p: int| 0 <= p < c1.variables@.len() && c1.variables@[p] == first.0[q];
            assert(1 <= c1.variables@[p] < nvars);
        } else {
            let p = choose|p: int| 0 <= p < c2.variables@.len() && c2.variables@[p] == r.0[k];
            assert(1 <= c2.variables@[p] < nvars);
        }
    }
}

/// Backjumping fails where the trail holds fewer than two entries, where no
/// entry below its top has a variable of the resolvent, or where learning
/// the resolvent, watching the top's variable, fails (see [`clause_learning`]).
pub open spec fn backjump_fails(t: Seq<(usize, usize, bool, usize)>, resolvent: Clause, variables: Seq<Variable>) -> bool {
    ||| t.len() < 2
    ||| !exists|k: int| 0 <= k < t.len() - 1 && resolvent.variables@.contains(#[trigger] t[k].0)
    ||| !(resolvent.variables@.len() <= 1 || resolvent.variables@.contains(t.last().0))
    ||| !bump_fits(variables, *&resolvent)
}

/// Backjumping after conflict analysis: the top of the trail (the unique
/// implication point) is taken off and freed, and its opposite value is
/// returned. Below it, the last trail entry whose variable occurs in the
/// resolvent fixes the level to return to; every entry above that level is
/// taken off and freed. The resolvent is learned, watching the unique
/// implication point and that variable; its index is returned. `Err` as
/// [`backjump_fails`] says.
pub fn non_chronological_backtracking(
    clauses: &mut Vec<Clause>,
    deleted_clauses: &mut Vec<usize>,
    variables: &mut Vec<Variable>,
    resolvent: &Clause,
    backtracking_stack: &mut Vec<(usize, usize, bool, usize)>,
) -> (res: Result<(usize, bool, usize), Halt>)
    requires
        db_ok(old(clauses)@, old(variables)@),
        indices_ok(old(deleted_clauses)@, old(clauses)@.len()),
        clause_ok(*resolvent, old(variables)@.len()),
        trail_ok(old(backtracking_stack)@, old(variables)@.len()),
    ensures
        res is Err <==> backjump_fails(old(backtracking_stack)@, *resolvent, old(variables)@),
        res matches Ok((uip, val, nci)) ==> {
            let t = old(backtracking_stack)@;
            &&& db_ok(final(clauses)@, final(variables)@)
            &&& indices_ok(final(deleted_clauses)@, final(clauses)@.len())
            &&& final(clauses)@.len() >= old(clauses)@.len()
            &&& t.len() >= 2
            &&& uip == t.last().0
            &&& val == (old(variables)@[uip as int].value == 0)
            &&& 1 <= final(backtracking_stack)@.len() < t.len()
            &&& final(backtracking_stack)@ == t.take(final(backtracking_stack)@.len() as int)
            &&& final(variables)@.len() == old(variables)@.len()
            &&& forall|v: int| 0 <= v < old(variables)@.len() ==> (#[trigger] final(variables)@[v]).value ==
                (if trail_has_var(t, v, final(backtracking_stack)@.len() as int, t.len() as int) { 2 } else { old(variables)@[v].value })
            &&& final(clauses)@[nci as int].variables@ == resolvent.variables@
            &&& final(clauses)@[nci as int].signs@ == resolvent.signs@
            &&& final(clauses)@[nci as int].learned
        },
{
    let ghost t = backtracking_stack@;
    let top = match backtracking_stack.pop() {
        Some(e) => e,
        None => { return Err(Halt); }
    };
    let uip_index = top.0;
    let new_uip_value = variables[uip_index].value == 0;
    let ghost v0 = variables@;
    variables[uip_index].value = 2;
    proof {
        assert forall|v: int| 0 <= v < variables@.len() implies variable_ok(#[trigger] variables@[v], clauses@.len()) by {
            assert(variable_ok(v0[v], clauses@.len()));
        }
    }
    if backtracking_stack.len() == 0 {
        return Err(Halt);
    }
    proof {
        assert(backtracking_stack@ =~= t.take(t.len() - 1));
        assert forall|v: int| 0 <= v < v0.len() implies (#[trigger] variables@[v]).r@ == v0[v].r@ by {}
        lemma_bump_fits_frame(v0, variables@, *resolvent);
    }
    let mut i = backtracking_stack.len() - 1;
    while !contains_usize(&resolvent.variables, backtracking_stack[i].0)
        invariant
            i < backtracking_stack@.len(),
            backtracking_stack@ == t.take(t.len() - 1),
            t == old(backtracking_stack)@,
            t.len() >= 2,
            forall|k: int| i < k < t.len() - 1 ==> !resolvent.variables@.contains(#[trigger] t[k].0),
        decreases i,
    {
        if i == 0 {
            proof {
                assert forall|k: int| 0 <= k < t.len() - 1 implies !resolvent.variables@.contains(#[trigger] t[k].0) by {
                    if k == 0 { assert(t[0] == backtracking_stack@[0]); }
                }
            }
            return Err(Halt);
        }
        i -= 1;
    }
    proof {
        assert(t[i as int] == backtracking_stack@[i as int]);
        assert(resolvent.variables@.contains(t[i as int].0));
    }
    let level = backtracking_stack[i].1;
    let ghost t1 = backtracking_stack@;
    let ghost va = variables@;
    while backtracking_stack[backtracking_stack.len() - 1].1 > level
        invariant
            i < backtracking_stack@.len(),
            backtracking_stack@.len() <= t1.len(),
            backtracking_stack@ == t1.take(backtracking_stack@.len() as int),
            t1[i as int].1 == level,
            trail_ok(t1, va.len()),
            db_ok(clauses@, variables@),
            only_values_changed(va, variables@),
            forall|v: int| 0 <= v < va.len() ==> (#[trigger] variables@[v]).value ==
                (if trail_has_var(t1, v, backtracking_stack@.len() as int, t1.len() as int) { 2 } else { va[v].value }),
        decreases backtracking_stack@.len(),
    {
        let ghost n = backtracking_stack@.len() as int;
        let e = backtracking_stack.pop().unwrap();
        let ghost before = variables@;
        proof { assert(e == t1[n - 1]); }
        variables[e.0].value = 2;
        proof {
            assert(backtracking_stack@ =~= t1.take(n - 1));
            assert forall|v: int| 0 <= v < variables@.len() implies variable_ok(#[trigger] variables@[v], clauses@.len()) by {
                assert(variable_ok(before[v], clauses@.len()));
            }
            assert forall|v: int| 0 <= v < va.len() implies (#[trigger] variables@[v]).value ==
                (if trail_has_var(t1, v, n - 1, t1.len() as int) { 2 } else { va[v].value }) by {
                if v == e.0 {
                    assert(t1[n - 1].0 == v);
                } else {
                    assert(variables@[v] == before[v]);
                    if trail_has_var(t1, v, n - 1, t1.len() as int) {
                        let k = choose|k: int| n - 1 <= k < t1.len() && 0 <= k < t1.len() && (#[trigger] t1[k]).0 == v;
                        assert(trail_has_var(t1, v, n, t1.len() as int));
                    }
                }
            }
        }
    }
    let second = backtracking_stack[i].0;
    let ghost vb = variables@;
    proof {
        assert(second == t[i as int].0);
        assert(uip_index == t.last().0);
        assert forall|v: int| 0 <= v < v0.len() implies (#[trigger] vb[v]).r@ == v0[v].r@ by {
            assert(vb[v].r == va[v].r);
        }
        lemma_bump_fits_frame(old(variables)@, vb, *resolvent);
    }
    let nci = clause_learning(clauses, deleted_clauses, variables, resolvent, uip_index, second)?;
    proof {
        let m = backtracking_stack@.len() as int;
        assert(t1 =~= t.take(t.len() - 1));
        assert(backtracking_stack@ =~= t.take(m));
        assert forall|v: int| 0 <= v < old(variables)@.len() implies (#[trigger] variables@[v]).value ==
            (if trail_has_var(t, v, m, t.len() as int) { 2 } else { old(variables)@[v].value }) by {
            assert(variables@[v].value == vb[v].value);
            if v == uip_index {
                assert(t[t.len() - 1].0 == v);
            } else {
                assert(va[v].value == old(variables)@[v].value);
                if trail_has_var(t, v, m, t.len() as int) {
                    let k = choose|k: int| m <= k < t.len() && 0 <= k < t.len() && (#[trigger] t[k]).0 == v;
                    if k < t.len() - 1 {
                        assert(t1[k] == t[k]);
                        assert(trail_has_var(t1, v, m, t1.len() as int));
                    }
                }
                if trail_has_var(t1, v, m, t1.len() as int) {
                    let k = choose|k: int| m <= k < t1.len() && 0 <= k < t1.len() && (#[trigger] t1[k]).0 == v;
                    assert(t[k] == t1[k]);
                }
            }
        }
    }
    Ok((uip_index, new_uip_value, nci))
}

/// `new` is a prefix of `old` (the trail only shrinks).
pub open spec fn trail_prefix(old: Seq<(usize, usize, bool, usize)>, new: Seq<(usize, usize, bool, usize)>) -> bool {
    new.len() <= old.len() && new == old.take(new.len() as int)
}

/// Conflict analysis for a conflict in clause `clause_index`. The queue is
/// emptied. At decision level one, the negation of the first decision is
/// learned as a unit clause, the whole trail is freed and unit propagation
/// runs at level zero. Otherwise the variables of the current level below
/// the top of the trail are collected, and while the resolvent (starting as
/// a copy of the conflict clause) shares a variable with them, the top of
/// the trail is taken off, freed and resolved away with its reason clause.
/// A unit resolvent is learned with the sign opposite to its variable's
/// value, the trail is freed and unit propagation runs at level zero; a
/// longer one is learned by backjumping, and its unique implication point is
/// queued, forced, with the opposite value. `Ok(false)` when unit
/// propagation finds the formula unsatisfiable.
pub fn resolve_conflict(
    clauses: &mut Vec<Clause>,
    variables: &mut Vec<Variable>,
    queue: &mut Vec<(usize, bool, bool, usize)>,
    backtracking_stack: &mut Vec<(usize, usize, bool, usize)>,
    deleted_clauses: &mut Vec<usize>,
    cur_depth: &mut usize,
    clause_index: usize,
    priority_queue: &mut Vec<(usize, usize, bool)>,
) -> (res: Result<bool, Halt>)
    requires
        search_ok(old(clauses)@, old(variables)@, old(queue)@, old(backtracking_stack)@, old(deleted_clauses)@, old(priority_queue)@),
    ensures
        res is Ok ==> {
            &&& search_ok(final(clauses)@, final(variables)@, final(queue)@, final(backtracking_stack)@, final(deleted_clauses)@, final(priority_queue)@)
            &&& final(clauses)@.len() >= old(clauses)@.len()
            &&& final(variables)@.len() == old(variables)@.len()
            &&& trail_prefix(old(backtracking_stack)@, final(backtracking_stack)@)
            &&& final(queue)@.len() <= 1
            &&& final(queue)@.len() == 1 ==> res == Ok::<bool, Halt>(true) && final(queue)@[0].2
            &&& final(backtracking_stack)@.len() == 0 ==> *final(cur_depth) == 0
        },
{
    queue.clear();
    let n = backtracking_stack.len();
    if n == 0 {
        return Err(Halt);
    }
    if backtracking_stack[n - 1].1 == 1 {
        let first_var = backtracking_stack[0].0;
        let mut uv: Vec<usize> = Vec::new();
        uv.push(first_var);
        let mut us: Vec<bool> = Vec::new();
        us.push(variables[first_var].value == 0);
        let unit = Clause { variables: uv, signs: us, watched: [0, 0], learned: false };
        clause_learning(clauses, deleted_clauses, variables, &unit, 0, 0)?;
        proof {
            assert forall|k: int| 0 <= k < backtracking_stack@.len() implies 1 <= (#[trigger] backtracking_stack@[k]).0 < variables@.len() by {
                assert(old(backtracking_stack)@[k] == backtracking_stack@[k]);
            }
        }
        let ghost vb = variables@;
        unassign_trail(variables, backtracking_stack);
        proof { lemma_only_values_keep_db(clauses@, vb, variables@); }
        *cur_depth = 0;
        let r = preprocessing2(clauses, deleted_clauses, variables, priority_queue);
        proof { assert(backtracking_stack@ =~= old(backtracking_stack)@.take(0)); }
        return r;
    }
    if n < 2 {
        return Err(Halt);
    }
    let mut max_depth_var: Vec<usize> = Vec::new();
    let mut index = n - 2;
    while backtracking_stack[index].1 == *cur_depth
        invariant
            index < backtracking_stack@.len(),
        decreases index,
    {
        max_depth_var.push(backtracking_stack[index].0);
        if index == 0 {
            return Err(Halt);
        }
        index -= 1;
    }
    let mut reversed: Vec<usize> = Vec::new();
    let mut k = max_depth_var.len();
    while k > 0
        invariant
            k <= max_depth_var@.len(),
        decreases k,
    {
        k -= 1;
        reversed.push(max_depth_var[k]);
    }
    let mut max_depth_var = reversed;
    if clause_index >= clauses.len() {
        return Err(Halt);
    }
    proof { assert(clause_ok(clauses@[clause_index as int], variables@.len())); }
    let mut resolvent = copy_clause(&clauses[clause_index]);
    let ghost t = backtracking_stack@;
    proof { assert(t.take(t.len() as int) =~= t); }
    while intersection(&max_depth_var, &resolvent.variables)
        invariant
            db_ok(clauses@, variables@),
            clauses@ == old(clauses)@,
            variables@.len() == old(variables)@.len(),
            clause_ok(resolvent, variables@.len()),
            trail_ok(t, variables@.len()),
            trail_prefix(t, backtracking_stack@),
        decreases backtracking_stack@.len(),
    {
        let ghost m = backtracking_stack@.len() as int;
        let tup = match backtracking_stack.pop() {
            Some(e) => e,
            None => { return Err(Halt); }
        };
        proof { assert(tup == t[m - 1]); assert(backtracking_stack@ =~= t.take(m - 1)); }
        let var_index = tup.0;
        let last_reason = tup.3;
        if last_reason >= clauses.len() {
            return Err(Halt);
        }
        proof {
            assert(clause_ok(clauses@[last_reason as int], variables@.len()));
            lemma_resolvent_ok(resolvent, clauses@[last_reason as int], var_index, variables@.len() as nat);
        }
        resolvent = get_resolvent(&resolvent, &clauses[last_reason], var_index);
        max_depth_var.pop();
        let ghost vb = variables@;
        variables[var_index].value = 2;
        proof {
            assert forall|v: int| 0 <= v < variables@.len() implies variable_ok(#[trigger] variables@[v], clauses@.len()) by {
                assert(variable_ok(vb[v], clauses@.len()));
            }
        }
    }
    proof {
        assert forall|q: int| 0 <= q < backtracking_stack@.len() implies 1 <= (#[trigger] backtracking_stack@[q]).0 < variables@.len() by {
            assert(t[q] == backtracking_stack@[q]);
        }
        assert(trail_prefix(old(backtracking_stack)@, backtracking_stack@));
    }
    if resolvent.variables.len() == 1 {
        let v0 = resolvent.variables[0];
        let mut us: Vec<bool> = Vec::new();
        us.push(variables[v0].value == 0);
        resolvent.signs = us;
        clause_learning(clauses, deleted_clauses, variables, &resolvent, 0, 0)?;
        proof {
            assert forall|q: int| 0 <= q < backtracking_stack@.len() implies 1 <= (#[trigger] backtracking_stack@[q]).0 < variables@.len() by {
                assert(t[q] == backtracking_stack@[q]);
            }
        }
        let ghost vb = variables@;
        unassign_trail(variables, backtracking_stack);
        proof { lemma_only_values_keep_db(clauses@, vb, variables@); }
        *cur_depth = 0;
        let r = preprocessing2(clauses, deleted_clauses, variables, priority_queue);
        proof { assert(backtracking_stack@ =~= old(backtracking_stack)@.take(0)); }
        return r;
    }
    let ghost sb = backtracking_stack@;
    let (uip_index, new_uip_value, new_clause_index) =
        non_chronological_backtracking(clauses, deleted_clauses, variables, &resolvent, backtracking_stack)?;
    *cur_depth = backtracking_stack[backtracking_stack.len() - 1].1;
    queue.push((uip_index, new_uip_value, true, new_clause_index));
    proof {
        assert(backtracking_stack@ =~= old(backtracking_stack)@.take(backtracking_stack@.len() as int)) by {
            assert forall|q: int| 0 <= q < backtracking_stack@.len() implies backtracking_stack@[q] == old(backtracking_stack)@[q] by {
                assert(backtracking_stack@[q] == sb[q]);
            }
        }
        assert forall|q: int| 0 <= q < backtracking_stack@.len() implies 1 <= (#[trigger] backtracking_stack@[q]).0 < variables@.len() by {
            assert(backtracking_stack@[q] == old(backtracking_stack)@[q]);
        }
        assert(1 <= sb.last().0 < variables@.len()) by { assert(sb[sb.len() - 1] == sb.last()); }
        assert forall|q: int| 0 <= q < priority_queue@.len() implies 1 <= (#[trigger] priority_queue@[q]).1 < variables@.len() by {
            assert(priority_queue@[q] == old(priority_queue)@[q]);
        }
    }
    Ok(true)
}

/// Assigns the variable at the end of the queue (taking the entry off).
/// A free variable takes the value, joins the trail at the current level with
/// its forced flag and reason, and every clause watching its now false
/// literal is visited: a satisfied clause is left alone; a clause with a
/// free variable it does not watch moves its watch there; a clause whose
/// only free variable is its other watch queues that variable as a forced
/// unit with this clause as reason; a clause with no free variable is a
/// conflict, counted and handed to [`resolve_conflict`]. An already assigned
/// variable with the other value is a conflict on the queued reason.
pub fn set_value(
    clauses: &mut Vec<Clause>,
    variables: &mut Vec<Variable>,
    queue: &mut Vec<(usize, bool, bool, usize)>,
    backtracking_stack: &mut Vec<(usize, usize, bool, usize)>,
    deleted_clauses: &mut Vec<usize>,
    cur_depth: &mut usize,
    priority_queue: &mut Vec<(usize, usize, bool)>,
    conflicts_count: &mut usize,
) -> (res: Result<bool, Halt>)
    requires
        search_ok(old(clauses)@, old(variables)@, old(queue)@, old(backtracking_stack)@, old(deleted_clauses)@, old(priority_queue)@),
        old(queue)@.len() > 0,
    ensures
        res is Ok ==> {
            let e = old(queue)@.last();
            let q = old(queue)@.len() - 1;
            &&& search_ok(final(clauses)@, final(variables)@, final(queue)@, final(backtracking_stack)@, final(deleted_clauses)@, final(priority_queue)@)
            &&& final(clauses)@.len() >= old(clauses)@.len()
            &&& final(variables)@.len() == old(variables)@.len()
            &&& *final(conflicts_count) == *old(conflicts_count) || *final(conflicts_count) == *old(conflicts_count) + 1
            &&& *final(conflicts_count) == *old(conflicts_count) ==> {
                &&& res == Ok::<bool, Halt>(true)
                &&& final(clauses)@.len() == old(clauses)@.len()
                &&& *final(cur_depth) == *old(cur_depth)
                &&& final(deleted_clauses)@ == old(deleted_clauses)@
                &&& final(priority_queue)@ == old(priority_queue)@
                &&& final(queue)@.len() >= q
                &&& final(queue)@.take(q) == old(queue)@.take(q)
                &&& forall|k: int| q <= k < final(queue)@.len() ==> (#[trigger] final(queue)@[k]).2
                &&& forall|u: int| 0 <= u < old(variables)@.len() && u != e.0 ==> (#[trigger] final(variables)@[u]).value == old(variables)@[u].value
                &&& final(variables)@[e.0 as int].value == (if old(variables)@[e.0 as int].value == 2 { sign_value(e.1) } else { old(variables)@[e.0 as int].value })
                &&& final(backtracking_stack)@ == (if old(variables)@[e.0 as int].value == 2 {
                        old(backtracking_stack)@.push((e.0, *old(cur_depth), e.2, e.3))
                    } else {
                        old(backtracking_stack)@
                    })
            }
        },
{
    let tup = queue.pop().unwrap();
    let variable_index = tup.0;
    let value = tup.1;
    let forced = tup.2;
    let reason = tup.3;
    let target: usize = if value { 1 } else { 0 };
    proof {
        assert(old(queue)@[old(queue)@.len() - 1] == tup);
        assert(queue@ =~= old(queue)@.take(old(queue)@.len() - 1));
        assert(1 <= variable_index < variables@.len());
    }
    if variables[variable_index].value == 2 {
        let ghost v0 = variables@;
        variables[variable_index].value = target;
        backtracking_stack.push((variable_index, *cur_depth, forced, reason));
        proof {
            assert forall|v: int| 0 <= v < variables@.len() implies variable_ok(#[trigger] variables@[v], clauses@.len()) by {
                assert(variable_ok(v0[v], clauses@.len()));
            }
        }
        let ghost va = variables@;
        let ghost q0 = queue@;
        proof {
            assert forall|u: int| 0 <= u < va.len() && u != variable_index implies (#[trigger] va[u]).value == old(variables)@[u].value by {
                assert(va[u] == v0[u]);
            }
        }
        let mut range: usize = if value {
            variables[variable_index].neg_watched_occ.len()
        } else {
            variables[variable_index].pos_watched_occ.len()
        };
        let mut i: usize = 0;
        while i < range
            invariant
                db_ok(clauses@, variables@),
                clauses@.len() == old(clauses)@.len(),
                variables@.len() == old(variables)@.len(),
                1 <= variable_index < variables@.len(),
                va.len() == variables@.len(),
                forall|u: int| 0 <= u < va.len() ==> (#[trigger] variables@[u]).value == va[u].value,
                va[variable_index as int].value == target,
                forall|u: int| 0 <= u < va.len() && u != variable_index ==> (#[trigger] va[u]).value == old(variables)@[u].value,
                target == sign_value(value),
                queue@.len() >= q0.len(),
                queue@.take(q0.len() as int) == q0,
                queue_ok(queue@, variables@.len()),
                forall|k: int| q0.len() <= k < queue@.len() ==> (#[trigger] queue@[k]).2,
                *conflicts_count == *old(conflicts_count),
                backtracking_stack@ == old(backtracking_stack)@.push((variable_index, *old(cur_depth), forced, reason)),
                *cur_depth == *old(cur_depth),
                deleted_clauses@ == old(deleted_clauses)@,
                priority_queue@ == old(priority_queue)@,
                indices_ok(old(deleted_clauses)@, old(clauses)@.len()),
                pq_ok(old(priority_queue)@, old(variables)@.len()),
                trail_ok(old(backtracking_stack)@, old(variables)@.len()),
                i <= range,
            decreases range - i,
        {
            let list_len = if value {
                variables[variable_index].neg_watched_occ.len()
            } else {
                variables[variable_index].pos_watched_occ.len()
            };
            if i >= list_len {
                return Err(Halt);
            }
            let clause_index = if value {
                variables[variable_index].neg_watched_occ[i]
            } else {
                variables[variable_index].pos_watched_occ[i]
            };
            proof { assert(variable_ok(variables@[variable_index as int], clauses@.len())); }
            i += 1;
            let mut conflict = true;
            let mut sat = false;
            let mut new_watched: usize = 0;
            let mut unit_var: usize = 0;
            let mut unit_sign = true;
            let w0 = clauses[clause_index].watched[0];
            let w1 = clauses[clause_index].watched[1];
            proof { assert(clause_ok(clauses@[clause_index as int], variables@.len())); }
            let mut j: usize = 0;
            proof { assert(variables@[variable_index as int].value == va[variable_index as int].value); }
            while j < clauses[clause_index].variables.len()
                invariant
                    clause_index < clauses@.len(),
                    clause_ok(clauses@[clause_index as int], variables@.len()),
                    j <= clauses@[clause_index as int].variables@.len(),
                    variables@[variable_index as int].value == target,
                    target <= 1,
                    new_watched < variables@.len(),
                    unit_var < variables@.len(),
                    !conflict ==> new_watched >= 1 || unit_var >= 1,
                decreases clauses@[clause_index as int].variables@.len() - j,
            {
                let other = clauses[clause_index].variables[j];
                let want: usize = if clauses[clause_index].signs[j] { 1 } else { 0 };
                if variables[other].value == want {
                    sat = true;
                    break;
                } else if variables[other].value == 2 {
                    conflict = false;
                    if other != w0 && other != w1 {
                        new_watched = other;
                    } else if other != variable_index {
                        unit_var = other;
                        unit_sign = clauses[clause_index].signs[j];
                    }
                }
                j += 1;
            }
            if !sat {
                if conflict {
                    if *conflicts_count == usize::MAX {
                        return Err(Halt);
                    }
                    *conflicts_count += 1;
                    proof {
                        assert forall|k: int| 0 <= k < backtracking_stack@.len() implies 1 <= (#[trigger] backtracking_stack@[k]).0 < variables@.len() by {
                            if k < old(backtracking_stack)@.len() {
                                assert(backtracking_stack@[k] == old(backtracking_stack)@[k]);
                            } else {
                                assert(backtracking_stack@[k].0 == variable_index);
                            }
                        }
                    }
                    return resolve_conflict(clauses, variables, queue, backtracking_stack, deleted_clauses, cur_depth, clause_index, priority_queue);
                } else if new_watched != 0 {
                    let ghost vb = variables@;
                    if !switch_watch(clauses, variables, clause_index, variable_index, new_watched) {
                        return Err(Halt);
                    }
                    range -= 1;
                    i -= 1;
                } else {
                    let ghost qb = queue@;
                    queue.push((unit_var, unit_sign, true, clause_index));
                    proof {
                        assert(queue@.take(q0.len() as int) =~= qb.take(q0.len() as int));
                    }
                }
            }
        }
        proof {
            assert forall|u: int| 0 <= u < old(variables)@.len() && u != variable_index implies (#[trigger] variables@[u]).value == old(variables)@[u].value by {
                assert(variables@[u].value == va[u].value);
            }
            assert(variables@[variable_index as int].value == va[variable_index as int].value);
            assert forall|k: int| 0 <= k < backtracking_stack@.len() implies 1 <= (#[trigger] backtracking_stack@[k]).0 < variables@.len() by {
                if k < old(backtracking_stack)@.len() {
                    assert(backtracking_stack@[k] == old(backtracking_stack)@[k]);
                } else {
                    assert(backtracking_stack@[k].0 == variable_index);
                }
            }
            assert(q0 =~= old(queue)@.take(old(queue)@.len() - 1));
        }
    } else if variables[variable_index].value != target {
        if *conflicts_count == usize::MAX {
            return Err(Halt);
        }
        *conflicts_count += 1;
        return resolve_conflict(clauses, variables, queue, backtracking_stack, deleted_clauses, cur_depth, reason, priority_queue);
    } else {
        proof {
            assert(queue@.take(queue@.len() as int) =~= queue@);
        }
    }
    Ok(true)
}

/// Changing only values keeps a database well formed.
pub proof fn lemma_only_values_keep_db(clauses: Seq<Clause>, old: Seq<Variable>, new: Seq<Variable>)
    requires
        db_ok(clauses, old),
        only_values_changed(old, new),
        forall|v: int| 0 <= v < old.len() ==> (#[trigger] new[v]).value <= 2,
    ensures
        db_ok(clauses, new),
{
    assert forall|v: int| 0 <= v < new.len() implies variable_ok(#[trigger] new[v], clauses.len()) by {
        assert(variable_ok(old[v], clauses.len()));
    }
    assert forall|i: int| 0 <= i < clauses.len() implies clause_ok(#[trigger] clauses[i], new.len()) by {
        assert(clause_ok(clauses[i], old.len()));
    }
}

} // verus!
