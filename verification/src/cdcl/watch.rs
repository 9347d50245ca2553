//! The two-watched-literal bookkeeping.
use vstd::prelude::*;
use crate::cdcl::types::{Clause, Variable, db_ok, clause_ok, variable_ok, sign_of, position_usize};

verus! {

/// The watch list of a variable for literals of the given sign.
pub open spec fn watch_list(v: Variable, sign: bool) -> Seq<usize> {
    if sign { v.pos_watched_occ@ } else { v.neg_watched_occ@ }
}

/// Does clause `c` watch variable `v` for literals of sign `s`: it has two
/// or more literals, `v` is one of its watched pair, and `v` first occurs in
/// it with sign `s`?
pub open spec fn watches_lit(c: Clause, v: int, s: bool) -> bool {
    &&& c.variables@.len() >= 2
    &&& (c.watched@[0] == v || c.watched@[1] == v)
    &&& sign_of(c, v as usize) == s
}

/// The indices below `k` of the clauses that watch `v` for sign `s`, in order.
pub open spec fn watchers(clauses: Seq<Clause>, v: int, s: bool, k: int) -> Seq<usize>
    decreases k,
{
    if k <= 0 {
        Seq::empty()
    } else {
        watchers(clauses, v, s, k - 1) + if watches_lit(clauses[k - 1], v, s) { seq![(k - 1) as usize] } else { Seq::empty() }
    }
}

/// Each variable's watch lists name exactly the clauses that watch it for
/// that sign, in index order.
pub open spec fn lists_mirror(clauses: Seq<Clause>, variables: Seq<Variable>) -> bool {
    forall|v: int, s: bool| 0 <= v < variables.len() ==>
        #[trigger] watch_list(variables[v], s) == watchers(clauses, v, s, clauses.len() as int)
}

/// The watchers below `k` depend on the first `k` clauses alone.
pub proof fn lemma_watchers_prefix(a: Seq<Clause>, b: Seq<Clause>, v: int, s: bool, k: int)
    requires
        0 <= k <= a.len(),
        k <= b.len(),
        forall|i: int| 0 <= i < k ==> #[trigger] a[i] == b[i],
    ensures
        watchers(a, v, s, k) == watchers(b, v, s, k),
    decreases k,
{
    if k > 0 {
        lemma_watchers_prefix(a, b, v, s, k - 1);
        assert(a[k - 1] == b[k - 1]);
    }
}

/// `new` is `old` with only the watch list of `var` for `sign` replaced by `list`.
pub open spec fn watch_list_replaced(old: Seq<Variable>, new: Seq<Variable>, var: usize, sign: bool, list: Seq<usize>) -> bool {
    &&& new.len() == old.len()
    &&& forall|u: int| 0 <= u < old.len() && u != var ==> #[trigger] new[u] == old[u]
    &&& new[var as int].value == old[var as int].value
    &&& new[var as int].r == old[var as int].r
    &&& watch_list(new[var as int], sign) == list
    &&& watch_list(new[var as int], !sign) == watch_list(old[var as int], !sign)
}

/// Adds clause `clause_index` to the watch list of `variable_index` for `sign`.
pub fn watch(variables: &mut Vec<Variable>, clause_index: usize, variable_index: usize, sign: bool)
    requires
        variable_index < old(variables)@.len(),
    ensures
        watch_list_replaced(old(variables)@, final(variables)@, variable_index, sign,
            watch_list(old(variables)@[variable_index as int], sign).push(clause_index)),
{
    if sign {
        variables[variable_index].pos_watched_occ.push(clause_index);
    } else {
        variables[variable_index].neg_watched_occ.push(clause_index);
    }
}

/// A watch list without the entries equal to `x`.
pub open spec fn without(s: Seq<usize>, x: usize) -> Seq<usize> {
    s.filter(|y: usize| y != x)
}

/// Removes every entry equal to `x`, keeping the order of the others.
pub fn retain_ne(list: &mut Vec<usize>, x: usize)
    ensures
        final(list)@ == without(old(list)@, x),
{
    let mut kept: Vec<usize> = Vec::new();
    let mut i: usize = 0;
    while i < list.len()
        invariant
            i <= list@.len(),
            list@ == old(list)@,
            kept@ == without(list@.take(i as int), x),
        decreases list@.len() - i,
    {
        proof {
            reveal(Seq::filter);
            assert(list@.take(i + 1).drop_last() == list@.take(i as int));
        }
        if list[i] != x {
            kept.push(list[i]);
        }
        i += 1;
    }
    assert(list@.take(list@.len() as int) == list@);
    *list = kept;
}

/// Every entry of `without(s, x)` is an entry of `s`.
pub proof fn lemma_without_subset(s: Seq<usize>, x: usize)
    ensures
        forall|k: int| 0 <= k < without(s, x).len() ==> s.contains(#[trigger] without(s, x)[k]),
        forall|k: int| 0 <= k < without(s, x).len() ==> #[trigger] without(s, x)[k] != x,
        without(s, x).len() <= s.len(),
        !s.contains(x) ==> without(s, x) == s,
    decreases s.len(),
{
    reveal(Seq::filter);
    if s.len() > 0 {
        lemma_without_subset(s.drop_last(), x);
        assert forall|k: int| 0 <= k < without(s, x).len() implies s.contains(#[trigger] without(s, x)[k]) by {
            if k < without(s.drop_last(), x).len() {
                let e = without(s.drop_last(), x)[k];
                assert(s.drop_last().contains(e));
                let q = choose|q: int| 0 <= q < s.drop_last().len() && s.drop_last()[q] == e;
                assert(s[q] == e);
            } else {
                assert(s[s.len() - 1] == s.last());
            }
        }
        if !s.contains(x) {
            assert forall|q: int| 0 <= q < s.drop_last().len() implies s.drop_last()[q] != x by {
                assert(s[q] == s.drop_last()[q]);
            }
            assert(s[s.len() - 1] != x);
        }
    }
}

/// `new` has the length and the values of `old`.
pub open spec fn values_kept(old: Seq<Variable>, new: Seq<Variable>) -> bool {
    &&& new.len() == old.len()
    &&& forall|v: int| 0 <= v < old.len() ==> (#[trigger] new[v]).value == old[v].value
}

/// Changing a watch list leaves every value as it was.
pub proof fn lemma_replaced_keeps_values(old: Seq<Variable>, new: Seq<Variable>, var: usize, sign: bool, list: Seq<usize>)
    requires
        watch_list_replaced(old, new, var, sign, list),
        var < old.len(),
    ensures
        forall|v: int| 0 <= v < old.len() ==> (#[trigger] new[v]).value == old[v].value,
{
    assert forall|v: int| 0 <= v < old.len() implies (#[trigger] new[v]).value == old[v].value by {
        if v != var { assert(new[v] == old[v]); }
    }
}

/// Removes clause `clause_index` from the watch list of `variable_index` for `sign`.
pub fn unwatch(variables: &mut Vec<Variable>, clause_index: usize, variable_index: usize, sign: bool)
    requires
        variable_index < old(variables)@.len(),
    ensures
        watch_list_replaced(old(variables)@, final(variables)@, variable_index, sign,
            without(watch_list(old(variables)@[variable_index as int], sign), clause_index)),
{
    if sign {
        retain_ne(&mut variables[variable_index].pos_watched_occ, clause_index);
    } else {
        retain_ne(&mut variables[variable_index].neg_watched_occ, clause_index);
    }
}

/// Replacing one watch list by a list of clause indices of the database keeps the
/// database well formed.
pub proof fn lemma_replaced_keeps_db_ok(clauses: Seq<Clause>, old: Seq<Variable>, new: Seq<Variable>, var: usize, sign: bool, list: Seq<usize>)
    requires
        db_ok(clauses, old),
        var < old.len(),
        watch_list_replaced(old, new, var, sign, list),
        forall|k: int| 0 <= k < list.len() ==> #[trigger] list[k] < clauses.len(),
    ensures
        db_ok(clauses, new),
{
    assert forall|v: int| 0 <= v < new.len() implies variable_ok(#[trigger] new[v], clauses.len()) by {
        if v != var {
            assert(new[v] == old[v]);
        } else {
            assert(variable_ok(old[v], clauses.len()));
        }
    }
}

/// `new` is `old` with only clause `ci` changed, and in it only the watched pair.
pub open spec fn only_watched_changed(old: Seq<Clause>, new: Seq<Clause>, ci: usize) -> bool {
    &&& new.len() == old.len()
    &&& forall|i: int| 0 <= i < old.len() && i != ci ==> #[trigger] new[i] == old[i]
    &&& new[ci as int].variables@ == old[ci as int].variables@
    &&& new[ci as int].signs@ == old[ci as int].signs@
    &&& new[ci as int].learned == old[ci as int].learned
}

/// Makes clause `ci` watch `var1` and `var2` (when it has more than one
/// literal), adding it to their watch lists for the signs with which they
/// first occur in it. Returns `false`, leaving the work unfinished, when one
/// of them does not occur in the clause.
pub fn double_watch(clauses: &mut Vec<Clause>, variables: &mut Vec<Variable>, clause_index: usize, var1: usize, var2: usize) -> (ok: bool)
    requires
        db_ok(old(clauses)@, old(variables)@),
        clause_index < old(clauses)@.len(),
    ensures
        ({
            let c = old(clauses)@[clause_index as int];
            &&& ok == (c.variables@.len() <= 1 || (c.variables@.contains(var1) && c.variables@.contains(var2)))
            &&& only_watched_changed(old(clauses)@, final(clauses)@, clause_index)
            &&& c.variables@.len() <= 1 ==> final(clauses)@ == old(clauses)@ && final(variables)@ == old(variables)@
            &&& c.variables@.len() > 1 ==> final(clauses)@[clause_index as int].watched@ == seq![var1, var2]
            &&& ok && c.variables@.len() > 1 ==> exists|mid: Seq<Variable>|
                watch_list_replaced(old(variables)@, mid, var1, sign_of(c, var1),
                    watch_list(old(variables)@[var1 as int], sign_of(c, var1)).push(clause_index))
                && watch_list_replaced(mid, final(variables)@, var2, sign_of(c, var2),
                    watch_list(mid[var2 as int], sign_of(c, var2)).push(clause_index))
            &&& ok ==> db_ok(final(clauses)@, final(variables)@)
            &&& values_kept(old(variables)@, final(variables)@)
        }),
{
    if clauses[clause_index].variables.len() > 1 {
        clauses[clause_index].watched[0] = var1;
        clauses[clause_index].watched[1] = var2;
        proof {
            assert(clause_ok(old(clauses)@[clause_index as int], variables@.len()));
            assert(clauses@[clause_index as int].watched@ =~= seq![var1, var2]);
            assert forall|i: int| 0 <= i < clauses@.len() implies clause_ok(#[trigger] clauses@[i], variables@.len()) by {
                assert(clause_ok(old(clauses)@[i], variables@.len()));
            }
        }
        let pos1 = match position_usize(&clauses[clause_index].variables, var1) {
            Some(p) => p,
            None => { return false; }
        };
        let pos2 = match position_usize(&clauses[clause_index].variables, var2) {
            Some(p) => p,
            None => { return false; }
        };
        let s1 = clauses[clause_index].signs[pos1];
        let s2 = clauses[clause_index].signs[pos2];
        let ghost v0 = variables@;
        watch(variables, clause_index, var1, s1);
        proof { lemma_replaced_keeps_values(v0, variables@, var1, s1, watch_list(v0[var1 as int], s1).push(clause_index)); }
        proof { lemma_replaced_keeps_db_ok(clauses@, v0, variables@, var1, s1, watch_list(v0[var1 as int], s1).push(clause_index)); }
        let ghost mid = variables@;
        watch(variables, clause_index, var2, s2);
        proof {
            lemma_replaced_keeps_values(mid, variables@, var2, s2, watch_list(mid[var2 as int], s2).push(clause_index));
            lemma_replaced_keeps_db_ok(clauses@, mid, variables@, var2, s2, watch_list(mid[var2 as int], s2).push(clause_index));
            let c = old(clauses)@[clause_index as int];
            assert(sign_of(c, var1) == s1);
            assert(sign_of(c, var2) == s2);
            assert(v0 == old(variables)@);
            assert(watch_list_replaced(v0, mid, var1, s1, watch_list(v0[var1 as int], s1).push(clause_index)));
            assert(watch_list_replaced(mid, variables@, var2, s2, watch_list(mid[var2 as int], s2).push(clause_index)));
        }
    }
    true
}

/// Removes clause `ci` from the watch lists of its two watched variables
/// (when it has more than one literal), for the signs with which they first
/// occur in it. Returns `false`, leaving the work unfinished, when a watched
/// variable does not occur in the clause.
pub fn double_unwatch(clauses: &Vec<Clause>, variables: &mut Vec<Variable>, clause_index: usize) -> (ok: bool)
    requires
        db_ok(clauses@, old(variables)@),
        clause_index < clauses@.len(),
    ensures
        ({
            let c = clauses@[clause_index as int];
            let w0 = c.watched@[0];
            let w1 = c.watched@[1];
            &&& ok == (c.variables@.len() <= 1 || (c.variables@.contains(w0) && c.variables@.contains(w1)))
            &&& c.variables@.len() <= 1 ==> final(variables)@ == old(variables)@
            &&& !ok ==> final(variables)@ == old(variables)@
            &&& ok && c.variables@.len() > 1 ==> exists|mid: Seq<Variable>|
                watch_list_replaced(old(variables)@, mid, w0, sign_of(c, w0),
                    without(watch_list(old(variables)@[w0 as int], sign_of(c, w0)), clause_index))
                && watch_list_replaced(mid, final(variables)@, w1, sign_of(c, w1),
                    without(watch_list(mid[w1 as int], sign_of(c, w1)), clause_index))
            &&& db_ok(clauses@, final(variables)@)
            &&& values_kept(old(variables)@, final(variables)@)
        }),
{
    if clauses[clause_index].variables.len() > 1 {
        let w0 = clauses[clause_index].watched[0];
        let w1 = clauses[clause_index].watched[1];
        let pos0 = match position_usize(&clauses[clause_index].variables, w0) {
            Some(p) => p,
            None => { return false; }
        };
        let pos1 = match position_usize(&clauses[clause_index].variables, w1) {
            Some(p) => p,
            None => { return false; }
        };
        proof { assert(clause_ok(clauses@[clause_index as int], variables@.len())); }
        let s0 = clauses[clause_index].signs[pos0];
        let s1 = clauses[clause_index].signs[pos1];
        let ghost v0 = variables@;
        proof { lemma_without_subset(watch_list(v0[w0 as int], s0), clause_index); }
        unwatch(variables, clause_index, w0, s0);
        proof {
            lemma_replaced_keeps_values(v0, variables@, w0, s0, without(watch_list(v0[w0 as int], s0), clause_index));
            assert(variable_ok(v0[w0 as int], clauses@.len()));
            lemma_replaced_keeps_db_ok(clauses@, v0, variables@, w0, s0, without(watch_list(v0[w0 as int], s0), clause_index));
        }
        let ghost mid = variables@;
        proof { lemma_without_subset(watch_list(mid[w1 as int], s1), clause_index); }
        unwatch(variables, clause_index, w1, s1);
        proof {
            lemma_replaced_keeps_values(mid, variables@, w1, s1, without(watch_list(mid[w1 as int], s1), clause_index));
            assert(variable_ok(mid[w1 as int], clauses@.len()));
            lemma_replaced_keeps_db_ok(clauses@, mid, variables@, w1, s1, without(watch_list(mid[w1 as int], s1), clause_index));
            let c = clauses@[clause_index as int];
            assert(sign_of(c, w0) == s0);
            assert(sign_of(c, w1) == s1);
            assert(watch_list_replaced(v0, mid, w0, s0, without(watch_list(v0[w0 as int], s0), clause_index)));
            assert(watch_list_replaced(mid, variables@, w1, s1, without(watch_list(mid[w1 as int], s1), clause_index)));
        }
    }
    true
}

/// Makes clause `ci` watch `new_watch` in place of `old_watch`: the slot that
/// held `old_watch` (the first one if both did) takes `new_watch`, the clause
/// leaves the watch list of `old_watch` and joins that of `new_watch`, each
/// for the sign with which the variable first occurs in it. Returns `false`,
/// changing nothing, when either variable does not occur in the clause.
pub fn switch_watch(clauses: &mut Vec<Clause>, variables: &mut Vec<Variable>, clause_index: usize, old_watch: usize, new_watch: usize) -> (ok: bool)
    requires
        db_ok(old(clauses)@, old(variables)@),
        clause_index < old(clauses)@.len(),
    ensures
        ({
            let c = old(clauses)@[clause_index as int];
            let w = c.watched@;
            &&& ok == (c.variables@.contains(old_watch) && c.variables@.contains(new_watch))
            &&& !ok ==> final(clauses)@ == old(clauses)@ && final(variables)@ == old(variables)@
            &&& only_watched_changed(old(clauses)@, final(clauses)@, clause_index)
            &&& ok ==> final(clauses)@[clause_index as int].watched@ ==
                (if w[0] == old_watch { seq![new_watch, w[1]] } else { seq![w[0], new_watch] })
            &&& ok ==> exists|mid: Seq<Variable>|
                watch_list_replaced(old(variables)@, mid, old_watch, sign_of(c, old_watch),
                    without(watch_list(old(variables)@[old_watch as int], sign_of(c, old_watch)), clause_index))
                && watch_list_replaced(mid, final(variables)@, new_watch, sign_of(c, new_watch),
                    watch_list(mid[new_watch as int], sign_of(c, new_watch)).push(clause_index))
            &&& db_ok(final(clauses)@, final(variables)@)
            &&& values_kept(old(variables)@, final(variables)@)
        }),
{
    let old_pos = match position_usize(&clauses[clause_index].variables, old_watch) {
        Some(p) => p,
        None => { return false; }
    };
    let new_pos = match position_usize(&clauses[clause_index].variables, new_watch) {
        Some(p) => p,
        None => { return false; }
    };
    proof { assert(clause_ok(old(clauses)@[clause_index as int], variables@.len())); }
    let old_sign = clauses[clause_index].signs[old_pos];
    let new_sign = clauses[clause_index].signs[new_pos];
    if clauses[clause_index].watched[0] == old_watch {
        clauses[clause_index].watched[0] = new_watch;
    } else {
        clauses[clause_index].watched[1] = new_watch;
    }
    proof {
        let w = old(clauses)@[clause_index as int].watched@;
        assert(clauses@[clause_index as int].watched@ =~=
            (if w[0] == old_watch { seq![new_watch, w[1]] } else { seq![w[0], new_watch] }));
        assert forall|i: int| 0 <= i < clauses@.len() implies clause_ok(#[trigger] clauses@[i], variables@.len()) by {
            assert(clause_ok(old(clauses)@[i], variables@.len()));
        }
        assert forall|v: int| 0 <= v < variables@.len() implies variable_ok(#[trigger] variables@[v], clauses@.len()) by {
            assert(variable_ok(old(variables)@[v], old(clauses)@.len()));
        }
    }
    let ghost v0 = variables@;
    proof { lemma_without_subset(watch_list(v0[old_watch as int], old_sign), clause_index); }
    unwatch(variables, clause_index, old_watch, old_sign);
    proof {
        lemma_replaced_keeps_values(v0, variables@, old_watch, old_sign, without(watch_list(v0[old_watch as int], old_sign), clause_index));
        assert(variable_ok(v0[old_watch as int], clauses@.len()));
        lemma_replaced_keeps_db_ok(clauses@, v0, variables@, old_watch, old_sign, without(watch_list(v0[old_watch as int], old_sign), clause_index));
    }
    let ghost mid = variables@;
    watch(variables, clause_index, new_watch, new_sign);
    proof {
        lemma_replaced_keeps_values(mid, variables@, new_watch, new_sign, watch_list(mid[new_watch as int], new_sign).push(clause_index));
        assert(variable_ok(mid[new_watch as int], clauses@.len()));
        lemma_replaced_keeps_db_ok(clauses@, mid, variables@, new_watch, new_sign, watch_list(mid[new_watch as int], new_sign).push(clause_index));
        let c = old(clauses)@[clause_index as int];
        assert(sign_of(c, old_watch) == old_sign);
        assert(sign_of(c, new_watch) == new_sign);
        assert(v0 == old(variables)@);
        assert(watch_list_replaced(v0, mid, old_watch, old_sign, without(watch_list(v0[old_watch as int], old_sign), clause_index)));
        assert(watch_list_replaced(mid, variables@, new_watch, new_sign, watch_list(mid[new_watch as int], new_sign).push(clause_index)));
    }
    true
}

} // verus!
