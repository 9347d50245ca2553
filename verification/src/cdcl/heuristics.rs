//! Decision order, activity counters, restarts and clause deletion.
use vstd::prelude::*;
use crate::sort::{sort_entries, sorted_entries};
use crate::cdcl::types::{Clause, Variable, db_ok, clause_ok, variable_ok, contains_usize};
use crate::cdcl::watch::{values_kept, double_unwatch};

verus! {

/// The Luby list after `m` doublings: `[1]`, then `l ++ l ++ [2 * last(l)]`.
pub open spec fn luby_list(m: nat) -> Seq<usize>
    decreases m,
{
    if m == 0 {
        seq![1usize]
    } else {
        let l = luby_list((m - 1) as nat);
        l + l + seq![(2 * l.last()) as usize]
    }
}

/// Length and largest value of a Luby list.
pub proof fn lemma_luby_list_shape(m: nat)
    requires
        m <= 30,
    ensures
        luby_list(m).len() == vstd::arithmetic::power2::pow2(m + 1) - 1,
        luby_list(m).last() == vstd::arithmetic::power2::pow2(m),
        forall|i: int| 0 <= i < luby_list(m).len() ==> 1 <= #[trigger] luby_list(m)[i] <= vstd::arithmetic::power2::pow2(m),
    decreases m,
{
    vstd::arithmetic::power2::lemma2_to64();
    vstd::arithmetic::power2::lemma2_to64_rest();
    if m > 0 {
        lemma_luby_list_shape((m - 1) as nat);
        vstd::arithmetic::power2::lemma_pow2_unfold(m);
        vstd::arithmetic::power2::lemma_pow2_unfold(m + 1);
        vstd::arithmetic::power2::lemma_pow2_strictly_increases((m - 1) as nat, m);
        if m < 30 {
            vstd::arithmetic::power2::lemma_pow2_strictly_increases(m, 30);
        }
        let l = luby_list((m - 1) as nat);
        assert(2 * l.last() == vstd::arithmetic::power2::pow2(m));
        assert(luby_list(m).last() == (2 * l.last()) as usize);
        assert forall|i: int| 0 <= i < luby_list(m).len() implies 1 <= #[trigger] luby_list(m)[i] <= vstd::arithmetic::power2::pow2(m) by {
            if i < l.len() {
                assert(luby_list(m)[i] == l[i]);
            } else if i < 2 * l.len() {
                assert(luby_list(m)[i] == l[i - l.len()]);
            }
        }
    }
}

/// Each Luby list begins with the previous one.
pub proof fn lemma_luby_list_prefix(m: nat, n: nat, i: int)
    requires
        m <= n,
        0 <= i < luby_list(m).len(),
    ensures
        i < luby_list(n).len(),
        luby_list(n)[i] == luby_list(m)[i],
    decreases n,
{
    if m < n {
        lemma_luby_list_prefix(m, (n - 1) as nat, i);
    }
}

/// The `k`-th Luby number: its value in any Luby list long enough to hold it.
pub open spec fn luby(k: nat) -> usize {
    let m = choose|m: nat| k < luby_list(m).len();
    luby_list(m)[k as int]
}

/// The restart counts whose Luby interval is computed: below this one `32`
/// times every entry of the list of Luby numbers fits in a 32-bit word.
pub open spec fn max_restarts() -> nat {
    0x400_0000
}

/// Sets the restart interval to `32` times the Luby number of the restart count.
pub fn set_restart_criterium(restart_criterium: &mut usize, restart_count: usize)
    requires
        restart_count < max_restarts(),
    ensures
        *final(restart_criterium) == 32 * luby(restart_count as nat),
{
    let mut list: Vec<usize> = Vec::new();
    list.push(1);
    let ghost mut m: nat = 0;
    proof {
        assert(list@ == luby_list(0));
        lemma_luby_list_shape(0);
        vstd::arithmetic::power2::lemma2_to64();
    }
    while list.len() <= restart_count
        invariant
            list@ == luby_list(m),
            m <= 26,
            restart_count < max_restarts(),
            m > 0 ==> luby_list((m - 1) as nat).len() <= restart_count,
        decreases 26 - m,
    {
        proof {
            lemma_luby_list_shape(m);
            vstd::arithmetic::power2::lemma2_to64();
            if m > 0 {
                lemma_luby_list_shape((m - 1) as nat);
                vstd::arithmetic::power2::lemma_pow2_unfold(m);
            }
            if m > 25 {
                vstd::arithmetic::power2::lemma_pow2_strictly_increases(25, m);
            }
            assert(m < 26);
        }
        let n = list.len();
        let ghost l = list@;
        let mut i: usize = 0;
        while i < n
            invariant
                n == l.len(),
                i <= n,
                list@ == l + l.take(i as int),
            decreases n - i,
        {
            let x = list[i];
            proof { assert(l.take(i + 1) == l.take(i as int).push(l[i as int])); }
            list.push(x);
            i += 1;
        }
        assert(l.take(n as int) == l);
        let last = list[list.len() - 1];
        assert(last == l.last());
        list.push(2 * last);
        proof {
            m = m + 1;
            assert(list@ =~= luby_list(m));
        }
    }
    proof {
        lemma_luby_list_shape(m);
        vstd::arithmetic::power2::lemma2_to64();
        if m < 26 {
            vstd::arithmetic::power2::lemma_pow2_strictly_increases(m, 26);
        }
        let mm = choose|mm: nat| (restart_count as nat) < luby_list(mm).len();
        if mm <= m {
            lemma_luby_list_prefix(mm, m, restart_count as int);
        } else {
            lemma_luby_list_prefix(m, mm, restart_count as int);
        }
        assert(1 <= list@[restart_count as int] <= vstd::arithmetic::power2::pow2(m));
    }
    *restart_criterium = 32 * list[restart_count];
}

/// How many times the literal `(v, s)` occurs among the first `n` literals.
pub open spec fn lit_occ(vars: Seq<usize>, signs: Seq<bool>, v: usize, s: bool, n: int) -> nat
    decreases n,
{
    if n <= 0 {
        0
    } else {
        lit_occ(vars, signs, v, s, n - 1) + (if vars[n - 1] == v && signs[n - 1] == s { 1nat } else { 0nat })
    }
}

/// How many times the literal `(v, s)` occurs in clause `c`.
pub open spec fn clause_occ(c: Clause, v: usize, s: bool) -> nat {
    lit_occ(c.variables@, c.signs@, v, s, c.variables@.len() as int)
}

/// `new` is `old` with only activity counters changed.
pub open spec fn only_activity_changed(old: Seq<Variable>, new: Seq<Variable>) -> bool {
    &&& new.len() == old.len()
    &&& forall|v: int| 0 <= v < old.len() ==> {
        &&& (#[trigger] new[v]).value == old[v].value
        &&& new[v].pos_watched_occ@ == old[v].pos_watched_occ@
        &&& new[v].neg_watched_occ@ == old[v].neg_watched_occ@
    }
}

/// Can every activity counter take the bumps of clause `c`?
pub open spec fn bump_fits(variables: Seq<Variable>, c: Clause) -> bool {
    forall|v: int| 0 <= v < variables.len() ==> {
        &&& (#[trigger] variables[v]).r@[0] + clause_occ(c, v as usize, true) <= usize::MAX
        &&& variables[v].r@[1] + clause_occ(c, v as usize, false) <= usize::MAX
    }
}

/// Whether the bumps fit depends on the activity counters alone.
pub proof fn lemma_bump_fits_frame(a: Seq<Variable>, b: Seq<Variable>, c: Clause)
    requires
        a.len() == b.len(),
        forall|v: int| 0 <= v < a.len() ==> (#[trigger] b[v]).r@ == a[v].r@,
    ensures
        bump_fits(a, c) == bump_fits(b, c),
{
    if bump_fits(a, c) {
        assert forall|v: int| 0 <= v < b.len() implies {
            &&& (#[trigger] b[v]).r@[0] + clause_occ(c, v as usize, true) <= usize::MAX
            &&& b[v].r@[1] + clause_occ(c, v as usize, false) <= usize::MAX
        } by {
            assert(b[v].r@ == a[v].r@);
        }
    }
    if bump_fits(b, c) {
        assert forall|v: int| 0 <= v < a.len() implies {
            &&& (#[trigger] a[v]).r@[0] + clause_occ(c, v as usize, true) <= usize::MAX
            &&& a[v].r@[1] + clause_occ(c, v as usize, false) <= usize::MAX
        } by {
            assert(b[v].r@ == a[v].r@);
        }
    }
}

/// Counting over a longer prefix counts no fewer.
pub proof fn lemma_lit_occ_mono(vars: Seq<usize>, signs: Seq<bool>, v: usize, s: bool, i: int, j: int)
    requires
        i <= j,
    ensures
        lit_occ(vars, signs, v, s, i) <= lit_occ(vars, signs, v, s, j),
    decreases j - i,
{
    if i < j {
        lemma_lit_occ_mono(vars, signs, v, s, i, j - 1);
    }
}

/// Bumps the activity of every literal of clause `ci`: `r[0]` of a variable
/// for each positive occurrence, `r[1]` for each negative one. Returns
/// `false`, with the work unfinished, exactly when a counter would overflow.
pub fn update_r(clauses: &Vec<Clause>, variables: &mut Vec<Variable>, clause_index: usize) -> (ok: bool)
    requires
        db_ok(clauses@, old(variables)@),
        clause_index < clauses@.len(),
    ensures
        only_activity_changed(old(variables)@, final(variables)@),
        db_ok(clauses@, final(variables)@),
        ok == bump_fits(old(variables)@, clauses@[clause_index as int]),
        ok ==> forall|v: int| 0 <= v < old(variables)@.len() ==> {
            &&& (#[trigger] final(variables)@[v]).r@[0] == old(variables)@[v].r@[0] + clause_occ(clauses@[clause_index as int], v as usize, true)
            &&& final(variables)@[v].r@[1] == old(variables)@[v].r@[1] + clause_occ(clauses@[clause_index as int], v as usize, false)
        },
{
    let ghost c = clauses@[clause_index as int];
    proof { assert(clause_ok(c, variables@.len())); }
    let n = clauses[clause_index].variables.len();
    let mut i: usize = 0;
    while i < n
        invariant
            clause_index < clauses@.len(),
            c == clauses@[clause_index as int],
            clause_ok(c, variables@.len()),
            n == c.variables@.len(),
            i <= n,
            db_ok(clauses@, variables@),
            only_activity_changed(old(variables)@, variables@),
            forall|v: int| 0 <= v < old(variables)@.len() ==> {
                &&& (#[trigger] variables@[v]).r@[0] == old(variables)@[v].r@[0] + lit_occ(c.variables@, c.signs@, v as usize, true, i as int)
                &&& variables@[v].r@[1] == old(variables)@[v].r@[1] + lit_occ(c.variables@, c.signs@, v as usize, false, i as int)
            },
        decreases n - i,
    {
        let v = clauses[clause_index].variables[i];
        let k: usize = if clauses[clause_index].signs[i] { 0 } else { 1 };
        if variables[v].r[k] == usize::MAX {
            proof {
                assert(variable_ok(variables@[v as int], clauses@.len()));
                lemma_lit_occ_mono(c.variables@, c.signs@, v, k == 0, i + 1, n as int);
                assert(c.variables@[i as int] == v);
                if k == 0 {
                    assert(lit_occ(c.variables@, c.signs@, v, true, i + 1) == lit_occ(c.variables@, c.signs@, v, true, i as int) + 1);
                    assert(old(variables)@[v as int].r@[0] + clause_occ(c, v, true) > usize::MAX);
                } else {
                    assert(lit_occ(c.variables@, c.signs@, v, false, i + 1) == lit_occ(c.variables@, c.signs@, v, false, i as int) + 1);
                    assert(old(variables)@[v as int].r@[1] + clause_occ(c, v, false) > usize::MAX);
                }
            }
            return false;
        }
        let ghost before = variables@;
        variables[v].r[k] = variables[v].r[k] + 1;
        proof {
            assert forall|u: int| 0 <= u < variables@.len() implies variable_ok(#[trigger] variables@[u], clauses@.len()) by {
                assert(variable_ok(before[u], clauses@.len()));
            }
            assert forall|u: int| 0 <= u < old(variables)@.len() implies {
                &&& (#[trigger] variables@[u]).r@[0] == old(variables)@[u].r@[0] + lit_occ(c.variables@, c.signs@, u as usize, true, i + 1)
                &&& variables@[u].r@[1] == old(variables)@[u].r@[1] + lit_occ(c.variables@, c.signs@, u as usize, false, i + 1)
            } by {
                if u != v {
                    assert(variables@[u] == before[u]);
                }
            }
        }
        i += 1;
    }
    proof {
        assert forall|u: int| 0 <= u < old(variables)@.len() implies {
            &&& (#[trigger] old(variables)@[u]).r@[0] + clause_occ(c, u as usize, true) <= usize::MAX
            &&& old(variables)@[u].r@[1] + clause_occ(c, u as usize, false) <= usize::MAX
        } by {
            assert(variable_ok(variables@[u], clauses@.len()));
            let r0: usize = variables@[u].r@[0];
            let r1: usize = variables@[u].r@[1];
        }
    }
    true
}

/// The last position before `k` of the priority list whose variable is free, or `-1`.
pub open spec fn last_free(variables: Seq<Variable>, pq: Seq<(usize, usize, bool)>, k: int) -> int
    decreases k,
{
    if k <= 0 {
        -1
    } else if variables[pq[k - 1].1 as int].value == 2 {
        k - 1
    } else {
        last_free(variables, pq, k - 1)
    }
}

/// Priority entries name real variables of the table.
pub open spec fn pq_ok(pq: Seq<(usize, usize, bool)>, nvars: nat) -> bool {
    forall|k: int| 0 <= k < pq.len() ==> 1 <= (#[trigger] pq[k]).1 < nvars
}

/// `last_free` finds a free variable whenever there is one, and nothing else.
pub proof fn lemma_last_free(variables: Seq<Variable>, pq: Seq<(usize, usize, bool)>, k: int)
    ensures
        -1 <= last_free(variables, pq, k) < k || (k <= 0 && last_free(variables, pq, k) == -1),
        last_free(variables, pq, k) >= 0 ==> variables[pq[last_free(variables, pq, k)].1 as int].value == 2,
        forall|q: int| last_free(variables, pq, k) < q < k ==> variables[(#[trigger] pq[q]).1 as int].value != 2,
    decreases k,
{
    if k > 0 {
        lemma_last_free(variables, pq, k - 1);
    }
}

/// Picks the next decision: the free variable of the last priority entry
/// whose variable is free, with its saved phase when phase saving is on and
/// a phase was saved, else with the entry's sign; the decision level grows
/// by one. `(0, true)` with the level unchanged when no entry is free.
pub fn vsids(
    variables: &Vec<Variable>,
    priority_queue: &Vec<(usize, usize, bool)>,
    cur_depth: &mut usize,
    phase_saving: bool,
    phases: &Vec<usize>,
) -> (res: (usize, bool))
    requires
        pq_ok(priority_queue@, variables@.len()),
        phases@.len() == variables@.len(),
        *old(cur_depth) < usize::MAX,
    ensures
        ({
            let k = last_free(variables@, priority_queue@, priority_queue@.len() as int);
            if k < 0 {
                &&& res == (0usize, true) && *final(cur_depth) == *old(cur_depth)
                &&& forall|q: int| 0 <= q < priority_queue@.len() ==> variables@[(#[trigger] priority_queue@[q]).1 as int].value != 2
            } else {
                let var = priority_queue@[k].1;
                &&& 0 <= k < priority_queue@.len()
                &&& *final(cur_depth) == *old(cur_depth) + 1
                &&& res.0 == var
                &&& res.1 == (if phase_saving && phases@[var as int] != 2 { phases@[var as int] != 0 } else { priority_queue@[k].2 })
            }
        }),
{
    proof { lemma_last_free(variables@, priority_queue@, priority_queue@.len() as int); }
    if priority_queue.len() == 0 {
        return (0, true);
    }
    let mut i = priority_queue.len() - 1;
    while variables[priority_queue[i].1].value != 2 && i >= 1
        invariant
            i < priority_queue@.len(),
            pq_ok(priority_queue@, variables@.len()),
            last_free(variables@, priority_queue@, priority_queue@.len() as int) == last_free(variables@, priority_queue@, i + 1),
        decreases i,
    {
        i -= 1;
    }
    proof { lemma_last_free(variables@, priority_queue@, i + 1); }
    if i > 0 || variables[priority_queue[i].1].value == 2 {
        *cur_depth += 1;
        let var = priority_queue[i].1;
        if phase_saving && phases[var] != 2 {
            return (var, phases[var] != 0);
        }
        (var, priority_queue[i].2)
    } else {
        (0, true)
    }
}

/// Does the trail hold variable `v` at a position in `[from, to)`?
pub open spec fn trail_has_var(t: Seq<(usize, usize, bool, usize)>, v: int, from: int, to: int) -> bool {
    exists|k: int| from <= k < to && 0 <= k < t.len() && (#[trigger] t[k]).0 == v
}

/// Trail entries name real variables of the table.
pub open spec fn trail_ok(t: Seq<(usize, usize, bool, usize)>, nvars: nat) -> bool {
    forall|k: int| 0 <= k < t.len() ==> 1 <= (#[trigger] t[k]).0 < nvars
}

/// `new` is `old` with only values changed.
pub open spec fn only_values_changed(old: Seq<Variable>, new: Seq<Variable>) -> bool {
    &&& new.len() == old.len()
    &&& forall|v: int| 0 <= v < old.len() ==> {
        &&& (#[trigger] new[v]).r == old[v].r
        &&& new[v].pos_watched_occ@ == old[v].pos_watched_occ@
        &&& new[v].neg_watched_occ@ == old[v].neg_watched_occ@
    }
}

/// Frees every variable on the trail, from the top down, emptying it.
pub fn unassign_trail(variables: &mut Vec<Variable>, backtracking_stack: &mut Vec<(usize, usize, bool, usize)>)
    requires
        trail_ok(old(backtracking_stack)@, old(variables)@.len()),
    ensures
        final(backtracking_stack)@.len() == 0,
        only_values_changed(old(variables)@, final(variables)@),
        forall|v: int| 0 <= v < old(variables)@.len() ==> (#[trigger] final(variables)@[v]).value ==
            (if trail_has_var(old(backtracking_stack)@, v, 0, old(backtracking_stack)@.len() as int) { 2 } else { old(variables)@[v].value }),
{
    let ghost t = backtracking_stack@;
    while backtracking_stack.len() > 0
        invariant
            trail_ok(t, variables@.len()),
            backtracking_stack@ == t.take(backtracking_stack@.len() as int),
            backtracking_stack@.len() <= t.len(),
            only_values_changed(old(variables)@, variables@),
            forall|v: int| 0 <= v < old(variables)@.len() ==> (#[trigger] variables@[v]).value ==
                (if trail_has_var(t, v, backtracking_stack@.len() as int, t.len() as int) { 2 } else { old(variables)@[v].value }),
        decreases backtracking_stack@.len(),
    {
        let ghost n = backtracking_stack@.len() as int;
        let e = backtracking_stack.pop().unwrap();
        assert(e == t[n - 1]);
        let ghost before = variables@;
        variables[e.0].value = 2;
        proof {
            assert(backtracking_stack@ =~= t.take(n - 1));
            assert forall|v: int| 0 <= v < old(variables)@.len() implies (#[trigger] variables@[v]).value ==
                (if trail_has_var(t, v, n - 1, t.len() as int) { 2 } else { old(variables)@[v].value }) by {
                if v == e.0 {
                    assert(t[n - 1].0 == v);
                } else {
                    assert(variables@[v] == before[v]);
                    if trail_has_var(t, v, n - 1, t.len() as int) {
                        let k = choose|k: int| n - 1 <= k < t.len() && 0 <= k < t.len() && (#[trigger] t[k]).0 == v;
                        assert(k != n - 1);
                        assert(trail_has_var(t, v, n, t.len() as int));
                    }
                }
            }
        }
    }
    assert(t.take(t.len() as int) == t);
}

/// Restarts the search: saves the phases when phase saving is on (every
/// variable but the placeholder takes its current value as phase), empties
/// the queue, frees every variable on the trail and returns to level zero.
pub fn restart(
    variables: &mut Vec<Variable>,
    backtracking_stack: &mut Vec<(usize, usize, bool, usize)>,
    queue: &mut Vec<(usize, bool, bool, usize)>,
    phase_saving: bool,
    phases: &mut Vec<usize>,
    cur_depth: &mut usize,
)
    requires
        old(phases)@.len() == old(variables)@.len(),
        trail_ok(old(backtracking_stack)@, old(variables)@.len()),
    ensures
        final(queue)@.len() == 0,
        final(backtracking_stack)@.len() == 0,
        *final(cur_depth) == 0,
        final(phases)@ == (if phase_saving {
            Seq::new(old(phases)@.len(), |i: int| if i == 0 { old(phases)@[0] } else { old(variables)@[i].value })
        } else {
            old(phases)@
        }),
        only_values_changed(old(variables)@, final(variables)@),
        forall|v: int| 0 <= v < old(variables)@.len() ==> (#[trigger] final(variables)@[v]).value ==
            (if trail_has_var(old(backtracking_stack)@, v, 0, old(backtracking_stack)@.len() as int) { 2 } else { old(variables)@[v].value }),
{
    if phase_saving {
        let mut i: usize = 1;
        while i < variables.len()
            invariant
                1 <= i <= variables@.len() || variables@.len() == 0,
                variables@ == old(variables)@,
                phases@.len() == old(phases)@.len(),
                old(phases)@.len() == old(variables)@.len(),
                forall|k: int| 0 <= k < phases@.len() ==> #[trigger] phases@[k] ==
                    (if k == 0 || k >= i { old(phases)@[k] } else { old(variables)@[k].value }),
            decreases variables@.len() - i,
        {
            phases.set(i, variables[i].value);
            i += 1;
        }
        proof {
            assert(phases@ =~= Seq::new(old(phases)@.len(), |i: int| if i == 0 { old(phases)@[0] } else { old(variables)@[i].value }));
        }
    }
    queue.clear();
    unassign_trail(variables, backtracking_stack);
    *cur_depth = 0;
}

/// The number of free variables among the clause's variables.
pub open spec fn free_count(vars: Seq<usize>, variables: Seq<Variable>, n: int) -> nat
    decreases n,
{
    if n <= 0 {
        0
    } else {
        free_count(vars, variables, n - 1) + (if variables[vars[n - 1] as int].value == 2 { 1nat } else { 0nat })
    }
}

/// A learned clause that clause deletion drops: not yet deleted, more than
/// six literals, more than three of them free.
pub open spec fn deletable(c: Clause, i: int, variables: Seq<Variable>, deleted: Seq<usize>) -> bool {
    &&& c.learned
    &&& !deleted.contains(i as usize)
    &&& c.variables@.len() > 6
    &&& free_count(c.variables@, variables, c.variables@.len() as int) > 3
}

/// The indices below `n` of the clauses that clause deletion drops.
pub open spec fn deletable_upto(clauses: Seq<Clause>, variables: Seq<Variable>, deleted: Seq<usize>, n: int) -> Seq<usize>
    decreases n,
{
    if n <= 0 {
        Seq::empty()
    } else {
        let prev = deletable_upto(clauses, variables, deleted, n - 1);
        if deletable(clauses[n - 1], n - 1, variables, deleted) { prev.push((n - 1) as usize) } else { prev }
    }
}

/// Clause indices of the database.
pub open spec fn indices_ok(s: Seq<usize>, nclauses: nat) -> bool {
    forall|k: int| 0 <= k < s.len() ==> #[trigger] s[k] < nclauses
}

/// Counts the free variables of a clause.
fn count_free(vars: &Vec<usize>, variables: &Vec<Variable>) -> (n: usize)
    requires
        forall|j: int| 0 <= j < vars@.len() ==> #[trigger] vars@[j] < variables@.len(),
    ensures
        n == free_count(vars@, variables@, vars@.len() as int),
{
    let mut n: usize = 0;
    let mut j: usize = 0;
    while j < vars.len()
        invariant
            j <= vars@.len(),
            forall|q: int| 0 <= q < vars@.len() ==> #[trigger] vars@[q] < variables@.len(),
            n == free_count(vars@, variables@, j as int),
            n <= j,
        decreases vars@.len() - j,
    {
        if variables[vars[j]].value == 2 {
            n += 1;
        }
        j += 1;
    }
    n
}

/// Does the sequence contain `x`?
pub fn contains_index(s: &Vec<usize>, x: usize) -> (res: bool)
    ensures
        res == s@.contains(x),
{
    contains_usize(s, x)
}

/// Does the clause hold the variables it watches (or watch none, having at
/// most one literal)?
pub open spec fn watches_held(c: Clause) -> bool {
    c.variables@.len() <= 1 || (c.variables@.contains(c.watched@[0]) && c.variables@.contains(c.watched@[1]))
}

/// Clause deletion: every learned clause that is not yet deleted, has more
/// than six literals and more than three free ones is added, in index order,
/// to the deleted list and leaves the watch lists. Returns `false`, with the
/// work unfinished, when a deleted clause does not hold its watched variables.
pub fn delete_clauses(clauses: &Vec<Clause>, deleted_clauses: &mut Vec<usize>, variables: &mut Vec<Variable>) -> (ok: bool)
    requires
        db_ok(clauses@, old(variables)@),
        indices_ok(old(deleted_clauses)@, clauses@.len()),
    ensures
        db_ok(clauses@, final(variables)@),
        indices_ok(final(deleted_clauses)@, clauses@.len()),
        forall|v: int| 0 <= v < old(variables)@.len() ==> (#[trigger] final(variables)@[v]).value == old(variables)@[v].value,
        final(variables)@.len() == old(variables)@.len(),
        ok ==> final(deleted_clauses)@ == old(deleted_clauses)@ + deletable_upto(clauses@, old(variables)@, old(deleted_clauses)@, clauses@.len() as int),
        ok == forall|c: int| 0 <= c < clauses@.len() && deletable(#[trigger] clauses@[c], c, old(variables)@, old(deleted_clauses)@)
            ==> watches_held(clauses@[c]),
{
    let ghost d0 = deleted_clauses@;
    let mut i: usize = 0;
    while i < clauses.len()
        invariant
            i <= clauses@.len(),
            db_ok(clauses@, variables@),
            variables@.len() == old(variables)@.len(),
            forall|v: int| 0 <= v < old(variables)@.len() ==> (#[trigger] variables@[v]).value == old(variables)@[v].value,
            d0 == old(deleted_clauses)@,
            indices_ok(d0, clauses@.len()),
            deleted_clauses@ == d0 + deletable_upto(clauses@, old(variables)@, d0, i as int),
            forall|k: int| 0 <= k < deleted_clauses@.len() ==> #[trigger] deleted_clauses@[k] < clauses@.len(),
            forall|k: int| 0 <= k < deletable_upto(clauses@, old(variables)@, d0, i as int).len() ==>
                #[trigger] deletable_upto(clauses@, old(variables)@, d0, i as int)[k] < i,
            forall|c: int| 0 <= c < i && deletable(#[trigger] clauses@[c], c, old(variables)@, d0) ==> watches_held(clauses@[c]),
        decreases clauses@.len() - i,
    {
        proof {
            assert(clause_ok(clauses@[i as int], variables@.len()));
            assert(free_count(clauses@[i as int].variables@, variables@, clauses@[i as int].variables@.len() as int)
                == free_count(clauses@[i as int].variables@, old(variables)@, clauses@[i as int].variables@.len() as int)) by {
                lemma_free_count_same_values(clauses@[i as int].variables@, variables@, old(variables)@, clauses@[i as int].variables@.len() as int);
            }
            let du = deletable_upto(clauses@, old(variables)@, d0, i as int);
            assert(deleted_clauses@.contains(i) <==> d0.contains(i)) by {
                if deleted_clauses@.contains(i) && !d0.contains(i) {
                    let k = choose|k: int| 0 <= k < deleted_clauses@.len() && deleted_clauses@[k] == i;
                    assert(du[k - d0.len()] == deleted_clauses@[k]);
                }
                if d0.contains(i) {
                    let k = choose|k: int| 0 <= k < d0.len() && d0[k] == i;
                    assert(deleted_clauses@[k] == i);
                }
            }
        }
        if clauses[i].learned && !contains_index(deleted_clauses, i) && clauses[i].variables.len() > 6 {
            let free = count_free(&clauses[i].variables, variables);
            if free > 3 {
                deleted_clauses.push(i);
                if !double_unwatch(clauses, variables, i) {
                    proof {
                        assert(deletable(clauses@[i as int], i as int, old(variables)@, d0));
                        assert(!watches_held(clauses@[i as int]));
                    }
                    return false;
                }
            }
        }
        proof {
            assert(deleted_clauses@ =~= d0 + deletable_upto(clauses@, old(variables)@, d0, i + 1));
        }
        i += 1;
    }
    true
}

/// Free counts depend only on values.
pub proof fn lemma_free_count_same_values(vars: Seq<usize>, a: Seq<Variable>, b: Seq<Variable>, n: int)
    requires
        forall|j: int| 0 <= j < vars.len() ==> #[trigger] vars[j] < a.len(),
        a.len() == b.len(),
        forall|v: int| 0 <= v < a.len() ==> (#[trigger] a[v]).value == b[v].value,
        n <= vars.len(),
    ensures
        free_count(vars, a, n) == free_count(vars, b, n),
    decreases n,
{
    if n > 0 {
        lemma_free_count_same_values(vars, a, b, n - 1);
        assert(a[vars[n - 1] as int].value == b[vars[n - 1] as int].value);
    }
}

/// The activity counter of a literal: `r[0]` for a positive one, `r[1]` for a negative one.
pub open spec fn activity(v: Variable, sign: bool) -> usize {
    if sign { v.r@[0] } else { v.r@[1] }
}

/// Does some entry name variable `x`?
pub open spec fn var_listed(pq: Seq<(usize, usize, bool)>, x: usize) -> bool {
    exists|q: int| 0 <= q < pq.len() && pq[q].1 == x
}

/// Does an entry before position `i` have the same variable and sign as entry `i`?
pub open spec fn earlier_same(pq: Seq<(usize, usize, bool)>, i: int) -> bool {
    exists|k: int| 0 <= k < i && pq[k].1 == pq[i].1 && pq[k].2 == pq[i].2
}

/// The new score of entry `i`: half its score plus the activity of its
/// literal, which the first entry of that literal consumes.
pub open spec fn rescore(pq: Seq<(usize, usize, bool)>, variables: Seq<Variable>, i: int) -> int {
    pq[i].0 as int / 2 + (if earlier_same(pq, i) { 0int } else { activity(variables[pq[i].1 as int], pq[i].2) as int })
}

/// Is the literal `(v, s)` the literal of some entry before position `i`?
pub open spec fn literal_listed(pq: Seq<(usize, usize, bool)>, v: int, s: bool, i: int) -> bool {
    exists|k: int| 0 <= k < i && pq[k].1 == v && pq[k].2 == s
}

/// Decays and refreshes the priority entries: each score is halved and
/// receives the activity of its literal, which is then reset to zero; the
/// entries are then sorted. Returns `false`, with the work unfinished, when a
/// score would overflow.
pub fn update_priority(variables: &mut Vec<Variable>, priority_queue: &mut Vec<(usize, usize, bool)>) -> (ok: bool)
    requires
        pq_ok(old(priority_queue)@, old(variables)@.len()),
    ensures
        only_activity_changed(old(variables)@, final(variables)@),
        pq_ok(final(priority_queue)@, final(variables)@.len()),
        ok == forall|k: int| 0 <= k < old(priority_queue)@.len() ==> #[trigger] rescore(old(priority_queue)@, old(variables)@, k) <= usize::MAX,
        ok ==> {
            let pq = old(priority_queue)@;
            &&& sorted_entries(final(priority_queue)@)
            &&& final(priority_queue)@.to_multiset() == Seq::new(pq.len(), |i: int|
                    (rescore(pq, old(variables)@, i) as usize, pq[i].1, pq[i].2)).to_multiset()
            &&& forall|v: int, s: bool| 0 <= v < old(variables)@.len() ==> #[trigger] activity(final(variables)@[v], s) ==
                    (if literal_listed(pq, v, s, pq.len() as int) { 0 } else { activity(old(variables)@[v], s) })
            &&& forall|k: int| 0 <= k < final(priority_queue)@.len() ==> var_listed(pq, (#[trigger] final(priority_queue)@[k]).1)
        },
{
    let ghost pq = priority_queue@;
    let n = priority_queue.len();
    let mut i: usize = 0;
    while i < n
        invariant
            n == pq.len(),
            priority_queue@.len() == n,
            i <= n,
            pq_ok(pq, variables@.len()),
            pq == old(priority_queue)@,
            only_activity_changed(old(variables)@, variables@),
            forall|k: int| i <= k < n ==> #[trigger] priority_queue@[k] == pq[k],
            forall|k: int| 0 <= k < i ==> #[trigger] priority_queue@[k] == (rescore(pq, old(variables)@, k) as usize, pq[k].1, pq[k].2),
            forall|k: int| 0 <= k < i ==> rescore(pq, old(variables)@, k) <= usize::MAX,
            forall|v: int, s: bool| 0 <= v < old(variables)@.len() ==> #[trigger] activity(variables@[v], s) ==
                (if literal_listed(pq, v, s, i as int) { 0 } else { activity(old(variables)@[v], s) }),
        decreases n - i,
    {
        let e = priority_queue[i];
        let var = e.1;
        let k: usize = if e.2 { 0 } else { 1 };
        let r = variables[var].r[k];
        let half = e.0 / 2;
        proof {
            assert(e == pq[i as int]);
            assert(activity(variables@[var as int], e.2) == r);
            if literal_listed(pq, var as int, e.2, i as int) {
                let q = choose|q: int| 0 <= q < i && pq[q].1 == var as int && pq[q].2 == e.2;
                assert(earlier_same(pq, i as int));
            } else {
                assert(!earlier_same(pq, i as int));
            }
        }
        if r > usize::MAX - half {
            proof { assert(rescore(pq, old(variables)@, i as int) > usize::MAX); }
            return false;
        }
        priority_queue.set(i, (half + r, var, e.2));
        let ghost vb = variables@;
        variables[var].r[k] = 0;
        proof {
            assert forall|v: int, s: bool| 0 <= v < old(variables)@.len() implies #[trigger] activity(variables@[v], s) ==
                (if literal_listed(pq, v, s, i + 1) { 0 } else { activity(old(variables)@[v], s) }) by {
                if v == var && s == e.2 {
                    assert(pq[i as int].1 == v && pq[i as int].2 == s);
                } else {
                    assert(activity(variables@[v], s) == activity(vb[v], s));
                    if literal_listed(pq, v, s, i + 1) && !literal_listed(pq, v, s, i as int) {
                        let q = choose|q: int| 0 <= q < i + 1 && pq[q].1 == v && pq[q].2 == s;
                        assert(q < i);
                    }
                }
            }
        }
        i += 1;
    }
    proof {
        assert(priority_queue@ =~= Seq::new(pq.len(), |i: int| (rescore(pq, old(variables)@, i) as usize, pq[i].1, pq[i].2)));
    }
    let ghost before_sort = priority_queue@;
    sort_entries(priority_queue);
    proof {
        broadcast use vstd::seq_lib::to_multiset_contains;
        assert forall|k: int| 0 <= k < priority_queue@.len() implies 1 <= (#[trigger] priority_queue@[k]).1 < variables@.len() by {
            assert(priority_queue@.contains(priority_queue@[k]));
            assert(priority_queue@.to_multiset().count(priority_queue@[k]) > 0);
            assert(before_sort.contains(priority_queue@[k]));
            let q = choose|q: int| 0 <= q < before_sort.len() && before_sort[q] == priority_queue@[k];
            assert(before_sort[q].1 == pq[q].1);
        }
        assert forall|k: int| 0 <= k < priority_queue@.len() implies var_listed(pq, (#[trigger] priority_queue@[k]).1) by {
            assert(priority_queue@.contains(priority_queue@[k]));
            assert(priority_queue@.to_multiset().count(priority_queue@[k]) > 0);
            assert(before_sort.contains(priority_queue@[k]));
            let q = choose|q: int| 0 <= q < before_sort.len() && before_sort[q] == priority_queue@[k];
            assert(before_sort[q].1 == pq[q].1);
            assert(0 <= q < pq.len() && priority_queue@[k].1 == pq[q].1);
        }
    }
    true
}

/// How many times the literal `(v, s)` occurs in the live clauses below `n`.
pub open spec fn live_occ(clauses: Seq<Clause>, deleted: Seq<usize>, n: int, v: usize, s: bool) -> nat
    decreases n,
{
    if n <= 0 {
        0
    } else {
        live_occ(clauses, deleted, n - 1, v, s) + (if deleted.contains((n - 1) as usize) { 0nat } else { clause_occ(clauses[n - 1], v, s) })
    }
}

/// The fresh priority entries for the free variables `1..m`: a positive and
/// a negative entry of score zero for each.
pub open spec fn fresh_entries(variables: Seq<Variable>, m: int) -> Seq<(usize, usize, bool)>
    decreases m,
{
    if m <= 1 {
        Seq::empty()
    } else {
        let p = fresh_entries(variables, m - 1);
        if variables[m - 1].value == 2 {
            p.push((0usize, (m - 1) as usize, true)).push((0usize, (m - 1) as usize, false))
        } else {
            p
        }
    }
}

/// The scored entries: each entry that is the first of its literal gains the
/// number of occurrences of its literal in the live clauses.
pub open spec fn scored(base: Seq<(usize, usize, bool)>, clauses: Seq<Clause>, deleted: Seq<usize>) -> Seq<(usize, usize, bool)> {
    Seq::new(base.len(), |k: int| (
        (base[k].0 + (if earlier_same(base, k) { 0nat } else { live_occ(clauses, deleted, clauses.len() as int, base[k].1, base[k].2) })) as usize,
        base[k].1, base[k].2))
}

/// Occurrences among the live clauses below `i` and the first `j` literals of clause `i`.
pub open spec fn partial_occ(clauses: Seq<Clause>, deleted: Seq<usize>, i: int, j: int, v: usize, s: bool) -> nat {
    live_occ(clauses, deleted, i, v, s)
        + (if i < clauses.len() && !deleted.contains(i as usize) { lit_occ(clauses[i].variables@, clauses[i].signs@, v, s, j) } else { 0nat })
}

/// Every literal of a live clause has an entry.
pub open spec fn literals_listed(base: Seq<(usize, usize, bool)>, clauses: Seq<Clause>, deleted: Seq<usize>) -> bool {
    forall|c: int, j: int| 0 <= c < clauses.len() && !deleted.contains(c as usize) && 0 <= j < clauses[c].variables@.len() ==>
        literal_listed(base, #[trigger] clauses[c].variables@[j] as int, clauses[c].signs@[j], base.len() as int)
}

/// Every first entry of a literal can take the count of that literal's
/// occurrences in the live clauses.
pub open spec fn scores_fit(base: Seq<(usize, usize, bool)>, clauses: Seq<Clause>, deleted: Seq<usize>) -> bool {
    forall|k: int| 0 <= k < base.len() && !earlier_same(base, k) ==>
        (#[trigger] base[k]).0 + live_occ(clauses, deleted, clauses.len() as int, base[k].1, base[k].2) <= usize::MAX
}

/// Counting over more clauses counts no fewer.
pub proof fn lemma_live_occ_mono(clauses: Seq<Clause>, deleted: Seq<usize>, i: int, j: int, v: usize, s: bool)
    requires
        i <= j,
    ensures
        live_occ(clauses, deleted, i, v, s) <= live_occ(clauses, deleted, j, v, s),
    decreases j - i,
{
    if i < j {
        lemma_live_occ_mono(clauses, deleted, i, j - 1, v, s);
    }
}

/// Builds the priority entries: a positive and a negative entry of score
/// zero for every free variable, appended to `priority_queue`; every literal
/// occurrence in a live clause adds one to the score of the first entry of
/// its literal; the entries are then sorted. Returns `false`, with the work
/// unfinished, when a literal of a live clause has no entry or a score would
/// overflow.
pub fn set_priority_queue(
    clauses: &Vec<Clause>,
    deleted_clauses: &Vec<usize>,
    variables: &Vec<Variable>,
    priority_queue: &mut Vec<(usize, usize, bool)>,
) -> (ok: bool)
    requires
        db_ok(clauses@, variables@),
        pq_ok(old(priority_queue)@, variables@.len()),
    ensures
        pq_ok(final(priority_queue)@, variables@.len()),
        ok == (literals_listed(old(priority_queue)@ + fresh_entries(variables@, variables@.len() as int), clauses@, deleted_clauses@)
            && scores_fit(old(priority_queue)@ + fresh_entries(variables@, variables@.len() as int), clauses@, deleted_clauses@)),
        ok ==> {
            let base = old(priority_queue)@ + fresh_entries(variables@, variables@.len() as int);
            &&& sorted_entries(final(priority_queue)@)
            &&& final(priority_queue)@.to_multiset() == scored(base, clauses@, deleted_clauses@).to_multiset()
        },
{
    let ghost p0 = priority_queue@;
    let mut m: usize = 1;
    while m < variables.len()
        invariant
            1 <= m <= variables@.len(),
            priority_queue@ == p0 + fresh_entries(variables@, m as int),
        decreases variables@.len() - m,
    {
        if variables[m].value == 2 {
            priority_queue.push((0, m, true));
            priority_queue.push((0, m, false));
        }
        proof {
            assert(priority_queue@ =~= p0 + fresh_entries(variables@, m + 1));
        }
        m += 1;
    }
    let ghost base = priority_queue@;
    proof {
        assert(base == p0 + fresh_entries(variables@, variables@.len() as int));
        lemma_fresh_ok(variables@, variables@.len() as int);
        assert forall|k: int| 0 <= k < base.len() implies 1 <= (#[trigger] base[k]).1 < variables@.len() by {
            if k >= p0.len() {
                assert(base[k] == fresh_entries(variables@, variables@.len() as int)[k - p0.len()]);
            }
        }
    }
    let n = clauses.len();
    let mut i: usize = 0;
    while i < n
        invariant
            n == clauses@.len(),
            i <= n,
            db_ok(clauses@, variables@),
            pq_ok(base, variables@.len()),
            pq_ok(priority_queue@, variables@.len()),
            priority_queue@.len() == base.len(),
            base == old(priority_queue)@ + fresh_entries(variables@, variables@.len() as int),
            forall|k: int| 0 <= k < base.len() ==> (#[trigger] priority_queue@[k]).1 == base[k].1 && priority_queue@[k].2 == base[k].2
                && priority_queue@[k].0 == base[k].0 + (if earlier_same(base, k) { 0nat } else { live_occ(clauses@, deleted_clauses@, i as int, base[k].1, base[k].2) }),
            forall|c: int, j: int| 0 <= c < i && !deleted_clauses@.contains(c as usize) && 0 <= j < clauses@[c].variables@.len() ==>
                literal_listed(base, #[trigger] clauses@[c].variables@[j] as int, clauses@[c].signs@[j], base.len() as int),
        decreases n - i,
    {
        if !contains_index(deleted_clauses, i) {
            proof { assert(clause_ok(clauses@[i as int], variables@.len())); }
            let len_i = clauses[i].variables.len();
            let mut j: usize = 0;
            while j < len_i
                invariant
                    n == clauses@.len(),
                    i < n,
                    !deleted_clauses@.contains(i),
                    len_i == clauses@[i as int].variables@.len(),
                    clause_ok(clauses@[i as int], variables@.len()),
                    j <= len_i,
                    pq_ok(base, variables@.len()),
                    pq_ok(priority_queue@, variables@.len()),
                    priority_queue@.len() == base.len(),
                    forall|k: int| 0 <= k < base.len() ==> (#[trigger] priority_queue@[k]).1 == base[k].1 && priority_queue@[k].2 == base[k].2
                        && priority_queue@[k].0 == base[k].0 + (if earlier_same(base, k) { 0nat } else { partial_occ(clauses@, deleted_clauses@, i as int, j as int, base[k].1, base[k].2) }),
                    base == old(priority_queue)@ + fresh_entries(variables@, variables@.len() as int),
                    forall|c: int, jj: int| 0 <= c < i && !deleted_clauses@.contains(c as usize) && 0 <= jj < clauses@[c].variables@.len() ==>
                        literal_listed(base, #[trigger] clauses@[c].variables@[jj] as int, clauses@[c].signs@[jj], base.len() as int),
                    forall|jj: int| 0 <= jj < j ==>
                        literal_listed(base, #[trigger] clauses@[i as int].variables@[jj] as int, clauses@[i as int].signs@[jj], base.len() as int),
                decreases len_i - j,
            {
                let var = clauses[i].variables[j];
                let sign = clauses[i].signs[j];
                let mut k: usize = 0;
                while k < priority_queue.len() && (priority_queue[k].1 != var || priority_queue[k].2 != sign)
                    invariant
                        k <= priority_queue@.len(),
                        priority_queue@.len() == base.len(),
                        forall|q: int| 0 <= q < base.len() ==> (#[trigger] priority_queue@[q]).1 == base[q].1 && priority_queue@[q].2 == base[q].2,
                        forall|q: int| 0 <= q < k ==> !(base[q].1 == var && base[q].2 == sign),
                    decreases priority_queue@.len() - k,
                {
                    k += 1;
                }
                if k >= priority_queue.len() {
                    proof {
                        if literal_listed(base, var as int, sign, base.len() as int) {
                            let q = choose|q: int| 0 <= q < base.len() && base[q].1 == var as int && base[q].2 == sign;
                            assert(!(base[q].1 == var && base[q].2 == sign));
                        }
                        assert(!literals_listed(base, clauses@, deleted_clauses@));
                    }
                    return false;
                }
                let e = priority_queue[k];
                if e.0 == usize::MAX {
                    proof {
                        let c = clauses@[i as int];
                        assert(e == priority_queue@[k as int]);
                        assert(base[k as int].1 == var && base[k as int].2 == sign);
                        assert(!earlier_same(base, k as int)) by {
                            if earlier_same(base, k as int) {
                                let q = choose|q: int| 0 <= q < k && base[q].1 == base[k as int].1 && base[q].2 == base[k as int].2;
                            }
                        }
                        lemma_lit_occ_mono(c.variables@, c.signs@, var, sign, j + 1, len_i as int);
                        assert(lit_occ(c.variables@, c.signs@, var, sign, j + 1) == lit_occ(c.variables@, c.signs@, var, sign, j as int) + 1);
                        assert(live_occ(clauses@, deleted_clauses@, i + 1, var, sign) == live_occ(clauses@, deleted_clauses@, i as int, var, sign) + clause_occ(c, var, sign));
                        lemma_live_occ_mono(clauses@, deleted_clauses@, i + 1, n as int, var, sign);
                        assert(!scores_fit(base, clauses@, deleted_clauses@));
                    }
                    return false;
                }
                priority_queue.set(k, (e.0 + 1, e.1, e.2));
                proof {
                    assert(base[k as int].1 == var && base[k as int].2 == sign);
                    assert(literal_listed(base, var as int, sign, base.len() as int));
                    assert forall|jj: int| 0 <= jj < j + 1 implies
                        literal_listed(base, #[trigger] clauses@[i as int].variables@[jj] as int, clauses@[i as int].signs@[jj], base.len() as int) by {
                        if jj == j {
                            assert(clauses@[i as int].variables@[jj] == var);
                        }
                    }
                    let c = clauses@[i as int];
                    assert(!earlier_same(base, k as int));
                    assert forall|q: int| 0 <= q < priority_queue@.len() implies 1 <= (#[trigger] priority_queue@[q]).1 < variables@.len() by {
                        assert(priority_queue@[q].1 == base[q].1);
                    }
                    assert forall|q: int| 0 <= q < base.len() implies (#[trigger] priority_queue@[q]).1 == base[q].1 && priority_queue@[q].2 == base[q].2
                        && priority_queue@[q].0 == base[q].0 + (if earlier_same(base, q) { 0nat } else { partial_occ(clauses@, deleted_clauses@, i as int, j + 1, base[q].1, base[q].2) }) by {
                        if q != k {
                            if base[q].1 == var && base[q].2 == sign {
                                assert(q > k);
                                assert(earlier_same(base, q));
                            }
                        }
                    }
                }
                j += 1;
            }
            proof {
                assert forall|k: int| 0 <= k < base.len() implies (#[trigger] priority_queue@[k]).1 == base[k].1 && priority_queue@[k].2 == base[k].2
                    && priority_queue@[k].0 == base[k].0 + (if earlier_same(base, k) { 0nat } else { live_occ(clauses@, deleted_clauses@, i + 1, base[k].1, base[k].2) }) by {
                }
            }
        }
        i += 1;
    }
    proof {
        assert(priority_queue@ =~= scored(base, clauses@, deleted_clauses@));
        assert forall|k: int| 0 <= k < base.len() && !earlier_same(base, k) implies
            (#[trigger] base[k]).0 + live_occ(clauses@, deleted_clauses@, clauses@.len() as int, base[k].1, base[k].2) <= usize::MAX by {
            let x: usize = priority_queue@[k].0;
        }
    }
    let ghost before_sort = priority_queue@;
    sort_entries(priority_queue);
    proof {
        broadcast use vstd::seq_lib::to_multiset_contains;
        assert forall|k: int| 0 <= k < priority_queue@.len() implies 1 <= (#[trigger] priority_queue@[k]).1 < variables@.len() by {
            assert(priority_queue@.contains(priority_queue@[k]));
            assert(priority_queue@.to_multiset().count(priority_queue@[k]) > 0);
            assert(before_sort.contains(priority_queue@[k]));
            let q = choose|q: int| 0 <= q < before_sort.len() && before_sort[q] == priority_queue@[k];
            assert(before_sort[q].1 == base[q].1);
        }
    }
    true
}

/// Fresh entries name real variables.
pub proof fn lemma_fresh_ok(variables: Seq<Variable>, m: int)
    requires
        m <= variables.len(),
        m <= usize::MAX,
    ensures
        forall|k: int| 0 <= k < fresh_entries(variables, m).len() ==> 1 <= (#[trigger] fresh_entries(variables, m)[k]).1 < m,
    decreases m,
{
    if m > 1 {
        lemma_fresh_ok(variables, m - 1);
        let p = fresh_entries(variables, m - 1);
        let f = fresh_entries(variables, m);
        assert forall|k: int| 0 <= k < f.len() implies 1 <= (#[trigger] f[k]).1 < m by {
            if variables[m - 1].value == 2 {
                let a = p.push((0usize, (m - 1) as usize, true));
                assert(f == a.push((0usize, (m - 1) as usize, false)));
                if k < p.len() {
                    assert(f[k] == a[k]);
                    assert(a[k] == p[k]);
                } else if k == p.len() {
                    assert(f[k] == a[k]);
                } else {
                    assert(f[k].1 == m - 1);
                }
            } else {
                assert(f[k] == p[k]);
            }
        }
    }
}

} // verus!
