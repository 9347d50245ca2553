//! The clause database and the variable table of the CDCL solver.
use vstd::prelude::*;

verus! {

/// A clause: parallel vectors of variables and signs (`true` = positive),
/// the two watched variables, and whether it was learned.
pub struct Clause {
    pub variables: Vec<usize>,
    pub signs: Vec<bool>,
    pub watched: [usize; 2],
    pub learned: bool,
}

/// A variable: its value (`0` false, `1` true, `2` free), the clauses that
/// watch its positive and its negative literal, and two activity counters
/// (`r[0]` for the positive literal, `r[1]` for the negative one).
pub struct Variable {
    pub value: usize,
    pub pos_watched_occ: Vec<usize>,
    pub neg_watched_occ: Vec<usize>,
    pub r: [usize; 2],
}

/// The value that a literal of the given sign needs to be true.
pub open spec fn sign_value(sign: bool) -> usize {
    if sign { 1 } else { 0 }
}

/// The signed-integer literal of a variable and a sign.
pub open spec fn lit_int(var: usize, sign: bool) -> int {
    if sign { var as int } else { -(var as int) }
}

/// The literals of a clause, as signed integers.
pub open spec fn clause_lits(c: Clause) -> Seq<int> {
    Seq::new(c.variables@.len(), |j: int| lit_int(c.variables@[j], c.signs@[j]))
}

/// A clause whose vectors agree in length and whose variables are real
/// variables of a table of `nvars` entries (entry `0` is a placeholder).
pub open spec fn clause_ok(c: Clause, nvars: nat) -> bool {
    &&& c.signs@.len() == c.variables@.len()
    &&& forall|j: int| 0 <= j < c.variables@.len() ==> 1 <= #[trigger] c.variables@[j] < nvars
}

/// A variable entry whose value is `0`, `1` or `2` and whose watch lists
/// name clauses of a database of `nclauses` clauses.
pub open spec fn variable_ok(v: Variable, nclauses: nat) -> bool {
    &&& v.value <= 2
    &&& forall|k: int| 0 <= k < v.pos_watched_occ@.len() ==> #[trigger] v.pos_watched_occ@[k] < nclauses
    &&& forall|k: int| 0 <= k < v.neg_watched_occ@.len() ==> #[trigger] v.neg_watched_occ@[k] < nclauses
}

/// The largest number of variables: every variable must be an `i32` literal.
pub open spec fn max_vars() -> nat {
    0x8000_0000
}

/// The structural well-formedness of a clause database and variable table.
pub open spec fn db_ok(clauses: Seq<Clause>, variables: Seq<Variable>) -> bool {
    &&& 1 <= variables.len() <= max_vars()
    &&& forall|i: int| 0 <= i < clauses.len() ==> clause_ok(#[trigger] clauses[i], variables.len())
    &&& forall|v: int| 0 <= v < variables.len() ==> variable_ok(#[trigger] variables[v], clauses.len())
}

/// Is the clause satisfied by the current values?
pub open spec fn clause_sat(c: Clause, variables: Seq<Variable>) -> bool {
    exists|j: int| 0 <= j < c.variables@.len()
        && variables[c.variables@[j] as int].value == sign_value(#[trigger] c.signs@[j])
}

/// Is `p` the first position of `x` in `s`?
pub open spec fn is_first_pos(s: Seq<usize>, x: usize, p: int) -> bool {
    0 <= p < s.len() && s[p] == x && forall|q: int| 0 <= q < p ==> s[q] != x
}

/// The first position of `x` in `s` (meaningful when `s` contains `x`).
pub open spec fn first_pos(s: Seq<usize>, x: usize) -> int {
    choose|p: int| is_first_pos(s, x, p)
}

/// The first position is unique.
pub proof fn lemma_first_pos(s: Seq<usize>, x: usize, p: int)
    requires
        is_first_pos(s, x, p),
    ensures
        first_pos(s, x) == p,
{
    let q = first_pos(s, x);
    assert(is_first_pos(s, x, q));
    if q < p {
        assert(s[q] == x);
    } else if p < q {
        assert(s[p] == x);
    }
}

/// A sequence that contains `x` has a first position of it.
pub proof fn lemma_first_pos_exists(s: Seq<usize>, x: usize)
    requires
        s.contains(x),
    ensures
        is_first_pos(s, x, first_pos(s, x)),
    decreases s.len(),
{
    let i = choose|i: int| 0 <= i < s.len() && s[i] == x;
    if exists|q: int| 0 <= q < i && s[q] == x {
        let q = choose|q: int| 0 <= q < i && s[q] == x;
        assert(s.take(i).contains(x)) by { assert(s.take(i)[q] == x); }
        lemma_first_pos_exists(s.take(i), x);
        let p = first_pos(s.take(i), x);
        assert(is_first_pos(s, x, p)) by {
            assert forall|r: int| 0 <= r < p implies s[r] != x by { assert(s.take(i)[r] == s[r]); }
            assert(s.take(i)[p] == s[p]);
        }
        lemma_first_pos(s, x, p);
    } else {
        assert(is_first_pos(s, x, i));
        lemma_first_pos(s, x, i);
    }
}

/// The sign with which variable `v` first occurs in clause `c`.
pub open spec fn sign_of(c: Clause, v: usize) -> bool {
    c.signs@[first_pos(c.variables@, v)]
}

/// Does `v` occur in the sequence?
pub fn contains_usize(s: &Vec<usize>, x: usize) -> (res: bool)
    ensures
        res == s@.contains(x),
{
    let mut i: usize = 0;
    while i < s.len()
        invariant
            i <= s.len(),
            forall|j: int| 0 <= j < i ==> s@[j] != x,
        decreases s.len() - i,
    {
        if s[i] == x {
            return true;
        }
        i += 1;
    }
    false
}

/// The position of the first occurrence of `x`, if any.
pub fn position_usize(s: &Vec<usize>, x: usize) -> (res: Option<usize>)
    ensures
        match res {
            Some(p) => is_first_pos(s@, x, p as int) && first_pos(s@, x) == p,
            None => !s@.contains(x),
        },
{
    let mut i: usize = 0;
    while i < s.len()
        invariant
            i <= s.len(),
            forall|j: int| 0 <= j < i ==> s@[j] != x,
        decreases s.len() - i,
    {
        if s[i] == x {
            proof { lemma_first_pos(s@, x, i as int); }
            return Some(i);
        }
        i += 1;
    }
    None
}

/// The literals of a clause as `i32` values (variable for a positive
/// literal, its negation for a negative one).
pub fn get_literals(clause: &Clause) -> (lits: Vec<i32>)
    requires
        clause.signs@.len() == clause.variables@.len(),
        forall|j: int| 0 <= j < clause.variables@.len() ==> #[trigger] clause.variables@[j] < max_vars(),
    ensures
        lits@.len() == clause.variables@.len(),
        forall|j: int| 0 <= j < lits@.len() ==> #[trigger] lits@[j] as int == clause_lits(*clause)[j],
{
    let mut lits: Vec<i32> = Vec::new();
    let mut i: usize = 0;
    while i < clause.variables.len()
        invariant
            clause.signs@.len() == clause.variables@.len(),
            forall|j: int| 0 <= j < clause.variables@.len() ==> #[trigger] clause.variables@[j] < max_vars(),
            i <= clause.variables@.len(),
            lits@.len() == i,
            forall|j: int| 0 <= j < i ==> #[trigger] lits@[j] as int == clause_lits(*clause)[j],
        decreases clause.variables@.len() - i,
    {
        let v = clause.variables[i];
        assert(v < max_vars());
        let x: i32 = v as i32;
        if clause.signs[i] {
            lits.push(x);
        } else {
            lits.push(-x);
        }
        i += 1;
    }
    lits
}

/// A copy of a clause, field by field.
pub fn copy_clause(clause: &Clause) -> (copy: Clause)
    requires
        clause.signs@.len() == clause.variables@.len(),
    ensures
        copy.variables@ == clause.variables@,
        copy.signs@ == clause.signs@,
        copy.watched@ == clause.watched@,
        copy.learned == clause.learned,
{
    let mut copy = Clause {
        variables: Vec::new(),
        signs: Vec::new(),
        watched: [0, 0],
        learned: false,
    };
    let mut i: usize = 0;
    while i < clause.variables.len()
        invariant
            i <= clause.variables@.len(),
            copy.variables@ == clause.variables@.take(i as int),
            clause.signs@.len() == clause.variables@.len(),
            copy.signs@ == clause.signs@.take(i as int),
            copy.watched@ == seq![0usize, 0usize],
            !copy.learned,
        decreases clause.variables@.len() - i,
    {
        copy.variables.push(clause.variables[i]);
        assert(clause.variables@.take(i + 1) == clause.variables@.take(i as int).push(clause.variables@[i as int]));
        copy.signs.push(clause.signs[i]);
        assert(clause.signs@.take(i + 1) == clause.signs@.take(i as int).push(clause.signs@[i as int]));
        i += 1;
    }
    assert(clause.variables@.take(clause.variables@.len() as int) == clause.variables@);
    assert(clause.signs@.take(clause.variables@.len() as int) == clause.signs@);
    copy.watched[0] = clause.watched[0];
    copy.watched[1] = clause.watched[1];
    copy.learned = clause.learned;
    proof {
        assert(copy.watched@ =~= clause.watched@);
    }
    copy
}

/// A literal that the resolvent keeps: any variable but the pivot, and, when
/// `dedup` is set, only a variable that the resolvent does not hold yet.
pub open spec fn keep_step(acc: (Seq<usize>, Seq<bool>), v: usize, s: bool, pivot: usize, dedup: bool) -> (Seq<usize>, Seq<bool>) {
    if v != pivot && !(dedup && acc.0.contains(v)) {
        (acc.0.push(v), acc.1.push(s))
    } else {
        acc
    }
}

/// The literals kept from the first `n` literals of a clause, appended to `acc`.
pub open spec fn fold_lits(acc: (Seq<usize>, Seq<bool>), vars: Seq<usize>, signs: Seq<bool>, pivot: usize, dedup: bool, n: int) -> (Seq<usize>, Seq<bool>)
    decreases n,
{
    if n <= 0 {
        acc
    } else {
        keep_step(fold_lits(acc, vars, signs, pivot, dedup, n - 1), vars[n - 1], signs[n - 1], pivot, dedup)
    }
}

/// The resolvent of two clauses on `pivot`: the literals of `c1` other than
/// the pivot, in order, then those of `c2` whose variable is neither the
/// pivot nor already present.
pub open spec fn resolvent_of(c1: Clause, c2: Clause, pivot: usize) -> (Seq<usize>, Seq<bool>) {
    let first = fold_lits((Seq::empty(), Seq::empty()), c1.variables@, c1.signs@, pivot, false, c1.variables@.len() as int);
    fold_lits(first, c2.variables@, c2.signs@, pivot, true, c2.variables@.len() as int)
}

/// Both halves of a folded literal list have the same length, and every
/// variable in it comes from the accumulator or the clause.
pub proof fn lemma_fold_lits(acc: (Seq<usize>, Seq<bool>), vars: Seq<usize>, signs: Seq<bool>, pivot: usize, dedup: bool, n: int)
    requires
        acc.0.len() == acc.1.len(),
        n <= vars.len(),
    ensures
        fold_lits(acc, vars, signs, pivot, dedup, n).0.len() == fold_lits(acc, vars, signs, pivot, dedup, n).1.len(),
        forall|k: int| 0 <= k < fold_lits(acc, vars, signs, pivot, dedup, n).0.len() ==>
            acc.0.contains(#[trigger] fold_lits(acc, vars, signs, pivot, dedup, n).0[k]) || vars.contains(fold_lits(acc, vars, signs, pivot, dedup, n).0[k]),
    decreases n,
{
    if n > 0 {
        lemma_fold_lits(acc, vars, signs, pivot, dedup, n - 1);
        let prev = fold_lits(acc, vars, signs, pivot, dedup, n - 1);
        let cur = fold_lits(acc, vars, signs, pivot, dedup, n);
        assert forall|k: int| 0 <= k < cur.0.len() implies acc.0.contains(#[trigger] cur.0[k]) || vars.contains(cur.0[k]) by {
            if k < prev.0.len() {
                assert(cur.0[k] == prev.0[k]);
            } else {
                assert(cur.0[k] == vars[n - 1]);
            }
        }
    }
}

/// Appends the kept literals of a clause to the resolvent under construction.
fn append_kept(res_vars: &mut Vec<usize>, res_signs: &mut Vec<bool>, c: &Clause, pivot: usize, dedup: bool)
    requires
        c.signs@.len() == c.variables@.len(),
        old(res_vars)@.len() == old(res_signs)@.len(),
    ensures
        (final(res_vars)@, final(res_signs)@) == fold_lits((old(res_vars)@, old(res_signs)@), c.variables@, c.signs@, pivot, dedup, c.variables@.len() as int),
{
    let ghost acc = (res_vars@, res_signs@);
    let mut i: usize = 0;
    while i < c.variables.len()
        invariant
            c.signs@.len() == c.variables@.len(),
            i <= c.variables@.len(),
            (res_vars@, res_signs@) == fold_lits(acc, c.variables@, c.signs@, pivot, dedup, i as int),
        decreases c.variables@.len() - i,
    {
        let v = c.variables[i];
        if v != pivot && !(dedup && contains_usize(res_vars, v)) {
            res_vars.push(v);
            res_signs.push(c.signs[i]);
        }
        i += 1;
    }
}

/// The resolvent of two clauses on a variable (see [`resolvent_of`]); it
/// watches nothing and is not marked learned.
pub fn get_resolvent(clause1: &Clause, clause2: &Clause, var_index: usize) -> (resolvent: Clause)
    requires
        clause1.signs@.len() == clause1.variables@.len(),
        clause2.signs@.len() == clause2.variables@.len(),
    ensures
        (resolvent.variables@, resolvent.signs@) == resolvent_of(*clause1, *clause2, var_index),
        resolvent.watched@ == seq![0usize, 0usize],
        !resolvent.learned,
{
    let mut vars: Vec<usize> = Vec::new();
    let mut signs: Vec<bool> = Vec::new();
    append_kept(&mut vars, &mut signs, clause1, var_index, false);
    proof { lemma_fold_lits((Seq::empty(), Seq::empty()), clause1.variables@, clause1.signs@, var_index, false, clause1.variables@.len() as int); }
    append_kept(&mut vars, &mut signs, clause2, var_index, true);
    let resolvent = Clause { variables: vars, signs: signs, watched: [0, 0], learned: false };
    proof { assert(resolvent.watched@ =~= seq![0usize, 0usize]); }
    resolvent
}

/// A solver step stopped where the procedure it follows has no defined
/// continuation (a missing watched variable, an exhausted trail, a missing
/// reason clause or priority entry, a counter at its limit).
#[derive(Debug, Clone, Copy, PartialEq, Eq)]
pub struct Halt;

} // verus!
