//! The DPLL solver: counter-based unit propagation and pure-literal
//! elimination, dynamic largest-individual-sum decisions, and chronological
//! backtracking.
use vstd::prelude::*;
use crate::text::{lines, words, parse_usize, parse_i32, str_chars, split_lines, split_words,
    parse_usize_word, parse_i32_word, word_is};

verus! {

/// A clause: parallel vectors of variables and signs, the variable that
/// satisfies it (the variable count when none does), and the number of its
/// free variables while it is unsatisfied.
pub struct Clause {
    pub variables: Vec<usize>,
    pub signs: Vec<bool>,
    pub sat_by: usize,
    pub free_variables_qty: usize,
}

/// A variable: its value (`0` false, `1` true, `2` free), the clauses with
/// its positive and with its negative literal, and how many of each are not
/// yet satisfied.
pub struct Variable {
    pub value: usize,
    pub pos_occ: Vec<usize>,
    pub neg_occ: Vec<usize>,
    pub pos_occ_not_sat_qty: usize,
    pub neg_occ_not_sat_qty: usize,
}

/// The solver state.
pub struct DPLL {
    pub clauses: Vec<Clause>,
    pub variables: Vec<Variable>,
    pub queue: Vec<(usize, bool)>,
    pub backtracking_stack: Vec<(usize, bool)>,
    pub conflict: bool,
    pub unsat: bool,
}

/// The solver stopped where the procedure it follows has no defined
/// continuation (an exhausted trail, a counter below zero).
#[derive(Debug, Clone, Copy, PartialEq, Eq)]
pub struct Halt;

/// The value a literal of the given sign needs to be true.
pub open spec fn want(sign: bool) -> usize {
    if sign { 1 } else { 0 }
}

/// Does the clause hold variable `v` with sign `s`?
pub open spec fn has_lit(c: Clause, v: usize, s: bool) -> bool {
    holds(c.variables@, c.signs@, v as int, s)
}

/// Is the clause true under the values?
pub open spec fn clause_true(c: Clause, vars: Seq<Variable>) -> bool {
    exists|j: int| 0 <= j < c.variables@.len() && vars[c.variables@[j] as int].value == want(#[trigger] c.signs@[j])
}

impl DPLL {
    /// The shape of the formula: each clause's variables are distinct
    /// variables of the table with one sign each, and each variable's
    /// occurrence lists name exactly the clauses that hold its literals.
    pub open spec fn shape_ok(&self) -> bool {
        let n = self.variables@.len();
        &&& forall|i: int| 0 <= i < self.clauses@.len() ==> clause_shape(#[trigger] self.clauses@[i], n)
        &&& forall|v: int| 0 <= v < n ==> {
            let x = #[trigger] self.variables@[v];
            &&& forall|k: int| 0 <= k < x.pos_occ@.len() ==> #[trigger] x.pos_occ@[k] < self.clauses@.len()
                && has_lit(self.clauses@[x.pos_occ@[k] as int], v as usize, true)
            &&& forall|k: int| 0 <= k < x.neg_occ@.len() ==> #[trigger] x.neg_occ@[k] < self.clauses@.len()
                && has_lit(self.clauses@[x.neg_occ@[k] as int], v as usize, false)
            &&& forall|i: int| 0 <= i < self.clauses@.len() && has_lit(self.clauses@[i], v as usize, true) ==> x.pos_occ@.contains(i as usize)
            &&& forall|i: int| 0 <= i < self.clauses@.len() && has_lit(self.clauses@[i], v as usize, false) ==> x.neg_occ@.contains(i as usize)
            &&& x.pos_occ@.no_duplicates()
            &&& x.neg_occ@.no_duplicates()
        }
    }

    /// Well-formedness: the shape above, values `0`, `1` or `2`, marks at
    /// most the variable count, and a trail of variables of the table.
    pub open spec fn ok(&self) -> bool {
        let n = self.variables@.len();
        &&& self.shape_ok()
        &&& forall|v: int| 0 <= v < n ==> (#[trigger] self.variables@[v]).value <= 2
        &&& forall|i: int| 0 <= i < self.clauses@.len() ==> (#[trigger] self.clauses@[i]).sat_by <= n
        &&& forall|k: int| 0 <= k < self.backtracking_stack@.len() ==> (#[trigger] self.backtracking_stack@[k]).0 < n
    }

    /// Every clause marked satisfied is satisfied by the variable that marks
    /// it, with that variable's value.
    pub open spec fn sound(&self) -> bool {
        forall|i: int| 0 <= i < self.clauses@.len() && (#[trigger] self.clauses@[i]).sat_by < self.variables@.len() ==> {
            let c = self.clauses@[i];
            let x = self.variables@[c.sat_by as int].value;
            x <= 1 && has_lit(c, c.sat_by, x == 1)
        }
    }

    /// The clauses and occurrence lists of `o`.
    pub open spec fn same_formula(&self, o: DPLL) -> bool {
        &&& self.clauses@.len() == o.clauses@.len()
        &&& self.variables@.len() == o.variables@.len()
        &&& forall|i: int| 0 <= i < self.clauses@.len() ==> (#[trigger] self.clauses@[i]).variables@ == o.clauses@[i].variables@
            && self.clauses@[i].signs@ == o.clauses@[i].signs@
        &&& forall|u: int| 0 <= u < self.variables@.len() ==> (#[trigger] self.variables@[u]).pos_occ@ == o.variables@[u].pos_occ@
            && self.variables@[u].neg_occ@ == o.variables@[u].neg_occ@
    }

    /// The variables' values.
    pub open spec fn values(&self) -> Seq<usize> {
        self.variables@.map_values(|x: Variable| x.value)
    }

    /// The clauses' marks.
    pub open spec fn marks(&self) -> Seq<usize> {
        self.clauses@.map_values(|c: Clause| c.sat_by)
    }

    /// The clauses' counts of free literals.
    pub open spec fn free_counts(&self) -> Seq<usize> {
        self.clauses@.map_values(|c: Clause| c.free_variables_qty)
    }

    /// For each variable, its count of unsatisfied clauses that hold its
    /// literal with sign `s`.
    pub open spec fn open_counts(&self, s: bool) -> Seq<usize> {
        self.variables@.map_values(|x: Variable| if s { x.pos_occ_not_sat_qty } else { x.neg_occ_not_sat_qty })
    }

    /// The state of `o` up to its counters, with more queued and perhaps a
    /// conflict raised.
    pub open spec fn bookkeeping_of(&self, o: DPLL) -> bool {
        &&& self.same_formula(o)
        &&& self.values() == o.values()
        &&& self.marks() == o.marks()
        &&& self.backtracking_stack@ == o.backtracking_stack@
        &&& self.unsat == o.unsat
        &&& o.queue@.len() <= self.queue@.len()
        &&& self.queue@.take(o.queue@.len() as int) == o.queue@
        &&& (o.conflict ==> self.conflict)
    }
}

/// The shape carries over to a state with the same formula.
pub proof fn lemma_same_formula_shape(a: DPLL, b: DPLL)
    requires
        a.shape_ok(),
        b.same_formula(a),
    ensures
        b.shape_ok(),
        forall|i: int, v: usize, s: bool| 0 <= i < a.clauses@.len() ==> #[trigger] has_lit(b.clauses@[i], v, s) == has_lit(a.clauses@[i], v, s),
{
    assert forall|i: int, v: usize, s: bool| 0 <= i < a.clauses@.len() implies #[trigger] has_lit(b.clauses@[i], v, s) == has_lit(a.clauses@[i], v, s) by {
        assert(b.clauses@[i].variables@ == a.clauses@[i].variables@);
        assert(b.clauses@[i].signs@ == a.clauses@[i].signs@);
    }
    assert forall|i: int| 0 <= i < b.clauses@.len() implies clause_shape(#[trigger] b.clauses@[i], b.variables@.len() as nat) by {
        assert(clause_shape(a.clauses@[i], a.variables@.len() as nat));
        assert(b.clauses@[i].variables@ == a.clauses@[i].variables@);
    }
    assert forall|v: int| 0 <= v < b.variables@.len() implies {
        let x = #[trigger] b.variables@[v];
        &&& forall|k: int| 0 <= k < x.pos_occ@.len() ==> #[trigger] x.pos_occ@[k] < b.clauses@.len()
            && has_lit(b.clauses@[x.pos_occ@[k] as int], v as usize, true)
        &&& forall|k: int| 0 <= k < x.neg_occ@.len() ==> #[trigger] x.neg_occ@[k] < b.clauses@.len()
            && has_lit(b.clauses@[x.neg_occ@[k] as int], v as usize, false)
        &&& forall|i: int| 0 <= i < b.clauses@.len() && has_lit(b.clauses@[i], v as usize, true) ==> x.pos_occ@.contains(i as usize)
        &&& forall|i: int| 0 <= i < b.clauses@.len() && has_lit(b.clauses@[i], v as usize, false) ==> x.neg_occ@.contains(i as usize)
        &&& x.pos_occ@.no_duplicates()
        &&& x.neg_occ@.no_duplicates()
    } by {
        assert(b.variables@[v].pos_occ@ == a.variables@[v].pos_occ@);
        assert(b.variables@[v].neg_occ@ == a.variables@[v].neg_occ@);
        let y = a.variables@[v];
        assert(forall|k: int| 0 <= k < y.pos_occ@.len() ==> #[trigger] y.pos_occ@[k] < a.clauses@.len()
            && has_lit(a.clauses@[y.pos_occ@[k] as int], v as usize, true));
        assert(forall|k: int| 0 <= k < y.neg_occ@.len() ==> #[trigger] y.neg_occ@[k] < a.clauses@.len()
            && has_lit(a.clauses@[y.neg_occ@[k] as int], v as usize, false));
    }
}

/// Soundness depends on the formula, the values and the marks alone.
pub proof fn lemma_sound_frame(a: DPLL, b: DPLL)
    requires
        a.sound(),
        b.same_formula(a),
        b.values() == a.values(),
        b.marks() == a.marks(),
    ensures
        b.sound(),
{
    assert forall|i: int| 0 <= i < b.clauses@.len() && (#[trigger] b.clauses@[i]).sat_by < b.variables@.len() implies {
        let c = b.clauses@[i];
        let x = b.variables@[c.sat_by as int].value;
        x <= 1 && has_lit(c, c.sat_by, x == 1)
    } by {
        assert(b.marks()[i] == a.marks()[i]);
        assert(b.marks()[i] == b.clauses@[i].sat_by);
        assert(a.marks()[i] == a.clauses@[i].sat_by);
        let m = a.clauses@[i].sat_by;
        assert(a.clauses@[i].sat_by < a.variables@.len());
        assert(b.values()[m as int] == a.values()[m as int]);
        assert(b.values()[m as int] == b.variables@[m as int].value);
        assert(a.values()[m as int] == a.variables@[m as int].value);
        assert(b.clauses@[i].variables@ == a.clauses@[i].variables@);
        assert(b.clauses@[i].signs@ == a.clauses@[i].signs@);
    }
}

/// Having the same formula is transitive.
pub proof fn lemma_same_formula_trans(a: DPLL, b: DPLL, c: DPLL)
    requires
        b.same_formula(a),
        c.same_formula(b),
    ensures
        c.same_formula(a),
{
    assert forall|i: int| 0 <= i < c.clauses@.len() implies (#[trigger] c.clauses@[i]).variables@ == a.clauses@[i].variables@
        && c.clauses@[i].signs@ == a.clauses@[i].signs@ by {
        assert(b.clauses@[i].variables@ == a.clauses@[i].variables@);
    }
    assert forall|u: int| 0 <= u < c.variables@.len() implies (#[trigger] c.variables@[u]).pos_occ@ == a.variables@[u].pos_occ@
        && c.variables@[u].neg_occ@ == a.variables@[u].neg_occ@ by {
        assert(b.variables@[u].pos_occ@ == a.variables@[u].pos_occ@);
    }
}

/// Well-formedness and soundness carry over to a state that differs only in
/// bookkeeping.
pub proof fn lemma_bookkeeping(a: DPLL, b: DPLL)
    requires
        a.ok(),
        b.bookkeeping_of(a),
    ensures
        b.ok(),
        a.sound() ==> b.sound(),
{
    lemma_same_formula_shape(a, b);
    assert forall|v: int| 0 <= v < b.variables@.len() implies (#[trigger] b.variables@[v]).value <= 2 by {
        assert(b.values()[v] == a.values()[v]);
    }
    assert forall|i: int| 0 <= i < b.clauses@.len() implies (#[trigger] b.clauses@[i]).sat_by <= b.variables@.len() by {
        assert(b.marks()[i] == a.marks()[i]);
    }
    if a.sound() {
        assert forall|i: int| 0 <= i < b.clauses@.len() && (#[trigger] b.clauses@[i]).sat_by < b.variables@.len() implies {
            let c = b.clauses@[i];
            let x = b.variables@[c.sat_by as int].value;
            x <= 1 && has_lit(c, c.sat_by, x == 1)
        } by {
            assert(b.marks()[i] == a.marks()[i]);
            let m = a.clauses@[i].sat_by;
            assert(b.values()[m as int] == a.values()[m as int]);
        }
    }
}

/// The occurrence list of `u` for sign `s`.
pub open spec fn occ(x: Variable, s: bool) -> Seq<usize> {
    if s { x.pos_occ@ } else { x.neg_occ@ }
}

/// The not-yet-satisfied count of `u` for sign `s`.
pub open spec fn occ_count(x: Variable, s: bool) -> usize {
    if s { x.pos_occ_not_sat_qty } else { x.neg_occ_not_sat_qty }
}

/// The table before a clause is read, with fresh occurrence entries: every
/// variable's lists gain `ci` for the literals that the clause holds, and
/// each count equals its list's length.
pub open spec fn pending(old: Seq<Variable>, new: Seq<Variable>, c: Clause, ci: usize) -> bool {
    &&& new.len() == old.len()
    &&& forall|u: int, s: bool| 0 <= u < old.len() ==> #[trigger] occ(new[u], s) ==
            (if has_lit(c, u as usize, s) { occ(old[u], s).push(ci) } else { occ(old[u], s) })
    &&& forall|u: int| 0 <= u < old.len() ==> (#[trigger] new[u]).value == old[u].value
    &&& forall|u: int, s: bool| 0 <= u < old.len() ==> #[trigger] occ_count(new[u], s) == occ(new[u], s).len()
}

/// Two tables with the same values, occurrence lists and counts.
pub open spec fn same_table(a: Seq<Variable>, b: Seq<Variable>) -> bool {
    &&& a.len() == b.len()
    &&& forall|u: int| 0 <= u < a.len() ==> (#[trigger] b[u]).value == a[u].value
    &&& forall|u: int, s: bool| 0 <= u < a.len() ==> #[trigger] occ(b[u], s) == occ(a[u], s) && occ_count(b[u], s) == occ_count(a[u], s)
}

/// The clause's variables are distinct variables below `n`, its signs match.
pub open spec fn clause_shape(c: Clause, n: nat) -> bool {
    &&& c.signs@.len() == c.variables@.len()
    &&& forall|j: int| 0 <= j < c.variables@.len() ==> #[trigger] c.variables@[j] < n
    &&& forall|a: int, b: int| 0 <= a < b < c.variables@.len() ==> c.variables@[a] != c.variables@[b]
}

/// How the literals of a clause line read, word by word.
pub ghost enum ClauseRead {
    /// A word is not a literal of a variable in the table.
    Bad,
    /// The clause holds a literal and its negation.
    Tautology,
    /// The distinct literals read so far, as variables and signs.
    Open(Seq<usize>, Seq<bool>),
}

/// The variable of a literal: `|x| - 1`.
pub open spec fn lit_var(x: i32) -> int {
    if x < 0 { -x - 1 } else { x - 1 }
}

/// Do the parallel sequences hold variable `v` with sign `s`?
pub open spec fn holds(vs: Seq<usize>, ss: Seq<bool>, v: int, s: bool) -> bool {
    exists|p: int| 0 <= p < vs.len() && vs[p] == v && ss[p] == s
}

/// The first `k` words of a clause line read left to right against a table
/// of `n` variables: a literal already held is skipped, one whose negation
/// is held makes the clause a tautology and ends the reading, and a word
/// that is not a literal of the table is an error.
pub open spec fn read_clause(w: Seq<Seq<char>>, k: int, n: nat) -> ClauseRead
    decreases k,
{
    if k <= 0 {
        ClauseRead::Open(Seq::empty(), Seq::empty())
    } else {
        match read_clause(w, k - 1, n) {
            ClauseRead::Open(vs, ss) => match parse_i32(w[k - 1]) {
                Some(x) => if x == 0 || x == i32::MIN || lit_var(x) >= n {
                    ClauseRead::Bad
                } else if holds(vs, ss, lit_var(x), x > 0) {
                    ClauseRead::Open(vs, ss)
                } else if holds(vs, ss, lit_var(x), !(x > 0)) {
                    ClauseRead::Tautology
                } else {
                    ClauseRead::Open(vs.push(lit_var(x) as usize), ss.push(x > 0))
                },
                None => ClauseRead::Bad,
            },
            other => other,
        }
    }
}

/// Once the reading fails or finds a tautology, more words change nothing.
pub proof fn lemma_read_settled(w: Seq<Seq<char>>, k: int, m: int, n: nat)
    requires
        0 <= k <= m,
        !(read_clause(w, k, n) is Open),
    ensures
        read_clause(w, m, n) == read_clause(w, k, n),
    decreases m - k,
{
    if m > k {
        lemma_read_settled(w, k, m - 1, n);
    }
}

/// What a DPLL input file holds: the number of variables declared by all
/// problem lines, the count of the latest problem line (which marks a clause
/// read after it as unsatisfied), the kept clauses with that mark, and the
/// single-literal clauses in reading order.
pub ghost struct Formula {
    pub nvars: nat,
    pub qty: usize,
    pub clauses: Seq<(Seq<usize>, Seq<bool>, usize)>,
    pub units: Seq<(usize, bool)>,
}

/// The formula of the first `k` lines. A line of fewer than two words or
/// starting with the word `c` is skipped; `p` lines add their third word's
/// count of fresh variables; any other line is a clause whose last word is
/// ignored. `None` when a needed word is missing or is not a number, a
/// literal is out of the table, or the variables would not fit a `usize`.
pub open spec fn formula_upto(ls: Seq<Seq<char>>, k: int) -> Option<Formula>
    decreases k,
{
    if k <= 0 {
        Some(Formula { nvars: 0, qty: 0, clauses: Seq::empty(), units: Seq::empty() })
    } else {
        match formula_upto(ls, k - 1) {
            None => None,
            Some(f) => {
                let w = words(ls[k - 1]);
                if w.len() <= 1 || w[0] == seq!['c'] {
                    Some(f)
                } else if w[0] == seq!['p'] {
                    if w.len() >= 3 {
                        match parse_usize(w[2]) {
                            Some(v) => if f.nvars + v <= usize::MAX {
                                Some(Formula { nvars: (f.nvars + v) as nat, qty: v, clauses: f.clauses, units: f.units })
                            } else {
                                None
                            },
                            None => None,
                        }
                    } else {
                        None
                    }
                } else {
                    match read_clause(w, w.len() - 1, f.nvars) {
                        ClauseRead::Bad => None,
                        ClauseRead::Tautology => Some(f),
                        ClauseRead::Open(vs, ss) => Some(Formula {
                            nvars: f.nvars,
                            qty: f.qty,
                            clauses: f.clauses.push((vs, ss, f.qty)),
                            units: if vs.len() == 1 { f.units.push((vs[0], ss[0])) } else { f.units },
                        }),
                    }
                }
            },
        }
    }
}

/// The formula of a DPLL input text.
pub open spec fn dpll_formula(text: Seq<char>) -> Option<Formula> {
    formula_upto(lines(text), lines(text).len() as int)
}

/// The indices, in increasing order, of the first `k` clauses that hold
/// variable `v` with sign `s`.
pub open spec fn occ_indices(cls: Seq<(Seq<usize>, Seq<bool>, usize)>, v: int, s: bool, k: int) -> Seq<usize>
    decreases k,
{
    if k <= 0 {
        Seq::empty()
    } else {
        let p = occ_indices(cls, v, s, k - 1);
        if holds(cls[k - 1].0, cls[k - 1].1, v, s) { p.push((k - 1) as usize) } else { p }
    }
}

/// The pure literals queued for the first `i` variables: `(u, false)` when
/// no clause holds `u` positively, then `(u, true)` when none holds it
/// negatively.
pub open spec fn pure_queue(f: Formula, i: int) -> Seq<(usize, bool)>
    decreases i,
{
    if i <= 0 {
        Seq::empty()
    } else {
        let u = i - 1;
        let q = pure_queue(f, u);
        let q1 = if occ_indices(f.clauses, u, true, f.clauses.len() as int).len() == 0 { q.push((u as usize, false)) } else { q };
        if occ_indices(f.clauses, u, false, f.clauses.len() as int).len() == 0 { q1.push((u as usize, true)) } else { q1 }
    }
}

/// Facts about the occurrence indices: they are the clauses holding the
/// literal, each below `k`.
pub proof fn lemma_occ_indices(cls: Seq<(Seq<usize>, Seq<bool>, usize)>, v: int, s: bool, k: int)
    requires
        0 <= k <= cls.len(),
        k <= usize::MAX,
    ensures
        forall|t: int| 0 <= t < occ_indices(cls, v, s, k).len() ==> #[trigger] occ_indices(cls, v, s, k)[t] < k
            && holds(cls[occ_indices(cls, v, s, k)[t] as int].0, cls[occ_indices(cls, v, s, k)[t] as int].1, v, s),
        forall|q: int| 0 <= q < k && holds(cls[q].0, cls[q].1, v, s) ==> #[trigger] occ_indices(cls, v, s, k).contains(q as usize),
        occ_indices(cls, v, s, k).no_duplicates(),
    decreases k,
{
    if k > 0 {
        lemma_occ_indices(cls, v, s, k - 1);
        let p = occ_indices(cls, v, s, k - 1);
        let o = occ_indices(cls, v, s, k);
        assert forall|t: int| 0 <= t < o.len() implies #[trigger] o[t] < k && holds(cls[o[t] as int].0, cls[o[t] as int].1, v, s) by {
            if t < p.len() {
                assert(o[t] == p[t]);
            }
        }
        assert forall|q: int| 0 <= q < k && holds(cls[q].0, cls[q].1, v, s) implies #[trigger] occ_indices(cls, v, s, k).contains(q as usize) by {
            if q < k - 1 {
                assert(p.contains(q as usize));
                let t = choose|t: int| 0 <= t < p.len() && p[t] == q as usize;
                assert(occ_indices(cls, v, s, k)[t] == q as usize);
            } else {
                assert(occ_indices(cls, v, s, k).last() == q as usize);
            }
        }
        assert forall|a: int, b: int| 0 <= a < o.len() && 0 <= b < o.len() && a != b implies o[a] != o[b] by {
            if a < p.len() { assert(o[a] == p[a]); }
            if b < p.len() { assert(o[b] == p[b]); }
        }
    }
}

/// Appending a clause leaves the indices among the earlier ones unchanged.
pub proof fn lemma_occ_indices_push(cls: Seq<(Seq<usize>, Seq<bool>, usize)>, x: (Seq<usize>, Seq<bool>, usize), v: int, s: bool, k: int)
    requires
        0 <= k <= cls.len(),
    ensures
        occ_indices(cls.push(x), v, s, k) == occ_indices(cls, v, s, k),
    decreases k,
{
    if k > 0 {
        lemma_occ_indices_push(cls, x, v, s, k - 1);
        assert(cls.push(x)[k - 1] == cls[k - 1]);
    }
}

/// No clause holds a variable at or beyond `m` when all hold variables below it.
pub proof fn lemma_occ_indices_fresh(cls: Seq<(Seq<usize>, Seq<bool>, usize)>, v: int, s: bool, k: int, m: int)
    requires
        0 <= k <= cls.len(),
        v >= m,
        forall|i: int, j: int| 0 <= i < cls.len() && 0 <= j < cls[i].0.len() ==> #[trigger] cls[i].0[j] < m,
    ensures
        occ_indices(cls, v, s, k) == Seq::<usize>::empty(),
    decreases k,
{
    if k > 0 {
        lemma_occ_indices_fresh(cls, v, s, k - 1, m);
        if holds(cls[k - 1].0, cls[k - 1].1, v, s) {
            let p = choose|p: int| 0 <= p < cls[k - 1].0.len() && #[trigger] cls[k - 1].0[p] == v && cls[k - 1].1[p] == s;
            assert(cls[k - 1].0[p] < m);
        }
    }
}

/// Position of variable `v` in the clause, if any.
fn clause_position(c: &Clause, v: usize) -> (res: Option<usize>)
    ensures
        match res {
            Some(p) => p < c.variables@.len() && c.variables@[p as int] == v,
            None => forall|j: int| 0 <= j < c.variables@.len() ==> c.variables@[j] != v,
        },
{
    let mut i: usize = 0;
    while i < c.variables.len()
        invariant
            i <= c.variables@.len(),
            forall|j: int| 0 <= j < i ==> c.variables@[j] != v,
        decreases c.variables@.len() - i,
    {
        if c.variables[i] == v {
            return Some(i);
        }
        i += 1;
    }
    None
}

/// Reads one clause line: literal `l` stands for variable `|l| - 1` with
/// sign `l > 0`; a repeated literal is dropped; a clause holding a literal
/// and its negation is dropped whole. A kept clause joins the occurrence
/// lists of its literals, counts its literals as free, is marked unsatisfied
/// with `sat_by`, and, when it has a single literal, queues it. `None` for a
/// literal `0`, `i32::MIN`, or a variable beyond the table.
#[verifier::spinoff_prover]
#[verifier::rlimit(30)]
fn add_clause(
    clauses: &mut Vec<Clause>,
    variables: &mut Vec<Variable>,
    queue: &mut Vec<(usize, bool)>,
    words: &Vec<Vec<char>>,
    count: usize,
    sat_by: usize,
) -> (res: Option<()>)
    requires
        count <= words@.len(),
        forall|i: int| 0 <= i < old(clauses)@.len() ==> clause_shape(#[trigger] old(clauses)@[i], old(variables)@.len() as nat),
        forall|u: int, s: bool| 0 <= u < old(variables)@.len() ==> #[trigger] occ_count(old(variables)@[u], s) == occ(old(variables)@[u], s).len(),
    ensures
        res is None <==> read_clause(words@.map_values(|w: Vec<char>| w@), count as int, old(variables)@.len() as nat) is Bad,
        res is Some ==> (read_clause(words@.map_values(|w: Vec<char>| w@), count as int, old(variables)@.len() as nat) is Tautology
            <==> final(clauses)@.len() == old(clauses)@.len()),
        res is Some && final(clauses)@.len() == old(clauses)@.len() + 1 ==> read_clause(words@.map_values(|w: Vec<char>| w@), count as int, old(variables)@.len() as nat)
            == ClauseRead::Open(final(clauses)@.last().variables@, final(clauses)@.last().signs@),
        res is Some ==> {
            &&& final(variables)@.len() == old(variables)@.len()
            &&& forall|u: int| 0 <= u < old(variables)@.len() ==> (#[trigger] final(variables)@[u]).value == old(variables)@[u].value
            &&& forall|i: int| 0 <= i < final(clauses)@.len() ==> clause_shape(#[trigger] final(clauses)@[i], old(variables)@.len() as nat)
            &&& final(clauses)@.len() == old(clauses)@.len() || final(clauses)@.len() == old(clauses)@.len() + 1
            &&& final(clauses)@.take(old(clauses)@.len() as int) == old(clauses)@
            &&& final(clauses)@.len() == old(clauses)@.len() ==> same_table(old(variables)@, final(variables)@) && final(queue)@ == old(queue)@
            &&& final(clauses)@.len() == old(clauses)@.len() + 1 ==> {
                let c = final(clauses)@.last();
                &&& c.sat_by == sat_by
                &&& c.free_variables_qty == c.variables@.len()
                &&& pending(old(variables)@, final(variables)@, c, old(clauses)@.len() as usize)
                &&& final(queue)@ == (if c.variables@.len() == 1 { old(queue)@.push((c.variables@[0], c.signs@[0])) } else { old(queue)@ })
            }
        },
{
    let n = variables.len();
    let ci = clauses.len();
    let mut clause = Clause { variables: Vec::new(), signs: Vec::new(), sat_by: sat_by, free_variables_qty: 0 };
    let ghost v0 = variables@;
    let ghost ws = words@.map_values(|w: Vec<char>| w@);
    let mut j: usize = 0;
    while j < count
        invariant
            count <= words@.len(),
            ws == words@.map_values(|w: Vec<char>| w@),
            read_clause(ws, j as int, n as nat) == ClauseRead::Open(clause.variables@, clause.signs@),
            n == variables@.len(),
            ci == clauses@.len(),
            clauses@ == old(clauses)@,
            queue@ == old(queue)@,
            forall|k: int| 0 <= k < old(clauses)@.len() ==> clause_shape(#[trigger] old(clauses)@[k], n as nat),
            v0 == old(variables)@,
            forall|u: int, s: bool| 0 <= u < old(variables)@.len() ==> #[trigger] occ_count(old(variables)@[u], s) == occ(old(variables)@[u], s).len(),
            j <= count,
            clause_shape(clause, n as nat),
            clause.free_variables_qty == clause.variables@.len(),
            clause.sat_by == sat_by,
            pending(v0, variables@, clause, ci),
        decreases count - j,
    {
        let lit = match parse_i32_word(&words[j]) {
            Some(x) => x,
            None => {
                proof { lemma_read_settled(ws, j + 1, count as int, n as nat); }
                return None;
            },
        };
        if lit == 0 || lit == i32::MIN {
            proof { lemma_read_settled(ws, j + 1, count as int, n as nat); }
            return None;
        }
        let v: usize = if lit < 0 { (-lit - 1) as usize } else { (lit - 1) as usize };
        if v >= n {
            proof { lemma_read_settled(ws, j + 1, count as int, n as nat); }
            return None;
        }
        let sign = lit > 0;
        proof { assert(ws[j as int] == words@[j as int]@); }
        match clause_position(&clause, v) {
            None => {
                let ghost cb = clause;
                let ghost vb = variables@;
                clause.variables.push(v);
                clause.signs.push(sign);
                clause.free_variables_qty = clause.variables.len();
                if sign {
                    variables[v].pos_occ.push(ci);
                    variables[v].pos_occ_not_sat_qty = variables[v].pos_occ.len();
                } else {
                    variables[v].neg_occ.push(ci);
                    variables[v].neg_occ_not_sat_qty = variables[v].neg_occ.len();
                }
                proof {
                    assert(!holds(cb.variables@, cb.signs@, v as int, sign));
                    assert(!holds(cb.variables@, cb.signs@, v as int, !sign));
                    assert(lit_var(lit) == v as int);
                    assert(clause.variables@ == cb.variables@.push(v));
                    assert(clause.signs@ == cb.signs@.push(sign));
                    assert(!has_lit(cb, v, true) && !has_lit(cb, v, false));
                    assert forall|u: int, s: bool| 0 <= u < v0.len() implies #[trigger] occ(variables@[u], s) ==
                        (if has_lit(clause, u as usize, s) { occ(v0[u], s).push(ci) } else { occ(v0[u], s) }) by {
                        assert(occ(vb[u], s) == (if has_lit(cb, u as usize, s) { occ(v0[u], s).push(ci) } else { occ(v0[u], s) }));
                        if u != v {
                            assert(variables@[u] == vb[u]);
                            if has_lit(clause, u as usize, s) {
                                let q = choose|q: int| 0 <= q < clause.variables@.len() && clause.variables@[q] == u as usize && clause.signs@[q] == s;
                                assert(q < cb.variables@.len());
                                assert(cb.variables@[q] == u as usize && cb.signs@[q] == s);
                            }
                            if has_lit(cb, u as usize, s) {
                                let q = choose|q: int| 0 <= q < cb.variables@.len() && cb.variables@[q] == u as usize && cb.signs@[q] == s;
                                assert(clause.variables@[q] == u as usize && clause.signs@[q] == s);
                            }
                        } else if s != sign {
                            assert(occ(variables@[u], s) == occ(vb[u], s));
                            if has_lit(clause, u as usize, s) {
                                let q = choose|q: int| 0 <= q < clause.variables@.len() && clause.variables@[q] == u as usize && clause.signs@[q] == s;
                                assert(q < cb.variables@.len());
                                assert(cb.variables@[q] == u as usize);
                            }
                        } else {
                            assert(occ(variables@[u], s) == occ(vb[u], s).push(ci));
                            assert(clause.variables@[cb.variables@.len() as int] == v);
                            assert(clause.signs@[cb.variables@.len() as int] == sign);
                            assert(has_lit(clause, u as usize, s));
                        }
                    }
                    assert forall|u: int| 0 <= u < v0.len() implies (#[trigger] variables@[u]).value == v0[u].value by {
                        if u != v { assert(variables@[u] == vb[u]); }
                    }
                    assert forall|u: int, s: bool| 0 <= u < v0.len() implies #[trigger] occ_count(variables@[u], s) == occ(variables@[u], s).len() by {
                        assert(occ_count(vb[u], s) == occ(vb[u], s).len());
                        if u != v { assert(variables@[u] == vb[u]); }
                        else if s != sign {
                            assert(occ_count(variables@[u], s) == occ_count(vb[u], s));
                            assert(occ(variables@[u], s) == occ(vb[u], s));
                        }
                    }
                }
            },
            Some(p) => {
                proof { assert(lit_var(lit) == v as int); }
                if clause.signs[p] != sign {
                    // a literal and its negation: the clause is dropped and its entries undone
                    proof {
                        assert(holds(clause.variables@, clause.signs@, v as int, !sign));
                        assert(!holds(clause.variables@, clause.signs@, v as int, sign));
                        lemma_read_settled(ws, j + 1, count as int, n as nat);
                    }
                    let mut i: usize = 0;
                    let ghost vp = variables@;
                    while i < clause.variables.len()
                        invariant
                            n == variables@.len(),
                            v0.len() == n,
                            v0 == old(variables)@,
                            clauses@ == old(clauses)@,
                            ci == clauses@.len(),
                            queue@ == old(queue)@,
                            forall|k: int| 0 <= k < old(clauses)@.len() ==> clause_shape(#[trigger] old(clauses)@[k], n as nat),
                            forall|u: int, s: bool| 0 <= u < n ==> #[trigger] occ_count(v0[u], s) == occ(v0[u], s).len(),
                            clause_shape(clause, n as nat),
                            pending(v0, vp, clause, ci),
                            i <= clause.variables@.len(),
                            forall|u: int| 0 <= u < n ==> (#[trigger] variables@[u]).value == v0[u].value,
                            forall|u: int, s: bool| 0 <= u < n ==> #[trigger] occ(variables@[u], s) ==
                                (if exists|q: int| i <= q < clause.variables@.len() && clause.variables@[q] == u as usize && clause.signs@[q] == s
                                    { occ(v0[u], s).push(ci) } else { occ(v0[u], s) }),
                            forall|u: int, s: bool| 0 <= u < n ==> #[trigger] occ_count(variables@[u], s) == occ(variables@[u], s).len(),
                        decreases clause.variables@.len() - i,
                    {
                        let u = clause.variables[i];
                        let ghost vb = variables@;
                        proof {
                            assert(exists|q: int| i <= q < clause.variables@.len() && clause.variables@[q] == u && clause.signs@[q] == clause.signs@[i as int]);
                        }
                        if clause.signs[i] {
                            variables[u].pos_occ.pop();
                            variables[u].pos_occ_not_sat_qty = variables[u].pos_occ.len();
                        } else {
                            variables[u].neg_occ.pop();
                            variables[u].neg_occ_not_sat_qty = variables[u].neg_occ.len();
                        }
                        proof {
                            assert forall|w: int, s: bool| 0 <= w < n implies #[trigger] occ(variables@[w], s) ==
                                (if exists|q: int| i + 1 <= q < clause.variables@.len() && clause.variables@[q] == w as usize && clause.signs@[q] == s
                                    { occ(v0[w], s).push(ci) } else { occ(v0[w], s) }) by {
                                if w != u {
                                    assert(variables@[w] == vb[w]);
                                    if exists|q: int| i <= q < clause.variables@.len() && clause.variables@[q] == w as usize && clause.signs@[q] == s {
                                        let q = choose|q: int| i <= q < clause.variables@.len() && clause.variables@[q] == w as usize && clause.signs@[q] == s;
                                        assert(q != i);
                                    }
                                } else if s != clause.signs@[i as int] {
                                    assert(variables@[w] == vb[w] || true);
                                    if exists|q: int| i <= q < clause.variables@.len() && clause.variables@[q] == w as usize && clause.signs@[q] == s {
                                        let q = choose|q: int| i <= q < clause.variables@.len() && clause.variables@[q] == w as usize && clause.signs@[q] == s;
                                        assert(q != i);
                                    }
                                } else {
                                    if exists|q: int| i + 1 <= q < clause.variables@.len() && clause.variables@[q] == w as usize && clause.signs@[q] == s {
                                        let q = choose|q: int| i + 1 <= q < clause.variables@.len() && clause.variables@[q] == w as usize && clause.signs@[q] == s;
                                        assert(clause.variables@[q] != clause.variables@[i as int]);
                                    }
                                    assert(occ(vb[w], s).drop_last() =~= occ(v0[w], s));
                                }
                            }
                            assert forall|w: int| 0 <= w < n implies (#[trigger] variables@[w]).value == v0[w].value by {
                                if w != u { assert(variables@[w] == vb[w]); }
                            }
                            assert forall|w: int, s: bool| 0 <= w < n implies #[trigger] occ_count(variables@[w], s) == occ(variables@[w], s).len() by {
                                assert(occ_count(vb[w], s) == occ(vb[w], s).len());
                                if w != u { assert(variables@[w] == vb[w]); }
                                else if s != clause.signs@[i as int] {
                                    assert(occ_count(variables@[w], s) == occ_count(vb[w], s));
                                    assert(occ(variables@[w], s) == occ(vb[w], s));
                                }
                            }
                        }
                        i += 1;
                    }
                    proof {
                        assert forall|u: int, s: bool| 0 <= u < n implies #[trigger] occ(variables@[u], s) == occ(v0[u], s) && occ_count(variables@[u], s) == occ_count(v0[u], s) by {
                            assert(occ(variables@[u], s) == occ(v0[u], s));
                        }
                        assert(clauses@.take(ci as int) =~= old(clauses)@);
                    }
                    return Some(());
                } else {
                    proof { assert(holds(clause.variables@, clause.signs@, v as int, sign)); }
                }
            },
        }
        j += 1;
    }
    let single = clause.variables.len() == 1;
    if single {
        queue.push((clause.variables[0], clause.signs[0]));
    }
    clauses.push(clause);
    proof {
        assert(clauses@.take(ci as int) =~= old(clauses)@);
        assert forall|i: int| 0 <= i < clauses@.len() implies clause_shape(#[trigger] clauses@[i], n as nat) by {
            if i < ci { assert(clauses@[i] == old(clauses)@[i]); }
        }
    }
    Some(())
}

/// A failed line fails the whole text.
pub proof fn lemma_formula_fails(ls: Seq<Seq<char>>, k: int, m: int)
    requires
        0 <= k <= m,
        formula_upto(ls, k) is None,
    ensures
        formula_upto(ls, m) is None,
    decreases m - k,
{
    if m > k {
        lemma_formula_fails(ls, k, m - 1);
    }
}

/// The table and clauses built so far match formula `f`: occurrence lists
/// are the occurrence indices, counts their lengths, values free, and the
/// queue the unit clauses.
spec fn partial(f: Formula, cl: Seq<Clause>, vars: Seq<Variable>, q: Seq<(usize, bool)>) -> bool {
    &&& vars.len() == f.nvars
    &&& f.nvars <= usize::MAX
    &&& cl.len() == f.clauses.len()
    &&& f.qty <= f.nvars
    &&& forall|i: int| 0 <= i < cl.len() ==> {
        let c = #[trigger] cl[i];
        &&& c.variables@ == f.clauses[i].0
        &&& c.signs@ == f.clauses[i].1
        &&& c.sat_by == f.clauses[i].2
        &&& c.sat_by <= f.nvars
        &&& c.free_variables_qty == c.variables@.len()
        &&& clause_shape(c, f.nvars)
    }
    &&& forall|u: int| 0 <= u < vars.len() ==> (#[trigger] vars[u]).value == 2
    &&& forall|u: int, s: bool| 0 <= u < vars.len() ==> #[trigger] occ(vars[u], s) == occ_indices(f.clauses, u, s, cl.len() as int)
    &&& forall|u: int, s: bool| 0 <= u < vars.len() ==> #[trigger] occ_count(vars[u], s) == occ(vars[u], s).len()
    &&& q == f.units
}

impl DPLL {
    /// The solver state freshly built from formula `f`: the clauses and
    /// their marks, free variables with their occurrence lists and counts,
    /// the unit clauses followed by the pure literals of the first `f.qty`
    /// variables in the queue, an empty trail, no conflict.
    pub open spec fn built_from(&self, f: Formula) -> bool {
        &&& self.variables@.len() == f.nvars
        &&& self.clauses@.len() == f.clauses.len()
        &&& forall|i: int| 0 <= i < self.clauses@.len() ==> {
            let c = #[trigger] self.clauses@[i];
            &&& c.variables@ == f.clauses[i].0
            &&& c.signs@ == f.clauses[i].1
            &&& c.sat_by == f.clauses[i].2
            &&& c.free_variables_qty == c.variables@.len()
        }
        &&& forall|u: int| 0 <= u < self.variables@.len() ==> (#[trigger] self.variables@[u]).value == 2
        &&& forall|u: int, s: bool| 0 <= u < self.variables@.len() ==>
            #[trigger] occ(self.variables@[u], s) == occ_indices(f.clauses, u, s, f.clauses.len() as int)
            && occ_count(self.variables@[u], s) == occ(self.variables@[u], s).len()
        &&& self.queue@ == f.units + pure_queue(f, f.qty as int)
        &&& self.backtracking_stack@.len() == 0
        &&& !self.conflict
        &&& !self.unsat
    }

    /// Builds the solver from the text of a DIMACS file (see
    /// [`dpll_formula`]); `None` where the text does not read.
    pub fn new(text: &str) -> (res: Option<DPLL>)
        ensures
            match res {
                Some(d) => dpll_formula(text@) is Some && d.built_from(dpll_formula(text@)->0) && d.ok(),
                None => dpll_formula(text@) is None,
            },
    {
        let chars = str_chars(text);
        let ls = split_lines(&chars);
        let ghost lss = lines(text@);
        let mut clauses: Vec<Clause> = Vec::new();
        let mut variables: Vec<Variable> = Vec::new();
        let mut queue: Vec<(usize, bool)> = Vec::new();
        let mut qty: usize = 0;
        let ghost mut f = Formula { nvars: 0, qty: 0, clauses: Seq::empty(), units: Seq::empty() };
        let mut k: usize = 0;
        while k < ls.len()
            invariant
                chars@ == text@,
                lss == lines(text@),
                ls@.len() == lss.len(),
                forall|q: int| 0 <= q < ls@.len() ==> #[trigger] ls@[q]@ == lss[q],
                k <= ls@.len(),
                formula_upto(lss, k as int) == Some(f),
                qty == f.qty,
                partial(f, clauses@, variables@, queue@),
            decreases ls@.len() - k,
        {
            let w = split_words(&ls[k]);
            let ghost ws = w@.map_values(|x: Vec<char>| x@);
            proof {
                assert(ws =~= words(lss[k as int]));
            }
            if w.len() <= 1 || word_is(&w[0], 'c') {
                proof { if w@.len() > 1 { assert(ws[0] == w@[0]@); } }
            } else if word_is(&w[0], 'p') {
                proof { assert(ws[0] == w@[0]@); }
                if w.len() < 3 {
                    proof { lemma_formula_fails(lss, k + 1, lss.len() as int); }
                    return None;
                }
                let v = match parse_usize_word(&w[2]) {
                    Some(v) => v,
                    None => {
                        proof { lemma_formula_fails(lss, k + 1, lss.len() as int); }
                        return None;
                    },
                };
                if v > usize::MAX - variables.len() {
                    proof { lemma_formula_fails(lss, k + 1, lss.len() as int); }
                    return None;
                }
                let ghost vb = variables@;
                let mut t: usize = 0;
                while t < v
                    invariant
                        t <= v,
                        vb.len() + v <= usize::MAX,
                        variables@.len() == vb.len() + t,
                        forall|u: int| 0 <= u < vb.len() ==> #[trigger] variables@[u] == vb[u],
                        forall|u: int| vb.len() <= u < variables@.len() ==> (#[trigger] variables@[u]).value == 2
                            && variables@[u].pos_occ@.len() == 0 && variables@[u].neg_occ@.len() == 0
                            && variables@[u].pos_occ_not_sat_qty == 0 && variables@[u].neg_occ_not_sat_qty == 0,
                    decreases v - t,
                {
                    variables.push(Variable {
                        value: 2,
                        pos_occ: Vec::new(),
                        neg_occ: Vec::new(),
                        pos_occ_not_sat_qty: 0,
                        neg_occ_not_sat_qty: 0,
                    });
                    t += 1;
                }
                qty = v;
                proof {
                    let f0 = f;
                    f = Formula { nvars: (f0.nvars + v) as nat, qty: v, clauses: f0.clauses, units: f0.units };
                    assert forall|u: int, s: bool| 0 <= u < variables@.len() implies #[trigger] occ(variables@[u], s) == occ_indices(f.clauses, u, s, clauses@.len() as int) by {
                        if u >= vb.len() {
                            assert forall|i: int, j: int| 0 <= i < f.clauses.len() && 0 <= j < f.clauses[i].0.len() implies #[trigger] f.clauses[i].0[j] < vb.len() by {
                                assert(clause_shape(clauses@[i], f0.nvars));
                                assert(clauses@[i].variables@[j] < f0.nvars);
                            }
                            lemma_occ_indices_fresh(f.clauses, u, s, clauses@.len() as int, vb.len() as int);
                        } else {
                            assert(variables@[u] == vb[u]);
                        }
                    }
                    assert forall|u: int, s: bool| 0 <= u < variables@.len() implies #[trigger] occ_count(variables@[u], s) == occ(variables@[u], s).len() by {
                        if u < vb.len() { assert(variables@[u] == vb[u]); }
                    }
                    assert forall|i: int| 0 <= i < clauses@.len() implies clause_shape(#[trigger] clauses@[i], f.nvars) by {
                        assert(clause_shape(clauses@[i], f0.nvars));
                    }
                }
            } else {
                proof { assert(ws[0] == w@[0]@); }
                let ghost cb = clauses@;
                let ghost vb = variables@;
                let ghost f0 = f;
                match add_clause(&mut clauses, &mut variables, &mut queue, &w, w.len() - 1, qty) {
                    None => {
                        proof { lemma_formula_fails(lss, k + 1, lss.len() as int); }
                        return None;
                    },
                    Some(()) => {
                        proof {
                            if clauses@.len() == cb.len() + 1 {
                                let c = clauses@.last();
                                let x = (c.variables@, c.signs@, qty);
                                f = Formula {
                                    nvars: f0.nvars,
                                    qty: f0.qty,
                                    clauses: f0.clauses.push(x),
                                    units: if c.variables@.len() == 1 { f0.units.push((c.variables@[0], c.signs@[0])) } else { f0.units },
                                };
                                assert forall|i: int| 0 <= i < clauses@.len() implies {
                                    let c = #[trigger] clauses@[i];
                                    &&& c.variables@ == f.clauses[i].0
                                    &&& c.signs@ == f.clauses[i].1
                                    &&& c.sat_by == f.clauses[i].2
                                    &&& c.sat_by <= f.nvars
                                    &&& c.free_variables_qty == c.variables@.len()
                                    &&& clause_shape(c, f.nvars)
                                } by {
                                    if i < cb.len() {
                                        assert(clauses@.take(cb.len() as int)[i] == cb[i]);
                                    }
                                }
                                assert forall|u: int, s: bool| 0 <= u < variables@.len() implies #[trigger] occ(variables@[u], s) == occ_indices(f.clauses, u, s, clauses@.len() as int) by {
                                    lemma_occ_indices_push(f0.clauses, x, u, s, cb.len() as int);
                                    assert(f.clauses[cb.len() as int] == x);
                                    assert(has_lit(c, u as usize, s) == holds(x.0, x.1, u, s));
                                }
                            } else {
                                assert forall|i: int| 0 <= i < clauses@.len() implies #[trigger] clauses@[i] == cb[i] by {
                                    assert(clauses@.take(cb.len() as int)[i] == cb[i]);
                                }
                            }
                        }
                    },
                }
            }
            k += 1;
        }
        proof { assert(lss.len() == k); }
        let ghost vfin = variables@;
        let mut i: usize = 0;
        while i < qty
            invariant
                qty == f.qty,
                partial(f, clauses@, variables@, f.units),
                variables@ == vfin,
                i <= qty,
                queue@ == f.units + pure_queue(f, i as int),
            decreases qty - i,
        {
            let ghost q0 = queue@;
            proof {
                assert(occ_count(variables@[i as int], true) == occ(variables@[i as int], true).len());
                assert(occ_count(variables@[i as int], false) == occ(variables@[i as int], false).len());
            }
            if variables[i].pos_occ_not_sat_qty == 0 {
                queue.push((i, false));
            }
            if variables[i].neg_occ_not_sat_qty == 0 {
                queue.push((i, true));
            }
            proof {
                assert(queue@ =~= f.units + pure_queue(f, i + 1));
            }
            i += 1;
        }
        let nclauses = clauses.len();
        let d = DPLL {
            clauses,
            variables,
            queue,
            backtracking_stack: Vec::new(),
            conflict: false,
            unsat: false,
        };
        proof {
            assert(f.clauses.len() == nclauses);
            assert forall|v: int| 0 <= v < d.variables@.len() implies {
                let x = #[trigger] d.variables@[v];
                &&& forall|k: int| 0 <= k < x.pos_occ@.len() ==> #[trigger] x.pos_occ@[k] < d.clauses@.len()
                    && has_lit(d.clauses@[x.pos_occ@[k] as int], v as usize, true)
                &&& forall|k: int| 0 <= k < x.neg_occ@.len() ==> #[trigger] x.neg_occ@[k] < d.clauses@.len()
                    && has_lit(d.clauses@[x.neg_occ@[k] as int], v as usize, false)
                &&& forall|i: int| 0 <= i < d.clauses@.len() && has_lit(d.clauses@[i], v as usize, true) ==> x.pos_occ@.contains(i as usize)
                &&& forall|i: int| 0 <= i < d.clauses@.len() && has_lit(d.clauses@[i], v as usize, false) ==> x.neg_occ@.contains(i as usize)
                &&& x.pos_occ@.no_duplicates()
                &&& x.neg_occ@.no_duplicates()
            } by {
                let x = d.variables@[v];
                let m = d.clauses@.len() as int;
                lemma_occ_indices(f.clauses, v, true, m);
                lemma_occ_indices(f.clauses, v, false, m);
                assert(occ(x, true) == occ_indices(f.clauses, v, true, m));
                assert(occ(x, false) == occ_indices(f.clauses, v, false, m));
                assert forall|q: int| 0 <= q < m implies
                    (#[trigger] has_lit(d.clauses@[q], v as usize, true)) == holds(f.clauses[q].0, f.clauses[q].1, v, true)
                    && has_lit(d.clauses@[q], v as usize, false) == holds(f.clauses[q].0, f.clauses[q].1, v, false) by {
                    let c = d.clauses@[q];
                    assert(c.variables@ == f.clauses[q].0);
                    assert(c.signs@ == f.clauses[q].1);
                }
            }
        }
        Some(d)
    }
}

/// The literal that [`DPLL::get_unit_prop`] picks from a clause with the
/// given variables and signs: its first free literal, or `(0, true)` when
/// none is free.
pub open spec fn unit_choice(vs: Seq<usize>, ss: Seq<bool>, vars: Seq<Variable>, l: (usize, bool)) -> bool {
    ||| exists|j: int| {
        &&& 0 <= j < vs.len()
        &&& vars[vs[j] as int].value == 2
        &&& forall|k: int| 0 <= k < j ==> vars[#[trigger] vs[k] as int].value != 2
        &&& l == (vs[j], ss[j])
    }
    ||| (forall|j: int| 0 <= j < vs.len() ==> vars[#[trigger] vs[j] as int].value != 2) && l == (0usize, true)
}

/// How much the count of `u`'s literal with sign `t` drops when the clause
/// `c` becomes satisfied: one where `u` is free and the clause holds that
/// literal.
pub open spec fn open_drop(s: DPLL, c: Clause, u: int, t: bool) -> int {
    if s.values()[u] == 2 && holds(c.variables@, c.signs@, u, t) { 1 } else { 0 }
}

/// The pure literals that the first `j` literals of clause `c` queue when
/// it becomes satisfied: the negation of each free literal whose count
/// drops from one to zero while the count of its negation is not zero.
pub open spec fn pure_pushes(s: DPLL, c: Clause, j: int) -> Seq<(usize, bool)>
    decreases j,
{
    if j <= 0 {
        Seq::empty()
    } else {
        let u = c.variables@[j - 1];
        let t = c.signs@[j - 1];
        pure_pushes(s, c, j - 1) + if s.values()[u as int] == 2 && s.open_counts(t)[u as int] == 1
            && s.open_counts(!t)[u as int] != 0 { seq![(u, !t)] } else { Seq::empty() }
    }
}

/// A literal is held by the first `j + 1` entries exactly when it is held by
/// the first `j` or is entry `j`.
pub proof fn lemma_holds_step(vs: Seq<usize>, ss: Seq<bool>, j: int, w: int, t: bool)
    requires
        0 <= j < vs.len(),
        ss.len() == vs.len(),
    ensures
        holds(vs.take(j + 1), ss.take(j + 1), w, t) == (holds(vs.take(j), ss.take(j), w, t) || (vs[j] == w && ss[j] == t)),
{
    if holds(vs.take(j + 1), ss.take(j + 1), w, t) {
        let p = choose|p: int| 0 <= p < j + 1 && #[trigger] vs.take(j + 1)[p] == w && ss.take(j + 1)[p] == t;
        if p < j {
            assert(vs.take(j)[p] == w && ss.take(j)[p] == t);
        }
    }
    if holds(vs.take(j), ss.take(j), w, t) {
        let p = choose|p: int| 0 <= p < j && #[trigger] vs.take(j)[p] == w && ss.take(j)[p] == t;
        assert(vs.take(j + 1)[p] == w && ss.take(j + 1)[p] == t);
    }
    if vs[j] == w && ss[j] == t {
        assert(vs.take(j + 1)[j] == w && ss.take(j + 1)[j] == t);
    }
}

impl DPLL {
    /// After a clause became satisfied: each free variable of the clause
    /// counts one clause fewer for the literal it has there, and a literal
    /// whose count drops to zero while its negation still counts queues the
    /// negation as a pure literal. `Err` when the count of a free literal of
    /// the clause is already zero.
    fn pure_lit(&mut self, ci: usize) -> (r: Result<(), Halt>)
        requires
            old(self).ok(),
            ci < old(self).clauses@.len(),
        ensures
            r is Err <==> exists|j: int| {
                &&& 0 <= j < old(self).clauses@[ci as int].variables@.len()
                &&& old(self).values()[old(self).clauses@[ci as int].variables@[j] as int] == 2
                &&& old(self).open_counts(#[trigger] old(self).clauses@[ci as int].signs@[j])[old(self).clauses@[ci as int].variables@[j] as int] == 0
            },
            r is Ok ==> {
                &&& final(self).bookkeeping_of(*old(self))
                &&& final(self).free_counts() == old(self).free_counts()
                &&& final(self).conflict == old(self).conflict
                &&& final(self).queue@ == old(self).queue@ + pure_pushes(*old(self), old(self).clauses@[ci as int],
                        old(self).clauses@[ci as int].variables@.len() as int)
                &&& forall|t: bool| #[trigger] final(self).open_counts(t).len() == old(self).variables@.len()
                &&& forall|u: int, t: bool| 0 <= u < old(self).variables@.len() ==> #[trigger] final(self).open_counts(t)[u]
                        == old(self).open_counts(t)[u] - open_drop(*old(self), old(self).clauses@[ci as int], u, t)
            },
    {
        let ghost s0 = *self;
        let ghost c = s0.clauses@[ci as int];
        proof {
            assert(s0.queue@.take(s0.queue@.len() as int) =~= s0.queue@);
            assert(s0.queue@ + pure_pushes(s0, c, 0) =~= s0.queue@);
            assert(clause_shape(c, s0.variables@.len() as nat));
        }
        let len = self.clauses[ci].variables.len();
        let mut index: usize = 0;
        while index < len
            invariant
                s0 == *old(self),
                s0.ok(),
                ci < s0.clauses@.len(),
                c == s0.clauses@[ci as int],
                clause_shape(c, s0.variables@.len() as nat),
                len == c.variables@.len(),
                index <= len,
                self.bookkeeping_of(s0),
                self.free_counts() == s0.free_counts(),
                self.conflict == s0.conflict,
                self.queue@ == s0.queue@ + pure_pushes(s0, c, index as int),
                forall|j: int| 0 <= j < index ==> !(s0.values()[c.variables@[j] as int] == 2
                    && s0.open_counts(#[trigger] c.signs@[j])[c.variables@[j] as int] == 0),
                forall|t: bool| #[trigger] self.open_counts(t).len() == s0.variables@.len(),
                forall|u: int, t: bool| 0 <= u < s0.variables@.len() ==> #[trigger] self.open_counts(t)[u]
                    == s0.open_counts(t)[u] - (if s0.values()[u] == 2 && holds(c.variables@.take(index as int), c.signs@.take(index as int), u, t) { 1int } else { 0int }),
            decreases len - index,
        {
            proof {
                assert(self.clauses@[ci as int].variables@ == s0.clauses@[ci as int].variables@);
                assert(self.clauses@[ci as int].signs@ == s0.clauses@[ci as int].signs@);
            }
            let u = self.clauses[ci].variables[index];
            let ghost sb = *self;
            let ghost t = c.signs@[index as int];
            proof {
                assert(self.values()[u as int] == self.variables@[u as int].value);
                assert forall|tt: bool| !holds(c.variables@.take(index as int), c.signs@.take(index as int), u as int, tt) by {
                    if holds(c.variables@.take(index as int), c.signs@.take(index as int), u as int, tt) {
                        let p = choose|p: int| 0 <= p < index && #[trigger] c.variables@.take(index as int)[p] == u && c.signs@.take(index as int)[p] == tt;
                        assert(c.variables@[p] == c.variables@[index as int]);
                    }
                }
                assert(sb.open_counts(true)[u as int] == s0.open_counts(true)[u as int]);
                assert(sb.open_counts(false)[u as int] == s0.open_counts(false)[u as int]);
                assert forall|w: int, tt: bool| 0 <= w < s0.variables@.len() implies
                    holds(c.variables@.take(index + 1), c.signs@.take(index + 1), w, tt)
                    == (holds(c.variables@.take(index as int), c.signs@.take(index as int), w, tt) || (w == u as int && tt == t)) by {
                    lemma_holds_step(c.variables@, c.signs@, index as int, w, tt);
                }
            }
            if self.variables[u].value == 2 {
                if self.clauses[ci].signs[index] {
                    if self.variables[u].pos_occ_not_sat_qty == 0 {
                        proof {
                            assert(sb.values()[u as int] == sb.variables@[u as int].value);
                            assert(sb.open_counts(true)[u as int] == sb.variables@[u as int].pos_occ_not_sat_qty);
                            let j = index as int;
                            assert(0 <= j < s0.clauses@[ci as int].variables@.len()
                                && s0.values()[s0.clauses@[ci as int].variables@[j] as int] == 2
                                && s0.open_counts(s0.clauses@[ci as int].signs@[j])[s0.clauses@[ci as int].variables@[j] as int] == 0);
                            assert(exists|j: int| {
                                &&& 0 <= j < s0.clauses@[ci as int].variables@.len()
                                &&& s0.values()[s0.clauses@[ci as int].variables@[j] as int] == 2
                                &&& s0.open_counts(#[trigger] s0.clauses@[ci as int].signs@[j])[s0.clauses@[ci as int].variables@[j] as int] == 0
                            });
                        }
                        return Err(Halt);
                    }
                    self.variables[u].pos_occ_not_sat_qty = self.variables[u].pos_occ_not_sat_qty - 1;
                    if self.variables[u].pos_occ_not_sat_qty == 0 && self.variables[u].neg_occ_not_sat_qty != 0 {
                        self.queue.push((u, false));
                    }
                } else {
                    if self.variables[u].neg_occ_not_sat_qty == 0 {
                        proof {
                            assert(sb.values()[u as int] == sb.variables@[u as int].value);
                            assert(sb.open_counts(false)[u as int] == sb.variables@[u as int].neg_occ_not_sat_qty);
                            let j = index as int;
                            assert(0 <= j < s0.clauses@[ci as int].variables@.len()
                                && s0.values()[s0.clauses@[ci as int].variables@[j] as int] == 2
                                && s0.open_counts(s0.clauses@[ci as int].signs@[j])[s0.clauses@[ci as int].variables@[j] as int] == 0);
                            assert(exists|j: int| {
                                &&& 0 <= j < s0.clauses@[ci as int].variables@.len()
                                &&& s0.values()[s0.clauses@[ci as int].variables@[j] as int] == 2
                                &&& s0.open_counts(#[trigger] s0.clauses@[ci as int].signs@[j])[s0.clauses@[ci as int].variables@[j] as int] == 0
                            });
                        }
                        return Err(Halt);
                    }
                    self.variables[u].neg_occ_not_sat_qty = self.variables[u].neg_occ_not_sat_qty - 1;
                    if self.variables[u].neg_occ_not_sat_qty == 0 && self.variables[u].pos_occ_not_sat_qty != 0 {
                        self.queue.push((u, true));
                    }
                }
                proof {
                    assert(self.values() =~= sb.values());
                    assert(self.marks() =~= sb.marks());
                    assert(self.free_counts() =~= sb.free_counts());
                    assert(self.queue@.take(s0.queue@.len() as int) =~= s0.queue@);
                    assert(self.open_counts(t) =~= sb.open_counts(t).update(u as int, (sb.open_counts(t)[u as int] - 1) as usize));
                    assert(self.open_counts(!t) =~= sb.open_counts(!t));
                    assert(self.queue@ =~= s0.queue@ + pure_pushes(s0, c, index + 1));
                    assert forall|tt: bool| #[trigger] self.open_counts(tt).len() == s0.variables@.len() by {
                        if tt == t {} else { assert(tt == !t); }
                    }
                    assert forall|w: int, tt: bool| 0 <= w < s0.variables@.len() implies #[trigger] self.open_counts(tt)[w]
                        == s0.open_counts(tt)[w] - (if s0.values()[w] == 2 && holds(c.variables@.take(index + 1), c.signs@.take(index + 1), w, tt) { 1int } else { 0int }) by {
                        if tt == t {} else { assert(tt == !t); }
                    }
                }
            } else {
                proof {
                    assert(self.queue@ =~= s0.queue@ + pure_pushes(s0, c, index + 1));
                }
            }
            index += 1;
        }
        proof {
            assert(c.variables@.take(len as int) =~= c.variables@);
            assert(c.signs@.take(len as int) =~= c.signs@);
            assert forall|u: int, t: bool| 0 <= u < s0.variables@.len() implies #[trigger] self.open_counts(t)[u]
                == s0.open_counts(t)[u] - open_drop(s0, c, u, t) by {
                assert(holds(c.variables@.take(len as int), c.signs@.take(len as int), u, t) == holds(c.variables@, c.signs@, u, t));
            }
        }
        Ok(())
    }

    /// The first free literal of the clause, or `(0, true)` when none is free.
    fn get_unit_prop(&self, ci: usize) -> (r: (usize, bool))
        requires
            self.ok(),
            ci < self.clauses@.len(),
        ensures
            unit_choice(self.clauses@[ci as int].variables@, self.clauses@[ci as int].signs@, self.variables@, r),
    {
        proof { assert(clause_shape(self.clauses@[ci as int], self.variables@.len() as nat)); }
        let len = self.clauses[ci].variables.len();
        let mut index: usize = 0;
        while index < len
            invariant
                self.ok(),
                ci < self.clauses@.len(),
                clause_shape(self.clauses@[ci as int], self.variables@.len() as nat),
                len == self.clauses@[ci as int].variables@.len(),
                index <= len,
                forall|k: int| 0 <= k < index ==> self.variables@[#[trigger] self.clauses@[ci as int].variables@[k] as int].value != 2,
            decreases len - index,
        {
            let u = self.clauses[ci].variables[index];
            if self.variables[u].value == 2 {
                let r = (u, self.clauses[ci].signs[index]);
                proof {
                    let vs = self.clauses@[ci as int].variables@;
                    assert(vs[index as int] == u);
                }
                return r;
            }
            index += 1;
        }
        (0, true)
    }

    /// After a literal of an unsatisfied clause became false: one free
    /// literal fewer; none left is a conflict, one left is queued. `Err`
    /// when the clause is unsatisfied and already counts none.
    fn unit_prop(&mut self, ci: usize) -> (r: Result<(), Halt>)
        requires
            old(self).ok(),
            ci < old(self).clauses@.len(),
        ensures
            r is Err <==> old(self).marks()[ci as int] == old(self).variables@.len() && old(self).free_counts()[ci as int] == 0,
            r is Ok ==> {
                &&& final(self).bookkeeping_of(*old(self))
                &&& final(self).open_counts(true) == old(self).open_counts(true)
                &&& final(self).open_counts(false) == old(self).open_counts(false)
                &&& if old(self).marks()[ci as int] == old(self).variables@.len() {
                    &&& final(self).free_counts() == old(self).free_counts().update(ci as int, (old(self).free_counts()[ci as int] - 1) as usize)
                    &&& final(self).conflict == (old(self).conflict || old(self).free_counts()[ci as int] == 1)
                    &&& if old(self).free_counts()[ci as int] == 2 {
                        exists|l: (usize, bool)| unit_choice(old(self).clauses@[ci as int].variables@, old(self).clauses@[ci as int].signs@,
                            old(self).variables@, l) && final(self).queue@ == old(self).queue@.push(l)
                    } else {
                        final(self).queue@ == old(self).queue@
                    }
                } else {
                    &&& final(self).free_counts() == old(self).free_counts()
                    &&& final(self).conflict == old(self).conflict
                    &&& final(self).queue@ == old(self).queue@
                }
            },
    {
        let ghost s0 = *self;
        proof {
            assert(s0.marks()[ci as int] == s0.clauses@[ci as int].sat_by);
            assert(s0.free_counts()[ci as int] == s0.clauses@[ci as int].free_variables_qty);
        }
        if self.clauses[ci].sat_by == self.variables.len() {
            if self.clauses[ci].free_variables_qty == 0 {
                return Err(Halt);
            }
            self.clauses[ci].free_variables_qty = self.clauses[ci].free_variables_qty - 1;
            proof {
                assert(self.marks() =~= s0.marks());
                assert(self.values() =~= s0.values());
                assert(self.same_formula(s0));
                assert(self.queue@.take(s0.queue@.len() as int) =~= s0.queue@);
                assert(self.free_counts() =~= s0.free_counts().update(ci as int, (s0.free_counts()[ci as int] - 1) as usize));
                assert(self.open_counts(true) =~= s0.open_counts(true));
                assert(self.open_counts(false) =~= s0.open_counts(false));
                lemma_bookkeeping(s0, *self);
            }
            if self.clauses[ci].free_variables_qty == 0 {
                self.conflict = true;
            } else if self.clauses[ci].free_variables_qty == 1 {
                let ghost sb = *self;
                let lit = self.get_unit_prop(ci);
                self.queue.push(lit);
                proof {
                    assert(sb.clauses@[ci as int].variables@ == s0.clauses@[ci as int].variables@);
                    assert(sb.clauses@[ci as int].signs@ == s0.clauses@[ci as int].signs@);
                    assert(unit_choice(s0.clauses@[ci as int].variables@, s0.clauses@[ci as int].signs@, s0.variables@, lit));
                }
            }
            proof {
                assert(self.queue@.take(s0.queue@.len() as int) =~= s0.queue@);
            }
        }
        proof { assert(self.queue@.take(s0.queue@.len() as int) =~= s0.queue@); }
        Ok(())
    }
}

/// Does `c` occur among the first `i` entries of `s`?
pub open spec fn in_prefix(s: Seq<usize>, i: int, c: int) -> bool {
    exists|k: int| 0 <= k < i && #[trigger] s[k] == c
}

/// How many of `0 .. k` satisfy `p`.
pub open spec fn count_where(p: spec_fn(int) -> bool, k: int) -> nat
    decreases k,
{
    if k <= 0 { 0 } else { count_where(p, k - 1) + if p(k - 1) { 1nat } else { 0nat } }
}

/// Predicates that agree below `k` count alike.
pub proof fn lemma_count_where_ext(p: spec_fn(int) -> bool, q: spec_fn(int) -> bool, k: int)
    requires
        forall|c: int| 0 <= c < k ==> #[trigger] p(c) == q(c),
    ensures
        count_where(p, k) == count_where(q, k),
    decreases k,
{
    if k > 0 {
        lemma_count_where_ext(p, q, k - 1);
    }
}

/// A predicate that holds wherever another does counts at least as many.
pub proof fn lemma_count_where_mono(p: spec_fn(int) -> bool, q: spec_fn(int) -> bool, k: int)
    requires
        forall|c: int| 0 <= c < k && #[trigger] p(c) ==> q(c),
    ensures
        count_where(p, k) <= count_where(q, k),
    decreases k,
{
    if k > 0 {
        lemma_count_where_mono(p, q, k - 1);
    }
}

/// Adding one index `x` below `k` to a predicate counts one more.
pub proof fn lemma_count_where_add(p: spec_fn(int) -> bool, q: spec_fn(int) -> bool, k: int, x: int)
    requires
        0 <= x < k,
        !p(x),
        q(x),
        forall|c: int| 0 <= c < k && c != x ==> #[trigger] p(c) == q(c),
    ensures
        count_where(q, k) == count_where(p, k) + 1,
    decreases k,
{
    if k - 1 > x {
        lemma_count_where_add(p, q, k - 1, x);
    } else {
        lemma_count_where_ext(p, q, k - 1);
    }
}

/// The unsatisfied clauses of `s` that hold `v`'s literal with sign `sign`
/// and `u`'s literal with sign `t`, among those that `o`'s first `i`
/// entries name when `pre`, else among all.
pub open spec fn demand_pred(s: DPLL, o: Seq<usize>, i: int, pre: bool, v: usize, sign: bool, u: int, t: bool) -> spec_fn(int) -> bool {
    |c: int| s.marks()[c] == s.variables@.len()
        && (if pre { in_prefix(o, i, c) } else { has_lit(s.clauses@[c], v, sign) })
        && holds(s.clauses@[c].variables@, s.clauses@[c].signs@, u, t)
}

/// How many unsatisfied clauses of `s` hold both `v`'s literal with sign
/// `sign` and `u`'s literal with sign `t`: what satisfying that first literal
/// takes from the count of the second.
pub open spec fn sat_demand(s: DPLL, v: usize, sign: bool, u: int, t: bool) -> nat {
    count_where(demand_pred(s, Seq::empty(), 0, false, v, sign, u, t), s.clauses@.len() as int)
}

/// Satisfying `v`'s literal with sign `sign` fails where a free literal
/// counts fewer unsatisfied clauses than it would lose.
pub open spec fn mark_fails(s: DPLL, v: usize, sign: bool) -> bool {
    exists|u: int, t: bool| 0 <= u < s.variables@.len() && s.values()[u] == 2
        && #[trigger] s.open_counts(t)[u] < sat_demand(s, v, sign, u, t)
}

/// An empty predicate counts nothing.
pub proof fn lemma_count_zero(k: int)
    ensures
        count_where(|c: int| false, k) == 0,
    decreases k,
{
    if k > 0 {
        lemma_count_zero(k - 1);
    }
}

/// One more entry of `o` adds that entry to the prefix.
pub proof fn lemma_in_prefix_step(o: Seq<usize>, i: int, c: int)
    requires
        0 <= i < o.len(),
    ensures
        in_prefix(o, i + 1, c) == (in_prefix(o, i, c) || o[i] as int == c),
{
    if in_prefix(o, i + 1, c) {
        let k = choose|k: int| 0 <= k < i + 1 && #[trigger] o[k] == c;
        if k < i {
            assert(in_prefix(o, i, c));
        }
    }
    if in_prefix(o, i, c) {
        let k = choose|k: int| 0 <= k < i && #[trigger] o[k] == c;
        assert(o[k] == c);
    }
    if o[i] as int == c {
        assert(o[i] == c);
    }
}

/// The clauses that the first `i` entries of `v`'s occurrence list name
/// demand no more than all the clauses of that literal.
pub proof fn lemma_demand_within(s0: DPLL, o: Seq<usize>, i: int, v: usize, sign: bool, u: int, t: bool)
    requires
        s0.ok(),
        v < s0.variables@.len(),
        o == occ(s0.variables@[v as int], sign),
        0 <= i <= o.len(),
    ensures
        count_where(demand_pred(s0, o, i, true, v, sign, u, t), s0.clauses@.len() as int) <= sat_demand(s0, v, sign, u, t),
{
    let x = s0.variables@[v as int];
    assert forall|c: int| 0 <= c < s0.clauses@.len() && #[trigger] demand_pred(s0, o, i, true, v, sign, u, t)(c)
        implies demand_pred(s0, Seq::empty(), 0, false, v, sign, u, t)(c) by {
        let k = choose|k: int| 0 <= k < i && #[trigger] o[k] == c;
        if sign { assert(x.pos_occ@[k] == c); } else { assert(x.neg_occ@[k] == c); }
    }
    lemma_count_where_mono(demand_pred(s0, o, i, true, v, sign, u, t),
        demand_pred(s0, Seq::empty(), 0, false, v, sign, u, t), s0.clauses@.len() as int);
}

impl DPLL {
    /// The clauses of `v`'s literal with sign `s` that are unsatisfied
    /// become satisfied by `v`, and each gives up its free literals' counts.
    /// `Err` when a count would drop below zero (see [`mark_fails`]).
    fn mark_satisfied(&mut self, v: usize, s: bool) -> (r: Result<(), Halt>)
        requires
            old(self).ok(),
            v < old(self).variables@.len(),
        ensures
            r is Ok ==> {
                &&& final(self).ok()
                &&& final(self).same_formula(*old(self))
                &&& final(self).values() == old(self).values()
                &&& final(self).backtracking_stack@ == old(self).backtracking_stack@
                &&& final(self).unsat == old(self).unsat
                &&& old(self).queue@.len() <= final(self).queue@.len()
                &&& final(self).queue@.take(old(self).queue@.len() as int) == old(self).queue@
                &&& final(self).conflict == old(self).conflict
                &&& final(self).marks().len() == old(self).marks().len()
                &&& forall|i: int| 0 <= i < old(self).clauses@.len() ==> #[trigger] final(self).marks()[i] ==
                    (if old(self).marks()[i] == old(self).variables@.len() && has_lit(old(self).clauses@[i], v, s) { v } else { old(self).marks()[i] })
                &&& final(self).free_counts() == old(self).free_counts()
                &&& forall|t: bool| #[trigger] final(self).open_counts(t).len() == old(self).variables@.len()
                &&& forall|u: int, t: bool| 0 <= u < old(self).variables@.len() ==> #[trigger] final(self).open_counts(t)[u]
                        == old(self).open_counts(t)[u] - (if old(self).values()[u] == 2 { sat_demand(*old(self), v, s, u, t) } else { 0 })
            },
            r is Err <==> mark_fails(*old(self), v, s),
    {
        let ghost s0 = *self;
        let ghost o = occ(s0.variables@[v as int], s);
        let n = self.variables.len();
        let nc = self.clauses.len();
        let len = if s { self.variables[v].pos_occ.len() } else { self.variables[v].neg_occ.len() };
        proof {
            assert(s0.queue@.take(s0.queue@.len() as int) =~= s0.queue@);
            assert forall|u: int, t: bool| 0 <= u < n implies
                count_where(demand_pred(s0, o, 0, true, v, s, u, t), nc as int) == 0 by {
                lemma_count_where_ext(demand_pred(s0, o, 0, true, v, s, u, t), |c: int| false, nc as int);
                lemma_count_where_mono(|c: int| false, |c: int| false, nc as int);
                lemma_count_zero(nc as int);
            }
        }
        let mut i: usize = 0;
        while i < len
            invariant
                s0 == *old(self),
                nc == s0.clauses@.len(),
                s0.ok(),
                v < n,
                n == s0.variables@.len(),
                o == occ(s0.variables@[v as int], s),
                len == o.len(),
                i <= len,
                self.ok(),
                self.same_formula(s0),
                self.values() == s0.values(),
                self.backtracking_stack@ == s0.backtracking_stack@,
                self.unsat == s0.unsat,
                s0.queue@.len() <= self.queue@.len(),
                self.queue@.take(s0.queue@.len() as int) == s0.queue@,
                self.conflict == s0.conflict,
                self.free_counts() == s0.free_counts(),
                self.marks().len() == s0.marks().len(),
                forall|c: int| 0 <= c < s0.clauses@.len() ==> #[trigger] self.marks()[c] ==
                    (if s0.marks()[c] == n && in_prefix(o, i as int, c) { v } else { s0.marks()[c] }),
                forall|t: bool| #[trigger] self.open_counts(t).len() == n,
                forall|u: int, t: bool| 0 <= u < n ==> #[trigger] self.open_counts(t)[u] == s0.open_counts(t)[u]
                    - (if s0.values()[u] == 2 { count_where(demand_pred(s0, o, i as int, true, v, s, u, t), nc as int) } else { 0 }),
            decreases len - i,
        {
            proof {
                assert(self.variables@[v as int].pos_occ@ == s0.variables@[v as int].pos_occ@);
                assert(self.variables@[v as int].neg_occ@ == s0.variables@[v as int].neg_occ@);
                let x = s0.variables@[v as int];
                assert(o[i as int] < s0.clauses@.len());
            }
            let ci = if s { self.variables[v].pos_occ[i] } else { self.variables[v].neg_occ[i] };
            proof {
                assert(ci == o[i as int]);
                assert(self.marks()[ci as int] == self.clauses@[ci as int].sat_by);
                assert forall|c: int| #[trigger] in_prefix(o, i + 1, c) == (in_prefix(o, i as int, c) || c == ci as int) by {
                    lemma_in_prefix_step(o, i as int, c);
                }
            }
            let ghost sb = *self;
            if self.clauses[ci].sat_by == n {
                self.clauses[ci].sat_by = v;
                proof {
                    assert(self.same_formula(sb));
                    assert(self.marks() =~= sb.marks().update(ci as int, v));
                    assert(self.values() =~= sb.values());
                    assert(self.free_counts() =~= sb.free_counts());
                    assert(self.open_counts(true) =~= sb.open_counts(true));
                    assert(self.open_counts(false) =~= sb.open_counts(false));
                    lemma_same_formula_shape(sb, *self);
                    assert forall|c: int| 0 <= c < self.clauses@.len() implies (#[trigger] self.clauses@[c]).sat_by <= n by {
                        assert(self.marks()[c] == self.clauses@[c].sat_by);
                        assert(sb.marks()[c] == sb.clauses@[c].sat_by);
                    }
                    assert forall|u: int| 0 <= u < n implies (#[trigger] self.variables@[u]).value <= 2 by {
                        assert(self.values()[u] == sb.values()[u]);
                    }
                }
                let ghost sc = *self;
                proof {
                    assert(sc.clauses@[ci as int].variables@ == s0.clauses@[ci as int].variables@);
                    assert(sc.clauses@[ci as int].signs@ == s0.clauses@[ci as int].signs@);
                    assert(s0.marks()[ci as int] == n && !in_prefix(o, i as int, ci as int));
                }
                let res = self.pure_lit(ci);
                if res.is_err() {
                    proof {
                        let c = sc.clauses@[ci as int];
                        let j = choose|j: int| {
                            &&& 0 <= j < c.variables@.len()
                            &&& sc.values()[c.variables@[j] as int] == 2
                            &&& sc.open_counts(#[trigger] c.signs@[j])[c.variables@[j] as int] == 0
                        };
                        let u = c.variables@[j] as int;
                        let t = c.signs@[j];
                        assert(clause_shape(s0.clauses@[ci as int], n as nat));
                        assert(holds(s0.clauses@[ci as int].variables@, s0.clauses@[ci as int].signs@, u, t));
                        lemma_count_where_add(demand_pred(s0, o, i as int, true, v, s, u, t),
                            demand_pred(s0, o, i + 1, true, v, s, u, t), nc as int, ci as int);
                        lemma_demand_within(s0, o, i + 1, v, s, u, t);
                        assert(s0.open_counts(t)[u] < sat_demand(s0, v, s, u, t));
                        assert(mark_fails(s0, v, s));
                    }
                    return Err(Halt);
                }
                proof {
                    lemma_bookkeeping(sc, *self);
                    assert forall|u: int, t: bool| 0 <= u < n implies #[trigger] self.open_counts(t)[u] == s0.open_counts(t)[u]
                        - (if s0.values()[u] == 2 { count_where(demand_pred(s0, o, i + 1, true, v, s, u, t), nc as int) } else { 0 }) by {
                        if holds(s0.clauses@[ci as int].variables@, s0.clauses@[ci as int].signs@, u, t) {
                            lemma_count_where_add(demand_pred(s0, o, i as int, true, v, s, u, t),
                                demand_pred(s0, o, i + 1, true, v, s, u, t), nc as int, ci as int);
                        } else {
                            lemma_count_where_ext(demand_pred(s0, o, i as int, true, v, s, u, t),
                                demand_pred(s0, o, i + 1, true, v, s, u, t), nc as int);
                        }
                    }
                }
            } else {
                proof {
                    assert forall|u: int, t: bool| 0 <= u < n implies
                        count_where(demand_pred(s0, o, i + 1, true, v, s, u, t), nc as int)
                        == count_where(demand_pred(s0, o, i as int, true, v, s, u, t), nc as int) by {
                        lemma_count_where_ext(demand_pred(s0, o, i as int, true, v, s, u, t),
                            demand_pred(s0, o, i + 1, true, v, s, u, t), nc as int);
                    }
                }
            }
            proof {
                assert forall|c: int| 0 <= c < s0.clauses@.len() implies #[trigger] self.marks()[c] ==
                    (if s0.marks()[c] == n && in_prefix(o, i + 1, c) { v } else { s0.marks()[c] }) by {
                    if c == ci as int {
                        assert(in_prefix(o, i + 1, c));
                    }
                }
            }
            i += 1;
        }
        proof {
            let x = s0.variables@[v as int];
            assert forall|c: int| 0 <= c < s0.clauses@.len() implies in_prefix(o, len as int, c) == has_lit(s0.clauses@[c], v, s) by {
                if in_prefix(o, len as int, c) {
                    let k = choose|k: int| 0 <= k < len && #[trigger] o[k] == c;
                    if s { assert(x.pos_occ@[k] == c); } else { assert(x.neg_occ@[k] == c); }
                }
                if has_lit(s0.clauses@[c], v, s) {
                    if s { assert(x.pos_occ@.contains(c as usize)); } else { assert(x.neg_occ@.contains(c as usize)); }
                    let k = choose|k: int| 0 <= k < o.len() && o[k] == c as usize;
                    assert(in_prefix(o, len as int, c));
                }
            }
            assert forall|c: int| 0 <= c < s0.clauses@.len() implies #[trigger] self.marks()[c] ==
                (if s0.marks()[c] == n && has_lit(s0.clauses@[c], v, s) { v } else { s0.marks()[c] }) by {
                assert(in_prefix(o, len as int, c) == has_lit(s0.clauses@[c], v, s));
            }
            assert forall|u: int, t: bool| 0 <= u < n implies
                count_where(demand_pred(s0, o, len as int, true, v, s, u, t), nc as int) == sat_demand(s0, v, s, u, t) by {
                lemma_count_where_ext(demand_pred(s0, o, len as int, true, v, s, u, t),
                    demand_pred(s0, Seq::empty(), 0, false, v, s, u, t), nc as int);
            }
            if mark_fails(s0, v, s) {
                let (u, t) = choose|u: int, t: bool| 0 <= u < s0.variables@.len() && s0.values()[u] == 2
                    && #[trigger] s0.open_counts(t)[u] < sat_demand(s0, v, s, u, t);
                assert(self.open_counts(t)[u] >= 0);
            }
        }
        Ok(())
    }

    /// The clauses of `v`'s literal with sign `s` each lose a free literal
    /// (see [`DPLL::unit_prop`]): `Err` when an unsatisfied clause would
    /// count fewer than zero.
    fn falsify(&mut self, v: usize, s: bool) -> (r: Result<(), Halt>)
        requires
            old(self).ok(),
            v < old(self).variables@.len(),
        ensures
            r is Err <==> falsify_fails(*old(self), occ(old(self).variables@[v as int], s)),
            r is Ok ==> {
                &&& final(self).bookkeeping_of(*old(self))
                &&& final(self).open_counts(true) == old(self).open_counts(true)
                &&& final(self).open_counts(false) == old(self).open_counts(false)
                &&& falsified(*old(self), *final(self), occ(old(self).variables@[v as int], s),
                        occ(old(self).variables@[v as int], s).len() as int)
                &&& final(self).conflict == (old(self).conflict
                        || emptied(*old(self), *final(self), occ(old(self).variables@[v as int], s),
                            occ(old(self).variables@[v as int], s).len() as int))
            },
    {
        let ghost s0 = *self;
        let ghost o = occ(s0.variables@[v as int], s);
        let len = if s { self.variables[v].pos_occ.len() } else { self.variables[v].neg_occ.len() };
        proof {
            assert(s0.queue@.take(s0.queue@.len() as int) =~= s0.queue@);
            assert(s0.free_counts().len() == s0.clauses@.len());
        }
        let mut i: usize = 0;
        while i < len
            invariant
                s0 == *old(self),
                s0.ok(),
                v < s0.variables@.len(),
                o == occ(s0.variables@[v as int], s),
                len == o.len(),
                i <= len,
                self.ok(),
                self.bookkeeping_of(s0),
                self.open_counts(true) == s0.open_counts(true),
                self.open_counts(false) == s0.open_counts(false),
                falsified(s0, *self, o, i as int),
                forall|k: int| 0 <= k < i ==> !(s0.marks()[o[k] as int] == s0.variables@.len()
                    && #[trigger] s0.free_counts()[o[k] as int] <= count_in(o, k, o[k] as int)),
                self.conflict == (s0.conflict || emptied(s0, *self, o, i as int)),
            decreases len - i,
        {
            proof {
                assert(self.variables@[v as int].pos_occ@ == s0.variables@[v as int].pos_occ@);
                assert(self.variables@[v as int].neg_occ@ == s0.variables@[v as int].neg_occ@);
                let x = s0.variables@[v as int];
                assert(o[i as int] < s0.clauses@.len());
            }
            let ci = if s { self.variables[v].pos_occ[i] } else { self.variables[v].neg_occ[i] };
            let ghost sb = *self;
            proof {
                assert(ci == o[i as int]);
                assert(sb.marks()[ci as int] == s0.marks()[ci as int]);
                lemma_count_in_step(o, i as int);
            }
            let res = self.unit_prop(ci);
            if res.is_err() {
                proof {
                    assert(s0.marks()[o[i as int] as int] == s0.variables@.len()
                        && s0.free_counts()[o[i as int] as int] <= count_in(o, i as int, o[i as int] as int));
                }
                return Err(Halt);
            }
            proof {
                lemma_bookkeeping(sb, *self);
                assert(self.queue@.take(s0.queue@.len() as int) =~= s0.queue@) by {
                    assert(self.queue@.take(sb.queue@.len() as int) == sb.queue@);
                    assert(sb.queue@.take(s0.queue@.len() as int) == s0.queue@);
                }
                let n = s0.variables@.len();
                assert forall|c: int| 0 <= c < s0.free_counts().len() implies #[trigger] self.free_counts()[c] as int ==
                    if s0.marks()[c] == n { s0.free_counts()[c] - count_in(o, i + 1, c) } else { s0.free_counts()[c] as int } by {
                    assert(sb.marks()[c] == s0.marks()[c]);
                    assert(count_in(o, i + 1, c) == count_in(o, i as int, c) + if o[i as int] as int == c { 1nat } else { 0nat });
                    if c == ci as int {
                    } else {
                        assert(self.free_counts()[c] == sb.free_counts()[c]);
                    }
                }
                assert(falsified(s0, *self, o, i + 1));
                if s0.marks()[ci as int] == n {
                    assert(sb.free_counts()[ci as int] > 0);
                    if emptied(s0, *self, o, i + 1) {
                        let k = choose|k: int| 0 <= k < i + 1 && s0.marks()[o[k] as int] == n && #[trigger] self.free_counts()[o[k] as int] == 0;
                        if o[k] != ci && k < i {
                            assert(emptied(s0, sb, o, i as int));
                        }
                    }
                    if emptied(s0, sb, o, i as int) {
                        let k = choose|k: int| 0 <= k < i && s0.marks()[o[k] as int] == n && #[trigger] sb.free_counts()[o[k] as int] == 0;
                        assert(o[k] != ci);
                        assert(self.free_counts()[o[k] as int] == 0);
                        assert(emptied(s0, *self, o, i + 1));
                    }
                    if sb.free_counts()[ci as int] == 1 {
                        assert(self.free_counts()[o[i as int] as int] == 0);
                        assert(emptied(s0, *self, o, i + 1));
                    }
                } else {
                    assert(self.free_counts() == sb.free_counts());
                    if emptied(s0, *self, o, i + 1) {
                        let k = choose|k: int| 0 <= k < i + 1 && s0.marks()[o[k] as int] == n && #[trigger] self.free_counts()[o[k] as int] == 0;
                        assert(k < i);
                        assert(emptied(s0, sb, o, i as int));
                    }
                    if emptied(s0, sb, o, i as int) {
                        let k = choose|k: int| 0 <= k < i && s0.marks()[o[k] as int] == n && #[trigger] sb.free_counts()[o[k] as int] == 0;
                        assert(emptied(s0, *self, o, i + 1));
                    }
                }
            }
            i += 1;
        }
        Ok(())
    }
}

/// How often `c` occurs among the first `k` entries of `o`.
pub open spec fn count_in(o: Seq<usize>, k: int, c: int) -> nat
    decreases k,
{
    if k <= 0 { 0 } else { count_in(o, k - 1, c) + if o[k - 1] as int == c { 1nat } else { 0nat } }
}

/// One more entry counts its own clause once more.
pub proof fn lemma_count_in_step(o: Seq<usize>, k: int)
    requires
        0 <= k,
    ensures
        forall|c: int| #[trigger] count_in(o, k + 1, c) == count_in(o, k, c) + if o[k] as int == c { 1nat } else { 0nat },
{
}

/// Falsifying along the clause list `o` fails where an unsatisfied clause is
/// listed more often than it has free literals.
pub open spec fn falsify_fails(s: DPLL, o: Seq<usize>) -> bool {
    exists|k: int| 0 <= k < o.len() && s.marks()[o[k] as int] == s.variables@.len()
        && #[trigger] s.free_counts()[o[k] as int] <= count_in(o, k, o[k] as int)
}

/// `b`'s counts of free literals are `a`'s, less one for each of the first
/// `k` entries of `o` that is an unsatisfied clause.
pub open spec fn falsified(a: DPLL, b: DPLL, o: Seq<usize>, k: int) -> bool {
    &&& b.free_counts().len() == a.free_counts().len()
    &&& forall|c: int| 0 <= c < a.free_counts().len() ==> #[trigger] b.free_counts()[c] as int ==
        if a.marks()[c] == a.variables@.len() { a.free_counts()[c] - count_in(o, k, c) } else { a.free_counts()[c] as int }
}

/// One of the first `k` entries of `o` is an unsatisfied clause of `a` with no
/// free literal left in `b`.
pub open spec fn emptied(a: DPLL, b: DPLL, o: Seq<usize>, k: int) -> bool {
    exists|j: int| 0 <= j < k && a.marks()[o[j] as int] == a.variables@.len() && #[trigger] b.free_counts()[o[j] as int] == 0
}

/// A sound state stays sound when a free variable gets a value and some
/// unsatisfied clauses holding it with that value are marked by it.
proof fn lemma_assign_sound(s0: DPLL, s1: DPLL, v: usize, val: bool)
    requires
        s0.ok(),
        s0.sound(),
        v < s0.variables@.len(),
        s0.values()[v as int] == 2,
        s1.same_formula(s0),
        s1.values() == s0.values().update(v as int, want(val)),
        s1.marks().len() == s0.marks().len(),
        forall|i: int| 0 <= i < s0.clauses@.len() ==> #[trigger] s1.marks()[i] == s0.marks()[i]
            || (s0.marks()[i] == s0.variables@.len() && s1.marks()[i] == v && has_lit(s0.clauses@[i], v, val)),
    ensures
        s1.sound(),
{
    lemma_same_formula_shape(s0, s1);
    let n = s0.variables@.len();
    assert forall|i: int| 0 <= i < s1.clauses@.len() && (#[trigger] s1.clauses@[i]).sat_by < s1.variables@.len() implies {
        let c = s1.clauses@[i];
        let x = s1.variables@[c.sat_by as int].value;
        x <= 1 && has_lit(c, c.sat_by, x == 1)
    } by {
        assert(s1.marks()[i] == s1.clauses@[i].sat_by);
        assert(s0.marks()[i] == s0.clauses@[i].sat_by);
        let m = s1.clauses@[i].sat_by;
        assert(s1.values()[m as int] == s1.variables@[m as int].value);
        if s1.marks()[i] == s0.marks()[i] {
            assert(s0.values()[m as int] == s0.variables@[m as int].value);
            assert(s0.clauses@[i].sat_by < n);
            if m == v {
                assert(false);
            }
        }
    }
}

/// Satisfying `v`'s literal with sign `sign` fails, once `v` has a value,
/// where another free literal counts fewer unsatisfied clauses than it would
/// lose.
pub open spec fn mark_fails_except(s: DPLL, v: usize, sign: bool) -> bool {
    exists|u: int, t: bool| 0 <= u < s.variables@.len() && u != v && s.values()[u] == 2
        && #[trigger] s.open_counts(t)[u] < sat_demand(s, v, sign, u, t)
}

/// What satisfying a literal demands depends on the formula and the marks.
pub proof fn lemma_sat_demand_frame(a: DPLL, b: DPLL, v: usize, sign: bool, u: int, t: bool)
    requires
        a.shape_ok(),
        b.same_formula(a),
        b.marks() == a.marks(),
    ensures
        sat_demand(b, v, sign, u, t) == sat_demand(a, v, sign, u, t),
{
    assert forall|c: int| 0 <= c < a.clauses@.len() implies
        #[trigger] demand_pred(a, Seq::empty(), 0, false, v, sign, u, t)(c) == demand_pred(b, Seq::empty(), 0, false, v, sign, u, t)(c) by {
        assert(b.marks()[c] == a.marks()[c]);
        assert(b.clauses@[c].variables@ == a.clauses@[c].variables@);
        assert(b.clauses@[c].signs@ == a.clauses@[c].signs@);
    }
    lemma_count_where_ext(demand_pred(a, Seq::empty(), 0, false, v, sign, u, t),
        demand_pred(b, Seq::empty(), 0, false, v, sign, u, t), a.clauses@.len() as int);
}

/// [`lemma_sat_demand_frame`] for every literal at once.
pub proof fn lemma_sat_demand_frame_all(a: DPLL, b: DPLL, v: usize, sign: bool)
    requires
        a.shape_ok(),
        b.same_formula(a),
        b.marks() == a.marks(),
    ensures
        forall|u: int, t: bool| #[trigger] sat_demand(b, v, sign, u, t) == sat_demand(a, v, sign, u, t),
{
    assert forall|u: int, t: bool| #[trigger] sat_demand(b, v, sign, u, t) == sat_demand(a, v, sign, u, t) by {
        lemma_sat_demand_frame(a, b, v, sign, u, t);
    }
}

/// A clause that `o` does not name is counted nowhere in it.
pub proof fn lemma_count_in_absent(o: Seq<usize>, k: int, c: int)
    requires
        0 <= k <= o.len(),
        !in_prefix(o, k, c),
    ensures
        count_in(o, k, c) == 0,
    decreases k,
{
    if k > 0 {
        if o[k - 1] as int == c {
            assert(in_prefix(o, k, c));
        }
        if in_prefix(o, k - 1, c) {
            let j = choose|j: int| 0 <= j < k - 1 && #[trigger] o[j] == c;
            assert(in_prefix(o, k, c));
        }
        lemma_count_in_absent(o, k - 1, c);
    }
}

/// Once `v` has a value, satisfying its literal fails as
/// [`mark_fails_except`] says of the state before.
pub proof fn lemma_mark_fails_frame(a: DPLL, b: DPLL, v: usize, sign: bool)
    requires
        a.shape_ok(),
        v < a.variables@.len(),
        b.same_formula(a),
        b.marks() == a.marks(),
        b.open_counts(true) == a.open_counts(true),
        b.open_counts(false) == a.open_counts(false),
        b.values() == a.values().update(v as int, want(sign)),
    ensures
        mark_fails(b, v, sign) == mark_fails_except(a, v, sign),
{
    if mark_fails(b, v, sign) {
        let (u, t) = choose|u: int, t: bool| 0 <= u < b.variables@.len() && b.values()[u] == 2
            && #[trigger] b.open_counts(t)[u] < sat_demand(b, v, sign, u, t);
        lemma_sat_demand_frame(a, b, v, sign, u, t);
        if t { assert(b.open_counts(true)[u] == a.open_counts(true)[u]); } else { assert(b.open_counts(false)[u] == a.open_counts(false)[u]); }
        assert(u != v);
        assert(mark_fails_except(a, v, sign));
    }
    if mark_fails_except(a, v, sign) {
        let (u, t) = choose|u: int, t: bool| 0 <= u < a.variables@.len() && u != v && a.values()[u] == 2
            && #[trigger] a.open_counts(t)[u] < sat_demand(a, v, sign, u, t);
        lemma_sat_demand_frame(a, b, v, sign, u, t);
        if t { assert(b.open_counts(true)[u] == a.open_counts(true)[u]); } else { assert(b.open_counts(false)[u] == a.open_counts(false)[u]); }
        assert(mark_fails(b, v, sign));
    }
}

/// Whether falsifying along `o` fails depends on the marks and free-literal
/// counts of the clauses `o` names.
pub proof fn lemma_falsify_fails_frame(a: DPLL, b: DPLL, o: Seq<usize>)
    requires
        b.variables@.len() == a.variables@.len(),
        forall|k: int| 0 <= k < o.len() ==> b.marks()[#[trigger] o[k] as int] == a.marks()[o[k] as int]
            && b.free_counts()[o[k] as int] == a.free_counts()[o[k] as int],
    ensures
        falsify_fails(b, o) == falsify_fails(a, o),
{
    if falsify_fails(b, o) {
        let k = choose|k: int| 0 <= k < o.len() && b.marks()[o[k] as int] == b.variables@.len()
            && #[trigger] b.free_counts()[o[k] as int] <= count_in(o, k, o[k] as int);
        assert(a.free_counts()[o[k] as int] <= count_in(o, k, o[k] as int));
    }
    if falsify_fails(a, o) {
        let k = choose|k: int| 0 <= k < o.len() && a.marks()[o[k] as int] == a.variables@.len()
            && #[trigger] a.free_counts()[o[k] as int] <= count_in(o, k, o[k] as int);
        assert(b.free_counts()[o[k] as int] <= count_in(o, k, o[k] as int));
    }
}

/// Releasing clause `ci` from `v` fails where a counter is already the
/// largest machine word: when `v` marks it, the count of a free literal of
/// the clause; when it is unsatisfied, its count of free literals.
pub open spec fn unset_fails(s: DPLL, ci: int, v: usize) -> bool {
    let c = s.clauses@[ci];
    if s.marks()[ci] == v {
        exists|k: int| 0 <= k < c.variables@.len() && s.values()[c.variables@[k] as int] == 2
            && s.open_counts(#[trigger] c.signs@[k])[c.variables@[k] as int] == usize::MAX
    } else {
        s.marks()[ci] == s.variables@.len() && s.free_counts()[ci] == usize::MAX
    }
}

/// The clauses that `v` marks and that hold both `v`'s literal with sign
/// `sign` and `u`'s literal with sign `t`, among those that `o`'s first `i`
/// entries name when `pre`, else among all.
pub open spec fn release_pred(s: DPLL, o: Seq<usize>, i: int, pre: bool, v: usize, sign: bool, u: int, t: bool) -> spec_fn(int) -> bool {
    |c: int| s.marks()[c] == v
        && (if pre { in_prefix(o, i, c) } else { has_lit(s.clauses@[c], v, sign) })
        && holds(s.clauses@[c].variables@, s.clauses@[c].signs@, u, t)
}

/// How many clauses that `v` marks hold both `v`'s literal with sign `sign`
/// and `u`'s literal with sign `t`: what releasing them adds to the count of
/// the second.
pub open spec fn release_demand(s: DPLL, v: usize, sign: bool, u: int, t: bool) -> nat {
    count_where(release_pred(s, Seq::empty(), 0, false, v, sign, u, t), s.clauses@.len() as int)
}

/// Releasing the clauses of `v`'s literal with sign `sign` fails where an
/// unsatisfied one already counts the largest machine word of free
/// literals, or a free literal's count would pass it.
pub open spec fn release_fails(s: DPLL, v: usize, sign: bool) -> bool {
    ||| exists|c: int| 0 <= c < s.clauses@.len() && has_lit(s.clauses@[c], v, sign)
        && s.marks()[c] == s.variables@.len() && #[trigger] s.free_counts()[c] == usize::MAX
    ||| exists|u: int, t: bool| 0 <= u < s.variables@.len() && s.values()[u] == 2
        && #[trigger] s.open_counts(t)[u] + release_demand(s, v, sign, u, t) > usize::MAX
}

/// The clauses that the first `i` entries of `v`'s occurrence list name
/// add no more than all the clauses of that literal.
pub proof fn lemma_release_within(s0: DPLL, o: Seq<usize>, i: int, v: usize, sign: bool, u: int, t: bool)
    requires
        s0.ok(),
        v < s0.variables@.len(),
        o == occ(s0.variables@[v as int], sign),
        0 <= i <= o.len(),
    ensures
        count_where(release_pred(s0, o, i, true, v, sign, u, t), s0.clauses@.len() as int) <= release_demand(s0, v, sign, u, t),
{
    let x = s0.variables@[v as int];
    assert forall|c: int| 0 <= c < s0.clauses@.len() && #[trigger] release_pred(s0, o, i, true, v, sign, u, t)(c)
        implies release_pred(s0, Seq::empty(), 0, false, v, sign, u, t)(c) by {
        let k = choose|k: int| 0 <= k < i && #[trigger] o[k] == c;
        if sign { assert(x.pos_occ@[k] == c); } else { assert(x.neg_occ@[k] == c); }
    }
    lemma_count_where_mono(release_pred(s0, o, i, true, v, sign, u, t),
        release_pred(s0, Seq::empty(), 0, false, v, sign, u, t), s0.clauses@.len() as int);
}

/// What releasing depends on: the formula, and the marks of the clauses
/// that hold the literal.
pub proof fn lemma_release_demand_frame(a: DPLL, b: DPLL, v: usize, sign: bool, u: int, t: bool)
    requires
        a.shape_ok(),
        b.same_formula(a),
        b.marks().len() == a.marks().len(),
        forall|c: int| 0 <= c < a.clauses@.len() && has_lit(a.clauses@[c], v, sign) ==> #[trigger] b.marks()[c] == a.marks()[c],
    ensures
        release_demand(b, v, sign, u, t) == release_demand(a, v, sign, u, t),
{
    lemma_same_formula_shape(a, b);
    assert forall|c: int| 0 <= c < a.clauses@.len() implies
        #[trigger] release_pred(a, Seq::empty(), 0, false, v, sign, u, t)(c) == release_pred(b, Seq::empty(), 0, false, v, sign, u, t)(c) by {
        assert(b.clauses@[c].variables@ == a.clauses@[c].variables@);
        assert(b.clauses@[c].signs@ == a.clauses@[c].signs@);
        assert(has_lit(b.clauses@[c], v, sign) == has_lit(a.clauses@[c], v, sign));
    }
    lemma_count_where_ext(release_pred(a, Seq::empty(), 0, false, v, sign, u, t),
        release_pred(b, Seq::empty(), 0, false, v, sign, u, t), a.clauses@.len() as int);
}

/// Making `v` free again fails where an unsatisfied clause holding one of
/// its literals already counts the largest machine word of free literals,
/// or where the count of a literal that is free afterwards would pass it.
pub open spec fn unset_value_fails(s: DPLL, v: usize) -> bool {
    ||| exists|c: int| 0 <= c < s.clauses@.len() && (has_lit(s.clauses@[c], v, true) || has_lit(s.clauses@[c], v, false))
        && s.marks()[c] == s.variables@.len() && #[trigger] s.free_counts()[c] == usize::MAX
    ||| exists|u: int, t: bool| 0 <= u < s.variables@.len() && (s.values()[u] == 2 || u == v)
        && #[trigger] s.open_counts(t)[u] + release_demand(s, v, true, u, t) + release_demand(s, v, false, u, t) > usize::MAX
}

impl DPLL {
    /// Gives variable `v` the value that makes its literal with sign `value`
    /// true, if it is free: the clauses that literal satisfies are marked,
    /// the clauses of the opposite literal lose a free literal, and the trail
    /// records the assignment. A variable that already has the other value
    /// raises a conflict. `Err` when a count would drop below zero.
    fn set_value(&mut self, v: usize, value: bool, forced: bool) -> (r: Result<(), Halt>)
        requires
            old(self).ok(),
            v < old(self).variables@.len(),
        ensures
            r is Err <==> old(self).variables@[v as int].value == 2 && (mark_fails_except(*old(self), v, value)
                || falsify_fails(*old(self), occ(old(self).variables@[v as int], !value))),
            r is Ok ==> {
                &&& final(self).ok()
                &&& final(self).same_formula(*old(self))
                &&& final(self).unsat == old(self).unsat
                &&& (old(self).sound() ==> final(self).sound())
                &&& old(self).queue@.len() <= final(self).queue@.len()
                &&& final(self).queue@.take(old(self).queue@.len() as int) == old(self).queue@
                &&& (old(self).conflict ==> final(self).conflict)
                &&& final(self).marks().len() == old(self).marks().len()
                &&& forall|t: bool| #[trigger] final(self).open_counts(t).len() == old(self).variables@.len()
                &&& old(self).variables@[v as int].value == 2 ==> {
                    &&& final(self).values() == old(self).values().update(v as int, want(value))
                    &&& forall|u: int, t: bool| 0 <= u < old(self).variables@.len() ==> #[trigger] final(self).open_counts(t)[u]
                        == old(self).open_counts(t)[u] - (if old(self).values()[u] == 2 && u != v { sat_demand(*old(self), v, value, u, t) } else { 0 })
                    &&& falsified(*old(self), *final(self), occ(old(self).variables@[v as int], !value),
                        occ(old(self).variables@[v as int], !value).len() as int)
                    &&& final(self).conflict == (old(self).conflict || emptied(*old(self), *final(self),
                        occ(old(self).variables@[v as int], !value), occ(old(self).variables@[v as int], !value).len() as int))
                    &&& final(self).backtracking_stack@ == old(self).backtracking_stack@.push((v, forced))
                    &&& forall|i: int| 0 <= i < old(self).clauses@.len() ==> #[trigger] final(self).marks()[i] ==
                        (if old(self).marks()[i] == old(self).variables@.len() && has_lit(old(self).clauses@[i], v, value) { v } else { old(self).marks()[i] })
                }
                &&& old(self).variables@[v as int].value != 2 ==> {
                    &&& final(self).values() == old(self).values()
                    &&& final(self).marks() == old(self).marks()
                    &&& final(self).free_counts() == old(self).free_counts()
                    &&& final(self).open_counts(true) == old(self).open_counts(true)
                    &&& final(self).open_counts(false) == old(self).open_counts(false)
                    &&& final(self).backtracking_stack@ == old(self).backtracking_stack@
                    &&& final(self).queue@ == old(self).queue@
                    &&& final(self).conflict == (old(self).conflict || old(self).variables@[v as int].value != want(value))
                }
            },
    {
        let ghost s0 = *self;
        proof {
            assert(s0.values()[v as int] == s0.variables@[v as int].value);
            assert(s0.queue@.take(s0.queue@.len() as int) =~= s0.queue@);
        }
        let val: usize = if value { 1 } else { 0 };
        if self.variables[v].value == 2 {
            self.variables[v].value = val;
            let ghost s1 = *self;
            proof {
                assert(s1.values() =~= s0.values().update(v as int, want(value)));
                assert(s1.marks() =~= s0.marks());
                assert(s1.same_formula(s0));
                lemma_same_formula_shape(s0, s1);
                assert forall|u: int| 0 <= u < s1.variables@.len() implies (#[trigger] s1.variables@[u]).value <= 2 by {
                    assert(s1.values()[u] == s1.variables@[u].value);
                    assert(s0.values()[u] == s0.variables@[u].value);
                }
                assert forall|i: int| 0 <= i < s1.clauses@.len() implies (#[trigger] s1.clauses@[i]).sat_by <= s1.variables@.len() by {
                    assert(s1.marks()[i] == s0.marks()[i]);
                }
                if s0.sound() {
                    lemma_assign_sound(s0, s1, v, value);
                }
            }
            let ghost o = occ(s0.variables@[v as int], !value);
            proof {
                assert(s1.open_counts(true) =~= s0.open_counts(true));
                assert(s1.open_counts(false) =~= s0.open_counts(false));
                assert(s1.free_counts() =~= s0.free_counts());
                lemma_mark_fails_frame(s0, s1, v, value);
                lemma_falsify_fails_frame(s0, s1, o);
                assert(s1.variables@[v as int].pos_occ@ == s0.variables@[v as int].pos_occ@);
                assert(s1.variables@[v as int].neg_occ@ == s0.variables@[v as int].neg_occ@);
                assert(occ(s1.variables@[v as int], !value) == o);
            }
            if value {
                let res = self.mark_satisfied(v, true);
                if res.is_err() {
                    return Err(Halt);
                }
                let ghost s2 = *self;
                proof {
                    if s0.sound() { lemma_assign_sound(s0, s2, v, value); }
                    assert(s2.variables@[v as int].neg_occ@ == s0.variables@[v as int].neg_occ@);
                    let x = s0.variables@[v as int];
                    assert forall|k: int| 0 <= k < o.len() implies s2.marks()[#[trigger] o[k] as int] == s1.marks()[o[k] as int]
                        && s2.free_counts()[o[k] as int] == s1.free_counts()[o[k] as int] by {
                        assert(x.neg_occ@[k] == o[k]);
                        assert(has_lit(s0.clauses@[o[k] as int], v, false));
                        assert(clause_shape(s0.clauses@[o[k] as int], s0.variables@.len() as nat));
                        assert(!has_lit(s1.clauses@[o[k] as int], v, true));
                    }
                    lemma_falsify_fails_frame(s1, s2, o);
                }
                self.falsify(v, false)?;
                proof {
                    lemma_bookkeeping(s2, *self);
                    lemma_sat_demand_frame_all(s0, s1, v, value);
                    let n = s0.variables@.len();
                    assert forall|c: int| 0 <= c < s0.free_counts().len() implies #[trigger] self.free_counts()[c] as int ==
                        if s0.marks()[c] == n { s0.free_counts()[c] - count_in(o, o.len() as int, c) } else { s0.free_counts()[c] as int } by {
                        if s2.marks()[c] != s0.marks()[c] {
                            assert(has_lit(s0.clauses@[c], v, true));
                            if in_prefix(o, o.len() as int, c) {
                                let k = choose|k: int| 0 <= k < o.len() && #[trigger] o[k] == c;
                                assert(s2.marks()[o[k] as int] == s1.marks()[o[k] as int]);
                            }
                            lemma_count_in_absent(o, o.len() as int, c);
                        }
                    }
                    if emptied(s2, *self, o, o.len() as int) {
                        let j = choose|j: int| 0 <= j < o.len() && s2.marks()[o[j] as int] == s2.variables@.len() && #[trigger] self.free_counts()[o[j] as int] == 0;
                        assert(s2.marks()[o[j] as int] == s1.marks()[o[j] as int]);
                        assert(emptied(s0, *self, o, o.len() as int));
                    }
                    if emptied(s0, *self, o, o.len() as int) {
                        let j = choose|j: int| 0 <= j < o.len() && s0.marks()[o[j] as int] == s0.variables@.len() && #[trigger] self.free_counts()[o[j] as int] == 0;
                        assert(s2.marks()[o[j] as int] == s1.marks()[o[j] as int]);
                        assert(emptied(s2, *self, o, o.len() as int));
                    }
                }
            } else {
                self.falsify(v, true)?;
                let ghost s2 = *self;
                proof {
                    lemma_bookkeeping(s1, s2);
                    lemma_mark_fails_frame(s0, s2, v, value);
                    lemma_sat_demand_frame_all(s0, s2, v, value);
                }
                self.mark_satisfied(v, false)?;
                proof {
                    assert(emptied(s1, s2, o, o.len() as int) == emptied(s0, *self, o, o.len() as int));
                    assert(self.queue@.take(s0.queue@.len() as int) =~= s0.queue@) by {
                        assert(self.queue@.take(s2.queue@.len() as int) == s2.queue@);
                        assert(s2.queue@.take(s0.queue@.len() as int) == s0.queue@);
                    }
                    if s0.sound() { lemma_assign_sound(s0, *self, v, value); }
                }
            }
            let ghost s3 = *self;
            proof {
                let n = s0.variables@.len();
                assert forall|t: bool| #[trigger] s3.open_counts(t).len() == n by {}
                assert forall|u: int, t: bool| 0 <= u < n implies #[trigger] s3.open_counts(t)[u]
                    == s0.open_counts(t)[u] - (if s0.values()[u] == 2 && u != v { sat_demand(s0, v, value, u, t) } else { 0 }) by {
                    assert(s1.values()[u] == (if u == v { want(value) } else { s0.values()[u] }));
                    if t { assert(s1.open_counts(true)[u] == s0.open_counts(true)[u]); } else { assert(s1.open_counts(false)[u] == s0.open_counts(false)[u]); }
                }
                assert(falsified(s0, s3, o, o.len() as int));
                assert(s3.conflict == (s0.conflict || emptied(s0, s3, o, o.len() as int)));
            }
            self.backtracking_stack.push((v, forced));
            proof {
                assert(self.variables == s3.variables);
                assert(self.clauses == s3.clauses);
                assert forall|t: bool| #[trigger] self.open_counts(t).len() == s0.variables@.len() by {
                    assert(self.open_counts(t) == s3.open_counts(t));
                }
                assert(self.free_counts() == s3.free_counts());
                assert forall|u: int, t: bool| 0 <= u < s0.variables@.len() implies #[trigger] self.open_counts(t)[u]
                    == s0.open_counts(t)[u] - (if s0.values()[u] == 2 && u != v { sat_demand(s0, v, value, u, t) } else { 0 }) by {
                    assert(self.open_counts(t) == s3.open_counts(t));
                }
                assert(falsified(s0, *self, o, o.len() as int));
                assert(emptied(s0, *self, o, o.len() as int) == emptied(s0, s3, o, o.len() as int));
                assert(self.queue@.take(s0.queue@.len() as int) =~= s0.queue@);
                assert(self.values() == s3.values());
                assert(self.marks() == s3.marks());
                assert forall|k: int| 0 <= k < self.backtracking_stack@.len() implies (#[trigger] self.backtracking_stack@[k]).0 < self.variables@.len() by {
                    if k < s3.backtracking_stack@.len() { assert(self.backtracking_stack@[k] == s3.backtracking_stack@[k]); }
                }
            }
            Ok(())
        } else if self.variables[v].value != val {
            self.conflict = true;
            proof {
                assert(self.values() =~= s0.values());
                assert(self.marks() =~= s0.marks());
                assert(self.free_counts() =~= s0.free_counts());
                assert(self.open_counts(true) =~= s0.open_counts(true));
                assert(self.open_counts(false) =~= s0.open_counts(false));
                assert forall|t: bool| #[trigger] self.open_counts(t).len() == s0.variables@.len() by {
                    if t {} else {}
                }
            }
            Ok(())
        } else {
            proof {
                assert forall|t: bool| #[trigger] self.open_counts(t).len() == s0.variables@.len() by {}
            }
            Ok(())
        }
    }

    /// A clause marked by `v` becomes unsatisfied again and its free
    /// literals count it again; an unsatisfied clause gains a free literal.
    /// `Err` when a count to raise is already the largest machine word.
    fn handle_unset_value(&mut self, ci: usize, v: usize) -> (r: Result<(), Halt>)
        requires
            old(self).ok(),
            ci < old(self).clauses@.len(),
            v < old(self).variables@.len(),
        ensures
            r is Err <==> unset_fails(*old(self), ci as int, v),
            r is Ok ==> {
                &&& final(self).ok()
                &&& final(self).same_formula(*old(self))
                &&& final(self).values() == old(self).values()
                &&& final(self).backtracking_stack@ == old(self).backtracking_stack@
                &&& final(self).unsat == old(self).unsat
                &&& final(self).queue@ == old(self).queue@
                &&& final(self).conflict == old(self).conflict
                &&& final(self).marks() == old(self).marks().update(ci as int,
                        if old(self).marks()[ci as int] == v { old(self).variables@.len() as usize } else { old(self).marks()[ci as int] })
                &&& final(self).free_counts() == if old(self).marks()[ci as int] == old(self).variables@.len() {
                        old(self).free_counts().update(ci as int, (old(self).free_counts()[ci as int] + 1) as usize)
                    } else {
                        old(self).free_counts()
                    }
                &&& forall|t: bool| #[trigger] final(self).open_counts(t).len() == old(self).variables@.len()
                &&& forall|u: int, t: bool| 0 <= u < old(self).variables@.len() ==> #[trigger] final(self).open_counts(t)[u]
                        == old(self).open_counts(t)[u] + if old(self).marks()[ci as int] == v {
                            open_drop(*old(self), old(self).clauses@[ci as int], u, t) } else { 0 }
            },
    {
        let ghost s0 = *self;
        let n = self.variables.len();
        proof {
            assert(s0.marks()[ci as int] == s0.clauses@[ci as int].sat_by);
            assert(s0.free_counts()[ci as int] == s0.clauses@[ci as int].free_variables_qty);
        }
        if self.clauses[ci].sat_by == v {
            self.clauses[ci].sat_by = n;
            let ghost s1 = *self;
            let ghost c = s0.clauses@[ci as int];
            proof {
                assert(s1.marks() =~= s0.marks().update(ci as int, n));
                assert(s1.values() =~= s0.values());
                assert(s1.free_counts() =~= s0.free_counts());
                assert(s1.open_counts(true) =~= s0.open_counts(true));
                assert(s1.open_counts(false) =~= s0.open_counts(false));
                assert(s1.same_formula(s0));
                lemma_same_formula_shape(s0, s1);
                assert forall|i: int| 0 <= i < s1.clauses@.len() implies (#[trigger] s1.clauses@[i]).sat_by <= n by {
                    assert(s1.marks()[i] == s1.clauses@[i].sat_by);
                    assert(s0.marks()[i] == s0.clauses@[i].sat_by);
                }
                assert forall|u: int| 0 <= u < n implies (#[trigger] s1.variables@[u]).value <= 2 by {
                    assert(s1.values()[u] == s1.variables@[u].value);
                    assert(s0.values()[u] == s0.variables@[u].value);
                }
                assert(clause_shape(c, n as nat));
            }
            let len = self.clauses[ci].variables.len();
            let mut j: usize = 0;
            while j < len
                invariant
                    s0 == *old(self),
                    s0.ok(),
                    s1.ok(),
                    s0.marks()[ci as int] == v,
                    s1.values() == s0.values(),
                    s1.free_counts() == s0.free_counts(),
                    s1.open_counts(true) == s0.open_counts(true),
                    s1.open_counts(false) == s0.open_counts(false),
                    s1.marks() == s0.marks().update(ci as int, n),
                    s1.same_formula(s0),
                    n == s1.variables@.len(),
                    ci < s1.clauses@.len(),
                    c == s0.clauses@[ci as int],
                    clause_shape(c, n as nat),
                    len == c.variables@.len(),
                    j <= len,
                    self.ok(),
                    self.same_formula(s1),
                    self.values() == s1.values(),
                    self.marks() == s1.marks(),
                    self.free_counts() == s1.free_counts(),
                    self.backtracking_stack@ == s1.backtracking_stack@,
                    self.unsat == s1.unsat,
                    self.queue@ == s1.queue@,
                    self.conflict == s1.conflict,
                    forall|k: int| 0 <= k < j ==> !(s0.values()[c.variables@[k] as int] == 2
                        && s0.open_counts(#[trigger] c.signs@[k])[c.variables@[k] as int] == usize::MAX),
                    forall|t: bool| #[trigger] self.open_counts(t).len() == n,
                    forall|u: int, t: bool| 0 <= u < n ==> #[trigger] self.open_counts(t)[u]
                        == s0.open_counts(t)[u] + (if s0.values()[u] == 2 && holds(c.variables@.take(j as int), c.signs@.take(j as int), u, t) { 1int } else { 0int }),
                decreases len - j,
            {
                proof {
                    assert(self.clauses@[ci as int].variables@ == s1.clauses@[ci as int].variables@);
                    assert(self.clauses@[ci as int].signs@ == s1.clauses@[ci as int].signs@);
                    assert(s1.clauses@[ci as int].variables@ == c.variables@);
                    assert(s1.clauses@[ci as int].signs@ == c.signs@);
                }
                let u = self.clauses[ci].variables[j];
                let ghost sb = *self;
                let ghost t = c.signs@[j as int];
                proof {
                    assert(self.values()[u as int] == self.variables@[u as int].value);
                    assert forall|tt: bool| !holds(c.variables@.take(j as int), c.signs@.take(j as int), u as int, tt) by {
                        if holds(c.variables@.take(j as int), c.signs@.take(j as int), u as int, tt) {
                            let p = choose|p: int| 0 <= p < j && #[trigger] c.variables@.take(j as int)[p] == u && c.signs@.take(j as int)[p] == tt;
                            assert(c.variables@[p] == c.variables@[j as int]);
                        }
                    }
                    assert(sb.open_counts(true)[u as int] == s0.open_counts(true)[u as int]);
                    assert(sb.open_counts(false)[u as int] == s0.open_counts(false)[u as int]);
                    assert forall|w: int, tt: bool| 0 <= w < n implies
                        holds(c.variables@.take(j + 1), c.signs@.take(j + 1), w, tt)
                        == (holds(c.variables@.take(j as int), c.signs@.take(j as int), w, tt) || (w == u as int && tt == t)) by {
                        lemma_holds_step(c.variables@, c.signs@, j as int, w, tt);
                    }
                }
                if self.variables[u].value == 2 {
                    if self.clauses[ci].signs[j] {
                        if self.variables[u].pos_occ_not_sat_qty == usize::MAX {
                            proof {
                                assert(sb.open_counts(true)[u as int] == sb.variables@[u as int].pos_occ_not_sat_qty);
                                assert(unset_fails(s0, ci as int, v) == (exists|k: int| 0 <= k < c.variables@.len()
                                    && s0.values()[c.variables@[k] as int] == 2
                                    && s0.open_counts(#[trigger] c.signs@[k])[c.variables@[k] as int] == usize::MAX));
                                assert(s0.open_counts(c.signs@[j as int])[c.variables@[j as int] as int] == usize::MAX);
                            }
                            return Err(Halt);
                        }
                        self.variables[u].pos_occ_not_sat_qty = self.variables[u].pos_occ_not_sat_qty + 1;
                    } else {
                        if self.variables[u].neg_occ_not_sat_qty == usize::MAX {
                            proof {
                                assert(sb.open_counts(false)[u as int] == sb.variables@[u as int].neg_occ_not_sat_qty);
                                assert(unset_fails(s0, ci as int, v) == (exists|k: int| 0 <= k < c.variables@.len()
                                    && s0.values()[c.variables@[k] as int] == 2
                                    && s0.open_counts(#[trigger] c.signs@[k])[c.variables@[k] as int] == usize::MAX));
                                assert(s0.open_counts(c.signs@[j as int])[c.variables@[j as int] as int] == usize::MAX);
                            }
                            return Err(Halt);
                        }
                        self.variables[u].neg_occ_not_sat_qty = self.variables[u].neg_occ_not_sat_qty + 1;
                    }
                    proof {
                        assert(self.values() =~= sb.values());
                        assert(self.marks() =~= sb.marks());
                        assert(self.free_counts() =~= sb.free_counts());
                        assert(self.same_formula(sb));
                        assert(self.queue@.take(sb.queue@.len() as int) =~= sb.queue@);
                        lemma_bookkeeping(sb, *self);
                        assert(self.open_counts(t) =~= sb.open_counts(t).update(u as int, (sb.open_counts(t)[u as int] + 1) as usize));
                        assert(self.open_counts(!t) =~= sb.open_counts(!t));
                        assert forall|tt: bool| #[trigger] self.open_counts(tt).len() == n by {
                            if tt == t {} else { assert(tt == !t); }
                        }
                        assert forall|w: int, tt: bool| 0 <= w < n implies #[trigger] self.open_counts(tt)[w]
                            == s0.open_counts(tt)[w] + (if s0.values()[w] == 2 && holds(c.variables@.take(j + 1), c.signs@.take(j + 1), w, tt) { 1int } else { 0int }) by {
                            if tt == t {} else { assert(tt == !t); }
                        }
                    }
                }
                j += 1;
            }
            proof {
                assert(c.variables@.take(len as int) =~= c.variables@);
                assert(c.signs@.take(len as int) =~= c.signs@);
                assert forall|w: int, tt: bool| 0 <= w < n implies #[trigger] self.open_counts(tt)[w]
                    == s0.open_counts(tt)[w] + open_drop(s0, c, w, tt) by {
                    assert(holds(c.variables@.take(len as int), c.signs@.take(len as int), w, tt) == holds(c.variables@, c.signs@, w, tt));
                }
                assert(v != n);
                if unset_fails(s0, ci as int, v) {
                    let k = choose|k: int| 0 <= k < c.variables@.len() && s0.values()[c.variables@[k] as int] == 2
                        && s0.open_counts(#[trigger] c.signs@[k])[c.variables@[k] as int] == usize::MAX;
                    assert(false);
                }
            }
        } else if self.clauses[ci].sat_by == n {
            if self.clauses[ci].free_variables_qty == usize::MAX {
                return Err(Halt);
            }
            self.clauses[ci].free_variables_qty = self.clauses[ci].free_variables_qty + 1;
            proof {
                assert(self.values() =~= s0.values());
                assert(self.marks() =~= s0.marks());
                assert(self.same_formula(s0));
                assert(self.queue@.take(s0.queue@.len() as int) =~= s0.queue@);
                assert(self.free_counts() =~= s0.free_counts().update(ci as int, (s0.free_counts()[ci as int] + 1) as usize));
                assert(self.open_counts(true) =~= s0.open_counts(true));
                assert(self.open_counts(false) =~= s0.open_counts(false));
                lemma_bookkeeping(s0, *self);
            }
        }
        proof {
            assert(self.marks() =~= s0.marks().update(ci as int,
                if s0.marks()[ci as int] == v { n } else { s0.marks()[ci as int] }));
        }
        Ok(())
    }

    /// Every clause of `v`'s literal with sign `s` that `v` marks is
    /// released (see [`DPLL::handle_unset_value`]). `Err` when a count would
    /// pass the largest machine word (see [`release_fails`]).
    fn release(&mut self, v: usize, s: bool) -> (r: Result<(), Halt>)
        requires
            old(self).ok(),
            v < old(self).variables@.len(),
        ensures
            r is Err <==> release_fails(*old(self), v, s),
            r is Ok ==> {
                &&& final(self).ok()
                &&& final(self).same_formula(*old(self))
                &&& final(self).values() == old(self).values()
                &&& final(self).backtracking_stack@ == old(self).backtracking_stack@
                &&& final(self).unsat == old(self).unsat
                &&& final(self).queue@ == old(self).queue@
                &&& final(self).conflict == old(self).conflict
                &&& final(self).marks().len() == old(self).marks().len()
                &&& forall|i: int| 0 <= i < old(self).clauses@.len() ==> #[trigger] final(self).marks()[i] ==
                    (if old(self).marks()[i] == v && has_lit(old(self).clauses@[i], v, s) { old(self).variables@.len() as usize } else { old(self).marks()[i] })
                &&& final(self).free_counts().len() == old(self).free_counts().len()
                &&& forall|i: int| 0 <= i < old(self).clauses@.len() ==> #[trigger] final(self).free_counts()[i] ==
                    old(self).free_counts()[i] + (if old(self).marks()[i] == old(self).variables@.len() && has_lit(old(self).clauses@[i], v, s) { 1int } else { 0int })
                &&& forall|t: bool| #[trigger] final(self).open_counts(t).len() == old(self).variables@.len()
                &&& forall|u: int, t: bool| 0 <= u < old(self).variables@.len() ==> #[trigger] final(self).open_counts(t)[u]
                        == old(self).open_counts(t)[u] + (if old(self).values()[u] == 2 { release_demand(*old(self), v, s, u, t) } else { 0 })
            },
    {
        let ghost s0 = *self;
        let ghost o = occ(s0.variables@[v as int], s);
        let n = self.variables.len();
        let nc = self.clauses.len();
        let len = if s { self.variables[v].pos_occ.len() } else { self.variables[v].neg_occ.len() };
        proof {
            assert(o.no_duplicates());
            assert forall|u: int, t: bool| 0 <= u < n implies
                count_where(release_pred(s0, o, 0, true, v, s, u, t), nc as int) == 0 by {
                lemma_count_where_ext(release_pred(s0, o, 0, true, v, s, u, t), |c: int| false, nc as int);
                lemma_count_zero(nc as int);
            }
        }
        let mut i: usize = 0;
        while i < len
            invariant
                s0 == *old(self),
                nc == s0.clauses@.len(),
                s0.ok(),
                v < n,
                n == s0.variables@.len(),
                o == occ(s0.variables@[v as int], s),
                o.no_duplicates(),
                len == o.len(),
                i <= len,
                self.ok(),
                self.same_formula(s0),
                self.values() == s0.values(),
                self.backtracking_stack@ == s0.backtracking_stack@,
                self.unsat == s0.unsat,
                self.queue@ == s0.queue@,
                self.conflict == s0.conflict,
                self.marks().len() == s0.marks().len(),
                forall|c: int| 0 <= c < s0.clauses@.len() ==> #[trigger] self.marks()[c] ==
                    (if s0.marks()[c] == v && in_prefix(o, i as int, c) { n } else { s0.marks()[c] }),
                self.free_counts().len() == s0.free_counts().len(),
                forall|c: int| 0 <= c < s0.clauses@.len() ==> #[trigger] self.free_counts()[c] ==
                    s0.free_counts()[c] + (if s0.marks()[c] == n && in_prefix(o, i as int, c) { 1int } else { 0int }),
                forall|k: int| 0 <= k < i ==> !(s0.marks()[#[trigger] o[k] as int] == n && s0.free_counts()[o[k] as int] == usize::MAX),
                forall|t: bool| #[trigger] self.open_counts(t).len() == n,
                forall|u: int, t: bool| 0 <= u < n ==> #[trigger] self.open_counts(t)[u] == s0.open_counts(t)[u]
                    + (if s0.values()[u] == 2 { count_where(release_pred(s0, o, i as int, true, v, s, u, t), nc as int) } else { 0 }),
            decreases len - i,
        {
            proof {
                assert(self.variables@[v as int].pos_occ@ == s0.variables@[v as int].pos_occ@);
                assert(self.variables@[v as int].neg_occ@ == s0.variables@[v as int].neg_occ@);
                let x = s0.variables@[v as int];
                assert(o[i as int] < s0.clauses@.len());
            }
            let ci = if s { self.variables[v].pos_occ[i] } else { self.variables[v].neg_occ[i] };
            let ghost sb = *self;
            proof {
                assert(ci == o[i as int]);
                assert forall|c: int| #[trigger] in_prefix(o, i + 1, c) == (in_prefix(o, i as int, c) || c == ci as int) by {
                    lemma_in_prefix_step(o, i as int, c);
                }
                if in_prefix(o, i as int, ci as int) {
                    let k = choose|k: int| 0 <= k < i && #[trigger] o[k] == ci as int;
                    assert(o[k] == o[i as int]);
                }
                assert(sb.marks()[ci as int] == s0.marks()[ci as int]);
                assert(sb.free_counts()[ci as int] == s0.free_counts()[ci as int]);
                assert(sb.clauses@[ci as int].variables@ == s0.clauses@[ci as int].variables@);
                assert(sb.clauses@[ci as int].signs@ == s0.clauses@[ci as int].signs@);
                assert(v != n);
            }
            let res = self.handle_unset_value(ci, v);
            if res.is_err() {
                proof {
                    let c = sb.clauses@[ci as int];
                    if sb.marks()[ci as int] == v {
                        let j = choose|j: int| 0 <= j < c.variables@.len() && sb.values()[c.variables@[j] as int] == 2
                            && sb.open_counts(#[trigger] c.signs@[j])[c.variables@[j] as int] == usize::MAX;
                        let u = c.variables@[j] as int;
                        let t = c.signs@[j];
                        assert(holds(s0.clauses@[ci as int].variables@, s0.clauses@[ci as int].signs@, u, t));
                        lemma_count_where_add(release_pred(s0, o, i as int, true, v, s, u, t),
                            release_pred(s0, o, i + 1, true, v, s, u, t), nc as int, ci as int);
                        lemma_release_within(s0, o, i + 1, v, s, u, t);
                        assert(s0.open_counts(t)[u] + release_demand(s0, v, s, u, t) > usize::MAX);
                        assert(release_fails(s0, v, s));
                    } else {
                        let x = s0.variables@[v as int];
                        if s { assert(x.pos_occ@[i as int] == ci); } else { assert(x.neg_occ@[i as int] == ci); }
                        assert(has_lit(s0.clauses@[ci as int], v, s));
                        assert(release_fails(s0, v, s));
                    }
                }
                return Err(Halt);
            }
            proof {
                assert forall|c: int| 0 <= c < s0.clauses@.len() implies #[trigger] self.marks()[c] ==
                    (if s0.marks()[c] == v && in_prefix(o, i + 1, c) { n } else { s0.marks()[c] }) by {
                    if c == ci as int {
                        assert(in_prefix(o, i + 1, c));
                    }
                }
                assert forall|c: int| 0 <= c < s0.clauses@.len() implies #[trigger] self.free_counts()[c] ==
                    s0.free_counts()[c] + (if s0.marks()[c] == n && in_prefix(o, i + 1, c) { 1int } else { 0int }) by {
                    if c == ci as int {
                        assert(in_prefix(o, i + 1, c));
                    } else {
                        assert(self.free_counts()[c] == sb.free_counts()[c]);
                    }
                }
                assert forall|u: int, t: bool| 0 <= u < n implies #[trigger] self.open_counts(t)[u] == s0.open_counts(t)[u]
                    + (if s0.values()[u] == 2 { count_where(release_pred(s0, o, i + 1, true, v, s, u, t), nc as int) } else { 0 }) by {
                    if s0.marks()[ci as int] == v && holds(s0.clauses@[ci as int].variables@, s0.clauses@[ci as int].signs@, u, t) {
                        lemma_count_where_add(release_pred(s0, o, i as int, true, v, s, u, t),
                            release_pred(s0, o, i + 1, true, v, s, u, t), nc as int, ci as int);
                    } else {
                        lemma_count_where_ext(release_pred(s0, o, i as int, true, v, s, u, t),
                            release_pred(s0, o, i + 1, true, v, s, u, t), nc as int);
                    }
                }
            }
            i += 1;
        }
        proof {
            let x = s0.variables@[v as int];
            assert forall|c: int| 0 <= c < s0.clauses@.len() implies in_prefix(o, len as int, c) == has_lit(s0.clauses@[c], v, s) by {
                if in_prefix(o, len as int, c) {
                    let k = choose|k: int| 0 <= k < len && #[trigger] o[k] == c;
                    if s { assert(x.pos_occ@[k] == c); } else { assert(x.neg_occ@[k] == c); }
                }
                if has_lit(s0.clauses@[c], v, s) {
                    if s { assert(x.pos_occ@.contains(c as usize)); } else { assert(x.neg_occ@.contains(c as usize)); }
                    let k = choose|k: int| 0 <= k < o.len() && o[k] == c as usize;
                    assert(in_prefix(o, len as int, c));
                }
            }
            assert forall|c: int| 0 <= c < s0.clauses@.len() implies #[trigger] self.marks()[c] ==
                (if s0.marks()[c] == v && has_lit(s0.clauses@[c], v, s) { n } else { s0.marks()[c] }) by {
                assert(in_prefix(o, len as int, c) == has_lit(s0.clauses@[c], v, s));
            }
            assert forall|c: int| 0 <= c < s0.clauses@.len() implies #[trigger] self.free_counts()[c] ==
                s0.free_counts()[c] + (if s0.marks()[c] == n && has_lit(s0.clauses@[c], v, s) { 1int } else { 0int }) by {
                assert(in_prefix(o, len as int, c) == has_lit(s0.clauses@[c], v, s));
            }
            assert forall|u: int, t: bool| 0 <= u < n implies
                count_where(release_pred(s0, o, len as int, true, v, s, u, t), nc as int) == release_demand(s0, v, s, u, t) by {
                lemma_count_where_ext(release_pred(s0, o, len as int, true, v, s, u, t),
                    release_pred(s0, Seq::empty(), 0, false, v, s, u, t), nc as int);
            }
            if release_fails(s0, v, s) {
                if exists|c: int| 0 <= c < s0.clauses@.len() && has_lit(s0.clauses@[c], v, s)
                    && s0.marks()[c] == n && #[trigger] s0.free_counts()[c] == usize::MAX {
                    let c = choose|c: int| 0 <= c < s0.clauses@.len() && has_lit(s0.clauses@[c], v, s)
                        && s0.marks()[c] == n && #[trigger] s0.free_counts()[c] == usize::MAX;
                    assert(in_prefix(o, len as int, c));
                    let k = choose|k: int| 0 <= k < len && #[trigger] o[k] == c;
                    assert(!(s0.marks()[o[k] as int] == n && s0.free_counts()[o[k] as int] == usize::MAX));
                } else {
                    let (u, t) = choose|u: int, t: bool| 0 <= u < s0.variables@.len() && s0.values()[u] == 2
                        && #[trigger] s0.open_counts(t)[u] + release_demand(s0, v, s, u, t) > usize::MAX;
                    assert(self.open_counts(t)[u] <= usize::MAX);
                }
            }
        }
        Ok(())
    }

    /// Makes variable `v` free again and releases the clauses it marks.
    /// `Err` when a count would pass the largest machine word.
    fn unset_value(&mut self, v: usize) -> (r: Result<(), Halt>)
        requires
            old(self).ok(),
            v < old(self).variables@.len(),
        ensures
            r is Err <==> unset_value_fails(*old(self), v),
            r is Ok ==> {
                &&& final(self).ok()
                &&& final(self).same_formula(*old(self))
                &&& final(self).values() == old(self).values().update(v as int, 2)
                &&& final(self).backtracking_stack@ == old(self).backtracking_stack@
                &&& final(self).unsat == old(self).unsat
                &&& final(self).queue@ == old(self).queue@
                &&& final(self).conflict == old(self).conflict
                &&& final(self).marks().len() == old(self).marks().len()
                &&& forall|i: int| 0 <= i < old(self).clauses@.len() ==> #[trigger] final(self).marks()[i] ==
                    (if old(self).marks()[i] == v && (has_lit(old(self).clauses@[i], v, true) || has_lit(old(self).clauses@[i], v, false))
                        { old(self).variables@.len() as usize } else { old(self).marks()[i] })
                &&& (old(self).sound() ==> final(self).sound())
                &&& final(self).free_counts().len() == old(self).free_counts().len()
                &&& forall|i: int| 0 <= i < old(self).clauses@.len() ==> #[trigger] final(self).free_counts()[i] ==
                    old(self).free_counts()[i] + (if old(self).marks()[i] == old(self).variables@.len()
                        && (has_lit(old(self).clauses@[i], v, true) || has_lit(old(self).clauses@[i], v, false)) { 1int } else { 0int })
                &&& forall|t: bool| #[trigger] final(self).open_counts(t).len() == old(self).variables@.len()
                &&& forall|u: int, t: bool| 0 <= u < old(self).variables@.len() ==> #[trigger] final(self).open_counts(t)[u]
                        == old(self).open_counts(t)[u] + (if old(self).values()[u] == 2 || u == v {
                            release_demand(*old(self), v, true, u, t) + release_demand(*old(self), v, false, u, t) } else { 0 })
            },
    {
        let ghost s0 = *self;
        let n = self.variables.len();
        self.variables[v].value = 2;
        let ghost s1 = *self;
        proof {
            assert(s1.values() =~= s0.values().update(v as int, 2));
            assert(s1.marks() =~= s0.marks());
            assert(s1.same_formula(s0));
            lemma_same_formula_shape(s0, s1);
            assert forall|u: int| 0 <= u < n implies (#[trigger] s1.variables@[u]).value <= 2 by {
                assert(s1.values()[u] == s1.variables@[u].value);
                assert(s0.values()[u] == s0.variables@[u].value);
            }
            assert forall|i: int| 0 <= i < s1.clauses@.len() implies (#[trigger] s1.clauses@[i]).sat_by <= n by {
                assert(s1.marks()[i] == s0.marks()[i]);
            }
        }
        proof {
            assert(s1.free_counts() =~= s0.free_counts());
            assert(s1.open_counts(true) =~= s0.open_counts(true));
            assert(s1.open_counts(false) =~= s0.open_counts(false));
            assert forall|u: int, t: bool| 0 <= u < n implies
                release_demand(s1, v, true, u, t) == release_demand(s0, v, true, u, t)
                && release_demand(s1, v, false, u, t) == release_demand(s0, v, false, u, t) by {
                lemma_release_demand_frame(s0, s1, v, true, u, t);
                lemma_release_demand_frame(s0, s1, v, false, u, t);
            }
        }
        let r1 = self.release(v, true);
        if r1.is_err() {
            proof {
                if exists|c: int| 0 <= c < s1.clauses@.len() && has_lit(s1.clauses@[c], v, true)
                    && s1.marks()[c] == s1.variables@.len() && #[trigger] s1.free_counts()[c] == usize::MAX {
                    let c = choose|c: int| 0 <= c < s1.clauses@.len() && has_lit(s1.clauses@[c], v, true)
                        && s1.marks()[c] == s1.variables@.len() && #[trigger] s1.free_counts()[c] == usize::MAX;
                    lemma_same_formula_shape(s0, s1);
                    assert(s0.free_counts()[c] == usize::MAX);
                } else {
                    let (u, t) = choose|u: int, t: bool| 0 <= u < s1.variables@.len() && s1.values()[u] == 2
                        && #[trigger] s1.open_counts(t)[u] + release_demand(s1, v, true, u, t) > usize::MAX;
                    assert(s0.open_counts(t)[u] + release_demand(s0, v, true, u, t) + release_demand(s0, v, false, u, t) > usize::MAX);
                }
            }
            return Err(Halt);
        }
        let ghost s2 = *self;
        proof {
            lemma_same_formula_shape(s0, s1);
            lemma_same_formula_shape(s1, s2);
            assert forall|c: int| 0 <= c < s0.clauses@.len() && has_lit(s0.clauses@[c], v, false) implies
                #[trigger] s2.marks()[c] == s0.marks()[c] && s2.free_counts()[c] == s0.free_counts()[c] && !has_lit(s0.clauses@[c], v, true) by {
                assert(clause_shape(s0.clauses@[c], n as nat));
                assert(has_lit(s1.clauses@[c], v, true) == has_lit(s0.clauses@[c], v, true));
            }
            assert forall|u: int, t: bool| 0 <= u < n implies
                release_demand(s2, v, false, u, t) == release_demand(s0, v, false, u, t) by {
                lemma_release_demand_frame(s0, s2, v, false, u, t);
            }
        }
        let r2 = self.release(v, false);
        if r2.is_err() {
            proof {
                if exists|c: int| 0 <= c < s2.clauses@.len() && has_lit(s2.clauses@[c], v, false)
                    && s2.marks()[c] == s2.variables@.len() && #[trigger] s2.free_counts()[c] == usize::MAX {
                    let c = choose|c: int| 0 <= c < s2.clauses@.len() && has_lit(s2.clauses@[c], v, false)
                        && s2.marks()[c] == s2.variables@.len() && #[trigger] s2.free_counts()[c] == usize::MAX;
                    assert(has_lit(s0.clauses@[c], v, false));
                    assert(s0.free_counts()[c] == usize::MAX);
                } else {
                    let (u, t) = choose|u: int, t: bool| 0 <= u < s2.variables@.len() && s2.values()[u] == 2
                        && #[trigger] s2.open_counts(t)[u] + release_demand(s2, v, false, u, t) > usize::MAX;
                    assert(s0.open_counts(t)[u] + release_demand(s0, v, true, u, t) + release_demand(s0, v, false, u, t) > usize::MAX);
                }
            }
            return Err(Halt);
        }
        proof {
            assert forall|c: int| 0 <= c < s0.clauses@.len() implies #[trigger] self.free_counts()[c] ==
                s0.free_counts()[c] + (if s0.marks()[c] == n
                    && (has_lit(s0.clauses@[c], v, true) || has_lit(s0.clauses@[c], v, false)) { 1int } else { 0int }) by {
                assert(self.free_counts()[c] == s2.free_counts()[c] + (if s2.marks()[c] == n && has_lit(s2.clauses@[c], v, false) { 1int } else { 0int }));
                assert(s2.free_counts()[c] == s1.free_counts()[c] + (if s1.marks()[c] == n && has_lit(s1.clauses@[c], v, true) { 1int } else { 0int }));
                assert(has_lit(s1.clauses@[c], v, true) == has_lit(s0.clauses@[c], v, true));
                assert(has_lit(s2.clauses@[c], v, false) == has_lit(s0.clauses@[c], v, false));
                assert(s1.marks()[c] == s0.marks()[c]);
                if has_lit(s0.clauses@[c], v, false) {
                    assert(s2.marks()[c] == s0.marks()[c]);
                }
            }
            assert forall|u: int, t: bool| 0 <= u < n implies #[trigger] self.open_counts(t)[u]
                == s0.open_counts(t)[u] + (if s0.values()[u] == 2 || u == v {
                    release_demand(s0, v, true, u, t) + release_demand(s0, v, false, u, t) } else { 0 }) by {
                assert(s1.values()[u] == (if u == v { 2 } else { s0.values()[u] }));
                assert(s2.values()[u] == s1.values()[u]);
                assert(self.open_counts(t)[u] == s2.open_counts(t)[u] + (if s2.values()[u] == 2 { release_demand(s2, v, false, u, t) } else { 0 }));
                assert(s2.open_counts(t)[u] == s1.open_counts(t)[u] + (if s1.values()[u] == 2 { release_demand(s1, v, true, u, t) } else { 0 }));
            }
            if unset_value_fails(s0, v) {
                if exists|c: int| 0 <= c < s0.clauses@.len() && (has_lit(s0.clauses@[c], v, true) || has_lit(s0.clauses@[c], v, false))
                    && s0.marks()[c] == s0.variables@.len() && #[trigger] s0.free_counts()[c] == usize::MAX {
                    let c = choose|c: int| 0 <= c < s0.clauses@.len() && (has_lit(s0.clauses@[c], v, true) || has_lit(s0.clauses@[c], v, false))
                        && s0.marks()[c] == s0.variables@.len() && #[trigger] s0.free_counts()[c] == usize::MAX;
                    assert(has_lit(s1.clauses@[c], v, true) == has_lit(s0.clauses@[c], v, true));
                    assert(has_lit(s2.clauses@[c], v, false) == has_lit(s0.clauses@[c], v, false));
                    if has_lit(s0.clauses@[c], v, true) {
                        assert(s1.free_counts()[c] == usize::MAX);
                        assert(release_fails(s1, v, true));
                    } else {
                        assert(s2.free_counts()[c] == usize::MAX);
                        assert(release_fails(s2, v, false));
                    }
                } else {
                    let (u, t) = choose|u: int, t: bool| 0 <= u < s0.variables@.len() && (s0.values()[u] == 2 || u == v)
                        && #[trigger] s0.open_counts(t)[u] + release_demand(s0, v, true, u, t) + release_demand(s0, v, false, u, t) > usize::MAX;
                    assert(s1.values()[u] == 2);
                    let x: usize = self.open_counts(t)[u];
                }
            }
        }
        proof {
            lemma_same_formula_shape(s0, *self);
            assert forall|i: int| 0 <= i < s0.clauses@.len() implies #[trigger] self.marks()[i] ==
                (if s0.marks()[i] == v && (has_lit(s0.clauses@[i], v, true) || has_lit(s0.clauses@[i], v, false))
                    { n } else { s0.marks()[i] }) by {
                assert(s2.marks()[i] == (if s1.marks()[i] == v && has_lit(s1.clauses@[i], v, true) { n } else { s1.marks()[i] }));
                assert(self.marks()[i] == (if s2.marks()[i] == v && has_lit(s2.clauses@[i], v, false) { n } else { s2.marks()[i] }));
                lemma_same_formula_shape(s0, s2);
            }
            if s0.sound() {
                assert forall|i: int| 0 <= i < self.clauses@.len() && (#[trigger] self.clauses@[i]).sat_by < self.variables@.len() implies {
                    let c = self.clauses@[i];
                    let x = self.variables@[c.sat_by as int].value;
                    x <= 1 && has_lit(c, c.sat_by, x == 1)
                } by {
                    assert(self.marks()[i] == self.clauses@[i].sat_by);
                    assert(s0.marks()[i] == s0.clauses@[i].sat_by);
                    let m = self.clauses@[i].sat_by;
                    assert(m == s0.marks()[i]);
                    assert(s0.clauses@[i].sat_by < n);
                    let x0 = s0.variables@[m as int].value;
                    assert(has_lit(s0.clauses@[i], m, x0 == 1));
                    assert(m != v);
                    assert(self.values()[m as int] == self.variables@[m as int].value);
                    assert(s0.values()[m as int] == s0.variables@[m as int].value);
                }
            }
        }
        Ok(())
    }
}

/// The larger of a variable's two counts.
pub open spec fn top_count(x: Variable) -> usize {
    if x.pos_occ_not_sat_qty >= x.neg_occ_not_sat_qty { x.pos_occ_not_sat_qty } else { x.neg_occ_not_sat_qty }
}

/// Does a free variable among the first `k` count any clause?
pub open spec fn some_free_count(vars: Seq<Variable>, k: int) -> bool {
    exists|u: int| 0 <= u < k && (#[trigger] vars[u]).value == 2 && top_count(vars[u]) > 0
}

/// The decision for the variables `vars`: the first free variable whose
/// larger count is largest, with its positive literal unless its negative
/// count is the larger; `(0, true)` when no free variable counts a clause.
pub open spec fn is_dlis_choice(vars: Seq<Variable>, r: (usize, bool)) -> bool {
    if !some_free_count(vars, vars.len() as int) {
        r == (0usize, true)
    } else {
        let x = vars[r.0 as int];
        &&& r.0 < vars.len()
        &&& x.value == 2
        &&& top_count(x) > 0
        &&& r.1 == (x.pos_occ_not_sat_qty >= x.neg_occ_not_sat_qty)
        &&& forall|u: int| 0 <= u < vars.len() && (#[trigger] vars[u]).value == 2 ==> top_count(vars[u]) <= top_count(x)
        &&& forall|u: int| 0 <= u < r.0 && (#[trigger] vars[u]).value == 2 ==> top_count(vars[u]) < top_count(x)
    }
}

/// Every clause is true under the variables' values.
pub open spec fn all_true(cls: Seq<Clause>, vars: Seq<Variable>) -> bool {
    forall|i: int| 0 <= i < cls.len() ==> clause_true(#[trigger] cls[i], vars)
}

impl DPLL {
    /// The clauses' variables are variables of the table, with one sign each.
    pub open spec fn in_table(&self) -> bool {
        forall|i: int| 0 <= i < self.clauses@.len() ==> {
            let c = #[trigger] self.clauses@[i];
            &&& c.signs@.len() == c.variables@.len()
            &&& forall|j: int| 0 <= j < c.variables@.len() ==> #[trigger] c.variables@[j] < self.variables@.len()
        }
    }

    /// A solved state: no free variable, no unmarked clause, every clause true.
    pub open spec fn validate_spec(&self) -> bool {
        &&& forall|v: int| 0 <= v < self.variables@.len() ==> (#[trigger] self.variables@[v]).value != 2
        &&& forall|i: int| 0 <= i < self.clauses@.len() ==> (#[trigger] self.clauses@[i]).sat_by != self.variables@.len()
        &&& all_true(self.clauses@, self.variables@)
    }

    /// Dynamic largest individual sum: the free literal that occurs in the
    /// most unsatisfied clauses (see [`is_dlis_choice`]).
    fn dlis(&self) -> (r: (usize, bool))
        ensures
            is_dlis_choice(self.variables@, r),
    {
        let mut variable_index: usize = 0;
        let mut max_occurrence: usize = 0;
        let mut value = true;
        let mut index: usize = 0;
        while index < self.variables.len()
            invariant
                index <= self.variables@.len(),
                max_occurrence == 0 ==> !some_free_count(self.variables@, index as int) && variable_index == 0 && value,
                max_occurrence > 0 ==> {
                    let x = self.variables@[variable_index as int];
                    &&& variable_index < index
                    &&& x.value == 2
                    &&& top_count(x) == max_occurrence
                    &&& value == (x.pos_occ_not_sat_qty >= x.neg_occ_not_sat_qty)
                    &&& forall|u: int| 0 <= u < index && (#[trigger] self.variables@[u]).value == 2 ==> top_count(self.variables@[u]) <= max_occurrence
                    &&& forall|u: int| 0 <= u < variable_index && (#[trigger] self.variables@[u]).value == 2 ==> top_count(self.variables@[u]) < max_occurrence
                },
            decreases self.variables@.len() - index,
        {
            let ghost m0 = max_occurrence;
            if self.variables[index].pos_occ_not_sat_qty > max_occurrence && self.variables[index].value == 2 {
                variable_index = index;
                max_occurrence = self.variables[index].pos_occ_not_sat_qty;
                value = true;
            }
            if self.variables[index].neg_occ_not_sat_qty > max_occurrence && self.variables[index].value == 2 {
                variable_index = index;
                max_occurrence = self.variables[index].neg_occ_not_sat_qty;
                value = false;
            }
            proof {
                let x = self.variables@[index as int];
                if m0 == 0 && max_occurrence == 0 {
                    assert(!some_free_count(self.variables@, index + 1)) by {
                        if some_free_count(self.variables@, index + 1) {
                            let u = choose|u: int| 0 <= u < index + 1 && (#[trigger] self.variables@[u]).value == 2 && top_count(self.variables@[u]) > 0;
                            assert(u != index);
                            assert(some_free_count(self.variables@, index as int));
                        }
                    }
                }
                if max_occurrence > 0 {
                    assert forall|u: int| 0 <= u < index + 1 && (#[trigger] self.variables@[u]).value == 2 implies top_count(self.variables@[u]) <= max_occurrence by {
                        if u < index && m0 == 0 {
                            assert(!(top_count(self.variables@[u]) > 0)) by {
                                if top_count(self.variables@[u]) > 0 {
                                    assert(some_free_count(self.variables@, index as int));
                                }
                            }
                        }
                    }
                    assert forall|u: int| 0 <= u < variable_index && (#[trigger] self.variables@[u]).value == 2 implies top_count(self.variables@[u]) < max_occurrence by {
                        if m0 == 0 && u < index {
                            assert(!(top_count(self.variables@[u]) > 0)) by {
                                if top_count(self.variables@[u]) > 0 {
                                    assert(some_free_count(self.variables@, index as int));
                                }
                            }
                        }
                    }
                }
            }
            index += 1;
        }
        proof {
            if max_occurrence > 0 {
                let x = self.variables@[variable_index as int];
                assert(some_free_count(self.variables@, self.variables@.len() as int));
            }
        }
        (variable_index, value)
    }

    /// Undoes forced assignments from the top of the trail down to the
    /// latest decision, which is flipped and recorded as forced; with no
    /// decision left, the formula is declared unsatisfiable.
    fn backtrack(&mut self) -> (r: Result<(), Halt>)
        requires
            old(self).ok(),
        ensures
            r is Ok ==> {
                &&& final(self).ok()
                &&& final(self).same_formula(*old(self))
                &&& (old(self).sound() ==> final(self).sound())
                &&& old(self).queue@.len() <= final(self).queue@.len()
                &&& final(self).queue@.take(old(self).queue@.len() as int) == old(self).queue@
                &&& ({
                    &&& final(self).unsat
                    &&& final(self).backtracking_stack@.len() == 0
                    &&& forall|k: int| 0 <= k < old(self).backtracking_stack@.len() ==> (#[trigger] old(self).backtracking_stack@[k]).1
                } || {
                    &&& final(self).unsat == old(self).unsat
                    &&& exists|p: int| {
                    &&& 0 <= p < old(self).backtracking_stack@.len()
                    &&& !old(self).backtracking_stack@[p].1
                    &&& forall|q: int| p < q < old(self).backtracking_stack@.len() ==> (#[trigger] old(self).backtracking_stack@[q]).1
                    &&& final(self).backtracking_stack@ == old(self).backtracking_stack@.take(p).push((old(self).backtracking_stack@[p].0, true))
                    }
                })
            },
    {
        let ghost s0 = *self;
        let ghost len0 = s0.backtracking_stack@.len() as int;
        proof { assert(s0.queue@.take(s0.queue@.len() as int) =~= s0.queue@); }
        let (mut v, mut forced) = match self.backtracking_stack.pop() {
            Some(t) => t,
            None => return Err(Halt),
        };
        let ghost mut top: int = len0 - 1;
        proof {
            assert(self.backtracking_stack@ =~= s0.backtracking_stack@.take(top));
            assert(s0.backtracking_stack@[top].0 < s0.variables@.len());
            assert(self.values() == s0.values());
            assert(self.marks() == s0.marks());
            assert(self.same_formula(s0));
            lemma_same_formula_shape(s0, *self);
        }
        while forced
            invariant
                s0 == *old(self),
                s0.ok(),
                len0 == s0.backtracking_stack@.len(),
                0 <= top < len0,
                self.backtracking_stack@ == s0.backtracking_stack@.take(top),
                v == s0.backtracking_stack@[top].0,
                forced == s0.backtracking_stack@[top].1,
                forall|q: int| top < q < len0 ==> (#[trigger] s0.backtracking_stack@[q]).1,
                v < self.variables@.len(),
                self.ok(),
                self.same_formula(s0),
                s0.sound() ==> self.sound(),
                self.unsat == s0.unsat,
                s0.queue@.len() <= self.queue@.len(),
                self.queue@.take(s0.queue@.len() as int) == s0.queue@,
            decreases top,
        {
            let ghost sb = *self;
            self.unset_value(v)?;
            proof { lemma_same_formula_shape(s0, sb); }
            if self.backtracking_stack.len() == 0 {
                self.unsat = true;
                proof {
                    lemma_same_formula_trans(s0, sb, *self);
                    assert forall|k: int| 0 <= k < len0 implies (#[trigger] s0.backtracking_stack@[k]).1 by {
                        if k < top { assert(self.backtracking_stack@.len() == top); }
                    }
                    assert(self.values() == sb.values().update(v as int, 2));
                }
                return Ok(());
            }
            let ghost sc = *self;
            let tup = match self.backtracking_stack.pop() {
                Some(t) => t,
                None => return Err(Halt),
            };
            proof {
                top = top - 1;
                assert(self.backtracking_stack@ =~= s0.backtracking_stack@.take(top));
                assert(tup == s0.backtracking_stack@[top]);
                assert(self.values() == sc.values());
                assert(self.marks() == sc.marks());
                assert(self.same_formula(sc));
                lemma_same_formula_shape(sc, *self);
                assert(sc.backtracking_stack@[top] == s0.backtracking_stack@[top]);
                assert forall|k: int| 0 <= k < self.backtracking_stack@.len() implies (#[trigger] self.backtracking_stack@[k]).0 < self.variables@.len() by {
                    assert(self.backtracking_stack@[k] == sc.backtracking_stack@[k]);
                }
                if s0.sound() {
                    lemma_sound_frame(sc, *self);
                }
            }
            v = tup.0;
            forced = tup.1;
        }
        let switch_value = self.variables[v].value == 0;
        let ghost sd = *self;
        self.unset_value(v)?;
        let ghost se = *self;
        self.set_value(v, switch_value, true)?;
        proof {
            assert(se.values()[v as int] == 2);
            assert(se.variables@[v as int].value == se.values()[v as int]);
            assert(self.backtracking_stack@ == s0.backtracking_stack@.take(top).push((s0.backtracking_stack@[top].0, true)));
            assert(self.queue@.take(s0.queue@.len() as int) =~= s0.queue@) by {
                assert(self.queue@.take(se.queue@.len() as int) == se.queue@);
            }
            lemma_same_formula_shape(s0, sd);
        }
        Ok(())
    }

    /// Runs the search until every clause is satisfied or the formula is
    /// declared unsatisfiable (`unsat`). Unit and pure literals in the queue
    /// are assigned first; a conflict clears the queue and backtracks; when
    /// the queue is empty and a clause is unsatisfied, the DLIS literal is
    /// decided. On success the remaining free variables are set to false.
    /// `Err` where the procedure has no defined continuation.
    pub fn dpll(&mut self) -> (r: Result<(), Halt>)
        requires
            old(self).ok(),
        ensures
            r is Ok ==> {
                &&& final(self).ok()
                &&& final(self).same_formula(*old(self))
                &&& (old(self).sound() ==> final(self).sound())
                &&& (old(self).sound() && !final(self).unsat ==> final(self).validate_spec())
            },
    {
        let ghost s0 = *self;
        proof { lemma_same_formula_shape(s0, s0); }
        let mut steps: u64 = u64::MAX;
        while !self.unsat
            invariant
                s0 == *old(self),
                s0.ok(),
                self.ok(),
                self.same_formula(s0),
                s0.sound() ==> self.sound(),
            decreases steps,
        {
            if steps == 0 {
                return Err(Halt);
            }
            steps = steps - 1;
            let ghost st = steps;
            while self.queue.len() > 0
                invariant
                    steps <= st,
                    s0.ok(),
                    self.ok(),
                    self.same_formula(s0),
                    s0.sound() ==> self.sound(),
                decreases steps,
            {
                if steps == 0 {
                    return Err(Halt);
                }
                steps = steps - 1;
                let tup = match self.queue.pop() {
                    Some(t) => t,
                    None => return Err(Halt),
                };
                let ghost sa = *self;
                proof {
                    assert(self.values() == sa.values());
                    lemma_same_formula_shape(s0, sa);
                }
                if tup.0 >= self.variables.len() {
                    return Err(Halt);
                }
                self.set_value(tup.0, tup.1, true)?;
                proof { lemma_same_formula_shape(s0, *self); }
                if self.conflict {
                    // a conflict raised while backtracking is not examined
                    self.queue.clear();
                    let ghost sb = *self;
                    proof {
                        assert(self.values() == sb.values());
                        assert(self.same_formula(sb));
                        lemma_same_formula_shape(sb, *self);
                    }
                    self.backtrack()?;
                    proof { lemma_same_formula_shape(s0, *self); }
                    self.conflict = false;
                    let ghost sc = *self;
                    proof {
                        assert(self.values() == sc.values());
                        assert(self.marks() == sc.marks());
                        lemma_same_formula_shape(s0, *self);
                    }
                }
            }
            let n = self.variables.len();
            let mut all_sat = true;
            let mut i: usize = 0;
            while i < self.clauses.len()
                invariant
                    i <= self.clauses@.len(),
                    n == self.variables@.len(),
                    all_sat <==> forall|k: int| 0 <= k < i ==> (#[trigger] self.clauses@[k]).sat_by != n,
                decreases self.clauses@.len() - i,
            {
                if self.clauses[i].sat_by == n {
                    all_sat = false;
                }
                i += 1;
            }
            if all_sat {
                let ghost sd = *self;
                let mut u: usize = 0;
                while u < n
                    invariant
                        n == self.variables@.len(),
                        u <= n,
                        sd.ok(),
                        self.same_formula(sd),
                        self.marks() == sd.marks(),
                        self.backtracking_stack@ == sd.backtracking_stack@,
                        self.unsat == sd.unsat,
                        self.clauses@ == sd.clauses@,
                        forall|w: int| 0 <= w < u ==> (#[trigger] self.variables@[w]).value == (if sd.variables@[w].value == 2 { 0 } else { sd.variables@[w].value }),
                        forall|w: int| u <= w < n ==> (#[trigger] self.variables@[w]).value == sd.variables@[w].value,
                    decreases n - u,
                {
                    if self.variables[u].value == 2 {
                        self.variables[u].value = 0;
                    }
                    proof {
                        assert(self.marks() =~= sd.marks());
                    }
                    u += 1;
                }
                proof {
                    lemma_same_formula_trans(s0, sd, *self);
                    lemma_same_formula_shape(sd, *self);
                    lemma_same_formula_shape(s0, *self);
                    assert forall|w: int| 0 <= w < n implies (#[trigger] self.variables@[w]).value <= 2 by {
                        assert(sd.variables@[w].value <= 2);
                    }
                    assert forall|k: int| 0 <= k < self.clauses@.len() implies (#[trigger] self.clauses@[k]).sat_by <= n by {
                        assert(self.clauses@[k] == sd.clauses@[k]);
                    }
                    if s0.sound() {
                        assert forall|k: int| 0 <= k < self.clauses@.len() implies clause_true(#[trigger] self.clauses@[k], self.variables@) by {
                            let c = self.clauses@[k];
                            assert(c == sd.clauses@[k]);
                            assert(c.sat_by != n);
                            assert(c.sat_by <= n);
                            let m = c.sat_by;
                            let x = sd.variables@[m as int].value;
                            assert(x <= 1 && has_lit(c, m, x == 1));
                            let j = choose|j: int| 0 <= j < c.variables@.len() && c.variables@[j] == m as int && c.signs@[j] == (x == 1);
                            assert(self.variables@[c.variables@[j] as int].value == want(c.signs@[j]));
                        }
                        assert forall|k: int| 0 <= k < self.clauses@.len() && (#[trigger] self.clauses@[k]).sat_by < self.variables@.len() implies {
                            let c = self.clauses@[k];
                            let x = self.variables@[c.sat_by as int].value;
                            x <= 1 && has_lit(c, c.sat_by, x == 1)
                        } by {
                            assert(self.clauses@[k] == sd.clauses@[k]);
                        }
                    }
                }
                return Ok(());
            }
            let (next_variable, next_value) = self.dlis();
            if next_variable >= n {
                return Err(Halt);
            }
            self.set_value(next_variable, next_value, false)?;
            proof { lemma_same_formula_shape(s0, *self); }
        }
        Ok(())
    }

    /// Checks a solved state: no free variable, no unmarked clause, and
    /// every clause holding a literal made true by its variable's value.
    pub fn validate(&self) -> (r: bool)
        requires
            self.in_table(),
        ensures
            r == self.validate_spec(),
    {
        let n = self.variables.len();
        let mut i: usize = 0;
        while i < n
            invariant
                n == self.variables@.len(),
                i <= n,
                forall|v: int| 0 <= v < i ==> (#[trigger] self.variables@[v]).value != 2,
            decreases n - i,
        {
            if self.variables[i].value == 2 {
                return false;
            }
            i += 1;
        }
        let mut i: usize = 0;
        while i < self.clauses.len()
            invariant
                n == self.variables@.len(),
                i <= self.clauses@.len(),
                forall|k: int| 0 <= k < i ==> (#[trigger] self.clauses@[k]).sat_by != n,
            decreases self.clauses@.len() - i,
        {
            if self.clauses[i].sat_by == n {
                return false;
            }
            i += 1;
        }
        let mut i: usize = 0;
        while i < self.clauses.len()
            invariant
                self.in_table(),
                n == self.variables@.len(),
                i <= self.clauses@.len(),
                forall|v: int| 0 <= v < n ==> (#[trigger] self.variables@[v]).value != 2,
                forall|k: int| 0 <= k < self.clauses@.len() ==> (#[trigger] self.clauses@[k]).sat_by != n,
                forall|k: int| 0 <= k < i ==> clause_true(#[trigger] self.clauses@[k], self.variables@),
            decreases self.clauses@.len() - i,
        {
            let c = &self.clauses[i];
            let mut sat = false;
            let mut j: usize = 0;
            while j < c.variables.len() && !sat
                invariant
                    c == self.clauses@[i as int],
                    c.signs@.len() == c.variables@.len(),
                    forall|q: int| 0 <= q < c.variables@.len() ==> #[trigger] c.variables@[q] < n,
                    n == self.variables@.len(),
                    j <= c.variables@.len(),
                    sat ==> clause_true(*c, self.variables@),
                    !sat ==> forall|q: int| 0 <= q < j ==> self.variables@[c.variables@[q] as int].value != want(#[trigger] c.signs@[q]),
                decreases c.variables@.len() - j,
            {
                let want_value: usize = if c.signs[j] { 1 } else { 0 };
                if want_value == self.variables[c.variables[j]].value {
                    sat = true;
                }
                j += 1;
            }
            if !sat {
                return false;
            }
            i += 1;
        }
        true
    }
}

} // verus!
