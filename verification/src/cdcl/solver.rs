//! The CDCL solver as a state machine: building the clause database from a
//! DIMACS file, simplifying it, and searching one step at a time.
use vstd::prelude::*;
use crate::dimacs::{DimacsLine, LineSpec, line_view};
use crate::cdcl::types::{Clause, Variable, Halt, db_ok, clause_ok, variable_ok, max_vars, lit_int, sign_of};
use crate::cdcl::literals::{remove_duplicate_vars, has_complementary, strictly_increasing, negatable};
use crate::cdcl::watch::{double_watch, values_kept, lists_mirror, watchers, watches_lit, lemma_watchers_prefix, watch_list, watch_list_replaced};
use crate::cdcl::heuristics::{pq_ok, indices_ok, trail_ok, vsids, last_free, update_priority, set_priority_queue,
    literals_listed, scores_fit, literal_listed, live_occ, lit_occ, clause_occ, fresh_entries, earlier_same,
    set_restart_criterium, delete_clauses, restart, max_restarts, only_activity_changed, only_values_changed};
use crate::cdcl::preprocess::{preprocessing1, preprocessing2, rules_ok, db_ready, clause_ready_but, live_true, models_into,
    rule_holds, rules_hold_from};
use crate::cdcl::search::{search_ok, queue_ok, set_value, lemma_only_values_keep_db};

verus! {

/// The literals of all literal lines, in order.
pub open spec fn all_lits(items: Seq<LineSpec>, k: int) -> Seq<i32>
    decreases k,
{
    if k <= 0 {
        Seq::empty()
    } else {
        let prev = all_lits(items, k - 1);
        match items[k - 1] {
            LineSpec::Literals(l) => prev + l,
            LineSpec::Header(_) => prev,
        }
    }
}

/// The number of variables the problem lines declare (each adds its count).
pub open spec fn declared_vars(items: Seq<LineSpec>, k: int) -> int
    decreases k,
{
    if k <= 0 {
        0
    } else {
        declared_vars(items, k - 1) + match items[k - 1] {
            LineSpec::Header(v) => v as int,
            LineSpec::Literals(_) => 0int,
        }
    }
}

/// The chunks closed within the first `n` literals (at each `0`), and the chunk still open.
pub open spec fn chunks_upto(s: Seq<i32>, n: int) -> (Seq<Seq<i32>>, Seq<i32>)
    decreases n,
{
    if n <= 0 {
        (Seq::empty(), Seq::empty())
    } else {
        let (done, cur) = chunks_upto(s, n - 1);
        if s[n - 1] == 0 { (done.push(cur), Seq::empty()) } else { (done, cur.push(s[n - 1])) }
    }
}

/// The pieces of `s` between zeros, as `slice::split` yields them.
pub open spec fn split_at_zeros(s: Seq<i32>) -> Seq<Seq<i32>> {
    let (done, cur) = chunks_upto(s, s.len() as int);
    done.push(cur)
}

/// A chunk that makes a clause: non-empty, no `i32::MIN`, every variable
/// below `nvars`.
pub open spec fn chunk_ok(c: Seq<i32>, nvars: int) -> bool {
    &&& c.len() > 0
    &&& forall|i: int| 0 <= i < c.len() ==> #[trigger] c[i] != i32::MIN && -nvars < c[i] < nvars
}

/// Does the file make a clause database: it declares fewer than `2^31`
/// variables in all, holds at least one literal, and every chunk of its
/// literals (without the last one) between zeros makes a clause?
pub open spec fn init_accepts(items: Seq<LineSpec>) -> bool {
    let lits = all_lits(items, items.len() as int);
    let nvars = declared_vars(items, items.len() as int) + 1;
    &&& nvars <= max_vars()
    &&& lits.len() > 0
    &&& forall|k: int| 0 <= k < split_at_zeros(lits.drop_last()).len() ==> chunk_ok(#[trigger] split_at_zeros(lits.drop_last())[k], nvars)
}

/// The chunks that are not tautologies.
pub open spec fn kept_chunks(chunks: Seq<Seq<i32>>) -> Seq<Seq<i32>> {
    chunks.filter(|c: Seq<i32>| !has_complementary(c))
}

/// Clause `c` holds exactly the literals of `chunk`, in increasing order.
pub open spec fn clause_of_chunk(c: Clause, chunk: Seq<i32>) -> bool {
    &&& forall|a: int, b: int| 0 <= a < b < c.variables@.len() ==> clause_lit(c, a) < clause_lit(c, b)
    &&& forall|x: i32| chunk.contains(x) <==> exists|j: int| 0 <= j < c.variables@.len() && clause_lit(c, j) == x as int
}

/// A clause of two or more literals watches its first two variables.
pub open spec fn watches_first_two(c: Clause) -> bool {
    c.variables@.len() >= 2 ==> c.watched@ == seq![c.variables@[0], c.variables@[1]]
}

/// A literal occurs at most once among distinct variables.
pub proof fn lemma_lit_occ_distinct(vars: Seq<usize>, signs: Seq<bool>, v: usize, s: bool, k: int)
    requires
        0 <= k <= vars.len(),
        forall|a: int, b: int| 0 <= a < b < vars.len() ==> vars[a] != vars[b],
    ensures
        lit_occ(vars, signs, v, s, k) <= 1,
        (forall|q: int| 0 <= q < k ==> vars[q] != v) ==> lit_occ(vars, signs, v, s, k) == 0,
    decreases k,
{
    if k > 0 {
        lemma_lit_occ_distinct(vars, signs, v, s, k - 1);
        if vars[k - 1] == v {
            assert forall|q: int| 0 <= q < k - 1 implies vars[q] != v by {}
        }
    }
}

/// Over ready clauses, a literal occurs at most once per clause.
pub proof fn lemma_live_occ_bound(clauses: Seq<Clause>, deleted: Seq<usize>, variables: Seq<Variable>, k: int, v: usize, s: bool)
    requires
        0 <= k <= clauses.len(),
        db_ready(clauses, deleted, variables),
    ensures
        live_occ(clauses, deleted, k, v, s) <= k,
    decreases k,
{
    if k > 0 {
        lemma_live_occ_bound(clauses, deleted, variables, k - 1, v, s);
        if !deleted.contains((k - 1) as usize) {
            let c = clauses[k - 1];
            assert(clause_ready_but(c, variables, -1));
            lemma_lit_occ_distinct(c.variables@, c.signs@, v, s, c.variables@.len() as int);
        }
    }
}

/// The fresh entries list both literals of every free variable below `m`.
pub proof fn lemma_fresh_listed(variables: Seq<Variable>, m: int, v: int, s: bool)
    requires
        1 <= v < m <= variables.len(),
        m <= usize::MAX,
        variables[v].value == 2,
    ensures
        literal_listed(fresh_entries(variables, m), v, s, fresh_entries(variables, m).len() as int),
    decreases m,
{
    let f = fresh_entries(variables, m);
    if v < m - 1 {
        lemma_fresh_listed(variables, m - 1, v, s);
        let p = fresh_entries(variables, m - 1);
        let k = choose|k: int| 0 <= k < p.len() && p[k].1 == v && p[k].2 == s;
        if variables[m - 1].value == 2 {
            assert(f[k] == p[k]);
        } else {
            assert(f == p);
        }
        assert(f[k].1 == v && f[k].2 == s);
        assert(literal_listed(f, v, s, f.len() as int));
    } else {
        let p = fresh_entries(variables, m - 1);
        if s {
            assert(f[p.len() as int] == (0usize, v as usize, true));
            assert(f[p.len() as int].1 == v && f[p.len() as int].2 == s);
        } else {
            assert(f[p.len() as int + 1] == (0usize, v as usize, false));
            assert(f[p.len() as int + 1].1 == v && f[p.len() as int + 1].2 == s);
        }
        assert(literal_listed(f, v, s, f.len() as int));
    }
}

/// The fresh entries have score zero.
pub proof fn lemma_fresh_zero(variables: Seq<Variable>, m: int, k: int)
    requires
        0 <= k < fresh_entries(variables, m).len(),
    ensures
        fresh_entries(variables, m)[k].0 == 0,
    decreases m,
{
    if m > 1 {
        let p = fresh_entries(variables, m - 1);
        if k < p.len() {
            lemma_fresh_zero(variables, m - 1, k);
            if variables[m - 1].value == 2 {
                assert(fresh_entries(variables, m)[k] == p[k]);
            }
        }
    }
}

/// A clause with distinct variables, all free, that watches its first two
/// is ready for simplification.
pub proof fn lemma_fresh_clause_ready(c: Clause, variables: Seq<Variable>)
    requires
        clause_ok(c, variables.len()),
        watches_first_two(c),
        forall|a: int, b: int| 0 <= a < b < c.variables@.len() ==> c.variables@[a] != c.variables@[b],
        forall|v: int| 0 <= v < variables.len() ==> (#[trigger] variables[v]).value == 2,
    ensures
        clause_ready_but(c, variables, -1),
{
    if c.variables@.len() >= 2 {
        assert(c.variables@[0] == c.watched@[0]);
        assert(c.variables@[1] == c.watched@[1]);
    }
}

/// Literal `j` of clause `c`.
pub open spec fn clause_lit(c: Clause, j: int) -> int {
    lit_int(c.variables@[j], c.signs@[j])
}

/// A fresh variable: free, watched by nothing, with no activity.
pub open spec fn fresh_variable(v: Variable) -> bool {
    &&& v.value == 2
    &&& v.pos_watched_occ@.len() == 0
    &&& v.neg_watched_occ@.len() == 0
    &&& v.r@ == seq![0usize, 0usize]
}

fn new_variable() -> (v: Variable)
    ensures
        v.value == 2,
        v.pos_watched_occ@.len() == 0,
        v.neg_watched_occ@.len() == 0,
        v.r@ == seq![0usize, 0usize],
{
    let v = Variable { value: 2, pos_watched_occ: Vec::new(), neg_watched_occ: Vec::new(), r: [0, 0] };
    proof { assert(v.r@ =~= seq![0usize, 0usize]); }
    v
}

/// Turns one chunk into a clause: its literals are sorted and repeated ones
/// dropped; a chunk holding a literal and its negation is skipped; otherwise
/// the clause is appended and, with more than one literal, watches its first
/// two variables.
fn add_chunk(clauses: &mut Vec<Clause>, variables: &mut Vec<Variable>, chunk: &mut Vec<i32>) -> (ok: bool)
    requires
        db_ok(old(clauses)@, old(variables)@),
        chunk_ok(old(chunk)@, old(variables)@.len() as int),
        lists_mirror(old(clauses)@, old(variables)@),
    ensures
        ok ==> lists_mirror(final(clauses)@, final(variables)@),
        (forall|i: int| 0 <= i < old(chunk)@.len() ==> #[trigger] old(chunk)@[i] != 0) ==> ok,
        ok ==> db_ok(final(clauses)@, final(variables)@),
        ok ==> values_kept(old(variables)@, final(variables)@),
        ok ==> forall|v: int| 0 <= v < old(variables)@.len() ==> (#[trigger] final(variables)@[v]).r == old(variables)@[v].r,
        ok ==> if has_complementary(old(chunk)@) {
            final(clauses)@ == old(clauses)@
        } else {
            &&& final(clauses)@.len() == old(clauses)@.len() + 1
            &&& final(clauses)@.take(old(clauses)@.len() as int) == old(clauses)@
            &&& clause_of_chunk(final(clauses)@.last(), old(chunk)@)
            &&& !final(clauses)@.last().learned
            &&& watches_first_two(final(clauses)@.last())
            &&& forall|a: int, b: int| 0 <= a < b < final(clauses)@.last().variables@.len()
                ==> final(clauses)@.last().variables@[a] != final(clauses)@.last().variables@[b]
        },
{
    let ghost c0 = chunk@;
    proof {
        assert forall|i: int| 0 <= i < c0.len() implies #[trigger] c0[i] != i32::MIN by {}
    }
    if !remove_duplicate_vars(chunk) {
        return true;
    }
    let mut vars: Vec<usize> = Vec::new();
    let mut signs: Vec<bool> = Vec::new();
    let mut i: usize = 0;
    while i < chunk.len()
        invariant
            i <= chunk@.len(),
            vars@.len() == i,
            signs@.len() == i,
            strictly_increasing(chunk@),
            c0 == old(chunk)@,
            forall|x: i32| chunk@.contains(x) <==> c0.contains(x),
            chunk_ok(c0, variables@.len() as int),
            forall|j: int| 0 <= j < i ==> 1 <= #[trigger] vars@[j] < variables@.len() && lit_int(vars@[j], signs@[j]) == chunk@[j] as int,
        decreases chunk@.len() - i,
    {
        let x = chunk[i];
        proof {
            assert(chunk@.contains(x));
            assert(c0.contains(x));
            let q = choose|q: int| 0 <= q < c0.len() && c0[q] == x;
            assert(c0[q] != i32::MIN && -(variables@.len() as int) < c0[q] < variables@.len());
        }
        if x == 0 {
            proof {
                let q = choose|q: int| 0 <= q < c0.len() && c0[q] == x;
                assert(c0[q] == 0);
            }
            return false;
        }
        let v: usize = if x < 0 { (-x) as usize } else { x as usize };
        vars.push(v);
        signs.push(x > 0);
        i += 1;
    }
    let clause = Clause { variables: vars, signs: signs, watched: [0, 0], learned: false };
    let ghost cl = clauses@;
    clauses.push(clause);
    proof {
        assert forall|k: int| 0 <= k < clauses@.len() implies clause_ok(#[trigger] clauses@[k], variables@.len()) by {
            if k < cl.len() { assert(clauses@[k] == cl[k]); }
        }
        assert forall|v: int| 0 <= v < variables@.len() implies variable_ok(#[trigger] variables@[v], clauses@.len()) by {
            assert(variable_ok(variables@[v], cl.len()));
        }
        assert(clauses@.take(cl.len() as int) =~= cl);
        let c = clauses@.last();
        assert forall|j: int| 0 <= j < c.variables@.len() implies clause_lit(c, j) == chunk@[j] as int by {}
        assert forall|a: int, b: int| 0 <= a < b < c.variables@.len() implies c.variables@[a] != c.variables@[b] by {
            if c.variables@[a] == c.variables@[b] {
                let la = chunk@[a];
                let lb = chunk@[b];
                assert(la < lb);
                assert(clause_lit(c, a) == la as int && clause_lit(c, b) == lb as int);
                assert(lb as int == -(la as int));
                assert(chunk@.contains(la) && chunk@.contains(lb));
                assert(c0.contains(la) && c0.contains(lb));
                let q = choose|q: int| 0 <= q < c0.len() && c0[q] == la;
                assert(c0.contains((-c0[q]) as i32));
                assert(has_complementary(c0));
            }
        }
        assert forall|x: i32| c0.contains(x) <==> exists|j: int| 0 <= j < c.variables@.len() && clause_lit(c, j) == x as int by {
            if c0.contains(x) {
                assert(chunk@.contains(x));
                let j = choose|j: int| 0 <= j < chunk@.len() && chunk@[j] == x;
                assert(clause_lit(c, j) == x as int);
            }
            if exists|j: int| 0 <= j < c.variables@.len() && clause_lit(c, j) == x as int {
                let j = choose|j: int| 0 <= j < c.variables@.len() && clause_lit(c, j) == x as int;
                assert(chunk@[j] == x);
                assert(chunk@.contains(x));
            }
        }
    }
    let n = clauses.len() - 1;
    if clauses[n].variables.len() > 1 {
        let v0 = clauses[n].variables[0];
        let v1 = clauses[n].variables[1];
        let ghost cb = clauses@;
        let ghost vb = variables@;
        proof {
            assert(clause_of_chunk(cb.last(), c0));
            assert(cb[n as int].variables@.contains(v0)) by { assert(cb[n as int].variables@[0] == v0); }
            assert(cb[n as int].variables@.contains(v1)) by { assert(cb[n as int].variables@[1] == v1); }
        }
        if !double_watch(clauses, variables, n, v0, v1) {
            return false;
        }
        proof {
            let c = cb[n as int];
            let s0 = crate::cdcl::types::sign_of(c, v0);
            let s1 = crate::cdcl::types::sign_of(c, v1);
            let mid = choose|mid: Seq<Variable>|
                crate::cdcl::watch::watch_list_replaced(vb, mid, v0, s0,
                    crate::cdcl::watch::watch_list(vb[v0 as int], s0).push(n))
                && crate::cdcl::watch::watch_list_replaced(mid, variables@, v1, s1,
                    crate::cdcl::watch::watch_list(mid[v1 as int], s1).push(n));
            assert forall|v: int| 0 <= v < vb.len() implies (#[trigger] variables@[v]).r == vb[v].r by {
                if v != v1 { assert(variables@[v] == mid[v]); }
                if v != v0 { assert(mid[v] == vb[v]); }
            }
        }
        proof {
            let a = cb.last();
            let b = clauses@.last();
            assert(b.variables@ == a.variables@);
            assert(b.signs@ == a.signs@);
            assert forall|j: int| 0 <= j < b.variables@.len() implies clause_lit(b, j) == clause_lit(a, j) by {}
            assert(clause_of_chunk(b, c0));
            assert(b.watched@ == seq![v0, v1]);
            assert(a.variables@[0] == v0 && a.variables@[1] == v1);
            assert(watches_first_two(b));
            assert(clauses@.take(cl.len() as int) =~= cl) by {
                assert forall|k: int| 0 <= k < cl.len() implies clauses@.take(cl.len() as int)[k] == cl[k] by {
                    assert(clauses@[k] == cb[k]);
                }
            }
        }
        proof {
            let c = cb[n as int];
            assert(v0 != v1) by {
                if v0 == v1 {
                    let l0 = chunk@[0];
                    let l1 = chunk@[1];
                    assert(l0 < l1);
                    assert(clause_lit(c, 0) == l0 as int && clause_lit(c, 1) == l1 as int);
                    assert(l1 as int == -(l0 as int));
                    assert(chunk@.contains(l0) && chunk@.contains(l1));
                    assert(c0.contains(l0) && c0.contains(l1));
                    let q = choose|q: int| 0 <= q < c0.len() && c0[q] == l0;
                    assert(c0.contains((-c0[q]) as i32));
                    assert(has_complementary(c0));
                }
            }
            let s0 = sign_of(c, v0);
            let s1 = sign_of(c, v1);
            let mid = choose|mid: Seq<Variable>|
                watch_list_replaced(vb, mid, v0, s0, watch_list(vb[v0 as int], s0).push(n))
                && watch_list_replaced(mid, variables@, v1, s1, watch_list(mid[v1 as int], s1).push(n));
            let f = clauses@;
            assert(f[n as int].variables@ == c.variables@ && f[n as int].signs@ == c.signs@);
            assert(sign_of(f[n as int], v0) == s0 && sign_of(f[n as int], v1) == s1);
            assert forall|v: int, s: bool| 0 <= v < variables@.len() implies
                #[trigger] watch_list(variables@[v], s) == watchers(f, v, s, f.len() as int) by {
                lemma_watchers_prefix(f, cl, v, s, n as int);
                assert(watch_list(vb[v], s) == watchers(cl, v, s, cl.len() as int));
                assert(watchers(f, v, s, n + 1) == watchers(f, v, s, n as int)
                    + if watches_lit(f[n as int], v, s) { seq![n] } else { Seq::<usize>::empty() });
                if v == v0 {
                    assert(variables@[v] == mid[v]);
                } else if v == v1 {
                    assert(mid[v] == vb[v]);
                } else {
                    assert(variables@[v] == mid[v]);
                    assert(mid[v] == vb[v]);
                }
            }
        }
    } else {
        proof {
            let f = clauses@;
            assert forall|v: int, s: bool| 0 <= v < variables@.len() implies
                #[trigger] watch_list(variables@[v], s) == watchers(f, v, s, f.len() as int) by {
                lemma_watchers_prefix(f, cl, v, s, n as int);
                assert(watch_list(variables@[v], s) == watchers(cl, v, s, cl.len() as int));
            }
        }
    }
    true
}

/// Is every literal of the chunk allowed (see [`chunk_ok`])?
fn check_chunk(c: &Vec<i32>, nvars: usize) -> (res: bool)
    ensures
        res == chunk_ok(c@, nvars as int),
{
    if c.len() == 0 {
        return false;
    }
    let mut i: usize = 0;
    while i < c.len()
        invariant
            i <= c@.len(),
            forall|q: int| 0 <= q < i ==> #[trigger] c@[q] != i32::MIN && -(nvars as int) < c@[q] < nvars,
        decreases c@.len() - i,
    {
        let x = c[i];
        if x == i32::MIN {
            return false;
        }
        let a: u64 = if x < 0 { (-x) as u64 } else { x as u64 };
        if a >= nvars as u64 {
            return false;
        }
        i += 1;
    }
    true
}

/// Earlier closed chunks stay closed, in order.
pub proof fn lemma_chunks_prefix(s: Seq<i32>, m: int, n: int)
    requires
        0 <= m <= n <= s.len(),
    ensures
        chunks_upto(s, m).0.len() <= chunks_upto(s, n).0.len(),
        forall|k: int| 0 <= k < chunks_upto(s, m).0.len() ==> #[trigger] chunks_upto(s, n).0[k] == chunks_upto(s, m).0[k],
    decreases n - m,
{
    if m < n {
        lemma_chunks_prefix(s, m, n - 1);
        let p = chunks_upto(s, n - 1).0;
        let q = chunks_upto(s, n).0;
        assert forall|k: int| 0 <= k < chunks_upto(s, m).0.len() implies #[trigger] q[k] == chunks_upto(s, m).0[k] by {
            assert(q[k] == p[k]);
        }
    }
}

/// Declared variable counts never decrease.
pub proof fn lemma_declared_grows(items: Seq<LineSpec>, m: int, n: int)
    requires
        0 <= m <= n,
    ensures
        declared_vars(items, m) <= declared_vars(items, n),
    decreases n - m,
{
    if m < n {
        lemma_declared_grows(items, m, n - 1);
    }
}

/// Filtering a sequence with one more element.
pub proof fn lemma_kept_push(done: Seq<Seq<i32>>, c: Seq<i32>)
    ensures
        kept_chunks(done.push(c)) == (if has_complementary(c) { kept_chunks(done) } else { kept_chunks(done).push(c) }),
{
    reveal(Seq::filter);
    assert(done.push(c).drop_last() == done);
    assert(done.push(c).last() == c);
}

/// The clause database of a DIMACS file: a placeholder variable and one
/// free variable per declared variable; the literals of all literal lines
/// except the last one, split at zeros, each chunk becoming a clause with its
/// literals sorted and repeated ones dropped (a chunk holding a literal and
/// its negation is skipped), a clause of more than one literal watching its
/// first two variables and sitting in exactly their watch lists. The
/// database is ready for simplification (see [`db_ready`]). `None` when the
/// file does not make a database (see [`init_accepts`]).
pub fn init(items: &Vec<DimacsLine>) -> (res: Option<(Vec<Clause>, Vec<Variable>)>)
    ensures
        res is Some <==> init_accepts(items@.map_values(|l: DimacsLine| line_view(l))),
        res matches Some((clauses, variables)) ==> {
            let its = items@.map_values(|l: DimacsLine| line_view(l));
            let chunks = split_at_zeros(all_lits(its, its.len() as int).drop_last());
            &&& db_ok(clauses@, variables@)
            &&& variables@.len() == declared_vars(its, its.len() as int) + 1
            &&& forall|v: int| 0 <= v < variables@.len() ==> (#[trigger] variables@[v]).value == 2 && variables@[v].r@ == seq![0usize, 0usize]
            &&& clauses@.len() == kept_chunks(chunks).len()
            &&& forall|k: int| 0 <= k < clauses@.len() ==> clause_of_chunk(#[trigger] clauses@[k], kept_chunks(chunks)[k]) && !clauses@[k].learned
            &&& forall|k: int| 0 <= k < clauses@.len() ==> watches_first_two(#[trigger] clauses@[k])
            &&& lists_mirror(clauses@, variables@)
            &&& db_ready(clauses@, Seq::empty(), variables@)
        },
{
    let ghost its = items@.map_values(|l: DimacsLine| line_view(l));
    let mut variables: Vec<Variable> = Vec::new();
    variables.push(new_variable());
    let mut lits: Vec<i32> = Vec::new();
    let mut k: usize = 0;
    while k < items.len()
        invariant
            its == items@.map_values(|l: DimacsLine| line_view(l)),
            k <= items@.len(),
            variables@.len() == declared_vars(its, k as int) + 1,
            variables@.len() <= max_vars(),
            lits@ == all_lits(its, k as int),
            forall|v: int| 0 <= v < variables@.len() ==> fresh_variable(#[trigger] variables@[v]),
            declared_vars(its, k as int) >= 0,
        decreases items@.len() - k,
    {
        proof { assert(its[k as int] == line_view(items@[k as int])); }
        match &items[k] {
            DimacsLine::Header(v) => {
                let count = *v;
                if count as u64 > (0x8000_0000u64 - variables.len() as u64) {
                    proof {
                        lemma_declared_grows(its, k + 1, its.len() as int);
                    }
                    return None;
                }
                let mut c: usize = 0;
                let ghost v0 = variables@;
                while c < count
                    invariant
                        c <= count,
                        variables@.len() == v0.len() + c,
                        v0.len() + count <= max_vars(),
                        forall|q: int| 0 <= q < variables@.len() ==> fresh_variable(#[trigger] variables@[q]),
                    decreases count - c,
                {
                    variables.push(new_variable());
                    c += 1;
                }
            },
            DimacsLine::Literals(l) => {
                let mut j: usize = 0;
                let ghost l0 = lits@;
                while j < l.len()
                    invariant
                        j <= l@.len(),
                        lits@ == l0 + l@.take(j as int),
                    decreases l@.len() - j,
                {
                    lits.push(l[j]);
                    proof { assert(l@.take(j + 1) == l@.take(j as int).push(l@[j as int])); }
                    j += 1;
                }
                proof { assert(l@.take(l@.len() as int) == l@); }
            },
        }
        k += 1;
    }
    if lits.len() == 0 {
        return None;
    }
    let nvars = variables.len();
    proof {
        assert(items@.len() == its.len());
        assert forall|v: int| 0 <= v < variables@.len() implies variable_ok(#[trigger] variables@[v], 0) by {
            assert(fresh_variable(variables@[v]));
        }
        assert(db_ok(Seq::<Clause>::empty(), variables@));
    }
    let n = lits.len() - 1;
    let ghost sq = lits@.drop_last();
    let mut clauses: Vec<Clause> = Vec::new();
    let mut cur: Vec<i32> = Vec::new();
    proof {
        assert(db_ready(clauses@, Seq::empty(), variables@));
        assert forall|v: int, s: bool| 0 <= v < variables@.len() implies
            #[trigger] watch_list(variables@[v], s) == watchers(clauses@, v, s, clauses@.len() as int) by {
            assert(fresh_variable(variables@[v]));
            assert(watch_list(variables@[v], s) =~= Seq::<usize>::empty());
        }
    }
    let mut i: usize = 0;
    while i < n
        invariant
            n == lits@.len() - 1,
            sq == lits@.drop_last(),
            its == items@.map_values(|l: DimacsLine| line_view(l)),
            lits@ == all_lits(its, its.len() as int),
            nvars == declared_vars(its, its.len() as int) + 1,
            i <= n,
            nvars == variables@.len(),
            nvars <= max_vars(),
            nvars >= 1,
            cur@ == chunks_upto(sq, i as int).1,
            forall|q: int| 0 <= q < cur@.len() ==> #[trigger] cur@[q] != 0,
            db_ok(clauses@, variables@),
            forall|v: int| 0 <= v < variables@.len() ==> (#[trigger] variables@[v]).value == 2 && variables@[v].r@ == seq![0usize, 0usize],
            forall|q: int| 0 <= q < chunks_upto(sq, i as int).0.len() ==> chunk_ok(#[trigger] chunks_upto(sq, i as int).0[q], nvars as int),
            clauses@.len() == kept_chunks(chunks_upto(sq, i as int).0).len(),
            forall|q: int| 0 <= q < clauses@.len() ==> clause_of_chunk(#[trigger] clauses@[q], kept_chunks(chunks_upto(sq, i as int).0)[q]) && !clauses@[q].learned,
            forall|q: int| 0 <= q < clauses@.len() ==> watches_first_two(#[trigger] clauses@[q]),
            lists_mirror(clauses@, variables@),
            db_ready(clauses@, Seq::empty(), variables@),
        decreases n - i,
    {
        let x = lits[i];
        if x == 0 {
            let ghost done = chunks_upto(sq, i as int).0;
            proof { lemma_kept_push(done, cur@); }
            if !check_chunk(&cur, nvars) {
                proof {
                    lemma_chunks_prefix(sq, i + 1, sq.len() as int);
                    assert(chunks_upto(sq, i + 1).0[done.len() as int] == cur@);
                    assert(split_at_zeros(sq)[done.len() as int] == cur@);
                }
                return None;
            }
            let ghost cb = clauses@;
            let ghost vb = variables@;
            let ghost cv = cur@;
            let ok = add_chunk(&mut clauses, &mut variables, &mut cur);
            if !ok {
                return None;
            }
            proof {
                assert forall|v: int| 0 <= v < variables@.len() implies (#[trigger] variables@[v]).value == 2 && variables@[v].r@ == seq![0usize, 0usize] by {
                    assert(variables@[v].value == vb[v].value);
                    assert(variables@[v].r == vb[v].r);
                }
                assert forall|q: int| 0 <= q < clauses@.len() implies clause_of_chunk(#[trigger] clauses@[q], kept_chunks(chunks_upto(sq, i + 1).0)[q]) && !clauses@[q].learned by {
                    if q < cb.len() {
                        assert(clauses@[q] == cb[q]) by {
                            if !has_complementary(cv) {
                                assert(clauses@.take(cb.len() as int)[q] == cb[q]);
                            }
                        }
                    }
                }
                assert forall|q: int| 0 <= q < clauses@.len() && !Seq::<usize>::empty().contains(q as usize)
                    implies clause_ready_but(#[trigger] clauses@[q], variables@, -1) by {
                    assert(clause_ok(clauses@[q], variables@.len()));
                    if q < cb.len() {
                        assert(clauses@[q] == cb[q]) by {
                            if !has_complementary(cv) {
                                assert(clauses@.take(cb.len() as int)[q] == cb[q]);
                            }
                        }
                        assert(clause_ready_but(cb[q], vb, -1));
                        assert forall|t: int| 0 <= t < cb[q].variables@.len() && cb[q].variables@[t] != -1
                            implies variables@[#[trigger] cb[q].variables@[t] as int].value == 2 by {
                            assert(clause_ok(cb[q], vb.len()));
                        }
                    } else {
                        lemma_fresh_clause_ready(clauses@[q], variables@);
                    }
                }
                assert forall|q: int| 0 <= q < clauses@.len() implies watches_first_two(#[trigger] clauses@[q]) by {
                    if q < cb.len() {
                        assert(clauses@[q] == cb[q]) by {
                            if !has_complementary(cv) {
                                assert(clauses@.take(cb.len() as int)[q] == cb[q]);
                            }
                        }
                    }
                }
                assert forall|q: int| 0 <= q < chunks_upto(sq, i + 1).0.len() implies chunk_ok(#[trigger] chunks_upto(sq, i + 1).0[q], nvars as int) by {
                    if q < done.len() {
                        assert(chunks_upto(sq, i + 1).0[q] == done[q]);
                    }
                }
            }
            cur = Vec::new();
        } else {
            cur.push(x);
        }
        i += 1;
    }
    let ghost done = chunks_upto(sq, n as int).0;
    proof {
        lemma_kept_push(done, cur@);
        assert(split_at_zeros(sq) == done.push(cur@));
        assert(sq.len() == n);
    }
    if !check_chunk(&cur, nvars) {
        proof { assert(split_at_zeros(sq)[done.len() as int] == cur@); }
        return None;
    }
    let ghost cb = clauses@;
    let ghost vb = variables@;
    let ghost cv = cur@;
    if !add_chunk(&mut clauses, &mut variables, &mut cur) {
        return None;
    }
    proof {
        assert forall|v: int| 0 <= v < variables@.len() implies (#[trigger] variables@[v]).value == 2 && variables@[v].r@ == seq![0usize, 0usize] by {
            assert(variables@[v].value == vb[v].value);
            assert(variables@[v].r == vb[v].r);
        }
        assert forall|q: int| 0 <= q < clauses@.len() implies clause_of_chunk(#[trigger] clauses@[q], kept_chunks(split_at_zeros(sq))[q]) && !clauses@[q].learned by {
            if q < cb.len() {
                assert(clauses@[q] == cb[q]) by {
                    if !has_complementary(cv) {
                        assert(clauses@.take(cb.len() as int)[q] == cb[q]);
                    }
                }
            }
        }
        assert forall|q: int| 0 <= q < clauses@.len() && !Seq::<usize>::empty().contains(q as usize)
            implies clause_ready_but(#[trigger] clauses@[q], variables@, -1) by {
            assert(clause_ok(clauses@[q], variables@.len()));
            if q < cb.len() {
                assert(clauses@[q] == cb[q]) by {
                    if !has_complementary(cv) {
                        assert(clauses@.take(cb.len() as int)[q] == cb[q]);
                    }
                }
                assert(clause_ready_but(cb[q], vb, -1));
                assert forall|t: int| 0 <= t < cb[q].variables@.len() && cb[q].variables@[t] != -1
                    implies variables@[#[trigger] cb[q].variables@[t] as int].value == 2 by {
                    assert(clause_ok(cb[q], vb.len()));
                }
            } else {
                lemma_fresh_clause_ready(clauses@[q], variables@);
            }
        }
        assert forall|q: int| 0 <= q < clauses@.len() implies watches_first_two(#[trigger] clauses@[q]) by {
            if q < cb.len() {
                assert(clauses@[q] == cb[q]) by {
                    if !has_complementary(cv) {
                        assert(clauses@.take(cb.len() as int)[q] == cb[q]);
                    }
                }
            }
        }
        assert forall|q: int| 0 <= q < split_at_zeros(sq).len() implies chunk_ok(#[trigger] split_at_zeros(sq)[q], nvars as int) by {
            if q < done.len() {
                assert(split_at_zeros(sq)[q] == done[q]);
            }
        }
    }
    Some((clauses, variables))
}

/// Where the search stands after a step.
#[derive(Debug, Clone, Copy, PartialEq, Eq)]
pub enum Outcome {
    Running,
    Satisfiable,
    Unsatisfiable,
}

/// The whole state of the CDCL search.
pub struct CdclSolver {
    pub clauses: Vec<Clause>,
    pub variables: Vec<Variable>,
    pub queue: Vec<(usize, bool, bool, usize)>,
    pub backtracking_stack: Vec<(usize, usize, bool, usize)>,
    pub cur_depth: usize,
    pub deleted_clauses: Vec<usize>,
    pub priority_queue: Vec<(usize, usize, bool)>,
    pub phase_saving: bool,
    pub phases: Vec<usize>,
    pub restarts_count: usize,
    pub restart_criterium: usize,
    pub replacement_rules: Vec<(usize, usize, bool)>,
    pub heuristic_count: usize,
    pub conflicts_count: usize,
    pub unsat: bool,
}

/// The values of a variable table.
pub open spec fn values_of(vs: Seq<Variable>) -> Seq<usize> {
    Seq::new(vs.len(), |i: int| vs[i].value)
}

/// One replacement rule applied: the replaced variable takes the value of
/// the other (negated, `0` becoming `1` and anything else `0`, when the rule
/// does not keep the sign).
pub open spec fn apply_rule(vals: Seq<usize>, r: (usize, usize, bool)) -> Seq<usize> {
    vals.update(r.0 as int, if r.2 { vals[r.1 as int] } else { if vals[r.1 as int] == 0 { 1usize } else { 0usize } })
}

/// The assignment that values give: a variable is true when its value is `1`.
pub open spec fn truth_of(vals: Seq<usize>) -> Seq<bool> {
    vals.map_values(|v: usize| v == 1)
}

/// Applying a replacement rule makes it hold: when the rule's source
/// variable has a value (`0` or `1`), afterwards the replaced variable is
/// true exactly when the source is (when the rule keeps the sign) or is not
/// (when it does not).
pub proof fn law_apply_rule_holds(vals: Seq<usize>, r: (usize, usize, bool))
    requires
        r.0 < vals.len(),
        r.1 < vals.len(),
        r.0 != r.1,
        vals[r.1 as int] <= 1,
    ensures
        rule_holds(truth_of(apply_rule(vals, r)), r),
{
    let w = apply_rule(vals, r);
    let t = truth_of(w);
    assert(w[r.1 as int] == vals[r.1 as int]);
    assert(t[r.0 as int] == (w[r.0 as int] == 1));
    assert(t[r.1 as int] == (w[r.1 as int] == 1));
    if r.2 {
        assert(w[r.0 as int] == vals[r.1 as int]);
    } else {
        assert(w[r.0 as int] == (if vals[r.1 as int] == 0 { 1usize } else { 0usize }));
    }
}

/// The first `k` rules applied in order.
pub open spec fn apply_rules(vals: Seq<usize>, rules: Seq<(usize, usize, bool)>, k: int) -> Seq<usize>
    decreases k,
{
    if k <= 0 { vals } else { apply_rule(apply_rules(vals, rules, k - 1), rules[k - 1]) }
}

/// `m` passes over all rules.
pub open spec fn apply_passes(vals: Seq<usize>, rules: Seq<(usize, usize, bool)>, m: int) -> Seq<usize>
    decreases m,
{
    if m <= 0 { vals } else { apply_rules(apply_passes(vals, rules, m - 1), rules, rules.len() as int) }
}

/// The model as signed literals: variable `i` (from `1`) when its value is
/// `1`, its negation otherwise.
pub open spec fn model_of(vals: Seq<usize>) -> Seq<int> {
    Seq::new((vals.len() - 1) as nat, |i: int| if vals[i + 1] == 1 { i + 1 } else { -(i + 1) })
}

impl CdclSolver {
    /// The well-formedness of the solver state.
    pub open spec fn wf(&self) -> bool {
        &&& search_ok(self.clauses@, self.variables@, self.queue@, self.backtracking_stack@, self.deleted_clauses@, self.priority_queue@)
        &&& self.phases@.len() == self.variables@.len()
        &&& rules_ok(self.replacement_rules@, self.variables@.len())
        &&& self.heuristic_count < 255
    }

    /// Simplifies a fresh clause database and sets up the search: the first
    /// simplification pass (asking `out_of_time` as it goes), unit
    /// propagation at level zero, and the priority entries; restarts begin
    /// after 550 conflicts, phase saving is on, every phase unset. The solver
    /// starts out unsatisfiable when simplification empties a clause. On a
    /// database ready for simplification (see [`db_ready`]), such as one
    /// that [`init`] builds, the result is `Ok`.
    pub fn prepare<F: Fn() -> bool>(clauses: Vec<Clause>, variables: Vec<Variable>, out_of_time: &F) -> (res: Result<CdclSolver, Halt>)
        requires
            db_ok(clauses@, variables@),
            out_of_time.requires(()),
        ensures
            db_ready(clauses@, Seq::empty(), variables@) ==> res is Ok,
            res matches Ok(s) ==> (db_ready(clauses@, Seq::empty(), variables@) && s.unsat ==>
                forall|m: Seq<bool>| m.len() == variables@.len() ==> !#[trigger] live_true(clauses@, Seq::<usize>::empty(), m)),
            res matches Ok(s) ==> (db_ready(clauses@, Seq::empty(), variables@) ==>
                forall|m: Seq<bool>| m.len() == variables@.len() && #[trigger] live_true(clauses@, Seq::<usize>::empty(), m)
                    ==> rules_hold_from(m, s.replacement_rules@, 0)),
            res matches Ok(s) ==> {
                &&& s.wf()
                &&& s.queue@.len() == 0
                &&& s.backtracking_stack@.len() == 0
                &&& s.cur_depth == 0
                &&& s.conflicts_count == 0
                &&& s.restarts_count == 0
                &&& s.restart_criterium == 550
                &&& s.phase_saving
                &&& forall|v: int| 0 <= v < s.phases@.len() ==> #[trigger] s.phases@[v] == 2
            },
    {
        let mut clauses = clauses;
        let mut variables = variables;
        let mut deleted_clauses: Vec<usize> = Vec::new();
        let mut priority_queue: Vec<(usize, usize, bool)> = Vec::new();
        let mut replacement_rules: Vec<(usize, usize, bool)> = Vec::new();
        let mut phases: Vec<usize> = Vec::new();
        let mut i: usize = 0;
        while i < variables.len()
            invariant
                i <= variables@.len(),
                phases@.len() == i,
                forall|v: int| 0 <= v < i ==> #[trigger] phases@[v] == 2,
            decreases variables@.len() - i,
        {
            phases.push(2);
            i += 1;
        }
        let ghost rdy = db_ready(clauses@, deleted_clauses@, variables@);
        let ghost c0 = clauses@;
        let ghost v0 = variables@;
        proof { assert(deleted_clauses@ == Seq::<usize>::empty()); }
        let mut unsat = !preprocessing1(&mut clauses, &mut deleted_clauses, &mut variables, &mut replacement_rules, out_of_time)?;
        let ghost c1 = clauses@;
        let ghost d1 = deleted_clauses@;
        if !unsat {
            unsat = !preprocessing2(&mut clauses, &mut deleted_clauses, &mut variables, &mut priority_queue)?;
            proof {
                if rdy && unsat {
                    assert forall|m: Seq<bool>| m.len() == v0.len() implies !#[trigger] live_true(c0, Seq::<usize>::empty(), m) by {
                        if live_true(c0, Seq::<usize>::empty(), m) {
                            assert(models_into(c0, Seq::<usize>::empty(), c1, d1, v0.len()));
                            assert(live_true(c1, d1, m));
                        }
                    }
                }
            }
        }
        let nclauses = clauses.len();
        let nvars = variables.len();
        if !unsat {
            proof {
                if rdy {
                    let base = priority_queue@ + fresh_entries(variables@, variables@.len() as int);
                    assert(priority_queue@.len() == 0);
                    assert(base =~= fresh_entries(variables@, variables@.len() as int));
                    assert forall|c: int, j: int| 0 <= c < clauses@.len() && !deleted_clauses@.contains(c as usize)
                        && 0 <= j < clauses@[c].variables@.len() implies
                        literal_listed(base, #[trigger] clauses@[c].variables@[j] as int, clauses@[c].signs@[j], base.len() as int) by {
                        let cl = clauses@[c];
                        assert(clause_ready_but(cl, variables@, -1));
                        assert(clause_ok(cl, variables@.len()));
                        assert(variables@[cl.variables@[j] as int].value == 2);
                        lemma_fresh_listed(variables@, variables@.len() as int, cl.variables@[j] as int, cl.signs@[j]);
                    }
                    assert forall|k: int| 0 <= k < base.len() && !earlier_same(base, k) implies
                        (#[trigger] base[k]).0 + live_occ(clauses@, deleted_clauses@, clauses@.len() as int, base[k].1, base[k].2) <= usize::MAX by {
                        lemma_live_occ_bound(clauses@, deleted_clauses@, variables@, clauses@.len() as int, base[k].1, base[k].2);
                        lemma_fresh_zero(variables@, variables@.len() as int, k);
                        assert(base[k].0 == 0);
                        assert(clauses@.len() == nclauses);
                    }
                }
            }
            if !set_priority_queue(&clauses, &deleted_clauses, &variables, &mut priority_queue) {
                return Err(Halt);
            }
        }
        let s = CdclSolver {
            clauses,
            variables,
            queue: Vec::new(),
            backtracking_stack: Vec::new(),
            cur_depth: 0,
            deleted_clauses,
            priority_queue,
            phase_saving: true,
            phases,
            restarts_count: 0,
            restart_criterium: 550,
            replacement_rules,
            heuristic_count: 0,
            conflicts_count: 0,
            unsat,
        };
        Ok(s)
    }

    /// The satisfying assignment found: the replacement rules are applied
    /// (as many passes over all of them as there are rules), then each
    /// variable is reported as a signed literal.
    pub fn model(&mut self) -> (sol: Vec<i32>)
        requires
            old(self).wf(),
        ensures
            values_of(final(self).variables@) == apply_passes(values_of(old(self).variables@), old(self).replacement_rules@, old(self).replacement_rules@.len() as int),
            sol@.len() == old(self).variables@.len() - 1,
            forall|i: int| 0 <= i < sol@.len() ==> #[trigger] sol@[i] as int == model_of(values_of(final(self).variables@))[i],
    {
        let ghost rules = self.replacement_rules@;
        let ghost v0 = values_of(self.variables@);
        let nr = self.replacement_rules.len();
        let mut pass: usize = 0;
        while pass < nr
            invariant
                pass <= nr,
                nr == rules.len(),
                rules == self.replacement_rules@,
                rules_ok(rules, self.variables@.len()),
                self.variables@.len() == old(self).variables@.len(),
                old(self).variables@.len() <= max_vars(),
                values_of(self.variables@) == apply_passes(v0, rules, pass as int),
            decreases nr - pass,
        {
            let mut i: usize = 0;
            let ghost start = values_of(self.variables@);
            while i < nr
                invariant
                    i <= nr,
                    nr == rules.len(),
                    rules == self.replacement_rules@,
                    rules_ok(rules, self.variables@.len()),
                    self.variables@.len() == old(self).variables@.len(),
                    values_of(self.variables@) == apply_rules(start, rules, i as int),
                decreases nr - i,
            {
                let r = self.replacement_rules[i];
                let src = self.variables[r.1].value;
                let v = if r.2 { src } else { if src == 0 { 1 } else { 0 } };
                let ghost before = values_of(self.variables@);
                self.variables[r.0].value = v;
                proof {
                    assert(r == rules[i as int]);
                    assert(values_of(self.variables@) =~= apply_rule(before, r));
                }
                i += 1;
            }
            pass += 1;
        }
        let mut sol: Vec<i32> = Vec::new();
        let n = self.variables.len();
        let mut i: usize = 1;
        while i < n
            invariant
                1 <= i <= n || n == 0,
                n == self.variables@.len(),
                n <= max_vars(),
                sol@.len() == i - 1,
                forall|k: int| 0 <= k < sol@.len() ==> #[trigger] sol@[k] as int == model_of(values_of(self.variables@))[k],
            decreases n - i,
        {
            if self.variables[i].value == 1 {
                sol.push(i as i32);
            } else {
                sol.push(-(i as i32));
            }
            i += 1;
        }
        sol
    }

    /// Is the search at a decision point (nothing left to propagate)?
    pub fn at_decision(&self) -> (res: bool)
        ensures
            res == (self.queue@.len() == 0),
    {
        self.queue.len() == 0
    }

    /// One step of the search. An unsatisfiable state stays so. With nothing
    /// queued, the next decision is taken (every 255 decisions the priority
    /// entries are decayed and sorted); when no entry's variable is free the
    /// formula is satisfiable, otherwise the decision is queued, unforced.
    /// With something queued, the last queued assignment is made and
    /// propagated; a conflict that reaches level zero makes the state
    /// unsatisfiable; when the conflicts since the last restart reach the
    /// restart interval, the interval moves to the next Luby value, learned
    /// clauses are deleted, and the search restarts.
    pub fn step(&mut self) -> (res: Result<Outcome, Halt>)
        requires
            old(self).wf(),
        ensures
            res matches Ok(o) ==> {
                &&& final(self).wf()
                &&& (o == Outcome::Unsatisfiable <==> final(self).unsat)
                &&& old(self).unsat ==> o == Outcome::Unsatisfiable
                &&& o == Outcome::Satisfiable ==> final(self).queue@.len() == 0 && forall|q: int| 0 <= q < final(self).priority_queue@.len()
                        ==> final(self).variables@[(#[trigger] final(self).priority_queue@[q]).1 as int].value != 2
            },
    {
        if self.unsat {
            return Ok(Outcome::Unsatisfiable);
        }
        if self.queue.len() == 0 {
            if self.cur_depth == usize::MAX {
                return Err(Halt);
            }
            let ghost pq0 = self.priority_queue@;
            let ghost vs0 = self.variables@;
            let (next_variable, next_value) = vsids(&self.variables, &self.priority_queue, &mut self.cur_depth, self.phase_saving, &self.phases);
            proof {
                crate::cdcl::heuristics::lemma_last_free(vs0, pq0, pq0.len() as int);
                if next_variable != 0 {
                    let k = last_free(vs0, pq0, pq0.len() as int);
                    if k < 0 { assert(next_variable == 0); }
                    assert(1 <= pq0[k].1 < vs0.len());
                }
            }
            self.heuristic_count += 1;
            if self.heuristic_count == 255 {
                if !update_priority(&mut self.variables, &mut self.priority_queue) {
                    return Err(Halt);
                }
                self.heuristic_count = 0;
                proof {
                    if next_variable == 0 {
                        assert forall|q: int| 0 <= q < self.priority_queue@.len() implies self.variables@[(#[trigger] self.priority_queue@[q]).1 as int].value != 2 by {
                            assert(crate::cdcl::heuristics::var_listed(pq0, self.priority_queue@[q].1));
                            let p = choose|p: int| 0 <= p < pq0.len() && pq0[p].1 == self.priority_queue@[q].1;
                            assert(vs0[pq0[p].1 as int].value != 2);
                            assert(self.variables@[pq0[p].1 as int].value == vs0[pq0[p].1 as int].value);
                        }
                    }
                    assert forall|v: int| 0 <= v < self.variables@.len() implies variable_ok(#[trigger] self.variables@[v], self.clauses@.len()) by {
                        assert(variable_ok(old(self).variables@[v], self.clauses@.len()));
                    }
                    assert forall|i: int| 0 <= i < self.clauses@.len() implies clause_ok(#[trigger] self.clauses@[i], self.variables@.len()) by {
                        assert(clause_ok(self.clauses@[i], old(self).variables@.len()));
                    }
                }
            }
            if next_variable == 0 {
                return Ok(Outcome::Satisfiable);
            }
            self.queue.push((next_variable, next_value, false, 0));
            return Ok(Outcome::Running);
        }
        if !set_value(&mut self.clauses, &mut self.variables, &mut self.queue, &mut self.backtracking_stack,
            &mut self.deleted_clauses, &mut self.cur_depth, &mut self.priority_queue, &mut self.conflicts_count)? {
            self.unsat = true;
        }
        if self.conflicts_count == self.restart_criterium {
            if self.restarts_count >= 0x400_0000 {
                return Err(Halt);
            }
            set_restart_criterium(&mut self.restart_criterium, self.restarts_count);
            if !delete_clauses(&self.clauses, &mut self.deleted_clauses, &mut self.variables) {
                return Err(Halt);
            }
            let ghost vb = self.variables@;
            restart(&mut self.variables, &mut self.backtracking_stack, &mut self.queue, self.phase_saving, &mut self.phases, &mut self.cur_depth);
            proof { lemma_only_values_keep_db(self.clauses@, vb, self.variables@); }
            self.restarts_count += 1;
            self.conflicts_count = 0;
        }
        if self.unsat {
            Ok(Outcome::Unsatisfiable)
        } else {
            Ok(Outcome::Running)
        }
    }
}

} // verus!
