//! Writing clauses in the DIMACS CNF text format.
use vstd::prelude::*;
use crate::text::{words, parse_i32, str_chars, split_words, parse_i32_word};

verus! {

/// A literal as written: a leading minus sign or not, then a number.
pub type Lit = (bool, i128);

/// Is a literal true under an assignment of variables `1..=tv.len()`?
pub open spec fn lit_true(tv: Seq<bool>, l: Lit) -> bool {
    1 <= l.1 <= tv.len() && tv[l.1 - 1] != l.0
}

/// Is some literal of the clause true?
pub open spec fn clause_sat(tv: Seq<bool>, c: Seq<Lit>) -> bool {
    exists|j: int| 0 <= j < c.len() && lit_true(tv, #[trigger] c[j])
}

/// The decimal digits of `n`, as ASCII bytes.
pub open spec fn digits(n: nat) -> Seq<u8>
    decreases n,
{
    if n < 10 {
        seq![(n + 48) as u8]
    } else {
        digits(n / 10).push((n % 10 + 48) as u8)
    }
}

/// The decimal text of an integer.
pub open spec fn number_text(x: int) -> Seq<u8> {
    if x < 0 { seq![45u8] + digits((-x) as nat) } else { digits(x as nat) }
}

/// The text of a literal.
pub open spec fn lit_text(l: Lit) -> Seq<u8> {
    (if l.0 { seq![45u8] } else { Seq::<u8>::empty() }) + number_text(l.1 as int)
}

/// The literals of a clause, each followed by a space.
pub open spec fn lits_text(c: Seq<Lit>) -> Seq<u8>
    decreases c.len(),
{
    if c.len() == 0 {
        Seq::empty()
    } else {
        lits_text(c.drop_last()) + lit_text(c.last()) + seq![32u8]
    }
}

/// A clause line: its literals, then `0` and a newline.
pub open spec fn clause_text(c: Seq<Lit>) -> Seq<u8> {
    lits_text(c) + seq![48u8, 10u8]
}

/// The lines of a list of clauses.
pub open spec fn cnf_text(cs: Seq<Seq<Lit>>) -> Seq<u8>
    decreases cs.len(),
{
    if cs.len() == 0 {
        Seq::empty()
    } else {
        cnf_text(cs.drop_last()) + clause_text(cs.last())
    }
}

/// The lines of a list of clauses, each flagged one with a leading space.
pub open spec fn spaced_cnf_text(cs: Seq<Seq<Lit>>, flags: Seq<bool>) -> Seq<u8>
    decreases cs.len(),
{
    if cs.len() == 0 {
        Seq::empty()
    } else {
        spaced_cnf_text(cs.drop_last(), flags) + (if flags[cs.len() - 1] { seq![32u8] } else { Seq::<u8>::empty() })
            + clause_text(cs.last())
    }
}

/// The problem line `p cnf V C`.
pub open spec fn header_text(nvars: nat, nclauses: nat) -> Seq<u8> {
    seq![112u8, 32u8, 99u8, 110u8, 102u8, 32u8] + digits(nvars) + seq![32u8] + digits(nclauses) + seq![10u8]
}

/// The clauses of a list of clause vectors.
pub open spec fn clauses_view(v: Seq<Vec<Lit>>) -> Seq<Seq<Lit>> {
    v.map_values(|c: Vec<Lit>| c@)
}

/// Appends the decimal digits of `n`.
pub fn push_digits(out: &mut Vec<u8>, n: u128)
    ensures
        final(out)@ == old(out)@ + digits(n as nat),
    decreases n,
{
    if n >= 10 {
        push_digits(out, n / 10);
    }
    let d: u8 = (n % 10) as u8;
    out.push(d + 48);
    proof {
        if n >= 10 {
            assert(digits(n as nat) == digits((n / 10) as nat).push(((n % 10) + 48) as u8));
        }
    }
}

/// Appends the decimal text of `x`.
pub fn push_number(out: &mut Vec<u8>, x: i128)
    ensures
        final(out)@ == old(out)@ + number_text(x as int),
{
    if x < 0 {
        out.push(45);
        let ghost mid = out@;
        let m: u128 = if x == i128::MIN { (i128::MAX as u128) + 1 } else { (-x) as u128 };
        push_digits(out, m);
        proof { assert(out@ =~= old(out)@ + number_text(x as int)); }
    } else {
        push_digits(out, x as u128);
    }
}

/// Appends a clause line.
pub fn push_clause(out: &mut Vec<u8>, c: &Vec<Lit>)
    ensures
        final(out)@ == old(out)@ + clause_text(c@),
{
    let mut i: usize = 0;
    while i < c.len()
        invariant
            i <= c@.len(),
            out@ == old(out)@ + lits_text(c@.take(i as int)),
        decreases c@.len() - i,
    {
        let ghost before = out@;
        if c[i].0 {
            out.push(45);
        }
        push_number(out, c[i].1);
        out.push(32);
        proof {
            assert(c@.take(i + 1).drop_last() =~= c@.take(i as int));
            assert(c@.take(i + 1).last() == c@[i as int]);
            assert(out@ =~= old(out)@ + lits_text(c@.take(i + 1)));
        }
        i += 1;
    }
    proof { assert(c@.take(c@.len() as int) =~= c@); }
    out.push(48);
    out.push(10);
    proof { assert(out@ =~= old(out)@ + clause_text(c@)); }
}

/// Appends the lines of all clauses.
pub fn push_clauses(out: &mut Vec<u8>, cs: &Vec<Vec<Lit>>)
    ensures
        final(out)@ == old(out)@ + cnf_text(clauses_view(cs@)),
{
    let mut i: usize = 0;
    while i < cs.len()
        invariant
            i <= cs@.len(),
            out@ == old(out)@ + cnf_text(clauses_view(cs@).take(i as int)),
        decreases cs@.len() - i,
    {
        push_clause(out, &cs[i]);
        proof {
            let t = clauses_view(cs@).take(i + 1);
            assert(t.drop_last() =~= clauses_view(cs@).take(i as int));
            assert(t.last() == cs@[i as int]@);
            assert(out@ =~= old(out)@ + cnf_text(t));
        }
        i += 1;
    }
    proof { assert(clauses_view(cs@).take(cs@.len() as int) =~= clauses_view(cs@)); }
}

/// Appends the problem line `p cnf V C`.
pub fn push_header(out: &mut Vec<u8>, nvars: u128, nclauses: u128)
    ensures
        final(out)@ == old(out)@ + header_text(nvars as nat, nclauses as nat),
{
    out.push(112);
    out.push(32);
    out.push(99);
    out.push(110);
    out.push(102);
    out.push(32);
    push_digits(out, nvars);
    out.push(32);
    push_digits(out, nclauses);
    out.push(10);
    proof { assert(out@ =~= old(out)@ + header_text(nvars as nat, nclauses as nat)); }
}

/// Appends clause vectors to a list of them.
pub fn append_clauses(out: &mut Vec<Vec<Lit>>, more: Vec<Vec<Lit>>)
    ensures
        clauses_view(final(out)@) == clauses_view(old(out)@) + clauses_view(more@),
{
    let mut more = more;
    let ghost m0 = more@;
    let ghost o0 = out@;
    let total = more.len();
    let mut k: usize = 0;
    while more.len() > 0
        invariant
            total == m0.len(),
            k <= m0.len(),
            more@ == m0.skip(k as int),
            clauses_view(out@) == clauses_view(o0) + clauses_view(m0.take(k as int)),
        decreases more@.len(),
    {
        let c = more.remove(0);
        let ghost ob = out@;
        out.push(c);
        proof {
            assert(out@ == ob.push(c));
            assert(clauses_view(out@) =~= clauses_view(ob).push(c@));
            assert(m0.skip(k as int)[0] == m0[k as int]);
            assert(more@ =~= m0.skip(k + 1));
            assert(m0.take(k + 1) =~= m0.take(k as int).push(m0[k as int]));
            assert(clauses_view(m0.take(k + 1)) =~= clauses_view(m0.take(k as int)).push(m0[k as int]@));
            assert(clauses_view(out@) =~= clauses_view(o0) + clauses_view(m0.take(k + 1)));
        }
        k += 1;
    }
    proof { assert(m0.take(k as int) =~= m0); }
}

/// The assignment a solver's output gives to variables `1..=n`: every word
/// that reads as a positive number `j` makes variable `j` true; other words
/// are ignored. `None` when a number exceeds `n`.
pub open spec fn model_upto(ws: Seq<Seq<char>>, k: int, n: nat) -> Option<Seq<bool>>
    decreases k,
{
    if k <= 0 {
        Some(Seq::new(n, |i: int| false))
    } else {
        match model_upto(ws, k - 1, n) {
            None => None,
            Some(a) => match parse_i32(ws[k - 1]) {
                Some(j) => if j > 0 {
                    if j <= n { Some(a.update(j - 1, true)) } else { None }
                } else {
                    Some(a)
                },
                None => Some(a),
            },
        }
    }
}

/// The assignment read from a whole solver output (see [`model_upto`]).
pub open spec fn model_of(text: Seq<char>, n: nat) -> Option<Seq<bool>> {
    model_upto(words(text), words(text).len() as int, n)
}

/// Reads the assignment in a solver's output (see [`model_upto`]).
pub fn read_model(text: &str, n: usize) -> (r: Option<Vec<bool>>)
    ensures
        match r {
            Some(a) => model_of(text@, n as nat) == Some(a@),
            None => model_of(text@, n as nat) is None,
        },
{
    let chars = str_chars(text);
    let ws = split_words(&chars);
    let ghost wss = words(text@);
    let mut a: Vec<bool> = Vec::new();
    let mut i: usize = 0;
    while i < n
        invariant
            i <= n,
            a@ == Seq::new(i as nat, |q: int| false),
        decreases n - i,
    {
        a.push(false);
        proof { assert(a@ =~= Seq::new((i + 1) as nat, |q: int| false)); }
        i += 1;
    }
    proof { assert(a@ =~= Seq::new(n as nat, |q: int| false)); }
    let mut k: usize = 0;
    while k < ws.len()
        invariant
            chars@ == text@,
            wss == words(text@),
            ws@.len() == wss.len(),
            forall|q: int| 0 <= q < ws@.len() ==> #[trigger] ws@[q]@ == wss[q],
            k <= ws@.len(),
            a@.len() == n,
            model_upto(wss, k as int, n as nat) == Some(a@),
        decreases ws@.len() - k,
    {
        proof { assert(ws@[k as int]@ == wss[k as int]); }
        match parse_i32_word(&ws[k]) {
            Some(j) => {
                if j > 0 {
                    if (j as usize) <= n {
                        a.set((j - 1) as usize, true);
                    } else {
                        proof { lemma_model_fails(wss, k + 1, wss.len() as int, n as nat); }
                        return None;
                    }
                }
            },
            None => {},
        }
        k += 1;
    }
    Some(a)
}

/// An assignment read has one value per variable.
pub proof fn lemma_model_len(ws: Seq<Seq<char>>, k: int, n: nat)
    requires
        model_upto(ws, k, n) is Some,
    ensures
        model_upto(ws, k, n)->0.len() == n,
    decreases k,
{
    if k > 0 {
        lemma_model_len(ws, k - 1, n);
    }
}

/// Once a number exceeds the table, the whole output fails.
pub proof fn lemma_model_fails(ws: Seq<Seq<char>>, k: int, m: int, n: nat)
    requires
        0 <= k <= m,
        model_upto(ws, k, n) is None,
    ensures
        model_upto(ws, m, n) is None,
    decreases m - k,
{
    if m > k {
        lemma_model_fails(ws, k, m - 1, n);
    }
}

} // verus!
