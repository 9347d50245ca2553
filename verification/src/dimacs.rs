//! Reading formulas in the DIMACS CNF format.
use vstd::prelude::*;
use crate::text::{lines, words, parse_usize, parse_i32, str_chars, split_lines, split_words,
    parse_usize_word, parse_i32_word, word_is};

verus! {

/// A significant line of a DIMACS file: the problem line `p cnf V C`, which
/// gives the number of variables, or a line of literals.
pub enum DimacsLine {
    Header(usize),
    Literals(Vec<i32>),
}

/// The mathematical content of a significant line.
pub ghost enum LineSpec {
    Header(usize),
    Literals(Seq<i32>),
}

/// The content of a parsed line.
pub open spec fn line_view(l: DimacsLine) -> LineSpec {
    match l {
        DimacsLine::Header(v) => LineSpec::Header(v),
        DimacsLine::Literals(v) => LineSpec::Literals(v@),
    }
}

/// The first `n` words read as `i32` literals, if they all are.
pub open spec fn parse_lits(w: Seq<Seq<char>>, n: int) -> Option<Seq<i32>>
    decreases n,
{
    if n <= 0 {
        Some(Seq::empty())
    } else {
        match (parse_lits(w, n - 1), parse_i32(w[n - 1])) {
            (Some(p), Some(x)) => Some(p.push(x)),
            _ => None,
        }
    }
}

/// How a line of words reads: `Some(None)` for a line that is skipped (fewer
/// than `min_words` words, or a comment starting with the word `c`),
/// `Some(Some(Header(v)))` for a problem line whose third word is the
/// variable count `v`, `Some(Some(Literals(l)))` for a line of literals
/// (without its last word when `drop_last`), `None` when a needed word is
/// missing or is not a number.
pub open spec fn line_spec(w: Seq<Seq<char>>, min_words: nat, drop_last: bool) -> Option<Option<LineSpec>> {
    if w.len() < min_words || w.len() == 0 || w[0] == seq!['c'] {
        Some(None)
    } else if w[0] == seq!['p'] {
        if w.len() >= 3 {
            match parse_usize(w[2]) {
                Some(v) => Some(Some(LineSpec::Header(v))),
                None => None,
            }
        } else {
            None
        }
    } else {
        let n = if drop_last { w.len() - 1 } else { w.len() as int };
        match parse_lits(w, n) {
            Some(l) => Some(Some(LineSpec::Literals(l))),
            None => None,
        }
    }
}

/// The significant lines among the first `k` lines, or `None` when one of
/// them does not read.
pub open spec fn items_upto(ls: Seq<Seq<char>>, min_words: nat, drop_last: bool, k: int) -> Option<Seq<LineSpec>>
    decreases k,
{
    if k <= 0 {
        Some(Seq::empty())
    } else {
        match (items_upto(ls, min_words, drop_last, k - 1), line_spec(words(ls[k - 1]), min_words, drop_last)) {
            (Some(p), Some(Some(item))) => Some(p.push(item)),
            (Some(p), Some(None)) => Some(p),
            _ => None,
        }
    }
}

/// The significant lines of a DIMACS text, line by line.
pub open spec fn dimacs_spec(text: Seq<char>, min_words: nat, drop_last: bool) -> Option<Seq<LineSpec>> {
    items_upto(lines(text), min_words, drop_last, lines(text).len() as int)
}

/// Reads the literals of a line.
fn read_lits(w: &Vec<Vec<char>>, n: usize) -> (res: Option<Vec<i32>>)
    requires
        n <= w@.len(),
    ensures
        match res {
            Some(v) => parse_lits(w@.map_values(|x: Vec<char>| x@), n as int) == Some(v@),
            None => parse_lits(w@.map_values(|x: Vec<char>| x@), n as int) is None,
        },
{
    let ghost ws = w@.map_values(|x: Vec<char>| x@);
    let mut out: Vec<i32> = Vec::new();
    let mut j: usize = 0;
    while j < n
        invariant
            n <= w@.len(),
            j <= n,
            ws == w@.map_values(|x: Vec<char>| x@),
            parse_lits(ws, j as int) == Some(out@),
        decreases n - j,
    {
        match parse_i32_word(&w[j]) {
            Some(x) => {
                out.push(x);
            },
            None => {
                proof { lemma_parse_lits_fails(ws, j as int, n as int); }
                return None;
            },
        }
        j += 1;
    }
    Some(out)
}

/// Once a word fails to read, every longer prefix fails too.
pub proof fn lemma_parse_lits_fails(w: Seq<Seq<char>>, j: int, n: int)
    requires
        0 <= j < n <= w.len(),
        parse_i32(w[j]) is None,
    ensures
        parse_lits(w, n) is None,
    decreases n - j,
{
    if n > j + 1 {
        lemma_parse_lits_fails(w, j, n - 1);
    }
}

/// Once a line fails to read, the whole text fails.
pub proof fn lemma_items_fail(ls: Seq<Seq<char>>, min_words: nat, drop_last: bool, k: int, n: int)
    requires
        0 <= k <= n,
        items_upto(ls, min_words, drop_last, k) is None,
    ensures
        items_upto(ls, min_words, drop_last, n) is None,
    decreases n - k,
{
    if n > k {
        lemma_items_fail(ls, min_words, drop_last, k, n - 1);
    }
}

/// Reads the significant lines of a DIMACS text (see [`dimacs_spec`]).
pub fn parse_dimacs(text: &str, min_words: usize, drop_last: bool) -> (res: Option<Vec<DimacsLine>>)
    ensures
        match res {
            Some(items) => dimacs_spec(text@, min_words as nat, drop_last) == Some(items@.map_values(|l: DimacsLine| line_view(l))),
            None => dimacs_spec(text@, min_words as nat, drop_last) is None,
        },
{
    let chars = str_chars(text);
    let ls = split_lines(&chars);
    let ghost lss = lines(text@);
    let mut items: Vec<DimacsLine> = Vec::new();
    let mut k: usize = 0;
    while k < ls.len()
        invariant
            chars@ == text@,
            lss == lines(text@),
            ls@.len() == lss.len(),
            forall|q: int| 0 <= q < ls@.len() ==> #[trigger] ls@[q]@ == lss[q],
            k <= ls@.len(),
            items_upto(lss, min_words as nat, drop_last, k as int) == Some(items@.map_values(|l: DimacsLine| line_view(l))),
        decreases ls@.len() - k,
    {
        let w = split_words(&ls[k]);
        let ghost ws = w@.map_values(|x: Vec<char>| x@);
        proof {
            assert(ws =~= words(lss[k as int]));
        }
        let ghost before = items@.map_values(|l: DimacsLine| line_view(l));
        if w.len() < min_words || w.len() == 0 || word_is(&w[0], 'c') {
            proof { if w@.len() > 0 { assert(ws[0] == w@[0]@); } }
        } else if word_is(&w[0], 'p') {
            proof { assert(ws[0] == w@[0]@); }
            if w.len() < 3 {
                proof { lemma_items_fail(lss, min_words as nat, drop_last, k + 1, lss.len() as int); }
                return None;
            }
            match parse_usize_word(&w[2]) {
                Some(v) => {
                    items.push(DimacsLine::Header(v));
                    proof { assert(items@.map_values(|l: DimacsLine| line_view(l)) =~= before.push(LineSpec::Header(v))); }
                },
                None => {
                    proof { lemma_items_fail(lss, min_words as nat, drop_last, k + 1, lss.len() as int); }
                    return None;
                },
            }
        } else {
            proof { assert(ws[0] == w@[0]@); }
            let n = if drop_last { w.len() - 1 } else { w.len() };
            match read_lits(&w, n) {
                Some(l) => {
                    let ghost lv = l@;
                    items.push(DimacsLine::Literals(l));
                    proof { assert(items@.map_values(|l: DimacsLine| line_view(l)) =~= before.push(LineSpec::Literals(lv))); }
                },
                None => {
                    proof { lemma_items_fail(lss, min_words as nat, drop_last, k + 1, lss.len() as int); }
                    return None;
                },
            }
        }
        k += 1;
    }
    Some(items)
}

} // verus!
