//! Text as the standard library splits it: lines, whitespace-separated
//! words, and decimal numbers.
use vstd::prelude::*;

verus! {

/// The characters of a string.
pub fn str_chars(text: &str) -> (v: Vec<char>)
    ensures
        v@ == text@,
{
    broadcast use vstd::string::group_string_axioms;
    let mut v: Vec<char> = Vec::new();
    for c in it: text.chars()
        invariant
            v@ == it.seq().take(it.index() as int),
    {
        v.push(c);
    }
    v
}

/// Rust's `char::is_whitespace`: the characters with the Unicode
/// `White_Space` property.
pub open spec fn is_ws(c: char) -> bool {
    let u = c as u32;
    (0x09 <= u <= 0x0d) || u == 0x20 || u == 0x85 || u == 0xa0 || u == 0x1680
        || (0x2000 <= u <= 0x200a) || u == 0x2028 || u == 0x2029 || u == 0x202f
        || u == 0x205f || u == 0x3000
}

/// Is `c` whitespace?
pub fn is_whitespace(c: char) -> (res: bool)
    ensures
        res == is_ws(c),
{
    let u = c as u32;
    (0x09 <= u && u <= 0x0d) || u == 0x20 || u == 0x85 || u == 0xa0 || u == 0x1680
        || (0x2000 <= u && u <= 0x200a) || u == 0x2028 || u == 0x2029 || u == 0x202f
        || u == 0x205f || u == 0x3000
}

/// The lines closed within the first `n` characters, and the line still open.
pub open spec fn lines_upto(s: Seq<char>, n: int) -> (Seq<Seq<char>>, Seq<char>)
    decreases n,
{
    if n <= 0 {
        (Seq::empty(), Seq::empty())
    } else {
        let (done, cur) = lines_upto(s, n - 1);
        if s[n - 1] == '\n' { (done.push(cur), Seq::empty()) } else { (done, cur.push(s[n - 1])) }
    }
}

/// The pieces of `s` between newlines, as `str::split("\n")` yields them.
pub open spec fn lines(s: Seq<char>) -> Seq<Seq<char>> {
    let (done, cur) = lines_upto(s, s.len() as int);
    done.push(cur)
}

/// The words closed within the first `n` characters, and the word still open.
pub open spec fn words_upto(s: Seq<char>, n: int) -> (Seq<Seq<char>>, Seq<char>)
    decreases n,
{
    if n <= 0 {
        (Seq::empty(), Seq::empty())
    } else {
        let (done, cur) = words_upto(s, n - 1);
        if is_ws(s[n - 1]) {
            if cur.len() > 0 { (done.push(cur), Seq::empty()) } else { (done, cur) }
        } else {
            (done, cur.push(s[n - 1]))
        }
    }
}

/// The maximal runs of non-whitespace characters, as `str::split_whitespace` yields them.
pub open spec fn words(s: Seq<char>) -> Seq<Seq<char>> {
    let (done, cur) = words_upto(s, s.len() as int);
    if cur.len() > 0 { done.push(cur) } else { done }
}

/// Splits characters at newlines.
pub fn split_lines(s: &Vec<char>) -> (res: Vec<Vec<char>>)
    ensures
        res@.len() == lines(s@).len(),
        forall|k: int| 0 <= k < res@.len() ==> #[trigger] res@[k]@ == lines(s@)[k],
{
    let mut done: Vec<Vec<char>> = Vec::new();
    let mut cur: Vec<char> = Vec::new();
    let mut i: usize = 0;
    while i < s.len()
        invariant
            i <= s@.len(),
            done@.len() == lines_upto(s@, i as int).0.len(),
            forall|k: int| 0 <= k < done@.len() ==> #[trigger] done@[k]@ == lines_upto(s@, i as int).0[k],
            cur@ == lines_upto(s@, i as int).1,
        decreases s@.len() - i,
    {
        if s[i] == '\n' {
            let ghost d0 = done@;
            done.push(cur);
            cur = Vec::new();
            proof {
                assert forall|k: int| 0 <= k < done@.len() implies #[trigger] done@[k]@ == lines_upto(s@, i + 1).0[k] by {
                    if k < d0.len() { assert(done@[k] == d0[k]); }
                }
            }
        } else {
            cur.push(s[i]);
        }
        i += 1;
    }
    let ghost d0 = done@;
    done.push(cur);
    proof {
        assert forall|k: int| 0 <= k < done@.len() implies #[trigger] done@[k]@ == lines(s@)[k] by {
            if k < d0.len() { assert(done@[k] == d0[k]); }
        }
    }
    done
}

/// Splits characters into whitespace-separated words.
pub fn split_words(s: &Vec<char>) -> (res: Vec<Vec<char>>)
    ensures
        res@.len() == words(s@).len(),
        forall|k: int| 0 <= k < res@.len() ==> #[trigger] res@[k]@ == words(s@)[k],
{
    let mut done: Vec<Vec<char>> = Vec::new();
    let mut cur: Vec<char> = Vec::new();
    let mut i: usize = 0;
    while i < s.len()
        invariant
            i <= s@.len(),
            done@.len() == words_upto(s@, i as int).0.len(),
            forall|k: int| 0 <= k < done@.len() ==> #[trigger] done@[k]@ == words_upto(s@, i as int).0[k],
            cur@ == words_upto(s@, i as int).1,
        decreases s@.len() - i,
    {
        if is_whitespace(s[i]) {
            if cur.len() > 0 {
                let ghost d0 = done@;
                done.push(cur);
                cur = Vec::new();
                proof {
                    assert forall|k: int| 0 <= k < done@.len() implies #[trigger] done@[k]@ == words_upto(s@, i + 1).0[k] by {
                        if k < d0.len() { assert(done@[k] == d0[k]); }
                    }
                }
            }
        } else {
            cur.push(s[i]);
        }
        i += 1;
    }
    if cur.len() > 0 {
        let ghost d0 = done@;
        done.push(cur);
        proof {
            assert forall|k: int| 0 <= k < done@.len() implies #[trigger] done@[k]@ == words(s@)[k] by {
                if k < d0.len() { assert(done@[k] == d0[k]); }
            }
        }
    }
    done
}

/// Is every character an ASCII digit?
pub open spec fn all_digits(d: Seq<char>) -> bool {
    forall|i: int| 0 <= i < d.len() ==> '0' <= #[trigger] d[i] <= '9'
}

/// The value of a string of decimal digits.
pub open spec fn digits_value(d: Seq<char>) -> nat
    decreases d.len(),
{
    if d.len() == 0 {
        0
    } else {
        digits_value(d.drop_last()) * 10 + ((d.last() as u32) - ('0' as u32)) as nat
    }
}

/// The digits after an optional leading `+`.
pub open spec fn unsigned_digits(t: Seq<char>) -> Seq<char> {
    if t.len() > 0 && t[0] == '+' { t.drop_first() } else { t }
}

/// `usize::from_str`: an optional `+`, then one or more decimal digits whose
/// value fits in a `usize`.
pub open spec fn parse_usize(t: Seq<char>) -> Option<usize> {
    let d = unsigned_digits(t);
    if d.len() > 0 && all_digits(d) && digits_value(d) <= usize::MAX {
        Some(digits_value(d) as usize)
    } else {
        None
    }
}

/// `i32::from_str`: an optional `+` or `-`, then one or more decimal digits
/// whose signed value fits in an `i32`.
pub open spec fn parse_i32(t: Seq<char>) -> Option<i32> {
    if t.len() > 0 && t[0] == '-' {
        let d = t.drop_first();
        if d.len() > 0 && all_digits(d) && digits_value(d) <= 0x8000_0000 {
            Some((-(digits_value(d) as int)) as i32)
        } else {
            None
        }
    } else {
        let d = unsigned_digits(t);
        if d.len() > 0 && all_digits(d) && digits_value(d) <= 0x7fff_ffff {
            Some(digits_value(d) as i32)
        } else {
            None
        }
    }
}

/// A longer run of digits is worth at least as much as its prefix.
pub proof fn lemma_digits_value_grows(d: Seq<char>, k: int)
    requires
        0 <= k <= d.len(),
        all_digits(d),
    ensures
        digits_value(d.take(k)) <= digits_value(d),
    decreases d.len() - k,
{
    if k < d.len() {
        lemma_digits_value_grows(d, k + 1);
        assert(d.take(k + 1).drop_last() == d.take(k));
        assert('0' <= d[k] <= '9');
    } else {
        assert(d.take(k) == d);
    }
}

/// The value of a run of digits, or `None` once it exceeds `bound`.
fn digits_value_bounded(d: &Vec<char>, start: usize, bound: u64) -> (res: Option<u64>)
    requires
        start <= d@.len(),
        all_digits(d@.subrange(start as int, d@.len() as int)),
    ensures
        match res {
            Some(v) => v as nat == digits_value(d@.subrange(start as int, d@.len() as int)) && v <= bound,
            None => digits_value(d@.subrange(start as int, d@.len() as int)) > bound,
        },
{
    let ghost ds = d@.subrange(start as int, d@.len() as int);
    let mut acc: u64 = 0;
    let mut i: usize = start;
    while i < d.len()
        invariant
            start <= i <= d@.len(),
            ds == d@.subrange(start as int, d@.len() as int),
            all_digits(ds),
            acc as nat == digits_value(ds.take(i - start)),
            acc <= bound,
        decreases d@.len() - i,
    {
        let c = d[i];
        proof {
            assert(ds[i - start] == c);
            assert(ds.take(i - start + 1).drop_last() == ds.take(i - start));
            assert(ds.take(i - start + 1).last() == c);
        }
        let digit: u64 = (c as u32 - '0' as u32) as u64;
        if digit > bound || acc > (bound - digit) / 10 {
            proof {
                if digit <= bound {
                    assert(acc * 10 + digit > bound) by (nonlinear_arith)
                        requires acc > (bound - digit) / 10, digit <= bound;
                }
                lemma_digits_value_grows(ds, i - start + 1);
            }
            return None;
        }
        proof {
            assert(acc * 10 + digit <= bound) by (nonlinear_arith)
                requires acc <= (bound - digit) / 10, digit <= bound;
        }
        acc = acc * 10 + digit;
        i += 1;
    }
    proof { assert(ds.take(ds.len() as int) == ds); }
    Some(acc)
}

/// Are the characters from `start` on all digits?
fn digits_from(d: &Vec<char>, start: usize) -> (res: bool)
    requires
        start <= d@.len(),
    ensures
        res == all_digits(d@.subrange(start as int, d@.len() as int)),
{
    let mut i = start;
    while i < d.len()
        invariant
            start <= i <= d@.len(),
            forall|k: int| start <= k < i ==> '0' <= #[trigger] d@[k] <= '9',
        decreases d@.len() - i,
    {
        if !('0' <= d[i] && d[i] <= '9') {
            proof { assert(d@.subrange(start as int, d@.len() as int)[i - start] == d@[i as int]); }
            return false;
        }
        i += 1;
    }
    proof {
        let ds = d@.subrange(start as int, d@.len() as int);
        assert forall|k: int| 0 <= k < ds.len() implies '0' <= #[trigger] ds[k] <= '9' by {
            assert(ds[k] == d@[k + start]);
        }
    }
    true
}

/// Parses a word as `usize::from_str` does (see [`parse_usize`]).
pub fn parse_usize_word(w: &Vec<char>) -> (res: Option<usize>)
    ensures
        res == parse_usize(w@),
{
    let start: usize = if w.len() > 0 && w[0] == '+' { 1 } else { 0 };
    proof {
        if start == 1 { assert(w@.subrange(1, w@.len() as int) == w@.drop_first()); }
        else { assert(w@.subrange(0, w@.len() as int) == w@); }
    }
    if start >= w.len() || !digits_from(w, start) {
        return None;
    }
    match digits_value_bounded(w, start, usize::MAX as u64) {
        Some(v) => Some(v as usize),
        None => None,
    }
}

/// Parses a word as `i32::from_str` does (see [`parse_i32`]).
pub fn parse_i32_word(w: &Vec<char>) -> (res: Option<i32>)
    ensures
        res == parse_i32(w@),
{
    let negative = w.len() > 0 && w[0] == '-';
    let start: usize = if w.len() > 0 && (w[0] == '+' || w[0] == '-') { 1 } else { 0 };
    proof {
        if start == 1 { assert(w@.subrange(1, w@.len() as int) == w@.drop_first()); }
        else { assert(w@.subrange(0, w@.len() as int) == w@); }
    }
    if start >= w.len() || !digits_from(w, start) {
        return None;
    }
    let bound: u64 = if negative { 0x8000_0000 } else { 0x7fff_ffff };
    match digits_value_bounded(w, start, bound) {
        Some(v) => {
            if negative {
                if v == 0x8000_0000 {
                    Some(i32::MIN)
                } else {
                    Some(-(v as i32))
                }
            } else {
                Some(v as i32)
            }
        },
        None => None,
    }
}

/// Is the word exactly the one character `c`?
pub fn word_is(w: &Vec<char>, c: char) -> (res: bool)
    ensures
        res == (w@ == seq![c]),
{
    let r = w.len() == 1 && w[0] == c;
    proof { if w@.len() == 1 && w@[0] == c { assert(w@ =~= seq![c]); } }
    r
}

} // verus!
