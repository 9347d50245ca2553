//! The Sudoku puzzle as a CNF formula: variable `81 r + 9 c + d + 1` says
//! that the cell in row `r` and column `c` holds the digit `d + 1`.
use vstd::prelude::*;
use crate::cnf::{Lit, clauses_view, cnf_text, header_text, push_clauses, push_header, append_clauses,
    model_of, read_model};
use crate::text::str_chars;

verus! {

/// The variable of digit `i3 + 1` in the cell at row `i1`, column `i2`.
pub open spec fn cell_var(i1: int, i2: int, i3: int) -> int {
    81 * i1 + 9 * i2 + i3 + 1
}

/// Is `x` an `i32`?
pub open spec fn in_i32(x: int) -> bool {
    i32::MIN <= x <= i32::MAX
}

/// Every step of computing `81 * i1 + 9 * i2 + i3 + 1` in `i32` stays in range.
pub open spec fn fits(i1: int, i2: int, i3: int) -> bool {
    &&& in_i32(81 * i1)
    &&& in_i32(9 * i2)
    &&& in_i32(81 * i1 + 9 * i2)
    &&& in_i32(81 * i1 + 9 * i2 + i3)
    &&& in_i32(81 * i1 + 9 * i2 + i3 + 1)
}

/// The variable number of a digit in a cell.
pub fn index_to_number(i1: i32, i2: i32, i3: i32) -> (r: i32)
    requires
        fits(i1 as int, i2 as int, i3 as int),
    ensures
        r == cell_var(i1 as int, i2 as int, i3 as int),
{
    81 * i1 + 9 * i2 + i3 + 1
}

/// The literal of a variable, negated or not.
pub open spec fn lit(negated: bool, x: int) -> Lit {
    (negated, x as i128)
}

/// For one cell, nine clauses: clause `i` holds digit `i` positively and
/// every other digit negated.
pub open spec fn only_one_number_spec(i1: int, i2: int) -> Seq<Seq<Lit>> {
    Seq::new(9, |i: int| Seq::new(9, |j: int| lit(i != j, cell_var(i1, i2, j))))
}

/// The cell's nine variables can all be computed.
pub open spec fn cell_fits(i1: int, i2: int) -> bool {
    forall|n: int| 0 <= n < 9 ==> #[trigger] fits(i1, i2, n)
}

/// See [`only_one_number_spec`].
pub fn only_one_number(i1: i32, i2: i32) -> (r: Vec<Vec<Lit>>)
    requires
        cell_fits(i1 as int, i2 as int),
    ensures
        clauses_view(r@) == only_one_number_spec(i1 as int, i2 as int),
{
    let mut out: Vec<Vec<Lit>> = Vec::new();
    let mut i: i32 = 0;
    while i < 9
        invariant
            cell_fits(i1 as int, i2 as int),
            0 <= i <= 9,
            clauses_view(out@) == only_one_number_spec(i1 as int, i2 as int).take(i as int),
        decreases 9 - i,
    {
        let mut c: Vec<Lit> = Vec::new();
        let mut j: i32 = 0;
        while j < 9
            invariant
                cell_fits(i1 as int, i2 as int),
                0 <= i < 9,
                0 <= j <= 9,
                c@ == Seq::new(j as nat, |q: int| lit(i != q, cell_var(i1 as int, i2 as int, q))),
            decreases 9 - j,
        {
            proof { assert(fits(i1 as int, i2 as int, j as int)); }
            let x = index_to_number(i1, i2, j);
            c.push((i != j, x as i128));
            proof {
                assert(c@ =~= Seq::new((j + 1) as nat, |q: int| lit(i != q, cell_var(i1 as int, i2 as int, q))));
            }
            j += 1;
        }
        let ghost ob = out@;
        out.push(c);
        proof {
            assert(clauses_view(out@) =~= clauses_view(ob).push(c@));
            assert(only_one_number_spec(i1 as int, i2 as int)[i as int] =~= c@);
            assert(clauses_view(out@) =~= only_one_number_spec(i1 as int, i2 as int).take(i + 1));
        }
        i += 1;
    }
    proof { assert(clauses_view(out@) =~= only_one_number_spec(i1 as int, i2 as int)); }
    out
}

/// Bit `8 - n` of a nine-bit number: the `n`-th character, from the left,
/// of its binary text padded to nine digits.
pub open spec fn bit9(m: u32, n: int) -> bool {
    (m >> ((8 - n) as u32)) & 1u32 == 1u32
}

/// The number of the first `k` of those characters that are `1`.
pub open spec fn ones(m: u32, k: int) -> nat
    decreases k,
{
    if k <= 0 { 0 } else { ones(m, k - 1) + if bit9(m, k - 1) { 1nat } else { 0nat } }
}

/// The clause that rules out the digits whose bits are set in `m` being
/// exactly the true ones: a digit with its bit set is negated, the others
/// are positive.
pub open spec fn mask_clause(i1: int, i2: int, m: u32) -> Seq<Lit> {
    Seq::new(9, |n: int| lit(bit9(m, n), cell_var(i1, i2, n)))
}

/// The clauses of the masks below `m` that do not have exactly one bit set.
pub open spec fn only_one_clauses(i1: int, i2: int, m: int) -> Seq<Seq<Lit>>
    decreases m,
{
    if m <= 0 {
        Seq::empty()
    } else {
        let p = only_one_clauses(i1, i2, m - 1);
        if ones((m - 1) as u32, 9) != 1 { p.push(mask_clause(i1, i2, (m - 1) as u32)) } else { p }
    }
}

/// Exactly one digit per cell: one clause for each of the 512 nine-bit
/// masks that does not have exactly one bit set (see [`mask_clause`]).
pub fn cnf_only_one_number(i1: i32, i2: i32) -> (r: Vec<Vec<Lit>>)
    requires
        cell_fits(i1 as int, i2 as int),
    ensures
        clauses_view(r@) == only_one_clauses(i1 as int, i2 as int, 512),
{
    let mut out: Vec<Vec<Lit>> = Vec::new();
    let mut m: u32 = 0;
    while m < 512
        invariant
            cell_fits(i1 as int, i2 as int),
            m <= 512,
            clauses_view(out@) == only_one_clauses(i1 as int, i2 as int, m as int),
        decreases 512 - m,
    {
        let mut one_count: u32 = 0;
        let mut n: u32 = 0;
        while n < 9
            invariant
                n <= 9,
                one_count == ones(m, n as int),
                one_count <= n,
            decreases 9 - n,
        {
            if (m >> (8 - n)) & 1 == 1 {
                one_count += 1;
            }
            n += 1;
        }
        if one_count != 1 {
            let mut c: Vec<Lit> = Vec::new();
            let mut n: i32 = 0;
            while n < 9
                invariant
                    cell_fits(i1 as int, i2 as int),
                    0 <= n <= 9,
                    c@ == Seq::new(n as nat, |q: int| lit(bit9(m, q), cell_var(i1 as int, i2 as int, q))),
                decreases 9 - n,
            {
                proof { assert(fits(i1 as int, i2 as int, n as int)); }
                let x = index_to_number(i1, i2, n);
                let shift: u32 = (8 - n) as u32;
                let b = (m >> shift) & 1 == 1;
                c.push((b, x as i128));
                proof {
                    assert(c@ =~= Seq::new((n + 1) as nat, |q: int| lit(bit9(m, q), cell_var(i1 as int, i2 as int, q))));
                }
                n += 1;
            }
            let ghost ob = out@;
            out.push(c);
            proof {
                assert(c@ =~= mask_clause(i1 as int, i2 as int, m));
                assert(clauses_view(out@) =~= clauses_view(ob).push(c@));
            }
        }
        m += 1;
    }
    out
}

/// No digit twice in row `i`: for each digit, a clause of its variables
/// over the row's nine cells.
pub open spec fn row_clauses(i: int) -> Seq<Seq<Lit>> {
    Seq::new(9, |j: int| Seq::new(9, |k: int| lit(false, cell_var(i, k, j))))
}

/// No digit twice in column `i`.
pub open spec fn col_clauses(i: int) -> Seq<Seq<Lit>> {
    Seq::new(9, |j: int| Seq::new(9, |k: int| lit(false, cell_var(k, i, j))))
}

/// No digit twice in the block at block row `i1`, block column `i2`, its
/// cells taken row by row.
pub open spec fn block_clauses(i1: int, i2: int) -> Seq<Seq<Lit>> {
    Seq::new(9, |j: int| Seq::new(9, |t: int| lit(false, cell_var(i1 * 3 + t / 3, i2 * 3 + t % 3, j))))
}

/// See [`row_clauses`].
pub fn no_dublicate_row(i: i32) -> (r: Vec<Vec<Lit>>)
    requires
        forall|k: int, j: int| 0 <= k < 9 && 0 <= j < 9 ==> #[trigger] fits(i as int, k, j),
    ensures
        clauses_view(r@) == row_clauses(i as int),
{
    let mut out: Vec<Vec<Lit>> = Vec::new();
    let mut j: i32 = 0;
    while j < 9
        invariant
            forall|k: int, j: int| 0 <= k < 9 && 0 <= j < 9 ==> #[trigger] fits(i as int, k, j),
            0 <= j <= 9,
            clauses_view(out@) == row_clauses(i as int).take(j as int),
        decreases 9 - j,
    {
        let mut c: Vec<Lit> = Vec::new();
        let mut k: i32 = 0;
        while k < 9
            invariant
                forall|k: int, j: int| 0 <= k < 9 && 0 <= j < 9 ==> #[trigger] fits(i as int, k, j),
                0 <= j < 9,
                0 <= k <= 9,
                c@ == Seq::new(k as nat, |q: int| lit(false, cell_var(i as int, q, j as int))),
            decreases 9 - k,
        {
            proof { assert(fits(i as int, k as int, j as int)); }
            let x = index_to_number(i, k, j);
            c.push((false, x as i128));
            proof { assert(c@ =~= Seq::new((k + 1) as nat, |q: int| lit(false, cell_var(i as int, q, j as int)))); }
            k += 1;
        }
        let ghost ob = out@;
        out.push(c);
        proof {
            assert(clauses_view(out@) =~= clauses_view(ob).push(c@));
            assert(clauses_view(out@) =~= row_clauses(i as int).take(j + 1));
        }
        j += 1;
    }
    proof { assert(clauses_view(out@) =~= row_clauses(i as int)); }
    out
}

/// See [`col_clauses`].
pub fn no_dublicate_col(i: i32) -> (r: Vec<Vec<Lit>>)
    requires
        forall|k: int, j: int| 0 <= k < 9 && 0 <= j < 9 ==> #[trigger] fits(k, i as int, j),
    ensures
        clauses_view(r@) == col_clauses(i as int),
{
    let mut out: Vec<Vec<Lit>> = Vec::new();
    let mut j: i32 = 0;
    while j < 9
        invariant
            forall|k: int, j: int| 0 <= k < 9 && 0 <= j < 9 ==> #[trigger] fits(k, i as int, j),
            0 <= j <= 9,
            clauses_view(out@) == col_clauses(i as int).take(j as int),
        decreases 9 - j,
    {
        let mut c: Vec<Lit> = Vec::new();
        let mut k: i32 = 0;
        while k < 9
            invariant
                forall|k: int, j: int| 0 <= k < 9 && 0 <= j < 9 ==> #[trigger] fits(k, i as int, j),
                0 <= j < 9,
                0 <= k <= 9,
                c@ == Seq::new(k as nat, |q: int| lit(false, cell_var(q, i as int, j as int))),
            decreases 9 - k,
        {
            proof { assert(fits(k as int, i as int, j as int)); }
            let x = index_to_number(k, i, j);
            c.push((false, x as i128));
            proof { assert(c@ =~= Seq::new((k + 1) as nat, |q: int| lit(false, cell_var(q, i as int, j as int)))); }
            k += 1;
        }
        let ghost ob = out@;
        out.push(c);
        proof {
            assert(clauses_view(out@) =~= clauses_view(ob).push(c@));
            assert(clauses_view(out@) =~= col_clauses(i as int).take(j + 1));
        }
        j += 1;
    }
    proof { assert(clauses_view(out@) =~= col_clauses(i as int)); }
    out
}

/// The block's cell coordinates and variables can all be computed.
pub open spec fn block_fits(i1: int, i2: int) -> bool {
    &&& in_i32(i1 * 3) && in_i32(i1 * 3 + 2)
    &&& in_i32(i2 * 3) && in_i32(i2 * 3 + 2)
    &&& forall|t: int, j: int| 0 <= t < 9 && 0 <= j < 9 ==> #[trigger] fits(i1 * 3 + t / 3, i2 * 3 + t % 3, j)
}

/// See [`block_clauses`].
pub fn no_dublicate_block(i1: i32, i2: i32) -> (r: Vec<Vec<Lit>>)
    requires
        block_fits(i1 as int, i2 as int),
    ensures
        clauses_view(r@) == block_clauses(i1 as int, i2 as int),
{
    let mut out: Vec<Vec<Lit>> = Vec::new();
    let mut j: i32 = 0;
    while j < 9
        invariant
            block_fits(i1 as int, i2 as int),
            0 <= j <= 9,
            clauses_view(out@) == block_clauses(i1 as int, i2 as int).take(j as int),
        decreases 9 - j,
    {
        let mut c: Vec<Lit> = Vec::new();
        let mut k: i32 = 0;
        while k < 3
            invariant
                block_fits(i1 as int, i2 as int),
                0 <= j < 9,
                0 <= k <= 3,
                c@ == Seq::new((3 * k) as nat, |t: int| lit(false, cell_var(i1 * 3 + t / 3, i2 * 3 + t % 3, j as int))),
            decreases 3 - k,
        {
            let mut l: i32 = 0;
            while l < 3
                invariant
                    block_fits(i1 as int, i2 as int),
                    0 <= j < 9,
                    0 <= k < 3,
                    0 <= l <= 3,
                    c@ == Seq::new((3 * k + l) as nat, |t: int| lit(false, cell_var(i1 * 3 + t / 3, i2 * 3 + t % 3, j as int))),
                decreases 3 - l,
            {
                proof {
                    let t = 3 * k + l;
                    assert(t / 3 == k && t % 3 == l);
                    assert(fits(i1 * 3 + t / 3, i2 * 3 + t % 3, j as int));
                }
                let x = index_to_number(i1 * 3 + k, i2 * 3 + l, j);
                c.push((false, x as i128));
                proof {
                    let t = 3 * k + l;
                    assert(t / 3 == k && t % 3 == l);
                    assert(c@ =~= Seq::new((3 * k + l + 1) as nat, |t: int| lit(false, cell_var(i1 * 3 + t / 3, i2 * 3 + t % 3, j as int))));
                }
                l += 1;
            }
            k += 1;
        }
        let ghost ob = out@;
        out.push(c);
        proof {
            assert(clauses_view(out@) =~= clauses_view(ob).push(c@));
            assert(clauses_view(out@) =~= block_clauses(i1 as int, i2 as int).take(j + 1));
        }
        j += 1;
    }
    proof { assert(clauses_view(out@) =~= block_clauses(i1 as int, i2 as int)); }
    out
}

/// The exactly-one clauses of the first `j` cells of row `i`.
pub open spec fn cells_of_row(i: int, j: int) -> Seq<Seq<Lit>>
    decreases j,
{
    if j <= 0 { Seq::empty() } else { cells_of_row(i, j - 1) + only_one_clauses(i, j - 1, 512) }
}

/// The rules of the first `i` rows: each row's cells, then the row's and
/// the same-numbered column's no-duplicate clauses.
pub open spec fn rules_upto(i: int) -> Seq<Seq<Lit>>
    decreases i,
{
    if i <= 0 {
        Seq::empty()
    } else {
        rules_upto(i - 1) + cells_of_row(i - 1, 9) + row_clauses(i - 1) + col_clauses(i - 1)
    }
}

/// The no-duplicate clauses of the first `b` blocks, row by row.
pub open spec fn blocks_upto(b: int) -> Seq<Seq<Lit>>
    decreases b,
{
    if b <= 0 { Seq::empty() } else { blocks_upto(b - 1) + block_clauses((b - 1) / 3, (b - 1) % 3) }
}

/// The rules of Sudoku, independent of the puzzle.
pub open spec fn sudoku_rules() -> Seq<Seq<Lit>> {
    rules_upto(9) + blocks_upto(9)
}

/// Builds [`sudoku_rules`].
pub fn sudoku_rules_clauses() -> (r: Vec<Vec<Lit>>)
    ensures
        clauses_view(r@) == sudoku_rules(),
{
    let mut out: Vec<Vec<Lit>> = Vec::new();
    let mut i: i32 = 0;
    while i < 9
        invariant
            0 <= i <= 9,
            clauses_view(out@) == rules_upto(i as int),
        decreases 9 - i,
    {
        let mut j: i32 = 0;
        while j < 9
            invariant
                0 <= i < 9,
                0 <= j <= 9,
                clauses_view(out@) == rules_upto(i as int) + cells_of_row(i as int, j as int),
            decreases 9 - j,
        {
            let ghost ob = clauses_view(out@);
            append_clauses(&mut out, cnf_only_one_number(i, j));
            proof { assert(clauses_view(out@) =~= rules_upto(i as int) + cells_of_row(i as int, j + 1)); }
            j += 1;
        }
        append_clauses(&mut out, no_dublicate_row(i));
        append_clauses(&mut out, no_dublicate_col(i));
        proof {
            assert(clauses_view(out@) =~= rules_upto(i + 1));
        }
        i += 1;
    }
    let mut b: i32 = 0;
    while b < 9
        invariant
            0 <= b <= 9,
            clauses_view(out@) == rules_upto(9) + blocks_upto(b as int),
        decreases 9 - b,
    {
        proof {
            assert(block_fits((b / 3) as int, (b % 3) as int)) by {
                assert forall|t: int, j: int| 0 <= t < 9 && 0 <= j < 9 implies #[trigger] fits((b / 3) * 3 + t / 3, (b % 3) * 3 + t % 3, j) by {
                    assert(0 <= t / 3 < 3 && 0 <= t % 3 < 3);
                }
            }
        }
        append_clauses(&mut out, no_dublicate_block(b / 3, b % 3));
        proof { assert(clauses_view(out@) =~= rules_upto(9) + blocks_upto(b + 1)); }
        b += 1;
    }
    out
}

/// Reading the first `k` characters of a puzzle: the line, the position in
/// the line, and a unit clause for each given digit. A newline starts the
/// next line, `.` is an empty cell, `\r` is skipped, and any other character
/// `ch` gives the clause of digit `ch - '1' + 1` at the current cell. `None`
/// where a counter or a variable number leaves the `i32` range.
pub open spec fn clues_upto(t: Seq<char>, k: int) -> Option<(int, int, Seq<Seq<Lit>>)>
    decreases k,
{
    if k <= 0 {
        Some((0, 0, Seq::empty()))
    } else {
        match clues_upto(t, k - 1) {
            None => None,
            Some((line, row, cs)) => {
                let ch = t[k - 1];
                if ch == '\n' {
                    if in_i32(line + 1) { Some((line + 1, 0, cs)) } else { None }
                } else if ch != '.' && ch != '\r' {
                    let d = (ch as u32) as int - 49;
                    if fits(line, row, d) && in_i32(row + 1) {
                        Some((line, row + 1, cs.push(seq![lit(false, cell_var(line, row, d))])))
                    } else {
                        None
                    }
                } else if ch == '.' {
                    if in_i32(row + 1) { Some((line, row + 1, cs)) } else { None }
                } else {
                    Some((line, row, cs))
                }
            },
        }
    }
}

/// The clues of a puzzle text.
pub open spec fn clues_of(t: Seq<char>) -> Option<Seq<Seq<Lit>>> {
    match clues_upto(t, t.len() as int) {
        Some((_, _, cs)) => Some(cs),
        None => None,
    }
}

/// Once reading fails, it stays failed.
pub proof fn lemma_clues_fail(t: Seq<char>, k: int, m: int)
    requires
        0 <= k <= m,
        clues_upto(t, k) is None,
    ensures
        clues_upto(t, m) is None,
    decreases m - k,
{
    if m > k {
        lemma_clues_fail(t, k, m - 1);
    }
}

/// Does computing the variable of a cell stay in range? (See [`fits`].)
fn check_fits(i1: i32, i2: i32, i3: i32) -> (r: bool)
    ensures
        r == fits(i1 as int, i2 as int, i3 as int),
{
    let a: i64 = 81 * (i1 as i64);
    let b: i64 = 9 * (i2 as i64);
    let lo: i64 = i32::MIN as i64;
    let hi: i64 = i32::MAX as i64;
    lo <= a && a <= hi && lo <= b && b <= hi && lo <= a + b && a + b <= hi
        && lo <= a + b + (i3 as i64) && a + b + (i3 as i64) <= hi
        && lo <= a + b + (i3 as i64) + 1 && a + b + (i3 as i64) + 1 <= hi
}

/// The unit clauses of a puzzle's given digits (see [`clues_upto`]).
pub fn puzzle_clauses(puzzle: &str) -> (r: Option<Vec<Vec<Lit>>>)
    ensures
        match r {
            Some(v) => clues_of(puzzle@) == Some(clauses_view(v@)),
            None => clues_of(puzzle@) is None,
        },
{
    let chars = str_chars(puzzle);
    let mut out: Vec<Vec<Lit>> = Vec::new();
    let mut line: i32 = 0;
    let mut row: i32 = 0;
    let mut k: usize = 0;
    while k < chars.len()
        invariant
            chars@ == puzzle@,
            k <= chars@.len(),
            clues_upto(puzzle@, k as int) == Some((line as int, row as int, clauses_view(out@))),
        decreases chars@.len() - k,
    {
        let ch = chars[k];
        if ch == '\n' {
            if line == i32::MAX {
                proof { lemma_clues_fail(puzzle@, k + 1, puzzle@.len() as int); }
                return None;
            }
            line = line + 1;
            row = 0;
        } else if ch != '.' && ch != '\r' {
            let cu: u32 = ch as u32;
            proof { vstd::utf8::char_is_scalar(ch); }
            let d: i32 = (cu as i32) - 49;
            if !check_fits(line, row, d) || row == i32::MAX {
                proof { lemma_clues_fail(puzzle@, k + 1, puzzle@.len() as int); }
                return None;
            }
            let x = index_to_number(line, row, d);
            let mut c: Vec<Lit> = Vec::new();
            c.push((false, x as i128));
            let ghost ob = out@;
            out.push(c);
            proof {
                assert(c@ =~= seq![lit(false, cell_var(line as int, row as int, d as int))]);
                assert(clauses_view(out@) =~= clauses_view(ob).push(c@));
            }
            row = row + 1;
        } else if ch == '.' {
            if row == i32::MAX {
                proof { lemma_clues_fail(puzzle@, k + 1, puzzle@.len() as int); }
                return None;
            }
            row = row + 1;
        }
        k += 1;
    }
    Some(out)
}

/// The CNF text of a puzzle: the problem line `p cnf 729 41010`, the rules,
/// then the clues.
pub open spec fn sudoku_text(puzzle: Seq<char>) -> Option<Seq<u8>> {
    match clues_of(puzzle) {
        Some(cs) => Some(header_text(729, 41010) + cnf_text(sudoku_rules() + cs)),
        None => None,
    }
}

/// Encodes a puzzle as CNF text (see [`sudoku_text`]).
pub fn encode_sudoku(puzzle: &str) -> (r: Option<Vec<u8>>)
    ensures
        match r {
            Some(b) => sudoku_text(puzzle@) == Some(b@),
            None => sudoku_text(puzzle@) is None,
        },
{
    let clues = match puzzle_clauses(puzzle) {
        Some(c) => c,
        None => return None,
    };
    let mut all = sudoku_rules_clauses();
    append_clauses(&mut all, clues);
    let mut out: Vec<u8> = Vec::new();
    push_header(&mut out, 729, 41010);
    push_clauses(&mut out, &all);
    proof { assert(out@ =~= header_text(729, 41010) + cnf_text(clauses_view(all@))); }
    Some(out)
}

/// The assignment of the 729 variables in a solver's output.
pub fn convert_to_true(s: &str) -> (r: Option<Vec<bool>>)
    ensures
        match r {
            Some(a) => model_of(s@, 729) == Some(a@),
            None => model_of(s@, 729) is None,
        },
{
    read_model(s, 729)
}

/// A separator line: twenty dashes.
pub open spec fn dashes() -> Seq<u8> {
    Seq::new(20, |i: int| 45u8).push(10u8)
}

/// The digits true in a cell among the first `i`, each as `d ` .
pub open spec fn cell_digits(a: Seq<bool>, r: int, c: int, i: int) -> Seq<u8>
    decreases i,
{
    if i <= 0 {
        Seq::empty()
    } else {
        cell_digits(a, r, c, i - 1) + if a[cell_var(r, c, i - 1) - 1] { seq![(49 + i - 1) as u8, 32u8] } else { Seq::empty() }
    }
}

/// The first `c` cells of row `r`, with a bar before each block.
pub open spec fn row_cells(a: Seq<bool>, r: int, c: int) -> Seq<u8>
    decreases c,
{
    if c <= 0 {
        Seq::empty()
    } else {
        row_cells(a, r, c - 1) + (if (c - 1) % 3 == 0 { seq![124u8] } else { Seq::empty() }) + cell_digits(a, r, c - 1, 9)
    }
}

/// The first `r` rows, with a separator before each band.
pub open spec fn grid_rows(a: Seq<bool>, r: int) -> Seq<u8>
    decreases r,
{
    if r <= 0 {
        Seq::empty()
    } else {
        grid_rows(a, r - 1) + (if (r - 1) % 3 == 0 { dashes() } else { Seq::empty() }) + row_cells(a, r - 1, 9) + seq![124u8, 10u8]
    }
}

/// The solved grid as text.
pub open spec fn grid_text(a: Seq<bool>) -> Seq<u8> {
    grid_rows(a, 9) + dashes()
}

/// Appends a separator line.
fn push_dashes(out: &mut Vec<u8>)
    ensures
        final(out)@ == old(out)@ + dashes(),
{
    let mut i: usize = 0;
    while i < 20
        invariant
            i <= 20,
            out@ == old(out)@ + Seq::new(i as nat, |q: int| 45u8),
        decreases 20 - i,
    {
        out.push(45);
        proof { assert(out@ =~= old(out)@ + Seq::new((i + 1) as nat, |q: int| 45u8)); }
        i += 1;
    }
    out.push(10);
    proof { assert(out@ =~= old(out)@ + dashes()); }
}

/// Renders a solved grid (see [`grid_text`]).
pub fn render_grid(arr: &Vec<bool>) -> (r: Vec<u8>)
    requires
        arr@.len() == 729,
    ensures
        r@ == grid_text(arr@),
{
    let mut out: Vec<u8> = Vec::new();
    let mut r: i32 = 0;
    while r < 9
        invariant
            arr@.len() == 729,
            0 <= r <= 9,
            out@ == grid_rows(arr@, r as int),
        decreases 9 - r,
    {
        let ghost o0 = out@;
        if r % 3 == 0 {
            push_dashes(&mut out);
        }
        let ghost o1 = out@;
        let mut c: i32 = 0;
        while c < 9
            invariant
                arr@.len() == 729,
                0 <= r < 9,
                0 <= c <= 9,
                out@ == o1 + row_cells(arr@, r as int, c as int),
            decreases 9 - c,
        {
            let ghost o2 = out@;
            if c % 3 == 0 {
                out.push(124);
            }
            let ghost o3 = out@;
            let mut i: i32 = 0;
            while i < 9
                invariant
                    arr@.len() == 729,
                    0 <= r < 9,
                    0 <= c < 9,
                    0 <= i <= 9,
                    out@ == o3 + cell_digits(arr@, r as int, c as int, i as int),
                decreases 9 - i,
            {
                let x = index_to_number(r, c, i);
                if arr[(x - 1) as usize] {
                    out.push((49 + i) as u8);
                    out.push(32);
                }
                proof { assert(out@ =~= o3 + cell_digits(arr@, r as int, c as int, i + 1)); }
                i += 1;
            }
            proof { assert(out@ =~= o1 + row_cells(arr@, r as int, c + 1)); }
            c += 1;
        }
        out.push(124);
        out.push(10);
        proof { assert(out@ =~= grid_rows(arr@, r + 1)); }
        r += 1;
    }
    push_dashes(&mut out);
    out
}

} // verus!
