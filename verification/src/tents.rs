//! The Tents puzzle as a CNF formula. Each tree gets one variable per free
//! neighbouring cell, numbered from 1 in the order of the trees; clauses
//! keep tents apart, give each tree exactly one tent and give each row and
//! column its number of tents.
use vstd::prelude::*;
use crate::cnf::{Lit, clauses_view, cnf_text, spaced_cnf_text, clause_text, push_clause, header_text, push_clauses, push_header, model_of, read_model,
    lit_true, clause_sat};
use crate::text::{words, parse_usize, str_chars, split_words, parse_usize_word, word_is};

verus! {

/// A candidate tent cell of a tree and its variable.
pub struct Tent {
    pub position: (usize, usize),
    pub number: usize,
}

/// A tree and its candidate tents.
pub struct Tree {
    pub position: (usize, usize),
    pub tents: Vec<Tent>,
}

/// A puzzle: its trees, its size, the tents wanted per row and per column,
/// the variables of the tents that each cell may hold (row by row), the
/// number of variables in use, and the puzzle's tokens.
pub struct Game {
    pub trees: Vec<Tree>,
    pub max_column: usize,
    pub max_row: usize,
    pub tents_in_rows: Vec<usize>,
    pub tents_in_columns: Vec<usize>,
    pub tents_map: Vec<Vec<usize>>,
    pub variables_qty: usize,
    pub content: Vec<Vec<char>>,
}

/// The encoder: the clauses, which of them are written with a leading
/// space (clause `k` is when `spaced[k]` holds; those past the end of
/// `spaced` are not), the problem line's counts as fixed when the encoding
/// was made, the puzzle, the number of clauses, and the solver's assignment
/// once read.
pub struct SatMaker {
    pub clauses: Vec<Vec<Lit>>,
    pub spaced: Vec<bool>,
    pub header: (usize, usize),
    pub game: Game,
    pub clauses_qty: usize,
    pub truth_values: Vec<bool>,
}

/// The flags of `n` clauses: clause `k` is flagged when `k` is below the
/// length of `flags` and `flags[k]` holds.
pub open spec fn spaced_of(flags: Seq<bool>, n: nat) -> Seq<bool> {
    Seq::new(n, |k: int| k < flags.len() && flags[k])
}

/// Clauses added past the end of the flags are not flagged.
pub proof fn lemma_spaced_grow(flags: Seq<bool>, n0: nat, n1: nat)
    requires
        flags.len() <= n0 <= n1,
    ensures
        spaced_of(flags, n1) == spaced_of(flags, n0) + Seq::new((n1 - n0) as nat, |i: int| false),
{
    assert(spaced_of(flags, n1) =~= spaced_of(flags, n0) + Seq::new((n1 - n0) as nat, |i: int| false));
}

/// The literal `x` or `-x`.
pub open spec fn tlit(negated: bool, x: usize) -> Lit {
    (negated, x as i128)
}

/// A word that starts with `T` or `.` is split into its characters; other
/// words stay whole.
pub open spec fn format_spec(ws: Seq<Seq<char>>) -> Seq<Seq<char>>
    decreases ws.len(),
{
    if ws.len() == 0 {
        Seq::empty()
    } else {
        let w = ws.last();
        format_spec(ws.drop_last()) + if w.len() > 0 && (w[0] == 'T' || w[0] == '.') {
            Seq::new(w.len(), |i: int| seq![w[i]])
        } else {
            seq![w]
        }
    }
}

/// See [`format_spec`].
pub fn format_properly(input: &Vec<Vec<char>>) -> (r: Vec<Vec<char>>)
    ensures
        r@.map_values(|x: Vec<char>| x@) == format_spec(input@.map_values(|x: Vec<char>| x@)),
{
    let ghost ws = input@.map_values(|x: Vec<char>| x@);
    let mut out: Vec<Vec<char>> = Vec::new();
    let mut k: usize = 0;
    while k < input.len()
        invariant
            ws == input@.map_values(|x: Vec<char>| x@),
            k <= input@.len(),
            out@.map_values(|x: Vec<char>| x@) == format_spec(ws.take(k as int)),
        decreases input@.len() - k,
    {
        let w = &input[k];
        let ghost ob = out@.map_values(|x: Vec<char>| x@);
        proof {
            assert(ws.take(k + 1).drop_last() =~= ws.take(k as int));
            assert(ws.take(k + 1).last() == w@);
        }
        if w.len() > 0 && (w[0] == 'T' || w[0] == '.') {
            let mut j: usize = 0;
            while j < w.len()
                invariant
                    j <= w@.len(),
                    out@.map_values(|x: Vec<char>| x@) == ob + Seq::new(j as nat, |i: int| seq![w@[i]]),
                decreases w@.len() - j,
            {
                let mut one: Vec<char> = Vec::new();
                one.push(w[j]);
                let ghost oc = out@;
                out.push(one);
                proof {
                    assert(out@.map_values(|x: Vec<char>| x@) =~= oc.map_values(|x: Vec<char>| x@).push(one@));
                    assert(one@ =~= seq![w@[j as int]]);
                    assert(out@.map_values(|x: Vec<char>| x@) =~= ob + Seq::new((j + 1) as nat, |i: int| seq![w@[i]]));
                }
                j += 1;
            }
        } else {
            let mut copy: Vec<char> = Vec::new();
            let mut j: usize = 0;
            while j < w.len()
                invariant
                    j <= w@.len(),
                    copy@ == w@.take(j as int),
                decreases w@.len() - j,
            {
                copy.push(w[j]);
                proof { assert(copy@ =~= w@.take(j + 1)); }
                j += 1;
            }
            proof { assert(copy@ =~= w@); }
            let ghost oc = out@;
            out.push(copy);
            proof {
                assert(out@.map_values(|x: Vec<char>| x@) =~= oc.map_values(|x: Vec<char>| x@).push(copy@));
            }
        }
        proof {
            assert(out@.map_values(|x: Vec<char>| x@) =~= format_spec(ws.take(k + 1)));
        }
        k += 1;
    }
    proof { assert(ws.take(k as int) =~= ws); }
    out
}

/// The cells next to `p` in the grid: above, left, right, below.
pub open spec fn neighbors_spec(p: (usize, usize), max_row: usize, max_column: usize) -> Seq<(usize, usize)> {
    let a = if p.0 > 0 { seq![((p.0 - 1) as usize, p.1)] } else { Seq::empty() };
    let b = if p.1 > 0 { seq![(p.0, (p.1 - 1) as usize)] } else { Seq::empty() };
    let c = if p.1 + 1 < max_column { seq![(p.0, (p.1 + 1) as usize)] } else { Seq::empty() };
    let d = if p.0 + 1 < max_row { seq![((p.0 + 1) as usize, p.1)] } else { Seq::empty() };
    a + b + c + d
}

/// Is no tree standing on `p`?
pub open spec fn free_spec(trees: Seq<(usize, usize)>, p: (usize, usize)) -> bool {
    forall|i: int| 0 <= i < trees.len() ==> #[trigger] trees[i] != p
}

/// The positions of the trees.
pub open spec fn positions(trees: Seq<Tree>) -> Seq<(usize, usize)> {
    trees.map_values(|t: Tree| t.position)
}

/// The free cells among `ps`.
pub open spec fn free_cells(trees: Seq<(usize, usize)>, ps: Seq<(usize, usize)>) -> Seq<(usize, usize)>
    decreases ps.len(),
{
    if ps.len() == 0 {
        Seq::empty()
    } else {
        free_cells(trees, ps.drop_last()) + if free_spec(trees, ps.last()) { seq![ps.last()] } else { Seq::empty() }
    }
}

impl Game {
    /// See [`neighbors_spec`].
    pub fn get_neighbors(&self, position: (usize, usize)) -> (r: Vec<(usize, usize)>)
        ensures
            r@ == neighbors_spec(position, self.max_row, self.max_column),
    {
        let mut neighbors: Vec<(usize, usize)> = Vec::new();
        if position.0 > 0 {
            neighbors.push((position.0 - 1, position.1));
        }
        if position.1 > 0 {
            neighbors.push((position.0, position.1 - 1));
        }
        if position.1 < usize::MAX && position.1 + 1 < self.max_column {
            neighbors.push((position.0, position.1 + 1));
        }
        if position.0 < usize::MAX && position.0 + 1 < self.max_row {
            neighbors.push((position.0 + 1, position.1));
        }
        proof { assert(neighbors@ =~= neighbors_spec(position, self.max_row, self.max_column)); }
        neighbors
    }

    /// See [`free_spec`].
    pub fn is_free(&self, position: (usize, usize)) -> (r: bool)
        ensures
            r == free_spec(positions(self.trees@), position),
    {
        let mut free = true;
        let mut i: usize = 0;
        while i < self.trees.len()
            invariant
                i <= self.trees@.len(),
                free == forall|q: int| 0 <= q < i ==> #[trigger] positions(self.trees@)[q] != position,
            decreases self.trees@.len() - i,
        {
            proof { assert(positions(self.trees@)[i as int] == self.trees@[i as int].position); }
            if self.trees[i].position.0 == position.0 && self.trees[i].position.1 == position.1 {
                free = false;
            }
            i += 1;
        }
        free
    }

    /// The tents of a tree at `position`: its free neighbouring cells, with
    /// variables numbered from `next_number` on.
    pub fn get_tents(&self, position: (usize, usize), next_number: usize) -> (r: Vec<Tent>)
        requires
            next_number + 4 <= usize::MAX,
        ensures
            r@.len() == free_cells(positions(self.trees@), neighbors_spec(position, self.max_row, self.max_column)).len(),
            forall|i: int| 0 <= i < r@.len() ==> (#[trigger] r@[i]).position
                == free_cells(positions(self.trees@), neighbors_spec(position, self.max_row, self.max_column))[i]
                && r@[i].number == next_number + i,
    {
        let ns = self.get_neighbors(position);
        let ghost fs = free_cells(positions(self.trees@), ns@);
        let mut new_tents: Vec<Tent> = Vec::new();
        let mut next = next_number;
        let mut k: usize = 0;
        proof { assert(ns@.len() <= 4); }
        while k < ns.len()
            invariant
                ns@.len() <= 4,
                next_number + 4 <= usize::MAX,
                k <= ns@.len(),
                next == next_number + new_tents@.len(),
                new_tents@.len() <= k,
                new_tents@.len() == free_cells(positions(self.trees@), ns@.take(k as int)).len(),
                forall|i: int| 0 <= i < new_tents@.len() ==> (#[trigger] new_tents@[i]).position == free_cells(positions(self.trees@), ns@.take(k as int))[i]
                    && new_tents@[i].number == next_number + i,
            decreases ns@.len() - k,
        {
            proof {
                assert(ns@.take(k + 1).drop_last() =~= ns@.take(k as int));
                assert(ns@.take(k + 1).last() == ns@[k as int]);
            }
            let pos = ns[k];
            if self.is_free(pos) {
                new_tents.push(Tent { position: pos, number: next });
                next = next + 1;
            }
            k += 1;
        }
        proof { assert(ns@.take(k as int) =~= ns@); }
        new_tents
    }
}

/// The variables made for an automaton so far: each state `(step, count)`
/// with its variable, in the order they were made.
pub type NumberDict = Vec<((usize, usize), usize)>;

/// The variable of state `pos` in the dictionary, if it has one.
pub open spec fn dict_get(d: Seq<((usize, usize), usize)>, pos: (usize, usize)) -> Option<usize>
    decreases d.len(),
{
    if d.len() == 0 {
        None
    } else if d.last().0 == pos {
        Some(d.last().1)
    } else {
        dict_get(d.drop_last(), pos)
    }
}

/// Looks a state up.
pub fn dict_lookup(d: &NumberDict, pos: (usize, usize)) -> (r: Option<usize>)
    ensures
        r == dict_get(d@, pos),
{
    let mut i: usize = d.len();
    proof { assert(d@.take(i as int) =~= d@); }
    while i > 0
        invariant
            i <= d@.len(),
            dict_get(d@, pos) == dict_get(d@.take(i as int), pos),
        decreases i,
    {
        proof {
            assert(d@.take(i as int).drop_last() =~= d@.take(i - 1));
            assert(d@.take(i as int).last() == d@[i - 1]);
        }
        if d[i - 1].0.0 == pos.0 && d[i - 1].0.1 == pos.1 {
            return Some(d[i - 1].1);
        }
        i -= 1;
    }
    proof { assert(d@.take(0) =~= Seq::<((usize, usize), usize)>::empty()); }
    None
}

/// A copy of a vector of numbers.
pub fn copy_numbers(v: &Vec<usize>) -> (r: Vec<usize>)
    ensures
        r@ == v@,
{
    let mut out: Vec<usize> = Vec::new();
    let mut i: usize = 0;
    while i < v.len()
        invariant
            i <= v@.len(),
            out@ == v@.take(i as int),
        decreases v@.len() - i,
    {
        out.push(v[i]);
        proof { assert(out@ =~= v@.take(i + 1)); }
        i += 1;
    }
    proof { assert(out@ =~= v@); }
    out
}

/// The literals of the numbers `b`, all negated or all positive.
pub open spec fn lits_of(b: Seq<usize>, negated: bool) -> Seq<Lit> {
    Seq::new(b.len(), |i: int| tlit(negated, b[i]))
}

/// The clauses `-b[i] -b[j]` for `i` below `i_end` and every `j > i`, in
/// order.
pub open spec fn pairs_upto(b: Seq<usize>, i_end: int) -> Seq<Seq<Lit>>
    decreases i_end,
{
    if i_end <= 0 {
        Seq::empty()
    } else {
        let i = i_end - 1;
        pairs_upto(b, i) + Seq::new((b.len() - i - 1) as nat, |t: int| seq![tlit(true, b[i]), tlit(true, b[i + 1 + t])])
    }
}

/// At most one of `b`, then at least one of `b`.
pub open spec fn not_two_spec(b: Seq<usize>) -> Seq<Seq<Lit>> {
    pairs_upto(b, b.len() as int).push(lits_of(b, false))
}

/// The first `round` rounds of extending groups (see [`SatMaker::n_choose_k`]).
pub open spec fn begin_of(g: Seq<usize>) -> int {
    if g.len() > 0 { g.last() + 1 } else { 0 }
}

/// Each group, in order, extended by each number from one past its last
/// entry up to `bound` (exclusive).
pub open spec fn extend_groups(gs: Seq<Seq<usize>>, bound: int) -> Seq<Seq<usize>>
    decreases gs.len(),
{
    if gs.len() == 0 {
        Seq::empty()
    } else {
        let g = gs.last();
        let b = begin_of(g);
        extend_groups(gs.drop_last(), bound)
            + Seq::new(if bound > b { (bound - b) as nat } else { 0nat }, |t: int| g.push((b + t) as usize))
    }
}

/// The groups after `r` of the `k` rounds for `n` numbers: round `r`
/// extends every group by the numbers that still leave room for `k - r`
/// more.
pub open spec fn choose_rounds(n: int, k: int, r: int) -> Seq<Seq<usize>>
    decreases r,
{
    if r <= 0 {
        seq![Seq::empty()]
    } else {
        extend_groups(choose_rounds(n, k, r - 1), n - (k - r))
    }
}

/// The `k`-element subsets of `0..n` as increasing sequences, in
/// lexicographic order.
pub open spec fn choose_spec(n: int, k: int) -> Seq<Seq<usize>> {
    choose_rounds(n, k, k)
}

/// A sequence is strictly increasing and below `n`.
pub open spec fn increasing_below(g: Seq<usize>, n: int) -> bool {
    &&& forall|a: int, b: int| 0 <= a < b < g.len() ==> g[a] < g[b]
    &&& forall|a: int| 0 <= a < g.len() ==> g[a] < n
}

/// The groups of a round are increasing and below `n`.
pub proof fn lemma_extend_increasing(gs: Seq<Seq<usize>>, bound: int, n: int)
    requires
        bound <= n <= usize::MAX,
        forall|i: int| 0 <= i < gs.len() ==> increasing_below(#[trigger] gs[i], n),
    ensures
        forall|i: int| 0 <= i < extend_groups(gs, bound).len() ==> increasing_below(#[trigger] extend_groups(gs, bound)[i], n),
    decreases gs.len(),
{
    if gs.len() > 0 {
        lemma_extend_increasing(gs.drop_last(), bound, n);
        let g = gs.last();
        assert(increasing_below(g, n));
        let p = extend_groups(gs.drop_last(), bound);
        let e = extend_groups(gs, bound);
        assert forall|i: int| 0 <= i < e.len() implies increasing_below(#[trigger] e[i], n) by {
            if i >= p.len() {
                let t = i - p.len();
                let b = begin_of(g);
                let x = g.push((b + t) as usize);
                assert(e[i] == x);
                assert(0 <= b + t < bound);
                assert(x[g.len() as int] == b + t);
                assert forall|a: int| 0 <= a < g.len() implies #[trigger] g[a] < b by {
                    if a < g.len() - 1 { assert(g[a] < g[g.len() - 1]); }
                }
                assert forall|a: int, c: int| 0 <= a < c < x.len() implies x[a] < x[c] by {
                    if c == g.len() { assert(x[a] == g[a]); } else { assert(x[a] == g[a] && x[c] == g[c]); }
                }
                assert forall|a: int| 0 <= a < x.len() implies x[a] < n by {
                    if a < g.len() { assert(x[a] == g[a]); }
                }
            } else {
                assert(e[i] == p[i]);
            }
        }
    }
}

impl SatMaker {
    /// Appends a clause and counts it.
    fn add_clause(&mut self, c: Vec<Lit>)
        ensures
            clauses_view(final(self).clauses@) == clauses_view(old(self).clauses@).push(c@),
            final(self).clauses@.len() == old(self).clauses@.len() + 1,
            final(self).clauses_qty == final(self).clauses@.len(),
            final(self).header == old(self).header,
            final(self).spaced == old(self).spaced,
            final(self).game == old(self).game,
            final(self).truth_values == old(self).truth_values,
    {
        let ghost ob = self.clauses@;
        self.clauses.push(c);
        self.clauses_qty = self.clauses.len();
        proof { assert(clauses_view(self.clauses@) =~= clauses_view(ob).push(c@)); }
    }

    /// Flags the last clause to be written with a leading space.
    fn mark_last_spaced(&mut self)
        requires
            old(self).counted(),
            old(self).clauses@.len() > 0,
        ensures
            final(self).counted(),
            final(self).spaced_view() == old(self).spaced_view().update(old(self).clauses@.len() - 1, true),
            final(self).clauses == old(self).clauses,
            final(self).header == old(self).header,
            final(self).game == old(self).game,
            final(self).truth_values == old(self).truth_values,
    {
        let n = self.clauses.len();
        let ghost sv0 = self.spaced_view();
        while self.spaced.len() < n - 1
            invariant
                n == self.clauses@.len(),
                n > 0,
                self.counted(),
                self.spaced@.len() <= n,
                self.spaced_view() == sv0,
                self.clauses == old(self).clauses,
                self.header == old(self).header,
                self.game == old(self).game,
                self.truth_values == old(self).truth_values,
                self.clauses_qty == old(self).clauses_qty,
            decreases n - self.spaced@.len(),
        {
            self.spaced.push(false);
            proof { assert(self.spaced_view() =~= sv0); }
        }
        if self.spaced.len() < n {
            self.spaced.push(true);
        } else {
            self.spaced.set(n - 1, true);
        }
        proof { assert(self.spaced_view() =~= sv0.update(n - 1, true)); }
    }

    /// The variable of state `pos`, made on first use as the next variable.
    fn update_use_dict(&mut self, number_dict: &mut NumberDict, pos: (usize, usize)) -> (r: Option<usize>)
        ensures
            match r {
                Some(x) => match dict_get(old(number_dict)@, pos) {
                    Some(y) => x == y && final(number_dict)@ == old(number_dict)@ && final(self).game.variables_qty == old(self).game.variables_qty,
                    None => x == old(self).game.variables_qty + 1 && final(self).game.variables_qty == x
                        && final(number_dict)@ == old(number_dict)@.push((pos, x)),
                },
                None => dict_get(old(number_dict)@, pos) is None && old(self).game.variables_qty == usize::MAX
                    && final(self).game.variables_qty == old(self).game.variables_qty,
            },
            final(self).clauses == old(self).clauses,
            final(self).clauses_qty == old(self).clauses_qty,
            final(self).header == old(self).header,
            final(self).spaced == old(self).spaced,
            final(self).truth_values == old(self).truth_values,
            final(self).game.trees == old(self).game.trees,
            final(self).game.tents_map == old(self).game.tents_map,
            final(self).game.max_row == old(self).game.max_row,
            final(self).game.max_column == old(self).game.max_column,
            final(self).game.tents_in_rows == old(self).game.tents_in_rows,
            final(self).game.tents_in_columns == old(self).game.tents_in_columns,
            final(self).game.content == old(self).game.content,
    {
        match dict_lookup(number_dict, pos) {
            Some(x) => Some(x),
            None => {
                if self.game.variables_qty == usize::MAX {
                    return None;
                }
                self.game.variables_qty = self.game.variables_qty + 1;
                number_dict.push((pos, self.game.variables_qty));
                Some(self.game.variables_qty)
            },
        }
    }

    /// At most one of the variables `bools_per_step` is true (a clause for
    /// each pair), and at least one is.
    fn not_two(&mut self, bools_per_step: Vec<usize>)
        requires
            old(self).clauses_qty == old(self).clauses@.len(),
        ensures
            clauses_view(final(self).clauses@) == clauses_view(old(self).clauses@) + not_two_spec(bools_per_step@),
            final(self).clauses_qty == final(self).clauses@.len(),
            final(self).header == old(self).header,
            final(self).spaced == old(self).spaced,
            final(self).game == old(self).game,
            final(self).truth_values == old(self).truth_values,
    {
        let b = bools_per_step;
        let ghost c0 = clauses_view(self.clauses@);
        let n = b.len();
        proof { assert(c0 + pairs_upto(b@, 0) =~= c0); }
        let ghost s0 = *self;
        let mut i: usize = 0;
        while i < n
            invariant
                n == b@.len(),
                i <= n,
                clauses_view(self.clauses@) == c0 + pairs_upto(b@, i as int),
                self.clauses_qty == self.clauses@.len(),
                self.header == s0.header,
                self.spaced == s0.spaced,
                self.game == s0.game,
                self.truth_values == s0.truth_values,
            decreases n - i,
        {
            let ghost ci = clauses_view(self.clauses@);
            let mut j: usize = i + 1;
            while j < n
                invariant
                    n == b@.len(),
                    i < n,
                    i + 1 <= j <= n,
                    clauses_view(self.clauses@) == ci + Seq::new((j - i - 1) as nat, |t: int| seq![tlit(true, b@[i as int]), tlit(true, b@[i + 1 + t])]),
                    self.clauses_qty == self.clauses@.len(),
                    ci == c0 + pairs_upto(b@, i as int),
                    self.header == s0.header,
                    self.spaced == s0.spaced,
                    self.game == s0.game,
                    self.truth_values == s0.truth_values,
                decreases n - j,
            {
                let mut c: Vec<Lit> = Vec::new();
                c.push((true, b[i] as i128));
                c.push((true, b[j] as i128));
                let ghost cb = clauses_view(self.clauses@);
                self.add_clause(c);
                proof {
                    assert(c@ =~= seq![tlit(true, b@[i as int]), tlit(true, b@[i + 1 + (j - i - 1)])]);
                    assert(clauses_view(self.clauses@) =~= ci + Seq::new((j + 1 - i - 1) as nat, |t: int| seq![tlit(true, b@[i as int]), tlit(true, b@[i + 1 + t])]));
                }
                j += 1;
            }
            proof {
                assert(clauses_view(self.clauses@) =~= c0 + pairs_upto(b@, i + 1));
            }
            i += 1;
        }
        let mut last: Vec<Lit> = Vec::new();
        let mut k: usize = 0;
        while k < n
            invariant
                n == b@.len(),
                k <= n,
                last@ == lits_of(b@.take(k as int), false),
            decreases n - k,
        {
            last.push((false, b[k] as i128));
            proof { assert(last@ =~= lits_of(b@.take(k + 1), false)); }
            k += 1;
        }
        proof { assert(b@.take(k as int) =~= b@); }
        self.add_clause(last);
        proof { assert(clauses_view(self.clauses@) =~= c0 + not_two_spec(b@)); }
    }

    /// The `k`-element subsets of `0..n`, each as an increasing sequence,
    /// in lexicographic order (see [`choose_spec`]).
    pub fn n_choose_k(n: usize, k: usize) -> (r: Vec<Vec<usize>>)
        requires
            k <= n + 1,
        ensures
            r@.map_values(|g: Vec<usize>| g@) == choose_spec(n as int, k as int),
            forall|i: int| 0 <= i < r@.len() ==> increasing_below(#[trigger] r@[i]@, n as int),
    {
        let mut res_old: Vec<Vec<usize>> = Vec::new();
        res_old.push(Vec::new());
        proof { assert(res_old@.map_values(|g: Vec<usize>| g@) =~= choose_rounds(n as int, k as int, 0)); }
        let mut kk = k;
        while kk > 0
            invariant
                kk <= k <= n + 1,
                res_old@.map_values(|g: Vec<usize>| g@) == choose_rounds(n as int, k as int, (k - kk) as int),
                forall|i: int| 0 <= i < res_old@.len() ==> increasing_below(#[trigger] res_old@[i]@, n as int),
            decreases kk,
        {
            kk -= 1;
            let bound = n - kk;
            let ghost gs = res_old@.map_values(|g: Vec<usize>| g@);
            let mut res_new: Vec<Vec<usize>> = Vec::new();
            let mut q: usize = 0;
            while q < res_old.len()
                invariant
                    bound == n - kk,
                    bound <= n,
                    gs == res_old@.map_values(|g: Vec<usize>| g@),
                    forall|i: int| 0 <= i < res_old@.len() ==> increasing_below(#[trigger] res_old@[i]@, n as int),
                    q <= res_old@.len(),
                    res_new@.map_values(|g: Vec<usize>| g@) == extend_groups(gs.take(q as int), bound as int),
                decreases res_old@.len() - q,
            {
                let group = &res_old[q];
                proof {
                    assert(gs[q as int] == group@);
                    assert(increasing_below(group@, n as int));
                    if group@.len() > 0 { assert(group@[group@.len() - 1] < n); }
                }
                let begin: usize = if group.len() > 0 { group[group.len() - 1] + 1 } else { 0 };
                let ghost rb = res_new@.map_values(|g: Vec<usize>| g@);
                let mut i: usize = begin;
                let stop: usize = if begin < bound { bound } else { begin };
                proof { assert(res_new@.map_values(|g: Vec<usize>| g@) =~= rb + Seq::new(0nat, |t: int| group@.push((begin + t) as usize))); }
                while i < stop
                    invariant
                        begin <= n,
                        begin == begin_of(group@),
                        stop == if begin < bound { bound } else { begin },
                        begin <= i <= stop,
                        res_new@.map_values(|g: Vec<usize>| g@) == rb + Seq::new((i - begin) as nat, |t: int| group@.push((begin + t) as usize)),
                    decreases stop - i,
                {
                    let mut clone = copy_numbers(group);
                    clone.push(i);
                    let ghost rc = res_new@;
                    res_new.push(clone);
                    proof {
                        assert(res_new@.map_values(|g: Vec<usize>| g@) =~= rc.map_values(|g: Vec<usize>| g@).push(clone@));
                        assert(clone@ == group@.push((begin + (i - begin)) as usize));
                        assert(res_new@.map_values(|g: Vec<usize>| g@) =~= rb + Seq::new((i + 1 - begin) as nat, |t: int| group@.push((begin + t) as usize)));
                    }
                    i += 1;
                }
                proof {
                    assert(gs.take(q + 1).drop_last() =~= gs.take(q as int));
                    assert(gs.take(q + 1).last() == gs[q as int]);
                    assert(gs[q as int] == group@);
                    let cnt: nat = if bound > begin { (bound - begin) as nat } else { 0nat };
                    assert((i - begin) as nat == cnt);
                    assert(res_new@.map_values(|g: Vec<usize>| g@) =~= extend_groups(gs.take(q + 1), bound as int));
                }
                q += 1;
            }
            proof {
                assert(gs.take(q as int) =~= gs);
                assert(forall|i: int| 0 <= i < gs.len() ==> increasing_below(#[trigger] gs[i], n as int));
                lemma_extend_increasing(gs, bound as int, n as int);
                assert forall|i: int| 0 <= i < res_new@.len() implies increasing_below(#[trigger] res_new@[i]@, n as int) by {
                    assert(res_new@[i]@ == res_new@.map_values(|g: Vec<usize>| g@)[i]);
                }
            }
            res_old = res_new;
        }
        res_old
    }
}

/// The clause over the numbers picked by `combo`, all negated or all positive.
pub open spec fn subset_clause(combo: Seq<usize>, nums: Seq<usize>, negated: bool) -> Seq<Lit> {
    Seq::new(combo.len(), |t: int| tlit(negated, nums[combo[t] as int]))
}

/// The clauses over every `k`-subset of `nums`.
pub open spec fn subset_clauses(nums: Seq<usize>, k: int, negated: bool) -> Seq<Seq<Lit>> {
    choose_spec(nums.len() as int, k).map_values(|g: Seq<usize>| subset_clause(g, nums, negated))
}

/// Exactly `n` of `nums` are true: no `n + 1` of them all true, no
/// `len - n + 1` of them all false.
pub open spec fn exactly_n_spec(n: int, nums: Seq<usize>) -> Seq<Seq<Lit>> {
    subset_clauses(nums, n + 1, true) + subset_clauses(nums, nums.len() - n + 1, false)
}

/// The literals of the pools picked by `combo`, in order.
pub open spec fn pool_lits(combo: Seq<usize>, pools: Seq<Seq<usize>>, negated: bool) -> Seq<Lit>
    decreases combo.len(),
{
    if combo.len() == 0 {
        Seq::empty()
    } else {
        pool_lits(combo.drop_last(), pools, negated) + lits_of(pools[combo.last() as int], negated)
    }
}

/// The clauses over every `k`-subset of the pools.
pub open spec fn pool_clauses(pools: Seq<Seq<usize>>, k: int, negated: bool) -> Seq<Seq<Lit>> {
    choose_spec(pools.len() as int, k).map_values(|g: Seq<usize>| pool_lits(g, pools, negated))
}

impl SatMaker {
    /// One clause per `k`-subset of `nums` (see [`subset_clauses`]).
    fn subsets(&mut self, nums: &Vec<usize>, k: usize, negated: bool)
        requires
            k <= nums@.len() + 1,
            old(self).clauses_qty == old(self).clauses@.len(),
        ensures
            clauses_view(final(self).clauses@) == clauses_view(old(self).clauses@) + subset_clauses(nums@, k as int, negated),
            final(self).clauses_qty == final(self).clauses@.len(),
            final(self).header == old(self).header,
            final(self).spaced == old(self).spaced,
            final(self).game == old(self).game,
            final(self).truth_values == old(self).truth_values,
    {
        let combinations = Self::n_choose_k(nums.len(), k);
        let ghost cs = combinations@.map_values(|g: Vec<usize>| g@);
        let ghost c0 = clauses_view(self.clauses@);
        let ghost s0 = *self;
        let mut q: usize = 0;
        while q < combinations.len()
            invariant
                cs == combinations@.map_values(|g: Vec<usize>| g@),
                cs == choose_spec(nums@.len() as int, k as int),
                forall|i: int| 0 <= i < combinations@.len() ==> increasing_below(#[trigger] combinations@[i]@, nums@.len() as int),
                q <= combinations@.len(),
                clauses_view(self.clauses@) == c0 + cs.take(q as int).map_values(|g: Seq<usize>| subset_clause(g, nums@, negated)),
                self.clauses_qty == self.clauses@.len(),
                self.header == s0.header,
                self.spaced == s0.spaced,
                self.game == s0.game,
                self.truth_values == s0.truth_values,
            decreases combinations@.len() - q,
        {
            let combi = &combinations[q];
            proof { assert(increasing_below(combi@, nums@.len() as int)); }
            let mut c: Vec<Lit> = Vec::new();
            let mut t: usize = 0;
            while t < combi.len()
                invariant
                    increasing_below(combi@, nums@.len() as int),
                    t <= combi@.len(),
                    c@ == subset_clause(combi@.take(t as int), nums@, negated),
                decreases combi@.len() - t,
            {
                c.push((negated, nums[combi[t]] as i128));
                proof { assert(c@ =~= subset_clause(combi@.take(t + 1), nums@, negated)); }
                t += 1;
            }
            proof { assert(combi@.take(t as int) =~= combi@); }
            let ghost cb = clauses_view(self.clauses@);
            self.add_clause(c);
            proof {
                assert(cs[q as int] == combi@);
                assert(cs.take(q + 1) =~= cs.take(q as int).push(combi@));
                assert(clauses_view(self.clauses@) =~= c0 + cs.take(q + 1).map_values(|g: Seq<usize>| subset_clause(g, nums@, negated)));
            }
            q += 1;
        }
        proof { assert(cs.take(q as int) =~= cs); }
    }

    /// Exactly `n` of the variables `tent_numbers` are true (see
    /// [`exactly_n_spec`]).
    fn exactly_n(&mut self, n: usize, tent_numbers: Vec<usize>)
        requires
            n <= tent_numbers@.len(),
            n < usize::MAX,
            tent_numbers@.len() - n < usize::MAX,
            old(self).clauses_qty == old(self).clauses@.len(),
        ensures
            clauses_view(final(self).clauses@) == clauses_view(old(self).clauses@) + exactly_n_spec(n as int, tent_numbers@),
            final(self).clauses@.len() >= old(self).clauses@.len(),
            final(self).clauses_qty == final(self).clauses@.len(),
            final(self).header == old(self).header,
            final(self).spaced == old(self).spaced,
            final(self).game == old(self).game,
            final(self).truth_values == old(self).truth_values,
    {
        let ghost c0 = clauses_view(self.clauses@);
        self.subsets(&tent_numbers, n + 1, true);
        self.subsets(&tent_numbers, tent_numbers.len() - n + 1, false);
        proof {
            assert(clauses_view(self.clauses@) =~= c0 + exactly_n_spec(n as int, tent_numbers@));
            assert(clauses_view(self.clauses@).len() == self.clauses@.len());
            assert(clauses_view(old(self).clauses@).len() == old(self).clauses@.len());
        }
    }

    /// One clause per `k`-subset of the pools, over all their variables
    /// (see [`pool_clauses`]).
    fn choose_from_pool(&mut self, pools: Vec<Vec<usize>>, k: usize, with_not: bool)
        requires
            k <= pools@.len() + 1,
            old(self).clauses_qty == old(self).clauses@.len(),
        ensures
            clauses_view(final(self).clauses@) == clauses_view(old(self).clauses@)
                + pool_clauses(pools@.map_values(|p: Vec<usize>| p@), k as int, with_not),
            final(self).clauses_qty == final(self).clauses@.len(),
            final(self).header == old(self).header,
            final(self).spaced == old(self).spaced,
            final(self).game == old(self).game,
            final(self).truth_values == old(self).truth_values,
    {
        let ghost ps = pools@.map_values(|p: Vec<usize>| p@);
        let combinations = Self::n_choose_k(pools.len(), k);
        let ghost cs = combinations@.map_values(|g: Vec<usize>| g@);
        let ghost c0 = clauses_view(self.clauses@);
        let ghost s0 = *self;
        let mut q: usize = 0;
        while q < combinations.len()
            invariant
                ps == pools@.map_values(|p: Vec<usize>| p@),
                cs == combinations@.map_values(|g: Vec<usize>| g@),
                cs == choose_spec(pools@.len() as int, k as int),
                forall|i: int| 0 <= i < combinations@.len() ==> increasing_below(#[trigger] combinations@[i]@, pools@.len() as int),
                q <= combinations@.len(),
                clauses_view(self.clauses@) == c0 + cs.take(q as int).map_values(|g: Seq<usize>| pool_lits(g, ps, with_not)),
                self.clauses_qty == self.clauses@.len(),
                self.header == s0.header,
                self.spaced == s0.spaced,
                self.game == s0.game,
                self.truth_values == s0.truth_values,
            decreases combinations@.len() - q,
        {
            let combi = &combinations[q];
            proof { assert(increasing_below(combi@, pools@.len() as int)); }
            let mut c: Vec<Lit> = Vec::new();
            let mut t: usize = 0;
            while t < combi.len()
                invariant
                    ps == pools@.map_values(|p: Vec<usize>| p@),
                    increasing_below(combi@, pools@.len() as int),
                    t <= combi@.len(),
                    c@ == pool_lits(combi@.take(t as int), ps, with_not),
                decreases combi@.len() - t,
            {
                let pool = &pools[combi[t]];
                let ghost cc = c@;
                let mut u: usize = 0;
                while u < pool.len()
                    invariant
                        u <= pool@.len(),
                        c@ == cc + lits_of(pool@.take(u as int), with_not),
                    decreases pool@.len() - u,
                {
                    c.push((with_not, pool[u] as i128));
                    proof { assert(c@ =~= cc + lits_of(pool@.take(u + 1), with_not)); }
                    u += 1;
                }
                proof {
                    assert(pool@.take(u as int) =~= pool@);
                    assert(ps[combi@[t as int] as int] == pool@);
                    assert(combi@.take(t + 1).drop_last() =~= combi@.take(t as int));
                    assert(c@ =~= pool_lits(combi@.take(t + 1), ps, with_not));
                }
                t += 1;
            }
            proof { assert(combi@.take(t as int) =~= combi@); }
            self.add_clause(c);
            proof {
                assert(cs[q as int] == combi@);
                assert(cs.take(q + 1) =~= cs.take(q as int).push(combi@));
                assert(clauses_view(self.clauses@) =~= c0 + cs.take(q + 1).map_values(|g: Seq<usize>| pool_lits(g, ps, with_not)));
            }
            q += 1;
        }
        proof { assert(cs.take(q as int) =~= cs); }
    }

    /// Exactly `n` of the pools hold a true variable, pool by pool.
    fn exactly_n_from_pool(&mut self, n: usize, pools: Vec<Vec<usize>>)
        requires
            n <= pools@.len() < usize::MAX,
            old(self).clauses_qty == old(self).clauses@.len(),
        ensures
            clauses_view(final(self).clauses@) == clauses_view(old(self).clauses@)
                + pool_clauses(pools@.map_values(|p: Vec<usize>| p@), n + 1, true)
                + pool_clauses(pools@.map_values(|p: Vec<usize>| p@), pools@.len() - n + 1, false),
            final(self).clauses_qty == final(self).clauses@.len(),
            final(self).header == old(self).header,
            final(self).spaced == old(self).spaced,
            final(self).game == old(self).game,
            final(self).truth_values == old(self).truth_values,
    {
        let ghost c0 = clauses_view(self.clauses@);
        let ghost ps = pools@.map_values(|p: Vec<usize>| p@);
        let len = pools.len();
        let copy = copy_pools(&pools);
        self.choose_from_pool(copy, n + 1, true);
        let ghost c1 = clauses_view(self.clauses@);
        proof { assert(c1 == c0 + pool_clauses(ps, n + 1, true)); }
        self.choose_from_pool(pools, len - n + 1, false);
        proof {
            assert(clauses_view(self.clauses@) == c1 + pool_clauses(ps, pools@.len() - n + 1, false));
            assert(clauses_view(self.clauses@) =~= c0
                + pool_clauses(pools@.map_values(|p: Vec<usize>| p@), n + 1, true)
                + pool_clauses(pools@.map_values(|p: Vec<usize>| p@), pools@.len() - n + 1, false));
        }
    }
}

/// A copy of a list of pools.
pub fn copy_pools(v: &Vec<Vec<usize>>) -> (r: Vec<Vec<usize>>)
    ensures
        r@.map_values(|p: Vec<usize>| p@) == v@.map_values(|p: Vec<usize>| p@),
        r@.len() == v@.len(),
{
    let mut out: Vec<Vec<usize>> = Vec::new();
    let mut i: usize = 0;
    while i < v.len()
        invariant
            i <= v@.len(),
            out@.map_values(|p: Vec<usize>| p@) == v@.take(i as int).map_values(|p: Vec<usize>| p@),
            out@.len() == i,
        decreases v@.len() - i,
    {
        let c = copy_numbers(&v[i]);
        let ghost ob = out@;
        out.push(c);
        proof {
            assert(out@ == ob.push(c));
            assert(v@.take(i + 1) =~= v@.take(i as int).push(v@[i as int]));
            assert(out@.map_values(|p: Vec<usize>| p@) =~= ob.map_values(|p: Vec<usize>| p@).push(c@));
            assert(out@.map_values(|p: Vec<usize>| p@) =~= v@.take(i + 1).map_values(|p: Vec<usize>| p@));
        }
        i += 1;
    }
    proof { assert(v@.take(i as int) =~= v@); }
    out
}

/// Reading the first `k` grid tokens against `mc` columns: the index of the
/// next cell, the trees' positions, and the row counts. A `T` or `.` is a
/// cell (`T` a tree at row `index / mc`, column `index % mc`); any other
/// token is a row count. `None` when there are no columns or a count does
/// not read.
pub open spec fn scan_upto(toks: Seq<Seq<char>>, mc: usize, k: int) -> Option<(int, Seq<(usize, usize)>, Seq<usize>)>
    decreases k,
{
    if k <= 0 {
        Some((0, Seq::empty(), Seq::empty()))
    } else {
        match scan_upto(toks, mc, k - 1) {
            None => None,
            Some((index, trees, rows)) => {
                let t = toks[k - 1];
                if mc == 0 {
                    None
                } else if t == seq!['T'] || t == seq!['.'] {
                    let trees2 = if t == seq!['T'] { trees.push(((index / mc as int) as usize, (index % mc as int) as usize)) } else { trees };
                    Some((index + 1, trees2, rows))
                } else {
                    match parse_usize(t) {
                        Some(v) => Some((index, trees, rows.push(v))),
                        None => None,
                    }
                }
            },
        }
    }
}

/// The column counts among the first `k` tokens, if they all read.
pub open spec fn counts_upto(toks: Seq<Seq<char>>, k: int) -> Option<Seq<usize>>
    decreases k,
{
    if k <= 0 {
        Some(Seq::empty())
    } else {
        match (counts_upto(toks, k - 1), parse_usize(toks[k - 1])) {
            (Some(c), Some(v)) => Some(c.push(v)),
            _ => None,
        }
    }
}

/// What a puzzle text lays out.
pub ghost struct Layout {
    pub max_row: usize,
    pub max_column: usize,
    pub trees: Seq<(usize, usize)>,
    pub rows: Seq<usize>,
    pub cols: Seq<usize>,
    pub content: Seq<Seq<char>>,
}

/// A puzzle text: the tokens (see [`format_spec`]) are the number of rows,
/// the number of columns, then the grid row by row with each row's tent
/// count, then the column counts.
pub open spec fn layout_of(text: Seq<char>) -> Option<Layout> {
    let content = format_spec(words(text));
    if content.len() < 2 {
        None
    } else {
        match (parse_usize(content[1]), parse_usize(content[0])) {
            (Some(mc), Some(mr)) => {
                let end = (mc + 1) * mr + 2;
                if end > content.len() {
                    None
                } else {
                    match (scan_upto(content.subrange(2, end), mc, end - 2), counts_upto(content.subrange(end, content.len() as int), content.len() - end)) {
                        (Some((_, trees, rows)), Some(cols)) => Some(Layout { max_row: mr, max_column: mc, trees, rows, cols, content }),
                        _ => None,
                    }
                }
            },
            _ => None,
        }
    }
}

/// The tent cells of tree `k`.
pub open spec fn tree_tents(lay: Layout, k: int) -> Seq<(usize, usize)> {
    free_cells(lay.trees, neighbors_spec(lay.trees[k], lay.max_row, lay.max_column))
}

/// The number of tents of the first `k` trees.
pub open spec fn tents_before(lay: Layout, k: int) -> nat
    decreases k,
{
    if k <= 0 { 0 } else { tents_before(lay, k - 1) + tree_tents(lay, k - 1).len() }
}

/// The variables among `first..` of the first `i` cells in `cells` that are `p`.
pub open spec fn tents_at(cells: Seq<(usize, usize)>, first: nat, p: (usize, usize), i: int) -> Seq<usize>
    decreases i,
{
    if i <= 0 {
        Seq::empty()
    } else {
        tents_at(cells, first, p, i - 1) + if cells[i - 1] == p { seq![(first + i - 1) as usize] } else { Seq::empty() }
    }
}

/// The variables of the tents at `p` among the first `k` trees, in order.
pub open spec fn cell_numbers(lay: Layout, p: (usize, usize), k: int) -> Seq<usize>
    decreases k,
{
    if k <= 0 {
        Seq::empty()
    } else {
        cell_numbers(lay, p, k - 1) + tents_at(tree_tents(lay, k - 1), tents_before(lay, k - 1) + 1, p, tree_tents(lay, k - 1).len() as int)
    }
}

/// Every tent cell lies in the grid.
pub open spec fn tents_inside(lay: Layout) -> bool {
    forall|k: int, i: int| 0 <= k < lay.trees.len() && 0 <= i < tree_tents(lay, k).len()
        ==> (#[trigger] tree_tents(lay, k)[i]).0 < lay.max_row && tree_tents(lay, k)[i].1 < lay.max_column
}

/// Does a puzzle text make a game? It lays out, its variables are numbered
/// within `usize`, its cells can be counted, and every tent cell is in the
/// grid.
pub open spec fn game_ok(text: Seq<char>) -> bool {
    match layout_of(text) {
        Some(lay) => {
            &&& tents_before(lay, lay.trees.len() as int) + 5 <= usize::MAX
            &&& lay.max_row * lay.max_column <= usize::MAX
            &&& tents_inside(lay)
        },
        None => false,
    }
}

impl Game {
    /// The game as laid out by `lay`: its tokens, size and counts, its trees
    /// with their tents numbered consecutively from 1, the variables of each
    /// cell (row by row), and the number of variables.
    pub open spec fn built_from(&self, lay: Layout) -> bool {
        &&& self.max_row == lay.max_row
        &&& self.max_column == lay.max_column
        &&& self.content@.map_values(|x: Vec<char>| x@) == lay.content
        &&& self.tents_in_rows@ == lay.rows
        &&& self.tents_in_columns@ == lay.cols
        &&& positions(self.trees@) == lay.trees
        &&& forall|k: int| 0 <= k < self.trees@.len() ==> {
            let t = #[trigger] self.trees@[k];
            &&& t.tents@.len() == tree_tents(lay, k).len()
            &&& forall|i: int| 0 <= i < t.tents@.len() ==> (#[trigger] t.tents@[i]).position == tree_tents(lay, k)[i]
                && t.tents@[i].number == tents_before(lay, k) + 1 + i
        }
        &&& self.variables_qty == tents_before(lay, lay.trees.len() as int)
        &&& self.tents_map@.len() == lay.max_row * lay.max_column
        &&& forall|q: int| 0 <= q < self.tents_map@.len() ==> (#[trigger] self.tents_map@[q])@
            == cell_numbers(lay, ((q / lay.max_column as int) as usize, (q % lay.max_column as int) as usize), lay.trees.len() as int)
    }
}

/// Once the grid fails to read, more tokens change nothing.
pub proof fn lemma_scan_fails(toks: Seq<Seq<char>>, mc: usize, k: int, m: int)
    requires
        0 <= k <= m,
        scan_upto(toks, mc, k) is None,
    ensures
        scan_upto(toks, mc, m) is None,
    decreases m - k,
{
    if m > k {
        lemma_scan_fails(toks, mc, k, m - 1);
    }
}

/// Once a count fails to read, more tokens change nothing.
pub proof fn lemma_counts_fail(toks: Seq<Seq<char>>, k: int, m: int)
    requires
        0 <= k <= m,
        counts_upto(toks, k) is None,
    ensures
        counts_upto(toks, m) is None,
    decreases m - k,
{
    if m > k {
        lemma_counts_fail(toks, k, m - 1);
    }
}

/// The tent counts only grow along the trees.
pub proof fn lemma_tents_before_grows(lay: Layout, k: int, m: int)
    requires
        0 <= k <= m,
    ensures
        tents_before(lay, k) <= tents_before(lay, m),
    decreases m - k,
{
    if m > k {
        lemma_tents_before_grows(lay, k, m - 1);
    }
}

/// Cell `(r, c)` of a grid with `mc` columns has index `r * mc + c`, and no
/// other cell does.
pub proof fn lemma_cell_index(q: int, mc: int, r: int, c: int)
    requires
        mc > 0,
        0 <= q,
        0 <= r,
        0 <= c < mc,
    ensures
        (q == r * mc + c) <==> (q / mc == r && q % mc == c),
{
    if q == r * mc + c {
        vstd::arithmetic::div_mod::lemma_fundamental_div_mod_converse(q, mc, r, c);
    }
    if q / mc == r && q % mc == c {
        vstd::arithmetic::div_mod::lemma_fundamental_div_mod(q, mc);
        vstd::arithmetic::mul::lemma_mul_is_commutative(mc, r);
    }
}

/// A tent cell has at most one tree's tent list entry per position: the
/// cells of a tree are distinct.
impl Game {
    /// Reads a puzzle text (see [`layout_of`] and [`Game::built_from`]);
    /// `None` where it does not make a game (see [`game_ok`]).
    pub fn new(text: &str) -> (r: Option<Game>)
        ensures
            match r {
                Some(g) => game_ok(text@) && g.built_from(layout_of(text@)->0),
                None => !game_ok(text@),
            },
    {
        let chars = str_chars(text);
        let ws = split_words(&chars);
        proof { assert(ws@.map_values(|x: Vec<char>| x@) =~= words(text@)); }
        let content = format_properly(&ws);
        let ghost cs = content@.map_values(|x: Vec<char>| x@);
        proof { assert(cs == format_spec(words(text@))); }
        if content.len() < 2 {
            return None;
        }
        proof {
            assert(cs[1] == content@[1]@);
            assert(cs[0] == content@[0]@);
        }
        let max_column = match parse_usize_word(&content[1]) {
            Some(v) => v,
            None => return None,
        };
        let max_row = match parse_usize_word(&content[0]) {
            Some(v) => v,
            None => return None,
        };
        let mc128: u128 = max_column as u128 + 1;
        proof {
            assert(mc128 * (max_row as u128) <= 0x1_0000_0000_0000_0000u128 * 0xffff_ffff_ffff_ffffu128) by (nonlinear_arith)
                requires mc128 <= 0x1_0000_0000_0000_0000u128, max_row <= 0xffff_ffff_ffff_ffffu128;
        }
        let end128: u128 = mc128 * (max_row as u128) + 2;
        if end128 > content.len() as u128 {
            return None;
        }
        let end = end128 as usize;
        let ghost toks = cs.subrange(2, end as int);
        let mut trees: Vec<Tree> = Vec::new();
        let mut rows: Vec<usize> = Vec::new();
        let mut index: usize = 0;
        let mut k: usize = 2;
        while k < end
            invariant
                cs == content@.map_values(|x: Vec<char>| x@),
                cs == format_spec(words(text@)),
                cs.len() >= 2,
                parse_usize(cs[1]) == Some(max_column),
                parse_usize(cs[0]) == Some(max_row),
                end == (max_column + 1) * max_row + 2,
                2 <= k <= end <= content@.len(),
                toks == cs.subrange(2, end as int),
                index <= k - 2,
                scan_upto(toks, max_column, k - 2) == Some((index as int, positions(trees@), rows@)),
                forall|q: int| 0 <= q < trees@.len() ==> (#[trigger] trees@[q]).tents@.len() == 0,
            decreases end - k,
        {
            proof { assert(toks[k - 2] == cs[k as int]); assert(cs[k as int] == content@[k as int]@); }
            if max_column == 0 {
                proof { lemma_scan_fails(toks, max_column, k - 1, end - 2); }
                return None;
            }
            let tok = &content[k];
            if word_is(tok, 'T') || word_is(tok, '.') {
                if word_is(tok, 'T') {
                    let ghost tb = trees@;
                    trees.push(Tree { position: (index / max_column, index % max_column), tents: Vec::new() });
                    proof { assert(positions(trees@) =~= positions(tb).push(((index / max_column) as usize, (index % max_column) as usize))); }
                }
                index += 1;
            } else {
                match parse_usize_word(tok) {
                    Some(v) => rows.push(v),
                    None => {
                        proof { lemma_scan_fails(toks, max_column, k - 1, end - 2); }
                        return None;
                    },
                }
            }
            k += 1;
        }
        let ghost rest = cs.subrange(end as int, cs.len() as int);
        let mut cols: Vec<usize> = Vec::new();
        let mut k2: usize = end;
        while k2 < content.len()
            invariant
                cs == content@.map_values(|x: Vec<char>| x@),
                cs == format_spec(words(text@)),
                cs.len() >= 2,
                parse_usize(cs[1]) == Some(max_column),
                parse_usize(cs[0]) == Some(max_row),
                end == (max_column + 1) * max_row + 2,
                scan_upto(toks, max_column, end - 2) is Some,
                toks == cs.subrange(2, end as int),
                end <= k2 <= content@.len(),
                rest == cs.subrange(end as int, cs.len() as int),
                counts_upto(rest, k2 - end) == Some(cols@),
            decreases content@.len() - k2,
        {
            proof { assert(rest[k2 - end] == cs[k2 as int]); assert(cs[k2 as int] == content@[k2 as int]@); }
            match parse_usize_word(&content[k2]) {
                Some(v) => cols.push(v),
                None => {
                    proof { lemma_counts_fail(rest, k2 - end + 1, cs.len() - end); }
                    return None;
                },
            }
            k2 += 1;
        }
        let ghost lay = Layout { max_row, max_column, trees: positions(trees@), rows: rows@, cols: cols@, content: cs };
        proof { assert(layout_of(text@) == Some(lay)); }
        let ntrees = trees.len();
        let mut game = Game {
            trees,
            max_column,
            max_row,
            tents_in_rows: rows,
            tents_in_columns: cols,
            tents_map: Vec::new(),
            variables_qty: 0,
            content,
        };
        let mut t: usize = 0;
        while t < ntrees
            invariant
                layout_of(text@) == Some(lay),
                ntrees == game.trees@.len(),
                t <= ntrees,
                positions(game.trees@) == lay.trees,
                game.max_row == lay.max_row,
                game.max_column == lay.max_column,
                game.content@.map_values(|x: Vec<char>| x@) == lay.content,
                game.tents_in_rows@ == lay.rows,
                game.tents_in_columns@ == lay.cols,
                game.tents_map@.len() == 0,
                game.variables_qty == tents_before(lay, t as int),
                forall|q: int| 0 <= q < t ==> {
                    let tr = #[trigger] game.trees@[q];
                    &&& tr.tents@.len() == tree_tents(lay, q).len()
                    &&& forall|i: int| 0 <= i < tr.tents@.len() ==> (#[trigger] tr.tents@[i]).position == tree_tents(lay, q)[i]
                        && tr.tents@[i].number == tents_before(lay, q) + 1 + i
                },
            decreases ntrees - t,
        {
            if game.variables_qty > usize::MAX - 5 {
                proof { lemma_tents_before_grows(lay, t as int, lay.trees.len() as int); }
                return None;
            }
            proof { assert(positions(game.trees@)[t as int] == game.trees@[t as int].position); }
            let pos = game.trees[t].position;
            let tents = game.get_tents(pos, game.variables_qty + 1);
            let len = tents.len();
            proof { assert(free_cells(lay.trees, neighbors_spec(pos, game.max_row, game.max_column)).len() <= 4) by {
                assert(neighbors_spec(pos, game.max_row, game.max_column).len() <= 4);
                lemma_free_cells_len(lay.trees, neighbors_spec(pos, game.max_row, game.max_column));
            } }
            let ghost gb = game.trees@;
            game.trees.set(t, Tree { position: pos, tents });
            proof {
                assert(positions(game.trees@) =~= positions(gb));
                assert forall|q: int| 0 <= q < t + 1 implies {
                    let tr = #[trigger] game.trees@[q];
                    &&& tr.tents@.len() == tree_tents(lay, q).len()
                    &&& forall|i: int| 0 <= i < tr.tents@.len() ==> (#[trigger] tr.tents@[i]).position == tree_tents(lay, q)[i]
                        && tr.tents@[i].number == tents_before(lay, q) + 1 + i
                } by {
                    if q < t { assert(game.trees@[q] == gb[q]); }
                }
            }
            game.variables_qty = game.variables_qty + len;
            t += 1;
        }
        if game.variables_qty > usize::MAX - 5 {
            return None;
        }
        proof {
            assert((max_row as u128) * (max_column as u128) <= 0xffff_ffff_ffff_ffffu128 * 0xffff_ffff_ffff_ffffu128) by (nonlinear_arith)
                requires max_row <= 0xffff_ffff_ffff_ffffu128, max_column <= 0xffff_ffff_ffff_ffffu128;
        }
        let cells128: u128 = (max_row as u128) * (max_column as u128);
        if cells128 > usize::MAX as u128 {
            return None;
        }
        let cells = cells128 as usize;
        let mut map: Vec<Vec<usize>> = Vec::new();
        let mut q: usize = 0;
        while q < cells
            invariant
                q <= cells,
                map@.len() == q,
                forall|p: int| 0 <= p < q ==> (#[trigger] map@[p])@.len() == 0,
            decreases cells - q,
        {
            map.push(Vec::new());
            q += 1;
        }
        proof {
            assert forall|p: int| 0 <= p < cells implies (#[trigger] map@[p])@
                == cell_numbers(lay, ((p / max_column as int) as usize, (p % max_column as int) as usize), 0) by {
                assert(map@[p]@ =~= Seq::<usize>::empty());
            }
        }
        let mut t: usize = 0;
        while t < ntrees
            invariant
                layout_of(text@) == Some(lay),
                tents_before(lay, lay.trees.len() as int) + 5 <= usize::MAX,
                ntrees == game.trees@.len(),
                ntrees == lay.trees.len(),
                t <= ntrees,
                cells == max_row * max_column,
                max_row == lay.max_row,
                max_column == lay.max_column,
                map@.len() == cells,
                forall|k: int| 0 <= k < ntrees ==> {
                    let tr = #[trigger] game.trees@[k];
                    &&& tr.tents@.len() == tree_tents(lay, k).len()
                    &&& forall|i: int| 0 <= i < tr.tents@.len() ==> (#[trigger] tr.tents@[i]).position == tree_tents(lay, k)[i]
                        && tr.tents@[i].number == tents_before(lay, k) + 1 + i
                },
                forall|p: int| 0 <= p < cells ==> (#[trigger] map@[p])@
                    == cell_numbers(lay, ((p / max_column as int) as usize, (p % max_column as int) as usize), t as int),
                forall|k: int, i: int| 0 <= k < t && 0 <= i < tree_tents(lay, k).len()
                    ==> (#[trigger] tree_tents(lay, k)[i]).0 < lay.max_row && tree_tents(lay, k)[i].1 < lay.max_column,
            decreases ntrees - t,
        {
            let ghost tt = tree_tents(lay, t as int);
            let ghost first = tents_before(lay, t as int) + 1;
            let ghost m0 = map@;
            let ntents = game.trees[t].tents.len();
            let mut i: usize = 0;
            while i < ntents
                invariant
                    tents_before(lay, lay.trees.len() as int) + 5 <= usize::MAX,
                    ntrees == game.trees@.len(),
                    ntrees == lay.trees.len(),
                    t < ntrees,
                    cells == max_row * max_column,
                    max_row == lay.max_row,
                    max_column == lay.max_column,
                    map@.len() == cells,
                    tt == tree_tents(lay, t as int),
                    first == tents_before(lay, t as int) + 1,
                    ntents == tt.len(),
                    i <= ntents,
                    forall|k: int| 0 <= k < ntrees ==> {
                        let tr = #[trigger] game.trees@[k];
                        &&& tr.tents@.len() == tree_tents(lay, k).len()
                        &&& forall|i: int| 0 <= i < tr.tents@.len() ==> (#[trigger] tr.tents@[i]).position == tree_tents(lay, k)[i]
                            && tr.tents@[i].number == tents_before(lay, k) + 1 + i
                    },
                    forall|p: int| 0 <= p < cells ==> (#[trigger] map@[p])@
                        == m0[p]@ + tents_at(tt, first, ((p / max_column as int) as usize, (p % max_column as int) as usize), i as int),
                    forall|p: int| 0 <= p < cells ==> (#[trigger] m0[p])@
                        == cell_numbers(lay, ((p / max_column as int) as usize, (p % max_column as int) as usize), t as int),
                    m0.len() == cells,
                    layout_of(text@) == Some(lay),
                    forall|k: int, i: int| 0 <= k < t && 0 <= i < tree_tents(lay, k).len()
                        ==> (#[trigger] tree_tents(lay, k)[i]).0 < lay.max_row && tree_tents(lay, k)[i].1 < lay.max_column,
                    forall|j: int| 0 <= j < i ==> (#[trigger] tt[j]).0 < lay.max_row && tt[j].1 < lay.max_column,
                decreases ntents - i,
            {
                proof {
                    let tr = game.trees@[t as int];
                    assert(tr.tents@[i as int].position == tt[i as int]);
                    assert(tr.tents@[i as int].number == first + i);
                }
                let pos = game.trees[t].tents[i].position;
                let number = game.trees[t].tents[i].number;
                if pos.0 >= max_row || pos.1 >= max_column {
                    proof {
                        assert(!tents_inside(lay)) by {
                            assert(tree_tents(lay, t as int)[i as int] == pos);
                        }
                    }
                    return None;
                }
                proof {
                    assert(pos.0 * max_column + pos.1 < max_row * max_column) by (nonlinear_arith)
                        requires pos.0 < max_row, pos.1 < max_column;
                }
                let idx = pos.0 * max_column + pos.1;
                let ghost mb = map@;
                let mut cell = copy_numbers(&map[idx]);
                proof { assert(cell@ == mb[idx as int]@); }
                cell.push(number);
                map.set(idx, cell);
                proof {
                    assert forall|p: int| 0 <= p < cells implies (#[trigger] map@[p])@
                        == m0[p]@ + tents_at(tt, first, ((p / max_column as int) as usize, (p % max_column as int) as usize), i + 1) by {
                        let cp = ((p / max_column as int) as usize, (p % max_column as int) as usize);
                        lemma_cell_index(p, max_column as int, pos.0 as int, pos.1 as int);
                        vstd::arithmetic::div_mod::lemma_mod_pos_bound(p, max_column as int);
                        vstd::arithmetic::div_mod::lemma_div_pos_is_pos(p, max_column as int);
                        vstd::arithmetic::div_mod::lemma_div_is_ordered_by_denominator(p, 1, max_column as int);
                        if p == idx {
                            assert(cp == pos);
                        } else {
                            assert(map@[p] == mb[p]);
                            assert(cp != pos);
                        }
                    }
                }
                i += 1;
            }
            proof {
                assert forall|k: int, i: int| 0 <= k < t + 1 && 0 <= i < tree_tents(lay, k).len()
                    implies (#[trigger] tree_tents(lay, k)[i]).0 < lay.max_row && tree_tents(lay, k)[i].1 < lay.max_column by {
                    if k == t { assert(tt[i] == tree_tents(lay, k)[i]); }
                }
                assert forall|p: int| 0 <= p < cells implies (#[trigger] map@[p])@
                    == cell_numbers(lay, ((p / max_column as int) as usize, (p % max_column as int) as usize), t + 1) by {
                    assert(m0[p]@ == cell_numbers(lay, ((p / max_column as int) as usize, (p % max_column as int) as usize), t as int));
                }
            }
            t += 1;
        }
        game.tents_map = map;
        Some(game)
    }
}

/// A tree has at most four tent cells.
pub proof fn lemma_free_cells_len(trees: Seq<(usize, usize)>, ps: Seq<(usize, usize)>)
    ensures
        free_cells(trees, ps).len() <= ps.len(),
    decreases ps.len(),
{
    if ps.len() > 0 {
        lemma_free_cells_len(trees, ps.drop_last());
    }
}

/// The clauses `-t -o` for each `o` in `others`.
pub open spec fn pair_clauses(t: usize, others: Seq<usize>) -> Seq<Seq<Lit>> {
    Seq::new(others.len(), |j: int| seq![tlit(true, t), tlit(true, others[j])])
}

/// The clauses `-t -o` for the first `j` entries `o` of `others` greater than `t`.
pub open spec fn bigger_pairs(t: usize, others: Seq<usize>, j: int) -> Seq<Seq<Lit>>
    decreases j,
{
    if j <= 0 {
        Seq::empty()
    } else {
        bigger_pairs(t, others, j - 1) + if others[j - 1] > t { seq![seq![tlit(true, t), tlit(true, others[j - 1])]] } else { Seq::empty() }
    }
}

/// The variables of cell `(r, c)` in a map of `mc` columns.
pub open spec fn map_at(m: Seq<Seq<usize>>, mc: int, r: int, c: int) -> Seq<usize> {
    m[r * mc + c]
}

/// The clauses that keep tent `t` at `(r, c)` away from the other tents of
/// its cell with a greater variable, and from the tents below, right,
/// below-right and above-right of it.
pub open spec fn tent_apart(m: Seq<Seq<usize>>, mr: int, mc: int, r: int, c: int, t: usize) -> Seq<Seq<Lit>> {
    bigger_pairs(t, map_at(m, mc, r, c), map_at(m, mc, r, c).len() as int)
        + (if r + 1 < mr { pair_clauses(t, map_at(m, mc, r + 1, c)) } else { Seq::empty() })
        + (if c + 1 < mc { pair_clauses(t, map_at(m, mc, r, c + 1)) } else { Seq::empty() })
        + (if r + 1 < mr && c + 1 < mc { pair_clauses(t, map_at(m, mc, r + 1, c + 1)) } else { Seq::empty() })
        + (if r > 0 && c + 1 < mc { pair_clauses(t, map_at(m, mc, r - 1, c + 1)) } else { Seq::empty() })
}

/// The clauses for the first `j` tents of cell `(r, c)`.
pub open spec fn cell_apart(m: Seq<Seq<usize>>, mr: int, mc: int, r: int, c: int, j: int) -> Seq<Seq<Lit>>
    decreases j,
{
    if j <= 0 {
        Seq::empty()
    } else {
        cell_apart(m, mr, mc, r, c, j - 1) + tent_apart(m, mr, mc, r, c, map_at(m, mc, r, c)[j - 1])
    }
}

/// The clauses for the first `q` cells, row by row.
pub open spec fn none_adjacent_upto(m: Seq<Seq<usize>>, mr: int, mc: int, q: int) -> Seq<Seq<Lit>>
    decreases q,
{
    if q <= 0 {
        Seq::empty()
    } else {
        let r = (q - 1) / mc;
        let c = (q - 1) % mc;
        none_adjacent_upto(m, mr, mc, q - 1) + cell_apart(m, mr, mc, r, c, map_at(m, mc, r, c).len() as int)
    }
}

/// No two tents touch, not even diagonally, and no cell holds two tents.
pub open spec fn none_adjacent_spec(g: Game) -> Seq<Seq<Lit>> {
    let m = g.tents_map@.map_values(|v: Vec<usize>| v@);
    none_adjacent_upto(m, g.max_row as int, g.max_column as int, (g.max_row * g.max_column) as int)
}

impl SatMaker {
    /// Appends `-t -o` for each `o` of the cell at index `idx`, or for those
    /// greater than `t` when `bigger_only`.
    fn pairs_with_cell(&mut self, t: usize, idx: usize, bigger_only: bool)
        requires
            idx < old(self).game.tents_map@.len(),
            old(self).clauses_qty == old(self).clauses@.len(),
        ensures
            clauses_view(final(self).clauses@) == clauses_view(old(self).clauses@) + if bigger_only {
                bigger_pairs(t, old(self).game.tents_map@[idx as int]@, old(self).game.tents_map@[idx as int]@.len() as int)
            } else {
                pair_clauses(t, old(self).game.tents_map@[idx as int]@)
            },
            final(self).clauses_qty == final(self).clauses@.len(),
            final(self).header == old(self).header,
            final(self).spaced == old(self).spaced,
            final(self).game == old(self).game,
            final(self).truth_values == old(self).truth_values,
    {
        let ghost c0 = clauses_view(self.clauses@);
        let ghost s0 = *self;
        let ghost cell = self.game.tents_map@[idx as int]@;
        let len = self.game.tents_map[idx].len();
        let mut j: usize = 0;
        while j < len
            invariant
                idx < self.game.tents_map@.len(),
                cell == self.game.tents_map@[idx as int]@,
                len == cell.len(),
                j <= len,
                clauses_view(self.clauses@) == c0 + if bigger_only { bigger_pairs(t, cell, j as int) } else { pair_clauses(t, cell).take(j as int) },
                self.clauses_qty == self.clauses@.len(),
                self.header == s0.header,
                self.spaced == s0.spaced,
                self.game == s0.game,
                self.truth_values == s0.truth_values,
            decreases len - j,
        {
            let o = self.game.tents_map[idx][j];
            if !bigger_only || o > t {
                let mut c: Vec<Lit> = Vec::new();
                c.push((true, t as i128));
                c.push((true, o as i128));
                self.add_clause(c);
                proof {
                    assert(c@ =~= seq![tlit(true, t), tlit(true, o)]);
                }
            }
            proof {
                if bigger_only {
                    assert(clauses_view(self.clauses@) =~= c0 + bigger_pairs(t, cell, j + 1));
                } else {
                    assert(pair_clauses(t, cell).take(j + 1) =~= pair_clauses(t, cell).take(j as int).push(seq![tlit(true, t), tlit(true, o)]));
                    assert(clauses_view(self.clauses@) =~= c0 + pair_clauses(t, cell).take(j + 1));
                }
            }
            j += 1;
        }
        proof {
            if !bigger_only { assert(pair_clauses(t, cell).take(j as int) =~= pair_clauses(t, cell)); }
        }
    }

    /// See [`none_adjacent_spec`].
    #[verifier::spinoff_prover]
    #[verifier::rlimit(40)]
    fn none_adjacent(&mut self)
        requires
            old(self).clauses_qty == old(self).clauses@.len(),
            old(self).game.tents_map@.len() == old(self).game.max_row * old(self).game.max_column,
        ensures
            clauses_view(final(self).clauses@) == clauses_view(old(self).clauses@) + none_adjacent_spec(old(self).game),
            final(self).clauses_qty == final(self).clauses@.len(),
            final(self).header == old(self).header,
            final(self).spaced == old(self).spaced,
            final(self).game == old(self).game,
            final(self).truth_values == old(self).truth_values,
    {
        let ghost c0 = clauses_view(self.clauses@);
        let ghost s0 = *self;
        let ghost m = self.game.tents_map@.map_values(|v: Vec<usize>| v@);
        let mr = self.game.max_row;
        let mc = self.game.max_column;
        let cells = self.game.tents_map.len();
        let mut q: usize = 0;
        while q < cells
            invariant
                self.game == s0.game,
                mr == s0.game.max_row,
                mc == s0.game.max_column,
                cells == self.game.tents_map@.len(),
                cells == mr * mc,
                m == self.game.tents_map@.map_values(|v: Vec<usize>| v@),
                q <= cells,
                clauses_view(self.clauses@) == c0 + none_adjacent_upto(m, mr as int, mc as int, q as int),
                self.clauses_qty == self.clauses@.len(),
                self.header == s0.header,
                self.spaced == s0.spaced,
                self.truth_values == s0.truth_values,
            decreases cells - q,
        {
            proof {
                if mc == 0 { assert(mr * mc == 0) by (nonlinear_arith) requires mc == 0; }
            }
            let row = q / mc;
            let column = q % mc;
            proof {
                vstd::arithmetic::div_mod::lemma_fundamental_div_mod(q as int, mc as int);
                assert(row < mr) by (nonlinear_arith)
                    requires q == mc * row + column, q < mr * mc, 0 <= column, mc > 0;
                assert(row * mc + column == q) by (nonlinear_arith) requires q == mc * row + column;
            }
            let ghost cq = clauses_view(self.clauses@);
            let ntents = self.game.tents_map[q].len();
            let mut j: usize = 0;
            while j < ntents
                invariant
                    self.game == s0.game,
                    mr == s0.game.max_row,
                    mc == s0.game.max_column,
                    cells == self.game.tents_map@.len(),
                    cells == mr * mc,
                    m == self.game.tents_map@.map_values(|v: Vec<usize>| v@),
                    q < cells,
                    row < mr,
                    column < mc,
                    row * mc + column == q,
                    ntents == m[q as int].len(),
                    j <= ntents,
                    clauses_view(self.clauses@) == cq + cell_apart(m, mr as int, mc as int, row as int, column as int, j as int),
                    self.clauses_qty == self.clauses@.len(),
                    self.header == s0.header,
                    self.spaced == s0.spaced,
                    self.truth_values == s0.truth_values,
                decreases ntents - j,
            {
                proof { assert(m[q as int] == self.game.tents_map@[q as int]@); }
                let t = self.game.tents_map[q][j];
                let ghost cj = clauses_view(self.clauses@);
                self.pairs_with_cell(t, q, true);
                let ghost c1 = clauses_view(self.clauses@);
                if row + 1 < mr {
                    proof {
                        assert((row + 1) * mc + column < mr * mc) by (nonlinear_arith) requires row + 1 < mr, column < mc;
                        assert(m[((row + 1) * mc + column) as int] == self.game.tents_map@[((row + 1) * mc + column) as int]@);
                    }
                    self.pairs_with_cell(t, (row + 1) * mc + column, false);
                }
                let ghost c2 = clauses_view(self.clauses@);
                if column + 1 < mc {
                    proof {
                        assert(row * mc + column + 1 < mr * mc) by (nonlinear_arith) requires row < mr, column + 1 < mc;
                        assert(m[(row * mc + column + 1) as int] == self.game.tents_map@[(row * mc + column + 1) as int]@);
                    }
                    self.pairs_with_cell(t, row * mc + column + 1, false);
                }
                let ghost c3 = clauses_view(self.clauses@);
                if row + 1 < mr && column + 1 < mc {
                    proof {
                        assert((row + 1) * mc + column + 1 < mr * mc) by (nonlinear_arith) requires row + 1 < mr, column + 1 < mc;
                        assert(m[((row + 1) * mc + column + 1) as int] == self.game.tents_map@[((row + 1) * mc + column + 1) as int]@);
                    }
                    self.pairs_with_cell(t, (row + 1) * mc + column + 1, false);
                }
                let ghost c4 = clauses_view(self.clauses@);
                if row > 0 && column + 1 < mc {
                    proof {
                        assert((row - 1) * mc + column + 1 < mr * mc) by (nonlinear_arith) requires row < mr, row > 0, column + 1 < mc;
                        assert(m[((row - 1) * mc + column + 1) as int] == self.game.tents_map@[((row - 1) * mc + column + 1) as int]@);
                    }
                    self.pairs_with_cell(t, (row - 1) * mc + column + 1, false);
                }
                proof {
                    assert(m[q as int][j as int] == t);
                    assert(clauses_view(self.clauses@) =~= cj + tent_apart(m, mr as int, mc as int, row as int, column as int, t));
                    assert(clauses_view(self.clauses@) =~= cq + cell_apart(m, mr as int, mc as int, row as int, column as int, j + 1));
                }
                j += 1;
            }
            proof {
                assert((q as int) / (mc as int) == row && (q as int) % (mc as int) == column);
                assert(clauses_view(self.clauses@) =~= c0 + none_adjacent_upto(m, mr as int, mc as int, q + 1));
            }
            q += 1;
        }
    }
}

/// `a` begins with `b`.
pub open spec fn extends(a: Seq<Seq<Lit>>, b: Seq<Seq<Lit>>) -> bool {
    a.len() >= b.len() && a.take(b.len() as int) == b
}

/// Appending keeps what a list begins with.
pub proof fn lemma_concat_extends(b: Seq<Seq<Lit>>, x: Seq<Seq<Lit>>, c0: Seq<Seq<Lit>>)
    requires
        extends(b, c0),
    ensures
        extends(b + x, c0),
{
    assert((b + x).take(c0.len() as int) =~= b.take(c0.len() as int));
}

/// Pushing keeps what a list begins with.
pub proof fn lemma_push_extends(b: Seq<Seq<Lit>>, x: Seq<Lit>, c0: Seq<Seq<Lit>>)
    requires
        extends(b, c0),
    ensures
        extends(b.push(x), c0),
{
    assert(b.push(x).take(c0.len() as int) =~= b.take(c0.len() as int));
}

/// A list begins with itself and with what it was before anything was appended.
pub proof fn lemma_extends_append(b: Seq<Seq<Lit>>, x: Seq<Seq<Lit>>)
    ensures
        extends(b + x, b),
        extends(b, b),
{
    assert((b + x).take(b.len() as int) =~= b);
    assert(b.take(b.len() as int) =~= b);
}

/// Two games that differ at most in their variable count.
pub open spec fn same_but_count(a: Game, b: Game) -> bool {
    &&& a.trees == b.trees
    &&& a.max_column == b.max_column
    &&& a.max_row == b.max_row
    &&& a.tents_in_rows == b.tents_in_rows
    &&& a.tents_in_columns == b.tents_in_columns
    &&& a.tents_map == b.tents_map
    &&& a.content == b.content
}

/// The variables of a tree's tents.
pub open spec fn tree_numbers(t: Tree) -> Seq<usize> {
    t.tents@.map_values(|x: Tent| x.number)
}

/// Exactly one tent for each of the first `k` trees.
pub open spec fn trees_clauses(trees: Seq<Tree>, k: int) -> Seq<Seq<Lit>>
    decreases k,
{
    if k <= 0 { Seq::empty() } else { trees_clauses(trees, k - 1) + exactly_n_spec(1, tree_numbers(trees[k - 1])) }
}

/// Every tree has a tent cell.
pub open spec fn trees_have_tents(g: Game) -> bool {
    forall|k: int| 0 <= k < g.trees@.len() ==> (#[trigger] g.trees@[k]).tents@.len() >= 1
}

/// The automaton's bookkeeping while its clauses are made: the state
/// variables made so far, the variable count, and the clauses.
pub ghost struct DfaState {
    pub d: Seq<((usize, usize), usize)>,
    pub q: nat,
    pub cs: Seq<Seq<Lit>>,
}

/// The variable of state `pos`, made as the next variable on first use.
pub open spec fn use_var(st: DfaState, pos: (usize, usize)) -> (DfaState, usize) {
    match dict_get(st.d, pos) {
        Some(x) => (st, x),
        None => (DfaState { d: st.d.push((pos, (st.q + 1) as usize)), q: st.q + 1, cs: st.cs }, (st.q + 1) as usize),
    }
}

/// Appends a clause.
pub open spec fn add_dfa(st: DfaState, c: Seq<Lit>) -> DfaState {
    DfaState { d: st.d, q: st.q, cs: st.cs.push(c) }
}

/// For each of the first `i` tents of the first pool: `-t s(1,1)`.
pub open spec fn dfa_first(st: DfaState, tents: Seq<usize>, i: int) -> DfaState
    decreases i,
{
    if i <= 0 {
        st
    } else {
        let s1 = dfa_first(st, tents, i - 1);
        let (s2, x) = use_var(s1, (1, 1));
        add_dfa(s2, seq![tlit(true, tents[i - 1]), tlit(false, x)])
    }
}

/// For each of the first `j` tents `t` of a pool, the moves from state
/// `(step, tu)` to `(step + 1, tu + 1)`: `-t a -b` and `-t -a b`.
pub open spec fn dfa_moves(st: DfaState, tents: Seq<usize>, step: usize, tu: usize, j: int) -> DfaState
    decreases j,
{
    if j <= 0 {
        st
    } else {
        let s1 = dfa_moves(st, tents, step, tu, j - 1);
        let (s2, a) = use_var(s1, ((step + 1) as usize, (tu + 1) as usize));
        let (s3, b) = use_var(s2, (step, tu));
        add_dfa(add_dfa(s3, seq![tlit(true, tents[j - 1]), tlit(false, a), tlit(true, b)]),
            seq![tlit(true, tents[j - 1]), tlit(true, a), tlit(false, b)])
    }
}

/// The clauses of a reached state `(step, tu)`: staying at `tu` when the
/// pool has no tent (both directions, or only leaving the state when the
/// rest could not reach the count otherwise), then the moves to `tu + 1`.
pub open spec fn dfa_cell(st: DfaState, input: Seq<Seq<usize>>, max: int, step: usize, tu: usize) -> DfaState {
    if dict_get(st.d, (step, tu)) is None {
        st
    } else {
        let tents = input[step as int];
        let s1 = dfa_stay(st, input, max, step, tu);
        if tu < max { dfa_moves(s1, tents, step, tu, tents.len() as int) } else { s1 }
    }
}

/// The clauses of a reached state `(step, tu)` for a pool without a tent:
/// staying at `tu`, in both directions or only leaving the state when the
/// rest could not reach the count otherwise.
pub open spec fn dfa_stay(st: DfaState, input: Seq<Seq<usize>>, max: int, step: usize, tu: usize) -> DfaState {
    let tents = input[step as int];
    if input.len() - step != max - tu {
        let (a1, x1) = use_var(st, ((step + 1) as usize, tu));
        let (a2, y1) = use_var(a1, (step, tu));
        let b1 = add_dfa(a2, lits_of(tents, false) + seq![tlit(false, x1), tlit(true, y1)]);
        let (b2, x2) = use_var(b1, ((step + 1) as usize, tu));
        let (b3, y2) = use_var(b2, (step, tu));
        add_dfa(b3, lits_of(tents, false) + seq![tlit(true, x2), tlit(false, y2)])
    } else {
        let (a1, y1) = use_var(st, (step, tu));
        add_dfa(a1, lits_of(tents, false) + seq![tlit(true, y1)])
    }
}

/// The cells `(step, 0)` to `(step, tu - 1)`.
pub open spec fn dfa_counts(st: DfaState, input: Seq<Seq<usize>>, max: int, step: usize, tu: int) -> DfaState
    decreases tu,
{
    if tu <= 0 { st } else { dfa_cell(dfa_counts(st, input, max, step, tu - 1), input, max, step, (tu - 1) as usize) }
}

/// The variables of the states of a step, in the order they were made.
pub open spec fn step_vars(d: Seq<((usize, usize), usize)>, step: usize, k: int) -> Seq<usize>
    decreases k,
{
    if k <= 0 { Seq::empty() } else { step_vars(d, step, k - 1) + if d[k - 1].0.0 == step { seq![d[k - 1].1] } else { Seq::empty() } }
}

/// The steps `1` to `s - 1`: each step's cells, then exactly one of its states.
pub open spec fn dfa_steps(st: DfaState, input: Seq<Seq<usize>>, max: int, s: int) -> DfaState
    decreases s,
{
    if s <= 1 {
        st
    } else {
        let s1 = dfa_steps(st, input, max, s - 1);
        let s2 = dfa_counts(s1, input, max, (s - 1) as usize, max + 1);
        DfaState { d: s2.d, q: s2.q, cs: s2.cs + not_two_spec(step_vars(s2.d, (s - 1) as usize, s2.d.len() as int)) }
    }
}

/// The first pool, from `q0` variables: through a tent to `(1, 1)`, through
/// none to `(1, 0)`.
pub open spec fn dfa_start(input: Seq<Seq<usize>>, q0: nat) -> DfaState {
    let s1 = dfa_first(DfaState { d: Seq::empty(), q: q0, cs: Seq::empty() }, input[0], input[0].len() as int);
    let (s2, z) = use_var(s1, (1, 0));
    add_dfa(s2, lits_of(input[0], false) + seq![tlit(false, z)])
}

/// Making variables never lowers the count: along the first pool.
pub proof fn lemma_first_mono(st: DfaState, tents: Seq<usize>, i: int, j: int)
    requires
        0 <= i <= j,
    ensures
        dfa_first(st, tents, i).q <= dfa_first(st, tents, j).q,
    decreases j,
{
    if i < j {
        lemma_first_mono(st, tents, i, j - 1);
    }
}

/// Making variables never lowers the count: along the moves of a state.
pub proof fn lemma_moves_mono(st: DfaState, tents: Seq<usize>, step: usize, tu: usize, i: int, j: int)
    requires
        0 <= i <= j,
    ensures
        dfa_moves(st, tents, step, tu, i).q <= dfa_moves(st, tents, step, tu, j).q,
    decreases j,
{
    if i < j {
        lemma_moves_mono(st, tents, step, tu, i, j - 1);
    }
}

/// Making variables never lowers the count: over a reached state.
pub proof fn lemma_cell_grows(st: DfaState, input: Seq<Seq<usize>>, max: int, step: usize, tu: usize)
    ensures
        st.q <= dfa_cell(st, input, max, step, tu).q,
        dict_get(st.d, (step, tu)) is Some ==> dfa_stay(st, input, max, step, tu).q <= dfa_cell(st, input, max, step, tu).q,
        st.q <= dfa_stay(st, input, max, step, tu).q,
{
    let tents = input[step as int];
    lemma_moves_mono(dfa_stay(st, input, max, step, tu), tents, step, tu, 0, tents.len() as int);
}

/// Making variables never lowers the count: over the states of a step.
pub proof fn lemma_counts_mono(st: DfaState, input: Seq<Seq<usize>>, max: int, step: usize, i: int, j: int)
    requires
        0 <= i <= j,
    ensures
        dfa_counts(st, input, max, step, i).q <= dfa_counts(st, input, max, step, j).q,
    decreases j,
{
    if i < j {
        lemma_counts_mono(st, input, max, step, i, j - 1);
        lemma_cell_grows(dfa_counts(st, input, max, step, j - 1), input, max, step, (j - 1) as usize);
    }
}

/// Making variables never lowers the count: over the steps.
pub proof fn lemma_steps_mono(st: DfaState, input: Seq<Seq<usize>>, max: int, i: int, j: int)
    requires
        1 <= i <= j,
        max >= 0,
    ensures
        dfa_steps(st, input, max, i).q <= dfa_steps(st, input, max, j).q,
    decreases j,
{
    if i < j {
        lemma_steps_mono(st, input, max, i, j - 1);
        lemma_counts_mono(dfa_steps(st, input, max, j - 1), input, max, (j - 1) as usize, 0, max + 1);
    }
}

/// Where the first pool would need a variable past the largest machine
/// word, so does the whole automaton.
pub proof fn lemma_start_overflow(input: Seq<Seq<usize>>, max: int, q0: nat)
    requires
        input.len() > 0,
        max >= 0,
        dfa_start(input, q0).q > usize::MAX,
    ensures
        match dfa_spec(input, max, q0) {
            Some((cs, q)) => q > usize::MAX,
            None => true,
        },
{
    if input.len() - 1 >= 1 {
        lemma_steps_mono(dfa_start(input, q0), input, max, 1, input.len() - 1);
    }
    lemma_steps_overflow(input, max, q0);
}

/// The automaton's count is that of its last step.
pub proof fn lemma_steps_overflow(input: Seq<Seq<usize>>, max: int, q0: nat)
    requires
        input.len() > 0,
        dfa_steps(dfa_start(input, q0), input, max, input.len() - 1).q > usize::MAX,
    ensures
        match dfa_spec(input, max, q0) {
            Some((cs, q)) => q > usize::MAX,
            None => true,
        },
{
}

/// Where a reached state of a middle step would need a variable past the
/// largest machine word, so does the whole automaton.
pub proof fn lemma_cell_overflow(s3: DfaState, input: Seq<Seq<usize>>, max: int, step: usize, tu: usize)
    requires
        1 <= step < input.len() - 1,
        0 <= tu <= max,
        dfa_cell(dfa_counts(dfa_steps(s3, input, max, step as int), input, max, step, tu as int), input, max, step, tu).q > usize::MAX,
    ensures
        dfa_steps(s3, input, max, input.len() - 1).q > usize::MAX,
{
    let sstep = dfa_steps(s3, input, max, step as int);
    assert(dfa_counts(sstep, input, max, step, tu + 1) == dfa_cell(dfa_counts(sstep, input, max, step, tu as int), input, max, step, tu));
    lemma_counts_mono(sstep, input, max, step, tu + 1, max + 1);
    lemma_steps_mono(s3, input, max, step + 1, input.len() - 1);
}

/// The automaton's clauses and the final variable count, starting from
/// `q0` variables: the first pool leads to `(1, 1)` through a tent or to
/// `(1, 0)` through none, the steps follow, and the last pool must end in
/// the count `max`. `None` when there is no pool, the count is `0` or
/// `usize::MAX`, or a needed final state was never reached.
pub open spec fn dfa_spec(input: Seq<Seq<usize>>, max: int, q0: nat) -> Option<(Seq<Seq<Lit>>, nat)> {
    let n_in = input.len() as int;
    if n_in == 0 || max == 0 || max >= usize::MAX {
        None
    } else {
        let s4 = dfa_steps(dfa_start(input, q0), input, max, n_in - 1);
        let last = input[n_in - 1];
        match (dict_get(s4.d, ((n_in - 1) as usize, (max - 1) as usize)), dict_get(s4.d, ((n_in - 1) as usize, max as usize))) {
            (Some(x), Some(y)) => Some((
                s4.cs.push(seq![tlit(true, x)] + lits_of(last, false))
                    + Seq::new(last.len(), |j: int| seq![tlit(true, y), tlit(true, last[j])])
                    + seq![seq![tlit(true, x), tlit(true, y)]],
                s4.q,
            )),
            _ => None,
        }
    }
}

impl SatMaker {
    /// The encoder's bookkeeping: the clause count is the number of clauses.
    pub open spec fn counted(&self) -> bool {
        &&& self.clauses_qty == self.clauses@.len()
        &&& self.spaced@.len() <= self.clauses@.len()
    }

    /// For each clause, whether it is written with a leading space.
    pub open spec fn spaced_view(&self) -> Seq<bool> {
        spaced_of(self.spaced@, self.clauses@.len())
    }

    /// Appends a clause of the positive literals of `nums` followed by `extra`.
    fn add_with(&mut self, nums: &Vec<usize>, extra: Vec<Lit>)
        requires
            old(self).counted(),
        ensures
            final(self).counted(),
            clauses_view(final(self).clauses@) == clauses_view(old(self).clauses@).push(lits_of(nums@, false) + extra@),
            final(self).clauses@.len() == old(self).clauses@.len() + 1,
            final(self).header == old(self).header,
            final(self).spaced == old(self).spaced,
            final(self).game == old(self).game,
            final(self).truth_values == old(self).truth_values,
    {
        let mut c: Vec<Lit> = Vec::new();
        let mut i: usize = 0;
        while i < nums.len()
            invariant
                i <= nums@.len(),
                c@ == lits_of(nums@.take(i as int), false),
            decreases nums@.len() - i,
        {
            c.push((false, nums[i] as i128));
            proof { assert(c@ =~= lits_of(nums@.take(i + 1), false)); }
            i += 1;
        }
        proof { assert(nums@.take(i as int) =~= nums@); }
        let mut extra = extra;
        let ghost e0 = extra@;
        let ghost cb = c@;
        let mut k: usize = 0;
        let total = extra.len();
        while extra.len() > 0
            invariant
                total == e0.len(),
                k <= e0.len(),
                extra@ == e0.skip(k as int),
                c@ == cb + e0.take(k as int),
            decreases extra@.len(),
        {
            let x = extra.remove(0);
            c.push(x);
            proof {
                assert(e0.skip(k as int)[0] == e0[k as int]);
                assert(extra@ =~= e0.skip(k + 1));
                assert(c@ =~= cb + e0.take(k + 1));
            }
            k += 1;
        }
        proof { assert(e0.take(k as int) =~= e0); }
        self.add_clause(c);
    }

    /// The counting automaton that makes exactly `max_tents` of the pools in
    /// `input` hold a tent (see [`dfa_spec`]). `None` where the automaton
    /// is not defined or the variables would pass `usize::MAX`.
    fn encode_dfa(&mut self, input: &Vec<Vec<usize>>, max_tents: usize) -> (r: Option<()>)
        requires
            old(self).counted(),
        ensures
            final(self).counted(),
            extends(clauses_view(final(self).clauses@), clauses_view(old(self).clauses@)),
            final(self).header == old(self).header,
            final(self).spaced == old(self).spaced,
            same_but_count(final(self).game, old(self).game),
            final(self).game.variables_qty >= old(self).game.variables_qty,
            final(self).truth_values == old(self).truth_values,
            dfa_spec(input@.map_values(|p: Vec<usize>| p@), max_tents as int, old(self).game.variables_qty as nat) is None ==> r is None,
            match dfa_spec(input@.map_values(|p: Vec<usize>| p@), max_tents as int, old(self).game.variables_qty as nat) {
                Some((cs, q)) => q <= usize::MAX ==> r is Some,
                None => true,
            },
            r is Some ==> match dfa_spec(input@.map_values(|p: Vec<usize>| p@), max_tents as int, old(self).game.variables_qty as nat) {
                Some((cs, q)) => clauses_view(final(self).clauses@) == clauses_view(old(self).clauses@) + cs
                    && final(self).game.variables_qty == q,
                None => false,
            },
    {
        let ghost s0 = *self;
        let ghost c0 = clauses_view(self.clauses@);
        let ghost ins = input@.map_values(|p: Vec<usize>| p@);
        proof { lemma_extends_append(c0, Seq::empty()); }
        if input.len() == 0 {
            return None;
        }
        proof { assert(ins[0] == input@[0]@); }
        let n_in = input.len();
        let mut number_dict: NumberDict = Vec::new();
        let ghost mut st = DfaState { d: Seq::empty(), q: s0.game.variables_qty as nat, cs: Seq::empty() };
        proof { assert(c0 + st.cs =~= c0); }
        let mut i: usize = 0;
        while i < input[0].len()
            invariant
                ins == input@.map_values(|p: Vec<usize>| p@),
                n_in == input@.len(),
                n_in > 0,
                i <= input@[0]@.len(),
                s0 == *old(self),
                c0 == clauses_view(s0.clauses@),
                self.counted(),
                extends(clauses_view(self.clauses@), c0),
                self.header == s0.header,
                self.spaced == s0.spaced,
                same_but_count(self.game, s0.game),
                self.game.variables_qty >= s0.game.variables_qty,
                self.truth_values == s0.truth_values,
                st == dfa_first(DfaState { d: Seq::empty(), q: s0.game.variables_qty as nat, cs: Seq::empty() }, ins[0], i as int),
                number_dict@ == st.d,
                self.game.variables_qty == st.q,
                clauses_view(self.clauses@) == c0 + st.cs,
            decreases input@[0]@.len() - i,
        {
            let tent_number = input[0][i];
            let d = match self.update_use_dict(&mut number_dict, (1, 1)) {
                Some(x) => x,
                None => {
                    proof {
                        let init = DfaState { d: Seq::empty(), q: s0.game.variables_qty as nat, cs: Seq::empty() };
                        lemma_first_mono(init, ins[0], i + 1, ins[0].len() as int);
                        lemma_start_overflow(ins, max_tents as int, s0.game.variables_qty as nat);
                    }
                    return None;
                },
            };
            let mut c: Vec<Lit> = Vec::new();
            c.push((true, tent_number as i128));
            c.push((false, d as i128));
            let ghost cb = clauses_view(self.clauses@);
            self.add_clause(c);
            proof {
                lemma_push_extends(cb, c@, c0);
                let (s2, x) = use_var(st, (1, 1));
                assert(x == d);
                assert(ins[0][i as int] == tent_number);
                st = add_dfa(s2, seq![tlit(true, tent_number), tlit(false, x)]);
                assert(c@ =~= seq![tlit(true, tent_number), tlit(false, x)]);
                assert(clauses_view(self.clauses@) =~= c0 + st.cs);
            }
            i += 1;
        }
        let z = match self.update_use_dict(&mut number_dict, (1, 0)) {
            Some(x) => x,
            None => {
                proof { lemma_start_overflow(ins, max_tents as int, s0.game.variables_qty as nat); }
                return None;
            },
        };
        let mut extra: Vec<Lit> = Vec::new();
        extra.push((false, z as i128));
        let ghost cb = clauses_view(self.clauses@);
        self.add_with(&input[0], extra);
        proof {
            lemma_push_extends(cb, clauses_view(self.clauses@).last(), c0);
            let (s2, x) = use_var(st, (1, 0));
            assert(x == z);
            st = add_dfa(s2, lits_of(ins[0], false) + seq![tlit(false, x)]);
            assert(extra@ =~= seq![tlit(false, x)]);
            assert(clauses_view(self.clauses@) =~= c0 + st.cs);
        }
        if max_tents == usize::MAX {
            return None;
        }
        let ghost s3 = st;
        proof { assert(s3 == dfa_start(ins, s0.game.variables_qty as nat)); }
        let mut step: usize = 1;
        while step < n_in - 1
            invariant
                ins == input@.map_values(|p: Vec<usize>| p@),
                n_in == input@.len(),
                n_in > 0,
                max_tents < usize::MAX,
                1 <= step,
                step <= n_in - 1 || step == 1,
                s0 == *old(self),
                c0 == clauses_view(s0.clauses@),
                self.counted(),
                extends(clauses_view(self.clauses@), c0),
                self.header == s0.header,
                self.spaced == s0.spaced,
                same_but_count(self.game, s0.game),
                self.game.variables_qty >= s0.game.variables_qty,
                self.truth_values == s0.truth_values,
                st == dfa_steps(s3, ins, max_tents as int, step as int),
                s3 == dfa_start(ins, s0.game.variables_qty as nat),
                number_dict@ == st.d,
                self.game.variables_qty == st.q,
                clauses_view(self.clauses@) == c0 + st.cs,
            decreases n_in - step,
        {
            let ghost sstep = st;
            let mut tent_until: usize = 0;
            while tent_until < max_tents + 1
                invariant
                    ins == input@.map_values(|p: Vec<usize>| p@),
                    n_in == input@.len(),
                    1 <= step < n_in - 1,
                    max_tents < usize::MAX,
                    tent_until <= max_tents + 1,
                    s0 == *old(self),
                    c0 == clauses_view(s0.clauses@),
                    self.counted(),
                    extends(clauses_view(self.clauses@), c0),
                    self.header == s0.header,
                    self.spaced == s0.spaced,
                    same_but_count(self.game, s0.game),
                    self.game.variables_qty >= s0.game.variables_qty,
                    self.truth_values == s0.truth_values,
                    st == dfa_counts(sstep, ins, max_tents as int, step, tent_until as int),
                    sstep == dfa_steps(s3, ins, max_tents as int, step as int),
                    s3 == dfa_start(ins, s0.game.variables_qty as nat),
                    number_dict@ == st.d,
                    self.game.variables_qty == st.q,
                    clauses_view(self.clauses@) == c0 + st.cs,
                decreases max_tents + 1 - tent_until,
            {
                let ghost scell = st;
                proof { assert(ins[step as int] == input@[step as int]@); }
                if dict_lookup(&number_dict, (step, tent_until)).is_some() {
                    if n_in - step != max_tents - tent_until {
                        let a = match self.update_use_dict(&mut number_dict, (step + 1, tent_until)) { Some(x) => x, None => {
                            proof {
                                lemma_cell_grows(scell, ins, max_tents as int, step, tent_until);
                                lemma_cell_overflow(s3, ins, max_tents as int, step, tent_until);
                                lemma_steps_overflow(ins, max_tents as int, s0.game.variables_qty as nat);
                            }
                            return None
                        } };
                        proof { let (t1, x1) = use_var(st, ((step + 1) as usize, tent_until)); assert(x1 == a); st = t1; }
                        let b = match self.update_use_dict(&mut number_dict, (step, tent_until)) { Some(x) => x, None => {
                            proof {
                                lemma_cell_grows(scell, ins, max_tents as int, step, tent_until);
                                lemma_cell_overflow(s3, ins, max_tents as int, step, tent_until);
                                lemma_steps_overflow(ins, max_tents as int, s0.game.variables_qty as nat);
                            }
                            return None
                        } };
                        proof { let (t1, x1) = use_var(st, (step, tent_until)); assert(x1 == b); st = t1; }
                        let mut extra: Vec<Lit> = Vec::new();
                        extra.push((false, a as i128));
                        extra.push((true, b as i128));
                        let ghost cb = clauses_view(self.clauses@);
                        self.add_with(&input[step], extra);
                        proof {
                            lemma_push_extends(cb, clauses_view(self.clauses@).last(), c0);
                            assert(extra@ =~= seq![tlit(false, a), tlit(true, b)]);
                            st = add_dfa(st, lits_of(ins[step as int], false) + seq![tlit(false, a), tlit(true, b)]);
                            assert(clauses_view(self.clauses@) =~= c0 + st.cs);
                        }
                        let a = match self.update_use_dict(&mut number_dict, (step + 1, tent_until)) { Some(x) => x, None => {
                            proof {
                                lemma_cell_grows(scell, ins, max_tents as int, step, tent_until);
                                lemma_cell_overflow(s3, ins, max_tents as int, step, tent_until);
                                lemma_steps_overflow(ins, max_tents as int, s0.game.variables_qty as nat);
                            }
                            return None
                        } };
                        proof { let (t1, x1) = use_var(st, ((step + 1) as usize, tent_until)); assert(x1 == a); st = t1; }
                        let b = match self.update_use_dict(&mut number_dict, (step, tent_until)) { Some(x) => x, None => {
                            proof {
                                lemma_cell_grows(scell, ins, max_tents as int, step, tent_until);
                                lemma_cell_overflow(s3, ins, max_tents as int, step, tent_until);
                                lemma_steps_overflow(ins, max_tents as int, s0.game.variables_qty as nat);
                            }
                            return None
                        } };
                        proof { let (t1, x1) = use_var(st, (step, tent_until)); assert(x1 == b); st = t1; }
                        let mut extra: Vec<Lit> = Vec::new();
                        extra.push((true, a as i128));
                        extra.push((false, b as i128));
                        let ghost cb = clauses_view(self.clauses@);
                        self.add_with(&input[step], extra);
                        proof {
                            lemma_push_extends(cb, clauses_view(self.clauses@).last(), c0);
                            assert(extra@ =~= seq![tlit(true, a), tlit(false, b)]);
                            st = add_dfa(st, lits_of(ins[step as int], false) + seq![tlit(true, a), tlit(false, b)]);
                            assert(clauses_view(self.clauses@) =~= c0 + st.cs);
                        }
                    } else {
                        let b = match self.update_use_dict(&mut number_dict, (step, tent_until)) { Some(x) => x, None => {
                            proof {
                                lemma_cell_grows(scell, ins, max_tents as int, step, tent_until);
                                lemma_cell_overflow(s3, ins, max_tents as int, step, tent_until);
                                lemma_steps_overflow(ins, max_tents as int, s0.game.variables_qty as nat);
                            }
                            return None
                        } };
                        proof { let (t1, x1) = use_var(st, (step, tent_until)); assert(x1 == b); st = t1; }
                        let mut extra: Vec<Lit> = Vec::new();
                        extra.push((true, b as i128));
                        let ghost cb = clauses_view(self.clauses@);
                        self.add_with(&input[step], extra);
                        proof {
                            lemma_push_extends(cb, clauses_view(self.clauses@).last(), c0);
                            assert(extra@ =~= seq![tlit(true, b)]);
                            st = add_dfa(st, lits_of(ins[step as int], false) + seq![tlit(true, b)]);
                            assert(clauses_view(self.clauses@) =~= c0 + st.cs);
                        }
                    }
                    proof { assert(st == dfa_stay(scell, ins, max_tents as int, step, tent_until)); }
                    if tent_until < max_tents {
                        let ghost smoves = st;
                        let mut j: usize = 0;
                        while j < input[step].len()
                            invariant
                                ins == input@.map_values(|p: Vec<usize>| p@),
                                n_in == input@.len(),
                                1 <= step < n_in - 1,
                                tent_until < max_tents,
                                j <= input@[step as int]@.len(),
                                ins[step as int] == input@[step as int]@,
                                s0 == *old(self),
                                c0 == clauses_view(s0.clauses@),
                                self.counted(),
                                extends(clauses_view(self.clauses@), c0),
                                self.header == s0.header,
                                self.spaced == s0.spaced,
                                same_but_count(self.game, s0.game),
                                self.game.variables_qty >= s0.game.variables_qty,
                                self.truth_values == s0.truth_values,
                                st == dfa_moves(smoves, ins[step as int], step, tent_until, j as int),
                                smoves == dfa_stay(scell, ins, max_tents as int, step, tent_until),
                                dict_get(scell.d, (step, tent_until)) is Some,
                                scell == dfa_counts(sstep, ins, max_tents as int, step, tent_until as int),
                                sstep == dfa_steps(s3, ins, max_tents as int, step as int),
                                s3 == dfa_start(ins, s0.game.variables_qty as nat),
                                number_dict@ == st.d,
                                self.game.variables_qty == st.q,
                                clauses_view(self.clauses@) == c0 + st.cs,
                            decreases input@[step as int]@.len() - j,
                        {
                            let tent_number = input[step][j];
                            let a = match self.update_use_dict(&mut number_dict, (step + 1, tent_until + 1)) { Some(x) => x, None => {
                                proof {
                                    let tents = ins[step as int];
                                    let (s2, x) = use_var(st, ((step + 1) as usize, (tent_until + 1) as usize));
                                    assert(s2.q == st.q + 1);
                                    assert(dfa_moves(smoves, tents, step, tent_until, j + 1).q >= s2.q);
                                    lemma_moves_mono(smoves, tents, step, tent_until, j + 1, tents.len() as int);
                                    assert(dfa_cell(scell, ins, max_tents as int, step, tent_until)
                                        == dfa_moves(smoves, tents, step, tent_until, tents.len() as int));
                                    lemma_cell_overflow(s3, ins, max_tents as int, step, tent_until);
                                    lemma_steps_overflow(ins, max_tents as int, s0.game.variables_qty as nat);
                                }
                                return None
                            } };
                            let ghost sa = st;
                            proof { let (t1, x1) = use_var(st, ((step + 1) as usize, (tent_until + 1) as usize)); assert(x1 == a); st = t1; }
                            let b = match self.update_use_dict(&mut number_dict, (step, tent_until)) { Some(x) => x, None => {
                            proof {
                                let tents = ins[step as int];
                                let (s2, x) = use_var(st, (step, tent_until));
                                assert(s2.q == st.q + 1);
                                assert(dfa_moves(smoves, tents, step, tent_until, j + 1).q >= s2.q);
                                lemma_moves_mono(smoves, tents, step, tent_until, j + 1, tents.len() as int);
                                assert(dfa_cell(scell, ins, max_tents as int, step, tent_until)
                                    == dfa_moves(smoves, tents, step, tent_until, tents.len() as int));
                                lemma_cell_overflow(s3, ins, max_tents as int, step, tent_until);
                                lemma_steps_overflow(ins, max_tents as int, s0.game.variables_qty as nat);
                            }
                            return None
                        } };
                            proof { let (t1, x1) = use_var(st, (step, tent_until)); assert(x1 == b); st = t1; }
                            let mut c: Vec<Lit> = Vec::new();
                            c.push((true, tent_number as i128));
                            c.push((false, a as i128));
                            c.push((true, b as i128));
                            let ghost cb = clauses_view(self.clauses@);
                            self.add_clause(c);
                            proof { lemma_push_extends(cb, c@, c0); }
                            let mut c2: Vec<Lit> = Vec::new();
                            c2.push((true, tent_number as i128));
                            c2.push((true, a as i128));
                            c2.push((false, b as i128));
                            let ghost cb2 = clauses_view(self.clauses@);
                            self.add_clause(c2);
                            proof {
                                lemma_push_extends(cb2, c2@, c0);
                                assert(ins[step as int][j as int] == tent_number);
                                assert(c@ =~= seq![tlit(true, tent_number), tlit(false, a), tlit(true, b)]);
                                assert(c2@ =~= seq![tlit(true, tent_number), tlit(true, a), tlit(false, b)]);
                                st = add_dfa(add_dfa(st, c@), c2@);
                                assert(clauses_view(self.clauses@) =~= c0 + st.cs);
                            }
                            j += 1;
                        }
                    }
                }
                proof { assert(st == dfa_cell(scell, ins, max_tents as int, step, tent_until)); }
                tent_until += 1;
            }
            let mut bools_per_step: Vec<usize> = Vec::new();
            let mut q: usize = 0;
            while q < number_dict.len()
                invariant
                    q <= number_dict@.len(),
                    bools_per_step@ == step_vars(number_dict@, step, q as int),
                decreases number_dict@.len() - q,
            {
                if number_dict[q].0.0 == step {
                    bools_per_step.push(number_dict[q].1);
                }
                proof { assert(bools_per_step@ =~= step_vars(number_dict@, step, q + 1)); }
                q += 1;
            }
            let ghost cb = clauses_view(self.clauses@);
            let ghost bv = bools_per_step@;
            self.not_two(bools_per_step);
            proof {
                lemma_concat_extends(cb, not_two_spec(bv), c0);
                st = DfaState { d: st.d, q: st.q, cs: st.cs + not_two_spec(bv) };
                assert(clauses_view(self.clauses@) =~= c0 + st.cs);
            }
            step += 1;
        }
        if max_tents == 0 {
            return None;
        }
        let x = match dict_lookup(&number_dict, (n_in - 1, max_tents - 1)) {
            Some(x) => x,
            None => return None,
        };
        let last = &input[n_in - 1];
        proof { assert(ins[n_in - 1] == last@); }
        let mut c: Vec<Lit> = Vec::new();
        c.push((true, x as i128));
        let mut j: usize = 0;
        while j < last.len()
            invariant
                j <= last@.len(),
                c@ == seq![tlit(true, x)] + lits_of(last@.take(j as int), false),
            decreases last@.len() - j,
        {
            c.push((false, last[j] as i128));
            proof { assert(c@ =~= seq![tlit(true, x)] + lits_of(last@.take(j + 1), false)); }
            j += 1;
        }
        proof { assert(last@.take(j as int) =~= last@); }
        let ghost cb = clauses_view(self.clauses@);
        let ghost cfin = c@;
        self.add_clause(c);
        proof { lemma_push_extends(cb, cfin, c0); }
        let y = match dict_lookup(&number_dict, (n_in - 1, max_tents)) {
            Some(y) => y,
            None => return None,
        };
        let ghost c1 = clauses_view(self.clauses@);
        proof {
            assert(st == dfa_steps(s3, ins, max_tents as int, n_in - 1));
            assert(c1 == c0 + st.cs.push(cfin));
        }
        let mut j: usize = 0;
        while j < last.len()
            invariant
                j <= last@.len(),
                ins == input@.map_values(|p: Vec<usize>| p@),
                n_in == input@.len(),
                n_in > 0,
                0 < max_tents < usize::MAX,
                ins[n_in - 1] == last@,
                st == dfa_steps(s3, ins, max_tents as int, n_in - 1),
                s3 == add_dfa(use_var(dfa_first(DfaState { d: Seq::empty(), q: s0.game.variables_qty as nat, cs: Seq::empty() }, ins[0], ins[0].len() as int), (1, 0)).0,
                    lits_of(ins[0], false) + seq![tlit(false, use_var(dfa_first(DfaState { d: Seq::empty(), q: s0.game.variables_qty as nat, cs: Seq::empty() }, ins[0], ins[0].len() as int), (1, 0)).1)]),
                dict_get(st.d, ((n_in - 1) as usize, (max_tents - 1) as usize)) == Some(x),
                dict_get(st.d, ((n_in - 1) as usize, max_tents as usize)) == Some(y),
                cfin == seq![tlit(true, x)] + lits_of(last@, false),
                c1 == c0 + st.cs.push(cfin),
                self.game.variables_qty == st.q,
                s0 == *old(self),
                c0 == clauses_view(s0.clauses@),
                self.counted(),
                extends(clauses_view(self.clauses@), c0),
                self.header == s0.header,
                self.spaced == s0.spaced,
                same_but_count(self.game, s0.game),
                self.game.variables_qty >= s0.game.variables_qty,
                self.truth_values == s0.truth_values,
                clauses_view(self.clauses@) == c1 + Seq::new(j as nat, |t: int| seq![tlit(true, y), tlit(true, last@[t])]),
            decreases last@.len() - j,
        {
            let mut c: Vec<Lit> = Vec::new();
            c.push((true, y as i128));
            c.push((true, last[j] as i128));
            let ghost cb = clauses_view(self.clauses@);
            self.add_clause(c);
            proof {
                lemma_push_extends(cb, c@, c0);
                assert(c@ =~= seq![tlit(true, y), tlit(true, last@[j as int])]);
                assert(clauses_view(self.clauses@) =~= c1 + Seq::new((j + 1) as nat, |t: int| seq![tlit(true, y), tlit(true, last@[t])]));
            }
            j += 1;
        }
        let mut c: Vec<Lit> = Vec::new();
        c.push((true, x as i128));
        c.push((true, y as i128));
        let ghost cb = clauses_view(self.clauses@);
        self.add_clause(c);
        proof {
            lemma_push_extends(cb, c@, c0);
            assert(c@ =~= seq![tlit(true, x), tlit(true, y)]);
            assert(clauses_view(self.clauses@) =~= c0 + (st.cs.push(seq![tlit(true, x)] + lits_of(last@, false))
                + Seq::new(last@.len(), |t: int| seq![tlit(true, y), tlit(true, last@[t])])
                + seq![seq![tlit(true, x), tlit(true, y)]]));
        }
        Some(())
    }
}

/// The number of the first `c` cells of row `r` that hold a tent variable.
pub open spec fn row_count(m: Seq<Seq<usize>>, mc: int, r: int, c: int) -> nat
    decreases c,
{
    if c <= 0 { 0 } else { row_count(m, mc, r, c - 1) + if m[r * mc + c - 1].len() > 0 { 1nat } else { 0nat } }
}

/// The number of the first `r` cells of column `c` that hold a tent variable.
pub open spec fn col_count(m: Seq<Seq<usize>>, mc: int, c: int, r: int) -> nat
    decreases r,
{
    if r <= 0 { 0 } else { col_count(m, mc, c, r - 1) + if m[(r - 1) * mc + c].len() > 0 { 1nat } else { 0nat } }
}

/// Every tree has a tent cell, every row and column has its count, and
/// each count is either zero or the number of the line's cells that can
/// hold a tent, so that no counting automaton is needed.
pub open spec fn simple_game(g: Game) -> bool {
    let m = g.tents_map@.map_values(|v: Vec<usize>| v@);
    let mr = g.max_row as int;
    let mc = g.max_column as int;
    &&& trees_have_tents(g)
    &&& g.tents_in_rows@.len() >= mr
    &&& g.tents_in_columns@.len() >= mc
    &&& forall|r: int| 0 <= r < mr ==> #[trigger] g.tents_in_rows@[r] == 0 || g.tents_in_rows@[r] == row_count(m, mc, r, mc)
    &&& forall|c: int| 0 <= c < mc ==> #[trigger] g.tents_in_columns@[c] == 0 || g.tents_in_columns@[c] == col_count(m, mc, c, mr)
}

/// The lists of the first `k` cells of a line that hold tent variables:
/// row `line` when `by_row`, else column `line`.
pub open spec fn line_pools_spec(m: Seq<Seq<usize>>, mc: int, line: int, by_row: bool, k: int) -> Seq<Seq<usize>>
    decreases k,
{
    if k <= 0 {
        Seq::empty()
    } else {
        let cell = if by_row { m[line * mc + k - 1] } else { m[(k - 1) * mc + line] };
        line_pools_spec(m, mc, line, by_row, k - 1) + if cell.len() > 0 { seq![cell] } else { Seq::empty() }
    }
}

/// The variables of the first `k` cells of a line, cell by cell: row
/// `line` when `by_row`, else column `line`.
pub open spec fn line_numbers_spec(m: Seq<Seq<usize>>, mc: int, line: int, by_row: bool, k: int) -> Seq<usize>
    decreases k,
{
    if k <= 0 {
        Seq::empty()
    } else {
        line_numbers_spec(m, mc, line, by_row, k - 1) + if by_row { m[line * mc + k - 1] } else { m[(k - 1) * mc + line] }
    }
}

/// The exactly-n clauses of the counts of the first `k` lines (the rows,
/// then the columns) over the variables of their cells; `None` when a
/// count is missing or exceeds its line's variables, or when a count, or
/// the number of variables left over, is the largest machine word.
pub open spec fn qty_lines_spec(g: Game, k: int) -> Option<Seq<Seq<Lit>>>
    decreases k,
{
    if k <= 0 {
        Some(Seq::empty())
    } else {
        match qty_lines_spec(g, k - 1) {
            None => None,
            Some(cs) => {
                let m = g.tents_map@.map_values(|v: Vec<usize>| v@);
                let mr = g.max_row as int;
                let mc = g.max_column as int;
                let by_row = k - 1 < mr;
                let line = if by_row { k - 1 } else { k - 1 - mr };
                let counts = if by_row { g.tents_in_rows@ } else { g.tents_in_columns@ };
                let nums = line_numbers_spec(m, mc, line, by_row, if by_row { mc } else { mr });
                if line >= counts.len() || counts[line] > nums.len() {
                    None
                } else if counts[line] >= usize::MAX || nums.len() - counts[line] >= usize::MAX {
                    None
                } else {
                    Some(cs + exactly_n_spec(counts[line] as int, nums))
                }
            },
        }
    }
}

/// Once a line fails, the remaining lines change nothing.
pub proof fn lemma_qty_lines_fail(g: Game, k: int, m: int)
    requires
        0 <= k <= m,
        qty_lines_spec(g, k) is None,
    ensures
        qty_lines_spec(g, m) is None,
    decreases m - k,
{
    if m > k {
        lemma_qty_lines_fail(g, k, m - 1);
    }
}

/// The unit clauses `-t` for every variable of the first `p` pools.
pub open spec fn neg_units(pools: Seq<Seq<usize>>, p: int) -> Seq<Seq<Lit>>
    decreases p,
{
    if p <= 0 {
        Seq::empty()
    } else {
        neg_units(pools, p - 1) + Seq::new(pools[p - 1].len(), |i: int| seq![tlit(true, pools[p - 1][i])])
    }
}

/// The clauses of one line's count, and the variable count after them:
/// no tent at all, a tent in every pool, or the counting automaton.
pub open spec fn line_spec(pools: Seq<Seq<usize>>, count: int, q: nat) -> Option<(Seq<Seq<Lit>>, nat)> {
    if count == 0 {
        Some((neg_units(pools, pools.len() as int), q))
    } else if count == pools.len() {
        Some((Seq::new(pools.len(), |p: int| lits_of(pools[p], false)), q))
    } else {
        dfa_spec(pools, count, q)
    }
}

/// The clauses of the counts of the first `k` lines (the rows, then the
/// columns), starting from `q` variables; `None` when a count is missing
/// or a line has no clauses.
pub open spec fn lines_spec(g: Game, k: int, q: nat) -> Option<(Seq<Seq<Lit>>, nat)>
    decreases k,
{
    if k <= 0 {
        Some((Seq::empty(), q))
    } else {
        match lines_spec(g, k - 1, q) {
            None => None,
            Some((cs, q1)) => {
                let m = g.tents_map@.map_values(|v: Vec<usize>| v@);
                let mr = g.max_row as int;
                let mc = g.max_column as int;
                let by_row = k - 1 < mr;
                let line = if by_row { k - 1 } else { k - 1 - mr };
                let counts = if by_row { g.tents_in_rows@ } else { g.tents_in_columns@ };
                if line >= counts.len() {
                    None
                } else {
                    let pools = line_pools_spec(m, mc, line, by_row, if by_row { mc } else { mr });
                    match line_spec(pools, counts[line] as int, q1) {
                        Some((more, q2)) => Some((cs + more, q2)),
                        None => None,
                    }
                }
            },
        }
    }
}

/// For each clause of [`lines_spec`], whether it is written with a leading
/// space: those of a line whose count is not zero and is the number of its
/// cells that can hold a tent.
pub open spec fn lines_flags(g: Game, k: int, q: nat) -> Seq<bool>
    decreases k,
{
    if k <= 0 {
        Seq::empty()
    } else {
        match lines_spec(g, k - 1, q) {
            None => Seq::empty(),
            Some((cs, q1)) => {
                let m = g.tents_map@.map_values(|v: Vec<usize>| v@);
                let mr = g.max_row as int;
                let mc = g.max_column as int;
                let by_row = k - 1 < mr;
                let line = if by_row { k - 1 } else { k - 1 - mr };
                let counts = if by_row { g.tents_in_rows@ } else { g.tents_in_columns@ };
                if line >= counts.len() {
                    Seq::empty()
                } else {
                    let pools = line_pools_spec(m, mc, line, by_row, if by_row { mc } else { mr });
                    match line_spec(pools, counts[line] as int, q1) {
                        Some((more, q2)) => lines_flags(g, k - 1, q)
                            + Seq::new(more.len(), |i: int| counts[line] != 0 && counts[line] == pools.len()),
                        None => Seq::empty(),
                    }
                }
            },
        }
    }
}

impl SatMaker {
    /// The numbers of the tents of tree `t`.
    fn tree_tent_numbers(&self, t: usize) -> (r: Vec<usize>)
        requires
            t < self.game.trees@.len(),
        ensures
            r@ == tree_numbers(self.game.trees@[t as int]),
    {
        let mut nums: Vec<usize> = Vec::new();
        let tree = &self.game.trees[t];
        let mut i: usize = 0;
        while i < tree.tents.len()
            invariant
                i <= tree.tents@.len(),
                nums@ == tree_numbers(*tree).take(i as int),
            decreases tree.tents@.len() - i,
        {
            nums.push(tree.tents[i].number);
            proof { assert(nums@ =~= tree_numbers(*tree).take(i + 1)); }
            i += 1;
        }
        proof { assert(nums@ =~= tree_numbers(*tree)); }
        nums
    }

    /// Exactly one tent per tree.
    fn trees_exactly_one(&mut self) -> (r: Option<()>)
        requires
            old(self).counted(),
        ensures
            r is Some <==> trees_have_tents(old(self).game),
            r is Some ==> {
                &&& final(self).counted()
                &&& clauses_view(final(self).clauses@) == clauses_view(old(self).clauses@) + trees_clauses(old(self).game.trees@, old(self).game.trees@.len() as int)
                &&& final(self).header == old(self).header
                &&& final(self).spaced == old(self).spaced
                &&& final(self).game == old(self).game
                &&& final(self).truth_values == old(self).truth_values
            },
    {
        let ghost s0 = *self;
        let ghost c0 = clauses_view(self.clauses@);
        let n = self.game.trees.len();
        let mut t: usize = 0;
        while t < n
            invariant
                n == s0.game.trees@.len(),
                t <= n,
                s0 == *old(self),
                c0 == clauses_view(s0.clauses@),
                self.counted(),
                clauses_view(self.clauses@) == c0 + trees_clauses(s0.game.trees@, t as int),
                self.header == s0.header,
                self.spaced == s0.spaced,
                self.game == s0.game,
                self.truth_values == s0.truth_values,
                forall|k: int| 0 <= k < t ==> (#[trigger] s0.game.trees@[k]).tents@.len() >= 1,
            decreases n - t,
        {
            let nums = self.tree_tent_numbers(t);
            if nums.len() == 0 {
                proof { assert(!trees_have_tents(s0.game)) by { assert(s0.game.trees@[t as int].tents@.len() == 0); } }
                return None;
            }
            proof { assert(nums@.len() == s0.game.trees@[t as int].tents@.len()); }
            self.exactly_n(1, nums);
            proof { assert(clauses_view(self.clauses@) =~= c0 + trees_clauses(s0.game.trees@, t + 1)); }
            t += 1;
        }
        Some(())
    }

    /// The cells of a line that can hold a tent, each as a pool of its
    /// variables: row `line` when `by_row`, else column `line`.
    fn line_pools(&self, line: usize, by_row: bool) -> (r: Vec<Vec<usize>>)
        requires
            self.game.tents_map@.len() == self.game.max_row * self.game.max_column,
            by_row ==> line < self.game.max_row,
            !by_row ==> line < self.game.max_column,
        ensures
            r@.len() == if by_row {
                row_count(self.game.tents_map@.map_values(|v: Vec<usize>| v@), self.game.max_column as int, line as int, self.game.max_column as int)
            } else {
                col_count(self.game.tents_map@.map_values(|v: Vec<usize>| v@), self.game.max_column as int, line as int, self.game.max_row as int)
            },
            r@.map_values(|p: Vec<usize>| p@) == line_pools_spec(self.game.tents_map@.map_values(|v: Vec<usize>| v@),
                self.game.max_column as int, line as int, by_row, if by_row { self.game.max_column as int } else { self.game.max_row as int }),
    {
        let ghost m = self.game.tents_map@.map_values(|v: Vec<usize>| v@);
        let mr = self.game.max_row;
        let mc = self.game.max_column;
        let n = if by_row { mc } else { mr };
        let cells = self.game.tents_map.len();
        let mut pools: Vec<Vec<usize>> = Vec::new();
        let mut k: usize = 0;
        while k < n
            invariant
                cells == self.game.tents_map@.len(),
                m == self.game.tents_map@.map_values(|v: Vec<usize>| v@),
                self.game.tents_map@.len() == mr * mc,
                mr == self.game.max_row,
                mc == self.game.max_column,
                n == if by_row { mc } else { mr },
                by_row ==> line < mr,
                !by_row ==> line < mc,
                k <= n,
                pools@.len() == if by_row { row_count(m, mc as int, line as int, k as int) } else { col_count(m, mc as int, line as int, k as int) },
                pools@.map_values(|p: Vec<usize>| p@) == line_pools_spec(m, mc as int, line as int, by_row, k as int),
            decreases n - k,
        {
            proof {
                if by_row {
                    assert(line * mc + k < mr * mc) by (nonlinear_arith) requires line < mr, k < mc;
                } else {
                    assert(k * mc + line < mr * mc) by (nonlinear_arith) requires k < mr, line < mc;
                }
            }
            let idx = if by_row { line * mc + k } else { k * mc + line };
            proof { assert(m[idx as int] == self.game.tents_map@[idx as int]@); }
            let ghost pb = pools@;
            if self.game.tents_map[idx].len() > 0 {
                pools.push(copy_numbers(&self.game.tents_map[idx]));
            }
            proof {
                assert(pools@.map_values(|p: Vec<usize>| p@) =~= line_pools_spec(m, mc as int, line as int, by_row, k + 1));
            }
            k += 1;
        }
        pools
    }

    /// The count of one line: no tent, a tent in each of its cells that can
    /// hold one, or the counting automaton (see [`line_spec`]).
    fn line_count(&mut self, pools: Vec<Vec<usize>>, count: usize) -> (r: Option<()>)
        requires
            old(self).counted(),
        ensures
            (count == 0 || count == pools@.len()) ==> r is Some,
            line_spec(pools@.map_values(|p: Vec<usize>| p@), count as int, old(self).game.variables_qty as nat) is None ==> r is None,
            match line_spec(pools@.map_values(|p: Vec<usize>| p@), count as int, old(self).game.variables_qty as nat) {
                Some((cs, q)) => q <= usize::MAX ==> r is Some,
                None => true,
            },
            r is Some ==> {
                &&& final(self).counted()
                &&& final(self).header == old(self).header
                &&& same_but_count(final(self).game, old(self).game)
                &&& final(self).truth_values == old(self).truth_values
                &&& match line_spec(pools@.map_values(|p: Vec<usize>| p@), count as int, old(self).game.variables_qty as nat) {
                    Some((cs, q)) => clauses_view(final(self).clauses@) == clauses_view(old(self).clauses@) + cs
                        && final(self).game.variables_qty == q
                        && final(self).spaced_view() == old(self).spaced_view()
                            + Seq::new(cs.len(), |i: int| count != 0 && count == pools@.len()),
                    None => false,
                }
            },
    {
        let ghost s0 = *self;
        let ghost c0 = clauses_view(self.clauses@);
        let ghost ps = pools@.map_values(|p: Vec<usize>| p@);
        if count == 0 {
            proof { assert(c0 + neg_units(ps, 0) =~= c0); }
            let mut p: usize = 0;
            while p < pools.len()
                invariant
                    ps == pools@.map_values(|p: Vec<usize>| p@),
                    p <= pools@.len(),
                    s0 == *old(self),
                    c0 == clauses_view(s0.clauses@),
                    self.counted(),
                    clauses_view(self.clauses@) == c0 + neg_units(ps, p as int),
                    self.header == s0.header,
                    self.spaced == s0.spaced,
                    self.game == s0.game,
                    self.truth_values == s0.truth_values,
                decreases pools@.len() - p,
            {
                let ghost cp = clauses_view(self.clauses@);
                proof { assert(ps[p as int] == pools@[p as int]@); }
                let mut i: usize = 0;
                while i < pools[p].len()
                    invariant
                        ps == pools@.map_values(|p: Vec<usize>| p@),
                        ps[p as int] == pools@[p as int]@,
                        p < pools@.len(),
                        i <= pools@[p as int]@.len(),
                        s0 == *old(self),
                        self.counted(),
                        clauses_view(self.clauses@) == cp + Seq::new(i as nat, |t: int| seq![tlit(true, ps[p as int][t])]),
                        self.header == s0.header,
                        self.spaced == s0.spaced,
                        self.game == s0.game,
                        self.truth_values == s0.truth_values,
                    decreases pools@[p as int]@.len() - i,
                {
                    let mut c: Vec<Lit> = Vec::new();
                    c.push((true, pools[p][i] as i128));
                    self.add_clause(c);
                    proof {
                        assert(c@ =~= seq![tlit(true, ps[p as int][i as int])]);
                        assert(clauses_view(self.clauses@) =~= cp + Seq::new((i + 1) as nat, |t: int| seq![tlit(true, ps[p as int][t])]));
                    }
                    i += 1;
                }
                proof { assert(clauses_view(self.clauses@) =~= c0 + neg_units(ps, p + 1)); }
                p += 1;
            }
            proof {
                lemma_spaced_grow(s0.spaced@, s0.clauses@.len(), self.clauses@.len());
                assert(self.spaced_view() =~= s0.spaced_view() + Seq::new(neg_units(ps, pools@.len() as int).len(), |i: int| count != 0 && count == pools@.len()));
            }
            Some(())
        } else if count == pools.len() {
            proof {
                assert(c0 + Seq::new(0, |q: int| lits_of(ps[q], false)) =~= c0);
                assert(s0.spaced_view() + Seq::new(0, |i: int| true) =~= s0.spaced_view());
            }
            let mut p: usize = 0;
            while p < pools.len()
                invariant
                    ps == pools@.map_values(|p: Vec<usize>| p@),
                    p <= pools@.len(),
                    s0 == *old(self),
                    c0 == clauses_view(s0.clauses@),
                    self.counted(),
                    clauses_view(self.clauses@) == c0 + Seq::new(p as nat, |q: int| lits_of(ps[q], false)),
                    self.header == s0.header,
                    self.spaced_view() == s0.spaced_view() + Seq::new(p as nat, |i: int| true),
                    self.game == s0.game,
                    self.truth_values == s0.truth_values,
                decreases pools@.len() - p,
            {
                let ghost cb = clauses_view(self.clauses@);
                let ghost svb = self.spaced_view();
                self.add_with(&pools[p], Vec::new());
                proof {
                    lemma_spaced_grow(self.spaced@, (self.clauses@.len() - 1) as nat, self.clauses@.len());
                    assert(svb == spaced_of(self.spaced@, (self.clauses@.len() - 1) as nat));
                }
                self.mark_last_spaced();
                proof {
                    assert(self.spaced_view() =~= s0.spaced_view() + Seq::new((p + 1) as nat, |i: int| true));
                    assert(ps[p as int] == pools@[p as int]@);
                    assert(lits_of(pools@[p as int]@, false) + Seq::<Lit>::empty() =~= lits_of(ps[p as int], false));
                    assert(clauses_view(self.clauses@) =~= c0 + Seq::new((p + 1) as nat, |q: int| lits_of(ps[q], false)));
                }
                p += 1;
            }
            Some(())
        } else {
            let r = self.encode_dfa(&pools, count);
            proof {
                if r is Some {
                    lemma_spaced_grow(s0.spaced@, s0.clauses@.len(), self.clauses@.len());
                    let pair = line_spec(ps, count as int, s0.game.variables_qty as nat)->0;
                    let cs = pair.0;
                    assert(self.spaced_view() =~= s0.spaced_view() + Seq::new(cs.len(), |i: int| count != 0 && count == pools@.len()));
                }
            }
            r
        }
    }

    /// Exactly one tent per tree, then each row's and each column's count
    /// (see [`lines_spec`]).
    #[verifier::spinoff_prover]
    #[verifier::rlimit(100)]
    fn ensure_tent_qty_pools(&mut self) -> (r: Option<()>)
        requires
            old(self).counted(),
            old(self).game.tents_map@.len() == old(self).game.max_row * old(self).game.max_column,
        ensures
            simple_game(old(self).game) ==> r is Some,
            lines_spec(old(self).game, old(self).game.max_row + old(self).game.max_column, old(self).game.variables_qty as nat) is None ==> r is None,
            trees_have_tents(old(self).game) ==> match lines_spec(old(self).game, old(self).game.max_row + old(self).game.max_column,
                old(self).game.variables_qty as nat) {
                Some((cs, q)) => q <= usize::MAX ==> r is Some,
                None => true,
            },
            r is Some ==> {
                &&& final(self).counted()
                &&& final(self).header == old(self).header
                &&& same_but_count(final(self).game, old(self).game)
                &&& final(self).truth_values == old(self).truth_values
                &&& match lines_spec(old(self).game, old(self).game.max_row + old(self).game.max_column, old(self).game.variables_qty as nat) {
                    Some((cs, q)) => clauses_view(final(self).clauses@) == clauses_view(old(self).clauses@)
                        + trees_clauses(old(self).game.trees@, old(self).game.trees@.len() as int) + cs
                        && final(self).game.variables_qty == q
                        && final(self).spaced_view() == old(self).spaced_view()
                            + Seq::new(trees_clauses(old(self).game.trees@, old(self).game.trees@.len() as int).len(), |i: int| false)
                            + lines_flags(old(self).game, old(self).game.max_row + old(self).game.max_column, old(self).game.variables_qty as nat),
                    None => false,
                }
            },
    {
        let ghost s0 = *self;
        self.trees_exactly_one()?;
        let ghost c1 = clauses_view(self.clauses@);
        let ghost q0 = self.game.variables_qty as nat;
        let ghost sv1 = self.spaced_view();
        proof {
            assert(clauses_view(self.clauses@).len() == self.clauses@.len());
            assert(clauses_view(s0.clauses@).len() == s0.clauses@.len());
            lemma_spaced_grow(s0.spaced@, s0.clauses@.len(), self.clauses@.len());
            assert(sv1 == s0.spaced_view()
                + Seq::new(trees_clauses(s0.game.trees@, s0.game.trees@.len() as int).len(), |i: int| false));
            assert(sv1 + lines_flags(s0.game, 0, q0) =~= sv1);
        }
        proof { assert(c1 + Seq::<Seq<Lit>>::empty() =~= c1); }
        let mr = self.game.max_row;
        let mc = self.game.max_column;
        let mut row: usize = 0;
        while row < mr
            invariant
                s0 == *old(self),
                simple_game(s0.game) ==> trees_have_tents(s0.game),
                c1 == clauses_view(s0.clauses@) + trees_clauses(s0.game.trees@, s0.game.trees@.len() as int),
                q0 == s0.game.variables_qty,
                mr == s0.game.max_row,
                mc == s0.game.max_column,
                s0.game.tents_map@.len() == mr * mc,
                row <= mr,
                self.counted(),
                self.header == s0.header,
                same_but_count(self.game, s0.game),
                self.truth_values == s0.truth_values,
                sv1 == s0.spaced_view()
                    + Seq::new(trees_clauses(s0.game.trees@, s0.game.trees@.len() as int).len(), |i: int| false),
                lines_spec(s0.game, row as int, q0) is Some ==> self.spaced_view() == sv1 + lines_flags(s0.game, row as int, q0),
                match lines_spec(s0.game, row as int, q0) {
                    Some((cs, q)) => clauses_view(self.clauses@) == c1 + cs && self.game.variables_qty == q,
                    None => false,
                },
            decreases mr - row,
        {
            let pools = self.line_pools(row, true);
            if row >= self.game.tents_in_rows.len() {
                proof { lemma_lines_mono(s0.game, row + 1, mr + mc, q0); }
                return None;
            }
            let count = self.game.tents_in_rows[row];
            let ghost cb = clauses_view(self.clauses@);
            let ghost gb = self.game;
            let ghost psv = pools@.map_values(|p: Vec<usize>| p@);
            let rl = self.line_count(pools, count);
            if rl.is_none() {
                proof {
                    lemma_lines_same(s0.game, gb, row as int, q0);
                    lemma_lines_mono(s0.game, row + 1, mr + mc, q0);
                }
                return None;
            }
            row += 1;
        }
        let mut column: usize = 0;
        while column < mc
            invariant
                s0 == *old(self),
                c1 == clauses_view(s0.clauses@) + trees_clauses(s0.game.trees@, s0.game.trees@.len() as int),
                q0 == s0.game.variables_qty,
                mr == s0.game.max_row,
                mc == s0.game.max_column,
                s0.game.tents_map@.len() == mr * mc,
                column <= mc,
                self.counted(),
                self.header == s0.header,
                same_but_count(self.game, s0.game),
                self.truth_values == s0.truth_values,
                sv1 == s0.spaced_view()
                    + Seq::new(trees_clauses(s0.game.trees@, s0.game.trees@.len() as int).len(), |i: int| false),
                lines_spec(s0.game, mr + column, q0) is Some ==> self.spaced_view() == sv1 + lines_flags(s0.game, mr + column, q0),
                match lines_spec(s0.game, mr + column, q0) {
                    Some((cs, q)) => clauses_view(self.clauses@) == c1 + cs && self.game.variables_qty == q,
                    None => false,
                },
            decreases mc - column,
        {
            let pools = self.line_pools(column, false);
            if column >= self.game.tents_in_columns.len() {
                proof { lemma_lines_mono(s0.game, mr + column + 1, mr + mc, q0); }
                return None;
            }
            let count = self.game.tents_in_columns[column];
            let ghost gb = self.game;
            let rl = self.line_count(pools, count);
            if rl.is_none() {
                proof {
                    lemma_lines_same(s0.game, gb, mr + column, q0);
                    lemma_lines_mono(s0.game, mr + column + 1, mr + mc, q0);
                }
                return None;
            }
            column += 1;
        }
        Some(())
    }
}

/// The number of the first `c` cells of row `r` of the layout that can hold a tent.
pub open spec fn lay_row_count(lay: Layout, r: int, c: int) -> nat
    decreases c,
{
    if c <= 0 {
        0
    } else {
        lay_row_count(lay, r, c - 1)
            + if cell_numbers(lay, (r as usize, (c - 1) as usize), lay.trees.len() as int).len() > 0 { 1nat } else { 0nat }
    }
}

/// The number of the first `r` cells of column `c` of the layout that can hold a tent.
pub open spec fn lay_col_count(lay: Layout, c: int, r: int) -> nat
    decreases r,
{
    if r <= 0 {
        0
    } else {
        lay_col_count(lay, c, r - 1)
            + if cell_numbers(lay, ((r - 1) as usize, c as usize), lay.trees.len() as int).len() > 0 { 1nat } else { 0nat }
    }
}

/// A layout whose counts need no counting automaton: every tree has a tent
/// cell, every row and column has a count, and each count is zero or the
/// number of the line's cells that can hold a tent.
pub open spec fn simple_layout(lay: Layout) -> bool {
    &&& forall|k: int| 0 <= k < lay.trees.len() ==> (#[trigger] tree_tents(lay, k)).len() >= 1
    &&& lay.rows.len() >= lay.max_row
    &&& lay.cols.len() >= lay.max_column
    &&& forall|r: int| 0 <= r < lay.max_row ==> #[trigger] lay.rows[r] == 0 || lay.rows[r] == lay_row_count(lay, r, lay.max_column as int)
    &&& forall|c: int| 0 <= c < lay.max_column ==> #[trigger] lay.cols[c] == 0 || lay.cols[c] == lay_col_count(lay, c, lay.max_row as int)
}

/// The counts of a built game are those of its layout.
pub proof fn lemma_counts_match(g: Game, lay: Layout)
    requires
        g.built_from(lay),
    ensures
        forall|r: int, c: int| 0 <= r < lay.max_row && 0 <= c <= lay.max_column ==>
            row_count(g.tents_map@.map_values(|v: Vec<usize>| v@), lay.max_column as int, r, c) == #[trigger] lay_row_count(lay, r, c),
        forall|c: int, r: int| 0 <= c < lay.max_column && 0 <= r <= lay.max_row ==>
            col_count(g.tents_map@.map_values(|v: Vec<usize>| v@), lay.max_column as int, c, r) == #[trigger] lay_col_count(lay, c, r),
{
    let m = g.tents_map@.map_values(|v: Vec<usize>| v@);
    let mr = lay.max_row as int;
    let mc = lay.max_column as int;
    assert forall|r: int, c: int| 0 <= r < mr && 0 <= c <= mc implies
        row_count(m, mc, r, c) == #[trigger] lay_row_count(lay, r, c) by {
        lemma_row_count_match(g, lay, r, c);
    }
    assert forall|c: int, r: int| 0 <= c < mc && 0 <= r <= mr implies
        col_count(m, mc, c, r) == #[trigger] lay_col_count(lay, c, r) by {
        lemma_col_count_match(g, lay, c, r);
    }
}

/// The map entry of cell `(r, c)` is the cell's variables.
pub proof fn lemma_map_entry(g: Game, lay: Layout, r: int, c: int)
    requires
        g.built_from(lay),
        0 <= r < lay.max_row,
        0 <= c < lay.max_column,
    ensures
        r * lay.max_column + c < g.tents_map@.len(),
        g.tents_map@[r * lay.max_column + c]@ == cell_numbers(lay, (r as usize, c as usize), lay.trees.len() as int),
{
    let mc = lay.max_column as int;
    let mr = lay.max_row as int;
    let q = r * mc + c;
    assert(q < mr * mc) by (nonlinear_arith) requires 0 <= r < mr, 0 <= c < mc, q == r * mc + c;
    assert(0 <= q) by (nonlinear_arith) requires 0 <= r, 0 <= c, mc > 0, q == r * mc + c;
    lemma_cell_index(q, mc, r, c);
}

/// See [`lemma_counts_match`].
pub proof fn lemma_row_count_match(g: Game, lay: Layout, r: int, c: int)
    requires
        g.built_from(lay),
        0 <= r < lay.max_row,
        0 <= c <= lay.max_column,
    ensures
        row_count(g.tents_map@.map_values(|v: Vec<usize>| v@), lay.max_column as int, r, c) == lay_row_count(lay, r, c),
    decreases c,
{
    if c > 0 {
        lemma_row_count_match(g, lay, r, c - 1);
        lemma_map_entry(g, lay, r, c - 1);
    }
}

/// See [`lemma_counts_match`].
pub proof fn lemma_col_count_match(g: Game, lay: Layout, c: int, r: int)
    requires
        g.built_from(lay),
        0 <= c < lay.max_column,
        0 <= r <= lay.max_row,
    ensures
        col_count(g.tents_map@.map_values(|v: Vec<usize>| v@), lay.max_column as int, c, r) == lay_col_count(lay, c, r),
    decreases r,
{
    if r > 0 {
        lemma_col_count_match(g, lay, c, r - 1);
        lemma_map_entry(g, lay, r - 1, c);
    }
}

/// The lines' clauses depend on the grid and the counts, not on the
/// variable count.
pub proof fn lemma_lines_same(a: Game, b: Game, k: int, q: nat)
    requires
        same_but_count(a, b),
    ensures
        lines_spec(a, k, q) == lines_spec(b, k, q),
    decreases k,
{
    if k > 0 {
        lemma_lines_same(a, b, k - 1, q);
    }
}

/// The automaton never lowers the variable count.
pub proof fn lemma_dfa_q_grows(input: Seq<Seq<usize>>, max: int, q0: nat)
    requires
        max >= 0,
    ensures
        match dfa_spec(input, max, q0) {
            Some((cs, q)) => q0 <= q,
            None => true,
        },
{
    if input.len() > 0 && max > 0 && max < usize::MAX {
        let init = DfaState { d: Seq::empty(), q: q0, cs: Seq::empty() };
        lemma_first_mono(init, input[0], 0, input[0].len() as int);
        let s1 = dfa_first(init, input[0], input[0].len() as int);
        assert(use_var(s1, (1, 0)).0.q >= s1.q);
        assert(dfa_start(input, q0).q >= s1.q);
        assert(dfa_first(init, input[0], 0) == init);
        assert(dfa_steps(dfa_start(input, q0), input, max, 1) == dfa_start(input, q0));
        if input.len() - 1 >= 1 {
            lemma_steps_mono(dfa_start(input, q0), input, max, 1, input.len() - 1);
        } else {
            assert(dfa_steps(dfa_start(input, q0), input, max, input.len() - 1) == dfa_start(input, q0));
        }
        let s4 = dfa_steps(dfa_start(input, q0), input, max, input.len() - 1);
        assert(s4.q >= q0);
        match dfa_spec(input, max, q0) {
            Some((cs, q)) => { assert(q == s4.q); },
            None => {},
        }
    }
}

/// A line's clauses never lower the variable count.
pub proof fn lemma_line_q_grows(pools: Seq<Seq<usize>>, count: int, q0: nat)
    requires
        count >= 0,
    ensures
        match line_spec(pools, count, q0) {
            Some((cs, q)) => q0 <= q,
            None => true,
        },
{
    lemma_dfa_q_grows(pools, count, q0);
}

/// Over more lines the variable count only grows, and a failed line fails
/// the rest.
pub proof fn lemma_lines_mono(g: Game, k: int, k2: int, q0: nat)
    requires
        0 <= k <= k2,
    ensures
        lines_spec(g, k, q0) is None ==> lines_spec(g, k2, q0) is None,
        match (lines_spec(g, k, q0), lines_spec(g, k2, q0)) {
            (Some((c1, q1)), Some((c2, q2))) => q1 <= q2,
            _ => true,
        },
    decreases k2,
{
    if k < k2 {
        lemma_lines_mono(g, k, k2 - 1, q0);
        match lines_spec(g, k2 - 1, q0) {
            Some((cs, q1)) => {
                let m = g.tents_map@.map_values(|v: Vec<usize>| v@);
                let mr = g.max_row as int;
                let mc = g.max_column as int;
                let by_row = k2 - 1 < mr;
                let line = if by_row { k2 - 1 } else { k2 - 1 - mr };
                let counts = if by_row { g.tents_in_rows@ } else { g.tents_in_columns@ };
                if line < counts.len() {
                    let pools = line_pools_spec(m, mc, line, by_row, if by_row { mc } else { mr });
                    lemma_line_q_grows(pools, counts[line] as int, q1);
                }
            },
            None => {},
        }
    }
}

/// Can a built game be encoded: every tree has a cell for its tent, every
/// line has its count, and the variables made stay within a machine word?
pub open spec fn encodable(g: Game) -> bool {
    &&& trees_have_tents(g)
    &&& match lines_spec(g, g.max_row + g.max_column, g.variables_qty as nat) {
        Some((cs, q)) => q <= usize::MAX,
        None => false,
    }
}

/// The lines' flags depend on the grid and the counts, not on the
/// variable count.
pub proof fn lemma_flags_same(a: Game, b: Game, k: int, q: nat)
    requires
        same_but_count(a, b),
    ensures
        lines_flags(a, k, q) == lines_flags(b, k, q),
    decreases k,
{
    if k > 0 {
        lemma_flags_same(a, b, k - 1, q);
        lemma_lines_same(a, b, k - 1, q);
    }
}

impl SatMaker {
    /// Encodes a puzzle text: no two tents touch, each tree has exactly one
    /// tent, and each row and column has its number of tents; the problem
    /// line counts the variables and clauses made. `None` where the text
    /// makes no game (see [`game_ok`]) or an encoding step fails.
    #[verifier::spinoff_prover]
    #[verifier::rlimit(60)]
    pub fn new(text: &str) -> (r: Option<SatMaker>)
        ensures
            match r {
                Some(sm) => {
                    &&& game_ok(text@)
                    &&& sm.counted()
                    &&& sm.header == (sm.game.variables_qty, sm.clauses@.len() as usize)
                    &&& sm.truth_values@.len() == 0
                    &&& sm.game.max_row == layout_of(text@)->0.max_row
                    &&& sm.game.max_column == layout_of(text@)->0.max_column
                    &&& match lines_spec(sm.game, sm.game.max_row + sm.game.max_column,
                            tents_before(layout_of(text@)->0, layout_of(text@)->0.trees.len() as int)) {
                        Some((cs, q)) => clauses_view(sm.clauses@) == none_adjacent_spec(sm.game)
                            + trees_clauses(sm.game.trees@, sm.game.trees@.len() as int) + cs
                            && sm.game.variables_qty == q
                            && sm.spaced_view() == Seq::new((none_adjacent_spec(sm.game)
                                + trees_clauses(sm.game.trees@, sm.game.trees@.len() as int)).len(), |i: int| false)
                                + lines_flags(sm.game, sm.game.max_row + sm.game.max_column,
                                    tents_before(layout_of(text@)->0, layout_of(text@)->0.trees.len() as int)),
                        None => false,
                    }
                },
                None => !game_ok(text@) || !simple_layout(layout_of(text@)->0),
            },
            r is None ==> !game_ok(text@) || exists|g: Game| g.built_from(layout_of(text@)->0) && !encodable(g),
            r is Some ==> exists|g: Game| g.built_from(layout_of(text@)->0) && same_but_count(r->0.game, g),
    {
        let game = match Game::new(text) {
            Some(g) => g,
            None => return None,
        };
        let ghost g0 = game;
        let ghost lay = layout_of(text@)->0;
        let mut this = SatMaker {
            clauses: Vec::new(),
            spaced: Vec::new(),
            header: (0, 0),
            game,
            clauses_qty: 0,
            truth_values: Vec::new(),
        };
        this.none_adjacent();
        let ghost c1 = clauses_view(this.clauses@);
        proof {
            assert(c1 =~= none_adjacent_spec(g0));
            assert(this.spaced_view() =~= Seq::new(c1.len(), |i: int| false));
            lemma_counts_match(g0, lay);
            if simple_layout(lay) {
                assert(simple_game(g0)) by {
                    assert forall|k: int| 0 <= k < g0.trees@.len() implies (#[trigger] g0.trees@[k]).tents@.len() >= 1 by {
                        assert(tree_tents(lay, k).len() >= 1);
                    }
                    assert forall|r: int| 0 <= r < lay.max_row implies #[trigger] g0.tents_in_rows@[r] == 0
                        || g0.tents_in_rows@[r] == row_count(g0.tents_map@.map_values(|v: Vec<usize>| v@), lay.max_column as int, r, lay.max_column as int) by {
                        assert(lay.rows[r] == 0 || lay.rows[r] == lay_row_count(lay, r, lay.max_column as int));
                    }
                    assert forall|c: int| 0 <= c < lay.max_column implies #[trigger] g0.tents_in_columns@[c] == 0
                        || g0.tents_in_columns@[c] == col_count(g0.tents_map@.map_values(|v: Vec<usize>| v@), lay.max_column as int, c, lay.max_row as int) by {
                        assert(lay.cols[c] == 0 || lay.cols[c] == lay_col_count(lay, c, lay.max_row as int));
                    }
                }
            }
        }
        let ghost gpre = this.game;
        proof { assert(gpre == g0); }
        match this.ensure_tent_qty_pools() {
            Some(()) => {},
            None => {
                proof {
                    assert(!encodable(g0));
                }
                return None;
            },
        }
        this.header = (this.game.variables_qty, this.clauses_qty);
        proof {
            assert(none_adjacent_spec(this.game) == none_adjacent_spec(g0));
            assert(this.game.trees == g0.trees);
            lemma_lines_same(g0, this.game, g0.max_row + g0.max_column, g0.variables_qty as nat);
            lemma_flags_same(g0, this.game, g0.max_row + g0.max_column, g0.variables_qty as nat);
            let t = trees_clauses(g0.trees@, g0.trees@.len() as int);
            assert(Seq::new(c1.len(), |i: int| false) + Seq::new(t.len(), |i: int| false)
                =~= Seq::new((c1 + t).len(), |i: int| false));
        }
        Some(this)
    }
}

/// Does some tent variable of the cell's list hold?
pub open spec fn holds_tent(tv: Seq<bool>, cell: Seq<usize>) -> bool {
    exists|j: int| 0 <= j < cell.len() && #[trigger] tv[cell[j] - 1]
}

/// The cells among the first `q` (row by row) that hold a tent.
pub open spec fn tent_cells(m: Seq<Seq<usize>>, mc: int, tv: Seq<bool>, q: int) -> Seq<(usize, usize)>
    decreases q,
{
    if q <= 0 {
        Seq::empty()
    } else {
        tent_cells(m, mc, tv, q - 1) + if holds_tent(tv, m[q - 1]) { seq![(((q - 1) / mc) as usize, ((q - 1) % mc) as usize)] } else { Seq::empty() }
    }
}

/// The index of the token of cell `(r, c)`.
pub open spec fn token_index(mc: int, r: int, c: int) -> int {
    2 + (mc + 1) * r + c
}

/// The indices, in order, of the first `i` clauses that `tv` does not satisfy.
pub open spec fn unsat_upto(cs: Seq<Seq<Lit>>, tv: Seq<bool>, i: int) -> Seq<usize>
    decreases i,
{
    if i <= 0 {
        Seq::empty()
    } else {
        unsat_upto(cs, tv, i - 1) + if !clause_sat(tv, cs[i - 1]) { seq![(i - 1) as usize] } else { Seq::empty() }
    }
}

/// Is `i` the index of a grid cell's token in a grid of `mr` rows and `mc`
/// columns (each row followed by its count)?
pub open spec fn is_token(mc: int, mr: int, i: int) -> bool {
    2 <= i < 2 + (mc + 1) * mr && (i - 2) % (mc + 1) < mc
}

/// Cell `(r, c)` has a token index, and it is one.
pub proof fn lemma_token_index(mc: int, mr: int, r: int, c: int)
    requires
        0 <= r < mr,
        0 <= c < mc,
    ensures
        is_token(mc, mr, token_index(mc, r, c)),
        token_index(mc, r, c) < 2 + (mc + 1) * mr,
{
    let i = token_index(mc, r, c);
    assert(i - 2 == r * (mc + 1) + c) by (nonlinear_arith) requires i == 2 + (mc + 1) * r + c;
    vstd::arithmetic::div_mod::lemma_fundamental_div_mod_converse(i - 2, mc + 1, r, c);
    assert((mc + 1) * r + c < (mc + 1) * mr) by (nonlinear_arith) requires 0 <= r < mr, 0 <= c < mc;
}

/// Distinct cells have distinct token indices.
pub proof fn lemma_token_distinct(mc: int, r1: int, c1: int, r2: int, c2: int)
    requires
        0 <= r1,
        0 <= r2,
        0 <= c1 < mc,
        0 <= c2 < mc,
        token_index(mc, r1, c1) == token_index(mc, r2, c2),
    ensures
        r1 == r2 && c1 == c2,
{
    let x = (mc + 1) * r1 + c1;
    assert(x == r1 * (mc + 1) + c1) by (nonlinear_arith) requires x == (mc + 1) * r1 + c1;
    assert(x == r2 * (mc + 1) + c2) by (nonlinear_arith) requires x == (mc + 1) * r2 + c2;
    vstd::arithmetic::div_mod::lemma_fundamental_div_mod_converse(x, mc + 1, r1, c1);
    vstd::arithmetic::div_mod::lemma_fundamental_div_mod_converse(x, mc + 1, r2, c2);
}

/// The clause that excludes the assignment `tv`, as written: each value
/// gives the literal of variable 1, negated when the value is true.
pub open spec fn unique_clause(tv: Seq<bool>) -> Seq<Lit> {
    Seq::new(tv.len(), |i: int| tlit(tv[i], 1))
}

impl SatMaker {
    /// The CNF text: the problem line as fixed when the encoding was made,
    /// then the clauses.
    pub fn text(&self) -> (r: Vec<u8>)
        ensures
            r@ == header_text(self.header.0 as nat, self.header.1 as nat)
                + spaced_cnf_text(clauses_view(self.clauses@), self.spaced_view()),
    {
        let mut out: Vec<u8> = Vec::new();
        push_header(&mut out, self.header.0 as u128, self.header.1 as u128);
        let ghost h = out@;
        let ghost cs = clauses_view(self.clauses@);
        let ghost fl = self.spaced_view();
        let mut i: usize = 0;
        while i < self.clauses.len()
            invariant
                i <= self.clauses@.len(),
                cs == clauses_view(self.clauses@),
                fl == self.spaced_view(),
                out@ == h + spaced_cnf_text(cs.take(i as int), fl),
            decreases self.clauses@.len() - i,
        {
            if i < self.spaced.len() && self.spaced[i] {
                out.push(32);
            }
            push_clause(&mut out, &self.clauses[i]);
            proof {
                let t = cs.take(i + 1);
                assert(t.drop_last() =~= cs.take(i as int));
                assert(t.last() == self.clauses@[i as int]@);
                assert(fl[i as int] == (i < self.spaced@.len() && self.spaced@[i as int]));
                assert(out@ =~= h + spaced_cnf_text(t, fl));
            }
            i += 1;
        }
        proof { assert(cs.take(i as int) =~= cs); }
        out
    }

    /// The assignment in a solver's output for the encoding's variables.
    pub fn convert_to_true(&self, res: &str) -> (r: Option<Vec<bool>>)
        ensures
            match r {
                Some(a) => model_of(res@, self.game.variables_qty as nat) == Some(a@),
                None => model_of(res@, self.game.variables_qty as nat) is None,
            },
    {
        read_model(res, self.game.variables_qty)
    }

    /// Takes in the assignment read from a solver's output: keeps it, marks
    /// every cell that holds a true tent variable with `X` among the
    /// puzzle's tokens, and returns those cells row by row. `None` where the
    /// output names a variable beyond the encoding's, a cell's variable is
    /// not in the assignment, or the tokens lack the column counts.
    pub fn read_solution(&mut self, res: &str) -> (r: Option<Vec<(usize, usize)>>)
        requires
            old(self).game.tents_map@.len() == old(self).game.max_row * old(self).game.max_column,
        ensures
            match r {
                Some(cells) => {
                    let tv = final(self).truth_values@;
                    let m = old(self).game.tents_map@.map_values(|v: Vec<usize>| v@);
                    let mc = old(self).game.max_column as int;
                    let mr = old(self).game.max_row as int;
                    &&& model_of(res@, old(self).game.variables_qty as nat) == Some(tv)
                    &&& (mc + 1) * mr + 2 + mc <= old(self).game.content@.len()
                    &&& forall|q: int, j: int| 0 <= q < m.len() && 0 <= j < m[q].len() ==> 1 <= #[trigger] m[q][j] <= old(self).game.variables_qty
                    &&& cells@ == tent_cells(m, mc, tv, m.len() as int)
                    &&& final(self).game.content@.len() == old(self).game.content@.len()
                    &&& forall|q: int| 0 <= q < m.len() ==> #[trigger] final(self).game.content@[token_index(mc, q / mc, q % mc)]@
                        == if holds_tent(tv, m[q]) { seq!['X'] } else { old(self).game.content@[token_index(mc, q / mc, q % mc)]@ }
                    &&& forall|i: int| 0 <= i < old(self).game.content@.len() && !is_token(mc, mr, i)
                        ==> #[trigger] final(self).game.content@[i] == old(self).game.content@[i]
                    &&& final(self).clauses == old(self).clauses
                    &&& final(self).header == old(self).header
                    &&& final(self).spaced == old(self).spaced
                    &&& final(self).clauses_qty == old(self).clauses_qty
                },
                None => ({
                    let m = old(self).game.tents_map@.map_values(|v: Vec<usize>| v@);
                    let mc = old(self).game.max_column as int;
                    let mr = old(self).game.max_row as int;
                    ||| model_of(res@, old(self).game.variables_qty as nat) is None
                    ||| (mc + 1) * mr + 2 + mc > old(self).game.content@.len()
                    ||| exists|q: int, j: int| 0 <= q < m.len() && 0 <= j < m[q].len()
                        && !(1 <= #[trigger] m[q][j] <= old(self).game.variables_qty)
                }),
            },
    {
        let tv = match self.convert_to_true(res) {
            Some(a) => a,
            None => return None,
        };
        proof { crate::cnf::lemma_model_len(words(res@), words(res@).len() as int, self.game.variables_qty as nat); }
        self.truth_values = tv;
        let mr = self.game.max_row;
        let mc = self.game.max_column;
        let cells = self.game.tents_map.len();
        let clen = self.game.content.len();
        proof {
            assert((mc as u128 + 1) * (mr as u128) <= 0x1_0000_0000_0000_0000u128 * 0xffff_ffff_ffff_ffffu128) by (nonlinear_arith)
                requires mc as u128 + 1 <= 0x1_0000_0000_0000_0000u128, mr <= 0xffff_ffff_ffff_ffffu128;
        }
        let need: u128 = match ((mc as u128 + 1) * (mr as u128)).checked_add(2 + mc as u128) {
            Some(x) => x,
            None => return None,
        };
        if need > clen as u128 {
            return None;
        }
        let ghost s0 = *self;
        let ghost m = self.game.tents_map@.map_values(|v: Vec<usize>| v@);
        let ntv = self.truth_values.len();
        let mut tent_pos: Vec<(usize, usize)> = Vec::new();
        let mut q: usize = 0;
        while q < cells
            invariant
                cells == mr * mc,
                cells == self.game.tents_map@.len(),
                m == self.game.tents_map@.map_values(|v: Vec<usize>| v@),
                mr == self.game.max_row,
                mc == self.game.max_column,
                (mc + 1) * mr + 2 + mc <= clen,
                clen == self.game.content@.len(),
                ntv == self.truth_values@.len(),
                q <= cells,
                self.truth_values == s0.truth_values,
                self.clauses == s0.clauses,
                self.header == s0.header,
                self.spaced == s0.spaced,
                self.clauses_qty == s0.clauses_qty,
                self.game.tents_map == s0.game.tents_map,
                self.game.max_column == s0.game.max_column,
                self.game.max_row == s0.game.max_row,
                s0.game.content@.len() == clen,
                s0.game == old(self).game,
                ntv == old(self).game.variables_qty,
                forall|p: int, j: int| 0 <= p < q && 0 <= j < m[p].len() ==> 1 <= #[trigger] m[p][j] <= ntv,
                tent_pos@ == tent_cells(m, mc as int, self.truth_values@, q as int),
                forall|p: int| 0 <= p < cells ==> #[trigger] self.game.content@[token_index(mc as int, p / mc as int, p % mc as int)]@
                    == if p < q && holds_tent(self.truth_values@, m[p]) { seq!['X'] } else { s0.game.content@[token_index(mc as int, p / mc as int, p % mc as int)]@ },
                forall|i: int| 0 <= i < clen && !is_token(mc as int, mr as int, i) ==> #[trigger] self.game.content@[i] == s0.game.content@[i],
            decreases cells - q,
        {
            proof {
                if mc == 0 { assert(mr * mc == 0) by (nonlinear_arith) requires mc == 0; }
            }
            let row = q / mc;
            let column = q % mc;
            proof {
                vstd::arithmetic::div_mod::lemma_fundamental_div_mod(q as int, mc as int);
                assert(row < mr) by (nonlinear_arith)
                    requires q == mc * row + column, q < mr * mc, 0 <= column, mc > 0;
                assert((mc + 1) * row + column + 2 < (mc + 1) * mr + 2) by (nonlinear_arith)
                    requires row < mr, column < mc;
            }
            let tok = 2 + (mc + 1) * row + column;
            let mut is_tent = false;
            let mut j: usize = 0;
            proof { assert(m[q as int] == self.game.tents_map@[q as int]@); }
            while j < self.game.tents_map[q].len()
                invariant
                    q < cells,
                    cells == self.game.tents_map@.len(),
                    m == self.game.tents_map@.map_values(|v: Vec<usize>| v@),
                    m == old(self).game.tents_map@.map_values(|v: Vec<usize>| v@),
                    ntv == old(self).game.variables_qty,
                    m[q as int] == self.game.tents_map@[q as int]@,
                    ntv == self.truth_values@.len(),
                    j <= m[q as int].len(),
                    forall|t: int| 0 <= t < j ==> 1 <= #[trigger] m[q as int][t] <= ntv,
                    is_tent <==> exists|t: int| 0 <= t < j && #[trigger] self.truth_values@[m[q as int][t] - 1],
                decreases m[q as int].len() - j,
            {
                let t = self.game.tents_map[q][j];
                if t == 0 || t > ntv {
                    proof {
                        assert(m[q as int][j as int] == t);
                        assert(!(1 <= m[q as int][j as int] <= old(self).game.variables_qty));
                    }
                    return None;
                }
                if self.truth_values[t - 1] {
                    is_tent = true;
                }
                j += 1;
            }
            proof {
                assert(is_tent == holds_tent(self.truth_values@, m[q as int]));
            }
            let ghost cb = self.game.content@;
            if is_tent {
                let mut x: Vec<char> = Vec::new();
                x.push('X');
                proof { assert(x@ =~= seq!['X']); }
                self.game.content.set(tok, x);
                tent_pos.push((row, column));
            }
            proof {
                assert(tok == token_index(mc as int, row as int, column as int));
                assert((q as int) / (mc as int) == row && (q as int) % (mc as int) == column);
            }
            proof {
                assert(tent_pos@ =~= tent_cells(m, mc as int, self.truth_values@, q + 1));
                lemma_token_index(mc as int, mr as int, row as int, column as int);
                assert forall|p: int| 0 <= p < cells implies #[trigger] self.game.content@[token_index(mc as int, p / mc as int, p % mc as int)]@
                    == if p < q + 1 && holds_tent(self.truth_values@, m[p]) { seq!['X'] } else { s0.game.content@[token_index(mc as int, p / mc as int, p % mc as int)]@ } by {
                    vstd::arithmetic::div_mod::lemma_fundamental_div_mod(p, mc as int);
                    vstd::arithmetic::div_mod::lemma_mod_pos_bound(p, mc as int);
                    vstd::arithmetic::div_mod::lemma_div_pos_is_pos(p, mc as int);
                    if p != q && token_index(mc as int, p / mc as int, p % mc as int) == token_index(mc as int, row as int, column as int) {
                        lemma_token_distinct(mc as int, p / mc as int, p % mc as int, row as int, column as int);
                        assert(p == mc * row + column);
                    }
                    if p == q {
                        assert(token_index(mc as int, p / mc as int, p % mc as int) == tok);
                        if is_tent {
                            assert(self.game.content@[tok as int]@ == seq!['X']);
                        } else {
                            assert(self.game.content@[tok as int] == cb[tok as int]);
                        }
                    } else {
                        assert((p / (mc as int)) < mr) by (nonlinear_arith)
                            requires p == mc * (p / (mc as int)) + (p % (mc as int)), p < mr * mc, 0 <= (p % (mc as int)), mc > 0;
                        lemma_token_index(mc as int, mr as int, p / mc as int, p % mc as int);
                        assert(token_index(mc as int, p / mc as int, p % mc as int) != tok);
                        assert(self.game.content@[token_index(mc as int, p / mc as int, p % mc as int)] == cb[token_index(mc as int, p / mc as int, p % mc as int)]);
                    }
                }
                assert forall|i: int| 0 <= i < clen && !is_token(mc as int, mr as int, i) implies #[trigger] self.game.content@[i] == s0.game.content@[i] by {
                    if is_tent { assert(i != tok); }
                }
            }
            q += 1;
        }
        Some(tent_pos)
    }

    /// Adds the clause that excludes the current assignment (see
    /// [`unique_clause`]), written with a leading space; the problem line is
    /// left as it was.
    pub fn unique_check(&mut self)
        requires
            old(self).counted(),
        ensures
            final(self).counted(),
            clauses_view(final(self).clauses@) == clauses_view(old(self).clauses@).push(unique_clause(old(self).truth_values@)),
            final(self).header == old(self).header,
            final(self).spaced_view() == old(self).spaced_view().push(true),
            final(self).game == old(self).game,
            final(self).truth_values == old(self).truth_values,
    {
        let mut c: Vec<Lit> = Vec::new();
        let mut i: usize = 0;
        while i < self.truth_values.len()
            invariant
                i <= self.truth_values@.len(),
                c@ == unique_clause(self.truth_values@.take(i as int)),
            decreases self.truth_values@.len() - i,
        {
            c.push((self.truth_values[i], 1));
            proof { assert(c@ =~= unique_clause(self.truth_values@.take(i + 1))); }
            i += 1;
        }
        proof { assert(self.truth_values@.take(i as int) =~= self.truth_values@); }
        let ghost sv0 = self.spaced_view();
        self.add_clause(c);
        proof { lemma_spaced_grow(self.spaced@, (self.clauses@.len() - 1) as nat, self.clauses@.len()); }
        self.mark_last_spaced();
        proof { assert(self.spaced_view() =~= sv0.push(true)); }
    }

    /// The indices of the clauses that the assignment does not satisfy.
    /// `None` where a clause names a variable outside the assignment.
    pub fn find_unsat_clause(&self) -> (r: Option<Vec<usize>>)
        ensures
            match r {
                Some(ix) => ix@ == unsat_upto(clauses_view(self.clauses@), self.truth_values@, self.clauses@.len() as int),
                None => exists|i: int, j: int| 0 <= i < self.clauses@.len() && 0 <= j < self.clauses@[i]@.len()
                    && !(1 <= #[trigger] self.clauses@[i]@[j].1 <= self.truth_values@.len()),
            },
    {
        let ghost cs = clauses_view(self.clauses@);
        let mut out: Vec<usize> = Vec::new();
        let n = self.truth_values.len();
        let mut i: usize = 0;
        while i < self.clauses.len()
            invariant
                cs == clauses_view(self.clauses@),
                n == self.truth_values@.len(),
                i <= self.clauses@.len(),
                out@ == unsat_upto(cs, self.truth_values@, i as int),
            decreases self.clauses@.len() - i,
        {
            let c = &self.clauses[i];
            proof { assert(cs[i as int] == c@); }
            let mut is_true = false;
            let mut j: usize = 0;
            while j < c.len()
                invariant
                    n == self.truth_values@.len(),
                    i < self.clauses@.len(),
                    c == self.clauses@[i as int],
                    j <= c@.len(),
                    is_true <==> exists|t: int| 0 <= t < j && lit_true(self.truth_values@, #[trigger] c@[t]),
                decreases c@.len() - j,
            {
                let x = c[j].1;
                if x < 1 || x > n as i128 {
                    proof { assert(!(1 <= self.clauses@[i as int]@[j as int].1 <= self.truth_values@.len())); }
                    return None;
                }
                let v = self.truth_values[(x - 1) as usize];
                if v != c[j].0 {
                    is_true = true;
                }
                proof {
                    if v != c@[j as int].0 { assert(lit_true(self.truth_values@, c@[j as int])); }
                    if !is_true {
                        assert forall|t: int| 0 <= t < j + 1 implies !lit_true(self.truth_values@, #[trigger] c@[t]) by {
                            if t == j { assert(self.truth_values@[x - 1] == v); }
                        }
                    }
                }
                j += 1;
            }
            proof { assert(is_true == clause_sat(self.truth_values@, c@)); }
            if !is_true {
                out.push(i);
            }
            proof { assert(out@ =~= unsat_upto(cs, self.truth_values@, i + 1)); }
            i += 1;
        }
        Some(out)
    }
}

impl SatMaker {
    /// The variables of a line's cells, in order: row `line` when `by_row`,
    /// else column `line`.
    fn line_numbers(&self, line: usize, by_row: bool) -> (r: Vec<usize>)
        requires
            self.game.tents_map@.len() == self.game.max_row * self.game.max_column,
            by_row ==> line < self.game.max_row,
            !by_row ==> line < self.game.max_column,
        ensures
            r@ == line_numbers_spec(self.game.tents_map@.map_values(|v: Vec<usize>| v@), self.game.max_column as int, line as int, by_row,
                if by_row { self.game.max_column as int } else { self.game.max_row as int }),
    {
        let ghost m = self.game.tents_map@.map_values(|v: Vec<usize>| v@);
        let mr = self.game.max_row;
        let mc = self.game.max_column;
        let n = if by_row { mc } else { mr };
        let cells = self.game.tents_map.len();
        let mut out: Vec<usize> = Vec::new();
        let mut k: usize = 0;
        while k < n
            invariant
                cells == self.game.tents_map@.len(),
                self.game.tents_map@.len() == mr * mc,
                mr == self.game.max_row,
                mc == self.game.max_column,
                n == if by_row { mc } else { mr },
                by_row ==> line < mr,
                !by_row ==> line < mc,
                k <= n,
                m == self.game.tents_map@.map_values(|v: Vec<usize>| v@),
                out@ == line_numbers_spec(m, mc as int, line as int, by_row, k as int),
            decreases n - k,
        {
            proof {
                if by_row {
                    assert(line * mc + k < mr * mc) by (nonlinear_arith) requires line < mr, k < mc;
                } else {
                    assert(k * mc + line < mr * mc) by (nonlinear_arith) requires k < mr, line < mc;
                }
            }
            let idx = if by_row { line * mc + k } else { k * mc + line };
            proof { assert(m[idx as int] == self.game.tents_map@[idx as int]@); }
            let ghost ob = out@;
            let mut j: usize = 0;
            while j < self.game.tents_map[idx].len()
                invariant
                    idx < self.game.tents_map@.len(),
                    j <= self.game.tents_map@[idx as int]@.len(),
                    out@ == ob + self.game.tents_map@[idx as int]@.take(j as int),
                decreases self.game.tents_map@[idx as int]@.len() - j,
            {
                out.push(self.game.tents_map[idx][j]);
                proof { assert(out@ =~= ob + self.game.tents_map@[idx as int]@.take(j + 1)); }
                j += 1;
            }
            proof {
                assert(self.game.tents_map@[idx as int]@.take(j as int) =~= self.game.tents_map@[idx as int]@);
                assert(out@ =~= line_numbers_spec(m, mc as int, line as int, by_row, k + 1));
            }
            k += 1;
        }
        out
    }

    /// Exactly one tent per tree, and each row's and column's count over
    /// the variables of its cells (see [`exactly_n_spec`]). `None` where a
    /// tree has no tent cell, a count is missing, or a count exceeds the
    /// line's variables.
    fn ensure_tent_qty(&mut self) -> (r: Option<()>)
        requires
            old(self).counted(),
            old(self).game.tents_map@.len() == old(self).game.max_row * old(self).game.max_column,
        ensures
            r is None <==> !trees_have_tents(old(self).game)
                || qty_lines_spec(old(self).game, old(self).game.max_row + old(self).game.max_column) is None,
            r is Some ==> {
                &&& final(self).counted()
                &&& final(self).header == old(self).header
                &&& final(self).spaced == old(self).spaced
                &&& final(self).game == old(self).game
                &&& final(self).truth_values == old(self).truth_values
                &&& match qty_lines_spec(old(self).game, old(self).game.max_row + old(self).game.max_column) {
                    Some(cs) => clauses_view(final(self).clauses@) == clauses_view(old(self).clauses@)
                        + trees_clauses(old(self).game.trees@, old(self).game.trees@.len() as int) + cs,
                    None => false,
                }
            },
    {
        let ghost s0 = *self;
        self.trees_exactly_one()?;
        let ghost c1 = clauses_view(self.clauses@);
        proof { assert(c1 + Seq::<Seq<Lit>>::empty() =~= c1); }
        let mr = self.game.max_row;
        let mc = self.game.max_column;
        let mut pass: usize = 0;
        while pass < 2
            invariant
                s0 == *old(self),
                c1 == clauses_view(s0.clauses@) + trees_clauses(s0.game.trees@, s0.game.trees@.len() as int),
                mr == s0.game.max_row,
                mc == s0.game.max_column,
                s0.game.tents_map@.len() == mr * mc,
                pass <= 2,
                self.counted(),
                self.header == s0.header,
                self.spaced == s0.spaced,
                self.game == s0.game,
                self.truth_values == s0.truth_values,
                match qty_lines_spec(s0.game, if pass == 0 { 0 } else if pass == 1 { mr as int } else { mr + mc }) {
                    Some(cs) => clauses_view(self.clauses@) == c1 + cs,
                    None => false,
                },
            decreases 2 - pass,
        {
            let by_row = pass == 0;
            let n = if by_row { mr } else { mc };
            let ghost base: int = if by_row { 0 } else { mr as int };
            let mut idx: usize = 0;
            while idx < n
                invariant
                    s0 == *old(self),
                    c1 == clauses_view(s0.clauses@) + trees_clauses(s0.game.trees@, s0.game.trees@.len() as int),
                    mr == s0.game.max_row,
                    mc == s0.game.max_column,
                    s0.game.tents_map@.len() == mr * mc,
                    pass < 2,
                    by_row == (pass == 0),
                    base == if by_row { 0 } else { mr as int },
                    n == if by_row { mr } else { mc },
                    idx <= n,
                    self.counted(),
                    self.header == s0.header,
                    self.spaced == s0.spaced,
                    self.game == s0.game,
                    self.truth_values == s0.truth_values,
                    match qty_lines_spec(s0.game, base + idx) {
                        Some(cs) => clauses_view(self.clauses@) == c1 + cs,
                        None => false,
                    },
                decreases n - idx,
            {
                let nums = self.line_numbers(idx, by_row);
                let counts_len = if by_row { self.game.tents_in_rows.len() } else { self.game.tents_in_columns.len() };
                if idx >= counts_len {
                    proof { lemma_qty_lines_fail(s0.game, base + idx + 1, mr + mc); }
                    return None;
                }
                let count = if by_row { self.game.tents_in_rows[idx] } else { self.game.tents_in_columns[idx] };
                if count > nums.len() {
                    proof { lemma_qty_lines_fail(s0.game, base + idx + 1, mr + mc); }
                    return None;
                }
                if count == usize::MAX || nums.len() - count == usize::MAX {
                    proof { lemma_qty_lines_fail(s0.game, base + idx + 1, mr + mc); }
                    return None;
                }
                self.exactly_n(count, nums);
                idx += 1;
            }
            pass += 1;
        }
        Some(())
    }
}

} // verus!
