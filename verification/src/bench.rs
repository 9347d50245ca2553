//! The bookkeeping of a benchmark run: which family a problem file belongs
//! to, the cumulative solving times, and the solution line.
use vstd::prelude::*;
use crate::cnf::{number_text, push_number};
use crate::text::str_chars;

verus! {

/// Does `pat` occur in `s` at position `i`?
pub open spec fn occurs_at(s: Seq<char>, pat: Seq<char>, i: int) -> bool {
    0 <= i && i + pat.len() <= s.len() && s.subrange(i, i + pat.len() as int) == pat
}

/// Does `pat` occur in `s`?
pub open spec fn occurs(s: Seq<char>, pat: Seq<char>) -> bool {
    exists|i: int| occurs_at(s, pat, i)
}

/// Does `pat` occur in `s`?
pub fn contains_text(s: &Vec<char>, pat: &Vec<char>) -> (r: bool)
    ensures
        r == occurs(s@, pat@),
{
    let n = s.len();
    let m = pat.len();
    if m > n {
        proof {
            assert forall|k: int| !occurs_at(s@, pat@, k) by {}
        }
        return false;
    }
    let mut i: usize = 0;
    while i <= n - m
        invariant
            n == s@.len(),
            m == pat@.len(),
            m <= n,
            i <= n - m + 1,
            forall|k: int| 0 <= k < i ==> !occurs_at(s@, pat@, k),
        decreases n - m + 1 - i,
    {
        let mut j: usize = 0;
        let mut same = true;
        while j < m && same
            invariant
                n == s@.len(),
                m == pat@.len(),
                i + m <= n,
                j <= m,
                same <==> forall|t: int| 0 <= t < j ==> s@[i + t] == pat@[t],
            decreases m - j,
        {
            if s[i + j] != pat[j] {
                same = false;
            }
            j += 1;
        }
        if same {
            proof {
                assert(s@.subrange(i as int, i + m) =~= pat@);
                assert(occurs_at(s@, pat@, i as int));
            }
            return true;
        }
        proof {
            let t = choose|t: int| 0 <= t < j && s@[i + t] != pat@[t];
            assert(s@.subrange(i as int, i + m)[t] != pat@[t]);
        }
        i += 1;
    }
    proof {
        assert forall|k: int| !occurs_at(s@, pat@, k) by {
            if occurs_at(s@, pat@, k) { assert(k < i); }
        }
    }
    false
}

/// The benchmark families, in the order in which a path is matched.
pub open spec fn family_names() -> Seq<Seq<char>> {
    seq![seq!['a', 'i', 'm'], seq!['i', 'i'], seq!['p', 'a', 'r'], seq!['s', 's', 'a'],
        seq!['u', 'f', '5', '0'], seq!['h', 'o', 'l', 'e'], seq!['p', 'r', 'e', 't']]
}

/// The first family whose name occurs in the path, if any.
pub open spec fn family_spec(path: Seq<char>, k: int) -> Option<usize>
    decreases 7 - k,
{
    if k < 0 || k >= 7 {
        None
    } else if occurs(path, family_names()[k]) {
        Some(k as usize)
    } else {
        family_spec(path, k + 1)
    }
}

/// The family of a problem file (see [`family_spec`]): `aim`, `ii`, `par`,
/// `ssa`, `uf50`, `hole` or `pret`, as the index `0` to `6`.
pub fn family(path: &str) -> (r: Option<usize>)
    ensures
        r == family_spec(path@, 0),
{
    let chars = str_chars(path);
    let names: Vec<Vec<char>> = vec![vec!['a', 'i', 'm'], vec!['i', 'i'], vec!['p', 'a', 'r'], vec!['s', 's', 'a'],
        vec!['u', 'f', '5', '0'], vec!['h', 'o', 'l', 'e'], vec!['p', 'r', 'e', 't']];
    proof {
        assert(names@.len() == 7);
        assert forall|k: int| 0 <= k < 7 implies #[trigger] names@[k]@ == family_names()[k] by {
            assert(names@[0]@ =~= family_names()[0]);
            assert(names@[1]@ =~= family_names()[1]);
            assert(names@[2]@ =~= family_names()[2]);
            assert(names@[3]@ =~= family_names()[3]);
            assert(names@[4]@ =~= family_names()[4]);
            assert(names@[5]@ =~= family_names()[5]);
            assert(names@[6]@ =~= family_names()[6]);
        }
    }
    let mut k: usize = 0;
    while k < 7
        invariant
            chars@ == path@,
            names@.len() == 7,
            forall|q: int| 0 <= q < 7 ==> #[trigger] names@[q]@ == family_names()[q],
            k <= 7,
            family_spec(path@, 0) == family_spec(path@, k as int),
        decreases 7 - k,
    {
        if contains_text(&chars, &names[k]) {
            return Some(k);
        }
        k += 1;
    }
    None
}

/// The running sums of the first `k` times.
pub open spec fn prefix_sum(t: Seq<i32>, k: int) -> int
    decreases k,
{
    if k <= 0 { 0 } else { prefix_sum(t, k - 1) + t[k - 1] }
}

/// Appends `(i, s_i / 1000)` for each time, where `s_i` is the sum of the
/// times up to and including the `i`-th. The times are durations (not
/// negative) whose running sums fit in an `i32`.
pub fn sum_time(time_vec: Vec<i32>, tup_vec: &mut Vec<(i32, i32)>)
    requires
        time_vec@.len() <= i32::MAX + 1,
        forall|k: int| 0 <= k < time_vec@.len() ==> #[trigger] time_vec@[k] >= 0,
        forall|k: int| 0 <= k <= time_vec@.len() ==> #[trigger] prefix_sum(time_vec@, k) <= i32::MAX,
    ensures
        final(tup_vec)@.len() == old(tup_vec)@.len() + time_vec@.len(),
        final(tup_vec)@.take(old(tup_vec)@.len() as int) == old(tup_vec)@,
        forall|i: int| 0 <= i < time_vec@.len() ==> #[trigger] final(tup_vec)@[old(tup_vec)@.len() + i]
            == (i as i32, (prefix_sum(time_vec@, i + 1) / 1000) as i32),
{
    let ghost t0 = tup_vec@;
    let mut total_time: i32 = 0;
    let mut i: usize = 0;
    while i < time_vec.len()
        invariant
            time_vec@.len() <= i32::MAX + 1,
            forall|k: int| 0 <= k < time_vec@.len() ==> #[trigger] time_vec@[k] >= 0,
            forall|k: int| 0 <= k <= time_vec@.len() ==> #[trigger] prefix_sum(time_vec@, k) <= i32::MAX,
            total_time >= 0,
            i <= time_vec@.len(),
            total_time == prefix_sum(time_vec@, i as int),
            tup_vec@.len() == t0.len() + i,
            tup_vec@.take(t0.len() as int) == t0,
            forall|q: int| 0 <= q < i ==> #[trigger] tup_vec@[t0.len() + q] == (q as i32, (prefix_sum(time_vec@, q + 1) / 1000) as i32),
        decreases time_vec@.len() - i,
    {
        proof {
            assert(prefix_sum(time_vec@, i + 1) <= i32::MAX);
            assert(time_vec@[i as int] >= 0);
        }
        total_time = total_time + time_vec[i];
        let ghost tb = tup_vec@;
        tup_vec.push((i as i32, total_time / 1000));
        proof {
            assert(tup_vec@.take(t0.len() as int) =~= tb.take(t0.len() as int));
            assert forall|q: int| 0 <= q < i + 1 implies #[trigger] tup_vec@[t0.len() + q] == (q as i32, (prefix_sum(time_vec@, q + 1) / 1000) as i32) by {
                if q < i { assert(tup_vec@[t0.len() + q] == tb[t0.len() + q]); }
            }
        }
        i += 1;
    }
}

/// The solution line: `s SATISFIABLE`, then `v` followed by each literal and `0`.
pub open spec fn solution_spec(sol: Seq<i32>) -> Seq<u8>
    decreases sol.len(),
{
    if sol.len() == 0 {
        seq![115u8, 32u8, 83u8, 65u8, 84u8, 73u8, 83u8, 70u8, 73u8, 65u8, 66u8, 76u8, 69u8, 10u8, 118u8]
    } else {
        solution_spec(sol.drop_last()) + seq![32u8] + number_text(sol.last() as int)
    }
}

/// The text printed for a satisfying assignment (see [`solution_spec`]).
pub fn solution_text(sol: &Vec<i32>) -> (r: Vec<u8>)
    ensures
        r@ == solution_spec(sol@) + seq![32u8, 48u8],
{
    let mut out: Vec<u8> = Vec::new();
    let head: [u8; 15] = [115, 32, 83, 65, 84, 73, 83, 70, 73, 65, 66, 76, 69, 10, 118];
    let mut k: usize = 0;
    while k < 15
        invariant
            k <= 15,
            out@ == head@.take(k as int),
        decreases 15 - k,
    {
        out.push(head[k]);
        proof { assert(out@ =~= head@.take(k + 1)); }
        k += 1;
    }
    proof { assert(out@ =~= solution_spec(sol@.take(0))); }
    let mut i: usize = 0;
    while i < sol.len()
        invariant
            i <= sol@.len(),
            out@ == solution_spec(sol@.take(i as int)),
        decreases sol@.len() - i,
    {
        out.push(32);
        push_number(&mut out, sol[i] as i128);
        proof {
            assert(sol@.take(i + 1).drop_last() =~= sol@.take(i as int));
            assert(out@ =~= solution_spec(sol@.take(i + 1)));
        }
        i += 1;
    }
    proof { assert(sol@.take(i as int) =~= sol@); }
    out.push(32);
    out.push(48);
    out
}

} // verus!
