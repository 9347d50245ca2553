//! In-place insertion sorts, for signed literals and for scored literal entries.
use vstd::prelude::*;

verus! {

/// Exchanging two positions keeps the multiset of a sequence.
pub proof fn lemma_swap_keeps_multiset<A>(s: Seq<A>, i: int, j: int)
    requires
        0 <= i < s.len(),
        0 <= j < s.len(),
    ensures
        s.update(i, s[j]).update(j, s[i]).to_multiset() == s.to_multiset(),
{
    broadcast use vstd::seq_lib::to_multiset_update;
    broadcast use vstd::seq_lib::to_multiset_contains;
    broadcast use vstd::multiset::group_multiset_properties;
    broadcast use vstd::multiset::group_multiset_axioms;
    let m = s.to_multiset();
    let s1 = s.update(i, s[j]);
    let m1 = s1.to_multiset();
    assert(m1 == m.insert(s[j]).remove(s[i]));
    assert(s1[j] == s[j]);
    let s2 = s1.update(j, s[i]);
    assert(s2.to_multiset() == m1.insert(s[i]).remove(s[j]));
    assert(s.contains(s[i]));
    assert(m.count(s[i]) > 0);
    assert forall|x: A| #[trigger] s2.to_multiset().count(x) == m.count(x) by {
        if x == s[i] && x == s[j] {
        } else if x == s[i] {
        } else if x == s[j] {
        } else {
        }
    }
    assert(s2.to_multiset() =~= m);
}

/// Is the sequence in non-decreasing order?
pub open spec fn sorted_i32(s: Seq<i32>) -> bool {
    forall|a: int, b: int| 0 <= a < b < s.len() ==> s[a] <= s[b]
}

/// Sorts a vector of `i32` into non-decreasing order.
pub fn sort_i32(v: &mut Vec<i32>)
    ensures
        sorted_i32(final(v)@),
        final(v)@.to_multiset() == old(v)@.to_multiset(),
        final(v)@.len() == old(v)@.len(),
{
    let n = v.len();
    if n == 0 {
        return;
    }
    let mut i: usize = 1;
    while i < n
        invariant
            1 <= i <= n,
            v@.len() == n,
            v@.to_multiset() == old(v)@.to_multiset(),
            forall|a: int, b: int| 0 <= a < b < i ==> v@[a] <= v@[b],
        decreases n - i,
    {
        let mut j: usize = i;
        while j > 0 && v[j - 1] > v[j]
            invariant
                1 <= i < n,
                j <= i,
                v@.len() == n,
                v@.to_multiset() == old(v)@.to_multiset(),
                forall|a: int, b: int| 0 <= a < b < j ==> v@[a] <= v@[b],
                forall|a: int, b: int| j < a < b <= i ==> v@[a] <= v@[b],
                forall|a: int, b: int| 0 <= a < j && j < b <= i ==> v@[a] <= v@[b],
                forall|b: int| j < b <= i ==> v@[j as int] < v@[b],
            decreases j,
        {
            let x = v[j - 1];
            let y = v[j];
            proof {
                lemma_swap_keeps_multiset(v@, j - 1, j as int);
            }
            v.set(j - 1, y);
            v.set(j, x);
            j -= 1;
        }
        i += 1;
    }
}

/// The rank of a `(score, variable, sign)` entry: entries rank by score,
/// then variable, then sign (`false` before `true`), as tuples compare in Rust.
pub open spec fn entry_rank(a: (usize, usize, bool)) -> int {
    a.0 as int * 0x4_0000_0000_0000_0000int + a.1 as int * 2 + (if a.2 { 1int } else { 0int })
}

/// Tuple order on entries.
pub open spec fn entry_le(a: (usize, usize, bool), b: (usize, usize, bool)) -> bool {
    entry_rank(a) <= entry_rank(b)
}

/// Is the sequence of entries in non-decreasing order?
pub open spec fn sorted_entries(s: Seq<(usize, usize, bool)>) -> bool {
    forall|a: int, b: int| 0 <= a < b < s.len() ==> entry_le(s[a], s[b])
}

/// `a` strictly after `b` in entry order.
fn entry_gt(a: (usize, usize, bool), b: (usize, usize, bool)) -> (res: bool)
    ensures
        res == !entry_le(a, b),
{
    assert(a.1 as int * 2 + 1 < 0x4_0000_0000_0000_0000int);
    assert(b.1 as int * 2 + 1 < 0x4_0000_0000_0000_0000int);
    if a.0 != b.0 {
        if a.0 > b.0 {
            assert(a.0 as int * 0x4_0000_0000_0000_0000int >= (b.0 as int + 1) * 0x4_0000_0000_0000_0000int);
        } else {
            assert(b.0 as int * 0x4_0000_0000_0000_0000int >= (a.0 as int + 1) * 0x4_0000_0000_0000_0000int);
        }
    }
    if a.0 != b.0 {
        a.0 > b.0
    } else if a.1 != b.1 {
        a.1 > b.1
    } else {
        a.2 && !b.2
    }
}

/// Sorts entries into non-decreasing tuple order.
pub fn sort_entries(v: &mut Vec<(usize, usize, bool)>)
    ensures
        sorted_entries(final(v)@),
        final(v)@.to_multiset() == old(v)@.to_multiset(),
        final(v)@.len() == old(v)@.len(),
{
    let n = v.len();
    if n == 0 {
        return;
    }
    let mut i: usize = 1;
    while i < n
        invariant
            1 <= i <= n,
            v@.len() == n,
            v@.to_multiset() == old(v)@.to_multiset(),
            forall|a: int, b: int| 0 <= a < b < i ==> entry_rank(v@[a]) <= entry_rank(v@[b]),
        decreases n - i,
    {
        let mut j: usize = i;
        while j > 0 && entry_gt(v[j - 1], v[j])
            invariant
                1 <= i < n,
                j <= i,
                v@.len() == n,
                v@.to_multiset() == old(v)@.to_multiset(),
                forall|a: int, b: int| 0 <= a < b < j ==> entry_rank(v@[a]) <= entry_rank(v@[b]),
                forall|a: int, b: int| j < a < b <= i ==> entry_rank(v@[a]) <= entry_rank(v@[b]),
                forall|a: int, b: int| 0 <= a < j && j < b <= i ==> entry_rank(v@[a]) <= entry_rank(v@[b]),
                forall|b: int| j < b <= i ==> entry_rank(v@[j as int]) < entry_rank(v@[b]),
            decreases j,
        {
            let x = v[j - 1];
            let y = v[j];
            proof {
                lemma_swap_keeps_multiset(v@, j - 1, j as int);
            }
            v.set(j - 1, y);
            v.set(j, x);
            j -= 1;
        }
        i += 1;
    }
}

} // verus!
