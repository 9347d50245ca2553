//! Operations on clauses written as signed integer literals.
use vstd::prelude::*;
use crate::sort::{sort_i32, sorted_i32};

verus! {

/// Every literal of `small` occurs in `big`.
pub open spec fn lits_subset(small: Seq<i32>, big: Seq<i32>) -> bool {
    forall|i: int| 0 <= i < small.len() ==> big.contains(#[trigger] small[i])
}

/// Does `v` contain `x`?
pub fn contains_i32(v: &Vec<i32>, x: i32) -> (res: bool)
    ensures
        res == v@.contains(x),
{
    let mut i: usize = 0;
    while i < v.len()
        invariant
            i <= v.len(),
            forall|j: int| 0 <= j < i ==> v@[j] != x,
        decreases v.len() - i,
    {
        if v[i] == x {
            return true;
        }
        i += 1;
    }
    false
}

/// Which of two literal lists subsumes the other: `1` when `vec1` is no longer
/// than `vec2` and all its literals occur in `vec2`, `2` when `vec2` is strictly
/// shorter and all its literals occur in `vec1`, `0` otherwise.
pub open spec fn subsumption_spec(vec1: Seq<i32>, vec2: Seq<i32>) -> usize {
    if vec1.len() <= vec2.len() {
        if lits_subset(vec1, vec2) { 1usize } else { 0usize }
    } else {
        if lits_subset(vec2, vec1) { 2usize } else { 0usize }
    }
}

/// Which of two literal lists subsumes the other (see [`subsumption_spec`]).
pub fn subsumption(vec1: &Vec<i32>, vec2: &Vec<i32>) -> (res: usize)
    ensures
        res == subsumption_spec(vec1@, vec2@),
{
    let first_is_short = vec1.len() <= vec2.len();
    let short: &Vec<i32> = if first_is_short { vec1 } else { vec2 };
    let long: &Vec<i32> = if first_is_short { vec2 } else { vec1 };
    let mut contains = true;
    let mut k: usize = 0;
    while contains && k < short.len()
        invariant
            k <= short.len(),
            contains ==> forall|i: int| 0 <= i < k ==> long@.contains(#[trigger] short@[i]),
            !contains ==> !lits_subset(short@, long@),
        decreases short.len() - k + (if contains { 1int } else { 0int }),
    {
        if !contains_i32(long, short[k]) {
            contains = false;
        } else {
            k += 1;
        }
    }
    if !contains {
        0
    } else if first_is_short {
        1
    } else {
        2
    }
}

/// The literals of `vec` other than `x`, in order.
pub open spec fn rest_spec(vec: Seq<i32>, x: i32) -> Seq<i32> {
    vec.filter(|y: i32| y != x)
}

/// The literals of `vec` other than `x`, in order.
pub fn get_rest(vec: &Vec<i32>, x: i32) -> (rest: Vec<i32>)
    ensures
        rest@ == rest_spec(vec@, x),
{
    let mut rest: Vec<i32> = Vec::new();
    let mut i: usize = 0;
    while i < vec.len()
        invariant
            i <= vec.len(),
            rest@ == rest_spec(vec@.take(i as int), x),
        decreases vec.len() - i,
    {
        proof {
            reveal(Seq::filter);
            assert(vec@.take(i + 1).drop_last() == vec@.take(i as int));
        }
        if vec[i] != x {
            rest.push(vec[i]);
        }
        i += 1;
    }
    assert(vec@.take(vec@.len() as int) == vec@);
    rest
}

/// What a pair of literal lists offers for resolution at position `k` of
/// `vec1`, when `vec2` holds the negation of `vec1[k]`: with the pivot
/// removed from both, `(vec1[k], 0)` when the rests subsume each other in
/// the first direction and the lists have equal length, `(-vec1[k], 1)` when
/// they do so with different lengths, `(vec1[k], 2)` when the rest of `vec2`
/// subsumes that of `vec1`; nothing otherwise.
pub open spec fn candidate_at(vec1: Seq<i32>, vec2: Seq<i32>, k: int) -> Option<(int, usize)> {
    let x = vec1[k];
    if vec2.contains((-x) as i32) {
        let sub = subsumption_spec(rest_spec(vec1, x), rest_spec(vec2, (-x) as i32));
        if sub == 1 && vec1.len() == vec2.len() {
            Some((x as int, 0usize))
        } else if sub == 1 {
            Some((-x, 1usize))
        } else if sub == 2 {
            Some((x as int, 2usize))
        } else {
            None
        }
    } else {
        None
    }
}

/// The first resolution candidate of `vec1` at or after position `k`, or
/// `(0, 3)` when there is none.
pub open spec fn candidates_from(vec1: Seq<i32>, vec2: Seq<i32>, k: int) -> (int, usize)
    decreases vec1.len() - k,
{
    if k < 0 || k >= vec1.len() {
        (0, 3usize)
    } else {
        match candidate_at(vec1, vec2, k) {
            Some(r) => r,
            None => candidates_from(vec1, vec2, k + 1),
        }
    }
}

/// No literal is `i32::MIN`, so every literal has a negation.
pub open spec fn negatable(vec: Seq<i32>) -> bool {
    forall|i: int| 0 <= i < vec.len() ==> #[trigger] vec[i] != i32::MIN
}

/// The first position of `vec1` at which the two literal lists can be
/// resolved with one of them absorbing the other (see [`candidate_at`]).
pub fn resolvent_candidates(vec1: &Vec<i32>, vec2: &Vec<i32>) -> (res: (i32, usize))
    requires
        negatable(vec1@),
    ensures
        (res.0 as int, res.1) == candidates_from(vec1@, vec2@, 0),
{
    let mut k: usize = 0;
    while k < vec1.len()
        invariant
            k <= vec1.len(),
            negatable(vec1@),
            candidates_from(vec1@, vec2@, k as int) == candidates_from(vec1@, vec2@, 0),
        decreases vec1.len() - k,
    {
        let x = vec1[k];
        assert(x != i32::MIN);
        let nx: i32 = -x;
        if contains_i32(vec2, nx) {
            let r1 = get_rest(vec1, x);
            let r2 = get_rest(vec2, nx);
            let sub = subsumption(&r1, &r2);
            if sub == 1 && vec1.len() == vec2.len() {
                return (x, 0);
            } else if sub == 1 {
                return (nx, 1);
            } else if sub == 2 {
                return (x, 2);
            }
        }
        k += 1;
    }
    (0, 3)
}

/// Do the two sequences share an element?
pub fn intersection(vec1: &Vec<usize>, vec2: &Vec<usize>) -> (res: bool)
    ensures
        res == exists|i: int, j: int| 0 <= i < vec1@.len() && 0 <= j < vec2@.len() && vec1@[i] == vec2@[j],
{
    let mut i: usize = 0;
    while i < vec1.len()
        invariant
            i <= vec1.len(),
            forall|a: int, b: int| 0 <= a < i && 0 <= b < vec2@.len() ==> vec1@[a] != vec2@[b],
        decreases vec1.len() - i,
    {
        let mut j: usize = 0;
        while j < vec2.len()
            invariant
                i < vec1.len(),
                j <= vec2.len(),
                forall|a: int, b: int| 0 <= a < i && 0 <= b < vec2@.len() ==> vec1@[a] != vec2@[b],
                forall|b: int| 0 <= b < j ==> vec1@[i as int] != vec2@[b],
            decreases vec2.len() - j,
        {
            if vec1[i] == vec2[j] {
                return true;
            }
            j += 1;
        }
        i += 1;
    }
    false
}

/// Does the literal list hold a literal together with its negation?
pub open spec fn has_complementary(s: Seq<i32>) -> bool {
    exists|i: int| 0 <= i < s.len() && s.contains((-s[i]) as i32)
}

/// Is the sequence strictly increasing?
pub open spec fn strictly_increasing(s: Seq<i32>) -> bool {
    forall|a: int, b: int| 0 <= a < b < s.len() ==> s[a] < s[b]
}

/// Sorts the literals of a clause and removes repeated ones. Returns `false`
/// when the clause holds a literal and its negation (the clause is then left
/// sorted), `true` otherwise, with the clause replaced by its distinct literals
/// in increasing order.
pub fn remove_duplicate_vars(chunk: &mut Vec<i32>) -> (res: bool)
    requires
        old(chunk)@.len() > 0,
        negatable(old(chunk)@),
    ensures
        res == !has_complementary(old(chunk)@),
        res ==> strictly_increasing(final(chunk)@),
        res ==> forall|x: i32| final(chunk)@.contains(x) <==> old(chunk)@.contains(x),
        !res ==> sorted_i32(final(chunk)@) && final(chunk)@.to_multiset() == old(chunk)@.to_multiset(),
{
    broadcast use vstd::seq_lib::to_multiset_contains;
    let ghost orig = chunk@;
    sort_i32(chunk);
    assert(forall|x: i32| chunk@.contains(x) <==> orig.contains(x)) by {
        assert forall|x: i32| chunk@.contains(x) <==> orig.contains(x) by {
            assert(chunk@.contains(x) <==> chunk@.to_multiset().count(x) > 0);
            assert(orig.contains(x) <==> orig.to_multiset().count(x) > 0);
        }
    }
    let mut new_chunk: Vec<i32> = Vec::new();
    new_chunk.push(chunk[0]);
    let mut i: usize = 0;
    while i < chunk.len()
        invariant
            chunk@.len() > 0,
            i <= chunk@.len(),
            sorted_i32(chunk@),
            new_chunk@.len() > 0,
            strictly_increasing(new_chunk@),
            new_chunk@[new_chunk@.len() - 1] == (if i == 0 { chunk@[0] } else { chunk@[i - 1] }),
            forall|x: i32| new_chunk@.contains(x) <==> (chunk@.take(i as int).contains(x) || x == chunk@[0]),
        decreases chunk@.len() - i,
    {
        let last = new_chunk[new_chunk.len() - 1];
        let ghost before = new_chunk@;
        if chunk[i] != last {
            new_chunk.push(chunk[i]);
        }
        proof {
            let c = chunk@[i as int];
            assert(chunk@.take(i + 1) == chunk@.take(i as int).push(c));
            assert(before.contains(last));
            assert forall|x: i32| new_chunk@.contains(x) <==> (chunk@.take(i + 1).contains(x) || x == chunk@[0]) by {
                if new_chunk@.contains(x) {
                    if x == c {
                        assert(chunk@.take(i + 1)[i as int] == c);
                    } else {
                        let q = choose|q: int| 0 <= q < new_chunk@.len() && new_chunk@[q] == x;
                        assert(before[q] == x);
                        if chunk@.take(i as int).contains(x) {
                            let r = choose|r: int| 0 <= r < i && chunk@.take(i as int)[r] == x;
                            assert(chunk@.take(i + 1)[r] == x);
                        }
                    }
                }
                if chunk@.take(i + 1).contains(x) {
                    let t = chunk@.take(i + 1);
                    let r = choose|r: int| 0 <= r < t.len() && t[r] == x;
                    if r < i {
                        assert(chunk@.take(i as int)[r] == x);
                        assert(before.contains(x));
                        let q = choose|q: int| 0 <= q < before.len() && before[q] == x;
                        assert(new_chunk@[q] == x);
                    } else if x == last {
                        let q = choose|q: int| 0 <= q < before.len() && before[q] == x;
                        assert(new_chunk@[q] == x);
                    } else {
                        assert(new_chunk@[new_chunk@.len() - 1] == x);
                    }
                }
                if x == chunk@[0] {
                    assert(before.contains(x));
                    let q = choose|q: int| 0 <= q < before.len() && before[q] == x;
                    assert(new_chunk@[q] == x);
                }
            }
        }
        i += 1;
    }
    assert(chunk@.take(chunk@.len() as int) == chunk@);
    assert(chunk@.contains(chunk@[0]));
    assert(forall|x: i32| new_chunk@.contains(x) <==> orig.contains(x));
    let mut k: usize = 0;
    while k < new_chunk.len()
        invariant
            k <= new_chunk@.len(),
            orig == old(chunk)@,
            sorted_i32(chunk@),
            chunk@.to_multiset() == orig.to_multiset(),
            forall|x: i32| new_chunk@.contains(x) <==> orig.contains(x),
            negatable(orig),
            forall|a: int| 0 <= a < k ==> !new_chunk@.contains((-new_chunk@[a]) as i32),
        decreases new_chunk@.len() - k,
    {
        let x = new_chunk[k];
        assert(new_chunk@[k as int] == x);
        assert(new_chunk@.contains(x));
        assert(orig.contains(x));
        let ghost p = choose|p: int| 0 <= p < orig.len() && orig[p] == x;
        assert(orig[p] != i32::MIN);
        if contains_i32(&new_chunk, -x) {
            assert(new_chunk@.contains((-x) as i32));
            assert(orig.contains((-orig[p]) as i32));
            assert(has_complementary(orig));
            return false;
        }
        k += 1;
    }
    assert(!has_complementary(orig)) by {
        if has_complementary(orig) {
            let p = choose|p: int| 0 <= p < orig.len() && orig.contains((-orig[p]) as i32);
            assert(orig.contains(orig[p]));
            assert(new_chunk@.contains(orig[p]));
            let a = choose|a: int| 0 <= a < new_chunk@.len() && new_chunk@[a] == orig[p];
            assert(new_chunk@.contains((-new_chunk@[a]) as i32));
        }
    }
    *chunk = new_chunk;
    true
}

} // verus!
