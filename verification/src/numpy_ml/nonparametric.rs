//! The discrete decision of nearest-neighbour classification.
use vstd::prelude::*;

verus! {

/// How often `x` occurs among the first `m` entries of `s`.
pub open spec fn occurrences(s: Seq<i64>, x: i64, m: int) -> nat
    decreases m,
{
    if m <= 0 {
        0
    } else {
        occurrences(s, x, m - 1) + if s[m - 1] == x { 1nat } else { 0nat }
    }
}

/// How often `x` occurs in `s`.
pub open spec fn count_of(s: Seq<i64>, x: i64) -> nat {
    occurrences(s, x, s.len() as int)
}

/// `v` is the most frequent key of `s`, the smallest one among equally frequent keys;
/// `0` when `s` is empty.
pub open spec fn is_majority(s: Seq<i64>, v: i64) -> bool {
    if s.len() == 0 {
        v == 0
    } else {
        &&& s.contains(v)
        &&& forall|i: int| 0 <= i < s.len() ==> #[trigger] count_of(s, s[i]) <= count_of(s, v)
        &&& forall|i: int| 0 <= i < s.len() && #[trigger] count_of(s, s[i]) == count_of(s, v) ==> v <= s[i]
    }
}

/// A count never exceeds the number of entries looked at.
proof fn lemma_occurrences_le(s: Seq<i64>, x: i64, m: int)
    requires
        0 <= m,
    ensures
        occurrences(s, x, m) <= m,
    decreases m,
{
    if m > 0 {
        lemma_occurrences_le(s, x, m - 1);
    }
}

/// Number of occurrences of `x` in `keys`.
fn count_key(keys: &[i64], x: i64) -> (c: usize)
    ensures
        c == count_of(keys@, x),
{
    let mut c: usize = 0;
    let mut i: usize = 0;
    while i < keys.len()
        invariant
            i <= keys@.len(),
            c == occurrences(keys@, x, i as int),
        decreases keys@.len() - i,
    {
        proof {
            lemma_occurrences_le(keys@, x, i as int);
        }
        if keys[i] == x {
            c = c + 1;
        }
        i = i + 1;
    }
    c
}

/// The majority vote of uniform nearest-neighbour classification: the most frequent class key,
/// ties going to the smallest key; `0` when there is no neighbour.
pub fn majority_vote(keys: &[i64]) -> (v: i64)
    ensures
        is_majority(keys@, v),
{
    let mut best_key: i64 = 0;
    let mut best_count: usize = 0;
    let mut i: usize = 0;
    while i < keys.len()
        invariant
            i <= keys@.len(),
            i == 0 ==> best_key == 0 && best_count == 0,
            i > 0 ==> best_count == count_of(keys@, best_key) && keys@.subrange(0, i as int).contains(best_key),
            forall|j: int| 0 <= j < i ==> #[trigger] count_of(keys@, keys@[j]) <= best_count,
            forall|j: int| 0 <= j < i && #[trigger] count_of(keys@, keys@[j]) == best_count ==> best_key <= keys@[j],
        decreases keys@.len() - i,
    {
        let k = keys[i];
        let c = count_key(keys, k);
        proof {
            assert(keys@.subrange(0, i + 1)[i as int] == k);
            if i > 0 {
                let w = choose|w: int| 0 <= w < i && keys@.subrange(0, i as int)[w] == best_key;
                assert(keys@.subrange(0, i + 1)[w] == best_key);
            }
            assert(count_of(keys@, keys@[i as int]) == c);
            if i == 0 {
                assert(c > 0) by {
                    lemma_occurrences_ge_first(keys@, k);
                }
            }
        }
        if c > best_count || (c == best_count && k < best_key) {
            best_key = k;
            best_count = c;
        }
        i = i + 1;
    }
    proof {
        if keys@.len() > 0 {
            assert(keys@.subrange(0, keys@.len() as int) =~= keys@);
        }
    }
    best_key
}

/// The first entry of a nonempty sequence occurs in it.
proof fn lemma_occurrences_ge_first(s: Seq<i64>, x: i64)
    requires
        s.len() > 0,
        s[0] == x,
    ensures
        count_of(s, x) >= 1,
{
    assert(occurrences(s, x, 0) == 0);
    assert(occurrences(s, x, 1) == 1);
    lemma_occurrences_mono(s, x, 1, s.len() as int);
}

/// Counts grow with the number of entries looked at.
proof fn lemma_occurrences_mono(s: Seq<i64>, x: i64, a: int, b: int)
    requires
        0 <= a <= b,
    ensures
        occurrences(s, x, a) <= occurrences(s, x, b),
    decreases b - a,
{
    if a < b {
        lemma_occurrences_mono(s, x, a, b - 1);
    }
}

} // verus!
