//! Array helpers in the style of NumPy.
pub mod random;

use vstd::prelude::*;

verus! {

/// `s` written out `reps` times, one copy after another.
pub open spec fn tiled<T>(s: Seq<T>, reps: nat) -> Seq<T>
    decreases reps,
{
    if reps == 0 {
        Seq::empty()
    } else {
        tiled(s, (reps - 1) as nat) + s
    }
}

/// Each entry of `s` written `n` times in a row.
pub open spec fn repeated<T>(s: Seq<T>, n: nat) -> Seq<T>
    decreases s.len(),
{
    if s.len() == 0 {
        Seq::empty()
    } else {
        repeated(s.drop_last(), n) + Seq::new(n, |i: int| s.last())
    }
}

/// `tiled(s, reps)` has `s.len() * reps` entries.
pub proof fn lemma_tiled_len<T>(s: Seq<T>, reps: nat)
    ensures
        tiled(s, reps).len() == s.len() * reps,
    decreases reps,
{
    if reps > 0 {
        lemma_tiled_len(s, (reps - 1) as nat);
        assert(s.len() * (reps - 1) + s.len() == s.len() * reps) by (nonlinear_arith);
    }
}

/// `repeated(s, n)` has `s.len() * n` entries.
pub proof fn lemma_repeated_len<T>(s: Seq<T>, n: nat)
    ensures
        repeated(s, n).len() == s.len() * n,
    decreases s.len(),
{
    if s.len() > 0 {
        lemma_repeated_len(s.drop_last(), n);
        assert((s.len() - 1) * n + n == s.len() * n) by (nonlinear_arith);
    }
}

/// The array `arr` repeated `reps` times.
pub fn tile<T: Copy>(arr: &[T], reps: usize) -> (out: Vec<T>)
    requires
        arr@.len() * reps <= usize::MAX,
    ensures
        out@ == tiled(arr@, reps as nat),
        out@.len() == arr@.len() * reps,
{
    proof {
        lemma_tiled_len(arr@, reps as nat);
    }
    let mut out: Vec<T> = Vec::new();
    let mut r: usize = 0;
    while r < reps
        invariant
            r <= reps,
            out@ == tiled(arr@, r as nat),
        decreases reps - r,
    {
        let ghost before = out@;
        let mut i: usize = 0;
        while i < arr.len()
            invariant
                i <= arr@.len(),
                out@ == before + arr@.take(i as int),
            decreases arr@.len() - i,
        {
            out.push(arr[i]);
            proof {
                assert(arr@.take(i + 1) =~= arr@.take(i as int).push(arr@[i as int]));
            }
            i = i + 1;
        }
        proof {
            assert(arr@.take(arr@.len() as int) =~= arr@);
        }
        r = r + 1;
    }
    out
}

/// Each element of `arr` repeated `n` times in a row.
pub fn repeat<T: Copy>(arr: &[T], n: usize) -> (out: Vec<T>)
    requires
        arr@.len() * n <= usize::MAX,
    ensures
        out@ == repeated(arr@, n as nat),
        out@.len() == arr@.len() * n,
{
    proof {
        lemma_repeated_len(arr@, n as nat);
    }
    let mut out: Vec<T> = Vec::new();
    let mut i: usize = 0;
    while i < arr.len()
        invariant
            i <= arr@.len(),
            out@ == repeated(arr@.take(i as int), n as nat),
        decreases arr@.len() - i,
    {
        let ghost before = out@;
        let value = arr[i];
        let mut k: usize = 0;
        while k < n
            invariant
                k <= n,
                out@ == before + Seq::new(k as nat, |j: int| value),
            decreases n - k,
        {
            out.push(value);
            proof {
                assert(before + Seq::new((k + 1) as nat, |j: int| value) =~= (before + Seq::new(k as nat, |j: int| value)).push(
                    value,
                ));
            }
            k = k + 1;
        }
        proof {
            let t = arr@.take(i + 1);
            assert(t.drop_last() =~= arr@.take(i as int));
            assert(t.last() == value);
        }
        i = i + 1;
    }
    proof {
        assert(arr@.take(arr@.len() as int) =~= arr@);
    }
    out
}

/// Element-wise choice: `x[i]` where `cond[i]` holds, `y[i]` elsewhere.
pub fn where_arr<T: Copy>(cond: &[bool], x: &[T], y: &[T]) -> (out: Vec<T>)
    requires
        cond@.len() == x@.len(),
        cond@.len() == y@.len(),
    ensures
        out@.len() == cond@.len(),
        forall|i: int| 0 <= i < cond@.len() ==> #[trigger] out@[i] == if cond@[i] { x@[i] } else { y@[i] },
{
    let mut out: Vec<T> = Vec::with_capacity(cond.len());
    let mut i: usize = 0;
    while i < cond.len()
        invariant
            cond@.len() == x@.len(),
            cond@.len() == y@.len(),
            i <= cond@.len(),
            out@.len() == i,
            forall|j: int| 0 <= j < i ==> #[trigger] out@[j] == if cond@[j] { x@[j] } else { y@[j] },
        decreases cond@.len() - i,
    {
        if cond[i] {
            out.push(x[i]);
        } else {
            out.push(y[i]);
        }
        i = i + 1;
    }
    out
}

} // verus!
