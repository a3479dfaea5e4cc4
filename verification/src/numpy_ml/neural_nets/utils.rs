//! Helpers for training loops: splitting a dataset into minibatches.
use crate::np::random::{
    fisher_yates, fy_draws_ok, indices_upto, is_permutation_of, is_permutation_of_range, lemma_permutation_of_range,
    thread_shuffle,
};
use vstd::prelude::*;

verus! {

/// The contents of each vector, in order.
pub open spec fn views(b: Seq<Vec<usize>>) -> Seq<Seq<usize>> {
    b.map_values(|v: Vec<usize>| v@)
}

/// The smaller of two integers.
pub open spec fn min_int(a: int, b: int) -> int {
    if a < b { a } else { b }
}

/// Number of batches of size `b` that cover `n` items: `ceil(n / b)`.
pub open spec fn n_batches_of(n: int, b: int) -> int {
    (n + b - 1) / b
}

/// A batch index `i` is below `ceil(n / b)` exactly when batch `i` starts before `n`.
pub proof fn lemma_ceil_div(n: int, b: int, i: int)
    requires
        b > 0,
        n >= 0,
        i >= 0,
    ensures
        (i < n_batches_of(n, b)) <==> (i * b < n),
{
    let q = (n + b - 1) / b;
    let r = (n + b - 1) % b;
    vstd::arithmetic::div_mod::lemma_fundamental_div_mod(n + b - 1, b);
    assert(n + b - 1 == b * q + r);
    assert(0 <= r < b);
    if i < q {
        assert(i * b <= q * b - b) by (nonlinear_arith)
            requires
                i < q,
                b > 0,
        ;
        assert(q * b == b * q) by (nonlinear_arith);
    } else {
        assert(i * b >= q * b) by (nonlinear_arith)
            requires
                i >= q,
                b > 0,
        ;
        assert(q * b == b * q) by (nonlinear_arith);
    }
}

/// Copies `v[start..end]`.
pub(crate) fn copy_range(v: &Vec<usize>, start: usize, end: usize) -> (r: Vec<usize>)
    requires
        start <= end <= v@.len(),
    ensures
        r@ == v@.subrange(start as int, end as int),
{
    let mut r: Vec<usize> = Vec::with_capacity(end - start);
    let mut k: usize = start;
    while k < end
        invariant
            start <= k <= end <= v@.len(),
            r@ == v@.subrange(start as int, k as int),
        decreases end - k,
    {
        r.push(v[k]);
        k = k + 1;
    }
    r
}

/// Compute minibatch indices for a dataset.
///
/// Returns `(batches, n_batches)`: `n_batches` is `ceil(n_samples / batch_size)`;
/// read in order, the batches hold each index of `0..n_samples` exactly once
/// (in order when `shuffle` is false), every batch holds `batch_size` of them
/// but the last, which holds the rest.
pub fn minibatch_indices(n_samples: usize, batch_size: usize, shuffle: bool) -> (res: (
    Vec<Vec<usize>>,
    usize,
))
    requires
        batch_size > 0,
        n_samples + batch_size <= usize::MAX,
    ensures
        res.1 == n_batches_of(n_samples as int, batch_size as int),
        res.0@.len() == res.1,
        is_permutation_of_range(views(res.0@).flatten(), n_samples as nat),
        !shuffle ==> views(res.0@).flatten() == Seq::new(n_samples as nat, |i: int| i as usize),
        shuffle ==> exists|draws: Seq<usize>|
            fy_draws_ok(n_samples as nat, draws) && views(res.0@).flatten() == #[trigger] fisher_yates(
                indices_upto(n_samples as nat),
                draws,
            ),
        forall|i: int|
            0 <= i < res.1 ==> #[trigger] views(res.0@)[i] == views(res.0@).flatten().subrange(
                i * batch_size,
                min_int(i * batch_size + batch_size, n_samples as int),
            ),
{
    let n_batches = (n_samples + batch_size - 1) / batch_size;
    let mut indices: Vec<usize> = Vec::with_capacity(n_samples);
    let mut k: usize = 0;
    while k < n_samples
        invariant
            k <= n_samples,
            indices@ == Seq::new(k as nat, |t: int| t as usize),
        decreases n_samples - k,
    {
        indices.push(k);
        k = k + 1;
    }
    let ghost i0 = indices@;
    if shuffle {
        thread_shuffle(&mut indices);
        proof {
            assert(i0 =~= indices_upto(n_samples as nat));
        }
    }
    proof {
        lemma_permutation_of_range(indices@, n_samples as nat);
    }
    let mut batches: Vec<Vec<usize>> = Vec::with_capacity(n_batches);
    let mut i: usize = 0;
    let mut start: usize = 0;
    while i < n_batches
        invariant
            batch_size > 0,
            n_samples + batch_size <= usize::MAX,
            n_batches == n_batches_of(n_samples as int, batch_size as int),
            indices@.len() == n_samples,
            i <= n_batches,
            start == i * batch_size,
            batches@.len() == i,
            start < n_samples ==> views(batches@).flatten() == indices@.take(start as int),
            start >= n_samples ==> views(batches@).flatten() == indices@,
            forall|t: int|
                0 <= t < i ==> #[trigger] views(batches@)[t] == indices@.subrange(
                    t * batch_size,
                    min_int(t * batch_size + batch_size, n_samples as int),
                ),
        decreases n_batches - i,
    {
        proof {
            lemma_ceil_div(n_samples as int, batch_size as int, i as int);
        }
        let end = if start + batch_size < n_samples { start + batch_size } else { n_samples };
        let batch = copy_range(&indices, start, end);
        proof {
            broadcast use Seq::lemma_flatten_push;
            assert(views(batches@.push(batch)) =~= views(batches@).push(batch@));
            assert(indices@.take(start as int) + indices@.subrange(start as int, end as int)
                =~= indices@.take(end as int));
        }
        batches.push(batch);
        proof {
            assert((i + 1) * batch_size == i * batch_size + batch_size) by (nonlinear_arith);
            assert(views(batches@).flatten() =~= indices@.take(end as int));
            if end == n_samples {
                assert(indices@.take(end as int) =~= indices@);
            }
        }
        i = i + 1;
        start = start + batch_size;
    }
    proof {
        lemma_ceil_div(n_samples as int, batch_size as int, n_batches as int);
        if n_samples == 0 {
            assert(views(batches@).flatten() =~= indices@);
        }
        if shuffle {
            let d = choose|d: Seq<usize>| fy_draws_ok(i0.len(), d) && indices@ == #[trigger] fisher_yates(i0, d);
            assert(views(batches@).flatten() == fisher_yates(indices_upto(n_samples as nat), d));
        }
    }
    (batches, n_batches)
}

} // verus!
