//! Random sampling of indices: shuffles, permutations and seeded generators.
use rand::seq::SliceRandom;
use rand::Rng;
use rand::SeedableRng;
use rand_distr::Distribution;
use vstd::prelude::*;

verus! {

/// The seedable generator of the `rand` crate, carried through opaque.
#[verifier::external_type_specification]
#[verifier::external_body]
pub struct ExStdRng(rand::rngs::StdRng);

/// `true` when `t` holds the same values as `s`, each as many times.
pub open spec fn is_permutation_of(t: Seq<usize>, s: Seq<usize>) -> bool {
    t.to_multiset() == s.to_multiset()
}

/// `true` when `s` holds each of `0..n` exactly once.
pub open spec fn is_permutation_of_range(s: Seq<usize>, n: nat) -> bool {
    &&& s.len() == n
    &&& s.no_duplicates()
    &&& forall|i: int| 0 <= i < s.len() ==> #[trigger] s[i] < n
}

/// Draws an index in `0..=hi` from the thread-local generator
/// (`rand::Rng::gen_range` on `rand::thread_rng()`): the contract claims only
/// that the index lies in that range.
#[verifier::external_body]
fn thread_gen_index_inclusive(hi: usize) -> (j: usize)
    ensures
        j <= hi,
{
    rand::thread_rng().gen_range(0..=hi)
}

/// Swaps two entries of a slice; what the swap leaves behind holds the same values.
proof fn lemma_swap_keeps_values(s: Seq<usize>, i: int, j: int)
    requires
        0 <= i < s.len(),
        0 <= j < s.len(),
    ensures
        is_permutation_of(s.update(i, s[j]).update(j, s[i]), s),
{
    broadcast use vstd::seq_lib::group_to_multiset_ensures;
    broadcast use vstd::multiset::group_multiset_axioms;

    let s1 = s.update(i, s[j]);
    assert(s1.to_multiset() == s.to_multiset().insert(s[j]).remove(s[i]));
    assert(s1[j] == s[j]);
    let s2 = s1.update(j, s[i]);
    assert(s2.to_multiset() == s1.to_multiset().insert(s[i]).remove(s[j]));
    assert(s2.to_multiset() =~= s.to_multiset());
}

/// `s` with the entries at `i` and `j` exchanged.
pub open spec fn swapped(s: Seq<usize>, i: int, j: int) -> Seq<usize> {
    s.update(i, s[j]).update(j, s[i])
}

/// Draws that can drive a Fisher-Yates shuffle of `n` entries: one per
/// position from `n - 1` down to `1`, the `k`-th at most `n - 1 - k`.
pub open spec fn fy_draws_ok(n: nat, draws: Seq<usize>) -> bool {
    &&& draws.len() == if n == 0 { 0 } else { n - 1 }
    &&& forall|k: int| 0 <= k < draws.len() ==> #[trigger] draws[k] <= n - 1 - k
}

/// `s` after the first `k` swaps of a Fisher-Yates shuffle: swap number `t`
/// exchanges position `s.len() - 1 - t` with position `draws[t]`.
pub open spec fn fy_swaps(s: Seq<usize>, draws: Seq<usize>, k: nat) -> Seq<usize>
    decreases k,
{
    if k == 0 {
        s
    } else {
        swapped(fy_swaps(s, draws, (k - 1) as nat), s.len() - k, draws[k - 1] as int)
    }
}

/// `s` shuffled by Fisher-Yates with the given draws: for `i` from
/// `s.len() - 1` down to `1`, entry `i` is exchanged with entry
/// `draws[s.len() - 1 - i]`.
pub open spec fn fisher_yates(s: Seq<usize>, draws: Seq<usize>) -> Seq<usize> {
    fy_swaps(s, draws, draws.len())
}

/// Performs the swaps of a Fisher-Yates shuffle with the given draws.
pub fn apply_swaps(x: &mut [usize], draws: &[usize])
    requires
        fy_draws_ok(old(x)@.len(), draws@),
    ensures
        final(x)@ == fisher_yates(old(x)@, draws@),
        is_permutation_of(final(x)@, old(x)@),
{
    let ghost x0 = x@;
    let n = x.len();
    let mut k: usize = 0;
    while k < draws.len()
        invariant
            x0.len() == n,
            x@.len() == n,
            fy_draws_ok(n as nat, draws@),
            k <= draws@.len(),
            x@ == fy_swaps(x0, draws@, k as nat),
            is_permutation_of(x@, x0),
        decreases draws@.len() - k,
    {
        let i = n - 1 - k;
        let j = draws[k];
        let a = x[i];
        let b = x[j];
        proof {
            lemma_swap_keeps_values(x@, i as int, j as int);
            broadcast use vstd::multiset::group_multiset_axioms;
        }
        x[i] = b;
        x[j] = a;
        proof {
            assert(x@ =~= swapped(fy_swaps(x0, draws@, k as nat), i as int, j as int));
        }
        k = k + 1;
    }
}

/// Draws from the thread-local generator for a Fisher-Yates shuffle of `n`
/// entries: for `i` from `n - 1` down to `1`, an index in `0..=i`.
fn fisher_yates_draws(n: usize) -> (draws: Vec<usize>)
    ensures
        fy_draws_ok(n as nat, draws@),
{
    let mut draws: Vec<usize> = Vec::new();
    if n < 2 {
        return draws;
    }
    let mut i: usize = n - 1;
    while i >= 1
        invariant
            1 <= n,
            i < n,
            draws@.len() == n - 1 - i,
            forall|k: int| 0 <= k < draws@.len() ==> #[trigger] draws@[k] <= n - 1 - k,
        decreases i,
    {
        let j = thread_gen_index_inclusive(i);
        draws.push(j);
        i = i - 1;
    }
    draws
}

/// In-place Fisher-Yates shuffle: the order that comes out is the one that
/// [`apply_swaps`] makes of the draws taken from the thread-local generator.
pub fn shuffle(x: &mut [usize])
    ensures
        is_permutation_of(final(x)@, old(x)@),
        exists|draws: Seq<usize>|
            fy_draws_ok(old(x)@.len(), draws) && final(x)@ == #[trigger] fisher_yates(old(x)@, draws),
{
    let draws = fisher_yates_draws(x.len());
    apply_swaps(x, draws.as_slice());
}

/// The indices `0..n` in order.
pub open spec fn indices_upto(n: nat) -> Seq<usize> {
    Seq::new(n, |i: int| i as usize)
}

/// Collects `0..n` in order.
pub(crate) fn range_vec(n: usize) -> (v: Vec<usize>)
    ensures
        v@ == Seq::new(n as nat, |i: int| i as usize),
{
    let mut v: Vec<usize> = Vec::with_capacity(n);
    let mut i: usize = 0;
    while i < n
        invariant
            i <= n,
            v@ == Seq::new(i as nat, |k: int| k as usize),
        decreases n - i,
    {
        v.push(i);
        i = i + 1;
    }
    v
}

/// What holds the values of `0..n`, each once, is a permutation of that range.
pub proof fn lemma_permutation_of_range(t: Seq<usize>, n: nat)
    requires
        n <= usize::MAX + 1,
        is_permutation_of(t, Seq::new(n, |i: int| i as usize)),
    ensures
        is_permutation_of_range(t, n),
{
    broadcast use vstd::seq_lib::group_to_multiset_ensures;

    let r = Seq::new(n, |i: int| i as usize);
    assert(r.no_duplicates());
    r.lemma_multiset_has_no_duplicates();
    assert forall|x: usize| t.to_multiset().contains(x) implies t.to_multiset().count(x) == 1 by {
        assert(r.to_multiset().contains(x));
    }
    t.lemma_multiset_has_no_duplicates_conv();
    assert(t.to_multiset().len() == r.to_multiset().len());
    assert(t.len() == r.len());
    assert forall|i: int| 0 <= i < t.len() implies #[trigger] t[i] < n by {
        assert(t.contains(t[i]));
        assert(t.to_multiset().count(t[i]) > 0);
        assert(r.contains(t[i]));
        let k = choose|k: int| 0 <= k < r.len() && r[k] == t[i];
    }
}

/// Return a random permutation of `0..n`: `0..n` shuffled by [`shuffle`].
pub fn permutation(n: usize) -> (p: Vec<usize>)
    ensures
        is_permutation_of_range(p@, n as nat),
        exists|draws: Seq<usize>|
            fy_draws_ok(n as nat, draws) && p@ == #[trigger] fisher_yates(indices_upto(n as nat), draws),
{
    let mut x = range_vec(n);
    let ghost x0 = x@;
    shuffle(x.as_mut_slice());
    proof {
        lemma_permutation_of_range(x@, n as nat);
        assert(x0 =~= indices_upto(n as nat));
        let d = choose|d: Seq<usize>| fy_draws_ok(x0.len(), d) && x@ == #[trigger] fisher_yates(x0, d);
        assert(fisher_yates(indices_upto(n as nat), d) == x@);
    }
    x
}


/// Shuffles a vector with the thread-local generator
/// (`rand::seq::SliceRandom::shuffle` on `rand::thread_rng()`): the contract
/// claims that the same values come back, in the order of a Fisher-Yates
/// shuffle by some draws, as the source shows (for `i` from `len - 1` down to
/// `1`, entry `i` is swapped with the entry at an index drawn in `0..=i`).
/// Which draws, it does not say.
#[verifier::external_body]
pub(crate) fn thread_shuffle(v: &mut Vec<usize>)
    ensures
        is_permutation_of(final(v)@, old(v)@),
        exists|draws: Seq<usize>|
            fy_draws_ok(old(v)@.len(), draws) && final(v)@ == #[trigger] fisher_yates(old(v)@, draws),
{
    v.shuffle(&mut rand::thread_rng());
}

/// What `rand::seq::SliceRandom::shuffle` makes of the entries `v` with a
/// `StdRng` in state `rng`: the shuffled entries, and the generator's state
/// afterwards. The swaps and the draws depend on the entries and on the
/// generator's state alone.
pub uninterp spec fn std_rng_shuffled(v: Seq<usize>, rng: rand::rngs::StdRng) -> (Seq<usize>, rand::rngs::StdRng);

/// Shuffles a vector with the given generator
/// (`rand::seq::SliceRandom::shuffle`): the contract claims that the same
/// values come back, and that entries and generator end as the name
/// `std_rng_shuffled` of the entries and the generator's state says; which
/// order that is, it does not say.
#[verifier::external_body]
pub(crate) fn rng_shuffle(v: &mut Vec<usize>, rng: &mut rand::rngs::StdRng)
    ensures
        is_permutation_of(final(v)@, old(v)@),
        (final(v)@, *final(rng)) == std_rng_shuffled(old(v)@, *old(rng)),
{
    v.shuffle(rng);
}

/// The state of a `StdRng` made by `rand::SeedableRng::seed_from_u64(s)`:
/// a function of the seed alone.
pub uninterp spec fn seeded_std_rng(s: u64) -> rand::rngs::StdRng;

/// A generator seeded from `s` (`rand::SeedableRng::seed_from_u64` for
/// `StdRng`): the contract claims that its state is `seeded_std_rng(s)`.
#[verifier::external_body]
pub(crate) fn std_rng_seed_from_u64(s: u64) -> (r: rand::rngs::StdRng)
    ensures
        r == seeded_std_rng(s),
{
    rand::rngs::StdRng::seed_from_u64(s)
}

/// A generator seeded from the operating system
/// (`rand::SeedableRng::from_entropy` for `StdRng`); nothing is claimed of its state.
#[verifier::external_body]
pub(crate) fn std_rng_from_entropy() -> rand::rngs::StdRng {
    rand::rngs::StdRng::from_entropy()
}

/// Draws an index in `0..n` from the thread-local generator
/// (`rand_distr::Uniform::new(0, n)` sampled with `rand::thread_rng()`):
/// the contract claims only that the index lies in that range.
#[verifier::external_body]
fn thread_uniform_index(n: usize) -> (j: usize)
    requires
        0 < n,
    ensures
        j < n,
{
    rand_distr::Uniform::new(0, n).sample(&mut rand::thread_rng())
}

/// Draws an integer in `low..high` from the thread-local generator
/// (`rand_distr::Uniform::new(low, high)` sampled with `rand::thread_rng()`):
/// the contract claims only that the value lies in that range.
#[verifier::external_body]
fn thread_uniform_i32(low: i32, high: i32) -> (v: i32)
    requires
        low < high,
    ensures
        low <= v < high,
{
    rand_distr::Uniform::new(low, high).sample(&mut rand::thread_rng())
}

/// Number of elements of an array of the given shape.
pub open spec fn shape_size(shape: Seq<usize>) -> int
    decreases shape.len(),
{
    if shape.len() == 0 {
        1
    } else {
        shape_size(shape.drop_last()) * shape.last()
    }
}

/// Uniform random integers in `low..high` (`high` excluded), one per element of an array of
/// the given shape, in row-major order.
pub fn randint(low: i32, high: i32, shape: &[usize]) -> (out: Vec<i32>)
    requires
        low < high,
        forall|k: int| 0 <= k <= shape@.len() ==> #[trigger] shape_size(shape@.take(k)) <= usize::MAX,
    ensures
        out@.len() == shape_size(shape@),
        forall|i: int| 0 <= i < out@.len() ==> low <= #[trigger] out@[i] < high,
{
    let mut n: usize = 1;
    let mut k: usize = 0;
    while k < shape.len()
        invariant
            k <= shape@.len(),
            n == shape_size(shape@.take(k as int)),
            forall|j: int| 0 <= j <= shape@.len() ==> #[trigger] shape_size(shape@.take(j)) <= usize::MAX,
        decreases shape@.len() - k,
    {
        proof {
            assert(shape@.take(k + 1).drop_last() =~= shape@.take(k as int));
            assert(shape_size(shape@.take(k + 1)) <= usize::MAX);
        }
        n = n * shape[k];
        k = k + 1;
    }
    proof {
        assert(shape@.take(shape@.len() as int) =~= shape@);
    }
    let mut out: Vec<i32> = Vec::with_capacity(n);
    let mut i: usize = 0;
    while i < n
        invariant
            i <= n,
            out@.len() == i,
            low < high,
            forall|j: int| 0 <= j < i ==> low <= #[trigger] out@[j] < high,
        decreases n - i,
    {
        out.push(thread_uniform_i32(low, high));
        i = i + 1;
    }
    out
}

/// Create a seeded generator for reproducible sequences: two generators made
/// from the same seed produce the same stream.
pub fn seed(s: u64) -> (r: rand::rngs::StdRng)
    ensures
        r == seeded_std_rng(s),
{
    std_rng_seed_from_u64(s)
}

/// `true` when every entry of `r` is some entry of `a`, and the entries come
/// from pairwise distinct positions of `a` when `distinct` holds.
pub open spec fn drawn_from(r: Seq<usize>, a: Seq<usize>, distinct: bool) -> bool {
    exists|idx: Seq<usize>|
        {
            &&& idx.len() == r.len()
            &&& forall|k: int| 0 <= k < idx.len() ==> #[trigger] idx[k] < a.len()
            &&& forall|k: int| 0 <= k < idx.len() ==> r[k] == a[#[trigger] idx[k] as int]
            &&& distinct ==> idx.no_duplicates()
        }
}

/// The entries of `a` at the first `size` positions that `order` lists, in that order.
pub open spec fn picked(a: Seq<usize>, order: Seq<usize>, size: nat) -> Seq<usize> {
    Seq::new(size, |t: int| a[order[t] as int])
}

/// Takes the entries of `a` at the first `size` positions listed in `order`.
pub fn pick_in_order(a: &[usize], order: &[usize], size: usize) -> (r: Vec<usize>)
    requires
        size <= order@.len(),
        forall|t: int| 0 <= t < size ==> #[trigger] order@[t] < a@.len(),
    ensures
        r@ == picked(a@, order@, size as nat),
{
    let mut r: Vec<usize> = Vec::with_capacity(size);
    let mut k: usize = 0;
    while k < size
        invariant
            size <= order@.len(),
            forall|t: int| 0 <= t < size ==> #[trigger] order@[t] < a@.len(),
            k <= size,
            r@ == picked(a@, order@, k as nat),
        decreases size - k,
    {
        r.push(a[order[k]]);
        proof {
            assert(r@ =~= picked(a@, order@, (k + 1) as nat));
        }
        k = k + 1;
    }
    r
}

/// Uniform random sampling from a slice of values, with or without
/// replacement; without replacement no position of `a` is drawn twice, so the
/// values drawn from a slice of distinct values are distinct, and the draw is
/// what [`pick_in_order`] takes from `a` along a shuffled order of its positions.
pub fn choice(a: &[usize], size: usize, replace: bool) -> (r: Vec<usize>)
    requires
        replace ==> a@.len() > 0,
        !replace ==> size <= a@.len(),
    ensures
        r@.len() == size,
        drawn_from(r@, a@, !replace),
        !replace && a@.no_duplicates() ==> r@.no_duplicates(),
        !replace ==> exists|order: Seq<usize>|
            is_permutation_of_range(order, a@.len()) && r@ == #[trigger] picked(a@, order, size as nat),
        !replace ==> exists|draws: Seq<usize>|
            fy_draws_ok(a@.len(), draws) && r@ == picked(a@, #[trigger] fisher_yates(indices_upto(a@.len()), draws), size as nat),
{
    if replace {
        let mut r: Vec<usize> = Vec::with_capacity(size);
        let ghost mut idx: Seq<usize> = Seq::empty();
        let mut k: usize = 0;
        while k < size
            invariant
                a@.len() > 0,
                k <= size,
                r@.len() == k,
                idx.len() == k,
                forall|t: int| 0 <= t < k ==> #[trigger] idx[t] < a@.len(),
                forall|t: int| 0 <= t < k ==> r@[t] == a@[#[trigger] idx[t] as int],
            decreases size - k,
        {
            let j = thread_uniform_index(a.len());
            r.push(a[j]);
            proof {
                idx = idx.push(j);
            }
            k = k + 1;
        }
        assert(drawn_from(r@, a@, false));
        r
    } else {
        let mut indices = range_vec(a.len());
        let ghost i0 = indices@;
        thread_shuffle(&mut indices);
        proof {
            assert(i0 =~= indices_upto(a@.len()));
        }
        proof {
            lemma_permutation_of_range(indices@, a@.len());
        }
        let r = pick_in_order(a, indices.as_slice(), size);
        proof {
            let d = choose|d: Seq<usize>| fy_draws_ok(i0.len(), d) && indices@ == #[trigger] fisher_yates(i0, d);
            assert(r@ == picked(a@, fisher_yates(indices_upto(a@.len()), d), size as nat));
            assert(r@ == picked(a@, indices@, size as nat));
            assert forall|t: int| 0 <= t < size implies r@[t] == a@[#[trigger] indices@[t] as int] by {
                assert(r@[t] == picked(a@, indices@, size as nat)[t]);
            }
        }
        let ghost idx = indices@.take(size as int);
        assert(idx.no_duplicates());
        assert(forall|t: int| 0 <= t < idx.len() ==> r@[t] == a@[#[trigger] idx[t] as int]);
        assert(drawn_from(r@, a@, true));
        proof {
            if a@.no_duplicates() {
                assert forall|i: int, j: int| 0 <= i < r@.len() && 0 <= j < r@.len() && i != j implies r@[i] != r@[j] by {
                    assert(r@[i] == a@[idx[i] as int]);
                    assert(r@[j] == a@[idx[j] as int]);
                    assert(idx[i] != idx[j]);
                }
            }
        }
        r
    }
}

} // verus!
