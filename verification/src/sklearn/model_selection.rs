//! Train/test splitting and cross-validation splitters: K-fold and stratified K-fold.
use crate::grid::Grid;
use crate::np::random::{
    is_permutation_of, is_permutation_of_range, lemma_permutation_of_range, range_vec, rng_shuffle,
    seeded_std_rng, std_rng_from_entropy, std_rng_seed_from_u64, std_rng_shuffled, thread_shuffle, fisher_yates,
    fy_draws_ok,
};
use vstd::prelude::*;

verus! {

/// The indices `0..n` in order.
pub open spec fn range_seq(n: nat) -> Seq<usize> {
    Seq::new(n, |i: int| i as usize)
}

/// The validation part of each fold.
pub open spec fn val_parts(folds: Seq<(Vec<usize>, Vec<usize>)>) -> Seq<Seq<usize>> {
    folds.map_values(|f: (Vec<usize>, Vec<usize>)| f.1@)
}

/// The training part of each fold.
pub open spec fn train_parts(folds: Seq<(Vec<usize>, Vec<usize>)>) -> Seq<Seq<usize>> {
    folds.map_values(|f: (Vec<usize>, Vec<usize>)| f.0@)
}

/// Where fold `i` of `k` starts when `n` items are cut into `k` consecutive
/// folds whose sizes differ by at most one, the larger ones first.
pub open spec fn fold_start(n: int, k: int, i: int) -> int {
    i * (n / k) + if i < n % k { i } else { n % k }
}

/// Size of fold `i` of `k` over `n` items: `n / k`, plus one for the first `n % k` folds.
pub open spec fn fold_size(n: int, k: int, i: int) -> int {
    n / k + if i < n % k { 1int } else { 0int }
}

proof fn lemma_fold_start_step(n: int, k: int, i: int)
    requires
        k > 0,
        n >= 0,
        0 <= i < k,
    ensures
        fold_start(n, k, i + 1) == fold_start(n, k, i) + fold_size(n, k, i),
        0 <= fold_start(n, k, i) <= fold_start(n, k, i + 1) <= n,
{
    let q = n / k;
    let r = n % k;
    vstd::arithmetic::div_mod::lemma_fundamental_div_mod(n, k);
    assert((i + 1) * q == i * q + q) by (nonlinear_arith);
    assert(q >= 0) by (nonlinear_arith)
        requires
            n >= 0,
            k > 0,
            q == n / k,
    ;
    assert((i + 1) * q <= k * q) by (nonlinear_arith)
        requires
            i + 1 <= k,
            q >= 0,
    ;
    assert(i * q >= 0) by (nonlinear_arith)
        requires
            i >= 0,
            q >= 0,
    ;
}

proof fn lemma_fold_start_end(n: int, k: int)
    requires
        k > 0,
        n >= 0,
    ensures
        fold_start(n, k, 0) == 0,
        fold_start(n, k, k) == n,
{
    vstd::arithmetic::div_mod::lemma_fundamental_div_mod(n, k);
    assert(k * (n / k) == (n / k) * k) by (nonlinear_arith);
}

/// Copies `v[start..end]` to the end of `out`.
fn extend_with_range(out: &mut Vec<usize>, v: &Vec<usize>, start: usize, end: usize)
    requires
        start <= end <= v@.len(),
    ensures
        final(out)@ == old(out)@ + v@.subrange(start as int, end as int),
{
    let ghost o = out@;
    let mut k: usize = start;
    while k < end
        invariant
            start <= k <= end <= v@.len(),
            out@ == o + v@.subrange(start as int, k as int),
        decreases end - k,
    {
        out.push(v[k]);
        proof {
            assert(v@.subrange(start as int, k + 1) =~= v@.subrange(start as int, k as int).push(
                v@[k as int],
            ));
        }
        k = k + 1;
    }
}

/// Validation folds that, read in order, hold each index of `0..n` exactly once.
pub open spec fn each_once(vals: Seq<Seq<usize>>, n: nat) -> bool {
    is_permutation_of(vals.flatten(), range_seq(n))
}

/// Fold `i` validates on the `i`-th consecutive run of `flat` and trains on the rest.
pub open spec fn fold_cut_from(
    folds: Seq<(Vec<usize>, Vec<usize>)>,
    flat: Seq<usize>,
    n: int,
    k: int,
    i: int,
) -> bool {
    let s = fold_start(n, k, i);
    let e = fold_start(n, k, i + 1);
    &&& folds[i].1@ == flat.subrange(s, e)
    &&& folds[i].0@ == flat.take(s) + flat.skip(e)
}

/// Fold `i` of a K-fold split of `n` items into `k` folds: its validation part
/// is the `i`-th consecutive run (of `fold_size` items) of the validation
/// parts read in order, and it trains on everything else, in the same order,
/// so that training and validation parts together hold each of `0..n` once.
pub open spec fn kfold_fold_ok(folds: Seq<(Vec<usize>, Vec<usize>)>, n: int, k: int, i: int) -> bool {
    let flat = val_parts(folds).flatten();
    let s = fold_start(n, k, i);
    let e = fold_start(n, k, i + 1);
    &&& val_parts(folds)[i] == flat.subrange(s, e)
    &&& val_parts(folds)[i].len() == fold_size(n, k, i)
    &&& train_parts(folds)[i] == flat.take(s) + flat.skip(e)
    &&& is_permutation_of_range(train_parts(folds)[i] + val_parts(folds)[i], n as nat)
}

/// K-Fold cross-validator.
pub struct KFold {
    pub n_splits: usize,
    pub shuffle: bool,
    pub seed: Option<u64>,
}

impl KFold {
    /// A splitter into `n_splits` folds; at least two are needed.
    pub fn new(n_splits: usize, shuffle: bool, seed: Option<u64>) -> (r: Self)
        requires
            n_splits >= 2,
        ensures
            r.n_splits == n_splits,
            r.shuffle == shuffle,
            r.seed == seed,
    {
        KFold { n_splits, shuffle, seed }
    }

    /// Splits `0..n_samples` into `n_splits` `(train, validation)` pairs.
    ///
    /// The indices are shuffled first when `shuffle` is set (with a generator
    /// seeded from `seed`, or from the operating system without one). The
    /// validation folds then take consecutive runs of that order, the first
    /// `n_samples % n_splits` of them one longer than the rest, so that every
    /// index is validated in exactly one fold; each fold trains on the rest,
    /// in the same order.
    pub fn split(&self, n_samples: usize) -> (folds: Vec<(Vec<usize>, Vec<usize>)>)
        requires
            self.n_splits > 0,
            n_samples >= self.n_splits,
        ensures
            folds@.len() == self.n_splits,
            each_once(val_parts(folds@), n_samples as nat),
            is_permutation_of_range(val_parts(folds@).flatten(), n_samples as nat),
            !self.shuffle ==> val_parts(folds@).flatten() == range_seq(n_samples as nat),
            self.shuffle && self.seed is Some ==> val_parts(folds@).flatten() == std_rng_shuffled(
                range_seq(n_samples as nat),
                seeded_std_rng(self.seed->0),
            ).0,
            forall|i: int|
                0 <= i < self.n_splits ==> #[trigger] kfold_fold_ok(
                    folds@,
                    n_samples as int,
                    self.n_splits as int,
                    i,
                ),
    {
        let k = self.n_splits;
        let mut indices: Vec<usize> = Vec::with_capacity(n_samples);
        let mut t: usize = 0;
        while t < n_samples
            invariant
                t <= n_samples,
                indices@ == range_seq(t as nat),
            decreases n_samples - t,
        {
            indices.push(t);
            proof {
                assert(range_seq((t + 1) as nat) =~= range_seq(t as nat).push(t));
            }
            t = t + 1;
        }
        proof {
            assert(is_permutation_of(indices@, range_seq(n_samples as nat)));
        }
        if self.shuffle {
            let mut rng = match self.seed {
                Some(s) => std_rng_seed_from_u64(s),
                None => std_rng_from_entropy(),
            };
            rng_shuffle(&mut indices, &mut rng);
        }
        let ghost flat = indices@;
        assert(self.shuffle && self.seed is Some ==> flat == std_rng_shuffled(
            range_seq(n_samples as nat),
            seeded_std_rng(self.seed->0),
        ).0);
        proof {
            lemma_permutation_of_range(indices@, n_samples as nat);
            lemma_fold_start_end(n_samples as int, k as int);
        }
        let base_size = n_samples / k;
        let remainder = n_samples % k;
        let mut folds: Vec<(Vec<usize>, Vec<usize>)> = Vec::with_capacity(k);
        let mut start: usize = 0;
        let mut i: usize = 0;
        while i < k
            invariant
                k == self.n_splits,
                k > 0,
                n_samples >= k,
                base_size == n_samples / k,
                remainder == n_samples % k,
                flat == indices@,
                flat.len() == n_samples,
                is_permutation_of(flat, range_seq(n_samples as nat)),
                i <= k,
                start == fold_start(n_samples as int, k as int, i as int),
                folds@.len() == i,
                val_parts(folds@).flatten() == flat.take(start as int),
                forall|j: int|
                    0 <= j < i ==> #[trigger] fold_cut_from(folds@, flat, n_samples as int, k as int, j),
            decreases k - i,
        {
            proof {
                lemma_fold_start_step(n_samples as int, k as int, i as int);
            }
            let size = base_size + if i < remainder { 1 } else { 0 };
            let end = start + size;
            let mut val: Vec<usize> = Vec::new();
            extend_with_range(&mut val, &indices, start, end);
            let mut train: Vec<usize> = Vec::new();
            extend_with_range(&mut train, &indices, 0, start);
            extend_with_range(&mut train, &indices, end, n_samples);
            proof {
                broadcast use Seq::lemma_flatten_push;
                assert(flat.subrange(0, start as int) =~= flat.take(start as int));
                assert(flat.subrange(end as int, n_samples as int) =~= flat.skip(end as int));
                assert(val_parts(folds@.push((train, val))) =~= val_parts(folds@).push(val@));
                assert(train_parts(folds@.push((train, val))) =~= train_parts(folds@).push(
                    train@,
                ));
                assert(flat.take(start as int) + flat.subrange(start as int, end as int)
                    =~= flat.take(end as int));
            }
            let ghost prev = folds@;
            folds.push((train, val));
            proof {
                assert forall|j: int| 0 <= j < i + 1 implies #[trigger] fold_cut_from(
                    folds@,
                    flat,
                    n_samples as int,
                    k as int,
                    j,
                ) by {
                    if j < i {
                        assert(fold_cut_from(prev, flat, n_samples as int, k as int, j));
                        assert(folds@[j] == prev[j]);
                    }
                }
            }
            start = end;
            i = i + 1;
        }
        proof {
            assert(flat.take(n_samples as int) =~= flat);
            assert forall|j: int| 0 <= j < k implies #[trigger] kfold_fold_ok(
                folds@,
                n_samples as int,
                k as int,
                j,
            ) by {
                assert(fold_cut_from(folds@, flat, n_samples as int, k as int, j));
                let s = fold_start(n_samples as int, k as int, j);
                let e = fold_start(n_samples as int, k as int, j + 1);
                lemma_fold_start_step(n_samples as int, k as int, j);
                let a = flat.take(s);
                let b = flat.subrange(s, e);
                let c = flat.skip(e);
                assert(a + b + c =~= flat);
                vstd::seq_lib::lemma_multiset_commutative(a + c, b);
                vstd::seq_lib::lemma_multiset_commutative(a + b, c);
                vstd::seq_lib::lemma_multiset_commutative(a, b);
                vstd::seq_lib::lemma_multiset_commutative(a, c);
                assert((a + c + b).to_multiset() =~= flat.to_multiset()) by {
                    broadcast use vstd::multiset::group_multiset_axioms;
                }
                lemma_permutation_of_range(a + c + b, n_samples as nat);
            }
        }
        folds
    }
}

/// How many entries of `y` equal `c`.
pub open spec fn count_key(y: Seq<u64>, c: u64) -> nat
    decreases y.len(),
{
    if y.len() == 0 {
        0
    } else {
        count_key(y.drop_last(), c) + if y.last() == c { 1nat } else { 0nat }
    }
}

/// How many entries `x` of `s` carry the label `c` (`y[x] == c`).
pub open spec fn count_class(s: Seq<usize>, y: Seq<u64>, c: u64) -> nat
    decreases s.len(),
{
    if s.len() == 0 {
        0
    } else {
        count_class(s.drop_last(), y, c) + if y[s.last() as int] == c { 1nat } else { 0nat }
    }
}

/// How many of `0..m` leave remainder `i` when divided by `k`.
pub open spec fn residue_count(m: nat, k: nat, i: nat) -> nat
    decreases m,
{
    if m == 0 {
        0
    } else {
        residue_count((m - 1) as nat, k, i) + if (m - 1) % (k as int) == i { 1nat } else { 0nat }
    }
}

/// Dealing `m` items round-robin into `k` folds gives fold `i` exactly
/// `fold_size(m, k, i)` of them.
pub proof fn lemma_residue_count(m: nat, k: nat, i: nat)
    requires
        k > 0,
        i < k,
    ensures
        residue_count(m, k, i) == fold_size(m as int, k as int, i as int),
    decreases m,
{
    if m == 0 {
        assert(0nat / k == 0) by (nonlinear_arith)
            requires
                k > 0,
        ;
        assert(0nat % k == 0) by (nonlinear_arith)
            requires
                k > 0,
        ;
    } else {
        lemma_residue_count((m - 1) as nat, k, i);
        let q = (m - 1) / (k as int);
        let r = (m - 1) % (k as int);
        vstd::arithmetic::div_mod::lemma_fundamental_div_mod(m - 1, k as int);
        if r + 1 < k {
            vstd::arithmetic::div_mod::lemma_fundamental_div_mod_converse(m as int, k as int, q, r + 1);
        } else {
            assert(k * q + r + 1 == k * (q + 1)) by (nonlinear_arith)
                requires
                    r + 1 == k,
            ;
            vstd::arithmetic::div_mod::lemma_fundamental_div_mod_converse(m as int, k as int, q + 1, 0);
        }
    }
}

/// Sum, over the first `g` groups, of what a group whose key is `c` deals to fold `i`.
pub open spec fn dealt_count(keys: Seq<u64>, lists: Seq<Seq<usize>>, g: int, c: u64, k: nat, i: nat) -> nat
    decreases g,
{
    if g <= 0 {
        0
    } else {
        dealt_count(keys, lists, g - 1, c, k, i) + if keys[g - 1] == c {
            residue_count(lists[g - 1].len(), k, i)
        } else {
            0nat
        }
    }
}

proof fn lemma_dealt_count(keys: Seq<u64>, lists: Seq<Seq<usize>>, g: int, c: u64, k: nat, i: nat)
    requires
        0 <= g <= keys.len(),
        keys.no_duplicates(),
    ensures
        forall|h: int|
            0 <= h < g && keys[h] == c ==> dealt_count(keys, lists, g, c, k, i) == residue_count(
                lists[h].len(),
                k,
                i,
            ),
        (forall|h: int| 0 <= h < g ==> keys[h] != c) ==> dealt_count(keys, lists, g, c, k, i) == 0,
    decreases g,
{
    if g > 0 {
        lemma_dealt_count(keys, lists, g - 1, c, k, i);
    }
}

/// Pushing `x` onto one of the sequences adds `x` to what they hold together.
pub proof fn lemma_flatten_update_push(ss: Seq<Seq<usize>>, r: int, x: usize)
    requires
        0 <= r < ss.len(),
    ensures
        ss.update(r, ss[r].push(x)).flatten().to_multiset() == ss.flatten().to_multiset().insert(x),
    decreases ss.len(),
{
    broadcast use vstd::seq_lib::group_to_multiset_ensures;
    broadcast use vstd::multiset::group_multiset_axioms;
    broadcast use vstd::seq_lib::lemma_multiset_commutative;

    let tt = ss.update(r, ss[r].push(x));
    assert(tt.flatten() == tt.first() + tt.drop_first().flatten());
    assert(ss.flatten() == ss.first() + ss.drop_first().flatten());
    if r == 0 {
        assert(tt.drop_first() =~= ss.drop_first());
        assert((ss[0].push(x)).to_multiset() == ss[0].to_multiset().insert(x));
        assert(tt.flatten().to_multiset() =~= ss.flatten().to_multiset().insert(x));
    } else {
        assert(tt.drop_first() =~= ss.drop_first().update(r - 1, ss.drop_first()[r - 1].push(x)));
        lemma_flatten_update_push(ss.drop_first(), r - 1, x);
        assert(tt.flatten().to_multiset() =~= ss.flatten().to_multiset().insert(x));
    }
}

/// Sequences that pairwise hold the same values hold the same values together.
pub proof fn lemma_flatten_permuted(ss: Seq<Seq<usize>>, tt: Seq<Seq<usize>>)
    requires
        ss.len() == tt.len(),
        forall|h: int| 0 <= h < ss.len() ==> is_permutation_of(#[trigger] ss[h], tt[h]),
    ensures
        is_permutation_of(ss.flatten(), tt.flatten()),
    decreases ss.len(),
{
    broadcast use vstd::seq_lib::lemma_multiset_commutative;

    if ss.len() > 0 {
        assert(is_permutation_of(ss[0], tt[0]));
        lemma_flatten_permuted(ss.drop_first(), tt.drop_first());
        assert(ss.flatten() == ss.first() + ss.drop_first().flatten());
        assert(tt.flatten() == tt.first() + tt.drop_first().flatten());
    }
}

/// The entries of `0..n` that `v` does not hold, in increasing order.
pub open spec fn complement(v: Seq<usize>, n: nat) -> Seq<usize> {
    range_seq(n).filter(|x: usize| !v.contains(x))
}

/// Fold `i` of a stratified split: each label contributes to its validation
/// part `fold_size` of its members (dealing them round-robin), and it trains on
/// all other indices in increasing order.
pub open spec fn stratified_fold_ok(folds: Seq<(Vec<usize>, Vec<usize>)>, y: Seq<u64>, k: int, i: int) -> bool {
    &&& forall|c: u64|
        #[trigger] count_class(folds[i].1@, y, c) == fold_size(count_key(y, c) as int, k, i)
    &&& folds[i].0@ == complement(folds[i].1@, y.len())
}

/// The labels of `y` in the order in which they first occur.
pub open spec fn first_keys(y: Seq<u64>) -> Seq<u64>
    decreases y.len(),
{
    if y.len() == 0 {
        Seq::empty()
    } else {
        let ks = first_keys(y.drop_last());
        if ks.contains(y.last()) {
            ks
        } else {
            ks.push(y.last())
        }
    }
}

/// The positions among the first `p` of `y` that carry the label `c`, in increasing order.
pub open spec fn members_upto(y: Seq<u64>, c: u64, p: nat) -> Seq<usize>
    decreases p,
{
    if p == 0 {
        Seq::empty()
    } else {
        members_upto(y, c, (p - 1) as nat) + if y[p - 1] == c {
            seq![(p - 1) as usize]
        } else {
            Seq::<usize>::empty()
        }
    }
}

/// The members of each label of `y` in increasing order, labels in the order
/// in which they first occur.
pub open spec fn class_lists(y: Seq<u64>) -> Seq<Seq<usize>> {
    first_keys(y).map_values(|c: u64| members_upto(y, c, y.len()))
}

/// The entries of `l` at positions `i`, `i + k`, `i + 2k`, ...
pub open spec fn every_kth(l: Seq<usize>, k: nat, i: nat) -> Seq<usize>
    decreases l.len(),
{
    if l.len() == 0 {
        Seq::empty()
    } else {
        every_kth(l.drop_last(), k, i) + if (l.len() - 1) % (k as int) == i {
            seq![l.last()]
        } else {
            Seq::<usize>::empty()
        }
    }
}

/// What fold `i` of `k` receives when the lists are dealt round-robin, one
/// list after the other, each starting again at fold 0.
pub open spec fn dealt(lists: Seq<Seq<usize>>, k: nat, i: nat) -> Seq<usize>
    decreases lists.len(),
{
    if lists.len() == 0 {
        Seq::empty()
    } else {
        dealt(lists.drop_last(), k, i) + every_kth(lists.last(), k, i)
    }
}

/// The lists after each is shuffled in turn with one `StdRng` that starts in
/// state `rng`, with the generator's state at the end.
pub open spec fn shuffled_lists(lists: Seq<Seq<usize>>, rng: rand::rngs::StdRng) -> (Seq<Seq<usize>>, rand::rngs::StdRng)
    decreases lists.len(),
{
    if lists.len() == 0 {
        (Seq::empty(), rng)
    } else {
        let (done, r) = shuffled_lists(lists.drop_last(), rng);
        let (g, r2) = std_rng_shuffled(lists.last(), r);
        (done.push(g), r2)
    }
}

/// Stratified K-Fold cross-validator preserving class distribution.
pub struct StratifiedKFold {
    pub n_splits: usize,
    pub shuffle: bool,
    pub seed: Option<u64>,
}

impl StratifiedKFold {
    /// A splitter into `n_splits` folds; at least two are needed.
    pub fn new(n_splits: usize, shuffle: bool, seed: Option<u64>) -> (r: Self)
        requires
            n_splits >= 2,
        ensures
            r.n_splits == n_splits,
            r.shuffle == shuffle,
            r.seed == seed,
    {
        StratifiedKFold { n_splits, shuffle, seed }
    }

    /// Splits the samples labelled `y` (each label given by the bit pattern of
    /// its value) into `n_splits` `(train, validation)` pairs.
    ///
    /// The members of each label, taken in increasing order (shuffled first
    /// when `shuffle` is set, with a generator seeded from `seed`, or from the
    /// operating system without one), are dealt round-robin to the validation
    /// folds, label after label in the order in which labels first occur. Every
    /// index is validated in exactly one fold, every label is spread over the
    /// folds as evenly as possible, and each fold trains on all the indices it
    /// does not validate, in increasing order.
    pub fn split(&self, y: &[u64]) -> (folds: Vec<(Vec<usize>, Vec<usize>)>)
        requires
            self.n_splits > 0,
            y@.len() >= self.n_splits,
        ensures
            folds@.len() == self.n_splits,
            each_once(val_parts(folds@), y@.len()),
            !self.shuffle ==> forall|i: int|
                0 <= i < self.n_splits ==> #[trigger] folds@[i].1@ == dealt(
                    class_lists(y@),
                    self.n_splits as nat,
                    i as nat,
                ),
            self.shuffle && self.seed is Some ==> forall|i: int|
                0 <= i < self.n_splits ==> #[trigger] folds@[i].1@ == dealt(
                    shuffled_lists(class_lists(y@), seeded_std_rng(self.seed->0)).0,
                    self.n_splits as nat,
                    i as nat,
                ),
            forall|i: int|
                0 <= i < self.n_splits ==> #[trigger] stratified_fold_ok(
                    folds@,
                    y@,
                    self.n_splits as int,
                    i,
                ),
    {
        let n = y.len();
        let k = self.n_splits;
        let ghost ys = y@;
        // Group the indices by label, labels in order of first occurrence.
        let mut keys: Vec<u64> = Vec::new();
        let mut lists: Vec<Vec<usize>> = Vec::new();
        let mut p: usize = 0;
        proof {
            assert(crate::numpy_ml::neural_nets::utils::views(lists@) =~= Seq::<Seq<usize>>::empty());
            assert(range_seq(0) =~= Seq::<usize>::empty());
            assert(ys.take(0) =~= Seq::<u64>::empty());
        }
        while p < n
            invariant
                n == ys.len(),
                ys == y@,
                p <= n,
                keys@.len() == lists@.len(),
                keys@.no_duplicates(),
                forall|h: int, t: int|
                    0 <= h < lists@.len() && 0 <= t < lists@[h]@.len() ==> #[trigger] lists@[h]@[t] < p
                        && ys[lists@[h]@[t] as int] == keys@[h],
                is_permutation_of(crate::numpy_ml::neural_nets::utils::views(lists@).flatten(), range_seq(p as nat)),
                forall|h: int| 0 <= h < lists@.len() ==> #[trigger] lists@[h]@.len() == count_key(ys.take(p as int), keys@[h]),
                forall|c: u64| !keys@.contains(c) ==> #[trigger] count_key(ys.take(p as int), c) == 0,
                keys@ == first_keys(ys.take(p as int)),
                forall|h: int| 0 <= h < lists@.len() ==> #[trigger] lists@[h]@ == members_upto(ys, keys@[h], p as nat),
                forall|c: u64| !keys@.contains(c) ==> #[trigger] members_upto(ys, c, p as nat) == Seq::<usize>::empty(),
            decreases n - p,
        {
            let lab = y[p];
            let mut h: usize = 0;
            let mut found = false;
            while h < keys.len() && !found
                invariant
                    h <= keys@.len(),
                    found ==> h < keys@.len() && keys@[h as int] == lab,
                    !found ==> forall|t: int| 0 <= t < h ==> keys@[t] != lab,
                decreases keys@.len() - h, if found { 0int } else { 1int },
            {
                if keys[h] == lab {
                    found = true;
                } else {
                    h = h + 1;
                }
            }
            let ghost old_lists = crate::numpy_ml::neural_nets::utils::views(lists@);
            proof {
                broadcast use vstd::seq_lib::group_to_multiset_ensures;
                assert(ys.take(p + 1).drop_last() =~= ys.take(p as int));
                assert(ys.take(p + 1).last() == lab);
                assert(range_seq((p + 1) as nat) =~= range_seq(p as nat).push(p));
                assert(range_seq((p + 1) as nat).to_multiset() == range_seq(p as nat).to_multiset().insert(p));
                assert forall|c: u64| #[trigger] count_key(ys.take(p + 1), c) == count_key(ys.take(p as int), c)
                    + if lab == c { 1nat } else { 0nat } by {
                }
            }
            let ghost old_keys0 = keys@;
            let ghost old_raw = lists@;
            proof {
                assert(found ==> old_keys0.contains(lab));
                assert(!found ==> !old_keys0.contains(lab));
                assert(first_keys(ys.take(p + 1)) == if old_keys0.contains(lab) {
                    old_keys0
                } else {
                    old_keys0.push(lab)
                });
                assert forall|c: u64| #[trigger] members_upto(ys, c, (p + 1) as nat) == members_upto(ys, c, p as nat) + if lab == c {
                    seq![p]
                } else {
                    Seq::<usize>::empty()
                } by {
                }
            }
            if found {
                lists[h].push(p);
                proof {
                    assert(crate::numpy_ml::neural_nets::utils::views(lists@) =~= old_lists.update(
                        h as int,
                        old_lists[h as int].push(p),
                    ));
                    lemma_flatten_update_push(old_lists, h as int, p);
                    broadcast use vstd::seq_lib::group_to_multiset_ensures;
                    assert forall|h2: int| 0 <= h2 < lists@.len() implies #[trigger] lists@[h2]@ == members_upto(ys, keys@[h2], (p + 1) as nat) by {
                        assert(members_upto(ys, keys@[h2], (p + 1) as nat) == members_upto(ys, keys@[h2], p as nat) + if lab == keys@[h2] {
                            seq![p]
                        } else {
                            Seq::<usize>::empty()
                        });
                        if h2 == h {
                            assert(lists@[h2]@ =~= old_raw[h2]@.push(p));
                        } else {
                            assert(lists@[h2] == old_raw[h2]);
                            assert(keys@[h2] != lab);
                            assert(lists@[h2]@ =~= members_upto(ys, keys@[h2], (p + 1) as nat));
                        }
                    }
                    assert forall|c: u64| !keys@.contains(c) implies #[trigger] members_upto(ys, c, (p + 1) as nat) == Seq::<usize>::empty() by {
                        assert(c != lab);
                        assert(members_upto(ys, c, (p + 1) as nat) =~= members_upto(ys, c, p as nat));
                    }
                }
            } else {
                let mut fresh: Vec<usize> = Vec::new();
                fresh.push(p);
                proof {
                    assert(!keys@.contains(lab));
                }
                let ghost old_keys = keys@;
                proof {
                    assert forall|c: u64| !old_keys.contains(c) implies #[trigger] count_key(ys.take(p as int), c) == 0 by {
                    }
                }
                keys.push(lab);
                lists.push(fresh);
                proof {
                    broadcast use Seq::lemma_flatten_push;
                    broadcast use vstd::seq_lib::group_to_multiset_ensures;
                    broadcast use vstd::seq_lib::lemma_multiset_commutative;
                    assert(crate::numpy_ml::neural_nets::utils::views(lists@) =~= old_lists.push(fresh@));
                    assert(fresh@ =~= Seq::<usize>::empty().push(p));
                    assert(fresh@.to_multiset() =~= vstd::multiset::Multiset::<usize>::empty().insert(p)) by {
                        broadcast use vstd::multiset::group_multiset_axioms;
                        assert(Seq::<usize>::empty().to_multiset() =~= vstd::multiset::Multiset::<usize>::empty());
                    }
                    assert((old_lists.flatten() + fresh@).to_multiset() =~= old_lists.flatten().to_multiset().insert(p)) by {
                        broadcast use vstd::multiset::group_multiset_axioms;
                    }
                    assert(members_upto(ys, lab, p as nat) == Seq::<usize>::empty());
                    assert forall|h2: int| 0 <= h2 < lists@.len() implies #[trigger] lists@[h2]@ == members_upto(ys, keys@[h2], (p + 1) as nat) by {
                        assert(members_upto(ys, keys@[h2], (p + 1) as nat) == members_upto(ys, keys@[h2], p as nat) + if lab == keys@[h2] {
                            seq![p]
                        } else {
                            Seq::<usize>::empty()
                        });
                        if h2 == old_keys.len() {
                            assert(keys@[h2] == lab);
                            assert(lists@[h2]@ =~= members_upto(ys, keys@[h2], (p + 1) as nat));
                        } else {
                            assert(lists@[h2] == old_raw[h2]);
                            assert(keys@[h2] == old_keys[h2]);
                            assert(old_keys.contains(old_keys[h2]));
                            assert(keys@[h2] != lab);
                            assert(lists@[h2]@ =~= members_upto(ys, keys@[h2], (p + 1) as nat));
                        }
                    }
                    assert forall|c: u64| !keys@.contains(c) implies #[trigger] members_upto(ys, c, (p + 1) as nat) == Seq::<usize>::empty() by {
                        assert(keys@[old_keys.len() as int] == lab);
                        assert(c != lab);
                        if old_keys.contains(c) {
                            let w = choose|w: int| 0 <= w < old_keys.len() && old_keys[w] == c;
                            assert(keys@[w] == c);
                        }
                        assert(members_upto(ys, c, (p + 1) as nat) =~= members_upto(ys, c, p as nat));
                    }
                    assert forall|c: u64| !keys@.contains(c) implies #[trigger] count_key(ys.take((p + 1) as int), c) == 0 by {
                        assert(keys@ == old_keys.push(lab));
                        assert(keys@[old_keys.len() as int] == lab);
                        if old_keys.contains(c) {
                            let w = choose|w: int| 0 <= w < old_keys.len() && old_keys[w] == c;
                            assert(keys@[w] == c);
                        }
                        assert(count_key(ys.take(p as int), c) == 0);
                        assert(count_key(ys.take(p + 1), c) == count_key(ys.take(p as int), c)
                            + if lab == c { 1nat } else { 0nat });
                    }
                }
            }
            p = p + 1;
        }
        proof {
            assert(ys.take(n as int) =~= ys);
        }
        let mut rng = match self.seed {
            Some(s) => std_rng_seed_from_u64(s),
            None => std_rng_from_entropy(),
        };
        let ghost rng0 = rng;
        // Deal each label's members round-robin to the validation folds.
        let mut fold_val: Vec<Vec<usize>> = Vec::new();
        let mut f: usize = 0;
        while f < k
            invariant
                f <= k,
                fold_val@.len() == f,
                forall|i: int| 0 <= i < f ==> #[trigger] fold_val@[i]@.len() == 0,
            decreases k - f,
        {
            fold_val.push(Vec::new());
            f = f + 1;
        }
        let ghost lists_v = crate::numpy_ml::neural_nets::utils::views(lists@);
        let ghost mut done: Seq<Seq<usize>> = Seq::empty();
        proof {
            lemma_flatten_empties(crate::numpy_ml::neural_nets::utils::views(fold_val@));
            assert forall|i: int| 0 <= i < k implies #[trigger] fold_val@[i]@ == dealt(done, k as nat, i as nat) by {
                assert(fold_val@[i]@ =~= Seq::<usize>::empty());
            }
            assert(lists_v.take(0) =~= done);
            assert(keys@ == first_keys(ys));
            assert forall|h: int| 0 <= h < lists_v.len() implies #[trigger] lists_v[h] == class_lists(ys)[h] by {
                assert(lists@[h]@ == members_upto(ys, keys@[h], n as nat));
            }
            assert(lists_v =~= class_lists(ys));
        }
        let n_groups = lists.len();
        let mut g: usize = 0;
        while g < n_groups
            invariant
                n == ys.len(),
                k > 0,
                n_groups == lists@.len(),
                n_groups == keys@.len(),
                lists_v == crate::numpy_ml::neural_nets::utils::views(lists@),
                keys@.no_duplicates(),
                forall|h: int, t: int|
                    0 <= h < lists@.len() && 0 <= t < lists@[h]@.len() ==> #[trigger] lists@[h]@[t] < n
                        && ys[lists@[h]@[t] as int] == keys@[h],
                g <= n_groups,
                done.len() == g,
                forall|h: int| 0 <= h < g ==> is_permutation_of(#[trigger] done[h], lists_v[h]),
                fold_val@.len() == k,
                forall|i: int, t: int|
                    0 <= i < k && 0 <= t < fold_val@[i]@.len() ==> #[trigger] fold_val@[i]@[t] < n,
                crate::numpy_ml::neural_nets::utils::views(fold_val@).flatten().to_multiset() == done.flatten().to_multiset(),
                forall|i: int, c: u64|
                    0 <= i < k ==> #[trigger] count_class(fold_val@[i]@, ys, c) == dealt_count(
                        keys@,
                        done,
                        g as int,
                        c,
                        k as nat,
                        i as nat,
                    ),
                forall|i: int| 0 <= i < k ==> #[trigger] fold_val@[i]@ == dealt(done, k as nat, i as nat),
                !self.shuffle ==> done == lists_v.take(g as int),
                self.shuffle ==> (done, rng) == shuffled_lists(lists_v.take(g as int), rng0),
            decreases n_groups - g,
        {
            let mut members: Vec<usize> = Vec::new();
            let glen = lists[g].len();
            let mut t: usize = 0;
            while t < glen
                invariant
                    g < lists@.len(),
                    glen == lists@[g as int]@.len(),
                    t <= glen,
                    members@ == lists@[g as int]@.take(t as int),
                decreases glen - t,
            {
                members.push(lists[g][t]);
                proof {
                    assert(lists@[g as int]@.take(t + 1) =~= lists@[g as int]@.take(t as int).push(
                        lists@[g as int]@[t as int],
                    ));
                }
                t = t + 1;
            }
            proof {
                assert(lists@[g as int]@.take(glen as int) =~= lists@[g as int]@);
            }
            let ghost m0 = members@;
            let ghost r0 = rng;
            proof {
                assert(m0 == lists_v[g as int]);
            }
            if self.shuffle {
                rng_shuffle(&mut members, &mut rng);
            }
            proof {
                broadcast use vstd::seq_lib::group_to_multiset_ensures;
                assert forall|t2: int| 0 <= t2 < members@.len() implies #[trigger] members@[t2] < n
                    && ys[members@[t2] as int] == keys@[g as int] by {
                    assert(members@.contains(members@[t2]));
                    assert(lists_v[g as int].to_multiset().count(members@[t2]) > 0);
                    assert(lists_v[g as int].contains(members@[t2]));
                    let w = choose|w: int| 0 <= w < lists_v[g as int].len() && lists_v[g as int][w] == members@[t2];
                    assert(lists@[g as int]@[w] == members@[t2]);
                }
            }
            let mlen = members.len();
            let mut j: usize = 0;
            while j < mlen
                invariant
                    n == ys.len(),
                    k > 0,
                    g < keys@.len(),
                    mlen == members@.len(),
                    j <= mlen,
                    forall|t2: int| 0 <= t2 < members@.len() ==> #[trigger] members@[t2] < n
                        && ys[members@[t2] as int] == keys@[g as int],
                    fold_val@.len() == k,
                    forall|i: int, t: int|
                        0 <= i < k && 0 <= t < fold_val@[i]@.len() ==> #[trigger] fold_val@[i]@[t] < n,
                    crate::numpy_ml::neural_nets::utils::views(fold_val@).flatten().to_multiset() == done.flatten().to_multiset().add(
                        members@.take(j as int).to_multiset(),
                    ),
                    forall|i: int, c: u64|
                        0 <= i < k ==> #[trigger] count_class(fold_val@[i]@, ys, c) == dealt_count(
                            keys@,
                            done,
                            g as int,
                            c,
                            k as nat,
                            i as nat,
                        ) + if keys@[g as int] == c {
                            residue_count(j as nat, k as nat, i as nat)
                        } else {
                            0nat
                        },
                    forall|i: int|
                        0 <= i < k ==> #[trigger] fold_val@[i]@ == dealt(done, k as nat, i as nat) + every_kth(
                            members@.take(j as int),
                            k as nat,
                            i as nat,
                        ),
                decreases mlen - j,
            {
                let r = j % k;
                let x = members[j];
                let ghost before = fold_val@;
                fold_val[r].push(x);
                proof {
                    broadcast use vstd::seq_lib::group_to_multiset_ensures;
                    broadcast use vstd::multiset::group_multiset_axioms;
                    let bv = crate::numpy_ml::neural_nets::utils::views(before);
                    assert(crate::numpy_ml::neural_nets::utils::views(fold_val@) =~= bv.update(
                        r as int,
                        bv[r as int].push(x),
                    ));
                    lemma_flatten_update_push(bv, r as int, x);
                    assert(members@.take(j + 1) =~= members@.take(j as int).push(x));
                    assert(crate::numpy_ml::neural_nets::utils::views(fold_val@).flatten().to_multiset() =~= done.flatten().to_multiset().add(
                        members@.take(j + 1).to_multiset(),
                    ));
                    assert forall|i: int, c: u64| 0 <= i < k implies #[trigger] count_class(
                        fold_val@[i]@,
                        ys,
                        c,
                    ) == dealt_count(keys@, done, g as int, c, k as nat, i as nat) + if keys@[g as int]
                        == c {
                        residue_count((j + 1) as nat, k as nat, i as nat)
                    } else {
                        0nat
                    } by {
                        assert(residue_count((j + 1) as nat, k as nat, i as nat) == residue_count(
                            j as nat,
                            k as nat,
                            i as nat,
                        ) + if (j as int) % (k as int) == i { 1nat } else { 0nat });
                        assert(count_class(before[i]@, ys, c) == dealt_count(keys@, done, g as int, c, k as nat, i as nat)
                            + if keys@[g as int] == c {
                            residue_count(j as nat, k as nat, i as nat)
                        } else {
                            0nat
                        });
                        if i == r {
                            assert(fold_val@[i]@.drop_last() =~= before[i]@);
                            assert(fold_val@[i]@.last() == x);
                            assert(ys[x as int] == keys@[g as int]);
                        } else {
                            assert(fold_val@[i] == before[i]);
                        }
                    }
                    assert forall|i: int, t: int|
                        0 <= i < k && 0 <= t < fold_val@[i]@.len() implies #[trigger] fold_val@[i]@[t] < n by {
                        if i != r || t < before[i]@.len() {
                            assert(fold_val@[i]@[t] == before[i]@[t]);
                        }
                    }
                    assert forall|i: int| 0 <= i < k implies #[trigger] fold_val@[i]@ == dealt(done, k as nat, i as nat)
                        + every_kth(members@.take(j + 1), k as nat, i as nat) by {
                        let tj = members@.take(j as int);
                        let tj1 = members@.take(j + 1);
                        assert(tj1.drop_last() =~= tj);
                        assert(tj1.last() == x);
                        assert(before[i]@ == dealt(done, k as nat, i as nat) + every_kth(tj, k as nat, i as nat));
                        if i == r {
                            assert(fold_val@[i]@ =~= before[i]@.push(x));
                            assert(every_kth(tj1, k as nat, i as nat) == every_kth(tj, k as nat, i as nat) + seq![x]);
                            assert(dealt(done, k as nat, i as nat) + every_kth(tj1, k as nat, i as nat) =~= (dealt(
                                done,
                                k as nat,
                                i as nat,
                            ) + every_kth(tj, k as nat, i as nat)).push(x));
                        } else {
                            assert(fold_val@[i] == before[i]);
                            assert(every_kth(tj1, k as nat, i as nat) =~= every_kth(tj, k as nat, i as nat));
                        }
                    }
                }
                j = j + 1;
            }
            proof {
                broadcast use Seq::lemma_flatten_push;
                broadcast use vstd::seq_lib::lemma_multiset_commutative;
                assert(members@.take(mlen as int) =~= members@);
                let nd = done.push(members@);
                assert forall|i: int, c: u64| 0 <= i < k implies #[trigger] count_class(fold_val@[i]@, ys, c)
                    == dealt_count(keys@, nd, (g + 1) as int, c, k as nat, i as nat) by {
                    assert(dealt_count(keys@, nd, g as int, c, k as nat, i as nat) == dealt_count(
                        keys@,
                        done,
                        g as int,
                        c,
                        k as nat,
                        i as nat,
                    )) by {
                        lemma_dealt_count_prefix(keys@, done, nd, g as int, c, k as nat, i as nat);
                    }
                }
                assert forall|h: int| 0 <= h < g + 1 implies is_permutation_of(#[trigger] nd[h], lists_v[h]) by {
                    if h < g {
                        assert(nd[h] == done[h]);
                    }
                }
                assert(nd.drop_last() =~= done);
                assert(nd.last() == members@);
                assert forall|i: int| 0 <= i < k implies #[trigger] fold_val@[i]@ == dealt(nd, k as nat, i as nat) by {
                    assert(dealt(nd, k as nat, i as nat) == dealt(done, k as nat, i as nat) + every_kth(members@, k as nat, i as nat));
                }
                assert(lists_v.take(g + 1).drop_last() =~= lists_v.take(g as int));
                assert(lists_v.take(g + 1).last() == lists_v[g as int]);
                if !self.shuffle {
                    assert(nd =~= lists_v.take(g + 1));
                } else {
                    assert(shuffled_lists(lists_v.take(g + 1), rng0) == (nd, rng));
                }
                done = nd;
            }
            g = g + 1;
        }
        proof {
            lemma_flatten_permuted(done, lists_v);
            assert(lists_v.take(n_groups as int) =~= lists_v);
        }
        // Each fold trains on everything it does not validate.
        let mut folds: Vec<(Vec<usize>, Vec<usize>)> = Vec::new();
        let mut i: usize = 0;
        while i < k
            invariant
                n == ys.len(),
                k > 0,
                fold_val@.len() == k,
                i <= k,
                folds@.len() == i,
                forall|i2: int, t: int|
                    0 <= i2 < k && 0 <= t < fold_val@[i2]@.len() ==> #[trigger] fold_val@[i2]@[t] < n,
                forall|j: int| 0 <= j < i ==> #[trigger] folds@[j].1@ == fold_val@[j]@,
                forall|j: int| 0 <= j < i ==> #[trigger] folds@[j].0@ == complement(fold_val@[j]@, n as nat),
            decreases k - i,
        {
            let val = copy_all(&fold_val[i]);
            let train = complement_of(&val, n);
            let ghost before = folds@;
            folds.push((train, val));
            proof {
                assert forall|j: int| 0 <= j < i + 1 implies #[trigger] folds@[j].1@ == fold_val@[j]@ by {
                    if j < i {
                        assert(folds@[j] == before[j]);
                    }
                }
                assert forall|j: int| 0 <= j < i + 1 implies #[trigger] folds@[j].0@ == complement(
                    fold_val@[j]@,
                    n as nat,
                ) by {
                    if j < i {
                        assert(folds@[j] == before[j]);
                    }
                }
            }
            i = i + 1;
        }
        proof {
            assert(val_parts(folds@) =~= crate::numpy_ml::neural_nets::utils::views(fold_val@));
            assert(each_once(val_parts(folds@), n as nat)) by {
                broadcast use vstd::multiset::group_multiset_axioms;
            }
            assert forall|i2: int| 0 <= i2 < k implies #[trigger] stratified_fold_ok(
                folds@,
                ys,
                k as int,
                i2,
            ) by {
                assert forall|c: u64| #[trigger] count_class(folds@[i2].1@, ys, c) == fold_size(
                    count_key(ys, c) as int,
                    k as int,
                    i2,
                ) by {
                    lemma_dealt_count(keys@, done, n_groups as int, c, k as nat, i2 as nat);
                    lemma_residue_count(count_key(ys, c), k as nat, i2 as nat);
                    if keys@.contains(c) {
                        let h = choose|h: int| 0 <= h < keys@.len() && keys@[h] == c;
                        assert(is_permutation_of(done[h], lists_v[h]));
                        broadcast use vstd::seq_lib::group_to_multiset_ensures;
                        assert(done[h].len() == done[h].to_multiset().len());
                        assert(lists_v[h].len() == lists_v[h].to_multiset().len());
                    }
                }
            }
        }
        folds
    }
}

proof fn lemma_flatten_empties(ss: Seq<Seq<usize>>)
    requires
        forall|i: int| 0 <= i < ss.len() ==> #[trigger] ss[i].len() == 0,
    ensures
        ss.flatten() =~= Seq::<usize>::empty(),
    decreases ss.len(),
{
    if ss.len() > 0 {
        assert(ss[0].len() == 0);
        lemma_flatten_empties(ss.drop_first());
    }
}

proof fn lemma_dealt_count_prefix(
    keys: Seq<u64>,
    a: Seq<Seq<usize>>,
    b: Seq<Seq<usize>>,
    g: int,
    c: u64,
    k: nat,
    i: nat,
)
    requires
        0 <= g <= a.len(),
        g <= b.len(),
        forall|h: int| 0 <= h < g ==> a[h] == b[h],
    ensures
        dealt_count(keys, a, g, c, k, i) == dealt_count(keys, b, g, c, k, i),
    decreases g,
{
    if g > 0 {
        lemma_dealt_count_prefix(keys, a, b, g - 1, c, k, i);
    }
}

/// Copies a vector of indices.
fn copy_all(v: &Vec<usize>) -> (r: Vec<usize>)
    ensures
        r@ == v@,
{
    let mut r: Vec<usize> = Vec::with_capacity(v.len());
    let mut t: usize = 0;
    while t < v.len()
        invariant
            t <= v@.len(),
            r@ == v@.take(t as int),
        decreases v@.len() - t,
    {
        r.push(v[t]);
        proof {
            assert(v@.take(t + 1) =~= v@.take(t as int).push(v@[t as int]));
        }
        t = t + 1;
    }
    proof {
        assert(v@.take(v@.len() as int) =~= v@);
    }
    r
}

/// The indices of `0..n` that `val` does not hold, in increasing order.
fn complement_of(val: &Vec<usize>, n: usize) -> (train: Vec<usize>)
    requires
        forall|t: int| 0 <= t < val@.len() ==> #[trigger] val@[t] < n,
    ensures
        train@ == complement(val@, n as nat),
{
    let mut mask: Vec<bool> = Vec::with_capacity(n);
    let mut t: usize = 0;
    while t < n
        invariant
            t <= n,
            mask@.len() == t,
            forall|x: int| 0 <= x < t ==> !#[trigger] mask@[x],
        decreases n - t,
    {
        mask.push(false);
        t = t + 1;
    }
    let mut u: usize = 0;
    while u < val.len()
        invariant
            u <= val@.len(),
            mask@.len() == n,
            forall|t2: int| 0 <= t2 < val@.len() ==> #[trigger] val@[t2] < n,
            forall|x: int| 0 <= x < n ==> (#[trigger] mask@[x] <==> val@.take(u as int).contains(x as usize)),
        decreases val@.len() - u,
    {
        let x = val[u];
        mask.set(x, true);
        proof {
            assert(val@.take(u + 1) =~= val@.take(u as int).push(x));
            assert(val@.take(u + 1)[u as int] == x);
            assert forall|y: int| 0 <= y < n implies (#[trigger] mask@[y] <==> val@.take(u + 1).contains(
                y as usize,
            )) by {
                if y == x {
                    assert(val@.take(u + 1).contains(y as usize));
                }
                if val@.take(u as int).contains(y as usize) {
                    let w = choose|w: int| 0 <= w < u && #[trigger] val@.take(u as int)[w] == y as usize;
                    assert(val@.take(u + 1)[w] == y as usize);
                }
                if val@.take(u + 1).contains(y as usize) && y != x {
                    let w = choose|w: int| 0 <= w < u + 1 && #[trigger] val@.take(u + 1)[w] == y as usize;
                    assert(val@.take(u as int)[w] == y as usize);
                }
            }
        }
        u = u + 1;
    }
    proof {
        assert(val@.take(val@.len() as int) =~= val@);
    }
    let mut train: Vec<usize> = Vec::new();
    let mut x: usize = 0;
    while x < n
        invariant
            x <= n,
            mask@.len() == n,
            forall|y: int| 0 <= y < n ==> (#[trigger] mask@[y] <==> val@.contains(y as usize)),
            train@ == range_seq(x as nat).filter(|z: usize| !val@.contains(z)),
        decreases n - x,
    {
        proof {
            reveal_with_fuel(Seq::<_>::filter, 1);
            assert(range_seq((x + 1) as nat).drop_last() =~= range_seq(x as nat));
            assert(range_seq((x + 1) as nat).last() == x);
        }
        if !mask[x] {
            train.push(x);
        }
        x = x + 1;
    }
    train
}

/// The values `y[idx[0]], y[idx[1]], ...`.
fn gather<T: Copy>(y: &[T], idx: &[usize]) -> (out: Vec<T>)
    requires
        forall|i: int| 0 <= i < idx@.len() ==> #[trigger] idx@[i] < y@.len(),
    ensures
        out@.len() == idx@.len(),
        forall|i: int| 0 <= i < idx@.len() ==> #[trigger] out@[i] == y@[idx@[i] as int],
{
    let mut out: Vec<T> = Vec::with_capacity(idx.len());
    let mut i: usize = 0;
    while i < idx.len()
        invariant
            forall|k: int| 0 <= k < idx@.len() ==> #[trigger] idx@[k] < y@.len(),
            i <= idx@.len(),
            out@.len() == i,
            forall|k: int| 0 <= k < i ==> #[trigger] out@[k] == y@[idx@[k] as int],
        decreases idx@.len() - i,
    {
        out.push(y[idx[i]]);
        i = i + 1;
    }
    out
}

/// The entries `lo..hi` of `v`.
fn copy_range_of(v: &Vec<usize>, lo: usize, hi: usize) -> (out: Vec<usize>)
    requires
        lo <= hi <= v@.len(),
    ensures
        out@ == v@.subrange(lo as int, hi as int),
{
    let mut out: Vec<usize> = Vec::with_capacity(hi - lo);
    let mut i: usize = lo;
    while i < hi
        invariant
            lo <= i <= hi <= v@.len(),
            out@ == v@.subrange(lo as int, i as int),
        decreases hi - i,
    {
        out.push(v[i]);
        proof {
            assert(v@.subrange(lo as int, i + 1) =~= v@.subrange(lo as int, i as int).push(v@[i as int]));
        }
        i = i + 1;
    }
    out
}

/// `res` is `(x_train, x_test, y_train, y_test)` for the sample order `order`: the first
/// `n - n_test` samples of that order train, the last `n_test` test; row `i` of `x` goes with `y[i]`.
pub open spec fn split_by<T: Copy>(
    x: Grid<T>,
    y: Seq<T>,
    n_test: int,
    order: Seq<usize>,
    res: (Grid<T>, Grid<T>, Vec<T>, Vec<T>),
) -> bool {
    let n = y.len() as int;
    let n_train = n - n_test;
    &&& is_permutation_of_range(order, n as nat)
    &&& res.0.wf()
    &&& res.1.wf()
    &&& res.0.nrows() == n_train
    &&& res.1.nrows() == n_test
    &&& res.0.ncols() == x.ncols()
    &&& res.1.ncols() == x.ncols()
    &&& res.2@.len() == n_train
    &&& res.3@.len() == n_test
    &&& forall|i: int| 0 <= i < n_train ==> #[trigger] res.0.cells()[i] == x.cells()[order[i] as int]
    &&& forall|i: int| 0 <= i < n_test ==> #[trigger] res.1.cells()[i] == x.cells()[order[n_train + i] as int]
    &&& forall|i: int| 0 <= i < n_train ==> #[trigger] res.2@[i] == y[order[i] as int]
    &&& forall|i: int| 0 <= i < n_test ==> #[trigger] res.3@[i] == y[order[n_train + i] as int]
}

/// Splits the samples (rows of `x` with the matching entries of `y`) into a training part and
/// a test part of `n_test` samples, after shuffling the sample order when `shuffle` is set.
/// Returns `(x_train, x_test, y_train, y_test)`.
pub fn train_test_split<T: Copy>(x: &Grid<T>, y: &[T], n_test: usize, shuffle: bool) -> (res: (
    Grid<T>,
    Grid<T>,
    Vec<T>,
    Vec<T>,
))
    requires
        x.wf(),
        x.nrows() == y@.len(),
        n_test <= y@.len(),
    ensures
        exists|order: Seq<usize>|
            #[trigger] split_by(*x, y@, n_test as int, order, res) && (!shuffle ==> order == range_seq(y@.len())),
        shuffle ==> exists|draws: Seq<usize>|
            fy_draws_ok(y@.len(), draws) && split_by(
                *x,
                y@,
                n_test as int,
                #[trigger] fisher_yates(range_seq(y@.len()), draws),
                res,
            ),
{
    let n = y.len();
    let mut indices = range_vec(n);
    let ghost i0 = indices@;
    if shuffle {
        thread_shuffle(&mut indices);
        proof {
            lemma_permutation_of_range(indices@, n as nat);
            assert(i0 =~= range_seq(n as nat));
        }
    } else {
        proof {
            lemma_permutation_of_range(indices@, n as nat);
        }
    }
    let n_train = n - n_test;
    let train_idx = copy_range_of(&indices, 0, n_train);
    let test_idx = copy_range_of(&indices, n_train, n);
    proof {
        assert forall|i: int| 0 <= i < train_idx@.len() implies #[trigger] train_idx@[i] < x.nrows() by {
            assert(train_idx@[i] == indices@[i]);
        }
        assert forall|i: int| 0 <= i < test_idx@.len() implies #[trigger] test_idx@[i] < x.nrows() by {
            assert(test_idx@[i] == indices@[n_train + i]);
        }
    }
    let x_train = x.select_rows(train_idx.as_slice());
    let x_test = x.select_rows(test_idx.as_slice());
    let y_train = gather(y, train_idx.as_slice());
    let y_test = gather(y, test_idx.as_slice());
    let res = (x_train, x_test, y_train, y_test);
    proof {
        let order = indices@;
        assert forall|i: int| 0 <= i < n_test implies #[trigger] res.1.cells()[i] == x.cells()[order[n_train + i] as int] by {
            assert(test_idx@[i] == order[n_train + i]);
        }
        assert forall|i: int| 0 <= i < n_test implies #[trigger] res.3@[i] == y@[order[n_train + i] as int] by {
            assert(test_idx@[i] == order[n_train + i]);
        }
        assert forall|i: int| 0 <= i < n_train implies #[trigger] res.0.cells()[i] == x.cells()[order[i] as int] by {
            assert(train_idx@[i] == order[i]);
        }
        assert forall|i: int| 0 <= i < n_train implies #[trigger] res.2@[i] == y@[order[i] as int] by {
            assert(train_idx@[i] == order[i]);
        }
        assert(split_by(*x, y@, n_test as int, order, res));
        if !shuffle {
            assert(order =~= range_seq(y@.len()));
        } else {
            let d = choose|d: Seq<usize>| fy_draws_ok(i0.len(), d) && order == #[trigger] fisher_yates(i0, d);
            assert(split_by(*x, y@, n_test as int, fisher_yates(range_seq(y@.len()), d), res));
        }
    }
    res
}

} // verus!
