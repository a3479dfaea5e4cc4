//! N-gram language models over integer token ids: counting the n-grams of a corpus.
use crate::numpy_ml::neural_nets::utils::{copy_range, views};
use vstd::prelude::*;

verus! {

/// Token that pads the start of a sentence.
pub open spec fn bol_token() -> usize {
    usize::MAX
}

/// Token that pads the end of a sentence.
pub open spec fn eol_token() -> usize {
    (usize::MAX - 1) as usize
}

/// How many padding tokens go on each side of a sentence for `gram_size`-grams:
/// `gram_size - 1`, but at least one.
pub open spec fn pad_len(gram_size: nat) -> nat {
    if gram_size >= 2 { (gram_size - 1) as nat } else { 1 }
}

/// A sentence with `pad_len` start tokens before it and as many end tokens after it.
pub open spec fn padded(words: Seq<usize>, gram_size: nat) -> Seq<usize> {
    Seq::new(pad_len(gram_size), |i: int| bol_token()) + words + Seq::new(
        pad_len(gram_size),
        |i: int| eol_token(),
    )
}

/// All windows of `size` consecutive tokens of `p`, in order.
pub open spec fn windows(p: Seq<usize>, size: nat) -> Seq<Seq<usize>> {
    Seq::new((p.len() + 1 - size) as nat, |i: int| p.subrange(i, i + size))
}

/// The `gram_size`-grams of the padded sentences of a corpus, sentence after sentence.
pub open spec fn corpus_grams(corpus: Seq<Seq<usize>>, gram_size: nat) -> Seq<Seq<usize>>
    decreases corpus.len(),
{
    if corpus.len() == 0 {
        Seq::empty()
    } else {
        corpus_grams(corpus.drop_last(), gram_size) + windows(
            padded(corpus.last(), gram_size),
            gram_size,
        )
    }
}

/// Number of words in a corpus.
pub open spec fn total_words(corpus: Seq<Seq<usize>>) -> nat
    decreases corpus.len(),
{
    if corpus.len() == 0 {
        0
    } else {
        total_words(corpus.drop_last()) + corpus.last().len()
    }
}

/// The words of a corpus, sentence after sentence.
pub open spec fn corpus_words(corpus: Seq<Seq<usize>>) -> Seq<usize>
    decreases corpus.len(),
{
    if corpus.len() == 0 {
        Seq::empty()
    } else {
        corpus_words(corpus.drop_last()) + corpus.last()
    }
}

/// Sum of the entries of `counts` whose gram is `g`, over the first `m` entries.
pub open spec fn count_upto(keys: Seq<Seq<usize>>, counts: Seq<usize>, m: int, g: Seq<usize>) -> nat
    decreases m,
{
    if m <= 0 {
        0
    } else {
        count_upto(keys, counts, m - 1, g) + if keys[m - 1] == g { counts[m - 1] as nat } else { 0nat }
    }
}

proof fn lemma_count_upto_bump(keys: Seq<Seq<usize>>, counts: Seq<usize>, m: int, i: int, g: Seq<usize>)
    requires
        0 <= i < counts.len(),
        m <= counts.len(),
        counts[i] < usize::MAX,
    ensures
        count_upto(keys, counts.update(i, (counts[i] + 1) as usize), m, g) == count_upto(keys, counts, m, g)
            + if i < m && keys[i] == g { 1nat } else { 0nat },
    decreases m,
{
    if m > 0 {
        lemma_count_upto_bump(keys, counts, m - 1, i, g);
    }
}

proof fn lemma_count_upto_prefix(k1: Seq<Seq<usize>>, c1: Seq<usize>, k2: Seq<Seq<usize>>, c2: Seq<usize>, m: int, g: Seq<usize>)
    requires
        m <= k1.len(),
        m <= k2.len(),
        m <= c1.len(),
        m <= c2.len(),
        forall|t: int| 0 <= t < m ==> k1[t] == k2[t] && c1[t] == c2[t],
    ensures
        count_upto(k1, c1, m, g) == count_upto(k2, c2, m, g),
    decreases m,
{
    if m > 0 {
        lemma_count_upto_prefix(k1, c1, k2, c2, m - 1, g);
    }
}

proof fn lemma_count_upto_absent(keys: Seq<Seq<usize>>, counts: Seq<usize>, m: int, g: Seq<usize>)
    requires
        m <= keys.len(),
        forall|t: int| 0 <= t < m ==> keys[t] != g,
    ensures
        count_upto(keys, counts, m, g) == 0,
    decreases m,
{
    if m > 0 {
        lemma_count_upto_absent(keys, counts, m - 1, g);
    }
}

/// Sum of the first `m` counts.
pub open spec fn sum_upto(counts: Seq<usize>, m: int) -> nat
    decreases m,
{
    if m <= 0 {
        0
    } else {
        sum_upto(counts, m - 1) + counts[m - 1] as nat
    }
}

proof fn lemma_sum_upto_bump(counts: Seq<usize>, m: int, i: int)
    requires
        0 <= i < counts.len(),
        m <= counts.len(),
        counts[i] < usize::MAX,
    ensures
        sum_upto(counts.update(i, (counts[i] + 1) as usize), m) == sum_upto(counts, m) + if i < m { 1nat } else { 0nat },
    decreases m,
{
    if m > 0 {
        lemma_sum_upto_bump(counts, m - 1, i);
    }
}

proof fn lemma_sum_upto_prefix(c1: Seq<usize>, c2: Seq<usize>, m: int)
    requires
        m <= c1.len(),
        m <= c2.len(),
        forall|t: int| 0 <= t < m ==> c1[t] == c2[t],
    ensures
        sum_upto(c1, m) == sum_upto(c2, m),
    decreases m,
{
    if m > 0 {
        lemma_sum_upto_prefix(c1, c2, m - 1);
    }
}

/// Counts of n-grams: each distinct gram once, with how often it was seen.
pub struct GramCounts {
    grams: Vec<Vec<usize>>,
    counts: Vec<usize>,
}

impl GramCounts {
    /// The distinct grams, in the order they were first seen.
    pub closed spec fn keys(&self) -> Seq<Seq<usize>> {
        views(self.grams@)
    }

    /// How often `g` was seen.
    pub closed spec fn count(&self, g: Seq<usize>) -> nat {
        count_upto(self.keys(), self.counts@, self.counts@.len() as int, g)
    }

    /// How many grams were seen in all.
    pub closed spec fn total(&self) -> nat {
        sum_upto(self.counts@, self.counts@.len() as int)
    }

    /// Each gram is held once, with its count.
    pub closed spec fn wf(&self) -> bool {
        &&& self.grams@.len() == self.counts@.len()
        &&& self.keys().no_duplicates()
    }

    /// No gram seen yet.
    pub fn new() -> (r: Self)
        ensures
            r.wf(),
            r.keys() == Seq::<Seq<usize>>::empty(),
            r.total() == 0,
            forall|g: Seq<usize>| #[trigger] r.count(g) == 0,
    {
        let r = GramCounts { grams: Vec::new(), counts: Vec::new() };
        proof {
            assert(r.keys() =~= Seq::<Seq<usize>>::empty());
        }
        r
    }

    /// Records one more sighting of `g`.
    pub fn add(&mut self, g: Vec<usize>)
        requires
            old(self).wf(),
            old(self).total() < usize::MAX,
        ensures
            final(self).wf(),
            final(self).total() == old(self).total() + 1,
            forall|h: Seq<usize>| #[trigger] final(self).count(h) == old(self).count(h) + if h == g@ { 1nat } else { 0nat },
            final(self).keys().to_set() == old(self).keys().to_set().insert(g@),
    {
        let ghost ks = self.keys();
        let ghost cs = self.counts@;
        let m = self.grams.len();
        let mut i: usize = 0;
        let mut found = false;
        while i < m && !found
            invariant
                m == self.grams@.len(),
                m == self.counts@.len(),
                ks == self.keys(),
                i <= m,
                found ==> i < m && ks[i as int] == g@,
                !found ==> forall|t: int| 0 <= t < i ==> ks[t] != g@,
            decreases m - i, if found { 0int } else { 1int },
        {
            if vec_eq(&self.grams[i], &g) {
                found = true;
            } else {
                i = i + 1;
            }
        }
        proof {
            lemma_count_upto_le_sum(ks, cs, m as int, g@);
        }
        if found {
            let c = self.counts[i];
            proof {
                lemma_count_upto_entry_le_sum(cs, m as int, i as int);
            }
            self.counts.set(i, c + 1);
            proof {
                lemma_sum_upto_bump(cs, m as int, i as int);
                assert forall|h: Seq<usize>| #[trigger] self.count(h) == count_upto(ks, cs, m as int, h) + if h == g@ { 1nat } else { 0nat } by {
                    lemma_count_upto_bump(ks, cs, m as int, i as int, h);
                }
                assert(ks.contains(g@));
                assert(ks.to_set().insert(g@) =~= ks.to_set());
            }
        } else {
            let ghost gv = g@;
            self.grams.push(g);
            self.counts.push(1);
            proof {
                assert(self.keys() =~= ks.push(gv));
                assert forall|t1: int, t2: int| 0 <= t1 < self.keys().len() && 0 <= t2 < self.keys().len() && t1 != t2 implies self.keys()[t1] != self.keys()[t2] by {
                    if t1 < m && t2 < m {
                    }
                }
                assert forall|h: Seq<usize>| #[trigger] self.count(h) == count_upto(ks, cs, m as int, h) + if h == gv { 1nat } else { 0nat } by {
                    lemma_count_upto_prefix(self.keys(), self.counts@, ks, cs, m as int, h);
                    if h == gv {
                        lemma_count_upto_absent(ks, cs, m as int, h);
                    }
                }
                lemma_sum_upto_prefix(self.counts@, cs, m as int);
                assert(self.keys().to_set() =~= ks.to_set().insert(gv)) by {
                    broadcast use vstd::set::group_set_axioms;
                    broadcast use vstd::seq_lib::seq_to_set_is_finite;
                    assert forall|h: Seq<usize>| #[trigger] self.keys().to_set().contains(h) == ks.to_set().insert(gv).contains(h) by {
                        if ks.contains(h) {
                            let w = choose|w: int| 0 <= w < ks.len() && ks[w] == h;
                            assert(self.keys()[w] == h);
                        }
                        if h == gv {
                            assert(self.keys()[m as int] == h);
                        }
                    }
                }
            }
        }
    }

    /// How often `g` was seen.
    pub fn get(&self, g: &Vec<usize>) -> (c: usize)
        requires
            self.wf(),
        ensures
            c == self.count(g@),
    {
        let m = self.grams.len();
        let mut i: usize = 0;
        while i < m
            invariant
                self.wf(),
                m == self.grams@.len(),
                m == self.counts@.len(),
                i <= m,
                forall|t: int| 0 <= t < i ==> self.keys()[t] != g@,
            decreases m - i,
        {
            if vec_eq(&self.grams[i], g) {
                proof {
                    lemma_count_upto_single(self.keys(), self.counts@, m as int, i as int);
                }
                return self.counts[i];
            }
            i = i + 1;
        }
        proof {
            lemma_count_upto_absent(self.keys(), self.counts@, m as int, g@);
        }
        0
    }

    /// Number of distinct grams seen.
    pub fn len(&self) -> (r: usize)
        requires
            self.wf(),
        ensures
            r == self.keys().len(),
            r == self.keys().to_set().len(),
    {
        proof {
            self.keys().unique_seq_to_set();
        }
        self.grams.len()
    }

    /// Number of grams seen in all.
    pub fn total_count(&self) -> (r: usize)
        requires
            self.wf(),
            self.total() <= usize::MAX,
        ensures
            r == self.total(),
    {
        let m = self.counts.len();
        let mut s: usize = 0;
        let mut i: usize = 0;
        while i < m
            invariant
                m == self.counts@.len(),
                i <= m,
                self.total() <= usize::MAX,
                s == sum_upto(self.counts@, i as int),
            decreases m - i,
        {
            proof {
                lemma_sum_upto_mono(self.counts@, (i + 1) as int, m as int);
            }
            s = s + self.counts[i];
            i = i + 1;
        }
        s
    }
}

proof fn lemma_sum_upto_mono(counts: Seq<usize>, a: int, b: int)
    requires
        0 <= a <= b <= counts.len(),
    ensures
        sum_upto(counts, a) <= sum_upto(counts, b),
    decreases b - a,
{
    if a < b {
        lemma_sum_upto_mono(counts, a, b - 1);
    }
}

proof fn lemma_count_upto_le_sum(keys: Seq<Seq<usize>>, counts: Seq<usize>, m: int, g: Seq<usize>)
    requires
        m <= counts.len(),
    ensures
        count_upto(keys, counts, m, g) <= sum_upto(counts, m),
    decreases m,
{
    if m > 0 {
        lemma_count_upto_le_sum(keys, counts, m - 1, g);
    }
}

proof fn lemma_count_upto_entry_le_sum(counts: Seq<usize>, m: int, i: int)
    requires
        0 <= i < m <= counts.len(),
    ensures
        counts[i] <= sum_upto(counts, m),
    decreases m,
{
    if m - 1 > i {
        lemma_count_upto_entry_le_sum(counts, m - 1, i);
    }
}

proof fn lemma_count_upto_single(keys: Seq<Seq<usize>>, counts: Seq<usize>, m: int, i: int)
    requires
        0 <= i < m <= keys.len(),
        m <= counts.len(),
        keys.no_duplicates(),
    ensures
        count_upto(keys, counts, m, keys[i]) == counts[i],
    decreases m,
{
    if m - 1 > i {
        lemma_count_upto_single(keys, counts, m - 1, i);
    } else {
        lemma_count_upto_absent(keys, counts, i, keys[i]);
    }
}

/// Whether two vectors hold the same entries.
fn vec_eq(a: &Vec<usize>, b: &Vec<usize>) -> (r: bool)
    ensures
        r == (a@ == b@),
{
    if a.len() != b.len() {
        return false;
    }
    let mut i: usize = 0;
    while i < a.len()
        invariant
            a@.len() == b@.len(),
            i <= a@.len(),
            forall|t: int| 0 <= t < i ==> a@[t] == b@[t],
        decreases a@.len() - i,
    {
        if a[i] != b[i] {
            return false;
        }
        i = i + 1;
    }
    proof {
        assert(a@ =~= b@);
    }
    true
}

/// `true` when `gc` holds exactly the grams of `seen`, each with how often it occurs there.
pub open spec fn counts_match(gc: GramCounts, seen: Seq<Seq<usize>>) -> bool {
    &&& gc.wf()
    &&& gc.total() == seen.len()
    &&& forall|h: Seq<usize>| #[trigger] gc.count(h) == seen.to_multiset().count(h)
    &&& gc.keys().to_set() == seen.to_set()
}

/// Appending `w` adds `w` to the values held.
pub proof fn lemma_push_to_set<A>(x: Seq<A>, w: A)
    ensures
        x.push(w).to_set() == x.to_set().insert(w),
{
    assert forall|z: A| #[trigger] x.push(w).to_set().contains(z) == x.to_set().insert(w).contains(z) by {
        if x.contains(z) {
            let q = choose|q: int| 0 <= q < x.len() && x[q] == z;
            assert(x.push(w)[q] == z);
        }
        if z == w {
            assert(x.push(w)[x.len() as int] == z);
        }
    }
    assert(x.push(w).to_set() =~= x.to_set().insert(w));
}

/// Pads a sentence with start and end tokens for `gram_size`-grams.
fn pad(words: &Vec<usize>, gram_size: usize) -> (r: Vec<usize>)
    requires
        gram_size >= 1,
        words@.len() + 2 * pad_len(gram_size as nat) <= usize::MAX,
    ensures
        r@ == padded(words@, gram_size as nat),
{
    let pl = if gram_size >= 2 { gram_size - 1 } else { 1 };
    let mut r: Vec<usize> = Vec::new();
    let mut t: usize = 0;
    while t < pl
        invariant
            t <= pl,
            r@ == Seq::new(t as nat, |i: int| bol_token()),
        decreases pl - t,
    {
        r.push(usize::MAX);
        proof {
            assert(Seq::new((t + 1) as nat, |i: int| bol_token()) =~= Seq::new(t as nat, |i: int| bol_token()).push(usize::MAX));
        }
        t = t + 1;
    }
    let ghost head = r@;
    let mut u: usize = 0;
    while u < words.len()
        invariant
            u <= words@.len(),
            r@ == head + words@.take(u as int),
        decreases words@.len() - u,
    {
        r.push(words[u]);
        proof {
            assert(words@.take(u + 1) =~= words@.take(u as int).push(words@[u as int]));
        }
        u = u + 1;
    }
    proof {
        assert(words@.take(words@.len() as int) =~= words@);
    }
    let ghost mid = r@;
    let mut t2: usize = 0;
    while t2 < pl
        invariant
            t2 <= pl,
            r@ == mid + Seq::new(t2 as nat, |i: int| eol_token()),
        decreases pl - t2,
    {
        r.push(usize::MAX - 1);
        proof {
            assert(Seq::new((t2 + 1) as nat, |i: int| eol_token()) =~= Seq::new(t2 as nat, |i: int| eol_token()).push((usize::MAX - 1) as usize));
        }
        t2 = t2 + 1;
    }
    r
}

/// Records every `gram_size`-gram of the padded sentence `p`.
fn count_windows(gc: &mut GramCounts, p: &Vec<usize>, gram_size: usize, Ghost(seen): Ghost<Seq<Seq<usize>>>)
    requires
        gram_size >= 1,
        p@.len() + 1 >= gram_size,
        p@.len() < usize::MAX,
        counts_match(*old(gc), seen),
        seen.len() + windows(p@, gram_size as nat).len() <= usize::MAX,
    ensures
        counts_match(*final(gc), seen + windows(p@, gram_size as nat)),
{
    let nw = p.len() + 1 - gram_size;
    let ghost ws = windows(p@, gram_size as nat);
    let mut i: usize = 0;
    while i < nw
        invariant
            nw == ws.len(),
            nw == p@.len() + 1 - gram_size,
            p@.len() < usize::MAX,
            ws == windows(p@, gram_size as nat),
            i <= nw,
            seen.len() + ws.len() <= usize::MAX,
            counts_match(*gc, seen + ws.take(i as int)),
        decreases nw - i,
    {
        let w = copy_range(p, i, i + gram_size);
        let ghost before = *gc;
        let ghost s0 = seen + ws.take(i as int);
        gc.add(w);
        proof {
            broadcast use vstd::seq_lib::group_to_multiset_ensures;
            broadcast use vstd::multiset::group_multiset_axioms;
            assert(w@ == ws[i as int]);
            assert(seen + ws.take(i + 1) =~= s0.push(w@));
            assert forall|h: Seq<usize>| #[trigger] gc.count(h) == s0.push(w@).to_multiset().count(h) by {
                assert(s0.push(w@).to_multiset() == s0.to_multiset().insert(w@));
            }
            lemma_push_to_set(s0, w@);
        }
        i = i + 1;
    }
    proof {
        assert(ws.take(nw as int) =~= ws);
    }
}

/// Base N-gram language model operating on integer token IDs.
pub struct NGramBase {
    pub n: usize,
    pub counts: Vec<GramCounts>,
    pub n_words: Vec<usize>,
    pub n_tokens: Vec<usize>,
}

/// `true` when a corpus is small enough for `n`-gram counting to stay within `usize`.
pub open spec fn corpus_fits(corpus: Seq<Seq<usize>>, n: nat) -> bool {
    &&& n + 1 <= usize::MAX
    &&& total_words(corpus) < usize::MAX
    &&& forall|t: int| 0 <= t < corpus.len() ==> #[trigger] corpus[t].len() + 2 * n + 2 <= usize::MAX
    &&& forall|s: nat| 1 <= s <= n ==> #[trigger] corpus_grams(corpus, s).len() <= usize::MAX
}

/// What training an `n`-gram model on `corpus` leaves in it: for each size
/// `s` in `1..=n`, `counts[s - 1]` holds each `s`-gram of the padded sentences
/// with how often it occurs; `n_words[1]` is the number of words and
/// `n_words[s]` (for `s >= 2`) the number of `s`-grams; `n_tokens[1]` is the
/// number of distinct words, the start token included, and `n_tokens[s]` (for
/// `s >= 2`) the number of distinct `s`-grams.
pub open spec fn trained_on(m: NGramBase, corpus: Seq<Seq<usize>>) -> bool {
    &&& m.counts@.len() == m.n
    &&& m.n_words@.len() == m.n + 1
    &&& m.n_tokens@.len() == m.n + 1
    &&& m.n_words@[0] == 0
    &&& m.n_tokens@[0] == 0
    &&& m.n_words@[1] == total_words(corpus)
    &&& m.n_tokens@[1] == corpus_words(corpus).to_set().insert(bol_token()).len()
    &&& forall|s: int|
        #![trigger m.counts@[s - 1]]
        1 <= s <= m.n ==> counts_match(m.counts@[s - 1], corpus_grams(corpus, s as nat))
    &&& forall|s: int| 2 <= s <= m.n ==> #[trigger] m.n_words@[s] == corpus_grams(corpus, s as nat).len()
    &&& forall|s: int|
        2 <= s <= m.n ==> #[trigger] m.n_tokens@[s] == corpus_grams(corpus, s as nat).to_set().len()
}

impl NGramBase {
    /// Pads a sentence for `gram_size`-grams: `max(gram_size - 1, 1)` start tokens
    /// (`usize::MAX`) before it and as many end tokens (`usize::MAX - 1`) after it.
    pub fn pad(words: &Vec<usize>, gram_size: usize) -> (r: Vec<usize>)
        requires
            gram_size >= 1,
            words@.len() + 2 * pad_len(gram_size as nat) <= usize::MAX,
        ensures
            r@ == padded(words@, gram_size as nat),
    {
        pad(words, gram_size)
    }

    /// Train the n-gram model on a corpus of token sequences.
    pub fn train(&mut self, corpus: &[Vec<usize>])
        requires
            old(self).n >= 1,
            corpus_fits(views(corpus@), old(self).n as nat),
        ensures
            final(self).n == old(self).n,
            trained_on(*final(self), views(corpus@)),
    {
        let ghost c = views(corpus@);
        let n = self.n;
        let nc = corpus.len();
        // Count the grams of each size.
        let mut counts: Vec<GramCounts> = Vec::new();
        let mut s: usize = 1;
        while s <= n
            invariant
                c == views(corpus@),
                nc == c.len(),
                1 <= s <= n + 1,
                n + 1 <= usize::MAX,
                corpus_fits(c, n as nat),
                counts@.len() == s - 1,
                forall|s2: int| #![trigger counts@[s2 - 1]] 1 <= s2 < s ==> counts_match(counts@[s2 - 1], corpus_grams(c, s2 as nat)),
            decreases n + 1 - s,
        {
            let mut gc = GramCounts::new();
            proof {
                assert(corpus_grams(c.take(0), s as nat) =~= Seq::<Seq<usize>>::empty());
                assert(counts_match(gc, Seq::<Seq<usize>>::empty())) by {
                    broadcast use vstd::seq_lib::group_to_multiset_ensures;
                    assert(Seq::<Seq<usize>>::empty().to_multiset().len() == 0);
                    assert(gc.keys().to_set() =~= Seq::<Seq<usize>>::empty().to_set());
                }
            }
            let mut t: usize = 0;
            while t < nc
                invariant
                    c == views(corpus@),
                    nc == c.len(),
                    1 <= s <= n,
                    t <= nc,
                    corpus_fits(c, n as nat),
                    counts_match(gc, corpus_grams(c.take(t as int), s as nat)),
                decreases nc - t,
            {
                assert(c[t as int] == corpus@[t as int]@);
                let p = pad(&corpus[t], s);
                proof {
                    assert(c.take(t + 1).drop_last() =~= c.take(t as int));
                    lemma_corpus_grams_prefix_len(c, t + 1, s as nat);
                }
                count_windows(&mut gc, &p, s, Ghost(corpus_grams(c.take(t as int), s as nat)));
                t = t + 1;
            }
            proof {
                assert(c.take(nc as int) =~= c);
            }
            counts.push(gc);
            proof {
                assert forall|s2: int| #![trigger counts@[s2 - 1]] 1 <= s2 < s + 1 implies counts_match(counts@[s2 - 1], corpus_grams(c, s2 as nat)) by {
                }
            }
            s = s + 1;
        }
        // Count the words and the distinct tokens.
        let mut total_w: usize = 0;
        let mut tokens: std::collections::HashMap<usize, usize> = std::collections::HashMap::new();
        tokens.insert(usize::MAX, 1);
        let mut t: usize = 0;
        while t < nc
            invariant
                c == views(corpus@),
                nc == c.len(),
                t <= nc,
                corpus_fits(c, n as nat),
                total_w == total_words(c.take(t as int)),
                tokens@.dom() == corpus_words(c.take(t as int)).to_set().insert(usize::MAX),
                forall|w: usize| #[trigger] tokens@.contains_key(w) ==> tokens@[w] <= total_w + 1,
            decreases nc - t,
        {
            broadcast use vstd::std_specs::hash::group_hash_axioms;
            let words = &corpus[t];
            assert(c[t as int] == words@);
            proof {
                assert(c.take(t + 1).drop_last() =~= c.take(t as int));
                lemma_total_words_prefix(c, t + 1);
            }
            let wl = words.len();
            let ghost base_words = corpus_words(c.take(t as int));
            let mut u: usize = 0;
            while u < wl
                invariant
                    wl == words@.len(),
                    u <= wl,
                    total_w + wl < usize::MAX,
                    tokens@.dom() == (base_words + words@.take(u as int)).to_set().insert(usize::MAX),
                    forall|w: usize| #[trigger] tokens@.contains_key(w) ==> tokens@[w] <= total_w + u + 1,
                decreases wl - u,
            {
                let w = words[u];
                let prev: usize = match tokens.get(&w) {
                    Some(v) => *v,
                    None => 0,
                };
                tokens.insert(w, prev + 1);
                proof {
                    let x0 = base_words + words@.take(u as int);
                    assert(base_words + words@.take(u + 1) =~= x0.push(w));
                    lemma_push_to_set(x0, w);
                    assert(tokens@.dom() =~= (base_words + words@.take(u + 1)).to_set().insert(usize::MAX));
                }
                u = u + 1;
            }
            total_w = total_w + wl;
            proof {
                assert(words@.take(wl as int) =~= words@);
            }
            t = t + 1;
        }
        proof {
            assert(c.take(nc as int) =~= c);
        }
        let mut n_words: Vec<usize> = Vec::new();
        let mut n_tokens: Vec<usize> = Vec::new();
        n_words.push(0);
        n_tokens.push(0);
        n_words.push(total_w);
        n_tokens.push(tokens.len());
        let mut s2: usize = 2;
        while s2 <= n
            invariant
                2 <= s2 <= n + 1,
                n + 1 <= usize::MAX,
                c == views(corpus@),
                corpus_fits(c, n as nat),
                counts@.len() == n,
                forall|s3: int| #![trigger counts@[s3 - 1]] 1 <= s3 <= n ==> counts_match(counts@[s3 - 1], corpus_grams(c, s3 as nat)),
                n_words@.len() == s2,
                n_tokens@.len() == s2,
                n_words@[0] == 0,
                n_tokens@[0] == 0,
                n_words@[1] == total_w,
                n_tokens@[1] == tokens@.len(),
                forall|s3: int| 2 <= s3 < s2 ==> #[trigger] n_words@[s3] == corpus_grams(c, s3 as nat).len(),
                forall|s3: int| 2 <= s3 < s2 ==> #[trigger] n_tokens@[s3] == corpus_grams(c, s3 as nat).to_set().len(),
            decreases n + 1 - s2,
        {
            assert(counts_match(counts@[s2 - 1], corpus_grams(c, s2 as nat)));
            let tw = counts[s2 - 1].total_count();
            let tl = counts[s2 - 1].len();
            n_words.push(tw);
            n_tokens.push(tl);
            s2 = s2 + 1;
        }
        proof {
            broadcast use vstd::std_specs::hash::group_hash_axioms;
        }
        self.counts = counts;
        self.n_words = n_words;
        self.n_tokens = n_tokens;
    }
}

proof fn lemma_corpus_grams_prefix_len(c: Seq<Seq<usize>>, t: int, s: nat)
    requires
        0 <= t <= c.len(),
    ensures
        corpus_grams(c.take(t), s).len() <= corpus_grams(c, s).len(),
    decreases c.len() - t,
{
    if t < c.len() {
        lemma_corpus_grams_prefix_len(c, t + 1, s);
        assert(c.take(t + 1).drop_last() =~= c.take(t));
    } else {
        assert(c.take(t) =~= c);
    }
}

proof fn lemma_total_words_prefix(c: Seq<Seq<usize>>, t: int)
    requires
        0 <= t <= c.len(),
    ensures
        total_words(c.take(t)) <= total_words(c),
    decreases c.len() - t,
{
    if t < c.len() {
        lemma_total_words_prefix(c, t + 1);
        assert(c.take(t + 1).drop_last() =~= c.take(t));
    } else {
        assert(c.take(t) =~= c);
    }
}

/// Maximum-likelihood (unsmoothed) N-gram model.
pub struct MLENGram {
    base: NGramBase,
}

impl MLENGram {
    /// A model of `n`-grams that has not been trained yet.
    pub fn new(n: usize) -> (r: Self)
        ensures
            r.base().n == n,
            r.base().counts@.len() == 0,
            r.base().n_words@.len() == 0,
            r.base().n_tokens@.len() == 0,
    {
        MLENGram { base: NGramBase { n, counts: Vec::new(), n_words: Vec::new(), n_tokens: Vec::new() } }
    }

    /// The counts the model was trained to.
    pub closed spec fn base(&self) -> NGramBase {
        self.base
    }

    /// The counts the model was trained to.
    pub fn counts(&self) -> (r: &NGramBase)
        ensures
            *r == self.base(),
    {
        &self.base
    }

    /// Train the model.
    pub fn train(&mut self, corpus: &[Vec<usize>])
        requires
            old(self).base().n >= 1,
            corpus_fits(views(corpus@), old(self).base().n as nat),
        ensures
            final(self).base().n == old(self).base().n,
            trained_on(final(self).base(), views(corpus@)),
    {
        self.base.train(corpus);
    }
}

/// Training replaces what a model held: two models of the same order, each
/// trained on the same corpus whatever it held before, hold the same count of
/// every gram of every size, the same grams, and the same numbers of grams
/// and of distinct grams.
pub proof fn lemma_training_replaces(m1: NGramBase, m2: NGramBase, corpus: Seq<Seq<usize>>)
    requires
        m1.n == m2.n,
        trained_on(m1, corpus),
        trained_on(m2, corpus),
    ensures
        m1.n_words@ == m2.n_words@,
        m1.n_tokens@ == m2.n_tokens@,
        forall|s: int, g: Seq<usize>|
            1 <= s <= m1.n ==> #[trigger] m1.counts@[s - 1].count(g) == m2.counts@[s - 1].count(g),
        forall|s: int| 1 <= s <= m1.n ==> #[trigger] m1.counts@[s - 1].keys().to_set() == m2.counts@[s - 1].keys().to_set(),
{
    assert forall|s: int| 0 <= s < m1.n_words@.len() implies #[trigger] m1.n_words@[s] == m2.n_words@[s] by {
        if s >= 2 {
            assert(m1.n_words@[s] == corpus_grams(corpus, s as nat).len());
        }
    }
    assert(m1.n_words@ =~= m2.n_words@);
    assert forall|s: int| 0 <= s < m1.n_tokens@.len() implies #[trigger] m1.n_tokens@[s] == m2.n_tokens@[s] by {
        if s >= 2 {
            assert(m1.n_tokens@[s] == corpus_grams(corpus, s as nat).to_set().len());
        }
    }
    assert(m1.n_tokens@ =~= m2.n_tokens@);
    assert forall|s: int, g: Seq<usize>| 1 <= s <= m1.n implies #[trigger] m1.counts@[s - 1].count(g) == m2.counts@[s
        - 1].count(g) by {
        assert(counts_match(m1.counts@[s - 1], corpus_grams(corpus, s as nat)));
        assert(counts_match(m2.counts@[s - 1], corpus_grams(corpus, s as nat)));
    }
    assert forall|s: int| 1 <= s <= m1.n implies #[trigger] m1.counts@[s - 1].keys().to_set()
        == m2.counts@[s - 1].keys().to_set() by {
        assert(counts_match(m1.counts@[s - 1], corpus_grams(corpus, s as nat)));
        assert(counts_match(m2.counts@[s - 1], corpus_grams(corpus, s as nat)));
    }
}

/// Training an MLE model replaces what it held: two models of the same order,
/// each trained on the same corpus (one of them perhaps trained on another
/// corpus before), hold the same counts, grams and totals.
pub proof fn lemma_mle_training_replaces(m1: MLENGram, m2: MLENGram, corpus: Seq<Seq<usize>>)
    requires
        m1.base().n == m2.base().n,
        trained_on(m1.base(), corpus),
        trained_on(m2.base(), corpus),
    ensures
        m1.base().n_words@ == m2.base().n_words@,
        m1.base().n_tokens@ == m2.base().n_tokens@,
        forall|s: int, g: Seq<usize>|
            1 <= s <= m1.base().n ==> #[trigger] m1.base().counts@[s - 1].count(g) == m2.base().counts@[s - 1].count(g),
        forall|s: int|
            1 <= s <= m1.base().n ==> #[trigger] m1.base().counts@[s - 1].keys().to_set()
                == m2.base().counts@[s - 1].keys().to_set(),
{
    lemma_training_replaces(m1.base(), m2.base(), corpus);
}

/// The padded sentences of a corpus have, together, `total_words + len * (2 * pad_len + 1 - size)`
/// windows of `size` tokens.
proof fn lemma_corpus_gram_total(corpus: Seq<Seq<usize>>, size: nat)
    requires
        size >= 1,
    ensures
        corpus_grams(corpus, size).len() == total_words(corpus) + corpus.len() * (2 * pad_len(size) + 1 - size),
    decreases corpus.len(),
{
    if corpus.len() > 0 {
        lemma_corpus_gram_total(corpus.drop_last(), size);
        let k = 2 * pad_len(size) + 1 - size;
        assert(k >= 0);
        assert(corpus.len() * k == (corpus.len() - 1) * k + k) by (nonlinear_arith);
    }
}

/// Every window of `size` tokens of every padded sentence is among the corpus's grams.
proof fn lemma_window_in_corpus_grams(corpus: Seq<Seq<usize>>, size: nat, t: int, i: int)
    requires
        size >= 1,
        0 <= t < corpus.len(),
        0 <= i,
        i + size <= padded(corpus[t], size).len(),
    ensures
        corpus_grams(corpus, size).contains(padded(corpus[t], size).subrange(i, i + size)),
    decreases corpus.len(),
{
    let rest = corpus_grams(corpus.drop_last(), size);
    let last = windows(padded(corpus.last(), size), size);
    assert(corpus_grams(corpus, size) == rest + last);
    if t == corpus.len() - 1 {
        assert(last[i] == padded(corpus[t], size).subrange(i, i + size));
        assert((rest + last)[rest.len() + i] == last[i]);
    } else {
        lemma_window_in_corpus_grams(corpus.drop_last(), size, t, i);
        assert(corpus.drop_last()[t] == corpus[t]);
        let j = choose|j: int| 0 <= j < rest.len() && rest[j] == padded(corpus[t], size).subrange(i, i + size);
        assert((rest + last)[j] == rest[j]);
    }
}

/// What training counts: for each size `s`, every window of `s` consecutive tokens of every
/// padded sentence (the last one, which ends with an end token, included) is counted, and a
/// sentence of `w` words gives `w + 2 * pad_len(s) + 1 - s` of them, so that the model holds
/// `total_words + len * (2 * pad_len(s) + 1 - s)` grams of size `s`.
pub proof fn lemma_training_counts_every_window(m: NGramBase, corpus: Seq<Seq<usize>>)
    requires
        trained_on(m, corpus),
    ensures
        forall|s: int|
            1 <= s <= m.n ==> #[trigger] m.counts@[s - 1].total() == total_words(corpus) + corpus.len() * (2
                * pad_len(s as nat) + 1 - s),
        forall|s: int| 2 <= s <= m.n ==> #[trigger] m.n_words@[s] == m.counts@[s - 1].total(),
        forall|s: int, t: int, i: int|
            1 <= s <= m.n && 0 <= t < corpus.len() && 0 <= i && i + s <= corpus[t].len() + 2 * pad_len(s as nat)
                ==> #[trigger] m.counts@[s - 1].count(padded(corpus[t], s as nat).subrange(i, i + s)) >= 1,
{
    assert forall|s: int|
        1 <= s <= m.n implies #[trigger] m.counts@[s - 1].total() == total_words(corpus) + corpus.len() * (2
            * pad_len(s as nat) + 1 - s) by {
        assert(counts_match(m.counts@[s - 1], corpus_grams(corpus, s as nat)));
        lemma_corpus_gram_total(corpus, s as nat);
    }
    assert forall|s: int| 2 <= s <= m.n implies #[trigger] m.n_words@[s] == m.counts@[s - 1].total() by {
        assert(counts_match(m.counts@[s - 1], corpus_grams(corpus, s as nat)));
    }
    assert forall|s: int, t: int, i: int|
        1 <= s <= m.n && 0 <= t < corpus.len() && 0 <= i && i + s <= corpus[t].len() + 2 * pad_len(s as nat)
            implies #[trigger] m.counts@[s - 1].count(padded(corpus[t], s as nat).subrange(i, i + s)) >= 1 by {
        broadcast use vstd::seq_lib::group_to_multiset_ensures;
        let g = padded(corpus[t], s as nat).subrange(i, i + s);
        assert(counts_match(m.counts@[s - 1], corpus_grams(corpus, s as nat)));
        lemma_window_in_corpus_grams(corpus, s as nat, t, i);
        assert(corpus_grams(corpus, s as nat).to_multiset().count(g) > 0);
    }
}

} // verus!


