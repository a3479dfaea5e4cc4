use mlab_rs::numpy_ml::ngram::MLENGram;

#[test]
fn retraining_replaces_the_counts() {
    let first = vec![vec![1usize, 2, 3], vec![1, 2]];
    let corpus = vec![vec![4usize, 5], vec![4]];
    let mut retrained = MLENGram::new(2);
    retrained.train(&first);
    retrained.train(&corpus);
    let mut fresh = MLENGram::new(2);
    fresh.train(&corpus);
    let a = retrained.counts();
    let b = fresh.counts();
    assert_eq!(a.n_words, b.n_words);
    assert_eq!(a.n_tokens, b.n_tokens);
    assert_eq!(a.n_words[1], 3);
    for s in 0..2 {
        assert_eq!(a.counts[s].len(), b.counts[s].len());
        assert_eq!(a.counts[s].total_count(), b.counts[s].total_count());
    }
    assert_eq!(a.counts[0].get(&vec![4]), 2);
    assert_eq!(b.counts[0].get(&vec![4]), 2);
    assert_eq!(a.counts[0].get(&vec![1]), 0);
    assert_eq!(a.counts[1].get(&vec![4, 5]), 1);
}
