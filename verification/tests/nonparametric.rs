use mlab_rs::numpy_ml::nonparametric::majority_vote;

#[test]
fn majority_vote_takes_the_most_frequent_key() {
    assert_eq!(majority_vote(&[3, 1, 3, 2, 3, 1]), 3);
}

#[test]
fn majority_vote_breaks_ties_towards_the_smaller_key() {
    assert_eq!(majority_vote(&[5, 2, 5, 2, 9]), 2);
    assert_eq!(majority_vote(&[4, -7]), -7);
}

#[test]
fn majority_vote_of_class_labels_as_float_bits() {
    let labels = [1.0f64, 0.0, 1.0];
    let keys: Vec<i64> = labels.iter().map(|v| v.to_bits() as i64).collect();
    let v = majority_vote(&keys);
    assert_eq!(f64::from_bits(v as u64), 1.0);
}

#[test]
fn majority_vote_of_nothing_is_zero() {
    assert_eq!(majority_vote(&[]), 0);
}
