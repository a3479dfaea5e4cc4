use mlab_rs::np::random::{apply_swaps, choice, permutation, pick_in_order, seed, shuffle};
use rand::Rng;

#[test]
fn test_shuffle_is_permutation() {
    let n = 100;
    let mut x: Vec<usize> = (0..n).collect();
    shuffle(&mut x);
    let mut sorted = x.clone();
    sorted.sort();
    let expected: Vec<usize> = (0..n).collect();
    assert_eq!(sorted, expected, "shuffle did not produce a valid permutation");
}

#[test]
fn test_permutation() {
    let n = 100;
    let p = permutation(n);
    assert_eq!(p.len(), n);
    let mut sorted = p.clone();
    sorted.sort();
    let expected: Vec<usize> = (0..n).collect();
    assert_eq!(sorted, expected, "permutation not valid");
}

#[test]
fn test_seed_reproducibility() {
    let mut rng1 = seed(42);
    let mut rng2 = seed(42);
    for _ in 0..100 {
        assert_eq!(rng1.gen::<f64>(), rng2.gen::<f64>());
    }
}

#[test]
fn test_choice_with_replacement() {
    let a: Vec<usize> = (0..10).collect();
    let result = choice(&a, 1000, true);
    assert_eq!(result.len(), 1000);
    for &v in &result {
        assert!(v < 10, "value {v} out of range");
    }
}

#[test]
fn test_choice_without_replacement() {
    let a: Vec<usize> = (0..20).collect();
    let result = choice(&a, 10, false);
    assert_eq!(result.len(), 10);
    let mut sorted = result.clone();
    sorted.sort();
    sorted.dedup();
    assert_eq!(sorted.len(), 10, "duplicates found in without-replacement sample");
}

#[test]
fn shuffle_keeps_repeated_values() {
    let mut x: Vec<usize> = vec![5, 5, 7, 1, 7, 7];
    shuffle(&mut x);
    let mut sorted = x.clone();
    sorted.sort();
    assert_eq!(sorted, vec![1, 5, 5, 7, 7, 7]);
}

#[test]
fn shuffle_of_short_slices() {
    let mut empty: Vec<usize> = vec![];
    shuffle(&mut empty);
    assert!(empty.is_empty());
    let mut one = vec![9usize];
    shuffle(&mut one);
    assert_eq!(one, vec![9]);
}

#[test]
fn permutation_of_zero_is_empty() {
    assert!(permutation(0).is_empty());
}

#[test]
fn choice_without_replacement_of_everything_is_a_permutation() {
    let a: Vec<usize> = vec![3, 1, 4, 1, 5];
    let mut r = choice(&a, 5, false);
    r.sort();
    assert_eq!(r, vec![1, 1, 3, 4, 5]);
}

#[test]
fn choice_from_a_single_value() {
    let r = choice(&[42], 7, true);
    assert_eq!(r, vec![42; 7]);
}

#[test]
fn apply_swaps_follows_the_draws() {
    let mut x = vec![10usize, 20, 30, 40];
    // position 3 with 1, then 2 with 0, then 1 with 0
    apply_swaps(&mut x, &[1, 0, 0]);
    assert_eq!(x, vec![40, 30, 10, 20]);
}

#[test]
fn apply_swaps_with_the_largest_draws_keeps_the_order() {
    let mut x = vec![3usize, 1, 2];
    apply_swaps(&mut x, &[2, 1]);
    assert_eq!(x, vec![3, 1, 2]);
}

#[test]
fn pick_in_order_takes_the_listed_positions() {
    assert_eq!(pick_in_order(&[5, 6, 7, 8], &[3, 0, 2, 1], 2), vec![8, 5]);
    assert_eq!(pick_in_order(&[5, 6, 7, 8], &[3, 0, 2, 1], 0), Vec::<usize>::new());
}
