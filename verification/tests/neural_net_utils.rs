use mlab_rs::numpy_ml::neural_nets::initializers::{calc_fan, calc_pad_dims_2d};
use mlab_rs::numpy_ml::neural_nets::utils::minibatch_indices;

#[test]
fn test_calc_fan_2d() {
    let (fan_in, fan_out) = calc_fan((128, 64));
    assert_eq!(fan_in, 128);
    assert_eq!(fan_out, 64);
}

#[test]
fn test_minibatch_indices() {
    let (batches, n) = minibatch_indices(100, 32, false);
    assert_eq!(n, 4);
    assert_eq!(batches[0].len(), 32);
    assert_eq!(batches[3].len(), 4);
}

#[test]
fn minibatches_in_order_without_shuffle() {
    let (batches, n) = minibatch_indices(7, 3, false);
    assert_eq!(n, 3);
    assert_eq!(batches, vec![vec![0, 1, 2], vec![3, 4, 5], vec![6]]);
}

#[test]
fn shuffled_minibatches_cover_every_sample_once() {
    let (batches, n) = minibatch_indices(50, 8, true);
    assert_eq!(n, 7);
    let mut all: Vec<usize> = batches.iter().flatten().copied().collect();
    all.sort();
    assert_eq!(all, (0..50).collect::<Vec<usize>>());
    for b in &batches[..6] {
        assert_eq!(b.len(), 8);
    }
    assert_eq!(batches[6].len(), 2);
}

#[test]
fn minibatches_of_nothing() {
    let (batches, n) = minibatch_indices(0, 4, true);
    assert_eq!(n, 0);
    assert!(batches.is_empty());
}

#[test]
fn pad_dims_same_convolution() {
    // 3x3 kernel, stride 1, no dilation: one pixel on each side keeps 5x5.
    assert_eq!(calc_pad_dims_2d(5, 5, 5, 5, (3, 3), 1, 0), (1, 1, 1, 1));
}

#[test]
fn pad_dims_asymmetric() {
    // An even kernel needs one more pixel after than before.
    assert_eq!(calc_pad_dims_2d(4, 4, 4, 4, (2, 2), 1, 0), (0, 1, 0, 1));
}

#[test]
fn pad_dims_dilated() {
    // A 3x3 kernel dilated by 1 spans 5 pixels: two on each side.
    assert_eq!(calc_pad_dims_2d(6, 6, 6, 6, (3, 3), 1, 1), (2, 2, 2, 2));
}
