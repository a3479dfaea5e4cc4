use mlab_rs::grid::Grid;
use mlab_rs::skimage::color::gray2rgb;
use mlab_rs::skimage::filters::{edges_from_gradients, sobel};
use mlab_rs::skimage::transform::{resize, rgb_from_bytes};

#[test]
fn test_color() {
    // the gray image that a pure-red 10x10 image converts to
    let gray = Grid::filled(10, 10, 76u8);
    let rgb_back = gray2rgb(&gray);
    assert_eq!(rgb_back.dim(), (10, 10));
    assert_eq!(rgb_back.get(0, 0).0, 76);
    assert_eq!(rgb_back.get(0, 0).1, 76);
    assert_eq!(rgb_back.get(0, 0).2, 76);
}

#[test]
fn gray2rgb_copies_the_value_into_each_channel() {
    let gray = Grid::from_rows(vec![vec![1u8, 2], vec![3, 4]], 2).unwrap();
    assert_eq!(gray2rgb(&gray).to_rows(), vec![vec![(1, 1, 1), (2, 2, 2)], vec![(3, 3, 3), (4, 4, 4)]]);
}

#[test]
fn edges_cap_gradients_at_255() {
    let edges = edges_from_gradients(&[0, 17, 255, 256, 1020, 65535], 2, 3);
    assert_eq!(edges.to_rows(), vec![vec![0, 17, 255], vec![255, 255, 255]]);
}

#[test]
fn sobel_of_a_flat_image_is_zero() {
    let image = Grid::filled(5, 6, 200u8);
    let edges = sobel(&image);
    assert_eq!(edges.dim(), (5, 6));
    assert_eq!(edges.to_rows(), vec![vec![0u8; 6]; 5]);
}

#[test]
fn sobel_finds_a_vertical_step() {
    let rows: Vec<Vec<u8>> = (0..5).map(|_| vec![0, 0, 0, 100, 100, 100]).collect();
    let image = Grid::from_rows(rows, 6).unwrap();
    let edges = sobel(&image);
    // the columns next to the step get the capped gradient, the far columns none
    assert_eq!(edges.get(2, 2), 255);
    assert_eq!(edges.get(2, 3), 255);
    assert_eq!(edges.get(2, 0), 0);
    assert_eq!(edges.get(2, 5), 0);
}

#[test]
fn rgb_from_bytes_reads_three_bytes_per_pixel() {
    let g = rgb_from_bytes(&[1, 2, 3, 4, 5, 6], 1, 2);
    assert_eq!(g.to_rows(), vec![vec![(1, 2, 3), (4, 5, 6)]]);
}

#[test]
fn resize_to_the_same_shape_keeps_the_image() {
    let rows = vec![vec![(10u8, 20u8, 30u8), (40, 50, 60)], vec![(70, 80, 90), (100, 110, 120)]];
    let image = Grid::from_rows(rows.clone(), 2).unwrap();
    assert_eq!(resize(&image, (2, 2)).to_rows(), rows);
}

#[test]
fn resize_changes_the_shape_of_a_uniform_image() {
    let image = Grid::filled(4, 6, (9u8, 120u8, 250u8));
    let bigger = resize(&image, (8, 3));
    assert_eq!(bigger.dim(), (8, 3));
    assert_eq!(bigger.to_rows(), vec![vec![(9u8, 120u8, 250u8); 3]; 8]);
}

#[test]
fn test_filters() {
    let image = Grid::filled(8, 8, 0u8);
    let edges = sobel(&image);
    assert_eq!(edges.dim(), (8, 8));
}

#[test]
fn test_transform() {
    let image = Grid::filled(2, 2, (0u8, 0u8, 0u8));
    let resized = resize(&image, (4, 4));
    assert_eq!(resized.dim(), (4, 4));
}
