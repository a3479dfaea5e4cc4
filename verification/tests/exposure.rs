use mlab_rs::grid::Grid;
use mlab_rs::skimage::exposure::equalize_hist;

#[test]
fn equalize_hist_of_two_levels() {
    let image = Grid::from_rows(vec![vec![0u8, 255], vec![0, 255]], 2).unwrap();
    let equalized = equalize_hist(&image);
    assert_eq!(equalized.dim(), (2, 2));
    // half the pixels are at most 0: 127.5 rounds up
    assert_eq!(equalized.to_rows(), vec![vec![128, 255], vec![128, 255]]);
}

#[test]
fn equalize_hist_spreads_three_levels() {
    let image = Grid::from_rows(vec![vec![0u8, 0], vec![255, 128]], 2).unwrap();
    let equalized = equalize_hist(&image);
    // cumulative counts 2, 3, 4 of 4 pixels
    assert_eq!(equalized.to_rows(), vec![vec![128, 128], vec![255, 191]]);
}

#[test]
fn equalize_hist_of_a_flat_image_is_white() {
    let image = Grid::filled(3, 2, 17u8);
    assert_eq!(equalize_hist(&image).to_rows(), vec![vec![255u8; 2]; 3]);
    let empty: Grid<u8> = Grid::filled(0, 0, 0);
    assert_eq!(equalize_hist(&empty).dim(), (0, 0));
}
