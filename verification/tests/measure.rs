use mlab_rs::grid::Grid;
use mlab_rs::skimage::measure::{binom, label, perimeter, regionprops};
use mlab_rs::skimage::morphology;

fn filled<T: Copy>(rows: usize, cols: usize, v: T) -> Grid<T> {
    Grid::filled(rows, cols, v)
}

#[test]
fn test_regionprops_single_square() {
    let mut labels = filled(10, 10, 0usize);
    for r in 2..5 {
        for c in 3..7 {
            labels.set(r, c, 1);
        }
    }
    let props = regionprops(&labels, 1);
    assert_eq!(props.len(), 1);
    assert_eq!(props[0].area, 12);
    assert_eq!(props[0].bbox, (2, 3, 5, 7));
    let centroid = (
        props[0].row_sum as f64 / props[0].area as f64,
        props[0].col_sum as f64 / props[0].area as f64,
    );
    assert!((centroid.0 - 3.0).abs() < 1e-9);
    assert!((centroid.1 - 4.5).abs() < 1e-9);
}

#[test]
fn test_label_two_components() {
    let mut input = filled(5, 5, false);
    for r in 0..2 {
        for c in 0..2 {
            input.set(r, c, true);
        }
    }
    for r in 3..5 {
        for c in 3..5 {
            input.set(r, c, true);
        }
    }
    let (labeled, num) = label(&input);
    assert_eq!(num, 2);
    assert_eq!(labeled.get(0, 0), labeled.get(1, 1));
    assert_eq!(labeled.get(3, 3), labeled.get(4, 4));
    assert_ne!(labeled.get(0, 0), labeled.get(3, 3));
}

#[test]
fn test_perimeter_square() {
    let mut mask = filled(5, 5, false);
    for r in 1..4 {
        for c in 1..4 {
            mask.set(r, c, true);
        }
    }
    let p = perimeter(&mask) as f64;
    assert_eq!(p, 8.0);
}

#[test]
fn label_numbers_components_in_raster_order() {
    // a U shape whose arms meet only on the last row, and a dot
    let rows = vec![
        vec![true, false, true, false, false],
        vec![true, false, true, false, true],
        vec![true, true, true, false, false],
    ];
    let input = Grid::from_rows(rows, 5).unwrap();
    let (labeled, num) = label(&input);
    assert_eq!(num, 2);
    assert_eq!(
        labeled.to_rows(),
        vec![vec![1, 0, 1, 0, 0], vec![1, 0, 1, 0, 2], vec![1, 1, 1, 0, 0]]
    );
}

#[test]
fn label_diagonal_pixels_are_separate() {
    let rows = vec![vec![true, false], vec![false, true]];
    let input = Grid::from_rows(rows, 2).unwrap();
    let (labeled, num) = label(&input);
    assert_eq!(num, 2);
    assert_eq!(labeled.to_rows(), vec![vec![1, 0], vec![0, 2]]);
}

#[test]
fn both_labellers_agree() {
    let rows = vec![
        vec![true, true, false, true, true, false],
        vec![false, true, false, false, true, false],
        vec![true, true, true, true, true, false],
        vec![false, false, false, false, false, true],
        vec![true, false, true, true, false, true],
    ];
    let input = Grid::from_rows(rows, 6).unwrap();
    let (a, na) = label(&input);
    let (b, nb) = morphology::label(&input);
    assert_eq!(na, nb);
    assert_eq!(na, 4);
    assert_eq!(a.to_rows(), b.to_rows());
}

#[test]
fn label_of_empty_and_full_images() {
    let (l, n) = label(&filled(3, 4, false));
    assert_eq!(n, 0);
    assert_eq!(l.to_rows(), vec![vec![0; 4]; 3]);
    let (l, n) = label(&filled(3, 4, true));
    assert_eq!(n, 1);
    assert_eq!(l.to_rows(), vec![vec![1; 4]; 3]);
}

#[test]
fn perimeter_of_single_pixel_and_full_image() {
    let mut mask = filled(3, 3, false);
    mask.set(1, 1, true);
    assert_eq!(perimeter(&mask), 1);
    // every pixel of a full 4x4 image but the 2x2 centre lies on the border
    assert_eq!(perimeter(&filled(4, 4, true)), 12);
    assert_eq!(perimeter(&filled(4, 4, false)), 0);
}

#[test]
fn regionprops_skips_missing_labels_and_orders_by_label() {
    let rows = vec![vec![3, 3, 0, 1], vec![0, 3, 0, 1], vec![0, 0, 0, 0]];
    let labels = Grid::from_rows(rows, 4).unwrap();
    let props = regionprops(&labels, 3);
    assert_eq!(props.len(), 2);
    assert_eq!(props[0].label, 1);
    assert_eq!(props[0].area, 2);
    assert_eq!(props[0].bbox, (0, 3, 2, 4));
    assert_eq!((props[0].row_sum, props[0].col_sum), (1, 6));
    assert_eq!(props[0].perimeter, 2);
    assert_eq!(props[1].label, 3);
    assert_eq!(props[1].area, 3);
    assert_eq!(props[1].bbox, (0, 0, 2, 2));
    assert_eq!((props[1].row_sum, props[1].col_sum), (1, 2));
    assert_eq!(props[1].perimeter, 3);
}

#[test]
fn binom_values() {
    assert_eq!(binom(5, 2), 10);
    assert_eq!(binom(10, 3), 120);
    assert_eq!(binom(4, 0), 1);
    assert_eq!(binom(4, 4), 1);
    assert_eq!(binom(3, 5), 0);
    assert_eq!(binom(0, 0), 1);
    assert_eq!(binom(30, 15), 155117520);
}
