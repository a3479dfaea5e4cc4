use mlab_rs::grid::Grid;
use mlab_rs::skimage::morphology::{
    binary_closing, binary_dilation, binary_erosion, binary_opening, diamond, disk, label,
    remove_small_objects, skeletonize, square, transitions,
};

fn grid<T: Copy>(rows: Vec<Vec<T>>) -> Grid<T> {
    let cols = if rows.is_empty() { 0 } else { rows[0].len() };
    Grid::from_rows(rows, cols).unwrap()
}

fn filled<T: Copy>(rows: usize, cols: usize, v: T) -> Grid<T> {
    Grid::filled(rows, cols, v)
}

#[test]
fn test_binary_ops() {
    let image = grid(vec![vec![1u8, 1, 1], vec![1, 1, 1], vec![1, 1, 1]]);
    let eroded = binary_erosion(&image);
    let dilated = binary_dilation(&image);
    assert_eq!(eroded.dim(), (3, 3));
    assert_eq!(dilated.dim(), (3, 3));
    assert_eq!(eroded.get(1, 1), 1);
    assert_eq!(dilated.get(1, 1), 1);
}

#[test]
fn test_binary_opening_closing() {
    let mut image = filled(8, 8, false);
    for y in 2..6 {
        for x in 2..6 {
            image.set(y, x, true);
        }
    }
    let selem = square(3);
    let opened = binary_opening(&image, &selem);
    let closed = binary_closing(&image, &selem);
    assert_eq!(opened.dim(), (8, 8));
    assert_eq!(closed.dim(), (8, 8));
    assert!(opened.get(3, 3));
    assert!(closed.get(3, 3));
}

#[test]
fn test_binary_opening_removes_noise() {
    let mut image = filled(8, 8, false);
    for y in 3..6 {
        for x in 3..6 {
            image.set(y, x, true);
        }
    }
    image.set(0, 0, true);
    let selem = square(3);
    let opened = binary_opening(&image, &selem);
    assert!(!opened.get(0, 0));
    assert!(opened.get(4, 4));
}

#[test]
fn test_binary_closing_fills_gaps() {
    let mut image = filled(8, 8, false);
    for y in 2..6 {
        for x in 2..6 {
            image.set(y, x, true);
        }
    }
    image.set(4, 4, false);
    let selem = square(3);
    let closed = binary_closing(&image, &selem);
    assert!(closed.get(4, 4));
}

#[test]
fn test_skeletonize() {
    let mut image = filled(8, 8, false);
    for y in 3..6 {
        for x in 1..7 {
            image.set(y, x, true);
        }
    }
    let skel = skeletonize(&image);
    assert_eq!(skel.dim(), (8, 8));
    assert!(skel.get(4, 3));
    let top_count: usize = (1..7).filter(|&x| skel.get(3, x)).count();
    assert!(top_count < 6);
}

#[test]
fn test_skeletonize_cross() {
    let mut image = filled(5, 5, false);
    image.set(2, 1, true);
    image.set(2, 2, true);
    image.set(2, 3, true);
    image.set(1, 2, true);
    image.set(3, 2, true);
    let skel = skeletonize(&image);
    assert!(skel.get(2, 2));
}

#[test]
fn test_remove_small_objects() {
    let mut labels = filled(8, 8, 0usize);
    for y in 0..2 {
        for x in 0..3 {
            labels.set(y, x, 1);
        }
    }
    labels.set(5, 5, 2);
    labels.set(5, 6, 2);
    let result = remove_small_objects(&labels, 3);
    assert_eq!(result.get(0, 0), 1);
    assert_eq!(result.get(5, 5), 0);
}

#[test]
fn test_disk() {
    let d = disk(2);
    assert_eq!(d.dim(), (5, 5));
    assert!(d.get(2, 2));
    assert!(!d.get(0, 0));
    assert!(d.get(0, 2));
    assert!(d.get(2, 0));
    assert!(d.get(4, 2));
    assert!(d.get(2, 4));
}

#[test]
fn test_square() {
    let s = square(4);
    assert_eq!(s.dim(), (4, 4));
    assert!(s.to_rows().iter().flatten().all(|&v| v));
}

#[test]
fn test_diamond() {
    let d = diamond(2);
    assert_eq!(d.dim(), (5, 5));
    assert!(d.get(2, 2));
    assert!(d.get(0, 2));
    assert!(d.get(2, 0));
    assert!(!d.get(0, 0));
    assert!(!d.get(0, 4));
}

#[test]
fn erosion_at_the_border_uses_the_clamped_window() {
    let image = grid(vec![vec![1u8, 1, 0], vec![1, 1, 1], vec![1, 1, 1]]);
    let eroded = binary_erosion(&image);
    assert_eq!(
        eroded.to_rows(),
        vec![vec![1u8, 0, 0], vec![1, 0, 0], vec![1, 1, 1]]
    );
}

#[test]
fn dilation_spreads_a_single_pixel() {
    let mut image = filled(4, 4, 0u8);
    image.set(0, 0, 1);
    let dilated = binary_dilation(&image);
    assert_eq!(
        dilated.to_rows(),
        vec![vec![1u8, 1, 0, 0], vec![1, 1, 0, 0], vec![0, 0, 0, 0], vec![0, 0, 0, 0]]
    );
}

#[test]
fn opening_only_removes_and_closing_only_adds() {
    let mut image = filled(7, 7, false);
    for (y, x) in [(1, 1), (1, 2), (2, 1), (2, 2), (3, 3), (4, 4), (4, 5), (5, 4), (5, 5), (4, 3)] {
        image.set(y, x, true);
    }
    let selem = diamond(1);
    let opened = binary_opening(&image, &selem);
    let closed = binary_closing(&image, &selem);
    for y in 0..7 {
        for x in 0..7 {
            if opened.get(y, x) {
                assert!(image.get(y, x));
            }
            if image.get(y, x) && (1..6).contains(&y) && (1..6).contains(&x) {
                assert!(closed.get(y, x));
            }
        }
    }
}

#[test]
fn disk_of_radius_one_is_full_and_radius_three_is_round() {
    // The corners of radius one lie at distance sqrt(2) <= 1.5.
    let d1 = disk(1);
    assert_eq!(d1.to_rows(), vec![vec![true; 3]; 3]);
    let d3 = disk(3);
    // (1, 1) lies at distance sqrt(8) < 3.5; (0, 1) at sqrt(13) > 3.5.
    assert!(d3.get(1, 1));
    assert!(!d3.get(0, 1));
    assert!(d3.get(0, 3));
}

#[test]
fn transitions_counts_set_to_unset_steps() {
    assert_eq!(transitions(&[true, false, true, false, false, false, false, false]), 2);
    assert_eq!(transitions(&[true; 8]), 0);
    assert_eq!(transitions(&[false, false, false, false, false, false, false, true]), 1);
}

#[test]
fn skeleton_is_part_of_the_image() {
    let mut image = filled(9, 9, false);
    for y in 1..8 {
        for x in 2..7 {
            image.set(y, x, true);
        }
    }
    let skel = skeletonize(&image);
    let mut kept = 0;
    for y in 0..9 {
        for x in 0..9 {
            if skel.get(y, x) {
                assert!(image.get(y, x));
                kept += 1;
            }
        }
    }
    assert!(kept > 0 && kept < 35);
}

#[test]
fn remove_small_objects_keeps_exact_threshold() {
    let labels = grid(vec![vec![3usize, 3, 0], vec![0, 4, 0], vec![0, 0, 0]]);
    let out = remove_small_objects(&labels, 2);
    assert_eq!(out.to_rows(), vec![vec![3usize, 3, 0], vec![0, 0, 0], vec![0, 0, 0]]);
}

#[test]
fn ragged_rows_are_refused() {
    assert!(Grid::from_rows(vec![vec![1u8, 2], vec![3]], 2).is_none());
}

#[test]
fn test_label() {
    let mut image = filled(8, 8, false);
    // two separate regions
    image.set(1, 1, true);
    image.set(1, 2, true);
    image.set(6, 6, true);
    let (labels, n) = label(&image);
    assert_eq!(n, 2);
    assert_eq!(labels.get(1, 1), labels.get(1, 2));
    assert_ne!(labels.get(1, 1), labels.get(6, 6));
}

#[test]
fn label_follows_a_winding_path() {
    let image = grid(vec![
        vec![true, true, true, true],
        vec![false, false, false, true],
        vec![true, true, false, true],
        vec![true, false, false, true],
        vec![true, true, true, true],
    ]);
    let (labels, n) = label(&image);
    assert_eq!(n, 1);
    assert_eq!(labels.get(2, 0), 1);
    assert_eq!(labels.get(2, 2), 0);
}
