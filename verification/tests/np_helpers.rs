use mlab_rs::np::random::randint;
use mlab_rs::np::{repeat, tile, where_arr};

#[test]
fn tile_and_repeat_of_two_values() {
    assert_eq!(tile(&[1.0, 2.0], 2), vec![1.0, 2.0, 1.0, 2.0]);
    assert_eq!(repeat(&[1.0, 2.0], 2), vec![1.0, 1.0, 2.0, 2.0]);
}

#[test]
fn tile_and_repeat_edge_cases() {
    assert_eq!(tile(&[7u8, 8, 9], 0), Vec::<u8>::new());
    assert_eq!(tile::<u8>(&[], 5), Vec::<u8>::new());
    assert_eq!(repeat(&[7u8, 8, 9], 0), Vec::<u8>::new());
    assert_eq!(repeat(&[4i32], 3), vec![4, 4, 4]);
    assert_eq!(tile(&[1i64, 2, 3], 3).len(), 9);
}

#[test]
fn where_arr_picks_by_condition() {
    let cond = [true, false, true, false, true];
    let x = [10.0, 20.0, 30.0, 40.0, 50.0];
    let y = [1.0, 2.0, 3.0, 4.0, 5.0];
    assert_eq!(where_arr(&cond, &x, &y), vec![10.0, 2.0, 30.0, 4.0, 50.0]);
    assert_eq!(where_arr::<u8>(&[], &[], &[]), Vec::<u8>::new());
}

#[test]
fn randint_fills_the_shape_within_bounds() {
    let v = randint(-3, 4, &[2, 5]);
    assert_eq!(v.len(), 10);
    assert!(v.iter().all(|&x| (-3..4).contains(&x)));
    assert_eq!(randint(0, 1, &[3]), vec![0, 0, 0]);
    assert_eq!(randint(0, 10, &[4, 0, 2]).len(), 0);
    assert_eq!(randint(0, 10, &[]).len(), 1);
}
