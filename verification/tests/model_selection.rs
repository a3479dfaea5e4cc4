use mlab_rs::grid::Grid;
use mlab_rs::sklearn::model_selection::{train_test_split, KFold, StratifiedKFold};

#[test]
fn test_kfold_each_sample_in_val_once() {
    let kf = KFold::new(5, false, None);
    let splits = kf.split(100);
    assert_eq!(splits.len(), 5);

    let mut seen = vec![false; 100];
    for (train, val) in &splits {
        assert_eq!(train.len() + val.len(), 100);
        for &v in val {
            assert!(!seen[v], "sample {} appeared in multiple val sets", v);
            seen[v] = true;
        }
    }
    assert!(seen.iter().all(|&s| s), "not all samples appeared in validation");
}

#[test]
fn test_kfold_with_shuffle() {
    let kf = KFold::new(5, true, Some(123));
    let splits = kf.split(100);
    assert_eq!(splits.len(), 5);
    let mut all_val: Vec<usize> = Vec::new();
    for (_, val) in &splits {
        all_val.extend(val);
    }
    all_val.sort();
    assert_eq!(all_val, (0..100).collect::<Vec<usize>>());
}

#[test]
fn test_stratified_kfold_class_balance() {
    let mut y = vec![0.0f64; 60];
    y.extend(vec![1.0f64; 40]);
    let labels: Vec<u64> = y.iter().map(|v| v.to_bits()).collect();
    let skf = StratifiedKFold::new(5, true, Some(42));
    let splits = skf.split(&labels);
    assert_eq!(splits.len(), 5);

    for (_train, val) in &splits {
        let val_class0 = val.iter().filter(|&&i| y[i] == 0.0).count();
        let val_class1 = val.iter().filter(|&&i| y[i] == 1.0).count();
        assert_eq!(val_class0, 12, "class 0 should have 12 samples per fold");
        assert_eq!(val_class1, 8, "class 1 should have 8 samples per fold");
    }
}

#[test]
fn kfold_uneven_folds_without_shuffle() {
    let kf = KFold::new(3, false, None);
    let splits = kf.split(7);
    assert_eq!(splits[0], (vec![3, 4, 5, 6], vec![0, 1, 2]));
    assert_eq!(splits[1], (vec![0, 1, 2, 5, 6], vec![3, 4]));
    assert_eq!(splits[2], (vec![0, 1, 2, 3, 4], vec![5, 6]));
}

#[test]
fn kfold_same_seed_same_split() {
    let a = KFold::new(4, true, Some(7)).split(30);
    let b = KFold::new(4, true, Some(7)).split(30);
    assert_eq!(a, b);
}

#[test]
fn stratified_without_shuffle_deals_round_robin() {
    let labels: Vec<u64> = vec![0, 1, 0, 1, 0, 0];
    let skf = StratifiedKFold::new(2, false, None);
    let splits = skf.split(&labels);
    // Label 0 members 0,2,4,5 dealt to folds 0,1,0,1; label 1 members 1,3 to folds 0,1.
    assert_eq!(splits[0].1, vec![0, 4, 1]);
    assert_eq!(splits[1].1, vec![2, 5, 3]);
    assert_eq!(splits[0].0, vec![2, 3, 5]);
    assert_eq!(splits[1].0, vec![0, 1, 4]);
}

#[test]
fn stratified_uneven_class_sizes() {
    let labels: Vec<u64> = vec![7; 7];
    let splits = StratifiedKFold::new(3, true, Some(1)).split(&labels);
    let sizes: Vec<usize> = splits.iter().map(|(_, v)| v.len()).collect();
    assert_eq!(sizes, vec![3, 2, 2]);
    let mut all: Vec<usize> = splits.iter().flat_map(|(_, v)| v.clone()).collect();
    all.sort();
    assert_eq!(all, (0..7).collect::<Vec<usize>>());
}

#[test]
fn test_train_test_split() {
    let x = Grid::from_rows(vec![vec![1.0], vec![2.0], vec![3.0], vec![4.0], vec![5.0]], 1).unwrap();
    let y = [1.0, 2.0, 3.0, 4.0, 5.0];
    let test_size = 0.4;
    let n_test = (y.len() as f64 * test_size).round() as usize;
    let (x_train, x_test, y_train, y_test) = train_test_split(&x, &y, n_test, false);
    assert_eq!(x_train.dim().0, 3);
    assert_eq!(x_test.dim().0, 2);
    assert_eq!(y_train.len(), 3);
    assert_eq!(y_test.len(), 2);
}

#[test]
fn train_test_split_without_shuffle_keeps_order() {
    let x = Grid::from_rows(vec![vec![0, 10], vec![1, 11], vec![2, 12], vec![3, 13]], 2).unwrap();
    let y = [0, 1, 2, 3];
    let (x_train, x_test, y_train, y_test) = train_test_split(&x, &y, 1, false);
    assert_eq!(x_train.to_rows(), vec![vec![0, 10], vec![1, 11], vec![2, 12]]);
    assert_eq!(x_test.to_rows(), vec![vec![3, 13]]);
    assert_eq!(y_train, vec![0, 1, 2]);
    assert_eq!(y_test, vec![3]);
}

#[test]
fn train_test_split_with_shuffle_keeps_rows_with_labels() {
    let rows: Vec<Vec<i32>> = (0..20).map(|i| vec![i, 100 + i]).collect();
    let x = Grid::from_rows(rows, 2).unwrap();
    let y: Vec<i32> = (0..20).collect();
    let (x_train, x_test, y_train, y_test) = train_test_split(&x, &y, 5, true);
    assert_eq!(y_train.len(), 15);
    assert_eq!(y_test.len(), 5);
    let xtr = x_train.to_rows();
    for (row, label) in xtr.iter().zip(y_train.iter()) {
        assert_eq!(row, &vec![*label, 100 + *label]);
    }
    let xte = x_test.to_rows();
    for (row, label) in xte.iter().zip(y_test.iter()) {
        assert_eq!(row, &vec![*label, 100 + *label]);
    }
    let mut all: Vec<i32> = y_train.iter().chain(y_test.iter()).cloned().collect();
    all.sort();
    assert_eq!(all, y);
}

#[test]
fn stratified_same_seed_same_split() {
    let labels: Vec<u64> = vec![0, 1, 0, 1, 2, 0, 1, 2, 2, 0, 1, 0];
    let a = StratifiedKFold::new(3, true, Some(7)).split(&labels);
    let b = StratifiedKFold::new(3, true, Some(7)).split(&labels);
    assert_eq!(a, b);
}

#[test]
fn stratified_without_shuffle_deals_labels_in_first_occurrence_order() {
    // label 5 first occurs before label 3: its members 0, 3, 4 are dealt first
    let labels: Vec<u64> = vec![5, 3, 3, 5, 5];
    let splits = StratifiedKFold::new(2, false, None).split(&labels);
    assert_eq!(splits[0].1, vec![0, 4, 1]);
    assert_eq!(splits[1].1, vec![3, 2]);
}
