use decision_tree::{freq, get_splits, split_slice, uniquify};

#[test]
fn test_uniquify() {
    assert_eq!(uniquify(&vec![1, 2, 1]), vec![1, 2]);
    assert_eq!(uniquify(&vec![3, 1, 1, 1, 2, 2]), vec![1, 2, 3]);
}

#[test]
fn uniquify_empty_and_negative() {
    assert_eq!(uniquify(&vec![]), Vec::<i64>::new());
    assert_eq!(uniquify(&vec![-5, 7, -5, 0]), vec![-5, 0, 7]);
}

#[test]
fn test_get_splits() {
    // thresholds come doubled: 30 stands for the midpoint 15
    assert_eq!(get_splits(&vec![10, 20, 10]), vec![30]);
    assert_eq!(get_splits(&vec![30, 10, 10, 10, 20, 20]), vec![30, 50]);
    assert_eq!(get_splits(&vec![1, 3, 7, 3, 7]), vec![4, 10]);
}

#[test]
fn get_splits_single_value_has_none() {
    assert_eq!(get_splits(&vec![4, 4, 4]), Vec::<i128>::new());
    assert_eq!(get_splits(&vec![]), Vec::<i128>::new());
}

#[test]
fn get_splits_extreme_values() {
    assert_eq!(get_splits(&vec![i64::MAX, i64::MIN]), vec![-1]);
    assert_eq!(get_splits(&vec![i64::MAX, i64::MAX - 1]), vec![2 * (i64::MAX as i128) - 1]);
}

#[test]
fn test_split_slice() {
    let (l, r) = split_slice(&vec![1, 2, 3], &vec![true, false, true]);
    assert_eq!(l, vec![1, 3]);
    assert_eq!(r, vec![2]);

    let (l, r) = split_slice(&vec![1, 2, 3], &vec![true, true, true]);
    assert_eq!(l, vec![1, 2, 3]);
    assert_eq!(r, Vec::<i32>::new());
}

#[test]
fn split_slice_shorter_mask() {
    let (l, r) = split_slice(&vec![1, 2, 3, 4], &vec![false, true]);
    assert_eq!(l, vec![2]);
    assert_eq!(r, vec![1]);
}

#[test]
fn test_freq() {
    let (uniques, counts) = freq(&vec![1, 2, 3, 1, 2, 4]);
    assert_eq!(uniques, vec![1, 2, 3, 4]);
    assert_eq!(counts, vec![2, 2, 1, 1]);

    let (uniques, counts) = freq(&vec![1, 2, 2, 2, 2]);
    assert_eq!(uniques, vec![1, 2]);
    assert_eq!(counts, vec![1, 4]);
}

#[test]
fn freq_empty_and_descending() {
    let (uniques, counts) = freq(&vec![]);
    assert!(uniques.is_empty());
    assert!(counts.is_empty());
    let (uniques, counts) = freq(&vec![9, 5, 5, 0]);
    assert_eq!(uniques, vec![0, 5, 9]);
    assert_eq!(counts, vec![1, 2, 1]);
}
