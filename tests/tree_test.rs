use decision_tree::{DecisionTreeClassifier, Error, FeatureMatrix, Metrics};

fn matrix(cols: usize, rows: Vec<Vec<i64>>) -> FeatureMatrix {
    FeatureMatrix::new(cols, rows).unwrap()
}

fn separable() -> (FeatureMatrix, Vec<usize>) {
    let m = matrix(
        2,
        vec![
            vec![5, 1],
            vec![1, 9],
            vec![7, 3],
            vec![2, 2],
            vec![8, 8],
            vec![3, 0],
        ],
    );
    // label 1 exactly when the first feature is above 4
    (m, vec![1, 0, 1, 0, 1, 0])
}

fn xlogx_table(n: usize) -> Vec<u64> {
    (0..=n)
        .map(|k| {
            let x = k as f64;
            if k == 0 { 0 } else { (x * x.ln() * 1048576.0).round() as u64 }
        })
        .collect()
}

#[test]
fn separable_training_set_is_fit_exactly() {
    let (m, y) = separable();
    let mut tree = DecisionTreeClassifier::default();
    tree.train(&m, &y).unwrap();
    assert_eq!(tree.predict(&m).unwrap(), y);
    assert_eq!(tree.n_classes_seen(), 2);
}

#[test]
fn separable_training_set_is_fit_exactly_with_entropy() {
    let (m, y) = separable();
    let mut tree = DecisionTreeClassifier::default().with_xlogx(xlogx_table(6));
    tree.train(&m, &y).unwrap();
    let mut tree2 = DecisionTreeClassifier::new(Metrics::Entropy, 10, 0).with_xlogx(xlogx_table(6));
    tree2.train(&m, &y).unwrap();
    assert_eq!(tree.predict(&m).unwrap(), y);
    assert_eq!(tree2.predict(&m).unwrap(), y);
}

#[test]
fn split_is_at_the_midpoint() {
    let (m, y) = separable();
    let mut tree = DecisionTreeClassifier::default();
    tree.train(&m, &y).unwrap();
    let unseen = matrix(2, vec![vec![4, 100], vec![5, -100], vec![-50, 0], vec![50, 0]]);
    // the boundary lies at 4, midway between 3 and 5
    assert_eq!(tree.predict(&unseen).unwrap(), vec![1, 1, 0, 1]);
}

#[test]
fn wrong_column_count_is_invalid_data() {
    let (m, y) = separable();
    let mut tree = DecisionTreeClassifier::default();
    tree.train(&m, &y).unwrap();
    let wrong = matrix(3, vec![vec![1, 2, 3]]);
    assert_eq!(tree.predict(&wrong), Err(Error::InvalidData));
}

#[test]
fn predict_before_training_is_untrained() {
    let tree = DecisionTreeClassifier::new(Metrics::Gini, 3, 30);
    let m = matrix(2, vec![vec![1, 2]]);
    assert_eq!(tree.predict(&m), Err(Error::Untrained));
}

#[test]
fn training_twice_gives_the_same_tree() {
    let m = matrix(
        3,
        vec![
            vec![1, 5, 0],
            vec![2, 4, 1],
            vec![3, 3, 0],
            vec![4, 2, 1],
            vec![5, 1, 0],
            vec![6, 0, 1],
            vec![2, 2, 2],
        ],
    );
    let y = vec![0, 1, 2, 0, 1, 2, 1];
    let mut a = DecisionTreeClassifier::default();
    let mut b = DecisionTreeClassifier::default();
    a.train(&m, &y).unwrap();
    b.train(&m, &y).unwrap();
    assert_eq!(format!("{:?}", a), format!("{:?}", b));
    assert_eq!(a.predict(&m).unwrap(), b.predict(&m).unwrap());
}

#[test]
fn depth_zero_gives_majority_leaf() {
    let (m, _) = separable();
    let y = vec![2, 1, 2, 1, 3, 3];
    let mut tree = DecisionTreeClassifier::new(Metrics::Gini, 0, 0);
    tree.train(&m, &y).unwrap();
    // 1, 2 and 3 tie at two rows each: the smallest label wins
    assert_eq!(tree.predict(&m).unwrap(), vec![1; 6]);
}

#[test]
fn min_samples_split_stops_small_nodes() {
    let (m, y) = separable();
    let mut tree = DecisionTreeClassifier::new(Metrics::Gini, 10, 6);
    tree.train(&m, &y).unwrap();
    assert_eq!(tree.predict(&m).unwrap(), vec![0; 6]);
}

#[test]
fn constant_features_give_a_leaf() {
    let m = matrix(1, vec![vec![3], vec![3], vec![3]]);
    let y = vec![0, 1, 1];
    let mut tree = DecisionTreeClassifier::default();
    tree.train(&m, &y).unwrap();
    assert_eq!(tree.predict(&m).unwrap(), vec![1, 1, 1]);
}

#[test]
fn training_rejects_bad_data() {
    let mut tree = DecisionTreeClassifier::default();
    let empty = matrix(2, vec![]);
    assert_eq!(tree.train(&empty, &vec![]), Err(Error::InvalidData));
    let (m, _) = separable();
    assert_eq!(tree.train(&m, &vec![0, 1]), Err(Error::InvalidData));
    let mut entropy = DecisionTreeClassifier::new(Metrics::Entropy, 5, 1);
    let (m, y) = separable();
    assert_eq!(entropy.train(&m, &y), Err(Error::InvalidData));
    let m1 = matrix(2, vec![vec![1, 2]]);
    assert_eq!(tree.predict(&m1), Err(Error::Untrained));
}

#[test]
fn ragged_rows_are_refused() {
    assert!(matches!(FeatureMatrix::new(2, vec![vec![1, 2], vec![3]]), Err(Error::InvalidData)));
}

#[test]
fn single_class_gives_single_leaf() {
    let (m, _) = separable();
    let mut tree = DecisionTreeClassifier::default();
    tree.train(&m, &vec![7; 6]).unwrap();
    assert_eq!(tree.predict(&m).unwrap(), vec![7; 6]);
}

#[test]
fn fresh_classifier_has_no_classes() {
    assert_eq!(DecisionTreeClassifier::default().n_classes_seen(), 0);
    assert_eq!(DecisionTreeClassifier::new(Metrics::Entropy, 2, 2).n_classes_seen(), 0);
}

#[test]
fn entropy_accepts_large_tables() {
    let (m, y) = separable();
    let table: Vec<u64> = (0..=6u64).map(|k| if k < 2 { 0 } else { u64::MAX / 8 + k }).collect();
    let mut tree = DecisionTreeClassifier::new(Metrics::Entropy, 10, 0).with_xlogx(table);
    assert!(tree.train(&m, &y).is_ok());
}
