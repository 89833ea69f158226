use decision_tree::{Cost, Metrics};

const SCALE: f64 = 1048576.0;

fn xlogx_table(n: usize) -> Vec<u64> {
    (0..=n)
        .map(|k| {
            let x = k as f64;
            if k == 0 { 0 } else { (x * x.ln() * SCALE).round() as u64 }
        })
        .collect()
}

fn value(c: Cost) -> f64 {
    c.num as f64 / c.den as f64
}

fn entropy_value(c: Cost) -> f64 {
    value(c) / SCALE
}

#[test]
fn test_gini_from_probas() {
    let none: Vec<u64> = vec![];
    let c = Metrics::Gini.from_probas(&vec![1, 0, 0], &none);
    assert_eq!(c.num, 0);
    let c = Metrics::Gini.from_probas(&vec![1, 1, 1], &none);
    assert_eq!((c.num, c.den), (6, 9));
    let c = Metrics::Gini.from_probas(&vec![0, 1, 45], &none);
    assert_eq!((c.num, c.den), (90, 2116));
    assert!((value(c) - 0.04253308128544431).abs() < 1e-12);
    let c = Metrics::Gini.from_probas(&vec![0, 49, 5], &none);
    assert_eq!((c.num, c.den), (490, 2916));
    assert!((value(c) - 0.16803840877914955).abs() < 1e-12);
}

#[test]
fn test_entropy() {
    let t = xlogx_table(10);
    assert_eq!(Metrics::Entropy.from_probas(&vec![1], &t).num, 0);
    assert_eq!(Metrics::Entropy.from_probas(&vec![1, 0, 0], &t).num, 0);
    let e = entropy_value(Metrics::Entropy.from_probas(&vec![1, 1], &t));
    assert!((e - 0.69314718055994529).abs() < 1e-5);
    let e = entropy_value(Metrics::Entropy.from_probas(&vec![1, 1, 1], &t));
    assert!((e - 1.0986122886681096).abs() < 1e-5);
    let e = entropy_value(Metrics::Entropy.from_probas(&vec![4, 3, 3], &t));
    assert!((e - 1.0888999753452238).abs() < 1e-5);
}

#[test]
fn test_gini_from_labels() {
    let none: Vec<u64> = vec![];
    assert_eq!(Metrics::Gini.from_labels(&vec![1, 1, 1], &none).num, 0);
    let c = Metrics::Gini.from_labels(&vec![1, 1, 2, 2, 3, 3], &none);
    assert_eq!((c.num, c.den), (24, 36));
    assert!((value(c) - 0.6666666666666667).abs() < 1e-12);
}

#[test]
fn test_entropy_from_labels() {
    let t = xlogx_table(10);
    let e = entropy_value(Metrics::Entropy.from_labels(&vec![1, 2, 3], &t));
    assert!((e - 1.0986122886681096).abs() < 1e-5);
    let e = entropy_value(Metrics::Entropy.from_labels(&vec![1, 1, 2, 2], &t));
    assert!((e - 0.69314718055994529).abs() < 1e-5);
}

#[test]
fn impurity_is_zero_only_for_one_class() {
    let t = xlogx_table(20);
    for counts in [vec![5], vec![0, 7, 0], vec![3, 0]] {
        assert_eq!(Metrics::Gini.from_probas(&counts, &t).num, 0);
        assert_eq!(Metrics::Entropy.from_probas(&counts, &t).num, 0);
    }
    for counts in [vec![1, 1], vec![9, 1], vec![0, 2, 3, 4]] {
        assert!(Metrics::Gini.from_probas(&counts, &t).num > 0);
        assert!(Metrics::Entropy.from_probas(&counts, &t).num > 0);
    }
}

#[test]
fn single_label_scores_zero() {
    let t = xlogx_table(10);
    for m in [Metrics::Gini, Metrics::Entropy] {
        assert_eq!(m.from_labels(&vec![4, 4, 4, 4], &t).num, 0);
        assert_eq!(m.from_labels(&vec![0], &t).num, 0);
    }
}

#[test]
fn weighted_cost_scales_by_count() {
    let none: Vec<u64> = vec![];
    // four labels, Gini 1/2: weighted cost 2
    let c = Metrics::Gini.weighted(&vec![0, 1, 0, 1], &none);
    assert_eq!((c.num, c.den), (8, 4));
    let c = Metrics::Gini.weighted(&vec![], &none);
    assert_eq!(c.num, 0);
}

#[test]
fn zero_counts_add_nothing_to_entropy() {
    let mut t = xlogx_table(10);
    t[0] = 12345;
    assert_eq!(Metrics::Entropy.from_probas(&vec![3, 0, 0], &t).num, 0);
    let with_zeros = Metrics::Entropy.from_probas(&vec![0, 2, 0, 2], &t);
    let without = Metrics::Entropy.from_probas(&vec![2, 2], &t);
    assert_eq!(with_zeros, without);
}

#[test]
fn large_table_entries_are_exact() {
    let big = u64::MAX / 4;
    let t = vec![0, 0, big, big * 2, big * 3];
    // counts [1, 1]: 2 ln 2 - 2 * (1 ln 1) over two labels
    let c = Metrics::Entropy.from_probas(&vec![1, 1], &t);
    assert_eq!((c.num, c.den), (big as i128, 2));
    let w = Metrics::Entropy.weighted(&vec![5, 5, 6], &t);
    assert_eq!((w.num, w.den), (big as i128, 1));
}
