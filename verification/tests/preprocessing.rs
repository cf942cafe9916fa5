use std::collections::HashMap;
use rustyai::error::RustyAIError;
use rustyai::matrix::Matrix;
use rustyai::preprocessing::encoding::OneHotEncoder;
use rustyai::preprocessing::sampling::{
    class_extremes, class_indices, distinct_labels, reservoir_step, ImportanceSampling, ReservoirSampling, SamplingStrategy,
    StratifiedSampling, SMOTE,
};
use rustyai::preprocessing::{NormType, Normalizer};

#[test]
fn test_smote() {
    let x: Vec<Vec<f64>> = vec![
        vec![1.0, 1.0],
        vec![1.1, 1.0],
        vec![1.0, 1.1],
        vec![5.0, 5.0],
        vec![5.1, 5.0],
        vec![5.0, 5.1],
    ];
    let y = vec![0, 0, 0, 1, 1, 1];

    let smote = SMOTE::new(2);
    let plan = smote.synthetic_counts(&y);
    let added: usize = plan.iter().map(|&(_, n)| n).sum();
    let n_res = x.len() + added;
    let y_res = y.len() + added;

    assert_eq!(n_res, y_res);
    assert!(n_res >= x.len());
}

#[test]
fn test_smote_plan_auto_and_sizes() {
    let y = vec![0, 0, 0, 0, 1, 2, 2];
    let mut plan = SMOTE::new(3).synthetic_counts(&y);
    plan.sort();
    assert_eq!(plan, vec![(1, 3), (2, 2)]);

    let mut plan = SMOTE::new(3).with_strategy(SamplingStrategy::AllToSize(5)).synthetic_counts(&y);
    plan.sort();
    assert_eq!(plan, vec![(0, 1), (1, 4), (2, 3)]);

    let mut targets = HashMap::new();
    targets.insert(1, 2);
    targets.insert(2, 1);
    targets.insert(7, 4);
    let mut plan = SMOTE::new(3)
        .with_strategy(SamplingStrategy::Custom(targets))
        .synthetic_counts(&y);
    plan.sort();
    assert_eq!(plan, vec![(1, 1), (7, 4)]);
    assert_eq!(SMOTE::new(3).k_neighbors(), 3);
}

#[test]
fn test_reservoir_sampling() {
    let x: Vec<Vec<f64>> = (0..100).map(|r| (0..5).map(|c| (r * 5 + c) as f64).collect()).collect();
    let sampler = ReservoirSampling::new(20);
    let sampled = sampler.sample(x);

    assert_eq!(sampled.len(), 20);
    assert_eq!(sampled[0].len(), 5);
}

#[test]
fn test_reservoir_indices_distinct_and_short_streams() {
    let sampler = ReservoirSampling::new(4);
    let idx = sampler.sample_indices(50);
    assert_eq!(idx.len(), 4);
    let mut d = idx.clone();
    d.sort();
    d.dedup();
    assert_eq!(d.len(), 4);
    assert!(idx.iter().enumerate().all(|(t, &i)| i < 50 && (i == t || i >= 4)));
    assert_eq!(sampler.sample_indices(3), vec![0, 1, 2]);
    assert_eq!(sampler.sample(vec!['a', 'b']), vec!['a', 'b']);
}

#[test]
fn test_class_indices_and_distinct_labels() {
    let y = vec![2, 0, 2, 1, 2];
    assert_eq!(class_indices(&y, 2), vec![0, 2, 4]);
    assert_eq!(class_indices(&y, 5), Vec::<usize>::new());
    let mut classes = distinct_labels(&y);
    classes.sort();
    assert_eq!(classes, vec![0, 1, 2]);
}

#[test]
fn test_stratified_sampling_quota() {
    // 6 of class 0, 3 of class 1, 1 of class 2; a sample of 5
    let y = vec![0, 0, 0, 0, 0, 0, 1, 1, 1, 2];
    let sel = StratifiedSampling::new(5).sample_indices(&y);
    let count = |c: usize| sel.iter().filter(|&&i| y[i] == c).count();
    assert_eq!(count(0), 3); // round(5 * 6 / 10) = 3
    assert_eq!(count(1), 2); // round(1.5) = 2
    assert_eq!(count(2), 1); // round(0.5) = 1, and at least 1
    let mut d = sel.clone();
    d.sort();
    d.dedup();
    assert_eq!(d.len(), sel.len());
}

#[test]
fn test_importance_sampling_settings() {
    assert_eq!(ImportanceSampling::new(12).n_samples(), 12);
}

#[test]
fn test_one_hot_encoder() {
    let x = Matrix::from_shape_vec(3, 2, vec![3, 10, 1, 10, 3, 20]).unwrap();
    let (enc, out) = OneHotEncoder::new().fit_transform(&x).unwrap();
    assert_eq!(enc.categories().unwrap(), &vec![vec![1, 3], vec![10, 20]]);
    assert_eq!(out, vec![vec![0, 1, 1, 0], vec![1, 0, 1, 0], vec![0, 1, 0, 1]]);
}

#[test]
fn test_one_hot_unknown_value_is_all_zero() {
    let train = Matrix::from_shape_vec(2, 1, vec![4, 5]).unwrap();
    let enc = OneHotEncoder::new().fit(&train).unwrap();
    let test = Matrix::from_shape_vec(2, 1, vec![5, 9]).unwrap();
    assert_eq!(enc.transform(&test).unwrap(), vec![vec![0, 1], vec![0, 0]]);
}

#[test]
fn test_one_hot_not_fitted() {
    let x = Matrix::from_shape_vec(1, 1, vec![0]).unwrap();
    assert!(matches!(OneHotEncoder::new().transform(&x), Err(RustyAIError::NotFitted)));
}

#[test]
fn test_matrix_shape_error() {
    assert!(matches!(Matrix::from_shape_vec(2, 2, vec![1, 2, 3]), Err(RustyAIError::InvalidShape { .. })));
    let m = Matrix::from_shape_vec(2, 3, vec![1, 2, 3, 4, 5, 6]).unwrap();
    assert_eq!((m.nrows(), m.ncols()), (2, 3));
    assert_eq!(*m.get(1, 0), 4);
}

#[test]
fn test_normalizer_norm() {
    assert!(matches!(Normalizer::<f64>::new().norm(), NormType::L2));
    assert!(matches!(Normalizer::<f64>::new().with_norm(NormType::Max).norm(), NormType::Max));
}

#[test]
fn test_class_extremes() {
    assert_eq!(class_extremes(&vec![]), None);
    assert_eq!(class_extremes(&vec![4, 1, 4, 2, 4, 1]), Some(((2, 1), (4, 3))));
    // among equally frequent classes, the scan keeps the first it meets
    assert_eq!(class_extremes(&vec![7, 3, 3, 7]), Some(((7, 2), (7, 2))));
}

#[test]
fn test_smote_strategy_getter() {
    let s = SMOTE::new(1).with_strategy(SamplingStrategy::AllToSize(9));
    assert!(matches!(s.strategy(), SamplingStrategy::AllToSize(9)));
}

#[test]
fn test_distinct_labels_first_appearance() {
    assert_eq!(distinct_labels(&vec![2, 0, 2, 1, 2, 0]), vec![2, 0, 1]);
}

#[test]
fn test_reservoir_step() {
    // fill phase: appended
    let mut r = vec![0usize, 1];
    reservoir_step(&mut r, 2, 2, 0, 3);
    assert_eq!(r, vec![0, 1, 2]);
    // replacement phase: slot j takes the item when j < k
    reservoir_step(&mut r, 7, 7, 1, 3);
    assert_eq!(r, vec![0, 7, 2]);
    // a draw at or beyond k drops the item
    reservoir_step(&mut r, 8, 8, 5, 3);
    assert_eq!(r, vec![0, 7, 2]);
}

#[test]
fn test_reservoir_sample_indices_distinct() {
    let idx = ReservoirSampling::new(4).sample_indices(50);
    assert_eq!(idx.len(), 4);
    let mut s = idx.clone();
    s.sort();
    s.dedup();
    assert_eq!(s.len(), 4);
    assert!(idx.iter().all(|&i| i < 50));
    assert_eq!(ReservoirSampling::new(10).sample_indices(3), vec![0, 1, 2]);
}
