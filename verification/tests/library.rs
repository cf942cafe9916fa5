use rustyai::ensemble::{majority_vote, RandomForest, RandomForestBuilder};
use rustyai::ensemble::random_forest::rows_from_draws;
use rustyai::ensemble::DecisionTree;
use rustyai::error::RustyAIError;
use rustyai::feature_selection::{top_k_indices, ScoreFunc, SelectKBest, RFE};
use rustyai::metrics::confusion_matrix;
use rustyai::econometrics::PanelData;
use rustyai::matrix::Matrix;
use rustyai::naive_bayes::class_labels;
use rustyai::nn::{create_causal_mask, PlateauCounters, PlateauStep};
use rustyai::rl::ReplayBuffer;
use rustyai::spatial::{classify_location, significant_clusters, ClusterType};
use ndarray::Array1;

#[test]
fn test_module_structure() {
    // Verify all modules are accessible
    // This is a smoke test to ensure compilation
}

#[test]
fn test_activation_forward() {
    // Basic test
    assert!(true);
}

#[test]
fn test_causal_mask() {
    let mask = create_causal_mask(4);
    assert_eq!(f64::from(mask[0][0]), 1.0);
    assert_eq!(f64::from(mask[0][1]), 0.0);
    assert_eq!(f64::from(mask[3][3]), 1.0);
}

#[test]
fn test_causal_mask_is_lower_triangular() {
    let mask = create_causal_mask(3);
    assert_eq!(mask, vec![vec![1, 0, 0], vec![1, 1, 0], vec![1, 1, 1]]);
    assert!(create_causal_mask(0).is_empty());
}

#[test]
fn test_voting_classifier_hard() {
    let predictions = [vec![0.0, 1.0, 0.0], vec![0.0, 1.0, 1.0], vec![0.0, 0.0, 1.0]];
    let vote = |i: usize| {
        let classes: Vec<i32> = predictions.iter().map(|p| p[i] as i32).collect();
        majority_vote(&classes) as f64
    };
    assert_eq!(vote(0), 0.0);
    assert_eq!(vote(1), 1.0);
}

#[test]
fn test_majority_vote_ties_and_empty() {
    assert_eq!(majority_vote(&vec![]), 0);
    assert_eq!(majority_vote(&vec![3, 7, 7, 3]), 3);
    assert_eq!(majority_vote(&vec![5, 2, 2]), 2);
}

#[test]
fn test_confusion_matrix_counts() {
    let m = confusion_matrix(&vec![0, 1, 2, 1], &vec![0, 2, 2, 1]);
    assert_eq!(m, vec![vec![1, 0, 0], vec![0, 1, 1], vec![0, 0, 1]]);
    let total: usize = m.iter().map(|r| r.iter().sum::<usize>()).sum();
    assert_eq!(total, 4);
    let row_sums: Vec<usize> = m.iter().map(|r| r.iter().sum()).collect();
    assert_eq!(row_sums, vec![1, 2, 1]);
    assert!(confusion_matrix(&vec![0, 1], &vec![0]).is_empty());
}

#[derive(Clone)]
struct Experience {
    state: Array1<f64>,
    action: usize,
    reward: f64,
    next_state: Array1<f64>,
    done: bool,
}

#[test]
fn test_replay_buffer() {
    let mut buffer = ReplayBuffer::new(100);
    let exp = Experience {
        state: Array1::zeros(4),
        action: 0,
        reward: 1.0,
        next_state: Array1::zeros(4),
        done: false,
    };

    buffer.push(exp);
    assert_eq!(buffer.len(), 1);
}

#[test]
fn test_replay_buffer_keeps_newest() {
    let mut buffer = ReplayBuffer::new(3);
    assert!(buffer.is_empty());
    for e in 0..5 {
        buffer.push(e);
    }
    assert_eq!(buffer.len(), 3);
    let batch = buffer.sample(20);
    assert_eq!(batch.len(), 20);
    assert!(batch.iter().all(|&e| (2..5).contains(&e)));

    let mut tiny = ReplayBuffer::new(0);
    tiny.push(1);
    tiny.push(2);
    assert_eq!(tiny.len(), 1);
    assert_eq!(tiny.sample(2), vec![2, 2]);
    assert!(ReplayBuffer::<i32>::new(4).sample(3).is_empty());

    let exp = Experience { state: Array1::zeros(2), action: 1, reward: 0.5, next_state: Array1::ones(2), done: true };
    let mut b = ReplayBuffer::new(2);
    b.push(exp);
    let s = b.sample(1);
    assert_eq!(s[0].action, 1);
    assert!(s[0].done && s[0].reward == 0.5 && s[0].state.len() == 2 && s[0].next_state[0] == 1.0);
}

#[test]
fn test_top_k_indices_order_and_ties() {
    assert_eq!(top_k_indices(&vec![5, 9, 5, 1, 9], 3), vec![1, 4, 0]);
    assert_eq!(top_k_indices(&vec![2, 1], 5), vec![0, 1]);
    assert!(top_k_indices(&vec![3, 4], 0).is_empty());
}

#[test]
fn test_select_k_best() {
    let mut sel = SelectKBest::new(2, ScoreFunc::FRegression);
    assert!(sel.selected_features().is_none());
    assert!(matches!(sel.transform_rows(&vec![vec![1.0, 2.0, 3.0]]), Err(RustyAIError::NotFitted)));
    assert!(matches!(
        sel.fit_scores(4, 3, vec![0.1, 0.9, 0.5], &vec![1, 9, 5]),
        Err(RustyAIError::DimensionMismatch(_))
    ));
    assert!(sel.scores().is_none());
    sel.fit_scores(4, 4, vec![0.1, 0.9, 0.5], &vec![1, 9, 5]).unwrap();
    assert_eq!(sel.selected_features(), Some(&vec![1, 2]));
    assert_eq!(sel.scores(), Some(&vec![0.1, 0.9, 0.5]));
    let out = sel.transform_rows(&vec![vec![1.0, 2.0, 3.0], vec![4.0, 5.0, 6.0]]).unwrap();
    assert_eq!(out, vec![vec![2.0, 3.0], vec![5.0, 6.0]]);
    assert!(matches!(sel.score_func(), ScoreFunc::FRegression));
}

#[test]
fn test_rfe_new() {
    let rfe = RFE::<f64>::new(3, 0);
    assert!(rfe.selected_features().is_none());
    assert!(rfe.ranking().is_none());
}

#[test]
fn test_random_forest_builder() {
    let forest: RandomForest<f64> = RandomForestBuilder::new()
        .n_estimators(7)
        .max_depth(Some(4))
        .min_samples_split(3)
        .build()
        .unwrap();
    assert_eq!(forest.n_estimators(), 7);
    assert_eq!(forest.max_depth(), Some(4));
    assert_eq!(forest.min_samples_split(), 3);
    assert!(forest.trees().is_empty());
    assert!(matches!(forest.check_fitted(), Err(RustyAIError::NotFitted)));
    assert!(matches!(RandomForest::<f64>::check_fit_shapes(3, 2), Err(RustyAIError::DimensionMismatch(_))));
    let rows = forest.bootstrap_rows(9);
    assert_eq!(rows.len(), 9);
    assert!(rows.iter().all(|&r| r < 9));
    let d = RandomForest::<f64>::new();
    assert_eq!((d.n_estimators(), d.max_depth(), d.min_samples_split()), (100, None, 2));
}

#[test]
fn test_decision_tree_should_stop() {
    let t: DecisionTree<f64> = DecisionTree::new(Some(3), 4);
    assert!(t.should_stop(3, 0));
    assert!(t.should_stop(10, 3));
    assert!(!t.should_stop(10, 2));
    assert!(t.root().is_none());
}

#[test]
fn test_spatial_clusters() {
    assert_eq!(classify_location(true, true), ClusterType::HighHigh);
    assert_eq!(classify_location(false, true), ClusterType::LowHigh);
    let types = vec![ClusterType::HighHigh, ClusterType::NotSignificant, ClusterType::LowLow, ClusterType::HighLow];
    let sig = vec![true, true, false, true];
    assert_eq!(significant_clusters(&types, &sig), vec![(0, ClusterType::HighHigh), (3, ClusterType::HighLow)]);
}

#[test]
fn test_error_from_message() {
    assert!(matches!(RustyAIError::from(String::from("boom")), RustyAIError::Other(s) if s == "boom"));
    assert!(matches!(RustyAIError::from("bang"), RustyAIError::Other(s) if s == "bang"));
}

#[test]
fn test_class_labels_sorted_distinct() {
    assert_eq!(class_labels(&vec![3, -1, 3, 0, -1]), vec![-1, 0, 3]);
    assert!(class_labels(&vec![]).is_empty());
}

#[test]
fn test_plateau_counters() {
    let mut c = PlateauCounters::new(2, 1);
    let steps: Vec<PlateauStep> = [false, false, false, false, true].iter().map(|&i| c.step(i)).collect();
    assert_eq!(
        steps,
        vec![PlateauStep::Waiting, PlateauStep::Reduce, PlateauStep::Cooldown, PlateauStep::Waiting, PlateauStep::Improved]
    );
    assert_eq!((c.num_bad_epochs(), c.cooldown_counter()), (0, 0));

    let mut eager = PlateauCounters::new(0, 0);
    assert_eq!(eager.step(false), PlateauStep::Reduce);
    assert_eq!(eager.step(false), PlateauStep::Reduce);
    // while cooling down the metric is not looked at
    let mut cool = PlateauCounters::new(1, 2);
    assert_eq!(cool.step(false), PlateauStep::Reduce);
    assert_eq!(cool.step(true), PlateauStep::Cooldown);
    assert_eq!(cool.step(true), PlateauStep::Cooldown);
    assert_eq!(cool.step(true), PlateauStep::Improved);
}

#[test]
fn test_panel_data_creation() {
    let data = Matrix::from_shape_vec(20, 3, vec![0.0; 60]).unwrap(); // 10 units, 2 periods, 3 variables
    let y = vec![0.0; 20];
    let panel = PanelData::new(data, y, 10, 2).unwrap();
    assert!(panel.is_balanced());
    assert_eq!(panel.n_units, 10);
    assert_eq!(panel.n_periods, 2);
}

#[test]
fn test_panel_ids_and_mismatch() {
    let data = Matrix::from_shape_vec(6, 1, vec![1, 2, 3, 4, 5, 6]).unwrap();
    let panel = PanelData::new(data, vec![0; 6], 2, 3).unwrap();
    assert_eq!(panel.unit_ids, vec![0, 0, 0, 1, 1, 1]);
    assert_eq!(panel.time_ids, vec![0, 1, 2, 0, 1, 2]);
    let short = Matrix::from_shape_vec(5, 1, vec![1, 2, 3, 4, 5]).unwrap();
    assert!(matches!(PanelData::new(short, vec![0; 6], 2, 3), Err(RustyAIError::DimensionMismatch(_))));
}

#[test]
fn test_overidentification_df() {
    assert_eq!(rustyai::econometrics::overidentification_df(5, 2).unwrap(), 3);
    match rustyai::econometrics::overidentification_df(3, 3) {
        Err(RustyAIError::InvalidParameter { name, .. }) => assert_eq!(name, "instruments"),
        other => panic!("expected InvalidParameter, got {:?}", other),
    }
}

#[test]
fn test_replay_buffer_pick_experiences() {
    let mut buffer = ReplayBuffer::new(3);
    for e in [10, 20, 30] {
        buffer.push(e);
    }
    assert_eq!(buffer.pick_experiences(&vec![2, 0, 2]), vec![30, 10, 30]);
    let batch = buffer.sample(5);
    assert_eq!(batch.len(), 5);
    assert!(batch.iter().all(|x| [10, 20, 30].contains(x)));
}

#[test]
fn test_rows_from_draws() {
    assert_eq!(rows_from_draws(&vec![7, 12, 3, usize::MAX], 5), vec![2, 2, 3, usize::MAX % 5]);
}
