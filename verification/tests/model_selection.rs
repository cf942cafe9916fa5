use rustyai::model_selection::KFold;
use rustyai::model_selection::bootstrap::{
    out_of_bag, push_block, stratified_picks, BalancedBootstrap, BlockBootstrap, Bootstrap, Jackknife,
    PermutationTest, StratifiedBootstrap,
};

fn sorted(v: &[usize]) -> Vec<usize> {
    let mut s = v.to_vec();
    s.sort();
    s
}

#[test]
fn test_bootstrap() {
    let bootstrap = Bootstrap::new(10);
    let samples = bootstrap.generate_indices(100);
    assert_eq!(samples.len(), 10);
    assert_eq!(samples[0].len(), 100);
}

#[test]
fn test_stratified_bootstrap() {
    let labels = vec![0, 0, 0, 1, 1, 1, 2, 2, 2, 2];
    let bootstrap = StratifiedBootstrap::new(5);
    let samples = bootstrap.generate_indices(&labels);

    assert_eq!(samples.len(), 5);
    assert_eq!(samples[0].len(), 10);
}

#[test]
fn test_block_bootstrap() {
    let bootstrap = BlockBootstrap::new(5, 10);
    let samples = bootstrap.generate_indices(100);
    assert_eq!(samples.len(), 5);
    assert_eq!(samples[0].len(), 100);
}

#[test]
fn test_jackknife() {
    let jackknife = Jackknife::new();
    let samples = jackknife.generate_indices(10);
    assert_eq!(samples.len(), 10);
    assert_eq!(samples[0].len(), 9);
}

#[test]
fn test_bootstrap_indices_in_range() {
    let samples = Bootstrap::new(20).with_sample_size(7).generate_indices(5);
    assert_eq!(samples.len(), 20);
    for s in &samples {
        assert_eq!(s.len(), 7);
        assert!(s.iter().all(|&i| i < 5));
    }
}

#[test]
fn test_bootstrap_without_replacement_draws_distinct() {
    let samples = Bootstrap::new(10).with_replacement(false).generate_indices(8);
    for s in &samples {
        assert_eq!(sorted(s), (0..8).collect::<Vec<usize>>());
    }
    let part = Bootstrap::new(10).with_replacement(false).with_sample_size(3).generate_indices(8);
    for s in &part {
        let mut d = sorted(s);
        d.dedup();
        assert_eq!(d.len(), 3);
        assert!(s.iter().all(|&i| i < 8));
    }
}

#[test]
fn test_out_of_bag_is_complement() {
    assert_eq!(out_of_bag(&vec![0, 2, 2, 5], 7), vec![1, 3, 4, 6]);
    assert_eq!(out_of_bag(&vec![], 3), vec![0, 1, 2]);
    assert_eq!(out_of_bag(&vec![2, 1, 0], 3), Vec::<usize>::new());
}

#[test]
fn test_oob_indices_avoid_the_draw() {
    let bootstrap = Bootstrap::new(6);
    let oob = bootstrap.get_oob_indices(12);
    assert_eq!(oob.len(), 6);
    for o in &oob {
        assert!(o.windows(2).all(|w| w[0] < w[1]));
        assert!(o.iter().all(|&i| i < 12));
    }
}

#[test]
fn test_stratified_bootstrap_keeps_class_counts() {
    let labels = vec![0, 0, 0, 1, 1, 1, 2, 2, 2, 2];
    let samples = StratifiedBootstrap::new(8).generate_indices(&labels);
    for s in &samples {
        let mut drawn: Vec<usize> = s.iter().map(|&i| labels[i]).collect();
        drawn.sort();
        assert_eq!(drawn, vec![0, 0, 0, 1, 1, 1, 2, 2, 2, 2]);
    }
}

#[test]
fn test_block_bootstrap_is_made_of_runs() {
    let samples = BlockBootstrap::new(4, 3).generate_indices(10);
    for s in &samples {
        assert_eq!(s.len(), 10);
        for k in 1..s.len() {
            if k % 3 != 0 {
                assert_eq!(s[k], s[k - 1] + 1);
            }
        }
        assert!(s.iter().all(|&i| i < 10));
    }
}

#[test]
fn test_jackknife_leaves_one_out() {
    let jackknife = Jackknife::new();
    let samples = jackknife.generate_indices(4);
    assert_eq!(samples, vec![vec![1, 2, 3], vec![0, 2, 3], vec![0, 1, 3], vec![0, 1, 2]]);
    assert_eq!(jackknife.get_test_indices(4), vec![0, 1, 2, 3]);
    assert!(jackknife.generate_indices(0).is_empty());
}

#[test]
fn test_balanced_bootstrap_each_index_once() {
    let samples = BalancedBootstrap::new(3).generate_indices(6);
    assert_eq!(samples.len(), 3);
    for s in &samples {
        let mut sorted = s.clone();
        sorted.sort();
        assert_eq!(sorted, vec![0, 1, 2, 3, 4, 5]);
    }
}

#[test]
fn test_permutation_test_settings() {
    assert_eq!(PermutationTest::new(250).n_permutations(), 250);
}

#[test]
fn test_kfold_folds() {
    let splits = KFold::new(3).split(10);
    assert_eq!(splits.len(), 3);
    assert_eq!(splits[0].1, vec![0, 1, 2]);
    assert_eq!(splits[1].1, vec![3, 4, 5]);
    assert_eq!(splits[2].1, vec![6, 7, 8, 9]);
    assert_eq!(splits[0].0, vec![3, 4, 5, 6, 7, 8, 9]);
    assert_eq!(splits[2].0, vec![0, 1, 2, 3, 4, 5]);
}

#[test]
fn test_kfold_partition_every_index_tested_once() {
    let n = 17;
    let splits = KFold::new(5).split(n);
    let mut seen = vec![0usize; n];
    for (train, test) in &splits {
        for &i in test {
            seen[i] += 1;
        }
        let mut all: Vec<usize> = train.iter().chain(test.iter()).copied().collect();
        all.sort();
        assert_eq!(all, (0..n).collect::<Vec<usize>>());
    }
    assert!(seen.iter().all(|&c| c == 1));
}

#[test]
fn test_zero_iterations_draw_nothing() {
    // without iterations nothing is drawn, whatever the data size
    assert!(Bootstrap::new(0).with_sample_size(3).generate_indices(0).is_empty());
    assert!(Bootstrap::new(0).with_replacement(false).with_sample_size(9).get_oob_indices(2).is_empty());
    assert!(BlockBootstrap::new(0, 7).generate_indices(3).is_empty());
}

#[test]
fn test_push_block() {
    let mut s = vec![];
    push_block(&mut s, 2, 3, 7);
    assert_eq!(s, vec![2, 3, 4]);
    push_block(&mut s, 4, 3, 7);
    assert_eq!(s, vec![2, 3, 4, 4, 5, 6]);
    // the last block is cut at n items
    push_block(&mut s, 0, 3, 7);
    assert_eq!(s, vec![2, 3, 4, 4, 5, 6, 0]);
}

#[test]
fn test_block_bootstrap_blocks_fit() {
    let samples = BlockBootstrap::new(20, 3).generate_indices(10);
    for s in &samples {
        assert_eq!(s.len(), 10);
        for (p, &x) in s.iter().enumerate() {
            let start = s[p - p % 3];
            assert!(start + 3 <= 10);
            assert_eq!(x, start + p % 3);
        }
    }
}

#[test]
fn test_stratified_picks() {
    let labels = vec![1, 0, 1, 0, 1];
    // class 1 holds 0, 2, 4; class 0 holds 1, 3
    assert_eq!(stratified_picks(&labels, &vec![2, 0, 0, 1, 1]), vec![4, 1, 0, 3, 2]);
}
