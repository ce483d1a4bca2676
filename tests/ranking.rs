use wasm_geo::{cross_pairs, point_count, select_best};

fn brute_force(keys: &[u64], top_n: usize) -> Vec<usize> {
    let mut all: Vec<(u64, usize)> = keys.iter().copied().zip(0..keys.len()).collect();
    all.sort();
    all.into_iter().take(top_n).map(|(_, p)| p).collect()
}

fn scattered_keys(len: usize, seed: u64) -> Vec<u64> {
    let mut x = seed;
    let mut keys = Vec::new();
    for _ in 0..len {
        x = x.wrapping_mul(6364136223846793005).wrapping_add(1442695040888963407);
        keys.push((x >> 33) % 50);
    }
    keys
}

#[test]
fn best_three_in_ranking_order() {
    let keys = vec![5, 3, 3, 9, 1];
    assert_eq!(select_best(&keys, 3), vec![4, 1, 2]);
}

#[test]
fn equal_keys_rank_by_position() {
    let keys = vec![7, 7, 7, 7];
    assert_eq!(select_best(&keys, 2), vec![0, 1]);
    assert_eq!(select_best(&keys, 4), vec![0, 1, 2, 3]);
}

#[test]
fn zero_requested_gives_nothing() {
    let keys = vec![4, 2, 8];
    assert!(select_best(&keys, 0).is_empty());
}

#[test]
fn no_keys_gives_nothing() {
    let keys: Vec<u64> = Vec::new();
    assert!(select_best(&keys, 0).is_empty());
    assert!(select_best(&keys, 10).is_empty());
}

#[test]
fn asking_for_more_than_there_is_sorts_everything() {
    let keys = vec![30, 10, 20];
    assert_eq!(select_best(&keys, 10), vec![1, 2, 0]);
}

#[test]
fn extreme_keys_are_ordered() {
    let keys = vec![u64::MAX, 0, u64::MAX, 1];
    assert_eq!(select_best(&keys, 3), vec![1, 3, 0]);
}

#[test]
fn selection_matches_a_full_sort() {
    for seed in 0..20u64 {
        let keys = scattered_keys(60, seed);
        for top_n in [0, 1, 2, 5, 17, 59, 60, 61, 200] {
            let got = select_best(&keys, top_n);
            assert_eq!(got.len(), top_n.min(keys.len()));
            assert_eq!(got, brute_force(&keys, top_n));
        }
    }
}

#[test]
fn selected_keys_never_decrease() {
    let keys = scattered_keys(300, 99);
    let got = select_best(&keys, 40);
    assert_eq!(got.len(), 40);
    for w in got.windows(2) {
        assert!(keys[w[0]] <= keys[w[1]]);
    }
}

#[test]
fn one_pair_on_the_equator_is_the_only_choice() {
    // A = [(0, 0)], B = [(0, 90)], target (0, 45): the single midpoint lies on
    // the target, so its score is zero kilometres.
    let a = [0.0f64, 0.0];
    let b = [0.0f64, 90.0];
    let pairs = cross_pairs(point_count(a.len()), point_count(b.len()));
    assert_eq!(pairs, vec![(0, 0)]);
    let keys = vec![0.0f64.to_bits()];
    assert_eq!(select_best(&keys, 5), vec![0]);
}

#[test]
fn scores_as_keys_keep_their_order() {
    let scores = [12.5f64, 0.25, 3000.0, 0.0, 12.5];
    let keys: Vec<u64> = scores.iter().map(|s| s.to_bits()).collect();
    assert_eq!(select_best(&keys, 4), vec![3, 1, 0, 4]);
}
