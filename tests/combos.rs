use wasm_geo::{cross_pairs, get_combination_count, pair_at, point_count};

#[test]
fn count_of_three_by_four_is_twelve() {
    assert_eq!(get_combination_count(3, 4), 12);
}

#[test]
fn count_is_the_product() {
    assert_eq!(get_combination_count(1, 1), 1);
    assert_eq!(get_combination_count(250, 4000), 1_000_000);
    assert_eq!(get_combination_count(4000, 250), 1_000_000);
}

#[test]
fn count_with_an_empty_set_is_zero() {
    assert_eq!(get_combination_count(0, 5), 0);
    assert_eq!(get_combination_count(5, 0), 0);
    assert_eq!(get_combination_count(0, 0), 0);
}

#[test]
fn count_saturates_instead_of_wrapping() {
    assert_eq!(get_combination_count(usize::MAX, 2), usize::MAX);
    assert_eq!(get_combination_count(usize::MAX / 2 + 1, 2), usize::MAX);
    assert_eq!(get_combination_count(usize::MAX, 1), usize::MAX);
}

#[test]
fn point_count_halves_and_drops_an_unpaired_number() {
    assert_eq!(point_count(0), 0);
    assert_eq!(point_count(6), 3);
    assert_eq!(point_count(7), 3);
    assert_eq!(point_count(1), 0);
}

#[test]
fn pair_at_splits_a_position() {
    assert_eq!(pair_at(0, 4), (0, 0));
    assert_eq!(pair_at(3, 4), (0, 3));
    assert_eq!(pair_at(7, 4), (1, 3));
    assert_eq!(pair_at(11, 4), (2, 3));
}

#[test]
fn cross_pairs_of_three_by_four_are_a_major() {
    let pairs = cross_pairs(3, 4);
    assert_eq!(pairs.len(), 12);
    // two numbers (latitude, longitude) per pair in a flat midpoint buffer
    assert_eq!(2 * pairs.len(), 24);
    for k in 0..12 {
        assert_eq!(pairs[k], (k / 4, k % 4));
    }
    for i in 0..3 {
        for j in 0..4 {
            assert_eq!(pairs[i * 4 + j], (i, j));
        }
    }
}

#[test]
fn cross_pairs_with_an_empty_set_are_empty() {
    assert!(cross_pairs(0, 4).is_empty());
    assert!(cross_pairs(3, 0).is_empty());
    assert!(cross_pairs(0, 0).is_empty());
}

#[test]
fn cross_pairs_of_single_points() {
    assert_eq!(cross_pairs(1, 1), vec![(0, 0)]);
}
