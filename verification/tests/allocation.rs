use rand::SeedableRng;
use rand_chacha::ChaCha8Rng;
use scratchgen::allocation::{allocate_constrained, allocate_counts, expand_counts, AllocError};

const NO_MAX: i32 = i32::MAX;

#[test]
fn leftover_slot_goes_to_first_in_order() {
    let counts = allocate_counts(&vec![1, 1, 1], &vec![0, 1, 2], &vec![0, 0, 0], &vec![NO_MAX; 3], 4);
    assert_eq!(counts, Ok(vec![2, 1, 1]));
}

#[test]
fn leftover_slots_follow_remainder_order() {
    let counts = allocate_counts(&vec![0, 0, 0], &vec![2, 0, 1], &vec![0, 0, 0], &vec![NO_MAX; 3], 2);
    assert_eq!(counts, Ok(vec![1, 0, 1]));
}

#[test]
fn leftover_slots_wrap_around_order() {
    // more leftover slots than images: the order is used again from the start
    let counts = allocate_counts(&vec![0, 0], &vec![1, 0], &vec![0, 0], &vec![NO_MAX; 2], 5);
    assert_eq!(counts, Ok(vec![2, 3]));
}

#[test]
fn minimum_takes_from_images_above_their_minimum() {
    let counts = allocate_counts(&vec![4, 0], &vec![0, 1], &vec![0, 2], &vec![NO_MAX; 2], 4);
    assert_eq!(counts, Ok(vec![2, 2]));
}

#[test]
fn minimum_takes_in_index_order() {
    let counts = allocate_counts(&vec![0, 3, 3], &vec![0, 1, 2], &vec![4, 0, 0], &vec![NO_MAX; 3], 6);
    assert_eq!(counts, Ok(vec![4, 0, 2]));
}

#[test]
fn maximum_gives_to_images_below_their_maximum() {
    let counts = allocate_counts(&vec![4, 0], &vec![0, 1], &vec![0, 0], &vec![1, NO_MAX], 4);
    assert_eq!(counts, Ok(vec![1, 3]));
}

#[test]
fn maximum_gives_only_up_to_other_maximums() {
    let counts = allocate_counts(&vec![6, 0, 0], &vec![0, 1, 2], &vec![0, 0, 0], &vec![2, 1, 10], 6);
    assert_eq!(counts, Ok(vec![2, 1, 3]));
}

#[test]
fn infeasible_minimums_are_refused() {
    let counts = allocate_counts(&vec![2, 2], &vec![0, 1], &vec![3, 3], &vec![NO_MAX; 2], 4);
    assert_eq!(counts, Err(AllocError::ShortOfMinimum));
}

#[test]
fn infeasible_maximums_are_refused() {
    let counts = allocate_counts(&vec![2, 2], &vec![0, 1], &vec![0, 0], &vec![1, 1], 4);
    assert_eq!(counts, Err(AllocError::ExcessOverMaximum));
}

#[test]
fn extreme_bounds_overflow() {
    let counts = allocate_counts(&vec![2, 2], &vec![0, 1], &vec![i32::MAX, i32::MIN], &vec![NO_MAX; 2], 4);
    assert_eq!(counts, Err(AllocError::Overflow));
}

#[test]
fn feasible_bounds_are_respected_and_sum_to_total() {
    let base = vec![5, 3, 1, 0];
    let mins = vec![0, 2, 2, 3];
    let maxs = vec![2, 4, 5, 9];
    let counts = allocate_counts(&base, &vec![3, 2, 1, 0], &mins, &maxs, 9).unwrap();
    assert_eq!(counts.iter().sum::<i32>(), 9);
    for k in 0..4 {
        assert!(mins[k] <= counts[k] && counts[k] <= maxs[k]);
    }
}

#[test]
fn contradictory_bounds_are_refused() {
    // minimum above maximum: no counts can respect both
    let counts = allocate_counts(&vec![2, 2], &vec![0, 1], &vec![3, 0], &vec![1, NO_MAX], 4);
    assert_eq!(counts, Err(AllocError::BoundsUnmet));
}

#[test]
fn minimum_above_maximum_is_refused_not_broken() {
    let counts = allocate_counts(&vec![2, 2], &vec![0, 1], &vec![2, 0], &vec![1, NO_MAX], 4);
    assert_eq!(counts, Err(AllocError::BoundsUnmet));
}

#[test]
fn expand_lists_each_image_by_its_count() {
    assert_eq!(expand_counts(&vec![2, 0, 1, -3, 1]), vec![0, 0, 2, 4]);
}

#[test]
fn constrained_tiles_hold_each_image_by_its_count() {
    let mut rng = ChaCha8Rng::seed_from_u64(42);
    let mut tiles = allocate_constrained(&vec![1, 1, 1], &vec![0, 1, 2], &vec![0, 0, 0], &vec![NO_MAX; 3], 4, &mut rng).unwrap();
    assert_eq!(tiles.len(), 4);
    tiles.sort();
    assert_eq!(tiles, vec![0, 0, 1, 2]);
}

#[test]
fn constrained_tiles_are_shuffled_deterministically() {
    let base = vec![1; 12];
    let order: Vec<usize> = (0..12).collect();
    let mins = vec![0; 12];
    let maxs = vec![NO_MAX; 12];
    let mut rng1 = ChaCha8Rng::seed_from_u64(7);
    let mut rng2 = ChaCha8Rng::seed_from_u64(7);
    let t1 = allocate_constrained(&base, &order, &mins, &maxs, 12, &mut rng1).unwrap();
    let t2 = allocate_constrained(&base, &order, &mins, &maxs, 12, &mut rng2).unwrap();
    assert_eq!(t1, t2);
    assert_ne!(t1, order);
    let mut sorted = t1.clone();
    sorted.sort();
    assert_eq!(sorted, order);
}

#[test]
fn constrained_refusal_passes_through() {
    let mut rng = ChaCha8Rng::seed_from_u64(1);
    let res = allocate_constrained(&vec![2, 2], &vec![0, 1], &vec![3, 3], &vec![NO_MAX; 2], 4, &mut rng);
    assert_eq!(res, Err(AllocError::ShortOfMinimum));
}
