use felidae_classifier::training::shuffle::{fisher_yates, randomly_ordered_indices, shuffled_indices};

#[test]
fn test_length_preserved() {
    let order = shuffled_indices(100, 42);
    assert_eq!(order.len(), 100);
}

#[test]
fn test_contains_all_indices() {
    let order = shuffled_indices(50, 42);
    let mut seen = vec![false; 50];
    for &i in &order {
        assert!(i < 50);
        assert!(!seen[i], "index {} appeared twice", i);
        seen[i] = true;
    }
    for s in seen {
        assert!(s);
    }
}

#[test]
fn test_same_seed_same_order() {
    let a = shuffled_indices(100, 42);
    let b = shuffled_indices(100, 42);
    assert_eq!(a, b);
}

#[test]
fn test_different_seeds_differ() {
    let a = shuffled_indices(100, 42);
    let b = shuffled_indices(100, 7);
    assert_ne!(a, b);
}

#[test]
fn test_empty_and_single() {
    let empty = shuffled_indices(0, 42);
    assert_eq!(empty.len(), 0);

    let single = shuffled_indices(1, 42);
    assert_eq!(single, vec![0]);
}

#[test]
fn shuffle_actually_reorders() {
    let order = shuffled_indices(20, 3);
    let identity: Vec<usize> = (0..20).collect();
    assert_ne!(order, identity);
}

#[test]
fn fisher_yates_applies_draws_from_the_last_position() {
    // positions 2 then 1: swap(2, 0) gives [2, 1, 0], swap(1, 0) gives [1, 2, 0]
    assert_eq!(fisher_yates(3, &vec![0, 0]), vec![1, 2, 0]);
    // drawing each position itself leaves the order unchanged
    assert_eq!(fisher_yates(4, &vec![3, 2, 1]), vec![0, 1, 2, 3]);
    assert_eq!(fisher_yates(4, &vec![0, 0, 0]), vec![1, 2, 3, 0]);
    assert_eq!(fisher_yates(0, &vec![]), Vec::<usize>::new());
    assert_eq!(fisher_yates(1, &vec![]), vec![0]);
}

#[test]
fn random_order_is_a_permutation() {
    let mut order = randomly_ordered_indices(40);
    order.sort();
    assert_eq!(order, (0..40).collect::<Vec<usize>>());
    assert!(randomly_ordered_indices(0).is_empty());
}
