use std::cell::Cell;

use reduce::fold_range;
use reduce::parallel_foldl;
use reduce::parallel_foldl_with;
use reduce::reduce_partials;

#[test]
fn sum_of_one_hundred_ones() {
    let ones = vec![1; 100];
    let sum = parallel_foldl(&ones, 0, |acc, x| acc + x, |a, b| a + b);
    assert_eq!(sum, 100);
}

#[test]
fn parallel_matches_sequential_fold() {
    let x: Vec<u32> = (0..100).collect();
    let a = 2;
    let b = 8;

    let ser_sum_ax_b: u32 = x.iter().map(|x| (a * x) + b).sum();

    let par_sum_ax_b = parallel_foldl(&x, 0, |f, g| f + (a * g) + b, |f, g| f + g);

    assert_eq!(ser_sum_ax_b, par_sum_ax_b);
}

#[test]
fn explicit_worker_count() {
    let x: Vec<i64> = (1..=7).collect();
    for p in 1..10 {
        let sum = parallel_foldl_with(&x, 0, |acc, v| acc + v, |a, b| a + b, p);
        assert_eq!(sum, 28);
    }
}

#[test]
fn fold_range_folds_only_its_range() {
    let x = [1, 2, 3, 4];
    assert_eq!(fold_range(&x, 1, 3, 0, |acc, v| acc + v), 5);
    assert_eq!(fold_range(&x, 0, 4, 0, |acc, v| acc + v), 10);
    assert_eq!(fold_range(&x, 2, 2, 7, |acc, v| acc + v), 7);
}

#[test]
fn fold_range_is_left_to_right() {
    let x = [1, 2, 3];
    // ((0 * 10 + 1) * 10 + 2) * 10 + 3
    assert_eq!(fold_range(&x, 0, 3, 0, |acc, v| acc * 10 + v), 123);
}

#[test]
fn reduce_is_seeded_with_first_and_left_to_right() {
    let partials = vec![1, 2, 3];
    // (1 - 2) - 3, not 1 - (2 - 3)
    assert_eq!(reduce_partials(&partials, |a, b| a - b), -4);
}

#[test]
fn reduce_of_single_partial() {
    let partials = vec![42];
    assert_eq!(reduce_partials(&partials, |a, b| a + b), 42);
}

#[test]
fn one_partial_result_per_partition() {
    let x: Vec<i32> = (1..=7).collect();
    let folds = Cell::new(0usize);
    let reductions = Cell::new(0usize);
    let folds_ref = &folds;
    let reductions_ref = &reductions;
    let sum = parallel_foldl_with(
        &x,
        0,
        |acc, v| {
            folds_ref.set(folds_ref.get() + 1);
            acc + v
        },
        |a, b| {
            reductions_ref.set(reductions_ref.get() + 1);
            a + b
        },
        4,
    );
    assert_eq!(sum, 28);
    // Every element is folded exactly once, and the collector combines
    // exactly four partial results: seeded with the first, three reductions.
    assert_eq!(folds.get(), 7);
    assert_eq!(reductions.get(), 3);
}

#[test]
fn empty_sequence_with_explicit_workers() {
    let empty: Vec<i32> = Vec::new();
    let sum = parallel_foldl_with(&empty, 0, |acc, v| acc + v, |a, b| a + b, 5);
    assert_eq!(sum, 0);
}
