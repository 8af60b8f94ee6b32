use inferrust::inferray::bucket_sort_pairs;
use inferrust::inferray::sorter::{
    build_cumul, build_hist, insertion_sort_pairs, insertion_sort_slice,
};

fn sorted(mut pairs: Vec<[u64; 2]>, min: u64, max: u64) -> (Vec<[u64; 2]>, usize) {
    let width = (max - min + 1) as usize;
    let mut hist = Vec::new();
    let mut hist2 = Vec::new();
    let mut cumul = Vec::new();
    let count = bucket_sort_pairs(&mut pairs, &mut hist, &mut hist2, &mut cumul, min, max, width);
    (pairs, count)
}

#[test]
fn sorts_by_first_then_second_and_drops_duplicates() {
    let input = vec![[3, 1], [1, 2], [3, 1], [2, 9], [1, 1], [3, 0], [1, 2]];
    let (pairs, count) = sorted(input, 1, 3);
    assert_eq!(pairs, vec![[1, 1], [1, 2], [2, 9], [3, 0], [3, 1]]);
    assert_eq!(count, 5);
}

#[test]
fn empty_input_returns_zero_and_leaves_the_buffers() {
    let mut pairs: Vec<[u64; 2]> = Vec::new();
    let mut hist = vec![7, 7];
    let mut hist2 = vec![8];
    let mut cumul = vec![9, 9, 9];
    let count = bucket_sort_pairs(&mut pairs, &mut hist, &mut hist2, &mut cumul, 5, 2, 0);
    assert_eq!(count, 0);
    assert!(pairs.is_empty());
    assert_eq!(hist, vec![7, 7]);
    assert_eq!(hist2, vec![8]);
    assert_eq!(cumul, vec![9, 9, 9]);
}

#[test]
fn a_range_of_one_value_is_a_single_bucket() {
    let input = vec![[4, 30], [4, 10], [4, 20], [4, 10]];
    let (pairs, count) = sorted(input, 4, 4);
    assert_eq!(pairs, vec![[4, 10], [4, 20], [4, 30]]);
    assert_eq!(count, 3);
}

#[test]
fn sorting_what_is_sorted_changes_nothing() {
    let input = vec![[10, 1], [10, 5], [11, 0], [13, 2], [13, 3]];
    let (once, count) = sorted(input.clone(), 10, 13);
    assert_eq!(once, input);
    assert_eq!(count, 5);
    let (twice, again) = sorted(once.clone(), 10, 13);
    assert_eq!(twice, once);
    assert_eq!(again, 5);
}

#[test]
fn the_same_second_in_different_buckets_is_kept() {
    let input = vec![[2, 7], [1, 7], [2, 7], [3, 7]];
    let (pairs, count) = sorted(input, 1, 3);
    assert_eq!(pairs, vec![[1, 7], [2, 7], [3, 7]]);
    assert_eq!(count, 3);
}

#[test]
fn a_range_wider_than_the_values_met_leaves_empty_buckets() {
    let input = vec![[109, 1], [100, 2], [109, 0]];
    let (pairs, count) = sorted(input, 100, 110);
    assert_eq!(pairs, vec![[100, 2], [109, 0], [109, 1]]);
    assert_eq!(count, 3);
}

#[test]
fn whatever_the_buffers_held_is_discarded() {
    let mut pairs = vec![[6, 2], [5, 9], [6, 1], [5, 9]];
    let mut hist = vec![41, 42, 43, 44, 45];
    let mut hist2 = vec![1];
    let mut cumul = vec![99; 7];
    let count = bucket_sort_pairs(&mut pairs, &mut hist, &mut hist2, &mut cumul, 5, 6, 2);
    assert_eq!(count, 3);
    assert_eq!(pairs, vec![[5, 9], [6, 1], [6, 2]]);
}

#[test]
fn the_buffers_hold_histogram_and_offsets_afterwards() {
    let mut pairs = vec![[7, 2], [5, 9], [7, 1], [5, 9], [7, 7]];
    let mut hist = Vec::new();
    let mut hist2 = Vec::new();
    let mut cumul = Vec::new();
    let count = bucket_sort_pairs(&mut pairs, &mut hist, &mut hist2, &mut cumul, 5, 7, 3);
    assert_eq!(count, 4);
    assert_eq!(hist, vec![0, 0, 0]);
    assert_eq!(hist2, vec![2, 0, 3]);
    assert_eq!(cumul, vec![0, 2, 2]);
}

#[test]
fn large_values_near_the_top_of_the_range_sort() {
    let top = u64::MAX;
    let input = vec![[top, 0], [top - 1, top], [top, top], [top - 1, top]];
    let (pairs, count) = sorted(input, top - 1, top);
    assert_eq!(pairs, vec![[top - 1, top], [top, 0], [top, top]]);
    assert_eq!(count, 3);
}

#[test]
fn insertion_sort_touches_only_its_range() {
    let mut v = vec![9, 8, 7, 6, 5, 4, 3];
    insertion_sort_slice(&mut v, 2, 6);
    assert_eq!(v, vec![9, 8, 4, 5, 6, 7, 3]);
}

#[test]
fn insertion_sort_of_an_empty_range_changes_nothing() {
    let mut v = vec![3, 2, 1];
    insertion_sort_slice(&mut v, 1, 1);
    assert_eq!(v, vec![3, 2, 1]);
    insertion_sort_slice(&mut v, 3, 3);
    assert_eq!(v, vec![3, 2, 1]);
}

#[test]
fn insertion_sort_keeps_equal_values() {
    let mut v = vec![2, 1, 2, 1, 0];
    insertion_sort_slice(&mut v, 0, 5);
    assert_eq!(v, vec![0, 1, 1, 2, 2]);
}

#[test]
fn histogram_counts_each_first_component() {
    let pairs = vec![[12, 0], [10, 0], [12, 5], [12, 5]];
    let mut hist = vec![0; 4];
    build_hist(&pairs, 10, &mut hist);
    assert_eq!(hist, vec![1, 0, 3, 0]);
}

#[test]
fn cumulated_counts_are_the_bucket_offsets() {
    let hist = vec![1, 0, 3, 2];
    let mut cumul = vec![5, 5];
    build_cumul(&hist, &mut cumul);
    assert_eq!(cumul, vec![0, 1, 1, 4]);
}

#[test]
fn cumulating_an_empty_histogram_gives_nothing() {
    let hist: Vec<usize> = Vec::new();
    let mut cumul = vec![5, 5];
    build_cumul(&hist, &mut cumul);
    assert!(cumul.is_empty());
}

fn next(seed: &mut u64) -> u64 {
    *seed = seed.wrapping_mul(6364136223846793005).wrapping_add(1442695040888963407);
    *seed >> 33
}

#[test]
fn sorting_agrees_with_sort_and_dedup_on_many_inputs() {
    let mut seed: u64 = 42;
    for round in 0..200 {
        let len = (next(&mut seed) % 60) as usize + 1;
        let base = 4_294_967_000 + next(&mut seed) % 500;
        let spread = next(&mut seed) % 12 + 1;
        let mut input: Vec<[u64; 2]> = Vec::new();
        for _ in 0..len {
            input.push([base + next(&mut seed) % spread, base + next(&mut seed) % spread]);
        }
        let min = input.iter().map(|p| p[0]).min().unwrap();
        let max = input.iter().map(|p| p[0]).max().unwrap();
        let mut expected = input.clone();
        expected.sort();
        expected.dedup();
        let (pairs, count) = sorted(input, min, max);
        assert_eq!(pairs, expected, "round {}", round);
        assert_eq!(count, expected.len());
    }
}

#[test]
fn insertion_of_pairs_agrees_with_the_bucket_sorter() {
    let mut seed: u64 = 99;
    for round in 0..100 {
        let len = (next(&mut seed) % 40) as usize;
        let mut input: Vec<[u64; 2]> = Vec::new();
        for _ in 0..len {
            input.push([1000 + next(&mut seed) % 9, next(&mut seed) % 9]);
        }
        let mut expected = input.clone();
        expected.sort();
        expected.dedup();
        let mut pairs = input.clone();
        let count = insertion_sort_pairs(&mut pairs);
        assert_eq!(pairs, expected, "round {}", round);
        assert_eq!(count, expected.len());
        if len > 0 {
            assert_eq!(sorted(input, 1000, 1008).0, expected);
        }
    }
    let mut wide = vec![[u64::MAX, 1], [0, 2], [u64::MAX, 1], [0, 0]];
    assert_eq!(insertion_sort_pairs(&mut wide), 3);
    assert_eq!(wide, vec![[0, 0], [0, 2], [u64::MAX, 1]]);
    let mut none: Vec<[u64; 2]> = Vec::new();
    assert_eq!(insertion_sort_pairs(&mut none), 0);
}
