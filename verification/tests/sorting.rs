use ranksort::merge::{merge, merge_sort};
use ranksort::rank::rank_counts;
use ranksort::scatter::{empty_slots, rank_scatter, SENTINEL};
use ranksort::sort::rank_sort;

fn ascending(values: &Vec<i32>) -> bool {
    let mut k = 0;
    while k + 1 < values.len() {
        if values[k] > values[k + 1] {
            return false;
        }
        k += 1;
    }
    true
}

fn occurrences(values: &Vec<i32>, v: i32) -> usize {
    let mut n = 0;
    for x in values {
        if *x == v {
            n += 1;
        }
    }
    n
}

fn same_values(a: &Vec<i32>, b: &Vec<i32>) -> bool {
    if a.len() != b.len() {
        return false;
    }
    for x in a {
        if occurrences(a, *x) != occurrences(b, *x) {
            return false;
        }
    }
    true
}

// A small generator with a fixed sequence, so that every run sees the same inputs.
fn scrambled(len: usize, modulus: i32, seed: u64) -> Vec<i32> {
    let mut state = seed;
    let mut out = Vec::new();
    for _ in 0..len {
        state = state.wrapping_mul(6364136223846793005).wrapping_add(1442695040888963407);
        out.push(((state >> 33) as i32).rem_euclid(modulus));
    }
    out
}

#[test]
fn counts_and_result_with_one_repeated_value() {
    let input = vec![5, 3, 3, 1];
    let counts = rank_counts(&input);
    assert_eq!(counts, vec![3, 1, 1, 0]);
    assert_eq!(rank_scatter(&input, &counts), vec![1, 3, 3, 5]);
    assert_eq!(rank_sort(&input), vec![1, 3, 3, 5]);
}

#[test]
fn equal_values_share_out_their_run() {
    let input = vec![2, 2, 2];
    let counts = rank_counts(&input);
    assert_eq!(counts, vec![0, 0, 0]);
    let result = rank_scatter(&input, &counts);
    assert_eq!(result, vec![2, 2, 2]);
    assert_eq!(rank_sort(&input), vec![2, 2, 2]);
}

#[test]
fn descending_input_counts_down_and_comes_out_reversed() {
    let input = vec![60, 50, 40, 30, 20, 10];
    assert_eq!(rank_counts(&input), vec![5, 4, 3, 2, 1, 0]);
    assert_eq!(rank_sort(&input), vec![10, 20, 30, 40, 50, 60]);

    for n in 1..40usize {
        let descending: Vec<i32> = (0..n).map(|i| (n - i) as i32 * 3).collect();
        let expected_counts: Vec<usize> = (0..n).map(|i| n - 1 - i).collect();
        let mut reversed = descending.clone();
        reversed.reverse();
        assert_eq!(rank_counts(&descending), expected_counts);
        assert_eq!(rank_sort(&descending), reversed);
    }
}

#[test]
fn empty_input_gives_empty_output() {
    let input: Vec<i32> = Vec::new();
    assert_eq!(rank_counts(&input), Vec::<usize>::new());
    assert_eq!(rank_sort(&input), Vec::<i32>::new());
    assert_eq!(merge_sort(&input), Vec::<i32>::new());
}

#[test]
fn single_element_is_unchanged() {
    assert_eq!(rank_counts(&vec![42]), vec![0]);
    assert_eq!(rank_sort(&vec![42]), vec![42]);
    assert_eq!(rank_sort(&vec![0]), vec![0]);
    assert_eq!(merge_sort(&vec![42]), vec![42]);
}

#[test]
fn output_is_an_ascending_permutation() {
    for seed in 0..20u64 {
        let input = scrambled(1 + (seed as usize) * 7, 50, seed);
        let result = rank_sort(&input);
        assert_eq!(result.len(), input.len());
        assert!(ascending(&result));
        assert!(same_values(&result, &input));
    }
}

#[test]
fn distinct_values_match_the_merge_sort() {
    let input = vec![17, 3, 99, 0, 42, 8, 23, 4, 15, 16];
    assert_eq!(rank_sort(&input), merge_sort(&input));
    assert_eq!(rank_sort(&input), vec![0, 3, 4, 8, 15, 16, 17, 23, 42, 99]);

    // every value taken once: a permutation of 0..97
    let spread: Vec<i32> = (0..97).map(|i| (i * 35) % 97).collect();
    let expected: Vec<i32> = (0..97).collect();
    assert_eq!(rank_sort(&spread), expected);
    assert_eq!(merge_sort(&spread), expected);
}

#[test]
fn repeated_values_keep_their_number() {
    let input = vec![4, 1, 4, 4, 0, 1, 9, 0, 4];
    let result = rank_sort(&input);
    assert_eq!(result, vec![0, 0, 1, 1, 4, 4, 4, 4, 9]);
    for v in [0, 1, 4, 9, 7] {
        assert_eq!(occurrences(&result, v), occurrences(&input, v));
    }
    for seed in 0..10u64 {
        let input = scrambled(200, 5, seed);
        let result = rank_sort(&input);
        assert!(same_values(&result, &input));
        assert_eq!(result, merge_sort(&input));
    }
}

#[test]
fn sorted_input_is_returned_unchanged() {
    let sorted = vec![0, 1, 1, 2, 3, 5, 8, 13, 13, 21];
    assert_eq!(rank_sort(&sorted), sorted);
    let once = rank_sort(&vec![9, 2, 7, 2, 5]);
    assert_eq!(rank_sort(&once), once);
}

#[test]
fn long_run_of_the_largest_value_loses_nothing() {
    let mut input = vec![3, 1, 2];
    for _ in 0..500 {
        input.push(1000);
    }
    input.push(0);
    let result = rank_sort(&input);
    assert_eq!(result.len(), 504);
    assert_eq!(&result[0..4], &[0, 1, 2, 3]);
    assert_eq!(occurrences(&result, 1000), 500);
    assert_eq!(occurrences(&result, SENTINEL), 0);
    assert_eq!(result[503], 1000);

    let top = vec![i32::MAX; 64];
    assert_eq!(rank_sort(&top), top);
}

#[test]
fn values_equal_to_the_sentinel_are_sorted_too() {
    assert_eq!(rank_sort(&vec![-1, 0, -1, -5]), vec![-5, -1, -1, 0]);
    assert_eq!(rank_sort(&vec![-1, -1]), vec![-1, -1]);
    assert_eq!(rank_sort(&vec![i32::MIN, 7, -1, i32::MAX]), vec![i32::MIN, -1, 7, i32::MAX]);
}

#[test]
fn scatter_probes_forward_from_the_count() {
    // both elements start at slot 0: the second moves on to slot 1
    assert_eq!(rank_scatter(&vec![8, 7], &vec![0, 0]), vec![8, 7]);
    // a gap stays empty
    assert_eq!(rank_scatter(&vec![8, 7, 6], &vec![2, 0, 2]), vec![7, SENTINEL, 8]);
}

#[test]
fn scatter_drops_an_element_that_finds_no_slot() {
    // both start at the last slot: the second finds the end
    assert_eq!(rank_scatter(&vec![7, 8], &vec![1, 1]), vec![SENTINEL, 7]);
    // a count past the end claims nothing
    assert_eq!(rank_scatter(&vec![7, 8, 9], &vec![3, 0, 100]), vec![8, SENTINEL, SENTINEL]);
}

#[test]
fn empty_slots_hold_the_sentinel() {
    assert_eq!(SENTINEL, -1);
    assert_eq!(empty_slots(0), Vec::<i32>::new());
    assert_eq!(empty_slots(3), vec![-1, -1, -1]);
}

#[test]
fn merge_takes_the_smaller_front_element() {
    assert_eq!(merge(&vec![1, 4, 9], &vec![2, 3, 10, 11]), vec![1, 2, 3, 4, 9, 10, 11]);
    assert_eq!(merge(&vec![], &vec![5, 6]), vec![5, 6]);
    assert_eq!(merge(&vec![5, 6], &vec![]), vec![5, 6]);
    assert_eq!(merge(&vec![], &vec![]), Vec::<i32>::new());
}

#[test]
fn merge_takes_the_left_element_on_a_tie() {
    // on runs that are not ascending the side taken on a tie shows
    assert_eq!(merge(&vec![2, 1], &vec![2, 3]), vec![2, 1, 2, 3]);
    assert_eq!(merge(&vec![5, 0], &vec![5, 9]), vec![5, 0, 5, 9]);
}

#[test]
fn merge_sort_sorts() {
    assert_eq!(merge_sort(&vec![5, 3, 3, 1]), vec![1, 3, 3, 5]);
    assert_eq!(merge_sort(&vec![2, 1]), vec![1, 2]);
    assert_eq!(merge_sort(&vec![3, -2, 3, 0, -2, 11, 7]), vec![-2, -2, 0, 3, 3, 7, 11]);
    for seed in 0..10u64 {
        let input = scrambled(150, 1000, seed);
        let mut expected = input.clone();
        expected.sort();
        assert_eq!(merge_sort(&input), expected);
        assert_eq!(rank_sort(&input), expected);
    }
}
