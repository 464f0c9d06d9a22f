use ranksort::interleaving::{rank_scatter_interleaved, Attempt, Workers};
use ranksort::rank::rank_counts;
use ranksort::scatter::{rank_scatter, SENTINEL};
use ranksort::sort::rank_sort;
use ranksort::tally::rank_counts_interleaved;

fn round_robin(workers: usize, rounds: usize) -> Vec<usize> {
    let mut schedule = Vec::new();
    for _ in 0..rounds {
        for id in 0..workers {
            schedule.push(id);
        }
    }
    schedule
}

#[test]
fn any_schedule_gives_the_sorted_result() {
    let source = vec![4, 1, 4, 4, 0, 1, 9, 0, 4];
    let counts = rank_counts(&source);
    let expected = vec![0, 0, 1, 1, 4, 4, 4, 4, 9];

    let none: Vec<usize> = Vec::new();
    let backwards: Vec<usize> = (0..source.len()).rev().collect();
    let one_each = round_robin(source.len(), 1);
    let many = round_robin(source.len(), 20);
    let lopsided = vec![2, 2, 2, 2, 3, 8, 8, 0, 3, 3, 3, 3, 3];
    let strangers = vec![100, 9, usize::MAX, 4, 4, 4];
    for schedule in [none, backwards, one_each, many, lopsided, strangers] {
        assert_eq!(rank_scatter_interleaved(&source, &counts, &schedule), expected);
    }
}

#[test]
fn equal_values_fill_their_run_in_any_order() {
    let source = vec![2, 2, 2];
    let counts = vec![0, 0, 0];
    for schedule in [vec![], vec![2, 1, 0], vec![0, 1, 2, 0, 1, 2], vec![1, 1, 1, 1]] {
        assert_eq!(rank_scatter_interleaved(&source, &counts, &schedule), vec![2, 2, 2]);
    }
}

#[test]
fn long_run_at_the_top_survives_every_schedule() {
    let mut source = vec![7, 3];
    for _ in 0..60 {
        source.push(i32::MAX);
    }
    let counts = rank_counts(&source);
    let expected = rank_sort(&source);
    assert_eq!(expected[0], 3);
    assert_eq!(expected[1], 7);
    assert_eq!(expected[61], i32::MAX);
    for rounds in [0, 1, 5, 61, 100] {
        let schedule = round_robin(source.len(), rounds);
        let result = rank_scatter_interleaved(&source, &counts, &schedule);
        assert_eq!(result, expected);
        assert!(!result.contains(&SENTINEL));
    }
}

#[test]
fn without_a_schedule_it_is_the_scatter_in_order() {
    let source = vec![7, 8, 9, 10];
    for counts in [vec![0, 0, 0, 0], vec![3, 3, 0, 1], vec![4, 0, 9, 2], vec![1, 1, 1, 1]] {
        let none: Vec<usize> = Vec::new();
        assert_eq!(
            rank_scatter_interleaved(&source, &counts, &none),
            rank_scatter(&source, &counts)
        );
    }
}

#[test]
fn with_wrong_counts_the_order_of_attempts_shows() {
    let source = vec![7, 8];
    let counts = vec![0, 0];
    assert_eq!(rank_scatter_interleaved(&source, &counts, &vec![]), vec![7, 8]);
    assert_eq!(rank_scatter_interleaved(&source, &counts, &vec![1]), vec![8, 7]);
    assert_eq!(rank_scatter_interleaved(&source, &counts, &vec![0, 1]), vec![7, 8]);
}

#[test]
fn an_attempt_claims_moves_or_drops() {
    let source = vec![5, 6, 7];
    let mut workers = Workers::start(&vec![1, 1, 2]);
    assert!(!workers.quiescent());
    assert!(workers.is_active(0) && workers.is_active(1) && workers.is_active(2));
    assert!(!workers.is_active(3));

    // worker 1 finds slot 1 empty
    assert_eq!(workers.attempt(&source, 1), Attempt::Claimed);
    assert!(!workers.is_active(1));
    assert_eq!(workers.attempt(&source, 1), Attempt::Idle);
    // worker 0 finds slot 1 taken and moves to slot 2
    assert_eq!(workers.attempt(&source, 0), Attempt::Moved);
    assert!(workers.is_active(0));
    // worker 2 takes slot 2
    assert_eq!(workers.attempt(&source, 2), Attempt::Claimed);
    // worker 0 finds slot 2 taken, and that was the last slot
    assert_eq!(workers.attempt(&source, 0), Attempt::Dropped);
    assert!(!workers.is_active(0));
    assert!(workers.quiescent());
    // no such worker
    assert_eq!(workers.attempt(&source, 3), Attempt::Idle);
    assert_eq!(workers.into_slots(), vec![SENTINEL, 6, 7]);
}

#[test]
fn a_count_past_the_end_never_tries() {
    let source = vec![5, 6];
    let mut workers = Workers::start(&vec![2, 0]);
    assert!(!workers.is_active(0));
    assert!(workers.is_active(1));
    assert_eq!(workers.attempt(&source, 0), Attempt::Idle);
    workers.finish(&source);
    assert!(workers.quiescent());
    assert_eq!(workers.into_slots(), vec![6, SENTINEL]);
}

#[test]
fn finish_runs_every_worker_to_its_end() {
    let source = vec![5, 3, 3, 1];
    let counts = rank_counts(&source);
    let mut workers = Workers::start(&counts);
    assert_eq!(workers.attempt(&source, 2), Attempt::Claimed);
    assert_eq!(workers.attempt(&source, 1), Attempt::Moved);
    workers.finish(&source);
    assert!(workers.quiescent());
    assert_eq!(workers.into_slots(), vec![1, 3, 3, 5]);

    let mut nobody = Workers::start(&Vec::new());
    assert!(nobody.quiescent());
    nobody.finish(&Vec::new());
    assert_eq!(nobody.into_slots(), Vec::<i32>::new());
}

fn grid(n: usize) -> Vec<(usize, usize)> {
    let mut items = Vec::new();
    for i in 0..n {
        for j in 0..n {
            items.push((i, j));
        }
    }
    items
}

#[test]
fn any_order_of_the_grid_gives_the_ranks() {
    let source = vec![5, 3, 3, 1];
    let rows = grid(4);
    let columns: Vec<(usize, usize)> = rows.iter().map(|(i, j)| (*j, *i)).collect();
    let mut backwards = rows.clone();
    backwards.reverse();
    let mut shuffled = rows.clone();
    for k in 0..shuffled.len() {
        shuffled.swap(k, (k * 7 + 3) % 16);
    }
    for items in [rows, columns, backwards, shuffled] {
        assert_eq!(items.len(), 16);
        assert_eq!(rank_counts_interleaved(&source, &items), vec![3, 1, 1, 0]);
    }

    let longer = vec![4, 1, 4, 4, 0, 1, 9, 0, 4];
    let mut items = grid(9);
    items.reverse();
    assert_eq!(rank_counts_interleaved(&longer, &items), rank_counts(&longer));
}

#[test]
fn counts_grow_one_comparison_at_a_time() {
    let source = vec![5, 3];
    assert_eq!(rank_counts_interleaved(&source, &vec![]), vec![0, 0]);
    assert_eq!(rank_counts_interleaved(&source, &vec![(1, 0)]), vec![0, 0]);
    assert_eq!(rank_counts_interleaved(&source, &vec![(0, 0)]), vec![0, 0]);
    assert_eq!(rank_counts_interleaved(&source, &vec![(0, 1)]), vec![1, 0]);
    // a pair that comes twice is counted twice
    assert_eq!(rank_counts_interleaved(&source, &vec![(0, 1), (0, 1)]), vec![2, 0]);
}

#[test]
fn pairs_off_the_grid_are_passed_over() {
    let source = vec![5, 3];
    let items = vec![(2, 0), (0, 1), (0, 2), (usize::MAX, usize::MAX), (1, 0), (0, 0), (1, 1)];
    assert_eq!(rank_counts_interleaved(&source, &items), vec![1, 0]);
    let nothing: Vec<i32> = Vec::new();
    assert_eq!(rank_counts_interleaved(&nothing, &vec![(0, 0)]), Vec::<usize>::new());
}
