use ranksort::input::{random_input, within_bound};
use ranksort::pipeline::{
    arguments, classify, initial_contents, read_only, step_at, wait_list, work_size, Buffer,
    Kernel, SortError, SortRun, Step,
};
use ranksort::timing::{device_time, KernelTime};

fn whole_plan() -> Vec<Step> {
    vec![
        Step::Allocate(Buffer::Source),
        Step::Allocate(Buffer::Counts),
        Step::Allocate(Buffer::Results),
        Step::Upload(Buffer::Source),
        Step::Upload(Buffer::Counts),
        Step::Upload(Buffer::Results),
        Step::Launch(Kernel::Counter),
        Step::Launch(Kernel::Scatter),
        Step::Download,
        Step::Await,
    ]
}

#[test]
fn steps_come_in_the_order_of_the_plan() {
    let plan = whole_plan();
    for (k, step) in plan.iter().enumerate() {
        assert_eq!(step_at(k), Some(*step));
    }
    assert_eq!(step_at(10), None);
    assert_eq!(step_at(usize::MAX), None);

    let mut run = SortRun::new();
    let mut seen = Vec::new();
    while let Some(step) = run.next_step() {
        assert_eq!(run.outcome(), None);
        seen.push(step);
        run.report(true);
    }
    assert_eq!(seen, plan);
    assert_eq!(run.outcome(), Some(Ok(())));
}

#[test]
fn a_step_is_handed_out_until_it_is_reported() {
    let run = SortRun::new();
    assert_eq!(run.next_step(), Some(Step::Allocate(Buffer::Source)));
    assert_eq!(run.next_step(), Some(Step::Allocate(Buffer::Source)));
}

#[test]
fn every_step_waits_only_for_earlier_steps() {
    let plan = whole_plan();
    for (k, step) in plan.iter().enumerate() {
        for needed in wait_list(*step) {
            let at = plan.iter().position(|s| *s == needed);
            assert!(matches!(at, Some(p) if p < k));
        }
    }
}

#[test]
fn wait_lists_follow_the_data() {
    assert_eq!(wait_list(Step::Allocate(Buffer::Counts)), vec![]);
    assert_eq!(wait_list(Step::Upload(Buffer::Results)), vec![Step::Allocate(Buffer::Results)]);
    assert_eq!(
        wait_list(Step::Launch(Kernel::Counter)),
        vec![Step::Upload(Buffer::Source), Step::Upload(Buffer::Counts)]
    );
    assert_eq!(
        wait_list(Step::Launch(Kernel::Scatter)),
        vec![Step::Upload(Buffer::Results), Step::Launch(Kernel::Counter)]
    );
    assert_eq!(
        wait_list(Step::Download),
        vec![Step::Launch(Kernel::Counter), Step::Launch(Kernel::Scatter)]
    );
    assert_eq!(wait_list(Step::Await), vec![Step::Download]);
}

#[test]
fn a_failed_allocation_ends_the_sort() {
    let mut run = SortRun::new();
    run.report(true);
    run.report(false);
    let error = SortError::Allocation(Step::Allocate(Buffer::Counts));
    assert_eq!(run.outcome(), Some(Err(error)));
    assert_eq!(run.next_step(), None);
    run.report(true);
    assert_eq!(run.outcome(), Some(Err(error)));
    assert_eq!(run.next_step(), None);
}

#[test]
fn a_failed_launch_ends_the_sort() {
    let mut run = SortRun::new();
    for _ in 0..7 {
        run.report(true);
    }
    assert_eq!(run.next_step(), Some(Step::Launch(Kernel::Scatter)));
    run.report(false);
    assert_eq!(run.outcome(), Some(Err(SortError::Launch(Step::Launch(Kernel::Scatter)))));
    assert_eq!(run.next_step(), None);
}

#[test]
fn a_failed_wait_ends_the_sort() {
    let mut run = SortRun::new();
    for _ in 0..9 {
        run.report(true);
    }
    assert_eq!(run.next_step(), Some(Step::Await));
    run.report(false);
    assert_eq!(run.outcome(), Some(Err(SortError::Synchronization(Step::Await))));
}

#[test]
fn reports_after_the_end_change_nothing() {
    let mut run = SortRun::new();
    for _ in 0..10 {
        run.report(true);
    }
    assert_eq!(run.outcome(), Some(Ok(())));
    run.report(false);
    run.report(true);
    assert_eq!(run.outcome(), Some(Ok(())));
    assert_eq!(run.next_step(), None);
}

#[test]
fn each_step_has_its_error() {
    for buffer in [Buffer::Source, Buffer::Counts, Buffer::Results] {
        assert_eq!(classify(Step::Allocate(buffer)), SortError::Allocation(Step::Allocate(buffer)));
        assert_eq!(classify(Step::Upload(buffer)), SortError::Launch(Step::Upload(buffer)));
    }
    for kernel in [Kernel::Counter, Kernel::Scatter] {
        assert_eq!(classify(Step::Launch(kernel)), SortError::Launch(Step::Launch(kernel)));
    }
    assert_eq!(classify(Step::Download), SortError::Launch(Step::Download));
    assert_eq!(classify(Step::Await), SortError::Synchronization(Step::Await));
}

#[test]
fn kernels_take_their_buffers_in_order() {
    assert_eq!(arguments(Kernel::Counter), vec![Buffer::Source, Buffer::Counts]);
    assert_eq!(arguments(Kernel::Scatter), vec![Buffer::Source, Buffer::Counts, Buffer::Results]);
    assert!(read_only(Buffer::Source));
    assert!(!read_only(Buffer::Counts));
    assert!(!read_only(Buffer::Results));
}

#[test]
fn work_sizes_cover_pairs_and_elements() {
    assert_eq!(work_size(Kernel::Counter, 7), vec![7, 7]);
    assert_eq!(work_size(Kernel::Scatter, 7), vec![7]);
    assert_eq!(work_size(Kernel::Counter, 0), vec![0, 0]);
}

#[test]
fn buffers_start_as_source_zeros_and_empty_slots() {
    let source = vec![5, 3, 3, 1];
    assert_eq!(initial_contents(Buffer::Source, &source), vec![5, 3, 3, 1]);
    assert_eq!(initial_contents(Buffer::Counts, &source), vec![0, 0, 0, 0]);
    assert_eq!(initial_contents(Buffer::Results, &source), vec![-1, -1, -1, -1]);
    let nothing: Vec<i32> = Vec::new();
    assert_eq!(initial_contents(Buffer::Source, &nothing), nothing);
    assert_eq!(initial_contents(Buffer::Counts, &nothing), nothing);
    assert_eq!(initial_contents(Buffer::Results, &nothing), nothing);
}

#[test]
fn kernel_time_is_end_less_start() {
    assert_eq!(KernelTime { start: 1_000, end: 4_500 }.elapsed(), Some(3_500));
    assert_eq!(KernelTime { start: 7, end: 7 }.elapsed(), Some(0));
    assert_eq!(KernelTime { start: 0, end: u64::MAX }.elapsed(), Some(u64::MAX));
    assert_eq!(KernelTime { start: 8, end: 7 }.elapsed(), None);
}

#[test]
fn device_time_adds_both_kernels() {
    let counter = KernelTime { start: 100, end: 350 };
    let scatter = KernelTime { start: 400, end: 1_000 };
    assert_eq!(device_time(&counter, &scatter), Some(850));
    assert_eq!(device_time(&scatter, &counter), Some(850));
    let backwards = KernelTime { start: 2, end: 1 };
    assert_eq!(device_time(&backwards, &scatter), None);
    assert_eq!(device_time(&counter, &backwards), None);
    let all = KernelTime { start: 0, end: u64::MAX };
    assert_eq!(device_time(&all, &KernelTime { start: 5, end: 5 }), Some(u64::MAX));
    assert_eq!(device_time(&all, &KernelTime { start: 5, end: 6 }), None);
}

#[test]
fn random_input_stays_under_its_bound() {
    let input = random_input(1000, 10);
    assert_eq!(input.len(), 1000);
    for v in &input {
        assert!(0 <= *v && *v < 10);
    }
    assert!(within_bound(&input, 10));
    // a bound of one leaves zero as the only value
    assert_eq!(random_input(20, 1), vec![0; 20]);
    assert_eq!(random_input(0, 0), Vec::<i32>::new());
    assert_eq!(random_input(0, -3), Vec::<i32>::new());
}

#[test]
fn within_bound_tests_every_value() {
    assert!(within_bound(&vec![0, 4, 9], 10));
    assert!(!within_bound(&vec![0, 10, 9], 10));
    assert!(!within_bound(&vec![0, 4, -1], 10));
    assert!(within_bound(&vec![], 0));
    assert!(!within_bound(&vec![0], 0));
}
