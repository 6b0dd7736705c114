use smsp::job::Job;
use smsp::solve::{solve, SolveError};
use smsp::tardiness::calc_delay;

#[test]
fn empty_input_gives_empty_schedule() {
    assert_eq!(solve(&[], &[], &[]), Ok((vec![], 0)));
}

#[test]
fn single_job_is_tardy_by_its_overrun() {
    assert_eq!(solve(&[7], &[4], &[1]), Ok((vec![7], 3)));
}

#[test]
fn single_job_on_time_has_no_tardiness() {
    assert_eq!(solve(&[7], &[4], &[9]), Ok((vec![7], 0)));
}

#[test]
fn length_mismatch_between_ids_and_processing_times() {
    assert_eq!(solve(&[0, 1], &[4], &[5, 2]), Err(SolveError::LengthMismatch));
}

#[test]
fn length_mismatch_between_ids_and_due_dates() {
    assert_eq!(solve(&[0, 1], &[4, 2], &[5, 2, 9]), Err(SolveError::LengthMismatch));
}

#[test]
fn length_mismatch_with_no_ids() {
    assert_eq!(solve(&[], &[1], &[1]), Err(SolveError::LengthMismatch));
}

#[test]
fn earliest_due_date_order_is_kept_when_no_move_pays() {
    assert_eq!(solve(&[0, 1, 2], &[4, 2, 3], &[5, 2, 9]), Ok((vec![1, 0, 2], 1)));
}

#[test]
fn long_job_is_postponed_past_short_jobs() {
    let edd = [Job::new(0, 10, 5), Job::new(1, 1, 6), Job::new(2, 1, 7)];
    assert_eq!(calc_delay(&edd), Some(15));
    assert_eq!(solve(&[0, 1, 2], &[10, 1, 1], &[5, 6, 7]), Ok((vec![1, 2, 0], 7)));
}

#[test]
fn last_of_the_longest_jobs_is_the_dominant_one() {
    assert_eq!(solve(&[0, 1, 2], &[1, 3, 3], &[2, 1, 1]), Ok((vec![0, 1, 2], 9)));
}

#[test]
fn equal_jobs_stay_in_input_order() {
    assert_eq!(solve(&[5, 6, 7, 8], &[4, 4, 4, 4], &[3, 3, 3, 3]), Ok((vec![5, 6, 7, 8], 28)));
}

#[test]
fn ten_jobs() {
    let ids = [10, 11, 12, 13, 14, 15, 16, 17, 18, 19];
    let p = [3, 8, 2, 8, 5, 1, 9, 4, 9, 6];
    let d = [20, 4, 9, 15, 7, 30, 12, 3, 25, 10];
    assert_eq!(solve(&ids, &p, &d), Ok((vec![17, 14, 12, 19, 10, 11, 15, 13, 16, 18], 122)));
}

#[test]
fn five_jobs_with_ties() {
    assert_eq!(
        solve(&[1, 2, 3, 4, 5], &[6, 2, 6, 1, 3], &[4, 4, 5, 5, 4]),
        Ok((vec![2, 5, 4, 1, 3], 23))
    );
}

#[test]
fn labels_are_not_read() {
    let a = solve(&[9, 9, 9], &[10, 1, 1], &[5, 6, 7]);
    assert_eq!(a, Ok((vec![9, 9, 9], 7)));
    let b = solve(&[300, 2, 41], &[10, 1, 1], &[5, 6, 7]);
    assert_eq!(b, Ok((vec![2, 41, 300], 7)));
}

#[test]
fn returned_order_is_a_permutation_of_the_ids() {
    let ids = [10, 11, 12, 13, 14, 15, 16, 17, 18, 19];
    let p = [3, 8, 2, 8, 5, 1, 9, 4, 9, 6];
    let d = [20, 4, 9, 15, 7, 30, 12, 3, 25, 10];
    let (order, _) = solve(&ids, &p, &d).unwrap();
    assert_eq!(order.len(), ids.len());
    let mut sorted = order.clone();
    sorted.sort();
    assert_eq!(sorted, ids.to_vec());
}

#[test]
fn evaluating_the_returned_order_gives_the_reported_total() {
    let ids = [10, 11, 12, 13, 14, 15, 16, 17, 18, 19];
    let p = [3, 8, 2, 8, 5, 1, 9, 4, 9, 6];
    let d = [20, 4, 9, 15, 7, 30, 12, 3, 25, 10];
    let (order, total) = solve(&ids, &p, &d).unwrap();
    let mut replay = Vec::new();
    for id in order.iter() {
        let k = ids.iter().position(|x| x == id).unwrap();
        replay.push(Job::new(ids[k], p[k], d[k]));
    }
    assert_eq!(calc_delay(&replay), Some(total));
}

#[test]
fn same_input_gives_same_output() {
    let first = solve(&[0, 1, 2, 3], &[3, 3, 3, 1], &[2, 1, 1, 4]);
    for _ in 0..5 {
        assert_eq!(solve(&[0, 1, 2, 3], &[3, 3, 3, 1], &[2, 1, 1, 4]), first);
    }
}

#[test]
fn total_that_does_not_fit_is_an_overflow() {
    let big = usize::MAX;
    assert_eq!(solve(&[0, 1], &[big, big], &[0, 0]), Err(SolveError::Overflow));
}

#[test]
fn times_beyond_the_word_size_are_fine_when_the_total_fits() {
    let big = usize::MAX;
    assert_eq!(solve(&[0, 1], &[big, 2], &[big, big]), Ok((vec![0, 1], 2)));
}
