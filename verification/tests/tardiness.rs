use smsp::job::Job;
use smsp::tardiness::{calc_delay, late_by};

#[test]
fn job_new_keeps_its_fields() {
    let job = Job::new(3, 5, 8);
    assert_eq!((job.id, job.p_time, job.due), (3, 5, 8));
}

#[test]
fn late_by_is_the_overrun() {
    assert_eq!(late_by(10, 4), 6);
}

#[test]
fn late_by_is_zero_for_a_job_on_time() {
    assert_eq!(late_by(4, 4), 0);
    assert_eq!(late_by(3, 10), 0);
    assert_eq!(late_by(0, usize::MAX), 0);
}

#[test]
fn late_by_takes_times_beyond_the_word_size() {
    let t = usize::MAX as u128 + 5;
    assert_eq!(late_by(t, usize::MAX), 5);
}

#[test]
fn calc_delay_of_nothing_is_zero() {
    assert_eq!(calc_delay(&[]), Some(0));
}

#[test]
fn calc_delay_sums_the_overruns() {
    let jobs = [Job::new(1, 2, 2), Job::new(0, 4, 5), Job::new(2, 3, 9)];
    assert_eq!(calc_delay(&jobs), Some(1));
    let jobs = [Job::new(1, 1, 6), Job::new(2, 1, 7), Job::new(0, 10, 5)];
    assert_eq!(calc_delay(&jobs), Some(7));
}

#[test]
fn calc_delay_depends_on_the_order() {
    let a = [Job::new(0, 10, 5), Job::new(1, 1, 6)];
    let b = [Job::new(1, 1, 6), Job::new(0, 10, 5)];
    assert_eq!(calc_delay(&a), Some(10));
    assert_eq!(calc_delay(&b), Some(6));
}

#[test]
fn calc_delay_never_goes_below_zero() {
    let jobs = [Job::new(0, 1, 100), Job::new(1, 1, 100), Job::new(2, 1, 0)];
    assert_eq!(calc_delay(&jobs), Some(3));
}

#[test]
fn calc_delay_reaches_the_largest_total() {
    let jobs = [Job::new(0, usize::MAX, 0)];
    assert_eq!(calc_delay(&jobs), Some(usize::MAX));
}

#[test]
fn calc_delay_reports_a_total_that_does_not_fit() {
    let jobs = [Job::new(0, usize::MAX, 0), Job::new(1, 1, usize::MAX)];
    assert_eq!(calc_delay(&jobs), None);
    let jobs = [Job::new(0, usize::MAX, 0), Job::new(1, 0, usize::MAX - 1)];
    assert_eq!(calc_delay(&jobs), None);
}

#[test]
fn calc_delay_counts_time_beyond_the_word_size() {
    let jobs = [Job::new(0, usize::MAX, usize::MAX), Job::new(1, 2, usize::MAX)];
    assert_eq!(calc_delay(&jobs), Some(2));
}
