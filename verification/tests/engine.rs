use smsp::engine::{dominant_index, place_dominant, should_postpone, sort};
use smsp::job::Job;

fn fields(jobs: &[Job]) -> Vec<(usize, usize, usize)> {
    jobs.iter().map(|j| (j.id, j.p_time, j.due)).collect()
}

#[test]
fn dominant_index_finds_the_longest_job() {
    let jobs = [Job::new(0, 4, 5), Job::new(1, 9, 2), Job::new(2, 3, 9)];
    assert_eq!(dominant_index(&jobs), 1);
}

#[test]
fn dominant_index_takes_the_last_of_equal_maxima() {
    let jobs = [Job::new(0, 7, 0), Job::new(1, 2, 0), Job::new(2, 7, 0), Job::new(3, 1, 0)];
    assert_eq!(dominant_index(&jobs), 2);
    let jobs = [Job::new(0, 3, 0), Job::new(1, 3, 0), Job::new(2, 3, 0)];
    assert_eq!(dominant_index(&jobs), 2);
    for _ in 0..3 {
        assert_eq!(dominant_index(&jobs), 2);
    }
}

#[test]
fn dominant_index_of_one_job() {
    assert_eq!(dominant_index(&[Job::new(0, 0, 0)]), 0);
}

#[test]
fn should_postpone_compares_the_two_orders_of_the_pair() {
    let m = Job::new(0, 10, 5);
    let c = Job::new(1, 1, 6);
    assert!(should_postpone(m, c, 0));
    let m = Job::new(0, 4, 5);
    let c = Job::new(2, 3, 9);
    assert!(!should_postpone(m, c, 2));
}

#[test]
fn should_postpone_is_false_on_equal_cost() {
    let m = Job::new(0, 5, 100);
    let c = Job::new(1, 1, 100);
    assert!(!should_postpone(m, c, 0));
}

#[test]
fn should_postpone_takes_the_widest_inputs() {
    let m = Job::new(0, usize::MAX, 0);
    let c = Job::new(1, usize::MAX, 0);
    let t = u128::MAX - 2 * (usize::MAX as u128);
    assert!(!should_postpone(m, c, t));
    let c = Job::new(1, 1, 0);
    assert!(should_postpone(m, c, 0));
}

#[test]
fn place_dominant_moves_the_long_job_behind_the_short_ones() {
    let mut jobs = [Job::new(0, 10, 5), Job::new(1, 1, 6), Job::new(2, 1, 7)];
    let (slot, finish) = place_dominant(&mut jobs, 0);
    assert_eq!((slot, finish), (2, 12));
    assert_eq!(fields(&jobs), vec![(1, 1, 6), (2, 1, 7), (0, 10, 5)]);
}

#[test]
fn place_dominant_leaves_the_job_where_no_move_pays() {
    let mut jobs = [Job::new(1, 2, 2), Job::new(0, 4, 5), Job::new(2, 3, 9)];
    let (slot, finish) = place_dominant(&mut jobs, 0);
    assert_eq!((slot, finish), (1, 6));
    assert_eq!(fields(&jobs), vec![(1, 2, 2), (0, 4, 5), (2, 3, 9)]);
}

#[test]
fn place_dominant_counts_from_the_start_time() {
    let mut jobs = [Job::new(0, 3, 50), Job::new(1, 1, 50)];
    let (slot, finish) = place_dominant(&mut jobs, 100);
    assert_eq!((slot, finish), (1, 104));
    assert_eq!(fields(&jobs), vec![(1, 1, 50), (0, 3, 50)]);
}

#[test]
fn sort_leaves_short_windows_alone() {
    let mut none: [Job; 0] = [];
    sort(&mut none, 3);
    let mut one = [Job::new(4, 2, 9)];
    sort(&mut one, 3);
    assert_eq!(fields(&one), vec![(4, 2, 9)]);
}

#[test]
fn sort_reorders_a_window_from_time_zero() {
    let mut jobs = [
        Job::new(0, 5, 100),
        Job::new(1, 9, 2),
        Job::new(2, 1, 14),
        Job::new(3, 1, 15),
        Job::new(4, 9, 30),
        Job::new(5, 2, 16),
    ];
    sort(&mut jobs, 0);
    let ids: Vec<usize> = jobs.iter().map(|j| j.id).collect();
    assert_eq!(ids, vec![0, 1, 2, 3, 5, 4]);
}

#[test]
fn sort_depends_on_the_start_time() {
    let mut jobs = [
        Job::new(0, 5, 100),
        Job::new(1, 9, 2),
        Job::new(2, 1, 14),
        Job::new(3, 1, 15),
        Job::new(4, 9, 30),
        Job::new(5, 2, 16),
    ];
    sort(&mut jobs, 7);
    let ids: Vec<usize> = jobs.iter().map(|j| j.id).collect();
    assert_eq!(ids, vec![0, 2, 3, 5, 1, 4]);
}

#[test]
fn sort_keeps_every_job() {
    let mut jobs: Vec<Job> =
        (0..300).map(|i| Job::new(i, (i * 31 + 7) % 17, (i * 13 + 5) % 400)).collect();
    let mut before = fields(&jobs);
    sort(&mut jobs, 0);
    let mut after = fields(&jobs);
    before.sort();
    after.sort();
    assert_eq!(before, after);
}

#[test]
fn sort_handles_a_long_ascending_window() {
    let mut jobs: Vec<Job> = (0..5000).map(|i| Job::new(i, i, 0)).collect();
    sort(&mut jobs, 0);
    assert_eq!(jobs.len(), 5000);
    assert_eq!(jobs[4999].p_time, 4999);
}
