use smsp::edd::edd_sort;
use smsp::job::Job;

fn fields(jobs: &[Job]) -> Vec<(usize, usize, usize)> {
    jobs.iter().map(|j| (j.id, j.p_time, j.due)).collect()
}

#[test]
fn edd_sort_orders_by_due_date() {
    let mut jobs = [Job::new(0, 4, 5), Job::new(1, 2, 2), Job::new(2, 3, 9)];
    edd_sort(&mut jobs);
    assert_eq!(fields(&jobs), vec![(1, 2, 2), (0, 4, 5), (2, 3, 9)]);
}

#[test]
fn edd_sort_keeps_jobs_with_one_due_date_in_order() {
    let mut jobs = [
        Job::new(0, 1, 7),
        Job::new(1, 2, 3),
        Job::new(2, 3, 7),
        Job::new(3, 4, 3),
        Job::new(4, 5, 7),
        Job::new(5, 6, 1),
        Job::new(6, 7, 3),
    ];
    edd_sort(&mut jobs);
    let ids: Vec<usize> = jobs.iter().map(|j| j.id).collect();
    assert_eq!(ids, vec![5, 1, 3, 6, 0, 2, 4]);
}

#[test]
fn edd_sort_leaves_short_inputs_alone() {
    let mut none: [Job; 0] = [];
    edd_sort(&mut none);
    let mut one = [Job::new(4, 2, 9)];
    edd_sort(&mut one);
    assert_eq!(fields(&one), vec![(4, 2, 9)]);
}

#[test]
fn edd_sort_reverses_a_descending_input() {
    let mut jobs: Vec<Job> = (0..9).map(|i| Job::new(i, 1, 100 - i)).collect();
    edd_sort(&mut jobs);
    let ids: Vec<usize> = jobs.iter().map(|j| j.id).collect();
    assert_eq!(ids, vec![8, 7, 6, 5, 4, 3, 2, 1, 0]);
}

#[test]
fn edd_sort_agrees_with_a_stable_sort() {
    let mut jobs: Vec<Job> = (0..200).map(|i| Job::new(i, i % 7, (i * 37 + 11) % 23)).collect();
    let mut expected = fields(&jobs);
    expected.sort_by_key(|j| j.2);
    edd_sort(&mut jobs);
    assert_eq!(fields(&jobs), expected);
}
