//! The whole computation: from three aligned sequences that describe the jobs
//! to the order in which to run them and the total tardiness of that order.

use vstd::prelude::*;
use vstd::seq_lib::{to_multiset_build, to_multiset_contains, to_multiset_insert, to_multiset_len,
    to_multiset_remove};
use crate::edd::{edd_order, edd_sort, lemma_edd_order_permutes};
use crate::engine::{lemma_reorder_permutes, reorder, sort};
use crate::job::{ids_of, jobs_from, Job};
use crate::tardiness::{calc_delay, total_tardiness};

verus! {

/// Why no schedule was computed.
#[derive(Clone, Copy, Debug, PartialEq, Eq)]
pub enum SolveError {
    /// The three input sequences are not of one length.
    LengthMismatch,
    /// The total tardiness of the schedule does not fit in a `usize`.
    Overflow,
}

/// The order in which the heuristic runs `jobs`: their earliest-due-date
/// order, reordered as one window that starts at time zero.
pub open spec fn schedule(jobs: Seq<Job>) -> Seq<Job> {
    reorder(edd_order(jobs), 0)
}

/// Whether three sequences can describe jobs: whether they are of one length.
pub open spec fn aligned(ids: Seq<usize>, p_times: Seq<usize>, dues: Seq<usize>) -> bool {
    ids.len() == p_times.len() && ids.len() == dues.len()
}

/// The schedule runs every job it was given, each as often as it was given.
pub proof fn lemma_schedule_permutes(jobs: Seq<Job>)
    ensures
        schedule(jobs).to_multiset() == jobs.to_multiset(),
        schedule(jobs).len() == jobs.len(),
{
    lemma_edd_order_permutes(jobs);
    lemma_reorder_permutes(edd_order(jobs), 0);
}

/// Two sequences of the same jobs carry the same labels, each as often in
/// the one as in the other.
pub proof fn lemma_same_jobs_same_ids(a: Seq<Job>, b: Seq<Job>)
    requires
        a.to_multiset() == b.to_multiset(),
    ensures
        ids_of(a).to_multiset() == ids_of(b).to_multiset(),
    decreases a.len(),
{
    to_multiset_len(a);
    to_multiset_len(b);
    if a.len() == 0 {
        assert(ids_of(a) =~= ids_of(b));
    } else {
        let x: Job = a.last();
        let a0: Seq<Job> = a.drop_last();
        assert(a =~= a0.push(x));
        to_multiset_build(a0, x);
        to_multiset_contains(b, x);
        assert(b.contains(x));
        let i: int = choose|i: int| 0 <= i < b.len() && b[i] == x;
        let b0: Seq<Job> = b.remove(i);
        to_multiset_remove(b, i);
        assert(a0.to_multiset() =~= b0.to_multiset());
        lemma_same_jobs_same_ids(a0, b0);
        assert(ids_of(a) =~= ids_of(a0).push(x.id));
        assert(ids_of(b) =~= ids_of(b0).insert(i, x.id));
        to_multiset_build(ids_of(a0), x.id);
        to_multiset_insert(ids_of(b0), i, x.id);
    }
}

/// The labels that come back are the labels that went in: the order that
/// `solve` returns is a permutation of `ids`.
pub proof fn lemma_schedule_permutes_ids(ids: Seq<usize>, p_times: Seq<usize>, dues: Seq<usize>)
    requires
        aligned(ids, p_times, dues),
    ensures
        ids_of(schedule(jobs_from(ids, p_times, dues))).to_multiset() == ids.to_multiset(),
        ids_of(schedule(jobs_from(ids, p_times, dues))).len() == ids.len(),
{
    let jobs: Seq<Job> = jobs_from(ids, p_times, dues);
    lemma_schedule_permutes(jobs);
    lemma_same_jobs_same_ids(schedule(jobs), jobs);
    assert(ids_of(jobs) =~= ids);
}

/// The reported total can be had again from the returned labels alone. Where
/// no label is given twice, the given jobs taken in the order of the returned
/// labels are the schedule itself, and evaluating them gives the total that
/// `solve` reports.
pub proof fn lemma_round_trip(
    ids: Seq<usize>,
    p_times: Seq<usize>,
    dues: Seq<usize>,
    replay: Seq<Job>,
)
    requires
        aligned(ids, p_times, dues),
        ids.no_duplicates(),
        ids_of(replay) == ids_of(schedule(jobs_from(ids, p_times, dues))),
        forall|i: int| 0 <= i < replay.len() ==> jobs_from(ids, p_times, dues).contains(replay[i]),
    ensures
        replay == schedule(jobs_from(ids, p_times, dues)),
        total_tardiness(replay, 0) == total_tardiness(schedule(jobs_from(ids, p_times, dues)), 0),
{
    let given: Seq<Job> = jobs_from(ids, p_times, dues);
    let run: Seq<Job> = schedule(given);
    lemma_schedule_permutes(given);
    assert(replay.len() == ids_of(replay).len());
    assert(run.len() == ids_of(run).len());
    assert forall|i: int| 0 <= i < replay.len() implies replay[i] == run[i] by {
        assert(ids_of(replay)[i] == replay[i].id);
        assert(ids_of(run)[i] == run[i].id);
        to_multiset_contains(run, run[i]);
        to_multiset_contains(given, run[i]);
        assert(run.contains(run[i]));
        assert(given.contains(run[i]));
        let a: int = choose|a: int| 0 <= a < given.len() && given[a] == replay[i];
        let b: int = choose|b: int| 0 <= b < given.len() && given[b] == run[i];
        assert(ids[a] == ids[b]);
    }
    assert(replay =~= run);
}

/// Computes a run order for the jobs that `ids`, `processing_times` and
/// `due_dates` describe position by position, and the total tardiness of that
/// order when it starts at time zero.
///
/// The call fails with `LengthMismatch` exactly when the three sequences are
/// not of one length, and with `Overflow` exactly when they are and the total
/// tardiness of the schedule exceeds `usize::MAX`.
pub fn solve(ids: &[usize], processing_times: &[usize], due_dates: &[usize]) -> (result: Result<
    (Vec<usize>, usize),
    SolveError,
>)
    ensures
        match result {
            Ok((order, total)) => {
                &&& aligned(ids@, processing_times@, due_dates@)
                &&& order@ == ids_of(schedule(jobs_from(ids@, processing_times@, due_dates@)))
                &&& total == total_tardiness(
                    schedule(jobs_from(ids@, processing_times@, due_dates@)),
                    0,
                )
                &&& order@.to_multiset() == ids@.to_multiset()
                &&& order@.len() == ids@.len()
            },
            Err(SolveError::LengthMismatch) => !aligned(ids@, processing_times@, due_dates@),
            Err(SolveError::Overflow) => {
                &&& aligned(ids@, processing_times@, due_dates@)
                &&& total_tardiness(schedule(jobs_from(ids@, processing_times@, due_dates@)), 0)
                    > usize::MAX
            },
        },
{
    let n: usize = ids.len();
    if processing_times.len() != n || due_dates.len() != n {
        return Err(SolveError::LengthMismatch);
    }
    let ghost given: Seq<Job> = jobs_from(ids@, processing_times@, due_dates@);
    let mut jobs: Vec<Job> = Vec::new();
    let mut i: usize = 0;
    while i < n
        invariant
            n == ids@.len(),
            n == processing_times@.len(),
            n == due_dates@.len(),
            given == jobs_from(ids@, processing_times@, due_dates@),
            i <= n,
            jobs@ == given.take(i as int),
        decreases n - i,
    {
        jobs.push(Job::new(ids[i], processing_times[i], due_dates[i]));
        assert(jobs@ =~= given.take(i as int + 1));
        i = i + 1;
    }
    assert(jobs@ =~= given);
    edd_sort(jobs.as_mut_slice());
    sort(jobs.as_mut_slice(), 0);
    assert(jobs@ == schedule(given));
    proof {
        lemma_schedule_permutes_ids(ids@, processing_times@, due_dates@);
    }
    match calc_delay(jobs.as_slice()) {
        None => Err(SolveError::Overflow),
        Some(total) => {
            let mut order: Vec<usize> = Vec::new();
            let mut k: usize = 0;
            while k < n
                invariant
                    n == jobs@.len(),
                    k <= n,
                    order@ == ids_of(jobs@).take(k as int),
                decreases n - k,
            {
                order.push(jobs[k].id);
                assert(order@ =~= ids_of(jobs@).take(k as int + 1));
                k = k + 1;
            }
            assert(order@ =~= ids_of(jobs@));
            Ok((order, total))
        },
    }
}

} // verus!
