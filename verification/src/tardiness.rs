//! Tardiness: by how much a job overruns its due date, and the sum of that
//! over a sequence of jobs.

use vstd::prelude::*;
use crate::job::{lemma_total_time_concat, lemma_total_time_fits, lemma_total_time_split,
    lemma_total_time_step, total_time, Job};

verus! {

/// The tardiness of a job that completes at `finish` and was due at `due`:
/// the overrun, and zero for a job that is on time.
pub open spec fn tardiness(finish: int, due: int) -> int {
    if finish > due {
        finish - due
    } else {
        0
    }
}

/// The summed tardiness of the jobs of `w` when the first of them starts at
/// `start` and each of the others when the one before it completes.
pub open spec fn total_tardiness(w: Seq<Job>, start: int) -> int
    decreases w.len(),
{
    if w.len() == 0 {
        0
    } else {
        total_tardiness(w.drop_last(), start) + tardiness(
            start + total_time(w),
            w.last().due as int,
        )
    }
}

/// No sequence has a negative total tardiness.
pub proof fn lemma_total_tardiness_nonnegative(w: Seq<Job>, start: int)
    ensures
        total_tardiness(w, start) >= 0,
    decreases w.len(),
{
    if w.len() > 0 {
        lemma_total_tardiness_nonnegative(w.drop_last(), start);
    }
}

/// The tardiness of a sequence is that of its first part plus that of the rest,
/// the rest started when the first part completes.
pub proof fn lemma_total_tardiness_concat(a: Seq<Job>, b: Seq<Job>, start: int)
    ensures
        total_tardiness(a + b, start) == total_tardiness(a, start) + total_tardiness(
            b,
            start + total_time(a),
        ),
    decreases b.len(),
{
    if b.len() == 0 {
        assert(a + b =~= a);
    } else {
        assert((a + b).drop_last() =~= a + b.drop_last());
        lemma_total_tardiness_concat(a, b.drop_last(), start);
        lemma_total_time_concat(a, b);
    }
}

/// What the first `i` jobs of a sequence contribute never exceeds the total.
pub proof fn lemma_total_tardiness_prefix(w: Seq<Job>, start: int, i: int)
    requires
        0 <= i <= w.len(),
    ensures
        total_tardiness(w.take(i), start) <= total_tardiness(w, start),
{
    assert(w =~= w.take(i) + w.skip(i));
    lemma_total_tardiness_concat(w.take(i), w.skip(i), start);
    lemma_total_tardiness_nonnegative(w.skip(i), start + total_time(w.take(i)));
}

/// The tardiness of one job, computed without ever going below zero.
pub fn late_by(finish: u128, due: usize) -> (late: u128)
    ensures
        late == tardiness(finish as int, due as int),
{
    let due_wide: u128 = due as u128;
    if finish > due_wide {
        finish - due_wide
    } else {
        0
    }
}

/// The total tardiness of `jobs`, run in the given order from time zero.
///
/// The result is `None` exactly when the total does not fit in a `usize`.
pub fn calc_delay(jobs: &[Job]) -> (total: Option<usize>)
    ensures
        match total {
            Some(delay) => delay == total_tardiness(jobs@, 0),
            None => total_tardiness(jobs@, 0) > usize::MAX,
        },
{
    let n: usize = jobs.len();
    let mut delay: usize = 0;
    let mut t: u128 = 0;
    let mut i: usize = 0;
    while i < n
        invariant
            n == jobs@.len(),
            i <= n,
            t == total_time(jobs@.take(i as int)),
            delay == total_tardiness(jobs@.take(i as int), 0),
        decreases n - i,
    {
        let job: Job = jobs[i];
        proof {
            lemma_total_time_step(jobs@, i as int);
            lemma_total_time_split(jobs@, i as int + 1);
            lemma_total_time_fits(jobs@);
            assert(jobs@.take(i as int + 1).drop_last() =~= jobs@.take(i as int));
        }
        t = t + job.p_time as u128;
        let late: u128 = late_by(t, job.due);
        if late > (usize::MAX - delay) as u128 {
            proof {
                lemma_total_tardiness_prefix(jobs@, 0, i as int + 1);
            }
            return None;
        }
        delay = delay + late as usize;
        i = i + 1;
    }
    assert(jobs@.take(n as int) =~= jobs@);
    Some(delay)
}

} // verus!
