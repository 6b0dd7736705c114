//! A job, and the time a sequence of jobs keeps the machine busy.

use vstd::prelude::*;

verus! {

/// One job to be run on the machine.
///
/// The identifier is a label that is handed back to the caller: no decision
/// reads it. A job never changes; only its place in a sequence does.
#[derive(Clone, Copy, Debug)]
pub struct Job {
    pub id: usize,
    pub p_time: usize,
    pub due: usize,
}

impl Job {
    /// A job with the given label, processing time and due date.
    pub fn new(id: usize, p_time: usize, due: usize) -> (job: Job)
        ensures
            job == (Job { id, p_time, due }),
    {
        Job { id, p_time, due }
    }
}

/// The time the machine needs to run all jobs of `w` back to back.
///
/// A job at position `i` of a sequence that starts at time `s` therefore
/// completes at `s + total_time(w.take(i + 1))`.
pub open spec fn total_time(w: Seq<Job>) -> int
    decreases w.len(),
{
    if w.len() == 0 {
        0
    } else {
        total_time(w.drop_last()) + w.last().p_time
    }
}

/// The labels of the jobs of `w`, in the order of `w`.
pub open spec fn ids_of(w: Seq<Job>) -> Seq<usize> {
    w.map_values(|j: Job| j.id)
}

/// The jobs that three index-aligned sequences describe: position `i` of each
/// of them speaks of one job. The length is that of `ids`.
pub open spec fn jobs_from(ids: Seq<usize>, p_times: Seq<usize>, dues: Seq<usize>) -> Seq<Job> {
    Seq::new(ids.len(), |i: int| Job { id: ids[i], p_time: p_times[i], due: dues[i] })
}

/// Running two sequences one after the other takes the sum of their times.
pub proof fn lemma_total_time_concat(a: Seq<Job>, b: Seq<Job>)
    ensures
        total_time(a + b) == total_time(a) + total_time(b),
    decreases b.len(),
{
    if b.len() == 0 {
        assert(a + b =~= a);
    } else {
        assert((a + b).drop_last() =~= a + b.drop_last());
        lemma_total_time_concat(a, b.drop_last());
    }
}

/// No time is negative, and none exceeds what as many jobs of the longest
/// representable processing time would take.
pub proof fn lemma_total_time_bounds(w: Seq<Job>)
    ensures
        0 <= total_time(w) <= w.len() * usize::MAX,
    decreases w.len(),
{
    if w.len() > 0 {
        lemma_total_time_bounds(w.drop_last());
        assert((w.len() - 1) * usize::MAX + usize::MAX == w.len() * usize::MAX)
            by (nonlinear_arith);
    }
}

/// A sequence cut at `i` takes the time of its two parts.
pub proof fn lemma_total_time_split(w: Seq<Job>, i: int)
    requires
        0 <= i <= w.len(),
    ensures
        total_time(w) == total_time(w.take(i)) + total_time(w.skip(i)),
        0 <= total_time(w.take(i)) <= total_time(w),
        0 <= total_time(w.skip(i)) <= total_time(w),
{
    assert(w =~= w.take(i) + w.skip(i));
    lemma_total_time_concat(w.take(i), w.skip(i));
    lemma_total_time_bounds(w.take(i));
    lemma_total_time_bounds(w.skip(i));
}

/// The time up to and including position `i` is the time before it plus the
/// processing time of the job at `i`.
pub proof fn lemma_total_time_step(w: Seq<Job>, i: int)
    requires
        0 <= i < w.len(),
    ensures
        total_time(w.take(i + 1)) == total_time(w.take(i)) + w[i].p_time,
{
    assert(w.take(i + 1).drop_last() =~= w.take(i));
}

/// Taking a job out of a sequence saves its processing time.
pub proof fn lemma_total_time_remove(w: Seq<Job>, k: int)
    requires
        0 <= k < w.len(),
    ensures
        total_time(w.remove(k)) == total_time(w) - w[k].p_time,
{
    lemma_total_time_step(w, k);
    lemma_total_time_split(w, k + 1);
    assert(w.remove(k) =~= w.take(k) + w.skip(k + 1));
    lemma_total_time_concat(w.take(k), w.skip(k + 1));
}

/// Putting a job into a sequence adds its processing time.
pub proof fn lemma_total_time_insert(w: Seq<Job>, i: int, job: Job)
    requires
        0 <= i <= w.len(),
    ensures
        total_time(w.insert(i, job)) == total_time(w) + job.p_time,
{
    assert(w.insert(i, job).remove(i) =~= w);
    lemma_total_time_remove(w.insert(i, job), i);
}

/// However many jobs a slice holds, their total time fits in 128 bits, and so
/// does every completion time counted from a start that fits in a `usize`.
pub proof fn lemma_total_time_fits(w: Seq<Job>)
    requires
        w.len() <= usize::MAX,
    ensures
        usize::MAX + total_time(w) <= u128::MAX,
{
    lemma_total_time_bounds(w);
    let n: int = w.len() as int;
    let m: int = usize::MAX as int;
    assert(m <= 0xffff_ffff_ffff_ffff);
    assert(m + n * m <= 0xffff_ffff_ffff_ffff + 0xffff_ffff_ffff_ffff * 0xffff_ffff_ffff_ffff)
        by (nonlinear_arith)
        requires
            0 <= n <= m,
            m <= 0xffff_ffff_ffff_ffff,
    ;
}

} // verus!
