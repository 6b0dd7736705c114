//! The reordering heuristic.
//!
//! A window of jobs is reordered around its dominant job, the one that takes
//! longest. That job is moved to the right for as long as running it after its
//! next neighbour makes the two of them less tardy together; the jobs that end
//! up before it and those that end up after it are then reordered on their own.

use vstd::prelude::*;
use vstd::seq_lib::{lemma_multiset_commutative, to_multiset_contains, to_multiset_insert,
    to_multiset_remove};
use crate::job::{lemma_total_time_fits, lemma_total_time_insert, lemma_total_time_remove,
    lemma_total_time_split, lemma_total_time_step, total_time, Job};
use crate::tardiness::{late_by, tardiness};

verus! {

/// `k` is the position of the dominant job of `w`: no job of `w` takes longer
/// than the one at `k`, and every job behind it takes strictly less. Of several
/// jobs that take longest, the dominant one is thus the last.
pub open spec fn is_dominant(w: Seq<Job>, k: int) -> bool {
    &&& 0 <= k < w.len()
    &&& forall|i: int| 0 <= i < w.len() ==> w[i].p_time <= w[k].p_time
    &&& forall|i: int| k < i < w.len() ==> w[i].p_time < w[k].p_time
}

/// The position of the dominant job of a window that is not empty.
pub open spec fn dominant(w: Seq<Job>) -> int {
    choose|k: int| is_dominant(w, k)
}

/// What the pair costs when candidate `c` runs at `t` and the dominant job `m`
/// right after it.
pub open spec fn swapped_cost(m: Job, c: Job, t: int) -> int {
    tardiness(t + c.p_time, c.due as int) + tardiness(t + c.p_time + m.p_time, m.due as int)
}

/// What the pair costs when the dominant job `m` runs at `t` and candidate `c`
/// right after it.
pub open spec fn kept_cost(m: Job, c: Job, t: int) -> int {
    tardiness(t + m.p_time, m.due as int) + tardiness(t + c.p_time + m.p_time, c.due as int)
}

/// Whether letting `c` pass before `m` makes the two strictly less tardy.
pub open spec fn postponing_pays(m: Job, c: Job, t: int) -> bool {
    swapped_cost(m, c, t) < kept_cost(m, c, t)
}

/// Where the dominant job `m` comes to rest among the other jobs `rest` of its
/// window, when it stands before position `from` of them and would start at
/// `t`: before the first job from there on that it does not pay to let pass, or
/// behind all of them.
pub open spec fn landing(rest: Seq<Job>, m: Job, from: int, t: int) -> int
    decreases rest.len() - from,
{
    if 0 <= from < rest.len() && postponing_pays(m, rest[from], t) {
        landing(rest, m, from + 1, t + rest[from].p_time)
    } else {
        from
    }
}

/// The position that the dominant job of `w` takes when `w` starts at `start`.
pub open spec fn slot_of(w: Seq<Job>, start: int) -> int {
    let k: int = dominant(w);
    landing(w.remove(k), w[k], k, start + total_time(w.take(k)))
}

/// The window `w` with its dominant job moved to its final position; the
/// other jobs keep their order.
pub open spec fn placed(w: Seq<Job>, start: int) -> Seq<Job> {
    let k: int = dominant(w);
    w.remove(k).insert(slot_of(w, start), w[k])
}

/// The order that the heuristic gives to the window `w` whose first job
/// starts at `start`.
///
/// The jobs before the final position of the dominant job are reordered as a
/// window that starts at `start`, those behind it as a window that starts when
/// the dominant job completes.
pub open spec fn reorder(w: Seq<Job>, start: int) -> Seq<Job>
    decreases w.len(),
    via reorder_decreases
{
    if w.len() <= 1 {
        w
    } else {
        let s: int = slot_of(w, start);
        let p: Seq<Job> = placed(w, start);
        reorder(p.take(s), start) + seq![p[s]] + reorder(
            p.skip(s + 1),
            start + total_time(p.take(s + 1)),
        )
    }
}

#[via_fn]
proof fn reorder_decreases(w: Seq<Job>, start: int) {
    if w.len() > 1 {
        lemma_placed(w, start);
    }
}

/// Every window that is not empty has a dominant job.
pub proof fn lemma_dominant_exists(w: Seq<Job>)
    requires
        w.len() > 0,
    ensures
        is_dominant(w, dominant(w)),
    decreases w.len(),
{
    if w.len() == 1 {
        assert(is_dominant(w, 0));
    } else {
        let v: Seq<Job> = w.drop_last();
        lemma_dominant_exists(v);
        let k: int = dominant(v);
        assert forall|i: int| 0 <= i < v.len() implies w[i].p_time <= v[k].p_time by {
            assert(w[i] == v[i]);
        }
        assert forall|i: int| k < i < v.len() implies w[i].p_time < v[k].p_time by {
            assert(w[i] == v[i]);
        }
        if w.last().p_time >= v[k].p_time {
            assert(is_dominant(w, w.len() - 1));
        } else {
            assert(is_dominant(w, k));
        }
    }
}

/// A window has one dominant job only: which job is selected depends on
/// nothing but the processing times and their positions.
pub proof fn lemma_dominant_unique(w: Seq<Job>, a: int, b: int)
    requires
        is_dominant(w, a),
        is_dominant(w, b),
    ensures
        a == b,
        a == dominant(w),
{
    lemma_dominant_exists(w);
    let k: int = dominant(w);
    assert(w[a].p_time <= w[k].p_time && w[k].p_time <= w[a].p_time);
    assert(w[b].p_time <= w[k].p_time && w[k].p_time <= w[b].p_time);
}

/// Of two jobs with the same processing time, the earlier one is never the
/// dominant job: among the jobs that take longest the last one is selected.
pub proof fn lemma_tie_goes_to_last(w: Seq<Job>, i: int, j: int)
    requires
        0 <= i < j < w.len(),
        w[i].p_time == w[j].p_time,
    ensures
        dominant(w) != i,
        (forall|x: int| 0 <= x < w.len() ==> w[x].p_time <= w[j].p_time) ==> dominant(w) >= j,
{
    lemma_dominant_exists(w);
}

/// The dominant job never moves to the left, and never out of its window.
pub proof fn lemma_landing_range(rest: Seq<Job>, m: Job, from: int, t: int)
    requires
        0 <= from <= rest.len(),
    ensures
        from <= landing(rest, m, from, t) <= rest.len(),
    decreases rest.len() - from,
{
    if from < rest.len() && postponing_pays(m, rest[from], t) {
        lemma_landing_range(rest, m, from + 1, t + rest[from].p_time);
    }
}

/// What placing the dominant job does to a window: the job lands at its slot,
/// which is not left of where it stood; the jobs on either side of the slot are
/// the other jobs in their old order; and the window keeps its jobs and the
/// time it takes.
pub proof fn lemma_placed(w: Seq<Job>, start: int)
    requires
        w.len() > 0,
    ensures
        dominant(w) <= slot_of(w, start) < w.len(),
        placed(w, start).len() == w.len(),
        placed(w, start)[slot_of(w, start)] == w[dominant(w)],
        placed(w, start).take(slot_of(w, start)) == w.remove(dominant(w)).take(
            slot_of(w, start),
        ),
        placed(w, start).skip(slot_of(w, start) + 1) == w.remove(dominant(w)).skip(
            slot_of(w, start),
        ),
        placed(w, start).to_multiset() == w.to_multiset(),
        total_time(placed(w, start)) == total_time(w),
{
    lemma_dominant_exists(w);
    let k: int = dominant(w);
    let rest: Seq<Job> = w.remove(k);
    let s: int = slot_of(w, start);
    lemma_landing_range(rest, w[k], k, start + total_time(w.take(k)));
    let p: Seq<Job> = placed(w, start);
    assert(p.take(s) =~= rest.take(s));
    assert(p.skip(s + 1) =~= rest.skip(s));
    to_multiset_remove(w, k);
    to_multiset_insert(rest, s, w[k]);
    assert(w.to_multiset().count(w[k]) > 0) by {
        to_multiset_contains(w, w[k]);
        assert(w.contains(w[k]));
    }
    assert(p.to_multiset() =~= w.to_multiset());
    lemma_total_time_remove(w, k);
    lemma_total_time_insert(rest, s, w[k]);
}

/// Reordering a window neither drops a job nor adds one: the result holds the
/// jobs of the window, each as often as the window does.
pub proof fn lemma_reorder_permutes(w: Seq<Job>, start: int)
    ensures
        reorder(w, start).to_multiset() == w.to_multiset(),
        reorder(w, start).len() == w.len(),
    decreases w.len(),
{
    if w.len() > 1 {
        lemma_placed(w, start);
        let s: int = slot_of(w, start);
        let p: Seq<Job> = placed(w, start);
        let left: Seq<Job> = p.take(s);
        let right: Seq<Job> = p.skip(s + 1);
        let one: Seq<Job> = seq![p[s]];
        let t: int = start + total_time(p.take(s + 1));
        lemma_reorder_permutes(left, start);
        lemma_reorder_permutes(right, t);
        assert(p =~= left + one + right);
        lemma_multiset_commutative(left + one, right);
        lemma_multiset_commutative(left, one);
        lemma_multiset_commutative(reorder(left, start) + one, reorder(right, t));
        lemma_multiset_commutative(reorder(left, start), one);
        assert(reorder(w, start).to_multiset() =~= p.to_multiset());
    }
}

/// Whether `a + b` is less than `x + y`, decided without forming a sum.
fn sum_less(a: u128, b: u128, x: u128, y: u128) -> (less: bool)
    ensures
        less == (a + b < x + y),
{
    if a >= x {
        b < y && a - x < y - b
    } else {
        b <= y || b - y < x - a
    }
}

/// Decides whether the dominant job `m`, which would start at `t`, lets the
/// candidate `c` pass.
pub fn should_postpone(m: Job, c: Job, t: u128) -> (pays: bool)
    requires
        t + c.p_time + m.p_time <= u128::MAX,
    ensures
        pays == postponing_pays(m, c, t as int),
{
    let c_first: u128 = t + c.p_time as u128;
    let m_first: u128 = t + m.p_time as u128;
    let both: u128 = c_first + m.p_time as u128;
    sum_less(
        late_by(c_first, c.due),
        late_by(both, m.due),
        late_by(m_first, m.due),
        late_by(both, c.due),
    )
}

/// The position of the dominant job of `jobs`.
pub fn dominant_index(jobs: &[Job]) -> (k: usize)
    requires
        jobs@.len() > 0,
    ensures
        is_dominant(jobs@, k as int),
        k == dominant(jobs@),
{
    let n: usize = jobs.len();
    let mut k: usize = 0;
    let mut i: usize = 1;
    assert(is_dominant(jobs@.take(1), 0));
    while i < n
        invariant
            n == jobs@.len(),
            1 <= i <= n,
            is_dominant(jobs@.take(i as int), k as int),
        decreases n - i,
    {
        let ghost seen: Seq<Job> = jobs@.take(i as int);
        let ghost more: Seq<Job> = jobs@.take(i as int + 1);
        if jobs[i].p_time >= jobs[k].p_time {
            assert(is_dominant(more, i as int)) by {
                assert forall|x: int| 0 <= x < more.len() implies more[x].p_time
                    <= more[i as int].p_time by {
                    if x < i {
                        assert(seen[x].p_time <= seen[k as int].p_time);
                    }
                }
            }
            k = i;
        } else {
            assert(is_dominant(more, k as int)) by {
                assert forall|x: int| 0 <= x < more.len() implies more[x].p_time
                    <= more[k as int].p_time by {
                    if x < i {
                        assert(seen[x].p_time <= seen[k as int].p_time);
                    }
                }
                assert forall|x: int| k < x < more.len() implies more[x].p_time
                    < more[k as int].p_time by {
                    if x < i {
                        assert(seen[x].p_time < seen[k as int].p_time);
                    }
                }
            }
        }
        i = i + 1;
    }
    proof {
        assert(jobs@.take(n as int) =~= jobs@);
        lemma_dominant_unique(jobs@, k as int, k as int);
    }
    k
}

/// The time that the first `k` jobs of `jobs` take.
fn time_before(jobs: &[Job], k: usize) -> (t: u128)
    requires
        k <= jobs@.len(),
    ensures
        t == total_time(jobs@.take(k as int)),
{
    let n: usize = jobs.len();
    let mut t: u128 = 0;
    let mut i: usize = 0;
    while i < k
        invariant
            n == jobs@.len(),
            i <= k <= n,
            t == total_time(jobs@.take(i as int)),
        decreases k - i,
    {
        proof {
            lemma_total_time_step(jobs@, i as int);
            lemma_total_time_split(jobs@, i as int + 1);
            lemma_total_time_fits(jobs@);
        }
        t = t + jobs[i].p_time as u128;
        i = i + 1;
    }
    t
}

/// Moves the dominant job of `jobs` to its final position, each job that it
/// passes one place to the left, and returns that position together with the
/// time at which the dominant job completes there.
pub fn place_dominant(jobs: &mut [Job], start: u128) -> (at: (usize, u128))
    requires
        old(jobs)@.len() > 0,
        start + total_time(old(jobs)@) <= u128::MAX,
    ensures
        at.0 == slot_of(old(jobs)@, start as int),
        final(jobs)@ == placed(old(jobs)@, start as int),
        at.1 == start + total_time(final(jobs)@.take(at.0 + 1)),
{
    let n: usize = jobs.len();
    let k: usize = dominant_index(jobs);
    let m: Job = jobs[k];
    let ghost w: Seq<Job> = jobs@;
    let ghost rest: Seq<Job> = w.remove(k as int);
    proof {
        lemma_total_time_split(w, k as int);
        lemma_total_time_remove(w, k as int);
        assert(rest.take(k as int) =~= w.take(k as int));
    }
    let mut t: u128 = start + time_before(jobs, k);
    let mut tgt: usize = k + 1;
    while tgt < n
        invariant
            n == jobs@.len(),
            n == w.len(),
            k < tgt <= n,
            rest == w.remove(k as int),
            m == w[k as int],
            jobs@.remove(tgt - 1) == rest,
            t == start + total_time(rest.take(tgt - 1)),
            landing(rest, m, tgt - 1, t as int) == slot_of(w, start as int),
            total_time(rest) + m.p_time == total_time(w),
            start + total_time(w) <= u128::MAX,
        ensures
            tgt - 1 == slot_of(w, start as int),
        decreases n - tgt,
    {
        let c: Job = jobs[tgt];
        proof {
            assert(c == rest[tgt - 1]);
            lemma_total_time_step(rest, tgt - 1);
            lemma_total_time_split(rest, tgt as int);
        }
        if !should_postpone(m, c, t) {
            break ;
        }
        t = t + c.p_time as u128;
        let ghost before: Seq<Job> = jobs@;
        jobs[tgt - 1] = c;
        assert(jobs@.remove(tgt as int) =~= before.remove(tgt - 1));
        tgt = tgt + 1;
    }
    let ghost before: Seq<Job> = jobs@;
    jobs[tgt - 1] = m;
    proof {
        assert(jobs@ =~= before.remove(tgt - 1).insert(tgt - 1, m));
        lemma_total_time_step(jobs@, tgt - 1);
        assert(jobs@.take(tgt - 1) =~= rest.take(tgt - 1));
        lemma_total_time_split(rest, tgt - 1);
    }
    t = t + m.p_time as u128;
    (tgt - 1, t)
}

/// Reorders the window `jobs`, whose first job starts at `start`.
///
/// After each placement the shorter side is reordered by a call of this
/// function and the longer side in the next round of the loop, so that the
/// calls never nest deeper than the logarithm of the window's length.
fn sort_window(jobs: &mut [Job], start: u128)
    requires
        start + total_time(old(jobs)@) <= u128::MAX,
    ensures
        final(jobs)@ == reorder(old(jobs)@, start as int),
    decreases old(jobs)@.len(),
{
    let ghost target: Seq<Job> = reorder(jobs@, start as int);
    let ghost settled: Seq<Job> = final(jobs)@;
    let ghost mut before: Seq<Job> = Seq::empty();
    let ghost mut after: Seq<Job> = Seq::empty();
    let mut w: &mut [Job] = jobs;
    let mut t: u128 = start;
    proof {
        assert(target =~= before + reorder(w@, t as int) + after);
    }
    while w.len() > 1
        invariant
            settled == before + final(w)@ + after,
            target == before + reorder(w@, t as int) + after,
            t + total_time(w@) <= u128::MAX,
            w@.len() <= old(jobs)@.len(),
        decreases w@.len(),
    {
        let ghost w0: Seq<Job> = w@;
        let (slot, finish) = place_dominant(w, t);
        let ghost p: Seq<Job> = w@;
        proof {
            lemma_placed(w0, t as int);
            lemma_total_time_split(p, slot as int);
            lemma_total_time_split(p, slot as int + 1);
        }
        let (left, tail) = w.split_at_mut(slot);
        let (mid, right) = tail.split_at_mut(1);
        let ghost one: Seq<Job> = mid@;
        proof {
            assert(left@ =~= p.take(slot as int));
            assert(one =~= seq![p[slot as int]]);
            assert(right@ =~= p.skip(slot as int + 1));
        }
        if left.len() <= right.len() {
            sort_window(left, t);
            proof {
                let done: Seq<Job> = reorder(p.take(slot as int), t as int);
                assert(settled =~= (before + done + one) + final(right)@ + after);
                assert(target =~= (before + done + one) + reorder(right@, finish as int) + after);
                before = before + done + one;
            }
            w = right;
            t = finish;
        } else {
            sort_window(right, finish);
            proof {
                let done: Seq<Job> = reorder(p.skip(slot as int + 1), finish as int);
                assert(settled =~= before + final(left)@ + (one + done + after));
                assert(target =~= before + reorder(left@, t as int) + (one + done + after));
                after = one + done + after;
            }
            w = left;
        }
    }
}

/// Reorders `jobs` in place, as the window whose first job starts at `start`.
pub fn sort(jobs: &mut [Job], start: usize)
    ensures
        final(jobs)@ == reorder(old(jobs)@, start as int),
        final(jobs)@.to_multiset() == old(jobs)@.to_multiset(),
        final(jobs)@.len() == old(jobs)@.len(),
{
    let n: usize = jobs.len();
    proof {
        assert(jobs@.len() == n);
        lemma_total_time_fits(jobs@);
        lemma_reorder_permutes(jobs@, start as int);
    }
    sort_window(jobs, start as u128);
}

} // verus!
