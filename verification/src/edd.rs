//! The earliest-due-date order: the jobs sorted by due date, jobs with the same
//! due date in the order in which they were given.

use vstd::prelude::*;
use crate::job::Job;

verus! {

/// No job of `r` stands before a job that is due earlier.
pub open spec fn due_sorted(r: Seq<Job>) -> bool {
    forall|i: int, j: int| 0 <= i < j < r.len() ==> r[i].due <= r[j].due
}

/// The jobs of `s` that are due at `due`, in the order of `s`.
pub open spec fn with_due(s: Seq<Job>, due: int) -> Seq<Job> {
    s.filter(|job: Job| job.due == due)
}

/// `r` is the earliest-due-date order of `s`: it is sorted by due date, and for
/// every due date it holds the jobs of `s` that are due then, in the order that
/// they have in `s`.
pub open spec fn is_edd_order(s: Seq<Job>, r: Seq<Job>) -> bool {
    &&& due_sorted(r)
    &&& forall|due: int| #[trigger] with_due(r, due) == with_due(s, due)
}

/// Where a job due at `due` is put into the sorted sequence `r`: behind the
/// last job that is not due later.
pub open spec fn rank_by_due(r: Seq<Job>, due: int) -> int
    decreases r.len(),
{
    if r.len() > 0 && r.last().due > due {
        rank_by_due(r.drop_last(), due)
    } else {
        r.len() as int
    }
}

/// The earliest-due-date order of `s`, built by putting the jobs of `s` one
/// after the other into a sorted sequence.
pub open spec fn edd_order(s: Seq<Job>) -> Seq<Job>
    decreases s.len(),
{
    if s.len() == 0 {
        s
    } else {
        let r: Seq<Job> = edd_order(s.drop_last());
        r.insert(rank_by_due(r, s.last().due as int), s.last())
    }
}

/// A sequence without a job due at `due` has nothing to show for that date.
pub proof fn lemma_with_due_none(s: Seq<Job>, due: int)
    requires
        forall|i: int| 0 <= i < s.len() ==> s[i].due != due,
    ensures
        with_due(s, due) == Seq::<Job>::empty(),
    decreases s.len(),
{
    reveal(Seq::filter);
    if s.len() > 0 {
        lemma_with_due_none(s.drop_last(), due);
    }
}

/// Every job of `with_due(s, due)` is a job of `s` that is due at `due`, and a
/// sequence with such a job has a last one to show.
pub proof fn lemma_with_due_some(s: Seq<Job>, due: int, i: int)
    requires
        0 <= i < s.len(),
        s[i].due == due,
    ensures
        with_due(s, due).len() > 0,
        with_due(s, due).last().due == due,
{
    let pred = |job: Job| job.due == due;
    s.lemma_filter_contains(pred, i);
    let f: Seq<Job> = with_due(s, due);
    assert(f.contains(s[i]));
    s.lemma_filter_pred(pred, f.len() - 1);
}

/// What one more job at the end adds to the jobs due at `due`.
pub proof fn lemma_with_due_push(s: Seq<Job>, job: Job, due: int)
    ensures
        with_due(s.push(job), due) == if job.due == due {
            with_due(s, due).push(job)
        } else {
            with_due(s, due)
        },
{
    s.lemma_filter_push(job, |x: Job| x.due == due);
}

/// The jobs due at `due` of two sequences put together.
pub proof fn lemma_with_due_concat(a: Seq<Job>, b: Seq<Job>, due: int)
    ensures
        with_due(a + b, due) == with_due(a, due) + with_due(b, due),
{
    Seq::filter_distributes_over_add(a, b, |x: Job| x.due == due);
}

/// The rank of a due date lies in the sequence, every job from it on is due
/// later, and in a sorted sequence no job before it is.
pub proof fn lemma_rank_by_due(r: Seq<Job>, due: int)
    ensures
        0 <= rank_by_due(r, due) <= r.len(),
        forall|i: int| rank_by_due(r, due) <= i < r.len() ==> r[i].due > due,
        due_sorted(r) ==> forall|i: int| 0 <= i < rank_by_due(r, due) ==> r[i].due <= due,
    decreases r.len(),
{
    if r.len() > 0 && r.last().due > due {
        lemma_rank_by_due(r.drop_last(), due);
        let p: int = rank_by_due(r, due);
        assert forall|i: int| p <= i < r.len() implies r[i].due > due by {
            if i < r.len() - 1 {
                assert(r.drop_last()[i].due > due);
            }
        }
        if due_sorted(r) {
            let front: Seq<Job> = r.drop_last();
            assert forall|a: int, b: int| 0 <= a < b < front.len() implies front[a].due
                <= front[b].due by {
                assert(r[a].due <= r[b].due);
            }
            assert forall|i: int| 0 <= i < p implies r[i].due <= due by {
                assert(front[i] == r[i]);
            }
        }
    } else if due_sorted(r) && r.len() > 0 {
        assert forall|i: int| 0 <= i < r.len() implies r[i].due <= due by {
            if i < r.len() - 1 {
                assert(r[i].due <= r[r.len() - 1].due);
            }
        }
    }
}

/// Putting a job into a sorted sequence at the rank of its due date keeps the
/// sequence sorted and adds the job behind the jobs that share its due date.
pub proof fn lemma_insert_at_rank(r: Seq<Job>, job: Job, due: int)
    requires
        due_sorted(r),
    ensures
        due_sorted(r.insert(rank_by_due(r, job.due as int), job)),
        with_due(r.insert(rank_by_due(r, job.due as int), job), due) == if job.due == due {
            with_due(r, due).push(job)
        } else {
            with_due(r, due)
        },
{
    let p: int = rank_by_due(r, job.due as int);
    lemma_rank_by_due(r, job.due as int);
    let out: Seq<Job> = r.insert(p, job);
    assert forall|i: int, j: int| 0 <= i < j < out.len() implies out[i].due <= out[j].due by {
        if i < p && j > p {
            assert(r[i].due <= r[j - 1].due);
        } else if i > p {
            assert(r[i - 1].due <= r[j - 1].due);
        } else if j < p {
            assert(r[i].due <= r[j].due);
        }
    }
    let head: Seq<Job> = r.take(p);
    let tail: Seq<Job> = r.skip(p);
    assert(out =~= head.push(job) + tail);
    assert(r =~= head + tail);
    lemma_with_due_concat(head.push(job), tail, due);
    lemma_with_due_concat(head, tail, due);
    lemma_with_due_push(head, job, due);
    if job.due == due {
        assert forall|i: int| 0 <= i < tail.len() implies tail[i].due != due by {
            assert(tail[i] == r[p + i]);
        }
        lemma_with_due_none(tail, due);
        assert(with_due(head.push(job), due) + Seq::<Job>::empty() =~= with_due(head, due).push(
            job,
        ));
        assert(with_due(head, due) + Seq::<Job>::empty() =~= with_due(head, due));
    }
}

/// The sequence that `edd_order` builds is the earliest-due-date order.
pub proof fn lemma_edd_order(s: Seq<Job>)
    ensures
        is_edd_order(s, edd_order(s)),
    decreases s.len(),
{
    if s.len() == 0 {
        assert(due_sorted(s));
    } else {
        let front: Seq<Job> = s.drop_last();
        lemma_edd_order(front);
        let r: Seq<Job> = edd_order(front);
        assert(s =~= front.push(s.last()));
        assert forall|due: int| #[trigger] with_due(edd_order(s), due) == with_due(s, due) by {
            lemma_insert_at_rank(r, s.last(), due);
            lemma_with_due_push(front, s.last(), due);
            assert(with_due(r, due) == with_due(front, due));
        }
        lemma_insert_at_rank(r, s.last(), 0);
    }
}

/// A sequence that shows a job for a due date holds a job that is due then.
proof fn lemma_with_due_witness(s: Seq<Job>, due: int) -> (i: int)
    requires
        with_due(s, due).len() > 0,
    ensures
        0 <= i < s.len(),
        s[i].due == due,
{
    if forall|k: int| 0 <= k < s.len() ==> s[k].due != due {
        lemma_with_due_none(s, due);
    }
    choose|k: int| 0 <= k < s.len() && s[k].due == due
}

/// Two sorted sequences that show the same jobs for every due date are the
/// same sequence.
pub proof fn lemma_sorted_same_dues(a: Seq<Job>, b: Seq<Job>)
    requires
        due_sorted(a),
        due_sorted(b),
        forall|due: int| #[trigger] with_due(a, due) == with_due(b, due),
    ensures
        a == b,
    decreases a.len(),
{
    if a.len() == 0 {
        if b.len() > 0 {
            lemma_with_due_some(b, b[0].due as int, 0);
            lemma_with_due_none(a, b[0].due as int);
            assert(with_due(a, b[0].due as int) == with_due(b, b[0].due as int));
        }
        assert(a =~= b);
    } else {
        let x: Job = a.last();
        let d: int = x.due as int;
        lemma_with_due_some(a, d, a.len() - 1);
        assert(with_due(a, d) == with_due(b, d));
        let j: int = lemma_with_due_witness(b, d);
        let y: Job = b.last();
        let e: int = y.due as int;
        lemma_with_due_some(b, e, b.len() - 1);
        assert(with_due(a, e) == with_due(b, e));
        let i: int = lemma_with_due_witness(a, e);
        assert(a[i].due <= a[a.len() - 1].due);
        assert(b[j].due <= b[b.len() - 1].due);
        assert(d == e);
        let a0: Seq<Job> = a.drop_last();
        let b0: Seq<Job> = b.drop_last();
        assert(a =~= a0.push(x));
        assert(b =~= b0.push(y));
        assert forall|due: int| #[trigger] with_due(a0, due) == with_due(b0, due) by {
            lemma_with_due_push(a0, x, due);
            lemma_with_due_push(b0, y, due);
            assert(with_due(a, due) == with_due(b, due));
            if due == d {
                assert(with_due(a0, due).push(x).drop_last() =~= with_due(a0, due));
                assert(with_due(b0, due).push(y).drop_last() =~= with_due(b0, due));
            }
        }
        assert(x == y) by {
            lemma_with_due_push(a0, x, d);
            lemma_with_due_push(b0, y, d);
            assert(with_due(a0, d).push(x).last() == x);
            assert(with_due(b0, d).push(y).last() == y);
        }
        assert(due_sorted(a0)) by {
            assert forall|p: int, q: int| 0 <= p < q < a0.len() implies a0[p].due
                <= a0[q].due by {
                assert(a[p].due <= a[q].due);
            }
        }
        assert(due_sorted(b0)) by {
            assert forall|p: int, q: int| 0 <= p < q < b0.len() implies b0[p].due
                <= b0[q].due by {
                assert(b[p].due <= b[q].due);
            }
        }
        lemma_sorted_same_dues(a0, b0);
    }
}

/// A sequence has one earliest-due-date order, the one that `edd_order` builds.
pub proof fn lemma_edd_order_unique(s: Seq<Job>, r: Seq<Job>)
    requires
        is_edd_order(s, r),
    ensures
        r == edd_order(s),
{
    lemma_edd_order(s);
    assert forall|due: int| #[trigger] with_due(r, due) == with_due(edd_order(s), due) by {
        assert(with_due(r, due) == with_due(s, due));
        assert(with_due(edd_order(s), due) == with_due(s, due));
    }
    lemma_sorted_same_dues(r, edd_order(s));
}

/// The earliest-due-date order holds the jobs it was given, each as often as
/// it was given.
pub proof fn lemma_edd_order_permutes(s: Seq<Job>)
    ensures
        edd_order(s).to_multiset() == s.to_multiset(),
        edd_order(s).len() == s.len(),
    decreases s.len(),
{
    if s.len() > 0 {
        let front: Seq<Job> = s.drop_last();
        lemma_edd_order_permutes(front);
        let r: Seq<Job> = edd_order(front);
        lemma_rank_by_due(r, s.last().due as int);
        vstd::seq_lib::to_multiset_insert(r, rank_by_due(r, s.last().due as int), s.last());
        vstd::seq_lib::to_multiset_build(front, s.last());
        assert(s =~= front.push(s.last()));
    }
}

/// Merges two sorted runs into one; of two jobs with the same due date the one
/// from `a` comes first.
fn merge(a: &[Job], b: &[Job]) -> (out: Vec<Job>)
    requires
        due_sorted(a@),
        due_sorted(b@),
        a@.len() + b@.len() <= usize::MAX,
    ensures
        is_edd_order(a@ + b@, out@),
        out@.len() == a@.len() + b@.len(),
{
    let na: usize = a.len();
    let nb: usize = b.len();
    let mut out: Vec<Job> = Vec::new();
    let mut i: usize = 0;
    let mut j: usize = 0;
    while i < na || j < nb
        invariant
            na == a@.len(),
            nb == b@.len(),
            na + nb <= usize::MAX,
            i <= na,
            j <= nb,
            out@.len() == i + j,
            due_sorted(a@),
            due_sorted(b@),
            due_sorted(out@),
            forall|x: int, y: int| 0 <= x < out@.len() && i <= y < na ==> out@[x].due <= a@[y].due,
            forall|x: int, y: int| 0 <= x < out@.len() && j <= y < nb ==> out@[x].due <= b@[y].due,
            forall|x: int, y: int| 0 <= x < j && i <= y < na ==> b@[x].due < a@[y].due,
            forall|due: int| #[trigger]
                with_due(out@, due) == with_due(a@.take(i as int), due) + with_due(
                    b@.take(j as int),
                    due,
                ),
        decreases (na - i) + (nb - j),
    {
        let ghost prev: Seq<Job> = out@;
        let from_b: bool = if i == na {
            true
        } else if j == nb {
            false
        } else {
            b[j].due < a[i].due
        };
        if from_b {
            let job: Job = b[j];
            out.push(job);
            proof {
                assert(b@.take(j as int + 1) =~= b@.take(j as int).push(job));
                assert forall|x: int, y: int| 0 <= x < j + 1 && i <= y < na implies b@[x].due
                    < a@[y].due by {
                    if x == j {
                        assert(a@[i as int].due <= a@[y].due);
                    }
                }
                assert forall|x: int, y: int| 0 <= x < out@.len() && j + 1 <= y
                    < nb implies out@[x].due <= b@[y].due by {
                    if x == prev.len() {
                        assert(b@[j as int].due <= b@[y].due);
                    } else {
                        assert(prev[x].due <= b@[y].due);
                    }
                }
                assert forall|x: int, y: int| 0 <= x < out@.len() && i <= y
                    < na implies out@[x].due <= a@[y].due by {
                    if x < prev.len() {
                        assert(prev[x].due <= a@[y].due);
                    }
                }
                assert forall|x: int, y: int| 0 <= x < y < out@.len() implies out@[x].due
                    <= out@[y].due by {
                    if y == prev.len() {
                        assert(prev[x].due <= b@[j as int].due);
                    } else {
                        assert(prev[x].due <= prev[y].due);
                    }
                }
                assert forall|due: int| #[trigger]
                    with_due(out@, due) == with_due(a@.take(i as int), due) + with_due(
                        b@.take(j as int + 1),
                        due,
                    ) by {
                    lemma_with_due_push(prev, job, due);
                    lemma_with_due_push(b@.take(j as int), job, due);
                    assert(with_due(prev, due) == with_due(a@.take(i as int), due) + with_due(
                        b@.take(j as int),
                        due,
                    ));
                    if job.due == due {
                        assert((with_due(a@.take(i as int), due) + with_due(
                            b@.take(j as int),
                            due,
                        )).push(job) =~= with_due(a@.take(i as int), due) + with_due(
                            b@.take(j as int),
                            due,
                        ).push(job));
                    }
                }
            }
            j = j + 1;
        } else {
            let job: Job = a[i];
            out.push(job);
            proof {
                assert(a@.take(i as int + 1) =~= a@.take(i as int).push(job));
                assert forall|x: int, y: int| 0 <= x < out@.len() && i + 1 <= y
                    < na implies out@[x].due <= a@[y].due by {
                    if x == prev.len() {
                        assert(a@[i as int].due <= a@[y].due);
                    } else {
                        assert(prev[x].due <= a@[y].due);
                    }
                }
                assert forall|x: int, y: int| 0 <= x < out@.len() && j <= y
                    < nb implies out@[x].due <= b@[y].due by {
                    if x == prev.len() {
                        assert(a@[i as int].due <= b@[j as int].due);
                        assert(b@[j as int].due <= b@[y].due);
                    } else {
                        assert(prev[x].due <= b@[y].due);
                    }
                }
                assert forall|x: int, y: int| 0 <= x < y < out@.len() implies out@[x].due
                    <= out@[y].due by {
                    if y == prev.len() {
                        assert(prev[x].due <= a@[i as int].due);
                    } else {
                        assert(prev[x].due <= prev[y].due);
                    }
                }
                assert forall|due: int| #[trigger]
                    with_due(out@, due) == with_due(a@.take(i as int + 1), due) + with_due(
                        b@.take(j as int),
                        due,
                    ) by {
                    lemma_with_due_push(prev, job, due);
                    lemma_with_due_push(a@.take(i as int), job, due);
                    assert(with_due(prev, due) == with_due(a@.take(i as int), due) + with_due(
                        b@.take(j as int),
                        due,
                    ));
                    if job.due == due {
                        assert forall|x: int| 0 <= x < b@.take(j as int).len() implies b@.take(
                            j as int,
                        )[x].due != due by {
                            assert(b@[x].due < a@[i as int].due);
                        }
                        lemma_with_due_none(b@.take(j as int), due);
                        assert((with_due(a@.take(i as int), due) + Seq::<Job>::empty()).push(job)
                            =~= with_due(a@.take(i as int), due).push(job) + Seq::<Job>::empty());
                    }
                }
            }
            i = i + 1;
        }
    }
    proof {
        assert(a@.take(na as int) =~= a@);
        assert(b@.take(nb as int) =~= b@);
        assert forall|due: int| #[trigger] with_due(out@, due) == with_due(a@ + b@, due) by {
            lemma_with_due_concat(a@, b@, due);
            assert(with_due(out@, due) == with_due(a@.take(na as int), due) + with_due(
                b@.take(nb as int),
                due,
            ));
        }
    }
    out
}

/// Overwrites `dst` with the jobs of `src` from position `from` on.
fn copy_run(dst: &mut [Job], src: &Vec<Job>, from: usize)
    requires
        from + old(dst)@.len() <= src@.len(),
    ensures
        final(dst)@ == src@.subrange(from as int, from + old(dst)@.len()),
{
    let n: usize = dst.len();
    let m: usize = src.len();
    let mut i: usize = 0;
    while i < n
        invariant
            n == dst@.len(),
            n == old(dst)@.len(),
            m == src@.len(),
            i <= n,
            from + n <= m,
            forall|k: int| 0 <= k < i ==> dst@[k] == src@[from + k],
        decreases n - i,
    {
        dst[i] = src[from + i];
        i = i + 1;
    }
    assert(dst@ =~= src@.subrange(from as int, from + n));
}

/// Brings `jobs` into earliest-due-date order: sorted by due date, jobs with
/// the same due date in the order in which they stood.
pub fn edd_sort(jobs: &mut [Job])
    ensures
        final(jobs)@ == edd_order(old(jobs)@),
        is_edd_order(old(jobs)@, final(jobs)@),
        final(jobs)@.to_multiset() == old(jobs)@.to_multiset(),
        final(jobs)@.len() == old(jobs)@.len(),
    decreases old(jobs)@.len(),
{
    let n: usize = jobs.len();
    let ghost s: Seq<Job> = jobs@;
    proof {
        lemma_edd_order(s);
        lemma_edd_order_permutes(s);
    }
    if n <= 1 {
        proof {
            assert(due_sorted(s));
            lemma_edd_order_unique(s, s);
        }
        return ;
    }
    let mid: usize = n / 2;
    let (left, right) = jobs.split_at_mut(mid);
    edd_sort(left);
    edd_sort(right);
    let merged: Vec<Job> = merge(left, right);
    proof {
        assert(s =~= s.take(mid as int) + s.skip(mid as int));
        assert forall|due: int| #[trigger] with_due(merged@, due) == with_due(s, due) by {
            lemma_with_due_concat(left@, right@, due);
            lemma_with_due_concat(s.take(mid as int), s.skip(mid as int), due);
            assert(with_due(merged@, due) == with_due(left@ + right@, due));
            assert(with_due(left@, due) == with_due(s.take(mid as int), due));
            assert(with_due(right@, due) == with_due(s.skip(mid as int), due));
        }
        lemma_edd_order_unique(s, merged@);
    }
    copy_run(left, &merged, 0);
    copy_run(right, &merged, mid);
    proof {
        assert(merged@ =~= merged@.subrange(0, mid as int) + merged@.subrange(
            mid as int,
            n as int,
        ));
    }
}

} // verus!
