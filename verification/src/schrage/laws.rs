//! What holds of the schedules of both schedulers, for every collection of
//! jobs.
//!
//! In the statements below `jobs` is the list that the machine works on: the
//! jobs in ascending order of delivery time, as
//! `stable_sort(.., SortKey::DeliveryTime)` gives them.

use vstd::prelude::*;
use crate::bound::{lemma_long_tailed_members, lemma_sequence_meets_tail_bound, long_tailed};
use crate::jobs::{
    clamp_time, completion_from, schedule_makespan, sequence_makespan, start_in_sequence,
    time_given, timeline_fits, Job,
};
use crate::order::{is_sorted, lemma_stable_sort_is_stable, stable_sort, SortKey};
use crate::schrage::machine::{lemma_outcome_is_settled, order_of, outcome, schedule_of};
use crate::schrage::optimal::lemma_after_is_timely;
use crate::schrage::reported;
use crate::schrage::rule::{
    arrivals_wait, idle_before, lemma_after_is_ruled, nothing_was_due, run_end, runs_the_top,
};
use crate::schrage::run::{
    all_take_time, lemma_after_is_ascending, lemma_after_is_in_step, lemma_after_is_orderly,
    lemma_sound_timeline_fits, listed,
};
use crate::timeline::{
    lemma_makespan_covers, lemma_makespan_within, lemma_remaining_in_range,
    lemma_time_given_in_all,
};

verus! {

/// The jobs that a timetable names, entry by entry, are a rearrangement of
/// the list where the timetable names each position once.
proof fn lemma_each_once_rearranges(jobs: Seq<Job>, timetable: Seq<(int, int)>)
    requires
        forall|m: int| 0 <= m < timetable.len() ==> 0 <= (#[trigger] timetable[m]).1 < jobs.len(),
        forall|m: int, n: int|
            0 <= m < n < timetable.len() ==> (#[trigger] timetable[m]).1 != (
            #[trigger] timetable[n]).1,
        forall|i: int| 0 <= i < jobs.len() ==> #[trigger] listed(timetable, i),
    ensures
        timetable.len() == jobs.len(),
        order_of(jobs, timetable).to_multiset() == jobs.to_multiset(),
    decreases jobs.len(),
{
    broadcast use vstd::seq_lib::group_to_multiset_ensures;

    if jobs.len() == 0 {
        if timetable.len() > 0 {
            assert(0 <= timetable[0].1 < jobs.len());
        }
        assert(order_of(jobs, timetable) =~= jobs);
    } else {
        let last = jobs.len() - 1;
        assert(listed(timetable, last));
        let at = choose|m: int| 0 <= m < timetable.len() && (#[trigger] timetable[m]).1 == last;
        let others = timetable.remove(at);
        let front = jobs.drop_last();
        assert forall|m: int| 0 <= m < others.len() implies 0 <= (#[trigger] others[m]).1
            < front.len() by {
            let from = if m < at { m } else { m + 1 };
            assert(0 <= timetable[from].1 < jobs.len());
            if from < at {
                assert(timetable[from].1 != timetable[at].1);
            } else {
                assert(timetable[at].1 != timetable[from].1);
            }
        }
        assert forall|m: int, n: int| 0 <= m < n < others.len() implies (#[trigger] others[m]).1
            != (#[trigger] others[n]).1 by {
            let from = if m < at { m } else { m + 1 };
            let to = if n < at { n } else { n + 1 };
            assert(timetable[from].1 != timetable[to].1);
        }
        assert forall|i: int| 0 <= i < front.len() implies #[trigger] listed(others, i) by {
            assert(listed(timetable, i));
            let m = choose|m: int| 0 <= m < timetable.len() && (#[trigger] timetable[m]).1 == i;
            let to = if m < at { m } else { m - 1 };
            assert(others[to].1 == i);
        }
        lemma_each_once_rearranges(front, others);
        let order = order_of(jobs, timetable);
        let inner = order_of(front, others);
        assert(order =~= inner.insert(at, jobs[last])) by {
            assert forall|m: int| 0 <= m < order.len() implies order[m] == inner.insert(
                at,
                jobs[last],
            )[m] by {
                if m < at {
                    assert(0 <= others[m].1 < front.len());
                } else if m > at {
                    assert(0 <= others[m - 1].1 < front.len());
                }
            }
        }
        assert(jobs =~= front.push(jobs[last]));
        assert(order.to_multiset() == inner.to_multiset().insert(jobs[last]));
        assert(jobs.to_multiset() == front.to_multiset().insert(jobs[last]));
    }
}

/// Without preemption the schedule runs every job once: the order it gives
/// is a rearrangement of the jobs.
pub proof fn lemma_order_is_rearrangement(jobs: Seq<Job>)
    ensures
        schedule_of(jobs, false).len() == jobs.len(),
        order_of(jobs, schedule_of(jobs, false)).to_multiset() == jobs.to_multiset(),
{
    let end = outcome(jobs, false);
    lemma_outcome_is_settled(jobs, false);
    lemma_after_is_orderly(jobs, false, 3 * jobs.len());
    assert forall|m: int| 0 <= m < end.timetable.len() implies 0 <= (
    #[trigger] end.timetable[m]).1 < jobs.len() by {
        assert(0 <= end.timetable[m].1 < end.released);
    }
    assert forall|i: int| 0 <= i < jobs.len() implies #[trigger] listed(end.timetable, i) by {
        assert(!end.waiting.contains(i));
    }
    lemma_each_once_rearranges(jobs, end.timetable);
}

/// The order that Schrage's algorithm gives for a collection of jobs is a
/// rearrangement of the collection.
pub proof fn lemma_schrage_rearranges(collection: Seq<Job>)
    ensures
        ({
            let jobs = stable_sort(collection, SortKey::DeliveryTime);
            order_of(jobs, schedule_of(jobs, false)).to_multiset() == collection.to_multiset()
        }),
{
    lemma_stable_sort_is_stable(collection, SortKey::DeliveryTime);
    lemma_order_is_rearrangement(stable_sort(collection, SortKey::DeliveryTime));
}

/// The timetable of a schedule names only jobs of the list, its times do
/// not descend, no two entries in a row name the same job, and it is empty
/// only where there are no jobs.
pub proof fn lemma_schedule_is_well_formed(jobs: Seq<Job>, preemptive: bool)
    ensures
        timeline_fits(jobs, schedule_of(jobs, preemptive)),
        forall|m: int|
            0 < m < schedule_of(jobs, preemptive).len() ==> schedule_of(jobs, preemptive)[m - 1].1
                != (#[trigger] schedule_of(jobs, preemptive)[m]).1,
        forall|i: int| 0 <= i < jobs.len() ==> #[trigger] listed(schedule_of(jobs, preemptive), i),
        schedule_of(jobs, preemptive).len() == 0 <==> jobs.len() == 0,
{
    let end = outcome(jobs, preemptive);
    lemma_outcome_is_settled(jobs, preemptive);
    lemma_after_is_orderly(jobs, preemptive, 3 * jobs.len());
    lemma_sound_timeline_fits(jobs, end, preemptive);
    assert forall|i: int| 0 <= i < jobs.len() implies #[trigger] listed(end.timetable, i) by {
        assert(!end.waiting.contains(i));
    }
    if jobs.len() > 0 {
        assert(listed(end.timetable, 0));
    }
    if end.timetable.len() > 0 {
        assert(0 <= end.timetable[0].1 < end.released);
    }
}

/// No job starts or resumes before its delivery time.
pub proof fn lemma_no_premature_start(jobs: Seq<Job>, preemptive: bool, entry: int)
    requires
        0 <= entry < schedule_of(jobs, preemptive).len(),
    ensures
        schedule_of(jobs, preemptive)[entry].0 >= jobs[schedule_of(
            jobs,
            preemptive,
        )[entry].1].delivery_time,
{
    lemma_after_is_orderly(jobs, preemptive, 3 * jobs.len());
}

/// Where every job takes time, the times of a schedule ascend strictly.
pub proof fn lemma_times_ascend(jobs: Seq<Job>, preemptive: bool, earlier: int, later: int)
    requires
        all_take_time(jobs),
        0 <= earlier < later < schedule_of(jobs, preemptive).len(),
    ensures
        schedule_of(jobs, preemptive)[earlier].0 < schedule_of(jobs, preemptive)[later].0,
{
    lemma_after_is_ascending(jobs, preemptive, 3 * jobs.len());
}

/// Without preemption the time of each entry is the time at which its job
/// starts when the jobs run one after the other in the order of the
/// schedule.
pub proof fn lemma_order_starts_on_time(jobs: Seq<Job>, entry: int)
    requires
        is_sorted(jobs, SortKey::DeliveryTime),
        0 <= entry < schedule_of(jobs, false).len(),
    ensures
        schedule_of(jobs, false)[entry].0 == start_in_sequence(
            order_of(jobs, schedule_of(jobs, false)),
            entry,
        ),
{
    lemma_after_is_in_step(jobs, 3 * jobs.len());
}

/// Every entry of a schedule runs the job of highest priority: no job that
/// is due when the entry begins, and that still needs the machine then,
/// outranks the job of the entry.
pub proof fn lemma_entry_runs_the_top(jobs: Seq<Job>, preemptive: bool, entry: int)
    requires
        is_sorted(jobs, SortKey::DeliveryTime),
        0 <= entry < schedule_of(jobs, preemptive).len(),
    ensures
        runs_the_top(jobs, schedule_of(jobs, preemptive), entry),
{
    lemma_after_is_ruled(jobs, preemptive, 3 * jobs.len());
}

/// The machine idles only while no job is due: where it has been idle when
/// an entry begins, no job that still needs the machine was due before.
pub proof fn lemma_idle_only_without_work(jobs: Seq<Job>, preemptive: bool, entry: int)
    requires
        is_sorted(jobs, SortKey::DeliveryTime),
        0 <= entry < schedule_of(jobs, preemptive).len(),
        idle_before(jobs, schedule_of(jobs, preemptive), entry),
    ensures
        nothing_was_due(jobs, schedule_of(jobs, preemptive), entry),
{
    lemma_after_is_ruled(jobs, preemptive, 3 * jobs.len());
}

/// With preemption a job gives way at once: no job that takes time and
/// arrives while an entry runs outranks the job of the entry, measured by
/// the processing time that this job has left at the arrival.
pub proof fn lemma_arrivals_do_not_outrank(jobs: Seq<Job>, entry: int)
    requires
        is_sorted(jobs, SortKey::DeliveryTime),
        0 <= entry < schedule_of(jobs, true).len(),
    ensures
        arrivals_wait(
            jobs,
            schedule_of(jobs, true),
            entry,
            run_end(jobs, schedule_of(jobs, true), entry),
        ),
{
    let end = outcome(jobs, true);
    lemma_after_is_ruled(jobs, true, 3 * jobs.len());
    lemma_after_is_orderly(jobs, true, 3 * jobs.len());
    lemma_outcome_is_settled(jobs, true);
    lemma_sound_timeline_fits(jobs, end, true);
    if entry == end.timetable.len() - 1 {
        let running = end.timetable[entry].1;
        lemma_remaining_in_range(jobs, end.timetable, entry);
        assert(0 <= running < end.released) by {
            assert(0 <= end.timetable[entry].1 < end.released);
        }
        assert(!end.waiting.contains(running));
        assert(end.left[running] == 0);
    }
}

/// The times for which the entries of a schedule run a job add up to the
/// job's processing time.
pub proof fn lemma_processing_is_conserved(jobs: Seq<Job>, preemptive: bool, job: int)
    requires
        0 <= job < jobs.len(),
    ensures
        time_given(
            jobs,
            schedule_of(jobs, preemptive),
            job,
            schedule_of(jobs, preemptive).len() as int,
        ) == jobs[job].processing_time,
{
    let end = outcome(jobs, preemptive);
    lemma_outcome_is_settled(jobs, preemptive);
    lemma_after_is_orderly(jobs, preemptive, 3 * jobs.len());
    lemma_schedule_is_well_formed(jobs, preemptive);
    assert(!end.waiting.contains(job));
    assert(end.left[job] == 0);
    lemma_time_given_in_all(jobs, end.timetable, job);
}

/// No order of the jobs has a smaller makespan than the preemptive
/// schedule.
pub proof fn lemma_preemptive_schedule_is_lower_bound(jobs: Seq<Job>, sequence: Seq<Job>)
    requires
        is_sorted(jobs, SortKey::DeliveryTime),
        sequence.to_multiset() == jobs.to_multiset(),
    ensures
        schedule_makespan(jobs, schedule_of(jobs, true)) <= sequence_makespan(sequence),
{
    let timetable = schedule_of(jobs, true);
    lemma_after_is_timely(jobs, 3 * jobs.len());
    lemma_schedule_is_well_formed(jobs, true);
    crate::bound::lemma_long_tailed_run_first(sequence, 0);
    assert forall|m: int| 0 <= m < timetable.len() implies #[trigger] completion_from(
        jobs,
        timetable,
        m,
    ) <= sequence_makespan(sequence) by {
        let job = timetable[m].1;
        let threshold = jobs[job].cooldown_time as int;
        assert(0 <= job < jobs.len());
        lemma_long_tailed_members(jobs, threshold);
        vstd::seq_lib::to_multiset_len(long_tailed(jobs, threshold));
        assert(long_tailed(jobs, threshold).len() > 0) by {
            broadcast use vstd::seq_lib::group_to_multiset_ensures;

            assert(jobs.contains(jobs[job]));
            assert(jobs.to_multiset().count(jobs[job]) > 0);
            assert(long_tailed(jobs, threshold).to_multiset().count(jobs[job]) > 0);
            assert(long_tailed(jobs, threshold).contains(jobs[job]));
        }
        lemma_sequence_meets_tail_bound(sequence, jobs, threshold);
    }
    lemma_makespan_within(jobs, timetable, timetable.len() as int, sequence_makespan(sequence));
}

/// Preemption never makes the result worse: for every collection of jobs
/// the makespan of the preemptive schedule is at most that of the order
/// that Schrage's algorithm gives.
pub proof fn lemma_preemption_never_worse(collection: Seq<Job>)
    ensures
        ({
            let jobs = stable_sort(collection, SortKey::DeliveryTime);
            schedule_makespan(jobs, schedule_of(jobs, true)) <= sequence_makespan(
                order_of(jobs, schedule_of(jobs, false)),
            )
        }),
{
    let jobs = stable_sort(collection, SortKey::DeliveryTime);
    lemma_stable_sort_is_stable(collection, SortKey::DeliveryTime);
    lemma_order_is_rearrangement(jobs);
    lemma_preemptive_schedule_is_lower_bound(jobs, order_of(jobs, schedule_of(jobs, false)));
}

/// Where the last reported time is below the limit, the timetable is
/// reported as it is.
pub proof fn lemma_reported_is_exact(jobs: Seq<Job>, timetable: Seq<(int, int)>)
    requires
        timeline_fits(jobs, timetable),
        timetable.len() > 0 ==> reported(timetable).last().0 < u32::MAX,
    ensures
        reported(timetable) == timetable,
{
    if timetable.len() > 0 {
        let last = timetable.len() - 1;
        assert(reported(timetable)[last].0 == clamp_time(timetable[last].0));
        assert forall|m: int| 0 <= m < timetable.len() implies reported(timetable)[m]
            == timetable[m] by {
            assert(timetable[m].0 <= timetable[last].0);
        }
    }
    assert(reported(timetable) =~= timetable);
}

/// Saturating the times of a timetable does not change the makespan that is
/// reported for it.
pub proof fn lemma_reported_makespan(jobs: Seq<Job>, timetable: Seq<(int, int)>)
    requires
        timeline_fits(jobs, timetable),
    ensures
        timeline_fits(jobs, reported(timetable)),
        clamp_time(schedule_makespan(jobs, reported(timetable))) == clamp_time(
            schedule_makespan(jobs, timetable),
        ),
{
    let shown = reported(timetable);
    assert forall|m: int, n: int| 0 <= m <= n < shown.len() implies (#[trigger] shown[m]).0 <= (
    #[trigger] shown[n]).0 by {
        assert(timetable[m].0 <= timetable[n].0);
    }
    assert forall|m: int| 0 <= m < shown.len() implies 0 <= (#[trigger] shown[m]).1
        < jobs.len() by {
        assert(0 <= timetable[m].1 < jobs.len());
    }
    if timetable.len() > 0 {
        let last = timetable.len() - 1;
        if timetable[last].0 <= u32::MAX {
            assert forall|m: int| 0 <= m < shown.len() implies shown[m] == timetable[m] by {
                assert(timetable[m].0 <= timetable[last].0);
            }
            assert(shown =~= timetable);
        } else {
            lemma_remaining_in_range(jobs, timetable, last);
            lemma_remaining_in_range(jobs, shown, last);
            assert(0 <= timetable[last].1 < jobs.len());
            assert(0 <= shown[last].1 < jobs.len());
            lemma_makespan_covers(jobs, timetable, timetable.len() as int, last);
            lemma_makespan_covers(jobs, shown, shown.len() as int, last);
        }
    } else {
        assert(shown =~= timetable);
    }
}

} // verus!
