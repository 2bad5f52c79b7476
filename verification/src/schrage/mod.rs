//! Schrage's algorithm, with and without preemption.
//!
//! Both schedulers put the jobs in ascending order of delivery time and then
//! drive the machine of [`machine`]: whenever the machine is free, the job of
//! highest priority among those released runs next. The priority rule is that
//! of [`crate::pool::Candidate::outranks`].
//!
//! Without preemption the result is a heuristic order. With preemption a
//! running job gives way as soon as another job is released, and the
//! resulting schedule has the least makespan that any order of the jobs can
//! reach (see [`laws`]).
//!
//! The clock of either scheduler saturates at `u32::MAX`, and so do the times
//! that a timetable reports.

pub mod laws;
pub mod machine;
pub mod optimal;
pub mod ready;
pub mod rule;
pub mod run;

use vstd::prelude::*;
use crate::jobs::{
    clamp_time, schedule_makespan, sequence_makespan, timeline_of, Job, JobList, JobSchedule,
};
use crate::order::{lemma_stable_sort_is_stable, stable_sort, stable_sort_vec, SortKey};
use crate::pool::ReadyPool;
use crate::schrage::laws::{
    lemma_no_premature_start, lemma_preemption_never_worse, lemma_reported_makespan,
    lemma_schedule_is_well_formed, lemma_schrage_rearranges, lemma_times_ascend,
};
use crate::schrage::run::all_take_time;
use crate::schrage::machine::{
    advance, after, initial, lemma_advance, lemma_after_is_sound, lemma_release_until,
    lemma_settled_stays, order_of, schedule_of, settled, sound, steps_left, with_released,
};
use crate::schrage::ready::{
    lemma_pool_empty, lemma_pool_gains, lemma_pool_left_changes, pool_holds, release_due,
    take_top,
};

verus! {

/// `timetable` as the schedulers report it: each time saturates at
/// `u32::MAX`.
pub open spec fn reported(timetable: Seq<(int, int)>) -> Seq<(int, int)> {
    Seq::new(timetable.len(), |m: int| (clamp_time(timetable[m].0), timetable[m].1))
}

/// Schrage's algorithm. Schedules the jobs on a single machine by a
/// heuristic that attempts to minimize the makespan: whenever the machine is
/// free, the released job of highest priority runs to completion.
///
/// The result lists the jobs in the order in which they run.
pub fn schrage(jobs: Vec<Job>) -> (pi: JobList)
    ensures
        pi.jobs@ == order_of(
            stable_sort(jobs@, SortKey::DeliveryTime),
            schedule_of(stable_sort(jobs@, SortKey::DeliveryTime), false),
        ),
        pi.jobs@.len() == jobs@.len(),
        pi.jobs@.to_multiset() == jobs@.to_multiset(),
{
    // jobs by ascending delivery time: the next to become available comes first
    let sorted = stable_sort_vec(&jobs, SortKey::DeliveryTime);
    let n = sorted.len();
    // the jobs that are ready to run at the current moment, by priority
    let mut ready_to_run = ReadyPool::new();
    // time tracking variable
    let mut t: u32 = 0;
    // the final sequence in which the jobs should be run
    let mut pi: JobList = JobList::new(Vec::new());
    // position of the next job to become available
    let mut job_index: usize = 0;
    let ghost mut machine = initial(sorted@);
    let ghost mut steps: nat = 0;
    proof {
        lemma_after_is_sound(sorted@, false, 0);
        assert(pi.jobs@ =~= order_of(sorted@, machine.timetable));
    }
    // iterate until no job is left
    while job_index < n || !ready_to_run.is_empty()
        invariant
            n == sorted@.len(),
            machine == after(sorted@, false, steps),
            sound(sorted@, machine, false),
            0 <= steps_left(sorted@, machine),
            steps <= 3 * n,
            settled(sorted@, machine) || steps + steps_left(sorted@, machine) <= 3 * n,
            job_index == machine.released,
            t == clamp_time(machine.clock),
            ready_to_run.well_formed(),
            pool_holds(ready_to_run@, sorted@, machine.left, machine.waiting),
            pi.jobs@ == order_of(sorted@, machine.timetable),
        decreases steps_left(sorted@, machine),
    {
        let ghost next = advance(sorted@, machine, false);
        proof {
            lemma_pool_empty(ready_to_run@, sorted@, machine.left, machine.waiting);
            lemma_advance(sorted@, machine, false);
            lemma_release_until(sorted@, machine.released, machine.clock);
        }
        // find all jobs that are available
        job_index =
        release_due(&sorted, &mut ready_to_run, job_index, t, Ghost(machine), Ghost(false));
        let ghost waiting = with_released(machine.waiting, machine.released, job_index as int);
        // if there are jobs that are ready to run, schedule the first of them
        match take_top(&mut ready_to_run, Ghost(sorted@), Ghost(machine.left), Ghost(waiting)) {
            Some(candidate) => {
                proof {
                    let i = candidate.index as int;
                    lemma_pool_left_changes(
                        ready_to_run@,
                        sorted@,
                        machine.left,
                        waiting.remove(i),
                        i,
                        0,
                    );
                    assert(candidate.job == sorted@[i]);
                    if machine.timetable.len() > 0 {
                        assert(!machine.waiting.contains(machine.timetable.last().1));
                        assert(machine.timetable.last().1 < machine.released);
                    }
                    assert(pi.jobs@.push(candidate.job) =~= order_of(sorted@, next.timetable));
                }
                // add the job to the final sequence
                pi.jobs.push(candidate.job);
                t = t.saturating_add(candidate.job.processing_time);
            },
            None => {
                // no job can be run yet: skip to when the nearest job is available
                proof {
                    if job_index == n {
                        assert(waiting =~= machine.waiting);
                    }
                }
                t = sorted[job_index].delivery_time;
            },
        }
        proof {
            machine = next;
            steps = steps + 1;
        }
    }
    proof {
        lemma_pool_empty(ready_to_run@, sorted@, machine.left, machine.waiting);
        lemma_settled_stays(sorted@, false, steps, (3 * n) as nat);
        lemma_schrage_rearranges(jobs@);
        vstd::seq_lib::to_multiset_len(pi.jobs@);
        vstd::seq_lib::to_multiset_len(jobs@);
    }
    pi
}

/// Schrage's algorithm with preemptions. Schedules the jobs on a single
/// machine so that the makespan is minimal: the released job of highest
/// priority runs, and it is interrupted as soon as another job is released.
///
/// The result lists the jobs by ascending delivery time, and each start or
/// resumption with its time and the position of its job in that list.
pub fn schrage_preemptive(jobs: Vec<Job>) -> (schedule: JobSchedule)
    ensures
        schedule.jobs@ == stable_sort(jobs@, SortKey::DeliveryTime),
        schedule.timeline() == reported(schedule_of(schedule.jobs@, true)),
        schedule.well_formed(),
        schedule.jobs@.len() == jobs@.len(),
        schedule.jobs@.to_multiset() == jobs@.to_multiset(),
        schedule.timetable@.len() == 0 <==> jobs@.len() == 0,
        forall|m: int|
            0 <= m < schedule.timetable@.len() ==> schedule.jobs@[(
            #[trigger] schedule.timetable@[m]).1 as int].delivery_time <= schedule.timetable@[m].0,
        forall|m: int|
            0 < m < schedule.timetable@.len() ==> schedule.timetable@[m - 1].1 != (
            #[trigger] schedule.timetable@[m]).1,
        all_take_time(jobs@) ==> forall|m: int, k: int|
            0 <= m < k < schedule.timetable@.len() ==> (#[trigger] schedule.timetable@[m]).0 < (
            #[trigger] schedule.timetable@[k]).0 || schedule.timetable@[k].0 == u32::MAX,
        clamp_time(schedule_makespan(schedule.jobs@, schedule.timeline())) <= clamp_time(
            sequence_makespan(order_of(schedule.jobs@, schedule_of(schedule.jobs@, false))),
        ),
{
    // jobs by ascending delivery time
    let sorted = stable_sort_vec(&jobs, SortKey::DeliveryTime);
    let n = sorted.len();
    // the jobs that are ready to run at the current moment, by priority, each
    // with its position in `sorted`
    let mut ready_to_run = ReadyPool::new();
    // time tracking variable
    let mut t: u32 = 0;
    // the final timetable
    let mut timetable: Vec<(u32, usize)> = Vec::new();
    // position of the next job to become available
    let mut job_index: usize = 0;
    let ghost mut machine = initial(sorted@);
    let ghost mut steps: nat = 0;
    proof {
        lemma_after_is_sound(sorted@, true, 0);
        assert(timeline_of(timetable@) =~= reported(machine.timetable));
    }
    // iterate until no job is left
    while job_index < n || !ready_to_run.is_empty()
        invariant
            n == sorted@.len(),
            machine == after(sorted@, true, steps),
            sound(sorted@, machine, true),
            0 <= steps_left(sorted@, machine),
            steps <= 3 * n,
            settled(sorted@, machine) || steps + steps_left(sorted@, machine) <= 3 * n,
            job_index == machine.released,
            t == clamp_time(machine.clock),
            ready_to_run.well_formed(),
            pool_holds(ready_to_run@, sorted@, machine.left, machine.waiting),
            timeline_of(timetable@) == reported(machine.timetable),
        decreases steps_left(sorted@, machine),
    {
        let ghost next = advance(sorted@, machine, true);
        proof {
            lemma_pool_empty(ready_to_run@, sorted@, machine.left, machine.waiting);
            lemma_advance(sorted@, machine, true);
            lemma_release_until(sorted@, machine.released, machine.clock);
        }
        // find all jobs that are available
        job_index =
        release_due(&sorted, &mut ready_to_run, job_index, t, Ghost(machine), Ghost(true));
        let ghost waiting = with_released(machine.waiting, machine.released, job_index as int);
        let ghost table_before = timetable@;
        // if there are jobs that are ready to run, schedule the first of them
        match take_top(&mut ready_to_run, Ghost(sorted@), Ghost(machine.left), Ghost(waiting)) {
            Some(mut candidate) => {
                let i = candidate.index;
                let remaining = candidate.job.processing_time;
                // enter the job in the timetable unless it is the one running
                if timetable.len() == 0 || timetable[timetable.len() - 1].1 != i {
                    timetable.push((t, i));
                }
                proof {
                    assert(timeline_of(table_before).len() == table_before.len());
                    assert(reported(machine.timetable).len() == machine.timetable.len());
                    if machine.timetable.len() > 0 {
                        let last = machine.timetable.len() - 1;
                        assert(timeline_of(table_before)[last] == reported(
                            machine.timetable,
                        )[last]);
                    }
                    assert forall|m: int| 0 <= m < next.timetable.len() implies timeline_of(
                        timetable@,
                    )[m] == reported(next.timetable)[m] by {
                        if m < table_before.len() {
                            assert(timeline_of(table_before)[m] == reported(
                                machine.timetable,
                            )[m]);
                        }
                    }
                    assert(timeline_of(timetable@) =~= reported(next.timetable));
                    lemma_pool_left_changes(
                        ready_to_run@,
                        sorted@,
                        machine.left,
                        waiting.remove(i as int),
                        i as int,
                        next.left[i as int],
                    );
                }
                // the time that is left until a new job arrives, if one does
                // before this one is done
                if job_index < n && sorted[job_index].delivery_time - t < remaining {
                    // the job goes back to the pool with the processing time
                    // that it has left
                    candidate.job.processing_time = remaining - (sorted[job_index].delivery_time
                        - t);
                    proof {
                        lemma_pool_gains(
                            ready_to_run@,
                            sorted@,
                            next.left,
                            waiting.remove(i as int),
                            i as int,
                        );
                        assert(waiting.remove(i as int).insert(i as int) =~= waiting);
                    }
                    ready_to_run.push(candidate);
                    t = sorted[job_index].delivery_time;
                } else {
                    t = t.saturating_add(remaining);
                }
            },
            None => {
                // no job can be run yet: skip to when the nearest job is available
                proof {
                    if job_index == n {
                        assert(waiting =~= machine.waiting);
                    }
                }
                t = sorted[job_index].delivery_time;
            },
        }
        proof {
            machine = next;
            steps = steps + 1;
        }
    }
    proof {
        lemma_pool_empty(ready_to_run@, sorted@, machine.left, machine.waiting);
        lemma_settled_stays(sorted@, true, steps, (3 * n) as nat);
        lemma_stable_sort_is_stable(jobs@, SortKey::DeliveryTime);
        lemma_schedule_is_well_formed(sorted@, true);
        lemma_reported_makespan(sorted@, machine.timetable);
        lemma_preemption_never_worse(jobs@);
        assert(timeline_of(timetable@).len() == timetable@.len());
        assert forall|m: int| 0 <= m < timetable@.len() implies sorted@[(
        #[trigger] timetable@[m]).1 as int].delivery_time <= timetable@[m].0 by {
            lemma_no_premature_start(sorted@, true, m);
            assert(timeline_of(timetable@)[m] == reported(machine.timetable)[m]);
        }
        assert forall|m: int| 0 < m < timetable@.len() implies timetable@[m - 1].1 != (
        #[trigger] timetable@[m]).1 by {
            assert(timeline_of(timetable@)[m] == reported(machine.timetable)[m]);
            assert(timeline_of(timetable@)[m - 1] == reported(machine.timetable)[m - 1]);
        }
        if all_take_time(jobs@) {
            assert forall|i: int| 0 <= i < sorted@.len() implies (
            #[trigger] sorted@[i]).processing_time > 0 by {
                broadcast use vstd::seq_lib::group_to_multiset_ensures;

                assert(sorted@.contains(sorted@[i]));
                assert(jobs@.to_multiset().count(sorted@[i]) > 0);
                assert(jobs@.contains(sorted@[i]));
            }
            assert forall|m: int, k: int| 0 <= m < k < timetable@.len() implies (
            #[trigger] timetable@[m]).0 < (#[trigger] timetable@[k]).0 || timetable@[k].0
                == u32::MAX by {
                lemma_times_ascend(sorted@, true, m, k);
                assert(timeline_of(timetable@)[m] == reported(machine.timetable)[m]);
                assert(timeline_of(timetable@)[k] == reported(machine.timetable)[k]);
            }
        }
    }
    JobSchedule { jobs: sorted, timetable }
}

} // verus!
