//! Jobs, ordered job lists and preemptive schedules, with their makespans.
//!
//! Times in the mathematical model are unbounded integers. The executable
//! functions report a time as a `u32` and saturate: a reported time is the
//! model's time where that fits, and `u32::MAX` where it does not.

use vstd::prelude::*;
use crate::order::{stable_sort, stable_sort_vec, SortKey};

verus! {

/// The largest time a `u32` can hold; reported times saturate here.
pub open spec fn time_limit() -> int {
    u32::MAX as int
}

/// `value`, or the largest representable time where `value` exceeds it.
pub open spec fn clamp_time(value: int) -> int {
    if value <= time_limit() {
        value
    } else {
        time_limit()
    }
}

/// The larger of `a` and `b`.
pub open spec fn max_of(a: int, b: int) -> int {
    if a >= b {
        a
    } else {
        b
    }
}

/// A job on a single machine: it is released at `delivery_time`, occupies the
/// machine for `processing_time`, and is complete `cooldown_time` after that.
#[derive(Copy, Clone, Debug, PartialEq, Eq, Structural)]
pub struct Job {
    pub delivery_time: u32,
    pub processing_time: u32,
    pub cooldown_time: u32,
}

impl Job {
    /// The job with the given delivery, processing and cooldown time.
    pub fn new(delivery_time: u32, processing_time: u32, cooldown_time: u32) -> (job: Job)
        ensures
            job.delivery_time == delivery_time,
            job.processing_time == processing_time,
            job.cooldown_time == cooldown_time,
    {
        Job { delivery_time, processing_time, cooldown_time }
    }

    /// Sum of the three times of the job, as an unbounded integer.
    pub open spec fn total(self) -> int {
        self.delivery_time + self.processing_time + self.cooldown_time
    }

    /// The sum of the three times, saturating at `u32::MAX`.
    pub fn total_time(&self) -> (total: u32)
        ensures
            total == clamp_time(self.total()),
    {
        self.delivery_time.saturating_add(self.processing_time).saturating_add(self.cooldown_time)
    }
}

/// The time at which the machine falls idle when it runs `jobs` to completion
/// in the given order, each job starting as soon as it is released and the
/// machine is free.
pub open spec fn machine_free_time(jobs: Seq<Job>) -> int
    decreases jobs.len(),
{
    if jobs.len() == 0 {
        0
    } else {
        let job = jobs.last();
        max_of(machine_free_time(jobs.drop_last()), job.delivery_time as int)
            + job.processing_time
    }
}

/// The time at which the job at `position` starts when `jobs` run in order.
pub open spec fn start_in_sequence(jobs: Seq<Job>, position: int) -> int {
    max_of(machine_free_time(jobs.take(position)), jobs[position].delivery_time as int)
}

/// The makespan of `jobs` run in the given order without interruption: the
/// latest instant at which a job has finished processing and cooled down.
pub open spec fn sequence_makespan(jobs: Seq<Job>) -> int
    decreases jobs.len(),
{
    if jobs.len() == 0 {
        0
    } else {
        max_of(
            sequence_makespan(jobs.drop_last()),
            machine_free_time(jobs) + jobs.last().cooldown_time,
        )
    }
}

/// In a sequential run no job starts before its delivery time, and each job
/// occupies the machine from its start for its whole processing time.
pub proof fn lemma_sequence_respects_delivery(jobs: Seq<Job>, position: int)
    requires
        0 <= position < jobs.len(),
    ensures
        start_in_sequence(jobs, position) >= jobs[position].delivery_time,
        start_in_sequence(jobs, position) >= machine_free_time(jobs.take(position)),
        machine_free_time(jobs.take(position + 1)) == start_in_sequence(jobs, position)
            + jobs[position].processing_time,
{
    assert(jobs.take(position + 1).drop_last() =~= jobs.take(position));
}

/// An ordered sequence of jobs: the order in which they are loaded onto the
/// machine and run to completion.
#[derive(Debug, Clone, PartialEq, Eq)]
pub struct JobList {
    pub jobs: Vec<Job>,
}

impl JobList {
    /// The list that runs `jobs` in the order given.
    pub fn new(jobs: Vec<Job>) -> (list: JobList)
        ensures
            list.jobs == jobs,
    {
        JobList { jobs }
    }

    /// The jobs in ascending order of delivery time; jobs with equal delivery
    /// times keep their order.
    pub fn sorted_by_delivery_time(&self) -> (sorted: Vec<Job>)
        ensures
            sorted@ == stable_sort(self.jobs@, SortKey::DeliveryTime),
    {
        stable_sort_vec(&self.jobs, SortKey::DeliveryTime)
    }

    /// The jobs in ascending order of processing time; jobs with equal
    /// processing times keep their order.
    pub fn sorted_by_processing_time(&self) -> (sorted: Vec<Job>)
        ensures
            sorted@ == stable_sort(self.jobs@, SortKey::ProcessingTime),
    {
        stable_sort_vec(&self.jobs, SortKey::ProcessingTime)
    }

    /// The jobs in ascending order of cooldown time; jobs with equal cooldown
    /// times keep their order.
    pub fn sorted_by_cooldown_time(&self) -> (sorted: Vec<Job>)
        ensures
            sorted@ == stable_sort(self.jobs@, SortKey::CooldownTime),
    {
        stable_sort_vec(&self.jobs, SortKey::CooldownTime)
    }

    /// The makespan of the list run in order on a single machine, saturating
    /// at `u32::MAX`.
    pub fn c_max(&self) -> (makespan: u32)
        ensures
            makespan == clamp_time(sequence_makespan(self.jobs@)),
    {
        let mut makespan: u32 = 0;
        let mut s: u32 = 0;
        let n = self.jobs.len();
        for i in 0..n
            invariant
                n == self.jobs.len(),
                s == clamp_time(machine_free_time(self.jobs@.take(i as int))),
                makespan == clamp_time(sequence_makespan(self.jobs@.take(i as int))),
        {
            let job = self.jobs[i];
            proof {
                assert(self.jobs@.take(i + 1).drop_last() =~= self.jobs@.take(i as int));
                assert(self.jobs@.take(i + 1).last() == job);
            }
            if job.delivery_time > s {
                s = job.delivery_time.saturating_add(job.processing_time);
            } else {
                s = s.saturating_add(job.processing_time);
            }
            let done = s.saturating_add(job.cooldown_time);
            if done > makespan {
                makespan = done;
            }
        }
        proof {
            assert(self.jobs@.take(n as int) =~= self.jobs@);
        }
        makespan
    }
}

/// `values` as unbounded integers.
pub open spec fn widened(values: Seq<u32>) -> Seq<int> {
    Seq::new(values.len(), |i: int| values[i] as int)
}

/// The times and job positions of a timetable as unbounded integers.
pub open spec fn timeline_of(timetable: Seq<(u32, usize)>) -> Seq<(int, int)> {
    Seq::new(timetable.len(), |m: int| (timetable[m].0 as int, timetable[m].1 as int))
}

/// The processing time that each job still needs at the moment entry `entry`
/// of `timeline` begins, when every earlier entry ran its job from its time
/// until the job was finished or the next entry began.
pub open spec fn remaining_at(jobs: Seq<Job>, timeline: Seq<(int, int)>, entry: int) -> Seq<int>
    decreases entry,
{
    if entry <= 0 {
        Seq::new(jobs.len(), |i: int| jobs[i].processing_time as int)
    } else {
        let before = remaining_at(jobs, timeline, entry - 1);
        let (began, job) = timeline[entry - 1];
        let elapsed = timeline[entry].0 - began;
        before.update(job, max_of(0, before[job] - elapsed))
    }
}

/// The time for which entry `entry` of `timeline` occupies the machine: until
/// its job is finished or the next entry begins, whichever comes first.
pub open spec fn time_run(jobs: Seq<Job>, timeline: Seq<(int, int)>, entry: int) -> int {
    let left = remaining_at(jobs, timeline, entry)[timeline[entry].1];
    if entry + 1 < timeline.len() && timeline[entry + 1].0 - timeline[entry].0 < left {
        timeline[entry + 1].0 - timeline[entry].0
    } else {
        left
    }
}

/// The time for which the first `count` entries of `timeline` run the job at
/// position `job`.
pub open spec fn time_given(jobs: Seq<Job>, timeline: Seq<(int, int)>, job: int, count: int) -> int
    decreases count,
{
    if count <= 0 {
        0
    } else {
        time_given(jobs, timeline, job, count - 1) + if timeline[count - 1].1 == job {
            time_run(jobs, timeline, count - 1)
        } else {
            0
        }
    }
}

/// The instant at which the job of entry `entry` would be complete if it ran
/// from the entry's time without further interruption.
pub open spec fn completion_from(jobs: Seq<Job>, timeline: Seq<(int, int)>, entry: int) -> int {
    let (began, job) = timeline[entry];
    began + remaining_at(jobs, timeline, entry)[job] + jobs[job].cooldown_time
}

/// The latest of the completions of the first `count` entries of `timeline`.
pub open spec fn latest_completion(jobs: Seq<Job>, timeline: Seq<(int, int)>, count: int) -> int
    decreases count,
{
    if count <= 0 {
        0
    } else {
        max_of(
            latest_completion(jobs, timeline, count - 1),
            completion_from(jobs, timeline, count - 1),
        )
    }
}

/// The makespan of a preemptive schedule.
pub open spec fn schedule_makespan(jobs: Seq<Job>, timeline: Seq<(int, int)>) -> int {
    latest_completion(jobs, timeline, timeline.len() as int)
}

/// A timetable that names only jobs of `jobs` and whose times do not descend.
pub open spec fn timeline_fits(jobs: Seq<Job>, timeline: Seq<(int, int)>) -> bool {
    &&& forall|m: int| 0 <= m < timeline.len() ==> 0 <= (#[trigger] timeline[m]).1 < jobs.len()
    &&& forall|m: int, n: int|
        0 <= m <= n < timeline.len() ==> (#[trigger] timeline[m]).0 <= (#[trigger] timeline[n]).0
}

/// A job execution schedule for a single machine with possible preemptions.
/// Each entry of `timetable` holds a time and a position in `jobs`: at that
/// time the job at that position starts or resumes.
#[derive(Debug, Clone, PartialEq, Eq)]
pub struct JobSchedule {
    pub jobs: Vec<Job>,
    pub timetable: Vec<(u32, usize)>,
}

impl JobSchedule {
    /// The timetable with times and positions as unbounded integers.
    pub open spec fn timeline(&self) -> Seq<(int, int)> {
        timeline_of(self.timetable@)
    }

    /// Every entry names a job of the schedule, and the times do not descend.
    pub open spec fn well_formed(&self) -> bool {
        timeline_fits(self.jobs@, self.timeline())
    }

    /// The makespan of the schedule, saturating at `u32::MAX`: the time at
    /// which all jobs are complete.
    pub fn c_max(&self) -> (makespan: u32)
        requires
            self.well_formed(),
        ensures
            makespan == clamp_time(schedule_makespan(self.jobs@, self.timeline())),
    {
        let count = self.timetable.len();
        if count == 0 {
            return 0;
        }
        let ghost timeline = self.timeline();
        let mut remaining: Vec<u32> = Vec::new();
        let n = self.jobs.len();
        for i in 0..n
            invariant
                n == self.jobs.len(),
                remaining@.len() == i,
                forall|k: int| 0 <= k < i ==> remaining@[k] == self.jobs@[k].processing_time,
        {
            remaining.push(self.jobs[i].processing_time);
        }
        let mut makespan: u32 = 0;
        let (mut prev_time, mut prev_index) = self.timetable[0];
        proof {
            assert(timeline[0] == (prev_time as int, prev_index as int));
            assert(widened(remaining@) =~= remaining_at(self.jobs@, timeline, 0));
        }
        for m in 1..count
            invariant
                count == self.timetable.len(),
                timeline == self.timeline(),
                self.well_formed(),
                remaining@.len() == self.jobs.len(),
                widened(remaining@) == remaining_at(self.jobs@, timeline, m - 1),
                timeline[m - 1] == (prev_time as int, prev_index as int),
                makespan == clamp_time(latest_completion(self.jobs@, timeline, m - 1)),
        {
            let (time, index) = self.timetable[m];
            proof {
                assert(timeline[m as int] == (time as int, index as int));
                assert(0 <= timeline[m - 1].1 < self.jobs@.len());
                assert(timeline[m - 1].0 <= timeline[m as int].0);
                assert(remaining@[prev_index as int] == widened(remaining@)[prev_index as int]);
            }
            let left = remaining[prev_index];
            let done = prev_time.saturating_add(left).saturating_add(
                self.jobs[prev_index].cooldown_time,
            );
            if done > makespan {
                makespan = done;
            }
            let elapsed = time - prev_time;
            remaining.set(prev_index, if left > elapsed { left - elapsed } else { 0 });
            proof {
                assert(widened(remaining@) =~= remaining_at(self.jobs@, timeline, m as int));
            }
            prev_time = time;
            prev_index = index;
        }
        proof {
            assert(0 <= timeline[count - 1].1 < self.jobs@.len());
            assert(remaining@[prev_index as int] == widened(remaining@)[prev_index as int]);
        }
        let done = prev_time.saturating_add(remaining[prev_index]).saturating_add(
            self.jobs[prev_index].cooldown_time,
        );
        if done > makespan {
            makespan = done;
        }
        makespan
    }
}

} // verus!
