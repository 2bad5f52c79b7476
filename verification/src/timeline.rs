//! What holds of every timetable that names jobs of its schedule and whose
//! times do not descend.

use vstd::prelude::*;
use crate::jobs::{
    completion_from, latest_completion, remaining_at, time_given, timeline_fits, Job,
};

verus! {

/// The remaining processing times are never negative and never more than the
/// whole processing time.
pub proof fn lemma_remaining_in_range(jobs: Seq<Job>, timeline: Seq<(int, int)>, entry: int)
    requires
        timeline_fits(jobs, timeline),
        entry < timeline.len(),
    ensures
        remaining_at(jobs, timeline, entry).len() == jobs.len(),
        forall|i: int|
            0 <= i < jobs.len() ==> 0 <= #[trigger] remaining_at(jobs, timeline, entry)[i]
                <= jobs[i].processing_time,
    decreases entry,
{
    if entry > 0 {
        lemma_remaining_in_range(jobs, timeline, entry - 1);
        assert(0 <= timeline[entry - 1].1 < jobs.len());
        assert(timeline[entry - 1].0 <= timeline[entry].0);
    }
}

/// A further entry changes nothing for the entries before it.
pub proof fn lemma_remaining_of_prefix(
    jobs: Seq<Job>,
    timeline: Seq<(int, int)>,
    added: (int, int),
    entry: int,
)
    requires
        entry < timeline.len(),
    ensures
        remaining_at(jobs, timeline.push(added), entry) == remaining_at(jobs, timeline, entry),
    decreases entry,
{
    if entry > 0 {
        lemma_remaining_of_prefix(jobs, timeline, added, entry - 1);
        assert(timeline.push(added)[entry - 1] == timeline[entry - 1]);
        assert(timeline.push(added)[entry] == timeline[entry]);
    }
}

/// Before any entry but the last, the time that a job was given and the time
/// that it still needs add up to its processing time.
pub proof fn lemma_time_given_so_far(
    jobs: Seq<Job>,
    timeline: Seq<(int, int)>,
    job: int,
    count: int,
)
    requires
        timeline_fits(jobs, timeline),
        0 <= job < jobs.len(),
        0 <= count < timeline.len(),
    ensures
        time_given(jobs, timeline, job, count) + remaining_at(jobs, timeline, count)[job]
            == jobs[job].processing_time,
    decreases count,
{
    if count > 0 {
        lemma_time_given_so_far(jobs, timeline, job, count - 1);
        lemma_remaining_in_range(jobs, timeline, count - 1);
        assert(0 <= timeline[count - 1].1 < jobs.len());
        assert(timeline[count - 1].0 <= timeline[count].0);
    }
}

/// Over the whole timetable, a job is given its processing time less what it
/// still needs when the last entry begins; the job of the last entry is
/// given all of its processing time.
pub proof fn lemma_time_given_in_all(jobs: Seq<Job>, timeline: Seq<(int, int)>, job: int)
    requires
        timeline_fits(jobs, timeline),
        0 <= job < jobs.len(),
        timeline.len() > 0,
    ensures
        time_given(jobs, timeline, job, timeline.len() as int) == if timeline.last().1 == job {
            jobs[job].processing_time as int
        } else {
            jobs[job].processing_time - remaining_at(jobs, timeline, timeline.len() - 1)[job]
        },
{
    lemma_time_given_so_far(jobs, timeline, job, timeline.len() - 1);
}

/// The makespan is no earlier than the completion of any entry.
pub proof fn lemma_makespan_covers(
    jobs: Seq<Job>,
    timeline: Seq<(int, int)>,
    count: int,
    entry: int,
)
    requires
        0 <= entry < count,
    ensures
        completion_from(jobs, timeline, entry) <= latest_completion(jobs, timeline, count),
        0 <= latest_completion(jobs, timeline, count),
    decreases count,
{
    if entry < count - 1 {
        lemma_makespan_covers(jobs, timeline, count - 1, entry);
    } else if count > 1 {
        lemma_makespan_covers(jobs, timeline, count - 1, 0);
    }
}

/// The makespan is within every bound that is not negative and that the
/// completion of every entry is within.
pub proof fn lemma_makespan_within(
    jobs: Seq<Job>,
    timeline: Seq<(int, int)>,
    count: int,
    bound: int,
)
    requires
        0 <= bound,
        forall|m: int| 0 <= m < count ==> #[trigger] completion_from(jobs, timeline, m) <= bound,
    ensures
        latest_completion(jobs, timeline, count) <= bound,
    decreases count,
{
    if count > 0 {
        lemma_makespan_within(jobs, timeline, count - 1, bound);
        assert(completion_from(jobs, timeline, count - 1) <= bound);
    }
}

} // verus!
