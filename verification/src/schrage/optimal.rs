//! Why the preemptive schedule is never late.
//!
//! Take any threshold. While a job with a cooldown time of at least the
//! threshold waits, the preemptive machine runs only such jobs, so that it is
//! done with them no later than if there were no other jobs. Each entry of
//! the timetable therefore completes within the tail bound of its job's
//! cooldown time.

use vstd::prelude::*;
use crate::bound::{
    free_time_from, lemma_free_time_concat, lemma_free_time_first, lemma_free_time_from_start,
    lemma_free_time_grows, lemma_long_tailed_concat, long_tailed, tail_bound,
};
use crate::jobs::{completion_from, machine_free_time, max_of, Job};
use crate::order::{is_sorted, SortKey};
use crate::schrage::machine::{
    advance, after, job_outranks, lemma_advance, lemma_release_until, lemma_top_exists,
    nothing_waits, release_until, sound, top, with_released, Machine,
};
use crate::schrage::run::{lemma_after_is_orderly, lemma_replays_after_run, orderly};
use crate::timeline::lemma_remaining_of_prefix;

verus! {

/// The processing time that the jobs below `below` with a cooldown time of at
/// least `threshold` still need.
pub open spec fn work_left(jobs: Seq<Job>, left: Seq<int>, threshold: int, below: int) -> int
    decreases below,
{
    if below <= 0 {
        0
    } else {
        work_left(jobs, left, threshold, below - 1) + if jobs[below - 1].cooldown_time
            >= threshold {
            left[below - 1]
        } else {
            0
        }
    }
}

/// A job with a cooldown time of at least `threshold` waits.
pub open spec fn pressing(jobs: Seq<Job>, waiting: Set<int>, threshold: int) -> bool {
    exists|i: int| #[trigger] waiting.contains(i) && jobs[i].cooldown_time >= threshold
}

/// Where a job with a cooldown time of at least `threshold` waits, the
/// machine can be done with all such jobs, released or not, as early as if
/// there were no other jobs.
pub open spec fn in_time(
    jobs: Seq<Job>,
    clock: int,
    released: int,
    waiting: Set<int>,
    left: Seq<int>,
    threshold: int,
) -> bool {
    pressing(jobs, waiting, threshold) ==> free_time_from(
        clock + work_left(jobs, left, threshold, released),
        long_tailed(jobs.skip(released), threshold),
    ) <= machine_free_time(long_tailed(jobs, threshold))
}

/// The machine is in time for every threshold, and every entry of the
/// timetable completes within the tail bound of its job's cooldown time.
pub open spec fn timely(jobs: Seq<Job>, machine: Machine) -> bool {
    &&& forall|threshold: int| #[trigger]
        in_time(
            jobs,
            machine.clock,
            machine.released,
            machine.waiting,
            machine.left,
            threshold,
        )
    &&& forall|m: int|
        0 <= m < machine.timetable.len() ==> #[trigger] completion_from(
            jobs,
            machine.timetable,
            m,
        ) <= tail_bound(jobs, jobs[machine.timetable[m].1].cooldown_time as int)
}

/// The work that is left is not negative, and it is at least what any one
/// of its jobs needs.
proof fn lemma_work_left_facts(jobs: Seq<Job>, left: Seq<int>, threshold: int, below: int)
    requires
        0 <= below <= jobs.len() == left.len(),
        forall|i: int| 0 <= i < jobs.len() ==> 0 <= #[trigger] left[i],
    ensures
        0 <= work_left(jobs, left, threshold, below),
        forall|i: int|
            0 <= i < below && jobs[i].cooldown_time >= threshold ==> #[trigger] left[i]
                <= work_left(jobs, left, threshold, below),
    decreases below,
{
    if below > 0 {
        lemma_work_left_facts(jobs, left, threshold, below - 1);
        assert(0 <= left[below - 1]);
    }
}

/// A change in what one job needs changes the work that is left by as
/// much, where the job counts.
proof fn lemma_work_left_update(
    jobs: Seq<Job>,
    left: Seq<int>,
    threshold: int,
    below: int,
    job: int,
    amount: int,
)
    requires
        0 <= below <= jobs.len() == left.len(),
        0 <= job < jobs.len(),
    ensures
        work_left(jobs, left.update(job, amount), threshold, below) == work_left(
            jobs,
            left,
            threshold,
            below,
        ) + if job < below && jobs[job].cooldown_time >= threshold {
            amount - left[job]
        } else {
            0
        },
    decreases below,
{
    if below > 0 {
        lemma_work_left_update(jobs, left, threshold, below - 1, job, amount);
    }
}

/// No work is left where no job of a long cooldown time waits.
proof fn lemma_work_left_idle(
    jobs: Seq<Job>,
    left: Seq<int>,
    threshold: int,
    below: int,
    waiting: Set<int>,
)
    requires
        0 <= below <= jobs.len() == left.len(),
        forall|i: int| 0 <= i < below && !waiting.contains(i) ==> #[trigger] left[i] == 0,
        !pressing(jobs, waiting, threshold),
    ensures
        work_left(jobs, left, threshold, below) == 0,
    decreases below,
{
    if below > 0 {
        lemma_work_left_idle(jobs, left, threshold, below - 1, waiting);
        if jobs[below - 1].cooldown_time >= threshold {
            if waiting.contains(below - 1) {
                assert(pressing(jobs, waiting, threshold));
            }
            assert(left[below - 1] == 0);
        }
    }
}

/// Releasing the job at `position` hands it to the machine where its
/// cooldown time reaches the threshold, and changes nothing otherwise.
proof fn lemma_free_time_release(jobs: Seq<Job>, position: int, threshold: int, clock: int)
    requires
        0 <= position < jobs.len(),
    ensures
        free_time_from(clock, long_tailed(jobs.skip(position), threshold))
            == if jobs[position].cooldown_time >= threshold {
            free_time_from(
                max_of(clock, jobs[position].delivery_time as int)
                    + jobs[position].processing_time,
                long_tailed(jobs.skip(position + 1), threshold),
            )
        } else {
            free_time_from(clock, long_tailed(jobs.skip(position + 1), threshold))
        },
{
    let first = jobs[position];
    let rest = jobs.skip(position + 1);
    assert(jobs.skip(position) =~= seq![first] + rest);
    lemma_long_tailed_concat(seq![first], rest, threshold);
    assert(seq![first].drop_last() =~= Seq::<Job>::empty());
    assert(long_tailed(Seq::<Job>::empty(), threshold) =~= Seq::<Job>::empty());
    if first.cooldown_time >= threshold {
        assert(long_tailed(seq![first], threshold) =~= seq![first]);
        lemma_free_time_first(clock, first, long_tailed(rest, threshold));
    } else {
        assert(long_tailed(seq![first], threshold) =~= Seq::<Job>::empty());
        assert(Seq::<Job>::empty() + long_tailed(rest, threshold) =~= long_tailed(
            rest,
            threshold,
        ));
    }
}

/// The jobs from `position` on are done, run alone from time 0, no later
/// than all the jobs.
proof fn lemma_later_jobs_alone(jobs: Seq<Job>, position: int, threshold: int)
    requires
        0 <= position <= jobs.len(),
    ensures
        free_time_from(0, long_tailed(jobs.skip(position), threshold)) <= machine_free_time(
            long_tailed(jobs, threshold),
        ),
{
    let front = jobs.take(position);
    let back = jobs.skip(position);
    assert(jobs =~= front + back);
    lemma_long_tailed_concat(front, back, threshold);
    lemma_free_time_concat(0, long_tailed(front, threshold), long_tailed(back, threshold));
    lemma_free_time_grows(0, 0, long_tailed(front, threshold));
    lemma_free_time_grows(
        0,
        free_time_from(0, long_tailed(front, threshold)),
        long_tailed(back, threshold),
    );
    lemma_free_time_from_start(long_tailed(jobs, threshold));
}

/// The machine stays in time while the jobs whose delivery time is the
/// current time are released.
proof fn lemma_release_in_time(
    jobs: Seq<Job>,
    clock: int,
    released: int,
    waiting: Set<int>,
    left: Seq<int>,
    threshold: int,
    until: int,
)
    requires
        0 <= clock,
        0 <= released <= until <= jobs.len() == left.len(),
        forall|i: int| waiting.contains(i) ==> 0 <= i < released,
        forall|i: int| 0 <= i < jobs.len() ==> 0 <= #[trigger] left[i],
        forall|i: int| released <= i < jobs.len() ==> #[trigger] left[i] == jobs[i].processing_time,
        forall|i: int| 0 <= i < released && !waiting.contains(i) ==> #[trigger] left[i] == 0,
        forall|i: int| released <= i < until ==> (#[trigger] jobs[i]).delivery_time == clock,
        in_time(jobs, clock, released, waiting, left, threshold),
    ensures
        in_time(jobs, clock, until, with_released(waiting, released, until), left, threshold),
    decreases until - released,
{
    if until == released {
        assert(with_released(waiting, released, until) =~= waiting);
    } else {
        let last = until - 1;
        let before = with_released(waiting, released, last);
        let now = with_released(waiting, released, until);
        lemma_release_in_time(jobs, clock, released, waiting, left, threshold, last);
        lemma_free_time_release(jobs, last, threshold, clock + work_left(
            jobs,
            left,
            threshold,
            last,
        ));
        lemma_work_left_facts(jobs, left, threshold, last);
        assert(jobs[last].delivery_time == clock);
        assert(left[last] == jobs[last].processing_time);
        if pressing(jobs, now, threshold) {
            let w = choose|i: int| #[trigger] now.contains(i) && jobs[i].cooldown_time >= threshold;
            if jobs[last].cooldown_time >= threshold {
                if !pressing(jobs, before, threshold) {
                    assert forall|i: int| 0 <= i < last && !before.contains(i) implies
                        #[trigger] left[i] == 0 by {
                        assert(!waiting.contains(i));
                    }
                    lemma_work_left_idle(jobs, left, threshold, last, before);
                    lemma_later_jobs_alone(jobs, last, threshold);
                    lemma_free_time_release(jobs, last, threshold, 0);
                }
            } else {
                assert(w != last);
                assert(before.contains(w));
            }
        }
    }
}

/// The machine is in time once the jobs that are due are released.
proof fn lemma_released_in_time(jobs: Seq<Job>, now: Machine, threshold: int)
    requires
        is_sorted(jobs, SortKey::DeliveryTime),
        sound(jobs, now, true),
        in_time(jobs, now.clock, now.released, now.waiting, now.left, threshold),
    ensures
        in_time(
            jobs,
            now.clock,
            release_until(jobs, now.released, now.clock),
            with_released(
                now.waiting,
                now.released,
                release_until(jobs, now.released, now.clock),
            ),
            now.left,
            threshold,
        ),
{
    let released = release_until(jobs, now.released, now.clock);
    lemma_release_until(jobs, now.released, now.clock);
    assert forall|i: int| now.released <= i < released implies (#[trigger] jobs[i]).delivery_time
        == now.clock by {
        assert(SortKey::DeliveryTime.of(jobs[now.released]) <= SortKey::DeliveryTime.of(jobs[i]));
    }
    lemma_release_in_time(
        jobs,
        now.clock,
        now.released,
        now.waiting,
        now.left,
        threshold,
        released,
    );
}

/// A step keeps the machine in time for the threshold.
proof fn lemma_advance_in_time(jobs: Seq<Job>, now: Machine, threshold: int)
    requires
        is_sorted(jobs, SortKey::DeliveryTime),
        sound(jobs, now, true),
        in_time(jobs, now.clock, now.released, now.waiting, now.left, threshold),
    ensures
        ({
            let next = advance(jobs, now, true);
            in_time(jobs, next.clock, next.released, next.waiting, next.left, threshold)
        }),
{
    let next = advance(jobs, now, true);
    let released = release_until(jobs, now.released, now.clock);
    let waiting = with_released(now.waiting, now.released, released);
    lemma_release_until(jobs, now.released, now.clock);
    lemma_released_in_time(jobs, now, threshold);
    lemma_advance(jobs, now, true);
    if nothing_waits(waiting) {
        if pressing(jobs, next.waiting, threshold) {
            let w = choose|i: int|
                #[trigger] next.waiting.contains(i) && jobs[i].cooldown_time >= threshold;
            assert(!waiting.contains(w));
        }
    } else {
        lemma_top_exists(jobs, now.left, waiting, released);
        let job = top(jobs, now.left, waiting);
        if pressing(jobs, next.waiting, threshold) {
            let w = choose|i: int|
                #[trigger] next.waiting.contains(i) && jobs[i].cooldown_time >= threshold;
            assert(waiting.contains(w));
            assert(pressing(jobs, waiting, threshold));
            assert(!job_outranks(jobs, now.left, w, job));
            assert(jobs[job].cooldown_time >= threshold);
            lemma_work_left_update(jobs, now.left, threshold, released, job, next.left[job]);
        }
    }
}

/// A step keeps the machine timely.
pub proof fn lemma_advance_timely(jobs: Seq<Job>, now: Machine)
    requires
        is_sorted(jobs, SortKey::DeliveryTime),
        sound(jobs, now, true),
        orderly(jobs, now, true),
        timely(jobs, now),
    ensures
        timely(jobs, advance(jobs, now, true)),
{
    let next = advance(jobs, now, true);
    let released = release_until(jobs, now.released, now.clock);
    let waiting = with_released(now.waiting, now.released, released);
    lemma_release_until(jobs, now.released, now.clock);
    lemma_advance(jobs, now, true);
    assert forall|threshold: int| #[trigger]
        in_time(jobs, next.clock, next.released, next.waiting, next.left, threshold) by {
        assert(in_time(jobs, now.clock, now.released, now.waiting, now.left, threshold));
        lemma_advance_in_time(jobs, now, threshold);
    }
    if !nothing_waits(waiting) {
        lemma_top_exists(jobs, now.left, waiting, released);
        let job = top(jobs, now.left, waiting);
        let threshold = jobs[job].cooldown_time as int;
        assert(0 <= now.left[job] <= jobs[job].processing_time);
        lemma_replays_after_run(jobs, now, next, true, job);
        assert forall|m: int| 0 <= m < next.timetable.len() implies #[trigger] completion_from(
            jobs,
            next.timetable,
            m,
        ) <= tail_bound(jobs, jobs[next.timetable[m].1].cooldown_time as int) by {
            if m < now.timetable.len() {
                if next.timetable != now.timetable {
                    lemma_remaining_of_prefix(jobs, now.timetable, (now.clock, job), m);
                }
                assert(completion_from(jobs, now.timetable, m) <= tail_bound(
                    jobs,
                    jobs[now.timetable[m].1].cooldown_time as int,
                ));
            } else {
                assert(in_time(jobs, now.clock, now.released, now.waiting, now.left, threshold));
                lemma_released_in_time(jobs, now, threshold);
                assert(pressing(jobs, waiting, threshold));
                lemma_work_left_facts(jobs, now.left, threshold, released);
                lemma_free_time_grows(
                    now.clock + work_left(jobs, now.left, threshold, released),
                    now.clock + work_left(jobs, now.left, threshold, released),
                    long_tailed(jobs.skip(released), threshold),
                );
                assert(now.left[job] <= work_left(jobs, now.left, threshold, released));
            }
        }
    }
}

/// The preemptive machine is timely at every step.
pub proof fn lemma_after_is_timely(jobs: Seq<Job>, steps: nat)
    requires
        is_sorted(jobs, SortKey::DeliveryTime),
    ensures
        timely(jobs, after(jobs, true, steps)),
    decreases steps,
{
    if steps == 0 {
        let start = after(jobs, true, 0);
        assert forall|threshold: int| #[trigger]
            in_time(jobs, start.clock, start.released, start.waiting, start.left, threshold) by {
            assert(!pressing(jobs, start.waiting, threshold));
        }
    } else {
        let before = after(jobs, true, (steps - 1) as nat);
        lemma_after_is_timely(jobs, (steps - 1) as nat);
        lemma_after_is_orderly(jobs, true, (steps - 1) as nat);
        lemma_advance_timely(jobs, before);
    }
}

} // verus!
