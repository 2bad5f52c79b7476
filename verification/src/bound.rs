//! A lower bound on the makespan of every order of a set of jobs.
//!
//! The jobs whose cooldown time is at least some threshold have to run one
//! after the other, none before its delivery, and the last of them to finish
//! then cools down for at least the threshold. The machine is done with them
//! soonest when they run in ascending order of delivery time
//! ([`lemma_sorted_is_fastest`]), so no order of all the jobs has a makespan
//! below [`tail_bound`] ([`lemma_sequence_meets_tail_bound`]).

use vstd::prelude::*;
use crate::jobs::{machine_free_time, max_of, sequence_makespan, Job};
use crate::order::{is_sorted, SortKey};

verus! {

/// The time at which the machine falls idle when it is free at `clock` and
/// then runs `jobs` to completion in the given order.
pub open spec fn free_time_from(clock: int, jobs: Seq<Job>) -> int
    decreases jobs.len(),
{
    if jobs.len() == 0 {
        clock
    } else {
        max_of(free_time_from(clock, jobs.drop_last()), jobs.last().delivery_time as int)
            + jobs.last().processing_time
    }
}

/// The sum of the processing times of `jobs`.
pub open spec fn total_processing(jobs: Seq<Job>) -> int
    decreases jobs.len(),
{
    if jobs.len() == 0 {
        0
    } else {
        total_processing(jobs.drop_last()) + jobs.last().processing_time
    }
}

/// The jobs of `jobs` whose cooldown time is at least `threshold`, in the
/// order of `jobs`.
pub open spec fn long_tailed(jobs: Seq<Job>, threshold: int) -> Seq<Job>
    decreases jobs.len(),
{
    if jobs.len() == 0 {
        jobs
    } else {
        let rest = long_tailed(jobs.drop_last(), threshold);
        if jobs.last().cooldown_time >= threshold {
            rest.push(jobs.last())
        } else {
            rest
        }
    }
}

/// The earliest that the jobs of `jobs` with a cooldown time of at least
/// `threshold` can all be complete, where `jobs` is in ascending order of
/// delivery time.
pub open spec fn tail_bound(jobs: Seq<Job>, threshold: int) -> int {
    machine_free_time(long_tailed(jobs, threshold)) + threshold
}

/// From time 0 the machine falls idle at its free time.
pub proof fn lemma_free_time_from_start(jobs: Seq<Job>)
    ensures
        free_time_from(0, jobs) == machine_free_time(jobs),
    decreases jobs.len(),
{
    if jobs.len() > 0 {
        lemma_free_time_from_start(jobs.drop_last());
    }
}

/// A later start makes the machine fall idle no earlier, and it never falls
/// idle before the start.
pub proof fn lemma_free_time_grows(clock: int, later: int, jobs: Seq<Job>)
    requires
        clock <= later,
    ensures
        clock <= free_time_from(clock, jobs) <= free_time_from(later, jobs),
    decreases jobs.len(),
{
    if jobs.len() > 0 {
        lemma_free_time_grows(clock, later, jobs.drop_last());
    }
}

/// Running two sequences one after the other is running the second from
/// where the first leaves the machine.
pub proof fn lemma_free_time_concat(clock: int, front: Seq<Job>, back: Seq<Job>)
    ensures
        free_time_from(clock, front + back) == free_time_from(free_time_from(clock, front), back),
    decreases back.len(),
{
    if back.len() == 0 {
        assert(front + back =~= front);
    } else {
        lemma_free_time_concat(clock, front, back.drop_last());
        assert((front + back).drop_last() =~= front + back.drop_last());
    }
}

/// The first job of a sequence starts at the clock's time or at its
/// delivery, whichever is later; the rest runs from where it ends.
pub proof fn lemma_free_time_first(clock: int, first: Job, rest: Seq<Job>)
    ensures
        free_time_from(clock, seq![first] + rest) == free_time_from(
            max_of(clock, first.delivery_time as int) + first.processing_time,
            rest,
        ),
{
    lemma_free_time_concat(clock, seq![first], rest);
    assert(seq![first].drop_last() =~= Seq::<Job>::empty());
    assert(free_time_from(clock, seq![first].drop_last()) == clock);
}

/// From a start that is not negative, the machine falls idle either when the
/// jobs have run back to back from the start, or when it would from time 0.
proof fn lemma_free_time_splits(clock: int, jobs: Seq<Job>)
    requires
        0 <= clock,
    ensures
        free_time_from(clock, jobs) == max_of(
            clock + total_processing(jobs),
            free_time_from(0, jobs),
        ),
        0 <= total_processing(jobs),
    decreases jobs.len(),
{
    if jobs.len() > 0 {
        lemma_free_time_splits(clock, jobs.drop_last());
    }
}

/// Jobs that are all delivered at `earliest` or later keep the machine at
/// least until they have all run from `earliest` on.
proof fn lemma_free_time_after_deliveries(clock: int, jobs: Seq<Job>, earliest: int)
    requires
        jobs.len() > 0,
        forall|i: int| 0 <= i < jobs.len() ==> (#[trigger] jobs[i]).delivery_time >= earliest,
    ensures
        free_time_from(clock, jobs) >= earliest + total_processing(jobs),
    decreases jobs.len(),
{
    let front = jobs.drop_last();
    if front.len() > 0 {
        assert forall|i: int| 0 <= i < front.len() implies (#[trigger] front[i]).delivery_time
            >= earliest by {
            assert(jobs[i].delivery_time >= earliest);
        }
        lemma_free_time_after_deliveries(clock, front, earliest);
    } else {
        assert(jobs[jobs.len() - 1].delivery_time >= earliest);
        assert(total_processing(front) == 0);
    }
}

/// Taking a job out of a sequence in ascending order of delivery time and
/// running it after the others makes the machine fall idle no earlier.
proof fn lemma_moved_to_end(jobs: Seq<Job>, position: int)
    requires
        is_sorted(jobs, SortKey::DeliveryTime),
        0 <= position < jobs.len(),
    ensures
        machine_free_time(jobs) <= max_of(
            machine_free_time(jobs.remove(position)),
            jobs[position].delivery_time as int,
        ) + jobs[position].processing_time,
{
    let moved = jobs[position];
    let front = jobs.subrange(0, position);
    let back = jobs.subrange(position + 1, jobs.len() as int);
    assert(jobs =~= front + (seq![moved] + back));
    assert(jobs.remove(position) =~= front + back);
    let reached = free_time_from(0, front);
    lemma_free_time_grows(0, 0, front);
    lemma_free_time_from_start(jobs);
    lemma_free_time_from_start(jobs.remove(position));
    lemma_free_time_concat(0, front, seq![moved] + back);
    lemma_free_time_first(reached, moved, back);
    lemma_free_time_concat(0, front, back);
    let resumed = max_of(reached, moved.delivery_time as int) + moved.processing_time;
    lemma_free_time_splits(resumed, back);
    lemma_free_time_splits(reached, back);
    if back.len() > 0 {
        assert forall|i: int| 0 <= i < back.len() implies (#[trigger] back[i]).delivery_time
            >= moved.delivery_time by {
            assert(SortKey::DeliveryTime.of(jobs[position]) <= SortKey::DeliveryTime.of(
                jobs[position + 1 + i],
            ));
        }
        lemma_free_time_after_deliveries(0, back, moved.delivery_time as int);
    }
}

/// Of all the orders of the same jobs, the one in ascending order of
/// delivery time lets the machine fall idle soonest.
pub proof fn lemma_sorted_is_fastest(sorted: Seq<Job>, jobs: Seq<Job>)
    requires
        is_sorted(sorted, SortKey::DeliveryTime),
        sorted.to_multiset() == jobs.to_multiset(),
    ensures
        machine_free_time(sorted) <= machine_free_time(jobs),
    decreases jobs.len(),
{
    broadcast use vstd::seq_lib::group_to_multiset_ensures;

    vstd::seq_lib::to_multiset_len(sorted);
    vstd::seq_lib::to_multiset_len(jobs);
    if jobs.len() > 0 {
        let moved = jobs.last();
        assert(jobs =~= jobs.drop_last().push(moved));
        assert(jobs.to_multiset().count(moved) > 0);
        assert(sorted.contains(moved));
        let position = choose|i: int| 0 <= i < sorted.len() && sorted[i] == moved;
        let others = sorted.remove(position);
        assert(others.to_multiset() =~= jobs.drop_last().to_multiset()) by {
            assert(others.to_multiset() == sorted.to_multiset().remove(moved));
            assert(jobs.to_multiset() == jobs.drop_last().to_multiset().insert(moved));
        }
        assert forall|i: int, j: int| 0 <= i <= j < others.len() implies SortKey::DeliveryTime.of(
            others[i],
        ) <= SortKey::DeliveryTime.of(others[j]) by {
            let from = if i < position { i } else { i + 1 };
            let to = if j < position { j } else { j + 1 };
            assert(SortKey::DeliveryTime.of(sorted[from]) <= SortKey::DeliveryTime.of(sorted[to]));
        }
        lemma_sorted_is_fastest(others, jobs.drop_last());
        lemma_moved_to_end(sorted, position);
    }
}

/// The jobs of a long cooldown time in two sequences joined are those of
/// the first followed by those of the second.
pub proof fn lemma_long_tailed_concat(front: Seq<Job>, back: Seq<Job>, threshold: int)
    ensures
        long_tailed(front + back, threshold) == long_tailed(front, threshold) + long_tailed(
            back,
            threshold,
        ),
    decreases back.len(),
{
    if back.len() == 0 {
        assert(front + back =~= front);
        assert(long_tailed(front, threshold) + long_tailed(back, threshold) =~= long_tailed(
            front,
            threshold,
        ));
    } else {
        lemma_long_tailed_concat(front, back.drop_last(), threshold);
        assert((front + back).drop_last() =~= front + back.drop_last());
        if back.last().cooldown_time >= threshold {
            assert((long_tailed(front, threshold) + long_tailed(
                back.drop_last(),
                threshold,
            )).push(back.last()) =~= long_tailed(front, threshold) + long_tailed(
                back.drop_last(),
                threshold,
            ).push(back.last()));
        }
    }
}

/// `long_tailed` keeps each job with a cooldown time of at least the
/// threshold as often as it occurs, keeps no other, and keeps the order.
pub proof fn lemma_long_tailed_members(jobs: Seq<Job>, threshold: int)
    ensures
        forall|job: Job| #[trigger]
            long_tailed(jobs, threshold).to_multiset().count(job) == if job.cooldown_time
                >= threshold {
                jobs.to_multiset().count(job)
            } else {
                0
            },
        is_sorted(jobs, SortKey::DeliveryTime) ==> is_sorted(
            long_tailed(jobs, threshold),
            SortKey::DeliveryTime,
        ),
        forall|i: int|
            0 <= i < long_tailed(jobs, threshold).len() ==> jobs.contains(
                #[trigger] long_tailed(jobs, threshold)[i],
            ),
    decreases jobs.len(),
{
    broadcast use vstd::seq_lib::group_to_multiset_ensures;

    let kept = long_tailed(jobs, threshold);
    if jobs.len() == 0 {
        assert forall|job: Job| #[trigger] kept.to_multiset().count(job) == 0 by {
            assert(!kept.contains(job));
        }
        assert forall|job: Job| #[trigger] jobs.to_multiset().count(job) == 0 by {
            assert(!jobs.contains(job));
        }
    } else {
        let front = jobs.drop_last();
        let last = jobs.last();
        let rest = long_tailed(front, threshold);
        lemma_long_tailed_members(front, threshold);
        assert(jobs =~= front.push(last));
        assert(jobs.to_multiset() == front.to_multiset().insert(last));
        assert forall|job: Job| #[trigger]
            kept.to_multiset().count(job) == if job.cooldown_time >= threshold {
                jobs.to_multiset().count(job)
            } else {
                0
            } by {
            assert(rest.to_multiset().count(job) == if job.cooldown_time >= threshold {
                front.to_multiset().count(job)
            } else {
                0
            });
        }
        assert forall|i: int| 0 <= i < kept.len() implies jobs.contains(#[trigger] kept[i]) by {
            if i < rest.len() {
                assert(front.contains(rest[i]));
                let w = choose|w: int| 0 <= w < front.len() && front[w] == rest[i];
                assert(jobs[w] == kept[i]);
            } else {
                assert(jobs[jobs.len() - 1] == kept[i]);
            }
        }
        if is_sorted(jobs, SortKey::DeliveryTime) {
            assert forall|i: int, j: int| 0 <= i <= j < front.len() implies
                SortKey::DeliveryTime.of(front[i]) <= SortKey::DeliveryTime.of(front[j]) by {
                assert(SortKey::DeliveryTime.of(jobs[i]) <= SortKey::DeliveryTime.of(jobs[j]));
            }
            assert forall|i: int, j: int| 0 <= i <= j < kept.len() implies
                SortKey::DeliveryTime.of(kept[i]) <= SortKey::DeliveryTime.of(kept[j]) by {
                if j < rest.len() {
                    assert(SortKey::DeliveryTime.of(rest[i]) <= SortKey::DeliveryTime.of(rest[j]));
                } else if i < rest.len() {
                    assert(front.contains(rest[i]));
                    let w = choose|w: int| 0 <= w < front.len() && front[w] == rest[i];
                    assert(SortKey::DeliveryTime.of(jobs[w]) <= SortKey::DeliveryTime.of(
                        jobs[jobs.len() - 1],
                    ));
                }
            }
        }
    }
}

/// The machine is busy with all the jobs at least as long as with those of
/// a long cooldown time alone, and the makespan leaves the last of these its
/// cooldown.
pub proof fn lemma_long_tailed_run_first(jobs: Seq<Job>, threshold: int)
    ensures
        machine_free_time(long_tailed(jobs, threshold)) <= machine_free_time(jobs),
        0 <= sequence_makespan(jobs),
        long_tailed(jobs, threshold).len() > 0 ==> machine_free_time(
            long_tailed(jobs, threshold),
        ) + threshold <= sequence_makespan(jobs),
    decreases jobs.len(),
{
    if jobs.len() > 0 {
        lemma_long_tailed_run_first(jobs.drop_last(), threshold);
        let rest = long_tailed(jobs.drop_last(), threshold);
        if jobs.last().cooldown_time >= threshold {
            assert(rest.push(jobs.last()).drop_last() =~= rest);
        }
    }
}

/// No order of the jobs has a makespan below the tail bound of any
/// threshold that some job reaches.
pub proof fn lemma_sequence_meets_tail_bound(
    sequence: Seq<Job>,
    sorted: Seq<Job>,
    threshold: int,
)
    requires
        is_sorted(sorted, SortKey::DeliveryTime),
        sequence.to_multiset() == sorted.to_multiset(),
        long_tailed(sorted, threshold).len() > 0,
    ensures
        tail_bound(sorted, threshold) <= sequence_makespan(sequence),
{
    broadcast use vstd::seq_lib::group_to_multiset_ensures;

    let ours = long_tailed(sequence, threshold);
    let theirs = long_tailed(sorted, threshold);
    lemma_long_tailed_members(sequence, threshold);
    lemma_long_tailed_members(sorted, threshold);
    assert(ours.to_multiset() =~= theirs.to_multiset());
    vstd::seq_lib::to_multiset_len(ours);
    vstd::seq_lib::to_multiset_len(theirs);
    lemma_sorted_is_fastest(theirs, ours);
    lemma_long_tailed_run_first(sequence, threshold);
}

} // verus!
