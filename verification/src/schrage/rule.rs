//! The rule that every schedule follows, read off its timetable.
//!
//! An entry runs the job of highest priority among the jobs that are due and
//! still need the machine; the machine idles only while no such job is due;
//! and with preemption no job that arrives while an entry runs outranks the
//! job of that entry.

use vstd::prelude::*;
use crate::jobs::{remaining_at, time_run, Job};
use crate::order::{is_sorted, SortKey};
use crate::pool::rank_above;
use crate::schrage::machine::{
    advance, after, job_outranks, lemma_advance, lemma_release_until, lemma_top_exists,
    nothing_waits, release_until, sound, top, with_released, Machine,
};
use crate::schrage::run::{
    lemma_advance_orderly, lemma_after_is_orderly, lemma_replays_after_run,
    lemma_sound_timeline_fits, orderly,
};
use crate::timeline::{lemma_remaining_in_range, lemma_remaining_of_prefix};

verus! {

/// The smaller of `a` and `b`.
pub open spec fn min_of(a: int, b: int) -> int {
    if a <= b {
        a
    } else {
        b
    }
}

/// No job that is due when entry `entry` begins, and that still needs the
/// machine then, outranks the job of the entry.
pub open spec fn runs_the_top(jobs: Seq<Job>, timetable: Seq<(int, int)>, entry: int) -> bool {
    forall|i: int|
        0 <= i < jobs.len() && jobs[i].delivery_time <= timetable[entry].0
            && #[trigger] remaining_at(jobs, timetable, entry)[i] > 0 ==> !job_outranks(
            jobs,
            remaining_at(jobs, timetable, entry),
            i,
            timetable[entry].1,
        )
}

/// The machine has been idle when entry `entry` begins: it is the first
/// entry, or the job of the entry before it was finished earlier.
pub open spec fn idle_before(jobs: Seq<Job>, timetable: Seq<(int, int)>, entry: int) -> bool {
    entry == 0 || timetable[entry - 1].0 + remaining_at(
        jobs,
        timetable,
        entry - 1,
    )[timetable[entry - 1].1] < timetable[entry].0
}

/// No job that still needs the machine when entry `entry` begins was due
/// before.
pub open spec fn nothing_was_due(jobs: Seq<Job>, timetable: Seq<(int, int)>, entry: int) -> bool {
    forall|i: int|
        0 <= i < jobs.len() && #[trigger] remaining_at(jobs, timetable, entry)[i] > 0
            ==> jobs[i].delivery_time >= timetable[entry].0
}

/// The time at which entry `entry` stops running its job.
pub open spec fn run_end(jobs: Seq<Job>, timetable: Seq<(int, int)>, entry: int) -> int {
    timetable[entry].0 + time_run(jobs, timetable, entry)
}

/// No job that takes time and is delivered after entry `entry` begins and
/// before `end` outranks, when it is delivered, the job of the entry with
/// the processing time that this job has left by then.
pub open spec fn arrivals_wait(
    jobs: Seq<Job>,
    timetable: Seq<(int, int)>,
    entry: int,
    end: int,
) -> bool {
    let (began, job) = timetable[entry];
    let remaining = remaining_at(jobs, timetable, entry)[job];
    forall|i: int|
        0 <= i < jobs.len() && began < (#[trigger] jobs[i]).delivery_time < end
            && jobs[i].processing_time > 0 ==> !rank_above(
            jobs[i].cooldown_time as int,
            jobs[i].processing_time as int,
            i,
            jobs[job].cooldown_time as int,
            remaining - (jobs[i].delivery_time - began),
            job,
        )
}

/// The machine has been idle since the job of the last entry was finished,
/// or since time 0 where there is no entry.
pub open spec fn idle_now(jobs: Seq<Job>, machine: Machine) -> bool {
    let timetable = machine.timetable;
    timetable.len() == 0 || timetable.last().0 + remaining_at(
        jobs,
        timetable,
        timetable.len() - 1,
    )[timetable.last().1] < machine.clock
}

/// The time up to which the last entry of the machine's timetable has run
/// its job.
pub open spec fn run_end_now(jobs: Seq<Job>, machine: Machine) -> int {
    let timetable = machine.timetable;
    min_of(
        machine.clock,
        timetable.last().0 + remaining_at(jobs, timetable, timetable.len() - 1)[timetable.last().1],
    )
}

/// What holds of the machine's timetable by the rule, at every step of a
/// run.
pub open spec fn ruled(jobs: Seq<Job>, machine: Machine, preemptive: bool) -> bool {
    let timetable = machine.timetable;
    &&& forall|m: int| 0 <= m < timetable.len() ==> #[trigger] runs_the_top(jobs, timetable, m)
    &&& forall|m: int|
        0 <= m < timetable.len() && idle_before(jobs, timetable, m) ==> #[trigger] nothing_was_due(
            jobs,
            timetable,
            m,
        )
    &&& preemptive ==> forall|m: int|
        0 <= m < timetable.len() - 1 ==> #[trigger] arrivals_wait(
            jobs,
            timetable,
            m,
            run_end(jobs, timetable, m),
        )
    &&& preemptive && timetable.len() > 0 ==> arrivals_wait(
        jobs,
        timetable,
        timetable.len() - 1,
        run_end_now(jobs, machine),
    )
    &&& idle_now(jobs, machine) ==> forall|i: int|
        0 <= i < jobs.len() && #[trigger] machine.left[i] > 0 ==> jobs[i].delivery_time
            >= machine.clock
    &&& timetable.len() > 0 && machine.waiting.contains(timetable.last().1) ==> {
        let running = timetable.last().1;
        &&& machine.left[running] > 0
        &&& machine.left[running] == remaining_at(jobs, timetable, timetable.len() - 1)[running]
            - (machine.clock - timetable.last().0)
    }
    &&& forall|i: int|
        0 <= i < jobs.len() && jobs[i].delivery_time >= machine.clock ==> #[trigger] machine.left[i]
            == jobs[i].processing_time
}

/// A further entry changes nothing in what holds of the entries before it.
proof fn lemma_rule_of_prefix(
    jobs: Seq<Job>,
    timetable: Seq<(int, int)>,
    added: (int, int),
    entry: int,
    end: int,
)
    requires
        0 <= entry < timetable.len(),
    ensures
        runs_the_top(jobs, timetable.push(added), entry) == runs_the_top(jobs, timetable, entry),
        idle_before(jobs, timetable.push(added), entry) == idle_before(jobs, timetable, entry),
        nothing_was_due(jobs, timetable.push(added), entry) == nothing_was_due(
            jobs,
            timetable,
            entry,
        ),
        arrivals_wait(jobs, timetable.push(added), entry, end) == arrivals_wait(
            jobs,
            timetable,
            entry,
            end,
        ),
        entry < timetable.len() - 1 ==> run_end(jobs, timetable.push(added), entry) == run_end(
            jobs,
            timetable,
            entry,
        ),
{
    lemma_remaining_of_prefix(jobs, timetable, added, entry);
    assert(timetable.push(added)[entry] == timetable[entry]);
    if entry > 0 {
        lemma_remaining_of_prefix(jobs, timetable, added, entry - 1);
        assert(timetable.push(added)[entry - 1] == timetable[entry - 1]);
    }
    if entry < timetable.len() - 1 {
        assert(timetable.push(added)[entry + 1] == timetable[entry + 1]);
    }
}

/// The jobs that are due are those released.
proof fn lemma_due_is_released(jobs: Seq<Job>, now: Machine, preemptive: bool, i: int)
    requires
        is_sorted(jobs, SortKey::DeliveryTime),
        sound(jobs, now, preemptive),
        orderly(jobs, now, preemptive),
        0 <= i < jobs.len(),
    ensures
        jobs[i].delivery_time <= now.clock <==> i < release_until(jobs, now.released, now.clock),
{
    let released = release_until(jobs, now.released, now.clock);
    lemma_release_until(jobs, now.released, now.clock);
    if i < released {
        if i < now.released {
            assert(jobs[i].delivery_time <= now.clock);
        }
    } else {
        assert(SortKey::DeliveryTime.of(jobs[released]) <= SortKey::DeliveryTime.of(jobs[i]));
    }
}

/// A step keeps the timetable to the rule.
pub proof fn lemma_advance_ruled(jobs: Seq<Job>, now: Machine, preemptive: bool)
    requires
        is_sorted(jobs, SortKey::DeliveryTime),
        sound(jobs, now, preemptive),
        orderly(jobs, now, preemptive),
        ruled(jobs, now, preemptive),
    ensures
        ruled(jobs, advance(jobs, now, preemptive), preemptive),
{
    let next = advance(jobs, now, preemptive);
    let released = release_until(jobs, now.released, now.clock);
    let waiting = with_released(now.waiting, now.released, released);
    let before = now.timetable;
    let table = next.timetable;
    lemma_release_until(jobs, now.released, now.clock);
    lemma_advance(jobs, now, preemptive);
    lemma_advance_orderly(jobs, now, preemptive);
    lemma_sound_timeline_fits(jobs, now, preemptive);
    lemma_sound_timeline_fits(jobs, next, preemptive);
    assert forall|i: int| 0 <= i < jobs.len() implies (jobs[i].delivery_time <= now.clock <==> i
        < released) by {
        lemma_due_is_released(jobs, now, preemptive, i);
    }
    if nothing_waits(waiting) {
        assert(table == before);
        if released > now.released {
            assert(waiting.contains(now.released));
        }
        assert forall|i: int|
            0 <= i < jobs.len() && #[trigger] next.left[i] > 0 implies jobs[i].delivery_time
            >= next.clock by {
            if i < released {
                assert(!waiting.contains(i));
                assert(now.left[i] == 0);
            } else {
                assert(SortKey::DeliveryTime.of(jobs[released]) <= SortKey::DeliveryTime.of(
                    jobs[i],
                ));
            }
        }
        if before.len() > 0 {
            let last = before.len() - 1;
            let running = before[last].1;
            assert(0 <= running < now.released) by {
                assert(0 <= before[last].1 < now.released);
            }
            assert(!waiting.contains(running));
            assert(now.left[running] == 0);
            assert(run_end_now(jobs, next) == run_end_now(jobs, now));
        }
    } else {
        lemma_top_exists(jobs, now.left, waiting, released);
        let job = top(jobs, now.left, waiting);
        assert(0 <= now.left[job] <= jobs[job].processing_time);
        lemma_replays_after_run(jobs, now, next, preemptive, job);
        let last = table.len() - 1;
        lemma_remaining_in_range(jobs, table, last);
        let remaining = remaining_at(jobs, table, last);
        // every job that still needs the machine and is due waits
        assert forall|i: int|
            0 <= i < jobs.len() && jobs[i].delivery_time <= now.clock && now.left[i]
                > 0 implies waiting.contains(i) by {
            if i < now.released && !now.waiting.contains(i) {
                assert(now.left[i] == 0);
            }
        }
        if table.len() > before.len() {
            assert(table == before.push((now.clock, job)));
            assert(table[last] == (now.clock, job));
            assert forall|i: int| 0 <= i < jobs.len() implies #[trigger] remaining[i]
                == now.left[i] by {}
            assert(runs_the_top(jobs, table, last)) by {
                assert forall|i: int|
                    0 <= i < jobs.len() && jobs[i].delivery_time <= table[last].0
                        && #[trigger] remaining[i] > 0 implies !job_outranks(
                    jobs,
                    remaining,
                    i,
                    table[last].1,
                ) by {
                    assert(waiting.contains(i));
                    assert(!job_outranks(jobs, now.left, i, job));
                }
            }
            assert(idle_before(jobs, table, last) ==> nothing_was_due(jobs, table, last)) by {
                if idle_before(jobs, table, last) {
                    if before.len() > 0 {
                        lemma_remaining_of_prefix(jobs, before, (now.clock, job), last - 1);
                        assert(table[last - 1] == before[last - 1]);
                    }
                    assert(idle_now(jobs, now));
                    assert forall|i: int|
                        0 <= i < jobs.len() && #[trigger] remaining[i] > 0 implies jobs[i]
                        .delivery_time >= table[last].0 by {
                        assert(now.left[i] > 0);
                    }
                }
            }
            assert forall|m: int| 0 <= m < table.len() implies #[trigger] runs_the_top(
                jobs,
                table,
                m,
            ) by {
                if m < last {
                    lemma_rule_of_prefix(jobs, before, (now.clock, job), m, 0);
                    assert(runs_the_top(jobs, before, m));
                }
            }
            assert forall|m: int|
                0 <= m < table.len() && idle_before(
                    jobs,
                    table,
                    m,
                ) implies #[trigger] nothing_was_due(jobs, table, m) by {
                if m < last {
                    lemma_rule_of_prefix(jobs, before, (now.clock, job), m, 0);
                    assert(nothing_was_due(jobs, before, m));
                }
            }
            if preemptive {
                assert forall|m: int| 0 <= m < table.len() - 1 implies #[trigger] arrivals_wait(
                    jobs,
                    table,
                    m,
                    run_end(jobs, table, m),
                ) by {
                    if m < last - 1 {
                        lemma_rule_of_prefix(
                            jobs,
                            before,
                            (now.clock, job),
                            m,
                            run_end(jobs, before, m),
                        );
                        assert(arrivals_wait(jobs, before, m, run_end(jobs, before, m)));
                    } else {
                        lemma_rule_of_prefix(
                            jobs,
                            before,
                            (now.clock, job),
                            m,
                            run_end_now(jobs, now),
                        );
                        lemma_remaining_in_range(jobs, before, m);
                        assert(0 <= before[m].1 < jobs.len());
                        assert(0 <= before[m].0 <= before[m].0 <= now.clock);
                        lemma_remaining_of_prefix(jobs, before, (now.clock, job), m);
                        assert(table[m] == before[m]);
                        assert(table[m + 1] == (now.clock, job));
                        assert(before.last() == before[m]);
                        assert(run_end(jobs, table, m) == run_end_now(jobs, now));
                    }
                }
            }
        } else {
            assert(table == before);
            assert(before.last().1 == job);
            assert(0 <= job < now.released) by {
                assert(0 <= before[last].1 < now.released);
            }
            assert(now.waiting.contains(job));
        }
        if preemptive {
            let began = table[last].0;
            let end = run_end_now(jobs, next);
            assert(arrivals_wait(jobs, table, last, end)) by {
                assert forall|i: int|
                    0 <= i < jobs.len() && began < (#[trigger] jobs[i]).delivery_time < end
                        && jobs[i].processing_time > 0 implies !rank_above(
                    jobs[i].cooldown_time as int,
                    jobs[i].processing_time as int,
                    i,
                    jobs[job].cooldown_time as int,
                    remaining[job] - (jobs[i].delivery_time - began),
                    job,
                ) by {
                    if jobs[i].delivery_time > now.clock {
                        assert(i >= released);
                        assert(SortKey::DeliveryTime.of(jobs[released])
                            <= SortKey::DeliveryTime.of(jobs[i]));
                        assert(next.clock <= jobs[released].delivery_time);
                    } else if jobs[i].delivery_time == now.clock {
                        assert(table == before);
                        assert(now.left[i] == jobs[i].processing_time);
                        assert(waiting.contains(i));
                        assert(!job_outranks(jobs, now.left, i, job));
                    } else {
                        assert(table == before);
                        assert(arrivals_wait(jobs, before, last, run_end_now(jobs, now)));
                    }
                }
            }
        }
        assert forall|i: int|
            0 <= i < jobs.len() && jobs[i].delivery_time
                >= next.clock implies #[trigger] next.left[i] == jobs[i].processing_time by {
            if i != job {
                assert(now.left[i] == jobs[i].processing_time);
            } else if jobs[job].delivery_time >= now.clock {
                assert(now.left[job] == jobs[job].processing_time);
            }
        }
    }
}

/// The timetable follows the rule at every step.
pub proof fn lemma_after_is_ruled(jobs: Seq<Job>, preemptive: bool, steps: nat)
    requires
        is_sorted(jobs, SortKey::DeliveryTime),
    ensures
        ruled(jobs, after(jobs, preemptive, steps), preemptive),
    decreases steps,
{
    if steps > 0 {
        let before = after(jobs, preemptive, (steps - 1) as nat);
        lemma_after_is_ruled(jobs, preemptive, (steps - 1) as nat);
        lemma_after_is_orderly(jobs, preemptive, (steps - 1) as nat);
        lemma_advance_ruled(jobs, before, preemptive);
    }
}

} // verus!
