//! What the timetable of a run records, step by step: every finished job is
//! listed, no entry comes before its job's delivery, and replaying the
//! timetable gives the processing times that the machine has left.

use vstd::prelude::*;
use crate::jobs::{machine_free_time, max_of, remaining_at, start_in_sequence, timeline_fits, Job};
use crate::order::{is_sorted, SortKey};
use crate::schrage::machine::{
    advance, after, lemma_advance, lemma_after_is_sound, lemma_release_until,
    lemma_top_exists, nothing_waits, order_of, release_until, sound, top, with_released, Machine,
};
use crate::timeline::{lemma_remaining_in_range, lemma_remaining_of_prefix};

verus! {

/// Some entry of `timetable` names the job at position `job`.
pub open spec fn listed(timetable: Seq<(int, int)>, job: int) -> bool {
    exists|m: int| 0 <= m < timetable.len() && (#[trigger] timetable[m]).1 == job
}

/// Replaying the timetable gives what the machine has left: for the job of
/// the last entry, once the time since that entry is taken off; for every
/// other job, as it stands when the last entry begins.
pub open spec fn replays(jobs: Seq<Job>, machine: Machine) -> bool {
    let timetable = machine.timetable;
    if timetable.len() == 0 {
        forall|i: int|
            0 <= i < jobs.len() ==> #[trigger] machine.left[i] == jobs[i].processing_time
    } else {
        let last = timetable.len() - 1;
        let remaining = remaining_at(jobs, timetable, last);
        let running = timetable[last].1;
        &&& forall|i: int|
            0 <= i < jobs.len() && i != running ==> #[trigger] machine.left[i] == remaining[i]
        &&& machine.left[running] == max_of(
            0,
            remaining[running] - (machine.clock - timetable[last].0),
        )
    }
}

/// What the timetable records at every step of a run.
pub open spec fn orderly(jobs: Seq<Job>, machine: Machine, preemptive: bool) -> bool {
    let timetable = machine.timetable;
    &&& forall|i: int|
        0 <= i < machine.released ==> (#[trigger] jobs[i]).delivery_time <= machine.clock
    &&& forall|m: int|
        0 <= m < timetable.len() ==> jobs[(#[trigger] timetable[m]).1].delivery_time
            <= timetable[m].0
    &&& forall|m: int| 0 < m < timetable.len() ==> timetable[m - 1].1 != (#[trigger] timetable[m]).1
    &&& forall|i: int|
        0 <= i < machine.released && !machine.waiting.contains(i) ==> #[trigger] listed(
            timetable,
            i,
        )
    &&& replays(jobs, machine)
    &&& !preemptive ==> forall|m: int, n: int|
        0 <= m < n < timetable.len() ==> (#[trigger] timetable[m]).1 != (#[trigger] timetable[n]).1
}

/// The timetable of a sound machine names only jobs of the list, and its
/// times do not descend.
pub proof fn lemma_sound_timeline_fits(jobs: Seq<Job>, machine: Machine, preemptive: bool)
    requires
        sound(jobs, machine, preemptive),
    ensures
        timeline_fits(jobs, machine.timetable),
{
    assert forall|m: int| 0 <= m < machine.timetable.len() implies 0 <= (
    #[trigger] machine.timetable[m]).1 < jobs.len() by {
        assert(0 <= machine.timetable[m].1 < machine.released);
    }
    assert forall|m: int, n: int| 0 <= m <= n < machine.timetable.len() implies (
    #[trigger] machine.timetable[m]).0 <= (#[trigger] machine.timetable[n]).0 by {
        assert(0 <= machine.timetable[m].0 <= machine.timetable[n].0 <= machine.clock);
    }
}

/// A job that is listed stays listed when an entry is added.
proof fn lemma_listed_stays(timetable: Seq<(int, int)>, added: (int, int), job: int)
    requires
        listed(timetable, job),
    ensures
        listed(timetable.push(added), job),
{
    let m = choose|m: int| 0 <= m < timetable.len() && (#[trigger] timetable[m]).1 == job;
    assert(timetable.push(added)[m].1 == job);
}

/// The replay still gives what the machine has left after it has run `job`
/// from the time `now.clock`; an entry made for that run begins with what
/// the job had left.
pub proof fn lemma_replays_after_run(
    jobs: Seq<Job>,
    now: Machine,
    next: Machine,
    preemptive: bool,
    job: int,
)
    requires
        sound(jobs, now, preemptive),
        sound(jobs, next, preemptive),
        replays(jobs, now),
        0 <= job < jobs.len(),
        next.timetable == if now.timetable.len() > 0 && now.timetable.last().1 == job {
            now.timetable
        } else {
            now.timetable.push((now.clock, job))
        },
        now.clock <= next.clock <= now.clock + now.left[job],
        next.left == now.left.update(job, now.left[job] - (next.clock - now.clock)),
    ensures
        replays(jobs, next),
        next.timetable.len() > 0,
        next.timetable.len() > now.timetable.len() ==> forall|i: int|
            0 <= i < jobs.len() ==> #[trigger] remaining_at(
                jobs,
                next.timetable,
                next.timetable.len() - 1,
            )[i] == now.left[i],
        next.timetable.last() == (now.clock, job) ==> remaining_at(
            jobs,
            next.timetable,
            next.timetable.len() - 1,
        )[job] == now.left[job],
{
    lemma_sound_timeline_fits(jobs, now, preemptive);
    lemma_sound_timeline_fits(jobs, next, preemptive);
    let before = now.timetable;
    let table = next.timetable;
    let last = table.len() - 1;
    assert(0 <= now.left[job] <= jobs[job].processing_time);
    if before.len() > 0 && before.last().1 == job {
        lemma_remaining_in_range(jobs, before, last);
        assert(0 <= before[last].0 <= before[last].0 <= now.clock);
    } else if before.len() == 0 {
        assert(remaining_at(jobs, table, 0)[job] == jobs[job].processing_time);
        assert forall|i: int| 0 <= i < jobs.len() && i != job implies #[trigger] next.left[i]
            == remaining_at(jobs, table, last)[i] by {
            assert(now.left[i] == jobs[i].processing_time);
        }
    } else {
        let old_last = before.len() - 1;
        let running = before[old_last].1;
        lemma_remaining_of_prefix(jobs, before, (now.clock, job), old_last);
        lemma_remaining_in_range(jobs, before, old_last);
        let earlier = remaining_at(jobs, before, old_last);
        let remaining = remaining_at(jobs, table, last);
        assert(table[old_last] == before[old_last]);
        assert(table[last] == (now.clock, job));
        assert(0 <= running < jobs.len()) by {
            assert(0 <= before[old_last].1 < now.released);
        }
        assert(remaining == earlier.update(
            running,
            max_of(0, earlier[running] - (now.clock - before[old_last].0)),
        ));
        assert forall|i: int| 0 <= i < jobs.len() implies remaining[i]
            == #[trigger] now.left[i] by {
            if i != running {
                assert(now.left[i] == earlier[i]);
            }
        }
        assert forall|i: int| 0 <= i < jobs.len() && i != job implies #[trigger] next.left[i]
            == remaining[i] by {
            assert(remaining[i] == now.left[i]);
        }
        assert(remaining[job] == now.left[job]);
    }
}

/// A step keeps the timetable orderly.
pub proof fn lemma_advance_orderly(jobs: Seq<Job>, now: Machine, preemptive: bool)
    requires
        sound(jobs, now, preemptive),
        orderly(jobs, now, preemptive),
    ensures
        orderly(jobs, advance(jobs, now, preemptive), preemptive),
{
    let next = advance(jobs, now, preemptive);
    let released = release_until(jobs, now.released, now.clock);
    let waiting = with_released(now.waiting, now.released, released);
    lemma_release_until(jobs, now.released, now.clock);
    lemma_advance(jobs, now, preemptive);
    lemma_sound_timeline_fits(jobs, now, preemptive);
    if nothing_waits(waiting) {
        assert forall|i: int| 0 <= i < next.released && !next.waiting.contains(i) implies
            #[trigger] listed(next.timetable, i) by {
            assert(!waiting.contains(i));
            assert(i < now.released);
            assert(listed(now.timetable, i));
        }
        if now.timetable.len() > 0 {
            let last = now.timetable.len() - 1;
            let running = now.timetable[last].1;
            assert(0 <= running < now.released) by {
                assert(0 <= now.timetable[last].1 < now.released);
            }
            assert(!waiting.contains(running));
            assert(now.left[running] == 0);
            assert(0 <= now.timetable[last].0 <= now.timetable[last].0 <= now.clock);
            if released == now.released {
                assert(next.clock >= now.clock);
            } else {
                assert(waiting.contains(now.released));
            }
        }
    } else {
        lemma_top_exists(jobs, now.left, waiting, released);
        let job = top(jobs, now.left, waiting);
        assert(0 <= now.left[job] <= jobs[job].processing_time);
        lemma_replays_after_run(jobs, now, next, preemptive, job);
        assert forall|i: int| 0 <= i < next.released implies (#[trigger] jobs[i]).delivery_time
            <= next.clock by {
            if i < now.released {
                assert(jobs[i].delivery_time <= now.clock);
            }
        }
        assert forall|m: int| 0 <= m < next.timetable.len() implies jobs[(
        #[trigger] next.timetable[m]).1].delivery_time <= next.timetable[m].0 by {
            if m < now.timetable.len() {
                assert(jobs[now.timetable[m].1].delivery_time <= now.timetable[m].0);
            } else {
                assert(jobs[job].delivery_time <= now.clock);
            }
        }
        assert forall|m: int| 0 < m < next.timetable.len() implies next.timetable[m - 1].1 != (
        #[trigger] next.timetable[m]).1 by {
            if m < now.timetable.len() {
                assert(now.timetable[m - 1].1 != now.timetable[m].1);
            }
        }
        assert(listed(next.timetable, job)) by {
            assert(next.timetable[next.timetable.len() - 1].1 == job);
        }
        assert forall|i: int| 0 <= i < next.released && !next.waiting.contains(i) implies
            #[trigger] listed(next.timetable, i) by {
            if i != job {
                assert(!waiting.contains(i));
                assert(i < now.released);
                assert(listed(now.timetable, i));
                if next.timetable != now.timetable {
                    lemma_listed_stays(now.timetable, (now.clock, job), i);
                }
            }
        }
        if !preemptive {
            assert forall|m: int, n: int| 0 <= m < n < next.timetable.len() implies (
            #[trigger] next.timetable[m]).1 != (#[trigger] next.timetable[n]).1 by {
                if n < now.timetable.len() {
                    assert(now.timetable[m].1 != now.timetable[n].1);
                } else {
                    assert(!now.waiting.contains(now.timetable[m].1));
                    assert(now.timetable[m].1 < now.released);
                }
            }
        }
    }
}

/// The timetable is orderly at every step.
pub proof fn lemma_after_is_orderly(jobs: Seq<Job>, preemptive: bool, steps: nat)
    ensures
        sound(jobs, after(jobs, preemptive, steps), preemptive),
        orderly(jobs, after(jobs, preemptive, steps), preemptive),
    decreases steps,
{
    lemma_after_is_sound(jobs, preemptive, steps);
    if steps > 0 {
        let before = after(jobs, preemptive, (steps - 1) as nat);
        lemma_after_is_orderly(jobs, preemptive, (steps - 1) as nat);
        lemma_advance_orderly(jobs, before, preemptive);
    }
}

/// Every job occupies the machine for some time.
pub open spec fn all_take_time(jobs: Seq<Job>) -> bool {
    forall|i: int| 0 <= i < jobs.len() ==> (#[trigger] jobs[i]).processing_time > 0
}

/// The times of the timetable ascend, the last of them is past, and every
/// waiting job still needs the machine.
pub open spec fn ascending(machine: Machine) -> bool {
    let timetable = machine.timetable;
    &&& forall|i: int| machine.waiting.contains(i) ==> #[trigger] machine.left[i] > 0
    &&& forall|m: int, n: int|
        0 <= m < n < timetable.len() ==> (#[trigger] timetable[m]).0 < (#[trigger] timetable[n]).0
    &&& forall|m: int| 0 <= m < timetable.len() ==> (#[trigger] timetable[m]).0 < machine.clock
}

/// Where every job takes time, a step keeps the times of the timetable
/// ascending.
pub proof fn lemma_advance_ascending(jobs: Seq<Job>, now: Machine, preemptive: bool)
    requires
        all_take_time(jobs),
        sound(jobs, now, preemptive),
        ascending(now),
    ensures
        ascending(advance(jobs, now, preemptive)),
{
    let next = advance(jobs, now, preemptive);
    let released = release_until(jobs, now.released, now.clock);
    let waiting = with_released(now.waiting, now.released, released);
    lemma_release_until(jobs, now.released, now.clock);
    lemma_advance(jobs, now, preemptive);
    assert forall|i: int| waiting.contains(i) implies #[trigger] now.left[i] > 0 by {
        if !now.waiting.contains(i) {
            assert(now.left[i] == jobs[i].processing_time);
        }
    }
    if nothing_waits(waiting) {
        assert forall|m: int| 0 <= m < next.timetable.len() implies (
        #[trigger] next.timetable[m]).0 < next.clock by {
            assert(now.timetable[m].0 < now.clock);
        }
    } else {
        lemma_top_exists(jobs, now.left, waiting, released);
        let job = top(jobs, now.left, waiting);
        assert(now.left[job] > 0);
        assert forall|m: int| 0 <= m < next.timetable.len() implies (
        #[trigger] next.timetable[m]).0 < next.clock by {
            if m < now.timetable.len() {
                assert(now.timetable[m].0 < now.clock);
            }
        }
        assert forall|m: int, n: int| 0 <= m < n < next.timetable.len() implies (
        #[trigger] next.timetable[m]).0 < (#[trigger] next.timetable[n]).0 by {
            if n < now.timetable.len() {
                assert(now.timetable[m].0 < now.timetable[n].0);
            } else {
                assert(now.timetable[m].0 < now.clock);
            }
        }
    }
}

/// Where every job takes time, the times of the timetable ascend at every
/// step.
pub proof fn lemma_after_is_ascending(jobs: Seq<Job>, preemptive: bool, steps: nat)
    requires
        all_take_time(jobs),
    ensures
        ascending(after(jobs, preemptive, steps)),
    decreases steps,
{
    if steps > 0 {
        let before = after(jobs, preemptive, (steps - 1) as nat);
        lemma_after_is_ascending(jobs, preemptive, (steps - 1) as nat);
        lemma_after_is_sound(jobs, preemptive, (steps - 1) as nat);
        lemma_advance_ascending(jobs, before, preemptive);
    }
}

/// Without preemption the timetable holds the times at which the jobs start
/// when they run one after the other in its order; the machine is free for
/// the next of them at the clock's time, or idle until then with the next
/// job due.
pub open spec fn in_step(jobs: Seq<Job>, machine: Machine) -> bool {
    let order = order_of(jobs, machine.timetable);
    &&& forall|m: int|
        0 <= m < machine.timetable.len() ==> (#[trigger] machine.timetable[m]).0
            == start_in_sequence(order, m)
    &&& machine_free_time(order) <= machine.clock
    &&& machine_free_time(order) < machine.clock ==> nothing_waits(machine.waiting)
        && machine.released < jobs.len() && jobs[machine.released].delivery_time == machine.clock
}

/// Without preemption a step keeps the timetable in step with its order.
pub proof fn lemma_advance_in_step(jobs: Seq<Job>, now: Machine)
    requires
        is_sorted(jobs, SortKey::DeliveryTime),
        sound(jobs, now, false),
        orderly(jobs, now, false),
        in_step(jobs, now),
    ensures
        in_step(jobs, advance(jobs, now, false)),
{
    let next = advance(jobs, now, false);
    let released = release_until(jobs, now.released, now.clock);
    let waiting = with_released(now.waiting, now.released, released);
    let order = order_of(jobs, now.timetable);
    lemma_release_until(jobs, now.released, now.clock);
    lemma_advance(jobs, now, false);
    if nothing_waits(waiting) {
        if released > now.released {
            assert(waiting.contains(now.released));
        }
    } else {
        lemma_top_exists(jobs, now.left, waiting, released);
        let job = top(jobs, now.left, waiting);
        if now.timetable.len() > 0 {
            assert(!now.waiting.contains(now.timetable.last().1));
            assert(now.timetable.last().1 < now.released);
        }
        let later = order_of(jobs, next.timetable);
        assert(later =~= order.push(jobs[job]));
        assert(later.drop_last() =~= order);
        assert(later.take(now.timetable.len() as int) =~= order);
        assert(jobs[job].delivery_time <= now.clock);
        assert(now.left[job] == jobs[job].processing_time);
        if machine_free_time(order) < now.clock {
            assert(!now.waiting.contains(job));
            assert(SortKey::DeliveryTime.of(jobs[now.released]) <= SortKey::DeliveryTime.of(
                jobs[job],
            ));
        }
        assert forall|m: int| 0 <= m < next.timetable.len() implies (
        #[trigger] next.timetable[m]).0 == start_in_sequence(later, m) by {
            if m < now.timetable.len() {
                assert(later.take(m) =~= order.take(m));
                assert(now.timetable[m].0 == start_in_sequence(order, m));
            }
        }
    }
}

/// Without preemption the timetable is in step with its order at every
/// step.
pub proof fn lemma_after_is_in_step(jobs: Seq<Job>, steps: nat)
    requires
        is_sorted(jobs, SortKey::DeliveryTime),
    ensures
        in_step(jobs, after(jobs, false, steps)),
    decreases steps,
{
    if steps == 0 {
        assert(order_of(jobs, after(jobs, false, 0).timetable) =~= Seq::<Job>::empty());
    } else {
        let before = after(jobs, false, (steps - 1) as nat);
        lemma_after_is_in_step(jobs, (steps - 1) as nat);
        lemma_after_is_orderly(jobs, false, (steps - 1) as nat);
        lemma_advance_in_step(jobs, before);
    }
}

} // verus!
