//! The single machine as the schedulers drive it, step by step.
//!
//! The jobs are listed in ascending order of delivery time, and a job is
//! known by its position in that list. A step releases the jobs whose
//! delivery time has come, then either runs the waiting job of highest
//! priority or, where none waits, moves the clock to the next delivery.

use vstd::prelude::*;
use crate::jobs::Job;
use crate::pool::rank_above;

verus! {

/// The state of the machine between two steps.
pub struct Machine {
    /// The current time.
    pub clock: int,
    /// The number of jobs released so far: the positions below it.
    pub released: int,
    /// The positions of the released jobs that are not finished.
    pub waiting: Set<int>,
    /// The processing time that each job still needs.
    pub left: Seq<int>,
    /// The time and position of each start or resumption so far.
    pub timetable: Seq<(int, int)>,
}

/// The machine at time 0, with nothing released.
pub open spec fn initial(jobs: Seq<Job>) -> Machine {
    Machine {
        clock: 0,
        released: 0,
        waiting: Set::empty(),
        left: Seq::new(jobs.len(), |i: int| jobs[i].processing_time as int),
        timetable: Seq::empty(),
    }
}

/// The first position from `from` on whose job is not released at `clock`.
pub open spec fn release_until(jobs: Seq<Job>, from: int, clock: int) -> int
    decreases jobs.len() - from,
{
    if 0 <= from < jobs.len() && jobs[from].delivery_time <= clock {
        release_until(jobs, from + 1, clock)
    } else {
        from
    }
}

/// `waiting` together with the positions from `from` up to, not including,
/// `until`.
pub open spec fn with_released(waiting: Set<int>, from: int, until: int) -> Set<int> {
    Set::new(|i: int| waiting.contains(i) || from <= i < until)
}

/// The job at `i` runs before the job at `j` by the priority rule, given the
/// processing time that each still needs.
pub open spec fn job_outranks(jobs: Seq<Job>, left: Seq<int>, i: int, j: int) -> bool {
    rank_above(
        jobs[i].cooldown_time as int,
        left[i],
        i,
        jobs[j].cooldown_time as int,
        left[j],
        j,
    )
}

/// The job at `i` waits, and no waiting job outranks it.
pub open spec fn is_top(jobs: Seq<Job>, left: Seq<int>, waiting: Set<int>, i: int) -> bool {
    &&& waiting.contains(i)
    &&& forall|j: int| waiting.contains(j) ==> !job_outranks(jobs, left, j, i)
}

/// The waiting job of highest priority.
pub open spec fn top(jobs: Seq<Job>, left: Seq<int>, waiting: Set<int>) -> int {
    choose|i: int| is_top(jobs, left, waiting, i)
}

/// No job waits.
pub open spec fn nothing_waits(waiting: Set<int>) -> bool {
    forall|i: int| !waiting.contains(i)
}

/// One step of the machine. With `preemptive`, a job that would still run
/// when the next job is released is stopped at that release and waits again
/// with the processing time it has left.
pub open spec fn advance(jobs: Seq<Job>, now: Machine, preemptive: bool) -> Machine {
    let released = release_until(jobs, now.released, now.clock);
    let waiting = with_released(now.waiting, now.released, released);
    if nothing_waits(waiting) {
        Machine {
            clock: if released < jobs.len() {
                jobs[released].delivery_time as int
            } else {
                now.clock
            },
            released,
            waiting,
            left: now.left,
            timetable: now.timetable,
        }
    } else {
        let job = top(jobs, now.left, waiting);
        let timetable = if now.timetable.len() > 0 && now.timetable.last().1 == job {
            now.timetable
        } else {
            now.timetable.push((now.clock, job))
        };
        let end = now.clock + now.left[job];
        if preemptive && released < jobs.len() && jobs[released].delivery_time < end {
            Machine {
                clock: jobs[released].delivery_time as int,
                released,
                waiting,
                left: now.left.update(job, end - jobs[released].delivery_time),
                timetable,
            }
        } else {
            Machine {
                clock: end,
                released,
                waiting: waiting.remove(job),
                left: now.left.update(job, 0),
                timetable,
            }
        }
    }
}

/// The machine after `steps` steps from the start.
pub open spec fn after(jobs: Seq<Job>, preemptive: bool, steps: nat) -> Machine
    decreases steps,
{
    if steps == 0 {
        initial(jobs)
    } else {
        advance(jobs, after(jobs, preemptive, (steps - 1) as nat), preemptive)
    }
}

/// Every job is released and none waits: the run is over.
pub open spec fn settled(jobs: Seq<Job>, machine: Machine) -> bool {
    machine.released >= jobs.len() && nothing_waits(machine.waiting)
}

/// The machine at the end of the run. No run takes more than three steps for
/// each job, and a settled machine stays as it is (`lemma_outcome_is_settled`,
/// `lemma_settled_stays`).
pub open spec fn outcome(jobs: Seq<Job>, preemptive: bool) -> Machine {
    after(jobs, preemptive, 3 * jobs.len())
}

/// The timetable of the whole run over `jobs`, which are in ascending order
/// of delivery time.
pub open spec fn schedule_of(jobs: Seq<Job>, preemptive: bool) -> Seq<(int, int)> {
    outcome(jobs, preemptive).timetable
}

/// The jobs that the entries of `timetable` name, entry by entry.
pub open spec fn order_of(jobs: Seq<Job>, timetable: Seq<(int, int)>) -> Seq<Job> {
    Seq::new(timetable.len(), |m: int| jobs[timetable[m].1])
}

/// The number of positions below `below` that are in `waiting`.
pub open spec fn count_waiting(waiting: Set<int>, below: int) -> int
    decreases below,
{
    if below <= 0 {
        0
    } else {
        count_waiting(waiting, below - 1) + if waiting.contains(below - 1) {
            1int
        } else {
            0int
        }
    }
}

/// A bound on the number of steps that the machine still takes.
pub open spec fn steps_left(jobs: Seq<Job>, machine: Machine) -> int {
    3 * (jobs.len() - machine.released) + 2 * count_waiting(machine.waiting, machine.released)
        - if machine.released < jobs.len() && jobs[machine.released].delivery_time
        <= machine.clock {
        1int
    } else {
        0int
    }
}

/// What holds of the machine at every step of a run.
pub open spec fn sound(jobs: Seq<Job>, machine: Machine, preemptive: bool) -> bool {
    &&& 0 <= machine.clock
    &&& 0 <= machine.released <= jobs.len()
    &&& forall|i: int| machine.waiting.contains(i) ==> 0 <= i < machine.released
    &&& machine.left.len() == jobs.len()
    &&& forall|i: int|
        0 <= i < jobs.len() ==> 0 <= #[trigger] machine.left[i] <= jobs[i].processing_time
    &&& forall|i: int|
        machine.released <= i < jobs.len() ==> #[trigger] machine.left[i]
            == jobs[i].processing_time
    &&& forall|i: int|
        0 <= i < machine.released && !machine.waiting.contains(i) ==> #[trigger] machine.left[i]
            == 0
    &&& forall|m: int|
        0 <= m < machine.timetable.len() ==> 0 <= (#[trigger] machine.timetable[m]).1
            < machine.released
    &&& forall|m: int, n: int|
        0 <= m <= n < machine.timetable.len() ==> 0 <= (#[trigger] machine.timetable[m]).0 <= (
        #[trigger] machine.timetable[n]).0 <= machine.clock
    &&& preemptive && machine.released < jobs.len() ==> machine.clock
        <= jobs[machine.released].delivery_time
    &&& !preemptive ==> forall|i: int|
        machine.waiting.contains(i) ==> #[trigger] machine.left[i] == jobs[i].processing_time
    &&& !preemptive ==> forall|m: int|
        0 <= m < machine.timetable.len() ==> !machine.waiting.contains(
            (#[trigger] machine.timetable[m]).1,
        )
}

/// Releasing stops at the first job that is not due, and every job before
/// that is due.
pub proof fn lemma_release_until(jobs: Seq<Job>, from: int, clock: int)
    requires
        0 <= from <= jobs.len(),
    ensures
        from <= release_until(jobs, from, clock) <= jobs.len(),
        forall|i: int|
            from <= i < release_until(jobs, from, clock) ==> (#[trigger] jobs[i]).delivery_time
                <= clock,
        release_until(jobs, from, clock) < jobs.len() ==> jobs[release_until(
            jobs,
            from,
            clock,
        )].delivery_time > clock,
    decreases jobs.len() - from,
{
    if from < jobs.len() && jobs[from].delivery_time <= clock {
        lemma_release_until(jobs, from + 1, clock);
    }
}

/// Among the positions below `below`, a non-empty `waiting` has a top.
pub proof fn lemma_top_exists(jobs: Seq<Job>, left: Seq<int>, waiting: Set<int>, below: int)
    requires
        forall|i: int| waiting.contains(i) ==> 0 <= i < below,
        !nothing_waits(waiting),
    ensures
        is_top(jobs, left, waiting, top(jobs, left, waiting)),
    decreases below,
{
    let some = choose|i: int| waiting.contains(i);
    if waiting.contains(below - 1) {
        let rest = waiting.remove(below - 1);
        if nothing_waits(rest) {
            assert forall|j: int| waiting.contains(j) implies !job_outranks(
                jobs,
                left,
                j,
                below - 1,
            ) by {
                assert(!rest.contains(j));
            }
            assert(is_top(jobs, left, waiting, below - 1));
        } else {
            assert forall|i: int| rest.contains(i) implies 0 <= i < below - 1 by {
                assert(waiting.contains(i));
            }
            lemma_top_exists(jobs, left, rest, below - 1);
            let inner = top(jobs, left, rest);
            if job_outranks(jobs, left, below - 1, inner) {
                assert forall|j: int| waiting.contains(j) implies !job_outranks(
                    jobs,
                    left,
                    j,
                    below - 1,
                ) by {
                    if j != below - 1 {
                        assert(rest.contains(j));
                        assert(!job_outranks(jobs, left, j, inner));
                    }
                }
                assert(is_top(jobs, left, waiting, below - 1));
            } else {
                assert forall|j: int| waiting.contains(j) implies !job_outranks(
                    jobs,
                    left,
                    j,
                    inner,
                ) by {
                    if j != below - 1 {
                        assert(rest.contains(j));
                    }
                }
                assert(is_top(jobs, left, waiting, inner));
            }
        }
    } else {
        assert forall|i: int| waiting.contains(i) implies 0 <= i < below - 1 by {}
        lemma_top_exists(jobs, left, waiting, below - 1);
    }
}

/// The waiting job that no other outranks is the top.
pub proof fn lemma_top_is_unique(jobs: Seq<Job>, left: Seq<int>, waiting: Set<int>, i: int)
    requires
        is_top(jobs, left, waiting, i),
    ensures
        top(jobs, left, waiting) == i,
{
    let chosen = top(jobs, left, waiting);
    assert(is_top(jobs, left, waiting, chosen));
    assert(!job_outranks(jobs, left, i, chosen));
    assert(!job_outranks(jobs, left, chosen, i));
}

/// The count is zero where no position below `below` waits, and only
/// there; it is never more than `below`.
pub proof fn lemma_count_waiting_bounds(waiting: Set<int>, below: int)
    ensures
        0 <= count_waiting(waiting, below),
        below >= 0 ==> count_waiting(waiting, below) <= below,
        (forall|i: int| 0 <= i < below ==> !waiting.contains(i)) ==> count_waiting(waiting, below)
            == 0,
        (exists|i: int| 0 <= i < below && waiting.contains(i)) ==> count_waiting(waiting, below)
            > 0,
    decreases below,
{
    if below > 0 {
        lemma_count_waiting_bounds(waiting, below - 1);
        if exists|i: int| 0 <= i < below && waiting.contains(i) {
            let i = choose|i: int| 0 <= i < below && waiting.contains(i);
            if i < below - 1 {
                assert(0 <= i < below - 1 && waiting.contains(i));
            }
        }
    }
}

/// Each position that is released counts once.
pub proof fn lemma_count_waiting_released(waiting: Set<int>, from: int, until: int, below: int)
    requires
        0 <= from <= until,
        forall|i: int| waiting.contains(i) ==> 0 <= i < from,
    ensures
        below <= from ==> count_waiting(with_released(waiting, from, until), below)
            == count_waiting(waiting, below),
        from <= below <= until ==> count_waiting(with_released(waiting, from, until), below)
            == count_waiting(waiting, from) + (below - from),
    decreases below,
{
    if below > 0 {
        lemma_count_waiting_released(waiting, from, until, below - 1);
    }
}

/// A position that stops waiting counts no more.
pub proof fn lemma_count_waiting_removed(waiting: Set<int>, gone: int, below: int)
    requires
        waiting.contains(gone),
        0 <= gone,
    ensures
        count_waiting(waiting.remove(gone), below) == count_waiting(waiting, below) - if gone
            < below {
            1int
        } else {
            0int
        },
    decreases below,
{
    if below > 0 {
        lemma_count_waiting_removed(waiting, gone, below - 1);
    }
}

/// A step keeps the machine sound, and where the run is not over it brings
/// the end nearer.
pub proof fn lemma_advance(jobs: Seq<Job>, now: Machine, preemptive: bool)
    requires
        sound(jobs, now, preemptive),
    ensures
        sound(jobs, advance(jobs, now, preemptive), preemptive),
        0 <= steps_left(jobs, advance(jobs, now, preemptive)),
        !settled(jobs, now) ==> steps_left(jobs, advance(jobs, now, preemptive)) < steps_left(
            jobs,
            now,
        ),
        settled(jobs, now) ==> advance(jobs, now, preemptive) == now,
{
    let next = advance(jobs, now, preemptive);
    let released = release_until(jobs, now.released, now.clock);
    let waiting = with_released(now.waiting, now.released, released);
    lemma_release_until(jobs, now.released, now.clock);
    lemma_count_waiting_released(now.waiting, now.released, released, released);
    lemma_count_waiting_bounds(waiting, released);
    lemma_count_waiting_bounds(now.waiting, now.released);
    if nothing_waits(waiting) {
        if released == now.released {
            assert(waiting =~= now.waiting);
        } else {
            assert(waiting.contains(now.released));
        }
    } else {
        lemma_top_exists(jobs, now.left, waiting, released);
        let job = top(jobs, now.left, waiting);
        let end = now.clock + now.left[job];
        assert(0 <= now.left[job] <= jobs[job].processing_time);
        lemma_count_waiting_removed(waiting, job, released);
        lemma_count_waiting_bounds(next.waiting, released);
        assert forall|m: int, n: int| 0 <= m <= n < next.timetable.len() implies 0 <= (
        #[trigger] next.timetable[m]).0 <= (#[trigger] next.timetable[n]).0 <= next.clock by {
            if n < now.timetable.len() {
                assert(0 <= now.timetable[m].0 <= now.timetable[n].0 <= now.clock);
            } else if m < now.timetable.len() {
                assert(0 <= now.timetable[m].0 <= now.timetable[m].0 <= now.clock);
            }
        }
        assert forall|m: int| 0 <= m < next.timetable.len() implies 0 <= (
        #[trigger] next.timetable[m]).1 < next.released by {
            if m < now.timetable.len() {
                assert(0 <= now.timetable[m].1 < now.released);
            }
        }
        if !preemptive {
            assert forall|m: int| 0 <= m < next.timetable.len() implies !next.waiting.contains(
                (#[trigger] next.timetable[m]).1,
            ) by {
                if m < now.timetable.len() {
                    assert(!now.waiting.contains(now.timetable[m].1));
                    assert(now.timetable[m].1 < now.released);
                }
            }
        }
    }
}

/// Once settled, the machine stays as it is.
pub proof fn lemma_settled_stays(jobs: Seq<Job>, preemptive: bool, steps: nat, later: nat)
    requires
        steps <= later,
        settled(jobs, after(jobs, preemptive, steps)),
        sound(jobs, after(jobs, preemptive, steps), preemptive),
    ensures
        after(jobs, preemptive, later) == after(jobs, preemptive, steps),
    decreases later,
{
    if later > steps {
        lemma_settled_stays(jobs, preemptive, steps, (later - 1) as nat);
        lemma_advance(jobs, after(jobs, preemptive, steps), preemptive);
    }
}

/// The machine is sound at every step, and the steps taken and those still
/// to come are no more than three for each job.
pub proof fn lemma_after_is_sound(jobs: Seq<Job>, preemptive: bool, steps: nat)
    ensures
        sound(jobs, after(jobs, preemptive, steps), preemptive),
        0 <= steps_left(jobs, after(jobs, preemptive, steps)),
        settled(jobs, after(jobs, preemptive, steps)) || steps + steps_left(
            jobs,
            after(jobs, preemptive, steps),
        ) <= 3 * jobs.len(),
    decreases steps,
{
    if steps == 0 {
        lemma_count_waiting_bounds(initial(jobs).waiting, 0);
    } else {
        let before = after(jobs, preemptive, (steps - 1) as nat);
        lemma_after_is_sound(jobs, preemptive, (steps - 1) as nat);
        lemma_advance(jobs, before, preemptive);
    }
}

/// The run is over after three steps for each job.
pub proof fn lemma_outcome_is_settled(jobs: Seq<Job>, preemptive: bool)
    ensures
        settled(jobs, outcome(jobs, preemptive)),
        sound(jobs, outcome(jobs, preemptive), preemptive),
{
    lemma_after_is_sound(jobs, preemptive, 3 * jobs.len());
    let end = outcome(jobs, preemptive);
    if !settled(jobs, end) {
        lemma_count_waiting_bounds(end.waiting, end.released);
        if end.released >= jobs.len() {
            let i = choose|i: int| end.waiting.contains(i);
            assert(0 <= i < end.released && end.waiting.contains(i));
        }
    }
}

} // verus!
