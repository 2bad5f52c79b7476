//! The pool of the schedulers and the waiting jobs of the machine.
//!
//! The schedulers keep one candidate in their pool for each job that waits
//! on the machine of [`crate::schrage::machine`]. What the pool hands out is
//! then the job that the machine runs next.

use vstd::prelude::*;
use vstd::multiset::Multiset;
use crate::jobs::{clamp_time, Job};
use crate::pool::{Candidate, ReadyPool};
use crate::schrage::machine::{
    is_top, job_outranks, lemma_release_until, lemma_top_is_unique, nothing_waits, release_until,
    sound, top, with_released, Machine,
};

verus! {

/// The candidate that stands in the pool for the job at position `i`.
pub open spec fn entry_for(jobs: Seq<Job>, left: Seq<int>, i: int) -> Candidate {
    Candidate {
        job: Job {
            delivery_time: jobs[i].delivery_time,
            processing_time: left[i] as u32,
            cooldown_time: jobs[i].cooldown_time,
        },
        index: i as usize,
    }
}

/// `pool` holds one candidate for each waiting job, and nothing else.
pub open spec fn pool_holds(
    pool: Multiset<Candidate>,
    jobs: Seq<Job>,
    left: Seq<int>,
    waiting: Set<int>,
) -> bool {
    forall|c: Candidate| #[trigger]
        pool.count(c) == if waiting.contains(c.index as int) && c == entry_for(
            jobs,
            left,
            c.index as int,
        ) {
            1nat
        } else {
            0nat
        }
}

/// The pool is empty where no job waits, and only there.
pub proof fn lemma_pool_empty(
    pool: Multiset<Candidate>,
    jobs: Seq<Job>,
    left: Seq<int>,
    waiting: Set<int>,
)
    requires
        pool_holds(pool, jobs, left, waiting),
        jobs.len() <= usize::MAX,
        forall|i: int| waiting.contains(i) ==> 0 <= i < jobs.len(),
    ensures
        pool.len() == 0 <==> nothing_waits(waiting),
{
    broadcast use vstd::multiset::group_multiset_axioms;

    if pool.len() != 0 {
        let c = pool.choose();
        assert(pool.count(c) > 0);
        assert(waiting.contains(c.index as int));
    }
    if !nothing_waits(waiting) {
        let i = choose|i: int| waiting.contains(i);
        let c = entry_for(jobs, left, i);
        assert(c.index as int == i);
        assert(pool.count(c) == 1);
    }
}

/// A job that begins to wait gets its candidate.
pub proof fn lemma_pool_gains(
    pool: Multiset<Candidate>,
    jobs: Seq<Job>,
    left: Seq<int>,
    waiting: Set<int>,
    i: int,
)
    requires
        pool_holds(pool, jobs, left, waiting),
        0 <= i < jobs.len() <= usize::MAX,
        !waiting.contains(i),
    ensures
        pool_holds(pool.insert(entry_for(jobs, left, i)), jobs, left, waiting.insert(i)),
{
    broadcast use vstd::multiset::group_multiset_axioms;

    let added = entry_for(jobs, left, i);
    let grown = pool.insert(added);
    assert forall|c: Candidate| #[trigger]
        grown.count(c) == if waiting.insert(i).contains(c.index as int) && c == entry_for(
            jobs,
            left,
            c.index as int,
        ) {
            1nat
        } else {
            0nat
        } by {
        assert(pool.count(c) == if waiting.contains(c.index as int) && c == entry_for(
            jobs,
            left,
            c.index as int,
        ) {
            1nat
        } else {
            0nat
        });
    }
}

/// A job that stops waiting loses its candidate.
proof fn lemma_pool_loses(
    pool: Multiset<Candidate>,
    jobs: Seq<Job>,
    left: Seq<int>,
    waiting: Set<int>,
    i: int,
)
    requires
        pool_holds(pool, jobs, left, waiting),
        0 <= i < jobs.len() <= usize::MAX,
        waiting.contains(i),
    ensures
        pool_holds(pool.remove(entry_for(jobs, left, i)), jobs, left, waiting.remove(i)),
{
    broadcast use vstd::multiset::group_multiset_axioms;

    let gone = entry_for(jobs, left, i);
    let shrunk = pool.remove(gone);
    assert(pool.count(gone) == 1);
    assert forall|c: Candidate| #[trigger]
        shrunk.count(c) == if waiting.remove(i).contains(c.index as int) && c == entry_for(
            jobs,
            left,
            c.index as int,
        ) {
            1nat
        } else {
            0nat
        } by {
        assert(pool.count(c) == if waiting.contains(c.index as int) && c == entry_for(
            jobs,
            left,
            c.index as int,
        ) {
            1nat
        } else {
            0nat
        });
    }
}

/// A job that does not wait may change what it has left.
pub proof fn lemma_pool_left_changes(
    pool: Multiset<Candidate>,
    jobs: Seq<Job>,
    left: Seq<int>,
    waiting: Set<int>,
    i: int,
    amount: int,
)
    requires
        pool_holds(pool, jobs, left, waiting),
        0 <= i < jobs.len() <= usize::MAX,
        left.len() == jobs.len(),
        forall|j: int| waiting.contains(j) ==> 0 <= j < jobs.len(),
        !waiting.contains(i),
    ensures
        pool_holds(pool, jobs, left.update(i, amount), waiting),
{
    let changed = left.update(i, amount);
    assert forall|c: Candidate| #[trigger]
        pool.count(c) == if waiting.contains(c.index as int) && c == entry_for(
            jobs,
            changed,
            c.index as int,
        ) {
            1nat
        } else {
            0nat
        } by {
        assert(pool.count(c) == if waiting.contains(c.index as int) && c == entry_for(
            jobs,
            left,
            c.index as int,
        ) {
            1nat
        } else {
            0nat
        });
    }
}

/// The candidate that the pool hands out stands for the top of the waiting
/// jobs.
proof fn lemma_popped_is_top(
    pool: Multiset<Candidate>,
    jobs: Seq<Job>,
    left: Seq<int>,
    waiting: Set<int>,
    popped: Candidate,
)
    requires
        pool_holds(pool, jobs, left, waiting),
        jobs.len() <= usize::MAX,
        left.len() == jobs.len(),
        forall|i: int| waiting.contains(i) ==> 0 <= i < jobs.len(),
        forall|i: int| 0 <= i < jobs.len() ==> 0 <= #[trigger] left[i] <= u32::MAX,
        pool.contains(popped),
        forall|other: Candidate| pool.contains(other) ==> !other.outranks(popped),
    ensures
        waiting.contains(popped.index as int),
        popped == entry_for(jobs, left, popped.index as int),
        top(jobs, left, waiting) == popped.index,
{
    let i = popped.index as int;
    assert(pool.count(popped) > 0);
    assert forall|j: int| waiting.contains(j) implies !job_outranks(jobs, left, j, i) by {
        let other = entry_for(jobs, left, j);
        assert(other.index as int == j);
        assert(pool.count(other) == 1);
        assert(pool.contains(other));
        assert(!other.outranks(popped));
        assert(0 <= left[j] <= u32::MAX);
        assert(0 <= left[i] <= u32::MAX);
    }
    assert(is_top(jobs, left, waiting, i));
    lemma_top_is_unique(jobs, left, waiting, i);
}

/// Puts into the pool every job from `job_index` on whose delivery time has
/// come by `t`, and returns the position of the first job that is not due.
pub(crate) fn release_due(
    sorted: &Vec<Job>,
    ready_to_run: &mut ReadyPool,
    job_index: usize,
    t: u32,
    Ghost(machine): Ghost<Machine>,
    Ghost(preemptive): Ghost<bool>,
) -> (next_index: usize)
    requires
        sound(sorted@, machine, preemptive),
        job_index == machine.released,
        t == clamp_time(machine.clock),
        old(ready_to_run).well_formed(),
        pool_holds(old(ready_to_run)@, sorted@, machine.left, machine.waiting),
    ensures
        next_index == release_until(sorted@, machine.released, machine.clock),
        final(ready_to_run).well_formed(),
        pool_holds(
            final(ready_to_run)@,
            sorted@,
            machine.left,
            with_released(machine.waiting, machine.released, next_index as int),
        ),
{
    let n = sorted.len();
    let mut job_index = job_index;
    proof {
        lemma_release_until(sorted@, machine.released, machine.clock);
        assert(with_released(machine.waiting, machine.released, machine.released)
            =~= machine.waiting);
    }
    while job_index < n && sorted[job_index].delivery_time <= t
        invariant
            n == sorted@.len(),
            sound(sorted@, machine, preemptive),
            machine.released <= job_index <= n,
            t == clamp_time(machine.clock),
            release_until(sorted@, job_index as int, machine.clock) == release_until(
                sorted@,
                machine.released,
                machine.clock,
            ),
            ready_to_run.well_formed(),
            pool_holds(
                ready_to_run@,
                sorted@,
                machine.left,
                with_released(machine.waiting, machine.released, job_index as int),
            ),
        decreases n - job_index,
    {
        proof {
            let so_far = with_released(machine.waiting, machine.released, job_index as int);
            lemma_pool_gains(ready_to_run@, sorted@, machine.left, so_far, job_index as int);
            assert(so_far.insert(job_index as int) =~= with_released(
                machine.waiting,
                machine.released,
                job_index + 1,
            ));
            assert(machine.left[job_index as int] == sorted@[job_index as int].processing_time);
        }
        ready_to_run.push(Candidate { job: sorted[job_index], index: job_index });
        job_index += 1;
    }
    job_index
}

/// Takes from the pool the candidate of the waiting job of highest
/// priority; `None` where no job waits.
pub(crate) fn take_top(
    ready_to_run: &mut ReadyPool,
    Ghost(jobs): Ghost<Seq<Job>>,
    Ghost(left): Ghost<Seq<int>>,
    Ghost(waiting): Ghost<Set<int>>,
) -> (taken: Option<Candidate>)
    requires
        old(ready_to_run).well_formed(),
        pool_holds(old(ready_to_run)@, jobs, left, waiting),
        jobs.len() <= usize::MAX,
        left.len() == jobs.len(),
        forall|i: int| waiting.contains(i) ==> 0 <= i < jobs.len(),
        forall|i: int| 0 <= i < jobs.len() ==> 0 <= #[trigger] left[i] <= u32::MAX,
    ensures
        final(ready_to_run).well_formed(),
        taken.is_none() <==> nothing_waits(waiting),
        taken.is_none() ==> final(ready_to_run)@ == old(ready_to_run)@,
        taken.is_some() ==> {
            let i = taken.unwrap().index as int;
            &&& i == top(jobs, left, waiting)
            &&& waiting.contains(i)
            &&& taken.unwrap() == entry_for(jobs, left, i)
            &&& pool_holds(final(ready_to_run)@, jobs, left, waiting.remove(i))
        },
{
    let ghost before = ready_to_run@;
    proof {
        lemma_pool_empty(before, jobs, left, waiting);
    }
    let taken = ready_to_run.pop();
    proof {
        if taken.is_some() {
            lemma_popped_is_top(before, jobs, left, waiting, taken.unwrap());
            lemma_pool_loses(before, jobs, left, waiting, taken.unwrap().index as int);
        }
    }
    taken
}

} // verus!
