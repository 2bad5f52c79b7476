//! Stable sorting of jobs by one of their times.
//!
//! [`stable_sort`] is the mathematical statement; [`lemma_stable_sort_is_stable`]
//! and [`lemma_stable_sort_unique`] show that it is the one sequence that is in
//! ascending order of the key and keeps the jobs of each key value in the
//! order of the input. [`stable_sort_vec`] computes it by merging.

use vstd::prelude::*;
use crate::jobs::Job;

verus! {

/// The time by which a sequence of jobs is put in order.
#[derive(Copy, Clone, Debug, PartialEq, Eq, Structural)]
pub enum SortKey {
    DeliveryTime,
    ProcessingTime,
    CooldownTime,
}

impl SortKey {
    /// The value of this key for `job`.
    pub open spec fn of(self, job: Job) -> int {
        match self {
            SortKey::DeliveryTime => job.delivery_time as int,
            SortKey::ProcessingTime => job.processing_time as int,
            SortKey::CooldownTime => job.cooldown_time as int,
        }
    }

    /// The value of this key for `job`.
    pub fn read(&self, job: &Job) -> (value: u32)
        ensures
            value == self.of(*job),
    {
        match self {
            SortKey::DeliveryTime => job.delivery_time,
            SortKey::ProcessingTime => job.processing_time,
            SortKey::CooldownTime => job.cooldown_time,
        }
    }
}

/// The keys of `jobs` do not descend.
pub open spec fn is_sorted(jobs: Seq<Job>, key: SortKey) -> bool {
    forall|i: int, j: int| 0 <= i <= j < jobs.len() ==> key.of(jobs[i]) <= key.of(jobs[j])
}

/// The jobs of `jobs` whose key is `value`, in the order of `jobs`.
pub open spec fn with_key(jobs: Seq<Job>, key: SortKey, value: int) -> Seq<Job>
    decreases jobs.len(),
{
    if jobs.len() == 0 {
        jobs
    } else {
        let rest = with_key(jobs.drop_last(), key, value);
        if key.of(jobs.last()) == value {
            rest.push(jobs.last())
        } else {
            rest
        }
    }
}

/// `sorted` is in ascending order of `key` and holds, for every value of the
/// key, the same jobs in the same order as `jobs`.
pub open spec fn is_stable_sort_of(sorted: Seq<Job>, jobs: Seq<Job>, key: SortKey) -> bool {
    &&& is_sorted(sorted, key)
    &&& forall|value: int| #[trigger] with_key(sorted, key, value) == with_key(jobs, key, value)
}

/// `sorted` with `job` put behind the last element whose key is not larger.
pub open spec fn insert_behind_equals(sorted: Seq<Job>, job: Job, key: SortKey) -> Seq<Job>
    decreases sorted.len(),
{
    if sorted.len() == 0 || key.of(sorted.last()) <= key.of(job) {
        sorted.push(job)
    } else {
        insert_behind_equals(sorted.drop_last(), job, key).push(sorted.last())
    }
}

/// The jobs of `jobs` in ascending order of `key`, jobs with equal keys in the
/// order in which `jobs` holds them.
pub open spec fn stable_sort(jobs: Seq<Job>, key: SortKey) -> Seq<Job>
    decreases jobs.len(),
{
    if jobs.len() == 0 {
        jobs
    } else {
        insert_behind_equals(stable_sort(jobs.drop_last(), key), jobs.last(), key)
    }
}

/// A job added at the end is the last with its key value, and changes
/// nothing for the other key values.
pub proof fn lemma_with_key_push(jobs: Seq<Job>, job: Job, key: SortKey, value: int)
    ensures
        with_key(jobs.push(job), key, value) == if key.of(job) == value {
            with_key(jobs, key, value).push(job)
        } else {
            with_key(jobs, key, value)
        },
{
    assert(jobs.push(job).drop_last() =~= jobs);
}

/// The jobs of a key value in two sequences joined are those of the first
/// followed by those of the second.
pub proof fn lemma_with_key_concat(front: Seq<Job>, back: Seq<Job>, key: SortKey, value: int)
    ensures
        with_key(front + back, key, value) == with_key(front, key, value) + with_key(
            back,
            key,
            value,
        ),
    decreases back.len(),
{
    if back.len() == 0 {
        assert(front + back =~= front);
        assert(with_key(front, key, value) + with_key(back, key, value) =~= with_key(
            front,
            key,
            value,
        ));
    } else {
        lemma_with_key_concat(front, back.drop_last(), key, value);
        assert((front + back).drop_last() =~= front + back.drop_last());
        assert((front + back).last() == back.last());
        let joined = with_key(front, key, value) + with_key(back.drop_last(), key, value);
        if key.of(back.last()) == value {
            assert(joined.push(back.last()) =~= with_key(front, key, value) + with_key(
                back.drop_last(),
                key,
                value,
            ).push(back.last()));
        }
    }
}

/// `with_key` keeps exactly the jobs with the given key value.
pub proof fn lemma_with_key_members(jobs: Seq<Job>, key: SortKey, value: int)
    ensures
        with_key(jobs, key, value).len() <= jobs.len(),
        forall|i: int|
            0 <= i < with_key(jobs, key, value).len() ==> key.of(
                #[trigger] with_key(jobs, key, value)[i],
            ) == value,
        (exists|i: int| 0 <= i < jobs.len() && key.of(jobs[i]) == value) <==> with_key(
            jobs,
            key,
            value,
        ).len() > 0,
    decreases jobs.len(),
{
    if jobs.len() > 0 {
        lemma_with_key_members(jobs.drop_last(), key, value);
        let rest = with_key(jobs.drop_last(), key, value);
        if with_key(jobs, key, value).len() > 0 {
            if key.of(jobs.last()) == value {
                assert(key.of(jobs[jobs.len() - 1]) == value);
            } else {
                let i = choose|i: int|
                    0 <= i < jobs.drop_last().len() && key.of(jobs.drop_last()[i]) == value;
                assert(key.of(jobs[i]) == value);
            }
        }
        if exists|i: int| 0 <= i < jobs.len() && key.of(jobs[i]) == value {
            let i = choose|i: int| 0 <= i < jobs.len() && key.of(jobs[i]) == value;
            if i < jobs.len() - 1 {
                assert(key.of(jobs.drop_last()[i]) == value);
            }
        }
    }
}

/// Putting a job into a sorted sequence keeps the sequence sorted, adds
/// the job and nothing else, and puts it behind the jobs of its key value.
proof fn lemma_insert_behind_equals(sorted: Seq<Job>, job: Job, key: SortKey)
    requires
        is_sorted(sorted, key),
    ensures
        is_sorted(insert_behind_equals(sorted, job, key), key),
        insert_behind_equals(sorted, job, key).len() == sorted.len() + 1,
        insert_behind_equals(sorted, job, key).to_multiset() == sorted.to_multiset().insert(job),
        forall|i: int|
            0 <= i <= sorted.len() ==> sorted.contains(
                #[trigger] insert_behind_equals(sorted, job, key)[i],
            ) || insert_behind_equals(sorted, job, key)[i] == job,
        forall|value: int|
            #[trigger] with_key(insert_behind_equals(sorted, job, key), key, value) == with_key(
                sorted.push(job),
                key,
                value,
            ),
    decreases sorted.len(),
{
    broadcast use vstd::seq_lib::group_to_multiset_ensures;

    let out = insert_behind_equals(sorted, job, key);
    if sorted.len() == 0 || key.of(sorted.last()) <= key.of(job) {
        assert forall|i: int| 0 <= i <= sorted.len() implies sorted.contains(#[trigger] out[i])
            || out[i] == job by {
            if i < sorted.len() {
                assert(out[i] == sorted[i]);
            }
        }
    } else {
        let front = sorted.drop_last();
        let last = sorted.last();
        lemma_insert_behind_equals(front, job, key);
        let inner = insert_behind_equals(front, job, key);
        assert(sorted =~= front.push(last));
        assert forall|i: int| 0 <= i <= sorted.len() implies sorted.contains(#[trigger] out[i])
            || out[i] == job by {
            if i < sorted.len() {
                assert(out[i] == inner[i]);
                if inner[i] != job {
                    let j = choose|j: int| 0 <= j < front.len() && front[j] == inner[i];
                    assert(out[i] == sorted[j]);
                }
            } else {
                assert(out[i] == sorted[sorted.len() - 1]);
            }
        }
        assert forall|i: int, j: int| 0 <= i <= j < out.len() implies key.of(out[i]) <= key.of(
            out[j],
        ) by {
            if j == out.len() - 1 && i < j {
                assert(out[i] == inner[i]);
                if inner[i] != job {
                    let w = choose|w: int| 0 <= w < front.len() && front[w] == inner[i];
                    assert(key.of(sorted[w]) <= key.of(sorted[sorted.len() - 1]));
                }
            } else if j < out.len() - 1 {
                assert(out[i] == inner[i] && out[j] == inner[j]);
            }
        }
        assert forall|value: int| #[trigger]
            with_key(out, key, value) == with_key(sorted.push(job), key, value) by {
            lemma_with_key_push(inner, last, key, value);
            lemma_with_key_push(front, job, key, value);
            lemma_with_key_push(front, last, key, value);
            lemma_with_key_push(sorted, job, key, value);
        }
        assert(out.to_multiset() =~= sorted.to_multiset().insert(job));
    }
}

/// The stable sort is in ascending order of the key, keeps the jobs of each
/// key value in the order of the input, and is a rearrangement of the input.
pub proof fn lemma_stable_sort_is_stable(jobs: Seq<Job>, key: SortKey)
    ensures
        is_stable_sort_of(stable_sort(jobs, key), jobs, key),
        stable_sort(jobs, key).len() == jobs.len(),
        stable_sort(jobs, key).to_multiset() == jobs.to_multiset(),
    decreases jobs.len(),
{
    broadcast use vstd::seq_lib::group_to_multiset_ensures;

    if jobs.len() > 0 {
        let front = jobs.drop_last();
        lemma_stable_sort_is_stable(front, key);
        lemma_insert_behind_equals(stable_sort(front, key), jobs.last(), key);
        assert(jobs =~= front.push(jobs.last()));
        assert forall|value: int| #[trigger]
            with_key(stable_sort(jobs, key), key, value) == with_key(jobs, key, value) by {
            lemma_with_key_push(stable_sort(front, key), jobs.last(), key, value);
            lemma_with_key_push(front, jobs.last(), key, value);
            assert(with_key(stable_sort(front, key), key, value) == with_key(front, key, value));
        }
    }
}

/// Two sequences in ascending order of the key that agree on the jobs of
/// every key value are the same sequence.
pub proof fn lemma_sorted_agreeing_are_equal(a: Seq<Job>, b: Seq<Job>, key: SortKey)
    requires
        is_sorted(a, key),
        is_sorted(b, key),
        forall|value: int| #[trigger] with_key(a, key, value) == with_key(b, key, value),
    ensures
        a == b,
    decreases a.len(),
{
    if a.len() == 0 {
        if b.len() > 0 {
            let kb = key.of(b.last());
            lemma_with_key_members(b, key, kb);
            assert(key.of(b[b.len() - 1]) == kb);
            assert(with_key(a, key, kb) == with_key(b, key, kb));
        }
        assert(a =~= b);
    } else {
        let ka = key.of(a.last());
        lemma_with_key_members(a, key, ka);
        lemma_with_key_members(b, key, ka);
        assert(key.of(a[a.len() - 1]) == ka);
        assert(with_key(a, key, ka) == with_key(b, key, ka));
        let ib = choose|i: int| 0 <= i < b.len() && key.of(b[i]) == ka;
        let kb = key.of(b.last());
        lemma_with_key_members(a, key, kb);
        lemma_with_key_members(b, key, kb);
        assert(key.of(b[b.len() - 1]) == kb);
        assert(with_key(a, key, kb) == with_key(b, key, kb));
        let ia = choose|i: int| 0 <= i < a.len() && key.of(a[i]) == kb;
        assert(key.of(b[ib]) <= key.of(b[b.len() - 1]));
        assert(key.of(a[ia]) <= key.of(a[a.len() - 1]));
        assert(ka == kb);
        let wa = with_key(a.drop_last(), key, ka);
        let wb = with_key(b.drop_last(), key, ka);
        assert(wa.push(a.last()) == wb.push(b.last()));
        assert(wa.push(a.last()).last() == a.last());
        assert(wb.push(b.last()).last() == b.last());
        assert(wa.push(a.last()).drop_last() =~= wa);
        assert(wb.push(b.last()).drop_last() =~= wb);
        assert forall|value: int| #[trigger]
            with_key(a.drop_last(), key, value) == with_key(b.drop_last(), key, value) by {
            assert(with_key(a, key, value) == with_key(b, key, value));
        }
        assert forall|i: int, j: int| 0 <= i <= j < a.drop_last().len() implies key.of(
            a.drop_last()[i],
        ) <= key.of(a.drop_last()[j]) by {
            assert(key.of(a[i]) <= key.of(a[j]));
        }
        assert forall|i: int, j: int| 0 <= i <= j < b.drop_last().len() implies key.of(
            b.drop_last()[i],
        ) <= key.of(b.drop_last()[j]) by {
            assert(key.of(b[i]) <= key.of(b[j]));
        }
        lemma_sorted_agreeing_are_equal(a.drop_last(), b.drop_last(), key);
        assert(a =~= a.drop_last().push(a.last()));
        assert(b =~= b.drop_last().push(b.last()));
    }
}

/// A sequence has one stable sort.
pub proof fn lemma_stable_sort_unique(sorted: Seq<Job>, jobs: Seq<Job>, key: SortKey)
    requires
        is_stable_sort_of(sorted, jobs, key),
    ensures
        sorted == stable_sort(jobs, key),
{
    lemma_stable_sort_is_stable(jobs, key);
    let model = stable_sort(jobs, key);
    assert forall|value: int| #[trigger]
        with_key(sorted, key, value) == with_key(model, key, value) by {
        assert(with_key(model, key, value) == with_key(jobs, key, value));
    }
    lemma_sorted_agreeing_are_equal(sorted, model, key);
}

/// Merges two sorted vectors; among jobs with equal keys those of `left`
/// come first.
fn merge(left: &Vec<Job>, right: &Vec<Job>, key: SortKey) -> (merged: Vec<Job>)
    requires
        is_sorted(left@, key),
        is_sorted(right@, key),
    ensures
        is_sorted(merged@, key),
        forall|value: int| #[trigger]
            with_key(merged@, key, value) == with_key(left@, key, value) + with_key(
                right@,
                key,
                value,
            ),
{
    let mut merged: Vec<Job> = Vec::new();
    let mut i: usize = 0;
    let mut j: usize = 0;
    let nl = left.len();
    let nr = right.len();
    proof {
        assert forall|value: int| #[trigger]
            with_key(merged@, key, value) == with_key(left@.take(0), key, value) + with_key(
                right@.take(0),
                key,
                value,
            ) by {
            assert(with_key(merged@, key, value) =~= with_key(left@.take(0), key, value)
                + with_key(right@.take(0), key, value));
        }
    }
    while i < nl || j < nr
        invariant
            nl == left.len(),
            nr == right.len(),
            i <= nl,
            j <= nr,
            is_sorted(left@, key),
            is_sorted(right@, key),
            is_sorted(merged@, key),
            forall|m: int|
                0 <= m < merged@.len() && i < nl ==> key.of(#[trigger] merged@[m]) <= key.of(
                    left@[i as int],
                ),
            forall|m: int|
                0 <= m < merged@.len() && j < nr ==> key.of(#[trigger] merged@[m]) <= key.of(
                    right@[j as int],
                ),
            forall|m: int|
                0 <= m < j && i < nl ==> key.of(#[trigger] right@[m]) < key.of(left@[i as int]),
            forall|value: int| #[trigger]
                with_key(merged@, key, value) == with_key(left@.take(i as int), key, value)
                    + with_key(right@.take(j as int), key, value),
        decreases (nl - i) + (nr - j),
    {
        let ghost before = merged@;
        let take_left = if j >= nr {
            true
        } else if i >= nl {
            false
        } else {
            key.read(&left[i]) <= key.read(&right[j])
        };
        if take_left {
            let job = left[i];
            merged.push(job);
            proof {
                assert(left@.take(i + 1) =~= left@.take(i as int).push(job));
                assert forall|value: int| #[trigger]
                    with_key(merged@, key, value) == with_key(left@.take(i + 1), key, value)
                        + with_key(right@.take(j as int), key, value) by {
                    lemma_with_key_push(before, job, key, value);
                    lemma_with_key_push(left@.take(i as int), job, key, value);
                    assert(with_key(before, key, value) == with_key(
                        left@.take(i as int),
                        key,
                        value,
                    ) + with_key(right@.take(j as int), key, value));
                    if key.of(job) == value {
                        lemma_with_key_members(right@.take(j as int), key, value);
                        if with_key(right@.take(j as int), key, value).len() > 0 {
                            let m = choose|m: int|
                                0 <= m < right@.take(j as int).len() && key.of(
                                    right@.take(j as int)[m],
                                ) == value;
                            assert(key.of(right@[m]) < key.of(left@[i as int]));
                        }
                        assert(with_key(before, key, value).push(job) =~= with_key(
                            left@.take(i as int),
                            key,
                            value,
                        ).push(job) + with_key(right@.take(j as int), key, value));
                    }
                }
                assert forall|m: int| 0 <= m < j && i + 1 < nl implies key.of(
                    #[trigger] right@[m],
                ) < key.of(left@[i + 1]) by {
                    assert(key.of(left@[i as int]) <= key.of(left@[i + 1]));
                }
                assert forall|m: int| 0 <= m < merged@.len() && i + 1 < nl implies key.of(
                    #[trigger] merged@[m],
                ) <= key.of(left@[i + 1]) by {
                    assert(key.of(left@[i as int]) <= key.of(left@[i + 1]));
                    if m < before.len() {
                        assert(merged@[m] == before[m]);
                    }
                }
                assert forall|a: int, b: int| 0 <= a <= b < merged@.len() implies key.of(
                    merged@[a],
                ) <= key.of(merged@[b]) by {
                    if a < before.len() {
                        assert(merged@[a] == before[a]);
                    }
                    if b < before.len() {
                        assert(merged@[b] == before[b]);
                    }
                }
            }
            i += 1;
        } else {
            let job = right[j];
            merged.push(job);
            proof {
                assert(right@.take(j + 1) =~= right@.take(j as int).push(job));
                assert forall|value: int| #[trigger]
                    with_key(merged@, key, value) == with_key(left@.take(i as int), key, value)
                        + with_key(right@.take(j + 1), key, value) by {
                    lemma_with_key_push(before, job, key, value);
                    lemma_with_key_push(right@.take(j as int), job, key, value);
                    assert(with_key(before, key, value) == with_key(
                        left@.take(i as int),
                        key,
                        value,
                    ) + with_key(right@.take(j as int), key, value));
                    if key.of(job) == value {
                        assert(with_key(before, key, value).push(job) =~= with_key(
                            left@.take(i as int),
                            key,
                            value,
                        ) + with_key(right@.take(j as int), key, value).push(job));
                    }
                }
                assert forall|m: int| 0 <= m < merged@.len() && j + 1 < nr implies key.of(
                    #[trigger] merged@[m],
                ) <= key.of(right@[j + 1]) by {
                    assert(key.of(right@[j as int]) <= key.of(right@[j + 1]));
                    if m < before.len() {
                        assert(merged@[m] == before[m]);
                    }
                }
                assert forall|a: int, b: int| 0 <= a <= b < merged@.len() implies key.of(
                    merged@[a],
                ) <= key.of(merged@[b]) by {
                    if a < before.len() {
                        assert(merged@[a] == before[a]);
                    }
                    if b < before.len() {
                        assert(merged@[b] == before[b]);
                    }
                }
            }
            j += 1;
        }
    }
    proof {
        assert(left@.take(nl as int) =~= left@);
        assert(right@.take(nr as int) =~= right@);
    }
    merged
}

/// The stable sort of the jobs of `jobs` at the positions from `from` up to,
/// not including, `to`.
fn sort_range(jobs: &Vec<Job>, from: usize, to: usize, key: SortKey) -> (sorted: Vec<Job>)
    requires
        from <= to <= jobs.len(),
    ensures
        is_stable_sort_of(sorted@, jobs@.subrange(from as int, to as int), key),
    decreases to - from,
{
    let ghost part = jobs@.subrange(from as int, to as int);
    if to - from <= 1 {
        let mut sorted: Vec<Job> = Vec::new();
        if from < to {
            sorted.push(jobs[from]);
        }
        proof {
            assert(sorted@ =~= part);
        }
        sorted
    } else {
        let middle = from + (to - from) / 2;
        let left = sort_range(jobs, from, middle, key);
        let right = sort_range(jobs, middle, to, key);
        let sorted = merge(&left, &right, key);
        proof {
            let front = jobs@.subrange(from as int, middle as int);
            let back = jobs@.subrange(middle as int, to as int);
            assert(part =~= front + back);
            assert forall|value: int| #[trigger]
                with_key(sorted@, key, value) == with_key(part, key, value) by {
                lemma_with_key_concat(front, back, key, value);
                assert(with_key(left@, key, value) == with_key(front, key, value));
                assert(with_key(right@, key, value) == with_key(back, key, value));
            }
        }
        sorted
    }
}

/// Sorts `jobs` by `key`, keeping the order of jobs with equal keys.
pub fn stable_sort_vec(jobs: &Vec<Job>, key: SortKey) -> (sorted: Vec<Job>)
    ensures
        sorted@ == stable_sort(jobs@, key),
{
    let sorted = sort_range(jobs, 0, jobs.len(), key);
    proof {
        assert(jobs@.subrange(0, jobs.len() as int) =~= jobs@);
        lemma_stable_sort_unique(sorted@, jobs@, key);
    }
    sorted
}

} // verus!
