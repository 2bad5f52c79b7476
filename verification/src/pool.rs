//! The priority rule among jobs that are ready to run, and a pool that hands
//! out the job of highest priority first.

use vstd::prelude::*;
use vstd::multiset::Multiset;
use crate::jobs::Job;

verus! {

/// A job that is ready to run, with the position at which its schedule lists
/// it. `job.processing_time` is the processing time the job still needs.
#[derive(Copy, Clone, Debug, PartialEq, Eq, Structural)]
pub struct Candidate {
    pub job: Job,
    pub index: usize,
}

impl Candidate {
    /// The priority rule: the longer cooldown time runs first; among equal
    /// cooldown times the longer processing time; among jobs equal in both,
    /// the later position.
    pub open spec fn outranks(self, other: Candidate) -> bool {
        rank_above(
            self.job.cooldown_time as int,
            self.job.processing_time as int,
            self.index as int,
            other.job.cooldown_time as int,
            other.job.processing_time as int,
            other.index as int,
        )
    }

    /// Whether `self` runs before `other` by the priority rule.
    pub fn has_priority_over(&self, other: &Candidate) -> (higher: bool)
        ensures
            higher == self.outranks(*other),
    {
        if self.job.cooldown_time != other.job.cooldown_time {
            self.job.cooldown_time > other.job.cooldown_time
        } else if self.job.processing_time != other.job.processing_time {
            self.job.processing_time > other.job.processing_time
        } else {
            self.index > other.index
        }
    }
}

/// The priority rule on plain numbers: cooldown time, then processing time,
/// then position, the larger first.
pub open spec fn rank_above(
    cooldown: int,
    processing: int,
    position: int,
    other_cooldown: int,
    other_processing: int,
    other_position: int,
) -> bool {
    cooldown > other_cooldown || (cooldown == other_cooldown && (processing > other_processing
        || (processing == other_processing && position > other_position)))
}

/// The position above position `i` in the pool's tree.
spec fn parent_of(i: int) -> int {
    (i - 1) / 2
}

/// No element of `items` outranks the one at the position above it, where
/// positions `skip_child` (as the lower one) and the children of `skip_parent`
/// are not looked at.
spec fn ordered_except(items: Seq<Candidate>, skip_child: int, skip_parent: int) -> bool {
    forall|j: int|
        0 < j < items.len() && j != skip_child && parent_of(j) != skip_parent
            ==> !(#[trigger] items[j]).outranks(items[parent_of(j)])
}

/// No element of `items` outranks the one at the position above it.
spec fn heap_ordered(items: Seq<Candidate>) -> bool {
    ordered_except(items, -1, -1)
}

/// In an ordered pool nothing outranks the first element.
proof fn lemma_root_is_highest(items: Seq<Candidate>, i: int)
    requires
        heap_ordered(items),
        0 <= i < items.len(),
    ensures
        !items[i].outranks(items[0]),
    decreases i,
{
    if i > 0 {
        lemma_root_is_highest(items, parent_of(i));
        assert(!items[i].outranks(items[parent_of(i)]));
    }
}

/// Exchanging two elements changes nothing in what the pool holds.
proof fn lemma_exchange_keeps_contents(items: Seq<Candidate>, i: int, j: int)
    requires
        0 <= i < items.len(),
        0 <= j < items.len(),
    ensures
        items.update(i, items[j]).update(j, items[i]).to_multiset() == items.to_multiset(),
{
    broadcast use vstd::seq_lib::group_to_multiset_ensures;

    let first = items.update(i, items[j]);
    assert(first.to_multiset() == items.to_multiset().insert(items[j]).remove(items[i]));
    assert(first.update(j, items[i]).to_multiset() == first.to_multiset().insert(
        items[i],
    ).remove(first[j]));
    assert(items.to_multiset().count(items[i]) > 0);
    assert(items.to_multiset().count(items[j]) > 0);
    assert(first.update(j, items[i]).to_multiset() =~= items.to_multiset());
}

/// The jobs that are ready to run. [`ReadyPool::pop`] hands out the one that
/// no other outranks.
pub struct ReadyPool {
    items: Vec<Candidate>,
}

impl View for ReadyPool {
    type V = Multiset<Candidate>;

    /// The candidates in the pool.
    closed spec fn view(&self) -> Multiset<Candidate> {
        self.items@.to_multiset()
    }
}

impl ReadyPool {
    /// The pool keeps its candidates so that the highest comes out first.
    pub closed spec fn well_formed(&self) -> bool {
        heap_ordered(self.items@)
    }

    /// The empty pool.
    pub fn new() -> (pool: ReadyPool)
        ensures
            pool.well_formed(),
            pool@ == Multiset::<Candidate>::empty(),
    {
        let pool = ReadyPool { items: Vec::new() };
        proof {
            broadcast use vstd::seq_lib::group_to_multiset_ensures;

            assert(pool.items@.to_multiset().len() == 0);
            assert(pool.items@.to_multiset() =~= Multiset::<Candidate>::empty());
        }
        pool
    }

    /// The number of candidates in the pool.
    pub fn len(&self) -> (count: usize)
        ensures
            count == self@.len(),
    {
        proof {
            broadcast use vstd::seq_lib::group_to_multiset_ensures;

        }
        self.items.len()
    }

    /// Whether the pool holds no candidate.
    pub fn is_empty(&self) -> (empty: bool)
        ensures
            empty <==> self@.len() == 0,
    {
        proof {
            broadcast use vstd::seq_lib::group_to_multiset_ensures;

        }
        self.items.len() == 0
    }

    /// Adds `candidate` to the pool.
    pub fn push(&mut self, candidate: Candidate)
        requires
            old(self).well_formed(),
        ensures
            final(self).well_formed(),
            final(self)@ == old(self)@.insert(candidate),
    {
        self.items.push(candidate);
        let mut i: usize = self.items.len() - 1;
        proof {
            broadcast use vstd::seq_lib::group_to_multiset_ensures;

            assert(self.items@.to_multiset() == old(self)@.insert(candidate));
            assert forall|j: int|
                0 < j < self.items@.len() && j != i && parent_of(j) != -1 implies !(
                #[trigger] self.items@[j]).outranks(self.items@[parent_of(j)]) by {
                assert(old(self).items@[j] == self.items@[j]);
                assert(!old(self).items@[j].outranks(old(self).items@[parent_of(j)]));
            }
        }
        while i > 0 && self.items[i].has_priority_over(&self.items[(i - 1) / 2])
            invariant
                i < self.items@.len(),
                self.items@.to_multiset() == old(self)@.insert(candidate),
                ordered_except(self.items@, i as int, -1),
                forall|j: int|
                    0 < j < self.items@.len() && parent_of(j) == i && i > 0 ==> !(
                    #[trigger] self.items@[j]).outranks(self.items@[parent_of(i as int)]),
            decreases i,
        {
            let up = (i - 1) / 2;
            let ghost before = self.items@;
            let lower = self.items[i];
            let upper = self.items[up];
            self.items.set(i, upper);
            self.items.set(up, lower);
            proof {
                lemma_exchange_keeps_contents(before, i as int, up as int);
                assert(self.items@ =~= before.update(i as int, before[up as int]).update(
                    up as int,
                    before[i as int],
                ));
                assert forall|j: int|
                    0 < j < self.items@.len() && j != up && parent_of(j) != -1 implies !(
                #[trigger] self.items@[j]).outranks(self.items@[parent_of(j)]) by {
                    if j == i {
                    } else if parent_of(j) == i {
                        assert(!before[j].outranks(before[parent_of(i as int)]));
                    } else if parent_of(j) == up {
                        assert(!before[j].outranks(before[parent_of(j)]));
                    } else {
                        assert(!before[j].outranks(before[parent_of(j)]));
                    }
                }
                assert forall|j: int|
                    0 < j < self.items@.len() && parent_of(j) == up && up > 0 implies !(
                #[trigger] self.items@[j]).outranks(self.items@[parent_of(up as int)]) by {
                    assert(!before[up as int].outranks(before[parent_of(up as int)]));
                    if j != i {
                        assert(!before[j].outranks(before[parent_of(j)]));
                    }
                }
            }
            i = up;
        }
        proof {
            assert forall|j: int|
                0 < j < self.items@.len() && j != -1 && parent_of(j) != -1 implies !(
            #[trigger] self.items@[j]).outranks(self.items@[parent_of(j)]) by {
            }
        }
    }

    /// Removes and returns the candidate that no other in the pool outranks;
    /// `None` where the pool is empty.
    pub fn pop(&mut self) -> (top: Option<Candidate>)
        requires
            old(self).well_formed(),
        ensures
            final(self).well_formed(),
            old(self)@.len() == 0 ==> top.is_none() && final(self)@ == old(self)@,
            old(self)@.len() > 0 ==> top.is_some() && old(self)@.contains(top.unwrap())
                && final(self)@ == old(self)@.remove(top.unwrap()),
            top.is_some() ==> forall|other: Candidate|
                old(self)@.contains(other) ==> !other.outranks(top.unwrap()),
    {
        proof {
            broadcast use vstd::seq_lib::group_to_multiset_ensures;

        }
        if self.items.len() == 0 {
            return None;
        }
        let top = self.items[0];
        let ghost start = self.items@;
        proof {
            assert forall|other: Candidate| old(self)@.contains(other) implies !other.outranks(
                top,
            ) by {
                let k = choose|k: int| 0 <= k < start.len() && start[k] == other;
                lemma_root_is_highest(start, k);
            }
        }
        let last = self.items.pop().unwrap();
        let n = self.items.len();
        if n == 0 {
            proof {
                assert(start =~= self.items@.push(top));
                assert(self.items@.to_multiset() =~= start.to_multiset().remove(top));
            }
            return Some(top);
        }
        self.items.set(0, last);
        proof {
            let shorter = start.drop_last();
            assert(start =~= shorter.push(last));
            assert(shorter.to_multiset().insert(last) == start.to_multiset());
            assert(self.items@ == shorter.update(0, last));
            assert(self.items@.to_multiset() =~= start.to_multiset().remove(top));
            assert forall|j: int|
                0 < j < self.items@.len() && j != -1 && parent_of(j) != 0 implies !(
            #[trigger] self.items@[j]).outranks(self.items@[parent_of(j)]) by {
                assert(!start[j].outranks(start[parent_of(j)]));
            }
        }
        let mut i: usize = 0;
        let mut settled = false;
        while !settled
            invariant
                n == self.items@.len(),
                i < n,
                self.items@.to_multiset() == start.to_multiset().remove(top),
                ordered_except(self.items@, -1, if settled { -1 } else { i as int }),
                !settled ==> forall|j: int|
                    0 < j < n && parent_of(j) == i && i > 0 ==> !(
                    #[trigger] self.items@[j]).outranks(self.items@[parent_of(i as int)]),
            decreases n - i + (if settled { 0int } else { 1int }),
        {
            // the position of the first element below `i`, or `n` if there is none
            let left = if i < n / 2 { 2 * i + 1 } else { n };
            if left >= n {
                settled = true;
                proof {
                    assert forall|j: int| 0 < j < n && j != -1 && parent_of(j) != -1 implies !(
                    #[trigger] self.items@[j]).outranks(self.items@[parent_of(j)]) by {
                    }
                }
            } else {
                let right = left + 1;
                let child = if right < n && self.items[right].has_priority_over(
                    &self.items[left],
                ) {
                    right
                } else {
                    left
                };
                if self.items[child].has_priority_over(&self.items[i]) {
                    let ghost before = self.items@;
                    let lower = self.items[child];
                    let upper = self.items[i];
                    self.items.set(child, upper);
                    self.items.set(i, lower);
                    proof {
                        lemma_exchange_keeps_contents(before, child as int, i as int);
                        assert(self.items@ =~= before.update(
                            child as int,
                            before[i as int],
                        ).update(i as int, before[child as int]));
                        assert forall|j: int|
                            0 < j < n && j != -1 && parent_of(j) != child implies !(
                        #[trigger] self.items@[j]).outranks(self.items@[parent_of(j)]) by {
                            if j == i {
                                assert(!before[child as int].outranks(
                                    before[parent_of(i as int)],
                                ));
                            } else if parent_of(j) == i {
                                if j != child {
                                    assert(j == left || j == right);
                                }
                            } else {
                                assert(!before[j].outranks(before[parent_of(j)]));
                            }
                        }
                        assert forall|j: int|
                            0 < j < n && parent_of(j) == child && child > 0 implies !(
                        #[trigger] self.items@[j]).outranks(
                            self.items@[parent_of(child as int)],
                        ) by {
                            assert(!before[j].outranks(before[parent_of(j)]));
                        }
                    }
                    i = child;
                } else {
                    settled = true;
                    proof {
                        assert forall|j: int|
                            0 < j < n && j != -1 && parent_of(j) != -1 implies !(
                        #[trigger] self.items@[j]).outranks(self.items@[parent_of(j)]) by {
                            if parent_of(j) == i {
                                assert(j == left || j == right);
                            }
                        }
                    }
                }
            }
        }
        Some(top)
    }
}

} // verus!
