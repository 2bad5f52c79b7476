use proc_opt::jobs::Job;
use proc_opt::pool::{Candidate, ReadyPool};

fn candidate(processing: u32, cooldown: u32, index: usize) -> Candidate {
    Candidate { job: Job::new(0, processing, cooldown), index }
}

#[test]
fn longer_cooldown_has_priority() {
    let a = candidate(1, 9, 0);
    let b = candidate(100, 8, 1);
    assert!(a.has_priority_over(&b));
    assert!(!b.has_priority_over(&a));
}

#[test]
fn longer_processing_breaks_cooldown_ties() {
    let a = candidate(20, 56, 0);
    let b = candidate(1, 56, 1);
    assert!(a.has_priority_over(&b));
    assert!(!b.has_priority_over(&a));
}

#[test]
fn later_position_breaks_full_ties() {
    let a = candidate(4, 4, 2);
    let b = candidate(4, 4, 5);
    assert!(b.has_priority_over(&a));
    assert!(!a.has_priority_over(&b));
    assert!(!a.has_priority_over(&a));
}

#[test]
fn delivery_time_plays_no_part_in_priority() {
    let a = Candidate { job: Job::new(0, 4, 4), index: 1 };
    let b = Candidate { job: Job::new(99, 4, 4), index: 1 };
    assert!(!a.has_priority_over(&b));
    assert!(!b.has_priority_over(&a));
}

#[test]
fn empty_pool_gives_nothing() {
    let mut pool = ReadyPool::new();
    assert!(pool.is_empty());
    assert_eq!(pool.len(), 0);
    assert_eq!(pool.pop(), None);
    assert!(pool.is_empty());
}

#[test]
fn pool_gives_highest_priority_first() {
    let mut pool = ReadyPool::new();
    let entries = vec![
        candidate(5, 7, 0),
        candidate(6, 26, 1),
        candidate(7, 24, 2),
        candidate(4, 21, 3),
        candidate(3, 8, 4),
        candidate(6, 17, 5),
        candidate(2, 0, 6),
        candidate(9, 24, 7),
        candidate(7, 24, 8),
    ];
    for entry in entries.iter() {
        pool.push(*entry);
    }
    assert_eq!(pool.len(), 9);
    assert!(!pool.is_empty());
    let expected = vec![
        candidate(6, 26, 1),
        candidate(9, 24, 7),
        candidate(7, 24, 8),
        candidate(7, 24, 2),
        candidate(4, 21, 3),
        candidate(6, 17, 5),
        candidate(3, 8, 4),
        candidate(5, 7, 0),
        candidate(2, 0, 6),
    ];
    for entry in expected.iter() {
        assert_eq!(pool.pop(), Some(*entry));
    }
    assert_eq!(pool.pop(), None);
}

#[test]
fn pool_keeps_equal_candidates() {
    let mut pool = ReadyPool::new();
    pool.push(candidate(1, 1, 1));
    pool.push(candidate(1, 1, 1));
    pool.push(candidate(2, 1, 0));
    assert_eq!(pool.len(), 3);
    assert_eq!(pool.pop(), Some(candidate(2, 1, 0)));
    assert_eq!(pool.pop(), Some(candidate(1, 1, 1)));
    assert_eq!(pool.pop(), Some(candidate(1, 1, 1)));
    assert_eq!(pool.pop(), None);
}

#[test]
fn pool_takes_pushes_between_pops() {
    let mut pool = ReadyPool::new();
    let mut state: u32 = 99;
    let mut held: Vec<Candidate> = Vec::new();
    for round in 0..300usize {
        state = state.wrapping_mul(1664525).wrapping_add(1013904223);
        if (state >> 28) < 10 || held.is_empty() {
            let entry = candidate((state >> 8) % 4, (state >> 16) % 4, round);
            pool.push(entry);
            held.push(entry);
        } else {
            let mut best = 0;
            for k in 1..held.len() {
                if held[k].has_priority_over(&held[best]) {
                    best = k;
                }
            }
            let top = held.remove(best);
            assert_eq!(pool.pop(), Some(top));
        }
        assert_eq!(pool.len(), held.len());
    }
}
