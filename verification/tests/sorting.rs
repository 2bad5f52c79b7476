use proc_opt::jobs::{Job, JobList};
use proc_opt::order::{stable_sort_vec, SortKey};

#[test]
fn sort_by_delivery_time_keeps_equal_jobs_in_order() {
    let list = JobList::new(vec![
        Job::new(5, 1, 1),
        Job::new(3, 2, 2),
        Job::new(5, 3, 3),
        Job::new(3, 4, 4),
        Job::new(0, 5, 5),
    ]);
    let expected = vec![
        Job::new(0, 5, 5),
        Job::new(3, 2, 2),
        Job::new(3, 4, 4),
        Job::new(5, 1, 1),
        Job::new(5, 3, 3),
    ];
    assert_eq!(list.sorted_by_delivery_time(), expected);
}

#[test]
fn sort_by_processing_time_keeps_equal_jobs_in_order() {
    let list = JobList::new(vec![
        Job::new(1, 7, 1),
        Job::new(2, 3, 2),
        Job::new(3, 7, 3),
        Job::new(4, 3, 4),
    ]);
    let expected =
        vec![Job::new(2, 3, 2), Job::new(4, 3, 4), Job::new(1, 7, 1), Job::new(3, 7, 3)];
    assert_eq!(list.sorted_by_processing_time(), expected);
}

#[test]
fn sort_by_cooldown_time_keeps_equal_jobs_in_order() {
    let list = JobList::new(vec![
        Job::new(1, 1, 9),
        Job::new(2, 2, 9),
        Job::new(3, 3, 0),
        Job::new(4, 4, 9),
        Job::new(5, 5, 0),
    ]);
    let expected = vec![
        Job::new(3, 3, 0),
        Job::new(5, 5, 0),
        Job::new(1, 1, 9),
        Job::new(2, 2, 9),
        Job::new(4, 4, 9),
    ];
    assert_eq!(list.sorted_by_cooldown_time(), expected);
}

#[test]
fn sort_leaves_the_list_as_it_is() {
    let jobs = vec![Job::new(2, 0, 0), Job::new(1, 0, 0)];
    let list = JobList::new(jobs.clone());
    let sorted = list.sorted_by_delivery_time();
    assert_eq!(list.jobs, jobs);
    assert_eq!(sorted, vec![Job::new(1, 0, 0), Job::new(2, 0, 0)]);
}

#[test]
fn sort_of_nothing_and_of_one() {
    assert_eq!(stable_sort_vec(&Vec::new(), SortKey::DeliveryTime), Vec::new());
    assert_eq!(
        stable_sort_vec(&vec![Job::new(1, 2, 3)], SortKey::CooldownTime),
        vec![Job::new(1, 2, 3)]
    );
}

#[test]
fn sort_agrees_with_the_standard_stable_sort() {
    // a fixed pseudo-random collection with many equal keys
    let mut jobs = Vec::new();
    let mut state: u32 = 12345;
    for _ in 0..200 {
        state = state.wrapping_mul(1103515245).wrapping_add(12345);
        let r = (state >> 16) % 7;
        state = state.wrapping_mul(1103515245).wrapping_add(12345);
        let p = (state >> 16) % 5;
        state = state.wrapping_mul(1103515245).wrapping_add(12345);
        let q = (state >> 16) % 3;
        jobs.push(Job::new(r, p, q));
    }
    let mut by_delivery = jobs.clone();
    by_delivery.sort_by_key(|job| job.delivery_time);
    assert_eq!(stable_sort_vec(&jobs, SortKey::DeliveryTime), by_delivery);
    let mut by_processing = jobs.clone();
    by_processing.sort_by_key(|job| job.processing_time);
    assert_eq!(stable_sort_vec(&jobs, SortKey::ProcessingTime), by_processing);
    let mut by_cooldown = jobs.clone();
    by_cooldown.sort_by_key(|job| job.cooldown_time);
    assert_eq!(stable_sort_vec(&jobs, SortKey::CooldownTime), by_cooldown);
}

#[test]
fn sort_key_reads_its_time() {
    let job = Job::new(1, 2, 3);
    assert_eq!(SortKey::DeliveryTime.read(&job), 1);
    assert_eq!(SortKey::ProcessingTime.read(&job), 2);
    assert_eq!(SortKey::CooldownTime.read(&job), 3);
}
