use proc_opt::jobs::{Job, JobList};
use proc_opt::schrage::{schrage, schrage_preemptive};

#[test]
fn test_schrage_ex1() {
    let expected_result = JobList {
        jobs: vec![
            Job::new(0, 6, 17),
            Job::new(10, 5, 7),
            Job::new(13, 6, 26),
            Job::new(11, 7, 24),
            Job::new(20, 4, 21),
            Job::new(30, 3, 8),
            Job::new(30, 2, 0),
        ],
    };
    let js = vec![
        Job::new(10, 5, 7),
        Job::new(13, 6, 26),
        Job::new(11, 7, 24),
        Job::new(20, 4, 21),
        Job::new(30, 3, 8),
        Job::new(0, 6, 17),
        Job::new(30, 2, 0),
    ];
    let result = schrage(js);
    assert_eq!(result, expected_result);
    assert_eq!(result.c_max(), 53);
}

#[test]
fn test_schrage_ex2() {
    let expected_result = JobList {
        jobs: vec![
            Job::new(1, 5, 9),
            Job::new(3, 6, 8),
            Job::new(1, 4, 6),
            Job::new(4, 5, 4),
            Job::new(7, 3, 3),
            Job::new(4, 7, 1),
        ],
    };
    let js = vec![
        Job::new(1, 5, 9),
        Job::new(4, 5, 4),
        Job::new(1, 4, 6),
        Job::new(7, 3, 3),
        Job::new(3, 6, 8),
        Job::new(4, 7, 1),
    ];
    let result = schrage(js);
    assert_eq!(result, expected_result);
    assert_eq!(result.c_max(), 32);
}

#[test]
fn test_schrage_ex3() {
    let expected_result = JobList {
        jobs: vec![
            Job::new(15, 86, 700),
            Job::new(51, 52, 403),
            Job::new(144, 73, 536),
            Job::new(183, 17, 641),
            Job::new(226, 5, 629),
            Job::new(162, 80, 575),
            Job::new(103, 68, 470),
            Job::new(394, 34, 400),
            Job::new(35, 37, 386),
            Job::new(39, 38, 340),
            Job::new(162, 52, 241),
            Job::new(556, 23, 79),
            Job::new(567, 71, 618),
            Job::new(588, 45, 632),
            Job::new(598, 45, 200),
            Job::new(728, 18, 640),
            Job::new(715, 8, 93),
            Job::new(667, 80, 92),
            Job::new(57, 21, 76),
            Job::new(233, 68, 23),
        ],
    };
    let js = vec![
        Job::new(162, 52, 241),
        Job::new(103, 68, 470),
        Job::new(39, 38, 340),
        Job::new(394, 34, 400),
        Job::new(15, 86, 700),
        Job::new(144, 73, 536),
        Job::new(51, 52, 403),
        Job::new(233, 68, 23),
        Job::new(183, 17, 641),
        Job::new(728, 18, 640),
        Job::new(667, 80, 92),
        Job::new(57, 21, 76),
        Job::new(35, 37, 386),
        Job::new(567, 71, 618),
        Job::new(226, 5, 629),
        Job::new(162, 80, 575),
        Job::new(588, 45, 632),
        Job::new(556, 23, 79),
        Job::new(715, 8, 93),
        Job::new(598, 45, 200),
    ];
    let result = schrage(js);
    assert_eq!(result, expected_result);
    assert_eq!(result.c_max(), 1399);
}

#[test]
fn test_schrage_ex4() {
    let expected_result = JobList {
        jobs: vec![
            Job::new(2, 20, 88),
            Job::new(5, 14, 125),
            Job::new(8, 16, 114),
            Job::new(9, 28, 94),
            Job::new(70, 4, 93),
            Job::new(71, 7, 71),
            Job::new(52, 20, 56),
            Job::new(52, 1, 56),
            Job::new(112, 22, 79),
            Job::new(90, 2, 13),
        ],
    };
    let js = vec![
        Job::new(52, 1, 56),
        Job::new(70, 4, 93),
        Job::new(112, 22, 79),
        Job::new(5, 14, 125),
        Job::new(8, 16, 114),
        Job::new(71, 7, 71),
        Job::new(90, 2, 13),
        Job::new(2, 20, 88),
        Job::new(52, 20, 56),
        Job::new(9, 28, 94),
    ];
    let result = schrage(js);
    assert_eq!(result, expected_result);
    assert_eq!(result.c_max(), 213);
}

#[test]
fn test_sort() {
    let js = JobList {
        jobs: vec![
            Job::new(0, 6, 17),
            Job::new(10, 5, 7),
            Job::new(13, 6, 26),
            Job::new(11, 7, 24),
            Job::new(20, 4, 21),
            Job::new(30, 3, 8),
            Job::new(30, 2, 0),
        ],
    };
    let expected = vec![
            Job::new(30, 2, 0),
            Job::new(10, 5, 7),
            Job::new(30, 3, 8),
            Job::new(0, 6, 17),
            Job::new(20, 4, 21),
            Job::new(11, 7, 24),
            Job::new(13, 6, 26),
    ];
    assert_eq!(js.sorted_by_cooldown_time(), expected);
}

#[test]
fn test_schrage_preemptive1() {
    let js = vec![
        Job::new(0, 27, 78),
        Job::new(140, 7, 67),
        Job::new(14, 36, 54),
        Job::new(133, 76, 5),
    ];
    let result = schrage_preemptive(js);
    assert_eq!(result.c_max(), 221)
}

#[test]
fn test_schrage_preemptive2() {
    let js = vec![
        Job::new(8, 68, 984),
        Job::new(747, 60, 1241),
        Job::new(811, 78, 56),
        Job::new(1760, 58, 1558),
        Job::new(860, 16, 319),
        Job::new(1549, 28, 927),
        Job::new(1010, 96, 749),
        Job::new(738, 37, 844),
        Job::new(599, 20, 1170),
        Job::new(446, 53, 1509),
        Job::new(1363, 36, 19),
        Job::new(1277, 14, 685),
        Job::new(1574, 98, 1472),
        Job::new(1886, 3, 1571),
        Job::new(591, 21, 1587),
        Job::new(714, 25, 1490),
        Job::new(1881, 43, 1647),
        Job::new(983, 62, 514),
        Job::new(858, 8, 1215),
        Job::new(634, 7, 587),
        Job::new(784, 14, 1897),
        Job::new(1893, 22, 1878),
        Job::new(308, 89, 1039),
        Job::new(1892, 91, 1815),
        Job::new(1024, 75, 1602),
        Job::new(1467, 59, 378),
        Job::new(1830, 3, 1173),
        Job::new(167, 25, 702),
        Job::new(357, 3, 416),
        Job::new(1739, 68, 71),
        Job::new(1810, 58, 1220),
        Job::new(453, 62, 393),
        Job::new(462, 60, 22),
        Job::new(332, 25, 1512),
        Job::new(845, 96, 1176),
        Job::new(522, 80, 513),
        Job::new(1110, 61, 1854),
        Job::new(484, 32, 570),
        Job::new(545, 91, 274),
        Job::new(64, 67, 74),
        Job::new(90, 9, 1423),
        Job::new(1013, 67, 1567),
        Job::new(1509, 86, 878),
        Job::new(238, 12, 285),
        Job::new(1226, 23, 1767),
        Job::new(83, 35, 22),
        Job::new(626, 97, 63),
        Job::new(6, 24, 707),
        Job::new(507, 31, 1294),
        Job::new(638, 98, 1528),
    ];
    let result = schrage_preemptive(js);
    assert_eq!(result.c_max(), 3820);
}

#[test]
fn test_schrage_preemptive3() {
    let js = vec![
        Job::new(162, 52, 241),
        Job::new(103, 68, 470),
        Job::new(39, 38, 340),
        Job::new(394, 34, 400),
        Job::new(15, 86, 700),
        Job::new(144, 73, 536),
        Job::new(51, 52, 403),
        Job::new(233, 68, 23),
        Job::new(183, 17, 641),
        Job::new(728, 18, 640),
        Job::new(667, 80, 92),
        Job::new(57, 21, 76),
        Job::new(35, 37, 386),
        Job::new(567, 71, 618),
        Job::new(226, 5, 629),
        Job::new(162, 80, 575),
        Job::new(588, 45, 632),
        Job::new(556, 23, 79),
        Job::new(715, 8, 93),
        Job::new(598, 45, 200),
    ];
    let result = schrage_preemptive(js);
    assert_eq!(result.c_max(), 1386);
}

#[test]
fn test_schrage_preemptive4() {
    let js = vec![
        Job::new(219, 5, 276),
        Job::new(84, 13, 103),
        Job::new(336, 35, 146),
        Job::new(271, 62, 264),
        Job::new(120, 33, 303),
        Job::new(299, 14, 328),
        Job::new(106, 46, 91),
        Job::new(181, 93, 97),
        Job::new(263, 13, 168),
        Job::new(79, 60, 235),
    ];
    let result = schrage_preemptive(js);
    assert_eq!(result.c_max(), 641);
}

#[test]
fn empty_collection_gives_empty_results() {
    let order = schrage(Vec::new());
    assert_eq!(order, JobList::new(Vec::new()));
    assert_eq!(order.c_max(), 0);
    let schedule = schrage_preemptive(Vec::new());
    assert_eq!(schedule.jobs, Vec::new());
    assert_eq!(schedule.timetable, Vec::new());
    assert_eq!(schedule.c_max(), 0);
}

#[test]
fn seven_jobs_in_three_arrangements() {
    let js = vec![
        Job::new(10, 5, 7),
        Job::new(13, 6, 26),
        Job::new(11, 7, 24),
        Job::new(20, 4, 21),
        Job::new(30, 3, 8),
        Job::new(0, 6, 17),
        Job::new(30, 2, 0),
    ];
    assert_eq!(JobList::new(js.clone()).c_max(), 58);
    let order = schrage(js.clone());
    assert_eq!(
        order.jobs,
        vec![
            Job::new(0, 6, 17),
            Job::new(10, 5, 7),
            Job::new(13, 6, 26),
            Job::new(11, 7, 24),
            Job::new(20, 4, 21),
            Job::new(30, 3, 8),
            Job::new(30, 2, 0),
        ]
    );
    assert_eq!(order.c_max(), 53);
    // the best of all orders
    let mut least = u32::MAX;
    each_order(&mut js.clone(), 0, &mut least);
    assert_eq!(least, 50);
    // with preemption the last completion comes earlier still
    let schedule = schrage_preemptive(js);
    assert_eq!(
        schedule.timetable,
        vec![
            (0, 0),
            (10, 1),
            (11, 2),
            (13, 3),
            (19, 2),
            (24, 4),
            (28, 1),
            (30, 5),
            (33, 1),
            (35, 6),
        ]
    );
    assert_eq!(schedule.c_max(), 49);
}

#[test]
fn preempted_job_resumes() {
    let js = vec![
        Job::new(0, 27, 78),
        Job::new(140, 7, 67),
        Job::new(14, 36, 54),
        Job::new(133, 76, 5),
    ];
    let result = schrage_preemptive(js);
    assert_eq!(
        result.jobs,
        vec![
            Job::new(0, 27, 78),
            Job::new(14, 36, 54),
            Job::new(133, 76, 5),
            Job::new(140, 7, 67),
        ]
    );
    assert_eq!(result.timetable, vec![(0, 0), (27, 1), (133, 2), (140, 3), (147, 2)]);
    assert_eq!(result.c_max(), 221);
}

#[test]
fn single_job_waits_for_its_delivery() {
    let order = schrage(vec![Job::new(10, 1, 1)]);
    assert_eq!(order.jobs, vec![Job::new(10, 1, 1)]);
    assert_eq!(order.c_max(), 12);
    let schedule = schrage_preemptive(vec![Job::new(10, 1, 1)]);
    assert_eq!(schedule.jobs, vec![Job::new(10, 1, 1)]);
    assert_eq!(schedule.timetable, vec![(10, 0)]);
    assert_eq!(schedule.c_max(), 12);
}

#[test]
fn machine_idles_between_deliveries() {
    let js = vec![Job::new(50, 2, 3), Job::new(0, 4, 1), Job::new(20, 5, 0)];
    let order = schrage(js.clone());
    assert_eq!(order.jobs, vec![Job::new(0, 4, 1), Job::new(20, 5, 0), Job::new(50, 2, 3)]);
    assert_eq!(order.c_max(), 55);
    let schedule = schrage_preemptive(js);
    assert_eq!(schedule.timetable, vec![(0, 0), (20, 1), (50, 2)]);
    assert_eq!(schedule.c_max(), 55);
}

#[test]
fn urgent_arrival_interrupts() {
    let js = vec![Job::new(0, 10, 0), Job::new(3, 2, 100)];
    let schedule = schrage_preemptive(js.clone());
    assert_eq!(schedule.jobs, js);
    assert_eq!(schedule.timetable, vec![(0, 0), (3, 1), (5, 0)]);
    assert_eq!(schedule.c_max(), 105);
    let order = schrage(js.clone());
    assert_eq!(order.jobs, js);
    assert_eq!(order.c_max(), 112);
}

#[test]
fn running_job_of_higher_priority_continues_without_new_entry() {
    let js = vec![Job::new(0, 10, 5), Job::new(3, 2, 1)];
    let schedule = schrage_preemptive(js);
    assert_eq!(schedule.timetable, vec![(0, 0), (10, 1)]);
    assert_eq!(schedule.c_max(), 15);
}

#[test]
fn arrival_at_the_moment_of_completion_does_not_interrupt() {
    let js = vec![Job::new(0, 5, 0), Job::new(5, 1, 9)];
    let schedule = schrage_preemptive(js);
    assert_eq!(schedule.timetable, vec![(0, 0), (5, 1)]);
    assert_eq!(schedule.c_max(), 15);
}

#[test]
fn remaining_time_decides_ties_after_an_interruption() {
    // job 0 has run 4 of its 6 units when job 1 arrives with the same cooldown
    // time and 3 units: job 1 now has the longer processing time left
    let js = vec![Job::new(0, 6, 7), Job::new(4, 3, 7)];
    let schedule = schrage_preemptive(js);
    assert_eq!(schedule.timetable, vec![(0, 0), (4, 1), (7, 0)]);
    assert_eq!(schedule.c_max(), 16);
}

#[test]
fn equal_priority_runs_the_later_position_first() {
    // at time 5 the jobs delivered at 1 and at 2 are equal in cooldown and
    // processing time
    let js = vec![Job::new(1, 2, 3), Job::new(0, 5, 1), Job::new(2, 2, 3)];
    let order = schrage(js.clone());
    assert_eq!(order.jobs, vec![Job::new(0, 5, 1), Job::new(2, 2, 3), Job::new(1, 2, 3)]);
    // with preemption the first job gives way to each arrival
    let schedule = schrage_preemptive(js);
    assert_eq!(schedule.jobs, vec![Job::new(0, 5, 1), Job::new(1, 2, 3), Job::new(2, 2, 3)]);
    assert_eq!(schedule.timetable, vec![(0, 0), (1, 1), (2, 2), (4, 1), (5, 0)]);
    // a first job that keeps the machine leaves the two others equal at time 5
    let js = vec![Job::new(1, 2, 3), Job::new(0, 5, 9), Job::new(2, 2, 3)];
    let schedule = schrage_preemptive(js);
    assert_eq!(schedule.jobs, vec![Job::new(0, 5, 9), Job::new(1, 2, 3), Job::new(2, 2, 3)]);
    assert_eq!(schedule.timetable, vec![(0, 0), (5, 2), (7, 1)]);
}

#[test]
fn jobs_without_processing_time_are_scheduled() {
    let js = vec![Job::new(0, 0, 4), Job::new(0, 0, 9), Job::new(0, 3, 1)];
    let order = schrage(js.clone());
    assert_eq!(order.jobs, vec![Job::new(0, 0, 9), Job::new(0, 0, 4), Job::new(0, 3, 1)]);
    assert_eq!(order.c_max(), 9);
    let schedule = schrage_preemptive(js);
    assert_eq!(schedule.timetable, vec![(0, 1), (0, 0), (0, 2)]);
    assert_eq!(schedule.c_max(), 9);
}

#[test]
fn times_past_the_limit_saturate() {
    let js = vec![Job::new(0, u32::MAX, 0), Job::new(0, u32::MAX, 1), Job::new(0, 5, 2)];
    let schedule = schrage_preemptive(js.clone());
    assert_eq!(schedule.jobs, js);
    assert_eq!(schedule.timetable, vec![(0, 2), (5, 1), (u32::MAX, 0)]);
    assert_eq!(schedule.c_max(), u32::MAX);
    let order = schrage(js);
    assert_eq!(
        order.jobs,
        vec![Job::new(0, 5, 2), Job::new(0, u32::MAX, 1), Job::new(0, u32::MAX, 0)]
    );
    assert_eq!(order.c_max(), u32::MAX);
}

#[test]
fn late_delivery_after_the_clock_has_saturated() {
    let js = vec![Job::new(0, u32::MAX, 5), Job::new(u32::MAX, 1, 0)];
    let order = schrage(js.clone());
    assert_eq!(order.jobs, js);
    let schedule = schrage_preemptive(js);
    assert_eq!(schedule.timetable, vec![(0, 0), (u32::MAX, 1)]);
}

fn sample(seed: u32, count: usize, spread: u32) -> Vec<Job> {
    let mut state = seed;
    let mut jobs = Vec::new();
    for _ in 0..count {
        state = state.wrapping_mul(1103515245).wrapping_add(12345);
        let r = (state >> 16) % spread;
        state = state.wrapping_mul(1103515245).wrapping_add(12345);
        let p = (state >> 16) % 9;
        state = state.wrapping_mul(1103515245).wrapping_add(12345);
        let q = (state >> 16) % 12;
        jobs.push(Job::new(r, p, q));
    }
    jobs
}

fn key(job: &Job) -> (u32, u32, u32) {
    (job.delivery_time, job.processing_time, job.cooldown_time)
}

#[test]
fn order_is_a_rearrangement_of_the_jobs() {
    for seed in 0..60u32 {
        let jobs = sample(seed, (seed % 13) as usize, 1 + seed % 40);
        let mut given = jobs.clone();
        let mut got = schrage(jobs).jobs;
        given.sort_by_key(key);
        got.sort_by_key(key);
        assert_eq!(given, got);
    }
}

#[test]
fn schedule_lists_the_jobs_by_delivery_time() {
    for seed in 0..60u32 {
        let jobs = sample(seed, (seed % 13) as usize, 1 + seed % 40);
        let mut expected = jobs.clone();
        expected.sort_by_key(|job| job.delivery_time);
        assert_eq!(schrage_preemptive(jobs).jobs, expected);
    }
}

#[test]
fn each_job_is_given_its_processing_time() {
    for seed in 0..60u32 {
        let jobs = sample(seed, (seed % 13) as usize, 1 + seed % 40);
        let schedule = schrage_preemptive(jobs);
        let mut remaining: Vec<u32> =
            schedule.jobs.iter().map(|job| job.processing_time).collect();
        let mut given: Vec<u32> = vec![0; schedule.jobs.len()];
        for (m, (time, index)) in schedule.timetable.iter().enumerate() {
            let run = if m + 1 < schedule.timetable.len() {
                remaining[*index].min(schedule.timetable[m + 1].0 - time)
            } else {
                remaining[*index]
            };
            remaining[*index] -= run;
            given[*index] += run;
        }
        for (index, job) in schedule.jobs.iter().enumerate() {
            assert_eq!(given[index], job.processing_time);
        }
    }
}

#[test]
fn no_job_starts_before_its_delivery() {
    for seed in 0..60u32 {
        let jobs = sample(seed, (seed % 13) as usize, 1 + seed % 40);
        let schedule = schrage_preemptive(jobs.clone());
        for (time, index) in schedule.timetable.iter() {
            assert!(*time >= schedule.jobs[*index].delivery_time);
        }
        let order = schrage(jobs).jobs;
        let mut free = 0;
        for job in order.iter() {
            let start = free.max(job.delivery_time);
            assert!(start >= job.delivery_time);
            free = start + job.processing_time;
        }
    }
}

#[test]
fn timetable_is_well_formed() {
    for seed in 0..60u32 {
        let jobs = sample(seed, (seed % 13) as usize, 1 + seed % 40);
        let count = jobs.len();
        let every_job_takes_time = jobs.iter().all(|job| job.processing_time > 0);
        let schedule = schrage_preemptive(jobs);
        assert_eq!(schedule.timetable.is_empty(), count == 0);
        for (m, (time, index)) in schedule.timetable.iter().enumerate() {
            assert!(*index < count);
            if m > 0 {
                let (before, running) = schedule.timetable[m - 1];
                assert!(before <= *time);
                assert_ne!(running, *index);
                if every_job_takes_time {
                    assert!(before < *time);
                }
            }
        }
        for index in 0..count {
            assert!(schedule.timetable.iter().any(|entry| entry.1 == index));
        }
    }
}

#[test]
fn preemption_is_never_worse() {
    for seed in 0..200u32 {
        let jobs = sample(seed, (seed % 17) as usize, 1 + seed % 50);
        let with = schrage_preemptive(jobs.clone()).c_max();
        let without = schrage(jobs).c_max();
        assert!(with <= without);
    }
}

fn each_order(jobs: &mut Vec<Job>, from: usize, least: &mut u32) {
    if from == jobs.len() {
        let makespan = JobList::new(jobs.clone()).c_max();
        if makespan < *least {
            *least = makespan;
        }
        return;
    }
    for next in from..jobs.len() {
        jobs.swap(from, next);
        each_order(jobs, from + 1, least);
        jobs.swap(from, next);
    }
}

#[test]
fn no_order_beats_the_preemptive_schedule() {
    for seed in 0..40u32 {
        let mut jobs = sample(seed, 1 + (seed % 6) as usize, 1 + seed % 20);
        let with = schrage_preemptive(jobs.clone()).c_max();
        let without = schrage(jobs.clone()).c_max();
        let mut least = u32::MAX;
        each_order(&mut jobs, 0, &mut least);
        assert!(with <= least);
        assert!(least <= without);
    }
}

#[test]
fn results_do_not_depend_on_the_order_of_distinct_jobs() {
    let js = vec![
        Job::new(10, 5, 7),
        Job::new(13, 6, 26),
        Job::new(11, 7, 24),
        Job::new(20, 4, 21),
        Job::new(30, 3, 8),
        Job::new(0, 6, 17),
        Job::new(30, 2, 0),
    ];
    let mut reversed = js.clone();
    reversed.reverse();
    assert_eq!(schrage(js.clone()), schrage(reversed.clone()));
    assert_eq!(schrage_preemptive(js).c_max(), schrage_preemptive(reversed).c_max());
}

fn outranks(q: u32, p: u32, index: usize, other_q: u32, other_p: u32, other_index: usize) -> bool {
    (q, p, index) > (other_q, other_p, other_index)
}

#[test]
fn each_entry_runs_the_job_of_highest_priority() {
    for seed in 0..80u32 {
        let jobs = sample(seed, (seed % 13) as usize, 1 + seed % 40);
        let schedule = schrage_preemptive(jobs);
        let mut remaining: Vec<u32> =
            schedule.jobs.iter().map(|job| job.processing_time).collect();
        for (m, (time, running)) in schedule.timetable.iter().enumerate() {
            for (other, job) in schedule.jobs.iter().enumerate() {
                if job.delivery_time <= *time && remaining[other] > 0 {
                    assert!(!outranks(
                        job.cooldown_time,
                        remaining[other],
                        other,
                        schedule.jobs[*running].cooldown_time,
                        remaining[*running],
                        *running
                    ));
                }
            }
            if m + 1 < schedule.timetable.len() {
                let elapsed = schedule.timetable[m + 1].0 - time;
                remaining[*running] = remaining[*running].saturating_sub(elapsed);
            }
        }
    }
}

#[test]
fn machine_idles_only_while_nothing_is_due() {
    for seed in 0..80u32 {
        let jobs = sample(seed, (seed % 13) as usize, 1 + seed % 60);
        let schedule = schrage_preemptive(jobs);
        let mut remaining: Vec<u32> =
            schedule.jobs.iter().map(|job| job.processing_time).collect();
        let mut free = 0;
        for (m, (time, running)) in schedule.timetable.iter().enumerate() {
            if m == 0 || free < *time {
                for (other, job) in schedule.jobs.iter().enumerate() {
                    if remaining[other] > 0 {
                        assert!(job.delivery_time >= *time);
                    }
                }
            }
            free = time + remaining[*running];
            if m + 1 < schedule.timetable.len() {
                let elapsed = schedule.timetable[m + 1].0 - time;
                remaining[*running] = remaining[*running].saturating_sub(elapsed);
            }
        }
    }
}

#[test]
fn arriving_job_does_not_outrank_the_running_job() {
    for seed in 0..80u32 {
        let jobs = sample(seed, (seed % 13) as usize, 1 + seed % 40);
        let schedule = schrage_preemptive(jobs);
        let mut remaining: Vec<u32> =
            schedule.jobs.iter().map(|job| job.processing_time).collect();
        for (m, (time, running)) in schedule.timetable.iter().enumerate() {
            let run = if m + 1 < schedule.timetable.len() {
                remaining[*running].min(schedule.timetable[m + 1].0 - time)
            } else {
                remaining[*running]
            };
            for (other, job) in schedule.jobs.iter().enumerate() {
                let arrival = job.delivery_time;
                if *time < arrival && arrival < time + run && job.processing_time > 0 {
                    assert!(!outranks(
                        job.cooldown_time,
                        job.processing_time,
                        other,
                        schedule.jobs[*running].cooldown_time,
                        remaining[*running] - (arrival - time),
                        *running
                    ));
                }
            }
            remaining[*running] -= run;
        }
    }
}

#[test]
fn order_starts_each_job_as_the_machine_would() {
    for seed in 0..80u32 {
        let jobs = sample(seed, (seed % 13) as usize, 1 + seed % 40);
        let mut sorted = jobs.clone();
        sorted.sort_by_key(|job| job.delivery_time);
        let order = schrage(jobs).jobs;
        // at each start the job is the highest in priority of those due
        let mut left: Vec<Job> = sorted.clone();
        let mut free = 0;
        for job in order.iter() {
            let earliest = left.iter().map(|other| other.delivery_time).min().unwrap();
            let start = free.max(earliest);
            assert!(job.delivery_time <= start);
            for other in left.iter() {
                if other.delivery_time <= start {
                    assert!(
                        (other.cooldown_time, other.processing_time)
                            <= (job.cooldown_time, job.processing_time)
                    );
                }
            }
            let at = left.iter().position(|other| other == job).unwrap();
            left.remove(at);
            free = start + job.processing_time;
        }
        assert!(left.is_empty());
    }
}
