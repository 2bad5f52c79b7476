use proc_opt::jobs::{Job, JobList, JobSchedule};

#[test]
fn test_c_max_ex1() {
    let js = JobList {
        jobs: vec![
            Job::new(10, 5, 7),
            Job::new(13, 6, 26),
            Job::new(11, 7, 24),
            Job::new(20, 4, 21),
            Job::new(30, 3, 8),
            Job::new(0, 6, 17),
            Job::new(30, 2, 0),
        ],
    };
    let result = js.c_max();
    assert_eq!(result, 58);
}

#[test]
fn test_c_max_ex2() {
    let js = JobList {
        jobs: vec![
            Job::new(0, 6, 17),
            Job::new(10, 5, 7),
            Job::new(13, 6, 26),
            Job::new(11, 7, 24),
            Job::new(20, 4, 21),
            Job::new(30, 3, 8),
            Job::new(30, 2, 0),
        ],
    };
    let result = js.c_max();
    assert_eq!(result, 53);
}

#[test]
fn test_c_max_ex3() {
    let js = JobList {
        jobs: vec![
            Job::new(0, 6, 17),
            Job::new(11, 7, 24),
            Job::new(13, 6, 26),
            Job::new(20, 4, 21),
            Job::new(10, 5, 7),
            Job::new(30, 3, 8),
            Job::new(30, 2, 0),
        ],
    };
    let result = js.c_max();
    assert_eq!(result, 50);
}

#[test]
fn test_c_max_ex4() {
    let js = JobList {
        jobs: vec![
            Job::new(2, 20, 88),
            Job::new(5, 14, 125),
            Job::new(8, 16, 114),
            Job::new(9, 28, 94),
            Job::new(70, 4, 93),
            Job::new(71, 7, 71),
            Job::new(52, 1, 56),
            Job::new(52, 20, 56),
            Job::new(112, 22, 79),
            Job::new(90, 2, 13),
        ],
    };
    let result = js.c_max();
    assert_eq!(result, 213);
}

#[test]
fn test_c_max_ex5() {
    let js = JobList {
        jobs: vec![
            Job::new(15, 86, 700),
            Job::new(51, 52, 403),
            Job::new(144, 73, 536),
            Job::new(183, 17, 641),
            Job::new(226, 5, 629),
            Job::new(162, 80, 575),
            Job::new(103, 68, 470),
            Job::new(394, 34, 400),
            Job::new(35, 37, 386),
            Job::new(39, 38, 340),
            Job::new(162, 52, 241),
            Job::new(556, 23, 79),
            Job::new(567, 71, 618),
            Job::new(588, 45, 632),
            Job::new(598, 45, 200),
            Job::new(728, 18, 640),
            Job::new(715, 8, 93),
            Job::new(667, 80, 92),
            Job::new(57, 21, 76),
            Job::new(233, 68, 23),
        ],
    };
    let result = js.c_max();
    assert_eq!(result, 1399);
}

#[test]
fn test_schedule_c_max_with_gap() {
    let jobs = vec![
        Job::new(0, 14, 20),
        Job::new(5, 8, 7),
        Job::new(42, 10, 5),
    ];
    let timetable = vec![
        (0, 0),
        (5, 1),
        (13, 0),
        (42, 2),
    ];
    let schedule = JobSchedule{
        jobs,
        timetable,
    };
    assert_eq!(schedule.c_max(), 42+10+5);
}

#[test]
fn test_schedule_c_max_with_preemption() {
    let jobs = vec![
        Job::new(3, 20, 0),
        Job::new(5, 8, 7),
    ];
    let timetable = vec![
        (3, 0),
        (16, 1),
        (24, 0),
    ];
    let schedule = JobSchedule{
        jobs,
        timetable,
    };
    assert_eq!(schedule.c_max(), 16+8+7);
}

#[test]
fn makespan_of_empty_list_is_zero() {
    assert_eq!(JobList::new(Vec::new()).c_max(), 0);
}

#[test]
fn makespan_of_empty_schedule_is_zero() {
    let schedule = JobSchedule { jobs: Vec::new(), timetable: Vec::new() };
    assert_eq!(schedule.c_max(), 0);
    let idle = JobSchedule { jobs: vec![Job::new(1, 2, 3)], timetable: Vec::new() };
    assert_eq!(idle.c_max(), 0);
}

#[test]
fn makespan_of_single_job() {
    let list = JobList::new(vec![Job::new(4, 3, 2)]);
    assert_eq!(list.c_max(), 9);
    let schedule = JobSchedule { jobs: vec![Job::new(4, 3, 2)], timetable: vec![(4, 0)] };
    assert_eq!(schedule.c_max(), 9);
}

#[test]
fn makespan_waits_for_delivery() {
    // the second job is delivered after the first is done: the machine idles
    let list = JobList::new(vec![Job::new(0, 2, 1), Job::new(10, 3, 4)]);
    assert_eq!(list.c_max(), 17);
    // the second job is delivered while the first runs: no idle time
    let list = JobList::new(vec![Job::new(0, 5, 1), Job::new(2, 3, 4)]);
    assert_eq!(list.c_max(), 12);
}

#[test]
fn makespan_is_latest_completion_not_last() {
    // the first job cools down long after the second is complete
    let list = JobList::new(vec![Job::new(0, 1, 100), Job::new(0, 1, 0)]);
    assert_eq!(list.c_max(), 101);
}

#[test]
fn makespan_is_the_same_when_computed_twice() {
    let list = JobList::new(vec![Job::new(3, 9, 4), Job::new(0, 2, 30), Job::new(7, 1, 1)]);
    let first = list.c_max();
    let second = list.c_max();
    assert_eq!(first, second);
    assert_eq!(first, 44);
}

#[test]
fn makespan_of_list_saturates() {
    let list = JobList::new(vec![Job::new(u32::MAX, 1, 0)]);
    assert_eq!(list.c_max(), u32::MAX);
    let list = JobList::new(vec![Job::new(0, u32::MAX, 0), Job::new(0, u32::MAX, 0)]);
    assert_eq!(list.c_max(), u32::MAX);
    let list = JobList::new(vec![Job::new(0, u32::MAX - 1, 1)]);
    assert_eq!(list.c_max(), u32::MAX);
    let list = JobList::new(vec![Job::new(0, u32::MAX - 2, 1)]);
    assert_eq!(list.c_max(), u32::MAX - 1);
}

#[test]
fn makespan_of_schedule_saturates() {
    let schedule = JobSchedule {
        jobs: vec![Job::new(0, 7, 0), Job::new(5, u32::MAX, 9)],
        timetable: vec![(0, 0), (7, 1)],
    };
    assert_eq!(schedule.c_max(), u32::MAX);
}

#[test]
fn schedule_makespan_floors_remaining_time_at_zero() {
    // job 0 needs 3 but its entry lasts 10: nothing is left of it afterwards
    let schedule = JobSchedule {
        jobs: vec![Job::new(0, 3, 1), Job::new(10, 2, 1)],
        timetable: vec![(0, 0), (10, 1), (12, 0)],
    };
    // entries: 0 + 3 + 1, 10 + 2 + 1, 12 + 0 + 1
    assert_eq!(schedule.c_max(), 13);
}

#[test]
fn schedule_makespan_counts_interrupted_run() {
    // job 0 runs 4 of its 10 units, gives way to job 1, and resumes with 6
    let schedule = JobSchedule {
        jobs: vec![Job::new(0, 10, 2), Job::new(4, 3, 50)],
        timetable: vec![(0, 0), (4, 1), (7, 0)],
    };
    // entries: 0 + 10 + 2, 4 + 3 + 50, 7 + 6 + 2
    assert_eq!(schedule.c_max(), 57);
}

#[test]
fn total_time_adds_the_three_times() {
    assert_eq!(Job::new(10, 5, 7).total_time(), 22);
    assert_eq!(Job::new(0, 0, 0).total_time(), 0);
}

#[test]
fn total_time_saturates() {
    assert_eq!(Job::new(u32::MAX, 1, 0).total_time(), u32::MAX);
    assert_eq!(Job::new(u32::MAX - 5, 2, 3).total_time(), u32::MAX);
    assert_eq!(Job::new(u32::MAX - 5, 2, 2).total_time(), u32::MAX - 1);
    assert_eq!(Job::new(1, u32::MAX, u32::MAX).total_time(), u32::MAX);
}

#[test]
fn jobs_with_equal_times_are_equal() {
    assert_eq!(Job::new(1, 2, 3), Job::new(1, 2, 3));
    assert_ne!(Job::new(1, 2, 3), Job::new(1, 2, 4));
    let job = Job::new(9, 8, 7);
    assert_eq!(job.delivery_time, 9);
    assert_eq!(job.processing_time, 8);
    assert_eq!(job.cooldown_time, 7);
}
