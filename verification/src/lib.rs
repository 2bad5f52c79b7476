//! Single-machine scheduling of jobs with release times and delivery tails.
//!
//! A job may not start before its delivery time, occupies the machine for its
//! processing time, and is complete only once its cooldown time has elapsed
//! after processing. The makespan of a schedule is the time at which the last
//! job is complete.
//!
//! - [`jobs`] holds the job, the ordered job list and the preemptive
//!   schedule, with their makespans;
//! - [`schrage`] holds the two schedulers, the machine that defines what they
//!   compute, and what is proved of their schedules;
//! - [`pool`] holds the priority rule and the pool that hands out the job of
//!   highest priority;
//! - [`order`] sorts jobs by one of their times;
//! - [`timeline`] and [`bound`] hold what is proved of timetables and of
//!   orders of jobs in general.

pub mod bound;
pub mod jobs;
pub mod order;
pub mod pool;
pub mod schrage;
pub mod timeline;
