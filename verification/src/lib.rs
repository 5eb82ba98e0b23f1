//! A library for controlling and recording the schedules of concurrent tasks: the bookkeeping
//! of which tasks may run, vector clocks, scheduling strategies, and the compact text encoding
//! of recorded schedules.

pub mod task;
pub mod schedule;
pub mod varint;
pub mod bits;
pub mod bitcode;
pub mod mtf;
pub mod fixed;
pub mod alphabet;
pub mod text;
pub mod config;
pub mod serialization;
pub mod schedulable;
pub mod clock;
pub mod pcg;
pub mod scheduler;
pub mod round_robin;
pub mod random;
pub mod replay;
pub mod semaphore;
pub mod storage;
pub mod time;
pub mod metrics;
pub mod runner;
pub mod errors;
pub mod switch;
pub mod annotation;
pub mod once;
pub mod failure;
pub mod task_manager;
pub mod future;
pub mod local_key;
pub mod atomic;
pub mod urw;
pub mod pos;
pub mod pct;
pub mod execution;
pub mod signature;
pub mod recording;
