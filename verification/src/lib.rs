//! Scheduled backup-task runner: a catalog of named tasks, each with a
//! working directory, a command list, a run interval and retention rules.
//! The scheduler decides whether a task is due, executes its commands,
//! and the retention engine prunes timestamp-named artifacts bucket by
//! bucket, keeping the most recent file of every completed period.
//!
//! The library holds the decisions and the data they rest on: `time`
//! models instants and the canonical timestamp format, `text` the string
//! machinery, `config` the task catalog, `state` the persisted per-task
//! record, `task` the scheduling decisions, `rotate` the retention
//! engine, and `args` the argument record. The caller reads the outside
//! world — files, processes, the command line — and carries the
//! decisions out.
pub mod args;
pub mod config;
pub mod rotate;
pub mod state;
pub mod task;
pub mod text;
pub mod time;
