//! An integration-test runner for native libraries: the description of
//! tests, the expansion of their inputs, the preparation of native calls
//! from commands, the schedule of what runs when, and the judgement of what
//! came of it.
//!
//! The library decides and computes; it never calls native code, starts a
//! thread or forks a process itself. A caller makes the calls that
//! [`run::InstanceRun`] hands out, runs the chunks of a
//! [`schedule::Schedule`], and watches a child process as
//! [`isolation::watch`] tells it to.
pub mod args;
pub mod cmd;
pub mod commute;
pub mod concurrency;
pub mod condition;
pub mod config;
pub mod describe;
pub mod env;
pub mod error;
pub mod expand;
pub mod input;
pub mod isolation;
pub mod libparse;
pub mod perf;
pub mod run;
pub mod schedule;
pub mod shared;
pub mod test;
pub mod text;
