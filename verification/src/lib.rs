//! A parameter-sweep command runner, as a verified library.
//!
//! A [`task::Task`] is a command template whose arguments are fixed, drawn
//! from a list, or swept over a numeric range. [`task::Task::expand`] turns it
//! into the ordered cross product of concrete invocations; [`queue::WorkQueue`]
//! hands those out to workers one at a time; [`pool`] sizes the worker pool and
//! [`sink`] renders one record per finished invocation.
//!
//! The library does no I/O. Spawning processes, measuring time and writing
//! records are the caller's business.

pub mod decimal;
pub mod expand;
pub mod pool;
pub mod queue;
pub mod sink;
pub mod task;
