//! Task-management core of a small teaching kernel: task control blocks,
//! a stride scheduler, a model of a user address space, and a
//! Banker's-algorithm safety checker.
pub mod config;
pub mod deadlock;
pub mod memory;
pub mod scheduler;
pub mod syscall;
pub mod task;
