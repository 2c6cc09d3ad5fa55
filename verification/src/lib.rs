//! A verified model of the process, scheduling and resource logic of a small
//! teaching kernel.
pub mod config;
pub mod task;
pub mod manager;
pub mod deadlock;
pub mod id;
pub mod mm;
pub mod process;
pub mod syscall;
pub mod trap;
pub mod trace;
pub mod fs;
