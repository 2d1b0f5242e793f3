//! Kernel threads with cooperative and preemptive scheduling.
//!
//!   * `task`      - task body, state machine, per-task kernel stack,
//!   * `context`   - the synthetic frame that a fresh task starts from,
//!   * `scheduler` - the round-robin scheduler,
//!   * `elf`       - a minimal ELF64 loader.

pub mod context;
pub mod elf;
pub mod scheduler;
pub mod task;

pub use scheduler::{init, join, sleep, snapshot, spawn, start, task_count, tick, yield_now};
