//! The hardware-independent core of a small teaching kernel: memory, tasks,
//! file system, network stack, drivers, system calls and shell.
//!
//! Every function here works on plain values. What only the machine can do
//! (port and memory-mapped I/O, page tables, context switches) is described by
//! the values that these functions return.

pub mod bytes;
pub mod drivers;
pub mod fs;
pub mod gdt;
pub mod interrupts;
pub mod memory;
pub mod net;
pub mod process;
pub mod runner;
pub mod serial;
pub mod shell;
pub mod syscall;
pub mod system;
pub mod text;
pub mod timer;
pub mod vga;
