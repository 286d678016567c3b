//! Verified core of a small RISC-V teaching kernel: task and process
//! bookkeeping, a deadlock detector, the user address-space model used by
//! the memory system calls, and the system calls themselves.
#![allow(unused_imports)]

pub mod config;
pub mod deadlock;
pub mod encode;
pub mod id;
pub mod mm;
pub mod task;
pub mod trap;
pub mod process;
pub mod pack;
pub mod syscall;
