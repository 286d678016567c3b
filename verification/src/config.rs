//! Kernel-wide constants.
use vstd::prelude::*;

verus! {

/// Size of a page (and of a physical frame) in bytes.
pub const PAGE_SIZE: usize = 4096;

/// Number of low address bits that index into a page.
pub const PAGE_SIZE_BITS: usize = 12;

/// Width of an Sv39 virtual address.
pub const VA_WIDTH_SV39: usize = 39;

/// Number of system-call slots whose invocations a task counts.
pub const MAX_SYSCALL_NUM: usize = 411;

/// Size of a thread's user stack in bytes.
pub const USER_STACK_SIZE: usize = 8192;

/// Lowest address of the trampoline page, the last page of the address space.
pub const TRAMPOLINE: usize = usize::MAX - PAGE_SIZE + 1;

/// Lowest address of the main thread's trap-context page, just below the
/// trampoline.
pub const TRAP_CONTEXT_BASE: usize = TRAMPOLINE - PAGE_SIZE;

/// Number of microseconds in a second.
pub const MICRO_PER_SEC: usize = 1_000_000;

} // verus!
