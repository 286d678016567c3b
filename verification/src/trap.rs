//! The registers saved on entry to the kernel from user mode.
use vstd::prelude::*;

verus! {

/// Saved user registers and what the trap handler needs to return to the
/// kernel.
#[derive(Clone, Copy, Debug)]
pub struct TrapContext {
    /// general registers x0..x31
    pub x: [usize; 32],
    /// where user execution resumes
    pub sepc: usize,
    /// `satp` of the kernel address space
    pub kernel_satp: usize,
    /// top of the task's kernel stack
    pub kernel_sp: usize,
    /// address of the trap handler
    pub trap_handler: usize,
}

impl TrapContext {
    /// The context that starts a user program at `entry` with stack pointer
    /// `sp`: every register zero but the stack pointer (x2).
    pub fn app_init_context(entry: usize, sp: usize, kernel_satp: usize, kernel_sp: usize, trap_handler: usize) -> (cx: Self)
        ensures
            cx.sepc == entry,
            cx.x@[2] == sp,
            forall|i: int| 0 <= i < 32 && i != 2 ==> cx.x@[i] == 0,
            cx.kernel_satp == kernel_satp,
            cx.kernel_sp == kernel_sp,
            cx.trap_handler == trap_handler,
    {
        let mut x = [0usize; 32];
        x[2] = sp;
        TrapContext { x, sepc: entry, kernel_satp, kernel_sp, trap_handler }
    }
}

} // verus!
