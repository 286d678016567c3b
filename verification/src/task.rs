//! Tasks and the round-robin task manager.
use crate::config::MAX_SYSCALL_NUM;
use crate::id::RecycleState;
use crate::trap::TrapContext;
use crate::mm::{
    alloc_n, ceil_page, ceil_vpn, entries_after_map, entries_after_unmap, frames_of_range,
    FrameAllocator, MemorySet, PhysMemory, PTE_R, PTE_U, PTE_W,
};
use vstd::prelude::*;

verus! {

/// The status of a task
#[derive(Clone, Copy, PartialEq, Eq, Structural, Debug)]
pub enum TaskStatus {
    /// uninitialized
    UnInit,
    /// ready to run
    Ready,
    /// running
    Running,
    /// exited
    Exited,
}

/// Registers saved when switching away from a task.
#[derive(Clone, Copy, Debug)]
pub struct TaskContext {
    /// return address
    pub ra: usize,
    /// kernel stack pointer
    pub sp: usize,
    /// callee-saved registers s0..s11
    pub s: [usize; 12],
}

impl TaskContext {
    /// All registers zero.
    pub fn zero_init() -> (cx: Self)
        ensures
            cx.ra == 0,
            cx.sp == 0,
            forall|i: int| 0 <= i < 12 ==> cx.s@[i] == 0,
    {
        TaskContext { ra: 0, sp: 0, s: [0usize; 12] }
    }
}

impl TaskContext {
    /// A context that, when switched to, enters `trap_return` on the kernel
    /// stack whose top is `kstack_ptr`.
    pub fn goto_trap_return(kstack_ptr: usize, trap_return: usize) -> (cx: Self)
        ensures
            cx.ra == trap_return,
            cx.sp == kstack_ptr,
            forall|i: int| 0 <= i < 12 ==> cx.s@[i] == 0,
    {
        TaskContext { ra: trap_return, sp: kstack_ptr, s: [0usize; 12] }
    }
}

/// The task control block (TCB) of a task.
pub struct TaskControlBlock {
    /// The task status in its lifecycle
    pub task_status: TaskStatus,
    /// The task context
    pub task_cx: TaskContext,
    /// How often the task made each system call, by call number
    pub task_syscall_trace: [usize; 411],
    /// The task's address space
    pub memory_set: MemorySet,
    /// Lowest address of the task's heap
    pub heap_bottom: usize,
    /// Current end of the task's heap
    pub program_brk: usize,
    /// Base from which the task's user stack is placed
    pub ustack_base: usize,
    /// Top of the task's kernel stack
    pub kstack_top: usize,
    /// The task's saved user registers
    pub trap_cx: TrapContext,
    /// The code the task exited with, once it has exited
    pub exit_code: Option<i32>,
}

/// `a` is `b` with possibly another status.
pub open spec fn same_but_status(a: TaskControlBlock, b: TaskControlBlock) -> bool {
    a == (TaskControlBlock { task_status: a.task_status, ..b })
}

/// The tasks of the system and the one running now.
pub struct TaskManager {
    pub tasks: Vec<TaskControlBlock>,
    pub current_task: usize,
}

/// The statuses of the tasks, in order.
pub open spec fn statuses(tasks: Seq<TaskControlBlock>) -> Seq<TaskStatus> {
    tasks.map(|i: int, t: TaskControlBlock| t.task_status)
}

/// The first task after `cur`, going round, that is ready; the search
/// starts `k` places after `cur` and ends back at `cur`.
pub open spec fn ready_from(st: Seq<TaskStatus>, cur: int, k: int) -> Option<int>
    decreases st.len() + 1 - k,
{
    if k > st.len() || k < 1 {
        None
    } else if st[(cur + k) % st.len() as int] == TaskStatus::Ready {
        Some((cur + k) % st.len() as int)
    } else {
        ready_from(st, cur, k + 1)
    }
}

/// The next task to run after `cur`: the first ready one going round.
pub open spec fn next_ready(st: Seq<TaskStatus>, cur: int) -> Option<int> {
    ready_from(st, cur, 1)
}

proof fn lemma_ready_from(st: Seq<TaskStatus>, cur: int, k: int)
    requires
        st.len() > 0,
        1 <= k,
    ensures
        ready_from(st, cur, k) matches Some(i) ==> 0 <= i < st.len() && st[i] == TaskStatus::Ready,
        ready_from(st, cur, k) is None ==> forall|j: int| k <= j <= st.len() ==> #[trigger] st[(cur + j) % st.len() as int]
            != TaskStatus::Ready,
    decreases st.len() + 1 - k,
{
    if k <= st.len() {
        lemma_ready_from(st, cur, k + 1);
    }
}

/// Permission of heap pages: readable, writable, user.
pub open spec fn heap_perm() -> u8 {
    PTE_R | PTE_W | PTE_U
}

/// Where the heap would end after changing it by `size` bytes.
pub open spec fn new_brk(t: TaskControlBlock, size: i32) -> int {
    t.program_brk + size
}

/// The pages between the old and the new end of the heap of `t` can be
/// mapped or unmapped: when growing they are unmapped and frames suffice
/// for them, when shrinking they are mapped.
pub open spec fn brk_change_ok(t: TaskControlBlock, frames: FrameAllocator, size: i32) -> bool {
    let old_end = ceil_page(t.program_brk as int);
    let new_end = ceil_page(new_brk(t, size));
    new_brk(t, size) >= t.heap_bottom ==> if size < 0 {
        t.memory_set.range_mapped(new_end as usize, old_end as usize)
    } else {
        &&& t.memory_set.range_unmapped(old_end as usize, new_end as usize)
        &&& frames.free() >= new_end - old_end
    }
}

/// Every page of `start..end` of `ms` is mapped for user access, readable
/// and writable.
pub open spec fn pages_writable(ms: MemorySet, start: int, end: int) -> bool {
    forall|v: usize|
        start <= v < end ==> {
            &&& #[trigger] ms.mapped(v)
            &&& ms.entries()[v].user()
            &&& ms.entries()[v].read_ok()
            &&& ms.entries()[v].write_ok()
        }
}

/// The pages the heap grows by are the program's data: mapped for user
/// access, readable and writable.
pub proof fn lemma_heap_pages_writable(
    e: Map<usize, crate::mm::PageTableEntry>,
    s: RecycleState,
    start: usize,
    end: usize,
    ms: MemorySet,
)
    requires
        ms.entries() == entries_after_map(e, s, start, end, heap_perm()),
    ensures
        pages_writable(ms, start as int, end as int),
{
    let f = crate::mm::leaf_flags(heap_perm());
    assert(f & 1u8 != 0 && f & 2u8 != 0 && f & 4u8 != 0 && f & 16u8 != 0) by (bit_vector)
        requires
            f == (2u8 | 4u8 | 16u8) | 1u8,
    ;
    assert forall|v: usize| start <= v < end implies {
        &&& #[trigger] ms.mapped(v)
        &&& ms.entries()[v].user()
        &&& ms.entries()[v].read_ok()
        &&& ms.entries()[v].write_ok()
    } by {
        assert(ms.entries()[v].flags == f);
    }
}

/// The heap of `t` can move by `size` bytes: it would not end below its
/// bottom, and the pages in between can be mapped or unmapped.
pub open spec fn brk_can_move(t: TaskControlBlock, frames: FrameAllocator, size: i32) -> bool {
    new_brk(t, size) >= t.heap_bottom && brk_change_ok(t, frames, size)
}

/// Whether every page of `start..end` is mapped.
fn all_mapped(ms: &MemorySet, start: usize, end: usize) -> (b: bool)
    ensures
        b == ms.range_mapped(start, end),
{
    let mut v = start;
    while v < end
        invariant
            start <= v,
            forall|w: usize| start <= w < v ==> #[trigger] ms.mapped(w),
        decreases end - v,
    {
        match ms.translate(v) {
            Some(e) => {
                if !e.is_valid() {
                    assert(!ms.mapped(v));
                    return false;
                }
            },
            None => {
                assert(!ms.mapped(v));
                return false;
            },
        }
        v += 1;
    }
    true
}

/// Whether no page of `start..end` is mapped.
fn none_mapped(ms: &MemorySet, start: usize, end: usize) -> (b: bool)
    ensures
        b == ms.range_unmapped(start, end),
{
    let mut v = start;
    while v < end
        invariant
            start <= v,
            forall|w: usize| start <= w < v ==> !#[trigger] ms.mapped(w),
        decreases end - v,
    {
        match ms.translate(v) {
            Some(e) => {
                if e.is_valid() {
                    assert(ms.mapped(v));
                    return false;
                }
            },
            None => {},
        }
        v += 1;
    }
    true
}

impl TaskControlBlock {
    /// Moves the end of the heap by `size` bytes, mapping or unmapping the
    /// pages in between; returns the old end, or `None` (and changes
    /// nothing) if the heap would end below its bottom, or when growing,
    /// a page in between is already mapped or frames are short, or when
    /// shrinking, a page in between is not mapped.
    pub fn change_brk(&mut self, frames: &mut FrameAllocator, mem: &mut PhysMemory, size: i32) -> (r: Option<usize>)
        requires
            old(self).heap_bottom <= old(self).program_brk,
            old(self).program_brk < 0x80_0000_0000,
            old(self).program_brk + size <= usize::MAX,
            old(frames).wf(),
            old(self).memory_set.owns_frames(old(frames).state()),
        ensures
            final(frames).wf(),
            final(frames).end == old(frames).end,
            final(self).memory_set.owns_frames(final(frames).state()),
            final(self).heap_bottom == old(self).heap_bottom,
            final(self).memory_set.root_ppn == old(self).memory_set.root_ppn,
            final(self).task_status == old(self).task_status,
            final(self).task_syscall_trace == old(self).task_syscall_trace,
            !brk_can_move(*old(self), *old(frames), size) ==> r is None && *final(self) == *old(self)
                && *final(frames) == *old(frames) && *final(mem) == *old(mem),
            brk_can_move(*old(self), *old(frames), size) ==> {
                let old_end = ceil_page(old(self).program_brk as int) as usize;
                let new_end = ceil_page(new_brk(*old(self), size)) as usize;
                &&& r == Some(old(self).program_brk)
                &&& final(self).program_brk == new_brk(*old(self), size)
                &&& size < 0 ==> final(self).memory_set.entries() == entries_after_unmap(
                    old(self).memory_set.entries(),
                    new_end,
                    old_end,
                )
                &&& size >= 0 ==> final(self).memory_set.entries() == entries_after_map(
                    old(self).memory_set.entries(),
                    old(frames).state(),
                    old_end,
                    new_end,
                    heap_perm(),
                )
                &&& size >= 0 ==> pages_writable(final(self).memory_set, old_end as int, new_end as int)
            },
    {
        let old_break = self.program_brk;
        let new_brk = self.program_brk as i64 + size as i64;
        if new_brk < self.heap_bottom as i64 {
            return None;
        }
        let new_brk = new_brk as usize;
        let old_end = ceil_vpn(old_break);
        let new_end = ceil_vpn(new_brk);
        if size < 0 {
            if !all_mapped(&self.memory_set, new_end, old_end) {
                return None;
            }
            assert(new_end <= old_end) by (nonlinear_arith)
                requires
                    new_brk <= old_break,
                    old_end as int == ceil_page(old_break as int),
                    new_end as int == ceil_page(new_brk as int),
            {
            }
            self.memory_set.unmap_range(frames, new_end, old_end);
        } else {
            if !none_mapped(&self.memory_set, old_end, new_end) {
                return None;
            }
            if frames.free_frames() < new_end - old_end {
                return None;
            }
            assert(old_end <= new_end) by (nonlinear_arith)
                requires
                    new_brk >= old_break,
                    old_end as int == ceil_page(old_break as int),
                    new_end as int == ceil_page(new_brk as int),
            {
            }
            let ghost e0 = self.memory_set.entries();
            let ghost s0 = frames.state();
            self.memory_set.map_range(frames, mem, old_end, new_end, PTE_R | PTE_W | PTE_U);
            proof {
                lemma_heap_pages_writable(e0, s0, old_end, new_end, self.memory_set);
            }
        }
        self.program_brk = new_brk;
        Some(old_break)
    }
}

/// Switching tasks keeps at most one task running: if no task but the
/// current one runs, then after it is marked ready or exited and the next
/// ready task is started, no task but the new current one runs.
pub proof fn lemma_switch_keeps_one_running(st: Seq<TaskStatus>, cur: int, mark: TaskStatus)
    requires
        0 <= cur < st.len(),
        mark != TaskStatus::Running,
        forall|j: int| 0 <= j < st.len() && j != cur ==> st[j] != TaskStatus::Running,
    ensures
        ({
            let marked = st.update(cur, mark);
            match next_ready(marked, cur) {
                Some(i) => forall|j: int| 0 <= j < st.len() && j != i ==> #[trigger] marked.update(i, TaskStatus::Running)[j]
                    != TaskStatus::Running,
                None => forall|j: int| 0 <= j < st.len() ==> #[trigger] marked[j] != TaskStatus::Running,
            }
        }),
{
    let marked = st.update(cur, mark);
    lemma_ready_from(marked, cur, 1);
}

/// The next task to run is a ready one.
pub proof fn lemma_next_ready_is_ready(st: Seq<TaskStatus>, cur: int)
    requires
        st.len() > 0,
    ensures
        next_ready(st, cur) matches Some(i) ==> 0 <= i < st.len() && st[i] == TaskStatus::Ready,
{
    lemma_ready_from(st, cur, 1);
}

impl TaskManager {
    pub open spec fn wf(&self) -> bool {
        self.current_task < self.tasks.len()
    }

    pub open spec fn status_view(&self) -> Seq<TaskStatus> {
        statuses(self.tasks@)
    }

    /// The index of the next ready task after the current one, going round.
    fn find_next_task(&self) -> (next: Option<usize>)
        requires
            self.wf(),
        ensures
            next matches Some(i) ==> Some(i as int) == next_ready(self.status_view(), self.current_task as int),
            next is None ==> next_ready(self.status_view(), self.current_task as int) is None,
    {
        let n = self.tasks.len();
        let cur = self.current_task;
        let ghost st = self.status_view();
        let mut step: usize = 0;
        while step < n
            invariant
                step <= n,
                n == self.tasks.len(),
                st.len() == n,
                cur < n,
                cur == self.current_task,
                st == self.status_view(),
                next_ready(st, cur as int) == ready_from(st, cur as int, step + 1),
            decreases n - step,
        {
            let k = step + 1;
            let id = if k >= n - cur { k - (n - cur) } else { cur + k };
            assert(id as int == (cur + k) % (n as int)) by (nonlinear_arith)
                requires
                    cur < n,
                    1 <= k <= n,
                    id == if k >= n - cur { k - (n - cur) } else { cur + k },
            ;
            assert(st[id as int] == self.tasks@[id as int].task_status);
            if self.tasks[id].task_status == TaskStatus::Ready {
                assert(st[(cur + k) % (st.len() as int)] == TaskStatus::Ready);
                return Some(id);
            }
            step += 1;
        }
        None
    }

    /// Marks the current task with `status` and picks the next ready task,
    /// which becomes the running one; `None` when no task is ready.
    fn mark_and_run_next(&mut self, status: TaskStatus) -> (next: Option<usize>)
        requires
            old(self).wf(),
        ensures
            final(self).wf(),
            ({
                let st = old(self).status_view().update(old(self).current_task as int, status);
                match next_ready(st, old(self).current_task as int) {
                    Some(i) => next == Some(i as usize) && final(self).current_task == i
                        && final(self).status_view() == st.update(i, TaskStatus::Running),
                    None => next is None && final(self).current_task == old(self).current_task
                        && final(self).status_view() == st,
                }
            }),
            final(self).tasks.len() == old(self).tasks.len(),
            forall|i: int| 0 <= i < final(self).tasks.len() ==> same_but_status(
                #[trigger] final(self).tasks@[i],
                old(self).tasks@[i],
            ),
    {
        let cur = self.current_task;
        let ghost st = self.status_view().update(cur as int, status);
        self.tasks[cur].task_status = status;
        assert(self.status_view() =~= st);
        assert forall|i: int| 0 <= i < self.tasks.len() implies same_but_status(
            #[trigger] self.tasks@[i], old(self).tasks@[i]) by {}
        proof {
            lemma_ready_from(st, cur as int, 1);
        }
        match self.find_next_task() {
            Some(next) => {
                let ghost mid = self.tasks@;
                self.tasks[next].task_status = TaskStatus::Running;
                self.current_task = next;
                assert forall|i: int| 0 <= i < self.tasks.len() implies same_but_status(
                    #[trigger] self.tasks@[i], old(self).tasks@[i]) by {
                    assert(same_but_status(mid[i], old(self).tasks@[i]));
                }
                assert(self.status_view() =~= st.update(next as int, TaskStatus::Running));
                Some(next)
            },
            None => None,
        }
    }

    /// The current task gives up the processor: it becomes ready and the
    /// next ready task (possibly itself) runs.
    pub fn suspend_current_and_run_next(&mut self) -> (next: usize)
        requires
            old(self).wf(),
        ensures
            final(self).wf(),
            ({
                let st = old(self).status_view().update(old(self).current_task as int, TaskStatus::Ready);
                Some(next as int) == next_ready(st, old(self).current_task as int)
                    && final(self).status_view() == st.update(next as int, TaskStatus::Running)
            }),
            final(self).current_task == next,
            final(self).tasks.len() == old(self).tasks.len(),
            forall|i: int| 0 <= i < final(self).tasks.len() ==> same_but_status(
                #[trigger] final(self).tasks@[i],
                old(self).tasks@[i],
            ),
    {
        let ghost cur = self.current_task as int;
        let ghost n = self.tasks.len() as int;
        let ghost st = self.status_view().update(cur, TaskStatus::Ready);
        proof {
            lemma_ready_from(st, cur, 1);
            assert((cur + n) % n == cur) by (nonlinear_arith)
                requires 0 <= cur < n;
            assert(st[(cur + n) % n] == TaskStatus::Ready);
        }
        match self.mark_and_run_next(TaskStatus::Ready) {
            Some(next) => next,
            None => self.current_task,
        }
    }

    /// The current task ends with `exit_code`: it becomes exited with the
    /// code recorded, and the next ready task runs; `None` when no task is
    /// left to run.
    pub fn exit_current_and_run_next(&mut self, exit_code: i32) -> (next: Option<usize>)
        requires
            old(self).wf(),
        ensures
            final(self).wf(),
            ({
                let st = old(self).status_view().update(old(self).current_task as int, TaskStatus::Exited);
                match next_ready(st, old(self).current_task as int) {
                    Some(i) => next == Some(i as usize) && final(self).current_task == i
                        && final(self).status_view() == st.update(i, TaskStatus::Running),
                    None => next is None && final(self).current_task == old(self).current_task
                        && final(self).status_view() == st,
                }
            }),
            final(self).tasks.len() == old(self).tasks.len(),
            forall|i: int| 0 <= i < final(self).tasks.len() && i != old(self).current_task ==> same_but_status(
                #[trigger] final(self).tasks@[i],
                old(self).tasks@[i],
            ),
            final(self).tasks@[old(self).current_task as int] == (TaskControlBlock {
                task_status: final(self).tasks@[old(self).current_task as int].task_status,
                exit_code: Some(exit_code),
                ..old(self).tasks@[old(self).current_task as int]
            }),
    {
        let cur = self.current_task;
        self.tasks[cur].exit_code = Some(exit_code);
        let ghost mid = self.tasks@;
        assert(self.status_view() =~= old(self).status_view());
        let next = self.mark_and_run_next(TaskStatus::Exited);
        proof {
            assert forall|i: int| 0 <= i < self.tasks.len() && i != cur implies same_but_status(
                #[trigger] self.tasks@[i], old(self).tasks@[i]) by {
                assert(same_but_status(self.tasks@[i], mid[i]));
            }
            assert(same_but_status(self.tasks@[cur as int], mid[cur as int]));
        }
        next
    }

    /// The task now running.
    pub open spec fn current(&self) -> TaskControlBlock {
        self.tasks@[self.current_task as int]
    }

    /// The tasks other than the running one are as in `other`.
    pub open spec fn others_unchanged(&self, other: TaskManager) -> bool {
        &&& self.tasks.len() == other.tasks.len()
        &&& self.current_task == other.current_task
        &&& forall|i: int| 0 <= i < self.tasks.len() && i != self.current_task ==> #[trigger] self.tasks@[i]
            == other.tasks@[i]
    }

    /// The `satp` value of the running task's address space.
    pub fn current_user_token(&self) -> (t: usize)
        requires
            self.wf(),
        ensures
            t == crate::mm::satp_of(self.current().memory_set.root_ppn),
    {
        self.tasks[self.current_task].memory_set.token()
    }

    /// Moves the end of the running task's heap by `size` bytes.
    pub fn change_program_brk(&mut self, frames: &mut FrameAllocator, mem: &mut PhysMemory, size: i32) -> (r: Option<usize>)
        requires
            old(self).wf(),
            old(self).current().heap_bottom <= old(self).current().program_brk,
            old(self).current().program_brk < 0x80_0000_0000,
            old(self).current().program_brk + size <= usize::MAX,
            old(frames).wf(),
            old(self).current().memory_set.owns_frames(old(frames).state()),
        ensures
            final(self).wf(),
            final(self).others_unchanged(*old(self)),
            final(frames).wf(),
            final(frames).end == old(frames).end,
            final(self).current().memory_set.owns_frames(final(frames).state()),
            final(self).current().heap_bottom == old(self).current().heap_bottom,
            final(self).current().memory_set.root_ppn == old(self).current().memory_set.root_ppn,
            final(self).current().task_status == old(self).current().task_status,
            final(self).current().task_syscall_trace == old(self).current().task_syscall_trace,
            !brk_can_move(old(self).current(), *old(frames), size) ==> r is None
                && final(self).current() == old(self).current() && *final(frames) == *old(frames)
                && *final(mem) == *old(mem),
            brk_can_move(old(self).current(), *old(frames), size) ==> {
                let t = old(self).current();
                let old_end = ceil_page(t.program_brk as int) as usize;
                let new_end = ceil_page(new_brk(t, size)) as usize;
                &&& r == Some(t.program_brk)
                &&& final(self).current().program_brk == new_brk(t, size)
                &&& size < 0 ==> final(self).current().memory_set.entries() == entries_after_unmap(
                    t.memory_set.entries(),
                    new_end,
                    old_end,
                )
                &&& size >= 0 ==> final(self).current().memory_set.entries() == entries_after_map(
                    t.memory_set.entries(),
                    old(frames).state(),
                    old_end,
                    new_end,
                    heap_perm(),
                )
                &&& size >= 0 ==> pages_writable(final(self).current().memory_set, old_end as int, new_end as int)
            },
    {
        let cur = self.current_task;
        self.tasks[cur].change_brk(frames, mem, size)
    }

    /// Maps pages `start..end` of the running task to fresh frames with
    /// permission `perm`.
    pub fn map_extra(&mut self, frames: &mut FrameAllocator, mem: &mut PhysMemory, start: usize, end: usize, perm: u8)
        requires
            old(self).wf(),
            start <= end,
            old(frames).wf(),
            old(frames).free() >= end - start,
            old(self).current().memory_set.range_unmapped(start, end),
            old(self).current().memory_set.owns_frames(old(frames).state()),
        ensures
            final(self).wf(),
            final(self).others_unchanged(*old(self)),
            final(frames).wf(),
            final(frames).end == old(frames).end,
            final(frames).state() == alloc_n(old(frames).state(), (end - start) as nat),
            forall|k: nat, o: usize| k < end - start && o < crate::config::PAGE_SIZE ==> #[trigger] final(mem).view_byte(
                crate::mm::nth_frame(old(frames).state(), k),
                o,
            ) == 0,
            forall|p: usize, o: usize| !crate::mm::handed_out(old(frames).state(), (end - start) as nat).contains(p)
                ==> #[trigger] final(mem).view_byte(p, o) == old(mem).view_byte(p, o),
            final(self).current().memory_set.entries() == entries_after_map(
                old(self).current().memory_set.entries(),
                old(frames).state(),
                start,
                end,
                perm,
            ),
            final(self).current().memory_set.root_ppn == old(self).current().memory_set.root_ppn,
            final(self).current().memory_set.owns_frames(final(frames).state()),
            final(self).current().heap_bottom == old(self).current().heap_bottom,
            final(self).current().program_brk == old(self).current().program_brk,
            final(self).current().task_status == old(self).current().task_status,
            final(self).current().task_syscall_trace == old(self).current().task_syscall_trace,
    {
        let cur = self.current_task;
        self.tasks[cur].memory_set.map_range(frames, mem, start, end, perm);
    }

    /// Unmaps pages `start..end` of the running task if all are mapped.
    pub fn unmap_extra(&mut self, frames: &mut FrameAllocator, start: usize, end: usize) -> (ok: bool)
        requires
            old(self).wf(),
            start <= end,
            old(frames).wf(),
            old(self).current().memory_set.owns_frames(old(frames).state()),
        ensures
            final(self).wf(),
            final(self).others_unchanged(*old(self)),
            ok == old(self).current().memory_set.range_mapped(start, end),
            !ok ==> final(self).current() == old(self).current() && *final(frames) == *old(frames),
            ok ==> final(self).current().memory_set.entries() == entries_after_unmap(
                old(self).current().memory_set.entries(),
                start,
                end,
            ),
            ok ==> final(frames).state() == (RecycleState {
                current: old(frames).state().current,
                recycled: old(frames).state().recycled + frames_of_range(
                    old(self).current().memory_set.entries(),
                    start,
                    end,
                ),
            }),
            final(frames).wf(),
            final(frames).end == old(frames).end,
            final(self).current().memory_set.root_ppn == old(self).current().memory_set.root_ppn,
            final(self).current().memory_set.owns_frames(final(frames).state()),
            final(self).current().heap_bottom == old(self).current().heap_bottom,
            final(self).current().program_brk == old(self).current().program_brk,
            final(self).current().task_status == old(self).current().task_status,
            final(self).current().task_syscall_trace == old(self).current().task_syscall_trace,
    {
        let cur = self.current_task;
        let ok = self.tasks[cur].memory_set.unmap_range(frames, start, end);
        ok
    }

    /// How often the current task made system call `id`.
    pub fn get_syscall_cnt(&self, id: usize) -> (n: usize)
        requires
            self.wf(),
            id < MAX_SYSCALL_NUM,
        ensures
            n == self.tasks@[self.current_task as int].task_syscall_trace@[id as int],
    {
        self.tasks[self.current_task].task_syscall_trace[id]
    }
}

} // verus!
