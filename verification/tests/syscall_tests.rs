use rcore_os::mm::{FrameAllocator, MemorySet, PhysMemory, PTE_R, PTE_U, PTE_W, PTE_X, PTE_V};
use rcore_os::syscall::{
    sys_exit, sys_get_time, sys_mmap, sys_munmap, sys_sbrk, sys_trace, sys_yield, TimeVal,
};
use rcore_os::task::{TaskContext, TaskControlBlock, TaskManager, TaskStatus};
use rcore_os::trap::TrapContext;

const HEAP: usize = 0x10000;

fn task(status: TaskStatus, root: usize) -> TaskControlBlock {
    TaskControlBlock {
        task_status: status,
        task_cx: TaskContext::zero_init(),
        task_syscall_trace: [0; 411],
        memory_set: MemorySet::new_bare(root),
        heap_bottom: HEAP,
        program_brk: HEAP,
        ustack_base: 0,
        kstack_top: 0,
        trap_cx: TrapContext::app_init_context(0, 0, 0, 0, 0),
        exit_code: None,
    }
}

fn manager(n: usize) -> TaskManager {
    let mut tasks = Vec::new();
    for i in 0..n {
        tasks.push(task(if i == 0 { TaskStatus::Running } else { TaskStatus::Ready }, i + 1));
    }
    TaskManager { tasks, current_task: 0 }
}

fn statuses(tm: &TaskManager) -> Vec<TaskStatus> {
    tm.tasks.iter().map(|t| t.task_status).collect()
}

#[test]
fn yield_runs_tasks_round_robin() {
    let mut tm = manager(3);
    assert_eq!(sys_yield(&mut tm), 0);
    assert_eq!(tm.current_task, 1);
    assert_eq!(statuses(&tm), vec![TaskStatus::Ready, TaskStatus::Running, TaskStatus::Ready]);
    sys_yield(&mut tm);
    sys_yield(&mut tm);
    assert_eq!(tm.current_task, 0);
}

#[test]
fn yield_of_the_only_ready_task_continues_it() {
    let mut tm = manager(2);
    tm.tasks[1].task_status = TaskStatus::Exited;
    assert_eq!(sys_yield(&mut tm), 0);
    assert_eq!(tm.current_task, 0);
    assert_eq!(tm.tasks[0].task_status, TaskStatus::Running);
}

#[test]
fn exit_switches_to_the_next_ready_task_or_ends() {
    let mut tm = manager(3);
    tm.tasks[1].task_status = TaskStatus::Exited;
    assert_eq!(sys_exit(&mut tm, 0), Some(2));
    assert_eq!(tm.tasks[0].task_status, TaskStatus::Exited);
    assert_eq!(tm.tasks[2].task_status, TaskStatus::Running);
    assert_eq!(sys_exit(&mut tm, 3), None);
    assert_eq!(statuses(&tm), vec![TaskStatus::Exited; 3]);
}

#[test]
fn exit_records_the_exit_code() {
    let mut tm = manager(2);
    assert_eq!(sys_exit(&mut tm, -7), Some(1));
    assert_eq!(tm.tasks[0].exit_code, Some(-7));
    assert_eq!(tm.tasks[1].exit_code, None);
    assert_eq!(sys_exit(&mut tm, 42), None);
    assert_eq!(tm.tasks[1].exit_code, Some(42));
    assert_eq!(tm.tasks[0].exit_code, Some(-7));
}

#[test]
fn yield_leaves_address_spaces_alone() {
    let mut tm = manager(2);
    let roots: Vec<usize> = tm.tasks.iter().map(|t| t.memory_set.root_ppn).collect();
    sys_yield(&mut tm);
    let after: Vec<usize> = tm.tasks.iter().map(|t| t.memory_set.root_ppn).collect();
    assert_eq!(roots, after);
    assert_eq!(tm.tasks[0].program_brk, HEAP);
    assert_eq!(tm.tasks[0].exit_code, None);
}

#[test]
fn time_splits_into_seconds_and_microseconds() {
    let tv = TimeVal::from_us(3_000_123);
    assert_eq!((tv.sec, tv.usec), (3, 123));
    let b = tv.to_bytes();
    assert_eq!(b.len(), 16);
    assert_eq!(b[0], 3);
    assert_eq!(&b[1..8], &[0; 7]);
    assert_eq!(b[8], 123);
    let tv = TimeVal::from_us(999_999);
    assert_eq!((tv.sec, tv.usec), (0, 999_999));
    assert_eq!(&tv.to_bytes()[8..12], &[0x3f, 0x42, 0x0f, 0x00]);
}

#[test]
fn later_clock_readings_are_not_earlier() {
    let readings = [0usize, 999_999, 1_000_000, 1_000_001, 2_999_999, 3_000_000];
    for w in readings.windows(2) {
        let a = TimeVal::from_us(w[0]);
        let b = TimeVal::from_us(w[1]);
        assert!((a.sec, a.usec) < (b.sec, b.usec));
    }
    let a = TimeVal::from_us(5);
    let b = TimeVal::from_us(5);
    assert_eq!((a.sec, a.usec), (b.sec, b.usec));
}

fn mapped_manager(f: &mut FrameAllocator, mem: &mut PhysMemory, perm: u8) -> TaskManager {
    let mut tm = manager(1);
    tm.tasks[0].memory_set.map_range(f, mem, 0x10, 0x12, perm);
    tm
}

#[test]
fn get_time_writes_across_a_page_boundary() {
    let mut f = FrameAllocator::new(100, 200);
    let mut mem = PhysMemory::new();
    let tm = mapped_manager(&mut f, &mut mem, PTE_R | PTE_W | PTE_U);
    let ts = 0x11000 - 4;
    assert_eq!(sys_get_time(&tm, &mut mem, ts, 7_000_005), 0);
    let p0 = tm.tasks[0].memory_set.translate(0x10).unwrap().ppn;
    let p1 = tm.tasks[0].memory_set.translate(0x11).unwrap().ppn;
    assert_eq!(mem.read_byte(p0, 4092), 7);
    assert_eq!(mem.read_byte(p0, 4095), 0);
    assert_eq!(mem.read_byte(p1, 0), 0);
    assert_eq!(mem.read_byte(p1, 4), 5);
}

#[test]
fn trace_reads_writes_and_counts() {
    let mut f = FrameAllocator::new(100, 200);
    let mut mem = PhysMemory::new();
    let mut tm = mapped_manager(&mut f, &mut mem, PTE_R | PTE_W | PTE_U);
    tm.tasks[0].task_syscall_trace[64] = 5;
    assert_eq!(sys_trace(&tm, &mut mem, 2, 64, 0), 5);
    assert_eq!(sys_trace(&tm, &mut mem, 1, 0x10008, 0x1ab), 0);
    assert_eq!(sys_trace(&tm, &mut mem, 0, 0x10008, 0), 0xab);
    // unmapped address
    assert_eq!(sys_trace(&tm, &mut mem, 0, 0x20000, 0), -1);
    // unknown request
    assert_eq!(sys_trace(&tm, &mut mem, 3, 0x10008, 0), -1);
}

#[test]
fn trace_respects_page_permissions() {
    let mut f = FrameAllocator::new(100, 200);
    let mut mem = PhysMemory::new();
    let tm = mapped_manager(&mut f, &mut mem, PTE_R | PTE_U);
    assert_eq!(sys_trace(&tm, &mut mem, 1, 0x10000, 1), -1);
    assert_eq!(sys_trace(&tm, &mut mem, 0, 0x10000, 0), 0);
    let tm = mapped_manager(&mut f, &mut mem, PTE_W | PTE_U);
    assert_eq!(sys_trace(&tm, &mut mem, 0, 0x10000, 0), -1);
    let tm = mapped_manager(&mut f, &mut mem, PTE_R | PTE_W);
    assert_eq!(sys_trace(&tm, &mut mem, 0, 0x10000, 0), -1);
}

#[test]
fn mmap_checks_its_arguments() {
    let mut f = FrameAllocator::new(100, 200);
    let mut mem = PhysMemory::new();
    let mut tm = manager(1);
    // unaligned start
    assert_eq!(sys_mmap(&mut tm, &mut f, &mut mem, 0x1001, 4096, 3), -1);
    // stray protection bits
    assert_eq!(sys_mmap(&mut tm, &mut f, &mut mem, 0x1000, 4096, 9), -1);
    // no protection bit
    assert_eq!(sys_mmap(&mut tm, &mut f, &mut mem, 0x1000, 4096, 0), -1);
    assert!(tm.tasks[0].memory_set.page_table.is_empty());
}

#[test]
fn mmap_maps_rounded_up_pages_with_the_asked_permission() {
    let mut f = FrameAllocator::new(100, 200);
    let mut mem = PhysMemory::new();
    let mut tm = manager(1);
    assert_eq!(sys_mmap(&mut tm, &mut f, &mut mem, 0x10000000, 4097, 5), 0);
    let ms = &tm.tasks[0].memory_set;
    assert_eq!(ms.translate(0x10000).unwrap().flags, PTE_V | PTE_R | PTE_X | PTE_U);
    assert!(ms.translate(0x10001).unwrap().is_valid());
    assert!(ms.translate(0x10002).is_none());
    // overlapping an existing mapping fails and changes nothing
    assert_eq!(sys_mmap(&mut tm, &mut f, &mut mem, 0x10001000, 8192, 3), -1);
    assert!(tm.tasks[0].memory_set.translate(0x10002).is_none());
    assert_eq!(f.free_frames(), 98);
}

#[test]
fn mmap_fails_when_frames_run_out() {
    let mut f = FrameAllocator::new(100, 102);
    let mut mem = PhysMemory::new();
    let mut tm = manager(1);
    assert_eq!(sys_mmap(&mut tm, &mut f, &mut mem, 0x0, 3 * 4096, 1), -1);
    assert_eq!(sys_mmap(&mut tm, &mut f, &mut mem, 0x0, 2 * 4096, 1), 0);
}

#[test]
fn munmap_undoes_mmap() {
    let mut f = FrameAllocator::new(100, 200);
    let mut mem = PhysMemory::new();
    let mut tm = manager(1);
    assert_eq!(sys_mmap(&mut tm, &mut f, &mut mem, 0x4000, 3 * 4096, 3), 0);
    // unaligned or partly unmapped requests fail
    assert_eq!(sys_munmap(&mut tm, &mut f, 0x4001, 4096), -1);
    assert_eq!(sys_munmap(&mut tm, &mut f, 0x4000, 4 * 4096), -1);
    assert_eq!(sys_munmap(&mut tm, &mut f, 0x4000, 3 * 4096), 0);
    assert_eq!(f.free_frames(), 100);
    for vpn in 4..7 {
        assert!(!tm.tasks[0].memory_set.translate(vpn).unwrap().is_valid());
    }
    // the pages can be mapped again
    assert_eq!(sys_mmap(&mut tm, &mut f, &mut mem, 0x4000, 3 * 4096, 3), 0);
}

#[test]
fn sbrk_grows_and_shrinks_the_heap() {
    let mut f = FrameAllocator::new(100, 200);
    let mut mem = PhysMemory::new();
    let mut tm = manager(1);
    assert_eq!(sys_sbrk(&mut tm, &mut f, &mut mem, 100), HEAP as isize);
    assert_eq!(tm.tasks[0].program_brk, HEAP + 100);
    assert!(tm.tasks[0].memory_set.translate(HEAP / 4096).unwrap().is_valid());
    assert_eq!(sys_sbrk(&mut tm, &mut f, &mut mem, 5000), (HEAP + 100) as isize);
    assert!(tm.tasks[0].memory_set.translate(HEAP / 4096 + 1).unwrap().is_valid());
    assert_eq!(f.free_frames(), 98);
    assert_eq!(sys_sbrk(&mut tm, &mut f, &mut mem, -5100), (HEAP + 5100) as isize);
    assert_eq!(tm.tasks[0].program_brk, HEAP);
    assert_eq!(f.free_frames(), 100);
    // below the bottom of the heap
    assert_eq!(sys_sbrk(&mut tm, &mut f, &mut mem, -1), -1);
    assert_eq!(tm.tasks[0].program_brk, HEAP);
}

#[test]
fn sbrk_refuses_to_grow_onto_mapped_pages() {
    let mut f = FrameAllocator::new(100, 200);
    let mut mem = PhysMemory::new();
    let mut tm = mapped_manager(&mut f, &mut mem, PTE_R | PTE_W | PTE_U);
    let free = f.free_frames();
    assert_eq!(sys_sbrk(&mut tm, &mut f, &mut mem, 100), -1);
    assert_eq!(tm.tasks[0].program_brk, HEAP);
    assert_eq!(f.free_frames(), free);
}

#[test]
fn sbrk_refuses_to_grow_past_the_free_frames() {
    let mut f = FrameAllocator::new(100, 101);
    let mut mem = PhysMemory::new();
    let mut tm = manager(1);
    assert_eq!(sys_sbrk(&mut tm, &mut f, &mut mem, 5000), -1);
    assert_eq!(tm.tasks[0].program_brk, HEAP);
    assert_eq!(f.free_frames(), 1);
    assert_eq!(sys_sbrk(&mut tm, &mut f, &mut mem, 4096), HEAP as isize);
    assert_eq!(f.free_frames(), 0);
}

#[test]
fn sbrk_refuses_to_shrink_over_unmapped_pages() {
    let mut f = FrameAllocator::new(100, 200);
    let mut mem = PhysMemory::new();
    let mut tm = manager(1);
    assert_eq!(sys_sbrk(&mut tm, &mut f, &mut mem, 100), HEAP as isize);
    assert_eq!(sys_munmap(&mut tm, &mut f, HEAP, 4096), 0);
    assert_eq!(sys_sbrk(&mut tm, &mut f, &mut mem, -100), -1);
    assert_eq!(tm.tasks[0].program_brk, HEAP + 100);
}
