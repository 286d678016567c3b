use rcore_os::config::{PAGE_SIZE, TRAP_CONTEXT_BASE, USER_STACK_SIZE};
use rcore_os::id::RecycleAllocator;
use rcore_os::mm::{floor_vpn, page_offset, virt_addr, FrameAllocator, MemorySet, PhysMemory, PTE_R, PTE_U};
use rcore_os::process::{FileObject, ProcessControlBlock};
use rcore_os::task::TaskStatus;
use std::collections::{BTreeMap, VecDeque};
use std::sync::Arc;

const USTACK_BASE: usize = 0x20000;

fn user_byte(ms: &MemorySet, mem: &PhysMemory, va: usize) -> u8 {
    let va = virt_addr(va);
    let e = ms.translate(floor_vpn(va)).unwrap();
    mem.read_byte(e.ppn, page_offset(va))
}

fn user_word(ms: &MemorySet, mem: &PhysMemory, va: usize) -> usize {
    let mut w = 0usize;
    for i in (0..8).rev() {
        w = (w << 8) | user_byte(ms, mem, va + i) as usize;
    }
    w
}

fn program(f: &mut FrameAllocator, mem: &mut PhysMemory) -> MemorySet {
    let root = f.frame_alloc().unwrap();
    let mut ms = MemorySet::new_bare(root);
    // a code page at 0x1000
    ms.map_range(f, mem, 1, 2, PTE_R | PTE_U);
    ms
}

type PidTable = BTreeMap<usize, Arc<ProcessControlBlock>>;
type ReadyQueue = VecDeque<(usize, usize)>;

fn spawn(
    pids: &mut RecycleAllocator,
    f: &mut FrameAllocator,
    mem: &mut PhysMemory,
    table: &mut PidTable,
    queue: &mut ReadyQueue,
) -> Arc<ProcessControlBlock> {
    let ms = program(f, mem);
    ProcessControlBlock::new(
        ms,
        USTACK_BASE,
        0x1000,
        pids,
        f,
        mem,
        0x9000_0000,
        0x8000_0000_0008_0000,
        0xdead,
        0xbeef,
        table,
        queue,
    )
}

/// Takes a registered process out of the table to work on it alone.
fn take(table: &mut PidTable, p: Arc<ProcessControlBlock>) -> ProcessControlBlock {
    table.remove(&p.getpid());
    Arc::try_unwrap(p).ok().unwrap()
}

fn new_process(pids: &mut RecycleAllocator, f: &mut FrameAllocator, mem: &mut PhysMemory) -> ProcessControlBlock {
    let mut table = PidTable::new();
    let mut queue = ReadyQueue::new();
    let p = spawn(pids, f, mem, &mut table, &mut queue);
    take(&mut table, p)
}

#[test]
fn new_process_has_console_descriptors_and_a_main_thread() {
    let mut pids = RecycleAllocator::new();
    let mut f = FrameAllocator::new(100, 400);
    let mut mem = PhysMemory::new();
    let mut p = new_process(&mut pids, &mut f, &mut mem);
    assert_eq!(p.getpid(), 0);
    let inner = p.inner_exclusive_access();
    assert_eq!(inner.fd_table, vec![Some(FileObject::Stdin), Some(FileObject::Stdout), Some(FileObject::Stdout)]);
    assert_eq!(inner.thread_count(), 1);
    let t = inner.get_task(0);
    assert_eq!(t.task_status, TaskStatus::Ready);
    assert_eq!(t.trap_cx.sepc, 0x1000);
    assert_eq!(t.trap_cx.x[2], USTACK_BASE + USER_STACK_SIZE);
    assert_eq!(t.trap_cx.kernel_sp, 0x9000_0000);
    assert_eq!(t.task_cx.ra, 0xbeef);
    assert!(inner.memory_set.translate(USTACK_BASE / PAGE_SIZE).unwrap().is_valid());
    assert!(inner.memory_set.translate((USTACK_BASE + USER_STACK_SIZE) / PAGE_SIZE - 1).unwrap().is_valid());
    let trap_vpn = floor_vpn(virt_addr(TRAP_CONTEXT_BASE));
    assert!(inner.memory_set.translate(trap_vpn).unwrap().is_valid());
    assert!(inner.mutex_list.is_empty());
    assert!(inner.semaphore_list.is_empty());
    assert!(inner.condvar_list.is_empty());
    // the next process gets the next pid
    let q = new_process(&mut pids, &mut f, &mut mem);
    assert_eq!(q.getpid(), 1);
}

#[test]
fn new_process_is_registered_and_queued() {
    let mut pids = RecycleAllocator::new();
    let mut f = FrameAllocator::new(100, 400);
    let mut mem = PhysMemory::new();
    let mut table = PidTable::new();
    let mut queue = ReadyQueue::new();
    let p = spawn(&mut pids, &mut f, &mut mem, &mut table, &mut queue);
    let q = spawn(&mut pids, &mut f, &mut mem, &mut table, &mut queue);
    assert_eq!(table.len(), 2);
    assert!(Arc::ptr_eq(&table[&0], &p));
    assert!(Arc::ptr_eq(&table[&1], &q));
    assert_eq!(queue, VecDeque::from(vec![(0, 0), (1, 0)]));
}

#[test]
fn alloc_fd_takes_the_lowest_free_slot() {
    let mut pids = RecycleAllocator::new();
    let mut f = FrameAllocator::new(100, 400);
    let mut mem = PhysMemory::new();
    let mut p = new_process(&mut pids, &mut f, &mut mem);
    let inner = p.inner_exclusive_access();
    assert_eq!(inner.alloc_fd(), 3);
    assert_eq!(inner.fd_table.len(), 4);
    inner.fd_table[3] = Some(FileObject::Inode(7));
    inner.fd_table[1] = None;
    assert_eq!(inner.alloc_fd(), 1);
    assert_eq!(inner.fd_table.len(), 4);
}

#[test]
fn alloc_fd_twice_without_filling_gives_the_same_slot() {
    let mut pids = RecycleAllocator::new();
    let mut f = FrameAllocator::new(100, 400);
    let mut mem = PhysMemory::new();
    let mut p = new_process(&mut pids, &mut f, &mut mem);
    let inner = p.inner_exclusive_access();
    let a = inner.alloc_fd();
    let table = inner.fd_table.clone();
    assert_eq!(inner.alloc_fd(), a);
    assert_eq!(inner.fd_table, table);
    assert_eq!(a, 3);
    assert_eq!(inner.fd_table.len(), 4);
}

#[test]
fn thread_ids_are_recycled() {
    let mut pids = RecycleAllocator::new();
    let mut f = FrameAllocator::new(100, 400);
    let mut mem = PhysMemory::new();
    let mut p = new_process(&mut pids, &mut f, &mut mem);
    let inner = p.inner_exclusive_access();
    assert_eq!(inner.alloc_tid(), 1);
    assert_eq!(inner.alloc_tid(), 2);
    inner.dealloc_tid(1);
    assert_eq!(inner.alloc_tid(), 1);
}

#[test]
fn user_token_names_the_root_frame() {
    let mut pids = RecycleAllocator::new();
    let mut f = FrameAllocator::new(100, 400);
    let mut mem = PhysMemory::new();
    let mut p = new_process(&mut pids, &mut f, &mut mem);
    let inner = p.inner_exclusive_access();
    assert_eq!(inner.get_user_token(), (8usize << 60) | 100);
}

#[test]
fn fork_copies_memory_and_descriptors() {
    let mut pids = RecycleAllocator::new();
    let mut f = FrameAllocator::new(100, 400);
    let mut mem = PhysMemory::new();
    let mut p = new_process(&mut pids, &mut f, &mut mem);
    {
        let inner = p.inner_exclusive_access();
        inner.deadlock_detect = true;
        let e = inner.memory_set.translate(1).unwrap();
        mem.write_byte(e.ppn, 5, 77);
    }
    let mut table = PidTable::new();
    let mut queue = ReadyQueue::new();
    let c = p.fork(&mut pids, &mut f, &mut mem, 0x9100_0000, 0xbeef, &mut table, &mut queue);
    assert_eq!(c.getpid(), 1);
    assert_eq!(table.len(), 1);
    assert!(Arc::ptr_eq(&table[&1], &c));
    assert_eq!(queue, VecDeque::from(vec![(1, 0)]));
    let mut c = take(&mut table, c);
    let parent_pid = p.getpid();
    assert_eq!(p.inner_exclusive_access().children, vec![1]);
    assert!(p.inner_exclusive_access().deadlock_detect);
    assert_eq!(p.inner_exclusive_access().exit_code, 0);
    assert_eq!(p.inner_exclusive_access().parent, None);
    let parent_ppn = p.inner_exclusive_access().memory_set.translate(1).unwrap().ppn;
    let ci = c.inner_exclusive_access();
    assert_eq!(ci.parent, Some(parent_pid));
    assert!(ci.deadlock_detect);
    assert_eq!(ci.fd_table.len(), 3);
    let ce = ci.memory_set.translate(1).unwrap();
    assert_ne!(ce.ppn, parent_ppn);
    assert_eq!(mem.read_byte(ce.ppn, 5), 77);
    // a later write by the parent is not seen by the child
    mem.write_byte(parent_ppn, 5, 99);
    assert_eq!(mem.read_byte(ce.ppn, 5), 77);
    assert!(ci.mutex_list.is_empty());
    assert!(ci.semaphore_list.is_empty());
    assert!(ci.condvar_list.is_empty());
    assert!(ci.mutex_deadlock_detect.available.is_empty());
    assert!(ci.semaphore_deadlock_detect.need.is_empty());
    assert_eq!(ci.get_task(0).exit_code, None);
    let t = ci.get_task(0);
    assert_eq!(t.trap_cx.kernel_sp, 0x9100_0000);
    assert_eq!(t.trap_cx.sepc, 0x1000);
    assert_eq!(t.ustack_base, USTACK_BASE);
}

#[test]
fn exec_lays_out_the_arguments_on_the_stack() {
    let mut pids = RecycleAllocator::new();
    let mut f = FrameAllocator::new(100, 400);
    let mut mem = PhysMemory::new();
    let mut p = new_process(&mut pids, &mut f, &mut mem);
    let free_before = f.free_frames();
    let ms = program(&mut f, &mut mem);
    let args = vec!["ab".to_string(), "cde".to_string()];
    p.exec(&mut f, &mut mem, ms, USTACK_BASE, 0x1004, args, 0x77, 0xdead);
    // the old program's pages and stack were given back, the new ones taken
    assert_eq!(f.free_frames(), free_before - 1);
    let inner = p.inner_exclusive_access();
    let t = inner.get_task(0);
    let top = USTACK_BASE + USER_STACK_SIZE;
    let argv = top - 3 * 8;
    assert_eq!(t.trap_cx.x[10], 2);
    assert_eq!(t.trap_cx.x[11], argv);
    assert_eq!(t.trap_cx.sepc, 0x1004);
    assert_eq!(t.trap_cx.kernel_satp, 0x77);
    let ms = &inner.memory_set;
    let a0 = user_word(ms, &mem, argv);
    let a1 = user_word(ms, &mem, argv + 8);
    assert_eq!(user_word(ms, &mem, argv + 16), 0);
    assert_eq!(a0, argv - 3);
    assert_eq!(a1, argv - 3 - 4);
    assert_eq!([user_byte(ms, &mem, a0), user_byte(ms, &mem, a0 + 1), user_byte(ms, &mem, a0 + 2)], [b'a', b'b', 0]);
    assert_eq!(user_byte(ms, &mem, a1), b'c');
    assert_eq!(user_byte(ms, &mem, a1 + 3), 0);
    assert_eq!(t.trap_cx.x[2], a1 - a1 % 8);
    assert_eq!(t.trap_cx.x[2] % 8, 0);
}
