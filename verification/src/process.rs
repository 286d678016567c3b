//! Processes: the process control block and the operations on it.
use crate::deadlock::DeadlockDetectData;
use crate::id::{RecycleAllocator, RecycleState};
use crate::encode::{push_word, word_bytes};
use crate::config::{PAGE_SIZE, TRAMPOLINE, TRAP_CONTEXT_BASE, USER_STACK_SIZE};
use crate::mm::{
    byte_at, ceil_page, ceil_vpn, copy_to_user, floor_vpn, lemma_phys_pos_injective,
    lemma_write_user_bytes_read, leaf_flags, mapped_frames, pos_at, satp_of, va_of, virt_addr, vpn_of,
    copies_pages, FrameAllocator, MemorySet, PhysMemory, VA_SPACE, PTE_R, PTE_U, PTE_W,
};
use crate::trap::TrapContext;
use crate::task::{TaskContext, TaskControlBlock, TaskStatus};
use std::collections::{BTreeMap, VecDeque};
use std::sync::Arc;
use vstd::prelude::*;

verus! {

/// An open file as a process's descriptor table holds it.
#[derive(Clone, Copy, Debug, PartialEq, Eq, Structural)]
pub enum FileObject {
    /// the console, for reading
    Stdin,
    /// the console, for writing
    Stdout,
    /// a file of the file system, by inode number
    Inode(u32),
}

/// A process id.
#[derive(Debug)]
pub struct PidHandle(pub usize);

/// Inner of Process Control Block
pub struct ProcessControlBlockInner {
    /// is zombie?
    pub is_zombie: bool,
    /// memory set(address space)
    pub memory_set: MemorySet,
    /// parent process, by pid
    pub parent: Option<usize>,
    /// children processes, by pid
    pub children: Vec<usize>,
    /// exit code
    pub exit_code: i32,
    /// file descriptor table
    pub fd_table: Vec<Option<FileObject>>,
    /// signal flags
    pub signals: u32,
    /// tasks(also known as threads)
    pub tasks: Vec<Option<TaskControlBlock>>,
    /// task resource allocator
    pub task_res_allocator: RecycleAllocator,
    /// mutex list, each slot the id of a mutex or free
    pub mutex_list: Vec<Option<usize>>,
    /// semaphore list, each slot the id of a semaphore or free
    pub semaphore_list: Vec<Option<usize>>,
    /// condvar list, each slot the id of a condition variable or free
    pub condvar_list: Vec<Option<usize>>,
    /// whether deadlock detection is on
    pub deadlock_detect: bool,
    /// deadlock detection for mutexes
    pub mutex_deadlock_detect: DeadlockDetectData,
    /// deadlock detection for semaphores
    pub semaphore_deadlock_detect: DeadlockDetectData,
}

/// The lowest free descriptor of a table, or its length when none is free.
pub open spec fn lowest_free_fd(t: Seq<Option<FileObject>>) -> int {
    if exists|i: int| 0 <= i < t.len() && #[trigger] t[i] is None {
        choose|i: int| 0 <= i < t.len() && #[trigger] t[i] is None && forall|j: int| 0 <= j < i ==> t[j] is Some
    } else {
        t.len() as int
    }
}

/// The descriptor table after a descriptor is allocated in `t`: as it was
/// when a slot is free, else with a free slot added at the end.
pub open spec fn table_after_alloc(t: Seq<Option<FileObject>>) -> Seq<Option<FileObject>> {
    if lowest_free_fd(t) < t.len() {
        t
    } else {
        t.push(None)
    }
}

/// The first free slot at or below the free slot `i`.
proof fn lemma_first_free_below(t: Seq<Option<FileObject>>, i: int) -> (m: int)
    requires
        0 <= i < t.len(),
        t[i] is None,
    ensures
        0 <= m <= i,
        t[m] is None,
        forall|j: int| 0 <= j < m ==> t[j] is Some,
    decreases i,
{
    if forall|j: int| 0 <= j < i ==> t[j] is Some {
        i
    } else {
        let j = choose|j: int| 0 <= j < i && !(t[j] is Some);
        lemma_first_free_below(t, j)
    }
}

/// The lowest free descriptor is a free slot with every slot below it
/// taken, or the length of a table with no free slot.
proof fn lemma_lowest_free_fd(t: Seq<Option<FileObject>>)
    ensures
        0 <= lowest_free_fd(t) <= t.len(),
        lowest_free_fd(t) < t.len() ==> t[lowest_free_fd(t)] is None,
        lowest_free_fd(t) == t.len() ==> forall|j: int| 0 <= j < t.len() ==> t[j] is Some,
        forall|j: int| 0 <= j < lowest_free_fd(t) ==> t[j] is Some,
{
    if exists|i: int| 0 <= i < t.len() && #[trigger] t[i] is None {
        let i = choose|i: int| 0 <= i < t.len() && #[trigger] t[i] is None;
        let m = lemma_first_free_below(t, i);
        assert(0 <= m < t.len() && t[m] is None && forall|j: int| 0 <= j < m ==> t[j] is Some);
    } else {
        assert forall|j: int| 0 <= j < t.len() implies t[j] is Some by {
            if t[j] is None {
                assert(0 <= j < t.len() && t[j] is None);
            }
        }
    }
}

/// Allocating a descriptor twice without filling the first gives the same
/// descriptor, and the second allocation leaves the table as the first
/// left it.
pub proof fn lemma_alloc_fd_twice(t: Seq<Option<FileObject>>)
    ensures
        table_after_alloc(t).contains(None),
        lowest_free_fd(table_after_alloc(t)) == lowest_free_fd(t),
        lowest_free_fd(t) < table_after_alloc(t).len(),
        table_after_alloc(table_after_alloc(t)) == table_after_alloc(t),
{
    lemma_lowest_free_fd(t);
    let t2 = table_after_alloc(t);
    lemma_lowest_free_fd(t2);
    let l = lowest_free_fd(t);
    let l2 = lowest_free_fd(t2);
    if l == t.len() {
        assert(t2[l] is None);
        if l2 < l {
            assert(t2[l2] == t[l2]);
        }
    }
    assert(t2[l] == None::<FileObject>);
}

impl ProcessControlBlockInner {
    /// Everything but the descriptor table, the threads and the thread-id
    /// allocator is as in `other`.
    pub open spec fn rest_same(&self, other: &Self) -> bool {
        &&& self.is_zombie == other.is_zombie
        &&& self.memory_set == other.memory_set
        &&& self.parent == other.parent
        &&& self.children == other.children
        &&& self.exit_code == other.exit_code
        &&& self.signals == other.signals
        &&& self.mutex_list@ == other.mutex_list@
        &&& self.semaphore_list@ == other.semaphore_list@
        &&& self.condvar_list@ == other.condvar_list@
        &&& self.deadlock_detect == other.deadlock_detect
        &&& self.mutex_deadlock_detect == other.mutex_deadlock_detect
        &&& self.semaphore_deadlock_detect == other.semaphore_deadlock_detect
    }

    /// get the address of app's page table
    pub fn get_user_token(&self) -> (t: usize)
        ensures
            t == satp_of(self.memory_set.root_ppn),
    {
        self.memory_set.token()
    }

    /// allocate a new file descriptor: the lowest free one, or a new slot
    /// at the end of the table
    pub fn alloc_fd(&mut self) -> (fd: usize)
        requires
            old(self).fd_table@.contains(None) || old(self).fd_table.len() < usize::MAX,
        ensures
            fd < final(self).fd_table.len(),
            final(self).fd_table@[fd as int] is None,
            forall|j: int| 0 <= j < fd ==> final(self).fd_table@[j] is Some,
            fd == lowest_free_fd(old(self).fd_table@),
            final(self).fd_table@ == table_after_alloc(old(self).fd_table@),
            final(self).tasks == old(self).tasks,
            final(self).task_res_allocator == old(self).task_res_allocator,
            final(self).rest_same(old(self)),
    {
        let mut fd: usize = 0;
        while fd < self.fd_table.len()
            invariant
                fd <= self.fd_table.len(),
                self.fd_table@ == old(self).fd_table@,
                self.tasks == old(self).tasks,
                self.task_res_allocator == old(self).task_res_allocator,
                self.rest_same(old(self)),
                forall|j: int| 0 <= j < fd ==> self.fd_table@[j] is Some,
            decreases self.fd_table.len() - fd,
        {
            if self.fd_table[fd].is_none() {
                proof {
                    let t = self.fd_table@;
                    let w = choose|i: int| 0 <= i < t.len() && #[trigger] t[i] is None && forall|j: int| 0 <= j < i ==> t[j] is Some;
                    assert(t[fd as int] is None);
                    if w < fd {
                        assert(t[w] is Some);
                    }
                    if w > fd {
                        assert(t[fd as int] is Some);
                    }
                }
                return fd;
            }
            fd += 1;
        }
        proof {
            if self.fd_table@.contains(None) {
                let j = self.fd_table@.index_of(None);
                assert(self.fd_table@[j] is Some);
            }
            lemma_lowest_free_fd(self.fd_table@);
        }
        self.fd_table.push(None);
        self.fd_table.len() - 1
    }

    /// allocate a new task id
    pub fn alloc_tid(&mut self) -> (tid: usize)
        requires
            old(self).task_res_allocator@.wf(),
            old(self).task_res_allocator@.can_alloc(),
        ensures
            tid == old(self).task_res_allocator@.next_id(),
            final(self).task_res_allocator@ == old(self).task_res_allocator@.allocated(),
            final(self).task_res_allocator@.wf(),
            !old(self).task_res_allocator@.in_use().contains(tid),
            final(self).task_res_allocator@.in_use() == old(self).task_res_allocator@.in_use().insert(tid),
            final(self).tasks == old(self).tasks,
            final(self).fd_table == old(self).fd_table,
            final(self).rest_same(old(self)),
    {
        self.task_res_allocator.alloc_id()
    }

    /// deallocate a task id
    pub fn dealloc_tid(&mut self, tid: usize)
        requires
            old(self).task_res_allocator@.wf(),
            tid < old(self).task_res_allocator@.current,
            !old(self).task_res_allocator@.recycled.contains(tid),
        ensures
            final(self).task_res_allocator@ == old(self).task_res_allocator@.deallocated(tid),
            final(self).task_res_allocator@.wf(),
            final(self).task_res_allocator@.in_use() == old(self).task_res_allocator@.in_use().remove(tid),
            final(self).tasks == old(self).tasks,
            final(self).fd_table == old(self).fd_table,
            final(self).rest_same(old(self)),
    {
        self.task_res_allocator.dealloc_id(tid)
    }

    /// the count of tasks(threads) in this process
    pub fn thread_count(&self) -> (n: usize)
        ensures
            n == self.tasks@.len(),
    {
        self.tasks.len()
    }

    /// get a task with tid in this process
    pub fn get_task(&self, tid: usize) -> (t: &TaskControlBlock)
        requires
            tid < self.tasks@.len(),
            self.tasks@[tid as int] is Some,
        ensures
            Some(*t) == self.tasks@[tid as int],
    {
        self.tasks[tid].as_ref().unwrap()
    }
}

/// Process Control Block
pub struct ProcessControlBlock {
    /// immutable
    pub pid: PidHandle,
    /// mutable
    inner: ProcessControlBlockInner,
}

impl ProcessControlBlock {
    /// The mutable part of the process.
    pub closed spec fn inner_view(&self) -> ProcessControlBlockInner {
        self.inner
    }

    /// The process id.
    pub closed spec fn pid_view(&self) -> usize {
        self.pid.0
    }

    /// inner_exclusive_access
    pub fn inner_exclusive_access(&mut self) -> (inner: &mut ProcessControlBlockInner)
        ensures
            *inner == old(self).inner_view(),
            final(self).inner_view() == *final(inner),
            final(self).pid_view() == old(self).pid_view(),
    {
        &mut self.inner
    }

    /// get pid
    pub fn getpid(&self) -> (pid: usize)
        ensures
            pid == self.pid_view(),
    {
        self.pid.0
    }
}

// ---------------------------------------------------------------------------
// The argument block that `exec` places on the user stack.

/// The bytes of an argument string.
pub open spec fn arg_bytes(s: String) -> Seq<u8> {
    vstd::utf8::encode_utf8(s@)
}

/// The bytes of each argument string.
pub open spec fn args_bytes(args: Seq<String>) -> Seq<Seq<u8>> {
    args.map_values(|s: String| arg_bytes(s))
}

/// The argument strings as they lie on the stack, lowest address first:
/// the last argument lowest, each followed by a zero byte.
pub open spec fn strings_image(a: Seq<Seq<u8>>) -> Seq<u8>
    decreases a.len(),
{
    if a.len() == 0 {
        Seq::empty()
    } else {
        a.last() + seq![0u8] + strings_image(a.drop_last())
    }
}

/// The first `k` argument pointers below which the strings lie: pointer
/// `j` holds the address of argument `j`, which is `base` less the room of
/// arguments `0..=j`.
pub open spec fn pointers_image(base: int, a: Seq<Seq<u8>>, k: nat) -> Seq<u8>
    decreases k,
{
    if k == 0 {
        Seq::empty()
    } else {
        pointers_image(base, a, (k - 1) as nat) + word_bytes(
            (base - strings_image(a.take(k as int)).len()) as u64,
        )
    }
}

/// Where the argument pointers start, below a stack top `top`.
pub open spec fn argv_base(top: int, n: nat) -> int {
    top - 8 * (n + 1)
}

/// The whole argument block, from its lowest address up to the stack top:
/// the strings, the pointers to them, and a null pointer.
pub open spec fn stack_image(top: int, a: Seq<Seq<u8>>) -> Seq<u8> {
    strings_image(a) + pointers_image(argv_base(top, a.len()), a, a.len()) + word_bytes(0)
}

/// The lowest address of the argument block.
pub open spec fn args_low(top: int, a: Seq<Seq<u8>>) -> int {
    argv_base(top, a.len()) - strings_image(a).len()
}

/// The user stack pointer a program starts with: the lowest address of the
/// argument block rounded down to a multiple of eight.
pub open spec fn initial_sp(top: int, a: Seq<Seq<u8>>) -> int {
    args_low(top, a) - args_low(top, a) % 8
}

/// The stack pointer a program starts with is a multiple of eight, at most
/// seven bytes below the argument block.
pub proof fn lemma_initial_sp_aligned(top: int, a: Seq<Seq<u8>>)
    requires
        args_low(top, a) >= 0,
    ensures
        initial_sp(top, a) % 8 == 0,
        initial_sp(top, a) <= args_low(top, a) < initial_sp(top, a) + 8,
{
}

proof fn lemma_pointers_len(base: int, a: Seq<Seq<u8>>, k: nat)
    ensures
        pointers_image(base, a, k).len() == 8 * k,
    decreases k,
{
    if k > 0 {
        lemma_pointers_len(base, a, (k - 1) as nat);
    }
}

proof fn lemma_strings_take_step(a: Seq<Seq<u8>>, k: int)
    requires
        1 <= k <= a.len(),
    ensures
        strings_image(a.take(k)) == a[k - 1] + seq![0u8] + strings_image(a.take(k - 1)),
        strings_image(a.take(k)).len() == strings_image(a.take(k - 1)).len() + a[k - 1].len() + 1,
{
    assert(a.take(k).drop_last() =~= a.take(k - 1));
    assert(a.take(k).last() == a[k - 1]);
}

proof fn lemma_strings_len_mono(a: Seq<Seq<u8>>, k: int)
    requires
        0 <= k <= a.len(),
    ensures
        strings_image(a.take(k)).len() <= strings_image(a).len(),
    decreases a.len() - k,
{
    if k == a.len() {
        assert(a.take(k) =~= a);
    } else {
        lemma_strings_take_step(a, k + 1);
        lemma_strings_len_mono(a, k + 1);
    }
}

/// Appends the bytes of `b`.
fn push_bytes(v: &mut Vec<u8>, b: &[u8])
    ensures
        final(v)@ == old(v)@ + b@,
{
    let mut i: usize = 0;
    while i < b.len()
        invariant
            i <= b.len(),
            v@ == old(v)@ + b@.take(i as int),
        decreases b.len() - i,
    {
        v.push(b[i]);
        proof {
            assert(b@.take(i + 1) =~= b@.take(i as int).push(b@[i as int]));
        }
        i += 1;
    }
    assert(b@.take(b.len() as int) =~= b@);
}

/// The argument block for `args` whose pointers start at `base`.
fn build_stack_image(args: &Vec<String>, base: usize) -> (img: Vec<u8>)
    requires
        strings_image(args_bytes(args@)).len() <= base,
    ensures
        img@ == strings_image(args_bytes(args@)) + pointers_image(base as int, args_bytes(args@), args@.len())
            + word_bytes(0),
{
    let ghost a = args_bytes(args@);
    let n = args.len();
    let mut img: Vec<u8> = Vec::new();
    let mut k = n;
    proof {
        assert(a.take(n as int) =~= a);
    }
    while k > 0
        invariant
            k <= n,
            n == args.len(),
            a == args_bytes(args@),
            img@ + strings_image(a.take(k as int)) == strings_image(a),
            strings_image(a).len() <= base,
        decreases k,
    {
        let bytes = args[k - 1].as_str().as_bytes();
        proof {
            lemma_strings_take_step(a, k as int);
            assert(bytes@ == a[k - 1]);
        }
        push_bytes(&mut img, bytes);
        img.push(0);
        proof {
            assert(img@ + strings_image(a.take(k - 1)) =~= strings_image(a));
        }
        k -= 1;
    }
    proof {
        assert(a.take(0) =~= Seq::<Seq<u8>>::empty());
        assert(img@ =~= strings_image(a));
    }
    let mut cur = base;
    let mut i: usize = 0;
    while i < n
        invariant
            i <= n,
            n == args.len(),
            a == args_bytes(args@),
            strings_image(a).len() <= base,
            cur as int == base - strings_image(a.take(i as int)).len(),
            img@ == strings_image(a) + pointers_image(base as int, a, i as nat),
        decreases n - i,
    {
        let len = args[i].as_str().as_bytes().len();
        proof {
            lemma_strings_take_step(a, i + 1);
            lemma_strings_len_mono(a, i + 1);
            assert(len == a[i as int].len());
        }
        cur = cur - (len + 1);
        push_word(&mut img, cur as u64);
        proof {
            assert(img@ =~= strings_image(a) + pointers_image(base as int, a, (i + 1) as nat));
        }
        i += 1;
    }
    push_word(&mut img, 0);
    img
}

/// The pages of the main thread's user stack above `ustack_base`.
pub open spec fn stack_pages(ustack_base: usize) -> (int, int) {
    (vpn_of(ustack_base), ceil_page(va_of((ustack_base + USER_STACK_SIZE) as usize)))
}

/// The page of the main thread's trap context.
pub open spec fn trap_cx_pages() -> (int, int) {
    (vpn_of(TRAP_CONTEXT_BASE), ceil_page(va_of(TRAMPOLINE)))
}

/// Whether `t` is `before` with the user stack at `ustack_base` and the
/// trap context a new program starts from.
pub open spec fn exec_task(
    before: TaskControlBlock,
    t: TaskControlBlock,
    ustack_base: usize,
    entry_point: usize,
    args: Seq<String>,
    kernel_satp: usize,
    trap_handler: usize,
) -> bool {
    let top = ustack_base + USER_STACK_SIZE;
    let a = args_bytes(args);
    &&& t.ustack_base == ustack_base
    &&& t.trap_cx.sepc == entry_point
    &&& t.trap_cx.x@[2] == initial_sp(top, a)
    &&& t.trap_cx.x@[10] == args.len()
    &&& t.trap_cx.x@[11] == argv_base(top, a.len())
    &&& forall|i: int| 0 <= i < 32 && i != 2 && i != 10 && i != 11 ==> t.trap_cx.x@[i] == 0
    &&& t.trap_cx.kernel_satp == kernel_satp
    &&& t.trap_cx.kernel_sp == before.kstack_top
    &&& t.trap_cx.trap_handler == trap_handler
    &&& t.task_status == before.task_status
    &&& t.task_cx == before.task_cx
    &&& t.kstack_top == before.kstack_top
    &&& t.task_syscall_trace == before.task_syscall_trace
    &&& t.memory_set == before.memory_set
    &&& t.heap_bottom == before.heap_bottom
    &&& t.program_brk == before.program_brk
}

/// After `exec` the main thread traps into the kernel on its own kernel
/// stack and through the given trap handler: its saved kernel stack pointer
/// is the top of its kernel stack, its trap handler the one `exec` was
/// given, and it resumes at the program's entry point with the kernel's
/// page table.
pub proof fn lemma_exec_trap_context(
    before: TaskControlBlock,
    t: TaskControlBlock,
    ustack_base: usize,
    entry_point: usize,
    args: Seq<String>,
    kernel_satp: usize,
    trap_handler: usize,
)
    requires
        exec_task(before, t, ustack_base, entry_point, args, kernel_satp, trap_handler),
    ensures
        t.trap_cx.kernel_sp == t.kstack_top,
        t.kstack_top == before.kstack_top,
        t.trap_cx.trap_handler == trap_handler,
        t.trap_cx.sepc == entry_point,
        t.trap_cx.kernel_satp == kernel_satp,
{
}

proof fn lemma_stack_translatable(ms: MemorySet, base: usize, low: int, len: int)
    requires
        base <= low,
        low + len == base + USER_STACK_SIZE,
        0 <= len,
        base + USER_STACK_SIZE < VA_SPACE,
        base + USER_STACK_SIZE <= usize::MAX,
        ms.range_mapped(stack_pages(base).0 as usize, stack_pages(base).1 as usize),
    ensures
        forall|i: int| 0 <= i < len ==> #[trigger] ms.mapped(vpn_of((low + i) as usize) as usize),
{
    let (a, b) = stack_pages(base);
    assert(va_of(base) == base);
    assert(va_of((base + USER_STACK_SIZE) as usize) == base + USER_STACK_SIZE);
    assert forall|i: int| 0 <= i < len implies #[trigger] ms.mapped(vpn_of((low + i) as usize) as usize) by {
        let x = (low + i) as usize;
        assert(va_of(x) == x);
        let top = base + USER_STACK_SIZE;
        assert(a <= x / 4096 < b) by (nonlinear_arith)
            requires
                base <= x < top,
                a == base / 4096,
                b == ceil_page(top),
                top > 0,
                b == (top - 1) / 4096 + 1,
        {
        }
    }
}

/// The argument block written to distinct places reads back byte by byte.
proof fn lemma_block_reads_back(
    ms: MemorySet,
    fs: RecycleState,
    before: Map<(usize, usize), u8>,
    after: Map<(usize, usize), u8>,
    low: usize,
    image: Seq<u8>,
)
    requires
        ms.owns_frames(fs),
        low + image.len() < VA_SPACE,
        low + image.len() <= usize::MAX,
        forall|i: int| 0 <= i < image.len() ==> #[trigger] ms.mapped(vpn_of((low + i) as usize) as usize),
        after == crate::mm::write_user_bytes(ms.entries(), before, low, image),
    ensures
        forall|i: int| 0 <= i < image.len() ==> byte_at(after, pos_at(ms.entries(), low, i).0, pos_at(ms.entries(), low, i).1)
            == #[trigger] image[i],
{
    assert forall|i: int, j: int| 0 <= i < image.len() && 0 <= j < image.len() && i != j implies
        #[trigger] pos_at(ms.entries(), low, i) != #[trigger] pos_at(ms.entries(), low, j) by {
        assert(ms.mapped(vpn_of((low + i) as usize) as usize));
        assert(ms.mapped(vpn_of((low + j) as usize) as usize));
        lemma_phys_pos_injective(ms, fs, (low + i) as usize, (low + j) as usize);
    }
    assert forall|i: int| 0 <= i < image.len() implies byte_at(after, pos_at(ms.entries(), low, i).0, pos_at(ms.entries(), low, i).1)
        == #[trigger] image[i] by {
        lemma_write_user_bytes_read(ms.entries(), before, low, image, i);
    }
}

/// The frames of the new stack and trap-context pages are the ones the two
/// mappings handed out.
proof fn lemma_fresh_frames(
    ms: MemorySet,
    f1: RecycleState,
    f2: RecycleState,
    ss: usize,
    se: usize,
    ts: usize,
    te: usize,
)
    requires
        ss <= se <= ts <= te,
        forall|v: usize| ss <= v < se ==> #[trigger] ms.mapped(v) && ms.entries()[v].ppn == crate::mm::nth_frame(f1, (v - ss) as nat),
        forall|v: usize| ts <= v < te ==> #[trigger] ms.mapped(v) && ms.entries()[v].ppn == crate::mm::nth_frame(f2, (v - ts) as nat),
    ensures
        Set::new(|p: usize| exists|v: usize| ((ss <= v < se) || (ts <= v < te)) && #[trigger] ms.mapped(v) && ms.entries()[v].ppn == p)
            == crate::mm::handed_out(f1, (se - ss) as nat) + crate::mm::handed_out(f2, (te - ts) as nat),
{
    let fresh = Set::new(|p: usize| exists|v: usize| ((ss <= v < se) || (ts <= v < te)) && #[trigger] ms.mapped(v) && ms.entries()[v].ppn == p);
    let scount = (se - ss) as nat;
    let tcount = (te - ts) as nat;
    let h = crate::mm::handed_out(f1, scount) + crate::mm::handed_out(f2, tcount);
    assert forall|p: usize| fresh.contains(p) implies h.contains(p) by {
        let v = choose|v: usize| ((ss <= v < se) || (ts <= v < te)) && #[trigger] ms.mapped(v) && ms.entries()[v].ppn == p;
        if ss <= v < se {
            assert(crate::mm::nth_frame(f1, (v - ss) as nat) == p);
            assert(crate::mm::handed_out(f1, scount).contains(p));
        } else {
            assert(crate::mm::nth_frame(f2, (v - ts) as nat) == p);
            assert(crate::mm::handed_out(f2, tcount).contains(p));
        }
    }
    assert forall|p: usize| h.contains(p) implies fresh.contains(p) by {
        if crate::mm::handed_out(f1, scount).contains(p) {
            let k = choose|k: nat| k < scount && #[trigger] crate::mm::nth_frame(f1, k) == p;
            let v = (ss + k) as usize;
            assert(ms.mapped(v));
        } else {
            let k = choose|k: nat| k < tcount && #[trigger] crate::mm::nth_frame(f2, k) == p;
            let v = (ts + k) as usize;
            assert(ms.mapped(v));
        }
    }
    assert(fresh =~= h);
}


/// The frames that the pages `ss..se` and `ts..te` of `ms` map to.
pub open spec fn frames_of_pages(ms: MemorySet, ss: int, se: int, ts: int, te: int) -> Set<usize> {
    Set::new(|p: usize| exists|v: usize| ((ss <= v < se) || (ts <= v < te)) && #[trigger] ms.mapped(v) && ms.entries()[v].ppn == p)
}

/// Maps the main thread's user stack above `ustack_base` (readable,
/// writable, user) and its trap-context page (readable, writable) to fresh
/// cleared frames.
fn alloc_user_res(ms: &mut MemorySet, frames: &mut FrameAllocator, mem: &mut PhysMemory, ustack_base: usize)
    requires
        old(frames).wf(),
        old(ms).owns_frames(old(frames).state()),
        ustack_base + USER_STACK_SIZE < VA_SPACE,
        ustack_base + USER_STACK_SIZE <= usize::MAX,
        stack_pages(ustack_base).1 <= trap_cx_pages().0,
        old(ms).range_unmapped(stack_pages(ustack_base).0 as usize, stack_pages(ustack_base).1 as usize),
        old(ms).range_unmapped(trap_cx_pages().0 as usize, trap_cx_pages().1 as usize),
        old(frames).free() >= (stack_pages(ustack_base).1 - stack_pages(ustack_base).0) + (trap_cx_pages().1
            - trap_cx_pages().0),
    ensures
        ({
            let (ss, se) = stack_pages(ustack_base);
            let (ts, te) = trap_cx_pages();
            &&& ss <= se
            &&& final(frames).wf()
            &&& final(frames).end == old(frames).end
            &&& final(ms).root_ppn == old(ms).root_ppn
            &&& final(ms).owns_frames(final(frames).state())
            &&& forall|v: usize| ss <= v < se ==> #[trigger] final(ms).mapped(v)
                && final(ms).entries()[v].flags == leaf_flags(PTE_R | PTE_W | PTE_U)
                && !old(frames).state().in_use().contains(final(ms).entries()[v].ppn)
            &&& forall|v: usize| ts <= v < te ==> #[trigger] final(ms).mapped(v)
                && final(ms).entries()[v].flags == leaf_flags(PTE_R | PTE_W)
                && !old(frames).state().in_use().contains(final(ms).entries()[v].ppn)
            &&& forall|v: usize| !(ss <= v < se) && !(ts <= v < te) ==> (#[trigger] final(ms).entries().contains_key(v)
                == old(ms).entries().contains_key(v))
            &&& forall|v: usize| !(ss <= v < se) && !(ts <= v < te) && old(ms).entries().contains_key(v)
                ==> #[trigger] final(ms).entries()[v] == old(ms).entries()[v]
            &&& final(frames).state().in_use() == old(frames).state().in_use() + frames_of_pages(*final(ms), ss, se, ts, te)
            &&& forall|p: usize, o: usize| old(frames).state().in_use().contains(p) ==> #[trigger] final(mem).view_byte(p, o)
                == old(mem).view_byte(p, o)
        }),
{
    let ghost ms0 = *ms;
    let ghost f1 = frames.state();
    let ghost fa = *frames;
    let (ss, se) = user_stack_range(ustack_base);
    let (ts, te) = trap_cx_range();
    proof {
        crate::mm::lemma_alloc_n(fa, (se - ss) as nat);
    }
    ms.map_range(frames, mem, ss, se, PTE_R | PTE_W | PTE_U);
    let ghost ms1 = *ms;
    let ghost f2 = frames.state();
    let ghost fb = *frames;
    let ghost m1 = *mem;
    proof {
        lemma_still_unmapped(ms0, ms1, f1, ss, se, ts, te);
        crate::mm::lemma_alloc_n(fb, (te - ts) as nat);
    }
    ms.map_range(frames, mem, ts, te, PTE_R | PTE_W);
    proof {
        lemma_user_res_placed(ms0, ms1, *ms, f1, f2, frames.state(), *old(mem), m1, *mem, ss, se, ts, te);
    }
}

/// The pages of the main thread's user stack above `ustack_base`.
fn user_stack_range(ustack_base: usize) -> (r: (usize, usize))
    requires
        ustack_base + USER_STACK_SIZE < VA_SPACE,
        ustack_base + USER_STACK_SIZE <= usize::MAX,
    ensures
        r.0 as int == stack_pages(ustack_base).0,
        r.1 as int == stack_pages(ustack_base).1,
        r.0 <= r.1,
{
    let ustack_top = ustack_base + USER_STACK_SIZE;
    let ss = floor_vpn(virt_addr(ustack_base));
    let se = ceil_vpn(virt_addr(ustack_top));
    assert(ss <= se) by (nonlinear_arith)
        requires
            ss as int == va_of(ustack_base) / 4096,
            se as int == ceil_page(va_of(ustack_top)),
            va_of(ustack_base) == ustack_base,
            va_of(ustack_top) == ustack_top,
            ustack_base < ustack_top,
    {
    }
    (ss, se)
}

/// The page of the main thread's trap context.
fn trap_cx_range() -> (r: (usize, usize))
    ensures
        r.0 as int == trap_cx_pages().0,
        r.1 as int == trap_cx_pages().1,
        r.0 <= r.1,
{
    let ts = floor_vpn(virt_addr(TRAP_CONTEXT_BASE));
    let te = ceil_vpn(virt_addr(TRAP_CONTEXT_BASE + PAGE_SIZE));
    (ts, te)
}

/// Mapping the pages `ss..se` leaves the pages `ts..te` above them
/// unmapped.
proof fn lemma_still_unmapped(ms0: MemorySet, ms1: MemorySet, f: RecycleState, ss: usize, se: usize, ts: usize, te: usize)
    requires
        se <= ts,
        ms0.range_unmapped(ts, te),
        ms1.entries() == crate::mm::entries_after_map(ms0.entries(), f, ss, se, PTE_R | PTE_W | PTE_U),
    ensures
        ms1.range_unmapped(ts, te),
{
    assert forall|v: usize| ts <= v < te implies !#[trigger] ms1.mapped(v) by {
        assert(!ms0.mapped(v));
    }
}

/// What mapping the stack pages `ss..se` and then the trap-context pages
/// `ts..te` leaves: both ranges mapped with their flags to frames that were
/// free, every other entry as before, exactly the new frames added to those
/// in use, and the bytes of the frames in use before untouched.
proof fn lemma_user_res_placed(
    ms0: MemorySet,
    ms1: MemorySet,
    ms2: MemorySet,
    f1: RecycleState,
    f2: RecycleState,
    f3: RecycleState,
    m0: PhysMemory,
    m1: PhysMemory,
    m2: PhysMemory,
    ss: usize,
    se: usize,
    ts: usize,
    te: usize,
)
    requires
        ss <= se <= ts <= te,
        ms0.range_unmapped(ts, te),
        ms1.entries() == crate::mm::entries_after_map(ms0.entries(), f1, ss, se, PTE_R | PTE_W | PTE_U),
        ms2.entries() == crate::mm::entries_after_map(ms1.entries(), f2, ts, te, PTE_R | PTE_W),
        ms1.range_mapped(ss, se),
        ms2.range_mapped(ts, te),
        f2.in_use() == f1.in_use() + crate::mm::handed_out(f1, (se - ss) as nat),
        f3.in_use() == f2.in_use() + crate::mm::handed_out(f2, (te - ts) as nat),
        forall|k: nat| k < se - ss ==> !f1.in_use().contains(#[trigger] crate::mm::nth_frame(f1, k)),
        forall|k: nat| k < te - ts ==> !f2.in_use().contains(#[trigger] crate::mm::nth_frame(f2, k)),
        forall|p: usize, o: usize| !crate::mm::handed_out(f1, (se - ss) as nat).contains(p)
            ==> #[trigger] m1.view_byte(p, o) == m0.view_byte(p, o),
        forall|p: usize, o: usize| !crate::mm::handed_out(f2, (te - ts) as nat).contains(p)
            ==> #[trigger] m2.view_byte(p, o) == m1.view_byte(p, o),
    ensures
        forall|v: usize| ss <= v < se ==> #[trigger] ms2.mapped(v)
            && ms2.entries()[v].flags == leaf_flags(PTE_R | PTE_W | PTE_U)
            && !f1.in_use().contains(ms2.entries()[v].ppn),
        forall|v: usize| ts <= v < te ==> #[trigger] ms2.mapped(v)
            && ms2.entries()[v].flags == leaf_flags(PTE_R | PTE_W)
            && !f1.in_use().contains(ms2.entries()[v].ppn),
        forall|v: usize| !(ss <= v < se) && !(ts <= v < te) ==> (#[trigger] ms2.entries().contains_key(v)
            == ms0.entries().contains_key(v)),
        forall|v: usize| !(ss <= v < se) && !(ts <= v < te) && ms0.entries().contains_key(v)
            ==> #[trigger] ms2.entries()[v] == ms0.entries()[v],
        f3.in_use() == f1.in_use() + frames_of_pages(ms2, ss as int, se as int, ts as int, te as int),
        forall|p: usize, o: usize| f1.in_use().contains(p) ==> #[trigger] m2.view_byte(p, o) == m0.view_byte(p, o),
{
    assert forall|v: usize| ss <= v < se implies #[trigger] ms2.mapped(v)
        && ms2.entries()[v].flags == leaf_flags(PTE_R | PTE_W | PTE_U)
        && !f1.in_use().contains(ms2.entries()[v].ppn) by {
        assert(ms1.mapped(v));
        assert(ms2.entries()[v] == ms1.entries()[v]);
        assert(ms1.entries()[v].ppn == crate::mm::nth_frame(f1, (v - ss) as nat));
    }
    assert forall|v: usize| ts <= v < te implies #[trigger] ms2.mapped(v)
        && ms2.entries()[v].flags == leaf_flags(PTE_R | PTE_W)
        && !f1.in_use().contains(ms2.entries()[v].ppn) by {
        assert(ms2.entries()[v].ppn == crate::mm::nth_frame(f2, (v - ts) as nat));
        assert(!f2.in_use().contains(ms2.entries()[v].ppn));
    }
    assert forall|v: usize| ss <= v < se implies #[trigger] ms2.mapped(v)
        && ms2.entries()[v].ppn == crate::mm::nth_frame(f1, (v - ss) as nat) by {
        assert(ms1.mapped(v));
    }
    lemma_fresh_frames(ms2, f1, f2, ss, se, ts, te);
    assert(f3.in_use() =~= f1.in_use() + frames_of_pages(ms2, ss as int, se as int, ts as int, te as int));
    assert forall|p: usize, o: usize| f1.in_use().contains(p) implies #[trigger] m2.view_byte(p, o)
        == m0.view_byte(p, o) by {
        assert(!crate::mm::handed_out(f1, (se - ss) as nat).contains(p));
        assert(m1.view_byte(p, o) == m0.view_byte(p, o));
        assert(f2.in_use().contains(p));
        assert(!crate::mm::handed_out(f2, (te - ts) as nat).contains(p));
    }
}

impl ProcessControlBlock {
    /// Replaces the program of a single-threaded process: the address space
    /// becomes `memory_set` (as loading the program built it), the main
    /// thread gets a user stack at `ustack_base` and a trap-context page,
    /// the argument block for `args` is written below the stack top, and
    /// the main thread starts at `entry_point` with `argc` and `argv` in
    /// registers a0 and a1.
    pub fn exec(
        &mut self,
        frames: &mut FrameAllocator,
        mem: &mut PhysMemory,
        memory_set: MemorySet,
        ustack_base: usize,
        entry_point: usize,
        args: Vec<String>,
        kernel_satp: usize,
        trap_handler: usize,
    )
        requires
            old(self).inner_view().tasks.len() == 1,
            old(self).inner_view().tasks@[0] is Some,
            old(frames).wf(),
            old(self).inner_view().memory_set.owns_frames(old(frames).state()),
            memory_set.owns_frames(old(frames).state()),
            forall|v: usize, w: usize| #[trigger] old(self).inner_view().memory_set.mapped(v) && #[trigger] memory_set.mapped(w)
                ==> old(self).inner_view().memory_set.entries()[v].ppn != memory_set.entries()[w].ppn,
            ustack_base + USER_STACK_SIZE < VA_SPACE,
            ustack_base + USER_STACK_SIZE <= usize::MAX,
            stack_image((ustack_base + USER_STACK_SIZE) as int, args_bytes(args@)).len() <= USER_STACK_SIZE,
            stack_pages(ustack_base).1 <= trap_cx_pages().0,
            memory_set.range_unmapped(stack_pages(ustack_base).0 as usize, stack_pages(ustack_base).1 as usize),
            memory_set.range_unmapped(trap_cx_pages().0 as usize, trap_cx_pages().1 as usize),
            old(frames).free() + crate::mm::mapped_pages(old(self).inner_view().memory_set).len() >= (stack_pages(
                ustack_base,
            ).1 - stack_pages(ustack_base).0) + (trap_cx_pages().1 - trap_cx_pages().0),
        ensures
            final(self).pid_view() == old(self).pid_view(),
            final(frames).wf(),
            ({
                let i0 = old(self).inner_view();
                let i1 = final(self).inner_view();
                let (ss, se) = stack_pages(ustack_base);
                let (ts, te) = trap_cx_pages();
                let top = (ustack_base + USER_STACK_SIZE) as int;
                let image = stack_image(top, args_bytes(args@));
                let low = args_low(top, args_bytes(args@));
                &&& i1.tasks.len() == 1
                &&& i1.tasks@[0] matches Some(t) && exec_task(
                    i0.tasks@[0]->Some_0,
                    t,
                    ustack_base,
                    entry_point,
                    args@,
                    kernel_satp,
                    trap_handler,
                )
                &&& i1.tasks@[0] matches Some(t) && {
                    &&& t.trap_cx.sepc == entry_point
                    &&& t.trap_cx.kernel_satp == kernel_satp
                    &&& t.trap_cx.kernel_sp == i0.tasks@[0]->Some_0.kstack_top
                    &&& t.trap_cx.trap_handler == trap_handler
                    &&& t.kstack_top == i0.tasks@[0]->Some_0.kstack_top
                }
                &&& i1.memory_set.root_ppn == memory_set.root_ppn
                &&& i1.memory_set.owns_frames(final(frames).state())
                &&& forall|v: usize| ss <= v < se ==> #[trigger] i1.memory_set.mapped(v)
                    && i1.memory_set.entries()[v].flags == leaf_flags(PTE_R | PTE_W | PTE_U)
                &&& forall|v: usize| ts <= v < te ==> #[trigger] i1.memory_set.mapped(v)
                    && i1.memory_set.entries()[v].flags == leaf_flags(PTE_R | PTE_W)
                &&& forall|v: usize| !(ss <= v < se) && !(ts <= v < te) ==> (#[trigger] i1.memory_set.entries().contains_key(v)
                    == memory_set.entries().contains_key(v))
                &&& forall|v: usize| !(ss <= v < se) && !(ts <= v < te) && memory_set.entries().contains_key(v)
                    ==> #[trigger] i1.memory_set.entries()[v] == memory_set.entries()[v]
                &&& forall|i: int| 0 <= i < image.len() ==> byte_at(
                    final(mem).bytes@,
                    pos_at(i1.memory_set.entries(), low as usize, i).0,
                    pos_at(i1.memory_set.entries(), low as usize, i).1,
                ) == #[trigger] image[i]
                &&& final(frames).state().in_use() == (old(frames).state().in_use() - mapped_frames(i0.memory_set))
                    + Set::new(|p: usize| exists|v: usize| ((ss <= v < se) || (ts <= v < te)) && #[trigger] i1.memory_set.mapped(v) && i1.memory_set.entries()[v].ppn == p)
                &&& i1.fd_table == i0.fd_table
                &&& i1.parent == i0.parent
                &&& i1.children == i0.children
                &&& i1.is_zombie == i0.is_zombie
                &&& i1.exit_code == i0.exit_code
                &&& i1.signals == i0.signals
                &&& i1.task_res_allocator == i0.task_res_allocator
                &&& i1.mutex_list == i0.mutex_list
                &&& i1.semaphore_list == i0.semaphore_list
                &&& i1.condvar_list == i0.condvar_list
                &&& i1.deadlock_detect == i0.deadlock_detect
                &&& i1.mutex_deadlock_detect == i0.mutex_deadlock_detect
                &&& i1.semaphore_deadlock_detect == i0.semaphore_deadlock_detect
                &&& forall|p: usize, o: usize| (old(frames).state().in_use() - mapped_frames(i0.memory_set)).contains(p)
                    ==> #[trigger] final(mem).view_byte(p, o) == old(mem).view_byte(p, o)
            }),
    {
        let ghost i0 = self.inner;
        let ghost f0 = frames.state();
        proof {
            assert forall|w: usize| #[trigger] memory_set.mapped(w) implies !mapped_frames(i0.memory_set).contains(memory_set.entries()[w].ppn) by {
                if mapped_frames(i0.memory_set).contains(memory_set.entries()[w].ppn) {
                    let v = choose|v: usize| #[trigger] i0.memory_set.mapped(v) && i0.memory_set.page_table@[v].ppn == memory_set.entries()[w].ppn;
                    assert(i0.memory_set.mapped(v) && memory_set.mapped(w));
                }
            }
        }
        self.inner.memory_set.release_frames(frames);
        self.inner.memory_set = memory_set;
        let ghost f1 = frames.state();
        let mut task = self.inner.tasks[0].take().unwrap();
        task.ustack_base = ustack_base;
        alloc_user_res(&mut self.inner.memory_set, frames, mem, ustack_base);
        let ghost m2 = *mem;
        let (user_sp, argv_base) = push_args(&self.inner.memory_set, frames, mem, ustack_base, &args);
        let n = args.len();
        let mut trap_cx = TrapContext::app_init_context(entry_point, user_sp, kernel_satp, task.kstack_top, trap_handler);
        trap_cx.x[10] = n;
        trap_cx.x[11] = argv_base;
        task.trap_cx = trap_cx;
        self.inner.tasks.set(0, Some(task));
        proof {
            let (ss, se) = stack_pages(ustack_base);
            let (ts, te) = trap_cx_pages();
            let ms2 = self.inner.memory_set;
            assert forall|p: usize, o: usize| (f0.in_use() - mapped_frames(i0.memory_set)).contains(p)
                implies #[trigger] mem.view_byte(p, o) == old(mem).view_byte(p, o) by {
                assert(f1.in_use().contains(p));
                if range_frames(ms2, ss, se).contains(p) {
                    let v = choose|v: usize| ss <= v < se && #[trigger] ms2.mapped(v) && ms2.entries()[v].ppn == p;
                    assert(ms2.mapped(v));
                }
                assert(m2.view_byte(p, o) == old(mem).view_byte(p, o));
            }
            assert(frames.state().in_use() =~= (f0.in_use() - mapped_frames(i0.memory_set)) + frames_of_pages(
                ms2, ss, se, ts, te));
        }
    }
}

/// The frames that the pages `s..e` of `ms` map to.
pub open spec fn range_frames(ms: MemorySet, s: int, e: int) -> Set<usize> {
    Set::new(|p: usize| exists|v: usize| s <= v < e && #[trigger] ms.mapped(v) && ms.entries()[v].ppn == p)
}

/// Writes the argument block for `args` below the top of the user stack
/// at `ustack_base` in the address space `ms`, and gives the stack pointer
/// a program starts with and the address of the argument pointers.  Only
/// the frames of the stack pages are written.
fn push_args(ms: &MemorySet, frames: &FrameAllocator, mem: &mut PhysMemory, ustack_base: usize, args: &Vec<String>) -> (r: (
    usize,
    usize,
))
    requires
        ms.owns_frames(frames.state()),
        ustack_base + USER_STACK_SIZE < VA_SPACE,
        ustack_base + USER_STACK_SIZE <= usize::MAX,
        stack_image((ustack_base + USER_STACK_SIZE) as int, args_bytes(args@)).len() <= USER_STACK_SIZE,
        forall|v: usize| stack_pages(ustack_base).0 <= v < stack_pages(ustack_base).1 ==> #[trigger] ms.mapped(v),
    ensures
        ({
            let top = (ustack_base + USER_STACK_SIZE) as int;
            let a = args_bytes(args@);
            let image = stack_image(top, a);
            let low = args_low(top, a);
            &&& r.0 == initial_sp(top, a)
            &&& r.1 == argv_base(top, a.len())
            &&& forall|i: int| 0 <= i < image.len() ==> byte_at(
                final(mem).bytes@,
                pos_at(ms.entries(), low as usize, i).0,
                pos_at(ms.entries(), low as usize, i).1,
            ) == #[trigger] image[i]
            &&& forall|p: usize, o: usize| !range_frames(*ms, stack_pages(ustack_base).0, stack_pages(ustack_base).1).contains(p)
                ==> #[trigger] final(mem).view_byte(p, o) == old(mem).view_byte(p, o)
        }),
{
    let ghost m0 = *mem;
    let ghost a = args_bytes(args@);
    let ustack_top = ustack_base + USER_STACK_SIZE;
    proof {
        lemma_pointers_len(argv_base(ustack_top as int, a.len()), a, a.len());
    }
    let n = args.len();
    let argv_base = ustack_top - (n + 1) * 8;
    let image = build_stack_image(args, argv_base);
    let low = ustack_top - image.len();
    proof {
        lemma_stack_translatable(*ms, ustack_base, low as int, image.len() as int);
        assert forall|i: int| 0 <= i < image.len() implies ms.entries().contains_key(
            #[trigger] vpn_of((low + i) as usize) as usize) by {
            assert(ms.mapped(vpn_of((low + i) as usize) as usize));
        }
    }
    copy_to_user(ms, mem, low, &image);
    proof {
        let (ss, se) = stack_pages(ustack_base);
        lemma_block_reads_back(*ms, frames.state(), m0.bytes@, mem.bytes@, low, image@);
        assert forall|p: usize, o: usize| !range_frames(*ms, ss, se).contains(p)
            implies #[trigger] mem.view_byte(p, o) == m0.view_byte(p, o) by {
            assert forall|i: int| 0 <= i < image@.len() implies #[trigger] pos_at(ms.entries(), low, i).0 != p by {
                let v = vpn_of((low + i) as usize) as usize;
                assert(va_of((low + i) as usize) == low + i);
                assert(va_of(ustack_base) == ustack_base);
                assert(va_of(ustack_top) == ustack_top);
                assert(ss <= (low + i) / 4096 < se) by (nonlinear_arith)
                    requires
                        ustack_base <= low + i < ustack_top,
                        ss == ustack_base as int / 4096,
                        se == ceil_page(ustack_top as int),
                        se == (ustack_top - 1) as int / 4096 + 1,
                {
                }
                assert(ms.mapped(v));
            }
            crate::mm::lemma_write_user_bytes_other(ms.entries(), m0.bytes@, low, image@, p, o);
        }
    }
    (low - low % 8, argv_base)
}

/// The main thread of a new process: ready to run, entering the kernel's
/// trap return on its kernel stack, with user stack base `ustack_base` and
/// saved user registers `trap_cx`, no system call counted and no exit code.
/// A thread of a process uses the process's address space, so its own
/// address-space and heap fields stay empty: an address space with no
/// entries under root 0, and heap bounds 0.
fn main_thread(ustack_base: usize, kstack_top: usize, trap_return: usize, trap_cx: TrapContext) -> (t: TaskControlBlock)
    ensures
        t.task_status == TaskStatus::Ready,
        t.task_cx.ra == trap_return,
        t.task_cx.sp == kstack_top,
        t.ustack_base == ustack_base,
        t.kstack_top == kstack_top,
        t.trap_cx == trap_cx,
        forall|i: int| 0 <= i < 411 ==> t.task_syscall_trace@[i] == 0,
        t.memory_set.root_ppn == 0,
        t.memory_set.entries() == Map::<usize, crate::mm::PageTableEntry>::empty(),
        t.heap_bottom == 0,
        t.program_brk == 0,
        t.exit_code is None,
{
    TaskControlBlock {
        task_status: TaskStatus::Ready,
        task_cx: TaskContext::goto_trap_return(kstack_top, trap_return),
        task_syscall_trace: [0usize; 411],
        memory_set: MemorySet::new_bare(0),
        heap_bottom: 0,
        program_brk: 0,
        ustack_base,
        kstack_top,
        trap_cx,
        exit_code: None,
    }
}

/// A process that has just been created: no parent, no children, the
/// console as descriptors 0, 1 and 2 (or the table `fd_table`), no thread
/// yet and no deadlock detection.
fn fresh_inner(memory_set: MemorySet, parent: Option<usize>, fd_table: Vec<Option<FileObject>>, deadlock_detect: bool) -> (i: ProcessControlBlockInner)
    ensures
        i.is_zombie == false,
        i.memory_set == memory_set,
        i.parent == parent,
        i.children@ == Seq::<usize>::empty(),
        i.exit_code == 0,
        i.fd_table@ == fd_table@,
        i.signals == 0,
        i.tasks@ == Seq::<Option<TaskControlBlock>>::empty(),
        i.task_res_allocator@.current == 0,
        i.task_res_allocator@.recycled == Seq::<usize>::empty(),
        i.mutex_list@ == Seq::<Option<usize>>::empty(),
        i.semaphore_list@ == Seq::<Option<usize>>::empty(),
        i.condvar_list@ == Seq::<Option<usize>>::empty(),
        i.deadlock_detect == deadlock_detect,
        i.mutex_deadlock_detect@.wf(),
        i.mutex_deadlock_detect@ == crate::deadlock::empty_state(),
        i.semaphore_deadlock_detect@.wf(),
        i.semaphore_deadlock_detect@ == crate::deadlock::empty_state(),
{
    ProcessControlBlockInner {
        is_zombie: false,
        memory_set,
        parent,
        children: Vec::new(),
        exit_code: 0,
        fd_table,
        signals: 0,
        tasks: Vec::new(),
        task_res_allocator: RecycleAllocator::new(),
        mutex_list: Vec::new(),
        semaphore_list: Vec::new(),
        condvar_list: Vec::new(),
        deadlock_detect,
        mutex_deadlock_detect: DeadlockDetectData::default(),
        semaphore_deadlock_detect: DeadlockDetectData::default(),
    }
}

/// The pid table agrees with the pid allocator: each registered process
/// sits under its own pid, which the allocator counts as in use.
pub open spec fn pids_registered(table: Map<usize, Arc<ProcessControlBlock>>, pids: RecycleState) -> bool {
    forall|k: usize| #[trigger] table.contains_key(k) ==> table[k].pid_view() == k && pids.in_use().contains(k)
}

/// An empty pid table agrees with any pid allocator.
pub proof fn lemma_empty_table_registered(pids: RecycleState)
    ensures
        pids_registered(Map::<usize, Arc<ProcessControlBlock>>::empty(), pids),
{
}

/// Distinct live processes have distinct pids: the pid the allocator
/// hands out next belongs to no registered process, registering the new
/// process under it keeps the table in agreement with the allocator, and
/// two processes under different keys of such a table have different pids.
pub proof fn lemma_pids_distinct(table: Map<usize, Arc<ProcessControlBlock>>, pids: RecycleState, p: Arc<ProcessControlBlock>)
    requires
        pids.wf(),
        pids.can_alloc(),
        pids_registered(table, pids),
        p.pid_view() == pids.next_id(),
    ensures
        !table.contains_key(pids.next_id()),
        forall|k: usize| #[trigger] table.contains_key(k) ==> table[k].pid_view() != p.pid_view(),
        pids_registered(table.insert(pids.next_id(), p), pids.allocated()),
        forall|k1: usize, k2: usize| #[trigger] table.insert(pids.next_id(), p).contains_key(k1)
            && #[trigger] table.insert(pids.next_id(), p).contains_key(k2) && k1 != k2
            ==> table.insert(pids.next_id(), p)[k1].pid_view() != table.insert(pids.next_id(), p)[k2].pid_view(),
{
    crate::id::lemma_alloc_step(pids);
}

impl ProcessControlBlock {
    /// A new process running the program whose address space `memory_set`
    /// loading built, starting at `entry_point`: it gets the next pid from
    /// `pids`, the console as descriptors 0, 1 and 2, and a main thread
    /// (thread id 0) with a user stack at `ustack_base`, a trap-context
    /// page and the kernel stack whose top is `kstack_top`.  The process is
    /// registered in `pid2process` under its pid, and its main thread, as
    /// the pair (pid, thread id), joins the back of `ready_queue`.
    pub fn new(
        memory_set: MemorySet,
        ustack_base: usize,
        entry_point: usize,
        pids: &mut RecycleAllocator,
        frames: &mut FrameAllocator,
        mem: &mut PhysMemory,
        kstack_top: usize,
        kernel_satp: usize,
        trap_handler: usize,
        trap_return: usize,
        pid2process: &mut BTreeMap<usize, Arc<ProcessControlBlock>>,
        ready_queue: &mut VecDeque<(usize, usize)>,
    ) -> (p: Arc<Self>)
        requires
            old(pids)@.wf(),
            old(pids)@.can_alloc(),
            old(frames).wf(),
            memory_set.owns_frames(old(frames).state()),
            ustack_base + USER_STACK_SIZE < VA_SPACE,
            ustack_base + USER_STACK_SIZE <= usize::MAX,
            stack_pages(ustack_base).1 <= trap_cx_pages().0,
            memory_set.range_unmapped(stack_pages(ustack_base).0 as usize, stack_pages(ustack_base).1 as usize),
            memory_set.range_unmapped(trap_cx_pages().0 as usize, trap_cx_pages().1 as usize),
            old(frames).free() >= (stack_pages(ustack_base).1 - stack_pages(ustack_base).0) + (trap_cx_pages().1
                - trap_cx_pages().0),
        ensures
            p.pid_view() == old(pids)@.next_id(),
            final(pids)@ == old(pids)@.allocated(),
            final(pid2process)@ == old(pid2process)@.insert(p.pid_view(), p),
            pids_registered(old(pid2process)@, old(pids)@) ==> pids_registered(final(pid2process)@, final(pids)@),
            final(ready_queue)@ == old(ready_queue)@.push((p.pid_view(), 0usize)),
            final(frames).wf(),
            final(frames).end == old(frames).end,
            ({
                let i = p.inner_view();
                let (ss, se) = stack_pages(ustack_base);
                let (ts, te) = trap_cx_pages();
                &&& i.is_zombie == false
                &&& i.parent is None
                &&& i.children@ == Seq::<usize>::empty()
                &&& i.exit_code == 0
                &&& i.fd_table@ == seq![Some(FileObject::Stdin), Some(FileObject::Stdout), Some(FileObject::Stdout)]
                &&& i.signals == 0
                &&& i.mutex_list@ == Seq::<Option<usize>>::empty()
                &&& i.semaphore_list@ == Seq::<Option<usize>>::empty()
                &&& i.condvar_list@ == Seq::<Option<usize>>::empty()
                &&& i.deadlock_detect == false
                &&& i.mutex_deadlock_detect@ == crate::deadlock::empty_state()
                &&& i.semaphore_deadlock_detect@ == crate::deadlock::empty_state()
                &&& i.task_res_allocator@.wf()
                &&& i.task_res_allocator@.in_use() == Set::<usize>::empty().insert(0)
                &&& i.tasks.len() == 1
                &&& i.tasks@[0] matches Some(t) && {
                    &&& t.task_status == TaskStatus::Ready
                    &&& t.task_cx.ra == trap_return
                    &&& t.task_cx.sp == kstack_top
                    &&& t.ustack_base == ustack_base
                    &&& t.kstack_top == kstack_top
                    &&& t.trap_cx.sepc == entry_point
                    &&& t.trap_cx.x@[2] == ustack_base + USER_STACK_SIZE
                    &&& forall|r: int| 0 <= r < 32 && r != 2 ==> t.trap_cx.x@[r] == 0
                    &&& t.trap_cx.kernel_satp == kernel_satp
                    &&& t.trap_cx.kernel_sp == kstack_top
                    &&& t.trap_cx.trap_handler == trap_handler
                    &&& forall|k: int| 0 <= k < 411 ==> t.task_syscall_trace@[k] == 0
                    &&& t.exit_code is None
                }
                &&& i.memory_set.root_ppn == memory_set.root_ppn
                &&& i.memory_set.owns_frames(final(frames).state())
                &&& forall|v: usize| ss <= v < se ==> #[trigger] i.memory_set.mapped(v)
                    && i.memory_set.entries()[v].flags == leaf_flags(PTE_R | PTE_W | PTE_U)
                    && !old(frames).state().in_use().contains(i.memory_set.entries()[v].ppn)
                &&& forall|v: usize| ts <= v < te ==> #[trigger] i.memory_set.mapped(v)
                    && i.memory_set.entries()[v].flags == leaf_flags(PTE_R | PTE_W)
                    && !old(frames).state().in_use().contains(i.memory_set.entries()[v].ppn)
                &&& forall|v: usize| !(ss <= v < se) && !(ts <= v < te) ==> (#[trigger] i.memory_set.entries().contains_key(v)
                    == memory_set.entries().contains_key(v))
                &&& forall|v: usize| !(ss <= v < se) && !(ts <= v < te) && memory_set.entries().contains_key(v)
                    ==> #[trigger] i.memory_set.entries()[v] == memory_set.entries()[v]
                &&& final(frames).state().in_use() == old(frames).state().in_use() + Set::new(
                    |p: usize| exists|v: usize| ((ss <= v < se) || (ts <= v < te)) && #[trigger] i.memory_set.mapped(v)
                        && i.memory_set.entries()[v].ppn == p,
                )
                &&& forall|p: usize, o: usize| old(frames).state().in_use().contains(p) ==> #[trigger] final(mem).view_byte(p, o)
                    == old(mem).view_byte(p, o)
            }),
    {
        let ghost ms0 = memory_set;
        let pid = pids.alloc_id();
        let mut fd_table: Vec<Option<FileObject>> = Vec::new();
        fd_table.push(Some(FileObject::Stdin));
        fd_table.push(Some(FileObject::Stdout));
        fd_table.push(Some(FileObject::Stdout));
        let mut inner = fresh_inner(memory_set, None, fd_table, false);
        let ustack_top = ustack_base + USER_STACK_SIZE;
        alloc_user_res(&mut inner.memory_set, frames, mem, ustack_base);
        proof {
            crate::id::lemma_alloc_step(inner.task_res_allocator@);
        }
        let tid = inner.alloc_tid();
        let trap_cx = TrapContext::app_init_context(entry_point, ustack_top, kernel_satp, kstack_top, trap_handler);
        inner.tasks.push(Some(main_thread(ustack_base, kstack_top, trap_return, trap_cx)));
        proof {
            assert(inner.task_res_allocator@.in_use() =~= Set::<usize>::empty().insert(0));
            assert(inner.fd_table@ =~= seq![Some(FileObject::Stdin), Some(FileObject::Stdout), Some(FileObject::Stdout)]);
        }
        let process = Arc::new(ProcessControlBlock { pid: PidHandle(pid), inner });
        proof {
            if pids_registered(old(pid2process)@, old(pids)@) {
                lemma_pids_distinct(old(pid2process)@, old(pids)@, process);
            }
        }
        pid2process.insert(pid, Arc::clone(&process));
        ready_queue.push_back((pid, tid));
        process
    }

    /// A copy of a single-threaded process: a new pid from `pids`, a copy
    /// of the address space in frames of its own, the same open files and
    /// deadlock-detection setting, no locks, and a main thread that resumes
    /// where the parent's does, on the kernel stack whose top is
    /// `kstack_top`.  The parent records the child, the child is registered
    /// in `pid2process` under its pid, and its main thread, as the pair
    /// (pid, thread id), joins the back of `ready_queue`.
    pub fn fork(
        &mut self,
        pids: &mut RecycleAllocator,
        frames: &mut FrameAllocator,
        mem: &mut PhysMemory,
        kstack_top: usize,
        trap_return: usize,
        pid2process: &mut BTreeMap<usize, Arc<ProcessControlBlock>>,
        ready_queue: &mut VecDeque<(usize, usize)>,
    ) -> (child: Arc<Self>)
        requires
            old(self).inner_view().tasks.len() == 1,
            old(self).inner_view().tasks@[0] is Some,
            old(self).inner_view().children.len() < usize::MAX,
            old(pids)@.wf(),
            old(pids)@.can_alloc(),
            old(frames).wf(),
            old(self).inner_view().memory_set.owns_frames(old(frames).state()),
            old(frames).free() >= old(self).inner_view().memory_set.page_table@.dom().filter(
                |v: usize| old(self).inner_view().memory_set.mapped(v),
            ).len() + 1,
        ensures
            child.pid_view() == old(pids)@.next_id(),
            final(pids)@ == old(pids)@.allocated(),
            final(pid2process)@ == old(pid2process)@.insert(child.pid_view(), child),
            pids_registered(old(pid2process)@, old(pids)@) ==> pids_registered(final(pid2process)@, final(pids)@),
            final(ready_queue)@ == old(ready_queue)@.push((child.pid_view(), 0usize)),
            final(frames).wf(),
            final(frames).end == old(frames).end,
            final(self).pid_view() == old(self).pid_view(),
            ({
                let p0 = old(self).inner_view();
                let p1 = final(self).inner_view();
                let c = child.inner_view();
                let pt = p0.tasks@[0]->Some_0;
                &&& p1.children@ == p0.children@.push(child.pid_view())
                &&& p1.memory_set == p0.memory_set
                &&& p1.tasks == p0.tasks
                &&& p1.fd_table == p0.fd_table
                &&& p1.is_zombie == p0.is_zombie
                &&& p1.parent == p0.parent
                &&& p1.exit_code == p0.exit_code
                &&& p1.signals == p0.signals
                &&& p1.task_res_allocator == p0.task_res_allocator
                &&& p1.mutex_list == p0.mutex_list
                &&& p1.semaphore_list == p0.semaphore_list
                &&& p1.condvar_list == p0.condvar_list
                &&& p1.deadlock_detect == p0.deadlock_detect
                &&& p1.mutex_deadlock_detect == p0.mutex_deadlock_detect
                &&& p1.semaphore_deadlock_detect == p0.semaphore_deadlock_detect
                &&& p1.memory_set.owns_frames(final(frames).state())
                &&& c.is_zombie == false
                &&& c.parent == Some(old(self).pid_view())
                &&& c.children@ == Seq::<usize>::empty()
                &&& c.exit_code == 0
                &&& c.fd_table@ == p0.fd_table@
                &&& c.signals == 0
                &&& c.mutex_list@ == Seq::<Option<usize>>::empty()
                &&& c.semaphore_list@ == Seq::<Option<usize>>::empty()
                &&& c.condvar_list@ == Seq::<Option<usize>>::empty()
                &&& c.deadlock_detect == p0.deadlock_detect
                &&& c.mutex_deadlock_detect@ == crate::deadlock::empty_state()
                &&& c.semaphore_deadlock_detect@ == crate::deadlock::empty_state()
                &&& c.task_res_allocator@.wf()
                &&& c.task_res_allocator@.in_use() == Set::<usize>::empty().insert(0)
                &&& copies_pages(p0.memory_set, c.memory_set)
                &&& c.memory_set.owns_frames(final(frames).state())
                &&& !old(frames).state().in_use().contains(c.memory_set.root_ppn)
                &&& forall|v: usize| #[trigger] c.memory_set.mapped(v) ==> !old(frames).state().in_use().contains(
                    c.memory_set.entries()[v].ppn,
                )
                &&& forall|v: usize, w: usize| #[trigger] p0.memory_set.mapped(v) && #[trigger] c.memory_set.mapped(w)
                    ==> p0.memory_set.entries()[v].ppn != c.memory_set.entries()[w].ppn
                &&& final(frames).state().in_use() == old(frames).state().in_use().insert(c.memory_set.root_ppn)
                    + mapped_frames(c.memory_set)
                &&& forall|p: usize, o: usize| old(frames).state().in_use().contains(p) ==> #[trigger] final(mem).view_byte(p, o)
                    == old(mem).view_byte(p, o)
                &&& forall|v: usize, o: usize| #[trigger] p0.memory_set.mapped(v) && o < PAGE_SIZE ==> #[trigger] final(mem).view_byte(
                    c.memory_set.entries()[v].ppn,
                    o,
                ) == old(mem).view_byte(p0.memory_set.entries()[v].ppn, o)
                &&& c.tasks.len() == 1
                &&& c.tasks@[0] matches Some(t) && {
                    &&& t.task_status == TaskStatus::Ready
                    &&& t.task_cx.ra == trap_return
                    &&& t.task_cx.sp == kstack_top
                    &&& t.ustack_base == pt.ustack_base
                    &&& t.kstack_top == kstack_top
                    &&& t.trap_cx == (TrapContext { kernel_sp: kstack_top, ..pt.trap_cx })
                    &&& forall|k: int| 0 <= k < 411 ==> t.task_syscall_trace@[k] == 0
                    &&& t.exit_code is None
                }
            }),
    {
        let memory_set = MemorySet::from_existed_user(&self.inner.memory_set, frames, mem);
        let pid = pids.alloc_id();
        let mut new_fd_table: Vec<Option<FileObject>> = Vec::new();
        let mut i: usize = 0;
        while i < self.inner.fd_table.len()
            invariant
                i <= self.inner.fd_table.len(),
                new_fd_table@ == self.inner.fd_table@.take(i as int),
            decreases self.inner.fd_table.len() - i,
        {
            if let Some(file) = &self.inner.fd_table[i] {
                new_fd_table.push(Some(*file));
            } else {
                new_fd_table.push(None);
            }
            proof {
                assert(self.inner.fd_table@.take(i + 1) =~= self.inner.fd_table@.take(i as int).push(self.inner.fd_table@[i as int]));
            }
            i += 1;
        }
        proof {
            assert(self.inner.fd_table@.take(self.inner.fd_table.len() as int) =~= self.inner.fd_table@);
        }
        let mut inner = fresh_inner(memory_set, Some(self.pid.0), new_fd_table, self.inner.deadlock_detect);
        self.inner.children.push(pid);
        proof {
            crate::id::lemma_alloc_step(inner.task_res_allocator@);
        }
        let tid = inner.alloc_tid();
        let parent_task = self.inner.get_task(0);
        let mut trap_cx = parent_task.trap_cx;
        trap_cx.kernel_sp = kstack_top;
        inner.tasks.push(Some(main_thread(parent_task.ustack_base, kstack_top, trap_return, trap_cx)));
        proof {
            assert(inner.task_res_allocator@.in_use() =~= Set::<usize>::empty().insert(0));
            assert(mapped_frames(inner.memory_set) =~= Set::new(
                |p: usize| exists|v: usize| #[trigger] inner.memory_set.mapped(v) && inner.memory_set.entries()[v].ppn == p,
            ));
            assert forall|v: usize, w: usize| #[trigger] self.inner.memory_set.mapped(v) && #[trigger] inner.memory_set.mapped(w)
                implies self.inner.memory_set.entries()[v].ppn != inner.memory_set.entries()[w].ppn by {
                assert(old(frames).state().in_use().contains(self.inner.memory_set.entries()[v].ppn));
            }
        }
        let child = Arc::new(ProcessControlBlock { pid: PidHandle(pid), inner });
        proof {
            if pids_registered(old(pid2process)@, old(pids)@) {
                lemma_pids_distinct(old(pid2process)@, old(pids)@, child);
            }
        }
        pid2process.insert(pid, Arc::clone(&child));
        ready_queue.push_back((pid, tid));
        child
    }
}

} // verus!
