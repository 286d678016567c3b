//! Process-management system calls.
use crate::config::{MAX_SYSCALL_NUM, MICRO_PER_SEC, PAGE_SIZE};
use crate::mm::{
    copy_to_user, phys_pos, user_range_translatable, write_user_bytes,
    byte_at, ceil_page, ceil_vpn, entries_after_map, entries_after_unmap, floor_vpn, offset_of,
    page_offset, virt_addr, va_of, vpn_of, lemma_map_then_unmap, valid_part, FrameAllocator, MemorySet, PageTableEntry, PhysMemory,
    PTE_R, PTE_U, PTE_W, PTE_X,
};
use crate::encode::{push_word, word_bytes};
use crate::task::{brk_can_move, heap_perm, new_brk, same_but_status, TaskManager};
use vstd::prelude::*;

verus! {

/// A time: seconds and microseconds.
#[derive(Debug)]
pub struct TimeVal {
    pub sec: usize,
    pub usec: usize,
}

/// The time `us` microseconds as seconds and microseconds.
pub open spec fn time_of(us: usize) -> TimeVal {
    TimeVal { sec: us / MICRO_PER_SEC, usec: us % MICRO_PER_SEC }
}

/// The time of `us` microseconds is whole seconds and the microseconds
/// left over, fewer than a second's worth.
pub proof fn lemma_time_of_splits(us: usize)
    ensures
        time_of(us).sec * 1_000_000 + time_of(us).usec == us,
        time_of(us).usec < 1_000_000,
{
    let a = us as int;
    assert(a / 1_000_000 * 1_000_000 + a % 1_000_000 == a && a % 1_000_000 < 1_000_000) by (nonlinear_arith)
        requires
            a >= 0,
    {
    }
}

/// A later reading of the clock never gives an earlier time: the time
/// written for `us1` is not later than that for `us2` when `us1 <= us2`.
pub proof fn lemma_time_monotone(us1: usize, us2: usize)
    requires
        us1 <= us2,
    ensures
        time_of(us1).not_later(time_of(us2)),
{
    let a = us1 as int;
    let b = us2 as int;
    assert(a / 1_000_000 < b / 1_000_000 || (a / 1_000_000 == b / 1_000_000 && a % 1_000_000 <= b % 1_000_000))
        by (nonlinear_arith)
        requires
            0 <= a <= b,
    {
    }
}

impl TimeVal {
    /// The in-memory layout: two 64-bit little-endian words.
    pub open spec fn bytes(self) -> Seq<u8> {
        word_bytes(self.sec as u64) + word_bytes(self.usec as u64)
    }

    /// `self` is not later than `other`: fewer seconds, or as many and no
    /// more microseconds.
    pub open spec fn not_later(self, other: TimeVal) -> bool {
        self.sec < other.sec || (self.sec == other.sec && self.usec <= other.usec)
    }

    /// Splits a time in microseconds into seconds and microseconds.
    pub fn from_us(us: usize) -> (tv: Self)
        ensures
            tv == time_of(us),
            tv.sec == us / MICRO_PER_SEC,
            tv.usec == us % MICRO_PER_SEC,
            tv.sec * MICRO_PER_SEC + tv.usec == us,
            tv.usec < MICRO_PER_SEC,
    {
        TimeVal { sec: us / MICRO_PER_SEC, usec: us % MICRO_PER_SEC }
    }

    /// The bytes of the in-memory layout.
    pub fn to_bytes(&self) -> (b: Vec<u8>)
        ensures
            b@ == self.bytes(),
    {
        let mut b: Vec<u8> = Vec::new();
        push_word(&mut b, self.sec as u64);
        push_word(&mut b, self.usec as u64);
        b
    }
}

// ---------------------------------------------------------------------------
// The system calls.

/// The running task ends and its exit code `exit_code` is recorded;
/// returns the task to switch to, or `None` when no task is left to run.
pub fn sys_exit(tm: &mut TaskManager, exit_code: i32) -> (next: Option<usize>)
    requires
        old(tm).wf(),
    ensures
        final(tm).wf(),
        final(tm).tasks.len() == old(tm).tasks.len(),
        ({
            let st = old(tm).status_view().update(old(tm).current_task as int, crate::task::TaskStatus::Exited);
            match crate::task::next_ready(st, old(tm).current_task as int) {
                Some(i) => next == Some(i as usize) && final(tm).current_task == i
                    && final(tm).status_view() == st.update(i, crate::task::TaskStatus::Running),
                None => next is None && final(tm).current_task == old(tm).current_task
                    && final(tm).status_view() == st,
            }
        }),
        forall|i: int| 0 <= i < final(tm).tasks.len() && i != old(tm).current_task ==> same_but_status(
            #[trigger] final(tm).tasks@[i],
            old(tm).tasks@[i],
        ),
        final(tm).tasks@[old(tm).current_task as int] == (crate::task::TaskControlBlock {
            task_status: crate::task::TaskStatus::Exited,
            exit_code: Some(exit_code),
            ..old(tm).tasks@[old(tm).current_task as int]
        }),
{
    let ghost cur = tm.current_task as int;
    let ghost st = tm.status_view().update(cur, crate::task::TaskStatus::Exited);
    let next = tm.exit_current_and_run_next(exit_code);
    proof {
        crate::task::lemma_next_ready_is_ready(st, cur);
        assert(tm.status_view()[cur] == tm.tasks@[cur].task_status);
    }
    next
}

/// The running task gives up the processor to the next ready task (itself
/// if no other is ready); returns 0.
pub fn sys_yield(tm: &mut TaskManager) -> (r: isize)
    requires
        old(tm).wf(),
    ensures
        r == 0,
        final(tm).wf(),
        ({
            let st = old(tm).status_view().update(old(tm).current_task as int, crate::task::TaskStatus::Ready);
            Some(final(tm).current_task as int) == crate::task::next_ready(st, old(tm).current_task as int)
                && final(tm).status_view() == st.update(final(tm).current_task as int, crate::task::TaskStatus::Running)
        }),
        final(tm).tasks.len() == old(tm).tasks.len(),
        forall|i: int| 0 <= i < final(tm).tasks.len() ==> same_but_status(
            #[trigger] final(tm).tasks@[i],
            old(tm).tasks@[i],
        ),
{
    tm.suspend_current_and_run_next();
    0
}

/// Number of bytes of a [`TimeVal`] in user memory.
pub const TIMEVAL_SIZE: usize = 16;

/// Writes the time `us` (in microseconds, as the timer reports it) as a
/// [`TimeVal`] to user address `ts` of the running task; returns 0.
pub fn sys_get_time(tm: &TaskManager, mem: &mut PhysMemory, ts: usize, us: usize) -> (r: isize)
    requires
        tm.wf(),
        ts + TIMEVAL_SIZE <= usize::MAX,
        user_range_translatable(tm.current().memory_set.entries(), ts, TIMEVAL_SIZE as nat),
    ensures
        r == 0,
        final(mem).bytes@ == write_user_bytes(
            tm.current().memory_set.entries(),
            old(mem).bytes@,
            ts,
            time_of(us).bytes(),
        ),
{
    let res = TimeVal::from_us(us);
    let bytes = res.to_bytes();
    copy_to_user(&tm.tasks[tm.current_task].memory_set, mem, ts, &bytes);
    0
}

/// The answer of the trace call for a task `t` and physical memory `m`:
/// request 2 counts calls of system call `id`; request 0 reads the user
/// byte at address `id`; request 1 writes `data` there; each access needs a
/// user page with the matching permission.
pub open spec fn trace_result(
    t: crate::task::TaskControlBlock,
    m: Map<(usize, usize), u8>,
    trace_request: usize,
    id: usize,
    data: usize,
) -> isize {
    if trace_request == 2 {
        t.task_syscall_trace@[id as int] as isize
    } else {
        let e = t.memory_set.entries();
        let vpn = vpn_of(id) as usize;
        if !e.contains_key(vpn) || !e[vpn].user() {
            -1isize
        } else if trace_request == 0 {
            if !e[vpn].read_ok() {
                -1isize
            } else {
                byte_at(m, e[vpn].ppn, offset_of(id) as usize) as isize
            }
        } else if trace_request == 1 {
            if !e[vpn].write_ok() {
                -1isize
            } else {
                0isize
            }
        } else {
            -1isize
        }
    }
}

/// Physical memory after the trace call.
pub open spec fn trace_memory(
    t: crate::task::TaskControlBlock,
    m: Map<(usize, usize), u8>,
    trace_request: usize,
    id: usize,
    data: usize,
) -> Map<(usize, usize), u8> {
    let e = t.memory_set.entries();
    let vpn = vpn_of(id) as usize;
    if trace_request == 1 && e.contains_key(vpn) && e[vpn].user() && e[vpn].write_ok() {
        m.insert((e[vpn].ppn, offset_of(id) as usize), data as u8)
    } else {
        m
    }
}

/// Reads or writes one byte of the running task's memory, or reports how
/// often it made a system call (see [`trace_result`]).
pub fn sys_trace(tm: &TaskManager, mem: &mut PhysMemory, trace_request: usize, id: usize, data: usize) -> (r: isize)
    requires
        tm.wf(),
        trace_request == 2 ==> id < MAX_SYSCALL_NUM,
    ensures
        r == trace_result(tm.current(), old(mem).bytes@, trace_request, id, data),
        final(mem).bytes@ == trace_memory(tm.current(), old(mem).bytes@, trace_request, id, data),
        ({
            let e = tm.current().memory_set.entries();
            let vpn = vpn_of(id) as usize;
            let pos = phys_pos(e, id);
            &&& trace_request == 0 && e.contains_key(vpn) && e[vpn].user() && e[vpn].read_ok() ==> r == byte_at(
                old(mem).bytes@,
                pos.0,
                pos.1,
            ) as isize
            &&& trace_request == 1 && e.contains_key(vpn) && e[vpn].user() && e[vpn].write_ok() ==> r == 0
                && final(mem).bytes@ == old(mem).bytes@.insert(pos, data as u8)
            &&& trace_request != 1 ==> final(mem).bytes@ == old(mem).bytes@
            &&& trace_request == 2 ==> r == tm.current().task_syscall_trace@[id as int] as isize
            &&& trace_request > 2 ==> r == -1
            &&& trace_request <= 1 && !(e.contains_key(vpn) && e[vpn].user()) ==> r == -1
                && final(mem).bytes@ == old(mem).bytes@
            &&& trace_request == 0 && e.contains_key(vpn) && !e[vpn].read_ok() ==> r == -1
            &&& trace_request == 1 && e.contains_key(vpn) && !e[vpn].write_ok() ==> r == -1
                && final(mem).bytes@ == old(mem).bytes@
        }),
{
    if trace_request == 2 {
        return tm.get_syscall_cnt(id) as isize;
    }
    let ms = &tm.tasks[tm.current_task].memory_set;
    let va = virt_addr(id);
    let vpn = floor_vpn(va);
    let pte = ms.translate(vpn);
    if pte.is_none() {
        return -1;
    }
    let pte = pte.unwrap();
    if !pte.user_accessible() {
        return -1;
    }
    if trace_request == 0 {
        if !pte.readable() {
            return -1;
        }
        mem.read_byte(pte.ppn, page_offset(va)) as isize
    } else if trace_request == 1 {
        if !pte.writable() {
            return -1;
        }
        mem.write_byte(pte.ppn, page_offset(va), data as u8);
        0
    } else {
        -1
    }
}

/// The trace call reaches the byte of user address `id` through the page
/// table: a read returns the byte at the translated place of `id`, and a
/// write stores `data` there and leaves every other place as it was.
pub proof fn lemma_trace_uses_translated_byte(
    t: crate::task::TaskControlBlock,
    m: Map<(usize, usize), u8>,
    id: usize,
    data: usize,
    unused: usize,
)
    requires
        t.memory_set.entries().contains_key(vpn_of(id) as usize),
        t.memory_set.entries()[vpn_of(id) as usize].user(),
    ensures
        ({
            let e = t.memory_set.entries();
            let pe = e[vpn_of(id) as usize];
            let pos = phys_pos(e, id);
            &&& pe.read_ok() ==> trace_result(t, m, 0, id, unused) == byte_at(m, pos.0, pos.1) as isize
            &&& pe.write_ok() ==> trace_result(t, m, 1, id, data) == 0
            &&& pe.write_ok() ==> byte_at(trace_memory(t, m, 1, id, data), pos.0, pos.1) == data as u8
            &&& pe.write_ok() ==> forall|p: usize, o: usize| (p, o) != pos ==> #[trigger] byte_at(
                trace_memory(t, m, 1, id, data),
                p,
                o,
            ) == byte_at(m, p, o)
        }),
{
}

/// Two trace writes to distinct user addresses of writable, readable user
/// pages both land: reading the first address afterwards gives the first
/// byte written.
pub proof fn lemma_trace_two_writes(
    t: crate::task::TaskControlBlock,
    fs: crate::id::RecycleState,
    m: Map<(usize, usize), u8>,
    a: usize,
    b: usize,
    da: usize,
    db: usize,
    unused: usize,
)
    requires
        t.memory_set.owns_frames(fs),
        a != b,
        (a as int) < crate::mm::VA_SPACE as int,
        (b as int) < crate::mm::VA_SPACE as int,
        t.memory_set.mapped(vpn_of(a) as usize),
        t.memory_set.mapped(vpn_of(b) as usize),
        t.memory_set.entries()[vpn_of(a) as usize].user(),
        t.memory_set.entries()[vpn_of(a) as usize].write_ok(),
        t.memory_set.entries()[vpn_of(a) as usize].read_ok(),
        t.memory_set.entries()[vpn_of(b) as usize].user(),
        t.memory_set.entries()[vpn_of(b) as usize].write_ok(),
    ensures
        trace_result(t, trace_memory(t, trace_memory(t, m, 1, a, da), 1, b, db), 0, a, unused) == (da as u8) as isize,
        trace_result(t, trace_memory(t, trace_memory(t, m, 1, a, da), 1, b, db), 0, b, unused)
            == if t.memory_set.entries()[vpn_of(b) as usize].read_ok() { (db as u8) as isize } else { -1isize },
{
    crate::mm::lemma_phys_pos_injective(t.memory_set, fs, a, b);
    let m1 = trace_memory(t, m, 1, a, da);
    lemma_trace_uses_translated_byte(t, m, a, da, unused);
    lemma_trace_uses_translated_byte(t, m1, b, db, unused);
    lemma_trace_uses_translated_byte(t, trace_memory(t, m1, 1, b, db), a, da, unused);
    lemma_trace_uses_translated_byte(t, trace_memory(t, m1, 1, b, db), b, db, unused);
    let pa = phys_pos(t.memory_set.entries(), a);
    assert(byte_at(trace_memory(t, m1, 1, b, db), pa.0, pa.1) == byte_at(m1, pa.0, pa.1));
}

/// After `sys_get_time` writes the time `us` at user address `ts`, a trace
/// read of address `ts + i` returns byte `i` of the time's layout.
pub proof fn lemma_trace_reads_time(
    t: crate::task::TaskControlBlock,
    fs: crate::id::RecycleState,
    m: Map<(usize, usize), u8>,
    ts: usize,
    us: usize,
    i: int,
    unused: usize,
)
    requires
        t.memory_set.owns_frames(fs),
        0 <= i < TIMEVAL_SIZE,
        ts + TIMEVAL_SIZE < crate::mm::VA_SPACE,
        ts + TIMEVAL_SIZE <= usize::MAX,
        forall|j: int| 0 <= j < TIMEVAL_SIZE ==> #[trigger] t.memory_set.mapped(vpn_of((ts + j) as usize) as usize),
        t.memory_set.entries()[vpn_of((ts + i) as usize) as usize].user(),
        t.memory_set.entries()[vpn_of((ts + i) as usize) as usize].read_ok(),
    ensures
        trace_result(
            t,
            write_user_bytes(t.memory_set.entries(), m, ts, time_of(us).bytes()),
            0,
            (ts + i) as usize,
            unused,
        ) == time_of(us).bytes()[i] as isize,
{
    let e = t.memory_set.entries();
    let bytes = time_of(us).bytes();
    assert(bytes.len() == 16);
    assert forall|j: int, k: int| 0 <= j < bytes.len() && 0 <= k < bytes.len() && j != k implies #[trigger] crate::mm::pos_at(
        e,
        ts,
        j,
    ) != #[trigger] crate::mm::pos_at(e, ts, k) by {
        assert(t.memory_set.mapped(vpn_of((ts + j) as usize) as usize));
        assert(t.memory_set.mapped(vpn_of((ts + k) as usize) as usize));
        assert((ts + j) as usize != (ts + k) as usize);
        crate::mm::lemma_phys_pos_injective(t.memory_set, fs, (ts + j) as usize, (ts + k) as usize);
    }
    crate::mm::lemma_write_user_bytes_read(e, m, ts, bytes, i);
    assert(t.memory_set.mapped(vpn_of((ts + i) as usize) as usize));
    lemma_trace_uses_translated_byte(t, write_user_bytes(e, m, ts, bytes), (ts + i) as usize, 0, unused);
}

/// Every page an `mmap` with protection `prot` maps is user accessible and
/// readable, writable, executable exactly as bits 0, 1 and 2 of `prot` ask.
pub proof fn lemma_mmap_result_pages(
    e: Map<usize, PageTableEntry>,
    s: crate::id::RecycleState,
    start: usize,
    end: usize,
    prot: usize,
    ms: MemorySet,
)
    requires
        start <= end,
        ms.entries() == entries_after_map(e, s, start, end, mmap_perm(prot)),
    ensures
        pages_with(ms, start as int, end as int, prot & 1 != 0, prot & 2 != 0, prot & 4 != 0),
{
    assert forall|v: usize| start <= v < end implies {
        &&& #[trigger] ms.mapped(v)
        &&& ms.entries()[v].user()
        &&& ms.entries()[v].read_ok() == (prot & 1 != 0)
        &&& ms.entries()[v].write_ok() == (prot & 2 != 0)
        &&& crate::mm::flag_set(ms.entries()[v].flags, PTE_X) == (prot & 4 != 0)
    } by {
        lemma_mmap_page_flags(e, s, start, end, prot, v);
    }
}

/// The page entry a successful `mmap` with protection `prot` installs: valid,
/// user, and readable, writable, executable exactly as bits 0, 1 and 2 of
/// `prot` ask.
pub proof fn lemma_mmap_page_flags(
    e: Map<usize, PageTableEntry>,
    s: crate::id::RecycleState,
    start: usize,
    end: usize,
    prot: usize,
    v: usize,
)
    requires
        start <= v < end,
    ensures
        ({
            let pe = entries_after_map(e, s, start, end, mmap_perm(prot))[v];
            &&& pe.valid()
            &&& pe.user()
            &&& pe.read_ok() == (prot & 1 != 0)
            &&& pe.write_ok() == (prot & 2 != 0)
            &&& crate::mm::flag_set(pe.flags, PTE_X) == (prot & 4 != 0)
        }),
{
    let perm = mmap_perm(prot);
    let f = crate::mm::leaf_flags(perm);
    assert(entries_after_map(e, s, start, end, perm)[v].flags == f);
    let b0 = prot & 1 != 0;
    let b1 = prot & 2 != 0;
    let b2 = prot & 4 != 0;
    assert(perm == 16u8 | (if b0 { 2u8 } else { 0u8 }) | (if b1 { 4u8 } else { 0u8 }) | (if b2 { 8u8 } else { 0u8 }));
    assert(f == perm | 1u8);
    assert(f & 1u8 != 0 && f & 16u8 != 0 && (f & 2u8 != 0) == b0 && (f & 4u8 != 0) == b1 && (f & 8u8 != 0) == b2)
        by (bit_vector)
        requires
            perm == 16u8 | (if b0 { 2u8 } else { 0u8 }) | (if b1 { 4u8 } else { 0u8 }) | (if b2 { 8u8 } else { 0u8 }),
            f == perm | 1u8,
    ;
}

/// A byte written through the trace call reads back through it.
pub proof fn lemma_trace_write_then_read(
    t: crate::task::TaskControlBlock,
    m: Map<(usize, usize), u8>,
    id: usize,
    data: usize,
    unused: usize,
)
    requires
        trace_result(t, m, 1, id, data) == 0,
        t.memory_set.entries()[vpn_of(id) as usize].read_ok(),
    ensures
        trace_result(t, trace_memory(t, m, 1, id, data), 0, id, unused) == (data as u8) as isize,
{
}

/// The first page an `mmap` or `munmap` of `start` covers.
pub open spec fn range_start(start: usize) -> int {
    va_of(start) / PAGE_SIZE as int
}

/// The page after the last one an `mmap` or `munmap` of `start`, `len`
/// covers.
pub open spec fn range_end(start: usize, len: usize) -> int {
    ceil_page(va_of((start + len) as usize))
}

/// `mmap` accepts the arguments: the start is page aligned and the
/// protection has only the read, write, execute bits and one of them.
pub open spec fn mmap_args_ok(start: usize, prot: usize) -> bool {
    start % PAGE_SIZE == 0 && prot & !0x7usize == 0 && prot & 0x7usize != 0
}

/// Page permission for protection bits `prot`: user, plus read, write and
/// execute as bits 0, 1 and 2 of `prot` ask.
pub open spec fn mmap_perm(prot: usize) -> u8 {
    PTE_U | (if prot & 1 != 0 { PTE_R } else { 0 }) | (if prot & 2 != 0 { PTE_W } else { 0 }) | (if prot
        & 4 != 0 {
        PTE_X
    } else {
        0
    })
}

/// Every page of `start..end` of `ms` is mapped for user access, and is
/// readable exactly when `r`, writable exactly when `w` and executable
/// exactly when `x`.
pub open spec fn pages_with(ms: MemorySet, start: int, end: int, r: bool, w: bool, x: bool) -> bool {
    forall|v: usize|
        start <= v < end ==> {
            &&& #[trigger] ms.mapped(v)
            &&& ms.entries()[v].user()
            &&& ms.entries()[v].read_ok() == r
            &&& ms.entries()[v].write_ok() == w
            &&& crate::mm::flag_set(ms.entries()[v].flags, PTE_X) == x
        }
}

/// Some page of `start..end` is already mapped.
pub open spec fn any_mapped(ms: MemorySet, start: int, end: int) -> bool {
    exists|v: usize| start <= v < end && #[trigger] ms.mapped(v)
}

/// Maps `len` bytes from the page-aligned user address `start` with
/// protection `prot` (bit 0 read, bit 1 write, bit 2 execute); returns 0,
/// or -1 when the arguments are bad, frames are short or some page is
/// already mapped.
pub fn sys_mmap(
    tm: &mut TaskManager,
    frames: &mut FrameAllocator,
    mem: &mut PhysMemory,
    start: usize,
    len: usize,
    prot: usize,
) -> (r: isize)
    requires
        old(tm).wf(),
        old(frames).wf(),
        old(tm).current().memory_set.owns_frames(old(frames).state()),
        mmap_args_ok(start, prot) ==> start + len <= usize::MAX,
        mmap_args_ok(start, prot) ==> range_start(start) <= range_end(start, len),
    ensures
        final(tm).wf(),
        final(tm).others_unchanged(*old(tm)),
        final(frames).wf(),
        final(frames).end == old(frames).end,
        final(tm).current().memory_set.owns_frames(final(frames).state()),
        final(tm).current().memory_set.root_ppn == old(tm).current().memory_set.root_ppn,
        final(tm).current().heap_bottom == old(tm).current().heap_bottom,
        final(tm).current().program_brk == old(tm).current().program_brk,
        final(tm).current().task_syscall_trace == old(tm).current().task_syscall_trace,
        r == 0 ==> pages_with(
            final(tm).current().memory_set,
            range_start(start),
            range_end(start, len),
            prot & 1 != 0,
            prot & 2 != 0,
            prot & 4 != 0,
        ),
        ({
            let ok = mmap_args_ok(start, prot) && old(frames).free() >= range_end(start, len) - range_start(
                start,
            ) && !any_mapped(old(tm).current().memory_set, range_start(start), range_end(start, len));
            &&& r == if ok { 0isize } else { -1isize }
            &&& ok ==> final(tm).current().memory_set.entries() == entries_after_map(
                old(tm).current().memory_set.entries(),
                old(frames).state(),
                range_start(start) as usize,
                range_end(start, len) as usize,
                mmap_perm(prot),
            )
            &&& ok ==> final(frames).state() == crate::mm::alloc_n(
                old(frames).state(),
                (range_end(start, len) - range_start(start)) as nat,
            )
            &&& ok ==> forall|k: nat, o: usize| k < range_end(start, len) - range_start(start) && o < PAGE_SIZE
                ==> #[trigger] final(mem).view_byte(crate::mm::nth_frame(old(frames).state(), k), o) == 0
            &&& ok ==> forall|p: usize, o: usize| !crate::mm::handed_out(
                old(frames).state(),
                (range_end(start, len) - range_start(start)) as nat,
            ).contains(p) ==> #[trigger] final(mem).view_byte(p, o) == old(mem).view_byte(p, o)
            &&& !ok ==> final(tm).current() == old(tm).current() && *final(frames) == *old(frames) && *final(mem)
                == *old(mem)
        }),
{
    if start % PAGE_SIZE != 0 || prot & (!0x7) != 0 || prot & (0x7) == 0 {
        return -1;
    }
    let start_va = virt_addr(start);
    let end_va = virt_addr(start + len);
    let start_vpn = floor_vpn(start_va);
    let end_vpn = ceil_vpn(end_va);
    if frames.free_frames() < end_vpn - start_vpn {
        return -1;
    }
    let mut vpn = start_vpn;
    while vpn < end_vpn
        invariant
            start_vpn <= vpn <= end_vpn,
            start_vpn as int == range_start(start),
            end_vpn as int == range_end(start, len),
            *tm == *old(tm),
            *frames == *old(frames),
            tm.wf(),
            frames.wf(),
            tm.current().memory_set.owns_frames(frames.state()),
            forall|v: usize| start_vpn <= v < vpn ==> !#[trigger] tm.current().memory_set.mapped(v),
        decreases end_vpn - vpn,
    {
        let pte = tm.tasks[tm.current_task].memory_set.translate(vpn);
        if pte.is_some() && pte.unwrap().is_valid() {
            assert(tm.current().memory_set.mapped(vpn));
            return -1;
        }
        vpn += 1;
    }
    let flags = PTE_U | (if prot & 0x1 != 0 { PTE_R } else { 0 }) | (if prot & 0x2 != 0 { PTE_W } else { 0 })
        | (if prot & 0x4 != 0 { PTE_X } else { 0 });
    let ghost e0 = tm.current().memory_set.entries();
    let ghost s0 = frames.state();
    assert(flags == mmap_perm(prot));
    tm.map_extra(frames, mem, start_vpn, end_vpn, flags);
    proof {
        assert(tm.current().memory_set.entries() == entries_after_map(e0, s0, start_vpn, end_vpn, mmap_perm(prot)));
        let ms = tm.current().memory_set;
        let (a, b) = (range_start(start), range_end(start, len));
        assert(a == start_vpn && b == end_vpn);
        lemma_mmap_result_pages(e0, s0, start_vpn, end_vpn, prot, ms);
    }
    0
}

/// Unmaps the pages covering `len` bytes from the page-aligned user address
/// `start`; returns 0, or -1 when the start is not aligned or some page is
/// not mapped (then nothing changes).
pub fn sys_munmap(tm: &mut TaskManager, frames: &mut FrameAllocator, start: usize, len: usize) -> (r: isize)
    requires
        old(tm).wf(),
        old(frames).wf(),
        old(tm).current().memory_set.owns_frames(old(frames).state()),
        start % PAGE_SIZE == 0 ==> start + len <= usize::MAX,
        start % PAGE_SIZE == 0 ==> range_start(start) <= range_end(start, len),
    ensures
        final(tm).wf(),
        final(tm).others_unchanged(*old(tm)),
        final(frames).wf(),
        final(frames).end == old(frames).end,
        final(tm).current().memory_set.owns_frames(final(frames).state()),
        final(tm).current().memory_set.root_ppn == old(tm).current().memory_set.root_ppn,
        final(tm).current().heap_bottom == old(tm).current().heap_bottom,
        final(tm).current().program_brk == old(tm).current().program_brk,
        final(tm).current().task_syscall_trace == old(tm).current().task_syscall_trace,
        ({
            let ok = start % PAGE_SIZE == 0 && old(tm).current().memory_set.range_mapped(
                range_start(start) as usize,
                range_end(start, len) as usize,
            );
            &&& r == if ok { 0isize } else { -1isize }
            &&& ok ==> final(tm).current().memory_set.entries() == entries_after_unmap(
                old(tm).current().memory_set.entries(),
                range_start(start) as usize,
                range_end(start, len) as usize,
            )
            &&& ok ==> final(frames).state() == (crate::id::RecycleState {
                current: old(frames).state().current,
                recycled: old(frames).state().recycled + crate::mm::frames_of_range(
                    old(tm).current().memory_set.entries(),
                    range_start(start) as usize,
                    range_end(start, len) as usize,
                ),
            })
            &&& !ok ==> final(tm).current() == old(tm).current() && *final(frames) == *old(frames)
        }),
{
    if start % PAGE_SIZE != 0 {
        return -1;
    }
    let start_va = virt_addr(start);
    let end_va = virt_addr(start + len);
    let start_vpn = floor_vpn(start_va);
    let end_vpn = ceil_vpn(end_va);
    if tm.unmap_extra(frames, start_vpn, end_vpn) {
        0
    } else {
        -1
    }
}

/// Moves the end of the running task's heap by `size` bytes; returns the
/// old end, or -1 (changing nothing) when the heap would end below its
/// bottom, or the pages in between cannot be mapped (one is mapped already
/// or frames are short) or unmapped (one is not mapped).
pub fn sys_sbrk(tm: &mut TaskManager, frames: &mut FrameAllocator, mem: &mut PhysMemory, size: i32) -> (r: isize)
    requires
        old(tm).wf(),
        old(tm).current().heap_bottom <= old(tm).current().program_brk,
        old(tm).current().program_brk < 0x80_0000_0000,
        old(tm).current().program_brk + size <= usize::MAX,
        old(frames).wf(),
        old(tm).current().memory_set.owns_frames(old(frames).state()),
    ensures
        final(tm).wf(),
        final(tm).others_unchanged(*old(tm)),
        final(frames).wf(),
        final(frames).end == old(frames).end,
        final(tm).current().memory_set.owns_frames(final(frames).state()),
        !brk_can_move(old(tm).current(), *old(frames), size) ==> r == -1
            && final(tm).current() == old(tm).current() && *final(frames) == *old(frames)
            && *final(mem) == *old(mem),
        brk_can_move(old(tm).current(), *old(frames), size) ==> {
            let t = old(tm).current();
            let old_end = ceil_page(t.program_brk as int) as usize;
            let new_end = ceil_page(new_brk(t, size)) as usize;
            &&& r == t.program_brk as isize
            &&& final(tm).current().program_brk == new_brk(t, size)
            &&& size < 0 ==> final(tm).current().memory_set.entries() == entries_after_unmap(
                t.memory_set.entries(),
                new_end,
                old_end,
            )
            &&& size >= 0 ==> final(tm).current().memory_set.entries() == entries_after_map(
                t.memory_set.entries(),
                old(frames).state(),
                old_end,
                new_end,
                heap_perm(),
            )
            &&& size >= 0 ==> crate::task::pages_writable(final(tm).current().memory_set, old_end as int, new_end as int)
        },
{
    if let Some(old_brk) = tm.change_program_brk(frames, mem, size) {
        old_brk as isize
    } else {
        -1
    }
}

/// A page is mapped by a valid entry of `e`.
pub open spec fn mapped_in(e: Map<usize, PageTableEntry>, v: usize) -> bool {
    e.contains_key(v) && e[v].valid()
}

/// After a successful `mmap`, `munmap` of the same bytes succeeds and
/// leaves the valid mappings as they were before the `mmap`.
pub proof fn lemma_munmap_undoes_mmap(
    e: Map<usize, PageTableEntry>,
    s: crate::id::RecycleState,
    start: usize,
    len: usize,
    prot: usize,
)
    requires
        mmap_args_ok(start, prot),
        range_start(start) <= range_end(start, len),
        forall|v: usize| range_start(start) <= v < range_end(start, len) ==> !#[trigger] mapped_in(e, v),
    ensures
        ({
            let (a, b) = (range_start(start) as usize, range_end(start, len) as usize);
            let mapped = entries_after_map(e, s, a, b, mmap_perm(prot));
            &&& forall|v: usize| a <= v < b ==> #[trigger] mapped_in(mapped, v)
            &&& valid_part(entries_after_unmap(mapped, a, b)) == valid_part(e)
        }),
{
    let (a, b) = (range_start(start) as usize, range_end(start, len) as usize);
    let perm = mmap_perm(prot);
    assert forall|v: usize| a <= v < b implies #[trigger] mapped_in(entries_after_map(e, s, a, b, perm), v) by {
        assert((perm | 1u8) & 1u8 != 0) by (bit_vector);
    }
    assert forall|v: usize| a <= v < b implies !(e.contains_key(v) && #[trigger] e[v].valid()) by {
        assert(!mapped_in(e, v));
    }
    lemma_map_then_unmap(e, s, a, b, perm);
}

/// Growing the heap by `size` bytes and shrinking it by as much brings its
/// end back and leaves the valid mappings as they were.
pub proof fn lemma_sbrk_shrink_undoes_grow(
    e: Map<usize, PageTableEntry>,
    s: crate::id::RecycleState,
    brk: usize,
    size: i32,
)
    requires
        size > 0,
        brk + size <= usize::MAX,
        forall|v: usize| ceil_page(brk as int) <= v < ceil_page(brk + size) ==> !#[trigger] mapped_in(e, v),
    ensures
        ((brk + size) as usize) + (-size) == brk,
        ({
            let (a, b) = (ceil_page(brk as int) as usize, ceil_page(brk + size) as usize);
            let grown = entries_after_map(e, s, a, b, heap_perm());
            &&& forall|v: usize| a <= v < b ==> #[trigger] mapped_in(grown, v)
            &&& valid_part(entries_after_unmap(grown, a, b)) == valid_part(e)
        }),
{
    let (a, b) = (ceil_page(brk as int) as usize, ceil_page(brk + size) as usize);
    assert(a <= b) by (nonlinear_arith)
        requires
            size > 0,
            a as int == ceil_page(brk as int),
            b as int == ceil_page(brk + size),
    {
    }
    assert forall|v: usize| a <= v < b implies #[trigger] mapped_in(entries_after_map(e, s, a, b, heap_perm()), v) by {
        let perm = heap_perm();
        assert((perm | 1u8) & 1u8 != 0) by (bit_vector);
    }
    assert forall|v: usize| a <= v < b implies !(e.contains_key(v) && #[trigger] e[v].valid()) by {
        assert(!mapped_in(e, v));
    }
    lemma_map_then_unmap(e, s, a, b, heap_perm());
}

} // verus!
