//! User address spaces: Sv39 address arithmetic, page-table entries, the
//! physical frame allocator, physical memory and the per-task memory set.
use crate::config::{PAGE_SIZE, VA_WIDTH_SV39};
use crate::id::{lemma_alloc_step, lemma_recycled_len, RecycleAllocator, RecycleState};
use std::collections::BTreeMap;
use vstd::prelude::*;

verus! {

// ---------------------------------------------------------------------------
// Addresses.

/// Number of distinct Sv39 virtual addresses.
pub const VA_SPACE: u64 = 0x80_0000_0000;

/// The virtual address a raw `usize` denotes: its low 39 bits.
pub open spec fn va_of(v: usize) -> int {
    v as int % VA_SPACE as int
}

/// The page a virtual address lies in.
pub open spec fn vpn_of(v: usize) -> int {
    va_of(v) / PAGE_SIZE as int
}

/// The position of a virtual address inside its page.
pub open spec fn offset_of(v: usize) -> int {
    va_of(v) % PAGE_SIZE as int
}

/// The first page at or above an address (rounding up).
pub open spec fn ceil_page(va: int) -> int {
    if va == 0 {
        0
    } else {
        (va - 1) / PAGE_SIZE as int + 1
    }
}

/// Keeps the low 39 bits of `v`.
pub fn virt_addr(v: usize) -> (va: usize)
    ensures
        va as int == va_of(v),
{
    ((v as u64) % VA_SPACE) as usize
}

/// The page of virtual address `va` (rounding down).
pub fn floor_vpn(va: usize) -> (vpn: usize)
    ensures
        vpn as int == va as int / PAGE_SIZE as int,
{
    va / PAGE_SIZE
}

/// The first page at or above virtual address `va` (rounding up).
pub fn ceil_vpn(va: usize) -> (vpn: usize)
    ensures
        vpn as int == ceil_page(va as int),
{
    if va == 0 {
        0
    } else {
        (va - 1) / PAGE_SIZE + 1
    }
}

/// The position of virtual address `va` inside its page.
pub fn page_offset(va: usize) -> (off: usize)
    ensures
        off as int == va as int % PAGE_SIZE as int,
        off < PAGE_SIZE,
{
    va % PAGE_SIZE
}

// ---------------------------------------------------------------------------
// Page-table entries.

/// The entry is valid.
pub const PTE_V: u8 = 1;
/// The page is readable.
pub const PTE_R: u8 = 2;
/// The page is writable.
pub const PTE_W: u8 = 4;
/// The page is executable.
pub const PTE_X: u8 = 8;
/// The page is accessible from user mode.
pub const PTE_U: u8 = 16;

/// A leaf entry of a page table: the frame a page maps to and its flags.
#[derive(Clone, Copy, Debug)]
pub struct PageTableEntry {
    pub ppn: usize,
    pub flags: u8,
}

pub open spec fn flag_set(flags: u8, bit: u8) -> bool {
    flags & bit != 0
}

impl PageTableEntry {
    pub open spec fn valid(self) -> bool {
        flag_set(self.flags, PTE_V)
    }

    pub open spec fn user(self) -> bool {
        flag_set(self.flags, PTE_U)
    }

    pub open spec fn read_ok(self) -> bool {
        flag_set(self.flags, PTE_R)
    }

    pub open spec fn write_ok(self) -> bool {
        flag_set(self.flags, PTE_W)
    }

    /// An entry mapping nothing.
    pub fn empty() -> (e: Self)
        ensures
            e.ppn == 0,
            e.flags == 0,
            !e.valid(),
    {
        assert(0u8 & 1u8 == 0) by (bit_vector);
        PageTableEntry { ppn: 0, flags: 0 }
    }

    pub fn is_valid(&self) -> (b: bool)
        ensures
            b == self.valid(),
    {
        self.flags & PTE_V != 0
    }

    pub fn readable(&self) -> (b: bool)
        ensures
            b == self.read_ok(),
    {
        self.flags & PTE_R != 0
    }

    pub fn writable(&self) -> (b: bool)
        ensures
            b == self.write_ok(),
    {
        self.flags & PTE_W != 0
    }

    pub fn user_accessible(&self) -> (b: bool)
        ensures
            b == self.user(),
    {
        self.flags & PTE_U != 0
    }
}

/// Flags of a mapping made with permission bits `perm`: valid, plus `perm`.
pub open spec fn leaf_flags(perm: u8) -> u8 {
    perm | PTE_V
}

proof fn lemma_leaf_flags_valid(perm: u8)
    ensures
        flag_set(leaf_flags(perm), PTE_V),
{
    assert((perm | 1u8) & 1u8 != 0) by (bit_vector);
}

// ---------------------------------------------------------------------------
// Physical frames.

/// The allocator of physical frames: frames below `end` are handed out
/// in order, the most recently returned one first.
pub struct FrameAllocator {
    pub frames: RecycleAllocator,
    pub end: usize,
}

impl FrameAllocator {
    pub open spec fn state(&self) -> RecycleState {
        self.frames@
    }

    pub open spec fn wf(&self) -> bool {
        self.frames@.wf() && self.frames@.current <= self.end
    }

    /// Number of frames that can still be handed out.
    pub open spec fn free(&self) -> int {
        self.end - self.frames@.current + self.frames@.recycled.len()
    }

    /// An allocator of the frames `start..end`.
    pub fn new(start: usize, end: usize) -> (a: Self)
        requires
            start <= end,
        ensures
            a.wf(),
            a.frames@.current == start,
            a.frames@.recycled == Seq::<usize>::empty(),
            a.end == end,
    {
        FrameAllocator { frames: RecycleAllocator { current: start, recycled: Vec::new() }, end }
    }

    /// Number of frames that can still be handed out.
    pub fn free_frames(&self) -> (n: usize)
        requires
            self.wf(),
        ensures
            n == self.free(),
    {
        proof {
            lemma_recycled_len(self.frames@);
        }
        self.end - self.frames.current + self.frames.recycled.len()
    }

    /// Hands out a frame, or `None` when none is free.
    pub fn frame_alloc(&mut self) -> (f: Option<usize>)
        requires
            old(self).wf(),
        ensures
            final(self).wf(),
            final(self).end == old(self).end,
            old(self).free() > 0 ==> f == Some(old(self).state().next_id()) && final(self).state()
                == old(self).state().allocated(),
            old(self).free() == 0 ==> f is None && final(self).state() == old(self).state(),
            final(self).free() == old(self).free() - if f is Some { 1int } else { 0 },
            f matches Some(p) ==> !old(self).state().in_use().contains(p) && final(self).state().in_use()
                == old(self).state().in_use().insert(p),
            f is None ==> final(self).state().in_use() == old(self).state().in_use(),
    {
        if self.frames.recycled.len() > 0 || self.frames.current < self.end {
            Some(self.frames.alloc_id())
        } else {
            None
        }
    }

    /// Takes back frame `ppn`, which must be in use.
    pub fn frame_dealloc(&mut self, ppn: usize)
        requires
            old(self).wf(),
            old(self).state().in_use().contains(ppn),
        ensures
            final(self).wf(),
            final(self).end == old(self).end,
            final(self).state() == old(self).state().deallocated(ppn),
            final(self).state().in_use() == old(self).state().in_use().remove(ppn),
            final(self).free() == old(self).free() + 1,
    {
        self.frames.dealloc_id(ppn);
    }
}

/// Physical memory, one byte per frame and position; bytes never written
/// read as zero.
pub struct PhysMemory {
    pub bytes: BTreeMap<(usize, usize), u8>,
}

/// The byte at position `off` of frame `ppn`.
pub open spec fn byte_at(m: Map<(usize, usize), u8>, ppn: usize, off: usize) -> u8 {
    if m.contains_key((ppn, off)) {
        m[(ppn, off)]
    } else {
        0
    }
}

impl PhysMemory {
    pub open spec fn view_byte(&self, ppn: usize, off: usize) -> u8 {
        byte_at(self.bytes@, ppn, off)
    }

    /// Memory in which every byte is zero.
    pub fn new() -> (m: Self)
        ensures
            forall|p: usize, o: usize| #[trigger] m.view_byte(p, o) == 0,
    {
        PhysMemory { bytes: BTreeMap::new() }
    }

    pub fn read_byte(&self, ppn: usize, off: usize) -> (b: u8)
        ensures
            b == self.view_byte(ppn, off),
    {
        match self.bytes.get(&(ppn, off)) {
            Some(b) => *b,
            None => 0,
        }
    }

    pub fn write_byte(&mut self, ppn: usize, off: usize, b: u8)
        ensures
            final(self).bytes@ == old(self).bytes@.insert((ppn, off), b),
            final(self).view_byte(ppn, off) == b,
            forall|p: usize, o: usize| (p, o) != (ppn, off) ==> #[trigger] final(self).view_byte(p, o)
                == old(self).view_byte(p, o),
    {
        self.bytes.insert((ppn, off), b);
    }

    /// Clears frame `ppn`.
    pub fn zero_frame(&mut self, ppn: usize)
        ensures
            forall|o: usize| o < PAGE_SIZE ==> #[trigger] final(self).view_byte(ppn, o) == 0,
            forall|p: usize, o: usize| p != ppn ==> #[trigger] final(self).view_byte(p, o)
                == old(self).view_byte(p, o),
            forall|o: usize| o >= PAGE_SIZE ==> #[trigger] final(self).view_byte(ppn, o)
                == old(self).view_byte(ppn, o),
    {
        let ghost orig = self.bytes@;
        let mut o: usize = 0;
        while o < PAGE_SIZE
            invariant
                o <= PAGE_SIZE,
                orig == old(self).bytes@,
                forall|x: usize| x < o ==> #[trigger] byte_at(self.bytes@, ppn, x) == 0,
                forall|p: usize, x: usize| p != ppn ==> #[trigger] byte_at(self.bytes@, p, x)
                    == byte_at(orig, p, x),
                forall|x: usize| x >= o ==> #[trigger] byte_at(self.bytes@, ppn, x) == byte_at(orig, ppn, x),
            decreases PAGE_SIZE - o,
        {
            let ghost before = self.bytes@;
            let key = (ppn, o);
            self.bytes.remove(&key);
            assert(self.bytes@ == before.remove(key));
            assert forall|p: usize, x: usize| (p, x) != key implies #[trigger] byte_at(self.bytes@, p, x)
                == byte_at(before, p, x) by {}
            assert(byte_at(self.bytes@, ppn, o) == 0);
            o += 1;
        }
    }
}

// ---------------------------------------------------------------------------
// Memory sets.

/// The state of an allocator after `k` allocations.
pub open spec fn alloc_n(s: RecycleState, k: nat) -> RecycleState
    decreases k,
{
    if k == 0 {
        s
    } else {
        alloc_n(s, (k - 1) as nat).allocated()
    }
}

/// The frame handed out by the `k`-th allocation from state `s`.
pub open spec fn nth_frame(s: RecycleState, k: nat) -> usize {
    alloc_n(s, k).next_id()
}

/// The `satp` value that selects a page table rooted at frame `root_ppn`.
pub open spec fn satp_of(root_ppn: usize) -> usize {
    (0x8000_0000_0000_0000u64 | root_ppn as u64) as usize
}

/// An address space: its root frame and the leaf entries of its page
/// table, by page number.
pub struct MemorySet {
    pub root_ppn: usize,
    pub page_table: BTreeMap<usize, PageTableEntry>,
}

impl MemorySet {
    pub open spec fn entries(&self) -> Map<usize, PageTableEntry> {
        self.page_table@
    }

    /// Page `vpn` is mapped by a valid entry.
    pub open spec fn mapped(&self, vpn: usize) -> bool {
        self.page_table@.contains_key(vpn) && self.page_table@[vpn].valid()
    }

    /// The valid entries only.
    pub open spec fn mappings(&self) -> Map<usize, PageTableEntry> {
        Map::new(|v: usize| self.mapped(v), |v: usize| self.page_table@[v])
    }

    /// Every mapped page has a frame of its own that the allocator counts
    /// as in use.
    pub open spec fn owns_frames(&self, frames: RecycleState) -> bool {
        &&& forall|v: usize| #[trigger] self.mapped(v) ==> frames.in_use().contains(self.page_table@[v].ppn)
        &&& forall|v1: usize, v2: usize| #[trigger] self.mapped(v1) && #[trigger] self.mapped(v2) && v1 != v2
            ==> self.page_table@[v1].ppn != self.page_table@[v2].ppn
    }

    /// No page of `start..end` is mapped.
    pub open spec fn range_unmapped(&self, start: usize, end: usize) -> bool {
        forall|v: usize| start <= v < end ==> !#[trigger] self.mapped(v)
    }

    /// Every page of `start..end` is mapped.
    pub open spec fn range_mapped(&self, start: usize, end: usize) -> bool {
        forall|v: usize| start <= v < end ==> #[trigger] self.mapped(v)
    }

    /// An address space with nothing mapped.
    pub fn new_bare(root_ppn: usize) -> (ms: Self)
        ensures
            ms.root_ppn == root_ppn,
            ms.entries() == Map::<usize, PageTableEntry>::empty(),
    {
        MemorySet { root_ppn, page_table: BTreeMap::new() }
    }

    /// The `satp` value of this address space.
    pub fn token(&self) -> (t: usize)
        ensures
            t == satp_of(self.root_ppn),
    {
        (0x8000_0000_0000_0000u64 | self.root_ppn as u64) as usize
    }

    /// The leaf entry of page `vpn`, if the page table has one.
    pub fn translate(&self, vpn: usize) -> (e: Option<PageTableEntry>)
        ensures
            e == (if self.entries().contains_key(vpn) {
                Some(self.entries()[vpn])
            } else {
                None
            }),
    {
        match self.page_table.get(&vpn) {
            Some(e) => Some(*e),
            None => None,
        }
    }

    /// Maps page `vpn` to a fresh, cleared frame with permission `perm`.
    pub fn map_one(&mut self, frames: &mut FrameAllocator, mem: &mut PhysMemory, vpn: usize, perm: u8)
        requires
            old(frames).wf(),
            old(frames).free() > 0,
            !old(self).mapped(vpn),
            old(self).owns_frames(old(frames).state()),
        ensures
            final(frames).wf(),
            final(frames).end == old(frames).end,
            final(frames).state() == old(frames).state().allocated(),
            final(frames).free() == old(frames).free() - 1,
            final(frames).state().in_use() == old(frames).state().in_use().insert(old(frames).state().next_id()),
            !old(frames).state().in_use().contains(old(frames).state().next_id()),
            final(self).root_ppn == old(self).root_ppn,
            final(self).entries() == old(self).entries().insert(
                vpn,
                PageTableEntry { ppn: old(frames).state().next_id(), flags: leaf_flags(perm) },
            ),
            final(self).mapped(vpn),
            final(self).owns_frames(final(frames).state()),
            forall|o: usize| o < PAGE_SIZE ==> #[trigger] final(mem).view_byte(old(frames).state().next_id(), o) == 0,
            forall|p: usize, o: usize| p != old(frames).state().next_id() ==> #[trigger] final(mem).view_byte(p, o)
                == old(mem).view_byte(p, o),
    {
        let ghost f0 = frames.state();
        let ppn = match frames.frame_alloc() {
            Some(p) => p,
            None => { return; },
        };
        mem.zero_frame(ppn);
        self.page_table.insert(vpn, PageTableEntry { ppn, flags: perm | PTE_V });
        proof {
            lemma_leaf_flags_valid(perm);
            let ms = *self;
            assert forall|v: usize| #[trigger] ms.mapped(v) implies frames.state().in_use().contains(ms.page_table@[v].ppn) by {
                if v != vpn {
                    assert(old(self).mapped(v));
                }
            }
            assert forall|v1: usize, v2: usize| #[trigger] ms.mapped(v1) && #[trigger] ms.mapped(v2) && v1 != v2
                implies ms.page_table@[v1].ppn != ms.page_table@[v2].ppn by {
                if v1 != vpn && v2 != vpn {
                    assert(old(self).mapped(v1) && old(self).mapped(v2));
                } else if v1 == vpn {
                    assert(old(self).mapped(v2));
                } else {
                    assert(old(self).mapped(v1));
                }
            }
        }
    }

    /// Unmaps the mapped page `vpn`: its entry becomes empty and its frame
    /// goes back to the allocator.
    pub fn unmap_one(&mut self, frames: &mut FrameAllocator, vpn: usize)
        requires
            old(frames).wf(),
            old(self).mapped(vpn),
            old(self).owns_frames(old(frames).state()),
        ensures
            final(frames).wf(),
            final(frames).end == old(frames).end,
            final(frames).state() == old(frames).state().deallocated(old(self).entries()[vpn].ppn),
            final(frames).state().in_use() == old(frames).state().in_use().remove(old(self).entries()[vpn].ppn),
            final(frames).free() == old(frames).free() + 1,
            final(self).root_ppn == old(self).root_ppn,
            final(self).entries() == old(self).entries().insert(vpn, PageTableEntry { ppn: 0, flags: 0 }),
            !final(self).mapped(vpn),
            final(self).owns_frames(final(frames).state()),
    {
        let e = *self.page_table.get(&vpn).unwrap();
        frames.frame_dealloc(e.ppn);
        self.page_table.insert(vpn, PageTableEntry::empty());
        proof {
            let ms = *self;
            assert forall|v: usize| #[trigger] ms.mapped(v) implies frames.state().in_use().contains(ms.page_table@[v].ppn) by {
                assert(old(self).mapped(v));
            }
            assert forall|v1: usize, v2: usize| #[trigger] ms.mapped(v1) && #[trigger] ms.mapped(v2) && v1 != v2
                implies ms.page_table@[v1].ppn != ms.page_table@[v2].ppn by {
                assert(old(self).mapped(v1) && old(self).mapped(v2));
            }
        }
    }
}

/// The frames that the first `n` allocations from state `s` hand out.
pub open spec fn handed_out(s: RecycleState, n: nat) -> Set<usize> {
    Set::new(|p: usize| exists|k: nat| k < n && #[trigger] nth_frame(s, k) == p)
}

/// Entries after pages `start..end` are mapped, in order, to the frames the
/// allocator in state `s` hands out next.
pub open spec fn entries_after_map(
    e: Map<usize, PageTableEntry>,
    s: RecycleState,
    start: usize,
    end: usize,
    perm: u8,
) -> Map<usize, PageTableEntry> {
    Map::new(
        |v: usize| e.contains_key(v) || start <= v < end,
        |v: usize|
            if start <= v < end {
                PageTableEntry { ppn: nth_frame(s, (v - start) as nat), flags: leaf_flags(perm) }
            } else {
                e[v]
            },
    )
}

/// Entries after pages `start..end` are unmapped.
pub open spec fn entries_after_unmap(e: Map<usize, PageTableEntry>, start: usize, end: usize) -> Map<
    usize,
    PageTableEntry,
> {
    Map::new(
        |v: usize| e.contains_key(v),
        |v: usize|
            if start <= v < end {
                PageTableEntry { ppn: 0, flags: 0 }
            } else {
                e[v]
            },
    )
}

/// The valid entries of a page table.
pub open spec fn valid_part(e: Map<usize, PageTableEntry>) -> Map<usize, PageTableEntry> {
    Map::new(|v: usize| e.contains_key(v) && e[v].valid(), |v: usize| e[v])
}

/// The frames that pages `start..end` map to.
pub open spec fn frames_of_range(e: Map<usize, PageTableEntry>, start: usize, end: usize) -> Seq<usize> {
    Seq::new((end - start) as nat, |k: int| e[(start + k) as usize].ppn)
}

/// Consecutive allocations hand out distinct frames that were free.
pub proof fn lemma_alloc_n(f: FrameAllocator, n: nat)
    requires
        f.wf(),
        f.free() >= n,
    ensures
        alloc_n(f.state(), n).wf(),
        alloc_n(f.state(), n).current <= f.end,
        f.end - alloc_n(f.state(), n).current + alloc_n(f.state(), n).recycled.len() == f.free() - n,
        alloc_n(f.state(), n).in_use() == f.state().in_use() + handed_out(f.state(), n),
        forall|k: nat| k < n ==> !f.state().in_use().contains(#[trigger] nth_frame(f.state(), k)),
        forall|k: nat| k < n ==> alloc_n(f.state(), n).in_use().contains(#[trigger] nth_frame(f.state(), k)),
    decreases n,
{
    let s = f.state();
    if n == 0 {
        assert(handed_out(s, 0) =~= Set::<usize>::empty());
        assert(s.in_use() + handed_out(s, 0) =~= s.in_use());
    } else {
        let m = (n - 1) as nat;
        lemma_alloc_n(f, m);
        let a = alloc_n(s, m);
        assert(a.can_alloc());
        lemma_alloc_step(a);
        assert(nth_frame(s, m) == a.next_id());
        assert(handed_out(s, n) =~= handed_out(s, m).insert(a.next_id())) by {
            assert forall|p: usize| handed_out(s, n).contains(p) implies handed_out(s, m).insert(a.next_id()).contains(p) by {
                let k = choose|k: nat| k < n && #[trigger] nth_frame(s, k) == p;
                if k < m {
                    assert(handed_out(s, m).contains(p));
                }
            }
            assert forall|p: usize| handed_out(s, m).insert(a.next_id()).contains(p) implies handed_out(s, n).contains(p) by {
                if p == a.next_id() {
                    assert(nth_frame(s, m) == p);
                } else {
                    let k = choose|k: nat| k < m && #[trigger] nth_frame(s, k) == p;
                    assert(nth_frame(s, k) == p);
                }
            }
        }
        assert(alloc_n(s, n).in_use() =~= s.in_use() + handed_out(s, n));
        assert forall|k: nat| k < n implies !s.in_use().contains(#[trigger] nth_frame(s, k)) by {
            if k == m {
                assert(a.in_use().contains(nth_frame(s, k)) == false);
            }
        }
        assert forall|k: nat| k < n implies alloc_n(s, n).in_use().contains(#[trigger] nth_frame(s, k)) by {
            if k < m {
                assert(a.in_use().contains(nth_frame(s, k)));
            }
        }
    }
}

impl MemorySet {
    /// Maps pages `start..end`, in order, to fresh cleared frames with
    /// permission `perm`.
    pub fn map_range(
        &mut self,
        frames: &mut FrameAllocator,
        mem: &mut PhysMemory,
        start: usize,
        end: usize,
        perm: u8,
    )
        requires
            start <= end,
            old(frames).wf(),
            old(frames).free() >= end - start,
            old(self).range_unmapped(start, end),
            old(self).owns_frames(old(frames).state()),
        ensures
            final(frames).wf(),
            final(frames).end == old(frames).end,
            final(frames).state() == alloc_n(old(frames).state(), (end - start) as nat),
            final(frames).free() == old(frames).free() - (end - start),
            final(frames).state().in_use() == old(frames).state().in_use() + handed_out(
                old(frames).state(),
                (end - start) as nat,
            ),
            forall|k: nat| k < end - start ==> !old(frames).state().in_use().contains(
                #[trigger] nth_frame(old(frames).state(), k),
            ),
            final(self).root_ppn == old(self).root_ppn,
            final(self).entries() == entries_after_map(old(self).entries(), old(frames).state(), start, end, perm),
            final(self).range_mapped(start, end),
            final(self).owns_frames(final(frames).state()),
            forall|k: nat, o: usize| k < end - start && o < PAGE_SIZE ==> #[trigger] final(mem).view_byte(
                nth_frame(old(frames).state(), k),
                o,
            ) == 0,
            forall|p: usize, o: usize| !handed_out(old(frames).state(), (end - start) as nat).contains(p)
                ==> #[trigger] final(mem).view_byte(p, o) == old(mem).view_byte(p, o),
    {
        let ghost s0 = frames.state();
        let ghost f0 = *frames;
        let ghost e0 = self.entries();
        proof {
            lemma_alloc_n(f0, (end - start) as nat);
        }
        let mut v = start;
        while v < end
            invariant
                start <= v <= end,
                f0.wf(),
                f0.free() >= end - start,
                s0 == f0.state(),
                frames.wf(),
                frames.end == f0.end,
                frames.state() == alloc_n(s0, (v - start) as nat),
                frames.free() == f0.free() - (v - start),
                frames.state().in_use() == s0.in_use() + handed_out(s0, (v - start) as nat),
                forall|k: nat| k < end - start ==> !s0.in_use().contains(#[trigger] nth_frame(s0, k)),
                self.root_ppn == old(self).root_ppn,
                self.entries() == entries_after_map(e0, s0, start, v, perm),
                self.range_mapped(start, v),
                self.range_unmapped(v, end),
                self.owns_frames(frames.state()),
                forall|k: nat, o: usize| k < v - start && o < PAGE_SIZE ==> #[trigger] mem.view_byte(
                    nth_frame(s0, k),
                    o,
                ) == 0,
                forall|p: usize, o: usize| !handed_out(s0, (v - start) as nat).contains(p)
                    ==> #[trigger] mem.view_byte(p, o) == old(mem).view_byte(p, o),
            decreases end - v,
        {
            let ghost i = (v - start) as nat;
            let ghost before = *self;
            let ghost mem_before = *mem;
            proof {
                lemma_alloc_n(f0, i + 1);
                assert(!self.mapped(v));
            }
            self.map_one(frames, mem, v, perm);
            proof {
                let id = nth_frame(s0, i);
                assert(alloc_n(s0, i).next_id() == id);
                assert(self.entries() =~= entries_after_map(e0, s0, start, (v + 1) as usize, perm)) by {
                    assert forall|w: usize| #[trigger] self.entries().contains_key(w) == entries_after_map(e0, s0, start, (v + 1) as usize, perm).contains_key(w) by {}
                    assert forall|w: usize| self.entries().contains_key(w) implies #[trigger] self.entries()[w] == entries_after_map(e0, s0, start, (v + 1) as usize, perm)[w] by {
                        if w == v {
                        }
                    }
                }
                assert forall|w: usize| start <= w < v + 1 implies #[trigger] self.mapped(w) by {
                    if w < v {
                        assert(before.mapped(w));
                    }
                }
                assert forall|w: usize| v + 1 <= w < end implies !#[trigger] self.mapped(w) by {
                    assert(!before.mapped(w));
                }
                assert(handed_out(s0, i + 1) =~= handed_out(s0, i).insert(id)) by {
                    assert forall|p: usize| handed_out(s0, i + 1).contains(p) implies handed_out(s0, i).insert(id).contains(p) by {
                        let k = choose|k: nat| k < i + 1 && #[trigger] nth_frame(s0, k) == p;
                        if k < i {
                            assert(handed_out(s0, i).contains(p));
                        }
                    }
                    assert forall|p: usize| handed_out(s0, i).insert(id).contains(p) implies handed_out(s0, i + 1).contains(p) by {
                        if p != id {
                            let k = choose|k: nat| k < i && #[trigger] nth_frame(s0, k) == p;
                            assert(nth_frame(s0, k) == p);
                        }
                    }
                }
                assert(frames.state().in_use() =~= s0.in_use() + handed_out(s0, i + 1));
                assert forall|k: nat, o: usize| k < i + 1 && o < PAGE_SIZE implies #[trigger] mem.view_byte(
                    nth_frame(s0, k), o) == 0 by {
                    if k < i {
                        assert(handed_out(s0, i).contains(nth_frame(s0, k)));
                        assert(alloc_n(s0, i).in_use().contains(nth_frame(s0, k)));
                        assert(nth_frame(s0, k) != id);
                        assert(mem_before.view_byte(nth_frame(s0, k), o) == 0);
                    }
                }
                assert forall|p: usize, o: usize| !handed_out(s0, i + 1).contains(p)
                    implies #[trigger] mem.view_byte(p, o) == old(mem).view_byte(p, o) by {
                    assert(p != id);
                    assert(!handed_out(s0, i).contains(p));
                    assert(mem_before.view_byte(p, o) == old(mem).view_byte(p, o));
                }
            }
            v += 1;
        }
    }

    /// Unmaps pages `start..end` if every one of them is mapped, giving their
    /// frames back in order; otherwise changes nothing.
    pub fn unmap_range(&mut self, frames: &mut FrameAllocator, start: usize, end: usize) -> (ok: bool)
        requires
            start <= end,
            old(frames).wf(),
            old(self).owns_frames(old(frames).state()),
        ensures
            ok == old(self).range_mapped(start, end),
            !ok ==> *final(self) == *old(self) && *final(frames) == *old(frames),
            ok ==> final(self).entries() == entries_after_unmap(old(self).entries(), start, end),
            ok ==> final(frames).state() == (RecycleState {
                current: old(frames).state().current,
                recycled: old(frames).state().recycled + frames_of_range(old(self).entries(), start, end),
            }),
            ok ==> final(frames).state().in_use() == old(frames).state().in_use() - frames_of_range(
                old(self).entries(),
                start,
                end,
            ).to_set(),
            ok ==> final(frames).free() == old(frames).free() + (end - start),
            final(frames).wf(),
            final(frames).end == old(frames).end,
            final(self).root_ppn == old(self).root_ppn,
            final(self).owns_frames(final(frames).state()),
    {
        let mut v = start;
        while v < end
            invariant
                start <= v <= end,
                *self == *old(self),
                *frames == *old(frames),
                frames.wf(),
                self.owns_frames(frames.state()),
                self.range_mapped(start, v),
            decreases end - v,
        {
            match self.translate(v) {
                Some(e) => {
                    if !e.is_valid() {
                        assert(!old(self).mapped(v));
                        return false;
                    }
                },
                None => {
                    assert(!old(self).mapped(v));
                    return false;
                },
            }
            v += 1;
        }
        let ghost e0 = self.entries();
        let ghost s0 = frames.state();
        let ghost f0 = *frames;
        let mut v = start;
        while v < end
            invariant
                start <= v <= end,
                e0 == old(self).entries(),
                s0 == old(frames).state(),
                f0 == *old(frames),
                old(self).range_mapped(start, end),
                old(self).owns_frames(s0),
                frames.wf(),
                frames.end == f0.end,
                frames.free() == f0.free() + (v - start),
                frames.state() == (RecycleState {
                    current: s0.current,
                    recycled: s0.recycled + frames_of_range(e0, start, v),
                }),
                frames.state().in_use() == s0.in_use() - frames_of_range(e0, start, v).to_set(),
                self.root_ppn == old(self).root_ppn,
                self.entries() == entries_after_unmap(e0, start, v),
                self.range_mapped(v, end),
                forall|w: usize| v <= w < end ==> #[trigger] self.entries()[w] == e0[w],
                self.owns_frames(frames.state()),
            decreases end - v,
        {
            let ghost before = *self;
            let ghost fs = frames.state();
            assert(self.mapped(v));
            self.unmap_one(frames, v);
            proof {
                assert(self.entries() =~= entries_after_unmap(e0, start, (v + 1) as usize));
                let nxt = frames_of_range(e0, start, (v + 1) as usize);
                let cur = frames_of_range(e0, start, v);
                assert(nxt =~= cur.push(e0[v].ppn));
                assert(s0.recycled + nxt =~= (s0.recycled + cur).push(e0[v].ppn));
                assert(frames.state().in_use() =~= s0.in_use() - nxt.to_set()) by {
                    assert forall|p: usize| #[trigger] nxt.to_set().contains(p) == (cur.to_set().contains(p) || p == e0[v].ppn) by {
                        if nxt.to_set().contains(p) {
                            let k = nxt.index_of(p);
                            if k < cur.len() {
                                assert(cur[k] == p);
                                assert(cur.contains(p));
                            }
                        }
                        if cur.to_set().contains(p) {
                            let k = cur.index_of(p);
                            assert(nxt[k] == p);
                            assert(nxt.contains(p));
                        }
                        if p == e0[v].ppn {
                            assert(nxt[cur.len() as int] == p);
                            assert(nxt.contains(p));
                        }
                    }
                }
                assert forall|w: usize| v + 1 <= w < end implies #[trigger] self.mapped(w) by {
                    assert(before.mapped(w));
                }
            }
            v += 1;
        }
        proof {
            assert(frames_of_range(e0, start, v) == frames_of_range(e0, start, end));
        }
        true
    }
}

/// Mapping a range of unmapped pages and then unmapping it restores the
/// valid mappings.
pub proof fn lemma_map_then_unmap(
    e: Map<usize, PageTableEntry>,
    s: RecycleState,
    start: usize,
    end: usize,
    perm: u8,
)
    requires
        start <= end,
        forall|v: usize| start <= v < end ==> !(e.contains_key(v) && #[trigger] e[v].valid()),
    ensures
        valid_part(entries_after_unmap(entries_after_map(e, s, start, end, perm), start, end)) == valid_part(e),
{
    let m = entries_after_map(e, s, start, end, perm);
    let u = entries_after_unmap(m, start, end);
    assert(!(PageTableEntry { ppn: 0, flags: 0 }).valid()) by {
        assert(0u8 & 1u8 == 0) by (bit_vector);
    }
    assert forall|v: usize| #[trigger] valid_part(u).contains_key(v) == valid_part(e).contains_key(v) by {
        if start <= v < end {
            assert(!(e.contains_key(v) && e[v].valid()));
        }
    }
    assert(valid_part(u) =~= valid_part(e));
}

/// Mapping a range and then unmapping it hands the same frames back: the
/// frames in use are as before.
pub proof fn lemma_map_then_unmap_frames(f: FrameAllocator, e: Map<usize, PageTableEntry>, start: usize, end: usize, perm: u8)
    requires
        start <= end,
        f.wf(),
        f.free() >= end - start,
    ensures
        (f.state().in_use() + handed_out(f.state(), (end - start) as nat)) - frames_of_range(
            entries_after_map(e, f.state(), start, end, perm),
            start,
            end,
        ).to_set() == f.state().in_use(),
{
    let s = f.state();
    let n = (end - start) as nat;
    lemma_alloc_n(f, n);
    let fr = frames_of_range(entries_after_map(e, s, start, end, perm), start, end);
    assert forall|p: usize| #[trigger] fr.to_set().contains(p) == handed_out(s, n).contains(p) by {
        if fr.to_set().contains(p) {
            let k = fr.index_of(p);
            assert(fr[k] == nth_frame(s, k as nat));
        }
        if handed_out(s, n).contains(p) {
            let k = choose|k: nat| k < n && #[trigger] nth_frame(s, k) == p;
            assert(fr[k as int] == p);
            assert(fr.contains(p));
        }
    }
    assert((s.in_use() + handed_out(s, n)) - fr.to_set() =~= s.in_use());
}

/// The mapped pages of `ms`.
pub open spec fn mapped_pages(ms: MemorySet) -> Set<usize> {
    ms.page_table@.dom().filter(|v: usize| ms.mapped(v))
}

/// The frames that the mapped pages of `ms` use.
pub open spec fn mapped_frames(ms: MemorySet) -> Set<usize> {
    Set::new(|p: usize| exists|v: usize| #[trigger] ms.mapped(v) && ms.page_table@[v].ppn == p)
}

impl MemorySet {
    /// Gives the frames of every mapped page back to the allocator, as
    /// dropping the address space does.
    pub fn release_frames(&self, frames: &mut FrameAllocator)
        requires
            old(frames).wf(),
            self.owns_frames(old(frames).state()),
        ensures
            final(frames).wf(),
            final(frames).end == old(frames).end,
            final(frames).state().current == old(frames).state().current,
            final(frames).state().in_use() == old(frames).state().in_use() - mapped_frames(*self),
            final(frames).free() == old(frames).free() + mapped_pages(*self).len(),
    {
        let keys = crate::deadlock::keys_of(&self.page_table);
        let ghost s0 = frames.state();
        let mut k: usize = 0;
        assert(keys@.subrange(0, 0).to_set().filter(|w: usize| self.mapped(w)) =~= Set::<usize>::empty());
        while k < keys.len()
            invariant
                k <= keys.len(),
                keys@.no_duplicates(),
                keys@.to_set() =~= self.page_table@.dom(),
                self.owns_frames(s0),
                s0 == old(frames).state(),
                frames.wf(),
                frames.end == old(frames).end,
                frames.state().current == s0.current,
                frames.free() == old(frames).free() + keys@.subrange(0, k as int).to_set().filter(|w: usize| self.mapped(w)).len(),
                frames.state().in_use() == s0.in_use() - Set::new(
                    |p: usize| exists|j: int| 0 <= j < k && #[trigger] self.mapped(keys@[j]) && self.page_table@[keys@[j]].ppn == p,
                ),
            decreases keys.len() - k,
        {
            let v = keys[k];
            assert(keys@.to_set().contains(v));
            let e = *self.page_table.get(&v).unwrap();
            let ghost before = frames.state().in_use();
            let ghost done = Set::new(
                |p: usize| exists|j: int| 0 <= j < k && #[trigger] self.mapped(keys@[j]) && self.page_table@[keys@[j]].ppn == p,
            );
            let ghost next = Set::new(
                |p: usize| exists|j: int| 0 <= j < k + 1 && #[trigger] self.mapped(keys@[j]) && self.page_table@[keys@[j]].ppn == p,
            );
            let ghost pre = keys@.subrange(0, k as int).to_set().filter(|w: usize| self.mapped(w));
            let ghost pre1 = keys@.subrange(0, k + 1).to_set().filter(|w: usize| self.mapped(w));
            proof {
                assert(!pre.contains(v)) by {
                    if pre.contains(v) {
                        let j = keys@.subrange(0, k as int).index_of(v);
                        assert(keys@[j] == v);
                    }
                }
                assert(pre1 =~= if self.mapped(v) { pre.insert(v) } else { pre }) by {
                    assert forall|w: usize| pre1.contains(w) == (if self.mapped(v) { pre.insert(v) } else { pre }).contains(w) by {
                        if keys@.subrange(0, k + 1).contains(w) && w != v {
                            let j = keys@.subrange(0, k + 1).index_of(w);
                            assert(keys@.subrange(0, k as int)[j] == w);
                        }
                        if keys@.subrange(0, k as int).contains(w) {
                            let j = keys@.subrange(0, k as int).index_of(w);
                            assert(keys@.subrange(0, k + 1)[j] == w);
                        }
                        if w == v {
                            assert(keys@.subrange(0, k + 1)[k as int] == v);
                        }
                    }
                }
            }
            if e.is_valid() {
                proof {
                    assert(self.mapped(v));
                    assert(!done.contains(e.ppn)) by {
                        if done.contains(e.ppn) {
                            let j = choose|j: int| 0 <= j < k && #[trigger] self.mapped(keys@[j]) && self.page_table@[keys@[j]].ppn == e.ppn;
                            assert(keys@[j] != v);
                        }
                    }
                }
                frames.frame_dealloc(e.ppn);
                proof {
                    assert(next =~= done.insert(e.ppn)) by {
                        assert forall|p: usize| next.contains(p) implies done.insert(e.ppn).contains(p) by {
                            let j = choose|j: int| 0 <= j < k + 1 && #[trigger] self.mapped(keys@[j]) && self.page_table@[keys@[j]].ppn == p;
                            if j < k {
                                assert(done.contains(p));
                            }
                        }
                        assert forall|p: usize| done.insert(e.ppn).contains(p) implies next.contains(p) by {
                            if p == e.ppn {
                                assert(self.mapped(keys@[k as int]));
                            } else {
                                let j = choose|j: int| 0 <= j < k && #[trigger] self.mapped(keys@[j]) && self.page_table@[keys@[j]].ppn == p;
                                assert(self.mapped(keys@[j]));
                            }
                        }
                    }
                    assert(frames.state().in_use() =~= s0.in_use() - next);
                }
            } else {
                proof {
                    assert(next =~= done) by {
                        assert forall|p: usize| next.contains(p) implies done.contains(p) by {
                            let j = choose|j: int| 0 <= j < k + 1 && #[trigger] self.mapped(keys@[j]) && self.page_table@[keys@[j]].ppn == p;
                            assert(j < k);
                        }
                        assert forall|p: usize| done.contains(p) implies next.contains(p) by {
                            let j = choose|j: int| 0 <= j < k && #[trigger] self.mapped(keys@[j]) && self.page_table@[keys@[j]].ppn == p;
                            assert(self.mapped(keys@[j]));
                        }
                    }
                }
            }
            k += 1;
        }
        proof {
            assert(keys@.subrange(0, k as int) =~= keys@);
            assert(keys@.to_set().filter(|w: usize| self.mapped(w)) =~= mapped_pages(*self));
            let done = Set::new(
                |p: usize| exists|j: int| 0 <= j < k && #[trigger] self.mapped(keys@[j]) && self.page_table@[keys@[j]].ppn == p,
            );
            assert(done =~= mapped_frames(*self)) by {
                assert forall|p: usize| mapped_frames(*self).contains(p) implies done.contains(p) by {
                    let v = choose|v: usize| #[trigger] self.mapped(v) && self.page_table@[v].ppn == p;
                    assert(keys@.to_set().contains(v));
                    let j = keys@.index_of(v);
                    assert(self.mapped(keys@[j]));
                }
                assert forall|p: usize| done.contains(p) implies mapped_frames(*self).contains(p) by {
                    let j = choose|j: int| 0 <= j < k && #[trigger] self.mapped(keys@[j]) && self.page_table@[keys@[j]].ppn == p;
                    assert(self.mapped(keys@[j]));
                }
            }
        }
    }
}

// ---------------------------------------------------------------------------
// Writing to user memory.

/// Where in physical memory the byte at user address `va` lives.
pub open spec fn phys_pos(e: Map<usize, PageTableEntry>, va: usize) -> (usize, usize) {
    (e[vpn_of(va) as usize].ppn, offset_of(va) as usize)
}

/// Every page touched by the `n` bytes from user address `start` has an
/// entry in the page table.
pub open spec fn user_range_translatable(e: Map<usize, PageTableEntry>, start: usize, n: nat) -> bool {
    forall|i: int| 0 <= i < n ==> e.contains_key(#[trigger] vpn_of((start + i) as usize) as usize)
}

/// Physical memory after `bytes` are written from user address `start` on.
pub open spec fn write_user_bytes(
    e: Map<usize, PageTableEntry>,
    m: Map<(usize, usize), u8>,
    start: usize,
    bytes: Seq<u8>,
) -> Map<(usize, usize), u8>
    decreases bytes.len(),
{
    if bytes.len() == 0 {
        m
    } else {
        write_user_bytes(e, m, start, bytes.drop_last()).insert(
            phys_pos(e, (start + bytes.len() - 1) as usize),
            bytes.last(),
        )
    }
}

/// Writes `bytes` into the user address space `ms` from address `start`
/// on, page by page through its page table.
pub fn copy_to_user(ms: &MemorySet, mem: &mut PhysMemory, start: usize, bytes: &Vec<u8>)
    requires
        start + bytes.len() <= usize::MAX,
        user_range_translatable(ms.entries(), start, bytes.len() as nat),
    ensures
        final(mem).bytes@ == write_user_bytes(ms.entries(), old(mem).bytes@, start, bytes@),
{
    let mut i: usize = 0;
    while i < bytes.len()
        invariant
            i <= bytes.len(),
            start + bytes.len() <= usize::MAX,
            user_range_translatable(ms.entries(), start, bytes.len() as nat),
            mem.bytes@ == write_user_bytes(ms.entries(), old(mem).bytes@, start, bytes@.take(i as int)),
        decreases bytes.len() - i,
    {
        let va = virt_addr(start + i);
        let vpn = floor_vpn(va);
        let off = page_offset(va);
        assert(ms.entries().contains_key(vpn_of((start + i) as usize) as usize));
        let pte = ms.translate(vpn).unwrap();
        mem.write_byte(pte.ppn, off, bytes[i]);
        proof {
            assert(bytes@.take(i + 1).drop_last() =~= bytes@.take(i as int));
        }
        i += 1;
    }
    assert(bytes@.take(bytes.len() as int) =~= bytes@);
}


/// Where the `j`-th byte from user address `start` lives.
pub open spec fn pos_at(e: Map<usize, PageTableEntry>, start: usize, j: int) -> (usize, usize) {
    phys_pos(e, (start + j) as usize)
}

/// Bytes written to distinct physical places read back.
pub proof fn lemma_write_user_bytes_read(
    e: Map<usize, PageTableEntry>,
    m: Map<(usize, usize), u8>,
    start: usize,
    bytes: Seq<u8>,
    i: int,
)
    requires
        0 <= i < bytes.len(),
        forall|j: int, k: int| 0 <= j < bytes.len() && 0 <= k < bytes.len() && j != k ==> #[trigger] pos_at(e, start, j)
            != #[trigger] pos_at(e, start, k),
    ensures
        write_user_bytes(e, m, start, bytes).contains_key(phys_pos(e, (start + i) as usize)),
        write_user_bytes(e, m, start, bytes)[phys_pos(e, (start + i) as usize)] == bytes[i],
    decreases bytes.len(),
{
    let n = bytes.len() as int;
    if i < n - 1 {
        let init = bytes.drop_last();
        assert(pos_at(e, start, i) != pos_at(e, start, n - 1));
        lemma_write_user_bytes_read(e, m, start, init, i);
    }
}

/// Writing user bytes leaves every other physical place as it was.
pub proof fn lemma_write_user_bytes_other(
    e: Map<usize, PageTableEntry>,
    m: Map<(usize, usize), u8>,
    start: usize,
    bytes: Seq<u8>,
    ppn: usize,
    off: usize,
)
    requires
        forall|i: int| 0 <= i < bytes.len() ==> #[trigger] pos_at(e, start, i).0 != ppn,
    ensures
        byte_at(write_user_bytes(e, m, start, bytes), ppn, off) == byte_at(m, ppn, off),
    decreases bytes.len(),
{
    if bytes.len() > 0 {
        let n = bytes.len() as int;
        assert(pos_at(e, start, n - 1).0 != ppn);
        lemma_write_user_bytes_other(e, m, start, bytes.drop_last(), ppn, off);
    }
}

/// Distinct user addresses below the top of the address space that lie in
/// mapped pages live in distinct physical places.
pub proof fn lemma_phys_pos_injective(ms: MemorySet, frames: RecycleState, a: usize, b: usize)
    requires
        ms.owns_frames(frames),
        a != b,
        (a as int) < VA_SPACE as int,
        (b as int) < VA_SPACE as int,
        ms.mapped(vpn_of(a) as usize),
        ms.mapped(vpn_of(b) as usize),
    ensures
        phys_pos(ms.entries(), a) != phys_pos(ms.entries(), b),
{
    let (va, vb) = (vpn_of(a) as usize, vpn_of(b) as usize);
    assert(va_of(a) == a as int);
    assert(va_of(b) == b as int);
    if va == vb {
        assert(offset_of(a) != offset_of(b)) by (nonlinear_arith)
            requires
                a != b,
                a as int / 4096 == b as int / 4096,
                offset_of(a) == a as int % 4096,
                offset_of(b) == b as int % 4096,
        {
        }
    } else {
        assert(ms.mapped(va) && ms.mapped(vb));
    }
}

impl PhysMemory {
    /// Copies frame `src` into frame `dst`.
    pub fn copy_frame(&mut self, src: usize, dst: usize)
        requires
            src != dst,
        ensures
            forall|o: usize| o < PAGE_SIZE ==> #[trigger] final(self).view_byte(dst, o) == old(self).view_byte(src, o),
            forall|p: usize, o: usize| p != dst ==> #[trigger] final(self).view_byte(p, o) == old(self).view_byte(p, o),
    {
        let ghost orig = self.bytes@;
        let mut o: usize = 0;
        while o < PAGE_SIZE
            invariant
                o <= PAGE_SIZE,
                src != dst,
                orig == old(self).bytes@,
                forall|x: usize| x < o ==> #[trigger] byte_at(self.bytes@, dst, x) == byte_at(orig, src, x),
                forall|p: usize, x: usize| p != dst ==> #[trigger] byte_at(self.bytes@, p, x) == byte_at(orig, p, x),
            decreases PAGE_SIZE - o,
        {
            let b = self.read_byte(src, o);
            let ghost before = self.bytes@;
            self.write_byte(dst, o, b);
            assert forall|p: usize, x: usize| (p, x) != (dst, o) implies #[trigger] byte_at(self.bytes@, p, x)
                == byte_at(before, p, x) by {}
            o += 1;
        }
    }
}

/// The address space `child` has an entry for exactly the mapped pages of
/// `parent`, each mapped with the same flags.
pub open spec fn copies_pages(parent: MemorySet, child: MemorySet) -> bool {
    &&& forall|v: usize| #[trigger] child.entries().contains_key(v) <==> parent.mapped(v)
    &&& forall|v: usize| #[trigger] parent.mapped(v) ==> child.mapped(v) && child.entries()[v].flags == parent.entries()[v].flags
}

impl MemorySet {
    /// A copy of the user address space `user`: a fresh root frame, and
    /// every mapped page copied into a fresh frame with the same flags.
    pub fn from_existed_user(user: &MemorySet, frames: &mut FrameAllocator, mem: &mut PhysMemory) -> (ms: MemorySet)
        requires
            old(frames).wf(),
            user.owns_frames(old(frames).state()),
            old(frames).free() >= user.page_table@.dom().filter(|v: usize| user.mapped(v)).len() + 1,
        ensures
            final(frames).wf(),
            final(frames).end == old(frames).end,
            !old(frames).state().in_use().contains(ms.root_ppn),
            final(frames).state().in_use().contains(ms.root_ppn),
            copies_pages(*user, ms),
            ms.owns_frames(final(frames).state()),
            user.owns_frames(final(frames).state()),
            forall|v: usize| #[trigger] ms.mapped(v) ==> !old(frames).state().in_use().contains(ms.entries()[v].ppn)
                && ms.entries()[v].ppn != ms.root_ppn,
            forall|v: usize, o: usize| #[trigger] user.mapped(v) && o < PAGE_SIZE ==> #[trigger] final(mem).view_byte(
                ms.entries()[v].ppn,
                o,
            ) == old(mem).view_byte(user.entries()[v].ppn, o),
            forall|p: usize, o: usize| old(frames).state().in_use().contains(p) ==> #[trigger] final(mem).view_byte(p, o)
                == old(mem).view_byte(p, o),
            final(frames).state().in_use() == old(frames).state().in_use().insert(ms.root_ppn) + Set::new(
                |p: usize| exists|v: usize| #[trigger] ms.mapped(v) && ms.entries()[v].ppn == p,
            ),
    {
        let ghost s0 = frames.state();
        let ghost m0 = *mem;
        let ghost valid = user.page_table@.dom().filter(|v: usize| user.mapped(v));
        let root = frames.frame_alloc().unwrap();
        let mut ms = MemorySet::new_bare(root);
        let keys = crate::deadlock::keys_of(&user.page_table);
        proof {
            assert(keys@.subrange(0, keys.len() as int) =~= keys@);
            assert(keys@.to_set().filter(|v: usize| user.mapped(v)) =~= valid);
        }
        let mut k: usize = 0;
        while k < keys.len()
            invariant
                k <= keys.len(),
                keys@.no_duplicates(),
                keys@.to_set() =~= user.page_table@.dom(),
                valid == user.page_table@.dom().filter(|v: usize| user.mapped(v)),
                user.owns_frames(s0),
                frames.wf(),
                frames.end == old(frames).end,
                s0 == old(frames).state(),
                m0 == *old(mem),
                ms.root_ppn == root,
                !s0.in_use().contains(root),
                frames.state().in_use().contains(root),
                frames.free() >= keys@.subrange(k as int, keys.len() as int).to_set().filter(|v: usize| user.mapped(v)).len(),
                forall|v: usize| #[trigger] ms.entries().contains_key(v) <==> (user.mapped(v) && keys@.subrange(0, k as int).contains(v)),
                forall|v: usize| #[trigger] ms.entries().contains_key(v) ==> ms.mapped(v) && ms.entries()[v].flags == user.entries()[v].flags,
                ms.owns_frames(frames.state()),
                forall|v: usize| #[trigger] ms.mapped(v) ==> !s0.in_use().contains(ms.entries()[v].ppn) && ms.entries()[v].ppn != root,
                forall|v: usize, o: usize| #[trigger] ms.mapped(v) && o < PAGE_SIZE ==> #[trigger] mem.view_byte(
                    ms.entries()[v].ppn,
                    o,
                ) == m0.view_byte(user.entries()[v].ppn, o),
                forall|p: usize, o: usize| s0.in_use().contains(p) ==> #[trigger] mem.view_byte(p, o) == m0.view_byte(p, o),
                frames.state().in_use() == s0.in_use().insert(root) + Set::new(
                    |p: usize| exists|v: usize| #[trigger] ms.mapped(v) && ms.entries()[v].ppn == p,
                ),
            decreases keys.len() - k,
        {
            let v = keys[k];
            assert(keys@.to_set().contains(v));
            let e = *user.page_table.get(&v).unwrap();
            let ghost rest = keys@.subrange(k as int, keys.len() as int).to_set().filter(|w: usize| user.mapped(w));
            let ghost rest1 = keys@.subrange(k + 1, keys.len() as int).to_set().filter(|w: usize| user.mapped(w));
            proof {
                assert(rest1 =~= if user.mapped(v) { rest.remove(v) } else { rest }) by {
                    assert forall|w: usize| rest1.contains(w) == (if user.mapped(v) { rest.remove(v) } else { rest }).contains(w) by {
                        let sub = keys@.subrange(k as int, keys.len() as int);
                        let sub1 = keys@.subrange(k + 1, keys.len() as int);
                        if sub1.contains(w) {
                            let j = sub1.index_of(w);
                            assert(sub[j + 1] == w);
                            assert(sub.contains(w));
                            assert(keys@[k + 1 + j] == w);
                            assert(w != v);
                        }
                        if sub.contains(w) && w != v {
                            let j = sub.index_of(w);
                            assert(j != 0);
                            assert(sub1[j - 1] == w);
                            assert(sub1.contains(w));
                        }
                    }
                }
                if user.mapped(v) {
                    assert(keys@.subrange(k as int, keys.len() as int)[0] == v);
                    assert(rest.contains(v));
                    vstd::set::axiom_set_remove_len(rest, v);
                }
            }
            let ghost before = ms;
            let ghost fs = frames.state();
            let ghost mb = *mem;
            if e.is_valid() {
                let p = frames.frame_alloc().unwrap();
                proof {
                    assert(user.mapped(v));
                    assert(s0.in_use().contains(e.ppn));
                    assert(fs.in_use().contains(e.ppn));
                }
                mem.copy_frame(e.ppn, p);
                ms.page_table.insert(v, PageTableEntry { ppn: p, flags: e.flags });
                proof {
                    assert(!before.entries().contains_key(v)) by {
                        if before.entries().contains_key(v) {
                            let j = keys@.subrange(0, k as int).index_of(v);
                            assert(keys@[j] == v);
                        }
                    }
                    assert forall|w: usize| #[trigger] ms.entries().contains_key(w) <==> (user.mapped(w) && keys@.subrange(0, k + 1).contains(w)) by {
                        if keys@.subrange(0, k + 1).contains(w) && w != v {
                            let j = keys@.subrange(0, k + 1).index_of(w);
                            assert(keys@.subrange(0, k as int)[j] == w);
                        }
                        if keys@.subrange(0, k as int).contains(w) {
                            let j = keys@.subrange(0, k as int).index_of(w);
                            assert(keys@.subrange(0, k + 1)[j] == w);
                        }
                        if w == v {
                            assert(keys@.subrange(0, k + 1)[k as int] == v);
                        }
                    }
                    assert forall|w: usize| #[trigger] ms.mapped(w) implies !s0.in_use().contains(ms.entries()[w].ppn) && ms.entries()[w].ppn != root by {
                        if w != v {
                            assert(before.mapped(w));
                        }
                    }
                    assert forall|w: usize| #[trigger] ms.mapped(w) implies frames.state().in_use().contains(ms.entries()[w].ppn) by {
                        if w != v {
                            assert(before.mapped(w));
                        }
                    }
                    assert forall|w1: usize, w2: usize| #[trigger] ms.mapped(w1) && #[trigger] ms.mapped(w2) && w1 != w2
                        implies ms.entries()[w1].ppn != ms.entries()[w2].ppn by {
                        if w1 != v && w2 != v {
                            assert(before.mapped(w1) && before.mapped(w2));
                        } else if w1 == v {
                            assert(before.mapped(w2));
                        } else {
                            assert(before.mapped(w1));
                        }
                    }
                    assert forall|w: usize, o: usize| #[trigger] ms.mapped(w) && o < PAGE_SIZE implies #[trigger] mem.view_byte(
                        ms.entries()[w].ppn, o) == m0.view_byte(user.entries()[w].ppn, o) by {
                        if w != v {
                            assert(before.mapped(w));
                            assert(mb.view_byte(before.entries()[w].ppn, o) == m0.view_byte(user.entries()[w].ppn, o));
                        } else {
                            assert(mb.view_byte(e.ppn, o) == m0.view_byte(e.ppn, o));
                        }
                    }
                    assert forall|q: usize, o: usize| s0.in_use().contains(q) implies #[trigger] mem.view_byte(q, o) == m0.view_byte(q, o) by {
                        assert(q != p);
                    }
                    let newset = Set::new(|q: usize| exists|w: usize| #[trigger] ms.mapped(w) && ms.entries()[w].ppn == q);
                    let oldset = Set::new(|q: usize| exists|w: usize| #[trigger] before.mapped(w) && before.entries()[w].ppn == q);
                    assert(newset =~= oldset.insert(p)) by {
                        assert forall|q: usize| newset.contains(q) implies oldset.insert(p).contains(q) by {
                            let w = choose|w: usize| #[trigger] ms.mapped(w) && ms.entries()[w].ppn == q;
                            if w != v {
                                assert(before.mapped(w));
                            }
                        }
                        assert forall|q: usize| oldset.insert(p).contains(q) implies newset.contains(q) by {
                            if q == p {
                                assert(ms.mapped(v));
                            } else {
                                let w = choose|w: usize| #[trigger] before.mapped(w) && before.entries()[w].ppn == q;
                                assert(ms.mapped(w));
                            }
                        }
                    }
                    assert(frames.state().in_use() =~= s0.in_use().insert(root) + newset);
                }
            } else {
                proof {
                    assert(!user.mapped(v));
                    assert forall|w: usize| #[trigger] ms.entries().contains_key(w) <==> (user.mapped(w) && keys@.subrange(0, k + 1).contains(w)) by {
                        if keys@.subrange(0, k + 1).contains(w) && w != v {
                            let j = keys@.subrange(0, k + 1).index_of(w);
                            assert(keys@.subrange(0, k as int)[j] == w);
                        }
                        if keys@.subrange(0, k as int).contains(w) {
                            let j = keys@.subrange(0, k as int).index_of(w);
                            assert(keys@.subrange(0, k + 1)[j] == w);
                        }
                    }
                }
            }
            k += 1;
        }
        proof {
            assert forall|v: usize| #[trigger] ms.entries().contains_key(v) <==> user.mapped(v) by {
                if user.mapped(v) {
                    assert(keys@.to_set().contains(v));
                    let j = keys@.index_of(v);
                    assert(keys@.subrange(0, k as int)[j] == v);
                }
            }
            assert forall|v: usize| #[trigger] user.mapped(v) implies ms.mapped(v) && ms.entries()[v].flags == user.entries()[v].flags by {
                assert(ms.entries().contains_key(v));
            }
            assert forall|v: usize| #[trigger] user.mapped(v) implies user.owns_frames(frames.state()) by {}
            assert forall|v: usize| #[trigger] user.mapped(v) implies frames.state().in_use().contains(user.page_table@[v].ppn) by {}
        }
        ms
    }
}

} // verus!
