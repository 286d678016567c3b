use rcore_os::mm::{
    ceil_vpn, floor_vpn, page_offset, virt_addr, FrameAllocator, MemorySet, PageTableEntry, PhysMemory,
    PTE_R, PTE_U, PTE_V, PTE_W,
};

#[test]
fn address_arithmetic() {
    assert_eq!(floor_vpn(0x1fff), 1);
    assert_eq!(ceil_vpn(0x1001), 2);
    assert_eq!(ceil_vpn(0x1000), 1);
    assert_eq!(ceil_vpn(0), 0);
    assert_eq!(page_offset(0x1234), 0x234);
    assert_eq!(virt_addr(0x80_0000_1234), 0x1234);
    assert_eq!(virt_addr(0x7f_ffff_ffff), 0x7f_ffff_ffff);
}

#[test]
fn entry_flags() {
    let e = PageTableEntry { ppn: 5, flags: PTE_V | PTE_R | PTE_U };
    assert!(e.is_valid());
    assert!(e.readable());
    assert!(!e.writable());
    assert!(e.user_accessible());
    let z = PageTableEntry::empty();
    assert!(!z.is_valid());
    assert_eq!(z.ppn, 0);
}

#[test]
fn frame_allocator_counts_and_recycles() {
    let mut f = FrameAllocator::new(100, 103);
    assert_eq!(f.free_frames(), 3);
    assert_eq!(f.frame_alloc(), Some(100));
    assert_eq!(f.frame_alloc(), Some(101));
    assert_eq!(f.frame_alloc(), Some(102));
    assert_eq!(f.frame_alloc(), None);
    assert_eq!(f.free_frames(), 0);
    f.frame_dealloc(101);
    assert_eq!(f.free_frames(), 1);
    assert_eq!(f.frame_alloc(), Some(101));
}

#[test]
fn token_selects_sv39() {
    let ms = MemorySet::new_bare(0x80123);
    assert_eq!(ms.token(), (8usize << 60) | 0x80123);
}

#[test]
fn map_range_then_unmap_range() {
    let mut f = FrameAllocator::new(10, 20);
    let mut mem = PhysMemory::new();
    mem.write_byte(10, 7, 0xaa);
    let mut ms = MemorySet::new_bare(1);
    ms.map_range(&mut f, &mut mem, 4, 7, PTE_R | PTE_W | PTE_U);
    assert_eq!(f.free_frames(), 7);
    for (i, vpn) in (4..7).enumerate() {
        let e = ms.translate(vpn).unwrap();
        assert_eq!(e.ppn, 10 + i);
        assert_eq!(e.flags, PTE_V | PTE_R | PTE_W | PTE_U);
    }
    // fresh frames are cleared
    assert_eq!(mem.read_byte(10, 7), 0);
    assert!(ms.translate(7).is_none());
    // a range with an unmapped page is refused and nothing changes
    assert!(!ms.unmap_range(&mut f, 5, 8));
    assert!(ms.translate(5).unwrap().is_valid());
    assert_eq!(f.free_frames(), 7);
    assert!(ms.unmap_range(&mut f, 4, 7));
    assert_eq!(f.free_frames(), 10);
    assert!(!ms.translate(4).unwrap().is_valid());
    // the frames come back last first
    assert_eq!(f.frame_alloc(), Some(12));
}

#[test]
fn copy_frame_and_zero_frame() {
    let mut mem = PhysMemory::new();
    mem.write_byte(3, 0, 1);
    mem.write_byte(3, 4095, 2);
    mem.copy_frame(3, 4);
    assert_eq!(mem.read_byte(4, 0), 1);
    assert_eq!(mem.read_byte(4, 4095), 2);
    mem.zero_frame(3);
    assert_eq!(mem.read_byte(3, 0), 0);
    assert_eq!(mem.read_byte(4, 0), 1);
}

#[test]
fn from_existed_user_copies_pages() {
    let mut f = FrameAllocator::new(10, 30);
    let mut mem = PhysMemory::new();
    let mut ms = MemorySet::new_bare(1);
    ms.map_range(&mut f, &mut mem, 0, 2, PTE_R | PTE_U);
    let p0 = ms.translate(0).unwrap().ppn;
    mem.write_byte(p0, 9, 42);
    let child = MemorySet::from_existed_user(&ms, &mut f, &mut mem);
    let c0 = child.translate(0).unwrap();
    assert_ne!(c0.ppn, p0);
    assert_eq!(c0.flags, PTE_V | PTE_R | PTE_U);
    assert_eq!(mem.read_byte(c0.ppn, 9), 42);
    assert!(child.translate(1).unwrap().is_valid());
    assert!(child.translate(2).is_none());
    assert_ne!(child.root_ppn, 1);
    // one root frame and two page frames were taken
    assert_eq!(f.free_frames(), 20 - 2 - 3);
}

#[test]
fn release_frames_returns_every_mapped_frame() {
    let mut f = FrameAllocator::new(10, 20);
    let mut mem = PhysMemory::new();
    let mut ms = MemorySet::new_bare(1);
    ms.map_range(&mut f, &mut mem, 0, 4, PTE_R | PTE_U);
    assert_eq!(f.free_frames(), 6);
    ms.release_frames(&mut f);
    assert_eq!(f.free_frames(), 10);
}
