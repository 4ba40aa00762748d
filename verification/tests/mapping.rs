use kernel::addr::{PhysAddr, VirtAddr};
use kernel::allocator::{BootInfoAllocator, MemoryRegion, ZeroAllocator};
use kernel::pagetable::{PageMapError, PageTable, PhysMem};
use kernel::paging::{
    Page, PageTableEntry, PageTableEntryFlags, Phys, PhysFrame, FLAG_HUGE_PAGE, FLAG_PRESENT,
    FLAG_WRITABLE,
};

fn present_flags() -> PageTableEntryFlags {
    PageTableEntryFlags::from_bits_truncate(FLAG_PRESENT)
}

fn test_allocator() -> BootInfoAllocator {
    // 512 usable frames starting at 16 MiB
    let regions = vec![
        MemoryRegion { start: 0x0010_0000, end: 0x0030_0000, usable: false },
        MemoryRegion { start: 0x0100_0000, end: 0x0100_0000 + 512 * 4096, usable: true },
    ];
    BootInfoAllocator::init(regions)
}

#[test]
fn frame_start_addresses_must_be_aligned() {
    assert!(PhysFrame::from_start_address(PhysAddr::new(4096)).is_some());
    assert!(PhysFrame::from_start_address(PhysAddr::new(4097)).is_none());
    assert!(PhysFrame::from_start_address(PhysAddr::new(0x0020_0000_0000_0000)).is_none());
    assert_eq!(PhysFrame::containing_address(PhysAddr::new(4097)).start_address().as_u64(), 4096);
}

#[test]
fn zero_entry_is_not_present() {
    let pte = PageTableEntry::new_zero();
    assert_eq!(pte.bits(), 0);
    assert!(pte.frame(0).is_none());
    assert_eq!(pte.flags().bits(), 0);
}

#[test]
fn entry_flags_come_back_out() {
    let frame = PhysFrame::containing_address(PhysAddr::new(0x5000));
    let flags = present_flags().union(PageTableEntryFlags::from_bits_truncate(FLAG_WRITABLE));
    let pte = PageTableEntry::new(frame, flags);
    assert_eq!(pte.flags().bits(), FLAG_PRESENT | FLAG_WRITABLE);
    assert_eq!(pte.bits(), 0x5000 | FLAG_PRESENT | FLAG_WRITABLE);
}

#[test]
fn pte_round_trip() {
    let frame = PhysFrame::containing_address(PhysAddr::new(4096));
    let pte = PageTableEntry::new(frame, present_flags());
    match pte.frame(0) {
        Some(p) => assert_eq!(p.start_address().as_u64(), 4096),
        None => panic!("frame was not returned"),
    }

    let zero_frame = PhysFrame::containing_address(PhysAddr::new(0));
    let pte = PageTableEntry::new(zero_frame, PageTableEntryFlags::empty());
    assert!(pte.frame(0).is_none());
}

#[test]
fn pte_huge_page_decodes_at_its_level() {
    let frame = PhysFrame::containing_address(PhysAddr::new(8000));
    let flags = present_flags().union(PageTableEntryFlags::from_bits_truncate(FLAG_HUGE_PAGE));
    let pte = PageTableEntry::new(frame, flags);
    match pte.frame(1) {
        Some(Phys::Size2Mb(f)) => assert_eq!(f.start_address().as_u64(), 0),
        _ => panic!("expected a 2 MiB frame"),
    }
    match pte.frame(2) {
        Some(Phys::Size1Gb(f)) => assert_eq!(f.start_address().as_u64(), 0),
        _ => panic!("expected a 1 GiB frame"),
    }
}

#[test]
fn unmapped_address_translates_to_none() {
    let table = PageTable::new();
    let mem = PhysMem::new();
    assert!(table.translate_addr(&mem, VirtAddr::new(1234)).is_none());
}

#[test]
fn mapping_scenario() {
    let mut table = PageTable::new();
    let mut mem = PhysMem::new();
    let mut allocator = test_allocator();

    let addr = VirtAddr::new(0xDEAD_BEEF);
    let page = Page::containing_address(addr);
    let frame = match PhysFrame::from_start_address(PhysAddr::new(4096)) {
        Some(f) => f,
        None => panic!("4096 is a frame start"),
    };
    let entry = PageTableEntry::new(frame, present_flags());

    let result = table.map_page(&mut mem, page, entry, &mut allocator);
    assert!(result.is_ok());

    match table.translate_addr(&mem, addr) {
        Some(pa) => assert_eq!(pa.as_u64(), 4096 + (0xDEAD_BEEF & 0xFFF)),
        None => panic!("new page was not mapped to the correct physical frame"),
    }
}

#[test]
fn mapping_covers_the_whole_page() {
    let mut table = PageTable::new();
    let mut mem = PhysMem::new();
    let mut allocator = test_allocator();

    let page = Page::containing_address(VirtAddr::new(0xB8000));
    let frame = PhysFrame::containing_address(PhysAddr::new(0x7000));
    let entry = PageTableEntry::new(frame, present_flags());
    assert!(table.map_page(&mut mem, page, entry, &mut allocator).is_ok());

    assert_eq!(table.translate_addr(&mem, VirtAddr::new(0xB8000)).unwrap().as_u64(), 0x7000);
    assert_eq!(table.translate_addr(&mem, VirtAddr::new(0xB8FFF)).unwrap().as_u64(), 0x7FFF);
    assert!(table.translate_addr(&mem, VirtAddr::new(0xB7FFF)).is_none());
    assert!(table.translate_addr(&mem, VirtAddr::new(0xB9000)).is_none());
}

#[test]
fn remap_rejected() {
    let mut table = PageTable::new();
    let mut mem = PhysMem::new();
    let mut allocator = test_allocator();

    // the VGA buffer address, mapped once at boot
    let vga = VirtAddr::new(0xB8000);
    let page = Page::containing_address(vga);
    let frame = PhysFrame::containing_address(PhysAddr::new(0xB8000));
    let flags = present_flags().union(PageTableEntryFlags::from_bits_truncate(FLAG_WRITABLE));
    let entry = PageTableEntry::new(frame, flags);
    assert!(table.map_page(&mut mem, page, entry, &mut allocator).is_ok());

    let other = PhysFrame::containing_address(PhysAddr::new(0));
    let second = PageTableEntry::new(other, present_flags());
    match table.map_page(&mut mem, page, second, &mut allocator) {
        Err(PageMapError::PageAlreadyMapped) => {}
        Ok(_) => panic!("page should not be remapped"),
        Err(err) => panic!("error mapping page: {:?}", err),
    }
}

#[test]
fn identity_translation() {
    let mut table = PageTable::new();
    let mut mem = PhysMem::new();
    let mut allocator = test_allocator();

    // the bootloader identity-maps the VGA buffer
    let vga = VirtAddr::new(0xB8000);
    let page = Page::containing_address(vga);
    let frame = PhysFrame::containing_address(PhysAddr::new(0xB8000));
    let flags = present_flags().union(PageTableEntryFlags::from_bits_truncate(FLAG_WRITABLE));
    let entry = PageTableEntry::new(frame, flags);
    assert!(table.map_page(&mut mem, page, entry, &mut allocator).is_ok());

    assert_eq!(table.translate_addr(&mem, vga).unwrap().as_u64(), 0xB8000);
}

#[test]
fn mapping_fails_without_frames() {
    let mut table = PageTable::new();
    let mut mem = PhysMem::new();
    let mut allocator = ZeroAllocator {};

    let page = Page::containing_address(VirtAddr::new(0xB8000));
    let frame = PhysFrame::containing_address(PhysAddr::new(0));
    let entry = PageTableEntry::new(frame, present_flags());
    match table.map_page(&mut mem, page, entry, &mut allocator) {
        Err(PageMapError::FrameAllocation) => {}
        other => panic!("expected a frame allocation failure, got {:?}", other),
    }
}

#[test]
fn mapping_a_non_present_entry_translates_to_none() {
    let mut table = PageTable::new();
    let mut mem = PhysMem::new();
    let mut allocator = test_allocator();

    let page = Page::containing_address(VirtAddr::new(0x5000_0000));
    let frame = PhysFrame::containing_address(PhysAddr::new(0x9000));
    let entry = PageTableEntry::new(frame, PageTableEntryFlags::empty());
    assert!(table.map_page(&mut mem, page, entry, &mut allocator).is_ok());
    assert!(table.translate_addr(&mem, VirtAddr::new(0x5000_0000)).is_none());
}

#[test]
fn mapping_leaves_other_pages_alone() {
    let mut table = PageTable::new();
    let mut mem = PhysMem::new();
    let mut allocator = test_allocator();

    let first = Page::containing_address(VirtAddr::new(0x4000_0000_0000));
    let f1 = PhysFrame::containing_address(PhysAddr::new(0x3000));
    assert!(table.map_page(&mut mem, first, PageTableEntry::new(f1, present_flags()), &mut allocator).is_ok());

    let second = Page::containing_address(VirtAddr::new(0x4000_0000_1000));
    let f2 = PhysFrame::containing_address(PhysAddr::new(0x8000));
    assert!(table.map_page(&mut mem, second, PageTableEntry::new(f2, present_flags()), &mut allocator).is_ok());

    assert_eq!(table.translate_addr(&mem, VirtAddr::new(0x4000_0000_0000)).unwrap().as_u64(), 0x3000);
    assert_eq!(table.translate_addr(&mem, VirtAddr::new(0x4000_0000_1FFF)).unwrap().as_u64(), 0x8FFF);
}
