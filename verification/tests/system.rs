use kernel::addr::VirtAddr;
use kernel::allocator::{
    init_heap, BootInfoAllocator, FrameAllocator, MemoryRegion, ZeroAllocator, HEAP_SIZE,
    HEAP_START,
};
use kernel::memory::MemorySystem;
use kernel::pagetable::{PageTable, PhysMem};
use kernel::process::{ProcessTable, State};

fn boot_regions() -> Vec<MemoryRegion> {
    vec![
        MemoryRegion { start: 0x0000_0000, end: 0x0008_0000, usable: false },
        MemoryRegion { start: 0x0100_0000, end: 0x0100_0000 + 512 * 4096, usable: true },
        MemoryRegion { start: 0x0300_0000, end: 0x0300_0000 + 64 * 4096, usable: true },
    ]
}

#[test]
fn allocator_produces_distinct_frames() {
    let mut allocator = BootInfoAllocator::init(boot_regions());
    let a = allocator.allocate().unwrap().start_address().as_u64();
    let b = allocator.allocate().unwrap().start_address().as_u64();
    let c = allocator.allocate().unwrap().start_address().as_u64();
    assert_ne!(a, b);
    assert_ne!(a, c);
    assert_ne!(b, c);
}

#[test]
fn allocator_walks_usable_regions_in_order() {
    let mut allocator = BootInfoAllocator::init(boot_regions());
    assert_eq!(allocator.allocate().unwrap().start_address().as_u64(), 0x0100_0000);
    assert_eq!(allocator.allocate().unwrap().start_address().as_u64(), 0x0100_1000);
}

#[test]
fn allocator_crosses_region_boundaries() {
    let regions = vec![
        MemoryRegion { start: 0x1000, end: 0x2000, usable: true },
        MemoryRegion { start: 0x8000, end: 0x9000, usable: true },
    ];
    let mut allocator = BootInfoAllocator::init(regions);
    assert_eq!(allocator.allocate().unwrap().start_address().as_u64(), 0x1000);
    assert_eq!(allocator.allocate().unwrap().start_address().as_u64(), 0x8000);
    assert!(allocator.allocate().is_none());
    assert!(allocator.allocate().is_none());
}

#[test]
fn zero_allocator_never_allocates() {
    let mut allocator = ZeroAllocator {};
    assert!(allocator.allocate().is_none());
}

#[test]
fn heap_initialization_maps_the_heap_range() {
    let mut root = PageTable::new();
    let mut mem = PhysMem::new();
    let mut allocator = BootInfoAllocator::init(boot_regions());

    assert!(init_heap(&mut root, &mut mem, &mut allocator).is_ok());

    let first = root.translate_addr(&mem, VirtAddr::new(HEAP_START));
    assert!(first.is_some());
    let last = root.translate_addr(&mem, VirtAddr::new(HEAP_START + HEAP_SIZE - 1));
    assert!(last.is_some());
    let outside = root.translate_addr(&mem, VirtAddr::new(HEAP_START + HEAP_SIZE));
    assert!(outside.is_none());
}

#[test]
fn heap_pages_get_distinct_frames() {
    let mut root = PageTable::new();
    let mut mem = PhysMem::new();
    let mut allocator = BootInfoAllocator::init(boot_regions());

    assert!(init_heap(&mut root, &mut mem, &mut allocator).is_ok());

    let mut frames: Vec<u64> = Vec::new();
    for k in 0..25u64 {
        let base = root.translate_addr(&mem, VirtAddr::new(HEAP_START + 4096 * k));
        frames.push(base.unwrap().as_u64());
    }
    for j in 0..frames.len() {
        for k in 0..frames.len() {
            if j != k {
                assert_ne!(frames[j], frames[k]);
            }
        }
    }
}

#[test]
fn heap_initialization_fails_without_frames() {
    let mut root = PageTable::new();
    let mut mem = PhysMem::new();
    let mut allocator = ZeroAllocator {};
    assert!(init_heap(&mut root, &mut mem, &mut allocator).is_err());
}

#[test]
fn memory_system_reports_its_offset() {
    let system = MemorySystem::init(0x0000_6000_0000_0000);
    assert_eq!(system.get_offset().as_u64(), 0x0000_6000_0000_0000);
}

#[test]
fn process_allocation_fills_slots_in_order() {
    let mut table = ProcessTable::init_process_list();
    assert_eq!(table.len(), 2);
    assert_eq!(table.slot_state(0), State::Available);

    table.allocate_process();
    assert_eq!(table.slot_state(0), State::Ready);
    assert_eq!(table.slot_process_id(0), 0);
    assert_eq!(table.slot_state(1), State::Available);

    table.allocate_process();
    assert_eq!(table.slot_state(1), State::Ready);
    assert_eq!(table.slot_process_id(1), 1);

    // a full table stays as it is
    table.allocate_process();
    assert_eq!(table.slot_state(0), State::Ready);
    assert_eq!(table.slot_process_id(0), 0);
    assert_eq!(table.slot_state(1), State::Ready);
    assert_eq!(table.slot_process_id(1), 1);
}
