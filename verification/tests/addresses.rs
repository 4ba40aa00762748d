use kernel::addr::VirtAddr;
use kernel::paging::{
    Page, PageOffset, PageRangeInclusive, PageTableEntryFlags, PageTableIndex, FLAG_HUGE_PAGE,
    FLAG_PRESENT,
};

#[test]
fn index_extraction() {
    let addr = VirtAddr::new(0xE677_BF54_D244);
    assert_eq!(addr.page_offset().as_u64(), 580);
    assert_eq!(addr.page_table_index(0).as_usize(), 333);
    assert_eq!(addr.page_table_index(1).as_usize(), 506);
    assert_eq!(addr.page_table_index(2).as_usize(), 478);
    assert_eq!(addr.page_table_index(3).as_usize(), 460);
}

#[test]
fn align_down() {
    let addr = VirtAddr::new(0xE677_BF54_D244);
    assert_eq!(addr.align_down().as_u64(), 0xE677_BF54_D000);
    assert_eq!(addr.align_down().page_offset().as_u64(), 0);
}

#[test]
fn align_down_keeps_aligned_addresses() {
    let addr = VirtAddr::new(0x1000);
    assert_eq!(addr.align_down().as_u64(), 0x1000);
    assert_eq!(VirtAddr::new(0).align_down().as_u64(), 0);
}

#[test]
fn page_offset_truncate() {
    let offset = PageOffset::new_truncate(12345);
    assert_eq!(offset.as_u64(), 57);
}

#[test]
fn page_table_index_truncate() {
    let index = PageTableIndex::new_truncate(1234);
    assert_eq!(index.as_usize(), 210);
}

#[test]
fn page_arithmetic() {
    let page = Page::containing_address(VirtAddr::new(4096));
    assert_eq!(page.add(5).as_u64(), 24_576);
}

#[test]
fn page_arithmetic_zero_steps() {
    let page = Page::containing_address(VirtAddr::new(0xDEAD_B000));
    assert_eq!(page.add(0).as_u64(), 0xDEAD_B000);
}

#[test]
fn range_iteration() {
    let start_page = Page::containing_address(VirtAddr::new(0));
    let end_page = Page::containing_address(VirtAddr::new(20_000));
    let mut range = PageRangeInclusive::new(start_page, end_page);

    let mut c: u64 = 0;
    while let Some(page) = range.next() {
        assert_eq!(page.as_u64(), c * 4096);
        c += 1;
    }
    assert_eq!(c, 4);
}

#[test]
fn range_iteration_reversed_is_empty() {
    let start_page = Page::containing_address(VirtAddr::new(20_000));
    let end_page = Page::containing_address(VirtAddr::new(0));
    let mut range = PageRangeInclusive::new(start_page, end_page);
    assert!(range.next().is_none());
}

#[test]
fn range_iteration_empty() {
    let page = Page::containing_address(VirtAddr::new(0));
    let mut range = PageRangeInclusive::new(page, page);
    assert!(range.next().is_none());
}

#[test]
fn truncation_at_the_boundaries() {
    assert_eq!(PageOffset::new_truncate(4095).as_u64(), 4095);
    assert_eq!(PageOffset::new_truncate(4096).as_u64(), 0);
    assert_eq!(PageTableIndex::new_truncate(511).as_usize(), 511);
    assert_eq!(PageTableIndex::new_truncate(512).as_usize(), 0);
}

#[test]
fn virt_addr_add_is_byte_granular() {
    let addr = VirtAddr::new(10);
    assert_eq!(addr.add(5).as_u64(), 15);
    assert_eq!(addr.as_u64(), 10);
}

#[test]
fn flags_contain_and_union() {
    let p = PageTableEntryFlags::from_bits_truncate(FLAG_PRESENT);
    let h = PageTableEntryFlags::from_bits_truncate(FLAG_HUGE_PAGE);
    let both = p.union(h);
    assert!(both.contains(p));
    assert!(both.contains(h));
    assert!(!p.contains(h));
    assert_eq!(both.bits(), FLAG_PRESENT | FLAG_HUGE_PAGE);
    assert_eq!(PageTableEntryFlags::empty().bits(), 0);
    assert_eq!(PageTableEntryFlags::from_bits_truncate(0xABCD).bits(), 0xABCD & 0x8000_0000_0000_01FF);
}
