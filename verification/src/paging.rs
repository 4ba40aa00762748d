//! Page-granular building blocks: offsets within a page, indices into a
//! page table, entry flags, 64-bit page-table entries, physical frames, and
//! ranges of virtual pages.

use vstd::prelude::*;

use crate::addr::{sp_align_down, PhysAddr, VirtAddr};

verus! {

/// PRESENT: the entry maps something.
pub const FLAG_PRESENT: u64 = 1;

/// WRITABLE: writes through this mapping are allowed.
pub const FLAG_WRITABLE: u64 = 1 << 1;

/// USER_ACCESSIBLE: ring-3 code may use this mapping.
pub const FLAG_USER_ACCESSIBLE: u64 = 1 << 2;

/// WRITE_THROUGH: write-through caching for this mapping.
pub const FLAG_WRITE_THROUGH: u64 = 1 << 3;

/// DISABLE_CACHE: no caching for this mapping.
pub const FLAG_DISABLE_CACHE: u64 = 1 << 4;

/// ACCESSED: set by the processor on access.
pub const FLAG_ACCESSED: u64 = 1 << 5;

/// DIRTY: set by the processor on write.
pub const FLAG_DIRTY: u64 = 1 << 6;

/// HUGE_PAGE: at a non-leaf level, the entry maps a 2 MiB or 1 GiB frame
/// directly.
pub const FLAG_HUGE_PAGE: u64 = 1 << 7;

/// GLOBAL: the translation survives address-space switches.
pub const FLAG_GLOBAL: u64 = 1 << 8;

/// NO_EXECUTE: instruction fetches through this mapping fault.
pub const FLAG_NO_EXECUTE: u64 = 1 << 63;

/// Every flag bit an entry can carry.
pub const FLAG_ALL: u64 = 0x8000_0000_0000_01ff;

/// The bits of an entry that hold the target frame address: bits 12..52.
pub const ENTRY_ADDR_MASK: u64 = 0x000f_ffff_ffff_f000;

/// Whether a raw entry has PRESENT set.
pub open spec fn sp_present(e: u64) -> bool {
    e & FLAG_PRESENT == FLAG_PRESENT
}

/// Whether a raw entry has HUGE_PAGE set.
pub open spec fn sp_huge(e: u64) -> bool {
    e & FLAG_HUGE_PAGE == FLAG_HUGE_PAGE
}

/// The frame address a raw entry points at.
pub open spec fn sp_entry_addr(e: u64) -> u64 {
    e & ENTRY_ADDR_MASK
}

/// A frame start address: 4 KiB aligned, within the 52 physical address bits.
pub open spec fn sp_frame_ok(f: u64) -> bool {
    f & 0xfff == 0 && f <= ENTRY_ADDR_MASK
}

/// The bit tests the walk makes on a raw entry, and the bounds of the
/// frame addresses decoded from it.
pub proof fn lemma_entry_bits(e: u64)
    ensures
        (e & FLAG_PRESENT == 0) == !sp_present(e),
        (e & FLAG_HUGE_PAGE == 0) == !sp_huge(e),
        sp_entry_addr(e) == e & ENTRY_ADDR_MASK,
        sp_frame_ok(sp_entry_addr(e)),
        sp_frame_ok(e & 0x000f_ffff_c000_0000),
        sp_frame_ok(e & 0x000f_ffff_ffe0_0000),
        (e & 0x000f_ffff_c000_0000) & 0x3fff_ffff == 0,
        (e & 0x000f_ffff_ffe0_0000) & 0x1f_ffff == 0,
{
    assert((e & FLAG_PRESENT == 0) == !sp_present(e) && (e & FLAG_HUGE_PAGE == 0) == !sp_huge(e)
        && sp_frame_ok(sp_entry_addr(e)) && sp_frame_ok(e & 0x000f_ffff_c000_0000) && sp_frame_ok(
        e & 0x000f_ffff_ffe0_0000) && (e & 0x000f_ffff_c000_0000) & 0x3fff_ffff == 0 && (e
        & 0x000f_ffff_ffe0_0000) & 0x1f_ffff == 0) by (bit_vector);
}

/// The residual offsets a huge or leaf mapping keeps are bounded by the
/// mapping's size.
pub proof fn lemma_offset_bounds(a: u64)
    ensures
        a & 0xfff < 4096,
        a & 0x1f_ffff < 0x20_0000,
        a & 0x3fff_ffff < 0x4000_0000,
{
    assert(a & 0xfff < 4096 && a & 0x1f_ffff < 0x20_0000 && a & 0x3fff_ffff < 0x4000_0000)
        by (bit_vector);
}

/// The all-zero entry maps nothing.
pub proof fn lemma_zero_entry()
    ensures
        !sp_present(0u64),
        !sp_huge(0u64),
{
    assert(!sp_present(0u64) && !sp_huge(0u64)) by (bit_vector);
}

/// Truncating a shifted address to 16 bits and then to a table index
/// keeps exactly its low 9 bits.
pub proof fn lemma_index_truncate(a: u64, s: u64)
    ensures
        ((a >> s) as u16) % 512 == (a >> s) & 0x1ff,
{
    assert(((a >> s) as u16) % 512 == (a >> s) & 0x1ff) by (bit_vector);
}

/// The combined PRESENT and WRITABLE flags, as the mapper installs them
/// on intermediate tables.
pub proof fn lemma_rw_entry_flags()
    ensures
        FLAG_PRESENT | FLAG_WRITABLE == 3u64,
        3u64 & FLAG_ALL == 3u64,
        3u64 & FLAG_PRESENT == FLAG_PRESENT,
        3u64 & FLAG_HUGE_PAGE != FLAG_HUGE_PAGE,
{
    assert(FLAG_PRESENT | FLAG_WRITABLE == 3u64 && 3u64 & FLAG_ALL == 3u64 && 3u64 & FLAG_PRESENT
        == FLAG_PRESENT && 3u64 & FLAG_HUGE_PAGE != FLAG_HUGE_PAGE) by (bit_vector);
}

/// A leaf entry built as a frame address or-ed with PRESENT and WRITABLE
/// is present and writable, whatever the frame.
pub proof fn lemma_rw_leaf(f: u64)
    ensures
        sp_present(f | 3u64),
        (f | 3u64) & FLAG_WRITABLE == FLAG_WRITABLE,
{
    assert(sp_present(f | 3u64) && (f | 3u64) & FLAG_WRITABLE == FLAG_WRITABLE) by (bit_vector);
}

/// An offset within a 4 KiB page; guaranteed to hold only values in 0..4096.
#[derive(Clone, Copy, Debug)]
pub struct PageOffset {
    offset: u16,
}

impl View for PageOffset {
    type V = u16;

    closed spec fn view(&self) -> u16 {
        self.offset
    }
}

impl PageOffset {
    #[verifier::type_invariant]
    pub open spec fn wf(self) -> bool {
        self@ < 4096
    }

    /// Truncates the argument to the low 12 bits.
    #[inline]
    pub fn new_truncate(offset: u16) -> (r: PageOffset)
        ensures
            r@ == offset % 4096,
    {
        PageOffset { offset: offset % 4096 }
    }

    #[inline]
    pub fn as_u64(self) -> (r: u64)
        ensures
            r == self@,
    {
        self.offset as u64
    }
}

/// An index into a 512-entry page table; guaranteed to hold only values in
/// 0..512.
#[derive(Clone, Copy, Debug)]
pub struct PageTableIndex {
    index: u16,
}

impl View for PageTableIndex {
    type V = u16;

    closed spec fn view(&self) -> u16 {
        self.index
    }
}

impl PageTableIndex {
    #[verifier::type_invariant]
    pub open spec fn wf(self) -> bool {
        self@ < 512
    }

    /// Creates a new index, truncating all but the lower 9 bits.
    #[inline]
    pub fn new_truncate(index: u16) -> (r: PageTableIndex)
        ensures
            r@ == index % 512,
    {
        PageTableIndex { index: index % 512 }
    }

    #[inline]
    pub fn as_usize(self) -> (r: usize)
        ensures
            r == self@,
    {
        self.index as usize
    }
}

/// The flag bits of a page-table entry; guaranteed to hold only defined
/// flag bits.
#[derive(Clone, Copy, Debug)]
pub struct PageTableEntryFlags {
    bits: u64,
}

impl View for PageTableEntryFlags {
    type V = u64;

    closed spec fn view(&self) -> u64 {
        self.bits
    }
}

impl PageTableEntryFlags {
    #[verifier::type_invariant]
    pub open spec fn wf(self) -> bool {
        self@ & FLAG_ALL == self@
    }

    /// No flags at all; as a whole entry this means "not present".
    #[inline]
    pub fn empty() -> (r: PageTableEntryFlags)
        ensures
            r@ == 0,
    {
        proof {
            assert(0u64 & FLAG_ALL == 0u64) by (bit_vector);
        }
        PageTableEntryFlags { bits: 0 }
    }

    /// Keeps the defined flag bits of `bits` and drops the rest.
    #[inline]
    pub fn from_bits_truncate(bits: u64) -> (r: PageTableEntryFlags)
        ensures
            r@ == bits & FLAG_ALL,
    {
        proof {
            assert((bits & FLAG_ALL) & FLAG_ALL == bits & FLAG_ALL) by (bit_vector);
        }
        PageTableEntryFlags { bits: bits & FLAG_ALL }
    }

    #[inline]
    pub fn bits(&self) -> (r: u64)
        ensures
            r == self@,
    {
        self.bits
    }

    /// Whether every flag of `other` is also set in `self`.
    #[inline]
    pub fn contains(&self, other: PageTableEntryFlags) -> (r: bool)
        ensures
            r == (self@ & other@ == other@),
    {
        self.bits & other.bits == other.bits
    }

    /// The flags set in `self` or in `other`.
    #[inline]
    pub fn union(self, other: PageTableEntryFlags) -> (r: PageTableEntryFlags)
        ensures
            r@ == (self@ | other@),
    {
        proof {
            use_type_invariant(self);
            use_type_invariant(other);
            let a = self@;
            let b = other@;
            assert(a & FLAG_ALL == a && b & FLAG_ALL == b ==> (a | b) & FLAG_ALL == (a | b))
                by (bit_vector);
        }
        PageTableEntryFlags { bits: self.bits | other.bits }
    }
}

/// A 4 KiB-aligned physical frame start address.
#[derive(Clone, Copy, Debug, PartialEq, Eq, Structural)]
pub struct PhysFrame {
    start: u64,
}

impl View for PhysFrame {
    type V = u64;

    closed spec fn view(&self) -> u64 {
        self.start
    }
}

impl PhysFrame {
    #[verifier::type_invariant]
    pub open spec fn wf(self) -> bool {
        sp_frame_ok(self@)
    }

    /// The frame holding the given physical address.
    #[inline]
    pub fn containing_address(addr: PhysAddr) -> (r: PhysFrame)
        ensures
            r@ == addr@ & ENTRY_ADDR_MASK,
    {
        proof {
            let a = addr@;
            assert(sp_frame_ok(a & ENTRY_ADDR_MASK)) by (bit_vector);
        }
        PhysFrame { start: addr.as_u64() & ENTRY_ADDR_MASK }
    }

    /// The frame starting exactly at the given address, or `None` when the
    /// address is not a valid frame start.
    #[inline]
    pub fn from_start_address(addr: PhysAddr) -> (r: Option<PhysFrame>)
        ensures
            (r is Some) == sp_frame_ok(addr@),
            r matches Some(f) ==> f@ == addr@,
    {
        let a = addr.as_u64();
        if a & 0xfff == 0 && a <= ENTRY_ADDR_MASK {
            Some(PhysFrame { start: a })
        } else {
            None
        }
    }

    #[inline]
    pub fn start_address(&self) -> (r: PhysAddr)
        ensures
            r@ == self@,
            sp_frame_ok(self@),
    {
        proof {
            use_type_invariant(self);
        }
        PhysAddr::new(self.start)
    }
}

/// A 2 MiB-aligned physical frame start address.
#[derive(Clone, Copy, Debug)]
pub struct Frame2Mb {
    frame: PhysFrame,
}

impl View for Frame2Mb {
    type V = u64;

    closed spec fn view(&self) -> u64 {
        self.frame@
    }
}

impl Frame2Mb {
    #[verifier::type_invariant]
    pub open spec fn wf(self) -> bool {
        self@ & 0x1f_ffff == 0
    }

    pub fn start_address(&self) -> (r: PhysAddr)
        ensures
            r@ == self@,
            sp_frame_ok(self@),
            self@ & 0x1f_ffff == 0,
    {
        proof {
            use_type_invariant(self);
        }
        self.frame.start_address()
    }
}

/// A 1 GiB-aligned physical frame start address.
#[derive(Clone, Copy, Debug)]
pub struct Frame1Gb {
    frame: PhysFrame,
}

impl View for Frame1Gb {
    type V = u64;

    closed spec fn view(&self) -> u64 {
        self.frame@
    }
}

impl Frame1Gb {
    #[verifier::type_invariant]
    pub open spec fn wf(self) -> bool {
        self@ & 0x3fff_ffff == 0
    }

    pub fn start_address(&self) -> (r: PhysAddr)
        ensures
            r@ == self@,
            sp_frame_ok(self@),
            self@ & 0x3fff_ffff == 0,
    {
        proof {
            use_type_invariant(self);
        }
        self.frame.start_address()
    }
}

/// A physical frame decoded from a page-table entry, tagged with its size
/// class; each size class carries its own alignment.
#[derive(Clone, Copy, Debug)]
pub enum Phys {
    Size4Kb(PhysFrame),
    Size2Mb(Frame2Mb),
    Size1Gb(Frame1Gb),
}

impl Phys {
    /// The start address of the frame, whatever its size class.
    pub open spec fn sp_start(self) -> u64 {
        match self {
            Phys::Size4Kb(f) => f@,
            Phys::Size2Mb(f) => f@,
            Phys::Size1Gb(f) => f@,
        }
    }

    pub fn start_address(self) -> (r: PhysAddr)
        ensures
            r@ == self.sp_start(),
            sp_frame_ok(self.sp_start()),
            self matches Phys::Size2Mb(_) ==> self.sp_start() & 0x1f_ffff == 0,
            self matches Phys::Size1Gb(_) ==> self.sp_start() & 0x3fff_ffff == 0,
    {
        match self {
            Phys::Size4Kb(f) => f.start_address(),
            Phys::Size2Mb(f) => f.start_address(),
            Phys::Size1Gb(f) => f.start_address(),
        }
    }
}

/// A 64-bit page-table entry: bits 12..52 hold the target frame address,
/// the low bits and bit 63 hold the flags.
#[derive(Clone, Copy, Debug, PartialEq, Eq, Structural)]
pub struct PageTableEntry {
    entry: u64,
}

impl View for PageTableEntry {
    type V = u64;

    closed spec fn view(&self) -> u64 {
        self.entry
    }
}

impl PageTableEntry {
    /// An entry mapping `frame` with `flags`. The entry is the bitwise or of
    /// the two; whether HUGE_PAGE suits the frame's size class is the
    /// caller's business.
    pub fn new(frame: PhysFrame, flags: PageTableEntryFlags) -> (r: PageTableEntry)
        ensures
            r@ == (frame@ | flags@),
            sp_entry_addr(r@) == frame@,
            sp_present(r@) == (flags@ & FLAG_PRESENT == FLAG_PRESENT),
            sp_huge(r@) == (flags@ & FLAG_HUGE_PAGE == FLAG_HUGE_PAGE),
    {
        proof {
            use_type_invariant(frame);
            use_type_invariant(flags);
            let f = frame@;
            let b = flags@;
            assert(sp_frame_ok(f) && b & FLAG_ALL == b ==> sp_entry_addr(f | b) == f
                && ((f | b) & FLAG_PRESENT == FLAG_PRESENT) == (b & FLAG_PRESENT == FLAG_PRESENT)
                && ((f | b) & FLAG_HUGE_PAGE == FLAG_HUGE_PAGE) == (b & FLAG_HUGE_PAGE
                == FLAG_HUGE_PAGE)) by (bit_vector);
        }
        PageTableEntry { entry: frame.start_address().as_u64() | flags.bits() }
    }

    /// The all-zero entry: not present.
    #[inline]
    pub fn new_zero() -> (r: PageTableEntry)
        ensures
            r@ == 0,
    {
        PageTableEntry { entry: 0 }
    }

    /// An entry with exactly the given raw bits.
    #[inline]
    pub fn from_bits(bits: u64) -> (r: PageTableEntry)
        ensures
            r@ == bits,
    {
        PageTableEntry { entry: bits }
    }

    #[inline]
    pub fn bits(self) -> (r: u64)
        ensures
            r == self@,
    {
        self.entry
    }

    #[inline]
    pub fn flags(self) -> (r: PageTableEntryFlags)
        ensures
            r@ == self@ & FLAG_ALL,
    {
        PageTableEntryFlags::from_bits_truncate(self.entry)
    }

    /// Decodes the frame this entry maps, given the level of the table the
    /// entry sits in (level 0 is the leaf, level 3 the root). A huge entry
    /// at level 2 maps a 1 GiB frame and at level 1 a 2 MiB frame; a huge
    /// entry anywhere else is an invariant violation, which the caller rules
    /// out.
    pub fn frame(self, level: usize) -> (r: Option<Phys>)
        requires
            sp_present(self@) && sp_huge(self@) ==> level == 1 || level == 2,
        ensures
            (r is Some) == sp_present(self@),
            sp_present(self@) && !sp_huge(self@) ==> (r matches Some(Phys::Size4Kb(f)) && f@
                == sp_entry_addr(self@)),
            sp_present(self@) && sp_huge(self@) && level == 2 ==> (r matches Some(
                Phys::Size1Gb(f),
            ) && f@ == self@ & 0x000f_ffff_c000_0000),
            sp_present(self@) && sp_huge(self@) && level == 1 ==> (r matches Some(
                Phys::Size2Mb(f),
            ) && f@ == self@ & 0x000f_ffff_ffe0_0000),
    {
        let e = self.entry;
        proof {
            lemma_entry_bits(e);
        }
        if e & FLAG_PRESENT == 0 {
            return None;
        }
        if e & FLAG_HUGE_PAGE != 0 {
            if level == 2 {
                Some(Phys::Size1Gb(Frame1Gb { frame: PhysFrame { start: e & 0x000f_ffff_c000_0000 } }))
            } else if level == 1 {
                Some(Phys::Size2Mb(Frame2Mb { frame: PhysFrame { start: e & 0x000f_ffff_ffe0_0000 } }))
            } else {
                proof {
                    assert(false);
                }
                None
            }
        } else {
            Some(Phys::Size4Kb(PhysFrame { start: e & ENTRY_ADDR_MASK }))
        }
    }
}

/// A 4 KiB-aligned virtual address: the unit the mapper works in.
#[derive(Clone, Copy, Debug, PartialEq, Eq, Structural)]
pub struct Page {
    addr: VirtAddr,
}

impl View for Page {
    type V = u64;

    closed spec fn view(&self) -> u64 {
        self.addr@
    }
}

impl Page {
    #[verifier::type_invariant]
    pub open spec fn wf(self) -> bool {
        self@ & 0xfff == 0
    }

    /// The page holding the given virtual address.
    #[inline]
    pub fn containing_address(addr: VirtAddr) -> (r: Page)
        ensures
            r@ == sp_align_down(addr@),
    {
        proof {
            let a = addr@;
            assert((a & 0xffff_ffff_ffff_f000) & 0xfff == 0) by (bit_vector);
        }
        Page { addr: addr.align_down() }
    }

    #[inline]
    pub fn as_virt_addr(self) -> (r: VirtAddr)
        ensures
            r@ == self@,
            self@ & 0xfff == 0,
    {
        proof {
            use_type_invariant(self);
        }
        self.addr
    }

    #[inline]
    pub fn as_u64(self) -> (r: u64)
        ensures
            r == self@,
            self@ & 0xfff == 0,
    {
        proof {
            use_type_invariant(self);
        }
        self.addr.as_u64()
    }

    /// The page `rhs` pages above this one.
    pub fn add(self, rhs: u64) -> (r: Page)
        requires
            self@ + 4096 * rhs <= u64::MAX,
        ensures
            r@ == self@ + 4096 * rhs,
    {
        proof {
            use_type_invariant(self);
            let a = self@;
            assert(a & 0xfff == 0 && a + 4096 * rhs <= 0xffff_ffff_ffff_ffff ==> sp_align_down(
                (a + 4096 * rhs) as u64) == a + 4096 * rhs) by (bit_vector);
        }
        Page::containing_address(self.addr.add(4096 * rhs))
    }
}

/// How many pages a range from `s` to `e` yields: one per page boundary
/// from `s` up to but excluding `e`.
pub open spec fn sp_range_len(s: u64, e: u64) -> int {
    if s < e {
        ((e - s) + 4095) / 4096
    } else {
        0
    }
}

/// An iteration over the pages from `start` up to but excluding `end`.
/// The name is historical: the range is half-open, and empty unless
/// `start < end`.
#[derive(Clone, Copy, Debug)]
pub struct PageRangeInclusive {
    start: Page,
    end: Page,
}

impl View for PageRangeInclusive {
    type V = (u64, u64);

    closed spec fn view(&self) -> (u64, u64) {
        (self.start@, self.end@)
    }
}

impl PageRangeInclusive {
    #[verifier::type_invariant]
    pub open spec fn wf(self) -> bool {
        self@.0 & 0xfff == 0 && self@.1 & 0xfff == 0
    }

    pub fn new(start: Page, end: Page) -> (r: PageRangeInclusive)
        ensures
            r@ == (start@, end@),
    {
        proof {
            use_type_invariant(start);
            use_type_invariant(end);
        }
        PageRangeInclusive { start, end }
    }

    /// The next page of the range, stepping `start` upward, or `None` once
    /// `start` has reached `end`.
    pub fn next(&mut self) -> (r: Option<Page>)
        ensures
            old(self)@.0 < old(self)@.1 ==> (r matches Some(p) && p@ == old(self)@.0
                && final(self)@ == ((old(self)@.0 + 4096) as u64, old(self)@.1)),
            old(self)@.0 >= old(self)@.1 ==> r is None && final(self)@ == old(self)@,
    {
        proof {
            use_type_invariant(&*self);
        }
        if self.start.as_u64() < self.end.as_u64() {
            proof {
                let s = self@.0;
                let e = self@.1;
                assert(s & 0xfff == 0 && e & 0xfff == 0 && s < e ==> s + 4096 <= e && ((s + 4096)
                    as u64) & 0xfff == 0) by (bit_vector);
            }
            let p = self.start;
            self.start = self.start.add(1);
            Some(p)
        } else {
            None
        }
    }
}

/// The exact page count of a range between page-aligned addresses: the
/// byte distance divided by 4096 when the range is nonempty, zero
/// otherwise.
pub proof fn lemma_page_range_count(s: u64, e: u64)
    requires
        s & 0xfff == 0,
        e & 0xfff == 0,
    ensures
        s < e ==> sp_range_len(s, e) == (e - s) / 4096 && sp_range_len(s, e) > 0,
        s >= e ==> sp_range_len(s, e) == 0,
{
    if s < e {
        assert(s & 0xfff == 0 && e & 0xfff == 0 && s < e ==> ((e - s) + 4095) / 4096 == (e - s)
            / 4096 && (e - s) / 4096 > 0) by (bit_vector);
    }
}

/// An entry built from a 4 KiB frame and flags without HUGE_PAGE decodes
/// back to exactly that frame when the flags contain PRESENT, and to
/// nothing otherwise.
pub proof fn lemma_entry_frame_round_trip(f: u64, flags: u64)
    requires
        sp_frame_ok(f),
        flags & FLAG_ALL == flags,
        flags & FLAG_HUGE_PAGE == 0,
    ensures
        sp_present(f | flags) == (flags & FLAG_PRESENT == FLAG_PRESENT),
        !sp_huge(f | flags),
        sp_entry_addr(f | flags) == f,
{
    assert(f & 0xfff == 0 && f <= ENTRY_ADDR_MASK && flags & FLAG_ALL == flags && flags
        & FLAG_HUGE_PAGE == 0 ==> (sp_present(f | flags) == (flags & FLAG_PRESENT == FLAG_PRESENT))
        && !sp_huge(f | flags) && sp_entry_addr(f | flags) == f) by (bit_vector);
}

} // verus!
