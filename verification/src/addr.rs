//! Virtual and physical address types and their page-granular arithmetic.

use vstd::prelude::*;

use crate::paging::{PageOffset, PageTableIndex};

verus! {

/// The offset within a 4 KiB page: the low 12 bits of an address.
pub open spec fn sp_page_offset(a: u64) -> u64 {
    a & 0xfff
}

/// The address rounded down to the containing 4 KiB page boundary.
pub open spec fn sp_align_down(a: u64) -> u64 {
    a & 0xffff_ffff_ffff_f000
}

/// The 9-bit page-table index that the 4-level walk uses at `level`
/// (level 0 indexes the leaf table, level 3 the root).
pub open spec fn sp_table_index(a: u64, level: u64) -> u64
    recommends
        level <= 3,
{
    (a >> ((12 + 9 * level) as u64)) & 0x1ff
}

/// A 64-bit virtual address.
#[derive(Clone, Copy, Debug, PartialEq, Eq, Structural)]
pub struct VirtAddr {
    addr: u64,
}

impl View for VirtAddr {
    type V = u64;

    closed spec fn view(&self) -> u64 {
        self.addr
    }
}

impl VirtAddr {
    #[inline]
    pub fn new(addr: u64) -> (r: VirtAddr)
        ensures
            r@ == addr,
    {
        VirtAddr { addr }
    }

    /// Aligns downwards to the nearest page boundary.
    #[inline]
    pub fn align_down(&self) -> (r: VirtAddr)
        ensures
            r@ == sp_align_down(self@),
    {
        VirtAddr { addr: self.addr & 0xffff_ffff_ffff_f000 }
    }

    /// The offset of this address within its 4 KiB page.
    #[inline]
    pub fn page_offset(&self) -> (r: PageOffset)
        ensures
            r@ == sp_page_offset(self@),
    {
        proof {
            let a = self.addr;
            assert((a as u16) % 4096 == a & 0xfff) by (bit_vector);
        }
        PageOffset::new_truncate(self.addr as u16)
    }

    /// The page-table index this address selects at `level`.
    #[inline]
    pub fn page_table_index(&self, level: usize) -> (r: PageTableIndex)
        requires
            level <= 3,
        ensures
            r@ == sp_table_index(self@, level as u64),
    {
        let s: u64 = 12 + 9 * (level as u64);
        let index = (self.addr >> s) as u16;
        proof {
            let a = self.addr;
            assert(((a >> s) as u16) % 512 == (a >> s) & 0x1ff) by (bit_vector);
        }
        PageTableIndex::new_truncate(index)
    }

    #[inline]
    pub fn as_u64(&self) -> (r: u64)
        ensures
            r == self@,
    {
        self.addr
    }

    /// Adds a byte offset to the address.
    #[inline]
    pub fn add(self, rhs: u64) -> (r: VirtAddr)
        requires
            self@ + rhs <= u64::MAX,
        ensures
            r@ == self@ + rhs,
    {
        VirtAddr { addr: self.addr + rhs }
    }
}

/// Any address aligned down to a page boundary has page offset zero.
pub proof fn lemma_align_down_page_offset(a: u64)
    ensures
        sp_page_offset(sp_align_down(a)) == 0,
        sp_align_down(a) % 4096 == 0,
        sp_align_down(a) <= a,
{
    assert((a & 0xffff_ffff_ffff_f000) & 0xfff == 0) by (bit_vector);
    assert((a & 0xffff_ffff_ffff_f000) % 4096 == 0) by (bit_vector);
    assert((a & 0xffff_ffff_ffff_f000) <= a) by (bit_vector);
}

/// A 64-bit physical address; only bits 12..52 participate in page-table
/// entries.
#[derive(Clone, Copy, Debug, PartialEq, Eq, Structural)]
pub struct PhysAddr {
    addr: u64,
}

impl View for PhysAddr {
    type V = u64;

    closed spec fn view(&self) -> u64 {
        self.addr
    }
}

impl PhysAddr {
    #[inline]
    pub fn new(addr: u64) -> (r: PhysAddr)
        ensures
            r@ == addr,
    {
        PhysAddr { addr }
    }

    #[inline]
    pub fn as_u64(&self) -> (r: u64)
        ensures
            r == self@,
    {
        self.addr
    }

    /// Adds a byte offset to the address.
    #[inline]
    pub fn add(self, rhs: u64) -> (r: PhysAddr)
        requires
            self@ + rhs <= u64::MAX,
        ensures
            r@ == self@ + rhs,
    {
        PhysAddr { addr: self.addr + rhs }
    }
}

} // verus!
