//! The memory subsystem's boot state: the virtual base at which the
//! bootloader maps all physical memory. In the kernel this is a
//! write-once global established during boot; here it is explicit state
//! handed to whoever needs it. Reading the active root table out of the
//! CR3 register is hardware work and stays outside the library.

use vstd::prelude::*;

use crate::addr::VirtAddr;

verus! {

/// The initialized virtual-memory system: it knows where physical memory
/// is mapped.
pub struct MemorySystem {
    physical_offset: u64,
}

impl MemorySystem {
    /// The recorded physical-memory offset.
    pub closed spec fn offset(&self) -> u64 {
        self.physical_offset
    }

    /// Records the offset the bootloader reported. The caller promises,
    /// as at boot, that physical memory really is mapped there.
    pub fn init(physical_memory_offset: u64) -> (r: MemorySystem)
        ensures
            r.offset() == physical_memory_offset,
    {
        MemorySystem { physical_offset: physical_memory_offset }
    }

    /// The virtual base of the physical-memory mapping.
    pub fn get_offset(&self) -> (r: VirtAddr)
        ensures
            r@ == self.offset(),
    {
        VirtAddr::new(self.physical_offset)
    }
}

} // verus!
