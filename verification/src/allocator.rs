//! Physical frame allocation from a firmware-supplied memory map: a bump
//! allocator over the 4 KiB frames of the regions marked usable, and the
//! trait the page mapper draws fresh frames through.

use vstd::prelude::*;

use crate::addr::{PhysAddr, VirtAddr};
use crate::pagetable::{
    lemma_can_map_means_ok, lemma_leaf_of_preserved, sp_can_map, sp_leaf_of, sp_leaf_val,
    sp_page_bits, sp_translate, PageTable, PhysMem,
};
use crate::paging::{
    lemma_rw_entry_flags, lemma_rw_leaf, sp_frame_ok, sp_present, Page, PageRangeInclusive,
    PageTableEntry, PageTableEntryFlags, PhysFrame, FLAG_PRESENT, FLAG_WRITABLE,
};

verus! {

/// The first byte of the kernel heap's virtual range.
pub const HEAP_START: u64 = 0x4444_4444_0000;

/// The kernel heap's size in bytes.
pub const HEAP_SIZE: u64 = 100 * 1024;

/// The start address of the heap's page number `k`.
pub open spec fn sp_heap_page(k: int) -> u64 {
    (HEAP_START + 4096 * k) as u64
}

/// One region of the firmware memory map, reduced to the plain values the
/// allocator reads: its byte range and whether it is free for allocation.
#[derive(Clone, Copy, Debug, PartialEq, Eq, Structural)]
pub struct MemoryRegion {
    /// First byte of the region; 4 KiB aligned.
    pub start: u64,
    /// One past the last byte of the region; 4 KiB aligned.
    pub end: u64,
    /// Whether the firmware marked the region usable.
    pub usable: bool,
}

/// A single region is sound: frame-aligned bounds in increasing order,
/// within the 52 physical address bits.
pub open spec fn sp_region_wf(r: MemoryRegion) -> bool {
    r.start & 0xfff == 0 && r.end & 0xfff == 0 && r.start <= r.end && r.end
        <= 0x0010_0000_0000_0000
}

/// A memory map is sound: every region is, and the regions come sorted and
/// pairwise disjoint, as firmware supplies them.
pub open spec fn sp_regions_wf(s: Seq<MemoryRegion>) -> bool {
    (forall|i: int| 0 <= i < s.len() ==> sp_region_wf(#[trigger] s[i])) && (forall|i: int, j: int|
        0 <= i < j < s.len() ==> s[i].end <= s[j].start)
}

/// The 4 KiB frame start addresses a single region contributes: every page
/// boundary from `start` up to `end`, in order; none when the region is not
/// usable.
pub open spec fn sp_region_frames(r: MemoryRegion) -> Seq<u64> {
    if r.usable {
        Seq::new(((r.end - r.start) / 4096) as nat, |i: int| (r.start + 4096 * i) as u64)
    } else {
        Seq::empty()
    }
}

/// The flattened sequence of usable frames of a memory map, region by
/// region in map order: the allocation order of the bump allocator.
pub open spec fn sp_usable_frames(s: Seq<MemoryRegion>) -> Seq<u64>
    decreases s.len(),
{
    if s.len() == 0 {
        Seq::empty()
    } else {
        sp_region_frames(s[0]) + sp_usable_frames(s.skip(1))
    }
}

/// A source of fresh physical frames for the page mapper.
pub trait FrameAllocator: Sized {
    /// The start addresses of the frames this allocator will hand out, in
    /// order.
    spec fn frames(&self) -> Seq<u64>;

    /// The allocator's validity.
    spec fn wf(&self) -> bool;

    /// A valid allocator only promises valid, pairwise distinct frames.
    proof fn frames_are_sound(&self)
        requires
            self.wf(),
        ensures
            forall|i: int| 0 <= i < self.frames().len() ==> sp_frame_ok(#[trigger] self.frames()[i]),
            forall|i: int, j: int|
                0 <= i < j < self.frames().len() ==> self.frames()[i] != self.frames()[j],
    ;

    /// Hands out the next frame, or `None` once the supply is exhausted.
    fn allocate(&mut self) -> (r: Option<PhysFrame>)
        requires
            old(self).wf(),
        ensures
            final(self).wf(),
            old(self).frames().len() == 0 ==> r is None && final(self).frames() == old(
                self,
            ).frames(),
            old(self).frames().len() > 0 ==> (r matches Some(f) && f@ == old(self).frames()[0]
                && final(self).frames() == old(self).frames().skip(1)),
    ;
}

/// An allocator that never produces a frame.
pub struct ZeroAllocator {}

impl FrameAllocator for ZeroAllocator {
    open spec fn frames(&self) -> Seq<u64> {
        Seq::empty()
    }

    open spec fn wf(&self) -> bool {
        true
    }

    proof fn frames_are_sound(&self) {
    }

    fn allocate(&mut self) -> (r: Option<PhysFrame>) {
        None
    }
}

/// The bump allocator over the usable frames of the boot memory map. It
/// hands the flattened frame sequence out one address at a time and never
/// reclaims anything.
pub struct BootInfoAllocator {
    regions: Vec<MemoryRegion>,
    next: u64,
}

impl BootInfoAllocator {
    /// The memory map this allocator draws from.
    pub closed spec fn regions(&self) -> Seq<MemoryRegion> {
        self.regions@
    }

    /// How many frames have already been handed out.
    pub closed spec fn consumed(&self) -> int {
        self.next as int
    }

    /// Creates an allocator over a memory map. The map must be sound in the
    /// sense of `sp_regions_wf`; that regions marked usable are in truth
    /// unused is the boot code's promise and cannot be checked here.
    pub fn init(regions: Vec<MemoryRegion>) -> (r: BootInfoAllocator)
        requires
            sp_regions_wf(regions@),
        ensures
            r.wf(),
            r.regions() == regions@,
            r.consumed() == 0,
            r.frames() == sp_usable_frames(regions@),
    {
        let r = BootInfoAllocator { regions, next: 0 };
        proof {
            assert(r.frames() =~= sp_usable_frames(r.regions@));
        }
        r
    }

    /// The usable frame at a given position of the flattened sequence.
    fn frame_at(&self, index: u64) -> (r: Option<PhysFrame>)
        requires
            self.wf(),
        ensures
            index < sp_usable_frames(self.regions()).len() ==> (r matches Some(f) && f@
                == sp_usable_frames(self.regions())[index as int]),
            index >= sp_usable_frames(self.regions()).len() ==> r is None,
    {
        let mut j: usize = 0;
        let mut i: u64 = index;
        proof {
            assert(self.regions().skip(0) =~= self.regions());
        }
        while j < self.regions.len()
            invariant
                self.wf(),
                j <= self.regions.len(),
                i <= index,
                (index < sp_usable_frames(self.regions()).len()) == (i < sp_usable_frames(
                    self.regions().skip(j as int),
                ).len()),
                index < sp_usable_frames(self.regions()).len() ==> sp_usable_frames(
                    self.regions(),
                )[index as int] == sp_usable_frames(self.regions().skip(j as int))[i as int],
            decreases self.regions.len() - j,
        {
            let ghost rest = self.regions().skip(j as int);
            proof {
                assert(rest[0] == self.regions()[j as int]);
                assert(rest.skip(1) =~= self.regions().skip(j as int + 1));
            }
            let reg = self.regions[j];
            if reg.usable {
                let count = (reg.end - reg.start) / 4096;
                if i < count {
                    let frame = reg.start + 4096 * i;
                    proof {
                        let s = reg.start;
                        let e = reg.end;
                        let k = i;
                        assert(s & 0xfff == 0 && e & 0xfff == 0 && s <= e && e
                            <= 0x0010_0000_0000_0000 && k < (e - s) / 4096 ==> s + 4096 * k < e
                            && sp_frame_ok((s + 4096 * k) as u64) && ((s + 4096 * k) as u64)
                            & 0x000f_ffff_ffff_f000 == s + 4096 * k) by (bit_vector);
                        assert(sp_region_frames(reg)[i as int] == (s + 4096 * k) as u64);
                    }
                    return Some(PhysFrame::containing_address(PhysAddr::new(frame)));
                } else {
                    proof {
                        let s = reg.start;
                        let e = reg.end;
                        assert(sp_region_frames(reg).len() == (e - s) / 4096);
                    }
                    i = i - count;
                }
            }
            j = j + 1;
        }
        proof {
            assert(self.regions().skip(self.regions@.len() as int) =~= Seq::<MemoryRegion>::empty());
        }
        None
    }
}

impl FrameAllocator for BootInfoAllocator {
    closed spec fn frames(&self) -> Seq<u64> {
        if self.next as int <= sp_usable_frames(self.regions@).len() {
            sp_usable_frames(self.regions@).skip(self.next as int)
        } else {
            Seq::empty()
        }
    }

    closed spec fn wf(&self) -> bool {
        sp_regions_wf(self.regions@)
    }

    proof fn frames_are_sound(&self) {
        lemma_usable_frames_sound(self.regions@);
    }

    fn allocate(&mut self) -> (r: Option<PhysFrame>)
        ensures
            final(self).regions() == old(self).regions(),
            old(self).consumed() < u64::MAX ==> final(self).consumed() == old(self).consumed()
                + 1,
            old(self).consumed() == u64::MAX ==> final(self).consumed() == old(self).consumed(),
    {
        proof {
            assert(0u64 & 0xfff == 0) by (bit_vector);
            lemma_usable_frames_len(self.regions@, 0);
        }
        let r = self.frame_at(self.next);
        if self.next != u64::MAX {
            self.next = self.next + 1;
        }
        proof {
            let all = sp_usable_frames(self.regions@);
            let n = old(self).next as int;
            if n < all.len() {
                // a frame came out; the remaining sequence drops its head
                assert(all.skip(n)[0] == all[n]);
                assert(all.skip(n).skip(1) =~= all.skip(n + 1));
            } else if n == all.len() {
                // exhausted: the remaining sequence was empty and stays so
                assert(all.skip(n) =~= Seq::<u64>::empty());
            }
        }
        r
    }
}

/// A sound memory map holds at most 2^40 usable frames: its regions are
/// disjoint within the 52 physical address bits.
pub proof fn lemma_usable_frames_len(regions: Seq<MemoryRegion>, lo: u64)
    requires
        sp_regions_wf(regions),
        lo & 0xfff == 0,
        lo <= 0x0010_0000_0000_0000,
        forall|i: int| 0 <= i < regions.len() ==> lo <= #[trigger] regions[i].start,
    ensures
        4096 * sp_usable_frames(regions).len() <= 0x0010_0000_0000_0000 - lo,
    decreases regions.len(),
{
    if regions.len() == 0 {
    } else {
        let head = regions[0];
        let hf = sp_region_frames(head);
        let tail = regions.skip(1);
        assert(sp_regions_wf(tail) && (forall|i: int|
            0 <= i < tail.len() ==> head.end <= #[trigger] tail[i].start)) by {
            assert(forall|i: int| 0 <= i < tail.len() ==> tail[i] == regions[i + 1]);
        }
        lemma_usable_frames_len(tail, head.end);
        let s = head.start;
        let e = head.end;
        assert(s & 0xfff == 0 && e & 0xfff == 0 && s <= e && e <= 0x0010_0000_0000_0000 && lo <= s
            && lo & 0xfff == 0 ==> 4096 * ((e - s) / 4096) <= e - lo) by (bit_vector);
        assert(hf.len() <= (e - s) / 4096);
    }
}

/// Two different heap pages differ in their path bits.
proof fn lemma_heap_pages_differ(j: u64, k: u64)
    requires
        j < 25,
        k < 25,
        j != k,
    ensures
        sp_page_bits((HEAP_START + 4096 * j) as u64) != sp_page_bits((HEAP_START + 4096 * k) as u64),
        ((HEAP_START + 4096 * j) as u64) & 0xfff == 0,
{
    assert(j < 25 && k < 25 && j != k ==> ((0x4444_4444_0000 + 4096 * j) as u64)
        & 0x0000_ffff_ffff_f000 != ((0x4444_4444_0000 + 4096 * k) as u64) & 0x0000_ffff_ffff_f000
        && ((0x4444_4444_0000 + 4096 * j) as u64) & 0xfff == 0) by (bit_vector);
}

/// A heap address either lies on the given heap page or differs from it
/// in its path bits; below that page it stays below it.
proof fn lemma_heap_addr_cases(a2: u64, i: u64)
    requires
        HEAP_START <= a2,
        a2 < HEAP_START + 4096 * 25,
        i < 25,
    ensures
        crate::addr::sp_align_down(a2) == sp_heap_page(i as int) || sp_page_bits(a2)
            != sp_page_bits(sp_heap_page(i as int)),
        a2 < HEAP_START + 4096 * (i + 1) && crate::addr::sp_align_down(a2) != sp_heap_page(i as int)
            ==> a2 < HEAP_START + 4096 * i,
{
    assert(0x4444_4444_0000 <= a2 && a2 < 0x4444_4444_0000 + 4096 * 25 && i < 25 ==> ((a2
        & 0xffff_ffff_ffff_f000 == ((0x4444_4444_0000 + 4096 * i) as u64)) || (a2
        & 0x0000_ffff_ffff_f000 != ((0x4444_4444_0000 + 4096 * i) as u64)
        & 0x0000_ffff_ffff_f000)) && ((a2 < 0x4444_4444_0000 + 4096 * (i + 1) && a2
        & 0xffff_ffff_ffff_f000 != ((0x4444_4444_0000 + 4096 * i) as u64)) ==> a2
        < 0x4444_4444_0000 + 4096 * i)) by (bit_vector);
}

/// Maps the heap's virtual range, one fresh frame per page, and reports a
/// single opaque failure if a frame runs out or a page is already taken.
/// On success every heap address is mapped; handing the range to the
/// byte-granular heap manager is the caller's next step. Success is owed
/// whenever the heap pages are free to map and the allocator holds frames
/// for every page and its worst-case three intermediate tables.
pub fn init_heap<A: FrameAllocator>(
    root: &mut PageTable,
    mem: &mut PhysMem,
    frame_allocator: &mut A,
) -> (r: Result<(), ()>)
    requires
        old(mem).hierarchy_ok(old(root)@),
        old(frame_allocator).wf(),
        forall|t: int|
            0 <= t < old(frame_allocator).frames().len() ==> !old(mem)@.contains_key(
                #[trigger] old(frame_allocator).frames()[t],
            ),
    ensures
        final(mem).hierarchy_ok(final(root)@),
        final(frame_allocator).wf(),
        forall|t: int|
            0 <= t < final(frame_allocator).frames().len() ==> !final(mem)@.contains_key(
                #[trigger] final(frame_allocator).frames()[t],
            ),
        (old(frame_allocator).frames().len() >= 100 && (forall|k: int|
            0 <= k < 25 ==> sp_can_map(old(mem)@, old(root)@, 3, #[trigger] sp_heap_page(k))))
            ==> r is Ok,
        r is Ok ==> forall|a2: u64|
            #![trigger sp_translate(final(mem)@, final(root)@, 3, a2)]
            HEAP_START <= a2 < HEAP_START + HEAP_SIZE ==> sp_translate(
                final(mem)@,
                final(root)@,
                3,
                a2,
            ) is Some,
        r is Ok ==> forall|j: int, k: int|
            #![trigger sp_heap_page(j), sp_heap_page(k)]
            0 <= j < k < 25 ==> sp_translate(final(mem)@, final(root)@, 3, sp_heap_page(j))
                != sp_translate(final(mem)@, final(root)@, 3, sp_heap_page(k)),
        r is Ok ==> forall|k: int|
            0 <= k < 25 ==> (sp_leaf_of(final(mem)@, final(root)@, 3, #[trigger] sp_heap_page(k))
                matches Some(e) && sp_present(e) && e & FLAG_WRITABLE == FLAG_WRITABLE),
        forall|a2: u64|
            #![trigger sp_translate(final(mem)@, final(root)@, 3, a2)]
            (forall|k: int| 0 <= k < 25 ==> sp_page_bits(a2) != sp_page_bits(#[trigger] sp_heap_page(k)))
                ==> sp_translate(final(mem)@, final(root)@, 3, a2) == sp_translate(
                old(mem)@,
                old(root)@,
                3,
                a2,
            ),
{
    let ghost suff = old(frame_allocator).frames().len() >= 100 && (forall|k: int|
        0 <= k < 25 ==> sp_can_map(old(mem)@, old(root)@, 3, #[trigger] sp_heap_page(k)));
    let heap_start = VirtAddr::new(HEAP_START);
    let heap_end = heap_start.add(HEAP_SIZE - 1);
    let start_page = Page::containing_address(heap_start);
    let end_page = Page::containing_address(heap_end);
    proof {
        assert(HEAP_START & 0xffff_ffff_ffff_f000 == HEAP_START && ((HEAP_START + (HEAP_SIZE - 1))
            as u64) & 0xffff_ffff_ffff_f000 == HEAP_START + 4096 * 24) by (bit_vector);
    }
    let mut range = PageRangeInclusive::new(start_page, end_page.add(1));
    let mut i: u64 = 0;
    let ghost mut targets: Seq<u64> = Seq::empty();
    while i < 25
        invariant
            i <= 25,
            range@.0 == HEAP_START + 4096 * i,
            range@.1 == HEAP_START + 4096 * 25,
            mem.hierarchy_ok(root@),
            frame_allocator.wf(),
            forall|t: int|
                0 <= t < frame_allocator.frames().len() ==> !mem@.contains_key(
                    #[trigger] frame_allocator.frames()[t],
                ),
            suff ==> frame_allocator.frames().len() >= 100 - 4 * i,
            suff ==> (forall|k2: int|
                i <= k2 < 25 ==> sp_can_map(mem@, root@, 3, #[trigger] sp_heap_page(k2))),
            forall|a2: u64|
                #![trigger sp_translate(mem@, root@, 3, a2)]
                HEAP_START <= a2 < HEAP_START + 4096 * i ==> sp_translate(
                    mem@,
                    root@,
                    3,
                    a2,
                ) is Some,
            forall|a2: u64|
                #![trigger sp_translate(mem@, root@, 3, a2)]
                (forall|k2: int|
                    0 <= k2 < 25 ==> sp_page_bits(a2) != sp_page_bits(
                        #[trigger] sp_heap_page(k2),
                    )) ==> sp_translate(mem@, root@, 3, a2) == sp_translate(old(mem)@, old(root)@, 3, a2),
            suff == (old(frame_allocator).frames().len() >= 100 && (forall|k: int|
                0 <= k < 25 ==> sp_can_map(old(mem)@, old(root)@, 3, #[trigger] sp_heap_page(k)))),
            targets.len() == i,
            forall|k2: int|
                0 <= k2 < i ==> sp_translate(mem@, root@, 3, #[trigger] sp_heap_page(k2)) == Some(
                    targets[k2],
                ),
            forall|k2: int|
                0 <= k2 < i ==> sp_leaf_of(mem@, root@, 3, #[trigger] sp_heap_page(k2)) == Some(
                    targets[k2] | 3u64,
                ),
            forall|j2: int, k2: int|
                #![trigger targets[j2], targets[k2]]
                0 <= j2 < k2 < i ==> targets[j2] != targets[k2],
            forall|t: int, k2: int|
                #![trigger frame_allocator.frames()[t], targets[k2]]
                0 <= t < frame_allocator.frames().len() && 0 <= k2 < i
                    ==> frame_allocator.frames()[t] != targets[k2],
        decreases 25 - i,
    {
        let ghost mem_i = *mem;
        let ghost root_i = *root;
        let ghost frames_iter = frame_allocator.frames();
        proof {
            frame_allocator.frames_are_sound();
        }
        let page = match range.next() {
            Some(p) => p,
            None => {
                proof {
                    assert(false);
                }
                return Err(());
            },
        };
        proof {
            assert(page@ == sp_heap_page(i as int));
        }
        let frame = match frame_allocator.allocate() {
            Some(f) => f,
            None => {
                proof {
                    if suff {
                        assert(frame_allocator.frames().len() >= 100 - 4 * i > 0);
                    }
                }
                return Err(());
            },
        };
        let flags = PageTableEntryFlags::from_bits_truncate(FLAG_PRESENT | FLAG_WRITABLE);
        let entry = PageTableEntry::new(frame, flags);
        proof {
lemma_rw_entry_flags();
        }
        let ghost frames_call = frame_allocator.frames();
        let res = root.map_page(mem, page, entry, frame_allocator);
        proof {
            if suff {
                lemma_can_map_means_ok(mem_i@, root_i@, 3, page@, frames_call.len() as int);
            }
        }
        match res {
            Ok(_) => {},
            Err(_) => {
                proof {
                    if suff {
                        assert(sp_can_map(mem_i@, root_i@, 3, sp_heap_page(i as int)));
                        assert(false);
                    }
                }
                return Err(());
            },
        }
        proof {
            // pages already mapped keep their translation, the pages still
            // to come stay free, and everything off the heap is untouched
            assert forall|a2: u64|
                #![trigger sp_translate(mem@, root@, 3, a2)]
                HEAP_START <= a2 < HEAP_START + 4096 * (i + 1) implies sp_translate(
                mem@,
                root@,
                3,
                a2,
            ) is Some by {
                lemma_heap_addr_cases(a2, i);
                if crate::addr::sp_align_down(a2) == page@ {
                    assert(sp_translate(mem@, root@, 3, a2) == sp_leaf_val(entry@, a2));
                } else {
                    assert(a2 < HEAP_START + 4096 * i);
                    assert(sp_translate(mem_i@, root_i@, 3, a2) is Some);
                    assert(sp_translate(mem@, root@, 3, a2) == sp_translate(
                        mem_i@,
                        root_i@,
                        3,
                        a2,
                    ));
                }
            }
            if suff {
                assert forall|k2: int| i + 1 <= k2 < 25 implies sp_can_map(
                    mem@,
                    root@,
                    3,
                    #[trigger] sp_heap_page(k2),
                ) by {
                    lemma_heap_pages_differ(k2 as u64, i);
                }
            }
            assert forall|a2: u64|
                #![trigger sp_translate(mem@, root@, 3, a2)]
                (forall|k2: int|
                    0 <= k2 < 25 ==> sp_page_bits(a2) != sp_page_bits(
                        #[trigger] sp_heap_page(k2),
                    )) implies sp_translate(mem@, root@, 3, a2) == sp_translate(
                old(mem)@,
                old(root)@,
                3,
                a2,
            ) by {
                assert(sp_page_bits(a2) != sp_page_bits(sp_heap_page(i as int)));
                assert(sp_translate(mem_i@, root_i@, 3, a2) == sp_translate(
                    old(mem)@,
                    old(root)@,
                    3,
                    a2,
                ));
            }
            // record this page's frame: earlier pages keep their distinct
            // frames and their writable leaf entries, and the frames still
            // to come differ from every frame handed out so far
            lemma_rw_entry_flags();
            use_type_invariant(page);
            assert(entry@ == (frame@ | 3u64));
            assert(frame@ == frames_iter[0]);
            assert(frames_call == frames_iter.skip(1));
            let taken = crate::pagetable::sp_frames_taken(
                mem_i@,
                root_i@,
                3,
                page@,
                frames_call.len() as int,
            );
            crate::pagetable::lemma_missing_levels_bounds(mem_i@, root_i@, 3, page@);
            assert(frame_allocator.frames() == frames_call.skip(taken));
            assert(frames_call.skip(taken) =~= frames_iter.skip(1 + taken));
            let ghost targets0 = targets;
            targets = targets.push(frame@);
            assert forall|k2: int| 0 <= k2 < i + 1 implies sp_translate(
                mem@,
                root@,
                3,
                #[trigger] sp_heap_page(k2),
            ) == Some(targets[k2]) by {
                if k2 < i {
                    lemma_heap_pages_differ(k2 as u64, i);
                    assert(sp_translate(mem_i@, root_i@, 3, sp_heap_page(k2)) == Some(
                        targets0[k2],
                    ));
                    assert(sp_translate(mem@, root@, 3, sp_heap_page(k2)) == sp_translate(
                        mem_i@,
                        root_i@,
                        3,
                        sp_heap_page(k2),
                    ));
                } else {
                    lemma_heap_addr_cases(page@, i);
                    assert(crate::addr::sp_align_down(page@) == page@);
                    assert(sp_translate(mem@, root@, 3, page@) == sp_leaf_val(entry@, page@));
                    assert(page@ & 0xfff == 0);
                }
            }
            assert forall|k2: int| 0 <= k2 < i + 1 implies sp_leaf_of(
                mem@,
                root@,
                3,
                #[trigger] sp_heap_page(k2),
            ) == Some(targets[k2] | 3u64) by {
                if k2 < i {
                    lemma_rw_leaf(targets0[k2]);
                    lemma_leaf_of_preserved(
                        mem_i@,
                        mem@,
                        root_i@,
                        root@,
                        3,
                        sp_heap_page(k2),
                        (targets0[k2] | 3u64),
                    );
                } else {
                    assert(sp_leaf_of(mem@, root@, 3, page@) == Some(entry@));
                }
            }
            assert forall|j2: int, k2: int|
                #![trigger targets[j2], targets[k2]]
                0 <= j2 < k2 < i + 1 implies targets[j2] != targets[k2] by {
                if k2 == i {
                    assert(frames_iter[0] != targets0[j2]);
                }
            }
            assert forall|t: int, k2: int|
                #![trigger frame_allocator.frames()[t], targets[k2]]
                0 <= t < frame_allocator.frames().len() && 0 <= k2 < i + 1 implies
                frame_allocator.frames()[t] != targets[k2] by {
                assert(frame_allocator.frames()[t] == frames_iter[1 + taken + t]);
                if k2 < i {
                    assert(frames_iter[1 + taken + t] != targets0[k2]);
                } else {
                    assert(frames_iter[1 + taken + t] != frames_iter[0]);
                }
            }
        }
        i = i + 1;
    }
    proof {
        assert forall|k: int| 0 <= k < 25 implies (sp_leaf_of(
            mem@,
            root@,
            3,
            #[trigger] sp_heap_page(k),
        ) matches Some(e) && sp_present(e) && e & FLAG_WRITABLE == FLAG_WRITABLE) by {
            lemma_rw_leaf(targets[k]);
        }
    }
    Ok(())
}

/// Every frame of a sound memory map is a valid frame address, and no frame
/// appears twice: successive allocations never hand out the same frame.
pub proof fn lemma_usable_frames_sound(regions: Seq<MemoryRegion>)
    requires
        sp_regions_wf(regions),
    ensures
        forall|i: int|
            0 <= i < sp_usable_frames(regions).len() ==> sp_frame_ok(
                #[trigger] sp_usable_frames(regions)[i],
            ),
        forall|i: int, j: int|
            0 <= i < j < sp_usable_frames(regions).len() ==> sp_usable_frames(regions)[i]
                != sp_usable_frames(regions)[j],
    decreases regions.len(),
{
    if regions.len() > 0 {
        let head = regions[0];
        let hf = sp_region_frames(head);
        let tail = regions.skip(1);
        assert(forall|i: int| 0 <= i < tail.len() ==> tail[i] == regions[i + 1]);
        assert(sp_regions_wf(tail));
        assert(forall|i: int| 0 <= i < tail.len() ==> head.end <= #[trigger] tail[i].start);
        lemma_usable_frames_sound(tail);
        lemma_region_frames_sound(head);
        lemma_usable_frames_lower_bound(tail, head.end);
        assert forall|i: int| 0 <= i < sp_usable_frames(regions).len() implies sp_frame_ok(
            #[trigger] sp_usable_frames(regions)[i],
        ) by {
            if i < hf.len() {
                assert(sp_usable_frames(regions)[i] == hf[i]);
            } else {
                assert(sp_usable_frames(regions)[i] == sp_usable_frames(tail)[i - hf.len()]);
            }
        }
        assert forall|i: int, j: int|
            0 <= i < j < sp_usable_frames(regions).len() implies sp_usable_frames(regions)[i]
            != sp_usable_frames(regions)[j] by {
            if j < hf.len() {
                assert(sp_usable_frames(regions)[i] == hf[i]);
                assert(sp_usable_frames(regions)[j] == hf[j]);
                lemma_region_frames_increasing(head, i, j);
            } else if i < hf.len() {
                assert(sp_usable_frames(regions)[i] == hf[i]);
                assert(hf[i] < head.end);
                assert(sp_usable_frames(regions)[j] == sp_usable_frames(tail)[j - hf.len()]);
                assert(head.end <= sp_usable_frames(tail)[j - hf.len()]);
            } else {
                assert(sp_usable_frames(regions)[i] == sp_usable_frames(tail)[i - hf.len()]);
                assert(sp_usable_frames(regions)[j] == sp_usable_frames(tail)[j - hf.len()]);
            }
        }
    }
}

/// Frames of a sound region are valid addresses below the region's end.
proof fn lemma_region_frames_sound(r: MemoryRegion)
    requires
        sp_region_wf(r),
    ensures
        forall|i: int|
            0 <= i < sp_region_frames(r).len() ==> sp_frame_ok(#[trigger] sp_region_frames(r)[i])
                && sp_region_frames(r)[i] < r.end && sp_region_frames(r)[i] >= r.start,
{
    if r.usable {
        assert forall|i: int| 0 <= i < sp_region_frames(r).len() implies sp_frame_ok(
            #[trigger] sp_region_frames(r)[i],
        ) && sp_region_frames(r)[i] < r.end && sp_region_frames(r)[i] >= r.start by {
            let s = r.start;
            let e = r.end;
            let k = i as u64;
            assert(s & 0xfff == 0 && e & 0xfff == 0 && s <= e && e <= 0x0010_0000_0000_0000 && k
                < (e - s) / 4096 ==> s + 4096 * k < e && s + 4096 * k >= s && sp_frame_ok(
                (s + 4096 * k) as u64)) by (bit_vector);
        }
    }
}

/// Within one region the frame sequence is strictly increasing.
proof fn lemma_region_frames_increasing(r: MemoryRegion, i: int, j: int)
    requires
        sp_region_wf(r),
        0 <= i < j < sp_region_frames(r).len(),
    ensures
        sp_region_frames(r)[i] < sp_region_frames(r)[j],
{
    let s = r.start;
    let e = r.end;
    let ki = i as u64;
    let kj = j as u64;
    assert(s & 0xfff == 0 && e & 0xfff == 0 && s <= e && e <= 0x0010_0000_0000_0000 && ki < kj && kj
        < (e - s) / 4096 ==> s + 4096 * ki < s + 4096 * kj) by (bit_vector);
}

/// Every frame of a sound map whose regions all start at or above `bound`
/// lies at or above `bound`.
proof fn lemma_usable_frames_lower_bound(regions: Seq<MemoryRegion>, bound: u64)
    requires
        sp_regions_wf(regions),
        forall|i: int| 0 <= i < regions.len() ==> bound <= #[trigger] regions[i].start,
    ensures
        forall|i: int|
            0 <= i < sp_usable_frames(regions).len() ==> bound <= #[trigger] sp_usable_frames(
                regions,
            )[i],
    decreases regions.len(),
{
    if regions.len() > 0 {
        let head = regions[0];
        let hf = sp_region_frames(head);
        let tail = regions.skip(1);
        assert(sp_regions_wf(tail)) by {
            assert(forall|i: int| 0 <= i < tail.len() ==> tail[i] == regions[i + 1]);
        }
        lemma_usable_frames_lower_bound(tail, bound);
        lemma_region_frames_sound(head);
        assert forall|i: int| 0 <= i < sp_usable_frames(regions).len() implies bound
            <= #[trigger] sp_usable_frames(regions)[i] by {
            if i < hf.len() {
                assert(sp_usable_frames(regions)[i] == hf[i]);
            } else {
                assert(sp_usable_frames(regions)[i] == sp_usable_frames(tail)[i - hf.len()]);
            }
        }
    }
}

} // verus!
