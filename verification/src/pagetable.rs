//! The 512-entry page table, an explicit model of the physical frames that
//! hold page tables, and the 4-level walk and map algorithms over it.
//!
//! On hardware the walk follows raw frame pointers through the
//! physical-memory offset mapping; here the frames holding page tables are
//! an owned store keyed by frame start address, so the same algorithms can
//! be stated and proved over plain values.

use vstd::prelude::*;

use crate::addr::{sp_align_down, sp_table_index, PhysAddr, VirtAddr};
use crate::allocator::FrameAllocator;
use crate::paging::{
    lemma_entry_bits, lemma_index_truncate, lemma_offset_bounds, lemma_rw_entry_flags,
    lemma_zero_entry, sp_entry_addr, sp_frame_ok, sp_huge, sp_present, Page, PageTableEntry,
    PageTableIndex, ENTRY_ADDR_MASK, FLAG_HUGE_PAGE, FLAG_PRESENT, FLAG_WRITABLE,
};

verus! {

/// Why a page could not be mapped.
#[derive(Clone, Copy, Debug, PartialEq, Eq, Structural)]
pub enum PageMapError {
    /// The frame allocator ran dry while an intermediate table was needed.
    FrameAllocation,
    /// The leaf slot (or the natural huge-page slot) is already present.
    PageAlreadyMapped,
}

/// 512 contiguous page-table entries: one node of the 4-level hierarchy.
pub struct PageTable {
    entries: Vec<PageTableEntry>,
}

impl View for PageTable {
    type V = Seq<u64>;

    closed spec fn view(&self) -> Seq<u64> {
        self.entries@.map_values(|e: PageTableEntry| e@)
    }
}

impl PageTable {
    #[verifier::type_invariant]
    pub open spec fn wf(self) -> bool {
        self@.len() == 512
    }

    /// A fresh table with every entry zero, mapping nothing.
    pub fn new() -> (r: PageTable)
        ensures
            r@.len() == 512,
            forall|s: int| 0 <= s < 512 ==> r@[s] == 0,
    {
        let mut entries: Vec<PageTableEntry> = Vec::new();
        while entries.len() < 512
            invariant
                entries@.len() <= 512,
                forall|s: int| 0 <= s < entries@.len() ==> entries@[s]@ == 0,
            decreases 512 - entries@.len(),
        {
            entries.push(PageTableEntry::new_zero());
        }
        PageTable { entries }
    }

    /// The entry at the given index.
    pub fn entry_at(&self, index: PageTableIndex) -> (r: PageTableEntry)
        ensures
            r@ == self@[index@ as int],
    {
        proof {
            use_type_invariant(self);
            use_type_invariant(index);
        }
        self.entries[index.as_usize()]
    }

    /// Replaces the entry at the given index.
    pub fn set_entry(&mut self, index: PageTableIndex, e: PageTableEntry)
        ensures
            final(self)@ == old(self)@.update(index@ as int, e@),
    {
        proof {
            use_type_invariant(&*self);
            use_type_invariant(index);
        }
        self.entries[index.as_usize()] = e;
        proof {
            assert(self@ =~= old(self)@.update(index@ as int, e@));
        }
    }
}

/// Whether one raw entry respects the hierarchy's shape when it sits in a
/// table at `level`: huge mappings exist only at levels 2 and 1, and a
/// pointer entry above the leaf level leads to a stored table one level
/// down.
pub open spec fn sp_entry_ok(tbl: Map<u64, Seq<u64>>, lv: Map<u64, int>, e: u64, level: int) -> bool {
    &&& (sp_present(e) && sp_huge(e) ==> level == 1 || level == 2)
    &&& (sp_present(e) && !sp_huge(e) && level >= 1 ==> tbl.contains_key(sp_entry_addr(e))
        && lv.contains_key(sp_entry_addr(e)) && lv[sp_entry_addr(e)] == level - 1)
}

/// Whether every entry of `table` respects the hierarchy's shape at
/// `level`.
pub open spec fn sp_table_ok(
    tbl: Map<u64, Seq<u64>>,
    lv: Map<u64, int>,
    table: Seq<u64>,
    level: int,
) -> bool {
    forall|s: int| 0 <= s < 512 ==> sp_entry_ok(tbl, lv, #[trigger] table[s], level)
}

/// Whether a whole store of tables is well-linked: every stored table
/// respects the hierarchy's shape at its own level.
pub open spec fn sp_tables_linked(tbl: Map<u64, Seq<u64>>, lv: Map<u64, int>) -> bool {
    forall|k: u64| #[trigger]
        tbl.contains_key(k) ==> lv.contains_key(k) && 0 <= lv[k] <= 2 && tbl[k].len() == 512
            && sp_frame_ok(k) && sp_table_ok(tbl, lv, tbl[k], lv[k])
}

/// No two distinct pointer slots of stored non-leaf tables lead to the
/// same child table: the stored hierarchy is a forest, not a general
/// graph.
pub open spec fn sp_parents_unique(tbl: Map<u64, Seq<u64>>, lv: Map<u64, int>) -> bool {
    forall|k1: u64, s1: int, k2: u64, s2: int|
        #![trigger tbl[k1][s1], tbl[k2][s2]]
        tbl.contains_key(k1) && tbl.contains_key(k2) && 0 <= s1 < 512 && 0 <= s2 < 512 && lv[k1]
            >= 1 && lv[k2] >= 1 && sp_present(tbl[k1][s1]) && !sp_huge(tbl[k1][s1]) && sp_present(
            tbl[k2][s2],
        ) && !sp_huge(tbl[k2][s2]) && (k1 != k2 || s1 != s2) ==> sp_entry_addr(tbl[k1][s1])
            != sp_entry_addr(tbl[k2][s2])
}

/// No two distinct present slots of the root lead to the same child table.
pub open spec fn sp_root_children_unique(root: Seq<u64>) -> bool {
    forall|s1: int, s2: int|
        #![trigger root[s1], root[s2]]
        0 <= s1 < 512 && 0 <= s2 < 512 && s1 != s2 && sp_present(root[s1]) && sp_present(root[s2])
            ==> sp_entry_addr(root[s1]) != sp_entry_addr(root[s2])
}

/// The translation the hierarchy assigns to virtual address `a`, walking
/// from `table` at `level` down through the stored tables: `None` when a
/// slot on the way is not present, the target frame address plus the
/// residual low bits of `a` when the walk ends at a leaf or huge entry.
pub open spec fn sp_translate(
    tbl: Map<u64, Seq<u64>>,
    table: Seq<u64>,
    level: int,
    a: u64,
) -> Option<u64>
    decreases level,
{
    if level < 0 {
        None
    } else {
        let e = table[sp_table_index(a, level as u64) as int];
        if !sp_present(e) {
            None
        } else if sp_huge(e) {
            if level == 2 {
                Some(((e & 0x000f_ffff_c000_0000) + (a & 0x3fff_ffff)) as u64)
            } else if level == 1 {
                Some(((e & 0x000f_ffff_ffe0_0000) + (a & 0x1f_ffff)) as u64)
            } else {
                None
            }
        } else if level == 0 {
            Some((sp_entry_addr(e) + (a & 0xfff)) as u64)
        } else if tbl.contains_key(sp_entry_addr(e)) {
            sp_translate(tbl, tbl[sp_entry_addr(e)], level - 1, a)
        } else {
            None
        }
    }
}

/// The outcome `map_page` owes for virtual address `a`, walking from
/// `table` at `level` with `nframes` fresh frames still available:
/// `PageAlreadyMapped` where the walk meets a present huge entry or a
/// present leaf slot, `FrameAllocation` where intermediate tables are
/// missing and the frames run out, and success otherwise.
pub open spec fn sp_map_result(
    tbl: Map<u64, Seq<u64>>,
    table: Seq<u64>,
    level: int,
    a: u64,
    nframes: int,
) -> Result<(), PageMapError>
    decreases level,
{
    let e = table[sp_table_index(a, level as u64) as int];
    if level <= 0 {
        if sp_present(e) {
            Err(PageMapError::PageAlreadyMapped)
        } else {
            Ok(())
        }
    } else if sp_present(e) {
        if sp_huge(e) {
            Err(PageMapError::PageAlreadyMapped)
        } else if tbl.contains_key(sp_entry_addr(e)) {
            sp_map_result(tbl, tbl[sp_entry_addr(e)], level - 1, a, nframes)
        } else {
            Err(PageMapError::FrameAllocation)
        }
    } else {
        if nframes >= level {
            Ok(())
        } else {
            Err(PageMapError::FrameAllocation)
        }
    }
}

/// The raw entry sitting in the leaf slot the walk selects for `a`, or
/// `None` where the path toward the leaf table breaks off.
pub open spec fn sp_leaf_of(tbl: Map<u64, Seq<u64>>, table: Seq<u64>, level: int, a: u64) -> Option<
    u64,
>
    decreases level,
{
    let e = table[sp_table_index(a, level as u64) as int];
    if level <= 0 {
        Some(e)
    } else if sp_present(e) && !sp_huge(e) && tbl.contains_key(sp_entry_addr(e)) {
        sp_leaf_of(tbl, tbl[sp_entry_addr(e)], level - 1, a)
    } else {
        None
    }
}

/// How many intermediate tables are missing on the walk toward `a`'s
/// leaf slot: the frames a successful map draws, one per missing level.
pub open spec fn sp_missing_levels(tbl: Map<u64, Seq<u64>>, table: Seq<u64>, level: int, a: u64) -> int
    decreases level,
{
    let e = table[sp_table_index(a, level as u64) as int];
    if level <= 0 {
        0
    } else if sp_present(e) {
        if sp_huge(e) || !tbl.contains_key(sp_entry_addr(e)) {
            0
        } else {
            sp_missing_levels(tbl, tbl[sp_entry_addr(e)], level - 1, a)
        }
    } else {
        level
    }
}

/// How many frames a map call consumes: one per missing level, until the
/// supply of `n` frames runs out.
pub open spec fn sp_frames_taken(
    tbl: Map<u64, Seq<u64>>,
    table: Seq<u64>,
    level: int,
    a: u64,
    n: int,
) -> int {
    let m = sp_missing_levels(tbl, table, level, a);
    if m <= n {
        m
    } else {
        n
    }
}

/// A map never finds fewer than zero missing levels, and never more than
/// the levels below its starting point.
pub proof fn lemma_missing_levels_bounds(
    tbl: Map<u64, Seq<u64>>,
    table: Seq<u64>,
    level: int,
    a: u64,
)
    ensures
        0 <= sp_missing_levels(tbl, table, level, a),
        level >= 0 ==> sp_missing_levels(tbl, table, level, a) <= level,
        level < 0 ==> sp_missing_levels(tbl, table, level, a) == 0,
    decreases level,
{
    let e = table[sp_table_index(a, level as u64) as int];
    if level > 0 && sp_present(e) && !sp_huge(e) && tbl.contains_key(sp_entry_addr(e)) {
        lemma_missing_levels_bounds(tbl, tbl[sp_entry_addr(e)], level - 1, a);
    }
}

/// A leaf entry that is present stays in place under any change that
/// keeps every present slot: the whole chain of pointer slots leading to
/// it is present and therefore untouched.
pub proof fn lemma_leaf_of_preserved(
    t0: Map<u64, Seq<u64>>,
    t1: Map<u64, Seq<u64>>,
    table0: Seq<u64>,
    table1: Seq<u64>,
    level: int,
    a: u64,
    ev: u64,
)
    requires
        forall|k: u64| #[trigger] t0.contains_key(k) ==> t1.contains_key(k),
        forall|k: u64, s: int|
            t0.contains_key(k) && 0 <= s < 512 && sp_present(#[trigger] t0[k][s]) ==> t1[k][s]
                == t0[k][s],
        forall|s: int|
            0 <= s < 512 && sp_present(#[trigger] table0[s]) ==> table1[s] == table0[s],
        sp_leaf_of(t0, table0, level, a) == Some(ev),
        sp_present(ev),
        0 <= level,
    ensures
        sp_leaf_of(t1, table1, level, a) == Some(ev),
    decreases level,
{
    broadcast use lemma_table_index_bound;

    let idx = sp_table_index(a, level as u64) as int;
    let e = table0[idx];
    if level == 0 {
        assert(e == ev);
        assert(table1[idx] == e);
    } else {
        assert(sp_present(e) && !sp_huge(e) && t0.contains_key(sp_entry_addr(e)));
        assert(table1[idx] == e);
        let c = sp_entry_addr(e);
        lemma_leaf_of_preserved(t0, t1, t0[c], t1[c], level - 1, a, ev);
    }
}

/// What translation a fresh leaf entry yields for an address of its page.
pub open spec fn sp_leaf_val(entry: u64, a2: u64) -> Option<u64> {
    if sp_present(entry) {
        Some((sp_entry_addr(entry) + (a2 & 0xfff)) as u64)
    } else {
        None
    }
}

/// How one mapping step may change a single table that sits at `lvk`: at
/// most the slot the mapped address selects there changes, and only from
/// a not-present entry to the new leaf entry (at the leaf level) or to a
/// pointer at a table that was not stored before.
pub open spec fn sp_table_change_ok(
    t0: Map<u64, Seq<u64>>,
    t1: Map<u64, Seq<u64>>,
    lvk: int,
    old_t: Seq<u64>,
    new_t: Seq<u64>,
    a: u64,
    entry: u64,
) -> bool {
    &&& (forall|s: int|
        0 <= s < 512 && s != sp_table_index(a, lvk as u64) as int ==> new_t[s] == #[trigger] old_t[s])
    &&& {
        let idx = sp_table_index(a, lvk as u64) as int;
        new_t[idx] == old_t[idx] || (!sp_present(old_t[idx]) && ((lvk == 0 && new_t[idx] == entry)
            || (lvk >= 1 && sp_present(new_t[idx]) && !sp_huge(new_t[idx]) && new_t[idx] == (
        sp_entry_addr(new_t[idx]) | (FLAG_PRESENT | FLAG_WRITABLE)) && t1.contains_key(
            sp_entry_addr(new_t[idx]),
        ) && !t0.contains_key(sp_entry_addr(new_t[idx])))))
    }
}

/// How mapping `a` with `entry` may change the whole store: stored tables
/// survive at their levels with at most their one selected slot changed,
/// and tables new in the store differ from an all-zero table in the same
/// constrained way.
pub open spec fn sp_map_changes(
    t0: Map<u64, Seq<u64>>,
    lv0: Map<u64, int>,
    t1: Map<u64, Seq<u64>>,
    lv1: Map<u64, int>,
    a: u64,
    entry: u64,
) -> bool {
    &&& (forall|k: u64| #[trigger]
        t0.contains_key(k) ==> t1.contains_key(k) && lv1.contains_key(k) && lv1[k] == lv0[k])
    &&& (forall|k: u64| #[trigger]
        t0.contains_key(k) ==> sp_table_change_ok(t0, t1, lv0[k], t0[k], t1[k], a, entry))
    &&& (forall|k: u64| #[trigger]
        t1.contains_key(k) ==> t0.contains_key(k) || (lv1.contains_key(k) && 0 <= lv1[k] <= 2
            && t1[k].len() == 512 && sp_table_change_ok(
            t0,
            t1,
            lv1[k],
            Seq::new(512, |s: int| 0u64),
            t1[k],
            a,
            entry,
        )))
}

/// A store changes in the allowed way when it does not change at all.
pub proof fn lemma_map_changes_refl(t: Map<u64, Seq<u64>>, lv: Map<u64, int>, a: u64, entry: u64)
    requires
        forall|k: u64| #[trigger] t.contains_key(k) ==> lv.contains_key(k),
    ensures
        sp_map_changes(t, lv, t, lv, a, entry),
{
}

/// Two addresses of the same page select the same slot at every level.
pub proof fn lemma_same_page_same_index(a: u64, a2: u64, level: u64)
    requires
        sp_align_down(a2) == sp_align_down(a),
        level <= 3,
    ensures
        sp_table_index(a2, level) == sp_table_index(a, level),
{
    assert(a & 0xffff_ffff_ffff_f000 == a2 & 0xffff_ffff_ffff_f000 && level <= 3 ==> (a >> ((12 + 9
        * level) as u64)) & 0x1ff == (a2 >> ((12 + 9 * level) as u64)) & 0x1ff) by (bit_vector);
}

/// The bits of an address that select its walk path: the four 9-bit table
/// indices, bits 12..48. Addresses that agree here walk through the same
/// slots at every level.
pub open spec fn sp_page_bits(a: u64) -> u64 {
    a & 0x0000_ffff_ffff_f000
}

/// Whether mapping `a` can succeed at all, frames permitting: the walk
/// meets no present huge entry and no present leaf slot.
pub open spec fn sp_can_map(tbl: Map<u64, Seq<u64>>, table: Seq<u64>, level: int, a: u64) -> bool
    decreases level,
{
    let e = table[sp_table_index(a, level as u64) as int];
    if level <= 0 {
        !sp_present(e)
    } else if sp_present(e) {
        if sp_huge(e) {
            false
        } else if tbl.contains_key(sp_entry_addr(e)) {
            sp_can_map(tbl, tbl[sp_entry_addr(e)], level - 1, a)
        } else {
            false
        }
    } else {
        true
    }
}

/// With at least `level` frames at hand, mapping succeeds exactly where
/// the walk is free of conflicts.
pub proof fn lemma_can_map_means_ok(
    tbl: Map<u64, Seq<u64>>,
    table: Seq<u64>,
    level: int,
    a: u64,
    n: int,
)
    requires
        0 <= level,
        n >= level,
    ensures
        (sp_map_result(tbl, table, level, a, n) is Ok) == sp_can_map(tbl, table, level, a),
    decreases level,
{
    let e = table[sp_table_index(a, level as u64) as int];
    if level > 0 && sp_present(e) && !sp_huge(e) && tbl.contains_key(sp_entry_addr(e)) {
        lemma_can_map_means_ok(tbl, tbl[sp_entry_addr(e)], level - 1, a, n);
    }
}

/// The stored table the mapped address' walk reaches at `level`, starting
/// from `k0` at `level0`, or `None` where the path breaks off earlier.
pub open spec fn sp_path_at(
    tbl: Map<u64, Seq<u64>>,
    k0: u64,
    level0: int,
    a: u64,
    level: int,
) -> Option<u64>
    decreases level0 - level,
{
    if level > level0 {
        None
    } else if level == level0 {
        Some(k0)
    } else {
        match sp_path_at(tbl, k0, level0, a, level + 1) {
            Some(p) => {
                if tbl.contains_key(p) {
                    let e = tbl[p][sp_table_index(a, (level + 1) as u64) as int];
                    if sp_present(e) && !sp_huge(e) && tbl.contains_key(sp_entry_addr(e)) {
                        Some(sp_entry_addr(e))
                    } else {
                        None
                    }
                } else {
                    None
                }
            },
            None => None,
        }
    }
}

/// A table on the path sits in the store at the path's level.
proof fn lemma_path_at_level(
    tbl: Map<u64, Seq<u64>>,
    lv: Map<u64, int>,
    k0: u64,
    level0: int,
    a: u64,
    level: int,
    p: u64,
)
    requires
        sp_tables_linked(tbl, lv),
        tbl.contains_key(k0),
        lv[k0] == level0,
        sp_path_at(tbl, k0, level0, a, level) == Some(p),
        0 <= level <= level0,
    ensures
        tbl.contains_key(p),
        lv[p] == level,
    decreases level0 - level,
{
    broadcast use lemma_table_index_bound;

    if level < level0 {
        let q = sp_path_at(tbl, k0, level0, a, level + 1);
        if q is None {
            assert(sp_path_at(tbl, k0, level0, a, level) is None);
            assert(false);
        }
        let qp = q->Some_0;
        if !tbl.contains_key(qp) {
            assert(sp_path_at(tbl, k0, level0, a, level) is None);
            assert(false);
        }
        lemma_path_at_level(tbl, lv, k0, level0, a, level + 1, qp);
        let e = tbl[qp][sp_table_index(a, (level + 1) as u64) as int];
        assert(sp_entry_ok(tbl, lv, e, level + 1));
        assert(sp_present(e) && !sp_huge(e) && tbl.contains_key(sp_entry_addr(e)) && p
            == sp_entry_addr(e));
    }
}

/// Stepping from a table into its mapped child shifts the path by one
/// level.
proof fn lemma_path_at_step(
    tbl: Map<u64, Seq<u64>>,
    k0: u64,
    level0: int,
    a: u64,
    c: u64,
    level: int,
)
    requires
        level0 >= 1,
        tbl.contains_key(k0),
        sp_present(tbl[k0][sp_table_index(a, level0 as u64) as int]),
        !sp_huge(tbl[k0][sp_table_index(a, level0 as u64) as int]),
        sp_entry_addr(tbl[k0][sp_table_index(a, level0 as u64) as int]) == c,
        tbl.contains_key(c),
        level <= level0 - 1,
    ensures
        sp_path_at(tbl, k0, level0, a, level) == sp_path_at(tbl, c, level0 - 1, a, level),
    decreases level0 - level,
{
    if level == level0 - 1 {
        assert(sp_path_at(tbl, k0, level0, a, level0) == Some(k0));
        assert(sp_path_at(tbl, k0, level0, a, level0 - 1) == Some(c));
        assert(sp_path_at(tbl, c, level0 - 1, a, level0 - 1) == Some(c));
    } else {
        lemma_path_at_step(tbl, k0, level0, a, c, level + 1);
        assert(sp_path_at(tbl, k0, level0, a, level) == sp_path_at(tbl, c, level0 - 1, a, level));
    }
}

/// Below a table that is new in the store, every address that parts ways
/// with the mapped one translates to nothing and stays free to map: such
/// a subtree is zero everywhere off the mapped path.
proof fn lemma_new_subtree_blank(
    t0: Map<u64, Seq<u64>>,
    lv0: Map<u64, int>,
    t1: Map<u64, Seq<u64>>,
    lv1: Map<u64, int>,
    c: u64,
    level: int,
    a: u64,
    entry: u64,
    a2: u64,
)
    requires
        sp_tables_linked(t1, lv1),
        sp_map_changes(t0, lv0, t1, lv1, a, entry),
        t1.contains_key(c),
        !t0.contains_key(c),
        lv1[c] == level,
        0 <= level,
        exists|l2: int|
            0 <= l2 <= level && sp_table_index(a, l2 as u64) != #[trigger] sp_table_index(
                a2,
                l2 as u64,
            ),
    ensures
        sp_translate(t1, t1[c], level, a2) is None,
        sp_can_map(t1, t1[c], level, a2),
    decreases level,
{
    broadcast use lemma_table_index_bound;

    lemma_zero_entry();
    let idx = sp_table_index(a, level as u64) as int;
    let idx2 = sp_table_index(a2, level as u64) as int;
    let zt = Seq::new(512, |s: int| 0u64);
    assert(sp_table_change_ok(t0, t1, level, zt, t1[c], a, entry));
    if idx2 != idx {
        assert(t1[c][idx2] == zt[idx2]);
    } else {
        let l2 = choose|l2: int|
            0 <= l2 <= level && sp_table_index(a, l2 as u64) != #[trigger] sp_table_index(
                a2,
                l2 as u64,
            );
        assert(l2 < level);
        let v = t1[c][idx];
        if v == zt[idx] {
        } else {
            assert(!sp_present(zt[idx]));
            assert(level >= 1);
            assert(sp_present(v) && !sp_huge(v) && t1.contains_key(sp_entry_addr(v))
                && !t0.contains_key(sp_entry_addr(v)));
            assert(sp_entry_ok(t1, lv1, v, level));
            lemma_new_subtree_blank(
                t0,
                lv0,
                t1,
                lv1,
                sp_entry_addr(v),
                level - 1,
                a,
                entry,
                a2,
            );
        }
    }
}

/// The frame rule of the mapper: an address whose walk parts ways with
/// the mapped one translates afterwards exactly as before, and stays free
/// to map if it was. The walk of such an address reads only slots the
/// mapping left alone, or descends into fresh all-zero subtrees.
proof fn lemma_walk_preserved(
    t0: Map<u64, Seq<u64>>,
    lv0: Map<u64, int>,
    t1: Map<u64, Seq<u64>>,
    lv1: Map<u64, int>,
    r0: u64,
    level0: int,
    a: u64,
    entry: u64,
    a2: u64,
    k: u64,
    level: int,
    on_path: bool,
)
    requires
        sp_tables_linked(t0, lv0),
        sp_parents_unique(t0, lv0),
        sp_tables_linked(t1, lv1),
        sp_map_changes(t0, lv0, t1, lv1, a, entry),
        forall|c: u64| #[trigger]
            t0.contains_key(c) && t1[c] != t0[c] ==> Some(c) == sp_path_at(
                t0,
                r0,
                level0,
                a,
                lv0[c],
            ),
        t0.contains_key(r0),
        lv0[r0] == level0,
        0 <= level0 <= 2,
        t0.contains_key(k),
        lv0[k] == level,
        0 <= level <= level0,
        on_path ==> Some(k) == sp_path_at(t0, r0, level0, a, level) && (exists|l2: int|
            0 <= l2 <= level && sp_table_index(a, l2 as u64) != #[trigger] sp_table_index(
                a2,
                l2 as u64,
            )),
        !on_path ==> Some(k) != sp_path_at(t0, r0, level0, a, level),
    ensures
        sp_translate(t1, t1[k], level, a2) == sp_translate(t0, t0[k], level, a2),
        sp_can_map(t0, t0[k], level, a2) ==> sp_can_map(t1, t1[k], level, a2),
    decreases level,
{
    broadcast use lemma_table_index_bound;

    let idx = sp_table_index(a, level as u64) as int;
    let idx2 = sp_table_index(a2, level as u64) as int;
    if !on_path {
        assert(t1[k] == t0[k]);
    }
    assert(sp_table_change_ok(t0, t1, level, t0[k], t1[k], a, entry));
    if on_path && idx2 == idx {
        // the two addresses still share the slot here, so they part ways
        // further down
        let l2 = choose|l2: int|
            0 <= l2 <= level && sp_table_index(a, l2 as u64) != #[trigger] sp_table_index(
                a2,
                l2 as u64,
            );
        assert(l2 < level);
        let v0 = t0[k][idx];
        let v1 = t1[k][idx];
        if v1 == v0 {
            if sp_present(v0) && !sp_huge(v0) && level >= 1 {
                assert(sp_entry_ok(t0, lv0, v0, level));
                let c = sp_entry_addr(v0);
                // the walk follows the mapped path one level further down
                assert(sp_path_at(t0, r0, level0, a, level - 1) == Some(c));
                lemma_walk_preserved(
                    t0,
                    lv0,
                    t1,
                    lv1,
                    r0,
                    level0,
                    a,
                    entry,
                    a2,
                    c,
                    level - 1,
                    true,
                );
            }
        } else {
            // the mapping filled this previously empty slot with a fresh
            // subtree, which holds nothing off the mapped path
            assert(!sp_present(v0));
            assert(level >= 1);
            assert(sp_present(v1) && !sp_huge(v1) && t1.contains_key(sp_entry_addr(v1))
                && !t0.contains_key(sp_entry_addr(v1)));
            assert(sp_entry_ok(t1, lv1, v1, level));
            lemma_new_subtree_blank(
                t0,
                lv0,
                t1,
                lv1,
                sp_entry_addr(v1),
                level - 1,
                a,
                entry,
                a2,
            );
        }
    } else {
        // the walk reads a slot the mapping left alone
        let v = t0[k][idx2];
        if idx2 != idx {
            assert(t1[k][idx2] == t0[k][idx2]);
        }
        if sp_present(v) && !sp_huge(v) && level >= 1 {
            assert(sp_entry_ok(t0, lv0, v, level));
            let c = sp_entry_addr(v);
            // the child is not the path table one level down: the path
            // table's one parent slot is on the path, and this is not it
            let pl1 = sp_path_at(t0, r0, level0, a, level - 1);
            if pl1 is Some {
                let pq = sp_path_at(t0, r0, level0, a, level);
                let p = pq->Some_0;
                lemma_path_at_level(t0, lv0, r0, level0, a, level, p);
                let ep = t0[p][idx];
                assert(sp_present(ep) && !sp_huge(ep) && pl1 == Some(sp_entry_addr(ep)));
                assert(k != p || idx2 != idx);
                assert(sp_entry_addr(t0[k][idx2]) != sp_entry_addr(t0[p][idx]));
            }
            assert(Some(c) != pl1);
            lemma_walk_preserved(
                t0,
                lv0,
                t1,
                lv1,
                r0,
                level0,
                a,
                entry,
                a2,
                c,
                level - 1,
                false,
            );
        }
    }
}

/// Addresses that disagree in their path bits part ways at one of the
/// four levels.
pub proof fn lemma_page_bits_divergence(a: u64, a2: u64)
    requires
        sp_page_bits(a) != sp_page_bits(a2),
    ensures
        exists|l2: int|
            0 <= l2 <= 3 && sp_table_index(a, l2 as u64) != #[trigger] sp_table_index(
                a2,
                l2 as u64,
            ),
{
    assert(a & 0x0000_ffff_ffff_f000 != a2 & 0x0000_ffff_ffff_f000 ==> ((a >> 12) & 0x1ff != (a2
        >> 12) & 0x1ff) || ((a >> 21) & 0x1ff != (a2 >> 21) & 0x1ff) || ((a >> 30) & 0x1ff != (a2
        >> 30) & 0x1ff) || ((a >> 39) & 0x1ff != (a2 >> 39) & 0x1ff)) by (bit_vector);
    if sp_table_index(a, 0) != sp_table_index(a2, 0) {
        assert(0 <= 0 <= 3 && sp_table_index(a, 0 as u64) != sp_table_index(a2, 0 as u64));
    } else if sp_table_index(a, 1) != sp_table_index(a2, 1) {
        assert(0 <= 1 <= 3 && sp_table_index(a, 1 as u64) != sp_table_index(a2, 1 as u64));
    } else if sp_table_index(a, 2) != sp_table_index(a2, 2) {
        assert(0 <= 2 <= 3 && sp_table_index(a, 2 as u64) != sp_table_index(a2, 2 as u64));
    } else {
        assert(sp_table_index(a, 3) != sp_table_index(a2, 3));
        assert(0 <= 3 <= 3 && sp_table_index(a, 3 as u64) != sp_table_index(a2, 3 as u64));
    }
}

/// A walk through tables the mapping did not touch gives the same answer
/// in the grown store.
proof fn lemma_walk_unchanged(
    t0: Map<u64, Seq<u64>>,
    lv0: Map<u64, int>,
    t1: Map<u64, Seq<u64>>,
    k: u64,
    level: int,
    a2: u64,
)
    requires
        sp_tables_linked(t0, lv0),
        forall|c: u64| #[trigger] t0.contains_key(c) ==> t1.contains_key(c) && t1[c] == t0[c],
        t0.contains_key(k),
        lv0[k] == level,
        0 <= level,
    ensures
        sp_translate(t1, t1[k], level, a2) == sp_translate(t0, t0[k], level, a2),
        sp_can_map(t0, t0[k], level, a2) ==> sp_can_map(t1, t1[k], level, a2),
    decreases level,
{
    broadcast use lemma_table_index_bound;

    let v = t0[k][sp_table_index(a2, level as u64) as int];
    if sp_present(v) && !sp_huge(v) && level >= 1 {
        assert(sp_entry_ok(t0, lv0, v, level));
        lemma_walk_unchanged(t0, lv0, t1, sp_entry_addr(v), level - 1, a2);
    }
}

/// A page that already translates somewhere cannot be mapped again: the
/// very walk that produced the translation makes the mapper stop with
/// `PageAlreadyMapped`, whatever the frame supply.
pub proof fn lemma_mapped_page_rejects_remap(
    tbl: Map<u64, Seq<u64>>,
    table: Seq<u64>,
    level: int,
    a: u64,
    nframes: int,
)
    requires
        0 <= level,
        sp_translate(tbl, table, level, a) is Some,
    ensures
        sp_map_result(tbl, table, level, a, nframes) == Err::<(), PageMapError>(
            PageMapError::PageAlreadyMapped,
        ),
    decreases level,
{
    let e = table[sp_table_index(a, level as u64) as int];
    if level > 0 && sp_present(e) && !sp_huge(e) {
        if tbl.contains_key(sp_entry_addr(e)) {
            lemma_mapped_page_rejects_remap(tbl, tbl[sp_entry_addr(e)], level - 1, a, nframes);
        } else {
            assert(false);
        }
    }
}

/// A walk reads only the four table indices and the residual offset, all
/// in the low 48 bits of the address: addresses that agree there
/// translate alike, reach the same leaf slot, and are alike free to map,
/// whatever their high bits hold.
pub proof fn lemma_walk_ignores_high_bits(
    tbl: Map<u64, Seq<u64>>,
    table: Seq<u64>,
    level: int,
    a: u64,
    a2: u64,
)
    requires
        a & 0xffff_ffff_ffff == a2 & 0xffff_ffff_ffff,
        0 <= level <= 3,
    ensures
        sp_translate(tbl, table, level, a) == sp_translate(tbl, table, level, a2),
        sp_leaf_of(tbl, table, level, a) == sp_leaf_of(tbl, table, level, a2),
        sp_can_map(tbl, table, level, a) == sp_can_map(tbl, table, level, a2),
    decreases level,
{
    if 0 <= level {
        let l = level as u64;
        assert(a & 0xffff_ffff_ffff == a2 & 0xffff_ffff_ffff && l <= 3 ==> (a >> ((12 + 9
            * l) as u64)) & 0x1ff == (a2 >> ((12 + 9 * l) as u64)) & 0x1ff && a & 0xfff == a2
            & 0xfff && a & 0x1f_ffff == a2 & 0x1f_ffff && a & 0x3fff_ffff == a2 & 0x3fff_ffff)
            by (bit_vector);
        let e = table[sp_table_index(a, l) as int];
        if level >= 1 && sp_present(e) && !sp_huge(e) && tbl.contains_key(sp_entry_addr(e)) {
            lemma_walk_ignores_high_bits(tbl, tbl[sp_entry_addr(e)], level - 1, a, a2);
        }
    }
}

/// The view of an optional physical address, for stating what a walk
/// returned.
pub open spec fn sp_addr_of(r: Option<PhysAddr>) -> Option<u64> {
    match r {
        Some(p) => Some(p@),
        None => None,
    }
}

/// The page-table index of `a` at `level` is always a valid slot.
pub broadcast proof fn lemma_table_index_bound(a: u64, level: u64)
    ensures
        #[trigger] sp_table_index(a, level) < 512,
{
    assert((a >> ((12 + 9 * level) as u64)) & 0x1ff < 512) by (bit_vector);
}

/// The stored page-table frames: the slice of physical memory the walk
/// reads, keyed by frame start address. Each stored table carries (as
/// ghost information) the level it sits at in the hierarchy.
pub struct PhysMem {
    addrs: Vec<u64>,
    tables: Vec<PageTable>,
    levels: Ghost<Map<u64, int>>,
}

impl View for PhysMem {
    type V = Map<u64, Seq<u64>>;

    closed spec fn view(&self) -> Map<u64, Seq<u64>> {
        Map::new(|a: u64| self.addrs@.contains(a), |a: u64| self.tables@[self.index_of(a)]@)
    }
}

impl PhysMem {
    /// The position of a stored frame address in the backing vectors.
    closed spec fn index_of(&self, a: u64) -> int {
        choose|i: int| 0 <= i < self.addrs@.len() && self.addrs@[i] == a
    }

    /// The level of each stored table.
    pub closed spec fn levels(&self) -> Map<u64, int> {
        self.levels@
    }

    /// The store's internal validity: distinct valid frame addresses, one
    /// 512-entry table per address, a level in 0..=2 for each, and every
    /// stored table well-linked at its level.
    pub closed spec fn inv(&self) -> bool {
        &&& self.addrs@.no_duplicates()
        &&& self.addrs@.len() == self.tables@.len()
        &&& (forall|i: int| 0 <= i < self.addrs@.len() ==> sp_frame_ok(#[trigger] self.addrs@[i]))
        &&& (forall|i: int|
            0 <= i < self.tables@.len() ==> (#[trigger] self.tables@[i])@.len() == 512)
        &&& (forall|a: u64| #[trigger]
            self.levels@.dom().contains(a) ==> self.addrs@.contains(a))
        &&& (forall|a: u64| #[trigger]
            self.addrs@.contains(a) ==> self.levels@.dom().contains(a) && 0 <= self.levels@[a]
                <= 2)
        &&& sp_tables_linked(self@, self.levels@)
    }

    /// The root table is well-linked against this store when read at level
    /// 3.
    pub open spec fn root_ok(&self, root: Seq<u64>) -> bool {
        sp_table_ok(self@, self.levels(), root, 3)
    }

    /// Everything the mapper needs of a hierarchy: a valid store, a
    /// well-linked root, and tree shape (no shared children anywhere).
    pub open spec fn hierarchy_ok(&self, root: Seq<u64>) -> bool {
        &&& self.inv()
        &&& self.root_ok(root)
        &&& sp_root_children_unique(root)
        &&& sp_parents_unique(self@, self.levels())
    }

    /// An empty store: no table frames at all.
    pub fn new() -> (r: PhysMem)
        ensures
            r.inv(),
            r@ == Map::<u64, Seq<u64>>::empty(),
            r.levels() == Map::<u64, int>::empty(),
    {
        let r = PhysMem { addrs: Vec::new(), tables: Vec::new(), levels: Ghost(Map::empty()) };
        proof {
            assert(r@ =~= Map::<u64, Seq<u64>>::empty());
        }
        r
    }

    /// Ties a backing-vector position to the view.
    proof fn lemma_view_index(&self, i: int)
        requires
            self.inv(),
            0 <= i < self.addrs@.len(),
        ensures
            self@.contains_key(self.addrs@[i]),
            self@[self.addrs@[i]] == self.tables@[i]@,
            self.index_of(self.addrs@[i]) == i,
    {
        let a = self.addrs@[i];
        assert(self.addrs@.contains(a));
        let j = self.index_of(a);
        assert(self.addrs@[j] == a);
        if i != j {
            assert(false);
        }
    }

    /// Finds the backing position of a stored frame address.
    fn find_table(&self, addr: u64) -> (r: Option<usize>)
        requires
            self.inv(),
        ensures
            (r is Some) == self@.contains_key(addr),
            r matches Some(i) ==> i < self.tables@.len() && self.addrs@[i as int] == addr
                && self@[addr] == self.tables@[i as int]@,
    {
        let n = self.addrs.len();
        let mut j: usize = 0;
        while j < n
            invariant
                self.inv(),
                n == self.addrs@.len(),
                j <= n,
                forall|t: int| 0 <= t < j ==> self.addrs@[t] != addr,
            decreases n - j,
        {
            if self.addrs[j] == addr {
                proof {
                    self.lemma_view_index(j as int);
                }
                return Some(j);
            }
            j = j + 1;
        }
        proof {
            if self@.contains_key(addr) {
                let w = choose|t: int| 0 <= t < self.addrs@.len() && self.addrs@[t] == addr;
                assert(self.addrs@[w] != addr);
            }
        }
        None
    }

    /// Reads one entry of a stored table.
    fn table_entry(&self, i: usize, index: PageTableIndex) -> (r: PageTableEntry)
        requires
            self.inv(),
            i < self.tables@.len(),
        ensures
            r@ == self@[self.addrs@[i as int]][index@ as int],
    {
        proof {
            self.lemma_view_index(i as int);
        }
        self.tables[i].entry_at(index)
    }

    /// Replaces one entry of the stored table at backing position `i`.
    /// The new entry must keep the store well-linked at that table's
    /// level.
    fn set_entry_at(&mut self, i: usize, index: PageTableIndex, e: PageTableEntry)
        requires
            old(self).inv(),
            i < old(self).tables@.len(),
            sp_entry_ok(
                old(self)@,
                old(self).levels(),
                e@,
                old(self).levels()[old(self).addrs@[i as int]],
            ),
        ensures
            final(self).inv(),
            final(self).levels() == old(self).levels(),
            final(self).addrs@ == old(self).addrs@,
            final(self).tables@.len() == old(self).tables@.len(),
            final(self)@ == old(self)@.insert(
                old(self).addrs@[i as int],
                old(self)@[old(self).addrs@[i as int]].update(index@ as int, e@),
            ),
    {
        proof {
            old(self).lemma_view_index(i as int);
            use_type_invariant(index);
        }
        let ghost ta = old(self).addrs@[i as int];
        let ghost t_new = old(self)@[ta].update(index@ as int, e@);
        self.tables[i].set_entry(index, e);
        proof {
            assert forall|j: int| 0 <= j < self.addrs@.len() implies self.index_of(
                self.addrs@[j],
            ) == j by {
                let x = self.addrs@[j];
                assert(self.addrs@.contains(x));
                let w = self.index_of(x);
                assert(self.addrs@[w] == x);
            }
            assert(self@ =~~= old(self)@.insert(ta, t_new)) by {
                assert forall|k: u64| self.addrs@.contains(k) implies self@[k] == old(self)@.insert(
                    ta,
                    t_new,
                )[k] by {
                    let w = choose|t: int|
                        0 <= t < self.addrs@.len() && self.addrs@[t] == k;
                    assert(self.index_of(k) == w);
                    assert(old(self).index_of(k) == w) by {
                        old(self).lemma_view_index(w);
                    }
                    if k == ta {
                        assert(w == i as int);
                    }
                }
            }
            assert(self.inv()) by {
                assert forall|k: u64| #[trigger] self@.contains_key(k) implies sp_table_ok(
                    self@,
                    self.levels@,
                    self@[k],
                    self.levels@[k],
                ) by {
                    let lvk = self.levels@[k];
                    assert forall|s: int| 0 <= s < 512 implies sp_entry_ok(
                        self@,
                        self.levels@,
                        #[trigger] self@[k][s],
                        lvk,
                    ) by {
                        if k == ta && s == index@ as int {
                            assert(self@[k][s] == e@);
                        } else {
                            assert(self@[k][s] == old(self)@[k][s]);
                            assert(sp_entry_ok(old(self)@, self.levels@, old(self)@[k][s], lvk));
                        }
                    }
                }
            }
        }
    }

    /// Adds a fresh zeroed table at a frame address not yet stored, at the
    /// given level of the hierarchy.
    fn push_table(
        &mut self,
        frame: crate::paging::PhysFrame,
        table: PageTable,
        Ghost(level): Ghost<int>,
    )
        requires
            old(self).inv(),
            !old(self)@.contains_key(frame@),
            0 <= level <= 2,
            forall|s: int| 0 <= s < 512 ==> !sp_present(#[trigger] table@[s]),
            table@.len() == 512,
        ensures
            final(self).inv(),
            final(self)@ == old(self)@.insert(frame@, table@),
            final(self).levels() == old(self).levels().insert(frame@, level),
            final(self).tables@.len() == old(self).tables@.len() + 1,
            final(self).addrs@ == old(self).addrs@.push(frame@),
            final(self).addrs@[old(self).tables@.len() as int] == frame@,
    {
        proof {
            use_type_invariant(&frame);
        }
        let a = frame.start_address().as_u64();
        self.addrs.push(a);
        self.tables.push(table);
        proof {
            self.levels@ = self.levels@.insert(a, level);
            assert forall|j: int| 0 <= j < self.addrs@.len() implies self.index_of(
                self.addrs@[j],
            ) == j by {
                let x = self.addrs@[j];
                assert(self.addrs@.contains(x));
                let w = self.index_of(x);
                assert(self.addrs@[w] == x);
                if w != j {
                    if w < old(self).addrs@.len() && j < old(self).addrs@.len() {
                        assert(false);
                    } else {
                        assert(old(self).addrs@.contains(a));
                        old(self).lemma_view_index(if w < j {
                            w
                        } else {
                            j
                        });
                        assert(false);
                    }
                }
            }
            let ghost n0 = old(self).addrs@.len() as int;
            assert(!old(self).addrs@.contains(a));
            assert(self.addrs@[n0] == a);
            assert forall|k: u64| #[trigger] self.addrs@.contains(k) implies old(
                self,
            ).addrs@.contains(k) || k == a by {
                let w = choose|t: int| 0 <= t < self.addrs@.len() && self.addrs@[t] == k;
                if w < n0 {
                    assert(old(self).addrs@[w] == k);
                }
            }
            assert forall|k: u64| #[trigger] old(self).addrs@.contains(k) implies self.addrs@.contains(
                k,
            ) by {
                let w = choose|t: int|
                    0 <= t < old(self).addrs@.len() && old(self).addrs@[t] == k;
                assert(self.addrs@[w] == k);
            }
            assert forall|k: u64| self.addrs@.contains(k) && k != a implies self@[k] == old(
                self,
            )@[k] by {
                let w = choose|t: int| 0 <= t < self.addrs@.len() && self.addrs@[t] == k;
                assert(self.addrs@[w] == k);
                assert(w < n0);
                assert(old(self).addrs@[w] == k);
                assert(old(self).addrs@.contains(k));
                old(self).lemma_view_index(w);
                assert(self.index_of(k) == w);
            }
            assert(self.index_of(a) == n0);
            assert(self@ =~~= old(self)@.insert(a, table@));
            assert(self.inv()) by {
                assert forall|k: u64| #[trigger] self@.contains_key(k) implies sp_table_ok(
                    self@,
                    self.levels@,
                    self@[k],
                    self.levels@[k],
                ) by {
                    let lvk = self.levels@[k];
                    assert forall|s: int| 0 <= s < 512 implies sp_entry_ok(
                        self@,
                        self.levels@,
                        #[trigger] self@[k][s],
                        lvk,
                    ) by {
                        if k == a {
                            assert(!sp_present(self@[k][s]));
                        } else {
                            assert(self@[k][s] == old(self)@[k][s]);
                            assert(sp_entry_ok(
                                old(self)@,
                                old(self).levels@,
                                old(self)@[k][s],
                                lvk,
                            ));
                        }
                    }
                }
            }
        }
    }

    /// Walks the stored hierarchy from the table at backing position `i`,
    /// which sits at `level`, and returns the translation of `a` below it.
    fn translate_in(&self, i: usize, level: u64, a: u64) -> (r: Option<u64>)
        requires
            self.inv(),
            i < self.tables@.len(),
            self.levels()[self.addrs@[i as int]] == level,
        ensures
            r == sp_translate(self@, self@[self.addrs@[i as int]], level as int, a),
        decreases level,
    {
        proof {
            self.lemma_view_index(i as int);
            broadcast use lemma_table_index_bound;

        }
        let ghost taddr = self.addrs@[i as int];
        let ghost tb = self@[taddr];
        proof {
            assert(self.addrs@.contains(taddr));
            assert(level <= 2);
        }
        let s: u64 = 12 + 9 * level;
        let index = PageTableIndex::new_truncate((a >> s) as u16);
        proof {
            lemma_index_truncate(a, s);
            assert(index@ == sp_table_index(a, level));
        }
        let e = self.table_entry(i, index);
        let b = e.bits();
        let ghost eg = tb[sp_table_index(a, level) as int];
        proof {
            assert(b == eg);
            lemma_entry_bits(b);
        }
        if b & FLAG_PRESENT == 0 {
            return None;
        }
        if b & FLAG_HUGE_PAGE != 0 {
            proof {
                assert(sp_entry_ok(self@, self.levels@, eg, level as int));
            }
            if level == 2 {
                proof {
                    lemma_offset_bounds(a);
                }
                return Some((b & 0x000f_ffff_c000_0000) + (a & 0x3fff_ffff));
            } else {
                proof {
                    lemma_offset_bounds(a);
                }
                return Some((b & 0x000f_ffff_ffe0_0000) + (a & 0x1f_ffff));
            }
        }
        if level == 0 {
            proof {
                assert((b & ENTRY_ADDR_MASK) + (a & 0xfff) <= u64::MAX) by (bit_vector);
            }
            return Some((b & ENTRY_ADDR_MASK) + (a & 0xfff));
        }
        let child = b & ENTRY_ADDR_MASK;
        proof {
            assert(sp_entry_ok(self@, self.levels@, eg, level as int));
            assert(child == sp_entry_addr(eg));
        }
        match self.find_table(child) {
            Some(ci) => self.translate_in(ci, level - 1, a),
            None => {
                proof {
                    assert(false);
                }
                None
            },
        }
    }
}

impl PhysMem {
    /// Installs a mapping below the stored table at backing position `i`,
    /// which sits at `level`: walks toward the leaf slot the address
    /// selects, drawing fresh zeroed tables from the allocator where the
    /// path is missing, and writes `entry` at the leaf.
    fn map_in<A: FrameAllocator>(
        &mut self,
        i: usize,
        level: u64,
        a: u64,
        entry: PageTableEntry,
        allocator: &mut A,
    ) -> (r: Result<(), PageMapError>)
        requires
            old(self).inv(),
            i < old(self).tables@.len(),
            old(self).levels()[old(self).addrs@[i as int]] == level,
            sp_parents_unique(old(self)@, old(self).levels()),
            sp_present(entry@) ==> !sp_huge(entry@),
            old(allocator).wf(),
            forall|t: int|
                0 <= t < old(allocator).frames().len() ==> !old(self)@.contains_key(
                    #[trigger] old(allocator).frames()[t],
                ),
        ensures
            final(self).inv(),
            final(allocator).wf(),
            sp_parents_unique(final(self)@, final(self).levels()),
            r == sp_map_result(
                old(self)@,
                old(self)@[old(self).addrs@[i as int]],
                level as int,
                a,
                old(allocator).frames().len() as int,
            ),
            final(allocator).frames().len() >= old(allocator).frames().len() - level,
            final(allocator).frames() == old(allocator).frames().skip(
                sp_frames_taken(
                    old(self)@,
                    old(self)@[old(self).addrs@[i as int]],
                    level as int,
                    a,
                    old(allocator).frames().len() as int,
                ),
            ),
            forall|t: int|
                0 <= t < final(allocator).frames().len() ==> !final(self)@.contains_key(
                    #[trigger] final(allocator).frames()[t],
                ),
            sp_map_changes(
                old(self)@,
                old(self).levels(),
                final(self)@,
                final(self).levels(),
                a,
                entry@,
            ),
            r is Ok ==> sp_leaf_of(
                final(self)@,
                final(self)@[old(self).addrs@[i as int]],
                level as int,
                a,
            ) == Some(entry@),
            r == Err::<(), PageMapError>(PageMapError::FrameAllocation) ==> forall|a2: u64| #![auto]
                sp_align_down(a2) == sp_align_down(a) ==> sp_translate(
                    final(self)@,
                    final(self)@[old(self).addrs@[i as int]],
                    level as int,
                    a2,
                ) is None,
            r == Err::<(), PageMapError>(PageMapError::PageAlreadyMapped) ==> final(self)@ == old(self)@
                && final(self).levels() == old(self).levels()
                && final(allocator).frames() == old(allocator).frames(),
            forall|c: u64| #[trigger]
                old(self)@.contains_key(c) && final(self)@[c] != old(self)@[c] ==> Some(c)
                    == sp_path_at(
                    old(self)@,
                    old(self).addrs@[i as int],
                    level as int,
                    a,
                    old(self).levels()[c],
                ),
            r is Ok ==> forall|a2: u64| #![auto]
                sp_align_down(a2) == sp_align_down(a) ==> sp_translate(
                    final(self)@,
                    final(self)@[old(self).addrs@[i as int]],
                    level as int,
                    a2,
                ) == sp_leaf_val(entry@, a2),
        decreases level,
    {
        proof {
            broadcast use lemma_table_index_bound;

            self.lemma_view_index(i as int);
        }
        let ghost taddr = self.addrs@[i as int];
        let ghost t_here = self@[taddr];
        proof {
            assert(self.addrs@.contains(taddr));
            assert(level <= 2);
        }
        let s: u64 = 12 + 9 * level;
        let index = PageTableIndex::new_truncate((a >> s) as u16);
        proof {
            lemma_index_truncate(a, s);
            assert(index@ == sp_table_index(a, level));
        }
        let ghost idx = sp_table_index(a, level) as int;
        let e = self.table_entry(i, index);
        let b = e.bits();
        proof {
            assert(b == t_here[idx]);
            lemma_entry_bits(b);
        }
        if level == 0 {
            if b & FLAG_PRESENT != 0 {
                proof {
                    lemma_map_changes_refl(self@, self.levels@, a, entry@);
                    assert(old(allocator).frames().skip(0) =~= old(allocator).frames());
                }
                return Err(PageMapError::PageAlreadyMapped);
            }
            self.set_entry_at(i, index, entry);
            proof {
                assert(self.addrs@.contains(taddr));
                assert(self@ == old(self)@.insert(taddr, t_here.update(idx, entry@)));
                assert(old(allocator).frames().skip(0) =~= old(allocator).frames());
                assert(sp_leaf_of(self@, self@[taddr], 0, a) == Some(entry@));
                assert forall|a2: u64| sp_align_down(a2) == sp_align_down(a) implies sp_translate(
                    self@,
                    self@[taddr],
                    0,
                    a2,
                ) == sp_leaf_val(entry@, a2) by {
                    lemma_same_page_same_index(a, a2, 0);
                    assert(self@[taddr][sp_table_index(a2, 0) as int] == entry@);
                }
                assert forall|k: u64| #[trigger] old(self)@.contains_key(k) implies
                    sp_table_change_ok(
                    old(self)@,
                    self@,
                    old(self).levels()[k],
                    old(self)@[k],
                    self@[k],
                    a,
                    entry@,
                ) by {
                    if k != taddr {
                        assert(self@[k] == old(self)@[k]);
                    } else {
                        assert(old(self).levels()[k] == 0);
                        assert(self@[k] == t_here.update(idx, entry@));
                        assert(!sp_present(t_here[idx]));
                    }
                }
                assert(sp_path_at(old(self)@, taddr, 0, a, 0) == Some(taddr));
                assert forall|c: u64| #[trigger]
                    old(self)@.contains_key(c) && self@[c] != old(self)@[c] implies Some(c)
                    == sp_path_at(old(self)@, taddr, 0, a, old(self).levels()[c]) by {
                    assert(c == taddr);
                }
                // the written slot sits in a leaf table, so no pointer slot
                // changed and the store stays a forest
                assert forall|k1: u64, s1: int, k2: u64, s2: int|
                    #![trigger self@[k1][s1], self@[k2][s2]]
                    self@.contains_key(k1) && self@.contains_key(k2) && 0 <= s1 < 512 && 0 <= s2
                        < 512 && self.levels()[k1] >= 1 && self.levels()[k2] >= 1 && sp_present(
                        self@[k1][s1],
                    ) && !sp_huge(self@[k1][s1]) && sp_present(self@[k2][s2]) && !sp_huge(
                        self@[k2][s2],
                    ) && (k1 != k2 || s1 != s2) implies sp_entry_addr(self@[k1][s1])
                    != sp_entry_addr(self@[k2][s2]) by {
                    assert(k1 != taddr && k2 != taddr);
                    assert(self@[k1][s1] == old(self)@[k1][s1]);
                    assert(self@[k2][s2] == old(self)@[k2][s2]);
                }
            }
            return Ok(());
        }
        // an intermediate level: 2 or 1
        if b & FLAG_PRESENT != 0 {
            if b & FLAG_HUGE_PAGE != 0 {
                // a huge mapping already covers this address
                proof {
                    lemma_map_changes_refl(self@, self.levels@, a, entry@);
                    assert(old(allocator).frames().skip(0) =~= old(allocator).frames());
                }
                return Err(PageMapError::PageAlreadyMapped);
            }
            let child = b & ENTRY_ADDR_MASK;
            proof {
                assert(sp_entry_ok(self@, self.levels@, t_here[idx], level as int));
                assert(child == sp_entry_addr(b));
            }
            let ci = match self.find_table(child) {
                Some(ci) => ci,
                None => {
                    proof {
                        assert(false);
                    }
                    0
                },
            };
            let r = self.map_in(ci, level - 1, a, entry, allocator);
            proof {
                assert(sp_missing_levels(old(self)@, t_here, level as int, a) == sp_missing_levels(
                    old(self)@,
                    old(self)@[child],
                    level as int - 1,
                    a,
                ));
                assert forall|c: u64| #[trigger]
                    old(self)@.contains_key(c) && self@[c] != old(self)@[c] implies Some(c)
                    == sp_path_at(old(self)@, taddr, level as int, a, old(self).levels()[c]) by {
                    let lvc = old(self).levels()[c];
                    assert(Some(c) == sp_path_at(old(self)@, child, level as int - 1, a, lvc));
                    if lvc > level as int - 1 {
                        assert(sp_path_at(old(self)@, child, level as int - 1, a, lvc) is None);
                        assert(false);
                    }
                    lemma_path_at_step(old(self)@, taddr, level as int, a, child, lvc);
                }
                assert(sp_table_change_ok(
                    old(self)@,
                    self@,
                    level as int,
                    old(self)@[taddr],
                    self@[taddr],
                    a,
                    entry@,
                ));
                assert(self@[taddr][idx] == b);
                assert(self@.contains_key(child));
                if r is Ok {
                    assert(sp_leaf_of(self@, self@[taddr], level as int, a) == sp_leaf_of(
                        self@,
                        self@[child],
                        level as int - 1,
                        a,
                    ));
                    assert forall|a2: u64| sp_align_down(a2) == sp_align_down(a) implies
                        sp_translate(self@, self@[taddr], level as int, a2) == sp_leaf_val(
                        entry@,
                        a2,
                    ) by {
                        lemma_same_page_same_index(a, a2, level);
                        assert(sp_translate(self@, self@[taddr], level as int, a2) == sp_translate(
                            self@,
                            self@[child],
                            level as int - 1,
                            a2,
                        ));
                    }
                }
                if r == Err::<(), PageMapError>(PageMapError::FrameAllocation) {
                    assert forall|a2: u64| sp_align_down(a2) == sp_align_down(a) implies
                        sp_translate(self@, self@[taddr], level as int, a2) is None by {
                        lemma_same_page_same_index(a, a2, level);
                        assert(sp_translate(self@, self@[child], level as int - 1, a2) is None);
                        assert(sp_translate(self@, self@[taddr], level as int, a2) == sp_translate(
                            self@,
                            self@[child],
                            level as int - 1,
                            a2,
                        ));
                    }
                }
            }
            return r;
        }
        // nothing here yet: grow the path with a fresh table
        proof {
            allocator.frames_are_sound();
        }
        let ghost frames0 = allocator.frames();
        let f = match allocator.allocate() {
            None => {
                proof {
                    lemma_map_changes_refl(self@, self.levels@, a, entry@);
                    assert(frames0.skip(0) =~= frames0);
                    assert(sp_missing_levels(old(self)@, t_here, level as int, a) == level as int);
                    assert forall|a2: u64| #![auto]
                        sp_align_down(a2) == sp_align_down(a) implies sp_translate(
                        self@,
                        self@[taddr],
                        level as int,
                        a2,
                    ) is None by {
                        lemma_same_page_same_index(a, a2, level);
                    }
                }
                return Err(PageMapError::FrameAllocation);
            },
            Some(f) => f,
        };
        let table = PageTable::new();
        proof {
            lemma_zero_entry();
            assert(!old(self)@.contains_key(f@));
        }
        self.push_table(f, table, Ghost(level as int - 1));
        let ghost mid1 = *self;
        let pe = PageTableEntry::new(
            f,
            crate::paging::PageTableEntryFlags::from_bits_truncate(FLAG_PRESENT | FLAG_WRITABLE),
        );
        proof {
            lemma_rw_entry_flags();
            assert(sp_present(pe@) && !sp_huge(pe@) && sp_entry_addr(pe@) == f@);
            assert(self.levels()[taddr] == level as int);
        }
        self.set_entry_at(i, index, pe);
        let ghost mid2 = *self;
        let ci = self.tables.len() - 1;
        proof {
            assert(self.addrs@[ci as int] == f@);
            assert(self.levels()[f@] == level as int - 1);
            assert(self@[f@] == mid1@[f@]);
            assert forall|t: int| 0 <= t < allocator.frames().len() implies !self@.contains_key(
                #[trigger] allocator.frames()[t],
            ) by {
                assert(allocator.frames()[t] == frames0[t + 1]);
                assert(!old(self)@.contains_key(frames0[t + 1]));
                assert(frames0[t + 1] != frames0[0]);
            }
        }
        let ghost frames1 = allocator.frames();
        proof {
            assert(frames1 == frames0.skip(1));
            // the fresh table is pointed at exactly once, and every older
            // pointer still leads to a table that was already stored
            assert forall|k1: u64, s1: int, k2: u64, s2: int|
                #![trigger self@[k1][s1], self@[k2][s2]]
                self@.contains_key(k1) && self@.contains_key(k2) && 0 <= s1 < 512 && 0 <= s2 < 512
                    && self.levels()[k1] >= 1 && self.levels()[k2] >= 1 && sp_present(
                    self@[k1][s1],
                ) && !sp_huge(self@[k1][s1]) && sp_present(self@[k2][s2]) && !sp_huge(
                    self@[k2][s2],
                ) && (k1 != k2 || s1 != s2) implies sp_entry_addr(self@[k1][s1]) != sp_entry_addr(
                self@[k2][s2],
            ) by {
                lemma_zero_entry();
                assert(k1 != f@ && k2 != f@);
                if k1 == taddr && s1 == idx {
                    assert(sp_entry_addr(self@[k1][s1]) == f@);
                    assert(self@[k2][s2] == old(self)@[k2][s2]);
                    assert(sp_entry_ok(old(self)@, old(self).levels(), old(self)@[k2][s2], old(self).levels()[k2]));
                    assert(old(self)@.contains_key(sp_entry_addr(self@[k2][s2])));
                } else if k2 == taddr && s2 == idx {
                    assert(sp_entry_addr(self@[k2][s2]) == f@);
                    assert(self@[k1][s1] == old(self)@[k1][s1]);
                    assert(sp_entry_ok(old(self)@, old(self).levels(), old(self)@[k1][s1], old(self).levels()[k1]));
                    assert(old(self)@.contains_key(sp_entry_addr(self@[k1][s1])));
                } else {
                    assert(self@[k1][s1] == old(self)@[k1][s1]);
                    assert(self@[k2][s2] == old(self)@[k2][s2]);
                }
            }
        }
        let r = self.map_in(ci, level - 1, a, entry, allocator);
        proof {
            // the result matches the owed outcome: the subtree below the
            // fresh table is all zero, so only the frame count decides
            assert(mid2@[f@] =~= Seq::new(512, |s2: int| 0u64));
            assert(!sp_present(mid2@[f@][sp_table_index(a, (level - 1) as u64) as int]));
            assert(r == sp_map_result(
                mid2@,
                mid2@[f@],
                level as int - 1,
                a,
                frames0.skip(1).len() as int,
            ));
            assert(r == sp_map_result(old(self)@, t_here, level as int, a, frames0.len() as int))
                by {
                if level == 1 {
                } else {
                    assert(frames0.skip(1).len() as int == frames0.len() as int - 1);
                }
            }
            // the allocator drew exactly one frame per missing level
            assert(frames1.len() == frames0.len() - 1);
            assert(pe@ == (sp_entry_addr(pe@) | (FLAG_PRESENT | FLAG_WRITABLE)));
            let taken1 = sp_frames_taken(mid2@, mid2@[f@], level as int - 1, a, frames1.len() as int);
            assert(allocator.frames() == frames1.skip(taken1));
            assert(sp_missing_levels(mid2@, mid2@[f@], level as int - 1, a) == level as int - 1);
            assert(sp_missing_levels(old(self)@, t_here, level as int, a) == level as int);
            assert(frames1.skip(taken1) =~= frames0.skip(1 + taken1));
            assert(allocator.frames() == frames0.skip(
                sp_frames_taken(old(self)@, t_here, level as int, a, frames0.len() as int),
            ));
            // the store changed only in the allowed way, seen from the state
            // before the fresh table went in
            assert(sp_map_changes(mid2@, mid2.levels(), self@, self.levels(), a, entry@));
            assert forall|k: u64| #[trigger] old(self)@.contains_key(k) implies self@.contains_key(
                k,
            ) && self.levels().contains_key(k) && self.levels()[k] == old(self).levels()[k] by {
                assert(mid2@.contains_key(k));
            }
            assert forall|k: u64| #[trigger] old(self)@.contains_key(k) implies
                sp_table_change_ok(
                old(self)@,
                self@,
                old(self).levels()[k],
                old(self)@[k],
                self@[k],
                a,
                entry@,
            ) by {
                let lvk = old(self).levels()[k];
                let kidx = sp_table_index(a, lvk as u64) as int;
                assert(mid2@.contains_key(k));
                assert(k != f@);
                assert(mid2.levels()[k] == lvk);
                assert(sp_table_change_ok(mid2@, self@, lvk, mid2@[k], self@[k], a, entry@));
                if k == taddr {
                    assert(mid2@[k] == t_here.update(idx, pe@));
                    assert(kidx == idx);
                    assert(mid2@[k][idx] == pe@);
                    assert(self@[k][idx] == pe@);
                    assert forall|s2: int| 0 <= s2 < 512 && s2 != idx implies self@[k][s2]
                        == #[trigger] old(self)@[k][s2] by {
                        assert(self@[k][s2] == mid2@[k][s2]);
                        assert(mid2@[k][s2] == t_here[s2]);
                    }
                    assert(!sp_present(t_here[idx]));
                    assert(self@.contains_key(f@) && !old(self)@.contains_key(f@));
                    assert(sp_present(pe@) && !sp_huge(pe@) && sp_entry_addr(pe@) == f@);
                } else {
                    assert(mid2@[k] == old(self)@[k]);
                    assert forall|s2: int| 0 <= s2 < 512 && s2 != kidx implies self@[k][s2]
                        == #[trigger] old(self)@[k][s2] by {
                        assert(self@[k][s2] == mid2@[k][s2]);
                    }
                    if self@[k][kidx] != old(self)@[k][kidx] {
                        assert(self@[k][kidx] != mid2@[k][kidx]);
                        assert(!sp_present(old(self)@[k][kidx]));
                        if lvk >= 1 {
                            assert(self@.contains_key(sp_entry_addr(self@[k][kidx])));
                            assert(!mid2@.contains_key(sp_entry_addr(self@[k][kidx])));
                            assert(!old(self)@.contains_key(sp_entry_addr(self@[k][kidx])));
                        }
                    }
                }
            }
            assert forall|k: u64| #[trigger] self@.contains_key(k) && !old(self)@.contains_key(
                k,
            ) implies self.levels().contains_key(k) && 0 <= self.levels()[k] <= 2
                && self@[k].len() == 512 && sp_table_change_ok(
                old(self)@,
                self@,
                self.levels()[k],
                Seq::new(512, |s2: int| 0u64),
                self@[k],
                a,
                entry@,
            ) by {
                if k == f@ {
                    assert(sp_table_change_ok(mid2@, self@, level as int - 1, mid2@[f@], self@[f@], a, entry@));
                } else if mid2@.contains_key(k) {
                    assert(false);
                } else {
                    assert(sp_table_change_ok(
                        mid2@,
                        self@,
                        self.levels()[k],
                        Seq::new(512, |s2: int| 0u64),
                        self@[k],
                        a,
                        entry@,
                    ));
                }
            }
            // every changed or fresh table below sits on the mapped path,
            // and within the old store only this table's slot changed
            assert(sp_path_at(old(self)@, taddr, level as int, a, level as int) == Some(taddr));
            assert forall|c: u64| #[trigger]
                old(self)@.contains_key(c) && self@[c] != old(self)@[c] implies Some(c)
                == sp_path_at(old(self)@, taddr, level as int, a, old(self).levels()[c]) by {
                if c != taddr {
                    assert(mid2@.contains_key(c));
                    assert(mid2@[c] == old(self)@[c]);
                    assert(self@[c] != mid2@[c]);
                    let lvc = mid2.levels()[c];
                    assert(Some(c) == sp_path_at(mid2@, f@, level as int - 1, a, lvc));
                    assert(c != f@);
                    lemma_zero_entry();
                    if level == 1 {
                        assert(sp_path_at(mid2@, f@, 0, a, 0) == Some(f@));
                        if lvc != 0 {
                            assert(sp_path_at(mid2@, f@, 0, a, lvc) is None);
                        }
                        assert(false);
                    } else {
                        assert(sp_path_at(mid2@, f@, 1, a, 1) == Some(f@));
                        assert(mid2@[f@][sp_table_index(a, 1) as int] == 0);
                        assert(sp_path_at(mid2@, f@, 1, a, 0) is None);
                        if lvc != 0 && lvc != 1 {
                            assert(sp_path_at(mid2@, f@, 1, a, lvc) is None);
                        }
                        assert(false);
                    }
                } else {
                    assert(old(self).levels()[taddr] == level as int);
                }
            }
            // a conflict cannot appear below a chain of fresh zero tables
            assert(r != Err::<(), PageMapError>(PageMapError::PageAlreadyMapped));
            assert(sp_table_change_ok(mid2@, self@, level as int, mid2@[taddr], self@[taddr], a, entry@));
            assert(mid2@[taddr][idx] == pe@);
            assert(self@[taddr][idx] == pe@);
            assert(self@.contains_key(f@));
            if r is Ok {
                assert(sp_leaf_of(self@, self@[taddr], level as int, a) == sp_leaf_of(
                    self@,
                    self@[f@],
                    level as int - 1,
                    a,
                ));
                assert forall|a2: u64| sp_align_down(a2) == sp_align_down(a) implies sp_translate(
                    self@,
                    self@[taddr],
                    level as int,
                    a2,
                ) == sp_leaf_val(entry@, a2) by {
                    lemma_same_page_same_index(a, a2, level);
                    assert(sp_translate(self@, self@[taddr], level as int, a2) == sp_translate(
                        self@,
                        self@[f@],
                        level as int - 1,
                        a2,
                    ));
                }
            }
            if r == Err::<(), PageMapError>(PageMapError::FrameAllocation) {
                assert forall|a2: u64| sp_align_down(a2) == sp_align_down(a) implies sp_translate(
                    self@,
                    self@[taddr],
                    level as int,
                    a2,
                ) is None by {
                    lemma_same_page_same_index(a, a2, level);
                    assert(sp_translate(self@, self@[f@], level as int - 1, a2) is None);
                    assert(sp_translate(self@, self@[taddr], level as int, a2) == sp_translate(
                        self@,
                        self@[f@],
                        level as int - 1,
                        a2,
                    ));
                }
            }
        }
        r
    }
}

impl PageTable {
    /// Translates a virtual address through the hierarchy rooted at this
    /// table, reading intermediate tables from the store. Returns the
    /// physical address the hardware would reach, or `None` where the walk
    /// meets a non-present entry. Stopping at a huge entry keeps the low
    /// 21 or 30 bits of the address as the residual offset.
    pub fn translate_addr(&self, mem: &PhysMem, addr: VirtAddr) -> (r: Option<PhysAddr>)
        requires
            mem.inv(),
            mem.root_ok(self@),
        ensures
            sp_addr_of(r) == sp_translate(mem@, self@, 3, addr@),
    {
        proof {
            use_type_invariant(self);
            broadcast use lemma_table_index_bound;

        }
        let a = addr.as_u64();
        let index = PageTableIndex::new_truncate((a >> 39) as u16);
        proof {
            lemma_index_truncate(a, 39);
            assert((12 + 9 * 3u64) as u64 == 39u64);
            assert(index@ == sp_table_index(a, 3));
        }
        let e = self.entry_at(index);
        let b = e.bits();
        let ghost eg = self@[sp_table_index(a, 3) as int];
        proof {
            assert(b == eg);
            lemma_entry_bits(b);
            assert(sp_entry_ok(mem@, mem.levels(), eg, 3));
        }
        if b & FLAG_PRESENT == 0 {
            return None;
        }
        let child = b & ENTRY_ADDR_MASK;
        proof {
            assert(child == sp_entry_addr(eg));
        }
        match mem.find_table(child) {
            Some(ci) => {
                let r = mem.translate_in(ci, 2, a);
                match r {
                    Some(p) => Some(PhysAddr::new(p)),
                    None => None,
                }
            },
            None => {
                proof {
                    assert(false);
                }
                None
            },
        }
    }

    /// Installs `entry` for `page` in the hierarchy rooted at this table,
    /// allocating fresh intermediate tables where the path toward the leaf
    /// slot is missing. Fails with `PageAlreadyMapped` where the leaf slot
    /// or a huge entry on the way is already present — in that case
    /// nothing changes — and with `FrameAllocation` where the allocator
    /// runs dry. On success, every address of the page translates through
    /// the new entry. Flushing the TLB for the affected address stays the
    /// caller's business.
    pub fn map_page<A: FrameAllocator>(
        &mut self,
        mem: &mut PhysMem,
        page: Page,
        entry: PageTableEntry,
        allocator: &mut A,
    ) -> (r: Result<(), PageMapError>)
        requires
            old(mem).hierarchy_ok(old(self)@),
            sp_present(entry@) ==> !sp_huge(entry@),
            old(allocator).wf(),
            forall|t: int|
                0 <= t < old(allocator).frames().len() ==> !old(mem)@.contains_key(
                    #[trigger] old(allocator).frames()[t],
                ),
        ensures
            final(mem).hierarchy_ok(final(self)@),
            final(allocator).wf(),
            r == sp_map_result(
                old(mem)@,
                old(self)@,
                3,
                page@,
                old(allocator).frames().len() as int,
            ),
            final(allocator).frames().len() >= old(allocator).frames().len() - 3,
            forall|t: int|
                0 <= t < final(allocator).frames().len() ==> !final(mem)@.contains_key(
                    #[trigger] final(allocator).frames()[t],
                ),
            forall|k: u64| old(mem)@.contains_key(k) ==> final(mem)@.contains_key(k),
            r == Err::<(), PageMapError>(PageMapError::PageAlreadyMapped) ==> final(self)@
                == old(self)@ && final(mem)@ == old(mem)@
                && final(mem).levels() == old(mem).levels()
                && final(allocator).frames() == old(allocator).frames(),
            r is Ok ==> forall|a2: u64| #![auto]
                sp_align_down(a2) == page@ ==> sp_translate(final(mem)@, final(self)@, 3, a2)
                    == sp_leaf_val(entry@, a2),
            r is Ok ==> sp_leaf_of(final(mem)@, final(self)@, 3, page@) == Some(entry@),
            r == Err::<(), PageMapError>(PageMapError::FrameAllocation) ==> forall|a2: u64| #![auto]
                sp_align_down(a2) == page@ ==> sp_translate(
                    final(mem)@,
                    final(self)@,
                    3,
                    a2,
                ) is None,
            final(allocator).frames() == old(allocator).frames().skip(
                sp_frames_taken(
                    old(mem)@,
                    old(self)@,
                    3,
                    page@,
                    old(allocator).frames().len() as int,
                ),
            ),
            sp_map_changes(
                old(mem)@,
                old(mem).levels(),
                final(mem)@,
                final(mem).levels(),
                page@,
                entry@,
            ),
            forall|k: u64, s: int|
                old(mem)@.contains_key(k) && 0 <= s < 512 && sp_present(
                    #[trigger] old(mem)@[k][s],
                ) ==> final(mem)@[k][s] == old(mem)@[k][s],
            forall|s: int|
                0 <= s < 512 && sp_present(#[trigger] old(self)@[s]) ==> final(self)@[s]
                    == old(self)@[s],
            forall|a2: u64| #![auto]
                sp_page_bits(a2) != sp_page_bits(page@) ==> sp_translate(
                    final(mem)@,
                    final(self)@,
                    3,
                    a2,
                ) == sp_translate(old(mem)@, old(self)@, 3, a2),
            forall|a2: u64| #![auto]
                sp_page_bits(a2) != sp_page_bits(page@) && sp_can_map(old(mem)@, old(self)@, 3, a2)
                    ==> sp_can_map(final(mem)@, final(self)@, 3, a2),
    {
        proof {
            use_type_invariant(&*self);
            use_type_invariant(page);
            broadcast use lemma_table_index_bound;

            let p = page@;
            assert(p & 0xfff == 0 ==> p & 0xffff_ffff_ffff_f000 == p) by (bit_vector);
        }
        let a = page.as_u64();
        let index = PageTableIndex::new_truncate((a >> 39) as u16);
        proof {
            lemma_index_truncate(a, 39);
            assert((12 + 9 * 3u64) as u64 == 39u64);
            assert(index@ == sp_table_index(a, 3));
        }
        let ghost idx = sp_table_index(a, 3) as int;
        let e = self.entry_at(index);
        let b = e.bits();
        proof {
            assert(b == old(self)@[idx]);
            lemma_entry_bits(b);
            assert(sp_entry_ok(mem@, mem.levels(), b, 3));
        }
        if b & FLAG_PRESENT != 0 {
            // a present root entry is never huge, so descend
            let child = b & ENTRY_ADDR_MASK;
            proof {
                assert(child == sp_entry_addr(b));
            }
            let ci = match mem.find_table(child) {
                Some(ci) => ci,
                None => {
                    proof {
                        assert(false);
                    }
                    0
                },
            };
            let r = mem.map_in(ci, 2, a, entry, allocator);
            proof {
                assert(sp_missing_levels(old(mem)@, old(self)@, 3, a) == sp_missing_levels(
                    old(mem)@,
                    old(mem)@[child],
                    2,
                    a,
                ));
                assert(mem@.contains_key(child));
                // present slots in the store only ever stay as they are
                assert forall|k: u64, s: int|
                    old(mem)@.contains_key(k) && 0 <= s < 512 && sp_present(
                        #[trigger] old(mem)@[k][s],
                    ) implies mem@[k][s] == old(mem)@[k][s] by {
                    assert(sp_table_change_ok(
                        old(mem)@,
                        mem@,
                        old(mem).levels()[k],
                        old(mem)@[k],
                        mem@[k],
                        a,
                        entry@,
                    ));
                }
                if r is Ok {
                    assert(sp_leaf_of(mem@, self@, 3, a) == sp_leaf_of(mem@, mem@[child], 2, a));
                    assert forall|a2: u64| sp_align_down(a2) == page@ implies sp_translate(
                        mem@,
                        self@,
                        3,
                        a2,
                    ) == sp_leaf_val(entry@, a2) by {
                        lemma_same_page_same_index(a, a2, 3);
                        assert(self@[sp_table_index(a2, 3) as int] == b);
                        assert(sp_translate(mem@, self@, 3, a2) == sp_translate(
                            mem@,
                            mem@[child],
                            2,
                            a2,
                        ));
                    }
                }
                if r == Err::<(), PageMapError>(PageMapError::FrameAllocation) {
                    assert forall|a2: u64| sp_align_down(a2) == page@ implies sp_translate(
                        mem@,
                        self@,
                        3,
                        a2,
                    ) is None by {
                        lemma_same_page_same_index(a, a2, 3);
                        assert(self@[sp_table_index(a2, 3) as int] == b);
                        assert(sp_translate(mem@, mem@[child], 2, a2) is None);
                        assert(sp_translate(mem@, self@, 3, a2) == sp_translate(
                            mem@,
                            mem@[child],
                            2,
                            a2,
                        ));
                    }
                }
                assert forall|s2: int| 0 <= s2 < 512 implies sp_entry_ok(
                    mem@,
                    mem.levels(),
                    #[trigger] self@[s2],
                    3,
                ) by {
                    assert(sp_entry_ok(old(mem)@, old(mem).levels(), self@[s2], 3));
                    if sp_present(self@[s2]) && !sp_huge(self@[s2]) {
                        assert(old(mem)@.contains_key(sp_entry_addr(self@[s2])));
                    }
                }
                // addresses off this page keep their translation: their
                // walk parts ways with the mapped one at some level
                assert forall|a2: u64| sp_page_bits(a2) != sp_page_bits(a) implies sp_translate(
                    mem@,
                    self@,
                    3,
                    a2,
                ) == sp_translate(old(mem)@, old(self)@, 3, a2) && (sp_can_map(
                    old(mem)@,
                    old(self)@,
                    3,
                    a2,
                ) ==> sp_can_map(mem@, self@, 3, a2)) by {
                    lemma_page_bits_divergence(a, a2);
                    let i2 = sp_table_index(a2, 3) as int;
                    let b2 = old(self)@[i2];
                    assert(sp_entry_ok(old(mem)@, old(mem).levels(), b2, 3));
                    if sp_present(b2) {
                        let c2 = sp_entry_addr(b2);
                        assert(old(mem)@.contains_key(c2) && old(mem).levels()[c2] == 2);
                        assert(mem@.contains_key(c2));
                        assert(sp_path_at(old(mem)@, child, 2, a, 2) == Some(child));
                        if i2 != idx {
                            assert(c2 != child);
                            lemma_walk_preserved(
                                old(mem)@,
                                old(mem).levels(),
                                mem@,
                                mem.levels(),
                                child,
                                2,
                                a,
                                entry@,
                                a2,
                                c2,
                                2,
                                false,
                            );
                        } else {
                            assert(c2 == child);
                            let l2 = choose|l2: int|
                                0 <= l2 <= 3 && sp_table_index(a, l2 as u64)
                                    != #[trigger] sp_table_index(a2, l2 as u64);
                            assert(l2 != 3);
                            assert(0 <= l2 <= 2 && sp_table_index(a, l2 as u64) != sp_table_index(
                                a2,
                                l2 as u64,
                            ));
                            lemma_walk_preserved(
                                old(mem)@,
                                old(mem).levels(),
                                mem@,
                                mem.levels(),
                                child,
                                2,
                                a,
                                entry@,
                                a2,
                                c2,
                                2,
                                true,
                            );
                        }
                        assert(sp_translate(mem@, self@, 3, a2) == sp_translate(
                            mem@,
                            mem@[c2],
                            2,
                            a2,
                        ));
                        assert(sp_translate(old(mem)@, old(self)@, 3, a2) == sp_translate(
                            old(mem)@,
                            old(mem)@[c2],
                            2,
                            a2,
                        ));
                    }
                }
            }
            r
        } else {
            // the root slot is empty: the whole path below it is missing
            proof {
                allocator.frames_are_sound();
            }
            let ghost frames0 = allocator.frames();
            let f = match allocator.allocate() {
                None => {
                    proof {
                        assert(frames0.skip(0) =~= frames0);
                        assert(sp_missing_levels(old(mem)@, old(self)@, 3, a) == 3);
                        lemma_map_changes_refl(mem@, mem.levels(), a, entry@);
                        assert forall|a2: u64| #![auto]
                            sp_align_down(a2) == page@ implies sp_translate(
                            mem@,
                            self@,
                            3,
                            a2,
                        ) is None by {
                            lemma_same_page_same_index(a, a2, 3);
                        }
                    }
                    return Err(PageMapError::FrameAllocation);
                },
                Some(f) => f,
            };
            let table = PageTable::new();
            proof {
                lemma_zero_entry();
                assert(!old(mem)@.contains_key(f@));
            }
            mem.push_table(f, table, Ghost(2));
            let ghost mid1 = *mem;
            let pe = PageTableEntry::new(
                f,
                crate::paging::PageTableEntryFlags::from_bits_truncate(
                    FLAG_PRESENT | FLAG_WRITABLE,
                ),
            );
            proof {
                lemma_rw_entry_flags();
                assert(sp_present(pe@) && !sp_huge(pe@) && sp_entry_addr(pe@) == f@);
            }
            self.set_entry(index, pe);
            let ci = mem.tables.len() - 1;
            let ghost frames1 = allocator.frames();
            proof {
                assert(frames1 == frames0.skip(1));
                assert(mem.addrs@[ci as int] == f@);
                assert(mem.levels()[f@] == 2);
                assert forall|t: int| 0 <= t < allocator.frames().len() implies !mem@.contains_key(
                    #[trigger] allocator.frames()[t],
                ) by {
                    assert(allocator.frames()[t] == frames0[t + 1]);
                    assert(!old(mem)@.contains_key(frames0[t + 1]));
                    assert(frames0[t + 1] != frames0[0]);
                }
                // the store gained no pointer slot, so it stays a forest
                assert forall|k1: u64, s1: int, k2: u64, s2: int|
                    #![trigger mem@[k1][s1], mem@[k2][s2]]
                    mem@.contains_key(k1) && mem@.contains_key(k2) && 0 <= s1 < 512 && 0 <= s2
                        < 512 && mem.levels()[k1] >= 1 && mem.levels()[k2] >= 1 && sp_present(
                        mem@[k1][s1],
                    ) && !sp_huge(mem@[k1][s1]) && sp_present(mem@[k2][s2]) && !sp_huge(
                        mem@[k2][s2],
                    ) && (k1 != k2 || s1 != s2) implies sp_entry_addr(mem@[k1][s1])
                    != sp_entry_addr(mem@[k2][s2]) by {
                    lemma_zero_entry();
                    assert(k1 != f@ && k2 != f@);
                    assert(mem@[k1][s1] == old(mem)@[k1][s1]);
                    assert(mem@[k2][s2] == old(mem)@[k2][s2]);
                }
            }
            let r = mem.map_in(ci, 2, a, entry, allocator);
            proof {
                // the owed outcome: a zero subtree, so only the frame count
                // decides, and one frame already went to the root child
                assert(mid1@[f@] =~= Seq::new(512, |s2: int| 0u64));
                assert(!sp_present(mid1@[f@][sp_table_index(a, 2) as int]));
                assert(r == sp_map_result(mid1@, mid1@[f@], 2, a, frames1.len() as int));
                assert(frames1.len() == frames0.len() - 1);
                assert(r == sp_map_result(old(mem)@, old(self)@, 3, a, frames0.len() as int));
                assert(mid1@.contains_key(f@));
                assert forall|k: u64| old(mem)@.contains_key(k) implies mem@.contains_key(k) by {
                    assert(mid1@.contains_key(k));
                }
                assert(r != Err::<(), PageMapError>(PageMapError::PageAlreadyMapped));
                // one frame for the root child, then one per level the
                // recursion found missing below it
                let taken1 = sp_frames_taken(mid1@, mid1@[f@], 2, a, frames1.len() as int);
                assert(allocator.frames() == frames1.skip(taken1));
                assert(sp_missing_levels(mid1@, mid1@[f@], 2, a) == 2);
                assert(sp_missing_levels(old(mem)@, old(self)@, 3, a) == 3);
                assert(frames1.skip(taken1) =~= frames0.skip(1 + taken1));
                assert(allocator.frames() == frames0.skip(
                    sp_frames_taken(old(mem)@, old(self)@, 3, a, frames0.len() as int),
                ));
                // the new root slot still leads to the fresh child, which
                // the recursive step only filled further
                assert(sp_table_change_ok(mid1@, mem@, 2, mid1@[f@], mem@[f@], a, entry@));
                assert(mem@.contains_key(f@));
                if r == Err::<(), PageMapError>(PageMapError::FrameAllocation) {
                    assert forall|a2: u64| sp_align_down(a2) == page@ implies sp_translate(
                        mem@,
                        self@,
                        3,
                        a2,
                    ) is None by {
                        lemma_same_page_same_index(a, a2, 3);
                        assert(self@[sp_table_index(a2, 3) as int] == pe@);
                        assert(sp_translate(mem@, mem@[f@], 2, a2) is None);
                        assert(sp_translate(mem@, self@, 3, a2) == sp_translate(
                            mem@,
                            mem@[f@],
                            2,
                            a2,
                        ));
                    }
                }
                if r is Ok {
                    assert(sp_leaf_of(mem@, self@, 3, a) == sp_leaf_of(mem@, mem@[f@], 2, a));
                    assert forall|a2: u64| sp_align_down(a2) == page@ implies sp_translate(
                        mem@,
                        self@,
                        3,
                        a2,
                    ) == sp_leaf_val(entry@, a2) by {
                        lemma_same_page_same_index(a, a2, 3);
                        assert(self@[sp_table_index(a2, 3) as int] == pe@);
                        assert(mem@.contains_key(f@));
                        assert(sp_translate(mem@, self@, 3, a2) == sp_translate(
                            mem@,
                            mem@[f@],
                            2,
                            a2,
                        ));
                    }
                }
                // the root is still well-linked and still a tree
                assert forall|s2: int| 0 <= s2 < 512 implies sp_entry_ok(
                    mem@,
                    mem.levels(),
                    #[trigger] self@[s2],
                    3,
                ) by {
                    if s2 == idx {
                        assert(self@[s2] == pe@);
                        assert(mem@.contains_key(f@) && mem.levels()[f@] == 2);
                    } else {
                        assert(self@[s2] == old(self)@[s2]);
                        assert(sp_entry_ok(old(mem)@, old(mem).levels(), self@[s2], 3));
                        if sp_present(self@[s2]) && !sp_huge(self@[s2]) {
                            assert(old(mem)@.contains_key(sp_entry_addr(self@[s2])));
                        }
                    }
                }
                assert forall|s1: int, s2: int|
                    0 <= s1 < 512 && 0 <= s2 < 512 && s1 != s2 && sp_present(#[trigger] self@[s1])
                        && sp_present(#[trigger] self@[s2]) implies sp_entry_addr(self@[s1])
                    != sp_entry_addr(self@[s2]) by {
                    if s1 != idx && s2 != idx {
                        assert(self@[s1] == old(self)@[s1]);
                        assert(self@[s2] == old(self)@[s2]);
                    } else if s1 == idx {
                        assert(self@[s2] == old(self)@[s2]);
                        assert(sp_entry_ok(old(mem)@, old(mem).levels(), old(self)@[s2], 3));
                        assert(old(mem)@.contains_key(sp_entry_addr(self@[s2])));
                        assert(sp_entry_addr(self@[s1]) == f@);
                    } else {
                        assert(self@[s1] == old(self)@[s1]);
                        assert(sp_entry_ok(old(mem)@, old(mem).levels(), old(self)@[s1], 3));
                        assert(old(mem)@.contains_key(sp_entry_addr(self@[s1])));
                        assert(sp_entry_addr(self@[s2]) == f@);
                    }
                }
                // the old store is untouched: everything the recursion
                // changed sits in the fresh subtree
                lemma_zero_entry();
                assert forall|k: u64| #[trigger] old(mem)@.contains_key(k) implies mem@[k] == old(
                    mem,
                )@[k] && mem@.contains_key(k) && mem.levels()[k] == old(mem).levels()[k] by {
                    assert(mid1@.contains_key(k));
                    assert(mid1@[k] == old(mem)@[k]);
                    assert(k != f@);
                    if mem@[k] != mid1@[k] {
                        let lvc = mid1.levels()[k];
                        assert(Some(k) == sp_path_at(mid1@, f@, 2, a, lvc));
                        assert(sp_path_at(mid1@, f@, 2, a, 2) == Some(f@));
                        assert(mid1@[f@][sp_table_index(a, 2) as int] == 0);
                        assert(sp_path_at(mid1@, f@, 2, a, 1) is None);
                        assert(sp_path_at(mid1@, f@, 2, a, 0) is None);
                        if lvc != 0 && lvc != 1 && lvc != 2 {
                            assert(sp_path_at(mid1@, f@, 2, a, lvc) is None);
                        }
                        assert(false);
                    }
                }
                assert(sp_map_changes(old(mem)@, old(mem).levels(), mem@, mem.levels(), a, entry@))
                    by {
                    assert forall|k: u64| #[trigger]
                        mem@.contains_key(k) && !old(mem)@.contains_key(k) implies
                        mem.levels().contains_key(k) && 0 <= mem.levels()[k] <= 2 && mem@[k].len()
                        == 512 && sp_table_change_ok(
                        old(mem)@,
                        mem@,
                        mem.levels()[k],
                        Seq::new(512, |s2: int| 0u64),
                        mem@[k],
                        a,
                        entry@,
                    ) by {
                        if k == f@ {
                            assert(mid1@[f@] == Seq::new(512, |s2: int| 0u64));
                            assert(sp_table_change_ok(
                                mid1@,
                                mem@,
                                2,
                                mid1@[f@],
                                mem@[f@],
                                a,
                                entry@,
                            ));
                        } else if mid1@.contains_key(k) {
                            assert(false);
                        } else {
                            assert(sp_table_change_ok(
                                mid1@,
                                mem@,
                                mem.levels()[k],
                                Seq::new(512, |s2: int| 0u64),
                                mem@[k],
                                a,
                                entry@,
                            ));
                        }
                    }
                }
                // addresses off this page translate as before: either they
                // leave through another root slot into untouched tables, or
                // they run into the fresh all-zero subtree
                assert forall|a2: u64| sp_page_bits(a2) != sp_page_bits(a) implies sp_translate(
                    mem@,
                    self@,
                    3,
                    a2,
                ) == sp_translate(old(mem)@, old(self)@, 3, a2) && (sp_can_map(
                    old(mem)@,
                    old(self)@,
                    3,
                    a2,
                ) ==> sp_can_map(mem@, self@, 3, a2)) by {
                    lemma_page_bits_divergence(a, a2);
                    let i2 = sp_table_index(a2, 3) as int;
                    if i2 != idx {
                        assert(self@[i2] == old(self)@[i2]);
                        let b2 = old(self)@[i2];
                        assert(sp_entry_ok(old(mem)@, old(mem).levels(), b2, 3));
                        if sp_present(b2) {
                            let c2 = sp_entry_addr(b2);
                            assert(old(mem)@.contains_key(c2) && old(mem).levels()[c2] == 2);
                            lemma_walk_unchanged(
                                old(mem)@,
                                old(mem).levels(),
                                mem@,
                                c2,
                                2,
                                a2,
                            );
                            assert(sp_translate(mem@, self@, 3, a2) == sp_translate(
                                mem@,
                                mem@[c2],
                                2,
                                a2,
                            ));
                            assert(sp_translate(old(mem)@, old(self)@, 3, a2) == sp_translate(
                                old(mem)@,
                                old(mem)@[c2],
                                2,
                                a2,
                            ));
                        }
                    } else {
                        assert(self@[i2] == pe@);
                        assert(!sp_present(old(self)@[i2]));
                        let l2 = choose|l2: int|
                            0 <= l2 <= 3 && sp_table_index(a, l2 as u64)
                                != #[trigger] sp_table_index(a2, l2 as u64);
                        assert(l2 != 3);
                        assert(0 <= l2 <= 2 && sp_table_index(a, l2 as u64) != sp_table_index(
                            a2,
                            l2 as u64,
                        ));
                        lemma_new_subtree_blank(
                            old(mem)@,
                            old(mem).levels(),
                            mem@,
                            mem.levels(),
                            f@,
                            2,
                            a,
                            entry@,
                            a2,
                        );
                        assert(sp_translate(mem@, self@, 3, a2) == sp_translate(
                            mem@,
                            mem@[f@],
                            2,
                            a2,
                        ));
                    }
                }
            }
            r
        }
    }
}

} // verus!
