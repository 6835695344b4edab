//! Address spaces: a page table and the areas of virtual memory mapped in it.

use vstd::prelude::*;
use crate::mm::address::{
    ceil, floor, lemma_same_table, page_offset, virt_addr, vpn_of, ENTRIES, PPN_LIMIT, VA_LIMIT,
    VPN_LIMIT,
};
use crate::config::PAGE_SIZE;
use crate::mm::frame_allocator::{frame_alloc, FramePool, StackFrameAllocator};
use crate::mm::memory::{zero_frame, PhysMemory};
use crate::mm::page_table::{has_flag, with_valid, PageTable, PageTableEntry};

verus! {

/// Virtual page number of the trampoline: the last page of the address space.
pub const TRAMPOLINE_VPN: u64 = 0x7ff_ffff;

/// Virtual page number of the trap context: the page below the trampoline.
pub const TRAP_CONTEXT_VPN: u64 = 0x7ff_fffe;

/// Permission bit of an area: its pages can be read.
pub const PERM_R: u8 = 2;

/// Permission bit of an area: its pages can be written.
pub const PERM_W: u8 = 4;

/// Permission bit of an area: instructions can be fetched from its pages.
pub const PERM_X: u8 = 8;

/// Permission bit of an area: its pages are accessible in user mode.
pub const PERM_U: u8 = 16;

/// Flags of the trampoline's entry: readable and executable, supervisor only.
pub const TRAMPOLINE_FLAGS: u8 = 10;

/// Whether `perm` holds permission bits only.
pub open spec fn spec_is_perm(perm: u8) -> bool {
    perm % 2 == 0 && perm < 32
}

/// Whether `perm` holds permission bits only.
#[verifier::when_used_as_spec(spec_is_perm)]
pub fn is_perm(perm: u8) -> (ok: bool)
    ensures
        ok == spec_is_perm(perm),
{
    perm % 2 == 0 && perm < 32
}

/// How the pages of an area get their frames.
#[derive(Clone, Copy, Debug, PartialEq, Eq, Structural)]
pub enum MapType {
    /// Each page is mapped to the frame with its own number.
    Identical,
    /// Each page is mapped to a frame of its own, allocated for it.
    Framed,
}

/// Why an operation on an address space failed.
#[derive(Clone, Copy, Debug, PartialEq, Eq, Structural)]
pub enum MemError {
    /// The start address is not a multiple of the page size.
    Misaligned,
    /// The range ends before it starts.
    InvalidRange,
    /// A page of the range is mapped already.
    Overlap,
    /// No recorded area has exactly the given range.
    NoSuchArea,
    /// The frame allocator holds too few frames.
    OutOfFrames,
}

/// A run of virtual pages `[start_vpn, end_vpn)` mapped with one permission
/// mask in one way.
pub struct MapArea {
    pub start_vpn: u64,
    pub end_vpn: u64,
    pub map_type: MapType,
    pub map_perm: u8,
    /// For a framed area, the frame of each page in order.
    pub data_frames: Vec<u64>,
}

impl MapArea {
    /// Whether the page `vpn` lies in the area.
    pub open spec fn contains_vpn(&self, vpn: u64) -> bool {
        self.start_vpn <= vpn < self.end_vpn
    }

    /// Number of pages of the area.
    pub open spec fn pages(&self) -> nat {
        (self.end_vpn - self.start_vpn) as nat
    }

    /// The range lies in the address space and leaves out the trampoline,
    /// the mask holds permission bits only, a framed area has one frame for
    /// each page, and an identical area is not accessible in user mode.
    pub open spec fn wf(&self) -> bool {
        &&& self.start_vpn <= self.end_vpn <= VPN_LIMIT
        &&& !self.contains_vpn(TRAMPOLINE_VPN)
        &&& is_perm(self.map_perm)
        &&& match self.map_type {
            MapType::Framed => self.data_frames@.len() == self.end_vpn - self.start_vpn,
            MapType::Identical => self.data_frames@.len() == 0 && !has_flag(self.map_perm, PERM_U),
        }
    }

    /// The frame that the page `vpn` of the area is mapped to.
    pub open spec fn target(&self, vpn: u64) -> u64 {
        match self.map_type {
            MapType::Framed => self.data_frames@[vpn - self.start_vpn],
            MapType::Identical => vpn,
        }
    }

    /// The leaf entry of the page `vpn` of the area.
    pub open spec fn entry(&self, vpn: u64) -> PageTableEntry {
        PageTableEntry::spec_new(self.target(vpn), with_valid(self.map_perm))
    }

    /// Whether the area is framed and holds the frame `ppn` for the page `vpn`.
    pub open spec fn holds(&self, vpn: u64, ppn: u64) -> bool {
        &&& self.map_type == MapType::Framed
        &&& self.contains_vpn(vpn)
        &&& self.data_frames@[vpn - self.start_vpn] == ppn
    }
}

/// Number of page-table nodes that mapping the page `v` creates in a table
/// in which, since the state `(pt, mem)`, the pages from `start` up to `v`
/// were mapped.
pub open spec fn fresh_tables(pt: &PageTable, mem: &PhysMemory, start: u64, v: u64) -> nat {
    let first1 = v == start || v / ENTRIES / ENTRIES != (v - 1) / (ENTRIES as int) / (ENTRIES as int);
    let first0 = v == start || v / ENTRIES != (v - 1) / (ENTRIES as int);
    let n1: nat = if pt.table1(mem, v) is None && first1 {
        1
    } else {
        0
    };
    let n0: nat = if pt.table0(mem, v) is None && first0 {
        1
    } else {
        0
    };
    n1 + n0
}

/// Number of frames that mapping the pages `[start, end)` takes in the state
/// `(pt, mem)`: `per_page` for each page, and one for each node to create.
pub open spec fn frames_needed(
    pt: &PageTable,
    mem: &PhysMemory,
    start: u64,
    end: u64,
    per_page: nat,
) -> nat
    decreases end - start,
{
    if end <= start {
        0
    } else {
        frames_needed(pt, mem, start, (end - 1) as u64, per_page) + per_page + fresh_tables(
            pt,
            mem,
            start,
            (end - 1) as u64,
        )
    }
}

/// Whether mapping the pages `[start, end)` creates, where it is missing,
/// the middle node on the way to `v`.
pub open spec fn touched1(start: u64, end: u64, v: u64) -> bool {
    start < end && start / ENTRIES / ENTRIES <= v / ENTRIES / ENTRIES <= (end - 1) / (ENTRIES as int)
        / (ENTRIES as int)
}

/// Whether mapping the pages `[start, end)` creates, where it is missing,
/// the node of leaf entries on the way to `v`.
pub open spec fn touched0(start: u64, end: u64, v: u64) -> bool {
    start < end && start / ENTRIES <= v / ENTRIES <= (end - 1) / (ENTRIES as int)
}

/// The frame that a page of an area is mapped to: its own number in an
/// identical area, the frame allocated for it in a framed one.
pub open spec fn page_target(map_type: MapType, frames: Seq<u64>, start: u64, v: u64) -> u64 {
    match map_type {
        MapType::Framed => frames[v - start],
        MapType::Identical => v,
    }
}

/// Frames that one page of an area takes, besides page-table nodes.
pub open spec fn frames_per_page(map_type: MapType) -> nat {
    match map_type {
        MapType::Framed => 1,
        MapType::Identical => 0,
    }
}

/// The shape of an area before it is mapped: its pages, its permission mask
/// and the way its pages get their frames.
#[derive(Clone, Copy, Debug, PartialEq, Eq, Structural)]
pub struct AreaLayout {
    pub start_vpn: u64,
    pub end_vpn: u64,
    pub map_type: MapType,
    pub map_perm: u8,
}

impl AreaLayout {
    /// Whether the page `vpn` lies in the area.
    pub open spec fn contains_vpn(&self, vpn: u64) -> bool {
        self.start_vpn <= vpn < self.end_vpn
    }

    /// The range lies in the address space, the mask holds permission bits
    /// only, and an identical area is not accessible in user mode.
    pub open spec fn wf(&self) -> bool {
        &&& self.start_vpn <= self.end_vpn <= VPN_LIMIT
        &&& is_perm(self.map_perm)
        &&& self.map_type == MapType::Identical ==> !has_flag(self.map_perm, PERM_U)
    }

    /// Whether a mapped area has this shape.
    pub open spec fn describes(&self, area: &MapArea) -> bool {
        &&& area.start_vpn == self.start_vpn
        &&& area.end_vpn == self.end_vpn
        &&& area.map_type == self.map_type
        &&& area.map_perm == self.map_perm
    }
}

/// Whether an area of the layout contains the trampoline's page or a page of
/// an area before it.
pub open spec fn layout_overlaps(layout: Seq<AreaLayout>) -> bool {
    exists|i: int, v: u64|
        0 <= i < layout.len() && #[trigger] layout[i].contains_vpn(v) && (v == TRAMPOLINE_VPN
            || layout_covers(layout, i, v))
}

/// Whether one of the first `n` areas of the layout contains the page `v`.
pub open spec fn layout_covers(layout: Seq<AreaLayout>, n: int, v: u64) -> bool {
    exists|j: int| 0 <= j < n && j < layout.len() && #[trigger] layout[j].contains_vpn(v)
}

/// The nodes of a page table, by the pages they serve: a middle node by the
/// page numbers divided by 512 twice, a node of leaf entries by the page
/// numbers divided by 512.
pub struct Cover {
    pub middle: Set<int>,
    pub leaf: Set<int>,
}

impl Cover {
    /// The nodes that exist in a page table.
    pub open spec fn of(pt: &PageTable, mem: &PhysMemory) -> Cover {
        Cover {
            middle: Set::new(
                |j: int| 0 <= j < ENTRIES && pt.table1(mem, (j * ENTRIES * ENTRIES) as u64) is Some,
            ),
            leaf: Set::new(
                |k: int|
                    0 <= k < ENTRIES * ENTRIES && pt.table0(mem, (k * ENTRIES) as u64) is Some,
            ),
        }
    }

    /// The nodes of a page table that maps the trampoline alone.
    pub open spec fn bare() -> Cover {
        Cover {
            middle: set![TRAMPOLINE_VPN as int / 512 / 512],
            leaf: set![TRAMPOLINE_VPN as int / 512],
        }
    }

    /// The nodes once the pages `[start, end)` were mapped.
    pub open spec fn with_range(self, start: u64, end: u64) -> Cover {
        Cover {
            middle: Set::new(
                |j: int|
                    self.middle.contains(j) || (start < end && start as int / 512 / 512 <= j <= (end
                        - 1) / 512 / 512),
            ),
            leaf: Set::new(
                |k: int|
                    self.leaf.contains(k) || (start < end && start as int / 512 <= k <= (end - 1)
                        / 512),
            ),
        }
    }

    /// Number of nodes that mapping the page `v` creates, when the pages
    /// from `start` up to `v` were mapped since these nodes were counted.
    pub open spec fn fresh(self, start: u64, v: u64) -> nat {
        let first1 = v == start || v as int / 512 / 512 != (v - 1) / 512 / 512;
        let first0 = v == start || v as int / 512 != (v - 1) / 512;
        let n1: nat = if !self.middle.contains(v as int / 512 / 512) && first1 {
            1
        } else {
            0
        };
        let n0: nat = if !self.leaf.contains(v as int / 512) && first0 {
            1
        } else {
            0
        };
        n1 + n0
    }

    /// Number of frames that mapping the pages `[start, end)` takes:
    /// `per_page` for each page, and one for each node to create.
    pub open spec fn needed(self, start: u64, end: u64, per_page: nat) -> nat
        decreases end - start,
    {
        if end <= start {
            0
        } else {
            self.needed(start, (end - 1) as u64, per_page) + per_page + self.fresh(
                start,
                (end - 1) as u64,
            )
        }
    }

    /// The nodes of an address space made of the trampoline and the areas
    /// of a layout.
    pub open spec fn after(layout: Seq<AreaLayout>) -> Cover
        decreases layout.len(),
    {
        if layout.len() == 0 {
            Self::bare()
        } else {
            Self::after(layout.drop_last()).with_range(
                layout.last().start_vpn,
                layout.last().end_vpn,
            )
        }
    }

    /// Number of frames that an address space made of the trampoline and
    /// the areas of a layout takes: three for the trampoline, those of the
    /// pages of framed areas, and those of the nodes on the way.
    pub open spec fn total(layout: Seq<AreaLayout>) -> nat
        decreases layout.len(),
    {
        if layout.len() == 0 {
            3
        } else {
            Self::total(layout.drop_last()) + Self::after(layout.drop_last()).needed(
                layout.last().start_vpn,
                layout.last().end_vpn,
                frames_per_page(layout.last().map_type),
            )
        }
    }

    /// A longer layout takes no fewer frames.
    pub proof fn lemma_total_monotone(layout: Seq<AreaLayout>, n: int)
        requires
            0 <= n <= layout.len(),
        ensures
            Self::total(layout.take(n)) <= Self::total(layout),
        decreases layout.len() - n,
    {
        if n < layout.len() {
            Self::lemma_total_monotone(layout, n + 1);
            assert(layout.take(n + 1).drop_last() =~= layout.take(n));
        } else {
            assert(layout.take(n) =~= layout);
        }
    }

    /// Whether the page table has the node that the cover names for a page.
    pub proof fn lemma_of(pt: &PageTable, mem: &PhysMemory, v: u64)
        requires
            v < VPN_LIMIT,
        ensures
            pt.table1(mem, v) is Some <==> Self::of(pt, mem).middle.contains(v as int / 512 / 512),
            pt.table0(mem, v) is Some <==> Self::of(pt, mem).leaf.contains(v as int / 512),
    {
        let j = v as int / 512 / 512;
        let k = v as int / 512;
        let vj = (j * ENTRIES * ENTRIES) as u64;
        let vk = (k * ENTRIES) as u64;
        assert(crate::mm::address::spec_index2(vj) == crate::mm::address::spec_index2(v));
        assert(crate::mm::address::spec_index2(vk) == crate::mm::address::spec_index2(v));
        assert(crate::mm::address::spec_index1(vk) == crate::mm::address::spec_index1(v));
    }

    /// The frames that mapping a range takes are those that the cover of
    /// the page table says.
    pub proof fn lemma_needed(pt: &PageTable, mem: &PhysMemory, start: u64, end: u64, per_page: nat)
        requires
            end <= VPN_LIMIT,
        ensures
            frames_needed(pt, mem, start, end, per_page) == Self::of(pt, mem).needed(
                start,
                end,
                per_page,
            ),
        decreases end - start,
    {
        if start < end {
            Self::lemma_needed(pt, mem, start, (end - 1) as u64, per_page);
            Self::lemma_of(pt, mem, (end - 1) as u64);
        }
    }
}

/// An address space: a page table, the areas mapped in it, and the
/// trampoline, which every address space maps at its last page.
pub struct MemorySet {
    page_table: PageTable,
    areas: Vec<MapArea>,
    trampoline_ppn: u64,
    backing: Ghost<Map<u64, u64>>,
}

impl MemorySet {
    /// The page table.
    pub closed spec fn table(&self) -> PageTable {
        self.page_table
    }

    /// The recorded areas, in the order in which they were inserted.
    pub closed spec fn areas(&self) -> Seq<MapArea> {
        self.areas@
    }

    /// The frame of the trampoline.
    pub closed spec fn trampoline(&self) -> u64 {
        self.trampoline_ppn
    }

    /// The frames that hold the pages of the framed areas.
    pub closed spec fn data_frames(&self) -> Set<u64> {
        self.backing@.dom()
    }

    /// The page that the frame `ppn` of a framed area holds.
    pub closed spec fn page_of(&self, ppn: u64) -> u64 {
        self.backing@[ppn]
    }

    /// Whether the address space owns the frame `ppn`, as a node of its page
    /// table or as the frame of a page.
    pub open spec fn owns(&self, ppn: u64) -> bool {
        self.table().nodes().contains(ppn) || self.data_frames().contains(ppn)
    }

    /// Whether every frame that the address space owns is handed out by `pool`.
    pub open spec fn owned_in(&self, pool: FramePool) -> bool {
        forall|p: u64| #[trigger] self.owns(p) ==> pool.is_allocated(p)
    }

    /// Whether some recorded area contains the page `vpn`.
    pub open spec fn covered(&self, vpn: u64) -> bool {
        exists|i: int| 0 <= i < self.areas().len() && #[trigger] self.areas()[i].contains_vpn(vpn)
    }

    /// The valid leaf entry of the page `vpn`, if it is mapped.
    pub open spec fn mapping(&self, mem: &PhysMemory, vpn: u64) -> Option<PageTableEntry> {
        self.table().mapping(mem, vpn)
    }

    /// The leaf entry of the trampoline.
    pub open spec fn trampoline_entry(&self) -> PageTableEntry {
        PageTableEntry::spec_new(self.trampoline(), with_valid(TRAMPOLINE_FLAGS))
    }

    /// The value of `satp` that selects this address space.
    pub open spec fn spec_token(&self) -> u64 {
        self.table().spec_token()
    }

    /// The page table is well formed and maps the trampoline and the pages of
    /// the recorded areas, each as its area says, and nothing else; no two
    /// areas share a page; and the frames of the framed areas are distinct
    /// frames of the memory, none of them a node of the page table.
    pub closed spec fn wf(&self, mem: &PhysMemory) -> bool {
        &&& self.page_table.wf(mem)
        &&& self.trampoline_ppn < PPN_LIMIT
        &&& forall|i: int| 0 <= i < self.areas@.len() ==> (#[trigger] self.areas@[i]).wf()
        &&& forall|i: int, j: int, v: u64|
            0 <= i < self.areas@.len() && 0 <= j < self.areas@.len() && i != j
                && #[trigger] self.areas@[i].contains_vpn(v) ==> !#[trigger] self.areas@[j].contains_vpn(
                v,
            )
        &&& forall|i: int, v: u64|
            0 <= i < self.areas@.len() && #[trigger] self.areas@[i].contains_vpn(v)
                ==> self.page_table.mapping(mem, v) == Some(self.areas@[i].entry(v))
        &&& self.page_table.mapping(mem, TRAMPOLINE_VPN) == Some(self.trampoline_entry())
        &&& forall|v: u64|
            v < VPN_LIMIT && (#[trigger] self.page_table.mapping(mem, v)) is Some ==> v
                == TRAMPOLINE_VPN || self.covered(v)
        &&& forall|i: int, k: int|
            0 <= i < self.areas@.len() && self.areas@[i].map_type == MapType::Framed && 0 <= k
                < self.areas@[i].data_frames@.len() ==> {
                let p = #[trigger] self.areas@[i].data_frames@[k];
                self.backing@.dom().contains(p) && self.backing@[p] == self.areas@[i].start_vpn + k
            }
        &&& forall|p: u64| #[trigger]
            self.backing@.dom().contains(p) ==> {
                &&& mem.contains(p)
                &&& !self.page_table.nodes().contains(p)
                &&& exists|i: int|
                    0 <= i < self.areas@.len() && #[trigger] self.areas@[i].holds(self.backing@[p], p)
            }
    }

    /// What well-formedness says of the page table and the areas.
    pub proof fn lemma_wf(&self, mem: &PhysMemory)
        requires
            self.wf(mem),
        ensures
            mem.wf(),
            self.table().wf(mem),
            self.trampoline() < PPN_LIMIT,
            self.mapping(mem, TRAMPOLINE_VPN) == Some(self.trampoline_entry()),
            forall|i: int| 0 <= i < self.areas().len() ==> (#[trigger] self.areas()[i]).wf(),
            forall|i: int, v: u64|
                0 <= i < self.areas().len() && #[trigger] self.areas()[i].contains_vpn(v)
                    ==> self.mapping(mem, v) == Some(self.areas()[i].entry(v)),
            forall|v: u64|
                v < VPN_LIMIT && (#[trigger] self.mapping(mem, v)) is Some ==> v == TRAMPOLINE_VPN
                    || self.covered(v),
            forall|i: int, k: int|
                0 <= i < self.areas().len() && self.areas()[i].map_type == MapType::Framed && 0 <= k
                    < self.areas()[i].data_frames@.len() ==> self.data_frames().contains(
                    #[trigger] self.areas()[i].data_frames@[k],
                ),
            forall|p: u64| #[trigger]
                self.owns(p) ==> mem.contains(p),
            forall|p: u64| #[trigger]
                self.data_frames().contains(p) ==> !self.table().nodes().contains(p),
    {
        self.page_table.lemma_nodes(mem);
    }

    /// No two recorded areas of a well-formed address space share a page.
    pub proof fn lemma_areas_disjoint(&self, mem: &PhysMemory, i: int, j: int, vpn: u64)
        requires
            self.wf(mem),
            0 <= i < self.areas().len(),
            0 <= j < self.areas().len(),
            i != j,
        ensures
            !(self.areas()[i].contains_vpn(vpn) && self.areas()[j].contains_vpn(vpn)),
    {
    }

    /// An address space reads the memory only in the nodes of its page table:
    /// it is well formed, and maps alike, in any memory that agrees on them.
    pub proof fn lemma_frame_invariance(&self, mem: &PhysMemory, other: &PhysMemory)
        requires
            self.wf(mem),
            other.wf(),
            mem.same_extent(other),
            forall|t: u64| #[trigger]
                self.table().nodes().contains(t) ==> other.frame(t) == mem.frame(t),
        ensures
            self.wf(other),
            forall|v: u64| #[trigger] self.table().walk(other, v) == self.table().walk(mem, v),
            forall|v: u64| #[trigger] self.mapping(other, v) == self.mapping(mem, v),
    {
        self.page_table.lemma_frame_invariance(mem, other);
        assert forall|v: u64| #[trigger] self.mapping(other, v) == self.mapping(mem, v) by {
            assert(self.page_table.walk(other, v) == self.page_table.walk(mem, v));
        }
        assert forall|v: u64|
            v < VPN_LIMIT && (#[trigger] self.page_table.mapping(other, v)) is Some implies v
            == TRAMPOLINE_VPN || self.covered(v) by {
            assert(self.mapping(other, v) == self.mapping(mem, v));
        }
        assert forall|i: int, v: u64|
            0 <= i < self.areas@.len() && #[trigger] self.areas@[i].contains_vpn(v)
            implies self.page_table.mapping(other, v) == Some(self.areas@[i].entry(v)) by {
            assert(self.mapping(other, v) == self.mapping(mem, v));
        }
        assert(self.mapping(other, TRAMPOLINE_VPN) == self.mapping(mem, TRAMPOLINE_VPN));
    }

    /// Whether some page of `[start, end)` is mapped.
    pub open spec fn any_mapped(&self, mem: &PhysMemory, start: u64, end: u64) -> bool {
        exists|v: u64| start <= v < end && self.table().is_mapped(mem, v)
    }

    /// Maps the pages `[start, end)` and records them as an area. Fails, and
    /// changes nothing, when one of the pages is mapped or the allocator
    /// holds too few frames.
    pub fn push_area(
        &mut self,
        alloc: &mut StackFrameAllocator,
        mem: &mut PhysMemory,
        start: u64,
        end: u64,
        perm: u8,
        map_type: MapType,
    ) -> (res: Result<(), MemError>)
        requires
            old(self).wf(old(mem)),
            old(alloc)@.wf(),
            old(alloc).within(old(mem)),
            old(self).owned_in(old(alloc)@),
            start <= end <= VPN_LIMIT,
            is_perm(perm),
            map_type == MapType::Identical ==> !has_flag(perm, PERM_U),
        ensures
            final(self).wf(final(mem)),
            final(alloc)@.wf(),
            final(alloc).within(final(mem)),
            final(self).owned_in(final(alloc)@),
            old(mem).same_extent(final(mem)),
            final(alloc)@.base == old(alloc)@.base,
            final(alloc)@.end == old(alloc)@.end,
            final(self).trampoline() == old(self).trampoline(),
            final(self).table().root() == old(self).table().root(),
            res == Err::<(), MemError>(MemError::Overlap) <==> old(self).any_mapped(
                old(mem),
                start,
                end,
            ),
            res == Err::<(), MemError>(MemError::OutOfFrames) <==> !old(self).any_mapped(
                old(mem),
                start,
                end,
            ) && old(alloc)@.free_count() < frames_needed(
                &old(self).table(),
                old(mem),
                start,
                end,
                frames_per_page(map_type),
            ),
            res is Err ==> (res == Err::<(), MemError>(MemError::Overlap) || res == Err::<
                (),
                MemError,
            >(MemError::OutOfFrames)) && *final(self) == *old(self) && *final(mem) == *old(mem)
                && *final(alloc) == *old(alloc),
            res is Ok ==> {
                let area = final(self).areas().last();
                &&& final(self).areas().len() == old(self).areas().len() + 1
                &&& final(self).areas().drop_last() == old(self).areas()
                &&& area.start_vpn == start
                &&& area.end_vpn == end
                &&& area.map_type == map_type
                &&& area.map_perm == perm
                &&& final(alloc)@.free_count() == old(alloc)@.free_count() - frames_needed(
                    &old(self).table(),
                    old(mem),
                    start,
                    end,
                    frames_per_page(map_type),
                )
                &&& final(alloc)@ == old(alloc)@.after_allocs(
                    frames_needed(
                        &old(self).table(),
                        old(mem),
                        start,
                        end,
                        frames_per_page(map_type),
                    ),
                )
                &&& forall|p: u64| #[trigger]
                    final(alloc)@.is_allocated(p) <==> old(alloc)@.is_allocated(p) || final(self).owns(p)
                &&& forall|p: u64| #[trigger] old(self).owns(p) ==> final(self).owns(p)
                &&& forall|p: u64| #[trigger]
                    final(self).owns(p) ==> old(self).owns(p) || !old(alloc)@.is_allocated(p)
                &&& forall|p: u64|
                    old(mem).contains(p) && !final(self).owns(p) ==> #[trigger] final(mem).frame(p)
                        == old(mem).frame(p)
                &&& forall|p: u64| #[trigger]
                    old(self).data_frames().contains(p) ==> final(mem).frame(p) == old(mem).frame(p)
                &&& forall|k: int|
                    0 <= k < area.data_frames@.len() ==> final(mem).frame(
                        #[trigger] area.data_frames@[k],
                    ) == zero_frame()
                &&& forall|k: int|
                    0 <= k < area.data_frames@.len() ==> !old(alloc)@.is_allocated(
                        #[trigger] area.data_frames@[k],
                    )
                &&& area.data_frames@.no_duplicates()
                &&& forall|v: u64|
                    v < VPN_LIMIT ==> #[trigger] final(self).mapping(final(mem), v) == if start <= v
                        < end {
                        Some(area.entry(v))
                    } else {
                        old(self).mapping(old(mem), v)
                    }
                &&& forall|v: u64|
                    v < VPN_LIMIT ==> ((#[trigger] final(self).table().table1(final(mem), v)) is Some
                        <==> old(self).table().table1(old(mem), v) is Some || touched1(start, end, v))
                &&& forall|v: u64|
                    v < VPN_LIMIT ==> ((#[trigger] final(self).table().table0(final(mem), v)) is Some
                        <==> old(self).table().table0(old(mem), v) is Some || touched0(start, end, v))
                &&& Cover::of(&final(self).table(), final(mem)) == Cover::of(
                    &old(self).table(),
                    old(mem),
                ).with_range(start, end)
            },
    {
        let ghost pre = *self;
        let ghost mem0 = *mem;
        let ghost pool0 = alloc@;
        proof {
            pre.lemma_wf(&mem0);
        }
        let needed = match survey(&self.page_table, mem, start, end, map_type) {
            None => {
                return Err(MemError::Overlap);
            },
            Some(n) => n,
        };
        if alloc.free_frames() < needed {
            return Err(MemError::OutOfFrames);
        }
        proof {
            assert forall|p: u64| #[trigger] pre.page_table.nodes().contains(p) implies pool0.is_allocated(
                p,
            ) by {
                assert(pre.owns(p));
            }
        }
        let frames = fill(&mut self.page_table, alloc, mem, start, end, perm, map_type);
        let ghost b0 = self.backing@;
        let ghost fseq = frames@;
        self.backing = Ghost(
            Map::new(
                |p: u64| b0.dom().contains(p) || fseq.contains(p),
                |p: u64|
                    if fseq.contains(p) {
                        (start + fseq.index_of(p)) as u64
                    } else {
                        b0[p]
                    },
            ),
        );
        let area = MapArea {
            start_vpn: start,
            end_vpn: end,
            map_type,
            map_perm: perm,
            data_frames: frames,
        };
        self.areas.push(area);
        proof {
            let n = pre.areas@.len() as int;
            let b1 = self.backing@;
            let pt = self.page_table;
            assert(self.areas@.drop_last() =~= pre.areas@);
            assert(pre.page_table.mapping(&mem0, TRAMPOLINE_VPN) is Some);
            assert(!(start <= TRAMPOLINE_VPN < end)) by {
                if start <= TRAMPOLINE_VPN < end {
                    assert(pre.page_table.is_mapped(&mem0, TRAMPOLINE_VPN));
                }
            }
            assert(self.areas@[n].wf());
            assert forall|k: int| 0 <= k < fseq.len() implies fseq.index_of(#[trigger] fseq[k])
                == k by {
                fseq.index_of_first_ensures(fseq[k]);
                let j = fseq.index_of(fseq[k]);
                assert(fseq.contains(fseq[k]));
            }
            assert forall|p: u64| b0.dom().contains(p) implies !fseq.contains(p) by {
                assert(pre.owns(p));
                if fseq.contains(p) {
                    let k = choose|k: int| 0 <= k < fseq.len() && fseq[k] == p;
                    assert(!pool0.is_allocated(fseq[k]));
                }
            }
            assert forall|i: int| 0 <= i < self.areas@.len() implies (#[trigger] self.areas@[i]).wf() by {
                if i < n {
                    assert(self.areas@[i] == pre.areas@[i]);
                }
            }
            assert forall|i: int, v: u64|
                0 <= i < self.areas@.len() && #[trigger] self.areas@[i].contains_vpn(v)
                implies pt.mapping(mem, v) == Some(self.areas@[i].entry(v)) by {
                if i < n {
                    assert(self.areas@[i] == pre.areas@[i]);
                    assert(pre.areas@[i].contains_vpn(v));
                    assert(pre.page_table.is_mapped(&mem0, v));
                }
            }
            assert forall|i: int, j: int, v: u64|
                0 <= i < self.areas@.len() && 0 <= j < self.areas@.len() && i != j
                    && #[trigger] self.areas@[i].contains_vpn(v) implies !#[trigger] self.areas@[j].contains_vpn(
                v,
            ) by {
                if i < n {
                    assert(self.areas@[i] == pre.areas@[i]);
                    assert(pre.areas@[i].contains_vpn(v));
                    assert(pre.page_table.is_mapped(&mem0, v));
                }
                if j < n {
                    assert(self.areas@[j] == pre.areas@[j]);
                    if self.areas@[j].contains_vpn(v) {
                        assert(pre.areas@[j].contains_vpn(v));
                        assert(pre.page_table.is_mapped(&mem0, v));
                    }
                }
            }
            assert forall|v: u64| v < VPN_LIMIT && (#[trigger] pt.mapping(mem, v)) is Some implies v
                == TRAMPOLINE_VPN || self.covered(v) by {
                if start <= v < end {
                    assert(self.areas@[n].contains_vpn(v));
                } else if v != TRAMPOLINE_VPN {
                    assert(pre.page_table.mapping(&mem0, v) is Some);
                    assert(pre.covered(v));
                    let i = choose|i: int|
                        0 <= i < pre.areas().len() && #[trigger] pre.areas()[i].contains_vpn(v);
                    assert(self.areas@[i] == pre.areas@[i]);
                    assert(self.areas@[i].contains_vpn(v));
                }
            }
            assert forall|i: int, k: int|
                0 <= i < self.areas@.len() && self.areas@[i].map_type == MapType::Framed && 0 <= k
                    < self.areas@[i].data_frames@.len() implies {
                let p = #[trigger] self.areas@[i].data_frames@[k];
                b1.dom().contains(p) && b1[p] == self.areas@[i].start_vpn + k
            } by {
                let p = self.areas@[i].data_frames@[k];
                if i < n {
                    assert(self.areas@[i] == pre.areas@[i]);
                    let q = pre.areas@[i].data_frames@[k];
                    assert(b0.dom().contains(q));
                } else {
                    assert(fseq[k] == p);
                    assert(fseq.contains(p));
                }
            }
            assert forall|p: u64| #[trigger] b1.dom().contains(p) implies {
                &&& mem.contains(p)
                &&& !pt.nodes().contains(p)
                &&& exists|i: int|
                    0 <= i < self.areas@.len() && #[trigger] self.areas@[i].holds(b1[p], p)
            } by {
                if fseq.contains(p) {
                    let k = choose|k: int| 0 <= k < fseq.len() && fseq[k] == p;
                    assert(fseq.index_of(fseq[k]) == k);
                    assert(self.areas@[n].holds(b1[p], p));
                } else {
                    assert(b0.dom().contains(p));
                    assert(pre.owns(p));
                    let i = choose|i: int|
                        0 <= i < pre.areas@.len() && #[trigger] pre.areas@[i].holds(b0[p], p);
                    assert(self.areas@[i] == pre.areas@[i]);
                    assert(self.areas@[i].holds(b1[p], p));
                }
            }
            assert forall|p: u64| #[trigger]
                alloc@.is_allocated(p) <==> pool0.is_allocated(p) || self.owns(p) by {
                if pre.owns(p) {
                    assert(pool0.is_allocated(p));
                }
            }
            assert forall|p: u64| #[trigger] self.owns(p) implies pre.owns(p) || !pool0.is_allocated(
                p,
            ) by {
                if fseq.contains(p) {
                    let k = choose|k: int| 0 <= k < fseq.len() && fseq[k] == p;
                    assert(!pool0.is_allocated(fseq[k]));
                }
            }
            assert forall|p: u64| #[trigger] pre.data_frames().contains(p) implies mem.frame(p)
                == mem0.frame(p) by {
                assert(pre.owns(p));
                assert(pool0.is_allocated(p));
                assert(!pre.page_table.nodes().contains(p));
            }
            lemma_cover_grows(&pre.page_table, &mem0, &self.page_table, mem, start, end);
        }
        Ok(())
    }

    /// An address space that maps the trampoline and nothing else. It takes
    /// three frames, for the nodes of the page table; with fewer it fails and
    /// changes nothing.
    pub fn new_bare(
        alloc: &mut StackFrameAllocator,
        mem: &mut PhysMemory,
        trampoline_ppn: u64,
    ) -> (res: Result<MemorySet, MemError>)
        requires
            old(alloc)@.wf(),
            old(mem).wf(),
            old(alloc).within(old(mem)),
            trampoline_ppn < PPN_LIMIT,
        ensures
            final(alloc)@.wf(),
            final(mem).wf(),
            final(alloc).within(final(mem)),
            old(mem).same_extent(final(mem)),
            final(alloc)@.base == old(alloc)@.base,
            final(alloc)@.end == old(alloc)@.end,
            res is Err <==> old(alloc)@.free_count() < 3,
            res is Err ==> res == Err::<MemorySet, MemError>(MemError::OutOfFrames) && *final(mem)
                == *old(mem) && *final(alloc) == *old(alloc),
            res is Ok ==> {
                let ms = res->Ok_0;
                &&& ms.wf(final(mem))
                &&& ms.owned_in(final(alloc)@)
                &&& ms.areas().len() == 0
                &&& ms.trampoline() == trampoline_ppn
                &&& final(alloc)@.free_count() == old(alloc)@.free_count() - 3
                &&& final(alloc)@ == old(alloc)@.after_allocs(3)
                &&& forall|p: u64| #[trigger]
                    final(alloc)@.is_allocated(p) <==> old(alloc)@.is_allocated(p) || ms.owns(p)
                &&& forall|p: u64| #[trigger] ms.owns(p) ==> !old(alloc)@.is_allocated(p)
                &&& forall|p: u64|
                    old(mem).contains(p) && !ms.owns(p) ==> #[trigger] final(mem).frame(p) == old(mem).frame(p)
                &&& forall|v: u64|
                    v < VPN_LIMIT ==> #[trigger] ms.mapping(final(mem), v) == if v == TRAMPOLINE_VPN {
                        Some(ms.trampoline_entry())
                    } else {
                        None
                    }
                &&& forall|v: u64|
                    v < VPN_LIMIT ==> ((#[trigger] ms.table().table1(final(mem), v)) is Some <==> v
                        / ENTRIES / ENTRIES == TRAMPOLINE_VPN / ENTRIES / ENTRIES)
                &&& forall|v: u64|
                    v < VPN_LIMIT ==> ((#[trigger] ms.table().table0(final(mem), v)) is Some <==> v
                        / ENTRIES == TRAMPOLINE_VPN / ENTRIES)
                &&& Cover::of(&ms.table(), final(mem)) == Cover::bare()
            },
    {
        let ghost mem0 = *mem;
        let ghost pool0 = alloc@;
        if alloc.free_frames() < 3 {
            return Err(MemError::OutOfFrames);
        }
        proof {
            pool0.lemma_alloc();
        }
        let mut pt = PageTable::new(alloc, mem).unwrap();
        let ghost pt1 = pt;
        let ghost mem1 = *mem;
        let ghost pool1 = alloc@;
        proof {
            assert forall|p: u64| #[trigger]
                pool1.is_allocated(p) <==> pool0.is_allocated(p) || p == pt1.root() by {
                assert(pool1.allocated().contains(p) == pool0.allocated().insert(pt1.root()).contains(
                    p,
                ));
            }
            assert(pt1.nodes().contains(pt1.root()));
            assert(pt1.table1(&mem1, TRAMPOLINE_VPN) is None);
        }
        let mapped = pt.map(alloc, mem, TRAMPOLINE_VPN, trampoline_ppn, TRAMPOLINE_FLAGS);
        proof {
            reveal_with_fuel(FramePool::after_allocs, 3);
            pool1.lemma_alloc();
            pool1.after_alloc().lemma_alloc();
            assert(mapped is Ok);
        }
        let ms = MemorySet {
            page_table: pt,
            areas: Vec::new(),
            trampoline_ppn,
            backing: Ghost(Map::empty()),
        };
        proof {
            assert forall|v: u64| v < VPN_LIMIT implies #[trigger] ms.mapping(mem, v) == if v
                == TRAMPOLINE_VPN {
                Some(ms.trampoline_entry())
            } else {
                None
            } by {
                lemma_same_table(v, TRAMPOLINE_VPN);
                assert(pt1.table1(&mem1, v) is None);
            }
            assert forall|v: u64| v < VPN_LIMIT implies ((#[trigger] ms.table().table1(mem, v)) is Some
                <==> v / ENTRIES / ENTRIES == TRAMPOLINE_VPN / ENTRIES / ENTRIES) by {
                lemma_same_table(v, TRAMPOLINE_VPN);
                assert(pt1.table1(&mem1, v) is None);
            }
            assert forall|v: u64| v < VPN_LIMIT implies ((#[trigger] ms.table().table0(mem, v)) is Some
                <==> v / ENTRIES == TRAMPOLINE_VPN / ENTRIES) by {
                lemma_same_table(v, TRAMPOLINE_VPN);
                assert(pt1.table1(&mem1, v) is None);
            }
            assert(ms.mapping(mem, TRAMPOLINE_VPN) == Some(ms.trampoline_entry()));
            ms.page_table.lemma_nodes(mem);
            assert forall|p: u64| #[trigger] ms.owns(p) implies !pool0.is_allocated(p) by {
                if pt1.nodes().contains(p) {
                    assert(p == pt1.root());
                }
            }
            assert forall|p: u64|
                mem0.contains(p) && !ms.owns(p) implies #[trigger] mem.frame(p) == mem0.frame(p) by {
                assert(mem1.frame(p) == mem0.frame(p));
            }
            let cover = Cover::of(&ms.page_table, mem);
            assert forall|j: int| cover.middle.contains(j) <==> Cover::bare().middle.contains(j) by {
                if 0 <= j < ENTRIES {
                    let v = (j * ENTRIES * ENTRIES) as u64;
                    assert(ms.table().table1(mem, v) is Some <==> v / ENTRIES / ENTRIES
                        == TRAMPOLINE_VPN / ENTRIES / ENTRIES);
                }
            }
            assert forall|k: int| cover.leaf.contains(k) <==> Cover::bare().leaf.contains(k) by {
                if 0 <= k < ENTRIES * ENTRIES {
                    let v = (k * ENTRIES) as u64;
                    assert(ms.table().table0(mem, v) is Some <==> v / ENTRIES == TRAMPOLINE_VPN
                        / ENTRIES);
                }
            }
            assert(cover.middle =~= Cover::bare().middle);
            assert(cover.leaf =~= Cover::bare().leaf);
        }
        Ok(ms)
    }

    /// The first page and the page past the last of the virtual addresses
    /// `[start_va, end_va)`.
    pub open spec fn page_range(start_va: u64, end_va: u64) -> (u64, u64) {
        (floor(virt_addr(start_va)), ceil(virt_addr(end_va)))
    }

    /// Maps the addresses `[start_va, end_va)` to fresh zeroed frames and
    /// records them as a framed area. Fails, and changes nothing, when the
    /// start is not page-aligned, the range ends before it starts, a page of
    /// it is mapped already, or the allocator holds too few frames.
    pub fn insert_framed_area(
        &mut self,
        alloc: &mut StackFrameAllocator,
        mem: &mut PhysMemory,
        start_va: u64,
        end_va: u64,
        perm: u8,
    ) -> (res: Result<(), MemError>)
        requires
            old(self).wf(old(mem)),
            old(alloc)@.wf(),
            old(alloc).within(old(mem)),
            old(self).owned_in(old(alloc)@),
            is_perm(perm),
        ensures
            final(self).wf(final(mem)),
            final(alloc)@.wf(),
            final(alloc).within(final(mem)),
            final(self).owned_in(final(alloc)@),
            old(mem).same_extent(final(mem)),
            final(alloc)@.base == old(alloc)@.base,
            final(alloc)@.end == old(alloc)@.end,
            final(self).trampoline() == old(self).trampoline(),
            final(self).table().root() == old(self).table().root(),
            match res {
                Ok(_) => old(self).insert_failure(old(mem), old(alloc)@, start_va, end_va) is None,
                Err(e) => old(self).insert_failure(old(mem), old(alloc)@, start_va, end_va) == Some(e),
            },
            res is Err ==> *final(self) == *old(self) && *final(mem) == *old(mem) && *final(alloc)
                == *old(alloc),
            res is Ok ==> old(self).inserted(
                old(mem),
                old(alloc)@,
                final(self),
                final(mem),
                final(alloc)@,
                Self::page_range(start_va, end_va).0,
                Self::page_range(start_va, end_va).1,
                perm,
            ),
    {
        if page_offset(start_va) != 0 {
            return Err(MemError::Misaligned);
        }
        let start = floor(virt_addr(start_va));
        let end = ceil(virt_addr(end_va));
        if end < start {
            return Err(MemError::InvalidRange);
        }
        assert(start < VPN_LIMIT && end <= VPN_LIMIT);
        assert(Self::page_range(start_va, end_va) == (start, end));
        self.push_area(alloc, mem, start, end, perm, MapType::Framed)
    }

    /// Why inserting a framed area over `[start_va, end_va)` fails: the
    /// first of the reasons that holds, if any does.
    pub open spec fn insert_failure(
        &self,
        mem: &PhysMemory,
        pool: FramePool,
        start_va: u64,
        end_va: u64,
    ) -> Option<MemError> {
        let (start, end) = Self::page_range(start_va, end_va);
        if page_offset(start_va) != 0 {
            Some(MemError::Misaligned)
        } else if end < start {
            Some(MemError::InvalidRange)
        } else if self.any_mapped(mem, start, end) {
            Some(MemError::Overlap)
        } else if pool.free_count() < frames_needed(&self.table(), mem, start, end, 1) {
            Some(MemError::OutOfFrames)
        } else {
            None
        }
    }

    /// Index of the first recorded area with exactly the pages `[start, end)`.
    pub open spec fn find_area(&self, start: u64, end: u64) -> Option<int> {
        if exists|i: int| self.area_is(i, start, end) {
            Some(choose|i: int| self.area_is(i, start, end) && forall|j: int| 0 <= j < i ==> !self.area_is(j, start, end))
        } else {
            None
        }
    }

    /// Whether the area with index `i` has exactly the pages `[start, end)`.
    pub open spec fn area_is(&self, i: int, start: u64, end: u64) -> bool {
        0 <= i < self.areas().len() && self.areas()[i].start_vpn == start && self.areas()[i].end_vpn
            == end
    }

    /// Where an area has exactly the pages `[start, end)`, a first one does.
    proof fn lemma_first_area(&self, start: u64, end: u64, n: int)
        requires
            self.area_is(n, start, end),
        ensures
            exists|m: int|
                self.area_is(m, start, end) && forall|j: int|
                    0 <= j < m ==> !self.area_is(j, start, end),
        decreases n,
    {
        if exists|j: int| 0 <= j < n && self.area_is(j, start, end) {
            let j = choose|j: int| 0 <= j < n && self.area_is(j, start, end);
            self.lemma_first_area(start, end, j);
        } else {
            assert(self.area_is(n, start, end) && forall|j: int|
                0 <= j < n ==> !self.area_is(j, start, end));
        }
    }

    /// The search for an area with exactly the pages `[start, end)` finds
    /// one exactly if there is one, and then the first. In a well-formed
    /// address space an area with pages is the only one with its pages.
    pub proof fn lemma_find_area(&self, mem: &PhysMemory, start: u64, end: u64)
        ensures
            self.find_area(start, end) is Some <==> exists|i: int| self.area_is(i, start, end),
            self.find_area(start, end) is Some ==> self.area_is(
                self.find_area(start, end)->0,
                start,
                end,
            ),
            self.wf(mem) && start < end ==> forall|i: int| #[trigger]
                self.area_is(i, start, end) ==> self.find_area(start, end) == Some(i),
    {
        if exists|i: int| self.area_is(i, start, end) {
            let n = choose|i: int| self.area_is(i, start, end);
            self.lemma_first_area(start, end, n);
            let first = self.find_area(start, end)->0;
            assert(self.area_is(first, start, end));
            if self.wf(mem) && start < end {
                assert forall|i: int| #[trigger] self.area_is(i, start, end) implies first == i by {
                    if first != i {
                        assert(self.areas@[i].contains_vpn(start));
                        assert(self.areas@[first].contains_vpn(start));
                    }
                }
            }
        }
    }

    fn position(&self, start: u64, end: u64) -> (found: Option<usize>)
        ensures
            match found {
                Some(i) => self.find_area(start, end) == Some(i as int) && self.area_is(
                    i as int,
                    start,
                    end,
                ),
                None => self.find_area(start, end) is None,
            },
    {
        let mut i: usize = 0;
        while i < self.areas.len()
            invariant
                i <= self.areas@.len(),
                forall|j: int| 0 <= j < i ==> !self.area_is(j, start, end),
            decreases self.areas@.len() - i,
        {
            if self.areas[i].start_vpn == start && self.areas[i].end_vpn == end {
                proof {
                    assert(self.area_is(i as int, start, end));
                    let c = choose|c: int|
                        self.area_is(c, start, end) && forall|j: int|
                            0 <= j < c ==> !self.area_is(j, start, end);
                    assert(self.area_is(c, start, end));
                    if c < i {
                        assert(!self.area_is(c, start, end));
                    }
                    if i < c {
                        assert(!self.area_is(i as int, start, end));
                    }
                }
                return Some(i);
            }
            i += 1;
        }
        proof {
            assert forall|j: int| !self.area_is(j, start, end) by {
                if 0 <= j < self.areas@.len() {
                    assert(!self.area_is(j, start, end));
                }
            }
        }
        None
    }

    /// Two places of the framed areas that hold the same frame are the same
    /// place.
    pub proof fn lemma_two_frames(&self, mem: &PhysMemory, i: int, k: int, j: int, l: int)
        requires
            self.wf(mem),
            0 <= i < self.areas().len(),
            0 <= j < self.areas().len(),
            self.areas()[i].map_type == MapType::Framed,
            self.areas()[j].map_type == MapType::Framed,
            0 <= k < self.areas()[i].data_frames@.len(),
            0 <= l < self.areas()[j].data_frames@.len(),
            self.areas()[i].data_frames@[k] == self.areas()[j].data_frames@[l],
        ensures
            i == j,
            k == l,
    {
        self.lemma_frames_distinct(mem, i, k, j, l);
    }

    /// The frames of the framed areas are distinct.
    proof fn lemma_frames_distinct(&self, mem: &PhysMemory, i: int, k: int, j: int, l: int)
        requires
            self.wf(mem),
            0 <= i < self.areas@.len(),
            0 <= j < self.areas@.len(),
            self.areas@[i].map_type == MapType::Framed,
            self.areas@[j].map_type == MapType::Framed,
            0 <= k < self.areas@[i].data_frames@.len(),
            0 <= l < self.areas@[j].data_frames@.len(),
            self.areas@[i].data_frames@[k] == self.areas@[j].data_frames@[l],
        ensures
            i == j,
            k == l,
    {
        let p = self.areas@[i].data_frames@[k];
        let q = self.areas@[j].data_frames@[l];
        assert(self.backing@[p] == self.areas@[i].start_vpn + k);
        assert(self.backing@[q] == self.areas@[j].start_vpn + l);
        let v = self.backing@[p];
        assert(self.areas@[i].wf());
        assert(self.areas@[j].wf());
        assert(self.areas@[i].contains_vpn(v));
        assert(self.areas@[j].contains_vpn(v));
    }

    /// Taking an area out of the records, its pages out of the page table
    /// and its frames out of the frames of the areas leaves a well-formed
    /// address space that owns what it owned but those frames.
    proof fn lemma_area_removed(&self, mem: &PhysMemory, post: &MemorySet, post_mem: &PhysMemory, idx: int)
        requires
            self.wf(mem),
            0 <= idx < self.areas@.len(),
            post.page_table == self.page_table,
            post.page_table.wf(post_mem),
            post.trampoline_ppn == self.trampoline_ppn,
            post.areas@ == self.areas@.remove(idx),
            post.backing@ == self.backing@.remove_keys(self.areas@[idx].data_frames@.to_set()),
            mem.same_extent(post_mem),
            forall|u: u64|
                u < VPN_LIMIT ==> #[trigger] post.page_table.mapping(post_mem, u) == if self.areas@[idx].start_vpn
                    <= u < self.areas@[idx].end_vpn {
                    None
                } else {
                    self.page_table.mapping(mem, u)
                },
        ensures
            post.wf(post_mem),
            forall|p: u64| #[trigger]
                post.owns(p) <==> self.owns(p) && !self.areas@[idx].data_frames@.contains(p),
    {
        let fseq = self.areas@[idx].data_frames@;
        let b0 = self.backing@;
        self.lemma_wf(mem);
        let b1 = post.backing@;
        let pt = post.page_table;
        let n = self.areas@.len() as int;
        let id = idx;
        assert(post.areas@ == self.areas@.remove(id));
        assert forall|i: int| 0 <= i < post.areas@.len() implies #[trigger] post.areas@[i] == self.areas@[if i
            < id {
            i
        } else {
            i + 1
        }] by {}
        assert forall|i: int| 0 <= i < post.areas@.len() implies (#[trigger] post.areas@[i]).wf() by {
            let o = if i < id {
                i
            } else {
                i + 1
            };
            assert(post.areas@[i] == self.areas@[o]);
        }
        assert forall|i: int, u: u64|
            0 <= i < post.areas@.len() && #[trigger] post.areas@[i].contains_vpn(u)
            implies pt.mapping(post_mem, u) == Some(post.areas@[i].entry(u)) by {
            let o = if i < id {
                i
            } else {
                i + 1
            };
            assert(post.areas@[i] == self.areas@[o]);
            assert(self.areas@[o].contains_vpn(u));
            assert(self.areas@[o].wf());
            if self.areas@[id].contains_vpn(u) {
                assert(false);
            }
        }
        assert forall|i: int, j: int, u: u64|
            0 <= i < post.areas@.len() && 0 <= j < post.areas@.len() && i != j
                && #[trigger] post.areas@[i].contains_vpn(u) implies !#[trigger] post.areas@[j].contains_vpn(
            u,
        ) by {
            let oi = if i < id {
                i
            } else {
                i + 1
            };
            let oj = if j < id {
                j
            } else {
                j + 1
            };
            assert(post.areas@[i] == self.areas@[oi]);
            assert(post.areas@[j] == self.areas@[oj]);
            assert(self.areas@[oi].contains_vpn(u));
        }
        assert(self.areas@[id].wf());
        assert(pt.mapping(post_mem, TRAMPOLINE_VPN) == self.page_table.mapping(mem, TRAMPOLINE_VPN));
        assert forall|u: u64| u < VPN_LIMIT && (#[trigger] pt.mapping(post_mem, u)) is Some implies u
            == TRAMPOLINE_VPN || post.covered(u) by {
            if u != TRAMPOLINE_VPN {
                assert(self.page_table.mapping(mem, u) is Some);
                assert(self.covered(u));
                let o = choose|o: int|
                    0 <= o < self.areas().len() && #[trigger] self.areas()[o].contains_vpn(u);
                assert(self.areas()[o].contains_vpn(u));
                assert(!(self.areas@[idx].start_vpn <= u < self.areas@[idx].end_vpn));
                assert(o != id);
                let i = if o < id {
                    o
                } else {
                    o - 1
                };
                assert(0 <= i < post.areas().len());
                assert(post.areas@[i] == self.areas@[o]);
                assert(post.areas()[i].contains_vpn(u));
                assert(post.covered(u));
            }
        }
        assert forall|p: u64| fseq.to_set().contains(p) <==> fseq.contains(p) by {}
        assert forall|i: int, k: int|
            0 <= i < post.areas@.len() && post.areas@[i].map_type == MapType::Framed && 0 <= k
                < post.areas@[i].data_frames@.len() implies {
            let p = #[trigger] post.areas@[i].data_frames@[k];
            b1.dom().contains(p) && b1[p] == post.areas@[i].start_vpn + k
        } by {
            let o = if i < id {
                i
            } else {
                i + 1
            };
            assert(post.areas@[i] == self.areas@[o]);
            let p = self.areas@[o].data_frames@[k];
            assert(b0.dom().contains(p));
            if fseq.contains(p) {
                let l = choose|l: int| 0 <= l < fseq.len() && fseq[l] == p;
                self.lemma_frames_distinct(mem, o, k, id, l);
            }
        }
        assert forall|p: u64| #[trigger] b1.dom().contains(p) implies {
            &&& post_mem.contains(p)
            &&& !pt.nodes().contains(p)
            &&& exists|i: int|
                0 <= i < post.areas@.len() && #[trigger] post.areas@[i].holds(b1[p], p)
        } by {
            assert(b0.dom().contains(p));
            let o = choose|o: int|
                0 <= o < self.areas@.len() && #[trigger] self.areas@[o].holds(b0[p], p);
            if o == id {
                assert(fseq[b0[p] - self.areas@[idx].start_vpn] == p);
                assert(fseq.contains(p));
            }
            let i = if o < id {
                o
            } else {
                o - 1
            };
            assert(post.areas@[i] == self.areas@[o]);
            assert(post.areas@[i].holds(b1[p], p));
        }
        assert forall|p: u64| #[trigger] post.owns(p) <==> self.owns(p) && !fseq.contains(p) by {
            if fseq.contains(p) {
                let l = choose|l: int| 0 <= l < fseq.len() && fseq[l] == p;
                assert(self.backing@.dom().contains(self.areas@[id].data_frames@[l]));
            }
        }
    }

    /// Unmaps the recorded area with exactly the pages of `[start_va, end_va)`
    /// and gives its frames back. Fails, and changes nothing, when no
    /// recorded area has exactly these pages.
    pub fn unmap_area(
        &mut self,
        alloc: &mut StackFrameAllocator,
        mem: &mut PhysMemory,
        start_va: u64,
        end_va: u64,
    ) -> (res: Result<(), MemError>)
        requires
            old(self).wf(old(mem)),
            old(alloc)@.wf(),
            old(self).owned_in(old(alloc)@),
        ensures
            final(self).wf(final(mem)),
            final(alloc)@.wf(),
            final(self).owned_in(final(alloc)@),
            old(mem).same_extent(final(mem)),
            final(alloc)@.base == old(alloc)@.base,
            final(alloc)@.end == old(alloc)@.end,
            final(self).trampoline() == old(self).trampoline(),
            final(self).table() == old(self).table(),
            res is Err <==> old(self).find_area(
                Self::page_range(start_va, end_va).0,
                Self::page_range(start_va, end_va).1,
            ) is None,
            res is Err ==> res == Err::<(), MemError>(MemError::NoSuchArea) && *final(self) == *old(self) && *final(mem) == *old(mem) && *final(alloc) == *old(alloc),
            res is Ok ==> old(self).removed(
                old(mem),
                old(alloc)@,
                final(self),
                final(mem),
                final(alloc)@,
                old(self).find_area(
                    Self::page_range(start_va, end_va).0,
                    Self::page_range(start_va, end_va).1,
                )->0,
            ),
    {
        let ghost pre = *self;
        let ghost mem0 = *mem;
        let ghost pool0 = alloc@;
        let start = floor(virt_addr(start_va));
        let end = ceil(virt_addr(end_va));
        let idx = match self.position(start, end) {
            Some(i) => i,
            None => {
                return Err(MemError::NoSuchArea);
            },
        };
        proof {
            pre.lemma_wf(&mem0);
            assert(pre.areas@[idx as int].wf());
        }
        let mut v = start;
        while v < end
            invariant
                start <= v <= end <= VPN_LIMIT,
                self.areas == pre.areas,
                self.backing == pre.backing,
                self.trampoline_ppn == pre.trampoline_ppn,
                self.page_table == pre.page_table,
                pre.wf(&mem0),
                self.page_table.wf(mem),
                mem0.same_extent(mem),
                idx < pre.areas@.len(),
                pre.areas@[idx as int].start_vpn == start,
                pre.areas@[idx as int].end_vpn == end,
                forall|p: u64|
                    mem0.contains(p) && !pre.page_table.nodes().contains(p) ==> #[trigger] mem.frame(p)
                        == mem0.frame(p),
                forall|u: u64|
                    u < VPN_LIMIT ==> #[trigger] self.page_table.mapping(mem, u) == if start <= u < v {
                        None
                    } else {
                        pre.page_table.mapping(&mem0, u)
                    },
            decreases end - v,
        {
            let ghost mem1 = *mem;
            proof {
                assert(pre.areas@[idx as int].contains_vpn(v));
                assert(pre.page_table.mapping(&mem0, v) is Some);
                assert(self.page_table.mapping(mem, v) is Some);
            }
            self.page_table.unmap(mem, v);
            proof {
                assert forall|u: u64| u < VPN_LIMIT implies #[trigger] self.page_table.mapping(mem, u)
                    == if start <= u < v + 1 {
                    None
                } else {
                    pre.page_table.mapping(&mem0, u)
                } by {
                    lemma_same_table(u, v);
                    assert(pre.page_table.mapping(&mem1, u) == if start <= u < v {
                        None
                    } else {
                        pre.page_table.mapping(&mem0, u)
                    });
                }
                assert forall|p: u64|
                    mem0.contains(p) && !pre.page_table.nodes().contains(p) implies #[trigger] mem.frame(
                    p,
                ) == mem0.frame(p) by {
                    assert(mem1.frame(p) == mem0.frame(p));
                }
            }
            v = v + 1;
        }
        let area = self.areas.remove(idx);
        let ghost fseq = area.data_frames@;
        proof {
            assert(area == pre.areas@[idx as int]);
            assert(fseq.no_duplicates()) by {
                assert forall|a: int, b: int|
                    0 <= a < fseq.len() && 0 <= b < fseq.len() && a != b implies fseq[a] != fseq[b] by {
                    if fseq[a] == fseq[b] {
                        pre.lemma_frames_distinct(&mem0, idx as int, a, idx as int, b);
                    }
                }
            }
            assert forall|k: int| 0 <= k < fseq.len() implies pool0.is_allocated(
                #[trigger] fseq[k],
            ) by {
                assert(pre.backing@.dom().contains(pre.areas@[idx as int].data_frames@[k]));
                assert(pre.owns(fseq[k]));
            }
        }
        let ghost pool1 = alloc@;
        free_all(alloc, &area.data_frames);
        let ghost b0 = self.backing@;
        self.backing = Ghost(b0.remove_keys(fseq.to_set()));
        proof {
            pre.lemma_area_removed(&mem0, self, mem, idx as int);
            assert forall|p: u64| #[trigger] self.owns(p) implies alloc@.is_allocated(p) by {
                assert(pre.owns(p));
            }
        }
        Ok(())
    }

    /// Number of frames that the first `n` areas hold.
    pub open spec fn data_frame_count(&self, n: int) -> nat
        decreases n,
    {
        if n <= 0 {
            0
        } else {
            self.data_frame_count(n - 1) + self.areas()[n - 1].data_frames@.len()
        }
    }

    /// Number of frames that the address space owns: the nodes of its page
    /// table and the frames of its areas.
    pub open spec fn owned_count(&self) -> nat {
        self.table().node_count() + self.data_frame_count(self.areas().len() as int)
    }

    /// Gives every frame of the address space back to the allocator: the
    /// frames of the framed areas and the nodes of the page table. The
    /// address space is consumed.
    pub fn release(self, alloc: &mut StackFrameAllocator, mem: &PhysMemory)
        requires
            self.wf(mem),
            old(alloc)@.wf(),
            self.owned_in(old(alloc)@),
        ensures
            final(alloc)@.wf(),
            final(alloc)@.base == old(alloc)@.base,
            final(alloc)@.end == old(alloc)@.end,
            final(alloc)@.current == old(alloc)@.current,
            final(alloc)@.free_count() == old(alloc)@.free_count() + self.owned_count(),
            forall|p: u64| #[trigger]
                final(alloc)@.is_allocated(p) <==> old(alloc)@.is_allocated(p) && !self.owns(p),
    {
        let ghost pool0 = alloc@;
        proof {
            self.lemma_wf(mem);
        }
        let mut i: usize = 0;
        while i < self.areas.len()
            invariant
                i <= self.areas@.len(),
                self.wf(mem),
                self.owned_in(pool0),
                alloc@.wf(),
                alloc@.base == pool0.base,
                alloc@.end == pool0.end,
                alloc@.current == pool0.current,
                alloc@.free_count() == pool0.free_count() + self.data_frame_count(i as int),
                forall|p: u64| #[trigger]
                    alloc@.is_allocated(p) <==> pool0.is_allocated(p) && !self.freed_before(i as int, p),
            decreases self.areas@.len() - i,
        {
            let ghost pool1 = alloc@;
            let ghost fseq = self.areas@[i as int].data_frames@;
            proof {
                assert(self.areas@[i as int].wf());
                assert(fseq.no_duplicates()) by {
                    assert forall|a: int, b: int|
                        0 <= a < fseq.len() && 0 <= b < fseq.len() && a != b implies fseq[a] != fseq[b] by {
                        if self.areas@[i as int].map_type == MapType::Framed && fseq[a] == fseq[b] {
                            self.lemma_frames_distinct(mem, i as int, a, i as int, b);
                        }
                    }
                }
                assert forall|k: int| 0 <= k < fseq.len() implies pool1.is_allocated(
                    #[trigger] fseq[k],
                ) by {
                    assert(self.backing@.dom().contains(self.areas@[i as int].data_frames@[k]));
                    assert(self.owns(fseq[k]));
                    if self.freed_before(i as int, fseq[k]) {
                        let j = choose|j: int|
                            0 <= j < i && #[trigger] self.areas@[j].data_frames@.contains(fseq[k]);
                        let l = choose|l: int|
                            0 <= l < self.areas@[j].data_frames@.len() && self.areas@[j].data_frames@[l]
                                == fseq[k];
                        assert(self.areas@[j].wf());
                        self.lemma_frames_distinct(mem, i as int, k, j, l);
                    }
                }
            }
            free_all(alloc, &self.areas[i].data_frames);
            proof {
                assert forall|p: u64| #[trigger]
                    alloc@.is_allocated(p) <==> pool0.is_allocated(p) && !self.freed_before(
                        i + 1,
                        p,
                    ) by {
                    if self.freed_before(i as int, p) {
                        let j = choose|j: int|
                            0 <= j < i && #[trigger] self.areas@[j].data_frames@.contains(p);
                        assert(self.areas@[j].data_frames@.contains(p));
                    }
                    if fseq.contains(p) {
                        assert(self.areas@[i as int].data_frames@.contains(p));
                    }
                    if self.freed_before(i + 1, p) {
                        let j = choose|j: int|
                            0 <= j < i + 1 && #[trigger] self.areas@[j].data_frames@.contains(p);
                        if j < i {
                            assert(self.freed_before(i as int, p));
                        }
                    }
                }
            }
            i += 1;
        }
        proof {
            assert forall|p: u64| self.freed_before(self.areas@.len() as int, p)
                <==> self.data_frames().contains(p) by {
                if self.freed_before(self.areas@.len() as int, p) {
                    let j = choose|j: int|
                        0 <= j < self.areas@.len() && #[trigger] self.areas@[j].data_frames@.contains(p);
                    let l = choose|l: int|
                        0 <= l < self.areas@[j].data_frames@.len() && self.areas@[j].data_frames@[l] == p;
                    assert(self.areas@[j].wf());
                    assert(self.backing@.dom().contains(self.areas@[j].data_frames@[l]));
                }
                if self.backing@.dom().contains(p) {
                    let o = choose|o: int|
                        0 <= o < self.areas@.len() && #[trigger] self.areas@[o].holds(
                            self.backing@[p],
                            p,
                        );
                    assert(self.areas@[o].wf());
                    assert(self.areas@[o].data_frames@[self.backing@[p] - self.areas@[o].start_vpn]
                        == p);
                    assert(self.areas@[o].data_frames@.contains(p));
                }
            }
            assert forall|p: u64| #[trigger] self.page_table.nodes().contains(p) implies alloc@.is_allocated(
                p,
            ) by {
                assert(self.owns(p));
            }
        }
        self.page_table.release(alloc, mem);
    }

    /// Whether one of the areas before the one with index `i` holds the frame `p`.
    spec fn freed_before(&self, i: int, p: u64) -> bool {
        exists|j: int| 0 <= j < i && #[trigger] self.areas@[j].data_frames@.contains(p)
    }

    /// The frame behind the user page that holds the address `va`: the page
    /// is mapped and accessible in user mode.
    pub open spec fn user_frame(&self, mem: &PhysMemory, va: u64) -> Option<u64> {
        match self.mapping(mem, vpn_of(va)) {
            Some(entry) => if entry.user() {
                Some(entry.ppn())
            } else {
                None
            },
            None => None,
        }
    }

    /// The byte at the user address `va`, if that address is accessible in
    /// user mode.
    pub open spec fn user_byte(&self, mem: &PhysMemory, va: u64) -> Option<u8> {
        match self.user_frame(mem, va) {
            Some(frame) => Some(mem.frame(frame)[page_offset(va) as int]),
            None => None,
        }
    }

    /// Whether each of the `len` addresses from `va` up is accessible in user mode.
    pub open spec fn user_range(&self, mem: &PhysMemory, va: u64, len: nat) -> bool {
        &&& va + len <= u64::MAX
        &&& len <= VA_LIMIT
        &&& forall|i: nat| i < len ==> (#[trigger] self.user_frame(mem, (va + i) as u64)) is Some
    }

    /// A page that is accessible in user mode lies in a framed area, in a
    /// frame that the address space owns, and no other page shares the frame.
    pub proof fn lemma_user_frame(&self, mem: &PhysMemory, va: u64)
        requires
            self.wf(mem),
            self.user_frame(mem, va) is Some,
        ensures
            self.data_frames().contains(self.user_frame(mem, va)->0),
            mem.contains(self.user_frame(mem, va)->0),
            !self.table().nodes().contains(self.user_frame(mem, va)->0),
            self.page_of(self.user_frame(mem, va)->0) == vpn_of(va),
    {
        let v = vpn_of(va);
        let e = self.mapping(mem, v)->0;
        self.lemma_wf(mem);
        PageTableEntry::lemma_fields(self.trampoline_ppn, with_valid(TRAMPOLINE_FLAGS));
        assert(v != TRAMPOLINE_VPN);
        assert(self.covered(v));
        let i = choose|i: int| 0 <= i < self.areas().len() && #[trigger] self.areas()[i].contains_vpn(v);
        let a = self.areas@[i];
        assert(a.wf());
        assert(e == a.entry(v));
        assert(self.page_table.mapping(mem, TRAP_CONTEXT_VPN) == self.mapping(mem, TRAP_CONTEXT_VPN));
        if a.map_type == MapType::Identical {
            PageTableEntry::lemma_fields(v, with_valid(a.map_perm));
            assert(false);
        }
        let p = a.data_frames@[v - a.start_vpn];
        assert(self.backing@.dom().contains(p));
        assert(mem.contains(p));
        mem.lemma_frame_len(p);
        PageTableEntry::lemma_fields(p, with_valid(a.map_perm));
    }

    /// Translates a user address to a physical address. Pages that are not
    /// mapped or not accessible in user mode are refused.
    pub fn translate_user(&self, mem: &PhysMemory, va: u64) -> (pa: Option<u64>)
        requires
            self.wf(mem),
        ensures
            match pa {
                Some(addr) => self.user_frame(mem, va) == Some((addr / PAGE_SIZE) as u64) && addr
                    % PAGE_SIZE == page_offset(va) && addr / PAGE_SIZE < PPN_LIMIT,
                None => self.user_frame(mem, va) is None,
            },
    {
        match self.page_table.translate(mem, vpn_of(va)) {
            Some(entry) => {
                if entry.is_valid() && entry.user() {
                    Some(entry.ppn() * PAGE_SIZE + page_offset(va))
                } else {
                    None
                }
            },
            None => None,
        }
    }

    /// Reads `len` bytes from the user address `va` up, or `None` where one
    /// of these addresses is not accessible in user mode.
    pub fn read_user(&self, mem: &PhysMemory, va: u64, len: usize) -> (bytes: Option<Vec<u8>>)
        requires
            self.wf(mem),
        ensures
            bytes is Some <==> self.user_range(mem, va, len as nat),
            bytes is Some ==> bytes->0@.len() == len && forall|i: int|
                0 <= i < len ==> Some(#[trigger] bytes->0@[i]) == self.user_byte(mem, (va + i) as u64),
    {
        if len as u64 > VA_LIMIT || va > u64::MAX - len as u64 {
            return None;
        }
        let mut out: Vec<u8> = Vec::new();
        let mut i: usize = 0;
        while i < len
            invariant
                i <= len,
                va + len <= u64::MAX,
                self.wf(mem),
                out@.len() == i,
                forall|j: nat| j < i ==> (#[trigger] self.user_frame(mem, (va + j) as u64)) is Some,
                forall|j: int|
                    0 <= j < i ==> Some(#[trigger] out@[j]) == self.user_byte(mem, (va + j) as u64),
            decreases len - i,
        {
            let addr = va + i as u64;
            match self.translate_user(mem, addr) {
                Some(pa) => {
                    proof {
                        self.lemma_wf(mem);
                        self.lemma_user_frame(mem, addr);
                    }
                    out.push(mem.read_byte(pa / PAGE_SIZE, pa % PAGE_SIZE));
                },
                None => {
                    assert(self.user_frame(mem, (va + i as nat) as u64) is None);
                    return None;
                },
            }
            i += 1;
        }
        Some(out)
    }

    /// Whether one of the `len` addresses from `va` up is the byte with
    /// offset `off` of the frame `ppn`.
    pub open spec fn addressed(&self, mem: &PhysMemory, va: u64, len: nat, ppn: u64, off: int) -> bool {
        exists|i: nat|
            i < len && #[trigger] self.user_frame(mem, (va + i) as u64) == Some(ppn) && page_offset(
                (va + i) as u64,
            ) == off
    }

    /// Two addresses less than the size of the address space apart do not
    /// name the same byte of the same page.
    proof fn lemma_distinct_bytes(a: u64, b: u64)
        requires
            a < b,
            b - a < VA_LIMIT,
        ensures
            !(vpn_of(a) == vpn_of(b) && page_offset(a) == page_offset(b)),
    {
        assert(!((a % 0x80_0000_0000) / 0x1000 == (b % 0x80_0000_0000) / 0x1000 && a % 0x1000 == b
            % 0x1000)) by (bit_vector)
            requires
                a < b,
                b - a < 0x80_0000_0000,
        ;
    }

    /// Writes one byte at the user address `va`, unless that address is not
    /// accessible in user mode.
    pub fn write_user_byte(&self, mem: &mut PhysMemory, va: u64, value: u8) -> (ok: bool)
        requires
            self.wf(old(mem)),
        ensures
            ok <==> self.user_frame(old(mem), va) is Some,
            !ok ==> *final(mem) == *old(mem),
            ok ==> {
                let frame = self.user_frame(old(mem), va)->0;
                &&& self.wf(final(mem))
                &&& old(mem).same_but(final(mem), frame)
                &&& final(mem).frame(frame) == old(mem).frame(frame).update(
                    page_offset(va) as int,
                    value,
                )
                &&& forall|v: u64| #[trigger] self.mapping(final(mem), v) == self.mapping(old(mem), v)
            },
    {
        let ghost mem0 = *mem;
        match self.translate_user(mem, va) {
            Some(pa) => {
                proof {
                    self.lemma_wf(&mem0);
                    self.lemma_user_frame(&mem0, va);
                }
                mem.write_byte(pa / PAGE_SIZE, pa % PAGE_SIZE, value);
                proof {
                    assert forall|t: u64| #[trigger] self.table().nodes().contains(t) implies mem.frame(
                        t,
                    ) == mem0.frame(t) by {
                        assert(self.owns(t));
                    }
                    self.lemma_frame_invariance(&mem0, mem);
                }
                true
            },
            None => false,
        }
    }

    /// What holds of the memory once the first `done` bytes of `data` were
    /// written to the user addresses from `va` up, starting from `before`.
    pub open spec fn written(
        &self,
        before: &PhysMemory,
        mem: &PhysMemory,
        va: u64,
        data: Seq<u8>,
        done: nat,
    ) -> bool {
        &&& forall|p: u64|
            before.contains(p) && !self.data_frames().contains(p) ==> #[trigger] mem.frame(p)
                == before.frame(p)
        &&& forall|i: int|
            0 <= i < done ==> #[trigger] self.user_byte(mem, (va + i) as u64) == Some(data[i])
        &&& forall|p: u64, off: int|
            before.contains(p) && 0 <= off < PAGE_SIZE && !self.addressed(before, va, done, p, off)
                ==> #[trigger] mem.frame(p)[off] == before.frame(p)[off]
    }

    proof fn lemma_write_step(
        &self,
        before: &PhysMemory,
        mem1: &PhysMemory,
        mem2: &PhysMemory,
        va: u64,
        data: Seq<u8>,
        i: nat,
    )
        requires
            self.wf(before),
            self.wf(mem1),
            self.wf(mem2),
            before.same_extent(mem1),
            i < data.len() <= VA_LIMIT,
            va + data.len() <= u64::MAX,
            self.user_range(before, va, data.len()),
            forall|v: u64| #[trigger] self.mapping(mem1, v) == self.mapping(before, v),
            forall|v: u64| #[trigger] self.mapping(mem2, v) == self.mapping(mem1, v),
            self.written(before, mem1, va, data, i),
            mem1.same_but(mem2, self.user_frame(before, (va + i) as u64)->0),
            mem2.frame(self.user_frame(before, (va + i) as u64)->0) == mem1.frame(
                self.user_frame(before, (va + i) as u64)->0,
            ).update(page_offset((va + i) as u64) as int, data[i as int]),
        ensures
            self.written(before, mem2, va, data, i + 1),
    {
        let addr = (va + i) as u64;
        let frame = self.user_frame(before, addr)->0;
        let off = page_offset(addr) as int;
        assert(self.mapping(mem1, vpn_of(addr)) == self.mapping(before, vpn_of(addr)));
        self.lemma_user_frame(mem1, addr);
        self.lemma_wf(mem1);
        mem1.lemma_frame_len(frame);
        assert forall|j: int| 0 <= j < i + 1 implies #[trigger] self.user_byte(mem2, (va + j) as u64)
            == Some(data[j]) by {
            let aj = (va + j) as u64;
            assert(self.mapping(mem2, vpn_of(aj)) == self.mapping(mem1, vpn_of(aj)));
            if j < i {
                assert(self.user_byte(mem1, aj) == Some(data[j]));
                assert(self.user_frame(before, (va + j as nat) as u64) is Some);
                assert(self.mapping(mem1, vpn_of(aj)) == self.mapping(before, vpn_of(aj)));
                self.lemma_user_frame(mem1, aj);
                Self::lemma_distinct_bytes(aj, addr);
                let fj = self.user_frame(mem1, aj)->0;
                mem1.lemma_frame_len(fj);
                if fj != frame {
                    assert(mem2.frame(fj) == mem1.frame(fj));
                }
            }
        }
        assert forall|p: u64, o: int|
            before.contains(p) && 0 <= o < PAGE_SIZE && !self.addressed(before, va, i + 1, p, o)
            implies #[trigger] mem2.frame(p)[o] == before.frame(p)[o] by {
            if self.addressed(before, va, i, p, o) {
                let w = choose|w: nat|
                    w < i && #[trigger] self.user_frame(before, (va + w) as u64) == Some(p)
                        && page_offset((va + w) as u64) == o;
                assert(w < i + 1);
            }
            if p == frame && o == off {
                assert(self.user_frame(before, (va + i) as u64) == Some(p));
            }
            assert(mem1.frame(p)[o] == before.frame(p)[o]);
            if p != frame {
                assert(mem2.frame(p) == mem1.frame(p));
            }
        }
        assert forall|p: u64|
            before.contains(p) && !self.data_frames().contains(p) implies #[trigger] mem2.frame(p)
            == before.frame(p) by {
            assert(mem1.frame(p) == before.frame(p));
            assert(mem2.frame(p) == mem1.frame(p));
        }
    }

    /// Writes `data` to the user addresses from `va` up. Nothing is written
    /// unless every one of these addresses is accessible in user mode.
    pub fn write_user(&self, mem: &mut PhysMemory, va: u64, data: &Vec<u8>) -> (ok: bool)
        requires
            self.wf(old(mem)),
        ensures
            ok <==> self.user_range(old(mem), va, data@.len()),
            !ok ==> *final(mem) == *old(mem),
            ok ==> {
                &&& self.wf(final(mem))
                &&& old(mem).same_extent(final(mem))
                &&& forall|v: u64| #[trigger] self.mapping(final(mem), v) == self.mapping(old(mem), v)
                &&& self.written(old(mem), final(mem), va, data@, data@.len())
            },
    {
        let len = data.len();
        if len as u64 > VA_LIMIT || va > u64::MAX - len as u64 {
            return false;
        }
        let ghost mem0 = *mem;
        let mut i: usize = 0;
        while i < len
            invariant
                i <= len,
                va + len <= u64::MAX,
                *mem == mem0,
                mem0 == *old(mem),
                len == data@.len(),
                self.wf(mem),
                forall|j: nat| j < i ==> (#[trigger] self.user_frame(mem, (va + j) as u64)) is Some,
            decreases len - i,
        {
            if self.translate_user(mem, va + i as u64).is_none() {
                assert(self.user_frame(old(mem), (va + i as nat) as u64) is None);
                assert(!self.user_range(old(mem), va, data@.len()));
                return false;
            }
            i += 1;
        }
        let mut i: usize = 0;
        while i < len
            invariant
                i <= len,
                len == data@.len(),
                len <= VA_LIMIT,
                va + len <= u64::MAX,
                self.wf(&mem0),
                self.wf(mem),
                mem0.same_extent(mem),
                self.user_range(&mem0, va, len as nat),
                forall|v: u64| #[trigger] self.mapping(mem, v) == self.mapping(&mem0, v),
                self.written(&mem0, mem, va, data@, i as nat),
            decreases len - i,
        {
            let addr = va + i as u64;
            let ghost mem1 = *mem;
            proof {
                assert(self.user_frame(&mem0, (va + i as nat) as u64) is Some);
                assert(self.mapping(&mem1, vpn_of(addr)) == self.mapping(&mem0, vpn_of(addr)));
            }
            let ok = self.write_user_byte(mem, addr, data[i]);
            proof {
                self.lemma_write_step(&mem0, &mem1, mem, va, data@, i as nat);
                assert forall|v: u64| #[trigger] self.mapping(mem, v) == self.mapping(&mem0, v) by {
                    assert(self.mapping(&mem1, v) == self.mapping(&mem0, v));
                }
            }
            i += 1;
        }
        true
    }

    /// Why building an address space from a layout fails with `free` frames
    /// left: the first of the reasons that holds, if any does.
    pub open spec fn build_failure(layout: Seq<AreaLayout>, free: nat) -> Option<MemError> {
        if layout_overlaps(layout) {
            Some(MemError::Overlap)
        } else if free < Cover::total(layout) {
            Some(MemError::OutOfFrames)
        } else {
            None
        }
    }

    /// Whether the recorded areas have the shapes of a layout, in order.
    pub open spec fn laid_out(&self, layout: Seq<AreaLayout>) -> bool {
        &&& self.areas().len() == layout.len()
        &&& forall|i: int| 0 <= i < layout.len() ==> (#[trigger] layout[i]).describes(&self.areas()[i])
    }

    /// Whether every frame of the framed areas holds zeros only.
    pub open spec fn blank(&self, mem: &PhysMemory) -> bool {
        forall|i: int, k: int|
            0 <= i < self.areas().len() && 0 <= k < self.areas()[i].data_frames@.len() ==> mem.frame(
                #[trigger] self.areas()[i].data_frames@[k],
            ) == zero_frame()
    }

    /// In an address space laid out as the first `n` areas of a layout
    /// without overlaps, no page of the next area is mapped.
    proof fn lemma_next_area_free(&self, mem: &PhysMemory, layout: Seq<AreaLayout>, n: int)
        requires
            self.wf(mem),
            0 <= n < layout.len(),
            layout[n].wf(),
            !layout_overlaps(layout),
            self.laid_out(layout.take(n)),
        ensures
            !self.any_mapped(mem, layout[n].start_vpn, layout[n].end_vpn),
    {
        let area = layout[n];
        let done = layout.take(n);
        self.lemma_wf(mem);
        if self.any_mapped(mem, area.start_vpn, area.end_vpn) {
            let v = choose|v: u64| area.start_vpn <= v < area.end_vpn && self.table().is_mapped(mem, v);
            assert(layout[n].contains_vpn(v));
            assert(self.mapping(mem, v) is Some);
            if v != TRAMPOLINE_VPN {
                assert(self.covered(v));
                let j = choose|j: int|
                    0 <= j < self.areas().len() && #[trigger] self.areas()[j].contains_vpn(v);
                assert(done[j].describes(&self.areas()[j]));
                assert(done[j] == layout[j]);
                assert(layout[j].contains_vpn(v));
                assert(layout_covers(layout, n, v));
            }
            assert(layout_overlaps(layout));
        }
    }

    /// Pushing the next area of a layout keeps the address space laid out
    /// and its frames blank.
    proof fn lemma_area_pushed(
        &self,
        mem: &PhysMemory,
        post: &MemorySet,
        post_mem: &PhysMemory,
        layout: Seq<AreaLayout>,
        n: int,
    )
        requires
            self.wf(mem),
            0 <= n < layout.len(),
            self.laid_out(layout.take(n)),
            self.blank(mem),
            post.areas().len() == self.areas().len() + 1,
            post.areas().drop_last() == self.areas(),
            layout[n].describes(&post.areas().last()),
            forall|p: u64| #[trigger]
                self.data_frames().contains(p) ==> post_mem.frame(p) == mem.frame(p),
            forall|k: int|
                0 <= k < post.areas().last().data_frames@.len() ==> post_mem.frame(
                    #[trigger] post.areas().last().data_frames@[k],
                ) == zero_frame(),
        ensures
            post.laid_out(layout.take(n + 1)),
            post.blank(post_mem),
    {
        let done = layout.take(n);
        let next = layout.take(n + 1);
        self.lemma_wf(mem);
        assert forall|a: int| 0 <= a < next.len() implies (#[trigger] next[a]).describes(
            &post.areas()[a],
        ) by {
            if a < n {
                assert(post.areas().drop_last()[a] == self.areas()[a]);
                assert(done[a].describes(&self.areas()[a]));
                assert(next[a] == done[a]);
            }
        }
        assert forall|a: int, k: int|
            0 <= a < post.areas().len() && 0 <= k < post.areas()[a].data_frames@.len()
            implies post_mem.frame(#[trigger] post.areas()[a].data_frames@[k]) == zero_frame() by {
            if a < n {
                assert(post.areas().drop_last()[a] == self.areas()[a]);
                let p = self.areas()[a].data_frames@[k];
                assert(self.areas()[a].wf());
                if self.areas()[a].map_type == MapType::Framed {
                    assert(self.data_frames().contains(p));
                    assert(mem.frame(p) == zero_frame());
                }
            }
        }
    }

    /// An address space with the trampoline and the areas of a layout, the
    /// pages of framed areas in fresh zeroed frames. Fails when the areas
    /// overlap each other or the trampoline, or when the allocator holds too
    /// few frames; the frames taken until then are given back.
    pub fn build(
        alloc: &mut StackFrameAllocator,
        mem: &mut PhysMemory,
        trampoline_ppn: u64,
        layout: &Vec<AreaLayout>,
    ) -> (res: Result<MemorySet, MemError>)
        requires
            old(alloc)@.wf(),
            old(mem).wf(),
            old(alloc).within(old(mem)),
            trampoline_ppn < PPN_LIMIT,
            forall|i: int| 0 <= i < layout@.len() ==> (#[trigger] layout@[i]).wf(),
        ensures
            final(alloc)@.wf(),
            final(mem).wf(),
            final(alloc).within(final(mem)),
            old(mem).same_extent(final(mem)),
            final(alloc)@.base == old(alloc)@.base,
            final(alloc)@.end == old(alloc)@.end,
            match res {
                Ok(_) => Self::build_failure(layout@, old(alloc)@.free_count()) is None,
                Err(e) => Self::build_failure(layout@, old(alloc)@.free_count()) == Some(e),
            },
            res is Err ==> {
                &&& forall|p: u64| #[trigger]
                    final(alloc)@.is_allocated(p) <==> old(alloc)@.is_allocated(p)
                &&& forall|p: u64|
                    old(mem).contains(p) && old(alloc)@.is_allocated(p) ==> #[trigger] final(mem).frame(
                        p,
                    ) == old(mem).frame(p)
            },
            res is Ok ==> {
                let ms = res->Ok_0;
                &&& ms.wf(final(mem))
                &&& ms.owned_in(final(alloc)@)
                &&& ms.trampoline() == trampoline_ppn
                &&& ms.laid_out(layout@)
                &&& ms.blank(final(mem))
                &&& final(alloc)@.free_count() == old(alloc)@.free_count() - Cover::total(layout@)
                &&& final(alloc)@ == old(alloc)@.after_allocs(Cover::total(layout@))
                &&& forall|p: u64| #[trigger]
                    final(alloc)@.is_allocated(p) <==> old(alloc)@.is_allocated(p) || ms.owns(p)
                &&& forall|p: u64| #[trigger] ms.owns(p) ==> !old(alloc)@.is_allocated(p)
                &&& forall|p: u64|
                    old(mem).contains(p) && !ms.owns(p) ==> #[trigger] final(mem).frame(p) == old(mem).frame(p)
            },
    {
        let ghost mem0 = *mem;
        let ghost pool0 = alloc@;
        if !layout_disjoint(layout) {
            return Err(MemError::Overlap);
        }
        let mut ms = match Self::new_bare(alloc, mem, trampoline_ppn) {
            Ok(ms) => ms,
            Err(_) => {
                proof {
                    Cover::lemma_total_monotone(layout@, 0);
                    assert(layout@.take(0) =~= Seq::<AreaLayout>::empty());
                }
                return Err(MemError::OutOfFrames);
            },
        };
        proof {
            assert(layout@.take(0) =~= Seq::<AreaLayout>::empty());
            ms.lemma_wf(mem);
        }
        let mut i: usize = 0;
        while i < layout.len()
            invariant
                i <= layout@.len(),
                mem0 == *old(mem),
                pool0 == old(alloc)@,
                forall|a: int| 0 <= a < layout@.len() ==> (#[trigger] layout@[a]).wf(),
                !layout_overlaps(layout@),
                mem.wf(),
                ms.wf(mem),
                ms.owned_in(alloc@),
                alloc@.wf(),
                alloc.within(mem),
                mem0.same_extent(mem),
                alloc@.base == pool0.base,
                alloc@.end == pool0.end,
                ms.trampoline() == trampoline_ppn,
                ms.laid_out(layout@.take(i as int)),
                ms.blank(mem),
                Cover::of(&ms.table(), mem) == Cover::after(layout@.take(i as int)),
                alloc@.free_count() == pool0.free_count() - Cover::total(layout@.take(i as int)),
                alloc@ == pool0.after_allocs(Cover::total(layout@.take(i as int))),
                forall|p: u64| #[trigger]
                    alloc@.is_allocated(p) <==> pool0.is_allocated(p) || ms.owns(p),
                forall|p: u64| #[trigger] ms.owns(p) ==> !pool0.is_allocated(p),
                forall|p: u64|
                    mem0.contains(p) && !ms.owns(p) ==> #[trigger] mem.frame(p) == mem0.frame(p),
            decreases layout@.len() - i,
        {
            let area = layout[i];
            let ghost ms1 = ms;
            let ghost mem1 = *mem;
            let ghost pool1 = alloc@;
            let ghost done = layout@.take(i as int);
            let ghost next = layout@.take(i + 1);
            proof {
                assert(next.drop_last() =~= done);
                assert(next.last() == area);
                Cover::lemma_needed(
                    &ms1.table(),
                    &mem1,
                    area.start_vpn,
                    area.end_vpn,
                    frames_per_page(area.map_type),
                );
                Cover::lemma_total_monotone(layout@, i + 1);
                pool0.lemma_after_allocs_add(
                    Cover::total(done),
                    Cover::after(done).needed(
                        area.start_vpn,
                        area.end_vpn,
                        frames_per_page(area.map_type),
                    ),
                );
                ms1.lemma_wf(&mem1);
                ms1.lemma_next_area_free(&mem1, layout@, i as int);
            }
            match ms.push_area(alloc, mem, area.start_vpn, area.end_vpn, area.map_perm, area.map_type) {
                Ok(_) => {},
                Err(_) => {
                    ms.release(alloc, mem);
                    proof {
                        assert forall|p: u64| #[trigger]
                            alloc@.is_allocated(p) <==> pool0.is_allocated(p) by {
                            if ms1.owns(p) {
                                assert(!pool0.is_allocated(p));
                            }
                        }
                    }
                    return Err(MemError::OutOfFrames);
                },
            }
            proof {
                ms1.lemma_wf(&mem1);
                ms.lemma_wf(mem);
                ms1.lemma_area_pushed(&mem1, &ms, mem, layout@, i as int);
                assert forall|p: u64| #[trigger] ms.owns(p) implies !pool0.is_allocated(p) by {
                    if ms1.owns(p) {
                    }
                }
                assert forall|p: u64|
                    mem0.contains(p) && !ms.owns(p) implies #[trigger] mem.frame(p) == mem0.frame(p) by {
                    assert(!ms1.owns(p));
                    assert(mem1.frame(p) == mem0.frame(p));
                }
            }
            i += 1;
        }
        proof {
            assert(layout@.take(i as int) =~= layout@);
        }
        Ok(ms)
    }

    /// The shapes of the recorded areas, in order.
    pub open spec fn layout(&self) -> Seq<AreaLayout> {
        Seq::new(
            self.areas().len(),
            |i: int|
                AreaLayout {
                    start_vpn: self.areas()[i].start_vpn,
                    end_vpn: self.areas()[i].end_vpn,
                    map_type: self.areas()[i].map_type,
                    map_perm: self.areas()[i].map_perm,
                },
        )
    }

    /// The shapes of the areas of a well-formed address space are well
    /// formed, and overlap neither each other nor the trampoline.
    pub proof fn lemma_layout(&self, mem: &PhysMemory)
        requires
            self.wf(mem),
        ensures
            forall|i: int| 0 <= i < self.layout().len() ==> (#[trigger] self.layout()[i]).wf(),
            !layout_overlaps(self.layout()),
            self.laid_out(self.layout()),
    {
        let layout = self.layout();
        assert forall|i: int| 0 <= i < layout.len() implies (#[trigger] layout[i]).wf() by {
            assert(self.areas@[i].wf());
        }
        if layout_overlaps(layout) {
            let (i, v) = choose|i: int, v: u64|
                0 <= i < layout.len() && #[trigger] layout[i].contains_vpn(v) && (v == TRAMPOLINE_VPN
                    || layout_covers(layout, i, v));
            assert(self.areas@[i].wf());
            assert(self.areas@[i].contains_vpn(v));
            if layout_covers(layout, i, v) {
                let j = choose|j: int| 0 <= j < i && j < layout.len() && #[trigger] layout[j].contains_vpn(v);
                assert(self.areas@[j].contains_vpn(v));
            }
            assert(false);
        }
    }

    fn layout_vec(&self, mem: &PhysMemory) -> (out: Vec<AreaLayout>)
        requires
            self.wf(mem),
        ensures
            out@ == self.layout(),
    {
        let mut out: Vec<AreaLayout> = Vec::new();
        let mut i: usize = 0;
        while i < self.areas.len()
            invariant
                i <= self.areas@.len(),
                out@.len() == i,
                forall|k: int| 0 <= k < i ==> #[trigger] out@[k] == self.layout()[k],
            decreases self.areas@.len() - i,
        {
            let a = &self.areas[i];
            out.push(
                AreaLayout {
                    start_vpn: a.start_vpn,
                    end_vpn: a.end_vpn,
                    map_type: a.map_type,
                    map_perm: a.map_perm,
                },
            );
            i += 1;
        }
        assert(out@ =~= self.layout());
        out
    }

    /// Whether each frame of the framed areas of `self` holds in `mem` what
    /// the frame of the same page of `source` holds in `source_mem`.
    pub open spec fn mirrors(
        &self,
        mem: &PhysMemory,
        source: &MemorySet,
        source_mem: &PhysMemory,
        upto: int,
    ) -> bool {
        forall|i: int, k: int|
            0 <= i < upto && i < self.areas().len() && 0 <= k < self.areas()[i].data_frames@.len()
                ==> mem.frame(#[trigger] self.areas()[i].data_frames@[k]) == source_mem.frame(
                source.areas()[i].data_frames@[k],
            )
    }

    /// A copy of the address space `parent`: the same areas with the same
    /// permissions, each page of a framed area in a fresh frame with the
    /// bytes of the parent's. Fails when the allocator holds too few
    /// frames; the frames taken until then are given back.
    pub fn from_existed_user(
        alloc: &mut StackFrameAllocator,
        mem: &mut PhysMemory,
        parent: &MemorySet,
    ) -> (res: Result<MemorySet, MemError>)
        requires
            parent.wf(old(mem)),
            parent.owned_in(old(alloc)@),
            old(alloc)@.wf(),
            old(alloc).within(old(mem)),
        ensures
            final(alloc)@.wf(),
            final(mem).wf(),
            final(alloc).within(final(mem)),
            old(mem).same_extent(final(mem)),
            final(alloc)@.base == old(alloc)@.base,
            final(alloc)@.end == old(alloc)@.end,
            parent.wf(final(mem)),
            forall|p: u64|
                old(mem).contains(p) && old(alloc)@.is_allocated(p) ==> #[trigger] final(mem).frame(p)
                    == old(mem).frame(p),
            res is Err <==> old(alloc)@.free_count() < Cover::total(parent.layout()),
            res is Err ==> res == Err::<MemorySet, MemError>(MemError::OutOfFrames) && forall|p: u64| #[trigger]
                final(alloc)@.is_allocated(p) <==> old(alloc)@.is_allocated(p),
            res is Ok ==> {
                let child = res->Ok_0;
                &&& child.wf(final(mem))
                &&& child.owned_in(final(alloc)@)
                &&& child.trampoline() == parent.trampoline()
                &&& child.laid_out(parent.layout())
                &&& child.mirrors(final(mem), parent, old(mem), child.areas().len() as int)
                &&& final(alloc)@.free_count() == old(alloc)@.free_count() - Cover::total(
                    parent.layout(),
                )
                &&& final(alloc)@ == old(alloc)@.after_allocs(Cover::total(parent.layout()))
                &&& forall|p: u64| #[trigger]
                    final(alloc)@.is_allocated(p) <==> old(alloc)@.is_allocated(p) || child.owns(p)
                &&& forall|p: u64| #[trigger] child.owns(p) ==> !old(alloc)@.is_allocated(p)
                &&& forall|p: u64|
                    old(mem).contains(p) && !child.owns(p) ==> #[trigger] final(mem).frame(p) == old(mem).frame(p)
            },
    {
        let ghost mem0 = *mem;
        let ghost pool0 = alloc@;
        proof {
            parent.lemma_wf(&mem0);
            parent.lemma_layout(&mem0);
        }
        let layout = parent.layout_vec(mem);
        let child = match Self::build(alloc, mem, parent.trampoline_ppn, &layout) {
            Ok(ms) => ms,
            Err(e) => {
                proof {
                    assert forall|t: u64| #[trigger] parent.table().nodes().contains(t) implies mem.frame(
                        t,
                    ) == mem0.frame(t) by {
                        assert(parent.owns(t));
                    }
                    parent.lemma_frame_invariance(&mem0, mem);
                }
                return Err(MemError::OutOfFrames);
            },
        };
        let ghost mem1 = *mem;
        proof {
            assert forall|t: u64| #[trigger] parent.table().nodes().contains(t) implies mem1.frame(t)
                == mem0.frame(t) by {
                assert(parent.owns(t));
            }
            parent.lemma_frame_invariance(&mem0, &mem1);
            child.lemma_wf(&mem1);
        }
        child.mirror(mem, parent, Ghost(mem0), Ghost(pool0));
        proof {
            child.lemma_wf(mem);
            assert forall|p: u64| mem0.contains(p) && !child.owns(p) implies #[trigger] mem.frame(p)
                == mem0.frame(p) by {
                assert(mem1.frame(p) == mem0.frame(p));
                assert(mem.frame(p) == mem1.frame(p));
            }
            assert forall|p: u64| mem0.contains(p) && pool0.is_allocated(p) implies #[trigger] mem.frame(
                p,
            ) == mem0.frame(p) by {
                assert(!child.owns(p));
            }
        }
        Ok(child)
    }

    /// Copies into each frame of the framed areas the bytes of the frame of
    /// the same page of `parent`.
    fn mirror(
        &self,
        mem: &mut PhysMemory,
        parent: &MemorySet,
        Ghost(mem0): Ghost<PhysMemory>,
        Ghost(pool0): Ghost<FramePool>,
    )
        requires
            self.wf(old(mem)),
            parent.wf(old(mem)),
            parent.wf(&mem0),
            parent.owned_in(pool0),
            mem0.same_extent(old(mem)),
            self.laid_out(parent.layout()),
            forall|p: u64| #[trigger] self.owns(p) ==> !pool0.is_allocated(p),
            forall|p: u64|
                mem0.contains(p) && !self.owns(p) ==> #[trigger] old(mem).frame(p) == mem0.frame(p),
        ensures
            self.wf(final(mem)),
            parent.wf(final(mem)),
            old(mem).same_extent(final(mem)),
            forall|p: u64|
                old(mem).contains(p) && !self.data_frames().contains(p) ==> #[trigger] final(mem).frame(
                    p,
                ) == old(mem).frame(p),
            self.mirrors(final(mem), parent, &mem0, self.areas().len() as int),
    {
        let ghost mem1 = *mem;
        let child = self;
        let mut i: usize = 0;
        while i < child.areas.len()
            invariant
                i <= child.areas@.len(),
                child.wf(mem),
                child.wf(&mem1),
                parent.wf(mem),
                parent.wf(&mem0),
                parent.owned_in(pool0),
                mem1.same_extent(mem),
                mem0.same_extent(&mem1),
                child.laid_out(parent.layout()),
                forall|p: u64| #[trigger] child.owns(p) ==> !pool0.is_allocated(p),
                forall|p: u64|
                    mem0.contains(p) && !child.owns(p) ==> #[trigger] mem1.frame(p) == mem0.frame(p),
                forall|p: u64|
                    mem1.contains(p) && !child.data_frames().contains(p) ==> #[trigger] mem.frame(p)
                        == mem1.frame(p),
                child.mirrors(mem, parent, &mem0, i as int),
            decreases child.areas@.len() - i,
        {
            let ghost mem2 = *mem;
            proof {
                parent.lemma_wf(&mem2);
                child.lemma_wf(&mem2);
                parent.lemma_wf(&mem0);
                assert(parent.layout()[i as int].describes(&child.areas()[i as int]));
                assert(parent.areas()[i as int].wf());
                assert(child.areas()[i as int].wf());
            }
            match child.areas[i].map_type {
                MapType::Framed => {
                    proof {
                        child.lemma_copy_ready(&mem2, parent, pool0, i as int);
                    }
                    copy_frames(mem, &parent.areas[i].data_frames, &child.areas[i].data_frames);
                },
                MapType::Identical => {},
            }
            proof {
                child.lemma_copied(&mem1, &mem2, mem, parent, &mem0, pool0, i as int);
            }
            i += 1;
        }
    }

    /// The frames of an area of a fresh copy can take the bytes of the
    /// frames of the same area of the parent: they are distinct frames of
    /// the memory, and none is a frame of the parent.
    proof fn lemma_copy_ready(&self, mem: &PhysMemory, parent: &MemorySet, pool0: FramePool, i: int)
        requires
            self.wf(mem),
            parent.wf(mem),
            parent.owned_in(pool0),
            forall|p: u64| #[trigger] self.owns(p) ==> !pool0.is_allocated(p),
            self.laid_out(parent.layout()),
            0 <= i < self.areas().len(),
            self.areas()[i].map_type == MapType::Framed,
        ensures
            ({
                let src = parent.areas()[i].data_frames@;
                let dst = self.areas()[i].data_frames@;
                &&& src.len() == dst.len()
                &&& dst.no_duplicates()
                &&& forall|k: int| 0 <= k < src.len() ==> mem.contains(#[trigger] src[k])
                &&& forall|k: int| 0 <= k < dst.len() ==> mem.contains(#[trigger] dst[k])
                &&& forall|k: int, l: int|
                    0 <= k < src.len() && 0 <= l < dst.len() ==> #[trigger] src[k] != #[trigger] dst[l]
            }),
    {
        let src = parent.areas()[i].data_frames@;
        let dst = self.areas()[i].data_frames@;
        self.lemma_wf(mem);
        parent.lemma_wf(mem);
        assert(parent.layout()[i].describes(&self.areas()[i]));
        assert(parent.areas()[i].wf());
        assert(self.areas()[i].wf());
        assert forall|a: int, b: int| 0 <= a < dst.len() && 0 <= b < dst.len() && a != b implies dst[a]
            != dst[b] by {
            if dst[a] == dst[b] {
                self.lemma_frames_distinct(mem, i, a, i, b);
            }
        }
        assert forall|k: int| 0 <= k < src.len() implies mem.contains(#[trigger] src[k]) by {
            assert(parent.data_frames().contains(parent.areas()[i].data_frames@[k]));
            assert(parent.owns(src[k]));
        }
        assert forall|k: int| 0 <= k < dst.len() implies mem.contains(#[trigger] dst[k]) by {
            assert(self.data_frames().contains(self.areas()[i].data_frames@[k]));
            assert(self.owns(dst[k]));
        }
        assert forall|k: int, l: int| 0 <= k < src.len() && 0 <= l < dst.len() implies #[trigger] src[k]
            != #[trigger] dst[l] by {
            assert(parent.data_frames().contains(parent.areas()[i].data_frames@[k]));
            assert(parent.owns(src[k]));
            assert(self.data_frames().contains(self.areas()[i].data_frames@[l]));
            assert(self.owns(dst[l]));
        }
    }

    /// Copying the frames of one more area keeps both address spaces well
    /// formed and extends what the copy mirrors.
    proof fn lemma_copied(
        &self,
        built: &PhysMemory,
        before: &PhysMemory,
        after: &PhysMemory,
        parent: &MemorySet,
        origin: &PhysMemory,
        pool0: FramePool,
        i: int,
    )
        requires
            self.wf(before),
            self.wf(built),
            parent.wf(before),
            parent.wf(origin),
            parent.owned_in(pool0),
            after.wf(),
            before.same_extent(after),
            built.same_extent(before),
            origin.same_extent(built),
            forall|p: u64| #[trigger] self.owns(p) ==> !pool0.is_allocated(p),
            forall|p: u64|
                origin.contains(p) && !self.owns(p) ==> #[trigger] built.frame(p) == origin.frame(p),
            forall|p: u64|
                built.contains(p) && !self.data_frames().contains(p) ==> #[trigger] before.frame(p)
                    == built.frame(p),
            self.laid_out(parent.layout()),
            0 <= i < self.areas().len(),
            self.mirrors(before, parent, origin, i),
            self.areas()[i].map_type == MapType::Identical ==> *after == *before,
            self.areas()[i].map_type == MapType::Framed ==> {
                let src = parent.areas()[i].data_frames@;
                let dst = self.areas()[i].data_frames@;
                &&& forall|k: int| 0 <= k < dst.len() ==> after.frame(#[trigger] dst[k]) == before.frame(
                    src[k],
                )
                &&& forall|p: u64|
                    before.contains(p) && !dst.contains(p) ==> #[trigger] after.frame(p) == before.frame(
                        p,
                    )
            },
        ensures
            self.wf(after),
            parent.wf(after),
            self.mirrors(after, parent, origin, i + 1),
            forall|p: u64|
                built.contains(p) && !self.data_frames().contains(p) ==> #[trigger] after.frame(p)
                    == built.frame(p),
    {
        self.lemma_wf(before);
        parent.lemma_wf(before);
        parent.lemma_wf(origin);
        assert(parent.layout()[i].describes(&self.areas()[i]));
        assert(self.areas()[i].wf());
        assert(parent.areas()[i].wf());
        let dst = self.areas()[i].data_frames@;
        let src = parent.areas()[i].data_frames@;
        assert forall|p: u64| dst.contains(p) implies self.data_frames().contains(p) by {
            let k = choose|k: int| 0 <= k < dst.len() && dst[k] == p;
            assert(self.data_frames().contains(self.areas()[i].data_frames@[k]));
        }
        assert forall|t: u64| #[trigger] self.table().nodes().contains(t) implies after.frame(t)
            == before.frame(t) by {
            assert(self.owns(t));
        }
        assert forall|t: u64| #[trigger] parent.table().nodes().contains(t) implies after.frame(t)
            == before.frame(t) by {
            assert(parent.owns(t));
            if dst.contains(t) {
                assert(self.owns(t));
            }
        }
        self.lemma_frame_invariance(before, after);
        parent.lemma_frame_invariance(before, after);
        assert forall|p: u64|
            built.contains(p) && !self.data_frames().contains(p) implies #[trigger] after.frame(p)
            == built.frame(p) by {
            assert(before.frame(p) == built.frame(p));
        }
        assert forall|a: int, k: int|
            0 <= a < i + 1 && a < self.areas().len() && 0 <= k < self.areas()[a].data_frames@.len()
            implies after.frame(#[trigger] self.areas()[a].data_frames@[k]) == origin.frame(
            parent.areas()[a].data_frames@[k],
        ) by {
            let p = self.areas()[a].data_frames@[k];
            assert(parent.layout()[a].describes(&self.areas()[a]));
            assert(self.areas()[a].wf());
            assert(parent.areas()[a].wf());
            if self.areas()[a].map_type == MapType::Framed {
                if a < i {
                    if dst.contains(p) {
                        let l = choose|l: int| 0 <= l < dst.len() && dst[l] == p;
                        self.lemma_frames_distinct(before, a, k, i, l);
                    }
                    assert(after.frame(p) == before.frame(p));
                } else {
                    let q = parent.areas()[a].data_frames@[k];
                    assert(parent.data_frames().contains(q));
                    assert(parent.owns(q));
                    assert(!self.owns(q));
                    assert(built.frame(q) == origin.frame(q));
                    assert(before.frame(q) == built.frame(q));
                }
            }
        }
    }

    /// The permission mask of the first recorded area with exactly the
    /// pages of `[start_va, end_va)`, if there is one.
    pub fn area_perm(&self, start_va: u64, end_va: u64) -> (perm: Option<u8>)
        ensures
            match self.find_area(
                Self::page_range(start_va, end_va).0,
                Self::page_range(start_va, end_va).1,
            ) {
                Some(i) => perm == Some(self.areas()[i].map_perm) && self.area_is(
                    i,
                    Self::page_range(start_va, end_va).0,
                    Self::page_range(start_va, end_va).1,
                ),
                None => perm is None,
            },
    {
        let start = floor(virt_addr(start_va));
        let end = ceil(virt_addr(end_va));
        match self.position(start, end) {
            Some(i) => Some(self.areas[i].map_perm),
            None => None,
        }
    }

    /// The frame that the mapped page `vpn` is mapped to.
    pub fn frame_of(&self, mem: &PhysMemory, vpn: u64) -> (ppn: Option<u64>)
        requires
            self.wf(mem),
        ensures
            match self.mapping(mem, vpn) {
                Some(entry) => ppn == Some(entry.ppn()),
                None => ppn is None,
            },
    {
        match self.page_table.translate(mem, vpn) {
            Some(entry) => if entry.is_valid() {
                Some(entry.ppn())
            } else {
                None
            },
            None => None,
        }
    }

    /// The frame of a mapped page of a framed area is a frame of the
    /// areas, and no node of the page table.
    pub proof fn lemma_mapped_frame_not_node(&self, mem: &PhysMemory, vpn: u64)
        requires
            self.wf(mem),
            vpn < VPN_LIMIT,
            vpn != TRAMPOLINE_VPN,
            self.mapping(mem, vpn) is Some,
            self.framed_at(vpn),
        ensures
            self.data_frames().contains(self.mapping(mem, vpn)->0.ppn()),
            !self.table().nodes().contains(self.mapping(mem, vpn)->0.ppn()),
            self.page_of(self.mapping(mem, vpn)->0.ppn()) == vpn,
    {
        self.lemma_wf(mem);
        let i = choose|i: int|
            0 <= i < self.areas().len() && #[trigger] self.areas()[i].contains_vpn(vpn)
                && self.areas()[i].map_type == MapType::Framed;
        let a = self.areas@[i];
        assert(a.wf());
        let p = a.data_frames@[vpn - a.start_vpn];
        assert(self.backing@.dom().contains(p));
        assert(mem.contains(p));
        mem.lemma_frame_len(p);
        PageTableEntry::lemma_fields(p, with_valid(a.map_perm));
    }

    /// Whether a framed area contains the page `vpn`.
    pub open spec fn framed_at(&self, vpn: u64) -> bool {
        exists|i: int|
            0 <= i < self.areas().len() && #[trigger] self.areas()[i].contains_vpn(vpn)
                && self.areas()[i].map_type == MapType::Framed
    }

    /// Whether `after` is this address space once a framed area over the
    /// pages `[start, end)` with the permission mask `perm` was inserted:
    /// the memories and the pools before and after are given along.
    pub open spec fn inserted(
        &self,
        mem: &PhysMemory,
        pool: FramePool,
        after: &MemorySet,
        after_mem: &PhysMemory,
        after_pool: FramePool,
        start: u64,
        end: u64,
        perm: u8,
    ) -> bool {
        let area = after.areas().last();
        &&& !self.any_mapped(mem, start, end)
        &&& after.wf(after_mem)
        &&& after_pool.wf()
        &&& after.owned_in(after_pool)
        &&& mem.same_extent(after_mem)
        &&& after_pool.base == pool.base
        &&& after_pool.end == pool.end
        &&& after.trampoline() == self.trampoline()
        &&& after.table().root() == self.table().root()
        &&& after.areas().len() == self.areas().len() + 1
        &&& after.areas().drop_last() == self.areas()
        &&& area.start_vpn == start
        &&& area.end_vpn == end
        &&& area.map_type == MapType::Framed
        &&& area.map_perm == perm
        &&& after_pool.free_count() == pool.free_count() - frames_needed(
            &self.table(),
            mem,
            start,
            end,
            1,
        )
        &&& after_pool == pool.after_allocs(frames_needed(&self.table(), mem, start, end, 1))
        &&& forall|p: u64| #[trigger] after_pool.is_allocated(p) <==> pool.is_allocated(p) || after.owns(p)
        &&& forall|p: u64| #[trigger] self.owns(p) ==> after.owns(p)
        &&& forall|p: u64| #[trigger] after.owns(p) ==> self.owns(p) || !pool.is_allocated(p)
        &&& forall|p: u64|
            mem.contains(p) && !after.owns(p) ==> #[trigger] after_mem.frame(p) == mem.frame(p)
        &&& forall|p: u64| #[trigger]
            self.data_frames().contains(p) ==> after_mem.frame(p) == mem.frame(p)
        &&& forall|k: int|
            0 <= k < area.data_frames@.len() ==> after_mem.frame(#[trigger] area.data_frames@[k])
                == zero_frame()
        &&& forall|k: int|
            0 <= k < area.data_frames@.len() ==> !pool.is_allocated(#[trigger] area.data_frames@[k])
        &&& area.data_frames@.no_duplicates()
        &&& forall|v: u64|
            v < VPN_LIMIT ==> #[trigger] after.mapping(after_mem, v) == if start <= v < end {
                Some(area.entry(v))
            } else {
                self.mapping(mem, v)
            }
    }

    /// Whether `after` is this address space once the area with the index
    /// `idx` was unmapped and its frames were given back.
    pub open spec fn removed(
        &self,
        mem: &PhysMemory,
        pool: FramePool,
        after: &MemorySet,
        after_mem: &PhysMemory,
        after_pool: FramePool,
        idx: int,
    ) -> bool {
        let area = self.areas()[idx];
        &&& after.wf(after_mem)
        &&& after_pool.wf()
        &&& after.owned_in(after_pool)
        &&& mem.same_extent(after_mem)
        &&& after_pool.base == pool.base
        &&& after_pool.end == pool.end
        &&& after.trampoline() == self.trampoline()
        &&& after.table() == self.table()
        &&& after.areas() == self.areas().remove(idx)
        &&& after_pool == (FramePool { recycled: pool.recycled + area.data_frames@, ..pool })
        &&& after_pool.free_count() == pool.free_count() + area.data_frames@.len()
        &&& forall|p: u64| #[trigger]
            after_pool.is_allocated(p) <==> pool.is_allocated(p) && !area.data_frames@.contains(p)
        &&& forall|p: u64| #[trigger] after.owns(p) <==> self.owns(p) && !area.data_frames@.contains(p)
        &&& forall|p: u64|
            mem.contains(p) && !self.table().nodes().contains(p) ==> #[trigger] after_mem.frame(p)
                == mem.frame(p)
        &&& forall|v: u64|
            v < VPN_LIMIT ==> #[trigger] after.mapping(after_mem, v) == if area.start_vpn <= v
                < area.end_vpn {
                None
            } else {
                self.mapping(mem, v)
            }
    }

    /// An address space laid out as another maps the same pages with the
    /// same flags, a page of a framed area to the frame that its area holds
    /// for it.
    pub proof fn lemma_copy_alike(
        &self,
        mem: &PhysMemory,
        parent: &MemorySet,
        parent_mem: &PhysMemory,
        vpn: u64,
    )
        requires
            self.wf(mem),
            parent.wf(parent_mem),
            self.laid_out(parent.layout()),
            self.trampoline() == parent.trampoline(),
            vpn < VPN_LIMIT,
        ensures
            self.mapping(mem, vpn) is Some <==> parent.mapping(parent_mem, vpn) is Some,
            self.mapping(mem, vpn) is Some ==> self.mapping(mem, vpn)->0.flags() == parent.mapping(
                parent_mem,
                vpn,
            )->0.flags(),
            self.framed_at(vpn) <==> parent.framed_at(vpn),
            self.framed_at(vpn) ==> exists|i: int, k: int|
                0 <= i < self.areas().len() && 0 <= k < self.areas()[i].data_frames@.len()
                    && #[trigger] self.areas()[i].data_frames@[k] == self.mapping(mem, vpn)->0.ppn()
                    && parent.areas()[i].data_frames@[k] == parent.mapping(parent_mem, vpn)->0.ppn(),
    {
        self.lemma_wf(mem);
        parent.lemma_wf(parent_mem);
        let layout = parent.layout();
        PageTableEntry::lemma_fields(self.trampoline(), with_valid(TRAMPOLINE_FLAGS));
        assert forall|i: int| 0 <= i < self.areas().len() implies self.areas()[i].contains_vpn(vpn)
            == parent.areas()[i].contains_vpn(vpn) && self.areas()[i].map_type
            == parent.areas()[i].map_type && self.areas()[i].map_perm == parent.areas()[i].map_perm
            && self.areas()[i].start_vpn == parent.areas()[i].start_vpn by {
            assert(layout[i].describes(&self.areas()[i]));
        }
        if self.covered(vpn) {
            let i = choose|i: int| 0 <= i < self.areas().len() && #[trigger] self.areas()[i].contains_vpn(vpn);
            assert(parent.areas()[i].contains_vpn(vpn));
            let a = self.areas()[i];
            let b = parent.areas()[i];
            assert(a.wf() && b.wf());
            assert(self.mapping(mem, vpn) == Some(a.entry(vpn)));
            assert(parent.mapping(parent_mem, vpn) == Some(b.entry(vpn)));
            lemma_vpn_is_ppn(vpn);
            if a.map_type == MapType::Framed {
                let k = vpn - a.start_vpn;
                assert(self.data_frames().contains(a.data_frames@[k]));
                assert(parent.data_frames().contains(b.data_frames@[k]));
                assert(self.owns(a.data_frames@[k]));
                assert(parent.owns(b.data_frames@[k]));
                mem.lemma_frame_len(a.data_frames@[k]);
                parent_mem.lemma_frame_len(b.data_frames@[k]);
                PageTableEntry::lemma_fields(a.data_frames@[k], with_valid(a.map_perm));
                PageTableEntry::lemma_fields(b.data_frames@[k], with_valid(b.map_perm));
                assert(self.areas()[i].data_frames@[k] == self.mapping(mem, vpn)->0.ppn());
            } else {
                PageTableEntry::lemma_fields(vpn, with_valid(a.map_perm));
            }
        }
        if parent.covered(vpn) {
            let i = choose|i: int|
                0 <= i < parent.areas().len() && #[trigger] parent.areas()[i].contains_vpn(vpn);
            assert(self.areas()[i].contains_vpn(vpn));
        }
        if self.framed_at(vpn) {
            let i = choose|i: int|
                0 <= i < self.areas().len() && #[trigger] self.areas()[i].contains_vpn(vpn)
                    && self.areas()[i].map_type == MapType::Framed;
            assert(parent.areas()[i].contains_vpn(vpn));
            let j = choose|j: int| 0 <= j < self.areas().len() && #[trigger] self.areas()[j].contains_vpn(vpn);
            assert(i == j);
        }
        if parent.framed_at(vpn) {
            let i = choose|i: int|
                0 <= i < parent.areas().len() && #[trigger] parent.areas()[i].contains_vpn(vpn)
                    && parent.areas()[i].map_type == MapType::Framed;
            assert(self.areas()[i].contains_vpn(vpn));
        }
    }

    /// The snapshot that a copy of an address space holds: at every user
    /// address, the copy has the byte that the parent had when it was
    /// copied, or none where the parent had none.
    pub proof fn lemma_copy_snapshot(
        &self,
        mem: &PhysMemory,
        parent: &MemorySet,
        parent_mem: &PhysMemory,
        va: u64,
    )
        requires
            self.wf(mem),
            parent.wf(parent_mem),
            self.laid_out(parent.layout()),
            self.trampoline() == parent.trampoline(),
            self.mirrors(mem, parent, parent_mem, self.areas().len() as int),
        ensures
            self.user_byte(mem, va) == parent.user_byte(parent_mem, va),
    {
        let vpn = vpn_of(va);
        self.lemma_copy_alike(mem, parent, parent_mem, vpn);
        if self.user_frame(mem, va) is Some {
            self.lemma_user_frame(mem, va);
            assert(parent.user_frame(parent_mem, va) is Some);
            parent.lemma_user_frame(parent_mem, va);
            self.lemma_wf(mem);
            assert(self.covered(vpn)) by {
                PageTableEntry::lemma_fields(self.trampoline(), with_valid(TRAMPOLINE_FLAGS));
            }
            let j = choose|j: int| 0 <= j < self.areas().len() && #[trigger] self.areas()[j].contains_vpn(vpn);
            assert(self.areas()[j].wf());
            assert(self.mapping(mem, vpn) == Some(self.areas()[j].entry(vpn)));
            lemma_vpn_is_ppn(vpn);
            if self.areas()[j].map_type == MapType::Identical {
                PageTableEntry::lemma_fields(vpn, with_valid(self.areas()[j].map_perm));
                assert(false);
            }
            assert(self.framed_at(vpn));
            let (i, k) = choose|i: int, k: int|
                0 <= i < self.areas().len() && 0 <= k < self.areas()[i].data_frames@.len()
                    && #[trigger] self.areas()[i].data_frames@[k] == self.mapping(mem, vpn)->0.ppn()
                    && parent.areas()[i].data_frames@[k] == parent.mapping(parent_mem, vpn)->0.ppn();
            assert(mem.frame(self.areas()[i].data_frames@[k]) == parent_mem.frame(
                parent.areas()[i].data_frames@[k],
            ));
        }
    }

    /// The frame of the trampoline.
    pub fn trampoline_ppn(&self) -> (ppn: u64)
        ensures
            ppn == self.trampoline(),
    {
        self.trampoline_ppn
    }

    /// Number of recorded areas.
    pub fn area_count(&self) -> (n: usize)
        ensures
            n == self.areas().len(),
    {
        self.areas.len()
    }

    /// The recorded area with the index `i`.
    pub fn area(&self, i: usize) -> (area: &MapArea)
        requires
            i < self.areas().len(),
        ensures
            *area == self.areas()[i as int],
    {
        &self.areas[i]
    }

    /// The value of `satp` that selects this address space.
    pub fn token(&self, mem: &PhysMemory) -> (satp: u64)
        requires
            self.wf(mem),
        ensures
            satp == self.spec_token(),
    {
        self.page_table.token(mem)
    }

    /// Looks up the leaf entry for `vpn`, valid or not; `None` where a node
    /// of the page table on the way to it is missing.
    pub fn translate(&self, mem: &PhysMemory, vpn: u64) -> (entry: Option<PageTableEntry>)
        requires
            self.wf(mem),
        ensures
            entry == self.table().walk(mem, vpn),
    {
        self.page_table.translate(mem, vpn)
    }
}


/// Mapping more pages never takes fewer frames.
proof fn lemma_frames_needed_monotone(
    pt: &PageTable,
    mem: &PhysMemory,
    start: u64,
    mid: u64,
    end: u64,
    per_page: nat,
)
    requires
        start <= mid <= end,
    ensures
        frames_needed(pt, mem, start, mid, per_page) <= frames_needed(pt, mem, start, end, per_page),
    decreases end - mid,
{
    if mid < end {
        lemma_frames_needed_monotone(pt, mem, start, mid, (end - 1) as u64, per_page);
    }
}

/// Checks that no page of `[start, end)` is mapped, and counts the frames
/// that mapping them takes.
fn survey(pt: &PageTable, mem: &PhysMemory, start: u64, end: u64, map_type: MapType) -> (res: Option<
    u64,
>)
    requires
        pt.wf(mem),
        start <= end <= VPN_LIMIT,
    ensures
        res is None <==> exists|v: u64| start <= v < end && pt.is_mapped(mem, v),
        res is Some ==> res->0 == frames_needed(pt, mem, start, end, frames_per_page(map_type)),
{
    let per_page: u64 = match map_type {
        MapType::Framed => 1,
        MapType::Identical => 0,
    };
    let mut count: u64 = 0;
    let mut v: u64 = start;
    while v < end
        invariant
            pt.wf(mem),
            start <= v <= end <= VPN_LIMIT,
            per_page == frames_per_page(map_type),
            count == frames_needed(pt, mem, start, v, per_page as nat),
            count <= 3 * (v - start),
            forall|u: u64| start <= u < v ==> !pt.is_mapped(mem, u),
        decreases end - v,
    {
        let valid = match pt.translate(mem, v) {
            Some(entry) => entry.is_valid(),
            None => false,
        };
        if valid {
            assert(start <= v < end && pt.is_mapped(mem, v));
            return None;
        }
        let missing = pt.count_missing(mem, v);
        let first1 = v == start || v / ENTRIES / ENTRIES != (v - 1) / ENTRIES / ENTRIES;
        let first0 = v == start || v / ENTRIES != (v - 1) / ENTRIES;
        let fresh: u64 = if first1 {
            missing
        } else if first0 {
            if missing >= 1 {
                1
            } else {
                0
            }
        } else {
            0
        };
        assert(fresh == fresh_tables(pt, mem, start, v));
        count = count + per_page + fresh;
        v = v + 1;
    }
    Some(count)
}

/// Maps one page: to itself in an identical area, to a fresh zeroed frame
/// in a framed one.
fn map_page(
    pt: &mut PageTable,
    alloc: &mut StackFrameAllocator,
    mem: &mut PhysMemory,
    vpn: u64,
    perm: u8,
    map_type: MapType,
) -> (frame: u64)
    requires
        old(pt).wf(old(mem)),
        old(alloc)@.wf(),
        old(alloc).within(old(mem)),
        old(pt).owned_in(old(alloc)@),
        vpn < VPN_LIMIT,
        !old(pt).is_mapped(old(mem), vpn),
        old(alloc)@.free_count() >= frames_per_page(map_type) + old(pt).missing_tables(
            old(mem),
            vpn,
        ),
    ensures
        final(pt).wf(final(mem)),
        final(alloc)@.wf(),
        final(alloc).within(final(mem)),
        final(pt).owned_in(final(alloc)@),
        final(pt).root() == old(pt).root(),
        old(mem).same_extent(final(mem)),
        final(alloc)@.base == old(alloc)@.base,
        final(alloc)@.end == old(alloc)@.end,
        final(alloc)@.free_count() == old(alloc)@.free_count() - frames_per_page(map_type) - old(pt).missing_tables(old(mem), vpn),
        final(alloc)@ == old(alloc)@.after_allocs(
            frames_per_page(map_type) + old(pt).missing_tables(old(mem), vpn),
        ),
        frame < PPN_LIMIT,
        map_type == MapType::Identical ==> frame == vpn,
        map_type == MapType::Framed ==> {
            &&& !old(alloc)@.is_allocated(frame)
            &&& final(alloc)@.is_allocated(frame)
            &&& old(mem).contains(frame)
            &&& !final(pt).nodes().contains(frame)
            &&& final(mem).frame(frame) == zero_frame()
        },
        forall|p: u64| #[trigger]
            final(alloc)@.is_allocated(p) <==> old(alloc)@.is_allocated(p) || final(pt).nodes().contains(
                p,
            ) || (map_type == MapType::Framed && p == frame),
        forall|p: u64| #[trigger] old(pt).nodes().contains(p) ==> final(pt).nodes().contains(p),
        forall|p: u64| #[trigger]
            final(pt).nodes().contains(p) ==> old(pt).nodes().contains(p) || !old(alloc)@.is_allocated(p),
        forall|p: u64|
            old(mem).contains(p) && !final(pt).nodes().contains(p) && !(map_type == MapType::Framed
                && p == frame) ==> #[trigger] final(mem).frame(p) == old(mem).frame(p),
        forall|v: u64|
            v < VPN_LIMIT ==> #[trigger] final(pt).mapping(final(mem), v) == if v == vpn {
                Some(PageTableEntry::spec_new(frame, with_valid(perm)))
            } else {
                old(pt).mapping(old(mem), v)
            },
        forall|v: u64|
            v < VPN_LIMIT ==> ((#[trigger] final(pt).table1(final(mem), v)) is Some <==> old(pt).table1(
                old(mem),
                v,
            ) is Some || v / ENTRIES / ENTRIES == vpn / ENTRIES / ENTRIES),
        forall|v: u64|
            v < VPN_LIMIT ==> ((#[trigger] final(pt).table0(final(mem), v)) is Some <==> old(pt).table0(
                old(mem),
                v,
            ) is Some || v / ENTRIES == vpn / ENTRIES),
{
    let ghost pt0 = *pt;
    let ghost mem0 = *mem;
    let ghost pool0 = alloc@;
    proof {
        pt0.lemma_nodes(&mem0);
        pool0.lemma_alloc();
    }
    let frame = match map_type {
        MapType::Identical => vpn,
        MapType::Framed => {
            let got = frame_alloc(alloc, mem);
            proof {
                assert forall|p: u64| #[trigger]
                    alloc@.is_allocated(p) <==> pool0.is_allocated(p) || p == got->0 by {
                    assert(alloc@.allocated().contains(p) == pool0.allocated().insert(
                        got->0,
                    ).contains(p));
                }
                pt0.lemma_frame_invariance(&mem0, mem);
                mem0.lemma_frame_len(got->0);
            }
            got.unwrap()
        },
    };
    let ghost mem1 = *mem;
    let ghost pool1 = alloc@;
    proof {
        assert(pt0.walk(&mem1, vpn) == pt0.walk(&mem0, vpn));
        assert(pt0.table1(&mem1, vpn) == pt0.table1(&mem0, vpn));
        assert(pt0.table0(&mem1, vpn) == pt0.table0(&mem0, vpn));
    }
    let res = pt.map(alloc, mem, vpn, frame, perm);
    proof {
        assert(res is Ok);
        assert forall|v: u64| v < VPN_LIMIT implies #[trigger] pt.mapping(mem, v) == if v == vpn {
            Some(PageTableEntry::spec_new(frame, with_valid(perm)))
        } else {
            pt0.mapping(&mem0, v)
        } by {
            lemma_same_table(v, vpn);
            assert(pt0.walk(&mem1, v) == pt0.walk(&mem0, v));
        }
        assert forall|v: u64| v < VPN_LIMIT implies ((#[trigger] pt.table1(mem, v)) is Some
            <==> pt0.table1(&mem0, v) is Some || v / ENTRIES / ENTRIES == vpn / ENTRIES / ENTRIES) by {
            lemma_same_table(v, vpn);
            assert(pt0.table1(&mem1, v) == pt0.table1(&mem0, v));
        }
        assert forall|v: u64| v < VPN_LIMIT implies ((#[trigger] pt.table0(mem, v)) is Some
            <==> pt0.table0(&mem0, v) is Some || v / ENTRIES == vpn / ENTRIES) by {
            lemma_same_table(v, vpn);
            assert(pt0.table0(&mem1, v) == pt0.table0(&mem0, v));
        }
        reveal_with_fuel(FramePool::after_allocs, 3);
        pool1.lemma_alloc();
        pool1.after_alloc().lemma_alloc();
    }
    frame
}


/// Maps the pages `[start, end)`, none of which is mapped, and returns the
/// frames allocated for them, in order.
fn fill(
    pt: &mut PageTable,
    alloc: &mut StackFrameAllocator,
    mem: &mut PhysMemory,
    start: u64,
    end: u64,
    perm: u8,
    map_type: MapType,
) -> (frames: Vec<u64>)
    requires
        old(pt).wf(old(mem)),
        old(alloc)@.wf(),
        old(alloc).within(old(mem)),
        old(pt).owned_in(old(alloc)@),
        start <= end <= VPN_LIMIT,
        forall|v: u64| start <= v < end ==> !old(pt).is_mapped(old(mem), v),
        old(alloc)@.free_count() >= frames_needed(
            old(pt),
            old(mem),
            start,
            end,
            frames_per_page(map_type),
        ),
    ensures
        final(pt).wf(final(mem)),
        final(alloc)@.wf(),
        final(alloc).within(final(mem)),
        final(pt).owned_in(final(alloc)@),
        final(pt).root() == old(pt).root(),
        old(mem).same_extent(final(mem)),
        final(alloc)@.base == old(alloc)@.base,
        final(alloc)@.end == old(alloc)@.end,
        final(alloc)@.free_count() == old(alloc)@.free_count() - frames_needed(
            old(pt),
            old(mem),
            start,
            end,
            frames_per_page(map_type),
        ),
        final(alloc)@ == old(alloc)@.after_allocs(
            frames_needed(old(pt), old(mem), start, end, frames_per_page(map_type)),
        ),
        frames@.len() == frames_per_page(map_type) * (end - start),
        frames@.no_duplicates(),
        forall|k: int|
            0 <= k < frames@.len() ==> {
                let f = #[trigger] frames@[k];
                &&& !old(alloc)@.is_allocated(f)
                &&& old(mem).contains(f)
                &&& !final(pt).nodes().contains(f)
                &&& final(mem).frame(f) == zero_frame()
            },
        forall|p: u64| #[trigger]
            final(alloc)@.is_allocated(p) <==> old(alloc)@.is_allocated(p) || final(pt).nodes().contains(
                p,
            ) || frames@.contains(p),
        forall|p: u64| #[trigger] old(pt).nodes().contains(p) ==> final(pt).nodes().contains(p),
        forall|p: u64| #[trigger]
            final(pt).nodes().contains(p) ==> old(pt).nodes().contains(p) || !old(alloc)@.is_allocated(p),
        forall|p: u64|
            old(mem).contains(p) && !final(pt).nodes().contains(p) && !frames@.contains(p)
                ==> #[trigger] final(mem).frame(p) == old(mem).frame(p),
        forall|v: u64|
            v < VPN_LIMIT ==> #[trigger] final(pt).mapping(final(mem), v) == if start <= v < end {
                Some(
                    PageTableEntry::spec_new(
                        page_target(map_type, frames@, start, v),
                        with_valid(perm),
                    ),
                )
            } else {
                old(pt).mapping(old(mem), v)
            },
        forall|v: u64|
            v < VPN_LIMIT ==> ((#[trigger] final(pt).table1(final(mem), v)) is Some <==> old(pt).table1(
                old(mem),
                v,
            ) is Some || touched1(start, end, v)),
        forall|v: u64|
            v < VPN_LIMIT ==> ((#[trigger] final(pt).table0(final(mem), v)) is Some <==> old(pt).table0(
                old(mem),
                v,
            ) is Some || touched0(start, end, v)),
{
    let ghost pt0 = *pt;
    let ghost mem0 = *mem;
    let ghost pool0 = alloc@;
    let ghost pp = frames_per_page(map_type);
    let mut frames: Vec<u64> = Vec::new();
    let mut i: u64 = start;
    while i < end
        invariant
            start <= i <= end <= VPN_LIMIT,
            pp == frames_per_page(map_type),
            pt.wf(mem),
            alloc@.wf(),
            alloc.within(mem),
            pt.owned_in(alloc@),
            pt.root() == pt0.root(),
            mem0.same_extent(mem),
            alloc@.base == pool0.base,
            alloc@.end == pool0.end,
            alloc@.free_count() == pool0.free_count() - frames_needed(&pt0, &mem0, start, i, pp),
            alloc@ == pool0.after_allocs(frames_needed(&pt0, &mem0, start, i, pp)),
            pool0.free_count() >= frames_needed(&pt0, &mem0, start, end, pp),
            forall|u: u64| start <= u < end ==> !pt0.is_mapped(&mem0, u),
            frames@.len() == pp * (i - start),
            frames@.no_duplicates(),
            forall|k: int|
                0 <= k < frames@.len() ==> {
                    let f = #[trigger] frames@[k];
                    &&& !pool0.is_allocated(f)
                    &&& alloc@.is_allocated(f)
                    &&& mem0.contains(f)
                    &&& !pt.nodes().contains(f)
                    &&& mem.frame(f) == zero_frame()
                },
            forall|p: u64| #[trigger]
                alloc@.is_allocated(p) <==> pool0.is_allocated(p) || pt.nodes().contains(p)
                    || frames@.contains(p),
            forall|p: u64| #[trigger] pt0.nodes().contains(p) ==> pt.nodes().contains(p),
            forall|p: u64| #[trigger]
                pt.nodes().contains(p) ==> pt0.nodes().contains(p) || !pool0.is_allocated(p),
            forall|p: u64|
                mem0.contains(p) && !pt.nodes().contains(p) && !frames@.contains(p)
                    ==> #[trigger] mem.frame(p) == mem0.frame(p),
            forall|v: u64|
                v < VPN_LIMIT ==> #[trigger] pt.mapping(mem, v) == if start <= v < i {
                    Some(
                        PageTableEntry::spec_new(
                            page_target(map_type, frames@, start, v),
                            with_valid(perm),
                        ),
                    )
                } else {
                    pt0.mapping(&mem0, v)
                },
            forall|v: u64|
                v < VPN_LIMIT ==> ((#[trigger] pt.table1(mem, v)) is Some <==> pt0.table1(&mem0, v) is Some
                    || touched1(start, i, v)),
            forall|v: u64|
                v < VPN_LIMIT ==> ((#[trigger] pt.table0(mem, v)) is Some <==> pt0.table0(&mem0, v) is Some
                    || touched0(start, i, v)),
        decreases end - i,
    {
        let ghost pt1 = *pt;
        let ghost mem1 = *mem;
        let ghost pool1 = alloc@;
        let ghost frames1 = frames@;
        proof {
            lemma_frames_needed_monotone(&pt0, &mem0, start, (i + 1) as u64, end, pp);
            assert(frames_needed(&pt0, &mem0, start, (i + 1) as u64, pp) == frames_needed(
                &pt0,
                &mem0,
                start,
                i,
                pp,
            ) + pp + fresh_tables(&pt0, &mem0, start, i));
            assert(pt1.table1(&mem1, i) is Some <==> pt0.table1(&mem0, i) is Some || touched1(
                start,
                i,
                i,
            ));
            assert(pt1.table0(&mem1, i) is Some <==> pt0.table0(&mem0, i) is Some || touched0(
                start,
                i,
                i,
            ));
            assert(pt1.missing_tables(&mem1, i) == fresh_tables(&pt0, &mem0, start, i));
            assert(pt1.mapping(&mem1, i) == pt0.mapping(&mem0, i));
        }
        let frame = map_page(pt, alloc, mem, i, perm, map_type);
        proof {
            pool0.lemma_after_allocs_add(
                frames_needed(&pt0, &mem0, start, i, pp),
                pp + fresh_tables(&pt0, &mem0, start, i),
            );
        }
        match map_type {
            MapType::Framed => {
                frames.push(frame);
            },
            MapType::Identical => {},
        }
        proof {
            let next = (i + 1) as u64;
            if map_type == MapType::Framed {
                assert(frames@ == frames1.push(frame));
                assert forall|p: u64| frames@.contains(p) <==> frames1.contains(p) || p == frame by {
                    if frames1.contains(p) {
                        let k = choose|k: int| 0 <= k < frames1.len() && frames1[k] == p;
                        assert(frames@[k] == p);
                    }
                    if p == frame {
                        assert(frames@[frames1.len() as int] == frame);
                    }
                }
                assert(frames@.no_duplicates());
            } else {
                assert(frames@ == frames1);
            }
            assert forall|v: u64| v < VPN_LIMIT implies #[trigger] pt.mapping(mem, v) == if start
                <= v < next {
                Some(
                    PageTableEntry::spec_new(
                        page_target(map_type, frames@, start, v),
                        with_valid(perm),
                    ),
                )
            } else {
                pt0.mapping(&mem0, v)
            } by {
                assert(pt1.mapping(&mem1, v) == if start <= v < i {
                    Some(
                        PageTableEntry::spec_new(
                            page_target(map_type, frames1, start, v),
                            with_valid(perm),
                        ),
                    )
                } else {
                    pt0.mapping(&mem0, v)
                });
            }
            assert forall|v: u64| v < VPN_LIMIT implies ((#[trigger] pt.table1(mem, v)) is Some
                <==> pt0.table1(&mem0, v) is Some || touched1(start, next, v)) by {
                assert(pt1.table1(&mem1, v) is Some <==> pt0.table1(&mem0, v) is Some || touched1(
                    start,
                    i,
                    v,
                ));
            }
            assert forall|v: u64| v < VPN_LIMIT implies ((#[trigger] pt.table0(mem, v)) is Some
                <==> pt0.table0(&mem0, v) is Some || touched0(start, next, v)) by {
                assert(pt1.table0(&mem1, v) is Some <==> pt0.table0(&mem0, v) is Some || touched0(
                    start,
                    i,
                    v,
                ));
            }
            assert forall|p: u64|
                mem0.contains(p) && !pt.nodes().contains(p) && !frames@.contains(p)
                implies #[trigger] mem.frame(p) == mem0.frame(p) by {
                assert(mem1.frame(p) == mem0.frame(p));
            }
        }
        i = i + 1;
    }
    frames
}


/// Gives distinct frames, all of them handed out, back to the allocator.
fn free_all(alloc: &mut StackFrameAllocator, frames: &Vec<u64>)
    requires
        old(alloc)@.wf(),
        frames@.no_duplicates(),
        forall|k: int| 0 <= k < frames@.len() ==> old(alloc)@.is_allocated(#[trigger] frames@[k]),
    ensures
        final(alloc)@.wf(),
        final(alloc)@ == (FramePool { recycled: old(alloc)@.recycled + frames@, ..old(alloc)@ }),
        final(alloc)@.base == old(alloc)@.base,
        final(alloc)@.end == old(alloc)@.end,
        final(alloc)@.free_count() == old(alloc)@.free_count() + frames@.len(),
        forall|p: u64| #[trigger]
            final(alloc)@.is_allocated(p) <==> old(alloc)@.is_allocated(p) && !frames@.contains(p),
{
    let ghost pool0 = alloc@;
    proof {
        assert(pool0.recycled + frames@.subrange(0, 0) =~= pool0.recycled);
    }
    let mut i: usize = 0;
    while i < frames.len()
        invariant
            i <= frames@.len(),
            frames@.no_duplicates(),
            forall|k: int| 0 <= k < frames@.len() ==> pool0.is_allocated(#[trigger] frames@[k]),
            alloc@.wf(),
            alloc@ == (FramePool { recycled: pool0.recycled + frames@.subrange(0, i as int), ..pool0 }),
            alloc@.base == pool0.base,
            alloc@.end == pool0.end,
            alloc@.free_count() == pool0.free_count() + i,
            forall|p: u64| #[trigger]
                alloc@.is_allocated(p) <==> pool0.is_allocated(p) && !frames@.subrange(
                    0,
                    i as int,
                ).contains(p),
        decreases frames@.len() - i,
    {
        let ppn = frames[i];
        let ghost before = alloc@;
        proof {
            if frames@.subrange(0, i as int).contains(ppn) {
                let k = choose|k: int| 0 <= k < i && frames@.subrange(0, i as int)[k] == ppn;
                assert(frames@[k] == frames@[i as int]);
            }
            before.lemma_dealloc(ppn);
        }
        alloc.dealloc(ppn);
        proof {
            let done = frames@.subrange(0, i as int);
            let next = frames@.subrange(0, i + 1);
            assert(next =~= done.push(ppn));
            assert(pool0.recycled + next =~= (pool0.recycled + done).push(ppn));
            assert forall|p: u64| #[trigger]
                alloc@.is_allocated(p) <==> pool0.is_allocated(p) && !next.contains(p) by {
                assert(alloc@.allocated().contains(p) == before.allocated().remove(ppn).contains(p));
                if done.contains(p) {
                    let k = choose|k: int| 0 <= k < done.len() && done[k] == p;
                    assert(next[k] == p);
                }
                if next.contains(p) && p != ppn {
                    let k = choose|k: int| 0 <= k < next.len() && next[k] == p;
                    assert(done[k] == p);
                }
                if p == ppn {
                    assert(next[i as int] == ppn);
                }
            }
        }
        i += 1;
    }
    proof {
        assert(frames@.subrange(0, i as int) =~= frames@);
    }
}


/// Mapping a range adds to the nodes of a page table those that serve the range.
proof fn lemma_cover_grows(
    pt0: &PageTable,
    mem0: &PhysMemory,
    pt: &PageTable,
    mem: &PhysMemory,
    start: u64,
    end: u64,
)
    requires
        start <= end <= VPN_LIMIT,
        forall|v: u64|
            v < VPN_LIMIT ==> ((#[trigger] pt.table1(mem, v)) is Some <==> pt0.table1(mem0, v) is Some
                || touched1(start, end, v)),
        forall|v: u64|
            v < VPN_LIMIT ==> ((#[trigger] pt.table0(mem, v)) is Some <==> pt0.table0(mem0, v) is Some
                || touched0(start, end, v)),
    ensures
        Cover::of(pt, mem) == Cover::of(pt0, mem0).with_range(start, end),
{
    let after = Cover::of(pt, mem);
    let grown = Cover::of(pt0, mem0).with_range(start, end);
    assert forall|j: int| after.middle.contains(j) <==> grown.middle.contains(j) by {
        if 0 <= j < ENTRIES {
            let v = (j * ENTRIES * ENTRIES) as u64;
            assert(pt.table1(mem, v) is Some <==> pt0.table1(mem0, v) is Some || touched1(start, end, v));
        }
    }
    assert forall|k: int| after.leaf.contains(k) <==> grown.leaf.contains(k) by {
        if 0 <= k < ENTRIES * ENTRIES {
            let v = (k * ENTRIES) as u64;
            assert(pt.table0(mem, v) is Some <==> pt0.table0(mem0, v) is Some || touched0(start, end, v));
        }
    }
    assert(after.middle =~= grown.middle);
    assert(after.leaf =~= grown.leaf);
}

/// Whether no area of the layout contains the trampoline's page or a page
/// of an area before it.
pub fn layout_disjoint(layout: &Vec<AreaLayout>) -> (ok: bool)
    requires
        forall|i: int| 0 <= i < layout@.len() ==> (#[trigger] layout@[i]).wf(),
    ensures
        ok == !layout_overlaps(layout@),
{
    let mut i: usize = 0;
    while i < layout.len()
        invariant
            i <= layout@.len(),
            forall|a: int, v: u64|
                0 <= a < i && #[trigger] layout@[a].contains_vpn(v) ==> v != TRAMPOLINE_VPN
                    && !layout_covers(layout@, a, v),
        decreases layout@.len() - i,
    {
        let area = layout[i];
        if area.start_vpn <= TRAMPOLINE_VPN && TRAMPOLINE_VPN < area.end_vpn {
            assert(layout@[i as int].contains_vpn(TRAMPOLINE_VPN));
            return false;
        }
        let mut j: usize = 0;
        while j < i
            invariant
                j <= i < layout@.len(),
                area == layout@[i as int],
                forall|b: int, v: u64|
                    0 <= b < j && #[trigger] layout@[b].contains_vpn(v) ==> !area.contains_vpn(v),
            decreases i - j,
        {
            let other = layout[j];
            let lo = if area.start_vpn > other.start_vpn {
                area.start_vpn
            } else {
                other.start_vpn
            };
            let hi = if area.end_vpn < other.end_vpn {
                area.end_vpn
            } else {
                other.end_vpn
            };
            if lo < hi {
                assert(layout@[i as int].contains_vpn(lo));
                assert(layout@[j as int].contains_vpn(lo));
                assert(layout_covers(layout@, i as int, lo));
                return false;
            }
            j += 1;
        }
        proof {
            assert forall|v: u64| #[trigger] layout@[i as int].contains_vpn(v) implies !layout_covers(
                layout@,
                i as int,
                v,
            ) by {
                if layout_covers(layout@, i as int, v) {
                    let b = choose|b: int|
                        0 <= b < i && b < layout@.len() && #[trigger] layout@[b].contains_vpn(v);
                    assert(!area.contains_vpn(v));
                }
            }
        }
        i += 1;
    }
    proof {
        if layout_overlaps(layout@) {
            let (a, v) = choose|a: int, v: u64|
                0 <= a < layout@.len() && #[trigger] layout@[a].contains_vpn(v) && (v == TRAMPOLINE_VPN
                    || layout_covers(layout@, a, v));
            assert(false);
        }
    }
    true
}


/// Copies the bytes of each frame of `src` into the frame of `dst` with the
/// same index.
fn copy_frames(mem: &mut PhysMemory, src: &Vec<u64>, dst: &Vec<u64>)
    requires
        old(mem).wf(),
        src@.len() == dst@.len(),
        dst@.no_duplicates(),
        forall|k: int| 0 <= k < src@.len() ==> old(mem).contains(#[trigger] src@[k]),
        forall|k: int| 0 <= k < dst@.len() ==> old(mem).contains(#[trigger] dst@[k]),
        forall|k: int, l: int|
            0 <= k < src@.len() && 0 <= l < dst@.len() ==> #[trigger] src@[k] != #[trigger] dst@[l],
    ensures
        final(mem).wf(),
        old(mem).same_extent(final(mem)),
        forall|k: int|
            0 <= k < dst@.len() ==> final(mem).frame(#[trigger] dst@[k]) == old(mem).frame(src@[k]),
        forall|p: u64|
            old(mem).contains(p) && !dst@.contains(p) ==> #[trigger] final(mem).frame(p) == old(mem).frame(p),
{
    let ghost mem0 = *mem;
    let mut k: usize = 0;
    while k < src.len()
        invariant
            k <= src@.len(),
            src@.len() == dst@.len(),
            dst@.no_duplicates(),
            mem.wf(),
            mem0.same_extent(mem),
            forall|j: int| 0 <= j < src@.len() ==> mem0.contains(#[trigger] src@[j]),
            forall|j: int| 0 <= j < dst@.len() ==> mem0.contains(#[trigger] dst@[j]),
            forall|a: int, b: int|
                0 <= a < src@.len() && 0 <= b < dst@.len() ==> #[trigger] src@[a] != #[trigger] dst@[b],
            forall|j: int| 0 <= j < k ==> mem.frame(#[trigger] dst@[j]) == mem0.frame(src@[j]),
            forall|p: u64|
                mem0.contains(p) && !dst@.subrange(0, k as int).contains(p) ==> #[trigger] mem.frame(p)
                    == mem0.frame(p),
        decreases src@.len() - k,
    {
        let ghost mem1 = *mem;
        proof {
            assert(mem0.contains(src@[k as int]));
            assert(mem0.contains(dst@[k as int]));
            if dst@.subrange(0, k as int).contains(src@[k as int]) {
                let j = choose|j: int| 0 <= j < k && dst@.subrange(0, k as int)[j] == src@[k as int];
                assert(src@[k as int] != dst@[j]);
            }
        }
        mem.copy_frame(src[k], dst[k]);
        proof {
            let done = dst@.subrange(0, k as int);
            let next = dst@.subrange(0, k + 1);
            assert(next =~= done.push(dst@[k as int]));
            assert forall|j: int| 0 <= j < k + 1 implies mem.frame(#[trigger] dst@[j]) == mem0.frame(
                src@[j],
            ) by {
                if j < k {
                    assert(dst@[j] != dst@[k as int]);
                    assert(mem.frame(dst@[j]) == mem1.frame(dst@[j]));
                }
            }
            assert forall|p: u64| mem0.contains(p) && !next.contains(p) implies #[trigger] mem.frame(p)
                == mem0.frame(p) by {
                if done.contains(p) {
                    let j = choose|j: int| 0 <= j < done.len() && done[j] == p;
                    assert(next[j] == p);
                }
                if p == dst@[k as int] {
                    assert(next[k as int] == p);
                }
                assert(mem.frame(p) == mem1.frame(p));
            }
        }
        k += 1;
    }
    proof {
        assert(dst@.subrange(0, k as int) =~= dst@);
    }
}


/// A virtual page number is a physical page number as well.
proof fn lemma_vpn_is_ppn(vpn: u64)
    requires
        vpn < VPN_LIMIT,
    ensures
        vpn < PPN_LIMIT,
{
}

} // verus!
