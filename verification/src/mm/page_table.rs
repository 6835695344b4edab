//! Sv39 page tables: three levels of 512-entry nodes held in physical frames.

use vstd::prelude::*;
use crate::mm::address::{index0, index1, index2, same_entry, same_table0, ENTRIES, PPN_LIMIT};
use crate::mm::frame_allocator::{frame_alloc, FramePool, StackFrameAllocator};
use crate::mm::memory::{lemma_zero_frame_word, zero_frame, PhysMemory};

verus! {

/// Flag bit: the entry is valid.
pub const PTE_V: u8 = 1;

/// Flag bit: the page can be read.
pub const PTE_R: u8 = 2;

/// Flag bit: the page can be written.
pub const PTE_W: u8 = 4;

/// Flag bit: instructions can be fetched from the page.
pub const PTE_X: u8 = 8;

/// Flag bit: the page is accessible in user mode.
pub const PTE_U: u8 = 16;

/// Flag bit: the mapping is global.
pub const PTE_G: u8 = 32;

/// Flag bit: the page was accessed.
pub const PTE_A: u8 = 64;

/// Flag bit: the page was written.
pub const PTE_D: u8 = 128;

/// Paging mode of Sv39 in the top four bits of `satp`.
pub const SATP_SV39: u64 = 0x8000_0000_0000_0000;

/// Whether the bit with value `flag` (a power of two) is set in `flags`.
pub open spec fn spec_has_flag(flags: u8, flag: u8) -> bool
    recommends
        flag > 0,
{
    (flags / flag) % 2 == 1
}

/// Whether the bit with value `flag` (a power of two) is set in `flags`.
#[verifier::when_used_as_spec(spec_has_flag)]
pub fn has_flag(flags: u8, flag: u8) -> (set: bool)
    requires
        flag > 0,
    ensures
        set == spec_has_flag(flags, flag),
{
    (flags / flag) % 2 == 1
}

/// `flags` with the valid bit set.
pub open spec fn spec_with_valid(flags: u8) -> u8 {
    if flags % 2 == 1 {
        flags
    } else {
        (flags + 1) as u8
    }
}

/// `flags` with the valid bit set.
#[verifier::when_used_as_spec(spec_with_valid)]
pub fn with_valid(flags: u8) -> (out: u8)
    ensures
        out == spec_with_valid(flags),
{
    if flags % 2 == 1 {
        flags
    } else {
        flags + 1
    }
}

/// A page-table entry: the flags in bits 0 to 7, the physical page number in
/// bits 10 to 53.
#[derive(Clone, Copy, Debug, PartialEq, Eq, Structural)]
pub struct PageTableEntry {
    pub bits: u64,
}

impl PageTableEntry {
    /// The entry that holds `ppn` and `flags`.
    pub open spec fn spec_new(ppn: u64, flags: u8) -> PageTableEntry {
        PageTableEntry { bits: (ppn * 1024 + flags) as u64 }
    }

    /// The entry that holds `ppn` and `flags`.
    #[verifier::when_used_as_spec(spec_new)]
    pub fn new(ppn: u64, flags: u8) -> (pte: PageTableEntry)
        requires
            ppn < PPN_LIMIT,
        ensures
            pte == Self::spec_new(ppn, flags),
            pte.ppn() == ppn,
            pte.flags() == flags,
    {
        proof {
            Self::lemma_fields(ppn, flags);
        }
        PageTableEntry { bits: ppn * 1024 + flags as u64 }
    }

    /// An entry gives back the page number and the flags it was made of.
    pub proof fn lemma_fields(ppn: u64, flags: u8)
        requires
            ppn < PPN_LIMIT,
        ensures
            Self::spec_new(ppn, flags).ppn() == ppn,
            Self::spec_new(ppn, flags).flags() == flags,
            Self::spec_new(ppn, flags).is_valid() == has_flag(flags, PTE_V),
    {
        let low = flags as u64;
        assert((ppn * 1024 + low) / 1024 % 0x1000_0000_0000 == ppn && (ppn * 1024 + low) % 256
            == low && (ppn * 1024 + low) % 2 == low % 2 && ppn * 1024 + low < 0x40_0000_0000_0000)
            by (bit_vector)
            requires
                ppn < 0x1000_0000_0000,
                low < 256,
        ;
    }

    /// The entry with every bit clear.
    pub open spec fn spec_empty() -> PageTableEntry {
        PageTableEntry { bits: 0 }
    }

    /// The entry with every bit clear.
    #[verifier::when_used_as_spec(spec_empty)]
    pub fn empty() -> (pte: PageTableEntry)
        ensures
            pte == Self::spec_empty(),
            !pte.is_valid(),
    {
        PageTableEntry { bits: 0 }
    }

    /// The physical page number.
    pub open spec fn spec_ppn(&self) -> u64 {
        (self.bits / 1024) % PPN_LIMIT
    }

    /// The physical page number.
    #[verifier::when_used_as_spec(spec_ppn)]
    pub fn ppn(&self) -> (ppn: u64)
        ensures
            ppn == self.spec_ppn(),
            ppn < PPN_LIMIT,
    {
        (self.bits / 1024) % PPN_LIMIT
    }

    /// The eight flag bits.
    pub open spec fn spec_flags(&self) -> u8 {
        (self.bits % 256) as u8
    }

    /// The eight flag bits.
    #[verifier::when_used_as_spec(spec_flags)]
    pub fn flags(&self) -> (flags: u8)
        ensures
            flags == self.spec_flags(),
    {
        (self.bits % 256) as u8
    }

    /// Whether the valid bit is set.
    pub open spec fn spec_is_valid(&self) -> bool {
        self.bits % 2 == 1
    }

    /// Whether the valid bit is set.
    #[verifier::when_used_as_spec(spec_is_valid)]
    pub fn is_valid(&self) -> (valid: bool)
        ensures
            valid == self.spec_is_valid(),
            valid == has_flag(self.flags(), PTE_V),
    {
        self.bits % 2 == 1
    }

    /// Whether the page can be read.
    pub open spec fn spec_readable(&self) -> bool {
        has_flag(self.flags(), PTE_R)
    }

    /// Whether the page can be read.
    #[verifier::when_used_as_spec(spec_readable)]
    pub fn readable(&self) -> (set: bool)
        ensures
            set == self.spec_readable(),
    {
        has_flag(self.flags(), PTE_R)
    }

    /// Whether the page can be written.
    pub open spec fn spec_writable(&self) -> bool {
        has_flag(self.flags(), PTE_W)
    }

    /// Whether the page can be written.
    #[verifier::when_used_as_spec(spec_writable)]
    pub fn writable(&self) -> (set: bool)
        ensures
            set == self.spec_writable(),
    {
        has_flag(self.flags(), PTE_W)
    }

    /// Whether instructions can be fetched from the page.
    pub open spec fn spec_executable(&self) -> bool {
        has_flag(self.flags(), PTE_X)
    }

    /// Whether instructions can be fetched from the page.
    #[verifier::when_used_as_spec(spec_executable)]
    pub fn executable(&self) -> (set: bool)
        ensures
            set == self.spec_executable(),
    {
        has_flag(self.flags(), PTE_X)
    }

    /// Whether the page is accessible in user mode.
    pub open spec fn spec_user(&self) -> bool {
        has_flag(self.flags(), PTE_U)
    }

    /// Whether the page is accessible in user mode.
    #[verifier::when_used_as_spec(spec_user)]
    pub fn user(&self) -> (set: bool)
        ensures
            set == self.spec_user(),
    {
        has_flag(self.flags(), PTE_U)
    }

    /// Whether the entry is a leaf: one of the read, write and execute bits is
    /// set. An entry that is valid and no leaf points to the next node.
    pub open spec fn spec_is_leaf(&self) -> bool {
        self.spec_readable() || self.spec_writable() || self.spec_executable()
    }

    /// Whether the entry is a leaf.
    #[verifier::when_used_as_spec(spec_is_leaf)]
    pub fn is_leaf(&self) -> (leaf: bool)
        ensures
            leaf == self.spec_is_leaf(),
    {
        self.readable() || self.writable() || self.executable()
    }
}


/// Place of a node in the tree of a page table: its level (2 for the root, 0
/// for a node of leaf entries), the virtual page numbers it covers, divided by
/// 512 once for each level below it and the level itself, and the node above it.
pub struct NodeShape {
    pub level: int,
    pub prefix: int,
    pub parent: u64,
}

/// The node that entry `idx` of the node in frame `table` points to, if that
/// entry is valid.
pub open spec fn child(mem: &PhysMemory, table: u64, idx: int) -> Option<u64> {
    let entry = PageTableEntry { bits: mem.word(table, idx) };
    if entry.is_valid() {
        Some(entry.ppn())
    } else {
        None
    }
}

/// Whether a failure is due to the frame allocator being exhausted.
#[derive(Clone, Copy, Debug, PartialEq, Eq, Structural)]
pub struct OutOfFrames;

/// An Sv39 page table. It owns the frames of its nodes; the frames that its
/// leaf entries point to belong to others.
pub struct PageTable {
    root_ppn: u64,
    frames: Vec<u64>,
    shape: Ghost<Map<u64, NodeShape>>,
}

spec fn slot_ok(mem: &PhysMemory, shape: Map<u64, NodeShape>, t: u64, i: int) -> bool {
    match child(mem, t, i) {
        Some(c) => shape.dom().contains(c) && shape[c] == (NodeShape {
            level: shape[t].level - 1,
            prefix: shape[t].prefix * 512 + i,
            parent: t,
        }),
        None => true,
    }
}

spec fn node_ok(mem: &PhysMemory, shape: Map<u64, NodeShape>, root: u64, t: u64) -> bool {
    let s = shape[t];
    &&& mem.contains(t)
    &&& 0 <= s.level <= 2
    &&& 0 <= s.prefix
    &&& s.level == 2 ==> t == root && s.prefix == 0
    &&& s.level < 2 ==> {
        &&& shape.dom().contains(s.parent)
        &&& shape[s.parent].level == s.level + 1
        &&& shape[s.parent].prefix == s.prefix / 512
        &&& child(mem, s.parent, s.prefix % 512) == Some(t)
    }
    &&& s.level > 0 ==> forall|i: int| 0 <= i < 512 ==> #[trigger] slot_ok(mem, shape, t, i)
}

impl PageTable {
    /// Page number of the root node.
    pub closed spec fn root(&self) -> u64 {
        self.root_ppn
    }

    /// The frames that hold the nodes of this table.
    pub closed spec fn nodes(&self) -> Set<u64> {
        self.shape@.dom()
    }

    /// The nodes form a tree below the root: every valid entry of the root
    /// and of a middle node points to a node of its own one level down.
    pub closed spec fn wf(&self, mem: &PhysMemory) -> bool {
        &&& mem.wf()
        &&& self.frames@.no_duplicates()
        &&& forall|t: u64| self.frames@.contains(t) <==> self.shape@.dom().contains(t)
        &&& self.shape@.dom().contains(self.root_ppn)
        &&& self.shape@[self.root_ppn].level == 2
        &&& forall|t: u64| #[trigger]
            self.shape@.dom().contains(t) ==> node_ok(mem, self.shape@, self.root_ppn, t)
    }

    /// The middle node on the way to `vpn`, if the root points to one.
    pub open spec fn table1(&self, mem: &PhysMemory, vpn: u64) -> Option<u64> {
        child(mem, self.root(), index2(vpn) as int)
    }

    /// The node of leaf entries on the way to `vpn`, if there is one.
    pub open spec fn table0(&self, mem: &PhysMemory, vpn: u64) -> Option<u64> {
        match self.table1(mem, vpn) {
            Some(t) => child(mem, t, index1(vpn) as int),
            None => None,
        }
    }

    /// The leaf entry for `vpn`, valid or not; `None` where a node on the way
    /// to it is missing.
    pub open spec fn walk(&self, mem: &PhysMemory, vpn: u64) -> Option<PageTableEntry> {
        match self.table0(mem, vpn) {
            Some(t) => Some(PageTableEntry { bits: mem.word(t, index0(vpn) as int) }),
            None => None,
        }
    }

    /// Whether `vpn` has a valid leaf entry.
    pub open spec fn is_mapped(&self, mem: &PhysMemory, vpn: u64) -> bool {
        self.walk(mem, vpn) is Some && self.walk(mem, vpn)->0.is_valid()
    }

    /// The valid leaf entry for `vpn`, if there is one.
    pub open spec fn mapping(&self, mem: &PhysMemory, vpn: u64) -> Option<PageTableEntry> {
        if self.is_mapped(mem, vpn) {
            self.walk(mem, vpn)
        } else {
            None
        }
    }

    /// Number of nodes on the way to `vpn` that do not exist yet.
    pub open spec fn missing_tables(&self, mem: &PhysMemory, vpn: u64) -> nat {
        if self.table1(mem, vpn) is None {
            2
        } else if self.table0(mem, vpn) is None {
            1
        } else {
            0
        }
    }

    /// The value of `satp` that selects this table: mode Sv39 and the root's
    /// page number.
    pub open spec fn spec_token(&self) -> u64 {
        (SATP_SV39 + self.root()) as u64
    }

    /// The nodes of a well-formed table are frames of the memory, with page
    /// numbers below the limit, and the root is one of them.
    pub proof fn lemma_nodes(&self, mem: &PhysMemory)
        requires
            self.wf(mem),
        ensures
            mem.wf(),
            self.nodes().contains(self.root()),
            forall|t: u64| #[trigger] self.nodes().contains(t) ==> mem.contains(t) && t < PPN_LIMIT,
    {
        assert forall|t: u64| #[trigger] self.nodes().contains(t) implies mem.contains(t) && t
            < PPN_LIMIT by {
            assert(node_ok(mem, self.shape@, self.root_ppn, t));
            mem.lemma_frame_len(t);
        }
    }

    /// The nodes on the way to a page are nodes of the table, each with its
    /// place in the tree.
    proof fn lemma_path(&self, mem: &PhysMemory, vpn: u64)
        requires
            self.wf(mem),
        ensures
            self.table1(mem, vpn) is Some ==> {
                let t1 = self.table1(mem, vpn)->0;
                &&& self.nodes().contains(t1)
                &&& t1 != self.root()
                &&& self.shape@[t1] == (NodeShape {
                    level: 1,
                    prefix: index2(vpn) as int,
                    parent: self.root_ppn,
                })
            },
            self.table0(mem, vpn) is Some ==> {
                let t1 = self.table1(mem, vpn)->0;
                let t0 = self.table0(mem, vpn)->0;
                &&& self.nodes().contains(t0)
                &&& t0 != self.root()
                &&& t0 != t1
                &&& self.shape@[t0] == (NodeShape {
                    level: 0,
                    prefix: index2(vpn) * 512 + index1(vpn),
                    parent: t1,
                })
            },
    {
        let root = self.root_ppn;
        assert(node_ok(mem, self.shape@, root, root));
        assert(slot_ok(mem, self.shape@, root, index2(vpn) as int));
        if self.table1(mem, vpn) is Some {
            let t1 = self.table1(mem, vpn)->0;
            assert(node_ok(mem, self.shape@, root, t1));
            assert(slot_ok(mem, self.shape@, t1, index1(vpn) as int));
        }
    }

    /// A table reads the memory only in the frames of its nodes: it is well
    /// formed, and translates alike, in any memory that agrees on them.
    pub proof fn lemma_frame_invariance(&self, mem: &PhysMemory, other: &PhysMemory)
        requires
            self.wf(mem),
            other.wf(),
            mem.same_extent(other),
            forall|t: u64| #[trigger] self.nodes().contains(t) ==> other.frame(t) == mem.frame(t),
        ensures
            self.wf(other),
            forall|v: u64| #[trigger] self.table1(other, v) == self.table1(mem, v),
            forall|v: u64| #[trigger] self.table0(other, v) == self.table0(mem, v),
            forall|v: u64| #[trigger] self.walk(other, v) == self.walk(mem, v),
    {
        let shape = self.shape@;
        let root = self.root_ppn;
        assert forall|t: u64| #[trigger] shape.dom().contains(t) implies node_ok(
            other,
            shape,
            root,
            t,
        ) by {
            assert(node_ok(mem, shape, root, t));
            assert(self.nodes().contains(t));
            let s = shape[t];
            if s.level < 2 {
                assert(self.nodes().contains(s.parent));
            }
            if s.level > 0 {
                assert forall|i: int| 0 <= i < 512 implies #[trigger] slot_ok(other, shape, t, i) by {
                    assert(slot_ok(mem, shape, t, i));
                }
            }
        }
        assert forall|v: u64| #[trigger] self.table1(other, v) == self.table1(mem, v) by {
            self.lemma_same_walk(mem, other, v);
        }
        assert forall|v: u64| #[trigger] self.table0(other, v) == self.table0(mem, v) by {
            self.lemma_same_walk(mem, other, v);
        }
        assert forall|v: u64| #[trigger] self.walk(other, v) == self.walk(mem, v) by {
            self.lemma_same_walk(mem, other, v);
        }
    }

    proof fn lemma_same_walk(&self, mem: &PhysMemory, other: &PhysMemory, v: u64)
        requires
            self.wf(mem),
            forall|t: u64| #[trigger] self.nodes().contains(t) ==> other.frame(t) == mem.frame(t),
        ensures
            self.table1(other, v) == self.table1(mem, v),
            self.table0(other, v) == self.table0(mem, v),
            self.walk(other, v) == self.walk(mem, v),
    {
        self.lemma_path(mem, v);
        assert(self.nodes().contains(self.root_ppn));
        if self.table1(mem, v) is Some {
            assert(self.nodes().contains(self.table1(mem, v)->0));
        }
        if self.table0(mem, v) is Some {
            assert(self.nodes().contains(self.table0(mem, v)->0));
        }
    }

    /// A table with a fresh root and no mapping; `None` when no frame is left.
    pub fn new(alloc: &mut StackFrameAllocator, mem: &mut PhysMemory) -> (table: Option<PageTable>)
        requires
            old(alloc)@.wf(),
            old(mem).wf(),
            old(alloc).within(old(mem)),
        ensures
            final(alloc)@ == old(alloc)@.after_alloc(),
            final(alloc)@.wf(),
            final(mem).wf(),
            table is None <==> old(alloc)@.next() is None,
            match table {
                Some(pt) => {
                    let root = old(alloc)@.next()->0;
                    &&& pt.wf(final(mem))
                    &&& pt.root() == root
                    &&& pt.nodes() == set![root]
                    &&& old(mem).same_but(final(mem), root)
                    &&& forall|v: u64| #[trigger] pt.table1(final(mem), v) is None
                },
                None => *final(mem) == *old(mem),
            },
    {
        match frame_alloc(alloc, mem) {
            Some(root) => {
                let mut frames: Vec<u64> = Vec::new();
                frames.push(root);
                let ghost shape = Map::<u64, NodeShape>::empty().insert(
                    root,
                    NodeShape { level: 2, prefix: 0, parent: root },
                );
                let pt = PageTable { root_ppn: root, frames, shape: Ghost(shape) };
                proof {
                    assert forall|i: int| 0 <= i < 512 implies #[trigger] slot_ok(mem, shape, root, i) by {
                        lemma_zero_frame_word(i);
                    }
                    assert(node_ok(mem, shape, root, root));
                    assert(pt.frames@ =~= seq![root]);
                    assert forall|t: u64| pt.frames@.contains(t) <==> shape.dom().contains(t) by {
                        if t == root {
                            assert(pt.frames@[0] == root);
                        }
                    }
                    assert(pt.nodes() =~= set![root]);
                    assert forall|v: u64| #[trigger] pt.table1(mem, v) is None by {
                        lemma_zero_frame_word(index2(v) as int);
                    }
                }
                Some(pt)
            },
            None => None,
        }
    }

    /// Page number of the root node.
    pub fn root_ppn(&self) -> (root: u64)
        ensures
            root == self.root(),
    {
        self.root_ppn
    }

    /// The value of `satp` that selects this table.
    pub fn token(&self, mem: &PhysMemory) -> (satp: u64)
        requires
            self.wf(mem),
        ensures
            satp == self.spec_token(),
            satp == SATP_SV39 + self.root(),
    {
        proof {
            self.lemma_nodes(mem);
        }
        SATP_SV39 + self.root_ppn
    }

    fn next_table(mem: &PhysMemory, table: u64, idx: u64) -> (next: Option<u64>)
        requires
            mem.wf(),
            mem.contains(table),
            idx < ENTRIES,
        ensures
            next == child(mem, table, idx as int),
    {
        let entry = PageTableEntry { bits: mem.read_word(table, idx) };
        if entry.is_valid() {
            Some(entry.ppn())
        } else {
            None
        }
    }

    /// Looks up the leaf entry for `vpn`. The entry is returned whether it is
    /// valid or not; the result is `None` where a node on the way is missing.
    pub fn translate(&self, mem: &PhysMemory, vpn: u64) -> (entry: Option<PageTableEntry>)
        requires
            self.wf(mem),
        ensures
            entry == self.walk(mem, vpn),
    {
        proof {
            self.lemma_nodes(mem);
            self.lemma_path(mem, vpn);
        }
        match Self::next_table(mem, self.root_ppn, index2(vpn)) {
            Some(t1) => match Self::next_table(mem, t1, index1(vpn)) {
                Some(t0) => Some(PageTableEntry { bits: mem.read_word(t0, index0(vpn)) }),
                None => None,
            },
            None => None,
        }
    }

    /// Number of nodes on the way to `vpn` that do not exist yet.
    pub fn count_missing(&self, mem: &PhysMemory, vpn: u64) -> (n: u64)
        requires
            self.wf(mem),
        ensures
            n == self.missing_tables(mem, vpn),
    {
        proof {
            self.lemma_nodes(mem);
            self.lemma_path(mem, vpn);
        }
        match Self::next_table(mem, self.root_ppn, index2(vpn)) {
            Some(t1) => match Self::next_table(mem, t1, index1(vpn)) {
                Some(_) => 0,
                None => 1,
            },
            None => 2,
        }
    }

    /// The leaf entry for `v` once `vpn` has been mapped to `entry`. Pages
    /// that share the node of leaf entries with `vpn` have an entry from then
    /// on, an empty one where they had none.
    pub open spec fn walk_after_map(
        &self,
        mem: &PhysMemory,
        vpn: u64,
        entry: PageTableEntry,
        v: u64,
    ) -> Option<PageTableEntry> {
        if same_entry(v, vpn) {
            Some(entry)
        } else if same_table0(v, vpn) && self.walk(mem, v) is None {
            Some(PageTableEntry::spec_empty())
        } else {
            self.walk(mem, v)
        }
    }

    /// Whether every node of the table is a frame that `pool` has handed out.
    pub open spec fn owned_in(&self, pool: FramePool) -> bool {
        forall|p: u64| #[trigger] self.nodes().contains(p) ==> pool.is_allocated(p)
    }

    fn grow(
        &mut self,
        alloc: &mut StackFrameAllocator,
        mem: &mut PhysMemory,
        t: u64,
        idx: u64,
    ) -> (node: u64)
        requires
            old(self).wf(old(mem)),
            old(alloc)@.wf(),
            old(alloc).within(old(mem)),
            old(self).owned_in(old(alloc)@),
            old(self).nodes().contains(t),
            old(self).shape@[t].level > 0,
            idx < ENTRIES,
            child(old(mem), t, idx as int) is None,
            old(alloc)@.next() is Some,
        ensures
            node == old(alloc)@.next()->0,
            final(alloc)@ == old(alloc)@.after_alloc(),
            final(alloc)@.wf(),
            final(self).wf(final(mem)),
            final(self).root_ppn == old(self).root_ppn,
            final(self).shape@ == old(self).shape@.insert(
                node,
                NodeShape {
                    level: old(self).shape@[t].level - 1,
                    prefix: old(self).shape@[t].prefix * 512 + idx,
                    parent: t,
                },
            ),
            !old(self).nodes().contains(node),
            final(self).frames@ == old(self).frames@.push(node),
            forall|p: u64| #[trigger]
                final(alloc)@.is_allocated(p) <==> old(alloc)@.is_allocated(p) || p == node,
            final(self).owned_in(final(alloc)@),
            old(mem).same_extent(final(mem)),
            forall|p: u64|
                old(mem).contains(p) && p != t && p != node ==> #[trigger] final(mem).frame(p) == old(mem).frame(p),
            final(mem).frame(node) == zero_frame(),
            forall|j: int|
                0 <= j < ENTRIES && j != idx ==> #[trigger] final(mem).word(t, j) == old(mem).word(t, j),
            child(final(mem), t, idx as int) == Some(node),
    {
        proof {
            alloc@.lemma_alloc();
            self.lemma_nodes(mem);
        }
        let ghost pre = *self;
        let ghost mem0 = *mem;
        let ghost pool0 = alloc@;
        let got = frame_alloc(alloc, mem);
        let node = got.unwrap();
        let ghost mem1 = *mem;
        proof {
            assert forall|p: u64| #[trigger]
                alloc@.is_allocated(p) <==> pool0.is_allocated(p) || p == node by {
                assert(alloc@.allocated().contains(p) == pool0.allocated().insert(node).contains(p));
            }
            assert(!pre.nodes().contains(node));
            mem0.lemma_frame_len(node);
            pre.lemma_frame_invariance(&mem0, &mem1);
        }
        let entry = PageTableEntry::new(node, PTE_V);
        mem.write_word(t, idx, entry.bits);
        self.frames.push(node);
        let ghost shape0 = self.shape@;
        let ghost added = NodeShape {
            level: shape0[t].level - 1,
            prefix: shape0[t].prefix * 512 + idx,
            parent: t,
        };
        self.shape = Ghost(shape0.insert(node, added));
        proof {
            let shape = self.shape@;
            let root = self.root_ppn;
            assert(child(mem, t, idx as int) == Some(node));
            assert forall|j: int| 0 <= j < 512 implies #[trigger] child(mem, node, j) is None by {
                lemma_zero_frame_word(j);
            }
            assert(node_ok(&mem1, shape0, root, t));
            assert forall|u: u64| #[trigger] shape.dom().contains(u) implies node_ok(
                mem,
                shape,
                root,
                u,
            ) by {
                if u == node {
                    assert forall|i: int| 0 <= i < 512 implies #[trigger] slot_ok(mem, shape, u, i) by {
                        assert(child(mem, node, i) is None);
                    }
                } else {
                    assert(node_ok(&mem1, shape0, root, u));
                    let s = shape0[u];
                    if s.level < 2 {
                        assert(node_ok(&mem1, shape0, root, s.parent));
                        if s.parent == t {
                            assert(slot_ok(&mem1, shape0, t, s.prefix % 512));
                        }
                    }
                    if s.level > 0 {
                        assert forall|i: int| 0 <= i < 512 implies #[trigger] slot_ok(
                            mem,
                            shape,
                            u,
                            i,
                        ) by {
                            assert(slot_ok(&mem1, shape0, u, i));
                        }
                    }
                }
            }
            assert(self.frames@ == pre.frames@.push(node));
            assert forall|u: u64| self.frames@.contains(u) <==> shape.dom().contains(u) by {
                if pre.frames@.contains(u) {
                    let k = choose|k: int| 0 <= k < pre.frames@.len() && pre.frames@[k] == u;
                    assert(self.frames@[k] == u);
                }
                if u == node {
                    assert(self.frames@[pre.frames@.len() as int] == node);
                }
            }
            assert(self.frames@.no_duplicates());
        }
        node
    }

    proof fn lemma_grow_root(
        &self,
        mem: &PhysMemory,
        post: &PageTable,
        post_mem: &PhysMemory,
        idx: int,
        node: u64,
        v: u64,
    )
        requires
            self.wf(mem),
            post.wf(post_mem),
            post.root_ppn == self.root_ppn,
            0 <= idx < ENTRIES,
            !self.nodes().contains(node),
            child(mem, self.root_ppn, idx) is None,
            mem.same_extent(post_mem),
            forall|p: u64|
                mem.contains(p) && p != self.root_ppn && p != node ==> #[trigger] post_mem.frame(p)
                    == mem.frame(p),
            post_mem.frame(node) == zero_frame(),
            forall|j: int|
                0 <= j < ENTRIES && j != idx ==> #[trigger] post_mem.word(self.root_ppn, j) == mem.word(
                    self.root_ppn,
                    j,
                ),
            child(post_mem, self.root_ppn, idx) == Some(node),
        ensures
            post.table1(post_mem, v) == if index2(v) == idx {
                Some(node)
            } else {
                self.table1(mem, v)
            },
            post.table0(post_mem, v) == self.table0(mem, v),
            post.walk(post_mem, v) == self.walk(mem, v),
    {
        self.lemma_path(mem, v);
        self.lemma_nodes(mem);
        if index2(v) == idx {
            lemma_zero_frame_word(index1(v) as int);
        } else {
            if self.table1(mem, v) is Some {
                assert(mem.contains(self.table1(mem, v)->0));
            }
            if self.table0(mem, v) is Some {
                assert(mem.contains(self.table0(mem, v)->0));
            }
        }
    }

    proof fn lemma_grow_middle(
        &self,
        mem: &PhysMemory,
        post: &PageTable,
        post_mem: &PhysMemory,
        vpn: u64,
        node: u64,
        v: u64,
    )
        requires
            self.wf(mem),
            post.wf(post_mem),
            post.root_ppn == self.root_ppn,
            !self.nodes().contains(node),
            self.table1(mem, vpn) is Some,
            self.table0(mem, vpn) is None,
            mem.same_extent(post_mem),
            forall|p: u64|
                mem.contains(p) && p != self.table1(mem, vpn)->0 && p != node
                    ==> #[trigger] post_mem.frame(p) == mem.frame(p),
            post_mem.frame(node) == zero_frame(),
            forall|j: int|
                0 <= j < ENTRIES && j != index1(vpn) ==> #[trigger] post_mem.word(
                    self.table1(mem, vpn)->0,
                    j,
                ) == mem.word(self.table1(mem, vpn)->0, j),
            child(post_mem, self.table1(mem, vpn)->0, index1(vpn) as int) == Some(node),
        ensures
            post.table1(post_mem, v) == self.table1(mem, v),
            post.table0(post_mem, v) == if same_table0(v, vpn) {
                Some(node)
            } else {
                self.table0(mem, v)
            },
            post.walk(post_mem, v) == if same_table0(v, vpn) {
                Some(PageTableEntry::spec_empty())
            } else {
                self.walk(mem, v)
            },
    {
        self.lemma_path(mem, v);
        self.lemma_path(mem, vpn);
        self.lemma_nodes(mem);
        let t = self.table1(mem, vpn)->0;
        assert(mem.contains(self.root_ppn));
        if self.table1(mem, v) is Some {
            let t1 = self.table1(mem, v)->0;
            assert(mem.contains(t1));
            if t1 == t {
                assert(index2(v) == index2(vpn));
            }
        }
        if same_table0(v, vpn) {
            lemma_zero_frame_word(index0(v) as int);
        } else if self.table0(mem, v) is Some {
            assert(mem.contains(self.table0(mem, v)->0));
        }
    }

    proof fn lemma_leaf_write(
        &self,
        mem: &PhysMemory,
        post_mem: &PhysMemory,
        vpn: u64,
        bits: u64,
        v: u64,
    )
        requires
            self.wf(mem),
            post_mem.wf(),
            self.table0(mem, vpn) is Some,
            mem.same_but(post_mem, self.table0(mem, vpn)->0),
            post_mem.word(self.table0(mem, vpn)->0, index0(vpn) as int) == bits,
            forall|j: int|
                0 <= j < ENTRIES && j != index0(vpn) ==> #[trigger] post_mem.word(
                    self.table0(mem, vpn)->0,
                    j,
                ) == mem.word(self.table0(mem, vpn)->0, j),
        ensures
            self.table1(post_mem, v) == self.table1(mem, v),
            self.table0(post_mem, v) == self.table0(mem, v),
            self.walk(post_mem, v) == if same_entry(v, vpn) {
                Some(PageTableEntry { bits })
            } else {
                self.walk(mem, v)
            },
    {
        self.lemma_path(mem, v);
        self.lemma_path(mem, vpn);
        self.lemma_nodes(mem);
        assert(mem.contains(self.root_ppn));
        if self.table1(mem, v) is Some {
            assert(mem.contains(self.table1(mem, v)->0));
        }
        if self.table0(mem, v) is Some {
            assert(mem.contains(self.table0(mem, v)->0));
        }
    }

    proof fn lemma_leaf_write_wf(&self, mem: &PhysMemory, post_mem: &PhysMemory, t0: u64)
        requires
            self.wf(mem),
            post_mem.wf(),
            self.nodes().contains(t0),
            self.shape@[t0].level == 0,
            mem.same_but(post_mem, t0),
        ensures
            self.wf(post_mem),
    {
        let shape = self.shape@;
        let root = self.root_ppn;
        assert forall|u: u64| #[trigger] shape.dom().contains(u) implies node_ok(
            post_mem,
            shape,
            root,
            u,
        ) by {
            assert(node_ok(mem, shape, root, u));
            let s = shape[u];
            if s.level < 2 {
                assert(node_ok(mem, shape, root, s.parent));
            }
            if s.level > 0 {
                assert forall|i: int| 0 <= i < 512 implies #[trigger] slot_ok(post_mem, shape, u, i) by {
                    assert(slot_ok(mem, shape, u, i));
                }
            }
        }
    }

    /// Mapping a page and looking it up gives a valid entry with the frame
    /// and the flags that were mapped; unmapping it and looking it up gives
    /// an entry that is not valid.
    pub proof fn lemma_map_translate_unmap(&self, mem: &PhysMemory, vpn: u64, ppn: u64, flags: u8)
        requires
            ppn < PPN_LIMIT,
        ensures
            ({
                let entry = PageTableEntry::spec_new(ppn, with_valid(flags));
                let found = self.walk_after_map(mem, vpn, entry, vpn);
                &&& found is Some
                &&& found->0.is_valid()
                &&& found->0.ppn() == ppn
                &&& found->0.flags() == with_valid(flags)
                &&& has_flag(flags, PTE_V) ==> found->0.flags() == flags
            }),
            ({
                let found = self.walk_after_unmap(mem, vpn, vpn);
                found is Some && !found->0.is_valid()
            }),
    {
    }

    /// The leaf entry for `v` once the mapped page `vpn` has been unmapped.
    pub open spec fn walk_after_unmap(&self, mem: &PhysMemory, vpn: u64, v: u64) -> Option<
        PageTableEntry,
    > {
        if same_entry(v, vpn) {
            Some(PageTableEntry::spec_empty())
        } else {
            self.walk(mem, v)
        }
    }

    /// Number of nodes of the table.
    pub closed spec fn node_count(&self) -> nat {
        self.frames@.len()
    }

    /// Maps the page `vpn` to the frame `ppn` with the flags `flags` and the
    /// valid bit. Nodes that are missing on the way are created from fresh
    /// frames. Fails, and changes nothing, when the allocator holds fewer
    /// frames than nodes are missing.
    pub fn map(
        &mut self,
        alloc: &mut StackFrameAllocator,
        mem: &mut PhysMemory,
        vpn: u64,
        ppn: u64,
        flags: u8,
    ) -> (res: Result<(), OutOfFrames>)
        requires
            old(self).wf(old(mem)),
            old(alloc)@.wf(),
            old(alloc).within(old(mem)),
            old(self).owned_in(old(alloc)@),
            ppn < PPN_LIMIT,
            !old(self).is_mapped(old(mem), vpn),
        ensures
            final(self).wf(final(mem)),
            final(alloc)@.wf(),
            final(self).root() == old(self).root(),
            final(self).owned_in(final(alloc)@),
            old(mem).same_extent(final(mem)),
            res is Err <==> old(alloc)@.free_count() < old(self).missing_tables(old(mem), vpn),
            res is Err ==> *final(self) == *old(self) && *final(mem) == *old(mem) && *final(alloc)
                == *old(alloc),
            res is Ok ==> {
                let entry = PageTableEntry::spec_new(ppn, with_valid(flags));
                &&& final(alloc)@ == old(alloc)@.after_allocs(
                    old(self).missing_tables(old(mem), vpn),
                )
                &&& final(self).node_count() == old(self).node_count() + old(self).missing_tables(
                    old(mem),
                    vpn,
                )
                &&& forall|p: u64| #[trigger]
                    final(alloc)@.is_allocated(p) <==> old(alloc)@.is_allocated(p) || final(self).nodes().contains(p)
                &&& forall|p: u64| #[trigger]
                    old(self).nodes().contains(p) ==> final(self).nodes().contains(p)
                &&& forall|p: u64| #[trigger]
                    final(self).nodes().contains(p) ==> old(self).nodes().contains(p) || !old(alloc)@.is_allocated(p)
                &&& forall|p: u64|
                    old(mem).contains(p) && !final(self).nodes().contains(p) ==> #[trigger] final(mem).frame(p) == old(mem).frame(p)
                &&& forall|v: u64|
                    (#[trigger] final(self).table1(final(mem), v) is Some) <==> (old(self).table1(
                        old(mem),
                        v,
                    ) is Some || index2(v) == index2(vpn))
                &&& forall|v: u64|
                    (#[trigger] final(self).table0(final(mem), v) is Some) <==> (old(self).table0(
                        old(mem),
                        v,
                    ) is Some || same_table0(v, vpn))
                &&& forall|v: u64| #[trigger]
                    final(self).walk(final(mem), v) == old(self).walk_after_map(
                        old(mem),
                        vpn,
                        entry,
                        v,
                    )
                &&& forall|v: u64| #[trigger]
                    final(self).mapping(final(mem), v) == if same_entry(v, vpn) {
                        Some(entry)
                    } else {
                        old(self).mapping(old(mem), v)
                    }
            },
    {
        proof {
            self.lemma_nodes(mem);
            self.lemma_path(mem, vpn);
            alloc@.lemma_alloc();
            alloc@.after_alloc().lemma_alloc();
            reveal_with_fuel(FramePool::after_allocs, 3);
        }
        let ghost pre = *self;
        let ghost mem0 = *mem;
        let ghost pool0 = alloc@;
        let missing = self.count_missing(mem, vpn);
        if alloc.free_frames() < missing {
            return Err(OutOfFrames);
        }
        let root = self.root_ppn;
        let t1 = match Self::next_table(mem, root, index2(vpn)) {
            Some(t1) => t1,
            None => {
                let t1 = self.grow(alloc, mem, root, index2(vpn));
                proof {
                    assert forall|v: u64|
                        #![trigger self.table1(mem, v)]
                        #![trigger self.table0(mem, v)]
                        #![trigger self.walk(mem, v)]
                        self.table1(mem, v) == (if index2(v) == index2(vpn) {
                            Some(t1)
                        } else {
                            pre.table1(&mem0, v)
                        }) && self.table0(mem, v) == pre.table0(&mem0, v) && self.walk(mem, v)
                            == pre.walk(&mem0, v) by {
                        pre.lemma_grow_root(&mem0, self, mem, index2(vpn) as int, t1, v);
                    }
                }
                t1
            },
        };
        let ghost mid = *self;
        let ghost mem1 = *mem;
        proof {
            mid.lemma_path(&mem1, vpn);
            mid.lemma_nodes(&mem1);
        }
        let t0 = match Self::next_table(mem, t1, index1(vpn)) {
            Some(t0) => t0,
            None => {
                let t0 = self.grow(alloc, mem, t1, index1(vpn));
                proof {
                    assert forall|v: u64|
                        #![trigger self.table1(mem, v)]
                        #![trigger self.table0(mem, v)]
                        #![trigger self.walk(mem, v)]
                        self.table1(mem, v) == mid.table1(&mem1, v) && self.table0(mem, v) == (
                        if same_table0(v, vpn) {
                            Some(t0)
                        } else {
                            mid.table0(&mem1, v)
                        }) && self.walk(mem, v) == (if same_table0(v, vpn) {
                            Some(PageTableEntry::spec_empty())
                        } else {
                            mid.walk(&mem1, v)
                        }) by {
                        mid.lemma_grow_middle(&mem1, self, mem, vpn, t0, v);
                    }
                }
                t0
            },
        };
        let ghost last = *self;
        let ghost mem2 = *mem;
        proof {
            last.lemma_path(&mem2, vpn);
            last.lemma_nodes(&mem2);
        }
        let entry = PageTableEntry::new(ppn, with_valid(flags));
        mem.write_word(t0, index0(vpn), entry.bits);
        proof {
            last.lemma_leaf_write_wf(&mem2, mem, t0);
            assert forall|v: u64|
                #![trigger self.table1(mem, v)]
                #![trigger self.table0(mem, v)]
                #![trigger self.walk(mem, v)]
                self.table1(mem, v) == last.table1(&mem2, v) && self.table0(mem, v) == last.table0(
                    &mem2,
                    v,
                ) && self.walk(mem, v) == (if same_entry(v, vpn) {
                    Some(entry)
                } else {
                    last.walk(&mem2, v)
                }) by {
                last.lemma_leaf_write(&mem2, mem, vpn, entry.bits, v);
            }
        }
        Ok(())
    }

    /// Clears the leaf entry of the mapped page `vpn`. Nodes stay in place.
    pub fn unmap(&mut self, mem: &mut PhysMemory, vpn: u64)
        requires
            old(self).wf(old(mem)),
            old(self).is_mapped(old(mem), vpn),
        ensures
            final(self).wf(final(mem)),
            *final(self) == *old(self),
            old(mem).same_extent(final(mem)),
            forall|p: u64|
                old(mem).contains(p) && !old(self).nodes().contains(p) ==> #[trigger] final(mem).frame(
                    p,
                ) == old(mem).frame(p),
            forall|v: u64| #[trigger]
                final(self).table1(final(mem), v) == old(self).table1(old(mem), v),
            forall|v: u64| #[trigger]
                final(self).table0(final(mem), v) == old(self).table0(old(mem), v),
            forall|v: u64| #[trigger]
                final(self).walk(final(mem), v) == old(self).walk_after_unmap(old(mem), vpn, v),
            forall|v: u64| #[trigger]
                final(self).mapping(final(mem), v) == if same_entry(v, vpn) {
                    None
                } else {
                    old(self).mapping(old(mem), v)
                },
    {
        proof {
            self.lemma_nodes(mem);
            self.lemma_path(mem, vpn);
        }
        let ghost mem0 = *mem;
        let t1 = Self::next_table(mem, self.root_ppn, index2(vpn)).unwrap();
        let t0 = Self::next_table(mem, t1, index1(vpn)).unwrap();
        mem.write_word(t0, index0(vpn), PageTableEntry::empty().bits);
        proof {
            self.lemma_leaf_write_wf(&mem0, mem, t0);
            assert forall|v: u64|
                #![trigger self.table1(mem, v)]
                #![trigger self.table0(mem, v)]
                #![trigger self.walk(mem, v)]
                self.table1(mem, v) == self.table1(&mem0, v) && self.table0(mem, v) == self.table0(
                    &mem0,
                    v,
                ) && self.walk(mem, v) == (if same_entry(v, vpn) {
                    Some(PageTableEntry::spec_empty())
                } else {
                    self.walk(&mem0, v)
                }) by {
                self.lemma_leaf_write(&mem0, mem, vpn, 0, v);
            }
        }
    }

    /// Gives the frames of all nodes back to the allocator. The table is
    /// consumed.
    pub fn release(self, alloc: &mut StackFrameAllocator, mem: &PhysMemory)
        requires
            self.wf(mem),
            old(alloc)@.wf(),
            self.owned_in(old(alloc)@),
        ensures
            final(alloc)@.wf(),
            final(alloc)@.base == old(alloc)@.base,
            final(alloc)@.end == old(alloc)@.end,
            final(alloc)@.current == old(alloc)@.current,
            final(alloc)@.free_count() == old(alloc)@.free_count() + self.node_count(),
            forall|p: u64| #[trigger]
                final(alloc)@.is_allocated(p) <==> old(alloc)@.is_allocated(p) && !self.nodes().contains(
                    p,
                ),
    {
        let ghost pool0 = alloc@;
        let mut i: usize = 0;
        while i < self.frames.len()
            invariant
                i <= self.frames@.len(),
                self.wf(mem),
                self.owned_in(pool0),
                alloc@.wf(),
                alloc@.base == pool0.base,
                alloc@.end == pool0.end,
                alloc@.current == pool0.current,
                alloc@.free_count() == pool0.free_count() + i,
                forall|p: u64| #[trigger]
                    alloc@.is_allocated(p) <==> pool0.is_allocated(p) && !self.frames@.subrange(
                        0,
                        i as int,
                    ).contains(p),
            decreases self.frames@.len() - i,
        {
            let ppn = self.frames[i];
            proof {
                assert(self.frames@.contains(ppn));
                assert(self.nodes().contains(ppn));
                if self.frames@.subrange(0, i as int).contains(ppn) {
                    let k = choose|k: int| 0 <= k < i && self.frames@.subrange(0, i as int)[k] == ppn;
                    assert(self.frames@[k] == self.frames@[i as int]);
                }
                alloc@.lemma_dealloc(ppn);
            }
            let ghost before = alloc@;
            alloc.dealloc(ppn);
            proof {
                let done = self.frames@.subrange(0, i as int);
                let next = self.frames@.subrange(0, i + 1);
                assert(next =~= done.push(ppn));
                assert forall|p: u64| #[trigger]
                    alloc@.is_allocated(p) <==> pool0.is_allocated(p) && !next.contains(p) by {
                    assert(alloc@.allocated().contains(p) == before.allocated().remove(ppn).contains(p));
                    if done.contains(p) {
                        let k = choose|k: int| 0 <= k < done.len() && done[k] == p;
                        assert(next[k] == p);
                    }
                    if next.contains(p) && p != ppn {
                        let k = choose|k: int| 0 <= k < next.len() && next[k] == p;
                        assert(done[k] == p);
                    }
                    if p == ppn {
                        assert(next[i as int] == ppn);
                    }
                }
            }
            i += 1;
        }
        proof {
            assert(self.frames@.subrange(0, i as int) =~= self.frames@);
        }
    }
}

} // verus!
