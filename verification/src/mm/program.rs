//! The address space of a user program: the segments of its image, its
//! user stack, its trap context and the trampoline.

use vstd::prelude::*;
use crate::config::{PAGE_SIZE, USER_STACK_PAGE_NUM};
use crate::mm::address::{ceil, floor, PPN_LIMIT, VPN_LIMIT};
use crate::mm::elf::{elf_entry, elf_failure, elf_segments, parse, segment_fits, ElfError, Segment};
use crate::mm::frame_allocator::StackFrameAllocator;
use crate::mm::memory::{zero_frame, PhysMemory};
use crate::mm::memory_set::{
    is_perm, AreaLayout, Cover, MapType, MemError, MemorySet, TRAMPOLINE_VPN, TRAP_CONTEXT_VPN,
};

verus! {

/// Permission mask of a user stack: readable and writable in user mode.
pub const USER_STACK_PERM: u8 = 22;

/// Permission mask of the trap context: readable and writable, supervisor only.
pub const TRAP_CONTEXT_PERM: u8 = 6;

/// Permission mask of a segment with the given flags: user mode, and the
/// read, write and execute bits as the flags say.
pub open spec fn spec_segment_perm(flags: u32) -> u8 {
    let r: int = if flags / 4 % 2 == 1 {
        2
    } else {
        0
    };
    let w: int = if flags / 2 % 2 == 1 {
        4
    } else {
        0
    };
    let x: int = if flags % 2 == 1 {
        8
    } else {
        0
    };
    (16 + r + w + x) as u8
}

/// Permission mask of a segment with the given flags.
#[verifier::when_used_as_spec(spec_segment_perm)]
pub fn segment_perm(flags: u32) -> (perm: u8)
    ensures
        perm == spec_segment_perm(flags),
        is_perm(perm),
{
    let r: u8 = if flags / 4 % 2 == 1 {
        2
    } else {
        0
    };
    let w: u8 = if flags / 2 % 2 == 1 {
        4
    } else {
        0
    };
    let x: u8 = if flags % 2 == 1 {
        8
    } else {
        0
    };
    16 + r + w + x
}

/// The framed area that holds a segment.
pub open spec fn segment_area(seg: Segment) -> AreaLayout {
    AreaLayout {
        start_vpn: floor(seg.vaddr),
        end_vpn: ceil((seg.vaddr + seg.mem_size) as u64),
        map_type: MapType::Framed,
        map_perm: segment_perm(seg.flags),
    }
}

/// The page past the highest page of the segments.
pub open spec fn segments_top(segs: Seq<Segment>) -> u64
    decreases segs.len(),
{
    if segs.len() == 0 {
        0
    } else {
        let below = segments_top(segs.drop_last());
        let end = segment_area(segs.last()).end_vpn;
        if end > below {
            end
        } else {
            below
        }
    }
}

/// The areas of the address space of a program: one for each segment, in
/// order, then the user stack above the highest segment, then the trap
/// context below the trampoline.
pub open spec fn image_layout(segs: Seq<Segment>) -> Seq<AreaLayout> {
    Seq::new(
        segs.len() + 2,
        |i: int|
            if i < segs.len() {
                segment_area(segs[i])
            } else if i == segs.len() {
                AreaLayout {
                    start_vpn: segments_top(segs),
                    end_vpn: (segments_top(segs) + USER_STACK_PAGE_NUM) as u64,
                    map_type: MapType::Framed,
                    map_perm: USER_STACK_PERM,
                }
            } else {
                AreaLayout {
                    start_vpn: TRAP_CONTEXT_VPN,
                    end_vpn: TRAMPOLINE_VPN,
                    map_type: MapType::Framed,
                    map_perm: TRAP_CONTEXT_PERM,
                }
            },
    )
}

/// Why loading an image fails with `free` frames left: the first of the
/// reasons that holds, if any does.
pub open spec fn load_failure(bytes: Seq<u8>, free: nat) -> Option<ElfError> {
    let segs = elf_segments(bytes);
    match elf_failure(bytes) {
        Some(e) => Some(e),
        None => if segments_top(segs) + USER_STACK_PAGE_NUM > VPN_LIMIT {
            Some(ElfError::BadSegment)
        } else {
            match MemorySet::build_failure(image_layout(segs), free) {
                Some(MemError::Overlap) => Some(ElfError::Overlap),
                Some(_) => Some(ElfError::OutOfFrames),
                None => None,
            }
        },
    }
}

/// The byte that a loaded segment holds at the address `addr`: a byte of
/// the image in the part that comes from the file, zero after it.
pub open spec fn segment_byte(bytes: Seq<u8>, seg: Segment, addr: int) -> u8 {
    if seg.vaddr <= addr < seg.vaddr + seg.file_size {
        bytes[seg.offset + addr - seg.vaddr]
    } else {
        0
    }
}

impl MemorySet {
    /// Whether the frames of the area with index `j` hold the first `done`
    /// bytes of a segment from the file, and zeros elsewhere.
    pub open spec fn holds_segment(
        &self,
        mem: &PhysMemory,
        j: int,
        bytes: Seq<u8>,
        seg: Segment,
        done: int,
    ) -> bool {
        forall|k: int, off: int|
            0 <= k < self.areas()[j].data_frames@.len() && 0 <= off < PAGE_SIZE ==> #[trigger] mem.frame(
                self.areas()[j].data_frames@[k],
            )[off] == segment_byte(
                bytes,
                Segment { file_size: done as u64, ..seg },
                (self.areas()[j].start_vpn + k) * PAGE_SIZE + off,
            )
    }

    /// Whether the frames of the address space hold a loaded image: those
    /// of the first areas the segments, those of the other areas zeros.
    pub open spec fn holds_image(&self, mem: &PhysMemory, bytes: Seq<u8>, segs: Seq<Segment>) -> bool {
        &&& forall|j: int|
            0 <= j < segs.len() && j < self.areas().len() ==> #[trigger] self.holds_segment(
                mem,
                j,
                bytes,
                segs[j],
                segs[j].file_size as int,
            )
        &&& forall|j: int, k: int|
            segs.len() <= j < self.areas().len() && 0 <= k < self.areas()[j].data_frames@.len()
                ==> mem.frame(#[trigger] self.areas()[j].data_frames@[k]) == zero_frame()
    }

    proof fn lemma_area_frames(&self, mem: &PhysMemory, j: int)
        requires
            self.wf(mem),
            0 <= j < self.areas().len(),
            self.areas()[j].map_type == MapType::Framed,
        ensures
            self.areas()[j].wf(),
            self.areas()[j].data_frames@.no_duplicates(),
            forall|k: int|
                0 <= k < self.areas()[j].data_frames@.len() ==> {
                    let p = #[trigger] self.areas()[j].data_frames@[k];
                    &&& mem.contains(p)
                    &&& self.data_frames().contains(p)
                    &&& !self.table().nodes().contains(p)
                },
    {
        self.lemma_wf(mem);
        let dst = self.areas()[j].data_frames@;
        assert forall|a: int, b: int| 0 <= a < dst.len() && 0 <= b < dst.len() && a != b implies dst[a]
            != dst[b] by {
            if dst[a] == dst[b] {
                self.lemma_two_frames(mem, j, a, j, b);
            }
        }
        assert forall|k: int| 0 <= k < dst.len() implies {
            let p = #[trigger] self.areas()[j].data_frames@[k];
            &&& mem.contains(p)
            &&& self.data_frames().contains(p)
            &&& !self.table().nodes().contains(p)
        } by {
            let p = self.areas()[j].data_frames@[k];
            assert(self.data_frames().contains(p));
            assert(self.owns(p));
        }
    }

    /// Copies the bytes of a segment from the image into the frames of the
    /// area with index `j`, which hold zeros.
    fn load_segment(&self, mem: &mut PhysMemory, j: usize, bytes: &Vec<u8>, seg: Segment)
        requires
            self.wf(old(mem)),
            j < self.areas().len(),
            segment_area(seg).describes(&self.areas()[j as int]),
            segment_fits(seg, bytes@.len()),
            forall|k: int|
                0 <= k < self.areas()[j as int].data_frames@.len() ==> old(mem).frame(
                    #[trigger] self.areas()[j as int].data_frames@[k],
                ) == zero_frame(),
        ensures
            self.wf(final(mem)),
            old(mem).same_extent(final(mem)),
            self.holds_segment(final(mem), j as int, bytes@, seg, seg.file_size as int),
            forall|p: u64|
                old(mem).contains(p) && !self.areas()[j as int].data_frames@.contains(p)
                    ==> #[trigger] final(mem).frame(p) == old(mem).frame(p),
    {
        let ghost mem0 = *mem;
        let ghost frames = self.areas()[j as int].data_frames@;
        let start = self.area(j).start_vpn;
        proof {
            self.lemma_area_frames(&mem0, j as int);
            assert(self.holds_segment(&mem0, j as int, bytes@, seg, 0)) by {
                assert forall|k: int, off: int|
                    0 <= k < frames.len() && 0 <= off < PAGE_SIZE implies #[trigger] mem0.frame(
                    frames[k],
                )[off] == 0u8 by {
                    assert(mem0.frame(self.areas()[j as int].data_frames@[k]) == zero_frame());
                }
            }
        }
        let blen = bytes.len();
        let mut i: u64 = 0;
        while i < seg.file_size
            invariant
                i <= seg.file_size,
                blen == bytes@.len(),
                self.wf(&mem0),
                self.wf(mem),
                mem0.same_extent(mem),
                j < self.areas().len(),
                frames == self.areas()[j as int].data_frames@,
                start == self.areas()[j as int].start_vpn,
                self.areas()[j as int].map_type == MapType::Framed,
                segment_area(seg).describes(&self.areas()[j as int]),
                segment_fits(seg, bytes@.len()),
                self.holds_segment(mem, j as int, bytes@, seg, i as int),
                forall|p: u64|
                    mem0.contains(p) && !frames.contains(p) ==> #[trigger] mem.frame(p) == mem0.frame(p),
            decreases seg.file_size - i,
        {
            let ghost mem1 = *mem;
            proof {
                self.lemma_area_frames(&mem1, j as int);
                self.lemma_wf(&mem1);
            }
            let addr = seg.vaddr + i;
            let k = (addr / PAGE_SIZE - start) as usize;
            let off = addr % PAGE_SIZE;
            let frame = self.area(j).data_frames[k];
            let value = bytes[(seg.offset + i) as usize];
            mem.write_byte(frame, off, value);
            proof {
                assert forall|t: u64| #[trigger] self.table().nodes().contains(t) implies mem.frame(t)
                    == mem1.frame(t) by {
                    assert(self.owns(t));
                    assert(mem1.contains(t)) by {
                        self.lemma_wf(&mem1);
                    }
                }
                self.lemma_frame_invariance(&mem1, mem);
                mem1.lemma_frame_len(frame);
                assert forall|kk: int, o: int|
                    0 <= kk < frames.len() && 0 <= o < PAGE_SIZE implies #[trigger] mem.frame(
                    frames[kk],
                )[o] == segment_byte(
                    bytes@,
                    Segment { file_size: (i + 1) as u64, ..seg },
                    (start + kk) * PAGE_SIZE + o,
                ) by {
                    assert(mem1.frame(frames[kk])[o] == segment_byte(
                        bytes@,
                        Segment { file_size: i, ..seg },
                        (start + kk) * PAGE_SIZE + o,
                    ));
                    if kk != k {
                        assert(frames[kk] != frames[k as int]);
                        assert(mem.frame(frames[kk]) == mem1.frame(frames[kk]));
                    }
                }
                assert forall|p: u64| mem0.contains(p) && !frames.contains(p) implies #[trigger] mem.frame(
                    p,
                ) == mem0.frame(p) by {
                    assert(frames[k as int] == frame);
                    assert(mem.frame(p) == mem1.frame(p));
                }
            }
            i += 1;
        }
    }

    /// What holds of the frames once the first `done` segments were loaded.
    pub open spec fn loading(
        &self,
        mem: &PhysMemory,
        bytes: Seq<u8>,
        segs: Seq<Segment>,
        done: int,
    ) -> bool {
        &&& forall|j: int|
            0 <= j < done && j < self.areas().len() ==> #[trigger] self.holds_segment(
                mem,
                j,
                bytes,
                segs[j],
                segs[j].file_size as int,
            )
        &&& forall|j: int, k: int|
            done <= j < self.areas().len() && 0 <= k < self.areas()[j].data_frames@.len()
                ==> mem.frame(#[trigger] self.areas()[j].data_frames@[k]) == zero_frame()
    }

    proof fn lemma_segment_loaded(
        &self,
        before: &PhysMemory,
        after: &PhysMemory,
        bytes: Seq<u8>,
        segs: Seq<Segment>,
        j: int,
    )
        requires
            self.wf(before),
            self.wf(after),
            0 <= j < segs.len(),
            self.laid_out(image_layout(segs)),
            self.loading(before, bytes, segs, j),
            self.holds_segment(after, j, bytes, segs[j], segs[j].file_size as int),
            forall|p: u64|
                before.contains(p) && !self.areas()[j].data_frames@.contains(p) ==> #[trigger] after.frame(
                    p,
                ) == before.frame(p),
        ensures
            self.loading(after, bytes, segs, j + 1),
    {
        let layout = image_layout(segs);
        let dst = self.areas()[j].data_frames@;
        assert forall|a: int, k: int|
            0 <= a < self.areas().len() && a != j && 0 <= k < self.areas()[a].data_frames@.len()
            implies after.frame(#[trigger] self.areas()[a].data_frames@[k]) == before.frame(
            self.areas()[a].data_frames@[k],
        ) by {
            let p = self.areas()[a].data_frames@[k];
            assert(layout[a].describes(&self.areas()[a]));
            assert(layout[j].describes(&self.areas()[j]));
            self.lemma_area_frames(before, a);
            if dst.contains(p) {
                let l = choose|l: int| 0 <= l < dst.len() && dst[l] == p;
                self.lemma_two_frames(before, a, k, j, l);
            }
        }
        assert forall|a: int| 0 <= a < j + 1 && a < self.areas().len() implies #[trigger] self.holds_segment(
            after,
            a,
            bytes,
            segs[a],
            segs[a].file_size as int,
        ) by {
            if a < j {
                assert(self.holds_segment(before, a, bytes, segs[a], segs[a].file_size as int));
                assert forall|k: int, off: int|
                    0 <= k < self.areas()[a].data_frames@.len() && 0 <= off < PAGE_SIZE
                    implies #[trigger] after.frame(self.areas()[a].data_frames@[k])[off] == segment_byte(
                    bytes,
                    Segment { file_size: segs[a].file_size, ..segs[a] },
                    (self.areas()[a].start_vpn + k) * PAGE_SIZE + off,
                ) by {
                    assert(after.frame(self.areas()[a].data_frames@[k]) == before.frame(
                        self.areas()[a].data_frames@[k],
                    ));
                    assert(before.frame(self.areas()[a].data_frames@[k])[off] == segment_byte(
                        bytes,
                        Segment { file_size: segs[a].file_size, ..segs[a] },
                        (self.areas()[a].start_vpn + k) * PAGE_SIZE + off,
                    ));
                }
            }
        }
    }

    /// The address space of a program: its segments with the bytes of the
    /// image, a user stack above the highest segment, the trap context and
    /// the trampoline. Returns it with the initial user stack pointer and
    /// the entry point. Fails when the image is not a loadable 64-bit
    /// RISC-V ELF image or the allocator holds too few frames; the frames
    /// taken until then are given back.
    pub fn from_elf(
        alloc: &mut StackFrameAllocator,
        mem: &mut PhysMemory,
        trampoline_ppn: u64,
        bytes: &Vec<u8>,
    ) -> (res: Result<(MemorySet, u64, u64), ElfError>)
        requires
            old(alloc)@.wf(),
            old(mem).wf(),
            old(alloc).within(old(mem)),
            trampoline_ppn < PPN_LIMIT,
        ensures
            final(alloc)@.wf(),
            final(mem).wf(),
            final(alloc).within(final(mem)),
            old(mem).same_extent(final(mem)),
            final(alloc)@.base == old(alloc)@.base,
            final(alloc)@.end == old(alloc)@.end,
            forall|p: u64|
                old(mem).contains(p) && old(alloc)@.is_allocated(p) ==> #[trigger] final(mem).frame(p)
                    == old(mem).frame(p),
            match res {
                Err(e) => {
                    &&& load_failure(bytes@, old(alloc)@.free_count()) == Some(e)
                    &&& forall|p: u64| #[trigger]
                        final(alloc)@.is_allocated(p) <==> old(alloc)@.is_allocated(p)
                },
                Ok((ms, user_sp, entry)) => {
                    let segs = elf_segments(bytes@);
                    &&& load_failure(bytes@, old(alloc)@.free_count()) is None
                    &&& entry == elf_entry(bytes@)
                    &&& user_sp == (segments_top(segs) + USER_STACK_PAGE_NUM) * PAGE_SIZE
                    &&& ms.wf(final(mem))
                    &&& ms.owned_in(final(alloc)@)
                    &&& ms.trampoline() == trampoline_ppn
                    &&& ms.laid_out(image_layout(segs))
                    &&& ms.holds_image(final(mem), bytes@, segs)
                    &&& final(alloc)@.free_count() == old(alloc)@.free_count() - Cover::total(
                        image_layout(segs),
                    )
                    &&& final(alloc)@ == old(alloc)@.after_allocs(Cover::total(image_layout(segs)))
                    &&& forall|p: u64| #[trigger]
                        final(alloc)@.is_allocated(p) <==> old(alloc)@.is_allocated(p) || ms.owns(p)
                    &&& forall|p: u64| #[trigger] ms.owns(p) ==> !old(alloc)@.is_allocated(p)
                    &&& forall|p: u64|
                        old(mem).contains(p) && !ms.owns(p) ==> #[trigger] final(mem).frame(p) == old(mem).frame(p)
                },
            },
    {
        let ghost mem0 = *mem;
        let ghost pool0 = alloc@;
        let (segments, entry) = match parse(bytes) {
            Ok(parsed) => parsed,
            Err(e) => {
                return Err(e);
            },
        };
        let ghost segs = segments@;
        let (mut layout, top) = plan(&segments, Ghost(bytes@.len()));
        if top > VPN_LIMIT - USER_STACK_PAGE_NUM {
            return Err(ElfError::BadSegment);
        }
        layout.push(
            AreaLayout {
                start_vpn: top,
                end_vpn: top + USER_STACK_PAGE_NUM,
                map_type: MapType::Framed,
                map_perm: USER_STACK_PERM,
            },
        );
        layout.push(
            AreaLayout {
                start_vpn: TRAP_CONTEXT_VPN,
                end_vpn: TRAMPOLINE_VPN,
                map_type: MapType::Framed,
                map_perm: TRAP_CONTEXT_PERM,
            },
        );
        proof {
            assert(layout@ =~= image_layout(segs));
            assert forall|i: int| 0 <= i < layout@.len() implies (#[trigger] layout@[i]).wf() by {
                if i < segs.len() {
                    assert(segment_area(segs[i]).wf());
                }
            }
        }
        let ms = match Self::build(alloc, mem, trampoline_ppn, &layout) {
            Ok(ms) => ms,
            Err(e) => {
                return Err(
                    match e {
                        MemError::Overlap => ElfError::Overlap,
                        _ => ElfError::OutOfFrames,
                    },
                );
            },
        };
        let ghost mem1 = *mem;
        proof {
            ms.lemma_wf(&mem1);
        }
        let mut j: usize = 0;
        while j < segments.len()
            invariant
                j <= segments@.len(),
                segs == segments@,
                ms.wf(mem),
                ms.wf(&mem1),
                mem1.same_extent(mem),
                ms.laid_out(image_layout(segs)),
                forall|i: int| 0 <= i < segs.len() ==> segment_fits(#[trigger] segs[i], bytes@.len()),
                ms.loading(mem, bytes@, segs, j as int),
                forall|p: u64|
                    mem1.contains(p) && !ms.data_frames().contains(p) ==> #[trigger] mem.frame(p)
                        == mem1.frame(p),
            decreases segments@.len() - j,
        {
            let ghost mem2 = *mem;
            proof {
                assert(image_layout(segs)[j as int].describes(&ms.areas()[j as int]));
                ms.lemma_area_frames(&mem2, j as int);
            }
            ms.load_segment(mem, j, bytes, segments[j]);
            proof {
                ms.lemma_segment_loaded(&mem2, mem, bytes@, segs, j as int);
                assert forall|p: u64|
                    mem1.contains(p) && !ms.data_frames().contains(p) implies #[trigger] mem.frame(p)
                    == mem1.frame(p) by {
                    if ms.areas()[j as int].data_frames@.contains(p) {
                        let k = choose|k: int|
                            0 <= k < ms.areas()[j as int].data_frames@.len()
                                && ms.areas()[j as int].data_frames@[k] == p;
                        assert(ms.data_frames().contains(ms.areas()[j as int].data_frames@[k]));
                    }
                    assert(mem.frame(p) == mem2.frame(p));
                }
            }
            j += 1;
        }
        proof {
            ms.lemma_wf(mem);
            assert forall|p: u64| mem0.contains(p) && !ms.owns(p) implies #[trigger] mem.frame(p)
                == mem0.frame(p) by {
                assert(mem1.frame(p) == mem0.frame(p));
                assert(mem.frame(p) == mem1.frame(p));
            }
            assert forall|p: u64| mem0.contains(p) && pool0.is_allocated(p) implies #[trigger] mem.frame(
                p,
            ) == mem0.frame(p) by {
                assert(!ms.owns(p));
            }
        }
        Ok((ms, (top + USER_STACK_PAGE_NUM) * PAGE_SIZE, entry))
    }
}

/// The areas of the segments, in order, and the page past the highest of them.
fn plan(segments: &Vec<Segment>, Ghost(len): Ghost<nat>) -> (res: (Vec<AreaLayout>, u64))
    requires
        forall|i: int| 0 <= i < segments@.len() ==> segment_fits(#[trigger] segments@[i], len),
    ensures
        res.0@.len() == segments@.len(),
        forall|i: int| 0 <= i < segments@.len() ==> #[trigger] res.0@[i] == segment_area(segments@[i]),
        forall|i: int| 0 <= i < segments@.len() ==> (#[trigger] segment_area(segments@[i])).wf(),
        res.1 == segments_top(segments@),
        res.1 <= VPN_LIMIT,
{
    let mut layout: Vec<AreaLayout> = Vec::new();
    let mut top: u64 = 0;
    let mut i: usize = 0;
    while i < segments.len()
        invariant
            i <= segments@.len(),
            forall|a: int| 0 <= a < segments@.len() ==> segment_fits(#[trigger] segments@[a], len),
            layout@.len() == i,
            forall|a: int| 0 <= a < i ==> #[trigger] layout@[a] == segment_area(segments@[a]),
            forall|a: int| 0 <= a < i ==> (#[trigger] segment_area(segments@[a])).wf(),
            top == segments_top(segments@.take(i as int)),
            top <= VPN_LIMIT,
        decreases segments@.len() - i,
    {
        let seg = segments[i];
        proof {
            assert(segment_fits(segments@[i as int], len));
            assert(segments@.take(i + 1).drop_last() =~= segments@.take(i as int));
            assert(segments@.take(i + 1).last() == seg);
        }
        let area = AreaLayout {
            start_vpn: floor(seg.vaddr),
            end_vpn: ceil(seg.vaddr + seg.mem_size),
            map_type: MapType::Framed,
            map_perm: segment_perm(seg.flags),
        };
        if area.end_vpn > top {
            top = area.end_vpn;
        }
        layout.push(area);
        i += 1;
    }
    proof {
        assert(segments@.take(i as int) =~= segments@);
    }
    (layout, top)
}

} // verus!
