//! The kernel's own address space: the sections of the kernel image and
//! the physical memory, each page mapped to the frame with its own number.

use vstd::prelude::*;
use crate::config::MEMORY_END;
use crate::mm::address::{ceil, floor, ppn_of, virt_addr, VPN_LIMIT};
use crate::mm::frame_allocator::StackFrameAllocator;
use crate::mm::memory::PhysMemory;
use crate::mm::memory_set::{AreaLayout, Cover, MapType, MemError, MemorySet};

verus! {

/// Where the sections of the kernel image lie in physical memory, as the
/// linker placed them.
#[derive(Clone, Copy, Debug, PartialEq, Eq, Structural)]
pub struct KernelLayout {
    pub stext: u64,
    pub etext: u64,
    pub srodata: u64,
    pub erodata: u64,
    pub sdata: u64,
    pub edata: u64,
    pub sbss_with_stack: u64,
    pub ebss: u64,
    /// First address past the kernel image.
    pub ekernel: u64,
    /// Address of the page that holds the trap entry and exit code.
    pub strampoline: u64,
}

/// Permission mask of the kernel's text: readable and executable.
pub const KERNEL_TEXT_PERM: u8 = 10;

/// Permission mask of the kernel's read-only data.
pub const KERNEL_RODATA_PERM: u8 = 2;

/// Permission mask of the kernel's data and of physical memory: readable
/// and writable.
pub const KERNEL_DATA_PERM: u8 = 6;

/// The identical area over the addresses `[start, end)`.
pub open spec fn spec_section_area(start: u64, end: u64, perm: u8) -> AreaLayout {
    AreaLayout {
        start_vpn: floor(virt_addr(start)),
        end_vpn: ceil(virt_addr(end)),
        map_type: MapType::Identical,
        map_perm: perm,
    }
}

/// The identical area over the addresses `[start, end)`.
#[verifier::when_used_as_spec(spec_section_area)]
pub fn section_area(start: u64, end: u64, perm: u8) -> (area: AreaLayout)
    ensures
        area == spec_section_area(start, end, perm),
        area.start_vpn < VPN_LIMIT,
        area.end_vpn <= VPN_LIMIT,
{
    AreaLayout {
        start_vpn: floor(virt_addr(start)),
        end_vpn: ceil(virt_addr(end)),
        map_type: MapType::Identical,
        map_perm: perm,
    }
}

impl KernelLayout {
    /// The areas of the kernel's address space: text, read-only data, data,
    /// bss, and the physical memory past the kernel image.
    pub open spec fn areas(&self) -> Seq<AreaLayout> {
        seq![
            section_area(self.stext, self.etext, KERNEL_TEXT_PERM),
            section_area(self.srodata, self.erodata, KERNEL_RODATA_PERM),
            section_area(self.sdata, self.edata, KERNEL_DATA_PERM),
            section_area(self.sbss_with_stack, self.ebss, KERNEL_DATA_PERM),
            section_area(self.ekernel, MEMORY_END, KERNEL_DATA_PERM),
        ]
    }

    /// Why building the kernel's address space fails with `free` frames
    /// left: the first of the reasons that holds, if any does.
    pub open spec fn failure(&self, free: nat) -> Option<MemError> {
        if exists|i: int|
            0 <= i < self.areas().len() && (#[trigger] self.areas()[i]).end_vpn
                < self.areas()[i].start_vpn {
            Some(MemError::InvalidRange)
        } else {
            MemorySet::build_failure(self.areas(), free)
        }
    }
}

impl MemorySet {
    /// The kernel's address space: its sections and the physical memory
    /// past the image, each page mapped to the frame with its own number,
    /// and the trampoline. Fails when a section ends before it starts, when
    /// sections overlap, or when the allocator holds too few frames; the
    /// frames taken until then are given back.
    pub fn new_kernel(
        alloc: &mut StackFrameAllocator,
        mem: &mut PhysMemory,
        kernel: &KernelLayout,
    ) -> (res: Result<MemorySet, MemError>)
        requires
            old(alloc)@.wf(),
            old(mem).wf(),
            old(alloc).within(old(mem)),
        ensures
            final(alloc)@.wf(),
            final(mem).wf(),
            final(alloc).within(final(mem)),
            old(mem).same_extent(final(mem)),
            final(alloc)@.base == old(alloc)@.base,
            final(alloc)@.end == old(alloc)@.end,
            forall|p: u64|
                old(mem).contains(p) && old(alloc)@.is_allocated(p) ==> #[trigger] final(mem).frame(p)
                    == old(mem).frame(p),
            match res {
                Err(e) => {
                    &&& kernel.failure(old(alloc)@.free_count()) == Some(e)
                    &&& forall|p: u64| #[trigger]
                        final(alloc)@.is_allocated(p) <==> old(alloc)@.is_allocated(p)
                },
                Ok(ms) => {
                    &&& kernel.failure(old(alloc)@.free_count()) is None
                    &&& ms.wf(final(mem))
                    &&& ms.owned_in(final(alloc)@)
                    &&& ms.trampoline() == ppn_of(kernel.strampoline)
                    &&& ms.laid_out(kernel.areas())
                    &&& final(alloc)@.free_count() == old(alloc)@.free_count() - Cover::total(
                        kernel.areas(),
                    )
                    &&& final(alloc)@ == old(alloc)@.after_allocs(Cover::total(kernel.areas()))
                    &&& forall|p: u64| #[trigger]
                        final(alloc)@.is_allocated(p) <==> old(alloc)@.is_allocated(p) || ms.owns(p)
                    &&& forall|p: u64| #[trigger] ms.owns(p) ==> !old(alloc)@.is_allocated(p)
                    &&& forall|p: u64|
                        old(mem).contains(p) && !ms.owns(p) ==> #[trigger] final(mem).frame(p) == old(mem).frame(p)
                },
            },
    {
        let mut layout: Vec<AreaLayout> = Vec::new();
        layout.push(section_area(kernel.stext, kernel.etext, KERNEL_TEXT_PERM));
        layout.push(section_area(kernel.srodata, kernel.erodata, KERNEL_RODATA_PERM));
        layout.push(section_area(kernel.sdata, kernel.edata, KERNEL_DATA_PERM));
        layout.push(section_area(kernel.sbss_with_stack, kernel.ebss, KERNEL_DATA_PERM));
        layout.push(section_area(kernel.ekernel, MEMORY_END, KERNEL_DATA_PERM));
        assert(layout@ =~= kernel.areas());
        let mut i: usize = 0;
        while i < layout.len()
            invariant
                i <= layout@.len(),
                layout@ == kernel.areas(),
                *mem == *old(mem),
                *alloc == *old(alloc),
                old(alloc)@.wf(),
                old(mem).wf(),
                old(alloc).within(old(mem)),
                forall|a: int| 0 <= a < i ==> (#[trigger] layout@[a]).start_vpn <= layout@[a].end_vpn,
            decreases layout@.len() - i,
        {
            if layout[i].end_vpn < layout[i].start_vpn {
                return Err(MemError::InvalidRange);
            }
            i += 1;
        }
        proof {
            assert forall|a: int| 0 <= a < layout@.len() implies (#[trigger] layout@[a]).wf() by {
                assert(layout@[a].start_vpn <= layout@[a].end_vpn);
            }
        }
        let ghost mem0 = *mem;
        let ghost pool0 = alloc@;
        let res = Self::build(alloc, mem, ppn_of(kernel.strampoline), &layout);
        proof {
            if res is Ok {
                let ms = res->Ok_0;
                assert forall|p: u64| mem0.contains(p) && pool0.is_allocated(p) implies #[trigger] mem.frame(
                    p,
                ) == mem0.frame(p) by {
                    assert(!ms.owns(p));
                }
            }
        }
        res
    }
}

} // verus!
