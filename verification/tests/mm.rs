use os5::mm::address::{ceil, floor, index0, index1, index2, page_offset, ppn_of, virt_addr, vpn_of};
use os5::mm::frame_allocator::{frame_alloc, frame_dealloc, StackFrameAllocator};
use os5::mm::memory::PhysMemory;
use os5::mm::kernel_space::KernelLayout;
use os5::mm::memory_set::{
    is_perm, layout_disjoint, AreaLayout, MapType, MemError, MemorySet, PERM_R, PERM_U, PERM_W,
    TRAMPOLINE_VPN, TRAP_CONTEXT_VPN,
};
use os5::mm::program::segment_perm;
use os5::mm::page_table::{
    has_flag, with_valid, OutOfFrames, PageTable, PageTableEntry, PTE_R, PTE_U, PTE_V, PTE_W, PTE_X,
    SATP_SV39,
};

fn pool(base: u64, count: usize) -> (StackFrameAllocator, PhysMemory) {
    (StackFrameAllocator::new(base, base + count as u64), PhysMemory::new(base, count))
}

#[test]
fn addresses_split_into_page_and_offset() {
    assert_eq!(page_offset(0x1234), 0x234);
    assert_eq!(floor(0x1234), 1);
    assert_eq!(ceil(0x1234), 2);
    assert_eq!(ceil(0x2000), 2);
    assert_eq!(virt_addr(0xffff_ffff_ffff_f000), 0x7f_ffff_f000);
    assert_eq!(vpn_of(0xffff_ffff_ffff_f000), TRAMPOLINE_VPN);
    assert_eq!(vpn_of(0xffff_ffff_ffff_e000), TRAP_CONTEXT_VPN);
    assert_eq!(ppn_of(0x8020_1abc), 0x80201);
}

#[test]
fn page_numbers_split_into_three_indices() {
    let vpn = (3 << 18) | (5 << 9) | 7;
    assert_eq!(index2(vpn), 3);
    assert_eq!(index1(vpn), 5);
    assert_eq!(index0(vpn), 7);
    assert_eq!(index2(TRAMPOLINE_VPN), 511);
    assert_eq!(index1(TRAMPOLINE_VPN), 511);
    assert_eq!(index0(TRAMPOLINE_VPN), 511);
}

#[test]
fn frames_come_in_order_and_recycled_frames_first() {
    let mut frames = StackFrameAllocator::new(10, 13);
    assert_eq!(frames.free_frames(), 3);
    assert_eq!(frames.alloc_frame(), Some(10));
    assert_eq!(frames.alloc_frame(), Some(11));
    frames.dealloc(10);
    assert_eq!(frames.free_frames(), 2);
    assert_eq!(frames.alloc_frame(), Some(10));
    assert_eq!(frames.alloc_frame(), Some(12));
    assert_eq!(frames.alloc_frame(), None);
    assert_eq!(frames.free_frames(), 0);
}

#[test]
fn frames_are_conserved() {
    let mut frames = StackFrameAllocator::new(100, 108);
    let mut held = Vec::new();
    for _ in 0..5 {
        held.push(frames.alloc_frame().unwrap());
    }
    frames.dealloc(held.remove(1));
    frames.dealloc(held.remove(2));
    held.push(frames.alloc_frame().unwrap());
    // allocated 6, freed 2: four are out, and four are free
    assert_eq!(held.len(), 4);
    assert_eq!(frames.free_frames(), 4);
    for ppn in held {
        frames.dealloc(ppn);
    }
    assert_eq!(frames.free_frames(), 8);
}

#[test]
fn allocated_frames_are_zeroed() {
    let (mut frames, mut mem) = pool(20, 2);
    let first = frame_alloc(&mut frames, &mut mem).unwrap();
    mem.write_byte(first, 17, 0xaa);
    mem.write_word(first, 3, 0x1122_3344_5566_7788);
    assert_eq!(mem.read_byte(first, 17), 0xaa);
    assert_eq!(mem.read_word(first, 3), 0x1122_3344_5566_7788);
    assert_eq!(mem.read_byte(first, 24), 0x88);
    assert_eq!(mem.read_byte(first, 31), 0x11);
    frame_dealloc(&mut frames, first);
    let again = frame_alloc(&mut frames, &mut mem).unwrap();
    assert_eq!(again, first);
    assert_eq!(mem.read_byte(first, 17), 0);
    assert_eq!(mem.read_word(first, 3), 0);
}

#[test]
fn memory_copies_and_clears_frames() {
    let mut mem = PhysMemory::new(5, 3);
    assert_eq!(mem.base_ppn(), 5);
    assert_eq!(mem.frame_count(), 3);
    assert!(mem.has_frame(7));
    assert!(!mem.has_frame(8));
    assert!(!mem.has_frame(4));
    mem.write_word(5, 511, 0xdead_beef);
    mem.copy_frame(5, 7);
    assert_eq!(mem.read_word(7, 511), 0xdead_beef);
    assert_eq!(mem.read_word(6, 511), 0);
    mem.clear_frame(5);
    assert_eq!(mem.read_word(5, 511), 0);
    assert_eq!(mem.read_word(7, 511), 0xdead_beef);
}

#[test]
fn entries_hold_page_number_and_flags() {
    let pte = PageTableEntry::new(0x12345, PTE_V | PTE_R | PTE_X);
    assert_eq!(pte.bits, (0x12345 << 10) | 0b1011);
    assert_eq!(pte.ppn(), 0x12345);
    assert_eq!(pte.flags(), 0b1011);
    assert!(pte.is_valid() && pte.readable() && pte.executable());
    assert!(!pte.writable() && !pte.user());
    assert!(pte.is_leaf());
    let node = PageTableEntry::new(7, PTE_V);
    assert!(node.is_valid() && !node.is_leaf());
    assert!(!PageTableEntry::empty().is_valid());
    assert_eq!(with_valid(PTE_R | PTE_W), PTE_R | PTE_W | PTE_V);
    assert_eq!(with_valid(PTE_V | PTE_U), PTE_V | PTE_U);
    assert!(has_flag(PTE_U | PTE_W, PTE_U));
    assert!(!has_flag(PTE_U | PTE_W, PTE_R));
}

#[test]
fn map_translate_unmap_round_trip() {
    let (mut frames, mut mem) = pool(50, 8);
    let mut table = PageTable::new(&mut frames, &mut mem).unwrap();
    assert_eq!(table.root_ppn(), 50);
    assert_eq!(table.token(&mem), SATP_SV39 | 50);
    let vpn = (1 << 18) | (2 << 9) | 3;
    assert_eq!(table.translate(&mem, vpn), None);
    assert_eq!(table.count_missing(&mem, vpn), 2);
    assert_eq!(table.map(&mut frames, &mut mem, vpn, 0x777, PTE_R | PTE_W | PTE_U), Ok(()));
    let found = table.translate(&mem, vpn).unwrap();
    assert!(found.is_valid());
    assert_eq!(found.ppn(), 0x777);
    assert_eq!(found.flags(), PTE_R | PTE_W | PTE_U | PTE_V);
    // a page of the same node of leaf entries has an entry, which is not valid
    assert_eq!(table.translate(&mem, vpn + 1), Some(PageTableEntry::empty()));
    // a page of another node has none
    assert_eq!(table.translate(&mem, vpn + 512), None);
    assert_eq!(table.count_missing(&mem, vpn + 512), 1);
    assert_eq!(frames.free_frames(), 5);
    table.unmap(&mut mem, vpn);
    let gone = table.translate(&mem, vpn).unwrap();
    assert!(!gone.is_valid());
    // the nodes stay
    assert_eq!(frames.free_frames(), 5);
    table.release(&mut frames, &mem);
    assert_eq!(frames.free_frames(), 8);
}

#[test]
fn map_fails_without_frames_and_changes_nothing() {
    let (mut frames, mut mem) = pool(50, 2);
    let mut table = PageTable::new(&mut frames, &mut mem).unwrap();
    assert_eq!(table.map(&mut frames, &mut mem, 9, 1, PTE_R), Err(OutOfFrames));
    assert_eq!(frames.free_frames(), 1);
    assert_eq!(table.translate(&mem, 9), None);
    let (mut none, mut small) = pool(1, 0);
    assert!(PageTable::new(&mut none, &mut small).is_none());
}

#[test]
fn bare_address_space_maps_the_trampoline_only() {
    let (mut frames, mut mem) = pool(0x100, 16);
    let space = MemorySet::new_bare(&mut frames, &mut mem, 0x80201).unwrap();
    assert_eq!(frames.free_frames(), 13);
    let entry = space.translate(&mem, TRAMPOLINE_VPN).unwrap();
    assert!(entry.is_valid() && entry.readable() && entry.executable());
    assert!(!entry.user() && !entry.writable());
    assert_eq!(entry.ppn(), 0x80201);
    assert_eq!(space.frame_of(&mem, TRAMPOLINE_VPN), Some(0x80201));
    assert_eq!(space.frame_of(&mem, TRAP_CONTEXT_VPN), None);
    assert_eq!(space.trampoline_ppn(), 0x80201);
    assert_eq!(space.translate_user(&mem, 0xffff_ffff_ffff_f000), None);
    let (mut few, mut tiny) = pool(0x100, 2);
    assert_eq!(MemorySet::new_bare(&mut few, &mut tiny, 1).err(), Some(MemError::OutOfFrames));
    assert_eq!(few.free_frames(), 2);
}

#[test]
fn insert_framed_area_maps_fresh_zeroed_pages() {
    let (mut frames, mut mem) = pool(0x100, 32);
    let mut space = MemorySet::new_bare(&mut frames, &mut mem, 0x80201).unwrap();
    let perm = PERM_U | PERM_R | PERM_W;
    assert_eq!(space.insert_framed_area(&mut frames, &mut mem, 0x1000_0000, 0x1000_2000, perm), Ok(()));
    // two pages and two nodes
    assert_eq!(frames.free_frames(), 32 - 3 - 4);
    let first = space.translate(&mem, 0x10000).unwrap();
    let second = space.translate(&mem, 0x10001).unwrap();
    assert!(first.is_valid() && first.user() && first.readable() && first.writable());
    assert!(!first.executable());
    assert_ne!(first.ppn(), second.ppn());
    assert_eq!(space.read_user(&mem, 0x1000_0ffe, 4), Some(vec![0, 0, 0, 0]));
    assert!(space.write_user(&mut mem, 0x1000_0ffe, &vec![1, 2, 3, 4]));
    assert_eq!(space.read_user(&mem, 0x1000_0ffe, 4), Some(vec![1, 2, 3, 4]));
    assert_eq!(mem.read_byte(first.ppn(), 0xfff), 2);
    assert_eq!(mem.read_byte(second.ppn(), 0), 3);
    assert_eq!(space.translate_user(&mem, 0x1000_1234), Some(second.ppn() * 4096 + 0x234));
    assert_eq!(space.area_perm(0x1000_0000, 0x1000_2000), Some(perm));
    assert_eq!(space.area_perm(0x1000_0000, 0x1000_1000), None);
    // reading past the area fails as a whole
    assert_eq!(space.read_user(&mem, 0x1000_1ffe, 4), None);
    assert!(!space.write_user(&mut mem, 0x1000_1ffe, &vec![9, 9, 9, 9]));
    assert_eq!(space.read_user(&mem, 0x1000_1ffe, 2), Some(vec![0, 0]));
    assert!(space.write_user_byte(&mut mem, 0x1000_1fff, 0x5a));
    assert!(!space.write_user_byte(&mut mem, 0x1000_2000, 0x5a));
}

#[test]
fn insert_framed_area_rejects_bad_ranges() {
    let (mut frames, mut mem) = pool(0x100, 12);
    let mut space = MemorySet::new_bare(&mut frames, &mut mem, 0x80201).unwrap();
    let perm = PERM_U | PERM_R;
    assert_eq!(
        space.insert_framed_area(&mut frames, &mut mem, 0x1000_0800, 0x1000_2000, perm),
        Err(MemError::Misaligned)
    );
    assert_eq!(
        space.insert_framed_area(&mut frames, &mut mem, 0x1000_2000, 0x1000_1000, perm),
        Err(MemError::InvalidRange)
    );
    assert_eq!(space.insert_framed_area(&mut frames, &mut mem, 0x1000_0000, 0x1000_1000, perm), Ok(()));
    assert_eq!(
        space.insert_framed_area(&mut frames, &mut mem, 0x0fff_f000, 0x1000_0800, perm),
        Err(MemError::Overlap)
    );
    // the trampoline is mapped, so nothing can be mapped over it
    assert_eq!(
        space.insert_framed_area(&mut frames, &mut mem, 0x7f_ffff_e000, 0x7f_ffff_f800, perm),
        Err(MemError::Overlap)
    );
    let free = frames.free_frames();
    assert_eq!(free, 12 - 3 - 3);
    // seven pages next to the first need seven frames
    assert_eq!(
        space.insert_framed_area(&mut frames, &mut mem, 0x1000_1000, 0x1000_8000, perm),
        Err(MemError::OutOfFrames)
    );
    assert_eq!(frames.free_frames(), free);
    assert_eq!(space.insert_framed_area(&mut frames, &mut mem, 0x1000_1000, 0x1000_7000, perm), Ok(()));
    assert_eq!(frames.free_frames(), 0);
}

#[test]
fn unmap_area_takes_exact_ranges_only() {
    let (mut frames, mut mem) = pool(0x100, 16);
    let mut space = MemorySet::new_bare(&mut frames, &mut mem, 0x80201).unwrap();
    let perm = PERM_U | PERM_R | PERM_W;
    space.insert_framed_area(&mut frames, &mut mem, 0x2000, 0x5000, perm).unwrap();
    let free = frames.free_frames();
    assert_eq!(space.unmap_area(&mut frames, &mut mem, 0x2000, 0x4000), Err(MemError::NoSuchArea));
    assert_eq!(space.unmap_area(&mut frames, &mut mem, 0x3000, 0x5000), Err(MemError::NoSuchArea));
    assert_eq!(frames.free_frames(), free);
    assert!(space.translate(&mem, 3).unwrap().is_valid());
    assert_eq!(space.unmap_area(&mut frames, &mut mem, 0x2000, 0x5000), Ok(()));
    assert_eq!(frames.free_frames(), free + 3);
    assert!(!space.translate(&mem, 2).unwrap().is_valid());
    assert!(!space.translate(&mem, 4).unwrap().is_valid());
    assert_eq!(space.read_user(&mem, 0x2000, 1), None);
    assert_eq!(space.unmap_area(&mut frames, &mut mem, 0x2000, 0x5000), Err(MemError::NoSuchArea));
    // the range can be mapped again
    assert_eq!(space.insert_framed_area(&mut frames, &mut mem, 0x2000, 0x5000, perm), Ok(()));
    space.release(&mut frames, &mem);
    assert_eq!(frames.free_frames(), 16);
}

#[test]
fn areas_never_share_a_page() {
    let (mut frames, mut mem) = pool(0x100, 64);
    let mut space = MemorySet::new_bare(&mut frames, &mut mem, 0x80201).unwrap();
    let perm = PERM_U | PERM_R;
    let mut taken: Vec<(u64, u64)> = Vec::new();
    let requests = [(0x1000u64, 0x4000u64), (0x3000, 0x6000), (0x4000, 0x5000), (0x0, 0x1000), (0x0, 0x2000)];
    for (start, end) in requests {
        let overlaps = taken.iter().any(|(s, e)| start < *e && *s < end);
        let res = space.insert_framed_area(&mut frames, &mut mem, start, end, perm);
        assert_eq!(res.is_ok(), !overlaps);
        if res.is_ok() {
            taken.push((start, end));
        }
    }
    assert_eq!(taken, vec![(0x1000, 0x4000), (0x4000, 0x5000), (0x0, 0x1000)]);
    space.unmap_area(&mut frames, &mut mem, 0x1000, 0x4000).unwrap();
    assert_eq!(space.insert_framed_area(&mut frames, &mut mem, 0x3000, 0x4000, perm), Ok(()));
    assert_eq!(
        space.insert_framed_area(&mut frames, &mut mem, 0x3000, 0x5000, perm),
        Err(MemError::Overlap)
    );
}

#[test]
fn copies_of_address_spaces_are_snapshots() {
    let (mut frames, mut mem) = pool(0x100, 64);
    let mut parent = MemorySet::new_bare(&mut frames, &mut mem, 0x80201).unwrap();
    let perm = PERM_U | PERM_R | PERM_W;
    parent.insert_framed_area(&mut frames, &mut mem, 0x8000, 0xa000, perm).unwrap();
    assert!(parent.write_user(&mut mem, 0x8ffe, &vec![0xde, 0xad, 0xbe, 0xef]));
    let used = 64 - frames.free_frames();
    let child = MemorySet::from_existed_user(&mut frames, &mut mem, &parent).unwrap();
    assert_eq!(64 - frames.free_frames(), 2 * used);
    assert_eq!(child.read_user(&mem, 0x8ffe, 4), Some(vec![0xde, 0xad, 0xbe, 0xef]));
    assert_eq!(child.read_user(&mem, 0x8000, 2), Some(vec![0, 0]));
    assert_eq!(child.read_user(&mem, 0xa000, 1), None);
    assert_ne!(child.frame_of(&mem, 8), parent.frame_of(&mem, 8));
    assert_eq!(child.frame_of(&mem, TRAMPOLINE_VPN), Some(0x80201));
    assert_ne!(child.token(&mem), parent.token(&mem));
    // later stores stay where they are made
    assert!(child.write_user(&mut mem, 0x8ffe, &vec![1, 1]));
    assert!(parent.write_user(&mut mem, 0x9000, &vec![2]));
    assert_eq!(parent.read_user(&mem, 0x8ffe, 4), Some(vec![0xde, 0xad, 2, 0xef]));
    assert_eq!(child.read_user(&mem, 0x8ffe, 4), Some(vec![1, 1, 0xbe, 0xef]));
    child.release(&mut frames, &mem);
    assert_eq!(64 - frames.free_frames(), used);
}

#[test]
fn copy_fails_without_frames_and_gives_them_back() {
    let (mut frames, mut mem) = pool(0x100, 9);
    let mut parent = MemorySet::new_bare(&mut frames, &mut mem, 0x80201).unwrap();
    parent.insert_framed_area(&mut frames, &mut mem, 0x8000, 0x9000, PERM_U | PERM_R).unwrap();
    assert_eq!(frames.free_frames(), 3);
    let res = MemorySet::from_existed_user(&mut frames, &mut mem, &parent);
    assert_eq!(res.err(), Some(MemError::OutOfFrames));
    assert_eq!(frames.free_frames(), 3);
    assert!(parent.translate(&mem, 8).unwrap().is_valid());
}

#[test]
fn layouts_are_checked_for_overlaps() {
    let area = |start_vpn, end_vpn| AreaLayout { start_vpn, end_vpn, map_type: MapType::Framed, map_perm: PERM_R };
    assert!(layout_disjoint(&vec![area(1, 3), area(3, 5), area(0, 1)]));
    assert!(!layout_disjoint(&vec![area(1, 3), area(2, 5)]));
    assert!(!layout_disjoint(&vec![area(TRAMPOLINE_VPN, TRAMPOLINE_VPN + 1)]));
    assert!(layout_disjoint(&vec![area(TRAP_CONTEXT_VPN, TRAMPOLINE_VPN), area(7, 7)]));
    let (mut frames, mut mem) = pool(0x100, 32);
    let res = MemorySet::build(&mut frames, &mut mem, 0x80201, &vec![area(1, 3), area(2, 5)]);
    assert_eq!(res.err(), Some(MemError::Overlap));
    assert_eq!(frames.free_frames(), 32);
    let built = MemorySet::build(&mut frames, &mut mem, 0x80201, &vec![area(1, 3), area(3, 5)]).unwrap();
    // three for the trampoline, four pages, two nodes
    assert_eq!(frames.free_frames(), 32 - 9);
    assert!(built.translate(&mem, 4).unwrap().is_valid());
    assert!(!built.translate(&mem, 5).unwrap().is_valid());
}

#[test]
fn permissions_follow_segment_flags() {
    assert_eq!(segment_perm(4), PERM_U | PERM_R);
    assert_eq!(segment_perm(6), PERM_U | PERM_R | PERM_W);
    assert_eq!(segment_perm(5), 16 + 2 + 8);
    assert_eq!(segment_perm(0), PERM_U);
    assert!(is_perm(PERM_U | PERM_R));
    assert!(!is_perm(PERM_R | 1));
    assert!(!is_perm(32));
}

#[test]
fn kernel_space_maps_each_page_to_itself() {
    let kernel = KernelLayout {
        stext: 0x8020_0000,
        etext: 0x8020_2000,
        srodata: 0x8020_2000,
        erodata: 0x8020_3000,
        sdata: 0x8020_3000,
        edata: 0x8020_4000,
        sbss_with_stack: 0x8020_4000,
        ebss: 0x8020_6000,
        ekernel: 0x87ff_0000,
        strampoline: 0x8020_1000,
    };
    let (mut frames, mut mem) = pool(0x87ff0, 16);
    let space = MemorySet::new_kernel(&mut frames, &mut mem, &kernel).unwrap();
    let text = space.translate(&mem, 0x80201).unwrap();
    assert_eq!(text.ppn(), 0x80201);
    assert!(text.readable() && text.executable() && !text.writable() && !text.user());
    let rodata = space.translate(&mem, 0x80202).unwrap();
    assert!(rodata.readable() && !rodata.executable() && !rodata.writable());
    let memory = space.translate(&mem, 0x87fff).unwrap();
    assert_eq!(memory.ppn(), 0x87fff);
    assert!(memory.readable() && memory.writable() && !memory.user());
    assert!(!space.translate(&mem, 0x80206).unwrap().is_valid());
    assert_eq!(space.frame_of(&mem, TRAMPOLINE_VPN), Some(0x80201));
    // root, two nodes for the trampoline, two for the image, one for the memory
    assert_eq!(frames.free_frames(), 16 - 6);
    let crossed = KernelLayout { etext: 0x8020_3000, ..kernel };
    assert_eq!(MemorySet::new_kernel(&mut frames, &mut mem, &crossed).err(), Some(MemError::Overlap));
    let backwards = KernelLayout { edata: 0x8020_0000, ..kernel };
    assert_eq!(
        MemorySet::new_kernel(&mut frames, &mut mem, &backwards).err(),
        Some(MemError::InvalidRange)
    );
    assert_eq!(frames.free_frames(), 16 - 6);
}

#[test]
fn returned_frames_go_out_again_last_first() {
    let (mut frames, mut mem) = pool(0x100, 16);
    let mut space = MemorySet::new_bare(&mut frames, &mut mem, 0x80201).unwrap();
    let perm = PERM_U | PERM_R | PERM_W;
    space.insert_framed_area(&mut frames, &mut mem, 0x2000, 0x5000, perm).unwrap();
    let held: Vec<u64> = (2..5).map(|vpn| space.frame_of(&mem, vpn).unwrap()).collect();
    // the first page took its frame before the two nodes on its way were made
    assert_eq!(held, vec![0x103, 0x106, 0x107]);
    assert!(space.write_user(&mut mem, 0x4000, &vec![0xcc; 8]));
    space.unmap_area(&mut frames, &mut mem, 0x2000, 0x5000).unwrap();
    // the frames came back in the order of the pages, and go out in reverse, zeroed
    space.insert_framed_area(&mut frames, &mut mem, 0x8000, 0xa000, perm).unwrap();
    assert_eq!(space.frame_of(&mem, 8), Some(0x107));
    assert_eq!(space.frame_of(&mem, 9), Some(0x106));
    assert_eq!(space.read_user(&mem, 0x8000, 8), Some(vec![0; 8]));
    assert_eq!(frames.alloc_frame(), Some(0x103));
    // with nothing returned left, the cursor goes on where it stood
    assert_eq!(frames.alloc_frame(), Some(0x108));
}
