use os5::mm::elf::{parse, ElfError, Segment};
use os5::mm::frame_allocator::StackFrameAllocator;
use os5::mm::memory::PhysMemory;
use os5::mm::memory_set::{MemorySet, TRAP_CONTEXT_VPN};

fn put(bytes: &mut Vec<u8>, at: usize, value: u64, width: usize) {
    for k in 0..width {
        bytes[at + k] = (value >> (8 * k)) as u8;
    }
}

/// An ELF image with the given entry point and segments
/// (address, bytes in the file, size in memory, flags).
fn image(entry: u64, segments: &[(u64, Vec<u8>, u64, u32)]) -> Vec<u8> {
    let mut bytes = vec![0u8; 64 + 56 * segments.len()];
    bytes[0..4].copy_from_slice(&[0x7f, b'E', b'L', b'F']);
    bytes[4] = 2;
    bytes[5] = 1;
    bytes[6] = 1;
    put(&mut bytes, 16, 2, 2);
    put(&mut bytes, 18, 243, 2);
    put(&mut bytes, 20, 1, 4);
    put(&mut bytes, 24, entry, 8);
    put(&mut bytes, 32, 64, 8);
    put(&mut bytes, 52, 64, 2);
    put(&mut bytes, 54, 56, 2);
    put(&mut bytes, 56, segments.len() as u64, 2);
    for (i, (vaddr, data, mem_size, flags)) in segments.iter().enumerate() {
        let at = 64 + 56 * i;
        let offset = bytes.len() as u64;
        put(&mut bytes, at, 1, 4);
        put(&mut bytes, at + 4, *flags as u64, 4);
        put(&mut bytes, at + 8, offset, 8);
        put(&mut bytes, at + 16, *vaddr, 8);
        put(&mut bytes, at + 24, *vaddr, 8);
        put(&mut bytes, at + 32, data.len() as u64, 8);
        put(&mut bytes, at + 40, *mem_size, 8);
        put(&mut bytes, at + 48, 0x1000, 8);
        bytes.extend_from_slice(data);
    }
    bytes
}

fn pool(count: usize) -> (StackFrameAllocator, PhysMemory) {
    (StackFrameAllocator::new(0x200, 0x200 + count as u64), PhysMemory::new(0x200, count))
}

#[test]
fn parse_reads_entry_and_segments() {
    let bytes = image(0x10040, &[(0x10000, vec![1, 2, 3], 0x1800, 5), (0x12000, vec![], 0x10, 6)]);
    let (segments, entry) = parse(&bytes).unwrap();
    assert_eq!(entry, 0x10040);
    assert_eq!(
        segments,
        vec![
            Segment { vaddr: 0x10000, mem_size: 0x1800, offset: 176, file_size: 3, flags: 5 },
            Segment { vaddr: 0x12000, mem_size: 0x10, offset: 179, file_size: 0, flags: 6 },
        ]
    );
}

#[test]
fn parse_skips_headers_that_are_not_loaded() {
    let mut bytes = image(0, &[(0x10000, vec![7], 1, 4), (0x20000, vec![8], 1, 4)]);
    // the first program header describes a note
    put(&mut bytes, 64, 4, 4);
    let (segments, _) = parse(&bytes).unwrap();
    assert_eq!(segments.len(), 1);
    assert_eq!(segments[0].vaddr, 0x20000);
}

#[test]
fn parse_rejects_bad_magic() {
    let mut bytes = image(0, &[]);
    bytes[1] = b'F';
    assert_eq!(parse(&bytes), Err(ElfError::BadMagic));
    assert_eq!(parse(&vec![0x7f, b'E', b'L']), Err(ElfError::BadMagic));
    assert_eq!(parse(&vec![]), Err(ElfError::BadMagic));
}

#[test]
fn parse_rejects_images_that_are_not_riscv64() {
    let good = image(0, &[]);
    let mut narrow = good.clone();
    narrow[4] = 1;
    assert_eq!(parse(&narrow), Err(ElfError::NotRiscv64));
    let mut big_endian = good.clone();
    big_endian[5] = 2;
    assert_eq!(parse(&big_endian), Err(ElfError::NotRiscv64));
    let mut x86 = good.clone();
    put(&mut x86, 18, 62, 2);
    assert_eq!(parse(&x86), Err(ElfError::NotRiscv64));
    assert!(parse(&good).is_ok());
}

#[test]
fn parse_rejects_truncated_images() {
    let bytes = image(0, &[(0x10000, vec![1, 2, 3, 4], 4, 4)]);
    assert_eq!(parse(&bytes[..60].to_vec()), Err(ElfError::Truncated));
    assert_eq!(parse(&bytes[..100].to_vec()), Err(ElfError::Truncated));
    assert_eq!(parse(&bytes[..bytes.len() - 1].to_vec()), Err(ElfError::Truncated));
    let mut far = bytes.clone();
    put(&mut far, 32, u64::MAX - 8, 8);
    assert_eq!(parse(&far), Err(ElfError::Truncated));
}

#[test]
fn parse_rejects_bad_segments() {
    let longer_in_file = image(0, &[(0x10000, vec![1, 2, 3, 4], 3, 4)]);
    assert_eq!(parse(&longer_in_file), Err(ElfError::BadSegment));
    let past_the_address_space = image(0, &[(0x7f_ffff_f000, vec![1], 0x1001, 4)]);
    assert_eq!(parse(&past_the_address_space), Err(ElfError::BadSegment));
    let wrapping = image(0, &[(u64::MAX, vec![1], 2, 4)]);
    assert_eq!(parse(&wrapping), Err(ElfError::BadSegment));
}

#[test]
fn from_elf_loads_segments_stack_and_trap_context() {
    let text: Vec<u8> = (0..0x1234u32).map(|i| (i % 251) as u8).collect();
    let bytes = image(
        0x10010,
        &[(0x10010, text.clone(), 0x2000, 5), (0x14000, vec![0xaa, 0xbb], 0x1000, 6)],
    );
    let (mut frames, mut mem) = pool(64);
    let (space, user_sp, entry) = MemorySet::from_elf(&mut frames, &mut mem, 0x80201, &bytes).unwrap();
    assert_eq!(entry, 0x10010);
    // the segments end at page 0x15; the stack has twenty pages
    assert_eq!(user_sp, (0x15 + 20) * 0x1000);
    assert_eq!(space.read_user(&mem, 0x10010, text.len()), Some(text.clone()));
    assert_eq!(space.read_user(&mem, 0x10000, 0x10), Some(vec![0; 0x10]));
    assert_eq!(space.read_user(&mem, 0x10010 + 0x1234, 3), Some(vec![0, 0, 0]));
    assert_eq!(space.read_user(&mem, 0x14000, 3), Some(vec![0xaa, 0xbb, 0]));
    assert_eq!(space.read_user(&mem, 0x13000, 1), None);
    let code = space.translate(&mem, 0x10).unwrap();
    assert!(code.user() && code.readable() && code.executable() && !code.writable());
    let data = space.translate(&mem, 0x14).unwrap();
    assert!(data.user() && data.readable() && data.writable() && !data.executable());
    let stack = space.translate(&mem, 0x15 + 19).unwrap();
    assert!(stack.is_valid() && stack.user() && stack.readable() && stack.writable());
    assert!(!stack.executable());
    assert!(!space.translate(&mem, 0x15 + 20).unwrap().is_valid());
    assert_eq!(space.read_user(&mem, user_sp - 8, 8), Some(vec![0; 8]));
    let trap = space.translate(&mem, TRAP_CONTEXT_VPN).unwrap();
    assert!(trap.is_valid() && trap.readable() && trap.writable() && !trap.user());
    assert_eq!(space.read_user(&mem, 0xffff_ffff_ffff_e000, 1), None);
    // four pages of segments, twenty of stack, one of trap context, five nodes
    assert_eq!(frames.free_frames(), 64 - 4 - 20 - 1 - 5);
}

#[test]
fn from_elf_rejects_overlapping_segments() {
    let bytes = image(0, &[(0x10000, vec![1], 0x1001, 4), (0x11800, vec![2], 1, 4)]);
    let (mut frames, mut mem) = pool(64);
    assert_eq!(
        MemorySet::from_elf(&mut frames, &mut mem, 0x80201, &bytes).err(),
        Some(ElfError::Overlap)
    );
    assert_eq!(frames.free_frames(), 64);
}

#[test]
fn from_elf_rejects_segments_without_room_for_the_stack() {
    let high = image(0, &[(0x7f_ffff_d000, vec![1], 0x1000, 4)]);
    let (mut frames, mut mem) = pool(64);
    assert_eq!(
        MemorySet::from_elf(&mut frames, &mut mem, 0x80201, &high).err(),
        Some(ElfError::BadSegment)
    );
    // the stack would reach the trap context
    let near = image(0, &[(0x7f_fffe_a000, vec![1], 0x1000, 4)]);
    assert_eq!(
        MemorySet::from_elf(&mut frames, &mut mem, 0x80201, &near).err(),
        Some(ElfError::Overlap)
    );
    assert_eq!(frames.free_frames(), 64);
}

#[test]
fn from_elf_fails_without_frames_and_gives_them_back() {
    let bytes = image(0, &[(0x10000, vec![1], 0x1000, 4)]);
    let (mut frames, mut mem) = pool(26);
    assert_eq!(
        MemorySet::from_elf(&mut frames, &mut mem, 0x80201, &bytes).err(),
        Some(ElfError::OutOfFrames)
    );
    assert_eq!(frames.free_frames(), 26);
    let (mut enough, mut room) = pool(27);
    assert!(MemorySet::from_elf(&mut enough, &mut room, 0x80201, &bytes).is_ok());
    assert_eq!(enough.free_frames(), 0);
    assert_eq!(
        MemorySet::from_elf(&mut frames, &mut mem, 0x80201, &vec![0; 64]).err(),
        Some(ElfError::BadMagic)
    );
}
