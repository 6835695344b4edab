//! ELF64 images of user programs: the header, the program headers, and the
//! segments to load.

use vstd::prelude::*;
use crate::mm::address::VA_LIMIT;

verus! {

/// Size of the ELF64 file header.
pub const ELF_HEADER_SIZE: usize = 64;

/// Size of an ELF64 program header.
pub const PROGRAM_HEADER_SIZE: usize = 56;

/// Program header type of a segment to load.
pub const PT_LOAD: u32 = 1;

/// Machine number of RISC-V.
pub const EM_RISCV: u16 = 243;

/// Segment flag: executable.
pub const PF_X: u32 = 1;

/// Segment flag: writable.
pub const PF_W: u32 = 2;

/// Segment flag: readable.
pub const PF_R: u32 = 4;

/// Why an ELF image cannot be loaded.
#[derive(Clone, Copy, Debug, PartialEq, Eq, Structural)]
pub enum ElfError {
    /// The image does not start with the ELF magic number.
    BadMagic,
    /// The image is not a 64-bit little-endian RISC-V image.
    NotRiscv64,
    /// The header, a program header or the bytes of a segment lie past the
    /// end of the image.
    Truncated,
    /// A segment has more bytes in the file than in memory, does not fit in
    /// the address space, or leaves no room for the user stack.
    BadSegment,
    /// Two segments share a page, or a segment or the user stack reaches
    /// the trap context or the trampoline.
    Overlap,
    /// The frame allocator holds too few frames.
    OutOfFrames,
}

/// A segment to load: `file_size` bytes from `offset` in the image go to the
/// virtual address `vaddr`, followed by zeros up to `mem_size` bytes.
#[derive(Clone, Copy, Debug, PartialEq, Eq, Structural)]
pub struct Segment {
    pub vaddr: u64,
    pub mem_size: u64,
    pub offset: u64,
    pub file_size: u64,
    pub flags: u32,
}

/// The little-endian 16-bit number at `off`.
pub open spec fn le16(bytes: Seq<u8>, off: int) -> int {
    bytes[off] + 0x100 * bytes[off + 1]
}

/// The little-endian 32-bit number at `off`.
pub open spec fn le32(bytes: Seq<u8>, off: int) -> int {
    le16(bytes, off) + 0x1_0000 * le16(bytes, off + 2)
}

/// The little-endian 64-bit number at `off`.
pub open spec fn le64(bytes: Seq<u8>, off: int) -> int {
    le32(bytes, off) + 0x1_0000_0000 * le32(bytes, off + 4)
}

fn read_u16(bytes: &Vec<u8>, off: usize) -> (v: u16)
    requires
        off + 2 <= bytes@.len(),
    ensures
        v == le16(bytes@, off as int),
{
    let len = bytes.len();
    bytes[off] as u16 + 0x100 * (bytes[off + 1] as u16)
}

fn read_u32(bytes: &Vec<u8>, off: usize) -> (v: u32)
    requires
        off + 4 <= bytes@.len(),
    ensures
        v == le32(bytes@, off as int),
{
    let len = bytes.len();
    read_u16(bytes, off) as u32 + 0x1_0000 * (read_u16(bytes, off + 2) as u32)
}

fn read_u64(bytes: &Vec<u8>, off: usize) -> (v: u64)
    requires
        off + 8 <= bytes@.len(),
    ensures
        v == le64(bytes@, off as int),
{
    let len = bytes.len();
    read_u32(bytes, off) as u64 + 0x1_0000_0000 * (read_u32(bytes, off + 4) as u64)
}

/// What is wrong with the file header, if anything.
pub open spec fn header_failure(bytes: Seq<u8>) -> Option<ElfError> {
    if bytes.len() < 4 || bytes[0] != 0x7f || bytes[1] != 0x45 || bytes[2] != 0x4c || bytes[3]
        != 0x46 {
        Some(ElfError::BadMagic)
    } else if bytes.len() < ELF_HEADER_SIZE {
        Some(ElfError::Truncated)
    } else if bytes[4] != 2 || bytes[5] != 1 || le16(bytes, 18) != EM_RISCV {
        Some(ElfError::NotRiscv64)
    } else {
        None
    }
}

/// The entry point.
pub open spec fn elf_entry(bytes: Seq<u8>) -> int {
    le64(bytes, 24)
}

/// Number of program headers.
pub open spec fn ph_count(bytes: Seq<u8>) -> int {
    le16(bytes, 56)
}

/// Offset of the program header with index `i`.
pub open spec fn ph_offset(bytes: Seq<u8>, i: int) -> int {
    le64(bytes, 32) + i * le16(bytes, 54)
}

/// Whether the program header with index `i` lies in the image and
/// describes a segment to load.
pub open spec fn ph_is_load(bytes: Seq<u8>, i: int) -> bool {
    ph_offset(bytes, i) + PROGRAM_HEADER_SIZE <= bytes.len() && le32(bytes, ph_offset(bytes, i))
        == PT_LOAD
}

/// The segment that the program header with index `i` describes.
pub open spec fn ph_segment(bytes: Seq<u8>, i: int) -> Segment {
    let off = ph_offset(bytes, i);
    Segment {
        vaddr: le64(bytes, off + 16) as u64,
        mem_size: le64(bytes, off + 40) as u64,
        offset: le64(bytes, off + 8) as u64,
        file_size: le64(bytes, off + 32) as u64,
        flags: le32(bytes, off + 4) as u32,
    }
}

/// What is wrong with the program header with index `i`, if anything.
pub open spec fn ph_failure(bytes: Seq<u8>, i: int) -> Option<ElfError> {
    let seg = ph_segment(bytes, i);
    if ph_offset(bytes, i) + PROGRAM_HEADER_SIZE > bytes.len() {
        Some(ElfError::Truncated)
    } else if !ph_is_load(bytes, i) {
        None
    } else if seg.file_size > seg.mem_size {
        Some(ElfError::BadSegment)
    } else if seg.offset + seg.file_size > bytes.len() {
        Some(ElfError::Truncated)
    } else if seg.vaddr + seg.mem_size > VA_LIMIT {
        Some(ElfError::BadSegment)
    } else {
        None
    }
}

/// What is wrong with the first of the first `n` program headers that has a
/// fault, if one has.
pub open spec fn scan_failure(bytes: Seq<u8>, n: int) -> Option<ElfError>
    decreases n,
{
    if n <= 0 {
        None
    } else {
        match scan_failure(bytes, n - 1) {
            Some(e) => Some(e),
            None => ph_failure(bytes, n - 1),
        }
    }
}

/// The segments to load among the first `n` program headers, in order.
pub open spec fn scan_segments(bytes: Seq<u8>, n: int) -> Seq<Segment>
    decreases n,
{
    if n <= 0 {
        Seq::empty()
    } else if ph_is_load(bytes, n - 1) {
        scan_segments(bytes, n - 1).push(ph_segment(bytes, n - 1))
    } else {
        scan_segments(bytes, n - 1)
    }
}

/// What is wrong with the image, if anything: with the file header, else
/// with the first faulty program header.
pub open spec fn elf_failure(bytes: Seq<u8>) -> Option<ElfError> {
    match header_failure(bytes) {
        Some(e) => Some(e),
        None => scan_failure(bytes, ph_count(bytes)),
    }
}

/// The segments to load, in the order of their program headers.
pub open spec fn elf_segments(bytes: Seq<u8>) -> Seq<Segment> {
    scan_segments(bytes, ph_count(bytes))
}

/// Whether a segment fits: its bytes lie in an image of `len` bytes, and
/// its addresses in the address space.
pub open spec fn segment_fits(seg: Segment, len: nat) -> bool {
    &&& seg.file_size <= seg.mem_size
    &&& seg.offset + seg.file_size <= len
    &&& seg.vaddr + seg.mem_size <= VA_LIMIT
}

/// The segments of an image without faults fit.
pub proof fn lemma_segments_fit(bytes: Seq<u8>, n: int)
    requires
        scan_failure(bytes, n) is None,
    ensures
        forall|i: int|
            0 <= i < scan_segments(bytes, n).len() ==> segment_fits(
                #[trigger] scan_segments(bytes, n)[i],
                bytes.len(),
            ),
    decreases n,
{
    if n > 0 {
        lemma_segments_fit(bytes, n - 1);
        let before = scan_segments(bytes, n - 1);
        assert(scan_failure(bytes, n - 1) is None);
        assert(ph_failure(bytes, n - 1) is None);
        assert forall|i: int| 0 <= i < scan_segments(bytes, n).len() implies segment_fits(
            #[trigger] scan_segments(bytes, n)[i],
            bytes.len(),
        ) by {
            if i < before.len() {
                assert(scan_segments(bytes, n)[i] == before[i]);
            }
        }
    }
}

/// A fault among the first program headers is the fault of the image.
pub proof fn lemma_scan_sticky(bytes: Seq<u8>, n: int, m: int)
    requires
        0 <= n <= m,
        scan_failure(bytes, n) is Some,
    ensures
        scan_failure(bytes, m) == scan_failure(bytes, n),
    decreases m - n,
{
    if n < m {
        lemma_scan_sticky(bytes, n, m - 1);
    }
}

/// Reads the file header and the program headers of an image: the segments
/// to load, in order, and the entry point.
pub fn parse(bytes: &Vec<u8>) -> (res: Result<(Vec<Segment>, u64), ElfError>)
    ensures
        match res {
            Ok((segments, entry)) => {
                &&& elf_failure(bytes@) is None
                &&& segments@ == elf_segments(bytes@)
                &&& entry == elf_entry(bytes@)
                &&& forall|i: int|
                    0 <= i < segments@.len() ==> segment_fits(#[trigger] segments@[i], bytes@.len())
            },
            Err(e) => elf_failure(bytes@) == Some(e),
        },
{
    let len = bytes.len();
    if len < 4 || bytes[0] != 0x7f || bytes[1] != 0x45 || bytes[2] != 0x4c || bytes[3] != 0x46 {
        return Err(ElfError::BadMagic);
    }
    if len < ELF_HEADER_SIZE {
        return Err(ElfError::Truncated);
    }
    if bytes[4] != 2 || bytes[5] != 1 || read_u16(bytes, 18) != EM_RISCV {
        return Err(ElfError::NotRiscv64);
    }
    let entry = read_u64(bytes, 24);
    let phoff = read_u64(bytes, 32);
    let phentsize = read_u16(bytes, 54);
    let phnum = read_u16(bytes, 56);
    let mut segments: Vec<Segment> = Vec::new();
    let mut i: u16 = 0;
    while i < phnum
        invariant
            i <= phnum,
            len == bytes@.len(),
            len >= ELF_HEADER_SIZE,
            header_failure(bytes@) is None,
            phoff == le64(bytes@, 32),
            phentsize == le16(bytes@, 54),
            phnum == ph_count(bytes@),
            scan_failure(bytes@, i as int) is None,
            segments@ == scan_segments(bytes@, i as int),
        decreases phnum - i,
    {
        assert((i as u64) * (phentsize as u64) <= 0xffff * 0xffff) by (nonlinear_arith)
            requires
                i <= 0xffff,
                phentsize <= 0xffff,
        ;
        let step = (i as u64) * (phentsize as u64);
        proof {
            if ph_failure(bytes@, i as int) is Some {
                lemma_scan_sticky(bytes@, i + 1, phnum as int);
            }
        }
        if phoff > u64::MAX - step {
            return Err(ElfError::Truncated);
        }
        let off = phoff + step;
        if off > u64::MAX - PROGRAM_HEADER_SIZE as u64 || off + PROGRAM_HEADER_SIZE as u64
            > len as u64 {
            return Err(ElfError::Truncated);
        }
        let at = off as usize;
        assert(at == ph_offset(bytes@, i as int));
        if read_u32(bytes, at) == PT_LOAD {
            let seg = Segment {
                vaddr: read_u64(bytes, at + 16),
                mem_size: read_u64(bytes, at + 40),
                offset: read_u64(bytes, at + 8),
                file_size: read_u64(bytes, at + 32),
                flags: read_u32(bytes, at + 4),
            };
            assert(seg == ph_segment(bytes@, i as int));
            if seg.file_size > seg.mem_size {
                return Err(ElfError::BadSegment);
            }
            if seg.offset > u64::MAX - seg.file_size || seg.offset + seg.file_size > len as u64 {
                return Err(ElfError::Truncated);
            }
            if seg.vaddr > u64::MAX - seg.mem_size || seg.vaddr + seg.mem_size > VA_LIMIT {
                return Err(ElfError::BadSegment);
            }
            segments.push(seg);
        }
        i += 1;
    }
    proof {
        lemma_segments_fit(bytes@, phnum as int);
    }
    Ok((segments, entry))
}

} // verus!
