//! Physical memory as a run of 4 KiB frames, read and written by byte or by
//! 64-bit little-endian word.

use vstd::prelude::*;
use vstd::bytes::{spec_u64_from_le_bytes, spec_u64_to_le_bytes, u64_from_le_bytes, u64_to_le_bytes};
use vstd::slice::slice_subrange;
use crate::config::PAGE_SIZE;
use crate::mm::address::{ENTRIES, PPN_LIMIT};

verus! {

/// The word with index `idx` of a frame's bytes.
pub open spec fn frame_word(frame: Seq<u8>, idx: int) -> u64 {
    spec_u64_from_le_bytes(frame.subrange(8 * idx, 8 * idx + 8))
}

/// A frame's bytes with the word at index `idx` replaced by `value`.
pub open spec fn frame_store_word(frame: Seq<u8>, idx: int, value: u64) -> Seq<u8> {
    frame.subrange(0, 8 * idx) + spec_u64_to_le_bytes(value) + frame.subrange(
        8 * idx + 8,
        frame.len() as int,
    )
}

/// The bytes of a frame that holds only zeros.
pub open spec fn zero_frame() -> Seq<u8> {
    Seq::new(PAGE_SIZE as nat, |i: int| 0u8)
}

/// Storing a word changes that word and no other, and keeps the frame's length.
pub proof fn lemma_store_word(frame: Seq<u8>, idx: int, value: u64, other: int)
    requires
        frame.len() == PAGE_SIZE,
        0 <= idx < ENTRIES,
        0 <= other < ENTRIES,
    ensures
        frame_store_word(frame, idx, value).len() == PAGE_SIZE,
        frame_word(frame_store_word(frame, idx, value), other) == if other == idx {
            value
        } else {
            frame_word(frame, other)
        },
{
    vstd::bytes::lemma_auto_spec_u64_to_from_le_bytes();
    let stored = frame_store_word(frame, idx, value);
    assert(spec_u64_to_le_bytes(value).len() == 8);
    if other == idx {
        assert(stored.subrange(8 * other, 8 * other + 8) =~= spec_u64_to_le_bytes(value));
    } else {
        assert(stored.subrange(8 * other, 8 * other + 8) =~= frame.subrange(
            8 * other,
            8 * other + 8,
        ));
    }
}

/// Every word of a zeroed frame is zero.
pub proof fn lemma_zero_frame_word(idx: int)
    requires
        0 <= idx < ENTRIES,
    ensures
        frame_word(zero_frame(), idx) == 0,
{
    vstd::bytes::lemma_auto_spec_u64_to_from_le_bytes();
    let z = spec_u64_to_le_bytes(0u64);
    vstd::bytes::spec_u64_to_le_bytes_to_open(0u64);
    assert(0u64 & 0xff == 0 && (0u64 >> 8) & 0xff == 0 && (0u64 >> 16) & 0xff == 0 && (0u64 >> 24)
        & 0xff == 0 && (0u64 >> 32) & 0xff == 0 && (0u64 >> 40) & 0xff == 0 && (0u64 >> 48) & 0xff
        == 0 && (0u64 >> 56) & 0xff == 0) by (bit_vector);
    assert(zero_frame().subrange(8 * idx, 8 * idx + 8) =~= z);
}

/// The physical frames with page numbers from `base_ppn` up, each 4 KiB.
pub struct PhysMemory {
    base_ppn: u64,
    frames: Vec<Vec<u8>>,
}

impl PhysMemory {
    /// Page number of the first frame.
    pub closed spec fn base(&self) -> u64 {
        self.base_ppn
    }

    /// Number of frames.
    pub closed spec fn count(&self) -> nat {
        self.frames@.len()
    }

    /// The bytes of the frame with page number `ppn`.
    pub closed spec fn frame(&self, ppn: u64) -> Seq<u8> {
        self.frames@[ppn - self.base_ppn]@
    }

    /// Every frame has the size of a page and a page number below the limit.
    pub closed spec fn wf(&self) -> bool {
        &&& self.base_ppn + self.frames@.len() <= PPN_LIMIT
        &&& forall|i: int| 0 <= i < self.frames@.len() ==> (#[trigger] self.frames@[i])@.len() == PAGE_SIZE
    }

    /// Whether the frame with page number `ppn` is part of this memory.
    pub open spec fn contains(&self, ppn: u64) -> bool {
        self.base() <= ppn < self.base() + self.count()
    }

    /// The word with index `idx` of the frame `ppn`.
    pub open spec fn word(&self, ppn: u64, idx: int) -> u64 {
        frame_word(self.frame(ppn), idx)
    }

    /// Whether two memories hold the same frames, whatever their bytes.
    pub open spec fn same_extent(&self, other: &PhysMemory) -> bool {
        self.base() == other.base() && self.count() == other.count()
    }

    /// Whether `other` differs from this memory at most in the frame `ppn`.
    pub open spec fn same_but(&self, other: &PhysMemory, ppn: u64) -> bool {
        &&& self.same_extent(other)
        &&& forall|p: u64| self.contains(p) && p != ppn ==> #[trigger] other.frame(p) == self.frame(p)
    }

    /// Frames have the size of a page.
    pub proof fn lemma_frame_len(&self, ppn: u64)
        requires
            self.wf(),
            self.contains(ppn),
        ensures
            self.frame(ppn).len() == PAGE_SIZE,
            ppn < PPN_LIMIT,
    {
    }

    /// A memory of `count` zeroed frames that starts at page number `base_ppn`.
    pub fn new(base_ppn: u64, count: usize) -> (mem: PhysMemory)
        requires
            base_ppn + count <= PPN_LIMIT,
        ensures
            mem.wf(),
            mem.base() == base_ppn,
            mem.count() == count,
            forall|p: u64| mem.contains(p) ==> #[trigger] mem.frame(p) == zero_frame(),
    {
        let mut frames: Vec<Vec<u8>> = Vec::new();
        let mut i: usize = 0;
        while i < count
            invariant
                i <= count,
                frames@.len() == i,
                forall|k: int| 0 <= k < i ==> (#[trigger] frames@[k])@ == zero_frame(),
            decreases count - i,
        {
            let frame = Self::blank_frame();
            frames.push(frame);
            i += 1;
        }
        PhysMemory { base_ppn, frames }
    }

    fn slot(&self, ppn: u64) -> (i: usize)
        requires
            self.contains(ppn),
        ensures
            i == ppn - self.base_ppn,
            i < self.frames@.len(),
    {
        let n = self.frames.len();
        (ppn - self.base_ppn) as usize
    }

    fn blank_frame() -> (frame: Vec<u8>)
        ensures
            frame@ == zero_frame(),
    {
        let mut frame: Vec<u8> = Vec::new();
        let mut j: u64 = 0;
        while j < PAGE_SIZE
            invariant
                j <= PAGE_SIZE,
                frame@.len() == j,
                forall|k: int| 0 <= k < j ==> frame@[k] == 0u8,
            decreases PAGE_SIZE - j,
        {
            frame.push(0u8);
            j += 1;
        }
        assert(frame@ =~= zero_frame());
        frame
    }

    /// Page number of the first frame.
    pub fn base_ppn(&self) -> (base: u64)
        ensures
            base == self.base(),
    {
        self.base_ppn
    }

    /// Number of frames.
    pub fn frame_count(&self) -> (count: usize)
        ensures
            count == self.count(),
    {
        self.frames.len()
    }

    /// Whether the frame with page number `ppn` is part of this memory.
    pub fn has_frame(&self, ppn: u64) -> (has: bool)
        requires
            self.wf(),
        ensures
            has == self.contains(ppn),
    {
        ppn >= self.base_ppn && ppn - self.base_ppn < self.frames.len() as u64
    }

    /// Reads one byte.
    pub fn read_byte(&self, ppn: u64, offset: u64) -> (value: u8)
        requires
            self.wf(),
            self.contains(ppn),
            offset < PAGE_SIZE,
        ensures
            value == self.frame(ppn)[offset as int],
    {
        let i = self.slot(ppn);
        self.frames[i][offset as usize]
    }

    /// Writes one byte.
    pub fn write_byte(&mut self, ppn: u64, offset: u64, value: u8)
        requires
            old(self).wf(),
            old(self).contains(ppn),
            offset < PAGE_SIZE,
        ensures
            final(self).wf(),
            old(self).same_but(final(self), ppn),
            final(self).frame(ppn) == old(self).frame(ppn).update(offset as int, value),
    {
        let i = self.slot(ppn);
        self.frames[i].set(offset as usize, value);
    }

    /// Reads the 64-bit little-endian word with index `idx` of a frame.
    pub fn read_word(&self, ppn: u64, idx: u64) -> (value: u64)
        requires
            self.wf(),
            self.contains(ppn),
            idx < ENTRIES,
        ensures
            value == self.word(ppn, idx as int),
    {
        let i = self.slot(ppn);
        let start = (8 * idx) as usize;
        let bytes = slice_subrange(self.frames[i].as_slice(), start, start + 8);
        u64_from_le_bytes(bytes)
    }

    /// Writes the 64-bit little-endian word with index `idx` of a frame.
    pub fn write_word(&mut self, ppn: u64, idx: u64, value: u64)
        requires
            old(self).wf(),
            old(self).contains(ppn),
            idx < ENTRIES,
        ensures
            final(self).wf(),
            old(self).same_but(final(self), ppn),
            final(self).frame(ppn) == frame_store_word(old(self).frame(ppn), idx as int, value),
            final(self).word(ppn, idx as int) == value,
            forall|j: int| 0 <= j < ENTRIES && j != idx ==> #[trigger] final(self).word(ppn, j) == old(self).word(ppn, j),
    {
        let i = self.slot(ppn);
        let start = (8 * idx) as usize;
        let bytes = u64_to_le_bytes(value);
        let ghost before = self.frames@[i as int]@;
        let mut k: usize = 0;
        while k < 8
            invariant
                k <= 8,
                i < self.frames@.len(),
                start == 8 * idx,
                idx < ENTRIES,
                bytes@.len() == 8,
                self.base_ppn == old(self).base_ppn,
                self.frames@.len() == old(self).frames@.len(),
                forall|q: int| 0 <= q < self.frames@.len() && q != i ==> self.frames@[q] == old(self).frames@[q],
                self.frames@[i as int]@.len() == PAGE_SIZE,
                before.len() == PAGE_SIZE,
                forall|b: int| 0 <= b < PAGE_SIZE ==> self.frames@[i as int]@[b] == if start <= b < start + k {
                    bytes@[b - start]
                } else {
                    before[b]
                },
            decreases 8 - k,
        {
            let b = bytes[k];
            self.frames[i].set(start + k, b);
            k += 1;
        }
        proof {
            assert(self.frames@[i as int]@ =~= frame_store_word(before, idx as int, value));
            assert forall|j: int| 0 <= j < ENTRIES implies #[trigger] frame_word(frame_store_word(before, idx as int, value), j) == if j == idx { value } else { frame_word(before, j) } by {
                lemma_store_word(before, idx as int, value, j);
            }
        }
    }

    /// Fills a frame with zeros.
    pub fn clear_frame(&mut self, ppn: u64)
        requires
            old(self).wf(),
            old(self).contains(ppn),
        ensures
            final(self).wf(),
            old(self).same_but(final(self), ppn),
            final(self).frame(ppn) == zero_frame(),
    {
        let i = self.slot(ppn);
        let frame = Self::blank_frame();
        self.frames.set(i, frame);
    }

    /// Copies the bytes of the frame `src` into the frame `dst`.
    pub fn copy_frame(&mut self, src: u64, dst: u64)
        requires
            old(self).wf(),
            old(self).contains(src),
            old(self).contains(dst),
        ensures
            final(self).wf(),
            old(self).same_but(final(self), dst),
            final(self).frame(dst) == old(self).frame(src),
    {
        let s = self.slot(src);
        let d = self.slot(dst);
        let mut frame: Vec<u8> = Vec::new();
        let mut j: usize = 0;
        while j < 4096
            invariant
                j <= 4096,
                s < self.frames@.len(),
                self.frames@[s as int]@.len() == 4096,
                frame@.len() == j,
                forall|k: int| 0 <= k < j ==> frame@[k] == self.frames@[s as int]@[k],
            decreases 4096 - j,
        {
            frame.push(self.frames[s][j]);
            j += 1;
        }
        assert(frame@ =~= self.frames@[s as int]@);
        self.frames.set(d, frame);
    }
}

} // verus!
