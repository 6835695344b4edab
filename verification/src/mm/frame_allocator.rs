//! Allocator of physical frames: a cursor over a fixed range of page numbers
//! and a stack of frames that came back.

use vstd::prelude::*;
use crate::mm::address::PPN_LIMIT;
use crate::mm::memory::{zero_frame, PhysMemory};

verus! {

/// What a stack frame allocator holds, as plain values.
pub struct FramePool {
    /// First page number of the range.
    pub base: u64,
    /// Next page number that was never handed out.
    pub current: u64,
    /// First page number past the range.
    pub end: u64,
    /// Frames that were returned, the most recent last.
    pub recycled: Seq<u64>,
}

impl FramePool {
    /// The pool over `[base, end)` from which nothing was handed out yet.
    pub open spec fn fresh(base: u64, end: u64) -> FramePool {
        FramePool { base, current: base, end, recycled: Seq::empty() }
    }

    /// The cursor stays inside the range, and the returned frames are distinct
    /// frames below the cursor.
    pub open spec fn wf(self) -> bool {
        &&& self.base <= self.current <= self.end <= PPN_LIMIT
        &&& self.recycled.no_duplicates()
        &&& forall|i: int|
            0 <= i < self.recycled.len() ==> self.base <= #[trigger] self.recycled[i] < self.current
    }

    /// Whether the frame `ppn` is handed out at present.
    pub open spec fn is_allocated(self, ppn: u64) -> bool {
        self.base <= ppn < self.current && !self.recycled.contains(ppn)
    }

    /// The frames that are handed out at present.
    pub open spec fn allocated(self) -> Set<u64> {
        Set::new(|ppn: u64| self.is_allocated(ppn))
    }

    /// Number of frames that can still be handed out.
    pub open spec fn free_count(self) -> nat {
        (self.end - self.current + self.recycled.len()) as nat
    }

    /// The frame that the next allocation hands out, if any: the most recently
    /// returned one, else the one under the cursor.
    pub open spec fn next(self) -> Option<u64> {
        if self.recycled.len() > 0 {
            Some(self.recycled.last())
        } else if self.current < self.end {
            Some(self.current)
        } else {
            None
        }
    }

    /// The pool after one allocation.
    pub open spec fn after_alloc(self) -> FramePool {
        if self.recycled.len() > 0 {
            FramePool { recycled: self.recycled.drop_last(), ..self }
        } else if self.current < self.end {
            FramePool { current: (self.current + 1) as u64, ..self }
        } else {
            self
        }
    }

    /// The pool after `n` allocations.
    pub open spec fn after_allocs(self, n: nat) -> FramePool
        decreases n,
    {
        if n == 0 {
            self
        } else {
            self.after_alloc().after_allocs((n - 1) as nat)
        }
    }

    /// The pool after the frame `ppn` came back.
    pub open spec fn after_dealloc(self, ppn: u64) -> FramePool {
        FramePool { recycled: self.recycled.push(ppn), ..self }
    }

    /// An allocation keeps the pool well formed and hands out a frame that was
    /// not handed out before.
    pub proof fn lemma_alloc(self)
        requires
            self.wf(),
        ensures
            self.after_alloc().wf(),
            self.next() is None <==> self.free_count() == 0,
            self.next() is None ==> self.after_alloc() == self,
            self.next() is Some ==> {
                let ppn = self.next()->0;
                &&& self.base <= ppn < self.end
                &&& !self.is_allocated(ppn)
                &&& self.after_alloc().allocated() == self.allocated().insert(ppn)
                &&& self.after_alloc().free_count() == self.free_count() - 1
            },
    {
        let after = self.after_alloc();
        if self.recycled.len() > 0 {
            let ppn = self.recycled.last();
            let n = self.recycled.len() as int;
            assert(self.recycled[n - 1] == ppn);
            assert(self.recycled.contains(ppn));
            assert forall|i: int| 0 <= i < after.recycled.len() implies self.base
                <= #[trigger] after.recycled[i] < after.current by {
                assert(after.recycled[i] == self.recycled[i]);
            }
            assert(after.recycled.no_duplicates());
            assert forall|p: u64| after.is_allocated(p) == self.allocated().insert(ppn).contains(
                p,
            ) by {
                if self.recycled.contains(p) && p != ppn {
                    let i = choose|i: int| 0 <= i < n && self.recycled[i] == p;
                    assert(after.recycled[i] == p);
                }
                if after.recycled.contains(p) {
                    let i = choose|i: int| 0 <= i < n - 1 && after.recycled[i] == p;
                    assert(self.recycled[i] == p);
                }
            }
            assert(after.allocated() =~= self.allocated().insert(ppn));
        } else if self.current < self.end {
            assert(after.allocated() =~= self.allocated().insert(self.current));
        }
    }

    /// Allocating `a` times and then `b` times is allocating `a + b` times.
    pub proof fn lemma_after_allocs_add(self, a: nat, b: nat)
        ensures
            self.after_allocs(a).after_allocs(b) == self.after_allocs(a + b),
        decreases a,
    {
        if a > 0 {
            self.after_alloc().lemma_after_allocs_add((a - 1) as nat, b);
        }
    }

    /// Allocations never move the cursor back nor lengthen the list of
    /// returned frames, and leave the range as it is.
    pub proof fn lemma_after_allocs(self, n: nat)
        ensures
            self.after_allocs(n).base == self.base,
            self.after_allocs(n).end == self.end,
            self.after_allocs(n).current >= self.current,
            self.after_allocs(n).recycled.len() <= self.recycled.len(),
        decreases n,
    {
        if n > 0 {
            self.after_alloc().lemma_after_allocs((n - 1) as nat);
        }
    }

    /// Taking back a frame that is handed out keeps the pool well formed.
    pub proof fn lemma_dealloc(self, ppn: u64)
        requires
            self.wf(),
            self.is_allocated(ppn),
        ensures
            self.after_dealloc(ppn).wf(),
            self.after_dealloc(ppn).allocated() == self.allocated().remove(ppn),
            self.after_dealloc(ppn).free_count() == self.free_count() + 1,
    {
        let after = self.after_dealloc(ppn);
        let n = self.recycled.len() as int;
        assert(after.recycled[n] == ppn);
        assert forall|p: u64| after.is_allocated(p) == self.allocated().remove(ppn).contains(
            p,
        ) by {
            if self.recycled.contains(p) {
                let i = choose|i: int| 0 <= i < n && self.recycled[i] == p;
                assert(after.recycled[i] == p);
            }
            if after.recycled.contains(p) && p != ppn {
                let i = choose|i: int| 0 <= i < n + 1 && after.recycled[i] == p;
                assert(self.recycled[i] == p);
            }
        }
        assert(after.allocated() =~= self.allocated().remove(ppn));
    }
}

/// One call on a frame allocator.
pub enum FrameOp {
    /// A call of `alloc`.
    Alloc,
    /// A call of `dealloc` with this frame.
    Dealloc(u64),
}

/// The pool after a sequence of calls.
pub open spec fn run_ops(pool: FramePool, ops: Seq<FrameOp>) -> FramePool
    decreases ops.len(),
{
    if ops.len() == 0 {
        pool
    } else {
        let before = run_ops(pool, ops.drop_last());
        match ops.last() {
            FrameOp::Alloc => before.after_alloc(),
            FrameOp::Dealloc(ppn) => before.after_dealloc(ppn),
        }
    }
}

/// Whether every `dealloc` in a sequence of calls returns a frame that is
/// handed out when the call is made.
pub open spec fn ops_valid(pool: FramePool, ops: Seq<FrameOp>) -> bool
    decreases ops.len(),
{
    if ops.len() == 0 {
        true
    } else {
        let before = run_ops(pool, ops.drop_last());
        &&& ops_valid(pool, ops.drop_last())
        &&& match ops.last() {
            FrameOp::Alloc => true,
            FrameOp::Dealloc(ppn) => before.is_allocated(ppn),
        }
    }
}

/// Number of calls of `alloc` in a sequence that handed out a frame.
pub open spec fn count_allocated(pool: FramePool, ops: Seq<FrameOp>) -> nat
    decreases ops.len(),
{
    if ops.len() == 0 {
        0
    } else {
        let before = run_ops(pool, ops.drop_last());
        let earlier = count_allocated(pool, ops.drop_last());
        match ops.last() {
            FrameOp::Alloc => if before.next() is Some {
                earlier + 1
            } else {
                earlier
            },
            FrameOp::Dealloc(_) => earlier,
        }
    }
}

/// Number of calls of `dealloc` in a sequence.
pub open spec fn count_freed(ops: Seq<FrameOp>) -> nat
    decreases ops.len(),
{
    if ops.len() == 0 {
        0
    } else {
        let earlier = count_freed(ops.drop_last());
        match ops.last() {
            FrameOp::Alloc => earlier,
            FrameOp::Dealloc(_) => earlier + 1,
        }
    }
}

/// Conservation of frames: after any sequence of calls on a fresh pool, the
/// frames handed out less the frames returned are the frames below the cursor
/// less the recycled ones; and once every frame handed out has come back, the
/// recycled frames are exactly those below the cursor.
pub proof fn lemma_frame_conservation(base: u64, end: u64, ops: Seq<FrameOp>)
    requires
        base <= end <= PPN_LIMIT,
        ops_valid(FramePool::fresh(base, end), ops),
    ensures
        run_ops(FramePool::fresh(base, end), ops).wf(),
        run_ops(FramePool::fresh(base, end), ops).base == base,
        count_allocated(FramePool::fresh(base, end), ops) - count_freed(ops) == run_ops(
            FramePool::fresh(base, end),
            ops,
        ).current - base - run_ops(FramePool::fresh(base, end), ops).recycled.len(),
        count_allocated(FramePool::fresh(base, end), ops) == count_freed(ops) ==> run_ops(
            FramePool::fresh(base, end),
            ops,
        ).recycled.len() + base == run_ops(FramePool::fresh(base, end), ops).current,
    decreases ops.len(),
{
    let fresh = FramePool::fresh(base, end);
    if ops.len() > 0 {
        lemma_frame_conservation(base, end, ops.drop_last());
        let before = run_ops(fresh, ops.drop_last());
        match ops.last() {
            FrameOp::Alloc => {
                before.lemma_alloc();
            },
            FrameOp::Dealloc(ppn) => {
                before.lemma_dealloc(ppn);
            },
        }
    }
}

/// Allocator of the frames `[base, end)`. A frame that came back is handed out
/// again before a frame that was never used.
pub struct StackFrameAllocator {
    base: u64,
    current: u64,
    end: u64,
    recycled: Vec<u64>,
}

impl View for StackFrameAllocator {
    type V = FramePool;

    closed spec fn view(&self) -> FramePool {
        FramePool {
            base: self.base,
            current: self.current,
            end: self.end,
            recycled: self.recycled@,
        }
    }
}

impl StackFrameAllocator {
    /// Whether every frame of the allocator's range is part of `mem`.
    pub open spec fn within(&self, mem: &PhysMemory) -> bool {
        mem.base() <= self@.base && self@.end <= mem.base() + mem.count()
    }

    /// An allocator over `[base, end)` with every frame free.
    pub fn new(base: u64, end: u64) -> (alloc: StackFrameAllocator)
        requires
            base <= end <= PPN_LIMIT,
        ensures
            alloc@ == FramePool::fresh(base, end),
            alloc@.wf(),
    {
        StackFrameAllocator { base, current: base, end, recycled: Vec::new() }
    }

    /// Hands out a frame, or `None` when none is left.
    pub fn alloc_frame(&mut self) -> (frame: Option<u64>)
        requires
            old(self)@.wf(),
        ensures
            frame == old(self)@.next(),
            final(self)@ == old(self)@.after_alloc(),
            final(self)@.wf(),
    {
        proof {
            self@.lemma_alloc();
        }
        if self.recycled.len() > 0 {
            let ppn = self.recycled.pop();
            ppn
        } else if self.current == self.end {
            None
        } else {
            self.current += 1;
            Some(self.current - 1)
        }
    }

    /// Takes back a frame that is handed out.
    pub fn dealloc(&mut self, ppn: u64)
        requires
            old(self)@.wf(),
            old(self)@.is_allocated(ppn),
        ensures
            final(self)@ == old(self)@.after_dealloc(ppn),
            final(self)@.wf(),
    {
        proof {
            self@.lemma_dealloc(ppn);
        }
        self.recycled.push(ppn);
    }

    /// Number of frames that can still be handed out.
    pub fn free_frames(&self) -> (n: u64)
        requires
            self@.wf(),
        ensures
            n == self@.free_count(),
    {
        proof {
            self.lemma_recycled_bound();
        }
        (self.end - self.current) + self.recycled.len() as u64
    }

    proof fn lemma_recycled_bound(&self)
        requires
            self@.wf(),
        ensures
            self.recycled@.len() <= self.current - self.base,
    {
        let s = self.recycled@;
        let lo = self.base as int;
        let hi = self.current as int;
        let ints = s.map_values(|p: u64| p as int);
        assert(ints.no_duplicates()) by {
            assert forall|i: int, j: int|
                0 <= i < ints.len() && 0 <= j < ints.len() && i != j implies ints[i] != ints[j] by {
                assert(s[i] != s[j]);
            }
        }
        let range = vstd::set_lib::set_int_range(lo, hi);
        assert(ints.to_set().subset_of(range)) by {
            assert forall|x: int| ints.to_set().contains(x) implies range.contains(x) by {
                let i = choose|i: int| 0 <= i < ints.len() && ints[i] == x;
                assert(lo <= s[i] < hi);
            }
        }
        ints.unique_seq_to_set();
        vstd::set_lib::lemma_int_range(lo, hi);
        vstd::set_lib::lemma_len_subset(ints.to_set(), range);
    }
}

/// Hands out a frame filled with zeros, or `None` when none is left.
pub fn frame_alloc(alloc: &mut StackFrameAllocator, mem: &mut PhysMemory) -> (frame: Option<u64>)
    requires
        old(alloc)@.wf(),
        old(mem).wf(),
        old(alloc).within(old(mem)),
    ensures
        frame == old(alloc)@.next(),
        final(alloc)@ == old(alloc)@.after_alloc(),
        final(alloc)@.wf(),
        final(mem).wf(),
        match frame {
            Some(ppn) => {
                &&& old(mem).contains(ppn)
                &&& old(mem).same_but(final(mem), ppn)
                &&& final(mem).frame(ppn) == zero_frame()
            },
            None => *final(mem) == *old(mem),
        },
{
    proof {
        alloc@.lemma_alloc();
    }
    match alloc.alloc_frame() {
        Some(ppn) => {
            mem.clear_frame(ppn);
            Some(ppn)
        },
        None => None,
    }
}

/// Takes back a frame that is handed out.
pub fn frame_dealloc(alloc: &mut StackFrameAllocator, ppn: u64)
    requires
        old(alloc)@.wf(),
        old(alloc)@.is_allocated(ppn),
    ensures
        final(alloc)@ == old(alloc)@.after_dealloc(ppn),
        final(alloc)@.wf(),
{
    alloc.dealloc(ppn)
}

} // verus!
