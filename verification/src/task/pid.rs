//! Process identifiers: a counter and a stack of identifiers that came back.

use vstd::prelude::*;

verus! {

/// The identifiers are the numbers below this limit, so that each fits the
/// signed result of a system call.
pub const PID_LIMIT: usize = 0x7fff_ffff;

/// The identifier of a task.
#[derive(Clone, Copy, Debug, PartialEq, Eq, Structural)]
pub struct PidHandle(pub usize);

/// What a PID allocator holds, as plain values.
pub struct PidPool {
    /// The next identifier that was never handed out.
    pub current: usize,
    /// Identifiers that were returned, the most recent last.
    pub recycled: Seq<usize>,
}

impl PidPool {
    /// The counter is at most the limit, and the returned identifiers are
    /// distinct and below the counter.
    pub open spec fn wf(self) -> bool {
        &&& self.current <= PID_LIMIT
        &&& self.recycled.no_duplicates()
        &&& forall|i: int| 0 <= i < self.recycled.len() ==> #[trigger] self.recycled[i] < self.current
    }

    /// Whether the identifier `pid` is handed out at present.
    pub open spec fn is_allocated(self, pid: usize) -> bool {
        pid < self.current && !self.recycled.contains(pid)
    }

    /// Whether an identifier can be handed out.
    pub open spec fn can_alloc(self) -> bool {
        self.recycled.len() > 0 || self.current < PID_LIMIT
    }

    /// The identifier that the next allocation hands out: the most recently
    /// returned one, else the counter.
    pub open spec fn next(self) -> usize {
        if self.recycled.len() > 0 {
            self.recycled.last()
        } else {
            self.current
        }
    }

    /// The pool after one allocation.
    pub open spec fn after_alloc(self) -> PidPool {
        if self.recycled.len() > 0 {
            PidPool { recycled: self.recycled.drop_last(), ..self }
        } else {
            PidPool { current: (self.current + 1) as usize, ..self }
        }
    }

    /// The pool after the identifier `pid` came back.
    pub open spec fn after_dealloc(self, pid: usize) -> PidPool {
        PidPool { recycled: self.recycled.push(pid), ..self }
    }

    /// An allocation keeps the pool well formed and hands out an identifier
    /// that was not handed out, leaving the others as they were.
    pub proof fn lemma_alloc(self)
        requires
            self.wf(),
            self.can_alloc(),
        ensures
            self.after_alloc().wf(),
            !self.is_allocated(self.next()),
            forall|p: usize| #[trigger]
                self.after_alloc().is_allocated(p) <==> self.is_allocated(p) || p == self.next(),
    {
        let after = self.after_alloc();
        if self.recycled.len() > 0 {
            let pid = self.recycled.last();
            let n = self.recycled.len() as int;
            assert(self.recycled[n - 1] == pid);
            assert forall|i: int| 0 <= i < after.recycled.len() implies #[trigger] after.recycled[i]
                < after.current by {
                assert(after.recycled[i] == self.recycled[i]);
            }
            assert forall|p: usize| #[trigger]
                after.is_allocated(p) <==> self.is_allocated(p) || p == pid by {
                if self.recycled.contains(p) && p != pid {
                    let i = choose|i: int| 0 <= i < n && self.recycled[i] == p;
                    assert(after.recycled[i] == p);
                }
                if after.recycled.contains(p) {
                    let i = choose|i: int| 0 <= i < n - 1 && after.recycled[i] == p;
                    assert(self.recycled[i] == p);
                }
            }
        }
    }

    /// Taking back an identifier that is handed out keeps the pool well
    /// formed and leaves the others as they were.
    pub proof fn lemma_dealloc(self, pid: usize)
        requires
            self.wf(),
            self.is_allocated(pid),
        ensures
            self.after_dealloc(pid).wf(),
            forall|p: usize| #[trigger]
                self.after_dealloc(pid).is_allocated(p) <==> self.is_allocated(p) && p != pid,
    {
        let after = self.after_dealloc(pid);
        let n = self.recycled.len() as int;
        assert(after.recycled[n] == pid);
        assert forall|p: usize| #[trigger]
            after.is_allocated(p) <==> self.is_allocated(p) && p != pid by {
            if self.recycled.contains(p) {
                let i = choose|i: int| 0 <= i < n && self.recycled[i] == p;
                assert(after.recycled[i] == p);
            }
            if after.recycled.contains(p) && p != pid {
                let i = choose|i: int| 0 <= i < n + 1 && after.recycled[i] == p;
                assert(self.recycled[i] == p);
            }
        }
    }
}

/// Allocator of process identifiers. An identifier that came back is handed
/// out again before one that was never used.
pub struct PidAllocator {
    current: usize,
    recycled: Vec<usize>,
}

impl View for PidAllocator {
    type V = PidPool;

    closed spec fn view(&self) -> PidPool {
        PidPool { current: self.current, recycled: self.recycled@ }
    }
}

impl PidAllocator {
    /// An allocator that has handed out nothing.
    pub fn new() -> (pids: PidAllocator)
        ensures
            pids@ == (PidPool { current: 0, recycled: Seq::empty() }),
            pids@.wf(),
    {
        PidAllocator { current: 0, recycled: Vec::new() }
    }

    /// Whether an identifier can be handed out.
    pub fn has_free(&self) -> (free: bool)
        ensures
            free == self@.can_alloc(),
    {
        self.recycled.len() > 0 || self.current < PID_LIMIT
    }

    /// Hands out an identifier.
    pub fn alloc_pid(&mut self) -> (pid: PidHandle)
        requires
            old(self)@.wf(),
            old(self)@.can_alloc(),
        ensures
            pid.0 == old(self)@.next(),
            final(self)@ == old(self)@.after_alloc(),
            final(self)@.wf(),
    {
        proof {
            self@.lemma_alloc();
        }
        if self.recycled.len() > 0 {
            PidHandle(self.recycled.pop().unwrap())
        } else {
            self.current += 1;
            PidHandle(self.current - 1)
        }
    }

    /// Takes back an identifier that is handed out.
    pub fn dealloc(&mut self, pid: usize)
        requires
            old(self)@.wf(),
            old(self)@.is_allocated(pid),
        ensures
            final(self)@ == old(self)@.after_dealloc(pid),
            final(self)@.wf(),
    {
        proof {
            self@.lemma_dealloc(pid);
        }
        self.recycled.push(pid);
    }

    /// The next identifier that was never handed out.
    pub fn current(&self) -> (current: usize)
        ensures
            current == self@.current,
    {
        self.current
    }
}

} // verus!
