//! What a task does in user mode, as the kernel sees it afterwards: loads
//! and stores to its memory, and changes of its registers.

use vstd::prelude::*;
use crate::kernel::Kernel;
use crate::mm::address::vpn_of;
use crate::syscall::pointer::copy_to_user;
use crate::syscall::saved_reg;

verus! {

/// Isolation of address spaces: a change of the memory in frames of the
/// areas of one task leaves every user address of every other task with
/// the byte that it had.
pub proof fn lemma_isolation(before: &Kernel, after: &Kernel, writer: usize, other: usize, va: u64)
    requires
        before.wf(),
        before.has_task(writer),
        before.has_task(other),
        writer != other,
        before.same_but_mem(after),
        before.mem.same_extent(&after.mem),
        after.mem.wf(),
        forall|f: u64|
            before.mem.contains(f) && !before.task(writer).inner.addr_space.data_frames().contains(f)
                ==> #[trigger] after.mem.frame(f) == before.mem.frame(f),
    ensures
        after.task(other) == before.task(other),
        after.task(other).inner.addr_space.user_byte(&after.mem, va) == before.task(
            other,
        ).inner.addr_space.user_byte(&before.mem, va),
{
    let space = before.task(other).inner.addr_space;
    assert(before.task_ok(other));
    assert(before.task_ok(writer));
    space.lemma_wf(&before.mem);
    assert forall|t: u64| #[trigger] space.table().nodes().contains(t) implies after.mem.frame(t)
        == before.mem.frame(t) by {
        assert(space.owns(t));
        assert(before.owns(other, t));
        if before.task(writer).inner.addr_space.data_frames().contains(t) {
            assert(before.owns(writer, t));
        }
    }
    space.lemma_frame_invariance(&before.mem, &after.mem);
    assert(space.mapping(&after.mem, vpn_of(va)) == space.mapping(&before.mem, vpn_of(va)));
    if space.user_frame(&before.mem, va) is Some {
        space.lemma_user_frame(&before.mem, va);
        let f = space.user_frame(&before.mem, va)->0;
        assert(space.owns(f));
        assert(before.owns(other, f));
        if before.task(writer).inner.addr_space.data_frames().contains(f) {
            assert(before.owns(writer, f));
        }
    }
}

impl Kernel {
    /// Stores `data` at the user addresses of the task `pid` from `va` up,
    /// as the task does in user mode. Nothing is stored unless each of
    /// these addresses is accessible in user mode. No other task sees a
    /// change of its memory.
    pub fn user_store(&mut self, pid: usize, va: u64, data: &Vec<u8>) -> (ok: bool)
        requires
            old(self).wf(),
            old(self).has_task(pid),
        ensures
            final(self).wf(),
            old(self).same_but_mem(final(self)),
            ok <==> old(self).task(pid).inner.addr_space.user_range(&old(self).mem, va, data@.len()),
            !ok ==> final(self).mem == old(self).mem,
            ok ==> old(self).task(pid).inner.addr_space.written(
                &old(self).mem,
                &final(self).mem,
                va,
                data@,
                data@.len(),
            ),
            forall|other: usize, addr: u64|
                old(self).has_task(other) && other != pid ==> #[trigger] final(self).task(
                    other,
                ).inner.addr_space.user_byte(&final(self).mem, addr) == old(self).task(
                    other,
                ).inner.addr_space.user_byte(&old(self).mem, addr),
    {
        let ghost pre = *self;
        let ok = copy_to_user(self, pid, va, data, Ghost(None));
        proof {
            assert forall|other: usize, addr: u64| pre.has_task(other) && other != pid
                implies #[trigger] self.task(other).inner.addr_space.user_byte(&self.mem, addr)
                == pre.task(other).inner.addr_space.user_byte(&pre.mem, addr) by {
                if ok {
                    self.task(pid).inner.addr_space.lemma_wf(&self.mem);
                    lemma_isolation(&pre, self, pid, other, addr);
                }
            }
        }
        ok
    }

    /// Takes over what the frame of one page of the task `pid` holds after
    /// the task ran: the page with the index `page` of its area with the
    /// index `area`, given as the 512 words of the frame. The frames of the
    /// areas are all that a task can change in user mode, so the kernel
    /// stays in order, and no other task sees a change of its memory.
    pub fn load_user_page(&mut self, pid: usize, area: usize, page: usize, words: &Vec<u64>)
        requires
            old(self).wf(),
            old(self).has_task(pid),
            area < old(self).task(pid).inner.addr_space.areas().len(),
            page < old(self).task(pid).inner.addr_space.areas()[area as int].data_frames@.len(),
            words@.len() == 512,
        ensures
            final(self).wf(),
            old(self).same_but_mem(final(self)),
            ({
                let frame = old(self).task(pid).inner.addr_space.areas()[area as int].data_frames@[page as int];
                &&& old(self).mem.same_but(&final(self).mem, frame)
                &&& forall|i: int| 0 <= i < 512 ==> #[trigger] final(self).mem.word(frame, i) == words@[i]
            }),
            forall|other: usize, addr: u64|
                old(self).has_task(other) && other != pid ==> #[trigger] final(self).task(
                    other,
                ).inner.addr_space.user_byte(&final(self).mem, addr) == old(self).task(
                    other,
                ).inner.addr_space.user_byte(&old(self).mem, addr),
    {
        let ghost pre = *self;
        let ghost space = pre.task(pid).inner.addr_space;
        proof {
            assert(pre.task_ok(pid));
            space.lemma_wf(&pre.mem);
            assert(space.areas()[area as int].wf());
        }
        let frame = self.tasks[pid].as_ref().unwrap().inner.addr_space.area(area).data_frames[page];
        proof {
            assert(space.data_frames().contains(space.areas()[area as int].data_frames@[page as int]));
            assert(space.owns(frame));
        }
        let mut i: usize = 0;
        while i < 512
            invariant
                i <= 512,
                words@.len() == 512,
                pre.same_but_mem(self),
                pre.mem.contains(frame),
                pre.mem.wf(),
                self.mem.wf(),
                pre.mem.same_but(&self.mem, frame),
                forall|k: int| 0 <= k < i ==> #[trigger] self.mem.word(frame, k) == words@[k],
            decreases 512 - i,
        {
            let ghost mem1 = self.mem;
            self.mem.write_word(frame, i as u64, words[i]);
            proof {
                assert forall|k: int| 0 <= k < i + 1 implies #[trigger] self.mem.word(frame, k)
                    == words@[k] by {
                    if k < i {
                        assert(mem1.word(frame, k) == words@[k]);
                    }
                }
                assert forall|p: u64| pre.mem.contains(p) && p != frame implies #[trigger] self.mem.frame(
                    p,
                ) == pre.mem.frame(p) by {
                    assert(mem1.frame(p) == pre.mem.frame(p));
                }
            }
            i += 1;
        }
        proof {
            pre.lemma_memory_written(self, pid, None);
            assert forall|other: usize, addr: u64| pre.has_task(other) && other != pid
                implies #[trigger] self.task(other).inner.addr_space.user_byte(&self.mem, addr)
                == pre.task(other).inner.addr_space.user_byte(&pre.mem, addr) by {
                lemma_isolation(&pre, self, pid, other, addr);
            }
        }
    }

    /// Loads the `len` bytes at the user addresses of the task `pid` from
    /// `va` up, as the task does in user mode; `None` where one of these
    /// addresses is not accessible in user mode.
    pub fn user_load(&self, pid: usize, va: u64, len: usize) -> (bytes: Option<Vec<u8>>)
        requires
            self.wf(),
            self.has_task(pid),
        ensures
            bytes is Some <==> self.task(pid).inner.addr_space.user_range(&self.mem, va, len as nat),
            bytes is Some ==> bytes->0@.len() == len && forall|i: int|
                0 <= i < len ==> Some(#[trigger] bytes->0@[i]) == self.task(
                    pid,
                ).inner.addr_space.user_byte(&self.mem, (va + i) as u64),
    {
        proof {
            assert(self.task_ok(pid));
        }
        self.tasks[pid].as_ref().unwrap().inner.addr_space.read_user(&self.mem, va, len)
    }

    /// Sets the argument register `a<n>` of the task `pid`, as the task
    /// does in user mode.
    pub fn set_user_arg(&mut self, pid: usize, n: usize, value: u64)
        requires
            old(self).wf(),
            old(self).has_task(pid),
            n < 22,
        ensures
            final(self).wf(),
            old(self).word_written(final(self), pid, 10 + n, value),
    {
        self.set_reg_a(pid, n, value, Ghost(None));
    }

    /// The argument register `a<n>` of the task `pid`.
    pub fn user_arg(&self, pid: usize, n: usize) -> (value: u64)
        requires
            self.wf(),
            self.has_task(pid),
            n < 22,
        ensures
            value == saved_reg(self, pid, 10 + n),
    {
        proof {
            assert(self.task_ok(pid));
        }
        let ctx = self.trap_context(pid);
        proof {
            assert(self.mem.word(self.task(pid).inner.trap_ctx_ppn, 10 + n) == ctx.word(10 + n));
        }
        ctx.reg_a(n)
    }
}

} // verus!
