//! Access to the memory of a task through its address space.

use vstd::prelude::*;
use vstd::utf8::{decode_utf8, valid_utf8};
use crate::kernel::Kernel;

verus! {

/// Turns bytes into text with `String::from_utf8` of the standard library,
/// which takes the bytes if and only if they are valid UTF-8 and then gives
/// the characters that they encode.
#[verifier::external_body]
fn utf8_text(bytes: Vec<u8>) -> (text: Option<String>)
    ensures
        text is Some <==> valid_utf8(bytes@),
        text is Some ==> text->0@ == decode_utf8(bytes@),
{
    String::from_utf8(bytes).ok()
}

/// The bytes at the `len` user addresses of the task `pid` from `buf` up,
/// where each of these addresses is accessible in user mode.
pub open spec fn user_bytes(kernel: &Kernel, pid: usize, buf: u64, len: nat) -> Seq<u8> {
    Seq::new(
        len,
        |i: int| kernel.task(pid).inner.addr_space.user_byte(&kernel.mem, (buf + i) as u64)->0,
    )
}

/// The text that the task `pid` holds in the `len` bytes from the user
/// address `buf` up, if each of these addresses is accessible in user mode
/// and the bytes are valid UTF-8.
pub open spec fn user_text(kernel: &Kernel, pid: usize, buf: u64, len: nat) -> Option<Seq<char>> {
    if kernel.task(pid).inner.addr_space.user_range(&kernel.mem, buf, len) && valid_utf8(
        user_bytes(kernel, pid, buf, len),
    ) {
        Some(decode_utf8(user_bytes(kernel, pid, buf, len)))
    } else {
        None
    }
}

/// Reads the text that the task `pid` holds in the `len` bytes from the
/// user address `buf` up.
pub fn from_user_ptr_to_str(kernel: &Kernel, pid: usize, buf: u64, len: usize) -> (text: Option<
    String,
>)
    requires
        kernel.has_task(pid),
        kernel.task(pid).wf(&kernel.mem),
    ensures
        match text {
            Some(s) => user_text(kernel, pid, buf, len as nat) == Some(s@),
            None => user_text(kernel, pid, buf, len as nat) is None,
        },
{
    let task = kernel.tasks[pid].as_ref().unwrap();
    match task.inner.addr_space.read_user(&kernel.mem, buf, len) {
        Some(bytes) => {
            assert(bytes@ =~= user_bytes(kernel, pid, buf, len as nat));
            utf8_text(bytes)
        },
        None => None,
    }
}

/// Translates a user address of the task `pid` to a physical address;
/// `None` where the page is not mapped or not accessible in user mode.
pub fn from_user_ptr(kernel: &Kernel, pid: usize, user_addr: u64) -> (pa: Option<u64>)
    requires
        kernel.has_task(pid),
        kernel.task(pid).wf(&kernel.mem),
    ensures
        match pa {
            Some(addr) => kernel.task(pid).inner.addr_space.user_frame(&kernel.mem, user_addr)
                == Some((addr / 4096) as u64) && addr % 4096 == user_addr % 4096,
            None => kernel.task(pid).inner.addr_space.user_frame(&kernel.mem, user_addr) is None,
        },
{
    kernel.tasks[pid].as_ref().unwrap().inner.translate(&kernel.mem, user_addr)
}

/// Writes `data` to the user addresses of the task `pid` from `addr` up.
/// Nothing is written unless each of these addresses is accessible in user
/// mode.
pub fn copy_to_user(
    kernel: &mut Kernel,
    pid: usize,
    addr: u64,
    data: &Vec<u8>,
    Ghost(hand): Ghost<Option<usize>>,
) -> (ok: bool)
    requires
        old(kernel).wf_hand(hand),
        old(kernel).has_task(pid),
    ensures
        final(kernel).wf_hand(hand),
        old(kernel).same_but_mem(final(kernel)),
        ok <==> old(kernel).task(pid).inner.addr_space.user_range(
            &old(kernel).mem,
            addr,
            data@.len(),
        ),
        !ok ==> final(kernel).mem == old(kernel).mem,
        ok ==> {
            let space = old(kernel).task(pid).inner.addr_space;
            &&& old(kernel).moved_for(final(kernel), pid)
            &&& forall|v: u64| #[trigger]
                space.mapping(&final(kernel).mem, v) == space.mapping(&old(kernel).mem, v)
            &&& space.written(&old(kernel).mem, &final(kernel).mem, addr, data@, data@.len())
        },
{
    let ghost pre = *kernel;
    proof {
        assert(pre.task_ok(pid));
    }
    let ok = kernel.tasks[pid].as_ref().unwrap().inner.addr_space.write_user(
        &mut kernel.mem,
        addr,
        data,
    );
    proof {
        if ok {
            kernel.task(pid).inner.addr_space.lemma_wf(&kernel.mem);
            pre.lemma_memory_written(kernel, pid, hand);
        } else {
            pre.lemma_same_state(kernel, hand);
        }
    }
    ok
}

} // verus!
