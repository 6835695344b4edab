//! Traps: the trap context, the return to user mode, and the handler that
//! decides what a trap leads to.

use vstd::prelude::*;
use crate::config::{TRAMPOLINE, TRAP_CONTEXT};
use crate::kernel::Kernel;
use crate::mm::address::{page_offset, vpn_of};
use crate::mm::memory_set::{TRAMPOLINE_FLAGS, TRAMPOLINE_VPN};
use crate::mm::page_table::{with_valid, PageTableEntry};

pub mod context;
pub mod handler;

verus! {

/// What the return to user mode needs: the task to resume, where its trap
/// context lies in its address space, the `satp` value of that address
/// space, the address to jump to, and the trap vector to install.
#[derive(Clone, Copy, Debug, PartialEq, Eq, Structural)]
pub struct Resume {
    pub pid: usize,
    pub trap_ctx: u64,
    pub user_satp: u64,
    pub restore_va: u64,
    pub stvec: u64,
}

/// Prepares the return of the task `pid` to user mode. The code that
/// restores the registers lies in the trampoline, which the kernel's
/// address space and the task's map at the same address to the same frame,
/// valid, readable and executable; so the jump target stays mapped when
/// `satp` changes.
pub fn restore(kernel: &Kernel, pid: usize) -> (resume: Resume)
    requires
        kernel.resources_ok(),
        kernel.has_task(pid),
        kernel.task_ok(pid),
    ensures
        resume.pid == pid,
        resume.trap_ctx == TRAP_CONTEXT,
        resume.user_satp == kernel.task(pid).inner.addr_space.spec_token(),
        resume.restore_va == TRAMPOLINE + page_offset(kernel.platform.restore),
        resume.stvec == TRAMPOLINE,
        vpn_of(resume.restore_va) == TRAMPOLINE_VPN,
        ({
            let in_kernel = kernel.kernel_space.mapping(&kernel.mem, vpn_of(resume.restore_va));
            let in_user = kernel.task(pid).inner.addr_space.mapping(
                &kernel.mem,
                vpn_of(resume.restore_va),
            );
            &&& in_kernel is Some
            &&& in_user == in_kernel
            &&& in_kernel->0.is_valid()
            &&& in_kernel->0.readable()
            &&& in_kernel->0.executable()
            &&& !in_kernel->0.user()
            &&& in_kernel->0.ppn() == kernel.kernel_space.trampoline()
        }),
{
    proof {
        kernel.kernel_space.lemma_wf(&kernel.mem);
        kernel.task(pid).inner.addr_space.lemma_wf(&kernel.mem);
        PageTableEntry::lemma_fields(kernel.kernel_space.trampoline(), with_valid(TRAMPOLINE_FLAGS));
    }
    let task = kernel.tasks[pid].as_ref().unwrap();
    Resume {
        pid,
        trap_ctx: TRAP_CONTEXT,
        user_satp: task.inner.addr_space.token(&kernel.mem),
        restore_va: TRAMPOLINE + page_offset(kernel.platform.restore),
        stvec: TRAMPOLINE,
    }
}

} // verus!
