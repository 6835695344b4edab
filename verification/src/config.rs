//! Memory-map and capacity constants.

use vstd::prelude::*;

verus! {

/// Size of a page and of a physical frame, in bytes.
pub const PAGE_SIZE: u64 = 0x1000;

/// Number of address bits that select a byte inside a page.
pub const PAGE_SIZE_BITS: u64 = 0xc;

/// Ticks of the platform timer per second.
pub const CLOCK_FREQ: u64 = 12500000;

/// Pages in one kernel stack.
pub const KERNEL_STACK_PAGE_NUM: u64 = 20;

/// Bytes in one kernel stack.
pub const KERNEL_STACK_SIZE: u64 = 0x14000;

/// Bytes in the kernel heap.
pub const KERNEL_HEAP_SIZE: u64 = 0x200000;

/// First physical address past the usable memory.
pub const MEMORY_END: u64 = 0x88000000;

/// Largest number of tasks that can hold a kernel stack at once.
pub const MAX_APP_NUM: usize = 10;

/// Number of per-task system-call counters.
pub const MAX_SYSCALL_NUM: usize = 500;

/// Largest stride value of a stride scheduler.
pub const BIG_STRIDE: u64 = 0xffff_ffff_ffff_ffff;

/// Pages in a user stack.
pub const USER_STACK_PAGE_NUM: u64 = 20;

/// Bytes in a user stack.
pub const USER_STACK_SIZE: u64 = 0x14000;

/// Virtual address of the trampoline page, the last page of every address space.
pub const TRAMPOLINE: u64 = 0xffff_ffff_ffff_f000;

/// Virtual address of the trap-context page, just below the trampoline.
pub const TRAP_CONTEXT: u64 = 0xffff_ffff_ffff_e000;

/// Checks the derived constants against the ones they are derived from.
pub proof fn lemma_config_consistent()
    ensures
        PAGE_SIZE == 1u64 << PAGE_SIZE_BITS,
        KERNEL_STACK_SIZE == PAGE_SIZE * KERNEL_STACK_PAGE_NUM,
        KERNEL_HEAP_SIZE == PAGE_SIZE * 512,
        USER_STACK_SIZE == 4096 * USER_STACK_PAGE_NUM,
        TRAMPOLINE == u64::MAX - PAGE_SIZE + 1,
        TRAP_CONTEXT == TRAMPOLINE - PAGE_SIZE,
        BIG_STRIDE == u64::MAX,
{
    assert(0x1000u64 == 1u64 << 0xcu64) by (bit_vector);
}

} // verus!
