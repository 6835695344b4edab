//! The trap context: the registers of a task while the kernel runs, kept in
//! a page of the task's address space.

use vstd::prelude::*;
use crate::mm::memory::PhysMemory;

verus! {

/// Number of 64-bit words of a trap context.
pub const TRAP_CONTEXT_WORDS: u64 = 37;

/// Index of the word that holds `sstatus`.
pub const WORD_SSTATUS: u64 = 32;

/// Index of the word that holds `sepc`.
pub const WORD_SEPC: u64 = 33;

/// Index of the word that holds the kernel's `satp`.
pub const WORD_KERNEL_SATP: u64 = 34;

/// Index of the word that holds the kernel stack pointer.
pub const WORD_KERNEL_SP: u64 = 35;

/// Index of the word that holds the address of the trap handler.
pub const WORD_TRAP_HANDLER: u64 = 36;

/// The bits of `sstatus` that the register holds.
pub const SSTATUS_MASK: u64 = 0x8000_0003_000d_e762;

/// The bit of `sstatus` that holds the previous privilege mode.
pub const SSTATUS_SPP: u64 = 0x100;

/// The value of `sstatus` with which a task enters user mode: the bits
/// that the register holds, with the previous privilege mode set to user.
pub open spec fn user_sstatus(bits: u64) -> u64 {
    bits & SSTATUS_MASK & !SSTATUS_SPP
}

/// Sets the previous privilege mode of an `sstatus` value to user mode, as
/// `riscv::register::sstatus::Sstatus` does where `usize` has 64 bits:
/// `from_bits` keeps the bits under the register's mask, `set_spp` with
/// `SPP::User` clears bit 8, and `bits` reads the value back.
#[verifier::external_body]
fn sstatus_for_user(bits: usize) -> (out: usize)
    requires
        usize::BITS == 64,
    ensures
        out == user_sstatus(bits as u64),
{
    let mut sstatus = riscv::register::sstatus::Sstatus::from_bits(bits);
    sstatus.set_spp(riscv::register::sstatus::SPP::User);
    sstatus.bits()
}

/// The value of `sstatus` with which a task enters user mode.
pub fn enter_user_mode(sstatus: u64) -> (out: u64)
    ensures
        out == user_sstatus(sstatus),
{
    if usize::BITS == 64 {
        sstatus_for_user(sstatus as usize) as u64
    } else {
        sstatus & SSTATUS_MASK & !SSTATUS_SPP
    }
}

/// The registers of a task at the moment of a trap, and what the trap
/// entry code needs to reach the kernel.
#[derive(Clone, Copy, Debug)]
pub struct TrapContext {
    /// The general-purpose registers `x0` to `x31`.
    pub x: [u64; 32],
    pub sstatus: u64,
    pub sepc: u64,
    /// The `satp` value of the kernel's address space.
    pub kernel_satp: u64,
    /// Top of the task's kernel stack.
    pub kernel_sp: u64,
    /// Virtual address of the trap handler.
    pub trap_handler: u64,
}

impl TrapContext {
    /// The context with which a task starts: all registers zero but the
    /// stack pointer, `sepc` at the entry point, and user mode as the
    /// previous privilege mode.
    pub fn app_init_context(
        user_stack: u64,
        entry_point: u64,
        kernel_stack: u64,
        sstatus: u64,
        kernel_satp: u64,
        trap_handler: u64,
    ) -> (ctx: TrapContext)
        ensures
            ctx.x@ == Seq::new(32, |i: int| 0u64).update(2, user_stack),
            ctx.sstatus == user_sstatus(sstatus),
            ctx.sepc == entry_point,
            ctx.kernel_satp == kernel_satp,
            ctx.kernel_sp == kernel_stack,
            ctx.trap_handler == trap_handler,
    {
        let mut ctx = TrapContext {
            x: [0u64; 32],
            sstatus: enter_user_mode(sstatus),
            sepc: entry_point,
            kernel_satp,
            kernel_sp: kernel_stack,
            trap_handler,
        };
        ctx.x[2] = user_stack;
        assert(ctx.x@ =~= Seq::new(32, |i: int| 0u64).update(2, user_stack));
        ctx
    }

    /// The argument register `a<n>`, which is `x<10 + n>`.
    pub fn reg_a(&self, n: usize) -> (value: u64)
        requires
            n < 22,
        ensures
            value == self.x@[10 + n],
    {
        self.x[10 + n]
    }

    /// Sets the argument register `a<n>`, which is `x<10 + n>`.
    pub fn set_reg_a(&mut self, n: usize, v: u64)
        requires
            n < 22,
        ensures
            final(self).x@ == old(self).x@.update(10 + n, v),
            final(self).sstatus == old(self).sstatus,
            final(self).sepc == old(self).sepc,
            final(self).kernel_satp == old(self).kernel_satp,
            final(self).kernel_sp == old(self).kernel_sp,
            final(self).trap_handler == old(self).trap_handler,
    {
        self.x[10 + n] = v;
    }

    /// The word with index `idx` of the context as it lies in memory.
    pub open spec fn word(&self, idx: int) -> u64 {
        if idx < 32 {
            self.x@[idx]
        } else if idx == WORD_SSTATUS {
            self.sstatus
        } else if idx == WORD_SEPC {
            self.sepc
        } else if idx == WORD_KERNEL_SATP {
            self.kernel_satp
        } else if idx == WORD_KERNEL_SP {
            self.kernel_sp
        } else {
            self.trap_handler
        }
    }

    /// Whether the frame `ppn` holds this context in its first words.
    pub open spec fn stored_at(&self, mem: &PhysMemory, ppn: u64) -> bool {
        forall|i: int| 0 <= i < TRAP_CONTEXT_WORDS ==> #[trigger] mem.word(ppn, i) == self.word(i)
    }

    /// Reads the context that the frame `ppn` holds.
    pub fn load(mem: &PhysMemory, ppn: u64) -> (ctx: TrapContext)
        requires
            mem.wf(),
            mem.contains(ppn),
        ensures
            ctx.stored_at(mem, ppn),
    {
        let mut x = [0u64; 32];
        let mut i: usize = 0;
        while i < 32
            invariant
                i <= 32,
                mem.wf(),
                mem.contains(ppn),
                forall|k: int| 0 <= k < i ==> x@[k] == #[trigger] mem.word(ppn, k),
            decreases 32 - i,
        {
            x[i] = mem.read_word(ppn, i as u64);
            i += 1;
        }
        TrapContext {
            x,
            sstatus: mem.read_word(ppn, WORD_SSTATUS),
            sepc: mem.read_word(ppn, WORD_SEPC),
            kernel_satp: mem.read_word(ppn, WORD_KERNEL_SATP),
            kernel_sp: mem.read_word(ppn, WORD_KERNEL_SP),
            trap_handler: mem.read_word(ppn, WORD_TRAP_HANDLER),
        }
    }

    /// Writes the context to the first words of the frame `ppn`.
    pub fn store(&self, mem: &mut PhysMemory, ppn: u64)
        requires
            old(mem).wf(),
            old(mem).contains(ppn),
        ensures
            final(mem).wf(),
            old(mem).same_but(final(mem), ppn),
            self.stored_at(final(mem), ppn),
            forall|i: int|
                TRAP_CONTEXT_WORDS <= i < 512 ==> #[trigger] final(mem).word(ppn, i) == old(mem).word(
                    ppn,
                    i,
                ),
    {
        let ghost mem0 = *mem;
        let mut i: u64 = 0;
        while i < TRAP_CONTEXT_WORDS
            invariant
                i <= TRAP_CONTEXT_WORDS,
                mem.wf(),
                mem0.contains(ppn),
                mem0.same_but(mem, ppn),
                forall|k: int| 0 <= k < i ==> #[trigger] mem.word(ppn, k) == self.word(k),
                forall|k: int| i <= k < 512 ==> #[trigger] mem.word(ppn, k) == mem0.word(ppn, k),
            decreases TRAP_CONTEXT_WORDS - i,
        {
            let value = if i < 32 {
                self.x[i as usize]
            } else if i == WORD_SSTATUS {
                self.sstatus
            } else if i == WORD_SEPC {
                self.sepc
            } else if i == WORD_KERNEL_SATP {
                self.kernel_satp
            } else if i == WORD_KERNEL_SP {
                self.kernel_sp
            } else {
                self.trap_handler
            };
            let ghost mem1 = *mem;
            mem.write_word(ppn, i, value);
            proof {
                assert forall|k: int| 0 <= k < i + 1 implies #[trigger] mem.word(ppn, k) == self.word(
                    k,
                ) by {
                    if k < i {
                        assert(mem1.word(ppn, k) == self.word(k));
                    }
                }
                assert forall|k: int| i + 1 <= k < 512 implies #[trigger] mem.word(ppn, k) == mem0.word(
                    ppn,
                    k,
                ) by {
                    assert(mem1.word(ppn, k) == mem0.word(ppn, k));
                }
            }
            i += 1;
        }
    }
}

} // verus!
