//! The trap handler: what a trap from user mode leads to.

use vstd::prelude::*;
use crate::kernel::Kernel;
use crate::syscall::{
    console_text, saved_reg, served, sys_exit, syscall_handler, Flow, KernelPanic, SyscallTrace,
};
use crate::task::manager::preempt;
use crate::task::processor::Processor;
use crate::task::task::TaskState;
use crate::syscall::exited;
use crate::task::{kept_but_state, pop_task, rescheduled, run_task, switch_task};
use crate::timer::next_trigger;
use crate::trap::context::WORD_SEPC;
use crate::trap::Resume;

verus! {

/// The bit of `scause` that tells an interrupt from an exception.
pub const SCAUSE_INTERRUPT: u64 = 0x8000_0000_0000_0000;

/// The causes of traps that the kernel tells apart.
#[derive(Clone, Copy, Debug, PartialEq, Eq, Structural)]
pub enum TrapCause {
    UserEnvCall,
    LoadPageFault,
    StorePageFault,
    StoreFault,
    LoadFault,
    IllegalInstruction,
    SupervisorTimer,
    /// Any other standard interrupt or exception of supervisor mode.
    Other,
    /// A code that names no standard interrupt or exception.
    Unknown,
}

/// Whether `code` is the number of a standard exception of supervisor mode.
pub open spec fn is_exception_code(code: u64) -> bool {
    code <= 9 || code == 12 || code == 13 || code == 15
}

/// Whether `code` is the number of a standard interrupt of supervisor mode.
pub open spec fn is_interrupt_code(code: u64) -> bool {
    code == 1 || code == 5 || code == 9
}

/// Splits a value of `scause` as `riscv::register::scause::Scause::cause`
/// does where `usize` has 64 bits: bit 63 tells whether the trap is an
/// interrupt, and the other bits are the code.
#[verifier::external_body]
fn scause_parts(bits: usize) -> (parts: (bool, usize))
    requires
        usize::BITS == 64,
    ensures
        parts.0 == (bits >= SCAUSE_INTERRUPT),
        parts.1 == bits % (SCAUSE_INTERRUPT as usize),
{
    match riscv::register::scause::Scause::from_bits(bits).cause() {
        riscv::interrupt::Trap::Interrupt(code) => (true, code),
        riscv::interrupt::Trap::Exception(code) => (false, code),
    }
}

/// Checks an exception code with `from_number` of
/// `riscv::interrupt::supervisor::Exception`, which takes the numbers 0 to
/// 9, 12, 13 and 15, and gives the number of the exception back.
#[verifier::external_body]
fn exception_number(code: usize) -> (number: Option<usize>)
    ensures
        number == if is_exception_code(code as u64) {
            Some(code)
        } else {
            None::<usize>
        },
{
    match <riscv::interrupt::supervisor::Exception as riscv::ExceptionNumber>::from_number(code) {
        Ok(exception) => Some(riscv::ExceptionNumber::number(exception)),
        Err(_) => None,
    }
}

/// Checks an interrupt code with `from_number` of
/// `riscv::interrupt::supervisor::Interrupt`, which takes the numbers 1, 5
/// and 9, and gives the number of the interrupt back.
#[verifier::external_body]
fn interrupt_number(code: usize) -> (number: Option<usize>)
    ensures
        number == if is_interrupt_code(code as u64) {
            Some(code)
        } else {
            None::<usize>
        },
{
    match <riscv::interrupt::supervisor::Interrupt as riscv::InterruptNumber>::from_number(code) {
        Ok(interrupt) => Some(riscv::InterruptNumber::number(interrupt)),
        Err(_) => None,
    }
}

/// Whether a value of `scause` names an interrupt, and its code.
pub fn scause_split(scause: u64) -> (parts: (bool, u64))
    ensures
        parts.0 == (scause >= SCAUSE_INTERRUPT),
        parts.1 == scause % SCAUSE_INTERRUPT,
{
    if usize::BITS == 64 {
        let (interrupt, code) = scause_parts(scause as usize);
        (interrupt, code as u64)
    } else {
        (scause >= SCAUSE_INTERRUPT, scause % SCAUSE_INTERRUPT)
    }
}

/// The number of the standard interrupt or exception of supervisor mode
/// that a code names, if it names one. No such number is above 15.
pub fn standard_number(interrupt: bool, code: u64) -> (number: Option<u64>)
    ensures
        number == if (interrupt && is_interrupt_code(code)) || (!interrupt && is_exception_code(code)) {
            Some(code)
        } else {
            None::<u64>
        },
{
    if code > 15 {
        return None;
    }
    let checked = if interrupt {
        interrupt_number(code as usize)
    } else {
        exception_number(code as usize)
    };
    match checked {
        Some(number) => Some(number as u64),
        None => None,
    }
}

/// The cause that a value of `scause` names.
pub open spec fn spec_trap_cause(scause: u64) -> TrapCause {
    let code = scause % SCAUSE_INTERRUPT;
    if scause >= SCAUSE_INTERRUPT {
        if code == 5 {
            TrapCause::SupervisorTimer
        } else if is_interrupt_code(code) {
            TrapCause::Other
        } else {
            TrapCause::Unknown
        }
    } else if !is_exception_code(code) {
        TrapCause::Unknown
    } else if code == 8 {
        TrapCause::UserEnvCall
    } else if code == 13 {
        TrapCause::LoadPageFault
    } else if code == 15 {
        TrapCause::StorePageFault
    } else if code == 7 {
        TrapCause::StoreFault
    } else if code == 5 {
        TrapCause::LoadFault
    } else if code == 2 {
        TrapCause::IllegalInstruction
    } else {
        TrapCause::Other
    }
}

/// The cause that a value of `scause` names.
#[verifier::when_used_as_spec(spec_trap_cause)]
pub fn trap_cause(scause: u64) -> (cause: TrapCause)
    ensures
        cause == spec_trap_cause(scause),
{
    let (interrupt, code) = scause_split(scause);
    match standard_number(interrupt, code) {
        None => TrapCause::Unknown,
        Some(number) => if interrupt {
            if number == 5 {
                TrapCause::SupervisorTimer
            } else {
                TrapCause::Other
            }
        } else if number == 8 {
            TrapCause::UserEnvCall
        } else if number == 13 {
            TrapCause::LoadPageFault
        } else if number == 15 {
            TrapCause::StorePageFault
        } else if number == 7 {
            TrapCause::StoreFault
        } else if number == 5 {
            TrapCause::LoadFault
        } else if number == 2 {
            TrapCause::IllegalInstruction
        } else {
            TrapCause::Other
        },
    }
}

/// What the hardware tells of a trap: the cause, the faulting address or
/// instruction, and the count of the timer.
#[derive(Clone, Copy, Debug, PartialEq, Eq, Structural)]
pub struct TrapEvent {
    pub scause: u64,
    pub stval: u64,
    pub time: u64,
}

/// What comes after a trap.
#[derive(Clone, Copy, Debug, PartialEq, Eq, Structural)]
pub enum Next {
    /// The task named here returns to user mode.
    Resume(Resume),
    /// The kernel cannot go on.
    Panic(KernelPanic),
}

/// What a trap leads to: the text for the console, if any; the count of
/// the timer at which the next timer interrupt is to come, if it is to be
/// set; and what comes after.
pub struct TrapOutcome {
    pub console: Option<String>,
    pub timer: Option<u64>,
    pub next: Next,
}

/// What a trap went through: the kernel once the task was taken off the
/// processor and, for a system call, its program counter was moved past the
/// call; and for a system call, what the call went through.
pub struct TrapTrace {
    pub entered: Kernel,
    pub left: Kernel,
    pub syscall: SyscallTrace,
}

/// The kernel once the running task was taken off the processor.
pub open spec fn taken_off(before: &Kernel) -> Kernel {
    Kernel { processor: Processor { cur_task: None }, ..*before }
}

/// Whether `after` is what a system call of the task `pid`, which was
/// taken off the processor, makes of `before`.
pub open spec fn trapped_syscall(
    before: &Kernel,
    after: &Kernel,
    pid: usize,
    time: u64,
    console: Option<Seq<char>>,
    next: Next,
    trace: TrapTrace,
) -> bool {
    &&& before.word_written(
        &trace.entered,
        pid,
        WORD_SEPC as int,
        saved_reg(before, pid, WORD_SEPC as int).wrapping_add(4),
    )
    &&& served(
        &trace.entered,
        &trace.left,
        pid,
        time,
        console,
        match next {
            Next::Resume(resume) => if resume.pid == pid && trace.left.processor.cur_task is None {
                Flow::Continue
            } else {
                Flow::Switched(resume)
            },
            Next::Panic(panic) => Flow::Panic(panic),
        },
        trace.syscall,
    )
    &&& next is Resume ==> {
        let resume = next->Resume_0;
        &&& after.wf()
        &&& after.processor.cur_task == Some(resume.pid)
        &&& after.task(resume.pid).inner.state == TaskState::Running
        &&& resume.user_satp == after.task(resume.pid).inner.addr_space.spec_token()
        &&& after.tasks@ == trace.left.tasks@
        &&& after.mem == trace.left.mem
        &&& after.manager == trace.left.manager
        &&& after.frames == trace.left.frames
        &&& after.pids == trace.left.pids
        &&& after.stacks == trace.left.stacks
    }
    &&& next is Panic ==> *after == trace.left
}

/// Whether `after` is what a timer interrupt makes of `before`, in which
/// the task `pid` was taken off the processor.
pub open spec fn trapped_timer(before: &Kernel, after: &Kernel, pid: usize, next: Next) -> bool {
    &&& next is Resume
    &&& after.wf()
    &&& (after.manager@, next->Resume_0.pid) == preempt(before.manager@, pid)
    &&& next->Resume_0.pid == before.manager@.push(pid).first()
    &&& after.manager@ == before.manager@.push(pid).drop_first()
    &&& rescheduled(before, after, pid, next->Resume_0.pid)
    &&& kept_but_state(before, after, pid)
    &&& next->Resume_0.pid != pid ==> after.task(pid).inner.state == TaskState::Ready
    &&& after.processor.cur_task == Some(next->Resume_0.pid)
    &&& after.task(next->Resume_0.pid).inner.state == TaskState::Running
    &&& next->Resume_0.user_satp == after.task(next->Resume_0.pid).inner.addr_space.spec_token()
    &&& after.mem == before.mem
    &&& after.frames == before.frames
    &&& after.pids == before.pids
    &&& after.stacks == before.stacks
    &&& after.tasks@.len() == before.tasks@.len()
}

/// Whether `after` is what a fault of the task `pid` makes of `before`, in
/// which the task was taken off the processor.
pub open spec fn trapped_fault(before: &Kernel, after: &Kernel, pid: usize, next: Next) -> bool {
    &&& after.wf()
    &&& exited(before, after, pid, -1i32)
    &&& after.mem == before.mem
    &&& after.frames == before.frames
    &&& after.pids == before.pids
    &&& after.stacks == before.stacks
    &&& after.tasks@.len() == before.tasks@.len()
    &&& match next {
        Next::Resume(resume) => {
            &&& before.manager@.len() > 0
            &&& resume.pid == before.manager@.first()
            &&& after.manager@ == before.manager@.drop_first()
            &&& after.processor.cur_task == Some(resume.pid)
            &&& after.task(resume.pid).inner.state == TaskState::Running
            &&& kept_but_state(before, after, resume.pid)
            &&& resume.user_satp == after.task(resume.pid).inner.addr_space.spec_token()
            &&& forall|q: usize|
                q != pid && q != resume.pid && q < before.tasks@.len() ==> #[trigger] after.tasks@[q as int]
                    == before.tasks@[q as int]
        },
        Next::Panic(panic) => {
            &&& panic == KernelPanic::AllTasksComplete
            &&& before.manager@.len() == 0
            &&& after.processor.cur_task is None
            &&& forall|q: usize|
                q != pid && q < before.tasks@.len() ==> #[trigger] after.tasks@[q as int]
                    == before.tasks@[q as int]
        },
    }
}

/// Whether `after` is what the trap `event` makes of `before`, when it
/// sends `console` to the console, asks for the timer as `timer` says, and
/// goes on as `next` says; `trace` tells what the trap went through.
pub open spec fn trapped(
    before: &Kernel,
    after: &Kernel,
    event: TrapEvent,
    console: Option<Seq<char>>,
    timer: Option<u64>,
    next: Next,
    trace: TrapTrace,
) -> bool {
    match before.processor.cur_task {
        None => {
            &&& next == Next::Panic(KernelPanic::NoRunningTask)
            &&& console is None
            &&& timer is None
            &&& before.same_state(after)
        },
        Some(pid) => match spec_trap_cause(event.scause) {
            TrapCause::UserEnvCall => timer is None && trapped_syscall(
                &taken_off(before),
                after,
                pid,
                event.time,
                console,
                next,
                trace,
            ),
            TrapCause::SupervisorTimer => {
                &&& console is None
                &&& timer == Some(next_trigger(event.time))
                &&& trapped_timer(&taken_off(before), after, pid, next)
            },
            TrapCause::Other | TrapCause::Unknown => {
                &&& next == Next::Panic(KernelPanic::UnsupportedTrap)
                &&& console is None
                &&& timer is None
                &&& taken_off(before).same_state(after)
            },
            _ => console is None && timer is None && trapped_fault(
                &taken_off(before),
                after,
                pid,
                next,
            ),
        },
    }
}

/// Handles a system call of the task `pid`, which was taken off the
/// processor: the program counter of the task is moved past the call, the
/// call is carried out, and the task goes on unless the call says otherwise.
pub fn trap_syscall(kernel: &mut Kernel, pid: usize, time: u64) -> (res: (
    TrapOutcome,
    Ghost<TrapTrace>,
))
    requires
        old(kernel).wf_hand(Some(pid)),
        old(kernel).task(pid).inner.state == TaskState::Running,
    ensures
        res.0.timer is None,
        trapped_syscall(
            old(kernel),
            final(kernel),
            pid,
            time,
            console_text(res.0.console),
            res.0.next,
            res.1@,
        ),
{
    let ghost popped = *kernel;
    proof {
        assert(popped.has_task(pid));
        assert(popped.task_ok(pid));
    }
    let ctx = kernel.trap_context(pid);
    proof {
        assert(popped.mem.word(popped.task(pid).inner.trap_ctx_ppn, WORD_SEPC as int) == ctx.word(
            WORD_SEPC as int,
        ));
    }
    kernel.set_sepc(pid, ctx.sepc.wrapping_add(4), Ghost(Some(pid)));
    let ghost entered = *kernel;
    proof {
        assert(entered.tasks@ == popped.tasks@);
        assert(entered.task(pid).inner.state == TaskState::Running);
    }
    let (handled, trace) = syscall_handler(kernel, pid, time);
    let ghost left = *kernel;
    match handled.flow {
        Flow::Continue => {
            let resume = keep_running(kernel, pid);
            (
                TrapOutcome { console: handled.console, timer: None, next: Next::Resume(resume) },
                Ghost(TrapTrace { entered, left, syscall: trace@ }),
            )
        },
        Flow::Switched(resume) => {
            proof {
                assert(left.processor.cur_task is Some);
            }
            (
                TrapOutcome { console: handled.console, timer: None, next: Next::Resume(resume) },
                Ghost(TrapTrace { entered, left, syscall: trace@ }),
            )
        },
        Flow::Panic(panic) => (
            TrapOutcome { console: handled.console, timer: None, next: Next::Panic(panic) },
            Ghost(TrapTrace { entered, left, syscall: trace@ }),
        ),
    }
}

/// Marks the running task `pid`, which the trap handler deals with, as
/// ready and puts it back on the processor, where it is running again.
fn keep_running(kernel: &mut Kernel, pid: usize) -> (resume: Resume)
    requires
        old(kernel).wf_hand(Some(pid)),
        old(kernel).task(pid).inner.state == TaskState::Running,
    ensures
        final(kernel).wf(),
        resume.pid == pid,
        old(kernel).processor.cur_task is None,
        final(kernel).processor.cur_task == Some(pid),
        final(kernel).task(pid).inner.state == TaskState::Running,
        resume.user_satp == final(kernel).task(pid).inner.addr_space.spec_token(),
        final(kernel).tasks@ == old(kernel).tasks@,
        final(kernel).mem == old(kernel).mem,
        final(kernel).manager == old(kernel).manager,
        final(kernel).frames == old(kernel).frames,
        final(kernel).pids == old(kernel).pids,
        final(kernel).stacks == old(kernel).stacks,
{
    let ghost left = *kernel;
    kernel.set_task_state(pid, TaskState::Ready);
    proof {
        lemma_state_set(&left, kernel, pid, Some(pid));
    }
    let resume = run_task(kernel, pid);
    proof {
        assert(kernel.tasks@ =~= left.tasks@) by {
            assert forall|q: int| 0 <= q < left.tasks@.len() implies kernel.tasks@[q] == left.tasks@[q] by {
                if q != pid {
                    let qq = q as usize;
                    assert(kernel.tasks@[qq as int] == left.tasks@[qq as int]);
                } else {
                    assert(kernel.task(pid).inner.addr_space == left.task(pid).inner.addr_space);
                    assert(kernel.task(pid).inner == left.task(pid).inner);
                    assert(kernel.task(pid) == left.task(pid));
                }
            }
        }
    }
    resume
}

/// Handles a timer interrupt while the task `pid` ran, which was taken off
/// the processor: the task goes to the back of the ready queue, and the
/// task at the front runs.
pub fn trap_timer(kernel: &mut Kernel, pid: usize) -> (next: Next)
    requires
        old(kernel).wf_hand(Some(pid)),
        old(kernel).task(pid).inner.state == TaskState::Running,
    ensures
        trapped_timer(old(kernel), final(kernel), pid, next),
{
    let ghost popped = *kernel;
    kernel.set_task_state(pid, TaskState::Ready);
    proof {
        lemma_state_set(&popped, kernel, pid, Some(pid));
    }
    Next::Resume(switch_task(kernel, pid))
}

/// Handles a fault of the task `pid`, which was taken off the processor:
/// the task ends with the exit code `-1`, and the task at the front of the
/// ready queue runs.
pub fn trap_fault(kernel: &mut Kernel, pid: usize) -> (next: Next)
    requires
        old(kernel).wf_hand(Some(pid)),
    ensures
        trapped_fault(old(kernel), final(kernel), pid, next),
{
    match sys_exit(kernel, pid, -1) {
        Ok(resume) => Next::Resume(resume),
        Err(panic) => Next::Panic(panic),
    }
}

/// Handles a trap from user mode. A system call is carried out, after the
/// program counter of the task was moved past the call, and the task goes
/// on unless the call says otherwise. A page fault, an access fault or an
/// illegal instruction ends the task with the exit code `-1`, and the task
/// at the front of the ready queue runs. A timer interrupt asks for the
/// next one, puts the task at the back of the ready queue, and runs the
/// task at the front. Any other trap, and a trap while no task runs, stop
/// the kernel.
pub fn trap_handler(kernel: &mut Kernel, event: TrapEvent) -> (res: (TrapOutcome, Ghost<TrapTrace>))
    requires
        old(kernel).wf(),
    ensures
        trapped(
            old(kernel),
            final(kernel),
            event,
            console_text(res.0.console),
            res.0.timer,
            res.0.next,
            res.1@,
        ),
{
    let ghost pre = *kernel;
    let ghost idle = SyscallTrace {
        number: 0,
        args: (0, 0, 0),
        counted: pre,
        done: pre,
        result: Ok(0),
    };
    let pid = match pop_task(kernel) {
        Some(pid) => pid,
        None => {
            proof {
                assert(pre.same_state(kernel));
            }
            return (
                TrapOutcome {
                    console: None,
                    timer: None,
                    next: Next::Panic(KernelPanic::NoRunningTask),
                },
                Ghost(TrapTrace { entered: pre, left: pre, syscall: idle }),
            );
        },
    };
    let ghost popped = *kernel;
    proof {
        assert(popped == taken_off(&pre));
    }
    match trap_cause(event.scause) {
        TrapCause::UserEnvCall => trap_syscall(kernel, pid, event.time),
        TrapCause::LoadPageFault
        | TrapCause::StorePageFault
        | TrapCause::StoreFault
        | TrapCause::LoadFault
        | TrapCause::IllegalInstruction => {
            let next = trap_fault(kernel, pid);
            (
                TrapOutcome { console: None, timer: None, next },
                Ghost(TrapTrace { entered: popped, left: popped, syscall: idle }),
            )
        },
        TrapCause::SupervisorTimer => {
            let deadline = next_trigger(event.time);
            let next = trap_timer(kernel, pid);
            (
                TrapOutcome { console: None, timer: Some(deadline), next },
                Ghost(TrapTrace { entered: popped, left: popped, syscall: idle }),
            )
        },
        TrapCause::Other | TrapCause::Unknown => (
            TrapOutcome {
                console: None,
                timer: None,
                next: Next::Panic(KernelPanic::UnsupportedTrap),
            },
            Ghost(TrapTrace { entered: popped, left: popped, syscall: idle }),
        ),
    }
}

/// Marking the task in hand, which runs or is ready, as ready or as
/// running leaves the kernel in order.
proof fn lemma_state_set(pre: &Kernel, post: &Kernel, pid: usize, hand: Option<usize>)
    requires
        pre.wf_hand(hand),
        hand == Some(pid),
        pre.same_but_task(post, pid),
        pre.task(pid).inner.state != TaskState::Exited,
        post.task(pid).inner.state == TaskState::Ready || post.task(pid).inner.state
            == TaskState::Running,
        post.task(pid).inner.children == pre.task(pid).inner.children,
    ensures
        post.wf_hand(hand),
{
    pre.lemma_bookkeeping(post, pid);
    pre.lemma_family_kept(post, pid);
    assert(pre.placed(pid, hand));
    assert forall|q: usize| #[trigger] post.has_task(q) implies post.placed(q, hand) by {
        if q != pid {
            assert(post.tasks@[q as int] == pre.tasks@[q as int]);
        }
        assert(pre.has_task(q));
        assert(pre.placed(q, hand));
    }
    assert forall|i: int| 0 <= i < post.manager@.len() implies post.has_task(
        #[trigger] post.manager@[i],
    ) by {
        let q = pre.manager@[i];
        assert(pre.has_task(q));
        if q != pid {
            assert(post.tasks@[q as int] == pre.tasks@[q as int]);
        }
    }
}

} // verus!
