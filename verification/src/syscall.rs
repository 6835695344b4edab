//! System calls: their numbers, and what each does to the kernel.

use vstd::prelude::*;
use vstd::bytes::{spec_u32_to_le_bytes, spec_u64_to_le_bytes, u32_to_le_bytes, u64_to_le_bytes};
use crate::config::MAX_SYSCALL_NUM;
use crate::kernel::{bumped, Kernel};
use crate::syscall::pointer::{copy_to_user, from_user_ptr_to_str, user_text};
use crate::task::task::{fork_failure, fork_in_hand, forked, TaskState};
use crate::task::{kept_but_state, rescheduled, run_next_task, switch_task};
use crate::timer::{get_time_ms, time_val, TimeVal};
use crate::trap::Resume;
use crate::mm::memory_set::{Cover, MemError, MemorySet, PERM_U};
use crate::mm::page_table::has_flag;
use crate::mm::address::page_offset;

pub mod pointer;

verus! {

/// The file descriptor of the console.
pub const STDOUT: u64 = 1;

/// What a task finds in `a0` after a call that was rejected: `-1` as a
/// 64-bit number in two's complement.
pub const REJECTED: u64 = 0xffff_ffff_ffff_ffff;

/// Why the kernel cannot go on.
#[derive(Clone, Copy, Debug, PartialEq, Eq, Structural)]
pub enum KernelPanic {
    /// A trap came while no task was on the processor.
    NoRunningTask,
    /// The cause of the trap is none that the kernel handles.
    UnsupportedTrap,
    /// The frame allocator holds too few frames.
    OutOfFrames,
    /// Every process identifier is handed out.
    OutOfPids,
    /// Every kernel stack is handed out.
    OutOfKernelStacks,
    /// No task is left to run.
    AllTasksComplete,
}

/// Why a system call did not succeed.
#[derive(Clone, Copy, Debug, PartialEq, Eq, Structural)]
pub enum SyscallError {
    /// The arguments are not acceptable; the task gets `-1` and goes on.
    Rejected,
    /// The kernel cannot go on.
    Fatal(KernelPanic),
}

/// What a system call gives: the value for the task, or the reason of its
/// failure.
pub type SyscallResult = Result<i64, SyscallError>;

/// The system calls.
#[derive(Clone, Copy, Debug, PartialEq, Eq, Structural)]
pub enum Syscall {
    Exit,
    Write,
    GetTimeOfDay,
    Yield,
    TaskInfo,
    Mmap,
    Munmap,
    Fork,
    WaitPid,
    GetPid,
}

impl Syscall {
    /// The system call with the number `n`, if there is one.
    pub open spec fn spec_from(n: u64) -> Result<Syscall, ()> {
        if n == 64 {
            Ok(Syscall::Write)
        } else if n == 93 {
            Ok(Syscall::Exit)
        } else if n == 124 {
            Ok(Syscall::Yield)
        } else if n == 169 {
            Ok(Syscall::GetTimeOfDay)
        } else if n == 172 {
            Ok(Syscall::GetPid)
        } else if n == 215 {
            Ok(Syscall::Munmap)
        } else if n == 220 {
            Ok(Syscall::Fork)
        } else if n == 222 {
            Ok(Syscall::Mmap)
        } else if n == 260 {
            Ok(Syscall::WaitPid)
        } else if n == 410 {
            Ok(Syscall::TaskInfo)
        } else {
            Err(())
        }
    }

    /// The system call with the number `n`, if there is one.
    pub fn from(n: u64) -> (res: Result<Syscall, ()>)
        ensures
            res is Ok <==> Self::spec_from(n) is Ok,
            res is Ok ==> res->Ok_0 == Self::spec_from(n)->Ok_0,
    {
        match n {
            64 => Ok(Syscall::Write),
            93 => Ok(Syscall::Exit),
            124 => Ok(Syscall::Yield),
            169 => Ok(Syscall::GetTimeOfDay),
            172 => Ok(Syscall::GetPid),
            215 => Ok(Syscall::Munmap),
            220 => Ok(Syscall::Fork),
            222 => Ok(Syscall::Mmap),
            260 => Ok(Syscall::WaitPid),
            410 => Ok(Syscall::TaskInfo),
            _ => Err(()),
        }
    }
}

/// The permission mask that `mmap` gives for the protection bits `port`:
/// user mode, and bit 0 for reading, bit 1 for writing, bit 2 for executing.
pub open spec fn mmap_perm(port: u64) -> u8 {
    (PERM_U + 2 * port) as u8
}

/// Why `mmap` fails, if it does: the protection bits are none or hold other
/// bits than the low three, the range wraps round, the start is not
/// page-aligned, a page of the range is mapped, or frames run out.
pub open spec fn mmap_failure(kernel: &Kernel, pid: usize, start: u64, len: u64, port: u64) -> Option<
    SyscallError,
> {
    if port > 7 || port == 0 || start + len > u64::MAX {
        Some(SyscallError::Rejected)
    } else {
        match kernel.task(pid).inner.addr_space.insert_failure(
            &kernel.mem,
            kernel.frames@,
            start,
            (start + len) as u64,
        ) {
            Some(MemError::OutOfFrames) => Some(SyscallError::Fatal(KernelPanic::OutOfFrames)),
            Some(_) => Some(SyscallError::Rejected),
            None => None,
        }
    }
}

/// Maps `len` bytes from the address `start` to fresh zeroed frames in the
/// address space of the task `pid`, with the protection bits `port`.
pub fn sys_mmap(kernel: &mut Kernel, pid: usize, start: u64, len: u64, port: u64) -> (res:
    SyscallResult)
    requires
        old(kernel).wf_hand(Some(pid)),
    ensures
        final(kernel).wf_hand(Some(pid)),
        match res {
            Ok(v) => v == 0 && mmap_failure(old(kernel), pid, start, len, port) is None,
            Err(e) => mmap_failure(old(kernel), pid, start, len, port) == Some(e),
        },
        res is Err ==> old(kernel).same_state(final(kernel)),
        res is Ok ==> {
            let range = MemorySet::page_range(start, (start + len) as u64);
            &&& old(kernel).same_but_space(final(kernel), pid)
            &&& old(kernel).moved_for(final(kernel), pid)
            &&& old(kernel).task(pid).inner.addr_space.inserted(
                &old(kernel).mem,
                old(kernel).frames@,
                &final(kernel).task(pid).inner.addr_space,
                &final(kernel).mem,
                final(kernel).frames@,
                range.0,
                range.1,
                mmap_perm(port),
            )
        },
{
    if port > 7 || port == 0 || start > u64::MAX - len {
        return Err(SyscallError::Rejected);
    }
    let perm = PERM_U + 2 * (port as u8);
    let ghost pre = *kernel;
    proof {
        assert(pre.has_task(pid));
        assert(pre.task_ok(pid));
    }
    let mut task = kernel.tasks[pid].take().unwrap();
    let res = task.inner.addr_space.insert_framed_area(
        &mut kernel.frames,
        &mut kernel.mem,
        start,
        start + len,
        perm,
    );
    kernel.tasks.set(pid, Some(task));
    proof {
        assert forall|q: usize| q != pid && q < pre.tasks@.len() implies #[trigger] kernel.tasks@[q as int]
            == pre.tasks@[q as int] by {}
    }
    match res {
        Ok(_) => {
            proof {
                let range = MemorySet::page_range(start, (start + len) as u64);
                pre.lemma_space_grew(kernel, pid, Some(pid), range.0, range.1, perm);
            }
            Ok(0)
        },
        Err(e) => {
            proof {
                assert(kernel.tasks@ =~= pre.tasks@);
                pre.lemma_same_state(kernel, Some(pid));
            }
            match e {
                MemError::OutOfFrames => Err(SyscallError::Fatal(KernelPanic::OutOfFrames)),
                _ => Err(SyscallError::Rejected),
            }
        },
    }
}


/// Why `munmap` fails, if it does: the start is not page-aligned, the range
/// wraps round, or no recorded area of the task has exactly the pages of
/// the range and is accessible in user mode.
pub open spec fn munmap_failure(kernel: &Kernel, pid: usize, start: u64, len: u64) -> Option<
    SyscallError,
> {
    let space = kernel.task(pid).inner.addr_space;
    let range = MemorySet::page_range(start, (start + len) as u64);
    if page_offset(start) != 0 || start + len > u64::MAX {
        Some(SyscallError::Rejected)
    } else {
        match space.find_area(range.0, range.1) {
            Some(i) => if has_flag(space.areas()[i].map_perm, PERM_U) {
                None
            } else {
                Some(SyscallError::Rejected)
            },
            None => Some(SyscallError::Rejected),
        }
    }
}

/// When `munmap` succeeds: exactly if the start is page-aligned, the range
/// does not wrap round, and a recorded area of the task has exactly the
/// pages of the range and is accessible in user mode. Of a range with
/// pages, one area at most has its pages, and that is the one that goes.
pub proof fn lemma_munmap_exact(kernel: &Kernel, pid: usize, start: u64, len: u64)
    requires
        kernel.wf_hand(Some(pid)),
    ensures
        ({
            let space = kernel.task(pid).inner.addr_space;
            let range = MemorySet::page_range(start, (start + len) as u64);
            &&& munmap_failure(kernel, pid, start, len) is None <==> page_offset(start) == 0 && start
                + len <= u64::MAX && (exists|i: int| space.area_is(i, range.0, range.1)) && has_flag(
                space.areas()[space.find_area(range.0, range.1)->0].map_perm,
                PERM_U,
            )
            &&& range.0 < range.1 ==> forall|i: int| #[trigger]
                space.area_is(i, range.0, range.1) ==> space.find_area(range.0, range.1) == Some(i)
        }),
{
    let space = kernel.task(pid).inner.addr_space;
    let range = MemorySet::page_range(start, (start + len) as u64);
    assert(kernel.has_task(pid));
    assert(kernel.task_ok(pid));
    space.lemma_find_area(&kernel.mem, range.0, range.1);
}

/// Unmaps the area of the task `pid` that was mapped over `len` bytes from
/// the address `start`, and gives its frames back.
pub fn sys_unmmap(kernel: &mut Kernel, pid: usize, start: u64, len: u64) -> (res: SyscallResult)
    requires
        old(kernel).wf_hand(Some(pid)),
    ensures
        final(kernel).wf_hand(Some(pid)),
        match res {
            Ok(v) => v == 0 && munmap_failure(old(kernel), pid, start, len) is None,
            Err(e) => munmap_failure(old(kernel), pid, start, len) == Some(e),
        },
        res is Err ==> old(kernel).same_state(final(kernel)),
        res is Ok ==> {
            let space = old(kernel).task(pid).inner.addr_space;
            let range = MemorySet::page_range(start, (start + len) as u64);
            &&& old(kernel).same_but_space(final(kernel), pid)
            &&& old(kernel).moved_for(final(kernel), pid)
            &&& space.removed(
                &old(kernel).mem,
                old(kernel).frames@,
                &final(kernel).task(pid).inner.addr_space,
                &final(kernel).mem,
                final(kernel).frames@,
                space.find_area(range.0, range.1)->0,
            )
        },
{
    if page_offset(start) != 0 || start > u64::MAX - len {
        return Err(SyscallError::Rejected);
    }
    let ghost pre = *kernel;
    proof {
        assert(pre.has_task(pid));
        assert(pre.task_ok(pid));
    }
    let user = match kernel.tasks[pid].as_ref().unwrap().inner.addr_space.area_perm(
        start,
        start + len,
    ) {
        Some(perm) => has_flag(perm, PERM_U),
        None => false,
    };
    if !user {
        return Err(SyscallError::Rejected);
    }
    unmap_user_area(kernel, pid, start, start + len);
    Ok(0)
}

/// Unmaps the area of the task `pid` with exactly the pages of
/// `[start_va, end_va)`, an area that is accessible in user mode.
#[verifier::rlimit(50)]
fn unmap_user_area(kernel: &mut Kernel, pid: usize, start_va: u64, end_va: u64)
    requires
        old(kernel).wf_hand(Some(pid)),
        ({
            let space = old(kernel).task(pid).inner.addr_space;
            let range = MemorySet::page_range(start_va, end_va);
            &&& space.find_area(range.0, range.1) is Some
            &&& space.area_is(space.find_area(range.0, range.1)->0, range.0, range.1)
            &&& has_flag(space.areas()[space.find_area(range.0, range.1)->0].map_perm, PERM_U)
        }),
    ensures
        final(kernel).wf_hand(Some(pid)),
        old(kernel).same_but_space(final(kernel), pid),
        old(kernel).moved_for(final(kernel), pid),
        ({
            let space = old(kernel).task(pid).inner.addr_space;
            let range = MemorySet::page_range(start_va, end_va);
            space.removed(
                &old(kernel).mem,
                old(kernel).frames@,
                &final(kernel).task(pid).inner.addr_space,
                &final(kernel).mem,
                final(kernel).frames@,
                space.find_area(range.0, range.1)->0,
            )
        }),
{
    let ghost pre = *kernel;
    proof {
        assert(pre.has_task(pid));
        assert(pre.task_ok(pid));
    }
    let mut task = kernel.tasks[pid].take().unwrap();
    let res = task.inner.addr_space.unmap_area(&mut kernel.frames, &mut kernel.mem, start_va, end_va);
    kernel.tasks.set(pid, Some(task));
    proof {
        assert forall|q: usize| q != pid && q < pre.tasks@.len() implies #[trigger] kernel.tasks@[q as int]
            == pre.tasks@[q as int] by {}
        let space = pre.task(pid).inner.addr_space;
        let range = MemorySet::page_range(start_va, end_va);
        let idx = space.find_area(range.0, range.1)->0;
        assert(res is Ok);
        assert(kernel.task(pid).inner.addr_space == task.inner.addr_space);
        assert(pre.same_but_space(kernel, pid));
        assert(kernel.frames.within(&kernel.mem));
        assert(0 <= idx < space.areas().len());
        pre.lemma_space_shrank(kernel, pid, Some(pid), idx);
    }
}


/// The identifier of the task `pid`.
pub fn sys_getpid(kernel: &Kernel, pid: usize) -> (res: SyscallResult)
    requires
        kernel.wf_hand(Some(pid)),
    ensures
        res == Ok::<i64, SyscallError>(kernel.task(pid).pid.0 as i64),
        res == Ok::<i64, SyscallError>(pid as i64),
{
    proof {
        assert(kernel.has_task(pid));
        assert(kernel.task_ok(pid));
    }
    Ok(kernel.tasks[pid].as_ref().unwrap().pid.0 as i64)
}

/// What a task learns of itself: its state, how often it issued each system
/// call, and for how many milliseconds it has existed.
#[derive(Clone, Copy, Debug)]
pub struct TaskInfo {
    pub state: TaskState,
    pub syscall_times: [u32; MAX_SYSCALL_NUM],
    pub exec_time: u64,
}

/// Size of a `TaskInfo` in the memory of a task, in bytes.
pub const TASK_INFO_SIZE: usize = 2016;

/// The number that stands for a state in the memory of a task.
pub open spec fn spec_state_code(state: TaskState) -> u8 {
    match state {
        TaskState::UnInit => 0,
        TaskState::Ready => 1,
        TaskState::Running => 2,
        TaskState::Exited => 3,
    }
}

/// The number that stands for a state in the memory of a task.
#[verifier::when_used_as_spec(spec_state_code)]
pub fn state_code(state: TaskState) -> (code: u8)
    ensures
        code == spec_state_code(state),
{
    match state {
        TaskState::UnInit => 0,
        TaskState::Ready => 1,
        TaskState::Running => 2,
        TaskState::Exited => 3,
    }
}

impl TaskInfo {
    /// The bytes of the record in the memory of a task: the state in one
    /// byte, the counters from offset 4 as little-endian 32-bit numbers,
    /// the time from offset 2008 as a little-endian 64-bit number, and
    /// zeros between them.
    pub open spec fn spec_encode(&self) -> Seq<u8> {
        Seq::new(
            TASK_INFO_SIZE as nat,
            |k: int|
                if k == 0 {
                    state_code(self.state)
                } else if k < 4 {
                    0u8
                } else if k < 2004 {
                    spec_u32_to_le_bytes(self.syscall_times@[(k - 4) / 4])[(k - 4) % 4]
                } else if k < 2008 {
                    0u8
                } else {
                    spec_u64_to_le_bytes(self.exec_time)[k - 2008]
                },
        )
    }

    /// The bytes of the record in the memory of a task.
    pub fn encode(&self) -> (bytes: Vec<u8>)
        ensures
            bytes@ == self.spec_encode(),
    {
        proof {
            vstd::bytes::lemma_auto_spec_u32_to_from_le_bytes();
            vstd::bytes::lemma_auto_spec_u64_to_from_le_bytes();
        }
        let mut bytes: Vec<u8> = Vec::new();
        bytes.push(state_code(self.state));
        bytes.push(0);
        bytes.push(0);
        bytes.push(0);
        let mut i: usize = 0;
        while i < MAX_SYSCALL_NUM
            invariant
                i <= MAX_SYSCALL_NUM,
                bytes@.len() == 4 + 4 * i,
                forall|k: int| 0 <= k < bytes@.len() ==> #[trigger] bytes@[k] == self.spec_encode()[k],
            decreases MAX_SYSCALL_NUM - i,
        {
            let word = u32_to_le_bytes(self.syscall_times[i]);
            proof {
                vstd::bytes::lemma_auto_spec_u32_to_from_le_bytes();
                assert(word@.len() == 4);
            }
            bytes.push(word[0]);
            bytes.push(word[1]);
            bytes.push(word[2]);
            bytes.push(word[3]);
            i += 1;
        }
        bytes.push(0);
        bytes.push(0);
        bytes.push(0);
        bytes.push(0);
        let time = u64_to_le_bytes(self.exec_time);
        let mut j: usize = 0;
        while j < 8
            invariant
                j <= 8,
                time@ == spec_u64_to_le_bytes(self.exec_time),
                time@.len() == 8,
                bytes@.len() == 2008 + j,
                forall|k: int| 0 <= k < bytes@.len() ==> #[trigger] bytes@[k] == self.spec_encode()[k],
            decreases 8 - j,
        {
            bytes.push(time[j]);
            j += 1;
        }
        assert(bytes@ =~= self.spec_encode());
        bytes
    }
}

/// The bytes of a time of day in the memory of a task: the seconds, then
/// the microseconds, each as a little-endian 64-bit number.
pub open spec fn timeval_bytes(tv: TimeVal) -> Seq<u8> {
    spec_u64_to_le_bytes(tv.sec) + spec_u64_to_le_bytes(tv.usec)
}

/// Writes the time of day at `now` ticks of the timer to the user address
/// `timeval_ptr` of the task `pid`.
pub fn sys_gettimeofday(kernel: &mut Kernel, pid: usize, timeval_ptr: u64, _tz: u64, now: u64) -> (res:
    SyscallResult)
    requires
        old(kernel).wf_hand(Some(pid)),
    ensures
        final(kernel).wf_hand(Some(pid)),
        old(kernel).same_but_mem(final(kernel)),
        res is Ok <==> old(kernel).task(pid).inner.addr_space.user_range(
            &old(kernel).mem,
            timeval_ptr,
            16,
        ),
        res is Err ==> res == Err::<i64, SyscallError>(SyscallError::Rejected) && final(kernel).mem
            == old(kernel).mem,
        res is Ok ==> {
            let space = old(kernel).task(pid).inner.addr_space;
            &&& res == Ok::<i64, SyscallError>(0)
            &&& old(kernel).moved_for(final(kernel), pid)
            &&& space.written(
                &old(kernel).mem,
                &final(kernel).mem,
                timeval_ptr,
                timeval_bytes(time_val(now)),
                16,
            )
        },
{
    proof {
        vstd::bytes::lemma_auto_spec_u64_to_from_le_bytes();
    }
    let tv = time_val(now);
    let mut bytes = u64_to_le_bytes(tv.sec);
    let mut usec = u64_to_le_bytes(tv.usec);
    bytes.append(&mut usec);
    assert(bytes@ =~= timeval_bytes(tv));
    if copy_to_user(kernel, pid, timeval_ptr, &bytes, Ghost(Some(pid))) {
        Ok(0)
    } else {
        Err(SyscallError::Rejected)
    }
}

/// The record that `taskinfo` gives the task `pid` at `now` ticks of the
/// timer: the state is that of a running task, the counters are the
/// task's, and the time is the time since the task was made.
pub open spec fn task_info(kernel: &Kernel, pid: usize, now: u64) -> TaskInfo {
    TaskInfo {
        state: TaskState::Running,
        syscall_times: kernel.task(pid).inner.syscall_times,
        exec_time: get_time_ms(now).wrapping_sub(kernel.task(pid).start_time_ms),
    }
}

/// Writes what the task `pid` learns of itself to its user address `user_info`.
pub fn sys_taskinfo(kernel: &mut Kernel, pid: usize, user_info: u64, now: u64) -> (res: SyscallResult)
    requires
        old(kernel).wf_hand(Some(pid)),
    ensures
        final(kernel).wf_hand(Some(pid)),
        old(kernel).same_but_mem(final(kernel)),
        res is Ok <==> old(kernel).task(pid).inner.addr_space.user_range(
            &old(kernel).mem,
            user_info,
            TASK_INFO_SIZE as nat,
        ),
        res is Err ==> res == Err::<i64, SyscallError>(SyscallError::Rejected) && final(kernel).mem
            == old(kernel).mem,
        res is Ok ==> {
            let space = old(kernel).task(pid).inner.addr_space;
            &&& res == Ok::<i64, SyscallError>(0)
            &&& old(kernel).moved_for(final(kernel), pid)
            &&& space.written(
                &old(kernel).mem,
                &final(kernel).mem,
                user_info,
                task_info(old(kernel), pid, now).spec_encode(),
                TASK_INFO_SIZE as nat,
            )
        },
{
    proof {
        assert(old(kernel).has_task(pid));
    }
    let task = kernel.tasks[pid].as_ref().unwrap();
    let info = TaskInfo {
        state: TaskState::Running,
        syscall_times: task.inner.syscall_times,
        exec_time: get_time_ms(now).wrapping_sub(task.start_time_ms),
    };
    let bytes = info.encode();
    if copy_to_user(kernel, pid, user_info, &bytes, Ghost(Some(pid))) {
        Ok(0)
    } else {
        Err(SyscallError::Rejected)
    }
}

/// The text that `write` sends to the console, if the call succeeds: the
/// file descriptor is that of the console, and the buffer holds valid
/// UTF-8 at addresses that are accessible in user mode.
pub open spec fn write_text(kernel: &Kernel, pid: usize, fd: u64, buf: u64, len: u64) -> Option<
    Seq<char>,
> {
    if fd != STDOUT || len > usize::MAX {
        None
    } else {
        user_text(kernel, pid, buf, len as nat)
    }
}

/// Reads the text of `len` bytes at the user address `buf` of the task
/// `pid` for the console. Returns the number of bytes and the text.
pub fn sys_write(kernel: &Kernel, pid: usize, fd: u64, buf: u64, len: u64) -> (res: (
    SyscallResult,
    Option<String>,
))
    requires
        kernel.wf_hand(Some(pid)),
    ensures
        match write_text(kernel, pid, fd, buf, len) {
            Some(text) => res.0 == Ok::<i64, SyscallError>(len as i64) && res.1 is Some && res.1->0@
                == text,
            None => res.0 == Err::<i64, SyscallError>(SyscallError::Rejected) && res.1 is None,
        },
{
    proof {
        assert(kernel.has_task(pid));
        assert(kernel.task_ok(pid));
    }
    if fd != STDOUT || len > usize::MAX as u64 {
        return (Err(SyscallError::Rejected), None);
    }
    match from_user_ptr_to_str(kernel, pid, buf, len as usize) {
        Some(text) => (Ok(len as i64), Some(text)),
        None => (Err(SyscallError::Rejected), None),
    }
}

/// Whether the task `pid` is in `after` what it is in `before`, but that it
/// has exited with the exit code `code`.
pub open spec fn exited(before: &Kernel, after: &Kernel, pid: usize, code: i32) -> bool {
    let old_task = before.task(pid);
    let new_task = after.task(pid);
    &&& after.has_task(pid)
    &&& new_task.pid == old_task.pid
    &&& new_task.name == old_task.name
    &&& new_task.start_time_ms == old_task.start_time_ms
    &&& new_task.kernel_stack == old_task.kernel_stack
    &&& new_task.inner.addr_space == old_task.inner.addr_space
    &&& new_task.inner.trap_ctx_ppn == old_task.inner.trap_ctx_ppn
    &&& new_task.inner.children == old_task.inner.children
    &&& new_task.inner.syscall_times == old_task.inner.syscall_times
    &&& new_task.inner.state == TaskState::Exited
    &&& new_task.inner.exit_code == code
}

/// Ends the task `pid` with the exit code `exit_code`: the task is neither
/// queued nor run again, and stays in the table for its parent to reap.
/// Then the task at the front of the ready queue runs; with an empty queue
/// no task is left.
pub fn sys_exit(kernel: &mut Kernel, pid: usize, exit_code: i32) -> (next: Result<Resume, KernelPanic>)
    requires
        old(kernel).wf_hand(Some(pid)),
    ensures
        final(kernel).wf(),
        exited(old(kernel), final(kernel), pid, exit_code),
        final(kernel).has_task(pid),
        final(kernel).task(pid).inner.state == TaskState::Exited,
        final(kernel).task(pid).inner.exit_code == exit_code,
        final(kernel).mem == old(kernel).mem,
        final(kernel).frames == old(kernel).frames,
        final(kernel).pids == old(kernel).pids,
        final(kernel).stacks == old(kernel).stacks,
        final(kernel).kernel_space == old(kernel).kernel_space,
        final(kernel).apps == old(kernel).apps,
        final(kernel).platform == old(kernel).platform,
        final(kernel).tasks@.len() == old(kernel).tasks@.len(),
        match next {
            Ok(resume) => {
                &&& old(kernel).manager@.len() > 0
                &&& resume.pid == old(kernel).manager@.first()
                &&& resume.pid != pid
                &&& final(kernel).manager@ == old(kernel).manager@.drop_first()
                &&& final(kernel).processor.cur_task == Some(resume.pid)
                &&& final(kernel).task(resume.pid).inner.state == TaskState::Running
                &&& kept_but_state(old(kernel), final(kernel), resume.pid)
                &&& resume.user_satp == final(kernel).task(resume.pid).inner.addr_space.spec_token()
                &&& forall|q: usize|
                    q != pid && q != resume.pid && q < old(kernel).tasks@.len() ==> #[trigger] final(kernel).tasks@[q as int] == old(kernel).tasks@[q as int]
            },
            Err(e) => {
                &&& e == KernelPanic::AllTasksComplete
                &&& old(kernel).manager@.len() == 0
                &&& final(kernel).manager == old(kernel).manager
                &&& final(kernel).processor.cur_task is None
                &&& forall|q: usize|
                    q != pid && q < old(kernel).tasks@.len() ==> #[trigger] final(kernel).tasks@[q as int]
                        == old(kernel).tasks@[q as int]
            },
        },
{
    let ghost pre = *kernel;
    kernel.set_task_exited(pid, exit_code);
    proof {
        pre.lemma_bookkeeping(kernel, pid);
        pre.lemma_family_kept(kernel, pid);
        assert(pre.placed(pid, Some(pid)));
        assert forall|q: usize| #[trigger] kernel.has_task(q) implies kernel.placed(q, None) by {
            if q != pid {
                assert(kernel.tasks@[q as int] == pre.tasks@[q as int]);
                assert(pre.has_task(q));
                assert(pre.placed(q, Some(pid)));
            }
        }
        assert forall|i: int| 0 <= i < kernel.manager@.len() implies kernel.has_task(
            #[trigger] kernel.manager@[i],
        ) by {
            let q = pre.manager@[i];
            assert(pre.has_task(q));
            if q != pid {
                assert(kernel.tasks@[q as int] == pre.tasks@[q as int]);
            }
        }
    }
    if kernel.manager.len() == 0 {
        return Err(KernelPanic::AllTasksComplete);
    }
    let ghost mid = *kernel;
    let resume = run_next_task(kernel);
    proof {
        let next = resume.pid;
        assert(mid.manager@[0] == next);
        assert(mid.has_task(next));
        assert(mid.placed(next, None));
        assert(mid.manager@.contains(next));
        assert(next != pid);
        assert(kernel.tasks@[pid as int] == mid.tasks@[pid as int]);
        assert(mid.tasks@[next as int] == pre.tasks@[next as int]);
        assert forall|q: usize|
            q != pid && q != next && q < pre.tasks@.len() implies #[trigger] kernel.tasks@[q as int]
            == pre.tasks@[q as int] by {
            assert(kernel.tasks@[q as int] == mid.tasks@[q as int]);
            assert(mid.tasks@[q as int] == pre.tasks@[q as int]);
        }
    }
    Ok(resume)
}

/// Gives up the processor: the task `pid` goes to the back of the ready
/// queue, and the task at the front runs.
pub fn sys_yield(kernel: &mut Kernel, pid: usize) -> (resume: Resume)
    requires
        old(kernel).wf_hand(Some(pid)),
        old(kernel).task(pid).inner.state != TaskState::Exited,
    ensures
        final(kernel).wf(),
        resume.pid == old(kernel).manager@.push(pid).first(),
        final(kernel).manager@ == old(kernel).manager@.push(pid).drop_first(),
        rescheduled(old(kernel), final(kernel), pid, resume.pid),
        kept_but_state(old(kernel), final(kernel), pid),
        final(kernel).processor.cur_task == Some(resume.pid),
        final(kernel).task(resume.pid).inner.state == TaskState::Running,
        resume.user_satp == final(kernel).task(resume.pid).inner.addr_space.spec_token(),
        final(kernel).has_task(pid),
        final(kernel).mem == old(kernel).mem,
        final(kernel).frames == old(kernel).frames,
        final(kernel).pids == old(kernel).pids,
        final(kernel).stacks == old(kernel).stacks,
        final(kernel).tasks@.len() == old(kernel).tasks@.len(),
        resume.pid != pid ==> final(kernel).task(pid).inner.state == TaskState::Ready,
{
    let ghost pre = *kernel;
    kernel.set_task_state(pid, TaskState::Ready);
    proof {
        pre.lemma_bookkeeping(kernel, pid);
        pre.lemma_family_kept(kernel, pid);
        assert(pre.placed(pid, Some(pid)));
        assert forall|q: usize| #[trigger] kernel.has_task(q) implies kernel.placed(q, Some(pid)) by {
            if q != pid {
                assert(kernel.tasks@[q as int] == pre.tasks@[q as int]);
                assert(pre.has_task(q));
                assert(pre.placed(q, Some(pid)));
            }
        }
        assert forall|i: int| 0 <= i < kernel.manager@.len() implies kernel.has_task(
            #[trigger] kernel.manager@[i],
        ) by {
            let q = pre.manager@[i];
            assert(pre.has_task(q));
            if q != pid {
                assert(kernel.tasks@[q as int] == pre.tasks@[q as int]);
            }
        }
    }
    let ghost mid = *kernel;
    let resume = switch_task(kernel, pid);
    proof {
        if resume.pid != pid {
            assert(kernel.tasks@[pid as int] == mid.tasks@[pid as int]);
            assert(mid.tasks@[resume.pid as int] == pre.tasks@[resume.pid as int]);
        }
        assert forall|q: usize|
            q != pid && q != resume.pid && q < pre.tasks@.len() implies #[trigger] kernel.tasks@[q as int]
            == pre.tasks@[q as int] by {
            assert(kernel.tasks@[q as int] == mid.tasks@[q as int]);
            assert(mid.tasks@[q as int] == pre.tasks@[q as int]);
        }
    }
    resume
}


/// Whether `after` is what a fork of the task `pid`, which the trap handler
/// deals with, at the time `now_ms` makes of `before`, when it gives
/// `result`. The child is ready, waits at the back of the queue, and is the
/// youngest child of the task; the task itself and every other task are as
/// they were, but for the children of the task.
pub open spec fn fork_called(
    before: &Kernel,
    after: &Kernel,
    pid: usize,
    now_ms: u64,
    result: SyscallResult,
) -> bool {
    let space = before.task(pid).inner.addr_space;
    match result {
        Ok(v) => {
            let child = v as usize;
            &&& fork_failure(before, pid) is None
            &&& 0 <= v
            &&& child == before.pids@.next()
            &&& !before.has_task(child)
            &&& after.has_task(child)
            &&& forked(before, pid, after, child, now_ms)
            &&& after.manager@ == before.manager@.push(child)
            &&& after.processor == before.processor
            &&& after.task(child).inner.state == TaskState::Ready
            &&& after.task(child).inner.children@.len() == 0
            &&& after.tasks@.len() == after.pids@.current
            &&& after.pids@ == before.pids@.after_alloc()
            &&& forall|q: usize| #[trigger] after.has_task(q) ==> q == child || before.has_task(q)
            &&& after.frames@.free_count() == before.frames@.free_count() - Cover::total(
                space.layout(),
            )
            &&& after.frames@ == before.frames@.after_allocs(Cover::total(space.layout()))
            &&& before.mem.same_extent(&after.mem)
            &&& after.task(pid).pid == before.task(pid).pid
            &&& after.task(pid).name == before.task(pid).name
            &&& after.task(pid).start_time_ms == before.task(pid).start_time_ms
            &&& after.task(pid).kernel_stack == before.task(pid).kernel_stack
            &&& after.task(pid).inner.state == before.task(pid).inner.state
            &&& after.task(pid).inner.children@ == before.task(pid).inner.children@.push(
                child,
            )
            &&& after.task(pid).inner.syscall_times == before.task(
                pid,
            ).inner.syscall_times
            &&& after.task(pid).inner.exit_code == before.task(pid).inner.exit_code
            &&& after.task(pid).inner.addr_space == space
            &&& after.task(pid).inner.trap_ctx_ppn == before.task(pid).inner.trap_ctx_ppn
            &&& forall|q: usize|
                before.has_task(q) && q != pid ==> after.has_task(q)
                    && #[trigger] after.task(q) == before.task(q)
            &&& forall|f: u64|
                before.mem.contains(f) && before.frames@.is_allocated(f)
                    ==> #[trigger] after.mem.frame(f) == before.mem.frame(f)
        },
        Err(e) => {
            &&& fork_failure(before, pid) is Some
            &&& e == SyscallError::Fatal(fork_failure(before, pid)->0)
            &&& before.moved_for(after, pid)
            &&& after.tasks@ == before.tasks@
        },
    }
}

/// Makes a copy of the task `pid` at the time `now_ms` and records it as
/// the youngest child of the task. Returns the identifier of the child.
pub fn sys_fork(kernel: &mut Kernel, pid: usize, now_ms: u64) -> (res: SyscallResult)
    requires
        old(kernel).wf_hand(Some(pid)),
    ensures
        final(kernel).wf_hand(Some(pid)),
        fork_called(old(kernel), final(kernel), pid, now_ms, res),
{
    let ghost pre = *kernel;
    proof {
        assert(pre.has_task(pid));
    }
    let child = match fork_in_hand(kernel, pid, now_ms, Ghost(Some(pid))) {
        Ok(child) => child,
        Err(e) => {
            return Err(SyscallError::Fatal(e));
        },
    };
    let ghost mid = *kernel;
    proof {
        pre.pids@.lemma_alloc();
        assert(mid.has_task(pid) && mid.task(pid) == pre.task(pid));
        assert forall|p: usize, i: int|
            mid.has_task(p) && 0 <= i < mid.task(p).inner.children@.len() implies #[trigger] mid.task(
            p,
        ).inner.children@[i] != child by {
            if p != child {
                assert(p < pre.tasks@.len() || !mid.has_task(p)) by {
                    if p >= pre.tasks@.len() && mid.has_task(p) {
                        assert(mid.tasks@.len() <= pre.tasks@.len() + 1);
                    }
                }
                assert(mid.tasks@[p as int] == pre.tasks@[p as int]);
                assert(pre.has_task(p));
                let c = pre.task(p).inner.children@[i];
                assert(pre.has_task(c));
            }
        }
    }
    kernel.push_child(pid, child, Ghost(Some(pid)));
    proof {
        assert forall|q: usize| #[trigger] kernel.has_task(q) implies q == child || pre.has_task(q) by {
            assert(kernel.task_ok(q));
            if q != child {
                assert(pre.pids@.is_allocated(q));
            }
        }
        assert forall|q: usize| pre.has_task(q) && q != pid implies kernel.has_task(q)
            && #[trigger] kernel.task(q) == pre.task(q) by {
            assert(mid.has_task(q) && mid.task(q) == pre.task(q));
            assert(kernel.tasks@[q as int] == mid.tasks@[q as int]);
        }
        assert(kernel.tasks@[child as int] == mid.tasks@[child as int]);
    }
    Ok(child as i64)
}

/// Whether a wait for `target` regards the child `child`: every child is
/// regarded with the target `-1`, else the child with that identifier.
pub open spec fn spec_waits_for(target: i64, child: usize) -> bool {
    target == -1 || target == child
}

/// Whether a wait for `target` regards the child `child`.
#[verifier::when_used_as_spec(spec_waits_for)]
pub fn waits_for(target: i64, child: usize) -> (regards: bool)
    ensures
        regards == spec_waits_for(target, child),
{
    target == -1 || (target >= 0 && target as u64 == child as u64)
}

/// Whether the child at the place `i` of the children of the task `pid` is
/// one that a wait for `target` regards.
pub open spec fn awaited_at(kernel: &Kernel, pid: usize, target: i64, i: int) -> bool {
    0 <= i < kernel.task(pid).inner.children@.len() && waits_for(
        target,
        kernel.task(pid).inner.children@[i],
    )
}

/// Whether the child at the place `i` of the children of the task `pid` is
/// one that a wait for `target` regards and that has exited.
pub open spec fn exited_at(kernel: &Kernel, pid: usize, target: i64, i: int) -> bool {
    awaited_at(kernel, pid, target, i) && kernel.task(
        kernel.task(pid).inner.children@[i],
    ).inner.state == TaskState::Exited
}

/// What a wait of the task `pid` for `target` finds among its children.
pub enum Waited {
    /// No child that the wait regards.
    NoChild,
    /// Children that the wait regards, none of which has exited.
    StillRunning,
    /// The place of the oldest child that the wait regards and that has exited.
    Exited(usize),
}

/// Whether `found` is what a wait of the task `pid` for `target` finds.
pub open spec fn waited(kernel: &Kernel, pid: usize, target: i64, found: Waited) -> bool {
    match found {
        Waited::NoChild => forall|i: int| !awaited_at(kernel, pid, target, i),
        Waited::StillRunning => (exists|i: int| awaited_at(kernel, pid, target, i)) && forall|i: int|
            !exited_at(kernel, pid, target, i),
        Waited::Exited(idx) => exited_at(kernel, pid, target, idx as int) && forall|j: int|
            0 <= j < idx ==> !exited_at(kernel, pid, target, j),
    }
}

/// Looks among the children of the task `pid` for the oldest that a wait
/// for `target` regards and that has exited.
pub fn find_exited_child(kernel: &Kernel, pid: usize, target: i64) -> (found: Waited)
    requires
        kernel.wf_hand(Some(pid)),
    ensures
        waited(kernel, pid, target, found),
{
    proof {
        assert(kernel.has_task(pid));
    }
    let task = kernel.tasks[pid].as_ref().unwrap();
    let mut any = false;
    let mut i: usize = 0;
    while i < task.inner.children.len()
        invariant
            i <= task.inner.children@.len(),
            kernel.wf_hand(Some(pid)),
            kernel.has_task(pid),
            *task == kernel.task(pid),
            any <==> exists|j: int| 0 <= j < i && awaited_at(kernel, pid, target, j),
            forall|j: int| 0 <= j < i ==> !exited_at(kernel, pid, target, j),
        decreases task.inner.children@.len() - i,
    {
        let child = task.inner.children[i];
        proof {
            assert(kernel.task(pid).inner.children@[i as int] == child);
            assert(kernel.has_task(child));
        }
        if waits_for(target, child) {
            assert(awaited_at(kernel, pid, target, i as int));
            any = true;
            match kernel.task_state(child) {
                TaskState::Exited => {
                    return Waited::Exited(i);
                },
                _ => {},
            }
        } else {
            proof {
                if exists|j: int| 0 <= j < i + 1 && awaited_at(kernel, pid, target, j) {
                    let j = choose|j: int| 0 <= j < i + 1 && awaited_at(kernel, pid, target, j);
                    assert(j < i);
                }
            }
        }
        i += 1;
    }
    if any {
        Waited::StillRunning
    } else {
        proof {
            assert forall|j: int| !awaited_at(kernel, pid, target, j) by {
                if awaited_at(kernel, pid, target, j) {
                    assert(0 <= j < i);
                }
            }
        }
        Waited::NoChild
    }
}

/// The bytes of an exit code in the memory of a task: a little-endian
/// 32-bit number in two's complement.
pub open spec fn exit_code_bytes(code: i32) -> Seq<u8> {
    spec_u32_to_le_bytes(code as u32)
}

/// Waits for a child of the task `pid`: for any child with the target
/// `-1`, else for the child with the identifier `target_pid`. Without such
/// a child the result is `-1`; when none of them has exited, `-2`. Else the
/// oldest of them that has exited is reaped: it leaves the table and the
/// children of the task, its frames, its identifier and its kernel stack
/// are given back, its exit code is written to the user address
/// `exit_code`, and its identifier is the result. The call is rejected,
/// and nothing changes, when a child can be reaped but the exit code
/// cannot be written.
pub fn sys_waitpid(kernel: &mut Kernel, pid: usize, target_pid: i64, exit_code: u64) -> (res:
    SyscallResult)
    requires
        old(kernel).wf_hand(Some(pid)),
    ensures
        final(kernel).wf_hand(Some(pid)),
        final(kernel).has_task(pid),
        match res {
            Ok(v) => {
                if v == -1 {
                    waited(old(kernel), pid, target_pid, Waited::NoChild) && old(kernel).same_state(
                        final(kernel),
                    )
                } else if v == -2 {
                    waited(old(kernel), pid, target_pid, Waited::StillRunning) && old(kernel).same_state(final(kernel))
                } else {
                    exists|idx: usize|
                        {
                            let child = old(kernel).task(pid).inner.children@[idx as int];
                            let space = old(kernel).task(pid).inner.addr_space;
                            &&& #[trigger] waited(old(kernel), pid, target_pid, Waited::Exited(idx))
                            &&& v == child
                            &&& space.user_range(&old(kernel).mem, exit_code, 4)
                            &&& old(kernel).mem.same_extent(&final(kernel).mem)
                            &&& forall|v: u64| #[trigger]
                                space.mapping(&final(kernel).mem, v) == space.mapping(
                                    &old(kernel).mem,
                                    v,
                                )
                            &&& old(kernel).reaped(
                                &(Kernel { mem: old(kernel).mem, ..*final(kernel) }),
                                pid,
                                idx as int,
                            )
                            &&& space.written(
                                &old(kernel).mem,
                                &final(kernel).mem,
                                exit_code,
                                exit_code_bytes(old(kernel).task(child).inner.exit_code),
                                4,
                            )
                        }
                }
            },
            Err(e) => {
                &&& e == SyscallError::Rejected
                &&& old(kernel).same_state(final(kernel))
                &&& exists|idx: usize| #[trigger]
                    waited(old(kernel), pid, target_pid, Waited::Exited(idx))
                &&& !old(kernel).task(pid).inner.addr_space.user_range(
                    &old(kernel).mem,
                    exit_code,
                    4,
                )
            },
        },
{
    let ghost pre = *kernel;
    proof {
        assert(pre.has_task(pid));
        assert(pre.task_ok(pid));
    }
    let idx = match find_exited_child(kernel, pid, target_pid) {
        Waited::NoChild => {
            return Ok(-1);
        },
        Waited::StillRunning => {
            return Ok(-2);
        },
        Waited::Exited(idx) => idx,
    };
    let writable = kernel.tasks[pid].as_ref().unwrap().inner.addr_space.read_user(
        &kernel.mem,
        exit_code,
        4,
    ).is_some();
    if !writable {
        return Err(SyscallError::Rejected);
    }
    let (child, code) = kernel.reap(pid, idx, Ghost(Some(pid)));
    let ghost mid = *kernel;
    let bytes = u32_to_le_bytes(#[verifier::truncate] (code as u32));
    proof {
        vstd::bytes::lemma_auto_spec_u32_to_from_le_bytes();
        assert(pre.has_task(child));
        assert(pre.task_ok(child));
    }
    let ok = copy_to_user(kernel, pid, exit_code, &bytes, Ghost(Some(pid)));
    proof {
        assert(ok);
        assert(pre.reaped(&(Kernel { mem: pre.mem, ..*kernel }), pid, idx as int));
    }
    Ok(child as i64)
}


/// How the task goes on after a system call.
#[derive(Clone, Copy, Debug, PartialEq, Eq, Structural)]
pub enum Flow {
    /// The task goes on; the result of the call is in its register `a0`.
    Continue,
    /// The task gave up the processor or ended, and the task named here runs next.
    Switched(Resume),
    /// The kernel cannot go on.
    Panic(KernelPanic),
}

/// What a system call leads to: the text for the console, if any, and how
/// the task goes on.
pub struct Handled {
    pub console: Option<String>,
    pub flow: Flow,
}

/// The characters of the text for the console, if there is any.
pub open spec fn console_text(console: Option<String>) -> Option<Seq<char>> {
    match console {
        Some(text) => Some(text@),
        None => None,
    }
}

/// The value that a task finds in `a0` for the result of a system call:
/// the value itself, or `-1` for a call that was rejected.
pub open spec fn result_value(result: SyscallResult) -> i64 {
    match result {
        Ok(v) => v,
        Err(_) => -1i64,
    }
}

/// Whether `after` is what the system call `call` of the task `pid`, with
/// the arguments `a1` to `a3` at `now` ticks of the timer, makes of
/// `before`, when it gives `result` and sends `console` to the console.
/// The calls `exit` and `yield` give no result.
pub open spec fn dispatched(
    call: Syscall,
    before: &Kernel,
    after: &Kernel,
    pid: usize,
    a1: u64,
    a2: u64,
    a3: u64,
    now: u64,
    result: SyscallResult,
    console: Option<Seq<char>>,
) -> bool {
    let space = before.task(pid).inner.addr_space;
    match call {
        Syscall::Write => {
            &&& before.same_state(after)
            &&& match write_text(before, pid, a1, a2, a3) {
                Some(text) => result == Ok::<i64, SyscallError>(a3 as i64) && console == Some(text),
                None => result == Err::<i64, SyscallError>(SyscallError::Rejected) && console is None,
            }
        },
        Syscall::GetPid => {
            &&& before.same_state(after)
            &&& console is None
            &&& result == Ok::<i64, SyscallError>(pid as i64)
        },
        Syscall::GetTimeOfDay => {
            &&& console is None
            &&& before.same_but_mem(after)
            &&& result is Ok <==> space.user_range(&before.mem, a1, 16)
            &&& result is Err ==> result == Err::<i64, SyscallError>(SyscallError::Rejected)
                && after.mem == before.mem
            &&& result is Ok ==> result == Ok::<i64, SyscallError>(0) && space.written(
                &before.mem,
                &after.mem,
                a1,
                timeval_bytes(time_val(now)),
                16,
            )
        },
        Syscall::TaskInfo => {
            &&& console is None
            &&& before.same_but_mem(after)
            &&& result is Ok <==> space.user_range(&before.mem, a1, TASK_INFO_SIZE as nat)
            &&& result is Err ==> result == Err::<i64, SyscallError>(SyscallError::Rejected)
                && after.mem == before.mem
            &&& result is Ok ==> result == Ok::<i64, SyscallError>(0) && space.written(
                &before.mem,
                &after.mem,
                a1,
                task_info(before, pid, now).spec_encode(),
                TASK_INFO_SIZE as nat,
            )
        },
        Syscall::Mmap => {
            let range = MemorySet::page_range(a1, (a1 + a2) as u64);
            &&& console is None
            &&& match result {
                Ok(v) => v == 0 && mmap_failure(before, pid, a1, a2, a3) is None,
                Err(e) => mmap_failure(before, pid, a1, a2, a3) == Some(e),
            }
            &&& result is Err ==> before.same_state(after)
            &&& result is Ok ==> before.same_but_space(after, pid) && space.inserted(
                &before.mem,
                before.frames@,
                &after.task(pid).inner.addr_space,
                &after.mem,
                after.frames@,
                range.0,
                range.1,
                mmap_perm(a3),
            )
        },
        Syscall::Munmap => {
            let range = MemorySet::page_range(a1, (a1 + a2) as u64);
            &&& console is None
            &&& match result {
                Ok(v) => v == 0 && munmap_failure(before, pid, a1, a2) is None,
                Err(e) => munmap_failure(before, pid, a1, a2) == Some(e),
            }
            &&& result is Err ==> before.same_state(after)
            &&& result is Ok ==> before.same_but_space(after, pid) && space.removed(
                &before.mem,
                before.frames@,
                &after.task(pid).inner.addr_space,
                &after.mem,
                after.frames@,
                space.find_area(range.0, range.1)->0,
            )
        },
        Syscall::Fork => console is None && fork_called(before, after, pid, get_time_ms(now), result),
        Syscall::WaitPid => {
            let target = a1 as i64;
            &&& console is None
            &&& match result {
                Ok(v) => {
                    if v == -1 {
                        waited(before, pid, target, Waited::NoChild) && before.same_state(after)
                    } else if v == -2 {
                        waited(before, pid, target, Waited::StillRunning) && before.same_state(
                            after,
                        )
                    } else {
                        exists|idx: usize|
                            {
                                let child = before.task(pid).inner.children@[idx as int];
                                &&& #[trigger] waited(before, pid, target, Waited::Exited(idx))
                                &&& v == child
                                &&& space.user_range(&before.mem, a2, 4)
                                &&& before.mem.same_extent(&after.mem)
                                &&& forall|v: u64| #[trigger]
                                    space.mapping(&after.mem, v) == space.mapping(&before.mem, v)
                                &&& before.reaped(
                                    &(Kernel { mem: before.mem, ..*after }),
                                    pid,
                                    idx as int,
                                )
                                &&& space.written(
                                    &before.mem,
                                    &after.mem,
                                    a2,
                                    exit_code_bytes(before.task(child).inner.exit_code),
                                    4,
                                )
                            }
                    }
                },
                Err(e) => {
                    &&& e == SyscallError::Rejected
                    &&& before.same_state(after)
                    &&& exists|idx: usize| #[trigger]
                        waited(before, pid, target, Waited::Exited(idx))
                    &&& !space.user_range(&before.mem, a2, 4)
                },
            }
        },
        Syscall::Exit => true,
        Syscall::Yield => true,
    }
}

/// Whether `after` is what the system call `call` of the running task
/// `pid`, with the arguments `a1` to `a3` at `now` ticks of the timer,
/// makes of `before`, when it sends `console` to the console and the task
/// goes on as `flow` says. `mid` is the kernel as the call left it, before
/// its result `result` was written to the register `a0` of the task.
pub open spec fn handled(
    call: Syscall,
    before: &Kernel,
    after: &Kernel,
    pid: usize,
    a1: u64,
    a2: u64,
    a3: u64,
    now: u64,
    console: Option<Seq<char>>,
    flow: Flow,
    mid: &Kernel,
    result: SyscallResult,
) -> bool {
    match flow {
        Flow::Continue => {
            &&& after.wf_hand(Some(pid))
            &&& call != Syscall::Exit && call != Syscall::Yield
            &&& after.task(pid).inner.state == TaskState::Running
            &&& dispatched(
                call,
                before,
                mid,
                pid,
                a1,
                a2,
                a3,
                now,
                result,
                console,
            )
            &&& !(result is Err && result->Err_0 is Fatal)
            &&& mid.word_written(
                after,
                pid,
                10,
                result_value(result) as u64,
            )
        },
        Flow::Switched(resume) => {
            &&& after.wf()
            &&& console is None
            &&& after.processor.cur_task == Some(resume.pid)
            &&& after.task(resume.pid).inner.state == TaskState::Running
            &&& resume.user_satp == after.task(
                resume.pid,
            ).inner.addr_space.spec_token()
            &&& match call {
                Syscall::Exit => {
                    &&& before.manager@.len() > 0
                    &&& resume.pid == before.manager@.first()
                    &&& after.manager@ == before.manager@.drop_first()
                    &&& exited(before, after, pid, a1 as i32)
                    &&& kept_but_state(before, after, resume.pid)
                    &&& after.mem == before.mem
                    &&& after.frames == before.frames
                    &&& after.pids == before.pids
                    &&& after.stacks == before.stacks
                    &&& forall|q: usize|
                        q != pid && q != resume.pid && q < before.tasks@.len()
                            ==> #[trigger] after.tasks@[q as int] == before.tasks@[q as int]
                },
                Syscall::Yield => {
                    &&& resume.pid == before.manager@.push(pid).first()
                    &&& after.manager@ == before.manager@.push(
                        pid,
                    ).drop_first()
                    &&& before.word_written(mid, pid, 10, 0)
                    &&& rescheduled(mid, after, pid, resume.pid)
                    &&& kept_but_state(mid, after, pid)
                    &&& resume.pid != pid ==> after.task(pid).inner.state == TaskState::Ready
                },
                _ => false,
            }
        },
        Flow::Panic(panic) => {
            &&& console is None
            &&& match call {
                Syscall::Exit => {
                    &&& panic == KernelPanic::AllTasksComplete
                    &&& before.manager@.len() == 0
                    &&& after.wf()
                    &&& exited(before, after, pid, a1 as i32)
                    &&& after.mem == before.mem
                    &&& forall|q: usize|
                        q != pid && q < before.tasks@.len() ==> #[trigger] after.tasks@[q as int]
                            == before.tasks@[q as int]
                },
                Syscall::Fork => {
                    &&& fork_failure(before, pid) == Some(panic)
                    &&& after.wf_hand(Some(pid))
                    &&& after.tasks@ == before.tasks@
                },
                Syscall::Mmap => {
                    &&& mmap_failure(before, pid, a1, a2, a3) == Some(
                        SyscallError::Fatal(panic),
                    )
                    &&& after.wf_hand(Some(pid))
                    &&& before.same_state(after)
                },
                _ => false,
            }
        },
    }
}

impl Syscall {
    /// Carries out the system call for the task `pid` with the arguments
    /// `arg1` to `arg3`, at `now` ticks of the timer. The call `exit` ends
    /// the task with the low 32 bits of `arg1` as its exit code, and the
    /// call `yield` puts the task at the back of the ready queue with 0 as
    /// its result; after either, the task at the front of the queue runs.
    /// Every other call gives a result, which is written to the register
    /// `a0` of the task, `-1` for a call that was rejected; a call that
    /// the kernel cannot survive gives no result. The second part of the
    /// result is the kernel as the call left it, before the result was
    /// written, and the result of the call.
    pub fn handle(&self, kernel: &mut Kernel, pid: usize, arg1: u64, arg2: u64, arg3: u64, now: u64) -> (res:
        (Handled, Ghost<(Kernel, SyscallResult)>))
        requires
            old(kernel).wf_hand(Some(pid)),
            old(kernel).task(pid).inner.state == TaskState::Running,
        ensures
            final(kernel).has_task(pid),
            handled(
                *self,
                old(kernel),
                final(kernel),
                pid,
                arg1,
                arg2,
                arg3,
                now,
                console_text(res.0.console),
                res.0.flow,
                &res.1@.0,
                res.1@.1,
            ),
    {
        let ghost pre = *kernel;
        proof {
            assert(pre.has_task(pid));
        }
        let mut console: Option<String> = None;
        let ret: SyscallResult = match self {
            Syscall::Write => {
                let (res, text) = sys_write(kernel, pid, arg1, arg2, arg3);
                console = text;
                proof {
                    pre.lemma_same_state(kernel, Some(pid));
                }
                res
            },
            Syscall::Exit => {
                let flow = match sys_exit(kernel, pid, #[verifier::truncate] (arg1 as i32)) {
                    Ok(resume) => Flow::Switched(resume),
                    Err(panic) => Flow::Panic(panic),
                };
                return (Handled { console: None, flow }, Ghost((pre, Ok(0))));
            },
            Syscall::GetTimeOfDay => sys_gettimeofday(kernel, pid, arg1, arg2, now),
            Syscall::Yield => {
                kernel.set_reg_a(pid, 0, 0, Ghost(Some(pid)));
                let ghost mid = *kernel;
                proof {
                    assert(mid.tasks@ == pre.tasks@);
                }
                let resume = sys_yield(kernel, pid);
                return (Handled { console: None, flow: Flow::Switched(resume) }, Ghost((mid, Ok(0))));
            },
            Syscall::TaskInfo => sys_taskinfo(kernel, pid, arg1, now),
            Syscall::Mmap => sys_mmap(kernel, pid, arg1, arg2, arg3),
            Syscall::Munmap => sys_unmmap(kernel, pid, arg1, arg2),
            Syscall::Fork => sys_fork(kernel, pid, get_time_ms(now)),
            Syscall::WaitPid => sys_waitpid(kernel, pid, #[verifier::truncate] (arg1 as i64), arg2),
            Syscall::GetPid => sys_getpid(kernel, pid),
        };
        let ghost mid = *kernel;
        let value: i64 = match ret {
            Ok(v) => v,
            Err(SyscallError::Rejected) => -1,
            Err(SyscallError::Fatal(panic)) => {
                return (Handled { console: None, flow: Flow::Panic(panic) }, Ghost((mid, ret)));
            },
        };
        proof {
            assert(mid.has_task(pid));
            assert(mid.task(pid).inner.state == TaskState::Running);
            assert(mid.task(pid).inner.trap_ctx_ppn == pre.task(pid).inner.trap_ctx_ppn);
        }
        kernel.set_reg_a(pid, 0, #[verifier::truncate] (value as u64), Ghost(Some(pid)));
        proof {
            assert(kernel.tasks@ == mid.tasks@);
            assert(dispatched(
                *self,
                &pre,
                &mid,
                pid,
                arg1,
                arg2,
                arg3,
                now,
                ret,
                console_text(console),
            ));
        }
        (Handled { console, flow: Flow::Continue }, Ghost((mid, ret)))
    }
}


/// What a system call went through: its number and its arguments, the
/// kernel once the call was counted, the kernel as the call left it before
/// its result was written, and the result.
pub struct SyscallTrace {
    pub number: u64,
    pub args: (u64, u64, u64),
    pub counted: Kernel,
    pub done: Kernel,
    pub result: SyscallResult,
}

/// The register `x<idx>` in the trap context of the task `pid`.
pub open spec fn saved_reg(kernel: &Kernel, pid: usize, idx: int) -> u64 {
    kernel.mem.word(kernel.task(pid).inner.trap_ctx_ppn, idx)
}

/// Whether `after` is what the system call that the running task `pid`
/// issued makes of `before`, at `now` ticks of the timer, when it sends
/// `console` to the console and the task goes on as `flow` says; `trace`
/// tells what the call went through.
pub open spec fn served(
    before: &Kernel,
    after: &Kernel,
    pid: usize,
    now: u64,
    console: Option<Seq<char>>,
    flow: Flow,
    trace: SyscallTrace,
) -> bool {
    &&& after.has_task(pid)
    &&& trace.number == saved_reg(before, pid, 17)
    &&& trace.args == (
        saved_reg(before, pid, 10),
        saved_reg(before, pid, 11),
        saved_reg(before, pid, 12),
    )
    &&& trace.number >= MAX_SYSCALL_NUM ==> {
        &&& flow == Flow::Continue
        &&& console is None
        &&& refused(before, after, pid)
    }
    &&& trace.number < MAX_SYSCALL_NUM ==> {
        let counted = trace.counted;
        &&& before.same_but_task(&counted, pid)
        &&& counted.wf_hand(Some(pid))
        &&& counted.task(pid).inner.state == TaskState::Running
        &&& counted.task(pid).inner.children == before.task(pid).inner.children
        &&& counted.task(pid).inner.exit_code == before.task(pid).inner.exit_code
        &&& counted.task(pid).inner.syscall_times@ == bumped(
            before.task(pid).inner.syscall_times@,
            trace.number as int,
        )
        &&& match Syscall::spec_from(trace.number) {
            Ok(call) => handled(
                call,
                &counted,
                after,
                pid,
                trace.args.0,
                trace.args.1,
                trace.args.2,
                now,
                console,
                flow,
                &trace.done,
                trace.result,
            ),
            Err(_) => {
                &&& flow == Flow::Continue
                &&& console is None
                &&& refused(&counted, after, pid)
            },
        }
    }
}

/// Whether `after` is `before` once a system call of the running task `pid`
/// was rejected without more ado: the task finds `-1` in `a0` and goes on,
/// and nothing else has changed.
pub open spec fn refused(before: &Kernel, after: &Kernel, pid: usize) -> bool {
    &&& after.wf_hand(Some(pid))
    &&& before.word_written(after, pid, 10, REJECTED)
    &&& after.task(pid).inner.state == TaskState::Running
}

/// Handles the system call that the running task `pid` issued, at `now`
/// ticks of the timer. The number of the call is in the register `a7` of
/// the task, its arguments in `a0` to `a2`. A number past the last counter
/// is rejected, and nothing is counted. Else the call is counted for the
/// task, before anything else is done; a number that names no system call
/// is rejected; and any other call is carried out.
pub fn syscall_handler(kernel: &mut Kernel, pid: usize, now: u64) -> (res: (
    Handled,
    Ghost<SyscallTrace>,
))
    requires
        old(kernel).wf_hand(Some(pid)),
        old(kernel).task(pid).inner.state == TaskState::Running,
    ensures
        served(old(kernel), final(kernel), pid, now, console_text(res.0.console), res.0.flow, res.1@),
{
    let ghost pre = *kernel;
    proof {
        assert(pre.has_task(pid));
        assert(pre.task_ok(pid));
    }
    let ctx = kernel.trap_context(pid);
    let number = ctx.reg_a(7);
    let a0 = ctx.reg_a(0);
    let a1 = ctx.reg_a(1);
    let a2 = ctx.reg_a(2);
    proof {
        let frame = pre.task(pid).inner.trap_ctx_ppn;
        assert(pre.mem.word(frame, 17) == ctx.word(17));
        assert(pre.mem.word(frame, 10) == ctx.word(10));
        assert(pre.mem.word(frame, 11) == ctx.word(11));
        assert(pre.mem.word(frame, 12) == ctx.word(12));
    }
    if number >= MAX_SYSCALL_NUM as u64 {
        kernel.set_reg_a(pid, 0, REJECTED, Ghost(Some(pid)));
        proof {
            assert(kernel.tasks@ == pre.tasks@);
        }
        return (
            Handled { console: None, flow: Flow::Continue },
            Ghost(
                SyscallTrace {
                    number,
                    args: (a0, a1, a2),
                    counted: pre,
                    done: pre,
                    result: Err(SyscallError::Rejected),
                },
            ),
        );
    }
    kernel.count_syscall(pid, number as usize);
    let ghost counted = *kernel;
    proof {
        pre.lemma_bookkeeping(&counted, pid);
        pre.lemma_family_kept(&counted, pid);
        assert forall|q: usize| #[trigger] counted.has_task(q) implies counted.placed(q, Some(pid)) by {
            if q != pid {
                assert(counted.tasks@[q as int] == pre.tasks@[q as int]);
            }
            assert(pre.has_task(q));
            assert(pre.placed(q, Some(pid)));
        }
        assert forall|i: int| 0 <= i < counted.manager@.len() implies counted.has_task(
            #[trigger] counted.manager@[i],
        ) by {
            let q = pre.manager@[i];
            assert(pre.has_task(q));
            if q != pid {
                assert(counted.tasks@[q as int] == pre.tasks@[q as int]);
            }
        }
    }
    match Syscall::from(number) {
        Ok(call) => {
            let (handled, trace) = call.handle(kernel, pid, a0, a1, a2, now);
            (
                handled,
                Ghost(
                    SyscallTrace {
                        number,
                        args: (a0, a1, a2),
                        counted,
                        done: trace@.0,
                        result: trace@.1,
                    },
                ),
            )
        },
        Err(_) => {
            kernel.set_reg_a(pid, 0, REJECTED, Ghost(Some(pid)));
            proof {
                assert(kernel.tasks@ == counted.tasks@);
            }
            (
                Handled { console: None, flow: Flow::Continue },
                Ghost(
                    SyscallTrace {
                        number,
                        args: (a0, a1, a2),
                        counted,
                        done: counted,
                        result: Err(SyscallError::Rejected),
                    },
                ),
            )
        },
    }
}

} // verus!
