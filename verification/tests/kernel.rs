use os5::boot::{add_initproc, BootError};
use os5::config::{CLOCK_FREQ, TRAMPOLINE, TRAP_CONTEXT};
use os5::kernel::{Kernel, Platform};
use os5::loader::AppCatalog;
use os5::mm::elf::ElfError;
use os5::mm::kernel_space::KernelLayout;
use os5::mm::memory_set::MemError;
use os5::syscall::{find_exited_child, sys_getpid, sys_write, KernelPanic, SyscallError, Waited};
use os5::task::task::{fork_task, TaskError, TaskState};
use os5::task::{fetch_ready_task, pop_task, run_next_task};
use os5::trap::handler::{trap_handler, Next, TrapEvent, TrapOutcome};
use os5::trap::restore;

const USER_ENV_CALL: u64 = 8;
const ILLEGAL_INSTRUCTION: u64 = 2;
const LOAD_FAULT: u64 = 5;
const STORE_FAULT: u64 = 7;
const LOAD_PAGE_FAULT: u64 = 13;
const STORE_PAGE_FAULT: u64 = 15;
const TIMER: u64 = (1 << 63) | 5;
const DATA: u64 = 0x10000;
const STACK_TOP: u64 = 0x25000;

fn put(bytes: &mut Vec<u8>, at: usize, value: u64, width: usize) {
    for k in 0..width {
        bytes[at + k] = (value >> (8 * k)) as u8;
    }
}

/// The image of a program with one page at `DATA` that starts with `data`.
fn program(data: &[u8]) -> Vec<u8> {
    let mut bytes = vec![0u8; 64 + 56];
    bytes[0..4].copy_from_slice(&[0x7f, b'E', b'L', b'F']);
    bytes[4] = 2;
    bytes[5] = 1;
    put(&mut bytes, 18, 243, 2);
    put(&mut bytes, 24, DATA + 0x100, 8);
    put(&mut bytes, 32, 64, 8);
    put(&mut bytes, 54, 56, 2);
    put(&mut bytes, 56, 1, 2);
    put(&mut bytes, 64, 1, 4);
    put(&mut bytes, 68, 7, 4);
    put(&mut bytes, 72, 120, 8);
    put(&mut bytes, 80, DATA, 8);
    put(&mut bytes, 96, data.len() as u64, 8);
    put(&mut bytes, 104, 0x1000, 8);
    bytes.extend_from_slice(data);
    bytes
}

fn layout(frames: u64) -> KernelLayout {
    KernelLayout {
        stext: 0x8020_0000,
        etext: 0x8020_2000,
        srodata: 0x8020_2000,
        erodata: 0x8020_3000,
        sdata: 0x8020_3000,
        edata: 0x8020_4000,
        sbss_with_stack: 0x8020_4000,
        ebss: 0x8020_6000,
        ekernel: 0x8800_0000 - frames * 0x1000,
        strampoline: 0x8020_1000,
    }
}

const PLATFORM: Platform = Platform { trap_handler: 0x8020_0100, restore: 0x8020_1040 };

fn boot(frames: u64, data: &[u8]) -> Kernel {
    let mut catalog = AppCatalog::new();
    catalog.push("ch5b_initproc", program(data));
    Kernel::new(&layout(frames), catalog, 0x8030_0000, PLATFORM).unwrap()
}

/// A kernel whose first task runs.
fn started(frames: u64, data: &[u8]) -> Kernel {
    let mut kernel = boot(frames, data);
    assert_eq!(add_initproc(&mut kernel, 0x122, 5), Ok(0));
    let resume = run_next_task(&mut kernel);
    assert_eq!(resume.pid, 0);
    kernel
}

fn trap(kernel: &mut Kernel, scause: u64, time: u64) -> TrapOutcome {
    trap_handler(kernel, TrapEvent { scause, stval: 0, time }).0
}

/// The running task issues a system call; the outcome of the trap.
fn call(kernel: &mut Kernel, number: u64, args: [u64; 3]) -> TrapOutcome {
    let pid = kernel.processor.cur_task.unwrap();
    kernel.set_user_arg(pid, 7, number);
    for (n, arg) in args.iter().enumerate() {
        kernel.set_user_arg(pid, n, *arg);
    }
    trap(kernel, USER_ENV_CALL, 0)
}

/// The running task issues a system call and goes on; the result of the call.
fn result(kernel: &mut Kernel, number: u64, args: [u64; 3]) -> i64 {
    let pid = kernel.processor.cur_task.unwrap();
    let outcome = call(kernel, number, args);
    assert_eq!(resumed(&outcome), pid);
    assert_eq!(kernel.processor.cur_task, Some(pid));
    kernel.user_arg(pid, 0) as i64
}

fn resumed(outcome: &TrapOutcome) -> usize {
    match outcome.next {
        Next::Resume(resume) => resume.pid,
        Next::Panic(panic) => panic!("the kernel stopped: {:?}", panic),
    }
}

fn state(kernel: &Kernel, pid: usize) -> TaskState {
    kernel.tasks[pid].as_ref().unwrap().inner.state
}

fn exit_code(kernel: &Kernel, pid: usize) -> i32 {
    kernel.tasks[pid].as_ref().unwrap().inner.exit_code
}

fn count(kernel: &Kernel, pid: usize, number: usize) -> u32 {
    kernel.tasks[pid].as_ref().unwrap().inner.syscall_times[number]
}

fn queue(kernel: &mut Kernel) -> Vec<usize> {
    let mut pids = Vec::new();
    while let Some(pid) = kernel.manager.find_next_ready_task() {
        pids.push(pid);
    }
    for pid in &pids {
        kernel.manager.add_task(*pid);
    }
    pids
}

#[test]
fn boot_builds_the_kernel_space() {
    let kernel = boot(256, b"");
    assert_eq!(kernel.mem.base_ppn(), 0x88000 - 256);
    assert_eq!(kernel.mem.frame_count(), 256);
    assert_eq!(kernel.frames.free_frames(), 256 - 6);
    assert!(kernel.tasks.is_empty());
    assert_eq!(kernel.processor.cur_task, None);
    assert_eq!(kernel.kernel_space.frame_of(&kernel.mem, 0x87fff), Some(0x87fff));
    assert_eq!(kernel.kernel_space.trampoline_ppn(), 0x80201);
}

#[test]
fn boot_rejects_bad_layouts() {
    let past = KernelLayout { ekernel: 0x8800_1000, ..layout(16) };
    assert_eq!(Kernel::new(&past, AppCatalog::new(), 0, PLATFORM).err(), Some(BootError::BadLayout));
    assert_eq!(
        Kernel::new(&layout(16), AppCatalog::new(), u64::MAX, PLATFORM).err(),
        Some(BootError::BadLayout)
    );
    assert_eq!(
        Kernel::new(&layout(4), AppCatalog::new(), 0, PLATFORM).err(),
        Some(BootError::Memory(MemError::OutOfFrames))
    );
    let crossed = KernelLayout { erodata: 0x8020_5000, ..layout(16) };
    assert_eq!(
        Kernel::new(&crossed, AppCatalog::new(), 0, PLATFORM).err(),
        Some(BootError::Memory(MemError::Overlap))
    );
    let backwards = KernelLayout { etext: 0x8010_0000, ..layout(16) };
    assert_eq!(
        Kernel::new(&backwards, AppCatalog::new(), 0, PLATFORM).err(),
        Some(BootError::Memory(MemError::InvalidRange))
    );
}

#[test]
fn initproc_is_made_ready() {
    let mut kernel = boot(256, b"hello\n");
    let free = kernel.frames.free_frames();
    assert_eq!(add_initproc(&mut kernel, 0x8000_0003_000d_e762, 42), Ok(0));
    // one page of the program, twenty of stack, one of trap context, five nodes
    assert_eq!(kernel.frames.free_frames(), free - 27);
    assert_eq!(queue(&mut kernel), vec![0]);
    assert_eq!(kernel.processor.cur_task, None);
    let task = kernel.tasks[0].as_ref().unwrap();
    assert_eq!(task.pid.0, 0);
    assert_eq!(task.name, "ch5b_initproc");
    assert_eq!(task.start_time_ms, 42);
    assert_eq!(task.kernel_stack, (0x8030_0000, 0x8031_4000));
    assert_eq!(task.inner.state, TaskState::Ready);
    assert_eq!(task.inner.exit_code, 0);
    assert!(task.inner.children.is_empty());
    assert!(task.inner.syscall_times.iter().all(|n| *n == 0));
    assert_eq!(task.inner.translate(&kernel.mem, 0xffff_ffff_ffff_e000), None);
    let ctx = kernel.trap_context(0);
    assert_eq!(ctx.x[2], STACK_TOP);
    assert_eq!(ctx.sepc, DATA + 0x100);
    assert_eq!(ctx.sstatus, 0x8000_0003_000d_e662);
    assert_eq!(ctx.kernel_sp, 0x8031_4000);
    assert_eq!(ctx.kernel_satp, kernel.kernel_space.token(&kernel.mem));
    assert_eq!(ctx.trap_handler, 0x8020_0100);
    assert_eq!(kernel.user_load(0, DATA, 7), Some(b"hello\n\0".to_vec()));
}

#[test]
fn initproc_needs_its_program() {
    let mut nameless = Kernel::new(&layout(64), AppCatalog::new(), 0, PLATFORM).unwrap();
    assert_eq!(add_initproc(&mut nameless, 0, 0), Err(TaskError::NoSuchApp));
    let mut catalog = AppCatalog::new();
    catalog.push("ch5b_initproc", vec![0x7f, b'E', b'L', b'G']);
    let mut broken = Kernel::new(&layout(64), catalog, 0, PLATFORM).unwrap();
    assert_eq!(add_initproc(&mut broken, 0, 0), Err(TaskError::Image(ElfError::BadMagic)));
    let mut small = boot(20, b"");
    let free = small.frames.free_frames();
    assert_eq!(add_initproc(&mut small, 0, 0), Err(TaskError::Image(ElfError::OutOfFrames)));
    assert_eq!(small.frames.free_frames(), free);
    assert!(small.tasks.is_empty());
    assert!(small.pids.has_free());
    assert_eq!(small.pids.current(), 0);
}

#[test]
fn restore_returns_through_the_trampoline() {
    let kernel = started(256, b"");
    let resume = restore(&kernel, 0);
    assert_eq!(resume.pid, 0);
    assert_eq!(resume.trap_ctx, TRAP_CONTEXT);
    assert_eq!(resume.stvec, TRAMPOLINE);
    assert_eq!(resume.restore_va, TRAMPOLINE + 0x40);
    let space = &kernel.tasks[0].as_ref().unwrap().inner.addr_space;
    assert_eq!(resume.user_satp, space.token(&kernel.mem));
    assert_ne!(resume.user_satp, kernel.kernel_space.token(&kernel.mem));
    let page = resume.restore_va >> 12 & 0x7ff_ffff;
    assert_eq!(space.translate(&kernel.mem, page), kernel.kernel_space.translate(&kernel.mem, page));
    assert_eq!(state(&kernel, 0), TaskState::Running);
}

#[test]
fn scheduler_steps_move_tasks_between_queue_and_processor() {
    let mut kernel = boot(256, b"");
    add_initproc(&mut kernel, 0, 0).unwrap();
    assert_eq!(fetch_ready_task(&mut kernel), 0);
    assert_eq!(queue(&mut kernel), Vec::<usize>::new());
    assert_eq!(state(&kernel, 0), TaskState::Ready);
    os5::task::add_task(&mut kernel, 0);
    assert_eq!(queue(&mut kernel), vec![0]);
    let resume = run_next_task(&mut kernel);
    assert_eq!(resume.pid, 0);
    assert_eq!(kernel.processor.cur_task, Some(0));
    assert_eq!(state(&kernel, 0), TaskState::Running);
    assert_eq!(pop_task(&mut kernel), Some(0));
    assert_eq!(pop_task(&mut kernel), None);
    kernel.set_task_state(0, TaskState::Ready);
    let again = os5::task::switch_task(&mut kernel, 0);
    assert_eq!(again.pid, 0);
    assert_eq!(kernel.task_state(0), TaskState::Running);
    assert_eq!(pop_task(&mut kernel), Some(0));
    let kept = os5::task::run_task(&mut kernel, 0);
    assert_eq!(kept.pid, 0);
    assert_eq!(kernel.processor.cur_task, Some(0));
}

#[test]
fn hello_is_written_to_the_console() {
    let mut kernel = started(256, b"hello\n");
    let sepc = kernel.trap_context(0).sepc;
    let outcome = call(&mut kernel, 64, [1, DATA, 6]);
    assert_eq!(outcome.console.as_deref(), Some("hello\n"));
    assert_eq!(outcome.timer, None);
    assert_eq!(resumed(&outcome), 0);
    assert_eq!(kernel.user_arg(0, 0), 6);
    assert_eq!(kernel.trap_context(0).sepc, sepc + 4);
    assert_eq!(state(&kernel, 0), TaskState::Running);
    let end = call(&mut kernel, 93, [0, 0, 0]);
    assert_eq!(end.next, Next::Panic(KernelPanic::AllTasksComplete));
    assert_eq!(end.console, None);
    assert_eq!(state(&kernel, 0), TaskState::Exited);
    assert_eq!(exit_code(&kernel, 0), 0);
    assert_eq!(kernel.processor.cur_task, None);
}

#[test]
fn write_rejects_what_it_cannot_print() {
    let mut kernel = started(256, &[b'o', b'k', 0xff, 0xfe]);
    // another file descriptor
    let other = call(&mut kernel, 64, [2, DATA, 2]);
    assert_eq!(other.console, None);
    assert_eq!(kernel.user_arg(0, 0) as i64, -1);
    // bytes that are not UTF-8
    let garbled = call(&mut kernel, 64, [1, DATA, 4]);
    assert_eq!(garbled.console, None);
    assert_eq!(kernel.user_arg(0, 0) as i64, -1);
    // a buffer that is not mapped, one that leaves the mapped pages, one of the kernel
    assert_eq!(result(&mut kernel, 64, [1, 0x5000_0000, 1]), -1);
    assert_eq!(result(&mut kernel, 64, [1, STACK_TOP - 1, 2]), -1);
    assert_eq!(result(&mut kernel, 64, [1, TRAP_CONTEXT, 8]), -1);
    assert_eq!(result(&mut kernel, 64, [1, u64::MAX, 2]), -1);
    let fine = call(&mut kernel, 64, [1, DATA, 2]);
    assert_eq!(fine.console.as_deref(), Some("ok"));
    assert_eq!(kernel.user_arg(0, 0), 2);
    let empty = call(&mut kernel, 64, [1, DATA, 0]);
    assert_eq!(empty.console.as_deref(), Some(""));
    let several = "größer".as_bytes();
    assert!(kernel.user_store(0, DATA + 0x20, &several.to_vec()));
    let text = call(&mut kernel, 64, [1, DATA + 0x20, several.len() as u64]);
    assert_eq!(text.console.as_deref(), Some("größer"));
    assert_eq!(sys_write(&kernel, 0, 1, DATA, 2), (Ok(2), Some("ok".to_string())));
    assert_eq!(sys_write(&kernel, 0, 0, DATA, 2), (Err(SyscallError::Rejected), None));
}

#[test]
fn yielding_tasks_take_turns() {
    let mut kernel = started(256, b"");
    assert_eq!(result(&mut kernel, 220, [0, 0, 0]), 1);
    assert_eq!(queue(&mut kernel), vec![1]);
    for round in 0..100 {
        let to_child = call(&mut kernel, 124, [9, 9, 9]);
        assert_eq!(resumed(&to_child), 1);
        assert_eq!(kernel.processor.cur_task, Some(1));
        assert_eq!(state(&kernel, 0), TaskState::Ready);
        assert_eq!(state(&kernel, 1), TaskState::Running);
        assert_eq!(kernel.user_arg(1, 0), 0);
        assert_eq!(count(&kernel, 0, 124), round + 1);
        let to_parent = call(&mut kernel, 124, [0, 0, 0]);
        assert_eq!(resumed(&to_parent), 0);
        assert_eq!(kernel.user_arg(0, 0), 0);
        assert_eq!(count(&kernel, 1, 124), round + 1);
    }
    let parent_done = call(&mut kernel, 93, [0, 0, 0]);
    assert_eq!(resumed(&parent_done), 1);
    assert_eq!(count(&kernel, 0, 124), 100);
    assert_eq!(count(&kernel, 0, 93), 1);
    assert_eq!(count(&kernel, 0, 220), 1);
    let child_done = call(&mut kernel, 93, [0, 0, 0]);
    assert_eq!(child_done.next, Next::Panic(KernelPanic::AllTasksComplete));
    assert_eq!(count(&kernel, 1, 124), 100);
    // the child has counted its own calls only: it never forked
    assert_eq!(count(&kernel, 1, 220), 0);
    assert_eq!(count(&kernel, 1, 93), 1);
    assert_eq!(exit_code(&kernel, 1), 0);
}

#[test]
fn a_single_task_yields_to_itself() {
    let mut kernel = started(256, b"");
    kernel.set_user_arg(0, 0, 77);
    let outcome = call(&mut kernel, 124, [77, 0, 0]);
    assert_eq!(resumed(&outcome), 0);
    assert_eq!(kernel.user_arg(0, 0), 0);
    assert_eq!(state(&kernel, 0), TaskState::Running);
    assert_eq!(queue(&mut kernel), Vec::<usize>::new());
}

#[test]
fn mmap_gives_memory_and_munmap_takes_it() {
    let mut kernel = started(256, b"");
    let free = kernel.frames.free_frames();
    assert_eq!(result(&mut kernel, 222, [0x1000_0000, 0x2000, 3]), 0);
    // two pages and the node of their leaf entries
    assert_eq!(kernel.frames.free_frames(), free - 3);
    assert_eq!(kernel.user_load(0, 0x1000_0000, 2), Some(vec![0, 0]));
    assert!(kernel.user_store(0, 0x1000_0000, &vec![0x11, 0x22, 0x33]));
    assert!(kernel.user_store(0, 0x1000_1000, &vec![0x44, 0x55]));
    assert!(kernel.user_store(0, 0x1000_0fff, &vec![0x66, 0x77]));
    assert_eq!(kernel.user_load(0, 0x1000_0000, 3), Some(vec![0x11, 0x22, 0x33]));
    assert_eq!(kernel.user_load(0, 0x1000_0fff, 3), Some(vec![0x66, 0x77, 0x55]));
    assert!(!kernel.user_store(0, 0x1000_2000, &vec![1]));
    assert_eq!(result(&mut kernel, 215, [0x1000_0000, 0x2000, 0]), 0);
    // the node stays
    assert_eq!(kernel.frames.free_frames(), free - 1);
    assert_eq!(kernel.user_load(0, 0x1000_0000, 1), None);
    assert!(!kernel.user_store(0, 0x1000_1000, &vec![1]));
    // the access faults, and the task is ended
    let fault = trap(&mut kernel, STORE_PAGE_FAULT, 0);
    assert_eq!(fault.next, Next::Panic(KernelPanic::AllTasksComplete));
    assert_eq!(fault.timer, None);
    assert_eq!(state(&kernel, 0), TaskState::Exited);
    assert_eq!(exit_code(&kernel, 0), -1);
}

#[test]
fn mmap_sets_permissions_from_the_port() {
    let mut kernel = started(256, b"");
    for port in 1..8u64 {
        let start = 0x2000_0000 + port * 0x10_0000;
        assert_eq!(result(&mut kernel, 222, [start, 0x1000, port]), 0);
        let space = &kernel.tasks[0].as_ref().unwrap().inner.addr_space;
        let entry = space.translate(&kernel.mem, start >> 12).unwrap();
        assert!(entry.is_valid() && entry.user());
        assert_eq!(entry.readable(), port & 1 != 0);
        assert_eq!(entry.writable(), port & 2 != 0);
        assert_eq!(entry.executable(), port & 4 != 0);
    }
}

#[test]
fn bad_mmap_is_rejected_and_the_task_goes_on() {
    let mut kernel = started(256, b"");
    let free = kernel.frames.free_frames();
    assert_eq!(result(&mut kernel, 222, [0x1000_0000, 0x1000, 8]), -1);
    assert_eq!(result(&mut kernel, 222, [0x1000_0000, 0x1000, 0]), -1);
    assert_eq!(result(&mut kernel, 222, [0x1000_0000, 0x1000, 0x13]), -1);
    assert_eq!(result(&mut kernel, 222, [0x1000_0800, 0x1000, 3]), -1);
    assert_eq!(result(&mut kernel, 222, [u64::MAX - 0xfff, 0x2000, 3]), -1);
    // over the program, over the stack, over the trap context
    assert_eq!(result(&mut kernel, 222, [DATA, 0x1000, 3]), -1);
    assert_eq!(result(&mut kernel, 222, [STACK_TOP - 0x1000, 0x2000, 3]), -1);
    assert_eq!(result(&mut kernel, 222, [0x7f_ffff_d000, 0x2000, 3]), -1);
    assert_eq!(kernel.frames.free_frames(), free);
    assert_eq!(state(&kernel, 0), TaskState::Running);
    assert_eq!(result(&mut kernel, 222, [0x1000_0000, 0x1000, 1]), 0);
    assert_eq!(result(&mut kernel, 222, [0x1000_0000, 0x1000, 1]), -1);
    assert_eq!(count(&kernel, 0, 222), 10);
}

#[test]
fn munmap_takes_exact_user_areas_only() {
    let mut kernel = started(256, b"");
    assert_eq!(result(&mut kernel, 222, [0x1000_0000, 0x3000, 3]), 0);
    assert_eq!(result(&mut kernel, 215, [0x1000_0000, 0x2000, 0]), -1);
    assert_eq!(result(&mut kernel, 215, [0x1000_1000, 0x2000, 0]), -1);
    assert_eq!(result(&mut kernel, 215, [0x1000_0001, 0x3000, 0]), -1);
    assert_eq!(result(&mut kernel, 215, [0x3000_0000, 0x1000, 0]), -1);
    assert_eq!(result(&mut kernel, 215, [u64::MAX - 0xfff, 0x2000, 0]), -1);
    // the trap context is no area of the user
    assert_eq!(result(&mut kernel, 215, [TRAP_CONTEXT, 0x1000, 0]), -1);
    assert!(kernel.user_store(0, 0x1000_2fff, &vec![1]));
    assert_eq!(result(&mut kernel, 215, [0x1000_0000, 0x2001, 0]), 0);
    assert_eq!(result(&mut kernel, 215, [0x1000_0000, 0x3000, 0]), -1);
    // the stack of the program can go
    assert_eq!(result(&mut kernel, 215, [STACK_TOP - 0x14000, 0x14000, 0]), 0);
    assert_eq!(kernel.user_load(0, STACK_TOP - 8, 8), None);
}

#[test]
fn fork_and_wait_hand_over_the_exit_code() {
    let mut kernel = started(256, b"parent");
    let place = DATA + 0x800;
    let code_at = DATA + 0x900;
    let free = kernel.frames.free_frames();
    // no child yet
    assert_eq!(result(&mut kernel, 260, [-1i64 as u64, code_at, 0]), -1);
    assert_eq!(result(&mut kernel, 220, [0, 0, 0]), 1);
    assert_eq!(kernel.frames.free_frames(), free - 27);
    assert_eq!(kernel.tasks[0].as_ref().unwrap().inner.children, vec![1]);
    assert_eq!(kernel.tasks[1].as_ref().unwrap().name, "ch5b_initproc");
    assert_eq!(kernel.tasks[1].as_ref().unwrap().kernel_stack, (0x8031_4000, 0x8032_8000));
    assert_eq!(kernel.trap_context(1).kernel_sp, 0x8032_8000);
    assert_eq!(kernel.trap_context(1).sepc, kernel.trap_context(0).sepc);
    assert_eq!(kernel.user_load(1, DATA, 6), Some(b"parent".to_vec()));
    // the child runs no more than the parent has: still there, not exited
    assert_eq!(result(&mut kernel, 260, [-1i64 as u64, code_at, 0]), -2);
    assert_eq!(result(&mut kernel, 260, [1, code_at, 0]), -2);
    assert_eq!(result(&mut kernel, 260, [5, code_at, 0]), -1);
    assert_eq!(result(&mut kernel, 260, [0, code_at, 0]), -1);
    assert_eq!(resumed(&call(&mut kernel, 124, [0, 0, 0])), 1);
    // the child finds 0 as the result of the fork
    assert_eq!(kernel.user_arg(1, 0), 0);
    assert_eq!(result(&mut kernel, 172, [0, 0, 0]), 1);
    assert!(kernel.user_store(1, place, &vec![0xab]));
    assert_eq!(kernel.user_load(1, place, 1), Some(vec![0xab]));
    assert_eq!(kernel.user_load(0, place, 1), Some(vec![0]));
    assert_eq!(resumed(&call(&mut kernel, 93, [7, 0, 0])), 0);
    assert_eq!(state(&kernel, 1), TaskState::Exited);
    assert_eq!(exit_code(&kernel, 1), 7);
    // a place for the exit code that cannot be written
    assert_eq!(result(&mut kernel, 260, [-1i64 as u64, 0x5000_0000, 0]), -1);
    assert!(kernel.tasks[1].is_some());
    assert!(kernel.user_store(0, code_at, &vec![0xee; 8]));
    assert_eq!(result(&mut kernel, 260, [-1i64 as u64, code_at, 0]), 1);
    assert_eq!(kernel.user_load(0, code_at, 8), Some(vec![7, 0, 0, 0, 0xee, 0xee, 0xee, 0xee]));
    assert_eq!(kernel.user_load(0, place, 1), Some(vec![0]));
    assert_eq!(kernel.user_load(0, DATA, 6), Some(b"parent".to_vec()));
    // the child is gone, and what it held is free
    assert!(kernel.tasks[1].is_none());
    assert!(kernel.tasks[0].as_ref().unwrap().inner.children.is_empty());
    assert_eq!(kernel.frames.free_frames(), free);
    assert_eq!(kernel.stacks.lookup(1), None);
    assert_eq!(result(&mut kernel, 260, [-1i64 as u64, code_at, 0]), -1);
    // the identifier and the kernel stack go to the next child
    assert_eq!(result(&mut kernel, 220, [0, 0, 0]), 1);
    assert_eq!(kernel.tasks[1].as_ref().unwrap().kernel_stack, (0x8031_4000, 0x8032_8000));
}

#[test]
fn wait_reaps_the_oldest_exited_child() {
    let mut kernel = started(512, b"");
    let code_at = DATA + 0x10;
    assert_eq!(result(&mut kernel, 220, [0, 0, 0]), 1);
    assert_eq!(result(&mut kernel, 220, [0, 0, 0]), 2);
    assert_eq!(result(&mut kernel, 220, [0, 0, 0]), 3);
    assert!(matches!(find_exited_child(&kernel, 0, -1), Waited::StillRunning));
    assert!(matches!(find_exited_child(&kernel, 0, 8), Waited::NoChild));
    // the children exit in the order 1, 2 with the codes -3 and 9; 3 goes on
    assert_eq!(resumed(&call(&mut kernel, 124, [0, 0, 0])), 1);
    assert_eq!(resumed(&call(&mut kernel, 93, [-3i64 as u64, 0, 0])), 2);
    assert_eq!(resumed(&call(&mut kernel, 93, [9, 0, 0])), 3);
    assert_eq!(resumed(&call(&mut kernel, 124, [0, 0, 0])), 0);
    assert!(matches!(find_exited_child(&kernel, 0, -1), Waited::Exited(0)));
    assert!(matches!(find_exited_child(&kernel, 0, 2), Waited::Exited(1)));
    assert!(matches!(find_exited_child(&kernel, 0, 3), Waited::StillRunning));
    assert_eq!(result(&mut kernel, 260, [3, code_at, 0]), -2);
    assert_eq!(result(&mut kernel, 260, [2, code_at, 0]), 2);
    assert_eq!(kernel.user_load(0, code_at, 4), Some(vec![9, 0, 0, 0]));
    assert_eq!(result(&mut kernel, 260, [-1i64 as u64, code_at, 0]), 1);
    assert_eq!(kernel.user_load(0, code_at, 4), Some(vec![0xfd, 0xff, 0xff, 0xff]));
    assert_eq!(result(&mut kernel, 260, [-1i64 as u64, code_at, 0]), -2);
    assert_eq!(kernel.tasks[0].as_ref().unwrap().inner.children, vec![3]);
    assert_eq!(queue(&mut kernel), vec![3]);
}

#[test]
fn timer_preempts_a_task_that_never_calls() {
    let mut kernel = started(256, b"");
    assert_eq!(result(&mut kernel, 220, [0, 0, 0]), 1);
    let sepc = kernel.trap_context(0).sepc;
    let tick = trap(&mut kernel, TIMER, 1_000_000);
    assert_eq!(resumed(&tick), 1);
    assert_eq!(tick.timer, Some(1_000_000 + CLOCK_FREQ / 100));
    assert_eq!(tick.console, None);
    assert_eq!(kernel.processor.cur_task, Some(1));
    assert_eq!(state(&kernel, 0), TaskState::Ready);
    assert_eq!(state(&kernel, 1), TaskState::Running);
    assert_eq!(queue(&mut kernel), vec![0]);
    // the program counter of the preempted task stays where it was
    assert_eq!(kernel.trap_context(0).sepc, sepc);
    let tock = trap(&mut kernel, TIMER, 2_000_000);
    assert_eq!(resumed(&tock), 0);
    assert_eq!(tock.timer, Some(2_125_000));
    let alone = started(256, b"");
    let mut alone = alone;
    assert_eq!(resumed(&trap(&mut alone, TIMER, 0)), 0);
}

#[test]
fn every_task_runs_within_as_many_quanta_as_there_are_tasks() {
    let mut kernel = started(512, b"");
    for child in 1..5 {
        assert_eq!(result(&mut kernel, 220, [0, 0, 0]), child);
    }
    let mut order = Vec::new();
    for tick in 0..10 {
        order.push(resumed(&trap(&mut kernel, TIMER, tick)));
    }
    assert_eq!(order, vec![1, 2, 3, 4, 0, 1, 2, 3, 4, 0]);
}

#[test]
fn faults_end_the_task_with_minus_one() {
    for cause in [LOAD_PAGE_FAULT, STORE_PAGE_FAULT, LOAD_FAULT, STORE_FAULT, ILLEGAL_INSTRUCTION] {
        let mut kernel = started(256, b"");
        assert_eq!(result(&mut kernel, 220, [0, 0, 0]), 1);
        let outcome = trap(&mut kernel, cause, 0);
        assert_eq!(resumed(&outcome), 1);
        assert_eq!(outcome.timer, None);
        assert_eq!(state(&kernel, 0), TaskState::Exited);
        assert_eq!(exit_code(&kernel, 0), -1);
        assert_eq!(queue(&mut kernel), Vec::<usize>::new());
        assert_eq!(kernel.processor.cur_task, Some(1));
    }
}

#[test]
fn other_traps_stop_the_kernel() {
    let mut idle = boot(256, b"");
    assert_eq!(trap(&mut idle, USER_ENV_CALL, 0).next, Next::Panic(KernelPanic::NoRunningTask));
    add_initproc(&mut idle, 0, 0).unwrap();
    assert_eq!(trap(&mut idle, TIMER, 0).next, Next::Panic(KernelPanic::NoRunningTask));
    for cause in [3u64, 9, 12, 1 << 63 | 1, 1 << 63 | 9, 1 << 63 | 8, 99] {
        let mut kernel = started(256, b"");
        assert_eq!(trap(&mut kernel, cause, 0).next, Next::Panic(KernelPanic::UnsupportedTrap));
    }
}

#[test]
fn system_calls_are_counted_before_they_are_carried_out() {
    let mut kernel = started(256, b"");
    for _ in 0..3 {
        assert_eq!(result(&mut kernel, 172, [0, 0, 0]), 0);
    }
    assert_eq!(count(&kernel, 0, 172), 3);
    // calls that are rejected count as well
    assert_eq!(result(&mut kernel, 222, [1, 1, 1]), -1);
    assert_eq!(result(&mut kernel, 64, [3, 0, 0]), -1);
    assert_eq!(count(&kernel, 0, 222), 1);
    assert_eq!(count(&kernel, 0, 64), 1);
    // the record of the task counts the call that asks for it
    let info = DATA + 0x200;
    assert_eq!(result(&mut kernel, 410, [info, 0, 0]), 0);
    let bytes = kernel.user_load(0, info, 2016).unwrap();
    let at = |n: usize| u32::from_le_bytes([bytes[4 + 4 * n], bytes[5 + 4 * n], bytes[6 + 4 * n], bytes[7 + 4 * n]]);
    assert_eq!(at(410), 1);
    assert_eq!(at(172), 3);
    assert_eq!(at(222), 1);
    assert_eq!(at(64), 1);
    assert_eq!(at(93), 0);
    assert_eq!((0..500).map(at).sum::<u32>(), 6);
    assert_eq!(sys_getpid(&kernel, 0), Ok(0));
}

#[test]
fn taskinfo_tells_state_counters_and_time() {
    let mut kernel = started(256, b"");
    let info = DATA + 0x400;
    let pid = kernel.processor.cur_task.unwrap();
    kernel.set_user_arg(pid, 7, 410);
    kernel.set_user_arg(pid, 0, info);
    // 1234 ms on the clock; the task was made at 5 ms
    let outcome = trap(&mut kernel, USER_ENV_CALL, 1234 * 12_500);
    assert_eq!(resumed(&outcome), 0);
    assert_eq!(kernel.user_arg(0, 0), 0);
    let bytes = kernel.user_load(0, info, 2016).unwrap();
    assert_eq!(bytes[0], 2);
    assert_eq!(&bytes[1..4], &[0, 0, 0]);
    assert_eq!(&bytes[2008..2016], &1229u64.to_le_bytes());
    assert_eq!(&bytes[4 + 4 * 410..8 + 4 * 410], &[1, 0, 0, 0]);
    // a record that does not fit the mapped pages
    assert_eq!(result(&mut kernel, 410, [STACK_TOP - 2015, 0, 0]), -1);
    assert_eq!(result(&mut kernel, 410, [STACK_TOP - 2016, 0, 0]), 0);
    assert_eq!(result(&mut kernel, 410, [0, 0, 0]), -1);
}

#[test]
fn gettimeofday_writes_seconds_and_microseconds() {
    let mut kernel = started(256, b"");
    let at = STACK_TOP - 16;
    assert!(kernel.user_store(0, at - 1, &vec![0x55; 17]));
    kernel.set_user_arg(0, 7, 169);
    kernel.set_user_arg(0, 0, at);
    let outcome = trap(&mut kernel, USER_ENV_CALL, 3 * CLOCK_FREQ + CLOCK_FREQ / 2);
    assert_eq!(resumed(&outcome), 0);
    assert_eq!(kernel.user_arg(0, 0), 0);
    let bytes = kernel.user_load(0, at - 1, 17).unwrap();
    assert_eq!(bytes[0], 0x55);
    assert_eq!(&bytes[1..9], &3u64.to_le_bytes());
    assert_eq!(&bytes[9..17], &500_000u64.to_le_bytes());
    assert_eq!(result(&mut kernel, 169, [STACK_TOP - 15, 0, 0]), -1);
    assert_eq!(result(&mut kernel, 169, [0xffff_ffff_ffff_f000, 0, 0]), -1);
}

#[test]
fn unknown_system_calls_are_rejected() {
    let mut kernel = started(256, b"");
    assert_eq!(result(&mut kernel, 220, [0, 0, 0]), 1);
    let sepc = kernel.trap_context(0).sepc;
    // a number below the last counter that names no call: counted and rejected
    for number in [0u64, 65, 123, 499] {
        assert_eq!(result(&mut kernel, number, [7, 8, 9]), -1);
        assert_eq!(count(&kernel, 0, number as usize), 1);
    }
    assert_eq!(result(&mut kernel, 65, [0, 0, 0]), -1);
    assert_eq!(count(&kernel, 0, 65), 2);
    // a number past the counters: rejected, and nothing is counted
    let counted: Vec<u32> = (0..500).map(|n| count(&kernel, 0, n)).collect();
    for number in [500u64, 501, 1 << 32, u64::MAX] {
        let outcome = call(&mut kernel, number, [0, 0, 0]);
        assert_eq!(resumed(&outcome), 0);
        assert_eq!(outcome.console, None);
        assert_eq!(outcome.timer, None);
        assert_eq!(kernel.user_arg(0, 0), u64::MAX);
    }
    assert_eq!((0..500).map(|n| count(&kernel, 0, n)).collect::<Vec<u32>>(), counted);
    // the task goes on, past each call, and the other task waits as before
    assert_eq!(state(&kernel, 0), TaskState::Running);
    assert_eq!(exit_code(&kernel, 0), 0);
    assert_eq!(kernel.processor.cur_task, Some(0));
    assert_eq!(kernel.trap_context(0).sepc, sepc + 4 * 9);
    assert_eq!(queue(&mut kernel), vec![1]);
    assert_eq!(state(&kernel, 1), TaskState::Ready);
    assert_eq!(result(&mut kernel, 172, [0, 0, 0]), 0);
}

#[test]
fn a_child_counts_its_own_calls_only() {
    let mut kernel = started(256, b"");
    for _ in 0..3 {
        assert_eq!(result(&mut kernel, 172, [0, 0, 0]), 0);
    }
    assert_eq!(result(&mut kernel, 220, [0, 0, 0]), 1);
    assert!((0..500).all(|n| count(&kernel, 1, n) == 0));
    assert_eq!(count(&kernel, 0, 220), 1);
    assert_eq!(count(&kernel, 0, 172), 3);
    assert_eq!(resumed(&call(&mut kernel, 124, [0, 0, 0])), 1);
    let info = DATA + 0x200;
    assert_eq!(result(&mut kernel, 410, [info, 0, 0]), 0);
    let bytes = kernel.user_load(1, info, 2016).unwrap();
    let at = |n: usize| u32::from_le_bytes([bytes[4 + 4 * n], bytes[5 + 4 * n], bytes[6 + 4 * n], bytes[7 + 4 * n]]);
    assert_eq!(at(410), 1);
    assert_eq!((0..500).map(at).sum::<u32>(), 1);
    // the counters of the parent are as they were
    assert_eq!(count(&kernel, 0, 220), 1);
    assert_eq!(count(&kernel, 0, 172), 3);
    assert_eq!(count(&kernel, 0, 124), 1);
    assert_eq!(count(&kernel, 0, 410), 0);
}

#[test]
fn exit_keeps_the_low_bits_of_the_code() {
    let mut kernel = started(256, b"");
    assert_eq!(result(&mut kernel, 220, [0, 0, 0]), 1);
    assert_eq!(resumed(&call(&mut kernel, 93, [0x1_0000_002a, 0, 0])), 1);
    assert_eq!(exit_code(&kernel, 0), 42);
    assert_eq!(call(&mut kernel, 93, [u64::MAX, 0, 0]).next, Next::Panic(KernelPanic::AllTasksComplete));
    assert_eq!(exit_code(&kernel, 1), -1);
}

#[test]
fn fork_stops_the_kernel_without_resources() {
    // ten kernel stacks
    let mut crowded = started(512, b"");
    for child in 1..10 {
        assert_eq!(result(&mut crowded, 220, [0, 0, 0]), child);
    }
    let free = crowded.frames.free_frames();
    assert_eq!(call(&mut crowded, 220, [0, 0, 0]).next, Next::Panic(KernelPanic::OutOfKernelStacks));
    assert_eq!(crowded.frames.free_frames(), free);
    assert_eq!(crowded.tasks.len(), 10);
    // frames for one task and a half
    let mut tight = started(6 + 27 + 20, b"");
    assert_eq!(tight.frames.free_frames(), 20);
    assert_eq!(call(&mut tight, 220, [0, 0, 0]).next, Next::Panic(KernelPanic::OutOfFrames));
    assert_eq!(tight.frames.free_frames(), 20);
    assert_eq!(tight.tasks.len(), 1);
    assert!(tight.tasks[0].as_ref().unwrap().inner.children.is_empty());
    // mmap past the frames that are left
    let mut full = started(6 + 27 + 20, b"");
    assert_eq!(call(&mut full, 222, [0x1000_0000, 0x14000, 3]).next, Next::Panic(KernelPanic::OutOfFrames));
    assert_eq!(full.frames.free_frames(), 20);
    let mut fits = started(6 + 27 + 20, b"");
    // nineteen pages and the node of their leaf entries
    assert_eq!(result(&mut fits, 222, [0x1000_0000, 0x13000, 3]), 0);
    assert_eq!(fits.frames.free_frames(), 0);
}

#[test]
fn tasks_do_not_see_each_others_stores() {
    let mut kernel = started(512, b"same image");
    assert_eq!(result(&mut kernel, 220, [0, 0, 0]), 1);
    assert_eq!(result(&mut kernel, 220, [0, 0, 0]), 2);
    for pid in 0..3usize {
        assert!(kernel.user_store(pid, DATA, &vec![pid as u8 + 1; 4]));
        assert!(kernel.user_store(pid, STACK_TOP - 4, &vec![pid as u8 + 0x10; 4]));
    }
    for pid in 0..3usize {
        assert_eq!(kernel.user_load(pid, DATA, 10), Some([vec![pid as u8 + 1; 4], b" image".to_vec()].concat()));
        assert_eq!(kernel.user_load(pid, STACK_TOP - 4, 4), Some(vec![pid as u8 + 0x10; 4]));
    }
    // what one task maps, the others do not have
    assert_eq!(result(&mut kernel, 222, [0x1000_0000, 0x1000, 3]), 0);
    assert!(kernel.user_store(0, 0x1000_0000, &vec![1]));
    assert!(!kernel.user_store(1, 0x1000_0000, &vec![1]));
    assert_eq!(kernel.user_load(2, 0x1000_0000, 1), None);
}

#[test]
fn fork_copies_what_the_parent_mapped() {
    let mut kernel = started(256, b"");
    assert_eq!(result(&mut kernel, 222, [0x1000_0000, 0x2000, 3]), 0);
    assert!(kernel.user_store(0, 0x1000_0ffc, &vec![1, 2, 3, 4, 5, 6, 7, 8]));
    assert_eq!(result(&mut kernel, 220, [0, 0, 0]), 1);
    assert_eq!(kernel.user_load(1, 0x1000_0ffc, 8), Some(vec![1, 2, 3, 4, 5, 6, 7, 8]));
    // the child unmaps its copy; the parent keeps its own
    assert_eq!(resumed(&call(&mut kernel, 124, [0, 0, 0])), 1);
    assert_eq!(result(&mut kernel, 215, [0x1000_0000, 0x2000, 0]), 0);
    assert_eq!(kernel.user_load(1, 0x1000_0000, 1), None);
    assert_eq!(kernel.user_load(0, 0x1000_0ffc, 8), Some(vec![1, 2, 3, 4, 5, 6, 7, 8]));
}

#[test]
fn children_of_a_reaped_task_run_on() {
    let mut kernel = started(512, b"");
    let code_at = DATA + 0x40;
    assert_eq!(result(&mut kernel, 220, [0, 0, 0]), 1);
    assert_eq!(resumed(&call(&mut kernel, 124, [0, 0, 0])), 1);
    // the child has a child of its own, and exits
    assert_eq!(result(&mut kernel, 220, [0, 0, 0]), 2);
    assert_eq!(kernel.tasks[1].as_ref().unwrap().inner.children, vec![2]);
    assert_eq!(resumed(&call(&mut kernel, 93, [3, 0, 0])), 0);
    // the grandchild is no child of the first task
    assert_eq!(result(&mut kernel, 260, [2, code_at, 0]), -1);
    assert_eq!(result(&mut kernel, 260, [-1i64 as u64, code_at, 0]), 1);
    assert_eq!(kernel.user_load(0, code_at, 4), Some(vec![3, 0, 0, 0]));
    assert!(kernel.tasks[1].is_none());
    assert!(kernel.tasks[2].is_some());
    assert_eq!(queue(&mut kernel), vec![2]);
    assert_eq!(resumed(&call(&mut kernel, 124, [0, 0, 0])), 2);
    assert_eq!(result(&mut kernel, 172, [0, 0, 0]), 2);
    // the identifier that came back goes to the next child
    assert_eq!(result(&mut kernel, 220, [0, 0, 0]), 1);
    assert_eq!(kernel.tasks[2].as_ref().unwrap().inner.children, vec![1]);
    assert_eq!(resumed(&call(&mut kernel, 93, [0, 0, 0])), 0);
    assert_eq!(resumed(&call(&mut kernel, 93, [0, 0, 0])), 1);
    assert_eq!(call(&mut kernel, 93, [0, 0, 0]).next, Next::Panic(KernelPanic::AllTasksComplete));
}

#[test]
fn fork_task_makes_a_ready_copy() {
    let mut kernel = boot(256, b"copy me");
    add_initproc(&mut kernel, 0, 0).unwrap();
    assert_eq!(fork_task(&mut kernel, 0, 77), Ok(1));
    assert_eq!(queue(&mut kernel), vec![0, 1]);
    let child = kernel.tasks[1].as_ref().unwrap();
    assert_eq!(child.start_time_ms, 77);
    assert_eq!(child.inner.state, TaskState::Ready);
    assert!(child.inner.children.is_empty());
    // the copy is no child until the system call records it
    assert!(kernel.tasks[0].as_ref().unwrap().inner.children.is_empty());
    assert_eq!(kernel.user_load(1, DATA, 7), Some(b"copy me".to_vec()));
    assert_eq!(kernel.trap_context(1).x[10], 0);
    assert_eq!(kernel.trap_context(1).x[2], STACK_TOP);
    let mut running = started(256, b"");
    assert_eq!(fork_task(&mut running, 0, 0), Ok(1));
    assert_eq!(trap(&mut running, TIMER, 0).timer, Some(125_000));
    assert_eq!(running.processor.cur_task, Some(1));
}

#[test]
fn pages_are_taken_over_after_user_mode() {
    let mut kernel = started(256, b"before");
    assert_eq!(result(&mut kernel, 220, [0, 0, 0]), 1);
    let space = &kernel.tasks[0].as_ref().unwrap().inner.addr_space;
    // the segment, the stack and the trap context
    assert_eq!(space.area_count(), 3);
    assert_eq!(space.area(0).start_vpn, DATA >> 12);
    assert_eq!(space.area(0).data_frames.len(), 1);
    assert_eq!(space.area(1).data_frames.len(), 20);
    assert_eq!(space.area(2).data_frames.len(), 1);
    let mut words = vec![0u64; 512];
    words[0] = u64::from_le_bytes(*b"after!!!");
    words[511] = 0x0102_0304_0506_0708;
    kernel.load_user_page(0, 0, 0, &words);
    assert_eq!(kernel.user_load(0, DATA, 8), Some(b"after!!!".to_vec()));
    assert_eq!(kernel.user_load(0, DATA + 0xff8, 8), Some(vec![8, 7, 6, 5, 4, 3, 2, 1]));
    assert_eq!(kernel.user_load(0, DATA + 8, 8), Some(vec![0; 8]));
    assert_eq!(kernel.user_load(1, DATA, 6), Some(b"before".to_vec()));
    // the trap context comes the same way: the saved a7 and a0
    let mut saved = vec![0u64; 512];
    saved[17] = 172;
    saved[10] = 99;
    saved[33] = 0x10200;
    kernel.load_user_page(0, 2, 0, &saved);
    assert_eq!(kernel.user_arg(0, 7), 172);
    let outcome = trap(&mut kernel, USER_ENV_CALL, 0);
    assert_eq!(resumed(&outcome), 0);
    assert_eq!(kernel.user_arg(0, 0), 0);
    assert_eq!(kernel.trap_context(0).sepc, 0x10204);
}
