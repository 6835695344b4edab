use os5::config::{
    CLOCK_FREQ, KERNEL_STACK_SIZE, MAX_APP_NUM, MAX_SYSCALL_NUM, MEMORY_END, PAGE_SIZE, TRAMPOLINE,
    TRAP_CONTEXT, USER_STACK_SIZE,
};
use os5::loader::{get_app_elf, get_appid_by_name, get_num_app, list_apps, AppCatalog};
use os5::syscall::{state_code, waits_for, Syscall, TaskInfo};
use os5::task::kernel_stack::KernelStackPool;
use os5::task::manager::TaskManager;
use os5::task::pid::{PidAllocator, PidHandle};
use os5::task::processor::Processor;
use os5::task::task::TaskState;
use os5::timer::{get_time_ms, next_trigger, time_val, TimeVal};
use os5::trap::context::{enter_user_mode, TrapContext};
use os5::trap::handler::{scause_split, standard_number, trap_cause, TrapCause};

#[test]
fn constants_fit_together() {
    assert_eq!(TRAMPOLINE, u64::MAX - PAGE_SIZE + 1);
    assert_eq!(TRAP_CONTEXT, TRAMPOLINE - PAGE_SIZE);
    assert_eq!(KERNEL_STACK_SIZE, 20 * PAGE_SIZE);
    assert_eq!(USER_STACK_SIZE, 20 * PAGE_SIZE);
    assert_eq!(MEMORY_END, 0x8800_0000);
    assert_eq!(MAX_APP_NUM, 10);
    assert_eq!(MAX_SYSCALL_NUM, 500);
}

#[test]
fn time_is_derived_from_the_timer() {
    assert_eq!(get_time_ms(0), 0);
    assert_eq!(get_time_ms(12_499), 0);
    assert_eq!(get_time_ms(12_500), 1);
    assert_eq!(get_time_ms(CLOCK_FREQ * 3), 3000);
    assert_eq!(time_val(0), TimeVal { sec: 0, usec: 0 });
    assert_eq!(time_val(CLOCK_FREQ * 7 + CLOCK_FREQ / 4), TimeVal { sec: 7, usec: 250_000 });
    assert_eq!(time_val(CLOCK_FREQ - 1), TimeVal { sec: 0, usec: 999_999 });
    assert_eq!(time_val(25), TimeVal { sec: 0, usec: 2 });
    assert_eq!(next_trigger(1000), 1000 + 125_000);
    assert_eq!(next_trigger(u64::MAX - 5), u64::MAX);
}

#[test]
fn pids_are_recycled() {
    let mut pids = PidAllocator::new();
    assert!(pids.has_free());
    assert_eq!(pids.alloc_pid(), PidHandle(0));
    assert_eq!(pids.alloc_pid(), PidHandle(1));
    assert_eq!(pids.alloc_pid(), PidHandle(2));
    assert_eq!(pids.current(), 3);
    pids.dealloc(0);
    pids.dealloc(2);
    assert_eq!(pids.alloc_pid(), PidHandle(2));
    assert_eq!(pids.alloc_pid(), PidHandle(0));
    assert_eq!(pids.alloc_pid(), PidHandle(3));
}

#[test]
fn kernel_stacks_are_disjoint_and_limited() {
    let base = 0x8030_0000;
    let mut stacks = KernelStackPool::new(base);
    assert_eq!(stacks.alloc_stack(7), Some((base, base + KERNEL_STACK_SIZE)));
    assert_eq!(stacks.alloc_stack(3), Some((base + KERNEL_STACK_SIZE, base + 2 * KERNEL_STACK_SIZE)));
    assert_eq!(stacks.lookup(7), Some((base, base + KERNEL_STACK_SIZE)));
    assert_eq!(stacks.lookup(4), None);
    stacks.dealloc(7);
    assert_eq!(stacks.lookup(7), None);
    // the slot that came back goes out first
    assert_eq!(stacks.alloc_stack(9), Some((base, base + KERNEL_STACK_SIZE)));
    for pid in 10..18 {
        assert!(!stacks.is_exhausted());
        assert!(stacks.alloc_stack(pid).is_some());
    }
    assert!(stacks.is_exhausted());
    assert_eq!(stacks.alloc_stack(99), None);
    assert_eq!(stacks.lookup(17), Some((base + 9 * KERNEL_STACK_SIZE, base + 10 * KERNEL_STACK_SIZE)));
    stacks.dealloc(3);
    assert_eq!(stacks.alloc_stack(99), Some((base + KERNEL_STACK_SIZE, base + 2 * KERNEL_STACK_SIZE)));
}

#[test]
fn ready_queue_is_first_in_first_out() {
    let mut manager = TaskManager::new();
    assert_eq!(manager.find_next_ready_task(), None);
    manager.add_task(4);
    manager.add_task(1);
    manager.add_task(9);
    assert_eq!(manager.len(), 3);
    assert_eq!(manager.find_next_ready_task(), Some(4));
    manager.add_task(4);
    assert_eq!(manager.find_next_ready_task(), Some(1));
    assert_eq!(manager.find_next_ready_task(), Some(9));
    assert_eq!(manager.find_next_ready_task(), Some(4));
    assert_eq!(manager.find_next_ready_task(), None);
}

#[test]
fn processor_gives_up_its_task() {
    let mut processor = Processor::new();
    assert_eq!(processor.pop_task(), None);
    processor.cur_task = Some(3);
    assert_eq!(processor.pop_task(), Some(3));
    assert_eq!(processor.cur_task, None);
}

#[test]
fn task_state_starts_uninitialised() {
    assert_eq!(TaskState::default(), TaskState::UnInit);
    assert_eq!(state_code(TaskState::UnInit), 0);
    assert_eq!(state_code(TaskState::Ready), 1);
    assert_eq!(state_code(TaskState::Running), 2);
    assert_eq!(state_code(TaskState::Exited), 3);
}

#[test]
fn initial_trap_context_returns_to_user_mode() {
    let ctx = TrapContext::app_init_context(0x25000, 0x10040, 0x8031_4000, u64::MAX, 0x8000_0000_0008_7ff0, 0x8020_0100);
    assert_eq!(ctx.x[2], 0x25000);
    assert!(ctx.x.iter().enumerate().all(|(i, x)| i == 2 || *x == 0));
    assert_eq!(ctx.sepc, 0x10040);
    assert_eq!(ctx.kernel_satp, 0x8000_0000_0008_7ff0);
    assert_eq!(ctx.kernel_sp, 0x8031_4000);
    assert_eq!(ctx.trap_handler, 0x8020_0100);
    // the bits that the register holds, with the previous privilege mode cleared
    assert_eq!(ctx.sstatus, 0x8000_0003_000d_e662);
    let plain = TrapContext::app_init_context(0, 0, 0, 0x122, 0, 0);
    assert_eq!(plain.sstatus, 0x22);
}

#[test]
fn argument_registers_start_at_x10() {
    let mut ctx = TrapContext::app_init_context(0, 0, 0, 0, 0, 0);
    ctx.set_reg_a(0, 11);
    ctx.set_reg_a(7, 93);
    assert_eq!(ctx.x[10], 11);
    assert_eq!(ctx.x[17], 93);
    assert_eq!(ctx.reg_a(0), 11);
    assert_eq!(ctx.reg_a(7), 93);
    assert_eq!(ctx.reg_a(1), 0);
}

#[test]
fn trap_causes_are_told_apart() {
    let interrupt = 1u64 << 63;
    assert_eq!(trap_cause(8), TrapCause::UserEnvCall);
    assert_eq!(trap_cause(13), TrapCause::LoadPageFault);
    assert_eq!(trap_cause(15), TrapCause::StorePageFault);
    assert_eq!(trap_cause(7), TrapCause::StoreFault);
    assert_eq!(trap_cause(5), TrapCause::LoadFault);
    assert_eq!(trap_cause(2), TrapCause::IllegalInstruction);
    assert_eq!(trap_cause(interrupt | 5), TrapCause::SupervisorTimer);
    // a breakpoint, an environment call from supervisor mode, an instruction page fault
    assert_eq!(trap_cause(3), TrapCause::Other);
    assert_eq!(trap_cause(9), TrapCause::Other);
    assert_eq!(trap_cause(12), TrapCause::Other);
    assert_eq!(trap_cause(0), TrapCause::Other);
    // codes that name no exception
    assert_eq!(trap_cause(10), TrapCause::Unknown);
    assert_eq!(trap_cause(11), TrapCause::Unknown);
    assert_eq!(trap_cause(14), TrapCause::Unknown);
    assert_eq!(trap_cause(16), TrapCause::Unknown);
    assert_eq!(trap_cause(1 << 40 | 8), TrapCause::Unknown);
    // other interrupts, and codes that name no interrupt
    assert_eq!(trap_cause(interrupt | 1), TrapCause::Other);
    assert_eq!(trap_cause(interrupt | 9), TrapCause::Other);
    assert_eq!(trap_cause(interrupt | 0), TrapCause::Unknown);
    assert_eq!(trap_cause(interrupt | 8), TrapCause::Unknown);
    assert_eq!(trap_cause(interrupt | 13), TrapCause::Unknown);
    assert_eq!(trap_cause(u64::MAX), TrapCause::Unknown);
}

#[test]
fn system_calls_have_their_numbers() {
    assert_eq!(Syscall::from(64), Ok(Syscall::Write));
    assert_eq!(Syscall::from(93), Ok(Syscall::Exit));
    assert_eq!(Syscall::from(124), Ok(Syscall::Yield));
    assert_eq!(Syscall::from(169), Ok(Syscall::GetTimeOfDay));
    assert_eq!(Syscall::from(172), Ok(Syscall::GetPid));
    assert_eq!(Syscall::from(215), Ok(Syscall::Munmap));
    assert_eq!(Syscall::from(220), Ok(Syscall::Fork));
    assert_eq!(Syscall::from(222), Ok(Syscall::Mmap));
    assert_eq!(Syscall::from(260), Ok(Syscall::WaitPid));
    assert_eq!(Syscall::from(410), Ok(Syscall::TaskInfo));
    assert_eq!(Syscall::from(0), Err(()));
    assert_eq!(Syscall::from(65), Err(()));
    assert_eq!(Syscall::from(499), Err(()));
}

#[test]
fn waits_regard_one_child_or_all() {
    assert!(waits_for(-1, 0));
    assert!(waits_for(-1, 7));
    assert!(waits_for(7, 7));
    assert!(!waits_for(6, 7));
    assert!(!waits_for(-2, 7));
    assert!(!waits_for(0, 7));
}

#[test]
fn task_info_is_laid_out_in_order() {
    let mut info = TaskInfo { state: TaskState::Running, syscall_times: [0; 500], exec_time: 0x0102_0304_0506_0708 };
    info.syscall_times[0] = 0x0a0b_0c0d;
    info.syscall_times[499] = 1;
    let bytes = info.encode();
    assert_eq!(bytes.len(), 2016);
    assert_eq!(&bytes[0..8], &[2, 0, 0, 0, 0x0d, 0x0c, 0x0b, 0x0a]);
    assert_eq!(&bytes[2000..2008], &[1, 0, 0, 0, 0, 0, 0, 0]);
    assert_eq!(&bytes[2008..2016], &[8, 7, 6, 5, 4, 3, 2, 1]);
    assert!(bytes[8..2000].iter().all(|b| *b == 0));
}

#[test]
fn catalog_finds_programs_by_name() {
    let mut catalog = AppCatalog::new();
    assert_eq!(get_num_app(&catalog), 0);
    catalog.push("ch5b_initproc", vec![1, 2, 3]);
    catalog.push("ch5b_user_shell", vec![4]);
    catalog.push("ch5b_initproc", vec![5, 6]);
    assert_eq!(get_num_app(&catalog), 3);
    assert_eq!(get_appid_by_name(&catalog, "ch5b_user_shell"), Some(1));
    assert_eq!(get_appid_by_name(&catalog, "ch5b_initproc"), Some(0));
    assert_eq!(get_appid_by_name(&catalog, "ch5b_init"), None);
    assert_eq!(get_app_elf(&catalog, "ch5b_initproc"), &vec![1, 2, 3]);
    assert_eq!(get_app_elf(&catalog, "ch5b_user_shell"), &vec![4]);
    assert_eq!(catalog.image(2), &vec![5, 6]);
    assert_eq!(
        list_apps(&catalog),
        vec!["/**** APPS ****", "ch5b_initproc", "ch5b_user_shell", "ch5b_initproc", "**************/"]
    );
    assert_eq!(list_apps(&AppCatalog::new()), vec!["/**** APPS ****", "**************/"]);
}

#[test]
fn sstatus_enters_user_mode() {
    assert_eq!(enter_user_mode(0), 0);
    assert_eq!(enter_user_mode(0x100), 0);
    assert_eq!(enter_user_mode(0x122), 0x22);
    assert_eq!(enter_user_mode(u64::MAX), 0x8000_0003_000d_e662);
    // bits that the register does not hold are dropped
    assert_eq!(enter_user_mode(0x1), 0);
    assert_eq!(enter_user_mode(0x8000_0000_0000_0000), 0x8000_0000_0000_0000);
}

#[test]
fn scause_splits_into_kind_and_code() {
    assert_eq!(scause_split(8), (false, 8));
    assert_eq!(scause_split(1 << 63 | 5), (true, 5));
    assert_eq!(scause_split(u64::MAX), (true, u64::MAX >> 1));
    assert_eq!(scause_split(1 << 62), (false, 1 << 62));
    assert_eq!(scause_split(0), (false, 0));
}

#[test]
fn standard_causes_have_their_numbers() {
    for code in 0..40u64 {
        let exception = code <= 9 || code == 12 || code == 13 || code == 15;
        let interrupt = code == 1 || code == 5 || code == 9;
        assert_eq!(standard_number(false, code), if exception { Some(code) } else { None });
        assert_eq!(standard_number(true, code), if interrupt { Some(code) } else { None });
    }
    assert_eq!(standard_number(false, 1 << 32 | 8), None);
    assert_eq!(standard_number(true, u64::MAX), None);
}
