use rvkernel::kernel::{
    Kernel, TrapOutcome, SYSCALL_EXEC, SYSCALL_EXIT, SYSCALL_FORK, SYSCALL_GETPID, SYSCALL_GET_TIME, SYSCALL_KILL,
    SYSCALL_MAILREAD, SYSCALL_MAILWRITE, SYSCALL_MMAP, SYSCALL_MUNMAP, SYSCALL_SET_PRIORITY, SYSCALL_SIGACTION,
    SYSCALL_SIGPROCMASK, SYSCALL_SIGRETURN, SYSCALL_SPAWN, SYSCALL_WAITPID, SYSCALL_WRITE, SYSCALL_YIELD,
};
use rvkernel::memory_set::{ExecImage, ProgramSegment};
use rvkernel::task::TaskStatus;

const ECALL: usize = 8;
const STORE_PAGE_FAULT: usize = 15;
const ILLEGAL_INSTRUCTION: usize = 2;

fn image() -> ExecImage {
    ExecImage {
        entry: 0x10000,
        segments: vec![
            ProgramSegment { start_va: 0x10000, end_va: 0x11000, readable: true, writable: false, executable: true, data: vec![0x73, 0, 0, 0] },
            ProgramSegment { start_va: 0x20000, end_va: 0x22000, readable: true, writable: true, executable: false, data: vec![] },
        ],
    }
}

fn boot() -> Kernel {
    let mut k = Kernel::new(512, 0x8000_0000_0000_0100, 0x8020_0000);
    k.add_app(b"initproc".to_vec(), image());
    k.add_app(b"echo".to_vec(), image());
    assert_eq!(k.add_initproc(&b"initproc".to_vec()), Some(0));
    assert_eq!(k.run_next(), Some(0));
    k
}

fn call(k: &mut Kernel, pid: usize, id: usize, args: [usize; 3]) -> TrapOutcome {
    assert_eq!(k.current_pid(), Some(pid));
    assert!(k.set_user_reg(pid, 17, id));
    assert!(k.set_user_reg(pid, 10, args[0]));
    assert!(k.set_user_reg(pid, 11, args[1]));
    assert!(k.set_user_reg(pid, 12, args[2]));
    k.trap_handler(ECALL)
}

fn a0(k: &Kernel, pid: usize) -> isize {
    k.trap_cx_of(pid).unwrap().x[10] as isize
}

fn word(v: usize) -> Vec<u8> {
    (v as u64).to_le_bytes().to_vec()
}

/// Forks the first process and lets the child run; returns the child's id.
fn fork_and_switch(k: &mut Kernel) -> usize {
    assert_eq!(call(k, 0, SYSCALL_FORK, [0, 0, 0]), TrapOutcome::Resume);
    let c = a0(k, 0) as usize;
    assert_eq!(call(k, 0, SYSCALL_YIELD, [0, 0, 0]), TrapOutcome::Resume);
    assert_eq!(k.current_pid(), Some(c));
    c
}

#[test]
fn fork_exec_wait_end_to_end() {
    let mut k = boot();
    let sepc0 = k.trap_cx_of(0).unwrap().sepc;
    assert_eq!(call(&mut k, 0, SYSCALL_FORK, [0, 0, 0]), TrapOutcome::Resume);
    let c = a0(&k, 0) as usize;
    assert_eq!(c, 1);
    assert_eq!(k.trap_cx_of(0).unwrap().sepc, sepc0 + 4);
    let ccx = k.trap_cx_of(c).unwrap();
    assert_eq!(ccx.x[10], 0);
    assert_eq!(ccx.sepc, sepc0 + 4);
    assert_eq!(k.task_status(c), Some(TaskStatus::Ready));

    // the child has not exited yet
    call(&mut k, 0, SYSCALL_WAITPID, [c, 0x20100, 0]);
    assert_eq!(a0(&k, 0), -2);
    call(&mut k, 0, SYSCALL_WAITPID, [usize::MAX, 0x20100, 0]);
    assert_eq!(a0(&k, 0), -2);
    // no such child
    call(&mut k, 0, SYSCALL_WAITPID, [99, 0x20100, 0]);
    assert_eq!(a0(&k, 0), -1);

    // the child runs and replaces its program with "echo hi"
    call(&mut k, 0, SYSCALL_YIELD, [0, 0, 0]);
    assert_eq!(k.current_pid(), Some(c));
    assert!(k.write_user(c, 0x20200, &b"echo\0".to_vec()));
    assert!(k.write_user(c, 0x20210, &b"hi\0".to_vec()));
    let mut argv = word(0x20200);
    argv.extend(word(0x20210));
    argv.extend(word(0));
    assert!(k.write_user(c, 0x20300, &argv));
    assert_eq!(call(&mut k, c, SYSCALL_EXEC, [0x20200, 0x20300, 0]), TrapOutcome::Resume);
    let cx = k.trap_cx_of(c).unwrap();
    assert_eq!(cx.x[10], 2);
    assert_eq!(cx.sepc, 0x10000);
    let argv_base = cx.x[11];
    assert_eq!(argv_base, 0x25000 - 3 * 8);
    let p0 = k.read_user(c, argv_base, 8).unwrap();
    let p1 = k.read_user(c, argv_base + 8, 8).unwrap();
    let p0 = u64::from_le_bytes(p0.try_into().unwrap()) as usize;
    let p1 = u64::from_le_bytes(p1.try_into().unwrap()) as usize;
    assert_eq!(k.read_user(c, p0, 5), Some(b"echo\0".to_vec()));
    assert_eq!(k.read_user(c, p1, 3), Some(b"hi\0".to_vec()));
    assert_eq!(k.read_user(c, argv_base + 16, 8), Some(vec![0; 8]));
    assert_eq!(cx.x[2] % 8, 0);
    assert!(cx.x[2] <= p1);
    // the old program's data is gone
    assert_eq!(k.read_user(c, 0x20200, 4), Some(vec![0; 4]));

    // the child exits; the parent collects it
    assert_eq!(call(&mut k, c, SYSCALL_EXIT, [3, 0, 0]), TrapOutcome::Resume);
    assert_eq!(k.task_status(c), Some(TaskStatus::Zombie));
    assert_eq!(k.task_exit_code(c), Some(3));
    assert_eq!(k.current_pid(), Some(0));
    call(&mut k, 0, SYSCALL_WAITPID, [99, 0x20100, 0]);
    assert_eq!(a0(&k, 0), -1);
    call(&mut k, 0, SYSCALL_WAITPID, [c, 0x20100, 0]);
    assert_eq!(a0(&k, 0), c as isize);
    assert_eq!(k.read_user(0, 0x20100, 4), Some(vec![3, 0, 0, 0]));
    assert_eq!(k.task_status(c), None);
    call(&mut k, 0, SYSCALL_WAITPID, [c, 0x20100, 0]);
    assert_eq!(a0(&k, 0), -1);
}

#[test]
fn store_fault_kills_only_the_faulting_task() {
    let mut k = boot();
    let c = fork_and_switch(&mut k);
    assert_eq!(k.trap_handler(STORE_PAGE_FAULT), TrapOutcome::Resume);
    assert_eq!(k.task_status(c), Some(TaskStatus::Zombie));
    assert_eq!(k.task_exit_code(c), Some(-11));
    assert_eq!(k.current_pid(), Some(0));
    call(&mut k, 0, SYSCALL_WAITPID, [c, 0x20100, 0]);
    assert_eq!(a0(&k, 0), c as isize);
    assert_eq!(k.read_user(0, 0x20100, 4), Some((-11i32).to_le_bytes().to_vec()));
}

#[test]
fn illegal_instruction_exits_with_its_code() {
    let mut k = boot();
    let c = fork_and_switch(&mut k);
    k.trap_handler(ILLEGAL_INSTRUCTION);
    assert_eq!(k.task_exit_code(c), Some(-4));
    assert_eq!(k.task_status(c), Some(TaskStatus::Zombie));
}

#[test]
fn signal_handler_runs_and_sigreturn_resumes() {
    let mut k = boot();
    let c = fork_and_switch(&mut k);
    // the child registers a handler for signal 10
    let mut action = word(0x10100);
    action.extend(vec![0, 0, 0, 0]);
    assert!(k.write_user(c, 0x20400, &action));
    call(&mut k, c, SYSCALL_SIGACTION, [10, 0x20400, 0x20410]);
    assert_eq!(a0(&k, c), 0);
    assert_eq!(k.read_user(c, 0x20410, 16), Some(vec![0; 16]));
    // signal 9 cannot be caught
    call(&mut k, c, SYSCALL_SIGACTION, [9, 0x20400, 0x20410]);
    assert_eq!(a0(&k, c), -1);
    call(&mut k, c, SYSCALL_YIELD, [0, 0, 0]);
    let before = k.trap_cx_of(c).unwrap();
    // the parent sends the signal; the child takes it on its way back
    call(&mut k, 0, SYSCALL_KILL, [c, 10, 0]);
    assert_eq!(a0(&k, 0), 0);
    call(&mut k, 0, SYSCALL_KILL, [c, 10, 0]);
    assert_eq!(a0(&k, 0), -1);
    call(&mut k, 0, SYSCALL_KILL, [77, 10, 0]);
    assert_eq!(a0(&k, 0), -2);
    call(&mut k, 0, SYSCALL_YIELD, [0, 0, 0]);
    assert_eq!(k.current_pid(), Some(c));
    let in_handler = k.trap_cx_of(c).unwrap();
    assert_eq!(in_handler.sepc, 0x10100);
    assert_eq!(in_handler.x[10], 10);
    // the handler returns
    call(&mut k, c, SYSCALL_SIGRETURN, [0, 0, 0]);
    let after = k.trap_cx_of(c).unwrap();
    assert_eq!(after.sepc, before.sepc);
    assert_eq!(after.x, before.x);
    assert_eq!(k.task_status(c), Some(TaskStatus::Running));
    // a task that never took a signal has no context to go back to
    call(&mut k, c, SYSCALL_YIELD, [0, 0, 0]);
    assert_eq!(k.current_pid(), Some(0));
    call(&mut k, 0, SYSCALL_SIGRETURN, [0, 0, 0]);
    assert_eq!(a0(&k, 0), -1);
}

#[test]
fn masked_signal_waits() {
    let mut k = boot();
    let c = fork_and_switch(&mut k);
    let mut action = word(0x10100);
    action.extend(vec![0, 0, 0, 0]);
    k.write_user(c, 0x20400, &action);
    call(&mut k, c, SYSCALL_SIGACTION, [10, 0x20400, 0x20410]);
    call(&mut k, c, SYSCALL_SIGPROCMASK, [1 << 10, 0, 0]);
    assert_eq!(a0(&k, c), 0);
    call(&mut k, c, SYSCALL_KILL, [c, 10, 0]);
    assert_eq!(a0(&k, c), 0);
    // still masked: the handler did not run
    assert_ne!(k.trap_cx_of(c).unwrap().sepc, 0x10100);
    call(&mut k, c, SYSCALL_SIGPROCMASK, [0, 0, 0]);
    assert_eq!(a0(&k, c), 10);
    assert_eq!(k.trap_cx_of(c).unwrap().sepc, 0x10100);
}

#[test]
fn mailbox_between_processes() {
    let mut k = boot();
    let c = fork_and_switch(&mut k);
    call(&mut k, c, SYSCALL_YIELD, [0, 0, 0]);
    assert!(k.write_user(0, 0x20500, &b"hi".to_vec()));
    for _ in 0..16 {
        call(&mut k, 0, SYSCALL_MAILWRITE, [c, 0x20500, 2]);
        assert_eq!(a0(&k, 0), 2);
    }
    assert_eq!(k.mail_count(c), Some(16));
    call(&mut k, 0, SYSCALL_MAILWRITE, [c, 0x20500, 2]);
    assert_eq!(a0(&k, 0), -1);
    assert_eq!(k.mail_count(c), Some(16));
    call(&mut k, 0, SYSCALL_MAILWRITE, [c, 0x20500, 0]);
    assert_eq!(a0(&k, 0), -1);
    call(&mut k, 0, SYSCALL_MAILWRITE, [42, 0x20500, 2]);
    assert_eq!(a0(&k, 0), -1);
    call(&mut k, 0, SYSCALL_YIELD, [0, 0, 0]);
    assert_eq!(k.current_pid(), Some(c));
    call(&mut k, c, SYSCALL_MAILREAD, [0x20600, 0, 0]);
    assert_eq!(a0(&k, c), 0);
    call(&mut k, c, SYSCALL_MAILREAD, [0x20600, 256, 0]);
    assert_eq!(a0(&k, c), 2);
    assert_eq!(k.read_user(c, 0x20600, 2), Some(b"hi".to_vec()));
    assert_eq!(k.mail_count(c), Some(15));
    call(&mut k, c, SYSCALL_MAILREAD, [0x20600, 1, 0]);
    assert_eq!(a0(&k, c), 1);
    assert_eq!(k.mail_count(c), Some(14));
    // an unmapped buffer leaves the message in place
    call(&mut k, c, SYSCALL_MAILREAD, [0x90000, 8, 0]);
    assert_eq!(a0(&k, c), -1);
    assert_eq!(k.mail_count(c), Some(14));
}

#[test]
fn mmap_and_munmap() {
    let mut k = boot();
    call(&mut k, 0, SYSCALL_MMAP, [0x30000, 0x2000, 3]);
    assert_eq!(a0(&k, 0), 0);
    assert!(k.write_user(0, 0x31ff0, &vec![1; 16]));
    call(&mut k, 0, SYSCALL_MMAP, [0x31000, 0x1000, 1]);
    assert_eq!(a0(&k, 0), -1);
    call(&mut k, 0, SYSCALL_MMAP, [0x40000, 0x1000, 0]);
    assert_eq!(a0(&k, 0), -1);
    call(&mut k, 0, SYSCALL_MMAP, [0x40000, 0x1000, 8]);
    assert_eq!(a0(&k, 0), -1);
    call(&mut k, 0, SYSCALL_MUNMAP, [0x31000, 0, 0]);
    assert_eq!(a0(&k, 0), -1);
    call(&mut k, 0, SYSCALL_MUNMAP, [0x30000, 0, 0]);
    assert_eq!(a0(&k, 0), 0);
    assert!(!k.write_user(0, 0x30000, &vec![1]));
}

#[test]
fn write_getpid_time_priority_unknown() {
    let mut k = boot();
    assert!(k.write_user(0, 0x20700, &b"hello".to_vec()));
    call(&mut k, 0, SYSCALL_WRITE, [1, 0x20700, 5]);
    assert_eq!(a0(&k, 0), 5);
    assert_eq!(k.take_console(), b"hello".to_vec());
    call(&mut k, 0, SYSCALL_WRITE, [2, 0x20700, 5]);
    assert_eq!(a0(&k, 0), -1);
    call(&mut k, 0, SYSCALL_GETPID, [0, 0, 0]);
    assert_eq!(a0(&k, 0), 0);
    k.tick(123);
    call(&mut k, 0, SYSCALL_GET_TIME, [0, 0, 0]);
    assert_eq!(a0(&k, 0), 123);
    call(&mut k, 0, SYSCALL_SET_PRIORITY, [1, 0, 0]);
    assert_eq!(a0(&k, 0), -1);
    call(&mut k, 0, SYSCALL_SET_PRIORITY, [5, 0, 0]);
    assert_eq!(a0(&k, 0), 0);
    call(&mut k, 0, 9999, [0, 0, 0]);
    assert_eq!(a0(&k, 0), -1);
}

#[test]
fn spawn_starts_a_child() {
    let mut k = boot();
    assert!(k.write_user(0, 0x20200, &b"echo\0".to_vec()));
    let mut argv = word(0x20200);
    argv.extend(word(0));
    assert!(k.write_user(0, 0x20300, &argv));
    call(&mut k, 0, SYSCALL_SPAWN, [0x20200, 0x20300, 0]);
    let c = a0(&k, 0);
    assert_eq!(c, 1);
    assert_eq!(k.task_status(1), Some(TaskStatus::Ready));
    assert_eq!(k.trap_cx_of(1).unwrap().x[10], 1);
    assert!(k.write_user(0, 0x20400, &b"nothing\0".to_vec()));
    call(&mut k, 0, SYSCALL_SPAWN, [0x20400, 0x20300, 0]);
    assert_eq!(a0(&k, 0), -1);
    call(&mut k, 0, SYSCALL_EXEC, [0x20400, 0x20300, 0]);
    assert_eq!(a0(&k, 0), -1);
}

#[test]
fn timer_preempts_and_unknown_trap_is_fatal() {
    let mut k = boot();
    call(&mut k, 0, SYSCALL_FORK, [0, 0, 0]);
    assert_eq!(k.trap_handler((1usize << 63) | 5), TrapOutcome::Resume);
    assert_eq!(k.current_pid(), Some(1));
    assert_eq!(k.task_status(0), Some(TaskStatus::Ready));
    assert_eq!(k.trap_handler(3), TrapOutcome::Fatal);
    assert_eq!(k.current_pid(), Some(1));
}

#[test]
fn last_exit_leaves_kernel_idle() {
    let mut k = boot();
    assert_eq!(call(&mut k, 0, SYSCALL_EXIT, [0, 0, 0]), TrapOutcome::Idle);
    assert_eq!(k.current_pid(), None);
}

#[test]
fn dispatcher_runs_calls_directly() {
    let mut k = boot();
    assert_eq!(k.syscall(SYSCALL_GETPID, [0; 7]), 0);
    assert_eq!(k.syscall(12345, [0; 7]), -1);
    assert_eq!(k.syscall(SYSCALL_SET_PRIORITY, [1, 0, 0, 0, 0, 0, 0]), -1);
    assert_eq!(k.syscall(SYSCALL_SET_PRIORITY, [2, 0, 0, 0, 0, 0, 0]), 0);
    assert!(k.pid2task(0).is_some());
    assert!(k.pid2task(5).is_none());
}

#[test]
fn kill_and_stop_cannot_be_masked() {
    let mut k = boot();
    call(&mut k, 0, SYSCALL_SIGPROCMASK, [(1 << 9) | (1 << 19) | (1 << 10), 0, 0]);
    assert_eq!(a0(&k, 0), 0);
    call(&mut k, 0, SYSCALL_SIGPROCMASK, [0, 0, 0]);
    assert_eq!(a0(&k, 0), 1 << 10);
}

#[test]
fn stop_ends_the_task() {
    let mut k = boot();
    let c = fork_and_switch(&mut k);
    call(&mut k, c, SYSCALL_SIGPROCMASK, [1 << 19, 0, 0]);
    call(&mut k, c, SYSCALL_KILL, [c, 19, 0]);
    assert_eq!(k.task_status(c), Some(TaskStatus::Zombie));
    assert_eq!(k.task_exit_code(c), Some(-19));
    assert_eq!(k.current_pid(), Some(0));
}

#[test]
fn argument_vector_may_fill_the_user_stack() {
    let mut k = boot();
    assert!(k.write_user(0, 0x10100, &b"echo\0".to_vec()));
    // one argument: 16 bytes of pointers, 8175 bytes and a terminator
    let mut long = vec![b'a'; 8175];
    long.push(0);
    assert!(k.write_user(0, 0x20000, &long));
    let mut argv = word(0x20000);
    argv.extend(word(0));
    assert!(k.write_user(0, 0x21ff0, &argv));
    call(&mut k, 0, SYSCALL_SPAWN, [0x10100, 0x21ff0, 0]);
    let c = a0(&k, 0);
    assert!(c > 0);
    let cx = k.trap_cx_of(c as usize).unwrap();
    assert_eq!(cx.x[10], 1);
    assert_eq!(cx.x[11], 0x25000 - 16);
    assert_eq!(cx.x[2] % 8, 0);
    // one byte more no longer fits
    let mut longer = vec![b'a'; 8176];
    longer.push(0);
    assert!(k.write_user(0, 0x20000, &longer));
    let mut argv2 = word(0x20000);
    argv2.extend(word(0));
    assert!(k.write_user(0, 0x10200, &argv2));
    call(&mut k, 0, SYSCALL_SPAWN, [0x10100, 0x10200, 0]);
    assert_eq!(a0(&k, 0), -1);
}

#[test]
fn signal_waits_while_its_own_handler_runs() {
    let mut k = boot();
    let c = fork_and_switch(&mut k);
    let mut action = word(0x10100);
    action.extend(vec![0, 0, 0, 0]);
    assert!(k.write_user(c, 0x20400, &action));
    call(&mut k, c, SYSCALL_SIGACTION, [10, 0x20400, 0x20410]);
    call(&mut k, c, SYSCALL_YIELD, [0, 0, 0]);
    call(&mut k, 0, SYSCALL_KILL, [c, 10, 0]);
    call(&mut k, 0, SYSCALL_YIELD, [0, 0, 0]);
    assert_eq!(k.trap_cx_of(c).unwrap().sepc, 0x10100);
    // raised again inside its handler: it waits
    call(&mut k, c, SYSCALL_KILL, [c, 10, 0]);
    assert_eq!(a0(&k, c), 0);
    assert_eq!(k.trap_cx_of(c).unwrap().sepc, 0x10104);
    // the handler returns; the waiting signal is delivered then
    call(&mut k, c, SYSCALL_SIGRETURN, [0, 0, 0]);
    let cx = k.trap_cx_of(c).unwrap();
    assert_eq!(cx.sepc, 0x10100);
    assert_eq!(cx.x[10], 10);
}
