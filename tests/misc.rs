use rvkernel::efd::{FdOutcome, MutexFD, SemaphoreFD, Stat, STAT_MODE_NULL};
use rvkernel::signal::{check_error, check_sigaction_error, SignalActions, SIGILL, SIGINT, SIGKILL, SIGSEGV, SIGSTOP, SIGUSR1};
use rvkernel::task::{kernel_stack_top, SyscallInfo, TaskInfo, TaskStatus};
use rvkernel::trap::{classify_trap, TrapContext, TrapKind};
use rvkernel::usermem::UserMapPermission;
use rvkernel::memory_set::{MAP_R, MAP_U, MAP_W, MAP_X};
use rvkernel::word::{from_le, to_le};

#[test]
fn trap_causes_are_classified() {
    assert_eq!(classify_trap(8), TrapKind::Syscall);
    for c in [1usize, 5, 7, 12, 13, 15] {
        assert_eq!(classify_trap(c), TrapKind::MemoryFault);
    }
    assert_eq!(classify_trap(2), TrapKind::IllegalInstruction);
    assert_eq!(classify_trap((1usize << 63) | 5), TrapKind::Timer);
    assert_eq!(classify_trap(3), TrapKind::Unsupported);
    assert_eq!(classify_trap(9), TrapKind::Unsupported);
    // code 8 as an interrupt is no system call
    assert_eq!(classify_trap((1usize << 63) | 8), TrapKind::Unsupported);
    assert_eq!(classify_trap((1usize << 63) | 9), TrapKind::Unsupported);
}

#[test]
fn error_signals_give_exit_codes() {
    assert_eq!(check_error(0), None);
    assert_eq!(check_error(SIGUSR1), None);
    assert_eq!(check_error(SIGSEGV), Some(-11));
    assert_eq!(check_error(SIGILL), Some(-4));
    assert_eq!(check_error(SIGKILL), Some(-9));
    assert_eq!(check_error(SIGINT | SIGSEGV), Some(-2));
}

#[test]
fn sigaction_errors() {
    assert!(check_sigaction_error(SIGUSR1, 0, 8));
    assert!(check_sigaction_error(SIGUSR1, 8, 0));
    assert!(check_sigaction_error(SIGKILL, 8, 8));
    assert!(check_sigaction_error(SIGSTOP, 8, 8));
    assert!(!check_sigaction_error(SIGUSR1, 8, 8));
}

#[test]
fn default_signal_actions() {
    let a = SignalActions::new();
    assert_eq!(a.table.len(), 32);
    assert!(a.table.iter().all(|x| x.handler == 0 && x.mask == 0));
}

#[test]
fn words_encode_least_significant_first() {
    assert_eq!(to_le(0x0102_0304, 4), vec![4, 3, 2, 1]);
    assert_eq!(to_le(0x1122, 8), vec![0x22, 0x11, 0, 0, 0, 0, 0, 0]);
    assert_eq!(from_le(&vec![4, 3, 2, 1]), 0x0102_0304);
    assert_eq!(from_le(&to_le(u64::MAX, 8)), u64::MAX);
}

#[test]
fn user_map_permission() {
    assert!(UserMapPermission::from_bits(8).is_none());
    let none = UserMapPermission::from_bits(0).unwrap();
    assert!(!none.is_valid());
    let rw = UserMapPermission::from_bits(3).unwrap();
    assert!(rw.is_valid());
    assert_eq!(rw.bits(), 3);
    assert_eq!(rw.to_map_permission(), MAP_R | MAP_W | MAP_U);
    assert_eq!(UserMapPermission::from_bits(4).unwrap().to_map_permission(), MAP_X | MAP_U);
}

#[test]
fn nonblocking_mutex_takes_and_stores_word() {
    let mut m = MutexFD::new(0, false, 3);
    let mut buf = vec![0u8; 8];
    assert_eq!(m.read(&mut buf), FdOutcome::WouldBlock);
    assert_eq!(m.write(&vec![5, 1]), FdOutcome::Done(2));
    assert_eq!(m.read(&mut buf), FdOutcome::Done(8));
    assert_eq!(buf, vec![5, 1, 0, 0, 0, 0, 0, 0]);
    assert_eq!(m.read(&mut buf), FdOutcome::WouldBlock);
    let mut small = vec![9u8; 2];
    m.write(&vec![1, 2, 3]);
    assert_eq!(m.read(&mut small), FdOutcome::Done(2));
    assert_eq!(small, vec![1, 2]);
    assert!(m.readable() && m.writable());
}

#[test]
fn blocking_mutex_locks_on_zero_edge() {
    let mut m = MutexFD::new(0, true, 3);
    let mut buf = vec![0u8; 8];
    assert_eq!(m.read(&mut buf), FdOutcome::MustWait);
    // 0 -> 1 releases the lock
    assert_eq!(m.write(&vec![1]), FdOutcome::Done(1));
    assert_eq!(m.read(&mut buf), FdOutcome::Done(8));
    assert_eq!(buf[0], 1);
    // the reader holds the lock now
    assert_eq!(m.read(&mut buf), FdOutcome::MustWait);
    let mut n = MutexFD::new(7, true, 4);
    let mut b2 = vec![0u8; 8];
    assert_eq!(n.read(&mut b2), FdOutcome::Done(8));
    assert_eq!(b2[0], 7);
}

#[test]
fn semaphore_counts_units() {
    let mut s = SemaphoreFD::new(1, false, 3);
    assert_eq!(s.read(), FdOutcome::Done(1));
    assert_eq!(s.read(), FdOutcome::WouldBlock);
    assert_eq!(s.write(), FdOutcome::Done(1));
    assert_eq!(s.read(), FdOutcome::Done(1));
    let mut b = SemaphoreFD::new(0, true, 4);
    assert_eq!(b.read(), FdOutcome::MustWait);
    b.write();
    assert_eq!(b.read(), FdOutcome::Done(1));
    assert_eq!(b.stat(), Stat::empty());
}

#[test]
fn empty_stat() {
    let s = Stat::empty();
    assert_eq!((s.dev, s.ino, s.mode, s.nlink), (0, 0, STAT_MODE_NULL, 0));
}

#[test]
fn task_info_for_user() {
    let mut info = TaskInfo::init(4);
    assert_eq!(info.status, TaskStatus::Ready);
    info.call.push(SyscallInfo { id: 64, times: 3 });
    info.total_time = 12;
    let u = info.user();
    assert_eq!(u.id, 4);
    assert_eq!(u.total_time, 12);
    assert_eq!(u.call[0], SyscallInfo { id: 64, times: 3 });
    assert_eq!(u.call[1], SyscallInfo { id: 0, times: 0 });
}

#[test]
fn initial_trap_context() {
    let cx = TrapContext::app_init_context(0x10000, 0x25000, 0x8000_0000_0000_0042, 0x1234, 0x5678);
    assert_eq!(cx.sepc, 0x10000);
    assert_eq!(cx.x[2], 0x25000);
    assert_eq!(cx.x[10], 0);
    assert_eq!(cx.kernel_sp, 0x1234);
    assert_eq!(cx.trap_handler, 0x5678);
    assert_eq!(kernel_stack_top(0), usize::MAX - 4095);
    assert_eq!(kernel_stack_top(1), usize::MAX - 4095 - 12288);
}

#[test]
fn semaphore_takes_from_any_positive_count() {
    let mut s = SemaphoreFD::new(usize::MAX, false, 3);
    assert_eq!(s.read(), FdOutcome::Done(1));
    assert_eq!(s.write(), FdOutcome::Done(1));
    assert_eq!(s.write(), FdOutcome::Done(1));
    assert_eq!(s.read(), FdOutcome::Done(1));
}

#[test]
fn stop_signal_has_its_exit_code() {
    assert_eq!(check_error(SIGSTOP), Some(-19));
    assert_eq!(check_error(SIGKILL | SIGSTOP), Some(-9));
}
