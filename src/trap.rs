//! Saved user context and the decoding of trap causes.
use vstd::prelude::*;

verus! {

/// Exception code of an environment call from user mode.
pub const EXC_USER_ENV_CALL: usize = 8;
/// Exception code of an instruction access fault.
pub const EXC_INSTRUCTION_FAULT: usize = 1;
/// Exception code of an illegal instruction.
pub const EXC_ILLEGAL_INSTRUCTION: usize = 2;
/// Exception code of a load access fault.
pub const EXC_LOAD_FAULT: usize = 5;
/// Exception code of a store access fault.
pub const EXC_STORE_FAULT: usize = 7;
/// Exception code of an instruction page fault.
pub const EXC_INSTRUCTION_PAGE_FAULT: usize = 12;
/// Exception code of a load page fault.
pub const EXC_LOAD_PAGE_FAULT: usize = 13;
/// Exception code of a store page fault.
pub const EXC_STORE_PAGE_FAULT: usize = 15;
/// Interrupt code of the supervisor timer.
pub const IRQ_SUPERVISOR_TIMER: usize = 5;

/// Register that carries the syscall number.
pub const REG_SYSCALL_ID: usize = 17;
/// Register that carries the first argument and the return value.
pub const REG_A0: usize = 10;
/// Register that carries the second argument.
pub const REG_A1: usize = 11;
/// Stack pointer register.
pub const REG_SP: usize = 2;

/// The registers saved on entry from user mode, laid out for the
/// trampoline: general registers, status, program counter, the kernel's
/// page-table token, kernel stack pointer and trap handler address.
#[derive(Clone, Copy)]
pub struct TrapContext {
    pub x: [usize; 32],
    pub sstatus: usize,
    pub sepc: usize,
    pub kernel_satp: u64,
    pub kernel_sp: usize,
    pub trap_handler: usize,
}

impl TrapContext {
    /// A context that enters user mode at `entry` with stack pointer `sp`.
    pub fn app_init_context(entry: usize, sp: usize, kernel_satp: u64, kernel_sp: usize, trap_handler: usize) -> (r: Self)
        ensures
            r.sepc == entry,
            r.x@[REG_SP as int] == sp,
            forall|i: int| 0 <= i < 32 && i != REG_SP ==> r.x@[i] == 0,
            r.sstatus == 0,
            r.kernel_satp == kernel_satp,
            r.kernel_sp == kernel_sp,
            r.trap_handler == trap_handler,
    {
        let mut x = [0usize; 32];
        x[REG_SP] = sp;
        Self { x, sstatus: 0, sepc: entry, kernel_satp, kernel_sp, trap_handler }
    }

    /// Sets register `i`.
    pub fn set_reg(&mut self, i: usize, v: usize)
        requires
            i < 32,
        ensures
            final(self).x@ == old(self).x@.update(i as int, v),
            final(self).sepc == old(self).sepc,
            final(self).sstatus == old(self).sstatus,
            final(self).kernel_satp == old(self).kernel_satp,
            final(self).kernel_sp == old(self).kernel_sp,
            final(self).trap_handler == old(self).trap_handler,
    {
        self.x[i] = v;
    }
}

/// A trap cause as the cause register gives it.
#[derive(Debug, Clone, Copy, PartialEq, Eq, Structural)]
pub enum RawTrap {
    Interrupt(usize),
    Exception(usize),
}

/// The cause register's top bit marks an interrupt; the rest is the code.
pub open spec fn raw_trap_of(bits: usize) -> RawTrap {
    if bits > usize::MAX / 2 {
        RawTrap::Interrupt((bits - (usize::MAX / 2 + 1)) as usize)
    } else {
        RawTrap::Exception(bits)
    }
}

/// Relies on riscv's `Scause::from_bits` and `Scause::cause`: the top bit
/// of the register tells an interrupt from an exception, and the other
/// bits are the code.
#[verifier::external_body]
fn decode_scause(bits: usize) -> (r: RawTrap)
    ensures
        r == raw_trap_of(bits),
{
    match riscv::register::scause::Scause::from_bits(bits).cause() {
        riscv::interrupt::Trap::Interrupt(code) => RawTrap::Interrupt(code),
        riscv::interrupt::Trap::Exception(code) => RawTrap::Exception(code),
    }
}

/// What the kernel does about a trap.
#[derive(Debug, Clone, Copy, PartialEq, Eq, Structural)]
pub enum TrapKind {
    /// A system call from user mode.
    Syscall,
    /// A load, store or instruction access or page fault.
    MemoryFault,
    /// An illegal instruction.
    IllegalInstruction,
    /// The supervisor timer fired.
    Timer,
    /// Anything else: the kernel cannot go on.
    Unsupported,
}

pub open spec fn kind_of(t: RawTrap) -> TrapKind {
    match t {
        RawTrap::Exception(c) => {
            if c == EXC_USER_ENV_CALL {
                TrapKind::Syscall
            } else if c == EXC_INSTRUCTION_FAULT || c == EXC_LOAD_FAULT || c == EXC_STORE_FAULT
                || c == EXC_INSTRUCTION_PAGE_FAULT || c == EXC_LOAD_PAGE_FAULT || c == EXC_STORE_PAGE_FAULT {
                TrapKind::MemoryFault
            } else if c == EXC_ILLEGAL_INSTRUCTION {
                TrapKind::IllegalInstruction
            } else {
                TrapKind::Unsupported
            }
        },
        RawTrap::Interrupt(c) => {
            if c == IRQ_SUPERVISOR_TIMER {
                TrapKind::Timer
            } else {
                TrapKind::Unsupported
            }
        },
    }
}

/// What the kernel does about a trap whose cause register reads `scause`.
pub fn classify_trap(scause: usize) -> (r: TrapKind)
    ensures
        r == kind_of(raw_trap_of(scause)),
{
    match decode_scause(scause) {
        RawTrap::Exception(c) => {
            if c == EXC_USER_ENV_CALL {
                TrapKind::Syscall
            } else if c == EXC_INSTRUCTION_FAULT || c == EXC_LOAD_FAULT || c == EXC_STORE_FAULT
                || c == EXC_INSTRUCTION_PAGE_FAULT || c == EXC_LOAD_PAGE_FAULT || c == EXC_STORE_PAGE_FAULT {
                TrapKind::MemoryFault
            } else if c == EXC_ILLEGAL_INSTRUCTION {
                TrapKind::IllegalInstruction
            } else {
                TrapKind::Unsupported
            }
        },
        RawTrap::Interrupt(c) => {
            if c == IRQ_SUPERVISOR_TIMER {
                TrapKind::Timer
            } else {
                TrapKind::Unsupported
            }
        },
    }
}

} // verus!
