//! Signal numbers, signal sets and per-signal actions.
use vstd::prelude::*;

verus! {

/// Largest signal number.
pub const MAX_SIG: usize = 31;

pub const SIGDEF: u32 = 1;
pub const SIGINT: u32 = 4;
pub const SIGILL: u32 = 16;
pub const SIGABRT: u32 = 64;
pub const SIGFPE: u32 = 256;
pub const SIGKILL: u32 = 512;
pub const SIGUSR1: u32 = 1024;
pub const SIGSEGV: u32 = 2048;
pub const SIGCONT: u32 = 262144;
pub const SIGSTOP: u32 = 524288;

/// Signals no mask can block.
pub const UNMASKABLE: u32 = SIGKILL | SIGSTOP;

/// The set that holds signal `signum` alone.
pub open spec fn sig_bit(signum: int) -> u32 {
    (1u32 << (signum as u32)) as u32
}

/// Whether signal set `set` holds every signal of `flag`.
pub open spec fn contains(set: u32, flag: u32) -> bool {
    set & flag == flag
}

/// What a process asked to happen on a signal: a handler address (0 for
/// the default action) and the signals masked while it runs.
#[derive(Debug, Clone, Copy, PartialEq, Eq, Structural)]
pub struct SignalAction {
    pub handler: usize,
    pub mask: u32,
}

impl SignalAction {
    /// The default action: no handler, nothing masked.
    pub fn default_action() -> (r: Self)
        ensures
            r.handler == 0,
            r.mask == 0,
    {
        Self { handler: 0, mask: 0 }
    }
}

/// One action per signal number.
#[derive(Clone)]
pub struct SignalActions {
    pub table: Vec<SignalAction>,
}

impl SignalActions {
    pub open spec fn wf(&self) -> bool {
        self.table@.len() == MAX_SIG + 1
    }

    /// The default action for every signal.
    pub fn new() -> (r: Self)
        ensures
            r.wf(),
            forall|i: int| 0 <= i <= MAX_SIG ==> #[trigger] r.table@[i] == (SignalAction { handler: 0, mask: 0 }),
    {
        let mut table: Vec<SignalAction> = Vec::new();
        let mut i: usize = 0;
        while i <= MAX_SIG
            invariant
                i <= MAX_SIG + 1,
                table@.len() == i,
                forall|j: int| 0 <= j < i ==> #[trigger] table@[j] == (SignalAction { handler: 0, mask: 0 }),
            decreases MAX_SIG + 1 - i,
        {
            table.push(SignalAction::default_action());
            i += 1;
        }
        Self { table }
    }

    /// A copy of the table.
    pub fn duplicate(&self) -> (r: Self)
        ensures
            r.table@ == self.table@,
    {
        Self { table: self.table.clone() }
    }
}

/// Whether registering an action for `signal` with handler pointer
/// `action` and old-action pointer `old_action` is refused: a null
/// pointer, or a signal whose action cannot change (kill, stop).
pub fn check_sigaction_error(signal: u32, action: usize, old_action: usize) -> (r: bool)
    ensures
        r == (action == 0 || old_action == 0 || signal == SIGKILL || signal == SIGSTOP),
{
    action == 0 || old_action == 0 || signal == SIGKILL || signal == SIGSTOP
}

/// The signal that ends a task in error, with its exit code and message,
/// if its pending set holds one: interrupt, illegal instruction, abort,
/// arithmetic error, kill, stop, segmentation fault, checked in that order.
pub open spec fn error_of(signals: u32) -> Option<(i32, int)> {
    if contains(signals, SIGINT) {
        Some((-2i32, 2))
    } else if contains(signals, SIGILL) {
        Some((-4i32, 4))
    } else if contains(signals, SIGABRT) {
        Some((-6i32, 6))
    } else if contains(signals, SIGFPE) {
        Some((-8i32, 8))
    } else if contains(signals, SIGKILL) {
        Some((-9i32, 9))
    } else if contains(signals, SIGSTOP) {
        Some((-19i32, 19))
    } else if contains(signals, SIGSEGV) {
        Some((-11i32, 11))
    } else {
        None
    }
}

/// The exit code of a task whose pending set is `signals`, if one of
/// them ends it in error.
pub fn check_error(signals: u32) -> (r: Option<i32>)
    ensures
        r == (match error_of(signals) {
            Some((code, _)) => Some(code),
            None => None::<i32>,
        }),
{
    if signals & SIGINT == SIGINT {
        Some(-2)
    } else if signals & SIGILL == SIGILL {
        Some(-4)
    } else if signals & SIGABRT == SIGABRT {
        Some(-6)
    } else if signals & SIGFPE == SIGFPE {
        Some(-8)
    } else if signals & SIGKILL == SIGKILL {
        Some(-9)
    } else if signals & SIGSTOP == SIGSTOP {
        Some(-19)
    } else if signals & SIGSEGV == SIGSEGV {
        Some(-11)
    } else {
        None
    }
}

} // verus!
