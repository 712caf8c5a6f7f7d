//! Delivery of pending signals to a task before it returns to user mode.
use vstd::prelude::*;
use crate::signal::{contains, sig_bit, MAX_SIG, SIGCONT, SIGDEF, SIGKILL, SIGSTOP};
use crate::task::TaskControlBlockInner;
use crate::trap::{REG_A0};

verus! {

/// Whether the signal being handled masks `signal`.
pub open spec fn masked_by_handler(t: TaskControlBlockInner, signal: u32) -> bool {
    t.handling_sig != -1 && contains(t.signal_actions.table@[t.handling_sig as int].mask, signal)
}

/// Kill and stop cannot be masked.
pub open spec fn unmaskable(signal: u32) -> bool {
    signal == SIGKILL || signal == SIGSTOP
}

/// Signal `sig` is pending, is not the one being handled (a nested
/// delivery of that signal waits until its handler returns), and, unless
/// it is kill or stop, is neither masked nor masked by the one being
/// handled.
pub open spec fn deliverable(t: TaskControlBlockInner, sig: int) -> bool {
    &&& contains(t.signals, sig_bit(sig))
    &&& t.handling_sig != sig
    &&& (unmaskable(sig_bit(sig)) || (!contains(t.signal_mask, sig_bit(sig)) && !masked_by_handler(t, sig_bit(sig))))
}

/// Signals whose action the kernel takes itself.
pub open spec fn kernel_signal(signal: u32) -> bool {
    signal == SIGKILL || signal == SIGSTOP || signal == SIGCONT || signal == SIGDEF
}

/// The kernel's action on a delivered signal: continue thaws the task
/// (and is consumed), anything else, kill and stop included, marks it for
/// termination; the pending signal then gives its exit code.
pub open spec fn kernel_action(t: TaskControlBlockInner, signal: u32) -> TaskControlBlockInner {
    if signal == SIGCONT {
        TaskControlBlockInner { frozen: false, signals: t.signals ^ SIGCONT, ..t }
    } else {
        TaskControlBlockInner { killed: true, ..t }
    }
}

/// A delivered signal with a user handler: the context is saved, the task
/// resumes at the handler with the signal number in `a0`, and the signal
/// is being handled. Without a handler nothing happens here.
pub open spec fn user_action(t: TaskControlBlockInner, sig: int) -> TaskControlBlockInner {
    let handler = t.signal_actions.table@[sig].handler;
    if handler != 0 {
        TaskControlBlockInner {
            handling_sig: sig as isize,
            signals: t.signals ^ sig_bit(sig),
            trap_ctx_backup: Some(t.trap_cx),
            trap_cx: crate::trap::TrapContext {
                sepc: handler,
                x: vstd::array::spec_array_update(t.trap_cx.x, REG_A0 as int, sig as usize),
                ..t.trap_cx
            },
            ..t
        }
    } else {
        t
    }
}

/// One pass over the signals from `sig` up: kernel signals are acted on
/// in turn, and the first deliverable signal for the user ends the pass.
pub open spec fn pending_pass(t: TaskControlBlockInner, sig: int) -> TaskControlBlockInner
    decreases MAX_SIG + 1 - sig,
{
    if sig < 0 || sig > MAX_SIG {
        t
    } else if deliverable(t, sig) {
        if kernel_signal(sig_bit(sig)) {
            pending_pass(kernel_action(t, sig_bit(sig)), sig + 1)
        } else {
            user_action(t, sig)
        }
    } else {
        pending_pass(t, sig + 1)
    }
}

/// A pass keeps everything but the signal state, the frozen and killed
/// marks, and the trap context.
pub proof fn lemma_pass_keeps(t: TaskControlBlockInner, sig: int)
    requires
        t.signal_actions.wf(),
        -1 <= t.handling_sig <= MAX_SIG,
    ensures
        pending_pass(t, sig).memory_set == t.memory_set,
        pending_pass(t, sig).mailbox == t.mailbox,
        pending_pass(t, sig).signal_actions == t.signal_actions,
        pending_pass(t, sig).task_status == t.task_status,
        pending_pass(t, sig).children == t.children,
        pending_pass(t, sig).exit_code == t.exit_code,
        -1 <= pending_pass(t, sig).handling_sig <= MAX_SIG,
    decreases MAX_SIG + 1 - sig,
{
    if sig < 0 || sig > MAX_SIG {
    } else if deliverable(t, sig) {
        if kernel_signal(sig_bit(sig)) {
            lemma_pass_keeps(kernel_action(t, sig_bit(sig)), sig + 1);
        }
    } else {
        lemma_pass_keeps(t, sig + 1);
    }
}

proof fn lemma_bits_apart(k: u32, s: u32)
    requires
        k < 32,
        s < 32,
        (1u32 << k) & (1u32 << s) == (1u32 << s),
    ensures
        s == k,
{
    assert(s == k) by (bit_vector)
        requires
            k < 32u32,
            s < 32u32,
            (1u32 << k) & (1u32 << s) == (1u32 << s);
}

/// With signal `k` alone pending and deliverable, and it not one the
/// kernel acts on itself, a pass from `sig` up to `k` delivers it to the
/// user handler.
pub proof fn lemma_single_signal(t: TaskControlBlockInner, k: int, sig: int)
    requires
        0 <= k <= MAX_SIG,
        0 <= sig <= k,
        t.signals == sig_bit(k),
        deliverable(t, k),
        !kernel_signal(sig_bit(k)),
    ensures
        pending_pass(t, sig) == user_action(t, k),
    decreases k - sig,
{
    if sig < k {
        if deliverable(t, sig) {
            lemma_bits_apart(k as u32, sig as u32);
        }
        lemma_single_signal(t, k, sig + 1);
    }
}

/// Delivers the pending signals of `t` for one pass.
pub fn check_pending_signals(t: &mut TaskControlBlockInner)
    requires
        old(t).signal_actions.wf(),
        -1 <= old(t).handling_sig <= MAX_SIG,
    ensures
        *final(t) == pending_pass(*old(t), 0),
{
    let mut sig: usize = 0;
    while sig <= MAX_SIG
        invariant
            sig <= MAX_SIG + 1,
            pending_pass(*t, sig as int) == pending_pass(*old(t), 0),
            t.signal_actions.wf(),
            -1 <= t.handling_sig <= MAX_SIG,
        decreases MAX_SIG + 1 - sig,
    {
        let signal: u32 = 1u32 << (sig as u32);
        let masked = if t.handling_sig == -1 {
            false
        } else {
            t.signal_actions.table[t.handling_sig as usize].mask & signal == signal
        };
        let unmaskable = signal == SIGKILL || signal == SIGSTOP;
        if t.signals & signal == signal && t.handling_sig != sig as isize
            && (unmaskable || (t.signal_mask & signal != signal && !masked)) {
            if signal == SIGKILL || signal == SIGSTOP || signal == SIGCONT || signal == SIGDEF {
                if signal == SIGCONT {
                    t.frozen = false;
                    t.signals = t.signals ^ SIGCONT;
                } else {
                    t.killed = true;
                }
            } else {
                let handler = t.signal_actions.table[sig].handler;
                if handler != 0 {
                    t.handling_sig = sig as isize;
                    t.signals = t.signals ^ signal;
                    t.trap_ctx_backup = Some(t.trap_cx);
                    t.trap_cx.sepc = handler;
                    let ghost x0 = t.trap_cx.x;
                    t.trap_cx.x[REG_A0] = sig;
                    assert(t.trap_cx.x =~= vstd::array::spec_array_update(x0, REG_A0 as int, sig as usize));
                }
                return;
            }
        }
        sig += 1;
    }
}

} // verus!
