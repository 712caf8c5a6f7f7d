//! The kernel's state: physical memory, the process table, the ready
//! queue and the running task; the scheduler's moves, and the process
//! lifecycle as system calls see it.
use vstd::prelude::*;
use crate::frame::{PhysMemory, FRAME_FREE, FRAME_RESERVED};
use crate::manager::{next_stride, TaskManager};
use crate::memory_set::{image_areas, image_fits, lemma_wf_in_stable, pages_upto, ExecImage};
use crate::task::{args_size, USER_STACK_SIZE};
use crate::signal::{check_sigaction_error, contains, sig_bit, SignalAction, MAX_SIG};
use crate::sigdeliver::{check_pending_signals, deliverable, kernel_signal, lemma_pass_keeps, lemma_single_signal, pending_pass, user_action};
use crate::memory_set::{MemorySet, MapArea, TRAMPOLINE_VPN};
use crate::page_table::lookup;
use crate::mail::Mail;
use crate::config::{MAIL_BUFFER_SIZE, MAIL_MAXLEN, PAGE_SIZE};
use crate::usermem::{map_perm_of, UserMapPermission};
use crate::trap::{classify_trap, kind_of, raw_trap_of, TrapKind, REG_A0, REG_SYSCALL_ID};
use crate::signal::{check_error, error_of, SIGILL, SIGSEGV, UNMASKABLE};
use crate::word::{le_seq, le_val, from_le};
use crate::task::{TaskControlBlock, TaskStatus, MAX_PID};
use crate::word::to_le;
use crate::trap::TrapContext;

verus! {

/// Process id of the first process, which adopts orphans.
pub const INITPROC_PID: usize = 0;

/// A program bundled with the kernel, found by name.
pub struct App {
    pub name: Vec<u8>,
    pub image: ExecImage,
}

/// Task `t` is process `p`, its address space is well formed in `mem`
/// under a tag below `next_tag`, and its mailbox and signal table are
/// well formed.
pub open spec fn task_ok(t: TaskControlBlock, p: int, mem: PhysMemory, next_tag: usize) -> bool {
    &&& t.pid == p
    &&& t.inner.memory_set.wf_in(&mem)
    &&& FRAME_FREE < t.inner.memory_set.owner() < next_tag
    &&& t.inner.mailbox.wf()
    &&& t.inner.signal_actions.wf()
    &&& -1 <= t.inner.handling_sig <= MAX_SIG
}

pub open spec fn tasks_ok(tasks: Seq<Option<TaskControlBlock>>, mem: PhysMemory, next_tag: usize) -> bool {
    forall|p: int| 0 <= p < tasks.len() && (#[trigger] tasks[p]) is Some ==> task_ok(tasks[p]->Some_0, p, mem, next_tag)
}

pub open spec fn tags_distinct(tasks: Seq<Option<TaskControlBlock>>) -> bool {
    forall|p: int, q: int| 0 <= p < tasks.len() && 0 <= q < tasks.len() && p != q
        && (#[trigger] tasks[p]) is Some && (#[trigger] tasks[q]) is Some
        ==> tasks[p]->Some_0.inner.memory_set.owner() != tasks[q]->Some_0.inner.memory_set.owner()
}

/// Tasks stay well formed in memory that keeps the tags of every frame
/// that is not free, and does not tag more frames with their tags.
pub proof fn lemma_tasks_stable(tasks: Seq<Option<TaskControlBlock>>, m1: PhysMemory, m2: PhysMemory, next_tag: usize, gone: usize)
    requires
        tasks_ok(tasks, m1, next_tag),
        m2.wf(),
        m2.frame_count() == m1.frame_count(),
        forall|q: usize| q < m1.frame_count() && m1.owner(q) != FRAME_FREE && m1.owner(q) != gone
            ==> #[trigger] m2.owner(q) == m1.owner(q),
        forall|p: int| 0 <= p < tasks.len() && (#[trigger] tasks[p]) is Some ==> tasks[p]->Some_0.inner.memory_set.owner() != gone,
    ensures
        tasks_ok(tasks, m2, next_tag),
{
    assert forall|p: int| 0 <= p < tasks.len() && (#[trigger] tasks[p]) is Some implies task_ok(tasks[p]->Some_0, p, m2, next_tag) by {
        let ms = tasks[p]->Some_0.inner.memory_set;
        lemma_wf_in_stable(&ms, &m1, &m2);
    }
}

/// The kernel: physical memory, the process table indexed by process id,
/// the ready queue, the running task, the bundled programs, console
/// output not yet written out, and the clock.
pub struct Kernel {
    mem: PhysMemory,
    tasks: Vec<Option<TaskControlBlock>>,
    manager: TaskManager,
    current: Option<usize>,
    next_tag: usize,
    apps: Vec<App>,
    console: Vec<u8>,
    time_ms: usize,
    kernel_satp: u64,
    trap_handler: usize,
}

impl Kernel {
    pub closed spec fn table(&self) -> Seq<Option<TaskControlBlock>> {
        self.tasks@
    }

    pub closed spec fn running(&self) -> Option<usize> {
        self.current
    }

    pub closed spec fn memory(&self) -> PhysMemory {
        self.mem
    }

    pub closed spec fn ready(&self) -> Seq<usize> {
        self.manager.queue()
    }

    pub closed spec fn clock(&self) -> usize {
        self.time_ms
    }

    pub closed spec fn console_bytes(&self) -> Seq<u8> {
        self.console@
    }

    pub closed spec fn programs(&self) -> Seq<App> {
        self.apps@
    }

    /// In a well-formed kernel every task's address space is well formed
    /// in physical memory, and distinct tasks tag their frames apart.
    pub proof fn lemma_task_spaces(&self, pid: int)
        requires
            self.wf(),
            self.task(pid) is Some,
        ensures
            self.task(pid)->Some_0.inner.memory_set.wf_in(&self.memory()),
            self.task(pid)->Some_0.pid == pid,
            self.task(pid)->Some_0.inner.mailbox.wf(),
            forall|q: int| q != pid && (#[trigger] self.task(q)) is Some ==>
                self.task(q)->Some_0.inner.memory_set.owner() != self.task(pid)->Some_0.inner.memory_set.owner(),
    {
        assert(self.tasks@[pid] is Some);
        assert forall|q: int| q != pid && (#[trigger] self.task(q)) is Some implies
            self.task(q)->Some_0.inner.memory_set.owner() != self.task(pid)->Some_0.inner.memory_set.owner() by {
            assert(self.tasks@[q] is Some);
        }
    }

    /// Whether a fresh tag for an address space is left.
    pub closed spec fn tags_left(&self) -> bool {
        self.next_tag < FRAME_RESERVED - 1
    }

    /// Whether every process id is taken.
    pub open spec fn table_full(&self) -> bool {
        &&& self.table().len() == MAX_PID
        &&& forall|p: int| 0 <= p < MAX_PID ==> (#[trigger] self.table()[p]) is Some
    }

    /// The task with process id `pid`, if there is one.
    pub open spec fn task(&self, pid: int) -> Option<TaskControlBlock> {
        if 0 <= pid < self.table().len() {
            self.table()[pid]
        } else {
            None
        }
    }

    /// The running task.
    pub open spec fn cur_task(&self) -> Option<TaskControlBlock> {
        match self.running() {
            Some(p) => self.task(p as int),
            None => None,
        }
    }

    /// Every task is well formed under its own tag, tags are distinct,
    /// the running task exists and is running, and the queued tasks exist,
    /// are ready, and are queued once.
    pub closed spec fn wf(&self) -> bool {
        &&& self.mem.wf()
        &&& self.tasks@.len() <= MAX_PID
        &&& FRAME_FREE < self.next_tag < FRAME_RESERVED
        &&& tasks_ok(self.tasks@, self.mem, self.next_tag)
        &&& tags_distinct(self.tasks@)
        &&& self.current_ok()
        &&& self.queue_ok()
    }

    pub closed spec fn current_ok(&self) -> bool {
        self.current matches Some(p) ==> {
            &&& p < self.tasks@.len()
            &&& self.tasks@[p as int] is Some
            &&& self.tasks@[p as int]->Some_0.inner.task_status == TaskStatus::Running
        }
    }

    pub closed spec fn queue_ok(&self) -> bool {
        &&& forall|i: int| 0 <= i < self.manager.queue().len() ==> {
            &&& (#[trigger] self.manager.queue()[i]) < self.tasks@.len()
            &&& self.tasks@[self.manager.queue()[i] as int] is Some
            &&& self.tasks@[self.manager.queue()[i] as int]->Some_0.inner.task_status == TaskStatus::Ready
        }
        &&& forall|i: int, j: int| 0 <= i < j < self.manager.queue().len() ==> self.manager.queue()[i] != self.manager.queue()[j]
    }

    /// A kernel with `frame_count` frames of physical memory, the first
    /// reserved for the trampoline; `kernel_satp` and `trap_handler` go
    /// into every new trap context.
    pub fn new(frame_count: usize, kernel_satp: u64, trap_handler: usize) -> (r: Self)
        requires
            frame_count >= 1,
        ensures
            r.wf(),
            r.table() == Seq::<Option<TaskControlBlock>>::empty(),
            r.running() is None,
            r.ready() == Seq::<usize>::empty(),
            r.memory().frame_count() == frame_count,
            r.memory().free_count() == frame_count - 1,
    {
        let r = Kernel {
            mem: PhysMemory::new(1, frame_count),
            tasks: Vec::new(),
            manager: TaskManager::new(),
            current: None,
            next_tag: 1,
            apps: Vec::new(),
            console: Vec::new(),
            time_ms: 0,
            kernel_satp,
            trap_handler,
        };
        r
    }

    /// Registers a bundled program under `name`.
    pub fn add_app(&mut self, name: Vec<u8>, image: ExecImage)
        requires
            old(self).wf(),
        ensures
            final(self).wf(),
            final(self).programs() == old(self).programs().push((App { name, image })),
            final(self).table() == old(self).table(),
            final(self).running() == old(self).running(),
    {
        self.apps.push(App { name, image });
    }

    /// The position of the first program named `name`.
    pub fn find_app(&self, name: &Vec<u8>) -> (r: Option<usize>)
        ensures
            r matches Some(i) ==> i < self.programs().len() && self.programs()[i as int].name@ == name@
                && forall|j: int| 0 <= j < i ==> (#[trigger] self.programs()[j]).name@ != name@,
            r is None ==> forall|j: int| 0 <= j < self.programs().len() ==> (#[trigger] self.programs()[j]).name@ != name@,
    {
        let mut i: usize = 0;
        while i < self.apps.len()
            invariant
                i <= self.apps@.len(),
                forall|j: int| 0 <= j < i ==> (#[trigger] self.apps@[j]).name@ != name@,
            decreases self.apps@.len() - i,
        {
            if bytes_eq(&self.apps[i].name, name) {
                return Some(i);
            }
            i += 1;
        }
        None
    }

    /// The clock advances to `ms` milliseconds.
    pub fn tick(&mut self, ms: usize)
        ensures
            final(self).clock() == ms,
            final(self).table() == old(self).table(),
            final(self).running() == old(self).running(),
            final(self).wf() == old(self).wf(),
    {
        self.time_ms = ms;
    }

    /// Takes the console output written so far.
    pub fn take_console(&mut self) -> (r: Vec<u8>)
        requires
            old(self).wf(),
        ensures
            final(self).wf(),
            r@ == old(self).console_bytes(),
            final(self).console_bytes() == Seq::<u8>::empty(),
            final(self).table() == old(self).table(),
            final(self).running() == old(self).running(),
    {
        let mut out: Vec<u8> = Vec::new();
        std::mem::swap(&mut out, &mut self.console);
        out
    }

    /// Process id of the running task.
    pub fn current_pid(&self) -> (r: Option<usize>)
        ensures
            r == self.running(),
    {
        self.current
    }

    /// Status of process `pid`, if it exists.
    pub fn task_status(&self, pid: usize) -> (r: Option<TaskStatus>)
        ensures
            r == (match self.task(pid as int) {
                Some(t) => Some(t.inner.task_status),
                None => None::<TaskStatus>,
            }),
    {
        if pid < self.tasks.len() {
            match &self.tasks[pid] {
                Some(t) => Some(t.inner.task_status),
                None => None,
            }
        } else {
            None
        }
    }

    /// Exit code of process `pid`, if it exists.
    pub fn task_exit_code(&self, pid: usize) -> (r: Option<i32>)
        ensures
            r == (match self.task(pid as int) {
                Some(t) => Some(t.inner.exit_code),
                None => None::<i32>,
            }),
    {
        if pid < self.tasks.len() {
            match &self.tasks[pid] {
                Some(t) => Some(t.inner.exit_code),
                None => None,
            }
        } else {
            None
        }
    }

    /// Saved user registers of process `pid`, if it exists.
    pub fn trap_cx_of(&self, pid: usize) -> (r: Option<TrapContext>)
        ensures
            r == (match self.task(pid as int) {
                Some(t) => Some(t.inner.trap_cx),
                None => None::<TrapContext>,
            }),
    {
        if pid < self.tasks.len() {
            match &self.tasks[pid] {
                Some(t) => Some(t.inner.trap_cx),
                None => None,
            }
        } else {
            None
        }
    }

    /// The lowest process id without a task; `None` when all are taken.
    fn alloc_pid(&self) -> (r: Option<usize>)
        requires
            self.wf(),
        ensures
            r matches Some(p) ==> p < MAX_PID && p <= self.table().len()
                && (p < self.table().len() ==> self.table()[p as int] is None),
            r is None ==> self.table().len() == MAX_PID && forall|p: int| 0 <= p < MAX_PID ==> (#[trigger] self.table()[p]) is Some,
    {
        let mut p: usize = 0;
        while p < self.tasks.len()
            invariant
                p <= self.tasks@.len() <= MAX_PID,
                forall|q: int| 0 <= q < p ==> (#[trigger] self.tasks@[q]) is Some,
            decreases self.tasks@.len() - p,
        {
            if self.tasks[p].is_none() {
                return Some(p);
            }
            p += 1;
        }
        if p < MAX_PID {
            Some(p)
        } else {
            None
        }
    }
}

impl Kernel {
    /// Puts `pid` at the end of the ready queue.
    pub fn add_task(&mut self, pid: usize)
        requires
            old(self).wf(),
            old(self).task(pid as int) is Some,
            old(self).task(pid as int)->Some_0.inner.task_status == TaskStatus::Ready,
            !old(self).ready().contains(pid),
        ensures
            final(self).wf(),
            final(self).ready() == old(self).ready().push(pid),
            final(self).table() == old(self).table(),
            final(self).running() == old(self).running(),
            final(self).memory() == old(self).memory(),
    {
        self.manager.add(pid);
        proof {
            assert forall|i: int| 0 <= i < self.manager.queue().len() implies {
                &&& (#[trigger] self.manager.queue()[i]) < self.tasks@.len()
                &&& self.tasks@[self.manager.queue()[i] as int] is Some
                &&& self.tasks@[self.manager.queue()[i] as int]->Some_0.inner.task_status == TaskStatus::Ready
            } by {
                if i < old(self).manager.queue().len() {
                    assert(self.manager.queue()[i] == old(self).manager.queue()[i]);
                }
            }
            assert forall|i: int, j: int| 0 <= i < j < self.manager.queue().len() implies self.manager.queue()[i] != self.manager.queue()[j] by {
                if j == old(self).manager.queue().len() {
                    assert(old(self).manager.queue()[i] != pid);
                }
            }
        }
    }

    /// A tag no task holds yet.
    fn fresh_tag(&mut self) -> (r: Option<usize>)
        requires
            old(self).wf(),
        ensures
            final(self).wf(),
            final(self).table() == old(self).table(),
            final(self).running() == old(self).running(),
            final(self).ready() == old(self).ready(),
            final(self).memory() == old(self).memory(),
            final(self).programs() == old(self).programs(),
            r matches Some(t) ==> t != FRAME_FREE && t == old(self).next_tag && final(self).next_tag == t + 1,
            r matches Some(t) ==> forall|p: int| 0 <= p < final(self).table().len() && (#[trigger] final(self).table()[p]) is Some
                ==> final(self).table()[p]->Some_0.inner.memory_set.owner() < t,
            r is None ==> *final(self) == *old(self),
            r is None <==> !old(self).tags_left(),
    {
        if self.next_tag >= FRAME_RESERVED - 1 {
            return None;
        }
        let t = self.next_tag;
        self.next_tag = t + 1;
        proof {
            assert forall|p: int| 0 <= p < self.tasks@.len() && (#[trigger] self.tasks@[p]) is Some
                implies task_ok(self.tasks@[p]->Some_0, p, self.mem, self.next_tag) by {
                assert(task_ok(self.tasks@[p]->Some_0, p, self.mem, t));
            }
        }
        Some(t)
    }

    /// Takes out of the ready queue the task that runs first, and advances
    /// its stride by `BIG_STRIDE / priority`. When the queued strides lie
    /// within half the modulus, no queued task runs before the one taken.
    #[verifier::spinoff_prover]
    pub fn fetch_task(&mut self) -> (r: Option<usize>)
        requires
            old(self).wf(),
        ensures
            final(self).wf(),
            final(self).running() == old(self).running(),
            final(self).memory() == old(self).memory(),
            r is None <==> old(self).ready().len() == 0,
            r is None ==> *final(self) == *old(self),
            r matches Some(p) ==> exists|i: int| 0 <= i < old(self).ready().len() && old(self).ready()[i] == p
                && final(self).ready() == old(self).ready().remove(i),
            r matches Some(p) ==> !final(self).ready().contains(p),
            r matches Some(p) ==> {
                let t = old(self).task(p as int)->Some_0;
                &&& old(self).task(p as int) is Some
                &&& final(self).task(p as int) == Some(TaskControlBlock {
                    inner: crate::task::TaskControlBlockInner { stride: next_stride(t.inner.stride, t.inner.priority), ..t.inner },
                    ..t
                })
                &&& forall|q: int| q != p ==> #[trigger] final(self).task(q) == old(self).task(q)
                &&& final(self).table().len() == old(self).table().len()
                &&& forall|base: u8| #[trigger] crate::manager::in_window(old(self).ready_strides(), base) ==>
                    forall|j: int| 0 <= j < old(self).ready().len() ==>
                        !crate::manager::stride_before(#[trigger] old(self).ready_strides()[j], t.inner.stride)
            },
    {
        let n = self.manager.len();
        if n == 0 {
            return None;
        }
        let mut strides: Vec<u8> = Vec::new();
        let mut prios: Vec<u8> = Vec::new();
        let mut i: usize = 0;
        while i < n
            invariant
                self.wf(),
                n == self.manager.queue().len(),
                i <= n,
                strides@.len() == i,
                prios@.len() == i,
                forall|j: int| 0 <= j < i ==> #[trigger] strides@[j] == self.ready_strides()[j],
                forall|j: int| 0 <= j < i ==> #[trigger] prios@[j] == self.tasks@[self.manager.queue()[j] as int]->Some_0.inner.priority,
            decreases n - i,
        {
            let pid = self.manager.get(i);
            let (st, pr) = match &self.tasks[pid] {
                Some(t) => (t.inner.stride, t.inner.priority),
                None => { proof { assert(false); } (0, 0) },
            };
            strides.push(st);
            prios.push(pr);
            i += 1;
        }
        assert(strides@ =~= self.ready_strides());
        let (pid, new_stride) = self.manager.fetch(&strides, &prios).unwrap();
        let ghost k = choose|i: int| 0 <= i < old(self).manager.queue().len()
            && Some((pid, new_stride)) == Some((old(self).manager.queue()[i], next_stride(strides@[i], prios@[i])))
            && self.manager.queue() == old(self).manager.queue().remove(i)
            && forall|base: u8| #[trigger] crate::manager::in_window(strides@, base) ==>
                forall|j: int| 0 <= j < strides@.len() ==> !crate::manager::stride_before(#[trigger] strides@[j], strides@[i]);
        let mut t = self.tasks[pid].take().unwrap();
        t.inner.stride = new_stride;
        self.tasks.set(pid, Some(t));
        proof {
            let ot = old(self).tasks@[pid as int]->Some_0;
            assert(task_ok(ot, pid as int, self.mem, self.next_tag));
            assert forall|q: int| 0 <= q < self.tasks@.len() && (#[trigger] self.tasks@[q]) is Some
                implies task_ok(self.tasks@[q]->Some_0, q, self.mem, self.next_tag) by {
                if q != pid {
                    assert(self.tasks@[q] == old(self).tasks@[q]);
                }
            }
            assert forall|a: int, b: int| 0 <= a < self.tasks@.len() && 0 <= b < self.tasks@.len() && a != b
                && (#[trigger] self.tasks@[a]) is Some && (#[trigger] self.tasks@[b]) is Some
                implies self.tasks@[a]->Some_0.inner.memory_set.owner() != self.tasks@[b]->Some_0.inner.memory_set.owner() by {
                assert(old(self).tasks@[a] is Some && old(self).tasks@[b] is Some);
            }
            assert forall|i: int| 0 <= i < self.manager.queue().len() implies {
                &&& (#[trigger] self.manager.queue()[i]) < self.tasks@.len()
                &&& self.tasks@[self.manager.queue()[i] as int] is Some
                &&& self.tasks@[self.manager.queue()[i] as int]->Some_0.inner.task_status == TaskStatus::Ready
            } by {
                let oi = if i < k { i } else { i + 1 };
                assert(self.manager.queue()[i] == old(self).manager.queue()[oi]);
                assert(old(self).manager.queue()[oi] != old(self).manager.queue()[k as int]);
            }
            assert forall|i: int, j: int| 0 <= i < j < self.manager.queue().len() implies self.manager.queue()[i] != self.manager.queue()[j] by {
                let oi = if i < k { i } else { i + 1 };
                let oj = if j < k { j } else { j + 1 };
                assert(self.manager.queue()[i] == old(self).manager.queue()[oi]);
                assert(self.manager.queue()[j] == old(self).manager.queue()[oj]);
            }
            if self.current is Some {
                let c = self.current->Some_0;
                assert(old(self).tasks@[c as int]->Some_0.inner.task_status == TaskStatus::Running);
                assert(c != pid);
                assert(self.tasks@[c as int] == old(self).tasks@[c as int]);
            }
            assert forall|q: int| q != pid implies #[trigger] self.task(q) == old(self).task(q) by {
                if 0 <= q < self.tasks@.len() {
                    assert(self.tasks@[q] == old(self).tasks@[q]);
                }
            }
        }
        Some(pid)
    }

    /// The strides of the queued tasks, in queue order.
    pub open spec fn ready_strides(&self) -> Seq<u8> {
        strides_of(*self, self.ready())
    }

    /// When no task runs, the next ready one, if any, starts running.
    pub fn run_next(&mut self) -> (r: Option<usize>)
        requires
            old(self).wf(),
        ensures
            final(self).wf(),
            final(self).memory() == old(self).memory(),
            old(self).running() is Some ==> *final(self) == *old(self) && r == old(self).running(),
            old(self).running() is None && old(self).ready().len() == 0 ==> *final(self) == *old(self) && r is None,
            old(self).running() is None && old(self).ready().len() > 0 ==> r is Some && final(self).running() == r
                && final(self).task(r->Some_0 as int)->Some_0.inner.task_status == TaskStatus::Running
                && final(self).ready().len() == old(self).ready().len() - 1,
            final(self).table().len() == old(self).table().len(),
            old(self).running() is None && r is Some ==> old(self).ready().contains(r->Some_0)
                && forall|q: int| q != r->Some_0 ==> #[trigger] final(self).task(q) == old(self).task(q),
            old(self).running() is None && r is Some ==> exists|i: int| 0 <= i < old(self).ready().len()
                && old(self).ready()[i] == r->Some_0 && final(self).ready() == old(self).ready().remove(i),
            old(self).running() is None && r is Some ==>
                final(self).task(r->Some_0 as int)->Some_0.inner.parent == old(self).task(r->Some_0 as int)->Some_0.inner.parent
                && final(self).task(r->Some_0 as int)->Some_0.inner.children == old(self).task(r->Some_0 as int)->Some_0.inner.children,
            forall|q: int| (#[trigger] final(self).task(q) is Some) == (old(self).task(q) is Some),
            old(self).running() is None && r is Some ==> ({
                let p = r->Some_0;
                let t = old(self).task(p as int)->Some_0;
                &&& final(self).task(p as int)->Some_0.inner.stride == next_stride(t.inner.stride, t.inner.priority)
                &&& forall|base: u8| #[trigger] crate::manager::in_window(old(self).ready_strides(), base) ==>
                    forall|j: int| 0 <= j < old(self).ready().len() ==>
                        !crate::manager::stride_before(#[trigger] old(self).ready_strides()[j], t.inner.stride)
            }),
    {
        if self.current.is_some() {
            return self.current;
        }
        match self.fetch_task() {
            Some(pid) => {
                let ghost s1 = *self;
                let mut t = self.tasks[pid].take().unwrap();
                t.inner.task_status = TaskStatus::Running;
                self.tasks.set(pid, Some(t));
                self.current = Some(pid);
                proof {
                    self.lemma_same_tasks_but(s1, pid);
                    let i = choose|i: int| 0 <= i < old(self).ready().len() && old(self).ready()[i] == pid
                        && s1.ready() == old(self).ready().remove(i);
                    assert(old(self).ready().contains(pid));
                    assert forall|q: int| q != pid implies #[trigger] self.task(q) == old(self).task(q) by {
                        assert(s1.task(q) == old(self).task(q));
                        if 0 <= q < self.tasks@.len() {
                            assert(self.tasks@[q] == s1.tasks@[q]);
                        }
                    }
                }
                Some(pid)
            },
            None => None,
        }
    }

    /// The table equals that of `s1` but at `pid`, whose memory set is well
    /// formed under its old tag, whose mailbox and signal table are well
    /// formed, and whose status is that of `s1` unless `pid` runs: the
    /// kernel stays well formed.
    proof fn lemma_same_tasks_but(&self, s1: Kernel, pid: usize)
        requires
            s1.mem.wf() && s1.tasks@.len() <= MAX_PID && FRAME_FREE < s1.next_tag < FRAME_RESERVED,
            tasks_ok(s1.tasks@, self.mem, s1.next_tag) || tasks_ok(s1.tasks@, s1.mem, s1.next_tag),
            tags_distinct(s1.tasks@),
            self.mem.wf(),
            self.mem == s1.mem || forall|q: int| 0 <= q < s1.tasks@.len() && q != pid && (#[trigger] s1.tasks@[q]) is Some
                ==> task_ok(s1.tasks@[q]->Some_0, q, self.mem, s1.next_tag),
            self.next_tag == s1.next_tag,
            self.manager.queue() == s1.manager.queue(),
            self.tasks@.len() == s1.tasks@.len(),
            pid < self.tasks@.len(),
            self.tasks@[pid as int] is Some,
            task_ok(self.tasks@[pid as int]->Some_0, pid as int, self.mem, self.next_tag),
            s1.tasks@[pid as int] is Some ==> self.tasks@[pid as int]->Some_0.inner.memory_set.owner() == s1.tasks@[pid as int]->Some_0.inner.memory_set.owner(),
            s1.tasks@[pid as int] is None ==> forall|q: int| 0 <= q < s1.tasks@.len() && (#[trigger] s1.tasks@[q]) is Some
                ==> s1.tasks@[q]->Some_0.inner.memory_set.owner() != self.tasks@[pid as int]->Some_0.inner.memory_set.owner(),
            forall|q: int| 0 <= q < self.tasks@.len() && q != pid ==> #[trigger] self.tasks@[q] == s1.tasks@[q],
            s1.queue_ok() || (s1.tasks@[pid as int] is None && forall|i: int| 0 <= i < s1.manager.queue().len() ==> {
                &&& (#[trigger] s1.manager.queue()[i]) < s1.tasks@.len()
                &&& s1.tasks@[s1.manager.queue()[i] as int] is Some
                &&& s1.tasks@[s1.manager.queue()[i] as int]->Some_0.inner.task_status == TaskStatus::Ready
            } && forall|i: int, j: int| 0 <= i < j < s1.manager.queue().len() ==> s1.manager.queue()[i] != s1.manager.queue()[j]),
            s1.manager.queue().contains(pid) ==> self.tasks@[pid as int]->Some_0.inner.task_status == TaskStatus::Ready,
            self.current == s1.current || (self.current == Some(pid) && !s1.manager.queue().contains(pid)) || self.current is None,
            self.current == Some(pid) ==> self.tasks@[pid as int]->Some_0.inner.task_status == TaskStatus::Running,
            s1.current_ok() || self.current is None || self.current == Some(pid),
            (s1.current is Some && s1.current != Some(pid) && self.current == s1.current) ==> s1.current_ok(),
        ensures
            self.wf(),
    {
        assert forall|q: int| 0 <= q < self.tasks@.len() && (#[trigger] self.tasks@[q]) is Some
            implies task_ok(self.tasks@[q]->Some_0, q, self.mem, self.next_tag) by {
            if q != pid {
                assert(self.tasks@[q] == s1.tasks@[q]);
                if self.mem != s1.mem {
                    assert(task_ok(s1.tasks@[q]->Some_0, q, self.mem, s1.next_tag));
                } else {
                    assert(s1.tasks@[q] is Some);
                }
            }
        }
        assert forall|a: int, b: int| 0 <= a < self.tasks@.len() && 0 <= b < self.tasks@.len() && a != b
            && (#[trigger] self.tasks@[a]) is Some && (#[trigger] self.tasks@[b]) is Some
            implies self.tasks@[a]->Some_0.inner.memory_set.owner() != self.tasks@[b]->Some_0.inner.memory_set.owner() by {
            if a != pid && b != pid {
                assert(s1.tasks@[a] is Some && s1.tasks@[b] is Some);
            } else if a == pid {
                assert(self.tasks@[b] == s1.tasks@[b]);
                assert(s1.tasks@[b] is Some);
            } else {
                assert(self.tasks@[a] == s1.tasks@[a]);
                assert(s1.tasks@[a] is Some);
            }
        }
        assert forall|i: int| 0 <= i < self.manager.queue().len() implies {
            &&& (#[trigger] self.manager.queue()[i]) < self.tasks@.len()
            &&& self.tasks@[self.manager.queue()[i] as int] is Some
            &&& self.tasks@[self.manager.queue()[i] as int]->Some_0.inner.task_status == TaskStatus::Ready
        } by {
            assert(s1.manager.queue()[i] < s1.tasks@.len());
            if s1.manager.queue()[i] == pid {
                assert(s1.manager.queue().contains(pid));
            } else {
                assert(self.tasks@[s1.manager.queue()[i] as int] == s1.tasks@[s1.manager.queue()[i] as int]);
            }
        }
        if self.current is Some && self.current != Some(pid) {
            let c = self.current->Some_0;
            assert(self.tasks@[c as int] == s1.tasks@[c as int]);
        }
    }

    /// The running task becomes ready again, goes to the end of the ready
    /// queue, and the next task runs.
    #[verifier::spinoff_prover]
    pub fn suspend_current_and_run_next(&mut self)
        requires
            old(self).wf(),
            old(self).running() is Some,
        ensures
            final(self).wf(),
            suspend_post(*old(self), *final(self)),
    {
        let pid = self.current.unwrap();
        let ghost s1 = *self;
        let mut t = self.tasks[pid].take().unwrap();
        t.inner.task_status = TaskStatus::Ready;
        self.tasks.set(pid, Some(t));
        self.current = None;
        proof {
            assert(!s1.manager.queue().contains(pid)) by {
                if s1.manager.queue().contains(pid) {
                    let i = choose|i: int| 0 <= i < s1.manager.queue().len() && s1.manager.queue()[i] == pid;
                }
            }
            self.lemma_same_tasks_but(s1, pid);
        }
        self.add_task(pid);
        let ghost s2 = *self;
        let next = self.run_next();
        proof {
            let n = next->Some_0;
            assert(s2.ready() == old(self).ready().push(pid));
            assert forall|q: int| #[trigger] s2.task(q) is Some == old(self).task(q) is Some by {
                if 0 <= q < s2.tasks@.len() && q != pid { assert(s2.tasks@[q] == old(self).tasks@[q]); }
            }
            assert forall|q: int| s2.task(q) is Some implies #[trigger] s2.task(q)->Some_0.inner.stride == old(self).task(q)->Some_0.inner.stride
                && s2.task(q)->Some_0.inner.priority == old(self).task(q)->Some_0.inner.priority by {
                if 0 <= q < s2.tasks@.len() && q != pid { assert(s2.tasks@[q] == old(self).tasks@[q]); }
            }
            assert(s2.ready_strides() =~= strides_of(*old(self), old(self).ready().push(pid)));
            if n != pid {
                let j = choose|j: int| 0 <= j < s2.ready().len() && s2.ready()[j] == n
                    && self.ready() == s2.ready().remove(j);
                let last = s2.ready().len() - 1;
                assert(s2.ready()[last] == pid);
                assert(j != last);
                assert(j < old(self).ready().len());
                assert(old(self).ready()[j] == n);
                assert(self.ready()[last - 1] == pid);
                assert(self.task(pid as int) == s2.task(pid as int));
            }
        }
    }
}

impl Kernel {
    /// Puts task `t` into the free slot `pid`; the table grows when `pid`
    /// is its length.
    fn place_task(&mut self, pid: usize, t: TaskControlBlock)
        requires
            old(self).mem.wf(),
            old(self).tasks@.len() <= MAX_PID,
            FRAME_FREE < old(self).next_tag < FRAME_RESERVED,
            tasks_ok(old(self).tasks@, old(self).mem, old(self).next_tag),
            tags_distinct(old(self).tasks@),
            old(self).current_ok(),
            old(self).queue_ok(),
            pid < MAX_PID,
            pid <= old(self).tasks@.len(),
            pid < old(self).tasks@.len() ==> old(self).tasks@[pid as int] is None,
            task_ok(t, pid as int, old(self).mem, old(self).next_tag),
            forall|p: int| 0 <= p < old(self).tasks@.len() && (#[trigger] old(self).tasks@[p]) is Some
                ==> old(self).tasks@[p]->Some_0.inner.memory_set.owner() != t.inner.memory_set.owner(),
        ensures
            final(self).wf(),
            final(self).table() == if pid == old(self).tasks@.len() { old(self).table().push(Some(t)) } else { old(self).table().update(pid as int, Some(t)) },
            final(self).running() == old(self).running(),
            final(self).ready() == old(self).ready(),
            final(self).memory() == old(self).memory(),
            final(self).programs() == old(self).programs(),
            final(self).next_tag == old(self).next_tag,
    {
        let ghost tt = t;
        if pid == self.tasks.len() {
            self.tasks.push(Some(t));
        } else {
            self.tasks.set(pid, Some(t));
        }
        proof {
            assert forall|q: int| 0 <= q < self.tasks@.len() && (#[trigger] self.tasks@[q]) is Some
                implies task_ok(self.tasks@[q]->Some_0, q, self.mem, self.next_tag) by {
                if q != pid {
                    assert(self.tasks@[q] == old(self).tasks@[q]);
                }
            }
            assert forall|a: int, b: int| 0 <= a < self.tasks@.len() && 0 <= b < self.tasks@.len() && a != b
                && (#[trigger] self.tasks@[a]) is Some && (#[trigger] self.tasks@[b]) is Some
                implies self.tasks@[a]->Some_0.inner.memory_set.owner() != self.tasks@[b]->Some_0.inner.memory_set.owner() by {
                if a != pid && b != pid {
                    assert(old(self).tasks@[a] is Some && old(self).tasks@[b] is Some);
                } else if a == pid {
                    assert(self.tasks@[b] == old(self).tasks@[b]);
                } else {
                    assert(self.tasks@[a] == old(self).tasks@[a]);
                }
            }
            assert forall|i: int| 0 <= i < self.manager.queue().len() implies {
                &&& (#[trigger] self.manager.queue()[i]) < self.tasks@.len()
                &&& self.tasks@[self.manager.queue()[i] as int] is Some
                &&& self.tasks@[self.manager.queue()[i] as int]->Some_0.inner.task_status == TaskStatus::Ready
            } by {
                assert(old(self).manager.queue()[i] < old(self).tasks@.len());
                assert(self.manager.queue()[i] != pid);
                assert(self.tasks@[self.manager.queue()[i] as int] == old(self).tasks@[self.manager.queue()[i] as int]);
            }
            if self.current is Some {
                assert(self.current->Some_0 != pid);
                assert(self.tasks@[self.current->Some_0 as int] == old(self).tasks@[self.current->Some_0 as int]);
            }
        }
    }

    /// Starts the bundled program `name` as a new process with no parent,
    /// at the end of the ready queue; its process id, or `None`, with
    /// nothing changed but possibly the tag counter, when there is no such
    /// program, no free process id, or no room.
    pub fn add_initproc(&mut self, name: &Vec<u8>) -> (r: Option<usize>)
        requires
            old(self).wf(),
        ensures
            final(self).wf(),
            final(self).running() == old(self).running(),
            r is None ==> final(self).table() == old(self).table() && final(self).ready() == old(self).ready(),
            r matches Some(p) ==> {
                &&& old(self).task(p as int) is None
                &&& final(self).task(p as int) is Some
                &&& final(self).task(p as int)->Some_0.inner.parent is None
                &&& final(self).task(p as int)->Some_0.inner.task_status == TaskStatus::Ready
                &&& final(self).ready() == old(self).ready().push(p)
                &&& forall|q: int| q != p ==> #[trigger] final(self).task(q) == old(self).task(q)
            },
            (exists|i: int| 0 <= i < old(self).programs().len() && (#[trigger] old(self).programs()[i]).name@ == name@) || r is None,
            r is None ==> old(self).table_full() || !old(self).tags_left()
                || (forall|i: int| 0 <= i < old(self).programs().len() ==> (#[trigger] old(self).programs()[i]).name@ != name@)
                || (exists|i: int| 0 <= i < old(self).programs().len() && (#[trigger] old(self).programs()[i]).name@ == name@
                    && !(image_fits(old(self).programs()[i].image)
                        && 3 * pages_upto(image_areas(old(self).programs()[i].image), image_areas(old(self).programs()[i].image).len() as int) + 3
                            <= old(self).memory().free_count())),
    {
        let i = match self.find_app(name) {
            Some(i) => i,
            None => { return None; },
        };
        let pid = match self.alloc_pid() {
            Some(p) => p,
            None => { return None; },
        };
        let tag = match self.fresh_tag() {
            Some(t) => t,
            None => { return None; },
        };
        let ghost mem0 = self.mem;
        let t = match TaskControlBlock::new(&self.apps[i].image, &mut self.mem, pid, tag, self.kernel_satp, self.trap_handler) {
            Some(t) => t,
            None => { return None; },
        };
        proof {
            lemma_tasks_stable(self.tasks@, mem0, self.mem, self.next_tag, FRAME_FREE);
        }
        self.place_task(pid, t);
        self.add_task(pid);
        proof {
            assert forall|q: int| q != pid implies #[trigger] self.task(q) == old(self).task(q) by {
                if 0 <= q < old(self).tasks@.len() {
                    assert(self.tasks@[q] == old(self).tasks@[q]);
                }
            }
        }
        Some(pid)
    }
}

impl Kernel {
    /// The running task ends with `exit_code`: it becomes a zombie, its
    /// areas and their frames are released, its children are handed to the
    /// first process, and the next ready task runs.
    #[verifier::spinoff_prover]
    pub fn exit_current_and_run_next(&mut self, exit_code: i32)
        requires
            old(self).wf(),
            old(self).running() is Some,
        ensures
            final(self).wf(),
            ({
                let p = old(self).running()->Some_0 as int;
                &&& final(self).task(p) is Some
                &&& final(self).task(p)->Some_0.inner.task_status == TaskStatus::Zombie
                &&& final(self).task(p)->Some_0.inner.exit_code == exit_code
                &&& final(self).task(p)->Some_0.inner.children@ == Seq::<usize>::empty()
                &&& final(self).task(p)->Some_0.inner.memory_set.area_seq() == Seq::<crate::memory_set::MapArea>::empty()
            }),
            final(self).running() != old(self).running(),
            final(self).table().len() == old(self).table().len(),
            !final(self).ready().contains(old(self).running()->Some_0),
            ({
                let ms = old(self).task(old(self).running()->Some_0 as int)->Some_0.inner.memory_set;
                forall|v: usize| #[trigger] ms.covered(v) ==> final(self).memory().free().contains(ms.mapping()[v].ppn)
            }),
            ({
                let p = old(self).running()->Some_0;
                let kids = old(self).task(p as int)->Some_0.inner.children@;
                let np = if p != INITPROC_PID { Some(INITPROC_PID) } else { None::<usize> };
                &&& forall|c: usize| kids.contains(c) && c != p && #[trigger] old(self).task(c as int) is Some ==>
                    final(self).task(c as int) is Some && final(self).task(c as int)->Some_0.inner.parent == np
                &&& p != INITPROC_PID && old(self).task(INITPROC_PID as int) is Some ==>
                    forall|c: usize| kids.contains(c) && c != p && #[trigger] old(self).task(c as int) is Some ==>
                        final(self).task(INITPROC_PID as int)->Some_0.inner.children@.contains(c)
            }),
    {
        let pid = self.current.unwrap();
        let ghost s0 = *self;
        let mut t = self.tasks[pid].take().unwrap();
        t.inner.task_status = TaskStatus::Zombie;
        t.inner.exit_code = exit_code;
        let mut children: Vec<usize> = Vec::new();
        std::mem::swap(&mut children, &mut t.inner.children);
        let ghost mem0 = self.mem;
        proof {
            assert(task_ok(s0.tasks@[pid as int]->Some_0, pid as int, mem0, self.next_tag));
        }
        t.inner.memory_set.recycle_data_pages(&mut self.mem);
        let ghost m1 = self.mem;
        proof {
            let gone = t.inner.memory_set.owner();
            assert forall|p: int| 0 <= p < self.tasks@.len() && (#[trigger] self.tasks@[p]) is Some
                implies self.tasks@[p]->Some_0.inner.memory_set.owner() != gone by {
                assert(p != pid);
                assert(s0.tasks@[p] is Some && s0.tasks@[pid as int] is Some);
            }
            lemma_tasks_stable(self.tasks@, mem0, self.mem, self.next_tag, gone);
        }
        self.tasks.set(pid, Some(t));
        self.current = None;
        proof {
            self.lemma_same_tasks_but(s0, pid);
        }
        let ghost kids = children@;
        let ghost np = if pid != INITPROC_PID { Some(INITPROC_PID) } else { None::<usize> };
        assert(kids == s0.task(pid as int)->Some_0.inner.children@);
        let mut i: usize = 0;
        while i < children.len()
            invariant
                self.wf(),
                self.mem == m1,
                kids == children@,
                np == if pid != INITPROC_PID { Some(INITPROC_PID) } else { None::<usize> },
                forall|q: int| (#[trigger] self.task(q) is Some) == (s0.task(q) is Some),
                forall|j: int| 0 <= j < i && kids[j] != pid && #[trigger] s0.task(kids[j] as int) is Some ==>
                    self.task(kids[j] as int)->Some_0.inner.parent == np,
                pid != INITPROC_PID && s0.task(INITPROC_PID as int) is Some ==>
                    forall|j: int| 0 <= j < i && kids[j] != pid && #[trigger] s0.task(kids[j] as int) is Some ==>
                        self.task(INITPROC_PID as int)->Some_0.inner.children@.contains(kids[j]),
                pid < self.tasks@.len(),
                self.current is None,
                self.tasks@.len() == s0.tasks@.len(),
                self.tasks@[pid as int] is Some,
                self.tasks@[pid as int]->Some_0.inner.task_status == TaskStatus::Zombie,
                self.tasks@[pid as int]->Some_0.inner.exit_code == exit_code,
                self.tasks@[pid as int]->Some_0.inner.children@ == Seq::<usize>::empty(),
                self.tasks@[pid as int]->Some_0.inner.memory_set.area_seq() == Seq::<crate::memory_set::MapArea>::empty(),
            decreases children@.len() - i,
        {
            let c = children[i];
            let ghost sb = *self;
            if c != pid && c < self.tasks.len() && self.tasks[c].is_some() {
                let ghost s1 = *self;
                let mut ct = self.tasks[c].take().unwrap();
                ct.inner.parent = if pid != INITPROC_PID { Some(INITPROC_PID) } else { None };
                self.tasks.set(c, Some(ct));
                proof {
                    self.lemma_same_tasks_but(s1, c);
                    assert forall|q: int| q != c implies #[trigger] self.task(q) == s1.task(q) by {
                        if 0 <= q < self.tasks@.len() { assert(self.tasks@[q] == s1.tasks@[q]); }
                    }
                }
                if pid != INITPROC_PID && INITPROC_PID < self.tasks.len() && self.tasks[INITPROC_PID].is_some() {
                    let ghost s2 = *self;
                    let mut it = self.tasks[INITPROC_PID].take().unwrap();
                    it.inner.children.push(c);
                    self.tasks.set(INITPROC_PID, Some(it));
                    proof {
                        self.lemma_same_tasks_but(s2, INITPROC_PID);
                        assert forall|q: int| q != INITPROC_PID implies #[trigger] self.task(q) == s2.task(q) by {
                            if 0 <= q < self.tasks@.len() { assert(self.tasks@[q] == s2.tasks@[q]); }
                        }
                        assert(self.task(INITPROC_PID as int)->Some_0.inner.children@ == s2.task(INITPROC_PID as int)->Some_0.inner.children@.push(c));
                        assert forall|x: usize| s2.task(INITPROC_PID as int)->Some_0.inner.children@.contains(x)
                            implies self.task(INITPROC_PID as int)->Some_0.inner.children@.contains(x) by {
                            let k = choose|k: int| 0 <= k < s2.task(INITPROC_PID as int)->Some_0.inner.children@.len()
                                && s2.task(INITPROC_PID as int)->Some_0.inner.children@[k] == x;
                            assert(self.task(INITPROC_PID as int)->Some_0.inner.children@[k] == x);
                        }
                        assert(self.task(INITPROC_PID as int)->Some_0.inner.children@.contains(c)) by {
                            let l = s2.task(INITPROC_PID as int)->Some_0.inner.children@.len() as int;
                            assert(self.task(INITPROC_PID as int)->Some_0.inner.children@[l] == c);
                        }
                    }
                }
            }
            proof {
                assert forall|q: int| (#[trigger] self.task(q) is Some) == (s0.task(q) is Some) by {
                    assert(sb.task(q) is Some == s0.task(q) is Some);
                }
            }
            i += 1;
        }
        let ghost s3 = *self;
        proof {
            assert(!s3.manager.queue().contains(pid)) by {
                if s3.manager.queue().contains(pid) {
                    let i = choose|i: int| 0 <= i < s3.manager.queue().len() && s3.manager.queue()[i] == pid;
                }
            }
        }
        let next = self.run_next();
        proof {
            assert forall|c: usize| kids.contains(c) && c != pid && #[trigger] s0.task(c as int) is Some implies
                self.task(c as int) is Some && self.task(c as int)->Some_0.inner.parent == np by {
                let j = choose|j: int| 0 <= j < kids.len() && kids[j] == c;
                assert(s3.task(c as int)->Some_0.inner.parent == np);
            }
            if pid != INITPROC_PID && s0.task(INITPROC_PID as int) is Some {
                assert forall|c: usize| kids.contains(c) && c != pid && #[trigger] s0.task(c as int) is Some implies
                    self.task(INITPROC_PID as int)->Some_0.inner.children@.contains(c) by {
                    let j = choose|j: int| 0 <= j < kids.len() && kids[j] == c;
                    assert(s3.task(INITPROC_PID as int)->Some_0.inner.children@.contains(c));
                }
            }
            if next is Some {
                let i = choose|i: int| 0 <= i < s3.ready().len() && s3.ready()[i] == next->Some_0
                    && self.ready() == s3.ready().remove(i);
                if self.ready().contains(pid) {
                    let j = choose|j: int| 0 <= j < self.ready().len() && self.ready()[j] == pid;
                    let oj = if j < i { j } else { j + 1 };
                    assert(s3.ready()[oj] == pid);
                }
            }
        }
    }
}

/// The running task keeps its saved registers.
pub open spec fn keeps_caller_cx(pre: Kernel, post: Kernel) -> bool {
    let me = pre.running()->Some_0 as int;
    &&& post.task(me) is Some
    &&& post.task(me)->Some_0.inner.trap_cx == pre.task(me)->Some_0.inner.trap_cx
}

/// The strides of the tasks `q` names, in order.
pub open spec fn strides_of(k: Kernel, q: Seq<usize>) -> Seq<u8> {
    q.map_values(|p: usize|
        match k.task(p as int) {
            Some(t) => t.inner.stride,
            None => 0u8,
        })
}

/// Why loading the program named at `path` with the argument vector at
/// `args` for the running task of `k` is refused: the name or the
/// arguments cannot be read, no program has that name, no tag is left, or
/// the first program with that name does not fit, its arguments do not fit
/// the user stack, or memory is short of three frames per page plus three.
pub open spec fn load_refused(k: Kernel, path: usize, args: usize) -> bool {
    let ms = k.cur_task()->Some_0.inner.memory_set;
    let m = k.memory();
    ||| (forall|s: Seq<u8>| !#[trigger] ms.user_str_at(&m, path, s))
    ||| (forall|v: Seq<Vec<u8>>| !#[trigger] ms.user_args_at(&m, args, v))
    ||| (exists|s: Seq<u8>| #[trigger] ms.user_str_at(&m, path, s)
        && forall|i: int| 0 <= i < k.programs().len() ==> (#[trigger] k.programs()[i]).name@ != s)
    ||| !k.tags_left()
    ||| (exists|i: int, v: Seq<Vec<u8>>| 0 <= i < k.programs().len()
        && ms.user_str_at(&m, path, (#[trigger] k.programs()[i]).name@)
        && #[trigger] ms.user_args_at(&m, args, v)
        && !(image_fits(k.programs()[i].image) && args_size(v) <= USER_STACK_SIZE
            && 3 * pages_upto(image_areas(k.programs()[i].image), image_areas(k.programs()[i].image).len() as int) + 3
                <= m.free_count()))
}

/// What `Kernel::sys_write` leaves behind.
pub open spec fn write_post(pre: Kernel, post: Kernel, fd: usize, buf: usize, len: usize, r: isize) -> bool {
    &&& keeps_caller_cx(pre, post)
    &&& post.running() == pre.running()
    &&& post.table() == pre.table()
    &&& ({
                let ms = pre.cur_task()->Some_0.inner.memory_set;
                let ok = fd == FD_STDOUT && len <= isize::MAX && ms.user_range_ok(buf, len);
                &&& ok ==> r == len && post.console_bytes().len() == pre.console_bytes().len() + len
                    && post.console_bytes().take(pre.console_bytes().len() as int) == pre.console_bytes()
                    && crate::task::holds_bytes(ms, pre.memory(), buf as int,
                        post.console_bytes().skip(pre.console_bytes().len() as int))
                &&& !ok ==> r == -1 && post.console_bytes() == pre.console_bytes()
            })
}

/// What `Kernel::sys_exit` leaves behind.
pub open spec fn exit_post(pre: Kernel, post: Kernel, exit_code: i32) -> bool {
    &&& post.task(pre.running()->Some_0 as int) is Some
    &&& post.task(pre.running()->Some_0 as int)->Some_0.inner.task_status == TaskStatus::Zombie
    &&& post.task(pre.running()->Some_0 as int)->Some_0.inner.exit_code == exit_code
    &&& post.task(pre.running()->Some_0 as int)->Some_0.inner.children@ == Seq::<usize>::empty()
    &&& post.task(pre.running()->Some_0 as int)->Some_0.inner.memory_set.area_seq() == Seq::<MapArea>::empty()
    &&& ({
        let ms = pre.task(pre.running()->Some_0 as int)->Some_0.inner.memory_set;
        forall|v: usize| #[trigger] ms.covered(v) ==> post.memory().free().contains(ms.mapping()[v].ppn)
    })
    &&& !post.ready().contains(pre.running()->Some_0)
    &&& post.running() != pre.running()
    &&& ({
        let p = pre.running()->Some_0;
        let kids = pre.task(p as int)->Some_0.inner.children@;
        let np = if p != INITPROC_PID { Some(INITPROC_PID) } else { None::<usize> };
        &&& forall|c: usize| kids.contains(c) && c != p && #[trigger] pre.task(c as int) is Some ==>
            post.task(c as int) is Some && post.task(c as int)->Some_0.inner.parent == np
        &&& p != INITPROC_PID && pre.task(INITPROC_PID as int) is Some ==>
            forall|c: usize| kids.contains(c) && c != p && #[trigger] pre.task(c as int) is Some ==>
                post.task(INITPROC_PID as int)->Some_0.inner.children@.contains(c)
    })
}

/// What `Kernel::sys_yield` leaves behind.
pub open spec fn yield_post(pre: Kernel, post: Kernel, r: isize) -> bool {
    &&& r == 0
    &&& suspend_post(pre, post)
}

/// What `Kernel::sys_kill` leaves behind.
pub open spec fn kill_post(pre: Kernel, post: Kernel, pid: usize, signum: i32, r: isize) -> bool {
    &&& post.running() == pre.running()
    &&& post.ready() == pre.ready()
    &&& !pre.alive(pid) ==> r == -2
    &&& pre.alive(pid) && !(0 <= signum <= MAX_SIG) ==> r == -1
    &&& pre.alive(pid) && 0 <= signum <= MAX_SIG && contains(pre.task(pid as int)->Some_0.inner.signals, sig_bit(signum as int)) ==> r == -1
    &&& r != 0 ==> post == pre
    &&& r == 0 <==> pre.alive(pid) && 0 <= signum <= MAX_SIG
                && !contains(pre.task(pid as int)->Some_0.inner.signals, sig_bit(signum as int))
    &&& r == 0 ==> ({
                let t = pre.task(pid as int)->Some_0;
                &&& post.task(pid as int) == Some(TaskControlBlock {
                    inner: crate::task::TaskControlBlockInner { signals: t.inner.signals | sig_bit(signum as int), ..t.inner },
                    ..t
                })
                &&& forall|q: int| q != pid ==> #[trigger] post.task(q) == pre.task(q)
            })
}

/// What `Kernel::sys_sigaction` leaves behind.
pub open spec fn sigaction_post(pre: Kernel, post: Kernel, signum: i32, action: usize, old_action: usize, r: isize) -> bool {
    &&& keeps_caller_cx(pre, post)
    &&& post.running() == pre.running()
    &&& ({
                let me = pre.running()->Some_0 as int;
                let t = pre.task(me)->Some_0;
                let ms = t.inner.memory_set;
                let ok = 0 <= signum <= MAX_SIG
                    && !(action == 0 || old_action == 0 || sig_bit(signum as int) == crate::signal::SIGKILL
                        || sig_bit(signum as int) == crate::signal::SIGSTOP)
                    && user_action_at(ms, pre.memory(), action) is Some
                    && ms.user_range_ok(old_action, 16);
                &&& r == 0 <==> ok
                &&& r != 0 ==> r == -1 && post.table() == pre.table() && post.memory() == pre.memory()
                &&& r == 0 ==> {
                    let nt = post.task(me)->Some_0;
                    &&& nt.inner.signal_actions.table@ == t.inner.signal_actions.table@.update(signum as int,
                        user_action_at(ms, pre.memory(), action)->Some_0)
                    &&& crate::task::holds_bytes(nt.inner.memory_set, post.memory(), old_action as int,
                        action_bytes(t.inner.signal_actions.table@[signum as int]))
                    &&& nt.inner.memory_set == ms
                    &&& nt.inner.handling_sig == t.inner.handling_sig
                }
                &&& forall|q: int| q != me ==> #[trigger] post.task(q) == pre.task(q)
            })
}

/// What `Kernel::sys_sigprocmask` leaves behind.
pub open spec fn sigprocmask_post(pre: Kernel, post: Kernel, mask: u32, r: isize) -> bool {
    &&& post.running() == pre.running()
    &&& ({
                let me = pre.running()->Some_0 as int;
                let t = pre.task(me)->Some_0;
                &&& r == t.inner.signal_mask as isize
                &&& post.task(me) == Some(TaskControlBlock {
                    inner: crate::task::TaskControlBlockInner { signal_mask: mask & !UNMASKABLE, ..t.inner },
                    ..t
                })
                &&& forall|q: int| q != me ==> #[trigger] post.task(q) == pre.task(q)
            })
}

/// What `Kernel::sys_sigreturn` leaves behind.
pub open spec fn sigreturn_post(pre: Kernel, post: Kernel, r: isize) -> bool {
    &&& post.running() == pre.running()
    &&& ({
                let me = pre.running()->Some_0 as int;
                let t = pre.task(me)->Some_0;
                &&& t.inner.trap_ctx_backup is None ==> r == -1 && post == pre
                &&& t.inner.trap_ctx_backup matches Some(b) ==> {
                    &&& r == (#[verifier::truncate] (b.x@[crate::trap::REG_A0 as int] as isize))
                    &&& post.task(me) == Some(TaskControlBlock {
                        inner: crate::task::TaskControlBlockInner { handling_sig: -1isize, trap_cx: b, ..t.inner },
                        ..t
                    })
                }
                &&& forall|q: int| q != me ==> #[trigger] post.task(q) == pre.task(q)
            })
}

/// What `Kernel::sys_set_priority` leaves behind.
pub open spec fn set_priority_post(pre: Kernel, post: Kernel, prio: u8, r: isize) -> bool {
    &&& post.running() == pre.running()
    &&& prio < 2 ==> r == -1 && post == pre
    &&& prio >= 2 ==> r == 0 && ({
                let me = pre.running()->Some_0 as int;
                let t = pre.task(me)->Some_0;
                &&& post.task(me) == Some(TaskControlBlock {
                    inner: crate::task::TaskControlBlockInner { priority: prio, ..t.inner },
                    ..t
                })
                &&& forall|q: int| q != me ==> #[trigger] post.task(q) == pre.task(q)
            })
}

/// What `Kernel::sys_get_time` leaves behind.
pub open spec fn get_time_post(pre: Kernel, post: Kernel, r: isize) -> bool {
    &&& r == pre.clock() as isize
}

/// What `Kernel::sys_getpid` leaves behind.
pub open spec fn getpid_post(pre: Kernel, post: Kernel, r: isize) -> bool {
    &&& r == pre.running()->Some_0
}

/// What `Kernel::sys_munmap` leaves behind.
pub open spec fn munmap_post(pre: Kernel, post: Kernel, start: usize, r: isize) -> bool {
    &&& post.running() == pre.running()
    &&& r == 0 || r == -1
    &&& keeps_caller_cx(pre, post)
    &&& ({
                let me = pre.running()->Some_0 as int;
                let o = pre.task(me)->Some_0.inner.memory_set;
                let n = post.task(me)->Some_0.inner.memory_set;
                let sv = (start / 4096usize) as usize;
                &&& r == 0 <==> exists|i: int| 0 <= i < o.area_seq().len() && (#[trigger] o.area_seq()[i]).start_vpn == sv
                &&& r == -1 ==> post.table() == pre.table()
                &&& r == 0 ==> exists|i: int| 0 <= i < o.area_seq().len() && (#[trigger] o.area_seq()[i]).start_vpn == sv
                    && n.area_seq() == o.area_seq().remove(i)
                    && forall|v: usize| #[trigger] n.mapping().contains_key(v)
                        == (o.mapping().contains_key(v) && !crate::memory_set::covers(o.area_seq()[i], v))
                &&& forall|v: usize| #[trigger] n.mapping().contains_key(v) ==> n.mapping()[v] == o.mapping()[v]
            })
    &&& forall|p: int| p != pre.running()->Some_0 ==> #[trigger] post.task(p) == pre.task(p)
}

/// What `Kernel::sys_fork` leaves behind.
pub open spec fn fork_post(pre: Kernel, post: Kernel, r: isize) -> bool {
    &&& keeps_caller_cx(pre, post)
    &&& post.running() == pre.running()
    &&& r == -1 || r >= 0
    &&& r == -1 ==> post.table() == pre.table() && post.ready() == pre.ready()
    &&& r == -1 ==> pre.table_full() || !pre.tags_left()
                || 3 * pre.cur_task()->Some_0.inner.memory_set.page_count() + 3 > pre.memory().free_count()
    &&& r >= 0 ==> {
                let me = pre.running()->Some_0 as int;
                let c = post.task(r as int)->Some_0;
                let p = pre.task(me)->Some_0;
                &&& pre.task(r as int) is None
                &&& post.task(r as int) is Some
                &&& c.inner.parent == Some(me as usize)
                &&& c.inner.task_status == TaskStatus::Ready
                &&& c.inner.memory_set.area_seq() == p.inner.memory_set.area_seq()
                &&& forall|a: usize| #[trigger] c.inner.memory_set.user_byte(&post.memory(), a)
                    == p.inner.memory_set.user_byte(&pre.memory(), a)
                &&& c.inner.trap_cx.x@ == p.inner.trap_cx.x@.update(crate::trap::REG_A0 as int, 0)
                &&& c.inner.trap_cx.sepc == p.inner.trap_cx.sepc
                &&& post.task(me)->Some_0.inner.children@ == p.inner.children@.push(r as usize)
                &&& post.ready() == pre.ready().push(r as usize)
            }
}

/// What `Kernel::sys_exec` leaves behind.
pub open spec fn exec_post(pre: Kernel, post: Kernel, path: usize, args: usize, r: isize) -> bool {
    &&& post.running() == pre.running()
    &&& post.programs() == pre.programs()
    &&& r == -1 || r >= 0
    &&& r == -1 ==> post.table() == pre.table()
    &&& r == -1 ==> load_refused(pre, path, args)
    &&& r >= 0 ==> {
                let me = pre.running()->Some_0 as int;
                let t = post.task(me)->Some_0;
                let o = pre.task(me)->Some_0;
                exists|i: int| 0 <= i < pre.programs().len()
                    && o.inner.memory_set.user_str_at(&pre.memory(), path, (#[trigger] pre.programs()[i]).name@)
                    && t.inner.memory_set.area_seq() == image_areas(pre.programs()[i].image)
                    && t.inner.trap_cx.sepc == pre.programs()[i].image.entry
                    && t.inner.trap_cx.x@[crate::trap::REG_A0 as int] == r
                    && t.inner.children == o.inner.children
                    && t.inner.fd_table == o.inner.fd_table
                    && t.inner.parent == o.inner.parent
                    && t.inner.signal_mask == o.inner.signal_mask
                    && exists|v: Seq<Vec<u8>>| #[trigger] o.inner.memory_set.user_args_at(&pre.memory(), args, v)
                        && r == v.len()
                        && crate::task::argv_placed(t.inner.memory_set, post.memory(), t.inner.trap_cx.x@[crate::trap::REG_A1 as int] as int, v)
            }
}

/// What `Kernel::sys_mmap` leaves behind.
pub open spec fn mmap_post(pre: Kernel, post: Kernel, start: usize, len: usize, prot: usize, r: isize) -> bool {
    &&& keeps_caller_cx(pre, post)
    &&& post.running() == pre.running()
    &&& r == 0 || r == -1
    &&& !(prot & !7usize == 0 && prot != 0) ==> r == -1
    &&& r == -1 ==> post.table() == pre.table() && post.memory() == pre.memory()
    &&& r == 0 ==> ({
                let me = pre.running()->Some_0 as int;
                let o = pre.task(me)->Some_0.inner.memory_set;
                let n = post.task(me)->Some_0.inner.memory_set;
                let sv = (start / 4096usize) as usize;
                let ev = ((start + len) / 4096int + if (start + len) % 4096int != 0 { 1int } else { 0int }) as usize;
                &&& sv < ev ==> n.area_seq() == o.area_seq().push((MapArea { start_vpn: sv, end_vpn: ev, perm: map_perm_of(prot) }))
                &&& sv < ev ==> (forall|v: usize| sv <= v < ev ==> #[trigger] n.mapping().contains_key(v)
                        && n.mapping()[v].flags == map_perm_of(prot) | crate::page_table::PTE_V)
                &&& sv < ev ==> (forall|v: usize| sv <= v < ev ==> !#[trigger] o.mapping().contains_key(v))
                &&& sv >= ev ==> post.table() == pre.table()
                &&& forall|v: usize| !(sv <= v < ev) ==> #[trigger] lookup(n.mapping(), v) == lookup(o.mapping(), v)
            })
    &&& ({
                let me = pre.running()->Some_0 as int;
                let o = pre.task(me)->Some_0.inner.memory_set;
                let sv = (start / 4096usize) as usize;
                let ev = ((start + len) / 4096int + if (start + len) % 4096int != 0 { 1int } else { 0int }) as usize;
                &&& (prot & !7usize == 0 && prot != 0 && start + len <= usize::MAX && sv >= ev) ==> r == 0
                &&& (prot & !7usize == 0 && prot != 0 && start + len <= usize::MAX && sv < ev && ev <= TRAMPOLINE_VPN
                    && (forall|v: usize| sv <= v < ev ==> !#[trigger] o.mapping().contains_key(v))
                    && 3 * (ev - sv) <= pre.memory().free_count()) ==> r == 0
            })
    &&& forall|p: int| p != pre.running()->Some_0 ==> #[trigger] post.task(p) == pre.task(p)
}

/// What `Kernel::sys_waitpid` leaves behind.
pub open spec fn waitpid_post(pre: Kernel, post: Kernel, pid: isize, exit_code_ptr: usize, r: isize) -> bool {
    &&& keeps_caller_cx(pre, post)
    &&& post.running() == pre.running()
    &&& ({
                let me = pre.running()->Some_0;
                let kids = pre.task(me as int)->Some_0.inner.children@;
                &&& r == -1 <==> forall|i: int| 0 <= i < kids.len() ==> !wait_matches(pid, #[trigger] kids[i])
                &&& r == -2 <==> (exists|i: int| 0 <= i < kids.len() && wait_matches(pid, #[trigger] kids[i]))
                    && forall|i: int| 0 <= i < kids.len() && wait_matches(pid, #[trigger] kids[i]) ==> !pre.is_zombie(kids[i])
                &&& r < 0 ==> post == pre
                &&& r >= 0 ==> exists|i: int| 0 <= i < kids.len() && r == kids[i]
                    && wait_matches(pid, kids[i]) && pre.is_zombie(kids[i])
                    && (forall|j: int| 0 <= j < i ==> !(wait_matches(pid, #[trigger] kids[j]) && pre.is_zombie(kids[j])))
                    && post.task(me as int)->Some_0.inner.children@ == kids.remove(i)
                    && post.task(kids[i] as int) is None
                &&& r == -1 || r == -2 || r >= 0
                &&& (exists|i: int| 0 <= i < kids.len() && wait_matches(pid, #[trigger] kids[i]) && pre.is_zombie(kids[i])) ==> r >= 0
                &&& r >= 0 ==> post.task(me as int)->Some_0.inner.memory_set == pre.task(me as int)->Some_0.inner.memory_set
                &&& r >= 0 && pre.task(me as int)->Some_0.inner.memory_set.user_range_ok(exit_code_ptr, 4) ==>
                    crate::task::holds_bytes(post.task(me as int)->Some_0.inner.memory_set, post.memory(),
                        exit_code_ptr as int, le_seq((pre.task(r as int)->Some_0.inner.exit_code as u32) as nat, 4))
            })
}

/// What `Kernel::sys_spawn` leaves behind.
pub open spec fn spawn_post(pre: Kernel, post: Kernel, path: usize, args: usize, r: isize) -> bool {
    &&& keeps_caller_cx(pre, post)
    &&& post.running() == pre.running()
    &&& r == -1 || r >= 0
    &&& r == -1 ==> post.table() == pre.table() && post.ready() == pre.ready()
    &&& r == -1 ==> load_refused(pre, path, args) || pre.table_full()
    &&& r >= 0 ==> {
                let me = pre.running()->Some_0 as int;
                let c = post.task(r as int)->Some_0;
                &&& pre.task(r as int) is None
                &&& post.task(r as int) is Some
                &&& c.inner.parent == Some(me as usize)
                &&& c.inner.task_status == TaskStatus::Ready
                &&& post.task(me)->Some_0.inner.children@ == pre.task(me)->Some_0.inner.children@.push(r as usize)
                &&& post.task(me) == Some(TaskControlBlock {
                    inner: crate::task::TaskControlBlockInner {
                        children: post.task(me)->Some_0.inner.children,
                        ..pre.task(me)->Some_0.inner
                    },
                    ..pre.task(me)->Some_0
                })
                &&& post.ready() == pre.ready().push(r as usize)
                &&& exists|i: int| 0 <= i < pre.programs().len()
                    && pre.task(me)->Some_0.inner.memory_set.user_str_at(&pre.memory(), path, (#[trigger] pre.programs()[i]).name@)
                    && c.inner.memory_set.area_seq() == image_areas(pre.programs()[i].image)
                    && c.inner.trap_cx.sepc == pre.programs()[i].image.entry
            }
}

/// What `Kernel::sys_mailread` leaves behind.
pub open spec fn mailread_post(pre: Kernel, post: Kernel, buf: usize, len: usize, r: isize) -> bool {
    &&& keeps_caller_cx(pre, post)
    &&& post.running() == pre.running()
    &&& ({
                let me = pre.running()->Some_0 as int;
                let t = pre.task(me)->Some_0;
                let q = t.inner.mailbox@;
                &&& len == 0 ==> (r == 0 <==> q.len() > 0) && (r == -1 <==> q.len() == 0)
                    && post.table() == pre.table() && post.memory() == pre.memory()
                &&& len > 0 && q.len() == 0 ==> r == -1 && post.table() == pre.table()
                    && post.memory() == pre.memory()
                &&& len > 0 && q.len() > 0 ==> {
                    let n = min3(q[0].len as int, len as int, MAIL_MAXLEN as int);
                    let ok = t.inner.memory_set.user_range_ok(buf, n as usize);
                    &&& ok ==> r == n
                        && post.task(me)->Some_0.inner.mailbox@ == q.drop_first()
                        && crate::task::holds_bytes(t.inner.memory_set, post.memory(), buf as int, q[0].content@.take(n))
                    &&& !ok ==> r == -1 && post.table() == pre.table()
                        && post.memory() == pre.memory()
                }
                &&& forall|p: int| p != me ==> #[trigger] post.task(p) == pre.task(p)
            })
}

/// What `Kernel::sys_mailwrite` leaves behind.
pub open spec fn mailwrite_post(pre: Kernel, post: Kernel, pid: usize, buf: usize, len: usize, r: isize) -> bool {
    &&& keeps_caller_cx(pre, post)
    &&& post.running() == pre.running()
    &&& post.memory() == pre.memory()
    &&& !pre.alive(pid) ==> r == -1
    &&& pre.alive(pid) && pre.task(pid as int)->Some_0.inner.mailbox@.len() == MAIL_BUFFER_SIZE ==> r == -1
    &&& r == -1 || len == 0 ==> post.table() == pre.table()
    &&& pre.alive(pid) && pre.task(pid as int)->Some_0.inner.mailbox@.len() < MAIL_BUFFER_SIZE && len > 0 ==> ({
                let me = pre.running()->Some_0 as int;
                let n = if len < MAIL_MAXLEN { len } else { MAIL_MAXLEN };
                let src = pre.task(me)->Some_0.inner.memory_set;
                &&& src.user_range_ok(buf, n) ==> r == n
                    && post.task(pid as int)->Some_0.inner.mailbox@.len() == pre.task(pid as int)->Some_0.inner.mailbox@.len() + 1
                    && post.task(pid as int)->Some_0.inner.mailbox@.last().len == n
                    && crate::task::holds_bytes(src, pre.memory(), buf as int,
                        post.task(pid as int)->Some_0.inner.mailbox@.last().content@.take(n as int))
                    && post.task(pid as int)->Some_0.inner.mailbox@.drop_last() == pre.task(pid as int)->Some_0.inner.mailbox@
                &&& !src.user_range_ok(buf, n) ==> r == -1
            })
    &&& pre.alive(pid) && pre.task(pid as int)->Some_0.inner.mailbox@.len() < MAIL_BUFFER_SIZE && len == 0 ==> r == 0
    &&& forall|p: int| p != pid ==> #[trigger] post.task(p) == pre.task(p)
}

/// What `Kernel::syscall` leaves behind: that of the system call `id`
/// names, on the arguments it takes from `args`; an unknown call gives -1
/// and changes nothing.
pub open spec fn syscall_post(pre: Kernel, post: Kernel, id: usize, args: [usize; 7], r: isize) -> bool {
    if id == SYSCALL_WRITE {
        write_post(pre, post, args@[0], args@[1], args@[2], r)
    } else if id == SYSCALL_EXIT {
        exit_post(pre, post, (#[verifier::truncate] (args@[0] as i32))) && r == 0
    } else if id == SYSCALL_YIELD {
        yield_post(pre, post, r)
    } else if id == SYSCALL_KILL {
        kill_post(pre, post, args@[0], (#[verifier::truncate] (args@[1] as i32)), r)
    } else if id == SYSCALL_SIGACTION {
        sigaction_post(pre, post, (#[verifier::truncate] (args@[0] as i32)), args@[1], args@[2], r)
    } else if id == SYSCALL_SIGPROCMASK {
        sigprocmask_post(pre, post, (#[verifier::truncate] (args@[0] as u32)), r)
    } else if id == SYSCALL_SIGRETURN {
        sigreturn_post(pre, post, r)
    } else if id == SYSCALL_SET_PRIORITY {
        set_priority_post(pre, post, (#[verifier::truncate] (args@[0] as u8)), r)
    } else if id == SYSCALL_GET_TIME {
        get_time_post(pre, post, r) && post == pre
    } else if id == SYSCALL_GETPID {
        getpid_post(pre, post, r) && post == pre
    } else if id == SYSCALL_MUNMAP {
        munmap_post(pre, post, args@[0], r)
    } else if id == SYSCALL_FORK {
        fork_post(pre, post, r)
    } else if id == SYSCALL_EXEC {
        exec_post(pre, post, args@[0], args@[1], r)
    } else if id == SYSCALL_MMAP {
        mmap_post(pre, post, args@[0], args@[1], args@[2], r)
    } else if id == SYSCALL_WAITPID {
        waitpid_post(pre, post, (#[verifier::truncate] (args@[0] as isize)), args@[1], r)
    } else if id == SYSCALL_SPAWN {
        spawn_post(pre, post, args@[0], args@[1], r)
    } else if id == SYSCALL_MAILREAD {
        mailread_post(pre, post, args@[0], args@[1], r)
    } else if id == SYSCALL_MAILWRITE {
        mailwrite_post(pre, post, args@[0], args@[1], args@[2], r)
    } else {
        r == -1 && post == pre
    }
}

/// What `Kernel::current_add_signal` leaves behind.
pub open spec fn add_signal_post(pre: Kernel, post: Kernel, signal: u32) -> bool {
    &&& post.running() == pre.running()
    &&& post.ready() == pre.ready()
    &&& ({
                let me = pre.running()->Some_0 as int;
                let t = pre.task(me)->Some_0;
                &&& post.task(me) == Some(TaskControlBlock {
                    inner: crate::task::TaskControlBlockInner { signals: t.inner.signals | signal, ..t.inner },
                    ..t
                })
                &&& forall|q: int| q != me ==> #[trigger] post.task(q) == pre.task(q)
            })
}

/// What `Kernel::suspend_current_and_run_next` leaves behind.
pub open spec fn suspend_post(pre: Kernel, post: Kernel) -> bool {
    &&& post.memory() == pre.memory()
    &&& post.running() is Some
    &&& post.table().len() == pre.table().len()
    &&& ({
                let me = pre.running()->Some_0;
                let next = post.running()->Some_0;
                &&& next == me || pre.ready().contains(next)
                &&& next != me ==> post.task(me as int)->Some_0.inner.task_status == TaskStatus::Ready
                    && post.ready().contains(me)
                &&& post.task(me as int) is Some
                &&& post.task(me as int)->Some_0.inner.stride == pre.task(me as int)->Some_0.inner.stride || next == me
            })
    &&& ({
        let me = pre.running()->Some_0;
        let next = post.running()->Some_0;
        let q = pre.ready().push(me);
        let st = strides_of(pre, q);
        let t = pre.task(next as int)->Some_0;
        &&& exists|i: int| 0 <= i < q.len() && q[i] == next && post.ready() == q.remove(i)
        &&& post.task(next as int)->Some_0.inner.stride == next_stride(t.inner.stride, t.inner.priority)
        &&& post.task(next as int)->Some_0.inner.task_status == TaskStatus::Running
        &&& forall|base: u8| #[trigger] crate::manager::in_window(st, base) ==>
            forall|j: int| 0 <= j < q.len() ==> !crate::manager::stride_before(#[trigger] st[j], t.inner.stride)
    })
}

/// What the way back to user mode leaves behind: the running task's
/// pending signals are delivered for one pass; then, unless the pass left
/// it frozen, a pending error signal ends it with that signal's exit code,
/// and otherwise it runs on in the state the pass gave it.
pub open spec fn signal_return_post(pre: Kernel, post: Kernel) -> bool {
    &&& pre.running() is None ==> post == pre
    &&& pre.running() matches Some(me) ==> {
        let t = pending_pass(pre.task(me as int)->Some_0.inner, 0);
        (!t.frozen || t.killed) ==> match error_of(t.signals) {
            Some((code, _)) => {
                &&& post.task(me as int) is Some
                &&& post.task(me as int)->Some_0.inner.task_status == TaskStatus::Zombie
                &&& post.task(me as int)->Some_0.inner.exit_code == code
                &&& post.running() != Some(me)
                &&& !post.ready().contains(me)
            },
            None => {
                &&& post.running() == Some(me)
                &&& post.task(me as int)->Some_0.inner == t
                &&& post.ready() == pre.ready()
                &&& post.memory() == pre.memory()
                &&& forall|q: int| q != me ==> #[trigger] post.task(q) == pre.task(q)
            },
        }
    }
}

/// `b` equals `a` but for the task `pid`.
pub closed spec fn same_but_task(a: Kernel, b: Kernel, pid: int) -> bool {
    &&& a.mem == b.mem
    &&& a.manager == b.manager
    &&& a.current == b.current
    &&& a.next_tag == b.next_tag
    &&& a.apps == b.apps
    &&& a.console == b.console
    &&& a.time_ms == b.time_ms
    &&& a.kernel_satp == b.kernel_satp
    &&& a.trap_handler == b.trap_handler
    &&& a.tasks@.len() == b.tasks@.len()
    &&& forall|q: int| q != pid ==> #[trigger] a.task(q) == b.task(q)
}

/// The address of the instruction after the one at `pc`.
pub open spec fn next_pc(pc: usize) -> usize {
    if pc <= usize::MAX - 4 { (pc + 4) as usize } else { (pc + 4 - usize::MAX - 1) as usize }
}

fn advance_pc(pc: usize) -> (r: usize)
    ensures
        r == next_pc(pc),
{
    if pc <= usize::MAX - 4 { pc + 4 } else { pc - (usize::MAX - 3) }
}

/// Task `t` with the saved registers `cx`.
pub open spec fn with_cx(t: TaskControlBlock, cx: TrapContext) -> TaskControlBlock {
    TaskControlBlock { inner: crate::task::TaskControlBlockInner { trap_cx: cx, ..t.inner }, ..t }
}

/// Entering a system call: the running task resumes after the call
/// instruction; nothing else changes.
pub open spec fn syscall_entry(pre: Kernel, k0: Kernel) -> bool {
    let me = pre.running()->Some_0 as int;
    let t = pre.task(me)->Some_0;
    &&& same_but_task(pre, k0, me)
    &&& k0.task(me) == Some(with_cx(t, TrapContext { sepc: next_pc(t.inner.trap_cx.sepc), ..t.inner.trap_cx }))
}

/// Leaving a system call that returned `res`: the caller, when still
/// alive, finds `res` in `a0`.
pub open spec fn syscall_result(k1: Kernel, k2: Kernel, me: int, res: isize) -> bool {
    if k1.alive(me as usize) {
        let t = k1.task(me)->Some_0;
        &&& same_but_task(k1, k2, me)
        &&& k2.task(me) == Some(with_cx(t, TrapContext {
            x: vstd::array::spec_array_update(t.inner.trap_cx.x, REG_A0 as int, (#[verifier::truncate] (res as usize))),
            ..t.inner.trap_cx
        }))
    } else {
        k2 == k1
    }
}

/// What handling the trap whose cause register reads `scause` does before
/// the way back to user mode: a system call runs on the call number and
/// arguments in the caller's registers; a memory fault makes segmentation
/// violation pending for the running task, an illegal instruction makes
/// illegal instruction pending; the timer preempts the running task.
pub open spec fn dispatch_post(pre: Kernel, mid: Kernel, scause: usize) -> bool {
    match kind_of(raw_trap_of(scause)) {
        TrapKind::Syscall => {
            let me = pre.running()->Some_0 as int;
            let x = pre.task(me)->Some_0.inner.trap_cx.x;
            exists|k0: Kernel, k1: Kernel, args: [usize; 7], res: isize|
                syscall_entry(pre, k0) && args@ == x@.subrange(10, 17)
                && #[trigger] syscall_post(k0, k1, x@[REG_SYSCALL_ID as int], args, res)
                && syscall_result(k1, mid, me, res)
        },
        TrapKind::MemoryFault => add_signal_post(pre, mid, SIGSEGV),
        TrapKind::IllegalInstruction => add_signal_post(pre, mid, SIGILL),
        TrapKind::Timer => suspend_post(pre, mid),
        TrapKind::Unsupported => mid == pre,
    }
}

/// A store or load fault in a task that has no other signal pending, is
/// handling none, and neither masks nor handles segmentation violation
/// ends that task: after the fault is raised and the task heads back to
/// user mode, it is a zombie with exit code -11, it no longer runs, and it
/// is out of the ready queue.
pub proof fn lemma_fault_ends_task(pre: Kernel, mid: Kernel, post: Kernel)
    requires
        pre.running() is Some,
        pre.cur_task() is Some,
        ({
            let t = pre.cur_task()->Some_0.inner;
            &&& t.signals == 0
            &&& !t.frozen
            &&& t.handling_sig == -1
            &&& !contains(t.signal_mask, SIGSEGV)
            &&& t.signal_actions.wf()
            &&& t.signal_actions.table@[11].handler == 0
        }),
        add_signal_post(pre, mid, SIGSEGV),
        signal_return_post(mid, post),
    ensures
        ({
            let me = pre.running()->Some_0;
            &&& post.task(me as int) is Some
            &&& post.task(me as int)->Some_0.inner.task_status == TaskStatus::Zombie
            &&& post.task(me as int)->Some_0.inner.exit_code == -11
            &&& post.running() != Some(me)
            &&& !post.ready().contains(me)
        }),
{
    let me = pre.running()->Some_0;
    let t = mid.task(me as int)->Some_0.inner;
    assert(t.signals == SIGSEGV) by {
        assert(0u32 | 2048u32 == 2048u32) by (bit_vector);
    }
    assert(sig_bit(11) == SIGSEGV) by {
        assert((1u32 << 11u32) == 2048u32) by (bit_vector);
    }
    assert(contains(SIGSEGV, SIGSEGV)) by {
        assert(2048u32 & 2048u32 == 2048u32) by (bit_vector);
    }
    assert(deliverable(t, 11));
    lemma_single_signal(t, 11, 0);
    assert(pending_pass(t, 0) == t);
    assert(error_of(SIGSEGV) == Some((-11i32, 11int))) by {
        assert(2048u32 & 4u32 != 4u32) by (bit_vector);
        assert(2048u32 & 16u32 != 16u32) by (bit_vector);
        assert(2048u32 & 64u32 != 64u32) by (bit_vector);
        assert(2048u32 & 256u32 != 256u32) by (bit_vector);
        assert(2048u32 & 512u32 != 512u32) by (bit_vector);
        assert(2048u32 & 524288u32 != 524288u32) by (bit_vector);
    }
}

/// A task heading back to user mode with exactly one signal `k` pending,
/// one the kernel does not act on itself, not masked, none being handled,
/// and a handler registered for it, resumes in the handler: the program
/// counter is the handler's, `a0` holds `k`, the context it left is saved,
/// and `k` is being handled.
pub proof fn lemma_handler_entered(mid: Kernel, post: Kernel, k: int)
    requires
        mid.running() is Some,
        mid.cur_task() is Some,
        0 <= k <= MAX_SIG,
        !kernel_signal(sig_bit(k)),
        ({
            let t = mid.cur_task()->Some_0.inner;
            &&& t.signals == sig_bit(k)
            &&& !t.frozen
            &&& t.handling_sig == -1
            &&& !contains(t.signal_mask, sig_bit(k))
            &&& t.signal_actions.wf()
            &&& t.signal_actions.table@[k].handler != 0
        }),
        signal_return_post(mid, post),
    ensures
        ({
            let me = mid.running()->Some_0;
            let t = mid.cur_task()->Some_0.inner;
            let n = post.task(me as int)->Some_0.inner;
            &&& post.running() == Some(me)
            &&& n.trap_cx.sepc == t.signal_actions.table@[k].handler
            &&& n.trap_cx.x@[REG_A0 as int] == k
            &&& n.trap_ctx_backup == Some(t.trap_cx)
            &&& n.handling_sig == k
        }),
{
    let me = mid.running()->Some_0;
    let t = mid.task(me as int)->Some_0.inner;
    assert(contains(sig_bit(k), sig_bit(k))) by {
        let b = sig_bit(k);
        assert(b & b == b) by (bit_vector);
    }
    assert(deliverable(t, k));
    lemma_single_signal(t, k, 0);
    let u = user_action(t, k);
    assert(u.signals == 0u32) by {
        let b = sig_bit(k);
        assert(b ^ b == 0u32) by (bit_vector);
    }
    assert(error_of(0u32) is None) by {
        assert(0u32 & 4u32 != 4u32) by (bit_vector);
        assert(0u32 & 16u32 != 16u32) by (bit_vector);
        assert(0u32 & 64u32 != 64u32) by (bit_vector);
        assert(0u32 & 256u32 != 256u32) by (bit_vector);
        assert(0u32 & 512u32 != 512u32) by (bit_vector);
        assert(0u32 & 524288u32 != 524288u32) by (bit_vector);
        assert(0u32 & 2048u32 != 2048u32) by (bit_vector);
    }
}

/// Whether a wait for `pid` (-1 for any) is a wait for child `c`.
pub open spec fn wait_matches(pid: isize, c: usize) -> bool {
    pid == -1 || (pid >= 0 && pid as int == c as int)
}

impl Kernel {
    /// Whether process `c` exists and is a zombie.
    pub open spec fn is_zombie(&self, c: usize) -> bool {
        self.task(c as int) is Some && self.task(c as int)->Some_0.inner.task_status == TaskStatus::Zombie
    }

    /// Waits for a child of the running task: `pid` names it, or is -1
    /// for any. -1 when no child matches; -2 when matching children exist
    /// but none has exited; else the first matching exited child is
    /// reaped: it leaves the children and the process table, its frames go
    /// back to memory, its exit code is stored at `exit_code_ptr` when that
    /// address is mapped, and its process id is returned.
    #[verifier::spinoff_prover]
    pub fn sys_waitpid(&mut self, pid: isize, exit_code_ptr: usize) -> (r: isize)
        requires
            old(self).wf(),
            old(self).running() is Some,
        ensures
            final(self).wf(),
            waitpid_post(*old(self), *final(self), pid, exit_code_ptr, r),
    {
        let me = self.current.unwrap();
        let ghost kids = self.tasks@[me as int]->Some_0.inner.children@;
        let n = match &self.tasks[me] {
            Some(t) => t.inner.children.len(),
            None => { proof { assert(false); } 0 },
        };
        let mut any = false;
        let mut i: usize = 0;
        while i < n
            invariant
                self.wf(),
                *self == *old(self),
                self.current == Some(me),
                kids == self.tasks@[me as int]->Some_0.inner.children@,
                n == kids.len(),
                i <= n,
                any == exists|j: int| 0 <= j < i && wait_matches(pid, #[trigger] kids[j]),
            decreases n - i,
        {
            let c = match &self.tasks[me] {
                Some(t) => t.inner.children[i],
                None => { proof { assert(false); } 0 },
            };
            if pid == -1 || (pid >= 0 && pid as usize == c) {
                any = true;
            }
            i += 1;
        }
        if !any {
            return -1;
        }
        let mut found: Option<usize> = None;
        let mut i: usize = 0;
        while i < n && found.is_none()
            invariant
                self.wf(),
                *self == *old(self),
                self.current == Some(me),
                kids == self.tasks@[me as int]->Some_0.inner.children@,
                n == kids.len(),
                i <= n,
                found is None ==> forall|j: int| 0 <= j < i ==> !(wait_matches(pid, #[trigger] kids[j]) && self.is_zombie(kids[j])),
                found matches Some(idx) ==> idx < n && wait_matches(pid, kids[idx as int]) && self.is_zombie(kids[idx as int])
                    && forall|j: int| 0 <= j < idx ==> !(wait_matches(pid, #[trigger] kids[j]) && self.is_zombie(kids[j])),
            decreases n - i,
        {
            let c = match &self.tasks[me] {
                Some(t) => t.inner.children[i],
                None => { proof { assert(false); } 0 },
            };
            if (pid == -1 || (pid >= 0 && pid as usize == c)) && c < self.tasks.len() {
                let z = match &self.tasks[c] {
                    Some(ct) => ct.inner.task_status == TaskStatus::Zombie,
                    None => false,
                };
                if z {
                    found = Some(i);
                }
            }
            i += 1;
        }
        let idx = match found {
            Some(idx) => idx,
            None => { return -2; },
        };
        let c = match &self.tasks[me] {
            Some(t) => t.inner.children[idx],
            None => { proof { assert(false); } 0 },
        };
        assert(c != me) by {
            assert(self.tasks@[me as int]->Some_0.inner.task_status == TaskStatus::Running);
        }
        let ghost s0 = *self;
        let child = self.tasks[c].take().unwrap();
        let code = child.inner.exit_code;
        let gone = child.inner.memory_set.page_table_owner_tag();
        proof {
            assert(task_ok(s0.tasks@[c as int]->Some_0, c as int, s0.mem, s0.next_tag));
        }
        let ghost mem0 = self.mem;
        self.mem.release_owned(gone);
        proof {
            assert forall|p: int| 0 <= p < self.tasks@.len() && (#[trigger] self.tasks@[p]) is Some
                implies self.tasks@[p]->Some_0.inner.memory_set.owner() != gone by {
                assert(p != c);
                assert(s0.tasks@[p] is Some && s0.tasks@[c as int] is Some);
                assert(self.tasks@[p] == s0.tasks@[p]);
            }
            assert(tasks_ok(self.tasks@, mem0, self.next_tag)) by {
                assert forall|p: int| 0 <= p < self.tasks@.len() && (#[trigger] self.tasks@[p]) is Some
                    implies task_ok(self.tasks@[p]->Some_0, p, mem0, self.next_tag) by {
                    assert(self.tasks@[p] == s0.tasks@[p]);
                }
            }
            lemma_tasks_stable(self.tasks@, mem0, self.mem, self.next_tag, gone);
        }
        let ghost s1 = *self;
        let mut t = self.tasks[me].take().unwrap();
        t.inner.children.remove(idx);
        let bytes = to_le(code as u32 as u64, 4);
        let ghost mem1 = self.mem;
        t.inner.memory_set.write_user_bytes(&mut self.mem, exit_code_ptr, &bytes);
        proof {
            assert(task_ok(s1.tasks@[me as int]->Some_0, me as int, mem1, s1.next_tag));
            lemma_tasks_stable(s1.tasks@, mem1, self.mem, self.next_tag, FRAME_FREE);
        }
        self.tasks.set(me, Some(t));
        proof {
            assert(!s1.manager.queue().contains(me)) by {
                if s1.manager.queue().contains(me) {
                    let i = choose|i: int| 0 <= i < s1.manager.queue().len() && s1.manager.queue()[i] == me;
                }
            }
            assert forall|i: int| 0 <= i < s1.manager.queue().len() implies {
                &&& (#[trigger] s1.manager.queue()[i]) < s1.tasks@.len()
                &&& s1.tasks@[s1.manager.queue()[i] as int] is Some
                &&& s1.tasks@[s1.manager.queue()[i] as int]->Some_0.inner.task_status == TaskStatus::Ready
            } by {
                let q = s1.manager.queue()[i];
                assert(s0.manager.queue()[i] == q);
                assert(s0.tasks@[q as int] is Some);
                assert(q != c);
                assert(s1.tasks@[q as int] == s0.tasks@[q as int]);
            }
            self.lemma_same_tasks_but(s1, me);
            assert(kids.remove(idx as int) == self.tasks@[me as int]->Some_0.inner.children@);
            assert(self.task(c as int) is None);
        }
        c as isize
    }

    /// Process id of the running task.
    pub fn sys_getpid(&self) -> (r: isize)
        requires
            self.wf(),
            self.running() is Some,
        ensures
            getpid_post(*self, *self, r),
    {
        self.current.unwrap() as isize
    }

    /// Milliseconds on the clock.
    pub fn sys_get_time(&self) -> (r: isize)
        ensures
            get_time_post(*self, *self, r),
    {
        self.time_ms as isize
    }

    /// The running task gives up the processor.
    pub fn sys_yield(&mut self) -> (r: isize)
        requires
            old(self).wf(),
            old(self).running() is Some,
        ensures
            final(self).wf(),
            yield_post(*old(self), *final(self), r),
    {
        self.suspend_current_and_run_next();
        0
    }

    /// Sets the running task's priority; -1, with nothing changed, for a
    /// priority below 2.
    pub fn sys_set_priority(&mut self, prio: u8) -> (r: isize)
        requires
            old(self).wf(),
            old(self).running() is Some,
        ensures
            final(self).wf(),
            set_priority_post(*old(self), *final(self), prio, r),
    {
        if prio < 2 {
            return -1;
        }
        let me = self.current.unwrap();
        let ghost s1 = *self;
        let mut t = self.tasks[me].take().unwrap();
        t.inner.priority = prio;
        self.tasks.set(me, Some(t));
        proof {
            self.lemma_same_tasks_but(s1, me);
            assert forall|q: int| q != me implies #[trigger] self.task(q) == old(self).task(q) by {
                if 0 <= q < self.tasks@.len() {
                    assert(self.tasks@[q] == old(self).tasks@[q]);
                }
            }
        }
        0
    }

    /// The running task exits with `exit_code`.
    pub fn sys_exit(&mut self, exit_code: i32)
        requires
            old(self).wf(),
            old(self).running() is Some,
        ensures
            final(self).wf(),
            exit_post(*old(self), *final(self), exit_code),
    {
        self.exit_current_and_run_next(exit_code);
    }
}

impl Kernel {
    /// Forks the running task: the child gets a new process id, a copy of
    /// the address space and trap context with 0 in `a0`, and joins the end
    /// of the ready queue; its process id is returned. -1, with the table
    /// and queue unchanged, when no process id, tag or memory is left.
    #[verifier::spinoff_prover]
    pub fn sys_fork(&mut self) -> (r: isize)
        requires
            old(self).wf(),
            old(self).running() is Some,
        ensures
            final(self).wf(),
            fork_post(*old(self), *final(self), r),
    {
        let me = self.current.unwrap();
        let pid = match self.alloc_pid() {
            Some(p) => p,
            None => { return -1; },
        };
        let tag = match self.fresh_tag() {
            Some(t) => t,
            None => { return -1; },
        };
        let ghost s0 = *self;
        let ghost mem0 = self.mem;
        let mut t = self.tasks[me].take().unwrap();
        proof {
            assert(task_ok(s0.tasks@[me as int]->Some_0, me as int, mem0, s0.next_tag));
        }
        let child = t.fork(&mut self.mem, pid, tag);
        let mut c = match child {
            Some(c) => c,
            None => {
                self.tasks.set(me, Some(t));
                proof { assert(self.tasks@ =~= s0.tasks@); }
                return -1;
            },
        };
        c.inner.trap_cx.set_reg(crate::trap::REG_A0, 0);
        proof {
            assert(forall|q: int| 0 <= q < self.tasks@.len() && q != me ==> #[trigger] self.tasks@[q] == s0.tasks@[q]);
            lemma_tasks_stable(s0.tasks@, mem0, self.mem, self.next_tag, FRAME_FREE);
            // the memory set of `me` is unchanged and stays well formed
        }
        let ghost s1 = *self;
        self.tasks.set(me, Some(t));
        proof {
            self.lemma_same_tasks_but(s0, me);
        }
        proof {
            assert forall|p: int| 0 <= p < self.tasks@.len() && (#[trigger] self.tasks@[p]) is Some
                implies self.tasks@[p]->Some_0.inner.memory_set.owner() != c.inner.memory_set.owner() by {
            }
            assert(pid != me);
        }
        self.place_task(pid, c);
        self.add_task(pid);
        pid as isize
    }
}

impl Kernel {
    /// The state after the running task's slot was emptied is well formed
    /// but for that slot.
    proof fn lemma_taken(&self, s0: Kernel, me: usize)
        requires
            s0.wf(),
            s0.current == Some(me),
            self.tasks@ == s0.tasks@.update(me as int, None),
            self.manager.queue() == s0.manager.queue(),
            self.current == s0.current,
            self.next_tag == s0.next_tag,
        ensures
            !s0.manager.queue().contains(me),
            self.queue_ok(),
            tags_distinct(self.tasks@),
            forall|q: int| 0 <= q < self.tasks@.len() && q != me && (#[trigger] self.tasks@[q]) is Some
                ==> task_ok(self.tasks@[q]->Some_0, q, s0.mem, s0.next_tag),
            tasks_ok(self.tasks@, s0.mem, s0.next_tag),
    {
        assert(!s0.manager.queue().contains(me)) by {
            if s0.manager.queue().contains(me) {
                let i = choose|i: int| 0 <= i < s0.manager.queue().len() && s0.manager.queue()[i] == me;
            }
        }
        assert forall|i: int| 0 <= i < self.manager.queue().len() implies {
            &&& (#[trigger] self.manager.queue()[i]) < self.tasks@.len()
            &&& self.tasks@[self.manager.queue()[i] as int] is Some
            &&& self.tasks@[self.manager.queue()[i] as int]->Some_0.inner.task_status == TaskStatus::Ready
        } by {
            assert(s0.manager.queue()[i] != me);
        }
        assert forall|a: int, b: int| 0 <= a < self.tasks@.len() && 0 <= b < self.tasks@.len() && a != b
            && (#[trigger] self.tasks@[a]) is Some && (#[trigger] self.tasks@[b]) is Some
            implies self.tasks@[a]->Some_0.inner.memory_set.owner() != self.tasks@[b]->Some_0.inner.memory_set.owner() by {
            assert(s0.tasks@[a] is Some && s0.tasks@[b] is Some);
        }
        assert forall|q: int| 0 <= q < self.tasks@.len() && (#[trigger] self.tasks@[q]) is Some
            implies task_ok(self.tasks@[q]->Some_0, q, s0.mem, s0.next_tag) by {
            assert(s0.tasks@[q] is Some);
        }
    }

    /// Replaces the running task's program with the bundled program named
    /// by the string at `path`, with the argument vector at `args`; the
    /// argument count is returned, as `a0` will hold it. -1, with the
    /// table unchanged, when the path or arguments cannot be read, no
    /// program has that name, or the program does not fit.
    #[verifier::spinoff_prover]
    pub fn sys_exec(&mut self, path: usize, args: usize) -> (r: isize)
        requires
            old(self).wf(),
            old(self).running() is Some,
        ensures
            final(self).wf(),
            exec_post(*old(self), *final(self), path, args, r),
    {
        let me = self.current.unwrap();
        let (name, argv) = match &self.tasks[me] {
            Some(t) => (t.inner.memory_set.read_user_str(&self.mem, path), t.inner.memory_set.read_user_args(&self.mem, args)),
            None => { proof { assert(false); } (None, None) },
        };
        let name = match name {
            Some(n) => n,
            None => { return -1; },
        };
        let argv = match argv {
            Some(a) => a,
            None => { return -1; },
        };
        let i = match self.find_app(&name) {
            Some(i) => i,
            None => { return -1; },
        };
        let ghost s00 = *self;
        let tag = match self.fresh_tag() {
            Some(t) => t,
            None => { return -1; },
        };
        let ghost s0 = *self;
        let mut t = self.tasks[me].take().unwrap();
        proof {
            self.lemma_taken(s0, me);
            assert(task_ok(s0.tasks@[me as int]->Some_0, me as int, s0.mem, s0.next_tag));
        }
        let ghost s1 = *self;
        let ghost mem0 = self.mem;
        let ok = t.exec(&self.apps[i].image, &argv, &mut self.mem, tag);
        if !ok {
            self.tasks.set(me, Some(t));
            proof { assert(self.tasks@ =~= s0.tasks@); }
            return -1;
        }
        proof {
            lemma_tasks_stable(s1.tasks@, mem0, self.mem, self.next_tag, s0.tasks@[me as int]->Some_0.inner.memory_set.owner());
        }
        let argc = argv.len();
        self.tasks.set(me, Some(t));
        proof {
            self.lemma_same_tasks_but(s1, me);
        }
        argc as isize
    }

    /// Starts the bundled program named by the string at `path` as a new
    /// child of the running task, with the argument vector at `args`, at
    /// the end of the ready queue; its process id is returned. -1, with the
    /// table and queue unchanged, when the path or arguments cannot be
    /// read, no program has that name, no process id is free, or the
    /// program does not fit.
    #[verifier::spinoff_prover]
    pub fn sys_spawn(&mut self, path: usize, args: usize) -> (r: isize)
        requires
            old(self).wf(),
            old(self).running() is Some,
        ensures
            final(self).wf(),
            spawn_post(*old(self), *final(self), path, args, r),
    {
        let me = self.current.unwrap();
        let (name, argv) = match &self.tasks[me] {
            Some(t) => (t.inner.memory_set.read_user_str(&self.mem, path), t.inner.memory_set.read_user_args(&self.mem, args)),
            None => { proof { assert(false); } (None, None) },
        };
        let name = match name {
            Some(n) => n,
            None => { return -1; },
        };
        let argv = match argv {
            Some(a) => a,
            None => { return -1; },
        };
        let i = match self.find_app(&name) {
            Some(i) => i,
            None => { return -1; },
        };
        let pid = match self.alloc_pid() {
            Some(p) => p,
            None => { return -1; },
        };
        let tag = match self.fresh_tag() {
            Some(t) => t,
            None => { return -1; },
        };
        let ghost s0 = *self;
        let mut t = self.tasks[me].take().unwrap();
        proof {
            self.lemma_taken(s0, me);
        }
        let ghost s1 = *self;
        let ghost mem0 = self.mem;
        let child = t.spawn(&self.apps[i].image, &argv, &mut self.mem, pid, tag, self.kernel_satp, self.trap_handler);
        let c = match child {
            Some(c) => c,
            None => {
                self.tasks.set(me, Some(t));
                proof { assert(self.tasks@ =~= s0.tasks@); }
                return -1;
            },
        };
        proof {
            lemma_tasks_stable(s1.tasks@, mem0, self.mem, self.next_tag, FRAME_FREE);
            assert(task_ok(s0.tasks@[me as int]->Some_0, me as int, s0.mem, s0.next_tag));
            lemma_wf_in_stable(&t.inner.memory_set, &mem0, &self.mem);
        }
        self.tasks.set(me, Some(t));
        proof {
            self.lemma_same_tasks_but(s1, me);
            assert(pid != me);
        }
        self.place_task(pid, c);
        self.add_task(pid);
        pid as isize
    }
}

/// The signal action stored at `va`: a handler word, then a 4-byte mask.
pub open spec fn user_action_at(ms: MemorySet, mem: PhysMemory, va: usize) -> Option<SignalAction> {
    if ms.user_range_ok(va, 12) {
        Some(SignalAction {
            handler: ms.user_word(&mem, va)->Some_0 as usize,
            mask: le_val(Seq::new(4, |i: int| ms.user_byte(&mem, (va + 8 + i) as usize)->Some_0)) as u32,
        })
    } else {
        None
    }
}

/// The 16 bytes that store a signal action.
pub open spec fn action_bytes(a: SignalAction) -> Seq<u8> {
    le_seq(a.handler as nat, 8) + le_seq(a.mask as nat, 4) + le_seq(0, 4)
}

fn read_user_action(ms: &MemorySet, mem: &PhysMemory, va: usize) -> (r: Option<SignalAction>)
    requires
        ms.wf_in(mem),
    ensures
        r == user_action_at(*ms, *mem, va),
{
    if va > usize::MAX - 12 {
        return None;
    }
    let h = ms.read_user_word(mem, va);
    let m = ms.read_user_bytes(mem, va + 8, 4);
    match (h, m) {
        (Some(h), Some(mb)) => {
            let mask = from_le(&mb);
            proof {
                assert(ms.user_range_ok(va, 12)) by {
                    assert forall|i: int| 0 <= i < 12 implies (#[trigger] ms.user_byte_covered((va + i) as usize)) by {
                        if i < 8 {
                            assert(ms.user_byte_covered((va + i) as usize));
                        } else {
                            assert(ms.user_byte_covered(((va + 8) as usize + (i - 8)) as usize));
                        }
                    }
                }
                assert(mb@ =~= Seq::new(4, |i: int| ms.user_byte(mem, (va + 8 + i) as usize)->Some_0));
                crate::word::lemma_le_val_bound4(mb@);
            }
            Some(SignalAction { handler: h as usize, mask: mask as u32 })
        },
        _ => {
            proof {
                if ms.user_range_ok(va, 12) {
                    assert(ms.user_range_ok(va, 8)) by {
                        assert forall|i: int| 0 <= i < 8 implies (#[trigger] ms.user_byte_covered((va + i) as usize)) by {
                            assert(ms.user_byte_covered((va + i) as usize));
                        }
                    }
                    assert(ms.user_range_ok((va + 8) as usize, 4)) by {
                        assert forall|i: int| 0 <= i < 4 implies (#[trigger] ms.user_byte_covered(((va + 8) as usize + i) as usize)) by {
                            assert(ms.user_byte_covered((va + (8 + i)) as usize));
                        }
                    }
                }
            }
            None
        },
    }
}

impl Kernel {
    /// Whether process `pid` exists and has not exited.
    pub open spec fn alive(&self, pid: usize) -> bool {
        self.task(pid as int) is Some && self.task(pid as int)->Some_0.inner.task_status != TaskStatus::Zombie
    }

    /// Sends signal `signum` to process `pid`. -2 when no such process is
    /// alive; -1 for a signal number outside 0 to 31 or a signal already
    /// pending; else 0 and the signal is pending.
    #[verifier::spinoff_prover]
    pub fn sys_kill(&mut self, pid: usize, signum: i32) -> (r: isize)
        requires
            old(self).wf(),
        ensures
            final(self).wf(),
            kill_post(*old(self), *final(self), pid, signum, r),
    {
        if pid >= self.tasks.len() {
            return -2;
        }
        let (live, signals) = match &self.tasks[pid] {
            Some(t) => (t.inner.task_status != TaskStatus::Zombie, t.inner.signals),
            None => (false, 0),
        };
        if !live {
            return -2;
        }
        if signum < 0 || signum > 31 {
            return -1;
        }
        let flag: u32 = 1u32 << (signum as u32);
        if signals & flag == flag {
            return -1;
        }
        let ghost s1 = *self;
        let mut t = self.tasks[pid].take().unwrap();
        t.inner.signals = t.inner.signals | flag;
        self.tasks.set(pid, Some(t));
        proof {
            self.lemma_same_tasks_but(s1, pid);
            assert forall|q: int| q != pid implies #[trigger] self.task(q) == old(self).task(q) by {
                if 0 <= q < self.tasks@.len() {
                    assert(self.tasks@[q] == old(self).tasks@[q]);
                }
            }
        }
        0
    }

    /// Sets the running task's signal mask to `mask` without kill and
    /// stop, which cannot be masked; the old mask is returned.
    pub fn sys_sigprocmask(&mut self, mask: u32) -> (r: isize)
        requires
            old(self).wf(),
            old(self).running() is Some,
        ensures
            final(self).wf(),
            sigprocmask_post(*old(self), *final(self), mask, r),
    {
        let me = self.current.unwrap();
        let ghost s1 = *self;
        let mut t = self.tasks[me].take().unwrap();
        let old_mask = t.inner.signal_mask;
        t.inner.signal_mask = mask & !UNMASKABLE;
        self.tasks.set(me, Some(t));
        proof {
            self.lemma_same_tasks_but(s1, me);
            assert forall|q: int| q != me implies #[trigger] self.task(q) == old(self).task(q) by {
                if 0 <= q < self.tasks@.len() {
                    assert(self.tasks@[q] == old(self).tasks@[q]);
                }
            }
        }
        old_mask as isize
    }

    /// Returns from a signal handler: the context saved before the handler
    /// is restored, no signal is being handled, and the restored `a0` is
    /// returned. -1, with nothing changed, when no context was saved.
    pub fn sys_sigreturn(&mut self) -> (r: isize)
        requires
            old(self).wf(),
            old(self).running() is Some,
        ensures
            final(self).wf(),
            sigreturn_post(*old(self), *final(self), r),
    {
        let me = self.current.unwrap();
        let backup = match &self.tasks[me] {
            Some(t) => t.inner.trap_ctx_backup,
            None => None,
        };
        let b = match backup {
            Some(b) => b,
            None => { return -1; },
        };
        let ghost s1 = *self;
        let mut t = self.tasks[me].take().unwrap();
        t.inner.handling_sig = -1;
        t.inner.trap_cx = b;
        self.tasks.set(me, Some(t));
        proof {
            self.lemma_same_tasks_but(s1, me);
            assert forall|q: int| q != me implies #[trigger] self.task(q) == old(self).task(q) by {
                if 0 <= q < self.tasks@.len() {
                    assert(self.tasks@[q] == old(self).tasks@[q]);
                }
            }
        }
        #[verifier::truncate] (b.x[crate::trap::REG_A0] as isize)
    }

    /// Sets the running task's action for signal `signum` to the one stored
    /// at `action`, after storing the previous one at `old_action`. -1,
    /// with nothing changed, for a signal number outside 0 to 31, a null
    /// pointer, the kill or stop signal, or an address not mapped.
    #[verifier::spinoff_prover]
    pub fn sys_sigaction(&mut self, signum: i32, action: usize, old_action: usize) -> (r: isize)
        requires
            old(self).wf(),
            old(self).running() is Some,
        ensures
            final(self).wf(),
            sigaction_post(*old(self), *final(self), signum, action, old_action, r),
    {
        let me = self.current.unwrap();
        if signum < 0 || signum > 31 {
            return -1;
        }
        let flag: u32 = 1u32 << (signum as u32);
        if check_sigaction_error(flag, action, old_action) {
            return -1;
        }
        let ghost s0 = *self;
        proof {
            assert(task_ok(self.tasks@[me as int]->Some_0, me as int, self.mem, self.next_tag));
        }
        let (newa, prev) = match &self.tasks[me] {
            Some(t) => (read_user_action(&t.inner.memory_set, &self.mem, action), t.inner.signal_actions.table[signum as usize]),
            None => { proof { assert(false); } (None, SignalAction::default_action()) },
        };
        let newa = match newa {
            Some(a) => a,
            None => { return -1; },
        };
        let mut bytes = to_le(prev.handler as u64, 8);
        let mut mb = to_le(prev.mask as u64, 4);
        let mut zb = to_le(0, 4);
        bytes.append(&mut mb);
        bytes.append(&mut zb);
        proof {
            assert(bytes@ =~= action_bytes(prev));
            crate::word::lemma_le_len(prev.handler as nat, 8);
            crate::word::lemma_le_len(prev.mask as nat, 4);
            crate::word::lemma_le_len(0, 4);
        }
        let ghost s1 = *self;
        let mut t = self.tasks[me].take().unwrap();
        let ghost mem0 = self.mem;
        let ok = t.inner.memory_set.write_user_bytes(&mut self.mem, old_action, &bytes);
        if !ok {
            self.tasks.set(me, Some(t));
            proof { assert(self.tasks@ =~= s0.tasks@); }
            return -1;
        }
        t.inner.signal_actions.table.set(signum as usize, newa);
        proof {
            lemma_tasks_stable(s1.tasks@, mem0, self.mem, self.next_tag, FRAME_FREE);
        }
        self.tasks.set(me, Some(t));
        proof {
            self.lemma_same_tasks_but(s1, me);
            assert forall|q: int| q != me implies #[trigger] self.task(q) == old(self).task(q) by {
                if 0 <= q < self.tasks@.len() {
                    assert(self.tasks@[q] == old(self).tasks@[q]);
                }
            }
        }
        0
    }

    /// Makes `signal` pending for the running task.
    pub fn current_add_signal(&mut self, signal: u32)
        requires
            old(self).wf(),
            old(self).running() is Some,
        ensures
            final(self).wf(),
            add_signal_post(*old(self), *final(self), signal),
    {
        let me = self.current.unwrap();
        let ghost s1 = *self;
        let mut t = self.tasks[me].take().unwrap();
        t.inner.signals = t.inner.signals | signal;
        self.tasks.set(me, Some(t));
        proof {
            self.lemma_same_tasks_but(s1, me);
            assert forall|q: int| q != me implies #[trigger] self.task(q) == old(self).task(q) by {
                if 0 <= q < self.tasks@.len() {
                    assert(self.tasks@[q] == old(self).tasks@[q]);
                }
            }
        }
    }

    /// Delivers the running task's pending signals for one pass; a task
    /// that ends up frozen and not killed gives up the processor.
    pub fn handle_signals(&mut self)
        requires
            old(self).wf(),
        ensures
            final(self).wf(),
            old(self).running() is None ==> *final(self) == *old(self),
            old(self).running() matches Some(me) ==> {
                let t = pending_pass(old(self).task(me as int)->Some_0.inner, 0);
                &&& (!t.frozen || t.killed) ==> final(self).running() == old(self).running()
                    && final(self).task(me as int)->Some_0.inner == t
                    && final(self).task(me as int)->Some_0.pid == me
                    && final(self).ready() == old(self).ready()
                    && final(self).memory() == old(self).memory()
                    && forall|q: int| q != me ==> #[trigger] final(self).task(q) == old(self).task(q)
            },
    {
        let me = match self.current {
            Some(me) => me,
            None => { return; },
        };
        let ghost s1 = *self;
        let mut t = self.tasks[me].take().unwrap();
        proof {
            assert(task_ok(s1.tasks@[me as int]->Some_0, me as int, s1.mem, s1.next_tag));
            lemma_pass_keeps(t.inner, 0);
        }
        check_pending_signals(&mut t.inner);
        let stop = t.inner.frozen && !t.inner.killed;
        self.tasks.set(me, Some(t));
        proof {
            self.lemma_same_tasks_but(s1, me);
            assert forall|q: int| q != me implies #[trigger] self.task(q) == old(self).task(q) by {
                if 0 <= q < self.tasks@.len() {
                    assert(self.tasks@[q] == old(self).tasks@[q]);
                }
            }
        }
        if stop {
            self.suspend_current_and_run_next();
        }
    }
}

pub const SYSCALL_WRITE: usize = 64;
pub const SYSCALL_EXIT: usize = 93;
pub const SYSCALL_YIELD: usize = 124;
pub const SYSCALL_KILL: usize = 129;
pub const SYSCALL_SIGACTION: usize = 134;
pub const SYSCALL_SIGPROCMASK: usize = 135;
pub const SYSCALL_SIGRETURN: usize = 139;
pub const SYSCALL_SET_PRIORITY: usize = 140;
pub const SYSCALL_GET_TIME: usize = 169;
pub const SYSCALL_GETPID: usize = 172;
pub const SYSCALL_MUNMAP: usize = 215;
pub const SYSCALL_FORK: usize = 220;
pub const SYSCALL_EXEC: usize = 221;
pub const SYSCALL_MMAP: usize = 222;
pub const SYSCALL_WAITPID: usize = 260;
pub const SYSCALL_SPAWN: usize = 400;
pub const SYSCALL_MAILREAD: usize = 401;
pub const SYSCALL_MAILWRITE: usize = 402;

/// Descriptor of standard output.
pub const FD_STDOUT: usize = 1;

/// Smallest of three lengths.
pub open spec fn min3(a: int, b: int, c: int) -> int {
    let m = if a < b { a } else { b };
    if m < c { m } else { c }
}

/// What the trap handler leaves the machine to do.
#[derive(Debug, Clone, Copy, PartialEq, Eq, Structural)]
pub enum TrapOutcome {
    /// Return to user mode in the running task.
    Resume,
    /// No task is left to run.
    Idle,
    /// The trap cannot be handled: the kernel must stop.
    Fatal,
}

impl Kernel {
    /// Reads the oldest message of the running task's mailbox into the
    /// user buffer `buf` of `len` bytes: as many bytes as the message, the
    /// buffer and `MAIL_MAXLEN` allow, that count being returned. With
    /// `len` 0, 0 when a message waits and -1 when none does. -1, with
    /// nothing changed, when the mailbox is empty or the buffer is not
    /// mapped.
    #[verifier::spinoff_prover]
    pub fn sys_mailread(&mut self, buf: usize, len: usize) -> (r: isize)
        requires
            old(self).wf(),
            old(self).running() is Some,
        ensures
            final(self).wf(),
            mailread_post(*old(self), *final(self), buf, len, r),
    {
        let me = self.current.unwrap();
        proof {
            assert(task_ok(self.tasks@[me as int]->Some_0, me as int, self.mem, self.next_tag));
        }
        let avail = match &self.tasks[me] {
            Some(t) => t.mailread_available(),
            None => { proof { assert(false); } 0 },
        };
        if len == 0 {
            return if avail > 0 { 0 } else { -1 };
        }
        if avail == 0 {
            return -1;
        }
        let mail = match &self.tasks[me] {
            Some(t) => t.mailpeek(),
            None => { proof { assert(false); } Mail::empty() },
        };
        let mut n = if mail.len < len { mail.len } else { len };
        if n > MAIL_MAXLEN {
            n = MAIL_MAXLEN;
        }
        let mut bytes: Vec<u8> = Vec::new();
        let mut i: usize = 0;
        while i < n
            invariant
                n <= MAIL_MAXLEN,
                i <= n,
                bytes@ == mail.content@.take(i as int),
            decreases n - i,
        {
            bytes.push(mail.content[i]);
            i += 1;
            assert(bytes@ =~= mail.content@.take(i as int));
        }
        let ghost s1 = *self;
        let mut t = self.tasks[me].take().unwrap();
        let ghost mem0 = self.mem;
        let ok = t.inner.memory_set.write_user_bytes(&mut self.mem, buf, &bytes);
        if !ok {
            self.tasks.set(me, Some(t));
            proof { assert(self.tasks@ =~= s1.tasks@); }
            return -1;
        }
        let got = t.mailread();
        proof {
            lemma_tasks_stable(s1.tasks@, mem0, self.mem, self.next_tag, FRAME_FREE);
        }
        self.tasks.set(me, Some(t));
        proof {
            self.lemma_same_tasks_but(s1, me);
            assert forall|p: int| p != me implies #[trigger] self.task(p) == old(self).task(p) by {
                if 0 <= p < self.tasks@.len() {
                    assert(self.tasks@[p] == old(self).tasks@[p]);
                }
            }
        }
        n as isize
    }

    /// Sends the `len` bytes at `buf` of the running task, at most
    /// `MAIL_MAXLEN` of them, as a message to process `pid`; their count is
    /// returned. With `len` 0, 0 when the mailbox has room. -1, with
    /// nothing changed, when no such process is alive, its mailbox is
    /// full, or the bytes are not mapped.
    #[verifier::spinoff_prover]
    #[verifier::rlimit(60)]
    pub fn sys_mailwrite(&mut self, pid: usize, buf: usize, len: usize) -> (r: isize)
        requires
            old(self).wf(),
            old(self).running() is Some,
        ensures
            final(self).wf(),
            mailwrite_post(*old(self), *final(self), pid, buf, len, r),
    {
        if pid >= self.tasks.len() {
            return -1;
        }
        let (live, room) = match &self.tasks[pid] {
            Some(t) => {
                proof { assert(task_ok(self.tasks@[pid as int]->Some_0, pid as int, self.mem, self.next_tag)); }
                (t.inner.task_status != TaskStatus::Zombie, t.mailwrite_available())
            },
            None => (false, 0),
        };
        if !live {
            return -1;
        }
        if room == 0 {
            return -1;
        }
        if len == 0 {
            return 0;
        }
        let n = if len < MAIL_MAXLEN { len } else { MAIL_MAXLEN };
        let me = self.current.unwrap();
        proof {
            assert(task_ok(self.tasks@[me as int]->Some_0, me as int, self.mem, self.next_tag));
        }
        let data = match &self.tasks[me] {
            Some(t) => t.inner.memory_set.read_user_bytes(&self.mem, buf, n),
            None => { proof { assert(false); } None },
        };
        let data = match data {
            Some(d) => d,
            None => { return -1; },
        };
        let mut mail = Mail::empty();
        let mut i: usize = 0;
        while i < n
            invariant
                n <= MAIL_MAXLEN,
                data@.len() == n,
                i <= n,
                forall|j: int| 0 <= j < i ==> mail.content@[j] == data@[j],
            decreases n - i,
        {
            mail.content[i] = data[i];
            i += 1;
        }
        mail.len = n;
        let ghost s1 = *self;
        let mut t = self.tasks[pid].take().unwrap();
        let w = t.mailwrite(&mail);
        self.tasks.set(pid, Some(t));
        proof {
            self.lemma_same_tasks_but(s1, pid);
            assert forall|p: int| p != pid implies #[trigger] self.task(p) == old(self).task(p) by {
                if 0 <= p < self.tasks@.len() {
                    assert(self.tasks@[p] == old(self).tasks@[p]);
                }
            }
            assert(mail.content@.take(n as int) =~= data@);
            let q0 = old(self).task(pid as int)->Some_0.inner.mailbox@;
            let q1 = self.task(pid as int)->Some_0.inner.mailbox@;
            if w != -1 {
                assert(q1 == q0.push(mail));
                assert(q1.last() == mail);
                assert(q1.drop_last() =~= q0);
                let src = old(self).task(me as int)->Some_0.inner.memory_set;
                assert(crate::task::holds_bytes(src, old(self).memory(), buf as int, data@));
            }
            assert(mailwrite_post(*old(self), *self, pid, buf, len, w));
        }
        w
    }

    /// Maps `[start, start + len)`, widened to whole pages, as a new area of
    /// the running task with the permissions of `prot` (read 1, write 2,
    /// execute 4) and user access, each page in a fresh zeroed frame. -1,
    /// with nothing changed, for other bits or none in `prot`, a range that
    /// wraps or reaches the trap context, a mapped page in the range, or
    /// memory short of three free frames per page. An empty range maps
    /// nothing and gives 0.
    #[verifier::spinoff_prover]
    pub fn sys_mmap(&mut self, start: usize, len: usize, prot: usize) -> (r: isize)
        requires
            old(self).wf(),
            old(self).running() is Some,
        ensures
            final(self).wf(),
            mmap_post(*old(self), *final(self), start, len, prot, r),
    {
        let perm = match UserMapPermission::from_bits(prot) {
            Some(p) => p,
            None => { return -1; },
        };
        if !perm.is_valid() {
            return -1;
        }
        if start > usize::MAX - len {
            return -1;
        }
        let end = start + len;
        let sv = start / PAGE_SIZE;
        let ev = end / PAGE_SIZE + if end % PAGE_SIZE != 0 { 1 } else { 0 };
        if sv >= ev {
            return 0;
        }
        if ev > TRAMPOLINE_VPN {
            return -1;
        }
        let map_perm = perm.to_map_permission();
        let me = self.current.unwrap();
        let ghost s1 = *self;
        let mut t = self.tasks[me].take().unwrap();
        proof {
            assert(task_ok(s1.tasks@[me as int]->Some_0, me as int, s1.mem, s1.next_tag));
        }
        let ghost mem0 = self.mem;
        let res = t.inner.memory_set.insert_framed_area(&mut self.mem, sv, ev, map_perm);
        match res {
            Ok(()) => {
                let ghost msa = t.inner.memory_set;
                proof {
                    lemma_tasks_stable(s1.tasks@, mem0, self.mem, self.next_tag, FRAME_FREE);
                    assert forall|v: usize| sv <= v < ev implies #[trigger] msa.mapping().contains_key(v)
                        && msa.mapping()[v].flags == map_perm_of(prot) | crate::page_table::PTE_V by {
                        assert(msa.mapping().contains_key(v));
                    }
                    assert(map_perm == map_perm_of(prot));
                    assert(sv == (start / 4096usize) as usize);
                    assert(ev == ((start + len) / 4096int + if (start + len) % 4096int != 0 { 1int } else { 0int }) as usize);
                }
                self.tasks.set(me, Some(t));
                proof {
                    self.lemma_same_tasks_but(s1, me);
                    assert forall|p: int| p != me implies #[trigger] self.task(p) == old(self).task(p) by {
                        if 0 <= p < self.tasks@.len() {
                            assert(self.tasks@[p] == old(self).tasks@[p]);
                        }
                    }
                    let o = old(self).task(me as int)->Some_0.inner.memory_set;
                    let n = self.task(me as int)->Some_0.inner.memory_set;
                    assert(n == msa);
                    assert(o == s1.tasks@[me as int]->Some_0.inner.memory_set);
                    assert(n.area_seq() == o.area_seq().push((MapArea { start_vpn: sv, end_vpn: ev, perm: map_perm_of(prot) })));
                    assert forall|v: usize| sv <= v < ev implies !#[trigger] o.mapping().contains_key(v) by {
                        assert(!o.mapping().contains_key(v));
                    }
                    assert forall|v: usize| sv <= v < ev implies #[trigger] n.mapping().contains_key(v)
                        && n.mapping()[v].flags == map_perm_of(prot) | crate::page_table::PTE_V by {
                        assert(msa.mapping().contains_key(v));
                    }
                    assert(sv == (start / 4096usize) as usize);
                    assert(ev == ((start + len) / 4096int + if (start + len) % 4096int != 0 { 1int } else { 0int }) as usize);
                    assert forall|v: usize| !(sv <= v < ev) implies #[trigger] lookup(n.mapping(), v) == lookup(o.mapping(), v) by {
                        assert(lookup(msa.mapping(), v) == lookup(o.mapping(), v));
                    }
                    assert forall|v: usize| !(sv <= v < ev) implies #[trigger] lookup(n.mapping(), v) == lookup(o.mapping(), v) by {
                        assert(lookup(msa.mapping(), v) == lookup(o.mapping(), v));
                    }
                }
                0
            },
            Err(_) => {
                self.tasks.set(me, Some(t));
                proof {
                    assert(self.tasks@ =~= s1.tasks@);
                }
                -1
            },
        }
    }

    /// Removes the running task's area that starts on the page of `start`,
    /// returning its frames; -1, with nothing changed, when none does.
    #[verifier::spinoff_prover]
    pub fn sys_munmap(&mut self, start: usize) -> (r: isize)
        requires
            old(self).wf(),
            old(self).running() is Some,
        ensures
            final(self).wf(),
            munmap_post(*old(self), *final(self), start, r),
    {
        let me = self.current.unwrap();
        let ghost s1 = *self;
        let mut t = self.tasks[me].take().unwrap();
        let ghost s2 = *self;
        proof {
            assert(task_ok(s1.tasks@[me as int]->Some_0, me as int, s1.mem, s1.next_tag));
            self.lemma_taken(s1, me);
        }
        let ghost mem0 = self.mem;
        let gone = t.inner.memory_set.page_table_owner_tag();
        let ok = t.inner.memory_set.remove_area(&mut self.mem, start / PAGE_SIZE);
        proof {
            assert forall|p: int| 0 <= p < s2.tasks@.len() && (#[trigger] s2.tasks@[p]) is Some
                implies s2.tasks@[p]->Some_0.inner.memory_set.owner() != gone by {
                assert(p != me);
                assert(old(self).tasks@[p] is Some && old(self).tasks@[me as int] is Some);
            }
            lemma_tasks_stable(s2.tasks@, mem0, self.mem, self.next_tag, gone);
            assert forall|q: int| 0 <= q < s1.tasks@.len() && q != me && (#[trigger] s1.tasks@[q]) is Some
                implies task_ok(s1.tasks@[q]->Some_0, q, self.mem, s1.next_tag) by {
                assert(s2.tasks@[q] == s1.tasks@[q]);
            }
        }
        self.tasks.set(me, Some(t));
        proof {
            self.lemma_same_tasks_but(s1, me);
            assert forall|p: int| p != me implies #[trigger] self.task(p) == old(self).task(p) by {
                if 0 <= p < self.tasks@.len() {
                    assert(self.tasks@[p] == old(self).tasks@[p]);
                }
            }
            if !ok {
                assert(self.tasks@ =~= old(self).tasks@);
            }
        }
        if ok { 0 } else { -1 }
    }

    /// Writes the `len` user bytes at `buf` to standard output; `len` is
    /// returned. -1 for another descriptor or bytes not mapped.
    #[verifier::spinoff_prover]
    pub fn sys_write(&mut self, fd: usize, buf: usize, len: usize) -> (r: isize)
        requires
            old(self).wf(),
            old(self).running() is Some,
        ensures
            final(self).wf(),
            write_post(*old(self), *final(self), fd, buf, len, r),
    {
        if fd != FD_STDOUT || len > isize::MAX as usize {
            return -1;
        }
        let me = self.current.unwrap();
        proof {
            assert(task_ok(self.tasks@[me as int]->Some_0, me as int, self.mem, self.next_tag));
        }
        let data = match &self.tasks[me] {
            Some(t) => t.inner.memory_set.read_user_bytes(&self.mem, buf, len),
            None => { proof { assert(false); } None },
        };
        let mut data = match data {
            Some(d) => d,
            None => { return -1; },
        };
        let ghost before = self.console@;
        let ghost d = data@;
        self.console.append(&mut data);
        proof {
            assert(self.console@.take(before.len() as int) =~= before);
            assert(self.console@.skip(before.len() as int) =~= d);
        }
        len as isize
    }
}

impl Kernel {
    /// Runs system call `id` with arguments `args` for the running task.
    /// An unknown call gives -1 and changes nothing.
    pub fn syscall(&mut self, id: usize, args: [usize; 7]) -> (r: isize)
        requires
            old(self).wf(),
            old(self).running() is Some,
        ensures
            final(self).wf(),
            syscall_post(*old(self), *final(self), id, args, r),
    {
        if id == SYSCALL_WRITE {
            self.sys_write(args[0], args[1], args[2])
        } else if id == SYSCALL_EXIT {
            self.sys_exit(#[verifier::truncate] (args[0] as i32));
            0
        } else if id == SYSCALL_YIELD {
            self.sys_yield()
        } else if id == SYSCALL_KILL {
            self.sys_kill(args[0], #[verifier::truncate] (args[1] as i32))
        } else if id == SYSCALL_SIGACTION {
            self.sys_sigaction(#[verifier::truncate] (args[0] as i32), args[1], args[2])
        } else if id == SYSCALL_SIGPROCMASK {
            self.sys_sigprocmask(#[verifier::truncate] (args[0] as u32))
        } else if id == SYSCALL_SIGRETURN {
            self.sys_sigreturn()
        } else if id == SYSCALL_SET_PRIORITY {
            self.sys_set_priority(#[verifier::truncate] (args[0] as u8))
        } else if id == SYSCALL_GET_TIME {
            self.sys_get_time()
        } else if id == SYSCALL_GETPID {
            self.sys_getpid()
        } else if id == SYSCALL_MUNMAP {
            self.sys_munmap(args[0])
        } else if id == SYSCALL_FORK {
            self.sys_fork()
        } else if id == SYSCALL_EXEC {
            self.sys_exec(args[0], args[1])
        } else if id == SYSCALL_MMAP {
            self.sys_mmap(args[0], args[1], args[2])
        } else if id == SYSCALL_WAITPID {
            self.sys_waitpid(#[verifier::truncate] (args[0] as isize), args[1])
        } else if id == SYSCALL_SPAWN {
            self.sys_spawn(args[0], args[1])
        } else if id == SYSCALL_MAILREAD {
            self.sys_mailread(args[0], args[1])
        } else if id == SYSCALL_MAILWRITE {
            self.sys_mailwrite(args[0], args[1], args[2])
        } else {
            -1
        }
    }

    /// Handles a trap taken from the running task, whose cause register
    /// reads `scause`: a system call runs, with its result in the caller's
    /// `a0` and the caller resuming after the call instruction; a memory
    /// fault or illegal instruction makes the matching signal pending; the
    /// timer preempts the task. Then the running task's pending signals are
    /// delivered, and a task with a pending error signal exits with that
    /// signal's code. Any other cause is fatal and changes nothing.
    #[verifier::spinoff_prover]
    pub fn trap_handler(&mut self, scause: usize) -> (r: TrapOutcome)
        requires
            old(self).wf(),
            old(self).running() is Some,
        ensures
            kind_of(raw_trap_of(scause)) == TrapKind::Unsupported <==> r == TrapOutcome::Fatal,
            r == TrapOutcome::Fatal ==> *final(self) == *old(self),
            final(self).wf(),
            r == TrapOutcome::Resume ==> final(self).running() is Some,
            r == TrapOutcome::Idle ==> final(self).running() is None,
            r != TrapOutcome::Fatal ==> exists|mid: Kernel| #[trigger] dispatch_post(*old(self), mid, scause)
                && mid.wf() && signal_return_post(mid, *final(self)),
    {
        let kind = classify_trap(scause);
        if let TrapKind::Unsupported = kind {
            return TrapOutcome::Fatal;
        }
        let ghost s0 = *self;
        match kind {
            TrapKind::Syscall => {
                let me = self.current.unwrap();
                let ghost s1 = *self;
                let mut t = self.tasks[me].take().unwrap();
                t.inner.trap_cx.sepc = advance_pc(t.inner.trap_cx.sepc);
                let x = t.inner.trap_cx.x;
                self.tasks.set(me, Some(t));
                proof {
                    self.lemma_same_tasks_but(s1, me);
                    assert forall|q: int| q != me implies #[trigger] s0.task(q) == self.task(q) by {
                        if 0 <= q < self.tasks@.len() {
                            assert(self.tasks@[q] == s0.tasks@[q]);
                        }
                    }
                    assert(syscall_entry(s0, *self));
                }
                let ghost k0 = *self;
                let id = x[REG_SYSCALL_ID];
                let args = [x[10], x[11], x[12], x[13], x[14], x[15], x[16]];
                let result = self.syscall(id, args);
                let ghost k1 = *self;
                let mut live = false;
                if me < self.tasks.len() {
                    live = match &self.tasks[me] {
                        Some(t) => t.inner.task_status != TaskStatus::Zombie,
                        None => false,
                    };
                }
                if live {
                    let ghost s2 = *self;
                    let mut t = self.tasks[me].take().unwrap();
                    let ghost x0 = t.inner.trap_cx.x;
                    t.inner.trap_cx.set_reg(REG_A0, #[verifier::truncate] (result as usize));
                    proof {
                        assert(t.inner.trap_cx.x =~= vstd::array::spec_array_update(x0, REG_A0 as int, (#[verifier::truncate] (result as usize))));
                    }
                    self.tasks.set(me, Some(t));
                    proof {
                        self.lemma_same_tasks_but(s2, me);
                        assert forall|q: int| q != me implies #[trigger] k1.task(q) == self.task(q) by {
                            if 0 <= q < self.tasks@.len() {
                                assert(self.tasks@[q] == k1.tasks@[q]);
                            }
                        }
                    }
                }
                proof {
                    assert(args@ =~= x@.subrange(10, 17));
                    assert(syscall_result(k1, *self, me as int, result));
                    assert(syscall_post(k0, k1, x@[REG_SYSCALL_ID as int], args, result));
                    assert(dispatch_post(s0, *self, scause));
                }
            },
            TrapKind::MemoryFault => {
                self.current_add_signal(SIGSEGV);
            },
            TrapKind::IllegalInstruction => {
                self.current_add_signal(SIGILL);
            },
            TrapKind::Timer => {
                self.suspend_current_and_run_next();
            },
            TrapKind::Unsupported => {},
        }
        let ghost mid = *self;
        assert(dispatch_post(s0, mid, scause));
        self.signal_return();
        if self.current.is_some() {
            TrapOutcome::Resume
        } else {
            TrapOutcome::Idle
        }
    }
}

impl Kernel {
    /// Copies `len` bytes of process `pid`'s user memory from `va` out;
    /// `None` when there is no such process or a byte is not mapped.
    pub fn read_user(&self, pid: usize, va: usize, len: usize) -> (r: Option<Vec<u8>>)
        requires
            self.wf(),
        ensures
            r matches Some(v) ==> self.task(pid as int) is Some && v@.len() == len
                && crate::task::holds_bytes(self.task(pid as int)->Some_0.inner.memory_set, self.memory(), va as int, v@),
            r is None ==> self.task(pid as int) is None || !self.task(pid as int)->Some_0.inner.memory_set.user_range_ok(va, len),
    {
        if pid >= self.tasks.len() {
            return None;
        }
        match &self.tasks[pid] {
            Some(t) => {
                proof { assert(task_ok(self.tasks@[pid as int]->Some_0, pid as int, self.mem, self.next_tag)); }
                t.inner.memory_set.read_user_bytes(&self.mem, va, len)
            },
            None => None,
        }
    }

    /// Copies `data` into process `pid`'s user memory at `va`; `false`, with
    /// nothing changed, when there is no such process or a byte is not
    /// mapped.
    pub fn write_user(&mut self, pid: usize, va: usize, data: &Vec<u8>) -> (r: bool)
        requires
            old(self).wf(),
        ensures
            final(self).wf(),
            final(self).table() == old(self).table(),
            final(self).running() == old(self).running(),
            final(self).ready() == old(self).ready(),
            r == (old(self).task(pid as int) is Some
                && old(self).task(pid as int)->Some_0.inner.memory_set.user_range_ok(va, data@.len() as usize)),
            r ==> crate::task::holds_bytes(final(self).task(pid as int)->Some_0.inner.memory_set, final(self).memory(), va as int, data@),
    {
        if pid >= self.tasks.len() || self.tasks[pid].is_none() {
            return false;
        }
        let ghost s1 = *self;
        let t = self.tasks[pid].take().unwrap();
        proof {
            assert(task_ok(s1.tasks@[pid as int]->Some_0, pid as int, s1.mem, s1.next_tag));
        }
        let ghost mem0 = self.mem;
        let ok = t.inner.memory_set.write_user_bytes(&mut self.mem, va, data);
        proof {
            lemma_tasks_stable(s1.tasks@, mem0, self.mem, self.next_tag, FRAME_FREE);
        }
        self.tasks.set(pid, Some(t));
        proof {
            self.lemma_same_tasks_but(s1, pid);
            assert(self.tasks@ =~= s1.tasks@);
        }
        ok
    }

    /// Sets saved register `i` of process `pid`; `false` when there is no
    /// such process or register.
    pub fn set_user_reg(&mut self, pid: usize, i: usize, v: usize) -> (r: bool)
        requires
            old(self).wf(),
        ensures
            final(self).wf(),
            final(self).running() == old(self).running(),
            final(self).ready() == old(self).ready(),
            r == (old(self).task(pid as int) is Some && i < 32),
            r ==> final(self).task(pid as int)->Some_0.inner.trap_cx.x@
                == old(self).task(pid as int)->Some_0.inner.trap_cx.x@.update(i as int, v),
            forall|q: int| q != pid ==> #[trigger] final(self).task(q) == old(self).task(q),
    {
        if i >= 32 || pid >= self.tasks.len() || self.tasks[pid].is_none() {
            return false;
        }
        let ghost s1 = *self;
        let mut t = self.tasks[pid].take().unwrap();
        t.inner.trap_cx.set_reg(i, v);
        self.tasks.set(pid, Some(t));
        proof {
            self.lemma_same_tasks_but(s1, pid);
            assert forall|q: int| q != pid implies #[trigger] self.task(q) == old(self).task(q) by {
                if 0 <= q < self.tasks@.len() {
                    assert(self.tasks@[q] == old(self).tasks@[q]);
                }
            }
        }
        true
    }

    /// Replaces the saved user registers of process `pid`; `false` when
    /// there is no such process.
    pub fn set_trap_cx(&mut self, pid: usize, cx: TrapContext) -> (r: bool)
        requires
            old(self).wf(),
        ensures
            final(self).wf(),
            final(self).running() == old(self).running(),
            final(self).ready() == old(self).ready(),
            r == old(self).task(pid as int) is Some,
            r ==> final(self).task(pid as int)->Some_0.inner.trap_cx == cx,
            forall|q: int| q != pid ==> #[trigger] final(self).task(q) == old(self).task(q),
    {
        if pid >= self.tasks.len() || self.tasks[pid].is_none() {
            return false;
        }
        let ghost s1 = *self;
        let mut t = self.tasks[pid].take().unwrap();
        t.inner.trap_cx = cx;
        self.tasks.set(pid, Some(t));
        proof {
            self.lemma_same_tasks_but(s1, pid);
            assert forall|q: int| q != pid implies #[trigger] self.task(q) == old(self).task(q) by {
                if 0 <= q < self.tasks@.len() {
                    assert(self.tasks@[q] == old(self).tasks@[q]);
                }
            }
        }
        true
    }

    /// The task of process `pid` while it has not exited.
    pub fn pid2task(&self, pid: usize) -> (r: Option<&TaskControlBlock>)
        ensures
            r is Some <==> self.alive(pid),
            r matches Some(t) ==> self.task(pid as int) == Some(*t),
    {
        if pid >= self.tasks.len() {
            return None;
        }
        match &self.tasks[pid] {
            Some(t) => {
                if t.inner.task_status != TaskStatus::Zombie {
                    Some(t)
                } else {
                    None
                }
            },
            None => None,
        }
    }

    /// Number of messages waiting in process `pid`'s mailbox.
    pub fn mail_count(&self, pid: usize) -> (r: Option<usize>)
        requires
            self.wf(),
        ensures
            r == (match self.task(pid as int) {
                Some(t) => Some(t.inner.mailbox@.len() as usize),
                None => None::<usize>,
            }),
    {
        if pid >= self.tasks.len() {
            return None;
        }
        match &self.tasks[pid] {
            Some(t) => {
                proof { assert(task_ok(self.tasks@[pid as int]->Some_0, pid as int, self.mem, self.next_tag)); }
                Some(t.mailread_available())
            },
            None => None,
        }
    }
}

impl Kernel {
    /// Delivers the running task's pending signals on its way back to user
    /// mode; a pending error signal then ends it with that signal's code.
    #[verifier::spinoff_prover]
    pub fn signal_return(&mut self)
        requires
            old(self).wf(),
        ensures
            final(self).wf(),
            signal_return_post(*old(self), *final(self)),
    {
        let ghost s0 = *self;
        let first = self.current;
        self.handle_signals();
        let me = match first {
            Some(me) => me,
            None => { return; },
        };
        if let Some(cur) = self.current {
            if cur == me {
                let signals = match &self.tasks[me] {
                    Some(t) => t.inner.signals,
                    None => 0,
                };
                if let Some(code) = check_error(signals) {
                    self.exit_current_and_run_next(code);
                }
            }
        }
    }
}

/// Whether two byte strings are equal.
pub fn bytes_eq(a: &Vec<u8>, b: &Vec<u8>) -> (r: bool)
    ensures
        r == (a@ == b@),
{
    if a.len() != b.len() {
        return false;
    }
    let mut i: usize = 0;
    while i < a.len()
        invariant
            a@.len() == b@.len(),
            i <= a@.len(),
            forall|j: int| 0 <= j < i ==> a@[j] == b@[j],
        decreases a@.len() - i,
    {
        if a[i] != b[i] {
            return false;
        }
        i += 1;
    }
    assert(a@ =~= b@);
    true
}

} // verus!
