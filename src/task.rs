//! Task control blocks: the per-process state, the placement of the
//! argument vector on a new user stack, and creation, fork, spawn and exec.
use vstd::prelude::*;
use core::cmp::Ordering;
use crate::frame::{PhysMemory, FRAME_FREE};
use crate::mail::{Mail, MailRingBuffer};
use crate::manager::stride_cmp;
use crate::memory_set::{covers, image_areas, image_fits, lemma_segs_end, lemma_wf_in_stable, pages_upto, stack_bottom_vpn, ExecImage, MapArea, MemorySet, USER_STACK_PAGES};
use crate::signal::{SignalAction, SignalActions, MAX_SIG};
use crate::trap::{TrapContext, REG_A0, REG_A1, REG_SP};
use crate::word::{le_seq, lemma_le_len, to_le, WORD};

verus! {

/// Bytes of one kernel stack.
pub const KERNEL_STACK_SIZE: usize = 8192;

/// Bytes of the user stack.
pub const USER_STACK_SIZE: usize = 8192;

/// One more than the largest process id.
pub const MAX_PID: usize = 4096;

/// Priority a new task starts with.
pub const DEFAULT_PRIORITY: u8 = 16;

/// Number of distinct syscalls a task records.
pub const MAX_SYSCALL_NUM: usize = 27;

/// Top of the kernel stack of process `pid`: stacks lie below the
/// trampoline, each with a guard page.
pub open spec fn kernel_stack_top_of(pid: usize) -> usize {
    (usize::MAX - 4095 - pid * (KERNEL_STACK_SIZE + 4096)) as usize
}

pub fn kernel_stack_top(pid: usize) -> (r: usize)
    requires
        pid < MAX_PID,
    ensures
        r == kernel_stack_top_of(pid),
{
    assert(pid * 12288 <= 4096 * 12288) by (nonlinear_arith)
        requires pid < 4096;
    usize::MAX - 4095 - pid * (KERNEL_STACK_SIZE + 4096)
}

#[derive(Debug, Clone, Copy, PartialEq, Eq, Structural)]
pub enum TaskStatus {
    Ready,
    Running,
    Zombie,
}

/// What a descriptor slot refers to.
#[derive(Debug, Clone, Copy, PartialEq, Eq, Structural)]
pub enum FileDescriptor {
    Stdin,
    Stdout,
    Mutex(usize),
    Semaphore(usize),
}

/// The mutable state of a task.
pub struct TaskControlBlockInner {
    pub base_size: usize,
    pub trap_cx: TrapContext,
    pub task_status: TaskStatus,
    pub memory_set: MemorySet,
    pub parent: Option<usize>,
    pub children: Vec<usize>,
    pub exit_code: i32,
    pub stride: u8,
    pub priority: u8,
    pub fd_table: Vec<Option<FileDescriptor>>,
    pub signals: u32,
    pub signal_mask: u32,
    pub handling_sig: isize,
    pub signal_actions: SignalActions,
    pub killed: bool,
    pub frozen: bool,
    pub trap_ctx_backup: Option<TrapContext>,
    pub mailbox: MailRingBuffer,
}

impl TaskControlBlockInner {
    /// The saved user registers.
    pub fn get_trap_cx(&self) -> (r: &TrapContext)
        ensures
            *r == self.trap_cx,
    {
        &self.trap_cx
    }

    /// The token of the task's page table.
    pub fn get_user_token(&self) -> (r: u64)
        ensures
            r == crate::page_table::token_of(self.memory_set.root()),
    {
        self.memory_set.token()
    }

    pub fn get_status(&self) -> (r: TaskStatus)
        ensures
            r == self.task_status,
    {
        self.task_status
    }

    pub fn is_zombie(&self) -> (r: bool)
        ensures
            r == (self.task_status == TaskStatus::Zombie),
    {
        self.get_status() == TaskStatus::Zombie
    }

    /// The lowest free descriptor slot, the table growing by one when
    /// none is free.
    pub fn alloc_fd(&mut self) -> (r: usize)
        ensures
            r < final(self).fd_table@.len(),
            final(self).fd_table@[r as int] is None,
            forall|i: int| 0 <= i < r ==> #[trigger] old(self).fd_table@[i] is Some,
            r < old(self).fd_table@.len() ==> final(self).fd_table@ == old(self).fd_table@,
            r == old(self).fd_table@.len() ==> final(self).fd_table@ == old(self).fd_table@.push(None),
            final(self).memory_set == old(self).memory_set,
            final(self).mailbox == old(self).mailbox,
            final(self).signal_actions == old(self).signal_actions,
            final(self).trap_cx == old(self).trap_cx,
            final(self).children == old(self).children,
    {
        let mut fd: usize = 0;
        while fd < self.fd_table.len()
            invariant
                fd <= self.fd_table@.len(),
                *self == *old(self),
                forall|i: int| 0 <= i < fd ==> #[trigger] self.fd_table@[i] is Some,
            decreases self.fd_table@.len() - fd,
        {
            if self.fd_table[fd].is_none() {
                return fd;
            }
            fd += 1;
        }
        self.fd_table.push(None);
        self.fd_table.len() - 1
    }
}

/// Bytes that the first `i` arguments take as strings with terminators.
pub open spec fn strs_len(args: Seq<Vec<u8>>, i: int) -> nat
    decreases i,
{
    if i <= 0 {
        0
    } else {
        strs_len(args, i - 1) + args[i - 1]@.len() + 1
    }
}

/// Address of argument `i`'s string below an argument array at `argv_base`.
pub open spec fn arg_ptr(argv_base: int, args: Seq<Vec<u8>>, i: int) -> int {
    argv_base - strs_len(args, i + 1)
}

/// Stack bytes that the argument vector is written to: the pointer array
/// with its null entry, and the strings with their terminators.
pub open spec fn args_size(args: Seq<Vec<u8>>) -> nat {
    (WORD * (args.len() + 1) + strs_len(args, args.len() as int)) as nat
}

/// The argument vector `args` lies in user memory with its pointer array
/// at `argv_base`: pointer `i` leads to string `i`, which is followed by a
/// zero byte, and a null pointer ends the array.
pub open spec fn argv_placed(ms: MemorySet, mem: PhysMemory, argv_base: int, args: Seq<Vec<u8>>) -> bool {
    &&& holds_bytes(ms, mem, argv_base + WORD * args.len(), le_seq(0, 8))
    &&& forall|i: int| 0 <= i < args.len() ==> holds_bytes(ms, mem, argv_base + WORD * i, #[trigger] le_seq(arg_ptr(argv_base, args, i) as nat, 8))
    &&& forall|i: int| 0 <= i < args.len() ==> holds_bytes(ms, mem, #[trigger] arg_ptr(argv_base, args, i), args[i]@)
    &&& forall|i: int| 0 <= i < args.len() ==> holds_bytes(ms, mem, #[trigger] arg_ptr(argv_base, args, i) + args[i]@.len(), seq![0u8])
}

/// The user bytes of `ms` from `va` on are `s`.
pub open spec fn holds_bytes(ms: MemorySet, mem: PhysMemory, va: int, s: Seq<u8>) -> bool {
    forall|i: int| 0 <= i < s.len() ==> #[trigger] ms.user_byte(&mem, (va + i) as usize) == Some(s[i])
}

proof fn lemma_strs_len_mono(args: Seq<Vec<u8>>, i: int, j: int)
    requires
        0 <= i <= j,
    ensures
        strs_len(args, i) <= strs_len(args, j),
    decreases j - i,
{
    if i < j {
        lemma_strs_len_mono(args, i, j - 1);
    }
}

proof fn lemma_sub_range_ok(ms: MemorySet, lo: usize, big: usize, va: usize, len: usize)
    requires
        ms.user_range_ok(lo, big),
        lo <= va,
        va + len <= lo + big,
    ensures
        ms.user_range_ok(va, len),
{
    assert forall|i: int| 0 <= i < len implies (#[trigger] ms.user_byte_covered((va + i) as usize)) by {
        let j = va + i - lo;
        assert(ms.user_byte_covered((lo + j) as usize));
    }
}

proof fn lemma_holds_kept(ms: MemorySet, m1: PhysMemory, m2: PhysMemory, p: int, s: Seq<u8>, va: int, len: int)
    requires
        holds_bytes(ms, m1, p, s),
        0 <= p,
        p + s.len() <= usize::MAX,
        p + s.len() <= va || va + len <= p,
        forall|a: usize| !(va <= a < va + len) ==> #[trigger] ms.user_byte(&m2, a) == ms.user_byte(&m1, a),
    ensures
        holds_bytes(ms, m2, p, s),
{
    assert forall|i: int| 0 <= i < s.len() implies #[trigger] ms.user_byte(&m2, (p + i) as usize) == Some(s[i]) by {
        assert(ms.user_byte(&m1, (p + i) as usize) == Some(s[i]));
    }
}

/// The stack of a space built from `img` is covered, and its top lies
/// `USER_STACK_SIZE` above its bottom.
proof fn lemma_stack_covered(ms: MemorySet, img: ExecImage)
    requires
        ms.area_seq() == image_areas(img),
        image_fits(img),
    ensures
        (stack_bottom_vpn(img) + USER_STACK_PAGES) * 4096 <= usize::MAX,
        ms.user_range_ok((stack_bottom_vpn(img) * 4096) as usize, USER_STACK_SIZE),
{
    let s = img.segments@;
    lemma_segs_end(s, s.len() as int);
    let b = stack_bottom_vpn(img);
    assert(b <= 524289);
    let n = s.len() as int;
    assert(ms.area_seq()[n] == (MapArea { start_vpn: b, end_vpn: (b + USER_STACK_PAGES) as usize, perm: crate::memory_set::MAP_R | crate::memory_set::MAP_W | crate::memory_set::MAP_U }));
    assert forall|i: int| 0 <= i < USER_STACK_SIZE implies (#[trigger] ms.user_byte_covered(((b * 4096) as usize + i) as usize)) by {
        let a = b * 4096 + i;
        assert(b <= a / 4096 < b + 2) by (nonlinear_arith)
            requires a == b * 4096 + i, 0 <= i < 8192, b >= 0;
        assert(covers(ms.area_seq()[n], (a / 4096) as usize));
    }
}

/// A task state with the given parts, no children, exit code 0, stride
/// 0, the default priority, no pending signal and none being handled.
fn fresh_inner(
    memory_set: MemorySet,
    trap_cx: TrapContext,
    base_size: usize,
    parent: Option<usize>,
    fd_table: Vec<Option<FileDescriptor>>,
    signal_mask: u32,
    signal_actions: SignalActions,
    mailbox: MailRingBuffer,
) -> (r: TaskControlBlockInner)
    ensures
        r.memory_set == memory_set,
        r.trap_cx == trap_cx,
        r.base_size == base_size,
        r.parent == parent,
        r.fd_table == fd_table,
        r.signal_mask == signal_mask,
        r.signal_actions == signal_actions,
        r.mailbox == mailbox,
        is_fresh(r),
{
    TaskControlBlockInner {
        base_size,
        trap_cx,
        task_status: TaskStatus::Ready,
        memory_set,
        parent,
        children: Vec::new(),
        exit_code: 0,
        stride: 0,
        priority: DEFAULT_PRIORITY,
        fd_table,
        signals: 0,
        signal_mask,
        handling_sig: -1,
        signal_actions,
        killed: false,
        frozen: false,
        trap_ctx_backup: None,
        mailbox,
    }
}

/// Ready, no children, exit code 0, stride 0, default priority, no
/// pending signal and none being handled.
pub open spec fn is_fresh(r: TaskControlBlockInner) -> bool {
    &&& r.task_status == TaskStatus::Ready
    &&& r.children@ == Seq::<usize>::empty()
    &&& r.exit_code == 0
    &&& r.stride == 0
    &&& r.priority == DEFAULT_PRIORITY
    &&& r.signals == 0
    &&& r.handling_sig == -1
    &&& !r.killed
    &&& !r.frozen
    &&& r.trap_ctx_backup is None
}

/// The descriptor table of a new program: standard input, output, error.
fn std_fds() -> (r: Vec<Option<FileDescriptor>>)
    ensures
        r@ == seq![Some(FileDescriptor::Stdin), Some(FileDescriptor::Stdout), Some(FileDescriptor::Stdout)],
{
    let mut v: Vec<Option<FileDescriptor>> = Vec::new();
    v.push(Some(FileDescriptor::Stdin));
    v.push(Some(FileDescriptor::Stdout));
    v.push(Some(FileDescriptor::Stdout));
    assert(v@ =~= seq![Some(FileDescriptor::Stdin), Some(FileDescriptor::Stdout), Some(FileDescriptor::Stdout)]);
    v
}

/// A process: its id, the top of its kernel stack, and its state.
pub struct TaskControlBlock {
    pub pid: usize,
    pub kernel_stack_top: usize,
    pub inner: TaskControlBlockInner,
}

impl TaskControlBlock {
    /// Places the argument vector below `user_sp`: an array of pointers to
    /// the strings, ended by a null pointer, with the strings, each ended by a
    /// zero byte, below it in order. Returns the new stack pointer, aligned
    /// down to a word, and the address of the pointer array.
    #[verifier::spinoff_prover]
    #[verifier::rlimit(80)]
    pub fn init_args(ms: &MemorySet, mem: &mut PhysMemory, user_sp: usize, args: &Vec<Vec<u8>>) -> (r: (usize, usize))
        requires
            ms.wf_in(&*old(mem)),
            args_size(args@) <= user_sp,
            ms.user_range_ok((user_sp - args_size(args@)) as usize, args_size(args@) as usize),
        ensures
            ms.wf_in(&*final(mem)),
            final(mem).frame_count() == old(mem).frame_count(),
            final(mem).free() == old(mem).free(),
            final(mem).free_count() == old(mem).free_count(),
            forall|q: usize| #[trigger] final(mem).owner(q) == old(mem).owner(q),
            forall|q: usize| q < old(mem).frame_count() && old(mem).owner(q) != ms.owner() ==> #[trigger] final(mem).page(q) == old(mem).page(q),
            r.1 == user_sp - WORD * (args@.len() + 1),
            r.0 == (r.1 - strs_len(args@, args@.len() as int)) - (r.1 - strs_len(args@, args@.len() as int)) % (WORD as int),
            argv_placed(*ms, *final(mem), r.1 as int, args@),
            r.0 % 8 == 0,
            r.0 <= r.1,
    {
        let ghost s = args@;
        let ghost asz = args_size(args@) as usize;
        let ghost lo = (user_sp - asz) as usize;
        let n = args.len();
        let argv_base = user_sp - (n + 1) * WORD;
        let zero = to_le(0, WORD);
        proof {
            lemma_sub_range_ok(*ms, lo, asz, (argv_base + n * WORD) as usize, 8);
        }
        let ghost mem0 = *mem;
        let ok = ms.write_user_bytes(mem, argv_base + n * WORD, &zero);
        proof {
            lemma_le_len(0, 8);
            assert(ok);
            assert(zero@ == le_seq(0, 8));
        }
        let mut sp = argv_base;
        let mut i: usize = 0;
        while i < n
            invariant
                n == s.len(),
                s == args@,
                i <= n,
                asz == args_size(s),
                lo == user_sp - asz,
                args_size(s) <= user_sp,
                argv_base == user_sp - WORD * (n + 1),
                sp == argv_base - strs_len(s, i as int),
                ms.wf_in(&*mem),
                ms.user_range_ok(lo, asz),
                mem.frame_count() == mem0.frame_count(),
                mem.free() == mem0.free(),
                mem.free_count() == mem0.free_count(),
                forall|q: usize| #[trigger] mem.owner(q) == mem0.owner(q),
                forall|q: usize| q < mem0.frame_count() && mem0.owner(q) != ms.owner() ==> #[trigger] mem.page(q) == mem0.page(q),
                mem0.frame_count() == old(mem).frame_count(),
                mem0.free() == old(mem).free(),
                mem0.free_count() == old(mem).free_count(),
                forall|q: usize| #[trigger] mem0.owner(q) == old(mem).owner(q),
                forall|q: usize| q < old(mem).frame_count() && old(mem).owner(q) != ms.owner() ==> #[trigger] mem0.page(q) == old(mem).page(q),
                holds_bytes(*ms, *mem, argv_base + WORD * n, le_seq(0, 8)),
                forall|k: int| 0 <= k < i ==> holds_bytes(*ms, *mem, argv_base + WORD * k, #[trigger] le_seq(arg_ptr(argv_base as int, s, k) as nat, 8)),
                forall|k: int| 0 <= k < i ==> holds_bytes(*ms, *mem, #[trigger] arg_ptr(argv_base as int, s, k), s[k]@),
                forall|k: int| 0 <= k < i ==> holds_bytes(*ms, *mem, #[trigger] arg_ptr(argv_base as int, s, k) + s[k]@.len(), seq![0u8]),
            decreases n - i,
        {
            proof {
                lemma_strs_len_mono(s, i + 1, n as int);
            }
            let len = args[i].len();
            sp = sp - (len + 1);
            let ptr_bytes = to_le(sp as u64, WORD);
            let slot = argv_base + i * WORD;
            proof {
                lemma_sub_range_ok(*ms, lo, asz, slot, 8);
                lemma_sub_range_ok(*ms, lo, asz, sp, len);
                lemma_sub_range_ok(*ms, lo, asz, (sp + len) as usize, 1);
            }
            let ghost m1 = *mem;
            ms.write_user_bytes(mem, slot, &ptr_bytes);
            let ghost m2 = *mem;
            ms.write_user_bytes(mem, sp, &args[i]);
            let ghost m3 = *mem;
            let term: Vec<u8> = vec![0u8];
            ms.write_user_bytes(mem, sp + len, &term);
            proof {
                lemma_le_len(0, 8);
                lemma_le_len(sp as nat, 8);
                let ab = argv_base as int;
                assert(sp == arg_ptr(ab, s, i as int));
                assert(term@ =~= seq![0u8]);
                // the terminator slot
                lemma_holds_kept(*ms, m1, m2, ab + WORD * n, le_seq(0, 8), slot as int, 8);
                lemma_holds_kept(*ms, m2, m3, ab + WORD * n, le_seq(0, 8), sp as int, len as int);
                lemma_holds_kept(*ms, m3, *mem, ab + WORD * n, le_seq(0, 8), sp + len, 1);
                // the new slot and string
                lemma_holds_kept(*ms, m2, m3, slot as int, ptr_bytes@, sp as int, len as int);
                lemma_holds_kept(*ms, m3, *mem, slot as int, ptr_bytes@, sp + len, 1);
                lemma_holds_kept(*ms, m3, *mem, sp as int, s[i as int]@, sp + len, 1);
                assert forall|k: int| 0 <= k < i + 1 implies holds_bytes(*ms, *mem, ab + WORD * k, #[trigger] le_seq(arg_ptr(ab, s, k) as nat, 8)) by {
                    if k < i {
                        lemma_le_len(arg_ptr(ab, s, k) as nat, 8);
                        lemma_holds_kept(*ms, m1, m2, ab + WORD * k, le_seq(arg_ptr(ab, s, k) as nat, 8), slot as int, 8);
                        lemma_holds_kept(*ms, m2, m3, ab + WORD * k, le_seq(arg_ptr(ab, s, k) as nat, 8), sp as int, len as int);
                        lemma_holds_kept(*ms, m3, *mem, ab + WORD * k, le_seq(arg_ptr(ab, s, k) as nat, 8), sp + len, 1);
                    }
                }
                assert forall|k: int| 0 <= k < i + 1 implies holds_bytes(*ms, *mem, #[trigger] arg_ptr(ab, s, k), s[k]@) by {
                    if k < i {
                        lemma_strs_len_mono(s, k + 1, i as int);
                        lemma_holds_kept(*ms, m1, m2, arg_ptr(ab, s, k), s[k]@, slot as int, 8);
                        lemma_holds_kept(*ms, m2, m3, arg_ptr(ab, s, k), s[k]@, sp as int, len as int);
                        lemma_holds_kept(*ms, m3, *mem, arg_ptr(ab, s, k), s[k]@, sp + len, 1);
                    }
                }
                assert forall|k: int| 0 <= k < i + 1 implies holds_bytes(*ms, *mem, #[trigger] arg_ptr(ab, s, k) + s[k]@.len(), seq![0u8]) by {
                    if k < i {
                        lemma_strs_len_mono(s, k + 1, i as int);
                        lemma_holds_kept(*ms, m1, m2, arg_ptr(ab, s, k) + s[k]@.len(), seq![0u8], slot as int, 8);
                        lemma_holds_kept(*ms, m2, m3, arg_ptr(ab, s, k) + s[k]@.len(), seq![0u8], sp as int, len as int);
                        lemma_holds_kept(*ms, m3, *mem, arg_ptr(ab, s, k) + s[k]@.len(), seq![0u8], sp + len, 1);
                    }
                }
            }
            i += 1;
        }
        sp = sp - sp % WORD;
        (sp, argv_base)
    }

    /// Exclusive access to the task's state.
    pub fn inner_exclusive_access(&mut self) -> (r: &mut TaskControlBlockInner)
        ensures
            *r == old(self).inner,
            final(self).inner == *final(r),
            final(self).pid == old(self).pid,
            final(self).kernel_stack_top == old(self).kernel_stack_top,
    {
        &mut self.inner
    }

    pub fn getpid(&self) -> (r: usize)
        ensures
            r == self.pid,
    {
        self.pid
    }

    /// Takes the oldest message out of the task's mailbox, if any.
    pub fn mailread(&mut self) -> (r: Option<Mail>)
        requires
            old(self).inner.mailbox.wf(),
        ensures
            final(self).inner.mailbox.wf(),
            final(self).pid == old(self).pid,
            old(self).inner.mailbox@.len() == 0 ==> r is None && final(self).inner.mailbox@ == old(self).inner.mailbox@,
            old(self).inner.mailbox@.len() > 0 ==> r == Some(old(self).inner.mailbox@[0])
                && final(self).inner.mailbox@ == old(self).inner.mailbox@.drop_first(),
            final(self).inner == (TaskControlBlockInner { mailbox: final(self).inner.mailbox, ..old(self).inner }),
            final(self).kernel_stack_top == old(self).kernel_stack_top,
    {
        if self.inner.mailbox.available_read() > 0 {
            Some(self.inner.mailbox.read())
        } else {
            None
        }
    }

    /// Appends `mail` to the task's mailbox; its length, or -1 when the
    /// mailbox is full.
    pub fn mailwrite(&mut self, mail: &Mail) -> (r: isize)
        requires
            old(self).inner.mailbox.wf(),
            mail.len <= crate::config::MAIL_MAXLEN,
        ensures
            final(self).inner.mailbox.wf(),
            final(self).pid == old(self).pid,
            old(self).inner.mailbox@.len() == crate::config::MAIL_BUFFER_SIZE ==> r == -1
                && *final(self) == *old(self),
            old(self).inner.mailbox@.len() < crate::config::MAIL_BUFFER_SIZE ==> r == mail.len
                && final(self).inner.mailbox@ == old(self).inner.mailbox@.push(*mail),
            final(self).inner == (TaskControlBlockInner { mailbox: final(self).inner.mailbox, ..old(self).inner }),
            final(self).kernel_stack_top == old(self).kernel_stack_top,
    {
        if self.inner.mailbox.write(mail) {
            mail.len as isize
        } else {
            -1
        }
    }

    /// The oldest message of the task's mailbox, left in place.
    pub fn mailpeek(&self) -> (r: Mail)
        requires
            self.inner.mailbox.wf(),
            self.inner.mailbox@.len() > 0,
        ensures
            r == self.inner.mailbox@[0],
    {
        self.inner.mailbox.peek()
    }

    pub fn mailread_available(&self) -> (r: usize)
        requires
            self.inner.mailbox.wf(),
        ensures
            r == self.inner.mailbox@.len(),
    {
        self.inner.mailbox.available_read()
    }

    pub fn mailwrite_available(&self) -> (r: usize)
        requires
            self.inner.mailbox.wf(),
        ensures
            r == crate::config::MAIL_BUFFER_SIZE - self.inner.mailbox@.len(),
    {
        self.inner.mailbox.available_write()
    }
}

impl TaskControlBlock {
    /// A task running `img` as process `pid`, its frames tagged `tag`:
    /// entry point and stack pointer from the image, the kernel's token,
    /// stack and trap handler in its trap context, the three standard
    /// streams, default signal actions, an empty mailbox. `None`, with
    /// nothing changed, when the image does not fit or memory is short.
    pub fn new(img: &ExecImage, mem: &mut PhysMemory, pid: usize, tag: usize, kernel_satp: u64, trap_handler: usize) -> (r: Option<Self>)
        requires
            old(mem).wf(),
            tag != FRAME_FREE,
            pid < MAX_PID,
        ensures
            final(mem).wf(),
            final(mem).frame_count() == old(mem).frame_count(),
            r is Some <==> image_fits(*img)
                && 3 * pages_upto(image_areas(*img), image_areas(*img).len() as int) + 3 <= old(mem).free_count(),
            r is None ==> *final(mem) == *old(mem),
            forall|q: usize| q < old(mem).frame_count() && old(mem).owner(q) != FRAME_FREE ==> #[trigger] final(mem).owner(q) == old(mem).owner(q),
            r matches Some(t) ==> {
                &&& t.pid == pid
                &&& t.kernel_stack_top == kernel_stack_top_of(pid)
                &&& is_fresh(t.inner)
                &&& t.inner.parent is None
                &&& t.inner.memory_set.wf_in(&*final(mem))
                &&& t.inner.memory_set.owner() == tag
                &&& t.inner.memory_set.area_seq() == image_areas(*img)
                &&& t.inner.trap_cx.sepc == img.entry
                &&& t.inner.trap_cx.x@[REG_SP as int] == (stack_bottom_vpn(*img) + USER_STACK_PAGES) * 4096
                &&& t.inner.trap_cx.kernel_satp == kernel_satp
                &&& t.inner.trap_cx.kernel_sp == kernel_stack_top_of(pid)
                &&& t.inner.trap_cx.trap_handler == trap_handler
                &&& t.inner.fd_table@ == seq![Some(FileDescriptor::Stdin), Some(FileDescriptor::Stdout), Some(FileDescriptor::Stdout)]
                &&& t.inner.signal_mask == 0
                &&& t.inner.signal_actions.wf()
                &&& forall|i: int| 0 <= i <= MAX_SIG ==> #[trigger] t.inner.signal_actions.table@[i] == (SignalAction { handler: 0, mask: 0 })
                &&& t.inner.mailbox.wf()
                &&& t.inner.mailbox@ == Seq::<Mail>::empty()
            },
    {
        let (memory_set, user_sp, entry) = match MemorySet::from_executable(img, mem, tag) {
            Some(x) => x,
            None => { return None; },
        };
        let kstack = kernel_stack_top(pid);
        let trap_cx = TrapContext::app_init_context(entry, user_sp, kernel_satp, kstack, trap_handler);
        let inner = fresh_inner(memory_set, trap_cx, user_sp, None, std_fds(), 0, SignalActions::new(), MailRingBuffer::new());
        Some(TaskControlBlock { pid, kernel_stack_top: kstack, inner })
    }

    /// A child of the calling task as process `pid`, its frames tagged `tag`: a
    /// copy of the address space, the trap context with the child's kernel
    /// stack, the same descriptors, signal mask, signal actions and
    /// mailbox contents. The child is added to the calling task's children.
    /// `None`, with nothing changed, when memory is short.
    pub fn fork(&mut self, mem: &mut PhysMemory, pid: usize, tag: usize) -> (r: Option<Self>)
        requires
            old(self).inner.memory_set.wf_in(&*old(mem)),
            old(self).inner.mailbox.wf(),
            tag != FRAME_FREE,
            tag != old(self).inner.memory_set.owner(),
            pid < MAX_PID,
        ensures
            final(mem).wf(),
            final(mem).frame_count() == old(mem).frame_count(),
            final(self).inner.memory_set == old(self).inner.memory_set,
            final(self).inner.memory_set.wf_in(&*final(mem)),
            r is Some <==> 3 * old(self).inner.memory_set.page_count() + 3 <= old(mem).free_count(),
            r is None ==> *final(mem) == *old(mem) && *final(self) == *old(self),
            forall|q: usize| q < old(mem).frame_count() && old(mem).owner(q) != FRAME_FREE ==> #[trigger] final(mem).owner(q) == old(mem).owner(q),
            forall|q: usize| q < old(mem).frame_count() && old(mem).owner(q) != FRAME_FREE ==> #[trigger] final(mem).page(q) == old(mem).page(q),
            final(self).pid == old(self).pid,
            final(self).kernel_stack_top == old(self).kernel_stack_top,
            r is Some ==> final(self).inner == (TaskControlBlockInner { children: final(self).inner.children, ..old(self).inner }),
            r is Some ==> final(self).inner.children@ == old(self).inner.children@.push(pid),
            r matches Some(c) ==> {
                &&& c.pid == pid
                &&& c.kernel_stack_top == kernel_stack_top_of(pid)
                &&& is_fresh(c.inner)
                &&& c.inner.parent == Some(old(self).pid)
                &&& c.inner.memory_set.wf_in(&*final(mem))
                &&& c.inner.memory_set.owner() == tag
                &&& c.inner.memory_set.area_seq() == old(self).inner.memory_set.area_seq()
                &&& forall|v: usize| #[trigger] c.inner.memory_set.mapping().contains_key(v) == old(self).inner.memory_set.mapping().contains_key(v)
                &&& forall|a: usize| #[trigger] c.inner.memory_set.user_byte(&*final(mem), a) == old(self).inner.memory_set.user_byte(&*final(mem), a)
                &&& c.inner.trap_cx == (TrapContext { kernel_sp: kernel_stack_top_of(pid), ..old(self).inner.trap_cx })
                &&& c.inner.base_size == old(self).inner.base_size
                &&& c.inner.fd_table@ == old(self).inner.fd_table@
                &&& c.inner.signal_mask == old(self).inner.signal_mask
                &&& c.inner.signal_actions.table@ == old(self).inner.signal_actions.table@
                &&& c.inner.mailbox.wf()
                &&& c.inner.mailbox@ == old(self).inner.mailbox@
            },
    {
        let memory_set = match MemorySet::from_existing(&self.inner.memory_set, mem, tag) {
            Some(ms) => ms,
            None => { return None; },
        };
        let kstack = kernel_stack_top(pid);
        let mut trap_cx = self.inner.trap_cx;
        trap_cx.kernel_sp = kstack;
        let fd_table = self.inner.fd_table.clone();
        assert(fd_table@ =~= self.inner.fd_table@);
        let inner = fresh_inner(
            memory_set,
            trap_cx,
            self.inner.base_size,
            Some(self.pid),
            fd_table,
            self.inner.signal_mask,
            self.inner.signal_actions.duplicate(),
            self.inner.mailbox.duplicate(),
        );
        self.inner.children.push(pid);
        Some(TaskControlBlock { pid, kernel_stack_top: kstack, inner })
    }
}

impl TaskControlBlock {
    /// A new child of the calling task as process `pid` running `img` with the
    /// argument vector `args` on its stack, its frames tagged `tag`: `a0`
    /// holds the argument count and `a1` the pointer array. `None`, with
    /// nothing changed, when the image does not fit, memory is short, or
    /// the arguments take more than the user stack.
    pub fn spawn(&mut self, img: &ExecImage, args: &Vec<Vec<u8>>, mem: &mut PhysMemory, pid: usize, tag: usize, kernel_satp: u64, trap_handler: usize) -> (r: Option<Self>)
        requires
            old(mem).wf(),
            tag != FRAME_FREE,
            pid < MAX_PID,
        ensures
            final(mem).wf(),
            final(mem).frame_count() == old(mem).frame_count(),
            r is Some <==> image_fits(*img) && args_size(args@) <= USER_STACK_SIZE
                && 3 * pages_upto(image_areas(*img), image_areas(*img).len() as int) + 3 <= old(mem).free_count(),
            r is None ==> *final(mem) == *old(mem) && *final(self) == *old(self),
            forall|q: usize| q < old(mem).frame_count() && old(mem).owner(q) != FRAME_FREE ==> #[trigger] final(mem).owner(q) == old(mem).owner(q),
            forall|q: usize| q < old(mem).frame_count() && old(mem).owner(q) != FRAME_FREE && old(mem).owner(q) != tag
                ==> #[trigger] final(mem).page(q) == old(mem).page(q),
            final(self).pid == old(self).pid,
            final(self).kernel_stack_top == old(self).kernel_stack_top,
            r is Some ==> final(self).inner == (TaskControlBlockInner { children: final(self).inner.children, ..old(self).inner }),
            r is Some ==> final(self).inner.children@ == old(self).inner.children@.push(pid),
            r matches Some(c) ==> {
                &&& c.pid == pid
                &&& c.kernel_stack_top == kernel_stack_top_of(pid)
                &&& is_fresh(c.inner)
                &&& c.inner.parent == Some(old(self).pid)
                &&& c.inner.memory_set.wf_in(&*final(mem))
                &&& c.inner.memory_set.owner() == tag
                &&& c.inner.memory_set.area_seq() == image_areas(*img)
                &&& c.inner.trap_cx.sepc == img.entry
                &&& c.inner.trap_cx.x@[REG_A0 as int] == args@.len()
                &&& c.inner.trap_cx.x@[REG_SP as int] % 8 == 0
                &&& c.inner.trap_cx.x@[REG_SP as int] <= c.inner.trap_cx.x@[REG_A1 as int]
                &&& c.inner.trap_cx.x@[REG_A1 as int] == (stack_bottom_vpn(*img) + USER_STACK_PAGES) * 4096 - WORD * (args@.len() + 1)
                &&& argv_placed(c.inner.memory_set, *final(mem), c.inner.trap_cx.x@[REG_A1 as int] as int, args@)
                &&& c.inner.trap_cx.kernel_satp == kernel_satp
                &&& c.inner.trap_cx.kernel_sp == kernel_stack_top_of(pid)
                &&& c.inner.trap_cx.trap_handler == trap_handler
                &&& c.inner.fd_table@ == seq![Some(FileDescriptor::Stdin), Some(FileDescriptor::Stdout), Some(FileDescriptor::Stdout)]
                &&& c.inner.signal_mask == 0
                &&& c.inner.signal_actions.wf()
                &&& c.inner.mailbox.wf()
                &&& c.inner.mailbox@ == Seq::<Mail>::empty()
            },
    {
        if !args_fit(args) {
            return None;
        }
        let (memory_set, user_sp, entry) = match MemorySet::from_executable(img, mem, tag) {
            Some(x) => x,
            None => { return None; },
        };
        proof {
            lemma_stack_covered(memory_set, *img);
            lemma_sub_range_ok(memory_set, (user_sp - USER_STACK_SIZE) as usize, USER_STACK_SIZE,
                (user_sp - args_size(args@)) as usize, args_size(args@) as usize);
        }
        let (sp, argv_base) = TaskControlBlock::init_args(&memory_set, mem, user_sp, args);
        let kstack = kernel_stack_top(pid);
        let mut trap_cx = TrapContext::app_init_context(entry, sp, kernel_satp, kstack, trap_handler);
        trap_cx.set_reg(REG_A0, args.len());
        trap_cx.set_reg(REG_A1, argv_base);
        let inner = fresh_inner(memory_set, trap_cx, sp, Some(self.pid), std_fds(), 0, SignalActions::new(), MailRingBuffer::new());
        self.inner.children.push(pid);
        Some(TaskControlBlock { pid, kernel_stack_top: kstack, inner })
    }

    /// Replaces the calling task's program with `img` and the argument vector
    /// `args`, in a new address space tagged `tag`; every frame of the old
    /// space, page-table frames included, goes back to `mem`. Process id, kernel stack, descriptors, links and
    /// signal state stay. `false`, with nothing changed, when the image
    /// does not fit, memory is short, or the arguments take more than the
    /// user stack.
    pub fn exec(&mut self, img: &ExecImage, args: &Vec<Vec<u8>>, mem: &mut PhysMemory, tag: usize) -> (r: bool)
        requires
            old(self).inner.memory_set.wf_in(&*old(mem)),
            tag != FRAME_FREE,
            tag != old(self).inner.memory_set.owner(),
        ensures
            final(mem).wf(),
            final(mem).frame_count() == old(mem).frame_count(),
            r <==> image_fits(*img) && args_size(args@) <= USER_STACK_SIZE
                && 3 * pages_upto(image_areas(*img), image_areas(*img).len() as int) + 3 <= old(mem).free_count(),
            !r ==> *final(mem) == *old(mem) && *final(self) == *old(self),
            forall|q: usize| q < old(mem).frame_count() && old(mem).owner(q) != FRAME_FREE && old(mem).owner(q) != old(self).inner.memory_set.owner()
                ==> #[trigger] final(mem).owner(q) == old(mem).owner(q),
            final(self).pid == old(self).pid,
            final(self).kernel_stack_top == old(self).kernel_stack_top,
            r ==> final(self).inner == (TaskControlBlockInner {
                memory_set: final(self).inner.memory_set,
                trap_cx: final(self).inner.trap_cx,
                ..old(self).inner
            }),
            r ==> {
                &&& final(self).inner.memory_set.wf_in(&*final(mem))
                &&& final(self).inner.memory_set.owner() == tag
                &&& final(self).inner.memory_set.area_seq() == image_areas(*img)
                &&& final(self).inner.trap_cx.sepc == img.entry
                &&& final(self).inner.trap_cx.x@[REG_A0 as int] == args@.len()
                &&& final(self).inner.trap_cx.x@[REG_SP as int] % 8 == 0
                &&& final(self).inner.trap_cx.x@[REG_SP as int] <= final(self).inner.trap_cx.x@[REG_A1 as int]
                &&& final(self).inner.trap_cx.x@[REG_A1 as int] == (stack_bottom_vpn(*img) + USER_STACK_PAGES) * 4096 - WORD * (args@.len() + 1)
                &&& argv_placed(final(self).inner.memory_set, *final(mem), final(self).inner.trap_cx.x@[REG_A1 as int] as int, args@)
                &&& final(self).inner.trap_cx.kernel_satp == old(self).inner.trap_cx.kernel_satp
                &&& final(self).inner.trap_cx.kernel_sp == old(self).kernel_stack_top
                &&& final(self).inner.trap_cx.trap_handler == old(self).inner.trap_cx.trap_handler
            },
            !r ==> final(self).inner.memory_set.wf_in(&*final(mem)),
    {
        if !args_fit(args) {
            return false;
        }
        let ghost mem0 = *mem;
        let (memory_set, user_sp, entry) = match MemorySet::from_executable(img, mem, tag) {
            Some(x) => x,
            None => { return false; },
        };
        proof {
            lemma_stack_covered(memory_set, *img);
            lemma_sub_range_ok(memory_set, (user_sp - USER_STACK_SIZE) as usize, USER_STACK_SIZE,
                (user_sp - args_size(args@)) as usize, args_size(args@) as usize);
        }
        let (sp, argv_base) = TaskControlBlock::init_args(&memory_set, mem, user_sp, args);
        let ghost mem1 = *mem;
        proof {
            self.inner.memory_set.lemma_owner_nonfree();
            lemma_wf_in_stable(&self.inner.memory_set, &mem0, &*mem);
        }
        let old_tag = self.inner.memory_set.page_table_owner_tag();
        self.inner.memory_set.recycle_data_pages(mem);
        mem.release_owned(old_tag);
        proof {
            lemma_wf_in_stable(&memory_set, &mem1, &*mem);
            assert(argv_placed(memory_set, *mem, argv_base as int, args@)) by {
                lemma_argv_kept(memory_set, mem1, *mem, argv_base as int, args@);
            }
        }
        let mut trap_cx = TrapContext::app_init_context(entry, sp, self.inner.trap_cx.kernel_satp, self.kernel_stack_top, self.inner.trap_cx.trap_handler);
        trap_cx.set_reg(REG_A0, args.len());
        trap_cx.set_reg(REG_A1, argv_base);
        self.inner.memory_set = memory_set;
        self.inner.trap_cx = trap_cx;
        true
    }
}

/// Whether the argument vector fits the user stack.
fn args_fit(args: &Vec<Vec<u8>>) -> (r: bool)
    ensures
        r == (args_size(args@) <= USER_STACK_SIZE),
{
    let n = args.len();
    if n > USER_STACK_SIZE / WORD - 1 {
        proof { lemma_strs_len_mono(args@, 0, n as int); }
        return false;
    }
    let mut total: usize = WORD * (n + 1);
    let mut i: usize = 0;
    while i < n
        invariant
            n == args@.len(),
            i <= n,
            n + 1 <= USER_STACK_SIZE / WORD,
            total == WORD * (n + 1) + strs_len(args@, i as int),
            total <= USER_STACK_SIZE + 0,
        decreases n - i,
    {
        let len = args[i].len();
        if len >= USER_STACK_SIZE - total {
            proof { lemma_strs_len_mono(args@, i + 1, n as int); }
            return false;
        }
        total = total + len + 1;
        i += 1;
    }
    true
}

/// Memory that keeps every user byte of `ms` keeps its argument vector.
proof fn lemma_argv_kept(ms: MemorySet, m1: PhysMemory, m2: PhysMemory, argv_base: int, args: Seq<Vec<u8>>)
    requires
        argv_placed(ms, m1, argv_base, args),
        forall|a: usize| #[trigger] ms.user_byte(&m2, a) == ms.user_byte(&m1, a),
    ensures
        argv_placed(ms, m2, argv_base, args),
{
    assert forall|i: int| 0 <= i < args.len() implies holds_bytes(ms, m2, argv_base + WORD * i, #[trigger] le_seq(arg_ptr(argv_base, args, i) as nat, 8)) by {
        assert(holds_bytes(ms, m1, argv_base + WORD * i, le_seq(arg_ptr(argv_base, args, i) as nat, 8)));
    }
    assert forall|i: int| 0 <= i < args.len() implies holds_bytes(ms, m2, #[trigger] arg_ptr(argv_base, args, i), args[i]@) by {
        assert(holds_bytes(ms, m1, arg_ptr(argv_base, args, i), args[i]@));
    }
    assert forall|i: int| 0 <= i < args.len() implies holds_bytes(ms, m2, #[trigger] arg_ptr(argv_base, args, i) + args[i]@.len(), seq![0u8]) by {
        assert(holds_bytes(ms, m1, arg_ptr(argv_base, args, i) + args[i]@.len(), seq![0u8]));
    }
}

/// How often a task made one system call.
#[derive(Debug, Clone, Copy, PartialEq, Eq, Structural)]
pub struct SyscallInfo {
    pub id: usize,
    pub times: usize,
}

/// Accounting of one task: its status, the calls it made, its run time.
pub struct TaskInfo {
    pub id: usize,
    pub status: TaskStatus,
    pub call: Vec<SyscallInfo>,
    pub total_time: usize,
    pub last_start: usize,
}

/// The accounting a task reads back, with a fixed table of calls.
#[derive(Clone, Copy)]
pub struct UserTaskInfo {
    pub id: usize,
    pub status: TaskStatus,
    pub call: [SyscallInfo; MAX_SYSCALL_NUM],
    pub total_time: usize,
}

impl TaskInfo {
    /// Accounting of a new ready task `id`: no calls, no time.
    pub fn init(id: usize) -> (r: Self)
        ensures
            r.id == id,
            r.status == TaskStatus::Ready,
            r.call@ == Seq::<SyscallInfo>::empty(),
            r.total_time == 0,
            r.last_start == 0,
    {
        Self { id, status: TaskStatus::Ready, call: Vec::new(), total_time: 0, last_start: 0 }
    }

    /// The accounting as a task reads it: the recorded calls first, the
    /// rest of the table zero.
    pub fn user(&self) -> (r: UserTaskInfo)
        requires
            self.call@.len() <= MAX_SYSCALL_NUM,
        ensures
            r.id == self.id,
            r.status == self.status,
            r.total_time == self.total_time,
            forall|i: int| 0 <= i < self.call@.len() ==> r.call@[i] == self.call@[i],
            forall|i: int| self.call@.len() <= i < MAX_SYSCALL_NUM ==> r.call@[i] == (SyscallInfo { id: 0, times: 0 }),
    {
        let mut ret = UserTaskInfo {
            id: self.id,
            status: self.status,
            call: [SyscallInfo { id: 0, times: 0 }; MAX_SYSCALL_NUM],
            total_time: self.total_time,
        };
        let mut ind: usize = 0;
        while ind < self.call.len()
            invariant
                self.call@.len() <= MAX_SYSCALL_NUM,
                ind <= self.call@.len(),
                ret.id == self.id,
                ret.status == self.status,
                ret.total_time == self.total_time,
                forall|i: int| 0 <= i < ind ==> ret.call@[i] == self.call@[i],
                forall|i: int| self.call@.len() <= i < MAX_SYSCALL_NUM ==> ret.call@[i] == (SyscallInfo { id: 0, times: 0 }),
            decreases self.call@.len() - ind,
        {
            ret.call[ind] = self.call[ind];
            ind += 1;
        }
        ret
    }
}

/// How two tasks compare in the ready queue: by stride, modulo 256;
/// `Greater` runs first.
pub fn tcb_cmp(this: &TaskControlBlock, other: &TaskControlBlock) -> (r: Ordering)
    ensures
        r == Ordering::Equal <==> this.inner.stride == other.inner.stride,
        r == Ordering::Greater <==> crate::manager::stride_before(this.inner.stride, other.inner.stride),
{
    stride_cmp(this.inner.stride, other.inner.stride)
}

} // verus!
