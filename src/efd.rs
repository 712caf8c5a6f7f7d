//! Mutex and semaphore objects used through descriptors: a read acquires,
//! a write releases. A blocking object that cannot proceed reports that
//! the caller must wait and changes nothing; the caller suspends and
//! retries.
use vstd::prelude::*;
use crate::word::{le_seq, le_val, lemma_le_len, WORD};

verus! {

/// File status as a descriptor reports it.
#[derive(Debug, Clone, Copy, PartialEq, Eq, Structural)]
pub struct Stat {
    pub dev: u64,
    pub ino: u64,
    pub mode: u32,
    pub nlink: u32,
}

/// Mode of a status that names no file.
pub const STAT_MODE_NULL: u32 = 0;
/// Mode of a directory.
pub const STAT_MODE_DIR: u32 = 0o040000;
/// Mode of a regular file.
pub const STAT_MODE_FILE: u32 = 0o100000;

impl Stat {
    /// The status of an object that is no file.
    pub fn empty() -> (r: Self)
        ensures
            r == (Stat { dev: 0, ino: 0, mode: STAT_MODE_NULL, nlink: 0 }),
    {
        Stat { dev: 0, ino: 0, mode: STAT_MODE_NULL, nlink: 0 }
    }
}

/// How a descriptor operation ended.
#[derive(Debug, Clone, Copy, PartialEq, Eq, Structural)]
pub enum FdOutcome {
    /// Done, moving this many bytes or units.
    Done(usize),
    /// A non-blocking object is not available.
    WouldBlock,
    /// A blocking object is not available: the caller must wait and retry.
    MustWait,
}

/// A mutex holding a word: a read takes the word and leaves 0, a write
/// stores one. In blocking mode a lock guards the object: it is released
/// when the word goes from 0 to non-zero and taken when it goes back.
pub struct MutexFD {
    content: u64,
    block: bool,
    locked: bool,
    fd: usize,
}

impl MutexFD {
    pub closed spec fn content_of(&self) -> u64 {
        self.content
    }

    pub closed spec fn is_blocking(&self) -> bool {
        self.block
    }

    pub closed spec fn is_locked(&self) -> bool {
        self.locked
    }

    /// A blocking mutex is held only while its word is 0.
    pub closed spec fn wf(&self) -> bool {
        self.block && self.locked ==> self.content == 0
    }

    /// A mutex holding `initval`; in blocking mode it starts locked when
    /// `initval` is 0.
    pub fn new(initval: u64, block: bool, fd: usize) -> (r: Self)
        ensures
            r.content_of() == initval,
            r.is_blocking() == block,
            r.is_locked() == (block && initval == 0),
            r.wf(),
    {
        Self { content: initval, block, locked: block && initval == 0, fd }
    }

    pub fn readable(&self) -> (r: bool)
        ensures
            r,
    {
        true
    }

    pub fn writable(&self) -> (r: bool)
        ensures
            r,
    {
        true
    }

    pub fn stat(&self) -> (r: Stat)
        ensures
            r == (Stat { dev: 0, ino: 0, mode: STAT_MODE_NULL, nlink: 0 }),
    {
        Stat::empty()
    }

    /// Takes the word: its low bytes, least significant first, go into
    /// `buf` (as many as fit, at most a word), it becomes 0, and the count
    /// of bytes is returned. Blocking: waits while locked, else takes the
    /// lock. Non-blocking: would block while the word is 0.
    pub fn read(&mut self, buf: &mut Vec<u8>) -> (r: FdOutcome)
        requires
            old(self).wf(),
        ensures
            final(self).wf(),
            old(self).is_blocking() && old(self).is_locked() ==> r == FdOutcome::MustWait
                && *final(self) == *old(self) && final(buf)@ == old(buf)@,
            !old(self).is_blocking() && old(self).content_of() == 0 ==> r == FdOutcome::WouldBlock
                && *final(self) == *old(self) && final(buf)@ == old(buf)@,
            (old(self).is_blocking() && !old(self).is_locked()) || (!old(self).is_blocking() && old(self).content_of() != 0) ==> {
                let n = if old(buf)@.len() < WORD { old(buf)@.len() as int } else { WORD as int };
                &&& r == FdOutcome::Done(n as usize)
                &&& final(self).content_of() == 0
                &&& final(self).is_blocking() == old(self).is_blocking()
                &&& final(self).is_locked() == (old(self).is_blocking() || old(self).is_locked())
                &&& final(buf)@.len() == old(buf)@.len()
                &&& final(buf)@.take(n) == le_seq(old(self).content_of() as nat, n as nat)
                &&& final(buf)@.skip(n) == old(buf)@.skip(n)
            },
    {
        if self.block {
            if self.locked {
                return FdOutcome::MustWait;
            }
            self.locked = true;
        } else if self.content == 0 {
            return FdOutcome::WouldBlock;
        }
        let bytes = crate::word::to_le(self.content, WORD);
        let n = if buf.len() < WORD { buf.len() } else { WORD };
        let mut i: usize = 0;
        while i < n
            invariant
                n <= WORD,
                n <= buf@.len(),
                bytes@.len() == WORD,
                i <= n,
                buf@.len() == old(buf)@.len(),
                forall|j: int| 0 <= j < i ==> buf@[j] == bytes@[j],
                forall|j: int| i <= j < buf@.len() ==> buf@[j] == old(buf)@[j],
            decreases n - i,
        {
            buf.set(i, bytes[i]);
            i += 1;
        }
        proof {
            lemma_le_prefix(self.content as nat, n as nat, WORD as nat);
            assert(buf@.take(n as int) =~= bytes@.take(n as int));
            assert(buf@.skip(n as int) =~= old(buf)@.skip(n as int));
        }
        self.content = 0;
        FdOutcome::Done(n)
    }

    /// Stores the word read from the first bytes of `buf` (at most a word,
    /// least significant first, missing bytes 0); the count of bytes is
    /// returned. Blocking: a word going from 0 to non-zero releases the
    /// lock, one going back takes it; the lock is free then, since a held
    /// lock means the word is 0.
    pub fn write(&mut self, buf: &Vec<u8>) -> (r: FdOutcome)
        requires
            old(self).wf(),
        ensures
            final(self).wf(),
            ({
                let n = if buf@.len() < WORD { buf@.len() as int } else { WORD as int };
                let new = le_val(buf@.take(n));
                let old_c = old(self).content_of();
                &&& r == FdOutcome::Done(n as usize)
                &&& final(self).content_of() == new
                &&& final(self).is_blocking() == old(self).is_blocking()
                &&& final(self).is_locked() == if old(self).is_blocking() && new != 0 && old_c == 0 {
                    false
                } else if old(self).is_blocking() && new == 0 && old_c != 0 {
                    true
                } else {
                    old(self).is_locked()
                }
            }),
    {
        let n = if buf.len() < WORD { buf.len() } else { WORD };
        let mut bytes: Vec<u8> = Vec::new();
        let mut i: usize = 0;
        while i < n
            invariant
                n <= WORD,
                n <= buf@.len(),
                i <= n,
                bytes@ == buf@.take(i as int),
            decreases n - i,
        {
            bytes.push(buf[i]);
            i += 1;
            assert(bytes@ =~= buf@.take(i as int));
        }
        let new_content = crate::word::from_le(&bytes);
        let old_content = self.content;
        self.content = new_content;
        if self.block {
            if new_content != 0 && old_content == 0 {
                self.locked = false;
            } else if new_content == 0 && old_content != 0 {
                self.locked = true;
            }
        }
        FdOutcome::Done(n)
    }
}

/// The first `n` bytes of a number's `m`-byte encoding are its `n`-byte
/// encoding.
proof fn lemma_le_prefix(x: nat, n: nat, m: nat)
    requires
        n <= m,
    ensures
        le_seq(x, m).take(n as int) == le_seq(x, n),
    decreases n,
{
    lemma_le_len(x, m);
    lemma_le_len(x, n);
    if n > 0 {
        lemma_le_prefix(x / 256, (n - 1) as nat, (m - 1) as nat);
        assert(le_seq(x, m).take(n as int) =~= le_seq(x, n));
    }
}

/// A counting semaphore: a read takes a unit, a write gives one back.
pub struct SemaphoreFD {
    res: usize,
    block: bool,
    fd: usize,
}

impl SemaphoreFD {
    pub closed spec fn count(&self) -> usize {
        self.res
    }

    pub closed spec fn is_blocking(&self) -> bool {
        self.block
    }

    /// A semaphore with `initval` units.
    pub fn new(initval: usize, block: bool, fd: usize) -> (r: Self)
        ensures
            r.count() == initval,
            r.is_blocking() == block,
    {
        Self { res: initval, block, fd }
    }

    pub fn readable(&self) -> (r: bool)
        ensures
            r,
    {
        true
    }

    pub fn writable(&self) -> (r: bool)
        ensures
            r,
    {
        true
    }

    pub fn stat(&self) -> (r: Stat)
        ensures
            r == (Stat { dev: 0, ino: 0, mode: STAT_MODE_NULL, nlink: 0 }),
    {
        Stat::empty()
    }

    /// Takes a unit: 1 when one was there; otherwise the caller must wait
    /// (blocking) or would block (non-blocking), with nothing changed.
    pub fn read(&mut self) -> (r: FdOutcome)
        ensures
            final(self).is_blocking() == old(self).is_blocking(),
            old(self).count() > 0 ==> r == FdOutcome::Done(1) && final(self).count() == old(self).count() - 1,
            old(self).count() == 0 ==> *final(self) == *old(self)
                && r == if old(self).is_blocking() { FdOutcome::MustWait } else { FdOutcome::WouldBlock },
    {
        if self.res == 0 {
            if self.block {
                FdOutcome::MustWait
            } else {
                FdOutcome::WouldBlock
            }
        } else {
            self.res = self.res - 1;
            FdOutcome::Done(1)
        }
    }

    /// Gives a unit back; 1. The count stops at its largest value.
    pub fn write(&mut self) -> (r: FdOutcome)
        ensures
            r == FdOutcome::Done(1),
            final(self).is_blocking() == old(self).is_blocking(),
            final(self).count() == if old(self).count() < usize::MAX { old(self).count() + 1 } else { old(self).count() as int },
    {
        if self.res < usize::MAX {
            self.res = self.res + 1;
        }
        FdOutcome::Done(1)
    }
}

} // verus!
