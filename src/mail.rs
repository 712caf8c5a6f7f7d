//! Fixed-capacity mailbox: a ring buffer of fixed-size messages whose
//! explicit status flag tells a full buffer from an empty one.
use vstd::prelude::*;
use crate::config::{MAIL_BUFFER_SIZE, MAIL_MAXLEN};

verus! {

/// One message: a payload of `len` meaningful bytes out of `content`.
#[derive(Clone, Copy)]
pub struct Mail {
    pub content: [u8; MAIL_MAXLEN],
    pub len: usize,
}

impl Mail {
    /// A message with no payload.
    pub fn empty() -> (r: Self)
        ensures
            r.len == 0,
            forall|i: int| 0 <= i < MAIL_MAXLEN ==> r.content@[i] == 0u8,
    {
        Self { content: [0u8; MAIL_MAXLEN], len: 0 }
    }
}

/// Whether `head == tail` means a full or an empty buffer.
#[derive(Debug, Clone, Copy, PartialEq, Eq, Structural)]
pub enum RingBufferStatus {
    Full,
    Empty,
    Normal,
}

/// A mailbox of `MAIL_BUFFER_SIZE` slots; messages leave in the order
/// they were written.
#[derive(Clone)]
pub struct MailRingBuffer {
    mails: Vec<Mail>,
    head: usize,
    tail: usize,
    status: RingBufferStatus,
}

impl View for MailRingBuffer {
    type V = Seq<Mail>;

    /// The queued messages, oldest first.
    closed spec fn view(&self) -> Seq<Mail> {
        Seq::new(self.count(), |i: int| self.mails@[(self.head + i) % (MAIL_BUFFER_SIZE as int)])
    }
}

impl MailRingBuffer {
    /// Number of queued messages, as the indices and the status give it.
    closed spec fn count(&self) -> nat {
        if self.status == RingBufferStatus::Empty {
            0
        } else if self.tail > self.head {
            (self.tail - self.head) as nat
        } else {
            (self.tail + MAIL_BUFFER_SIZE - self.head) as nat
        }
    }

    /// Slots exist, indices are in range, and the status agrees with them.
    pub closed spec fn wf(&self) -> bool {
        &&& self.mails@.len() == MAIL_BUFFER_SIZE
        &&& self.head < MAIL_BUFFER_SIZE
        &&& self.tail < MAIL_BUFFER_SIZE
        &&& (self.status == RingBufferStatus::Empty || self.status == RingBufferStatus::Full)
            <==> self.head == self.tail
        &&& forall|i: int| 0 <= i < MAIL_BUFFER_SIZE ==> (#[trigger] self.mails@[i]).len <= MAIL_MAXLEN
    }

    /// Every queued message's length is at most `MAIL_MAXLEN`.
    pub proof fn lemma_lengths(&self)
        requires
            self.wf(),
        ensures
            forall|i: int| 0 <= i < self@.len() ==> (#[trigger] self@[i]).len <= MAIL_MAXLEN,
    {
        assert forall|i: int| 0 <= i < self@.len() implies (#[trigger] self@[i]).len <= MAIL_MAXLEN by {
            assert(self@[i] == self.mails@[(self.head + i) % (MAIL_BUFFER_SIZE as int)]);
        }
    }

    /// The status flag, as a function of the queued messages.
    pub open spec fn status_of(q: Seq<Mail>) -> RingBufferStatus {
        if q.len() == 0 {
            RingBufferStatus::Empty
        } else if q.len() == MAIL_BUFFER_SIZE {
            RingBufferStatus::Full
        } else {
            RingBufferStatus::Normal
        }
    }

    proof fn lemma_count(&self)
        requires
            self.wf(),
        ensures
            self@.len() == self.count(),
            self.count() <= MAIL_BUFFER_SIZE,
            self.status == Self::status_of(self@),
    {
    }

    /// An empty mailbox.
    pub fn new() -> (r: Self)
        ensures
            r.wf(),
            r@ == Seq::<Mail>::empty(),
    {
        let mut mails: Vec<Mail> = Vec::new();
        let mut i: usize = 0;
        while i < MAIL_BUFFER_SIZE
            invariant
                i <= MAIL_BUFFER_SIZE,
                mails@.len() == i,
                forall|j: int| 0 <= j < i ==> (#[trigger] mails@[j]).len == 0,
            decreases MAIL_BUFFER_SIZE - i,
        {
            mails.push(Mail::empty());
            i += 1;
        }
        let r = Self { mails, head: 0, tail: 0, status: RingBufferStatus::Empty };
        assert(r@ =~= Seq::<Mail>::empty());
        r
    }

    /// A mailbox holding the same messages.
    pub fn duplicate(&self) -> (r: Self)
        requires
            self.wf(),
        ensures
            r.wf(),
            r@ == self@,
    {
        let mut mails: Vec<Mail> = Vec::new();
        let mut i: usize = 0;
        while i < self.mails.len()
            invariant
                i <= self.mails@.len(),
                mails@ == self.mails@.take(i as int),
            decreases self.mails@.len() - i,
        {
            mails.push(self.mails[i]);
            i += 1;
            assert(mails@ =~= self.mails@.take(i as int));
        }
        assert(mails@ =~= self.mails@);
        Self { mails, head: self.head, tail: self.tail, status: self.status }
    }

    /// The current status flag.
    pub fn status(&self) -> (r: RingBufferStatus)
        requires
            self.wf(),
        ensures
            r == Self::status_of(self@),
    {
        proof { self.lemma_count(); }
        self.status
    }

    /// Number of messages that can be read.
    pub fn available_read(&self) -> (r: usize)
        requires
            self.wf(),
        ensures
            r == self@.len(),
    {
        proof { self.lemma_count(); }
        if self.status == RingBufferStatus::Empty {
            0
        } else if self.tail > self.head {
            self.tail - self.head
        } else {
            self.tail + MAIL_BUFFER_SIZE - self.head
        }
    }

    /// Number of messages that can still be written.
    pub fn available_write(&self) -> (r: usize)
        requires
            self.wf(),
        ensures
            r == MAIL_BUFFER_SIZE - self@.len(),
    {
        proof { self.lemma_count(); }
        if self.status == RingBufferStatus::Full {
            0
        } else {
            MAIL_BUFFER_SIZE - self.available_read()
        }
    }

    /// The oldest message, left in place.
    pub fn peek(&self) -> (m: Mail)
        requires
            self.wf(),
            self@.len() > 0,
        ensures
            m == self@[0],
    {
        proof { self.lemma_count(); }
        self.mails[self.head]
    }

    /// Takes the oldest message out.
    pub fn read(&mut self) -> (m: Mail)
        requires
            old(self).wf(),
            old(self)@.len() > 0,
        ensures
            final(self).wf(),
            m == old(self)@[0],
            final(self)@ == old(self)@.drop_first(),
    {
        proof { self.lemma_count(); }
        self.status = RingBufferStatus::Normal;
        let m = self.mails[self.head];
        self.head = (self.head + 1) % MAIL_BUFFER_SIZE;
        if self.head == self.tail {
            self.status = RingBufferStatus::Empty;
        }
        assert(self@ =~= old(self)@.drop_first()) by {
            assert forall|i: int| 0 <= i < self@.len() implies self@[i] == old(self)@.drop_first()[i] by {
                assert((self.head + i) % 16 == (old(self).head + (i + 1)) % 16);
            }
        }
        m
    }

    /// Appends a message after the newest one; a full mailbox refuses it
    /// and stays as it was.
    pub fn write(&mut self, mail: &Mail) -> (ok: bool)
        requires
            old(self).wf(),
            mail.len <= MAIL_MAXLEN,
        ensures
            final(self).wf(),
            ok == (old(self)@.len() < MAIL_BUFFER_SIZE),
            ok ==> final(self)@ == old(self)@.push(*mail),
            !ok ==> *final(self) == *old(self),
    {
        proof { self.lemma_count(); }
        if self.status == RingBufferStatus::Full {
            return false;
        }
        self.status = RingBufferStatus::Normal;
        self.mails.set(self.tail, *mail);
        self.tail = (self.tail + 1) % MAIL_BUFFER_SIZE;
        if self.tail == self.head {
            self.status = RingBufferStatus::Full;
        }
        assert(self@ =~= old(self)@.push(*mail)) by {
            assert forall|i: int| 0 <= i < self@.len() implies self@[i] == old(self)@.push(*mail)[i] by {
                if i < old(self)@.len() {
                    assert((self.head + i) % 16 != old(self).tail);
                }
            }
        }
        true
    }
}

} // verus!
