//! Stride scheduling: a ready queue of process ids, picked by smallest
//! stride under an 8-bit wraparound comparison.
use vstd::prelude::*;
use core::cmp::Ordering;

verus! {

/// Stride distance that one turn at priority 1 would add.
pub const BIG_STRIDE: u16 = 256;

/// Smallest priority the scheduler uses for its increment.
pub const MIN_PRIORITY: u8 = 2;

/// Whether stride `a` runs before stride `b`: their difference, taken
/// modulo 256, lies in the upper half, that is `a` is behind `b`.
pub open spec fn stride_before(a: u8, b: u8) -> bool {
    (a as int - b as int) % 256 > 128
}

/// Distance of `x` above `base`, modulo 256.
pub open spec fn rel(x: u8, base: u8) -> int {
    (x as int - base as int) % 256
}

/// Whether every stride of `s` lies less than half the modulus above `base`.
pub open spec fn in_window(s: Seq<u8>, base: u8) -> bool {
    forall|j: int| 0 <= j < s.len() ==> rel(#[trigger] s[j], base) < 128
}

/// Within a window of half the modulus, the wraparound comparison is the
/// plain comparison of distances above the window's base.
pub proof fn lemma_window_order(a: u8, b: u8, base: u8)
    requires
        rel(a, base) < 128,
        rel(b, base) < 128,
    ensures
        stride_before(a, b) <==> rel(a, base) < rel(b, base),
{
    let ra = rel(a, base);
    let rb = rel(b, base);
    assert((a as int - b as int) % 256 == (ra - rb) % 256) by (nonlinear_arith)
        requires
            ra == (a as int - base as int) % 256,
            rb == (b as int - base as int) % 256,
    {
        vstd::arithmetic::div_mod::lemma_sub_mod_noop(a as int - base as int, b as int - base as int, 256);
    }
}

/// How `this` compares with `other` in the ready queue's order: `Greater`
/// when it runs first. Strides are compared by their difference modulo
/// 256: a difference of 1 to 128 means `this` is ahead.
pub fn stride_cmp(this: u8, other: u8) -> (r: Ordering)
    ensures
        r == Ordering::Equal <==> this == other,
        r == Ordering::Greater <==> stride_before(this, other),
        r == Ordering::Less <==> this != other && !stride_before(this, other),
{
    let delta = this.wrapping_sub(other);
    proof {
        assert(delta as int == (this as int - other as int) % 256);
    }
    if delta == 0 {
        Ordering::Equal
    } else if delta <= 128 {
        Ordering::Less
    } else {
        Ordering::Greater
    }
}

/// The stride after one turn at `priority`: `BIG_STRIDE / priority` more,
/// modulo 256, with the priority taken as at least `MIN_PRIORITY`.
pub open spec fn next_stride(stride: u8, priority: u8) -> u8 {
    let p: int = if priority < MIN_PRIORITY { MIN_PRIORITY as int } else { priority as int };
    ((stride as int + 256int / p) % 256) as u8
}

pub fn advance_stride(stride: u8, priority: u8) -> (r: u8)
    ensures
        r == next_stride(stride, priority),
{
    let p: u16 = if priority < MIN_PRIORITY { MIN_PRIORITY as u16 } else { priority as u16 };
    let pass = (BIG_STRIDE / p) as u8;
    assert(BIG_STRIDE / p <= 128) by (nonlinear_arith)
        requires p >= 2;
    let r = stride.wrapping_add(pass);
    r
}

/// The ready queue: process ids in the order they were added.
pub struct TaskManager {
    ready_queue: Vec<usize>,
}

impl TaskManager {
    pub closed spec fn queue(&self) -> Seq<usize> {
        self.ready_queue@
    }

    /// An empty ready queue.
    pub fn new() -> (r: Self)
        ensures
            r.queue() == Seq::<usize>::empty(),
    {
        Self { ready_queue: Vec::new() }
    }

    pub fn len(&self) -> (r: usize)
        ensures
            r == self.queue().len(),
    {
        self.ready_queue.len()
    }

    pub fn get(&self, i: usize) -> (r: usize)
        requires
            i < self.queue().len(),
        ensures
            r == self.queue()[i as int],
    {
        self.ready_queue[i]
    }

    /// Adds `pid` at the end of the queue.
    pub fn add(&mut self, pid: usize)
        ensures
            final(self).queue() == old(self).queue().push(pid),
    {
        self.ready_queue.push(pid);
    }

    /// Takes out the process whose stride runs first, `strides` and
    /// `priorities` holding the stride and priority of each queued process
    /// in queue order; returns it with its stride advanced by one turn.
    /// `None` when the queue is empty. When the strides lie within half the
    /// modulus, none of them runs before the one taken.
    pub fn fetch(&mut self, strides: &Vec<u8>, priorities: &Vec<u8>) -> (r: Option<(usize, u8)>)
        requires
            strides@.len() == old(self).queue().len(),
            priorities@.len() == old(self).queue().len(),
        ensures
            old(self).queue().len() == 0 ==> r is None && final(self).queue() == old(self).queue(),
            old(self).queue().len() > 0 ==> exists|i: int| 0 <= i < old(self).queue().len()
                && r == Some((old(self).queue()[i], next_stride(strides@[i], priorities@[i])))
                && final(self).queue() == old(self).queue().remove(i)
                && forall|base: u8| #[trigger] in_window(strides@, base) ==>
                    forall|j: int| 0 <= j < strides@.len() ==> !stride_before(#[trigger] strides@[j], strides@[i]),
    {
        if self.ready_queue.len() == 0 {
            return None;
        }
        let k = pick_stride(strides);
        let stride = advance_stride(strides[k], priorities[k]);
        Some((self.take(k), stride))
    }

    /// Takes the entry at `i` out of the queue.
    pub fn take(&mut self, i: usize) -> (r: usize)
        requires
            i < old(self).queue().len(),
        ensures
            r == old(self).queue()[i as int],
            final(self).queue() == old(self).queue().remove(i as int),
    {
        self.ready_queue.remove(i)
    }
}

/// The position of the stride that runs first: no stride of `strides`
/// runs before it whenever all of them lie within half the modulus.
pub fn pick_stride(strides: &Vec<u8>) -> (r: usize)
    requires
        strides@.len() > 0,
    ensures
        r < strides@.len(),
        forall|base: u8| #[trigger] in_window(strides@, base) ==>
            forall|j: int| 0 <= j < strides@.len() ==> !stride_before(#[trigger] strides@[j], strides@[r as int]),
{
    let mut best: usize = 0;
    let mut i: usize = 1;
    while i < strides.len()
        invariant
            1 <= i <= strides@.len(),
            best < i,
            forall|base: u8| #[trigger] in_window(strides@, base) ==>
                forall|j: int| 0 <= j < i ==> rel(strides@[best as int], base) <= rel(#[trigger] strides@[j], base),
        decreases strides@.len() - i,
    {
        if let Ordering::Greater = stride_cmp(strides[i], strides[best]) {
            proof {
                assert forall|base: u8| #[trigger] in_window(strides@, base) implies
                    forall|j: int| 0 <= j < i + 1 ==> rel(strides@[i as int], base) <= rel(#[trigger] strides@[j], base) by {
                    lemma_window_order(strides@[i as int], strides@[best as int], base);
                }
            }
            best = i;
        } else {
            proof {
                assert forall|base: u8| #[trigger] in_window(strides@, base) implies
                    forall|j: int| 0 <= j < i + 1 ==> rel(strides@[best as int], base) <= rel(#[trigger] strides@[j], base) by {
                    lemma_window_order(strides@[i as int], strides@[best as int], base);
                }
            }
        }
        i += 1;
    }
    proof {
        assert forall|base: u8| #[trigger] in_window(strides@, base) implies
            forall|j: int| 0 <= j < strides@.len() ==> !stride_before(#[trigger] strides@[j], strides@[best as int]) by {
            assert forall|j: int| 0 <= j < strides@.len() implies !stride_before(#[trigger] strides@[j], strides@[best as int]) by {
                lemma_window_order(strides@[j], strides@[best as int], base);
            }
        }
    }
    best
}

} // verus!
