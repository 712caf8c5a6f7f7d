//! Physical memory as a set of page frames, with the allocator that hands
//! them out one at a time and takes them back.
use vstd::prelude::*;
use vstd::set_lib::{lemma_len_subset, FiniteRange};
use crate::config::PAGE_SIZE;

verus! {

/// Physical memory: the bytes of every frame, and which frames are free.
///
/// Frames below `current` have been handed out at least once; those in
/// `recycled` were handed back since. Frames from `current` to `end` have
/// never been handed out.
pub struct PhysMemory {
    pages: Vec<Vec<u8>>,
    owners: Vec<usize>,
    current: usize,
    end: usize,
    recycled: Vec<usize>,
}

/// Owner tag of a free frame.
pub const FRAME_FREE: usize = 0;

/// Owner tag of a frame that is never handed out.
pub const FRAME_RESERVED: usize = usize::MAX;

/// A page of zero bytes.
pub open spec fn zero_page() -> Seq<u8> {
    Seq::new(PAGE_SIZE as nat, |i: int| 0u8)
}

fn new_zero_page() -> (r: Vec<u8>)
    ensures
        r@ == zero_page(),
{
    let mut v: Vec<u8> = Vec::new();
    let mut i: usize = 0;
    while i < PAGE_SIZE
        invariant
            i <= PAGE_SIZE,
            v@ == Seq::new(i as nat, |j: int| 0u8),
        decreases PAGE_SIZE - i,
    {
        v.push(0u8);
        i += 1;
        assert(v@ =~= Seq::new(i as nat, |j: int| 0u8));
    }
    v
}

impl PhysMemory {
    /// Frames exist up to `end`, each one page long; the free list holds
    /// distinct frames that were handed out before.
    pub closed spec fn wf(&self) -> bool {
        &&& self.pages@.len() == self.end
        &&& self.owners@.len() == self.end
        &&& forall|p: usize| p < self.end ==> (#[trigger] self.owners@[p as int] == FRAME_FREE
            <==> (self.current <= p || self.recycled@.contains(p)))
        &&& forall|p: int| 0 <= p < self.pages@.len() ==> (#[trigger] self.pages@[p])@.len() == PAGE_SIZE
        &&& self.current <= self.end
        &&& forall|i: int| 0 <= i < self.recycled@.len() ==> #[trigger] self.recycled@[i] < self.current
        &&& forall|i: int, j: int|
            0 <= i < j < self.recycled@.len() ==> self.recycled@[i] != self.recycled@[j]
    }

    /// Number of frames.
    pub closed spec fn frame_count(&self) -> nat {
        self.end as nat
    }

    /// The frames that can be handed out.
    pub closed spec fn free(&self) -> Set<usize> {
        Set::new(|p: usize| (self.current <= p < self.end) || self.recycled@.contains(p))
    }

    /// How many frames can be handed out.
    pub closed spec fn free_count(&self) -> nat {
        ((self.end - self.current) + self.recycled@.len()) as nat
    }

    /// The bytes of frame `ppn`.
    pub closed spec fn page(&self, ppn: usize) -> Seq<u8> {
        self.pages@[ppn as int]@
    }

    /// The owner tag of frame `ppn`: `FRAME_FREE` while it is free.
    pub closed spec fn owner(&self, ppn: usize) -> usize {
        self.owners@[ppn as int]
    }

    pub proof fn lemma_free_count(&self)
        requires
            self.wf(),
        ensures
            self.free_count() == 0 ==> self.free() =~= Set::<usize>::empty(),
            forall|p: usize| #[trigger] self.free().contains(p) ==> p < self.frame_count(),
            forall|p: usize| p < self.frame_count() ==> (#[trigger] self.page(p)).len() == PAGE_SIZE,
            forall|p: usize| p < self.frame_count() ==> (#[trigger] self.free().contains(p) <==> self.owner(p) == FRAME_FREE),
    {
        assert forall|p: usize| #[trigger] self.free().contains(p) implies p < self.frame_count() by {
            if self.recycled@.contains(p) {
                let i = choose|i: int| 0 <= i < self.recycled@.len() && self.recycled@[i] == p;
            }
        }
        assert forall|p: usize| p < self.frame_count() implies (#[trigger] self.page(p)).len() == PAGE_SIZE by {
            assert(self.pages@[p as int]@.len() == PAGE_SIZE);
        }
    }

    proof fn lemma_recycled_bound(&self)
        requires
            self.wf(),
        ensures
            self.recycled@.len() <= self.current,
    {
        let s = self.recycled@;
        assert(s.no_duplicates()) by {
            assert forall|i: int, j: int| 0 <= i < s.len() && 0 <= j < s.len() && i != j implies s[i] != s[j] by {
                if i > j {
                    assert(s[j] != s[i]);
                }
            }
        }
        s.unique_seq_to_set();
        let r = <usize as FiniteRange>::range_set(0, self.current);
        <usize as FiniteRange>::range_properties(0, self.current);
        assert(s.to_set().subset_of(r));
        lemma_len_subset(s.to_set(), r);
    }

    /// Physical memory of `end` zeroed frames, of which those from `first`
    /// on are free; the frames below `first` are reserved.
    pub fn new(first: usize, end: usize) -> (r: Self)
        requires
            first <= end,
        ensures
            r.wf(),
            r.frame_count() == end,
            r.free() == Set::new(|p: usize| first <= p < end),
            r.free_count() == end - first,
            forall|p: usize| p < end ==> #[trigger] r.page(p) == zero_page(),
            forall|p: usize| p < end ==> #[trigger] r.owner(p) == if p < first { FRAME_RESERVED } else { FRAME_FREE },
    {
        let mut pages: Vec<Vec<u8>> = Vec::new();
        let mut owners: Vec<usize> = Vec::new();
        let mut i: usize = 0;
        while i < end
            invariant
                i <= end,
                pages@.len() == i,
                owners@.len() == i,
                forall|p: int| 0 <= p < i ==> (#[trigger] pages@[p])@ == zero_page(),
                forall|p: int| 0 <= p < i ==> #[trigger] owners@[p] == if p < first { FRAME_RESERVED } else { FRAME_FREE },
            decreases end - i,
        {
            pages.push(new_zero_page());
            owners.push(if i < first { FRAME_RESERVED } else { FRAME_FREE });
            i += 1;
        }
        let r = Self { pages, owners, current: first, end, recycled: Vec::new() };
        assert(r.free() =~= Set::new(|p: usize| first <= p < end));
        r
    }

    /// Hands out a free frame, zeroed and tagged with `owner`; `None` when
    /// no frame is free.
    pub fn frame_alloc(&mut self, owner: usize) -> (r: Option<usize>)
        requires
            old(self).wf(),
            owner != FRAME_FREE,
        ensures
            final(self).wf(),
            final(self).frame_count() == old(self).frame_count(),
            r is None <==> old(self).free_count() == 0,
            r is None ==> *final(self) == *old(self) && old(self).free() == Set::<usize>::empty(),
            r matches Some(p) ==> {
                &&& old(self).free().contains(p)
                &&& final(self).free() == old(self).free().remove(p)
                &&& final(self).free_count() == old(self).free_count() - 1
                &&& p < old(self).frame_count()
                &&& old(self).owner(p) == FRAME_FREE
                &&& final(self).owner(p) == owner
                &&& final(self).page(p) == zero_page()
                &&& forall|q: usize| q != p && q < old(self).frame_count() ==> #[trigger] final(self).page(q) == old(self).page(q)
                &&& forall|q: usize| q != p && q < old(self).frame_count() ==> #[trigger] final(self).owner(q) == old(self).owner(q)
            },
    {
        proof { self.lemma_free_count(); }
        let p: usize;
        if self.recycled.len() > 0 {
            p = self.recycled.pop().unwrap();
            assert(self.recycled@ == old(self).recycled@.drop_last());
            assert forall|i: int| 0 <= i < self.recycled@.len() implies self.recycled@[i] != p by {
                assert(old(self).recycled@[i] != old(self).recycled@[old(self).recycled@.len() - 1]);
            }
            assert forall|q: usize| self.free().contains(q) == old(self).free().remove(p).contains(q) by {
                if q != p && old(self).recycled@.contains(q) {
                    let i = choose|i: int| 0 <= i < old(self).recycled@.len() && old(self).recycled@[i] == q;
                    assert(self.recycled@[i] == q);
                }
                if self.recycled@.contains(q) {
                    let i = choose|i: int| 0 <= i < self.recycled@.len() && self.recycled@[i] == q;
                    assert(old(self).recycled@[i] == q);
                }
            }
            assert(self.free() =~= old(self).free().remove(p));
        } else if self.current == self.end {
            return None;
        } else {
            p = self.current;
            self.current = self.current + 1;
            assert(self.free() =~= old(self).free().remove(p));
        }
        assert(old(self).recycled@.contains(p) || old(self).current <= p < old(self).end);
        self.pages.set(p, new_zero_page());
        self.owners.set(p, owner);
        assert forall|q: usize| q < self.end implies (#[trigger] self.owners@[q as int] == FRAME_FREE
            <==> (self.current <= q || self.recycled@.contains(q))) by {
            assert(self.free().contains(q) == (self.current <= q < self.end || self.recycled@.contains(q)));
            assert(old(self).free().contains(q) == (old(self).current <= q < old(self).end || old(self).recycled@.contains(q)));
        }
        Some(p)
    }

    /// Takes back frame `ppn` when `owner` holds it; reports whether it did.
    pub fn frame_dealloc(&mut self, ppn: usize, owner: usize) -> (r: bool)
        requires
            old(self).wf(),
            owner != FRAME_FREE,
        ensures
            final(self).wf(),
            final(self).frame_count() == old(self).frame_count(),
            r == (ppn < old(self).frame_count() && old(self).owner(ppn) == owner),
            r ==> final(self).free() == old(self).free().insert(ppn),
            r ==> final(self).free_count() == old(self).free_count() + 1,
            r ==> final(self).owner(ppn) == FRAME_FREE,
            !r ==> *final(self) == *old(self),
            forall|q: usize| q != ppn && q < old(self).frame_count() ==> #[trigger] final(self).owner(q) == old(self).owner(q),
            forall|q: usize| #[trigger] final(self).page(q) == old(self).page(q),
    {
        if ppn >= self.end || self.owners[ppn] != owner {
            return false;
        }
        assert(!old(self).recycled@.contains(ppn));
        assert(ppn < self.current);
        self.recycled.push(ppn);
        self.owners.set(ppn, FRAME_FREE);
        assert forall|i: int, j: int| 0 <= i < j < self.recycled@.len() implies self.recycled@[i] != self.recycled@[j] by {
            if j == self.recycled@.len() - 1 {
                assert(old(self).recycled@[i] == self.recycled@[i]);
            }
        }
        assert forall|q: usize| self.free().contains(q) == old(self).free().insert(ppn).contains(q) by {
            if q == ppn {
                assert(self.recycled@[self.recycled@.len() - 1] == ppn);
            } else if old(self).recycled@.contains(q) {
                let i = choose|i: int| 0 <= i < old(self).recycled@.len() && old(self).recycled@[i] == q;
                assert(self.recycled@[i] == q);
            } else if self.recycled@.contains(q) {
                let i = choose|i: int| 0 <= i < self.recycled@.len() && self.recycled@[i] == q;
                assert(old(self).recycled@[i] == q);
            }
        }
        assert(self.free() =~= old(self).free().insert(ppn));
        assert forall|q: usize| q < self.end implies (#[trigger] self.owners@[q as int] == FRAME_FREE
            <==> (self.current <= q || self.recycled@.contains(q))) by {
            assert(self.free().contains(q) == (self.current <= q < self.end || self.recycled@.contains(q)));
            assert(old(self).free().contains(q) == (old(self).current <= q < old(self).end || old(self).recycled@.contains(q)));
        }
        true
    }

    /// Number of free frames.
    pub fn available(&self) -> (r: usize)
        requires
            self.wf(),
        ensures
            r == self.free_count(),
    {
        proof { self.lemma_recycled_bound(); }
        (self.end - self.current) + self.recycled.len()
    }

    /// Takes back every frame tagged `owner`.
    pub fn release_owned(&mut self, owner: usize)
        requires
            old(self).wf(),
            owner != FRAME_FREE,
        ensures
            final(self).wf(),
            final(self).frame_count() == old(self).frame_count(),
            forall|q: usize| q < old(self).frame_count() ==> #[trigger] final(self).owner(q)
                == if old(self).owner(q) == owner { FRAME_FREE } else { old(self).owner(q) },
            forall|q: usize| #[trigger] final(self).page(q) == old(self).page(q),
    {
        let mut p: usize = 0;
        while p < self.end
            invariant
                self.wf(),
                owner != FRAME_FREE,
                p <= self.end,
                self.end == old(self).end,
                forall|q: usize| q < p ==> #[trigger] self.owner(q)
                    == if old(self).owner(q) == owner { FRAME_FREE } else { old(self).owner(q) },
                forall|q: usize| p <= q < self.end ==> #[trigger] self.owner(q) == old(self).owner(q),
                forall|q: usize| #[trigger] self.page(q) == old(self).page(q),
            decreases self.end - p,
        {
            self.frame_dealloc(p, owner);
            p += 1;
        }
    }

    /// The byte at `offset` of frame `ppn`.
    pub fn read_byte(&self, ppn: usize, offset: usize) -> (r: u8)
        requires
            self.wf(),
            ppn < self.frame_count(),
            offset < PAGE_SIZE,
        ensures
            r == self.page(ppn)[offset as int],
    {
        proof { self.lemma_free_count(); }
        self.pages[ppn][offset]
    }

    /// Sets the byte at `offset` of frame `ppn`.
    pub fn write_byte(&mut self, ppn: usize, offset: usize, b: u8)
        requires
            old(self).wf(),
            ppn < old(self).frame_count(),
            offset < PAGE_SIZE,
        ensures
            final(self).wf(),
            final(self).frame_count() == old(self).frame_count(),
            final(self).free() == old(self).free(),
            final(self).free_count() == old(self).free_count(),
            forall|q: usize| #[trigger] final(self).owner(q) == old(self).owner(q),
            final(self).page(ppn) == old(self).page(ppn).update(offset as int, b),
            forall|q: usize| q != ppn && q < old(self).frame_count() ==> #[trigger] final(self).page(q) == old(self).page(q),
    {
        proof { self.lemma_free_count(); }
        let mut page = self.pages[ppn].clone();
        page.set(offset, b);
        self.pages.set(ppn, page);
    }

    /// Copies the bytes of frame `src` into frame `dst`.
    pub fn copy_page(&mut self, src: usize, dst: usize)
        requires
            old(self).wf(),
            src < old(self).frame_count(),
            dst < old(self).frame_count(),
        ensures
            final(self).wf(),
            final(self).frame_count() == old(self).frame_count(),
            final(self).free() == old(self).free(),
            final(self).free_count() == old(self).free_count(),
            forall|q: usize| #[trigger] final(self).owner(q) == old(self).owner(q),
            final(self).page(dst) == old(self).page(src),
            forall|q: usize| q != dst && q < old(self).frame_count() ==> #[trigger] final(self).page(q) == old(self).page(q),
    {
        proof { self.lemma_free_count(); }
        let page = self.pages[src].clone();
        self.pages.set(dst, page);
    }
}

} // verus!
