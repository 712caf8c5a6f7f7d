//! Three-level page table. Directory nodes are frames drawn lazily from
//! physical memory the first time a branch is reached; leaves map virtual
//! page numbers to physical page numbers with permission bits.
use vstd::prelude::*;
use std::collections::BTreeMap;
use crate::frame::{PhysMemory, FRAME_FREE};

verus! {

broadcast use vstd::std_specs::btree::group_btree_axioms;

/// Entry is valid.
pub const PTE_V: u8 = 1;
/// Page is readable.
pub const PTE_R: u8 = 2;
/// Page is writable.
pub const PTE_W: u8 = 4;
/// Page is executable.
pub const PTE_X: u8 = 8;
/// Page is reachable from user mode.
pub const PTE_U: u8 = 16;
/// Mapping is global.
pub const PTE_G: u8 = 32;
/// Page was accessed.
pub const PTE_A: u8 = 64;
/// Page was written.
pub const PTE_D: u8 = 128;

/// Number of virtual pages in a 39-bit address space.
pub const VPN_LIMIT: usize = 134217728;

/// Entries per directory node.
pub const ENTRIES_PER_NODE: usize = 512;

/// Translation mode bits of the root token (Sv39).
pub const SATP_SV39: u64 = 0x8000_0000_0000_0000;

/// A leaf entry: a physical page number and flag bits.
#[derive(Debug, Clone, Copy, PartialEq, Eq, Structural)]
pub struct PageTableEntry {
    pub ppn: usize,
    pub flags: u8,
}

impl PageTableEntry {
    pub fn new(ppn: usize, flags: u8) -> (r: Self)
        ensures
            r.ppn == ppn,
            r.flags == flags,
    {
        Self { ppn, flags }
    }

    pub fn is_valid(&self) -> (r: bool)
        ensures
            r == (self.flags & PTE_V != 0),
    {
        self.flags & PTE_V != 0
    }

    pub fn readable(&self) -> (r: bool)
        ensures
            r == (self.flags & PTE_R != 0),
    {
        self.flags & PTE_R != 0
    }

    pub fn writable(&self) -> (r: bool)
        ensures
            r == (self.flags & PTE_W != 0),
    {
        self.flags & PTE_W != 0
    }

    pub fn executable(&self) -> (r: bool)
        ensures
            r == (self.flags & PTE_X != 0),
    {
        self.flags & PTE_X != 0
    }
}

/// Why a change of a page table was refused.
#[derive(Debug, Clone, Copy, PartialEq, Eq, Structural)]
pub enum MapError {
    /// The page already has a valid leaf.
    AlreadyMapped,
    /// The page has no valid leaf.
    NotMapped,
    /// Physical memory ran out of frames.
    OutOfFrames,
}

/// Key of the second-level directory that covers `vpn`.
pub open spec fn l1_key(vpn: usize) -> usize {
    (vpn / 262144usize) as usize
}

/// Key of the third-level directory that covers `vpn`.
pub open spec fn l2_key(vpn: usize) -> usize {
    (512usize + vpn / 512usize) as usize
}

/// `Some` of the entry of `vpn` in `m`, or `None`.
pub open spec fn lookup(m: Map<usize, PageTableEntry>, vpn: usize) -> Option<PageTableEntry> {
    if m.contains_key(vpn) {
        Some(m[vpn])
    } else {
        None
    }
}

/// Token of the table whose root is frame `ppn`: the Sv39 mode bits
/// above the 44-bit frame number.
pub open spec fn token_of(ppn: usize) -> u64 {
    (SATP_SV39 + (ppn as u64) % PPN_MODULUS) as u64
}

/// One more than the largest frame number a token holds.
pub const PPN_MODULUS: u64 = 0x1000_0000_0000;

/// A page table: its root frame, its directory frames by key, and its
/// valid leaves by virtual page number. All its frames carry the tag
/// `owner` in physical memory.
pub struct PageTable {
    root_ppn: usize,
    owner: usize,
    dirs: BTreeMap<usize, usize>,
    leaves: BTreeMap<usize, PageTableEntry>,
}

impl PageTable {
    /// The valid leaves, by virtual page number.
    pub closed spec fn mapping(&self) -> Map<usize, PageTableEntry> {
        self.leaves@
    }

    /// Directory frames, by key.
    pub closed spec fn directories(&self) -> Map<usize, usize> {
        self.dirs@
    }

    /// The frame that holds the root node.
    pub closed spec fn root(&self) -> usize {
        self.root_ppn
    }

    /// The owner tag of this table's frames.
    pub closed spec fn owner_tag(&self) -> usize {
        self.owner
    }

    /// Every leaf lies in the address space and hangs below both of its
    /// directories.
    pub closed spec fn wf(&self) -> bool {
        &&& self.owner != FRAME_FREE
        &&& forall|v: usize| #[trigger] self.leaves@.contains_key(v) ==> {
            &&& v < VPN_LIMIT
            &&& self.dirs@.contains_key(l1_key(v))
            &&& self.dirs@.contains_key(l2_key(v))
        }
    }

    pub proof fn lemma_owner_nonfree(&self)
        requires
            self.wf(),
        ensures
            self.owner_tag() != FRAME_FREE,
    {
    }

    /// Number of directory frames a `map` of `vpn` would draw.
    pub open spec fn missing_dirs(&self, vpn: usize) -> nat {
        (if self.directories().contains_key(l1_key(vpn)) { 0nat } else { 1nat })
            + (if self.directories().contains_key(l2_key(vpn)) { 0nat } else { 1nat })
    }

    /// An empty table whose root frame is drawn from `mem` under `owner`;
    /// `None` when no frame is free.
    pub fn new(mem: &mut PhysMemory, owner: usize) -> (r: Option<Self>)
        requires
            old(mem).wf(),
            owner != FRAME_FREE,
        ensures
            final(mem).wf(),
            final(mem).frame_count() == old(mem).frame_count(),
            r is None <==> old(mem).free_count() == 0,
            r is None ==> *final(mem) == *old(mem),
            r matches Some(t) ==> {
                &&& t.wf()
                &&& t.mapping() == Map::<usize, PageTableEntry>::empty()
                &&& t.directories() == Map::<usize, usize>::empty()
                &&& t.owner_tag() == owner
                &&& old(mem).free().contains(t.root())
                &&& final(mem).free() == old(mem).free().remove(t.root())
                &&& final(mem).free_count() == old(mem).free_count() - 1
                &&& final(mem).owner(t.root()) == owner
                &&& forall|q: usize| q != t.root() && q < old(mem).frame_count() ==> #[trigger] final(mem).owner(q) == old(mem).owner(q)
                &&& forall|q: usize| q != t.root() && q < old(mem).frame_count() ==> #[trigger] final(mem).page(q) == old(mem).page(q)
            },
    {
        match mem.frame_alloc(owner) {
            Some(root_ppn) => {
                let t = Self { root_ppn, owner, dirs: BTreeMap::new(), leaves: BTreeMap::new() };
                assert(t.leaves@ =~= Map::<usize, PageTableEntry>::empty());
                assert(t.dirs@ =~= Map::<usize, usize>::empty());
                Some(t)
            },
            None => None,
        }
    }

    /// The owner tag of this table's frames.
    pub fn owner_of(&self) -> (r: usize)
        requires
            self.wf(),
        ensures
            r == self.owner_tag(),
            r != FRAME_FREE,
    {
        self.owner
    }

    /// The owner tag of this table's frames.
    pub fn owner_of_unchecked(&self) -> (r: usize)
        ensures
            r == self.owner_tag(),
    {
        self.owner
    }

    /// The token that identifies this table as a translation root.
    pub fn token(&self) -> (r: u64)
        ensures
            r == token_of(self.root()),
    {
        SATP_SV39 + (self.root_ppn as u64) % PPN_MODULUS
    }

    /// The valid leaf of `vpn`, if there is one.
    pub fn translate(&self, vpn: usize) -> (r: Option<PageTableEntry>)
        ensures
            r == lookup(self.mapping(), vpn),
    {
        match self.leaves.get(&vpn) {
            Some(e) => Some(*e),
            None => None,
        }
    }

    fn ensure_dir(&mut self, mem: &mut PhysMemory, key: usize) -> (ok: bool)
        requires
            old(self).wf(),
            old(mem).wf(),
        ensures
            final(self).wf(),
            final(self).mapping() == old(self).mapping(),
            final(self).owner_tag() == old(self).owner_tag(),
            final(self).root() == old(self).root(),
            final(mem).wf(),
            final(mem).frame_count() == old(mem).frame_count(),
            forall|q: usize| q < old(mem).frame_count() && old(mem).owner(q) == FRAME_FREE && final(mem).owner(q) != FRAME_FREE
                ==> #[trigger] final(mem).owner(q) == old(self).owner_tag(),
            ok == (old(self).directories().contains_key(key) || old(mem).free_count() > 0),
            ok ==> final(self).directories().contains_key(key),
            forall|k: usize| k != key ==> (#[trigger] final(self).directories().contains_key(k)
                == old(self).directories().contains_key(k)),
            final(mem).free_count() == old(mem).free_count() - (if ok && !old(self).directories().contains_key(key) { 1int } else { 0int }),
            forall|q: usize| q < old(mem).frame_count() && old(mem).owner(q) != FRAME_FREE ==> #[trigger] final(mem).owner(q) == old(mem).owner(q),
            forall|q: usize| q < old(mem).frame_count() && old(mem).owner(q) != FRAME_FREE ==> #[trigger] final(mem).page(q) == old(mem).page(q),
    {
        if self.dirs.contains_key(&key) {
            return true;
        }
        match mem.frame_alloc(self.owner) {
            Some(ppn) => {
                self.dirs.insert(key, ppn);
                true
            },
            None => false,
        }
    }

    /// Maps `vpn` to `ppn` with `flags` and the valid bit, drawing the
    /// directory frames that the branch still lacks. A page that already
    /// has a valid leaf is refused and nothing changes.
    pub fn map(&mut self, mem: &mut PhysMemory, vpn: usize, ppn: usize, flags: u8) -> (r: Result<(), MapError>)
        requires
            old(self).wf(),
            old(mem).wf(),
            vpn < VPN_LIMIT,
        ensures
            final(self).wf(),
            final(self).owner_tag() == old(self).owner_tag(),
            final(self).root() == old(self).root(),
            final(mem).wf(),
            final(mem).frame_count() == old(mem).frame_count(),
            old(self).mapping().contains_key(vpn) ==> r == Err::<(), MapError>(MapError::AlreadyMapped)
                && *final(self) == *old(self) && *final(mem) == *old(mem),
            r is Ok <==> (!old(self).mapping().contains_key(vpn) && old(self).missing_dirs(vpn) <= old(mem).free_count()),
            r is Ok ==> final(self).mapping() == old(self).mapping().insert(vpn, (PageTableEntry { ppn, flags: flags | PTE_V })),
            r is Ok ==> final(mem).free_count() == old(mem).free_count() - old(self).missing_dirs(vpn),
            r is Err ==> final(self).mapping() == old(self).mapping(),
            forall|q: usize| q < old(mem).frame_count() && old(mem).owner(q) == FRAME_FREE && final(mem).owner(q) != FRAME_FREE
                ==> #[trigger] final(mem).owner(q) == old(self).owner_tag(),
            r == Err::<(), MapError>(MapError::OutOfFrames) ==> final(mem).free_count() == 0,
            forall|q: usize| q < old(mem).frame_count() && old(mem).owner(q) != FRAME_FREE ==> #[trigger] final(mem).owner(q) == old(mem).owner(q),
            forall|q: usize| q < old(mem).frame_count() && old(mem).owner(q) != FRAME_FREE ==> #[trigger] final(mem).page(q) == old(mem).page(q),
    {
        if self.leaves.contains_key(&vpn) {
            return Err(MapError::AlreadyMapped);
        }
        let k1 = vpn / 262144;
        let k2 = ENTRIES_PER_NODE + vpn / ENTRIES_PER_NODE;
        assert(k1 == l1_key(vpn) && k2 == l2_key(vpn));
        assert(k1 != k2) by {
            assert(k1 < 512);
        }
        let ghost mem0 = *mem;
        let ghost t0 = *self;
        if !self.ensure_dir(mem, k1) {
            return Err(MapError::OutOfFrames);
        }
        if !self.ensure_dir(mem, k2) {
            return Err(MapError::OutOfFrames);
        }
        self.leaves.insert(vpn, PageTableEntry { ppn, flags: flags | PTE_V });
        Ok(())
    }

    /// Removes the valid leaf of `vpn` and hands it back; a page without
    /// one is refused and nothing changes.
    pub fn unmap(&mut self, vpn: usize) -> (r: Result<PageTableEntry, MapError>)
        requires
            old(self).wf(),
        ensures
            final(self).wf(),
            final(self).owner_tag() == old(self).owner_tag(),
            final(self).root() == old(self).root(),
            final(self).directories() == old(self).directories(),
            r is Ok <==> old(self).mapping().contains_key(vpn),
            r matches Ok(e) ==> e == old(self).mapping()[vpn]
                && final(self).mapping() == old(self).mapping().remove(vpn),
            r is Err ==> r == Err::<PageTableEntry, MapError>(MapError::NotMapped) && final(self).mapping() == old(self).mapping(),
    {
        match self.leaves.remove(&vpn) {
            Some(e) => Ok(e),
            None => Err(MapError::NotMapped),
        }
    }
}

} // verus!
