//! Address spaces: non-overlapping framed areas over one page table, the
//! shared trampoline page, and access to user memory through them.
use vstd::prelude::*;
use crate::config::PAGE_SIZE;
use crate::frame::{zero_page, PhysMemory, FRAME_FREE};
use crate::word::{from_le, le_val};
use crate::page_table::{lookup, token_of, MapError, PageTable, PageTableEntry, PTE_R, PTE_V, PTE_X, VPN_LIMIT};

verus! {

/// Page of the privilege-transition code, the highest page of every space.
pub const TRAMPOLINE_VPN: usize = 134217727;

/// Page of the per-process trap context, just below the trampoline.
pub const TRAP_CONTEXT_VPN: usize = 134217726;

/// Reserved physical frame that holds the trampoline code.
pub const TRAMPOLINE_PPN: usize = 0;

/// Flags of the trampoline leaf.
pub const TRAMPOLINE_FLAGS: u8 = 11;

/// Area may be read.
pub const MAP_R: u8 = 2;
/// Area may be written.
pub const MAP_W: u8 = 4;
/// Area may be executed.
pub const MAP_X: u8 = 8;
/// Area is reachable from user mode.
pub const MAP_U: u8 = 16;

/// A contiguous range of virtual pages `[start_vpn, end_vpn)`, each backed
/// by a frame of its own, with one permission set.
#[derive(Debug, Clone, Copy, PartialEq, Eq, Structural)]
pub struct MapArea {
    pub start_vpn: usize,
    pub end_vpn: usize,
    pub perm: u8,
}

pub open spec fn covers(a: MapArea, v: usize) -> bool {
    a.start_vpn <= v < a.end_vpn
}

pub open spec fn disjoint(a: MapArea, b: MapArea) -> bool {
    a.end_vpn <= b.start_vpn || b.end_vpn <= a.start_vpn
}

/// The trampoline leaf, shared by every address space.
pub open spec fn trampoline_entry() -> PageTableEntry {
    PageTableEntry { ppn: TRAMPOLINE_PPN, flags: TRAMPOLINE_FLAGS }
}

/// Pages of the user stack.
pub const USER_STACK_PAGES: usize = 2;

/// Highest virtual address an image segment may reach.
pub const MAX_SEGMENT_END: usize = 0x8000_0000;

/// One loadable segment of an executable image: the virtual range
/// `[start_va, end_va)`, its permissions, and the bytes it starts with.
pub struct ProgramSegment {
    pub start_va: usize,
    pub end_va: usize,
    pub readable: bool,
    pub writable: bool,
    pub executable: bool,
    pub data: Vec<u8>,
}

/// An executable image as the segment-header parser hands it over.
pub struct ExecImage {
    pub entry: usize,
    pub segments: Vec<ProgramSegment>,
}

/// The area of a segment.
fn segment_area(s: &ProgramSegment) -> (r: MapArea)
    requires
        s.end_va <= MAX_SEGMENT_END,
    ensures
        r == seg_area(*s),
{
    let mut perm = MAP_U;
    if s.readable {
        perm = perm | MAP_R;
    }
    if s.writable {
        perm = perm | MAP_W;
    }
    if s.executable {
        perm = perm | MAP_X;
    }
    MapArea { start_vpn: s.start_va / PAGE_SIZE, end_vpn: (s.end_va + PAGE_SIZE - 1) / PAGE_SIZE, perm }
}

/// The area permissions of a segment.
pub open spec fn seg_perm(s: ProgramSegment) -> u8 {
    let base = MAP_U;
    let with_r = if s.readable { base | MAP_R } else { base };
    let with_w = if s.writable { with_r | MAP_W } else { with_r };
    if s.executable { with_w | MAP_X } else { with_w }
}

/// The area that holds a segment: its range widened to whole pages.
pub open spec fn seg_area(s: ProgramSegment) -> MapArea {
    MapArea {
        start_vpn: (s.start_va / 4096usize) as usize,
        end_vpn: ((s.end_va + 4095) / 4096int) as usize,
        perm: seg_perm(s),
    }
}

/// Highest end page of the first `i` segments.
pub open spec fn segs_end(s: Seq<ProgramSegment>, i: int) -> usize
    decreases i,
{
    if i <= 0 {
        0
    } else {
        let e = seg_area(s[i - 1]).end_vpn;
        let m = segs_end(s, i - 1);
        if e > m { e } else { m }
    }
}

/// First page of the user stack of an image: one guard page above the
/// highest segment.
pub open spec fn stack_bottom_vpn(img: ExecImage) -> usize {
    (segs_end(img.segments@, img.segments@.len() as int) + 1) as usize
}

/// Segments are non-empty, lie below `MAX_SEGMENT_END`, carry no more
/// bytes than they span, and occupy disjoint pages.
pub open spec fn image_fits(img: ExecImage) -> bool {
    let s = img.segments@;
    &&& forall|k: int| 0 <= k < s.len() ==> {
        &&& (#[trigger] s[k]).start_va < s[k].end_va <= MAX_SEGMENT_END
        &&& s[k].data@.len() <= s[k].end_va - s[k].start_va
    }
    &&& forall|k: int, l: int| 0 <= k < s.len() && 0 <= l < s.len() && k != l
        ==> disjoint(seg_area(#[trigger] s[k]), seg_area(#[trigger] s[l]))
}

/// The areas of the space built from `img`: one per segment, then the
/// user stack, then the trap context page.
pub open spec fn image_areas(img: ExecImage) -> Seq<MapArea> {
    let b = stack_bottom_vpn(img);
    img.segments@.map_values(|s: ProgramSegment| seg_area(s))
        .push(MapArea { start_vpn: b, end_vpn: (b + USER_STACK_PAGES) as usize, perm: MAP_R | MAP_W | MAP_U })
        .push(MapArea { start_vpn: TRAP_CONTEXT_VPN, end_vpn: TRAMPOLINE_VPN, perm: MAP_R | MAP_W })
}

/// Number of pages that the first `i` areas of `s` cover.
pub open spec fn pages_upto(s: Seq<MapArea>, i: int) -> nat
    decreases i,
{
    if i <= 0 {
        0
    } else {
        pages_upto(s, i - 1) + (s[i - 1].end_vpn - s[i - 1].start_vpn) as nat
    }
}

proof fn lemma_pages_upto_mono(s: Seq<MapArea>, i: int, j: int)
    requires
        0 <= i <= j <= s.len(),
        forall|k: int| 0 <= k < s.len() ==> (#[trigger] s[k]).start_vpn < s[k].end_vpn,
    ensures
        pages_upto(s, i) <= pages_upto(s, j),
    decreases j - i,
{
    if i < j {
        lemma_pages_upto_mono(s, i, j - 1);
    }
}

/// The number of pages that `areas` cover, when it is at most `limit`.
fn count_area_pages(areas: &Vec<MapArea>, limit: usize) -> (r: Option<usize>)
    requires
        forall|i: int| 0 <= i < areas@.len() ==> (#[trigger] areas@[i]).start_vpn < areas@[i].end_vpn,
    ensures
        r is Some <==> pages_upto(areas@, areas@.len() as int) <= limit,
        r matches Some(n) ==> n == pages_upto(areas@, areas@.len() as int),
{
    let mut total: usize = 0;
    let mut i: usize = 0;
    while i < areas.len()
        invariant
            i <= areas@.len(),
            total == pages_upto(areas@, i as int),
            total <= limit,
            forall|k: int| 0 <= k < areas@.len() ==> (#[trigger] areas@[k]).start_vpn < areas@[k].end_vpn,
        decreases areas@.len() - i,
    {
        let sz = areas[i].end_vpn - areas[i].start_vpn;
        if sz > limit - total {
            proof { lemma_pages_upto_mono(areas@, i + 1, areas@.len() as int); }
            return None;
        }
        total = total + sz;
        i += 1;
    }
    Some(total)
}

proof fn lemma_page_range(start: usize, a: int, end: usize)
    requires
        start <= a < end,
    ensures
        start / 4096 <= a / 4096,
        a / 4096 < (end + 4095) / 4096,
        start / 4096 < (end + 4095) / 4096,
{
    assert(start / 4096 <= a / 4096) by (nonlinear_arith)
        requires start <= a;
    assert(a / 4096 < (end + 4095) / 4096) by (nonlinear_arith)
        requires a < end, a >= 0;
}

pub proof fn lemma_segs_end(s: Seq<ProgramSegment>, i: int)
    requires
        0 <= i <= s.len(),
        forall|k: int| 0 <= k < s.len() ==> (#[trigger] s[k]).end_va <= MAX_SEGMENT_END,
    ensures
        forall|k: int| 0 <= k < i ==> seg_area(#[trigger] s[k]).end_vpn <= segs_end(s, i),
        segs_end(s, i) <= 524288,
    decreases i,
{
    if i > 0 {
        lemma_segs_end(s, i - 1);
        let e = s[i - 1].end_va;
        assert((e + 4095) / 4096 <= 524288) by (nonlinear_arith)
            requires e <= 0x8000_0000;
    }
}

/// Areas are non-empty, lie below the trampoline, and do not overlap.
pub open spec fn areas_fit(s: Seq<MapArea>) -> bool {
    &&& forall|i: int| 0 <= i < s.len() ==> (#[trigger] s[i]).start_vpn < s[i].end_vpn && s[i].end_vpn <= TRAMPOLINE_VPN
    &&& forall|i: int, j: int| 0 <= i < s.len() && 0 <= j < s.len() && i != j ==> disjoint(#[trigger] s[i], #[trigger] s[j])
}

/// An address space stays well formed in a memory that keeps the
/// frames tagged with its owner.
pub proof fn lemma_wf_in_stable(ms: &MemorySet, m1: &PhysMemory, m2: &PhysMemory)
    requires
        ms.wf_in(m1),
        m2.wf(),
        m2.frame_count() == m1.frame_count(),
        forall|q: usize| q < m1.frame_count() && m1.owner(q) == ms.owner() ==> #[trigger] m2.owner(q) == m1.owner(q),
    ensures
        ms.wf_in(m2),
{
    assert forall|i: int, v: usize| 0 <= i < ms.area_seq().len() && covers(#[trigger] ms.area_seq()[i], v)
        implies m2.owner((#[trigger] ms.mapping()[v]).ppn) == ms.owner() by {
        assert(m1.owner(ms.mapping()[v].ppn) == ms.owner());
    }
}

/// In a well-formed address space, translating a page that an area
/// covers gives a valid leaf whose flags are exactly that area's
/// permissions and the valid bit; translating a page that no area covers,
/// other than the trampoline, gives nothing.
pub proof fn lemma_translate_matches_areas(ms: &MemorySet, mem: &PhysMemory, vpn: usize)
    requires
        ms.wf_in(mem),
    ensures
        forall|i: int| 0 <= i < ms.area_seq().len() && covers(#[trigger] ms.area_seq()[i], vpn) ==> {
            &&& lookup(ms.mapping(), vpn) is Some
            &&& lookup(ms.mapping(), vpn)->Some_0.flags == ms.area_seq()[i].perm | PTE_V
        },
        !ms.covered(vpn) && vpn != TRAMPOLINE_VPN ==> lookup(ms.mapping(), vpn) is None,
{
    assert forall|i: int| 0 <= i < ms.area_seq().len() && covers(#[trigger] ms.area_seq()[i], vpn) implies {
        &&& lookup(ms.mapping(), vpn) is Some
        &&& lookup(ms.mapping(), vpn)->Some_0.flags == ms.area_seq()[i].perm | PTE_V
    } by {
        assert(ms.covered(vpn));
        assert(ms.mapping().contains_key(vpn));
        assert(ms.mapping()[vpn].flags == ms.area_seq()[i].perm | PTE_V);
    }
    if !ms.covered(vpn) && vpn != TRAMPOLINE_VPN {
        assert(!ms.mapping().contains_key(vpn));
    }
}

/// A copy made under another owner tag shares no frame with the space it
/// was copied from, and writes into the copy's frames leave the bytes of
/// the source space as they were.
pub proof fn lemma_copy_independent(parent: &MemorySet, child: &MemorySet, m1: &PhysMemory, m2: &PhysMemory)
    requires
        parent.wf_in(m1),
        child.wf_in(m1),
        child.owner() != parent.owner(),
        m2.frame_count() == m1.frame_count(),
        forall|q: usize| q < m1.frame_count() && m1.owner(q) != child.owner() ==> #[trigger] m2.page(q) == m1.page(q),
    ensures
        forall|v: usize, w: usize| #[trigger] child.covered(v) && #[trigger] parent.covered(w)
            ==> child.mapping()[v].ppn != parent.mapping()[w].ppn,
        forall|a: usize| #[trigger] parent.user_byte(m2, a) == parent.user_byte(m1, a),
{
    assert forall|v: usize, w: usize| #[trigger] child.covered(v) && #[trigger] parent.covered(w)
        implies child.mapping()[v].ppn != parent.mapping()[w].ppn by {
        let i = choose|i: int| 0 <= i < child.area_seq().len() && covers(#[trigger] child.area_seq()[i], v);
        let j = choose|j: int| 0 <= j < parent.area_seq().len() && covers(#[trigger] parent.area_seq()[j], w);
        assert(m1.owner(child.mapping()[v].ppn) == child.owner());
        assert(m1.owner(parent.mapping()[w].ppn) == parent.owner());
    }
    assert forall|a: usize| #[trigger] parent.user_byte(m2, a) == parent.user_byte(m1, a) by {
        let w = (a / PAGE_SIZE) as usize;
        if parent.covered(w) {
            let j = choose|j: int| 0 <= j < parent.area_seq().len() && covers(#[trigger] parent.area_seq()[j], w);
            assert(m1.owner(parent.mapping()[w].ppn) == parent.owner());
        }
    }
}

/// An address space.
pub struct MemorySet {
    page_table: PageTable,
    areas: Vec<MapArea>,
}

impl MemorySet {
    /// The valid leaves of the space's page table.
    pub closed spec fn mapping(&self) -> Map<usize, PageTableEntry> {
        self.page_table.mapping()
    }

    /// The areas, in the order they were added.
    pub closed spec fn area_seq(&self) -> Seq<MapArea> {
        self.areas@
    }

    /// The tag that the space's frames carry in physical memory.
    pub closed spec fn owner(&self) -> usize {
        self.page_table.owner_tag()
    }

    /// The frame of the page table's root.
    pub closed spec fn root(&self) -> usize {
        self.page_table.root()
    }

    /// Whether some area covers `v`.
    pub open spec fn covered(&self, v: usize) -> bool {
        exists|i: int| 0 <= i < self.area_seq().len() && covers(#[trigger] self.area_seq()[i], v)
    }

    /// Areas lie below the trap context page and do not overlap; the
    /// valid leaves are exactly the covered pages and the trampoline; each
    /// covered page has the area's permissions and a frame of its own,
    /// tagged with the space's owner.
    pub open spec fn wf_in(&self, mem: &PhysMemory) -> bool {
        &&& self.page_table_wf()
        &&& mem.wf()
        &&& forall|i: int| 0 <= i < self.area_seq().len() ==> {
            &&& (#[trigger] self.area_seq()[i]).start_vpn < self.area_seq()[i].end_vpn
            &&& self.area_seq()[i].end_vpn <= TRAMPOLINE_VPN
        }
        &&& forall|i: int, j: int| 0 <= i < self.area_seq().len() && 0 <= j < self.area_seq().len() && i != j
            ==> disjoint(#[trigger] self.area_seq()[i], #[trigger] self.area_seq()[j])
        &&& forall|v: usize| #[trigger] self.mapping().contains_key(v) <==> (v == TRAMPOLINE_VPN || self.covered(v))
        &&& self.mapping()[TRAMPOLINE_VPN] == trampoline_entry()
        &&& forall|i: int, v: usize| 0 <= i < self.area_seq().len() && covers(#[trigger] self.area_seq()[i], v)
            ==> {
            &&& (#[trigger] self.mapping()[v]).flags == self.area_seq()[i].perm | PTE_V
            &&& self.mapping()[v].ppn < mem.frame_count()
            &&& mem.owner(self.mapping()[v].ppn) == self.owner()
        }
        &&& forall|v: usize, w: usize| #[trigger] self.covered(v) && #[trigger] self.covered(w) && v != w
            ==> self.mapping()[v].ppn != self.mapping()[w].ppn
    }

    pub proof fn lemma_owner_nonfree(&self)
        requires
            self.page_table_wf(),
        ensures
            self.owner() != FRAME_FREE,
    {
        self.page_table.lemma_owner_nonfree();
    }

    pub closed spec fn page_table_wf(&self) -> bool {
        self.page_table.wf()
    }

    /// Number of areas.
    pub fn area_count(&self) -> (r: usize)
        ensures
            r == self.area_seq().len(),
    {
        self.areas.len()
    }

    /// The valid leaf of `vpn`, if there is one.
    pub fn translate(&self, vpn: usize) -> (r: Option<PageTableEntry>)
        ensures
            r == lookup(self.mapping(), vpn),
    {
        self.page_table.translate(vpn)
    }

    /// The token of the space's page table.
    pub fn token(&self) -> (r: u64)
        ensures
            r == token_of(self.root()),
    {
        self.page_table.token()
    }

    /// A space that holds only the trampoline page, its frames drawn from
    /// `mem` under `owner`; `None` when `mem` has fewer than three free
    /// frames.
    pub fn new_bare(mem: &mut PhysMemory, owner: usize) -> (r: Option<Self>)
        requires
            old(mem).wf(),
            owner != FRAME_FREE,
        ensures
            final(mem).wf(),
            final(mem).frame_count() == old(mem).frame_count(),
            r is None <==> old(mem).free_count() < 3,
            r is None ==> *final(mem) == *old(mem),
            r matches Some(ms) ==> {
                &&& ms.wf_in(&*final(mem))
                &&& ms.owner() == owner
                &&& ms.area_seq() == Seq::<MapArea>::empty()
                &&& final(mem).free_count() == old(mem).free_count() - 3
                &&& forall|q: usize| q < old(mem).frame_count() && old(mem).owner(q) != FRAME_FREE ==> #[trigger] final(mem).owner(q) == old(mem).owner(q)
                &&& forall|q: usize| q < old(mem).frame_count() && old(mem).owner(q) != FRAME_FREE ==> #[trigger] final(mem).page(q) == old(mem).page(q)
            },
    {
        proof { old(mem).lemma_free_count(); }
        if mem.available() < 3 {
            return None;
        }
        let mut pt = match PageTable::new(mem, owner) {
            Some(pt) => pt,
            None => { return None; },
        };
        let res = pt.map(mem, TRAMPOLINE_VPN, TRAMPOLINE_PPN, TRAMPOLINE_FLAGS);
        assert(res is Ok);
        assert(11u8 | 1u8 == 11u8) by (bit_vector);
        let ms = Self { page_table: pt, areas: Vec::new() };
        assert(ms.mapping() =~= Map::<usize, PageTableEntry>::empty().insert(TRAMPOLINE_VPN, trampoline_entry()));
        assert(ms.area_seq() == Seq::<MapArea>::empty());
        Some(ms)
    }

    /// Adds the area `[start_vpn, end_vpn)` with permissions `perm`, each
    /// page backed by a fresh zeroed frame. A range that holds a mapped page
    /// is refused with `AlreadyMapped` and nothing changes; so is, with
    /// `OutOfFrames`, one for which `mem` has fewer than three free frames
    /// per page.
    #[verifier::rlimit(50)]
    #[verifier::spinoff_prover]
    pub fn insert_framed_area(&mut self, mem: &mut PhysMemory, start_vpn: usize, end_vpn: usize, perm: u8) -> (r: Result<(), MapError>)
        requires
            old(self).wf_in(&*old(mem)),
            start_vpn < end_vpn <= TRAMPOLINE_VPN,
        ensures
            final(self).wf_in(&*final(mem)),
            final(self).owner() == old(self).owner(),
            final(self).root() == old(self).root(),
            final(mem).frame_count() == old(mem).frame_count(),
            (exists|v: usize| start_vpn <= v < end_vpn && #[trigger] old(self).mapping().contains_key(v))
                ==> r == Err::<(), MapError>(MapError::AlreadyMapped),
            r is Ok <==> (forall|v: usize| start_vpn <= v < end_vpn ==> !#[trigger] old(self).mapping().contains_key(v))
                && 3 * (end_vpn - start_vpn) <= old(mem).free_count(),
            r is Err ==> *final(self) == *old(self) && *final(mem) == *old(mem),
            r is Ok ==> {
                &&& final(mem).free_count() + 3 * (end_vpn - start_vpn) >= old(mem).free_count()
                &&& final(self).area_seq() == old(self).area_seq().push((MapArea { start_vpn, end_vpn, perm }))
                &&& forall|v: usize| !(start_vpn <= v < end_vpn) ==> #[trigger] lookup(final(self).mapping(), v) == lookup(old(self).mapping(), v)
                &&& forall|v: usize| start_vpn <= v < end_vpn ==> {
                    &&& #[trigger] final(self).mapping().contains_key(v)
                    &&& final(self).mapping()[v].flags == perm | PTE_V
                    &&& old(mem).free().contains(final(self).mapping()[v].ppn)
                    &&& final(mem).page(final(self).mapping()[v].ppn) == zero_page()
                }
            },
            forall|q: usize| q < old(mem).frame_count() && old(mem).owner(q) != FRAME_FREE ==> #[trigger] final(mem).owner(q) == old(mem).owner(q),
            forall|q: usize| q < old(mem).frame_count() && old(mem).owner(q) != FRAME_FREE ==> #[trigger] final(mem).page(q) == old(mem).page(q),
    {
        let mut v: usize = start_vpn;
        while v < end_vpn
            invariant
                start_vpn <= v <= end_vpn,
                *self == *old(self),
                *mem == *old(mem),
                self.wf_in(&*mem),
                forall|w: usize| start_vpn <= w < v ==> !#[trigger] self.mapping().contains_key(w),
            decreases end_vpn - v,
        {
            if self.page_table.translate(v).is_some() {
                return Err(MapError::AlreadyMapped);
            }
            v += 1;
        }
        if mem.available() / 3 < end_vpn - start_vpn {
            return Err(MapError::OutOfFrames);
        }
        let ghost old_mem = *mem;
        let ghost old_self = *self;
        let owner = self.page_table_owner();
        proof { old_mem.lemma_free_count(); }
        let mut v: usize = start_vpn;
        while v < end_vpn
            invariant
                start_vpn <= v <= end_vpn <= TRAMPOLINE_VPN,
                start_vpn < end_vpn,
                self.page_table_wf(),
                mem.wf(),
                old_mem.wf(),
                old_mem == *old(mem),
                old_self == *old(self),
                forall|w: usize| start_vpn <= w < end_vpn ==> !#[trigger] old_self.mapping().contains_key(w),
                owner == old_self.owner(),
                owner != FRAME_FREE,
                self.owner() == old_self.owner(),
                self.root() == old_self.root(),
                self.area_seq() == old_self.area_seq(),
                mem.frame_count() == old_mem.frame_count(),
                3 * (end_vpn - v) <= mem.free_count(),
                mem.free_count() + 3 * (v - start_vpn) >= old_mem.free_count(),
                forall|w: usize| !(start_vpn <= w < v) ==> #[trigger] lookup(self.mapping(), w) == lookup(old_self.mapping(), w),
                forall|w: usize| start_vpn <= w < v ==> {
                    &&& #[trigger] self.mapping().contains_key(w)
                    &&& self.mapping()[w].flags == perm | PTE_V
                    &&& old_mem.free().contains(self.mapping()[w].ppn)
                    &&& self.mapping()[w].ppn < mem.frame_count()
                    &&& mem.owner(self.mapping()[w].ppn) == owner
                    &&& mem.page(self.mapping()[w].ppn) == zero_page()
                },
                forall|w1: usize, w2: usize| start_vpn <= w1 < v && start_vpn <= w2 < v && w1 != w2
                    ==> #[trigger] self.mapping()[w1].ppn != #[trigger] self.mapping()[w2].ppn,
                forall|q: usize| q < old_mem.frame_count() && old_mem.owner(q) != FRAME_FREE ==> #[trigger] mem.owner(q) == old_mem.owner(q),
                forall|q: usize| q < old_mem.frame_count() && old_mem.owner(q) != FRAME_FREE ==> #[trigger] mem.page(q) == old_mem.page(q),
                forall|q: usize| q < old_mem.frame_count() && old_mem.owner(q) == FRAME_FREE && mem.owner(q) != FRAME_FREE
                    ==> #[trigger] mem.owner(q) == owner,
                forall|q: usize| q < old_mem.frame_count() && old_mem.owner(q) == FRAME_FREE
                    ==> (#[trigger] mem.free().contains(q) <==> mem.owner(q) == FRAME_FREE),
            decreases end_vpn - v,
        {
            proof { mem.lemma_free_count(); old_mem.lemma_free_count(); }
            let ghost mem_before = *mem;
            let ghost map_before = self.mapping();
            assert(lookup(self.mapping(), v) == lookup(old_self.mapping(), v));
            let ppn = self.map_fresh_page(mem, v, perm);
            let ghost mem_alloc = *mem;
            proof {
                mem_before.lemma_free_count();
                old_mem.lemma_free_count();
                if old_mem.owner(ppn) != FRAME_FREE {
                    assert(mem_before.owner(ppn) == old_mem.owner(ppn));
                }
                assert(old_mem.free().contains(ppn));
            }
            let ghost v0 = v;
            v += 1;
            proof {
                mem.lemma_free_count();
                assert(self.page_table.missing_dirs(v0) <= 2);
                assert(mem.free_count() + 3 * (v - start_vpn) >= old_mem.free_count());
                assert forall|w: usize| start_vpn <= w < v implies {
                    &&& #[trigger] self.mapping().contains_key(w)
                    &&& self.mapping()[w].flags == perm | PTE_V
                    &&& old_mem.free().contains(self.mapping()[w].ppn)
                    &&& self.mapping()[w].ppn < mem.frame_count()
                    &&& mem.owner(self.mapping()[w].ppn) == owner
                    &&& mem.page(self.mapping()[w].ppn) == zero_page()
                } by {
                    if w == v0 {
                        assert(mem_alloc.owner(ppn) == owner);
                        assert(mem_alloc.page(ppn) == zero_page());
                    } else {
                        assert(map_before.contains_key(w));
                        let p = map_before[w].ppn;
                        assert(mem_before.owner(p) == owner);
                        assert(mem_alloc.owner(p) == owner);
                        assert(mem_alloc.page(p) == mem_before.page(p));
                    }
                }
                assert forall|w: usize| !(start_vpn <= w < v) implies #[trigger] lookup(self.mapping(), w) == lookup(old_self.mapping(), w) by {
                    assert(lookup(map_before, w) == lookup(old_self.mapping(), w));
                }
                assert forall|w1: usize, w2: usize| start_vpn <= w1 < v && start_vpn <= w2 < v && w1 != w2
                    implies #[trigger] self.mapping()[w1].ppn != #[trigger] self.mapping()[w2].ppn by {
                    if w1 == v0 {
                        assert(map_before.contains_key(w2));
                        assert(mem_before.owner(map_before[w2].ppn) == owner);
                    } else if w2 == v0 {
                        assert(map_before.contains_key(w1));
                        assert(mem_before.owner(map_before[w1].ppn) == owner);
                    } else {
                        assert(map_before.contains_key(w1));
                        assert(map_before.contains_key(w2));
                    }
                }
            }
        }
        assert(forall|w: usize| !(start_vpn <= w < end_vpn) ==> #[trigger] lookup(self.mapping(), w) == lookup(old_self.mapping(), w));
        let ghost loop_map = self.mapping();
        self.areas.push(MapArea { start_vpn, end_vpn, perm });
        assert(self.mapping() == loop_map);
        proof {
            let na = MapArea { start_vpn, end_vpn, perm };
            assert(self.area_seq() == old_self.area_seq().push(na));
            assert forall|w: usize| self.covered(w) <==> (old_self.covered(w) || covers(na, w)) by {
                if old_self.covered(w) {
                    let i = choose|i: int| 0 <= i < old_self.area_seq().len() && covers(#[trigger] old_self.area_seq()[i], w);
                    assert(self.area_seq()[i] == old_self.area_seq()[i]);
                }
                if covers(na, w) {
                    assert(self.area_seq()[old_self.area_seq().len() as int] == na);
                }
                if self.covered(w) {
                    let i = choose|i: int| 0 <= i < self.area_seq().len() && covers(#[trigger] self.area_seq()[i], w);
                    if i < old_self.area_seq().len() {
                        assert(old_self.area_seq()[i] == self.area_seq()[i]);
                    }
                }
            }
            assert forall|i: int| 0 <= i < old_self.area_seq().len() implies disjoint(#[trigger] old_self.area_seq()[i], na) by {
                let a = old_self.area_seq()[i];
                if !disjoint(a, na) {
                    let w: usize = if a.start_vpn <= start_vpn { start_vpn } else { a.start_vpn };
                    assert(covers(a, w));
                    assert(old_self.mapping().contains_key(w));
                }
            }
            assert forall|v1: usize| #[trigger] self.mapping().contains_key(v1) <==> (v1 == TRAMPOLINE_VPN || self.covered(v1)) by {
                if !(start_vpn <= v1 < end_vpn) {
                    assert(lookup(self.mapping(), v1) == lookup(old_self.mapping(), v1));
                }
            }
            assert(lookup(self.mapping(), TRAMPOLINE_VPN) == lookup(old_self.mapping(), TRAMPOLINE_VPN));
            assert forall|i: int, w: usize| 0 <= i < self.area_seq().len() && covers(#[trigger] self.area_seq()[i], w)
                implies {
                &&& (#[trigger] self.mapping()[w]).flags == self.area_seq()[i].perm | PTE_V
                &&& self.mapping()[w].ppn < mem.frame_count()
                &&& mem.owner(self.mapping()[w].ppn) == self.owner()
            } by {
                if i < old_self.area_seq().len() {
                    assert(old_self.area_seq()[i] == self.area_seq()[i]);
                    assert(disjoint(old_self.area_seq()[i], na));
                    assert(lookup(self.mapping(), w) == lookup(old_self.mapping(), w));
                    assert(old_mem.owner(old_self.mapping()[w].ppn) == owner);
                }
            }
            assert forall|v1: usize, w: usize| #[trigger] self.covered(v1) && #[trigger] self.covered(w) && v1 != w
                implies self.mapping()[v1].ppn != self.mapping()[w].ppn by {
                let in1 = start_vpn <= v1 < end_vpn;
                let in2 = start_vpn <= w < end_vpn;
                old_mem.lemma_free_count();
                if !in1 {
                    assert(lookup(self.mapping(), v1) == lookup(old_self.mapping(), v1));
                    assert(old_self.covered(v1));
                    let i = choose|i: int| 0 <= i < old_self.area_seq().len() && covers(#[trigger] old_self.area_seq()[i], v1);
                    assert(old_mem.owner(old_self.mapping()[v1].ppn) == owner);
                }
                if !in2 {
                    assert(lookup(self.mapping(), w) == lookup(old_self.mapping(), w));
                    assert(old_self.covered(w));
                    let i = choose|i: int| 0 <= i < old_self.area_seq().len() && covers(#[trigger] old_self.area_seq()[i], w);
                    assert(old_mem.owner(old_self.mapping()[w].ppn) == owner);
                }
                if !in1 && !in2 {
                    assert(old_self.covered(v1) && old_self.covered(w));
                    assert(old_self.mapping()[v1].ppn != old_self.mapping()[w].ppn);
                } else if in1 && in2 {
                    assert(self.mapping()[v1].ppn != self.mapping()[w].ppn);
                } else if in1 {
                    assert(old_mem.free().contains(self.mapping()[v1].ppn));
                } else {
                    assert(old_mem.free().contains(self.mapping()[w].ppn));
                }
            }
        }
        Ok(())
    }

    /// The user byte at virtual address `va`: `None` unless an area covers
    /// its page.
    pub open spec fn user_byte(&self, mem: &PhysMemory, va: usize) -> Option<u8> {
        let vpn = (va / PAGE_SIZE) as usize;
        if self.covered(vpn) {
            Some(mem.page(self.mapping()[vpn].ppn)[(va % PAGE_SIZE) as int])
        } else {
            None
        }
    }

    /// Whether every byte of `[va, va + len)` lies in a covered page.
    pub open spec fn user_range_ok(&self, va: usize, len: usize) -> bool {
        &&& va + len <= usize::MAX
        &&& forall|i: int| 0 <= i < len ==> (#[trigger] self.user_byte_covered((va + i) as usize))
    }

    pub open spec fn user_byte_covered(&self, va: usize) -> bool {
        self.covered((va / PAGE_SIZE) as usize)
    }

    /// Whether an area covers page `vpn`.
    pub fn is_covered(&self, vpn: usize) -> (r: bool)
        requires
            self.page_table_wf(),
            forall|v: usize| #[trigger] self.mapping().contains_key(v) <==> (v == TRAMPOLINE_VPN || self.covered(v)),
            forall|i: int| 0 <= i < self.area_seq().len() ==> (#[trigger] self.area_seq()[i]).end_vpn <= TRAMPOLINE_VPN,
        ensures
            r == self.covered(vpn),
    {
        proof {
            if self.covered(vpn) {
                let i = choose|i: int| 0 <= i < self.area_seq().len() && covers(#[trigger] self.area_seq()[i], vpn);
            }
            assert(self.mapping().contains_key(vpn) <==> (vpn == TRAMPOLINE_VPN || self.covered(vpn)));
        }
        let t = self.page_table.translate(vpn);
        vpn != TRAMPOLINE_VPN && t.is_some()
    }

    /// Reads the user byte at `va`.
    pub fn read_user_byte(&self, mem: &PhysMemory, va: usize) -> (r: Option<u8>)
        requires
            self.wf_in(mem),
        ensures
            r == self.user_byte(mem, va),
    {
        let vpn = va / PAGE_SIZE;
        if !self.is_covered(vpn) {
            return None;
        }
        let e = self.page_table.translate(vpn).unwrap();
        let ghost i = choose|i: int| 0 <= i < self.area_seq().len() && covers(#[trigger] self.area_seq()[i], vpn);
        Some(mem.read_byte(e.ppn, va % PAGE_SIZE))
    }

    /// Writes the user byte at `va`; reports whether an area covers it.
    /// Only the frame of that page changes.
    pub fn write_user_byte(&self, mem: &mut PhysMemory, va: usize, b: u8) -> (r: bool)
        requires
            self.wf_in(&*old(mem)),
        ensures
            self.wf_in(&*final(mem)),
            r == self.user_byte(&*old(mem), va) is Some,
            final(mem).frame_count() == old(mem).frame_count(),
            final(mem).free() == old(mem).free(),
            final(mem).free_count() == old(mem).free_count(),
            forall|q: usize| #[trigger] final(mem).owner(q) == old(mem).owner(q),
            forall|q: usize| q < old(mem).frame_count() && old(mem).owner(q) != self.owner() ==> #[trigger] final(mem).page(q) == old(mem).page(q),
            forall|a: usize| #[trigger] self.user_byte(&*final(mem), a)
                == if a == va && r { Some(b) } else { self.user_byte(&*old(mem), a) },
    {
        let vpn = va / PAGE_SIZE;
        if !self.is_covered(vpn) {
            return false;
        }
        let e = self.page_table.translate(vpn).unwrap();
        let ghost i = choose|i: int| 0 <= i < self.area_seq().len() && covers(#[trigger] self.area_seq()[i], vpn);
        mem.write_byte(e.ppn, va % PAGE_SIZE, b);
        proof {
            old(mem).lemma_free_count();
            mem.lemma_free_count();
            assert forall|a: usize| #[trigger] self.user_byte(&*mem, a)
                == if a == va { Some(b) } else { self.user_byte(&*old(mem), a) } by {
                let w = (a / PAGE_SIZE) as usize;
                if self.covered(w) && w != vpn {
                    assert(self.mapping()[w].ppn != self.mapping()[vpn].ppn);
                    let j = choose|j: int| 0 <= j < self.area_seq().len() && covers(#[trigger] self.area_seq()[j], w);
                }
                if w == vpn && a != va {
                    assert(a % 4096 != va % 4096) by (nonlinear_arith)
                        requires
                            a / 4096 == va / 4096,
                            a != va,
                    {
                        assert(a == 4096 * (a / 4096) + a % 4096);
                        assert(va == 4096 * (va / 4096) + va % 4096);
                    }
                }
            }
        }
        true
    }

    /// Copies `len` user bytes from `va` out; `None` unless every one of
    /// them lies in a covered page.
    pub fn read_user_bytes(&self, mem: &PhysMemory, va: usize, len: usize) -> (r: Option<Vec<u8>>)
        requires
            self.wf_in(mem),
        ensures
            r is Some <==> self.user_range_ok(va, len),
            r matches Some(v) ==> v@.len() == len
                && forall|i: int| 0 <= i < len ==> self.user_byte(mem, (va + i) as usize) == Some(#[trigger] v@[i]),
    {
        if va > usize::MAX - len {
            return None;
        }
        let mut out: Vec<u8> = Vec::new();
        let mut i: usize = 0;
        while i < len
            invariant
                i <= len,
                va + len <= usize::MAX,
                out@.len() == i,
                self.wf_in(mem),
                forall|j: int| 0 <= j < i ==> self.user_byte(mem, (va + j) as usize) == Some(#[trigger] out@[j]),
                forall|j: int| 0 <= j < i ==> #[trigger] self.user_byte_covered((va + j) as usize),
            decreases len - i,
        {
            match self.read_user_byte(mem, va + i) {
                Some(b) => out.push(b),
                None => {
                    assert(!self.user_byte_covered((va + i) as usize));
                    return None;
                },
            }
            i += 1;
        }
        Some(out)
    }

    /// Copies `data` into user memory at `va`; refused, with nothing
    /// written, unless every byte of the range lies in a covered page.
    pub fn write_user_bytes(&self, mem: &mut PhysMemory, va: usize, data: &Vec<u8>) -> (r: bool)
        requires
            self.wf_in(&*old(mem)),
        ensures
            self.wf_in(&*final(mem)),
            r == self.user_range_ok(va, data@.len() as usize),
            !r ==> *final(mem) == *old(mem),
            final(mem).frame_count() == old(mem).frame_count(),
            final(mem).free() == old(mem).free(),
            final(mem).free_count() == old(mem).free_count(),
            forall|q: usize| #[trigger] final(mem).owner(q) == old(mem).owner(q),
            forall|q: usize| q < old(mem).frame_count() && old(mem).owner(q) != self.owner() ==> #[trigger] final(mem).page(q) == old(mem).page(q),
            r ==> forall|i: int| 0 <= i < data@.len() ==> #[trigger] self.user_byte(&*final(mem), (va + i) as usize) == Some(data@[i]),
            r ==> forall|a: usize| !(va <= a < va + data@.len()) ==> #[trigger] self.user_byte(&*final(mem), a) == self.user_byte(&*old(mem), a),
    {
        let len = data.len();
        if va > usize::MAX - len {
            return false;
        }
        let mut i: usize = 0;
        while i < len
            invariant
                i <= len,
                len == data@.len(),
                va + len <= usize::MAX,
                self.wf_in(&*mem),
                *mem == *old(mem),
                forall|j: int| 0 <= j < i ==> #[trigger] self.user_byte_covered((va + j) as usize),
            decreases len - i,
        {
            if !self.is_covered((va + i) / PAGE_SIZE) {
                assert(!self.user_byte_covered((va + i) as usize));
                return false;
            }
            i += 1;
        }
        let mut i: usize = 0;
        while i < len
            invariant
                i <= len,
                len == data@.len(),
                va + len <= usize::MAX,
                self.wf_in(&*mem),
                self.user_range_ok(va, len),
                mem.frame_count() == old(mem).frame_count(),
                mem.free() == old(mem).free(),
                mem.free_count() == old(mem).free_count(),
                forall|q: usize| #[trigger] mem.owner(q) == old(mem).owner(q),
                forall|q: usize| q < old(mem).frame_count() && old(mem).owner(q) != self.owner() ==> #[trigger] mem.page(q) == old(mem).page(q),
                forall|j: int| 0 <= j < i ==> #[trigger] self.user_byte(&*mem, (va + j) as usize) == Some(data@[j]),
                forall|a: usize| !(va <= a < va + i) ==> #[trigger] self.user_byte(&*mem, a) == self.user_byte(&*old(mem), a),
            decreases len - i,
        {
            assert(self.user_byte_covered((va + i) as usize));
            let ok = self.write_user_byte(mem, va + i, data[i]);
            i += 1;
        }
        true
    }

    /// Number of pages that the areas cover.
    pub open spec fn page_count(&self) -> nat {
        pages_upto(self.area_seq(), self.area_seq().len() as int)
    }

    /// The number of covered pages when it is at most `limit`.
    fn count_pages(&self, limit: usize) -> (r: Option<usize>)
        requires
            forall|i: int| 0 <= i < self.area_seq().len() ==> (#[trigger] self.area_seq()[i]).start_vpn < self.area_seq()[i].end_vpn,
        ensures
            r is Some <==> self.page_count() <= limit,
            r matches Some(n) ==> n == self.page_count(),
    {
        assert forall|i: int| 0 <= i < self.areas@.len() implies (#[trigger] self.areas@[i]).start_vpn < self.areas@[i].end_vpn by {
            assert(self.area_seq()[i] == self.areas@[i]);
        }
        count_area_pages(&self.areas, limit)
    }

    /// A copy of `parent` under the owner tag `owner`: the same areas and
    /// permissions, each page in a fresh frame holding the parent's bytes.
    /// `None`, with nothing changed, when `mem` has fewer than three free
    /// frames per page plus three.
    #[verifier::spinoff_prover]
    pub fn from_existing(parent: &MemorySet, mem: &mut PhysMemory, owner: usize) -> (r: Option<MemorySet>)
        requires
            parent.wf_in(&*old(mem)),
            owner != FRAME_FREE,
            owner != parent.owner(),
        ensures
            parent.wf_in(&*final(mem)),
            final(mem).frame_count() == old(mem).frame_count(),
            r is Some <==> 3 * parent.page_count() + 3 <= old(mem).free_count(),
            r is None ==> *final(mem) == *old(mem),
            forall|q: usize| q < old(mem).frame_count() && old(mem).owner(q) != FRAME_FREE ==> #[trigger] final(mem).owner(q) == old(mem).owner(q),
            forall|q: usize| q < old(mem).frame_count() && old(mem).owner(q) != FRAME_FREE ==> #[trigger] final(mem).page(q) == old(mem).page(q),
            r matches Some(c) ==> {
                &&& c.wf_in(&*final(mem))
                &&& c.owner() == owner
                &&& c.area_seq() == parent.area_seq()
                &&& forall|v: usize| #[trigger] c.mapping().contains_key(v) == parent.mapping().contains_key(v)
                &&& forall|v: usize| c.mapping().contains_key(v) ==> (#[trigger] c.mapping()[v]).flags == parent.mapping()[v].flags
                &&& forall|a: usize| #[trigger] c.user_byte(&*final(mem), a) == parent.user_byte(&*final(mem), a)
            },
    {
        proof { old(mem).lemma_free_count(); }
        let avail = mem.available();
        if avail < 3 {
            return None;
        }
        let total = match parent.count_pages((avail - 3) / 3) {
            Some(n) => n,
            None => { return None; },
        };
        let ghost mem0 = *mem;
        let mut c = match MemorySet::new_bare(mem, owner) {
            Some(c) => c,
            None => { return None; },
        };
        proof { parent.page_table.lemma_owner_nonfree(); lemma_wf_in_stable(parent, &mem0, &*mem); }
        let mut i: usize = 0;
        while i < parent.areas.len()
            invariant
                i <= parent.area_seq().len(),
                c.wf_in(&*mem),
                parent.wf_in(&*mem),
                c.owner() == owner,
                owner != parent.owner(),
                owner != FRAME_FREE,
                c.area_seq() == parent.area_seq().take(i as int),
                mem0.wf(),
                forall|w: usize| #[trigger] c.covered(w) ==> mem0.owner(c.mapping()[w].ppn) == FRAME_FREE,
                total == parent.page_count(),
                3 * (total - pages_upto(parent.area_seq(), i as int)) <= mem.free_count(),
                mem.frame_count() == mem0.frame_count(),
                forall|q: usize| q < mem0.frame_count() && mem0.owner(q) != FRAME_FREE ==> #[trigger] mem.owner(q) == mem0.owner(q),
                forall|q: usize| q < mem0.frame_count() && mem0.owner(q) != FRAME_FREE ==> #[trigger] mem.page(q) == mem0.page(q),
                forall|v: usize| #[trigger] c.covered(v) ==> mem.page(c.mapping()[v].ppn) == mem.page(parent.mapping()[v].ppn),
            decreases parent.area_seq().len() - i,
        {
            let a = parent.areas[i];
            proof {
                lemma_pages_upto_mono(parent.area_seq(), i + 1, parent.area_seq().len() as int);
                assert forall|v: usize| a.start_vpn <= v < a.end_vpn implies !#[trigger] c.mapping().contains_key(v) by {
                    if c.covered(v) {
                        let k = choose|k: int| 0 <= k < c.area_seq().len() && covers(#[trigger] c.area_seq()[k], v);
                        assert(c.area_seq()[k] == parent.area_seq()[k]);
                        assert(disjoint(parent.area_seq()[k], parent.area_seq()[i as int]));
                    }
                }
            }
            let ghost c_before = c;
            let ghost mem_before = *mem;
            let res = c.insert_framed_area(mem, a.start_vpn, a.end_vpn, a.perm);
            assert(res is Ok);
            let ghost mem_after = *mem;
            proof {
                assert(c.area_seq() =~= parent.area_seq().take(i + 1));
                parent.page_table.lemma_owner_nonfree();
                lemma_wf_in_stable(parent, &mem_before, &*mem);
                assert forall|w: usize| #[trigger] c.covered(w) && !(a.start_vpn <= w < a.end_vpn)
                    implies mem.page(c.mapping()[w].ppn) == mem.page(parent.mapping()[w].ppn) by {
                    assert(lookup(c.mapping(), w) == lookup(c_before.mapping(), w));
                    let k = choose|k: int| 0 <= k < c.area_seq().len() && covers(#[trigger] c.area_seq()[k], w);
                    assert(k != i);
                    assert(c_before.area_seq()[k] == c.area_seq()[k]);
                    assert(c_before.covered(w));
                    assert(parent.area_seq()[k] == c.area_seq()[k]);
                    assert(parent.covered(w));
                    assert(mem_before.owner(c_before.mapping()[w].ppn) == owner);
                    assert(mem_before.owner(parent.mapping()[w].ppn) == parent.owner());
                    parent.page_table.lemma_owner_nonfree();
                }
                assert forall|w: usize| #[trigger] c.covered(w) implies c.mapping()[w].ppn < mem.frame_count() && mem.owner(c.mapping()[w].ppn) == owner by {
                    let k = choose|k: int| 0 <= k < c.area_seq().len() && covers(#[trigger] c.area_seq()[k], w);
                }
                mem_before.lemma_free_count();
                mem0.lemma_free_count();
                assert forall|w: usize| #[trigger] c.covered(w) implies mem0.owner(c.mapping()[w].ppn) == FRAME_FREE by {
                    if a.start_vpn <= w < a.end_vpn {
                        let q = c.mapping()[w].ppn;
                        assert(mem_before.free().contains(q));
                        if mem0.owner(q) != FRAME_FREE {
                            assert(mem_before.owner(q) == mem0.owner(q));
                        }
                    } else {
                        assert(lookup(c.mapping(), w) == lookup(c_before.mapping(), w));
                        let k = choose|k: int| 0 <= k < c.area_seq().len() && covers(#[trigger] c.area_seq()[k], w);
                        assert(c_before.area_seq()[k] == c.area_seq()[k]);
                        assert(c_before.covered(w));
                    }
                }
            }
            let mut v: usize = a.start_vpn;
            while v < a.end_vpn
                invariant
                    a == parent.area_seq()[i as int],
                    i < parent.area_seq().len(),
                    a.start_vpn <= v <= a.end_vpn,
                    c.wf_in(&*mem),
                    parent.wf_in(&*mem),
                    c.owner() == owner,
                    owner != parent.owner(),
                    c.area_seq() == parent.area_seq().take(i + 1),
                    mem.frame_count() == mem0.frame_count(),
                    mem.free_count() == mem_after.free_count(),
                    mem0.wf(),
                    forall|w: usize| #[trigger] c.covered(w) ==> c.mapping()[w].ppn < mem.frame_count() && mem.owner(c.mapping()[w].ppn) == owner,
                    forall|w: usize| #[trigger] c.covered(w) ==> mem0.owner(c.mapping()[w].ppn) == FRAME_FREE,
                    forall|q: usize| q < mem0.frame_count() && mem0.owner(q) != FRAME_FREE ==> #[trigger] mem.owner(q) == mem0.owner(q),
                    forall|q: usize| q < mem0.frame_count() && mem0.owner(q) != FRAME_FREE ==> #[trigger] mem.page(q) == mem0.page(q),
                    forall|w: usize| #[trigger] c.covered(w) && !(v <= w < a.end_vpn) ==> mem.page(c.mapping()[w].ppn) == mem.page(parent.mapping()[w].ppn),
                decreases a.end_vpn - v,
            {
                proof {
                    assert(c.area_seq()[i as int] == a);
                    assert(covers(c.area_seq()[i as int], v));
                    assert(covers(parent.area_seq()[i as int], v));
                    assert(c.covered(v) && parent.covered(v));
                    assert(c.mapping().contains_key(v) && parent.mapping().contains_key(v));
                }
                let src = parent.page_table.translate(v).unwrap();
                let dst = c.page_table.translate(v).unwrap();
                let ghost mem_pre = *mem;
                mem.copy_page(src.ppn, dst.ppn);
                proof {
                    mem_pre.lemma_free_count();
                    lemma_wf_in_stable(parent, &mem_pre, &*mem);
                    lemma_wf_in_stable(&c, &mem_pre, &*mem);
                    assert forall|w: usize| #[trigger] c.covered(w) && !(v + 1 <= w < a.end_vpn)
                        implies mem.page(c.mapping()[w].ppn) == mem.page(parent.mapping()[w].ppn) by {
                        let k = choose|k: int| 0 <= k < parent.area_seq().len() && covers(#[trigger] parent.area_seq()[k], w)
                            && parent.area_seq()[k] == c.area_seq()[k];
                        assert(parent.covered(w));
                        assert(mem_pre.owner(parent.mapping()[w].ppn) == parent.owner());
                        if w != v {
                            assert(c.mapping()[w].ppn != c.mapping()[v].ppn);
                        }
                    }
                }
                v += 1;
            }
            i += 1;
        }
        proof {
            assert(c.area_seq() =~= parent.area_seq());
            assert forall|w: usize| c.covered(w) <==> parent.covered(w) by {
                if c.covered(w) {
                    let k = choose|k: int| 0 <= k < c.area_seq().len() && covers(#[trigger] c.area_seq()[k], w);
                    assert(parent.area_seq()[k] == c.area_seq()[k]);
                }
                if parent.covered(w) {
                    let k = choose|k: int| 0 <= k < parent.area_seq().len() && covers(#[trigger] parent.area_seq()[k], w);
                    assert(parent.area_seq()[k] == c.area_seq()[k]);
                }
            }
            assert forall|w: usize| #[trigger] c.mapping().contains_key(w) == parent.mapping().contains_key(w) by {
                assert(c.covered(w) == parent.covered(w));
            }
            assert forall|w: usize| c.mapping().contains_key(w) implies (#[trigger] c.mapping()[w]).flags == parent.mapping()[w].flags by {
                if c.covered(w) {
                    let k = choose|k: int| 0 <= k < c.area_seq().len() && covers(#[trigger] c.area_seq()[k], w);
                    assert(parent.area_seq()[k] == c.area_seq()[k]);
                }
            }
            assert forall|x: usize| #[trigger] c.user_byte(&*mem, x) == parent.user_byte(&*mem, x) by {
                let w = (x / PAGE_SIZE) as usize;
                assert(c.covered(w) == parent.covered(w));
            }
        }
        Some(c)
    }

    /// The machine word at `va`, least significant byte first, when all
    /// its bytes lie in covered pages.
    pub open spec fn user_word(&self, mem: &PhysMemory, va: usize) -> Option<nat> {
        if self.user_range_ok(va, 8) {
            Some(le_val(Seq::new(8, |i: int| self.user_byte(mem, (va + i) as usize)->Some_0)))
        } else {
            None
        }
    }

    /// The bytes from `va` on are `s`, none of them zero, followed by a
    /// zero byte.
    pub open spec fn user_str_at(&self, mem: &PhysMemory, va: usize, s: Seq<u8>) -> bool {
        &&& va + s.len() <= usize::MAX
        &&& forall|i: int| 0 <= i < s.len() ==> #[trigger] self.user_byte(mem, (va + i) as usize) == Some(s[i]) && s[i] != 0
        &&& self.user_byte(mem, (va + s.len()) as usize) == Some(0u8)
    }

    /// The words from `ptr` on point to the strings of `v`, in order, and
    /// a zero word ends them.
    pub open spec fn user_args_at(&self, mem: &PhysMemory, ptr: usize, v: Seq<Vec<u8>>) -> bool {
        &&& ptr + 8 * v.len() <= usize::MAX
        &&& self.user_word(mem, (ptr + 8 * v.len()) as usize) == Some(0nat)
        &&& forall|k: int| 0 <= k < v.len() ==> exists|w: nat| #[trigger] self.user_word(mem, (ptr + 8 * k) as usize) == Some(w)
            && w != 0 && self.user_str_at(mem, w as usize, v[k]@)
    }

    /// Reads the machine word at `va`.
    pub fn read_user_word(&self, mem: &PhysMemory, va: usize) -> (r: Option<u64>)
        requires
            self.wf_in(mem),
        ensures
            r is Some <==> self.user_range_ok(va, 8),
            r matches Some(w) ==> self.user_word(mem, va) == Some(w as nat),
    {
        match self.read_user_bytes(mem, va, 8) {
            Some(b) => {
                let w = from_le(&b);
                proof {
                    assert(b@ =~= Seq::new(8, |i: int| self.user_byte(mem, (va + i) as usize)->Some_0));
                }
                Some(w)
            },
            None => None,
        }
    }

    /// Reads the zero-terminated string at `va`, without its terminator;
    /// `None` when a byte before the terminator is not in a covered page.
    pub fn read_user_str(&self, mem: &PhysMemory, va: usize) -> (r: Option<Vec<u8>>)
        requires
            self.wf_in(mem),
        ensures
            r matches Some(s) ==> self.user_str_at(mem, va, s@),
            r is None ==> forall|s: Seq<u8>| !#[trigger] self.user_str_at(mem, va, s),
    {
        let mut out: Vec<u8> = Vec::new();
        let mut a: usize = va;
        loop
            invariant
                self.wf_in(mem),
                va <= a,
                a == va + out@.len(),
                forall|i: int| 0 <= i < out@.len() ==> #[trigger] self.user_byte(mem, (va + i) as usize) == Some(out@[i]) && out@[i] != 0,
            decreases usize::MAX - a,
        {
            match self.read_user_byte(mem, a) {
                None => {
                    proof {
                        assert forall|s: Seq<u8>| !#[trigger] self.user_str_at(mem, va, s) by {
                            if self.user_str_at(mem, va, s) {
                                let k = out@.len() as int;
                                if s.len() < k {
                                    assert(self.user_byte(mem, (va + s.len()) as usize) == Some(out@[s.len() as int]));
                                } else if s.len() == k {
                                } else {
                                    assert(self.user_byte(mem, (va + k) as usize) == Some(s[k]));
                                }
                            }
                        }
                    }
                    return None;
                },
                Some(b) => {
                    if b == 0 {
                        return Some(out);
                    }
                    if a == usize::MAX {
                        proof {
                            assert forall|s: Seq<u8>| !#[trigger] self.user_str_at(mem, va, s) by {
                                if self.user_str_at(mem, va, s) {
                                    let k = out@.len() as int;
                                    if s.len() < k {
                                        assert(self.user_byte(mem, (va + s.len()) as usize) == Some(out@[s.len() as int]));
                                    } else if s.len() == k {
                                        assert(self.user_byte(mem, (va + k) as usize) == Some(0u8));
                                    }
                                }
                            }
                        }
                        return None;
                    }
                    out.push(b);
                    a = a + 1;
                    proof {
                        assert forall|i: int| 0 <= i < out@.len() implies #[trigger] self.user_byte(mem, (va + i) as usize) == Some(out@[i]) && out@[i] != 0 by {
                            if i < out@.len() - 1 {
                                assert(out@[i] == out@.drop_last()[i]);
                            }
                        }
                    }
                },
            }
        }
    }

    /// Reads the argument vector at `ptr`: words that point to strings,
    /// ended by a zero word. `None` when a word or string cannot be read.
    pub fn read_user_args(&self, mem: &PhysMemory, ptr: usize) -> (r: Option<Vec<Vec<u8>>>)
        requires
            self.wf_in(mem),
        ensures
            r matches Some(v) ==> self.user_args_at(mem, ptr, v@),
            r is None ==> forall|v: Seq<Vec<u8>>| !#[trigger] self.user_args_at(mem, ptr, v),
    {
        let mut out: Vec<Vec<u8>> = Vec::new();
        let mut p: usize = ptr;
        loop
            invariant
                self.wf_in(mem),
                ptr <= p,
                p == ptr + 8 * out@.len(),
                forall|k: int| 0 <= k < out@.len() ==> exists|w: nat| #[trigger] self.user_word(mem, (ptr + 8 * k) as usize) == Some(w)
                    && w != 0 && self.user_str_at(mem, w as usize, out@[k]@),
            decreases usize::MAX - p,
        {
            let ghost k = out@.len() as int;
            let w = match self.read_user_word(mem, p) {
                Some(w) => w,
                None => {
                    proof {
                        assert forall|v: Seq<Vec<u8>>| !#[trigger] self.user_args_at(mem, ptr, v) by {
                            if self.user_args_at(mem, ptr, v) {
                                if v.len() > k {
                                    assert(self.user_word(mem, (ptr + 8 * k) as usize) is Some);
                                } else if v.len() < k {
                                    assert(self.user_word(mem, (ptr + 8 * v.len()) as usize) is Some);
                                    let w2 = choose|w2: nat| self.user_word(mem, (ptr + 8 * v.len()) as usize) == Some(w2)
                                        && w2 != 0 && self.user_str_at(mem, w2 as usize, out@[v.len() as int]@);
                                }
                            }
                        }
                    }
                    return None;
                },
            };
            if w == 0 {
                return Some(out);
            }
            let s = match self.read_user_str(mem, w as usize) {
                Some(s) => s,
                None => {
                    proof {
                        assert forall|v: Seq<Vec<u8>>| !#[trigger] self.user_args_at(mem, ptr, v) by {
                            if self.user_args_at(mem, ptr, v) {
                                if v.len() > k {
                                    let w2 = choose|w2: nat| #[trigger] self.user_word(mem, (ptr + 8 * k) as usize) == Some(w2)
                                        && w2 != 0 && self.user_str_at(mem, w2 as usize, v[k]@);
                                    assert(w2 == w as nat);
                                    assert(self.user_str_at(mem, w as usize, v[k]@));
                                } else if v.len() < k {
                                    let w2 = choose|w2: nat| #[trigger] self.user_word(mem, (ptr + 8 * v.len()) as usize) == Some(w2)
                                        && w2 != 0 && self.user_str_at(mem, w2 as usize, out@[v.len() as int]@);
                                }
                            }
                        }
                    }
                    return None;
                },
            };
            if p > usize::MAX - 8 {
                proof {
                    assert forall|v: Seq<Vec<u8>>| !#[trigger] self.user_args_at(mem, ptr, v) by {
                        if self.user_args_at(mem, ptr, v) {
                            if v.len() < k {
                                let w2 = choose|w2: nat| #[trigger] self.user_word(mem, (ptr + 8 * v.len()) as usize) == Some(w2)
                                    && w2 != 0 && self.user_str_at(mem, w2 as usize, out@[v.len() as int]@);
                            }
                        }
                    }
                }
                return None;
            }
            let ghost old_out = out@;
            out.push(s);
            proof {
                assert forall|k2: int| 0 <= k2 < out@.len() implies exists|w2: nat| #[trigger] self.user_word(mem, (ptr + 8 * k2) as usize) == Some(w2)
                    && w2 != 0 && self.user_str_at(mem, w2 as usize, out@[k2]@) by {
                    if k2 < old_out.len() {
                        assert(out@[k2] == old_out[k2]);
                    } else {
                        assert(self.user_word(mem, (ptr + 8 * k2) as usize) == Some(w as nat));
                    }
                }
            }
            p = p + 8;
        }
    }

    /// A space with the areas `areas`, in that order, each page in a fresh
    /// zeroed frame under `owner`. `None`, with nothing changed, when `mem`
    /// has fewer than three free frames per page plus three.
    #[verifier::spinoff_prover]
    pub fn from_areas(areas: &Vec<MapArea>, mem: &mut PhysMemory, owner: usize) -> (r: Option<MemorySet>)
        requires
            old(mem).wf(),
            owner != FRAME_FREE,
            areas_fit(areas@),
        ensures
            final(mem).wf(),
            final(mem).frame_count() == old(mem).frame_count(),
            r is Some <==> 3 * pages_upto(areas@, areas@.len() as int) + 3 <= old(mem).free_count(),
            r is None ==> *final(mem) == *old(mem),
            forall|q: usize| q < old(mem).frame_count() && old(mem).owner(q) != FRAME_FREE ==> #[trigger] final(mem).owner(q) == old(mem).owner(q),
            forall|q: usize| q < old(mem).frame_count() && old(mem).owner(q) != FRAME_FREE ==> #[trigger] final(mem).page(q) == old(mem).page(q),
            r matches Some(ms) ==> {
                &&& ms.wf_in(&*final(mem))
                &&& ms.owner() == owner
                &&& ms.area_seq() == areas@
            },
    {
        proof { old(mem).lemma_free_count(); }
        let avail = mem.available();
        if avail < 3 {
            return None;
        }
        let total = match count_area_pages(areas, (avail - 3) / 3) {
            Some(n) => n,
            None => { return None; },
        };
        let ghost mem0 = *mem;
        let mut c = match MemorySet::new_bare(mem, owner) {
            Some(c) => c,
            None => { return None; },
        };
        let mut i: usize = 0;
        while i < areas.len()
            invariant
                i <= areas@.len(),
                areas_fit(areas@),
                c.wf_in(&*mem),
                c.owner() == owner,
                c.area_seq() == areas@.take(i as int),
                total == pages_upto(areas@, areas@.len() as int),
                3 * (total - pages_upto(areas@, i as int)) <= mem.free_count(),
                mem.frame_count() == mem0.frame_count(),
                forall|q: usize| q < mem0.frame_count() && mem0.owner(q) != FRAME_FREE ==> #[trigger] mem.owner(q) == mem0.owner(q),
                forall|q: usize| q < mem0.frame_count() && mem0.owner(q) != FRAME_FREE ==> #[trigger] mem.page(q) == mem0.page(q),
            decreases areas@.len() - i,
        {
            let a = areas[i];
            proof {
                lemma_pages_upto_mono(areas@, i + 1, areas@.len() as int);
                assert forall|v: usize| a.start_vpn <= v < a.end_vpn implies !#[trigger] c.mapping().contains_key(v) by {
                    if c.covered(v) {
                        let k = choose|k: int| 0 <= k < c.area_seq().len() && covers(#[trigger] c.area_seq()[k], v);
                        assert(c.area_seq()[k] == areas@[k]);
                        assert(disjoint(areas@[k], areas@[i as int]));
                    }
                }
            }
            let res = c.insert_framed_area(mem, a.start_vpn, a.end_vpn, a.perm);
            assert(res is Ok);
            proof {
                assert(c.area_seq() =~= areas@.take(i + 1));
            }
            i += 1;
        }
        proof {
            assert(c.area_seq() =~= areas@);
        }
        Some(c)
    }

    /// Whether `img` fits an address space.
    pub fn check_image(img: &ExecImage) -> (r: bool)
        ensures
            r == image_fits(*img),
    {
        let n = img.segments.len();
        let mut k: usize = 0;
        while k < n
            invariant
                k <= n,
                n == img.segments@.len(),
                forall|j: int| 0 <= j < k ==> {
                    &&& (#[trigger] img.segments@[j]).start_va < img.segments@[j].end_va <= MAX_SEGMENT_END
                    &&& img.segments@[j].data@.len() <= img.segments@[j].end_va - img.segments@[j].start_va
                },
            decreases n - k,
        {
            let sg = &img.segments[k];
            if !(sg.start_va < sg.end_va && sg.end_va <= MAX_SEGMENT_END && sg.data.len() <= sg.end_va - sg.start_va) {
                return false;
            }
            k += 1;
        }
        let mut k: usize = 0;
        while k < n
            invariant
                k <= n,
                n == img.segments@.len(),
                forall|j: int| 0 <= j < n ==> (#[trigger] img.segments@[j]).start_va < img.segments@[j].end_va <= MAX_SEGMENT_END,
                forall|j: int| 0 <= j < n ==> (#[trigger] img.segments@[j]).data@.len() <= img.segments@[j].end_va - img.segments@[j].start_va,
                forall|i: int, j: int| 0 <= i < k && 0 <= j < n && i != j
                    ==> disjoint(seg_area(#[trigger] img.segments@[i]), seg_area(#[trigger] img.segments@[j])),
            decreases n - k,
        {
            let a = segment_area(&img.segments[k]);
            let mut l: usize = 0;
            while l < n
                invariant
                    k < n,
                    l <= n,
                    n == img.segments@.len(),
                    a == seg_area(img.segments@[k as int]),
                    forall|j: int| 0 <= j < n ==> (#[trigger] img.segments@[j]).start_va < img.segments@[j].end_va <= MAX_SEGMENT_END,
                    forall|j: int| 0 <= j < l && j != k ==> disjoint(a, seg_area(#[trigger] img.segments@[j])),
                decreases n - l,
            {
                if l != k {
                    let b = segment_area(&img.segments[l]);
                    if !(a.end_vpn <= b.start_vpn || b.end_vpn <= a.start_vpn) {
                        return false;
                    }
                }
                l += 1;
            }
            k += 1;
        }
        true
    }

    /// A space holding `img`: one area per segment with the segment's bytes
    /// at its start, a guard page, the user stack, and the trap context
    /// page; with the initial stack pointer (the top of the stack) and the
    /// entry point. `None`, with nothing changed, when `img` does not fit
    /// or `mem` has fewer than three free frames per page plus three.
    #[verifier::spinoff_prover]
    pub fn from_executable(img: &ExecImage, mem: &mut PhysMemory, owner: usize) -> (r: Option<(MemorySet, usize, usize)>)
        requires
            old(mem).wf(),
            owner != FRAME_FREE,
        ensures
            final(mem).wf(),
            final(mem).frame_count() == old(mem).frame_count(),
            r is Some <==> image_fits(*img)
                && 3 * pages_upto(image_areas(*img), image_areas(*img).len() as int) + 3 <= old(mem).free_count(),
            r is None ==> *final(mem) == *old(mem),
            forall|q: usize| q < old(mem).frame_count() && old(mem).owner(q) != FRAME_FREE ==> #[trigger] final(mem).owner(q) == old(mem).owner(q),
            forall|q: usize| q < old(mem).frame_count() && old(mem).owner(q) != FRAME_FREE && old(mem).owner(q) != owner
                ==> #[trigger] final(mem).page(q) == old(mem).page(q),
            r matches Some((ms, sp, entry)) ==> {
                &&& ms.wf_in(&*final(mem))
                &&& ms.owner() == owner
                &&& ms.area_seq() == image_areas(*img)
                &&& entry == img.entry
                &&& sp == (stack_bottom_vpn(*img) + USER_STACK_PAGES) * PAGE_SIZE
                &&& forall|k: int, i: int| 0 <= k < img.segments@.len() && 0 <= i < img.segments@[k].data@.len()
                    ==> #[trigger] ms.user_byte(&*final(mem), (img.segments@[k].start_va + i) as usize)
                        == Some(#[trigger] img.segments@[k].data@[i])
            },
    {
        if !Self::check_image(img) {
            return None;
        }
        let n = img.segments.len();
        let mut areas: Vec<MapArea> = Vec::new();
        let mut top: usize = 0;
        let mut k: usize = 0;
        proof { lemma_segs_end(img.segments@, n as int); }
        while k < n
            invariant
                k <= n,
                n == img.segments@.len(),
                image_fits(*img),
                areas@ == img.segments@.take(k as int).map_values(|s: ProgramSegment| seg_area(s)),
                top == segs_end(img.segments@, k as int),
            decreases n - k,
        {
            let a = segment_area(&img.segments[k]);
            areas.push(a);
            if a.end_vpn > top {
                top = a.end_vpn;
            }
            proof {
                assert(areas@ =~= img.segments@.take(k + 1).map_values(|s: ProgramSegment| seg_area(s)));
            }
            k += 1;
        }
        proof {
            lemma_segs_end(img.segments@, n as int);
            assert(img.segments@.take(n as int) =~= img.segments@);
        }
        let bottom = top + 1;
        areas.push(MapArea { start_vpn: bottom, end_vpn: bottom + USER_STACK_PAGES, perm: MAP_R | MAP_W | MAP_U });
        areas.push(MapArea { start_vpn: TRAP_CONTEXT_VPN, end_vpn: TRAMPOLINE_VPN, perm: MAP_R | MAP_W });
        proof {
            let s = img.segments@;
            assert(areas@ =~= image_areas(*img));
            assert forall|i: int| 0 <= i < areas@.len() implies (#[trigger] areas@[i]).start_vpn < areas@[i].end_vpn && areas@[i].end_vpn <= TRAMPOLINE_VPN by {
                if i < n {
                    lemma_page_range(s[i].start_va, s[i].start_va as int, s[i].end_va);
                    assert(seg_area(s[i]).end_vpn <= segs_end(s, n as int));
                }
            }
            assert forall|i: int, j: int| 0 <= i < areas@.len() && 0 <= j < areas@.len() && i != j
                implies disjoint(#[trigger] areas@[i], #[trigger] areas@[j]) by {
                if i < n && j < n {
                    assert(disjoint(seg_area(s[i]), seg_area(s[j])));
                } else if i < n {
                    assert(seg_area(s[i]).end_vpn <= segs_end(s, n as int));
                } else if j < n {
                    assert(seg_area(s[j]).end_vpn <= segs_end(s, n as int));
                }
            }
        }
        let ghost mem0 = *mem;
        let mut ms = match MemorySet::from_areas(&areas, mem, owner) {
            Some(ms) => ms,
            None => { return None; },
        };
        let mut k: usize = 0;
        while k < n
            invariant
                k <= n,
                n == img.segments@.len(),
                image_fits(*img),
                ms.wf_in(&*mem),
                ms.owner() == owner,
                ms.area_seq() == image_areas(*img),
                mem.frame_count() == mem0.frame_count(),
                forall|q: usize| q < mem0.frame_count() && mem0.owner(q) != FRAME_FREE ==> #[trigger] mem.owner(q) == mem0.owner(q),
                forall|q: usize| q < mem0.frame_count() && mem0.owner(q) != FRAME_FREE && mem0.owner(q) != owner ==> #[trigger] mem.page(q) == mem0.page(q),
                forall|kk: int, i: int| 0 <= kk < k && 0 <= i < img.segments@[kk].data@.len()
                    ==> #[trigger] ms.user_byte(&*mem, (img.segments@[kk].start_va + i) as usize)
                        == Some(#[trigger] img.segments@[kk].data@[i]),
            decreases n - k,
        {
            let sg = &img.segments[k];
            let ghost mem_pre = *mem;
            proof {
                let s = img.segments@;
                assert(ms.area_seq()[k as int] == seg_area(s[k as int]));
                assert forall|i: int| 0 <= i < sg.data@.len() implies #[trigger] ms.user_byte_covered((sg.start_va + i) as usize) by {
                    lemma_page_range(sg.start_va, sg.start_va + i, sg.end_va);
                    assert(covers(ms.area_seq()[k as int], ((sg.start_va + i) as usize / PAGE_SIZE) as usize));
                }
            }
            let ok = ms.write_user_bytes(mem, sg.start_va, &sg.data);
            assert(ok);
            proof {
                let s = img.segments@;
                assert forall|kk: int, i: int| 0 <= kk < k + 1 && 0 <= i < s[kk].data@.len()
                    implies #[trigger] ms.user_byte(&*mem, (s[kk].start_va + i) as usize) == Some(#[trigger] s[kk].data@[i]) by {
                    if kk < k {
                        let x = (s[kk].start_va + i) as usize;
                        if sg.start_va <= x < sg.start_va + sg.data@.len() {
                            lemma_page_range(s[kk].start_va, x as int, s[kk].end_va);
                            lemma_page_range(sg.start_va, x as int, sg.end_va);
                            assert(disjoint(seg_area(s[kk]), seg_area(s[k as int])));
                        }
                    }
                }
            }
            k += 1;
        }
        Some((ms, (bottom + USER_STACK_PAGES) * PAGE_SIZE, img.entry))
    }

    /// Removes area `i`: its leaves go and its frames return to `mem`.
    #[verifier::spinoff_prover]
    fn remove_area_at(&mut self, mem: &mut PhysMemory, i: usize)
        requires
            old(self).wf_in(&*old(mem)),
            i < old(self).area_seq().len(),
        ensures
            final(self).wf_in(&*final(mem)),
            final(self).owner() == old(self).owner(),
            final(self).root() == old(self).root(),
            final(self).area_seq() == old(self).area_seq().remove(i as int),
            final(mem).frame_count() == old(mem).frame_count(),
            forall|v: usize| #[trigger] final(self).mapping().contains_key(v)
                == (old(self).mapping().contains_key(v) && !covers(old(self).area_seq()[i as int], v)),
            forall|v: usize| #[trigger] final(self).mapping().contains_key(v) ==> final(self).mapping()[v] == old(self).mapping()[v],
            forall|q: usize| q < old(mem).frame_count() && old(mem).owner(q) != old(self).owner() ==> #[trigger] final(mem).owner(q) == old(mem).owner(q),
            forall|q: usize| #[trigger] final(mem).page(q) == old(mem).page(q),
            forall|v: usize| covers(old(self).area_seq()[i as int], v) ==> #[trigger] final(mem).free().contains(old(self).mapping()[v].ppn),
            forall|q: usize| #[trigger] old(mem).free().contains(q) ==> final(mem).free().contains(q),
    {
        let a = self.areas[i];
        let owner = self.page_table_owner();
        let ghost old_self = *self;
        let ghost old_mem = *mem;
        let mut v: usize = a.start_vpn;
        proof {
            assert(self.area_seq()[i as int] == a);
            assert(a.start_vpn < a.end_vpn && a.end_vpn <= TRAMPOLINE_VPN);
        }
        while v < a.end_vpn
            invariant
                old_self.wf_in(&old_mem),
                i < old_self.area_seq().len(),
                a == old_self.area_seq()[i as int],
                a.start_vpn <= v <= a.end_vpn,
                a.end_vpn <= TRAMPOLINE_VPN,
                owner == old_self.owner(),
                owner != FRAME_FREE,
                self.page_table_wf(),
                self.owner() == owner,
                self.root() == old_self.root(),
                self.area_seq() == old_self.area_seq(),
                mem.wf(),
                mem.frame_count() == old_mem.frame_count(),
                forall|w: usize| #[trigger] self.mapping().contains_key(w)
                    == (old_self.mapping().contains_key(w) && !(a.start_vpn <= w < v)),
                forall|w: usize| #[trigger] self.mapping().contains_key(w) ==> self.mapping()[w] == old_self.mapping()[w],
                forall|q: usize| q < old_mem.frame_count() && old_mem.owner(q) != owner ==> #[trigger] mem.owner(q) == old_mem.owner(q),
                forall|w: usize| #[trigger] old_self.covered(w) && !(a.start_vpn <= w < v) ==> mem.owner(old_self.mapping()[w].ppn) == owner,
                forall|q: usize| #[trigger] mem.page(q) == old_mem.page(q),
                forall|w: usize| a.start_vpn <= w < v ==> #[trigger] mem.free().contains(old_self.mapping()[w].ppn),
                forall|q: usize| #[trigger] old_mem.free().contains(q) ==> mem.free().contains(q),
            decreases a.end_vpn - v,
        {
            proof {
                assert(covers(old_self.area_seq()[i as int], v));
                assert(old_self.covered(v));
                assert(old_self.mapping().contains_key(v));
                assert(self.mapping().contains_key(v));
            }
            let ghost map_pre = self.mapping();
            let e = match self.page_table.unmap(v) {
                Ok(e) => e,
                Err(_) => { proof { assert(false); } return; },
            };
            let ghost mem_pre = *mem;
            let freed = mem.frame_dealloc(e.ppn, owner);
            let ghost v0 = v;
            v += 1;
            proof {
                assert(old_self.mapping()[v0].ppn < old_mem.frame_count());
                assert(freed);
                assert forall|w: usize| a.start_vpn <= w < v implies #[trigger] mem.free().contains(old_self.mapping()[w].ppn) by {
                    if w != v0 {
                        assert(mem_pre.free().contains(old_self.mapping()[w].ppn));
                    }
                }
                assert forall|w: usize| #[trigger] self.mapping().contains_key(w)
                    == (old_self.mapping().contains_key(w) && !(a.start_vpn <= w < v)) by {
                    assert(map_pre.contains_key(w) == (old_self.mapping().contains_key(w) && !(a.start_vpn <= w < v0)));
                }
                assert forall|w: usize| #[trigger] self.mapping().contains_key(w) implies self.mapping()[w] == old_self.mapping()[w] by {
                    assert(map_pre.contains_key(w));
                }
                assert forall|w: usize| #[trigger] old_self.covered(w) && !(a.start_vpn <= w < v)
                    implies mem.owner(old_self.mapping()[w].ppn) == owner by {
                    assert(old_self.mapping()[w].ppn != old_self.mapping()[v0].ppn);
                }
            }
        }
        let ghost loop_map = self.mapping();
        assert(forall|w: usize| #[trigger] loop_map.contains_key(w)
            == (old_self.mapping().contains_key(w) && !(a.start_vpn <= w < a.end_vpn)));
        assert(forall|w: usize| #[trigger] loop_map.contains_key(w) ==> loop_map[w] == old_self.mapping()[w]);
        self.areas.remove(i);
        assert(self.mapping() == loop_map);
        proof {
            let na = self.area_seq();
            assert(na == old_self.area_seq().remove(i as int));
            assert forall|w: usize| self.covered(w) <==> (old_self.covered(w) && !covers(a, w)) by {
                if self.covered(w) {
                    let k = choose|k: int| 0 <= k < na.len() && covers(#[trigger] na[k], w);
                    let ok = if k < i { k } else { k + 1 };
                    assert(na[k] == old_self.area_seq()[ok]);
                    assert(disjoint(old_self.area_seq()[ok], a));
                }
                if old_self.covered(w) && !covers(a, w) {
                    let k = choose|k: int| 0 <= k < old_self.area_seq().len() && covers(#[trigger] old_self.area_seq()[k], w);
                    assert(k != i);
                    let nk = if k < i { k } else { k - 1 };
                    assert(na[nk] == old_self.area_seq()[k]);
                }
            }
            assert forall|w: usize| #[trigger] self.mapping().contains_key(w) <==> (w == TRAMPOLINE_VPN || self.covered(w)) by {
                assert(self.mapping().contains_key(w) == (old_self.mapping().contains_key(w) && !(a.start_vpn <= w < a.end_vpn)));
                assert(old_self.mapping().contains_key(w) <==> (w == TRAMPOLINE_VPN || old_self.covered(w)));
                if w == TRAMPOLINE_VPN {
                    if covers(a, w) {
                        assert(a.end_vpn <= TRAMPOLINE_VPN);
                    }
                }
            }
            assert(!covers(a, TRAMPOLINE_VPN));
            assert(self.mapping().contains_key(TRAMPOLINE_VPN));
            assert forall|k: int, w: usize| 0 <= k < na.len() && covers(#[trigger] na[k], w) implies {
                &&& (#[trigger] self.mapping()[w]).flags == na[k].perm | PTE_V
                &&& self.mapping()[w].ppn < mem.frame_count()
                &&& mem.owner(self.mapping()[w].ppn) == self.owner()
            } by {
                let ok = if k < i { k } else { k + 1 };
                assert(na[k] == old_self.area_seq()[ok]);
                assert(disjoint(old_self.area_seq()[ok], a));
                assert(old_self.covered(w));
                assert(self.covered(w));
                assert(old_self.mapping().contains_key(w));
                assert(self.mapping().contains_key(w) == (old_self.mapping().contains_key(w) && !(a.start_vpn <= w < a.end_vpn)));
                assert(self.mapping()[w] == old_self.mapping()[w]);
                assert(old_self.mapping()[w].flags == old_self.area_seq()[ok].perm | PTE_V);
            }
            assert forall|v1: usize, w: usize| #[trigger] self.covered(v1) && #[trigger] self.covered(w) && v1 != w
                implies self.mapping()[v1].ppn != self.mapping()[w].ppn by {
                assert(old_self.covered(v1) && old_self.covered(w));
                assert(self.mapping().contains_key(v1) == (old_self.mapping().contains_key(v1) && !(a.start_vpn <= v1 < a.end_vpn)));
                assert(self.mapping().contains_key(w) == (old_self.mapping().contains_key(w) && !(a.start_vpn <= w < a.end_vpn)));
                assert(old_self.mapping().contains_key(v1) && old_self.mapping().contains_key(w));
            }
            assert forall|k: int| 0 <= k < na.len() implies {
                &&& (#[trigger] na[k]).start_vpn < na[k].end_vpn
                &&& na[k].end_vpn <= TRAMPOLINE_VPN
            } by {
                let ok = if k < i { k } else { k + 1 };
                assert(na[k] == old_self.area_seq()[ok]);
            }
            assert forall|k: int, l: int| 0 <= k < na.len() && 0 <= l < na.len() && k != l
                implies disjoint(#[trigger] na[k], #[trigger] na[l]) by {
                let ok = if k < i { k } else { k + 1 };
                let ol = if l < i { l } else { l + 1 };
                assert(na[k] == old_self.area_seq()[ok]);
                assert(na[l] == old_self.area_seq()[ol]);
            }
        }
    }

    /// Removes the area that starts at page `start_vpn`, returning its
    /// frames to `mem`; reports whether there was one.
    pub fn remove_area(&mut self, mem: &mut PhysMemory, start_vpn: usize) -> (r: bool)
        requires
            old(self).wf_in(&*old(mem)),
        ensures
            final(self).wf_in(&*final(mem)),
            final(self).owner() == old(self).owner(),
            final(self).root() == old(self).root(),
            final(mem).frame_count() == old(mem).frame_count(),
            r == exists|i: int| 0 <= i < old(self).area_seq().len() && (#[trigger] old(self).area_seq()[i]).start_vpn == start_vpn,
            !r ==> *final(self) == *old(self) && *final(mem) == *old(mem),
            r ==> exists|i: int| 0 <= i < old(self).area_seq().len() && (#[trigger] old(self).area_seq()[i]).start_vpn == start_vpn
                && final(self).area_seq() == old(self).area_seq().remove(i)
                && forall|v: usize| #[trigger] final(self).mapping().contains_key(v)
                    == (old(self).mapping().contains_key(v) && !covers(old(self).area_seq()[i], v)),
            forall|v: usize| #[trigger] final(self).mapping().contains_key(v) ==> final(self).mapping()[v] == old(self).mapping()[v],
            forall|q: usize| q < old(mem).frame_count() && old(mem).owner(q) != old(self).owner() ==> #[trigger] final(mem).owner(q) == old(mem).owner(q),
            forall|q: usize| #[trigger] final(mem).page(q) == old(mem).page(q),
    {
        let mut i: usize = 0;
        while i < self.areas.len()
            invariant
                i <= self.area_seq().len(),
                *self == *old(self),
                *mem == *old(mem),
                self.wf_in(&*mem),
                forall|k: int| 0 <= k < i ==> (#[trigger] self.area_seq()[k]).start_vpn != start_vpn,
            decreases self.area_seq().len() - i,
        {
            if self.areas[i].start_vpn == start_vpn {
                self.remove_area_at(mem, i);
                return true;
            }
            i += 1;
        }
        false
    }

    /// Removes every area, returning their frames to `mem`; only the
    /// trampoline page stays mapped.
    pub fn recycle_data_pages(&mut self, mem: &mut PhysMemory)
        requires
            old(self).wf_in(&*old(mem)),
        ensures
            final(self).wf_in(&*final(mem)),
            final(self).owner() == old(self).owner(),
            final(self).root() == old(self).root(),
            final(self).area_seq() == Seq::<MapArea>::empty(),
            final(mem).frame_count() == old(mem).frame_count(),
            forall|v: usize| #[trigger] old(self).covered(v) ==> final(mem).free().contains(old(self).mapping()[v].ppn),
            forall|q: usize| q < old(mem).frame_count() && old(mem).owner(q) != old(self).owner() ==> #[trigger] final(mem).owner(q) == old(mem).owner(q),
            forall|q: usize| #[trigger] final(mem).page(q) == old(mem).page(q),
    {
        let ghost owner = self.owner();
        let ghost mem0 = *mem;
        while self.areas.len() > 0
            invariant
                self.wf_in(&*mem),
                self.owner() == owner,
                self.root() == old(self).root(),
                mem.frame_count() == mem0.frame_count(),
                mem0 == *old(mem),
                forall|q: usize| q < mem0.frame_count() && mem0.owner(q) != owner ==> #[trigger] mem.owner(q) == mem0.owner(q),
                forall|q: usize| #[trigger] mem.page(q) == mem0.page(q),
                self.area_seq().len() <= old(self).area_seq().len(),
                self.area_seq() == old(self).area_seq().take(self.area_seq().len() as int),
                forall|v: usize| #[trigger] self.mapping().contains_key(v) && self.covered(v) ==> self.mapping()[v] == old(self).mapping()[v],
                forall|v: usize| #[trigger] old(self).covered(v) && !self.covered(v) ==> mem.free().contains(old(self).mapping()[v].ppn),
            decreases self.area_seq().len(),
        {
            let last = self.areas.len() - 1;
            let ghost sb = *self;
            let ghost mb = *mem;
            self.remove_area_at(mem, last);
            proof {
                assert(self.area_seq() =~= sb.area_seq().take(last as int));
                assert forall|j: int| 0 <= j < last implies sb.area_seq()[j] == old(self).area_seq()[j] by {
                    assert(sb.area_seq()[j] == old(self).area_seq().take(sb.area_seq().len() as int)[j]);
                }
                assert(sb.area_seq().take(last as int) =~= old(self).area_seq().take(last as int));
                assert forall|v: usize| #[trigger] self.covered(v) implies sb.covered(v) && !covers(sb.area_seq()[last as int], v) by {
                    let k = choose|k: int| 0 <= k < self.area_seq().len() && covers(#[trigger] self.area_seq()[k], v);
                    assert(self.area_seq()[k] == sb.area_seq()[k]);
                    assert(disjoint(sb.area_seq()[k], sb.area_seq()[last as int]));
                }
                assert forall|v: usize| #[trigger] self.mapping().contains_key(v) && self.covered(v) implies self.mapping()[v] == old(self).mapping()[v] by {
                    assert(sb.mapping().contains_key(v));
                }
                assert forall|v: usize| #[trigger] old(self).covered(v) && !self.covered(v) implies mem.free().contains(old(self).mapping()[v].ppn) by {
                    if sb.covered(v) {
                        let k = choose|k: int| 0 <= k < sb.area_seq().len() && covers(#[trigger] sb.area_seq()[k], v);
                        if k == last {
                            assert(sb.mapping().contains_key(v));
                            assert(sb.mapping()[v] == old(self).mapping()[v]);
                        } else {
                            assert(self.area_seq()[k] == sb.area_seq()[k]);
                            assert(self.covered(v));
                        }
                    } else {
                        assert(mb.free().contains(old(self).mapping()[v].ppn));
                    }
                }
            }
        }
        proof {
            assert forall|v: usize| #[trigger] old(self).covered(v) implies mem.free().contains(old(self).mapping()[v].ppn) by {
                if self.covered(v) {
                    let k = choose|k: int| 0 <= k < self.area_seq().len() && covers(#[trigger] self.area_seq()[k], v);
                }
            }
        }
    }

    /// Maps page `vpn`, which has no leaf, to a fresh zeroed frame tagged
    /// with the space's owner.
    fn map_fresh_page(&mut self, mem: &mut PhysMemory, vpn: usize, perm: u8) -> (ppn: usize)
        requires
            old(self).page_table_wf(),
            old(mem).wf(),
            vpn < VPN_LIMIT,
            !old(self).mapping().contains_key(vpn),
            old(mem).free_count() >= 3,
        ensures
            final(self).page_table_wf(),
            final(self).owner() == old(self).owner(),
            final(self).root() == old(self).root(),
            final(self).area_seq() == old(self).area_seq(),
            final(self).mapping() == old(self).mapping().insert(vpn, (PageTableEntry { ppn, flags: perm | PTE_V })),
            final(mem).wf(),
            final(mem).frame_count() == old(mem).frame_count(),
            final(mem).free_count() + 3 >= old(mem).free_count(),
            ppn < old(mem).frame_count(),
            old(mem).owner(ppn) == FRAME_FREE,
            old(mem).free().contains(ppn),
            final(mem).owner(ppn) == old(self).owner(),
            final(mem).page(ppn) == zero_page(),
            forall|q: usize| q < old(mem).frame_count() && old(mem).owner(q) != FRAME_FREE ==> #[trigger] final(mem).owner(q) == old(mem).owner(q),
            forall|q: usize| q < old(mem).frame_count() && old(mem).owner(q) != FRAME_FREE ==> #[trigger] final(mem).page(q) == old(mem).page(q),
            forall|q: usize| q < old(mem).frame_count() && old(mem).owner(q) == FRAME_FREE && final(mem).owner(q) != FRAME_FREE
                ==> #[trigger] final(mem).owner(q) == old(self).owner(),
            forall|q: usize| q < old(mem).frame_count() && old(mem).owner(q) == FRAME_FREE
                ==> (#[trigger] final(mem).free().contains(q) <==> final(mem).owner(q) == FRAME_FREE),
    {
        let owner = self.page_table_owner();
        proof { old(mem).lemma_free_count(); }
        let ppn = match mem.frame_alloc(owner) {
            Some(p) => p,
            None => { proof { assert(false); } 0 },
        };
        let ghost mem_alloc = *mem;
        proof { mem_alloc.lemma_free_count(); }
        let res = self.page_table.map(mem, vpn, ppn, perm);
        assert(res is Ok) by {
            assert(self.page_table.missing_dirs(vpn) <= 2);
        }
        proof {
            mem.lemma_free_count();
        }
        ppn
    }

    /// The tag of the space's frames.
    pub fn page_table_owner_tag(&self) -> (r: usize)
        ensures
            r == self.owner(),
    {
        self.page_table.owner_of_unchecked()
    }

    fn page_table_owner(&self) -> (r: usize)
        requires
            self.page_table_wf(),
        ensures
            r == self.owner(),
            r != FRAME_FREE,
    {
        self.page_table.owner_of()
    }
}

} // verus!
