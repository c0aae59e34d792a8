use vstd::prelude::*;
use vstd::slice::slice_subrange;
use std::collections::BTreeMap;
use crate::address::{
    ceil_spec, floor_spec, PhysPageNum, VPNRange, VirtAddr, VirtPageNum, VPN_LIMIT,
};
use crate::config::{PAGE_SIZE, TRAMPOLINE, TRAP_CONTEXT, USER_STACK_SIZE};
use crate::frame_allocator::{frame_alloc, frame_dealloc, zero_page, FrameTracker, StackFrameAllocator};
use crate::page_table::{pte_of, PTEFlags, PageTable, PageTableEntry, PTE_R, PTE_V, PTE_X, SATP_SV39};
use crate::address::{PhysAddr, PPN_LIMIT, VA_LIMIT};

verus! {

/// Permission bit of a segment: readable.
pub const MAP_PERM_R: u8 = 2;

/// Permission bit of a segment: writable.
pub const MAP_PERM_W: u8 = 4;

/// Permission bit of a segment: executable.
pub const MAP_PERM_X: u8 = 8;

/// Permission bit of a segment: reachable from user mode.
pub const MAP_PERM_U: u8 = 16;

/// How the pages of a segment find their frames.
#[derive(Clone, Copy, Debug, PartialEq, Eq, Structural)]
pub enum MapType {
    /// Each page is the frame with the same number; for kernel regions.
    Identical,
    /// Each page gets a fresh frame of its own.
    Framed,
}

/// The permissions of a segment, with the bits of page-table entry flags.
#[derive(Clone, Copy, Debug, PartialEq, Eq, Structural)]
pub struct MapPermission {
    pub bits: u8,
}

impl MapPermission {
    pub fn from_bits(bits: u8) -> (r: MapPermission)
        ensures
            r.bits == bits,
    {
        MapPermission { bits }
    }

    /// The permissions of both.
    pub fn union(self, other: MapPermission) -> (r: MapPermission)
        ensures
            r.bits == self.bits | other.bits,
    {
        MapPermission { bits: self.bits | other.bits }
    }
}

/// A logical segment: a range of virtual pages with one mapping mode and
/// one set of permissions, owning the frames of its framed pages.
pub struct MapArea {
    vpn_range: VPNRange,
    data_frames: BTreeMap<u64, FrameTracker>,
    map_type: MapType,
    map_perm: MapPermission,
}

impl MapArea {
    pub closed spec fn start(&self) -> u64 {
        self.vpn_range.start().0
    }

    pub closed spec fn end(&self) -> u64 {
        self.vpn_range.end().0
    }

    /// The frames of the framed pages, by page number.
    pub closed spec fn frames(&self) -> Map<u64, FrameTracker> {
        self.data_frames@
    }

    pub closed spec fn kind(&self) -> MapType {
        self.map_type
    }

    pub closed spec fn perm(&self) -> u8 {
        self.map_perm.bits
    }

    /// The frame that page `v` of this segment is mapped to.
    pub open spec fn ppn_for(&self, v: u64) -> u64 {
        if self.kind() == MapType::Identical {
            v
        } else {
            self.frames()[v].ppn.0
        }
    }

    /// The leaf entry of page `v` of this segment.
    pub open spec fn pte_at(&self, v: u64) -> PageTableEntry {
        pte_of(self.ppn_for(v), self.perm() | PTE_V)
    }

    /// Every page in `[lo, hi)` is mapped in `view` as this segment says, and
    /// a framed one holds a whole frame.
    pub open spec fn covers(&self, view: Map<u64, PageTableEntry>, lo: int, hi: int) -> bool {
        forall|v: u64| lo <= v < hi ==> #[trigger] self.page_mapped(view, v)
    }

    /// Page `v` is mapped in `view` as this segment says, and holds a whole
    /// frame when framed.
    pub open spec fn page_mapped(&self, view: Map<u64, PageTableEntry>, v: u64) -> bool {
        &&& view.contains_key(v)
        &&& view[v] == self.pte_at(v)
        &&& self.kind() == MapType::Framed ==> self.frames().contains_key(v)
            && self.frames()[v].bytes@.len() == PAGE_SIZE
    }

    /// Page `v` holds a frame that was not handed out in `before` and is
    /// handed out in `after`.
    pub open spec fn frame_fresh(&self, v: u64, before: Set<u64>, after: Set<u64>) -> bool {
        &&& self.frames().contains_key(v)
        &&& !before.contains(self.frames()[v].ppn.0)
        &&& after.contains(self.frames()[v].ppn.0)
    }

    /// Every page in `[lo, hi)` holds a frame of zero bytes.
    pub open spec fn zero_frames(&self, lo: int, hi: int) -> bool {
        forall|v: u64| lo <= v < hi ==> #[trigger] self.frames().contains_key(v) && self.frames()[v].bytes@ == zero_page()
    }

    /// Every page in `[lo, hi)` holds such a frame.
    pub open spec fn fresh_frames(&self, lo: int, hi: int, before: Set<u64>, after: Set<u64>) -> bool {
        forall|v: u64| lo <= v < hi ==> #[trigger] self.frame_fresh(v, before, after)
    }

    /// Every page of the range holds a whole frame.
    pub open spec fn has_whole_frames(&self) -> bool {
        forall|v: u64| self.start() <= v < self.end() ==> #[trigger] self.frames().contains_key(v)
            && self.frames()[v].bytes@.len() == PAGE_SIZE
    }

    /// The range is ordered and lies below the SV39 limit.
    pub open spec fn wf(&self) -> bool {
        self.start() <= self.end() <= VPN_LIMIT
    }

    /// The segment from the page of `start_va` up to the first page boundary
    /// at or after `end_va`, with no frames yet.
    pub fn new(start_va: VirtAddr, end_va: VirtAddr, map_type: MapType, map_perm: MapPermission) -> (r: Self)
        ensures
            r.start() == floor_spec(start_va.0),
            r.end() == ceil_spec(end_va.0),
            r.kind() == map_type,
            r.perm() == map_perm.bits,
            r.frames() == Map::<u64, FrameTracker>::empty(),
    {
        let start_vpn = start_va.floor();
        let end_vpn = end_va.ceil();
        MapArea {
            vpn_range: VPNRange::new(start_vpn, end_vpn),
            data_frames: BTreeMap::new(),
            map_type,
            map_perm,
        }
    }

    pub fn get_start(&self) -> (r: VirtPageNum)
        ensures
            r.0 == self.start(),
    {
        self.vpn_range.get_start()
    }

    pub fn get_end(&self) -> (r: VirtPageNum)
        ensures
            r.0 == self.end(),
    {
        self.vpn_range.get_end()
    }

    /// Maps page `vpn` into `page_table`, with a fresh frame when framed.
    /// Returns `false`, with table and segment unchanged, when the page is
    /// mapped already or no frame is free for it.
    pub fn map_one(
        &mut self,
        page_table: &mut PageTable,
        allocator: &mut StackFrameAllocator,
        vpn: VirtPageNum,
    ) -> (r: bool)
        requires
            old(page_table).fits_in(old(allocator)),
            vpn.0 < VPN_LIMIT,
        ensures
            final(page_table).fits_in(final(allocator)),
            final(allocator).end() == old(allocator).end(),
            final(page_table).root() == old(page_table).root(),
            final(self).start() == old(self).start(),
            final(self).end() == old(self).end(),
            final(self).kind() == old(self).kind(),
            final(self).perm() == old(self).perm(),
            r ==> !old(page_table)@.contains_key(vpn.0),
            final(allocator).free_count() >= old(allocator).free_count() - 3,
            !old(page_table)@.contains_key(vpn.0) && old(allocator).free_count() >= 3
                && old(page_table).node_frames().subset_of(old(allocator).allocated()) ==> r,
            old(page_table).node_frames().subset_of(old(allocator).allocated()) ==> final(page_table).node_frames().subset_of(
                final(allocator).allocated(),
            ),
            r ==> final(page_table)@ == old(page_table)@.insert(vpn.0, final(self).pte_at(vpn.0)),
            !r ==> final(page_table)@ == old(page_table)@,
            !r || old(self).kind() == MapType::Identical ==> final(self).frames() == old(self).frames(),
            r && old(self).kind() == MapType::Framed ==> final(self).frames().remove(vpn.0)
                == old(self).frames().remove(vpn.0) && final(self).frames().contains_key(vpn.0)
                && final(self).frames()[vpn.0].bytes@ == zero_page()
                && !old(allocator).allocated().contains(final(self).frames()[vpn.0].ppn.0)
                && final(allocator).allocated().contains(final(self).frames()[vpn.0].ppn.0),
            r ==> old(allocator).allocated().subset_of(final(allocator).allocated()),
    {
        if page_table.translate(vpn).is_some() {
            return false;
        }
        let flags = PTEFlags::from_bits(self.map_perm.bits);
        match self.map_type {
            MapType::Identical => {
                page_table.map(allocator, vpn, PhysPageNum(vpn.0), flags)
            },
            MapType::Framed => {
                match frame_alloc(allocator) {
                    None => false,
                    Some(frame) => {
                        let ppn = frame.ppn;
                        if page_table.holds_node(ppn.0) {
                            return false;
                        }
                        proof {
                            assert(allocator.allocated().contains(ppn.0));
                        }
                        if page_table.map(allocator, vpn, ppn, flags) {
                            self.data_frames.insert(vpn.0, frame);
                            proof {
                                assert(self.frames().remove(vpn.0) =~= old(self).frames().remove(
                                    vpn.0,
                                ));
                            }
                            true
                        } else {
                            if !page_table.holds_node(ppn.0) {
                                frame_dealloc(allocator, ppn);
                            }
                            false
                        }
                    },
                }
            },
        }
    }

    /// Unmaps page `vpn` from `page_table`, and, when framed, forgets its
    /// frame and gives it back. Returns whether the page was mapped; when it
    /// was not, the table is unchanged.
    pub fn unmap_one(
        &mut self,
        page_table: &mut PageTable,
        allocator: &mut StackFrameAllocator,
        vpn: VirtPageNum,
    ) -> (r: bool)
        requires
            old(page_table).fits_in(old(allocator)),
            vpn.0 < VPN_LIMIT,
        ensures
            final(page_table).fits_in(final(allocator)),
            final(allocator).end() == old(allocator).end(),
            final(page_table).root() == old(page_table).root(),
            final(self).start() == old(self).start(),
            final(self).end() == old(self).end(),
            final(self).kind() == old(self).kind(),
            final(self).perm() == old(self).perm(),
            r == old(page_table)@.contains_key(vpn.0),
            r ==> final(page_table)@ == old(page_table)@.remove(vpn.0),
            !r ==> final(page_table)@ == old(page_table)@,
            old(self).kind() == MapType::Framed ==> final(self).frames() == old(self).frames().remove(vpn.0),
            old(self).kind() == MapType::Identical ==> final(self).frames() == old(self).frames(),
            final(allocator).allocated().subset_of(old(allocator).allocated()),
            final(page_table).node_frames() == old(page_table).node_frames(),
            old(self).kind() == MapType::Framed && old(self).frames().contains_key(vpn.0)
                && !old(page_table).node_frames().contains(old(self).frames()[vpn.0].ppn.0)
                ==> !final(allocator).allocated().contains(old(self).frames()[vpn.0].ppn.0),
    {
        if self.map_type == MapType::Framed {
            if let Some(frame) = self.data_frames.remove(&vpn.0) {
                // a frame the allocator holds free already is never listed twice
                if !page_table.holds_node(frame.ppn.0) && allocator.is_allocated(frame.ppn) {
                    frame_dealloc(allocator, frame.ppn);
                }
            }
        }
        if page_table.translate(vpn).is_none() {
            return false;
        }
        page_table.unmap(vpn);
        true
    }

    /// Maps every page of the segment. Returns `false` when a page of the
    /// range was mapped already or frames ran out; pages before it stay
    /// mapped.
    pub fn map(&mut self, page_table: &mut PageTable, allocator: &mut StackFrameAllocator) -> (r: bool)
        requires
            old(page_table).fits_in(old(allocator)),
            old(self).wf(),
        ensures
            final(page_table).fits_in(final(allocator)),
            final(allocator).end() == old(allocator).end(),
            final(page_table).root() == old(page_table).root(),
            final(self).start() == old(self).start(),
            final(self).end() == old(self).end(),
            final(self).kind() == old(self).kind(),
            final(self).perm() == old(self).perm(),
            r ==> final(self).covers(final(page_table)@, old(self).start() as int, old(self).end() as int),
            r ==> forall|v: u64|
                old(self).start() <= v < old(self).end() ==> !#[trigger] old(page_table)@.contains_key(v),
            r ==> same_outside(final(page_table)@, old(page_table)@, old(self).start() as int, old(self).end() as int),
            (forall|v: u64| old(self).start() <= v < old(self).end() ==> !#[trigger] old(page_table)@.contains_key(v))
                && old(allocator).free_count() >= 3 * (old(self).end() - old(self).start())
                && old(page_table).node_frames().subset_of(old(allocator).allocated()) ==> r,
            r ==> old(allocator).allocated().subset_of(final(allocator).allocated()),
            final(allocator).free_count() >= old(allocator).free_count() - 3 * (old(self).end() - old(self).start()),
            old(page_table).node_frames().subset_of(old(allocator).allocated()) ==> final(page_table).node_frames().subset_of(final(allocator).allocated()),
            r && old(self).kind() == MapType::Framed ==> final(self).fresh_frames(
                old(self).start() as int,
                old(self).end() as int,
                old(allocator).allocated(),
                final(allocator).allocated(),
            ),
            r && old(self).kind() == MapType::Framed ==> final(self).zero_frames(old(self).start() as int, old(self).end() as int),
    {
        let end = self.vpn_range.get_end();
        let start = self.vpn_range.get_start();
        self.map_range(page_table, allocator, start, end)
    }

    /// Maps the pages `[from, to)` of the segment.
    fn map_range(
        &mut self,
        page_table: &mut PageTable,
        allocator: &mut StackFrameAllocator,
        from: VirtPageNum,
        to: VirtPageNum,
    ) -> (r: bool)
        requires
            old(page_table).fits_in(old(allocator)),
            from.0 <= to.0 <= VPN_LIMIT,
        ensures
            final(page_table).fits_in(final(allocator)),
            final(allocator).end() == old(allocator).end(),
            final(page_table).root() == old(page_table).root(),
            final(self).start() == old(self).start(),
            final(self).end() == old(self).end(),
            final(self).kind() == old(self).kind(),
            final(self).perm() == old(self).perm(),
            r ==> final(self).covers(final(page_table)@, from.0 as int, to.0 as int),
            r ==> forall|v: u64|
                from.0 <= v < to.0 ==> !#[trigger] old(page_table)@.contains_key(v),
            r ==> same_outside(final(page_table)@, old(page_table)@, from.0 as int, to.0 as int),
            (forall|v: u64| from.0 <= v < to.0 ==> !#[trigger] old(page_table)@.contains_key(v))
                && old(allocator).free_count() >= 3 * (to.0 - from.0)
                && old(page_table).node_frames().subset_of(old(allocator).allocated()) ==> r,
            r ==> old(allocator).allocated().subset_of(final(allocator).allocated()),
            final(allocator).free_count() >= old(allocator).free_count() - 3 * (to.0 - from.0),
            old(page_table).node_frames().subset_of(old(allocator).allocated()) ==> final(page_table).node_frames().subset_of(final(allocator).allocated()),
            r && old(self).kind() == MapType::Framed ==> final(self).fresh_frames(
                from.0 as int,
                to.0 as int,
                old(allocator).allocated(),
                final(allocator).allocated(),
            ),
            r && old(self).kind() == MapType::Framed ==> final(self).zero_frames(from.0 as int, to.0 as int),
    {
        let ghost fresh = (forall|v: u64| from.0 <= v < to.0 ==> !#[trigger] old(page_table)@.contains_key(v))
            && old(allocator).free_count() >= 3 * (to.0 - from.0)
            && old(page_table).node_frames().subset_of(old(allocator).allocated());
        let mut v = from;
        let mut ok = true;
        while ok && v.0 < to.0
            invariant
                page_table.fits_in(allocator),
                allocator.end() == old(allocator).end(),
                page_table.root() == old(page_table).root(),
                from.0 <= v.0 <= to.0 <= VPN_LIMIT,
                fresh == ((forall|u: u64| from.0 <= u < to.0 ==> !#[trigger] old(page_table)@.contains_key(u))
                    && old(allocator).free_count() >= 3 * (to.0 - from.0)
                    && old(page_table).node_frames().subset_of(old(allocator).allocated())),
                fresh ==> ok && allocator.free_count() >= old(allocator).free_count() - 3 * (v.0 - from.0)
                    && page_table.node_frames().subset_of(allocator.allocated()),
                ok ==> old(allocator).allocated().subset_of(allocator.allocated()),
                ok ==> allocator.free_count() >= old(allocator).free_count() - 3 * (v.0 - from.0),
                !ok ==> v.0 < to.0 && allocator.free_count() >= old(allocator).free_count() - 3 * (v.0 + 1 - from.0),
                old(page_table).node_frames().subset_of(old(allocator).allocated()) ==> page_table.node_frames().subset_of(allocator.allocated()),
                ok && self.kind() == MapType::Framed ==> self.zero_frames(from.0 as int, v.0 as int),
                ok && self.kind() == MapType::Framed ==> self.fresh_frames(
                    from.0 as int,
                    v.0 as int,
                    old(allocator).allocated(),
                    allocator.allocated(),
                ),
                self.start() == old(self).start(),
                self.end() == old(self).end(),
                self.kind() == old(self).kind(),
                self.perm() == old(self).perm(),
                ok ==> self.covers(page_table@, from.0 as int, v.0 as int),
                ok ==> forall|u: u64|
                    from.0 <= u < v.0 ==> !#[trigger] old(page_table)@.contains_key(u),
                ok ==> same_outside(page_table@, old(page_table)@, from.0 as int, v.0 as int),
            decreases to.0 - v.0, (if ok { 1int } else { 0int }),
        {
            let ghost view0 = page_table@;
            let ghost self0 = *self;
            let ghost alloc0 = allocator.allocated();
            let ghost free0 = allocator.free_count();
            proof {
                assert(same_entry(view0, old(page_table)@, v.0));
            }
            if self.map_one(page_table, allocator, v) {
                proof {
                    assert(allocator.free_count() >= free0 - 3);
                    assert(allocator.free_count() >= old(allocator).free_count() - 3 * (v.0 + 1 - from.0));
                }
                proof {
                    if self.kind() == MapType::Framed {
                        assert forall|u: u64| from.0 <= u < v.0 + 1 implies #[trigger] self.frames().contains_key(u)
                            && self.frames()[u].bytes@ == zero_page() by {
                            if u != v.0 {
                                assert(self0.frames().contains_key(u));
                                assert(self0.frames().remove(v.0).contains_key(u));
                                assert(self.frames().remove(v.0)[u] == self0.frames().remove(v.0)[u]);
                            }
                        };
                        assert forall|u: u64| from.0 <= u < v.0 + 1 implies #[trigger] self.frame_fresh(
                            u,
                            old(allocator).allocated(),
                            allocator.allocated(),
                        ) by {
                            if u != v.0 {
                                assert(self0.frame_fresh(u, old(allocator).allocated(), alloc0));
                                assert(self0.frames().remove(v.0).contains_key(u));
                                assert(self.frames().remove(v.0)[u] == self0.frames().remove(v.0)[u]);
                            }
                        };
                    }
                }
                proof {
                    lemma_covers_extend(self0, *self, view0, page_table@, from.0 as int, v.0);
                    assert(same_entry(view0, old(page_table)@, v.0));
                    assert forall|u: u64| from.0 <= u < v.0 + 1 implies !#[trigger] old(page_table)@.contains_key(u) by {};
                    assert forall|u: u64| u != v.0 implies #[trigger] same_entry(page_table@, view0, u) by {};
                    lemma_same_outside_step(view0, page_table@, old(page_table)@, from.0 as int, v.0);
                }
                v = VirtPageNum(v.0 + 1);
            } else {
                ok = false;
            }
        }
        ok
    }

    /// Gives back the frames of every framed page whose frame is not one of
    /// the table's nodes, and forgets them.
    pub fn release_frames(&mut self, page_table: &PageTable, allocator: &mut StackFrameAllocator)
        requires
            page_table.fits_in(old(allocator)),
            old(self).wf(),
        ensures
            page_table.fits_in(final(allocator)),
            final(allocator).end() == old(allocator).end(),
            final(allocator).free_count() >= old(allocator).free_count(),
            final(self).start() == old(self).start(),
            final(self).end() == old(self).end(),
            final(self).kind() == old(self).kind(),
            final(self).perm() == old(self).perm(),
            forall|v: u64| old(self).start() <= v < old(self).end() ==> !#[trigger] final(self).frames().contains_key(v),
            final(allocator).allocated().subset_of(old(allocator).allocated()),
            forall|v: u64|
                old(self).start() <= v < old(self).end() && old(self).frames().contains_key(v)
                    && !page_table.node_frames().contains(old(self).frames()[v].ppn.0)
                    ==> !#[trigger] final(allocator).allocated().contains(old(self).frames()[v].ppn.0),
            forall|p: u64|
                old(allocator).allocated().contains(p) && !#[trigger] final(allocator).allocated().contains(p) ==> exists|v: u64|
                    old(self).start() <= v < old(self).end() && #[trigger] old(self).frames().contains_key(v)
                        && old(self).frames()[v].ppn.0 == p,
    {
        let start = self.vpn_range.get_start().0;
        let end = self.vpn_range.get_end().0;
        let mut v: u64 = start;
        while v < end
            invariant
                page_table.fits_in(allocator),
                allocator.end() == old(allocator).end(),
                allocator.free_count() >= old(allocator).free_count(),
                start <= v <= end,
                start == old(self).start(),
                end == old(self).end(),
                self.start() == old(self).start(),
                self.end() == old(self).end(),
                self.kind() == old(self).kind(),
                self.perm() == old(self).perm(),
                forall|u: u64| start <= u < v ==> !#[trigger] self.frames().contains_key(u),
                forall|u: u64| !(start <= u < v) ==> (#[trigger] self.frames().contains_key(u)
                    == old(self).frames().contains_key(u) && (self.frames().contains_key(u) ==> self.frames()[u]
                    == old(self).frames()[u])),
                allocator.allocated().subset_of(old(allocator).allocated()),
                forall|u: u64|
                    start <= u < v && old(self).frames().contains_key(u)
                        && !page_table.node_frames().contains(old(self).frames()[u].ppn.0)
                        ==> !#[trigger] allocator.allocated().contains(old(self).frames()[u].ppn.0),
                forall|p: u64|
                    old(allocator).allocated().contains(p) && !#[trigger] allocator.allocated().contains(p) ==> exists|u: u64|
                        start <= u < v && #[trigger] old(self).frames().contains_key(u)
                            && old(self).frames()[u].ppn.0 == p,
            decreases end - v,
        {
            let ghost f0 = self.frames();
            let ghost a0 = allocator.allocated();
            if let Some(frame) = self.data_frames.remove(&v) {
                // a frame the allocator holds free already is never listed twice
                if !page_table.holds_node(frame.ppn.0) && allocator.is_allocated(frame.ppn) {
                    frame_dealloc(allocator, frame.ppn);
                }
            }
            proof {
                assert(self.frames() == f0.remove(v));
                assert forall|u: u64| start <= u < v + 1 implies !#[trigger] self.frames().contains_key(u) by {
                    if u != v {
                        assert(!f0.contains_key(u));
                    }
                };
                assert forall|u: u64| !(start <= u < v + 1) implies (#[trigger] self.frames().contains_key(u)
                    == old(self).frames().contains_key(u) && (self.frames().contains_key(u) ==> self.frames()[u]
                    == old(self).frames()[u])) by {
                    assert(f0.contains_key(u) == old(self).frames().contains_key(u));
                };
                assert forall|u: u64|
                    start <= u < v + 1 && old(self).frames().contains_key(u)
                        && !page_table.node_frames().contains(old(self).frames()[u].ppn.0)
                        implies !#[trigger] allocator.allocated().contains(old(self).frames()[u].ppn.0) by {
                    if u == v {
                        assert(f0.contains_key(v) && f0[v] == old(self).frames()[v]);
                    }
                };
                assert forall|p: u64|
                    old(allocator).allocated().contains(p) && !#[trigger] allocator.allocated().contains(p) implies exists|u: u64|
                        start <= u < v + 1 && #[trigger] old(self).frames().contains_key(u)
                            && old(self).frames()[u].ppn.0 == p by {
                    if a0.contains(p) {
                        assert(f0.contains_key(v) && f0[v] == old(self).frames()[v]);
                        assert(old(self).frames().contains_key(v) && old(self).frames()[v].ppn.0 == p);
                    } else {
                        let u = choose|u: u64| start <= u < v && #[trigger] old(self).frames().contains_key(u)
                            && old(self).frames()[u].ppn.0 == p;
                        assert(start <= u < v + 1);
                    }
                };
            }
            v = v + 1;
        }
    }

    /// Unmaps the mapped pages among `[from, to)` of the segment, giving
    /// framed pages' frames back; pages not mapped are left as they are.
    fn unmap_range(
        &mut self,
        page_table: &mut PageTable,
        allocator: &mut StackFrameAllocator,
        from: VirtPageNum,
        to: VirtPageNum,
    )
        requires
            old(page_table).fits_in(old(allocator)),
            from.0 <= to.0 <= VPN_LIMIT,
        ensures
            final(page_table).fits_in(final(allocator)),
            final(allocator).end() == old(allocator).end(),
            final(page_table).root() == old(page_table).root(),
            final(self).start() == old(self).start(),
            final(self).end() == old(self).end(),
            final(self).kind() == old(self).kind(),
            final(self).perm() == old(self).perm(),
            forall|v: u64| from.0 <= v < to.0 ==> !#[trigger] final(page_table)@.contains_key(v),
            same_outside(final(page_table)@, old(page_table)@, from.0 as int, to.0 as int),
            final(allocator).allocated().subset_of(old(allocator).allocated()),
            final(page_table).node_frames() == old(page_table).node_frames(),
            old(self).kind() == MapType::Framed ==> forall|v: u64|
                from.0 <= v < to.0 && old(self).frames().contains_key(v) && !old(page_table).node_frames().contains(
                    old(self).frames()[v].ppn.0,
                ) ==> !#[trigger] final(allocator).allocated().contains(old(self).frames()[v].ppn.0),
    {
        let mut v = from;
        while v.0 < to.0
            invariant
                page_table.fits_in(allocator),
                allocator.end() == old(allocator).end(),
                page_table.root() == old(page_table).root(),
                from.0 <= v.0 <= to.0 <= VPN_LIMIT,
                self.start() == old(self).start(),
                self.end() == old(self).end(),
                self.kind() == old(self).kind(),
                self.perm() == old(self).perm(),
                forall|u: u64| from.0 <= u < v.0 ==> !#[trigger] page_table@.contains_key(u),
                same_outside(page_table@, old(page_table)@, from.0 as int, v.0 as int),
                allocator.allocated().subset_of(old(allocator).allocated()),
                page_table.node_frames() == old(page_table).node_frames(),
                forall|u: u64| !(from.0 <= u < v.0) ==> (#[trigger] self.frames().contains_key(u)
                    == old(self).frames().contains_key(u) && (self.frames().contains_key(u) ==> self.frames()[u]
                    == old(self).frames()[u])),
                self.kind() == MapType::Framed ==> forall|u: u64|
                    from.0 <= u < v.0 && old(self).frames().contains_key(u) && !old(page_table).node_frames().contains(
                        old(self).frames()[u].ppn.0,
                    ) ==> !#[trigger] allocator.allocated().contains(old(self).frames()[u].ppn.0),
            decreases to.0 - v.0,
        {
            let ghost view0 = page_table@;
            let ghost f0 = self.frames();
            let ghost a0 = allocator.allocated();
            proof {
                assert(self.frames().contains_key(v.0) == old(self).frames().contains_key(v.0));
                if self.frames().contains_key(v.0) {
                    assert(f0[v.0] == old(self).frames()[v.0]);
                }
            }
            self.unmap_one(page_table, allocator, v);
            proof {
                assert forall|u: u64| u != v.0 implies #[trigger] same_entry(page_table@, view0, u) by {};
                lemma_same_outside_step(view0, page_table@, old(page_table)@, from.0 as int, v.0);
                assert forall|u: u64| !(from.0 <= u < v.0 + 1) implies (#[trigger] self.frames().contains_key(u)
                    == old(self).frames().contains_key(u) && (self.frames().contains_key(u) ==> self.frames()[u]
                    == old(self).frames()[u])) by {
                    assert(f0.contains_key(u) == old(self).frames().contains_key(u));
                    if self.kind() == MapType::Framed && f0.contains_key(v.0) {
                        assert(self.frames() == f0.remove(v.0) || self.frames() == f0);
                    }
                };
                if self.kind() == MapType::Framed {
                    assert forall|u: u64|
                        from.0 <= u < v.0 + 1 && old(self).frames().contains_key(u) && !old(page_table).node_frames().contains(
                            old(self).frames()[u].ppn.0,
                        ) implies !#[trigger] allocator.allocated().contains(old(self).frames()[u].ppn.0) by {
                        if u == v.0 {
                            assert(f0.contains_key(u) && f0[u] == old(self).frames()[u]);
                        }
                    };
                }
                assert forall|u: u64| from.0 <= u < v.0 + 1 implies !#[trigger] page_table@.contains_key(u) by {
                    if u != v.0 {
                        assert(same_entry(page_table@, view0, u));
                    }
                };
            }
            v = VirtPageNum(v.0 + 1);
        }
    }

    /// Drops the pages from `new_end` on: the mapped ones are unmapped and
    /// their frames given back.
    pub fn shrink_to(
        &mut self,
        page_table: &mut PageTable,
        allocator: &mut StackFrameAllocator,
        new_end: VirtPageNum,
    )
        requires
            old(page_table).fits_in(old(allocator)),
            old(self).wf(),
            old(self).start() <= new_end.0 <= old(self).end(),
        ensures
            final(page_table).fits_in(final(allocator)),
            final(allocator).end() == old(allocator).end(),
            final(page_table).root() == old(page_table).root(),
            final(self).wf(),
            final(self).start() == old(self).start(),
            final(self).kind() == old(self).kind(),
            final(self).perm() == old(self).perm(),
            final(self).end() == new_end.0,
            forall|v: u64|
                new_end.0 <= v < old(self).end() ==> !#[trigger] final(page_table)@.contains_key(v),
            same_outside(final(page_table)@, old(page_table)@, new_end.0 as int, old(self).end() as int),
            final(allocator).allocated().subset_of(old(allocator).allocated()),
            final(page_table).node_frames() == old(page_table).node_frames(),
            old(self).kind() == MapType::Framed ==> forall|v: u64|
                new_end.0 <= v < old(self).end() && old(self).frames().contains_key(v) && !old(page_table).node_frames().contains(
                    old(self).frames()[v].ppn.0,
                ) ==> !#[trigger] final(allocator).allocated().contains(old(self).frames()[v].ppn.0),
    {
        let end = self.vpn_range.get_end();
        self.unmap_range(page_table, allocator, new_end, end);
        self.vpn_range = VPNRange::new(self.vpn_range.get_start(), new_end);
    }

    /// Grows the segment up to `new_end`, mapping the new pages. Returns
    /// `false`, with the extent unchanged, when one of them was mapped
    /// already or frames ran out.
    pub fn append_to(
        &mut self,
        page_table: &mut PageTable,
        allocator: &mut StackFrameAllocator,
        new_end: VirtPageNum,
    ) -> (r: bool)
        requires
            old(page_table).fits_in(old(allocator)),
            old(self).wf(),
            old(self).end() <= new_end.0 <= VPN_LIMIT,
        ensures
            final(page_table).fits_in(final(allocator)),
            final(allocator).end() == old(allocator).end(),
            final(page_table).root() == old(page_table).root(),
            final(self).wf(),
            final(self).start() == old(self).start(),
            final(self).kind() == old(self).kind(),
            final(self).perm() == old(self).perm(),
            r ==> final(self).end() == new_end.0,
            !r ==> final(self).end() == old(self).end(),
            r ==> final(self).covers(final(page_table)@, old(self).end() as int, new_end.0 as int),
            r && old(self).kind() == MapType::Framed ==> final(self).fresh_frames(
                old(self).end() as int,
                new_end.0 as int,
                old(allocator).allocated(),
                final(allocator).allocated(),
            ),
            (forall|v: u64| old(self).end() <= v < new_end.0 ==> !#[trigger] old(page_table)@.contains_key(v))
                && old(allocator).free_count() >= 3 * (new_end.0 - old(self).end())
                && old(page_table).node_frames().subset_of(old(allocator).allocated()) ==> r,
            r ==> same_outside(final(page_table)@, old(page_table)@, old(self).end() as int, new_end.0 as int),
            !r && old(page_table).node_frames().subset_of(old(allocator).allocated()) ==> final(page_table)@
                == old(page_table)@ && final(allocator).allocated() == old(allocator).allocated(),
    {
        let end = self.vpn_range.get_end();
        // check first, so that growing either succeeds or changes nothing
        let mut v = end;
        while v.0 < new_end.0
            invariant
                end.0 <= v.0 <= new_end.0 <= VPN_LIMIT,
                end.0 == self.end(),
                *page_table == *old(page_table),
                *allocator == *old(allocator),
                *self == *old(self),
                page_table.fits_in(allocator),
                self.wf(),
                forall|u: u64| end.0 <= u < v.0 ==> !#[trigger] page_table@.contains_key(u),
            decreases new_end.0 - v.0,
        {
            if page_table.translate(v).is_some() {
                return false;
            }
            v = VirtPageNum(v.0 + 1);
        }
        if allocator.free_frames() < 3 * (new_end.0 - end.0) {
            return false;
        }
        if self.map_range(page_table, allocator, end, new_end) {
            let ghost mid = *self;
            self.vpn_range = VPNRange::new(self.vpn_range.get_start(), new_end);
            proof {
                lemma_covers_same(mid, *self, page_table@, end.0 as int, new_end.0 as int);
                if self.kind() == MapType::Framed {
                    assert forall|v: u64| end.0 <= v < new_end.0 implies #[trigger] self.frame_fresh(
                        v,
                        old(allocator).allocated(),
                        allocator.allocated(),
                    ) by {
                        assert(mid.frame_fresh(v, old(allocator).allocated(), allocator.allocated()));
                    };
                }
                assert(end.0 == old(self).end());
                assert(self.covers(page_table@, old(self).end() as int, new_end.0 as int));
            }
            true
        } else {
            false
        }
    }

    /// Copies `data` into the frames of the segment from its first page on,
    /// one page at a time. Returns `false`, with nothing written, when the
    /// segment is not framed, `data` does not fit, or a page has no frame.
    pub fn copy_data(&mut self, data: &[u8]) -> (r: bool)
        requires
            old(self).wf(),
        ensures
            final(self).start() == old(self).start(),
            final(self).end() == old(self).end(),
            final(self).kind() == old(self).kind(),
            final(self).perm() == old(self).perm(),
            final(self).frames().dom() == old(self).frames().dom(),
            forall|v: u64| #[trigger]
                final(self).frames().contains_key(v) ==> final(self).frames()[v].ppn == old(
                    self).frames()[v].ppn && final(self).frames()[v].bytes@.len() == old(self).frames()[v].bytes@.len(),
            r ==> old(self).kind() == MapType::Framed,
            r ==> data@.len() <= (old(self).end() - old(self).start()) * PAGE_SIZE,
            r ==> forall|k: int|
                0 <= k && k * PAGE_SIZE < data@.len() ==> #[trigger] final(self).frames()[(
                old(self).start() + k) as u64].bytes@.subrange(0, chunk(data@, k).len() as int)
                    == chunk(data@, k),
            r ==> forall|v: u64| old(self).start() <= v < old(self).end() && old(self).frames().contains_key(v)
                ==> #[trigger] final(self).frames()[v].bytes@ == page_after(old(self).frames()[v].bytes@, data@, v - old(self).start()),
            old(self).kind() == MapType::Framed && data@.len() <= (old(self).end() - old(self).start()) * PAGE_SIZE
                && old(self).has_whole_frames() ==> r,
    {
        let ghost g = self.kind() == MapType::Framed && data@.len() <= (self.end() - self.start()) * PAGE_SIZE
            && self.has_whole_frames();
        if self.map_type != MapType::Framed {
            return false;
        }
        let len = data.len();
        let start = self.vpn_range.get_start().0;
        let end = self.vpn_range.get_end().0;
        let pages: u64 = len as u64 / PAGE_SIZE + if len as u64 % PAGE_SIZE != 0 {
            1
        } else {
            0
        };
        proof {
            let l = len as int;
            let p = pages as int;
            let n = end - start;
            assert(p * 4096 < l + 4096) by (nonlinear_arith)
                requires p == l / 4096 + (if l % 4096 != 0 { 1int } else { 0int }), l >= 0;
            if g {
                assert(p <= n) by (nonlinear_arith)
                    requires p * 4096 < l + 4096, l <= n * 4096;
            }
        }
        if pages > end - start {
            return false;
        }
        proof {
            let l = len as int;
            let p = pages as int;
            assert(p * 4096 >= l) by (nonlinear_arith)
                requires p == l / 4096 + (if l % 4096 != 0 { 1int } else { 0int }), l >= 0;
        }
        // every page that receives bytes must hold a whole frame
        let mut k: u64 = 0;
        let mut ok = true;
        while ok && k < pages
            invariant
                k <= pages <= end - start,
                start == self.start(),
                end == self.end(),
                g ==> ok && self.has_whole_frames(),
                ok ==> forall|i: int| 0 <= i < k ==> #[trigger] self.frames().contains_key((start + i) as u64)
                    && self.frames()[(start + i) as u64].bytes@.len() == PAGE_SIZE,
            decreases pages - k, (if ok { 1int } else { 0int }),
        {
            proof {
                if g {
                    assert(self.frames().contains_key((start + k) as u64));
                }
            }
            match self.data_frames.get(&(start + k)) {
                Some(f) => {
                    if f.bytes.len() != PAGE_SIZE as usize {
                        ok = false;
                    } else {
                        proof {
                            assert(self.frames().contains_key((start + k) as u64));
                            assert(self.frames()[(start + k) as u64] == *f);
                            assert forall|i: int| 0 <= i < k + 1 implies #[trigger] self.frames().contains_key((start + i) as u64)
                                && self.frames()[(start + i) as u64].bytes@.len() == PAGE_SIZE by {
                                if i == k {
                                    assert((start + i) as u64 == (start + k) as u64);
                                }
                            };
                        }
                        k = k + 1;
                    }
                },
                None => {
                    ok = false;
                },
            }
        }
        if !ok {
            return false;
        }
        let ghost total = k;
        let ghost frames0 = self.frames();
        let mut k: u64 = 0;
        let mut off: usize = 0;
        while off < len
            invariant
                len == data@.len(),
                off as int == (if k * PAGE_SIZE < len { k * PAGE_SIZE } else { len as int }),
                start + total <= end <= VPN_LIMIT,
                total * PAGE_SIZE >= len,
                off < len ==> k < total,
                self.start() == old(self).start(),
                self.end() == old(self).end(),
                self.kind() == old(self).kind(),
                self.perm() == old(self).perm(),
                start == self.start(),
                end == self.end(),
                frames0 == old(self).frames(),
                self.frames().dom() == frames0.dom(),
                forall|v: u64| #[trigger]
                    self.frames().contains_key(v) ==> self.frames()[v].ppn == frames0[v].ppn
                        && self.frames()[v].bytes@.len() == frames0[v].bytes@.len(),
                forall|i: int| 0 <= i < total ==> #[trigger] frames0.contains_key((start + i) as u64)
                    && frames0[(start + i) as u64].bytes@.len() == PAGE_SIZE,
                forall|i: int|
                    0 <= i < k && i * PAGE_SIZE < len ==> #[trigger] self.frames()[(start + i) as u64].bytes@.subrange(
                        0,
                        chunk(data@, i).len() as int,
                    ) == chunk(data@, i),
                k == 0 || (k - 1) * PAGE_SIZE < len,
                forall|u: u64| start <= u < end && u - start >= k && #[trigger] frames0.contains_key(u) ==> self.frames()[u] == frames0[u],
                forall|u: u64| start <= u < start + k && frames0.contains_key(u) ==> #[trigger] self.frames()[u].bytes@ == page_after(
                    frames0[u].bytes@,
                    data@,
                    u - start,
                ),
            decreases len - off,
        {
            let hi: usize = if len - off > PAGE_SIZE as usize {
                off + PAGE_SIZE as usize
            } else {
                len
            };
            proof {
                let kk = k as int;
                let t = total as int;
                assert(kk < t) by (nonlinear_arith)
                    requires kk * 4096 < len as int, len as int <= t * 4096;
            }
            let key: u64 = start + k;
            proof {
                assert(frames0.contains_key(key));
                assert(self.frames().contains_key(key));
            }
            let mut frame = self.data_frames.remove(&key).unwrap();
            let ghost frame0 = frame;
            proof {
                assert(frame0 == frames0[key]);
            }
            let mut j: usize = 0;
            while j < hi - off
                invariant
                    off < hi <= len,
                    hi - off <= PAGE_SIZE,
                    len == data@.len(),
                    frame.bytes@.len() == PAGE_SIZE,
                    frame.ppn == frame0.ppn,
                    j <= hi - off,
                    forall|t: int| 0 <= t < j ==> frame.bytes@[t] == data@[off + t],
                    forall|t: int| j <= t < PAGE_SIZE ==> frame.bytes@[t] == frame0.bytes@[t],
                decreases hi - off - j,
            {
                frame.bytes.set(j, data[off + j]);
                j = j + 1;
            }
            proof {
                assert(chunk(data@, k as int) =~= data@.subrange(off as int, hi as int));
                assert(frame.bytes@.subrange(0, (hi - off) as int) =~= data@.subrange(off as int, hi as int));
                assert(frame.bytes@ =~= page_after(frame0.bytes@, data@, k as int));
            }
            let ghost before = self.frames();
            self.data_frames.insert(key, frame);
            proof {
                assert(self.frames() == before.insert(key, frame));
                assert(self.frames().dom() =~= frames0.dom());
                assert forall|i: int|
                    0 <= i < k + 1 && i * PAGE_SIZE < len implies #[trigger] self.frames()[(start + i) as u64].bytes@.subrange(
                        0,
                        chunk(data@, i).len() as int,
                    ) == chunk(data@, i) by {
                    if i < k {
                        assert((start + i) as u64 != key);
                        assert(before[(start + i) as u64] == self.frames()[(start + i) as u64]);
                    }
                };
            }
            k = k + 1;
            off = hi;
        }
        true
    }
}


/// A loadable segment of an executable image: where it goes, what it may
/// do, and which bytes of the image fill its start.
#[derive(Clone, Copy, Debug, PartialEq, Eq, Structural)]
pub struct ElfSegment {
    pub virtual_addr: u64,
    pub mem_size: u64,
    pub offset: u64,
    pub file_size: u64,
    pub readable: bool,
    pub writable: bool,
    pub executable: bool,
}

/// The permissions of the segment made for `seg`: user-reachable, plus
/// what the segment's flags ask for.
pub open spec fn segment_perm(seg: ElfSegment) -> u8 {
    (MAP_PERM_U | (if seg.readable { MAP_PERM_R } else { 0u8 })) | (if seg.writable {
        MAP_PERM_W
    } else {
        0u8
    }) | (if seg.executable { MAP_PERM_X } else { 0u8 })
}

/// The top of the user stack of an image whose last segment ends at page
/// `max_end_vpn`: one guard page above it, then the stack.
pub open spec fn user_stack_top(max_end_vpn: u64) -> int {
    (max_end_vpn + 1) * PAGE_SIZE + USER_STACK_SIZE
}

/// The segment of `seg` is mapped in `view`, as `area` shows.
pub open spec fn segment_loaded(area: MapArea, seg: ElfSegment, view: Map<u64, PageTableEntry>) -> bool {
    &&& area.start() == floor_spec(seg.virtual_addr)
    &&& area.end() == ceil_spec((seg.virtual_addr + seg.mem_size) as u64)
    &&& area.kind() == MapType::Framed
    &&& area.perm() == segment_perm(seg)
    &&& area.covers(view, area.start() as int, area.end() as int)
}

/// The frames of segment `a` hold the bytes of `d`, page by page, and zeros
/// after them.
pub open spec fn holds_bytes(a: MapArea, d: Seq<u8>) -> bool {
    forall|v: u64| a.start() <= v < a.end() ==> #[trigger] a.frames().contains_key(v)
        && a.frames()[v].bytes@ == page_after(zero_page(), d, v - a.start())
}

/// The bytes of the image that fill the start of segment `seg`.
pub open spec fn segment_bytes(elf_data: Seq<u8>, seg: ElfSegment) -> Seq<u8> {
    elf_data.subrange(seg.offset as int, seg.offset + seg.file_size)
}

/// Pages already mapped in `view0` keep their entries in `view1` when
/// `view1` differs from `view0` only on a range that was unmapped.
proof fn lemma_covers_keep(
    a: MapArea,
    view0: Map<u64, PageTableEntry>,
    view1: Map<u64, PageTableEntry>,
    lo: int,
    hi: int,
    lo2: int,
    hi2: int,
)
    requires
        a.covers(view0, lo, hi),
        same_outside(view1, view0, lo2, hi2),
        forall|v: u64| lo2 <= v < hi2 ==> !#[trigger] view0.contains_key(v),
    ensures
        a.covers(view1, lo, hi),
{
    assert forall|v: u64| lo <= v < hi implies #[trigger] a.page_mapped(view1, v) by {
        assert(a.page_mapped(view0, v));
        assert(same_entry(view1, view0, v));
    };
}

/// Where the linker placed the kernel's sections, and the platform's
/// memory: the end of managed memory and the device windows, each a base and
/// a length.
pub struct KernelLayout {
    pub stext: u64,
    pub etext: u64,
    pub srodata: u64,
    pub erodata: u64,
    pub sdata: u64,
    pub edata: u64,
    pub sbss_with_stack: u64,
    pub ebss: u64,
    pub ekernel: u64,
    pub strampoline: u64,
    pub memory_end: u64,
    pub mmio: Vec<(u64, u64)>,
}

/// A range of the kernel's address space, identity-mapped with `perm`.
#[derive(Clone, Copy, Debug, PartialEq, Eq, Structural)]
pub struct KernelSection {
    pub start: u64,
    pub end: u64,
    pub perm: u8,
}

/// The identity-mapped ranges of the kernel address space, in order: text
/// (read, execute), read-only data (read), data and bss (read, write), the
/// free physical memory (read, write), then each device window (read,
/// write).
pub open spec fn kernel_sections(layout: &KernelLayout) -> Seq<KernelSection> {
    seq![
        KernelSection { start: layout.stext, end: layout.etext, perm: MAP_PERM_R | MAP_PERM_X },
        KernelSection { start: layout.srodata, end: layout.erodata, perm: MAP_PERM_R },
        KernelSection { start: layout.sdata, end: layout.edata, perm: MAP_PERM_R | MAP_PERM_W },
        KernelSection { start: layout.sbss_with_stack, end: layout.ebss, perm: MAP_PERM_R | MAP_PERM_W },
        KernelSection { start: layout.ekernel, end: layout.memory_end, perm: MAP_PERM_R | MAP_PERM_W },
    ] + Seq::new(
        layout.mmio@.len(),
        |i: int| KernelSection {
            start: layout.mmio@[i].0,
            end: (layout.mmio@[i].0 + layout.mmio@[i].1) as u64,
            perm: MAP_PERM_R | MAP_PERM_W,
        },
    )
}

/// The pages a kernel section spans.
pub open spec fn section_pages(sec: KernelSection) -> int {
    ceil_spec(sec.end) - floor_spec(sec.start)
}

/// The pages all of `secs` span.
pub open spec fn total_pages(secs: Seq<KernelSection>) -> int
    decreases secs.len(),
{
    if secs.len() == 0 {
        0
    } else {
        total_pages(secs.drop_last()) + section_pages(secs.last())
    }
}

/// Page `v` lies in one of the first `n` sections.
pub open spec fn in_some_section(secs: Seq<KernelSection>, n: int, v: u64) -> bool {
    exists|j: int| 0 <= j < n && floor_spec(#[trigger] secs[j].start) <= v < ceil_spec(secs[j].end)
}

/// Every section is ordered and inside the address window, none spans the
/// trampoline page, and no two span a common page.
pub open spec fn sections_fit(secs: Seq<KernelSection>) -> bool {
    &&& forall|i: int| 0 <= i < secs.len() ==> #[trigger] secs[i].start <= secs[i].end <= VA_LIMIT
    &&& forall|i: int| 0 <= i < secs.len() ==> !(floor_spec(#[trigger] secs[i].start) <= TRAMPOLINE_VPN < ceil_spec(secs[i].end))
    &&& forall|i: int, j: int| 0 <= i < j < secs.len() ==> ceil_spec(#[trigger] secs[i].end) <= floor_spec(#[trigger] secs[j].start)
        || ceil_spec(secs[j].end) <= floor_spec(secs[i].start)
}

/// No device window's end overflows a machine word.
pub open spec fn mmio_fits(layout: &KernelLayout) -> bool {
    forall|i: int| 0 <= i < layout.mmio@.len() ==> #[trigger] layout.mmio@[i].0 + layout.mmio@[i].1 <= u64::MAX
}

/// The kernel address space of `layout` can be built from an allocator
/// with `free` frames left.
pub open spec fn kernel_space_fits(layout: &KernelLayout, free: int) -> bool {
    &&& mmio_fits(layout)
    &&& sections_fit(kernel_sections(layout))
    &&& free >= 3 + 3 * total_pages(kernel_sections(layout))
}

proof fn lemma_total_pages_step(secs: Seq<KernelSection>, i: int)
    requires
        0 <= i < secs.len(),
    ensures
        total_pages(secs.take(i + 1)) == total_pages(secs.take(i)) + section_pages(secs[i]),
{
    assert(secs.take(i + 1).drop_last() =~= secs.take(i));
}

proof fn lemma_total_pages_bound(secs: Seq<KernelSection>, i: int)
    requires
        0 <= i <= secs.len(),
        forall|k: int| 0 <= k < secs.len() ==> #[trigger] secs[k].start <= secs[k].end,
    ensures
        total_pages(secs.take(i)) <= total_pages(secs),
    decreases secs.len() - i,
{
    if i < secs.len() {
        lemma_total_pages_bound(secs, i + 1);
        lemma_total_pages_step(secs, i);
        let s = secs[i];
        assert(floor_spec(s.start) <= ceil_spec(s.end)) by (nonlinear_arith)
            requires s.start <= s.end;
    } else {
        assert(secs.take(i) =~= secs);
    }
}

/// Segment `a` identity-maps section `sec` in `view`.
pub open spec fn section_mapped(a: MapArea, sec: KernelSection, view: Map<u64, PageTableEntry>) -> bool {
    &&& a.kind() == MapType::Identical
    &&& a.start() == floor_spec(sec.start)
    &&& a.end() == ceil_spec(sec.end)
    &&& a.perm() == sec.perm
    &&& a.covers(view, a.start() as int, a.end() as int)
}

/// The first page of the segment of `seg`.
pub open spec fn seg_lo(seg: ElfSegment) -> int {
    floor_spec(seg.virtual_addr)
}

/// The page just past the segment of `seg`.
pub open spec fn seg_hi(seg: ElfSegment) -> int {
    ceil_spec((seg.virtual_addr + seg.mem_size) as u64)
}

/// The page just past the last segment, where the guard page lies.
pub open spec fn last_end(segs: Seq<ElfSegment>) -> int {
    if segs.len() == 0 {
        0
    } else {
        seg_hi(segs.last())
    }
}

/// The pages the segments span.
pub open spec fn seg_total_pages(segs: Seq<ElfSegment>) -> int
    decreases segs.len(),
{
    if segs.len() == 0 {
        0
    } else {
        seg_total_pages(segs.drop_last()) + seg_hi(segs.last()) - seg_lo(segs.last())
    }
}

/// Page `v` lies in one of the first `n` segments.
pub open spec fn in_some_segment(segs: Seq<ElfSegment>, n: int, v: u64) -> bool {
    exists|j: int| 0 <= j < n && seg_lo(#[trigger] segs[j]) <= v < seg_hi(segs[j])
}

/// An image of these segments, `len` bytes long, can be laid out from an
/// allocator with `free` frames left: every segment lies in the address
/// window with its bytes inside the image and no more of them than its
/// size; no two segments share a page; no segment reaches the guard page,
/// the user stack, the trap-context page or the trampoline; the stack ends
/// below the trap-context page; and frames suffice for the tables and every
/// page.
pub open spec fn elf_fits(segs: Seq<ElfSegment>, len: int, free: int) -> bool {
    let e = last_end(segs);
    &&& forall|i: int| 0 <= i < segs.len() ==> (#[trigger] segs[i]).mem_size < VA_LIMIT
        && segs[i].virtual_addr < VA_LIMIT - segs[i].mem_size
        && segs[i].offset + segs[i].file_size <= len && segs[i].file_size <= segs[i].mem_size
    &&& forall|i: int, j: int| 0 <= i < j < segs.len() ==> seg_hi(#[trigger] segs[i]) <= seg_lo(#[trigger] segs[j])
        || seg_hi(segs[j]) <= seg_lo(segs[i])
    &&& e <= 0x7ff_fffb
    &&& forall|v: u64| #[trigger] in_some_segment(segs, segs.len() as int, v) ==> !(e <= v < e + 3) && v != 0x7ff_fffe
        && v != TRAMPOLINE_VPN
    &&& free >= 12 + 3 * seg_total_pages(segs)
}

proof fn lemma_seg_total_step(segs: Seq<ElfSegment>, i: int)
    requires
        0 <= i < segs.len(),
    ensures
        seg_total_pages(segs.take(i + 1)) == seg_total_pages(segs.take(i)) + seg_hi(segs[i]) - seg_lo(segs[i]),
{
    assert(segs.take(i + 1).drop_last() =~= segs.take(i));
}

proof fn lemma_seg_total_bound(segs: Seq<ElfSegment>, i: int)
    requires
        0 <= i <= segs.len(),
        forall|k: int| 0 <= k < segs.len() ==> #[trigger] seg_lo(segs[k]) <= seg_hi(segs[k]),
    ensures
        seg_total_pages(segs.take(i)) <= seg_total_pages(segs),
    decreases segs.len() - i,
{
    if i < segs.len() {
        lemma_seg_total_bound(segs, i + 1);
        lemma_seg_total_step(segs, i);
    } else {
        assert(segs.take(i) =~= segs);
    }
}

/// The page number of the trampoline in every address space.
pub const TRAMPOLINE_VPN: u64 = 0x7ff_ffff;

/// An address space: segments that share one page table, plus the
/// trampoline page, mapped directly in the table.
pub struct MemorySet {
    page_table: PageTable,
    areas: Vec<MapArea>,
}

impl MemorySet {
    /// What the address space maps.
    pub closed spec fn view(&self) -> Map<u64, PageTableEntry> {
        self.page_table@
    }

    pub closed spec fn areas(&self) -> Seq<MapArea> {
        self.areas@
    }

    pub closed spec fn table(&self) -> PageTable {
        self.page_table
    }

    /// The table fits the allocator and every segment is well formed.
    pub open spec fn wf_in(&self, allocator: &StackFrameAllocator) -> bool {
        &&& self.table().fits_in(allocator)
        &&& forall|i: int| 0 <= i < self.areas().len() ==> #[trigger] self.areas()[i].wf()
    }

    /// An address space with an empty table and no segments, or `None` when
    /// no frame is free for the root.
    pub fn new_bare(allocator: &mut StackFrameAllocator) -> (r: Option<MemorySet>)
        requires
            old(allocator).wf(),
            old(allocator).end() <= PPN_LIMIT,
        ensures
            final(allocator).wf(),
            final(allocator).end() == old(allocator).end(),
            r matches Some(m) ==> m.wf_in(final(allocator)) && m.view() == Map::<u64, PageTableEntry>::empty()
                && m.areas().len() == 0 && m.table().node_frames().subset_of(final(allocator).allocated()),
            old(allocator).allocated().subset_of(final(allocator).allocated()),
            r is Some ==> final(allocator).free_count() == old(allocator).free_count() - 1,
            old(allocator).free_count() > 0 ==> r is Some,
    {
        match PageTable::new(allocator) {
            None => None,
            Some(page_table) => {
                let m = MemorySet { page_table, areas: Vec::new() };
                Some(m)
            },
        }
    }

    /// The token of the table, for the root-table register.
    pub fn token(&self) -> (r: u64)
        requires
            self.table().wf(),
        ensures
            r == SATP_SV39 + self.table().root(),
    {
        self.page_table.token()
    }

    /// The valid leaf entry of `vpn`, if any.
    pub fn translate(&self, vpn: VirtPageNum) -> (r: Option<PageTableEntry>)
        requires
            self.table().wf(),
            vpn.0 < VPN_LIMIT,
        ensures
            r is Some <==> self.view().contains_key(vpn.0),
            r is Some ==> r == Some(self.view()[vpn.0]),
    {
        self.page_table.translate(vpn)
    }

    /// Maps every page of `area`, copies `data` into it when given, and
    /// adds it. Returns `false`, with the segment not added, when a page of
    /// its range was mapped already, frames ran out, or the data does not
    /// fit.
    fn push(&mut self, allocator: &mut StackFrameAllocator, area: MapArea, data: Option<&[u8]>) -> (r: bool)
        requires
            old(self).wf_in(old(allocator)),
            area.wf(),
        ensures
            final(self).wf_in(final(allocator)),
            final(allocator).end() == old(allocator).end(),
            final(self).table().root() == old(self).table().root(),
            r ==> final(self).areas().len() == old(self).areas().len() + 1,
            !r ==> final(self).areas() == old(self).areas(),
            forall|i: int| 0 <= i < old(self).areas().len() ==> #[trigger] final(self).areas()[i] == old(self).areas()[i],
            r ==> ({
                let a = final(self).areas().last();
                &&& a.start() == area.start() && a.end() == area.end()
                &&& a.kind() == area.kind() && a.perm() == area.perm()
                &&& a.covers(final(self).view(), area.start() as int, area.end() as int)
                &&& forall|v: u64| area.start() <= v < area.end() ==> !#[trigger] old(self).view().contains_key(v)
                &&& same_outside(final(self).view(), old(self).view(), area.start() as int, area.end() as int)
            }),
            r ==> old(allocator).allocated().subset_of(final(allocator).allocated()),
            final(allocator).free_count() >= old(allocator).free_count() - 3 * (area.end() - area.start()),
            old(self).table().node_frames().subset_of(old(allocator).allocated()) ==> final(self).table().node_frames().subset_of(final(allocator).allocated()),
            r && area.kind() == MapType::Framed ==> final(self).areas().last().fresh_frames(
                area.start() as int,
                area.end() as int,
                old(allocator).allocated(),
                final(allocator).allocated(),
            ),
            (data is None || (area.kind() == MapType::Framed && data.unwrap()@.len() <= (area.end() - area.start()) * PAGE_SIZE))
                && (forall|v: u64| area.start() <= v < area.end() ==> !#[trigger] old(self).view().contains_key(v))
                && old(allocator).free_count() >= 3 * (area.end() - area.start())
                && old(self).table().node_frames().subset_of(old(allocator).allocated()) ==> r,
            r && data is Some ==> ({
                let a = final(self).areas().last();
                let d = data.unwrap()@;
                &&& d.len() <= (area.end() - area.start()) * PAGE_SIZE
                &&& forall|k: int|
                    0 <= k && k * PAGE_SIZE < d.len() ==> #[trigger] a.frames()[(area.start() + k) as u64].bytes@.subrange(
                        0,
                        chunk(d, k).len() as int,
                    ) == chunk(d, k)
                &&& area.kind() == MapType::Framed ==> holds_bytes(a, d)
            }),
    {
        let mut area = area;
        if !area.map(&mut self.page_table, allocator) {
            proof {
                assert(old(self).view() == old(self).page_table@);
                assert(old(self).table() == old(self).page_table);
            }
            return false;
        }
        let ghost mapped = area;
        match data {
            Some(d) => {
                proof {
                    if area.kind() == MapType::Framed {
                        assert forall|v: u64| area.start() <= v < area.end() implies #[trigger] area.frames().contains_key(v)
                            && area.frames()[v].bytes@.len() == PAGE_SIZE by {
                            assert(area.page_mapped(self.page_table@, v));
                        };
                        assert(area.has_whole_frames());
                    }
                }
                if !area.copy_data(d) {
                    return false;
                }
                proof {
                    assert forall|v: u64| area.start() <= v < area.end() implies #[trigger] area.frame_fresh(
                        v,
                        old(allocator).allocated(),
                        allocator.allocated(),
                    ) by {
                        if area.kind() == MapType::Framed {
                            assert(mapped.frame_fresh(v, old(allocator).allocated(), allocator.allocated()));
                        }
                    };
                    assert forall|v: u64| area.start() <= v < area.end() implies #[trigger] area.page_mapped(self.page_table@, v) by {
                        assert(mapped.page_mapped(self.page_table@, v));
                        if area.kind() == MapType::Framed {
                            assert(mapped.frames().contains_key(v));
                            assert(area.frames()[v].ppn == mapped.frames()[v].ppn);
                        }
                        assert(area.pte_at(v) == mapped.pte_at(v));
                    };
                }
            },
            None => {},
        }
        self.areas.push(area);
        proof {
            assert forall|i: int| 0 <= i < self.areas().len() implies #[trigger] self.areas()[i].wf() by {
                if i < old(self).areas().len() {
                    assert(self.areas()[i] == old(self).areas()[i]);
                }
            };
        }
        true
    }

    /// Adds a framed segment over `[start_va, end_va)` with `permission`.
    pub fn insert_framed_area(
        &mut self,
        allocator: &mut StackFrameAllocator,
        start_va: VirtAddr,
        end_va: VirtAddr,
        permission: MapPermission,
    ) -> (r: bool)
        requires
            old(self).wf_in(old(allocator)),
            start_va.0 <= end_va.0,
            end_va.0 <= crate::address::VA_LIMIT,
        ensures
            final(self).wf_in(final(allocator)),
            final(allocator).end() == old(allocator).end(),
            final(self).table().root() == old(self).table().root(),
            r ==> final(self).areas().len() == old(self).areas().len() + 1,
            !r ==> final(self).areas() == old(self).areas(),
            r ==> ({
                let a = final(self).areas().last();
                &&& a.start() == floor_spec(start_va.0) && a.end() == ceil_spec(end_va.0)
                &&& a.kind() == MapType::Framed && a.perm() == permission.bits
                &&& a.covers(final(self).view(), a.start() as int, a.end() as int)
                &&& same_outside(final(self).view(), old(self).view(), a.start() as int, a.end() as int)
                &&& forall|v: u64| a.start() <= v < a.end() ==> !#[trigger] old(self).view().contains_key(v)
            }),
            forall|i: int| 0 <= i < old(self).areas().len() ==> #[trigger] final(self).areas()[i] == old(self).areas()[i],
            r ==> old(allocator).allocated().subset_of(final(allocator).allocated()),
            final(allocator).free_count() >= old(allocator).free_count() - 3 * (ceil_spec(end_va.0) - floor_spec(start_va.0)),
            old(self).table().node_frames().subset_of(old(allocator).allocated()) ==> final(self).table().node_frames().subset_of(final(allocator).allocated()),
            r ==> final(self).areas().last().fresh_frames(
                floor_spec(start_va.0),
                ceil_spec(end_va.0),
                old(allocator).allocated(),
                final(allocator).allocated(),
            ),
            (forall|v: u64| floor_spec(start_va.0) <= v < ceil_spec(end_va.0) ==> !#[trigger] old(self).view().contains_key(v))
                && old(allocator).free_count() >= 3 * (ceil_spec(end_va.0) - floor_spec(start_va.0))
                && old(self).table().node_frames().subset_of(old(allocator).allocated()) ==> r,
    {
        self.insert_area(allocator, start_va, end_va, MapType::Framed, permission)
    }

    /// Adds a segment of `map_type` over `[start_va, end_va)` with
    /// `permission`.
    fn insert_area(
        &mut self,
        allocator: &mut StackFrameAllocator,
        start_va: VirtAddr,
        end_va: VirtAddr,
        map_type: MapType,
        permission: MapPermission,
    ) -> (r: bool)
        requires
            old(self).wf_in(old(allocator)),
            start_va.0 <= end_va.0,
            end_va.0 <= crate::address::VA_LIMIT,
        ensures
            final(self).wf_in(final(allocator)),
            final(allocator).end() == old(allocator).end(),
            final(self).table().root() == old(self).table().root(),
            r ==> final(self).areas().len() == old(self).areas().len() + 1,
            !r ==> final(self).areas() == old(self).areas(),
            r ==> ({
                let a = final(self).areas().last();
                &&& a.start() == floor_spec(start_va.0) && a.end() == ceil_spec(end_va.0)
                &&& a.kind() == map_type && a.perm() == permission.bits
                &&& a.covers(final(self).view(), a.start() as int, a.end() as int)
                &&& same_outside(final(self).view(), old(self).view(), a.start() as int, a.end() as int)
                &&& forall|v: u64| a.start() <= v < a.end() ==> !#[trigger] old(self).view().contains_key(v)
            }),
            forall|i: int| 0 <= i < old(self).areas().len() ==> #[trigger] final(self).areas()[i] == old(self).areas()[i],
            r ==> old(allocator).allocated().subset_of(final(allocator).allocated()),
            final(allocator).free_count() >= old(allocator).free_count() - 3 * (ceil_spec(end_va.0) - floor_spec(start_va.0)),
            old(self).table().node_frames().subset_of(old(allocator).allocated()) ==> final(self).table().node_frames().subset_of(final(allocator).allocated()),
            r && map_type == MapType::Framed ==> final(self).areas().last().fresh_frames(
                floor_spec(start_va.0),
                ceil_spec(end_va.0),
                old(allocator).allocated(),
                final(allocator).allocated(),
            ),
            (forall|v: u64| floor_spec(start_va.0) <= v < ceil_spec(end_va.0) ==> !#[trigger] old(self).view().contains_key(v))
                && old(allocator).free_count() >= 3 * (ceil_spec(end_va.0) - floor_spec(start_va.0))
                && old(self).table().node_frames().subset_of(old(allocator).allocated()) ==> r,
    {
        proof {
            let a = start_va.0 as int;
            let b = end_va.0 as int;
            assert(a / 4096 <= (b + 4095) / 4096 <= 0x800_0000) by (nonlinear_arith)
                requires 0 <= a <= b <= 0x80_0000_0000;
        }
        let area = MapArea::new(start_va, end_va, map_type, permission);
        self.push(allocator, area, None)
    }

    /// Maps the trampoline page to the frame at `trampoline_pa`, readable
    /// and executable, not as a segment.
    pub fn map_trampoline(&mut self, allocator: &mut StackFrameAllocator, trampoline_pa: u64) -> (r: bool)
        requires
            old(self).wf_in(old(allocator)),
        ensures
            final(self).wf_in(final(allocator)),
            final(allocator).end() == old(allocator).end(),
            final(self).table().root() == old(self).table().root(),
            final(self).areas() == old(self).areas(),
            r ==> !old(self).view().contains_key(TRAMPOLINE_VPN),
            r ==> final(self).view() == old(self).view().insert(
                TRAMPOLINE_VPN,
                pte_of(floor_spec((trampoline_pa % crate::address::PA_LIMIT) as u64) as u64, (PTE_R | PTE_X) | PTE_V),
            ),
            !r ==> final(self).view() == old(self).view(),
            final(allocator).free_count() >= old(allocator).free_count() - 2,
            old(self).table().node_frames().subset_of(old(allocator).allocated()) ==> final(self).table().node_frames().subset_of(final(allocator).allocated()),
            old(allocator).allocated().subset_of(final(allocator).allocated()),
            !old(self).view().contains_key(TRAMPOLINE_VPN) && old(allocator).free_count() >= 2
                && old(self).table().node_frames().subset_of(old(allocator).allocated()) ==> r,
    {
        let vpn = VirtAddr::from(TRAMPOLINE).floor();
        proof {
            assert(TRAMPOLINE % crate::address::VA_LIMIT == 0x7f_ffff_f000);
        }
        if self.page_table.translate(vpn).is_some() {
            return false;
        }
        let ppn = PhysAddr::from(trampoline_pa).floor();
        proof {
            let x = (trampoline_pa % crate::address::PA_LIMIT) as int;
            assert(x / 4096 < 0x1000_0000_0000) by (nonlinear_arith)
                requires 0 <= x < 0x100_0000_0000_0000;
        }
        let ghost areas0 = self.areas();
        let r = self.page_table.map(allocator, vpn, ppn, PTEFlags::from_bits(PTE_R | PTE_X));
        assert(self.areas() == areas0);
        r
    }
    /// The permissions for the segment of `seg`.
    fn perm_of(seg: &ElfSegment) -> (r: MapPermission)
        ensures
            r.bits == segment_perm(*seg),
    {
        let r: u8 = if seg.readable {
            MAP_PERM_R
        } else {
            0u8
        };
        let w: u8 = if seg.writable {
            MAP_PERM_W
        } else {
            0u8
        };
        let x: u8 = if seg.executable {
            MAP_PERM_X
        } else {
            0u8
        };
        MapPermission::from_bits((MAP_PERM_U | r) | w | x)
    }

    /// The address space of an executable image: one framed segment per
    /// loadable segment, filled from `elf_data`; a guard page and the user
    /// stack above the last one; an empty heap segment at the stack top; the
    /// trap-context page; and the trampoline. Returns it with the stack top
    /// and `entry`. `None` when a segment is malformed (its end wraps, or
    /// its bytes lie outside the image), two segments overlap, or frames
    /// run out.
    pub fn from_elf(
        allocator: &mut StackFrameAllocator,
        segments: &Vec<ElfSegment>,
        entry: u64,
        elf_data: &[u8],
        trampoline_pa: u64,
    ) -> (r: Option<(MemorySet, u64, u64)>)
        requires
            old(allocator).wf(),
            old(allocator).end() <= PPN_LIMIT,
        ensures
            final(allocator).wf(),
            final(allocator).end() == old(allocator).end(),
            r matches Some((m, sp, e)) ==> {
                let n = segments@.len() as int;
                &&& m.wf_in(final(allocator))
                &&& e == entry
                &&& old(allocator).allocated().subset_of(final(allocator).allocated())
                &&& forall|i: int| 0 <= i < n ==> #[trigger] m.areas()[i].fresh_frames(
                    m.areas()[i].start() as int,
                    m.areas()[i].end() as int,
                    old(allocator).allocated(),
                    final(allocator).allocated(),
                )
                &&& m.areas()[n].fresh_frames(
                    m.areas()[n].start() as int,
                    m.areas()[n].end() as int,
                    old(allocator).allocated(),
                    final(allocator).allocated(),
                )
                &&& m.areas()[n + 2].fresh_frames(
                    m.areas()[n + 2].start() as int,
                    m.areas()[n + 2].end() as int,
                    old(allocator).allocated(),
                    final(allocator).allocated(),
                )

                &&& user_space(m, segments@, elf_data@, trampoline_pa, sp)
            },
            elf_fits(segments@, elf_data@.len() as int, old(allocator).free_count()) ==> r is Some,
            elf_fits(segments@, elf_data@.len() as int, old(allocator).free_count()) ==> final(allocator).free_count()
                >= old(allocator).free_count() - 12 - 3 * seg_total_pages(segments@),
    {
        let ghost g = elf_fits(segments@, elf_data@.len() as int, old(allocator).free_count());
        proof {
            if g {
                assert forall|k: int| 0 <= k < segments@.len() implies #[trigger] seg_lo(segments@[k]) <= seg_hi(segments@[k]) by {
                    let sg = segments@[k];
                    let a = sg.virtual_addr as int;
                    let b = a + sg.mem_size;
                    assert(a / 4096 <= (b + 4095) / 4096) by (nonlinear_arith)
                        requires 0 <= a <= b;
                };
                lemma_seg_total_bound(segments@, 0);
                assert(segments@.take(0) =~= Seq::<ElfSegment>::empty());
            }
        }
        let mut m = match MemorySet::new_bare(allocator) {
            None => {
                return None;
            },
            Some(m) => m,
        };
        proof {
            assert(!m.view().contains_key(TRAMPOLINE_VPN));
        }
        if !m.map_trampoline(allocator, trampoline_pa) {
            return None;
        }
        let ghost tramp = m.view()[TRAMPOLINE_VPN];
        proof {
            assert forall|v: u64| #[trigger] m.view().contains_key(v) implies v == TRAMPOLINE_VPN by {};
        }
        let mut max_end_vpn: u64 = 0;
        let mut i: usize = 0;
        while i < segments.len()
            invariant
                g == elf_fits(segments@, elf_data@.len() as int, old(allocator).free_count()),
                g ==> allocator.free_count() >= old(allocator).free_count() - 3 - 3 * seg_total_pages(segments@.take(i as int))
                    && m.table().node_frames().subset_of(allocator.allocated())
                    && forall|k: int| 0 <= k < segments@.len() ==> #[trigger] seg_lo(segments@[k]) <= seg_hi(segments@[k]),
                forall|v: u64| #[trigger] m.view().contains_key(v) ==> v == TRAMPOLINE_VPN || in_some_segment(segments@, i as int, v),
                m.wf_in(allocator),
                allocator.end() == old(allocator).end(),
                i <= segments@.len(),
                m.areas().len() == i,
                m.view().contains_key(TRAMPOLINE_VPN),
                m.view()[TRAMPOLINE_VPN] == tramp,
                tramp == pte_of(floor_spec((trampoline_pa % crate::address::PA_LIMIT) as u64) as u64, (PTE_R | PTE_X) | PTE_V),
                forall|j: int| 0 <= j < i ==> #[trigger] segment_loaded(m.areas()[j], segments@[j], m.view()),
                forall|j: int| 0 <= j < i ==> #[trigger] holds_bytes(m.areas()[j], segment_bytes(elf_data@, segments@[j])),
                old(allocator).allocated().subset_of(allocator.allocated()),
                forall|j: int| 0 <= j < i ==> #[trigger] m.areas()[j].fresh_frames(
                    m.areas()[j].start() as int,
                    m.areas()[j].end() as int,
                    old(allocator).allocated(),
                    allocator.allocated(),
                ),
                max_end_vpn == (if i == 0 { 0 } else { m.areas()[i - 1].end() }),
            decreases segments@.len() - i,
        {
            let seg = segments[i];
            proof {
                if g {
                    assert(seg == segments@[i as int]);
                }
            }
            if seg.mem_size >= crate::address::VA_LIMIT || seg.virtual_addr >= crate::address::VA_LIMIT
                - seg.mem_size {
                return None;
            }
            let start_va = VirtAddr::from(seg.virtual_addr);
            let end_va = VirtAddr::from(seg.virtual_addr + seg.mem_size);
            proof {
                assert(start_va.0 == seg.virtual_addr);
                assert(end_va.0 == seg.virtual_addr + seg.mem_size);
            }
            let dlen: usize = elf_data.len();
            proof {
                if g {
                    assert(seg.offset + seg.file_size <= dlen);
                }
            }
            if seg.offset > u64::MAX - seg.file_size || seg.offset + seg.file_size > dlen as u64 {
                return None;
            }
            let data = slice_subrange(elf_data, seg.offset as usize, (seg.offset + seg.file_size) as usize);
            proof {
                let a = start_va.0 as int;
                let b = end_va.0 as int;
                assert(a / 4096 <= (b + 4095) / 4096 <= 0x800_0000) by (nonlinear_arith)
                    requires 0 <= a <= b < 0x80_0000_0000;
                assert(end_va.0 == seg.virtual_addr + seg.mem_size);
            }
            let area = MapArea::new(start_va, end_va, MapType::Framed, Self::perm_of(&seg));
            proof {
                lemma_seg_total_step(segments@, i as int);
                if g {
                    lemma_seg_total_bound(segments@, i as int + 1);
                    let a = seg.virtual_addr as int;
                    let b = a + seg.mem_size;
                    assert((((b + 4095) / 4096) - a / 4096) * 4096 >= b - a) by (nonlinear_arith)
                        requires 0 <= a <= b;
                    assert forall|v: u64| area.start() <= v < area.end() implies !#[trigger] m.view().contains_key(v) by {
                        if m.view().contains_key(v) {
                            assert(in_some_segment(segments@, segments@.len() as int, v)) by {
                                assert(seg_lo(segments@[i as int]) <= v < seg_hi(segments@[i as int]));
                            };
                            assert(v != TRAMPOLINE_VPN);
                            let j = choose|j: int| 0 <= j < i && seg_lo(#[trigger] segments@[j]) <= v < seg_hi(segments@[j]);
                            assert(seg_hi(segments@[j]) <= seg_lo(segments@[i as int]) || seg_hi(segments@[i as int]) <= seg_lo(segments@[j]));
                        }
                    };
                }
            }
            let ghost view0 = m.view();
            let ghost areas0 = m.areas();
            let ghost alloc0 = allocator.allocated();
            let lo = area.get_start();
            let hi = area.get_end();
            if !m.push(allocator, area, Some(data)) {
                return None;
            }
            proof {
                assert forall|j: int| 0 <= j < i + 1 implies #[trigger] m.areas()[j].fresh_frames(
                    m.areas()[j].start() as int,
                    m.areas()[j].end() as int,
                    old(allocator).allocated(),
                    allocator.allocated(),
                ) by {
                    if j < i {
                        assert(m.areas()[j] == areas0[j]);
                        lemma_fresh_weaken(areas0[j], areas0[j].start() as int, areas0[j].end() as int,
                            old(allocator).allocated(), alloc0, old(allocator).allocated(), allocator.allocated());
                    } else {
                        lemma_fresh_weaken(m.areas()[j], m.areas()[j].start() as int, m.areas()[j].end() as int,
                            alloc0, allocator.allocated(), old(allocator).allocated(), allocator.allocated());
                    }
                };
                assert forall|j: int| 0 <= j < i + 1 implies #[trigger] segment_loaded(m.areas()[j], segments@[j], m.view()) by {
                    if j < i {
                        assert(m.areas()[j] == areas0[j]);
                        assert(segment_loaded(areas0[j], segments@[j], view0));
                        lemma_covers_keep(areas0[j], view0, m.view(), areas0[j].start() as int, areas0[j].end() as int, lo.0 as int, hi.0 as int);
                    }
                };
                assert(same_entry(m.view(), view0, TRAMPOLINE_VPN)) by {
                    if lo.0 <= TRAMPOLINE_VPN < hi.0 {
                        assert(!view0.contains_key(TRAMPOLINE_VPN));
                    }
                };
                assert(data@ == segment_bytes(elf_data@, segments@[i as int]));
                assert forall|v: u64| #[trigger] m.view().contains_key(v) implies v == TRAMPOLINE_VPN
                    || in_some_segment(segments@, i + 1, v) by {
                    if lo.0 <= v < hi.0 {
                        assert(seg_lo(segments@[i as int]) <= v < seg_hi(segments@[i as int]));
                    } else {
                        assert(same_entry(m.view(), view0, v));
                        if v != TRAMPOLINE_VPN {
                            let j = choose|j: int| 0 <= j < i && seg_lo(#[trigger] segments@[j]) <= v < seg_hi(segments@[j]);
                            assert(seg_lo(segments@[j]) <= v < seg_hi(segments@[j]));
                        }
                    }
                };
                assert forall|j: int| 0 <= j < i + 1 implies #[trigger] holds_bytes(m.areas()[j], segment_bytes(elf_data@, segments@[j])) by {
                    if j < i {
                        assert(m.areas()[j] == areas0[j]);
                    }
                };
            }
            max_end_vpn = hi.0;
            i = i + 1;
        }
        let n: usize = segments.len();
        let ghost seg_areas = m.areas();
        let ghost alloc_seg = allocator.allocated();
        proof {
            if n > 0 {
                assert(m.areas()[n - 1].wf());
            }
            if g {
                assert(segments@.take(n as int) =~= segments@);
                if n > 0 {
                    assert(segment_loaded(m.areas()[n - 1], segments@[n - 1], m.view()));
                }
                assert(max_end_vpn == last_end(segments@));
            }
        }
        let max_end_va = VirtPageNum(max_end_vpn).to_addr();
        if max_end_va.0 > crate::address::VA_LIMIT - PAGE_SIZE - USER_STACK_SIZE {
            return None;
        }
        proof {
            assert(max_end_vpn < VPN_LIMIT);
            if g {
                assert forall|v: u64| max_end_vpn <= v < max_end_vpn + 3 implies !#[trigger] m.view().contains_key(v) by {
                    if m.view().contains_key(v) {
                        assert(v != TRAMPOLINE_VPN);
                        assert(in_some_segment(segments@, segments@.len() as int, v));
                    }
                };
            }
        }
        // the guard page below the user stack must stay unmapped
        if m.translate(VirtPageNum(max_end_vpn)).is_some() {
            return None;
        }
        let user_stack_bottom: u64 = max_end_va.0 + PAGE_SIZE;
        let user_stack_top: u64 = user_stack_bottom + USER_STACK_SIZE;
        let rwu = MapPermission::from_bits(MAP_PERM_R | MAP_PERM_W | MAP_PERM_U);
        // the user stack, one guard page above the last segment
        let ghost view0 = m.view();
        proof {
            assert forall|v: u64| #[trigger] view0.contains_key(v) implies v == TRAMPOLINE_VPN || in_some_area(m.areas(), v) by {
                if v != TRAMPOLINE_VPN {
                    let j = choose|j: int| 0 <= j < n && seg_lo(#[trigger] segments@[j]) <= v < seg_hi(segments@[j]);
                    assert(segment_loaded(m.areas()[j], segments@[j], view0));
                    assert(m.areas()[j].start() <= v < m.areas()[j].end());
                }
            };
        }
        if !m.insert_framed_area(allocator, VirtAddr(user_stack_bottom), VirtAddr(user_stack_top), rwu) {
            return None;
        }
        proof {
            assert(floor_spec(user_stack_bottom) == max_end_vpn + 1);
            assert(ceil_spec(user_stack_top) == max_end_vpn + 3);
            lemma_prefix_covers(seg_areas, view0, m.areas(), m.view(), n as int, (max_end_vpn + 1) as int, (max_end_vpn + 3) as int);
            lemma_domain_step(seg_areas, view0, m.areas(), m.view(), (max_end_vpn + 1) as int, (max_end_vpn + 3) as int);
            if g {
                assert forall|v: u64| #[trigger] m.view().contains_key(v) implies v == TRAMPOLINE_VPN
                    || in_some_segment(segments@, n as int, v) || (max_end_vpn + 1 <= v < max_end_vpn + 3) by {
                    if !(max_end_vpn + 1 <= v < max_end_vpn + 3) {
                        assert(same_entry(m.view(), view0, v));
                    }
                };
            }
            lemma_prefix_fresh(seg_areas, m.areas(), n as int, old(allocator).allocated(), alloc_seg, allocator.allocated());
            assert(same_entry(m.view(), view0, TRAMPOLINE_VPN));
            assert(same_entry(m.view(), view0, max_end_vpn));
            lemma_fresh_weaken(m.areas()[n as int], (max_end_vpn + 1) as int, (max_end_vpn + 3) as int,
                alloc_seg, allocator.allocated(), old(allocator).allocated(), allocator.allocated());
        }
        // the heap, empty until the program break moves
        let ghost view1 = m.view();
        let ghost areas1 = m.areas();
        let ghost alloc1 = allocator.allocated();
        if !m.insert_framed_area(allocator, VirtAddr(user_stack_top), VirtAddr(user_stack_top), rwu) {
            return None;
        }
        proof {
            assert(floor_spec(user_stack_top) == max_end_vpn + 3);
            assert(ceil_spec(user_stack_top) == max_end_vpn + 3);
            lemma_prefix_covers(areas1, view1, m.areas(), m.view(), n + 1, (max_end_vpn + 3) as int, (max_end_vpn + 3) as int);
            lemma_domain_step(areas1, view1, m.areas(), m.view(), (max_end_vpn + 3) as int, (max_end_vpn + 3) as int);
            lemma_prefix_fresh(areas1, m.areas(), n + 1, old(allocator).allocated(), alloc1, allocator.allocated());
            assert(same_entry(m.view(), view1, TRAMPOLINE_VPN));
            assert(same_entry(m.view(), view1, max_end_vpn));
        }
        // the trap context, just below the trampoline
        let ghost view2 = m.view();
        let ghost areas2 = m.areas();
        let ghost alloc2 = allocator.allocated();
        let rw = MapPermission::from_bits(MAP_PERM_R | MAP_PERM_W);
        let tc = VirtAddr::from(TRAP_CONTEXT);
        let tr = VirtAddr::from(TRAMPOLINE);
        proof {
            assert(TRAP_CONTEXT % crate::address::VA_LIMIT == 0x7f_ffff_e000);
            assert(TRAMPOLINE % crate::address::VA_LIMIT == 0x7f_ffff_f000);
        }
        proof {
            if g {
                assert(same_entry(view2, view1, 0x7ff_fffe));
                assert(!in_some_segment(segments@, n as int, 0x7ff_fffe)) by {
                    if in_some_segment(segments@, n as int, 0x7ff_fffe) {
                        assert(in_some_segment(segments@, segments@.len() as int, 0x7ff_fffe));
                    }
                };
                assert forall|v: u64| 0x7ff_fffe <= v < TRAMPOLINE_VPN implies !#[trigger] view2.contains_key(v) by {
                    assert(v == 0x7ff_fffe);
                };
            }
        }
        if !m.insert_framed_area(allocator, tc, tr, rw) {
            return None;
        }
        proof {
            assert(floor_spec(tc.0) == 0x7ff_fffe);
            assert(ceil_spec(tr.0) == TRAMPOLINE_VPN);
            lemma_prefix_covers(areas2, view2, m.areas(), m.view(), n + 2, 0x7ff_fffe, TRAMPOLINE_VPN as int);
            lemma_domain_step(areas2, view2, m.areas(), m.view(), 0x7ff_fffe, TRAMPOLINE_VPN as int);
            lemma_prefix_fresh(areas2, m.areas(), n + 2, old(allocator).allocated(), alloc2, allocator.allocated());
            assert(same_entry(m.view(), view2, TRAMPOLINE_VPN));
            assert(same_entry(m.view(), view2, max_end_vpn));
            lemma_fresh_weaken(m.areas()[n + 2], 0x7ff_fffe, TRAMPOLINE_VPN as int,
                alloc2, allocator.allocated(), old(allocator).allocated(), allocator.allocated());
            assert forall|j: int| 0 <= j < n implies #[trigger] holds_bytes(m.areas()[j], segment_bytes(elf_data@, segments@[j])) by {
                assert(m.areas()[j] == seg_areas[j]);
            };
            assert forall|j: int| 0 <= j < n implies #[trigger] segment_loaded(m.areas()[j], segments@[j], m.view()) by {
                assert(m.areas()[j] == seg_areas[j]);
                assert(segment_loaded(seg_areas[j], segments@[j], view0));
            };
            assert forall|j: int| 0 <= j < n implies #[trigger] m.areas()[j].fresh_frames(
                m.areas()[j].start() as int,
                m.areas()[j].end() as int,
                old(allocator).allocated(),
                allocator.allocated(),
            ) by {
                assert(m.areas()[j] == seg_areas[j]);
            };
            assert(user_stack_top / PAGE_SIZE == max_end_vpn + 3);
            if n > 0 {
                assert(segment_loaded(m.areas()[n - 1], segments@[n - 1], m.view()));
                assert(segments@.last() == segments@[n - 1]);
            }
            assert(user_space(m, segments@, elf_data@, trampoline_pa, user_stack_top));
        }
        Some((m, user_stack_top, entry))
    }

    /// The index of the first segment that starts at page `start_vpn`.
    fn find_area(&self, start_vpn: u64) -> (r: Option<usize>)
        ensures
            r matches Some(i) ==> i < self.areas().len() && self.areas()[i as int].start() == start_vpn
                && forall|j: int| 0 <= j < i ==> #[trigger] self.areas()[j].start() != start_vpn,
            r is None ==> forall|i: int| 0 <= i < self.areas().len() ==> #[trigger] self.areas()[i].start() != start_vpn,
    {
        let mut i: usize = 0;
        while i < self.areas.len()
            invariant
                i <= self.areas().len(),
                forall|j: int| 0 <= j < i ==> #[trigger] self.areas()[j].start() != start_vpn,
            decreases self.areas().len() - i,
        {
            if self.areas[i].get_start().0 == start_vpn {
                return Some(i);
            }
            i = i + 1;
        }
        None
    }

    /// The index of the first segment that starts at page `vpn`, if any.
    pub open spec fn first_area_at(&self, vpn: u64) -> Option<int> {
        if exists|i: int| 0 <= i < self.areas().len() && #[trigger] self.areas()[i].start() == vpn {
            Some(choose|i: int| 0 <= i < self.areas().len() && #[trigger] self.areas()[i].start() == vpn
                && forall|j: int| 0 <= j < i ==> #[trigger] self.areas()[j].start() != vpn)
        } else {
            None
        }
    }

    pub(crate) proof fn lemma_first_area_at(&self, vpn: u64, i: int)
        requires
            0 <= i < self.areas().len(),
            self.areas()[i].start() == vpn,
            forall|j: int| 0 <= j < i ==> #[trigger] self.areas()[j].start() != vpn,
        ensures
            self.first_area_at(vpn) == Some(i),
    {
        let k = choose|k: int| 0 <= k < self.areas().len() && #[trigger] self.areas()[k].start() == vpn
            && forall|j: int| 0 <= j < k ==> #[trigger] self.areas()[j].start() != vpn;
        if k < i {
            assert(self.areas()[k].start() != vpn);
        }
        if i < k {
            assert(self.areas()[i].start() != vpn);
        }
    }

    /// Moves the end of the first segment that starts at the page of `start`
    /// down to the page boundary at or above `new_end`, unmapping the pages
    /// above it. `false`, with nothing changed, exactly when no segment
    /// starts there or `new_end` lies outside that segment.
    #[verifier::rlimit(50)]
    pub fn shrink_to(&mut self, allocator: &mut StackFrameAllocator, start: VirtAddr, new_end: VirtAddr) -> (r: bool)
        requires
            old(self).wf_in(old(allocator)),
        ensures
            final(self).wf_in(final(allocator)),
            final(allocator).end() == old(allocator).end(),
            final(self).table().root() == old(self).table().root(),
            final(self).areas().len() == old(self).areas().len(),
            r == (old(self).first_area_at(floor_spec(start.0) as u64) matches Some(i) && floor_spec(start.0)
                <= ceil_spec(new_end.0) <= old(self).areas()[i].end()),
            !r ==> final(self).view() == old(self).view() && final(self).areas() == old(self).areas(),
            r ==> ({
                let i = old(self).first_area_at(floor_spec(start.0) as u64).unwrap();
                &&& final(self).areas()[i].end() == ceil_spec(new_end.0)
                &&& final(self).areas()[i].start() == old(self).areas()[i].start()
                &&& same_outside(final(self).view(), old(self).view(), ceil_spec(new_end.0), old(self).areas()[i].end() as int)
                &&& forall|v: u64| ceil_spec(new_end.0) <= v < old(self).areas()[i].end() ==> !#[trigger] final(self).view().contains_key(v)
                &&& old(self).areas()[i].kind() == MapType::Framed ==> forall|v: u64|
                    ceil_spec(new_end.0) <= v < old(self).areas()[i].end() && old(self).areas()[i].frames().contains_key(v)
                        && !old(self).table().node_frames().contains(old(self).areas()[i].frames()[v].ppn.0)
                        ==> !#[trigger] final(allocator).allocated().contains(old(self).areas()[i].frames()[v].ppn.0)
            }),
    {
        let sv = start.floor();
        let nv = new_end.ceil();
        match self.find_area(sv.0) {
            None => {
                proof {
                    assert(old(self).first_area_at(sv.0) is None);
                }
                false
            },
            Some(i) => {
                proof {
                    self.lemma_first_area_at(sv.0, i as int);
                    assert(self.areas()[i as int].wf());
                }
                if nv.0 < self.areas[i].get_start().0 || nv.0 > self.areas[i].get_end().0 {
                    return false;
                }
                let ghost areas0 = old(self).areas();
                let mut area = self.areas.remove(i);
                proof {
                    assert(area == areas0[i as int]);
                }
                area.shrink_to(&mut self.page_table, allocator, nv);
                self.areas.insert(i, area);
                proof {
                    assert forall|j: int| 0 <= j < self.areas().len() implies #[trigger] self.areas()[j].wf() by {
                        if j != i {
                            assert(self.areas()[j] == areas0[j]);
                        }
                    };
                    assert(self.areas()[i as int] == area);
                }
                true
            },
        }
    }

    /// Moves the end of the first segment that starts at the page of `start`
    /// up to the page boundary at or above `new_end`, mapping the new pages.
    /// `false`, with nothing changed, when no segment starts there or
    /// `new_end` lies below its end or outside the window; `true` whenever
    /// such a segment exists, the new pages are unmapped and frames suffice.
    #[verifier::rlimit(50)]
    pub fn append_to(&mut self, allocator: &mut StackFrameAllocator, start: VirtAddr, new_end: VirtAddr) -> (r: bool)
        requires
            old(self).wf_in(old(allocator)),
        ensures
            final(self).wf_in(final(allocator)),
            final(allocator).end() == old(allocator).end(),
            final(self).table().root() == old(self).table().root(),
            final(self).areas().len() == old(self).areas().len(),
            old(self).first_area_at(floor_spec(start.0) as u64) is None ==> !r,
            !(old(self).first_area_at(floor_spec(start.0) as u64) matches Some(i) && old(self).areas()[i].end()
                <= ceil_spec(new_end.0) <= VPN_LIMIT) ==> !r && final(self).view() == old(self).view()
                && final(self).areas() == old(self).areas(),
            (old(self).first_area_at(floor_spec(start.0) as u64) matches Some(i) && old(self).areas()[i].end()
                <= ceil_spec(new_end.0) <= VPN_LIMIT && (forall|v: u64| old(self).areas()[i].end() <= v < ceil_spec(new_end.0)
                ==> !#[trigger] old(self).view().contains_key(v))
                && old(allocator).free_count() >= 3 * (ceil_spec(new_end.0) - old(self).areas()[i].end())
                && old(self).table().node_frames().subset_of(old(allocator).allocated())) ==> r,
            !r && old(self).table().node_frames().subset_of(old(allocator).allocated()) ==> final(self).view()
                == old(self).view(),
            r ==> ({
                let i = old(self).first_area_at(floor_spec(start.0) as u64).unwrap();
                &&& final(self).areas()[i].end() == ceil_spec(new_end.0)
                &&& final(self).areas()[i].start() == old(self).areas()[i].start()
                &&& same_outside(final(self).view(), old(self).view(), old(self).areas()[i].end() as int, ceil_spec(new_end.0))
                &&& final(self).areas()[i].covers(final(self).view(), old(self).areas()[i].end() as int, ceil_spec(new_end.0))
                &&& final(self).areas()[i].perm() == old(self).areas()[i].perm()
                &&& final(self).areas()[i].kind() == old(self).areas()[i].kind()
                &&& old(self).areas()[i].kind() == MapType::Framed ==> final(self).areas()[i].fresh_frames(
                    old(self).areas()[i].end() as int,
                    ceil_spec(new_end.0),
                    old(allocator).allocated(),
                    final(allocator).allocated(),
                )
            }),
    {
        let sv = start.floor();
        let nv = new_end.ceil();
        match self.find_area(sv.0) {
            None => {
                proof {
                    assert(old(self).first_area_at(sv.0) is None);
                }
                false
            },
            Some(i) => {
                proof {
                    self.lemma_first_area_at(sv.0, i as int);
                    assert(self.areas()[i as int].wf());
                }
                if nv.0 < self.areas[i].get_end().0 || nv.0 > VPN_LIMIT {
                    return false;
                }
                let ghost areas0 = old(self).areas();
                let mut area = self.areas.remove(i);
                proof {
                    assert(area == areas0[i as int]);
                    assert(old(self).view() == self.page_table@);
                    assert(old(self).table() == self.page_table);
                }
                let ok = area.append_to(&mut self.page_table, allocator, nv);
                self.areas.insert(i, area);
                proof {
                    assert(self.view() == self.page_table@);
                }
                proof {
                    assert forall|j: int| 0 <= j < self.areas().len() implies #[trigger] self.areas()[j].wf() by {
                        if j != i {
                            assert(self.areas()[j] == areas0[j]);
                        }
                    };
                    assert(self.areas()[i as int] == area);
                }
                ok
            },
        }
    }

    /// Gives back the frames of every framed segment. The mappings stay in
    /// the table; the address space is not used again.
    pub fn recycle_data_pages(&mut self, allocator: &mut StackFrameAllocator)
        requires
            old(self).wf_in(old(allocator)),
        ensures
            final(self).wf_in(final(allocator)),
            final(allocator).end() == old(allocator).end(),
            final(allocator).free_count() >= old(allocator).free_count(),
            final(self).areas().len() == old(self).areas().len(),
            final(self).view() == old(self).view(),
            final(self).table().root() == old(self).table().root(),
            forall|i: int, v: u64| 0 <= i < final(self).areas().len() && final(self).areas()[i].start() <= v < final(self).areas()[i].end()
                ==> !#[trigger] final(self).areas()[i].frames().contains_key(v),
            final(allocator).allocated().subset_of(old(allocator).allocated()),
            forall|i: int, v: u64|
                0 <= i < old(self).areas().len() && old(self).areas()[i].start() <= v < old(self).areas()[i].end()
                    && old(self).areas()[i].frames().contains_key(v) && !old(self).table().node_frames().contains(
                    old(self).areas()[i].frames()[v].ppn.0,
                ) ==> !#[trigger] final(allocator).allocated().contains(old(self).areas()[i].frames()[v].ppn.0),
            forall|p: u64|
                old(allocator).allocated().contains(p) && !#[trigger] final(allocator).allocated().contains(p) ==> exists|i: int, v: u64|
                    0 <= i < old(self).areas().len() && old(self).areas()[i].start() <= v < old(self).areas()[i].end()
                        && #[trigger] old(self).areas()[i].frames().contains_key(v) && old(self).areas()[i].frames()[v].ppn.0 == p,
    {
        let mut i: usize = 0;
        while i < self.areas.len()
            invariant
                self.wf_in(allocator),
                allocator.end() == old(allocator).end(),
                allocator.free_count() >= old(allocator).free_count(),
                self.areas().len() == old(self).areas().len(),
                self.page_table == old(self).page_table,
                i <= self.areas().len(),
                forall|j: int, v: u64| 0 <= j < i && self.areas()[j].start() <= v < self.areas()[j].end()
                    ==> !#[trigger] self.areas()[j].frames().contains_key(v),
                forall|j: int| i <= j < self.areas().len() ==> #[trigger] self.areas()[j] == old(self).areas()[j],
                allocator.allocated().subset_of(old(allocator).allocated()),
                forall|j: int, v: u64|
                    0 <= j < i && old(self).areas()[j].start() <= v < old(self).areas()[j].end()
                        && old(self).areas()[j].frames().contains_key(v) && !old(self).table().node_frames().contains(
                        old(self).areas()[j].frames()[v].ppn.0,
                    ) ==> !#[trigger] allocator.allocated().contains(old(self).areas()[j].frames()[v].ppn.0),
                forall|p: u64|
                    old(allocator).allocated().contains(p) && !#[trigger] allocator.allocated().contains(p) ==> exists|j: int, v: u64|
                        0 <= j < i && old(self).areas()[j].start() <= v < old(self).areas()[j].end()
                            && #[trigger] old(self).areas()[j].frames().contains_key(v) && old(self).areas()[j].frames()[v].ppn.0 == p,
            decreases self.areas().len() - i,
        {
            let ghost areas0 = self.areas();
            let ghost a0 = allocator.allocated();
            let mut area = self.areas.remove(i);
            proof {
                assert(area == areas0[i as int]);
                assert(areas0[i as int].wf());
            }
            area.release_frames(&self.page_table, allocator);
            self.areas.insert(i, area);
            proof {
                assert forall|j: int| 0 <= j < self.areas().len() implies #[trigger] self.areas()[j].wf() by {
                    if j != i {
                        assert(self.areas()[j] == areas0[j]);
                    }
                };
                assert forall|j: int, v: u64| 0 <= j < i + 1 && self.areas()[j].start() <= v < self.areas()[j].end()
                    implies !#[trigger] self.areas()[j].frames().contains_key(v) by {
                    if j != i {
                        assert(self.areas()[j] == areas0[j]);
                    }
                };
                let old_area = old(self).areas()[i as int];
                assert(old_area == areas0[i as int]);
                assert(old(self).table() == self.page_table);
                assert forall|j: int| i + 1 <= j < self.areas().len() implies #[trigger] self.areas()[j] == old(self).areas()[j] by {
                    assert(self.areas()[j] == areas0[j]);
                };
                assert forall|j: int, v: u64|
                    0 <= j < i + 1 && old(self).areas()[j].start() <= v < old(self).areas()[j].end()
                        && old(self).areas()[j].frames().contains_key(v) && !old(self).table().node_frames().contains(
                        old(self).areas()[j].frames()[v].ppn.0,
                    ) implies !#[trigger] allocator.allocated().contains(old(self).areas()[j].frames()[v].ppn.0) by {
                    if j < i {
                        assert(!a0.contains(old(self).areas()[j].frames()[v].ppn.0));
                    } else {
                        assert(areas0[i as int].start() <= v < areas0[i as int].end());
                        assert(areas0[i as int].frames().contains_key(v));
                        assert(!self.page_table.node_frames().contains(areas0[i as int].frames()[v].ppn.0));
                        assert(!allocator.allocated().contains(areas0[i as int].frames()[v].ppn.0));
                    }
                };
                assert forall|p: u64|
                    old(allocator).allocated().contains(p) && !#[trigger] allocator.allocated().contains(p) implies exists|j: int, v: u64|
                        0 <= j < i + 1 && old(self).areas()[j].start() <= v < old(self).areas()[j].end()
                            && #[trigger] old(self).areas()[j].frames().contains_key(v) && old(self).areas()[j].frames()[v].ppn.0 == p by {
                    if a0.contains(p) {
                        let v = choose|v: u64| old_area.start() <= v < old_area.end() && #[trigger] old_area.frames().contains_key(v)
                            && old_area.frames()[v].ppn.0 == p;
                        assert(old(self).areas()[i as int].frames().contains_key(v));
                    } else {
                        let (j, v) = choose|j: int, v: u64| 0 <= j < i && old(self).areas()[j].start() <= v < old(self).areas()[j].end()
                            && #[trigger] old(self).areas()[j].frames().contains_key(v) && old(self).areas()[j].frames()[v].ppn.0 == p;
                        assert(old(self).areas()[j].frames().contains_key(v));
                    }
                };
            }
            i = i + 1;
        }
    }

    /// The chunks of physical memory that hold `[ptr, ptr + len)` of this
    /// address space, split at page boundaries.
    pub fn translate_buffer(&self, ptr: u64, len: u64) -> (r: Option<Vec<crate::page_table::ByteChunk>>)
        requires
            self.table().wf(),
        ensures
            r matches Some(chunks) ==> crate::page_table::total_len(chunks@) == len && forall|i: int|
                0 <= i < chunks@.len() ==> #[trigger] crate::page_table::chunk_at(
                    self.view(),
                    chunks@[i],
                    ptr + crate::page_table::total_len(chunks@.take(i)),
                ),
            r is None <==> !crate::page_table::translate_byte_buffer_ok(self.view(), ptr, len),
            r matches Some(chunks) ==> forall|i: int| 0 <= i < chunks@.len() - 1 ==> (#[trigger] chunks@[i]).end == PAGE_SIZE,
    {
        crate::page_table::translate_byte_buffer(&self.page_table, ptr, len)
    }

    /// The sections of `layout`, checked: `None` when a device window's end
    /// does not fit in a machine word.
    fn sections_of(layout: &KernelLayout) -> (r: Option<Vec<KernelSection>>)
        ensures
            r matches Some(v) ==> v@ == kernel_sections(layout),
            r is None ==> exists|i: int| 0 <= i < layout.mmio@.len() && #[trigger] layout.mmio@[i].0 + layout.mmio@[i].1 > u64::MAX,
    {
        let rw = MAP_PERM_R | MAP_PERM_W;
        let mut v: Vec<KernelSection> = Vec::new();
        v.push(KernelSection { start: layout.stext, end: layout.etext, perm: MAP_PERM_R | MAP_PERM_X });
        v.push(KernelSection { start: layout.srodata, end: layout.erodata, perm: MAP_PERM_R });
        v.push(KernelSection { start: layout.sdata, end: layout.edata, perm: rw });
        v.push(KernelSection { start: layout.sbss_with_stack, end: layout.ebss, perm: rw });
        v.push(KernelSection { start: layout.ekernel, end: layout.memory_end, perm: rw });
        let ghost base = v@;
        let mut i: usize = 0;
        while i < layout.mmio.len()
            invariant
                i <= layout.mmio@.len(),
                rw == MAP_PERM_R | MAP_PERM_W,
                base.len() == 5,
                v@ == base + Seq::new(
                    i as nat,
                    |j: int| KernelSection {
                        start: layout.mmio@[j].0,
                        end: (layout.mmio@[j].0 + layout.mmio@[j].1) as u64,
                        perm: MAP_PERM_R | MAP_PERM_W,
                    },
                ),
            decreases layout.mmio@.len() - i,
        {
            let (b, l) = layout.mmio[i];
            proof {
                assert(b == layout.mmio@[i as int].0 && l == layout.mmio@[i as int].1);
            }
            if b > u64::MAX - l {
                return None;
            }
            let ghost v0 = v@;
            v.push(KernelSection { start: b, end: b + l, perm: rw });
            i = i + 1;
            proof {
                assert(rw == MAP_PERM_R | MAP_PERM_W);
                assert(v@ == v0.push(KernelSection { start: b, end: (b + l) as u64, perm: rw }));
                assert(v@ =~= base + Seq::new(
                    i as nat,
                    |j: int| KernelSection {
                        start: layout.mmio@[j].0,
                        end: (layout.mmio@[j].0 + layout.mmio@[j].1) as u64,
                        perm: MAP_PERM_R | MAP_PERM_W,
                    },
                ));
            }
        }
        proof {
            assert(v@ =~= kernel_sections(layout));
        }
        Some(v)
    }

    /// The kernel address space: the trampoline, then each section of
    /// `layout` identity-mapped with its permissions. `None` when a section
    /// is out of order or outside the address window, two of them overlap,
    /// or frames run out.
    pub fn new_kernel(allocator: &mut StackFrameAllocator, layout: &KernelLayout) -> (r: Option<MemorySet>)
        requires
            old(allocator).wf(),
            old(allocator).end() <= PPN_LIMIT,
        ensures
            final(allocator).wf(),
            final(allocator).end() == old(allocator).end(),
            r matches Some(m) ==> {
                let secs = kernel_sections(layout);
                &&& m.wf_in(final(allocator))
                &&& m.areas().len() == secs.len()
                &&& forall|i: int| 0 <= i < secs.len() ==> #[trigger] section_mapped(m.areas()[i], secs[i], m.view())
                &&& m.view().contains_key(TRAMPOLINE_VPN)
                &&& m.view()[TRAMPOLINE_VPN] == pte_of(
                    floor_spec((layout.strampoline % crate::address::PA_LIMIT) as u64) as u64,
                    (PTE_R | PTE_X) | PTE_V,
                )
            },
            kernel_space_fits(layout, old(allocator).free_count()) ==> r is Some,
    {
        let ghost g = kernel_space_fits(layout, old(allocator).free_count());
        let secs = match Self::sections_of(layout) {
            None => {
                proof {
                    if g {
                        let i = choose|i: int| 0 <= i < layout.mmio@.len() && #[trigger] layout.mmio@[i].0 + layout.mmio@[i].1 > u64::MAX;
                        assert(layout.mmio@[i].0 + layout.mmio@[i].1 <= u64::MAX);
                    }
                }
                return None;
            },
            Some(v) => v,
        };
        proof {
            if g {
                assert(secs@.take(0) =~= Seq::<KernelSection>::empty());
                lemma_total_pages_bound(secs@, 0);
            }
        }
        let mut m = match MemorySet::new_bare(allocator) {
            None => {
                return None;
            },
            Some(m) => m,
        };
        proof {
            assert(!m.view().contains_key(TRAMPOLINE_VPN));
        }
        if !m.map_trampoline(allocator, layout.strampoline) {
            return None;
        }
        let ghost tramp = m.view()[TRAMPOLINE_VPN];
        proof {
            assert(secs@.take(0) =~= Seq::<KernelSection>::empty());
            assert forall|v: u64| #[trigger] m.view().contains_key(v) implies v == TRAMPOLINE_VPN by {};
        }
        let mut i: usize = 0;
        while i < secs.len()
            invariant
                g == kernel_space_fits(layout, old(allocator).free_count()),
                g ==> allocator.free_count() >= 3 * (total_pages(secs@) - total_pages(secs@.take(i as int)))
                    && m.table().node_frames().subset_of(allocator.allocated()),
                forall|v: u64| #[trigger] m.view().contains_key(v) ==> v == TRAMPOLINE_VPN || in_some_section(secs@, i as int, v),
                m.wf_in(allocator),
                allocator.end() == old(allocator).end(),
                i <= secs@.len(),
                secs@ == kernel_sections(layout),
                m.areas().len() == i,
                m.view().contains_key(TRAMPOLINE_VPN),
                m.view()[TRAMPOLINE_VPN] == tramp,
                forall|j: int| 0 <= j < i ==> #[trigger] section_mapped(m.areas()[j], secs@[j], m.view()),
            decreases secs@.len() - i,
        {
            let sec = secs[i];
            proof {
                if g {
                    assert(sec.start <= sec.end <= VA_LIMIT);
                }
            }
            if sec.start > sec.end || sec.end > crate::address::VA_LIMIT {
                return None;
            }
            let ghost view0 = m.view();
            let ghost areas0 = m.areas();
            let ghost free0 = allocator.free_count();
            proof {
                lemma_total_pages_step(secs@, i as int);
                if g {
                    lemma_total_pages_bound(secs@, i as int + 1);
                    assert forall|v: u64| floor_spec(sec.start) <= v < ceil_spec(sec.end) implies !#[trigger] view0.contains_key(v) by {
                        if view0.contains_key(v) {
                            assert(v != TRAMPOLINE_VPN);
                            let j = choose|j: int| 0 <= j < i && floor_spec(#[trigger] secs@[j].start) <= v < ceil_spec(secs@[j].end);
                            assert(ceil_spec(secs@[j].end) <= floor_spec(secs@[i as int].start)
                                || ceil_spec(secs@[i as int].end) <= floor_spec(secs@[j].start));
                        }
                    };
                }
            }
            if !m.insert_area(allocator, VirtAddr(sec.start), VirtAddr(sec.end), MapType::Identical, MapPermission::from_bits(sec.perm)) {
                return None;
            }
            proof {
                let lo = floor_spec(sec.start);
                let hi = ceil_spec(sec.end);
                assert forall|j: int| 0 <= j < i + 1 implies #[trigger] section_mapped(m.areas()[j], secs@[j], m.view()) by {
                    if j < i {
                        assert(m.areas()[j] == areas0[j]);
                        assert(section_mapped(areas0[j], secs@[j], view0));
                        lemma_covers_keep(areas0[j], view0, m.view(), areas0[j].start() as int, areas0[j].end() as int, lo, hi);
                    }
                };
                assert(same_entry(m.view(), view0, TRAMPOLINE_VPN)) by {
                    if lo <= TRAMPOLINE_VPN < hi {
                        assert(!view0.contains_key(TRAMPOLINE_VPN));
                    }
                };
                assert forall|v: u64| #[trigger] m.view().contains_key(v) implies v == TRAMPOLINE_VPN
                    || in_some_section(secs@, i + 1, v) by {
                    if lo <= v < hi {
                        assert(floor_spec(secs@[i as int].start) <= v < ceil_spec(secs@[i as int].end));
                    } else {
                        assert(same_entry(m.view(), view0, v));
                        if v != TRAMPOLINE_VPN {
                            let j = choose|j: int| 0 <= j < i && floor_spec(#[trigger] secs@[j].start) <= v < ceil_spec(secs@[j].end);
                            assert(floor_spec(secs@[j].start) <= v < ceil_spec(secs@[j].end));
                        }
                    }
                };
            }
            i = i + 1;
        }
        Some(m)
    }

}

/// A segment added over an unmapped range leaves every earlier segment
/// covering what it covered.
proof fn lemma_prefix_covers(
    areas0: Seq<MapArea>,
    view0: Map<u64, PageTableEntry>,
    areas1: Seq<MapArea>,
    view1: Map<u64, PageTableEntry>,
    n: int,
    lo: int,
    hi: int,
)
    requires
        0 <= n <= areas0.len() <= areas1.len(),
        forall|j: int| 0 <= j < areas0.len() ==> #[trigger] areas1[j] == areas0[j],
        same_outside(view1, view0, lo, hi),
        forall|v: u64| lo <= v < hi ==> !#[trigger] view0.contains_key(v),
    ensures
        forall|j: int| 0 <= j < areas0.len() && areas0[j].covers(view0, areas0[j].start() as int, areas0[j].end() as int)
            ==> #[trigger] areas1[j].covers(view1, areas1[j].start() as int, areas1[j].end() as int),
        view0.contains_key(TRAMPOLINE_VPN) && !(lo <= TRAMPOLINE_VPN < hi) ==> view1.contains_key(TRAMPOLINE_VPN),
{
    assert forall|j: int| 0 <= j < areas0.len() && areas0[j].covers(view0, areas0[j].start() as int, areas0[j].end() as int)
        implies #[trigger] areas1[j].covers(view1, areas1[j].start() as int, areas1[j].end() as int) by {
        assert(areas1[j] == areas0[j]);
        lemma_covers_keep(areas0[j], view0, view1, areas0[j].start() as int, areas0[j].end() as int, lo, hi);
    };
    if view0.contains_key(TRAMPOLINE_VPN) && !(lo <= TRAMPOLINE_VPN < hi) {
        assert(same_entry(view1, view0, TRAMPOLINE_VPN));
    }
}

/// Address spaces are isolated. Take two address spaces, each built by
/// `from_elf` (which hands every page of a loaded segment, of the user stack
/// and of the trap-context page a frame that the allocator had not handed
/// out before and still has out after), where the
/// second was built while every frame handed out for the first was still
/// out. Then a page that a framed segment of the first maps, and any page
/// that a framed segment of the second maps (the same page number or
/// another), lie in two different frames, so what one task writes there the
/// other cannot see.
pub proof fn lemma_isolation(
    first: MemorySet,
    i: int,
    second: MemorySet,
    j: int,
    vpn: u64,
    other_vpn: u64,
    before_first: StackFrameAllocator,
    after_first: StackFrameAllocator,
    before_second: StackFrameAllocator,
    after_second: StackFrameAllocator,
)
    requires
        after_first.wf(),
        after_first.end() <= PPN_LIMIT,
        after_second.wf(),
        after_second.end() <= PPN_LIMIT,
        0 <= i < first.areas().len(),
        first.areas()[i].kind() == MapType::Framed,
        first.areas()[i].start() <= vpn < first.areas()[i].end(),
        first.areas()[i].covers(first.view(), first.areas()[i].start() as int, first.areas()[i].end() as int),
        first.areas()[i].fresh_frames(
            first.areas()[i].start() as int,
            first.areas()[i].end() as int,
            before_first.allocated(),
            after_first.allocated(),
        ),
        0 <= j < second.areas().len(),
        second.areas()[j].kind() == MapType::Framed,
        second.areas()[j].start() <= other_vpn < second.areas()[j].end(),
        second.areas()[j].covers(second.view(), second.areas()[j].start() as int, second.areas()[j].end() as int),
        second.areas()[j].fresh_frames(
            second.areas()[j].start() as int,
            second.areas()[j].end() as int,
            before_second.allocated(),
            after_second.allocated(),
        ),
        after_first.allocated().subset_of(before_second.allocated()),
    ensures
        first.view().contains_key(vpn),
        second.view().contains_key(other_vpn),
        crate::page_table::pte_ppn(first.view()[vpn]) != crate::page_table::pte_ppn(second.view()[other_vpn]),
{
    let a = first.areas()[i];
    let b = second.areas()[j];
    assert(a.page_mapped(first.view(), vpn));
    assert(b.page_mapped(second.view(), other_vpn));
    assert(a.frame_fresh(vpn, before_first.allocated(), after_first.allocated()));
    assert(b.frame_fresh(other_vpn, before_second.allocated(), after_second.allocated()));
    let p = a.frames()[vpn].ppn.0;
    let q = b.frames()[other_vpn].ppn.0;
    assert(p != q);
    crate::page_table::lemma_pte_fields(p, a.perm() | PTE_V);
    crate::page_table::lemma_pte_fields(q, b.perm() | PTE_V);
}

/// Sets up memory management: a frame allocator over the memory between the
/// end of the kernel image and `MEMORY_END`, and the kernel address space of
/// `layout`. `None` when the kernel image ends above that memory or the
/// address space cannot be built.
pub fn init(layout: &KernelLayout) -> (r: Option<(StackFrameAllocator, MemorySet)>)
    ensures
        r matches Some((a, m)) ==> {
            &&& a.wf()
            &&& a.end() == crate::config::MEMORY_END / PAGE_SIZE
            &&& m.wf_in(&a)
            &&& m.areas().len() == kernel_sections(layout).len()
            &&& forall|i: int| 0 <= i < m.areas().len() ==> #[trigger] section_mapped(m.areas()[i], kernel_sections(layout)[i], m.view())
            &&& m.view().contains_key(TRAMPOLINE_VPN)
        },
        layout.ekernel > crate::config::MEMORY_END ==> r is None,
        layout.ekernel <= crate::config::MEMORY_END && kernel_space_fits(
            layout,
            crate::config::MEMORY_END / PAGE_SIZE - ceil_spec(layout.ekernel),
        ) ==> r is Some,
{
    if layout.ekernel > crate::config::MEMORY_END {
        return None;
    }
    let mut allocator = StackFrameAllocator::new();
    crate::frame_allocator::init_frame_allocator(&mut allocator, layout.ekernel);
    match MemorySet::new_kernel(&mut allocator, layout) {
        None => None,
        Some(m) => Some((allocator, m)),
    }
}

/// Freshness survives a smaller set before and a larger set after.
proof fn lemma_fresh_weaken(a: MapArea, lo: int, hi: int, b1: Set<u64>, a1: Set<u64>, b2: Set<u64>, a2: Set<u64>)
    requires
        a.fresh_frames(lo, hi, b1, a1),
        b2.subset_of(b1),
        a1.subset_of(a2),
    ensures
        a.fresh_frames(lo, hi, b2, a2),
{
    assert forall|v: u64| lo <= v < hi implies #[trigger] a.frame_fresh(v, b2, a2) by {
        assert(a.frame_fresh(v, b1, a1));
    };
}

/// The first `n` segments keep their fresh frames while the allocator hands
/// out more.
proof fn lemma_prefix_fresh(areas0: Seq<MapArea>, areas1: Seq<MapArea>, n: int, before: Set<u64>, a1: Set<u64>, a2: Set<u64>)
    requires
        0 <= n <= areas0.len() <= areas1.len(),
        forall|j: int| 0 <= j < areas0.len() ==> #[trigger] areas1[j] == areas0[j],
        forall|j: int| 0 <= j < n ==> #[trigger] areas0[j].fresh_frames(areas0[j].start() as int, areas0[j].end() as int, before, a1),
        a1.subset_of(a2),
    ensures
        forall|j: int| 0 <= j < n ==> #[trigger] areas1[j].fresh_frames(areas1[j].start() as int, areas1[j].end() as int, before, a2),
{
    assert forall|j: int| 0 <= j < n implies #[trigger] areas1[j].fresh_frames(areas1[j].start() as int, areas1[j].end() as int, before, a2) by {
        assert(areas1[j] == areas0[j]);
        assert(areas0[j].fresh_frames(areas0[j].start() as int, areas0[j].end() as int, before, a1));
        lemma_fresh_weaken(areas0[j], areas0[j].start() as int, areas0[j].end() as int, before, a1, before, a2);
    };
}

/// The layout `from_elf` gives an image of `segments` whose user stack ends
/// at `sp`: each segment loaded with its bytes, then the user stack, an
/// empty heap segment at the stack top and the trap-context page, all
/// framed; the trampoline; an unmapped guard page below the stack; and
/// nothing else mapped.
pub open spec fn user_space(m: MemorySet, segments: Seq<ElfSegment>, elf_data: Seq<u8>, trampoline_pa: u64, sp: u64) -> bool {
    let n = segments.len() as int;
    &&& sp <= crate::address::VA_LIMIT
    &&& m.areas().len() == n + 3
    &&& forall|i: int| 0 <= i < n ==> #[trigger] segment_loaded(m.areas()[i], segments[i], m.view())
    &&& sp == user_stack_top(if n == 0 { 0 } else { m.areas()[n - 1].end() })
    &&& sp == user_stack_top(last_end(segments) as u64)
    &&& m.areas()[n].start() == sp / PAGE_SIZE - USER_STACK_SIZE / PAGE_SIZE
    &&& m.areas()[n].end() == sp / PAGE_SIZE
    &&& m.areas()[n].perm() == (MAP_PERM_R | MAP_PERM_W) | MAP_PERM_U
    &&& m.areas()[n].covers(m.view(), m.areas()[n].start() as int, m.areas()[n].end() as int)
    &&& m.areas()[n + 1].start() == sp / PAGE_SIZE && m.areas()[n + 1].end() == sp / PAGE_SIZE
    &&& m.areas()[n + 2].start() == TRAP_CONTEXT % crate::address::VA_LIMIT / PAGE_SIZE
    &&& m.areas()[n + 2].end() == TRAMPOLINE_VPN
    &&& m.areas()[n + 2].perm() == MAP_PERM_R | MAP_PERM_W
    &&& m.areas()[n + 2].covers(m.view(), m.areas()[n + 2].start() as int, TRAMPOLINE_VPN as int)
    &&& m.view().contains_key(TRAMPOLINE_VPN)
    &&& m.view()[TRAMPOLINE_VPN] == pte_of(
        floor_spec((trampoline_pa % crate::address::PA_LIMIT) as u64) as u64,
        (PTE_R | PTE_X) | PTE_V,
    )
    &&& !m.view().contains_key((sp / PAGE_SIZE - 3) as u64)
    &&& forall|v: u64| #[trigger] m.view().contains_key(v) ==> v == TRAMPOLINE_VPN || in_some_area(m.areas(), v)
    &&& m.areas()[n].kind() == MapType::Framed
    &&& m.areas()[n + 1].kind() == MapType::Framed
    &&& m.areas()[n + 1].perm() == (MAP_PERM_R | MAP_PERM_W) | MAP_PERM_U
    &&& m.areas()[n + 2].kind() == MapType::Framed
    &&& forall|i: int| 0 <= i < n ==> #[trigger] holds_bytes(m.areas()[i], segment_bytes(elf_data, segments[i]))
}

/// Page `v` lies in one of `areas`.
pub open spec fn in_some_area(areas: Seq<MapArea>, v: u64) -> bool {
    exists|i: int| 0 <= i < areas.len() && (#[trigger] areas[i]).start() <= v < areas[i].end()
}

/// Adding a segment over `[lo, hi)` keeps every mapped page either the
/// trampoline or in some segment.
proof fn lemma_domain_step(
    areas0: Seq<MapArea>,
    view0: Map<u64, PageTableEntry>,
    areas1: Seq<MapArea>,
    view1: Map<u64, PageTableEntry>,
    lo: int,
    hi: int,
)
    requires
        forall|v: u64| #[trigger] view0.contains_key(v) ==> v == TRAMPOLINE_VPN || in_some_area(areas0, v),
        areas1.len() == areas0.len() + 1,
        forall|j: int| 0 <= j < areas0.len() ==> #[trigger] areas1[j] == areas0[j],
        areas1.last().start() == lo,
        areas1.last().end() == hi,
        same_outside(view1, view0, lo, hi),
    ensures
        forall|v: u64| #[trigger] view1.contains_key(v) ==> v == TRAMPOLINE_VPN || in_some_area(areas1, v),
{
    assert forall|v: u64| #[trigger] view1.contains_key(v) implies v == TRAMPOLINE_VPN || in_some_area(areas1, v) by {
        if lo <= v < hi {
            assert(areas1[areas1.len() - 1].start() <= v < areas1[areas1.len() - 1].end());
        } else {
            assert(same_entry(view1, view0, v));
            if v != TRAMPOLINE_VPN {
                let j = choose|j: int| 0 <= j < areas0.len() && (#[trigger] areas0[j]).start() <= v < areas0[j].end();
                assert(areas1[j] == areas0[j]);
            }
        }
    };
}

/// `a` and `b` map page `v` alike.
pub open spec fn same_entry(a: Map<u64, PageTableEntry>, b: Map<u64, PageTableEntry>, v: u64) -> bool {
    &&& a.contains_key(v) == b.contains_key(v)
    &&& b.contains_key(v) ==> a[v] == b[v]
}

/// `a` and `b` map every page outside `[lo, hi)` alike.
pub open spec fn same_outside(a: Map<u64, PageTableEntry>, b: Map<u64, PageTableEntry>, lo: int, hi: int) -> bool {
    forall|v: u64| !(lo <= v < hi) ==> #[trigger] same_entry(a, b, v)
}

/// Changing page `v` alone, just above `[lo, v)`, keeps the pages outside
/// `[lo, v + 1)` as they were.
proof fn lemma_same_outside_step(
    view0: Map<u64, PageTableEntry>,
    view1: Map<u64, PageTableEntry>,
    orig: Map<u64, PageTableEntry>,
    lo: int,
    v: u64,
)
    requires
        same_outside(view0, orig, lo, v as int),
        lo <= v,
        forall|u: u64| u != v ==> #[trigger] same_entry(view1, view0, u),
    ensures
        same_outside(view1, orig, lo, v + 1),
{
    assert forall|u: u64| !(lo <= u < v + 1) implies #[trigger] same_entry(view1, orig, u) by {
        assert(same_entry(view0, orig, u));
        assert(same_entry(view1, view0, u));
    };
}

/// The bytes of `data` that go to page `k` of a segment.
pub open spec fn chunk(data: Seq<u8>, k: int) -> Seq<u8> {
    let lo = k * PAGE_SIZE;
    let hi = if (k + 1) * PAGE_SIZE < data.len() {
        (k + 1) * PAGE_SIZE
    } else {
        data.len() as int
    };
    data.subrange(lo, hi)
}

/// Page `k` of a segment whose bytes were `b`, after `data` was copied in.
pub open spec fn page_after(b: Seq<u8>, data: Seq<u8>, k: int) -> Seq<u8> {
    if 0 <= k && k * PAGE_SIZE < data.len() {
        chunk(data, k) + b.subrange(chunk(data, k).len() as int, b.len() as int)
    } else {
        b
    }
}

/// Mapping page `v` of a segment, after the pages `[lo, v)`, extends what it
/// covers to `[lo, v + 1)`.
proof fn lemma_covers_extend(
    before: MapArea,
    after: MapArea,
    view0: Map<u64, PageTableEntry>,
    view1: Map<u64, PageTableEntry>,
    lo: int,
    v: u64,
)
    requires
        before.covers(view0, lo, v as int),
        after.kind() == before.kind(),
        after.perm() == before.perm(),
        view1 == view0.insert(v, after.pte_at(v)),
        before.kind() == MapType::Framed ==> after.frames().remove(v) == before.frames().remove(v)
            && after.frames().contains_key(v) && after.frames()[v].bytes@ == zero_page(),
    ensures
        after.covers(view1, lo, v + 1),
{
    assert forall|u: u64| lo <= u < v + 1 implies #[trigger] after.page_mapped(view1, u) by {
        if u != v {
            assert(before.page_mapped(view0, u));
            if after.kind() == MapType::Framed {
                assert(before.frames().remove(v).contains_key(u));
                assert(after.frames().remove(v)[u] == before.frames().remove(v)[u]);
            }
            assert(after.pte_at(u) == before.pte_at(u));
        }
    };
}

/// What a segment covers depends on its mode, permissions and frames alone.
proof fn lemma_covers_same(a: MapArea, b: MapArea, view: Map<u64, PageTableEntry>, lo: int, hi: int)
    requires
        a.covers(view, lo, hi),
        a.kind() == b.kind(),
        a.perm() == b.perm(),
        a.frames() == b.frames(),
    ensures
        b.covers(view, lo, hi),
{
    assert forall|u: u64| lo <= u < hi implies #[trigger] b.page_mapped(view, u) by {
        assert(a.page_mapped(view, u));
        assert(a.pte_at(u) == b.pte_at(u));
    };
}

} // verus!
