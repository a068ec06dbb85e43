use std::collections::BTreeMap;
use vstd::prelude::*;
use crate::address::{ceil_page, floor_page, vpn_ceil, vpn_floor, PAGE_SIZE};
use crate::frame_allocator::{zero_page, FrameAllocator};
use crate::map_permission::MapPermission;
use crate::map_type::MapType;
use crate::page_table::{leaf, PageTable, PageTableEntry};

verus! {

broadcast use vstd::std_specs::btree::group_btree_axioms, vstd::laws_cmp::group_laws_cmp;

/// A half-open run of virtual page numbers `[start, end)`.
#[derive(Clone, Copy, Debug, PartialEq, Eq, Structural)]
pub struct VpnRange {
    pub start: usize,
    pub end: usize,
}

impl VpnRange {
    pub fn new(start: usize, end: usize) -> (r: VpnRange)
        ensures
            r.start == start,
            r.end == end,
    {
        VpnRange { start, end }
    }

    pub fn get_start(&self) -> (r: usize)
        ensures
            r == self.start,
    {
        self.start
    }

    pub fn get_end(&self) -> (r: usize)
        ensures
            r == self.end,
    {
        self.end
    }

    pub open spec fn contains(self, vpn: usize) -> bool {
        self.start <= vpn < self.end
    }
}

/// A contiguous piece of virtual memory with one mapping policy and one permission.
pub struct MapArea {
    vpn_range: VpnRange,
    data_frames: BTreeMap<usize, usize>,
    map_type: MapType,
    map_perm: MapPermission,
}

/// The frames that `frames` gives to the pages in `[lo, hi)`.
pub open spec fn frames_between(frames: Map<usize, usize>, lo: int, hi: int) -> Set<usize> {
    Set::new(|p: usize| exists|v: usize| lo <= v < hi && #[trigger] frames.contains_key(v) && frames[v] == p)
}

/// `pt` holds the entries of `old_pt` outside `[lo, hi)`.
pub open spec fn same_outside(old_pt: Map<usize, PageTableEntry>, pt: Map<usize, PageTableEntry>, lo: int, hi: int) -> bool {
    forall|v: usize| !(lo <= v < hi) ==> (#[trigger] pt.contains_key(v) == old_pt.contains_key(v) && (pt.contains_key(v) ==> pt[v] == old_pt[v]))
}

/// The effect of installing the pages `[lo, hi)` of an area: `a` and `pt` after, `a0` and `pt0`
/// before; a framed area owns a fresh zeroed frame for each of those pages.
pub open spec fn pages_mapped(
    a0: MapArea,
    a: MapArea,
    pt0: Map<usize, PageTableEntry>,
    pt: Map<usize, PageTableEntry>,
    fa0: FrameAllocator,
    fa: FrameAllocator,
    lo: int,
    hi: int,
) -> bool {
    &&& same_outside(pt0, pt, lo, hi)
    &&& forall|v: usize| lo <= v < hi ==> #[trigger] pt.contains_key(v) && pt[v] == a.entry_of(v)
    &&& a0.spec_map_type() == MapType::Identical ==> a.frames() == a0.frames() && fa == fa0
    &&& a0.spec_map_type() == MapType::Framed ==> {
        &&& forall|v: usize| #[trigger] a.frames().contains_key(v) == (a0.frames().contains_key(v) || lo <= v < hi)
        &&& forall|v: usize| #[trigger] a0.frames().contains_key(v) ==> a.frames()[v] == a0.frames()[v]
        &&& forall|v: usize| lo <= v < hi ==> !fa0.allocated().contains(#[trigger] a.frames()[v]) && fa.content(a.frames()[v]) == zero_page()
        &&& fa.allocated() == fa0.allocated().union(frames_between(a.frames(), lo, hi))
        &&& forall|q: usize| #[trigger] fa0.allocated().contains(q) ==> fa.content(q) == fa0.content(q)
    }
}

/// The effect of removing the pages `[lo, hi)` of an area: their entries leave the table and a
/// framed area releases the frames it owned for them.
pub open spec fn pages_unmapped(
    a0: MapArea,
    a: MapArea,
    pt0: Map<usize, PageTableEntry>,
    pt: Map<usize, PageTableEntry>,
    fa0: FrameAllocator,
    fa: FrameAllocator,
    lo: int,
    hi: int,
) -> bool {
    &&& same_outside(pt0, pt, lo, hi)
    &&& forall|v: usize| lo <= v < hi ==> !#[trigger] pt.contains_key(v)
    &&& forall|v: usize| #[trigger] a.frames().contains_key(v) == (a0.frames().contains_key(v) && !(lo <= v < hi))
    &&& forall|v: usize| #[trigger] a.frames().contains_key(v) ==> a.frames()[v] == a0.frames()[v]
    &&& fa.allocated() == fa0.allocated().difference(frames_between(a0.frames(), lo, hi))
    &&& forall|q: usize| #[trigger] fa.allocated().contains(q) ==> fa.content(q) == fa0.content(q)
}

proof fn lemma_pages_mapped_rebase(
    a0: MapArea,
    b0: MapArea,
    a: MapArea,
    pt0: Map<usize, PageTableEntry>,
    pt: Map<usize, PageTableEntry>,
    fa0: FrameAllocator,
    fa: FrameAllocator,
    lo: int,
    hi: int,
)
    requires
        pages_mapped(a0, a, pt0, pt, fa0, fa, lo, hi),
        a0.frames() == b0.frames(),
        a0.spec_map_type() == b0.spec_map_type(),
    ensures
        pages_mapped(b0, a, pt0, pt, fa0, fa, lo, hi),
{
}

/// The part of `data` that lands in page `i` of an area: bytes `[i * PAGE_SIZE, (i + 1) * PAGE_SIZE)`,
/// cut at the end of `data`.
pub open spec fn page_chunk(data: Seq<u8>, i: int) -> Seq<u8> {
    let lo = i * PAGE_SIZE as int;
    let hi = lo + PAGE_SIZE as int;
    if lo >= data.len() {
        Seq::empty()
    } else if hi > data.len() {
        data.subrange(lo, data.len() as int)
    } else {
        data.subrange(lo, hi)
    }
}

impl MapArea {
    /// The frame owned for each page.
    pub closed spec fn frames(&self) -> Map<usize, usize> {
        self.data_frames@
    }

    pub closed spec fn spec_map_type(&self) -> MapType {
        self.map_type
    }

    pub closed spec fn spec_perm(&self) -> MapPermission {
        self.map_perm
    }

    pub closed spec fn range(&self) -> VpnRange {
        self.vpn_range
    }

    pub open spec fn start(&self) -> usize {
        self.range().start
    }

    pub open spec fn end(&self) -> usize {
        self.range().end
    }

    pub open spec fn in_range(&self, vpn: usize) -> bool {
        self.range().contains(vpn)
    }

    /// The physical page that backs `vpn`.
    pub open spec fn ppn_of(&self, vpn: usize) -> usize {
        if self.spec_map_type() == MapType::Identical {
            vpn
        } else {
            self.frames()[vpn]
        }
    }

    /// The page-table entry this area installs for `vpn`.
    pub open spec fn entry_of(&self, vpn: usize) -> PageTableEntry {
        leaf(self.ppn_of(vpn), self.spec_perm().spec_bits())
    }

    pub open spec fn same_shape(&self, other: &MapArea) -> bool {
        &&& self.range() == other.range()
        &&& self.spec_map_type() == other.spec_map_type()
        &&& self.spec_perm() == other.spec_perm()
    }

    pub open spec fn wf(&self) -> bool {
        &&& self.start() <= self.end()
        &&& self.spec_perm().wf()
        &&& forall|v: usize| #[trigger] self.frames().contains_key(v) ==> self.in_range(v)
        &&& self.spec_map_type() == MapType::Identical ==> self.frames().is_empty()
    }

    /// Every page in range is installed in `pt`, and a framed area owns a frame for each.
    pub open spec fn mapped_in(&self, pt: Map<usize, PageTableEntry>) -> bool {
        &&& self.spec_map_type() == MapType::Framed ==> forall|v: usize| #[trigger] self.frames().contains_key(v) == self.in_range(v)
        &&& forall|v: usize| #[trigger] self.in_range(v) ==> pt.contains_key(v) && pt[v] == self.entry_of(v)
    }

    /// The owned frames are in use in `fa`, each owned for one page only.
    pub open spec fn backed_by(&self, fa: &FrameAllocator) -> bool {
        &&& forall|v: usize| #[trigger] self.frames().contains_key(v) ==> fa.allocated().contains(self.frames()[v])
        &&& forall|v1: usize, v2: usize| #[trigger] self.frames().contains_key(v1) && #[trigger] self.frames().contains_key(v2) && v1 != v2 ==> self.frames()[v1] != self.frames()[v2]
    }

    /// All frames the area owns.
    pub open spec fn owned(&self) -> Set<usize> {
        frames_between(self.frames(), 0, usize::MAX as int + 1)
    }

    /// An area over the pages that hold `[start_va, end_va)`, with no frame yet.
    pub fn new(start_va: usize, end_va: usize, map_type: MapType, map_perm: MapPermission) -> (r: MapArea)
        requires
            start_va <= end_va,
            map_perm.wf(),
        ensures
            r.wf(),
            r.start() as int == vpn_floor(start_va as int),
            r.end() as int == vpn_ceil(end_va as int),
            r.start() <= r.end(),
            r.spec_map_type() == map_type,
            r.spec_perm() == map_perm,
            r.frames().is_empty(),
    {
        let start_vpn = floor_page(start_va);
        let end_vpn = ceil_page(end_va);
        MapArea {
            vpn_range: VpnRange::new(start_vpn, end_vpn),
            data_frames: BTreeMap::new(),
            map_type,
            map_perm,
        }
    }

    /// An area of the same range, policy and permission as `another`, with no frame.
    pub fn from_another(another: &MapArea) -> (r: MapArea)
        requires
            another.wf(),
        ensures
            r.wf(),
            r.same_shape(another),
            r.frames().is_empty(),
    {
        MapArea {
            vpn_range: VpnRange::new(another.vpn_range.get_start(), another.vpn_range.get_end()),
            data_frames: BTreeMap::new(),
            map_type: another.map_type,
            map_perm: another.map_perm,
        }
    }

    /// The range of pages.
    pub fn vpn_range(&self) -> (r: VpnRange)
        ensures
            r == self.range(),
            r.start == self.start(),
            r.end == self.end(),
    {
        self.vpn_range
    }

    /// The first page of the range.
    pub fn start_vpn(&self) -> (r: usize)
        ensures
            r == self.start(),
    {
        self.vpn_range.get_start()
    }

    /// The page just past the range.
    pub fn end_vpn(&self) -> (r: usize)
        ensures
            r == self.end(),
    {
        self.vpn_range.get_end()
    }

    pub fn map_type(&self) -> (r: MapType)
        ensures
            r == self.spec_map_type(),
    {
        self.map_type
    }

    pub fn map_perm(&self) -> (r: MapPermission)
        ensures
            r == self.spec_perm(),
    {
        self.map_perm
    }

    /// Installs page `vpn`; a framed area first takes a fresh zeroed frame for it.
    pub fn map_one(&mut self, page_table: &mut PageTable, fa: &mut FrameAllocator, vpn: usize)
        requires
            old(self).wf(),
            old(fa).wf(),
            old(self).in_range(vpn),
            !old(self).frames().contains_key(vpn),
        ensures
            final(self).wf(),
            final(fa).wf(),
            final(self).same_shape(old(self)),
            final(page_table)@ == old(page_table)@.insert(vpn, final(self).entry_of(vpn)),
            final(page_table).spec_root() == old(page_table).spec_root(),
            old(self).spec_map_type() == MapType::Identical ==> final(self).frames() == old(self).frames() && *final(fa) == *old(fa),
            old(self).spec_map_type() == MapType::Framed ==> {
                let p = final(self).frames()[vpn];
                &&& final(self).frames() == old(self).frames().insert(vpn, p)
                &&& !old(fa).allocated().contains(p)
                &&& final(fa).allocated() == old(fa).allocated().insert(p)
                &&& final(fa).content(p) == zero_page()
                &&& forall|q: usize| #[trigger] old(fa).allocated().contains(q) ==> final(fa).content(q) == old(fa).content(q)
            },
    {
        let ppn: usize = match self.map_type {
            MapType::Identical => vpn,
            MapType::Framed => {
                let p = fa.alloc_frame();
                self.data_frames.insert(vpn, p);
                p
            },
        };
        let bits = self.map_perm.bits();
        page_table.map(vpn, ppn, bits);
    }

    /// Removes page `vpn` from the table; a framed area releases the frame it owned for it.
    pub fn unmap_one(&mut self, page_table: &mut PageTable, fa: &mut FrameAllocator, vpn: usize)
        requires
            old(self).wf(),
            old(fa).wf(),
        ensures
            final(self).wf(),
            final(fa).wf(),
            final(self).same_shape(old(self)),
            final(self).frames() == old(self).frames().remove(vpn),
            final(page_table)@ == old(page_table)@.remove(vpn),
            final(page_table).spec_root() == old(page_table).spec_root(),
            final(fa).allocated() == (if old(self).frames().contains_key(vpn) {
                old(fa).allocated().remove(old(self).frames()[vpn])
            } else {
                old(fa).allocated()
            }),
            forall|q: usize| #[trigger] final(fa).allocated().contains(q) ==> final(fa).content(q) == old(fa).content(q),
    {
        if self.map_type == MapType::Framed {
            match self.data_frames.remove(&vpn) {
                Some(p) => fa.dealloc_frame(p),
                None => {},
            }
        }
        page_table.unmap(vpn);
        assert(self.frames() =~= old(self).frames().remove(vpn));
    }

    /// Installs the pages `[lo, hi)`, none of which owns a frame yet.
    fn map_pages(&mut self, page_table: &mut PageTable, fa: &mut FrameAllocator, lo: usize, hi: usize)
        requires
            old(self).wf(),
            old(fa).wf(),
            old(self).backed_by(old(fa)),
            old(self).start() <= lo <= hi <= old(self).end(),
            forall|v: usize| lo <= v < hi ==> !#[trigger] old(self).frames().contains_key(v),
        ensures
            final(self).wf(),
            final(fa).wf(),
            final(self).backed_by(final(fa)),
            final(self).same_shape(old(self)),
            final(page_table).spec_root() == old(page_table).spec_root(),
            pages_mapped(*old(self), *final(self), old(page_table)@, final(page_table)@, *old(fa), *final(fa), lo as int, hi as int),
    {
        let ghost f0 = self.frames();
        let mut vpn: usize = lo;
        assert(frames_between(self.frames(), lo as int, lo as int) =~= Set::<usize>::empty());
        assert(fa.allocated() =~= fa.allocated().union(frames_between(self.frames(), lo as int, lo as int)));
        while vpn < hi
            invariant
                lo <= vpn <= hi,
                self.wf(),
                fa.wf(),
                self.backed_by(fa),
                self.same_shape(old(self)),
                self.start() <= lo <= hi <= self.end(),
                f0 == old(self).frames(),
                forall|v: usize| vpn <= v < hi ==> !#[trigger] self.frames().contains_key(v),
                page_table.spec_root() == old(page_table).spec_root(),
                pages_mapped(*old(self), *self, old(page_table)@, page_table@, *old(fa), *fa, lo as int, vpn as int),
            decreases hi - vpn,
        {
            let ghost a1 = *self;
            let ghost fa1 = *fa;
            let ghost pt1 = page_table@;
            self.map_one(page_table, fa, vpn);
            proof {
                if self.spec_map_type() == MapType::Framed {
                    let p = self.frames()[vpn];
                    assert forall|v: usize| #[trigger] self.frames().contains_key(v) implies fa.allocated().contains(self.frames()[v]) by {
                        if v != vpn {
                            assert(a1.frames().contains_key(v));
                        }
                    }
                    assert forall|v1: usize, v2: usize| #[trigger] self.frames().contains_key(v1) && #[trigger] self.frames().contains_key(v2) && v1 != v2 implies self.frames()[v1] != self.frames()[v2] by {
                        if v1 == vpn {
                            assert(a1.frames().contains_key(v2));
                        } else if v2 == vpn {
                            assert(a1.frames().contains_key(v1));
                        } else {
                            assert(a1.frames().contains_key(v1));
                            assert(a1.frames().contains_key(v2));
                        }
                    }
                    assert(frames_between(self.frames(), lo as int, vpn + 1) =~= frames_between(a1.frames(), lo as int, vpn as int).insert(p)) by {
                        assert forall|q: usize| #[trigger] frames_between(self.frames(), lo as int, vpn + 1).contains(q) implies frames_between(a1.frames(), lo as int, vpn as int).insert(q).contains(q) by {}
                        assert forall|q: usize| frames_between(a1.frames(), lo as int, vpn as int).insert(p).contains(q) implies #[trigger] frames_between(self.frames(), lo as int, vpn + 1).contains(q) by {
                            if q == p {
                                assert(self.frames().contains_key(vpn));
                            } else {
                                let v = choose|v: usize| lo <= v < vpn && #[trigger] a1.frames().contains_key(v) && a1.frames()[v] == q;
                                assert(self.frames().contains_key(v));
                            }
                        }
                        assert forall|q: usize| #[trigger] frames_between(self.frames(), lo as int, vpn + 1).contains(q) implies frames_between(a1.frames(), lo as int, vpn as int).insert(p).contains(q) by {
                            let v = choose|v: usize| lo <= v < vpn + 1 && #[trigger] self.frames().contains_key(v) && self.frames()[v] == q;
                            if v != vpn {
                                assert(a1.frames().contains_key(v));
                            }
                        }
                    }
                    assert(fa.allocated() =~= old(fa).allocated().union(frames_between(self.frames(), lo as int, vpn + 1)));
                    assert forall|v: usize| lo <= v < vpn + 1 implies !old(fa).allocated().contains(#[trigger] self.frames()[v]) && fa.content(self.frames()[v]) == zero_page() by {
                        if v != vpn {
                            assert(a1.frames().contains_key(v));
                            assert(fa1.allocated().contains(a1.frames()[v]));
                        }
                    }
                }
                assert(same_outside(old(page_table)@, page_table@, lo as int, vpn + 1));
                assert forall|v: usize| lo <= v < vpn + 1 implies #[trigger] page_table@.contains_key(v) && page_table@[v] == self.entry_of(v) by {
                    if v != vpn {
                        assert(pt1.contains_key(v));
                        if self.spec_map_type() == MapType::Framed {
                            assert(a1.frames().contains_key(v));
                        }
                    }
                }
                if self.spec_map_type() == MapType::Framed {
                    assert forall|v: usize| #[trigger] self.frames().contains_key(v) == (old(self).frames().contains_key(v) || lo <= v < vpn + 1) by {}
                    assert forall|v: usize| #[trigger] old(self).frames().contains_key(v) implies self.frames()[v] == old(self).frames()[v] by {
                        assert(a1.frames().contains_key(v));
                    }
                    assert forall|q: usize| #[trigger] old(fa).allocated().contains(q) implies fa.content(q) == old(fa).content(q) by {
                        assert(fa1.allocated().contains(q));
                    }
                }
            }
            vpn = vpn + 1;
        }
    }

    /// Installs every page of the range.
    pub fn map(&mut self, page_table: &mut PageTable, fa: &mut FrameAllocator)
        requires
            old(self).wf(),
            old(fa).wf(),
            old(self).frames().is_empty(),
        ensures
            final(self).wf(),
            final(fa).wf(),
            final(self).backed_by(final(fa)),
            final(self).same_shape(old(self)),
            final(self).mapped_in(final(page_table)@),
            final(page_table).spec_root() == old(page_table).spec_root(),
            pages_mapped(*old(self), *final(self), old(page_table)@, final(page_table)@, *old(fa), *final(fa), old(self).start() as int, old(self).end() as int),
    {
        let start = self.vpn_range.get_start();
        let end = self.vpn_range.get_end();
        self.map_pages(page_table, fa, start, end);
        assert forall|v: usize| #[trigger] self.in_range(v) implies page_table@.contains_key(v) && page_table@[v] == self.entry_of(v) by {
            assert(page_table@.contains_key(v));
        }
        if self.map_type == MapType::Framed {
            assert forall|v: usize| #[trigger] self.frames().contains_key(v) == self.in_range(v) by {
                assert(!old(self).frames().dom().contains(v));
            }
        }
    }

    /// Removes the pages `[lo, hi)`.
    fn unmap_pages(&mut self, page_table: &mut PageTable, fa: &mut FrameAllocator, lo: usize, hi: usize)
        requires
            old(self).wf(),
            old(fa).wf(),
            old(self).backed_by(old(fa)),
            lo <= hi,
        ensures
            final(self).wf(),
            final(fa).wf(),
            final(self).backed_by(final(fa)),
            final(self).same_shape(old(self)),
            final(page_table).spec_root() == old(page_table).spec_root(),
            pages_unmapped(*old(self), *final(self), old(page_table)@, final(page_table)@, *old(fa), *final(fa), lo as int, hi as int),
    {
        let ghost f0 = self.frames();
        let mut vpn: usize = lo;
        assert(frames_between(f0, lo as int, lo as int) =~= Set::<usize>::empty());
        assert(fa.allocated() =~= fa.allocated().difference(frames_between(f0, lo as int, lo as int)));
        while vpn < hi
            invariant
                lo <= vpn <= hi,
                self.wf(),
                fa.wf(),
                self.backed_by(fa),
                self.same_shape(old(self)),
                f0 == old(self).frames(),
                page_table.spec_root() == old(page_table).spec_root(),
                pages_unmapped(*old(self), *self, old(page_table)@, page_table@, *old(fa), *fa, lo as int, vpn as int),
            decreases hi - vpn,
        {
            let ghost a1 = *self;
            let ghost fa1 = *fa;
            let ghost pt1 = page_table@;
            self.unmap_one(page_table, fa, vpn);
            proof {
                let fb = frames_between(f0, lo as int, vpn + 1);
                if f0.contains_key(vpn) {
                    assert(a1.frames().contains_key(vpn));
                    assert(fb =~= frames_between(f0, lo as int, vpn as int).insert(f0[vpn])) by {
                        assert forall|q: usize| frames_between(f0, lo as int, vpn as int).insert(f0[vpn]).contains(q) implies #[trigger] fb.contains(q) by {
                            if q != f0[vpn] {
                                let v = choose|v: usize| lo <= v < vpn && #[trigger] f0.contains_key(v) && f0[v] == q;
                                assert(f0.contains_key(v));
                            }
                        }
                        assert forall|q: usize| #[trigger] fb.contains(q) implies frames_between(f0, lo as int, vpn as int).insert(f0[vpn]).contains(q) by {
                            let v = choose|v: usize| lo <= v < vpn + 1 && #[trigger] f0.contains_key(v) && f0[v] == q;
                            assert(f0.contains_key(v));
                        }
                    }
                    assert(fa.allocated() =~= old(fa).allocated().difference(fb));
                } else {
                    assert(fb =~= frames_between(f0, lo as int, vpn as int)) by {
                        assert forall|q: usize| #[trigger] fb.contains(q) implies frames_between(f0, lo as int, vpn as int).contains(q) by {
                            let v = choose|v: usize| lo <= v < vpn + 1 && #[trigger] f0.contains_key(v) && f0[v] == q;
                            assert(f0.contains_key(v));
                        }
                    }
                }
                assert forall|v: usize| #[trigger] self.frames().contains_key(v) implies fa.allocated().contains(self.frames()[v]) by {
                    assert(a1.frames().contains_key(v));
                    assert(a1.frames()[v] != a1.frames()[vpn] || !a1.frames().contains_key(vpn));
                }
                assert forall|v1: usize, v2: usize| #[trigger] self.frames().contains_key(v1) && #[trigger] self.frames().contains_key(v2) && v1 != v2 implies self.frames()[v1] != self.frames()[v2] by {
                    assert(a1.frames().contains_key(v1));
                    assert(a1.frames().contains_key(v2));
                }
                assert forall|v: usize| #[trigger] self.frames().contains_key(v) == (old(self).frames().contains_key(v) && !(lo <= v < vpn + 1)) by {}
                assert forall|v: usize| #[trigger] self.frames().contains_key(v) implies self.frames()[v] == old(self).frames()[v] by {
                    assert(a1.frames().contains_key(v));
                }
                assert forall|q: usize| #[trigger] fa.allocated().contains(q) implies fa.content(q) == old(fa).content(q) by {
                    assert(fa1.allocated().contains(q));
                }
                assert(same_outside(old(page_table)@, page_table@, lo as int, vpn + 1));
            }
            vpn = vpn + 1;
        }
    }

    /// Removes every page of the range; a framed area releases all its frames.
    pub fn unmap(&mut self, page_table: &mut PageTable, fa: &mut FrameAllocator)
        requires
            old(self).wf(),
            old(fa).wf(),
            old(self).backed_by(old(fa)),
        ensures
            final(self).wf(),
            final(fa).wf(),
            final(self).same_shape(old(self)),
            final(self).frames().is_empty(),
            final(page_table).spec_root() == old(page_table).spec_root(),
            pages_unmapped(*old(self), *final(self), old(page_table)@, final(page_table)@, *old(fa), *final(fa), old(self).start() as int, old(self).end() as int),
            final(fa).allocated() == old(fa).allocated().difference(old(self).owned()),
    {
        let start = self.vpn_range.get_start();
        let end = self.vpn_range.get_end();
        self.unmap_pages(page_table, fa, start, end);
        assert(self.frames().dom() =~= Set::<usize>::empty()) by {
            assert forall|v: usize| !self.frames().dom().contains(v) by {
                if old(self).frames().contains_key(v) {
                    assert(old(self).in_range(v));
                }
            }
        }
        assert(frames_between(old(self).frames(), start as int, end as int) =~= old(self).owned()) by {
            assert forall|q: usize| #[trigger] old(self).owned().contains(q) implies frames_between(old(self).frames(), start as int, end as int).contains(q) by {
                let v = choose|v: usize| 0 <= v < usize::MAX as int + 1 && #[trigger] old(self).frames().contains_key(v) && old(self).frames()[v] == q;
                assert(old(self).in_range(v));
            }
        }
    }

    /// Narrows the range to `[start, new_end)`, removing the pages past `new_end`.
    pub fn shrink_to(&mut self, page_table: &mut PageTable, fa: &mut FrameAllocator, new_end: usize)
        requires
            old(self).wf(),
            old(fa).wf(),
            old(self).backed_by(old(fa)),
            old(self).start() <= new_end <= old(self).end(),
        ensures
            final(self).wf(),
            final(fa).wf(),
            final(self).backed_by(final(fa)),
            final(self).start() == old(self).start(),
            final(self).end() == new_end,
            final(self).spec_map_type() == old(self).spec_map_type(),
            final(self).spec_perm() == old(self).spec_perm(),
            old(self).mapped_in(old(page_table)@) ==> final(self).mapped_in(final(page_table)@),
            final(page_table).spec_root() == old(page_table).spec_root(),
            pages_unmapped(*old(self), *final(self), old(page_table)@, final(page_table)@, *old(fa), *final(fa), new_end as int, old(self).end() as int),
    {
        let end = self.vpn_range.get_end();
        self.unmap_pages(page_table, fa, new_end, end);
        let ghost a1 = *self;
        self.vpn_range = VpnRange::new(self.vpn_range.get_start(), new_end);
        assert(self.frames() == a1.frames());
        assert forall|v: usize| #[trigger] self.frames().contains_key(v) implies self.in_range(v) by {
            assert(a1.frames().contains_key(v));
            assert(old(self).frames().contains_key(v));
        }
        proof {
            if old(self).mapped_in(old(page_table)@) {
                assert forall|v: usize| #[trigger] self.in_range(v) implies page_table@.contains_key(v) && page_table@[v] == self.entry_of(v) by {
                    assert(old(self).in_range(v));
                    assert(page_table@.contains_key(v));
                    if self.map_type == MapType::Framed {
                        assert(old(self).frames().contains_key(v));
                        assert(a1.frames().contains_key(v));
                    }
                }
            }
        }
    }

    /// Widens the range to `[start, new_end)`, installing the new pages.
    pub fn append_to(&mut self, page_table: &mut PageTable, fa: &mut FrameAllocator, new_end: usize)
        requires
            old(self).wf(),
            old(fa).wf(),
            old(self).backed_by(old(fa)),
            old(self).end() <= new_end,
        ensures
            final(self).wf(),
            final(fa).wf(),
            final(self).backed_by(final(fa)),
            final(self).start() == old(self).start(),
            final(self).end() == new_end,
            final(self).spec_map_type() == old(self).spec_map_type(),
            final(self).spec_perm() == old(self).spec_perm(),
            old(self).mapped_in(old(page_table)@) ==> final(self).mapped_in(final(page_table)@),
            final(page_table).spec_root() == old(page_table).spec_root(),
            pages_mapped(*old(self), *final(self), old(page_table)@, final(page_table)@, *old(fa), *final(fa), old(self).end() as int, new_end as int),
    {
        let end = self.vpn_range.get_end();
        let ghost a0 = *self;
        self.vpn_range = VpnRange::new(self.vpn_range.get_start(), new_end);
        assert(self.frames() == a0.frames());
        assert forall|v: usize| #[trigger] self.frames().contains_key(v) implies self.in_range(v) by {
            assert(a0.frames().contains_key(v));
        }
        assert forall|v: usize| end <= v < new_end implies !#[trigger] self.frames().contains_key(v) by {
            if old(self).frames().contains_key(v) {
                assert(old(self).in_range(v));
            }
        }
        let ghost a1 = *self;
        assert(a1.frames() == old(self).frames());
        assert(a1.spec_map_type() == old(self).spec_map_type());
        self.map_pages(page_table, fa, end, new_end);
        proof {
            lemma_pages_mapped_rebase(a1, *old(self), *self, old(page_table)@, page_table@, *old(fa), *fa, end as int, new_end as int);
            if old(self).mapped_in(old(page_table)@) {
                assert forall|v: usize| #[trigger] self.in_range(v) implies page_table@.contains_key(v) && page_table@[v] == self.entry_of(v) by {
                    if v < end {
                        assert(old(self).in_range(v));
                        assert(old(page_table)@.contains_key(v));
                        if self.map_type == MapType::Framed {
                            assert(old(self).frames().contains_key(v));
                            assert(a1.frames().contains_key(v));
                        }
                    } else {
                        assert(page_table@.contains_key(v));
                    }
                }
                if self.map_type == MapType::Framed {
                    assert forall|v: usize| #[trigger] self.frames().contains_key(v) == self.in_range(v) by {
                        if v < end {
                            assert(old(self).frames().contains_key(v) == old(self).in_range(v));
                            assert(a1.frames().contains_key(v) == old(self).frames().contains_key(v));
                        }
                    }
                }
                assert(self.mapped_in(page_table@));
            }
        }
    }

    /// Copies `data` into the area's pages from the first page on, one page at a time; a page
    /// that `data` does not reach, and the tail of the last one it reaches, keep their bytes.
    pub fn copy_data(&self, page_table: &PageTable, fa: &mut FrameAllocator, data: &[u8])
        requires
            self.wf(),
            old(fa).wf(),
            self.spec_map_type() == MapType::Framed,
            self.mapped_in(page_table@),
            self.backed_by(old(fa)),
            data@.len() <= (self.end() - self.start()) * PAGE_SIZE,
        ensures
            final(fa).wf(),
            final(fa).allocated() == old(fa).allocated(),
            forall|v: usize| #[trigger] self.in_range(v) ==> final(fa).content(self.frames()[v])
                == page_chunk(data@, v - self.start()) + old(fa).content(self.frames()[v]).subrange(
                page_chunk(data@, v - self.start()).len() as int,
                PAGE_SIZE as int,
            ),
            forall|q: usize| !self.owned().contains(q) ==> #[trigger] final(fa).content(q) == old(fa).content(q),
    {
        let len = data.len();
        let start = self.vpn_range.get_start();
        let mut offset: usize = 0;
        let mut vpn: usize = start;
        while offset < len
            invariant
                self.wf(),
                fa.wf(),
                self.spec_map_type() == MapType::Framed,
                self.mapped_in(page_table@),
                self.backed_by(fa),
                fa.allocated() == old(fa).allocated(),
                len == data@.len(),
                start == self.start(),
                start <= vpn <= self.end(),
                offset <= (vpn - start) * PAGE_SIZE as int,
                offset < len ==> offset == (vpn - start) * PAGE_SIZE as int,
                offset == len ==> len <= (vpn - start) * PAGE_SIZE as int,
                offset <= len,
                len <= (self.end() - start) * PAGE_SIZE,
                offset < len ==> vpn < self.end(),
                forall|v: usize| #[trigger] self.in_range(v) && v < vpn ==> fa.content(self.frames()[v])
                    == page_chunk(data@, v - start) + old(fa).content(self.frames()[v]).subrange(
                    page_chunk(data@, v - start).len() as int,
                    PAGE_SIZE as int,
                ),
                forall|v: usize| #[trigger] self.in_range(v) && v >= vpn ==> fa.content(self.frames()[v]) == old(fa).content(self.frames()[v]),
                forall|q: usize| !self.owned().contains(q) ==> #[trigger] fa.content(q) == old(fa).content(q),
            decreases len - offset,
        {
            let chunk_end: usize = if len - offset < PAGE_SIZE {
                len
            } else {
                offset + PAGE_SIZE
            };
            assert(self.in_range(vpn));
            let ppn = page_table.translate(vpn).unwrap().ppn();
            assert(self.frames().contains_key(vpn));
            let ghost fa1 = *fa;
            fa.write_prefix(ppn, data, offset, chunk_end);
            proof {
                let i = vpn - start;
                assert(page_chunk(data@, i) == data@.subrange(offset as int, chunk_end as int));
                assert forall|v: usize| #[trigger] self.in_range(v) && v < vpn + 1 implies fa.content(self.frames()[v])
                    == page_chunk(data@, v - start) + old(fa).content(self.frames()[v]).subrange(
                    page_chunk(data@, v - start).len() as int,
                    PAGE_SIZE as int,
                ) by {
                    if v != vpn {
                        assert(self.frames().contains_key(v));
                        assert(self.frames().contains_key(vpn));
                    }
                }
                assert forall|v: usize| #[trigger] self.in_range(v) && v >= vpn + 1 implies fa.content(self.frames()[v]) == old(fa).content(self.frames()[v]) by {
                    assert(self.frames().contains_key(v));
                    assert(self.frames().contains_key(vpn));
                }
                assert forall|q: usize| !self.owned().contains(q) implies #[trigger] fa.content(q) == old(fa).content(q) by {
                    assert(self.frames().contains_key(vpn));
                    if q == ppn {
                        assert(self.owned().contains(q));
                    }
                }
            }
            offset = chunk_end;
            vpn = vpn + 1;
        }
        proof {
            assert forall|v: usize| #[trigger] self.in_range(v) && v >= vpn implies fa.content(self.frames()[v])
                == page_chunk(data@, v - start) + old(fa).content(self.frames()[v]).subrange(
                page_chunk(data@, v - start).len() as int,
                PAGE_SIZE as int,
            ) by {
                assert(self.frames().contains_key(v));
                assert(page_chunk(data@, v - start) =~= Seq::<u8>::empty());
                old(fa).lemma_content_len(self.frames()[v]);
                assert(old(fa).content(self.frames()[v]).subrange(0, PAGE_SIZE as int) =~= old(fa).content(self.frames()[v]));
            }
        }
    }
}

/// After an area's pages are removed, none of them translates any more and every frame the
/// area owned is out of use, free for the allocator to hand out again.
pub proof fn lemma_unmap_releases(
    a0: MapArea,
    a: MapArea,
    pt0: Map<usize, PageTableEntry>,
    pt: Map<usize, PageTableEntry>,
    fa0: FrameAllocator,
    fa: FrameAllocator,
)
    requires
        pages_unmapped(a0, a, pt0, pt, fa0, fa, a0.start() as int, a0.end() as int),
    ensures
        forall|v: usize| #[trigger] a0.in_range(v) ==> !pt.contains_key(v),
        forall|v: usize| #[trigger] a0.frames().contains_key(v) && a0.in_range(v) ==> !fa.allocated().contains(a0.frames()[v]),
{
    assert forall|v: usize| #[trigger] a0.frames().contains_key(v) && a0.in_range(v) implies !fa.allocated().contains(a0.frames()[v]) by {
        assert(frames_between(a0.frames(), a0.start() as int, a0.end() as int).contains(a0.frames()[v]));
    }
}

/// Extending an area to `x` and shrinking it back to its old end leaves it owning exactly the
/// frames it owned before, the allocator with the same frames in use, and the table as before
/// outside the added pages, with none of those pages mapped.
pub proof fn lemma_extend_shrink_round_trip(
    a0: MapArea,
    a1: MapArea,
    a2: MapArea,
    pt0: Map<usize, PageTableEntry>,
    pt1: Map<usize, PageTableEntry>,
    pt2: Map<usize, PageTableEntry>,
    fa0: FrameAllocator,
    fa1: FrameAllocator,
    fa2: FrameAllocator,
    x: usize,
)
    requires
        a0.wf(),
        a0.end() <= x,
        pages_mapped(a0, a1, pt0, pt1, fa0, fa1, a0.end() as int, x as int),
        pages_unmapped(a1, a2, pt1, pt2, fa1, fa2, a0.end() as int, x as int),
    ensures
        a2.frames() == a0.frames(),
        fa2.allocated() == fa0.allocated(),
        same_outside(pt0, pt2, a0.end() as int, x as int),
        forall|v: usize| a0.end() <= v < x ==> !#[trigger] pt2.contains_key(v),
{
    let lo = a0.end() as int;
    let hi = x as int;
    if a0.spec_map_type() == MapType::Framed {
        assert forall|v: usize| #[trigger] a0.frames().contains_key(v) implies !(lo <= v < hi) by {
            assert(a0.in_range(v));
        }
        assert(a2.frames() =~= a0.frames()) by {
            assert forall|v: usize| #[trigger] a2.frames().contains_key(v) == a0.frames().contains_key(v) by {}
            assert forall|v: usize| #[trigger] a2.frames().contains_key(v) implies a2.frames()[v] == a0.frames()[v] by {
                assert(a1.frames().contains_key(v));
            }
        }
        assert(fa2.allocated() =~= fa0.allocated()) by {
            assert forall|q: usize| #[trigger] fa0.allocated().contains(q) implies fa2.allocated().contains(q) by {
                if frames_between(a1.frames(), lo, hi).contains(q) {
                    let v = choose|v: usize| lo <= v < hi && #[trigger] a1.frames().contains_key(v) && a1.frames()[v] == q;
                    assert(!fa0.allocated().contains(a1.frames()[v]));
                }
            }
        }
    } else {
        assert(a1.frames() == a0.frames());
        assert(frames_between(a1.frames(), lo, hi) =~= Set::<usize>::empty()) by {
            assert forall|q: usize| !#[trigger] frames_between(a1.frames(), lo, hi).contains(q) by {
                if frames_between(a1.frames(), lo, hi).contains(q) {
                    let v = choose|v: usize| lo <= v < hi && #[trigger] a1.frames().contains_key(v) && a1.frames()[v] == q;
                }
            }
        }
        assert(fa2.allocated() =~= fa0.allocated());
        assert(a2.frames() =~= a0.frames()) by {
            assert forall|v: usize| #[trigger] a2.frames().contains_key(v) == a0.frames().contains_key(v) by {}
        }
    }
}

} // verus!
