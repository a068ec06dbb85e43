use vstd::prelude::*;
use crate::address::{floor_page, vpn_ceil, vpn_floor, PAGE_SIZE};
use crate::frame_allocator::FrameAllocator;
use crate::map_permission::{MapPermission, PERM_R, PERM_X};
use crate::map_type::MapType;
use crate::memory_area::{same_outside, MapArea};
use crate::memory_set::{pushed_frames, range_clear_of, MemorySet};
use crate::page_table::leaf;

verus! {

/// Builds a `MemorySet` one region at a time; `build` hands out the result.
pub struct MemorySetBuilder {
    memory_set: MemorySet,
}

impl MemorySetBuilder {
    /// The space under construction.
    pub closed spec fn spec_set(&self) -> MemorySet {
        self.memory_set
    }

    /// A builder over an empty space whose table is rooted in a fresh frame of `fa`.
    pub fn new(fa: &mut FrameAllocator) -> (r: MemorySetBuilder)
        requires
            old(fa).wf(),
        ensures
            r.spec_set().wf(final(fa)),
            r.spec_set().spec_areas() == Seq::<MapArea>::empty(),
            r.spec_set().spec_pt() == Map::<usize, crate::page_table::PageTableEntry>::empty(),
            old(fa).allocated().subset_of(final(fa).allocated()),
            forall|q: usize| #[trigger] old(fa).allocated().contains(q) ==> final(fa).content(q) == old(fa).content(q),
    {
        MemorySetBuilder { memory_set: MemorySet::new_bare(fa) }
    }

    fn push_area(self, start_va: usize, end_va: usize, map_type: MapType, map_perm: MapPermission, data: Option<&[u8]>, fa: &mut FrameAllocator) -> (r: MemorySetBuilder)
        requires
            self.spec_set().wf(old(fa)),
            start_va <= end_va,
            map_perm.wf(),
            forall|i: int| 0 <= i < self.spec_set().spec_areas().len() ==> range_clear_of(#[trigger] self.spec_set().spec_areas()[i], vpn_floor(start_va as int), vpn_ceil(end_va as int)),
            data.is_some() ==> map_type == MapType::Framed
                && data.unwrap()@.len() <= (vpn_ceil(end_va as int) - vpn_floor(start_va as int)) * PAGE_SIZE,
        ensures
            pushed(self.spec_set(), r.spec_set(), start_va, end_va, map_type, map_perm, data, *old(fa), *final(fa)),
    {
        let mut s = self;
        let area = MapArea::new(start_va, end_va, map_type, map_perm);
        s.memory_set.push(area, data, fa);
        s
    }

    /// Adds an identical area over `[start_va, end_va)`.
    pub fn push_identical(self, start_va: usize, end_va: usize, map_perm: MapPermission, fa: &mut FrameAllocator) -> (r: MemorySetBuilder)
        requires
            self.spec_set().wf(old(fa)),
            start_va <= end_va,
            map_perm.wf(),
            forall|i: int| 0 <= i < self.spec_set().spec_areas().len() ==> range_clear_of(#[trigger] self.spec_set().spec_areas()[i], vpn_floor(start_va as int), vpn_ceil(end_va as int)),
        ensures
            pushed(self.spec_set(), r.spec_set(), start_va, end_va, MapType::Identical, map_perm, None, *old(fa), *final(fa)),
    {
        self.push_area(start_va, end_va, MapType::Identical, map_perm, None, fa)
    }

    /// Adds a framed area over `[start_va, end_va)` with zeroed pages.
    pub fn push_framed(self, start_va: usize, end_va: usize, map_perm: MapPermission, fa: &mut FrameAllocator) -> (r: MemorySetBuilder)
        requires
            self.spec_set().wf(old(fa)),
            start_va <= end_va,
            map_perm.wf(),
            forall|i: int| 0 <= i < self.spec_set().spec_areas().len() ==> range_clear_of(#[trigger] self.spec_set().spec_areas()[i], vpn_floor(start_va as int), vpn_ceil(end_va as int)),
        ensures
            pushed(self.spec_set(), r.spec_set(), start_va, end_va, MapType::Framed, map_perm, None, *old(fa), *final(fa)),
    {
        self.push_area(start_va, end_va, MapType::Framed, map_perm, None, fa)
    }

    /// Adds a framed area over `[start_va, end_va)` and copies `data` into it from its first page.
    pub fn push_framed_with_data(self, start_va: usize, end_va: usize, map_perm: MapPermission, data: Option<&[u8]>, fa: &mut FrameAllocator) -> (r: MemorySetBuilder)
        requires
            self.spec_set().wf(old(fa)),
            start_va <= end_va,
            map_perm.wf(),
            forall|i: int| 0 <= i < self.spec_set().spec_areas().len() ==> range_clear_of(#[trigger] self.spec_set().spec_areas()[i], vpn_floor(start_va as int), vpn_ceil(end_va as int)),
            data.is_some() ==> data.unwrap()@.len() <= (vpn_ceil(end_va as int) - vpn_floor(start_va as int)) * PAGE_SIZE,
        ensures
            pushed(self.spec_set(), r.spec_set(), start_va, end_va, MapType::Framed, map_perm, data, *old(fa), *final(fa)),
    {
        self.push_area(start_va, end_va, MapType::Framed, map_perm, data, fa)
    }

    /// Maps the trampoline page holding `va` to the frame holding `pa`, outside every area.
    pub fn map_trampoline(self, va: usize, pa: usize, fa: &FrameAllocator) -> (r: MemorySetBuilder)
        requires
            self.spec_set().wf(fa),
            forall|i: int| 0 <= i < self.spec_set().spec_areas().len() ==> !(#[trigger] self.spec_set().spec_areas()[i]).in_range(vpn_floor(va as int) as usize),
        ensures
            r.spec_set().wf(fa),
            r.spec_set().spec_root() == self.spec_set().spec_root(),
            r.spec_set().spec_areas() == self.spec_set().spec_areas(),
            r.spec_set().spec_pt() == self.spec_set().spec_pt().insert(vpn_floor(va as int) as usize, leaf(vpn_floor(pa as int) as usize, PERM_R | PERM_X)),
    {
        let mut s = self;
        s.memory_set.map_trampoline(floor_page(va), floor_page(pa), fa);
        s
    }

    /// Whether some area of the space under construction has a page in `[lo, hi)`.
    pub fn overlaps(&self, lo: usize, hi: usize) -> (r: bool)
        requires
            lo <= hi,
        ensures
            r == !(forall|i: int| 0 <= i < self.spec_set().spec_areas().len() ==> range_clear_of(#[trigger] self.spec_set().spec_areas()[i], lo as int, hi as int)),
    {
        let r = self.memory_set.overlaps_any(lo, hi);
        assert(self.spec_set().spec_areas() == self.memory_set.spec_areas());
        r
    }

    /// The finished space.
    pub fn build(self) -> (r: MemorySet)
        ensures
            r == self.spec_set(),
    {
        self.memory_set
    }
}

/// `ms` is `ms0` with one more area over the pages of `[start_va, end_va)`, installed in the
/// table, with its frames as `pushed_frames` says.
pub open spec fn pushed(
    ms0: MemorySet,
    ms: MemorySet,
    start_va: usize,
    end_va: usize,
    map_type: MapType,
    map_perm: MapPermission,
    data: Option<&[u8]>,
    fa0: FrameAllocator,
    fa: FrameAllocator,
) -> bool {
    let a = ms.spec_areas().last();
    &&& ms.wf(&fa)
    &&& ms.spec_root() == ms0.spec_root()
    &&& ms.spec_areas().len() == ms0.spec_areas().len() + 1
    &&& ms.spec_areas().drop_last() == ms0.spec_areas()
    &&& a.start() == vpn_floor(start_va as int)
    &&& a.end() == vpn_ceil(end_va as int)
    &&& a.spec_map_type() == map_type
    &&& a.spec_perm() == map_perm
    &&& same_outside(ms0.spec_pt(), ms.spec_pt(), a.start() as int, a.end() as int)
    &&& pushed_frames(a, data, fa0, fa)
}

} // verus!
