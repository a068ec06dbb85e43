use vstd::prelude::*;
use crate::address::{ceil_page, floor_page, vpn_ceil, vpn_floor, PAGE_SIZE};
use crate::frame_allocator::{zero_page, FrameAllocator};
use crate::map_permission::{MapPermission, PERM_R, PERM_X};
use crate::map_type::MapType;
use crate::memory_area::{frames_between, page_chunk, pages_mapped, pages_unmapped, same_outside, MapArea};
use crate::page_table::{leaf, PageTable, PageTableEntry};

verus! {

broadcast use vstd::std_specs::btree::group_btree_axioms, vstd::laws_cmp::group_laws_cmp;

/// No page lies in both areas, and no frame is owned by both.
pub open spec fn areas_disjoint(a: MapArea, b: MapArea) -> bool {
    &&& a.start() == a.end() || b.start() == b.end() || a.end() <= b.start() || b.end() <= a.start()
    &&& forall|v1: usize, v2: usize| #[trigger] a.frames().contains_key(v1) && #[trigger] b.frames().contains_key(v2) ==> a.frames()[v1] != b.frames()[v2]
}

/// The pages `[lo, hi)` meet no page of `a`.
pub open spec fn range_clear_of(a: MapArea, lo: int, hi: int) -> bool {
    a.start() == a.end() || lo == hi || a.end() <= lo || hi <= a.start()
}

/// An area clear of `[lo, hi)` stays installed and backed when the table changes only inside
/// `[lo, hi)` and no frame leaves use.
proof fn lemma_area_kept(
    a: MapArea,
    pt0: Map<usize, PageTableEntry>,
    pt: Map<usize, PageTableEntry>,
    fa0: FrameAllocator,
    fa: FrameAllocator,
    lo: int,
    hi: int,
)
    requires
        a.wf(),
        a.mapped_in(pt0),
        a.backed_by(&fa0),
        range_clear_of(a, lo, hi),
        same_outside(pt0, pt, lo, hi),
        fa0.allocated().subset_of(fa.allocated()),
    ensures
        a.mapped_in(pt),
        a.backed_by(&fa),
{
    assert forall|v: usize| #[trigger] a.in_range(v) implies pt.contains_key(v) && pt[v] == a.entry_of(v) by {
        assert(pt0.contains_key(v));
    }
    assert forall|v: usize| #[trigger] a.frames().contains_key(v) implies fa.allocated().contains(a.frames()[v]) by {
        assert(fa0.allocated().contains(a.frames()[v]));
    }
}

/// An area disjoint from `b` stays installed and backed when `b`'s pages leave the table and
/// its frames leave use.
proof fn lemma_area_kept_after_release(
    a: MapArea,
    b: MapArea,
    pt0: Map<usize, PageTableEntry>,
    pt: Map<usize, PageTableEntry>,
    fa0: FrameAllocator,
    fa: FrameAllocator,
    lo: int,
    hi: int,
)
    requires
        a.wf(),
        a.mapped_in(pt0),
        a.backed_by(&fa0),
        areas_disjoint(a, b),
        b.wf(),
        b.start() <= lo,
        hi <= b.end(),
        same_outside(pt0, pt, lo, hi),
        fa.allocated() == fa0.allocated().difference(frames_between(b.frames(), lo, hi)),
    ensures
        a.mapped_in(pt),
        a.backed_by(&fa),
{
    assert forall|v: usize| #[trigger] a.in_range(v) implies pt.contains_key(v) && pt[v] == a.entry_of(v) by {
        assert(pt0.contains_key(v));
    }
    assert forall|v: usize| #[trigger] a.frames().contains_key(v) implies fa.allocated().contains(a.frames()[v]) by {
        assert(fa0.allocated().contains(a.frames()[v]));
        if frames_between(b.frames(), lo, hi).contains(a.frames()[v]) {
            let w = choose|w: usize| lo <= w < hi && #[trigger] b.frames().contains_key(w) && b.frames()[w] == a.frames()[v];
        }
    }
}

/// An area that replaces `a` inside `a`'s pages, keeping a part of `a`'s frames, stays
/// disjoint from what `a` was disjoint from.
proof fn lemma_disjoint_shrunk(a: MapArea, a2: MapArea, b: MapArea)
    requires
        areas_disjoint(a, b),
        areas_disjoint(b, a),
        a2.start() == a.start(),
        a2.end() <= a.end(),
        a2.start() <= a2.end(),
        forall|v: usize| #[trigger] a2.frames().contains_key(v) ==> a.frames().contains_key(v) && a2.frames()[v] == a.frames()[v],
    ensures
        areas_disjoint(a2, b),
        areas_disjoint(b, a2),
{
    assert forall|v1: usize, v2: usize| #[trigger] a2.frames().contains_key(v1) && #[trigger] b.frames().contains_key(v2) implies a2.frames()[v1] != b.frames()[v2] by {
        assert(a.frames().contains_key(v1));
    }
    assert forall|v1: usize, v2: usize| #[trigger] b.frames().contains_key(v1) && #[trigger] a2.frames().contains_key(v2) implies b.frames()[v1] != a2.frames()[v2] by {
        assert(a.frames().contains_key(v2));
    }
}

/// An area that grows `a` by the pages `[a.end(), hi)` onto frames not in use before stays
/// disjoint from an area backed by frames in use and clear of the new pages.
proof fn lemma_disjoint_grown(a: MapArea, a2: MapArea, b: MapArea, fa0: FrameAllocator, hi: int)
    requires
        areas_disjoint(a, b),
        areas_disjoint(b, a),
        b.wf(),
        b.backed_by(&fa0),
        range_clear_of(b, a.end() as int, hi),
        a2.start() == a.start(),
        a2.end() == hi,
        a.start() <= a.end() <= hi,
        forall|v: usize| #[trigger] a2.frames().contains_key(v) ==> (a.frames().contains_key(v) && a2.frames()[v] == a.frames()[v])
            || !fa0.allocated().contains(a2.frames()[v]),
    ensures
        areas_disjoint(a2, b),
        areas_disjoint(b, a2),
{
    assert forall|v1: usize, v2: usize| #[trigger] a2.frames().contains_key(v1) && #[trigger] b.frames().contains_key(v2) implies a2.frames()[v1] != b.frames()[v2] by {
        assert(fa0.allocated().contains(b.frames()[v2]));
    }
    assert forall|v1: usize, v2: usize| #[trigger] b.frames().contains_key(v1) && #[trigger] a2.frames().contains_key(v2) implies b.frames()[v1] != a2.frames()[v2] by {
        assert(fa0.allocated().contains(b.frames()[v1]));
    }
}

/// The frames owned by the areas from index `k` on.
pub open spec fn owned_from(areas: Seq<MapArea>, k: int) -> Set<usize> {
    Set::new(|q: usize| exists|i: int| k <= i < areas.len() && #[trigger] areas[i].owned().contains(q))
}

/// The pages of the areas from index `k` on.
pub open spec fn covered_from(areas: Seq<MapArea>, k: int, v: usize) -> bool {
    exists|i: int| k <= i < areas.len() && #[trigger] areas[i].in_range(v)
}

proof fn lemma_owned_in_range(a: MapArea)
    requires
        a.wf(),
    ensures
        frames_between(a.frames(), a.start() as int, a.end() as int) == a.owned(),
{
    assert(frames_between(a.frames(), a.start() as int, a.end() as int) =~= a.owned()) by {
        assert forall|q: usize| #[trigger] a.owned().contains(q) implies frames_between(a.frames(), a.start() as int, a.end() as int).contains(q) by {
            let v = choose|v: usize| 0 <= v < usize::MAX as int + 1 && #[trigger] a.frames().contains_key(v) && a.frames()[v] == q;
            assert(a.in_range(v));
        }
        assert forall|q: usize| #[trigger] frames_between(a.frames(), a.start() as int, a.end() as int).contains(q) implies a.owned().contains(q) by {
            let v = choose|v: usize| a.start() <= v < a.end() && #[trigger] a.frames().contains_key(v) && a.frames()[v] == q;
        }
    }
}

/// The first `k` areas of `areas` copy the shape of those of `src`, each page backed by a frame
/// that was not in use in `fa0` and now holds what the source page held in `fa0`.
pub open spec fn cloned_prefix(areas: Seq<MapArea>, src: Seq<MapArea>, fa0: FrameAllocator, fa: FrameAllocator, k: int) -> bool {
    &&& forall|i: int| 0 <= i < k ==> (#[trigger] areas[i]).same_shape(&src[i])
    &&& forall|i: int, v: usize| 0 <= i < k && #[trigger] areas[i].frames().contains_key(v) ==> !fa0.allocated().contains(areas[i].frames()[v])
    &&& forall|i: int, v: usize| 0 <= i < k && #[trigger] areas[i].in_range(v) && areas[i].spec_map_type() == MapType::Framed
        ==> fa.content(areas[i].frames()[v]) == fa0.content(src[i].frames()[v])
}

/// What pushing `a` did to the frames: each new page owns a fresh frame, zeroed, or holding its
/// part of `data`; frames in use before keep their bytes.
pub open spec fn pushed_frames(a: MapArea, data: Option<&[u8]>, fa0: FrameAllocator, fa: FrameAllocator) -> bool {
    &&& fa.allocated() == fa0.allocated().union(a.owned())
    &&& forall|v: usize| #[trigger] a.frames().contains_key(v) ==> !fa0.allocated().contains(a.frames()[v])
    &&& forall|q: usize| #[trigger] fa0.allocated().contains(q) ==> fa.content(q) == fa0.content(q)
    &&& forall|v: usize| #[trigger] a.in_range(v) && a.spec_map_type() == MapType::Framed ==> fa.content(a.frames()[v]) == match data {
        Some(d) => page_chunk(d@, v - a.start()) + zero_page().subrange(page_chunk(d@, v - a.start()).len() as int, PAGE_SIZE as int),
        None => zero_page(),
    }
}

/// Each area is installed in `pt` and backed by frames in use in `fa`; areas share neither
/// pages nor frames.
pub open spec fn areas_wf(areas: Seq<MapArea>, pt: Map<usize, PageTableEntry>, fa: FrameAllocator) -> bool {
    &&& forall|i: int| 0 <= i < areas.len() ==> {
        &&& #[trigger] areas[i].wf()
        &&& areas[i].mapped_in(pt)
        &&& areas[i].backed_by(&fa)
    }
    &&& forall|i: int, j: int| 0 <= i < areas.len() && 0 <= j < areas.len() && i != j ==>
        areas_disjoint(#[trigger] areas[i], #[trigger] areas[j])
}

proof fn lemma_wf_after_shrink(
    areas0: Seq<MapArea>,
    idx: int,
    a2: MapArea,
    pt0: Map<usize, PageTableEntry>,
    pt: Map<usize, PageTableEntry>,
    fa0: FrameAllocator,
    fa: FrameAllocator,
    lo: int,
    hi: int,
)
    requires
        areas_wf(areas0, pt0, fa0),
        0 <= idx < areas0.len(),
        a2.wf(),
        a2.mapped_in(pt),
        a2.backed_by(&fa),
        a2.start() == areas0[idx].start(),
        a2.end() == lo,
        hi == areas0[idx].end(),
        lo <= hi,
        pages_unmapped(areas0[idx], a2, pt0, pt, fa0, fa, lo, hi),
    ensures
        areas_wf(areas0.update(idx, a2), pt, fa),
{
    let a = areas0[idx];
    let areas = areas0.update(idx, a2);
    assert(a.wf());
    assert forall|i: int| 0 <= i < areas.len() implies {
        &&& #[trigger] areas[i].wf()
        &&& areas[i].mapped_in(pt)
        &&& areas[i].backed_by(&fa)
    } by {
        if i != idx {
            assert(areas0[i].wf());
            assert(areas_disjoint(areas0[i], a));
            lemma_area_kept_after_release(areas0[i], a, pt0, pt, fa0, fa, lo, hi);
        }
    }
    assert forall|i: int, j: int| 0 <= i < areas.len() && 0 <= j < areas.len() && i != j implies
        areas_disjoint(#[trigger] areas[i], #[trigger] areas[j]) by {
        assert(areas_disjoint(areas0[i], areas0[j]));
        assert(areas_disjoint(areas0[j], areas0[i]));
        if i == idx {
            lemma_disjoint_shrunk(a, a2, areas0[j]);
        } else if j == idx {
            lemma_disjoint_shrunk(a, a2, areas0[i]);
        }
    }
}

proof fn lemma_wf_after_grow(
    areas0: Seq<MapArea>,
    idx: int,
    a2: MapArea,
    pt0: Map<usize, PageTableEntry>,
    pt: Map<usize, PageTableEntry>,
    fa0: FrameAllocator,
    fa: FrameAllocator,
    lo: int,
    hi: int,
)
    requires
        areas_wf(areas0, pt0, fa0),
        0 <= idx < areas0.len(),
        a2.wf(),
        a2.mapped_in(pt),
        a2.backed_by(&fa),
        a2.start() == areas0[idx].start(),
        a2.end() == hi,
        lo == areas0[idx].end(),
        lo <= hi,
        forall|j: int| 0 <= j < areas0.len() && j != idx ==> range_clear_of(#[trigger] areas0[j], lo, hi),
        pages_mapped(areas0[idx], a2, pt0, pt, fa0, fa, lo, hi),
    ensures
        areas_wf(areas0.update(idx, a2), pt, fa),
{
    let a = areas0[idx];
    let areas = areas0.update(idx, a2);
    assert(a.wf());
    assert(fa0.allocated().subset_of(fa.allocated()));
    assert forall|i: int| 0 <= i < areas.len() implies {
        &&& #[trigger] areas[i].wf()
        &&& areas[i].mapped_in(pt)
        &&& areas[i].backed_by(&fa)
    } by {
        if i != idx {
            assert(areas0[i].wf());
            lemma_area_kept(areas0[i], pt0, pt, fa0, fa, lo, hi);
        }
    }
    assert forall|v: usize| #[trigger] a2.frames().contains_key(v) implies (a.frames().contains_key(v) && a2.frames()[v] == a.frames()[v])
        || !fa0.allocated().contains(a2.frames()[v]) by {
        if a.spec_map_type() == MapType::Framed && !a.frames().contains_key(v) {
            assert(lo <= v < hi);
        }
    }
    assert forall|i: int, j: int| 0 <= i < areas.len() && 0 <= j < areas.len() && i != j implies
        areas_disjoint(#[trigger] areas[i], #[trigger] areas[j]) by {
        assert(areas_disjoint(areas0[i], areas0[j]));
        assert(areas_disjoint(areas0[j], areas0[i]));
        if i == idx {
            assert(areas0[j].wf());
            lemma_disjoint_grown(a, a2, areas0[j], fa0, hi);
        } else if j == idx {
            assert(areas0[i].wf());
            lemma_disjoint_grown(a, a2, areas0[i], fa0, hi);
        }
    }
}

/// A virtual address space: its areas and the page table that realizes them.
pub struct MemorySet {
    page_table: PageTable,
    areas: Vec<MapArea>,
}

impl MemorySet {
    pub closed spec fn spec_areas(&self) -> Seq<MapArea> {
        self.areas@
    }

    /// What the page table maps.
    pub closed spec fn spec_pt(&self) -> Map<usize, PageTableEntry> {
        self.page_table@
    }

    pub closed spec fn spec_root(&self) -> usize {
        self.page_table.spec_root()
    }

    pub open spec fn spec_token(&self) -> usize {
        crate::page_table::token_of(self.spec_root())
    }

    /// Each area is installed in the table and backed by frames in use in `fa`; areas share
    /// neither pages nor frames.
    pub open spec fn wf(&self, fa: &FrameAllocator) -> bool {
        &&& fa.wf()
        &&& areas_wf(self.spec_areas(), self.spec_pt(), *fa)
    }

    /// The index of the first area that starts at page `vpn`.
    pub open spec fn first_starting_at(&self, vpn: usize) -> Option<int> {
        if exists|i: int| 0 <= i < self.spec_areas().len() && #[trigger] self.spec_areas()[i].start() == vpn {
            Some(choose|i: int| 0 <= i < self.spec_areas().len() && #[trigger] self.spec_areas()[i].start() == vpn
                && forall|j: int| 0 <= j < i ==> #[trigger] self.spec_areas()[j].start() != vpn)
        } else {
            None
        }
    }

    /// A space with an empty page table, rooted in a fresh frame of `fa`, and no area.
    pub fn new_bare(fa: &mut FrameAllocator) -> (r: MemorySet)
        requires
            old(fa).wf(),
        ensures
            r.wf(final(fa)),
            r.spec_areas() == Seq::<MapArea>::empty(),
            r.spec_pt() == Map::<usize, PageTableEntry>::empty(),
            !old(fa).allocated().contains(r.spec_root()),
            final(fa).allocated() == old(fa).allocated().insert(r.spec_root()),
            forall|q: usize| #[trigger] old(fa).allocated().contains(q) ==> final(fa).content(q) == old(fa).content(q),
    {
        MemorySet { page_table: PageTable::new(fa), areas: Vec::new() }
    }

    /// The value that identifies this space's page-table root.
    pub fn token(&self) -> (r: usize)
        ensures
            r == self.spec_token(),
    {
        self.page_table.token()
    }

    /// The page-table entry of `vpn`, or `None` when it is not mapped.
    pub fn translate(&self, vpn: usize) -> (r: Option<PageTableEntry>)
        ensures
            r == (if self.spec_pt().contains_key(vpn) {
                Some(self.spec_pt()[vpn])
            } else {
                None
            }),
    {
        self.page_table.translate(vpn)
    }

    /// The areas, in the order they were added.
    pub fn areas(&self) -> (r: &Vec<MapArea>)
        ensures
            r@ == self.spec_areas(),
    {
        &self.areas
    }

    /// The number of areas.
    pub fn area_count(&self) -> (r: usize)
        ensures
            r == self.spec_areas().len(),
    {
        self.areas.len()
    }

    /// The first area that starts at page `vpn`, if any.
    pub fn find_area(&self, vpn: usize) -> (r: Option<usize>)
        ensures
            match r {
                Some(i) => i < self.spec_areas().len() && self.spec_areas()[i as int].start() == vpn
                    && forall|j: int| 0 <= j < i ==> #[trigger] self.spec_areas()[j].start() != vpn,
                None => forall|j: int| 0 <= j < self.spec_areas().len() ==> #[trigger] self.spec_areas()[j].start() != vpn,
            },
            r == (match self.first_starting_at(vpn) {
                Some(i) => Some(i as usize),
                None => None::<usize>,
            }),
    {
        let mut i: usize = 0;
        while i < self.areas.len()
            invariant
                i <= self.spec_areas().len(),
                forall|j: int| 0 <= j < i ==> #[trigger] self.spec_areas()[j].start() != vpn,
            decreases self.spec_areas().len() - i,
        {
            if self.areas[i].start_vpn() == vpn {
                proof {
                    assert(self.spec_areas()[i as int].start() == vpn);
                    let k = choose|k: int| 0 <= k < self.spec_areas().len() && #[trigger] self.spec_areas()[k].start() == vpn
                        && forall|j: int| 0 <= j < k ==> #[trigger] self.spec_areas()[j].start() != vpn;
                    assert(k == i as int) by {
                        if k < i {
                        } else if k > i {
                            assert(self.spec_areas()[i as int].start() == vpn);
                        }
                    }
                }
                return Some(i);
            }
            i = i + 1;
        }
        None
    }

    /// Whether some area has a page in `[lo, hi)`.
    pub fn overlaps_any(&self, lo: usize, hi: usize) -> (r: bool)
        requires
            lo <= hi,
        ensures
            r == !(forall|i: int| 0 <= i < self.spec_areas().len() ==> range_clear_of(#[trigger] self.spec_areas()[i], lo as int, hi as int)),
    {
        let mut i: usize = 0;
        while i < self.areas.len()
            invariant
                lo <= hi,
                i <= self.spec_areas().len(),
                forall|j: int| 0 <= j < i ==> range_clear_of(#[trigger] self.spec_areas()[j], lo as int, hi as int),
            decreases self.spec_areas().len() - i,
        {
            let s = self.areas[i].start_vpn();
            let e = self.areas[i].end_vpn();
            if !(s == e || lo == hi || e <= lo || hi <= s) {
                assert(!range_clear_of(self.spec_areas()[i as int], lo as int, hi as int));
                return true;
            }
            i = i + 1;
        }
        false
    }

    /// Installs `map_area` and appends it to the areas; with `data`, copies it into the new pages.
    pub fn push(&mut self, map_area: MapArea, data: Option<&[u8]>, fa: &mut FrameAllocator)
        requires
            old(self).wf(old(fa)),
            map_area.wf(),
            map_area.frames().is_empty(),
            forall|i: int| 0 <= i < old(self).spec_areas().len() ==> range_clear_of(#[trigger] old(self).spec_areas()[i], map_area.start() as int, map_area.end() as int),
            data.is_some() ==> map_area.spec_map_type() == MapType::Framed
                && data.unwrap()@.len() <= (map_area.end() - map_area.start()) * PAGE_SIZE,
        ensures
            final(self).wf(final(fa)),
            final(self).spec_root() == old(self).spec_root(),
            final(self).spec_areas().len() == old(self).spec_areas().len() + 1,
            final(self).spec_areas().drop_last() == old(self).spec_areas(),
            final(self).spec_areas().last().same_shape(&map_area),
            forall|v: usize| #[trigger] map_area.in_range(v) ==> final(self).spec_pt().contains_key(v)
                && final(self).spec_pt()[v].flags == map_area.spec_perm().spec_bits() | crate::page_table::PTE_V,
            same_outside(old(self).spec_pt(), final(self).spec_pt(), map_area.start() as int, map_area.end() as int),
            pushed_frames(final(self).spec_areas().last(), data, *old(fa), *final(fa)),
    {
        let ghost pt0 = self.page_table@;
        let ghost fa0 = *fa;
        let ghost given = map_area;
        let mut map_area = map_area;
        map_area.map(&mut self.page_table, fa);
        let ghost fa1 = *fa;
        match data {
            Some(d) => {
                map_area.copy_data(&self.page_table, fa, d);
            },
            None => {},
        }
        proof {
            let a = map_area;
            let lo = a.start() as int;
            let hi = a.end() as int;
            if a.spec_map_type() == MapType::Framed {
                lemma_owned_in_range(a);
                assert forall|v: usize| #[trigger] a.frames().contains_key(v) implies !fa0.allocated().contains(a.frames()[v]) by {
                    assert(a.in_range(v));
                }
                assert forall|q: usize| #[trigger] fa0.allocated().contains(q) implies fa.content(q) == fa0.content(q) by {
                    if a.owned().contains(q) {
                        let v = choose|v: usize| 0 <= v < usize::MAX as int + 1 && #[trigger] a.frames().contains_key(v) && a.frames()[v] == q;
                        assert(a.in_range(v));
                    }
                }
                assert forall|v: usize| #[trigger] a.in_range(v) && a.spec_map_type() == MapType::Framed implies fa.content(a.frames()[v]) == match data {
                    Some(d) => page_chunk(d@, v - a.start()) + zero_page().subrange(page_chunk(d@, v - a.start()).len() as int, PAGE_SIZE as int),
                    None => zero_page(),
                } by {
                    assert(fa1.content(a.frames()[v]) == zero_page());
                }
                assert(fa.allocated() == fa1.allocated());
                assert(fa.allocated() =~= fa0.allocated().union(a.owned()));
            } else {
                assert(a.owned() =~= Set::<usize>::empty());
                assert(fa.allocated() =~= fa0.allocated().union(a.owned()));
            }
            assert(pushed_frames(a, data, fa0, *fa));
            let n = self.areas@.len() as int;
            assert(self.areas@ == old(self).spec_areas());
            assert(fa0.allocated().subset_of(fa.allocated()));
            assert forall|i: int| 0 <= i < n implies #[trigger] old(self).spec_areas()[i].mapped_in(self.page_table@)
                && old(self).spec_areas()[i].backed_by(fa) by {
                assert(old(self).spec_areas()[i].wf());
                lemma_area_kept(old(self).spec_areas()[i], pt0, self.page_table@, fa0, *fa, map_area.start() as int, map_area.end() as int);
            }
            assert forall|i: int| 0 <= i < n implies areas_disjoint(#[trigger] self.areas@[i], map_area) && areas_disjoint(map_area, self.areas@[i]) by {
                let a = self.areas@[i];
                assert(range_clear_of(old(self).spec_areas()[i], map_area.start() as int, map_area.end() as int));
                assert(old(self).spec_areas()[i].wf());
                assert forall|v1: usize, v2: usize| #[trigger] a.frames().contains_key(v1) && #[trigger] map_area.frames().contains_key(v2) implies a.frames()[v1] != map_area.frames()[v2] by {
                    assert(fa0.allocated().contains(a.frames()[v1]));
                    assert(map_area.in_range(v2));
                }
            }
        }
        self.areas.push(map_area);
        proof {
            let n = old(self).spec_areas().len() as int;
            assert(self.spec_areas().drop_last() =~= old(self).spec_areas());
            assert forall|i: int, j: int| 0 <= i < self.spec_areas().len() && 0 <= j < self.spec_areas().len() && i != j implies
                areas_disjoint(#[trigger] self.spec_areas()[i], #[trigger] self.spec_areas()[j]) by {
                if i < n && j < n {
                    assert(areas_disjoint(old(self).spec_areas()[i], old(self).spec_areas()[j]));
                }
            }
            assert forall|i: int| 0 <= i < self.spec_areas().len() implies {
                &&& #[trigger] self.spec_areas()[i].wf()
                &&& self.spec_areas()[i].mapped_in(self.spec_pt())
                &&& self.spec_areas()[i].backed_by(fa)
            } by {
                if i < n {
                    assert(self.spec_areas()[i] == old(self).spec_areas()[i]);
                    assert(old(self).spec_areas()[i].wf());
                    assert(old(self).spec_areas()[i].mapped_in(self.spec_pt()));
                }
            }
            let last = self.spec_areas()[n];
            assert(last.mapped_in(self.spec_pt()));
            assert(last.same_shape(&given));
            assert forall|v: usize| #[trigger] given.in_range(v) implies self.spec_pt().contains_key(v)
                && self.spec_pt()[v].flags == given.spec_perm().spec_bits() | crate::page_table::PTE_V by {
                assert(last.in_range(v));
            }
        }
    }

    /// Installs a framed area over the pages that hold `[start_va, end_va)`, with no content.
    pub fn insert_framed_area(&mut self, start_va: usize, end_va: usize, permission: MapPermission, fa: &mut FrameAllocator)
        requires
            old(self).wf(old(fa)),
            start_va <= end_va,
            permission.wf(),
            forall|i: int| 0 <= i < old(self).spec_areas().len() ==> range_clear_of(#[trigger] old(self).spec_areas()[i], vpn_floor(start_va as int), vpn_ceil(end_va as int)),
        ensures
            final(self).wf(final(fa)),
            final(self).spec_root() == old(self).spec_root(),
            final(self).spec_areas().drop_last() == old(self).spec_areas(),
            final(self).spec_areas().len() == old(self).spec_areas().len() + 1,
            final(self).spec_areas().last().start() == vpn_floor(start_va as int),
            final(self).spec_areas().last().end() == vpn_ceil(end_va as int),
            final(self).spec_areas().last().spec_map_type() == MapType::Framed,
            final(self).spec_areas().last().spec_perm() == permission,
            same_outside(old(self).spec_pt(), final(self).spec_pt(), vpn_floor(start_va as int), vpn_ceil(end_va as int)),
            pushed_frames(final(self).spec_areas().last(), None, *old(fa), *final(fa)),
    {
        let area = MapArea::new(start_va, end_va, MapType::Framed, permission);
        self.push(area, None, fa);
    }

    /// Maps the trampoline page `vpn -> ppn`, readable and executable, outside every area.
    pub fn map_trampoline(&mut self, vpn: usize, ppn: usize, fa: &FrameAllocator)
        requires
            old(self).wf(fa),
            forall|i: int| 0 <= i < old(self).spec_areas().len() ==> !(#[trigger] old(self).spec_areas()[i]).in_range(vpn),
        ensures
            final(self).wf(fa),
            final(self).spec_root() == old(self).spec_root(),
            final(self).spec_areas() == old(self).spec_areas(),
            final(self).spec_pt() == old(self).spec_pt().insert(vpn, leaf(ppn, PERM_R | PERM_X)),
    {
        let rx = MapPermission::r().union(MapPermission::x());
        self.page_table.map(vpn, ppn, rx.bits());
        proof {
            assert(self.spec_areas() == old(self).spec_areas());
            assert forall|i: int| 0 <= i < self.spec_areas().len() implies #[trigger] self.spec_areas()[i].mapped_in(self.spec_pt()) by {
                let a = self.spec_areas()[i];
                assert(old(self).spec_areas()[i].wf());
                assert forall|v: usize| #[trigger] a.in_range(v) implies self.spec_pt().contains_key(v) && self.spec_pt()[v] == a.entry_of(v) by {
                    assert(old(self).spec_areas()[i].in_range(v));
                    assert(old(self).spec_pt().contains_key(v));
                }
            }
        }
    }

    /// Removes the first area that starts at page `start_vpn`, releasing its frames; returns
    /// whether there was one.
    pub fn remove_area_with_start_vpn(&mut self, start_vpn: usize, fa: &mut FrameAllocator) -> (r: bool)
        requires
            old(self).wf(old(fa)),
        ensures
            final(self).wf(final(fa)),
            final(self).spec_root() == old(self).spec_root(),
            r == old(self).first_starting_at(start_vpn).is_some(),
            match old(self).first_starting_at(start_vpn) {
                Some(i) => {
                    let a = old(self).spec_areas()[i];
                    &&& final(self).spec_areas() == old(self).spec_areas().remove(i)
                    &&& same_outside(old(self).spec_pt(), final(self).spec_pt(), a.start() as int, a.end() as int)
                    &&& forall|v: usize| #[trigger] a.in_range(v) ==> !final(self).spec_pt().contains_key(v)
                    &&& final(fa).allocated() == old(fa).allocated().difference(a.owned())
                    &&& forall|q: usize| #[trigger] final(fa).allocated().contains(q) ==> final(fa).content(q) == old(fa).content(q)
                },
                None => *final(self) == *old(self) && *final(fa) == *old(fa),
            },
    {
        match self.find_area(start_vpn) {
            Some(idx) => {
                let ghost pt0 = self.page_table@;
                let ghost fa0 = *fa;
                let ghost areas0 = self.areas@;
                let mut area = self.areas.remove(idx);
                assert(areas0[idx as int].wf());
                area.unmap(&mut self.page_table, fa);
                proof {
                    let a = areas0[idx as int];
                    assert(self.areas@ == areas0.remove(idx as int));
                    lemma_owned_in_range(a);
                    assert forall|i: int| 0 <= i < self.spec_areas().len() implies {
                        &&& #[trigger] self.spec_areas()[i].wf()
                        &&& self.spec_areas()[i].mapped_in(self.spec_pt())
                        &&& self.spec_areas()[i].backed_by(fa)
                    } by {
                        let k = if i < idx { i } else { i + 1 };
                        assert(self.spec_areas()[i] == areas0[k]);
                        assert(areas0[k].wf());
                        assert(areas_disjoint(areas0[k], a));
                        lemma_area_kept_after_release(areas0[k], a, pt0, self.page_table@, fa0, *fa, a.start() as int, a.end() as int);
                    }
                    assert forall|i: int, j: int| 0 <= i < self.spec_areas().len() && 0 <= j < self.spec_areas().len() && i != j implies
                        areas_disjoint(#[trigger] self.spec_areas()[i], #[trigger] self.spec_areas()[j]) by {
                        let ki = if i < idx { i } else { i + 1 };
                        let kj = if j < idx { j } else { j + 1 };
                        assert(areas_disjoint(areas0[ki], areas0[kj]));
                    }
                }
                true
            },
            None => false,
        }
    }

    /// Shrinks the first area that starts at the page of `start` so that it ends at the page
    /// boundary at or above `new_end`; returns whether there was such an area.
    pub fn shrink_to(&mut self, start: usize, new_end: usize, fa: &mut FrameAllocator) -> (r: bool)
        requires
            old(self).wf(old(fa)),
            match old(self).first_starting_at(vpn_floor(start as int) as usize) {
                Some(i) => old(self).spec_areas()[i].start() <= vpn_ceil(new_end as int) <= old(self).spec_areas()[i].end(),
                None => true,
            },
        ensures
            final(self).wf(final(fa)),
            final(self).spec_root() == old(self).spec_root(),
            r == old(self).first_starting_at(vpn_floor(start as int) as usize).is_some(),
            match old(self).first_starting_at(vpn_floor(start as int) as usize) {
                Some(i) => {
                    let a = old(self).spec_areas()[i];
                    let a2 = final(self).spec_areas()[i];
                    &&& final(self).spec_areas() == old(self).spec_areas().update(i, a2)
                    &&& a2.start() == a.start()
                    &&& a2.end() == vpn_ceil(new_end as int)
                    &&& a2.spec_map_type() == a.spec_map_type()
                    &&& a2.spec_perm() == a.spec_perm()
                    &&& pages_unmapped(a, a2, old(self).spec_pt(), final(self).spec_pt(), *old(fa), *final(fa), a2.end() as int, a.end() as int)
                },
                None => *final(self) == *old(self) && *final(fa) == *old(fa),
            },
    {
        let svpn = floor_page(start);
        let evpn = ceil_page(new_end);
        match self.find_area(svpn) {
            Some(idx) => {
                let ghost pt0 = self.page_table@;
                let ghost fa0 = *fa;
                let ghost areas0 = self.areas@;
                let mut area = self.areas.remove(idx);
                assert(areas0[idx as int].wf());
                let end = area.end_vpn();
                area.shrink_to(&mut self.page_table, fa, evpn);
                let ghost a2 = area;
                self.areas.insert(idx, area);
                proof {
                    assert(self.areas@ =~= areas0.update(idx as int, a2));
                    lemma_wf_after_shrink(areas0, idx as int, a2, pt0, self.page_table@, fa0, *fa, evpn as int, end as int);
                }
                true
            },
            None => false,
        }
    }

    /// Grows the first area that starts at the page of `start` so that it ends at the page
    /// boundary at or above `new_end`; returns whether there was such an area.
    pub fn append_to(&mut self, start: usize, new_end: usize, fa: &mut FrameAllocator) -> (r: bool)
        requires
            old(self).wf(old(fa)),
            match old(self).first_starting_at(vpn_floor(start as int) as usize) {
                Some(i) => {
                    &&& old(self).spec_areas()[i].end() <= vpn_ceil(new_end as int)
                    &&& forall|j: int| 0 <= j < old(self).spec_areas().len() && j != i ==> range_clear_of(#[trigger] old(self).spec_areas()[j], old(self).spec_areas()[i].end() as int, vpn_ceil(new_end as int))
                },
                None => true,
            },
        ensures
            final(self).wf(final(fa)),
            final(self).spec_root() == old(self).spec_root(),
            r == old(self).first_starting_at(vpn_floor(start as int) as usize).is_some(),
            match old(self).first_starting_at(vpn_floor(start as int) as usize) {
                Some(i) => {
                    let a = old(self).spec_areas()[i];
                    let a2 = final(self).spec_areas()[i];
                    &&& final(self).spec_areas() == old(self).spec_areas().update(i, a2)
                    &&& a2.start() == a.start()
                    &&& a2.end() == vpn_ceil(new_end as int)
                    &&& a2.spec_map_type() == a.spec_map_type()
                    &&& a2.spec_perm() == a.spec_perm()
                    &&& pages_mapped(a, a2, old(self).spec_pt(), final(self).spec_pt(), *old(fa), *final(fa), a.end() as int, a2.end() as int)
                },
                None => *final(self) == *old(self) && *final(fa) == *old(fa),
            },
    {
        let svpn = floor_page(start);
        let evpn = ceil_page(new_end);
        match self.find_area(svpn) {
            Some(idx) => {
                let ghost pt0 = self.page_table@;
                let ghost fa0 = *fa;
                let ghost areas0 = self.areas@;
                let mut area = self.areas.remove(idx);
                assert(areas0[idx as int].wf());
                let end = area.end_vpn();
                area.append_to(&mut self.page_table, fa, evpn);
                let ghost a2 = area;
                self.areas.insert(idx, area);
                proof {
                    assert(self.areas@ =~= areas0.update(idx as int, a2));
                    lemma_wf_after_grow(areas0, idx as int, a2, pt0, self.page_table@, fa0, *fa, end as int, evpn as int);
                }
                true
            },
            None => false,
        }
    }

    /// Removes every area, taking its pages out of the table and releasing its frames; the
    /// table's other entries (the trampoline) stay.
    pub fn recycle_data_pages(&mut self, fa: &mut FrameAllocator)
        requires
            old(self).wf(old(fa)),
        ensures
            final(self).wf(final(fa)),
            final(self).spec_root() == old(self).spec_root(),
            final(self).spec_areas() == Seq::<MapArea>::empty(),
            final(fa).allocated() == old(fa).allocated().difference(owned_from(old(self).spec_areas(), 0)),
            forall|q: usize| #[trigger] final(fa).allocated().contains(q) ==> final(fa).content(q) == old(fa).content(q),
            forall|v: usize| #[trigger] final(self).spec_pt().contains_key(v) == (old(self).spec_pt().contains_key(v) && !covered_from(old(self).spec_areas(), 0, v)),
            forall|v: usize| #[trigger] final(self).spec_pt().contains_key(v) ==> final(self).spec_pt()[v] == old(self).spec_pt()[v],
    {
        let ghost areas0 = self.areas@;
        let ghost n = areas0.len() as int;
        proof {
            assert(owned_from(areas0, n) =~= Set::<usize>::empty());
            assert(old(fa).allocated() =~= old(fa).allocated().difference(owned_from(areas0, n)));
        }
        while self.areas.len() > 0
            invariant
                fa.wf(),
                self.areas@ == areas0.subrange(0, self.areas@.len() as int),
                self.areas@.len() <= n,
                n == areas0.len(),
                areas_wf(areas0, old(self).spec_pt(), *old(fa)),
                areas_wf(self.areas@, self.page_table@, *fa),
                self.page_table.spec_root() == old(self).spec_root(),
                fa.allocated() == old(fa).allocated().difference(owned_from(areas0, self.areas@.len() as int)),
                forall|q: usize| #[trigger] fa.allocated().contains(q) ==> fa.content(q) == old(fa).content(q),
                forall|v: usize| #[trigger] self.page_table@.contains_key(v) == (old(self).spec_pt().contains_key(v) && !covered_from(areas0, self.areas@.len() as int, v)),
                forall|v: usize| #[trigger] self.page_table@.contains_key(v) ==> self.page_table@[v] == old(self).spec_pt()[v],
            decreases self.areas@.len(),
        {
            let ghost k = (self.areas@.len() - 1) as int;
            let ghost pt1 = self.page_table@;
            let ghost fa1 = *fa;
            let ghost rest = self.areas@;
            let mut area = self.areas.pop().unwrap();
            assert(area == areas0[k]);
            assert(rest[k].wf());
            area.unmap(&mut self.page_table, fa);
            proof {
                let a = areas0[k];
                lemma_owned_in_range(a);
                assert(self.areas@ =~= areas0.subrange(0, k));
                assert forall|i: int| 0 <= i < self.areas@.len() implies {
                    &&& #[trigger] self.areas@[i].wf()
                    &&& self.areas@[i].mapped_in(self.page_table@)
                    &&& self.areas@[i].backed_by(fa)
                } by {
                    assert(rest[i] == self.areas@[i]);
                    assert(rest[i].wf());
                    assert(areas_disjoint(rest[i], rest[k]));
                    lemma_area_kept_after_release(rest[i], a, pt1, self.page_table@, fa1, *fa, a.start() as int, a.end() as int);
                }
                assert forall|i: int, j: int| 0 <= i < self.areas@.len() && 0 <= j < self.areas@.len() && i != j implies
                    areas_disjoint(#[trigger] self.areas@[i], #[trigger] self.areas@[j]) by {
                    assert(areas_disjoint(rest[i], rest[j]));
                }
                assert(owned_from(areas0, k) =~= owned_from(areas0, k + 1).union(a.owned())) by {
                    assert forall|q: usize| #[trigger] owned_from(areas0, k).contains(q) implies owned_from(areas0, k + 1).union(a.owned()).contains(q) by {
                        let i = choose|i: int| k <= i < areas0.len() && #[trigger] areas0[i].owned().contains(q);
                        if i != k {
                            assert(owned_from(areas0, k + 1).contains(q));
                        }
                    }
                    assert forall|q: usize| owned_from(areas0, k + 1).union(a.owned()).contains(q) implies #[trigger] owned_from(areas0, k).contains(q) by {
                        if a.owned().contains(q) {
                            assert(areas0[k].owned().contains(q));
                        } else {
                            let i = choose|i: int| k + 1 <= i < areas0.len() && #[trigger] areas0[i].owned().contains(q);
                            assert(areas0[i].owned().contains(q));
                        }
                    }
                }
                assert(fa.allocated() =~= old(fa).allocated().difference(owned_from(areas0, k)));
                assert forall|q: usize| #[trigger] fa.allocated().contains(q) implies fa.content(q) == old(fa).content(q) by {
                    assert(fa1.allocated().contains(q));
                }
                assert forall|v: usize| #[trigger] self.page_table@.contains_key(v) == (old(self).spec_pt().contains_key(v) && !covered_from(areas0, k, v)) by {
                    if a.in_range(v) {
                        assert(areas0[k].in_range(v));
                    } else if covered_from(areas0, k, v) {
                        let i = choose|i: int| k <= i < areas0.len() && #[trigger] areas0[i].in_range(v);
                        assert(covered_from(areas0, k + 1, v));
                    } else if covered_from(areas0, k + 1, v) {
                        let i = choose|i: int| k + 1 <= i < areas0.len() && #[trigger] areas0[i].in_range(v);
                        assert(areas0[i].in_range(v));
                    }
                }
            }
        }
        proof {
            assert(self.areas@ =~= Seq::<MapArea>::empty());
        }
    }

    /// A copy of `user_space`: the trampoline page mapped at the same place, then every area with
    /// the same shape on fresh frames that receive the bytes of the source's frames.
    pub fn from_existed_user(user_space: &MemorySet, trampoline_va: usize, trampoline_pa: usize, fa: &mut FrameAllocator) -> (r: MemorySet)
        requires
            user_space.wf(old(fa)),
            forall|i: int| 0 <= i < user_space.spec_areas().len() ==> !(#[trigger] user_space.spec_areas()[i]).in_range(vpn_floor(trampoline_va as int) as usize),
        ensures
            r.wf(final(fa)),
            user_space.wf(final(fa)),
            r.spec_areas().len() == user_space.spec_areas().len(),
            cloned_prefix(r.spec_areas(), user_space.spec_areas(), *old(fa), *final(fa), r.spec_areas().len() as int),
            old(fa).allocated().subset_of(final(fa).allocated()),
            forall|q: usize| #[trigger] old(fa).allocated().contains(q) ==> final(fa).content(q) == old(fa).content(q),
            r.spec_pt().contains_key(vpn_floor(trampoline_va as int) as usize),
            r.spec_pt()[vpn_floor(trampoline_va as int) as usize] == leaf(vpn_floor(trampoline_pa as int) as usize, PERM_R | PERM_X),
    {
        let ghost fa0 = *fa;
        let ghost src = user_space.spec_areas();
        let tv = floor_page(trampoline_va);
        let mut memory_set = MemorySet::new_bare(fa);
        proof {
            assert forall|q: usize| #[trigger] fa0.allocated().contains(q) implies fa.allocated().contains(q) by {}
        }
        memory_set.map_trampoline(tv, floor_page(trampoline_pa), fa);
        let n = user_space.areas.len();
        let mut i: usize = 0;
        while i < n
            invariant
                n == src.len(),
                src == user_space.spec_areas(),
                i <= n,
                user_space.wf(&fa0),
                memory_set.wf(fa),
                memory_set.spec_areas().len() == i,
                cloned_prefix(memory_set.spec_areas(), src, fa0, *fa, i as int),
                fa0.allocated().subset_of(fa.allocated()),
                forall|q: usize| #[trigger] fa0.allocated().contains(q) ==> fa.content(q) == fa0.content(q),
                forall|j: int| 0 <= j < n ==> !(#[trigger] src[j]).in_range(tv),
                memory_set.spec_pt().contains_key(tv),
                memory_set.spec_pt()[tv] == leaf(vpn_floor(trampoline_pa as int) as usize, PERM_R | PERM_X),
                tv == vpn_floor(trampoline_va as int),
            decreases n - i,
        {
            let area = &user_space.areas[i];
            assert(src[i as int].wf());
            let new_area = MapArea::from_another(area);
            proof {
                assert forall|j: int| 0 <= j < memory_set.spec_areas().len() implies range_clear_of(#[trigger] memory_set.spec_areas()[j], new_area.start() as int, new_area.end() as int) by {
                    assert(areas_disjoint(src[j], src[i as int]));
                    assert(memory_set.spec_areas()[j].same_shape(&src[j]));
                }
            }
            let ghost ms1 = memory_set;
            let ghost fa1 = *fa;
            memory_set.push(new_area, None, fa);
            let ghost fa2 = *fa;
            let ghost na = memory_set.spec_areas()[i as int];
            assert(memory_set.spec_areas()[i as int] == memory_set.spec_areas().last());
            assert(na.wf());
            if area.map_type() == MapType::Framed {
                let start = area.start_vpn();
                let end = area.end_vpn();
                let mut vpn = start;
                while vpn < end
                    invariant
                        start <= vpn <= end,
                        start == na.start(),
                        end == na.end(),
                        na.spec_map_type() == MapType::Framed,
                        na.wf(),
                        na.mapped_in(memory_set.spec_pt()),
                        na.backed_by(fa),
                        src[i as int].wf(),
                        src[i as int].mapped_in(user_space.spec_pt()),
                        src[i as int].backed_by(&fa0),
                        src[i as int].same_shape(&na),
                        fa.wf(),
                        fa.allocated() == fa2.allocated(),
                        forall|v: usize| #[trigger] na.frames().contains_key(v) ==> !fa1.allocated().contains(na.frames()[v]),
                        fa0.allocated().subset_of(fa1.allocated()),
                        fa0.allocated().subset_of(fa.allocated()),
                        forall|q: usize| #[trigger] fa0.allocated().contains(q) ==> fa.content(q) == fa0.content(q),
                        forall|q: usize| !na.owned().contains(q) ==> #[trigger] fa.content(q) == fa2.content(q),
                        forall|v: usize| #[trigger] na.in_range(v) && v < vpn ==> fa.content(na.frames()[v]) == fa0.content(src[i as int].frames()[v]),
                    decreases end - vpn,
                {
                    assert(na.in_range(vpn));
                    assert(src[i as int].in_range(vpn));
                    let src_ppn = user_space.translate(vpn).unwrap().ppn();
                    let dst_ppn = memory_set.translate(vpn).unwrap().ppn();
                    assert(na.frames().contains_key(vpn));
                    assert(src[i as int].frames().contains_key(vpn));
                    assert(fa0.allocated().contains(src_ppn));
                    let ghost fa3 = *fa;
                    fa.copy_frame(src_ppn, dst_ppn);
                    proof {
                        assert(src_ppn != dst_ppn);
                        assert forall|q: usize| #[trigger] fa0.allocated().contains(q) implies fa.content(q) == fa0.content(q) by {
                            assert(fa1.allocated().contains(q));
                        }
                        assert forall|q: usize| !na.owned().contains(q) implies #[trigger] fa.content(q) == fa2.content(q) by {
                            if q == dst_ppn {
                                assert(na.owned().contains(q));
                            }
                        }
                        assert forall|v: usize| #[trigger] na.in_range(v) && v < vpn + 1 implies fa.content(na.frames()[v]) == fa0.content(src[i as int].frames()[v]) by {
                            if v != vpn {
                                assert(na.frames().contains_key(v));
                            }
                        }
                    }
                    vpn = vpn + 1;
                }
            }
            proof {
                let k = i as int;
                let areas = memory_set.spec_areas();
                assert(!src[k].in_range(tv));
                assert(ms1.spec_pt().contains_key(tv));
                assert(memory_set.spec_pt().contains_key(tv));
                assert(areas.drop_last() == ms1.spec_areas());
                assert forall|j: int| 0 <= j < k implies areas[j] == ms1.spec_areas()[j] by {}
                assert(fa.allocated() == fa2.allocated());
                assert forall|j: int| 0 <= j < areas.len() implies #[trigger] areas[j].backed_by(fa) by {
                    assert(areas[j].wf());
                }
                assert forall|q: usize| #[trigger] fa0.allocated().contains(q) implies fa.content(q) == fa0.content(q) by {}
                assert forall|j: int, v: usize| 0 <= j < k + 1 && #[trigger] areas[j].in_range(v) && areas[j].spec_map_type() == MapType::Framed
                    implies fa.content(areas[j].frames()[v]) == fa0.content(src[j].frames()[v]) by {
                    if j < k {
                        assert(areas[j] == ms1.spec_areas()[j]);
                        assert(ms1.spec_areas()[j].wf());
                        assert(ms1.spec_areas()[j].frames().contains_key(v));
                        assert(fa1.allocated().contains(areas[j].frames()[v]));
                        if na.owned().contains(areas[j].frames()[v]) {
                            let w = choose|w: usize| 0 <= w < usize::MAX as int + 1 && #[trigger] na.frames().contains_key(w) && na.frames()[w] == areas[j].frames()[v];
                        }
                    }
                }
                assert forall|j: int, v: usize| 0 <= j < k + 1 && #[trigger] areas[j].frames().contains_key(v) implies !fa0.allocated().contains(areas[j].frames()[v]) by {
                    if j == k {
                        assert(!fa1.allocated().contains(areas[j].frames()[v]));
                    } else {
                        assert(areas[j] == ms1.spec_areas()[j]);
                    }
                }
                assert forall|j: int| 0 <= j < k + 1 implies (#[trigger] areas[j]).same_shape(&src[j]) by {
                    if j < k {
                        assert(areas[j] == ms1.spec_areas()[j]);
                    }
                }
                assert(!src[k].in_range(tv));
            }
            i = i + 1;
        }
        proof {
            assert forall|j: int| 0 <= j < src.len() implies #[trigger] src[j].backed_by(fa) by {
                assert(src[j].wf());
            }
        }
        memory_set
    }
}

/// In a well-formed space every page of every area translates to an entry whose flags are the
/// area's permission bits with the valid bit.
pub proof fn lemma_mapped_pages_translate(ms: MemorySet, fa: FrameAllocator, i: int, vpn: usize)
    requires
        ms.wf(&fa),
        0 <= i < ms.spec_areas().len(),
        ms.spec_areas()[i].in_range(vpn),
    ensures
        ms.spec_pt().contains_key(vpn),
        ms.spec_pt()[vpn].flags == ms.spec_areas()[i].spec_perm().spec_bits() | crate::page_table::PTE_V,
        ms.spec_pt()[vpn].ppn == ms.spec_areas()[i].ppn_of(vpn),
{
    assert(ms.spec_areas()[i].wf());
}

/// A copy made by `from_existed_user` shares no frame with its source: no frame of any clone
/// area is a frame of any source area, so a write to a frame of one (`write_byte` changes only the
/// frame it is given) leaves the bytes of the other as they were.
pub proof fn lemma_clone_isolated(clone: MemorySet, src: MemorySet, fa0: FrameAllocator, fa: FrameAllocator, i: int, v: usize, j: int, w: usize)
    requires
        src.wf(&fa0),
        clone.spec_areas().len() == src.spec_areas().len(),
        cloned_prefix(clone.spec_areas(), src.spec_areas(), fa0, fa, clone.spec_areas().len() as int),
        0 <= i < clone.spec_areas().len(),
        0 <= j < src.spec_areas().len(),
        clone.spec_areas()[i].frames().contains_key(v),
        src.spec_areas()[j].frames().contains_key(w),
    ensures
        clone.spec_areas()[i].frames()[v] != src.spec_areas()[j].frames()[w],
{
    assert(src.spec_areas()[j].wf());
    assert(fa0.allocated().contains(src.spec_areas()[j].frames()[w]));
}

} // verus!
