use vstd::prelude::*;
use crate::address::{ceil_page, floor_page, vpn_ceil, vpn_floor, PAGE_SIZE};
use crate::frame_allocator::{zero_page, FrameAllocator};
use crate::map_permission::{MapPermission, PERM_R, PERM_U, PERM_W, PERM_X};
use crate::map_type::MapType;
use crate::memory_area::{page_chunk, MapArea};
use crate::memory_set::{range_clear_of, MemorySet};
use crate::memory_set_builder::MemorySetBuilder;
use crate::page_table::leaf;

verus! {

/// Program-header flag bit for execute.
pub const PF_X: u32 = 1;

/// Program-header flag bit for write.
pub const PF_W: u32 = 2;

/// Program-header flag bit for read.
pub const PF_R: u32 = 4;

/// What the loader reads from an ELF file header.
#[derive(Clone, Copy, Debug, PartialEq, Eq, Structural)]
pub struct ElfHeader {
    pub is_64: bool,
    pub entry_point: u64,
    pub ph_offset: u64,
    pub ph_entry_size: u16,
    pub ph_count: u16,
}

/// What the loader reads from one program header.
#[derive(Clone, Copy, Debug, PartialEq, Eq, Structural)]
pub struct ProgramHeaderInfo {
    pub is_load: bool,
    pub virtual_addr: u64,
    pub mem_size: u64,
    pub offset: u64,
    pub file_size: u64,
    pub flags: u32,
}

/// Why an image could not be loaded.
#[derive(Clone, Copy, Debug, PartialEq, Eq, Structural)]
pub enum LoadError {
    /// The header or the program-header table cannot be read.
    InvalidElf,
    /// An address or the stack top does not fit in a machine word.
    AddressOverflow,
    /// A segment's file bytes lie outside the image or exceed its pages.
    SegmentOutOfImage,
    /// Two regions would share a page, or one would cover the trampoline page.
    Overlap,
    /// The trap-context page would start above the trampoline.
    TrapContextAboveTrampoline,
}

/// The header that xmas_elf reads from `image`, if it reads one.
pub uninterp spec fn elf_header_of(image: Seq<u8>) -> Option<ElfHeader>;

/// The program header number `index` that xmas_elf reads from `image`, if it reads one.
pub uninterp spec fn elf_program_header_of(image: Seq<u8>, index: u16) -> Option<ProgramHeaderInfo>;

/// Relies on `xmas_elf::ElfFile::new` (which fails unless the image starts with the ELF magic
/// bytes) and on the header accessors `class`, `entry_point`, `ph_offset`, `ph_entry_size` and
/// `ph_count`. xmas_elf reads the header in place and asserts that it is aligned, so the bytes
/// are first copied to an 8-byte boundary.
#[verifier::external_body]
fn read_elf_header(data: &[u8]) -> (r: Option<ElfHeader>)
    ensures
        r == elf_header_of(data@),
        r.is_some() ==> data@.len() >= 4 && data@[0] == 0x7fu8 && data@[1] == 0x45u8 && data@[2] == 0x4cu8 && data@[3] == 0x46u8,
{
    let mut buf = vec![0u8; data.len() + 8];
    let at = (8 - buf.as_ptr() as usize % 8) % 8;
    buf[at..at + data.len()].copy_from_slice(data);
    match xmas_elf::ElfFile::new(&buf[at..at + data.len()]) {
        Ok(f) => Some(ElfHeader {
            is_64: f.header.pt1.class() == xmas_elf::header::Class::SixtyFour,
            entry_point: f.header.pt2.entry_point(),
            ph_offset: f.header.pt2.ph_offset(),
            ph_entry_size: f.header.pt2.ph_entry_size(),
            ph_count: f.header.pt2.ph_count(),
        }),
        Err(_) => None,
    }
}

/// The alignment of a program header of the image's class.
pub open spec fn ph_align(h: ElfHeader) -> int {
    if h.is_64 { 8 } else { 4 }
}

/// Relies on `xmas_elf::ElfFile::program_header`, `ProgramHeader::get_type` and the program
/// header accessors. The call slices `ph_entry_size` bytes at `ph_offset + index * ph_entry_size`
/// and reads a header of 56 (64-bit) or 32 bytes from them in place, so those bytes must lie in
/// the image and start on the header's alignment (8 or 4) within it; the image is first copied to
/// an 8-byte boundary.
#[verifier::external_body]
fn read_program_header(data: &[u8], index: u16) -> (r: Option<ProgramHeaderInfo>)
    requires
        elf_header_of(data@).is_some(),
        index < elf_header_of(data@).unwrap().ph_count,
        elf_header_of(data@).unwrap().ph_offset > 0,
        elf_header_of(data@).unwrap().ph_entry_size >= (if elf_header_of(data@).unwrap().is_64 { 56u16 } else { 32u16 }),
        elf_header_of(data@).unwrap().ph_offset + (index + 1) * elf_header_of(data@).unwrap().ph_entry_size <= data@.len(),
        elf_header_of(data@).unwrap().ph_offset as int % ph_align(elf_header_of(data@).unwrap()) == 0,
        elf_header_of(data@).unwrap().ph_entry_size as int % ph_align(elf_header_of(data@).unwrap()) == 0,
    ensures
        r == elf_program_header_of(data@, index),
{
    let mut buf = vec![0u8; data.len() + 8];
    let at = (8 - buf.as_ptr() as usize % 8) % 8;
    buf[at..at + data.len()].copy_from_slice(data);
    let f = xmas_elf::ElfFile::new(&buf[at..at + data.len()]).unwrap();
    let ph = f.program_header(index).unwrap();
    let is_load = match ph.get_type() {
        Ok(xmas_elf::program::Type::Load) => true,
        Ok(_) => false,
        Err(_) => return None,
    };
    Some(ProgramHeaderInfo { is_load, virtual_addr: ph.virtual_addr(), mem_size: ph.mem_size(),
        offset: ph.offset(), file_size: ph.file_size(), flags: ph.flags().0 })
}

/// The permission bits a loaded segment gets from its program-header flags: always U, and R, W,
/// X where the flags have them.
pub open spec fn perm_bits_of(flags: u32) -> u8 {
    PERM_U | (if flags & PF_R != 0 { PERM_R } else { 0 }) | (if flags & PF_W != 0 { PERM_W } else { 0 }) | (if flags & PF_X != 0 { PERM_X } else { 0 })
}

/// Translates program-header flags into the permission of the segment's area.
pub fn get_map_perm(flags: u32) -> (r: MapPermission)
    ensures
        r.wf(),
        r.spec_bits() == perm_bits_of(flags),
{
    let r_bit: u8 = if flags & PF_R != 0 { PERM_R } else { 0 };
    let w_bit: u8 = if flags & PF_W != 0 { PERM_W } else { 0 };
    let x_bit: u8 = if flags & PF_X != 0 { PERM_X } else { 0 };
    let bits: u8 = PERM_U | r_bit | w_bit | x_bit;
    assert(bits & crate::map_permission::PERM_ALL == bits) by (bit_vector)
        requires
            r_bit == 2u8 || r_bit == 0u8,
            w_bit == 4u8 || w_bit == 0u8,
            x_bit == 8u8 || x_bit == 0u8,
            bits == 16u8 | r_bit | w_bit | x_bit,
    ;
    MapPermission::from_bits_truncate(bits)
}

/// The header and every program header of `image`, as xmas_elf reads them.
pub open spec fn parsed(image: Seq<u8>, h: ElfHeader, segs: Seq<ProgramHeaderInfo>) -> bool {
    &&& elf_header_of(image) == Some(h)
    &&& segs.len() == h.ph_count
    &&& forall|k: int| 0 <= k < segs.len() ==> elf_program_header_of(image, k as u16) == Some(#[trigger] segs[k])
}

/// The smallest entry size of a program header of the image's class.
pub open spec fn ph_min_size(h: ElfHeader) -> int {
    if h.is_64 { 56 } else { 32 }
}

/// The program-header table of `image`, described by `h`, can be read: it is empty, or it lies in
/// the image on its alignment with entries large enough, and every entry reads.
pub open spec fn table_ok(image: Seq<u8>, h: ElfHeader) -> bool {
    h.ph_count == 0 || {
        &&& h.ph_offset > 0
        &&& h.ph_entry_size >= ph_min_size(h)
        &&& h.ph_offset as int % ph_align(h) == 0
        &&& h.ph_entry_size as int % ph_align(h) == 0
        &&& h.ph_offset + h.ph_count * h.ph_entry_size <= image.len()
        &&& forall|k: int| 0 <= k < h.ph_count ==> (#[trigger] elf_program_header_of(image, k as u16)).is_some()
    }
}

/// `image` has a header and a readable program-header table.
pub open spec fn parse_ok(image: Seq<u8>) -> bool {
    elf_header_of(image) matches Some(h) && table_ok(image, h)
}

/// The program headers of `image`, in table order.
pub open spec fn parsed_segments(image: Seq<u8>) -> Seq<ProgramHeaderInfo> {
    Seq::new(elf_header_of(image).unwrap().ph_count as nat, |k: int| elf_program_header_of(image, k as u16).unwrap())
}

/// Reads the header and the program-header table of `data`.
pub fn parse_elf(data: &[u8]) -> (r: Result<(ElfHeader, Vec<ProgramHeaderInfo>), LoadError>)
    ensures
        r.is_ok() == parse_ok(data@),
        match r {
            Ok((h, segs)) => parsed(data@, h, segs@) && segs@ == parsed_segments(data@),
            Err(e) => e == LoadError::InvalidElf,
        },
{
    let h = match read_elf_header(data) {
        Some(h) => h,
        None => return Err(LoadError::InvalidElf),
    };
    let min_size: u16 = if h.is_64 { 56 } else { 32 };
    let mut segs: Vec<ProgramHeaderInfo> = Vec::new();
    if h.ph_count == 0 {
        assert(segs@ =~= parsed_segments(data@));
        return Ok((h, segs));
    }
    if h.ph_offset == 0 || h.ph_entry_size < min_size {
        return Err(LoadError::InvalidElf);
    }
    let align: u64 = if h.is_64 { 8 } else { 4 };
    if h.ph_offset % align != 0 || (h.ph_entry_size as u64) % align != 0 {
        return Err(LoadError::InvalidElf);
    }
    let len = data.len() as u64;
    assert((h.ph_count as u64) * (h.ph_entry_size as u64) <= 65535 * 65535) by (nonlinear_arith)
        requires
            h.ph_count <= 65535,
            h.ph_entry_size <= 65535,
    ;
    if h.ph_offset > len || (h.ph_count as u64) * (h.ph_entry_size as u64) > len - h.ph_offset {
        return Err(LoadError::InvalidElf);
    }
    let mut i: u16 = 0;
    while i < h.ph_count
        invariant
            elf_header_of(data@) == Some(h),
            i <= h.ph_count,
            h.ph_offset > 0,
            h.ph_entry_size >= min_size,
            min_size == (if h.is_64 { 56u16 } else { 32u16 }),
            h.ph_offset + h.ph_count * h.ph_entry_size <= data@.len(),
            h.ph_offset as int % ph_align(h) == 0,
            h.ph_entry_size as int % ph_align(h) == 0,
            segs@.len() == i,
            forall|k: int| 0 <= k < i ==> elf_program_header_of(data@, k as u16) == Some(#[trigger] segs@[k]),
        decreases h.ph_count - i,
    {
        assert((i + 1) * h.ph_entry_size <= h.ph_count * h.ph_entry_size) by (nonlinear_arith)
            requires
                i + 1 <= h.ph_count,
        ;
        match read_program_header(data, i) {
            Some(ph) => segs.push(ph),
            None => {
                assert(elf_program_header_of(data@, (i as int) as u16).is_none());
                return Err(LoadError::InvalidElf);
            },
        }
        i = i + 1;
    }
    assert forall|k: int| 0 <= k < h.ph_count implies (#[trigger] elf_program_header_of(data@, k as u16)).is_some() by {
        assert(elf_program_header_of(data@, k as u16) == Some(segs@[k]));
    }
    assert(segs@ =~= parsed_segments(data@)) by {
        assert forall|k: int| 0 <= k < segs@.len() implies segs@[k] == parsed_segments(data@)[k] by {
            assert(elf_program_header_of(data@, k as u16) == Some(segs@[k]));
        }
    }
    Ok((h, segs))
}

/// First page of a segment's area.
pub open spec fn seg_lo(s: ProgramHeaderInfo) -> int {
    vpn_floor(s.virtual_addr as int)
}

/// The page past a segment's area.
pub open spec fn seg_hi(s: ProgramHeaderInfo) -> int {
    vpn_ceil(s.virtual_addr + s.mem_size)
}

/// Two page ranges share no page.
pub open spec fn ranges_clear(lo1: int, hi1: int, lo2: int, hi2: int) -> bool {
    lo1 == hi1 || lo2 == hi2 || hi1 <= lo2 || hi2 <= lo1
}

/// A loadable segment fits the address space, its file bytes lie in the image and in its pages,
/// and it stays off the trampoline page `tv`.
pub open spec fn seg_ok(s: ProgramHeaderInfo, image_len: int, tv: int) -> bool {
    &&& s.virtual_addr + s.mem_size <= usize::MAX
    &&& s.offset + s.file_size <= image_len
    &&& s.file_size <= (seg_hi(s) - seg_lo(s)) * PAGE_SIZE as int
    &&& !(seg_lo(s) <= tv < seg_hi(s))
}

/// The number of loadable segments among the first `k`.
pub open spec fn load_count(segs: Seq<ProgramHeaderInfo>, k: int) -> int
    decreases k,
{
    if k <= 0 {
        0
    } else {
        load_count(segs, k - 1) + (if segs[k - 1].is_load { 1int } else { 0int })
    }
}

/// The highest end page among the loadable segments of the first `k`, or 0.
pub open spec fn max_end(segs: Seq<ProgramHeaderInfo>, k: int) -> int
    decreases k,
{
    if k <= 0 {
        0
    } else if segs[k - 1].is_load && seg_hi(segs[k - 1]) > max_end(segs, k - 1) {
        seg_hi(segs[k - 1])
    } else {
        max_end(segs, k - 1)
    }
}

/// The loadable segments among the first `i` are each fine and pairwise clear.
pub open spec fn prefix_ok(segs: Seq<ProgramHeaderInfo>, i: int, image_len: int, tv: int) -> bool {
    &&& forall|k: int| 0 <= k < i && (#[trigger] segs[k]).is_load ==> seg_ok(segs[k], image_len, tv)
    &&& forall|k1: int, k2: int| 0 <= k1 < k2 < i && (#[trigger] segs[k1]).is_load && (#[trigger] segs[k2]).is_load
        ==> ranges_clear(seg_lo(segs[k1]), seg_hi(segs[k1]), seg_lo(segs[k2]), seg_hi(segs[k2]))
}

/// The address just above the user stack: one guard page above the highest segment end.
pub open spec fn stack_top(segs: Seq<ProgramHeaderInfo>, stack_size: usize) -> int {
    (max_end(segs, segs.len() as int) + 1) * PAGE_SIZE as int + stack_size
}

/// Every check the loader makes passes: the segments, then the stack, the placeholder area at the
/// stack top and the trap-context page.
pub open spec fn layout_ok(segs: Seq<ProgramHeaderInfo>, image_len: int, trampoline_va: usize, trap_cx_va: usize, stack_size: usize) -> bool {
    let tv = vpn_floor(trampoline_va as int);
    let n = segs.len() as int;
    let bottom = max_end(segs, n) + 1;
    let top = stack_top(segs, stack_size);
    let trap_lo = vpn_floor(trap_cx_va as int);
    let trap_hi = vpn_ceil(trampoline_va as int);
    &&& prefix_ok(segs, n, image_len, tv)
    &&& top <= usize::MAX
    &&& top % PAGE_SIZE as int == 0
    &&& !(bottom <= tv < top / PAGE_SIZE as int)
    &&& trap_cx_va <= trampoline_va
    &&& !(trap_lo <= tv < trap_hi)
    &&& tv != bottom - 1
    &&& ranges_clear(trap_lo, trap_hi, bottom - 1, bottom)
    &&& ranges_clear(trap_lo, trap_hi, bottom, top / PAGE_SIZE as int)
    &&& forall|k: int| 0 <= k < n && (#[trigger] segs[k]).is_load ==> ranges_clear(trap_lo, trap_hi, seg_lo(segs[k]), seg_hi(segs[k]))
}

/// Every page the table of `ms` maps is the page `tv` or a page of some area.
pub open spec fn pt_bounded(ms: MemorySet, tv: usize) -> bool {
    forall|v: usize| #[trigger] ms.spec_pt().contains_key(v) ==> v == tv || exists|j: int| 0 <= j < ms.spec_areas().len() && ms.spec_areas()[j].in_range(v)
}

proof fn lemma_bounded_after_push(ms0: MemorySet, ms: MemorySet, tv: usize)
    requires
        pt_bounded(ms0, tv),
        ms.spec_areas().len() == ms0.spec_areas().len() + 1,
        ms.spec_areas().drop_last() == ms0.spec_areas(),
        crate::memory_area::same_outside(ms0.spec_pt(), ms.spec_pt(), ms.spec_areas().last().start() as int, ms.spec_areas().last().end() as int),
    ensures
        pt_bounded(ms, tv),
{
    let n = ms0.spec_areas().len() as int;
    assert forall|v: usize| #[trigger] ms.spec_pt().contains_key(v) implies v == tv || exists|j: int| 0 <= j < ms.spec_areas().len() && ms.spec_areas()[j].in_range(v) by {
        if ms.spec_areas()[n].in_range(v) {
        } else {
            assert(ms0.spec_pt().contains_key(v));
            if v != tv {
                let j = choose|j: int| 0 <= j < ms0.spec_areas().len() && ms0.spec_areas()[j].in_range(v);
                assert(ms.spec_areas()[j] == ms0.spec_areas()[j]);
            }
        }
    }
}

/// What `load_segments` builds from `segs` and `image`: the space `ms` holds one area per
/// loadable segment, in order, then the stack one guard page above the highest segment end, an
/// empty area at the stack top and the trap-context page below the trampoline; the table maps
/// the trampoline page and area pages only, so the guard page is unmapped; `sp` is the stack top
/// and `e` the entry point.
pub open spec fn program_loaded(
    ms: MemorySet,
    sp: usize,
    e: usize,
    segs: Seq<ProgramHeaderInfo>,
    image: Seq<u8>,
    entry: u64,
    trampoline_va: usize,
    trampoline_pa: usize,
    trap_cx_va: usize,
    stack_size: usize,
    fa: FrameAllocator,
) -> bool {
    let n = segs.len() as int;
    let nl = load_count(segs, n);
    let areas = ms.spec_areas();
    let tv = vpn_floor(trampoline_va as int) as usize;
    &&& ms.wf(&fa)
    &&& e == entry as usize
    &&& sp == stack_top(segs, stack_size)
    &&& areas.len() == nl + 3
    &&& forall|k: int| 0 <= k < n && (#[trigger] segs[k]).is_load ==> area_loaded(areas[load_count(segs, k)], segs[k], image, fa)
    &&& areas[nl].start() == max_end(segs, n) + 1
    &&& areas[nl].end() == sp as int / PAGE_SIZE as int
    &&& areas[nl].spec_map_type() == MapType::Framed
    &&& areas[nl].spec_perm().spec_bits() == PERM_R | PERM_W | PERM_U
    &&& areas[nl + 1].start() == sp as int / PAGE_SIZE as int
    &&& areas[nl + 1].end() == sp as int / PAGE_SIZE as int
    &&& areas[nl + 1].spec_map_type() == MapType::Framed
    &&& areas[nl + 1].spec_perm().spec_bits() == PERM_R | PERM_W | PERM_U
    &&& areas[nl + 2].start() == vpn_floor(trap_cx_va as int)
    &&& areas[nl + 2].end() == vpn_ceil(trampoline_va as int)
    &&& areas[nl + 2].spec_map_type() == MapType::Framed
    &&& areas[nl + 2].spec_perm().spec_bits() == PERM_R | PERM_W
    &&& ms.spec_pt().contains_key(tv)
    &&& ms.spec_pt()[tv] == leaf(vpn_floor(trampoline_pa as int) as usize, PERM_R | PERM_X)
    &&& forall|j: int| 0 <= j < areas.len() ==> !(#[trigger] areas[j]).in_range(tv)
    &&& pt_bounded(ms, tv)
    &&& !ms.spec_pt().contains_key(max_end(segs, n) as usize)
}

/// Some loadable segment of `segs` has property `p`.
pub open spec fn some_load(segs: Seq<ProgramHeaderInfo>, p: spec_fn(ProgramHeaderInfo) -> bool) -> bool {
    exists|k: int| 0 <= k < segs.len() && (#[trigger] segs[k]).is_load && p(segs[k])
}

/// Area `a` is the one loaded for segment `s` of `image`: its pages, framed, with the segment's
/// permission, each holding its part of the segment's file bytes and zeros after them.
pub open spec fn area_loaded(a: MapArea, s: ProgramHeaderInfo, image: Seq<u8>, fa: FrameAllocator) -> bool {
    let file = image.subrange(s.offset as int, s.offset + s.file_size);
    &&& a.start() == seg_lo(s)
    &&& a.end() == seg_hi(s)
    &&& a.spec_map_type() == MapType::Framed
    &&& a.spec_perm().spec_bits() == perm_bits_of(s.flags)
    &&& forall|v: usize| #[trigger] a.in_range(v) ==> fa.content(a.frames()[v]) == page_chunk(file, v - a.start())
        + zero_page().subrange(page_chunk(file, v - a.start()).len() as int, PAGE_SIZE as int)
}

proof fn lemma_max_end(segs: Seq<ProgramHeaderInfo>, i: int)
    requires
        0 <= i <= segs.len(),
    ensures
        forall|k: int| 0 <= k < i && (#[trigger] segs[k]).is_load ==> seg_hi(segs[k]) <= max_end(segs, i),
        max_end(segs, i) >= 0,
        load_count(segs, i) >= 0,
        load_count(segs, i) <= i,
    decreases i,
{
    if i > 0 {
        lemma_max_end(segs, i - 1);
    }
}

/// Builds the address space of a program from its program headers `segs` and image `data`:
/// the trampoline page, one framed area per loadable segment holding its file bytes, a guard
/// page, the user stack, an empty area at the stack top and the trap-context page. Returns the
/// space, the stack top and `entry`.
pub fn load_segments(
    segs: &Vec<ProgramHeaderInfo>,
    data: &[u8],
    entry: u64,
    trampoline_va: usize,
    trampoline_pa: usize,
    trap_cx_va: usize,
    stack_size: usize,
    fa: &mut FrameAllocator,
) -> (r: Result<(MemorySet, usize, usize), LoadError>)
    requires
        old(fa).wf(),
    ensures
        final(fa).wf(),
        old(fa).allocated().subset_of(final(fa).allocated()),
        forall|q: usize| #[trigger] old(fa).allocated().contains(q) ==> final(fa).content(q) == old(fa).content(q),
        r.is_ok() == layout_ok(segs@, data@.len() as int, trampoline_va, trap_cx_va, stack_size),
        r matches Err(LoadError::AddressOverflow) ==> some_load(segs@, |s: ProgramHeaderInfo| s.virtual_addr + s.mem_size > usize::MAX)
            || stack_top(segs@, stack_size) > usize::MAX,
        r matches Err(LoadError::SegmentOutOfImage) ==> some_load(segs@, |s: ProgramHeaderInfo| s.offset + s.file_size > data@.len()
            || s.file_size > (seg_hi(s) - seg_lo(s)) * PAGE_SIZE as int),
        r matches Err(LoadError::TrapContextAboveTrampoline) ==> trap_cx_va > trampoline_va,
        !(r matches Err(LoadError::InvalidElf)),
        match r {
            Ok((ms, sp, e)) => program_loaded(ms, sp, e, segs@, data@, entry, trampoline_va, trampoline_pa, trap_cx_va, stack_size, *final(fa)),
            Err(_) => true,
        },
{
    let ghost image = data@;
    let ghost sq = segs@;
    let n = segs.len();
    let len = data.len();
    let tv = floor_page(trampoline_va);
    let mut builder = MemorySetBuilder::new(fa);
    builder = builder.map_trampoline(trampoline_va, trampoline_pa, fa);
    let ghost fa0 = *fa;
    proof {
        assert forall|v: usize| #[trigger] builder.spec_set().spec_pt().contains_key(v) implies v == tv by {}
    }
    let ghost mut origin: Seq<int> = Seq::empty();
    let mut max_end_vpn: usize = 0;
    let mut i: usize = 0;
    while i < n
        invariant
            n == sq.len(),
            sq == segs@,
            image == data@,
            len == image.len(),
            tv == vpn_floor(trampoline_va as int),
            i <= n,
            fa.wf(),
            builder.spec_set().wf(fa),
            old(fa).allocated().subset_of(fa0.allocated()),
            forall|q: usize| #[trigger] old(fa).allocated().contains(q) ==> fa0.content(q) == old(fa).content(q),
            fa0.allocated().subset_of(fa.allocated()),
            forall|q: usize| #[trigger] fa0.allocated().contains(q) ==> fa.content(q) == fa0.content(q),
            builder.spec_set().spec_pt().contains_key(tv),
            builder.spec_set().spec_pt()[tv] == leaf(vpn_floor(trampoline_pa as int) as usize, PERM_R | PERM_X),
            builder.spec_set().spec_areas().len() == load_count(sq, i as int),
            origin.len() == load_count(sq, i as int),
            forall|j: int| 0 <= j < origin.len() ==> 0 <= #[trigger] origin[j] < i && sq[origin[j]].is_load && load_count(sq, origin[j]) == j,
            forall|k: int| 0 <= k < i && (#[trigger] sq[k]).is_load ==> load_count(sq, k) < origin.len() && origin[load_count(sq, k)] == k,
            forall|j: int| 0 <= j < origin.len() ==> area_loaded(#[trigger] builder.spec_set().spec_areas()[j], sq[origin[j]], image, *fa),
            prefix_ok(sq, i as int, len as int, tv as int),
            max_end_vpn == max_end(sq, i as int),
            pt_bounded(builder.spec_set(), tv),
            forall|j: int| 0 <= j < builder.spec_set().spec_areas().len() ==> !(#[trigger] builder.spec_set().spec_areas()[j]).in_range(tv),
        decreases n - i,
    {
        let ph = segs[i];
        proof {
            lemma_max_end(sq, i as int);
            lemma_max_end(sq, i as int + 1);
            assert(sq.subrange(0, i as int + 1).len() == i + 1);
        }
        if ph.is_load {
            if ph.virtual_addr > usize::MAX as u64 || ph.mem_size > usize::MAX as u64 - ph.virtual_addr {
                return Err(LoadError::AddressOverflow);
            }
            let start_va = ph.virtual_addr as usize;
            let end_va = (ph.virtual_addr + ph.mem_size) as usize;
            let s = floor_page(start_va);
            let e = ceil_page(end_va);
            if ph.offset > len as u64 || ph.file_size > len as u64 - ph.offset {
                return Err(LoadError::SegmentOutOfImage);
            }
            let off = ph.offset as usize;
            let fsz = ph.file_size as usize;
            let pages = e - s;
            if ceil_page(fsz) > pages {
                proof {
                    assert(fsz > pages * PAGE_SIZE) by (nonlinear_arith)
                        requires
                            (fsz + 4095) / 4096 > pages,
                    ;
                }
                return Err(LoadError::SegmentOutOfImage);
            }
            proof {
                assert(fsz <= pages * PAGE_SIZE) by (nonlinear_arith)
                    requires
                        (fsz + 4095) / 4096 <= pages,
                ;
            }
            if s <= tv && tv < e {
                return Err(LoadError::Overlap);
            }
            if builder.overlaps(s, e) {
                proof {
                    let j = choose|j: int| 0 <= j < builder.spec_set().spec_areas().len() && !range_clear_of(#[trigger] builder.spec_set().spec_areas()[j], s as int, e as int);
                    let k = origin[j];
                    assert(area_loaded(builder.spec_set().spec_areas()[j], sq[k], image, *fa));
                    assert(sq[k].is_load);
                    assert(!ranges_clear(seg_lo(sq[k]), seg_hi(sq[k]), seg_lo(sq[i as int]), seg_hi(sq[i as int])));
                }
                return Err(LoadError::Overlap);
            }
            let map_perm = get_map_perm(ph.flags);
            let file = vstd::slice::slice_subrange(data, off, off + fsz);
            let ghost b0 = builder.spec_set();
            let ghost fa1 = *fa;
            builder = builder.push_framed_with_data(start_va, end_va, map_perm, Some(file), fa);
            if e > max_end_vpn {
                max_end_vpn = e;
            }
            proof {
                let j0 = origin.len() as int;
                let o0 = origin;
                assert(b0.spec_areas().len() == load_count(sq, i as int));
                assert(o0.len() == load_count(sq, i as int));
                assert forall|k1: int| 0 <= k1 < i && (#[trigger] sq[k1]).is_load implies ranges_clear(seg_lo(sq[k1]), seg_hi(sq[k1]), seg_lo(sq[i as int]), seg_hi(sq[i as int])) by {
                    let j = load_count(sq, k1);
                    lemma_max_end(sq, k1);
                    assert(j < o0.len() && o0[j] == k1);
                    assert(range_clear_of(b0.spec_areas()[j], s as int, e as int));
                    assert(area_loaded(b0.spec_areas()[j], sq[o0[j]], image, fa1));
                }
                origin = origin.push(i as int);
                let areas = builder.spec_set().spec_areas();
                assert(areas.drop_last() == b0.spec_areas());
                lemma_bounded_after_push(b0, builder.spec_set(), tv);
                assert forall|j: int| 0 <= j < areas.len() implies !(#[trigger] areas[j]).in_range(tv) by {
                    if j < j0 {
                        assert(areas[j] == b0.spec_areas()[j]);
                    }
                }
                assert(b0.spec_pt().contains_key(tv));
                assert(builder.spec_set().spec_pt().contains_key(tv));
                assert forall|j: int| 0 <= j < origin.len() implies area_loaded(#[trigger] areas[j], sq[origin[j]], image, *fa) by {
                    if j < j0 {
                        let a = areas[j];
                        assert(a == b0.spec_areas()[j]);
                        assert(b0.spec_areas()[j].wf());
                        assert(area_loaded(b0.spec_areas()[j], sq[o0[j]], image, fa1));
                        assert forall|v: usize| #[trigger] a.in_range(v) implies fa.content(a.frames()[v]) == fa1.content(a.frames()[v]) by {
                            assert(a.frames().contains_key(v));
                            assert(fa1.allocated().contains(a.frames()[v]));
                        }
                    }
                }
                assert forall|j: int| 0 <= j < origin.len() implies 0 <= #[trigger] origin[j] < i + 1 && sq[origin[j]].is_load && load_count(sq, origin[j]) == j by {
                    if j < j0 {
                        assert(origin[j] == o0[j]);
                    }
                }
                assert forall|k: int| 0 <= k < i + 1 && (#[trigger] sq[k]).is_load implies load_count(sq, k) < origin.len() && origin[load_count(sq, k)] == k by {
                    lemma_max_end(sq, k);
                    if k < i {
                        assert(load_count(sq, k) < o0.len() && o0[load_count(sq, k)] == k);
                    }
                }
                assert forall|k1: int, k2: int| 0 <= k1 < k2 < i + 1 && (#[trigger] sq[k1]).is_load && (#[trigger] sq[k2]).is_load
                    implies ranges_clear(seg_lo(sq[k1]), seg_hi(sq[k1]), seg_lo(sq[k2]), seg_hi(sq[k2])) by {
                }
                assert forall|q: usize| #[trigger] fa0.allocated().contains(q) implies fa.content(q) == fa0.content(q) by {
                    assert(fa1.allocated().contains(q));
                }
            }
        } else {
            proof {
                assert forall|j: int| 0 <= j < origin.len() implies 0 <= #[trigger] origin[j] < i + 1 && sq[origin[j]].is_load && load_count(sq, origin[j]) == j by {}
            }
        }
        i = i + 1;
    }
    proof {
        lemma_max_end(sq, n as int);
    }
    if max_end_vpn >= usize::MAX / PAGE_SIZE {
        proof {
            assert((max_end_vpn + 1) * PAGE_SIZE > usize::MAX) by (nonlinear_arith)
                requires
                    max_end_vpn >= usize::MAX / 4096,
            ;
        }
        return Err(LoadError::AddressOverflow);
    }
    let bottom_vpn = max_end_vpn + 1;
    assert(bottom_vpn * PAGE_SIZE <= usize::MAX) by (nonlinear_arith)
        requires
            bottom_vpn <= usize::MAX / 4096,
    ;
    let user_stack_bottom = bottom_vpn * PAGE_SIZE;
    if stack_size > usize::MAX - user_stack_bottom {
        return Err(LoadError::AddressOverflow);
    }
    let user_stack_top = user_stack_bottom + stack_size;
    if user_stack_top % PAGE_SIZE != 0 {
        return Err(LoadError::Overlap);
    }
    let top_vpn = user_stack_top / PAGE_SIZE;
    if bottom_vpn <= tv && tv < top_vpn {
        return Err(LoadError::Overlap);
    }
    if trap_cx_va > trampoline_va {
        return Err(LoadError::TrapContextAboveTrampoline);
    }
    let trap_lo = floor_page(trap_cx_va);
    let trap_hi = ceil_page(trampoline_va);
    if trap_lo <= tv && tv < trap_hi {
        return Err(LoadError::Overlap);
    }
    if !(trap_lo == trap_hi || bottom_vpn == top_vpn || trap_hi <= bottom_vpn || top_vpn <= trap_lo) {
        return Err(LoadError::Overlap);
    }
    if tv == max_end_vpn || !(trap_lo == trap_hi || trap_hi <= max_end_vpn || bottom_vpn <= trap_lo) {
        return Err(LoadError::Overlap);
    }
    if builder.overlaps(trap_lo, trap_hi) {
        proof {
            let j = choose|j: int| 0 <= j < builder.spec_set().spec_areas().len() && !range_clear_of(#[trigger] builder.spec_set().spec_areas()[j], trap_lo as int, trap_hi as int);
            let k = origin[j];
            assert(area_loaded(builder.spec_set().spec_areas()[j], sq[k], image, *fa));
            assert(!ranges_clear(trap_lo as int, trap_hi as int, seg_lo(sq[k]), seg_hi(sq[k])));
        }
        return Err(LoadError::Overlap);
    }
    let rwu = MapPermission::r().union(MapPermission::w()).union(MapPermission::u());
    let rw = MapPermission::r().union(MapPermission::w());
    proof {
        assert forall|j: int| 0 <= j < builder.spec_set().spec_areas().len() implies range_clear_of(#[trigger] builder.spec_set().spec_areas()[j], bottom_vpn as int, top_vpn as int) by {
            let k = origin[j];
            assert(area_loaded(builder.spec_set().spec_areas()[j], sq[k], image, *fa));
        }
    }
    let ghost b1 = builder.spec_set();
    let ghost fa1 = *fa;
    builder = builder.push_framed(user_stack_bottom, user_stack_top, rwu, fa);
    let ghost b2 = builder.spec_set();
    let ghost fa2 = *fa;
    proof {
        lemma_bounded_after_push(b1, b2, tv);
        assert forall|j: int| 0 <= j < b2.spec_areas().len() implies range_clear_of(#[trigger] b2.spec_areas()[j], top_vpn as int, top_vpn as int) by {}
    }
    builder = builder.push_framed(user_stack_top, user_stack_top, rwu, fa);
    let ghost b3 = builder.spec_set();
    let ghost fa3 = *fa;
    proof {
        lemma_bounded_after_push(b2, b3, tv);
        assert forall|j: int| 0 <= j < b3.spec_areas().len() implies range_clear_of(#[trigger] b3.spec_areas()[j], trap_lo as int, trap_hi as int) by {
            if j < b1.spec_areas().len() {
                assert(b3.spec_areas()[j] == b1.spec_areas()[j]);
            }
        }
    }
    let ghost b3b = builder.spec_set();
    builder = builder.push_framed(trap_cx_va, trampoline_va, rw, fa);
    let memory_set = builder.build();
    proof {
        lemma_bounded_after_push(b3b, memory_set, tv);
        let fa4 = *fa;
        assert forall|q: usize| #[trigger] old(fa).allocated().contains(q) implies fa4.content(q) == old(fa).content(q) by {
            assert(fa0.allocated().contains(q));
            assert(fa1.allocated().contains(q));
            assert(fa2.allocated().contains(q));
            assert(fa3.allocated().contains(q));
        }
        let areas = memory_set.spec_areas();
        let nl = load_count(sq, n as int);
        assert(areas.len() == nl + 3);
        assert forall|j: int| 0 <= j < nl implies areas[j] == b1.spec_areas()[j] by {
            assert(b3.spec_areas()[j] == b2.spec_areas()[j]);
        }
        assert forall|k: int| 0 <= k < n && (#[trigger] sq[k]).is_load implies area_loaded(areas[load_count(sq, k)], sq[k], image, fa4) by {
            let j = load_count(sq, k);
            lemma_max_end(sq, k);
            assert(j < origin.len() && origin[j] == k);
            let a = areas[j];
            assert(area_loaded(b1.spec_areas()[j], sq[k], image, fa1));
            assert(b1.spec_areas()[j].wf());
            assert forall|v: usize| #[trigger] a.in_range(v) implies fa4.content(a.frames()[v]) == fa1.content(a.frames()[v]) by {
                assert(a.frames().contains_key(v));
                assert(fa1.allocated().contains(a.frames()[v]));
                assert(fa2.allocated().contains(a.frames()[v]));
                assert(fa3.allocated().contains(a.frames()[v]));
            }
        }
        assert forall|k: int| 0 <= k < n && (#[trigger] sq[k]).is_load implies ranges_clear(trap_lo as int, trap_hi as int, seg_lo(sq[k]), seg_hi(sq[k])) by {
            let j = load_count(sq, k);
            lemma_max_end(sq, k);
            assert(j < origin.len() && origin[j] == k);
            assert(range_clear_of(b3.spec_areas()[j], trap_lo as int, trap_hi as int));
            assert(b3.spec_areas()[j] == b1.spec_areas()[j]);
            assert(area_loaded(b1.spec_areas()[j], sq[k], image, fa1));
        }
        assert(b1.spec_pt().contains_key(tv));
        assert(b2.spec_pt().contains_key(tv));
        assert(b3.spec_pt().contains_key(tv));
        assert(memory_set.spec_pt().contains_key(tv));
        assert(areas[nl] == b2.spec_areas()[nl]);
        assert(areas[nl + 1] == b3.spec_areas()[nl + 1]);
        assert(layout_ok(sq, len as int, trampoline_va, trap_cx_va, stack_size));
        assert forall|j: int| 0 <= j < areas.len() implies !(#[trigger] areas[j]).in_range(tv) by {
            if j < nl {
                assert(areas[j] == b1.spec_areas()[j]);
            }
        }
        let m = max_end_vpn;
        assert forall|j: int| 0 <= j < areas.len() implies !(#[trigger] areas[j]).in_range(m) by {
            if j < nl {
                assert(areas[j] == b1.spec_areas()[j]);
                let k = origin[j];
                assert(area_loaded(b1.spec_areas()[j], sq[k], image, fa1));
                assert(seg_hi(sq[k]) <= max_end(sq, n as int));
            }
        }
        assert(!memory_set.spec_pt().contains_key(m));
        assert(program_loaded(memory_set, user_stack_top, entry as usize, sq, image, entry, trampoline_va, trampoline_pa, trap_cx_va, stack_size, fa4));
    }
    Ok((memory_set, user_stack_top, entry as usize))
}

/// Reads the ELF image `elf_data` and builds its address space as `load_segments` does. Returns
/// the space, the initial stack pointer and the image's entry point.
pub fn from_elf(
    elf_data: &[u8],
    trampoline_va: usize,
    trampoline_pa: usize,
    trap_cx_va: usize,
    user_stack_size: usize,
    fa: &mut FrameAllocator,
) -> (r: Result<(MemorySet, usize, usize), LoadError>)
    requires
        old(fa).wf(),
    ensures
        final(fa).wf(),
        old(fa).allocated().subset_of(final(fa).allocated()),
        forall|q: usize| #[trigger] old(fa).allocated().contains(q) ==> final(fa).content(q) == old(fa).content(q),
        r.is_ok() == (parse_ok(elf_data@) && layout_ok(parsed_segments(elf_data@), elf_data@.len() as int, trampoline_va, trap_cx_va, user_stack_size)),
        !parse_ok(elf_data@) ==> r == Err::<(MemorySet, usize, usize), LoadError>(LoadError::InvalidElf),
        match r {
            Ok((ms, sp, e)) => program_loaded(ms, sp, e, parsed_segments(elf_data@), elf_data@, elf_header_of(elf_data@).unwrap().entry_point,
                trampoline_va, trampoline_pa, trap_cx_va, user_stack_size, *final(fa)),
            Err(_) => true,
        },
{
    let (h, segs) = match parse_elf(elf_data) {
        Ok(p) => p,
        Err(e) => return Err(e),
    };
    let r = load_segments(&segs, elf_data, h.entry_point, trampoline_va, trampoline_pa, trap_cx_va, user_stack_size, fa);
    r
}

impl MemorySet {
    /// The address space of the ELF image `elf_data`, with its stack pointer and entry point; see
    /// `from_elf`.
    pub fn from_elf(
        elf_data: &[u8],
        trampoline_va: usize,
        trampoline_pa: usize,
        trap_cx_va: usize,
        user_stack_size: usize,
        fa: &mut FrameAllocator,
    ) -> (r: Result<(MemorySet, usize, usize), LoadError>)
        requires
            old(fa).wf(),
        ensures
            final(fa).wf(),
            old(fa).allocated().subset_of(final(fa).allocated()),
            forall|q: usize| #[trigger] old(fa).allocated().contains(q) ==> final(fa).content(q) == old(fa).content(q),
            r.is_ok() == (parse_ok(elf_data@) && layout_ok(parsed_segments(elf_data@), elf_data@.len() as int, trampoline_va, trap_cx_va, user_stack_size)),
            !parse_ok(elf_data@) ==> r == Err::<(MemorySet, usize, usize), LoadError>(LoadError::InvalidElf),
            match r {
                Ok((ms, sp, e)) => program_loaded(ms, sp, e, parsed_segments(elf_data@), elf_data@, elf_header_of(elf_data@).unwrap().entry_point,
                    trampoline_va, trampoline_pa, trap_cx_va, user_stack_size, *final(fa)),
                Err(_) => true,
            },
    {
        from_elf(elf_data, trampoline_va, trampoline_pa, trap_cx_va, user_stack_size, fa)
    }
}

} // verus!
