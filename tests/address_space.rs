use memory_set::{
    ceil_page, floor_page, from_elf, get_map_perm, load_segments, page_base, parse_elf,
    FrameAllocator, LoadError, MapArea, MapPermission, MapType, MemorySet, MemorySetBuilder,
    PageTable, ProgramHeaderInfo, PAGE_SIZE,
};

const TRAMPOLINE: usize = usize::MAX - PAGE_SIZE + 1;
const TRAP_CONTEXT: usize = TRAMPOLINE - PAGE_SIZE;

fn rw_user() -> MapPermission {
    MapPermission::r().union(MapPermission::w()).union(MapPermission::u())
}

fn ppn_of(ms: &MemorySet, vpn: usize) -> usize {
    ms.translate(vpn).unwrap().ppn()
}

fn push_u16(v: &mut Vec<u8>, x: u16) {
    v.extend_from_slice(&x.to_le_bytes());
}

fn push_u32(v: &mut Vec<u8>, x: u32) {
    v.extend_from_slice(&x.to_le_bytes());
}

fn push_u64(v: &mut Vec<u8>, x: u64) {
    v.extend_from_slice(&x.to_le_bytes());
}

fn push_phdr(v: &mut Vec<u8>, flags: u32, offset: u64, vaddr: u64, filesz: u64, memsz: u64) {
    push_u32(v, 1);
    push_u32(v, flags);
    push_u64(v, offset);
    push_u64(v, vaddr);
    push_u64(v, vaddr);
    push_u64(v, filesz);
    push_u64(v, memsz);
    push_u64(v, 0x1000);
}

/// A 64-bit image with a code segment at 0x1000 (R+X, one page of bytes) and a BSS segment at
/// 0x2000 (R+W, no file bytes), entry point 0x1000.
fn two_segment_image() -> Vec<u8> {
    let mut v: Vec<u8> = vec![0x7f, b'E', b'L', b'F', 2, 1, 1, 0];
    v.extend_from_slice(&[0u8; 8]);
    push_u16(&mut v, 2);
    push_u16(&mut v, 0xf3);
    push_u32(&mut v, 1);
    push_u64(&mut v, 0x1000);
    push_u64(&mut v, 64);
    push_u64(&mut v, 0);
    push_u32(&mut v, 0);
    push_u16(&mut v, 64);
    push_u16(&mut v, 56);
    push_u16(&mut v, 2);
    push_u16(&mut v, 64);
    push_u16(&mut v, 0);
    push_u16(&mut v, 0);
    assert_eq!(v.len(), 64);
    push_phdr(&mut v, 5, 0x1000, 0x1000, 0x1000, 0x1000);
    push_phdr(&mut v, 6, 0, 0x2000, 0, 0x1000);
    v.resize(0x1000, 0);
    for i in 0..0x1000usize {
        v.push((i % 251) as u8 + 1);
    }
    v
}

fn seg(vaddr: u64, mem: u64, offset: u64, file: u64, flags: u32) -> ProgramHeaderInfo {
    ProgramHeaderInfo {
        is_load: true,
        virtual_addr: vaddr,
        mem_size: mem,
        offset,
        file_size: file,
        flags,
    }
}

#[test]
fn page_rounding() {
    assert_eq!(floor_page(0x1fff), 1);
    assert_eq!(ceil_page(0x1001), 2);
    assert_eq!(ceil_page(0x1000), 1);
    assert_eq!(ceil_page(usize::MAX), usize::MAX / PAGE_SIZE + 1);
    assert_eq!(page_base(3), 0x3000);
}

#[test]
fn new_area_rounds_outward() {
    let a = MapArea::new(0x1001, 0x2001, MapType::Framed, MapPermission::r());
    assert_eq!(a.start_vpn(), 1);
    assert_eq!(a.end_vpn(), 3);
    let b = MapArea::new(0x3000, 0x3000, MapType::Framed, MapPermission::r());
    assert_eq!(b.start_vpn(), 3);
    assert_eq!(b.end_vpn(), 3);
    assert!(b.end_vpn() >= b.start_vpn());
}

#[test]
fn permission_bits() {
    assert_eq!(rw_user().bits(), 2 | 4 | 16);
    assert_eq!(get_map_perm(5).bits(), 16 | 2 | 8);
    assert_eq!(get_map_perm(6).bits(), 16 | 2 | 4);
    assert_eq!(get_map_perm(0).bits(), 16);
    assert!(rw_user().contains(MapPermission::w()));
    assert!(!rw_user().contains(MapPermission::x()));
    assert_eq!(rw_user().intersection(MapPermission::w()).bits(), 4);
}

#[test]
fn spaces_have_distinct_root_tokens() {
    let mut fa = FrameAllocator::new();
    let a = MemorySet::new_bare(&mut fa);
    let b = MemorySet::new_bare(&mut fa);
    assert_ne!(a.token(), b.token());
    assert_eq!(a.token() >> 60, 8);
    assert_eq!(a.token() & 0xfff_ffff_ffff, 0);
    assert_eq!(b.token() & 0xfff_ffff_ffff, 1);
    assert!(fa.is_allocated(0));
    assert!(fa.is_allocated(1));
}

#[test]
fn map_then_translate() {
    let mut fa = FrameAllocator::new();
    let mut pt = PageTable::new(&mut fa);
    let mut a = MapArea::new(0x1000, 0x3000, MapType::Framed, rw_user());
    a.map(&mut pt, &mut fa);
    for vpn in 1..3 {
        let e = pt.translate(vpn).unwrap();
        assert_eq!(e.flags(), rw_user().bits() | 1);
        assert!(e.is_valid());
        assert!(fa.is_allocated(e.ppn()));
    }
    assert!(pt.translate(3).is_none());
    assert_ne!(pt.translate(1).unwrap().ppn(), pt.translate(2).unwrap().ppn());
}

#[test]
fn identical_area_maps_vpn_to_itself() {
    let mut fa = FrameAllocator::new();
    let mut pt = PageTable::new(&mut fa);
    let mut a = MapArea::new(0x8000, 0xa000, MapType::Identical, MapPermission::r());
    a.map(&mut pt, &mut fa);
    assert_eq!(pt.translate(8).unwrap().ppn(), 8);
    assert_eq!(pt.translate(9).unwrap().ppn(), 9);
    assert!(!fa.is_allocated(8));
}

#[test]
fn unmap_releases_frames() {
    let mut fa = FrameAllocator::new();
    let mut pt = PageTable::new(&mut fa);
    let mut a = MapArea::new(0x1000, 0x3000, MapType::Framed, rw_user());
    a.map(&mut pt, &mut fa);
    let p1 = pt.translate(1).unwrap().ppn();
    let p2 = pt.translate(2).unwrap().ppn();
    a.unmap(&mut pt, &mut fa);
    assert!(pt.translate(1).is_none());
    assert!(pt.translate(2).is_none());
    assert!(!fa.is_allocated(p1));
    assert!(!fa.is_allocated(p2));
    let q = fa.alloc_frame();
    assert!(q == p1 || q == p2);
}

#[test]
fn extend_then_shrink_round_trip() {
    let mut fa = FrameAllocator::new();
    let mut pt = PageTable::new(&mut fa);
    let mut a = MapArea::new(0x1000, 0x2000, MapType::Framed, rw_user());
    a.map(&mut pt, &mut fa);
    let p = pt.translate(1).unwrap().ppn();
    a.append_to(&mut pt, &mut fa, 4);
    assert_eq!(a.end_vpn(), 4);
    let added = [pt.translate(2).unwrap().ppn(), pt.translate(3).unwrap().ppn()];
    a.shrink_to(&mut pt, &mut fa, 2);
    assert_eq!(a.start_vpn(), 1);
    assert_eq!(a.end_vpn(), 2);
    assert_eq!(pt.translate(1).unwrap().ppn(), p);
    assert!(pt.translate(2).is_none());
    assert!(pt.translate(3).is_none());
    assert!(fa.is_allocated(p));
    assert!(!fa.is_allocated(added[0]));
    assert!(!fa.is_allocated(added[1]));
}

#[test]
fn copy_data_partial_final_page() {
    let mut fa = FrameAllocator::new();
    let mut pt = PageTable::new(&mut fa);
    let mut a = MapArea::new(0x1000, 0x3000, MapType::Framed, rw_user());
    a.map(&mut pt, &mut fa);
    let data: Vec<u8> = (0..4097usize).map(|i| (i % 200) as u8 + 1).collect();
    a.copy_data(&pt, &mut fa, &data);
    let p1 = pt.translate(1).unwrap().ppn();
    let p2 = pt.translate(2).unwrap().ppn();
    for i in 0..PAGE_SIZE {
        assert_eq!(fa.read_byte(p1, i), data[i]);
    }
    assert_eq!(fa.read_byte(p2, 0), data[4096]);
    for i in 1..PAGE_SIZE {
        assert_eq!(fa.read_byte(p2, i), 0);
    }
}

#[test]
fn push_with_data_copies_bytes() {
    let mut fa = FrameAllocator::new();
    let mut ms = MemorySet::new_bare(&mut fa);
    let data = vec![7u8, 8, 9];
    ms.push(MapArea::new(0x4000, 0x5000, MapType::Framed, rw_user()), Some(&data), &mut fa);
    let p = ppn_of(&ms, 4);
    assert_eq!(fa.read_byte(p, 0), 7);
    assert_eq!(fa.read_byte(p, 2), 9);
    assert_eq!(fa.read_byte(p, 3), 0);
    assert_eq!(ms.area_count(), 1);
}

#[test]
fn remove_missing_start_is_not_found() {
    let mut fa = FrameAllocator::new();
    let mut ms = MemorySet::new_bare(&mut fa);
    ms.insert_framed_area(0x1000, 0x3000, rw_user(), &mut fa);
    let frames = [ppn_of(&ms, 1), ppn_of(&ms, 2)];
    assert!(!ms.remove_area_with_start_vpn(2, &mut fa));
    assert_eq!(ms.area_count(), 1);
    assert!(fa.is_allocated(frames[0]));
    assert!(fa.is_allocated(frames[1]));
    assert!(ms.remove_area_with_start_vpn(1, &mut fa));
    assert_eq!(ms.area_count(), 0);
    assert!(!fa.is_allocated(frames[0]));
    assert!(ms.translate(1).is_none());
}

#[test]
fn grow_and_shrink_by_start_address() {
    let mut fa = FrameAllocator::new();
    let mut ms = MemorySet::new_bare(&mut fa);
    ms.insert_framed_area(0x10000, 0x10000, rw_user(), &mut fa);
    assert!(ms.append_to(0x10000, 0x12000, &mut fa));
    assert!(ms.translate(0x11).is_some());
    assert_eq!(ms.areas()[0].end_vpn(), 0x12);
    assert!(ms.shrink_to(0x10000, 0x10800, &mut fa));
    assert!(ms.translate(0x10).is_some());
    assert!(ms.translate(0x11).is_none());
    assert!(!ms.append_to(0x20000, 0x21000, &mut fa));
    assert!(!ms.shrink_to(0x20000, 0x21000, &mut fa));
}

#[test]
fn recycle_keeps_trampoline() {
    let mut fa = FrameAllocator::new();
    let mut ms = MemorySet::new_bare(&mut fa);
    ms.map_trampoline(floor_page(TRAMPOLINE), 0x80200, &fa);
    ms.insert_framed_area(0x1000, 0x2000, rw_user(), &mut fa);
    let p = ppn_of(&ms, 1);
    ms.recycle_data_pages(&mut fa);
    assert_eq!(ms.area_count(), 0);
    assert!(ms.translate(1).is_none());
    assert!(!fa.is_allocated(p));
    assert_eq!(ms.translate(floor_page(TRAMPOLINE)).unwrap().ppn(), 0x80200);
}

#[test]
fn clone_is_isolated() {
    let mut fa = FrameAllocator::new();
    let mut src = MemorySet::new_bare(&mut fa);
    src.map_trampoline(floor_page(TRAMPOLINE), 0x80200, &fa);
    src.insert_framed_area(0x1000, 0x3000, rw_user(), &mut fa);
    let s1 = ppn_of(&src, 1);
    let s2 = ppn_of(&src, 2);
    fa.write_byte(s1, 5, 42);
    fa.write_byte(s2, 0, 43);
    let copy = MemorySet::from_existed_user(&src, TRAMPOLINE, 0x80200000, &mut fa);
    assert_eq!(copy.area_count(), 1);
    let c1 = ppn_of(&copy, 1);
    let c2 = ppn_of(&copy, 2);
    assert!(c1 != s1 && c1 != s2 && c2 != s1 && c2 != s2);
    assert_eq!(fa.read_byte(c1, 5), 42);
    assert_eq!(fa.read_byte(c2, 0), 43);
    fa.write_byte(c1, 5, 1);
    assert_eq!(fa.read_byte(s1, 5), 42);
    fa.write_byte(s2, 0, 2);
    assert_eq!(fa.read_byte(c2, 0), 43);
    assert_eq!(ppn_of(&copy, floor_page(TRAMPOLINE)), 0x80200);
}

#[test]
fn builder_chains_regions() {
    let mut fa = FrameAllocator::new();
    let ms = MemorySetBuilder::new(&mut fa)
        .map_trampoline(TRAMPOLINE, 0x80200000, &fa)
        .push_framed(0x1000, 0x2000, rw_user(), &mut fa)
        .push_identical(0x9000, 0xa000, MapPermission::r(), &mut fa)
        .push_framed_with_data(0x4000, 0x5000, rw_user(), Some(&[1u8, 2]), &mut fa)
        .build();
    assert_eq!(ms.area_count(), 3);
    assert_eq!(ppn_of(&ms, 9), 9);
    assert_eq!(fa.read_byte(ppn_of(&ms, 4), 1), 2);
    assert_eq!(ppn_of(&ms, floor_page(TRAMPOLINE)), 0x80200);
}

#[test]
fn load_two_segment_layout() {
    let data: Vec<u8> = (0..4096usize).map(|i| (i % 7) as u8 + 1).collect();
    let segs = vec![seg(0x1000, 0x1000, 0, 4096, 5), seg(0x2000, 0x1000, 0, 0, 6)];
    let mut fa = FrameAllocator::new();
    let (ms, sp, entry) = load_segments(&segs, &data, 0x1000, TRAMPOLINE, 0x80200000, TRAP_CONTEXT, 4096, &mut fa).unwrap();
    assert_eq!(sp, 0x5000);
    assert_eq!(entry, 0x1000);
    assert_eq!(ms.area_count(), 5);
    assert!(ms.translate(3).is_none());
    assert!(ms.translate(4).is_some());
    assert!(ms.translate(5).is_none());
    assert!(ms.translate(floor_page(TRAP_CONTEXT)).is_some());
    assert_eq!(ms.translate(floor_page(TRAP_CONTEXT)).unwrap().flags(), 2 | 4 | 1);
    assert_eq!(ms.translate(floor_page(TRAMPOLINE)).unwrap().ppn(), 0x80200);
    assert_eq!(ms.translate(floor_page(TRAMPOLINE)).unwrap().flags(), 2 | 8 | 1);
    assert_eq!(ms.translate(1).unwrap().flags(), 16 | 2 | 8 | 1);
    assert_eq!(ms.translate(2).unwrap().flags(), 16 | 2 | 4 | 1);
    assert_eq!(fa.read_byte(ppn_of(&ms, 1), 10), data[10]);
    assert_eq!(fa.read_byte(ppn_of(&ms, 2), 10), 0);
    assert_eq!(ms.areas()[3].start_vpn(), 5);
    assert_eq!(ms.areas()[3].end_vpn(), 5);
}

#[test]
fn load_image_from_elf_bytes() {
    let image = two_segment_image();
    let (h, segs) = parse_elf(&image).unwrap();
    assert_eq!(h.entry_point, 0x1000);
    assert_eq!(h.ph_count, 2);
    assert_eq!(segs.len(), 2);
    assert!(segs[0].is_load);
    assert_eq!(segs[0].virtual_addr, 0x1000);
    assert_eq!(segs[0].file_size, 0x1000);
    assert_eq!(segs[1].flags, 6);
    let mut fa = FrameAllocator::new();
    let (ms, sp, entry) = from_elf(&image, TRAMPOLINE, 0x80200000, TRAP_CONTEXT, 4096, &mut fa).unwrap();
    assert_eq!(sp, 0x5000);
    assert_eq!(entry, 0x1000);
    assert_eq!(fa.read_byte(ppn_of(&ms, 1), 0), image[0x1000]);
    assert!(ms.translate(3).is_none());
    let (ms2, sp2, _) = MemorySet::from_elf(&image, TRAMPOLINE, 0x80200000, TRAP_CONTEXT, 4096, &mut fa).unwrap();
    assert_eq!(sp2, 0x5000);
    assert_eq!(ms2.area_count(), 5);
}

#[test]
fn load_rejects_bad_images() {
    let mut fa = FrameAllocator::new();
    assert_eq!(from_elf(&[1, 2, 3, 4, 5], TRAMPOLINE, 0, TRAP_CONTEXT, 4096, &mut fa).err(), Some(LoadError::InvalidElf));
    let data = vec![0u8; 16];
    let overlap = vec![seg(0x1000, 0x2000, 0, 0, 4), seg(0x2000, 0x1000, 0, 0, 4)];
    assert_eq!(load_segments(&overlap, &data, 0, TRAMPOLINE, 0, TRAP_CONTEXT, 4096, &mut fa).err(), Some(LoadError::Overlap));
    let outside = vec![seg(0x1000, 0x1000, 8, 16, 4)];
    assert_eq!(load_segments(&outside, &data, 0, TRAMPOLINE, 0, TRAP_CONTEXT, 4096, &mut fa).err(), Some(LoadError::SegmentOutOfImage));
    let wraps = vec![seg(u64::MAX - 10, 100, 0, 0, 4)];
    assert_eq!(load_segments(&wraps, &data, 0, TRAMPOLINE, 0, TRAP_CONTEXT, 4096, &mut fa).err(), Some(LoadError::AddressOverflow));
    let ok = vec![seg(0x1000, 0x1000, 0, 16, 4)];
    assert_eq!(load_segments(&ok, &data, 0, TRAMPOLINE, 0, TRAMPOLINE + 1, 4096, &mut fa).err(), Some(LoadError::TrapContextAboveTrampoline));
    assert_eq!(load_segments(&ok, &data, 0, TRAMPOLINE, 0, TRAP_CONTEXT, 100, &mut fa).err(), Some(LoadError::Overlap));
    assert!(load_segments(&ok, &data, 0, TRAMPOLINE, 0, TRAP_CONTEXT, 8192, &mut fa).is_ok());
}

#[test]
fn parse_accepts_unaligned_image() {
    let image = two_segment_image();
    let mut shifted: Vec<u8> = vec![0u8];
    shifted.extend_from_slice(&image);
    let (h, segs) = parse_elf(&shifted[1..]).unwrap();
    assert_eq!(h.entry_point, 0x1000);
    assert_eq!(segs.len(), 2);
    assert_eq!(segs[1].virtual_addr, 0x2000);
    let mut fa = FrameAllocator::new();
    let (_, sp, _) = from_elf(&shifted[1..], TRAMPOLINE, 0x80200000, TRAP_CONTEXT, 4096, &mut fa).unwrap();
    assert_eq!(sp, 0x5000);
}

#[test]
fn parse_rejects_truncated_header_table() {
    let image = two_segment_image();
    assert_eq!(parse_elf(&image[..100]).err(), Some(LoadError::InvalidElf));
    assert_eq!(parse_elf(&image[..10]).err(), Some(LoadError::InvalidElf));
}

#[test]
fn load_rejects_trap_context_on_guard_page() {
    let mut fa = FrameAllocator::new();
    let data = vec![0u8; 16];
    let ok = vec![seg(0x1000, 0x1000, 0, 16, 4)];
    assert_eq!(load_segments(&ok, &data, 0, 0x100000, 0, 0x2000, 4096, &mut fa).err(), Some(LoadError::Overlap));
    let (ms, sp, _) = load_segments(&ok, &data, 0, 0x100000, 0, 0xff000, 4096, &mut fa).unwrap();
    assert_eq!(sp, 0x4000);
    assert!(ms.translate(2).is_none());
    assert!(ms.translate(0xff).is_some());
    assert!(ms.translate(0x100).is_some());
}
