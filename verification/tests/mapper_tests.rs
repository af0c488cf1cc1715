use rboot::flags::{default_ptf, trans_flags, Arch, SegmentFlags};
use rboot::frame::FrameSource;
use rboot::mapper::{map_elf, map_physical_memory, map_segment, map_stack, Segment, SegmentKind};
use rboot::memory::PhysMemory;
use rboot::page_table::{MapToError, PageTable, UnmapError};

fn image_byte(i: usize) -> u8 {
    (i % 251) as u8
}

fn test_memory(image_pages: usize) -> PhysMemory {
    let mut image = Vec::new();
    for i in 0..image_pages * 0x1000 {
        image.push(image_byte(i));
    }
    PhysMemory { image_base: 0x10_0000, image, fresh: Vec::new() }
}

fn read_virt(pt: &PageTable, mem: &PhysMemory, va: u64) -> u8 {
    let pa = pt.translate_addr(va).expect("address must be mapped");
    mem.read_phys(pa)
}

fn rwx() -> SegmentFlags {
    SegmentFlags { read: true, write: true, execute: true }
}

#[test]
fn zero_fill_straddles_a_page() {
    // A segment whose zero-fill region starts inside a page: the page at
    // 0x401000 holds file bytes then zeros, the page at 0x402000 is all
    // zero-fill.
    let seg = Segment {
        kind: SegmentKind::Load,
        virtual_addr: 0x40_0000,
        file_offset: 0,
        file_size: 0x1800,
        mem_size: 0x2500,
        flags: rwx(),
    };
    let mut pt = PageTable { entries: Vec::new() };
    let mut fs = FrameSource { pool: vec![0x20_0000, 0x20_1000] };
    let mut mem = test_memory(2);
    let r = map_segment(&seg, 0x10_0000, &mut pt, &mut fs, &mut mem, Arch::X86_64);
    assert!(r.is_ok());
    // file-backed bytes, including the head of the shared page
    for off in [0usize, 1, 0x7ff, 0x800, 0xfff, 0x1000, 0x17fe, 0x17ff] {
        assert_eq!(read_virt(&pt, &mem, 0x40_0000 + off as u64), image_byte(off));
    }
    // the page at 0x401000: file bytes below 0x800, zeros from 0x800 on
    for off in 0..0x800usize {
        assert_eq!(read_virt(&pt, &mem, 0x40_1000 + off as u64), image_byte(0x1000 + off));
    }
    for off in 0x800..0x1000u64 {
        assert_eq!(read_virt(&pt, &mem, 0x40_1000 + off), 0);
    }
    // the page at 0x402000: zero for the whole declared memory size
    for off in 0..0x500u64 {
        assert_eq!(read_virt(&pt, &mem, 0x40_2000 + off), 0);
    }
    // both fresh frames were drawn
    assert_eq!(fs.remaining(), 0);
}

#[test]
fn no_zero_fill_allocates_nothing() {
    // With mem_size == file_size no fresh frame is drawn and all mapped
    // frames lie in the image buffer.
    let seg = Segment {
        kind: SegmentKind::Load,
        virtual_addr: 0x40_0000,
        file_offset: 0x1000,
        file_size: 0x1000,
        mem_size: 0x1000,
        flags: rwx(),
    };
    let mut pt = PageTable { entries: Vec::new() };
    let mut fs = FrameSource { pool: vec![0x20_0000] };
    let mut mem = test_memory(2);
    let r = map_segment(&seg, 0x10_0000, &mut pt, &mut fs, &mut mem, Arch::X86_64);
    assert!(r.is_ok());
    assert_eq!(fs.remaining(), 1);
    assert_eq!(mem.fresh.len(), 0);
    let pa = pt.translate_addr(0x40_0123).unwrap();
    assert!(0x10_0000 <= pa && pa < 0x10_2000);
    assert_eq!(read_virt(&pt, &mem, 0x40_0123), image_byte(0x1123));
}

#[test]
fn exhaustion_fails_the_whole_mapping() {
    let seg = Segment {
        kind: SegmentKind::Load,
        virtual_addr: 0x40_0000,
        file_offset: 0,
        file_size: 0x1800,
        mem_size: 0x2500,
        flags: rwx(),
    };
    let mut pt = PageTable { entries: Vec::new() };
    let mut fs = FrameSource { pool: vec![0x20_0000] };  // one frame short
    let mut mem = test_memory(2);
    let r = map_segment(&seg, 0x10_0000, &mut pt, &mut fs, &mut mem, Arch::X86_64);
    assert_eq!(r, Err(MapToError::FrameAllocationFailed));
}

#[test]
fn huge_entry_blocks_small_mapping() {
    let mut pt = PageTable { entries: Vec::new() };
    assert!(pt.map_to_huge(0x40_0000, 0, 3).is_ok());
    assert_eq!(pt.map_to(0x40_1000, 0x20_0000, 3), Err(MapToError::ParentEntryHugePage));
    assert_eq!(pt.unmap(0x40_1000), Err(UnmapError::ParentEntryHugePage));
}

#[test]
fn unmap_of_unmapped_page_fails_distinctly() {
    let mut pt = PageTable { entries: Vec::new() };
    assert_eq!(pt.unmap(0x40_0000), Err(UnmapError::PageNotMapped));
}

#[test]
fn double_mapping_is_refused() {
    let mut pt = PageTable { entries: Vec::new() };
    assert!(pt.map_to(0x40_0000, 0x20_0000, 3).is_ok());
    assert_eq!(pt.map_to(0x40_0000, 0x30_0000, 3), Err(MapToError::PageAlreadyMapped));
}

#[test]
fn other_segments_are_skipped() {
    let seg = Segment {
        kind: SegmentKind::Other,
        virtual_addr: 0x40_0000,
        file_offset: 0,
        file_size: 0x1000,
        mem_size: 0x1000,
        flags: rwx(),
    };
    let mut pt = PageTable { entries: Vec::new() };
    let mut fs = FrameSource { pool: Vec::new() };
    let mut mem = test_memory(1);
    let r = map_segment(&seg, 0x10_0000, &mut pt, &mut fs, &mut mem, Arch::X86_64);
    assert!(r.is_ok());
    assert!(pt.translate_addr(0x40_0000).is_none());
}

#[test]
fn map_elf_maps_all_load_segments() {
    let text = Segment {
        kind: SegmentKind::Load,
        virtual_addr: 0x40_0000,
        file_offset: 0,
        file_size: 0x1000,
        mem_size: 0x1000,
        flags: SegmentFlags { read: true, write: false, execute: true },
    };
    let skip = Segment {
        kind: SegmentKind::Other,
        virtual_addr: 0,
        file_offset: 0,
        file_size: 0,
        mem_size: 0,
        flags: rwx(),
    };
    let data = Segment {
        kind: SegmentKind::Load,
        virtual_addr: 0x60_0000,
        file_offset: 0x1000,
        file_size: 0x800,
        mem_size: 0x1800,
        flags: SegmentFlags { read: true, write: true, execute: false },
    };
    let segments = vec![text, skip, data];
    let mut pt = PageTable { entries: Vec::new() };
    let mut fs = FrameSource { pool: vec![0x20_0000, 0x20_1000] };
    let mut mem = test_memory(2);
    let r = map_elf(&segments, 0x10_0000, &mut pt, &mut fs, &mut mem, Arch::X86_64);
    assert!(r.is_ok());
    // first segment: file bytes
    assert_eq!(read_virt(&pt, &mem, 0x40_0abc), image_byte(0xabc));
    // second load segment: file bytes then zero fill
    assert_eq!(read_virt(&pt, &mem, 0x60_0123), image_byte(0x1123));
    assert_eq!(read_virt(&pt, &mem, 0x60_0900), 0);
    assert_eq!(read_virt(&pt, &mem, 0x60_1700), 0);
}

#[test]
fn map_stack_maps_writable_pages() {
    let mut pt = PageTable { entries: Vec::new() };
    let mut fs = FrameSource { pool: vec![0x20_0000, 0x20_1000, 0x20_2000] };
    let mem = test_memory(1);
    let r = map_stack(0xFFFF_FF01_0000_0000, 3, &mut pt, &mut fs, &mem, Arch::X86_64);
    assert!(r.is_ok());
    assert_eq!(fs.remaining(), 0);
    assert!(pt.translate_addr(0xFFFF_FF01_0000_0000).is_some());
    assert!(pt.translate_addr(0xFFFF_FF01_0000_2FFF).is_some());
    assert!(pt.translate_addr(0xFFFF_FF01_0000_3000).is_none());
}

#[test]
fn map_stack_reports_exhaustion() {
    let mut pt = PageTable { entries: Vec::new() };
    let mut fs = FrameSource { pool: vec![0x20_0000] };
    let mem = test_memory(1);
    let r = map_stack(0xFFFF_FF01_0000_0000, 2, &mut pt, &mut fs, &mem, Arch::X86_64);
    assert_eq!(r, Err(MapToError::FrameAllocationFailed));
}

#[test]
fn physical_memory_is_identity_mapped_at_offset() {
    // The mapped range covers the whole of [offset, offset + max_addr)
    // with no gap: every probed address translates back by plain
    // subtraction.
    let offset = 0xFFFF_8000_0000_0000u64;
    let max_addr = 0x40_0000u64;  // two huge pages
    let mut pt = PageTable { entries: Vec::new() };
    map_physical_memory(offset, max_addr, &mut pt, Arch::X86_64);
    for pa in [0u64, 1, 0x1234, 0x1F_FFFF, 0x20_0000, 0x3F_FFFF] {
        assert_eq!(pt.translate_addr(offset + pa), Some(pa));
    }
    assert_eq!(pt.entries.len(), 2);
    assert!(pt.entries[0].huge);
}

#[test]
fn physical_mapping_rounds_partial_huge_pages_up() {
    let offset = 0xFFFF_8000_0000_0000u64;
    let mut pt = PageTable { entries: Vec::new() };
    map_physical_memory(offset, 0x1_0000, &mut pt, Arch::X86_64);
    assert_eq!(pt.entries.len(), 1);
    assert_eq!(pt.translate_addr(offset + 0xFFF), Some(0xFFF));
}

#[test]
fn x86_flags_are_exact() {
    let present = 1u64;
    let writable = 1u64 << 1;
    let no_execute = 1u64 << 63;
    assert_eq!(
        trans_flags(Arch::X86_64, SegmentFlags { read: true, write: true, execute: true }),
        present | writable,
    );
    assert_eq!(
        trans_flags(Arch::X86_64, SegmentFlags { read: true, write: false, execute: false }),
        present | no_execute,
    );
    assert_eq!(
        trans_flags(Arch::X86_64, SegmentFlags { read: true, write: true, execute: false }),
        present | writable | no_execute,
    );
    assert_eq!(default_ptf(Arch::X86_64), present | writable | no_execute);
}

#[test]
fn aarch64_flags_are_exact() {
    let valid = 1u64;
    let ap_ro = 1u64 << 7;
    let pxn = 1u64 << 53;
    assert_eq!(
        trans_flags(Arch::Aarch64, SegmentFlags { read: true, write: true, execute: true }),
        valid,
    );
    assert_eq!(
        trans_flags(Arch::Aarch64, SegmentFlags { read: true, write: false, execute: false }),
        valid | ap_ro | pxn,
    );
    assert_eq!(
        trans_flags(Arch::Aarch64, SegmentFlags { read: true, write: true, execute: false }),
        valid | pxn,
    );
    assert_eq!(default_ptf(Arch::Aarch64), valid | pxn);
}

#[test]
fn segment_conflicts_fail_distinctly() {
    // a huge entry under the segment's pages is reported distinctly from a
    // plain already-mapped page
    let seg = Segment {
        kind: SegmentKind::Load,
        virtual_addr: 0x40_0000,
        file_offset: 0,
        file_size: 0x1000,
        mem_size: 0x1000,
        flags: rwx(),
    };
    let mut huge_pt = PageTable { entries: Vec::new() };
    assert!(huge_pt.map_to_huge(0x40_0000, 0, 3).is_ok());
    let mut fs = FrameSource { pool: Vec::new() };
    let mut mem = test_memory(1);
    let r = map_segment(&seg, 0x10_0000, &mut huge_pt, &mut fs, &mut mem, Arch::X86_64);
    assert_eq!(r, Err(MapToError::ParentEntryHugePage));

    let mut small_pt = PageTable { entries: Vec::new() };
    assert!(small_pt.map_to(0x40_0000, 0x30_0000, 3).is_ok());
    let mut fs = FrameSource { pool: Vec::new() };
    let mut mem = test_memory(1);
    let r = map_segment(&seg, 0x10_0000, &mut small_pt, &mut fs, &mut mem, Arch::X86_64);
    assert_eq!(r, Err(MapToError::PageAlreadyMapped));
}

#[test]
fn free_ranges_are_reported() {
    let mut pt = PageTable { entries: Vec::new() };
    assert!(pt.range_is_free(0x40_0000, 0x10_0000));
    assert!(pt.map_to(0x40_0000, 0x20_0000, 3).is_ok());
    assert!(!pt.range_is_free(0x40_0000, 0x1000));
    assert!(!pt.range_is_free(0x3F_F000, 0x2000));
    assert!(pt.range_is_free(0x40_1000, 0x1000));
    assert!(pt.range_is_free(0x40_0000, 0));
}
