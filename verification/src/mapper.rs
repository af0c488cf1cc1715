//! The segment mapper and the physical-memory mapper.
//!
//! `map_segment` installs the mappings for one loadable segment of the
//! kernel image: the file-backed part is mapped directly onto the frames of
//! the image buffer (no copy), and the zero-fill part is backed by fresh
//! frames, with the page that straddles file data and zero-fill data copied
//! into a fresh frame before its tail is zeroed. `map_physical_memory`
//! identity-maps physical memory at a fixed offset with huge pages.

use vstd::prelude::*;

verus! {

use crate::{
    align_down as align_down_u, align_up as align_up_u, HUGE_PAGE_SIZE,
    lemma_align_down_mono, lemma_align_down_props, lemma_align_down_shift, lemma_aligned_diff,
    lemma_aligned_le, lemma_align_up_mono, lemma_align_up_props, spec_align_down, spec_align_up,
    MAX_ALIGNABLE, PAGE_SIZE,
};
use crate::flags::{spec_trans_flags, trans_flags, Arch, SegmentFlags};
use crate::frame::FrameSource;
use crate::memory::PhysMemory;
use crate::page_table::{entry_covers, entry_size, MapToError, PageTable};

/// Kind of an executable-image segment; only `Load` segments are mapped.
#[derive(Clone, Copy, PartialEq, Eq, Structural, Debug)]
pub enum SegmentKind {
    Load,
    Other,
}

/// A loadable-segment descriptor, as the executable image's headers state
/// it: `mem_size >= file_size`, and the range beyond `file_size` is the
/// zero-fill region.
#[derive(Clone, Copy, PartialEq, Eq, Structural, Debug)]
pub struct Segment {
    pub kind: SegmentKind,
    pub virtual_addr: u64,
    pub file_offset: u64,
    pub file_size: u64,
    pub mem_size: u64,
    pub flags: SegmentFlags,
}

/// The byte visible at virtual address `va` through page table `pt` and
/// physical memory `mem`.
pub open spec fn virt_byte(pt: PageTable, mem: PhysMemory, va: int) -> Option<u8> {
    match pt.translate(va) {
        Some(pa) => mem.phys_byte(pa),
        None => None,
    }
}

/// Every frame still in the pool lies outside all memory known to `mem`.
pub open spec fn pool_free(fs: FrameSource, mem: PhysMemory) -> bool {
    forall|i: int| 0 <= i < fs.pool@.len() ==> mem.base_free(#[trigger] fs.pool@[i])
}

/// Map `n_pages` consecutive pages starting at `start_page` onto the
/// consecutive frames starting at `start_frame`. Mirrors one native mapping
/// call per page; stops at the first page that is already covered.
fn map_range_to_frames(
    page_table: &mut PageTable,
    start_page: u64,
    start_frame: u64,
    n_pages: u64,
    flags: u64,
) -> (r: Result<(), MapToError>)
    requires
        old(page_table).wf(),
        start_page % PAGE_SIZE == 0,
        start_frame % PAGE_SIZE == 0,
        start_page + n_pages * PAGE_SIZE <= u64::MAX + 1,
        start_frame + n_pages * PAGE_SIZE <= u64::MAX + 1,
    ensures
        final(page_table).wf(),
        r is Ok <==> old(page_table).range_free(start_page as int, n_pages * PAGE_SIZE),
        r matches Err(e) ==> e != MapToError::FrameAllocationFailed && (exists|x: int|
            start_page <= x < start_page + n_pages * PAGE_SIZE && #[trigger] old(
                page_table,
            ).covered(x) && ((e == MapToError::ParentEntryHugePage) <==> old(page_table).huge_at(
                x,
            ))),
        forall|va: int|
            !(start_page <= va < start_page + n_pages * PAGE_SIZE)
                ==> #[trigger] final(page_table).entry_at(va) == old(page_table).entry_at(va),
        r is Ok ==> forall|va: int|
            start_page <= va < start_page + n_pages * PAGE_SIZE
                ==> (#[trigger] final(page_table).entry_at(va) matches Some(e) && e.flags == flags
                && !e.huge) && final(page_table).translate(va) == Some(
                start_frame + (va - start_page),
            ),
{
    let mut i: u64 = 0;
    while i < n_pages
        invariant
            page_table.wf(),
            old(page_table).wf(),
            start_page % PAGE_SIZE == 0,
            start_frame % PAGE_SIZE == 0,
            start_page + n_pages * PAGE_SIZE <= u64::MAX + 1,
            start_frame + n_pages * PAGE_SIZE <= u64::MAX + 1,
            0 <= i <= n_pages,
            forall|va: int|
                !(start_page <= va < start_page + i * PAGE_SIZE) ==> #[trigger] page_table.entry_at(
                    va,
                ) == old(page_table).entry_at(va),
            forall|va: int|
                start_page <= va < start_page + i * PAGE_SIZE ==> (
                #[trigger] page_table.entry_at(va) matches Some(e)
                    && e.flags == flags
                    && !e.huge) && page_table.translate(va) == Some(
                    start_frame + (va - start_page),
                ),
            forall|va: int|
                start_page <= va < start_page + i * PAGE_SIZE
                    ==> #[trigger] old(page_table).entry_at(va) is None,
        decreases n_pages - i,
    {
        let page = start_page + i * PAGE_SIZE;
        let frame = start_frame + i * PAGE_SIZE;
        let ghost before = *page_table;
        match page_table.map_to(page, frame, flags) {
            Ok(()) => {},
            Err(e) => {
                proof {
                    assert(page_table.entry_at(page as int) == old(page_table).entry_at(
                        page as int,
                    ));
                    assert(before.covered(page as int));
                    assert(before.entry_at(page as int) is Some);
                    assert(old(page_table).entry_at(page as int) is Some);
                    assert(old(page_table).covered(page as int));
                    assert(before.huge_at(page as int) == old(page_table).huge_at(page as int));
                    assert((e == MapToError::ParentEntryHugePage) <==> old(page_table).huge_at(
                        page as int,
                    ));
                    let w = old(page_table).idx_of(page as int);
                    assert(entry_covers(old(page_table).entries@[w], page as int));
                    assert(!old(page_table).range_free(start_page as int, n_pages * PAGE_SIZE));
                }
                return Err(e);
            },
        }
        proof {
            assert forall|va: int|
                start_page <= va < start_page + (i + 1) * PAGE_SIZE implies (
            #[trigger] page_table.entry_at(va) matches Some(e)
                && e.flags == flags
                && !e.huge) && page_table.translate(va) == Some(
                start_frame + (va - start_page),
            ) by {
                if va < start_page + i * PAGE_SIZE {
                    assert(before.entry_at(va) matches Some(e) && e.flags == flags && !e.huge);
                    assert(page_table.entry_at(va) == before.entry_at(va));
                } else {
                    assert(page <= va < page + PAGE_SIZE);
                }
            }
            assert forall|va: int|
                start_page <= va < start_page + (i + 1) * PAGE_SIZE implies #[trigger] old(page_table).entry_at(va) is None by {
                if va < start_page + i * PAGE_SIZE {
                } else {
                    assert(page <= va < page + PAGE_SIZE);
                    if old(page_table).covered(va) {
                        old(page_table).lemma_covered_page(va);
                        lemma_align_down_props(va);
                        lemma_aligned_le(page as int, va);
                        if page < spec_align_down(va) {
                            crate::page_table::lemma_multiple_sep(
                                page as int,
                                spec_align_down(va),
                                PAGE_SIZE as int,
                            );
                        }
                        assert(spec_align_down(va) == page);
                        assert(before.entry_at(page as int) == old(page_table).entry_at(
                            page as int,
                        ));
                        assert(false);
                    }
                }
            }
        }
        i = i + 1;
    }
    proof {
        if !old(page_table).range_free(start_page as int, n_pages * PAGE_SIZE) {
            let w = choose|w: int|
                0 <= w < old(page_table).entries@.len() && !((#[trigger] old(page_table).entries@[w]).virt_page
                    + entry_size(old(page_table).entries@[w]) <= start_page
                    || old(page_table).entries@[w].virt_page >= start_page + n_pages * PAGE_SIZE);
            let e = old(page_table).entries@[w];
            let va: int = if e.virt_page >= start_page {
                e.virt_page as int
            } else {
                start_page as int
            };
            assert(entry_covers(e, va));
            old(page_table).lemma_entry_at(w, va);
            assert(old(page_table).entry_at(va) is Some);
            assert(false);
        }
    }
    Ok(())
}



/// A prefix of a prefix of a pool is a prefix of the pool.
proof fn lemma_prefix_chain(p0: Seq<u64>, p1: Seq<u64>, p2: Seq<u64>)
    requires
        p1.len() <= p0.len(),
        p1 == p0.take(p1.len() as int),
        p2.len() <= p1.len(),
        p2 == p1.take(p2.len() as int),
    ensures
        p2 == p0.take(p2.len() as int),
{
    assert(p2 =~= p0.take(p2.len() as int));
}

/// Allocate one frame, fill it with zeros, and map `page` onto it.
#[verifier::rlimit(100)]
fn map_one_zero_page(
    page_table: &mut PageTable,
    mem: &mut PhysMemory,
    frame_allocator: &mut FrameSource,
    page: u64,
    flags: u64,
) -> (r: Result<(), MapToError>)
    requires
        old(page_table).wf(),
        old(mem).wf(),
        old(frame_allocator).wf(),
        pool_free(*old(frame_allocator), *old(mem)),
        page % PAGE_SIZE == 0,
        page <= MAX_ALIGNABLE,
    ensures
        final(page_table).wf(),
        final(mem).wf(),
        final(frame_allocator).wf(),
        pool_free(*final(frame_allocator), *final(mem)),
        final(mem).image_base == old(mem).image_base,
        final(mem).image@ == old(mem).image@,
        old(mem).fresh@.len() <= final(mem).fresh@.len(),
        final(mem).fresh@.subrange(0, old(mem).fresh@.len() as int) == old(mem).fresh@,
        forall|pa: int|
            old(mem).phys_byte(pa) is Some ==> #[trigger] final(mem).phys_byte(pa) == old(
                mem,
            ).phys_byte(pa),
        final(frame_allocator).pool@.len() <= old(frame_allocator).pool@.len()
            && final(frame_allocator).pool@ == old(frame_allocator).pool@.take(
            final(frame_allocator).pool@.len() as int,
        ),
        r is Ok <==> (old(frame_allocator).pool@.len() > 0 && !old(page_table).covered(
            page as int,
        )),
        r matches Err(e) && e == MapToError::FrameAllocationFailed ==> old(
            frame_allocator,
        ).pool@.len() == 0 && *final(mem) == *old(mem) && final(frame_allocator).pool@ == old(
            frame_allocator,
        ).pool@,
        r matches Err(e) ==> (e != MapToError::FrameAllocationFailed ==> old(
            page_table,
        ).covered(page as int) && ((e == MapToError::ParentEntryHugePage) <==> old(
            page_table,
        ).huge_at(page as int))),
        r is Err ==> *final(page_table) == *old(page_table),
        r is Ok ==> final(frame_allocator).pool@ == old(frame_allocator).pool@.drop_last(),
        r is Ok ==> final(mem).fresh@.len() == old(mem).fresh@.len() + 1,
        r is Ok ==> forall|va: int|
            page <= va < page + PAGE_SIZE ==> (#[trigger] final(page_table).entry_at(va)
                matches Some(e) && e.flags == flags && !e.huge) && (final(page_table).translate(va)
                matches Some(pa) && final(mem).has_fresh(pa) && final(mem).phys_byte(pa) == Some(
                0u8,
            ) && old(mem).phys_byte(pa) is None),
        r is Ok ==> forall|va: int|
            !(page <= va < page + PAGE_SIZE) ==> #[trigger] final(page_table).entry_at(va) == old(
                page_table,
            ).entry_at(va),
{
    let f = match frame_allocator.allocate_frame() {
        Some(f) => f,
        None => {
            proof {
                assert(frame_allocator.pool@ =~= old(frame_allocator).pool@.take(
                    frame_allocator.pool@.len() as int,
                ));
            }
            return Err(MapToError::FrameAllocationFailed);
        },
    };
    proof {
        assert(mem.base_free(f));
        assert(frame_allocator.pool@ =~= old(frame_allocator).pool@.take(
            frame_allocator.pool@.len() as int,
        ));
    }
    mem.push_zero_frame(f);
    proof {
        assert forall|k: int| 0 <= k < frame_allocator.pool@.len() implies mem.base_free(
            #[trigger] frame_allocator.pool@[k],
        ) by {
            assert(old(mem).base_free(old(frame_allocator).pool@[k]));
            assert(old(frame_allocator).pool@[k] != f) by {
                let plen = old(frame_allocator).pool@.len() as int;
                assert(f == old(frame_allocator).pool@[plen - 1]);
            }
            assert forall|j: int| 0 <= j < mem.fresh@.len() implies (
            #[trigger] mem.fresh@[j].base) != frame_allocator.pool@[k] by {
                if j < old(mem).fresh@.len() {
                    assert(mem.fresh@[j] == mem.fresh@.subrange(
                        0,
                        old(mem).fresh@.len() as int,
                    )[j]);
                }
            }
        }
    }
    let ghost mem_mid = *mem;
    match page_table.map_to(page, f, flags) {
        Ok(()) => {},
        Err(e) => {
            return Err(e);
        },
    }
    proof {
        let nf = mem.fresh@.len() as int - 1;
        assert forall|va: int| page <= va < page + PAGE_SIZE implies (
        #[trigger] page_table.entry_at(va) matches Some(e) && e.flags == flags && !e.huge) && (
        page_table.translate(va) matches Some(pa) && mem.has_fresh(pa) && mem.phys_byte(pa)
            == Some(0u8) && old(mem).phys_byte(pa) is None) by {
            let pa = f + (va - page);
            assert(page_table.translate(va) == Some(pa));
            assert(crate::memory::frame_covers(f, pa));
            mem.lemma_fresh_byte(nf, pa);
            assert(!old(mem).in_image(pa)) by {
                assert(old(mem).base_outside_image(f));
            }
            assert(!old(mem).has_fresh(pa)) by {
                if old(mem).has_fresh(pa) {
                    let j = old(mem).fresh_idx(pa);
                    assert(crate::memory::frame_covers(old(mem).fresh@[j].base, pa));
                    assert(old(mem).fresh@[j].base != f);
                    crate::memory::lemma_aligned_bases_eq(old(mem).fresh@[j].base as int, f as int);
                    assert(false);
                }
            }
        }
    }
    Ok(())
}

/// Map `n_pages` pages from `zp_start` onto freshly allocated frames, each
/// explicitly zeroed. One frame is drawn from the source per page; the
/// first exhaustion fails the whole operation.
#[verifier::rlimit(100)]
#[verifier::spinoff_prover]
fn map_zero_pages(
    page_table: &mut PageTable,
    mem: &mut PhysMemory,
    frame_allocator: &mut FrameSource,
    zp_start: u64,
    n_pages: u64,
    flags: u64,
) -> (r: Result<(), MapToError>)
    requires
        old(page_table).wf(),
        old(mem).wf(),
        old(frame_allocator).wf(),
        pool_free(*old(frame_allocator), *old(mem)),
        zp_start % PAGE_SIZE == 0,
        zp_start + n_pages * PAGE_SIZE <= u64::MAX + 1,
    ensures
        final(page_table).wf(),
        final(mem).wf(),
        final(frame_allocator).wf(),
        pool_free(*final(frame_allocator), *final(mem)),
        final(mem).image_base == old(mem).image_base,
        final(mem).image@ == old(mem).image@,
        old(mem).fresh@.len() <= final(mem).fresh@.len(),
        final(mem).fresh@.subrange(0, old(mem).fresh@.len() as int) == old(mem).fresh@,
        forall|pa: int|
            old(mem).phys_byte(pa) is Some ==> #[trigger] final(mem).phys_byte(pa) == old(
                mem,
            ).phys_byte(pa),
        forall|va: int|
            !(zp_start <= va < zp_start + n_pages * PAGE_SIZE)
                ==> #[trigger] final(page_table).entry_at(va) == old(page_table).entry_at(va),
        final(frame_allocator).pool@.len() <= old(frame_allocator).pool@.len()
            && final(frame_allocator).pool@ == old(frame_allocator).pool@.take(
            final(frame_allocator).pool@.len() as int,
        ),
        r is Ok <==> (n_pages <= old(frame_allocator).pool@.len() && old(page_table).range_free(
            zp_start as int,
            n_pages * PAGE_SIZE,
        )),
        r matches Err(e) && e == MapToError::FrameAllocationFailed ==> old(
            frame_allocator,
        ).pool@.len() < n_pages,
        r matches Err(e) ==> (e != MapToError::FrameAllocationFailed ==> !old(
            page_table,
        ).range_free(zp_start as int, n_pages * PAGE_SIZE) && (exists|x: int|
            zp_start <= x < zp_start + n_pages * PAGE_SIZE && #[trigger] old(page_table).covered(
                x,
            ) && ((e == MapToError::ParentEntryHugePage) <==> old(page_table).huge_at(x)))),
        r is Ok ==> final(frame_allocator).pool@ == old(frame_allocator).pool@.take(
            old(frame_allocator).pool@.len() - n_pages as int,
        ),
        r is Ok ==> forall|va: int|
            zp_start <= va < zp_start + n_pages * PAGE_SIZE
                ==> (#[trigger] final(page_table).entry_at(va) matches Some(e) && e.flags == flags
                && !e.huge) && (final(page_table).translate(va) matches Some(pa)
                && final(mem).has_fresh(pa) && final(mem).phys_byte(pa) == Some(0u8) && old(
                mem,
            ).phys_byte(pa) is None),
{
    let mut i: u64 = 0;
    while i < n_pages
        invariant
            page_table.wf(),
            old(page_table).wf(),
            mem.wf(),
            frame_allocator.wf(),
            old(frame_allocator).wf(),
            pool_free(*frame_allocator, *mem),
            zp_start % PAGE_SIZE == 0,
            zp_start + n_pages * PAGE_SIZE <= u64::MAX + 1,
            0 <= i <= n_pages,
            i <= old(frame_allocator).pool@.len(),
            frame_allocator.pool@ == old(frame_allocator).pool@.take(
                old(frame_allocator).pool@.len() - i as int,
            ),
            mem.image_base == old(mem).image_base,
            mem.image@ == old(mem).image@,
            mem.fresh@.len() == old(mem).fresh@.len() + i,
            mem.fresh@.subrange(0, old(mem).fresh@.len() as int) == old(mem).fresh@,
            forall|pa: int|
                old(mem).phys_byte(pa) is Some ==> #[trigger] mem.phys_byte(pa) == old(
                    mem,
                ).phys_byte(pa),
            forall|va: int|
                !(zp_start <= va < zp_start + i * PAGE_SIZE)
                    ==> #[trigger] page_table.entry_at(va) == old(page_table).entry_at(va),
            old(mem).wf(),
            forall|va: int|
                zp_start <= va < zp_start + i * PAGE_SIZE ==> (
                #[trigger] page_table.entry_at(va) matches Some(e) && e.flags == flags && !e.huge)
                    && (page_table.translate(va) matches Some(pa) && mem.has_fresh(pa)
                    && mem.phys_byte(pa) == Some(0u8) && old(mem).phys_byte(pa) is None),
            forall|va: int|
                zp_start <= va < zp_start + i * PAGE_SIZE
                    ==> #[trigger] old(page_table).entry_at(va) is None,
        decreases n_pages - i,
    {
        let page = zp_start + i * PAGE_SIZE;
        let ghost mem_before = *mem;
        let ghost pt_before = *page_table;
        let ghost fa_before = *frame_allocator;
        match map_one_zero_page(page_table, mem, frame_allocator, page, flags) {
            Ok(()) => {},
            Err(e) => {
                proof {
                    if e == MapToError::FrameAllocationFailed {
                        assert(fa_before.pool@.len() == 0);
                        assert(old(frame_allocator).pool@.len() - i as int == 0);
                    } else {
                        assert(pt_before.covered(page as int));
                        assert(pt_before.entry_at(page as int) == old(page_table).entry_at(
                            page as int,
                        ));
                        assert(old(page_table).covered(page as int));
                        assert(pt_before.huge_at(page as int) == old(page_table).huge_at(
                            page as int,
                        ));
                        assert((e == MapToError::ParentEntryHugePage) <==> old(
                            page_table,
                        ).huge_at(page as int));
                        let w = old(page_table).idx_of(page as int);
                        assert(entry_covers(old(page_table).entries@[w], page as int));
                        assert(!old(page_table).range_free(zp_start as int, n_pages * PAGE_SIZE));
                    }
                    assert forall|pa: int|
                        old(mem).phys_byte(pa) is Some implies #[trigger] mem.phys_byte(pa) == old(
                        mem,
                    ).phys_byte(pa) by {
                        assert(mem_before.phys_byte(pa) == old(mem).phys_byte(pa));
                    }
                    assert(mem.fresh@.subrange(0, old(mem).fresh@.len() as int)
                        =~= old(mem).fresh@) by {
                        assert(mem_before.fresh@.subrange(0, old(mem).fresh@.len() as int)
                            == old(mem).fresh@);
                        assert forall|j: int| 0 <= j < old(mem).fresh@.len() implies mem.fresh@[j]
                            == old(mem).fresh@[j] by {
                            assert(mem.fresh@[j] == mem.fresh@.subrange(
                                0,
                                mem_before.fresh@.len() as int,
                            )[j]);
                            assert(mem_before.fresh@[j] == mem_before.fresh@.subrange(
                                0,
                                old(mem).fresh@.len() as int,
                            )[j]);
                        }
                    }
                    assert(fa_before.pool@ == old(frame_allocator).pool@.take(
                        fa_before.pool@.len() as int,
                    ));
                    lemma_prefix_chain(
                        old(frame_allocator).pool@,
                        fa_before.pool@,
                        frame_allocator.pool@,
                    );
                }
                return Err(e);
            },
        }
        proof {
            let plen = old(frame_allocator).pool@.len() as int;
            assert(fa_before.pool@.len() > 0);
            assert(frame_allocator.pool@ =~= old(frame_allocator).pool@.take(plen - (i + 1)));
            assert(mem.fresh@.subrange(0, old(mem).fresh@.len() as int) =~= old(mem).fresh@) by {
                assert(mem_before.fresh@.subrange(0, old(mem).fresh@.len() as int) == old(
                    mem,
                ).fresh@);
                assert(old(mem).fresh@.len() <= mem_before.fresh@.len() <= mem.fresh@.len());
                assert forall|j: int| 0 <= j < old(mem).fresh@.len() implies mem.fresh@[j] == old(
                    mem,
                ).fresh@[j] by {
                    assert(mem.fresh@[j] == mem.fresh@.subrange(
                        0,
                        mem_before.fresh@.len() as int,
                    )[j]);
                    assert(mem_before.fresh@[j] == mem_before.fresh@.subrange(
                        0,
                        old(mem).fresh@.len() as int,
                    )[j]);
                }
            }
            assert forall|va: int|
                zp_start <= va < zp_start + (i + 1) * PAGE_SIZE implies (
            #[trigger] page_table.entry_at(va) matches Some(e) && e.flags == flags && !e.huge) && (
            page_table.translate(va) matches Some(pa) && mem.has_fresh(pa) && mem.phys_byte(pa)
                == Some(0u8) && old(mem).phys_byte(pa) is None) by {
                if va < zp_start + i * PAGE_SIZE {
                    assert(pt_before.entry_at(va) matches Some(e) && e.flags == flags && !e.huge);
                    assert(page_table.entry_at(va) == pt_before.entry_at(va));
                    let pa = pt_before.translate(va).unwrap();
                    assert(mem_before.has_fresh(pa) && mem_before.phys_byte(pa) == Some(0u8));
                    mem_before.lemma_has_fresh_grows(*mem, pa);
                    assert(mem.phys_byte(pa) == Some(0u8));
                    assert(old(mem).phys_byte(pa) is None);
                } else {
                    assert(page <= va < page + PAGE_SIZE);
                    let pa = page_table.translate(va).unwrap();
                    assert(mem_before.phys_byte(pa) is None);
                    assert(old(mem).phys_byte(pa) is None);
                }
            }
            assert forall|va: int|
                zp_start <= va < zp_start + (i + 1) * PAGE_SIZE implies #[trigger] old(
                page_table,
            ).entry_at(va) is None by {
                if va < zp_start + i * PAGE_SIZE {
                } else {
                    assert(page <= va < page + PAGE_SIZE);
                    if old(page_table).covered(va) {
                        old(page_table).lemma_covered_page(va);
                        lemma_align_down_props(va);
                        lemma_aligned_le(page as int, va);
                        if page < spec_align_down(va) {
                            crate::page_table::lemma_multiple_sep(
                                page as int,
                                spec_align_down(va),
                                PAGE_SIZE as int,
                            );
                        }
                        assert(spec_align_down(va) == page);
                        assert(pt_before.entry_at(page as int) == old(page_table).entry_at(
                            page as int,
                        ));
                        assert(!pt_before.covered(page as int));
                        assert(false);
                    }
                }
            }
        }
        i = i + 1;
    }
    proof {
        if !old(page_table).range_free(zp_start as int, n_pages * PAGE_SIZE) {
            old(page_table).lemma_range_free_iff_uncovered(zp_start as int, n_pages * PAGE_SIZE);
            let va = choose|va: int|
                zp_start <= va < zp_start + n_pages * PAGE_SIZE && #[trigger] old(
                    page_table,
                ).covered(va);
            assert(old(page_table).entry_at(va) is Some);
            assert(false);
        }
        assert(frame_allocator.pool@ == old(frame_allocator).pool@.take(
            old(frame_allocator).pool@.len() - n_pages as int,
        ));
        assert(frame_allocator.pool@ =~= old(frame_allocator).pool@.take(
            frame_allocator.pool@.len() as int,
        ));
    }
    Ok(())
}

/// Write zero over the virtual range `[start, end)` in one pass through the
/// current mappings. Every address in the range must be mapped onto a fresh
/// frame; the image buffer is never written.
#[verifier::rlimit(100)]
fn zero_virt_range(page_table: &PageTable, mem: &mut PhysMemory, start: u64, end: u64)
    requires
        page_table.wf(),
        old(mem).wf(),
        start <= end,
        forall|va: int|
            start <= va < end ==> (#[trigger] page_table.translate(va) matches Some(pa) && old(
                mem,
            ).has_fresh(pa)),
    ensures
        final(mem).wf(),
        final(mem).image_base == old(mem).image_base,
        final(mem).image@ == old(mem).image@,
        final(mem).fresh@.len() == old(mem).fresh@.len(),
        forall|i: int|
            0 <= i < old(mem).fresh@.len() ==> (#[trigger] final(mem).fresh@[i]).base == old(
                mem,
            ).fresh@[i].base,
        forall|va: int|
            start <= va < end ==> #[trigger] virt_byte(*page_table, *final(mem), va) == Some(0u8),
        forall|pa: int|
            (forall|va: int| start <= va < end ==> #[trigger] page_table.translate(va) != Some(pa))
                ==> #[trigger] final(mem).phys_byte(pa) == old(mem).phys_byte(pa),
{
    let mut cur: u64 = start;
    while cur < end
        invariant
            page_table.wf(),
            mem.wf(),
            start <= cur <= end,
            forall|va: int|
                start <= va < end ==> (#[trigger] page_table.translate(va) matches Some(pa)
                    && mem.has_fresh(pa)),
            mem.image_base == old(mem).image_base,
            mem.image@ == old(mem).image@,
            mem.fresh@.len() == old(mem).fresh@.len(),
            forall|i: int|
                0 <= i < old(mem).fresh@.len() ==> (#[trigger] mem.fresh@[i]).base == old(
                    mem,
                ).fresh@[i].base,
            forall|va: int|
                start <= va < cur ==> #[trigger] virt_byte(*page_table, *mem, va) == Some(0u8),
            forall|pa: int|
                (forall|va: int|
                    start <= va < cur ==> #[trigger] page_table.translate(va) != Some(pa))
                    ==> #[trigger] mem.phys_byte(pa) == old(mem).phys_byte(pa),
        decreases end - cur,
    {
        let pa = match page_table.translate_addr(cur) {
            Some(pa) => pa,
            None => {
                proof {
                    assert(page_table.translate(cur as int) is Some);
                    assert(false);
                }
                0
            },
        };
        let ghost mem_before = *mem;
        proof {
            assert(Some(pa as int) == page_table.translate(cur as int));
            assert(mem.has_fresh(pa as int));
        }
        mem.write_phys(pa, 0);
        proof {
            assert forall|va: int|
                start <= va < end implies (#[trigger] page_table.translate(va) matches Some(q)
                && mem.has_fresh(q)) by {
                let q = page_table.translate(va).unwrap();
                assert(mem_before.has_fresh(q));
                mem_before.lemma_has_fresh_same_bases(*mem, q);
            }
            assert forall|va: int|
                start <= va < cur + 1 implies #[trigger] virt_byte(*page_table, *mem, va) == Some(
                0u8,
            ) by {
                let q = page_table.translate(va).unwrap();
                if q == pa {
                    assert(mem.phys_byte(q) == Some(0u8));
                } else {
                    assert(virt_byte(*page_table, mem_before, va) == Some(0u8));
                    assert(mem.phys_byte(q) == mem_before.phys_byte(q));
                }
            }
            assert forall|pa2: int|
                (forall|va: int|
                    start <= va < cur + 1 ==> #[trigger] page_table.translate(va) != Some(
                        pa2,
                    )) implies #[trigger] mem.phys_byte(pa2) == old(mem).phys_byte(pa2) by {
                assert(page_table.translate(cur as int) != Some(pa2));
                assert(pa2 != pa);
                assert(mem.phys_byte(pa2) == mem_before.phys_byte(pa2));
                assert forall|va: int|
                    start <= va < cur implies #[trigger] page_table.translate(va) != Some(pa2) by {}
                assert(mem_before.phys_byte(pa2) == old(mem).phys_byte(pa2));
            }
        }
        cur = cur + 1;
    }
}

/// First virtual address of the pages a loadable segment occupies.
pub open spec fn seg_lo(seg: Segment) -> int {
    spec_align_down(seg.virtual_addr as int)
}

/// One past the last virtual address of the pages a loadable segment
/// occupies; a segment of memory size zero occupies no page.
pub open spec fn seg_hi(seg: Segment) -> int {
    if seg.mem_size == 0 {
        seg_lo(seg)
    } else {
        spec_align_up(seg.virtual_addr + seg.mem_size)
    }
}

/// How many fresh frames mapping this segment draws from the frame source:
/// one for the page shared between file data and zero-fill data, if the
/// zero-fill region starts inside a page, plus one per whole zero-fill page.
pub open spec fn seg_frames_needed(seg: Segment) -> int {
    if seg.kind != SegmentKind::Load || seg.mem_size <= seg.file_size {
        0
    } else {
        (if (seg.virtual_addr + seg.file_size) % (PAGE_SIZE as int) != 0 {
            1int
        } else {
            0int
        }) + (spec_align_up(seg.virtual_addr + seg.mem_size) - spec_align_up(
            seg.virtual_addr + seg.file_size,
        )) / (PAGE_SIZE as int)
    }
}

/// A loadable segment the mapper accepts: the zero-fill region is not
/// negative, the segment does not wrap the address space, the virtual
/// address and the file offset agree on their position within a page (so
/// file bytes can be mapped in place), the file range lies inside the image
/// buffer, and a segment that is pure zero-fill starts on a page boundary.
pub open spec fn seg_mappable(seg: Segment, mem: PhysMemory) -> bool {
    &&& seg.file_size <= seg.mem_size
    &&& seg.virtual_addr + seg.mem_size <= MAX_ALIGNABLE
    &&& seg.virtual_addr as int % (PAGE_SIZE as int) == seg.file_offset as int % (
    PAGE_SIZE as int)
    &&& seg.file_offset + seg.file_size <= mem.image@.len()
    &&& (seg.mem_size > seg.file_size && seg.file_size == 0 ==> seg.virtual_addr % PAGE_SIZE == 0)
}

/// Install the mappings for one segment: file-backed pages are mapped
/// directly onto the image buffer's frames, the page straddling file data
/// and zero-fill data is copied into a fresh frame and remapped, the
/// remaining zero-fill pages are mapped onto explicitly zeroed fresh
/// frames, and the zero-fill byte range is then written as zero in one pass
/// from its true start address. A segment that is not of load kind is
/// ignored. Frame exhaustion at any point fails the whole operation.
#[verifier::rlimit(100)]
#[verifier::spinoff_prover]
pub fn map_segment(
    segment: &Segment,
    kernel_start: u64,
    page_table: &mut PageTable,
    frame_allocator: &mut FrameSource,
    mem: &mut PhysMemory,
    arch: Arch,
) -> (r: Result<(), MapToError>)
    requires
        old(page_table).wf(),
        old(mem).wf(),
        old(frame_allocator).wf(),
        pool_free(*old(frame_allocator), *old(mem)),
        kernel_start == old(mem).image_base,
        segment.kind == SegmentKind::Load ==> seg_mappable(*segment, *old(mem)),
    ensures
        final(page_table).wf(),
        final(mem).wf(),
        final(frame_allocator).wf(),
        pool_free(*final(frame_allocator), *final(mem)),
        final(mem).image_base == old(mem).image_base,
        final(mem).image@ == old(mem).image@,
        forall|pa: int|
            old(mem).phys_byte(pa) is Some ==> #[trigger] final(mem).phys_byte(pa) == old(
                mem,
            ).phys_byte(pa),
        segment.kind != SegmentKind::Load ==> r is Ok && *final(page_table)
            == *old(page_table) && *final(mem) == *old(mem) && *final(frame_allocator) == *old(
            frame_allocator,
        ),
        forall|va: int|
            !(seg_lo(*segment) <= va < seg_hi(*segment)) ==> #[trigger] final(page_table).entry_at(
                va,
            ) == old(page_table).entry_at(va),
        final(frame_allocator).pool@.len() <= old(frame_allocator).pool@.len()
            && final(frame_allocator).pool@ == old(frame_allocator).pool@.take(
            final(frame_allocator).pool@.len() as int,
        ),
        segment.kind == SegmentKind::Load ==> (r is Ok <==> (seg_frames_needed(*segment) <= old(
            frame_allocator,
        ).pool@.len() && old(page_table).range_free(
            seg_lo(*segment),
            seg_hi(*segment) - seg_lo(*segment),
        ))),
        r matches Err(e) && e == MapToError::FrameAllocationFailed ==> old(
            frame_allocator,
        ).pool@.len() < seg_frames_needed(*segment),
        r matches Err(e) ==> (e != MapToError::FrameAllocationFailed ==> !old(
            page_table,
        ).range_free(seg_lo(*segment), seg_hi(*segment) - seg_lo(*segment)) && (exists|x: int|
            seg_lo(*segment) <= x < seg_hi(*segment) && #[trigger] old(page_table).covered(x) && (
            (e == MapToError::ParentEntryHugePage) <==> old(page_table).huge_at(x)))),
        segment.kind == SegmentKind::Load && r is Ok ==> forall|a: int|
            segment.virtual_addr <= a < segment.virtual_addr + segment.file_size
                ==> #[trigger] virt_byte(*final(page_table), *final(mem), a) == Some(
                old(mem).image@[segment.file_offset + (a - segment.virtual_addr)],
            ),
        segment.kind == SegmentKind::Load && r is Ok ==> forall|a: int|
            segment.virtual_addr + segment.file_size <= a < segment.virtual_addr
                + segment.mem_size ==> #[trigger] virt_byte(*final(page_table), *final(mem), a)
                == Some(0u8),
        segment.kind == SegmentKind::Load && r is Ok ==> forall|va: int|
            seg_lo(*segment) <= va < seg_hi(*segment) ==> (#[trigger] final(page_table).entry_at(
                va,
            ) matches Some(e) && e.flags == spec_trans_flags(arch, segment.flags) && !e.huge),
        segment.kind == SegmentKind::Load && r is Ok && segment.mem_size == segment.file_size
            ==> *final(frame_allocator) == *old(frame_allocator) && *final(mem) == *old(mem) && (
        forall|a: int|
            segment.virtual_addr <= a < segment.virtual_addr + segment.mem_size
                ==> (#[trigger] final(page_table).translate(a) matches Some(pa) && old(
                mem,
            ).in_image(pa))),
        segment.kind == SegmentKind::Load && r is Ok ==> final(frame_allocator).pool@ == old(
            frame_allocator,
        ).pool@.take(old(frame_allocator).pool@.len() - seg_frames_needed(*segment)),
{
    match segment.kind {
        SegmentKind::Other => {
            proof {
                assert(frame_allocator.pool@ =~= old(frame_allocator).pool@.take(
                    frame_allocator.pool@.len() as int,
                ));
            }
            return Ok(());
        },
        SegmentKind::Load => {},
    }
    let va = segment.virtual_addr;
    let fsz = segment.file_size;
    let msz = segment.mem_size;
    let file_offset = align_down_u(segment.file_offset);
    let flags = trans_flags(arch, segment.flags);
    let start_page = align_down_u(va);
    proof {
        lemma_align_down_props(va as int);
        lemma_align_down_props(segment.file_offset as int);
        lemma_seg_bounds(*segment);
    }
    let ghost delta = va - start_page;
    let ghost lfp: int = spec_align_down(va + fsz - 1);
    let ghost file_frames: int = (lfp - start_page) + PAGE_SIZE as int;

    // File-backed pages: mapped directly onto the image buffer's frames.
    if fsz > 0 {
        let phys_start = kernel_start + file_offset;
        let last_file_page = align_down_u(va + (fsz - 1));
        proof {
            lemma_align_down_mono(va as int, va + fsz - 1);
            lemma_aligned_le(start_page as int, va + fsz - 1);
            lemma_aligned_diff(last_file_page as int, start_page as int);
            crate::lemma_aligned_sum(old(mem).image_base as int, file_offset as int);
            lemma_align_down_shift(va - delta, delta + fsz - 1);
            assert(last_file_page - start_page == spec_align_down(delta + fsz - 1));
            lemma_align_down_shift(segment.file_offset - delta, delta + fsz - 1);
            assert(file_offset + spec_align_down(delta + fsz - 1) == spec_align_down(
                segment.file_offset + fsz - 1,
            ));
            lemma_align_down_mono(segment.file_offset + fsz - 1, old(mem).image@.len() as int - 1);
            crate::lemma_aligned_sum(old(mem).image@.len() as int, -(PAGE_SIZE as int));
            lemma_align_down_shift(old(mem).image@.len() as int - PAGE_SIZE, PAGE_SIZE as int - 1);
            lemma_align_down_props(PAGE_SIZE as int - 1);
            assert(spec_align_down(old(mem).image@.len() as int - 1) == old(
                mem,
            ).image@.len() as int - PAGE_SIZE);
            assert(phys_start + (last_file_page - start_page) + PAGE_SIZE <= old(mem).image_base
                + old(mem).image@.len());
            lemma_align_down_mono(va + fsz - 1, va + msz);
            lemma_aligned_le(last_file_page as int, va + msz);
        }
        let n_file = (last_file_page - start_page) / PAGE_SIZE + 1;
        proof {
            assert(n_file * PAGE_SIZE == (last_file_page - start_page) + PAGE_SIZE);
        }
        match map_range_to_frames(page_table, start_page, phys_start, n_file, flags) {
            Ok(()) => {
                proof {
                    assert(old(page_table).range_free(start_page as int, n_file * PAGE_SIZE));
                    assert(last_file_page == lfp);
                    assert(n_file * PAGE_SIZE == file_frames);
                    assert(old(page_table).range_free(start_page as int, file_frames));
                }
            },
            Err(e) => {
                proof {
                    if old(page_table).range_free(
                        seg_lo(*segment),
                        seg_hi(*segment) - seg_lo(*segment),
                    ) {
                        old(page_table).lemma_range_free_mono(
                            start_page as int,
                            n_file * PAGE_SIZE,
                            seg_lo(*segment),
                            seg_hi(*segment) - seg_lo(*segment),
                        );
                        assert(false);
                    }
                    assert(frame_allocator.pool@ =~= old(frame_allocator).pool@.take(
                        frame_allocator.pool@.len() as int,
                    ));
                }
                return Err(e);
            },
        }
    }
    let ghost pt1 = *page_table;
    proof {
        if fsz > 0 {
            assert(old(page_table).range_free(start_page as int, file_frames));
            assert forall|x: int| start_page <= x < lfp + PAGE_SIZE implies (
            #[trigger] pt1.entry_at(x) matches Some(e) && e.flags == flags && !e.huge)
                && pt1.translate(x) == Some(
                old(mem).image_base + file_offset + (x - start_page),
            ) by {}
            assert forall|x: int| !(start_page <= x < lfp + PAGE_SIZE) implies #[trigger] pt1.entry_at(
                x,
            ) == old(page_table).entry_at(x) by {}
        } else {
            assert(pt1 == *old(page_table));
        }
    }

    if msz > fsz {
        proof {
            if fsz > 0 {
                assert forall|x: int|
                    seg_lo(*segment) <= x < seg_file_pages_end(*segment) implies (
                #[trigger] page_table.entry_at(x) matches Some(e) && e.flags == flags && !e.huge)
                    && page_table.translate(x) == Some(seg_file_pa(*segment, *old(mem), x)) by {
                    assert(pt1.entry_at(x) matches Some(e) && e.flags == flags && !e.huge);
                    assert(pt1.translate(x) == Some(
                        old(mem).image_base + file_offset + (x - start_page),
                    ));
                }
                assert(old(page_table).range_free(
                    seg_lo(*segment),
                    seg_file_pages_end(*segment) - seg_lo(*segment),
                ));
            }
            assert forall|x: int|
                !(fsz > 0 && seg_lo(*segment) <= x < seg_file_pages_end(*segment)) implies (
            #[trigger] page_table.entry_at(x)) == old(page_table).entry_at(x) by {}
        }
        let r = map_segment_fill(
            segment,
            page_table,
            frame_allocator,
            mem,
            flags,
            Ghost(*old(page_table)),
        );
        return r;
    }
    // no zero-fill region: nothing was allocated and nothing was copied
    proof {
        let sv = *segment;
        let L = seg_lo(sv);
        let H = seg_hi(sv);
        assert(seg_frames_needed(sv) == 0);
        assert(frame_allocator.pool@ =~= old(frame_allocator).pool@.take(
            old(frame_allocator).pool@.len() as int,
        ));
        assert(frame_allocator.pool@ =~= old(frame_allocator).pool@.take(
            frame_allocator.pool@.len() as int,
        ));
        if msz > 0 {
            assert(fsz > 0);
            assert(H == lfp + PAGE_SIZE);
            assert forall|a: int| va <= a < va + fsz implies #[trigger] virt_byte(
                *page_table,
                *mem,
                a,
            ) == Some(old(mem).image@[segment.file_offset + (a - va)]) by {
                lemma_align_down_props(a as int);
                lemma_align_down_mono(va as int, a);
                lemma_aligned_le(start_page as int, a);
                lemma_align_down_mono(a, va + fsz - 1);
                lemma_aligned_le(spec_align_down(a), va + fsz - 1);
                let img_pa = old(mem).image_base + file_offset + (a - start_page);
                assert(pt1.translate(a) == Some(img_pa));
                assert(file_offset + (a - start_page) == segment.file_offset + (a - va));
                assert(old(mem).in_image(img_pa));
            }
            assert forall|a: int| va <= a < va + msz implies #[trigger] pt1.translate(a)
                matches Some(pa) && old(mem).in_image(pa) by {
                lemma_align_down_props(a as int);
                lemma_align_down_mono(va as int, a);
                lemma_aligned_le(start_page as int, a);
                lemma_align_down_mono(a, va + fsz - 1);
                lemma_aligned_le(spec_align_down(a), va + fsz - 1);
                assert(old(mem).in_image(old(mem).image_base + file_offset + (a - start_page)));
            }
            assert(old(page_table).range_free(L, H - L) == old(page_table).range_free(
                start_page as int,
                file_frames,
            ));
        } else {
            assert(L == H);
        }
    }
    Ok(())
}

/// Bounds relating a mappable load segment's page range to its byte range.
proof fn lemma_seg_bounds(seg: Segment)
    requires
        seg.kind == SegmentKind::Load,
        seg.file_size <= seg.mem_size,
        seg.virtual_addr + seg.mem_size <= MAX_ALIGNABLE,
    ensures
        seg_lo(seg) <= seg.virtual_addr,
        seg.mem_size > 0 ==> seg.virtual_addr + seg.mem_size <= seg_hi(seg),
        seg.mem_size > 0 ==> seg_hi(seg) == spec_align_down(seg.virtual_addr + seg.mem_size - 1)
            + PAGE_SIZE,
        seg.file_size > 0 ==> spec_align_down(seg.virtual_addr + seg.file_size - 1) + PAGE_SIZE
            <= seg_hi(seg),
        seg_lo(seg) <= seg_hi(seg),
        seg_hi(seg) <= MAX_ALIGNABLE + PAGE_SIZE,
{
    lemma_align_down_props(seg.virtual_addr as int);
    if seg.mem_size > 0 {
        let end = seg.virtual_addr + seg.mem_size;
        lemma_align_up_props(end);
        lemma_align_down_props(end - 1);
        if end % (PAGE_SIZE as int) == 0 {
            crate::lemma_align_down_before(end);
        } else {
            assert(spec_align_down(end - 1) == spec_align_down(end)) by (nonlinear_arith)
                requires
                    end % 0x1000 != 0,
                    spec_align_down(end - 1) == end - 1 - (end - 1) % 0x1000,
                    spec_align_down(end) == end - end % 0x1000,
            ;
        }
        if seg.file_size > 0 {
            lemma_align_down_mono(seg.virtual_addr + seg.file_size - 1, end - 1);
        }
        lemma_align_down_mono(seg.virtual_addr as int, end - 1);
        lemma_aligned_le(seg_lo(seg), end - 1);
    }
}


/// Copy the shared page into a fresh frame and remap it there: the page's
/// current contents (trailing file data and what follows) are preserved
/// while the mapping moves off the image buffer, so its tail can be zeroed
/// without corrupting adjacent file data.
#[verifier::rlimit(100)]
fn remap_shared(
    page_table: &mut PageTable,
    frame_allocator: &mut FrameSource,
    mem: &mut PhysMemory,
    last_page: u64,
    src: u64,
    flags: u64,
) -> (r: Result<u64, MapToError>)
    requires
        old(page_table).wf(),
        old(mem).wf(),
        old(frame_allocator).wf(),
        pool_free(*old(frame_allocator), *old(mem)),
        last_page % PAGE_SIZE == 0,
        last_page <= MAX_ALIGNABLE,
        src % PAGE_SIZE == 0,
        src <= MAX_ALIGNABLE,
        forall|k: int| 0 <= k < PAGE_SIZE ==> #[trigger] old(mem).phys_byte(src + k) is Some,
        old(page_table).entry_at(last_page as int) matches Some(e) && !e.huge,
    ensures
        final(page_table).wf(),
        final(mem).wf(),
        final(frame_allocator).wf(),
        pool_free(*final(frame_allocator), *final(mem)),
        final(mem).image_base == old(mem).image_base,
        final(mem).image@ == old(mem).image@,
        final(frame_allocator).pool@.len() <= old(frame_allocator).pool@.len()
            && final(frame_allocator).pool@ == old(frame_allocator).pool@.take(
            final(frame_allocator).pool@.len() as int,
        ),
        r matches Err(e) ==> e == MapToError::FrameAllocationFailed && old(
            frame_allocator,
        ).pool@.len() == 0 && *final(page_table) == *old(page_table) && *final(mem) == *old(mem)
            && final(frame_allocator).pool@ == old(frame_allocator).pool@,
        r matches Ok(f) ==> {
            &&& old(frame_allocator).pool@.len() > 0
            &&& f == old(frame_allocator).pool@.last()
            &&& final(frame_allocator).pool@ == old(frame_allocator).pool@.drop_last()
            &&& crate::memory::frame_base_ok(f)
            &&& old(mem).base_free(f)
            &&& final(mem).fresh@.len() == old(mem).fresh@.len() + 1
            &&& final(mem).fresh@.last().base == f
            &&& final(mem).fresh@.subrange(0, old(mem).fresh@.len() as int) == old(mem).fresh@
            &&& (forall|pa: int|
                f <= pa < f + PAGE_SIZE ==> #[trigger] final(mem).phys_byte(pa) == old(
                    mem,
                ).phys_byte(src + (pa - f)))
            &&& (forall|pa: int|
                !(f <= pa < f + PAGE_SIZE) ==> #[trigger] final(mem).phys_byte(pa) == old(
                    mem,
                ).phys_byte(pa))
            &&& (forall|x: int|
                last_page <= x < last_page + PAGE_SIZE ==> (#[trigger] final(page_table).entry_at(
                    x,
                ) matches Some(e) && e.flags == flags && !e.huge) && final(page_table).translate(x)
                    == Some(f + (x - last_page)))
            &&& (forall|x: int|
                !(last_page <= x < last_page + PAGE_SIZE)
                    ==> #[trigger] final(page_table).entry_at(x) == old(page_table).entry_at(x))
        },
{
    let f = match frame_allocator.allocate_frame() {
        Some(f) => f,
        None => {
            proof {
                assert(frame_allocator.pool@ =~= old(frame_allocator).pool@.take(
                    frame_allocator.pool@.len() as int,
                ));
            }
            return Err(MapToError::FrameAllocationFailed);
        },
    };
    proof {
        assert(mem.base_free(f));
        assert(frame_allocator.pool@ =~= old(frame_allocator).pool@.take(
            frame_allocator.pool@.len() as int,
        ));
    }
    mem.push_copied_frame(f, src);
    proof {
        assert forall|k: int| 0 <= k < frame_allocator.pool@.len() implies mem.base_free(
            #[trigger] frame_allocator.pool@[k],
        ) by {
            assert(old(mem).base_free(old(frame_allocator).pool@[k]));
            assert(old(frame_allocator).pool@[k] != f) by {
                let plen = old(frame_allocator).pool@.len() as int;
                assert(f == old(frame_allocator).pool@[plen - 1]);
            }
            assert forall|j: int| 0 <= j < mem.fresh@.len() implies (
            #[trigger] mem.fresh@[j].base) != frame_allocator.pool@[k] by {
                if j < old(mem).fresh@.len() {
                    assert(mem.fresh@[j] == mem.fresh@.subrange(
                        0,
                        old(mem).fresh@.len() as int,
                    )[j]);
                }
            }
        }
    }
    match page_table.unmap(last_page) {
        Ok(_) => {},
        Err(_) => {
            proof {
                assert(false);
            }
            return Err(MapToError::ParentEntryHugePage);
        },
    }
    match page_table.map_to(last_page, f, flags) {
        Ok(()) => {},
        Err(e) => {
            proof {
                assert(false);
            }
            return Err(e);
        },
    }
    proof {
        assert forall|x: int| last_page <= x < last_page + PAGE_SIZE implies (
        #[trigger] page_table.entry_at(x) matches Some(e) && e.flags == flags && !e.huge)
            && page_table.translate(x) == Some(f + (x - last_page)) by {}
    }
    Ok(f)
}

/// The physical address in the image buffer backing virtual address `x` of
/// a segment's file-backed part.
pub open spec fn seg_file_pa(seg: Segment, mem: PhysMemory, x: int) -> int {
    mem.image_base + spec_align_down(seg.file_offset as int) + (x - seg_lo(seg))
}

/// One past the last virtual address of a segment's file-backed pages.
pub open spec fn seg_file_pages_end(seg: Segment) -> int {
    spec_align_down(seg.virtual_addr + seg.file_size - 1) + PAGE_SIZE as int
}


/// The frames a zero-fill segment needs: one for the shared page when the
/// zero-fill region starts inside a page, plus one per whole zero page.
proof fn lemma_needed_split(seg: Segment, zp_start: int, zp_end: int, n_zero: int)
    requires
        seg.kind == SegmentKind::Load,
        seg.mem_size > seg.file_size,
        zp_start == spec_align_up(seg.virtual_addr + seg.file_size),
        zp_end == spec_align_up(seg.virtual_addr + seg.mem_size),
        zp_start <= zp_end,
        n_zero * (PAGE_SIZE as int) == zp_end - zp_start,
    ensures
        seg_frames_needed(seg) == (if (seg.virtual_addr + seg.file_size) % (PAGE_SIZE as int)
            != 0 {
            1int
        } else {
            0int
        }) + n_zero,
{
    assert((zp_end - zp_start) / (PAGE_SIZE as int) == n_zero) by (nonlinear_arith)
        requires
            n_zero * 0x1000 == zp_end - zp_start,
    ;
}



/// Taking a prefix of a prefix is taking the shorter prefix.
proof fn lemma_take_chain(p0: Seq<u64>, p1: Seq<u64>, p2: Seq<u64>, used1: int, used2: int)
    requires
        0 <= used1 <= p0.len(),
        p1 == p0.take(p0.len() - used1),
        0 <= used2 <= p1.len(),
        p2 == p1.take(p1.len() - used2),
    ensures
        p2 == p0.take(p0.len() - (used1 + used2)),
{
    assert(p2 =~= p0.take(p0.len() - (used1 + used2)));
}

/// What a failure of the zero-page phase means for the whole segment: the
/// pool was short, or some page of the segment was already covered — with
/// the huge-page case reported distinctly — and nothing outside the
/// segment's pages or the memory known beforehand was disturbed.
#[verifier::rlimit(100)]
#[verifier::spinoff_prover]
proof fn lemma_fill_failure(
    seg: Segment,
    e: MapToError,
    shared: bool,
    lp: int,
    shared_used: int,
    n_zero: int,
    zp_start: int,
    zp_end: int,
    len0: int,
    len_call: int,
    pt0: PageTable,
    pt1: PageTable,
    pt_s: PageTable,
    pt_cur: PageTable,
    mem0: PhysMemory,
    mem_s: PhysMemory,
    mem_cur: PhysMemory,
)
    requires
        seg.kind == SegmentKind::Load,
        seg.file_size <= seg.mem_size,
        seg.mem_size > seg.file_size,
        seg.virtual_addr + seg.mem_size <= MAX_ALIGNABLE,
        pt0.wf(),
        pt_s.wf(),
        e != MapToError::FrameAllocationFailed ==> (seg.file_size == 0 ==> seg.virtual_addr
            % PAGE_SIZE == 0),
        zp_start == spec_align_up(seg.virtual_addr + seg.file_size),
        zp_end == seg_hi(seg),
        zp_start <= zp_end,
        n_zero * (PAGE_SIZE as int) == zp_end - zp_start,
        shared == ((seg.virtual_addr + seg.file_size) % (PAGE_SIZE as int) != 0),
        shared_used == (if shared {
            1int
        } else {
            0int
        }),
        lp == spec_align_down(seg.virtual_addr + seg.file_size),
        len_call == len0 - shared_used,
        shared ==> len0 >= 1,
        seg.file_size > 0 ==> zp_start == seg_file_pages_end(seg),
        seg.file_size == 0 ==> zp_start == seg_lo(seg),
        forall|x: int|
            !(seg.file_size > 0 && seg_lo(seg) <= x < seg_file_pages_end(seg))
                ==> #[trigger] pt1.entry_at(x) == pt0.entry_at(x),
        shared ==> forall|x: int|
            !(lp <= x < lp + PAGE_SIZE) ==> #[trigger] pt_s.entry_at(x) == pt1.entry_at(x),
        !shared ==> pt_s == pt1,
        shared ==> seg.file_size > 0 && seg_lo(seg) <= lp && lp + PAGE_SIZE
            <= seg_file_pages_end(seg),
        e == MapToError::FrameAllocationFailed ==> len_call < n_zero,
        e != MapToError::FrameAllocationFailed ==> !pt_s.range_free(
            zp_start,
            n_zero * (PAGE_SIZE as int),
        ) && (exists|x: int|
            zp_start <= x < zp_start + n_zero * (PAGE_SIZE as int) && #[trigger] pt_s.covered(x)
                && ((e == MapToError::ParentEntryHugePage) <==> pt_s.huge_at(x))),
        forall|pa: int|
            mem0.phys_byte(pa) is Some ==> #[trigger] mem_s.phys_byte(pa) == mem0.phys_byte(pa),
        forall|pa: int|
            mem_s.phys_byte(pa) is Some ==> #[trigger] mem_cur.phys_byte(pa) == mem_s.phys_byte(
                pa,
            ),
        forall|x: int|
            !(zp_start <= x < zp_start + n_zero * (PAGE_SIZE as int)) ==> #[trigger] pt_cur.entry_at(
                x,
            ) == pt_s.entry_at(x),
    ensures
        seg_frames_needed(seg) == shared_used + n_zero,
        forall|pa: int|
            mem0.phys_byte(pa) is Some ==> #[trigger] mem_cur.phys_byte(pa) == mem0.phys_byte(pa),
        forall|x: int|
            !(seg_lo(seg) <= x < seg_hi(seg)) ==> #[trigger] pt_cur.entry_at(x) == pt0.entry_at(
                x,
            ),
        e == MapToError::FrameAllocationFailed ==> len0 < seg_frames_needed(seg),
        e != MapToError::FrameAllocationFailed ==> !pt0.range_free(
            seg_lo(seg),
            seg_hi(seg) - seg_lo(seg),
        ) && (exists|x: int|
            seg_lo(seg) <= x < seg_hi(seg) && #[trigger] pt0.covered(x) && ((e
                == MapToError::ParentEntryHugePage) <==> pt0.huge_at(x))),
{
    lemma_seg_bounds(seg);
    lemma_needed_split(seg, zp_start, zp_end, n_zero);
    assert(seg_frames_needed(seg) == shared_used + n_zero);
    assert forall|pa: int|
        mem0.phys_byte(pa) is Some implies #[trigger] mem_cur.phys_byte(pa) == mem0.phys_byte(
        pa,
    ) by {
        assert(mem_s.phys_byte(pa) == mem0.phys_byte(pa));
    }
    let L = seg_lo(seg);
    let H = seg_hi(seg);
    assert(L <= zp_start <= H) by {
        if seg.file_size > 0 {
            lemma_align_down_props(seg.virtual_addr + seg.file_size - 1);
            lemma_align_down_mono(seg.virtual_addr as int, seg.virtual_addr + seg.file_size - 1);
        }
    }
    assert forall|x: int|
        !(L <= x < H) implies #[trigger] pt_cur.entry_at(x) == pt0.entry_at(x) by {
        assert(pt_cur.entry_at(x) == pt_s.entry_at(x));
        if shared {
            assert(pt_s.entry_at(x) == pt1.entry_at(x));
        }
        assert(pt1.entry_at(x) == pt0.entry_at(x));
    }
    assert forall|x: int|
        zp_start <= x < zp_end implies #[trigger] pt_s.entry_at(x) == pt0.entry_at(x) by {
        if shared {
            assert(pt_s.entry_at(x) == pt1.entry_at(x));
        }
        assert(pt1.entry_at(x) == pt0.entry_at(x));
    }
    if e != MapToError::FrameAllocationFailed {
        let x = choose|x: int|
            zp_start <= x < zp_start + n_zero * (PAGE_SIZE as int) && #[trigger] pt_s.covered(x)
                && ((e == MapToError::ParentEntryHugePage) <==> pt_s.huge_at(x));
        assert(pt_s.entry_at(x) == pt0.entry_at(x));
        assert(pt0.covered(x) && ((e == MapToError::ParentEntryHugePage) <==> pt0.huge_at(x)));
        assert(L <= x < H);
        crate::page_table::lemma_range_free_transfer(pt_s, pt0, zp_start, zp_end - zp_start);
        if pt0.range_free(L, H - L) {
            pt0.lemma_range_free_mono(zp_start, zp_end - zp_start, L, H - L);
        }
    }
}

/// Handle the zero-fill region of a segment whose file-backed pages are
/// already mapped: copy and remap the shared page if the region starts
/// inside a page, map the remaining whole pages onto explicitly zeroed
/// frames, then write the zero-fill byte range as zero in one pass.
#[verifier::rlimit(100)]
#[verifier::spinoff_prover]
fn map_segment_fill(
    segment: &Segment,
    page_table: &mut PageTable,
    frame_allocator: &mut FrameSource,
    mem: &mut PhysMemory,
    flags: u64,
    Ghost(pt0): Ghost<PageTable>,
) -> (r: Result<(), MapToError>)
    requires
        segment.kind == SegmentKind::Load,
        seg_mappable(*segment, *old(mem)),
        segment.mem_size > segment.file_size,
        old(page_table).wf(),
        old(mem).wf(),
        old(frame_allocator).wf(),
        pool_free(*old(frame_allocator), *old(mem)),
        pt0.wf(),
        segment.file_size > 0 ==> forall|x: int|
            seg_lo(*segment) <= x < seg_file_pages_end(*segment) ==> (
            #[trigger] old(page_table).entry_at(x) matches Some(e) && e.flags == flags && !e.huge)
                && old(page_table).translate(x) == Some(seg_file_pa(*segment, *old(mem), x)),
        segment.file_size > 0 ==> pt0.range_free(
            seg_lo(*segment),
            seg_file_pages_end(*segment) - seg_lo(*segment),
        ),
        forall|x: int|
            !(segment.file_size > 0 && seg_lo(*segment) <= x < seg_file_pages_end(*segment))
                ==> #[trigger] old(page_table).entry_at(x) == pt0.entry_at(x),
    ensures
        final(page_table).wf(),
        final(mem).wf(),
        final(frame_allocator).wf(),
        pool_free(*final(frame_allocator), *final(mem)),
        final(mem).image_base == old(mem).image_base,
        final(mem).image@ == old(mem).image@,
        forall|pa: int|
            old(mem).phys_byte(pa) is Some ==> #[trigger] final(mem).phys_byte(pa) == old(
                mem,
            ).phys_byte(pa),
        forall|x: int|
            !(seg_lo(*segment) <= x < seg_hi(*segment)) ==> #[trigger] final(page_table).entry_at(
                x,
            ) == pt0.entry_at(x),
        final(frame_allocator).pool@.len() <= old(frame_allocator).pool@.len()
            && final(frame_allocator).pool@ == old(frame_allocator).pool@.take(
            final(frame_allocator).pool@.len() as int,
        ),
        r is Ok <==> (seg_frames_needed(*segment) <= old(frame_allocator).pool@.len()
            && pt0.range_free(seg_lo(*segment), seg_hi(*segment) - seg_lo(*segment))),
        r matches Err(e) && e == MapToError::FrameAllocationFailed ==> old(
            frame_allocator,
        ).pool@.len() < seg_frames_needed(*segment),
        r matches Err(e) ==> (e != MapToError::FrameAllocationFailed ==> !pt0.range_free(
            seg_lo(*segment),
            seg_hi(*segment) - seg_lo(*segment),
        ) && (exists|x: int|
            seg_lo(*segment) <= x < seg_hi(*segment) && #[trigger] pt0.covered(x) && ((e
                == MapToError::ParentEntryHugePage) <==> pt0.huge_at(x)))),
        r is Ok ==> forall|a: int|
            segment.virtual_addr <= a < segment.virtual_addr + segment.file_size
                ==> #[trigger] virt_byte(*final(page_table), *final(mem), a) == Some(
                old(mem).image@[segment.file_offset + (a - segment.virtual_addr)],
            ),
        r is Ok ==> forall|a: int|
            segment.virtual_addr + segment.file_size <= a < segment.virtual_addr
                + segment.mem_size ==> #[trigger] virt_byte(*final(page_table), *final(mem), a)
                == Some(0u8),
        r is Ok ==> forall|x: int|
            seg_lo(*segment) <= x < seg_hi(*segment) ==> (#[trigger] final(page_table).entry_at(
                x,
            ) matches Some(e) && e.flags == flags && !e.huge),
        r is Ok ==> final(frame_allocator).pool@ == old(frame_allocator).pool@.take(
            old(frame_allocator).pool@.len() - seg_frames_needed(*segment),
        ),
{
    let va = segment.virtual_addr;
    let fsz = segment.file_size;
    let msz = segment.mem_size;
    let kernel_start = mem.image_base;
    let file_offset = align_down_u(segment.file_offset);
    let start_page = align_down_u(va);
    proof {
        lemma_align_down_props(va as int);
        lemma_align_down_props(segment.file_offset as int);
        lemma_seg_bounds(*segment);
    }
    let ghost lfp: int = spec_align_down(va + fsz - 1);
    let ghost file_frames: int = (lfp - start_page) + PAGE_SIZE as int;
    let ghost pt1 = *old(page_table);
    proof {
        if fsz > 0 {
            lemma_align_down_mono(va as int, va + fsz - 1);
            lemma_aligned_le(start_page as int, va + fsz - 1);
            crate::lemma_aligned_sum(old(mem).image_base as int, file_offset as int);
            lemma_aligned_diff(lfp, start_page as int);
            assert(pt0.range_free(start_page as int, file_frames));
        }
    }
    let zero_start = va + fsz;
    let zero_end = va + msz;
    let shared = zero_start % PAGE_SIZE != 0;
    let ghost shared_used: int = if shared {
        1
    } else {
        0
    };
    let ghost f_g: u64 = if old(frame_allocator).pool@.len() > 0 {
        old(frame_allocator).pool@.last()
    } else {
        0
    };
    if shared {
        proof {
            // a pure zero-fill segment starts aligned, so file bytes exist
            assert(fsz > 0);
            lemma_align_down_props(zero_start as int);
        }
        let last_page = align_down_u(va + (fsz - 1));
        let src = (kernel_start + file_offset) + (last_page - start_page);
        proof {
            assert(old(frame_allocator).pool@.len() > 0 ==> f_g == old(
                frame_allocator,
            ).pool@.last());
            crate::lemma_aligned_sum(old(mem).image_base as int, file_offset as int);
            crate::lemma_aligned_sum(old(mem).image_base + file_offset, last_page - start_page);
            lemma_aligned_diff(last_page as int, start_page as int);
            // the last file page and the first zero byte share a page
            assert(spec_align_down(zero_start as int) == last_page) by {
                assert(spec_align_down(zero_start - 1) == spec_align_down(
                    zero_start as int,
                )) by (nonlinear_arith)
                    requires
                        zero_start % 0x1000 != 0,
                        spec_align_down(zero_start - 1) == zero_start - 1 - (zero_start - 1)
                            % 0x1000,
                        spec_align_down(zero_start as int) == zero_start - zero_start % 0x1000,
                ;
            }
            assert(src + PAGE_SIZE <= old(mem).image_base + old(mem).image@.len());
            assert forall|k: int| 0 <= k < PAGE_SIZE implies #[trigger] old(mem).phys_byte(
                src + k,
            ) is Some by {
                assert(old(mem).in_image(src + k));
            }
            assert(pt1.entry_at(last_page as int) matches Some(e) && !e.huge);
        }
        match remap_shared(page_table, frame_allocator, mem, last_page, src, flags) {
            Ok(f) => {
                proof {
                    assert(f == f_g);
                }
            },
            Err(e) => {
                proof {
                    assert(seg_frames_needed(*segment) >= 1);
                }
                return Err(e);
            },
        }
    }
    let ghost pt_s = *page_table;
    let ghost mem_s = *mem;
    let ghost fa_mid_pool = frame_allocator.pool@;
    let zp_start = align_up_u(zero_start);
    let zp_end = align_up_u(zero_end);
    proof {
        lemma_align_up_props(zero_start as int);
        lemma_align_up_props(zero_end as int);
        lemma_align_up_mono(zero_start as int, zero_end as int);
        lemma_aligned_diff(zp_end as int, zp_start as int);
        lemma_align_down_props(zero_start as int);
        // the zero pages start exactly where the file pages end
        if fsz > 0 {
            if shared {
                assert(zp_start == lfp + PAGE_SIZE);
            } else {
                crate::lemma_align_down_before(zero_start as int);
                assert(zp_start == lfp + PAGE_SIZE);
            }
        } else {
            assert(zp_start == start_page);
        }
        assert(zp_end == seg_hi(*segment));
    }
    let n_zero = (zp_end - zp_start) / PAGE_SIZE;
    proof {
        assert(n_zero * PAGE_SIZE == zp_end - zp_start);
        // the zero-page range is untouched so far, so freeness there is
        // unchanged from the initial table
        assert forall|x: int| zp_start <= x < zp_end implies #[trigger] pt_s.entry_at(x)
            == pt0.entry_at(x) by {}
        crate::page_table::lemma_range_free_transfer(
            pt_s,
            pt0,
            zp_start as int,
            zp_end - zp_start,
        );
    }
    match map_zero_pages(page_table, mem, frame_allocator, zp_start, n_zero, flags) {
        Ok(()) => {},
        Err(e) => {
            proof {
                if shared {
                    assert(old(frame_allocator).pool@.len() >= 1);
                }
                lemma_fill_failure(
                    *segment,
                    e,
                    shared,
                    spec_align_down(zero_start as int),
                    shared_used,
                    n_zero as int,
                    zp_start as int,
                    zp_end as int,
                    old(frame_allocator).pool@.len() as int,
                    old(frame_allocator).pool@.len() - shared_used,
                    pt0,
                    pt1,
                    pt_s,
                    *page_table,
                    *old(mem),
                    mem_s,
                    *mem,
                );
                assert(fa_mid_pool == old(frame_allocator).pool@.take(
                    fa_mid_pool.len() as int,
                ));
                lemma_prefix_chain(
                    old(frame_allocator).pool@,
                    fa_mid_pool,
                    frame_allocator.pool@,
                );
            }
            return Err(e);
        },
    }
    let ghost pt2 = *page_table;
    let ghost mem2 = *mem;
    proof {
        if shared {
            assert(f_g == mem_s.fresh@.last().base);
            assert((kernel_start + file_offset) + (spec_align_down(zero_start as int)
                - start_page) == seg_file_pa(*segment, *old(mem), spec_align_down(
                zero_start as int,
            )));
            assert forall|pa: int|
                f_g <= pa < f_g + PAGE_SIZE implies #[trigger] mem_s.phys_byte(pa) == old(
                mem,
            ).phys_byte(
                seg_file_pa(*segment, *old(mem), spec_align_down(zero_start as int)) + (pa
                    - f_g),
            ) by {}
        }
    }
    finish_fill(
        segment,
        page_table,
        mem,
        flags,
        zero_start,
        zero_end,
        shared,
        Ghost(pt0),
        Ghost(pt1),
        Ghost(pt_s),
        Ghost(mem_s),
        Ghost(*old(mem)),
        Ghost(f_g),
        Ghost(zp_start as int),
        Ghost(zp_end as int),
    );
    proof {
        let sv = *segment;
        let L = seg_lo(sv);
        let H = seg_hi(sv);
        // success is exactly frames enough and pages free
        lemma_needed_split(sv, zp_start as int, zp_end as int, n_zero as int);
        assert(seg_frames_needed(sv) == shared_used + n_zero);
        assert(seg_frames_needed(sv) <= old(frame_allocator).pool@.len());
        assert(pt0.range_free(L, H - L)) by {
            if fsz > 0 {
                crate::page_table::lemma_range_free_join(pt0, L, zp_start as int, H);
            }
        }
        // the frames drawn are exactly the pool's tail
        assert(fa_mid_pool =~= old(frame_allocator).pool@.take(
            old(frame_allocator).pool@.len() - shared_used,
        ));
        lemma_take_chain(
            old(frame_allocator).pool@,
            fa_mid_pool,
            frame_allocator.pool@,
            shared_used,
            n_zero as int,
        );
        assert(frame_allocator.pool@ =~= old(frame_allocator).pool@.take(
            frame_allocator.pool@.len() as int,
        ));
        // remaining pool frames are free in the final memory
        assert forall|k: int| 0 <= k < frame_allocator.pool@.len() implies mem.base_free(
            #[trigger] frame_allocator.pool@[k],
        ) by {
            mem2.lemma_base_free_same(*mem, frame_allocator.pool@[k]);
        }
    }
    return Ok(());
}

/// Write the zero-fill byte range and collect what the finished segment
/// guarantees: file bytes read from the image, the zero-fill range reads
/// zero, flags are uniform over the segment's pages, and everything
/// outside — table entries and bytes known beforehand — is untouched.
#[verifier::rlimit(100)]
#[verifier::spinoff_prover]
fn finish_fill(
    segment: &Segment,
    page_table: &PageTable,
    mem: &mut PhysMemory,
    flags: u64,
    zero_start: u64,
    zero_end: u64,
    shared: bool,
    Ghost(pt0): Ghost<PageTable>,
    Ghost(pt1): Ghost<PageTable>,
    Ghost(pt_s): Ghost<PageTable>,
    Ghost(mem_s): Ghost<PhysMemory>,
    Ghost(mem0): Ghost<PhysMemory>,
    Ghost(f_g): Ghost<u64>,
    Ghost(zp_start): Ghost<int>,
    Ghost(zp_end): Ghost<int>,
)
    requires
        segment.kind == SegmentKind::Load,
        seg_mappable(*segment, mem0),
        segment.mem_size > segment.file_size,
        zero_start == segment.virtual_addr + segment.file_size,
        zero_end == segment.virtual_addr + segment.mem_size,
        zp_start == spec_align_up(segment.virtual_addr + segment.file_size),
        zp_end == seg_hi(*segment),
        mem0.wf(),
        mem_s.wf(),
        old(mem).wf(),
        pt0.wf(),
        pt1.wf(),
        pt_s.wf(),
        page_table.wf(),
        shared == ((segment.virtual_addr + segment.file_size) % (PAGE_SIZE as int) != 0),
        segment.file_size > 0 ==> forall|x: int|
            seg_lo(*segment) <= x < seg_file_pages_end(*segment) ==> (#[trigger] pt1.entry_at(x)
                matches Some(e) && e.flags == flags && !e.huge) && pt1.translate(x) == Some(
                seg_file_pa(*segment, mem0, x),
            ),
        forall|x: int|
            !(segment.file_size > 0 && seg_lo(*segment) <= x < seg_file_pages_end(*segment))
                ==> #[trigger] pt1.entry_at(x) == pt0.entry_at(x),
        shared ==> forall|x: int|
            spec_align_down(segment.virtual_addr + segment.file_size) <= x < spec_align_down(
                segment.virtual_addr + segment.file_size,
            ) + PAGE_SIZE ==> (#[trigger] pt_s.entry_at(x) matches Some(e) && e.flags == flags
                && !e.huge) && pt_s.translate(x) == Some(
                f_g + (x - spec_align_down(segment.virtual_addr + segment.file_size)),
            ),
        shared ==> forall|x: int|
            !(spec_align_down(segment.virtual_addr + segment.file_size) <= x < spec_align_down(
                segment.virtual_addr + segment.file_size,
            ) + PAGE_SIZE) ==> #[trigger] pt_s.entry_at(x) == pt1.entry_at(x),
        !shared ==> pt_s == pt1 && mem_s == mem0,
        shared ==> segment.file_size > 0 && seg_lo(*segment) <= spec_align_down(
            segment.virtual_addr + segment.file_size,
        ) && spec_align_down(segment.virtual_addr + segment.file_size) + PAGE_SIZE
            <= seg_file_pages_end(*segment),
        forall|x: int|
            !(zp_start <= x < zp_end) ==> #[trigger] page_table.entry_at(x) == pt_s.entry_at(x),
        forall|x: int|
            zp_start <= x < zp_end ==> (#[trigger] page_table.entry_at(x) matches Some(e)
                && e.flags == flags && !e.huge) && (page_table.translate(x) matches Some(pa)
                && old(mem).has_fresh(pa) && old(mem).phys_byte(pa) == Some(0u8)
                && mem_s.phys_byte(pa) is None),
        shared ==> forall|pa: int|
            f_g <= pa < f_g + PAGE_SIZE ==> #[trigger] mem_s.phys_byte(pa) == mem0.phys_byte(
                seg_file_pa(*segment, mem0, spec_align_down(segment.virtual_addr
                    + segment.file_size)) + (pa - f_g),
            ),
        shared ==> forall|pa: int|
            !(f_g <= pa < f_g + PAGE_SIZE) ==> #[trigger] mem_s.phys_byte(pa) == mem0.phys_byte(
                pa,
            ),
        shared ==> mem0.base_free(f_g) && crate::memory::frame_base_ok(f_g) && mem_s.fresh@.len()
            == mem0.fresh@.len() + 1 && mem_s.fresh@.last().base == f_g && mem_s.fresh@.subrange(
            0,
            mem0.fresh@.len() as int,
        ) == mem0.fresh@,
        forall|pa: int|
            mem_s.phys_byte(pa) is Some ==> #[trigger] old(mem).phys_byte(pa) == mem_s.phys_byte(
                pa,
            ),
        mem_s.fresh@.len() <= old(mem).fresh@.len(),
        old(mem).fresh@.subrange(0, mem_s.fresh@.len() as int) == mem_s.fresh@,
        shared ==> mem_s.fresh@.len() > 0 && mem_s.fresh@.last().bytes@.len() == PAGE_SIZE,
    ensures
        final(mem).wf(),
        final(mem).image_base == old(mem).image_base,
        final(mem).image@ == old(mem).image@,
        final(mem).fresh@.len() == old(mem).fresh@.len(),
        forall|i: int|
            0 <= i < old(mem).fresh@.len() ==> (#[trigger] final(mem).fresh@[i]).base == old(
                mem,
            ).fresh@[i].base,
        forall|pa: int|
            mem0.phys_byte(pa) is Some ==> #[trigger] final(mem).phys_byte(pa) == mem0.phys_byte(
                pa,
            ),
        forall|a: int|
            segment.virtual_addr <= a < segment.virtual_addr + segment.file_size
                ==> #[trigger] virt_byte(*page_table, *final(mem), a) == Some(
                mem0.image@[segment.file_offset + (a - segment.virtual_addr)],
            ),
        forall|a: int|
            segment.virtual_addr + segment.file_size <= a < segment.virtual_addr
                + segment.mem_size ==> #[trigger] virt_byte(*page_table, *final(mem), a) == Some(
                0u8,
            ),
        forall|x: int|
            seg_lo(*segment) <= x < seg_hi(*segment) ==> (#[trigger] page_table.entry_at(x)
                matches Some(e) && e.flags == flags && !e.huge),
        forall|x: int|
            !(seg_lo(*segment) <= x < seg_hi(*segment)) ==> #[trigger] page_table.entry_at(x)
                == pt0.entry_at(x),
{
    proof {
        lemma_fill_zero_targets(
            *segment,
            shared,
            f_g,
            pt_s,
            *page_table,
            mem_s,
            *old(mem),
            zp_start,
            zp_end,
        );
    }
    zero_virt_range(page_table, mem, zero_start, zero_end);
    proof {
        let sv = *segment;
        let L = seg_lo(sv);
        let H = seg_hi(sv);
        lemma_fill_assembly(
            sv,
            flags,
            shared,
            f_g,
            pt1,
            pt_s,
            *page_table,
            mem0,
            mem_s,
            *old(mem),
            *mem,
        );
        assert forall|x: int| !(L <= x < H) implies #[trigger] page_table.entry_at(x)
            == pt0.entry_at(x) by {
            assert(page_table.entry_at(x) == pt1.entry_at(x));
            assert(pt1.entry_at(x) == pt0.entry_at(x));
        }
    }
}


/// After the zero-fill phases, the whole segment reads correctly: file
/// bytes come from the image buffer, the flags are uniform, bytes known
/// before the segment was mapped are untouched, and the table outside the
/// segment's pages is as the file-mapping phase left it.
#[verifier::rlimit(100)]
#[verifier::spinoff_prover]
proof fn lemma_fill_assembly(
    seg: Segment,
    flags: u64,
    shared: bool,
    f_g: u64,
    pt1: PageTable,
    pt_s: PageTable,
    pt2: PageTable,
    mem0: PhysMemory,
    mem_s: PhysMemory,
    mem2: PhysMemory,
    mem3: PhysMemory,
)
    requires
        seg.kind == SegmentKind::Load,
        seg_mappable(seg, mem0),
        seg.mem_size > seg.file_size,
        mem0.wf(),
        mem_s.wf(),
        mem2.wf(),
        pt1.wf(),
        pt_s.wf(),
        pt2.wf(),
        shared == ((seg.virtual_addr + seg.file_size) % (PAGE_SIZE as int) != 0),
        seg.file_size > 0 ==> forall|x: int|
            seg_lo(seg) <= x < seg_file_pages_end(seg) ==> (#[trigger] pt1.entry_at(x)
                matches Some(e) && e.flags == flags && !e.huge) && pt1.translate(x) == Some(
                seg_file_pa(seg, mem0, x),
            ),
        shared ==> forall|x: int|
            spec_align_down(seg.virtual_addr + seg.file_size) <= x < spec_align_down(
                seg.virtual_addr + seg.file_size,
            ) + PAGE_SIZE ==> (#[trigger] pt_s.entry_at(x) matches Some(e) && e.flags == flags
                && !e.huge) && pt_s.translate(x) == Some(
                f_g + (x - spec_align_down(seg.virtual_addr + seg.file_size)),
            ),
        shared ==> forall|x: int|
            !(spec_align_down(seg.virtual_addr + seg.file_size) <= x < spec_align_down(
                seg.virtual_addr + seg.file_size,
            ) + PAGE_SIZE) ==> #[trigger] pt_s.entry_at(x) == pt1.entry_at(x),
        !shared ==> pt_s == pt1 && mem_s == mem0,
        forall|x: int|
            !(spec_align_up(seg.virtual_addr + seg.file_size) <= x < seg_hi(seg))
                ==> #[trigger] pt2.entry_at(x) == pt_s.entry_at(x),
        forall|x: int|
            spec_align_up(seg.virtual_addr + seg.file_size) <= x < seg_hi(seg) ==> (
            #[trigger] pt2.entry_at(x) matches Some(e) && e.flags == flags && !e.huge) && (
            pt2.translate(x) matches Some(pa) && mem2.has_fresh(pa) && mem2.phys_byte(pa) == Some(
                0u8,
            ) && mem_s.phys_byte(pa) is None),
        shared ==> forall|pa: int|
            f_g <= pa < f_g + PAGE_SIZE ==> #[trigger] mem_s.phys_byte(pa) == mem0.phys_byte(
                seg_file_pa(seg, mem0, spec_align_down(seg.virtual_addr + seg.file_size)) + (pa
                    - f_g),
            ),
        shared ==> forall|pa: int|
            !(f_g <= pa < f_g + PAGE_SIZE) ==> #[trigger] mem_s.phys_byte(pa) == mem0.phys_byte(
                pa,
            ),
        shared ==> mem0.base_free(f_g) && crate::memory::frame_base_ok(f_g) && mem_s.fresh@.len()
            == mem0.fresh@.len() + 1 && mem_s.fresh@.last().base == f_g && mem_s.fresh@.subrange(
            0,
            mem0.fresh@.len() as int,
        ) == mem0.fresh@,
        forall|pa: int|
            mem_s.phys_byte(pa) is Some ==> #[trigger] mem2.phys_byte(pa) == mem_s.phys_byte(pa),
        forall|pa: int|
            (forall|x: int|
                seg.virtual_addr + seg.file_size <= x < seg.virtual_addr + seg.mem_size
                    ==> #[trigger] pt2.translate(x) != Some(pa)) ==> #[trigger] mem3.phys_byte(pa)
                == mem2.phys_byte(pa),
        forall|x: int|
            seg.virtual_addr + seg.file_size <= x < seg.virtual_addr + seg.mem_size
                ==> #[trigger] virt_byte(pt2, mem3, x) == Some(0u8),
    ensures
        forall|pa: int|
            mem0.phys_byte(pa) is Some ==> #[trigger] mem3.phys_byte(pa) == mem0.phys_byte(pa),
        forall|a: int|
            seg.virtual_addr <= a < seg.virtual_addr + seg.file_size ==> #[trigger] virt_byte(
                pt2,
                mem3,
                a,
            ) == Some(mem0.image@[seg.file_offset + (a - seg.virtual_addr)]),
        forall|x: int|
            seg_lo(seg) <= x < seg_hi(seg) ==> (#[trigger] pt2.entry_at(x) matches Some(e)
                && e.flags == flags && !e.huge),
        forall|x: int|
            !(seg_lo(seg) <= x < seg_hi(seg)) ==> #[trigger] pt2.entry_at(x) == pt1.entry_at(x),
{
    let va = seg.virtual_addr;
    let fsz = seg.file_size;
    let msz = seg.mem_size;
    let zero_start = va + fsz;
    let zero_end = va + msz;
    let start_page = seg_lo(seg);
    let file_offset = spec_align_down(seg.file_offset as int);
    let lfp = spec_align_down(va + fsz - 1);
    let lp = spec_align_down(zero_start);
    let zp_start = spec_align_up(zero_start);
    let zp_end = seg_hi(seg);
    let L = seg_lo(seg);
    let H = seg_hi(seg);
    lemma_seg_bounds(seg);
    lemma_align_down_props(va as int);
    lemma_align_down_props(seg.file_offset as int);
    lemma_align_down_props(zero_start);
    lemma_align_up_props(zero_start);
    if fsz > 0 {
        lemma_align_down_mono(va as int, va + fsz - 1);
        lemma_aligned_le(start_page, va + fsz - 1);
        if shared {
            assert(lp == lfp) by {
                assert(spec_align_down(zero_start - 1) == spec_align_down(
                    zero_start,
                )) by (nonlinear_arith)
                    requires
                        zero_start % 0x1000 != 0,
                        spec_align_down(zero_start - 1) == zero_start - 1 - (zero_start - 1)
                            % 0x1000,
                        spec_align_down(zero_start) == zero_start - zero_start % 0x1000,
                ;
            }
            assert(zp_start == lfp + PAGE_SIZE);
        } else {
            crate::lemma_align_down_before(zero_start);
            assert(zp_start == lfp + PAGE_SIZE);
        }
    } else {
        assert(!shared);
        assert(zp_start == start_page);
    }
    // no zero-fill write lands on a byte that was known before the segment
    // was mapped
    assert forall|pa: int|
        mem0.phys_byte(pa) is Some implies #[trigger] mem3.phys_byte(pa) == mem0.phys_byte(
        pa,
    ) by {
        assert(mem_s.phys_byte(pa) == mem0.phys_byte(pa));
        assert(mem2.phys_byte(pa) == mem_s.phys_byte(pa));
        assert forall|x: int|
            zero_start <= x < zero_end implies #[trigger] pt2.translate(x) != Some(pa) by {
            if x < zp_start {
                assert(pt2.entry_at(x) == pt_s.entry_at(x));
                assert(pt2.translate(x) == Some(f_g + (x - lp)));
                assert(crate::memory::frame_covers(f_g, f_g + (x - lp)));
                if pa == f_g + (x - lp) {
                    mem_s.lemma_fresh_byte(mem_s.fresh@.len() - 1, pa);
                    assert(!mem0.in_image(pa)) by {
                        assert(mem0.base_outside_image(f_g));
                    }
                    assert(!mem0.has_fresh(pa)) by {
                        if mem0.has_fresh(pa) {
                            let j = mem0.fresh_idx(pa);
                            assert(crate::memory::frame_covers(mem0.fresh@[j].base, pa));
                            assert(mem_s.fresh@[j] == mem_s.fresh@.subrange(
                                0,
                                mem0.fresh@.len() as int,
                            )[j]);
                            crate::memory::lemma_aligned_bases_eq(
                                mem0.fresh@[j].base as int,
                                f_g as int,
                            );
                            assert(false);
                        }
                    }
                    assert(mem0.phys_byte(pa) is None);
                    assert(false);
                }
            } else {
                let q = pt2.translate(x).unwrap();
                assert(mem_s.phys_byte(q) is None);
                if q == pa {
                    assert(mem_s.phys_byte(pa) is Some);
                    assert(false);
                }
            }
        }
    }
    // the file-backed range still reads the image's bytes
    assert forall|a: int| va <= a < va + fsz implies #[trigger] virt_byte(pt2, mem3, a) == Some(
        mem0.image@[seg.file_offset + (a - va)],
    ) by {
        lemma_align_down_props(a as int);
        lemma_align_down_mono(va as int, a);
        lemma_aligned_le(start_page, a);
        lemma_align_down_mono(a, va + fsz - 1);
        lemma_aligned_le(spec_align_down(a), va + fsz - 1);
        let p = spec_align_down(a);
        assert(start_page <= p <= lfp);
        let img_pa = mem0.image_base + file_offset + (a - start_page);
        assert(img_pa == seg_file_pa(seg, mem0, a));
        assert(file_offset + (a - start_page) == seg.file_offset + (a - va));
        if shared && p == lp {
            assert(a < zero_start);
            assert(lp <= a < lp + PAGE_SIZE);
            assert(pt2.entry_at(a) == pt_s.entry_at(a));
            let pa = f_g + (a - lp);
            assert(pt2.translate(a) == Some(pa));
            assert(crate::memory::frame_covers(f_g, pa));
            assert(mem_s.phys_byte(pa) == mem0.phys_byte(seg_file_pa(seg, mem0, lp) + (a - lp)));
            assert(seg_file_pa(seg, mem0, lp) + (a - lp) == img_pa);
            assert(mem0.in_image(img_pa));
            assert(mem_s.phys_byte(pa) == mem0.phys_byte(img_pa));
            assert(mem2.phys_byte(pa) == mem_s.phys_byte(pa));
            assert forall|x: int|
                zero_start <= x < zero_end implies #[trigger] pt2.translate(x) != Some(pa) by {
                if x < zp_start {
                    assert(pt2.entry_at(x) == pt_s.entry_at(x));
                    assert(pt2.translate(x) == Some(f_g + (x - lp)));
                    assert(x > a);
                } else {
                    let q = pt2.translate(x).unwrap();
                    assert(mem_s.phys_byte(q) is None);
                    mem_s.lemma_fresh_byte(mem_s.fresh@.len() - 1, pa);
                    if q == pa {
                        assert(false);
                    }
                }
            }
            assert(mem3.phys_byte(pa) == mem2.phys_byte(pa));
        } else {
            if shared {
                assert(p < lp);
                crate::page_table::lemma_multiple_sep(p, lp, PAGE_SIZE as int);
                assert(a < lp);
            }
            assert(pt2.entry_at(a) == pt1.entry_at(a)) by {
                if shared {
                    assert(pt_s.entry_at(a) == pt1.entry_at(a));
                    assert(pt2.entry_at(a) == pt_s.entry_at(a));
                } else {
                    assert(pt2.entry_at(a) == pt_s.entry_at(a));
                }
            }
            assert(pt2.translate(a) == Some(img_pa));
            assert(mem0.in_image(img_pa));
            assert(mem0.phys_byte(img_pa) is Some);
            assert(mem3.phys_byte(img_pa) == mem0.phys_byte(img_pa));
        }
    }
    // flags on every page of the segment
    assert forall|x: int| L <= x < H implies (#[trigger] pt2.entry_at(x) matches Some(e)
        && e.flags == flags && !e.huge) by {
        if x < zp_start {
            assert(fsz > 0);
            assert(start_page <= x < lfp + PAGE_SIZE);
            if shared && lp <= x {
                assert(pt2.entry_at(x) == pt_s.entry_at(x));
            } else {
                assert(pt2.entry_at(x) == pt1.entry_at(x)) by {
                    if shared {
                        assert(pt_s.entry_at(x) == pt1.entry_at(x));
                        assert(pt2.entry_at(x) == pt_s.entry_at(x));
                    } else {
                        assert(pt2.entry_at(x) == pt_s.entry_at(x));
                    }
                }
            }
        }
    }
    // the table outside the segment's pages is as the file phase left it
    assert forall|x: int| !(L <= x < H) implies #[trigger] pt2.entry_at(x) == pt1.entry_at(x) by {
        if shared {
            assert(L <= lp && lp + PAGE_SIZE <= H);
            assert(pt_s.entry_at(x) == pt1.entry_at(x));
        }
        assert(pt2.entry_at(x) == pt_s.entry_at(x));
    }
}

/// Size of the huge-page range that covers `[0, max_addr)`.
pub open spec fn spec_huge_cover(max_addr: int) -> int {
    ((max_addr - 1) / (HUGE_PAGE_SIZE as int) + 1) * (HUGE_PAGE_SIZE as int)
}

/// Identity-map physical memory `[0, max_addr)` at `offset`, with huge
/// pages, always present and writable and never executable on the family
/// that would default to executable. The caller orders this after segment
/// mapping, so the whole target range is still unmapped.
#[verifier::rlimit(100)]
pub fn map_physical_memory(offset: u64, max_addr: u64, page_table: &mut PageTable, arch: Arch)
    requires
        old(page_table).wf(),
        offset % HUGE_PAGE_SIZE == 0,
        0 < max_addr,
        offset + spec_huge_cover(max_addr as int) <= u64::MAX + 1,
        spec_huge_cover(max_addr as int) <= u64::MAX + 1,
        old(page_table).range_free(offset as int, spec_huge_cover(max_addr as int)),
    ensures
        final(page_table).wf(),
        forall|pa: int|
            0 <= pa < max_addr ==> #[trigger] final(page_table).translate(offset + pa) == Some(pa),
        forall|x: int|
            offset <= x < offset + spec_huge_cover(max_addr as int)
                ==> (#[trigger] final(page_table).entry_at(x) matches Some(e) && e.flags
                == crate::flags::spec_default_ptf(arch) && e.huge),
        forall|x: int|
            !(offset <= x < offset + spec_huge_cover(max_addr as int))
                ==> #[trigger] final(page_table).entry_at(x) == old(page_table).entry_at(x),
{
    let flags = crate::flags::default_ptf(arch);
    let n_huge = (max_addr - 1) / HUGE_PAGE_SIZE + 1;
    proof {
        assert(n_huge * HUGE_PAGE_SIZE == spec_huge_cover(max_addr as int));
        assert(max_addr <= n_huge * HUGE_PAGE_SIZE) by (nonlinear_arith)
            requires
                n_huge == (max_addr - 1) / 0x20_0000 + 1,
                0 < max_addr,
        ;
    }
    let mut i: u64 = 0;
    while i < n_huge
        invariant
            page_table.wf(),
            old(page_table).wf(),
            flags == crate::flags::spec_default_ptf(arch),
            offset % HUGE_PAGE_SIZE == 0,
            0 <= i <= n_huge,
            offset + n_huge * HUGE_PAGE_SIZE <= u64::MAX + 1,
            n_huge * HUGE_PAGE_SIZE <= u64::MAX + 1,
            old(page_table).range_free(offset as int, n_huge * HUGE_PAGE_SIZE),
            forall|x: int|
                !(offset <= x < offset + i * HUGE_PAGE_SIZE) ==> #[trigger] page_table.entry_at(x)
                    == old(page_table).entry_at(x),
            forall|x: int|
                offset <= x < offset + i * HUGE_PAGE_SIZE ==> (#[trigger] page_table.entry_at(x)
                    matches Some(e) && e.flags == crate::flags::spec_default_ptf(arch) && e.huge)
                    && page_table.translate(x) == Some(x - offset),
        decreases n_huge - i,
    {
        let page = offset + i * HUGE_PAGE_SIZE;
        let frame = i * HUGE_PAGE_SIZE;
        proof {
            crate::lemma_aligned_sum(offset as int, 0);
            assert(page % HUGE_PAGE_SIZE == 0 && frame % HUGE_PAGE_SIZE == 0) by (nonlinear_arith)
                requires
                    offset % 0x20_0000 == 0,
                    page == offset + i * 0x20_0000,
                    frame == i * 0x20_0000,
            ;
            assert(page_table.range_free(page as int, HUGE_PAGE_SIZE as int)) by {
                page_table.lemma_range_free_iff_uncovered(page as int, HUGE_PAGE_SIZE as int);
                old(page_table).lemma_range_free_iff_uncovered(page as int, HUGE_PAGE_SIZE as int);
                old(page_table).lemma_range_free_mono(
                    page as int,
                    HUGE_PAGE_SIZE as int,
                    offset as int,
                    n_huge * HUGE_PAGE_SIZE,
                );
                assert forall|x: int| page <= x < page + HUGE_PAGE_SIZE implies !(
                #[trigger] page_table.covered(x)) by {
                    assert(page_table.entry_at(x) == old(page_table).entry_at(x));
                    assert(!old(page_table).covered(x));
                }
            }
        }
        let ghost before = *page_table;
        match page_table.map_to_huge(page, frame, flags) {
            Ok(()) => {},
            Err(_) => {
                proof {
                    assert(false);
                }
            },
        }
        proof {
            assert forall|x: int|
                offset <= x < offset + (i + 1) * HUGE_PAGE_SIZE implies (
            #[trigger] page_table.entry_at(x) matches Some(e) && e.flags
                == crate::flags::spec_default_ptf(arch) && e.huge) && page_table.translate(x)
                == Some(x - offset) by {
                if x < offset + i * HUGE_PAGE_SIZE {
                    assert(before.entry_at(x) matches Some(e) && e.flags
                        == crate::flags::spec_default_ptf(arch) && e.huge);
                    assert(page_table.entry_at(x) == before.entry_at(x));
                } else {
                    assert(page <= x < page + HUGE_PAGE_SIZE);
                }
            }
        }
        i = i + 1;
    }
}

/// Every byte of the zero-fill range is mapped onto a fresh frame once the
/// shared page is remapped and the zero pages are installed.
proof fn lemma_fill_zero_targets(
    seg: Segment,
    shared: bool,
    f_g: u64,
    pt_s: PageTable,
    pt2: PageTable,
    mem_s: PhysMemory,
    mem2: PhysMemory,
    zp_start: int,
    zp_end: int,
)
    requires
        mem_s.wf(),
        zp_start == spec_align_up(seg.virtual_addr + seg.file_size),
        zp_end == seg_hi(seg),
        seg.mem_size > seg.file_size,
        shared == ((seg.virtual_addr + seg.file_size) % (PAGE_SIZE as int) != 0),
        shared ==> forall|x: int|
            spec_align_down(seg.virtual_addr + seg.file_size) <= x < spec_align_down(
                seg.virtual_addr + seg.file_size,
            ) + PAGE_SIZE ==> #[trigger] pt_s.translate(x) == Some(
                f_g + (x - spec_align_down(seg.virtual_addr + seg.file_size)),
            ),
        shared ==> crate::memory::frame_base_ok(f_g) && mem_s.fresh@.len() > 0
            && mem_s.fresh@.last().base == f_g && mem_s.fresh@.last().bytes@.len() == PAGE_SIZE,
        mem_s.fresh@.len() <= mem2.fresh@.len(),
        mem2.fresh@.subrange(0, mem_s.fresh@.len() as int) == mem_s.fresh@,
        forall|x: int|
            !(zp_start <= x < zp_end) ==> #[trigger] pt2.entry_at(x) == pt_s.entry_at(x),
        forall|x: int|
            zp_start <= x < zp_end ==> (#[trigger] pt2.entry_at(x) is Some) && (pt2.translate(x)
                matches Some(pa) && mem2.has_fresh(pa)),
    ensures
        forall|x: int|
            seg.virtual_addr + seg.file_size <= x < seg.virtual_addr + seg.mem_size ==> (
            #[trigger] pt2.translate(x) matches Some(pa) && mem2.has_fresh(pa)),
{
    let zero_start = seg.virtual_addr + seg.file_size;
    let zero_end = seg.virtual_addr + seg.mem_size;
    let lp = spec_align_down(zero_start);
    lemma_align_down_props(zero_start);
    lemma_align_up_props(zero_start);
    lemma_seg_bounds_weak(seg);
    assert forall|x: int| zero_start <= x < zero_end implies (#[trigger] pt2.translate(x)
        matches Some(pa) && mem2.has_fresh(pa)) by {
        if x < zp_start {
            assert(shared);
            assert(lp <= x < lp + PAGE_SIZE);
            assert(pt2.entry_at(x) == pt_s.entry_at(x));
            assert(pt_s.translate(x) == Some(f_g + (x - lp)));
            assert(pt2.translate(x) == Some(f_g + (x - lp)));
            assert(mem_s.has_fresh(f_g + (x - lp))) by {
                assert(crate::memory::frame_covers(f_g, f_g + (x - lp)));
                assert(crate::memory::frame_covers(
                    mem_s.fresh@[mem_s.fresh@.len() - 1].base,
                    f_g + (x - lp),
                ));
            }
            mem_s.lemma_has_fresh_grows(mem2, f_g + (x - lp));
        } else {
            assert(zp_start <= x < zp_end);
        }
    }
}

/// A mappable segment's zero-fill end lies inside its page range.
proof fn lemma_seg_bounds_weak(seg: Segment)
    requires
        seg.mem_size > seg.file_size,
    ensures
        seg.virtual_addr + seg.mem_size <= seg_hi(seg),
{
    lemma_align_up_props(seg.virtual_addr + seg.mem_size);
}

/// Map `pages` pages for the kernel stack, starting at the page containing
/// `addr`, each onto a freshly allocated frame with the default flags
/// (read and write, never execute). Stack frames are left uninitialized.
#[verifier::rlimit(100)]
#[verifier::spinoff_prover]
pub fn map_stack(
    addr: u64,
    pages: u64,
    page_table: &mut PageTable,
    frame_allocator: &mut FrameSource,
    mem: &PhysMemory,
    arch: Arch,
) -> (r: Result<(), MapToError>)
    requires
        old(page_table).wf(),
        old(frame_allocator).wf(),
        mem.wf(),
        pool_free(*old(frame_allocator), *mem),
        addr <= MAX_ALIGNABLE,
        spec_align_down(addr as int) + pages * PAGE_SIZE <= u64::MAX + 1,
    ensures
        final(page_table).wf(),
        final(frame_allocator).wf(),
        pool_free(*final(frame_allocator), *mem),
        final(frame_allocator).pool@.len() <= old(frame_allocator).pool@.len()
            && final(frame_allocator).pool@ == old(frame_allocator).pool@.take(
            final(frame_allocator).pool@.len() as int,
        ),
        r is Ok <==> (pages <= old(frame_allocator).pool@.len() && old(page_table).range_free(
            spec_align_down(addr as int),
            pages * PAGE_SIZE,
        )),
        r matches Err(e) && e == MapToError::FrameAllocationFailed ==> old(
            frame_allocator,
        ).pool@.len() < pages,
        r matches Err(e) && e != MapToError::FrameAllocationFailed ==> !old(
            page_table,
        ).range_free(spec_align_down(addr as int), pages * PAGE_SIZE),
        forall|va: int|
            !(spec_align_down(addr as int) <= va < spec_align_down(addr as int) + pages
                * PAGE_SIZE) ==> #[trigger] final(page_table).entry_at(va) == old(page_table).entry_at(va),
        r is Ok ==> forall|va: int|
            spec_align_down(addr as int) <= va < spec_align_down(addr as int) + pages * PAGE_SIZE
                ==> (#[trigger] final(page_table).entry_at(va) matches Some(e) && e.flags
                == crate::flags::spec_default_ptf(arch) && !e.huge) && (final(page_table).translate(
                va,
            ) matches Some(pa) && mem.phys_byte(pa) is None),
        r is Ok ==> final(frame_allocator).pool@ == old(frame_allocator).pool@.take(
            old(frame_allocator).pool@.len() - pages as int,
        ),
{
    let flags = crate::flags::default_ptf(arch);
    let stack_start = align_down_u(addr);
    let mut i: u64 = 0;
    while i < pages
        invariant
            page_table.wf(),
            old(page_table).wf(),
            frame_allocator.wf(),
            old(frame_allocator).wf(),
            mem.wf(),
            pool_free(*frame_allocator, *mem),
            flags == crate::flags::spec_default_ptf(arch),
            stack_start == spec_align_down(addr as int),
            stack_start % PAGE_SIZE == 0,
            stack_start + pages * PAGE_SIZE <= u64::MAX + 1,
            0 <= i <= pages,
            i <= old(frame_allocator).pool@.len(),
            frame_allocator.pool@ == old(frame_allocator).pool@.take(
                old(frame_allocator).pool@.len() - i as int,
            ),
            forall|va: int|
                !(stack_start <= va < stack_start + i * PAGE_SIZE)
                    ==> #[trigger] page_table.entry_at(va) == old(page_table).entry_at(va),
            forall|va: int|
                stack_start <= va < stack_start + i * PAGE_SIZE ==> (
                #[trigger] page_table.entry_at(va) matches Some(e) && e.flags
                    == crate::flags::spec_default_ptf(arch) && !e.huge) && (page_table.translate(
                    va,
                ) matches Some(pa) && mem.phys_byte(pa) is None),
            forall|va: int|
                stack_start <= va < stack_start + i * PAGE_SIZE
                    ==> #[trigger] old(page_table).entry_at(va) is None,
        decreases pages - i,
    {
        let page = stack_start + i * PAGE_SIZE;
        let f = match frame_allocator.allocate_frame() {
            Some(f) => f,
            None => {
                proof {
                    assert(old(frame_allocator).pool@.len() - i as int == 0);
                    assert(frame_allocator.pool@ =~= old(frame_allocator).pool@.take(
                        frame_allocator.pool@.len() as int,
                    ));
                }
                return Err(MapToError::FrameAllocationFailed);
            },
        };
        proof {
            let plen = old(frame_allocator).pool@.len() as int;
            assert(frame_allocator.pool@ =~= old(frame_allocator).pool@.take(plen - (i + 1)));
            assert(frame_allocator.pool@ =~= old(frame_allocator).pool@.take(
                frame_allocator.pool@.len() as int,
            ));
            assert(mem.base_free(f));
        }
        let ghost pt_before = *page_table;
        match page_table.map_to(page, f, flags) {
            Ok(()) => {},
            Err(e) => {
                proof {
                    assert(page_table.entry_at(page as int) == old(page_table).entry_at(
                        page as int,
                    ));
                    assert(pt_before.covered(page as int));
                    assert(old(page_table).covered(page as int));
                    let w = old(page_table).idx_of(page as int);
                    assert(entry_covers(old(page_table).entries@[w], page as int));
                    assert(!old(page_table).range_free(stack_start as int, pages * PAGE_SIZE));
                }
                return Err(e);
            },
        }
        proof {
            assert forall|va: int|
                stack_start <= va < stack_start + (i + 1) * PAGE_SIZE implies (
            #[trigger] page_table.entry_at(va) matches Some(e) && e.flags
                == crate::flags::spec_default_ptf(arch) && !e.huge) && (page_table.translate(va)
                matches Some(pa) && mem.phys_byte(pa) is None) by {
                if va < stack_start + i * PAGE_SIZE {
                    assert(pt_before.entry_at(va) matches Some(e) && e.flags
                        == crate::flags::spec_default_ptf(arch) && !e.huge);
                    assert(page_table.entry_at(va) == pt_before.entry_at(va));
                } else {
                    assert(page <= va < page + PAGE_SIZE);
                    let pa = f + (va - page);
                    assert(page_table.translate(va) == Some(pa));
                    assert(!mem.in_image(pa)) by {
                        assert(mem.base_outside_image(f));
                    }
                    assert(!mem.has_fresh(pa)) by {
                        if mem.has_fresh(pa) {
                            let j = mem.fresh_idx(pa);
                            assert(crate::memory::frame_covers(mem.fresh@[j].base, pa));
                            assert(mem.fresh@[j].base != f);
                            crate::memory::lemma_aligned_bases_eq(
                                mem.fresh@[j].base as int,
                                f as int,
                            );
                            assert(false);
                        }
                    }
                }
            }
            assert forall|va: int|
                stack_start <= va < stack_start + (i + 1) * PAGE_SIZE implies #[trigger] old(
                page_table,
            ).entry_at(va) is None by {
                if va < stack_start + i * PAGE_SIZE {
                } else {
                    assert(page <= va < page + PAGE_SIZE);
                    if old(page_table).covered(va) {
                        old(page_table).lemma_covered_page(va);
                        lemma_align_down_props(va);
                        lemma_aligned_le(page as int, va);
                        if page < spec_align_down(va) {
                            crate::page_table::lemma_multiple_sep(
                                page as int,
                                spec_align_down(va),
                                PAGE_SIZE as int,
                            );
                        }
                        assert(spec_align_down(va) == page);
                        assert(pt_before.entry_at(page as int) == old(page_table).entry_at(
                            page as int,
                        ));
                        assert(!pt_before.covered(page as int));
                        assert(false);
                    }
                }
            }
        }
        i = i + 1;
    }
    proof {
        if !old(page_table).range_free(stack_start as int, pages * PAGE_SIZE) {
            old(page_table).lemma_range_free_iff_uncovered(stack_start as int, pages * PAGE_SIZE);
            let va = choose|va: int|
                stack_start <= va < stack_start + pages * PAGE_SIZE && #[trigger] old(
                    page_table,
                ).covered(va);
            assert(old(page_table).entry_at(va) is Some);
            assert(false);
        }
        assert(frame_allocator.pool@ =~= old(frame_allocator).pool@.take(
            frame_allocator.pool@.len() as int,
        ));
    }
    Ok(())
}

/// Every load segment of the image is acceptable to the mapper.
pub open spec fn all_load_mappable(segs: Seq<Segment>, mem: PhysMemory) -> bool {
    forall|i: int|
        0 <= i < segs.len() && (#[trigger] segs[i]).kind == SegmentKind::Load ==> seg_mappable(
            segs[i],
            mem,
        )
}

/// No two load segments share a page.
pub open spec fn segs_disjoint(segs: Seq<Segment>) -> bool {
    forall|i: int, j: int|
        0 <= i < segs.len() && 0 <= j < segs.len() && i != j && (#[trigger] segs[i]).kind
            == SegmentKind::Load && (#[trigger] segs[j]).kind == SegmentKind::Load ==> seg_hi(
            segs[i],
        ) <= seg_lo(segs[j]) || seg_hi(segs[j]) <= seg_lo(segs[i])
}

/// Does virtual address `x` fall on a page of some load segment?
pub open spec fn in_seg_pages(segs: Seq<Segment>, x: int) -> bool {
    exists|i: int|
        0 <= i < segs.len() && (#[trigger] segs[i]).kind == SegmentKind::Load && seg_lo(segs[i])
            <= x < seg_hi(segs[i])
}

/// Fresh frames that mapping all the segments draws from the source.
pub open spec fn total_frames_needed(segs: Seq<Segment>) -> int
    decreases segs.len(),
{
    if segs.len() == 0 {
        0
    } else {
        seg_frames_needed(segs[0]) + total_frames_needed(segs.skip(1))
    }
}

/// A segment needs a non-negative number of frames.
proof fn lemma_seg_frames_nonneg(seg: Segment)
    ensures
        seg_frames_needed(seg) >= 0,
{
    if seg.kind == SegmentKind::Load && seg.mem_size > seg.file_size {
        lemma_align_up_mono(
            seg.virtual_addr + seg.file_size,
            seg.virtual_addr + seg.mem_size,
        );
        let d = spec_align_up(seg.virtual_addr + seg.mem_size) - spec_align_up(
            seg.virtual_addr + seg.file_size,
        );
        assert(d / (PAGE_SIZE as int) >= 0) by (nonlinear_arith)
            requires
                d >= 0,
        ;
    }
}

/// The frames needed by a prefix grow by exactly the next segment's need.
proof fn lemma_total_frames_step(segs: Seq<Segment>, k: int)
    requires
        0 <= k < segs.len(),
    ensures
        total_frames_needed(segs.take(k + 1)) == total_frames_needed(segs.take(k))
            + seg_frames_needed(segs[k]),
    decreases k,
{
    if k == 0 {
        assert(segs.take(1)[0] == segs[0]);
        assert(segs.take(1).skip(1) =~= Seq::<Segment>::empty());
        assert(segs.take(0) =~= Seq::<Segment>::empty());
    } else {
        assert(segs.take(k + 1)[0] == segs[0]);
        assert(segs.take(k)[0] == segs[0]);
        assert(segs.take(k + 1).skip(1) =~= segs.skip(1).take(k));
        assert(segs.take(k).skip(1) =~= segs.skip(1).take(k - 1));
        assert(segs.skip(1)[k - 1] == segs[k]);
        lemma_total_frames_step(segs.skip(1), k - 1);
    }
}

/// Frames needed by a prefix never exceed those needed by the whole.
proof fn lemma_total_frames_prefix(segs: Seq<Segment>, k: int)
    requires
        0 <= k <= segs.len(),
    ensures
        total_frames_needed(segs.take(k)) <= total_frames_needed(segs),
    decreases segs.len() - k,
{
    if k == segs.len() {
        assert(segs.take(k) =~= segs);
    } else {
        lemma_total_frames_step(segs, k);
        lemma_seg_frames_nonneg(segs[k]);
        lemma_total_frames_prefix(segs, k + 1);
    }
}



/// An address on a page of some segment of a prefix is on a page of some
/// segment of the whole sequence.
proof fn lemma_in_pages_mono(segs: Seq<Segment>, k: int, x: int)
    requires
        0 <= k <= segs.len(),
        in_seg_pages(segs.take(k), x),
    ensures
        in_seg_pages(segs, x),
{
    let i = choose|i: int|
        0 <= i < k && (#[trigger] segs.take(k)[i]).kind == SegmentKind::Load && seg_lo(
            segs.take(k)[i],
        ) <= x < seg_hi(segs.take(k)[i]);
    assert(segs[i] == segs.take(k)[i]);
}

/// Mapping one more segment leaves every already-mapped segment reading
/// exactly as before: its pages are disjoint from the new segment's pages,
/// and no byte it can reach is written again.
#[verifier::rlimit(100)]
proof fn lemma_elf_preserve(
    segments: Seq<Segment>,
    k: int,
    arch: Arch,
    img0: Seq<u8>,
    pt_b: PageTable,
    pt_a: PageTable,
    mem_b: PhysMemory,
    mem_a: PhysMemory,
)
    requires
        0 <= k < segments.len(),
        segs_disjoint(segments),
        forall|i: int|
            0 <= i < segments.len() && (#[trigger] segments[i]).kind == SegmentKind::Load
                ==> segments[i].file_size <= segments[i].mem_size && segments[i].virtual_addr
                + segments[i].mem_size <= MAX_ALIGNABLE,
        forall|x: int|
            !(segments[k].kind == SegmentKind::Load && seg_lo(segments[k]) <= x < seg_hi(
                segments[k],
            )) ==> #[trigger] pt_a.entry_at(x) == pt_b.entry_at(x),
        forall|pa: int|
            mem_b.phys_byte(pa) is Some ==> #[trigger] mem_a.phys_byte(pa) == mem_b.phys_byte(pa),
        forall|i: int, a: int|
            0 <= i < k && (#[trigger] segments[i]).kind == SegmentKind::Load
                && segments[i].virtual_addr <= a < segments[i].virtual_addr
                + segments[i].file_size ==> #[trigger] virt_byte(pt_b, mem_b, a) == Some(
                img0[segments[i].file_offset + (a - segments[i].virtual_addr)],
            ),
        forall|i: int, a: int|
            0 <= i < k && (#[trigger] segments[i]).kind == SegmentKind::Load
                && segments[i].virtual_addr + segments[i].file_size <= a
                < segments[i].virtual_addr + segments[i].mem_size ==> #[trigger] virt_byte(
                pt_b,
                mem_b,
                a,
            ) == Some(0u8),
        forall|i: int, x: int|
            0 <= i < k && (#[trigger] segments[i]).kind == SegmentKind::Load && seg_lo(segments[i])
                <= x < seg_hi(segments[i]) ==> (#[trigger] pt_b.entry_at(x) matches Some(e)
                && e.flags == spec_trans_flags(arch, segments[i].flags) && !e.huge),
    ensures
        forall|i: int, a: int|
            0 <= i < k && (#[trigger] segments[i]).kind == SegmentKind::Load
                && segments[i].virtual_addr <= a < segments[i].virtual_addr
                + segments[i].file_size ==> #[trigger] virt_byte(pt_a, mem_a, a) == Some(
                img0[segments[i].file_offset + (a - segments[i].virtual_addr)],
            ),
        forall|i: int, a: int|
            0 <= i < k && (#[trigger] segments[i]).kind == SegmentKind::Load
                && segments[i].virtual_addr + segments[i].file_size <= a
                < segments[i].virtual_addr + segments[i].mem_size ==> #[trigger] virt_byte(
                pt_a,
                mem_a,
                a,
            ) == Some(0u8),
        forall|i: int, x: int|
            0 <= i < k && (#[trigger] segments[i]).kind == SegmentKind::Load && seg_lo(segments[i])
                <= x < seg_hi(segments[i]) ==> (#[trigger] pt_a.entry_at(x) matches Some(e)
                && e.flags == spec_trans_flags(arch, segments[i].flags) && !e.huge),
{
    assert forall|i: int, x: int|
        #![trigger segments[i], pt_a.entry_at(x)]
        0 <= i < k && segments[i].kind == SegmentKind::Load && seg_lo(segments[i]) <= x < seg_hi(
            segments[i],
        ) implies pt_a.entry_at(x) == pt_b.entry_at(x) by {
        assert(segments[k].kind != SegmentKind::Load || seg_hi(segments[i]) <= seg_lo(segments[k])
            || seg_hi(segments[k]) <= seg_lo(segments[i]));
    }
    assert forall|i: int, a: int|
        0 <= i < k && (#[trigger] segments[i]).kind == SegmentKind::Load
            && segments[i].virtual_addr <= a < segments[i].virtual_addr
            + segments[i].file_size implies #[trigger] virt_byte(pt_a, mem_a, a) == Some(
        img0[segments[i].file_offset + (a - segments[i].virtual_addr)],
    ) by {
        lemma_seg_bounds(segments[i]);
        assert(seg_lo(segments[i]) <= a < seg_hi(segments[i]));
        assert(virt_byte(pt_b, mem_b, a) == Some(
            img0[segments[i].file_offset + (a - segments[i].virtual_addr)],
        ));
        assert(pt_a.entry_at(a) == pt_b.entry_at(a));
        let pa = pt_b.translate(a).unwrap();
        assert(mem_b.phys_byte(pa) is Some);
        assert(mem_a.phys_byte(pa) == mem_b.phys_byte(pa));
    }
    assert forall|i: int, a: int|
        0 <= i < k && (#[trigger] segments[i]).kind == SegmentKind::Load
            && segments[i].virtual_addr + segments[i].file_size <= a < segments[i].virtual_addr
            + segments[i].mem_size implies #[trigger] virt_byte(pt_a, mem_a, a) == Some(0u8) by {
        lemma_seg_bounds(segments[i]);
        assert(seg_lo(segments[i]) <= a < seg_hi(segments[i]));
        assert(virt_byte(pt_b, mem_b, a) == Some(0u8));
        assert(pt_a.entry_at(a) == pt_b.entry_at(a));
        let pa = pt_b.translate(a).unwrap();
        assert(mem_b.phys_byte(pa) is Some);
        assert(mem_a.phys_byte(pa) == mem_b.phys_byte(pa));
    }
}

/// Map every loadable segment of the image. Segments that are not of load
/// kind are skipped; the first failure stops the whole pass with nothing
/// rolled back.
#[verifier::rlimit(100)]
#[verifier::spinoff_prover]
pub fn map_elf(
    segments: &Vec<Segment>,
    kernel_start: u64,
    page_table: &mut PageTable,
    frame_allocator: &mut FrameSource,
    mem: &mut PhysMemory,
    arch: Arch,
) -> (r: Result<(), MapToError>)
    requires
        old(page_table).wf(),
        old(mem).wf(),
        old(frame_allocator).wf(),
        pool_free(*old(frame_allocator), *old(mem)),
        kernel_start == old(mem).image_base,
        all_load_mappable(segments@, *old(mem)),
        segs_disjoint(segments@),
    ensures
        final(page_table).wf(),
        final(mem).wf(),
        final(frame_allocator).wf(),
        pool_free(*final(frame_allocator), *final(mem)),
        final(mem).image_base == old(mem).image_base,
        final(mem).image@ == old(mem).image@,
        forall|pa: int|
            old(mem).phys_byte(pa) is Some ==> #[trigger] final(mem).phys_byte(pa) == old(
                mem,
            ).phys_byte(pa),
        forall|x: int|
            !in_seg_pages(segments@, x) ==> #[trigger] final(page_table).entry_at(x) == old(page_table).entry_at(x),
        final(frame_allocator).pool@.len() <= old(frame_allocator).pool@.len()
            && final(frame_allocator).pool@ == old(frame_allocator).pool@.take(
            final(frame_allocator).pool@.len() as int,
        ),
        r is Ok <==> (total_frames_needed(segments@) <= old(frame_allocator).pool@.len() && (
        forall|i: int|
            0 <= i < segments@.len() && (#[trigger] segments@[i]).kind == SegmentKind::Load ==> old(
                page_table,
            ).range_free(seg_lo(segments@[i]), seg_hi(segments@[i]) - seg_lo(segments@[i])))),
        r matches Err(e) && e == MapToError::FrameAllocationFailed ==> old(
            frame_allocator,
        ).pool@.len() < total_frames_needed(segments@),
        r matches Err(e) ==> (e != MapToError::FrameAllocationFailed ==> (exists|i: int|
            0 <= i < segments@.len() && (#[trigger] segments@[i]).kind == SegmentKind::Load && !old(
                page_table,
            ).range_free(seg_lo(segments@[i]), seg_hi(segments@[i]) - seg_lo(segments@[i])))
            && (exists|x: int|
            in_seg_pages(segments@, x) && #[trigger] old(page_table).covered(x) && ((e
                == MapToError::ParentEntryHugePage) <==> old(page_table).huge_at(x)))),
        r is Ok ==> forall|i: int, a: int|
            0 <= i < segments@.len() && (#[trigger] segments@[i]).kind == SegmentKind::Load
                && segments@[i].virtual_addr <= a < segments@[i].virtual_addr
                + segments@[i].file_size ==> #[trigger] virt_byte(
                *final(page_table),
                *final(mem),
                a,
            ) == Some(
                old(mem).image@[segments@[i].file_offset + (a - segments@[i].virtual_addr)],
            ),
        r is Ok ==> forall|i: int, a: int|
            0 <= i < segments@.len() && (#[trigger] segments@[i]).kind == SegmentKind::Load
                && segments@[i].virtual_addr + segments@[i].file_size <= a
                < segments@[i].virtual_addr + segments@[i].mem_size ==> #[trigger] virt_byte(
                *final(page_table),
                *final(mem),
                a,
            ) == Some(0u8),
        r is Ok ==> forall|i: int, x: int|
            0 <= i < segments@.len() && (#[trigger] segments@[i]).kind == SegmentKind::Load
                && seg_lo(segments@[i]) <= x < seg_hi(segments@[i])
                ==> (#[trigger] final(page_table).entry_at(x) matches Some(e) && e.flags == spec_trans_flags(
                arch,
                segments@[i].flags,
            ) && !e.huge),
{
    let n = segments.len();
    let mut k: usize = 0;
    proof {
        assert(segments@.take(0) =~= Seq::<Segment>::empty());
    }
    while k < n
        invariant
            page_table.wf(),
            old(page_table).wf(),
            mem.wf(),
            old(mem).wf(),
            frame_allocator.wf(),
            old(frame_allocator).wf(),
            pool_free(*frame_allocator, *mem),
            n == segments@.len(),
            0 <= k <= n,
            kernel_start == old(mem).image_base,
            all_load_mappable(segments@, *old(mem)),
            segs_disjoint(segments@),
            mem.image_base == old(mem).image_base,
            mem.image@ == old(mem).image@,
            0 <= total_frames_needed(segments@.take(k as int)) <= old(
                frame_allocator,
            ).pool@.len(),
            frame_allocator.pool@ == old(frame_allocator).pool@.take(
                old(frame_allocator).pool@.len() - total_frames_needed(segments@.take(k as int)),
            ),
            forall|pa: int|
                old(mem).phys_byte(pa) is Some ==> #[trigger] mem.phys_byte(pa) == old(
                    mem,
                ).phys_byte(pa),
            forall|x: int|
                !in_seg_pages(segments@.take(k as int), x) ==> #[trigger] page_table.entry_at(x)
                    == old(page_table).entry_at(x),
            forall|i: int|
                0 <= i < k && (#[trigger] segments@[i]).kind == SegmentKind::Load ==> old(
                    page_table,
                ).range_free(seg_lo(segments@[i]), seg_hi(segments@[i]) - seg_lo(segments@[i])),
            forall|i: int, a: int|
                0 <= i < k && (#[trigger] segments@[i]).kind == SegmentKind::Load
                    && segments@[i].virtual_addr <= a < segments@[i].virtual_addr
                    + segments@[i].file_size ==> #[trigger] virt_byte(*page_table, *mem, a)
                    == Some(
                    old(mem).image@[segments@[i].file_offset + (a - segments@[i].virtual_addr)],
                ),
            forall|i: int, a: int|
                0 <= i < k && (#[trigger] segments@[i]).kind == SegmentKind::Load
                    && segments@[i].virtual_addr + segments@[i].file_size <= a
                    < segments@[i].virtual_addr + segments@[i].mem_size ==> #[trigger] virt_byte(
                    *page_table,
                    *mem,
                    a,
                ) == Some(0u8),
            forall|i: int, x: int|
                0 <= i < k && (#[trigger] segments@[i]).kind == SegmentKind::Load && seg_lo(
                    segments@[i],
                ) <= x < seg_hi(segments@[i]) ==> (#[trigger] page_table.entry_at(x)
                    matches Some(e) && e.flags == spec_trans_flags(arch, segments@[i].flags)
                    && !e.huge),
        decreases n - k,
    {
        let ghost segk = segments@[k as int];
        let ghost pt_before = *page_table;
        let ghost mem_before = *mem;
        let ghost fa_before = *frame_allocator;
        proof {
            if segk.kind == SegmentKind::Load {
                assert(seg_mappable(segk, *old(mem)));
                assert(seg_mappable(segk, *mem));
                lemma_seg_bounds(segk);
                assert forall|x: int|
                    seg_lo(segk) <= x < seg_hi(segk) implies #[trigger] page_table.entry_at(x)
                    == old(page_table).entry_at(x) by {
                    if in_seg_pages(segments@.take(k as int), x) {
                        let i = choose|i: int|
                            0 <= i < k && (#[trigger] segments@.take(k as int)[i]).kind
                                == SegmentKind::Load && seg_lo(segments@.take(k as int)[i]) <= x
                                < seg_hi(segments@.take(k as int)[i]);
                        assert(segments@[i] == segments@.take(k as int)[i]);
                        assert(seg_hi(segments@[i]) <= seg_lo(segk) || seg_hi(segk) <= seg_lo(
                            segments@[i],
                        ));
                        assert(false);
                    }
                }
            }
        }
        let seg = segments[k];
        match map_segment(&seg, kernel_start, page_table, frame_allocator, mem, arch) {
            Ok(()) => {},
            Err(e) => {
                proof {
                    lemma_total_frames_step(segments@, k as int);
                    lemma_total_frames_prefix(segments@, k as int + 1);
                    if e == MapToError::FrameAllocationFailed {
                        assert(fa_before.pool@.len() < seg_frames_needed(segk));
                        assert(fa_before.pool@.len() == old(frame_allocator).pool@.len()
                            - total_frames_needed(segments@.take(k as int)));
                        assert(old(frame_allocator).pool@.len() < total_frames_needed(
                            segments@.take(k as int + 1),
                        ));
                        assert(old(frame_allocator).pool@.len() < total_frames_needed(segments@));
                    } else {
                        assert(segk.kind == SegmentKind::Load);
                        assert(!pt_before.range_free(seg_lo(segk), seg_hi(segk) - seg_lo(segk)));
                        crate::page_table::lemma_range_free_transfer(
                            pt_before,
                            *old(page_table),
                            seg_lo(segk),
                            seg_hi(segk) - seg_lo(segk),
                        );
                        assert(!old(page_table).range_free(
                            seg_lo(segk),
                            seg_hi(segk) - seg_lo(segk),
                        ));
                        let x = choose|x: int|
                            seg_lo(segk) <= x < seg_hi(segk) && #[trigger] pt_before.covered(x)
                                && ((e == MapToError::ParentEntryHugePage) <==> pt_before.huge_at(
                                x,
                            ));
                        assert(pt_before.entry_at(x) == old(page_table).entry_at(x));
                        assert(old(page_table).covered(x) && ((e
                            == MapToError::ParentEntryHugePage) <==> old(page_table).huge_at(x)));
                        assert(in_seg_pages(segments@, x));
                    }
                    assert(fa_before.pool@ == old(frame_allocator).pool@.take(
                        fa_before.pool@.len() as int,
                    ));
                    lemma_prefix_chain(
                        old(frame_allocator).pool@,
                        fa_before.pool@,
                        frame_allocator.pool@,
                    );
                    assert forall|x: int|
                        !in_seg_pages(segments@, x) implies #[trigger] page_table.entry_at(x)
                        == old(page_table).entry_at(x) by {
                        assert(!(seg_lo(segk) <= x < seg_hi(segk)) || segk.kind
                            != SegmentKind::Load);
                        assert(page_table.entry_at(x) == pt_before.entry_at(x));
                        if in_seg_pages(segments@.take(k as int), x) {
                            lemma_in_pages_mono(segments@, k as int, x);
                        }
                    }
                }
                return Err(e);
            },
        }
        proof {
            lemma_total_frames_step(segments@, k as int);
            lemma_seg_frames_nonneg(segk);
            if segk.kind == SegmentKind::Load {
                assert(seg_frames_needed(segk) <= fa_before.pool@.len());
                let m1 = old(frame_allocator).pool@.len() - total_frames_needed(
                    segments@.take(k as int),
                );
                assert(fa_before.pool@ == old(frame_allocator).pool@.take(m1));
                assert(fa_before.pool@.len() == m1);
                assert(frame_allocator.pool@ == fa_before.pool@.take(
                    m1 - seg_frames_needed(segk),
                ));
                assert(old(frame_allocator).pool@.len() - total_frames_needed(
                    segments@.take(k as int + 1),
                ) == m1 - seg_frames_needed(segk));
                assert(frame_allocator.pool@ =~= old(frame_allocator).pool@.take(
                    old(frame_allocator).pool@.len() - total_frames_needed(
                        segments@.take(k as int + 1),
                    ),
                ));
                crate::page_table::lemma_range_free_transfer(
                    pt_before,
                    *old(page_table),
                    seg_lo(segk),
                    seg_hi(segk) - seg_lo(segk),
                );
            } else {
                assert(seg_frames_needed(segk) == 0);
                assert(*frame_allocator == fa_before);
                assert(frame_allocator.pool@ =~= old(frame_allocator).pool@.take(
                    old(frame_allocator).pool@.len() - total_frames_needed(
                        segments@.take(k as int + 1),
                    ),
                ));
            }
            assert forall|x: int|
                !(segk.kind == SegmentKind::Load && seg_lo(segk) <= x < seg_hi(segk))
                    implies #[trigger] page_table.entry_at(x) == pt_before.entry_at(x) by {}
            assert forall|i: int|
                0 <= i < segments@.len() && (#[trigger] segments@[i]).kind
                    == SegmentKind::Load implies segments@[i].file_size <= segments@[i].mem_size
                && segments@[i].virtual_addr + segments@[i].mem_size <= MAX_ALIGNABLE by {
                assert(seg_mappable(segments@[i], *old(mem)));
            }
            lemma_elf_preserve(
                segments@,
                k as int,
                arch,
                old(mem).image@,
                pt_before,
                *page_table,
                mem_before,
                *mem,
            );
            assert forall|x: int|
                !in_seg_pages(segments@.take(k as int + 1), x) implies #[trigger] page_table.entry_at(
                x,
            ) == old(page_table).entry_at(x) by {
                if in_seg_pages(segments@.take(k as int), x) {
                    lemma_in_pages_mono(segments@.take(k as int + 1), k as int, x);
                    assert(segments@.take(k as int + 1).take(k as int) =~= segments@.take(
                        k as int,
                    ));
                }
                assert(!(segk.kind == SegmentKind::Load && seg_lo(segk) <= x < seg_hi(segk))) by {
                    if segk.kind == SegmentKind::Load && seg_lo(segk) <= x < seg_hi(segk) {
                        assert(segments@.take(k as int + 1)[k as int] == segk);
                        assert(in_seg_pages(segments@.take(k as int + 1), x));
                    }
                }
                assert(page_table.entry_at(x) == pt_before.entry_at(x));
            }
            assert forall|i: int, a: int|
                0 <= i < k + 1 && (#[trigger] segments@[i]).kind == SegmentKind::Load
                    && segments@[i].virtual_addr <= a < segments@[i].virtual_addr
                    + segments@[i].file_size implies #[trigger] virt_byte(*page_table, *mem, a)
                == Some(
                old(mem).image@[segments@[i].file_offset + (a - segments@[i].virtual_addr)],
            ) by {
                if i == k {
                    assert(segments@[i] == segk);
                }
            }
            assert forall|i: int, a: int|
                0 <= i < k + 1 && (#[trigger] segments@[i]).kind == SegmentKind::Load
                    && segments@[i].virtual_addr + segments@[i].file_size <= a
                    < segments@[i].virtual_addr + segments@[i].mem_size implies #[trigger] virt_byte(
                *page_table,
                *mem,
                a,
            ) == Some(0u8) by {
                if i == k {
                    assert(segments@[i] == segk);
                }
            }
            assert forall|i: int, x: int|
                0 <= i < k + 1 && (#[trigger] segments@[i]).kind == SegmentKind::Load && seg_lo(
                    segments@[i],
                ) <= x < seg_hi(segments@[i]) implies (#[trigger] page_table.entry_at(x)
                matches Some(e) && e.flags == spec_trans_flags(arch, segments@[i].flags)
                && !e.huge) by {
                if i == k {
                    assert(segments@[i] == segk);
                }
            }
        }
        k = k + 1;
    }
    proof {
        assert(segments@.take(n as int) =~= segments@);
        assert(frame_allocator.pool@ =~= old(frame_allocator).pool@.take(
            frame_allocator.pool@.len() as int,
        ));
    }
    Ok(())
}

} // verus!
