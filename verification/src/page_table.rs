//! Model of the page table the loader builds: a set of disjoint
//! virtual-to-physical mappings at two granularities, small pages and huge
//! pages.
//!
//! The loader owns the table exclusively while it constructs the kernel's
//! address space; the model records exactly the mappings that the native
//! table would hold, and its operations fail in the same ways the native
//! mapper does: mapping over an existing entry is refused, and unmapping a
//! small page that lies under a huge entry fails distinctly.

use vstd::prelude::*;

verus! {

use crate::{HUGE_PAGE_SIZE, MAX_ALIGNABLE, PAGE_SIZE};

/// Why a mapping operation failed.
#[derive(Clone, Copy, PartialEq, Eq, Structural, Debug)]
pub enum MapToError {
    /// The frame source was exhausted.
    FrameAllocationFailed,
    /// The range is covered by a huge entry.
    ParentEntryHugePage,
    /// An entry for the page already exists.
    PageAlreadyMapped,
}

/// Why removing a mapping failed.
#[derive(Clone, Copy, PartialEq, Eq, Structural, Debug)]
pub enum UnmapError {
    /// The page lies under a huge entry.
    ParentEntryHugePage,
    /// No entry maps the page.
    PageNotMapped,
}

/// One mapping: a page of virtual addresses onto a frame of physical
/// addresses, with native flag bits.
#[derive(Clone, Copy, PartialEq, Eq, Structural, Debug)]
pub struct PageTableEntry {
    pub virt_page: u64,
    pub frame: u64,
    pub flags: u64,
    pub huge: bool,
}

/// Bytes covered by an entry: one small or one huge page.
pub open spec fn entry_size(e: PageTableEntry) -> int {
    if e.huge {
        HUGE_PAGE_SIZE as int
    } else {
        PAGE_SIZE as int
    }
}

/// Entry alignment and no address-space wrap-around.
pub open spec fn entry_wf(e: PageTableEntry) -> bool {
    &&& e.virt_page as int % entry_size(e) == 0
    &&& e.frame as int % entry_size(e) == 0
    &&& e.virt_page + entry_size(e) <= u64::MAX + 1
    &&& e.frame + entry_size(e) <= u64::MAX + 1
}

/// Does entry `e` cover virtual address `va`?
pub open spec fn entry_covers(e: PageTableEntry, va: int) -> bool {
    e.virt_page <= va < e.virt_page + entry_size(e)
}

/// The page table under construction.
pub struct PageTable {
    pub entries: Vec<PageTableEntry>,
}

impl PageTable {
    /// All entries aligned, and no two entries overlap in virtual space.
    pub open spec fn wf(self) -> bool {
        &&& forall|i: int| 0 <= i < self.entries@.len() ==> entry_wf(#[trigger] self.entries@[i])
        &&& forall|i: int, j: int|
            0 <= i < self.entries@.len() && 0 <= j < self.entries@.len() && i != j ==> (
            #[trigger] self.entries@[i]).virt_page + entry_size(self.entries@[i]) <= (
            #[trigger] self.entries@[j]).virt_page || self.entries@[j].virt_page + entry_size(
                self.entries@[j],
            ) <= self.entries@[i].virt_page
    }

    /// Is `va` covered by some entry?
    pub open spec fn covered(self, va: int) -> bool {
        exists|i: int| 0 <= i < self.entries@.len() && entry_covers(#[trigger] self.entries@[i], va)
    }

    /// Index of the entry covering `va` (unique under `wf`).
    pub open spec fn idx_of(self, va: int) -> int {
        choose|i: int| 0 <= i < self.entries@.len() && entry_covers(#[trigger] self.entries@[i], va)
    }

    /// The entry covering `va`, if any.
    pub open spec fn entry_at(self, va: int) -> Option<PageTableEntry> {
        if self.covered(va) {
            Some(self.entries@[self.idx_of(va)])
        } else {
            None
        }
    }

    /// The physical address `va` maps to, if any.
    pub open spec fn translate(self, va: int) -> Option<int> {
        match self.entry_at(va) {
            Some(e) => Some(e.frame + (va - e.virt_page)),
            None => None,
        }
    }

    /// No entry overlaps the virtual range `[lo, lo + size)`; an empty
    /// range is overlapped by nothing.
    pub open spec fn range_free(self, lo: int, size: int) -> bool {
        size <= 0 || forall|i: int|
            0 <= i < self.entries@.len() ==> (#[trigger] self.entries@[i]).virt_page + entry_size(
                self.entries@[i],
            ) <= lo || self.entries@[i].virt_page >= lo + size
    }

    /// Is `va` covered by a huge entry?
    pub open spec fn huge_at(self, va: int) -> bool {
        self.entry_at(va) matches Some(e) && e.huge
    }
}

/// Two multiples of `g` less than `g` apart are equal.
pub proof fn lemma_multiple_sep(a: int, b: int, g: int)
    requires
        g > 0,
        a % g == 0,
        b % g == 0,
        a < b,
    ensures
        a + g <= b,
{
    assert(a + g <= b) by (nonlinear_arith)
        requires
            g > 0,
            a % g == 0,
            b % g == 0,
            a < b,
    ;
}

/// A multiple of the huge page size is a multiple of the page size.
pub proof fn lemma_huge_aligned(a: int)
    requires
        a % (HUGE_PAGE_SIZE as int) == 0,
    ensures
        a % (PAGE_SIZE as int) == 0,
{
    assert(a % 0x1000 == 0) by (nonlinear_arith)
        requires
            a % 0x20_0000 == 0,
    ;
}

/// Two adjacent free ranges form one free range.
pub proof fn lemma_range_free_join(pt: PageTable, lo: int, mid: int, hi: int)
    requires
        pt.wf(),
        lo <= mid <= hi,
        pt.range_free(lo, mid - lo),
        pt.range_free(mid, hi - mid),
    ensures
        pt.range_free(lo, hi - lo),
{
    pt.lemma_range_free_iff_uncovered(lo, mid - lo);
    pt.lemma_range_free_iff_uncovered(mid, hi - mid);
    pt.lemma_range_free_iff_uncovered(lo, hi - lo);
    assert forall|x: int| lo <= x < hi implies !(#[trigger] pt.covered(x)) by {}
}

/// Two tables that agree on every entry over a range agree on whether the
/// range is free.
pub proof fn lemma_range_free_transfer(a: PageTable, b: PageTable, lo: int, size: int)
    requires
        a.wf(),
        b.wf(),
        size >= 0,
        forall|x: int| lo <= x < lo + size ==> #[trigger] a.entry_at(x) == b.entry_at(x),
    ensures
        a.range_free(lo, size) == b.range_free(lo, size),
{
    a.lemma_range_free_iff_uncovered(lo, size);
    b.lemma_range_free_iff_uncovered(lo, size);
    if a.range_free(lo, size) {
        assert forall|x: int| lo <= x < lo + size implies !(#[trigger] b.covered(x)) by {
            assert(a.entry_at(x) == b.entry_at(x));
            assert(!a.covered(x));
        }
    }
    if b.range_free(lo, size) {
        assert forall|x: int| lo <= x < lo + size implies !(#[trigger] a.covered(x)) by {
            assert(a.entry_at(x) == b.entry_at(x));
            assert(!b.covered(x));
        }
    }
}

impl PageTable {
    /// Under `wf`, the entry covering `va` is unique.
    pub proof fn lemma_entry_at(self, i: int, va: int)
        requires
            self.wf(),
            0 <= i < self.entries@.len(),
            entry_covers(self.entries@[i], va),
        ensures
            self.covered(va),
            self.idx_of(va) == i,
            self.entry_at(va) == Some(self.entries@[i]),
    {
        assert(self.covered(va));
        let j = self.idx_of(va);
        assert(0 <= j < self.entries@.len() && entry_covers(self.entries@[j], va));
    }

    /// An aligned page overlaps an entry exactly when the entry covers its
    /// first address.
    pub proof fn lemma_page_conflict(self, page: u64)
        requires
            self.wf(),
            page % PAGE_SIZE == 0,
            page <= MAX_ALIGNABLE,
        ensures
            self.range_free(page as int, PAGE_SIZE as int) <==> !self.covered(page as int),
    {
        if !self.range_free(page as int, PAGE_SIZE as int) {
            let i = choose|i: int|
                0 <= i < self.entries@.len() && !((#[trigger] self.entries@[i]).virt_page
                    + entry_size(self.entries@[i]) <= page || self.entries@[i].virt_page >= page
                    + PAGE_SIZE);
            let e = self.entries@[i];
            if e.huge {
                lemma_huge_aligned(e.virt_page as int);
            }
            if e.virt_page > page {
                lemma_multiple_sep(page as int, e.virt_page as int, PAGE_SIZE as int);
                assert(false);
            }
            assert(entry_covers(e, page as int));
            self.lemma_entry_at(i, page as int);
        }
        if self.covered(page as int) {
            let i = self.idx_of(page as int);
            assert(entry_covers(self.entries@[i], page as int));
            assert(!self.range_free(page as int, PAGE_SIZE as int));
        }
    }

    /// A sub-range of a free range is free.
    pub proof fn lemma_range_free_mono(self, lo1: int, size1: int, lo2: int, size2: int)
        requires
            lo2 <= lo1,
            lo1 + size1 <= lo2 + size2,
            self.range_free(lo2, size2),
        ensures
            self.range_free(lo1, size1),
    {
    }

    /// A range is free exactly when none of its addresses is covered.
    pub proof fn lemma_range_free_iff_uncovered(self, lo: int, size: int)
        requires
            self.wf(),
            size >= 0,
        ensures
            self.range_free(lo, size) <==> (forall|va: int|
                lo <= va < lo + size ==> !(#[trigger] self.covered(va))),
    {
        if self.range_free(lo, size) {
            assert forall|va: int| lo <= va < lo + size implies !(#[trigger] self.covered(va)) by {
                if self.covered(va) {
                    let i = self.idx_of(va);
                    assert(entry_covers(self.entries@[i], va));
                }
            }
        }
        if !self.range_free(lo, size) {
            let i = choose|i: int|
                0 <= i < self.entries@.len() && !((#[trigger] self.entries@[i]).virt_page
                    + entry_size(self.entries@[i]) <= lo || self.entries@[i].virt_page >= lo
                    + size);
            let e = self.entries@[i];
            let va: int = if e.virt_page >= lo {
                e.virt_page as int
            } else {
                lo
            };
            assert(entry_covers(e, va));
            self.lemma_entry_at(i, va);
            assert(lo <= va < lo + size && self.covered(va));
        }
    }

    /// The entry covering `va` also covers the first address of `va`'s page.
    pub proof fn lemma_covered_page(self, va: int)
        requires
            self.wf(),
            0 <= va,
            self.covered(va),
        ensures
            self.covered(crate::spec_align_down(va)),
            self.entry_at(crate::spec_align_down(va)) == self.entry_at(va),
    {
        let p = crate::spec_align_down(va);
        crate::lemma_align_down_props(va);
        let i = self.idx_of(va);
        assert(entry_covers(self.entries@[i], va));
        let e = self.entries@[i];
        if e.huge {
            lemma_huge_aligned(e.virt_page as int);
        }
        crate::lemma_aligned_le(e.virt_page as int, va);
        assert(entry_covers(e, p));
        self.lemma_entry_at(i, p);
        self.lemma_entry_at(i, va);
    }

    /// Find an entry overlapping `[lo, lo + size)`, if any.
    fn find_overlap(&self, lo: u64, size: u64) -> (r: Option<usize>)
        requires
            self.wf(),
            size > 0,
            lo + size <= u64::MAX + 1,
        ensures
            match r {
                Some(i) => i < self.entries@.len() && !(self.entries@[i as int].virt_page
                    + entry_size(self.entries@[i as int]) <= lo || self.entries@[i as int].virt_page
                    >= lo + size),
                None => self.range_free(lo as int, size as int),
            },
    {
        let n = self.entries.len();
        let mut i: usize = 0;
        while i < n
            invariant
                self.wf(),
                n == self.entries@.len(),
                0 <= i <= n,
                size > 0,
                lo + size <= u64::MAX + 1,
                forall|j: int|
                    0 <= j < i ==> (#[trigger] self.entries@[j]).virt_page + entry_size(
                        self.entries@[j],
                    ) <= lo || self.entries@[j].virt_page >= lo + size,
            decreases n - i,
        {
            let e = self.entries[i];
            let e_size: u64 = if e.huge {
                HUGE_PAGE_SIZE
            } else {
                PAGE_SIZE
            };
            let overlaps: bool = if e.virt_page >= lo {
                e.virt_page - lo < size
            } else {
                lo - e.virt_page < e_size
            };
            if overlaps {
                return Some(i);
            }
            i = i + 1;
        }
        None
    }

    /// Report whether no entry overlaps the virtual range `[lo, lo + size)`,
    /// so a caller outside the proof can test a mapping's precondition.
    pub fn range_is_free(&self, lo: u64, size: u64) -> (r: bool)
        requires
            self.wf(),
            lo + size <= u64::MAX + 1,
        ensures
            r == self.range_free(lo as int, size as int),
    {
        if size == 0 {
            return true;
        }
        match self.find_overlap(lo, size) {
            Some(i) => {
                proof {
                    assert(!((self.entries@[i as int]).virt_page + entry_size(
                        self.entries@[i as int],
                    ) <= lo || self.entries@[i as int].virt_page >= lo + size));
                }
                false
            },
            None => true,
        }
    }

    /// Look up the physical address that `va` currently maps to.
    pub fn translate_addr(&self, va: u64) -> (r: Option<u64>)
        requires
            self.wf(),
        ensures
            r is Some <==> self.covered(va as int),
            r matches Some(pa) ==> Some(pa as int) == self.translate(va as int),
    {
        let n = self.entries.len();
        let mut i: usize = 0;
        while i < n
            invariant
                self.wf(),
                n == self.entries@.len(),
                0 <= i <= n,
                forall|j: int| 0 <= j < i ==> !entry_covers(#[trigger] self.entries@[j], va as int),
            decreases n - i,
        {
            let e = self.entries[i];
            let e_size: u64 = if e.huge {
                HUGE_PAGE_SIZE
            } else {
                PAGE_SIZE
            };
            if e.virt_page <= va && va - e.virt_page < e_size {
                proof {
                    self.lemma_entry_at(i as int, va as int);
                }
                return Some(e.frame + (va - e.virt_page));
            }
            i = i + 1;
        }
        proof {
            if self.covered(va as int) {
                let w = self.idx_of(va as int);
                assert(entry_covers(self.entries@[w], va as int));
                assert(false);
            }
        }
        None
    }

    /// Install a small-page mapping `page -> frame`. Fails without changing
    /// anything if any entry already covers the page: distinctly when that
    /// entry is huge.
    pub fn map_to(&mut self, page: u64, frame: u64, flags: u64) -> (r: Result<(), MapToError>)
        requires
            old(self).wf(),
            page % PAGE_SIZE == 0,
            page <= MAX_ALIGNABLE,
            frame % PAGE_SIZE == 0,
            frame <= MAX_ALIGNABLE,
        ensures
            final(self).wf(),
            old(self).covered(page as int) ==> *final(self) == *old(self) && r == Err::<
                (),
                MapToError,
            >(
                if old(self).huge_at(page as int) {
                    MapToError::ParentEntryHugePage
                } else {
                    MapToError::PageAlreadyMapped
                },
            ),
            !old(self).covered(page as int) ==> {
                &&& r == Ok::<(), MapToError>(())
                &&& final(self).entries@ == old(self).entries@.push(
                    PageTableEntry { virt_page: page, frame, flags, huge: false },
                )
                &&& forall|va: int|
                    page <= va < page + PAGE_SIZE ==> #[trigger] final(self).entry_at(va) == Some(
                        PageTableEntry { virt_page: page, frame, flags, huge: false },
                    )
                &&& forall|va: int|
                    !(page <= va < page + PAGE_SIZE) ==> #[trigger] final(self).entry_at(va) == old(
                        self,
                    ).entry_at(va)
            },
    {
        proof {
            self.lemma_page_conflict(page);
        }
        match self.find_overlap(page, PAGE_SIZE) {
            Some(i) => {
                proof {
                    let e = self.entries@[i as int];
                    if e.huge {
                        lemma_huge_aligned(e.virt_page as int);
                    }
                    if e.virt_page > page {
                        lemma_multiple_sep(page as int, e.virt_page as int, PAGE_SIZE as int);
                    }
                    assert(entry_covers(e, page as int));
                    self.lemma_entry_at(i as int, page as int);
                }
                if self.entries[i].huge {
                    Err(MapToError::ParentEntryHugePage)
                } else {
                    Err(MapToError::PageAlreadyMapped)
                }
            },
            None => {
                let ghost oldt = *self;
                let e = PageTableEntry { virt_page: page, frame, flags, huge: false };
                self.entries.push(e);
                proof {
                    let n = oldt.entries@.len() as int;
                    assert forall|i: int, j: int|
                        0 <= i < self.entries@.len() && 0 <= j < self.entries@.len() && i
                            != j implies (#[trigger] self.entries@[i]).virt_page + entry_size(
                        self.entries@[i],
                    ) <= (#[trigger] self.entries@[j]).virt_page || self.entries@[j].virt_page
                        + entry_size(self.entries@[j]) <= self.entries@[i].virt_page by {
                        if i < n && j < n {
                            assert(oldt.entries@[i] == self.entries@[i]);
                            assert(oldt.entries@[j] == self.entries@[j]);
                        } else if i == n {
                            assert(self.entries@[j] == oldt.entries@[j]);
                        } else {
                            assert(self.entries@[i] == oldt.entries@[i]);
                        }
                    }
                    assert(self.wf());
                    assert forall|va: int| page <= va < page + PAGE_SIZE implies #[trigger] self.entry_at(
                        va,
                    ) == Some(e) by {
                        self.lemma_entry_at(n, va);
                    }
                    assert forall|va: int| !(page <= va < page + PAGE_SIZE) implies #[trigger] self.entry_at(
                        va,
                    ) == oldt.entry_at(va) by {
                        if oldt.covered(va) {
                            let w = oldt.idx_of(va);
                            oldt.lemma_entry_at(w, va);
                            assert(self.entries@[w] == oldt.entries@[w]);
                            self.lemma_entry_at(w, va);
                        } else {
                            if self.covered(va) {
                                let w = self.idx_of(va);
                                assert(entry_covers(self.entries@[w], va));
                                assert(w == n) by {
                                    if w < n {
                                        assert(oldt.entries@[w] == self.entries@[w]);
                                    }
                                }
                                assert(false);
                            }
                        }
                    }
                }
                Ok(())
            },
        }
    }

    /// Install a huge-page mapping `page -> frame`. Fails without changing
    /// anything if any entry overlaps the huge page.
    pub fn map_to_huge(&mut self, page: u64, frame: u64, flags: u64) -> (r: Result<
        (),
        MapToError,
    >)
        requires
            old(self).wf(),
            page % HUGE_PAGE_SIZE == 0,
            page + HUGE_PAGE_SIZE <= u64::MAX + 1,
            frame % HUGE_PAGE_SIZE == 0,
            frame + HUGE_PAGE_SIZE <= u64::MAX + 1,
        ensures
            final(self).wf(),
            !old(self).range_free(page as int, HUGE_PAGE_SIZE as int) ==> *final(self) == *old(self)
                && r == Err::<(), MapToError>(MapToError::PageAlreadyMapped),
            old(self).range_free(page as int, HUGE_PAGE_SIZE as int) ==> {
                &&& r == Ok::<(), MapToError>(())
                &&& final(self).entries@ == old(self).entries@.push(
                    PageTableEntry { virt_page: page, frame, flags, huge: true },
                )
                &&& forall|va: int|
                    page <= va < page + HUGE_PAGE_SIZE ==> #[trigger] final(self).entry_at(va)
                        == Some(PageTableEntry { virt_page: page, frame, flags, huge: true })
                &&& forall|va: int|
                    !(page <= va < page + HUGE_PAGE_SIZE) ==> #[trigger] final(self).entry_at(va)
                        == old(self).entry_at(va)
            },
    {
        match self.find_overlap(page, HUGE_PAGE_SIZE) {
            Some(_) => Err(MapToError::PageAlreadyMapped),
            None => {
                let ghost oldt = *self;
                let e = PageTableEntry { virt_page: page, frame, flags, huge: true };
                self.entries.push(e);
                proof {
                    let n = oldt.entries@.len() as int;
                    assert forall|i: int, j: int|
                        0 <= i < self.entries@.len() && 0 <= j < self.entries@.len() && i
                            != j implies (#[trigger] self.entries@[i]).virt_page + entry_size(
                        self.entries@[i],
                    ) <= (#[trigger] self.entries@[j]).virt_page || self.entries@[j].virt_page
                        + entry_size(self.entries@[j]) <= self.entries@[i].virt_page by {
                        if i < n && j < n {
                            assert(oldt.entries@[i] == self.entries@[i]);
                            assert(oldt.entries@[j] == self.entries@[j]);
                        } else if i == n {
                            assert(self.entries@[j] == oldt.entries@[j]);
                        } else {
                            assert(self.entries@[i] == oldt.entries@[i]);
                        }
                    }
                    assert(self.wf());
                    assert forall|va: int|
                        page <= va < page + HUGE_PAGE_SIZE implies #[trigger] self.entry_at(va)
                        == Some(e) by {
                        self.lemma_entry_at(n, va);
                    }
                    assert forall|va: int|
                        !(page <= va < page + HUGE_PAGE_SIZE) implies #[trigger] self.entry_at(va)
                        == oldt.entry_at(va) by {
                        if oldt.covered(va) {
                            let w = oldt.idx_of(va);
                            oldt.lemma_entry_at(w, va);
                            assert(self.entries@[w] == oldt.entries@[w]);
                            self.lemma_entry_at(w, va);
                        } else {
                            if self.covered(va) {
                                let w = self.idx_of(va);
                                assert(entry_covers(self.entries@[w], va));
                                assert(w == n) by {
                                    if w < n {
                                        assert(oldt.entries@[w] == self.entries@[w]);
                                    }
                                }
                                assert(false);
                            }
                        }
                    }
                }
                Ok(())
            },
        }
    }

    /// Remove the small-page mapping of `page` and return its frame. Fails
    /// distinctly when the page lies under a huge entry.
    pub fn unmap(&mut self, page: u64) -> (r: Result<u64, UnmapError>)
        requires
            old(self).wf(),
            page % PAGE_SIZE == 0,
            page <= MAX_ALIGNABLE,
        ensures
            final(self).wf(),
            !old(self).covered(page as int) ==> *final(self) == *old(self) && r == Err::<
                u64,
                UnmapError,
            >(UnmapError::PageNotMapped),
            old(self).covered(page as int) && old(self).huge_at(page as int) ==> *final(self) == *old(self)
                && r == Err::<u64, UnmapError>(UnmapError::ParentEntryHugePage),
            old(self).covered(page as int) && !old(self).huge_at(page as int) ==> {
                &&& r == Ok::<u64, UnmapError>(old(self).entry_at(page as int).unwrap().frame)
                &&& forall|va: int|
                    page <= va < page + PAGE_SIZE ==> #[trigger] final(self).entry_at(va) is None
                &&& forall|va: int|
                    !(page <= va < page + PAGE_SIZE) ==> #[trigger] final(self).entry_at(va) == old(
                        self,
                    ).entry_at(va)
            },
    {
        proof {
            self.lemma_page_conflict(page);
        }
        match self.find_overlap(page, PAGE_SIZE) {
            None => Err(UnmapError::PageNotMapped),
            Some(i) => {
                proof {
                    let e = self.entries@[i as int];
                    if e.huge {
                        lemma_huge_aligned(e.virt_page as int);
                    }
                    if e.virt_page > page {
                        lemma_multiple_sep(page as int, e.virt_page as int, PAGE_SIZE as int);
                    }
                    assert(entry_covers(e, page as int));
                    self.lemma_entry_at(i as int, page as int);
                }
                if self.entries[i].huge {
                    Err(UnmapError::ParentEntryHugePage)
                } else {
                    let ghost oldt = *self;
                    let e = self.entries.remove(i);
                    proof {
                        let n = oldt.entries@.len() as int;
                        assert(e.virt_page == page);
                        assert forall|k: int| 0 <= k < self.entries@.len() implies (
                        #[trigger] self.entries@[k]) == oldt.entries@[
                            if k < i {
                                k
                            } else {
                                k + 1
                            }
                        ] by {}
                        assert(self.wf());
                        assert forall|va: int|
                            page <= va < page + PAGE_SIZE implies #[trigger] self.entry_at(
                            va,
                        ) is None by {
                            if self.covered(va) {
                                let w = self.idx_of(va);
                                assert(entry_covers(self.entries@[w], va));
                                let w0: int = if w < i {
                                    w
                                } else {
                                    w + 1
                                };
                                assert(entry_covers(oldt.entries@[w0], va));
                                oldt.lemma_entry_at(w0, va);
                                oldt.lemma_entry_at(i as int, va);
                                assert(false);
                            }
                        }
                        assert forall|va: int|
                            !(page <= va < page + PAGE_SIZE) implies #[trigger] self.entry_at(va)
                            == oldt.entry_at(va) by {
                            if oldt.covered(va) {
                                let w = oldt.idx_of(va);
                                oldt.lemma_entry_at(w, va);
                                assert(w != i) by {
                                    if w == i {
                                        assert(entry_covers(oldt.entries@[i as int], va));
                                    }
                                }
                                let w1: int = if w < i {
                                    w
                                } else {
                                    w - 1
                                };
                                assert(self.entries@[w1] == oldt.entries@[w]);
                                self.lemma_entry_at(w1, va);
                            } else {
                                if self.covered(va) {
                                    let w = self.idx_of(va);
                                    assert(entry_covers(self.entries@[w], va));
                                    let w0: int = if w < i {
                                        w
                                    } else {
                                        w + 1
                                    };
                                    assert(entry_covers(oldt.entries@[w0], va));
                                    assert(false);
                                }
                            }
                        }
                    }
                    Ok(e.frame)
                }
            },
        }
    }
}

} // verus!
