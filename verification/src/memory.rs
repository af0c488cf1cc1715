//! Model of the physical memory the mapper reads and writes.
//!
//! Two kinds of physical memory are visible to the segment mapper: the
//! page-aligned buffer that already holds the kernel image bytes, and the
//! fresh frames the frame source hands out, which the mapper fills itself
//! (copies of a shared page, zero-fill pages). Everything else is unknown
//! and the mapper never touches it.

use vstd::prelude::*;

verus! {

use crate::{MAX_ALIGNABLE, PAGE_SIZE};

/// One page-sized physical frame the mapper has written, addressed by its
/// page-aligned base.
pub struct FreshFrame {
    pub base: u64,
    pub bytes: Vec<u8>,
}

/// A page-aligned physical frame base that does not wrap the address space.
pub open spec fn frame_base_ok(base: u64) -> bool {
    base % PAGE_SIZE == 0 && base <= MAX_ALIGNABLE
}

/// Does the frame starting at `base` cover physical address `pa`?
pub open spec fn frame_covers(base: u64, pa: int) -> bool {
    base <= pa < base + PAGE_SIZE
}

/// The physical memory known to the mapper: the image buffer and the fresh
/// frames written so far.
pub struct PhysMemory {
    /// Physical base address of the in-memory image buffer.
    pub image_base: u64,
    /// The image buffer contents; whole pages.
    pub image: Vec<u8>,
    /// Frames allocated from the frame source and filled by the mapper.
    pub fresh: Vec<FreshFrame>,
}

impl PhysMemory {
    /// The image buffer is page-aligned and does not wrap; every fresh frame
    /// is one whole aligned page, lies outside the image buffer, and no two
    /// fresh frames share a base.
    pub open spec fn wf(self) -> bool {
        &&& self.image_base % PAGE_SIZE == 0
        &&& self.image@.len() as int % (PAGE_SIZE as int) == 0
        &&& self.image_base + self.image@.len() <= u64::MAX + 1
        &&& forall|i: int|
            0 <= i < self.fresh@.len() ==> frame_base_ok(#[trigger] self.fresh@[i].base)
                && self.fresh@[i].bytes@.len() == PAGE_SIZE && self.base_outside_image(
                self.fresh@[i].base,
            )
        &&& forall|i: int, j: int|
            0 <= i < j < self.fresh@.len() ==> #[trigger] self.fresh@[i].base
                != #[trigger] self.fresh@[j].base
    }

    /// Is `base` a frame base wholly outside the image buffer?
    pub open spec fn base_outside_image(self, base: u64) -> bool {
        base + PAGE_SIZE <= self.image_base || base >= self.image_base + self.image@.len()
    }

    /// Does physical address `pa` fall inside the image buffer?
    pub open spec fn in_image(self, pa: int) -> bool {
        self.image_base <= pa < self.image_base + self.image@.len()
    }

    /// Is `pa` covered by some fresh frame?
    pub open spec fn has_fresh(self, pa: int) -> bool {
        exists|i: int| 0 <= i < self.fresh@.len() && frame_covers(#[trigger] self.fresh@[i].base, pa)
    }

    /// Index of the fresh frame covering `pa` (unique under `wf`).
    pub open spec fn fresh_idx(self, pa: int) -> int {
        choose|i: int| 0 <= i < self.fresh@.len() && frame_covers(#[trigger] self.fresh@[i].base, pa)
    }

    /// The byte the mapper would read at physical address `pa`: an image
    /// byte, a byte of a fresh frame, or nothing if the address is unknown.
    pub open spec fn phys_byte(self, pa: int) -> Option<u8> {
        if self.in_image(pa) {
            Some(self.image@[pa - self.image_base])
        } else if self.has_fresh(pa) {
            let i = self.fresh_idx(pa);
            Some(self.fresh@[i].bytes@[pa - self.fresh@[i].base])
        } else {
            None
        }
    }

    /// A base that no known region of this memory touches.
    pub open spec fn base_free(self, base: u64) -> bool {
        &&& self.base_outside_image(base)
        &&& forall|i: int| 0 <= i < self.fresh@.len() ==> (#[trigger] self.fresh@[i].base) != base
    }
}

/// Two aligned frame bases whose pages overlap are equal.
pub proof fn lemma_aligned_bases_eq(a: int, b: int)
    requires
        a % (PAGE_SIZE as int) == 0,
        b % (PAGE_SIZE as int) == 0,
        -(PAGE_SIZE as int) < a - b < PAGE_SIZE as int,
    ensures
        a == b,
{
    assert(a == b) by (nonlinear_arith)
        requires
            a % 0x1000 == 0,
            b % 0x1000 == 0,
            -0x1000 < a - b < 0x1000,
    ;
}

impl PhysMemory {
    /// Under `wf`, the fresh frame covering `pa` is unique, and `phys_byte`
    /// reads from exactly that frame.
    pub proof fn lemma_fresh_byte(self, i: int, pa: int)
        requires
            self.wf(),
            0 <= i < self.fresh@.len(),
            frame_covers(self.fresh@[i].base, pa),
        ensures
            self.has_fresh(pa),
            self.fresh_idx(pa) == i,
            !self.in_image(pa),
            self.phys_byte(pa) == Some(self.fresh@[i].bytes@[pa - self.fresh@[i].base]),
    {
        assert(self.has_fresh(pa));
        let j = self.fresh_idx(pa);
        if i != j {
            lemma_aligned_bases_eq(self.fresh@[i].base as int, self.fresh@[j].base as int);
        }
    }

    /// Under `wf`, an address covered by a fresh frame is outside the image.
    pub proof fn lemma_fresh_not_image(self, pa: int)
        requires
            self.wf(),
            self.has_fresh(pa),
        ensures
            !self.in_image(pa),
            self.phys_byte(pa) == Some(
                self.fresh@[self.fresh_idx(pa)].bytes@[pa - self.fresh@[self.fresh_idx(pa)].base],
            ),
    {
        let i = self.fresh_idx(pa);
        self.lemma_fresh_byte(i, pa);
    }

    /// Whether `pa` is covered by a fresh frame depends only on the frame
    /// bases.
    pub proof fn lemma_has_fresh_same_bases(self, other: PhysMemory, pa: int)
        requires
            self.fresh@.len() == other.fresh@.len(),
            forall|i: int|
                0 <= i < self.fresh@.len() ==> (#[trigger] other.fresh@[i]).base
                    == self.fresh@[i].base,
        ensures
            self.has_fresh(pa) == other.has_fresh(pa),
    {
        if self.has_fresh(pa) {
            let i = self.fresh_idx(pa);
            assert(frame_covers(other.fresh@[i].base, pa));
        }
        if other.has_fresh(pa) {
            let i = other.fresh_idx(pa);
            assert(frame_covers(self.fresh@[i].base, pa));
        }
    }

    /// A fresh frame keeps covering an address when more frames are added.
    pub proof fn lemma_has_fresh_grows(self, other: PhysMemory, pa: int)
        requires
            self.fresh@.len() <= other.fresh@.len(),
            other.fresh@.subrange(0, self.fresh@.len() as int) == self.fresh@,
            self.has_fresh(pa),
        ensures
            other.has_fresh(pa),
    {
        let i = self.fresh_idx(pa);
        assert(other.fresh@[i] == other.fresh@.subrange(0, self.fresh@.len() as int)[i]);
        assert(frame_covers(other.fresh@[i].base, pa));
    }

    /// A base free of one memory is free of another with the same image
    /// and the same frame bases.
    pub proof fn lemma_base_free_same(self, other: PhysMemory, b: u64)
        requires
            self.image_base == other.image_base,
            self.image@.len() == other.image@.len(),
            self.fresh@.len() == other.fresh@.len(),
            forall|i: int|
                0 <= i < self.fresh@.len() ==> (#[trigger] other.fresh@[i]).base
                    == self.fresh@[i].base,
            self.base_free(b),
        ensures
            other.base_free(b),
    {
        assert forall|i: int| 0 <= i < other.fresh@.len() implies (
        #[trigger] other.fresh@[i].base) != b by {
            assert(self.fresh@[i].base != b);
        }
    }

    /// Find the fresh frame covering `pa`.
    fn find_fresh(&self, pa: u64) -> (i: usize)
        requires
            self.wf(),
            self.has_fresh(pa as int),
        ensures
            i < self.fresh@.len(),
            frame_covers(self.fresh@[i as int].base, pa as int),
    {
        let n = self.fresh.len();
        let mut i: usize = 0;
        while i < n
            invariant
                n == self.fresh@.len(),
                self.wf(),
                self.has_fresh(pa as int),
                0 <= i <= n,
                forall|j: int| 0 <= j < i ==> !frame_covers(#[trigger] self.fresh@[j].base, pa as int),
            decreases n - i,
        {
            let f_base = self.fresh[i].base;
            if f_base <= pa && pa - f_base < PAGE_SIZE {
                return i;
            }
            i = i + 1;
        }
        proof {
            let w = self.fresh_idx(pa as int);
            assert(0 <= w < self.fresh@.len() && frame_covers(self.fresh@[w].base, pa as int));
            assert(false);
        }
        0
    }

    /// Read the byte at a known physical address.
    pub fn read_phys(&self, pa: u64) -> (b: u8)
        requires
            self.wf(),
            self.phys_byte(pa as int) is Some,
        ensures
            Some(b) == self.phys_byte(pa as int),
    {
        if self.image_base <= pa && pa - self.image_base < self.image.len() as u64 {
            self.image[(pa - self.image_base) as usize]
        } else {
            let i = self.find_fresh(pa);
            proof {
                self.lemma_fresh_byte(i as int, pa as int);
            }
            let f_base = self.fresh[i].base;
            self.fresh[i].bytes[(pa - f_base) as usize]
        }
    }

    /// Write one byte of a fresh frame. The image buffer is never written.
    pub fn write_phys(&mut self, pa: u64, v: u8)
        requires
            old(self).wf(),
            old(self).has_fresh(pa as int),
        ensures
            final(self).wf(),
            final(self).image_base == old(self).image_base,
            final(self).image@ == old(self).image@,
            final(self).fresh@.len() == old(self).fresh@.len(),
            forall|i: int|
                0 <= i < old(self).fresh@.len() ==> (#[trigger] final(self).fresh@[i]).base == old(
                    self,
                ).fresh@[i].base,
            final(self).phys_byte(pa as int) == Some(v),
            forall|qa: int|
                qa != pa ==> #[trigger] final(self).phys_byte(qa) == old(self).phys_byte(qa),
    {
        let i = self.find_fresh(pa);
        proof {
            self.lemma_fresh_byte(i as int, pa as int);
        }
        let mut fr: FreshFrame = self.fresh.remove(i);
        let off = (pa - fr.base) as usize;
        fr.bytes[off] = v;
        self.fresh.insert(i, fr);
        proof {
            let ghost oldm = *old(self);
            assert(self.fresh@ =~= oldm.fresh@.update(
                i as int,
                FreshFrame { base: oldm.fresh@[i as int].base, bytes: self.fresh@[i as int].bytes },
            ));
            assert(self.wf());
            self.lemma_fresh_byte(i as int, pa as int);
            assert forall|qa: int| qa != pa implies self.phys_byte(qa) == oldm.phys_byte(qa) by {
                if self.in_image(qa) {
                } else {
                    if oldm.has_fresh(qa) {
                        let j = oldm.fresh_idx(qa);
                        oldm.lemma_fresh_byte(j, qa);
                        self.lemma_fresh_byte(j, qa);
                    } else {
                        assert(!self.has_fresh(qa));
                    }
                }
            }
        }
    }

    /// Append a fresh frame of `PAGE_SIZE` zero bytes at `base`.
    pub fn push_zero_frame(&mut self, base: u64)
        requires
            old(self).wf(),
            frame_base_ok(base),
            old(self).base_free(base),
        ensures
            final(self).wf(),
            final(self).image_base == old(self).image_base,
            final(self).image@ == old(self).image@,
            final(self).fresh@.len() == old(self).fresh@.len() + 1,
            final(self).fresh@.subrange(0, old(self).fresh@.len() as int) == old(self).fresh@,
            final(self).fresh@.last().base == base,
            forall|pa: int|
                frame_covers(base, pa) ==> #[trigger] final(self).phys_byte(pa) == Some(0u8),
            forall|pa: int|
                !frame_covers(base, pa) ==> #[trigger] final(self).phys_byte(pa) == old(
                    self,
                ).phys_byte(pa),
    {
        let mut bytes: Vec<u8> = Vec::new();
        let page: usize = PAGE_SIZE as usize;
        while bytes.len() < page
            invariant
                page == PAGE_SIZE,
                bytes@.len() <= page,
                forall|k: int| 0 <= k < bytes@.len() ==> bytes@[k] == 0u8,
            decreases page - bytes@.len(),
        {
            bytes.push(0u8);
        }
        let ghost gb = bytes@;
        self.fresh.push(FreshFrame { base, bytes });
        proof {
            let ghost oldm = *old(self);
            let n = oldm.fresh@.len() as int;
            assert(self.fresh@.subrange(0, n) =~= oldm.fresh@);
            assert(self.fresh@[n].base == base && self.fresh@[n].bytes@ == gb);
            assert(gb.len() == PAGE_SIZE);
            assert forall|i: int| 0 <= i < self.fresh@.len() implies frame_base_ok(
                #[trigger] self.fresh@[i].base,
            ) && self.fresh@[i].bytes@.len() == PAGE_SIZE && self.base_outside_image(
                self.fresh@[i].base,
            ) by {
                if i < n {
                    assert(self.fresh@[i] == oldm.fresh@[i]);
                } else {
                    assert(self.fresh@[i].bytes@ == gb);
                }
            }
            assert(self.wf());
            assert forall|pa: int| frame_covers(base, pa) implies self.phys_byte(pa) == Some(
                0u8,
            ) by {
                self.lemma_fresh_byte(n, pa);
            }
            assert forall|pa: int| !frame_covers(base, pa) implies self.phys_byte(pa) == oldm.phys_byte(
                pa,
            ) by {
                if self.in_image(pa) {
                } else {
                    if oldm.has_fresh(pa) {
                        let j = oldm.fresh_idx(pa);
                        oldm.lemma_fresh_byte(j, pa);
                        assert(self.fresh@[j] == oldm.fresh@[j]);
                        self.lemma_fresh_byte(j, pa);
                    } else {
                        if self.has_fresh(pa) {
                            let j = self.fresh_idx(pa);
                            assert(frame_covers(self.fresh@[j].base, pa));
                            assert(j == n) by {
                                if j < n {
                                    assert(self.fresh@[j] == oldm.fresh@[j]);
                                }
                            }
                            assert(false);
                        }
                    }
                }
            }
        }
    }

    /// Append a fresh frame at `base` holding a copy of the known page at
    /// `src`.
    pub fn push_copied_frame(&mut self, base: u64, src: u64)
        requires
            old(self).wf(),
            frame_base_ok(base),
            old(self).base_free(base),
            src % PAGE_SIZE == 0,
            src <= MAX_ALIGNABLE,
            forall|k: int| 0 <= k < PAGE_SIZE ==> #[trigger] old(self).phys_byte(src + k) is Some,
        ensures
            final(self).wf(),
            final(self).image_base == old(self).image_base,
            final(self).image@ == old(self).image@,
            final(self).fresh@.len() == old(self).fresh@.len() + 1,
            final(self).fresh@.subrange(0, old(self).fresh@.len() as int) == old(self).fresh@,
            final(self).fresh@.last().base == base,
            forall|pa: int|
                frame_covers(base, pa) ==> #[trigger] final(self).phys_byte(pa) == old(
                    self,
                ).phys_byte(src + (pa - base)),
            forall|pa: int|
                !frame_covers(base, pa) ==> #[trigger] final(self).phys_byte(pa) == old(
                    self,
                ).phys_byte(pa),
    {
        let mut bytes: Vec<u8> = Vec::new();
        let page: usize = PAGE_SIZE as usize;
        while bytes.len() < page
            invariant
                page == PAGE_SIZE,
                self.wf(),
                self == old(self),
                src % PAGE_SIZE == 0,
                src <= MAX_ALIGNABLE,
                forall|k: int| 0 <= k < PAGE_SIZE ==> #[trigger] self.phys_byte(src + k) is Some,
                bytes@.len() <= page,
                forall|k: int|
                    0 <= k < bytes@.len() ==> Some(#[trigger] bytes@[k]) == self.phys_byte(src + k),
            decreases page - bytes@.len(),
        {
            let k = bytes.len() as u64;
            let b = self.read_phys(src + k);
            bytes.push(b);
        }
        let ghost gb = bytes@;
        self.fresh.push(FreshFrame { base, bytes });
        proof {
            let ghost oldm = *old(self);
            let n = oldm.fresh@.len() as int;
            assert(self.fresh@.subrange(0, n) =~= oldm.fresh@);
            assert(self.fresh@[n].base == base && self.fresh@[n].bytes@ == gb);
            assert(gb.len() == PAGE_SIZE);
            assert forall|i: int| 0 <= i < self.fresh@.len() implies frame_base_ok(
                #[trigger] self.fresh@[i].base,
            ) && self.fresh@[i].bytes@.len() == PAGE_SIZE && self.base_outside_image(
                self.fresh@[i].base,
            ) by {
                if i < n {
                    assert(self.fresh@[i] == oldm.fresh@[i]);
                } else {
                    assert(self.fresh@[i].bytes@ == gb);
                }
            }
            assert(self.wf());
            assert forall|pa: int| frame_covers(base, pa) implies self.phys_byte(pa) == oldm.phys_byte(
                src + (pa - base),
            ) by {
                self.lemma_fresh_byte(n, pa);
            }
            assert forall|pa: int| !frame_covers(base, pa) implies self.phys_byte(pa) == oldm.phys_byte(
                pa,
            ) by {
                if self.in_image(pa) {
                } else {
                    if oldm.has_fresh(pa) {
                        let j = oldm.fresh_idx(pa);
                        oldm.lemma_fresh_byte(j, pa);
                        assert(self.fresh@[j] == oldm.fresh@[j]);
                        self.lemma_fresh_byte(j, pa);
                    } else {
                        if self.has_fresh(pa) {
                            let j = self.fresh_idx(pa);
                            assert(frame_covers(self.fresh@[j].base, pa));
                            assert(j == n) by {
                                if j < n {
                                    assert(self.fresh@[j] == oldm.fresh@[j]);
                                }
                            }
                            assert(false);
                        }
                    }
                }
            }
        }
    }
}

} // verus!
