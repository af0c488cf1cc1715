//! Address-space construction and boot orchestration for a firmware boot
//! loader.
//!
//! The crate models the loader's core logic: parsing the loader
//! configuration text, translating segment permissions into native
//! page-table flags, mapping the loadable segments of a kernel image into a
//! page table (including the sub-page zero-fill edge case), identity-mapping
//! physical memory at a fixed offset, and sequencing the irreversible boot
//! transitions. Firmware calls themselves (file reads, graphics, processor
//! control, the final jump) live outside this crate; they hand the library
//! plain values and receive plain values back.

use vstd::prelude::*;

pub mod boot;
pub mod config;
pub mod flags;
pub mod mapper;
pub mod page_table;
pub mod frame;
pub mod memory;

verus! {

/// Size in bytes of one page / frame.
pub const PAGE_SIZE: u64 = 0x1000;

/// Size in bytes of one huge page, used for the physical-memory mapping.
pub const HUGE_PAGE_SIZE: u64 = 0x20_0000;

/// Largest address that keeps `align_up` free of overflow.
pub const MAX_ALIGNABLE: u64 = 0xFFFF_FFFF_FFFF_F000;

/// `addr` rounded down to a page boundary.
pub open spec fn spec_align_down(addr: int) -> int {
    addr - addr % (PAGE_SIZE as int)
}

/// `addr` rounded up to a page boundary.
pub open spec fn spec_align_up(addr: int) -> int {
    spec_align_down(addr + PAGE_SIZE - 1)
}

/// What rounding down to a page boundary does: the result is aligned, and
/// nothing aligned lies strictly between it and `addr`.
pub proof fn lemma_align_down_props(addr: int)
    ensures
        spec_align_down(addr) % (PAGE_SIZE as int) == 0,
        addr - PAGE_SIZE < spec_align_down(addr) <= addr,
{
    assert(spec_align_down(addr) % 0x1000 == 0 && addr - 0x1000 < spec_align_down(addr)
        <= addr) by (nonlinear_arith)
        requires
            spec_align_down(addr) == addr - addr % 0x1000,
    ;
}

/// An aligned address at most `addr` is at most `align_down(addr)`.
pub proof fn lemma_aligned_le(b: int, addr: int)
    requires
        b % (PAGE_SIZE as int) == 0,
        b <= addr,
    ensures
        b <= spec_align_down(addr),
{
    lemma_align_down_props(addr);
    if spec_align_down(addr) < b {
        assert(false) by (nonlinear_arith)
            requires
                spec_align_down(addr) == addr - addr % 0x1000,
                spec_align_down(addr) % 0x1000 == 0,
                b % 0x1000 == 0,
                addr - 0x1000 < spec_align_down(addr) <= addr,
                spec_align_down(addr) < b <= addr,
        ;
    }
}

/// Rounding down distributes over adding an aligned base.
pub proof fn lemma_align_down_shift(a: int, b: int)
    requires
        a % (PAGE_SIZE as int) == 0,
    ensures
        spec_align_down(a + b) == a + spec_align_down(b),
{
    assert(spec_align_down(a + b) == a + spec_align_down(b)) by (nonlinear_arith)
        requires
            a % 0x1000 == 0,
            spec_align_down(a + b) == a + b - (a + b) % 0x1000,
            spec_align_down(b) == b - b % 0x1000,
    ;
}

/// Rounding down is monotone.
pub proof fn lemma_align_down_mono(a: int, b: int)
    requires
        a <= b,
    ensures
        spec_align_down(a) <= spec_align_down(b),
{
    lemma_align_down_props(a);
    lemma_align_down_props(b);
    lemma_aligned_le(spec_align_down(a), b);
}

/// What rounding up to a page boundary does.
pub proof fn lemma_align_up_props(a: int)
    ensures
        spec_align_up(a) % (PAGE_SIZE as int) == 0,
        a <= spec_align_up(a) < a + PAGE_SIZE,
        a % (PAGE_SIZE as int) == 0 ==> spec_align_up(a) == a,
        a % (PAGE_SIZE as int) != 0 ==> spec_align_up(a) == spec_align_down(a) + PAGE_SIZE,
{
    lemma_align_down_props(a + PAGE_SIZE - 1);
    assert(spec_align_up(a) % 0x1000 == 0 && a <= spec_align_up(a) < a + 0x1000 && (a % 0x1000 == 0
        ==> spec_align_up(a) == a) && (a % 0x1000 != 0 ==> spec_align_up(a) == spec_align_down(a)
        + 0x1000)) by (nonlinear_arith)
        requires
            spec_align_up(a) == (a + 0xfff) - (a + 0xfff) % 0x1000,
            spec_align_down(a) == a - a % 0x1000,
    ;
}

/// Rounding up is monotone.
pub proof fn lemma_align_up_mono(a: int, b: int)
    requires
        a <= b,
    ensures
        spec_align_up(a) <= spec_align_up(b),
{
    lemma_align_down_mono(a + PAGE_SIZE - 1, b + PAGE_SIZE - 1);
}

/// The difference of two aligned addresses is a whole number of pages.
pub proof fn lemma_aligned_diff(a: int, b: int)
    requires
        a % (PAGE_SIZE as int) == 0,
        b % (PAGE_SIZE as int) == 0,
        b <= a,
    ensures
        (a - b) % (PAGE_SIZE as int) == 0,
        ((a - b) / (PAGE_SIZE as int)) * (PAGE_SIZE as int) == a - b,
{
    assert((a - b) % 0x1000 == 0 && ((a - b) / 0x1000) * 0x1000 == a - b) by (nonlinear_arith)
        requires
            a % 0x1000 == 0,
            b % 0x1000 == 0,
            b <= a,
    ;
}

/// The sum of two aligned addresses is aligned.
pub proof fn lemma_aligned_sum(a: int, b: int)
    requires
        a % (PAGE_SIZE as int) == 0,
        b % (PAGE_SIZE as int) == 0,
    ensures
        (a + b) % (PAGE_SIZE as int) == 0,
{
    assert((a + b) % 0x1000 == 0) by (nonlinear_arith)
        requires
            a % 0x1000 == 0,
            b % 0x1000 == 0,
    ;
}

/// The page of the last address before an aligned boundary starts one page
/// below the boundary.
pub proof fn lemma_align_down_before(x: int)
    requires
        x % (PAGE_SIZE as int) == 0,
    ensures
        spec_align_down(x - 1) == x - PAGE_SIZE,
{
    assert(spec_align_down(x - 1) == x - 0x1000) by (nonlinear_arith)
        requires
            x % 0x1000 == 0,
            spec_align_down(x - 1) == x - 1 - (x - 1) % 0x1000,
    ;
}

/// Round an address down to the start of its page.
pub fn align_down(addr: u64) -> (r: u64)
    ensures
        r == spec_align_down(addr as int),
        r % PAGE_SIZE == 0,
        r <= addr < r + PAGE_SIZE,
{
    addr / PAGE_SIZE * PAGE_SIZE
}

/// Round an address up to the next page boundary (or itself, if aligned).
pub fn align_up(addr: u64) -> (r: u64)
    requires
        addr <= MAX_ALIGNABLE,
    ensures
        r == spec_align_up(addr as int),
        r % PAGE_SIZE == 0,
        addr <= r < addr + PAGE_SIZE,
{
    (addr + (PAGE_SIZE - 1)) / PAGE_SIZE * PAGE_SIZE
}

/// The display mode the loader leaves the screen in: plain values copied
/// out of the firmware's mode description before services are exited.
#[derive(Clone, Copy, PartialEq, Eq, Structural, Debug)]
pub struct ModeInfo {
    pub horizontal_resolution: u32,
    pub vertical_resolution: u32,
    /// Pixel layout, as the firmware numbers it.
    pub pixel_format: u32,
    /// Pixels per scan line.
    pub stride: u32,
}

/// Graphic output information handed to the kernel.
#[derive(Clone, Copy, PartialEq, Eq, Structural, Debug)]
pub struct GraphicInfo {
    /// The final graphic mode.
    pub mode: ModeInfo,
    /// Framebuffer base physical address.
    pub fb_addr: u64,
    /// Framebuffer size in bytes.
    pub fb_size: u64,
}

/// The handoff record the loader passes to the kernel: produced exactly
/// once, immediately before the jump, from values captured while firmware
/// services were still available.
#[derive(Debug)]
pub struct BootInfo {
    /// Snapshot of the firmware memory map, taken just before services
    /// were exited.
    pub memory_map: Vec<crate::boot::MemoryDescriptor>,
    /// The offset into the virtual address space where physical memory is
    /// mapped.
    pub physical_memory_offset: u64,
    /// The graphic output information.
    pub graphic_info: GraphicInfo,
    /// Physical address of the ACPI root table.
    pub acpi2_rsdp_addr: u64,
    /// Physical address of the SMBIOS table; zero if absent.
    pub smbios_addr: u64,
    /// First physical address of the initial ramdisk; zero if absent.
    pub initramfs_addr: u64,
    /// Size in bytes of the initial ramdisk; zero if absent.
    pub initramfs_size: u64,
    /// The kernel command line.
    pub cmdline: Vec<u8>,
}


} // verus!
