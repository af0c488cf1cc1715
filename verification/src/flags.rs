//! Translation of segment permissions into native page-table flag bits.
//!
//! Two instruction-set families are supported; which one is in effect is a
//! choice the caller makes once and never changes inside a mapping loop.
//! Family A (`X86_64`) starts from a "present" base and must add an explicit
//! deny-execute bit when execute permission is absent. Family B (`Aarch64`)
//! starts from a "valid" base, must add an explicit read-only bit when write
//! permission is absent and a privileged-execute-deny bit when execute
//! permission is absent; its mappings additionally carry a memory-attribute
//! index selecting the normal cacheable attribute.

use vstd::prelude::*;

verus! {

/// Page-table entry bit 0 on the x86-64 family: the entry is present.
pub const X86_FLAG_PRESENT: u64 = 1;

/// Page-table entry bit 1 on the x86-64 family: the page is writable.
pub const X86_FLAG_WRITABLE: u64 = 1 << 1;

/// Page-table entry bit 63 on the x86-64 family: execution is denied.
pub const X86_FLAG_NO_EXECUTE: u64 = 1 << 63;

/// Descriptor bit 0 on the AArch64 family: the descriptor is valid.
pub const ARM_FLAG_VALID: u64 = 1;

/// Descriptor bit 7 on the AArch64 family (AP[2]): the page is read-only.
pub const ARM_FLAG_AP_RO: u64 = 1 << 7;

/// Descriptor bit 53 on the AArch64 family: privileged execution is denied.
pub const ARM_FLAG_PXN: u64 = 1 << 53;

/// Memory-attribute index carried by every AArch64 mapping, selecting the
/// normal cacheable attribute: the first entry of the attribute-indirection
/// register layout this loader programs. The index sits in descriptor bits
/// 4:2 (AttrIndx).
pub const ARM_ATTR_INDEX_NORMAL: u64 = 0;

/// The instruction-set family the page-table flags are produced for.
#[derive(Clone, Copy, PartialEq, Eq, Structural, Debug)]
pub enum Arch {
    X86_64,
    Aarch64,
}

/// Permissions of a loadable segment. Read permission is implicit in being
/// mapped at all; write and execute are explicit.
#[derive(Clone, Copy, PartialEq, Eq, Structural, Debug)]
pub struct SegmentFlags {
    pub read: bool,
    pub write: bool,
    pub execute: bool,
}

/// The native flag set that `trans_flags` returns.
pub open spec fn spec_trans_flags(arch: Arch, flags: SegmentFlags) -> u64 {
    match arch {
        Arch::X86_64 => X86_FLAG_PRESENT | (if flags.write {
            X86_FLAG_WRITABLE
        } else {
            0
        }) | (if flags.execute {
            0
        } else {
            X86_FLAG_NO_EXECUTE
        }),
        Arch::Aarch64 => ARM_FLAG_VALID | (ARM_ATTR_INDEX_NORMAL << 2) | (if flags.write {
            0
        } else {
            ARM_FLAG_AP_RO
        }) | (if flags.execute {
            0
        } else {
            ARM_FLAG_PXN
        }),
    }
}

/// The native flag set that `default_ptf` returns: always read and write,
/// never execute. The x86-64 family allows execution wherever the
/// deny-execute bit is clear, so it must be set here explicitly.
pub open spec fn spec_default_ptf(arch: Arch) -> u64 {
    match arch {
        Arch::X86_64 => X86_FLAG_PRESENT | X86_FLAG_WRITABLE | X86_FLAG_NO_EXECUTE,
        Arch::Aarch64 => ARM_FLAG_VALID | (ARM_ATTR_INDEX_NORMAL << 2) | ARM_FLAG_PXN,
    }
}

/// Translate segment permissions into the native page-table flags of `arch`.
/// A mapped page is always present (valid); absence of execute adds the
/// family's deny-execute bit; on the AArch64 family absence of write adds the
/// explicit read-only bit instead of a write-allow bit.
pub fn trans_flags(arch: Arch, flags: SegmentFlags) -> (r: u64)
    ensures
        r == spec_trans_flags(arch, flags),
{
    match arch {
        Arch::X86_64 => X86_FLAG_PRESENT | (if flags.write {
            X86_FLAG_WRITABLE
        } else {
            0
        }) | (if flags.execute {
            0
        } else {
            X86_FLAG_NO_EXECUTE
        }),
        Arch::Aarch64 => ARM_FLAG_VALID | (ARM_ATTR_INDEX_NORMAL << 2) | (if flags.write {
            0
        } else {
            ARM_FLAG_AP_RO
        }) | (if flags.execute {
            0
        } else {
            ARM_FLAG_PXN
        }),
    }
}

/// The flags used for the kernel stack and the physical-memory identity
/// mapping: present (valid) and writable, execution denied on both families.
pub fn default_ptf(arch: Arch) -> (r: u64)
    ensures
        r == spec_default_ptf(arch),
{
    match arch {
        Arch::X86_64 => X86_FLAG_PRESENT | X86_FLAG_WRITABLE | X86_FLAG_NO_EXECUTE,
        Arch::Aarch64 => ARM_FLAG_VALID | (ARM_ATTR_INDEX_NORMAL << 2) | ARM_FLAG_PXN,
    }
}

} // verus!
