//! The boot orchestration state machine.
//!
//! The stages are strictly ordered and never retried: configuration load,
//! graphics setup, kernel image load, address-space construction,
//! secondary-processor startup, firmware-service exit, kernel handoff. The
//! first failure aborts the whole boot — with one deliberate exception:
//! failure or timeout of secondary-processor startup is not fatal, and the
//! primary processor continues alone. The caller that owns the firmware
//! performs one action at a time and feeds the outcome back; this module
//! decides what comes next.

use vstd::prelude::*;

verus! {

use crate::PAGE_SIZE;

/// Where the boot stands.
#[derive(Clone, Copy, PartialEq, Eq, Structural, Debug)]
pub enum BootStage {
    /// Nothing done yet.
    Init,
    /// The configuration text has been read and parsed.
    ConfigLoaded,
    /// The display mode is set and captured.
    GraphicsConfigured,
    /// The kernel image is in memory and its headers are parsed.
    KernelLoaded,
    /// Segments, stack and physical memory are mapped.
    AddressSpaceBuilt,
    /// Secondary processors were asked to start (or failed to, non-fatally).
    SecondaryProcessorsStarted,
    /// Firmware services are gone; only the handoff remains.
    BootServicesExited,
    /// Control has been handed to the kernel. Terminal.
    KernelEntered,
    /// A fatal condition stopped the boot. Terminal.
    Aborted,
}

/// What the caller must do to leave the current stage.
#[derive(Clone, Copy, PartialEq, Eq, Structural, Debug)]
pub enum BootAction {
    /// Read and parse the configuration file.
    LoadConfig,
    /// Pick and set the display mode, capture the framebuffer.
    ConfigureGraphics,
    /// Read the kernel image and parse its headers.
    LoadKernel,
    /// Run the segment mapper, the stack mapper and the physical-memory
    /// mapper.
    BuildAddressSpace,
    /// Populate the startup context, then start the secondary processors
    /// with a bounded timeout.
    StartSecondaryProcessors,
    /// Snapshot the memory map and exit firmware boot services.
    ExitBootServices,
    /// Jump to the kernel entry point. Never returns.
    EnterKernel,
    /// Stop: the boot is over (aborted or handed off).
    Halt,
}

/// How performing an action went.
#[derive(Clone, Copy, PartialEq, Eq, Structural, Debug)]
pub enum StepOutcome {
    Success,
    Failure,
    /// Only secondary-processor startup can time out.
    Timeout,
}

/// The action that leaves each stage.
pub open spec fn spec_next_action(stage: BootStage) -> BootAction {
    match stage {
        BootStage::Init => BootAction::LoadConfig,
        BootStage::ConfigLoaded => BootAction::ConfigureGraphics,
        BootStage::GraphicsConfigured => BootAction::LoadKernel,
        BootStage::KernelLoaded => BootAction::BuildAddressSpace,
        BootStage::AddressSpaceBuilt => BootAction::StartSecondaryProcessors,
        BootStage::SecondaryProcessorsStarted => BootAction::ExitBootServices,
        BootStage::BootServicesExited => BootAction::EnterKernel,
        BootStage::KernelEntered => BootAction::Halt,
        BootStage::Aborted => BootAction::Halt,
    }
}

/// The stage after performing the current stage's action with the given
/// outcome. Every failure is fatal except at secondary-processor startup,
/// where failure and timeout both continue with the primary processor
/// alone. Terminal stages stay where they are.
pub open spec fn spec_boot_step(stage: BootStage, outcome: StepOutcome) -> BootStage {
    match stage {
        BootStage::Init => if outcome is Success {
            BootStage::ConfigLoaded
        } else {
            BootStage::Aborted
        },
        BootStage::ConfigLoaded => if outcome is Success {
            BootStage::GraphicsConfigured
        } else {
            BootStage::Aborted
        },
        BootStage::GraphicsConfigured => if outcome is Success {
            BootStage::KernelLoaded
        } else {
            BootStage::Aborted
        },
        BootStage::KernelLoaded => if outcome is Success {
            BootStage::AddressSpaceBuilt
        } else {
            BootStage::Aborted
        },
        BootStage::AddressSpaceBuilt => BootStage::SecondaryProcessorsStarted,
        BootStage::SecondaryProcessorsStarted => if outcome is Success {
            BootStage::BootServicesExited
        } else {
            BootStage::Aborted
        },
        BootStage::BootServicesExited => if outcome is Success {
            BootStage::KernelEntered
        } else {
            BootStage::Aborted
        },
        BootStage::KernelEntered => BootStage::KernelEntered,
        BootStage::Aborted => BootStage::Aborted,
    }
}

/// The stage reached from `stage` after a whole sequence of outcomes.
pub open spec fn spec_run(stage: BootStage, outcomes: Seq<StepOutcome>) -> BootStage
    decreases outcomes.len(),
{
    if outcomes.len() == 0 {
        stage
    } else {
        spec_run(spec_boot_step(stage, outcomes[0]), outcomes.skip(1))
    }
}

/// The action that leaves the current stage.
pub fn next_action(stage: BootStage) -> (r: BootAction)
    ensures
        r == spec_next_action(stage),
{
    match stage {
        BootStage::Init => BootAction::LoadConfig,
        BootStage::ConfigLoaded => BootAction::ConfigureGraphics,
        BootStage::GraphicsConfigured => BootAction::LoadKernel,
        BootStage::KernelLoaded => BootAction::BuildAddressSpace,
        BootStage::AddressSpaceBuilt => BootAction::StartSecondaryProcessors,
        BootStage::SecondaryProcessorsStarted => BootAction::ExitBootServices,
        BootStage::BootServicesExited => BootAction::EnterKernel,
        BootStage::KernelEntered => BootAction::Halt,
        BootStage::Aborted => BootAction::Halt,
    }
}

/// Advance the state machine by one performed action.
pub fn boot_step(stage: BootStage, outcome: StepOutcome) -> (r: BootStage)
    ensures
        r == spec_boot_step(stage, outcome),
        stage == BootStage::AddressSpaceBuilt ==> r == BootStage::SecondaryProcessorsStarted,
        stage == BootStage::KernelLoaded && outcome != StepOutcome::Success ==> r
            == BootStage::Aborted,
{
    match stage {
        BootStage::Init => if matches!(outcome, StepOutcome::Success) {
            BootStage::ConfigLoaded
        } else {
            BootStage::Aborted
        },
        BootStage::ConfigLoaded => if matches!(outcome, StepOutcome::Success) {
            BootStage::GraphicsConfigured
        } else {
            BootStage::Aborted
        },
        BootStage::GraphicsConfigured => if matches!(outcome, StepOutcome::Success) {
            BootStage::KernelLoaded
        } else {
            BootStage::Aborted
        },
        BootStage::KernelLoaded => if matches!(outcome, StepOutcome::Success) {
            BootStage::AddressSpaceBuilt
        } else {
            BootStage::Aborted
        },
        BootStage::AddressSpaceBuilt => BootStage::SecondaryProcessorsStarted,
        BootStage::SecondaryProcessorsStarted => if matches!(outcome, StepOutcome::Success) {
            BootStage::BootServicesExited
        } else {
            BootStage::Aborted
        },
        BootStage::BootServicesExited => if matches!(outcome, StepOutcome::Success) {
            BootStage::KernelEntered
        } else {
            BootStage::Aborted
        },
        BootStage::KernelEntered => BootStage::KernelEntered,
        BootStage::Aborted => BootStage::Aborted,
    }
}

/// An aborted boot stays aborted, whatever happens afterwards.
pub proof fn lemma_aborted_stays(outcomes: Seq<StepOutcome>)
    ensures
        spec_run(BootStage::Aborted, outcomes) == BootStage::Aborted,
    decreases outcomes.len(),
{
    if outcomes.len() > 0 {
        lemma_aborted_stays(outcomes.skip(1));
    }
}

/// A failure while the address space is being built — frame exhaustion
/// included — aborts the whole boot before firmware services are ever
/// exited: whatever outcomes follow, the machine stays aborted, and the
/// only remaining action is to halt; exit is never requested.
pub proof fn lemma_build_failure_never_exits(outcome: StepOutcome, outcomes: Seq<StepOutcome>)
    requires
        outcome != StepOutcome::Success,
    ensures
        spec_boot_step(BootStage::KernelLoaded, outcome) == BootStage::Aborted,
        spec_run(spec_boot_step(BootStage::KernelLoaded, outcome), outcomes) == BootStage::Aborted,
        spec_next_action(spec_run(spec_boot_step(BootStage::KernelLoaded, outcome), outcomes))
            != BootAction::ExitBootServices,
{
    lemma_aborted_stays(outcomes);
}

/// The exit-boot-services action is requested only once the secondary
/// processors have been started: in no other stage does the machine ask
/// for it.
pub proof fn lemma_exit_only_after_secondary_start(stage: BootStage)
    ensures
        spec_next_action(stage) == BootAction::ExitBootServices <==> stage
            == BootStage::SecondaryProcessorsStarted,
{
}

/// A timeout (or failure) of secondary-processor startup does not prevent
/// the primary processor from reaching the terminal handoff stage: the
/// step is never fatal, and two further successful steps hand control to
/// the kernel.
pub proof fn lemma_secondary_timeout_not_fatal(outcome: StepOutcome)
    ensures
        spec_boot_step(BootStage::AddressSpaceBuilt, outcome)
            == BootStage::SecondaryProcessorsStarted,
        spec_run(
            spec_boot_step(BootStage::AddressSpaceBuilt, outcome),
            seq![StepOutcome::Success, StepOutcome::Success],
        ) == BootStage::KernelEntered,
{
    let s = seq![StepOutcome::Success, StepOutcome::Success];
    let st1 = spec_boot_step(BootStage::AddressSpaceBuilt, outcome);
    let st2 = spec_boot_step(st1, StepOutcome::Success);
    let st3 = spec_boot_step(st2, StepOutcome::Success);
    assert(s[0] == StepOutcome::Success);
    assert(s.skip(1) =~= seq![StepOutcome::Success]);
    assert(seq![StepOutcome::Success].skip(1) =~= Seq::<StepOutcome>::empty());
    assert(spec_run(st1, s) == spec_run(st2, seq![StepOutcome::Success]));
    assert(spec_run(st2, seq![StepOutcome::Success]) == spec_run(
        st3,
        Seq::<StepOutcome>::empty(),
    ));
    assert(spec_run(st3, Seq::<StepOutcome>::empty()) == st3);
}

/// The context shared with secondary processors. It is fully populated
/// before the start-processors call is issued and never written again;
/// from that point on it is read-only shared state.
#[derive(Clone, Copy, PartialEq, Eq, Structural, Debug)]
pub struct StartupContext {
    /// The kernel entry address the secondary processors will jump to.
    pub kernel_entry: u64,
    /// The offset at which physical memory is identity-mapped.
    pub physical_memory_offset: u64,
}

/// One region of the firmware's memory map.
#[derive(Clone, Copy, PartialEq, Eq, Structural, Debug)]
pub struct MemoryDescriptor {
    /// Memory kind, as the firmware reports it.
    pub ty: u32,
    /// First physical address of the region.
    pub phys_start: u64,
    /// Virtual address the firmware mapped the region at.
    pub virt_start: u64,
    /// Number of pages in the region.
    pub page_count: u64,
    /// Attribute bits of the region.
    pub attribute: u64,
}

/// Least address above every firmware-reported region, floored at 4 GiB so
/// that early memory-mapped devices below it stay addressable on
/// small-memory machines.
pub fn compute_max_phys_addr(regions: &Vec<MemoryDescriptor>) -> (r: u64)
    requires
        forall|i: int|
            0 <= i < regions@.len() ==> (#[trigger] regions@[i]).phys_start + regions@[i].page_count
                * PAGE_SIZE <= u64::MAX,
    ensures
        r >= 0x1_0000_0000,
        forall|i: int|
            0 <= i < regions@.len() ==> r >= (#[trigger] regions@[i]).phys_start
                + regions@[i].page_count * PAGE_SIZE,
        r == 0x1_0000_0000 || exists|i: int|
            0 <= i < regions@.len() && r == (#[trigger] regions@[i]).phys_start
                + regions@[i].page_count * PAGE_SIZE,
{
    let mut r: u64 = 0x1_0000_0000;
    let n = regions.len();
    let mut i: usize = 0;
    while i < n
        invariant
            n == regions@.len(),
            0 <= i <= n,
            forall|j: int|
                0 <= j < n ==> (#[trigger] regions@[j]).phys_start + regions@[j].page_count
                    * PAGE_SIZE <= u64::MAX,
            r >= 0x1_0000_0000,
            forall|j: int|
                0 <= j < i ==> r >= (#[trigger] regions@[j]).phys_start + regions@[j].page_count
                    * PAGE_SIZE,
            r == 0x1_0000_0000 || exists|j: int|
                0 <= j < n && r == (#[trigger] regions@[j]).phys_start + regions@[j].page_count
                    * PAGE_SIZE,
        decreases n - i,
    {
        let region = &regions[i];
        let end = region.phys_start + region.page_count * PAGE_SIZE;
        if end > r {
            r = end;
        }
        i = i + 1;
    }
    r
}

/// Index of the first display mode with exactly the requested resolution,
/// if one was requested and offered; modes are `(width, height)` pairs.
pub fn select_graphic_mode(modes: &Vec<(usize, usize)>, resolution: Option<(usize, usize)>) -> (r:
    Option<usize>)
    ensures
        resolution is None ==> r is None,
        resolution matches Some(res) ==> match r {
            Some(i) => i < modes@.len() && modes@[i as int] == res && (forall|j: int|
                0 <= j < i ==> modes@[j] != res),
            None => forall|j: int| 0 <= j < modes@.len() ==> modes@[j] != res,
        },
{
    let res = match resolution {
        Some(res) => res,
        None => {
            return None;
        },
    };
    let n = modes.len();
    let mut i: usize = 0;
    while i < n
        invariant
            n == modes@.len(),
            0 <= i <= n,
            resolution == Some(res),
            forall|j: int| 0 <= j < i ==> modes@[j] != res,
        decreases n - i,
    {
        let m = modes[i];
        if m.0 == res.0 && m.1 == res.1 {
            return Some(i);
        }
        i = i + 1;
    }
    None
}

/// The first address above the kernel stack: where the stack pointer is
/// placed before the handoff.
pub fn stack_top(stack_address: u64, stack_pages: u64) -> (r: u64)
    requires
        stack_address + stack_pages * PAGE_SIZE <= u64::MAX,
    ensures
        r == stack_address + stack_pages * PAGE_SIZE,
{
    stack_address + stack_pages * PAGE_SIZE
}

} // verus!
