use rboot::boot::{
    boot_step, compute_max_phys_addr, next_action, select_graphic_mode, stack_top, BootAction,
    BootStage, MemoryDescriptor, StepOutcome,
};

fn run_to(stage: BootStage, outcomes: &[StepOutcome]) -> BootStage {
    let mut s = stage;
    for o in outcomes {
        s = boot_step(s, *o);
    }
    s
}

#[test]
fn successful_boot_reaches_the_kernel() {
    let s = run_to(
        BootStage::Init,
        &[
            StepOutcome::Success,
            StepOutcome::Success,
            StepOutcome::Success,
            StepOutcome::Success,
            StepOutcome::Success,
            StepOutcome::Success,
            StepOutcome::Success,
        ],
    );
    assert_eq!(s, BootStage::KernelEntered);
}

#[test]
fn build_failure_aborts_before_exit() {
    // Frame exhaustion while building the address space aborts the boot;
    // no later outcome ever reaches the exit-boot-services stage.
    let before_build = run_to(
        BootStage::Init,
        &[StepOutcome::Success, StepOutcome::Success, StepOutcome::Success],
    );
    assert_eq!(before_build, BootStage::KernelLoaded);
    assert_eq!(next_action(before_build), BootAction::BuildAddressSpace);
    let aborted = boot_step(before_build, StepOutcome::Failure);
    assert_eq!(aborted, BootStage::Aborted);
    assert_eq!(next_action(aborted), BootAction::Halt);
    let later = run_to(aborted, &[StepOutcome::Success, StepOutcome::Success]);
    assert_eq!(later, BootStage::Aborted);
    assert_ne!(next_action(later), BootAction::ExitBootServices);
}

#[test]
fn secondary_timeout_is_not_fatal() {
    let built = run_to(
        BootStage::Init,
        &[
            StepOutcome::Success,
            StepOutcome::Success,
            StepOutcome::Success,
            StepOutcome::Success,
        ],
    );
    assert_eq!(built, BootStage::AddressSpaceBuilt);
    let after_timeout = boot_step(built, StepOutcome::Timeout);
    assert_eq!(after_timeout, BootStage::SecondaryProcessorsStarted);
    let done = run_to(after_timeout, &[StepOutcome::Success, StepOutcome::Success]);
    assert_eq!(done, BootStage::KernelEntered);
}

#[test]
fn early_failures_abort() {
    assert_eq!(boot_step(BootStage::Init, StepOutcome::Failure), BootStage::Aborted);
    assert_eq!(boot_step(BootStage::ConfigLoaded, StepOutcome::Failure), BootStage::Aborted);
    assert_eq!(
        boot_step(BootStage::SecondaryProcessorsStarted, StepOutcome::Failure),
        BootStage::Aborted,
    );
}

#[test]
fn actions_follow_the_stages() {
    assert_eq!(next_action(BootStage::Init), BootAction::LoadConfig);
    assert_eq!(next_action(BootStage::ConfigLoaded), BootAction::ConfigureGraphics);
    assert_eq!(next_action(BootStage::GraphicsConfigured), BootAction::LoadKernel);
    assert_eq!(next_action(BootStage::KernelLoaded), BootAction::BuildAddressSpace);
    assert_eq!(next_action(BootStage::AddressSpaceBuilt), BootAction::StartSecondaryProcessors);
    assert_eq!(
        next_action(BootStage::SecondaryProcessorsStarted),
        BootAction::ExitBootServices,
    );
    assert_eq!(next_action(BootStage::BootServicesExited), BootAction::EnterKernel);
    assert_eq!(next_action(BootStage::KernelEntered), BootAction::Halt);
}

fn region(phys_start: u64, page_count: u64) -> MemoryDescriptor {
    MemoryDescriptor { ty: 7, phys_start, virt_start: 0, page_count, attribute: 0 }
}

#[test]
fn max_phys_addr_takes_the_largest_region_end() {
    let regions = vec![region(0, 0x100), region(0x1_0000_0000, 0x8_0000), region(0x1000, 1)];
    // 0x1_0000_0000 + 0x8_0000 * 0x1000 = 0x1_8000_0000
    assert_eq!(compute_max_phys_addr(&regions), 0x1_8000_0000);
}

#[test]
fn max_phys_addr_is_floored_at_four_gib() {
    // Small machines still cover early memory-mapped devices below 4 GiB.
    let regions = vec![region(0, 0x100), region(0x10_0000, 0x10)];
    assert_eq!(compute_max_phys_addr(&regions), 0x1_0000_0000);
    let none: Vec<MemoryDescriptor> = Vec::new();
    assert_eq!(compute_max_phys_addr(&none), 0x1_0000_0000);
}

#[test]
fn graphic_mode_exact_match_is_found() {
    let modes = vec![(640, 480), (1024, 768), (1920, 1080), (1920, 1080)];
    assert_eq!(select_graphic_mode(&modes, Some((1920, 1080))), Some(2));
    assert_eq!(select_graphic_mode(&modes, Some((800, 600))), None);
    assert_eq!(select_graphic_mode(&modes, None), None);
}

#[test]
fn stack_top_is_above_the_last_page() {
    assert_eq!(stack_top(0xFFFF_FF01_0000_0000, 512), 0xFFFF_FF01_0020_0000);
}
