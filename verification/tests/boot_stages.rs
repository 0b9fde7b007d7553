use early_boot::boot_flow::{advance_stage, BootStage};

#[test]
fn successful_pass_reaches_handoff() {
    let mut s = BootStage::Normalize;
    for expected in [
        BootStage::AllocatorReady,
        BootStage::PageTablesBuilt,
        BootStage::MemoryMapFinal,
        BootStage::FirmwareTablesSearched,
        BootStage::HandoffInvoked,
    ] {
        s = advance_stage(s, true);
        assert_eq!(s, expected);
    }
    // terminal: control has left the boot flow; nothing moves the machine
    assert_eq!(advance_stage(s, false), BootStage::HandoffInvoked);
    assert_eq!(advance_stage(s, true), BootStage::HandoffInvoked);
}

#[test]
fn any_failure_halts_for_good() {
    let halted = advance_stage(BootStage::PageTablesBuilt, false);
    assert_eq!(halted, BootStage::Halted);
    assert_eq!(advance_stage(halted, true), BootStage::Halted);
}
