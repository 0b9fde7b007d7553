use vstd::prelude::*;

verus! {

/// The core's single-pass state machine. Every transition is
/// one-directional; any failure at any state moves directly to the
/// terminal `Halted` state, and `HandoffInvoked` — control gone into the
/// kernel, never to return — is terminal too.
#[derive(Clone, Copy, Debug, PartialEq, Eq, Structural)]
pub enum BootStage {
    Normalize,
    AllocatorReady,
    PageTablesBuilt,
    MemoryMapFinal,
    FirmwareTablesSearched,
    HandoffInvoked,
    Halted,
}

/// Position of a stage along the single pass; the two terminal states rank
/// past every working state.
pub open spec fn stage_rank(s: BootStage) -> int {
    match s {
        BootStage::Normalize => 0,
        BootStage::AllocatorReady => 1,
        BootStage::PageTablesBuilt => 2,
        BootStage::MemoryMapFinal => 3,
        BootStage::FirmwareTablesSearched => 4,
        BootStage::HandoffInvoked => 5,
        BootStage::Halted => 5,
    }
}

/// The stage that follows `s` when its step succeeds.
pub open spec fn spec_next_stage(s: BootStage) -> BootStage {
    match s {
        BootStage::Normalize => BootStage::AllocatorReady,
        BootStage::AllocatorReady => BootStage::PageTablesBuilt,
        BootStage::PageTablesBuilt => BootStage::MemoryMapFinal,
        BootStage::MemoryMapFinal => BootStage::FirmwareTablesSearched,
        BootStage::FirmwareTablesSearched => BootStage::HandoffInvoked,
        BootStage::HandoffInvoked => BootStage::HandoffInvoked,
        BootStage::Halted => BootStage::Halted,
    }
}

/// Whether the boot flow is over: control handed off, or halted for good.
pub open spec fn is_terminal(s: BootStage) -> bool {
    s == BootStage::HandoffInvoked || s == BootStage::Halted
}

/// Advances the state machine by one step: on success to the next stage,
/// on failure straight to `Halted`. A terminal state never moves, and no
/// step ever goes back: the pass is one-directional.
pub fn advance_stage(s: BootStage, ok: bool) -> (r: BootStage)
    ensures
        r == if is_terminal(s) {
            s
        } else if ok {
            spec_next_stage(s)
        } else {
            BootStage::Halted
        },
        stage_rank(r) >= stage_rank(s),
        is_terminal(r) == (is_terminal(s) || !ok || s == BootStage::FirmwareTablesSearched),
{
    match s {
        BootStage::HandoffInvoked => BootStage::HandoffInvoked,
        BootStage::Halted => BootStage::Halted,
        _ => {
            if !ok {
                BootStage::Halted
            } else {
                match s {
                    BootStage::Normalize => BootStage::AllocatorReady,
                    BootStage::AllocatorReady => BootStage::PageTablesBuilt,
                    BootStage::PageTablesBuilt => BootStage::MemoryMapFinal,
                    BootStage::MemoryMapFinal => BootStage::FirmwareTablesSearched,
                    _ => BootStage::HandoffInvoked,
                }
            }
        },
    }
}

} // verus!
